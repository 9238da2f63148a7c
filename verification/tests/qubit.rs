use rgpu::qubit::{
    f16_par_para_f32_bits, f16_para_f32_bits, indices_do_par, DespachoPorta, ErroEstado, Estado,
    Precisao, LIMITE_BINDING,
};

#[test]
fn meia_precisao_alcanca_mais_qubits() {
    assert_eq!(Precisao::F32.max_qubits(), 27);
    assert_eq!(Precisao::F16.max_qubits(), 28);
    assert_eq!(Precisao::F16.bytes_por_amplitude(), 4);
}

#[test]
fn precisao_simples_ocupa_oito_bytes() {
    assert_eq!(Precisao::F32.bytes_por_amplitude(), 8);
    assert_eq!(Estado::MAX_QUBITS, 27);
}

#[test]
fn estado_sem_qubits_e_recusado() {
    assert_eq!(Estado::novo(0), Err(ErroEstado::SemQubits));
    assert_eq!(Estado::novo_com(0, Precisao::F16), Err(ErroEstado::SemQubits));
}

#[test]
fn estado_alem_do_teto_informa_o_tamanho() {
    // 28 qubits em precisão simples ocupam exatamente 2 GB.
    assert_eq!(
        Estado::novo_com(28, Precisao::F32),
        Err(ErroEstado::AlemDoTeto { qubits: 28, precisao: Precisao::F32, gb: 2, teto: 27 })
    );
    // 30 qubits em meia precisão ocupam 4 GB.
    assert_eq!(
        Estado::novo_com(30, Precisao::F16),
        Err(ErroEstado::AlemDoTeto { qubits: 30, precisao: Precisao::F16, gb: 4, teto: 28 })
    );
}

#[test]
fn estado_no_teto_e_aceito() {
    let e = Estado::novo_com(28, Precisao::F16).unwrap();
    assert_eq!(e.qubits(), 28);
    assert_eq!(e.precisao(), Precisao::F16);
    assert_eq!(e.amplitudes(), 1 << 28);
    assert_eq!(e.bytes(), (1 << 28) * 4);
    assert_eq!(e.palavras(), 1 << 28);
}

#[test]
fn estado_inicial_tem_amplitude_um_no_indice_zero() {
    let e = Estado::novo(3).unwrap();
    let v = e.palavras_iniciais();
    assert_eq!(v.len(), 16);
    assert_eq!(v[0], 1.0f32.to_bits());
    assert!(v[1..].iter().all(|&w| w == 0));

    let h = Estado::novo_com(3, Precisao::F16).unwrap();
    let v = h.palavras_iniciais();
    assert_eq!(v.len(), 8);
    assert_eq!(v[0], 0x3C00);
    assert!(v[1..].iter().all(|&w| w == 0));
}

#[test]
fn despacho_cobre_todos_os_pares() {
    let e = Estado::novo(4).unwrap();
    assert_eq!(e.despacho(2), DespachoPorta { pares: 8, qubit: 2, gx: 1, gy: 1 });
    // 2²⁷ amplitudes: 2²⁶ pares, 2¹⁸ grupos de 256, dobrados em 32768 × 8.
    let grande = Estado::novo(27).unwrap();
    assert_eq!(grande.despacho(0), DespachoPorta { pares: 1 << 26, qubit: 0, gx: 32768, gy: 8 });
}

#[test]
fn pares_percorrem_todos_os_indices_sem_repeticao() {
    // Lei: para cada qubit alvo, os pares cobrem 0..2ⁿ exatamente uma vez.
    let n = 5u32;
    for q in 0..n as u64 {
        let mut visto = vec![0u32; 1 << n];
        for p in 0..(1u64 << (n - 1)) {
            let (i0, i1) = indices_do_par(p, q);
            assert_eq!(i1 - i0, 1 << q);
            assert_eq!(i0 & (1 << q), 0);
            visto[i0 as usize] += 1;
            visto[i1 as usize] += 1;
        }
        assert!(visto.iter().all(|&c| c == 1), "qubit {q}: {visto:?}");
    }
}

#[test]
fn indices_do_par_insere_o_bit_zero() {
    // p = 0b1011, q = 2: 0b10 << 3 | 0b11 = 0b10011; parceiro 0b10111.
    assert_eq!(indices_do_par(0b1011, 2), (0b10011, 0b10111));
    assert_eq!(indices_do_par(0, 0), (0, 1));
    assert_eq!(indices_do_par(5, 0), (10, 11));
}

fn f16(h: u16) -> f32 {
    f32::from_bits(f16_para_f32_bits(h))
}

#[test]
fn meia_precisao_converte_valores_normais() {
    assert_eq!(f16(0x3C00), 1.0);
    assert_eq!(f16(0xC000), -2.0);
    assert_eq!(f16(0x3555), 0.333_251_95);
    assert_eq!(f16(0x7BFF), 65504.0);
    assert_eq!(f16(0x0000), 0.0);
    assert!(f16(0x8000).is_sign_negative() && f16(0x8000) == 0.0);
}

#[test]
fn meia_precisao_converte_subnormais() {
    // Menor subnormal: 2⁻²⁴; maior: 1023 · 2⁻²⁴.
    assert_eq!(f16(0x0001), 2.0f32.powi(-24));
    assert_eq!(f16(0x0200), 2.0f32.powi(-15));
    assert_eq!(f16(0x03FF), 1023.0 * 2.0f32.powi(-24));
    assert_eq!(f16(0x8001), -(2.0f32.powi(-24)));
}

#[test]
fn meia_precisao_converte_infinitos_e_nan() {
    assert_eq!(f16(0x7C00), f32::INFINITY);
    assert_eq!(f16(0xFC00), f32::NEG_INFINITY);
    assert!(f16(0x7E00).is_nan());
}

#[test]
fn palavra_empacotada_tem_real_embaixo_e_imaginario_em_cima() {
    let (re, im) = f16_par_para_f32_bits(0xC000_3C00);
    assert_eq!(f32::from_bits(re), 1.0);
    assert_eq!(f32::from_bits(im), -2.0);
}

#[test]
fn amplitudes_de_palavras_em_precisao_simples() {
    let e = Estado::novo(1).unwrap();
    let w = [1.0f32.to_bits(), 0, 0, (-0.5f32).to_bits()];
    assert_eq!(
        e.amplitudes_de(&w),
        vec![(1.0f32.to_bits(), 0), (0, (-0.5f32).to_bits())]
    );
    let b: &[u8] = bytemuck::cast_slice(&w);
    assert_eq!(e.baixar_de(b), Ok(e.amplitudes_de(&w)));
    assert!(e.baixar_de(&b[..5]).is_err());
}

#[test]
fn amplitudes_de_palavras_em_meia_precisao() {
    let e = Estado::novo_com(1, Precisao::F16).unwrap();
    // real 1.0 (0x3C00) embaixo, imaginário -2.0 (0xC000) em cima.
    let w = [0xC000_3C00u32, 0];
    assert_eq!(
        e.amplitudes_de(&w),
        vec![(1.0f32.to_bits(), (-2.0f32).to_bits()), (0, 0)]
    );
    let b: &[u8] = bytemuck::cast_slice(&w);
    assert_eq!(e.baixar_de(b), Ok(e.amplitudes_de(&w)));
}

#[test]
fn teto_e_o_maior_estado_que_cabe_num_binding() {
    for p in [Precisao::F32, Precisao::F16] {
        let b = p.bytes_por_amplitude() as u64;
        let teto = p.max_qubits() as u32;
        assert!((1u64 << teto) * b <= LIMITE_BINDING);
        assert!((1u64 << (teto + 1)) * b > LIMITE_BINDING);
    }
}
