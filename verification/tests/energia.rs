use rgpu::energia::{
    amostrar, atual_de, e_root_de, ler_u32, suportados_de, uid_de_status, DominioRapl, Rapl,
    TravaClock,
};

fn placa() -> Vec<u32> {
    // Frequências suportadas, da maior para a menor, como o nvidia-smi lista.
    (0..40).map(|i| 2100 - 45 * i).collect()
}

#[test]
fn amostragem_respeita_o_que_a_placa_suporta() {
    let todos = placa();
    let pontos = amostrar(&todos, 8);
    assert!(pontos.len() <= 8, "pediu 8, veio {}", pontos.len());
    assert!(!pontos.is_empty());
    for p in &pontos {
        assert!(todos.contains(p), "{p} MHz não é suportado");
    }
    assert!(pontos.windows(2).all(|w| w[0] < w[1]), "não está ordenado");
}

#[test]
fn amostrar_zero_devolve_vazio() {
    assert!(amostrar(&placa(), 0).is_empty());
}

#[test]
fn amostrar_escolhe_os_mais_proximos_dos_alvos() {
    // Alvos 300, 500, 700, 900 entre 300 e 900.
    // Para o alvo 500, 520 e 480 empatam: vence o primeiro da lista.
    let todos = vec![900, 800, 710, 520, 480, 300];
    assert_eq!(amostrar(&todos, 4), vec![300, 520, 710, 900]);
    // Alvos 300, 600, 900: 650 e 550 empatam em 600.
    let empate = vec![900, 650, 550, 300];
    assert_eq!(amostrar(&empate, 3), vec![300, 650, 900]);
    // Um ponto só: o alvo é a própria faixa inteira; fica a maior.
    assert_eq!(amostrar(&todos, 1), vec![900]);
}

#[test]
fn amostrar_com_poucas_frequencias_devolve_todas_em_ordem() {
    assert_eq!(amostrar(&[1500, 900, 300], 8), vec![300, 900, 1500]);
    assert!(amostrar(&[], 4).is_empty());
}

#[test]
fn suportados_le_uma_frequencia_por_linha() {
    let saida = b"2100\n 1995 \r\n1500\nnot supported\n\n1995\n+300\n-5\n99999999999\n";
    assert_eq!(suportados_de(saida), vec![2100, 1995, 1500, 300]);
    assert!(suportados_de(b"").is_empty());
    assert_eq!(suportados_de(b"705"), vec![705]);
}

#[test]
fn atual_le_o_valor_inteiro_da_saida() {
    assert_eq!(atual_de(b"  1695 \n"), Some(1695));
    assert_eq!(atual_de(b"[N/A]\n"), None);
    assert_eq!(atual_de(b""), None);
    assert_eq!(atual_de(b"4294967295"), Some(u32::MAX));
    assert_eq!(atual_de(b"4294967296"), None);
}

#[test]
fn ler_u32_recorta_e_valida() {
    let s = b"ab 12 cd";
    assert_eq!(ler_u32(s, 2, 6), Some(12));
    assert_eq!(ler_u32(s, 0, 8), None);
    assert_eq!(ler_u32(b"+", 0, 1), None);
    assert_eq!(ler_u32(b"007", 0, 3), Some(7));
}

#[test]
fn uid_vem_da_linha_uid() {
    let status = b"Name:\tbash\nUmask:\t0022\nUid:\t1000\t1000\t1000\t1000\nGid:\t0\n";
    assert_eq!(uid_de_status(status), Some(1000));
    assert!(!e_root_de(status));
    let root = b"Name:\tx\nUid:\t0\t0\t0\t0\n";
    assert_eq!(uid_de_status(root), Some(0));
    assert!(e_root_de(root));
    assert_eq!(uid_de_status(b"Name:\tx\n"), None);
    assert_eq!(uid_de_status(b"Uid:\n"), None);
}

#[test]
fn trava_guarda_a_frequencia() {
    assert_eq!(TravaClock::nova(1500).mhz(), 1500);
}

fn dominio(nome: &str, maximo: u64) -> DominioRapl {
    DominioRapl::novo(nome.to_string(), format!("/sys/{nome}/energy_uj"), maximo)
}

#[test]
fn rapl_diferencia_contadores_com_volta_ao_zero() {
    let rapl = Rapl { dominios: vec![dominio("core", 1000), dominio("package-0", 262_143_328_850), dominio("psys", 50)] };
    assert!(rapl.disponivel());
    assert_eq!(rapl.maximo(1), 262_143_328_850);
    assert_eq!(rapl.dominios[0].caminho(), "/sys/core/energy_uj");
    let antes = [Some(900), Some(10), None];
    let depois = [Some(100), Some(2_000_010), Some(5)];
    let d = rapl.delta(&antes, &depois);
    // core deu a volta: (1000 - 900) + 100.
    assert_eq!(d, vec![("core".to_string(), 200), ("package-0".to_string(), 2_000_000)]);
}

#[test]
fn rapl_vazio_nao_esta_disponivel() {
    let rapl = Rapl { dominios: vec![] };
    assert!(!rapl.disponivel());
    assert!(rapl.delta(&[], &[]).is_empty());
}

#[test]
fn espacos_unicode_sao_aparados_como_no_trim() {
    // U+00A0 antes de 900 e U+3000 depois de 800; U+2009 e U+0085 em volta de 700.
    let saida = "\u{a0}900\n800\u{3000}\n\u{2009}700\u{85}\n\u{2020}600\n";
    assert_eq!(suportados_de(saida.as_bytes()), vec![900, 800, 700]);
    for linha in saida.lines() {
        let esperado = linha.trim().parse::<u32>().ok();
        assert_eq!(atual_de(linha.as_bytes()), esperado);
    }
    let status = "Uid:\u{a0}0\u{2003}5\n".as_bytes();
    assert_eq!(uid_de_status(status), Some(0));
    let status = "Uid:\t12\u{a0}\n".as_bytes();
    assert_eq!(uid_de_status(status), Some(12));
}
