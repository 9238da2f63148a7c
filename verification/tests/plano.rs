use rgpu::plano::{
    div_teto, grade, op_adam, op_bias_add, op_matmul, op_softmax_xent, ops_colsum, particoes, Buf,
    rotulos_u32, Kernel, OpPlano, PlanoMlp, Rotulo, Uniforme,
};

#[test]
fn grade_dobra_em_duas_dimensoes() {
    assert_eq!(grade(0), (0, 1));
    assert_eq!(grade(1), (1, 1));
    assert_eq!(grade(32768), (32768, 1));
    assert_eq!(grade(32769), (32768, 2));
    assert_eq!(grade(262144), (32768, 8));
}

#[test]
fn div_teto_arredonda_para_cima() {
    assert_eq!(div_teto(0, 4), 0);
    assert_eq!(div_teto(8, 4), 2);
    assert_eq!(div_teto(9, 4), 3);
    assert_eq!(particoes(32), 1);
    assert_eq!(particoes(33), 2);
}

#[test]
fn matmul_escolhe_o_ladrilho_do_kernel() {
    let o = op_matmul(true, Buf::Entrada, (100, 30), Buf::W(0), (30, 70), Buf::Z(0));
    assert_eq!(o.kernel, Kernel::MmF);
    assert_eq!(o.uniforme, Uniforme::Dims { m: 100, n: 70, k: 30 });
    assert_eq!(o.buffers, vec![Buf::Entrada, Buf::W(0), Buf::Z(0)]);
    assert_eq!((o.gx, o.gy), (2, 2));
    assert_eq!(o.rotulo.texto(), "matmul");
    let l = op_matmul(false, Buf::Entrada, (100, 30), Buf::W(0), (30, 70), Buf::Z(0));
    assert_eq!(l.kernel, Kernel::Mm);
    assert_eq!((l.gx, l.gy), (5, 7));
}

#[test]
fn vies_e_adam_usam_grupos_de_256() {
    let b = op_bias_add(Buf::Z(1), 1000, Buf::B(1), 10);
    assert_eq!(b.uniforme, Uniforme::P4 { a: 1000, b: 10, c: 4, d: 0 });
    assert_eq!(b.buffers, vec![Buf::B(1), Buf::Z(1)]);
    assert_eq!((b.gx, b.gy), (4, 1));
    let a = op_adam(Buf::Dw(0), Buf::W(0), Buf::Mw(0), Buf::Vw(0), 256 * 40000);
    assert_eq!(a.uniforme, Uniforme::Adam { n: 256 * 40000, gx: 32768 });
    assert_eq!((a.gx, a.gy), (32768, 2));
    assert_eq!(a.rotulo, Rotulo::Adam);
}

#[test]
fn entropia_cruzada_usa_64_linhas_por_grupo() {
    let o = op_softmax_xent(Buf::Z(2), 130, 10, Buf::Rotulos, Buf::Delta(2), Buf::Perda);
    assert_eq!(o.kernel, Kernel::Xent);
    assert_eq!(o.uniforme, Uniforme::P4 { a: 130, b: 10, c: 0, d: 0 });
    assert_eq!((o.gx, o.gy), (3, 1));
}

#[test]
fn soma_de_colunas_em_um_ou_dois_estagios() {
    let mut ops: Vec<OpPlano<Buf>> = Vec::new();
    ops_colsum(&mut ops, Buf::Delta(0), Buf::Db(0), Buf::Dbp(0), 32, 100);
    assert_eq!(ops.len(), 1);
    assert_eq!(ops[0].uniforme, Uniforme::P4 { a: 32, b: 100, c: 32, d: 0 });
    assert_eq!((ops[0].gx, ops[0].gy), (2, 1));
    ops_colsum(&mut ops, Buf::Delta(0), Buf::Db(0), Buf::Dbp(0), 100, 10);
    assert_eq!(ops.len(), 3);
    assert_eq!(ops[1].rotulo, Rotulo::Colsum1);
    assert_eq!(ops[1].buffers, vec![Buf::Delta(0), Buf::Dbp(0)]);
    assert_eq!((ops[1].gx, ops[1].gy), (1, 4));
    assert_eq!(ops[2].rotulo, Rotulo::Colsum2);
    assert_eq!(ops[2].uniforme, Uniforme::P4 { a: 4, b: 10, c: 4, d: 0 });
    assert_eq!(ops[2].buffers, vec![Buf::Dbp(0), Buf::Db(0)]);
}

#[test]
fn plano_de_tres_camadas() {
    let camadas = [(4, 16), (16, 16), (16, 3)];
    let p = PlanoMlp::planejar(&camadas, 64, true);
    // Avanço: 3 por camada oculta, 2 na última.
    assert_eq!(p.fwd.len(), 8);
    let rotulos: Vec<Rotulo> = p.fwd.iter().map(|o| o.rotulo).collect();
    assert_eq!(
        rotulos,
        vec![
            Rotulo::Matmul,
            Rotulo::BiasAdd,
            Rotulo::Relu,
            Rotulo::Matmul,
            Rotulo::BiasAdd,
            Rotulo::Relu,
            Rotulo::Matmul,
            Rotulo::BiasAdd
        ]
    );
    assert_eq!(p.fwd[3].buffers, vec![Buf::A(0), Buf::W(1), Buf::Z(1)]);
    // Perda, e por camada: Xᵀδ, dois estágios de soma (64 > 32), δWᵀ e relu'.
    assert_eq!(p.bwd.len(), 1 + 5 + 5 + 3);
    assert_eq!(p.bwd[0].rotulo, Rotulo::SoftmaxXent);
    assert_eq!(p.bwd[1].buffers, vec![Buf::A(1), Buf::Delta(2), Buf::Dw(2)]);
    assert_eq!(p.bwd[4].buffers, vec![Buf::Delta(2), Buf::W(2), Buf::Delta(1)]);
    assert_eq!(p.bwd[5].buffers, vec![Buf::Z(1), Buf::Delta(1)]);
    assert_eq!(p.bwd[11].buffers, vec![Buf::Entrada, Buf::Delta(0), Buf::Dw(0)]);
    assert_eq!(p.adam.len(), 6);
    assert_eq!(p.adam[5].buffers, vec![Buf::Db(2), Buf::B(2), Buf::Mb(2), Buf::Vb(2)]);
    assert_eq!(p.dispatches_por_passo(), 8 + 14 + 6);
    assert_eq!(p.forma(Buf::Dbp(1)), Some(vec![2, 16]));
    assert_eq!(p.forma(Buf::Entrada), Some(vec![64, 4]));
    assert_eq!(p.forma(Buf::W(3)), None);
}

#[test]
fn plano_de_uma_camada_com_lote_pequeno() {
    let p = PlanoMlp::planejar(&[(2, 1)], 4, false);
    assert_eq!(p.fwd.len(), 2);
    assert_eq!(p.bwd.len(), 3);
    assert_eq!(p.bwd[2].rotulo, Rotulo::Colsum);
    assert_eq!(p.dispatches_por_passo(), 2 + 3 + 2);
}

#[test]
fn rotulos_viram_palavras_de_32_bits() {
    assert_eq!(rotulos_u32(&[0, 3, 9]), vec![0u32, 3, 9]);
    assert_eq!(rotulos_u32(&[(1usize << 32) + 5]), vec![5u32]);
    assert!(rotulos_u32(&[]).is_empty());
}

#[test]
fn rotulos_tem_nome_legivel() {
    assert_eq!(Rotulo::Matmul.texto(), "matmul");
    assert_eq!(Rotulo::Colsum2.texto(), "colsum_2");
    assert_eq!(Rotulo::SoftmaxXent.texto(), "softmax_xent");
}
