use rgpu::forma::{
    broadcast_ok, broadcast_shapes, broadcast_strides, broadcasts, bump, dot, is_column, tiled_period,
};
use rgpu::tensor::{same_shape, shape_is_indexable, shape_len, Tensor};

fn t(shape: &[usize], data: Vec<f32>) -> Tensor<f32> {
    Tensor::new(shape, data)
}

fn soma(a: f32, b: f32) -> f32 {
    a + b
}

#[test]
fn matmul_confere_com_calculo_manual() {
    let a = t(&[2, 3], vec![1., 2., 3., 4., 5., 6.]);
    let b = t(&[3, 2], vec![7., 8., 9., 10., 11., 12.]);
    let c = a.matmul(&b, 0.0, |x| x == 0.0, |acc, x, y| acc + x * y);
    assert_eq!(c.shape(), &[2, 2]);
    assert_eq!(c.data(), &[58., 64., 139., 154.]);
}

#[test]
fn broadcasting_soma_linha_em_todo_o_lote() {
    let x = t(&[2, 3], vec![1., 2., 3., 4., 5., 6.]);
    let b = t(&[1, 3], vec![10., 20., 30.]);
    assert_eq!(x.zip(&b, soma).data(), &[11., 22., 33., 14., 25., 36.]);
}

#[test]
fn reduce_to_desfaz_o_broadcasting() {
    let g = t(&[2, 3], vec![1., 2., 3., 4., 5., 6.]);
    assert_eq!(g.reduce_to(&[1, 3], 0.0, soma).data(), &[5., 7., 9.]);
    assert_eq!(g.reduce_to(&[2, 1], 0.0, soma).data(), &[6., 15.]);
}

#[test]
fn transposta_e_involutiva() {
    let a = t(&[2, 3], vec![1., 2., 3., 4., 5., 6.]);
    assert_eq!(a.t().t(), a);
    assert_eq!(a.t().shape(), &[3, 2]);
}

#[test]
fn transposta_troca_linhas_e_colunas() {
    let a = t(&[2, 3], vec![1., 2., 3., 4., 5., 6.]);
    assert_eq!(a.t().data(), &[1., 4., 2., 5., 3., 6.]);
    // Maior que um ladrilho de 32 nas duas direções.
    let r = 45;
    let c = 37;
    let m = Tensor::new(&[r, c], (0..r * c).map(|v| v as u32).collect());
    let mt = m.t();
    for i in 0..r {
        for j in 0..c {
            assert_eq!(mt.data()[j * r + i], m.data()[i * c + j]);
        }
    }
    assert_eq!(mt.t(), m);
}

#[test]
fn zip_com_mesmo_shape_e_elemento_a_elemento() {
    let a = t(&[2, 2], vec![1., 2., 3., 4.]);
    let b = t(&[2, 2], vec![10., 20., 30., 40.]);
    assert_eq!(a.zip(&b, |x, y| x * y).data(), &[10., 40., 90., 160.]);
}

#[test]
fn zip_com_escalar_aplica_a_todos() {
    let a = t(&[3], vec![1., 2., 3.]);
    let k = Tensor::scalar(2.0f32);
    assert_eq!(a.zip(&k, |x, y| x * y).data(), &[2., 4., 6.]);
    assert_eq!(k.zip(&a, |x, y| x - y).data(), &[1., 0., -1.]);
}

#[test]
fn zip_coluna_contra_matriz() {
    let m = t(&[2, 3], vec![1., 2., 3., 4., 5., 6.]);
    let s = t(&[2, 1], vec![10., 100.]);
    assert_eq!(m.zip(&s, |x, y| x / y).data(), &[0.1, 0.2, 0.3, 0.04, 0.05, 0.06]);
    assert_eq!(s.zip(&m, |x, y| x - y).data(), &[9., 8., 7., 96., 95., 94.]);
}

#[test]
fn zip_generico_difunde_nos_dois_lados() {
    // [2, 1, 3] com [2, 1]: saída [2, 2, 3].
    let a = Tensor::new(&[2, 1, 3], vec![1u32, 2, 3, 4, 5, 6]);
    let b = Tensor::new(&[2, 1], vec![10u32, 20]);
    let c = a.zip(&b, |x, y| x + y);
    assert_eq!(c.shape(), &[2, 2, 3]);
    assert_eq!(c.data(), &[11, 12, 13, 21, 22, 23, 14, 15, 16, 24, 25, 26]);
}

#[test]
fn reduce_to_soma_total_e_generica() {
    let g = Tensor::new(&[2, 3], vec![1u64, 2, 3, 4, 5, 6]);
    assert_eq!(g.reduce_to(&[], 0, |a, b| a + b).data(), &[21]);
    assert_eq!(g.reduce_to(&[1, 1], 0, |a, b| a + b).data(), &[21]);
    assert_eq!(g.reduce_to(&[3], 0, |a, b| a + b).data(), &[5, 7, 9]);
    // Eixo do meio difundido: caminho genérico.
    let h = Tensor::new(&[2, 2, 2], vec![1u64, 2, 3, 4, 5, 6, 7, 8]);
    let r = h.reduce_to(&[2, 1, 2], 0, |a, b| a + b);
    assert_eq!(r.shape(), &[2, 1, 2]);
    assert_eq!(r.data(), &[4, 6, 12, 14]);
}

#[test]
fn reduce_to_no_proprio_shape_devolve_o_tensor() {
    let g = t(&[2, 2], vec![-0.0, 1., 2., 3.]);
    let r = g.reduce_to(&[2, 2], 0.0, soma);
    assert_eq!(r, g);
    assert!(r.data()[0].is_sign_negative());
}

#[test]
fn matmul_pula_fatores_nulos_e_bloca_matrizes_grandes() {
    let a = t(&[1, 2], vec![0., 2.]);
    let b = t(&[2, 2], vec![1., 1., 3., 4.]);
    let mut chamadas = std::cell::Cell::new(0);
    let c = a.matmul(&b, 0.0, |x| x == 0.0, |acc, x, y| {
        chamadas.set(chamadas.get() + 1);
        acc + x * y
    });
    assert_eq!(c.data(), &[6., 8.]);
    assert_eq!(*chamadas.get_mut(), 2);
    // k·n acima de 32768 força a blocagem em painéis.
    let (m, k, n) = (3, 130, 300);
    let a = Tensor::new(&[m, k], (0..m * k).map(|v| (v % 7) as u64).collect());
    let b = Tensor::new(&[k, n], (0..k * n).map(|v| (v % 5) as u64).collect());
    let c = a.matmul(&b, 0, |x| x == 0, |acc, x, y| acc + x * y);
    for i in 0..m {
        for j in 0..n {
            let esperado: u64 = (0..k).map(|p| a.data()[i * k + p] * b.data()[p * n + j]).sum();
            assert_eq!(c.data()[i * n + j], esperado);
        }
    }
}

#[test]
fn map_aplica_em_cada_elemento() {
    let a = t(&[2, 2], vec![1., -2., 3., -4.]);
    let b = a.map(|x| x * 2.0);
    assert_eq!(b.shape(), &[2, 2]);
    assert_eq!(b.data(), &[2., -4., 6., -8.]);
}

#[test]
fn argmax_rows_fica_com_o_primeiro_empate() {
    let z = t(&[3, 3], vec![1., 5., 5., 9., 0., 1., -1., -1., -1.]);
    assert_eq!(z.argmax_rows(|a, b| a > b), vec![1, 0, 0]);
    let vazio = t(&[4, 0], vec![]);
    assert!(vazio.argmax_rows(|a, b| a > b).is_empty());
}

#[test]
fn rows_e_take_rows_recortam_linhas() {
    let x = t(&[3, 2], vec![1., 2., 3., 4., 5., 6.]);
    let r = x.rows(1, 3);
    assert_eq!(r.shape(), &[2, 2]);
    assert_eq!(r.data(), &[3., 4., 5., 6.]);
    let p = x.take_rows(&[2, 0, 2]);
    assert_eq!(p.shape(), &[3, 2]);
    assert_eq!(p.data(), &[5., 6., 1., 2., 5., 6.]);
}

#[test]
fn construtores_e_acessores() {
    let s = Tensor::scalar(3.5f32);
    assert!(s.is_scalar());
    assert_eq!(s.rank(), 0);
    assert_eq!(s.item(), 3.5);
    let f = Tensor::full(&[2, 3], 7u8);
    assert_eq!(f.len(), 6);
    assert!(!f.is_empty());
    assert!(f.data().iter().all(|&v| v == 7));
    let r = f.reshape(&[3, 2]);
    assert_eq!(r.shape(), &[3, 2]);
    let mut m = t(&[2], vec![1., 2.]);
    m.data_mut()[1] = 5.0;
    assert_eq!(m.data(), &[1., 5.]);
}

#[test]
fn shapes_sao_comparados_e_medidos() {
    assert!(same_shape(&[2, 3], &[2, 3]));
    assert!(!same_shape(&[2, 3], &[3, 2]));
    assert!(!same_shape(&[2], &[2, 1]));
    assert_eq!(shape_len(&[2, 3, 4]), 24);
    assert_eq!(shape_len(&[]), 1);
    assert!(shape_is_indexable(&[1 << 20, 1 << 20]));
    assert!(!shape_is_indexable(&[usize::MAX, 2]));
    assert!(shape_is_indexable(&[0, usize::MAX]));
}

#[test]
fn broadcast_shapes_alinha_pela_direita() {
    assert_eq!(broadcast_shapes(&[2, 3], &[3]), vec![2, 3]);
    assert_eq!(broadcast_shapes(&[2, 1], &[1, 4]), vec![2, 4]);
    assert_eq!(broadcast_shapes(&[], &[5, 1]), vec![5, 1]);
    assert_eq!(broadcast_shapes(&[3], &[2, 3]), broadcast_shapes(&[2, 3], &[3]));
}

#[test]
fn broadcast_strides_zera_os_eixos_difundidos() {
    assert_eq!(broadcast_strides(&[1, 3], &[2, 3]), vec![0, 1]);
    assert_eq!(broadcast_strides(&[2, 1], &[2, 3]), vec![1, 0]);
    assert_eq!(broadcast_strides(&[4], &[2, 3, 4]), vec![0, 0, 1]);
    assert_eq!(broadcast_strides(&[2, 3, 4], &[2, 3, 4]), vec![12, 4, 1]);
}

#[test]
fn tiled_period_reconhece_blocos_contiguos() {
    assert_eq!(tiled_period(&[1, 3], &[4, 3]), Some(3));
    assert_eq!(tiled_period(&[3], &[4, 3]), Some(3));
    assert_eq!(tiled_period(&[4, 3], &[4, 3]), Some(12));
    assert_eq!(tiled_period(&[4, 1], &[4, 3]), None);
    assert_eq!(tiled_period(&[], &[4, 3]), Some(1));
}

#[test]
fn bump_avanca_em_ordem_de_linha() {
    let shape = [2, 3];
    let mut idx = [0usize, 0];
    let mut vistos = vec![];
    for _ in 0..6 {
        vistos.push((idx[0], idx[1]));
        bump(&mut idx, &shape);
    }
    assert_eq!(vistos, vec![(0, 0), (0, 1), (0, 2), (1, 0), (1, 1), (1, 2)]);
    assert_eq!(idx, [0, 0]);
}

#[test]
fn is_column_exige_eixo_unitario() {
    assert!(is_column(&[4, 1], 4));
    assert!(!is_column(&[4], 4));
    assert!(!is_column(&[4, 2], 4));
    assert!(!is_column(&[3, 1], 4));
}

#[test]
fn dot_soma_indices_por_strides() {
    assert_eq!(dot(&[1, 2, 3], &[12, 4, 1]), 23);
    assert_eq!(dot(&[], &[]), 0);
}

#[test]
fn broadcast_ok_e_broadcasts_seguem_as_regras_do_numpy() {
    assert!(broadcast_ok(&[2, 3], &[3]));
    assert!(broadcast_ok(&[2, 1], &[1, 4]));
    assert!(!broadcast_ok(&[2, 3], &[4]));
    assert!(broadcast_ok(&[], &[7, 5]));
    assert!(broadcasts(&[1, 3], &[2, 3]));
    assert!(broadcasts(&[3], &[2, 3]));
    assert!(!broadcasts(&[2, 3], &[3]));
    assert!(!broadcasts(&[2, 1], &[1, 3]));
}
