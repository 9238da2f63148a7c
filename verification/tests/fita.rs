use rgpu::fita::varrer;
use rgpu::tensor::Tensor;

fn escalar(x: i64) -> Tensor<i64> {
    Tensor::new(&[1], vec![x])
}

#[test]
fn varredura_acumula_na_ordem_e_para_na_raiz() {
    // 0, 1 folhas; 2 = f(0, 1); 3 = g(2, 0) é a raiz; 4 vem depois dela.
    let pais = vec![vec![], vec![], vec![0, 1], vec![2, 0], vec![3]];
    let tem = vec![false, false, true, true, true];
    let formas = vec![vec![1]; 5];
    let g = varrer(
        &pais,
        &tem,
        &formas,
        3,
        escalar(1),
        |i: usize, g: &Tensor<i64>| match i {
            2 => vec![g.map(|x| x * 2), g.map(|x| x * 3)],
            3 => vec![g.map(|x| x * 10), g.map(|x| x + 100)],
            _ => vec![g.map(|x| x)],
        },
        |a, b| a * 1000 + b,
    );
    let dados: Vec<Option<Vec<i64>>> = g.iter().map(|t| t.as_ref().map(|t| t.data().to_vec())).collect();
    // O nó 0 recebe primeiro de 3 (101), depois de 2 (20): soma(101, 20).
    assert_eq!(
        dados,
        vec![Some(vec![101 * 1000 + 20]), Some(vec![30]), Some(vec![10]), Some(vec![1]), None]
    );
}

#[test]
fn no_sem_vjp_nao_propaga() {
    let pais = vec![vec![], vec![0], vec![1]];
    let tem = vec![false, false, true];
    let formas = vec![vec![2]; 3];
    let g = varrer(
        &pais,
        &tem,
        &formas,
        2,
        Tensor::new(&[2], vec![1.0f32, 2.0]),
        |_i: usize, g: &Tensor<f32>| vec![g.map(|x| -x)],
        |a, b| a + b,
    );
    assert!(g[0].is_none());
    assert_eq!(g[1].as_ref().unwrap().data(), &[-1.0, -2.0]);
    assert_eq!(g[2].as_ref().unwrap().data(), &[1.0, 2.0]);
}
