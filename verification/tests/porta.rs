use rgpu::porta::{indices_do_grupo, mapa_expansao, posicoes_em, uniao_alvos};
use rgpu::qubit::indices_do_par;

#[test]
fn uniao_mantem_a_ordem_e_nao_repete() {
    assert_eq!(uniao_alvos(&[2, 0], &[0, 3, 3, 1]), vec![2, 0, 3, 1]);
    assert_eq!(uniao_alvos(&[], &[4, 4]), vec![4]);
    assert_eq!(uniao_alvos(&[1, 2], &[]), vec![1, 2]);
}

#[test]
fn posicoes_acham_cada_alvo_no_conjunto_novo() {
    assert_eq!(posicoes_em(&[3, 1], &[1, 5, 3]), Some(vec![2, 0]));
    assert_eq!(posicoes_em(&[3, 7], &[1, 5, 3]), None);
    assert_eq!(posicoes_em(&[], &[1]), Some(vec![]));
}

#[test]
fn expandir_no_proprio_conjunto_e_a_identidade() {
    let m = mapa_expansao(&[0, 1], 2);
    let esperado: Vec<Option<usize>> = (0..16).map(Some).collect();
    assert_eq!(m, esperado);
}

#[test]
fn expandir_e_kronecker_com_a_identidade() {
    // Porta de um qubit posta na posição 1 de um conjunto de dois: I ⊗ U.
    let m = mapa_expansao(&[1], 2);
    let esperado = vec![
        Some(0), None, Some(1), None,
        None, Some(0), None, Some(1),
        Some(2), None, Some(3), None,
        None, Some(2), None, Some(3),
    ];
    assert_eq!(m, esperado);
    // Alvos trocados de lugar: a base da porta é reordenada.
    let m = mapa_expansao(&[1, 0], 2);
    assert_eq!(
        m,
        [0, 2, 1, 3, 8, 10, 9, 11, 4, 6, 5, 7, 12, 14, 13, 15].map(Some).to_vec()
    );
}

#[test]
fn grupo_insere_os_bits_de_m_nos_alvos() {
    // Três qubits, alvos 2 e 0: o bit de g vai para a posição 1.
    assert_eq!(indices_do_grupo(0, &[2, 0], 3), vec![0, 4, 1, 5]);
    assert_eq!(indices_do_grupo(1, &[2, 0], 3), vec![2, 6, 3, 7]);
}

#[test]
fn grupo_de_um_alvo_e_o_par_da_porta1() {
    for q in 0..4usize {
        for g in 0..8usize {
            let (i0, i1) = indices_do_par(g as u64, q as u64);
            assert_eq!(indices_do_grupo(g, &[q], 4), vec![i0 as usize, i1 as usize]);
        }
    }
}

#[test]
fn grupos_cobrem_o_registrador_sem_repetir() {
    let alvos = [3, 1, 4];
    let n = 6;
    let mut visto = vec![0u32; 1 << n];
    for g in 0..(1 << (n - alvos.len())) {
        for i in indices_do_grupo(g, &alvos, n) {
            visto[i] += 1;
        }
    }
    assert!(visto.iter().all(|&v| v == 1));
}
