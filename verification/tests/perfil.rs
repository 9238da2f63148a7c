use rgpu::leitura::{palavras_u32, palavras_u64, ErroLeitura};
use rgpu::perfil::{Marcas, MARCAS};
use rgpu::plano::Rotulo;

#[test]
fn sessao_fechada_nao_reserva() {
    let mut m = Marcas::nova(8);
    assert!(!m.ativo());
    assert_eq!(m.capacidade_perfil(), 4);
    assert_eq!(m.reservar(Rotulo::Matmul), None);
    assert!(m.rotulos().is_empty());
}

#[test]
fn reserva_pares_ate_a_capacidade() {
    let mut m = Marcas::nova(6);
    m.iniciar();
    assert!(m.ativo());
    assert_eq!(m.reservar(Rotulo::Matmul), Some((0, 1)));
    assert_eq!(m.reservar(Rotulo::Relu), Some((2, 3)));
    assert_eq!(m.reservar(Rotulo::Adam), Some((4, 5)));
    // Sem espaço para mais um par.
    assert_eq!(m.reservar(Rotulo::Adam), None);
    assert_eq!(m.rotulos(), &[Rotulo::Matmul, Rotulo::Relu, Rotulo::Adam]);
    assert_eq!(m.encerrar(), 6);
    assert!(!m.ativo());
    // Encerrar não apaga os rótulos da sessão.
    assert_eq!(m.rotulos().len(), 3);
}

#[test]
fn iniciar_zera_a_sessao() {
    let mut m = Marcas::nova(MARCAS);
    m.iniciar();
    m.reservar(Rotulo::Matmul);
    m.encerrar();
    m.iniciar();
    assert!(m.rotulos().is_empty());
    assert_eq!(m.reservar(Rotulo::Relu), Some((0, 1)));
    assert_eq!(m.capacidade_perfil(), 2048);
}

#[test]
fn agregar_soma_por_rotulo_do_mais_caro_ao_mais_barato() {
    let mut m = Marcas::nova(16);
    m.iniciar();
    m.reservar(Rotulo::Matmul);
    m.reservar(Rotulo::Relu);
    m.reservar(Rotulo::Matmul);
    m.reservar(Rotulo::Adam);
    m.encerrar();
    let tiques = [100, 150, 200, 210, 300, 400, 500, 510];
    let r = m.agregar(&tiques);
    assert_eq!(r, vec![(Rotulo::Matmul, 2, 150), (Rotulo::Relu, 1, 10), (Rotulo::Adam, 1, 10)]);
}

#[test]
fn agregar_ignora_contador_que_voltou() {
    let mut m = Marcas::nova(4);
    m.iniciar();
    m.reservar(Rotulo::Colsum);
    m.reservar(Rotulo::SoftmaxXent);
    m.encerrar();
    let r = m.agregar(&[50, 10, 0, 7]);
    assert_eq!(r, vec![(Rotulo::SoftmaxXent, 1, 7), (Rotulo::Colsum, 1, 0)]);
}

#[test]
fn agregar_bytes_le_palavras_de_64_bits() {
    let mut m = Marcas::nova(4);
    m.iniciar();
    m.reservar(Rotulo::BiasAdd);
    m.encerrar();
    let tiques: Vec<u64> = vec![1000, 1250];
    let bytes: &[u8] = bytemuck::cast_slice(&tiques);
    assert_eq!(m.agregar_bytes(bytes), Ok(vec![(Rotulo::BiasAdd, 1, 250)]));
    // Menos de duas marcas por despacho.
    assert_eq!(m.agregar_bytes(&bytes[..8]), Err(ErroLeitura::Bytes));
    // Tamanho que não fecha palavras.
    assert_eq!(m.agregar_bytes(&bytes[..12]), Err(ErroLeitura::Bytes));
}

#[test]
fn palavras_reinterpretam_os_bytes() {
    let w32: Vec<u32> = vec![0x0403_0201, 0xdead_beef];
    let b: &[u8] = bytemuck::cast_slice(&w32);
    assert_eq!(palavras_u32(b), Ok(w32.clone()));
    assert_eq!(palavras_u32(&b[..6]), Err(ErroLeitura::Bytes));

    let w64: Vec<u64> = vec![u64::MAX, 7];
    let b: &[u8] = bytemuck::cast_slice(&w64);
    assert_eq!(palavras_u64(b), Ok(w64.clone()));
    assert_eq!(palavras_u64(&b[..12]), Err(ErroLeitura::Bytes));
    let vazio: Vec<u64> = Vec::new();
    assert_eq!(palavras_u64(bytemuck::cast_slice(&vazio)), Ok(vec![]));
}

#[test]
fn agregar_palavras_falha_so_quando_faltam_marcas() {
    let mut m = Marcas::nova(8);
    m.iniciar();
    m.reservar(Rotulo::Relu);
    m.reservar(Rotulo::Relu);
    m.encerrar();
    assert_eq!(m.agregar_palavras(&[0, 5, 5]), Err(ErroLeitura::Bytes));
    assert_eq!(m.agregar_palavras(&[0, 5, 5, 7]), Ok(vec![(Rotulo::Relu, 2, 7)]));
    assert_eq!(m.agregar_palavras(&[0, 5, 5, 7, 9]), Ok(vec![(Rotulo::Relu, 2, 7)]));
}
