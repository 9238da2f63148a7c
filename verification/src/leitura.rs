//! Words read back from GPU buffers. A mapped buffer is a byte slice; the
//! caller of the GPU hands it over and these functions reinterpret it as
//! 32- or 64-bit words, in the byte order of the machine.

use vstd::prelude::*;

verus! {

/// The error of a reinterpretation of bytes as wider words.
#[verifier::external_type_specification]
#[verifier::external_body]
pub struct ExPodCastError(bytemuck::PodCastError);

/// The bytes did not make whole words at an aligned address.
#[derive(Clone, Copy, Debug, PartialEq, Eq, Structural)]
pub enum ErroLeitura {
    Bytes,
}

/// The four bytes of `b` from `k` on, least significant first.
pub open spec fn le32(b: Seq<u8>, k: int) -> int {
    b[k] + 256 * b[k + 1] + 65536 * b[k + 2] + 16777216 * b[k + 3]
}

/// The four bytes of `b` from `k` on, most significant first.
pub open spec fn be32(b: Seq<u8>, k: int) -> int {
    b[k + 3] + 256 * b[k + 2] + 65536 * b[k + 1] + 16777216 * b[k]
}

/// `w` holds the bytes `b` four at a time, all in the same byte order.
pub open spec fn palavras32(b: Seq<u8>, w: Seq<u32>) -> bool {
    &&& w.len() * 4 == b.len()
    &&& (forall|i: int| 0 <= i < w.len() ==> #[trigger] w[i] == le32(b, 4 * i)) || (forall|i: int|
        0 <= i < w.len() ==> #[trigger] w[i] == be32(b, 4 * i))
}

/// The eight bytes of `b` from `k` on, least significant first.
pub open spec fn le64(b: Seq<u8>, k: int) -> int {
    le32(b, k) + 4294967296 * le32(b, k + 4)
}

/// The eight bytes of `b` from `k` on, most significant first.
pub open spec fn be64(b: Seq<u8>, k: int) -> int {
    be32(b, k + 4) + 4294967296 * be32(b, k)
}

/// `w` holds the bytes `b` eight at a time, all in the same byte order.
pub open spec fn palavras64(b: Seq<u8>, w: Seq<u64>) -> bool {
    &&& w.len() * 8 == b.len()
    &&& (forall|i: int| 0 <= i < w.len() ==> #[trigger] w[i] == le64(b, 8 * i)) || (forall|i: int|
        0 <= i < w.len() ==> #[trigger] w[i] == be64(b, 8 * i))
}

/// `bytemuck::try_cast_slice::<u8, u32>`, collected into a vector: the bytes read as
/// 32-bit words in the machine's byte order. It fails when the length is not
/// a multiple of four, or when the slice does not start at an address
/// aligned for `u32`; which byte order applies is the machine's and is not
/// stated.
#[verifier::external_body]
fn bytes_para_u32(b: &[u8]) -> (r: Result<Vec<u32>, bytemuck::PodCastError>)
    ensures
        r matches Ok(w) ==> palavras32(b@, w@),
        b@.len() % 4 != 0 ==> r is Err,
{
    match bytemuck::try_cast_slice::<u8, u32>(b) {
        Ok(s) => Ok(s.to_vec()),
        Err(e) => Err(e),
    }
}

/// `bytemuck::try_cast_slice::<u8, u64>`, collected into a vector: the bytes read as
/// 64-bit words in the machine's byte order. It fails when the length is not
/// a multiple of eight, or when the slice does not start at an address
/// aligned for `u64`; which byte order applies is the machine's and is not
/// stated.
#[verifier::external_body]
fn bytes_para_u64(b: &[u8]) -> (r: Result<Vec<u64>, bytemuck::PodCastError>)
    ensures
        r matches Ok(w) ==> palavras64(b@, w@),
        b@.len() % 8 != 0 ==> r is Err,
{
    match bytemuck::try_cast_slice::<u8, u64>(b) {
        Ok(s) => Ok(s.to_vec()),
        Err(e) => Err(e),
    }
}

/// A mapped buffer read as 32-bit words.
pub fn palavras_u32(b: &[u8]) -> (r: Result<Vec<u32>, ErroLeitura>)
    ensures
        r matches Ok(w) ==> palavras32(b@, w@),
        b@.len() % 4 != 0 ==> r == Err::<Vec<u32>, ErroLeitura>(ErroLeitura::Bytes),
        r is Err ==> r == Err::<Vec<u32>, ErroLeitura>(ErroLeitura::Bytes),
{
    match bytes_para_u32(b) {
        Ok(w) => Ok(w),
        Err(_) => Err(ErroLeitura::Bytes),
    }
}

/// A mapped buffer read as 64-bit words.
pub fn palavras_u64(b: &[u8]) -> (r: Result<Vec<u64>, ErroLeitura>)
    ensures
        r matches Ok(w) ==> palavras64(b@, w@),
        b@.len() % 8 != 0 ==> r == Err::<Vec<u64>, ErroLeitura>(ErroLeitura::Bytes),
        r is Err ==> r == Err::<Vec<u64>, ErroLeitura>(ErroLeitura::Bytes),
{
    match bytes_para_u64(b) {
        Ok(w) => Ok(w),
        Err(_) => Err(ErroLeitura::Bytes),
    }
}

} // verus!
