//! Tensors in files: the rank, the dimensions, then the words, all with the lowest byte first.
use vstd::prelude::*;

use crate::dag::witness::{fits, known, DataType, Role, Witness};
use crate::field::GoldilocksField;

verus! {

/// The number in four bytes, the lowest first.
pub open spec fn four_bytes(b: Seq<u8>, at: int) -> int {
    b[at] + 0x100 * b[at + 1] + 0x1_0000 * b[at + 2] + 0x100_0000 * b[at + 3]
}

/// The number in eight bytes, the lowest first.
pub open spec fn eight_bytes(b: Seq<u8>, at: int) -> int {
    four_bytes(b, at) + 0x1_0000_0000 * four_bytes(b, at + 4)
}

/// Reads four bytes.
fn read_four(b: &[u8], at: usize) -> (r: u32)
    requires
        at + 4 <= b.len(),
    ensures
        r == four_bytes(b@, at as int),
{
    b[at] as u32 + 0x100 * b[at + 1] as u32 + 0x1_0000 * b[at + 2] as u32 + 0x100_0000 * b[at + 3] as u32
}

/// Reads eight bytes.
fn read_eight(b: &[u8], at: usize) -> (r: u64)
    requires
        at + 8 <= b.len(),
    ensures
        r == eight_bytes(b@, at as int),
{
    read_four(b, at) as u64 + 0x1_0000_0000 * (read_four(b, at + 4) as u64)
}

/// Bytes in front of the words.
pub open spec fn header_len(b: Seq<u8>) -> int {
    4 + 4 * four_bytes(b, 0)
}

/// The file has a rank, and as many dimensions.
pub open spec fn is_tensor_file(b: Seq<u8>) -> bool {
    b.len() >= 4 && header_len(b) <= b.len()
}

/// The dimensions in a file.
pub open spec fn file_shape(b: Seq<u8>) -> Seq<usize> {
    Seq::new(four_bytes(b, 0) as nat, |i: int| four_bytes(b, 4 + 4 * i) as usize)
}

/// The words in a file; bytes at the end that make no whole word are left out.
pub open spec fn file_words(b: Seq<u8>) -> Seq<GoldilocksField> {
    Seq::new(
        ((b.len() - header_len(b)) / 8) as nat,
        |i: int| GoldilocksField(eight_bytes(b, header_len(b) + 8 * i) as u64),
    )
}

/// Reads a tensor: its dimensions and its words. `None` for bytes that end before the dimensions do.
pub fn read_tensor(bytes: &[u8]) -> (r: Option<(Vec<usize>, Vec<GoldilocksField>)>)
    ensures
        r is Some <==> is_tensor_file(bytes@),
        r matches Some(t) ==> t.0@ == file_shape(bytes@) && t.1@ == file_words(bytes@),
{
    if bytes.len() < 4 {
        return None;
    }
    let ndim: usize = read_four(bytes, 0) as usize;
    if ndim > (bytes.len() - 4) / 4 {
        return None;
    }
    let mut shape: Vec<usize> = Vec::new();
    let mut i: usize = 0;
    while i < ndim
        invariant
            i <= ndim,
            ndim == four_bytes(bytes@, 0),
            4 + 4 * ndim <= bytes.len(),
            shape@ == file_shape(bytes@).take(i as int),
        decreases ndim - i,
    {
        shape.push(read_four(bytes, 4 + 4 * i) as usize);
        i = i + 1;
        assert(shape@ =~= file_shape(bytes@).take(i as int));
    }
    assert(shape@ =~= file_shape(bytes@));
    let start: usize = 4 + 4 * ndim;
    let count: usize = (bytes.len() - start) / 8;
    let mut words: Vec<GoldilocksField> = Vec::new();
    let mut k: usize = 0;
    while k < count
        invariant
            k <= count,
            start == header_len(bytes@),
            count == (bytes.len() - start) / 8,
            start <= bytes.len(),
            words@ == file_words(bytes@).take(k as int),
        decreases count - k,
    {
        words.push(GoldilocksField(read_eight(bytes, start + 8 * k)));
        k = k + 1;
        assert(words@ =~= file_words(bytes@).take(k as int));
    }
    assert(words@ =~= file_words(bytes@));
    Some((shape, words))
}

/// Reads a tensor of integers in fixed point. `None` for bytes that end before the dimensions do,
/// and for words that do not fit the dimensions.
pub fn load_tensor(bytes: &[u8], sf_log: usize, role: Role) -> (r: Option<Witness>)
    ensures
        r is Some <==> is_tensor_file(bytes@) && fits(file_shape(bytes@), file_words(bytes@).len()),
        r matches Some(t) ==> t@ == known(
            file_shape(bytes@),
            file_words(bytes@),
            DataType::Uint,
            sf_log,
            role,
        ),
{
    match read_tensor(bytes) {
        None => None,
        Some((shape, words)) => match crate::plan::weights::sizes(&shape) {
            None => None,
            Some((_entries, size)) => if words.len() <= size {
                Some(Witness::new(shape, words, DataType::Uint, sf_log, role))
            } else {
                None
            },
        },
    }
}

/// The bytes of a number, the lowest first, `k` of them.
pub open spec fn low_bytes(v: int, k: nat) -> Seq<u8>
    decreases k,
{
    if k == 0 {
        Seq::empty()
    } else {
        seq![(v % 0x100) as u8] + low_bytes(v / 0x100, (k - 1) as nat)
    }
}

/// Eight bytes of a word read back as the word.
pub proof fn lemma_word_bytes(v: u64)
    ensures
        low_bytes(v as int, 8).len() == 8,
        eight_bytes(low_bytes(v as int, 8), 0) == v,
{
    reveal_with_fuel(low_bytes, 9);
    let b = low_bytes(v as int, 8);
    let w = v as int;
    let q1 = w / 0x100;
    let q2 = q1 / 0x100;
    let q3 = q2 / 0x100;
    let q4 = q3 / 0x100;
    let q5 = q4 / 0x100;
    let q6 = q5 / 0x100;
    let q7 = q6 / 0x100;
    assert(b =~= seq![
        (w % 0x100) as u8,
        (q1 % 0x100) as u8,
        (q2 % 0x100) as u8,
        (q3 % 0x100) as u8,
        (q4 % 0x100) as u8,
        (q5 % 0x100) as u8,
        (q6 % 0x100) as u8,
        (q7 % 0x100) as u8,
    ]);
    assert(q7 < 0x100);
}

} // verus!
