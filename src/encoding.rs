//! Selectors as 4-byte words, their flat byte encoding, and the two-call
//! protocol that hands the encoding to a caller-sized buffer.
use vstd::prelude::*;
use crate::analysis::{selector_values, selectors};

verus! {

/// The four big-endian bytes of `v`.
pub open spec fn be_bytes(v: u32) -> Seq<u8> {
    seq![
        (v / 0x100_0000) as u8,
        (v / 0x1_0000 % 256) as u8,
        (v / 0x100 % 256) as u8,
        (v % 256) as u8,
    ]
}

/// The selectors of `code` under budget `gas_limit`, as byte words.
pub open spec fn selector_words(code: Seq<u8>, gas_limit: nat) -> Seq<Seq<u8>> {
    selectors(code, gas_limit).map_values(|v: u32| be_bytes(v))
}

pub open spec fn word_views(ws: Seq<[u8; 4]>) -> Seq<Seq<u8>> {
    ws.map_values(|w: [u8; 4]| w@)
}

/// The words of `ws`, each of four bytes, one after another.
pub open spec fn concat_words(ws: Seq<Seq<u8>>) -> Seq<u8> {
    Seq::new(4 * ws.len(), |j: int| ws[j / 4][j % 4])
}

/// `b` cut into consecutive 4-byte words; a trailing partial word is dropped.
pub open spec fn split_words(b: Seq<u8>) -> Seq<Seq<u8>> {
    Seq::new(b.len() / 4, |i: int| b.subrange(4 * i, 4 * i + 4))
}

/// The big-endian bytes of `v`.
pub fn selector_bytes(v: u32) -> (r: [u8; 4])
    ensures
        r@ == be_bytes(v),
{
    let r = [(v / 0x100_0000) as u8, (v / 0x1_0000 % 256) as u8, (v / 0x100 % 256) as u8, (v % 256) as u8];
    assert(r@ =~= be_bytes(v));
    r
}

/// The function selectors that `code` dispatches on, found within the budget
/// `gas_limit`: in order of discovery, without duplicates, each as its four
/// big-endian bytes. Running out of budget is no error: what was found by
/// then is returned.
pub fn function_selectors(code: &[u8], gas_limit: u32) -> (r: Vec<[u8; 4]>)
    ensures
        word_views(r@) == selector_words(code@, gas_limit as nat),
        gas_limit == 0 ==> r@.len() == 0,
        code@.len() == 0 ==> r@.len() == 0,
{
    let values = selector_values(code, gas_limit);
    let mut r: Vec<[u8; 4]> = Vec::new();
    let mut i: usize = 0;
    while i < values.len()
        invariant
            i <= values@.len(),
            r@.len() == i,
            forall|j: int| 0 <= j < i ==> #[trigger] r@[j]@ == be_bytes(values@[j]),
        decreases values@.len() - i,
    {
        let w = selector_bytes(values[i]);
        r.push(w);
        i = i + 1;
    }
    assert(word_views(r@) =~= selector_words(code@, gas_limit as nat));
    proof {
        crate::laws::lemma_zero_gas_finds_nothing(code@);
        crate::laws::lemma_empty_code_finds_nothing(gas_limit as nat);
    }
    r
}

/// The words of `sels`, one after another.
pub fn encode_selectors(sels: &Vec<[u8; 4]>) -> (r: Vec<u8>)
    ensures
        r@ == concat_words(word_views(sels@)),
{
    let mut r: Vec<u8> = Vec::new();
    let mut i: usize = 0;
    while i < sels.len()
        invariant
            i <= sels@.len(),
            r@.len() == 4 * i,
            forall|j: int| 0 <= j < 4 * i ==> #[trigger] r@[j] == sels@[j / 4]@[j % 4],
        decreases sels@.len() - i,
    {
        let w = sels[i];
        let mut k: usize = 0;
        while k < 4
            invariant
                i < sels@.len(),
                w == sels@[i as int],
                k <= 4,
                r@.len() == 4 * i + k,
                forall|j: int| 0 <= j < 4 * i + k ==> #[trigger] r@[j] == sels@[j / 4]@[j % 4],
            decreases 4 - k,
        {
            r.push(w[k]);
            k = k + 1;
        }
        i = i + 1;
    }
    assert(r@ =~= concat_words(word_views(sels@)));
    r
}

/// `bytes` cut into consecutive 4-byte words; a trailing partial word is
/// dropped.
pub fn decode_selectors(bytes: &[u8]) -> (r: Vec<[u8; 4]>)
    ensures
        word_views(r@) == split_words(bytes@),
{
    let n = bytes.len();
    let mut r: Vec<[u8; 4]> = Vec::new();
    let mut i: usize = 0;
    while i < n / 4
        invariant
            n == bytes@.len(),
            i <= n / 4,
            r@.len() == i,
            forall|j: int| 0 <= j < i ==> #[trigger] r@[j]@ == bytes@.subrange(4 * j, 4 * j + 4),
        decreases n / 4 - i,
    {
        let w = [bytes[4 * i], bytes[4 * i + 1], bytes[4 * i + 2], bytes[4 * i + 3]];
        assert(w@ =~= bytes@.subrange(4 * i, 4 * i + 4));
        r.push(w);
        i = i + 1;
    }
    assert(word_views(r@) =~= split_words(bytes@));
    r
}

/// Whether the encoded selectors fitted the caller's buffer.
#[derive(Clone, Copy, PartialEq, Eq, Structural, Debug)]
pub enum Status {
    Success,
    BufferTooSmall,
}

/// The answer to a request for the encoded selectors: the length the buffer
/// needs, always, and the bytes to copy, only when they fit.
pub struct BufferReply {
    pub status: Status,
    pub required_len: usize,
    pub bytes: Vec<u8>,
}

/// Computes the selectors of `code` and their encoding in full, then checks
/// it against a buffer of `capacity` bytes: the required length is always
/// reported, and the bytes are handed over only when they fit, never in
/// part.
pub fn selectors_for_buffer(code: &[u8], gas_limit: u32, capacity: usize) -> (r: BufferReply)
    ensures
        r.required_len == 4 * selectors(code@, gas_limit as nat).len(),
        r.status == Status::Success <==> r.required_len <= capacity,
        r.status == Status::Success ==> r.bytes@ == concat_words(selector_words(code@, gas_limit as nat)),
        r.status == Status::BufferTooSmall ==> r.bytes@.len() == 0,
{
    let sels = function_selectors(code, gas_limit);
    let bytes = encode_selectors(&sels);
    let required_len = bytes.len();
    if required_len > capacity {
        BufferReply { status: Status::BufferTooSmall, required_len, bytes: Vec::new() }
    } else {
        BufferReply { status: Status::Success, required_len, bytes }
    }
}

} // verus!
