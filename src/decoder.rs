//! Instruction decoding: immediate widths, instruction boundaries and the
//! table of valid jump destinations.
use vstd::prelude::*;

verus! {

/// The `JUMPDEST` opcode, the only legal target of a jump.
pub const JUMPDEST: u8 = 0x5b;

/// Number of immediate bytes that follow opcode `op` (`PUSH1` .. `PUSH32`).
pub open spec fn push_width(op: u8) -> nat {
    if 0x60 <= op && op <= 0x7f {
        (op - 0x5f) as nat
    } else {
        0
    }
}

/// Offset of the instruction that follows the one at `p`.
pub open spec fn next_offset(code: Seq<u8>, p: int) -> int {
    p + 1 + push_width(code[p])
}

/// `q` is reached from the instruction boundary `p` by decoding forward.
pub open spec fn reaches(code: Seq<u8>, p: int, q: int) -> bool
    decreases q - p,
{
    if p >= q {
        p == q
    } else if p < code.len() && next_offset(code, p) <= q {
        reaches(code, next_offset(code, p), q)
    } else {
        false
    }
}

/// An instruction starts at `q` when decoding from offset zero lands there.
pub open spec fn is_boundary(code: Seq<u8>, q: int) -> bool {
    0 <= q < code.len() && reaches(code, 0, q)
}

/// `q` is a valid jump destination: a `JUMPDEST` instruction (not a byte
/// inside some push immediate).
pub open spec fn is_jumpdest(code: Seq<u8>, q: int) -> bool {
    is_boundary(code, q) && code[q] == JUMPDEST
}

/// Big-endian value of a byte string.
pub open spec fn be_value(s: Seq<u8>) -> nat
    decreases s.len(),
{
    if s.len() == 0 {
        0
    } else {
        be_value(s.drop_last()) * 256 + s.last() as nat
    }
}

pub open spec fn pow256(n: nat) -> nat
    decreases n,
{
    if n == 0 {
        1
    } else {
        256 * pow256((n - 1) as nat)
    }
}

proof fn lemma_be_value_bound(s: Seq<u8>)
    ensures
        be_value(s) < pow256(s.len()),
    decreases s.len(),
{
    if s.len() > 0 {
        lemma_be_value_bound(s.drop_last());
        let a = be_value(s.drop_last());
        let p = pow256((s.len() - 1) as nat);
        let b = s.last() as nat;
        assert(a * 256 + b < 256 * p) by (nonlinear_arith)
            requires
                a < p,
                b < 256,
        ;
    }
}

proof fn lemma_reaches_forward(code: Seq<u8>, p: int, q: int)
    requires
        reaches(code, p, q),
    ensures
        p <= q,
{
}

/// Two boundaries reached from one start lie on one chain.
proof fn lemma_reaches_chain(code: Seq<u8>, a: int, p: int, q: int)
    requires
        reaches(code, a, p),
        reaches(code, a, q),
        p <= q,
    ensures
        reaches(code, p, q),
    decreases p - a,
{
    if a < p {
        lemma_reaches_chain(code, next_offset(code, a), p, q);
    }
}

/// No instruction starts strictly inside the instruction at boundary `p`.
pub proof fn lemma_no_boundary_inside(code: Seq<u8>, p: int, q: int)
    requires
        reaches(code, 0, p),
        p < q < next_offset(code, p),
    ensures
        !reaches(code, 0, q),
{
    if reaches(code, 0, q) {
        lemma_reaches_chain(code, 0, p, q);
        lemma_reaches_forward(code, next_offset(code, p), q);
    }
}

/// Width in bytes of the immediate of opcode `op`.
pub fn immediate_width(op: u8) -> (w: usize)
    ensures
        w == push_width(op),
        w <= 32,
{
    if 0x60 <= op && op <= 0x7f {
        (op - 0x5f) as usize
    } else {
        0
    }
}

/// Big-endian value of `code[start .. start + w]`, for at most four bytes.
pub fn read_word(code: &[u8], start: usize, w: usize) -> (v: u32)
    requires
        w <= 4,
        start + w <= code@.len(),
    ensures
        v as nat == be_value(code@.subrange(start as int, start + w)),
{
    let n = code.len();
    let mut v: u64 = 0;
    let mut i: usize = 0;
    while i < w
        invariant
            n == code@.len(),
            i <= w,
            w <= 4,
            start + w <= code@.len(),
            v as nat == be_value(code@.subrange(start as int, start + i)),
        decreases w - i,
    {
        proof {
            let s = code@.subrange(start as int, start + i + 1);
            assert(s.drop_last() =~= code@.subrange(start as int, start + i));
            lemma_be_value_bound(code@.subrange(start as int, start + i));
            assert(pow256(i as nat) <= 0x100_0000) by {
                reveal_with_fuel(pow256, 5);
            }
            assert(v < 0x100_0000);
        }
        let b = code[start + i];
        v = v * 256 + b as u64;
        i = i + 1;
    }
    proof {
        lemma_be_value_bound(code@.subrange(start as int, start + w));
        reveal_with_fuel(pow256, 5);
    }
    v as u32
}

/// The table of valid jump destinations: entry `q` is true exactly when a
/// `JUMPDEST` instruction starts at offset `q`. Decoding stops without
/// error at a push whose immediate runs past the end of the code.
pub fn jump_destinations(code: &[u8]) -> (r: Vec<bool>)
    ensures
        r@.len() == code@.len(),
        forall|q: int| 0 <= q < code@.len() ==> (r@[q] <==> is_jumpdest(code@, q)),
{
    let n = code.len();
    let mut r: Vec<bool> = Vec::new();
    let mut i: usize = 0;
    while i < n
        invariant
            i <= n,
            n == code@.len(),
            r@.len() == i,
            forall|q: int| 0 <= q < i ==> !r@[q],
        decreases n - i,
    {
        r.push(false);
        i = i + 1;
    }
    let mut p: usize = 0;
    while p < n
        invariant_except_break
            p <= n,
        invariant
            n == code@.len(),
            r@.len() == n,
            reaches(code@, 0, p as int),
            forall|q: int| 0 <= q < n ==> (r@[q] <==> (q < p && is_jumpdest(code@, q))),
        ensures
            forall|q: int| 0 <= q < n ==> (r@[q] <==> is_jumpdest(code@, q)),
        decreases n - p,
    {
        let op = code[p];
        let w = immediate_width(op);
        if op == JUMPDEST {
            r.set(p, true);
        }
        if w >= n - p {
            assert forall|q: int| p < q < n implies !reaches(code@, 0, q) by {
                lemma_no_boundary_inside(code@, p as int, q);
            }
            break;
        }
        let np = p + 1 + w;
        assert forall|q: int| p < q < np implies !reaches(code@, 0, q) by {
            lemma_no_boundary_inside(code@, p as int, q);
        }
        assert(reaches(code@, 0, np as int)) by {
            assert(reaches(code@, np as int, np as int));
            assert(reaches(code@, p as int, np as int));
            lemma_reaches_append(code@, 0, p as int, np as int);
        }
        p = np;
    }
    r
}

proof fn lemma_reaches_append(code: Seq<u8>, a: int, p: int, q: int)
    requires
        reaches(code, a, p),
        reaches(code, p, q),
    ensures
        reaches(code, a, q),
    decreases p - a,
{
    if a < p {
        lemma_reaches_append(code, next_offset(code, a), p, q);
    }
}

/// A decoded instruction: its offset, its opcode, and the immediate bytes of
/// a push (empty for every other opcode).
pub struct Instruction {
    pub offset: usize,
    pub opcode: u8,
    pub immediate: Vec<u8>,
}

/// A whole instruction, immediate included, starts at offset `q`.
pub open spec fn complete_at(code: Seq<u8>, q: int) -> bool {
    is_boundary(code, q) && next_offset(code, q) <= code.len()
}

/// `ins` is the instruction of `code` at its offset.
pub open spec fn decoded_at(code: Seq<u8>, ins: Instruction) -> bool {
    let q = ins.offset as int;
    &&& complete_at(code, q)
    &&& ins.opcode == code[q]
    &&& ins.immediate@ == code.subrange(q + 1, next_offset(code, q))
}

fn copy_range(code: &[u8], start: usize, end: usize) -> (r: Vec<u8>)
    requires
        start <= end <= code@.len(),
    ensures
        r@ == code@.subrange(start as int, end as int),
{
    let mut r: Vec<u8> = Vec::new();
    let mut i: usize = start;
    while i < end
        invariant
            start <= i <= end,
            end <= code@.len(),
            r@ == code@.subrange(start as int, i as int),
        decreases end - i,
    {
        r.push(code[i]);
        i = i + 1;
        assert(r@ =~= code@.subrange(start as int, i as int));
    }
    r
}

/// The instructions of `code` in order of their offsets. Decoding stops,
/// without error, at a push whose immediate would run past the end.
pub fn decode(code: &[u8]) -> (r: Vec<Instruction>)
    ensures
        forall|i: int| 0 <= i < r@.len() ==> decoded_at(code@, #[trigger] r@[i]),
        forall|i: int, j: int| 0 <= i < j < r@.len() ==> r@[i].offset < r@[j].offset,
        forall|q: int| complete_at(code@, q) <==> exists|i: int| 0 <= i < r@.len() && #[trigger] r@[i].offset == q,
{
    let n = code.len();
    let mut r: Vec<Instruction> = Vec::new();
    let mut p: usize = 0;
    while p < n
        invariant_except_break
            p <= n,
        invariant
            n == code@.len(),
            reaches(code@, 0, p as int),
            forall|i: int| 0 <= i < r@.len() ==> decoded_at(code@, #[trigger] r@[i]),
            forall|i: int| 0 <= i < r@.len() ==> #[trigger] r@[i].offset < p,
            forall|i: int, j: int| 0 <= i < j < r@.len() ==> r@[i].offset < r@[j].offset,
            forall|q: int| 0 <= q < p && complete_at(code@, q) ==> exists|i: int| 0 <= i < r@.len() && #[trigger] r@[i].offset == q,
        ensures
            forall|i: int| 0 <= i < r@.len() ==> decoded_at(code@, #[trigger] r@[i]),
            forall|i: int, j: int| 0 <= i < j < r@.len() ==> r@[i].offset < r@[j].offset,
            forall|q: int| complete_at(code@, q) ==> exists|i: int| 0 <= i < r@.len() && #[trigger] r@[i].offset == q,
        decreases n - p,
    {
        let op = code[p];
        let w = immediate_width(op);
        if w >= n - p {
            assert forall|q: int| p < q < n implies !reaches(code@, 0, q) by {
                lemma_no_boundary_inside(code@, p as int, q);
            }
            break;
        }
        let np = p + 1 + w;
        let ghost old_r = r@;
        r.push(Instruction { offset: p, opcode: op, immediate: copy_range(code, p + 1, np) });
        assert forall|q: int| 0 <= q < np && complete_at(code@, q) implies exists|i: int| 0 <= i < r@.len() && #[trigger] r@[i].offset == q by {
            if q < p {
                let i = choose|i: int| 0 <= i < old_r.len() && #[trigger] old_r[i].offset == q;
                assert(r@[i].offset == q);
            } else if q == p {
                assert(r@[old_r.len() as int].offset == q);
            } else {
                lemma_no_boundary_inside(code@, p as int, q);
            }
        }
        assert(reaches(code@, 0, np as int)) by {
            assert(reaches(code@, np as int, np as int));
            assert(reaches(code@, p as int, np as int));
            lemma_reaches_append(code@, 0, p as int, np as int);
        }
        p = np;
    }
    assert forall|q: int| (exists|i: int| 0 <= i < r@.len() && #[trigger] r@[i].offset == q) implies complete_at(code@, q) by {
        let i = choose|i: int| 0 <= i < r@.len() && #[trigger] r@[i].offset == q;
        assert(decoded_at(code@, r@[i]));
    }
    r
}

} // verus!
