//! Properties of the analysis that relate several calls or hold for every
//! input.
use vstd::prelude::*;
use crate::analysis::{explore, initial, record, selectors, with_gas, FORK_COST};
use crate::encoding::{concat_words, selector_words, split_words, word_views};
use crate::decoder::push_width;
use crate::interpreter::{pushed, step, BranchView, Outcome, Slot, EQ, PUSH1, PUSH32, PUSH4, XOR};

verus! {

/// With no budget, nothing is found.
pub proof fn lemma_zero_gas_finds_nothing(code: Seq<u8>)
    ensures
        selectors(code, 0).len() == 0,
{
}

/// Empty code has no selectors, whatever the budget.
pub proof fn lemma_empty_code_finds_nothing(gas_limit: nat)
    ensures
        selectors(Seq::empty(), gas_limit).len() == 0,
{
}

/// The analysis is a function of the code and the budget: two runs on the
/// same inputs return the same words in the same order.
pub proof fn lemma_deterministic(code1: Seq<u8>, gas1: nat, code2: Seq<u8>, gas2: nat)
    requires
        code1 == code2,
        gas1 == gas2,
    ensures
        selector_words(code1, gas1) == selector_words(code2, gas2),
{
}

/// Splitting the concatenated words of a result gives back the same words
/// in the same order.
pub proof fn lemma_encoding_round_trip(ws: Seq<[u8; 4]>)
    ensures
        split_words(concat_words(word_views(ws))) == word_views(ws),
{
    let v = word_views(ws);
    let c = concat_words(v);
    assert forall|i: int| 0 <= i < v.len() implies #[trigger] split_words(c)[i] == v[i] by {
        assert forall|k: int| 0 <= k < 4 implies c.subrange(4 * i, 4 * i + 4)[k] == v[i][k] by {
            assert((4 * i + k) / 4 == i);
            assert((4 * i + k) % 4 == k);
        }
        assert(c.subrange(4 * i, 4 * i + 4) =~= v[i]);
    }
    assert(split_words(c) =~= v);
}

pub open spec fn prefix_of(a: Seq<u32>, b: Seq<u32>) -> bool {
    a.len() <= b.len() && b.subrange(0, a.len() as int) == a
}

proof fn lemma_prefix_trans(a: Seq<u32>, b: Seq<u32>, c: Seq<u32>)
    requires
        prefix_of(a, b),
        prefix_of(b, c),
    ensures
        prefix_of(a, c),
{
    assert(c.subrange(0, a.len() as int) =~= b.subrange(0, a.len() as int));
}

/// Exploration only ever appends to what was found before.
proof fn lemma_explore_extends(code: Seq<u8>, b: BranchView, found: Seq<u32>)
    ensures
        prefix_of(found, explore(code, b, found).0),
    decreases b.gas,
{
    assert(found.subrange(0, found.len() as int) =~= found);
    if b.gas > 0 {
        match step(code, b) {
            Outcome::Halt => {},
            Outcome::Next(c, rec) => {
                let f2 = record(found, rec);
                assert(f2.subrange(0, found.len() as int) =~= found);
                lemma_explore_extends(code, with_gas(c, (b.gas - 1) as nat), f2);
                lemma_prefix_trans(found, f2, explore(code, b, found).0);
            },
            Outcome::Fork(c1, c2) => {
                if b.gas > FORK_COST {
                    let g = (b.gas - 1 - FORK_COST) as nat;
                    lemma_explore_extends(code, with_gas(c1, g), found);
                    let r1 = explore(code, with_gas(c1, g), found);
                    lemma_explore_extends(code, with_gas(c2, g), r1.0);
                    if !r1.1 {
                        lemma_prefix_trans(found, r1.0, explore(code, b, found).0);
                    }
                }
            },
        }
    }
}

pub open spec fn gasless(o: Outcome) -> Outcome {
    match o {
        Outcome::Halt => Outcome::Halt,
        Outcome::Next(c, rec) => Outcome::Next(with_gas(c, 0), rec),
        Outcome::Fork(c1, c2) => Outcome::Fork(with_gas(c1, 0), with_gas(c2, 0)),
    }
}

/// A step does not look at the gas it is given.
proof fn lemma_step_ignores_gas(code: Seq<u8>, b: BranchView, g: nat)
    ensures
        gasless(step(code, with_gas(b, g))) == gasless(step(code, b)),
{
}

/// With more gas, a branch finds everything it found with less: the same
/// result when the smaller budget sufficed, an extension of it otherwise.
proof fn lemma_explore_monotone(code: Seq<u8>, b: BranchView, g: nat, found: Seq<u32>)
    requires
        b.gas <= g,
    ensures
        !explore(code, b, found).1 ==> explore(code, with_gas(b, g), found) == explore(code, b, found),
        prefix_of(explore(code, b, found).0, explore(code, with_gas(b, g), found).0),
    decreases b.gas,
{
    let b2 = with_gas(b, g);
    let r = explore(code, b, found);
    let r2 = explore(code, b2, found);
    lemma_explore_extends(code, b2, found);
    if b.gas > 0 {
        lemma_step_ignores_gas(code, b, g);
        match step(code, b) {
            Outcome::Halt => {
                assert(r.0.subrange(0, r.0.len() as int) =~= r.0);
            },
            Outcome::Next(c, rec) => {
                let c2 = match step(code, b2) {
                    Outcome::Next(x, _) => x,
                    _ => c,
                };
                assert(with_gas(c2, (g - 1) as nat) == with_gas(with_gas(c, (b.gas - 1) as nat), (g - 1) as nat));
                lemma_explore_monotone(code, with_gas(c, (b.gas - 1) as nat), (g - 1) as nat, record(found, rec));
            },
            Outcome::Fork(c1, c2) => {
                if b.gas > FORK_COST {
                    let (d1, d2) = match step(code, b2) {
                        Outcome::Fork(x, y) => (x, y),
                        _ => (c1, c2),
                    };
                    let h = (b.gas - 1 - FORK_COST) as nat;
                    let h2 = (g - 1 - FORK_COST) as nat;
                    assert(with_gas(d1, h2) == with_gas(with_gas(c1, h), h2));
                    assert(with_gas(d2, h2) == with_gas(with_gas(c2, h), h2));
                    lemma_explore_monotone(code, with_gas(c1, h), h2, found);
                    let r1 = explore(code, with_gas(c1, h), found);
                    let q1 = explore(code, with_gas(d1, h2), found);
                    if r1.1 {
                        if !q1.1 {
                            lemma_explore_extends(code, with_gas(d2, h2), q1.0);
                            lemma_prefix_trans(r1.0, q1.0, r2.0);
                        }
                    } else {
                        lemma_explore_monotone(code, with_gas(c2, h), h2, r1.0);
                    }
                }
            },
        }
    }
}

/// A larger budget never loses a selector found with a smaller one: the
/// selectors found with the smaller budget come first, in the same order.
pub proof fn lemma_more_gas_keeps_selectors(code: Seq<u8>, gas1: nat, gas2: nat)
    requires
        gas1 <= gas2,
    ensures
        prefix_of(selectors(code, gas1), selectors(code, gas2)),
        forall|v: u32| selectors(code, gas1).contains(v) ==> selectors(code, gas2).contains(v),
{
    let b = initial(code, gas1);
    assert(with_gas(b, gas2) == initial(code, gas2));
    lemma_explore_monotone(code, b, gas2, Seq::empty());
    let s1 = selectors(code, gas1);
    let s2 = selectors(code, gas2);
    assert forall|v: u32| s1.contains(v) implies s2.contains(v) by {
        let i = choose|i: int| 0 <= i < s1.len() && s1[i] == v;
        assert(s2.subrange(0, s1.len() as int)[i] == v);
        assert(s2[i] == v);
    }
}

/// `v` is the value of the immediate of some `PUSH1` .. `PUSH4` in `code`.
pub open spec fn is_push_constant(code: Seq<u8>, v: u32) -> bool {
    exists|p: int|
        0 <= p < code.len() && PUSH1 <= #[trigger] code[p] <= PUSH4 && p + 1 + push_width(code[p])
            <= code.len() && pushed(code, p, push_width(code[p])) == Slot::Const(v)
}

pub open spec fn constants_pushed(code: Seq<u8>, s: Seq<Slot>) -> bool {
    forall|i: int|
        0 <= i < s.len() ==> (#[trigger] s[i] matches Slot::Const(v) ==> is_push_constant(code, v))
}

pub open spec fn all_pushed(code: Seq<u8>, found: Seq<u32>) -> bool {
    forall|i: int| 0 <= i < found.len() ==> is_push_constant(code, #[trigger] found[i])
}

/// Every constant on the stack after a step was pushed by the code, and so
/// is every selector the step records.
proof fn lemma_step_sound(code: Seq<u8>, b: BranchView)
    requires
        constants_pushed(code, b.stack),
    ensures
        step(code, b) matches Outcome::Next(c, rec) ==> constants_pushed(code, c.stack) && (rec matches Some(
            v,
        ) ==> is_push_constant(code, v)),
        step(code, b) matches Outcome::Fork(c1, c2) ==> constants_pushed(code, c1.stack)
            && constants_pushed(code, c2.stack),
{
    let pc = b.pc as int;
    let s = b.stack;
    let n = s.len();
    if pc < code.len() && !b.visited[pc] {
        let op = code[pc];
        if PUSH1 <= op <= PUSH32 {
            let w = push_width(op);
            if pc + 1 + w <= code.len() {
                let t = s.push(pushed(code, pc, w));
                assert forall|i: int| 0 <= i < t.len() implies (#[trigger] t[i] matches Slot::Const(
                    v,
                ) ==> is_push_constant(code, v)) by {
                    if i == n {
                        if let Slot::Const(v) = t[i] {
                            assert(code[pc] <= PUSH4);
                        }
                    }
                }
            }
        } else if op == EQ || op == XOR {
            if n >= 2 {
                let t = s.subrange(0, n - 2).push(Slot::Unknown);
                assert forall|i: int| 0 <= i < t.len() implies (#[trigger] t[i] matches Slot::Const(
                    v,
                ) ==> is_push_constant(code, v)) by {
                    if i < n - 2 {
                        assert(t[i] == s[i]);
                    }
                }
            }
        }
    }
}

/// Exploration records only constants that the code pushes.
proof fn lemma_explore_sound(code: Seq<u8>, b: BranchView, found: Seq<u32>)
    requires
        constants_pushed(code, b.stack),
        all_pushed(code, found),
    ensures
        all_pushed(code, explore(code, b, found).0),
    decreases b.gas,
{
    if b.gas > 0 {
        lemma_step_sound(code, b);
        match step(code, b) {
            Outcome::Halt => {},
            Outcome::Next(c, rec) => {
                let f2 = record(found, rec);
                assert(all_pushed(code, f2));
                lemma_explore_sound(code, with_gas(c, (b.gas - 1) as nat), f2);
            },
            Outcome::Fork(c1, c2) => {
                if b.gas > FORK_COST {
                    let g = (b.gas - 1 - FORK_COST) as nat;
                    lemma_explore_sound(code, with_gas(c1, g), found);
                    let r1 = explore(code, with_gas(c1, g), found);
                    lemma_explore_sound(code, with_gas(c2, g), r1.0);
                }
            },
        }
    }
}

/// Every recovered selector is the immediate value of a `PUSH1` .. `PUSH4`
/// instruction of the code: nothing is made up.
pub proof fn lemma_selectors_are_pushed_constants(code: Seq<u8>, gas_limit: nat)
    ensures
        all_pushed(code, selectors(code, gas_limit)),
{
    lemma_explore_sound(code, initial(code, gas_limit), Seq::empty());
}

} // verus!
