//! The gas-metered traversal: a recursive description of the exploration
//! tree, and the work-list walk that computes it.
use vstd::prelude::*;
use crate::decoder::jump_destinations;
use crate::laws::{all_pushed, lemma_selectors_are_pushed_constants};
use crate::interpreter::{dest_table, step, step_branch, Branch, BranchView, Outcome, Step};

verus! {

/// Gas charged on top of the instruction itself when a branch forks.
pub const FORK_COST: u32 = 10;

pub open spec fn with_gas(b: BranchView, g: nat) -> BranchView {
    BranchView { gas: g, ..b }
}

/// `found` after recording `rec`: appended when new, duplicates suppressed.
pub open spec fn record(found: Seq<u32>, rec: Option<u32>) -> Seq<u32> {
    match rec {
        Some(v) => if found.contains(v) {
            found
        } else {
            found.push(v)
        },
        None => found,
    }
}

/// Explores the tree of branches rooted at `b`, depth first with the
/// fall-through side of each fork first, recording selectors into `found`.
/// Each instruction costs one gas and each fork `FORK_COST` more, charged to
/// the branch; both sides of a fork start from what is left. The flag is set
/// when some branch ran out of gas, which ends the whole traversal.
pub open spec fn explore(code: Seq<u8>, b: BranchView, found: Seq<u32>) -> (Seq<u32>, bool)
    decreases b.gas,
{
    if b.gas == 0 {
        (found, true)
    } else {
        match step(code, b) {
            Outcome::Halt => (found, false),
            Outcome::Next(c, rec) => explore(code, with_gas(c, (b.gas - 1) as nat), record(found, rec)),
            Outcome::Fork(c1, c2) => if b.gas <= FORK_COST {
                (found, true)
            } else {
                let g = (b.gas - 1 - FORK_COST) as nat;
                let r1 = explore(code, with_gas(c1, g), found);
                if r1.1 {
                    r1
                } else {
                    explore(code, with_gas(c2, g), r1.0)
                }
            },
        }
    }
}

/// Instructions executed by [`explore`] from `b`, ignoring early stops.
pub open spec fn steps(code: Seq<u8>, b: BranchView) -> nat
    decreases b.gas,
{
    if b.gas == 0 {
        1
    } else {
        match step(code, b) {
            Outcome::Halt => 1,
            Outcome::Next(c, _) => 1 + steps(code, with_gas(c, (b.gas - 1) as nat)),
            Outcome::Fork(c1, c2) => if b.gas <= FORK_COST {
                1
            } else {
                let g = (b.gas - 1 - FORK_COST) as nat;
                1 + steps(code, with_gas(c1, g)) + steps(code, with_gas(c2, g))
            },
        }
    }
}

/// Explores the pending branches `ws`, the last one first.
pub open spec fn explore_all(code: Seq<u8>, ws: Seq<BranchView>, found: Seq<u32>) -> (Seq<u32>, bool)
    decreases ws.len(),
{
    if ws.len() == 0 {
        (found, false)
    } else {
        let r = explore(code, ws.last(), found);
        if r.1 {
            r
        } else {
            explore_all(code, ws.drop_last(), r.0)
        }
    }
}

pub open spec fn total_steps(code: Seq<u8>, ws: Seq<BranchView>) -> nat
    decreases ws.len(),
{
    if ws.len() == 0 {
        0
    } else {
        total_steps(code, ws.drop_last()) + steps(code, ws.last())
    }
}

pub open spec fn views(ws: Seq<Branch>) -> Seq<BranchView> {
    ws.map_values(|b: Branch| b@)
}

/// The branch that starts a traversal: offset zero, empty stack, nothing
/// visited, the whole budget.
pub open spec fn initial(code: Seq<u8>, gas_limit: nat) -> BranchView {
    BranchView {
        pc: 0,
        stack: Seq::empty(),
        gas: gas_limit,
        visited: Seq::new(code.len(), |i: int| false),
    }
}

/// The selectors recovered from `code` with budget `gas_limit`, in order of
/// discovery.
pub open spec fn selectors(code: Seq<u8>, gas_limit: nat) -> Seq<u32> {
    explore(code, initial(code, gas_limit), Seq::empty()).0
}

fn record_selector(found: &mut Vec<u32>, rec: Option<u32>)
    ensures
        final(found)@ == record(old(found)@, rec),
{
    if let Some(v) = rec {
        let mut present = false;
        let mut i: usize = 0;
        while i < found.len()
            invariant
                i <= found@.len(),
                present ==> found@.contains(v),
                !present ==> forall|j: int| 0 <= j < i ==> found@[j] != v,
            decreases found@.len() - i,
        {
            if found[i] == v {
                assert(found@[i as int] == v);
                present = true;
            }
            i = i + 1;
        }
        if !present {
            found.push(v);
        }
    }
}

fn unvisited(n: usize) -> (r: Vec<bool>)
    ensures
        r@ == Seq::new(n as nat, |i: int| false),
{
    let mut r: Vec<bool> = Vec::new();
    let mut i: usize = 0;
    while i < n
        invariant
            i <= n,
            r@ == Seq::new(i as nat, |j: int| false),
        decreases n - i,
    {
        r.push(false);
        i = i + 1;
        assert(r@ =~= Seq::new(i as nat, |j: int| false));
    }
    r
}

/// Recovers the selector values that `code` compares call data against,
/// within the budget `gas_limit`, in order of discovery and without
/// duplicates. Each is the immediate of a push in `code`.
pub fn selector_values(code: &[u8], gas_limit: u32) -> (r: Vec<u32>)
    ensures
        r@ == selectors(code@, gas_limit as nat),
        all_pushed(code@, r@),
{
    let dests = jump_destinations(code);
    let init = Branch { pc: 0, stack: Vec::new(), gas: gas_limit, visited: unvisited(code.len()) };
    assert(init@ == initial(code@, gas_limit as nat));
    let ghost target = explore(code@, init@, Seq::empty());
    let mut work: Vec<Branch> = Vec::new();
    work.push(init);
    let mut found: Vec<u32> = Vec::new();
    proof {
        let ws0 = views(work@);
        assert(ws0.drop_last() =~= Seq::<BranchView>::empty());
        assert(ws0.last() == init@);
        assert(explore_all(code@, ws0.drop_last(), target.0) == (target.0, false));
    }
    while work.len() > 0
        invariant_except_break
            explore_all(code@, views(work@), found@) == target,
        invariant
            dest_table(code@, dests@),
            forall|i: int| 0 <= i < work@.len() ==> (#[trigger] work@[i]).visited@.len() == code@.len(),
        ensures
            found@ == target.0,
        decreases total_steps(code@, views(work@)),
    {
        let ghost ws = views(work@);
        let ghost rest = ws.drop_last();
        let ghost found0 = found@;
        let b = work.pop().unwrap();
        assert(views(work@) =~= rest);
        let g = b.gas;
        let ghost bv = b@;
        assert(bv == ws.last());
        assert(total_steps(code@, ws) == total_steps(code@, rest) + steps(code@, bv));
        if g == 0 {
            break;
        }
        let r = step_branch(code, &dests, b);
        match r {
            Step::Halt => {
                assert(explore(code@, bv, found0) == (found0, false));
            },
            Step::Next(mut c, rec) => {
                let ghost cv = c@;
                c.gas = g - 1;
                assert(c@ == with_gas(cv, (bv.gas - 1) as nat));
                record_selector(&mut found, rec);
                work.push(c);
                assert(views(work@) =~= rest.push(c@));
                assert(views(work@).drop_last() =~= rest);
                assert(explore(code@, bv, found0) == explore(code@, c@, found@));
                assert(steps(code@, bv) == 1 + steps(code@, c@));
                assert(total_steps(code@, views(work@)) == total_steps(code@, rest) + steps(code@, c@));
            },
            Step::Fork(mut c1, mut c2) => {
                if g <= FORK_COST {
                    assert(explore(code@, bv, found0) == (found0, true));
                    break;
                }
                let ghost (v1, v2) = (c1@, c2@);
                c1.gas = g - 1 - FORK_COST;
                c2.gas = g - 1 - FORK_COST;
                assert(c1@ == with_gas(v1, (bv.gas - 1 - FORK_COST) as nat));
                assert(c2@ == with_gas(v2, (bv.gas - 1 - FORK_COST) as nat));
                work.push(c2);
                let ghost mid = views(work@);
                work.push(c1);
                assert(mid =~= rest.push(c2@));
                assert(views(work@) =~= mid.push(c1@));
                assert(views(work@).drop_last() =~= mid);
                assert(mid.drop_last() =~= rest);
                let ghost r1 = explore(code@, c1@, found0);
                let ghost r2 = explore(code@, c2@, r1.0);
                assert(explore(code@, bv, found0) == (if r1.1 { r1 } else { r2 }));
                assert(explore_all(code@, mid, r1.0) == (if r2.1 { r2 } else { explore_all(code@, rest, r2.0) }));
                assert(steps(code@, bv) == 1 + steps(code@, c1@) + steps(code@, c2@));
                assert(total_steps(code@, mid) == total_steps(code@, rest) + steps(code@, c2@));
                assert(total_steps(code@, views(work@)) == total_steps(code@, mid) + steps(code@, c1@));
            },
        }
    }
    proof {
        lemma_selectors_are_pushed_constants(code@, gas_limit as nat);
    }
    found
}

} // verus!
