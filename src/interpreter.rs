//! One step of the abstract interpreter: abstract stack slots, the state of
//! one traversal branch, and what a single instruction does to it.
use vstd::prelude::*;
use crate::decoder::{be_value, immediate_width, is_jumpdest, push_width, read_word};

verus! {

/// Largest depth of the operand stack.
pub const MAX_STACK: usize = 1024;

pub const DIV: u8 = 0x04;
pub const EQ: u8 = 0x14;
pub const AND: u8 = 0x16;
pub const XOR: u8 = 0x18;
pub const SHR: u8 = 0x1c;
pub const CALLDATALOAD: u8 = 0x35;
pub const JUMP: u8 = 0x56;
pub const JUMPI: u8 = 0x57;
pub const PUSH0: u8 = 0x5f;
pub const PUSH1: u8 = 0x60;
pub const PUSH4: u8 = 0x63;
pub const PUSH32: u8 = 0x7f;
pub const DUP1: u8 = 0x80;
pub const DUP16: u8 = 0x8f;
pub const SWAP1: u8 = 0x90;
pub const SWAP16: u8 = 0x9f;

/// An abstract stack value.
#[derive(Clone, Copy, PartialEq, Eq, Structural, Debug)]
pub enum Slot {
    /// A constant pushed by a push of at most four immediate bytes.
    Const(u32),
    /// A value computed from call data (a load, shifted or masked).
    CallData,
    /// Anything else.
    Unknown,
}

/// The state of one traversal branch, as the proofs see it. The top of the
/// stack is the last element; `visited` has one flag per code offset.
pub struct BranchView {
    pub pc: nat,
    pub stack: Seq<Slot>,
    pub gas: nat,
    pub visited: Seq<bool>,
}

/// The state of one traversal branch.
pub struct Branch {
    pub pc: usize,
    pub stack: Vec<Slot>,
    pub gas: u32,
    pub visited: Vec<bool>,
}

impl View for Branch {
    type V = BranchView;

    open spec fn view(&self) -> BranchView {
        BranchView { pc: self.pc as nat, stack: self.stack@, gas: self.gas as nat, visited: self.visited@ }
    }
}

/// What one instruction does to a branch: the branch ends, moves on (possibly
/// recording a selector), or forks into a fall-through and a taken branch.
/// The gas of the resulting branches is left as it was.
pub enum Outcome {
    Halt,
    Next(BranchView, Option<u32>),
    Fork(BranchView, BranchView),
}

/// The executable form of [`Outcome`].
pub enum Step {
    Halt,
    Next(Branch, Option<u32>),
    Fork(Branch, Branch),
}

impl View for Step {
    type V = Outcome;

    open spec fn view(&self) -> Outcome {
        match self {
            Step::Halt => Outcome::Halt,
            Step::Next(b, r) => Outcome::Next(b@, *r),
            Step::Fork(b1, b2) => Outcome::Fork(b1@, b2@),
        }
    }
}

/// Stack effect (items popped, items pushed) of the opcodes whose results
/// are always `Unknown`; `None` for opcodes that end execution and for
/// undefined ones.
pub open spec fn effect(op: u8) -> Option<(nat, nat)> {
    if op == 0x08 || op == 0x09 {
        Some((3, 1))
    } else if 0x01 <= op <= 0x0b {
        Some((2, 1))
    } else if op == 0x15 || op == 0x19 {
        Some((1, 1))
    } else if 0x10 <= op <= 0x1d || op == 0x20 {
        Some((2, 1))
    } else if op == 0x31 || op == 0x35 || op == 0x3b || op == 0x3f || op == 0x40 || op == 0x49 {
        Some((1, 1))
    } else if op == 0x37 || op == 0x39 || op == 0x3e {
        Some((3, 0))
    } else if op == 0x3c {
        Some((4, 0))
    } else if 0x30 <= op <= 0x4a {
        Some((0, 1))
    } else if op == 0x50 {
        Some((1, 0))
    } else if op == 0x51 || op == 0x54 || op == 0x5c {
        Some((1, 1))
    } else if op == 0x52 || op == 0x53 || op == 0x55 || op == 0x5d {
        Some((2, 0))
    } else if op == 0x58 || op == 0x59 || op == 0x5a || op == PUSH0 {
        Some((0, 1))
    } else if op == 0x5b {
        Some((0, 0))
    } else if op == 0x5e {
        Some((3, 0))
    } else if 0xa0 <= op <= 0xa4 {
        Some(((op - 0x9e) as nat, 0))
    } else if op == 0xf0 {
        Some((3, 1))
    } else if op == 0xf1 || op == 0xf2 {
        Some((7, 1))
    } else if op == 0xf4 || op == 0xfa {
        Some((6, 1))
    } else if op == 0xf5 {
        Some((4, 1))
    } else {
        None
    }
}

/// The stack effect table of [`effect`].
pub fn stack_effect(op: u8) -> (r: Option<(usize, usize)>)
    ensures
        r matches Some(e) ==> effect(op) == Some((e.0 as nat, e.1 as nat)) && e.0 <= 7 && e.1 <= 1,
        r is None ==> effect(op) is None,
{
    if op == 0x08 || op == 0x09 {
        Some((3, 1))
    } else if 0x01 <= op && op <= 0x0b {
        Some((2, 1))
    } else if op == 0x15 || op == 0x19 {
        Some((1, 1))
    } else if (0x10 <= op && op <= 0x1d) || op == 0x20 {
        Some((2, 1))
    } else if op == 0x31 || op == 0x35 || op == 0x3b || op == 0x3f || op == 0x40 || op == 0x49 {
        Some((1, 1))
    } else if op == 0x37 || op == 0x39 || op == 0x3e {
        Some((3, 0))
    } else if op == 0x3c {
        Some((4, 0))
    } else if 0x30 <= op && op <= 0x4a {
        Some((0, 1))
    } else if op == 0x50 {
        Some((1, 0))
    } else if op == 0x51 || op == 0x54 || op == 0x5c {
        Some((1, 1))
    } else if op == 0x52 || op == 0x53 || op == 0x55 || op == 0x5d {
        Some((2, 0))
    } else if op == 0x58 || op == 0x59 || op == 0x5a || op == PUSH0 {
        Some((0, 1))
    } else if op == 0x5b {
        Some((0, 0))
    } else if op == 0x5e {
        Some((3, 0))
    } else if 0xa0 <= op && op <= 0xa4 {
        Some(((op - 0x9e) as usize, 0))
    } else if op == 0xf0 {
        Some((3, 1))
    } else if op == 0xf1 || op == 0xf2 {
        Some((7, 1))
    } else if op == 0xf4 || op == 0xfa {
        Some((6, 1))
    } else if op == 0xf5 {
        Some((4, 1))
    } else {
        None
    }
}

/// The selector that a comparison of `a` and `b` checks call data against,
/// in either operand order.
pub open spec fn compared(a: Slot, b: Slot) -> Option<u32> {
    match (a, b) {
        (Slot::Const(v), Slot::CallData) => Some(v),
        (Slot::CallData, Slot::Const(v)) => Some(v),
        _ => None,
    }
}

/// Call-data origin survives a shift, a division or a mask.
pub open spec fn derived(a: Slot) -> Slot {
    if a == Slot::CallData {
        Slot::CallData
    } else {
        Slot::Unknown
    }
}

pub open spec fn unknowns(k: nat) -> Seq<Slot> {
    Seq::new(k, |i: int| Slot::Unknown)
}

/// The slot pushed by the push instruction at `pc` with `w` immediate bytes.
pub open spec fn pushed(code: Seq<u8>, pc: int, w: nat) -> Slot {
    if 1 <= w <= 4 {
        Slot::Const(be_value(code.subrange(pc + 1, pc + 1 + w)) as u32)
    } else {
        Slot::Unknown
    }
}

/// `b` moved to offset `to` with the stack `stack`, its offset `pc` marked
/// as visited.
pub open spec fn moved(b: BranchView, to: int, stack: Seq<Slot>) -> BranchView {
    BranchView { pc: to as nat, stack, gas: b.gas, visited: b.visited.update(b.pc as int, true) }
}

/// One abstract instruction at `b.pc`. A branch ends at the end of the
/// code, on an offset it has already visited, at a terminal or undefined
/// opcode, at a truncated push, on stack underflow or overflow, and at a
/// jump whose target is not a known valid destination. A conditional jump
/// whose target is a constant valid destination forks; with any other target
/// only the fall-through is followed.
pub open spec fn step(code: Seq<u8>, b: BranchView) -> Outcome {
    let pc = b.pc as int;
    let s = b.stack;
    let n = s.len();
    if pc >= code.len() || b.visited[pc] {
        Outcome::Halt
    } else {
        let op = code[pc];
        if PUSH1 <= op <= PUSH32 {
            let w = push_width(op);
            if pc + 1 + w > code.len() || n >= MAX_STACK {
                Outcome::Halt
            } else {
                Outcome::Next(moved(b, pc + 1 + w, s.push(pushed(code, pc, w))), None)
            }
        } else if DUP1 <= op <= DUP16 {
            let k = (op - 0x7f) as nat;
            if n < k || n >= MAX_STACK {
                Outcome::Halt
            } else {
                Outcome::Next(moved(b, pc + 1, s.push(s[n - k])), None)
            }
        } else if SWAP1 <= op <= SWAP16 {
            let k = (op - 0x8f) as nat;
            if n < k + 1 {
                Outcome::Halt
            } else {
                Outcome::Next(
                    moved(b, pc + 1, s.update(n - 1, s[n - 1 - k]).update(n - 1 - k, s[n - 1])),
                    None,
                )
            }
        } else if op == EQ || op == XOR {
            if n < 2 {
                Outcome::Halt
            } else {
                Outcome::Next(
                    moved(b, pc + 1, s.subrange(0, n - 2).push(Slot::Unknown)),
                    compared(s[n - 1], s[n - 2]),
                )
            }
        } else if op == CALLDATALOAD {
            if n < 1 {
                Outcome::Halt
            } else {
                Outcome::Next(moved(b, pc + 1, s.update(n - 1, Slot::CallData)), None)
            }
        } else if op == SHR || op == DIV || op == AND {
            if n < 2 {
                Outcome::Halt
            } else {
                let r = if op == SHR {
                    derived(s[n - 2])
                } else if op == DIV {
                    derived(s[n - 1])
                } else if s[n - 1] == Slot::CallData || s[n - 2] == Slot::CallData {
                    Slot::CallData
                } else {
                    Slot::Unknown
                };
                Outcome::Next(moved(b, pc + 1, s.subrange(0, n - 2).push(r)), None)
            }
        } else if op == JUMP {
            if n < 1 {
                Outcome::Halt
            } else {
                match s[n - 1] {
                    Slot::Const(d) => if is_jumpdest(code, d as int) {
                        Outcome::Next(moved(b, d as int, s.drop_last()), None)
                    } else {
                        Outcome::Halt
                    },
                    _ => Outcome::Halt,
                }
            }
        } else if op == JUMPI {
            if n < 2 {
                Outcome::Halt
            } else {
                let rest = s.subrange(0, n - 2);
                match s[n - 1] {
                    Slot::Const(d) => if is_jumpdest(code, d as int) {
                        Outcome::Fork(moved(b, pc + 1, rest), moved(b, d as int, rest))
                    } else {
                        Outcome::Next(moved(b, pc + 1, rest), None)
                    },
                    _ => Outcome::Next(moved(b, pc + 1, rest), None),
                }
            }
        } else {
            match effect(op) {
                None => Outcome::Halt,
                Some(e) => if n < e.0 || n - e.0 + e.1 > MAX_STACK {
                    Outcome::Halt
                } else {
                    Outcome::Next(moved(b, pc + 1, s.subrange(0, n - e.0) + unknowns(e.1)), None)
                },
            }
        }
    }
}

/// The comparison rule of [`compared`].
pub fn compared_selector(a: Slot, b: Slot) -> (r: Option<u32>)
    ensures
        r == compared(a, b),
{
    match (a, b) {
        (Slot::Const(v), Slot::CallData) => Some(v),
        (Slot::CallData, Slot::Const(v)) => Some(v),
        _ => None,
    }
}

/// An element-wise copy of `v`.
pub fn duplicate<T: Copy>(v: &Vec<T>) -> (r: Vec<T>)
    ensures
        r@ == v@,
{
    let mut r: Vec<T> = Vec::new();
    let mut i: usize = 0;
    while i < v.len()
        invariant
            i <= v@.len(),
            r@ == v@.subrange(0, i as int),
        decreases v@.len() - i,
    {
        r.push(v[i]);
        i = i + 1;
        assert(r@ =~= v@.subrange(0, i as int));
    }
    assert(r@ =~= v@);
    r
}

/// The valid jump destinations of `code`, one flag per offset.
pub open spec fn dest_table(code: Seq<u8>, dests: Seq<bool>) -> bool {
    &&& dests.len() == code.len()
    &&& forall|q: int| 0 <= q < code.len() ==> (dests[q] <==> is_jumpdest(code, q))
}

/// Executes the instruction at `b.pc` on the abstract state `b`.
pub fn step_branch(code: &[u8], dests: &Vec<bool>, b: Branch) -> (r: Step)
    requires
        dest_table(code@, dests@),
        b.visited@.len() == code@.len(),
    ensures
        r@ == step(code@, b@),
        r matches Step::Next(c, _) ==> c.visited@.len() == code@.len(),
        r matches Step::Fork(c1, c2) ==> c1.visited@.len() == code@.len() && c2.visited@.len()
            == code@.len(),
{
    let Branch { pc, mut stack, gas, mut visited } = b;
    let ghost s = stack@;
    let n_code = code.len();
    if pc >= n_code || visited[pc] {
        return Step::Halt;
    }
    let op = code[pc];
    visited.set(pc, true);
    let n = stack.len();
    if PUSH1 <= op && op <= PUSH32 {
        let w = immediate_width(op);
        if w >= n_code - pc || n >= MAX_STACK {
            return Step::Halt;
        }
        let slot = if w <= 4 {
            Slot::Const(read_word(code, pc + 1, w))
        } else {
            Slot::Unknown
        };
        stack.push(slot);
        return Step::Next(Branch { pc: pc + 1 + w, stack, gas, visited }, None);
    }
    if DUP1 <= op && op <= DUP16 {
        let k = (op - 0x7f) as usize;
        if n < k || n >= MAX_STACK {
            return Step::Halt;
        }
        let v = stack[n - k];
        stack.push(v);
        return Step::Next(Branch { pc: pc + 1, stack, gas, visited }, None);
    }
    if SWAP1 <= op && op <= SWAP16 {
        let k = (op - 0x8f) as usize;
        if n < k + 1 {
            return Step::Halt;
        }
        let a = stack[n - 1];
        let c = stack[n - 1 - k];
        stack.set(n - 1, c);
        stack.set(n - 1 - k, a);
        return Step::Next(Branch { pc: pc + 1, stack, gas, visited }, None);
    }
    if op == EQ || op == XOR {
        if n < 2 {
            return Step::Halt;
        }
        let a = stack.pop().unwrap();
        let c = stack.pop().unwrap();
        let rec = compared_selector(a, c);
        stack.push(Slot::Unknown);
        assert(stack@ =~= s.subrange(0, n - 2).push(Slot::Unknown));
        return Step::Next(Branch { pc: pc + 1, stack, gas, visited }, rec);
    }
    if op == CALLDATALOAD {
        if n < 1 {
            return Step::Halt;
        }
        stack.set(n - 1, Slot::CallData);
        return Step::Next(Branch { pc: pc + 1, stack, gas, visited }, None);
    }
    if op == SHR || op == DIV || op == AND {
        if n < 2 {
            return Step::Halt;
        }
        let a = stack.pop().unwrap();
        let c = stack.pop().unwrap();
        let r = if op == SHR {
            if c == Slot::CallData { Slot::CallData } else { Slot::Unknown }
        } else if op == DIV {
            if a == Slot::CallData { Slot::CallData } else { Slot::Unknown }
        } else if a == Slot::CallData || c == Slot::CallData {
            Slot::CallData
        } else {
            Slot::Unknown
        };
        stack.push(r);
        assert(stack@ =~= s.subrange(0, n - 2).push(r));
        return Step::Next(Branch { pc: pc + 1, stack, gas, visited }, None);
    }
    if op == JUMP {
        if n < 1 {
            return Step::Halt;
        }
        let top = stack.pop().unwrap();
        return match top {
            Slot::Const(d) => {
                if (d as usize) < n_code && dests[d as usize] {
                    Step::Next(Branch { pc: d as usize, stack, gas, visited }, None)
                } else {
                    Step::Halt
                }
            },
            _ => Step::Halt,
        };
    }
    if op == JUMPI {
        if n < 2 {
            return Step::Halt;
        }
        let top = stack.pop().unwrap();
        let _cond = stack.pop().unwrap();
        assert(stack@ =~= s.subrange(0, n - 2));
        if let Slot::Const(d) = top {
            if (d as usize) < n_code && dests[d as usize] {
                let fall = Branch {
                    pc: pc + 1,
                    stack: duplicate(&stack),
                    gas,
                    visited: duplicate(&visited),
                };
                return Step::Fork(fall, Branch { pc: d as usize, stack, gas, visited });
            }
        }
        return Step::Next(Branch { pc: pc + 1, stack, gas, visited }, None);
    }
    match stack_effect(op) {
        None => Step::Halt,
        Some((p, q)) => {
            if n < p || n - p > MAX_STACK - q {
                return Step::Halt;
            }
            let mut i: usize = 0;
            while i < p
                invariant
                    i <= p,
                    p <= n,
                    n == s.len(),
                    stack@ == s.subrange(0, n - i),
                decreases p - i,
            {
                stack.pop();
                i = i + 1;
                assert(stack@ =~= s.subrange(0, n - i));
            }
            if q == 1 {
                stack.push(Slot::Unknown);
            }
            assert(stack@ =~= s.subrange(0, n - p) + unknowns(q as nat));
            Step::Next(Branch { pc: pc + 1, stack, gas, visited }, None)
        },
    }
}

} // verus!
