//! The atomic instructions the primitives issue, as operations on plain words.
use vstd::prelude::*;

verus! {

/// The memory ordering an instruction is issued with.
#[derive(Clone, Copy, Debug, PartialEq, Eq, Structural)]
pub enum MemOrder {
    Relaxed,
    Acquire,
    Release,
}

/// One instruction on a 32-bit atomic word.
#[derive(Clone, Copy, Debug, PartialEq, Eq, Structural)]
pub enum WordOp {
    Load(MemOrder),
    Store(u32, MemOrder),
    Swap(u32, MemOrder),
    /// `CompareExchange(current, new, success, failure)`.
    CompareExchange(u32, u32, MemOrder, MemOrder),
    FetchAdd(u32, MemOrder),
    FetchSub(u32, MemOrder),
}

/// The word after `op` is applied to `v`, and the value `op` returns: the
/// previous value for every instruction but `Store`, which returns nothing
/// and is given the value it stored here. A compare-exchange succeeded
/// exactly when the value it returns equals its `current` operand.
pub open spec fn word_op_effect(v: u32, op: WordOp) -> (u32, u32) {
    match op {
        WordOp::Load(_) => (v, v),
        WordOp::Store(n, _) => (n, n),
        WordOp::Swap(n, _) => (n, v),
        WordOp::CompareExchange(c, n, _, _) => (if v == c { n } else { v }, v),
        WordOp::FetchAdd(d, _) => (
            if v + d > u32::MAX { (v + d - 0x1_0000_0000) as u32 } else { (v + d) as u32 },
            v,
        ),
        WordOp::FetchSub(d, _) => (
            if v < d { (v - d + 0x1_0000_0000) as u32 } else { (v - d) as u32 },
            v,
        ),
    }
}

/// Applies `op` to `word` and returns what the instruction returns.
pub fn apply_word_op(word: &mut u32, op: WordOp) -> (r: u32)
    ensures
        (*final(word), r) == word_op_effect(*old(word), op),
{
    let v = *word;
    match op {
        WordOp::Load(_) => {},
        WordOp::Store(n, _) => {
            *word = n;
            return n;
        },
        WordOp::Swap(n, _) => {
            *word = n;
        },
        WordOp::CompareExchange(c, n, _, _) => {
            if v == c {
                *word = n;
            }
        },
        WordOp::FetchAdd(d, _) => {
            *word = v.wrapping_add(d);
        },
        WordOp::FetchSub(d, _) => {
            *word = v.wrapping_sub(d);
        },
    }
    v
}

/// One instruction on a pointer-sized atomic counter.
#[derive(Clone, Copy, Debug, PartialEq, Eq, Structural)]
pub enum CountOp {
    Load(MemOrder),
    /// `CompareExchange(current, new, success, failure)`.
    CompareExchange(usize, usize, MemOrder, MemOrder),
    FetchAdd(usize, MemOrder),
    FetchSub(usize, MemOrder),
}

/// The counter after `op` is applied to `v`, and the previous value, which
/// every one of these instructions returns. Additions and subtractions wrap
/// around, as the hardware instructions do.
pub open spec fn count_op_effect(v: usize, op: CountOp) -> (usize, usize) {
    match op {
        CountOp::Load(_) => (v, v),
        CountOp::CompareExchange(c, n, _, _) => (if v == c { n } else { v }, v),
        CountOp::FetchAdd(d, _) => (
            if v + d > usize::MAX { (v + d - (usize::MAX + 1)) as usize } else { (v + d) as usize },
            v,
        ),
        CountOp::FetchSub(d, _) => (
            if v < d { (v - d + (usize::MAX + 1)) as usize } else { (v - d) as usize },
            v,
        ),
    }
}

/// Applies `op` to `counter` and returns the previous value.
pub fn apply_count_op(counter: &mut usize, op: CountOp) -> (r: usize)
    ensures
        (*final(counter), r) == count_op_effect(*old(counter), op),
{
    let v = *counter;
    match op {
        CountOp::Load(_) => {},
        CountOp::CompareExchange(c, n, _, _) => {
            if v == c {
                *counter = n;
            }
        },
        CountOp::FetchAdd(d, _) => {
            *counter = v.wrapping_add(d);
        },
        CountOp::FetchSub(d, _) => {
            *counter = v.wrapping_sub(d);
        },
    }
    v
}

/// One instruction on an atomic flag.
#[derive(Clone, Copy, Debug, PartialEq, Eq, Structural)]
pub enum FlagOp {
    Load(MemOrder),
    Store(bool, MemOrder),
    Swap(bool, MemOrder),
}

/// The flag after `op` is applied to `v`, and the value `op` returns: the
/// previous value, or for `Store`, which returns nothing, the value stored.
pub open spec fn flag_op_effect(v: bool, op: FlagOp) -> (bool, bool) {
    match op {
        FlagOp::Load(_) => (v, v),
        FlagOp::Store(n, _) => (n, n),
        FlagOp::Swap(n, _) => (n, v),
    }
}

/// Applies `op` to `flag` and returns what the instruction returns.
pub fn apply_flag_op(flag: &mut bool, op: FlagOp) -> (r: bool)
    ensures
        (*final(flag), r) == flag_op_effect(*old(flag), op),
{
    let v = *flag;
    match op {
        FlagOp::Load(_) => {},
        FlagOp::Store(n, _) => {
            *flag = n;
            return n;
        },
        FlagOp::Swap(n, _) => {
            *flag = n;
        },
    }
    v
}

} // verus!
