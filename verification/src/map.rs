//! The plain-value decisions of the root map: how a finished register is closed, and the
//! small register an odd root's long middle run starts from.
use crate::normalizer::Mode;
use vstd::prelude::*;

verus! {

/// What one step of the root map reports: the queue length at which it halts, if it does.
pub struct Step {
    pub halt_c: Option<usize>,
}

/// What one round of finishing a register does next.
#[derive(Clone, Copy, Debug, PartialEq, Eq, Structural)]
pub enum Finish {
    /// The zeros and the tail are combined as they are.
    ToTwo,
    /// The final-marker row closes the register.
    FinalRow,
    /// The map halts on this queue length.
    Halt(usize),
    /// The register moves on to a small one with head 2, an empty queue and value `v`,
    /// with the width `tail - c - 9` and the tail `tail + 10 c + 58`.
    Descend(u64),
}

/// The next round of finishing, from the mode before the zeros are reduced and, after it,
/// the queue length and whether the reduced zeros are odd.
pub open spec fn finish_spec(mode: Mode, c: usize, odd: bool) -> Finish {
    if mode == Mode::N202 {
        Finish::ToTwo
    } else if mode != Mode::H {
        Finish::FinalRow
    } else if odd {
        if c >= 18 {
            Finish::Halt(c)
        } else {
            Finish::FinalRow
        }
    } else if c <= 14 {
        Finish::FinalRow
    } else {
        Finish::Descend((c / 2 - 1) as u64)
    }
}

/// The next round of finishing (see `finish_spec`).
pub fn finish_step(mode: Mode, c: usize, odd: bool) -> (r: Finish)
    requires
        mode == Mode::H ==> c >= 2 && c % 2 == 0,
    ensures
        r == finish_spec(mode, c, odd),
{
    if mode == Mode::N202 {
        Finish::ToTwo
    } else if mode != Mode::H {
        Finish::FinalRow
    } else if odd {
        if c >= 18 {
            Finish::Halt(c)
        } else {
            Finish::FinalRow
        }
    } else if c <= 14 {
        Finish::FinalRow
    } else {
        Finish::Descend((c / 2 - 1) as u64)
    }
}

/// The small register an odd root with a long middle run (mode `H`, queue length
/// `c >= 10`) starts from: head, queue, value, the loss taken from the width, and the
/// constant added to the tail with `10 c`.
pub struct SmallStart {
    pub head: u8,
    pub word: Vec<u8>,
    pub v: u64,
    pub loss: i64,
    pub constant: i64,
}

/// The small register for zeros `z` and queue length `c`: head, queue, value, loss and
/// constant (see `SmallStart`).
pub open spec fn small_start_spec(z: u64, c: int) -> (u8, Seq<u8>, int, int, int) {
    if z == 1 && c % 2 == 0 {
        (1, seq![3u8, 1u8], c / 2 - 1, c + 5, 41)
    } else if z == 1 {
        (2, seq![], (c + 1) / 2, c + 8, 57)
    } else if c % 2 == 1 {
        (2, seq![], (c + 3) / 2, c + 5, 34)
    } else {
        (2, seq![], c / 2 + 2, c + 2, 25)
    }
}

/// The small register an odd root's long middle run starts from (see `small_start_spec`).
pub fn small_start(z: u64, c: usize) -> (r: SmallStart)
    requires
        z <= 1,
        10 <= c <= 0x1000_0000_0000_0000,
    ensures
        ({
            let (head, word, v, loss, constant) = small_start_spec(z, c as int);
            r.head == head && r.word@ == word && r.v == v && r.loss == loss && r.constant == constant
        }),
{
    let c = c as i64;
    if z == 1 && c % 2 == 0 {
        SmallStart { head: 1, word: vec![3u8, 1u8], v: (c / 2 - 1) as u64, loss: c + 5, constant: 41 }
    } else if z == 1 {
        SmallStart { head: 2, word: Vec::new(), v: ((c + 1) / 2) as u64, loss: c + 8, constant: 57 }
    } else if c % 2 == 1 {
        SmallStart { head: 2, word: Vec::new(), v: ((c + 3) / 2) as u64, loss: c + 5, constant: 34 }
    } else {
        SmallStart { head: 2, word: Vec::new(), v: (c / 2 + 2) as u64, loss: c + 2, constant: 25 }
    }
}

/// Law: the round that finishes a register.  A register in mode `N202` is closed by
/// combining its zeros and tail as they are, whatever its queue length and zeros; in any
/// other mode but `H` the final-marker row closes it.  In mode `H` with odd zeros the map
/// halts exactly on a queue length of at least 18 and the final row closes the others;
/// with even zeros the final row closes a queue length up to 14, and a longer queue
/// descends to the small register whose value is half the queue length less one.
pub proof fn lemma_finish_rounds(mode: Mode, c: usize, odd: bool)
    ensures
        mode == Mode::N202 ==> finish_spec(mode, c, odd) == Finish::ToTwo,
        mode != Mode::N202 && mode != Mode::H ==> finish_spec(mode, c, odd) == Finish::FinalRow,
        mode == Mode::H && odd ==> (finish_spec(mode, c, odd) == Finish::Halt(c) <==> c >= 18),
        mode == Mode::H && odd && c < 18 ==> finish_spec(mode, c, odd) == Finish::FinalRow,
        mode == Mode::H && !odd && c <= 14 ==> finish_spec(mode, c, odd) == Finish::FinalRow,
        mode == Mode::H && !odd && c > 14 && c % 2 == 0 ==> (finish_spec(mode, c, odd) matches Finish::Descend(v)
            && 2 * (v + 1) == c),
{
}

/// Law: the small register an odd root's long middle run (queue length `c >= 10`) starts
/// from.  With one zero left over and an even queue length it has head 1, queue `3 1`,
/// value `c / 2 - 1`, loss `c + 5` and constant 41; with one zero and an odd length, head
/// 2, an empty queue, value `(c + 1) / 2`, loss `c + 8` and constant 57; with no zero left
/// over it has head 2 and an empty queue, with value `(c + 3) / 2`, loss `c + 5` and
/// constant 34 for an odd length, and value `c / 2 + 2`, loss `c + 2` and constant 25 for
/// an even one.  The branch depends on the parity of `c` alone.
pub proof fn lemma_small_starts(z: u64, c: int)
    requires
        z <= 1,
        c >= 10,
    ensures
        z == 1 && c % 2 == 0 ==> small_start_spec(z, c) == (1u8, seq![3u8, 1u8], c / 2 - 1, c + 5, 41int),
        z == 1 && c % 2 == 1 ==> small_start_spec(z, c) == (2u8, Seq::<u8>::empty(), (c + 1) / 2, c + 8, 57int),
        z == 0 && c % 2 == 1 ==> small_start_spec(z, c) == (2u8, Seq::<u8>::empty(), (c + 3) / 2, c + 5, 34int),
        z == 0 && c % 2 == 0 ==> small_start_spec(z, c) == (2u8, Seq::<u8>::empty(), c / 2 + 2, c + 2, 25int),
{
    assert(Seq::<u8>::empty() =~= seq![]);
}

} // verus!
