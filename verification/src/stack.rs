//! One side of a symbolic tape: a finite run of digits, then blocks, each a word repeated
//! a symbolic number of times (or the suffix marker `W`), then zeros forever.
use crate::linear::{
    at, at_least, constant, decides, fits, least_n, linear_scaled, linear_sum, margin,
    margin_fits, num, Linear,
};
use std::collections::VecDeque;
use vstd::prelude::*;

verus! {

/// A repeated word: digits, or the suffix marker.
pub enum Word {
    Digits(Vec<u32>),
    Suffix,
}

/// A word repeated `count` times.
pub struct Block {
    pub word: Word,
    pub count: Linear,
}

/// The mathematical value of a block: its digits (`None` for the suffix marker) and count.
pub struct BlockView {
    pub word: Option<Seq<u32>>,
    pub count: Linear,
}

pub open spec fn word_view(w: &Word) -> Option<Seq<u32>> {
    match w {
        Word::Digits(v) => Some(v@),
        Word::Suffix => None,
    }
}

pub open spec fn block_view(b: &Block) -> BlockView {
    BlockView { word: word_view(&b.word), count: b.count }
}

/// One side of the tape.
pub struct Stack {
    pub finite: VecDeque<u32>,
    pub powers: VecDeque<Block>,
}

/// The mathematical value of a stack.
pub struct StackView {
    pub finite: Seq<u32>,
    pub powers: Seq<BlockView>,
}

pub open spec fn stack_view(s: &Stack) -> StackView {
    StackView { finite: s.finite@, powers: s.powers@.map_values(|b: Block| block_view(&b)) }
}

/// A block of digits.
pub open spec fn digits_block(word: Seq<u32>, count: Linear) -> BlockView {
    BlockView { word: Some(word), count }
}

/// The block `word^count`.
pub fn block(word: &[u32], count: Linear) -> (r: Block)
    ensures
        block_view(&r) == digits_block(word@, count),
{
    Block { word: Word::Digits(copy_digits(word)), count }
}

/// A copy of a digit slice.
pub fn copy_digits(word: &[u32]) -> (r: Vec<u32>)
    ensures
        r@ == word@,
{
    let mut r: Vec<u32> = Vec::new();
    let mut i: usize = 0;
    while i < word.len()
        invariant
            i <= word.len(),
            r@ == word@.take(i as int),
        decreases word.len() - i,
    {
        r.push(word[i]);
        proof {
            assert(word@.take(i + 1) =~= word@.take(i as int).push(word[i as int]));
        }
        i = i + 1;
    }
    proof {
        assert(word@.take(word.len() as int) =~= word@);
    }
    r
}

/// A copy of a block.
pub fn copy_block(b: &Block) -> (r: Block)
    ensures
        block_view(&r) == block_view(b),
{
    match &b.word {
        Word::Digits(v) => Block { word: Word::Digits(copy_digits(v.as_slice())), count: b.count },
        Word::Suffix => Block { word: Word::Suffix, count: b.count },
    }
}

/// Whether two words are equal.
pub fn same_word(x: &Word, y: &Word) -> (r: bool)
    ensures
        r == (word_view(x) == word_view(y)),
{
    match x {
        Word::Digits(a) => match y {
            Word::Digits(b) => {
                if a.len() != b.len() {
                    proof {
                        assert(a@.len() != b@.len());
                    }
                    return false;
                }
                let mut i: usize = 0;
                while i < a.len()
                    invariant
                        i <= a.len(),
                        a.len() == b.len(),
                        forall|j: int| 0 <= j < i ==> a@[j] == b@[j],
                        word_view(x) == Some(a@),
                        word_view(y) == Some(b@),
                    decreases a.len() - i,
                {
                    if a[i] != b[i] {
                        proof {
                            assert(a@[i as int] != b@[i as int]);
                            assert(a@ != b@);
                        }
                        return false;
                    }
                    i = i + 1;
                }
                proof {
                    assert(a@ =~= b@);
                }
                true
            },
            Word::Suffix => false,
        },
        Word::Suffix => match y {
            Word::Digits(_) => false,
            Word::Suffix => true,
        },
    }
}

/// The count is at least one for every `n >= 100`, decided in range.
pub open spec fn positive(c: Linear) -> bool {
    decides(c, 1) && margin_fits(c, 1) && at_least(c, 1)
}

/// Popping the front digit: `None` where it fails (the suffix marker would
/// be read, a count is not at least one, a repeated word is empty, or a count overflows).
pub open spec fn pop_spec(v: StackView) -> Option<(u32, StackView)> {
    if v.finite.len() > 0 {
        Some((v.finite[0], StackView { finite: v.finite.drop_first(), powers: v.powers }))
    } else if v.powers.len() == 0 {
        Some((0, v))
    } else {
        let b = v.powers[0];
        match b.word {
            None => None,
            Some(d) => if !positive(b.count) || d.len() == 0 {
                None
            } else if b.count == constant(1) {
                Some((d[0], StackView { finite: d.drop_first(), powers: v.powers.drop_first() }))
            } else if !fits(b.count.b - 1) {
                None
            } else {
                Some(
                    (
                        d[0],
                        StackView {
                            finite: d.drop_first(),
                            powers: seq![digits_block(d, Linear { a: b.count.a, b: (b.count.b - 1) as i128 })]
                                + v.powers.drop_first(),
                        },
                    ),
                )
            },
        }
    }
}

/// Popping `k` digits one by one.
pub open spec fn pops(v: StackView, k: nat) -> Option<(Seq<u32>, StackView)>
    decreases k,
{
    if k == 0 {
        Some((seq![], v))
    } else {
        match pop_spec(v) {
            None => None,
            Some((d, w)) => match pops(w, (k - 1) as nat) {
                None => None,
                Some((ds, u)) => Some((seq![d] + ds, u)),
            },
        }
    }
}

/// `pops` takes exactly `k` digits.
pub proof fn lemma_pops_len(v: StackView, k: nat)
    ensures
        pops(v, k) matches Some((ds, _)) ==> ds.len() == k,
    decreases k,
{
    if k > 0 {
        match pop_spec(v) {
            None => {},
            Some((d, w)) => {
                lemma_pops_len(w, (k - 1) as nat);
            },
        }
    }
}

/// Whether the tape starts with `prefix`, reading no suffix marker.
pub open spec fn matches_spec(v: StackView, prefix: Seq<u32>) -> Option<bool>
    decreases prefix.len(),
{
    if prefix.len() == 0 {
        Some(true)
    } else if v.finite.len() == 0 && v.powers.len() > 0 && v.powers[0].word is None {
        Some(false)
    } else {
        match pop_spec(v) {
            None => None,
            Some((d, w)) => if d != prefix[0] {
                Some(false)
            } else {
                matches_spec(w, prefix.drop_first())
            },
        }
    }
}

/// Every digit is zero.
pub open spec fn all_zero(s: Seq<u32>) -> bool {
    forall|i: int| 0 <= i < s.len() ==> #[trigger] s[i] == 0
}

/// A block of zero digits.
pub open spec fn zero_block(b: BlockView) -> bool {
    match b.word {
        Some(d) => all_zero(d),
        None => false,
    }
}

/// The tape holds only zeros: every finite digit and every block's digits.
pub open spec fn blank_view(v: StackView) -> bool {
    &&& all_zero(v.finite)
    &&& forall|i: int| 0 <= i < v.powers.len() ==> zero_block(#[trigger] v.powers[i])
}

/// `w` repeats with period `size`, which divides its length.
pub open spec fn periodic(w: Seq<u32>, size: nat) -> bool {
    &&& size > 0
    &&& w.len() % size == 0
    &&& forall|i: int| 0 <= i < w.len() ==> #[trigger] w[i] == w[i % size as int]
}

/// The least period from `size` on that divides the length (the length itself at most).
pub open spec fn root_from(w: Seq<u32>, size: nat) -> nat
    decreases w.len() - size,
{
    if size >= w.len() {
        w.len()
    } else if periodic(w, size) {
        size
    } else {
        root_from(w, size + 1)
    }
}

/// The length of the primitive root of a nonempty word.
pub open spec fn root_len(w: Seq<u32>) -> nat {
    root_from(w, 1)
}

/// A block written over its primitive root, with the count scaled to match.
pub open spec fn reduced(b: BlockView) -> Option<BlockView> {
    match b.word {
        Some(w) => {
            let s = root_len(w);
            let f = (w.len() / s) as int;
            if fits(b.count.a * f) && fits(b.count.b * f) {
                Some(
                    BlockView {
                        word: Some(w.take(s as int)),
                        count: Linear { a: (b.count.a * f) as i128, b: (b.count.b * f) as i128 },
                    },
                )
            } else {
                None
            }
        },
        None => Some(b),
    }
}

/// Appends a block, adding its count to the last block when both repeat the same digits.
pub open spec fn merged(out: Seq<BlockView>, part: BlockView) -> Option<Seq<BlockView>> {
    if out.len() > 0 && out.last().word == part.word && part.word is Some {
        let c = out.last().count;
        if fits(c.a + part.count.a) && fits(c.b + part.count.b) {
            Some(
                out.drop_last().push(
                    BlockView {
                        word: part.word,
                        count: Linear { a: (c.a + part.count.a) as i128, b: (c.b + part.count.b) as i128 },
                    },
                ),
            )
        } else {
            None
        }
    } else {
        Some(out.push(part))
    }
}

/// A block that repeats nothing: a zero count or an empty word.
pub open spec fn void_block(b: BlockView) -> bool {
    b.count == constant(0) || b.word == Some(Seq::<u32>::empty())
}

/// Folds the blocks into `out`: dropping void blocks, reducing words to their roots and
/// merging neighbours with the same digits.
pub open spec fn folded(out: Seq<BlockView>, rest: Seq<BlockView>) -> Option<Seq<BlockView>>
    decreases rest.len(),
{
    if rest.len() == 0 {
        Some(out)
    } else if void_block(rest[0]) {
        folded(out, rest.drop_first())
    } else {
        match reduced(rest[0]) {
            None => None,
            Some(p) => match merged(out, p) {
                None => None,
                Some(o) => folded(o, rest.drop_first()),
            },
        }
    }
}

/// Drops trailing blocks of zero digits.
pub open spec fn trimmed_blocks(out: Seq<BlockView>) -> Seq<BlockView>
    decreases out.len(),
{
    if out.len() > 0 && zero_block(out.last()) {
        trimmed_blocks(out.drop_last())
    } else {
        out
    }
}

/// Drops trailing zero digits.
pub open spec fn trimmed_digits(f: Seq<u32>) -> Seq<u32>
    decreases f.len(),
{
    if f.len() > 0 && f.last() == 0 {
        trimmed_digits(f.drop_last())
    } else {
        f
    }
}

/// The canonical form of a stack: `None` where a count overflows.
pub open spec fn normalize_spec(v: StackView) -> Option<StackView> {
    match folded(seq![], v.powers) {
        None => None,
        Some(out) => {
            let p = trimmed_blocks(out);
            Some(
                StackView {
                    finite: if p.len() == 0 {
                        trimmed_digits(v.finite)
                    } else {
                        v.finite
                    },
                    powers: p,
                },
            )
        },
    }
}

/// The parts a prepend keeps (the non-void ones), in order; `None` where one of them is
/// not at least one for every `n >= 100`.
pub open spec fn kept_parts(parts: Seq<BlockView>) -> Option<Seq<BlockView>>
    decreases parts.len(),
{
    if parts.len() == 0 {
        Some(seq![])
    } else {
        match kept_parts(parts.drop_first()) {
            None => None,
            Some(rest) => if void_block(parts[0]) {
                Some(rest)
            } else if !positive(parts[0].count) {
                None
            } else {
                Some(seq![parts[0]] + rest)
            },
        }
    }
}

/// The stack with `parts` written in front of it, then normalized.
pub open spec fn prepend_spec(v: StackView, parts: Seq<BlockView>) -> Option<StackView> {
    match kept_parts(parts) {
        None => None,
        Some(k) => normalize_spec(
            StackView {
                finite: seq![],
                powers: k + if v.finite.len() > 0 {
                    seq![digits_block(v.finite, constant(1))] + v.powers
                } else {
                    v.powers
                },
            },
        ),
    }
}

pub proof fn lemma_root_from_skip(w: Seq<u32>, size: nat, s: nat)
    requires
        1 <= s <= size,
        forall|t: nat| s <= t < size ==> !#[trigger] periodic(w, t),
        size <= w.len(),
    ensures
        root_from(w, s) == root_from(w, size),
    decreases size - s,
{
    if s < size {
        assert(!periodic(w, s));
        lemma_root_from_skip(w, size, s + 1);
    }
}

pub proof fn lemma_root_bounds(w: Seq<u32>, size: nat)
    requires
        1 <= size,
        w.len() > 0,
    ensures
        1 <= root_from(w, size) <= w.len(),
        root_from(w, size) == w.len() || periodic(w, root_from(w, size)),
    decreases w.len() - size,
{
    if size < w.len() && !periodic(w, size) {
        lemma_root_bounds(w, size + 1);
    }
}

impl Stack {
    /// The empty tape.
    pub fn new() -> (s: Stack)
        ensures
            stack_view(&s).finite == Seq::<u32>::empty(),
            stack_view(&s).powers == Seq::<BlockView>::empty(),
    {
        let s = Stack { finite: VecDeque::new(), powers: VecDeque::new() };
        proof {
            assert(stack_view(&s).powers =~= Seq::<BlockView>::empty());
        }
        s
    }

    /// A copy of the stack.
    pub fn duplicate(&self) -> (r: Stack)
        ensures
            stack_view(&r) == stack_view(self),
    {
        let mut finite: VecDeque<u32> = VecDeque::new();
        let mut i: usize = 0;
        while i < self.finite.len()
            invariant
                i <= self.finite@.len(),
                finite@ == self.finite@.take(i as int),
            decreases self.finite@.len() - i,
        {
            finite.push_back(self.finite[i]);
            proof {
                assert(self.finite@.take(i + 1) =~= self.finite@.take(i as int).push(
                    self.finite@[i as int],
                ));
            }
            i = i + 1;
        }
        let mut powers: VecDeque<Block> = VecDeque::new();
        let mut j: usize = 0;
        while j < self.powers.len()
            invariant
                j <= self.powers@.len(),
                powers@.len() == j,
                forall|k: int| 0 <= k < j ==> block_view(&#[trigger] powers@[k]) == block_view(
                    &self.powers@[k],
                ),
            decreases self.powers@.len() - j,
        {
            powers.push_back(copy_block(&self.powers[j]));
            j = j + 1;
        }
        let r = Stack { finite, powers };
        proof {
            assert(self.finite@.take(self.finite@.len() as int) =~= self.finite@);
            assert(stack_view(&r).powers =~= stack_view(self).powers);
        }
        r
    }

    /// Takes the front digit; zero once the tape holds nothing more.  `None` where it
    /// fails.
    pub fn pop(&mut self) -> (r: Option<u32>)
        ensures
            match pop_spec(stack_view(old(self))) {
                None => r is None,
                Some((d, v)) => r == Some(d) && stack_view(final(self)) == v,
            },
    {
        let ghost v0 = stack_view(self);
        if self.finite.len() == 0 {
            if self.powers.len() == 0 {
                return Some(0);
            }
            let part = self.powers.pop_front().unwrap();
            proof {
                assert(block_view(&part) == v0.powers[0]);
                assert(self.powers@.map_values(|b: Block| block_view(&b)) =~= v0.powers.drop_first());
            }
            let digits = match part.word {
                Word::Digits(d) => d,
                Word::Suffix => return None,
            };
            match part.count.try_ge(1) {
                Some(true) => {},
                _ => return None,
            }
            if digits.len() == 0 {
                return None;
            }
            let ghost kept = self.powers@;
            let mut i: usize = 0;
            while i < digits.len()
                invariant
                    i <= digits@.len(),
                    self.finite@ == digits@.take(i as int),
                    self.powers@ == kept,
                decreases digits@.len() - i,
            {
                self.finite.push_back(digits[i]);
                proof {
                    assert(digits@.take(i + 1) =~= digits@.take(i as int).push(digits@[i as int]));
                }
                i = i + 1;
            }
            proof {
                assert(digits@.take(digits@.len() as int) =~= digits@);
            }
            if part.count != num(1) {
                let rest = match part.count.sub(num(1)) {
                    Some(c) => c,
                    None => return None,
                };
                let ghost before = self.powers@;
                self.powers.push_front(block(digits.as_slice(), rest));
                proof {
                    assert(self.powers@.map_values(|b: Block| block_view(&b)) =~= seq![digits_block(digits@, rest)] + before.map_values(|b: Block| block_view(&b)));
                }
            }
        }
        let ghost f = self.finite@;
        let d = self.finite.pop_front().unwrap();
        proof {
            assert(self.finite@ =~= f.drop_first());
            if v0.finite.len() > 0 {
                assert(stack_view(self).powers == v0.powers);
                assert(pop_spec(v0) == Some((d, stack_view(self))));
            } else {
                let b = v0.powers[0];
                assert(b.word == Some(f));
                assert(positive(b.count));
                if b.count == constant(1) {
                    assert(stack_view(self).powers == v0.powers.drop_first());
                } else {
                    assert(stack_view(self).powers == seq![digits_block(f, Linear { a: b.count.a, b: (b.count.b - 1) as i128 })] + v0.powers.drop_first());
                }
                assert(pop_spec(v0) == Some((d, stack_view(self))));
            }
        }
        Some(d)
    }

    /// The first `size` digits of the tape, without consuming them.
    pub fn near(&self, size: usize) -> (r: Option<Vec<u32>>)
        ensures
            match pops(stack_view(self), size as nat) {
                None => r is None,
                Some((ds, _)) => r matches Some(v) && v@ == ds,
            },
            r matches Some(v) ==> v@.len() == size,
    {
        proof {
            lemma_pops_len(stack_view(self), size as nat);
        }
        let mut probe = self.duplicate();
        let mut out: Vec<u32> = Vec::new();
        let mut i: usize = 0;
        while i < size
            invariant
                i <= size,
                pops(stack_view(self), size as nat) == (match pops(stack_view(&probe), (size - i) as nat) {
                    None => None,
                    Some((ds, u)) => Some((out@ + ds, u)),
                }),
            decreases size - i,
        {
            let ghost pv = stack_view(&probe);
            let d = match probe.pop() {
                Some(d) => d,
                None => return None,
            };
            proof {
                assert(pops(pv, (size - i) as nat) == (match pops(stack_view(&probe), (size - i - 1) as nat) {
                    None => None,
                    Some((ds, u)) => Some((seq![d] + ds, u)),
                }));
                assert forall|ds: Seq<u32>| #[trigger] (out@ + (seq![d] + ds)) == out@.push(d) + ds by {
                    assert(out@ + (seq![d] + ds) =~= out@.push(d) + ds);
                }
            }
            out.push(d);
            i = i + 1;
        }
        proof {
            assert(out@ + Seq::<u32>::empty() =~= out@);
        }
        Some(out)
    }

    /// Whether the tape starts with `prefix` (reading the suffix marker answers no).
    pub fn matches(&self, prefix: &[u32]) -> (r: Option<bool>)
        ensures
            r == matches_spec(stack_view(self), prefix@),
    {
        let mut probe = self.duplicate();
        let mut i: usize = 0;
        proof {
            assert(prefix@.skip(0) =~= prefix@);
        }
        while i < prefix.len()
            invariant
                i <= prefix.len(),
                matches_spec(stack_view(self), prefix@) == matches_spec(stack_view(&probe), prefix@.skip(i as int)),
            decreases prefix.len() - i,
        {
            let ghost pv = stack_view(&probe);
            proof {
                assert(prefix@.skip(i as int).drop_first() =~= prefix@.skip(i + 1));
            }
            if probe.finite.len() == 0 && probe.powers.len() > 0 {
                let front_is_suffix = match &probe.powers[0].word {
                    Word::Suffix => true,
                    Word::Digits(_) => false,
                };
                if front_is_suffix {
                    return Some(false);
                }
            }
            let d = match probe.pop() {
                Some(d) => d,
                None => return None,
            };
            if d != prefix[i] {
                return Some(false);
            }
            i = i + 1;
        }
        Some(true)
    }

    /// Whether the tape holds only zeros.
    pub fn empty(&self) -> (r: bool)
        ensures
            r == blank_view(stack_view(self)),
    {
        let mut i: usize = 0;
        while i < self.finite.len()
            invariant
                i <= self.finite@.len(),
                all_zero(self.finite@.take(i as int)),
            decreases self.finite@.len() - i,
        {
            if self.finite[i] != 0 {
                return false;
            }
            proof {
                assert forall|k: int| 0 <= k < i + 1 implies #[trigger] self.finite@.take(i + 1)[k] == 0 by {
                    if k < i {
                        assert(self.finite@.take(i as int)[k] == 0);
                    }
                }
            }
            i = i + 1;
        }
        proof {
            assert(self.finite@.take(self.finite@.len() as int) =~= self.finite@);
        }
        let mut j: usize = 0;
        while j < self.powers.len()
            invariant
                j <= self.powers@.len(),
                all_zero(self.finite@),
                forall|k: int| 0 <= k < j ==> zero_block(#[trigger] stack_view(self).powers[k]),
            decreases self.powers@.len() - j,
        {
            let zero = match &self.powers[j].word {
                Word::Digits(w) => {
                    let mut t: usize = 0;
                    let mut ok = true;
                    while t < w.len()
                        invariant
                            t <= w@.len(),
                            ok == all_zero(w@.take(t as int)),
                        decreases w@.len() - t,
                    {
                        proof {
                            assert forall|k: int| 0 <= k < t + 1 implies #[trigger] w@.take(t + 1)[k] == w@[k] by {}
                        }
                        if w[t] != 0 {
                            ok = false;
                        }
                        proof {
                            if ok {
                                assert forall|k: int| 0 <= k < t + 1 implies #[trigger] w@.take(t + 1)[k] == 0 by {
                                    if k < t {
                                        assert(w@.take(t as int)[k] == 0);
                                    }
                                }
                            } else {
                                if all_zero(w@.take(t + 1)) {
                                    if w[t as int] != 0 {
                                        assert(w@.take(t + 1)[t as int] == w[t as int]);
                                    } else {
                                        assert forall|k: int| 0 <= k < t implies #[trigger] w@.take(t as int)[k] == 0 by {
                                            assert(w@.take(t + 1)[k] == 0);
                                        }
                                    }
                                }
                            }
                        }
                        t = t + 1;
                    }
                    proof {
                        assert(w@.take(w@.len() as int) =~= w@);
                    }
                    ok
                },
                Word::Suffix => false,
            };
            if !zero {
                proof {
                    assert(!zero_block(stack_view(self).powers[j as int]));
                }
                return false;
            }
            j = j + 1;
        }
        true
    }

    /// The finite digits as a block counted once, then the blocks.
    pub fn blocks(&self) -> (r: Vec<Block>)
        ensures
            r@.map_values(|b: Block| block_view(&b)) == seq![digits_block(self.finite@, constant(1))]
                + stack_view(self).powers,
    {
        let mut finite: Vec<u32> = Vec::new();
        let mut i: usize = 0;
        while i < self.finite.len()
            invariant
                i <= self.finite@.len(),
                finite@ == self.finite@.take(i as int),
            decreases self.finite@.len() - i,
        {
            finite.push(self.finite[i]);
            proof {
                assert(self.finite@.take(i + 1) =~= self.finite@.take(i as int).push(self.finite@[i as int]));
            }
            i = i + 1;
        }
        proof {
            assert(self.finite@.take(self.finite@.len() as int) =~= self.finite@);
        }
        let mut parts: Vec<Block> = Vec::new();
        parts.push(block(finite.as_slice(), num(1)));
        let mut j: usize = 0;
        while j < self.powers.len()
            invariant
                j <= self.powers@.len(),
                parts@.len() == j + 1,
                block_view(&parts@[0]) == digits_block(self.finite@, constant(1)),
                forall|k: int| 0 <= k < j ==> block_view(&#[trigger] parts@[k + 1]) == block_view(&self.powers@[k]),
            decreases self.powers@.len() - j,
        {
            parts.push(copy_block(&self.powers[j]));
            j = j + 1;
        }
        proof {
            assert(parts@.map_values(|b: Block| block_view(&b)) =~= seq![digits_block(self.finite@, constant(1))]
                + stack_view(self).powers);
        }
        parts
    }
}

/// The block written over its primitive root (the word must be nonempty).
#[verifier::rlimit(50)]
fn reduce_block(part: Block) -> (r: Option<Block>)
    requires
        block_view(&part).word != Some(Seq::<u32>::empty()),
    ensures
        match reduced(block_view(&part)) {
            None => r is None,
            Some(b) => r matches Some(x) && block_view(&x) == b,
        },
{
    let ghost orig = block_view(&part);
    let Block { word, count } = part;
    match word {
        Word::Suffix => Some(Block { word: Word::Suffix, count }),
        Word::Digits(mut w) => {
            let len = w.len();
            let mut size: usize = 1;
            let ghost w0 = w@;
            proof {
                if w0.len() == 0 {
                    assert(w0 =~= Seq::<u32>::empty());
                }
            }
            loop
                invariant
                    1 <= size <= len,
                    w@ == w0,
                    len == w0.len(),
                    orig.word == Some(w0),
                    orig.count == count,
                    orig == block_view(&part),
                    forall|t: nat| 1 <= t < size ==> !#[trigger] periodic(w0, t),
                decreases len - size,
            {
                let mut ok = len % size == 0;
                if ok {
                    let mut i: usize = 0;
                    while i < len
                        invariant
                            i <= len,
                            len == w@.len(),
                            1 <= size <= len,
                            ok == (forall|j: int| 0 <= j < i ==> #[trigger] w@[j] == w@[j % size as int]),
                            ok ==> len % size == 0,
                            w@ == w0,
                        decreases len - i,
                    {
                        if w[i] != w[i % size] {
                            proof {
                                assert(!(w@[i as int] == w@[i as int % size as int]));
                            }
                            ok = false;
                        }
                        i = i + 1;
                    }
                }
                if ok || size == len {
                    proof {
                        lemma_root_from_skip(w0, size as nat, 1);
                        if ok {
                            assert(periodic(w0, size as nat));
                        }
                        assert(root_len(w0) == size);
                        assert(orig.word == Some(w0));
                    }
                    let factor = (len / size) as i128;
                    proof {
                        assert(factor as int == (w0.len() / root_len(w0)) as int);
                    }
                    let count2 = match count.mul(factor) {
                        Some(c) => c,
                        None => {
                            proof {
                                assert(reduced(orig) is None);
                            }
                            return None;
                        },
                    };
                    w.truncate(size);
                    let r = Block { word: Word::Digits(w), count: count2 };
                    proof {
                        assert(w@ == w0.take(size as int));
                        assert(reduced(orig) == Some(block_view(&r)));
                    }
                    return Some(r);
                }
                proof {
                    assert(!periodic(w0, size as nat));
                }
                size = size + 1;
            }
        },
    }
}

impl Stack {
    /// Rewrites the stack in canonical form (see `normalize_spec`); `None` where a count
    /// overflows, the stack then left partly rewritten.
    pub fn normalize(&mut self) -> (r: Option<()>)
        ensures
            match normalize_spec(stack_view(old(self))) {
                None => r is None,
                Some(v) => r is Some && stack_view(final(self)) == v,
            },
    {
        let ghost v0 = stack_view(self);
        let mut out: VecDeque<Block> = VecDeque::new();
        proof {
            assert(out@.map_values(|b: Block| block_view(&b)) =~= Seq::<BlockView>::empty());
        }
        while self.powers.len() > 0
            invariant
                folded(seq![], v0.powers) == folded(out@.map_values(|b: Block| block_view(&b)), stack_view(self).powers),
                self.finite@ == v0.finite,
                v0 == stack_view(old(self)),
            decreases self.powers@.len(),
        {
            let ghost pv = stack_view(self).powers;
            let ghost ov = out@.map_values(|b: Block| block_view(&b));
            let part = self.powers.pop_front().unwrap();
            proof {
                assert(stack_view(self).powers =~= pv.drop_first());
                assert(block_view(&part) == pv[0]);
            }
            if part.count == num(0) {
                continue;
            }
            let empty_word = match &part.word {
                Word::Digits(w) => w.len() == 0,
                Word::Suffix => false,
            };
            if empty_word {
                proof {
                    assert(block_view(&part).word =~= Some(Seq::<u32>::empty()));
                }
                continue;
            }
            let part = match reduce_block(part) {
                Some(b) => b,
                None => return None,
            };
            let mut merged_here = false;
            if out.len() > 0 {
                let last_index = out.len() - 1;
                let digits = match &part.word {
                    Word::Digits(_) => true,
                    Word::Suffix => false,
                };
                if digits && same_word(&out[last_index].word, &part.word) {
                    let last = out.pop_back().unwrap();
                    let count = match last.count.add(part.count) {
                        Some(c) => c,
                        None => return None,
                    };
                    out.push_back(Block { word: last.word, count });
                    merged_here = true;
                }
            }
            if !merged_here {
                out.push_back(part);
            }
            proof {
                assert(out@.map_values(|b: Block| block_view(&b)) =~= merged(ov, block_view(&part)).unwrap());
            }
        }
        let ghost out0 = out@.map_values(|b: Block| block_view(&b));
        proof {
            assert(folded(seq![], v0.powers) == Some(out0));
        }
        loop
            invariant
                trimmed_blocks(out@.map_values(|b: Block| block_view(&b))) == trimmed_blocks(out0),
                self.finite@ == v0.finite,
            ensures
                trimmed_blocks(out@.map_values(|b: Block| block_view(&b))) == trimmed_blocks(out0),
                trimmed_blocks(out@.map_values(|b: Block| block_view(&b))) == out@.map_values(|b: Block| block_view(&b)),
                self.finite@ == v0.finite,
            decreases out@.len(),
        {
            let ghost ov = out@.map_values(|b: Block| block_view(&b));
            if out.len() == 0 {
                break;
            }
            let last_zero = match &out[out.len() - 1].word {
                Word::Digits(w) => all_zero_digits(w),
                Word::Suffix => false,
            };
            proof {
                assert(ov.last() == block_view(&out@.last()));
                assert(last_zero == zero_block(ov.last()));
            }
            if !last_zero {
                break;
            }
            out.pop_back();
            proof {
                assert(out@.map_values(|b: Block| block_view(&b)) =~= ov.drop_last());
            }
        }
        self.powers = out;
        if self.powers.len() == 0 {
            while self.finite.len() > 0 && self.finite[self.finite.len() - 1] == 0
                invariant
                    trimmed_digits(self.finite@) == trimmed_digits(v0.finite),
                    self.powers@.len() == 0,
                decreases self.finite@.len(),
            {
                let ghost f = self.finite@;
                self.finite.pop_back();
                proof {
                    assert(self.finite@ =~= f.drop_last());
                }
            }
        }
        proof {
            let p = stack_view(self).powers;
            if p.len() == 0 {
                assert(stack_view(self).powers =~= trimmed_blocks(out0));
            }
        }
        Some(())
    }
}

impl Stack {
    /// Writes `parts` in front of the tape (void parts skipped), then normalizes; `None`
    /// where a kept part is not at least one for every `n >= 100`, or a count overflows.
    pub fn prepend(&mut self, parts: Vec<Block>) -> (r: Option<()>)
        ensures
            match prepend_spec(stack_view(old(self)), parts@.map_values(|b: Block| block_view(&b))) {
                None => r is None,
                Some(v) => r is Some && stack_view(final(self)) == v,
            },
    {
        let ghost v0 = stack_view(self);
        let ghost pv = parts@.map_values(|b: Block| block_view(&b));
        if self.finite.len() > 0 {
            let mut digits: Vec<u32> = Vec::new();
            while self.finite.len() > 0
                invariant
                    digits@ + self.finite@ == v0.finite,
                    stack_view(self).powers == v0.powers,
                decreases self.finite@.len(),
            {
                let ghost f = self.finite@;
                let d = self.finite.pop_front().unwrap();
                proof {
                    assert(digits@.push(d) + self.finite@ =~= digits@ + f);
                }
                digits.push(d);
            }
            proof {
                assert(digits@ + self.finite@ =~= digits@);
            }
            let ghost before = self.powers@;
            self.powers.push_front(block(digits.as_slice(), num(1)));
            proof {
                assert(stack_view(self).powers =~= seq![digits_block(v0.finite, constant(1))] + v0.powers);
            }
        }
        proof {
            assert(self.finite@ =~= Seq::<u32>::empty());
        }
        let ghost base = stack_view(self).powers;
        let mut rest = parts;
        let ghost mut added: Seq<BlockView> = seq![];
        proof {
            assert(pv.skip(pv.len() as int) =~= Seq::<BlockView>::empty());
        }
        while rest.len() > 0
            invariant
                rest@.len() <= pv.len(),
                rest@.map_values(|b: Block| block_view(&b)) == pv.take(rest@.len() as int),
                kept_parts(pv.skip(rest@.len() as int)) == Some(added),
                stack_view(self).powers == added + base,
                self.finite@ == Seq::<u32>::empty(),
                v0 == stack_view(old(self)),
                pv == parts@.map_values(|b: Block| block_view(&b)),
                prepend_spec(v0, pv) == (match kept_parts(pv) {
                    None => None,
                    Some(k) => normalize_spec(StackView { finite: seq![], powers: k + base }),
                }),
            decreases rest@.len(),
        {
            let ghost i = rest@.len() as int;
            let ghost pp = rest@;
            let part = rest.pop().unwrap();
            proof {
                assert(part == pp[i - 1]);
                assert(pp.map_values(|b: Block| block_view(&b))[i - 1] == block_view(&pp[i - 1]));
                assert(pv.take(i)[i - 1] == pv[i - 1]);
                assert(block_view(&part) == pv[i - 1]);
                assert(pv.skip(i - 1).drop_first() =~= pv.skip(i));
                assert(pv.skip(i - 1)[0] == pv[i - 1]);
                assert(rest@.map_values(|b: Block| block_view(&b)) =~= pv.take(i - 1));
            }
            let void = part.count == num(0) || match &part.word {
                Word::Digits(w) => w.len() == 0,
                Word::Suffix => false,
            };
            if void {
                proof {
                    if part.count != constant(0) {
                        assert(block_view(&part).word =~= Some(Seq::<u32>::empty()));
                    }
                }
                continue;
            }
            proof {
                if block_view(&part).word == Some(Seq::<u32>::empty()) {
                    match &part.word {
                        Word::Digits(w) => assert(w@.len() == 0),
                        Word::Suffix => {},
                    }
                }
            }
            match part.count.try_ge(1) {
                Some(true) => {},
                _ => {
                    proof {
                        lemma_kept_none(pv, i - 1);
                    }
                    return None;
                },
            }
            let ghost before = self.powers@;
            let ghost bp = block_view(&part);
            self.powers.push_front(part);
            proof {
                assert(self.powers@ == seq![part] + before);
                assert(stack_view(self).powers =~= seq![bp] + before.map_values(|b: Block| block_view(&b)));
                added = seq![pv[i - 1]] + added;
                assert(stack_view(self).powers =~= added + base);
            }
        }
        proof {
            assert(pv.skip(0) =~= pv);
        }
        self.normalize()
    }
}

proof fn lemma_kept_none(pv: Seq<BlockView>, i: int)
    requires
        0 <= i < pv.len(),
        !void_block(pv[i]),
        !positive(pv[i].count),
        kept_parts(pv.skip(i + 1)) is Some,
    ensures
        kept_parts(pv) is None,
    decreases i,
{
    assert(pv.skip(i).drop_first() =~= pv.skip(i + 1));
    assert(pv.skip(i)[0] == pv[i]);
    assert(kept_parts(pv.skip(i)) is None);
    lemma_kept_none_prefix(pv, i);
}

proof fn lemma_kept_none_prefix(pv: Seq<BlockView>, i: int)
    requires
        0 <= i <= pv.len(),
        kept_parts(pv.skip(i)) is None,
    ensures
        kept_parts(pv) is None,
    decreases i,
{
    if i > 0 {
        assert(pv.skip(i - 1).drop_first() =~= pv.skip(i));
        lemma_kept_none_prefix(pv, i - 1);
    } else {
        assert(pv.skip(0) =~= pv);
    }
}

/// The shapes of words a caller takes whole off the front of a stack.
pub enum Shape {
    /// Every pair of digits is `(x, y)`.
    Pairs(u32, u32),
    /// Every pair of digits is a positive digit then zero.
    Countdowns,
    /// Every digit at an odd position is at least one.
    Gaps,
}

pub open spec fn shape_accepts(shape: Shape, w: Seq<u32>) -> bool {
    match shape {
        Shape::Pairs(x, y) => forall|i: int|
            0 <= i < w.len() / 2 ==> #[trigger] w[2 * i] == x && w[2 * i + 1] == y,
        Shape::Countdowns => forall|i: int|
            0 <= i < w.len() / 2 ==> #[trigger] w[2 * i] > 0 && w[2 * i + 1] == 0,
        Shape::Gaps => forall|i: int| 0 <= i < w.len() && i % 2 == 1 ==> #[trigger] w[i] >= 1,
    }
}

/// Whether a word has the shape.
pub fn accepts(shape: &Shape, w: &[u32]) -> (r: bool)
    ensures
        r == shape_accepts(*shape, w@),
{
    match shape {
        Shape::Pairs(x, y) => {
            let mut i: usize = 0;
            while i < w.len() / 2
                invariant
                    i <= w.len() / 2,
                    *shape == Shape::Pairs(*x, *y),
                    forall|j: int| 0 <= j < i ==> #[trigger] w@[2 * j] == *x && w@[2 * j + 1] == *y,
                decreases w.len() / 2 - i,
            {
                if w[2 * i] != *x || w[2 * i + 1] != *y {
                    proof {
                        assert(!(w@[2 * (i as int)] == *x && w@[2 * (i as int) + 1] == *y));
                    }
                    return false;
                }
                i = i + 1;
            }
            true
        },
        Shape::Countdowns => {
            let mut i: usize = 0;
            while i < w.len() / 2
                invariant
                    i <= w.len() / 2,
                    *shape == Shape::Countdowns,
                    forall|j: int| 0 <= j < i ==> #[trigger] w@[2 * j] > 0 && w@[2 * j + 1] == 0,
                decreases w.len() / 2 - i,
            {
                if !(w[2 * i] > 0 && w[2 * i + 1] == 0) {
                    proof {
                        assert(!(w@[2 * (i as int)] > 0 && w@[2 * (i as int) + 1] == 0));
                    }
                    return false;
                }
                i = i + 1;
            }
            true
        },
        Shape::Gaps => {
            let mut i: usize = 0;
            while i < w.len()
                invariant
                    i <= w.len(),
                    *shape == Shape::Gaps,
                    forall|j: int| 0 <= j < i && j % 2 == 1 ==> #[trigger] w@[j] >= 1,
                decreases w.len() - i,
            {
                if i % 2 == 1 && w[i] < 1 {
                    proof {
                        assert(!(w@[i as int] >= 1));
                    }
                    return false;
                }
                i = i + 1;
            }
            true
        },
    }
}

/// Taking a block of the shape whole off the front: a block of even length, or an odd
/// word doubled (half the count, the remainder left behind), or, with one finite digit
/// equal to the word's last, the word rotated.  `None` where it fails.
pub open spec fn aligned_spec(v: StackView, shape: Shape) -> Option<(Option<BlockView>, StackView)> {
    if v.powers.len() == 0 {
        Some((None, v))
    } else {
        let part = v.powers[0];
        match part.word {
            None => Some((None, v)),
            Some(word) => {
                let c = part.count;
                if v.finite.len() == 0 {
                    if word.len() % 2 == 0 && shape_accepts(shape, word) {
                        Some((Some(part), StackView { finite: v.finite, powers: v.powers.drop_first() }))
                    } else if word.len() % 2 == 1 {
                        if !(decides(c, 2) && margin_fits(c, 2)) {
                            None
                        } else if !at_least(c, 2) || !shape_accepts(shape, word + word) {
                            Some((None, v))
                        } else if c.a % 2 != 0 {
                            None
                        } else {
                            let q = Linear { a: (c.a / 2) as i128, b: (c.b / 2) as i128 };
                            let rest = Linear { a: (c.a - 2 * q.a) as i128, b: (c.b - 2 * q.b) as i128 };
                            Some(
                                (
                                    Some(digits_block(word + word, q)),
                                    StackView {
                                        finite: v.finite,
                                        powers: if rest != constant(0) {
                                            seq![digits_block(word, rest)] + v.powers.drop_first()
                                        } else {
                                            v.powers.drop_first()
                                        },
                                    },
                                ),
                            )
                        }
                    } else {
                        Some((None, v))
                    }
                } else if v.finite.len() == 1 && word.len() % 2 == 0 && word.len() > 0 && v.finite[0]
                    == word.last() && shape_accepts(shape, seq![v.finite[0]] + word.drop_last()) {
                    Some(
                        (
                            Some(digits_block(seq![v.finite[0]] + word.drop_last(), c)),
                            StackView { finite: v.finite, powers: v.powers.drop_first() },
                        ),
                    )
                } else {
                    Some((None, v))
                }
            },
        }
    }
}

impl Stack {
    /// Takes a block of the given shape whole off the front (see `aligned_spec`).
    pub fn aligned(&mut self, shape: &Shape) -> (r: Option<Option<Block>>)
        ensures
            match aligned_spec(stack_view(old(self)), *shape) {
                None => r is None,
                Some((b, v)) => r matches Some(x) && stack_view(final(self)) == v && match b {
                    None => x is None,
                    Some(bv) => x matches Some(y) && block_view(&y) == bv,
                },
            },
    {
        let ghost v0 = stack_view(self);
        if self.powers.len() == 0 {
            return Some(None);
        }
        let part = copy_block(&self.powers[0]);
        let word = match &part.word {
            Word::Digits(w) => w,
            Word::Suffix => return Some(None),
        };
        let count = part.count;
        if self.finite.len() == 0 {
            if word.len() % 2 == 0 && accepts(shape, word.as_slice()) {
                let taken = self.powers.pop_front();
                proof {
                    assert(stack_view(self).powers =~= v0.powers.drop_first());
                }
                return Some(taken);
            }
            if word.len() % 2 == 1 {
                let at_two = match count.try_ge(2) {
                    Some(x) => x,
                    None => return None,
                };
                if !at_two {
                    return Some(None);
                }
                let mut doubled = copy_digits(word.as_slice());
                let mut k: usize = 0;
                while k < word.len()
                    invariant
                        k <= word@.len(),
                        doubled@ == word@ + word@.take(k as int),
                    decreases word@.len() - k,
                {
                    doubled.push(word[k]);
                    proof {
                        assert(word@.take(k + 1) =~= word@.take(k as int).push(word@[k as int]));
                        assert(word@ + word@.take(k + 1) =~= (word@ + word@.take(k as int)).push(word@[k as int]));
                    }
                    k = k + 1;
                }
                proof {
                    assert(word@.take(word@.len() as int) =~= word@);
                }
                if !accepts(shape, doubled.as_slice()) {
                    return Some(None);
                }
                let q = match count.try_div(2) {
                    Some(q) => q,
                    None => return None,
                };
                let twice = q.mul(2).unwrap();
                let rest = count.sub(twice).unwrap();
                self.powers.pop_front();
                if rest != num(0) {
                    self.powers.push_front(block(word.as_slice(), rest));
                }
                proof {
                    if rest != constant(0) {
                        assert(stack_view(self).powers =~= seq![digits_block(word@, rest)] + v0.powers.drop_first());
                    } else {
                        assert(stack_view(self).powers =~= v0.powers.drop_first());
                    }
                }
                return Some(Some(block(doubled.as_slice(), q)));
            }
        } else if self.finite.len() == 1 && word.len() % 2 == 0 && word.len() > 0 && self.finite[0]
            == word[word.len() - 1] {
            let mut rotated: Vec<u32> = Vec::new();
            rotated.push(self.finite[0]);
            let mut k: usize = 0;
            while k < word.len() - 1
                invariant
                    k + 1 <= word@.len(),
                    self.finite@.len() == 1,
                    rotated@ == seq![self.finite@[0]] + word@.take(k as int),
                decreases word@.len() - k,
            {
                rotated.push(word[k]);
                proof {
                    assert(seq![self.finite@[0]] + word@.take(k + 1) =~= (seq![self.finite@[0]] + word@.take(k as int)).push(word@[k as int]));
                }
                k = k + 1;
            }
            proof {
                assert(word@.take(k as int) =~= word@.drop_last());
            }
            if accepts(shape, rotated.as_slice()) {
                self.powers.pop_front();
                proof {
                    assert(stack_view(self).powers =~= v0.powers.drop_first());
                }
                return Some(Some(block(rotated.as_slice(), count)));
            }
        }
        Some(None)
    }
}

/// A measure of a count that every operation taking digits off a block lowers.
pub open spec fn count_weight(c: Linear) -> nat {
    ((c.a - i128::MIN) * 0x1_0000_0000_0000_0000_0000_0000_0000_0000int + (c.b - i128::MIN)
        + 1) as nat
}

/// The sum of the blocks' measures.
pub open spec fn powers_weight(p: Seq<BlockView>) -> nat
    decreases p.len(),
{
    if p.len() == 0 {
        0
    } else {
        count_weight(p[0].count) + powers_weight(p.drop_first())
    }
}

/// The measure that `pop` and `aligned` lower: the blocks' weights, then the finite length.
pub open spec fn shrinks(w: StackView, v: StackView) -> bool {
    powers_weight(w.powers) < powers_weight(v.powers) || (powers_weight(w.powers) == powers_weight(
        v.powers,
    ) && w.finite.len() < v.finite.len())
}

proof fn lemma_weight_positive(c: Linear)
    ensures
        count_weight(c) >= 1,
{
    assert((c.a - i128::MIN) * 0x1_0000_0000_0000_0000_0000_0000_0000_0000int >= 0) by (nonlinear_arith)
        requires
            c.a - i128::MIN >= 0,
    ;
}

/// Popping a digit off a nonempty tape lowers the measure; off an empty tape it returns
/// zero and changes nothing.
pub proof fn lemma_pop_shrinks(v: StackView)
    requires
        pop_spec(v) is Some,
    ensures
        pop_spec(v) matches Some((d, w)) && ((v.finite.len() == 0 && v.powers.len() == 0 && d == 0
            && w == v) || shrinks(w, v)),
{
    if v.finite.len() == 0 && v.powers.len() > 0 {
        let b = v.powers[0];
        lemma_weight_positive(b.count);
        if b.count != constant(1) {
            let w = pop_spec(v).unwrap().1;
            assert(w.powers.drop_first() =~= v.powers.drop_first());
        }
    }
}

/// Taking an aligned block lowers the measure.
pub proof fn lemma_aligned_shrinks(v: StackView, shape: Shape)
    requires
        aligned_spec(v, shape) matches Some((Some(_), _)),
    ensures
        aligned_spec(v, shape) matches Some((_, w)) && shrinks(w, v),
{
    let b = v.powers[0];
    lemma_weight_positive(b.count);
    let w = aligned_spec(v, shape).unwrap().1;
    if w.powers.len() == v.powers.len() {
        let c = b.count;
        let q = Linear { a: (c.a / 2) as i128, b: (c.b / 2) as i128 };
        let rest = Linear { a: (c.a - 2 * q.a) as i128, b: (c.b - 2 * q.b) as i128 };
        assert(w.powers.drop_first() =~= v.powers.drop_first());
        assert(rest.a == 0);
        assert(0 <= rest.b <= 1);
        assert(count_weight(rest) < count_weight(c)) by (nonlinear_arith)
            requires
                c.a >= 0,
                rest.a == 0,
                0 <= rest.b <= 1,
                c.a == 0 ==> c.b >= 2,
                c.a - i128::MIN >= 0,
                c.b - i128::MIN >= 0,
                c.b - i128::MIN < 0x1_0000_0000_0000_0000_0000_0000_0000_0000int,
        ;
    }
}

/// Popping two digits.
pub open spec fn pop_two(v: StackView) -> Option<StackView> {
    match pop_spec(v) {
        None => None,
        Some((_, w)) => match pop_spec(w) {
            None => None,
            Some((_, u)) => Some(u),
        },
    }
}

/// Popping two digits after a matched pair lowers the measure.
pub proof fn lemma_pop_two_shrinks(v: StackView, x: u32, y: u32)
    requires
        y != 0,
        matches_spec(v, seq![x, y]) == Some(true),
    ensures
        pop_two(v) matches Some(u) && shrinks(u, v),
{
    reveal_with_fuel(matches_spec, 3);
    assert(seq![x, y].drop_first() =~= seq![y]);
    assert(seq![y].drop_first() =~= Seq::<u32>::empty());
    lemma_pop_shrinks(v);
    let w = pop_spec(v).unwrap().1;
    assert(pop_spec(w) is Some);
    lemma_pop_shrinks(w);
}

/// The measure only falls along `shrinks`.
pub proof fn lemma_shrinks_trans(u: StackView, w: StackView, v: StackView)
    requires
        shrinks(u, w) || u == w,
        shrinks(w, v),
    ensures
        shrinks(u, v),
{
}

/// Popping two digits never raises the measure.
pub proof fn lemma_pop_two_no_growth(w: StackView)
    requires
        pop_two(w) is Some,
    ensures
        pop_two(w) matches Some(u) && (shrinks(u, w) || u == w),
{
    lemma_pop_shrinks(w);
    let x = pop_spec(w).unwrap().1;
    lemma_pop_shrinks(x);
    let u = pop_two(w).unwrap();
    if shrinks(x, w) {
        if x != u {
            lemma_shrinks_trans(u, x, w);
        }
    }
}

/// Takes copies of `pair` off the front while the stack starts with it, whole aligned
/// blocks of them at a time where it can, adding them to `count`.  `None` where it
/// fails.
pub open spec fn pairs_from(v: StackView, x: u32, y: u32, count: Linear) -> Option<(Linear, StackView)>
    decreases powers_weight(v.powers), v.finite.len(),
{
    if y == 0 {
        None
    } else {
        match matches_spec(v, seq![x, y]) {
            None => None,
            Some(false) => Some((count, v)),
            Some(true) => match aligned_spec(v, Shape::Pairs(x, y)) {
                None => None,
                Some((None, _)) => {
                    proof {
                        lemma_pop_two_shrinks(v, x, y);
                    }
                    match pop_two(v) {
                        None => None,
                        Some(u) => match linear_sum(count, constant(1)) {
                            None => None,
                            Some(c) => pairs_from(u, x, y, c),
                        },
                    }
                },
                Some((Some(b), w)) => {
                    proof {
                        lemma_aligned_shrinks(v, Shape::Pairs(x, y));
                    }
                    match b.word {
                        Some(word) => match linear_scaled(b.count, word.len() as int / 2) {
                            None => None,
                            Some(t) => match linear_sum(count, t) {
                                None => None,
                                Some(c) => pairs_from(w, x, y, c),
                            },
                        },
                        None => match pop_two(w) {
                            None => None,
                            Some(u) => {
                                proof {
                                    lemma_pop_two_no_growth(w);
                                    lemma_shrinks_trans(u, w, v);
                                }
                                match linear_sum(count, constant(1)) {
                                    None => None,
                                    Some(c) => pairs_from(u, x, y, c),
                                }
                            },
                        },
                    }
                },
            },
        }
    }
}

impl Stack {
    /// Takes as many copies of `pair` off the front as it starts with, whole blocks of
    /// them at a time where it can, and counts them (see `pairs_from`).
    pub fn pairs(&mut self, pair: [u32; 2]) -> (r: Option<Linear>)
        requires
            pair[1] != 0,
        ensures
            match pairs_from(stack_view(old(self)), pair[0], pair[1], constant(0)) {
                None => r is None,
                Some((c, v)) => r == Some(c) && stack_view(final(self)) == v,
            },
            r is Some ==> matches_spec(stack_view(final(self)), pair@) == Some(false),
    {
        let mut count = num(0);
        let ghost goal = pairs_from(stack_view(self), pair[0], pair[1], count);
        proof {
            assert(pair@ =~= seq![pair[0], pair[1]]);
        }
        loop
            invariant
                pair[1] != 0,
                pair@ == seq![pair[0], pair[1]],
                goal == pairs_from(stack_view(old(self)), pair[0], pair[1], constant(0)),
                goal == pairs_from(stack_view(self), pair[0], pair[1], count),
            ensures
                matches_spec(stack_view(self), pair@) == Some(false),
                goal == Some((count, stack_view(self))),
            decreases powers_weight(stack_view(self).powers), stack_view(self).finite.len(),
        {
            let ghost v = stack_view(self);
            match self.matches(&pair) {
                None => return None,
                Some(false) => break,
                Some(true) => {},
            }
            let taken = match self.aligned(&Shape::Pairs(pair[0], pair[1])) {
                None => return None,
                Some(t) => t,
            };
            let mut whole = false;
            if let Some(b) = taken {
                proof {
                    lemma_aligned_shrinks(v, Shape::Pairs(pair[0], pair[1]));
                    assert(block_view(&b).word is Some);
                }
                match b.word {
                    Word::Digits(word) => {
                        let times = match b.count.mul((word.len() / 2) as i128) {
                            Some(t) => t,
                            None => return None,
                        };
                        count = match count.add(times) {
                            Some(c) => c,
                            None => return None,
                        };
                        whole = true;
                    },
                    Word::Suffix => {},
                }
                if !whole {
                    let ghost v1 = stack_view(self);
                    if self.pop().is_none() {
                        return None;
                    }
                    proof {
                        lemma_pop_shrinks(v1);
                    }
                    let ghost v2 = stack_view(self);
                    if self.pop().is_none() {
                        return None;
                    }
                    proof {
                        lemma_pop_shrinks(v2);
                    }
                    count = match count.add(num(1)) {
                        Some(c) => c,
                        None => return None,
                    };
                }
            } else {
                proof {
                    reveal_with_fuel(matches_spec, 3);
                    assert(pair@.drop_first() =~= seq![pair[1]]);
                    assert(seq![pair[1]].drop_first() =~= Seq::<u32>::empty());
                    assert(pair@[0] == pair[0] && pair@[1] == pair[1]);
                    lemma_pop_shrinks(v);
                    let w = pop_spec(v).unwrap().1;
                    assert(pop_spec(w) is Some);
                    lemma_pop_shrinks(w);
                    let u = pop_spec(w).unwrap().1;
                    assert(pop_spec(w).unwrap().0 == pair[1]);
                    assert(shrinks(u, v));
                }
                if self.pop().is_none() {
                    return None;
                }
                if self.pop().is_none() {
                    return None;
                }
                count = match count.add(num(1)) {
                    Some(c) => c,
                    None => return None,
                };
            }
        }
        Some(count)
    }
}

/// A run: a digit (`None` for the suffix marker) with a count.
pub type Run = (Option<u32>, Linear);

/// Appends a run, adding to the last run when the digit repeats; zero counts are dropped.
/// `None` where the sum overflows.
pub open spec fn pushed_run(out: Seq<Run>, digit: Option<u32>, count: Linear) -> Option<Seq<Run>> {
    if count == constant(0) {
        Some(out)
    } else if out.len() > 0 && out.last().0 == digit {
        let c = out.last().1;
        if fits(c.a + count.a) && fits(c.b + count.b) {
            Some(out.drop_last().push((digit, Linear { a: (c.a + count.a) as i128, b: (c.b + count.b) as i128 })))
        } else {
            None
        }
    } else {
        Some(out.push((digit, count)))
    }
}

/// Appends a run (see `pushed_run`).
pub fn push_run(out: &mut Vec<Run>, digit: Option<u32>, count: Linear) -> (r: Option<()>)
    ensures
        match pushed_run(old(out)@, digit, count) {
            None => r is None,
            Some(o) => r is Some && final(out)@ == o,
        },
{
    if count == num(0) {
        return Some(());
    }
    if out.len() > 0 {
        let last = out[out.len() - 1];
        if last.0 == digit {
            let sum = match last.1.add(count) {
                Some(c) => c,
                None => return None,
            };
            out.pop();
            out.push((digit, sum));
            return Some(());
        }
    }
    out.push((digit, count));
    Some(())
}

/// Reads digits two at a time into runs `(d, 1)`: each pair must end in `1`.  Returns the
/// digit left pending and the runs, `Some(None)` where a pair does not end in `1`, `None`
/// where a count overflows.
pub open spec fn eaten(word: Seq<u32>, pending: Option<u32>, out: Seq<Run>) -> Option<Option<(Option<u32>, Seq<Run>)>>
    decreases word.len(),
{
    if word.len() == 0 {
        Some(Some((pending, out)))
    } else {
        match pending {
            Some(first) => if word[0] != 1 {
                Some(None)
            } else {
                match pushed_run(out, Some(first), constant(1)) {
                    None => None,
                    Some(o) => eaten(word.drop_first(), None, o),
                }
            },
            None => eaten(word.drop_first(), Some(word[0]), out),
        }
    }
}

/// `eaten` applied `times` times.
pub open spec fn eaten_times(word: Seq<u32>, times: nat, pending: Option<u32>, out: Seq<Run>) -> Option<Option<(Option<u32>, Seq<Run>)>>
    decreases times,
{
    if times == 0 {
        Some(Some((pending, out)))
    } else {
        match eaten(word, pending, out) {
            None => None,
            Some(None) => Some(None),
            Some(Some((p, o))) => eaten_times(word, (times - 1) as nat, p, o),
        }
    }
}

fn eat(word: &[u32], pending: &mut Option<u32>, out: &mut Vec<Run>) -> (r: Option<bool>)
    ensures
        match eaten(word@, *old(pending), old(out)@) {
            None => r is None,
            Some(None) => r == Some(false),
            Some(Some((p, o))) => r == Some(true) && *final(pending) == p && final(out)@ == o,
        },
{
    let mut i: usize = 0;
    proof {
        assert(word@.skip(0) =~= word@);
    }
    while i < word.len()
        invariant
            i <= word.len(),
            eaten(word@, *old(pending), old(out)@) == eaten(word@.skip(i as int), *pending, out@),
        decreases word.len() - i,
    {
        proof {
            assert(word@.skip(i as int).drop_first() =~= word@.skip(i + 1));
            assert(word@.skip(i as int)[0] == word@[i as int]);
        }
        let digit = word[i];
        match *pending {
            Some(first) => {
                if digit != 1 {
                    return Some(false);
                }
                *pending = None;
                if push_run(out, Some(first), num(1)).is_none() {
                    return None;
                }
            },
            None => {
                *pending = Some(digit);
            },
        }
        i = i + 1;
    }
    Some(true)
}

/// Reading one block into runs, with the digit left pending: `Some(Some(..))` to go on,
/// `Some(None)` when the tape does not read as runs, `None` where it fails.
pub open spec fn run_step(part: BlockView, pending: Option<u32>, out: Seq<Run>) -> Option<Option<(Option<u32>, Seq<Run>)>> {
    let count = part.count;
    match part.word {
        None => if pending is Some || count != constant(1) {
            Some(None)
        } else {
            match pushed_run(out, None, constant(1)) {
                None => None,
                Some(o) => Some(Some((pending, o))),
            }
        },
        Some(word) => if count == constant(1) {
            eaten(word, pending, out)
        } else if pending is None && word.len() == 2 && word[1] == 1 {
            match pushed_run(out, Some(word[0]), count) {
                None => None,
                Some(o) => Some(Some((pending, o))),
            }
        } else if word == seq![1u32] {
            match (if pending is Some {
                eaten(seq![1u32], pending, out)
            } else {
                Some(Some((pending, out)))
            }) {
                None => None,
                Some(None) => Some(None),
                Some(Some((p1, o1))) => if pending is Some && !fits(count.b - 1) {
                    None
                } else {
                    let c1 = if pending is Some {
                        Linear { a: count.a, b: (count.b - 1) as i128 }
                    } else {
                        count
                    };
                    if !(decides(c1, 0) && margin_fits(c1, 0) && at_least(c1, 0) && c1.a % 2 == 0) {
                        None
                    } else {
                        let q = Linear { a: (c1.a / 2) as i128, b: (c1.b / 2) as i128 };
                        match pushed_run(o1, Some(1), q) {
                            None => None,
                            Some(o2) => {
                                let rem = Linear { a: (c1.a - 2 * q.a) as i128, b: (c1.b - 2 * q.b) as i128 };
                                Some(Some((if rem != constant(0) { Some(1u32) } else { p1 }, o2)))
                            },
                        }
                    }
                },
            }
        } else if count.a == 0 && !fits(word.len() * count.b) {
            None
        } else if count.a == 0 && word.len() * count.b <= 4096 {
            eaten_times(word, if count.b > 0 { count.b as nat } else { 0 }, pending, out)
        } else {
            Some(None)
        },
    }
}

/// The runs read from blocks: `Some(Some(runs))` when the tape reads as runs of pairs
/// `(d, 1)` and suffix markers, `Some(None)` when it does not, `None` where it
/// fails.
pub open spec fn runs_from(parts: Seq<BlockView>, pending: Option<u32>, out: Seq<Run>) -> Option<Option<Seq<Run>>>
    decreases parts.len(),
{
    if parts.len() == 0 {
        Some(
            if pending is None {
                Some(out)
            } else {
                None
            },
        )
    } else {
        match run_step(parts[0], pending, out) {
            None => None,
            Some(None) => Some(None),
            Some(Some((p, o))) => runs_from(parts.drop_first(), p, o),
        }
    }
}

/// The runs of a tape after its leading zero (see `runs_from`).
pub open spec fn runs_spec(v: StackView) -> Option<Option<Seq<Run>>> {
    match pop_spec(v) {
        None => None,
        Some((d, w)) => if d != 0 {
            Some(None)
        } else {
            runs_from(seq![digits_block(w.finite, constant(1))] + w.powers, None, seq![])
        },
    }
}

fn read_block(part: &Block, pending: &mut Option<u32>, out: &mut Vec<Run>) -> (r: Option<bool>)
    ensures
        match run_step(block_view(part), *old(pending), old(out)@) {
            None => r is None,
            Some(None) => r == Some(false),
            Some(Some((p, o))) => r == Some(true) && *final(pending) == p && final(out)@ == o,
        },
{
    let mut count = part.count;
    match &part.word {
        Word::Suffix => {
            if pending.is_some() || count != num(1) {
                return Some(false);
            }
            if push_run(out, None, num(1)).is_none() {
                return None;
            }
            Some(true)
        },
        Word::Digits(word) => {
            if count == num(1) {
                return eat(word.as_slice(), pending, out);
            }
            if pending.is_none() && word.len() == 2 && word[1] == 1 {
                if push_run(out, Some(word[0]), count).is_none() {
                    return None;
                }
                return Some(true);
            }
            if word.len() == 1 && word[0] == 1 {
                proof {
                    assert(word@ =~= seq![1u32]);
                }
                if pending.is_some() {
                    let one: [u32; 1] = [1];
                    proof {
                        assert(one@ =~= seq![1u32]);
                    }
                    match eat(&one, pending, out) {
                        None => return None,
                        Some(false) => return Some(false),
                        Some(true) => {},
                    }
                    count = match count.sub(num(1)) {
                        Some(c) => c,
                        None => return None,
                    };
                }
                let q = match count.try_div(2) {
                    Some(q) => q,
                    None => return None,
                };
                if push_run(out, Some(1), q).is_none() {
                    return None;
                }
                let twice = q.mul(2).unwrap();
                if count.sub(twice).unwrap() != num(0) {
                    *pending = Some(1);
                }
                return Some(true);
            }
            proof {
                if word@ == seq![1u32] {
                    assert(word@.len() == 1 && word@[0] == 1);
                }
            }
            if count.a != 0 {
                return Some(false);
            }
            let size = match (word.len() as i128).checked_mul(count.b) {
                Some(x) => x,
                None => return None,
            };
            if size > 4096 {
                return Some(false);
            }
            let times = count.integer();
            let ghost total: nat = if count.b > 0 {
                count.b as nat
            } else {
                0
            };
            let ghost goal = eaten_times(word@, total, *pending, out@);
            let mut t: i128 = 0;
            while t < times
                invariant
                    0 <= t,
                    times == count.b,
                    t <= times || times <= 0,
                    times <= 0 ==> t == 0,
                    total == (if count.b > 0 { count.b as nat } else { 0 }),
                    goal == eaten_times(word@, (total - t) as nat, *pending, out@),
                    goal == eaten_times(word@, total, *old(pending), old(out)@),
                    run_step(block_view(part), *old(pending), old(out)@) == goal,
                decreases times - t,
            {
                match eat(word.as_slice(), pending, out) {
                    None => return None,
                    Some(false) => return Some(false),
                    Some(true) => {},
                }
                t = t + 1;
            }
            proof {
                assert((total - t) as nat == 0);
                assert(eaten_times(word@, 0, *pending, out@) == Some(Some((*pending, out@))));
            }
            Some(true)
        },
    }
}

impl Stack {
    /// Reads the tape after its leading zero as runs (see `runs_spec`).
    pub fn runs(&self) -> (r: Option<Option<Vec<Run>>>)
        ensures
            match runs_spec(stack_view(self)) {
                None => r is None,
                Some(None) => r == Some(None::<Vec<Run>>),
                Some(Some(o)) => r matches Some(Some(x)) && x@ == o,
            },
    {
        let mut probe = self.duplicate();
        let first = match probe.pop() {
            Some(d) => d,
            None => return None,
        };
        if first != 0 {
            return Some(None);
        }
        let parts = probe.blocks();
        let ghost pv = parts@.map_values(|b: Block| block_view(&b));
        let mut out: Vec<Run> = Vec::new();
        let mut pending: Option<u32> = None;
        let mut i: usize = 0;
        proof {
            assert(pv.skip(0) =~= pv);
        }
        while i < parts.len()
            invariant
                i <= parts@.len(),
                pv == parts@.map_values(|b: Block| block_view(&b)),
                runs_spec(stack_view(self)) == runs_from(pv.skip(i as int), pending, out@),
            decreases parts@.len() - i,
        {
            proof {
                assert(pv.skip(i as int).drop_first() =~= pv.skip(i + 1));
                assert(pv.skip(i as int)[0] == block_view(&parts@[i as int]));
            }
            match read_block(&parts[i], &mut pending, &mut out) {
                None => return None,
                Some(false) => return Some(None),
                Some(true) => {},
            }
            i = i + 1;
        }
        if pending.is_none() {
            Some(Some(out))
        } else {
            Some(None)
        }
    }
}

/// Walking an odd-length word digit by digit: at phase one the digit must be `1`.
pub open spec fn walk_odd(word: Seq<u32>, phase: nat) -> Option<nat>
    decreases word.len(),
{
    if word.len() == 0 {
        Some(phase)
    } else if phase == 1 && word[0] != 1 {
        None
    } else {
        walk_odd(word.drop_first(), (1 - phase) as nat)
    }
}

/// Every second digit from `start` on is `1`.
pub open spec fn strided_ones(word: Seq<u32>, start: nat) -> bool {
    forall|i: int| start <= i < word.len() && (i - start) % 2 == 0 ==> #[trigger] word[i] == 1
}

/// One block of the pairing check at the given phase: `Some(Some(phase))` to go on,
/// `Some(None)` when the tape is not paired, `None` where it fails.
pub open spec fn paired_step(part: BlockView, phase: nat) -> Option<Option<nat>> {
    match part.word {
        None => if phase != 0 || part.count != constant(1) {
            Some(None)
        } else {
            Some(Some(phase))
        },
        Some(word) => if word.len() % 2 == 1 && part.count != constant(1) {
            if !(forall|i: int| 0 <= i < word.len() ==> #[trigger] word[i] == 1) {
                Some(None)
            } else {
                let c = part.count;
                let n = word.len() as int;
                if !(fits(c.a * n) && fits(c.b * n)) {
                    None
                } else {
                    let size = Linear { a: (c.a * n) as i128, b: (c.b * n) as i128 };
                    if !(decides(size, 0) && margin_fits(size, 0) && at_least(size, 0) && size.a % 2 == 0) {
                        None
                    } else {
                        let rest = size.b - 2 * (size.b / 2);
                        Some(Some(((phase + rest) % 2) as nat))
                    }
                }
            }
        } else if word.len() % 2 == 1 {
            Some(walk_odd(word, phase))
        } else if !strided_ones(word, (1 - phase) as nat) {
            Some(None)
        } else {
            Some(Some(phase))
        },
    }
}

/// The pairing check over blocks from a phase.
pub open spec fn paired_from(parts: Seq<BlockView>, phase: nat) -> Option<bool>
    decreases parts.len(),
{
    if parts.len() == 0 {
        Some(phase == 0)
    } else {
        match paired_step(parts[0], phase) {
            None => None,
            Some(None) => Some(false),
            Some(Some(p)) => paired_from(parts.drop_first(), p),
        }
    }
}

/// Whether the tape reads as pairs ending in `1` (suffix markers only between pairs).
pub open spec fn paired_spec(v: StackView) -> Option<bool> {
    paired_from(seq![digits_block(v.finite, constant(1))] + v.powers, 0)
}

fn pair_block(part: &Block, phase: usize) -> (r: Option<Option<usize>>)
    requires
        phase <= 1,
    ensures
        match paired_step(block_view(part), phase as nat) {
            None => r is None,
            Some(None) => r == Some(None::<usize>),
            Some(Some(p)) => r matches Some(Some(x)) && x == p && x <= 1,
        },
{
    let word = match &part.word {
        Word::Suffix => {
            if phase != 0 || part.count != num(1) {
                return Some(None);
            }
            return Some(Some(phase));
        },
        Word::Digits(w) => w,
    };
    if word.len() % 2 == 1 && part.count != num(1) {
        let mut i: usize = 0;
        while i < word.len()
            invariant
                i <= word@.len(),
                forall|j: int| 0 <= j < i ==> #[trigger] word@[j] == 1,
                block_view(part).word == Some(word@),
                word@.len() % 2 == 1,
                part.count != constant(1),
            decreases word@.len() - i,
        {
            if word[i] != 1 {
                proof {
                    assert(word@[i as int] != 1);
                }
                return Some(None);
            }
            i = i + 1;
        }
        let size = match part.count.mul(word.len() as i128) {
            Some(x) => x,
            None => return None,
        };
        let q = match size.try_div(2) {
            Some(q) => q,
            None => return None,
        };
        let twice = q.mul(2).unwrap();
        let rest = size.sub(twice).unwrap();
        let rest = rest.integer();
        proof {
            assert(0 <= rest <= 1);
        }
        return Some(Some((phase + rest as usize) % 2));
    }
    if word.len() % 2 == 1 {
        let mut p = phase;
        let mut i: usize = 0;
        proof {
            assert(word@.skip(0) =~= word@);
        }
        while i < word.len()
            invariant
                i <= word@.len(),
                p <= 1,
                walk_odd(word@, phase as nat) == walk_odd(word@.skip(i as int), p as nat),
                block_view(part).word == Some(word@),
                word@.len() % 2 == 1,
                part.count == constant(1),
            decreases word@.len() - i,
        {
            proof {
                assert(word@.skip(i as int).drop_first() =~= word@.skip(i + 1));
                assert(word@.skip(i as int)[0] == word@[i as int]);
            }
            if p == 1 && word[i] != 1 {
                return Some(None);
            }
            p = 1 - p;
            i = i + 1;
        }
        return Some(Some(p));
    }
    let start: usize = 1 - phase;
    let mut i: usize = 0;
    while i < word.len()
        invariant
            start == 1 - phase,
            phase <= 1,
            i <= word@.len(),
            block_view(part).word == Some(word@),
            word@.len() % 2 == 0,
            forall|j: int| start <= j < i && (j - start) % 2 == 0 ==> #[trigger] word@[j] == 1,
        decreases word@.len() - i,
    {
        if i >= start && (i - start) % 2 == 0 && word[i] != 1 {
            proof {
                assert(word@[i as int] != 1);
                assert(!strided_ones(word@, (1 - phase) as nat));
            }
            return Some(None);
        }
        i = i + 1;
    }
    proof {
        assert(strided_ones(word@, (1 - phase) as nat));
    }
    Some(Some(phase))
}

impl Stack {
    /// Whether the tape reads as pairs ending in `1` (see `paired_spec`).
    pub fn paired(&self) -> (r: Option<bool>)
        ensures
            r == paired_spec(stack_view(self)),
    {
        let parts = self.blocks();
        let ghost pv = parts@.map_values(|b: Block| block_view(&b));
        let mut phase: usize = 0;
        let mut i: usize = 0;
        proof {
            assert(pv.skip(0) =~= pv);
        }
        while i < parts.len()
            invariant
                i <= parts@.len(),
                phase <= 1,
                pv == parts@.map_values(|b: Block| block_view(&b)),
                paired_spec(stack_view(self)) == paired_from(pv.skip(i as int), phase as nat),
            decreases parts@.len() - i,
        {
            proof {
                assert(pv.skip(i as int).drop_first() =~= pv.skip(i + 1));
                assert(pv.skip(i as int)[0] == block_view(&parts@[i as int]));
            }
            match pair_block(&parts[i], phase) {
                None => return None,
                Some(None) => return Some(false),
                Some(Some(p)) => {
                    phase = p;
                },
            }
            i = i + 1;
        }
        Some(phase == 0)
    }
}

/// The blocks of a run: `(d, 1)` repeated, or the suffix marker.
pub open spec fn run_block(run: Run) -> BlockView {
    match run.0 {
        Some(d) => digits_block(seq![d, 1u32], run.1),
        None => BlockView { word: None, count: run.1 },
    }
}

/// The stack a list of runs stands for, after a leading zero.
pub open spec fn boundary_spec(runs: Seq<Run>) -> Option<StackView> {
    prepend_spec(
        StackView { finite: seq![], powers: seq![] },
        seq![digits_block(seq![0u32], constant(1))] + runs.map_values(|r: Run| run_block(r)),
    )
}

/// The stack of a zero followed by the runs (see `boundary_spec`).
pub fn boundary(runs: Vec<Run>) -> (r: Option<Stack>)
    ensures
        match boundary_spec(runs@) {
            None => r is None,
            Some(v) => r matches Some(s) && stack_view(&s) == v,
        },
{
    let mut parts: Vec<Block> = Vec::new();
    let zero: [u32; 1] = [0];
    parts.push(block(&zero, num(1)));
    proof {
        assert(zero@ =~= seq![0u32]);
    }
    let mut i: usize = 0;
    while i < runs.len()
        invariant
            i <= runs@.len(),
            parts@.map_values(|b: Block| block_view(&b)) == seq![digits_block(seq![0u32], constant(1))]
                + runs@.take(i as int).map_values(|r: Run| run_block(r)),
        decreases runs@.len() - i,
    {
        let (d, count) = runs[i];
        let part = match d {
            Some(d) => {
                let pair: [u32; 2] = [d, 1];
                proof {
                    assert(pair@ =~= seq![d, 1u32]);
                }
                block(&pair, count)
            },
            None => Block { word: Word::Suffix, count },
        };
        proof {
            assert(runs@[i as int] == (d, count));
            assert(block_view(&part) == run_block(runs@[i as int]));
        }
        let ghost before = parts@;
        parts.push(part);
        proof {
            assert(runs@.take(i + 1) =~= runs@.take(i as int).push(runs@[i as int]));
            assert(parts@.map_values(|b: Block| block_view(&b)) =~= before.map_values(|b: Block| block_view(&b)).push(run_block(runs@[i as int])));
            assert(parts@.map_values(|b: Block| block_view(&b)) =~= seq![digits_block(seq![0u32], constant(1))]
                + runs@.take(i + 1).map_values(|r: Run| run_block(r)));
        }
        i = i + 1;
    }
    proof {
        assert(runs@.take(runs@.len() as int) =~= runs@);
    }
    let mut stack = Stack::new();
    proof {
        assert(stack_view(&stack) == StackView { finite: seq![], powers: seq![] });
    }
    match stack.prepend(parts) {
        None => None,
        Some(()) => Some(stack),
    }
}

/// Whether every digit is zero.
fn all_zero_digits(w: &Vec<u32>) -> (r: bool)
    ensures
        r == all_zero(w@),
{
    let mut t: usize = 0;
    while t < w.len()
        invariant
            t <= w@.len(),
            all_zero(w@.take(t as int)),
        decreases w@.len() - t,
    {
        if w[t] != 0 {
            proof {
                assert(w@[t as int] != 0);
            }
            return false;
        }
        proof {
            assert forall|k: int| 0 <= k < t + 1 implies #[trigger] w@.take(t + 1)[k] == 0 by {
                if k < t {
                    assert(w@.take(t as int)[k] == 0);
                }
            }
        }
        t = t + 1;
    }
    proof {
        assert(w@.take(w@.len() as int) =~= w@);
    }
    true
}

/// Whether a word is digits, all fours.
pub open spec fn fours_word(w: Option<Seq<u32>>) -> bool {
    match w {
        Some(d) => forall|i: int| 0 <= i < d.len() ==> #[trigger] d[i] == 4,
        None => false,
    }
}

/// Whether a word is digits, all fours.
pub fn all_fours(w: &Word) -> (r: bool)
    ensures
        r == fours_word(word_view(w)),
{
    match w {
        Word::Digits(d) => {
            let mut i: usize = 0;
            while i < d.len()
                invariant
                    i <= d@.len(),
                    word_view(w) == Some(d@),
                    forall|j: int| 0 <= j < i ==> #[trigger] d@[j] == 4,
                decreases d@.len() - i,
            {
                if d[i] != 4 {
                    proof {
                        let dd = word_view(w).unwrap();
                        assert(dd[i as int] != 4);
                        assert(!fours_word(word_view(w)));
                    }
                    return false;
                }
                i = i + 1;
            }
            true
        },
        Word::Suffix => false,
    }
}


} // verus!
