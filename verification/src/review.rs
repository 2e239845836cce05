//! The large-file review: what each key does to the list of files queued for
//! review, and what the review decides.
use vstd::prelude::*;

verus! {

broadcast use vstd::seq::group_seq_axioms;

/// What the review decided about the queued large files.
#[derive(Debug, Clone)]
pub enum ReviewOutcome {
    SkipAll,
    KeepAll,
    /// Indices into the original queue that should be kept.
    KeepSelected(Vec<usize>),
}

/// A key press, as far as the review tells keys apart.
#[derive(Debug, Copy, Clone, PartialEq, Eq, Structural)]
pub enum ReviewKey {
    Char(char),
    Up,
    Down,
    PageUp,
    PageDown,
    Home,
    End,
    Enter,
    Esc,
    Other,
}

/// The indices of the `true` flags, in increasing order.
pub open spec fn flagged(keep: Seq<bool>) -> Seq<usize>
    decreases keep.len(),
{
    if keep.len() == 0 {
        Seq::empty()
    } else if keep.last() {
        flagged(keep.drop_last()).push((keep.len() - 1) as usize)
    } else {
        flagged(keep.drop_last())
    }
}

/// `o` is the outcome of confirming with these flags: keep all when every
/// file is flagged, skip all when none is, else keep the flagged ones.
pub open spec fn is_confirm_outcome(o: ReviewOutcome, keep: Seq<bool>) -> bool {
    let kept = flagged(keep);
    if kept.len() == keep.len() {
        o is KeepAll
    } else if kept.len() == 0 {
        o is SkipAll
    } else {
        o matches ReviewOutcome::KeepSelected(v) && v@ == kept
    }
}

/// Where the selection lands after moving it by `delta` in a list of `len`
/// entries: clamped to the list.
pub open spec fn moved(selected: Option<usize>, len: nat, delta: int) -> Option<usize> {
    if len == 0 {
        selected
    } else {
        let cur = match selected {
            Some(i) => i as int,
            None => 0,
        };
        let next = cur + delta as i64;
        Some(
            if next < 0 {
                0usize
            } else if next > len - 1 {
                (len - 1) as usize
            } else {
                next as usize
            },
        )
    }
}


/// The review of a queue of `n` large files: which are kept and which entry
/// the cursor is on.
pub struct ReviewState {
    keep: Vec<bool>,
    selected: Option<usize>,
}

/// What a key press leads to.
pub enum ReviewStep {
    /// The review goes on.
    Continue,
    /// The review is over with this outcome.
    Finish(ReviewOutcome),
}

proof fn lemma_flagged_bounds(keep: Seq<bool>)
    ensures
        flagged(keep).len() <= keep.len(),
        forall|i: int| 0 <= i < flagged(keep).len() ==> #[trigger] flagged(keep)[i] < keep.len(),
    decreases keep.len(),
{
    if keep.len() > 0 {
        lemma_flagged_bounds(keep.drop_last());
    }
}

impl ReviewState {
    pub closed spec fn keep(&self) -> Seq<bool> {
        self.keep@
    }

    pub closed spec fn selected(&self) -> Option<usize> {
        self.selected
    }

    /// Every file starts kept, with the cursor on the first one.
    pub fn new(n: usize) -> (r: ReviewState)
        ensures
            r.keep() == Seq::new(n as nat, |i: int| true),
            r.selected() == Some(0usize),
    {
        let mut keep: Vec<bool> = Vec::new();
        let mut i: usize = 0;
        while i < n
            invariant
                i <= n,
                keep@ == Seq::new(i as nat, |j: int| true),
            decreases n - i,
        {
            keep.push(true);
            assert(keep@ =~= Seq::new((i + 1) as nat, |j: int| true));
            i = i + 1;
        }
        ReviewState { keep, selected: Some(0) }
    }

    pub fn kept_flags(&self) -> (r: &Vec<bool>)
        ensures
            r@ == self.keep(),
    {
        &self.keep
    }

    pub fn selection(&self) -> (r: Option<usize>)
        ensures
            r == self.selected(),
    {
        self.selected
    }

    fn move_by(&mut self, delta: i32)
        requires
            -10 <= delta <= 10,
            old(self).keep().len() <= i32::MAX - 10,
            old(self).selected() matches Some(i) ==> i < old(self).keep().len(),
        ensures
            final(self).keep() == old(self).keep(),
            final(self).selected() == moved(old(self).selected(), old(self).keep().len(), delta as int),
    {
        move_sel(&mut self.selected, self.keep.len(), delta);
    }

    /// The indices of the files flagged to keep, in order.
    fn kept_indices(&self) -> (r: Vec<usize>)
        ensures
            r@ == flagged(self.keep()),
    {
        let mut out: Vec<usize> = Vec::new();
        let mut i: usize = 0;
        while i < self.keep.len()
            invariant
                i <= self.keep@.len(),
                out@ == flagged(self.keep@.take(i as int)),
            decreases self.keep.len() - i,
        {
            assert(self.keep@.take(i + 1).drop_last() =~= self.keep@.take(i as int));
            if self.keep[i] {
                out.push(i);
            }
            i = i + 1;
        }
        assert(self.keep@.take(i as int) =~= self.keep@);
        out
    }

    /// Handles one key press: `q` confirms the flags, `a` keeps all, `s` and
    /// Esc skip all; the arrows, `j`/`k`, page keys, Home and End move the
    /// cursor; space and Enter flip the flag under the cursor.
    pub fn step(&mut self, key: ReviewKey) -> (r: ReviewStep)
        requires
            old(self).keep().len() <= i32::MAX - 10,
            old(self).selected() matches Some(i) ==> i < old(self).keep().len(),
        ensures
            final(self).keep().len() == old(self).keep().len(),
            final(self).keep().len() > 0 ==> (final(self).selected() matches Some(i) ==> i < final(self).keep().len()),
            ({
                let k = old(self).keep();
                let sel = old(self).selected();
                let n = k.len();
                match key {
                    ReviewKey::Char(c) => if c == 'q' || c == 'Q' {
                        r matches ReviewStep::Finish(o) && is_confirm_outcome(o, k)
                    } else if c == 'a' {
                        r matches ReviewStep::Finish(o) && o is KeepAll
                    } else if c == 's' {
                        r matches ReviewStep::Finish(o) && o is SkipAll
                    } else if c == 'k' {
                        r is Continue && final(self).keep() == k && final(self).selected() == moved(sel, n, -1)
                    } else if c == 'j' {
                        r is Continue && final(self).keep() == k && final(self).selected() == moved(sel, n, 1)
                    } else if c == ' ' {
                        r is Continue && final(self).selected() == sel && final(self).keep() == match sel {
                            Some(i) => k.update(i as int, !k[i as int]),
                            None => k,
                        }
                    } else {
                        r is Continue && final(self).keep() == k && final(self).selected() == sel
                    },
                    ReviewKey::Esc => r matches ReviewStep::Finish(o) && o is SkipAll,
                    ReviewKey::Up => r is Continue && final(self).keep() == k && final(self).selected() == moved(sel, n, -1),
                    ReviewKey::Down => r is Continue && final(self).keep() == k && final(self).selected() == moved(sel, n, 1),
                    ReviewKey::PageUp => r is Continue && final(self).keep() == k && final(self).selected() == moved(sel, n, -10),
                    ReviewKey::PageDown => r is Continue && final(self).keep() == k && final(self).selected() == moved(sel, n, 10),
                    ReviewKey::Home => r is Continue && final(self).keep() == k && final(self).selected() == Some(0usize),
                    ReviewKey::End => r is Continue && final(self).keep() == k && final(self).selected() == Some(
                        (if n == 0 { 0 } else { n - 1 }) as usize,
                    ),
                    ReviewKey::Enter => r is Continue && final(self).selected() == sel && final(self).keep() == match sel {
                        Some(i) => k.update(i as int, !k[i as int]),
                        None => k,
                    },
                    ReviewKey::Other => r is Continue && final(self).keep() == k && final(self).selected() == sel,
                }
            }),
    {
        match key {
            ReviewKey::Char(c) => {
                if c == 'q' || c == 'Q' {
                    let kept = self.kept_indices();
                    proof {
                        lemma_flagged_bounds(self.keep@);
                    }
                    if kept.len() == self.keep.len() {
                        ReviewStep::Finish(ReviewOutcome::KeepAll)
                    } else if kept.len() == 0 {
                        ReviewStep::Finish(ReviewOutcome::SkipAll)
                    } else {
                        ReviewStep::Finish(ReviewOutcome::KeepSelected(kept))
                    }
                } else if c == 'a' {
                    ReviewStep::Finish(ReviewOutcome::KeepAll)
                } else if c == 's' {
                    ReviewStep::Finish(ReviewOutcome::SkipAll)
                } else if c == 'k' {
                    self.move_by(-1);
                    ReviewStep::Continue
                } else if c == 'j' {
                    self.move_by(1);
                    ReviewStep::Continue
                } else if c == ' ' {
                    self.toggle();
                    ReviewStep::Continue
                } else {
                    ReviewStep::Continue
                }
            },
            ReviewKey::Esc => ReviewStep::Finish(ReviewOutcome::SkipAll),
            ReviewKey::Up => {
                self.move_by(-1);
                ReviewStep::Continue
            },
            ReviewKey::Down => {
                self.move_by(1);
                ReviewStep::Continue
            },
            ReviewKey::PageUp => {
                self.move_by(-10);
                ReviewStep::Continue
            },
            ReviewKey::PageDown => {
                self.move_by(10);
                ReviewStep::Continue
            },
            ReviewKey::Home => {
                self.selected = Some(0);
                ReviewStep::Continue
            },
            ReviewKey::End => {
                self.selected = Some(self.keep.len().saturating_sub(1));
                ReviewStep::Continue
            },
            ReviewKey::Enter => {
                self.toggle();
                ReviewStep::Continue
            },
            ReviewKey::Other => ReviewStep::Continue,
        }
    }

    fn toggle(&mut self)
        requires
            old(self).selected() matches Some(i) ==> i < old(self).keep().len(),
        ensures
            final(self).selected() == old(self).selected(),
            final(self).keep() == match old(self).selected() {
                Some(i) => old(self).keep().update(i as int, !old(self).keep()[i as int]),
                None => old(self).keep(),
            },
    {
        if let Some(i) = self.selected {
            let v = self.keep[i];
            self.keep.set(i, !v);
        }
    }
}

/// Moves a list selection by `delta`, clamped to a list of `len` entries; an
/// empty list leaves it alone.
pub fn move_sel(selected: &mut Option<usize>, len: usize, delta: i32)
    requires
        len <= i32::MAX,
        *old(selected) matches Some(i) ==> i <= i32::MAX,
        i32::MIN <= (match *old(selected) {
            Some(i) => i as int,
            None => 0,
        }) + delta <= i32::MAX,
    ensures
        *final(selected) == moved(*old(selected), len as nat, delta as int),
{
    if len == 0 {
        return;
    }
    let cur: i64 = match *selected {
        Some(i) => i as i64,
        None => 0,
    };
    let next = cur + delta as i64;
    let top = len as i64 - 1;
    let v: usize = if next < 0 {
        0
    } else if next > top {
        top as usize
    } else {
        next as usize
    };
    *selected = Some(v);
}

/// The review of an empty queue skips everything at once.
pub fn review_empty_queue() -> (r: ReviewOutcome)
    ensures
        r is SkipAll,
{
    ReviewOutcome::SkipAll
}

/// Flipping the flag under the cursor twice restores every flag.
pub proof fn lemma_toggle_twice(keep: Seq<bool>, i: int)
    requires
        0 <= i < keep.len(),
    ensures
        keep.update(i, !keep[i]).update(i, !keep.update(i, !keep[i])[i]) == keep,
{
    assert(keep.update(i, !keep[i]).update(i, !keep.update(i, !keep[i])[i]) =~= keep);
}

/// Moving the selection never takes it off a nonempty list.
pub proof fn lemma_moved_in_range(selected: Option<usize>, len: nat, delta: int)
    requires
        len > 0,
        len <= usize::MAX,
    ensures
        moved(selected, len, delta) matches Some(i) && i < len,
{
}

/// Confirming with every file still flagged keeps all files.
pub proof fn lemma_confirm_all_kept(n: nat, o: ReviewOutcome)
    ensures
        is_confirm_outcome(o, Seq::new(n, |i: int| true)) <==> o is KeepAll,
{
    lemma_flagged_all(n);
}

proof fn lemma_flagged_all(n: nat)
    ensures
        flagged(Seq::new(n, |i: int| true)).len() == n,
    decreases n,
{
    if n > 0 {
        lemma_flagged_all((n - 1) as nat);
        assert(Seq::new(n, |i: int| true).drop_last() =~= Seq::new((n - 1) as nat, |i: int| true));
    }
}

proof fn lemma_flagged_increasing(keep: Seq<bool>)
    requires
        keep.len() <= usize::MAX,
    ensures
        forall|i: int, j: int|
            0 <= i < j < flagged(keep).len() ==> #[trigger] flagged(keep)[i] < #[trigger] flagged(keep)[j],
        forall|i: int| 0 <= i < flagged(keep).len() ==> #[trigger] flagged(keep)[i] < keep.len(),
    decreases keep.len(),
{
    lemma_flagged_bounds(keep);
    if keep.len() > 0 {
        let prev = keep.drop_last();
        lemma_flagged_increasing(prev);
        lemma_flagged_bounds(prev);
        let f = flagged(keep);
        let g = flagged(prev);
        if keep.last() {
            assert(f == g.push((keep.len() - 1) as usize));
            assert forall|i: int, j: int| 0 <= i < j < f.len() implies #[trigger] f[i] < #[trigger] f[j] by {
                if j < g.len() {
                    assert(f[i] == g[i] && f[j] == g[j]);
                } else {
                    assert(f[i] == g[i]);
                    assert(g[i] < prev.len());
                }
            }
        } else {
            assert(f == g);
        }
    }
}

/// The files a confirmed review keeps are positions of the queue, each named
/// once and in increasing order.
pub proof fn lemma_confirm_indices_valid(o: ReviewOutcome, keep: Seq<bool>)
    requires
        keep.len() <= usize::MAX,
        is_confirm_outcome(o, keep),
    ensures
        o matches ReviewOutcome::KeepSelected(v) ==> (forall|i: int|
            0 <= i < v@.len() ==> #[trigger] v@[i] < keep.len()) && (forall|i: int, j: int|
            0 <= i < j < v@.len() ==> #[trigger] v@[i] < #[trigger] v@[j]),
{
    lemma_flagged_increasing(keep);
}

} // verus!
