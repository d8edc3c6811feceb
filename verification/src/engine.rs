//! The selection engine: a shuffled pool of candidate images and the
//! current winner, driven by two judgments (`advance`, `discard`) and one
//! loading operation (`load_folder`).
//!
//! The pool is a stack: only its top element — the challenger — is ever
//! removed, by the one primitive `take_top`, which also seeds the winner
//! right after a load.

use vstd::prelude::*;
use vstd::multiset::Multiset;
use vstd::seq_lib::group_to_multiset_ensures;
use vstd::seq_lib::group_filter_ensures;
use crate::image_ref::ImageRef;
use crate::image_ref::name_qualifies;

verus! {

/// The abstract state of a [`SelectionEngine`]: the candidate pool (its
/// last element on top) and the current winner, if any.
#[verifier::ext_equal]
pub ghost struct EngineView {
    pub pool: Seq<ImageRef>,
    pub winner: Option<ImageRef>,
}

impl EngineView {
    /// Every image the engine still holds: the pool together with the
    /// winner. Order is deliberately forgotten, since loading shuffles.
    pub open spec fn contents(self) -> Multiset<ImageRef> {
        match self.winner {
            Some(w) => self.pool.to_multiset().insert(w),
            None => self.pool.to_multiset(),
        }
    }

    /// The challenger is always the top of the pool; it is not stored.
    pub open spec fn challenger(self) -> Option<ImageRef> {
        if self.pool.len() > 0 {
            Some(self.pool.last())
        } else {
            None
        }
    }

    /// The terminal (and initial) state: nothing left to judge.
    pub open spec fn is_drained(self) -> bool {
        self.pool.len() == 0 && self.winner is None
    }

    /// A winner is absent only once the pool has been drained; a non-empty
    /// pool always has a winner standing opposite it.
    pub open spec fn wf(self) -> bool {
        self.winner is None ==> self.pool.len() == 0
    }
}

/// The state after the challenger beats the winner: the top of the pool is
/// popped into the winner slot. With an empty pool this pops nothing and
/// therefore clears the winner: advancing past the last candidate always
/// ends the round, deliberately, even though a no-op might be expected.
pub open spec fn advance_view(v: EngineView) -> EngineView {
    EngineView {
        pool: if v.pool.len() > 0 {
            v.pool.drop_last()
        } else {
            v.pool
        },
        winner: v.challenger(),
    }
}

/// The state after the challenger is rejected: the top of the pool is
/// dropped and the winner stands unchanged. An empty pool is left as it is.
pub open spec fn discard_view(v: EngineView) -> EngineView {
    EngineView {
        pool: if v.pool.len() > 0 {
            v.pool.drop_last()
        } else {
            v.pool
        },
        winner: v.winner,
    }
}

/// The pool's admission predicate, as a first-class spec function.
pub open spec fn qual_pred() -> spec_fn(ImageRef) -> bool {
    |r: ImageRef| name_qualifies(r@)
}

/// The subsequence of entries whose names pass the extension allow-list,
/// in their original order.
pub open spec fn qualifying(s: Seq<ImageRef>) -> Seq<ImageRef> {
    s.filter(qual_pred())
}

/// Which cached image slots an operation made stale. The renderer must
/// drop its decoded image for each slot marked here.
#[derive(Clone, Copy, PartialEq, Eq, Structural, Debug)]
pub struct Invalidation {
    pub winner: bool,
    pub challenger: bool,
}

/// Relies on rand's `SliceRandom::shuffle` with `rand::thread_rng`: a
/// Fisher-Yates shuffle that permutes the slice in place by swaps, so
/// whatever order comes out, the multiset of elements and the length are
/// unchanged.
#[verifier::external_body]
fn shuffle_pool(pool: &mut Vec<ImageRef>)
    ensures
        final(pool)@.to_multiset() == old(pool)@.to_multiset(),
        final(pool)@.len() == old(pool)@.len(),
{
    rand::seq::SliceRandom::shuffle(pool.as_mut_slice(), &mut rand::thread_rng());
}

/// Keep exactly the entries whose extension stands on the allow-list, in
/// their original order; everything else is dropped.
pub fn retain_allowed(entries: Vec<ImageRef>) -> (kept: Vec<ImageRef>)
    ensures
        kept@ == qualifying(entries@),
{
    let ghost orig = entries@;
    let mut rest = entries;
    let mut kept: Vec<ImageRef> = Vec::new();
    proof {
        assert(orig.subrange(0, 0) =~= Seq::<ImageRef>::empty());
        assert(rest@ =~= orig.subrange(0, orig.len() as int));
        reveal(Seq::filter);
    }
    while rest.len() > 0
        invariant
            rest@.len() <= orig.len(),
            rest@ == orig.subrange(orig.len() - rest@.len(), orig.len() as int),
            kept@ == qualifying(orig.subrange(0, orig.len() - rest@.len())),
        decreases rest@.len(),
    {
        let ghost done = orig.subrange(0, orig.len() - rest@.len());
        let e = rest.remove(0);
        proof {
            let done2 = orig.subrange(0, orig.len() - rest@.len());
            assert(e == orig[done.len() as int]);
            assert(done2 =~= done.push(e));
            assert(done2.drop_last() =~= done);
            reveal(Seq::filter);
            assert(rest@ =~= orig.subrange(orig.len() - rest@.len(), orig.len() as int));
        }
        if e.qualifies() {
            kept.push(e);
        }
    }
    proof {
        assert(orig.subrange(0, orig.len() as int) =~= orig);
    }
    kept
}

/// Every element of a sequence that shares its multiset with a filtered
/// sequence passes the filter.
proof fn lemma_qualifying_elements(base: Seq<ImageRef>, s: Seq<ImageRef>)
    requires
        s.to_multiset() == qualifying(base).to_multiset(),
    ensures
        forall|x: ImageRef| s.contains(x) ==> name_qualifies(x@),
{
    broadcast use group_to_multiset_ensures;
    broadcast use group_filter_ensures;

    assert forall|x: ImageRef| s.contains(x) implies name_qualifies(x@) by {
        assert(s.to_multiset().count(x) > 0);
        assert(qualifying(base).to_multiset().count(x) > 0);
        assert(qualifying(base).contains(x));
        let j = choose|j: int| 0 <= j < qualifying(base).len() && qualifying(base)[j] == x;
        assert(name_qualifies(qualifying(base)[j]@));
    }
}

/// Filtering never introduces a duplicate.
proof fn lemma_qualifying_no_duplicates(s: Seq<ImageRef>)
    requires
        s.no_duplicates(),
    ensures
        qualifying(s).no_duplicates(),
    decreases s.len(),
{
    broadcast use group_filter_ensures;

    reveal(Seq::filter);
    if s.len() > 0 {
        let prefix = s.drop_last();
        assert(prefix.no_duplicates());
        lemma_qualifying_no_duplicates(prefix);
        if name_qualifies(s.last()@) {
            let q = qualifying(s);
            assert(q == qualifying(prefix).push(s.last()));
            assert forall|i: int, j: int| 0 <= i < j < q.len() implies q[i] != q[j] by {
                if j < q.len() - 1 {
                    assert(qualifying(prefix)[i] != qualifying(prefix)[j]);
                } else {
                    assert(qualifying(prefix).contains(q[i]));
                    prefix.lemma_filter_contains_rev(qual_pred(), q[i]);
                    assert(prefix.contains(q[i]));
                    let k = choose|k: int| 0 <= k < prefix.len() && prefix[k] == q[i];
                    assert(s[k] == q[i]);
                    assert(s[k] != s[s.len() - 1]);
                }
            }
        }
    }
}

/// Law: an engine loaded from a listing without duplicate names holds each
/// image at most once, so the winner never also stands in the pool.
pub proof fn lemma_winner_not_in_pool(entries: Seq<ImageRef>, v: EngineView, w: ImageRef)
    requires
        entries.no_duplicates(),
        v.contents() == qualifying(entries).to_multiset(),
        v.winner == Some(w),
    ensures
        !v.pool.contains(w),
{
    broadcast use group_to_multiset_ensures;
    broadcast use vstd::multiset::group_multiset_axioms;

    lemma_qualifying_no_duplicates(entries);
    qualifying(entries).lemma_multiset_has_no_duplicates();
    if v.pool.contains(w) {
        assert(v.pool.to_multiset().count(w) > 0);
        assert(v.contents().count(w) == v.pool.to_multiset().count(w) + 1);
        assert(qualifying(entries).to_multiset().contains(w));
        assert(qualifying(entries).to_multiset().count(w) == 1);
    }
}

/// The state after `n` successive advances.
pub open spec fn advance_n(v: EngineView, n: nat) -> EngineView
    decreases n,
{
    if n == 0 {
        v
    } else {
        advance_n(advance_view(v), (n - 1) as nat)
    }
}

/// Law: when the winner does not also occur in the pool, advancing makes
/// the challenger the new winner, and the previous winner is gone for
/// good: afterward it is neither in the pool nor the winner.
pub proof fn lemma_advance_forgets_winner(v: EngineView, w: ImageRef)
    requires
        v.winner == Some(w),
        !v.pool.contains(w),
    ensures
        advance_view(v).winner == v.challenger(),
        advance_view(v).winner != Some(w),
        !advance_view(v).pool.contains(w),
{
    if v.pool.len() > 0 {
        assert(v.pool.contains(v.pool.last()));
        assert forall|i: int|
            0 <= i < advance_view(v).pool.len() implies advance_view(v).pool[i] != w by {
            assert(advance_view(v).pool[i] == v.pool[i]);
            assert(v.pool.contains(v.pool[i]));
        }
    }
}

/// Law: a discard never touches the winner; it shrinks the pool by exactly
/// one element, or leaves an already empty pool empty.
pub proof fn lemma_discard_conservation(v: EngineView)
    ensures
        discard_view(v).winner == v.winner,
        v.pool.len() > 0 ==> discard_view(v).pool.len() == v.pool.len() - 1,
        v.pool.len() == 0 ==> discard_view(v).pool == v.pool,
{
}

/// Law: advancing once per pool element and then once more always drains
/// the engine, whatever state it started in: the pool is empty and the
/// winner slot is cleared.
pub proof fn lemma_exhaustion(v: EngineView)
    ensures
        advance_n(v, v.pool.len() + 1).is_drained(),
    decreases v.pool.len(),
{
    if v.pool.len() == 0 {
        assert(advance_n(v, 1) == advance_n(advance_view(v), 0));
        assert(advance_view(v).is_drained());
    } else {
        lemma_exhaustion(advance_view(v));
        assert(advance_n(v, v.pool.len() + 1) == advance_n(
            advance_view(v),
            advance_view(v).pool.len() + 1,
        ));
    }
}

/// The candidate pool and the current winner of the running comparison.
pub struct SelectionEngine {
    pool: Vec<ImageRef>,
    winner: Option<ImageRef>,
}

impl View for SelectionEngine {
    type V = EngineView;

    closed spec fn view(&self) -> EngineView {
        EngineView { pool: self.pool@, winner: self.winner }
    }
}

impl SelectionEngine {
    /// A fresh engine with nothing loaded.
    pub fn new() -> (r: SelectionEngine)
        ensures
            r@.is_drained(),
            r@.wf(),
    {
        SelectionEngine { pool: Vec::new(), winner: None }
    }

    /// An engine in an explicitly given state, the last pool element on
    /// top.
    pub fn from_parts(pool: Vec<ImageRef>, winner: Option<ImageRef>) -> (r: SelectionEngine)
        ensures
            r@.pool == pool@,
            r@.winner == winner,
    {
        SelectionEngine { pool, winner }
    }

    /// Remove and return the top of the pool. This one primitive both
    /// seeds the winner after a load and promotes the challenger on
    /// `advance`.
    pub fn take_top(&mut self) -> (top: Option<ImageRef>)
        ensures
            old(self)@.pool.len() > 0 ==> top == Some(old(self)@.pool.last()),
            old(self)@.pool.len() > 0 ==> final(self)@.pool == old(self)@.pool.drop_last(),
            old(self)@.pool.len() == 0 ==> top is None && final(self)@.pool == old(self)@.pool,
            final(self)@.winner == old(self)@.winner,
    {
        self.pool.pop()
    }

    /// The pair the renderer shows: the winner and the challenger.
    pub fn current_pair(&self) -> (r: (Option<&ImageRef>, Option<&ImageRef>))
        ensures
            (match r.0 {
                Some(w) => self@.winner == Some(*w),
                None => self@.winner is None,
            }),
            (match r.1 {
                Some(c) => self@.challenger() == Some(*c),
                None => self@.challenger() is None,
            }),
    {
        let challenger = if self.pool.len() > 0 {
            Some(&self.pool[self.pool.len() - 1])
        } else {
            None
        };
        (self.winner.as_ref(), challenger)
    }

    /// How many candidates are still waiting in the pool.
    pub fn pool_len(&self) -> (n: usize)
        ensures
            n == self@.pool.len(),
    {
        self.pool.len()
    }

    /// Is the engine drained — no winner and nothing left to judge? Only
    /// then does the Enter key stand for a load request.
    pub fn is_drained(&self) -> (r: bool)
        ensures
            r == self@.is_drained(),
    {
        self.pool.is_empty() && self.winner.is_none()
    }

    /// Replace all state from a fresh directory listing: keep exactly the
    /// entries on the allow-list, shuffle them uniformly, and seed the
    /// winner from the top of the shuffled pool. Zero qualifying entries
    /// are no error: the engine is then simply drained.
    pub fn load_folder(&mut self, entries: Vec<ImageRef>)
        ensures
            final(self)@.contents() == qualifying(entries@).to_multiset(),
            final(self)@.wf(),
            final(self)@.winner is Some <==> qualifying(entries@).len() > 0,
            forall|i: int|
                0 <= i < final(self)@.pool.len() ==> name_qualifies(
                    #[trigger] final(self)@.pool[i]@,
                ),
            (final(self)@.winner matches Some(w) ==> name_qualifies(w@)),
    {
        let ghost entry_views = entries@;
        let mut kept = retain_allowed(entries);
        shuffle_pool(&mut kept);
        let ghost shuffled = kept@;
        self.pool = kept;
        self.winner = self.take_top();
        proof {
            broadcast use group_to_multiset_ensures;
            lemma_qualifying_elements(entry_views, shuffled);
            if shuffled.len() > 0 {
                assert(shuffled.drop_last().push(shuffled.last()).to_multiset()
                    == shuffled.drop_last().to_multiset().insert(shuffled.last()));
                assert(shuffled.drop_last().push(shuffled.last()) =~= shuffled);
                assert forall|i: int| 0 <= i < self@.pool.len() implies name_qualifies(
                    #[trigger] self@.pool[i]@,
                ) by {
                    assert(self@.pool[i] == shuffled[i]);
                    assert(shuffled.contains(shuffled[i]));
                }
                assert(shuffled.contains(shuffled.last()));
            }
        }
    }

    /// The challenger beats the winner: pop it into the winner slot. Both
    /// displayed images change identity, so both slots go stale.
    pub fn advance(&mut self) -> (stale: Invalidation)
        ensures
            final(self)@ == advance_view(old(self)@),
            final(self)@.wf(),
            stale == (Invalidation { winner: true, challenger: true }),
    {
        self.winner = self.take_top();
        Invalidation { winner: true, challenger: true }
    }

    /// The challenger is rejected: drop it; the winner stays, so only the
    /// challenger's slot goes stale.
    pub fn discard(&mut self) -> (stale: Invalidation)
        ensures
            final(self)@ == discard_view(old(self)@),
            old(self)@.wf() ==> final(self)@.wf(),
            stale == (Invalidation { winner: false, challenger: true }),
    {
        let _ = self.take_top();
        Invalidation { winner: false, challenger: true }
    }
}

} // verus!
