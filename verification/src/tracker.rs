//! Per-partition bookkeeping of the offset that is safe to commit.
//!
//! A cursor follows the offsets of one partition from the moment they are
//! begun. It keeps a window of the offsets that were begun and are not yet
//! committed, in ascending order, each marked once it is settled: once its
//! message was acknowledged by the webhook or stored in the dead-letter
//! sink. The committed offset moves over the settled offsets at the front of
//! the window and stops before the first that is still in flight.

use vstd::prelude::*;

verus! {

/// An offset of the window.
#[derive(Clone, Copy, Debug, PartialEq, Eq, Structural)]
pub struct Slot {
    pub offset: i64,
    pub settled: bool,
}

/// Why a cursor refused an offset.
#[derive(Clone, Copy, Debug, PartialEq, Eq, Structural)]
pub enum TrackError {
    /// The offset is not above the last one that was begun.
    Regression { offset: i64, last: i64 },
    /// The offset is not in flight.
    NotInFlight { offset: i64 },
}

/// `a <= b`, where `None` is below every offset.
pub open spec fn at_most(a: Option<i64>, b: Option<i64>) -> bool {
    a matches Some(x) ==> (b matches Some(y) && x <= y)
}

/// The higher of an optional offset and an offset.
pub open spec fn raised(a: Option<i64>, o: i64) -> Option<i64> {
    match a {
        Some(x) => if x >= o {
            Some(x)
        } else {
            Some(o)
        },
        None => Some(o),
    }
}

/// The window with the given offset marked as settled.
pub open spec fn mark(window: Seq<Slot>, offset: i64) -> Seq<Slot> {
    Seq::new(
        window.len(),
        |i: int|
            Slot {
                offset: window[i].offset,
                settled: window[i].settled || window[i].offset == offset,
            },
    )
}

/// The number of settled offsets at the front of a window.
pub open spec fn settled_prefix(window: Seq<Slot>) -> nat
    decreases window.len(),
{
    if window.len() == 0 || !window[0].settled {
        0
    } else {
        1 + settled_prefix(window.drop_first())
    }
}

/// What a cursor holds.
pub struct CursorView {
    /// The highest offset that is safe to commit.
    pub committed: Option<i64>,
    /// The highest offset that was settled.
    pub highest_delivered: Option<i64>,
    /// The highest offset that was begun.
    pub last_begun: Option<i64>,
    /// The offsets begun and not yet committed, ascending.
    pub window: Seq<Slot>,
    /// The committed offset that was last handed out for a commit.
    pub flushed: Option<i64>,
}

impl CursorView {
    /// The cursor of a partition that was just assigned.
    pub open spec fn fresh() -> CursorView {
        CursorView {
            committed: None,
            highest_delivered: None,
            last_begun: None,
            window: Seq::empty(),
            flushed: None,
        }
    }

    /// The invariant of a cursor.
    pub open spec fn wf(self) -> bool {
        &&& forall|i: int, j: int|
            0 <= i < j < self.window.len() ==> self.window[i].offset < self.window[j].offset
        &&& self.window.len() > 0 ==> !self.window[0].settled
        &&& self.window.len() > 0 ==> self.last_begun == Some(self.window.last().offset)
        &&& self.window.len() == 0 ==> self.committed == self.last_begun && self.highest_delivered
            == self.last_begun
        &&& forall|i: int|
            0 <= i < self.window.len() ==> at_most(self.committed, Some(self.window[i].offset))
                && self.committed != Some(#[trigger] self.window[i].offset)
        &&& forall|i: int|
            0 <= i < self.window.len() && (#[trigger] self.window[i]).settled ==> at_most(
                Some(self.window[i].offset),
                self.highest_delivered,
            )
        &&& at_most(self.flushed, self.committed)
        &&& at_most(self.committed, self.highest_delivered)
        &&& at_most(self.highest_delivered, self.last_begun)
    }

    /// Whether the offset was begun and is not settled.
    pub open spec fn is_in_flight(self, offset: i64) -> bool {
        exists|i: int|
            0 <= i < self.window.len() && (#[trigger] self.window[i]).offset == offset
                && !self.window[i].settled
    }

    /// The offsets that were begun and are not settled.
    pub open spec fn in_flight(self) -> Set<i64> {
        Set::new(|offset: i64| self.is_in_flight(offset))
    }

    /// Whether the offset may be begun: it lies above every offset begun
    /// before.
    pub open spec fn can_begin(self, offset: i64) -> bool {
        self.last_begun matches Some(last) ==> last < offset
    }

    /// The cursor after the offset was begun.
    pub open spec fn begin(self, offset: i64) -> CursorView {
        CursorView {
            last_begun: Some(offset),
            window: self.window.push(Slot { offset, settled: false }),
            ..self
        }
    }

    /// The cursor after the offset was settled: the committed offset moves
    /// to the last of the settled offsets at the front of the window, and
    /// these leave the window.
    pub open spec fn settle(self, offset: i64) -> CursorView {
        let marked = mark(self.window, offset);
        let k = settled_prefix(marked) as int;
        CursorView {
            committed: if k > 0 {
                Some(marked[k - 1].offset)
            } else {
                self.committed
            },
            highest_delivered: raised(self.highest_delivered, offset),
            window: marked.skip(k),
            ..self
        }
    }

    /// The offset that a commit is due for: the committed offset, unless it
    /// was handed out already.
    pub open spec fn pending_commit(self) -> Option<i64> {
        if self.committed != self.flushed {
            self.committed
        } else {
            None
        }
    }

    /// The cursor after the committed offset was handed out.
    pub open spec fn flush(self) -> CursorView {
        CursorView { flushed: self.committed, ..self }
    }
}

/// The settled offsets at the front of a window are settled, and the one
/// after them is not.
pub proof fn lemma_settled_prefix(window: Seq<Slot>)
    ensures
        settled_prefix(window) <= window.len(),
        forall|i: int| 0 <= i < settled_prefix(window) ==> (#[trigger] window[i]).settled,
        settled_prefix(window) < window.len() ==> !window[settled_prefix(window) as int].settled,
    decreases window.len(),
{
    if window.len() > 0 && window[0].settled {
        let rest = window.drop_first();
        lemma_settled_prefix(rest);
        assert forall|i: int| 0 <= i < settled_prefix(window) implies (#[trigger] window[i]).settled by {
            if i > 0 {
                assert(window[i] == rest[i - 1]);
            }
        }
        if settled_prefix(window) < window.len() {
            assert(window[settled_prefix(window) as int] == rest[settled_prefix(rest) as int]);
        }
    }
}

/// A count is the number of settled offsets at the front of a window if the
/// offsets before it are settled and the one at it is not.
pub proof fn lemma_settled_prefix_is(window: Seq<Slot>, k: nat)
    requires
        k <= window.len(),
        forall|i: int| 0 <= i < k ==> (#[trigger] window[i]).settled,
        k < window.len() ==> !window[k as int].settled,
    ensures
        settled_prefix(window) == k,
    decreases k,
{
    if k > 0 {
        let rest = window.drop_first();
        assert(window[0].settled);
        assert forall|i: int| 0 <= i < k - 1 implies (#[trigger] rest[i]).settled by {
            assert(rest[i] == window[i + 1]);
        }
        if k - 1 < rest.len() {
            assert(rest[k - 1] == window[k as int]);
        }
        lemma_settled_prefix_is(rest, (k - 1) as nat);
    }
}

/// Beginning an offset keeps the invariant, puts the offset in flight and
/// leaves the committed offset where it was.
pub proof fn lemma_begin(c: CursorView, offset: i64)
    requires
        c.wf(),
        c.can_begin(offset),
    ensures
        c.begin(offset).wf(),
        c.begin(offset).is_in_flight(offset),
        forall|o: i64| c.begin(offset).is_in_flight(o) <==> (o == offset || c.is_in_flight(o)),
        c.begin(offset).committed == c.committed,
        c.begin(offset).highest_delivered == c.highest_delivered,
{
    let d = c.begin(offset);
    let n = c.window.len() as int;
    assert(d.window[n] == Slot { offset, settled: false });
    assert forall|i: int| 0 <= i < n implies d.window[i] == c.window[i] && c.window[i].offset
        < offset by {
        if i < n - 1 {
            assert(c.window[i].offset < c.window[n - 1].offset);
        }
    }
    assert(d.is_in_flight(offset));
    assert forall|o: i64| d.is_in_flight(o) <==> (o == offset || c.is_in_flight(o)) by {
        if d.is_in_flight(o) {
            let i = choose|i: int|
                0 <= i < d.window.len() && (#[trigger] d.window[i]).offset == o
                    && !d.window[i].settled;
            if i < n {
                assert(c.window[i] == d.window[i]);
            }
        }
        if c.is_in_flight(o) {
            let i = choose|i: int|
                0 <= i < c.window.len() && (#[trigger] c.window[i]).offset == o
                    && !c.window[i].settled;
            assert(d.window[i] == c.window[i]);
        }
    }
}

/// Settling an offset that is in flight keeps the invariant, takes the
/// offset out of flight and never moves the committed offset back.
#[verifier::rlimit(40)]
pub proof fn lemma_settle(c: CursorView, offset: i64)
    requires
        c.wf(),
        c.is_in_flight(offset),
    ensures
        c.settle(offset).wf(),
        forall|o: i64| c.settle(offset).is_in_flight(o) <==> (o != offset && c.is_in_flight(o)),
        at_most(c.committed, c.settle(offset).committed),
        at_most(Some(offset), c.settle(offset).highest_delivered),
        c.settle(offset).last_begun == c.last_begun,
{
    let d = c.settle(offset);
    let marked = mark(c.window, offset);
    let k = settled_prefix(marked) as int;
    let n = c.window.len() as int;
    let p = choose|i: int|
        0 <= i < c.window.len() && (#[trigger] c.window[i]).offset == offset
            && !c.window[i].settled;
    lemma_settled_prefix(marked);
    assert(marked[p].settled);
    assert forall|i: int| 0 <= i < n && i != p implies (#[trigger] marked[i]).settled
        == c.window[i].settled by {
        if i < p {
            assert(c.window[i].offset < c.window[p].offset);
        } else {
            assert(c.window[p].offset < c.window[i].offset);
        }
    }
    assert forall|i: int| 0 <= i < d.window.len() implies (#[trigger] d.window[i]) == marked[i + k] by {}
    assert(c.window[p].offset <= c.window[n - 1].offset) by {
        if p < n - 1 {
            assert(c.window[p].offset < c.window[n - 1].offset);
        }
    }
    assert forall|i: int| 0 <= i < n && (#[trigger] marked[i]).settled implies at_most(
        Some(marked[i].offset),
        d.highest_delivered,
    ) by {
        if i != p {
            assert(c.window[i].settled);
        }
    }
    if k > 0 {
        assert(marked[k - 1].settled);
        assert(at_most(c.committed, Some(c.window[k - 1].offset)));
    }
    if k == n {
        assert(marked[n - 1].settled);
    }
    assert(d.wf()) by {
        assert forall|i: int, j: int| 0 <= i < j < d.window.len() implies d.window[i].offset
            < d.window[j].offset by {
            assert(c.window[i + k].offset < c.window[j + k].offset);
        }
        assert forall|i: int| 0 <= i < d.window.len() implies at_most(
            d.committed,
            Some(d.window[i].offset),
        ) && d.committed != Some(#[trigger] d.window[i].offset) by {
            assert(d.window[i] == marked[i + k]);
            if k > 0 {
                assert(c.window[k - 1].offset < c.window[i + k].offset);
            } else {
                assert(at_most(c.committed, Some(c.window[i + k].offset)));
            }
        }
        assert forall|i: int|
            0 <= i < d.window.len() && (#[trigger] d.window[i]).settled implies at_most(
            Some(d.window[i].offset),
            d.highest_delivered,
        ) by {
            assert(d.window[i] == marked[i + k]);
        }
        if d.window.len() > 0 {
            assert(d.window[0] == marked[k]);
            assert(d.window.last() == marked[n - 1]);
        }
    }
    assert forall|o: i64| d.is_in_flight(o) <==> (o != offset && c.is_in_flight(o)) by {
        if d.is_in_flight(o) {
            let i = choose|i: int|
                0 <= i < d.window.len() && (#[trigger] d.window[i]).offset == o
                    && !d.window[i].settled;
            assert(d.window[i] == marked[i + k]);
            assert(!c.window[i + k].settled);
        }
        if o != offset && c.is_in_flight(o) {
            let i = choose|i: int|
                0 <= i < c.window.len() && (#[trigger] c.window[i]).offset == o
                    && !c.window[i].settled;
            assert(!marked[i].settled);
            assert(i >= k);
            assert(d.window[i - k] == marked[i]);
        }
    }
}

/// The committed offset is never ahead of the highest delivered offset, nor
/// that one ahead of the last offset begun.
pub proof fn lemma_committed_within_delivered(c: CursorView)
    requires
        c.wf(),
    ensures
        at_most(c.committed, c.highest_delivered),
        at_most(c.highest_delivered, c.last_begun),
{
}

/// The committed offset stays below every offset in flight.
pub proof fn lemma_committed_below_in_flight(c: CursorView, offset: i64)
    requires
        c.wf(),
        c.is_in_flight(offset),
    ensures
        c.committed matches Some(committed) ==> committed < offset,
{
}

/// Once an offset is settled and no lower offset is in flight, the
/// committed offset has reached it.
pub proof fn lemma_settled_is_committed(c: CursorView, offset: i64)
    requires
        c.wf(),
        c.is_in_flight(offset),
        forall|o: i64| c.is_in_flight(o) ==> offset <= o,
    ensures
        at_most(Some(offset), c.settle(offset).committed),
{
    let marked = mark(c.window, offset);
    let k = settled_prefix(marked) as int;
    let p = choose|i: int|
        0 <= i < c.window.len() && (#[trigger] c.window[i]).offset == offset
            && !c.window[i].settled;
    lemma_settled_prefix(marked);
    assert(c.is_in_flight(c.window[0].offset));
    if p > 0 {
        assert(c.window[0].offset < c.window[p].offset);
    }
    assert(marked[0].settled);
    if k - 1 < p {
        assert(marked[p].settled);
        if k < p {
            assert(!c.window[k].settled);
            assert(c.is_in_flight(c.window[k].offset));
            assert(c.window[k].offset < c.window[p].offset);
        }
    } else if p < k - 1 {
        assert(c.window[p].offset < c.window[k - 1].offset);
    }
}

/// Where nothing is in flight, the committed offset and the highest
/// delivered offset are the last offset that was begun.
pub proof fn lemma_all_settled(c: CursorView)
    requires
        c.wf(),
        forall|o: i64| !c.is_in_flight(o),
    ensures
        c.window.len() == 0,
        c.committed == c.last_begun,
        c.highest_delivered == c.last_begun,
{
    if c.window.len() > 0 {
        assert(c.is_in_flight(c.window[0].offset));
    }
}

/// The offsets of one partition on their way to being committed.
#[derive(Clone, Debug)]
pub struct OffsetCursor {
    committed: Option<i64>,
    highest_delivered: Option<i64>,
    last_begun: Option<i64>,
    window: Vec<Slot>,
    flushed: Option<i64>,
}

impl View for OffsetCursor {
    type V = CursorView;

    closed spec fn view(&self) -> CursorView {
        CursorView {
            committed: self.committed,
            highest_delivered: self.highest_delivered,
            last_begun: self.last_begun,
            window: self.window@,
            flushed: self.flushed,
        }
    }
}

impl OffsetCursor {
    /// The cursor of a partition that was just assigned.
    pub fn new() -> (cursor: OffsetCursor)
        ensures
            cursor@ == CursorView::fresh(),
            cursor@.wf(),
    {
        OffsetCursor {
            committed: None,
            highest_delivered: None,
            last_begun: None,
            window: Vec::new(),
            flushed: None,
        }
    }

    /// The highest offset that is safe to commit.
    pub fn committed(&self) -> (offset: Option<i64>)
        ensures
            offset == self@.committed,
    {
        self.committed
    }

    /// The highest offset that was settled.
    pub fn highest_delivered(&self) -> (offset: Option<i64>)
        ensures
            offset == self@.highest_delivered,
    {
        self.highest_delivered
    }

    /// The highest offset that was begun.
    pub fn last_begun(&self) -> (offset: Option<i64>)
        ensures
            offset == self@.last_begun,
    {
        self.last_begun
    }

    /// Whether the offset was begun and is not settled.
    pub fn is_in_flight(&self, offset: i64) -> (b: bool)
        ensures
            b == self@.is_in_flight(offset),
    {
        let mut i: usize = 0;
        while i < self.window.len()
            invariant
                i <= self.window@.len(),
                forall|j: int|
                    0 <= j < i ==> !((#[trigger] self.window@[j]).offset == offset
                        && !self.window@[j].settled),
            decreases self.window@.len() - i,
        {
            if self.window[i].offset == offset && !self.window[i].settled {
                assert(self@.window[i as int].offset == offset && !self@.window[i as int].settled);
                return true;
            }
            i = i + 1;
        }
        false
    }

    /// The offsets in flight, ascending.
    pub fn in_flight(&self) -> (offsets: Vec<i64>)
        requires
            self@.wf(),
        ensures
            forall|o: i64| offsets@.contains(o) <==> self@.is_in_flight(o),
            forall|i: int, j: int| 0 <= i < j < offsets@.len() ==> offsets@[i] < offsets@[j],
    {
        let mut offsets: Vec<i64> = Vec::new();
        let mut i: usize = 0;
        while i < self.window.len()
            invariant
                i <= self.window@.len(),
                self@.wf(),
                forall|o: i64|
                    offsets@.contains(o) <==> exists|j: int|
                        0 <= j < i && (#[trigger] self.window@[j]).offset == o
                            && !self.window@[j].settled,
                forall|a: int, b: int| 0 <= a < b < offsets@.len() ==> offsets@[a] < offsets@[b],
                forall|a: int|
                    0 <= a < offsets@.len() && i < self.window@.len() ==> (#[trigger] offsets@[a])
                        < self.window@[i as int].offset,
            decreases self.window@.len() - i,
        {
            let entry = self.window[i];
            let ghost before = offsets@;
            if !entry.settled {
                offsets.push(entry.offset);
            }
            proof {
                assert forall|o: i64|
                    offsets@.contains(o) <==> exists|j: int|
                        0 <= j < i + 1 && (#[trigger] self.window@[j]).offset == o
                            && !self.window@[j].settled by {
                    if offsets@.contains(o) {
                        let a = choose|a: int| 0 <= a < offsets@.len() && offsets@[a] == o;
                        if a < before.len() {
                            assert(before[a] == o);
                            assert(before.contains(o));
                        } else {
                            assert(self.window@[i as int].offset == o);
                        }
                    }
                    if exists|j: int|
                        0 <= j < i + 1 && (#[trigger] self.window@[j]).offset == o
                            && !self.window@[j].settled {
                        let j = choose|j: int|
                            0 <= j < i + 1 && (#[trigger] self.window@[j]).offset == o
                                && !self.window@[j].settled;
                        if j < i {
                            assert(before.contains(o));
                            let a = choose|a: int| 0 <= a < before.len() && before[a] == o;
                            assert(offsets@[a] == o);
                        } else {
                            assert(offsets@[offsets@.len() - 1] == o);
                        }
                    }
                }
                if i + 1 < self.window@.len() {
                    assert(self.window@[i as int].offset < self.window@[i + 1].offset);
                }
            }
            i = i + 1;
        }
        offsets
    }

    /// Begins an offset: puts it in flight. Refused where the offset is not
    /// above the last one begun.
    pub fn begin(&mut self, offset: i64) -> (r: Result<(), TrackError>)
        requires
            old(self)@.wf(),
        ensures
            final(self)@.wf(),
            old(self)@.can_begin(offset) ==> r is Ok && final(self)@ == old(self)@.begin(offset),
            !old(self)@.can_begin(offset) ==> final(self)@ == old(self)@ && r == Err::<
                (),
                TrackError,
            >(TrackError::Regression { offset, last: old(self)@.last_begun->Some_0 }),
    {
        match self.last_begun {
            Some(last) => {
                if offset <= last {
                    return Err(TrackError::Regression { offset, last });
                }
            },
            None => {},
        }
        proof {
            lemma_begin(self@, offset);
        }
        self.window.push(Slot { offset, settled: false });
        self.last_begun = Some(offset);
        Ok(())
    }

    /// Settles an offset that is in flight: its message was acknowledged or
    /// stored in the dead-letter sink. The committed offset moves as far as
    /// the settled offsets reach. Refused where the offset is not in flight.
    pub fn settle(&mut self, offset: i64) -> (r: Result<(), TrackError>)
        requires
            old(self)@.wf(),
        ensures
            final(self)@.wf(),
            old(self)@.is_in_flight(offset) ==> r is Ok && final(self)@ == old(self)@.settle(
                offset,
            ),
            !old(self)@.is_in_flight(offset) ==> final(self)@ == old(self)@ && r == Err::<
                (),
                TrackError,
            >(TrackError::NotInFlight { offset }),
    {
        let n: usize = self.window.len();
        let mut p: usize = 0;
        while p < n && !(self.window[p].offset == offset && !self.window[p].settled)
            invariant
                n == self.window@.len(),
                p <= n,
                *self == *old(self),
                forall|j: int|
                    0 <= j < p ==> !((#[trigger] self.window@[j]).offset == offset
                        && !self.window@[j].settled),
            decreases n - p,
        {
            p = p + 1;
        }
        if p == n {
            return Err(TrackError::NotInFlight { offset });
        }
        let ghost before = self@;
        let ghost marked = mark(before.window, offset);
        proof {
            lemma_settle(before, offset);
            lemma_settled_prefix(marked);
            assert forall|i: int| 0 <= i < n && i != p implies (#[trigger] marked[i])
                == before.window[i] by {
                if i < p {
                    assert(before.window[i].offset < before.window[p as int].offset);
                } else {
                    assert(before.window[p as int].offset < before.window[i].offset);
                }
            }
        }
        self.window.set(p, Slot { offset, settled: true });
        assert(self.window@ =~= marked);
        self.highest_delivered = match self.highest_delivered {
            Some(highest) => if highest >= offset {
                Some(highest)
            } else {
                Some(offset)
            },
            None => Some(offset),
        };
        let mut k: usize = 0;
        while k < n && self.window[k].settled
            invariant
                n == self.window@.len(),
                k <= n,
                self.window@ == marked,
                forall|j: int| 0 <= j < k ==> (#[trigger] marked[j]).settled,
            decreases n - k,
        {
            k = k + 1;
        }
        proof {
            lemma_settled_prefix_is(marked, k as nat);
        }
        if k > 0 {
            self.committed = Some(self.window[k - 1].offset);
            let rest = self.window.split_off(k);
            self.window = rest;
        }
        assert(self.window@ =~= marked.skip(k as int));
        Ok(())
    }

    /// Hands out the committed offset for a commit, unless it was handed out
    /// before. Offsets that were committed in between are never handed out:
    /// the later commit stands for them.
    pub fn take_commit(&mut self) -> (offset: Option<i64>)
        requires
            old(self)@.wf(),
        ensures
            final(self)@.wf(),
            offset == old(self)@.pending_commit(),
            final(self)@ == old(self)@.flush(),
    {
        let due = match (self.committed, self.flushed) {
            (Some(committed), Some(flushed)) => if committed != flushed {
                Some(committed)
            } else {
                None
            },
            (Some(committed), None) => Some(committed),
            (None, _) => None,
        };
        self.flushed = self.committed;
        due
    }
}

} // verus!
