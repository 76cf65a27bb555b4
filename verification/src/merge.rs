//! The merge engine: a pull-driven state machine that combines two sorted
//! event sequences into one strictly increasing, duplicate-free output.

use crate::events::{
    dedup, first_err, lemma_dedup_first, lemma_dedup_run, lemma_head_set, lemma_ok_count,
    lemma_push_set, non_decreasing, ok_count, strictly_increasing, vals, valid_events,
};
use crate::order::{lemma_total_order, lt_spec, total_order};
use core::cmp::Ordering;
use vstd::prelude::*;
use vstd::std_specs::cmp::OrdSpec;

verus! {

/// Which of the two sources an error originates from.
#[derive(Debug, PartialEq, Eq)]
pub enum Side {
    Left,
    Right,
}

/// A data-contract violation: within one source, the value at the 0-based
/// position `index` compares greater than the value that follows it.
#[derive(Debug, PartialEq, Eq)]
pub enum MergeError<T> {
    UnsortedPair { side: Side, index: usize, first: T, second: T },
}

impl<T> MergeError<T> {
    pub fn unsorted_pair(side: Side, index: usize, first: T, second: T) -> (r: MergeError<T>)
        ensures
            r == (MergeError::UnsortedPair { side, index, first, second }),
    {
        MergeError::UnsortedPair { side, index, first, second }
    }
}

/// One answer of the engine's pull operation.
#[derive(Debug, PartialEq, Eq)]
pub enum Pulled<T, E> {
    /// The next value of the merged, deduplicated, strictly increasing order.
    Item(T),
    /// A read failure surfaced verbatim from one of the sources; terminal.
    SourceError(E),
    /// One source was not non-decreasing; terminal.
    OrderViolation(MergeError<T>),
    /// Both sources are exhausted; terminal and repeated on further pulls.
    End,
}

/// What the collapse loop of one source yields: the next distinct pair, a
/// read failure after a validated value, or a sort-order violation.
pub(crate) enum Scan<T, E> {
    Pair(T, Option<T>),
    Fail(T, E),
    Bad(MergeError<T>),
}

/// One source of the merge: its events (held in reverse, so that the next
/// one can be popped), the cursor, and the two lookahead slots.
pub(crate) struct SideState<T, E> {
    pub(crate) rest: Vec<Result<T, E>>,
    pub(crate) full: Ghost<Seq<Result<T, E>>>,
    pub(crate) count: usize,
    pub(crate) live: bool,
    pub(crate) last: Option<T>,
    pub(crate) pending: Option<T>,
}

impl<T: Ord, E> SideState<T, E> {
    /// The source's whole event sequence, fixed at construction.
    pub(crate) closed spec fn evs(self) -> Seq<Result<T, E>> {
        self.full@
    }

    /// The values the source yields before its first failure.
    pub(crate) closed spec fn vs(self) -> Seq<T> {
        vals(self.full@)
    }

    /// How many events have been consumed.
    pub(crate) closed spec fn pos(self) -> int {
        self.full@.len() - self.rest@.len()
    }

    /// The cursor invariant: while the source is live, the unread events are
    /// exactly the reversed suffix and only values have been read so far.
    pub(crate) closed spec fn wf_core(self) -> bool {
        &&& self.count <= ok_count(self.full@)
        &&& self.full@.len() <= usize::MAX
        &&& self.live ==> {
            &&& self.rest@.len() <= self.full@.len()
            &&& self.rest@ == self.full@.skip(self.pos()).reverse()
            &&& self.count == self.pos()
        }
    }

    /// Full well-formedness of a side once the engine has been started: the
    /// slots hold the current distinct pair of the validated prefix.
    pub(crate) closed spec fn wf(self, started: bool) -> bool {
        &&& self.wf_core()
        &&& !started ==> self.fresh()
        &&& started && self.live ==> {
            &&& non_decreasing(self.vs().take(self.count as int))
            &&& self.pending is Some
        }
        &&& self.pending is Some ==> {
            &&& self.live
            &&& self.last is Some
            &&& self.count >= 2
            &&& self.last->0 == self.vs()[self.count - 2]
            &&& self.pending->0 == self.vs()[self.count - 1]
            &&& lt_spec(self.vs()[self.count - 2], self.vs()[self.count - 1])
        }
        &&& (self.pending is None && self.last is Some) ==> {
            &&& !self.live
            &&& self.count >= 1
            &&& self.count == self.vs().len()
            &&& ok_count(self.evs()) == self.evs().len()
            &&& self.last->0 == self.vs()[self.count - 1]
            &&& non_decreasing(self.vs())
        }
    }

    /// An unstarted side: nothing read, nothing buffered.
    pub(crate) closed spec fn fresh(self) -> bool {
        &&& self.live
        &&& self.rest@ == self.full@.reverse()
        &&& self.count == 0
        &&& self.last is None
        &&& self.pending is None
    }

    /// A side the engine will never touch again.
    pub(crate) closed spec fn done(self) -> bool {
        &&& !self.live
        &&& self.last is None
        &&& self.pending is None
    }

    /// Where in the validated value sequence the next emission starts.
    pub(crate) closed spec fn hd(self, started: bool) -> int {
        if !started {
            0
        } else if self.pending is Some {
            self.count - 2
        } else if self.last is Some {
            self.count - 1
        } else {
            self.vs().len() as int
        }
    }

    /// The values this side still has to offer, duplicates collapsed.
    pub(crate) closed spec fn rem(self, started: bool) -> Seq<T> {
        dedup(self.vs().skip(self.hd(started)))
    }

    /// An upper bound on the work left on this side: unread events while
    /// live, plus the buffered slots. Every step of the engine consumes it.
    pub(crate) closed spec fn fuel(self) -> int {
        (if self.live {
            self.full@.len() - self.pos()
        } else {
            0int
        }) + (if self.last is Some {
            1int
        } else {
            0int
        }) + (if self.pending is Some {
            1int
        } else {
            0int
        })
    }

    /// A live candidate is the head of what the side still offers.
    pub(crate) proof fn lemma_rem_head(self, started: bool)
        requires
            self.wf(started),
            started,
        ensures
            self.last is Some <==> self.rem(started).len() > 0,
            self.last is Some ==> self.rem(started)[0] == self.last->0,
    {
        lemma_ok_count(self.full@);
        if self.last is Some {
            let h = self.hd(started);
            assert(0 <= h < self.vs().len());
            assert(self.vs().skip(h).len() > 0);
            assert(self.vs().skip(h)[0] == self.vs()[h]);
            lemma_dedup_first(self.vs().skip(h));
        } else {
            assert(self.pending is None);
            assert(self.hd(started) == self.vs().len());
            assert(self.vs().skip(self.vs().len() as int) =~= Seq::<T>::empty());
        }
    }

    /// Wrap a source's events for consumption.
    fn new_side(events: Vec<Result<T, E>>) -> (r: SideState<T, E>)
        ensures
            r.evs() == events@,
            r.wf_core(),
            r.fresh(),
    {
        let n = events.len();
        let ghost full = events@;
        let mut src = events;
        let mut rest: Vec<Result<T, E>> = Vec::new();
        while src.len() > 0
            invariant
                src@ == full.take(src@.len() as int),
                src@.len() <= full.len(),
                rest@ == full.skip(src@.len() as int).reverse(),
                full.len() == n <= usize::MAX,
            decreases src@.len(),
        {
            let ev = src.pop().unwrap();
            rest.push(ev);
            proof {
                let m = src@.len() as int;
                assert(src@ =~= full.take(m));
                assert(rest@ =~= full.skip(m).reverse());
            }
        }
        proof {
            assert(rest@ == full.skip(0).reverse());
            assert(full.skip(0) =~= full);
            lemma_ok_count(full);
        }
        SideState { rest, full: Ghost(full), count: 0, live: true, last: None, pending: None }
    }

    /// Pull one event: the next value, the end of the source, or its first
    /// read failure, after which the source is dead.
    fn read(&mut self) -> (r: Result<Option<T>, E>)
        requires
            old(self).wf_core(),
        ensures
            final(self).wf_core(),
            final(self).full == old(self).full,
            final(self).last == old(self).last,
            final(self).pending == old(self).pending,
            match r {
                Ok(Some(v)) => {
                    &&& old(self).live
                    &&& final(self).live
                    &&& old(self).count < vals(old(self).evs()).len()
                    &&& final(self).count == old(self).count + 1
                    &&& v == vals(old(self).evs())[old(self).count as int]
                },
                Ok(None) => {
                    &&& !final(self).live
                    &&& final(self).count == old(self).count
                    &&& old(self).live ==> {
                        &&& ok_count(old(self).evs()) == old(self).evs().len()
                        &&& old(self).count == vals(old(self).evs()).len()
                    }
                },
                Err(e) => {
                    &&& old(self).live
                    &&& !final(self).live
                    &&& final(self).count == old(self).count
                    &&& first_err(old(self).evs()) == Some(e)
                    &&& old(self).count == vals(old(self).evs()).len()
                },
            },
    {
        proof {
            lemma_ok_count(self.full@);
        }
        if !self.live {
            return Ok(None);
        }
        match self.rest.pop() {
            Some(ev) => {
                proof {
                    crate::events::lemma_reverse_skip(self.full@, old(self).pos());
                }
                match ev {
                    Ok(v) => {
                        proof {
                            assert(self.full@[old(self).pos()] is Ok);
                            assert(old(self).count < ok_count(self.full@));
                        }
                        self.count = self.count + 1;
                        Ok(Some(v))
                    },
                    Err(e) => {
                        proof {
                            assert(self.full@[old(self).pos()] is Err);
                            assert(old(self).count == ok_count(self.full@));
                        }
                        self.live = false;
                        Err(e)
                    },
                }
            },
            None => {
                proof {
                    assert(self.rest@.len() == 0);
                    assert(old(self).pos() == self.full@.len());
                    assert(old(self).count == ok_count(self.full@));
                }
                self.live = false;
                Ok(None)
            },
        }
    }

    /// The collapse loop: starting from a validated value, discard its
    /// consecutive duplicates and stop at the next distinct value, the end
    /// of the source, a read failure, or a decrease.
    fn read_next(&mut self, side: Side, last: T) -> (r: Scan<T, E>)
        requires
            old(self).wf_core(),
            old(self).live,
            old(self).count >= 1,
            last == vals(old(self).evs())[old(self).count - 1],
            non_decreasing(vals(old(self).evs()).take(old(self).count as int)),
            total_order::<T>(),
        ensures
            final(self).wf_core(),
            final(self).full == old(self).full,
            final(self).last == old(self).last,
            final(self).pending == old(self).pending,
            final(self).count >= old(self).count,
            match r {
                Scan::Pair(a, p) => {
                    &&& a == last
                    &&& non_decreasing(vals(old(self).evs()).take(final(self).count as int))
                    &&& match p {
                        Some(pv) => {
                            &&& final(self).live
                            &&& old(self).count < final(self).count
                            &&& final(self).count <= vals(old(self).evs()).len()
                            &&& pv == vals(old(self).evs())[final(self).count - 1]
                            &&& lt_spec(a, pv)
                            &&& forall|j: int|
                                old(self).count - 1 <= j < final(self).count - 1
                                    ==> #[trigger] vals(old(self).evs())[j] == a
                        },
                        None => {
                            &&& !final(self).live
                            &&& final(self).count == vals(old(self).evs()).len()
                            &&& ok_count(old(self).evs()) == old(self).evs().len()
                            &&& forall|j: int|
                                old(self).count - 1 <= j < final(self).count
                                    ==> #[trigger] vals(old(self).evs())[j] == a
                        },
                    }
                },
                Scan::Fail(a, e) => {
                    &&& a == last
                    &&& !final(self).live
                    &&& final(self).count == vals(old(self).evs()).len()
                    &&& first_err(old(self).evs()) == Some(e)
                    &&& non_decreasing(vals(old(self).evs()))
                    &&& forall|j: int|
                        old(self).count - 1 <= j < final(self).count
                            ==> #[trigger] vals(old(self).evs())[j] == a
                },
                Scan::Bad(err) => {
                    &&& old(self).count < final(self).count
                    &&& final(self).count <= vals(old(self).evs()).len()
                    &&& err == (MergeError::UnsortedPair {
                        side,
                        index: (final(self).count - 2) as usize,
                        first: last,
                        second: vals(old(self).evs())[final(self).count - 1],
                    })
                    &&& lt_spec(vals(old(self).evs())[final(self).count - 1], last)
                    &&& non_decreasing(vals(old(self).evs()).take(final(self).count - 1))
                    &&& forall|j: int|
                        old(self).count - 1 <= j < final(self).count - 1
                            ==> #[trigger] vals(old(self).evs())[j] == last
                },
            },
    {
        proof {
            lemma_total_order::<T>();
            lemma_ok_count(self.full@);
        }
        let ghost vs = vals(old(self).evs());
        let ghost c0 = old(self).count as int;
        loop
            invariant
                self.wf_core(),
                self.live,
                self.full == old(self).full,
                self.last == old(self).last,
                self.pending == old(self).pending,
                c0 <= self.count <= vs.len(),
                vs == vals(self.full@),
                c0 == old(self).count,
                last == vs[c0 - 1],
                c0 >= 1,
                non_decreasing(vs.take(self.count as int)),
                forall|j: int| c0 - 1 <= j < self.count ==> #[trigger] vs[j] == last,
                total_order::<T>(),
            decreases vs.len() - self.count,
        {
            proof {
                lemma_total_order::<T>();
                lemma_ok_count(self.full@);
            }
            match self.read() {
                Ok(Some(value)) => {
                    match last.cmp(&value) {
                        Ordering::Less => {
                            return Scan::Pair(last, Some(value));
                        },
                        Ordering::Equal => {
                            proof {
                                let c = self.count as int;
                                assert(vs[c - 1] == value);
                                assert(value == last);
                                assert forall|i: int|
                                    0 <= i < c - 1 implies !#[trigger] lt_spec(
                                    vs.take(c)[i + 1],
                                    vs.take(c)[i],
                                ) by {
                                    assert(vs.take(c)[i] == vs[i]);
                                    assert(vs.take(c)[i + 1] == vs[i + 1]);
                                    if i < c - 2 {
                                        assert(vs.take(c - 1)[i] == vs[i]);
                                        assert(vs.take(c - 1)[i + 1] == vs[i + 1]);
                                    } else {
                                        assert(vs[i] == last);
                                        assert(vs[i + 1] == last);
                                    }
                                }
                            }
                        },
                        Ordering::Greater => {
                            let i = self.count - 2;
                            proof {
                                let c = self.count as int;
                                assert(vs[c - 1] == value);
                                assert(lt_spec(value, last));
                            }
                            return Scan::Bad(
                                MergeError::UnsortedPair { side, index: i, first: last, second: value },
                            );
                        },
                    }
                },
                Ok(None) => {
                    proof {
                        assert(vs.take(self.count as int) =~= vs);
                    }
                    return Scan::Pair(last, None);
                },
                Err(e) => {
                    proof {
                        assert(vs.take(self.count as int) =~= vs);
                    }
                    return Scan::Fail(last, e);
                },
            }
        }
    }
}

/// What priming one source yields: a ready side (possibly already
/// exhausted), a read failure (with the value validated before it, if one
/// was), or a sort-order violation.
pub(crate) enum Primed<T, E> {
    Ready,
    Fail(Option<T>, E),
    Bad(MergeError<T>),
}

/// What emitting a side's candidate and refilling it yields: the emitted
/// value; or the emitted value, a validated value to flush, and the read
/// failure behind it; or a sort-order violation, which discards the
/// emission.
pub(crate) enum Stepped<T, E> {
    Took(T),
    TookFail(T, T, E),
    Bad(MergeError<T>),
}

/// The error really describes a decrease inside the given event sequence:
/// the values at `index` and `index + 1` are the first offending pair.
pub open spec fn violation_in<T: Ord, E>(err: MergeError<T>, evs: Seq<Result<T, E>>) -> bool {
    match err {
        MergeError::UnsortedPair { side: _, index, first, second } => {
            let vs = vals(evs);
            &&& index + 1 < vs.len()
            &&& first == vs[index as int]
            &&& second == vs[index as int + 1]
            &&& lt_spec(second, first)
            &&& non_decreasing(vs.take(index as int + 1))
        },
    }
}

/// Which source an order violation blames.
pub open spec fn violation_side<T>(err: MergeError<T>) -> Side {
    match err {
        MergeError::UnsortedPair { side, index: _, first: _, second: _ } => side,
    }
}

impl<T: Ord, E> SideState<T, E> {
    /// First pull on a source: find its first distinct pair, or learn that
    /// it is empty, fails, or decreases.
    fn prime(&mut self, side: Side) -> (r: Primed<T, E>)
        requires
            old(self).wf_core(),
            old(self).fresh(),
            total_order::<T>(),
        ensures
            final(self).full == old(self).full,
            final(self).wf(true),
            final(self).fuel() <= old(self).fuel(),
            match r {
                Primed::Ready => final(self).rem(true) == dedup(vals(old(self).evs())),
                Primed::Fail(h, e) => {
                    &&& first_err(old(self).evs()) == Some(e)
                    &&& final(self).done()
                    &&& match h {
                        Some(v) => vals(old(self).evs()).len() > 0 && v == vals(
                            old(self).evs(),
                        )[0],
                        None => vals(old(self).evs()).len() == 0,
                    }
                },
                Primed::Bad(err) => {
                    &&& violation_in(err, old(self).evs())
                    &&& violation_side(err) == side
                    &&& final(self).done()
                },
            },
    {
        proof {
            lemma_total_order::<T>();
            lemma_ok_count(self.full@);
        }
        let ghost vs = vals(old(self).evs());
        match self.read() {
            Ok(Some(v)) => {
                proof {
                    assert(vs.take(1int) =~= seq![vs[0]]);
                }
                match self.read_next(side, v) {
                    Scan::Pair(a, p) => {
                        self.last = Some(a);
                        self.pending = p;
                        let ghost c1 = self.count as int;
                        proof {
                            if self.pending is Some {
                                let pv = self.pending->0;
                                {
                                    assert(pv != a) by {
                                        assert(lt_spec(a, pv));
                                    }
                                    assert forall|j: int| 0 <= j < c1 - 1 implies #[trigger] vs[j]
                                        == a by {}
                                    lemma_dedup_run(vs, c1 - 1);
                                    assert(vs.skip(c1 - 2)[0] == vs[c1 - 2]);
                                    assert(vs.skip(c1 - 2)[1] == vs[c1 - 1]);
                                    lemma_dedup_run(vs.skip(c1 - 2), 1);
                                    assert(vs.skip(c1 - 2).skip(1) =~= vs.skip(c1 - 1));
                                    assert(vs.skip(0) =~= vs);
                                }
                            } else {
                                lemma_dedup_run(vs, c1);
                                assert(vs.skip(c1 - 1) =~= seq![a]);
                                assert(vs.skip(c1) =~= Seq::<T>::empty());
                                assert(vs.skip(0) =~= vs);
                            }
                        }
                        Primed::Ready
                    },
                    Scan::Fail(a, e) => {
                        Primed::Fail(Some(a), e)
                    },
                    Scan::Bad(err) => {
                        self.live = false;
                        proof {
                            let c1 = self.count as int;
                            assert(vs[c1 - 2] == v);
                        }
                        Primed::Bad(err)
                    },
                }
            },
            Ok(None) => {
                proof {
                    assert(vs.len() == 0);
                    assert(vs.skip(0) =~= vs);
                }
                Primed::Ready
            },
            Err(e) => {
                Primed::Fail(None, e)
            },
        }
    }

    /// Emit this side's candidate and look for its next distinct value.
    fn take_advance(&mut self, side: Side) -> (r: Stepped<T, E>)
        requires
            old(self).wf(true),
            old(self).last is Some,
            total_order::<T>(),
        ensures
            final(self).full == old(self).full,
            final(self).wf(true),
            final(self).fuel() < old(self).fuel(),
            match r {
                Stepped::Took(v) => {
                    &&& old(self).rem(true).len() > 0
                    &&& v == old(self).rem(true)[0]
                    &&& final(self).rem(true) == old(self).rem(true).drop_first()
                    &&& final(self).rem(true).len() > 0 ==> lt_spec(v, final(self).rem(true)[0])
                },
                Stepped::TookFail(v, w, e) => {
                    &&& old(self).rem(true).len() > 0
                    &&& v == old(self).rem(true)[0]
                    &&& lt_spec(v, w)
                    &&& first_err(old(self).evs()) == Some(e)
                    &&& final(self).done()
                },
                Stepped::Bad(err) => {
                    &&& violation_in(err, old(self).evs())
                    &&& violation_side(err) == side
                    &&& final(self).done()
                },
            },
    {
        proof {
            lemma_total_order::<T>();
            lemma_ok_count(self.full@);
            old(self).lemma_rem_head(true);
        }
        let v = self.last.take().unwrap();
        let ghost vs = self.vs();
        let ghost c0 = self.count as int;
        match self.pending.take() {
            None => {
                proof {
                    assert(vs.skip(c0 - 1) =~= seq![v]);
                    assert(vs.skip(c0) =~= Seq::<T>::empty());
                    assert(old(self).rem(true) == seq![v]);
                    assert(final(self).rem(true) =~= old(self).rem(true).drop_first());
                }
                Stepped::Took(v)
            },
            Some(p) => {
                proof {
                    assert(p != v) by {
                        assert(lt_spec(v, p));
                    }
                    assert(vs.skip(c0 - 2)[0] == vs[c0 - 2]);
                    assert(vs.skip(c0 - 2)[1] == vs[c0 - 1]);
                    lemma_dedup_run(vs.skip(c0 - 2), 1);
                    assert(vs.skip(c0 - 2).skip(1) =~= vs.skip(c0 - 1));
                    assert(old(self).rem(true) == seq![v] + dedup(vs.skip(c0 - 1)));
                }
                match self.read_next(side, p) {
                    Scan::Pair(a, q) => {
                        self.last = Some(a);
                        self.pending = q;
                        let ghost c1 = self.count as int;
                        proof {
                            if self.pending is Some {
                                let qv = self.pending->0;
                                {
                                    assert(qv != a) by {
                                        assert(lt_spec(a, qv));
                                    }
                                    let s = vs.skip(c0 - 1);
                                    assert forall|j: int| 0 <= j < c1 - c0 implies #[trigger] s[j]
                                        == s[0] by {
                                        assert(s[j] == vs[j + c0 - 1]);
                                        assert(s[0] == vs[c0 - 1]);
                                    }
                                    assert(s[c1 - c0] == vs[c1 - 1]);
                                    assert(s[c1 - c0] != s[0]);
                                    lemma_dedup_run(s, c1 - c0);
                                    assert(s.skip(c1 - c0) =~= vs.skip(c1 - 1));
                                    assert(vs.skip(c1 - 2)[0] == vs[c1 - 2]);
                                    assert(vs.skip(c1 - 2)[1] == vs[c1 - 1]);
                                    assert(vs[c1 - 2] == p);
                                    assert(vs[c1 - 1] == qv);
                                    assert(non_decreasing(vs.take(c1)));
                                    assert(final(self).wf(true));
                                    lemma_dedup_run(vs.skip(c1 - 2), 1);
                                    assert(vs.skip(c1 - 2).skip(1) =~= vs.skip(c1 - 1));
                                    assert(final(self).rem(true) == dedup(s));
                                    assert((seq![v] + dedup(s)).drop_first() =~= dedup(s));
                                }
                            } else {
                                {
                                    let s = vs.skip(c0 - 1);
                                    assert forall|j: int| 0 <= j < c1 - (c0 - 1) implies #[trigger]
                                        s[j] == s[0] by {
                                        assert(s[j] == vs[j + c0 - 1]);
                                        assert(s[0] == vs[c0 - 1]);
                                    }
                                    assert(vs[c1 - 1] == p);
                                    assert(vs.take(c1) =~= vs);
                                    assert(final(self).wf(true));
                                    lemma_dedup_run(s, c1 - (c0 - 1));
                                    assert(s.skip(c1 - (c0 - 1)) =~= Seq::<T>::empty());
                                    assert(dedup(s) =~= seq![p]);
                                    assert(vs.skip(c1 - 1) =~= seq![p]);
                                    assert(final(self).rem(true) == dedup(vs.skip(c1 - 1)));
                                    assert((seq![v] + dedup(s)).drop_first() =~= dedup(s));
                                }
                            }
                            final(self).lemma_rem_head(true);
                        }
                        Stepped::Took(v)
                    },
                    Scan::Fail(a, e) => {
                        Stepped::TookFail(v, a, e)
                    },
                    Scan::Bad(err) => {
                        self.live = false;
                        proof {
                            let c1 = self.count as int;
                            assert(vs[c1 - 2] == p);
                        }
                        Stepped::Bad(err)
                    },
                }
            },
        }
    }

    /// Forget this side entirely: after a failure anywhere, neither source
    /// is read again.
    fn abandon(&mut self)
        requires
            old(self).wf_core(),
        ensures
            final(self).full == old(self).full,
            final(self).wf(true),
            final(self).done(),
            final(self).fuel() == 0,
            old(self).fuel() >= 0,
    {
        self.live = false;
        self.last = None;
        self.pending = None;
    }
}

/// A terminal outcome found early, stashed so that validated values can be
/// surfaced first.
enum Failure<T, E> {
    Source(E),
    Order(MergeError<T>),
}

/// The error blames the source it names: its fields describe the first
/// decrease within that source's values.
pub open spec fn reported_violation<T: Ord, E>(
    err: MergeError<T>,
    levs: Seq<Result<T, E>>,
    revs: Seq<Result<T, E>>,
) -> bool {
    if violation_side(err) == Side::Left {
        violation_in(err, levs)
    } else {
        violation_in(err, revs)
    }
}

proof fn lemma_violation_invalid<T: Ord, E>(err: MergeError<T>, evs: Seq<Result<T, E>>)
    requires
        total_order::<T>(),
        violation_in(err, evs),
    ensures
        !valid_events(evs),
{
    match err {
        MergeError::UnsortedPair { side: _, index, first, second } => {
            let vs = vals(evs);
            if valid_events(evs) {
                assert(!lt_spec(vs[index as int + 1], vs[index as int]));
                assert(false);
            }
        },
    }
}

/// The merge engine over two sources of `Result<T, E>` events.
///
/// It is driven by repeated calls of [`Merge::next`]; each call emits the
/// next value of the merged, deduplicated, strictly increasing order, or
/// one of the terminal outcomes of [`Pulled`].
pub struct Merge<T, E> {
    left: SideState<T, E>,
    right: SideState<T, E>,
    started: bool,
    flushed: Option<T>,
    failure: Option<Failure<T, E>>,
    prev: Ghost<Option<T>>,
}

impl<T: Ord, E> Merge<T, E> {
    /// The left source's whole event sequence.
    pub closed spec fn left_events(self) -> Seq<Result<T, E>> {
        self.left.evs()
    }

    /// The right source's whole event sequence.
    pub closed spec fn right_events(self) -> Seq<Result<T, E>> {
        self.right.evs()
    }

    /// The values the left source still has to offer, duplicates collapsed.
    pub closed spec fn lrem(self) -> Seq<T> {
        self.left.rem(self.started)
    }

    /// The values the right source still has to offer, duplicates collapsed.
    pub closed spec fn rrem(self) -> Seq<T> {
        self.right.rem(self.started)
    }

    /// No terminal outcome is stashed.
    pub closed spec fn normal(self) -> bool {
        self.flushed is None && self.failure is None
    }

    /// The engine will answer `End` to this and every later pull.
    pub closed spec fn exhausted(self) -> bool {
        self.started && self.left.done() && self.right.done() && self.normal()
    }

    /// The value the engine emitted last, if any.
    pub closed spec fn last_emitted(self) -> Option<T> {
        self.prev@
    }

    /// An upper bound on the number of pulls before the engine answers
    /// `End`: every other answer consumes some of it.
    pub closed spec fn fuel(self) -> int {
        (if self.started {
            0int
        } else {
            1int
        }) + (if self.flushed is Some {
            1int
        } else {
            0int
        }) + (if self.failure is Some {
            1int
        } else {
            0int
        }) + self.left.fuel() + self.right.fuel()
    }

    /// The engine's invariant.
    pub closed spec fn wf(self) -> bool {
        &&& total_order::<T>()
        &&& self.left.wf(self.started)
        &&& self.right.wf(self.started)
        &&& self.failure is Some ==> self.started && self.left.done() && self.right.done()
        &&& self.flushed is Some ==> (self.failure matches Some(Failure::Source(_)))
        &&& (match self.failure {
            Some(Failure::Source(e)) => first_err(self.left_events()) == Some(e) || first_err(
                self.right_events(),
            ) == Some(e),
            Some(Failure::Order(err)) => reported_violation(
                err,
                self.left_events(),
                self.right_events(),
            ),
            None => true,
        })
        &&& self.failure is Some ==> !(valid_events(self.left_events()) && valid_events(
            self.right_events(),
        ))
        &&& (match self.prev@ {
            Some(pv) => {
                &&& self.started
                &&& self.lrem().len() > 0 ==> lt_spec(pv, self.lrem()[0])
                &&& self.rrem().len() > 0 ==> lt_spec(pv, self.rrem()[0])
                &&& (self.flushed matches Some(w) ==> lt_spec(pv, w))
            },
            None => true,
        })
    }

    /// Wrap two fresh sources. The merge engine never looks more than one
    /// value past what it has validated on either side.
    pub fn new(left: Vec<Result<T, E>>, right: Vec<Result<T, E>>) -> (r: Merge<T, E>)
        requires
            total_order::<T>(),
        ensures
            r.wf(),
            r.left_events() == left@,
            r.right_events() == right@,
            r.normal(),
            r.lrem() == dedup(vals(left@)),
            r.rrem() == dedup(vals(right@)),
            r.last_emitted() is None,
    {
        let l = SideState::new_side(left);
        let rg = SideState::new_side(right);
        proof {
            assert(vals(l.evs()).skip(0) =~= vals(l.evs()));
            assert(vals(rg.evs()).skip(0) =~= vals(rg.evs()));
        }
        Merge { left: l, right: rg, started: false, flushed: None, failure: None, prev: Ghost(None) }
    }

    /// Decide which side's candidate is emitted next: the smaller one, both
    /// on a tie, the only one if one side is exhausted.
    fn pick(&self) -> (r: (bool, bool))
        requires
            self.wf(),
        ensures
            r.0 ==> self.left.last is Some,
            r.1 ==> self.right.last is Some,
            (self.left.last is Some || self.right.last is Some) ==> (r.0 || r.1),
            r.0 && !r.1 && self.right.last is Some ==> lt_spec(
                self.left.last->0,
                self.right.last->0,
            ),
            r.1 && !r.0 && self.left.last is Some ==> lt_spec(
                self.right.last->0,
                self.left.last->0,
            ),
            r.0 && r.1 ==> self.left.last is Some && self.right.last is Some
                && self.left.last->0 == self.right.last->0,
    {
        proof {
            lemma_total_order::<T>();
        }
        match (&self.left.last, &self.right.last) {
            (Some(a), Some(b)) => match a.cmp(b) {
                Ordering::Less => (true, false),
                Ordering::Greater => (false, true),
                Ordering::Equal => (true, true),
            },
            (Some(_), None) => (true, false),
            (None, Some(_)) => (false, true),
            (None, None) => (false, false),
        }
    }

    /// Pull the next answer of the merge.
    ///
    /// On two valid sources this emits, call after call, exactly the
    /// strictly increasing sequence of the values both sources hold between
    /// them, then `End` forever. A read failure or a decrease inside one
    /// source is surfaced once, after the values validated before it, and
    /// exhausts the engine for good.
    #[verifier::rlimit(60)]
    pub fn next(&mut self) -> (r: Pulled<T, E>)
        requires
            old(self).wf(),
        ensures
            final(self).wf(),
            final(self).left_events() == old(self).left_events(),
            final(self).right_events() == old(self).right_events(),
            old(self).exhausted() ==> r is End && *final(self) == *old(self),
            final(self).fuel() <= old(self).fuel(),
            !(r is End) ==> final(self).fuel() < old(self).fuel(),
            r is End ==> {
                &&& final(self).exhausted()
                &&& old(self).normal()
                &&& old(self).lrem().len() == 0 && old(self).rrem().len() == 0
            },
            (r is SourceError || r is OrderViolation) ==> final(self).exhausted(),
            r matches Pulled::SourceError(e) ==> (first_err(old(self).left_events()) == Some(e)
                || first_err(old(self).right_events()) == Some(e)),
            r matches Pulled::OrderViolation(err) ==> reported_violation(
                err,
                old(self).left_events(),
                old(self).right_events(),
            ),
            r matches Pulled::Item(v) ==> {
                &&& final(self).last_emitted() == Some(v)
                &&& (old(self).last_emitted() matches Some(pv) ==> lt_spec(pv, v))
            },
            !(r is Item) ==> final(self).last_emitted() == old(self).last_emitted(),
            valid_events(old(self).left_events()) && valid_events(old(self).right_events()) ==> {
                &&& !(r is SourceError) && !(r is OrderViolation)
                &&& (r is End <==> old(self).lrem().len() == 0 && old(self).rrem().len() == 0)
                &&& (r matches Pulled::Item(v) ==> {
                    &&& old(self).lrem().len() > 0 || old(self).rrem().len() > 0
                    &&& (old(self).lrem().len() > 0 && old(self).rrem().len() > 0 ==> v == (
                    if lt_spec(old(self).lrem()[0], old(self).rrem()[0]) {
                        old(self).lrem()[0]
                    } else {
                        old(self).rrem()[0]
                    }))
                    &&& (old(self).lrem().len() == 0 && old(self).rrem().len() > 0 ==> v == old(
                        self,
                    ).rrem()[0])
                    &&& (old(self).rrem().len() == 0 && old(self).lrem().len() > 0 ==> v == old(
                        self,
                    ).lrem()[0])
                    &&& final(self).lrem() == (if old(self).lrem().len() > 0 && old(self).lrem()[0]
                        == v {
                        old(self).lrem().drop_first()
                    } else {
                        old(self).lrem()
                    })
                    &&& final(self).rrem() == (if old(self).rrem().len() > 0 && old(self).rrem()[0]
                        == v {
                        old(self).rrem().drop_first()
                    } else {
                        old(self).rrem()
                    })
                })
            },
    {
        proof {
            lemma_total_order::<T>();
        }
        if let Some(w) = self.flushed.take() {
            self.prev = Ghost(Some(w));
            proof {
                self.left.lemma_rem_head(true);
                self.right.lemma_rem_head(true);
            }
            return Pulled::Item(w);
        }
        match self.failure.take() {
            Some(Failure::Source(e)) => {
                return Pulled::SourceError(e);
            },
            Some(Failure::Order(err)) => {
                return Pulled::OrderViolation(err);
            },
            None => {},
        }
        if !self.started {
            self.started = true;
            match self.left.prime(Side::Left) {
                Primed::Ready => {},
                Primed::Fail(h, e) => {
                    self.right.abandon();
                    match h {
                        Some(v) => {
                            self.failure = Some(Failure::Source(e));
                            self.prev = Ghost(Some(v));
                            proof {
                                self.left.lemma_rem_head(true);
                                self.right.lemma_rem_head(true);
                            }
                            return Pulled::Item(v);
                        },
                        None => {
                            return Pulled::SourceError(e);
                        },
                    }
                },
                Primed::Bad(err) => {
                    self.right.abandon();
                    proof {
                        lemma_violation_invalid(err, self.left.evs());
                    }
                    return Pulled::OrderViolation(err);
                },
            }
            match self.right.prime(Side::Right) {
                Primed::Ready => {},
                Primed::Fail(h, e) => {
                    self.left.abandon();
                    match h {
                        Some(v) => {
                            self.failure = Some(Failure::Source(e));
                            self.prev = Ghost(Some(v));
                            proof {
                                self.left.lemma_rem_head(true);
                                self.right.lemma_rem_head(true);
                            }
                            return Pulled::Item(v);
                        },
                        None => {
                            return Pulled::SourceError(e);
                        },
                    }
                },
                Primed::Bad(err) => {
                    self.left.abandon();
                    proof {
                        lemma_violation_invalid(err, self.right.evs());
                    }
                    return Pulled::OrderViolation(err);
                },
            }
        }
        let ghost lrem0 = self.left.rem(true);
        let ghost rrem0 = self.right.rem(true);
        proof {
            assert(self.started);
            if old(self).started {
                assert(lrem0 == old(self).lrem());
                assert(rrem0 == old(self).rrem());
            } else {
                assert(vals(old(self).left_events()).skip(0) =~= vals(old(self).left_events()));
                assert(vals(old(self).right_events()).skip(0) =~= vals(old(self).right_events()));
                assert(lrem0 == old(self).lrem());
                assert(rrem0 == old(self).rrem());
            }
            self.left.lemma_rem_head(true);
            self.right.lemma_rem_head(true);
        }
        let (adv_l, adv_r) = self.pick();
        if adv_l && adv_r {
            match self.left.take_advance(Side::Left) {
                Stepped::Took(v) => {
                    match self.right.take_advance(Side::Right) {
                        Stepped::Took(v2) => {
                            self.prev = Ghost(Some(v));
                            proof {
                                self.left.lemma_rem_head(true);
                                self.right.lemma_rem_head(true);
                            }
                            return Pulled::Item(v);
                        },
                        Stepped::TookFail(v2, w, e) => {
                            self.left.abandon();
                            self.flushed = Some(w);
                            self.failure = Some(Failure::Source(e));
                            self.prev = Ghost(Some(v));
                            proof {
                                self.left.lemma_rem_head(true);
                                self.right.lemma_rem_head(true);
                            }
                            return Pulled::Item(v);
                        },
                        Stepped::Bad(err) => {
                            self.left.abandon();
                            proof {
                                lemma_violation_invalid(err, self.right.evs());
                            }
                            return Pulled::OrderViolation(err);
                        },
                    }
                },
                Stepped::TookFail(v, w, e) => {
                    self.right.abandon();
                    self.flushed = Some(w);
                    self.failure = Some(Failure::Source(e));
                    self.prev = Ghost(Some(v));
                    proof {
                        self.left.lemma_rem_head(true);
                        self.right.lemma_rem_head(true);
                    }
                    return Pulled::Item(v);
                },
                Stepped::Bad(err) => {
                    self.right.abandon();
                    proof {
                        lemma_violation_invalid(err, self.left.evs());
                    }
                    return Pulled::OrderViolation(err);
                },
            }
        } else if adv_l {
            match self.left.take_advance(Side::Left) {
                Stepped::Took(v) => {
                    self.prev = Ghost(Some(v));
                    proof {
                        self.left.lemma_rem_head(true);
                        self.right.lemma_rem_head(true);
                    }
                    return Pulled::Item(v);
                },
                Stepped::TookFail(v, w, e) => {
                    self.right.abandon();
                    self.flushed = Some(w);
                    self.failure = Some(Failure::Source(e));
                    self.prev = Ghost(Some(v));
                    proof {
                        self.left.lemma_rem_head(true);
                        self.right.lemma_rem_head(true);
                    }
                    return Pulled::Item(v);
                },
                Stepped::Bad(err) => {
                    self.right.abandon();
                    proof {
                        lemma_violation_invalid(err, self.left.evs());
                    }
                    return Pulled::OrderViolation(err);
                },
            }
        } else if adv_r {
            match self.right.take_advance(Side::Right) {
                Stepped::Took(v) => {
                    self.prev = Ghost(Some(v));
                    proof {
                        self.left.lemma_rem_head(true);
                        self.right.lemma_rem_head(true);
                    }
                    return Pulled::Item(v);
                },
                Stepped::TookFail(v, w, e) => {
                    self.left.abandon();
                    self.flushed = Some(w);
                    self.failure = Some(Failure::Source(e));
                    self.prev = Ghost(Some(v));
                    proof {
                        self.left.lemma_rem_head(true);
                        self.right.lemma_rem_head(true);
                    }
                    return Pulled::Item(v);
                },
                Stepped::Bad(err) => {
                    self.left.abandon();
                    proof {
                        lemma_violation_invalid(err, self.right.evs());
                    }
                    return Pulled::OrderViolation(err);
                },
            }
        } else {
            proof {
                self.left.lemma_rem_head(true);
                self.right.lemma_rem_head(true);
            }
            return Pulled::End;
        }
    }
}

/// The values of a run of `Item` answers, in order.
pub open spec fn emitted_values<T, E>(s: Seq<Pulled<T, E>>) -> Seq<T> {
    s.map_values(|p: Pulled<T, E>| p->Item_0)
}

/// Wrap two sources for merging. Each must be non-decreasing in its values;
/// the engine checks that lazily as it pulls.
pub fn merge<T: Ord, E>(left: Vec<Result<T, E>>, right: Vec<Result<T, E>>) -> (r: Merge<T, E>)
    requires
        total_order::<T>(),
    ensures
        r.wf(),
        r.left_events() == left@,
        r.right_events() == right@,
        r.normal(),
        r.lrem() == dedup(vals(left@)),
        r.rrem() == dedup(vals(right@)),
        r.last_emitted() is None,
{
    Merge::new(left, right)
}

/// Run a merge to completion and collect every answer before `End`.
///
/// On two valid sources the answers are all `Item`s, their values strictly
/// increase, and together they are exactly the values the two sources hold
/// between them: the sorted, duplicate-free union. Whatever the sources
/// hold, values only ever strictly increase, and only the last answer can
/// be a failure.
pub fn merge_all<T: Ord, E>(left: Vec<Result<T, E>>, right: Vec<Result<T, E>>) -> (out: Vec<
    Pulled<T, E>,
>)
    requires
        total_order::<T>(),
    ensures
        forall|i: int| 0 <= i < out@.len() - 1 ==> (#[trigger] out@[i]) is Item,
        forall|i: int|
            0 <= i < out@.len() - 1 && out@[i] is Item && out@[i + 1] is Item ==> lt_spec(
                (#[trigger] out@[i])->Item_0,
                out@[i + 1]->Item_0,
            ),
        valid_events(left@) && valid_events(right@) ==> {
            &&& forall|i: int| 0 <= i < out@.len() ==> (#[trigger] out@[i]) is Item
            &&& strictly_increasing(emitted_values(out@))
            &&& emitted_values(out@).to_set() == vals(left@).to_set().union(vals(right@).to_set())
        },
{
    let mut m = Merge::new(left, right);
    let mut out: Vec<Pulled<T, E>> = Vec::new();
    proof {
        lemma_total_order::<T>();
        if valid_events(left@) && valid_events(right@) {
            crate::events::lemma_dedup_set(vals(left@));
            crate::events::lemma_dedup_set(vals(right@));
            assert(emitted_values(out@).to_set() =~= Set::<T>::empty());
            assert(emitted_values(out@).to_set().union(m.lrem().to_set()).union(
                m.rrem().to_set(),
            ) =~= vals(left@).to_set().union(vals(right@).to_set()));
        }
    }
    loop
        invariant
            m.wf(),
            m.left_events() == left@,
            m.right_events() == right@,
            total_order::<T>(),
            forall|i: int| 0 <= i < out@.len() - 1 ==> (#[trigger] out@[i]) is Item,
            forall|i: int|
                0 <= i < out@.len() - 1 && out@[i] is Item && out@[i + 1] is Item ==> lt_spec(
                    (#[trigger] out@[i])->Item_0,
                    out@[i + 1]->Item_0,
                ),
            out@.len() > 0 && !(out@.last() is Item) ==> m.exhausted(),
            out@.len() > 0 && out@.last() is Item ==> m.last_emitted() == Some(
                out@.last()->Item_0,
            ),
            valid_events(left@) && valid_events(right@) ==> {
                &&& forall|i: int| 0 <= i < out@.len() ==> (#[trigger] out@[i]) is Item
                &&& emitted_values(out@).to_set().union(m.lrem().to_set()).union(
                    m.rrem().to_set(),
                ) == vals(left@).to_set().union(vals(right@).to_set())
            },
        ensures
            forall|i: int| 0 <= i < out@.len() - 1 ==> (#[trigger] out@[i]) is Item,
            forall|i: int|
                0 <= i < out@.len() - 1 && out@[i] is Item && out@[i + 1] is Item ==> lt_spec(
                    (#[trigger] out@[i])->Item_0,
                    out@[i + 1]->Item_0,
                ),
            m.lrem().len() == 0 && m.rrem().len() == 0,
            valid_events(left@) && valid_events(right@) ==> {
                &&& forall|i: int| 0 <= i < out@.len() ==> (#[trigger] out@[i]) is Item
                &&& emitted_values(out@).to_set().union(m.lrem().to_set()).union(
                    m.rrem().to_set(),
                ) == vals(left@).to_set().union(vals(right@).to_set())
            },
        decreases m.fuel(),
    {
        proof {
            assert(m.fuel() >= 0);
        }
        let ghost old_m = m;
        let ghost old_out = out@;
        match m.next() {
            Pulled::End => {
                proof {
                    m.left.lemma_rem_head(true);
                    m.right.lemma_rem_head(true);
                }
                break ;
            },
            p => {
                proof {
                    if valid_events(left@) && valid_events(right@) {
                        if p is Item {
                            let v = p->Item_0;
                            assert(emitted_values(out@.push(p)) =~= emitted_values(out@).push(v));
                            lemma_push_set(emitted_values(out@), v);
                            if old_m.lrem().len() > 0 && old_m.lrem()[0] == v {
                                lemma_head_set(old_m.lrem());
                            }
                            if old_m.rrem().len() > 0 && old_m.rrem()[0] == v {
                                lemma_head_set(old_m.rrem());
                            }
                            assert(emitted_values(out@.push(p)).to_set().union(
                                m.lrem().to_set(),
                            ).union(m.rrem().to_set()) =~= emitted_values(out@).to_set().union(
                                old_m.lrem().to_set(),
                            ).union(old_m.rrem().to_set()));
                        }
                    }
                    if p is Item {
                        assert(out@.len() > 0 && !(out@.last() is Item) ==> false) by {
                            if out@.len() > 0 && !(out@.last() is Item) {
                                assert(old_m.exhausted());
                            }
                        }
                    }
                }
                out.push(p);
            },
        }
    }
    proof {
        if valid_events(left@) && valid_events(right@) {
            assert forall|i: int|
                0 <= i < emitted_values(out@).len() - 1 implies #[trigger] lt_spec(
                emitted_values(out@)[i],
                emitted_values(out@)[i + 1],
            ) by {
                assert(out@[i] is Item && out@[i + 1] is Item);
                assert(emitted_values(out@)[i] == out@[i]->Item_0);
                assert(emitted_values(out@)[i + 1] == out@[i + 1]->Item_0);
            }
            assert(emitted_values(out@).to_set() =~= vals(left@).to_set().union(
                vals(right@).to_set(),
            ));
        }
    }
    out
}

/// Merging with an empty left source is the identity on distinct values:
/// an all-`Item` run that is strictly increasing and holds exactly the
/// values of one valid source — which is what [`merge_all`]'s contract
/// gives when the other source is empty — is that source's value sequence
/// with its consecutive duplicates collapsed, in their original order.
pub proof fn lemma_empty_source_identity<T: Ord, E>(out: Seq<Pulled<T, E>>, revs: Seq<
    Result<T, E>,
>)
    requires
        total_order::<T>(),
        valid_events(revs),
        forall|i: int| 0 <= i < out.len() ==> (#[trigger] out[i]) is Item,
        strictly_increasing(emitted_values(out)),
        emitted_values(out).to_set() == vals(Seq::<Result<T, E>>::empty()).to_set().union(
            vals(revs).to_set(),
        ),
    ensures
        emitted_values(out) == dedup(vals(revs)),
{
    assert(ok_count(Seq::<Result<T, E>>::empty()) == 0);
    assert(vals(Seq::<Result<T, E>>::empty()) =~= Seq::<T>::empty());
    assert(vals(Seq::<Result<T, E>>::empty()).to_set() =~= Set::<T>::empty());
    assert(emitted_values(out).to_set() =~= vals(revs).to_set());
    crate::events::lemma_sorted_same_set_is_dedup(emitted_values(out), vals(revs));
}

} // verus!
