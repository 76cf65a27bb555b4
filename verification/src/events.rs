//! Specification vocabulary for a source's event sequence: the values it
//! yields before its first read failure, sortedness, and duplicate collapse.

use crate::order::{lt_spec, total_order};
use vstd::prelude::*;
use vstd::std_specs::cmp::OrdSpec;

verus! {

/// Number of leading `Ok` events before the first read failure.
pub open spec fn ok_count<T, E>(s: Seq<Result<T, E>>) -> int
    decreases s.len(),
{
    if s.len() == 0 {
        0
    } else if s[0] is Err {
        0
    } else {
        1 + ok_count(s.drop_first())
    }
}

/// The values a source yields, in order, before its first read failure.
pub open spec fn vals<T, E>(s: Seq<Result<T, E>>) -> Seq<T> {
    s.take(ok_count(s)).map_values(|r: Result<T, E>| r->Ok_0)
}

/// The first read failure of a source, if it has one.
pub open spec fn first_err<T, E>(s: Seq<Result<T, E>>) -> Option<E> {
    if ok_count(s) < s.len() {
        Some(s[ok_count(s)]->Err_0)
    } else {
        None
    }
}

/// A source is valid when it never fails and its values never decrease.
pub open spec fn valid_events<T: Ord, E>(s: Seq<Result<T, E>>) -> bool {
    &&& ok_count(s) == s.len()
    &&& non_decreasing(vals(s))
}

/// No value is followed by a strictly smaller one.
pub open spec fn non_decreasing<T: Ord>(s: Seq<T>) -> bool {
    forall|i: int| 0 <= i < s.len() - 1 ==> !#[trigger] lt_spec(s[i + 1], s[i])
}

/// Every value is followed only by strictly larger ones.
pub open spec fn strictly_increasing<T: Ord>(s: Seq<T>) -> bool {
    forall|i: int| 0 <= i < s.len() - 1 ==> #[trigger] lt_spec(s[i], s[i + 1])
}

/// Consecutive equal values collapsed to one.
pub open spec fn dedup<T>(s: Seq<T>) -> Seq<T>
    decreases s.len(),
{
    if s.len() <= 1 {
        s
    } else if s[0] == s[1] {
        dedup(s.drop_first())
    } else {
        seq![s[0]] + dedup(s.drop_first())
    }
}

pub proof fn lemma_ok_count<T, E>(s: Seq<Result<T, E>>)
    ensures
        0 <= ok_count(s) <= s.len(),
        forall|i: int| 0 <= i < ok_count(s) ==> s[i] is Ok,
        ok_count(s) < s.len() ==> s[ok_count(s)] is Err,
        vals(s).len() == ok_count(s),
        forall|i: int| 0 <= i < ok_count(s) ==> vals(s)[i] == s[i]->Ok_0,
    decreases s.len(),
{
    if s.len() > 0 && s[0] is Ok {
        lemma_ok_count(s.drop_first());
        assert forall|i: int| 0 <= i < ok_count(s) implies s[i] is Ok by {
            if i > 0 {
                assert(s.drop_first()[i - 1] is Ok);
            }
        }
        if ok_count(s) < s.len() {
            assert(s.drop_first()[ok_count(s) - 1] is Err);
        }
    }
}

/// `dedup` keeps the first value and never empties a non-empty sequence.
pub proof fn lemma_dedup_first<T>(s: Seq<T>)
    ensures
        s.len() == 0 ==> dedup(s).len() == 0,
        s.len() > 0 ==> dedup(s).len() > 0 && dedup(s)[0] == s[0],
    decreases s.len(),
{
    if s.len() > 1 {
        lemma_dedup_first(s.drop_first());
    }
}

/// `dedup` keeps exactly the set of values of its input.
pub proof fn lemma_dedup_set<T>(s: Seq<T>)
    ensures
        dedup(s).to_set() == s.to_set(),
    decreases s.len(),
{
    if s.len() <= 1 {
    } else {
        lemma_dedup_set(s.drop_first());
        assert(s.drop_first().to_set().insert(s[0]) == s.to_set()) by {
            assert forall|x: T| s.to_set().contains(x) implies s.drop_first().to_set().insert(
                s[0],
            ).contains(x) by {
                let i = choose|i: int| 0 <= i < s.len() && s[i] == x;
                if i > 0 {
                    assert(s.drop_first()[i - 1] == x);
                }
            }
            assert forall|x: T|
                s.drop_first().to_set().insert(s[0]).contains(x) implies s.to_set().contains(
                x,
            ) by {
                if x == s[0] {
                    assert(s[0] == x);
                } else {
                    let i = choose|i: int| 0 <= i < s.drop_first().len() && s.drop_first()[i] == x;
                    assert(s[i + 1] == x);
                }
            }
        }
        if s[0] == s[1] {
            assert(s.drop_first().to_set().contains(s[0])) by {
                assert(s.drop_first()[0] == s[1]);
            }
            assert(s.drop_first().to_set().insert(s[0]) == s.drop_first().to_set());
        } else {
            assert(dedup(s) == seq![s[0]] + dedup(s.drop_first()));
            assert(dedup(s).to_set() == dedup(s.drop_first()).to_set().insert(s[0])) by {
                let d = seq![s[0]] + dedup(s.drop_first());
                assert forall|x: T| d.to_set().contains(x) implies dedup(
                    s.drop_first(),
                ).to_set().insert(s[0]).contains(x) by {
                    let i = choose|i: int| 0 <= i < d.len() && d[i] == x;
                    if i > 0 {
                        assert(dedup(s.drop_first())[i - 1] == x);
                    }
                }
                assert forall|x: T|
                    dedup(s.drop_first()).to_set().insert(s[0]).contains(x) implies d.to_set()
                    .contains(x) by {
                    if x == s[0] {
                        assert(d[0] == x);
                    } else {
                        let i = choose|i: int|
                            0 <= i < dedup(s.drop_first()).len() && dedup(s.drop_first())[i] == x;
                        assert(d[i + 1] == x);
                    }
                }
            }
        }
    }
}

/// Collapsing duplicates in a non-decreasing sequence leaves a strictly
/// increasing one.
pub proof fn lemma_dedup_strict<T: Ord>(s: Seq<T>)
    requires
        total_order::<T>(),
        non_decreasing(s),
    ensures
        strictly_increasing(dedup(s)),
    decreases s.len(),
{
    lemma_total_order_local::<T>();
    if s.len() > 1 {
        assert(non_decreasing(s.drop_first())) by {
            assert forall|i: int|
                0 <= i < s.drop_first().len() - 1 implies !#[trigger] lt_spec(
                s.drop_first()[i + 1],
                s.drop_first()[i],
            ) by {
                assert(s.drop_first()[i + 1] == s[i + 2]);
                assert(s.drop_first()[i] == s[i + 1]);
            }
        }
        lemma_dedup_strict(s.drop_first());
        lemma_dedup_first(s.drop_first());
        if s[0] == s[1] {
        } else {
            let d = seq![s[0]] + dedup(s.drop_first());
            assert(!lt_spec(s[1], s[0]));
            assert(s[0].cmp_spec(&s[1]) != core::cmp::Ordering::Equal);
            assert(lt_spec(s[0], s[1]));
            assert forall|i: int| 0 <= i < d.len() - 1 implies #[trigger] lt_spec(d[i], d[i + 1]) by {
                if i == 0 {
                    assert(d[1] == dedup(s.drop_first())[0]);
                } else {
                    let j = i - 1;
                    assert(lt_spec(dedup(s.drop_first())[j], dedup(s.drop_first())[j + 1]));
                    assert(d[i] == dedup(s.drop_first())[j]);
                    assert(d[i + 1] == dedup(s.drop_first())[j + 1]);
                }
            }
        }
    }
}

/// Collapsing a leading run of equal values: if the first `k` values all
/// equal the head and the value after the run (if any) differs, `dedup`
/// keeps one copy of the head and continues after the run.
pub proof fn lemma_dedup_run<T>(s: Seq<T>, k: int)
    requires
        1 <= k <= s.len(),
        forall|j: int| 0 <= j < k ==> #[trigger] s[j] == s[0],
        k == s.len() || s[k] != s[0],
    ensures
        dedup(s) == seq![s[0]] + dedup(s.skip(k)),
    decreases k,
{
    if k == 1 {
        if s.len() == 1 {
            assert(s.skip(1) =~= Seq::<T>::empty());
            assert(dedup(s) =~= seq![s[0]] + dedup(s.skip(1)));
        } else {
            assert(s[1] != s[0]);
            assert(s.skip(1) =~= s.drop_first());
        }
    } else {
        assert(s[1] == s[0]);
        assert(dedup(s) == dedup(s.drop_first()));
        let t = s.drop_first();
        assert forall|j: int| 0 <= j < k - 1 implies #[trigger] t[j] == t[0] by {
            assert(t[j] == s[j + 1]);
            assert(t[0] == s[1]);
        }
        assert(k - 1 == t.len() || t[k - 1] != t[0]) by {
            if k - 1 < t.len() {
                assert(t[k - 1] == s[k]);
            }
        }
        lemma_dedup_run(t, k - 1);
        assert(t.skip(k - 1) =~= s.skip(k));
        assert(t[0] == s[0]);
    }
}

/// Two strictly increasing sequences over the same set of values are equal:
/// there is only one sorted sequence of a finite set.
pub proof fn lemma_strictly_increasing_unique<T: Ord>(a: Seq<T>, b: Seq<T>)
    requires
        total_order::<T>(),
        strictly_increasing(a),
        strictly_increasing(b),
        a.to_set() == b.to_set(),
    ensures
        a == b,
    decreases a.len(),
{
    lemma_total_order_local::<T>();
    lemma_strict_pairs(a);
    lemma_strict_pairs(b);
    if a.len() == 0 {
        if b.len() > 0 {
            assert(a.to_set().contains(b[0])) by {
                assert(b.to_set().contains(b[0]));
            }
            let i = choose|i: int| 0 <= i < a.len() && a[i] == b[0];
            assert(false);
        }
        assert(a =~= b);
    } else {
        assert(b.to_set().contains(a[0])) by {
            assert(a.to_set().contains(a[0]));
        }
        let i = choose|i: int| 0 <= i < b.len() && b[i] == a[0];
        assert(a.to_set().contains(b[0])) by {
            assert(b.to_set().contains(b[0]));
        }
        let j = choose|j: int| 0 <= j < a.len() && a[j] == b[0];
        assert(a[0] == b[0]) by {
            if i > 0 {
                assert(lt_spec(b[0], b[i]));
                assert(lt_spec(a[j], a[0]) || a[j] == a[0]) by {
                    if j > 0 {
                        assert(lt_spec(a[0], a[j]));
                        assert(lt_spec(b[0], a[0]) || b[0] == a[0]);
                    }
                }
                assert(false);
            }
        }
        let at = a.drop_first();
        let bt = b.drop_first();
        assert(strictly_increasing(at)) by {
            assert forall|p: int| 0 <= p < at.len() - 1 implies #[trigger] lt_spec(at[p], at[p + 1]) by {
                assert(at[p] == a[p + 1]);
                assert(at[p + 1] == a[p + 2]);
            }
        }
        assert(strictly_increasing(bt)) by {
            assert forall|p: int| 0 <= p < bt.len() - 1 implies #[trigger] lt_spec(bt[p], bt[p + 1]) by {
                assert(bt[p] == b[p + 1]);
                assert(bt[p + 1] == b[p + 2]);
            }
        }
        assert(at.to_set() == bt.to_set()) by {
            assert forall|x: T| at.to_set().contains(x) implies bt.to_set().contains(x) by {
                let p = choose|p: int| 0 <= p < at.len() && at[p] == x;
                assert(a[p + 1] == x);
                assert(lt_spec(a[0], x));
                assert(a.to_set().contains(x));
                let q = choose|q: int| 0 <= q < b.len() && b[q] == x;
                assert(q > 0) by {
                    if q == 0 {
                        assert(x == b[0]);
                        assert(lt_spec(a[0], a[0]));
                        assert(false);
                    }
                }
                assert(bt[q - 1] == x);
            }
            assert forall|x: T| bt.to_set().contains(x) implies at.to_set().contains(x) by {
                let p = choose|p: int| 0 <= p < bt.len() && bt[p] == x;
                assert(b[p + 1] == x);
                assert(lt_spec(b[0], x));
                assert(b.to_set().contains(x));
                let q = choose|q: int| 0 <= q < a.len() && a[q] == x;
                assert(q > 0) by {
                    if q == 0 {
                        assert(x == a[0]);
                        assert(lt_spec(b[0], b[0]));
                        assert(false);
                    }
                }
                assert(at[q - 1] == x);
            }
            assert(at.to_set() =~= bt.to_set());
        }
        lemma_strictly_increasing_unique(at, bt);
        assert forall|p: int| 0 <= p < a.len() implies a[p] == b[p] by {
            if p > 0 {
                assert(at[p - 1] == bt[p - 1]);
                assert(at[p - 1] == a[p]);
                assert(bt[p - 1] == b[p]);
            }
        }
        assert(a =~= b);
    }
}

/// In a strictly increasing sequence every earlier value is strictly below
/// every later one.
pub proof fn lemma_strict_pairs<T: Ord>(s: Seq<T>)
    requires
        total_order::<T>(),
        strictly_increasing(s),
    ensures
        forall|i: int, j: int| 0 <= i < j < s.len() ==> lt_spec(s[i], s[j]),
{
    lemma_total_order_local::<T>();
    assert forall|i: int, j: int| 0 <= i < j < s.len() implies lt_spec(s[i], s[j]) by {
        lemma_strict_step(s, i, j);
    }
}

proof fn lemma_strict_step<T: Ord>(s: Seq<T>, i: int, j: int)
    requires
        total_order::<T>(),
        strictly_increasing(s),
        0 <= i < j < s.len(),
    ensures
        lt_spec(s[i], s[j]),
    decreases j - i,
{
    lemma_total_order_local::<T>();
    if j == i + 1 {
        assert(lt_spec(s[i], s[i + 1]));
    } else {
        lemma_strict_step(s, i, j - 1);
        let k = j - 1;
        assert(lt_spec(s[k], s[k + 1]));
    }
}

/// A strictly increasing sequence with the same values as a non-decreasing
/// sequence `s` is `s` with its consecutive duplicates collapsed. This is
/// the shape of a merge with one empty source: what comes out is the other
/// source's distinct values in their original order.
pub proof fn lemma_sorted_same_set_is_dedup<T: Ord>(out: Seq<T>, s: Seq<T>)
    requires
        total_order::<T>(),
        strictly_increasing(out),
        non_decreasing(s),
        out.to_set() == s.to_set(),
    ensures
        out == dedup(s),
{
    lemma_dedup_strict(s);
    lemma_dedup_set(s);
    lemma_strictly_increasing_unique(out, dedup(s));
}

/// Appending a value adds exactly it to the set of values.
pub proof fn lemma_push_set<A>(s: Seq<A>, x: A)
    ensures
        s.push(x).to_set() == s.to_set().insert(x),
{
    assert forall|y: A| s.push(x).to_set().contains(y) implies s.to_set().insert(x).contains(
        y,
    ) by {
        let i = choose|i: int| 0 <= i < s.push(x).len() && s.push(x)[i] == y;
        if i < s.len() {
            assert(s[i] == y);
        }
    }
    assert forall|y: A| s.to_set().insert(x).contains(y) implies s.push(x).to_set().contains(
        y,
    ) by {
        if y == x {
            assert(s.push(x)[s.len() as int] == y);
        } else {
            let i = choose|i: int| 0 <= i < s.len() && s[i] == y;
            assert(s.push(x)[i] == y);
        }
    }
    assert(s.push(x).to_set() =~= s.to_set().insert(x));
}

/// Dropping the head removes at most it from the set of values.
pub proof fn lemma_head_set<A>(s: Seq<A>)
    requires
        s.len() > 0,
    ensures
        s.to_set() == s.drop_first().to_set().insert(s[0]),
{
    assert forall|y: A| s.to_set().contains(y) implies s.drop_first().to_set().insert(
        s[0],
    ).contains(y) by {
        let i = choose|i: int| 0 <= i < s.len() && s[i] == y;
        if i > 0 {
            assert(s.drop_first()[i - 1] == y);
        }
    }
    assert forall|y: A| s.drop_first().to_set().insert(s[0]).contains(y) implies s.to_set()
        .contains(y) by {
        if y == s[0] {
            assert(s[0] == y);
        } else {
            let i = choose|i: int| 0 <= i < s.drop_first().len() && s.drop_first()[i] == y;
            assert(s[i + 1] == y);
        }
    }
    assert(s.to_set() =~= s.drop_first().to_set().insert(s[0]));
}

/// Reading the suffix of a sequence held in reverse: popping the last
/// element of the reversed suffix yields the suffix's first element.
pub proof fn lemma_reverse_skip<A>(s: Seq<A>, n: int)
    requires
        0 <= n < s.len(),
    ensures
        s.skip(n).reverse().len() == s.len() - n,
        s.skip(n).reverse().last() == s[n],
        s.skip(n).reverse().drop_last() == s.skip(n + 1).reverse(),
{
    assert(s.skip(n).reverse().drop_last() =~= s.skip(n + 1).reverse());
}

proof fn lemma_total_order_local<T: Ord>()
    requires
        total_order::<T>(),
    ensures
        T::obeys_cmp_spec(),
        forall|a: T, b: T| (#[trigger] a.cmp_spec(&b)) == core::cmp::Ordering::Equal <==> a == b,
        forall|a: T, b: T|
            (#[trigger] a.cmp_spec(&b)) == core::cmp::Ordering::Less <==> b.cmp_spec(&a)
                == core::cmp::Ordering::Greater,
        forall|a: T, b: T, c: T|
            #[trigger] lt_spec(a, b) && #[trigger] lt_spec(b, c) ==> lt_spec(a, c),
{
    crate::order::lemma_total_order::<T>();
}

} // verus!
