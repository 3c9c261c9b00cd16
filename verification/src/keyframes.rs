//! Keyframe times: in order, and no two of them at the same moment.
use crate::binary64::{
    difference, lemma_nearest_monotone, lemma_sum_exists, lemma_weight_order, lemma_weight_zero,
    nearest, sum, weight, Binary64, INFINITY,
};
use crate::media_info::ascending;
use vstd::prelude::*;
use vstd::seq_lib::group_to_multiset_ensures;

verus! {

/// A thousandth of a second.
pub const MILLISECOND: u64 = 0x3F50_624D_D2F1_A9FC;

/// The times that are told.
pub open spec fn told(readings: Seq<Option<Binary64>>) -> Seq<Binary64>
    decreases readings.len(),
{
    if readings.len() == 0 {
        Seq::empty()
    } else {
        let before = told(readings.drop_last());
        match readings.last() {
            Some(t) => before.push(t),
            None => before,
        }
    }
}

/// `times` with `t` before the times at its end that are after it.
pub open spec fn inserted(times: Seq<Binary64>, t: Binary64) -> Seq<Binary64>
    decreases times.len(),
{
    if times.len() > 0 && t.less(times.last()) {
        inserted(times.drop_last(), t).push(times.last())
    } else {
        times.push(t)
    }
}

/// `times` in ascending order, equal ones in the order in which they stand.
pub open spec fn sorted(times: Seq<Binary64>) -> Seq<Binary64>
    decreases times.len(),
{
    if times.len() == 0 {
        Seq::empty()
    } else {
        inserted(sorted(times.drop_last()), times.last())
    }
}

/// Whether `a` and `b` are less than a millisecond apart.
pub open spec fn close(a: Binary64, b: Binary64) -> bool {
    difference(a, b).absolute().less(Binary64 { bits: MILLISECOND })
}

/// `times` without those that are less than a millisecond after the last one that is kept.
pub open spec fn spaced(times: Seq<Binary64>) -> Seq<Binary64>
    decreases times.len(),
{
    if times.len() == 0 {
        Seq::empty()
    } else {
        let kept = spaced(times.drop_last());
        if kept.len() > 0 && close(times.last(), kept.last()) {
            kept
        } else {
            kept.push(times.last())
        }
    }
}

/// The keyframes that readings tell.
pub open spec fn arranged(readings: Seq<Option<Binary64>>) -> Seq<Binary64> {
    spaced(sorted(told(readings)))
}

/// Puts `t` before the times at the end that are after it.
fn insert_in_order(times: &mut Vec<Binary64>, t: Binary64)
    requires
        old(times)@.len() < usize::MAX,
    ensures
        final(times)@ == inserted(old(times)@, t),
{
    let ghost all = times@;
    let mut i: usize = times.len();
    assert(all.take(i as int) =~= all);
    assert(inserted(all, t) =~= inserted(all.take(i as int), t) + all.skip(i as int));
    while i > 0 && t.is_less(times[i - 1])
        invariant
            times@ == all,
            i <= all.len(),
            inserted(all, t) == inserted(all.take(i as int), t) + all.skip(i as int),
        decreases i,
    {
        assert(all.take(i as int).drop_last() =~= all.take(i - 1));
        assert(inserted(all.take(i as int), t) + all.skip(i as int) =~= inserted(
            all.take(i - 1),
            t,
        ) + all.skip(i - 1));
        i = i - 1;
    }
    times.insert(i, t);
    assert(times@ =~= all.take(i as int).push(t) + all.skip(i as int));
}

/// The times in ascending order.
pub fn sort_times(times: &Vec<Binary64>) -> (r: Vec<Binary64>)
    ensures
        r@ == sorted(times@),
        r@.len() == times@.len(),
{
    let mut r: Vec<Binary64> = Vec::new();
    let mut i: usize = 0;
    while i < times.len()
        invariant
            i <= times.len(),
            r@ == sorted(times@.take(i as int)),
            r@.len() == i,
        decreases times.len() - i,
    {
        proof {
            assert(times@.take(i + 1).drop_last() =~= times@.take(i as int));
            lemma_inserted(r@, times@[i as int]);
        }
        insert_in_order(&mut r, times[i]);
        i = i + 1;
    }
    assert(times@.take(i as int) =~= times@);
    r
}

/// Whether `a` and `b` are less than a millisecond apart.
pub fn is_close(a: Binary64, b: Binary64) -> (r: bool)
    ensures
        r == close(a, b),
{
    a.minus(b).abs().is_less(Binary64::from_bits(MILLISECOND))
}

/// The times without those that are less than a millisecond after the last one that is kept.
pub fn space_times(times: &Vec<Binary64>) -> (r: Vec<Binary64>)
    ensures
        r@ == spaced(times@),
{
    let mut r: Vec<Binary64> = Vec::new();
    let mut i: usize = 0;
    while i < times.len()
        invariant
            i <= times.len(),
            r@ == spaced(times@.take(i as int)),
        decreases times.len() - i,
    {
        assert(times@.take(i + 1).drop_last() =~= times@.take(i as int));
        if r.len() == 0 || !is_close(times[i], r[r.len() - 1]) {
            r.push(times[i]);
        }
        i = i + 1;
    }
    assert(times@.take(i as int) =~= times@);
    r
}

/// The keyframes that readings tell: in ascending order, without those that are less than a
/// millisecond after the one before.
pub fn arrange(readings: &Vec<Option<Binary64>>) -> (r: Vec<Binary64>)
    ensures
        r@ == arranged(readings@),
{
    let mut times: Vec<Binary64> = Vec::new();
    let mut i: usize = 0;
    while i < readings.len()
        invariant
            i <= readings.len(),
            times@ == told(readings@.take(i as int)),
        decreases readings.len() - i,
    {
        assert(readings@.take(i + 1).drop_last() =~= readings@.take(i as int));
        if let Some(t) = readings[i] {
            times.push(t);
        }
        i = i + 1;
    }
    assert(readings@.take(i as int) =~= readings@);
    space_times(&sort_times(&times))
}

// ─── Laws ───

/// Whether all of `times` are numbers.
pub open spec fn numbers(times: Seq<Binary64>) -> bool {
    forall|i: int| 0 <= i < times.len() ==> !(#[trigger] times[i]).nan()
}

/// Times are numbers where each of them is one.
pub proof fn lemma_numbers(times: Seq<Binary64>)
    ensures
        numbers(times) <==> forall|i: int| 0 <= i < times.len() ==> !(#[trigger] times[i]).nan(),
{
}

/// Inserting a time adds it and keeps the rest.
proof fn lemma_inserted(times: Seq<Binary64>, t: Binary64)
    ensures
        inserted(times, t).len() == times.len() + 1,
        inserted(times, t).to_multiset() == times.to_multiset().insert(t),
    decreases times.len(),
{
    broadcast use group_to_multiset_ensures;

    if times.len() > 0 && t.less(times.last()) {
        let before = times.drop_last();
        lemma_inserted(before, t);
        assert(before.push(times.last()) =~= times);
        assert(inserted(times, t).to_multiset() =~= times.to_multiset().insert(t));
    }
}

/// Inserting a time keeps the order.
proof fn lemma_inserted_ascending(times: Seq<Binary64>, t: Binary64)
    requires
        ascending(times),
        !t.nan(),
    ensures
        ascending(inserted(times, t)),
        forall|i: int|
            0 <= i < inserted(times, t).len() ==> inserted(times, t)[i] == t || times.contains(
                #[trigger] inserted(times, t)[i],
            ),
    decreases times.len(),
{
    let r = inserted(times, t);
    if times.len() > 0 && t.less(times.last()) {
        let before = times.drop_last();
        let last = times.last();
        assert(ascending(before));
        lemma_inserted_ascending(before, t);
        let p = inserted(before, t);
        assert(r == p.push(last));
        assert forall|i: int| 0 <= i < p.len() implies (#[trigger] p[i]).at_most(last)
            && (p[i] == t || times.contains(p[i])) by {
            if p[i] != t {
                let j = choose|j: int| 0 <= j < before.len() && before[j] == p[i];
                assert(times[j] == p[i]);
                assert(times[j].at_most(times[times.len() - 1]));
            }
        }
        assert(times.contains(last));
        assert forall|i: int, j: int| 0 <= i < j < r.len() implies (#[trigger] r[i]).at_most(
            #[trigger] r[j],
        ) by {
            if j < p.len() {
                assert(p[i].at_most(p[j]));
            }
        }
    } else {
        assert forall|i: int, j: int| 0 <= i < j < r.len() implies (#[trigger] r[i]).at_most(
            #[trigger] r[j],
        ) by {
            if j == times.len() {
                assert(times[i].at_most(times[times.len() - 1]) || i == times.len() - 1);
            }
        }
        assert forall|i: int| 0 <= i < r.len() implies r[i] == t || times.contains(
            #[trigger] r[i],
        ) by {
            if i < times.len() {
                assert(times.contains(times[i]));
            }
        }
    }
}

/// Sorting keeps the times that there are.
pub proof fn lemma_sorted_permutes(times: Seq<Binary64>)
    ensures
        sorted(times).to_multiset() == times.to_multiset(),
    decreases times.len(),
{
    broadcast use group_to_multiset_ensures;

    if times.len() > 0 {
        lemma_sorted_permutes(times.drop_last());
        lemma_inserted(sorted(times.drop_last()), times.last());
        assert(times.drop_last().push(times.last()) =~= times);
    }
}

/// Numbers come out of sorting in ascending order.
pub proof fn lemma_sorted_ascending(times: Seq<Binary64>)
    requires
        numbers(times),
    ensures
        ascending(sorted(times)),
    decreases times.len(),
{
    if times.len() > 0 {
        lemma_sorted_ascending(times.drop_last());
        lemma_inserted_ascending(sorted(times.drop_last()), times.last());
    }
}

/// What spacing keeps stands among the times, in their order.
pub proof fn lemma_spaced_from(times: Seq<Binary64>)
    ensures
        forall|i: int|
            0 <= i < spaced(times).len() ==> times.contains(#[trigger] spaced(times)[i]),
        ascending(times) ==> ascending(spaced(times)),
        times.len() > 0 ==> spaced(times).len() > 0 && spaced(times)[0] == times[0],
    decreases times.len(),
{
    if times.len() > 0 {
        let before = times.drop_last();
        let kept = spaced(before);
        let r = spaced(times);
        lemma_spaced_from(before);
        assert forall|i: int| 0 <= i < r.len() implies times.contains(#[trigger] r[i]) by {
            if i < kept.len() {
                let j = choose|j: int| 0 <= j < before.len() && before[j] == kept[i];
                assert(times[j] == r[i]);
            } else {
                assert(times[times.len() - 1] == r[i]);
            }
        }
        if ascending(times) {
            assert(ascending(before));
            assert forall|i: int, j: int| 0 <= i < j < r.len() implies (#[trigger] r[i]).at_most(
                #[trigger] r[j],
            ) by {
                if j >= kept.len() {
                    let n = choose|n: int| 0 <= n < before.len() && before[n] == kept[i];
                    assert(times[n].at_most(times[times.len() - 1]));
                }
            }
        }
    }
}

/// No two neighbours are less than a millisecond apart after spacing.
pub proof fn lemma_spaced_apart(times: Seq<Binary64>)
    ensures
        forall|i: int|
            0 < i < spaced(times).len() ==> !close(
                #[trigger] spaced(times)[i],
                spaced(times)[i - 1],
            ),
    decreases times.len(),
{
    if times.len() > 0 {
        let kept = spaced(times.drop_last());
        let r = spaced(times);
        lemma_spaced_apart(times.drop_last());
        assert forall|i: int| 0 < i < r.len() implies !close(#[trigger] r[i], r[i - 1]) by {
            if i < kept.len() {
                assert(r[i] == kept[i] && r[i - 1] == kept[i - 1]);
            }
        }
    }
}

/// Whether `t` is `kept`, or is less than a millisecond from it.
pub open spec fn covers(kept: Binary64, t: Binary64) -> bool {
    t == kept || close(t, kept)
}

/// Each time is kept by spacing, or is less than a millisecond from one that is. Of times in
/// ascending order that one is not after it.
pub proof fn lemma_spaced_covers(times: Seq<Binary64>, t: Binary64)
    requires
        times.contains(t),
    ensures
        exists|i: int|
            0 <= i < spaced(times).len() && covers(#[trigger] spaced(times)[i], t) && (ascending(
                times,
            ) ==> spaced(times)[i].at_most(t)),
    decreases times.len(),
{
    let before = times.drop_last();
    let kept = spaced(before);
    let r = spaced(times);
    lemma_spaced_from(before);
    if before.contains(t) {
        lemma_spaced_covers(before, t);
        let i = choose|i: int|
            0 <= i < kept.len() && covers(#[trigger] kept[i], t) && (ascending(before)
                ==> kept[i].at_most(t));
        assert(ascending(times) ==> ascending(before));
        assert(r[i] == kept[i]);
    } else {
        let n = choose|n: int| 0 <= n < times.len() && times[n] == t;
        if n < before.len() {
            assert(before[n] == t);
        }
        assert(t == times.last());
        if kept.len() > 0 && close(t, kept.last()) {
            let j = choose|j: int| 0 <= j < before.len() && before[j] == kept[kept.len() - 1];
            assert(times[j] == kept.last());
            assert(ascending(times) ==> times[j].at_most(times[times.len() - 1]));
            assert(r[r.len() - 1] == kept.last());
        } else {
            assert(r[r.len() - 1] == t);
        }
    }
}

/// The keyframes of a file are in ascending order, and at least a millisecond apart, where all
/// that is told is numbers. Each was told, and each that was told is there or is less than a
/// millisecond after one that is. The first is the least that was told.
pub proof fn lemma_arranged(readings: Seq<Option<Binary64>>)
    requires
        forall|i: int| 0 <= i < told(readings).len() ==> !(#[trigger] told(readings)[i]).nan(),
    ensures
        ascending(arranged(readings)),
        forall|i: int|
            0 < i < arranged(readings).len() ==> !close(
                #[trigger] arranged(readings)[i],
                arranged(readings)[i - 1],
            ),
        forall|i: int|
            0 <= i < arranged(readings).len() ==> told(readings).contains(
                #[trigger] arranged(readings)[i],
            ),
        forall|t: Binary64| #[trigger]
            told(readings).contains(t) ==> exists|i: int|
                0 <= i < arranged(readings).len() && covers(#[trigger] arranged(readings)[i], t)
                    && arranged(readings)[i].at_most(t),
        forall|t: Binary64| #[trigger]
            told(readings).contains(t) ==> arranged(readings).len() > 0
                && arranged(readings)[0].at_most(t),
{
    broadcast use group_to_multiset_ensures;

    let times = told(readings);
    lemma_sorted_ascending(times);
    lemma_sorted_permutes(times);
    lemma_spaced_from(sorted(times));
    lemma_spaced_apart(sorted(times));
    assert forall|t: Binary64| #[trigger] times.contains(t) <==> sorted(times).contains(t) by {
        assert(times.to_multiset().count(t) == sorted(times).to_multiset().count(t));
    }
    assert forall|t: Binary64| #[trigger] times.contains(t) implies arranged(readings).len() > 0
        && arranged(readings)[0].at_most(t) && exists|i: int|
        0 <= i < arranged(readings).len() && covers(#[trigger] arranged(readings)[i], t)
            && arranged(readings)[i].at_most(t) by {
        let all = sorted(times);
        let kept = spaced(all);
        lemma_spaced_covers(all, t);
        let i = choose|i: int|
            0 <= i < kept.len() && covers(#[trigger] kept[i], t) && (ascending(all)
                ==> kept[i].at_most(t));
        assert(arranged(readings)[i] == kept[i]);
        let j = choose|j: int| 0 <= j < all.len() && all[j] == t;
        assert(all[0].at_most(all[j]));
    }
    assert forall|i: int| 0 <= i < arranged(readings).len() implies times.contains(
        #[trigger] arranged(readings)[i],
    ) by {
        assert(sorted(times).contains(arranged(readings)[i]));
    }
}

/// Times that are exactly a millisecond apart or more are not close, and those whose distance is
/// at most the binary64 number below a millisecond are. Between the two, rounding decides.
pub proof fn lemma_close(a: Binary64, b: Binary64)
    requires
        a.finite(),
        b.finite(),
    ensures
        ({
            let d = if a.value() >= b.value() {
                a.value() - b.value()
            } else {
                b.value() - a.value()
            };
            &&& d >= weight(0x3F50_624D_D2F1_A9FC) ==> !close(a, b)
            &&& d <= weight(0x3F50_624D_D2F1_A9FB) ==> close(a, b)
        }),
{
    let c = b.opposite();
    let s = a.value() + c.value();
    let r = sum(a, c);
    lemma_sum_exists(a, c);
    lemma_weight_order(0, MILLISECOND as nat);
    lemma_weight_order(0, (MILLISECOND - 1) as nat);
    lemma_weight_order(r.magnitude(), MILLISECOND as nat);
    if s != 0 {
        let p = if s > 0 { s as nat } else { -s as nat };
        assert(nearest(p, 1, r.magnitude()));
        lemma_nearest_monotone(p, r.magnitude(), MILLISECOND as nat);
        lemma_nearest_monotone(p, r.magnitude(), (MILLISECOND - 1) as nat);
    }
}

/// The times that are told are the readings that are numbers, each once, in their order.
pub proof fn lemma_told_push(readings: Seq<Option<Binary64>>, t: Binary64)
    ensures
        told(Seq::empty()) == Seq::<Binary64>::empty(),
        told(readings.push(Some(t))) == told(readings).push(t),
        told(readings.push(None)) == told(readings),
{
    assert(readings.push(Some(t)).drop_last() =~= readings);
    assert(readings.push(None).drop_last() =~= readings);
}

/// Each reading that is a time is told, and each time that is told is a reading. There are as
/// many of the one as of the other.
pub proof fn lemma_told(readings: Seq<Option<Binary64>>)
    ensures
        forall|i: int|
            0 <= i < readings.len() && #[trigger] readings[i] is Some ==> told(readings).contains(
                readings[i]->0,
            ),
        forall|t: Binary64| #[trigger]
            told(readings).contains(t) ==> readings.contains(Some(t)),
        told(readings).len() == readings.filter(|r: Option<Binary64>| r is Some).len(),
    decreases readings.len(),
{
    reveal(Seq::filter);
    if readings.len() > 0 {
        let before = readings.drop_last();
        let all = told(readings);
        lemma_told(before);
        assert forall|i: int|
            0 <= i < readings.len() && #[trigger] readings[i] is Some implies all.contains(
            readings[i]->0,
        ) by {
            if i < before.len() {
                assert(before[i] is Some);
                let j = choose|j: int|
                    0 <= j < told(before).len() && told(before)[j] == readings[i]->0;
                assert(all[j] == readings[i]->0);
            } else {
                assert(all[all.len() - 1] == readings[i]->0);
            }
        }
        assert forall|t: Binary64| #[trigger] all.contains(t) implies readings.contains(
            Some(t),
        ) by {
            let j = choose|j: int| 0 <= j < all.len() && all[j] == t;
            if j < told(before).len() {
                assert(told(before)[j] == t);
                assert(told(before).contains(t));
                let i = choose|i: int| 0 <= i < before.len() && before[i] == Some(t);
                assert(readings[i] == Some(t));
            } else {
                assert(readings[readings.len() - 1] == Some(t));
            }
        }
    }
}

/// Equal times keep their order: those of one value stand among the sorted times as they stood.
pub proof fn lemma_sorted_stable(times: Seq<Binary64>, v: int)
    ensures
        sorted(times).filter(|t: Binary64| !t.nan() && t.value() == v) == times.filter(
            |t: Binary64| !t.nan() && t.value() == v,
        ),
    decreases times.len(),
{
    reveal(Seq::filter);
    if times.len() > 0 {
        lemma_sorted_stable(times.drop_last(), v);
        lemma_inserted_stable(sorted(times.drop_last()), times.last(), v);
    }
}

proof fn lemma_inserted_stable(times: Seq<Binary64>, t: Binary64, v: int)
    ensures
        ({
            let same = |t: Binary64| !t.nan() && t.value() == v;
            inserted(times, t).filter(same) == if same(t) {
                times.filter(same).push(t)
            } else {
                times.filter(same)
            }
        }),
    decreases times.len(),
{
    reveal(Seq::filter);
    let all = inserted(times, t);
    if times.len() > 0 && t.less(times.last()) {
        lemma_inserted_stable(times.drop_last(), t, v);
        assert(all.drop_last() =~= inserted(times.drop_last(), t));
    } else {
        assert(all.drop_last() =~= times);
    }
}

/// Nothing is close to what is not finite.
pub proof fn lemma_close_infinite(a: Binary64, b: Binary64)
    requires
        !a.finite() || !b.finite(),
    ensures
        !close(a, b),
{
    lemma_sum_exists(a, b.opposite());
    lemma_weight_order(MILLISECOND as nat, INFINITY as nat);
}

/// The keyframes of a file over exact values, in units of two to the -1074 seconds: they ascend,
/// two neighbours are further apart than the number just below a thousandth of a second, and each
/// time that was read has a keyframe that is not after it by a thousandth. The first keyframe is
/// the least time, and each keyframe was read.
pub proof fn lemma_keyframe_values(readings: Seq<Option<Binary64>>)
    requires
        forall|i: int|
            0 <= i < readings.len() && #[trigger] readings[i] is Some
                ==> readings[i]->0.magnitude() < 0x7FF0_0000_0000_0000,
    ensures
        forall|i: int|
            0 < i < arranged(readings).len() ==> (#[trigger] arranged(readings)[i]).value()
                - arranged(readings)[i - 1].value() > weight(0x3F50_624D_D2F1_A9FB),
        forall|i: int|
            0 <= i < arranged(readings).len() ==> readings.contains(
                Some(#[trigger] arranged(readings)[i]),
            ),
        forall|i: int|
            0 <= i < readings.len() && #[trigger] readings[i] is Some ==> exists|k: int|
                0 <= k < arranged(readings).len() && 0 <= readings[i]->0.value() - (
                #[trigger] arranged(readings)[k]).value() < weight(0x3F50_624D_D2F1_A9FC),
        forall|i: int|
            0 <= i < readings.len() && #[trigger] readings[i] is Some ==> arranged(readings).len()
                > 0 && arranged(readings)[0].value() <= readings[i]->0.value(),
{
    let times = told(readings);
    let all = arranged(readings);
    lemma_told(readings);
    assert forall|t: Binary64| #[trigger] times.contains(t) implies t.finite() by {
        let i = choose|i: int| 0 <= i < readings.len() && readings[i] == Some(t);
        assert(readings[i] is Some);
    }
    assert forall|i: int| 0 <= i < times.len() implies !(#[trigger] times[i]).nan() by {
        assert(times.contains(times[i]));
    }
    lemma_arranged(readings);
    lemma_weight_order(0, 0x3F50_624D_D2F1_A9FC);
    lemma_weight_zero();
    assert forall|i: int| 0 <= i < all.len() implies readings.contains(Some(#[trigger] all[i]))
        && all[i].finite() by {
        assert(times.contains(all[i]));
    }
    assert forall|i: int| 0 < i < all.len() implies (#[trigger] all[i]).value() - all[i
        - 1].value() > weight(0x3F50_624D_D2F1_A9FB) by {
        assert(!close(all[i], all[i - 1]));
        assert(all[i].finite() && all[i - 1].finite());
        assert(all[i - 1].at_most(all[i]));
        lemma_close(all[i], all[i - 1]);
    }
    assert forall|i: int|
        0 <= i < readings.len() && #[trigger] readings[i] is Some implies all.len() > 0
        && all[0].value() <= readings[i]->0.value() && exists|k: int|
        0 <= k < all.len() && 0 <= readings[i]->0.value() - (#[trigger] all[k]).value() < weight(
            0x3F50_624D_D2F1_A9FC,
        ) by {
        let t = readings[i]->0;
        assert(times.contains(t));
        let k = choose|k: int|
            0 <= k < all.len() && covers(#[trigger] all[k], t) && all[k].at_most(t);
        assert(all[0].at_most(t));
        assert(all[k].finite());
        lemma_close(t, all[k]);
    }
}

} // verus!
