//! Small helpers: first extremes of a list and the difference of two angles.
use vstd::prelude::*;
use crate::config::UNIT;

verus! {

/// `i` is the first index at which `c` takes its least value.
pub open spec fn is_first_min(c: Seq<i128>, i: int) -> bool {
    &&& 0 <= i < c.len()
    &&& forall|j: int| 0 <= j < c.len() ==> c[i] <= #[trigger] c[j]
    &&& forall|j: int| 0 <= j < i ==> c[i] < #[trigger] c[j]
}

/// `i` is the first index at which `c` takes its greatest value.
pub open spec fn is_first_max(c: Seq<i128>, i: int) -> bool {
    &&& 0 <= i < c.len()
    &&& forall|j: int| 0 <= j < c.len() ==> c[i] >= #[trigger] c[j]
    &&& forall|j: int| 0 <= j < i ==> c[i] > #[trigger] c[j]
}

/// The first index of the least value of a list that is not empty.
pub open spec fn first_min(c: Seq<i128>) -> int {
    choose|i: int| is_first_min(c, i)
}

/// The first index of the greatest value of a list that is not empty.
pub open spec fn first_max(c: Seq<i128>) -> int {
    choose|i: int| is_first_max(c, i)
}

/// There is one first least value only.
pub proof fn lemma_first_min_unique(c: Seq<i128>, i: int)
    requires
        is_first_min(c, i),
    ensures
        first_min(c) == i,
{
    let j = first_min(c);
    assert(is_first_min(c, j));
    if j < i {
        assert(c[i] < c[j]);
        assert(c[j] <= c[i]);
    } else if i < j {
        assert(c[j] < c[i]);
        assert(c[i] <= c[j]);
    }
}

/// There is one first greatest value only.
pub proof fn lemma_first_max_unique(c: Seq<i128>, i: int)
    requires
        is_first_max(c, i),
    ensures
        first_max(c) == i,
{
    let j = first_max(c);
    assert(is_first_max(c, j));
    if j < i {
        assert(c[i] > c[j]);
        assert(c[j] >= c[i]);
    } else if i < j {
        assert(c[j] > c[i]);
        assert(c[i] >= c[j]);
    }
}

/// A list that is not empty has a first least and a first greatest value
/// among its first `n`.
pub proof fn lemma_first_extremes_among(c: Seq<i128>, n: int) -> (r: (int, int))
    requires
        1 <= n <= c.len(),
    ensures
        is_first_min(c.take(n), r.0),
        is_first_max(c.take(n), r.1),
    decreases n,
{
    if n == 1 {
        (0, 0)
    } else {
        let (lo, hi) = lemma_first_extremes_among(c, n - 1);
        let before = c.take(n - 1);
        let now = c.take(n);
        assert forall|j: int| 0 <= j < n - 1 implies #[trigger] now[j] == before[j] by {}
        let lo2 = if c[n - 1] < before[lo] { n - 1 } else { lo };
        let hi2 = if c[n - 1] > before[hi] { n - 1 } else { hi };
        assert(is_first_min(now, lo2)) by {
            assert forall|j: int| 0 <= j < now.len() implies now[lo2] <= #[trigger] now[j] by {
                if j < n - 1 {
                    assert(before[lo] <= before[j]);
                }
            }
            assert forall|j: int| 0 <= j < lo2 implies now[lo2] < #[trigger] now[j] by {
                if lo2 == n - 1 {
                    assert(before[lo] <= before[j]);
                } else {
                    assert(before[lo] < before[j]);
                }
            }
        }
        assert(is_first_max(now, hi2)) by {
            assert forall|j: int| 0 <= j < now.len() implies now[hi2] >= #[trigger] now[j] by {
                if j < n - 1 {
                    assert(before[hi] >= before[j]);
                }
            }
            assert forall|j: int| 0 <= j < hi2 implies now[hi2] > #[trigger] now[j] by {
                if hi2 == n - 1 {
                    assert(before[hi] >= before[j]);
                } else {
                    assert(before[hi] > before[j]);
                }
            }
        }
        (lo2, hi2)
    }
}

/// In a list that is not empty `first_min` and `first_max` are what their
/// names say.
pub proof fn lemma_first_extremes_exist(c: Seq<i128>)
    requires
        c.len() > 0,
    ensures
        is_first_min(c, first_min(c)),
        is_first_max(c, first_max(c)),
{
    let (lo, hi) = lemma_first_extremes_among(c, c.len() as int);
    assert(c.take(c.len() as int) =~= c);
}

/// The least value of the list and the first index that holds it.
pub fn extended_min(collection: &Vec<i128>) -> (r: Option<(i128, usize)>)
    ensures
        collection.len() == 0 ==> r.is_none(),
        collection.len() > 0 ==> r == Some(
            (collection@[first_min(collection@)], first_min(collection@) as usize),
        ) && is_first_min(collection@, first_min(collection@)),
{
    if collection.len() == 0 {
        return None;
    }
    let mut min_obj: i128 = collection[0];
    let mut min_obj_i: usize = 0;
    let mut i: usize = 0;
    while i < collection.len()
        invariant
            0 <= min_obj_i < collection.len(),
            i <= collection.len(),
            min_obj_i <= i,
            min_obj == collection@[min_obj_i as int],
            forall|j: int| 0 <= j < i ==> min_obj <= #[trigger] collection@[j],
            forall|j: int| 0 <= j < min_obj_i ==> min_obj < #[trigger] collection@[j],
        decreases collection.len() - i,
    {
        if collection[i] < min_obj {
            min_obj = collection[i];
            min_obj_i = i;
        }
        i += 1;
    }
    proof {
        lemma_first_min_unique(collection@, min_obj_i as int);
    }
    Some((min_obj, min_obj_i))
}

/// The greatest value of the list and the first index that holds it.
pub fn extended_max(collection: &Vec<i128>) -> (r: Option<(i128, usize)>)
    ensures
        collection.len() == 0 ==> r.is_none(),
        collection.len() > 0 ==> r == Some(
            (collection@[first_max(collection@)], first_max(collection@) as usize),
        ) && is_first_max(collection@, first_max(collection@)),
{
    if collection.len() == 0 {
        return None;
    }
    let mut max_obj: i128 = collection[0];
    let mut max_obj_i: usize = 0;
    let mut i: usize = 0;
    while i < collection.len()
        invariant
            0 <= max_obj_i < collection.len(),
            i <= collection.len(),
            max_obj_i <= i,
            max_obj == collection@[max_obj_i as int],
            forall|j: int| 0 <= j < i ==> max_obj >= #[trigger] collection@[j],
            forall|j: int| 0 <= j < max_obj_i ==> max_obj > #[trigger] collection@[j],
        decreases collection.len() - i,
    {
        if collection[i] > max_obj {
            max_obj = collection[i];
            max_obj_i = i;
        }
        i += 1;
    }
    proof {
        lemma_first_max_unique(collection@, max_obj_i as int);
    }
    Some((max_obj, max_obj_i))
}

/// Half a turn, in degrees scaled by `UNIT`.
pub open spec fn half_turn() -> int {
    180 * UNIT
}

/// The angle between two undirected lines whose directions are `d1` and
/// `d2` degrees, scaled by `UNIT`: between 0 and 90 degrees.
pub open spec fn spec_min_degree_difference(d1: int, d2: int) -> int {
    let apart = if d1 < d2 { d2 - d1 } else { d1 - d2 };
    let diff = apart % half_turn();
    if diff < half_turn() - diff {
        diff
    } else {
        half_turn() - diff
    }
}

/// The angle between two undirected lines whose directions are `d1` and
/// `d2` degrees, scaled by `UNIT`.
pub fn min_degree_difference(d1: i64, d2: i64) -> (r: i64)
    ensures
        r == spec_min_degree_difference(d1 as int, d2 as int),
        0 <= r <= 90 * UNIT,
{
    let apart: i128 = if d1 < d2 { d2 as i128 - d1 as i128 } else { d1 as i128 - d2 as i128 };
    let half: i128 = 180 * (UNIT as i128);
    let diff: i128 = apart % half;
    let other: i128 = if diff - half < 0 { half - diff } else { diff - half };
    if diff < other {
        diff as i64
    } else {
        other as i64
    }
}

/// A direction differs from itself by nothing.
pub proof fn lemma_min_degree_difference_same(d: int)
    ensures
        spec_min_degree_difference(d, d) == 0,
{
    assert(0int % 1800000 == 0);
}

/// A direction and its reverse are the same undirected line.
pub proof fn lemma_min_degree_difference_reverse(d: int)
    ensures
        spec_min_degree_difference(d, d + half_turn()) == 0,
{
}

/// A quarter turn is the largest difference there is.
pub proof fn lemma_min_degree_difference_quarter(d: int)
    ensures
        spec_min_degree_difference(d, d + 90 * UNIT) == 90 * UNIT,
{
    assert(900000int % 1800000 == 900000);
}

} // verus!
