use vstd::prelude::*;
use std::collections::HashMap;
use crate::text::{
    base_name, file_name_of, is_note_name, note_name, sorted_insert, strict_sorted, views_of,
};

verus! {

broadcast use vstd::std_specs::hash::group_hash_axioms;

/// One visited commit that fell in the queried month: the day of the month
/// it was made on, and the paths its snapshot changed relative to its
/// parent's snapshot.
pub struct DayChange {
    pub day: u32,
    pub paths: Vec<String>,
}

/// Whether `n` is reported for day `d`: some change on day `d` touched a
/// path carrying the tracked note extension whose filename component is `n`.
pub open spec fn day_has_name(changes: Seq<DayChange>, d: u32, n: Seq<char>) -> bool {
    exists|a: int, b: int|
        0 <= a < changes.len() && 0 <= b < changes[a].paths@.len() && changes[a].day == d
            && is_note_name(base_name(changes[a].paths@[b]@)) && n == base_name(
            changes[a].paths@[b]@,
        )
}

/// The same, restricted to the changes before position `a` = `i`, `b` = `j`
/// in the traversal order; used to state loop invariants.
pub open spec fn day_has_name_upto(
    changes: Seq<DayChange>,
    i: int,
    j: int,
    d: u32,
    n: Seq<char>,
) -> bool {
    exists|a: int, b: int|
        0 <= a < changes.len() && 0 <= b < changes[a].paths@.len() && (a < i || (a == i && b < j))
            && changes[a].day == d && is_note_name(base_name(changes[a].paths@[b]@)) && n
            == base_name(changes[a].paths@[b]@)
}

/// A day-bucket mapping is well formed when every bucket is a nonempty,
/// strictly sorted (hence duplicate-free) list of note filenames.
pub open spec fn buckets_wf(m: Map<u32, Vec<String>>) -> bool {
    forall|d: u32| #[trigger]
        m.contains_key(d) ==> strict_sorted(views_of(m[d]@)) && m[d]@.len() > 0 && (forall|k: int|
            0 <= k < m[d]@.len() ==> is_note_name(#[trigger] m[d]@[k]@))
}

/// Aggregates the changed paths of the visited commits into day buckets:
/// a day maps to the lexicographically sorted, duplicate-free filenames of
/// the note files changed that day, and only days with at least one such
/// file appear.
pub fn bucket_day_changes(changes: &Vec<DayChange>) -> (m: HashMap<u32, Vec<String>>)
    ensures
        buckets_wf(m@),
        forall|d: u32, n: Seq<char>|
            #![trigger day_has_name(changes@, d, n)]
            #![trigger views_of(m@[d]@).contains(n)]
            day_has_name(changes@, d, n) <==> (m@.contains_key(d) && views_of(m@[d]@).contains(n)),
{
    let mut m: HashMap<u32, Vec<String>> = HashMap::new();
    let mut i: usize = 0;
    while i < changes.len()
        invariant
            0 <= i <= changes.len(),
            buckets_wf(m@),
            forall|d: u32, n: Seq<char>|
                #![trigger day_has_name_upto(changes@, i as int, 0, d, n)]
                #![trigger views_of(m@[d]@).contains(n)]
                day_has_name_upto(changes@, i as int, 0, d, n) <==> (m@.contains_key(d)
                    && views_of(m@[d]@).contains(n)),
        decreases changes.len() - i,
    {
        let day = changes[i].day;
        let npaths = changes[i].paths.len();
        let mut j: usize = 0;
        while j < npaths
            invariant
                0 <= i < changes.len(),
                0 <= j <= npaths,
                npaths == changes@[i as int].paths@.len(),
                day == changes@[i as int].day,
                buckets_wf(m@),
                forall|d: u32, n: Seq<char>|
                    #![trigger day_has_name_upto(changes@, i as int, j as int, d, n)]
                    #![trigger views_of(m@[d]@).contains(n)]
                    day_has_name_upto(changes@, i as int, j as int, d, n) <==> (
                    m@.contains_key(d) && views_of(m@[d]@).contains(n)),
            decreases npaths - j,
        {
            let name = file_name_of(changes[i].paths[j].as_str());
            if note_name(name.as_str()) {
                let ghost pre = m@;
                let ghost nview = name@;
                if m.contains_key(&day) {
                    let mut v = m.remove(&day).unwrap();
                    sorted_insert(&mut v, name);
                    m.insert(day, v);
                } else {
                    let mut v: Vec<String> = Vec::new();
                    sorted_insert(&mut v, name);
                    m.insert(day, v);
                }
                proof {
                    assert forall|d: u32, n: Seq<char>|
                        #![trigger day_has_name_upto(changes@, i as int, j + 1, d, n)]
                        day_has_name_upto(changes@, i as int, j + 1, d, n) implies (
                    m@.contains_key(d) && views_of(m@[d]@).contains(n)) by {
                        let (a, b) = choose|a: int, b: int|
                            0 <= a < changes@.len() && 0 <= b < changes@[a].paths@.len() && (a
                                < i as int || (a == i as int && b < j + 1)) && changes@[a].day == d
                                && is_note_name(base_name(changes@[a].paths@[b]@)) && n
                                == base_name(changes@[a].paths@[b]@);
                        if a == i as int && b == j as int {
                            assert(d == day && n == nview);
                        } else {
                            assert(day_has_name_upto(changes@, i as int, j as int, d, n));
                            assert(pre.contains_key(d) && views_of(pre[d]@).contains(n));
                            if d == day {
                                assert(views_of(m@[d]@).contains(n));
                            }
                        }
                    }
                    assert forall|d: u32, n: Seq<char>|
                        #![trigger views_of(m@[d]@).contains(n)]
                        (m@.contains_key(d) && views_of(m@[d]@).contains(n)) implies
                        day_has_name_upto(changes@, i as int, j + 1, d, n) by {
                        if d == day {
                            if n == nview {
                                assert(day_has_name_upto(changes@, i as int, j + 1, d, n)) by {
                                    let a = i as int;
                                    let b = j as int;
                                    assert(0 <= a < changes@.len() && 0 <= b
                                        < changes@[a].paths@.len() && (a < i as int || (a == i as int
                                        && b < j + 1)) && changes@[a].day == d && is_note_name(
                                        base_name(changes@[a].paths@[b]@),
                                    ) && n == base_name(changes@[a].paths@[b]@));
                                }
                            } else {
                                assert(pre.contains_key(d) && views_of(pre[d]@).contains(n));
                                assert(day_has_name_upto(changes@, i as int, j as int, d, n));
                                let (a, b) = choose|a: int, b: int|
                                    0 <= a < changes@.len() && 0 <= b < changes@[a].paths@.len()
                                        && (a < i as int || (a == i as int && b < j as int))
                                        && changes@[a].day == d && is_note_name(
                                        base_name(changes@[a].paths@[b]@),
                                    ) && n == base_name(changes@[a].paths@[b]@);
                                assert(day_has_name_upto(changes@, i as int, j + 1, d, n));
                            }
                        } else {
                            assert(m@[d] == pre[d]);
                            assert(day_has_name_upto(changes@, i as int, j as int, d, n));
                            let (a, b) = choose|a: int, b: int|
                                0 <= a < changes@.len() && 0 <= b < changes@[a].paths@.len() && (a
                                    < i as int || (a == i as int && b < j as int))
                                    && changes@[a].day == d && is_note_name(
                                    base_name(changes@[a].paths@[b]@),
                                ) && n == base_name(changes@[a].paths@[b]@);
                            assert(day_has_name_upto(changes@, i as int, j + 1, d, n));
                        }
                    }
                    assert forall|d: u32| #[trigger] m@.contains_key(d) implies strict_sorted(
                        views_of(m@[d]@),
                    ) && m@[d]@.len() > 0 && (forall|k: int|
                        0 <= k < m@[d]@.len() ==> is_note_name(#[trigger] m@[d]@[k]@)) by {
                        if d == day {
                            assert(views_of(m@[d]@).contains(nview));
                            assert(views_of(m@[d]@).len() > 0);
                            assert forall|k: int| 0 <= k < m@[d]@.len() implies is_note_name(
                                #[trigger] m@[d]@[k]@,
                            ) by {
                                assert(views_of(m@[d]@)[k] == m@[d]@[k]@);
                                assert(views_of(m@[d]@).contains(m@[d]@[k]@));
                                if pre.contains_key(d) && views_of(pre[d]@).contains(m@[d]@[k]@) {
                                    let x = m@[d]@[k]@;
                                    let q = choose|q: int|
                                        0 <= q < views_of(pre[d]@).len() && views_of(pre[d]@)[q]
                                            == x;
                                    assert(is_note_name(pre[d]@[q]@));
                                }
                            }
                        } else {
                            assert(m@[d] == pre[d]);
                        }
                    }
                }
            } else {
                proof {
                    assert forall|d: u32, n: Seq<char>|
                        #![trigger day_has_name_upto(changes@, i as int, j + 1, d, n)]
                        day_has_name_upto(changes@, i as int, j + 1, d, n) implies
                        day_has_name_upto(changes@, i as int, j as int, d, n) by {
                        let (a, b) = choose|a: int, b: int|
                            0 <= a < changes@.len() && 0 <= b < changes@[a].paths@.len() && (a
                                < i as int || (a == i as int && b < j + 1)) && changes@[a].day == d
                                && is_note_name(base_name(changes@[a].paths@[b]@)) && n
                                == base_name(changes@[a].paths@[b]@);
                        assert(!(a == i as int && b == j as int));
                    }
                    assert forall|d: u32, n: Seq<char>|
                        #![trigger day_has_name_upto(changes@, i as int, j as int, d, n)]
                        day_has_name_upto(changes@, i as int, j as int, d, n) implies
                        day_has_name_upto(changes@, i as int, j + 1, d, n) by {
                        let (a, b) = choose|a: int, b: int|
                            0 <= a < changes@.len() && 0 <= b < changes@[a].paths@.len() && (a
                                < i as int || (a == i as int && b < j as int)) && changes@[a].day
                                == d && is_note_name(base_name(changes@[a].paths@[b]@)) && n
                                == base_name(changes@[a].paths@[b]@);
                        assert(day_has_name_upto(changes@, i as int, j + 1, d, n));
                    }
                }
            }
            j = j + 1;
        }
        proof {
            assert forall|d: u32, n: Seq<char>|
                #![trigger day_has_name_upto(changes@, i + 1, 0, d, n)]
                day_has_name_upto(changes@, i + 1, 0, d, n) implies day_has_name_upto(
                changes@,
                i as int,
                npaths as int,
                d,
                n,
            ) by {
                let (a, b) = choose|a: int, b: int|
                    0 <= a < changes@.len() && 0 <= b < changes@[a].paths@.len() && (a < i + 1 || (a
                        == i + 1 && b < 0)) && changes@[a].day == d && is_note_name(
                        base_name(changes@[a].paths@[b]@),
                    ) && n == base_name(changes@[a].paths@[b]@);
                assert(a < i as int || (a == i as int && b < npaths as int));
                assert(day_has_name_upto(changes@, i as int, npaths as int, d, n));
            }
            assert forall|d: u32, n: Seq<char>|
                #![trigger day_has_name_upto(changes@, i as int, npaths as int, d, n)]
                day_has_name_upto(changes@, i as int, npaths as int, d, n) implies
                day_has_name_upto(changes@, i + 1, 0, d, n) by {
                let (a, b) = choose|a: int, b: int|
                    0 <= a < changes@.len() && 0 <= b < changes@[a].paths@.len() && (a < i as int
                        || (a == i as int && b < npaths as int)) && changes@[a].day == d
                        && is_note_name(base_name(changes@[a].paths@[b]@)) && n == base_name(
                        changes@[a].paths@[b]@,
                    );
                assert(day_has_name_upto(changes@, i + 1, 0, d, n));
            }
        }
        i = i + 1;
    }
    proof {
        assert forall|d: u32, n: Seq<char>|
            #![trigger day_has_name(changes@, d, n)]
            day_has_name(changes@, d, n) implies day_has_name_upto(
            changes@,
            changes@.len() as int,
            0,
            d,
            n,
        ) by {
            let (a, b) = choose|a: int, b: int|
                0 <= a < changes@.len() && 0 <= b < changes@[a].paths@.len() && changes@[a].day == d
                    && is_note_name(base_name(changes@[a].paths@[b]@)) && n == base_name(
                    changes@[a].paths@[b]@,
                );
            assert(day_has_name_upto(changes@, changes@.len() as int, 0, d, n));
        }
        assert forall|d: u32, n: Seq<char>|
            #![trigger day_has_name_upto(changes@, changes@.len() as int, 0, d, n)]
            day_has_name_upto(changes@, changes@.len() as int, 0, d, n) implies day_has_name(
            changes@,
            d,
            n,
        ) by {
            let (a, b) = choose|a: int, b: int|
                0 <= a < changes@.len() && 0 <= b < changes@[a].paths@.len() && (a
                    < changes@.len() as int || (a == changes@.len() as int && b < 0))
                    && changes@[a].day == d && is_note_name(base_name(changes@[a].paths@[b]@)) && n
                    == base_name(changes@[a].paths@[b]@);
            assert(day_has_name(changes@, d, n));
        }
    }
    m
}

} // verus!
