//! What the sentences speak of: a row of truth values, one for each position.
//!
//! Rows are indexed from 0 here; the sentences count positions from 1.

use vstd::prelude::*;

verus! {

/// The test that an entry equals `truth`.
pub open spec fn equals(truth: bool) -> spec_fn(bool) -> bool {
    |entry: bool| entry == truth
}

/// How many entries of `truths` equal `truth`.
pub open spec fn count_of(truths: Seq<bool>, truth: bool) -> nat {
    truths.filter(equals(truth)).len()
}

/// The number of maximal runs of equal neighbouring entries: none in an empty
/// row, and otherwise one more than the number of entries that differ from
/// the entry before them.
pub open spec fn groups(truths: Seq<bool>) -> nat
    decreases truths.len(),
{
    if truths.len() == 0 {
        0
    } else if truths.len() == 1 {
        1
    } else if truths[truths.len() - 1] != truths[truths.len() - 2] {
        groups(truths.drop_last()) + 1
    } else {
        groups(truths.drop_last())
    }
}

/// An entry at exactly `distance` steps from index `at`, on either side,
/// equals `truth`.
pub open spec fn hit_at(truths: Seq<bool>, at: int, truth: bool, distance: int) -> bool {
    ||| (0 <= at - distance < truths.len() && truths[at - distance] == truth)
    ||| (0 <= at + distance < truths.len() && truths[at + distance] == truth)
}

/// The nearest entry to index `at` that equals `truth`, the entry at `at`
/// itself left aside, is exactly `distance` steps away. For the distance 0
/// this says that the entry at `at` itself equals `truth`.
pub open spec fn closest_is(truths: Seq<bool>, at: int, truth: bool, distance: int) -> bool {
    &&& hit_at(truths, at, truth, distance)
    &&& forall|nearer: int|
        1 <= nearer < distance ==> !#[trigger] hit_at(truths, at, truth, nearer)
}

/// The distance from index `at` to the nearest other entry that equals
/// `truth`, or 0 where no other entry does.
pub open spec fn nearest(truths: Seq<bool>, at: int, truth: bool) -> int {
    if exists|distance: int| 1 <= distance && closest_is(truths, at, truth, distance) {
        choose|distance: int| 1 <= distance && closest_is(truths, at, truth, distance)
    } else {
        0
    }
}

/// Counting one entry more adds one if that entry equals `truth`.
pub proof fn lemma_count_of_push(truths: Seq<bool>, entry: bool, truth: bool)
    ensures
        count_of(truths.push(entry), truth) == count_of(truths, truth) + if entry == truth {
            1int
        } else {
            0int
        },
{
    truths.lemma_filter_len_push(equals(truth), entry);
}

/// No more entries equal `truth` than the row has.
pub proof fn lemma_count_of_bound(truths: Seq<bool>, truth: bool)
    ensures
        count_of(truths, truth) <= truths.len(),
{
    truths.lemma_filter_len(equals(truth));
}

/// A row that is not empty has at least one group and at most as many as it
/// has entries.
pub proof fn lemma_groups_bound(truths: Seq<bool>)
    ensures
        groups(truths) <= truths.len(),
        truths.len() > 0 ==> groups(truths) >= 1,
    decreases truths.len(),
{
    if truths.len() > 1 {
        lemma_groups_bound(truths.drop_last());
    }
}

/// At most one distance from 1 on is that of the nearest matching entry.
pub proof fn lemma_closest_is_unique(
    truths: Seq<bool>,
    at: int,
    truth: bool,
    first: int,
    second: int,
)
    requires
        1 <= first,
        1 <= second,
        closest_is(truths, at, truth, first),
        closest_is(truths, at, truth, second),
    ensures
        first == second,
{
    if first < second {
        assert(!hit_at(truths, at, truth, first));
    } else if second < first {
        assert(!hit_at(truths, at, truth, second));
    }
}

/// `nearest` is 0 exactly where no other entry equals `truth`; otherwise it is
/// the one distance for which `closest_is` holds, and is less than the row's
/// length.
pub proof fn lemma_nearest(truths: Seq<bool>, at: int, truth: bool)
    requires
        0 <= at < truths.len(),
    ensures
        0 <= nearest(truths, at, truth) < truths.len(),
        nearest(truths, at, truth) == 0 <==> forall|other: int|
            0 <= other < truths.len() && other != at ==> truths[other] != truth,
        nearest(truths, at, truth) != 0 ==> closest_is(
            truths,
            at,
            truth,
            nearest(truths, at, truth),
        ),
        forall|distance: int|
            1 <= distance && #[trigger] closest_is(truths, at, truth, distance) ==> distance
                == nearest(truths, at, truth),
{
    let found: int = nearest(truths, at, truth);
    if exists|distance: int| 1 <= distance && closest_is(truths, at, truth, distance) {
        assert(1 <= found && closest_is(truths, at, truth, found));
        assert(hit_at(truths, at, truth, found));
        if 0 <= at - found < truths.len() && truths[at - found] == truth {
            assert(truths[at - found] == truth);
        } else {
            assert(truths[at + found] == truth);
        }
        assert forall|distance: int|
            1 <= distance && #[trigger] closest_is(truths, at, truth, distance) implies distance
            == found by {
            lemma_closest_is_unique(truths, at, truth, distance, found);
        }
    } else {
        assert forall|other: int|
            0 <= other < truths.len() && other != at implies truths[other] != truth by {
            if truths[other] == truth {
                let away: int = if other < at {
                    at - other
                } else {
                    other - at
                };
                lemma_some_closest(truths, at, truth, away);
            }
        }
    }
}

/// Where some entry at `distance` steps matches, the nearest matching entry is
/// at some distance from 1 to `distance`.
proof fn lemma_some_closest(truths: Seq<bool>, at: int, truth: bool, distance: int)
    requires
        1 <= distance,
        hit_at(truths, at, truth, distance),
    ensures
        exists|least: int| 1 <= least <= distance && closest_is(truths, at, truth, least),
    decreases distance,
{
    if exists|nearer: int| 1 <= nearer < distance && hit_at(truths, at, truth, nearer) {
        let nearer: int = choose|nearer: int|
            1 <= nearer < distance && hit_at(truths, at, truth, nearer);
        lemma_some_closest(truths, at, truth, nearer);
    } else {
        assert(closest_is(truths, at, truth, distance));
    }
}

/// Counts the entries of `truths` that equal `truth`.
pub fn count_matching(truths: &Vec<bool>, truth: bool) -> (count: usize)
    ensures
        count == count_of(truths@, truth),
        count <= truths.len(),
{
    let mut count: usize = 0;
    let mut i: usize = 0;
    while i < truths.len()
        invariant
            i <= truths.len(),
            count <= i,
            count == count_of(truths@.take(i as int), truth),
        decreases truths.len() - i,
    {
        proof {
            assert(truths@.take(i + 1) =~= truths@.take(i as int).push(truths@[i as int]));
            lemma_count_of_push(truths@.take(i as int), truths@[i as int], truth);
        }
        if truths[i] == truth {
            count += 1;
        }
        i += 1;
    }
    proof {
        assert(truths@.take(i as int) =~= truths@);
    }
    count
}

/// Counts the maximal runs of equal neighbouring entries of `truths`.
pub fn alternating_groups(truths: &Vec<bool>) -> (count: usize)
    ensures
        count == groups(truths@),
        count <= truths.len(),
{
    if truths.len() == 0 {
        return 0;
    }
    let mut count: usize = 1;
    let mut i: usize = 1;
    while i < truths.len()
        invariant
            1 <= i <= truths.len(),
            count <= i,
            count == groups(truths@.take(i as int)),
        decreases truths.len() - i,
    {
        proof {
            assert(truths@.take(i + 1).drop_last() =~= truths@.take(i as int));
        }
        if truths[i] != truths[i - 1] {
            count += 1;
        }
        i += 1;
    }
    proof {
        assert(truths@.take(i as int) =~= truths@);
    }
    count
}

/// Looks outwards from `position` for the nearest other entry that equals
/// `truth`: at each distance first ahead, then behind. Returns its distance,
/// or 0 where there is none.
pub fn closest_distance(truths: &Vec<bool>, position: usize, truth: bool) -> (distance: usize)
    requires
        position < truths.len(),
    ensures
        distance == nearest(truths@, position as int, truth),
        distance < truths.len(),
{
    let mut i: usize = 1;
    while i < truths.len()
        invariant
            1 <= i,
            position < truths.len(),
            forall|nearer: int|
                1 <= nearer < i ==> !#[trigger] hit_at(truths@, position as int, truth, nearer),
        decreases truths.len() - i,
    {
        if i < truths.len() - position && truths[position + i] == truth {
            proof {
                assert(closest_is(truths@, position as int, truth, i as int));
                lemma_nearest(truths@, position as int, truth);
            }
            return i;
        } else if position >= i && truths[position - i] == truth {
            proof {
                assert(closest_is(truths@, position as int, truth, i as int));
                lemma_nearest(truths@, position as int, truth);
            }
            return i;
        }
        i += 1;
    }
    proof {
        lemma_nearest(truths@, position as int, truth);
        assert forall|other: int|
            0 <= other < truths.len() && other != position implies truths@[other] != truth by {
            let away: int = if other < position {
                position - other
            } else {
                other - position
            };
            assert(!hit_at(truths@, position as int, truth, away));
        }
    }
    0
}

/// Tells whether the nearest entry to `position` that equals `truth` is
/// exactly `distance` steps away: none of the entries closer than that, on
/// either side, equals `truth`, and one of the two at that distance does.
pub fn closest_at(
    truths: &Vec<bool>,
    position: usize,
    truth: bool,
    distance: u32,
) -> (holds: bool)
    requires
        position < truths.len(),
    ensures
        holds == closest_is(truths@, position as int, truth, distance as int),
{
    let length: usize = truths.len();
    let steps: usize = distance as usize;
    let behind: bool = steps <= position && truths[position - steps] == truth;
    let ahead: bool = steps < length - position && truths[position + steps] == truth;
    if !behind && !ahead {
        return false;
    }
    let mut i: usize = 1;
    while i < steps && i < length
        invariant
            1 <= i,
            position < length,
            length == truths.len(),
            steps == distance,
            forall|nearer: int|
                1 <= nearer < i ==> !#[trigger] hit_at(truths@, position as int, truth, nearer),
        decreases length - i,
    {
        let before: bool = i <= position && truths[position - i] == truth;
        let after: bool = i < length - position && truths[position + i] == truth;
        if before || after {
            proof {
                assert(hit_at(truths@, position as int, truth, i as int));
            }
            return false;
        }
        i += 1;
    }
    proof {
        assert(hit_at(truths@, position as int, truth, distance as int));
        assert forall|nearer: int| 1 <= nearer < distance implies !#[trigger] hit_at(
            truths@,
            position as int,
            truth,
            nearer,
        ) by {}
    }
    true
}

} // verus!
