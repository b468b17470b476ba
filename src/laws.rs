//! Properties of the leaderboard that relate several operations, stated over
//! the same spec functions that the operations' contracts use.
use vstd::prelude::*;
use crate::expiry::next_midnight_spec;
use crate::standings::{
    added_score, holds_member, index_of, is_ranked, lemma_place, lemma_score_at, lemma_slot,
    lemma_with_added, lemma_without, members_distinct, score_of, slot, top_count, top_of,
    well_ranked, with_added, without, EntryView, MAX_TOP,
};
use crate::store::{after_removal, boards_ok, live_entries, BoardView};

verus! {

/// A key without entries lists nothing, and removing any member from it
/// removes nothing and changes nothing.
pub proof fn law_empty_key(
    m: Map<Seq<char>, BoardView>,
    key: Seq<char>,
    member: Seq<char>,
    limit: nat,
    now: int,
)
    requires
        live_entries(m, key, now).len() == 0,
    ensures
        top_of(live_entries(m, key, now), limit).len() == 0,
        !holds_member(live_entries(m, key, now), member),
        after_removal(m, key, member, now) == m,
{
}

/// Two score additions for one member within the same day leave a single
/// entry for that member, whose score has grown by the sum of both deltas.
pub proof fn law_add_twice(
    m: Map<Seq<char>, BoardView>,
    key: Seq<char>,
    member: Seq<char>,
    d1: int,
    d2: int,
    t1: int,
    t2: int,
)
    requires
        boards_ok(m),
        t1 <= t2 < next_midnight_spec(t1),
    ensures
        ({
            let s0 = live_entries(m, key, t1);
            let m1 = m.insert(key, (with_added(s0, member, d1), next_midnight_spec(t1)));
            let s2 = with_added(live_entries(m1, key, t2), member, d2);
            &&& live_entries(m1, key, t2) == with_added(s0, member, d1)
            &&& score_of(s2, member) == Some(added_score(s0, member, d1 + d2))
            &&& forall|i: int, j: int|
                0 <= i < s2.len() && 0 <= j < s2.len() && s2[i].0 == member && s2[j].0 == member
                    ==> i == j
        }),
{
    let s0 = live_entries(m, key, t1);
    assert(well_ranked(s0));
    lemma_with_added(s0, member, d1);
    let s1 = with_added(s0, member, d1);
    lemma_with_added(s1, member, d2);
    let s2 = with_added(s1, member, d2);
    assert forall|i: int, j: int|
        0 <= i < s2.len() && 0 <= j < s2.len() && s2[i].0 == member && s2[j].0 == member
            implies i == j by {
        if i < j {
            assert(s2[i].0 != s2[j].0);
        } else if j < i {
            assert(s2[j].0 != s2[i].0);
        }
    }
}

/// A top-N listing is ranked: scores never increase along it, and no member
/// appears twice.
pub proof fn law_top_ranked(s: Seq<EntryView>, limit: nat)
    requires
        well_ranked(s),
    ensures
        forall|i: int, j: int|
            0 <= i < j < top_of(s, limit).len() ==> top_of(s, limit)[i].1 >= top_of(s, limit)[j].1,
        members_distinct(top_of(s, limit)),
{
}

/// Without a write in between, a leaderboard lists the same entries in the
/// same order at any two instants before its expiry instant.
pub proof fn law_top_repeatable(
    m: Map<Seq<char>, BoardView>,
    key: Seq<char>,
    limit: nat,
    now1: int,
    now2: int,
)
    requires
        m.contains_key(key),
        now1 < m[key].1,
        now2 < m[key].1,
    ensures
        top_of(live_entries(m, key, now1), limit) == top_of(live_entries(m, key, now2), limit),
{
}

/// Equal scores rank by when they were reached: after a score change, the
/// member stands behind every other member that has the same score.
pub proof fn law_tie_order(s: Seq<EntryView>, member: Seq<char>, delta: int)
    requires
        well_ranked(s),
    ensures
        ({
            let t = with_added(s, member, delta);
            let p = index_of(t, member);
            forall|j: int| 0 <= j < t.len() && j != p && t[j].1 == t[p].1 ==> j < p
        }),
{
    let w = without(s, member);
    let x = added_score(s, member, delta);
    lemma_without(s, member);
    lemma_place(w, (member, x));
    lemma_slot(w, x, 0);
    let p = slot(w, x);
    let t = with_added(s, member, delta);
    assert(t[p].0 == member);
    lemma_score_at(t, p);
    assert forall|j: int| 0 <= j < t.len() && j != p && t[j].1 == t[p].1 implies j < p by {
        if j > p {
            assert(t[j] == w[j - 1]);
        }
    }
}

/// A top-N listing never holds more than N entries, nor more than 100.
pub proof fn law_top_bounded(s: Seq<EntryView>, limit: nat)
    ensures
        top_of(s, limit).len() <= limit,
        top_of(s, limit).len() <= MAX_TOP,
        top_of(s, limit).len() <= s.len(),
{
    assert(top_count(s, limit) <= limit);
}

/// Once a member is removed, no listing of its leaderboard holds it.
pub proof fn law_removed_member_gone(
    m: Map<Seq<char>, BoardView>,
    key: Seq<char>,
    member: Seq<char>,
    now: int,
    limit: nat,
)
    requires
        boards_ok(m),
    ensures
        ({
            let s = live_entries(after_removal(m, key, member, now), key, now);
            &&& !holds_member(s, member)
            &&& forall|i: int| 0 <= i < top_of(s, limit).len() ==> top_of(s, limit)[i].0 != member
        }),
{
    let s0 = live_entries(m, key, now);
    assert(well_ranked(s0));
    lemma_without(s0, member);
    let s = live_entries(after_removal(m, key, member, now), key, now);
    assert forall|i: int| 0 <= i < top_of(s, limit).len() implies top_of(s, limit)[i].0 != member by {
        assert(top_of(s, limit)[i] == s[i]);
    }
}

/// A leaderboard written at `t1` shows its standings until the first
/// midnight after `t1`, and nothing from that instant on.
pub proof fn law_daily_expiry(
    m: Map<Seq<char>, BoardView>,
    key: Seq<char>,
    entries: Seq<EntryView>,
    t1: int,
    t2: int,
)
    requires
        t1 <= t2,
    ensures
        ({
            let m1 = m.insert(key, (entries, next_midnight_spec(t1)));
            &&& t2 < next_midnight_spec(t1) ==> live_entries(m1, key, t2) == entries
            &&& t2 >= next_midnight_spec(t1) ==> live_entries(m1, key, t2).len() == 0
        }),
{
}

} // verus!
