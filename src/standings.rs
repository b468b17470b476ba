//! The standings of one leaderboard: its entries, best first.
//!
//! Entries are kept ordered by descending score. Among equal scores, the
//! member that reached the score earlier ranks first: a member whose score
//! changes joins the end of the group that holds its new score.
use vstd::prelude::*;
use crate::error::StoreError;

verus! {

/// The most entries that one top-N query returns.
pub const MAX_TOP: usize = 100;

/// An entry as a mathematical value: a member and its score.
pub type EntryView = (Seq<char>, int);

pub open spec fn entry_view(e: (String, i64)) -> EntryView {
    (e.0@, e.1 as int)
}

pub open spec fn entries_view(v: Seq<(String, i64)>) -> Seq<EntryView> {
    v.map_values(|e: (String, i64)| entry_view(e))
}

/// Scores never increase along the standings.
pub open spec fn is_ranked(s: Seq<EntryView>) -> bool {
    forall|i: int, j: int| 0 <= i < j < s.len() ==> s[i].1 >= s[j].1
}

/// No member appears twice.
pub open spec fn members_distinct(s: Seq<EntryView>) -> bool {
    forall|i: int, j: int| 0 <= i < j < s.len() ==> s[i].0 != s[j].0
}

pub open spec fn well_ranked(s: Seq<EntryView>) -> bool {
    is_ranked(s) && members_distinct(s)
}

pub open spec fn holds_member(s: Seq<EntryView>, m: Seq<char>) -> bool {
    exists|i: int| 0 <= i < s.len() && s[i].0 == m
}

/// Where member `m` stands; meaningful when it holds `m`.
pub open spec fn index_of(s: Seq<EntryView>, m: Seq<char>) -> int {
    choose|i: int| 0 <= i < s.len() && s[i].0 == m
}

/// The score of member `m`, if it has an entry.
pub open spec fn score_of(s: Seq<EntryView>, m: Seq<char>) -> Option<int> {
    if holds_member(s, m) {
        Some(s[index_of(s, m)].1)
    } else {
        None
    }
}

/// The standings with the entry of `m` taken out.
pub open spec fn without(s: Seq<EntryView>, m: Seq<char>) -> Seq<EntryView> {
    if holds_member(s, m) {
        s.remove(index_of(s, m))
    } else {
        s
    }
}

/// `p` is where an entry of score `x` joins `s`: after every entry whose
/// score is at least `x`, before every entry whose score is lower.
pub open spec fn is_slot(s: Seq<EntryView>, x: int, p: int) -> bool {
    &&& 0 <= p <= s.len()
    &&& forall|i: int| 0 <= i < p ==> s[i].1 >= x
    &&& forall|i: int| p <= i < s.len() ==> s[i].1 < x
}

pub open spec fn slot(s: Seq<EntryView>, x: int) -> int {
    choose|p: int| is_slot(s, x, p)
}

/// The standings with the entry `e` joined in at its slot.
pub open spec fn place(s: Seq<EntryView>, e: EntryView) -> Seq<EntryView> {
    s.insert(slot(s, e.1), e)
}

/// The score of `m` once `delta` is added: its score so far plus `delta`,
/// or `delta` where it has no entry yet.
pub open spec fn added_score(s: Seq<EntryView>, m: Seq<char>, delta: int) -> int {
    match score_of(s, m) {
        Some(v) => v + delta,
        None => delta,
    }
}

/// The standings after `delta` is added to the score of `m`.
pub open spec fn with_added(s: Seq<EntryView>, m: Seq<char>, delta: int) -> Seq<EntryView> {
    place(without(s, m), (m, added_score(s, m, delta)))
}

/// How many entries a top-`limit` query of `s` returns.
pub open spec fn top_count(s: Seq<EntryView>, limit: nat) -> int {
    let cap = if limit < MAX_TOP { limit as int } else { MAX_TOP as int };
    if cap < s.len() { cap } else { s.len() as int }
}

/// What a top-`limit` query of `s` returns.
pub open spec fn top_of(s: Seq<EntryView>, limit: nat) -> Seq<EntryView> {
    s.take(top_count(s, limit))
}

/// In standings without repeated members, the entry at `i` holds the score of its member.
pub proof fn lemma_score_at(s: Seq<EntryView>, i: int)
    requires
        members_distinct(s),
        0 <= i < s.len(),
    ensures
        holds_member(s, s[i].0),
        index_of(s, s[i].0) == i,
        score_of(s, s[i].0) == Some(s[i].1),
{
    let j = index_of(s, s[i].0);
    assert(0 <= j < s.len() && s[j].0 == s[i].0);
}

/// Every score has exactly one slot in ranked standings.
pub proof fn lemma_slot(s: Seq<EntryView>, x: int, p: int)
    requires
        is_ranked(s),
    ensures
        is_slot(s, x, slot(s, x)),
        is_slot(s, x, p) ==> p == slot(s, x),
    decreases s.len(),
{
    if s.len() == 0 {
        assert(is_slot(s, x, 0));
    } else {
        let t = s.drop_last();
        assert(is_ranked(t));
        lemma_slot(t, x, 0);
        let q = slot(t, x);
        let last = s.len() - 1;
        assert(is_slot(t, x, q));
        assert(forall|i: int| 0 <= i < t.len() ==> t[i] == s[i]);
        if q == last && s[last].1 >= x {
            assert(is_slot(s, x, s.len() as int));
        } else if q == last {
            assert(is_slot(s, x, q));
        } else {
            assert(t[q].1 < x);
            assert(s[last].1 <= s[q].1);
            assert(is_slot(s, x, q));
        }
    }
    let r = slot(s, x);
    if is_slot(s, x, p) && p != r {
        if p < r {
            assert(s[p].1 >= x);
        } else {
            assert(s[r].1 >= x);
        }
    }
}

/// Taking a member's entry out keeps the standings ranked and leaves every
/// other member's score as it was.
pub proof fn lemma_without(s: Seq<EntryView>, m: Seq<char>)
    requires
        well_ranked(s),
    ensures
        well_ranked(without(s, m)),
        !holds_member(without(s, m), m),
        forall|o: Seq<char>| o != m ==> score_of(#[trigger] without(s, m), o) == score_of(s, o),
        without(s, m).len() == if holds_member(s, m) { s.len() - 1 } else { s.len() as int },
{
    let w = without(s, m);
    if holds_member(s, m) {
        let k = index_of(s, m);
        assert(forall|i: int| 0 <= i < w.len() ==> #[trigger] w[i] == s[if i < k { i } else { i + 1 }]);
        if holds_member(w, m) {
            let i = choose|i: int| 0 <= i < w.len() && w[i].0 == m;
            assert(s[if i < k { i } else { i + 1 }].0 == m);
        }
        assert forall|o: Seq<char>| o != m implies score_of(w, o) == score_of(s, o) by {
            if holds_member(s, o) {
                let j = index_of(s, o);
                lemma_score_at(s, j);
                let i = if j < k { j } else { j - 1 };
                assert(w[i] == s[j]);
                lemma_score_at(w, i);
            } else if holds_member(w, o) {
                let i = choose|i: int| 0 <= i < w.len() && w[i].0 == o;
                assert(s[if i < k { i } else { i + 1 }].0 == o);
            }
        }
    }
}

/// Joining an entry of a new member in at its slot keeps the standings
/// ranked, gives the member its score, and leaves the others as they were.
pub proof fn lemma_place(s: Seq<EntryView>, e: EntryView)
    requires
        well_ranked(s),
        !holds_member(s, e.0),
    ensures
        well_ranked(place(s, e)),
        score_of(place(s, e), e.0) == Some(e.1),
        forall|o: Seq<char>| o != e.0 ==> score_of(#[trigger] place(s, e), o) == score_of(s, o),
        place(s, e).len() == s.len() + 1,
{
    lemma_slot(s, e.1, 0);
    let p = slot(s, e.1);
    let t = place(s, e);
    assert(forall|i: int| 0 <= i < t.len() ==> #[trigger] t[i] == if i < p { s[i] } else if i == p { e } else { s[i - 1] });
    assert(members_distinct(t)) by {
        assert forall|i: int, j: int| 0 <= i < j < t.len() implies t[i].0 != t[j].0 by {
            if i == p {
                assert(s[j - 1].0 != e.0);
            } else if j == p {
                assert(s[i].0 != e.0);
            }
        }
    }
    lemma_score_at(t, p);
    assert forall|o: Seq<char>| o != e.0 implies score_of(t, o) == score_of(s, o) by {
        if holds_member(s, o) {
            let j = index_of(s, o);
            lemma_score_at(s, j);
            lemma_score_at(t, if j < p { j } else { j + 1 });
        } else if holds_member(t, o) {
            let i = choose|i: int| 0 <= i < t.len() && t[i].0 == o;
            assert(s[if i < p { i } else { i - 1 }].0 == o);
        }
    }
}

/// Adding to a member's score keeps the standings well ranked, gives the
/// member its new score, and leaves every other member's score as it was.
pub proof fn lemma_with_added(s: Seq<EntryView>, m: Seq<char>, delta: int)
    requires
        well_ranked(s),
    ensures
        well_ranked(with_added(s, m, delta)),
        score_of(with_added(s, m, delta), m) == Some(added_score(s, m, delta)),
        forall|o: Seq<char>| o != m ==> score_of(#[trigger] with_added(s, m, delta), o) == score_of(s, o),
{
    lemma_without(s, m);
    lemma_place(without(s, m), (m, added_score(s, m, delta)));
}

/// Where member `m` stands in `v`, if it has an entry.
fn find_member(v: &Vec<(String, i64)>, m: &String) -> (r: Option<usize>)
    ensures
        match r {
            Some(i) => i < v@.len() && entries_view(v@)[i as int].0 == m@,
            None => !holds_member(entries_view(v@), m@),
        },
{
    let mut i: usize = 0;
    while i < v.len()
        invariant
            i <= v@.len(),
            forall|j: int| 0 <= j < i ==> entries_view(v@)[j].0 != m@,
        decreases v@.len() - i,
    {
        if v[i].0 == *m {
            return Some(i);
        }
        i += 1;
    }
    None
}

/// The slot at which an entry of score `x` joins ranked standings.
fn slot_for(v: &Vec<(String, i64)>, x: i64) -> (r: usize)
    requires
        is_ranked(entries_view(v@)),
    ensures
        r == slot(entries_view(v@), x as int),
        r <= v@.len(),
{
    let ghost s = entries_view(v@);
    let mut i: usize = 0;
    while i < v.len() && v[i].1 >= x
        invariant
            i <= v@.len(),
            s == entries_view(v@),
            forall|j: int| 0 <= j < i ==> s[j].1 >= x,
        decreases v@.len() - i,
    {
        i += 1;
    }
    proof {
        if i < v.len() {
            assert(s[i as int].1 < x);
            assert forall|j: int| i <= j < s.len() implies s[j].1 < x by {
                if j > i {
                    assert(s[i as int].1 >= s[j].1);
                }
            }
        }
        assert(is_slot(s, x as int, i as int));
        lemma_slot(s, x as int, i as int);
    }
    i
}

/// Takes the entry of `m` out of `v`; tells whether there was one.
pub(crate) fn remove_entry(v: &mut Vec<(String, i64)>, m: &String) -> (r: bool)
    requires
        well_ranked(entries_view(old(v)@)),
    ensures
        r == holds_member(entries_view(old(v)@), m@),
        entries_view(final(v)@) == without(entries_view(old(v)@), m@),
{
    let ghost s = entries_view(v@);
    match find_member(v, m) {
        Some(i) => {
            proof {
                lemma_score_at(s, i as int);
            }
            v.remove(i);
            assert(entries_view(v@) =~= s.remove(i as int));
            true
        },
        None => false,
    }
}

/// Adds `delta` to the score of `m` in `v`, or enters `m` with score `delta`;
/// returns the new score. Fails, leaving `v` as it was, where the new score
/// does not fit in an `i64`.
pub(crate) fn add_entry(v: &mut Vec<(String, i64)>, m: &String, delta: i64) -> (r: Result<i64, StoreError>)
    requires
        well_ranked(entries_view(old(v)@)),
    ensures
        ({
            let s = entries_view(old(v)@);
            let n = added_score(s, m@, delta as int);
            if i64::MIN <= n <= i64::MAX {
                r == Ok::<i64, StoreError>(n as i64) && entries_view(final(v)@) == with_added(s, m@, delta as int)
            } else {
                r == Err::<i64, StoreError>(StoreError::ScoreOutOfRange) && final(v)@ == old(v)@
            }
        }),
{
    let ghost s = entries_view(v@);
    let found = find_member(v, m);
    let score: i64 = match found {
        Some(i) => {
            proof {
                lemma_score_at(s, i as int);
            }
            match v[i].1.checked_add(delta) {
                Some(n) => n,
                None => {
                    return Err(StoreError::ScoreOutOfRange);
                },
            }
        },
        None => delta,
    };
    match found {
        Some(i) => {
            v.remove(i);
            assert(entries_view(v@) =~= s.remove(i as int));
        },
        None => {},
    }
    proof {
        lemma_without(s, m@);
    }
    let ghost w = entries_view(v@);
    assert(w == without(s, m@));
    let p = slot_for(v, score);
    v.insert(p, (m.clone(), score));
    assert(entries_view(v@) =~= w.insert(p as int, (m@, score as int)));
    Ok(score)
}

/// The first entries of `v`, as many as a top-`limit` query returns.
pub(crate) fn top_entries(v: &Vec<(String, i64)>, limit: usize) -> (r: Vec<(String, i64)>)
    ensures
        entries_view(r@) == top_of(entries_view(v@), limit as nat),
{
    let ghost s = entries_view(v@);
    let mut count: usize = if limit < MAX_TOP { limit } else { MAX_TOP };
    if v.len() < count {
        count = v.len();
    }
    let mut r: Vec<(String, i64)> = Vec::new();
    let mut i: usize = 0;
    while i < count
        invariant
            i <= count,
            count == top_count(s, limit as nat),
            count <= v@.len(),
            s == entries_view(v@),
            entries_view(r@) =~= s.take(i as int),
        decreases count - i,
    {
        let ghost old_r = r@;
        let e = (v[i].0.clone(), v[i].1);
        assert(entry_view(e) == s[i as int]);
        r.push(e);
        assert(entries_view(r@) =~= entries_view(old_r).push(entry_view(e)));
        i += 1;
        assert(entries_view(r@) =~= s.take(i as int));
    }
    r
}

} // verus!
