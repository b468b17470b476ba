//! An in-memory ranking store: one set of standings per leaderboard key,
//! each of which expires at the first midnight after its last score change.
//!
//! Every operation takes the current instant from its caller, so the clock
//! can be anything: the wall clock in production, a chosen instant in tests.
use vstd::prelude::*;
use crate::error::StoreError;
use crate::expiry::{next_midnight, next_midnight_spec, LATEST_INSTANT};
use crate::standings::{
    add_entry, entries_view, holds_member, remove_entry, top_entries, top_of, well_ranked,
    with_added, without, added_score, EntryView,
};

verus! {

/// What the store keeps for one key: its standings and its expiry instant.
pub type BoardView = (Seq<EntryView>, int);

/// Every stored leaderboard is well ranked and holds at least one entry:
/// a leaderboard without entries is not kept at all.
pub open spec fn boards_ok(m: Map<Seq<char>, BoardView>) -> bool {
    forall|k: Seq<char>| #[trigger] m.contains_key(k) ==> well_ranked(m[k].0) && m[k].0.len() > 0
}

/// The standings of `key` as seen at instant `now`: empty where the key is
/// absent or its expiry instant has come.
pub open spec fn live_entries(m: Map<Seq<char>, BoardView>, key: Seq<char>, now: int) -> Seq<EntryView> {
    if m.contains_key(key) && now < m[key].1 {
        m[key].0
    } else {
        Seq::empty()
    }
}

/// The store after member `m` of `key` is removed at `now`. An expired or
/// absent leaderboard, or one without `m`, is left as it is; a leaderboard
/// left without entries is dropped; the expiry instant is kept.
pub open spec fn after_removal(
    old: Map<Seq<char>, BoardView>,
    key: Seq<char>,
    m: Seq<char>,
    now: int,
) -> Map<Seq<char>, BoardView> {
    let s = live_entries(old, key, now);
    if !holds_member(s, m) {
        old
    } else if without(s, m).len() == 0 {
        old.remove(key)
    } else {
        old.insert(key, (without(s, m), old[key].1))
    }
}

/// Checks the names given to a score change: neither may be empty.
pub fn validate_names(key: &str, member: &str) -> (r: Result<(), StoreError>)
    ensures
        r == (if key@.len() == 0 || member@.len() == 0 {
            Err::<(), StoreError>(StoreError::InvalidArgument)
        } else {
            Ok::<(), StoreError>(())
        }),
{
    if key.is_empty() || member.is_empty() {
        Err(StoreError::InvalidArgument)
    } else {
        Ok(())
    }
}

struct Board {
    key: String,
    entries: Vec<(String, i64)>,
    expires_at: u64,
}

impl Board {
    spec fn state(&self) -> BoardView {
        (entries_view(self.entries@), self.expires_at as int)
    }

    spec fn ok(&self) -> bool {
        well_ranked(self.state().0) && self.state().0.len() > 0
    }
}

spec fn has_key(s: Seq<Board>, k: Seq<char>) -> bool {
    exists|i: int| 0 <= i < s.len() && s[i].key@ == k
}

spec fn boards_map(s: Seq<Board>) -> Map<Seq<char>, BoardView> {
    Map::new(
        |k: Seq<char>| has_key(s, k),
        |k: Seq<char>| s[choose|i: int| 0 <= i < s.len() && s[i].key@ == k].state(),
    )
}

spec fn keys_distinct(s: Seq<Board>) -> bool {
    forall|i: int, j: int| 0 <= i < j < s.len() ==> s[i].key@ != s[j].key@
}

proof fn lemma_boards_at(s: Seq<Board>, i: int)
    requires
        keys_distinct(s),
        0 <= i < s.len(),
    ensures
        boards_map(s).contains_key(s[i].key@),
        boards_map(s)[s[i].key@] == s[i].state(),
{
    let k = s[i].key@;
    assert(has_key(s, k));
    let j = choose|j: int| 0 <= j < s.len() && s[j].key@ == k;
    assert(j == i);
}

proof fn lemma_boards_remove(s: Seq<Board>, i: int)
    requires
        keys_distinct(s),
        0 <= i < s.len(),
    ensures
        keys_distinct(s.remove(i)),
        boards_map(s.remove(i)) == boards_map(s).remove(s[i].key@),
{
    let t = s.remove(i);
    assert(forall|j: int| 0 <= j < t.len() ==> #[trigger] t[j] == s[if j < i { j } else { j + 1 }]);
    let a = boards_map(t);
    let b = boards_map(s).remove(s[i].key@);
    assert forall|k: Seq<char>| a.contains_key(k) <==> b.contains_key(k) by {
        if has_key(t, k) {
            let j = choose|j: int| 0 <= j < t.len() && t[j].key@ == k;
            assert(s[if j < i { j } else { j + 1 }].key@ == k);
        }
        if has_key(s, k) && k != s[i].key@ {
            let j = choose|j: int| 0 <= j < s.len() && s[j].key@ == k;
            assert(t[if j < i { j } else { j - 1 }].key@ == k);
        }
    }
    assert forall|k: Seq<char>| a.contains_key(k) implies a[k] == b[k] by {
        let j = choose|j: int| 0 <= j < t.len() && t[j].key@ == k;
        lemma_boards_at(t, j);
        lemma_boards_at(s, if j < i { j } else { j + 1 });
    }
    assert(a =~= b);
}

proof fn lemma_boards_push(s: Seq<Board>, b: Board)
    requires
        keys_distinct(s),
        !boards_map(s).contains_key(b.key@),
    ensures
        keys_distinct(s.push(b)),
        boards_map(s.push(b)) == boards_map(s).insert(b.key@, b.state()),
{
    let t = s.push(b);
    assert(forall|j: int| 0 <= j < s.len() ==> t[j] == s[j]);
    assert(forall|j: int| 0 <= j < s.len() ==> s[j].key@ != b.key@);
    let x = boards_map(t);
    let y = boards_map(s).insert(b.key@, b.state());
    assert forall|k: Seq<char>| x.contains_key(k) <==> y.contains_key(k) by {
        if k == b.key@ {
            assert(t[s.len() as int].key@ == k);
        } else if has_key(t, k) {
            let j = choose|j: int| 0 <= j < t.len() && t[j].key@ == k;
            assert(s[j].key@ == k);
        } else if has_key(s, k) {
            let j = choose|j: int| 0 <= j < s.len() && s[j].key@ == k;
            assert(t[j].key@ == k);
        }
    }
    assert(keys_distinct(t));
    assert forall|k: Seq<char>| x.contains_key(k) implies x[k] == y[k] by {
        let j = choose|j: int| 0 <= j < t.len() && t[j].key@ == k;
        lemma_boards_at(t, j);
        if j < s.len() {
            lemma_boards_at(s, j);
        }
    }
    assert(x =~= y);
}

/// Leaderboards by key, each with its standings and expiry instant.
pub struct RankingStore {
    boards: Vec<Board>,
}

impl View for RankingStore {
    type V = Map<Seq<char>, BoardView>;

    closed spec fn view(&self) -> Map<Seq<char>, BoardView> {
        boards_map(self.boards@)
    }
}

impl RankingStore {
    /// The internal layout is consistent: keys are distinct and every leaderboard is well formed.
    pub closed spec fn layout_ok(&self) -> bool {
        &&& keys_distinct(self.boards@)
        &&& forall|i: int| 0 <= i < self.boards@.len() ==> #[trigger] self.boards@[i].ok()
    }

    /// The store is consistent: its leaderboards are well ranked and none is empty.
    pub open spec fn wf(&self) -> bool {
        self.layout_ok() && boards_ok(self@)
    }

    proof fn lemma_layout(&self)
        requires
            self.layout_ok(),
        ensures
            boards_ok(self@),
    {
        assert forall|k: Seq<char>| #[trigger] self@.contains_key(k) implies well_ranked(self@[k].0)
            && self@[k].0.len() > 0 by {
            let j = choose|j: int| 0 <= j < self.boards@.len() && self.boards@[j].key@ == k;
            lemma_boards_at(self.boards@, j);
            assert(self.boards@[j].ok());
        }
    }

    /// An empty store.
    pub fn new() -> (r: RankingStore)
        ensures
            r.wf(),
            r@ == Map::<Seq<char>, BoardView>::empty(),
    {
        let r = RankingStore { boards: Vec::new() };
        assert(r@ =~= Map::<Seq<char>, BoardView>::empty());
        proof {
            r.lemma_layout();
        }
        r
    }

    fn find_board(&self, key: &String) -> (r: Option<usize>)
        requires
            self.wf(),
        ensures
            match r {
                Some(i) => i < self.boards@.len() && self.boards@[i as int].key@ == key@
                    && self@.contains_key(key@) && self@[key@] == self.boards@[i as int].state(),
                None => !self@.contains_key(key@),
            },
    {
        let mut i: usize = 0;
        while i < self.boards.len()
            invariant
                self.wf(),
                i <= self.boards@.len(),
                forall|j: int| 0 <= j < i ==> self.boards@[j].key@ != key@,
            decreases self.boards@.len() - i,
        {
            if self.boards[i].key == *key {
                proof {
                    lemma_boards_at(self.boards@, i as int);
                }
                return Some(i);
            }
            i += 1;
        }
        None
    }

    fn take_board(&mut self, key: &String) -> (r: Option<Board>)
        requires
            old(self).wf(),
        ensures
            final(self).layout_ok(),
            match r {
                Some(b) => old(self)@.contains_key(key@) && b.key@ == key@ && b.ok()
                    && b.state() == old(self)@[key@] && final(self)@ == old(self)@.remove(key@),
                None => !old(self)@.contains_key(key@) && final(self)@ == old(self)@,
            },
    {
        match self.find_board(key) {
            Some(i) => {
                let ghost s = self.boards@;
                proof {
                    lemma_boards_remove(s, i as int);
                }
                let b = self.boards.remove(i);
                assert(s[i as int].ok());
                assert(forall|j: int| 0 <= j < self.boards@.len() ==> self.boards@[j]
                    == s[if j < i { j } else { j + 1 }]);
                Some(b)
            },
            None => None,
        }
    }

    fn put_board(&mut self, b: Board)
        requires
            old(self).layout_ok(),
            !old(self)@.contains_key(b.key@),
            b.ok(),
        ensures
            final(self).wf(),
            final(self)@ == old(self)@.insert(b.key@, b.state()),
    {
        let ghost s = self.boards@;
        proof {
            lemma_boards_push(s, b);
        }
        self.boards.push(b);
        assert(forall|j: int| 0 <= j < s.len() ==> self.boards@[j] == s[j]);
        proof {
            self.lemma_layout();
        }
    }

    /// Adds `delta` to the score of `member` on leaderboard `key` at instant
    /// `now`, entering the member with score `delta` where it has no entry,
    /// and returns the member's new score. The leaderboard, created where
    /// absent or expired, then expires at the first midnight after `now`.
    pub fn add_score(&mut self, key: &str, member: &str, delta: i64, now: u64) -> (r: Result<i64, StoreError>)
        requires
            old(self).wf(),
            now <= LATEST_INSTANT,
        ensures
            final(self).wf(),
            ({
                let s = live_entries(old(self)@, key@, now as int);
                let n = added_score(s, member@, delta as int);
                if key@.len() == 0 || member@.len() == 0 {
                    r == Err::<i64, StoreError>(StoreError::InvalidArgument) && final(self)@ == old(self)@
                } else if n < i64::MIN || n > i64::MAX {
                    r == Err::<i64, StoreError>(StoreError::ScoreOutOfRange) && final(self)@ == old(self)@
                } else {
                    r == Ok::<i64, StoreError>(n as i64) && final(self)@ == old(self)@.insert(
                        key@,
                        (with_added(s, member@, delta as int), next_midnight_spec(now as int)),
                    )
                }
            }),
    {
        if let Err(e) = validate_names(key, member) {
            return Err(e);
        }
        let key_s = key.to_owned();
        let member_s = member.to_owned();
        let expiry = next_midnight(now);
        let ghost s = live_entries(self@, key@, now as int);
        let ghost before = self@;
        let taken = self.take_board(&key_s);
        let mut entries: Vec<(String, i64)> = Vec::new();
        let mut kept: Option<u64> = None;
        match taken {
            Some(b) => {
                if now < b.expires_at {
                    kept = Some(b.expires_at);
                    entries = b.entries;
                }
            },
            None => {},
        }
        assert(entries_view(entries@) =~= s);
        let added = add_entry(&mut entries, &member_s, delta);
        match added {
            Ok(n) => {
                proof {
                    crate::standings::lemma_with_added(s, member@, delta as int);
                }
                self.put_board(Board { key: key_s, entries, expires_at: expiry });
                assert(self@ =~= before.insert(key@, (with_added(s, member@, delta as int), next_midnight_spec(now as int))));
                Ok(n)
            },
            Err(e) => {
                if let Some(t) = kept {
                    self.put_board(Board { key: key_s, entries, expires_at: t });
                    assert(self@ =~= before);
                }
                Err(e)
            },
        }
    }

    /// Removes `member` from leaderboard `key` as seen at instant `now`, and
    /// returns how many entries were removed: 1 or 0. The expiry instant is
    /// left as it was.
    pub fn remove_member(&mut self, key: &str, member: &str, now: u64) -> (r: u64)
        requires
            old(self).wf(),
        ensures
            final(self).wf(),
            r == (if holds_member(live_entries(old(self)@, key@, now as int), member@) { 1u64 } else { 0u64 }),
            final(self)@ == after_removal(old(self)@, key@, member@, now as int),
    {
        let key_s = key.to_owned();
        let member_s = member.to_owned();
        let ghost before = self@;
        let ghost s = live_entries(self@, key@, now as int);
        match self.take_board(&key_s) {
            None => 0,
            Some(b) => {
                if now >= b.expires_at {
                    self.put_board(b);
                    assert(self@ =~= before);
                    return 0;
                }
                let Board { key: k, mut entries, expires_at } = b;
                let removed = remove_entry(&mut entries, &member_s);
                proof {
                    crate::standings::lemma_without(s, member@);
                }
                if entries.len() > 0 {
                    self.put_board(Board { key: k, entries, expires_at });
                    assert(self@ =~= after_removal(before, key@, member@, now as int));
                } else {
                    assert(self@ =~= after_removal(before, key@, member@, now as int));
                }
                if removed {
                    1
                } else {
                    0
                }
            },
        }
    }

    /// The best entries of leaderboard `key` as seen at instant `now`, best
    /// first: at most `limit` of them, and never more than 100.
    pub fn get_top(&self, key: &str, limit: usize, now: u64) -> (r: Vec<(String, i64)>)
        requires
            self.wf(),
        ensures
            entries_view(r@) == top_of(live_entries(self@, key@, now as int), limit as nat),
    {
        let key_s = key.to_owned();
        match self.find_board(&key_s) {
            Some(i) => {
                if now < self.boards[i].expires_at {
                    top_entries(&self.boards[i].entries, limit)
                } else {
                    let r: Vec<(String, i64)> = Vec::new();
                    assert(entries_view(r@) =~= top_of(Seq::empty(), limit as nat));
                    r
                }
            },
            None => {
                let r: Vec<(String, i64)> = Vec::new();
                assert(entries_view(r@) =~= top_of(Seq::empty(), limit as nat));
                r
            },
        }
    }

    /// The instant at which leaderboard `key` expires, where it is stored.
    pub fn expires_at(&self, key: &str) -> (r: Option<u64>)
        requires
            self.wf(),
        ensures
            match r {
                Some(t) => self@.contains_key(key@) && self@[key@].1 == t as int,
                None => !self@.contains_key(key@),
            },
    {
        let key_s = key.to_owned();
        match self.find_board(&key_s) {
            Some(i) => Some(self.boards[i].expires_at),
            None => None,
        }
    }
}

} // verus!
