//! A bounded ranking of accounts by experience points.
//!
//! The index keeps at most a fixed number of `(xp, account)` pairs, ordered by
//! `xp` descending and, among equal `xp`, by account ascending. It is updated
//! one account at a time and never looks at the whole player population.

use vstd::prelude::*;

verus! {

/// One ranked account with the experience points it is ranked by.
#[derive(Clone, Copy, Debug, PartialEq, Eq, Structural)]
pub struct Entry {
    pub xp: u64,
    pub account: u64,
}

/// `a` stands before `b` in the ranking: more experience points, or the same
/// and a smaller account identifier.
pub open spec fn outranks(a: Entry, b: Entry) -> bool {
    a.xp > b.xp || (a.xp == b.xp && a.account < b.account)
}

/// Every entry stands before all entries that follow it.
pub open spec fn ordered(s: Seq<Entry>) -> bool {
    forall|i: int, j: int| 0 <= i < j < s.len() ==> outranks(#[trigger] s[i], #[trigger] s[j])
}

/// No account occurs in two entries.
pub open spec fn distinct_accounts(s: Seq<Entry>) -> bool {
    forall|i: int, j: int|
        0 <= i < j < s.len() ==> (#[trigger] s[i]).account != (#[trigger] s[j]).account
}

/// Some entry of `s` belongs to `account`.
pub open spec fn holds(s: Seq<Entry>, account: u64) -> bool {
    exists|i: int| 0 <= i < s.len() && (#[trigger] s[i]).account == account
}

/// The position of an entry of `account` in `s`.
pub open spec fn slot_of(s: Seq<Entry>, account: u64) -> int {
    choose|i: int| 0 <= i < s.len() && (#[trigger] s[i]).account == account
}

/// The ranked accounts, each with the experience points it is ranked by.
pub open spec fn standings(s: Seq<Entry>) -> Map<u64, u64> {
    Map::new(|a: u64| holds(s, a), |a: u64| s[slot_of(s, a)].xp)
}

/// The standings after the experience points of `account` became `xp`, for a
/// ranking `s` that may hold up to `bound` entries.
pub open spec fn next_standings(s: Seq<Entry>, bound: nat, account: u64, xp: u64) -> Map<u64, u64> {
    if holds(s, account) || s.len() < bound {
        standings(s).insert(account, xp)
    } else if s.len() > 0 && xp > s.last().xp {
        standings(s).remove(s.last().account).insert(account, xp)
    } else {
        standings(s)
    }
}

/// The number of entries after the same change.
pub open spec fn next_len(s: Seq<Entry>, bound: nat, account: u64) -> nat {
    if !holds(s, account) && s.len() < bound {
        s.len() + 1
    } else {
        s.len()
    }
}

/// In a ranking without repeated accounts, an account's entry is where
/// `slot_of` says.
pub proof fn lemma_slot(s: Seq<Entry>, account: u64, i: int)
    requires
        distinct_accounts(s),
        0 <= i < s.len(),
        s[i].account == account,
    ensures
        holds(s, account),
        slot_of(s, account) == i,
        standings(s).contains_key(account),
        standings(s)[account] == s[i].xp,
{
    let k = slot_of(s, account);
    assert(0 <= k < s.len() && s[k].account == account);
    if k != i {
        if k < i {
            assert(s[k].account != s[i].account);
        } else {
            assert(s[i].account != s[k].account);
        }
    }
}

/// The last entry of an ordered ranking has the fewest experience points.
pub proof fn lemma_last_is_least(s: Seq<Entry>, account: u64)
    requires
        ordered(s),
        distinct_accounts(s),
        holds(s, account),
    ensures
        s.len() > 0,
        standings(s)[account] >= s.last().xp,
{
    let k = slot_of(s, account);
    if k < s.len() - 1 {
        assert(outranks(s[k], s[s.len() - 1]));
    }
}

/// Taking one entry out keeps the order and removes exactly its account.
pub proof fn lemma_remove(s: Seq<Entry>, i: int)
    requires
        ordered(s),
        distinct_accounts(s),
        0 <= i < s.len(),
    ensures
        ordered(s.remove(i)),
        distinct_accounts(s.remove(i)),
        !holds(s.remove(i), s[i].account),
        standings(s.remove(i)) == standings(s).remove(s[i].account),
{
    let r = s.remove(i);
    assert forall|j: int| 0 <= j < r.len() implies #[trigger] r[j] == s[if j < i { j } else { j + 1 }] by {}
    assert(ordered(r)) by {
        assert forall|a: int, b: int| 0 <= a < b < r.len() implies outranks(
            #[trigger] r[a],
            #[trigger] r[b],
        ) by {
            let a0 = if a < i { a } else { a + 1 };
            let b0 = if b < i { b } else { b + 1 };
            assert(outranks(s[a0], s[b0]));
        }
    }
    assert(distinct_accounts(r)) by {
        assert forall|a: int, b: int| 0 <= a < b < r.len() implies (#[trigger] r[a]).account != (
        #[trigger] r[b]).account by {
            let a0 = if a < i { a } else { a + 1 };
            let b0 = if b < i { b } else { b + 1 };
            assert(s[a0].account != s[b0].account);
        }
    }
    assert forall|a: u64| holds(r, a) <==> (holds(s, a) && a != s[i].account) by {
        if holds(r, a) {
            let j = slot_of(r, a);
            let j0 = if j < i { j } else { j + 1 };
            assert(s[j0].account == a);
            if j0 < i {
                assert(s[j0].account != s[i].account);
            } else {
                assert(s[i].account != s[j0].account);
            }
        }
        if holds(s, a) && a != s[i].account {
            let k = slot_of(s, a);
            let k1 = if k < i { k } else { k - 1 };
            assert(r[k1].account == a);
        }
    }
    assert forall|a: u64| holds(r, a) implies r[slot_of(r, a)].xp == s[slot_of(s, a)].xp by {
        let j = slot_of(r, a);
        let j0 = if j < i { j } else { j + 1 };
        lemma_slot(s, a, j0);
    }
    assert(standings(r) =~= standings(s).remove(s[i].account));
}

/// Putting an entry of a new account at its place keeps the order and adds
/// exactly that account.
pub proof fn lemma_insert(s: Seq<Entry>, p: int, e: Entry)
    requires
        ordered(s),
        distinct_accounts(s),
        !holds(s, e.account),
        0 <= p <= s.len(),
        forall|j: int| 0 <= j < p ==> outranks(#[trigger] s[j], e),
        forall|j: int| p <= j < s.len() ==> outranks(e, #[trigger] s[j]),
    ensures
        ordered(s.insert(p, e)),
        distinct_accounts(s.insert(p, e)),
        standings(s.insert(p, e)) == standings(s).insert(e.account, e.xp),
{
    let t = s.insert(p, e);
    assert(t[p] == e);
    assert forall|j: int| 0 <= j < t.len() && j != p implies #[trigger] t[j] == s[if j < p { j } else { j - 1 }] by {}
    assert forall|j: int| 0 <= j < s.len() implies (#[trigger] s[j]).account != e.account by {}
    assert(ordered(t)) by {
        assert forall|a: int, b: int| 0 <= a < b < t.len() implies outranks(
            #[trigger] t[a],
            #[trigger] t[b],
        ) by {
            let a0 = if a < p { a } else { a - 1 };
            let b0 = if b < p { b } else { b - 1 };
            if a == p {
                assert(outranks(e, s[b0]));
            } else if b == p {
                assert(outranks(s[a0], e));
            } else {
                assert(outranks(s[a0], s[b0]));
            }
        }
    }
    assert(distinct_accounts(t)) by {
        assert forall|a: int, b: int| 0 <= a < b < t.len() implies (#[trigger] t[a]).account != (
        #[trigger] t[b]).account by {
            let a0 = if a < p { a } else { a - 1 };
            let b0 = if b < p { b } else { b - 1 };
            if a == p {
                assert(s[b0].account != e.account);
            } else if b == p {
                assert(s[a0].account != e.account);
            } else {
                assert(s[a0].account != s[b0].account);
            }
        }
    }
    lemma_slot(t, e.account, p);
    assert forall|a: u64| holds(t, a) <==> (holds(s, a) || a == e.account) by {
        if holds(t, a) && a != e.account {
            let j = slot_of(t, a);
            let j0 = if j < p { j } else { j - 1 };
            assert(s[j0].account == a);
        }
        if holds(s, a) {
            let k = slot_of(s, a);
            let k1 = if k < p { k } else { k + 1 };
            assert(t[k1].account == a);
        }
    }
    assert forall|a: u64| holds(s, a) implies t[slot_of(t, a)].xp == s[slot_of(s, a)].xp by {
        let k = slot_of(s, a);
        let k1 = if k < p { k } else { k + 1 };
        assert(t[k1] == s[k]);
        lemma_slot(t, a, k1);
    }
    assert(standings(t) =~= standings(s).insert(e.account, e.xp));
}

/// The order of a ranking is decided by what it ranks: two ordered rankings
/// without repeated accounts that give the same accounts the same experience
/// points are the same sequence.
pub proof fn lemma_ranking_determined(s: Seq<Entry>, t: Seq<Entry>)
    requires
        ordered(s),
        distinct_accounts(s),
        ordered(t),
        distinct_accounts(t),
        standings(s) == standings(t),
    ensures
        s == t,
    decreases s.len(),
{
    if s.len() == 0 {
        if t.len() > 0 {
            lemma_slot(t, t[0].account, 0);
            assert(holds(s, t[0].account));
        }
        assert(s =~= t);
    } else {
        lemma_slot(s, s[0].account, 0);
        assert(holds(t, s[0].account));
        let j = slot_of(t, s[0].account);
        lemma_slot(t, s[0].account, j);
        assert(t[j] == s[0]);
        lemma_slot(t, t[0].account, 0);
        assert(holds(s, t[0].account));
        let i = slot_of(s, t[0].account);
        lemma_slot(s, t[0].account, i);
        assert(s[i] == t[0]);
        if j > 0 {
            assert(outranks(t[0], t[j]));
            if i > 0 {
                assert(outranks(s[0], s[i]));
            }
        }
        assert(j == 0);
        lemma_remove(s, 0);
        lemma_remove(t, 0);
        lemma_ranking_determined(s.remove(0), t.remove(0));
        assert(s.len() == t.len()) by {
            assert(s.remove(0).len() == s.len() - 1);
            assert(t.remove(0).len() == t.len() - 1);
        }
        assert forall|k: int| 0 <= k < s.len() implies s[k] == t[k] by {
            if k > 0 {
                assert(s.remove(0)[k - 1] == s[k]);
                assert(t.remove(0)[k - 1] == t[k]);
            }
        }
        assert(s =~= t);
    }
}

/// The ranking index: at most `bound` entries, best first.
pub struct LeaderboardIndex {
    entries: Vec<Entry>,
    bound: usize,
}

impl View for LeaderboardIndex {
    type V = Map<u64, u64>;

    /// The tracked accounts, each with the experience points it is ranked by.
    closed spec fn view(&self) -> Map<u64, u64> {
        standings(self.entries@)
    }
}

impl LeaderboardIndex {
    /// The entries in rank order, best first.
    pub closed spec fn ranking(&self) -> Seq<Entry> {
        self.entries@
    }

    /// The largest number of entries the index keeps.
    pub closed spec fn bound(&self) -> nat {
        self.bound as nat
    }

    /// The index is ordered, ranks no account twice and respects its bound.
    pub open spec fn wf(&self) -> bool {
        &&& ordered(self.ranking())
        &&& distinct_accounts(self.ranking())
        &&& self.ranking().len() <= self.bound()
        &&& self@ == standings(self.ranking())
    }

    /// An empty index that will keep at most `bound` entries.
    pub fn new(bound: usize) -> (index: Self)
        ensures
            index.wf(),
            index.bound() == bound,
            index.ranking() == Seq::<Entry>::empty(),
            index@ == Map::<u64, u64>::empty(),
    {
        let index = LeaderboardIndex { entries: Vec::new(), bound };
        assert(index@ =~= Map::<u64, u64>::empty());
        index
    }

    /// The number of tracked accounts.
    pub fn tracked_count(&self) -> (n: usize)
        ensures
            n == self.ranking().len(),
    {
        self.entries.len()
    }

    /// The entry at rank `i`, counted from zero.
    pub fn entry_at(&self, i: usize) -> (e: Entry)
        requires
            i < self.ranking().len(),
        ensures
            e == self.ranking()[i as int],
    {
        self.entries[i]
    }

    /// The first `limit` entries, best first; all of them if there are fewer.
    pub fn top(&self, limit: u32) -> (best: Vec<Entry>)
        ensures
            best@ == self.ranking().take(
                if limit <= self.ranking().len() {
                    limit as int
                } else {
                    self.ranking().len() as int
                },
            ),
    {
        let mut best: Vec<Entry> = Vec::new();
        let mut i: usize = 0;
        while i < self.entries.len() && i < limit as usize
            invariant
                i <= self.entries.len(),
                i <= limit,
                best@ == self.entries@.take(i as int),
            decreases self.entries.len() - i,
        {
            best.push(self.entries[i]);
            assert(self.entries@.take(i + 1) =~= self.entries@.take(i as int).push(self.entries@[i as int]));
            i += 1;
        }
        best
    }

    /// The rank of `account`, if it is tracked.
    pub fn rank_of(&self, account: u64) -> (rank: Option<usize>)
        requires
            self.wf(),
        ensures
            match rank {
                Some(i) => i < self.ranking().len() && self.ranking()[i as int].account == account
                    && self@.contains_key(account) && self@[account] == self.ranking()[i as int].xp,
                None => !self@.contains_key(account),
            },
    {
        let mut i: usize = 0;
        while i < self.entries.len()
            invariant
                self.wf(),
                i <= self.entries.len(),
                forall|j: int| 0 <= j < i ==> (#[trigger] self.entries@[j]).account != account,
            decreases self.entries.len() - i,
        {
            if self.entries[i].account == account {
                proof {
                    lemma_slot(self.entries@, account, i as int);
                }
                return Some(i);
            }
            i += 1;
        }
        None
    }

    /// Puts the entry of an untracked account at its place in the order.
    fn place(&mut self, e: Entry)
        requires
            old(self).wf(),
            !old(self)@.contains_key(e.account),
            old(self).entries@.len() < usize::MAX,
        ensures
            ordered(final(self).entries@),
            distinct_accounts(final(self).entries@),
            final(self).entries@.len() == old(self).entries@.len() + 1,
            final(self)@ == old(self)@.insert(e.account, e.xp),
            final(self).bound == old(self).bound,
    {
        let mut p: usize = 0;
        while p < self.entries.len() && (self.entries[p].xp > e.xp || (self.entries[p].xp == e.xp
            && self.entries[p].account < e.account))
            invariant
                p <= self.entries.len(),
                self.entries@ == old(self).entries@,
                forall|j: int| 0 <= j < p ==> outranks(#[trigger] self.entries@[j], e),
            decreases self.entries.len() - p,
        {
            p += 1;
        }
        proof {
            let s = self.entries@;
            assert forall|j: int| p <= j < s.len() implies outranks(e, #[trigger] s[j]) by {
                assert(s[p as int].account != e.account);
                assert(outranks(e, s[p as int]));
                if p < j {
                    assert(outranks(s[p as int], s[j]));
                }
            }
            lemma_insert(s, p as int, e);
        }
        self.entries.insert(p, e);
    }

    /// Records that the experience points of `account` are now `new_xp`.
    ///
    /// A tracked account moves to the place its new points give it. An
    /// untracked account enters while there is room; once the index is full it
    /// enters only with more points than the last entry, which then leaves.
    pub fn on_xp_change(&mut self, account: u64, new_xp: u64)
        requires
            old(self).wf(),
        ensures
            final(self).wf(),
            final(self).bound() == old(self).bound(),
            final(self)@ == next_standings(old(self).ranking(), old(self).bound(), account, new_xp),
            final(self).ranking().len() == next_len(old(self).ranking(), old(self).bound(), account),
    {
        let e = Entry { xp: new_xp, account };
        let n: usize = self.entries.len();
        match self.rank_of(account) {
            Some(i) => {
                proof {
                    lemma_remove(self.entries@, i as int);
                }
                self.entries.remove(i);
                self.place(e);
                assert(final(self)@ =~= old(self)@.insert(account, new_xp));
            },
            None => {
                if n < self.bound {
                    self.place(e);
                } else if n > 0 && new_xp > self.entries[n - 1].xp {
                    proof {
                        lemma_remove(self.entries@, n - 1);
                    }
                    self.entries.remove(n - 1);
                    self.place(e);
                }
            },
        }
    }
}

} // verus!
