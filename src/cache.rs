use vstd::prelude::*;
use crate::message::{Message, MessageView, QueryView, question_of, min_ttl_of};

verus! {

/// What the cache holds for a question.
#[derive(Debug, Clone, PartialEq, Eq)]
pub enum RecordStatus {
    /// An answer whose smallest TTL has not run out yet.
    Fresh(Message),
    /// An answer whose smallest TTL has run out.
    Stale(Message),
    /// No answer at all.
    Missing,
}

/// A cached answer and the second at which it was stored.
pub struct CachedRecord {
    pub message: Message,
    pub observed_at: u64,
}

pub type EntryView = (MessageView, u64);

/// Seconds from `since` to `now`; 0 where the clock went backwards.
pub open spec fn elapsed(now: u64, since: u64) -> nat {
    if now >= since {
        (now - since) as nat
    } else {
        0
    }
}

/// The entry's smallest TTL has not run out at `now`.
pub open spec fn is_fresh(e: EntryView, now: u64) -> bool {
    elapsed(now, e.1) < min_ttl_of(e.0.2)
}

/// Index of the entry for question `k`, or -1.
pub open spec fn position(s: Seq<EntryView>, k: Seq<QueryView>) -> int
    decreases s.len(),
{
    if s.len() == 0 {
        -1
    } else if question_of(s.last().0) == k {
        s.len() - 1
    } else {
        position(s.drop_last(), k)
    }
}

/// The entries after storing `m` at `now`: the old entry for its question goes, or,
/// where the question is new and the cache is full, the entry stored longest ago;
/// then `m` comes last. A cache of capacity 0 keeps nothing.
pub open spec fn stored(s: Seq<EntryView>, m: MessageView, now: u64, cap: nat) -> Seq<EntryView> {
    let p = position(s, question_of(m));
    if cap == 0 {
        s
    } else if p >= 0 {
        s.remove(p).push((m, now))
    } else if s.len() >= cap {
        s.remove(0).push((m, now))
    } else {
        s.push((m, now))
    }
}

pub open spec fn distinct_questions(s: Seq<EntryView>) -> bool {
    forall|i: int, j: int|
        0 <= i < s.len() && 0 <= j < s.len() && i != j ==> question_of(s[i].0) != question_of(
            s[j].0,
        )
}

proof fn lemma_position_found(s: Seq<EntryView>, i: int, k: Seq<QueryView>)
    requires
        0 <= i < s.len(),
        question_of(s[i].0) == k,
        forall|j: int| i < j < s.len() ==> question_of(s[j].0) != k,
    ensures
        position(s, k) == i,
    decreases s.len(),
{
    if i < s.len() - 1 {
        lemma_position_found(s.drop_last(), i, k);
    }
}

proof fn lemma_position_absent(s: Seq<EntryView>, k: Seq<QueryView>)
    requires
        forall|j: int| 0 <= j < s.len() ==> question_of(s[j].0) != k,
    ensures
        position(s, k) == -1,
    decreases s.len(),
{
    if s.len() > 0 {
        lemma_position_absent(s.drop_last(), k);
    }
}

proof fn lemma_position_range(s: Seq<EntryView>, k: Seq<QueryView>)
    ensures
        -1 <= position(s, k) < s.len(),
        position(s, k) >= 0 ==> question_of(s[position(s, k)].0) == k,
        position(s, k) < 0 ==> forall|j: int| 0 <= j < s.len() ==> question_of(s[j].0) != k,
    decreases s.len(),
{
    if s.len() > 0 {
        lemma_position_range(s.drop_last(), k);
        if position(s, k) < 0 {
            assert forall|j: int| 0 <= j < s.len() implies question_of(s[j].0) != k by {
                if j < s.len() - 1 {
                    assert(s.drop_last()[j] == s[j]);
                }
            }
        }
    }
}

/// A bounded cache of answers, keyed by question; the entry stored longest ago
/// comes first.
pub struct RespCache {
    capacity: usize,
    entries: Vec<CachedRecord>,
}

impl RespCache {
    /// The entries, as answer and time of storing, oldest first.
    pub closed spec fn records(&self) -> Seq<EntryView> {
        self.entries@.map_values(|e: CachedRecord| (e.message@, e.observed_at))
    }

    pub closed spec fn capacity(&self) -> nat {
        self.capacity as nat
    }

    pub open spec fn wf(&self) -> bool {
        &&& self.records().len() <= self.capacity()
        &&& distinct_questions(self.records())
    }

    /// An empty cache that holds at most `size` answers.
    pub fn new(size: usize) -> (r: RespCache)
        ensures
            r.wf(),
            r.capacity() == size,
            r.records() == Seq::<EntryView>::empty(),
    {
        let r = RespCache { capacity: size, entries: Vec::new() };
        assert(r.records() =~= Seq::<EntryView>::empty());
        r
    }

    /// Number of cached answers.
    pub fn len(&self) -> (r: usize)
        ensures
            r == self.records().len(),
    {
        self.entries.len()
    }

    /// Index of the entry asking the same question as `msg`.
    fn find(&self, msg: &Message) -> (r: Option<usize>)
        ensures
            match r {
                Some(i) => i < self.entries.len() && i as int == position(
                    self.records(),
                    question_of(msg@),
                ),
                None => position(self.records(), question_of(msg@)) == -1,
            },
    {
        let ghost s = self.records();
        let mut i = self.entries.len();
        while i > 0
            invariant
                i <= self.entries.len(),
                s == self.records(),
                forall|j: int| i <= j < s.len() ==> question_of(s[j].0) != question_of(msg@),
            decreases i,
        {
            i = i - 1;
            if self.entries[i].message.same_question(msg) {
                proof {
                    lemma_position_found(s, i as int, question_of(msg@));
                }
                return Some(i);
            }
        }
        proof {
            lemma_position_absent(s, question_of(msg@));
        }
        None
    }

    /// Looks up the answer to the question of `msg` and judges it against `now`.
    pub fn lookup(&self, msg: &Message, now: u64) -> (r: RecordStatus)
        ensures
            r is Missing <==> position(self.records(), question_of(msg@)) < 0,
            r matches RecordStatus::Fresh(m) ==> {
                let p = position(self.records(), question_of(msg@));
                p >= 0 && m@ == self.records()[p].0 && is_fresh(self.records()[p], now)
            },
            r matches RecordStatus::Stale(m) ==> {
                let p = position(self.records(), question_of(msg@));
                p >= 0 && m@ == self.records()[p].0 && !is_fresh(self.records()[p], now)
            },
    {
        match self.find(msg) {
            None => RecordStatus::Missing,
            Some(i) => {
                let e = &self.entries[i];
                assert(self.records()[i as int] == (e.message@, e.observed_at));
                let ttl = e.message.min_ttl();
                let age: u64 = if now >= e.observed_at {
                    now - e.observed_at
                } else {
                    0
                };
                if age < ttl as u64 {
                    RecordStatus::Fresh(e.message.duplicate())
                } else {
                    RecordStatus::Stale(e.message.duplicate())
                }
            },
        }
    }

    /// Stores `message` as the answer to its question, observed at `now`.
    pub fn store(&mut self, message: Message, now: u64)
        requires
            old(self).wf(),
        ensures
            final(self).wf(),
            final(self).capacity() == old(self).capacity(),
            final(self).records().len() <= final(self).capacity(),
            final(self).records() == stored(
                old(self).records(),
                message@,
                now,
                old(self).capacity(),
            ),
    {
        if self.capacity == 0 {
            return;
        }
        let ghost s = self.records();
        let ghost k = question_of(message@);
        proof {
            lemma_position_range(s, k);
        }
        let ghost base: Seq<EntryView>;
        match self.find(&message) {
            Some(p) => {
                self.entries.remove(p);
                proof {
                    base = s.remove(p as int);
                    assert(self.records() =~= base);
                    assert forall|j: int| 0 <= j < base.len() implies question_of(base[j].0) != k by {
                        if j < p {
                            assert(base[j] == s[j]);
                        } else {
                            assert(base[j] == s[j + 1]);
                        }
                    }
                }
            },
            None => {
                if self.entries.len() >= self.capacity {
                    self.entries.remove(0);
                    proof {
                        base = s.remove(0);
                        assert(self.records() =~= base);
                        assert forall|j: int| 0 <= j < base.len() implies question_of(base[j].0)
                            != k by {
                            assert(base[j] == s[j + 1]);
                        }
                    }
                } else {
                    proof {
                        base = s;
                    }
                }
            },
        }
        assert(distinct_questions(base)) by {
            assert forall|i: int, j: int|
                0 <= i < base.len() && 0 <= j < base.len() && i != j implies question_of(base[i].0)
                != question_of(base[j].0) by {
                let ii = if base.len() < s.len() { i + 1 } else { i };
                let jj = if base.len() < s.len() { j + 1 } else { j };
                if base.len() < s.len() && position(s, k) >= 0 {
                    let ii2 = if i < position(s, k) { i } else { i + 1 };
                    let jj2 = if j < position(s, k) { j } else { j + 1 };
                    assert(base[i] == s[ii2] && base[j] == s[jj2]);
                } else {
                    assert(base[i] == s[ii] && base[j] == s[jj]);
                }
            }
        }
        let ghost before = self.records();
        self.entries.push(CachedRecord { message, observed_at: now });
        assert(self.records() =~= before.push((message@, now)));
    }
}

/// An answer just stored is what a lookup of the same question finds: fresh until
/// its smallest TTL has run out, stale from then on, with the content that was stored.
pub proof fn lemma_store_then_lookup(
    s: Seq<EntryView>,
    cap: nat,
    m: MessageView,
    at: u64,
    q: MessageView,
    now: u64,
)
    requires
        cap > 0,
        question_of(q) == question_of(m),
    ensures
        ({
            let t = stored(s, m, at, cap);
            let p = position(t, question_of(q));
            &&& p >= 0
            &&& t[p] == (m, at)
            &&& is_fresh(t[p], now) <==> elapsed(now, at) < min_ttl_of(m.2)
        }),
{
    let t = stored(s, m, at, cap);
    assert(t.last() == (m, at));
    assert(position(t, question_of(q)) == t.len() - 1);
}

} // verus!
