use vstd::prelude::*;
use crate::error::DrouteError;

verus! {

/// Idle clients of one upstream, each under an id of its own. A client is either
/// idle here or lent to exactly one query; it comes back only through `release`.
pub struct ClientPool<C> {
    idle: Vec<(u64, C)>,
    next_id: u64,
    lent: Ghost<Set<u64>>,
}

/// What `acquire` does to a pool, and what it hands out.
pub open spec fn acquired<C>(
    old_idle: Seq<(u64, C)>,
    old_lent: Set<u64>,
    old_next: u64,
    new_idle: Seq<(u64, C)>,
    new_lent: Set<u64>,
    new_next: u64,
    r: Result<(u64, Option<C>), DrouteError>,
) -> bool {
    match r {
        Ok((id, Some(c))) => {
            &&& old_idle.len() > 0
            &&& old_idle.last() == (id, c)
            &&& new_idle == old_idle.drop_last()
            &&& new_next == old_next
            &&& !old_lent.contains(id)
            &&& new_lent == old_lent.insert(id)
        },
        Ok((id, None)) => {
            &&& old_idle.len() == 0
            &&& id == old_next
            &&& new_next == old_next + 1
            &&& new_idle == old_idle
            &&& !old_lent.contains(id)
            &&& new_lent == old_lent.insert(id)
        },
        Err(e) => {
            &&& e is ClientCreation
            &&& old_idle.len() == 0
            &&& old_next == u64::MAX
            &&& new_idle == old_idle
            &&& new_next == old_next
            &&& new_lent == old_lent
        },
    }
}

impl<C> ClientPool<C> {
    /// The idle clients with their ids; the next one handed out comes last.
    pub closed spec fn idle(&self) -> Seq<(u64, C)> {
        self.idle@
    }

    /// Ids of the clients that are lent out.
    pub closed spec fn lent(&self) -> Set<u64> {
        self.lent@
    }

    /// The id that the next new client gets.
    pub closed spec fn next_id(&self) -> u64 {
        self.next_id
    }

    pub open spec fn idle_ids(&self) -> Seq<u64> {
        self.idle().map_values(|e: (u64, C)| e.0)
    }

    /// Idle ids are distinct, none is lent, and every id given so far is below `next_id`.
    pub open spec fn wf(&self) -> bool {
        &&& self.idle_ids().no_duplicates()
        &&& forall|i: int|
            0 <= i < self.idle().len() ==> !self.lent().contains(#[trigger] self.idle()[i].0)
                && self.idle()[i].0 < self.next_id()
        &&& forall|id: u64| #[trigger] self.lent().contains(id) ==> id < self.next_id()
    }

    pub fn new() -> (r: ClientPool<C>)
        ensures
            r.wf(),
            r.idle().len() == 0,
            r.lent() == Set::<u64>::empty(),
            r.next_id() == 0,
    {
        ClientPool { idle: Vec::new(), next_id: 0, lent: Ghost(Set::empty()) }
    }

    /// Takes an idle client out of the pool, or, where none is idle, gives an id
    /// under which the caller builds a new one.
    pub fn acquire(&mut self) -> (r: Result<(u64, Option<C>), DrouteError>)
        requires
            old(self).wf(),
        ensures
            final(self).wf(),
            acquired(
                old(self).idle(),
                old(self).lent(),
                old(self).next_id(),
                final(self).idle(),
                final(self).lent(),
                final(self).next_id(),
                r,
            ),
            r matches Ok((id, _)) ==> final(self).lent().contains(id)
                && !final(self).idle_ids().contains(id),
    {
        match self.idle.pop() {
            Some((id, c)) => {
                proof {
                    let s = old(self).idle_ids();
                    assert(s.last() == id);
                    assert(self.idle_ids() =~= s.drop_last());
                    assert(!old(self).lent().contains(id)) by {
                        assert(old(self).idle()[old(self).idle().len() - 1].0 == id);
                    }
                    assert forall|i: int| 0 <= i < self.idle_ids().len() implies self.idle_ids()[i]
                        != id by {
                        assert(s[i] == self.idle_ids()[i]);
                        assert(s[s.len() - 1] == id);
                    }
                    self.lent@ = self.lent@.insert(id);
                    assert forall|i: int| 0 <= i < self.idle().len() implies !self.lent().contains(
                        #[trigger] self.idle()[i].0,
                    ) && self.idle()[i].0 < self.next_id() by {
                        assert(self.idle()[i] == old(self).idle()[i]);
                        assert(self.idle_ids()[i] == self.idle()[i].0);
                    }
                }
                Ok((id, Some(c)))
            },
            None => {
                assert(self.idle@ == old(self).idle@);
                assert(self.idle_ids() =~= Seq::<u64>::empty());
                assert(self.lent() == old(self).lent());
                if self.next_id == u64::MAX {
                    return Err(DrouteError::ClientCreation);
                }
                let id = self.next_id;
                self.next_id = self.next_id + 1;
                proof {
                    assert(!old(self).lent().contains(id));
                    self.lent@ = self.lent@.insert(id);
                    assert(self.idle_ids() =~= Seq::<u64>::empty());
                }
                Ok((id, None))
            },
        }
    }

    /// Puts a client back after a query that went through.
    pub fn release(&mut self, id: u64, client: C)
        requires
            old(self).wf(),
            old(self).lent().contains(id),
        ensures
            final(self).wf(),
            final(self).idle() == old(self).idle().push((id, client)),
            final(self).lent() == old(self).lent().remove(id),
            final(self).next_id() == old(self).next_id(),
    {
        self.idle.push((id, client));
        proof {
            self.lent@ = self.lent@.remove(id);
            let s = old(self).idle_ids();
            assert(self.idle_ids() =~= s.push(id));
            assert forall|i: int| 0 <= i < s.len() implies s[i] != id by {
                assert(old(self).idle()[i].0 == s[i]);
            }
            assert forall|i: int| 0 <= i < self.idle().len() implies !self.lent().contains(
                #[trigger] self.idle()[i].0,
            ) && self.idle()[i].0 < self.next_id() by {
                if i < s.len() {
                    assert(self.idle()[i] == old(self).idle()[i]);
                }
            }
        }
    }

    /// Forgets a lent client after a query that failed; it never comes back.
    pub fn discard(&mut self, id: u64)
        requires
            old(self).wf(),
            old(self).lent().contains(id),
        ensures
            final(self).wf(),
            final(self).idle() == old(self).idle(),
            final(self).lent() == old(self).lent().remove(id),
            final(self).next_id() == old(self).next_id(),
    {
        proof {
            self.lent@ = self.lent@.remove(id);
        }
    }
}

/// While a client is lent, no acquisition hands out its id again, and it stays lent.
pub proof fn lemma_lent_is_exclusive<C>(
    old_idle: Seq<(u64, C)>,
    old_lent: Set<u64>,
    old_next: u64,
    new_idle: Seq<(u64, C)>,
    new_lent: Set<u64>,
    new_next: u64,
    r: Result<(u64, Option<C>), DrouteError>,
    held: u64,
)
    requires
        old_lent.contains(held),
        acquired(old_idle, old_lent, old_next, new_idle, new_lent, new_next, r),
    ensures
        r matches Ok((id, _)) ==> id != held,
        new_lent.contains(held),
{
}

} // verus!
