use vstd::prelude::*;

verus! {

/// One question of a DNS message: owner name, record type and class.
#[derive(Debug, Clone, PartialEq, Eq)]
pub struct Query {
    pub name: String,
    pub query_type: u16,
    pub query_class: u16,
}

/// One answer record: its time to live in seconds and the rest of it, encoded.
#[derive(Debug, Clone, PartialEq, Eq)]
pub struct Record {
    pub ttl: u32,
    pub data: Vec<u8>,
}

/// A DNS message as this library sees it: a transaction id, the questions, the
/// answers, and the whole message in its wire encoding, which is carried along and
/// never read here.
#[derive(Debug, Clone, PartialEq, Eq)]
pub struct Message {
    pub id: u16,
    pub queries: Vec<Query>,
    pub answers: Vec<Record>,
    pub wire: Vec<u8>,
}

pub type QueryView = (Seq<char>, u16, u16);

pub type RecordView = (u32, Seq<u8>);

pub type MessageView = (u16, Seq<QueryView>, Seq<RecordView>, Seq<u8>);

impl View for Query {
    type V = QueryView;

    open spec fn view(&self) -> QueryView {
        (self.name@, self.query_type, self.query_class)
    }
}

impl View for Record {
    type V = RecordView;

    open spec fn view(&self) -> RecordView {
        (self.ttl, self.data@)
    }
}

impl View for Message {
    type V = MessageView;

    open spec fn view(&self) -> MessageView {
        (
            self.id,
            self.queries@.map_values(|q: Query| q@),
            self.answers@.map_values(|a: Record| a@),
            self.wire@,
        )
    }
}

/// The cache key of a message: its questions, without the transaction id.
pub open spec fn question_of(m: MessageView) -> Seq<QueryView> {
    m.1
}

/// The smallest TTL among the answers, or 0 where there are none.
pub open spec fn min_ttl_of(answers: Seq<RecordView>) -> nat
    decreases answers.len(),
{
    if answers.len() == 0 {
        0
    } else if answers.len() == 1 {
        answers[0].0 as nat
    } else {
        let rest = min_ttl_of(answers.drop_last());
        if (answers.last().0 as nat) < rest {
            answers.last().0 as nat
        } else {
            rest
        }
    }
}

/// `m` with its transaction id replaced.
pub open spec fn with_id(m: MessageView, id: u16) -> MessageView {
    (id, m.1, m.2, m.3)
}

fn copy_bytes(v: &Vec<u8>) -> (r: Vec<u8>)
    ensures
        r@ == v@,
{
    let mut r: Vec<u8> = Vec::new();
    let mut i: usize = 0;
    while i < v.len()
        invariant
            i <= v.len(),
            r@ == v@.subrange(0, i as int),
        decreases v.len() - i,
    {
        r.push(v[i]);
        i += 1;
    }
    assert(r@ =~= v@);
    r
}

impl Query {
    pub fn duplicate(&self) -> (r: Query)
        ensures
            r@ == self@,
    {
        Query { name: self.name.clone(), query_type: self.query_type, query_class: self.query_class }
    }

    pub fn same_as(&self, other: &Query) -> (r: bool)
        ensures
            r == (self@ == other@),
    {
        self.name == other.name && self.query_type == other.query_type && self.query_class
            == other.query_class
    }
}

impl Record {
    pub fn duplicate(&self) -> (r: Record)
        ensures
            r@ == self@,
    {
        Record { ttl: self.ttl, data: copy_bytes(&self.data) }
    }
}

impl Message {
    pub fn id(&self) -> (r: u16)
        ensures
            r == self@.0,
    {
        self.id
    }

    pub fn set_id(&mut self, id: u16)
        ensures
            final(self)@ == with_id(old(self)@, id),
    {
        self.id = id;
    }

    /// A copy that owns its own questions and answers.
    pub fn duplicate(&self) -> (r: Message)
        ensures
            r@ == self@,
    {
        let mut queries: Vec<Query> = Vec::new();
        let mut i: usize = 0;
        while i < self.queries.len()
            invariant
                i <= self.queries.len(),
                queries.len() == i,
                forall|k: int| 0 <= k < i ==> queries@[k]@ == self.queries@[k]@,
            decreases self.queries.len() - i,
        {
            queries.push(self.queries[i].duplicate());
            i += 1;
        }
        let mut answers: Vec<Record> = Vec::new();
        let mut j: usize = 0;
        while j < self.answers.len()
            invariant
                j <= self.answers.len(),
                answers.len() == j,
                forall|k: int| 0 <= k < j ==> answers@[k]@ == self.answers@[k]@,
            decreases self.answers.len() - j,
        {
            answers.push(self.answers[j].duplicate());
            j += 1;
        }
        let r = Message { id: self.id, queries, answers, wire: copy_bytes(&self.wire) };
        assert(r@.1 =~= self@.1);
        assert(r@.2 =~= self@.2);
        r
    }

    /// Whether both messages ask the same questions, whatever their ids.
    pub fn same_question(&self, other: &Message) -> (r: bool)
        ensures
            r == (question_of(self@) == question_of(other@)),
    {
        if self.queries.len() != other.queries.len() {
            assert(question_of(self@).len() != question_of(other@).len());
            return false;
        }
        let mut i: usize = 0;
        while i < self.queries.len()
            invariant
                i <= self.queries.len(),
                self.queries.len() == other.queries.len(),
                forall|j: int| 0 <= j < i ==> self.queries@[j]@ == other.queries@[j]@,
            decreases self.queries.len() - i,
        {
            if !self.queries[i].same_as(&other.queries[i]) {
                assert(question_of(self@)[i as int] != question_of(other@)[i as int]);
                return false;
            }
            i += 1;
        }
        assert(question_of(self@) =~= question_of(other@));
        true
    }

    /// The smallest TTL among the answers, or 0 where there are none.
    pub fn min_ttl(&self) -> (r: u32)
        ensures
            r as nat == min_ttl_of(self@.2),
    {
        let ghost s = self@.2;
        if self.answers.len() == 0 {
            return 0;
        }
        let mut m: u32 = self.answers[0].ttl;
        let mut i: usize = 1;
        assert(s.subrange(0, 1).len() == 1);
        while i < self.answers.len()
            invariant
                1 <= i <= self.answers.len(),
                s == self@.2,
                m as nat == min_ttl_of(s.subrange(0, i as int)),
            decreases self.answers.len() - i,
        {
            assert(s.subrange(0, i + 1).drop_last() =~= s.subrange(0, i as int));
            if self.answers[i].ttl < m {
                m = self.answers[i].ttl;
            }
            i += 1;
        }
        assert(s.subrange(0, i as int) =~= s);
        m
    }
}

} // verus!
