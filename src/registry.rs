use vstd::prelude::*;
use vstd::set_lib::lemma_len_subset;
use crate::cache::{RespCache, RecordStatus, position, is_fresh, stored};
use crate::error::DrouteError;
use crate::message::{Message, question_of, with_id};
use crate::pool::{ClientPool, acquired};

verus! {

/// An IP address, held as its numeric parts.
#[derive(Debug, Clone, PartialEq, Eq)]
pub enum IpAddress {
    V4([u8; 4]),
    V6([u16; 8]),
}

/// An IP address together with a port.
#[derive(Debug, Clone, PartialEq, Eq)]
pub struct SocketAddress {
    pub ip: IpAddress,
    pub port: u16,
}

/// How an upstream is reached.
#[derive(Debug, Clone, PartialEq, Eq)]
pub enum UpstreamKind {
    /// A policy node that races the listed upstreams.
    Hybrid(Vec<String>),
    /// A DNS-over-HTTPS endpoint.
    Https { name: String, addr: SocketAddress, no_sni: bool },
    /// A plain UDP endpoint.
    Udp(SocketAddress),
}

/// One configured upstream: its tag, how it is reached and its deadline in seconds.
#[derive(Debug, Clone, PartialEq, Eq)]
pub struct Upstream {
    pub tag: String,
    pub method: UpstreamKind,
    pub timeout: u64,
}

/// The shape of a registry: each tag maps to its hybrid members, or to `None`
/// for a network endpoint.
pub type Topology = Map<Seq<char>, Option<Seq<Seq<char>>>>;

pub open spec fn tags(v: Seq<String>) -> Seq<Seq<char>> {
    v.map_values(|s: String| s@)
}

pub open spec fn members(k: UpstreamKind) -> Option<Seq<Seq<char>>> {
    match k {
        UpstreamKind::Hybrid(v) => Some(tags(v@)),
        _ => None,
    }
}

/// The registry built from a list of upstreams; a later entry replaces an
/// earlier one with the same tag.
pub open spec fn table_of(s: Seq<Upstream>) -> Topology
    decreases s.len(),
{
    if s.len() == 0 {
        Map::empty()
    } else {
        table_of(s.drop_last()).insert(s.last().tag@, members(s.last().method))
    }
}

/// Index of the entry that a tag resolves to: the last one with that tag, or -1.
pub open spec fn slot(s: Seq<Upstream>, t: Seq<char>) -> int
    decreases s.len(),
{
    if s.len() == 0 {
        -1
    } else if s.last().tag@ == t {
        s.len() - 1
    } else {
        slot(s.drop_last(), t)
    }
}

pub open spec fn children(g: Topology, t: Seq<char>) -> Seq<Seq<char>> {
    if g.contains_key(t) {
        match g[t] {
            Some(v) => v,
            None => Seq::empty(),
        }
    } else {
        Seq::empty()
    }
}

/// `b` is listed as a member of the hybrid upstream `a`.
pub open spec fn edge(g: Topology, a: Seq<char>, b: Seq<char>) -> bool {
    g.contains_key(a) && children(g, a).contains(b)
}

/// A non-empty sequence of tags, each listed as a member of the one before.
pub open spec fn is_walk(g: Topology, p: Seq<Seq<char>>) -> bool {
    p.len() > 0 && forall|i: int| 0 <= i < p.len() - 1 ==> #[trigger] edge(g, p[i], p[i + 1])
}

/// `b` can be reached from `a` by following at least one hybrid reference.
pub open spec fn reaches(g: Topology, a: Seq<char>, b: Seq<char>) -> bool {
    exists|p: Seq<Seq<char>>| #[trigger] is_walk(g, p) && p.len() >= 2 && p[0] == a && p.last() == b
}

pub open spec fn on_cycle(g: Topology, t: Seq<char>) -> bool {
    reaches(g, t, t)
}

pub open spec fn is_empty_hybrid(g: Topology, t: Seq<char>) -> bool {
    g.contains_key(t) && g[t] == Some(Seq::<Seq<char>>::empty())
}

/// `t` is listed in some hybrid but names no upstream.
pub open spec fn is_dangling(g: Topology, t: Seq<char>) -> bool {
    !g.contains_key(t) && exists|a: Seq<char>| #[trigger] edge(g, a, t)
}

pub open spec fn has_cycle(g: Topology) -> bool {
    exists|t: Seq<char>| #[trigger] on_cycle(g, t)
}

pub open spec fn has_empty_hybrid(g: Topology) -> bool {
    exists|t: Seq<char>| #[trigger] is_empty_hybrid(g, t)
}

pub open spec fn has_missing_tag(g: Topology) -> bool {
    exists|t: Seq<char>| #[trigger] is_dangling(g, t)
}

/// Every hybrid is non-empty, every referenced tag exists and no tag reaches itself.
pub open spec fn is_sound(g: Topology) -> bool {
    !has_cycle(g) && !has_empty_hybrid(g) && !has_missing_tag(g)
}

/// The error names a real defect of the registry.
pub open spec fn is_defect(g: Topology, e: DrouteError) -> bool {
    match e {
        DrouteError::HybridRecursion(x) => on_cycle(g, x@),
        DrouteError::EmptyHybrid(x) => is_empty_hybrid(g, x@),
        DrouteError::MissingTag(x) => is_dangling(g, x@),
        _ => false,
    }
}

/// Every tag of the walk exists, is no empty hybrid, is off `path`, and none repeats.
pub open spec fn walk_clear(g: Topology, path: Seq<Seq<char>>, p: Seq<Seq<char>>) -> bool {
    &&& p.no_duplicates()
    &&& forall|i: int|
        0 <= i < p.len() ==> g.contains_key(#[trigger] p[i]) && !is_empty_hybrid(g, p[i])
            && !path.contains(p[i])
}

/// Every walk from `t` is clear of defects and of the tags on `path`.
pub open spec fn clear_from(g: Topology, path: Seq<Seq<char>>, t: Seq<char>) -> bool {
    forall|p: Seq<Seq<char>>| #[trigger] is_walk(g, p) && p[0] == t ==> walk_clear(g, path, p)
}

/// What an error of a search from `t`, below the ancestors `path`, tells of the registry.
pub open spec fn search_error(
    g: Topology,
    path: Seq<Seq<char>>,
    t: Seq<char>,
    e: DrouteError,
) -> bool {
    match e {
        DrouteError::HybridRecursion(x) => on_cycle(g, x@) || (path.contains(x@) && (x@ == t
            || reaches(g, t, x@))),
        DrouteError::EmptyHybrid(x) => is_empty_hybrid(g, x@),
        DrouteError::MissingTag(x) => !g.contains_key(x@) && (x@ == t || is_dangling(g, x@)),
        _ => false,
    }
}

proof fn lemma_table_last(s: Seq<Upstream>, i: int, t: Seq<char>)
    requires
        0 <= i < s.len(),
        s[i].tag@ == t,
        forall|j: int| i < j < s.len() ==> s[j].tag@ != t,
    ensures
        table_of(s).contains_key(t),
        table_of(s)[t] == members(s[i].method),
        slot(s, t) == i,
    decreases s.len(),
{
    if i < s.len() - 1 {
        lemma_table_last(s.drop_last(), i, t);
    }
}

proof fn lemma_table_absent(s: Seq<Upstream>, t: Seq<char>)
    requires
        forall|j: int| 0 <= j < s.len() ==> s[j].tag@ != t,
    ensures
        !table_of(s).contains_key(t),
        slot(s, t) == -1,
    decreases s.len(),
{
    if s.len() > 0 {
        lemma_table_absent(s.drop_last(), t);
    }
}

proof fn lemma_slot(s: Seq<Upstream>, t: Seq<char>)
    ensures
        -1 <= slot(s, t) < s.len(),
        slot(s, t) >= 0 <==> table_of(s).contains_key(t),
    decreases s.len(),
{
    if s.len() > 0 {
        lemma_slot(s.drop_last(), t);
    }
}

proof fn lemma_table_has(s: Seq<Upstream>, i: int)
    requires
        0 <= i < s.len(),
    ensures
        table_of(s).contains_key(s[i].tag@),
    decreases s.len(),
{
    if i < s.len() - 1 {
        lemma_table_has(s.drop_last(), i);
    }
}

proof fn lemma_table_key(s: Seq<Upstream>, t: Seq<char>) -> (j: int)
    requires
        table_of(s).contains_key(t),
    ensures
        0 <= j < s.len(),
        s[j].tag@ == t,
    decreases s.len(),
{
    if s.last().tag@ == t {
        s.len() - 1
    } else {
        lemma_table_key(s.drop_last(), t)
    }
}

proof fn lemma_table_size(s: Seq<Upstream>)
    ensures
        table_of(s).dom().finite(),
        table_of(s).dom().len() <= s.len(),
    decreases s.len(),
{
    if s.len() > 0 {
        lemma_table_size(s.drop_last());
    }
}

/// A path of distinct registered tags is no longer than the list of upstreams.
proof fn lemma_path_bound(s: Seq<Upstream>, path: Seq<Seq<char>>)
    requires
        path.no_duplicates(),
        forall|k: int| 0 <= k < path.len() ==> table_of(s).contains_key(#[trigger] path[k]),
    ensures
        path.len() <= s.len(),
{
    lemma_table_size(s);
    path.unique_seq_to_set();
    assert(path.to_set().subset_of(table_of(s).dom()));
    lemma_len_subset(path.to_set(), table_of(s).dom());
}

proof fn lemma_prepend(g: Topology, a: Seq<char>, c: Seq<char>, x: Seq<char>)
    requires
        edge(g, a, c),
        c == x || reaches(g, c, x),
    ensures
        reaches(g, a, x),
{
    if c == x {
        let p = seq![a, c];
        assert(edge(g, p[0], p[1]));
        assert(is_walk(g, p));
    } else {
        let q = choose|q: Seq<Seq<char>>| #[trigger] is_walk(g, q) && q.len() >= 2 && q[0] == c
            && q.last() == x;
        let p = seq![a] + q;
        assert forall|i: int| 0 <= i < p.len() - 1 implies #[trigger] edge(g, p[i], p[i + 1]) by {
            if i > 0 {
                assert(p[i] == q[i - 1] && p[i + 1] == q[i]);
                assert(edge(g, q[i - 1], q[i - 1 + 1]));
            }
        }
        assert(is_walk(g, p));
        assert(p.last() == x);
    }
}

/// A search below `t` that failed in a member `c` of `t` fails in the same way at `t`.
proof fn lemma_lift_error(
    g: Topology,
    path: Seq<Seq<char>>,
    t: Seq<char>,
    c: Seq<char>,
    e: DrouteError,
)
    requires
        edge(g, t, c),
        search_error(g, path.push(t), c, e),
    ensures
        search_error(g, path, t, e),
{
    match e {
        DrouteError::HybridRecursion(x) => {
            if !on_cycle(g, x@) {
                lemma_prepend(g, t, c, x@);
                if x@ != t {
                    let k = choose|k: int| 0 <= k < path.push(t).len() && path.push(t)[k] == x@;
                    assert(path[k] == x@);
                }
            }
        },
        DrouteError::MissingTag(x) => {
            if x@ == c {
                assert(edge(g, t, x@));
            }
        },
        _ => {},
    }
}

/// A registered tag, off `path`, that is no empty hybrid and whose members are all
/// clear below it, is clear itself.
proof fn lemma_clear_node(g: Topology, path: Seq<Seq<char>>, t: Seq<char>)
    requires
        g.contains_key(t),
        !path.contains(t),
        !is_empty_hybrid(g, t),
        forall|c: Seq<char>| children(g, t).contains(c) ==> clear_from(g, path.push(t), c),
    ensures
        clear_from(g, path, t),
{
    assert forall|p: Seq<Seq<char>>| #[trigger] is_walk(g, p) && p[0] == t implies walk_clear(
        g,
        path,
        p,
    ) by {
        if p.len() > 1 {
            assert(edge(g, p[0], p[0int + 1]));
            let q = p.subrange(1, p.len() as int);
            assert forall|i: int| 0 <= i < q.len() - 1 implies #[trigger] edge(g, q[i], q[i + 1]) by {
                assert(edge(g, p[i + 1], p[i + 1 + 1]));
            }
            assert(is_walk(g, q));
            assert(clear_from(g, path.push(t), q[0]));
            assert(walk_clear(g, path.push(t), q));
            assert forall|i: int| 0 <= i < p.len() implies g.contains_key(#[trigger] p[i])
                && !is_empty_hybrid(g, p[i]) && !path.contains(p[i]) by {
                if i > 0 {
                    assert(p[i] == q[i - 1]);
                    if path.contains(p[i]) {
                        let k = choose|k: int| 0 <= k < path.len() && path[k] == p[i];
                        assert(path.push(t)[k] == p[i]);
                    }
                }
            }
            assert forall|i: int, j: int| 0 <= i < p.len() && 0 <= j < p.len() && i != j implies p[i]
                != p[j] by {
                if i > 0 && j > 0 {
                    assert(p[i] == q[i - 1] && p[j] == q[j - 1]);
                } else if i == 0 {
                    assert(p[j] == q[j - 1]);
                    assert(path.push(t)[path.len() as int] == t);
                    assert(!path.push(t).contains(q[j - 1]));
                } else {
                    assert(p[i] == q[i - 1]);
                    assert(path.push(t)[path.len() as int] == t);
                    assert(!path.push(t).contains(q[i - 1]));
                }
            }
        } else {
            assert(p[0] == t);
        }
    }
}

/// A tag on `path`, unregistered, or an empty hybrid is not clear.
proof fn lemma_single_unclear(g: Topology, path: Seq<Seq<char>>, t: Seq<char>)
    requires
        path.contains(t) || !g.contains_key(t) || is_empty_hybrid(g, t),
    ensures
        !clear_from(g, path, t),
{
    let p = seq![t];
    assert(is_walk(g, p));
    assert(p[0] == t);
    assert(!walk_clear(g, path, p));
}

/// A member of `t` that is not clear below `t` leaves `t` not clear.
proof fn lemma_unclear_lift(g: Topology, path: Seq<Seq<char>>, t: Seq<char>, c: Seq<char>)
    requires
        edge(g, t, c),
        !clear_from(g, path.push(t), c),
    ensures
        !clear_from(g, path, t),
{
    let q = choose|q: Seq<Seq<char>>| #[trigger] is_walk(g, q) && q[0] == c && !walk_clear(
        g,
        path.push(t),
        q,
    );
    let p = seq![t] + q;
    assert forall|i: int| 0 <= i < p.len() - 1 implies #[trigger] edge(g, p[i], p[i + 1]) by {
        if i > 0 {
            assert(p[i] == q[i - 1] && p[i + 1] == q[i]);
            assert(edge(g, q[i - 1], q[i - 1 + 1]));
        }
    }
    assert(is_walk(g, p));
    assert(p[0] == t);
    if walk_clear(g, path, p) {
        assert forall|i: int| 0 <= i < q.len() implies g.contains_key(#[trigger] q[i])
            && !is_empty_hybrid(g, q[i]) && !path.push(t).contains(q[i]) by {
            assert(p[i + 1] == q[i]);
            if path.push(t).contains(q[i]) {
                let k = choose|k: int| 0 <= k < path.push(t).len() && path.push(t)[k] == q[i];
                if k < path.len() {
                    assert(path[k] == q[i]);
                    assert(path.contains(p[i + 1]));
                } else {
                    assert(q[i] == t);
                    assert(p[0] == p[i + 1]);
                }
            }
        }
        assert forall|i: int, j: int| 0 <= i < q.len() && 0 <= j < q.len() && i != j implies q[i]
            != q[j] by {
            assert(p[i + 1] == q[i] && p[j + 1] == q[j]);
        }
        assert(walk_clear(g, path.push(t), q));
    }
}

proof fn lemma_defect(g: Topology, e: DrouteError)
    requires
        is_defect(g, e),
    ensures
        !is_sound(g),
        e is HybridRecursion ==> has_cycle(g),
        e is EmptyHybrid ==> has_empty_hybrid(g),
        e is MissingTag ==> has_missing_tag(g),
{
    match e {
        DrouteError::HybridRecursion(x) => assert(on_cycle(g, x@)),
        DrouteError::EmptyHybrid(x) => assert(is_empty_hybrid(g, x@)),
        DrouteError::MissingTag(x) => assert(is_dangling(g, x@)),
        _ => {},
    }
}

/// A registry in which every registered tag is clear from an empty path is sound.
proof fn lemma_all_clear(s: Seq<Upstream>)
    requires
        forall|j: int|
            0 <= j < s.len() ==> clear_from(table_of(s), Seq::empty(), #[trigger] s[j].tag@),
    ensures
        is_sound(table_of(s)),
{
    let g = table_of(s);
    assert forall|t: Seq<char>| !#[trigger] on_cycle(g, t) by {
        if on_cycle(g, t) {
            let p = choose|p: Seq<Seq<char>>| #[trigger] is_walk(g, p) && p.len() >= 2 && p[0] == t
                && p.last() == t;
            assert(edge(g, p[0], p[0int + 1]));
            let j = lemma_table_key(s, t);
            assert(walk_clear(g, Seq::empty(), p));
            assert(p[0] == p[p.len() - 1]);
        }
    }
    assert forall|t: Seq<char>| !#[trigger] is_empty_hybrid(g, t) by {
        if is_empty_hybrid(g, t) {
            let j = lemma_table_key(s, t);
            let p = seq![t];
            assert(is_walk(g, p));
            assert(walk_clear(g, Seq::empty(), p));
            assert(p[0] == t);
        }
    }
    assert forall|t: Seq<char>| !#[trigger] is_dangling(g, t) by {
        if is_dangling(g, t) {
            let a = choose|a: Seq<char>| #[trigger] edge(g, a, t);
            let j = lemma_table_key(s, a);
            let p = seq![a, t];
            assert(edge(g, p[0], p[1]));
            assert(is_walk(g, p));
            assert(walk_clear(g, Seq::empty(), p));
            assert(p[1] == t);
        }
    }
}

fn copy_tags(v: &Vec<String>) -> (r: Vec<String>)
    ensures
        r@ == v@,
{
    let mut r: Vec<String> = Vec::new();
    let mut i: usize = 0;
    while i < v.len()
        invariant
            i <= v.len(),
            r@ == v@.subrange(0, i as int),
        decreases v.len() - i,
    {
        r.push(v[i].clone());
        i += 1;
    }
    assert(r@ =~= v@);
    r
}

/// Where a query for a tag goes.
#[derive(Debug, Clone, PartialEq, Eq)]
pub enum Route {
    /// Race the listed tags; the first answer wins.
    Race(Vec<String>),
    /// Ask the upstream itself, through the cache.
    Direct,
}

/// What to do with a query, given what the cache holds.
#[derive(Debug, Clone, PartialEq, Eq)]
pub enum Plan {
    /// Answer with this message; nothing is sent.
    Reply(Message),
    /// Answer with this outdated message and refresh the cache in the background.
    ReplyAndRefresh(Message),
    /// Nothing is cached: ask the upstream.
    Query,
}

/// A client lent out for one query: its id in the pool, the client itself where an
/// idle one was pooled (else the caller builds one), and the deadline in seconds.
pub struct Lease<C> {
    pub id: u64,
    pub client: Option<C>,
    pub timeout: u64,
}

pub open spec fn lease_view<C>(r: Result<Lease<C>, DrouteError>) -> Result<(u64, Option<C>), DrouteError> {
    match r {
        Ok(l) => Ok((l.id, l.client)),
        Err(e) => Err(e),
    }
}

/// The validated upstream registry, with a client pool for each upstream and the
/// response cache that they share.
pub struct Upstreams<C> {
    upstreams: Vec<Upstream>,
    client_cache: Vec<ClientPool<C>>,
    resp_cache: RespCache,
}

impl<C> Upstreams<C> {
    /// The configured upstreams, in the order they were given.
    pub closed spec fn entries(&self) -> Seq<Upstream> {
        self.upstreams@
    }

    /// The registry as a map from tag to hybrid members.
    pub open spec fn topology(&self) -> Topology {
        table_of(self.entries())
    }

    /// Index of the entry that holds `tag`: the last one with that tag.
    fn find(&self, tag: &String) -> (r: Option<usize>)
        ensures
            match r {
                Some(i) => i < self.upstreams.len() && self.upstreams@[i as int].tag@ == tag@
                    && i as int == slot(self.entries(), tag@)
                    && self.topology().contains_key(tag@) && self.topology()[tag@] == members(
                    self.upstreams@[i as int].method,
                ),
                None => !self.topology().contains_key(tag@) && slot(self.entries(), tag@) == -1,
            },
    {
        let mut i = self.upstreams.len();
        while i > 0
            invariant
                i <= self.upstreams.len(),
                forall|j: int| i <= j < self.upstreams.len() ==> self.upstreams@[j].tag@ != tag@,
            decreases i,
        {
            i = i - 1;
            if self.upstreams[i].tag == *tag {
                proof {
                    lemma_table_last(self.upstreams@, i as int, tag@);
                }
                return Some(i);
            }
        }
        proof {
            lemma_table_absent(self.upstreams@, tag@);
        }
        None
    }

    /// Depth-first check below `tag`; `visited` holds the tags on the path to it.
    fn hybrid_search(&self, visited: Vec<String>, tag: String) -> (r: Result<(), DrouteError>)
        requires
            tags(visited@).no_duplicates(),
            forall|k: int| 0 <= k < visited.len() ==> self.topology().contains_key(#[trigger] tags(visited@)[k]),
        ensures
            r is Ok ==> clear_from(self.topology(), tags(visited@), tag@),
            r matches Err(e) ==> search_error(self.topology(), tags(visited@), tag@, e),
            r is Ok <==> clear_from(self.topology(), tags(visited@), tag@),
            tags(visited@).contains(tag@) ==> r == Err::<(), DrouteError>(
                DrouteError::HybridRecursion(tag),
            ),
            !tags(visited@).contains(tag@) && !self.topology().contains_key(tag@) ==> r == Err::<
                (),
                DrouteError,
            >(DrouteError::MissingTag(tag)),
            !tags(visited@).contains(tag@) && is_empty_hybrid(self.topology(), tag@) ==> r == Err::<
                (),
                DrouteError,
            >(DrouteError::EmptyHybrid(tag)),
            !tags(visited@).contains(tag@) && self.topology().contains_key(tag@)
                && self.topology()[tag@] is None ==> r is Ok,
        decreases self.upstreams@.len() - visited@.len(),
    {
        let ghost g = self.topology();
        let ghost path = tags(visited@);
        let mut k: usize = 0;
        while k < visited.len()
            invariant
                k <= visited.len(),
                g == self.topology(),
                path == tags(visited@),
                forall|j: int| 0 <= j < k ==> path[j] != tag@,
            decreases visited.len() - k,
        {
            if visited[k] == tag {
                assert(path[k as int] == tag@);
                proof {
                    lemma_single_unclear(g, path, tag@);
                }
                return Err(DrouteError::HybridRecursion(tag));
            }
            k += 1;
        }
        assert(!path.contains(tag@));
        let idx = match self.find(&tag) {
            Some(i) => i,
            None => {
                proof {
                    lemma_single_unclear(g, path, tag@);
                }
                return Err(DrouteError::MissingTag(tag));
            },
        };
        let mut next = visited;
        next.push(tag.clone());
        assert(tags(next@) =~= path.push(tag@));
        proof {
            assert forall|i: int, j: int|
                0 <= i < tags(next@).len() && 0 <= j < tags(next@).len() && i != j implies tags(
                next@,
            )[i] != tags(next@)[j] by {
                if i < path.len() && j < path.len() {
                } else if i == path.len() {
                    assert(path[j] != tag@);
                } else {
                    assert(path[i] != tag@);
                }
            }
            lemma_path_bound(self.upstreams@, tags(next@));
        }
        match &self.upstreams[idx].method {
            UpstreamKind::Hybrid(v) => {
                if v.len() == 0 {
                    assert(tags(v@) =~= Seq::<Seq<char>>::empty());
                    proof {
                        lemma_single_unclear(g, path, tag@);
                    }
                    return Err(DrouteError::EmptyHybrid(tag));
                }
                assert(children(g, tag@) == tags(v@));
                assert(!is_empty_hybrid(g, tag@)) by {
                    assert(tags(v@).len() > 0);
                }
                let mut i: usize = 0;
                while i < v.len()
                    invariant
                        i <= v.len(),
                        g == self.topology(),
                        path == tags(visited@),
                        !path.contains(tag@),
                        g.contains_key(tag@),
                        g[tag@] is Some,
                        !is_empty_hybrid(g, tag@),
                        next@.len() == visited@.len() + 1,
                        children(g, tag@) == tags(v@),
                        tags(next@) == path.push(tag@),
                        tags(next@).no_duplicates(),
                        next@.len() <= self.upstreams@.len(),
                        forall|k: int|
                            0 <= k < next.len() ==> self.topology().contains_key(
                                #[trigger] tags(next@)[k],
                            ),
                        forall|j: int| 0 <= j < i ==> clear_from(g, path.push(tag@), #[trigger] tags(v@)[j]),
                    decreases v.len() - i,
                {
                    let below = copy_tags(&next);
                    match self.hybrid_search(below, v[i].clone()) {
                        Ok(()) => {},
                        Err(e) => {
                            proof {
                                assert(tags(v@)[i as int] == v@[i as int]@);
                                assert(edge(g, tag@, v@[i as int]@));
                                lemma_lift_error(g, path, tag@, v@[i as int]@, e);
                                lemma_unclear_lift(g, path, tag@, v@[i as int]@);
                            }
                            return Err(e);
                        },
                    }
                    assert(tags(v@)[i as int] == v@[i as int]@);
                    i += 1;
                }
                proof {
                    assert(!is_empty_hybrid(g, tag@)) by {
                        assert(tags(v@).len() > 0);
                    }
                    assert forall|c: Seq<char>| children(g, tag@).contains(c) implies clear_from(
                        g,
                        path.push(tag@),
                        c,
                    ) by {
                        let j = choose|j: int| 0 <= j < tags(v@).len() && tags(v@)[j] == c;
                    }
                    lemma_clear_node(g, path, tag@);
                }
                Ok(())
            },
            _ => {
                proof {
                    assert(children(g, tag@) =~= Seq::<Seq<char>>::empty());
                    lemma_clear_node(g, path, tag@);
                }
                Ok(())
            },
        }
    }

    /// Checks that every hybrid is non-empty, every referenced tag exists and no
    /// chain of hybrid references comes back to a tag on its own path.
    pub fn hybrid_check(&self) -> (r: Result<bool, DrouteError>)
        ensures
            r is Ok <==> is_sound(self.topology()),
            r is Ok ==> r == Ok::<bool, DrouteError>(true),
            r matches Err(e) ==> is_defect(self.topology(), e),
            has_cycle(self.topology()) && !has_empty_hybrid(self.topology()) && !has_missing_tag(
                self.topology(),
            ) ==> r matches Err(DrouteError::HybridRecursion(_)),
            has_empty_hybrid(self.topology()) && !has_cycle(self.topology()) && !has_missing_tag(
                self.topology(),
            ) ==> r matches Err(DrouteError::EmptyHybrid(_)),
            has_missing_tag(self.topology()) && !has_cycle(self.topology()) && !has_empty_hybrid(
                self.topology(),
            ) ==> r matches Err(DrouteError::MissingTag(_)),
    {
        let ghost g = self.topology();
        let mut i: usize = 0;
        while i < self.upstreams.len()
            invariant
                i <= self.upstreams.len(),
                g == self.topology(),
                forall|j: int|
                    0 <= j < i ==> clear_from(g, Seq::empty(), #[trigger] self.upstreams@[j].tag@),
            decreases self.upstreams.len() - i,
        {
            let empty: Vec<String> = Vec::new();
            assert(tags(empty@) =~= Seq::<Seq<char>>::empty());
            match self.hybrid_search(empty, self.upstreams[i].tag.clone()) {
                Ok(()) => {},
                Err(e) => {
                    proof {
                        lemma_table_has(self.upstreams@, i as int);
                        assert(is_defect(g, e));
                        lemma_defect(g, e);
                    }
                    return Err(e);
                },
            }
            i += 1;
        }
        proof {
            lemma_all_clear(self.upstreams@);
        }
        Ok(true)
    }

    /// The client pool of the upstream that `t` resolves to.
    pub closed spec fn pool(&self, t: Seq<char>) -> ClientPool<C> {
        self.client_cache@[slot(self.upstreams@, t)]
    }

    /// The shared response cache.
    pub closed spec fn cache(&self) -> RespCache {
        self.resp_cache
    }

    pub closed spec fn pools_wf(&self) -> bool {
        &&& self.client_cache@.len() == self.upstreams@.len()
        &&& forall|i: int| 0 <= i < self.client_cache@.len() ==> #[trigger] self.client_cache@[i].wf()
    }

    pub open spec fn wf(&self) -> bool {
        &&& self.pools_wf()
        &&& self.cache().wf()
        &&& is_sound(self.topology())
    }

    /// Builds the registry from `upstreams` (a later entry replaces an earlier one
    /// with the same tag), with one pool per upstream and a cache of `size` answers,
    /// and refuses a registry with a defect.
    pub fn new(upstreams: Vec<Upstream>, size: usize) -> (r: Result<Upstreams<C>, DrouteError>)
        ensures
            r is Ok <==> is_sound(table_of(upstreams@)),
            r matches Err(e) ==> is_defect(table_of(upstreams@), e),
            r matches Ok(u) ==> {
                &&& u.wf()
                &&& u.entries() == upstreams@
                &&& u.cache().records().len() == 0
                &&& u.cache().capacity() == size
            },
    {
        let mut c: Vec<ClientPool<C>> = Vec::new();
        let mut i: usize = 0;
        while i < upstreams.len()
            invariant
                i <= upstreams.len(),
                c@.len() == i,
                forall|k: int| 0 <= k < i ==> #[trigger] c@[k].wf(),
            decreases upstreams.len() - i,
        {
            c.push(ClientPool::new());
            i += 1;
        }
        let u = Upstreams { upstreams, client_cache: c, resp_cache: RespCache::new(size) };
        match u.hybrid_check() {
            Ok(_) => Ok(u),
            Err(e) => Err(e),
        }
    }

    /// Whether `tag` names an upstream.
    pub fn exists_tag(&self, tag: &String) -> (r: Result<bool, DrouteError>)
        ensures
            self.topology().contains_key(tag@) ==> r == Ok::<bool, DrouteError>(true),
            !self.topology().contains_key(tag@) ==> (r matches Err(DrouteError::MissingTag(t))
                && t@ == tag@),
    {
        match self.find(tag) {
            Some(_) => Ok(true),
            None => Err(DrouteError::MissingTag(tag.clone())),
        }
    }

    /// Where a query for `tag` goes: a race over the members of a hybrid, or the
    /// upstream itself.
    pub fn resolve(&self, tag: &String) -> (r: Route)
        requires
            self.topology().contains_key(tag@),
        ensures
            match self.topology()[tag@] {
                Some(ms) => (r matches Route::Race(v) && tags(v@) == ms),
                None => r is Direct,
            },
    {
        let i = match self.find(tag) {
            Some(i) => i,
            None => {
                return Route::Direct;
            },
        };
        match &self.upstreams[i].method {
            UpstreamKind::Hybrid(v) => Route::Race(copy_tags(v)),
            _ => Route::Direct,
        }
    }

    /// Decides how to answer `msg` at `now` from the cache: a fresh answer is given
    /// at once, an outdated one is given at once and refreshed, and without one the
    /// upstream is asked. A given answer carries the id of `msg`.
    pub fn final_resolve(&self, msg: &Message, now: u64) -> (r: Plan)
        ensures
            ({
                let s = self.cache().records();
                let p = position(s, question_of(msg@));
                &&& p < 0 <==> r is Query
                &&& r matches Plan::Reply(m) ==> p >= 0 && is_fresh(s[p], now) && m@ == with_id(
                    s[p].0,
                    msg@.0,
                )
                &&& r matches Plan::ReplyAndRefresh(m) ==> p >= 0 && !is_fresh(s[p], now) && m@
                    == with_id(s[p].0, msg@.0)
            }),
    {
        let id = msg.id();
        match self.resp_cache.lookup(msg, now) {
            RecordStatus::Fresh(mut m) => {
                m.set_id(id);
                Plan::Reply(m)
            },
            RecordStatus::Stale(mut m) => {
                m.set_id(id);
                Plan::ReplyAndRefresh(m)
            },
            RecordStatus::Missing => Plan::Query,
        }
    }

    /// Lends a client of `tag`'s pool out for one query.
    pub fn begin_query(&mut self, tag: &String) -> (r: Result<Lease<C>, DrouteError>)
        requires
            old(self).wf(),
            old(self).topology().contains_key(tag@),
        ensures
            final(self).wf(),
            final(self).entries() == old(self).entries(),
            final(self).cache() == old(self).cache(),
            forall|t: Seq<char>|
                old(self).topology().contains_key(t) && slot(old(self).entries(), t) != slot(
                    old(self).entries(),
                    tag@,
                ) ==> #[trigger] final(self).pool(t) == old(self).pool(t),
            acquired(
                old(self).pool(tag@).idle(),
                old(self).pool(tag@).lent(),
                old(self).pool(tag@).next_id(),
                final(self).pool(tag@).idle(),
                final(self).pool(tag@).lent(),
                final(self).pool(tag@).next_id(),
                lease_view(r),
            ),
            r matches Ok(l) ==> l.timeout == old(self).entries()[slot(old(self).entries(), tag@)].timeout,
    {
        let i = match self.find(tag) {
            Some(i) => i,
            None => {
                return Err(DrouteError::ClientCreation);
            },
        };
        let timeout = self.upstreams[i].timeout;
        let r = self.client_cache[i].acquire();
        proof {
            assert(self.client_cache@[i as int].wf());
            assert forall|k: int| 0 <= k < self.client_cache@.len() implies #[trigger] self.client_cache@[k].wf() by {
                if k != i {
                    assert(self.client_cache@[k] == old(self).client_cache@[k]);
                }
            }
            assert forall|t: Seq<char>|
                old(self).topology().contains_key(t) && slot(old(self).entries(), t) != i implies #[trigger] self.pool(t) == old(self).pool(t) by {
                lemma_slot(old(self).entries(), t);
            }
        }
        match r {
            Ok((id, client)) => Ok(Lease { id, client, timeout }),
            Err(e) => Err(e),
        }
    }

    /// Ends the query that holds lease `id` of `tag`'s pool. On an answer the client
    /// goes back to the pool and the answer into the cache; on a failure the client
    /// is dropped and the error passed on.
    pub fn complete_query(
        &mut self,
        tag: &String,
        id: u64,
        outcome: Result<(C, Message), DrouteError>,
        now: u64,
    ) -> (r: Result<Message, DrouteError>)
        requires
            old(self).wf(),
            old(self).topology().contains_key(tag@),
            old(self).pool(tag@).lent().contains(id),
        ensures
            final(self).wf(),
            final(self).entries() == old(self).entries(),
            forall|t: Seq<char>|
                old(self).topology().contains_key(t) && slot(old(self).entries(), t) != slot(
                    old(self).entries(),
                    tag@,
                ) ==> #[trigger] final(self).pool(t) == old(self).pool(t),
            final(self).pool(tag@).lent() == old(self).pool(tag@).lent().remove(id),
            final(self).pool(tag@).next_id() == old(self).pool(tag@).next_id(),
            final(self).cache().capacity() == old(self).cache().capacity(),
            match outcome {
                Ok((c, m)) => {
                    &&& (r matches Ok(x) && x@ == m@)
                    &&& final(self).pool(tag@).idle() == old(self).pool(tag@).idle().push((id, c))
                    &&& final(self).cache().records() == stored(
                        old(self).cache().records(),
                        m@,
                        now,
                        old(self).cache().capacity(),
                    )
                },
                Err(e) => {
                    &&& r == Err::<Message, DrouteError>(e)
                    &&& final(self).pool(tag@).idle() == old(self).pool(tag@).idle()
                    &&& final(self).cache() == old(self).cache()
                },
            },
    {
        let i = match self.find(tag) {
            Some(i) => i,
            None => {
                return Err(DrouteError::ClientCreation);
            },
        };
        let r = match outcome {
            Ok((client, m)) => {
                self.client_cache[i].release(id, client);
                self.resp_cache.store(m.duplicate(), now);
                Ok(m)
            },
            Err(e) => {
                self.client_cache[i].discard(id);
                Err(e)
            },
        };
        proof {
            assert forall|k: int| 0 <= k < self.client_cache@.len() implies #[trigger] self.client_cache@[k].wf() by {
                if k != i {
                    assert(self.client_cache@[k] == old(self).client_cache@[k]);
                }
            }
            assert forall|t: Seq<char>|
                old(self).topology().contains_key(t) && slot(old(self).entries(), t) != i implies #[trigger] self.pool(t) == old(self).pool(t) by {
                lemma_slot(old(self).entries(), t);
            }
        }
        r
    }

    /// Ends the query of a cache miss as `complete_query` does; the answer handed
    /// back carries the id of `msg`, the query it answers, while the cache keeps
    /// the upstream's answer as it came.
    pub fn complete_resolve(
        &mut self,
        tag: &String,
        id: u64,
        outcome: Result<(C, Message), DrouteError>,
        now: u64,
        msg: &Message,
    ) -> (r: Result<Message, DrouteError>)
        requires
            old(self).wf(),
            old(self).topology().contains_key(tag@),
            old(self).pool(tag@).lent().contains(id),
        ensures
            final(self).wf(),
            final(self).entries() == old(self).entries(),
            forall|t: Seq<char>|
                old(self).topology().contains_key(t) && slot(old(self).entries(), t) != slot(
                    old(self).entries(),
                    tag@,
                ) ==> #[trigger] final(self).pool(t) == old(self).pool(t),
            final(self).pool(tag@).lent() == old(self).pool(tag@).lent().remove(id),
            final(self).pool(tag@).next_id() == old(self).pool(tag@).next_id(),
            final(self).cache().capacity() == old(self).cache().capacity(),
            match outcome {
                Ok((c, m)) => {
                    &&& (r matches Ok(x) && x@ == with_id(m@, msg@.0))
                    &&& final(self).pool(tag@).idle() == old(self).pool(tag@).idle().push((id, c))
                    &&& final(self).cache().records() == stored(
                        old(self).cache().records(),
                        m@,
                        now,
                        old(self).cache().capacity(),
                    )
                },
                Err(e) => {
                    &&& r == Err::<Message, DrouteError>(e)
                    &&& final(self).pool(tag@).idle() == old(self).pool(tag@).idle()
                    &&& final(self).cache() == old(self).cache()
                },
            },
    {
        match self.complete_query(tag, id, outcome, now) {
            Ok(mut x) => {
                x.set_id(msg.id());
                Ok(x)
            },
            Err(e) => Err(e),
        }
    }

    /// Puts a client lent out by `begin_query` back into `tag`'s pool without a query,
    /// as when clients are built ahead of traffic.
    pub fn return_client(&mut self, tag: &String, id: u64, client: C)
        requires
            old(self).wf(),
            old(self).topology().contains_key(tag@),
            old(self).pool(tag@).lent().contains(id),
        ensures
            final(self).wf(),
            final(self).entries() == old(self).entries(),
            final(self).cache() == old(self).cache(),
            forall|t: Seq<char>|
                old(self).topology().contains_key(t) && slot(old(self).entries(), t) != slot(
                    old(self).entries(),
                    tag@,
                ) ==> #[trigger] final(self).pool(t) == old(self).pool(t),
            final(self).pool(tag@).idle() == old(self).pool(tag@).idle().push((id, client)),
            final(self).pool(tag@).lent() == old(self).pool(tag@).lent().remove(id),
            final(self).pool(tag@).next_id() == old(self).pool(tag@).next_id(),
    {
        let i = match self.find(tag) {
            Some(i) => i,
            None => {
                return;
            },
        };
        self.client_cache[i].release(id, client);
        proof {
            assert forall|k: int| 0 <= k < self.client_cache@.len() implies #[trigger] self.client_cache@[k].wf() by {
                if k != i {
                    assert(self.client_cache@[k] == old(self).client_cache@[k]);
                }
            }
            assert forall|t: Seq<char>|
                old(self).topology().contains_key(t) && slot(old(self).entries(), t) != i implies #[trigger] self.pool(t) == old(self).pool(t) by {
                lemma_slot(old(self).entries(), t);
            }
        }
    }
}

} // verus!
