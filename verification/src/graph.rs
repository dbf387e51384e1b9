//! Graph construction: named adjacency lists accumulated by a builder, then
//! frozen into an immutable graph whose nodes carry dense indices and
//! adjacency bitmasks.

use vstd::prelude::*;

use crate::bits::{bit64, WORD_BITS};
use crate::imap;
use crate::imap::{LinkEntry, LinksMap};

verus! {

/// The character sequences of a sequence of strings.
pub open spec fn str_views(s: Seq<String>) -> Seq<Seq<char>> {
    s.map_values(|x: String| x@)
}

/// The names of a sequence of accumulated entries, in order.
pub open spec fn entry_names(s: Seq<LinkEntry>) -> Seq<Seq<char>> {
    s.map_values(|p: LinkEntry| p.0@)
}

/// The neighbour names of entry `t` of a sequence of accumulated entries.
pub open spec fn entry_links(s: Seq<LinkEntry>, t: int) -> Seq<Seq<char>> {
    str_views(s[t].1@)
}

/// The neighbours in `ns` that are retained, in order.
pub open spec fn kept_neighbors(ns: Seq<Seq<char>>, retain: Seq<Seq<char>>) -> Seq<Seq<char>>
    decreases ns.len(),
{
    if ns.len() == 0 {
        Seq::empty()
    } else {
        let rest = kept_neighbors(ns.drop_last(), retain);
        if retain.contains(ns.last()) {
            rest.push(ns.last())
        } else {
            rest
        }
    }
}

/// Whether the id survives the build: it is retained and keeps at least one
/// retained neighbour.
pub open spec fn survives(
    id: Seq<char>,
    m: Map<Seq<char>, Seq<Seq<char>>>,
    retain: Seq<Seq<char>>,
) -> bool {
    retain.contains(id) && m.dom().contains(id) && kept_neighbors(m[id], retain).len() > 0
}

/// The ids that survive the build, in first-seen order: they get the dense
/// indices `0`, `1`, ... of the built graph.
pub open spec fn survivors(
    keys: Seq<Seq<char>>,
    m: Map<Seq<char>, Seq<Seq<char>>>,
    retain: Seq<Seq<char>>,
) -> Seq<Seq<char>>
    decreases keys.len(),
{
    if keys.len() == 0 {
        Seq::empty()
    } else {
        let rest = survivors(keys.drop_last(), m, retain);
        if survives(keys.last(), m, retain) {
            rest.push(keys.last())
        } else {
            rest
        }
    }
}

/// The names of the nodes of `g` along the index sequence `p`, in order.
pub open spec fn path_names(g: Graph, p: Seq<usize>) -> Seq<Seq<char>> {
    p.map_values(|idx: usize| g.names()[idx as int])
}

/// The retained name set of a build: the given one, or every accumulated id
/// when none is given.
pub open spec fn build_retain(keys: Seq<Seq<char>>, reduce: Option<Vec<String>>) -> Seq<Seq<char>> {
    match reduce {
        Some(v) => str_views(v@),
        None => keys,
    }
}

/// A sequence extended by one element holds exactly its old elements and the
/// new one.
pub(crate) proof fn lemma_push_contains<A>(s: Seq<A>, y: A, x: A)
    ensures
        s.push(y).contains(x) <==> (s.contains(x) || x == y),
{
    if s.contains(x) {
        let w = choose|w: int| 0 <= w < s.len() && s[w] == x;
        assert(s.push(y)[w] == x);
    }
    if x == y {
        assert(s.push(y)[s.len() as int] == x);
    }
    if s.push(y).contains(x) {
        let w = choose|w: int| 0 <= w < s.push(y).len() && s.push(y)[w] == x;
        if w < s.len() {
            assert(s[w] == x);
        }
    }
}

/// Pushing a fresh element keeps a sequence duplicate-free.
pub(crate) proof fn lemma_push_no_dup<A>(s: Seq<A>, y: A)
    requires
        s.no_duplicates(),
        !s.contains(y),
    ensures
        s.push(y).no_duplicates(),
{
    let sp = s.push(y);
    assert forall|a: int, b: int|
        0 <= a < sp.len() && 0 <= b < sp.len() && a != b implies sp[a] != sp[b] by {
        if a < s.len() && b < s.len() {
        } else if b == s.len() && a < s.len() {
            if sp[a] == sp[b] {
                assert(s[a] == y);
                assert(s.contains(y));
            }
        } else if a == s.len() && b < s.len() {
            if sp[a] == sp[b] {
                assert(s[b] == y);
                assert(s.contains(y));
            }
        }
    }
}

/// A one-longer prefix holds exactly the old prefix's elements and the next
/// element.
proof fn lemma_take_contains_step<A>(s: Seq<A>, q: int, x: A)
    requires
        0 <= q < s.len(),
    ensures
        s.take(q + 1).contains(x) <==> (s.take(q).contains(x) || s[q] == x),
{
    assert(s.take(q + 1) =~= s.take(q).push(s[q]));
    lemma_push_contains(s.take(q), s[q], x);
}

/// Keeping one more neighbour extends the kept list exactly when that
/// neighbour is retained.
proof fn lemma_kept_take_step(ns: Seq<Seq<char>>, retain: Seq<Seq<char>>, j: int)
    requires
        0 <= j < ns.len(),
    ensures
        retain.contains(ns[j]) ==> kept_neighbors(ns.take(j + 1), retain) == kept_neighbors(
            ns.take(j),
            retain,
        ).push(ns[j]),
        !retain.contains(ns[j]) ==> kept_neighbors(ns.take(j + 1), retain) == kept_neighbors(
            ns.take(j),
            retain,
        ),
{
    let t = ns.take(j + 1);
    assert(t.drop_last() =~= ns.take(j));
    assert(t.last() == ns[j]);
}

/// A neighbour is kept exactly when it was accumulated and is retained.
proof fn lemma_kept_membership(ns: Seq<Seq<char>>, retain: Seq<Seq<char>>, x: Seq<char>)
    ensures
        kept_neighbors(ns, retain).contains(x) <==> (ns.contains(x) && retain.contains(x)),
    decreases ns.len(),
{
    if ns.len() > 0 {
        let rest = ns.drop_last();
        lemma_kept_membership(rest, retain, x);
        lemma_push_contains(rest, ns.last(), x);
        if retain.contains(ns.last()) {
            lemma_push_contains(kept_neighbors(rest, retain), ns.last(), x);
        }
        assert(rest.push(ns.last()) =~= ns);
    }
}

/// Surviving one more id extends the survivor list exactly when that id
/// survives.
proof fn lemma_survivors_take_step(
    keys: Seq<Seq<char>>,
    m: Map<Seq<char>, Seq<Seq<char>>>,
    retain: Seq<Seq<char>>,
    j: int,
)
    requires
        0 <= j < keys.len(),
    ensures
        survives(keys[j], m, retain) ==> survivors(keys.take(j + 1), m, retain) == survivors(
            keys.take(j),
            m,
            retain,
        ).push(keys[j]),
        !survives(keys[j], m, retain) ==> survivors(keys.take(j + 1), m, retain) == survivors(
            keys.take(j),
            m,
            retain,
        ),
{
    let t = keys.take(j + 1);
    assert(t.drop_last() =~= keys.take(j));
    assert(t.last() == keys[j]);
}

/// An id is a survivor exactly when it was accumulated and survives.
proof fn lemma_survivors_membership(
    keys: Seq<Seq<char>>,
    m: Map<Seq<char>, Seq<Seq<char>>>,
    retain: Seq<Seq<char>>,
    x: Seq<char>,
)
    ensures
        survivors(keys, m, retain).contains(x) <==> (keys.contains(x) && survives(x, m, retain)),
    decreases keys.len(),
{
    if keys.len() > 0 {
        let rest = keys.drop_last();
        lemma_survivors_membership(rest, m, retain, x);
        lemma_push_contains(rest, keys.last(), x);
        if survives(keys.last(), m, retain) {
            lemma_push_contains(survivors(rest, m, retain), keys.last(), x);
        }
        assert(rest.push(keys.last()) =~= keys);
    }
}

/// Every survivor survives, and duplicate-free ids give duplicate-free
/// survivors.
proof fn lemma_survivors_no_dup(
    keys: Seq<Seq<char>>,
    m: Map<Seq<char>, Seq<Seq<char>>>,
    retain: Seq<Seq<char>>,
)
    requires
        keys.no_duplicates(),
    ensures
        survivors(keys, m, retain).no_duplicates(),
        forall|t: int|
            0 <= t < survivors(keys, m, retain).len() ==> survives(
                #[trigger] survivors(keys, m, retain)[t],
                m,
                retain,
            ),
    decreases keys.len(),
{
    if keys.len() > 0 {
        let rest = keys.drop_last();
        assert(rest.no_duplicates());
        lemma_survivors_no_dup(rest, m, retain);
        if survives(keys.last(), m, retain) {
            if survivors(rest, m, retain).contains(keys.last()) {
                lemma_survivors_membership(rest, m, retain, keys.last());
                let w = choose|w: int| 0 <= w < rest.len() && rest[w] == keys.last();
                assert(keys[w] == keys[keys.len() - 1]);
            }
            lemma_push_no_dup(survivors(rest, m, retain), keys.last());
        }
    }
}

/// The ids among `keys` that were given at least one neighbour.
pub open spec fn linked_ids(keys: Seq<Seq<char>>, m: Map<Seq<char>, Seq<Seq<char>>>) -> Seq<
    Seq<char>,
>
    decreases keys.len(),
{
    if keys.len() == 0 {
        Seq::empty()
    } else {
        let rest = linked_ids(keys.drop_last(), m);
        if m.dom().contains(keys.last()) && m[keys.last()].len() > 0 {
            rest.push(keys.last())
        } else {
            rest
        }
    }
}

/// When every neighbour is retained, filtering keeps the whole list.
proof fn lemma_kept_all(ns: Seq<Seq<char>>, retain: Seq<Seq<char>>)
    requires
        forall|k: int| 0 <= k < ns.len() ==> retain.contains(#[trigger] ns[k]),
    ensures
        kept_neighbors(ns, retain) == ns,
    decreases ns.len(),
{
    if ns.len() > 0 {
        let rest = ns.drop_last();
        assert(forall|k: int| 0 <= k < rest.len() ==> rest[k] == ns[k]);
        lemma_kept_all(rest, retain);
        assert(retain.contains(ns[ns.len() - 1]));
        assert(rest.push(ns.last()) =~= ns);
    }
}

/// When no neighbour is retained, filtering keeps nothing.
proof fn lemma_kept_none(ns: Seq<Seq<char>>, retain: Seq<Seq<char>>)
    requires
        forall|k: int| 0 <= k < ns.len() ==> !retain.contains(#[trigger] ns[k]),
    ensures
        kept_neighbors(ns, retain).len() == 0,
    decreases ns.len(),
{
    if ns.len() > 0 {
        let rest = ns.drop_last();
        assert(forall|k: int| 0 <= k < rest.len() ==> rest[k] == ns[k]);
        lemma_kept_none(rest, retain);
        assert(!retain.contains(ns[ns.len() - 1]));
    }
}

/// Elements of the survivor list survive, without any other hypothesis.
proof fn lemma_survivors_survive(
    keys: Seq<Seq<char>>,
    m: Map<Seq<char>, Seq<Seq<char>>>,
    retain: Seq<Seq<char>>,
    t: int,
)
    requires
        0 <= t < survivors(keys, m, retain).len(),
    ensures
        survives(survivors(keys, m, retain)[t], m, retain),
    decreases keys.len(),
{
    if keys.len() > 0 {
        let rest = keys.drop_last();
        if survives(keys.last(), m, retain) {
            if t < survivors(rest, m, retain).len() {
                lemma_survivors_survive(rest, m, retain, t);
            }
        } else {
            lemma_survivors_survive(rest, m, retain, t);
        }
    }
}

/// There are never more survivors than accumulated ids: building from at
/// most 64 distinct ids cannot exceed capacity.
pub proof fn lemma_survivors_len(
    keys: Seq<Seq<char>>,
    m: Map<Seq<char>, Seq<Seq<char>>>,
    retain: Seq<Seq<char>>,
)
    ensures
        survivors(keys, m, retain).len() <= keys.len(),
    decreases keys.len(),
{
    if keys.len() > 0 {
        lemma_survivors_len(keys.drop_last(), m, retain);
    }
}

/// With no filter, and when every accumulated neighbour is itself an
/// accumulated id, the nodes of the built graph are exactly the ids that
/// were given at least one neighbour: `build(None)` then yields a graph
/// whose `size()` is the number of distinct such ids.
pub proof fn lemma_no_filter_survivors(b: GraphBuilder)
    requires
        b.wf(),
        forall|id: Seq<char>, k: int|
            b.map().dom().contains(id) && 0 <= k < b.map()[id].len() ==> b.keys().contains(
                #[trigger] b.map()[id][k],
            ),
    ensures
        survivors(b.keys(), b.map(), build_retain(b.keys(), None)) == linked_ids(
            b.keys(),
            b.map(),
        ),
{
    lemma_no_filter_helper(b.keys(), b.map(), b.keys());
}

/// Induction step for [`lemma_no_filter_survivors`], over a prefix of the
/// ids.
proof fn lemma_no_filter_helper(
    keys: Seq<Seq<char>>,
    m: Map<Seq<char>, Seq<Seq<char>>>,
    all: Seq<Seq<char>>,
)
    requires
        forall|id: Seq<char>, k: int|
            m.dom().contains(id) && 0 <= k < m[id].len() ==> all.contains(#[trigger] m[id][k]),
        forall|t: int| 0 <= t < keys.len() ==> all.contains(#[trigger] keys[t]),
    ensures
        survivors(keys, m, all) == linked_ids(keys, m),
    decreases keys.len(),
{
    if keys.len() > 0 {
        let rest = keys.drop_last();
        assert(forall|t: int| 0 <= t < rest.len() ==> rest[t] == keys[t]);
        lemma_no_filter_helper(rest, m, all);
        let last = keys.last();
        assert(all.contains(keys[keys.len() - 1]));
        if m.dom().contains(last) {
            lemma_kept_all(m[last], all);
        }
    }
}

/// Every node that survives a build with the filter set `retain` has its
/// name in `retain`.
pub proof fn lemma_retained_names_in_filter(
    b: GraphBuilder,
    retain: Seq<Seq<char>>,
    t: int,
)
    requires
        0 <= t < survivors(b.keys(), b.map(), retain).len(),
    ensures
        retain.contains(survivors(b.keys(), b.map(), retain)[t]),
{
    lemma_survivors_survive(b.keys(), b.map(), retain, t);
}

/// An id all of whose accumulated neighbours fall outside the filter set is
/// absent from the built graph, even if the id itself is in the set.
pub proof fn lemma_isolated_dropped(b: GraphBuilder, retain: Seq<Seq<char>>, id: Seq<char>)
    requires
        b.map().dom().contains(id),
        forall|k: int| 0 <= k < b.map()[id].len() ==> !retain.contains(#[trigger] b.map()[id][k]),
    ensures
        !survivors(b.keys(), b.map(), retain).contains(id),
{
    lemma_kept_none(b.map()[id], retain);
    lemma_survivors_membership(b.keys(), b.map(), retain, id);
}

/// One vertex's adjacency set: bit `j` set means the vertex is adjacent to
/// the vertex with dense index `j`.
#[derive(Debug, Clone, Copy)]
pub struct Node(pub u64);

impl Node {
    /// A node with no neighbours.
    pub fn empty() -> (r: Self)
        ensures
            r.0 == 0,
    {
        Node(0)
    }
}

/// The failures graph construction and lookup can report.
#[derive(Debug, Clone, Copy, PartialEq, Eq, Structural)]
pub enum GraphError {
    /// The name was never retained in the built graph.
    NodeNotFound,
    /// More retained nodes than one adjacency bitmask can distinguish.
    CapacityExceeded,
}

/// Accumulates named adjacency lists; consumed by [`GraphBuilder::build`].
pub struct GraphBuilder {
    raw_links: LinksMap,
}

impl GraphBuilder {
    /// The accumulated ids, in first-seen order.
    pub closed spec fn keys(self) -> Seq<Seq<char>> {
        imap::links_keys(self.raw_links)
    }

    /// The accumulated neighbour list of each id.
    pub closed spec fn map(self) -> Map<Seq<char>, Seq<Seq<char>>> {
        imap::links_map(self.raw_links)
    }

    /// The id order and the id-to-neighbours map agree.
    pub open spec fn wf(self) -> bool {
        &&& self.keys().no_duplicates()
        &&& self.keys().to_set() == self.map().dom()
    }

    /// Appends `links` to the accumulated neighbour list of `id`, creating
    /// the entry if `id` is new. Duplicate neighbour entries are kept.
    pub fn link(&mut self, id: String, links: Vec<String>)
        ensures
            old(self).wf() ==> final (self).wf(),
            old(self).map().dom().contains(id@) ==> {
                &&& final (self).map() == old(self).map().insert(
                    id@,
                    old(self).map()[id@] + str_views(links@),
                )
                &&& final (self).keys() == old(self).keys()
            },
            !old(self).map().dom().contains(id@) ==> {
                &&& final (self).map() == old(self).map().insert(id@, str_views(links@))
                &&& final (self).keys() == old(self).keys().push(id@)
            },
    {
        match imap::links_get(&self.raw_links, &id) {
            Some(mut v) => {
                let ghost old_views = str_views(v@);
                let mut rest = links;
                v.append(&mut rest);
                proof {
                    assert(str_views(v@) =~= old_views + str_views(links@));
                }
                imap::links_insert(&mut self.raw_links, id, v);
            },
            None => {
                imap::links_insert(&mut self.raw_links, id, links);
            },
        }
    }

    /// Consumes the builder and produces the graph of its retained nodes:
    /// those of `reduce` when given, else all accumulated ids. An id survives
    /// only if it keeps at least one retained neighbour; survivors get dense
    /// indices in first-seen order, and bit `index(b)` of node `index(a)` is
    /// set exactly when `b` was accumulated as a neighbour of `a` and
    /// survived. Fails exactly when more nodes survive than an adjacency
    /// bitmask can distinguish.
    #[verifier::loop_isolation(false)]
    pub fn build(self, reduce: Option<Vec<String>>) -> (r: Result<Graph, GraphError>)
        requires
            self.wf(),
        ensures
            ({
                let retain = build_retain(self.keys(), reduce);
                let surv = survivors(self.keys(), self.map(), retain);
                &&& (r is Err <==> surv.len() > 64)
                &&& (r matches Err(e) ==> e == GraphError::CapacityExceeded)
                &&& (r matches Ok(g) ==> {
                    &&& g.wf()
                    &&& g.names() == surv
                    &&& (forall|i: int, j: int|
                        0 <= i < surv.len() && 0 <= j < surv.len() ==> (g.spec_edge(i, j)
                            <==> self.map()[surv[i]].contains(surv[j])))
                })
            }),
    {
        let ghost retain = build_retain(self.keys(), reduce);
        let retain_v: Vec<String> = match reduce {
            Some(v) => v,
            None => keys_vec(&self.raw_links),
        };
        let n = imap::links_len(&self.raw_links);
        let mut reduced: Vec<LinkEntry> = Vec::new();
        let mut i: usize = 0;
        while i < n
            invariant
                i <= n,
                entry_names(reduced@) == survivors(self.keys().take(i as int), self.map(), retain),
                forall|t: int|
                    0 <= t < reduced@.len() ==> #[trigger] entry_links(reduced@, t)
                        == kept_neighbors(self.map()[entry_names(reduced@)[t]], retain),
            decreases n - i,
        {
            match imap::links_get_index(&self.raw_links, i) {
                Some(p) => {
                    let ghost prev = reduced@;
                    let ghost key_i = self.keys()[i as int];
                    proof {
                        assert(self.keys().contains(key_i));
                        assert(self.keys().to_set().contains(key_i));
                        assert(self.map().dom().contains(key_i));
                        lemma_survivors_take_step(self.keys(), self.map(), retain, i as int);
                    }
                    let (id, ns) = p;
                    let retained = contains_name(&retain_v, &id);
                    if retained {
                        let kept = filter_retained(&ns, &retain_v);
                        if kept.len() > 0 {
                            proof {
                                assert(survives(key_i, self.map(), retain));
                            }
                            reduced.push((id, kept));
                            proof {
                                assert(entry_names(reduced@) =~= entry_names(prev).push(key_i));
                                assert(entry_links(reduced@, prev.len() as int) == kept_neighbors(
                                    self.map()[key_i],
                                    retain,
                                ));
                                assert(forall|t: int|
                                    0 <= t < prev.len() ==> #[trigger] entry_links(reduced@, t)
                                        == entry_links(prev, t));
                            }
                        } else {
                            proof {
                                assert(!survives(key_i, self.map(), retain));
                            }
                        }
                    } else {
                        proof {
                            assert(!survives(key_i, self.map(), retain));
                        }
                    }
                },
                None => {
                    proof {
                        assert(false);
                    }
                },
            }
            i += 1;
        }
        proof {
            assert(self.keys().take(n as int) =~= self.keys());
            lemma_survivors_no_dup(self.keys(), self.map(), retain);
        }
        let r = build_from(reduced);
        proof {
            let surv = survivors(self.keys(), self.map(), retain);
            if r is Ok {
                let g = r->Ok_0;
                assert forall|i2: int, j2: int|
                    0 <= i2 < surv.len() && 0 <= j2 < surv.len() implies (g.spec_edge(i2, j2)
                    <==> self.map()[surv[i2]].contains(surv[j2])) by {
                    assert(survives(surv[j2], self.map(), retain));
                    lemma_kept_membership(self.map()[surv[i2]], retain, surv[j2]);
                }
            }
        }
        r
    }
}

impl Default for GraphBuilder {
    /// An empty builder: no ids, no links.
    fn default() -> (r: Self)
        ensures
            r.wf(),
            r.keys() == Seq::<Seq<char>>::empty(),
            r.map() == Map::<Seq<char>, Seq<Seq<char>>>::empty(),
    {
        let m = imap::links_new();
        proof {
            assert(imap::links_keys(m).to_set() =~= imap::links_map(m).dom());
        }
        GraphBuilder { raw_links: m }
    }
}

/// Whether `s` is one of the names in `v`.
fn contains_name(v: &Vec<String>, s: &String) -> (b: bool)
    ensures
        b == str_views(v@).contains(s@),
{
    let mut j: usize = 0;
    while j < v.len()
        invariant
            j <= v@.len(),
            forall|t: int| 0 <= t < j ==> str_views(v@)[t] != s@,
        decreases v@.len() - j,
    {
        if v[j] == *s {
            proof {
                assert(str_views(v@)[j as int] == s@);
            }
            return true;
        }
        j += 1;
    }
    false
}

/// The names in `ns` that are also in `retain`, in order.
#[verifier::loop_isolation(false)]
fn filter_retained(ns: &Vec<String>, retain: &Vec<String>) -> (kept: Vec<String>)
    ensures
        str_views(kept@) == kept_neighbors(str_views(ns@), str_views(retain@)),
{
    let mut kept: Vec<String> = Vec::new();
    let mut j: usize = 0;
    while j < ns.len()
        invariant
            j <= ns@.len(),
            str_views(kept@) == kept_neighbors(str_views(ns@).take(j as int), str_views(retain@)),
        decreases ns@.len() - j,
    {
        let ghost prev = str_views(kept@);
        proof {
            lemma_kept_take_step(str_views(ns@), str_views(retain@), j as int);
            assert(str_views(ns@)[j as int] == ns@[j as int]@);
        }
        if contains_name(retain, &ns[j]) {
            kept.push(ns[j].clone());
            proof {
                assert(str_views(kept@) =~= prev.push(ns@[j as int]@));
            }
        }
        j += 1;
    }
    proof {
        assert(str_views(ns@).take(ns@.len() as int) =~= str_views(ns@));
    }
    kept
}

/// The accumulated ids, in order, as owned strings.
#[verifier::loop_isolation(false)]
fn keys_vec(m: &LinksMap) -> (r: Vec<String>)
    ensures
        str_views(r@) == imap::links_keys(*m),
{
    let n = imap::links_len(m);
    let mut r: Vec<String> = Vec::new();
    let mut i: usize = 0;
    while i < n
        invariant
            i <= n,
            r@.len() == i,
            forall|t: int| 0 <= t < i ==> str_views(r@)[t] == imap::links_keys(*m)[t],
        decreases n - i,
    {
        match imap::links_get_index(m, i) {
            Some(p) => {
                r.push(p.0);
            },
            None => {
                proof {
                    assert(false);
                }
            },
        }
        i += 1;
    }
    proof {
        assert(str_views(r@) =~= imap::links_keys(*m));
    }
    r
}

/// An immutable graph: a name for each dense index, an index for each name,
/// and one adjacency bitmask per node.
pub struct Graph {
    state_to_index: imap::NameIndexMap,
    index_to_state: Vec<String>,
    nodes: Vec<Node>,
}

impl Graph {
    /// The node names, by dense index.
    pub closed spec fn names(self) -> Seq<Seq<char>> {
        str_views(self.index_to_state@)
    }

    /// The number of nodes.
    pub closed spec fn spec_size(self) -> int {
        self.nodes@.len() as int
    }

    /// The adjacency bitmask of node `i`.
    pub closed spec fn spec_mask(self, i: int) -> u64 {
        self.nodes@[i].0
    }

    /// The name-to-index contents of the lookup table.
    pub closed spec fn index_model(self) -> Map<Seq<char>, usize> {
        imap::index_map(self.state_to_index)
    }

    /// Whether the graph has an edge from node `i` to node `j`.
    pub open spec fn spec_edge(self, i: int, j: int) -> bool {
        &&& 0 <= i < self.spec_size()
        &&& 0 <= j < self.spec_size()
        &&& bit64(self.spec_mask(i), j as u64)
    }

    /// Well-formedness: names and masks agree with the dense indices, the
    /// lookup table is their exact inverse, and everything fits in one word.
    pub open spec fn wf(self) -> bool {
        &&& self.names().len() == self.spec_size()
        &&& 0 <= self.spec_size() <= 64
        &&& self.names().no_duplicates()
        &&& (forall|q: Seq<char>|
            #[trigger] self.index_model().dom().contains(q) ==> self.names().contains(q))
        &&& (forall|i: int|
            0 <= i < self.spec_size() ==> self.index_model().dom().contains(
                #[trigger] self.names()[i],
            ))
        &&& (forall|i: int|
            0 <= i < self.spec_size() ==> #[trigger] self.index_model()[self.names()[i]] as int
                == i)
        &&& (forall|i: int, j: u64|
            0 <= i < self.spec_size() && j < 64 && #[trigger] bit64(self.spec_mask(i), j)
                ==> j < self.spec_size())
    }

    /// The number of nodes.
    pub fn size(&self) -> (r: usize)
        ensures
            r as int == self.spec_size(),
    {
        self.nodes.len()
    }

    /// The dense index of the node named `id`; fails exactly when `id` was
    /// not retained.
    pub fn get_node_idx(&self, id: &str) -> (r: Result<usize, GraphError>)
        requires
            self.wf(),
        ensures
            r is Ok <==> self.names().contains(id@),
            r matches Ok(i) ==> 0 <= i < self.spec_size() && self.names()[i as int] == id@,
            r matches Err(e) ==> e == GraphError::NodeNotFound,
    {
        match imap::idx_get(&self.state_to_index, id) {
            Some(i) => {
                proof {
                    assert(self.index_model().dom().contains(id@));
                    assert(self.names().contains(id@));
                    let k = choose|k: int| 0 <= k < self.names().len() && self.names()[k] == id@;
                    assert(self.index_model()[self.names()[k]] as int == k);
                }
                Ok(i)
            },
            None => {
                proof {
                    if self.names().contains(id@) {
                        let k = choose|k: int|
                            0 <= k < self.names().len() && self.names()[k] == id@;
                        assert(self.index_model().dom().contains(self.names()[k]));
                    }
                }
                Err(GraphError::NodeNotFound)
            },
        }
    }

    /// The node at a dense index; the index is assumed valid.
    pub fn get_node_by_index(&self, index: usize) -> (r: Node)
        requires
            self.wf(),
            (index as int) < self.spec_size(),
        ensures
            r.0 == self.spec_mask(index as int),
    {
        self.nodes[index]
    }

    /// The node named `id`; fails exactly when `id` was not retained.
    pub fn get_node(&self, id: &str) -> (r: Result<Node, GraphError>)
        requires
            self.wf(),
        ensures
            r is Ok <==> self.names().contains(id@),
            r matches Ok(nd) ==> exists|i: int|
                0 <= i < self.spec_size() && self.names()[i] == id@ && nd.0 == self.spec_mask(i),
            r matches Err(e) ==> e == GraphError::NodeNotFound,
    {
        match self.get_node_idx(id) {
            Ok(index) => {
                let nd = self.get_node_by_index(index);
                proof {
                    assert(0 <= (index as int) && (index as int) < self.spec_size()
                        && self.names()[index as int] == id@ && nd.0 == self.spec_mask(
                        index as int,
                    ));
                }
                Ok(nd)
            },
            Err(e) => Err(e),
        }
    }

    /// The names of the given dense indices, in the same order.
    #[verifier::loop_isolation(false)]
    pub fn get_node_names(&self, nodes: &[usize]) -> (r: Vec<String>)
        requires
            self.wf(),
            forall|k: int| 0 <= k < nodes@.len() ==> (nodes@[k] as int) < self.spec_size(),
        ensures
            str_views(r@) == path_names(*self, nodes@),
    {
        let mut r: Vec<String> = Vec::new();
        let mut k: usize = 0;
        while k < nodes.len()
            invariant
                k <= nodes@.len(),
                r@.len() == k,
                forall|t: int| 0 <= t < k ==> r@[t]@ == self.names()[nodes@[t] as int],
            decreases nodes@.len() - k,
        {
            let idx = nodes[k];
            r.push(self.index_to_state[idx].clone());
            proof {
                assert(r@[k as int]@ == self.index_to_state@[idx as int]@);
                assert(self.names()[idx as int] == self.index_to_state@[idx as int]@);
            }
            k += 1;
        }
        proof {
            assert(str_views(r@) =~= path_names(*self, nodes@));
        }
        r
    }
}

/// Round trip from index to name and back: a well-formed graph's names are
/// unique, so the only index carrying the name of node `i` is `i` itself.
/// With [`Graph::get_node_idx`]'s contract, looking up any name produced by
/// [`Graph::get_node_names`] returns the index it came from.
pub proof fn lemma_index_name_round_trip(g: Graph, i: int, k: int)
    requires
        g.wf(),
        0 <= i < g.spec_size(),
        0 <= k < g.spec_size(),
        g.names()[k] == g.names()[i],
    ensures
        k == i,
{
}

/// Freezes filtered entries into a graph: entry `t` becomes node `t`, and
/// bit `j` of its mask is set exactly when the name of entry `j` stands in
/// its neighbour list. Fails exactly when there are more than 64 entries.
#[verifier::loop_isolation(false)]
fn build_from(links: Vec<LinkEntry>) -> (r: Result<Graph, GraphError>)
    requires
        entry_names(links@).no_duplicates(),
    ensures
        r is Err <==> links@.len() > 64,
        r matches Err(e) ==> e == GraphError::CapacityExceeded,
        r matches Ok(g) ==> {
            &&& g.wf()
            &&& g.names() == entry_names(links@)
            &&& (forall|i: int, j: int|
                0 <= i < links@.len() && 0 <= j < links@.len() ==> (g.spec_edge(i, j)
                    <==> entry_links(links@, i).contains(entry_names(links@)[j])))
        },
{
    let ghost names = entry_names(links@);
    let m = links.len();
    if m > WORD_BITS {
        return Err(GraphError::CapacityExceeded);
    }
    let mut state_to_index = imap::idx_new();
    let mut index_to_state: Vec<String> = Vec::new();
    let mut i: usize = 0;
    while i < m
        invariant
            i <= m,
            index_to_state@.len() == i,
            forall|t: int| 0 <= t < i ==> str_views(index_to_state@)[t] == names[t],
            forall|t: int|
                0 <= t < i ==> imap::index_map(state_to_index).dom().contains(#[trigger] names[t]),
            forall|t: int|
                0 <= t < i ==> #[trigger] imap::index_map(state_to_index)[names[t]] as int == t,
            forall|q: Seq<char>|
                #[trigger] imap::index_map(state_to_index).dom().contains(q) ==> names.take(
                    i as int,
                ).contains(q),
        decreases m - i,
    {
        let id = links[i].0.clone();
        let ghost prev = imap::index_map(state_to_index);
        imap::idx_insert(&mut state_to_index, id.clone(), i);
        index_to_state.push(id);
        proof {
            assert(names[i as int] == links@[i as int].0@);
            assert forall|q: Seq<char>|
                #[trigger] imap::index_map(state_to_index).dom().contains(q) implies names.take(
                i + 1,
            ).contains(q) by {
                if q == names[i as int] {
                    assert(names.take(i + 1)[i as int] == q);
                } else {
                    assert(prev.dom().contains(q));
                    let t = choose|t: int|
                        0 <= t < i && #[trigger] names.take(i as int)[t] == q;
                    assert(names.take(i + 1)[t] == q);
                }
            }
            assert forall|t: int| 0 <= t < i + 1 implies #[trigger] imap::index_map(
                state_to_index,
            )[names[t]] as int == t by {
                if t < i {
                    assert(names[t] != names[i as int]);
                }
            }
        }
        i += 1;
    }
    let ghost table = imap::index_map(state_to_index);
    let mut nodes: Vec<Node> = Vec::new();
    let mut i: usize = 0;
    while i < m
        invariant
            i <= m,
            nodes@.len() == i,
            forall|t: int, j: u64|
                0 <= t < i && j < 64 ==> (#[trigger] bit64(nodes@[t].0, j) <==> (j < m
                    && entry_links(links@, t).contains(names[j as int]))),
        decreases m - i,
    {
        let ns: &Vec<String> = &links[i].1;
        let mut mask: u64 = 0;
        let mut q: usize = 0;
        proof {
            crate::bits::lemma_bit_zero();
        }
        while q < ns.len()
            invariant
                q <= ns@.len(),
                forall|j: u64|
                    j < 64 ==> (#[trigger] bit64(mask, j) <==> (j < m && str_views(ns@).take(
                        q as int,
                    ).contains(names[j as int]))),
            decreases ns@.len() - q,
        {
            let ghost nq = ns@[q as int]@;
            proof {
                assert(str_views(ns@)[q as int] == nq);
            }
            match imap::idx_get(&state_to_index, ns[q].as_str()) {
                Some(j) => {
                    proof {
                        assert(table.dom().contains(nq));
                        assert(names.take(m as int) =~= names);
                        let t = choose|t: int| 0 <= t < m && #[trigger] names.take(m as int)[t]
                            == nq;
                        assert(names[t] == nq);
                        assert(table[names[t]] as int == t);
                        assert(j as int == t);
                        crate::bits::lemma_bit_or(mask, j as u64);
                    }
                    mask = mask | (1u64 << (j as u64));
                    proof {
                        assert forall|b: u64| b < 64 implies (#[trigger] bit64(mask, b) <==> (b < m
                            && str_views(ns@).take(q + 1).contains(names[b as int]))) by {
                            lemma_take_contains_step(str_views(ns@), q as int, names[b as int]);
                            if b == j as u64 {
                                assert(names[b as int] == nq);
                            } else {
                                if b < m && names[b as int] == nq {
                                    assert(names[b as int] == names[j as int]);
                                    assert(false);
                                }
                            }
                        }
                    }
                },
                None => {
                    proof {
                        assert forall|b: u64| b < 64 implies (#[trigger] bit64(mask, b) <==> (b < m
                            && str_views(ns@).take(q + 1).contains(names[b as int]))) by {
                            lemma_take_contains_step(str_views(ns@), q as int, names[b as int]);
                            if b < m && names[b as int] == nq {
                                assert(table.dom().contains(names[b as int]));
                                assert(false);
                            }
                        }
                    }
                },
            }
            q += 1;
        }
        nodes.push(Node(mask));
        proof {
            assert(str_views(ns@).take(ns@.len() as int) =~= str_views(ns@));
            assert(entry_links(links@, i as int) == str_views(ns@));
        }
        i += 1;
    }
    let g = Graph { state_to_index, index_to_state, nodes };
    proof {
        assert(g.names() =~= names);
        assert forall|i2: int, j2: int|
            0 <= i2 < links@.len() && 0 <= j2 < links@.len() implies (g.spec_edge(i2, j2)
            <==> entry_links(links@, i2).contains(names[j2])) by {
            assert(bit64(g.spec_mask(i2), j2 as u64) <==> (j2 < m && entry_links(links@, i2)
                .contains(names[j2])));
        }
        assert forall|i2: int, j2: u64|
            0 <= i2 < g.spec_size() && j2 < 64 && #[trigger] bit64(g.spec_mask(i2), j2)
            implies j2 < g.spec_size() by {
            assert(bit64(nodes@[i2].0, j2) <==> (j2 < m && entry_links(links@, i2).contains(
                names[j2 as int],
            )));
        }
        assert forall|q2: Seq<char>|
            #[trigger] g.index_model().dom().contains(q2) implies g.names().contains(q2) by {
            assert(names.take(m as int) =~= names);
        }
    }
    Ok(g)
}

} // verus!
