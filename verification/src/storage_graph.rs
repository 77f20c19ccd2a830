use vstd::prelude::*;
use crate::scheduler::copy_indices;

verus! {

/// An edge of the storage graph: following it adds `type_id` to the path and leads to
/// the node at index `node`.
#[derive(Clone, Copy)]
pub struct Edge {
    pub type_id: u64,
    pub node: usize,
}

/// A node of the storage graph: its outgoing edges, sorted by type id, and the storage
/// (if any) registered for the path that leads to it.
pub struct StorageNode {
    pub edges: Vec<Edge>,
    pub storage: Option<usize>,
}

impl StorageNode {
    pub fn new() -> (r: Self)
        ensures
            r.edges@.len() == 0,
            r.storage is None,
    {
        StorageNode { edges: Vec::new(), storage: None }
    }
}

/// A trie from sets of component types (written as sequences of type ids) to storage
/// indices. Node 0 is the empty set; each edge adds one type.
pub struct StorageGraph {
    nodes: Vec<StorageNode>,
}

/// What a `Requirement` asks of a storage's types.
#[derive(Clone, Copy, PartialEq, Eq, Structural)]
pub enum RequirementType {
    With,
    Without,
    Optional,
}

/// One type that a search through the storage graph requires (or excludes).
#[derive(Clone, Copy)]
pub struct Requirement {
    pub type_id: u64,
    pub requirement_type: RequirementType,
    pub original_index: usize,
}

impl Requirement {
    /// A requirement that the storage has the type `type_id`.
    pub fn with_(original_index: usize, type_id: u64) -> (r: Self)
        ensures
            r.type_id == type_id,
            r.requirement_type == RequirementType::With,
            r.original_index == original_index,
    {
        Requirement { type_id, requirement_type: RequirementType::With, original_index }
    }
}

/// Where a path that the graph does not hold yet would go: the node that the longest
/// known prefix of `type_ids` (its first `consumed` entries) leads to, and the position
/// among that node's edges at which the next type belongs.
pub struct InsertHandle<'a> {
    pub node_index: usize,
    pub index_in_node: usize,
    pub consumed: usize,
    pub type_ids: &'a [u64],
}

/// The node that an edge with type `t` among `es` leads to, if there is one.
pub open spec fn edge_target(es: Seq<Edge>, t: u64) -> Option<int> {
    if exists|i: int| 0 <= i < es.len() && (#[trigger] es[i]).type_id == t {
        Some(es[choose|i: int| 0 <= i < es.len() && (#[trigger] es[i]).type_id == t].node as int)
    } else {
        None
    }
}

/// The type ids of `es` strictly increase.
pub open spec fn edges_sorted(es: Seq<Edge>) -> bool {
    forall|i: int, j: int| 0 <= i < j < es.len() ==> (#[trigger] es[i]).type_id < (#[trigger] es[j]).type_id
}

/// `s` strictly increases.
pub open spec fn strictly_sorted(s: Seq<u64>) -> bool {
    forall|i: int, j: int| 0 <= i < j < s.len() ==> #[trigger] s[i] < #[trigger] s[j]
}

/// In sorted edges, the edge with type `t` is the one at position `i`.
pub proof fn lemma_edge_target_at(es: Seq<Edge>, i: int)
    requires
        edges_sorted(es),
        0 <= i < es.len(),
    ensures
        edge_target(es, es[i].type_id) == Some(es[i].node as int),
{
    let t = es[i].type_id;
    assert(es[i].type_id == t);
    let j = choose|j: int| 0 <= j < es.len() && (#[trigger] es[j]).type_id == t;
    if j < i {
        assert(es[j].type_id < es[i].type_id);
    } else if i < j {
        assert(es[i].type_id < es[j].type_id);
    }
}


/// A match of a search through the storage graph: the storage found and, for each `With`
/// requirement in order, the position of its type in the storage's types.
pub struct StorageMatch {
    pub storage: usize,
    pub channels: Vec<usize>,
}

/// Whether the types `p` meet requirement `r`.
pub open spec fn requirement_holds(p: Seq<u64>, r: Requirement) -> bool {
    match r.requirement_type {
        RequirementType::With => p.contains(r.type_id),
        RequirementType::Without => !p.contains(r.type_id),
        RequirementType::Optional => true,
    }
}

/// Whether the types `p` meet every requirement of `types`.
pub open spec fn path_matches(p: Seq<u64>, types: Seq<Requirement>) -> bool {
    forall|i: int| 0 <= i < types.len() ==> requirement_holds(p, #[trigger] types[i])
}

/// The types of the `With` requirements of `types`, in order.
pub open spec fn with_types(types: Seq<Requirement>) -> Seq<u64>
    decreases types.len(),
{
    if types.len() == 0 {
        Seq::empty()
    } else if types.last().requirement_type == RequirementType::With {
        with_types(types.drop_last()).push(types.last().type_id)
    } else {
        with_types(types.drop_last())
    }
}

/// `ch` gives, for each `With` requirement of `types` in order, a position of its type in `p`.
pub open spec fn channels_point(p: Seq<u64>, types: Seq<Requirement>, ch: Seq<usize>) -> bool {
    &&& ch.len() == with_types(types).len()
    &&& forall|w: int| 0 <= w < ch.len() ==> #[trigger] ch[w] < p.len() && p[ch[w] as int] == with_types(types)[w]
}

/// The requirements' types strictly increase.
pub open spec fn requirements_sorted(types: Seq<Requirement>) -> bool {
    forall|i: int, j: int| 0 <= i < j < types.len() ==> (#[trigger] types[i]).type_id < (#[trigger] types[j]).type_id
}

/// No requirement of `types` is `Optional`.
pub open spec fn no_optional(types: Seq<Requirement>) -> bool {
    forall|i: int| 0 <= i < types.len() ==> (#[trigger] types[i]).requirement_type != RequirementType::Optional
}

/// `q` is the beginning of `p`.
pub open spec fn has_prefix(p: Seq<u64>, q: Seq<u64>) -> bool {
    q.len() <= p.len() && p.subrange(0, q.len() as int) == q
}

/// The `With` types of a longer prefix of `types` extend those of a shorter one by the
/// `With` types in between, none if all between are `Without`.
pub proof fn lemma_with_types_without(types: Seq<Requirement>, a: int, b: int)
    requires
        0 <= a <= b <= types.len(),
        forall|j: int| a <= j < b ==> (#[trigger] types[j]).requirement_type != RequirementType::With,
    ensures
        with_types(types.subrange(0, b)) == with_types(types.subrange(0, a)),
    decreases b - a,
{
    if a < b {
        lemma_with_types_without(types, a, b - 1);
        assert(types.subrange(0, b).drop_last() =~= types.subrange(0, b - 1));
        assert(types.subrange(0, b).last() == types[b - 1]);
    }
}

impl StorageGraph {
    /// The outgoing edges of node `n`.
    pub closed spec fn edges_of(self, n: int) -> Seq<Edge> {
        self.nodes@[n].edges@
    }

    /// The storage registered at node `n`.
    pub closed spec fn storage_of(self, n: int) -> Option<usize> {
        self.nodes@[n].storage
    }

    /// How many nodes the graph has.
    pub closed spec fn node_count(self) -> nat {
        self.nodes@.len()
    }

    /// The child of node `n` along type `t`.
    pub open spec fn child(self, n: int, t: u64) -> Option<int> {
        edge_target(self.edges_of(n), t)
    }

    /// The node reached from node `n` by following the types of `s` in order.
    pub open spec fn walk_from(self, n: int, s: Seq<u64>) -> Option<int>
        decreases s.len(),
    {
        if s.len() == 0 {
            Some(n)
        } else {
            match self.child(n, s[0]) {
                Some(c) => self.walk_from(c, s.drop_first()),
                None => None,
            }
        }
    }

    /// The storage registered for the path `p`.
    pub open spec fn key_storage(self, p: Seq<u64>) -> Option<usize> {
        match self.walk_from(0, p) {
            Some(x) => self.storage_of(x),
            None => None,
        }
    }

    /// An edge index `i` of node `n`.
    pub open spec fn valid_edge(self, n: int, i: int) -> bool {
        0 <= n < self.node_count() && 0 <= i < self.edges_of(n).len()
    }

    /// The graph is a tree of nodes whose edges are sorted by type and lead to later
    /// nodes, each node but the root being the target of exactly one edge.
    pub closed spec fn wf(self) -> bool {
        &&& self.node_count() >= 1
        &&& forall|n: int, i: int|
            #![trigger self.edges_of(n)[i]]
            self.valid_edge(n, i) ==> n < self.edges_of(n)[i].node < self.node_count()
        &&& forall|n: int| 0 <= n < self.node_count() ==> edges_sorted(#[trigger] self.edges_of(n))
        &&& forall|a: int, i: int, b: int, j: int|
            #![trigger self.edges_of(a)[i], self.edges_of(b)[j]]
            self.valid_edge(a, i) && self.valid_edge(b, j) && self.edges_of(a)[i].node == self.edges_of(b)[j].node
                ==> a == b && i == j
    }

    /// Along every path of the graph the type ids strictly increase.
    pub closed spec fn paths_sorted(self) -> bool {
        forall|n: int, i: int, k: int|
            #![trigger self.edges_of(self.edges_of(n)[i].node as int)[k]]
            self.valid_edge(n, i) && 0 <= k < self.edges_of(self.edges_of(n)[i].node as int).len()
                ==> self.edges_of(n)[i].type_id < self.edges_of(self.edges_of(n)[i].node as int)[k].type_id
    }

    /// `h` is where `h.type_ids` would go in this graph.
    pub closed spec fn handle_valid(self, h: InsertHandle) -> bool {
        let ids = h.type_ids@;
        let k = h.consumed as int;
        let n = h.node_index as int;
        &&& k <= ids.len()
        &&& 0 <= n < self.node_count()
        &&& self.walk_from(0, ids.subrange(0, k)) == Some(n)
        &&& k < ids.len() ==> {
            &&& h.index_in_node <= self.edges_of(n).len()
            &&& forall|j: int| 0 <= j < h.index_in_node ==> (#[trigger] self.edges_of(n)[j]).type_id < ids[k]
            &&& forall|j: int| h.index_in_node <= j < self.edges_of(n).len() ==> (#[trigger] self.edges_of(n)[j]).type_id > ids[k]
        }
        &&& k == ids.len() ==> self.storage_of(n) is None
    }

    /// Walking `s` from `x` ends where walking all but its last type, then that type, ends.
    pub proof fn lemma_walk_last(self, x: int, s: Seq<u64>)
        requires
            s.len() > 0,
        ensures
            self.walk_from(x, s) == (match self.walk_from(x, s.drop_last()) {
                Some(y) => self.child(y, s.last()),
                None => None,
            }),
        decreases s.len(),
    {
        if s.len() == 1 {
            assert(s.drop_last().len() == 0);
            assert(s.drop_first().len() == 0);
            assert(self.walk_from(x, s.drop_last()) == Some(x));
            assert(s.last() == s[0]);
            match self.child(x, s[0]) {
                Some(c) => {
                    assert(self.walk_from(c, s.drop_first()) == Some(c));
                },
                None => {},
            }
        } else {
            match self.child(x, s[0]) {
                Some(c) => {
                    self.lemma_walk_last(c, s.drop_first());
                    assert(s.drop_first().drop_last() =~= s.drop_last().drop_first());
                    assert(s.drop_last()[0] == s[0]);
                    assert(s.drop_first().last() == s.last());
                },
                None => {
                    assert(s.drop_last()[0] == s[0]);
                },
            }
        }
    }

    /// Walking from a node of a well-formed graph ends at a node of the graph.
    pub proof fn lemma_walk_valid(self, x: int, s: Seq<u64>)
        requires
            self.wf(),
            0 <= x < self.node_count(),
        ensures
            self.walk_from(x, s) matches Some(y) ==> x <= y < self.node_count() && (s.len() > 0 ==> x < y) && x + s.len() <= y,
        decreases s.len(),
    {
        if s.len() > 0 {
            match self.child(x, s[0]) {
                Some(c) => {
                    let es = self.edges_of(x);
                    let i = choose|i: int| 0 <= i < es.len() && (#[trigger] es[i]).type_id == s[0];
                    assert(self.edges_of(x)[i].node == c);
                    self.lemma_walk_valid(c, s.drop_first());
                },
                None => {},
            }
        }
    }

    /// In a well-formed graph each node is reached from the root by one path only.
    pub proof fn lemma_walk_unique(self, p: Seq<u64>, q: Seq<u64>)
        requires
            self.wf(),
            self.walk_from(0, p) is Some,
            self.walk_from(0, p) == self.walk_from(0, q),
        ensures
            p == q,
        decreases p.len(),
    {
        self.lemma_walk_valid(0, p);
        self.lemma_walk_valid(0, q);
        let x = self.walk_from(0, p)->0;
        if p.len() == 0 {
            if q.len() > 0 {
                assert(false);
            }
            assert(p =~= q);
        } else {
            if q.len() == 0 {
                assert(false);
            }
            self.lemma_walk_last(0, p);
            self.lemma_walk_last(0, q);
            let a = self.walk_from(0, p.drop_last())->0;
            let b = self.walk_from(0, q.drop_last())->0;
            self.lemma_walk_valid(0, p.drop_last());
            self.lemma_walk_valid(0, q.drop_last());
            let ea = self.edges_of(a);
            let eb = self.edges_of(b);
            let i = choose|i: int| 0 <= i < ea.len() && (#[trigger] ea[i]).type_id == p.last();
            let j = choose|j: int| 0 <= j < eb.len() && (#[trigger] eb[j]).type_id == q.last();
            assert(self.edges_of(a)[i].node == self.edges_of(b)[j].node);
            assert(a == b && i == j);
            self.lemma_walk_unique(p.drop_last(), q.drop_last());
            assert(p =~= p.drop_last().push(p.last()));
            assert(q =~= q.drop_last().push(q.last()));
        }
    }

    /// Node `n` has no edge with type `t` when sorted search says where `t` belongs.
    proof fn lemma_no_child(self, n: int, t: u64, pos: int)
        requires
            0 <= pos <= self.edges_of(n).len(),
            forall|j: int| 0 <= j < pos ==> (#[trigger] self.edges_of(n)[j]).type_id < t,
            forall|j: int| pos <= j < self.edges_of(n).len() ==> (#[trigger] self.edges_of(n)[j]).type_id > t,
        ensures
            self.child(n, t) is None,
    {
        let es = self.edges_of(n);
        if exists|i: int| 0 <= i < es.len() && (#[trigger] es[i]).type_id == t {
            let i = choose|i: int| 0 <= i < es.len() && (#[trigger] es[i]).type_id == t;
            if i < pos {
                assert(self.edges_of(n)[i].type_id < t);
            } else {
                assert(self.edges_of(n)[i].type_id > t);
            }
        }
    }

    /// The storage registered for exactly the types `looking_for` (in that order), or a
    /// handle that says where it would be inserted.
    pub fn find_storage<'a>(&self, looking_for: &'a [u64]) -> (r: Result<usize, InsertHandle<'a>>)
        requires
            self.wf(),
        ensures
            r is Ok <==> self@.contains_key(looking_for@),
            r matches Ok(s) ==> self@[looking_for@] == s,
            r matches Err(h) ==> h.type_ids@ == looking_for@ && self.handle_valid(h),
    {
        let ghost ids = looking_for@;
        let mut node: usize = 0;
        let mut k: usize = 0;
        assert(ids.subrange(0, 0).len() == 0);
        assert(ids.subrange(0, ids.len() as int) =~= ids);
        while k < looking_for.len()
            invariant
                self.wf(),
                ids == looking_for@,
                k <= ids.len(),
                0 <= node < self.node_count(),
                self.walk_from(0, ids.subrange(0, k as int)) == Some(node as int),
                self.walk_from(0, ids) == self.walk_from(node as int, ids.subrange(k as int, ids.len() as int)),
            decreases ids.len() - k,
        {
            let t = looking_for[k];
            proof {
                assert(edges_sorted(self.edges_of(node as int)));
            }
            match search_edges(&self.nodes[node].edges, t) {
                Ok(i) => {
                    let next = self.nodes[node].edges[i].node;
                    proof {
                        let es = self.edges_of(node as int);
                        lemma_edge_target_at(es, i as int);
                        assert(self.child(node as int, t) == Some(next as int));
                        assert(self.valid_edge(node as int, i as int));
                        assert(es[i as int].node == next);
                        let rest = ids.subrange(k as int, ids.len() as int);
                        assert(rest[0] == t);
                        assert(rest.drop_first() =~= ids.subrange(k + 1, ids.len() as int));
                        let pre = ids.subrange(0, k + 1);
                        self.lemma_walk_last(0, pre);
                        assert(pre.drop_last() =~= ids.subrange(0, k as int));
                        assert(pre.last() == t);
                    }
                    node = next;
                    k = k + 1;
                },
                Err(i) => {
                    proof {
                        self.lemma_no_child(node as int, t, i as int);
                        let rest = ids.subrange(k as int, ids.len() as int);
                        assert(rest[0] == t);
                        assert(self.walk_from(0, ids) is None);
                    }
                    return Err(InsertHandle { node_index: node, index_in_node: i, consumed: k, type_ids: looking_for });
                },
            }
        }
        proof {
            assert(ids.subrange(k as int, ids.len() as int).len() == 0);
            assert(self.walk_from(0, ids) == Some(node as int));
        }
        match self.nodes[node].storage {
            Some(s) => Ok(s),
            None => Err(InsertHandle { node_index: node, index_in_node: 0, consumed: k, type_ids: looking_for }),
        }
    }

    /// `h` is `self` with one more node, empty and without storage, and an edge with type
    /// `t` from node `n` to it at position `pos` of `n`'s edges.
    pub closed spec fn added_edge(self, h: StorageGraph, n: int, pos: int, t: u64) -> bool {
        let big = self.node_count() as int;
        &&& h.node_count() == self.node_count() + 1
        &&& forall|m: int| 0 <= m < big && m != n ==> #[trigger] h.edges_of(m) == self.edges_of(m)
        &&& forall|m: int| 0 <= m < big ==> #[trigger] h.storage_of(m) == self.storage_of(m)
        &&& h.edges_of(n) == self.edges_of(n).insert(pos, Edge { type_id: t, node: big as usize })
        &&& h.edges_of(big).len() == 0
        &&& h.storage_of(big) is None
    }

    /// Where `t` belongs among the sorted edges of `n`: before `pos` all types are smaller,
    /// from `pos` on all are larger.
    pub open spec fn fits_at(self, n: int, pos: int, t: u64) -> bool {
        &&& 0 <= pos <= self.edges_of(n).len()
        &&& forall|j: int| 0 <= j < pos ==> (#[trigger] self.edges_of(n)[j]).type_id < t
        &&& forall|j: int| pos <= j < self.edges_of(n).len() ==> (#[trigger] self.edges_of(n)[j]).type_id > t
    }

    proof fn lemma_added_edges_at(self, h: StorageGraph, n: int, pos: int, t: u64)
        requires
            self.wf(),
            0 <= n < self.node_count(),
            self.fits_at(n, pos, t),
            self.added_edge(h, n, pos, t),
            self.node_count() < usize::MAX,
        ensures
            h.edges_of(n).len() == self.edges_of(n).len() + 1,
            forall|j: int| 0 <= j < pos ==> #[trigger] h.edges_of(n)[j] == self.edges_of(n)[j],
            forall|j: int| pos < j <= self.edges_of(n).len() ==> #[trigger] h.edges_of(n)[j] == self.edges_of(n)[j - 1],
            h.edges_of(n)[pos] == (Edge { type_id: t, node: self.node_count() as usize }),
            edges_sorted(h.edges_of(n)),
    {
        let e = Edge { type_id: t, node: self.node_count() as usize };
        self.edges_of(n).insert_ensures(pos, e);
        let he = h.edges_of(n);
        let ge = self.edges_of(n);
        assert forall|j: int| pos < j <= ge.len() implies #[trigger] he[j] == ge[j - 1] by {
            assert(ge.insert(pos, e)[(j - 1) + 1] == ge[j - 1]);
        }
        assert(edges_sorted(ge));
        assert forall|i: int, j: int| 0 <= i < j < he.len() implies (#[trigger] he[i]).type_id < (#[trigger] he[j]).type_id by {
            if j < pos {
            } else if j == pos {
                assert(ge[i].type_id < t);
            } else if i < pos {
                assert(ge[i].type_id < t);
                assert(ge[j - 1].type_id > t);
            } else if i == pos {
                assert(ge[j - 1].type_id > t);
            } else {
                assert(ge[i - 1].type_id < ge[j - 1].type_id);
            }
        }
    }

    proof fn lemma_added_child(self, h: StorageGraph, n: int, pos: int, t: u64, x: int, u: u64)
        requires
            self.wf(),
            0 <= n < self.node_count(),
            self.fits_at(n, pos, t),
            self.added_edge(h, n, pos, t),
            self.node_count() < usize::MAX,
            0 <= x <= self.node_count(),
        ensures
            h.child(x, u) == (if x == n && u == t {
                Some(self.node_count() as int)
            } else if x == self.node_count() {
                None
            } else {
                self.child(x, u)
            }),
    {
        let big = self.node_count() as int;
        if x == big {
            assert(h.edges_of(x).len() == 0);
        } else if x != n {
            assert(h.edges_of(x) == self.edges_of(x));
        } else {
            self.lemma_added_edges_at(h, n, pos, t);
            let he = h.edges_of(n);
            let ge = self.edges_of(n);
            assert(edges_sorted(ge));
            if u == t {
                lemma_edge_target_at(he, pos);
            } else if exists|i: int| 0 <= i < ge.len() && (#[trigger] ge[i]).type_id == u {
                let i = choose|i: int| 0 <= i < ge.len() && (#[trigger] ge[i]).type_id == u;
                lemma_edge_target_at(ge, i);
                if i < pos {
                    assert(he[i] == ge[i]);
                    lemma_edge_target_at(he, i);
                } else {
                    assert(ge[i].type_id > t);
                    assert(he[i + 1] == ge[i]);
                    lemma_edge_target_at(he, i + 1);
                }
            } else {
                assert forall|j: int| 0 <= j < he.len() implies (#[trigger] he[j]).type_id != u by {
                    if j < pos {
                        assert(he[j] == ge[j]);
                    } else if j > pos {
                        assert(he[j] == ge[j - 1]);
                    }
                }
            }
        }
    }

    proof fn lemma_added_walk(self, h: StorageGraph, n: int, pos: int, t: u64, x: int, s: Seq<u64>)
        requires
            self.wf(),
            0 <= n < self.node_count(),
            self.fits_at(n, pos, t),
            self.added_edge(h, n, pos, t),
            self.node_count() < usize::MAX,
            0 <= x < self.node_count(),
        ensures
            self.walk_from(x, s) is Some ==> h.walk_from(x, s) == self.walk_from(x, s),
            h.walk_from(x, s) matches Some(y) ==> (y == self.node_count() || self.walk_from(x, s) == Some(y)),
        decreases s.len(),
    {
        let big = self.node_count() as int;
        if s.len() > 0 {
            let u = s[0];
            self.lemma_added_child(h, n, pos, t, x, u);
            if x == n && u == t {
                self.lemma_no_child(n, t, pos);
                assert(h.child(x, u) == Some(big));
                assert(h.walk_from(x, s) == h.walk_from(big, s.drop_first()));
                if s.drop_first().len() > 0 {
                    self.lemma_added_child(h, n, pos, t, big, s.drop_first()[0]);
                    assert(h.walk_from(big, s.drop_first()) is None);
                } else {
                    assert(h.walk_from(big, s.drop_first()) == Some(big));
                }
            } else {
                match self.child(x, u) {
                    Some(c) => {
                        let es = self.edges_of(x);
                        let i = choose|i: int| 0 <= i < es.len() && (#[trigger] es[i]).type_id == u;
                        assert(self.valid_edge(x, i));
                        assert(self.edges_of(x)[i].node == c);
                        self.lemma_added_walk(h, n, pos, t, c, s.drop_first());
                    },
                    None => {},
                }
            }
        }
    }

    /// Adding an empty node below `n` keeps the graph well formed and the paths it maps,
    /// and the path to `n` followed by `t` now leads to the new node.
    proof fn lemma_add_edge(self, h: StorageGraph, n: int, pos: int, t: u64)
        requires
            self.wf(),
            0 <= n < self.node_count(),
            self.fits_at(n, pos, t),
            self.added_edge(h, n, pos, t),
            self.node_count() < usize::MAX,
        ensures
            h.wf(),
            h@ == self@,
            forall|q: Seq<u64>| self.walk_from(0, q) == Some(n) ==> #[trigger] h.walk_from(0, q.push(t)) == Some(self.node_count() as int),
            forall|q: Seq<u64>| #[trigger] self.walk_from(0, q) is Some ==> h.walk_from(0, q) == self.walk_from(0, q),
            self.paths_sorted() && (forall|a: int, i: int|
                #![trigger self.edges_of(a)[i]]
                self.valid_edge(a, i) && self.edges_of(a)[i].node == n ==> self.edges_of(a)[i].type_id < t)
                ==> h.paths_sorted(),
    {
        let big = self.node_count() as int;
        self.lemma_added_edges_at(h, n, pos, t);
        let ge = self.edges_of(n);
        let he = h.edges_of(n);
        // an edge of `h` is an edge of `self` (at a possibly shifted index) or the new one
        assert forall|m: int, i: int| #[trigger] h.valid_edge(m, i) && !(m == n && i == pos) implies {
            let j = if m == n && i > pos { i - 1 } else { i };
            &&& self.valid_edge(m, j)
            &&& h.edges_of(m)[i] == self.edges_of(m)[j]
        } by {
            if m == big {
                assert(h.edges_of(big).len() == 0);
            } else if m != n {
                assert(h.edges_of(m) == self.edges_of(m));
            }
        }
        assert(h.valid_edge(n, pos));
        assert forall|m: int, i: int| #![trigger h.edges_of(m)[i]] h.valid_edge(m, i) implies m < h.edges_of(m)[i].node < h.node_count() by {
            if !(m == n && i == pos) {
                let j = if m == n && i > pos { i - 1 } else { i };
                assert(self.valid_edge(m, j));
                assert(h.edges_of(m)[i] == self.edges_of(m)[j]);
            }
        }
        assert forall|m: int| 0 <= m < h.node_count() implies edges_sorted(#[trigger] h.edges_of(m)) by {
            if m == big {
                assert(h.edges_of(big).len() == 0);
            } else if m != n {
                assert(h.edges_of(m) == self.edges_of(m));
            }
        }
        assert forall|a: int, i: int, b: int, j: int|
            #![trigger h.edges_of(a)[i], h.edges_of(b)[j]]
            h.valid_edge(a, i) && h.valid_edge(b, j) && h.edges_of(a)[i].node == h.edges_of(b)[j].node
            implies a == b && i == j by {
            let na = a == n && i == pos;
            let nb = b == n && j == pos;
            if na && nb {
            } else if na {
                let jj = if b == n && j > pos { j - 1 } else { j };
                assert(self.valid_edge(b, jj));
                assert(self.edges_of(b)[jj].node < big);
            } else if nb {
                let ii = if a == n && i > pos { i - 1 } else { i };
                assert(self.valid_edge(a, ii));
                assert(self.edges_of(a)[ii].node < big);
            } else {
                let ii = if a == n && i > pos { i - 1 } else { i };
                let jj = if b == n && j > pos { j - 1 } else { j };
                assert(self.valid_edge(a, ii));
                assert(self.valid_edge(b, jj));
                assert(self.edges_of(a)[ii].node == self.edges_of(b)[jj].node);
            }
        }
        assert(h.wf());
        assert forall|x: int, q: Seq<u64>| 0 <= x < big implies {
            &&& (self.walk_from(x, q) is Some ==> h.walk_from(x, q) == self.walk_from(x, q))
            &&& (h.walk_from(x, q) matches Some(y) ==> (y == big || self.walk_from(x, q) == Some(y)))
        } by {
            self.lemma_added_walk(h, n, pos, t, x, q);
        }
        assert(h@ =~= self@) by {
            assert forall|p: Seq<u64>| #[trigger] h.key_storage(p) == self.key_storage(p) by {
                self.lemma_walk_valid(0, p);
                h.lemma_walk_valid(0, p);
                match self.walk_from(0, p) {
                    Some(y) => {
                        assert(h.storage_of(y) == self.storage_of(y));
                    },
                    None => {},
                }
            }
        }
        assert forall|q: Seq<u64>| self.walk_from(0, q) == Some(n) implies #[trigger] h.walk_from(0, q.push(t)) == Some(big) by {
            h.lemma_walk_last(0, q.push(t));
            assert(q.push(t).drop_last() =~= q);
            self.lemma_added_child(h, n, pos, t, n, t);
        }
        if self.paths_sorted() && (forall|a: int, i: int|
            #![trigger self.edges_of(a)[i]]
            self.valid_edge(a, i) && self.edges_of(a)[i].node == n ==> self.edges_of(a)[i].type_id < t) {
            assert forall|m: int, i: int, k: int|
                #![trigger h.edges_of(h.edges_of(m)[i].node as int)[k]]
                h.valid_edge(m, i) && 0 <= k < h.edges_of(h.edges_of(m)[i].node as int).len()
                implies h.edges_of(m)[i].type_id < h.edges_of(h.edges_of(m)[i].node as int)[k].type_id by {
                let c = h.edges_of(m)[i].node as int;
                if m == n && i == pos {
                    assert(c == big);
                    assert(h.edges_of(big).len() == 0);
                } else {
                    let ii = if m == n && i > pos { i - 1 } else { i };
                    assert(self.valid_edge(m, ii));
                    assert(h.edges_of(m)[i] == self.edges_of(m)[ii]);
                    assert(c < big);
                    if c == n {
                        assert(self.edges_of(m)[ii].type_id < t);
                        if k < pos {
                            assert(he[k] == ge[k]);
                            assert(self.edges_of(self.edges_of(m)[ii].node as int)[k] == ge[k]);
                        } else if k > pos {
                            assert(he[k] == ge[k - 1]);
                            assert(self.edges_of(self.edges_of(m)[ii].node as int)[k - 1] == ge[k - 1]);
                        }
                    } else {
                        assert(h.edges_of(c) == self.edges_of(c));
                        assert(self.edges_of(self.edges_of(m)[ii].node as int)[k] == h.edges_of(c)[k]);
                    }
                }
            }
        }
    }

    /// Every edge into the node that `p` leads to carries the last type of `p`; nothing
    /// leads into the root.
    proof fn lemma_incoming(self, p: Seq<u64>)
        requires
            self.wf(),
            self.walk_from(0, p) is Some,
        ensures
            forall|a: int, i: int|
                #![trigger self.edges_of(a)[i]]
                self.valid_edge(a, i) && self.edges_of(a)[i].node == self.walk_from(0, p)->0
                    ==> p.len() > 0 && self.edges_of(a)[i].type_id == p.last(),
    {
        let x = self.walk_from(0, p)->0;
        if p.len() > 0 {
            self.lemma_walk_last(0, p);
            self.lemma_walk_valid(0, p.drop_last());
            let b = self.walk_from(0, p.drop_last())->0;
            let eb = self.edges_of(b);
            let j = choose|j: int| 0 <= j < eb.len() && (#[trigger] eb[j]).type_id == p.last();
            assert(self.valid_edge(b, j));
            assert forall|a: int, i: int|
                #![trigger self.edges_of(a)[i]]
                self.valid_edge(a, i) && self.edges_of(a)[i].node == x implies self.edges_of(a)[i].type_id == p.last() by {
                assert(self.edges_of(b)[j].node == x);
            }
        } else {
            assert forall|a: int, i: int|
                #![trigger self.edges_of(a)[i]]
                self.valid_edge(a, i) && self.edges_of(a)[i].node == x implies false by {
                assert(x == 0);
            }
        }
    }

    /// Two graphs with the same nodes and edges walk alike.
    proof fn lemma_same_edges_walk(self, h: StorageGraph, x: int, s: Seq<u64>)
        requires
            self.wf(),
            h.node_count() == self.node_count(),
            forall|m: int| 0 <= m < self.node_count() ==> #[trigger] h.edges_of(m) == self.edges_of(m),
            0 <= x < self.node_count(),
        ensures
            h.walk_from(x, s) == self.walk_from(x, s),
        decreases s.len(),
    {
        if s.len() > 0 {
            assert(h.edges_of(x) == self.edges_of(x));
            match self.child(x, s[0]) {
                Some(c) => {
                    let es = self.edges_of(x);
                    let i = choose|i: int| 0 <= i < es.len() && (#[trigger] es[i]).type_id == s[0];
                    assert(self.valid_edge(x, i));
                    self.lemma_same_edges_walk(h, c, s.drop_first());
                },
                None => {},
            }
        }
    }

    /// Registering storage `si` at the node that `ids` leads to, which had none, maps
    /// `ids` to `si` and changes nothing else.
    proof fn lemma_set_storage(self, h: StorageGraph, n: int, ids: Seq<u64>, si: usize)
        requires
            self.wf(),
            self.walk_from(0, ids) == Some(n),
            self.storage_of(n) is None,
            h.node_count() == self.node_count(),
            forall|m: int| 0 <= m < self.node_count() ==> #[trigger] h.edges_of(m) == self.edges_of(m),
            forall|m: int| 0 <= m < self.node_count() && m != n ==> #[trigger] h.storage_of(m) == self.storage_of(m),
            h.storage_of(n) == Some(si),
        ensures
            h.wf(),
            h@ == self@.insert(ids, si),
            self.paths_sorted() ==> h.paths_sorted(),
    {
        self.lemma_walk_valid(0, ids);
        assert forall|m: int, i: int| #[trigger] h.valid_edge(m, i) implies self.valid_edge(m, i) && h.edges_of(m)[i] == self.edges_of(m)[i] by {
            assert(h.edges_of(m) == self.edges_of(m));
        }
        assert forall|m: int| 0 <= m < h.node_count() implies edges_sorted(#[trigger] h.edges_of(m)) by {
            assert(h.edges_of(m) == self.edges_of(m));
        }
        assert forall|a: int, i: int, b: int, j: int|
            #![trigger h.edges_of(a)[i], h.edges_of(b)[j]]
            h.valid_edge(a, i) && h.valid_edge(b, j) && h.edges_of(a)[i].node == h.edges_of(b)[j].node
            implies a == b && i == j by {
            assert(self.edges_of(a)[i].node == self.edges_of(b)[j].node);
        }
        assert(h.wf());
        assert(h@ =~= self@.insert(ids, si)) by {
            assert forall|p: Seq<u64>| #[trigger] h.key_storage(p) == (if p == ids { Some(si) } else { self.key_storage(p) }) by {
                self.lemma_same_edges_walk(h, 0, p);
                self.lemma_walk_valid(0, p);
                if p != ids {
                    if self.walk_from(0, p) == Some(n) {
                        self.lemma_walk_unique(p, ids);
                    }
                }
            }
        }
        if self.paths_sorted() {
            assert forall|m: int, i: int, k: int|
                #![trigger h.edges_of(h.edges_of(m)[i].node as int)[k]]
                h.valid_edge(m, i) && 0 <= k < h.edges_of(h.edges_of(m)[i].node as int).len()
                implies h.edges_of(m)[i].type_id < h.edges_of(h.edges_of(m)[i].node as int)[k].type_id by {
                assert(self.valid_edge(m, i));
                let c = self.edges_of(m)[i].node as int;
                assert(h.edges_of(c) == self.edges_of(c));
                assert(self.edges_of(self.edges_of(m)[i].node as int)[k] == h.edges_of(c)[k]);
            }
        }
    }

    /// Registers storage `storage_index` for the types of `insert_handle`, adding the
    /// nodes its path still lacks.
    pub fn insert_storage(&mut self, insert_handle: InsertHandle, storage_index: usize)
        requires
            old(self).wf(),
            old(self).handle_valid(insert_handle),
            old(self).node_count() + insert_handle.type_ids@.len() < usize::MAX,
        ensures
            final(self).wf(),
            final(self)@ == old(self)@.insert(insert_handle.type_ids@, storage_index),
            old(self).paths_sorted() && strictly_sorted(insert_handle.type_ids@) ==> final(self).paths_sorted(),
            final(self).node_count() <= old(self).node_count() + insert_handle.type_ids@.len(),
    {
        let ghost start = *self;
        let ids = insert_handle.type_ids;
        let mut node = insert_handle.node_index;
        let mut k = insert_handle.consumed;
        let mut pos = insert_handle.index_in_node;
        while k < ids.len()
            invariant
                self.wf(),
                ids@ == insert_handle.type_ids@,
                k <= ids@.len(),
                0 <= node < self.node_count(),
                self.node_count() + ids@.len() - k <= start.node_count() + ids@.len(),
                start.node_count() + ids@.len() < usize::MAX,
                self@ == start@,
                self.walk_from(0, ids@.subrange(0, k as int)) == Some(node as int),
                k < ids@.len() ==> self.fits_at(node as int, pos as int, ids@[k as int]),
                k == ids@.len() ==> self.storage_of(node as int) is None,
                start.paths_sorted() && strictly_sorted(ids@) ==> self.paths_sorted(),
            decreases ids@.len() - k,
        {
            let ghost g = *self;
            let t = ids[k];
            let new_index = self.nodes.len();
            self.nodes.push(StorageNode::new());
            self.nodes[node].edges.insert(pos, Edge { type_id: t, node: new_index });
            proof {
                assert(g.added_edge(*self, node as int, pos as int, t)) by {
                    assert forall|m: int| 0 <= m < new_index && m != node implies #[trigger] self.edges_of(m) == g.edges_of(m) by {
                        assert(self.nodes@[m] == g.nodes@[m]);
                    }
                    assert forall|m: int| 0 <= m < new_index implies #[trigger] self.storage_of(m) == g.storage_of(m) by {
                        if m != node {
                            assert(self.nodes@[m] == g.nodes@[m]);
                        }
                    }
                }
                g.lemma_add_edge(*self, node as int, pos as int, t);
                let pre = ids@.subrange(0, k as int);
                assert(pre.push(t) =~= ids@.subrange(0, k + 1));
                if g.paths_sorted() && strictly_sorted(ids@) {
                    g.lemma_incoming(pre);
                    assert forall|a: int, i: int|
                        #![trigger g.edges_of(a)[i]]
                        g.valid_edge(a, i) && g.edges_of(a)[i].node == node implies g.edges_of(a)[i].type_id < t by {
                        assert(ids@[k - 1] < ids@[k as int]);
                    }
                }
                assert(self.edges_of(new_index as int).len() == 0);
            }
            node = new_index;
            pos = 0;
            k = k + 1;
        }
        let ghost g = *self;
        self.nodes[node].storage = Some(storage_index);
        proof {
            assert(ids@.subrange(0, k as int) =~= ids@);
            assert forall|m: int| 0 <= m < g.node_count() implies #[trigger] self.edges_of(m) == g.edges_of(m) by {
                if m != node {
                    assert(self.nodes@[m] == g.nodes@[m]);
                }
            }
            assert forall|m: int| 0 <= m < g.node_count() && m != node implies #[trigger] self.storage_of(m) == g.storage_of(m) by {
                assert(self.nodes@[m] == g.nodes@[m]);
            }
            g.lemma_set_storage(*self, node as int, ids@, storage_index);
        }
    }

    /// Walking `a` then `b` is walking `a + b`.
    pub proof fn lemma_walk_concat(self, x: int, a: Seq<u64>, b: Seq<u64>)
        ensures
            self.walk_from(x, a + b) == (match self.walk_from(x, a) {
                Some(y) => self.walk_from(y, b),
                None => None,
            }),
        decreases a.len(),
    {
        if a.len() == 0 {
            assert(a + b =~= b);
        } else {
            assert((a + b)[0] == a[0]);
            assert((a + b).drop_first() =~= a.drop_first() + b);
            match self.child(x, a[0]) {
                Some(c) => {
                    self.lemma_walk_concat(c, a.drop_first(), b);
                },
                None => {},
            }
        }
    }

    /// In a graph whose paths are sorted, the edges of the node that `q` leads to carry
    /// types above the last one of `q`, and `q` itself is sorted.
    pub proof fn lemma_path_sorted(self, q: Seq<u64>)
        requires
            self.wf(),
            self.paths_sorted(),
            self.walk_from(0, q) is Some,
        ensures
            strictly_sorted(q),
            q.len() > 0 ==> forall|k: int|
                0 <= k < self.edges_of(self.walk_from(0, q)->0).len()
                    ==> q.last() < (#[trigger] self.edges_of(self.walk_from(0, q)->0)[k]).type_id,
        decreases q.len(),
    {
        let x = self.walk_from(0, q)->0;
        self.lemma_walk_valid(0, q);
        if q.len() > 0 {
            self.lemma_walk_last(0, q);
            let a = self.walk_from(0, q.drop_last())->0;
            self.lemma_walk_valid(0, q.drop_last());
            let ea = self.edges_of(a);
            let i = choose|i: int| 0 <= i < ea.len() && (#[trigger] ea[i]).type_id == q.last();
            assert(self.valid_edge(a, i));
            assert(self.edges_of(a)[i].node == x);
            assert forall|k: int| 0 <= k < self.edges_of(x).len() implies q.last() < (#[trigger] self.edges_of(x)[k]).type_id by {
                assert(self.edges_of(self.edges_of(a)[i].node as int)[k] == self.edges_of(x)[k]);
            }
            self.lemma_path_sorted(q.drop_last());
            if q.len() > 1 {
                let qd = q.drop_last();
                assert(qd.last() < q.last()) by {
                    assert(self.edges_of(a)[i].type_id == q.last());
                }
            }
            assert forall|i1: int, j1: int| 0 <= i1 < j1 < q.len() implies #[trigger] q[i1] < #[trigger] q[j1] by {
                let qd = q.drop_last();
                if j1 < q.len() - 1 {
                    assert(qd[i1] < qd[j1]);
                } else if i1 < q.len() - 2 {
                    assert(qd[i1] < qd[q.len() - 2]);
                }
            }
        }
    }

    /// Whether `m` is a match of `types` for the path `p` of the graph.
    pub open spec fn is_match(self, types: Seq<Requirement>, m: StorageMatch, p: Seq<u64>) -> bool {
        &&& self@.contains_key(p)
        &&& path_matches(p, types)
        &&& m.storage == self@[p]
        &&& channels_point(p, types, m.channels@)
    }

    /// `m` is a match of `types` for some path of the graph.
    pub open spec fn is_found(self, types: Seq<Requirement>, m: StorageMatch) -> bool {
        exists|p: Seq<u64>| #[trigger] self.is_match(types, m, p)
    }

    /// `m` is a match of `types` for some path of the graph that begins with `q`.
    pub open spec fn found_below(self, types: Seq<Requirement>, m: StorageMatch, q: Seq<u64>) -> bool {
        exists|p: Seq<u64>| #[trigger] self.is_match(types, m, p) && has_prefix(p, q)
    }

    /// The state in which the search reaches `node` along `q`, with the requirements
    /// before `from` settled by `q` and `ch` giving their positions.
    pub open spec fn search_state(self, node: int, q: Seq<u64>, types: Seq<Requirement>, from: int, ch: Seq<usize>) -> bool {
        &&& self.wf()
        &&& self.paths_sorted()
        &&& requirements_sorted(types)
        &&& no_optional(types)
        &&& self.walk_from(0, q) == Some(node)
        &&& 0 <= from <= types.len()
        &&& (q.len() > 0 && from < types.len() ==> q.last() < types[from].type_id)
        &&& (from > 0 ==> q.len() > 0 && types[from - 1].type_id <= q.last())
        &&& path_matches(q, types.subrange(0, from))
        &&& channels_point(q, types.subrange(0, from), ch)
    }

    /// At the node the search has reached, the path so far is a match exactly when no
    /// `With` requirement is left and storage is registered there.
    proof fn lemma_match_here(self, node: int, q: Seq<u64>, types: Seq<Requirement>, from: int, ch: Seq<usize>)
        requires
            self.search_state(node, q, types, from, ch),
        ensures
            (self@.contains_key(q) && path_matches(q, types)) <==> (
                (forall|j: int| from <= j < types.len() ==> (#[trigger] types[j]).requirement_type != RequirementType::With)
                && self.storage_of(node) is Some),
            (forall|j: int| from <= j < types.len() ==> (#[trigger] types[j]).requirement_type != RequirementType::With)
                ==> channels_point(q, types, ch),
            self@.contains_key(q) ==> self@[q] == self.storage_of(node)->0,
    {
        self.lemma_path_sorted(q);
        assert(self.key_storage(q) == self.storage_of(node));
        // every type of q lies below every requirement from `from` on
        assert forall|j: int, i: int| from <= j < types.len() && 0 <= i < q.len() implies #[trigger] q[i] < (#[trigger] types[j]).type_id by {
            if i < q.len() - 1 {
                assert(q[i] < q[q.len() - 1]);
            }
            if j > from {
                assert(types[from].type_id < types[j].type_id);
            }
        }
        if (forall|j: int| from <= j < types.len() ==> (#[trigger] types[j]).requirement_type != RequirementType::With) {
            assert forall|i: int| 0 <= i < types.len() implies requirement_holds(q, #[trigger] types[i]) by {
                if i < from {
                    assert(types.subrange(0, from)[i] == types[i]);
                } else {
                    if types[i].requirement_type == RequirementType::Without {
                        if q.contains(types[i].type_id) {
                            let k = choose|k: int| 0 <= k < q.len() && q[k] == types[i].type_id;
                            assert(q[k] < types[i].type_id);
                        }
                    }
                }
            }
            lemma_with_types_without(types, from, types.len() as int);
            assert(types.subrange(0, types.len() as int) =~= types);
        } else {
            let j = choose|j: int| from <= j < types.len() && (#[trigger] types[j]).requirement_type == RequirementType::With;
            if q.contains(types[j].type_id) {
                let k = choose|k: int| 0 <= k < q.len() && q[k] == types[j].type_id;
                assert(q[k] < types[j].type_id);
            }
            assert(!requirement_holds(q, types[j]));
        }
    }

    /// One step of the search along edge `e` of the node it has reached: a match below
    /// that edge needs the passed requirements to be `Without` ones and the edge's type
    /// not to be excluded, and the step leads to a valid search state.
    proof fn lemma_edge_step(
        self,
        node: int,
        q: Seq<u64>,
        types: Seq<Requirement>,
        from: int,
        ch: Seq<usize>,
        e: int,
        f: int,
        ok: bool,
    )
        requires
            self.search_state(node, q, types, from, ch),
            0 <= e < self.edges_of(node).len(),
            from <= f <= types.len(),
            ok ==> forall|j: int| from <= j < f ==> (#[trigger] types[j]).type_id < self.edges_of(node)[e].type_id
                && types[j].requirement_type != RequirementType::With,
            ok ==> f == types.len() || types[f].type_id >= self.edges_of(node)[e].type_id,
            !ok ==> f < types.len() && types[f].type_id < self.edges_of(node)[e].type_id
                && types[f].requirement_type == RequirementType::With,
        ensures
            ({
                let t = self.edges_of(node)[e].type_id;
                let c = self.edges_of(node)[e].node as int;
                let hit = f < types.len() && types[f].type_id == t;
                &&& (exists|p: Seq<u64>| self@.contains_key(p) && path_matches(p, types) && #[trigger] has_prefix(p, q.push(t)))
                    ==> ok && (hit ==> types[f].requirement_type == RequirementType::With)
                &&& (ok && hit && types[f].requirement_type == RequirementType::With)
                    ==> self.search_state(c, q.push(t), types, f + 1, ch.push(q.len() as usize))
                &&& (ok && !hit) ==> self.search_state(c, q.push(t), types, f, ch)
            }),
    {
        let t = self.edges_of(node)[e].type_id;
        let c = self.edges_of(node)[e].node as int;
        let q2 = q.push(t);
        let hit = f < types.len() && types[f].type_id == t;
        self.lemma_walk_valid(0, q);
        self.lemma_path_sorted(q);
        assert(edges_sorted(self.edges_of(node)));
        lemma_edge_target_at(self.edges_of(node), e);
        assert(self.valid_edge(node, e));
        // the walk along q2 ends at c
        self.lemma_walk_last(0, q2);
        assert(q2.drop_last() =~= q);
        assert(self.walk_from(0, q2) == Some(c));
        self.lemma_path_sorted(q2);
        // every type of q lies below t and below every requirement from `from` on
        assert forall|i: int| 0 <= i < q.len() implies #[trigger] q[i] < t by {
            assert(q.last() < self.edges_of(node)[e].type_id);
            if i < q.len() - 1 {
                assert(q[i] < q[q.len() - 1]);
            }
        }
        assert forall|j: int, i: int| from <= j < types.len() && 0 <= i < q.len() implies #[trigger] q[i] < (#[trigger] types[j]).type_id by {
            if i < q.len() - 1 {
                assert(q[i] < q[q.len() - 1]);
            }
            if j > from {
                assert(types[from].type_id < types[j].type_id);
            }
        }
        if exists|p: Seq<u64>| self@.contains_key(p) && path_matches(p, types) && #[trigger] has_prefix(p, q2) {
            let p = choose|p: Seq<u64>| self@.contains_key(p) && path_matches(p, types) && #[trigger] has_prefix(p, q2);
            assert(self.walk_from(0, p) is Some);
            self.lemma_path_sorted(p);
            assert(p[q.len() as int] == t) by {
                assert(p.subrange(0, q2.len() as int)[q.len() as int] == q2[q.len() as int]);
            }
            if !ok {
                let h = types[f];
                assert(requirement_holds(p, h));
                let k = choose|k: int| 0 <= k < p.len() && p[k] == h.type_id;
                if k < q.len() {
                    assert(p.subrange(0, q2.len() as int)[k] == q2[k]);
                    assert(q[k] < h.type_id);
                } else if k > q.len() {
                    assert(p[q.len() as int] < p[k]);
                }
                assert(false);
            }
            if hit && types[f].requirement_type != RequirementType::With {
                let h = types[f];
                assert(requirement_holds(p, h));
                if h.requirement_type == RequirementType::Without {
                    assert(p.contains(t));
                }
            }
        }
        if ok {
            let f2 = if hit { f + 1 } else { f };
            let ch2 = if hit { ch.push(q.len() as usize) } else { ch };
            if hit && types[f].requirement_type == RequirementType::With || !hit {
                // the settled requirements still hold of q2
                assert forall|i: int| 0 <= i < f2 implies requirement_holds(q2, #[trigger] types.subrange(0, f2)[i]) by {
                    let r = types[i];
                    assert(types.subrange(0, f2)[i] == r);
                    if i < from {
                        assert(types.subrange(0, from)[i] == r);
                        assert(requirement_holds(q, r));
                        if r.requirement_type == RequirementType::With {
                            let k = choose|k: int| 0 <= k < q.len() && q[k] == r.type_id;
                            assert(q2[k] == r.type_id);
                        } else if r.requirement_type == RequirementType::Without {
                            assert(r.type_id <= q.last());
                            if q2.contains(r.type_id) {
                                let k = choose|k: int| 0 <= k < q2.len() && q2[k] == r.type_id;
                                if k < q.len() {
                                    assert(q[k] == r.type_id);
                                }
                            }
                        }
                    } else if i < f {
                        if q2.contains(r.type_id) {
                            let k = choose|k: int| 0 <= k < q2.len() && q2[k] == r.type_id;
                            if k < q.len() {
                                assert(q[k] < r.type_id);
                            }
                        }
                    } else {
                        assert(q2[q.len() as int] == t);
                    }
                }
                // positions of the With types
                if hit {
                    assert(types.subrange(0, f + 1).drop_last() =~= types.subrange(0, f));
                    assert(types.subrange(0, f + 1).last() == types[f]);
                    lemma_with_types_without(types, from, f);
                    assert(with_types(types.subrange(0, f2)) == with_types(types.subrange(0, from)).push(t));
                } else {
                    lemma_with_types_without(types, from, f);
                }
                assert forall|w: int| 0 <= w < ch2.len() implies #[trigger] ch2[w] < q2.len() && q2[ch2[w] as int] == with_types(types.subrange(0, f2))[w] by {
                    if w < ch.len() {
                        assert(ch2[w] == ch[w]);
                    }
                }
                if q2.len() > 0 && f2 < types.len() {
                    if hit {
                        assert(types[f].type_id < types[f + 1].type_id);
                    }
                }
                if f2 > 0 {
                    if f2 > from {
                    } else {
                        assert(types[from - 1].type_id <= q.last());
                    }
                }
                assert(self.search_state(c, q2, types, f2, ch2));
            }
        }
    }

    /// Appends to `out` the matches of `types` among the paths that begin with `q`, the
    /// path that leads to `node`; `channels` holds the positions of the `With` types
    /// settled so far and is given back unchanged.
    #[verifier::rlimit(50)]
    fn recurse_matching_storage(
        &self,
        node: usize,
        Ghost(q): Ghost<Seq<u64>>,
        depth: usize,
        types: &[Requirement],
        from: usize,
        channels: &mut Vec<usize>,
        out: &mut Vec<StorageMatch>,
    ) -> (found: Ghost<Seq<Seq<u64>>>)
        requires
            self.search_state(node as int, q, types@, from as int, old(channels)@),
            depth == q.len(),
            self.node_count() < usize::MAX,
        ensures
            final(channels)@ == old(channels)@,
            old(out)@.len() <= final(out)@.len(),
            final(out)@.subrange(0, old(out)@.len() as int) == old(out)@,
            forall|j: int| old(out)@.len() <= j < final(out)@.len() ==> #[trigger] self.found_below(types@, final(out)@[j], q),
            forall|p: Seq<u64>| self@.contains_key(p) && path_matches(p, types@) && has_prefix(p, q) ==>
                exists|j: int| old(out)@.len() <= j < final(out)@.len() && #[trigger] self.is_match(types@, final(out)@[j], p),
            self.paths_once(types@, final(out)@.subrange(old(out)@.len() as int, final(out)@.len() as int), found@),
            forall|j: int| 0 <= j < found@.len() ==> has_prefix(#[trigger] found@[j], q),
        decreases self.node_count() - node,
    {
        let ghost ch0 = channels@;
        let ghost out0 = out@;
        let ghost mut found: Seq<Seq<u64>> = Seq::empty();
        proof {
            self.lemma_walk_valid(0, q);
            self.lemma_match_here(node as int, q, types@, from as int, ch0);
            assert(has_prefix(q, q)) by {
                assert(q.subrange(0, q.len() as int) =~= q);
            }
        }
        if no_with_from(types, from) {
            match self.nodes[node].storage {
                Some(st) => {
                    let ch = copy_indices(channels);
                    out.push(StorageMatch { storage: st, channels: ch });
                    proof {
                        assert(self.is_match(types@, out@[out0.len() as int], q));
                        assert(self.found_below(types@, out@[out0.len() as int], q));
                        found = seq![q];
                    }
                },
                None => {},
            }
        }
        let ghost out1 = out@;
        proof {
            assert(out@.subrange(out0.len() as int, out@.len() as int).len() == found.len());
        }
        let n_edges = self.nodes[node].edges.len();
        let mut e: usize = 0;
        while e < n_edges
            invariant
                self.search_state(node as int, q, types@, from as int, ch0),
                depth == q.len(),
                self.node_count() < usize::MAX,
                0 <= node < self.node_count(),
                n_edges == self.edges_of(node as int).len(),
                e <= n_edges,
                channels@ == ch0,
                out1.len() <= out@.len(),
                out0.len() <= out1.len(),
                out@.subrange(0, out1.len() as int) == out1,
                out1.subrange(0, out0.len() as int) == out0,
                forall|j: int| out0.len() <= j < out@.len() ==> #[trigger] self.found_below(types@, out@[j], q),
                self@.contains_key(q) && path_matches(q, types@) ==>
                    exists|j: int| out0.len() <= j < out1.len() && #[trigger] self.is_match(types@, out1[j], q),
                forall|p: Seq<u64>, k: int| 0 <= k < e && self@.contains_key(p) && path_matches(p, types@)
                    && #[trigger] has_prefix(p, q.push(self.edges_of(node as int)[k].type_id)) ==>
                    exists|j: int| out0.len() <= j < out@.len() && #[trigger] self.is_match(types@, out@[j], p),
                self.paths_once(types@, out@.subrange(out0.len() as int, out@.len() as int), found),
                forall|j: int| 0 <= j < found.len() ==> has_prefix(#[trigger] found[j], q),
                forall|j: int| 0 <= j < found.len() && (#[trigger] found[j]).len() > q.len() ==> e > 0
                    && found[j][q.len() as int] <= self.edges_of(node as int)[e - 1].type_id,
            decreases n_edges - e,
        {
            let ghost out_before = out@;
            let ghost found_before = found;
            let ghost mut fc: Seq<Seq<u64>> = Seq::empty();
            let edge = self.nodes[node].edges[e];
            let t = edge.type_id;
            let (f, ok) = skip_below(types, from, t);
            proof {
                self.lemma_edge_step(node as int, q, types@, from as int, ch0, e as int, f as int, ok);
                self.lemma_walk_valid(0, q);
                assert(self.valid_edge(node as int, e as int));
            }
            if ok {
                if f < types.len() && types[f].type_id == t {
                    if types[f].requirement_type == RequirementType::With {
                        channels.push(depth);
                        let g = self.recurse_matching_storage(edge.node, Ghost(q.push(t)), depth + 1, types, f + 1, channels, out);
                        proof {
                            fc = g@;
                        }
                        channels.pop();
                        proof {
                            assert(channels@ =~= ch0);
                        }
                    }
                } else {
                    let g = self.recurse_matching_storage(edge.node, Ghost(q.push(t)), depth + 1, types, f, channels, out);
                    proof {
                        fc = g@;
                    }
                }
            }
            proof {
                assert(out@.subrange(0, out_before.len() as int) == out_before);
                self.lemma_paths_once_append(types@, out0.len() as int, out_before, out@, found_before, fc, q, t, e as int, node as int);
                found = found_before + fc;
                assert forall|j: int| out0.len() <= j < out@.len() implies #[trigger] self.found_below(types@, out@[j], q) by {
                    if j < out_before.len() {
                        assert(out@[j] == out_before[j]);
                        assert(self.found_below(types@, out_before[j], q));
                    } else {
                        assert(self.found_below(types@, out@[j], q.push(t)));
                        let p = choose|p: Seq<u64>| #[trigger] self.is_match(types@, out@[j], p) && has_prefix(p, q.push(t));
                        assert(p.subrange(0, q.len() as int) =~= p.subrange(0, q.len() + 1int).subrange(0, q.len() as int));
                        assert(q.push(t).subrange(0, q.len() as int) =~= q);
                        assert(has_prefix(p, q));
                    }
                }
                assert(out@.subrange(0, out1.len() as int) =~= out1) by {
                    assert forall|j: int| 0 <= j < out1.len() implies out@[j] == out1[j] by {
                        assert(out@[j] == out_before[j]);
                        assert(out_before[j] == out1[j]);
                    }
                }
                if self@.contains_key(q) && path_matches(q, types@) {
                    let j = choose|j: int| out0.len() <= j < out1.len() && #[trigger] self.is_match(types@, out1[j], q);
                    assert(self.is_match(types@, out1[j], q));
                }
                assert forall|p: Seq<u64>, k: int| 0 <= k < e + 1 && self@.contains_key(p) && path_matches(p, types@)
                    && #[trigger] has_prefix(p, q.push(self.edges_of(node as int)[k].type_id)) implies
                    exists|j: int| out0.len() <= j < out@.len() && #[trigger] self.is_match(types@, out@[j], p) by {
                    if k < e {
                        let j = choose|j: int| out0.len() <= j < out_before.len() && #[trigger] self.is_match(types@, out_before[j], p);
                        assert(out@[j] == out_before[j]);
                        assert(self.is_match(types@, out@[j], p));
                    } else {
                        assert(self.edges_of(node as int)[k].type_id == t);
                    }
                }
            }
            e = e + 1;
        }
        proof {
            assert forall|p: Seq<u64>| self@.contains_key(p) && path_matches(p, types@) && has_prefix(p, q) implies
                exists|j: int| out0.len() <= j < out@.len() && #[trigger] self.is_match(types@, out@[j], p) by {
                if p.len() == q.len() {
                    assert(p =~= q) by {
                        assert(p.subrange(0, q.len() as int) =~= p);
                    }
                    let j = choose|j: int| out0.len() <= j < out1.len() && #[trigger] self.is_match(types@, out1[j], q);
                    assert(out@[j] == out1[j]);
                    assert(self.is_match(types@, out@[j], p));
                } else {
                    let t = p[q.len() as int];
                    let q2 = q.push(t);
                    assert(p.subrange(0, q.len() as int) == q);
                    assert(p.subrange(0, q2.len() as int) =~= q2);
                    assert(has_prefix(p, q2));
                    assert(self.walk_from(0, p) is Some);
                    self.lemma_walk_concat(0, q2, p.subrange(q2.len() as int, p.len() as int));
                    assert(q2 + p.subrange(q2.len() as int, p.len() as int) =~= p);
                    assert(self.walk_from(0, q2) is Some);
                    self.lemma_walk_last(0, q2);
                    assert(q2.drop_last() =~= q);
                    assert(self.child(node as int, t) is Some);
                    let es = self.edges_of(node as int);
                    let k = choose|k: int| 0 <= k < es.len() && (#[trigger] es[k]).type_id == t;
                    assert(has_prefix(p, q.push(self.edges_of(node as int)[k].type_id)));
                }
            }
        }
        Ghost(found)
    }

    /// Appending the matches found below the edge `e` of `node` to those found before keeps
    /// their paths different: the new paths go on with the edge's type, the earlier ones end
    /// at `node` or go on with the type of an earlier edge.
    proof fn lemma_paths_once_append(
        self,
        types: Seq<Requirement>,
        base: int,
        before: Seq<StorageMatch>,
        after: Seq<StorageMatch>,
        found: Seq<Seq<u64>>,
        fc: Seq<Seq<u64>>,
        q: Seq<u64>,
        t: u64,
        e: int,
        node: int,
    )
        requires
            self.wf(),
            0 <= node < self.node_count(),
            0 <= e < self.edges_of(node).len(),
            t == self.edges_of(node)[e].type_id,
            0 <= base <= before.len() <= after.len(),
            after.subrange(0, before.len() as int) == before,
            self.paths_once(types, before.subrange(base, before.len() as int), found),
            self.paths_once(types, after.subrange(before.len() as int, after.len() as int), fc),
            forall|j: int| 0 <= j < found.len() ==> has_prefix(#[trigger] found[j], q),
            forall|j: int| 0 <= j < found.len() && (#[trigger] found[j]).len() > q.len() ==> e > 0
                && found[j][q.len() as int] <= self.edges_of(node)[e - 1].type_id,
            forall|j: int| 0 <= j < fc.len() ==> has_prefix(#[trigger] fc[j], q.push(t)),
        ensures
            self.paths_once(types, after.subrange(base, after.len() as int), found + fc),
            forall|j: int| 0 <= j < (found + fc).len() ==> has_prefix(#[trigger] (found + fc)[j], q),
            forall|j: int| 0 <= j < (found + fc).len() && (#[trigger] (found + fc)[j]).len() > q.len()
                ==> (found + fc)[j][q.len() as int] <= self.edges_of(node)[e].type_id,
    {
        let all = found + fc;
        let ms = after.subrange(base, after.len() as int);
        let n = found.len() as int;
        assert(edges_sorted(self.edges_of(node)));
        assert forall|j: int| 0 <= j < fc.len() implies has_prefix(#[trigger] fc[j], q) && fc[j].len() > q.len()
            && fc[j][q.len() as int] == t by {
            assert(fc[j].subrange(0, q.len() + 1int)[q.len() as int] == q.push(t)[q.len() as int]);
            assert(fc[j].subrange(0, q.len() as int) =~= fc[j].subrange(0, q.len() + 1int).subrange(0, q.len() as int));
            assert(q.push(t).subrange(0, q.len() as int) =~= q);
        }
        assert forall|j: int| 0 <= j < all.len() implies has_prefix(#[trigger] all[j], q) by {
            if j >= n {
                assert(all[j] == fc[j - n]);
            }
        }
        assert forall|j: int| 0 <= j < all.len() && (#[trigger] all[j]).len() > q.len() implies all[j][q.len() as int]
            <= self.edges_of(node)[e].type_id by {
            if j >= n {
                assert(all[j] == fc[j - n]);
            } else {
                assert(all[j] == found[j]);
                if e > 0 {
                    assert(self.edges_of(node)[e - 1].type_id < self.edges_of(node)[e].type_id);
                }
            }
        }
        assert forall|i: int, j: int| 0 <= i < all.len() && 0 <= j < all.len() && i != j implies all[i] != all[j] by {
            if i < n && j < n {
                assert(found[i] != found[j]);
            } else if i >= n && j >= n {
                assert(fc[i - n] != fc[j - n]);
            } else {
                let (a, b) = if i < n { (i, j) } else { (j, i) };
                assert(all[a] == found[a]);
                assert(all[b] == fc[b - n]);
                if found[a].len() > q.len() {
                    assert(e > 0);
                    assert(self.edges_of(node)[e - 1].type_id < self.edges_of(node)[e].type_id);
                    assert(found[a][q.len() as int] != fc[b - n][q.len() as int]);
                } else {
                    assert(found[a].len() != fc[b - n].len());
                }
            }
        }
        assert forall|j: int| 0 <= j < ms.len() implies #[trigger] self.is_match(types, ms[j], all[j]) by {
            if j < n {
                assert(ms[j] == before.subrange(base, before.len() as int)[j]);
                assert(all[j] == found[j]);
            } else {
                assert(ms[j] == after.subrange(before.len() as int, after.len() as int)[j - n]);
                assert(all[j] == fc[j - n]);
            }
        }
    }

    /// `ms` are matches of `types`, one for each of the paths `ps`, which are all different.
    pub open spec fn paths_once(self, types: Seq<Requirement>, ms: Seq<StorageMatch>, ps: Seq<Seq<u64>>) -> bool {
        &&& ps.len() == ms.len()
        &&& ps.no_duplicates()
        &&& forall|j: int| 0 <= j < ms.len() ==> #[trigger] self.is_match(types, ms[j], ps[j])
    }

    /// The storages whose types meet every requirement of `types` (for a `With` requirement
    /// the storage has the type, for a `Without` one it has not), each with the positions
    /// of the `With` types among the storage's types.
    pub fn iterate_matching_storage(&self, types: &[Requirement]) -> (r: Vec<StorageMatch>)
        requires
            self.wf(),
            self.paths_sorted(),
            requirements_sorted(types@),
            no_optional(types@),
            self.node_count() < usize::MAX,
        ensures
            forall|j: int| 0 <= j < r@.len() ==> #[trigger] self.is_found(types@, r@[j]),
            forall|p: Seq<u64>| self@.contains_key(p) && path_matches(p, types@) ==>
                exists|j: int| 0 <= j < r@.len() && #[trigger] self.is_match(types@, r@[j], p),
            exists|ps: Seq<Seq<u64>>| #[trigger] self.paths_once(types@, r@, ps),
    {
        let mut channels: Vec<usize> = Vec::new();
        let mut out: Vec<StorageMatch> = Vec::new();
        proof {
            assert(types@.subrange(0, 0) =~= Seq::<Requirement>::empty());
            assert(with_types(types@.subrange(0, 0)).len() == 0);
            assert(self.walk_from(0, Seq::<u64>::empty()) == Some(0int));
        }
        let found = self.recurse_matching_storage(0, Ghost(Seq::empty()), 0, types, 0, &mut channels, &mut out);
        proof {
            assert(out@.subrange(0, out@.len() as int) =~= out@);
            assert(self.paths_once(types@, out@, found@));
            assert forall|j: int| 0 <= j < out@.len() implies #[trigger] self.is_found(types@, out@[j]) by {
                assert(self.found_below(types@, out@[j], Seq::empty()));
            }
            assert forall|p: Seq<u64>| self@.contains_key(p) && path_matches(p, types@) implies
                exists|j: int| 0 <= j < out@.len() && #[trigger] self.is_match(types@, out@[j], p) by {
                assert(has_prefix(p, Seq::<u64>::empty())) by {
                    assert(p.subrange(0, 0) =~= Seq::<u64>::empty());
                }
            }
        }
        out
    }

    /// The storage graph with only the empty node.
    pub fn new() -> (r: Self)
        ensures
            r.wf(),
            r.paths_sorted(),
            r@ == Map::<Seq<u64>, usize>::empty(),
            r.node_count() == 1,
    {
        let mut nodes: Vec<StorageNode> = Vec::new();
        nodes.push(StorageNode::new());
        let r = StorageGraph { nodes };
        assert(r.edges_of(0).len() == 0);
        assert(r@ =~= Map::<Seq<u64>, usize>::empty()) by {
            assert forall|p: Seq<u64>| !(#[trigger] r.key_storage(p) is Some) by {
                if p.len() > 0 {
                    assert(r.child(0, p[0]) is None);
                }
            }
        }
        r
    }
}

impl View for StorageGraph {
    type V = Map<Seq<u64>, usize>;

    /// The graph as a map from paths to the storage registered for them.
    closed spec fn view(&self) -> Map<Seq<u64>, usize> {
        Map::new(|p: Seq<u64>| self.key_storage(p) is Some, |p: Seq<u64>| self.key_storage(p)->0)
    }
}


/// Whether no requirement of `types` from position `from` on is a `With` requirement.
fn no_with_from(types: &[Requirement], from: usize) -> (r: bool)
    requires
        from <= types@.len(),
    ensures
        r <==> forall|j: int| from <= j < types@.len() ==> (#[trigger] types@[j]).requirement_type != RequirementType::With,
{
    let mut k = from;
    while k < types.len()
        invariant
            from <= k <= types@.len(),
            forall|j: int| from <= j < k ==> (#[trigger] types@[j]).requirement_type != RequirementType::With,
        decreases types@.len() - k,
    {
        if types[k].requirement_type == RequirementType::With {
            return false;
        }
        k = k + 1;
    }
    true
}

/// Passes the requirements from position `from` on whose types lie below `t`: `ok` is
/// false if one of them is a `With` requirement; otherwise they are all passed and `f`
/// is the first requirement whose type is not below `t`.
fn skip_below(types: &[Requirement], from: usize, t: u64) -> (r: (usize, bool))
    requires
        from <= types@.len(),
    ensures
        from <= r.0 <= types@.len(),
        r.1 ==> forall|j: int| from <= j < r.0 ==> (#[trigger] types@[j]).type_id < t
            && types@[j].requirement_type != RequirementType::With,
        r.1 ==> r.0 == types@.len() || types@[r.0 as int].type_id >= t,
        !r.1 ==> r.0 < types@.len() && types@[r.0 as int].type_id < t
            && types@[r.0 as int].requirement_type == RequirementType::With,
{
    let mut f = from;
    while f < types.len() && types[f].type_id < t
        invariant
            from <= f <= types@.len(),
            forall|j: int| from <= j < f ==> (#[trigger] types@[j]).type_id < t
                && types@[j].requirement_type != RequirementType::With,
        decreases types@.len() - f,
    {
        if types[f].requirement_type == RequirementType::With {
            return (f, false);
        }
        f = f + 1;
    }
    (f, true)
}

/// The position of the edge with type `t` in sorted edges (`Ok`), or the position at
/// which such an edge belongs (`Err`).
fn search_edges(edges: &Vec<Edge>, t: u64) -> (r: Result<usize, usize>)
    requires
        edges_sorted(edges@),
    ensures
        r matches Ok(i) ==> i < edges@.len() && edges@[i as int].type_id == t,
        r matches Err(i) ==> {
            &&& i <= edges@.len()
            &&& forall|j: int| 0 <= j < i ==> (#[trigger] edges@[j]).type_id < t
            &&& forall|j: int| i <= j < edges@.len() ==> (#[trigger] edges@[j]).type_id > t
        },
{
    let mut lo: usize = 0;
    let mut hi: usize = edges.len();
    while lo < hi
        invariant
            lo <= hi <= edges@.len(),
            edges_sorted(edges@),
            forall|j: int| 0 <= j < lo ==> (#[trigger] edges@[j]).type_id < t,
            forall|j: int| hi <= j < edges@.len() ==> (#[trigger] edges@[j]).type_id > t,
        decreases hi - lo,
    {
        let mid = lo + (hi - lo) / 2;
        let m = edges[mid].type_id;
        if m == t {
            return Ok(mid);
        } else if m < t {
            assert forall|j: int| 0 <= j < mid + 1 implies (#[trigger] edges@[j]).type_id < t by {
                if j < mid {
                    assert(edges@[j].type_id < edges@[mid as int].type_id);
                }
            }
            lo = mid + 1;
        } else {
            assert forall|j: int| mid <= j < edges@.len() implies (#[trigger] edges@[j]).type_id > t by {
                if j > mid {
                    assert(edges@[mid as int].type_id < edges@[j].type_id);
                }
            }
            hi = mid;
        }
    }
    Err(lo)
}

/// A storage registered with `insert_storage` for the types `ids` is what a later
/// `find_storage` for exactly those types finds, and every other path keeps what it had.
pub proof fn law_insert_then_find(before: StorageGraph, after: StorageGraph, ids: Seq<u64>, storage_index: usize)
    requires
        after@ == before@.insert(ids, storage_index),
    ensures
        after@.contains_key(ids),
        after@[ids] == storage_index,
        forall|p: Seq<u64>| p != ids ==> (#[trigger] after@.contains_key(p) <==> before@.contains_key(p)),
        forall|p: Seq<u64>| p != ids && before@.contains_key(p) ==> #[trigger] after@[p] == before@[p],
{
}

} // verus!
