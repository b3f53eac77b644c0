//! Directed graphs whose nodes carry a label and an ordered attribute map.
use vstd::prelude::*;

verus! {

/// Attributes as seen by contracts: an ordered list of key/value pairs.
pub type AttrsModel = Seq<(Seq<char>, Seq<char>)>;

/// A node as seen by contracts: its label and its attributes.
pub type NodeModel = (Seq<char>, AttrsModel);

pub open spec fn attrs_view(v: Seq<(String, String)>) -> AttrsModel {
    v.map_values(|p: (String, String)| (p.0@, p.1@))
}

pub open spec fn nodes_view(v: Seq<GraphNode>) -> Seq<NodeModel> {
    v.map_values(|n: GraphNode| n@)
}

/// Index of the first pair whose key is `k`, if any.
pub open spec fn attr_index(m: AttrsModel, k: Seq<char>) -> Option<int>
    decreases m.len(),
{
    if m.len() == 0 {
        None
    } else {
        match attr_index(m.drop_last(), k) {
            Some(i) => Some(i),
            None => if m.last().0 == k {
                Some(m.len() - 1)
            } else {
                None
            },
        }
    }
}

/// The value stored under `k`, if any.
pub open spec fn attr_get(m: AttrsModel, k: Seq<char>) -> Option<Seq<char>> {
    match attr_index(m, k) {
        Some(i) => Some(m[i].1),
        None => None,
    }
}

/// Sets `k` to `v`: in place when the key is present, appended otherwise.
pub open spec fn attr_set(m: AttrsModel, k: Seq<char>, v: Seq<char>) -> AttrsModel {
    match attr_index(m, k) {
        Some(i) => m.update(i, (k, v)),
        None => m.push((k, v)),
    }
}

/// Every pair of `sub` is present, value-equal, in `sup`.
pub open spec fn attrs_subsume(sup: AttrsModel, sub: AttrsModel) -> bool {
    forall|i: int| 0 <= i < sub.len() ==> #[trigger] attr_get(sup, sub[i].0) == Some(sub[i].1)
}

pub struct GraphNode {
    pub label: String,
    pub attrs: Vec<(String, String)>,
}

impl View for GraphNode {
    type V = NodeModel;

    open spec fn view(&self) -> NodeModel {
        (self.label@, attrs_view(self.attrs@))
    }
}

/// The graph as seen by contracts.
pub struct GraphModel {
    pub nodes: Seq<NodeModel>,
    pub edges: Seq<(usize, usize)>,
}

/// A directed graph; node identity is the insertion index, edges are pairs of indices.
pub struct AttrGraph {
    pub nodes: Vec<GraphNode>,
    pub edges: Vec<(usize, usize)>,
}

impl View for AttrGraph {
    type V = GraphModel;

    open spec fn view(&self) -> GraphModel {
        GraphModel { nodes: nodes_view(self.nodes@), edges: self.edges@ }
    }
}

impl GraphModel {
    pub open spec fn has_label(self, l: Seq<char>) -> bool {
        exists|i: int| 0 <= i < self.nodes.len() && #[trigger] self.nodes[i].0 == l
    }

    pub open spec fn has_edge(self, a: usize, b: usize) -> bool {
        self.edges.contains((a, b))
    }

    pub open spec fn edges_in_range(self) -> bool {
        forall|j: int|
            0 <= j < self.edges.len() ==> (#[trigger] self.edges[j]).0 < self.nodes.len()
                && self.edges[j].1 < self.nodes.len()
    }

    pub open spec fn labels_unique(self) -> bool {
        forall|i: int, j: int|
            0 <= i < self.nodes.len() && 0 <= j < self.nodes.len() && i != j ==> #[trigger] self.nodes[i].0
                != #[trigger] self.nodes[j].0
    }

    pub open spec fn edges_unique(self) -> bool {
        forall|i: int, j: int|
            0 <= i < self.edges.len() && 0 <= j < self.edges.len() && i != j ==> #[trigger] self.edges[i]
                != #[trigger] self.edges[j]
    }

    /// Edge indices in range, labels unique, no edge twice.
    pub open spec fn wf(self) -> bool {
        self.edges_in_range() && self.labels_unique() && self.edges_unique()
    }

    /// Index of the first node labelled `l`, if any.
    pub open spec fn index_of(self, l: Seq<char>) -> Option<int> {
        first_label_index(self.nodes, l)
    }

    /// `v` has no incoming edge.
    pub open spec fn is_root(self, v: int) -> bool {
        forall|j: int| 0 <= j < self.edges.len() ==> (#[trigger] self.edges[j]).1 != v
    }

    /// `v` has no outgoing edge.
    pub open spec fn is_leaf(self, v: int) -> bool {
        forall|j: int| 0 <= j < self.edges.len() ==> (#[trigger] self.edges[j]).0 != v
    }

    /// The targets of the edges leaving `v`, in edge order.
    pub open spec fn children(self, v: usize) -> Seq<usize> {
        children_in(self.edges, v)
    }
}

pub open spec fn first_label_index(nodes: Seq<NodeModel>, l: Seq<char>) -> Option<int>
    decreases nodes.len(),
{
    if nodes.len() == 0 {
        None
    } else {
        match first_label_index(nodes.drop_last(), l) {
            Some(i) => Some(i),
            None => if nodes.last().0 == l {
                Some(nodes.len() - 1)
            } else {
                None
            },
        }
    }
}

pub open spec fn children_in(edges: Seq<(usize, usize)>, v: usize) -> Seq<usize>
    decreases edges.len(),
{
    if edges.len() == 0 {
        Seq::empty()
    } else {
        let rest = children_in(edges.drop_last(), v);
        if edges.last().0 == v {
            rest.push(edges.last().1)
        } else {
            rest
        }
    }
}

/// The nodes among the first `n` that have no incoming edge, in index order.
pub open spec fn roots_upto(g: GraphModel, n: int) -> Seq<usize>
    decreases n,
{
    if n <= 0 {
        Seq::empty()
    } else if g.is_root(n - 1) {
        roots_upto(g, n - 1).push((n - 1) as usize)
    } else {
        roots_upto(g, n - 1)
    }
}

pub proof fn lemma_first_label_index(nodes: Seq<NodeModel>, l: Seq<char>)
    ensures
        match first_label_index(nodes, l) {
            Some(i) => 0 <= i < nodes.len() && nodes[i].0 == l && forall|j: int|
                0 <= j < i ==> #[trigger] nodes[j].0 != l,
            None => forall|j: int| 0 <= j < nodes.len() ==> #[trigger] nodes[j].0 != l,
        },
    decreases nodes.len(),
{
    if nodes.len() > 0 {
        lemma_first_label_index(nodes.drop_last(), l);
        assert(forall|j: int| 0 <= j < nodes.len() - 1 ==> nodes.drop_last()[j] == nodes[j]);
    }
}

pub proof fn lemma_attr_index(m: AttrsModel, k: Seq<char>)
    ensures
        match attr_index(m, k) {
            Some(i) => 0 <= i < m.len() && m[i].0 == k && forall|j: int|
                0 <= j < i ==> #[trigger] m[j].0 != k,
            None => forall|j: int| 0 <= j < m.len() ==> #[trigger] m[j].0 != k,
        },
    decreases m.len(),
{
    if m.len() > 0 {
        lemma_attr_index(m.drop_last(), k);
        assert(forall|j: int| 0 <= j < m.len() - 1 ==> m.drop_last()[j] == m[j]);
    }
}

/// With unique labels, the node at index `i` is the one found for its own label.
pub proof fn lemma_index_of_unique(g: GraphModel, i: int)
    requires
        g.labels_unique(),
        0 <= i < g.nodes.len(),
    ensures
        g.index_of(g.nodes[i].0) == Some(i),
{
    lemma_first_label_index(g.nodes, g.nodes[i].0);
}

pub proof fn lemma_index_of_has_label(g: GraphModel, l: Seq<char>)
    ensures
        g.index_of(l).is_some() == g.has_label(l),
        g.index_of(l) matches Some(i) ==> 0 <= i < g.nodes.len() && g.nodes[i].0 == l,
{
    lemma_first_label_index(g.nodes, l);
}

pub fn clone_attrs(v: &Vec<(String, String)>) -> (r: Vec<(String, String)>)
    ensures
        attrs_view(r@) == attrs_view(v@),
{
    let mut r: Vec<(String, String)> = Vec::new();
    let mut i: usize = 0;
    while i < v.len()
        invariant
            i <= v.len(),
            attrs_view(r@) == attrs_view(v@.take(i as int)),
        decreases v.len() - i,
    {
        let k = v[i].0.clone();
        let val = v[i].1.clone();
        let ghost before = r@;
        r.push((k, val));
        assert(v@.take(i + 1) == v@.take(i as int).push(v@[i as int]));
        assert(attrs_view(r@) =~= attrs_view(before).push((v@[i as int].0@, v@[i as int].1@)));
        assert(attrs_view(v@.take(i + 1)) =~= attrs_view(v@.take(i as int)).push(
            (v@[i as int].0@, v@[i as int].1@),
        ));
        i += 1;
    }
    assert(v@.take(v.len() as int) == v@);
    r
}

pub fn copy_edges(v: &Vec<(usize, usize)>) -> (r: Vec<(usize, usize)>)
    ensures
        r@ == v@,
{
    let mut r: Vec<(usize, usize)> = Vec::new();
    let mut i: usize = 0;
    while i < v.len()
        invariant
            i <= v.len(),
            r@ == v@.take(i as int),
        decreases v.len() - i,
    {
        r.push(v[i]);
        assert(r@ =~= v@.take(i + 1));
        i += 1;
    }
    assert(v@.take(v.len() as int) =~= v@);
    r
}

/// Looks `k` up in an ordered attribute list.
pub fn attrs_lookup(m: &Vec<(String, String)>, k: &String) -> (r: Option<usize>)
    ensures
        r matches Some(i) ==> i < m@.len() && attr_index(attrs_view(m@), k@) == Some(i as int),
        r is None ==> attr_index(attrs_view(m@), k@) is None,
{
    let ghost mv = attrs_view(m@);
    let mut i: usize = 0;
    while i < m.len()
        invariant
            i <= m.len(),
            mv == attrs_view(m@),
            forall|j: int| 0 <= j < i ==> #[trigger] mv[j].0 != k@,
        decreases m.len() - i,
    {
        if m[i].0 == *k {
            assert(mv[i as int].0 == k@);
            proof {
                lemma_attr_index(mv, k@);
            }
            return Some(i);
        }
        i += 1;
    }
    proof {
        lemma_attr_index(mv, k@);
    }
    None
}

/// The value stored under `k`, cloned.
pub fn attrs_value(m: &Vec<(String, String)>, k: &String) -> (r: Option<String>)
    ensures
        r matches Some(s) ==> attr_get(attrs_view(m@), k@) == Some(s@),
        r is None ==> attr_get(attrs_view(m@), k@) is None,
{
    match attrs_lookup(m, k) {
        Some(i) => Some(m[i].1.clone()),
        None => None,
    }
}

/// Sets `k` to `v` in an ordered attribute list.
pub fn attrs_insert(m: &mut Vec<(String, String)>, k: String, v: String)
    ensures
        attrs_view(final(m)@) == attr_set(attrs_view(old(m)@), k@, v@),
{
    match attrs_lookup(m, &k) {
        Some(i) => {
            let ghost kv = k@;
            let ghost vv = v@;
            m.set(i, (k, v));
            assert(attrs_view(m@) =~= attrs_view(old(m)@).update(i as int, (kv, vv)));
        },
        None => {
            m.push((k, v));
            assert(attrs_view(m@) =~= attrs_view(old(m)@).push((k@, v@)));
        },
    }
}

/// True when every pair of `property_set_2` is present, value-equal, in `property_set_1`.
pub fn has_property_subset(
    property_set_1: &Vec<(String, String)>,
    property_set_2: &Vec<(String, String)>,
) -> (r: bool)
    ensures
        r == attrs_subsume(attrs_view(property_set_1@), attrs_view(property_set_2@)),
{
    let ghost sup = attrs_view(property_set_1@);
    let ghost sub = attrs_view(property_set_2@);
    let mut i: usize = 0;
    while i < property_set_2.len()
        invariant
            i <= property_set_2.len(),
            sup == attrs_view(property_set_1@),
            sub == attrs_view(property_set_2@),
            forall|j: int| 0 <= j < i ==> #[trigger] attr_get(sup, sub[j].0) == Some(sub[j].1),
        decreases property_set_2.len() - i,
    {
        match attrs_value(property_set_1, &property_set_2[i].0) {
            Some(s) => {
                if !(s == property_set_2[i].1) {
                    assert(sub[i as int].1 == property_set_2@[i as int].1@);
                    assert(attr_get(sup, sub[i as int].0) != Some(sub[i as int].1));
                    return false;
                }
            },
            None => {
                assert(attr_get(sup, sub[i as int].0) != Some(sub[i as int].1));
                return false;
            },
        }
        i += 1;
    }
    true
}

impl GraphNode {
    pub fn duplicate(&self) -> (r: GraphNode)
        ensures
            r@ == self@,
    {
        GraphNode { label: self.label.clone(), attrs: clone_attrs(&self.attrs) }
    }
}

impl AttrGraph {
    pub open spec fn wf(&self) -> bool {
        self@.wf()
    }

    pub fn new() -> (r: AttrGraph)
        ensures
            r@.nodes.len() == 0,
            r@.edges.len() == 0,
            r.wf(),
    {
        AttrGraph { nodes: Vec::new(), edges: Vec::new() }
    }

    pub fn node_count(&self) -> (r: usize)
        ensures
            r == self@.nodes.len(),
    {
        self.nodes.len()
    }

    pub fn edge_count(&self) -> (r: usize)
        ensures
            r == self@.edges.len(),
    {
        self.edges.len()
    }

    pub fn duplicate(&self) -> (r: AttrGraph)
        ensures
            r@ == self@,
    {
        let mut nodes: Vec<GraphNode> = Vec::new();
        let mut i: usize = 0;
        while i < self.nodes.len()
            invariant
                i <= self.nodes.len(),
                nodes_view(nodes@) == self@.nodes.take(i as int),
            decreases self.nodes.len() - i,
        {
            let n = self.nodes[i].duplicate();
            let ghost before = nodes@;
            nodes.push(n);
            assert(nodes_view(nodes@) =~= nodes_view(before).push(n@));
            assert(self@.nodes.take(i + 1) =~= self@.nodes.take(i as int).push(self@.nodes[i as int]));
            i += 1;
        }
        assert(self@.nodes.take(i as int) =~= self@.nodes);
        let r = AttrGraph { nodes, edges: copy_edges(&self.edges) };
        assert(r@.nodes =~= self@.nodes);
        assert(r@.edges =~= self@.edges);
        r
    }

    /// Appends a node and returns its index.
    pub fn add_node(&mut self, label: String, attrs: Vec<(String, String)>) -> (r: usize)
        requires
            old(self)@.nodes.len() < usize::MAX,
        ensures
            r == old(self)@.nodes.len(),
            final(self)@.nodes == old(self)@.nodes.push((label@, attrs_view(attrs@))),
            final(self)@.edges == old(self)@.edges,
    {
        let r = self.nodes.len();
        self.nodes.push(GraphNode { label, attrs });
        assert(self@.nodes =~= old(self)@.nodes.push((label@, attrs_view(attrs@))));
        r
    }

    /// Adds the edge `a -> b` unless it is already there.
    pub fn add_edge(&mut self, a: usize, b: usize)
        requires
            a < old(self)@.nodes.len(),
            b < old(self)@.nodes.len(),
        ensures
            final(self)@.nodes == old(self)@.nodes,
            final(self)@.edges == if old(self)@.has_edge(a, b) {
                old(self)@.edges
            } else {
                old(self)@.edges.push((a, b))
            },
    {
        let mut i: usize = 0;
        while i < self.edges.len()
            invariant
                i <= self.edges.len(),
                self@ == old(self)@,
                forall|j: int| 0 <= j < i ==> self.edges@[j] != (a, b),
            decreases self.edges.len() - i,
        {
            if self.edges[i].0 == a && self.edges[i].1 == b {
                assert(self.edges@[i as int] == (a, b));
                return;
            }
            i += 1;
        }
        self.edges.push((a, b));
        assert(self@.nodes =~= old(self)@.nodes);
    }

    /// Sets attribute `k` of node `v` to `val`.
    pub fn set_attr(&mut self, v: usize, k: String, val: String)
        requires
            v < old(self)@.nodes.len(),
        ensures
            final(self)@.edges == old(self)@.edges,
            final(self)@.nodes == old(self)@.nodes.update(
                v as int,
                (old(self)@.nodes[v as int].0, attr_set(old(self)@.nodes[v as int].1, k@, val@)),
            ),
    {
        let mut node = self.nodes.remove(v);
        attrs_insert(&mut node.attrs, k, val);
        self.nodes.insert(v, node);
        assert(self@.nodes =~= old(self)@.nodes.update(
            v as int,
            (old(self)@.nodes[v as int].0, attr_set(old(self)@.nodes[v as int].1, k@, val@)),
        ));
    }

    /// The targets of the edges leaving `v`, in edge order.
    pub fn children(&self, v: usize) -> (r: Vec<usize>)
        ensures
            r@ == self@.children(v),
    {
        let mut r: Vec<usize> = Vec::new();
        let mut i: usize = 0;
        while i < self.edges.len()
            invariant
                i <= self.edges.len(),
                r@ == children_in(self.edges@.take(i as int), v),
            decreases self.edges.len() - i,
        {
            assert(self.edges@.take(i + 1).drop_last() =~= self.edges@.take(i as int));
            if self.edges[i].0 == v {
                r.push(self.edges[i].1);
            }
            i += 1;
        }
        assert(self.edges@.take(self.edges.len() as int) =~= self.edges@);
        r
    }

    /// The nodes with no incoming edge, in index order.
    pub fn roots(&self) -> (r: Vec<usize>)
        ensures
            r@ == roots_upto(self@, self@.nodes.len() as int),
    {
        let mut r: Vec<usize> = Vec::new();
        let mut v: usize = 0;
        while v < self.nodes.len()
            invariant
                v <= self.nodes.len(),
                r@ == roots_upto(self@, v as int),
            decreases self.nodes.len() - v,
        {
            let mut root = true;
            let mut j: usize = 0;
            while j < self.edges.len()
                invariant
                    j <= self.edges.len(),
                    root == forall|k: int| 0 <= k < j ==> (#[trigger] self.edges@[k]).1 != v,
                decreases self.edges.len() - j,
            {
                if self.edges[j].1 == v {
                    root = false;
                }
                j += 1;
            }
            if root {
                r.push(v);
            }
            v += 1;
        }
        r
    }
}

/// Index of the first node labelled `node_name`, if any.
pub fn get_node_with_id(graph: &AttrGraph, node_name: &String) -> (r: Option<usize>)
    ensures
        r matches Some(i) ==> graph@.index_of(node_name@) == Some(i as int),
        r is None ==> graph@.index_of(node_name@) is None,
{
    let ghost nodes = graph@.nodes;
    let mut i: usize = 0;
    while i < graph.nodes.len()
        invariant
            i <= graph.nodes.len(),
            nodes == graph@.nodes,
            forall|j: int| 0 <= j < i ==> #[trigger] nodes[j].0 != node_name@,
        decreases graph.nodes.len() - i,
    {
        if graph.nodes[i].label == *node_name {
            assert(nodes[i as int].0 == node_name@);
            proof {
                lemma_first_label_index(nodes, node_name@);
            }
            return Some(i);
        }
        i += 1;
    }
    proof {
        lemma_first_label_index(nodes, node_name@);
    }
    None
}

/// Children lie below `n` when every edge target does.
pub proof fn lemma_children_in_range(edges: Seq<(usize, usize)>, v: usize, n: nat)
    requires
        forall|j: int| 0 <= j < edges.len() ==> (#[trigger] edges[j]).1 < n,
    ensures
        forall|i: int| 0 <= i < children_in(edges, v).len() ==> #[trigger] children_in(edges, v)[i] < n,
    decreases edges.len(),
{
    if edges.len() > 0 {
        let p = edges.drop_last();
        assert forall|j: int| 0 <= j < p.len() implies (#[trigger] p[j]).1 < n by {
            assert(p[j] == edges[j]);
        }
        lemma_children_in_range(p, v, n);
        assert(edges[edges.len() - 1].1 < n);
        let rest = children_in(p, v);
        let c = children_in(edges, v);
        assert forall|i: int| 0 <= i < c.len() implies #[trigger] c[i] < n by {
            if i < rest.len() {
                assert(c[i] == rest[i]);
            }
        }
    }
}

proof fn lemma_same_keys_index(a: AttrsModel, b: AttrsModel, k: Seq<char>)
    requires
        a.len() == b.len(),
        forall|j: int| 0 <= j < a.len() ==> #[trigger] a[j].0 == b[j].0,
    ensures
        attr_index(a, k) == attr_index(b, k),
    decreases a.len(),
{
    if a.len() > 0 {
        lemma_same_keys_index(a.drop_last(), b.drop_last(), k);
    }
}

/// Reading a key after setting one.
pub proof fn lemma_attr_set_get(m: AttrsModel, k: Seq<char>, v: Seq<char>, k2: Seq<char>)
    ensures
        attr_get(attr_set(m, k, v), k2) == if k2 == k {
            Some(v)
        } else {
            attr_get(m, k2)
        },
{
    lemma_attr_index(m, k);
    let m2 = attr_set(m, k, v);
    match attr_index(m, k) {
        Some(i) => {
            assert(m2 == m.update(i, (k, v)));
            lemma_same_keys_index(m2, m, k2);
            lemma_attr_index(m, k2);
            match attr_index(m, k2) {
                Some(j) => {
                    if j == i {
                        assert(k2 == k);
                    } else {
                        assert(m2[j] == m[j]);
                    }
                },
                None => {},
            }
        },
        None => {
            assert(m2 == m.push((k, v)));
            assert(m2.drop_last() =~= m);
            assert(m2.last() == (k, v));
            assert(attr_index(m2, k2) == match attr_index(m, k2) {
                Some(j) => Some(j),
                None => if k == k2 {
                    Some(m.len() as int)
                } else {
                    None
                },
            });
            lemma_attr_index(m, k2);
            match attr_index(m, k2) {
                Some(j) => {
                    assert(m2[j] == m[j]);
                },
                None => {},
            }
        },
    }
}

/// The first node without incoming edges, if any.
pub fn find_root(graph: &AttrGraph) -> (r: Option<usize>)
    ensures
        r matches Some(v) ==> v < graph@.nodes.len() && graph@.is_root(v as int) && forall|u: int|
            0 <= u < v ==> !#[trigger] graph@.is_root(u),
        r is None ==> forall|u: int| 0 <= u < graph@.nodes.len() ==> !#[trigger] graph@.is_root(u),
{
    let mut v: usize = 0;
    while v < graph.nodes.len()
        invariant
            v <= graph@.nodes.len(),
            forall|u: int| 0 <= u < v ==> !#[trigger] graph@.is_root(u),
        decreases graph@.nodes.len() - v,
    {
        let mut root = true;
        let mut j: usize = 0;
        while j < graph.edges.len()
            invariant
                j <= graph.edges@.len(),
                root == forall|k: int| 0 <= k < j ==> (#[trigger] graph.edges@[k]).1 != v,
            decreases graph.edges@.len() - j,
        {
            if graph.edges[j].1 == v {
                root = false;
            }
            j += 1;
        }
        assert(graph@.edges == graph.edges@);
        assert(root == graph@.is_root(v as int));
        if root {
            return Some(v);
        }
        v += 1;
    }
    None
}

/// The nodes without outgoing edges, in index order.
pub fn find_leaves(graph: &AttrGraph) -> (r: Vec<usize>)
    ensures
        forall|i: int| 0 <= i < r@.len() ==> #[trigger] r@[i] < graph@.nodes.len() && graph@.is_leaf(r@[i] as int),
        forall|u: int| 0 <= u < graph@.nodes.len() && #[trigger] graph@.is_leaf(u) ==> r@.contains(u as usize),
        forall|i: int, j: int| 0 <= i < j < r@.len() ==> #[trigger] r@[i] < #[trigger] r@[j],
{
    let mut r: Vec<usize> = Vec::new();
    let mut v: usize = 0;
    while v < graph.nodes.len()
        invariant
            v <= graph@.nodes.len(),
            forall|i: int| 0 <= i < r@.len() ==> #[trigger] r@[i] < v && graph@.is_leaf(r@[i] as int),
            forall|u: int| 0 <= u < v && #[trigger] graph@.is_leaf(u) ==> r@.contains(u as usize),
            forall|i: int, j: int| 0 <= i < j < r@.len() ==> #[trigger] r@[i] < #[trigger] r@[j],
        decreases graph@.nodes.len() - v,
    {
        let mut leaf = true;
        let mut j: usize = 0;
        while j < graph.edges.len()
            invariant
                j <= graph.edges@.len(),
                leaf == forall|k: int| 0 <= k < j ==> (#[trigger] graph.edges@[k]).0 != v,
            decreases graph.edges@.len() - j,
        {
            if graph.edges[j].0 == v {
                leaf = false;
            }
            j += 1;
        }
        assert(graph@.edges == graph.edges@);
        assert(leaf == graph@.is_leaf(v as int));
        if leaf {
            let ghost before = r@;
            r.push(v);
            assert(r@[r@.len() - 1] == v);
            assert forall|u: int| 0 <= u < v + 1 && #[trigger] graph@.is_leaf(u) implies r@.contains(u as usize) by {
                if u < v {
                    let k = choose|k: int| 0 <= k < before.len() && before[k] == u as usize;
                    assert(r@[k] == u as usize);
                }
            }
        }
        v += 1;
    }
    r
}

/// The number of children of `root`, or of the first root when none is given; `None` when
/// there is no such node.
pub fn get_out_degree(graph: &AttrGraph, root: Option<usize>) -> (r: Option<usize>)
    ensures
        root matches Some(v) ==> (v < graph@.nodes.len() ==> r == Some(graph@.children(v).len() as usize))
            && (v >= graph@.nodes.len() ==> r is None),
{
    let start = match root {
        Some(v) => v,
        None => match find_root(graph) {
            Some(v) => v,
            None => {
                return None;
            },
        },
    };
    if start >= graph.nodes.len() {
        return None;
    }
    Some(graph.children(start).len())
}

/// A graph with the given vertices, in order, each with the attributes that
/// `ids_to_properties` first lists for it (none if absent), and the given edges between the
/// first vertices of those names, each once.
pub fn generate_target_graph(
    vertices: &Vec<String>,
    edges: &Vec<(String, String)>,
    ids_to_properties: &Vec<(String, Vec<(String, String)>)>,
) -> (r: Option<AttrGraph>)
    ensures
        r matches Some(g) ==> g@.nodes.len() == vertices@.len() && g@.edges_in_range() && g@.edges_unique()
            && forall|i: int| 0 <= i < vertices@.len() ==> (#[trigger] g@.nodes[i]).0 == vertices@[i]@,
        r is None ==> exists|k: int|
            0 <= k < edges@.len() && (!(#[trigger] label_listed(vertices@, edges@[k].0@)) || !label_listed(
                vertices@,
                edges@[k].1@,
            )),
{
    let mut g = AttrGraph::new();
    let mut i: usize = 0;
    while i < vertices.len()
        invariant
            i <= vertices@.len(),
            g@.nodes.len() == i,
            g@.edges.len() == 0,
            forall|x: int| 0 <= x < i ==> (#[trigger] g@.nodes[x]).0 == vertices@[x]@,
        decreases vertices@.len() - i,
    {
        let mut attrs: Vec<(String, String)> = Vec::new();
        let mut p: usize = 0;
        while p < ids_to_properties.len()
            invariant
                p <= ids_to_properties@.len(),
                i < vertices@.len(),
            decreases ids_to_properties@.len() - p,
        {
            if ids_to_properties[p].0 == vertices[i] {
                attrs = clone_attrs(&ids_to_properties[p].1);
                break;
            }
            p += 1;
        }
        g.add_node(vertices[i].clone(), attrs);
        i += 1;
    }
    let mut k: usize = 0;
    while k < edges.len()
        invariant
            k <= edges@.len(),
            g@.nodes.len() == vertices@.len(),
            g@.edges_in_range(),
            g@.edges_unique(),
            forall|x: int| 0 <= x < vertices@.len() ==> (#[trigger] g@.nodes[x]).0 == vertices@[x]@,
        decreases edges@.len() - k,
    {
        let a = get_node_with_id(&g, &edges[k].0);
        let b = get_node_with_id(&g, &edges[k].1);
        proof {
            lemma_index_of_has_label(g@, edges@[k as int].0@);
            lemma_index_of_has_label(g@, edges@[k as int].1@);
            lemma_listed(vertices@, g@, edges@[k as int].0@);
            lemma_listed(vertices@, g@, edges@[k as int].1@);
        }
        match (a, b) {
            (Some(x), Some(y)) => {
                let ghost before = g@;
                g.add_edge(x, y);
                assert forall|p: int, q: int|
                    0 <= p < g@.edges.len() && 0 <= q < g@.edges.len() && p != q implies #[trigger] g@.edges[p]
                        != #[trigger] g@.edges[q] by {
                    if p < before.edges.len() && q < before.edges.len() {
                    } else if p < before.edges.len() {
                        assert(before.edges[p] != (x, y));
                    } else if q < before.edges.len() {
                        assert(before.edges[q] != (x, y));
                    }
                }
            },
            _ => {
                return None;
            },
        }
        k += 1;
    }
    Some(g)
}

/// Some vertex is named `l`.
pub open spec fn label_listed(vertices: Seq<String>, l: Seq<char>) -> bool {
    exists|i: int| 0 <= i < vertices.len() && #[trigger] vertices[i]@ == l
}

proof fn lemma_listed(vertices: Seq<String>, g: GraphModel, l: Seq<char>)
    requires
        g.nodes.len() == vertices.len(),
        forall|x: int| 0 <= x < vertices.len() ==> (#[trigger] g.nodes[x]).0 == vertices[x]@,
    ensures
        g.has_label(l) == label_listed(vertices, l),
{
    if g.has_label(l) {
        let i = choose|i: int| 0 <= i < g.nodes.len() && #[trigger] g.nodes[i].0 == l;
        assert(vertices[i]@ == l);
    }
    if label_listed(vertices, l) {
        let i = choose|i: int| 0 <= i < vertices.len() && #[trigger] vertices[i]@ == l;
        assert(g.nodes[i].0 == l);
    }
}

/// No key occurs twice.
pub open spec fn keys_unique(m: AttrsModel) -> bool {
    forall|i: int, j: int| 0 <= i < m.len() && 0 <= j < m.len() && i != j ==> #[trigger] m[i].0 != #[trigger] m[j].0
}

/// Setting a key keeps keys unique.
pub proof fn lemma_attr_set_unique(m: AttrsModel, k: Seq<char>, v: Seq<char>)
    requires
        keys_unique(m),
    ensures
        keys_unique(attr_set(m, k, v)),
{
    lemma_attr_index(m, k);
    let m2 = attr_set(m, k, v);
    match attr_index(m, k) {
        Some(i) => {
            assert forall|a: int, b: int| 0 <= a < m2.len() && 0 <= b < m2.len() && a != b implies #[trigger] m2[a].0
                != #[trigger] m2[b].0 by {
                assert(m2[a].0 == m[a].0 && m2[b].0 == m[b].0);
            }
        },
        None => {
            assert forall|a: int, b: int| 0 <= a < m2.len() && 0 <= b < m2.len() && a != b implies #[trigger] m2[a].0
                != #[trigger] m2[b].0 by {
                if a < m.len() && b < m.len() {
                    assert(m2[a] == m[a] && m2[b] == m[b]);
                } else if a < m.len() {
                    assert(m2[a] == m[a]);
                } else {
                    assert(m2[b] == m[b]);
                }
            }
        },
    }
}

} // verus!
