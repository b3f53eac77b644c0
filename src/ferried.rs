//! The data carried in the `ferried_data` header: a trace graph and attribute
//! observations that wait for their node to appear in it.
use vstd::prelude::*;
use crate::graph::{
    attr_set, first_label_index, get_node_with_id, lemma_first_label_index, lemma_index_of_has_label,
    lemma_index_of_unique, AttrGraph, GraphModel, NodeModel,
};

verus! {

/// An observation: node label, attribute key, attribute value.
pub type TripleModel = (Seq<char>, Seq<char>, Seq<char>);

pub open spec fn triples_view(v: Seq<(String, String, String)>) -> Seq<TripleModel> {
    v.map_values(|t: (String, String, String)| (t.0@, t.1@, t.2@))
}

pub struct FerriedModel {
    pub graph: GraphModel,
    pub props: Seq<TripleModel>,
}

pub struct FerriedData {
    pub trace_graph: AttrGraph,
    pub unassigned_properties: Vec<(String, String, String)>,
}

impl View for FerriedData {
    type V = FerriedModel;

    open spec fn view(&self) -> FerriedModel {
        FerriedModel { graph: self.trace_graph@, props: triples_view(self.unassigned_properties@) }
    }
}

/// Installs each observation whose node is in the graph, in order; returns the new
/// nodes and the observations that are left.
pub open spec fn assign_spec(nodes: Seq<NodeModel>, props: Seq<TripleModel>) -> (
    Seq<NodeModel>,
    Seq<TripleModel>,
)
    decreases props.len(),
{
    if props.len() == 0 {
        (nodes, props)
    } else {
        let (n1, kept) = assign_spec(nodes, props.drop_last());
        let t = props.last();
        match first_label_index(n1, t.0) {
            Some(i) => (n1.update(i, (n1[i].0, attr_set(n1[i].1, t.1, t.2))), kept),
            None => (n1, kept.push(t)),
        }
    }
}

pub open spec fn assign_model(fd: FerriedModel) -> FerriedModel {
    let (n, p) = assign_spec(fd.graph.nodes, fd.props);
    FerriedModel { graph: GraphModel { nodes: n, edges: fd.graph.edges }, props: p }
}

/// No observation waits for a node that the graph already has.
pub open spec fn all_unplaceable(nodes: Seq<NodeModel>, props: Seq<TripleModel>) -> bool {
    forall|j: int| 0 <= j < props.len() ==> first_label_index(nodes, #[trigger] props[j].0) is None
}

pub open spec fn props_unique(p: Seq<TripleModel>) -> bool {
    forall|i: int, j: int| 0 <= i < p.len() && 0 <= j < p.len() && i != j ==> #[trigger] p[i] != #[trigger] p[j]
}

impl FerriedModel {
    /// A well-formed graph, no observation twice, none that could be installed.
    pub open spec fn wf(self) -> bool {
        self.graph.wf() && props_unique(self.props) && all_unplaceable(self.graph.nodes, self.props)
    }
}

pub open spec fn same_labels(a: Seq<NodeModel>, b: Seq<NodeModel>) -> bool {
    a.len() == b.len() && forall|i: int| 0 <= i < a.len() ==> #[trigger] a[i].0 == b[i].0
}

pub proof fn lemma_same_labels_index(a: Seq<NodeModel>, b: Seq<NodeModel>, l: Seq<char>)
    requires
        same_labels(a, b),
    ensures
        first_label_index(a, l) == first_label_index(b, l),
    decreases a.len(),
{
    if a.len() > 0 {
        assert(same_labels(a.drop_last(), b.drop_last()));
        lemma_same_labels_index(a.drop_last(), b.drop_last(), l);
    }
}

pub proof fn lemma_assign_labels(nodes: Seq<NodeModel>, props: Seq<TripleModel>)
    ensures
        same_labels(assign_spec(nodes, props).0, nodes),
        all_unplaceable(assign_spec(nodes, props).0, assign_spec(nodes, props).1),
    decreases props.len(),
{
    if props.len() > 0 {
        lemma_assign_labels(nodes, props.drop_last());
        let (n1, kept) = assign_spec(nodes, props.drop_last());
        let t = props.last();
        lemma_first_label_index(n1, t.0);
        match first_label_index(n1, t.0) {
            Some(i) => {
                let n2 = n1.update(i, (n1[i].0, attr_set(n1[i].1, t.1, t.2)));
                assert(same_labels(n2, n1));
                assert forall|l: Seq<char>| first_label_index(n2, l) == first_label_index(n1, l) by {
                    lemma_same_labels_index(n2, n1, l);
                }
            },
            None => {
                let k2 = kept.push(t);
                assert forall|j: int| 0 <= j < k2.len() implies first_label_index(
                    n1,
                    #[trigger] k2[j].0,
                ) is None by {
                    if j < kept.len() {
                        assert(k2[j] == kept[j]);
                    }
                }
            },
        }
    }
}

/// Observations that cannot be placed leave the data as it is.
pub proof fn lemma_assign_noop(nodes: Seq<NodeModel>, props: Seq<TripleModel>)
    requires
        all_unplaceable(nodes, props),
    ensures
        assign_spec(nodes, props) == (nodes, props),
    decreases props.len(),
{
    if props.len() > 0 {
        let p = props.drop_last();
        assert forall|j: int| 0 <= j < p.len() implies first_label_index(nodes, #[trigger] p[j].0)
            is None by {
            assert(p[j] == props[j]);
        }
        lemma_assign_noop(nodes, p);
        assert(first_label_index(nodes, props[props.len() - 1].0) is None);
        assert(p.push(props.last()) =~= props);
    }
}

/// Assigning properties twice in succession gives the same data as assigning them once.
pub proof fn lemma_assign_properties_idempotent(fd: FerriedModel)
    ensures
        assign_model(assign_model(fd)) == assign_model(fd),
{
    lemma_assign_labels(fd.graph.nodes, fd.props);
    let once = assign_model(fd);
    lemma_assign_noop(once.graph.nodes, once.props);
}

/// What assignment keeps is drawn from the observations given, without repeats.
pub proof fn lemma_assign_kept_unique(nodes: Seq<NodeModel>, props: Seq<TripleModel>)
    requires
        props_unique(props),
    ensures
        props_unique(assign_spec(nodes, props).1),
        forall|j: int|
            0 <= j < assign_spec(nodes, props).1.len() ==> props.contains(
                #[trigger] assign_spec(nodes, props).1[j],
            ),
    decreases props.len(),
{
    if props.len() > 0 {
        let p = props.drop_last();
        assert(props_unique(p)) by {
            assert forall|i: int, j: int| 0 <= i < p.len() && 0 <= j < p.len() && i != j implies #[trigger] p[i]
                != #[trigger] p[j] by {
                assert(p[i] == props[i] && p[j] == props[j]);
            }
        }
        lemma_assign_kept_unique(nodes, p);
        let (n1, kept) = assign_spec(nodes, p);
        assert forall|j: int| 0 <= j < kept.len() implies props.contains(#[trigger] kept[j]) by {
            let k = choose|k: int| 0 <= k < p.len() && p[k] == kept[j];
            assert(props[k] == kept[j]);
        }
        let t = props.last();
        if first_label_index(n1, t.0) is None {
            let k2 = kept.push(t);
            assert(!kept.contains(t)) by {
                if kept.contains(t) {
                    let j = choose|j: int| 0 <= j < kept.len() && kept[j] == t;
                    let k = choose|k: int| 0 <= k < p.len() && p[k] == kept[j];
                    assert(props[k] == props[props.len() - 1]);
                }
            }
            assert forall|a: int, b: int| 0 <= a < k2.len() && 0 <= b < k2.len() && a != b implies #[trigger] k2[a]
                != #[trigger] k2[b] by {
                if a < kept.len() && b < kept.len() {
                } else if a < kept.len() {
                    assert(kept[a] != t);
                } else {
                    assert(kept[b] != t);
                }
            }
            assert forall|j: int| 0 <= j < k2.len() implies props.contains(#[trigger] k2[j]) by {
                if j < kept.len() {
                    assert(k2[j] == kept[j]);
                } else {
                    assert(props[props.len() - 1] == k2[j]);
                }
            }
        }
    }
}

/// Adds, in order, each node of `ns` whose label `g` lacks.
pub open spec fn add_missing_nodes(g: GraphModel, ns: Seq<NodeModel>) -> GraphModel
    decreases ns.len(),
{
    if ns.len() == 0 {
        g
    } else {
        let g1 = add_missing_nodes(g, ns.drop_last());
        if g1.index_of(ns.last().0) is Some {
            g1
        } else {
            GraphModel { nodes: g1.nodes.push(ns.last()), edges: g1.edges }
        }
    }
}

/// Adds, in order, the edges `es` of a graph with nodes `ns`, each resolved by label in `g`.
pub open spec fn add_label_edges(g: GraphModel, ns: Seq<NodeModel>, es: Seq<(usize, usize)>) -> GraphModel
    decreases es.len(),
{
    if es.len() == 0 {
        g
    } else {
        let g1 = add_label_edges(g, ns, es.drop_last());
        let e = es.last();
        match (g1.index_of(ns[e.0 as int].0), g1.index_of(ns[e.1 as int].0)) {
            (Some(a), Some(b)) => if g1.has_edge(a as usize, b as usize) {
                g1
            } else {
                GraphModel { nodes: g1.nodes, edges: g1.edges.push((a as usize, b as usize)) }
            },
            _ => g1,
        }
    }
}

/// Appends, in order, each triple of `q` that is not yet present.
pub open spec fn append_unique(p: Seq<TripleModel>, q: Seq<TripleModel>) -> Seq<TripleModel>
    decreases q.len(),
{
    if q.len() == 0 {
        p
    } else {
        let p1 = append_unique(p, q.drop_last());
        if p1.contains(q.last()) {
            p1
        } else {
            p1.push(q.last())
        }
    }
}

/// Union of nodes (by label), of edges and of observations, then assignment.
pub open spec fn merge_model(a: FerriedModel, b: FerriedModel) -> FerriedModel {
    let g1 = add_missing_nodes(a.graph, b.graph.nodes);
    let g2 = add_label_edges(g1, b.graph.nodes, b.graph.edges);
    assign_model(FerriedModel { graph: g2, props: append_unique(a.props, b.props) })
}

proof fn lemma_add_missing_noop(g: GraphModel, ns: Seq<NodeModel>)
    requires
        forall|i: int| 0 <= i < ns.len() ==> g.has_label(#[trigger] ns[i].0),
    ensures
        add_missing_nodes(g, ns) == g,
    decreases ns.len(),
{
    if ns.len() > 0 {
        let p = ns.drop_last();
        assert forall|i: int| 0 <= i < p.len() implies g.has_label(#[trigger] p[i].0) by {
            assert(p[i] == ns[i]);
        }
        lemma_add_missing_noop(g, p);
        lemma_index_of_has_label(g, ns.last().0);
        assert(g.has_label(ns[ns.len() - 1].0));
    }
}

proof fn lemma_add_edges_noop(g: GraphModel, es: Seq<(usize, usize)>)
    requires
        g.wf(),
        forall|i: int| 0 <= i < es.len() ==> g.edges.contains(#[trigger] es[i]),
    ensures
        add_label_edges(g, g.nodes, es) == g,
    decreases es.len(),
{
    if es.len() > 0 {
        let p = es.drop_last();
        assert forall|i: int| 0 <= i < p.len() implies g.edges.contains(#[trigger] p[i]) by {
            assert(p[i] == es[i]);
        }
        lemma_add_edges_noop(g, p);
        let e = es.last();
        assert(g.edges.contains(es[es.len() - 1]));
        let j = choose|j: int| 0 <= j < g.edges.len() && g.edges[j] == e;
        assert(g.edges[j] == e);
        lemma_index_of_unique(g, e.0 as int);
        lemma_index_of_unique(g, e.1 as int);
    }
}

proof fn lemma_append_unique_noop(p: Seq<TripleModel>, q: Seq<TripleModel>)
    requires
        forall|i: int| 0 <= i < q.len() ==> p.contains(#[trigger] q[i]),
    ensures
        append_unique(p, q) == p,
    decreases q.len(),
{
    if q.len() > 0 {
        let r = q.drop_last();
        assert forall|i: int| 0 <= i < r.len() implies p.contains(#[trigger] r[i]) by {
            assert(r[i] == q[i]);
        }
        lemma_append_unique_noop(p, r);
        assert(p.contains(q[q.len() - 1]));
    }
}

/// Merging well-formed ferried data with itself leaves it unchanged.
pub proof fn lemma_merge_self_noop(fd: FerriedModel)
    requires
        fd.wf(),
    ensures
        merge_model(fd, fd) == fd,
{
    let g = fd.graph;
    assert forall|i: int| 0 <= i < g.nodes.len() implies g.has_label(#[trigger] g.nodes[i].0) by {}
    lemma_add_missing_noop(g, g.nodes);
    assert forall|i: int| 0 <= i < g.edges.len() implies g.edges.contains(#[trigger] g.edges[i]) by {}
    lemma_add_edges_noop(g, g.edges);
    assert forall|i: int| 0 <= i < fd.props.len() implies fd.props.contains(#[trigger] fd.props[i]) by {}
    lemma_append_unique_noop(fd.props, fd.props);
    lemma_assign_noop(g.nodes, fd.props);
}

proof fn lemma_add_missing_has(g: GraphModel, ns: Seq<NodeModel>)
    ensures
        add_missing_nodes(g, ns).edges == g.edges,
        add_missing_nodes(g, ns).nodes.len() >= g.nodes.len(),
        add_missing_nodes(g, ns).nodes.take(g.nodes.len() as int) == g.nodes,
        forall|i: int| 0 <= i < ns.len() ==> add_missing_nodes(g, ns).has_label(#[trigger] ns[i].0),
    decreases ns.len(),
{
    if ns.len() == 0 {
        assert(g.nodes.take(g.nodes.len() as int) =~= g.nodes);
    } else {
        let q = ns.drop_last();
        lemma_add_missing_has(g, q);
        let g1 = add_missing_nodes(g, q);
        let r = add_missing_nodes(g, ns);
        lemma_index_of_has_label(g1, ns.last().0);
        if g1.index_of(ns.last().0) is None {
            assert(r.nodes.take(g.nodes.len() as int) =~= g1.nodes.take(g.nodes.len() as int));
            assert(r.nodes[g1.nodes.len() as int].0 == ns.last().0);
        }
        assert forall|i: int| 0 <= i < ns.len() implies r.has_label(#[trigger] ns[i].0) by {
            if i < q.len() {
                assert(q[i] == ns[i]);
                assert(g1.has_label(q[i].0));
                let j = choose|j: int| 0 <= j < g1.nodes.len() && #[trigger] g1.nodes[j].0 == q[i].0;
                assert(r.nodes[j] == g1.nodes[j]);
            }
        }
    }
}

/// The edges of `es` that resolve in `g` are in the result; nodes stay.
proof fn lemma_add_edges_has(g: GraphModel, ns: Seq<NodeModel>, es: Seq<(usize, usize)>)
    ensures
        add_label_edges(g, ns, es).nodes == g.nodes,
        forall|k: int|
            0 <= k < es.len() ==> match (g.index_of(ns[(#[trigger] es[k]).0 as int].0), g.index_of(ns[es[k].1 as int].0)) {
                (Some(a), Some(b)) => add_label_edges(g, ns, es).has_edge(a as usize, b as usize),
                _ => true,
            },
    decreases es.len(),
{
    if es.len() > 0 {
        let q = es.drop_last();
        lemma_add_edges_has(g, ns, q);
        let g1 = add_label_edges(g, ns, q);
        let r = add_label_edges(g, ns, es);
        assert forall|k: int|
            0 <= k < es.len() implies match (g.index_of(ns[(#[trigger] es[k]).0 as int].0), g.index_of(ns[es[k].1 as int].0)) {
            (Some(a), Some(b)) => r.has_edge(a as usize, b as usize),
            _ => true,
        } by {
            if k < q.len() {
                assert(q[k] == es[k]);
                match (g.index_of(ns[es[k].0 as int].0), g.index_of(ns[es[k].1 as int].0)) {
                    (Some(a), Some(b)) => {
                        assert(g1.has_edge(a as usize, b as usize));
                        let j = choose|j: int| 0 <= j < g1.edges.len() && g1.edges[j] == (a as usize, b as usize);
                        assert(r.edges[j] == g1.edges[j]);
                    },
                    _ => {},
                }
            } else {
                match (g.index_of(ns[es[k].0 as int].0), g.index_of(ns[es[k].1 as int].0)) {
                    (Some(a), Some(b)) => {
                        if !g1.has_edge(a as usize, b as usize) {
                            assert(r.edges[g1.edges.len() as int] == (a as usize, b as usize));
                        }
                    },
                    _ => {},
                }
            }
        }
    }
}

proof fn lemma_add_edges_present(g: GraphModel, ns: Seq<NodeModel>, es: Seq<(usize, usize)>)
    requires
        forall|k: int|
            0 <= k < es.len() ==> match (g.index_of(ns[(#[trigger] es[k]).0 as int].0), g.index_of(ns[es[k].1 as int].0)) {
                (Some(a), Some(b)) => g.has_edge(a as usize, b as usize),
                _ => true,
            },
    ensures
        add_label_edges(g, ns, es) == g,
    decreases es.len(),
{
    if es.len() > 0 {
        let q = es.drop_last();
        assert forall|k: int|
            0 <= k < q.len() implies match (g.index_of(ns[(#[trigger] q[k]).0 as int].0), g.index_of(ns[q[k].1 as int].0)) {
            (Some(a), Some(b)) => g.has_edge(a as usize, b as usize),
            _ => true,
        } by {
            assert(q[k] == es[k]);
        }
        lemma_add_edges_present(g, ns, q);
        assert(es[es.len() - 1] == es.last());
    }
}

proof fn lemma_append_unique_has(p: Seq<TripleModel>, q: Seq<TripleModel>)
    ensures
        forall|i: int| 0 <= i < q.len() ==> append_unique(p, q).contains(#[trigger] q[i]),
    decreases q.len(),
{
    if q.len() > 0 {
        let r = q.drop_last();
        lemma_append_unique_has(p, r);
        let a1 = append_unique(p, r);
        let a2 = append_unique(p, q);
        assert forall|i: int| 0 <= i < q.len() implies a2.contains(#[trigger] q[i]) by {
            if i < r.len() {
                assert(r[i] == q[i]);
                let j = choose|j: int| 0 <= j < a1.len() && a1[j] == r[i];
                assert(a2[j] == a1[j]);
            } else if !a1.contains(q.last()) {
                assert(a2[a1.len() as int] == q.last());
            }
        }
    }
}

proof fn lemma_assign_keeps(nodes: Seq<NodeModel>, props: Seq<TripleModel>, t: TripleModel)
    requires
        props.contains(t),
        first_label_index(nodes, t.0) is None,
    ensures
        assign_spec(nodes, props).1.contains(t),
    decreases props.len(),
{
    let q = props.drop_last();
    lemma_assign_labels(nodes, q);
    let (n1, kept) = assign_spec(nodes, q);
    lemma_same_labels_index(n1, nodes, t.0);
    if props.last() == t {
        assert(assign_spec(nodes, props).1 == kept.push(t));
        assert(kept.push(t)[kept.len() as int] == t);
    } else {
        let j = choose|j: int| 0 <= j < props.len() && props[j] == t;
        assert(j < q.len());
        assert(q[j] == t);
        lemma_assign_keeps(nodes, q, t);
        let k = choose|k: int| 0 <= k < kept.len() && kept[k] == t;
        let last = props.last();
        match first_label_index(n1, last.0) {
            Some(_) => {},
            None => {
                assert(kept.push(last)[k] == t);
            },
        }
    }
}

/// Merging the same data a second time changes nothing, when none of its observations could
/// be placed by the first merge.
pub proof fn lemma_merge_again(a: FerriedModel, c: FerriedModel)
    requires
        a.wf(),
        all_unplaceable(merge_model(a, c).graph.nodes, c.props),
    ensures
        merge_model(merge_model(a, c), c) == merge_model(a, c),
{
    let g1 = add_missing_nodes(a.graph, c.graph.nodes);
    let g2 = add_label_edges(g1, c.graph.nodes, c.graph.edges);
    let p = append_unique(a.props, c.props);
    let r = merge_model(a, c);
    lemma_add_missing_has(a.graph, c.graph.nodes);
    lemma_add_edges_has(g1, c.graph.nodes, c.graph.edges);
    lemma_assign_labels(g2.nodes, p);
    assert(same_labels(r.graph.nodes, g1.nodes));
    assert forall|l: Seq<char>| #[trigger] r.graph.index_of(l) == g1.index_of(l) by {
        lemma_same_labels_index(r.graph.nodes, g1.nodes, l);
    }
    assert forall|i: int| 0 <= i < c.graph.nodes.len() implies r.graph.has_label(#[trigger] c.graph.nodes[i].0) by {
        assert(g1.has_label(c.graph.nodes[i].0));
        let j = choose|j: int| 0 <= j < g1.nodes.len() && #[trigger] g1.nodes[j].0 == c.graph.nodes[i].0;
        assert(r.graph.nodes[j].0 == g1.nodes[j].0);
    }
    lemma_add_missing_noop(r.graph, c.graph.nodes);
    lemma_add_edges_present(r.graph, c.graph.nodes, c.graph.edges);
    lemma_append_unique_has(a.props, c.props);
    assert forall|i: int| 0 <= i < c.props.len() implies r.props.contains(#[trigger] c.props[i]) by {
        assert(first_label_index(r.graph.nodes, c.props[i].0) is None);
        lemma_same_labels_index(r.graph.nodes, g2.nodes, c.props[i].0);
        lemma_assign_keeps(g2.nodes, p, c.props[i]);
    }
    lemma_append_unique_noop(r.props, c.props);
    lemma_assign_noop(r.graph.nodes, r.props);
}

pub fn clone_triples(v: &Vec<(String, String, String)>) -> (r: Vec<(String, String, String)>)
    ensures
        triples_view(r@) == triples_view(v@),
{
    let mut r: Vec<(String, String, String)> = Vec::new();
    let mut i: usize = 0;
    while i < v.len()
        invariant
            i <= v.len(),
            triples_view(r@) == triples_view(v@.take(i as int)),
        decreases v.len() - i,
    {
        let t = (v[i].0.clone(), v[i].1.clone(), v[i].2.clone());
        let ghost before = r@;
        r.push(t);
        assert(triples_view(r@) =~= triples_view(before).push((t.0@, t.1@, t.2@)));
        assert(triples_view(v@.take(i + 1)) =~= triples_view(v@.take(i as int)).push(
            (v@[i as int].0@, v@[i as int].1@, v@[i as int].2@),
        ));
        i += 1;
    }
    assert(v@.take(v.len() as int) =~= v@);
    r
}

/// Whether the triple `t` occurs in `v`.
pub fn contains_triple(v: &Vec<(String, String, String)>, t: &(String, String, String)) -> (r: bool)
    ensures
        r == triples_view(v@).contains((t.0@, t.1@, t.2@)),
{
    let ghost tv = (t.0@, t.1@, t.2@);
    let mut i: usize = 0;
    while i < v.len()
        invariant
            i <= v.len(),
            tv == (t.0@, t.1@, t.2@),
            forall|j: int| 0 <= j < i ==> #[trigger] triples_view(v@)[j] != tv,
        decreases v.len() - i,
    {
        assert(triples_view(v@)[i as int] == (v@[i as int].0@, v@[i as int].1@, v@[i as int].2@));
        if v[i].0 == t.0 && v[i].1 == t.1 && v[i].2 == t.2 {
            assert(triples_view(v@)[i as int] == tv);
            return true;
        }
        i += 1;
    }
    false
}

impl FerriedData {
    pub open spec fn wf(&self) -> bool {
        self@.wf()
    }

    /// Data with an empty graph and no observations.
    pub fn new() -> (r: FerriedData)
        ensures
            r@.graph.nodes.len() == 0,
            r@.graph.edges.len() == 0,
            r@.props.len() == 0,
            r.wf(),
    {
        FerriedData { trace_graph: AttrGraph::new(), unassigned_properties: Vec::new() }
    }

    pub fn duplicate(&self) -> (r: FerriedData)
        ensures
            r@ == self@,
    {
        FerriedData {
            trace_graph: self.trace_graph.duplicate(),
            unassigned_properties: clone_triples(&self.unassigned_properties),
        }
    }

    /// Installs every observation whose node is now in the graph and drops it from the
    /// buffer; the others stay, in order.
    pub fn assign_properties(&mut self)
        ensures
            final(self)@ == assign_model(old(self)@),
            old(self)@.graph.wf() ==> final(self)@.graph.wf(),
            all_unplaceable(final(self)@.graph.nodes, final(self)@.props),
    {
        let ghost nodes0 = self@.graph.nodes;
        let ghost props0 = self@.props;
        let mut kept: Vec<(String, String, String)> = Vec::new();
        let mut i: usize = 0;
        while i < self.unassigned_properties.len()
            invariant
                i <= self.unassigned_properties.len(),
                triples_view(self.unassigned_properties@) == props0,
                self@.graph.edges == old(self)@.graph.edges,
                (self@.graph.nodes, triples_view(kept@)) == assign_spec(nodes0, props0.take(i as int)),
                old(self)@.graph.wf() ==> self@.graph.wf(),
            decreases self.unassigned_properties.len() - i,
        {
            assert(props0.take(i + 1).drop_last() =~= props0.take(i as int));
            let label = self.unassigned_properties[i].0.clone();
            let key = self.unassigned_properties[i].1.clone();
            let value = self.unassigned_properties[i].2.clone();
            match get_node_with_id(&self.trace_graph, &label) {
                Some(ix) => {
                    proof {
                        lemma_first_label_index(self@.graph.nodes, label@);
                    }
                    let ghost before = self@.graph.nodes;
                    self.trace_graph.set_attr(ix, key, value);
                    proof {
                        assert(same_labels(self@.graph.nodes, before));
                        assert forall|a: int, b: int|
                            0 <= a < self@.graph.nodes.len() && 0 <= b < self@.graph.nodes.len()
                                && a != b && old(self)@.graph.wf() implies #[trigger] self@.graph.nodes[a].0
                            != #[trigger] self@.graph.nodes[b].0 by {
                            assert(self@.graph.nodes[a].0 == before[a].0);
                            assert(self@.graph.nodes[b].0 == before[b].0);
                        }
                    }
                },
                None => {
                    let ghost before = kept@;
                    kept.push((label, key, value));
                    assert(triples_view(kept@) =~= triples_view(before).push((label@, key@, value@)));
                },
            }
            i += 1;
        }
        assert(props0.take(i as int) =~= props0);
        self.unassigned_properties = kept;
        proof {
            lemma_assign_labels(nodes0, props0);
        }
    }
    /// Merges `other` into this data: nodes whose label is new, edges resolved by label and
    /// not yet present, observations not yet buffered; then assigns what can be placed.
    pub fn merge_from(&mut self, other: &FerriedData)
        requires
            old(self).wf(),
            other@.graph.edges_in_range(),
            old(self)@.graph.nodes.len() + other@.graph.nodes.len() < usize::MAX,
        ensures
            final(self)@ == merge_model(old(self)@, other@),
            final(self).wf(),
    {
        let ghost a = self@;
        let ghost b = other@;
        let mut i: usize = 0;
        while i < other.trace_graph.nodes.len()
            invariant
                i <= other.trace_graph.nodes.len(),
                b == other@,
                self@.graph == add_missing_nodes(a.graph, b.graph.nodes.take(i as int)),
                self@.props == a.props,
                self@.graph.wf(),
                self@.graph.nodes.len() <= a.graph.nodes.len() + i,
                a.graph.nodes.len() + b.graph.nodes.len() < usize::MAX,
            decreases other.trace_graph.nodes.len() - i,
        {
            assert(b.graph.nodes.take(i + 1).drop_last() =~= b.graph.nodes.take(i as int));
            let node = &other.trace_graph.nodes[i];
            match get_node_with_id(&self.trace_graph, &node.label) {
                Some(_) => {},
                None => {
                    proof {
                        lemma_first_label_index(self@.graph.nodes, node.label@);
                    }
                    let copy = node.duplicate();
                    let ghost before = self@.graph;
                    self.trace_graph.add_node(copy.label, copy.attrs);
                    assert(self@.graph.nodes =~= before.nodes.push(b.graph.nodes[i as int]));
                    assert forall|x: int, y: int|
                        0 <= x < self@.graph.nodes.len() && 0 <= y < self@.graph.nodes.len() && x != y implies
                        #[trigger] self@.graph.nodes[x].0 != #[trigger] self@.graph.nodes[y].0 by {
                        if x < before.nodes.len() && y < before.nodes.len() {
                            assert(self@.graph.nodes[x] == before.nodes[x]);
                            assert(self@.graph.nodes[y] == before.nodes[y]);
                        } else if x < before.nodes.len() {
                            assert(self@.graph.nodes[x] == before.nodes[x]);
                        } else {
                            assert(self@.graph.nodes[y] == before.nodes[y]);
                        }
                    }
                },
            }
            i += 1;
        }
        assert(b.graph.nodes.take(i as int) =~= b.graph.nodes);
        let ghost g1 = self@.graph;
        let mut i: usize = 0;
        while i < other.trace_graph.edges.len()
            invariant
                i <= other.trace_graph.edges.len(),
                b == other@,
                b.graph.edges_in_range(),
                self@.graph == add_label_edges(g1, b.graph.nodes, b.graph.edges.take(i as int)),
                self@.props == a.props,
                self@.graph.wf(),
            decreases other.trace_graph.edges.len() - i,
        {
            assert(b.graph.edges.take(i + 1).drop_last() =~= b.graph.edges.take(i as int));
            let e = other.trace_graph.edges[i];
            assert(b.graph.edges[i as int] == e);
            let from = get_node_with_id(&self.trace_graph, &other.trace_graph.nodes[e.0].label);
            let to = get_node_with_id(&self.trace_graph, &other.trace_graph.nodes[e.1].label);
            match (from, to) {
                (Some(x), Some(y)) => {
                    proof {
                        lemma_index_of_has_label(self@.graph, b.graph.nodes[e.0 as int].0);
                        lemma_index_of_has_label(self@.graph, b.graph.nodes[e.1 as int].0);
                    }
                    let ghost before = self@.graph;
                    self.trace_graph.add_edge(x, y);
                    proof {
                        assert forall|p: int, q: int|
                            0 <= p < self@.graph.edges.len() && 0 <= q < self@.graph.edges.len() && p != q
                                && !before.has_edge(x, y) implies
                            #[trigger] self@.graph.edges[p] != #[trigger] self@.graph.edges[q] by {
                            if p < before.edges.len() && q < before.edges.len() {
                            } else if p < before.edges.len() {
                                assert(before.edges[p] != (x, y));
                            } else {
                                assert(before.edges[q] != (x, y));
                            }
                        }
                    }
                },
                _ => {},
            }
            i += 1;
        }
        assert(b.graph.edges.take(i as int) =~= b.graph.edges);
        let mut i: usize = 0;
        while i < other.unassigned_properties.len()
            invariant
                i <= other.unassigned_properties.len(),
                b == other@,
                self@.graph == add_label_edges(g1, b.graph.nodes, b.graph.edges),
                self@.graph.wf(),
                self@.props == append_unique(a.props, b.props.take(i as int)),
                props_unique(self@.props),
            decreases other.unassigned_properties.len() - i,
        {
            assert(b.props.take(i + 1).drop_last() =~= b.props.take(i as int));
            let t = &other.unassigned_properties[i];
            assert(b.props[i as int] == (t.0@, t.1@, t.2@));
            if !contains_triple(&self.unassigned_properties, t) {
                let ghost before = self@.props;
                self.unassigned_properties.push((t.0.clone(), t.1.clone(), t.2.clone()));
                assert(self@.props =~= before.push((t.0@, t.1@, t.2@)));
                assert forall|p: int, q: int|
                    0 <= p < self@.props.len() && 0 <= q < self@.props.len() && p != q implies
                    #[trigger] self@.props[p] != #[trigger] self@.props[q] by {
                    if p < before.len() && q < before.len() {
                    } else if p < before.len() {
                        assert(before[p] != (t.0@, t.1@, t.2@));
                    } else {
                        assert(before[q] != (t.0@, t.1@, t.2@));
                    }
                }
            }
            i += 1;
        }
        assert(b.props.take(i as int) =~= b.props);
        let ghost pre = self@;
        self.assign_properties();
        proof {
            lemma_assign_kept_unique(pre.graph.nodes, pre.props);
        }
    }
}

} // verus!
