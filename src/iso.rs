//! Rooted subtree matching of a pattern graph against a trace graph.
use vstd::prelude::*;
use crate::graph::{attrs_subsume, has_property_subset, lemma_children_in_range, AttrGraph, GraphModel};

verus! {

/// Marks an unmatched slot.
pub const NO_MATCH: usize = usize::MAX;

#[derive(PartialEq, Eq, Structural, Clone, Copy, Debug)]
pub enum MatchError {
    /// The pattern does not have exactly one node without incoming edges.
    MalformedPattern,
    /// The trace is not empty and does not have exactly one node without incoming edges.
    MalformedTrace,
}

/// A pattern label matches a trace label when equal, or when it is the wildcard `*`.
pub open spec fn label_matches(p: Seq<char>, t: Seq<char>) -> bool {
    p == "*"@ || p == t
}

/// Pattern node `u` may stand for trace node `v`: label compatible and attributes subsumed.
pub open spec fn compatible(h: GraphModel, u: int, g: GraphModel, v: int) -> bool {
    label_matches(h.nodes[u].0, g.nodes[v].0) && attrs_subsume(g.nodes[v].1, h.nodes[u].1)
}

/// `m` lists, for each pattern node in index order, the trace node it stands for: compatible
/// pairs, distinct images, every pattern edge carried onto a trace edge, roots onto roots.
pub open spec fn is_embedding(g: GraphModel, h: GraphModel, m: Seq<(usize, usize)>) -> bool {
    &&& m.len() == h.nodes.len()
    &&& forall|i: int|
        0 <= i < m.len() ==> (#[trigger] m[i]).0 == i && m[i].1 < g.nodes.len() && compatible(
            h,
            i,
            g,
            m[i].1 as int,
        )
    &&& forall|i: int, j: int| 0 <= i < m.len() && 0 <= j < m.len() && i != j ==> (#[trigger] m[i]).1 != (#[trigger] m[j]).1
    &&& forall|k: int|
        0 <= k < h.edges.len() ==> g.has_edge(
            m[(#[trigger] h.edges[k]).0 as int].1,
            m[h.edges[k].1 as int].1,
        )
    &&& forall|u: int| 0 <= u < m.len() && #[trigger] h.is_root(u) ==> g.is_root(m[u].1 as int)
}

/// A trace of at most one node holds no embedding of a pattern of two or more nodes: the
/// images of two pattern nodes would coincide.
pub proof fn lemma_single_node_trace_no_embedding(g: GraphModel, h: GraphModel, m: Seq<(usize, usize)>)
    requires
        g.nodes.len() <= 1,
        h.nodes.len() >= 2,
    ensures
        !is_embedding(g, h, m),
{
    if is_embedding(g, h, m) {
        assert(m[0].1 < g.nodes.len() && m[1].1 < g.nodes.len());
        assert(m[0].1 != m[1].1);
    }
}

pub open spec fn root_count(g: GraphModel) -> nat {
    crate::graph::roots_upto(g, g.nodes.len() as int).len()
}

proof fn lemma_roots_upto_range(g: GraphModel, n: int)
    requires
        0 <= n <= usize::MAX,
    ensures
        forall|i: int| 0 <= i < roots_len(g, n) ==> #[trigger] crate::graph::roots_upto(g, n)[i] < n,
        forall|i: int|
            0 <= i < roots_len(g, n) ==> g.is_root(#[trigger] crate::graph::roots_upto(g, n)[i] as int),
    decreases n,
{
    if n > 0 {
        lemma_roots_upto_range(g, n - 1);
        let rest = crate::graph::roots_upto(g, n - 1);
        let c = crate::graph::roots_upto(g, n);
        assert forall|i: int| 0 <= i < c.len() implies #[trigger] c[i] < n && g.is_root(c[i] as int) by {
            if i < rest.len() {
                assert(c[i] == rest[i]);
            }
        }
    }
}

pub open spec fn roots_len(g: GraphModel, n: int) -> int {
    crate::graph::roots_upto(g, n).len() as int
}

fn label_ok(p: &String, t: &String) -> (r: bool)
    ensures
        r == label_matches(p@, t@),
{
    let star = "*".to_owned();
    *p == star || *p == *t
}

fn is_compatible(h: &AttrGraph, u: usize, g: &AttrGraph, v: usize) -> (r: bool)
    requires
        u < h@.nodes.len(),
        v < g@.nodes.len(),
    ensures
        r == compatible(h@, u as int, g@, v as int),
{
    label_ok(&h.nodes[u].label, &g.nodes[v].label) && has_property_subset(
        &g.nodes[v].attrs,
        &h.nodes[u].attrs,
    )
}

/// Children of every node, with each index below the node count.
fn all_children(g: &AttrGraph) -> (r: Vec<Vec<usize>>)
    requires
        g@.edges_in_range(),
    ensures
        r@.len() == g@.nodes.len(),
        forall|v: int, i: int|
            0 <= v < r@.len() && 0 <= i < r@[v]@.len() ==> #[trigger] r@[v]@[i] < g@.nodes.len(),
        forall|v: int| 0 <= v < r@.len() ==> (#[trigger] r@[v])@ == g@.children(v as usize),
{
    let mut r: Vec<Vec<usize>> = Vec::new();
    let mut v: usize = 0;
    proof {
        assert forall|j: int| 0 <= j < g@.edges.len() implies (#[trigger] g@.edges[j]).1 < g@.nodes.len() by {}
    }
    while v < g.nodes.len()
        invariant
            v <= g.nodes.len(),
            r@.len() == v,
            forall|j: int| 0 <= j < g@.edges.len() ==> (#[trigger] g@.edges[j]).1 < g@.nodes.len(),
            forall|w: int, i: int|
                0 <= w < r@.len() && 0 <= i < r@[w]@.len() ==> #[trigger] r@[w]@[i] < g@.nodes.len(),
            forall|w: int| 0 <= w < r@.len() ==> (#[trigger] r@[w])@ == g@.children(w as usize),
        decreases g.nodes.len() - v,
    {
        let c = g.children(v);
        proof {
            lemma_children_in_range(g@.edges, v, g@.nodes.len());
        }
        r.push(c);
        v += 1;
    }
    r
}

/// Tries to extend the matching from left node `i` along an augmenting path.
fn augment(
    adj: &Vec<Vec<bool>>,
    i: usize,
    visited: &mut Vec<bool>,
    match_right: &mut Vec<usize>,
    fuel: usize,
) -> (found: bool)
    requires
        i < adj@.len(),
        forall|a: int| 0 <= a < adj@.len() ==> (#[trigger] adj@[a])@.len() == old(visited)@.len(),
        old(match_right)@.len() == old(visited)@.len(),
        forall|j: int|
            0 <= j < old(match_right)@.len() ==> #[trigger] old(match_right)@[j] == NO_MATCH
                || old(match_right)@[j] < adj@.len(),
        forall|x: int| 0 <= x < old(match_right)@.len() && #[trigger] old(match_right)@[x] != NO_MATCH ==> adj@[old(match_right)@[x] as int]@[x],
    ensures
        final(visited)@.len() == old(visited)@.len(),
        final(match_right)@.len() == old(match_right)@.len(),
        forall|j: int|
            0 <= j < final(match_right)@.len() ==> #[trigger] final(match_right)@[j] == NO_MATCH
                || final(match_right)@[j] < adj@.len(),
        forall|x: int| 0 <= x < final(match_right)@.len() && #[trigger] final(match_right)@[x] != NO_MATCH ==> adj@[final(match_right)@[x] as int]@[x],
    decreases fuel,
{
    if fuel == 0 {
        return false;
    }
    let k = visited.len();
    let mut j: usize = 0;
    while j < k
        invariant
            j <= k,
            k == visited@.len(),
            i < adj@.len(),
            forall|a: int| 0 <= a < adj@.len() ==> (#[trigger] adj@[a])@.len() == k,
            match_right@.len() == k,
            old(match_right)@.len() == k,
            fuel > 0,
            visited@.len() == old(visited)@.len(),
            forall|x: int| 0 <= x < k ==> #[trigger] match_right@[x] == NO_MATCH || match_right@[x] < adj@.len(),
            forall|x: int| 0 <= x < match_right@.len() && #[trigger] match_right@[x] != NO_MATCH ==> adj@[match_right@[x] as int]@[x],
        decreases k - j,
    {
        if adj[i][j] && !visited[j] {
            visited.set(j, true);
            let holder = match_right[j];
            let free = holder == NO_MATCH;
            if free || augment(adj, holder, visited, match_right, fuel - 1) {
                match_right.set(j, i);
                return true;
            }
        }
        j += 1;
    }
    false
}

/// A maximum matching of the bipartite graph `adj` (left rows, right columns): for each left
/// node the right node it is matched to, or `NO_MATCH`.
pub fn max_matching(adj: &Vec<Vec<bool>>, k: usize) -> (r: Vec<usize>)
    requires
        forall|a: int| 0 <= a < adj@.len() ==> (#[trigger] adj@[a])@.len() == k,
    ensures
        r@.len() == adj@.len(),
        forall|i: int| 0 <= i < r@.len() ==> #[trigger] r@[i] == NO_MATCH || r@[i] < k,
        forall|i: int| 0 <= i < r@.len() && #[trigger] r@[i] != NO_MATCH ==> adj@[i]@[r@[i] as int],
        forall|i1: int, i2: int|
            0 <= i1 < r@.len() && 0 <= i2 < r@.len() && i1 != i2 && #[trigger] r@[i1] != NO_MATCH ==> r@[i1]
                != #[trigger] r@[i2],
{
    let mut match_right: Vec<usize> = Vec::new();
    let mut j: usize = 0;
    while j < k
        invariant
            j <= k,
            match_right@.len() == j,
            forall|x: int| 0 <= x < j ==> #[trigger] match_right@[x] == NO_MATCH,
        decreases k - j,
    {
        match_right.push(NO_MATCH);
        j += 1;
    }
    let mut i: usize = 0;
    while i < adj.len()
        invariant
            i <= adj@.len(),
            match_right@.len() == k,
            forall|a: int| 0 <= a < adj@.len() ==> (#[trigger] adj@[a])@.len() == k,
            forall|x: int| 0 <= x < k ==> #[trigger] match_right@[x] == NO_MATCH || match_right@[x] < adj@.len(),
            forall|x: int| 0 <= x < match_right@.len() && #[trigger] match_right@[x] != NO_MATCH ==> adj@[match_right@[x] as int]@[x],
        decreases adj@.len() - i,
    {
        let mut visited: Vec<bool> = Vec::new();
        let mut j: usize = 0;
        while j < k
            invariant
                j <= k,
                visited@.len() == j,
            decreases k - j,
        {
            visited.push(false);
            j += 1;
        }
        let fuel = if k < usize::MAX { k + 1 } else { k };
        augment(adj, i, &mut visited, &mut match_right, fuel);
        i += 1;
    }
    let mut r: Vec<usize> = Vec::new();
    let mut i: usize = 0;
    while i < adj.len()
        invariant
            i <= adj@.len(),
            r@.len() == i,
            forall|x: int| 0 <= x < i ==> #[trigger] r@[x] == NO_MATCH,
        decreases adj@.len() - i,
    {
        r.push(NO_MATCH);
        i += 1;
    }
    let mut j: usize = 0;
    while j < k
        invariant
            j <= k,
            r@.len() == adj@.len(),
            match_right@.len() == k,
            forall|x: int| 0 <= x < k ==> #[trigger] match_right@[x] == NO_MATCH || match_right@[x] < adj@.len(),
            forall|x: int| 0 <= x < r@.len() ==> #[trigger] r@[x] == NO_MATCH || r@[x] < k,
            forall|x: int| 0 <= x < match_right@.len() && #[trigger] match_right@[x] != NO_MATCH ==> adj@[match_right@[x] as int]@[x],
            forall|x: int| 0 <= x < r@.len() && #[trigger] r@[x] != NO_MATCH ==> r@[x] < j && match_right@[r@[x] as int] == x,
            forall|a: int| 0 <= a < adj@.len() ==> (#[trigger] adj@[a])@.len() == k,
        decreases k - j,
    {
        let holder = match_right[j];
        if holder != NO_MATCH {
            r.set(holder, j);
        }
        j += 1;
    }
    r
}

/// The bipartite graph between the children of `u` (rows) and of `v` (columns) whose edges
/// are the pairs that `table` admits.
fn child_graph(table: &Vec<Vec<bool>>, hc: &Vec<usize>, gc: &Vec<usize>, nh: usize) -> (r: Vec<Vec<bool>>)
    requires
        forall|x: int| 0 <= x < hc@.len() ==> #[trigger] hc@[x] < nh,
        forall|x: int| 0 <= x < gc@.len() ==> #[trigger] gc@[x] < table@.len(),
        forall|w: int| 0 <= w < table@.len() ==> (#[trigger] table@[w])@.len() == nh,
    ensures
        r@.len() == hc@.len(),
        forall|a: int| 0 <= a < r@.len() ==> (#[trigger] r@[a])@.len() == gc@.len(),
{
    let mut adj: Vec<Vec<bool>> = Vec::new();
    let mut i: usize = 0;
    while i < hc.len()
        invariant
            i <= hc@.len(),
            adj@.len() == i,
            forall|x: int| 0 <= x < hc@.len() ==> #[trigger] hc@[x] < nh,
            forall|x: int| 0 <= x < gc@.len() ==> #[trigger] gc@[x] < table@.len(),
            forall|w: int| 0 <= w < table@.len() ==> (#[trigger] table@[w])@.len() == nh,
            forall|a: int| 0 <= a < adj@.len() ==> (#[trigger] adj@[a])@.len() == gc@.len(),
        decreases hc@.len() - i,
    {
        let mut row: Vec<bool> = Vec::new();
        let mut j: usize = 0;
        while j < gc.len()
            invariant
                j <= gc@.len(),
                i < hc@.len(),
                row@.len() == j,
                forall|x: int| 0 <= x < hc@.len() ==> #[trigger] hc@[x] < nh,
                forall|x: int| 0 <= x < gc@.len() ==> #[trigger] gc@[x] < table@.len(),
                forall|w: int| 0 <= w < table@.len() ==> (#[trigger] table@[w])@.len() == nh,
            decreases gc@.len() - j,
        {
            row.push(table[gc[j]][hc[i]]);
            j += 1;
        }
        adj.push(row);
        i += 1;
    }
    adj
}

/// Whether a matching leaves no row unmatched.
fn saturating(m: &Vec<usize>) -> (r: bool)
    ensures
        r == forall|i: int| 0 <= i < m@.len() ==> #[trigger] m@[i] != NO_MATCH,
{
    let mut i: usize = 0;
    while i < m.len()
        invariant
            i <= m@.len(),
            forall|x: int| 0 <= x < i ==> #[trigger] m@[x] != NO_MATCH,
        decreases m@.len() - i,
    {
        if m[i] == NO_MATCH {
            return false;
        }
        i += 1;
    }
    true
}

fn has_edge_exec(g: &AttrGraph, a: usize, b: usize) -> (r: bool)
    ensures
        r == g@.has_edge(a, b),
{
    let mut j: usize = 0;
    while j < g.edges.len()
        invariant
            j <= g@.edges.len(),
            forall|x: int| 0 <= x < j ==> #[trigger] g@.edges[x] != (a, b),
        decreases g@.edges.len() - j,
    {
        if g.edges[j].0 == a && g.edges[j].1 == b {
            assert(g@.edges[j as int] == (a, b));
            return true;
        }
        j += 1;
    }
    false
}

fn is_root_exec(g: &AttrGraph, v: usize) -> (r: bool)
    ensures
        r == g@.is_root(v as int),
{
    let mut j: usize = 0;
    while j < g.edges.len()
        invariant
            j <= g@.edges.len(),
            forall|x: int| 0 <= x < j ==> (#[trigger] g@.edges[x]).1 != v,
        decreases g@.edges.len() - j,
    {
        if g.edges[j].1 == v {
            return false;
        }
        j += 1;
    }
    true
}

/// Decides whether `m` is an embedding of `graph_h` into `graph_g`.
pub fn check_embedding(g: &AttrGraph, h: &AttrGraph, m: &Vec<(usize, usize)>) -> (r: bool)
    requires
        h@.edges_in_range(),
    ensures
        r == is_embedding(g@, h@, m@),
{
    if m.len() != h.nodes.len() {
        return false;
    }
    let mut i: usize = 0;
    while i < m.len()
        invariant
            i <= m@.len(),
            m@.len() == h@.nodes.len(),
            forall|x: int|
                0 <= x < i ==> (#[trigger] m@[x]).0 == x && m@[x].1 < g@.nodes.len() && compatible(
                    h@,
                    x,
                    g@,
                    m@[x].1 as int,
                ),
        decreases m@.len() - i,
    {
        if m[i].0 != i || m[i].1 >= g.nodes.len() {
            assert(!((m@[i as int]).0 == i && m@[i as int].1 < g@.nodes.len()));
            assert(!is_embedding(g@, h@, m@));
            return false;
        }
        if !is_compatible(h, i, g, m[i].1) {
            assert(!compatible(h@, i as int, g@, m@[i as int].1 as int));
            assert(!is_embedding(g@, h@, m@));
            return false;
        }
        i += 1;
    }
    let mut i: usize = 0;
    while i < m.len()
        invariant
            i <= m@.len(),
            forall|x: int, y: int|
                0 <= x < i && 0 <= y < m@.len() && x != y ==> (#[trigger] m@[x]).1 != (#[trigger] m@[y]).1,
        decreases m@.len() - i,
    {
        let mut j: usize = 0;
        while j < m.len()
            invariant
                j <= m@.len(),
                i < m@.len(),
                forall|x: int, y: int|
                    0 <= x < i && 0 <= y < m@.len() && x != y ==> (#[trigger] m@[x]).1 != (#[trigger] m@[y]).1,
                forall|y: int| 0 <= y < j && i != y ==> m@[i as int].1 != (#[trigger] m@[y]).1,
            decreases m@.len() - j,
        {
            if i != j && m[i].1 == m[j].1 {
                return false;
            }
            j += 1;
        }
        i += 1;
    }
    let mut k: usize = 0;
    while k < h.edges.len()
        invariant
            k <= h@.edges.len(),
            m@.len() == h@.nodes.len(),
            h@.edges_in_range(),
            forall|x: int|
                0 <= x < k ==> g@.has_edge(m@[(#[trigger] h@.edges[x]).0 as int].1, m@[h@.edges[x].1 as int].1),
        decreases h@.edges.len() - k,
    {
        let e = h.edges[k];
        assert(h@.edges[k as int] == e);
        if !has_edge_exec(g, m[e.0].1, m[e.1].1) {
            assert(!g@.has_edge(m@[(h@.edges[k as int]).0 as int].1, m@[h@.edges[k as int].1 as int].1));
            assert(!is_embedding(g@, h@, m@));
            return false;
        }
        k += 1;
    }
    let mut u: usize = 0;
    while u < m.len()
        invariant
            u <= m@.len(),
            m@.len() == h@.nodes.len(),
            forall|x: int| 0 <= x < u && #[trigger] h@.is_root(x) ==> g@.is_root(m@[x].1 as int),
        decreases m@.len() - u,
    {
        if is_root_exec(h, u) && !is_root_exec(g, m[u].1) {
            assert(h@.is_root(u as int) && !g@.is_root(m@[u as int].1 as int));
            assert(!is_embedding(g@, h@, m@));
            return false;
        }
        u += 1;
    }
    true
}

/// Decides, round by round, which pattern subtrees embed below which trace nodes:
/// after round `r`, `table[v][u]` says whether the part of the pattern below `u` that is at
/// most `r` levels deep embeds with `u` standing for `v`.
fn embed_table(g: &AttrGraph, h: &AttrGraph, gc: &Vec<Vec<usize>>, hc: &Vec<Vec<usize>>) -> (r: Vec<Vec<bool>>)
    requires
        gc@.len() == g@.nodes.len(),
        hc@.len() == h@.nodes.len(),
        forall|v: int, i: int|
            0 <= v < gc@.len() && 0 <= i < gc@[v]@.len() ==> #[trigger] gc@[v]@[i] < g@.nodes.len(),
        forall|v: int, i: int|
            0 <= v < hc@.len() && 0 <= i < hc@[v]@.len() ==> #[trigger] hc@[v]@[i] < h@.nodes.len(),
    ensures
        r@.len() == g@.nodes.len(),
        forall|v: int| 0 <= v < r@.len() ==> (#[trigger] r@[v])@.len() == h@.nodes.len(),
{
    let ng = g.nodes.len();
    let nh = h.nodes.len();
    let mut table: Vec<Vec<bool>> = Vec::new();
    let mut v: usize = 0;
    while v < ng
        invariant
            v <= ng,
            ng == g@.nodes.len(),
            table@.len() == v,
            forall|w: int| 0 <= w < table@.len() ==> (#[trigger] table@[w])@.len() == nh,
        decreases ng - v,
    {
        let mut row: Vec<bool> = Vec::new();
        let mut u: usize = 0;
        while u < nh
            invariant
                u <= nh,
                row@.len() == u,
            decreases nh - u,
        {
            row.push(false);
            u += 1;
        }
        table.push(row);
        v += 1;
    }
    let mut round: usize = 0;
    while round < nh
        invariant
            ng == g@.nodes.len(),
            nh == h@.nodes.len(),
            table@.len() == ng,
            forall|w: int| 0 <= w < table@.len() ==> (#[trigger] table@[w])@.len() == nh,
            gc@.len() == ng,
            hc@.len() == nh,
            forall|w: int, i: int| 0 <= w < gc@.len() && 0 <= i < gc@[w]@.len() ==> #[trigger] gc@[w]@[i] < ng,
            forall|w: int, i: int| 0 <= w < hc@.len() && 0 <= i < hc@[w]@.len() ==> #[trigger] hc@[w]@[i] < nh,
        decreases nh - round,
    {
        let mut next: Vec<Vec<bool>> = Vec::new();
        let mut v: usize = 0;
        while v < ng
            invariant
                v <= ng,
                ng == g@.nodes.len(),
                nh == h@.nodes.len(),
                table@.len() == ng,
                forall|w: int| 0 <= w < table@.len() ==> (#[trigger] table@[w])@.len() == nh,
                next@.len() == v,
                forall|w: int| 0 <= w < next@.len() ==> (#[trigger] next@[w])@.len() == nh,
                gc@.len() == ng,
                hc@.len() == nh,
                forall|w: int, i: int| 0 <= w < gc@.len() && 0 <= i < gc@[w]@.len() ==> #[trigger] gc@[w]@[i] < ng,
                forall|w: int, i: int| 0 <= w < hc@.len() && 0 <= i < hc@[w]@.len() ==> #[trigger] hc@[w]@[i] < nh,
            decreases ng - v,
        {
            let mut row: Vec<bool> = Vec::new();
            let mut u: usize = 0;
            while u < nh
                invariant
                    u <= nh,
                    v < ng,
                    ng == g@.nodes.len(),
                    nh == h@.nodes.len(),
                    row@.len() == u,
                    table@.len() == ng,
                    forall|w: int| 0 <= w < table@.len() ==> (#[trigger] table@[w])@.len() == nh,
                    gc@.len() == ng,
                    hc@.len() == nh,
                    forall|w: int, i: int|
                        0 <= w < gc@.len() && 0 <= i < gc@[w]@.len() ==> #[trigger] gc@[w]@[i] < ng,
                    forall|w: int, i: int|
                        0 <= w < hc@.len() && 0 <= i < hc@[w]@.len() ==> #[trigger] hc@[w]@[i] < nh,
                decreases nh - u,
            {
                let mut ok = false;
                if is_compatible(h, u, g, v) {
                    let hcu = &hc[u];
                    let gcv = &gc[v];
                    assert(forall|x: int| 0 <= x < hcu@.len() ==> #[trigger] hcu@[x] < nh);
                    assert(forall|x: int| 0 <= x < gcv@.len() ==> #[trigger] gcv@[x] < ng);
                    let adj = child_graph(&table, hcu, gcv, nh);
                    let matching = max_matching(&adj, gcv.len());
                    ok = saturating(&matching);
                }
                row.push(ok);
                u += 1;
            }
            next.push(row);
            v += 1;
        }
        table = next;
        round += 1;
    }
    table
}

/// Finds a mapping of the pattern `graph_h` into the trace `graph_g`: pattern root onto trace
/// root, compatible labels and attributes, pattern children onto distinct children of their
/// parent's image. Returns the pairs (pattern node, trace node) in pattern order; a mapping
/// is returned only once it checks out as an embedding.
pub fn find_mapping_shamir_centralized(graph_g: &AttrGraph, graph_h: &AttrGraph) -> (r: Result<
    Option<Vec<(usize, usize)>>,
    MatchError,
>)
    requires
        graph_g@.edges_in_range(),
        graph_h@.edges_in_range(),
    ensures
        r is Err ==> (r == Err::<Option<Vec<(usize, usize)>>, MatchError>(MatchError::MalformedPattern)
            <==> root_count(graph_h@) != 1),
        r == Err::<Option<Vec<(usize, usize)>>, MatchError>(MatchError::MalformedTrace) <==> (root_count(
            graph_h@,
        ) == 1 && graph_g@.nodes.len() > 0 && root_count(graph_g@) != 1),
        root_count(graph_h@) != 1 ==> r == Err::<Option<Vec<(usize, usize)>>, MatchError>(
            MatchError::MalformedPattern,
        ),
        root_count(graph_h@) == 1 && graph_g@.nodes.len() == 0 ==> r matches Ok(None),
        r matches Ok(Some(m)) ==> is_embedding(graph_g@, graph_h@, m@),
        root_count(graph_h@) == 1 && root_count(graph_g@) == 1 && (exists|m: Seq<(usize, usize)>|
            #[trigger] is_embedding(graph_g@, graph_h@, m)) ==> r matches Ok(Some(_)),
{
    let g = graph_g;
    let h = graph_h;
    let rh = h.roots();
    if rh.len() != 1 {
        return Err(MatchError::MalformedPattern);
    }
    if g.nodes.len() == 0 {
        return Ok(None);
    }
    let rg = g.roots();
    if rg.len() != 1 {
        return Err(MatchError::MalformedTrace);
    }
    let nh = h.nodes.len();
    proof {
        lemma_roots_upto_range(g@, g@.nodes.len() as int);
        lemma_roots_upto_range(h@, nh as int);
    }
    let root_h = rh[0];
    let root_g = rg[0];
    match reconstruct(g, h, root_g, root_h) {
        Some(m) => Ok(Some(m)),
        None => Ok(search_mapping(g, h)),
    }
}

/// The mapping that sends pattern node `i` to trace node `img[i]`.
pub open spec fn pairs_of(img: Seq<usize>) -> Seq<(usize, usize)> {
    Seq::new(img.len(), |i: int| (i as usize, img[i]))
}

/// The first `p.len()` pattern nodes stand for the trace nodes `p` as an embedding would
/// have them: compatible, distinct, pattern edges among them carried onto trace edges, roots
/// onto roots.
pub open spec fn prefix_ok(g: GraphModel, h: GraphModel, p: Seq<usize>) -> bool {
    &&& p.len() <= h.nodes.len()
    &&& forall|i: int| 0 <= i < p.len() ==> #[trigger] p[i] < g.nodes.len() && compatible(h, i, g, p[i] as int)
    &&& forall|i: int, j: int| 0 <= i < p.len() && 0 <= j < p.len() && i != j ==> #[trigger] p[i] != #[trigger] p[j]
    &&& forall|k: int|
        0 <= k < h.edges.len() && (#[trigger] h.edges[k]).0 < p.len() && h.edges[k].1 < p.len() ==> g.has_edge(
            p[h.edges[k].0 as int],
            p[h.edges[k].1 as int],
        )
    &&& forall|u: int| 0 <= u < p.len() && #[trigger] h.is_root(u) ==> g.is_root(p[u] as int)
}

proof fn lemma_prefix_full(g: GraphModel, h: GraphModel, p: Seq<usize>)
    requires
        p.len() == h.nodes.len(),
        h.nodes.len() <= usize::MAX,
        h.edges_in_range(),
    ensures
        prefix_ok(g, h, p) <==> is_embedding(g, h, pairs_of(p)),
{
    let m = pairs_of(p);
    assert forall|i: int| 0 <= i < p.len() implies #[trigger] m[i] == (i as usize, p[i]) by {}
    if prefix_ok(g, h, p) {
        assert forall|i: int, j: int| 0 <= i < m.len() && 0 <= j < m.len() && i != j implies (#[trigger] m[i]).1
            != (#[trigger] m[j]).1 by {
            assert(p[i] != p[j]);
        }
        assert forall|k: int| 0 <= k < h.edges.len() implies g.has_edge(
            m[(#[trigger] h.edges[k]).0 as int].1,
            m[h.edges[k].1 as int].1,
        ) by {}
        assert forall|u: int| 0 <= u < m.len() && #[trigger] h.is_root(u) implies g.is_root(m[u].1 as int) by {}
    }
    if is_embedding(g, h, m) {
        assert forall|i: int| 0 <= i < p.len() implies #[trigger] p[i] < g.nodes.len() && compatible(h, i, g, p[i] as int) by {
            assert(m[i].1 == p[i]);
        }
        assert forall|i: int, j: int| 0 <= i < p.len() && 0 <= j < p.len() && i != j implies #[trigger] p[i]
            != #[trigger] p[j] by {
            assert(m[i].1 != m[j].1);
        }
        assert forall|k: int|
            0 <= k < h.edges.len() && (#[trigger] h.edges[k]).0 < p.len() && h.edges[k].1 < p.len() implies g.has_edge(
            p[h.edges[k].0 as int],
            p[h.edges[k].1 as int],
        ) by {}
        assert forall|u: int| 0 <= u < p.len() && #[trigger] h.is_root(u) implies g.is_root(p[u] as int) by {
            assert(m[u].1 == p[u]);
        }
    }
}

proof fn lemma_prefix_of_embedding(g: GraphModel, h: GraphModel, full: Seq<usize>, n: int)
    requires
        full.len() == h.nodes.len(),
        h.nodes.len() <= usize::MAX,
        h.edges_in_range(),
        is_embedding(g, h, pairs_of(full)),
        0 <= n <= full.len(),
    ensures
        prefix_ok(g, h, full.take(n)),
{
    lemma_prefix_full(g, h, full);
    let p = full.take(n);
    assert forall|i: int| 0 <= i < p.len() implies #[trigger] p[i] < g.nodes.len() && compatible(h, i, g, p[i] as int) by {
        assert(p[i] == full[i]);
    }
    assert forall|i: int, j: int| 0 <= i < p.len() && 0 <= j < p.len() && i != j implies #[trigger] p[i]
        != #[trigger] p[j] by {
        assert(p[i] == full[i] && p[j] == full[j]);
    }
    assert forall|k: int|
        0 <= k < h.edges.len() && (#[trigger] h.edges[k]).0 < p.len() && h.edges[k].1 < p.len() implies g.has_edge(
        p[h.edges[k].0 as int],
        p[h.edges[k].1 as int],
    ) by {
        assert(p[h.edges[k].0 as int] == full[h.edges[k].0 as int]);
        assert(p[h.edges[k].1 as int] == full[h.edges[k].1 as int]);
    }
    assert forall|u: int| 0 <= u < p.len() && #[trigger] h.is_root(u) implies g.is_root(p[u] as int) by {
        assert(p[u] == full[u]);
    }
}

/// Decides `prefix_ok` for `p`.
fn prefix_check(g: &AttrGraph, h: &AttrGraph, p: &Vec<usize>) -> (r: bool)
    requires
        h@.edges_in_range(),
    ensures
        r == prefix_ok(g@, h@, p@),
{
    if p.len() > h.nodes.len() {
        return false;
    }
    let mut i: usize = 0;
    while i < p.len()
        invariant
            i <= p@.len(),
            p@.len() <= h@.nodes.len(),
            forall|x: int| 0 <= x < i ==> #[trigger] p@[x] < g@.nodes.len() && compatible(h@, x, g@, p@[x] as int),
        decreases p@.len() - i,
    {
        if p[i] >= g.nodes.len() || !is_compatible(h, i, g, p[i]) {
            assert(!(p@[i as int] < g@.nodes.len() && compatible(h@, i as int, g@, p@[i as int] as int)));
            return false;
        }
        i += 1;
    }
    let mut i: usize = 0;
    while i < p.len()
        invariant
            i <= p@.len(),
            forall|x: int, y: int| 0 <= x < i && 0 <= y < p@.len() && x != y ==> #[trigger] p@[x] != #[trigger] p@[y],
        decreases p@.len() - i,
    {
        let mut j: usize = 0;
        while j < p.len()
            invariant
                j <= p@.len(),
                i < p@.len(),
                forall|x: int, y: int| 0 <= x < i && 0 <= y < p@.len() && x != y ==> #[trigger] p@[x] != #[trigger] p@[y],
                forall|y: int| 0 <= y < j && i != y ==> p@[i as int] != #[trigger] p@[y],
            decreases p@.len() - j,
        {
            if i != j && p[i] == p[j] {
                return false;
            }
            j += 1;
        }
        i += 1;
    }
    let mut k: usize = 0;
    while k < h.edges.len()
        invariant
            k <= h@.edges.len(),
            h@.edges_in_range(),
            forall|x: int|
                0 <= x < k && (#[trigger] h@.edges[x]).0 < p@.len() && h@.edges[x].1 < p@.len() ==> g@.has_edge(
                    p@[h@.edges[x].0 as int],
                    p@[h@.edges[x].1 as int],
                ),
        decreases h@.edges.len() - k,
    {
        let e = h.edges[k];
        assert(h@.edges[k as int] == e);
        if e.0 < p.len() && e.1 < p.len() && !has_edge_exec(g, p[e.0], p[e.1]) {
            return false;
        }
        k += 1;
    }
    let mut u: usize = 0;
    while u < p.len()
        invariant
            u <= p@.len(),
            p@.len() <= h@.nodes.len(),
            forall|x: int| 0 <= x < u && #[trigger] h@.is_root(x) ==> g@.is_root(p@[x] as int),
        decreases p@.len() - u,
    {
        if is_root_exec(h, u) && !is_root_exec(g, p[u]) {
            return false;
        }
        u += 1;
    }
    true
}

/// Extends `img`, in order of trace node index, to an embedding of the whole pattern if one
/// exists; otherwise leaves it as it was.
fn search(g: &AttrGraph, h: &AttrGraph, img: &mut Vec<usize>) -> (found: bool)
    requires
        h@.edges_in_range(),
        h@.nodes.len() <= usize::MAX,
        prefix_ok(g@, h@, old(img)@),
    ensures
        found ==> final(img)@.len() == h@.nodes.len() && is_embedding(g@, h@, pairs_of(final(img)@)),
        !found ==> final(img)@ == old(img)@ && forall|full: Seq<usize>|
            full.len() == h@.nodes.len() && full.take(old(img)@.len() as int) == old(img)@ ==> !#[trigger] is_embedding(
                g@,
                h@,
                pairs_of(full),
            ),
    decreases h@.nodes.len() - old(img)@.len(),
{
    if img.len() == h.nodes.len() {
        proof {
            lemma_prefix_full(g@, h@, img@);
        }
        return true;
    }
    let ghost p0 = img@;
    let k = img.len();
    let mut v: usize = 0;
    while v < g.nodes.len()
        invariant
            img@ == p0,
            p0 == old(img)@,
            k == p0.len(),
            k < h@.nodes.len(),
            h@.nodes.len() <= usize::MAX,
            h@.edges_in_range(),
            prefix_ok(g@, h@, p0),
            forall|full: Seq<usize>|
                full.len() == h@.nodes.len() && full.take(k as int) == p0 && full[k as int] < v ==> !#[trigger] is_embedding(
                    g@,
                    h@,
                    pairs_of(full),
                ),
        decreases g@.nodes.len() - v,
    {
        img.push(v);
        let ghost p1 = img@;
        let ok = prefix_check(g, h, img);
        assert(img@.len() == k + 1);
        if ok {
            if search(g, h, img) {
                return true;
            }
        }
        proof {
            assert forall|full: Seq<usize>|
                full.len() == h@.nodes.len() && full.take(k as int) == p0 && full[k as int] < v + 1 implies !#[trigger] is_embedding(
                g@,
                h@,
                pairs_of(full),
            ) by {
                if full[k as int] == v && is_embedding(g@, h@, pairs_of(full)) {
                    assert(full.take(k + 1) =~= p1);
                    lemma_prefix_of_embedding(g@, h@, full, k + 1);
                }
            }
        }
        img.pop();
        assert(img@ =~= p0);
        v += 1;
    }
    proof {
        assert forall|full: Seq<usize>|
            full.len() == h@.nodes.len() && full.take(k as int) == p0 implies !#[trigger] is_embedding(g@, h@, pairs_of(full)) by {
            if is_embedding(g@, h@, pairs_of(full)) {
                assert(pairs_of(full)[k as int].1 < g@.nodes.len());
            }
        }
    }
    false
}

/// Finds an embedding by search: the pattern's nodes in index order, each tried on the
/// trace's nodes in index order.
fn search_mapping(g: &AttrGraph, h: &AttrGraph) -> (r: Option<Vec<(usize, usize)>>)
    requires
        h@.edges_in_range(),
    ensures
        r matches Some(m) ==> is_embedding(g@, h@, m@),
        r is None ==> forall|m: Seq<(usize, usize)>| !#[trigger] is_embedding(g@, h@, m),
{
    let mut img: Vec<usize> = Vec::new();
    let nh = h.nodes.len();
    proof {
        assert(prefix_ok(g@, h@, img@));
        assert(h@.nodes.len() == nh);
    }
    if search(g, h, &mut img) {
        let mut pairs: Vec<(usize, usize)> = Vec::new();
        let mut i: usize = 0;
        while i < img.len()
            invariant
                i <= img@.len(),
                pairs@ == pairs_of(img@).take(i as int),
            decreases img@.len() - i,
        {
            pairs.push((i, img[i]));
            assert(pairs@ =~= pairs_of(img@).take(i + 1));
            i += 1;
        }
        assert(pairs@ =~= pairs_of(img@));
        Some(pairs)
    } else {
        proof {
            assert forall|m: Seq<(usize, usize)>| !#[trigger] is_embedding(g@, h@, m) by {
                if is_embedding(g@, h@, m) {
                    let full = Seq::new(m.len(), |i: int| m[i].1);
                    assert(pairs_of(full) =~= m);
                    assert(full.take(0) =~= img@);
                }
            }
        }
        None
    }
}

/// Rebuilds a mapping from the table of embeddable subtrees, from the roots down, and
/// returns it when it checks out as an embedding.
fn reconstruct(g: &AttrGraph, h: &AttrGraph, root_g: usize, root_h: usize) -> (r: Option<Vec<(usize, usize)>>)
    requires
        g@.edges_in_range(),
        h@.edges_in_range(),
        root_g < g@.nodes.len(),
        root_h < h@.nodes.len(),
    ensures
        r matches Some(m) ==> is_embedding(g@, h@, m@),
{
    let ng = g.nodes.len();
    let nh = h.nodes.len();
    let gc = all_children(g);
    let hc = all_children(h);
    let table = embed_table(g, h, &gc, &hc);
    if !table[root_g][root_h] {
        return None;
    }
    let mut img: Vec<usize> = Vec::new();
    let mut u: usize = 0;
    while u < nh
        invariant
            u <= nh,
            img@.len() == u,
            forall|x: int| 0 <= x < u ==> #[trigger] img@[x] == NO_MATCH,
        decreases nh - u,
    {
        img.push(NO_MATCH);
        u += 1;
    }
    img.set(root_h, root_g);
    let mut stack: Vec<usize> = Vec::new();
    stack.push(root_h);
    let mut steps: usize = 0;
    while steps < nh && stack.len() > 0
        invariant
            ng == g@.nodes.len(),
            nh == h@.nodes.len(),
            img@.len() == nh,
            forall|x: int| 0 <= x < nh ==> #[trigger] img@[x] == NO_MATCH || img@[x] < ng,
            forall|x: int| 0 <= x < stack@.len() ==> #[trigger] stack@[x] < nh,
            table@.len() == ng,
            forall|w: int| 0 <= w < table@.len() ==> (#[trigger] table@[w])@.len() == nh,
            gc@.len() == ng,
            hc@.len() == nh,
            forall|w: int, i: int| 0 <= w < gc@.len() && 0 <= i < gc@[w]@.len() ==> #[trigger] gc@[w]@[i] < ng,
            forall|w: int, i: int| 0 <= w < hc@.len() && 0 <= i < hc@[w]@.len() ==> #[trigger] hc@[w]@[i] < nh,
        decreases nh - steps,
    {
        let u = stack.pop().unwrap();
        let v = img[u];
        if v != NO_MATCH {
            let hcu = &hc[u];
            let gcv = &gc[v];
            assert(forall|x: int| 0 <= x < hcu@.len() ==> #[trigger] hcu@[x] < nh);
            assert(forall|x: int| 0 <= x < gcv@.len() ==> #[trigger] gcv@[x] < ng);
            let adj = child_graph(&table, hcu, gcv, nh);
            let matching = max_matching(&adj, gcv.len());
            let mut i: usize = 0;
            while i < matching.len()
                invariant
                    i <= matching@.len(),
                    matching@.len() == hcu@.len(),
                    forall|x: int| 0 <= x < matching@.len() ==> #[trigger] matching@[x] == NO_MATCH
                        || matching@[x] < gcv@.len(),
                    forall|x: int| 0 <= x < hcu@.len() ==> #[trigger] hcu@[x] < nh,
                    forall|x: int| 0 <= x < gcv@.len() ==> #[trigger] gcv@[x] < ng,
                    img@.len() == nh,
                    forall|x: int| 0 <= x < nh ==> #[trigger] img@[x] == NO_MATCH || img@[x] < ng,
                    forall|x: int| 0 <= x < stack@.len() ==> #[trigger] stack@[x] < nh,
                decreases matching@.len() - i,
            {
                let j = matching[i];
                if j != NO_MATCH {
                    img.set(hcu[i], gcv[j]);
                    stack.push(hcu[i]);
                }
                i += 1;
            }
        }
        steps += 1;
    }
    let mut pairs: Vec<(usize, usize)> = Vec::new();
    let mut u: usize = 0;
    while u < nh
        invariant
            u <= nh,
            img@.len() == nh,
        decreases nh - u,
    {
        if img[u] == NO_MATCH {
            return None;
        }
        pairs.push((u, img[u]));
        u += 1;
    }
    if check_embedding(g, h, &pairs) {
        Some(pairs)
    } else {
        None
    }
}

} // verus!
