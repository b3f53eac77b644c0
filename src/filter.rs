//! The per-node filter: assembles the trace graph in the `ferried_data` header, computes the
//! height of each service in the trace, and at the root service reports the height of the
//! node that the pattern's `a` matches.
use vstd::prelude::*;
use crate::codec::{decode_ferried, encode_ferried, encode_model, enc_nat, u64_to_string, DecodeError};
use crate::ferried::{assign_model, contains_triple, merge_model, FerriedData, FerriedModel};
use crate::graph::{
    attr_get, attr_index, attr_set, attrs_value, attrs_view, get_node_with_id, lemma_attr_index,
    lemma_children_in_range, lemma_index_of_has_label, roots_upto, AttrGraph, AttrsModel, GraphModel,
};
use crate::iso::{find_mapping_shamir_centralized, is_embedding, root_count};
use indexmap::IndexMap;
use crate::rpc::{map_get, map_insert, map_items, map_new, Rpc, RpcModel};

verus! {

/// Numeric value of a decimal digit.
pub open spec fn digit_of(c: char) -> Option<nat> {
    if c == '0' {
        Some(0)
    } else if c == '1' {
        Some(1)
    } else if c == '2' {
        Some(2)
    } else if c == '3' {
        Some(3)
    } else if c == '4' {
        Some(4)
    } else if c == '5' {
        Some(5)
    } else if c == '6' {
        Some(6)
    } else if c == '7' {
        Some(7)
    } else if c == '8' {
        Some(8)
    } else if c == '9' {
        Some(9)
    } else {
        None
    }
}

/// The value of a non-empty string of decimal digits.
pub open spec fn digits_value(s: Seq<char>) -> Option<nat>
    decreases s.len(),
{
    if s.len() == 0 {
        None
    } else if s.len() == 1 {
        digit_of(s[0])
    } else {
        match (digits_value(s.drop_last()), digit_of(s.last())) {
            (Some(v), Some(d)) => Some(v * 10 + d),
            _ => None,
        }
    }
}

/// A height as written by a child: decimal digits whose value fits in 32 bits.
pub open spec fn height_of(s: Seq<char>) -> Option<nat> {
    digits_bounded(if s.len() > 0 && s[0] == '+' {
        s.skip(1)
    } else {
        s
    })
}

/// The value of a string of decimal digits, when it fits in 32 bits.
pub open spec fn digits_bounded(s: Seq<char>) -> Option<nat> {
    match digits_value(s) {
        Some(v) => if v <= u32::MAX {
            Some(v)
        } else {
            None
        },
        None => None,
    }
}

/// The largest readable height among `hs`, or 0.
pub open spec fn max_height(hs: Seq<Seq<char>>) -> nat
    decreases hs.len(),
{
    if hs.len() == 0 {
        0
    } else {
        let m = max_height(hs.drop_last());
        match height_of(hs.last()) {
            Some(v) => if v > m {
                v
            } else {
                m
            },
            None => m,
        }
    }
}

/// Height of a node from its children's heights: 0 for a leaf, else one more than the
/// largest readable child height.
pub open spec fn height_from(hs: Seq<Seq<char>>) -> nat {
    if hs.len() == 0 {
        0
    } else {
        max_height(hs) + 1
    }
}

/// Reads a height written as decimal digits.
pub fn parse_height(s: &String) -> (r: Option<u32>)
    ensures
        r matches Some(v) ==> height_of(s@) == Some(v as nat),
        r is None ==> height_of(s@) is None,
{
    let mut cs = crate::codec::chars_of_str(s.as_str());
    if cs.len() > 0 && cs[0] == '+' {
        cs.remove(0);
        assert(cs@ =~= s@.skip(1));
    }
    parse_digits(&cs)
}

/// Reads a string of decimal digits whose value fits in 32 bits.
fn parse_digits(cs: &Vec<char>) -> (r: Option<u32>)
    ensures
        r matches Some(v) ==> digits_bounded(cs@) == Some(v as nat),
        r is None ==> digits_bounded(cs@) is None,
{
    if cs.len() == 0 {
        return None;
    }
    let mut value: u64 = 0;
    let mut i: usize = 0;
    while i < cs.len()
        invariant
            i <= cs@.len(),
            cs@.len() > 0,
            i == 0 ==> value == 0,
            i > 0 ==> digits_value(cs@.take(i as int)) == Some(value as nat),
            value <= u32::MAX,
        decreases cs@.len() - i,
    {
        let d = match digit(cs[i]) {
            Some(d) => d,
            None => {
                proof {
                    lemma_digits_none(cs@, i as int);
                }
                return None;
            },
        };
        assert(cs@.take(i + 1).drop_last() =~= cs@.take(i as int));
        let next = value * 10 + d;
        if next > 4294967295 {
            proof {
                lemma_digits_grow(cs@, i as int + 1, next as nat);
            }
            return None;
        }
        value = next;
        i += 1;
    }
    assert(cs@.take(i as int) =~= cs@);
    Some(value as u32)
}

proof fn lemma_digits_none(s: Seq<char>, i: int)
    requires
        0 <= i < s.len(),
        digit_of(s[i]) is None,
    ensures
        digits_value(s) is None,
    decreases s.len(),
{
    if i < s.len() - 1 {
        lemma_digits_none(s.drop_last(), i);
    }
}

proof fn lemma_digits_grow(s: Seq<char>, n: int, v: nat)
    requires
        0 < n <= s.len(),
        digits_value(s.take(n)) == Some(v),
        v > u32::MAX,
    ensures
        digits_bounded(s) is None,
    decreases s.len() - n,
{
    if n < s.len() {
        assert(s.take(n + 1).drop_last() =~= s.take(n));
        match digits_value(s.take(n + 1)) {
            Some(w) => {
                assert(w >= v);
                lemma_digits_grow(s, n + 1, w);
            },
            None => {
                lemma_digits_none_prefix(s, n + 1);
            },
        }
    } else {
        assert(s.take(n) =~= s);
    }
}

proof fn lemma_digits_none_prefix(s: Seq<char>, n: int)
    requires
        0 < n <= s.len(),
        digits_value(s.take(n)) is None,
    ensures
        digits_value(s) is None,
    decreases s.len() - n,
{
    if n < s.len() {
        assert(s.take(n + 1).drop_last() =~= s.take(n));
        lemma_digits_none_prefix(s, n + 1);
    } else {
        assert(s.take(n) =~= s);
    }
}

fn digit(c: char) -> (r: Option<u64>)
    ensures
        r matches Some(d) ==> d < 10 && digit_of(c) == Some(d as nat),
        r is None ==> digit_of(c) is None,
{
    if c == '0' {
        Some(0)
    } else if c == '1' {
        Some(1)
    } else if c == '2' {
        Some(2)
    } else if c == '3' {
        Some(3)
    } else if c == '4' {
        Some(4)
    } else if c == '5' {
        Some(5)
    } else if c == '6' {
        Some(6)
    } else if c == '7' {
        Some(7)
    } else if c == '8' {
        Some(8)
    } else if c == '9' {
        Some(9)
    } else {
        None
    }
}

/// Height of a leaf.
pub fn leaf_height() -> (r: u64)
    ensures
        r == height_from(Seq::empty()),
{
    0
}

/// Height of an interior node from its children's heights.
pub fn mid_height(children_responses: &Vec<String>) -> (r: u64)
    requires
        children_responses@.len() > 0,
    ensures
        r == height_from(children_responses@.map_values(|s: String| s@)),
{
    let ghost hs = children_responses@.map_values(|s: String| s@);
    let mut max: u64 = 0;
    let mut i: usize = 0;
    while i < children_responses.len()
        invariant
            i <= children_responses@.len(),
            hs == children_responses@.map_values(|s: String| s@),
            max == max_height(hs.take(i as int)),
            max <= u32::MAX,
        decreases children_responses@.len() - i,
    {
        assert(hs.take(i + 1).drop_last() =~= hs.take(i as int));
        match parse_height(&children_responses[i]) {
            Some(v) => {
                if v as u64 > max {
                    max = v as u64;
                }
            },
            None => {},
        }
        i += 1;
    }
    assert(hs.take(i as int) =~= hs);
    max + 1
}

/// The graph `a -> b -> c` that the filter looks for, with no attributes.
pub fn create_target_graph() -> (r: AttrGraph)
    ensures
        r@.nodes == seq![("a"@, Seq::<(Seq<char>, Seq<char>)>::empty()), ("b"@, Seq::empty()), ("c"@, Seq::empty())],
        r@.edges == seq![(0usize, 1usize), (1usize, 2usize)],
{
    let mut g = AttrGraph::new();
    let none_a: Vec<(String, String)> = Vec::new();
    let none_b: Vec<(String, String)> = Vec::new();
    let none_c: Vec<(String, String)> = Vec::new();
    assert(attrs_view(none_a@) =~= Seq::empty());
    assert(attrs_view(none_b@) =~= Seq::empty());
    assert(attrs_view(none_c@) =~= Seq::empty());
    let a = g.add_node("a".to_owned(), none_a);
    let b = g.add_node("b".to_owned(), none_b);
    let c = g.add_node("c".to_owned(), none_c);
    g.add_edge(a, b);
    g.add_edge(b, c);
    assert(g@.nodes =~= seq![("a"@, Seq::<(Seq<char>, Seq<char>)>::empty()), ("b"@, Seq::empty()), ("c"@, Seq::empty())]);
    assert(g@.edges =~= seq![(0usize, 1usize), (1usize, 2usize)]);
    g
}

pub open spec fn workload_key() -> Seq<char> {
    "node.metadata.WORKLOAD_NAME"@
}

pub open spec fn height_key() -> Seq<char> {
    "height"@
}

pub open spec fn ferried_key() -> Seq<char> {
    "ferried_data"@
}

/// The graph with a new node `me`, labelled and attributed with its name, above every
/// former root.
pub open spec fn add_root(g: GraphModel, me: Seq<char>) -> GraphModel {
    let n = g.nodes.len();
    GraphModel {
        nodes: g.nodes.push((me, seq![(workload_key(), me)])),
        edges: g.edges + roots_upto(g, n as int).map_values(|r: usize| (n as usize, r)),
    }
}

/// The data as a response leaves `me`: `me` becomes the root unless already present, then
/// observations are assigned.
pub open spec fn with_me(fd: FerriedModel, me: Seq<char>) -> FerriedModel {
    if fd.graph.has_label(me) || fd.graph.nodes.len() >= usize::MAX {
        assign_model(fd)
    } else {
        assign_model(FerriedModel { graph: add_root(fd.graph, me), props: fd.props })
    }
}

/// The heights recorded on the nodes `cs`.
pub open spec fn child_heights(g: GraphModel, cs: Seq<usize>) -> Seq<Option<Seq<char>>> {
    cs.map_values(|c: usize| attr_get(g.nodes[c as int].1, height_key()))
}

pub open spec fn unwrap_all(hs: Seq<Option<Seq<char>>>) -> Seq<Seq<char>> {
    hs.map_values(|o: Option<Seq<char>>| o.unwrap())
}

/// The data after the reduction at `me`: its height, from its children's heights, recorded
/// on it; `None` when `me` is absent or a child has no height yet.
pub open spec fn udf_model(fd: FerriedModel, me: Seq<char>) -> Option<FerriedModel> {
    match fd.graph.index_of(me) {
        None => None,
        Some(v) => {
            let hs = child_heights(fd.graph, fd.graph.children(v as usize));
            if forall|i: int| 0 <= i < hs.len() ==> (#[trigger] hs[i]) is Some {
                let h = height_from(unwrap_all(hs));
                Some(
                    FerriedModel {
                        graph: GraphModel {
                            nodes: fd.graph.nodes.update(
                                v,
                                (fd.graph.nodes[v].0, attr_set(fd.graph.nodes[v].1, height_key(), enc_nat(h))),
                            ),
                            edges: fd.graph.edges,
                        },
                        props: fd.props,
                    },
                )
            } else {
                None
            }
        },
    }
}

/// The query `g` as a pattern: its vertex names are variables, so every label becomes the
/// wildcard; attributes and edges stay.
pub open spec fn query_model(g: GraphModel) -> GraphModel {
    GraphModel { nodes: g.nodes.map_values(|n: (Seq<char>, AttrsModel)| ("*"@, n.1)), edges: g.edges }
}

/// The data after the reduction at `me`, or as it was when the reduction does not apply.
pub open spec fn reduced(d: FerriedModel, me: Seq<char>) -> FerriedModel {
    match udf_model(d, me) {
        Some(m) => m,
        None => d,
    }
}

pub open spec fn rpcs_view(v: Seq<Rpc>) -> Seq<RpcModel> {
    v.map_values(|q: Rpc| q@)
}

/// The trace node standing for the first pattern node labelled `a` in `m`.
pub open spec fn a_image(target: GraphModel, m: Seq<(usize, usize)>) -> Option<usize>
    decreases m.len(),
{
    if m.len() == 0 {
        None
    } else {
        match a_image(target, m.drop_last()) {
            Some(t) => Some(t),
            None => if m.last().0 < target.nodes.len() && target.nodes[m.last().0 as int].0 == "a"@ {
                Some(m.last().1)
            } else {
                None
            },
        }
    }
}

/// The height recorded on the trace node that the pattern's `a` stands for.
pub open spec fn storage_value(target: GraphModel, m: Seq<(usize, usize)>, fd: FerriedModel) -> Option<
    Seq<char>,
> {
    if !target.has_label("a"@) {
        None
    } else {
        match a_image(target, m) {
            Some(t) => if t < fd.graph.nodes.len() {
                attr_get(fd.graph.nodes[t as int].1, height_key())
            } else {
                None
            },
            None => None,
        }
    }
}

/// The message sent to storage.
pub open spec fn storage_model(value: Seq<char>, me: Seq<char>, uid: u64) -> RpcModel {
    RpcModel {
        data: value,
        uid,
        headers: seq![("src"@, me), ("dest"@, "storage"@), ("direction"@, "request"@)],
    }
}

pub open spec fn is_response(h: AttrsModel) -> bool {
    attr_get(h, "direction"@) == Some("response"@)
}

/// What a hook reads from headers `h`: empty data without a `ferried_data` header, else data
/// whose text form is the header.
pub open spec fn reads_as(h: AttrsModel, d: FerriedModel) -> bool {
    match attr_get(h, ferried_key()) {
        None => d == empty_model(),
        Some(t) => decoded_as(t, d),
    }
}

/// `d` is what the text `t` holds once nodes with the same label are merged: the data
/// written as `t`, merged into empty data.
pub open spec fn decoded_as(t: Seq<char>, d: FerriedModel) -> bool {
    exists|raw: FerriedModel|
        #[trigger] encode_model(raw) == t && raw.graph.edges_in_range() && raw.graph.nodes.len() < usize::MAX && d
            == merge_model(empty_model(), raw)
}

/// Reads ferried data from its text form, merging nodes that share a label.
pub fn decode_merged(t: &str) -> (r: Result<FerriedData, DecodeError>)
    ensures
        r matches Ok(d) ==> d.wf() && decoded_as(t@, d@),
        forall|m: FerriedModel| #[trigger] decoded_as(t@, m) ==> (r matches Ok(d) && d@ == m),
{
    match decode_ferried(t) {
        Ok(raw) => {
            if raw.trace_graph.nodes.len() >= usize::MAX {
                return Err(DecodeError::Malformed);
            }
            let mut d = FerriedData::new();
            assert(d@.graph.nodes =~= empty_model().graph.nodes);
            assert(d@.graph.edges =~= empty_model().graph.edges);
            assert(d@.props =~= empty_model().props);
            assert(d@ == empty_model());
            d.merge_from(&raw);
            assert(decoded_as(t@, d@));
            Ok(d)
        },
        Err(e) => Err(e),
    }
}

/// Headers `h` carry ferried data in text form.
pub open spec fn readable(h: AttrsModel) -> bool {
    attr_get(h, ferried_key()) is Some && exists|d: FerriedModel| #[trigger] reads_as(h, d)
}

/// `out` is `x` with its ferried data set to the text form of `d`.
pub open spec fn carries(out: RpcModel, x: RpcModel, d: FerriedModel) -> bool {
    out == (RpcModel { headers: attr_set(x.headers, ferried_key(), encode_model(d)), ..x })
}

/// Adds the observation that this node carries its own workload name.
pub open spec fn collect_model(fd: FerriedModel, me: Seq<char>) -> FerriedModel {
    let t = (me, workload_key(), me);
    if fd.props.contains(t) {
        fd
    } else {
        FerriedModel { props: fd.props.push(t), ..fd }
    }
}

/// Setting a key to the value it already has changes nothing.
proof fn lemma_attr_set_again(m: AttrsModel, k: Seq<char>, v: Seq<char>)
    ensures
        attr_set(attr_set(m, k, v), k, v) == attr_set(m, k, v),
{
    let m1 = attr_set(m, k, v);
    crate::graph::lemma_attr_set_get(m, k, v, k);
    lemma_attr_index(m1, k);
    let i = attr_index(m1, k).unwrap();
    assert(m1.update(i, (k, v)) =~= m1);
}

/// A second reduction at `me` leaves the data as the first one made it, when `me` is not its
/// own child.
pub proof fn lemma_reduction_stable(d: FerriedModel, me: Seq<char>)
    requires
        udf_model(d, me) is Some,
        d.graph.edges_in_range(),
        !d.graph.children(d.graph.index_of(me).unwrap() as usize).contains(d.graph.index_of(me).unwrap() as usize),
    ensures
        udf_model(udf_model(d, me).unwrap(), me) == udf_model(d, me),
{
    let m = udf_model(d, me).unwrap();
    let v = d.graph.index_of(me).unwrap();
    lemma_index_of_has_label(d.graph, me);
    assert(crate::ferried::same_labels(m.graph.nodes, d.graph.nodes));
    crate::ferried::lemma_same_labels_index(m.graph.nodes, d.graph.nodes, me);
    let cs = d.graph.children(v as usize);
    assert(forall|j: int| 0 <= j < d.graph.edges.len() ==> (#[trigger] d.graph.edges[j]).1 < d.graph.nodes.len());
    lemma_children_in_range(d.graph.edges, v as usize, d.graph.nodes.len());
    assert(m.graph.children(v as usize) == cs);
    assert(child_heights(m.graph, cs) =~= child_heights(d.graph, cs)) by {
        assert forall|i: int| 0 <= i < cs.len() implies m.graph.nodes[cs[i] as int] == d.graph.nodes[cs[i] as int] by {
            if cs[i] as int == v {
                assert(cs.contains(v as usize));
            }
        }
    }
    let h = height_from(unwrap_all(child_heights(d.graph, cs)));
    lemma_attr_set_again(d.graph.nodes[v].1, height_key(), enc_nat(h));
    assert(m.graph.nodes.update(v, (m.graph.nodes[v].0, attr_set(m.graph.nodes[v].1, height_key(), enc_nat(h))))
        =~= m.graph.nodes);
}

/// Stored ferried data per trace id, as seen by contracts.
pub type SharedModel = Seq<(u64, FerriedModel)>;

pub open spec fn shared_view(v: Seq<(u64, FerriedData)>) -> SharedModel {
    v.map_values(|p: (u64, FerriedData)| (p.0, p.1@))
}

pub open spec fn uids_unique(s: SharedModel) -> bool {
    forall|i: int, j: int| 0 <= i < s.len() && 0 <= j < s.len() && i != j ==> #[trigger] s[i].0 != #[trigger] s[j].0
}

/// The data stored for `uid`, if any.
pub open spec fn shared_get(s: SharedModel, uid: u64) -> Option<FerriedModel> {
    if exists|i: int| 0 <= i < s.len() && #[trigger] s[i].0 == uid {
        Some(s[choose|i: int| 0 <= i < s.len() && #[trigger] s[i].0 == uid].1)
    } else {
        None
    }
}

pub open spec fn empty_model() -> FerriedModel {
    FerriedModel { graph: GraphModel { nodes: Seq::empty(), edges: Seq::empty() }, props: Seq::empty() }
}

/// The data stored for `uid`, or empty data.
pub open spec fn stored_or_empty(s: SharedModel, uid: u64) -> FerriedModel {
    match shared_get(s, uid) {
        Some(fd) => fd,
        None => empty_model(),
    }
}

proof fn lemma_shared_update(s: SharedModel, i: int, m: FerriedModel)
    requires
        uids_unique(s),
        0 <= i < s.len(),
    ensures
        uids_unique(s.update(i, (s[i].0, m))),
        shared_get(s.update(i, (s[i].0, m)), s[i].0) == Some(m),
        forall|u: u64| u != s[i].0 ==> shared_get(s.update(i, (s[i].0, m)), u) == #[trigger] shared_get(s, u),
{
    let t = s.update(i, (s[i].0, m));
    assert(t[i].0 == s[i].0);
    let j = choose|j: int| 0 <= j < t.len() && #[trigger] t[j].0 == s[i].0;
    assert(j == i);
    assert forall|u: u64| u != s[i].0 implies shared_get(t, u) == #[trigger] shared_get(s, u) by {
        if exists|k: int| 0 <= k < s.len() && #[trigger] s[k].0 == u {
            let k = choose|k: int| 0 <= k < s.len() && #[trigger] s[k].0 == u;
            assert(t[k].0 == u);
            let k2 = choose|k2: int| 0 <= k2 < t.len() && #[trigger] t[k2].0 == u;
            assert(k2 == k);
        } else {
            assert forall|k: int| 0 <= k < t.len() implies #[trigger] t[k].0 != u by {
                if k != i {
                    assert(t[k] == s[k]);
                }
            }
        }
    }
}

proof fn lemma_shared_push(s: SharedModel, uid: u64, m: FerriedModel)
    requires
        uids_unique(s),
        shared_get(s, uid) is None,
    ensures
        uids_unique(s.push((uid, m))),
        shared_get(s.push((uid, m)), uid) == Some(m),
        forall|u: u64| u != uid ==> shared_get(s.push((uid, m)), u) == #[trigger] shared_get(s, u),
{
    let t = s.push((uid, m));
    assert(t[s.len() as int].0 == uid);
    let j = choose|j: int| 0 <= j < t.len() && #[trigger] t[j].0 == uid;
    assert(j == s.len());
    assert forall|u: u64| u != uid implies shared_get(t, u) == #[trigger] shared_get(s, u) by {
        if exists|k: int| 0 <= k < s.len() && #[trigger] s[k].0 == u {
            let k = choose|k: int| 0 <= k < s.len() && #[trigger] s[k].0 == u;
            assert(t[k].0 == u);
            let k2 = choose|k2: int| 0 <= k2 < t.len() && #[trigger] t[k2].0 == u;
            assert(k2 == k);
        } else {
            assert forall|k: int| 0 <= k < t.len() implies #[trigger] t[k].0 != u by {
                if k < s.len() {
                    assert(t[k] == s[k]);
                }
            }
        }
    }
}

proof fn lemma_roots_sorted(g: GraphModel, n: int)
    requires
        0 <= n <= usize::MAX,
    ensures
        forall|i: int, j: int|
            0 <= i < j < roots_upto(g, n).len() ==> #[trigger] roots_upto(g, n)[i] < #[trigger] roots_upto(g, n)[j],
        forall|i: int| 0 <= i < roots_upto(g, n).len() ==> #[trigger] roots_upto(g, n)[i] < n,
    decreases n,
{
    if n > 0 {
        lemma_roots_sorted(g, n - 1);
        let rest = roots_upto(g, n - 1);
        let c = roots_upto(g, n);
        assert forall|i: int| 0 <= i < c.len() implies #[trigger] c[i] < n by {
            if i < rest.len() {
                assert(c[i] == rest[i]);
            }
        }
        assert forall|i: int, j: int| 0 <= i < j < c.len() implies #[trigger] c[i] < #[trigger] c[j] by {
            if j < rest.len() {
                assert(c[i] == rest[i] && c[j] == rest[j]);
            } else {
                assert(c[i] == rest[i]);
            }
        }
    }
}

/// The query `g` as a pattern for the matcher.
pub fn as_query(g: &AttrGraph) -> (r: AttrGraph)
    ensures
        r@ == query_model(g@),
{
    let mut nodes: Vec<crate::graph::GraphNode> = Vec::new();
    let mut i: usize = 0;
    while i < g.nodes.len()
        invariant
            i <= g@.nodes.len(),
            crate::graph::nodes_view(nodes@) == query_model(g@).nodes.take(i as int),
        decreases g@.nodes.len() - i,
    {
        let ghost before = nodes@;
        let n = crate::graph::GraphNode { label: "*".to_owned(), attrs: crate::graph::clone_attrs(&g.nodes[i].attrs) };
        nodes.push(n);
        assert(crate::graph::nodes_view(nodes@) =~= crate::graph::nodes_view(before).push(n@));
        assert(query_model(g@).nodes.take(i + 1) =~= query_model(g@).nodes.take(i as int).push(
            query_model(g@).nodes[i as int],
        ));
        i += 1;
    }
    let r = AttrGraph { nodes, edges: crate::graph::copy_edges(&g.edges) };
    assert(query_model(g@).nodes.take(i as int) =~= query_model(g@).nodes);
    assert(r@.nodes =~= query_model(g@).nodes);
    r
}

/// The trace node standing for the first pattern node labelled `a`.
fn a_image_exec(target: &AttrGraph, mapping: &Vec<(usize, usize)>) -> (r: Option<usize>)
    ensures
        r == a_image(target@, mapping@),
{
    let a = "a".to_owned();
    let mut i: usize = 0;
    while i < mapping.len()
        invariant
            i <= mapping@.len(),
            a@ == "a"@,
            a_image(target@, mapping@.take(i as int)) is None,
        decreases mapping@.len() - i,
    {
        assert(mapping@.take(i + 1).drop_last() =~= mapping@.take(i as int));
        let p = mapping[i];
        if p.0 < target.nodes.len() && target.nodes[p.0].label == a {
            proof {
                lemma_a_image_prefix(target@, mapping@, i as int + 1);
            }
            return Some(p.1);
        }
        i += 1;
    }
    assert(mapping@.take(i as int) =~= mapping@);
    None
}

proof fn lemma_a_image_prefix(target: GraphModel, m: Seq<(usize, usize)>, n: int)
    requires
        0 <= n <= m.len(),
        a_image(target, m.take(n)) is Some,
    ensures
        a_image(target, m) == a_image(target, m.take(n)),
    decreases m.len() - n,
{
    if n < m.len() {
        assert(m.take(n + 1).drop_last() =~= m.take(n));
        lemma_a_image_prefix(target, m, n + 1);
    } else {
        assert(m.take(n) =~= m);
    }
}

/// The height recorded on the trace node that the pattern's `a` stands for under `mapping`.
pub fn get_value_for_storage(
    target_graph: &AttrGraph,
    mapping: &Vec<(usize, usize)>,
    fd: &FerriedData,
) -> (r: Option<String>)
    ensures
        r matches Some(v) ==> storage_value(target_graph@, mapping@, fd@) == Some(v@),
        r is None ==> storage_value(target_graph@, mapping@, fd@) is None,
{
    let a = "a".to_owned();
    match get_node_with_id(target_graph, &a) {
        None => {
            proof {
                lemma_index_of_has_label(target_graph@, a@);
            }
            return None;
        },
        Some(_) => {
            proof {
                lemma_index_of_has_label(target_graph@, a@);
            }
        },
    }
    match a_image_exec(target_graph, mapping) {
        None => None,
        Some(t) => {
            if t < fd.trace_graph.nodes.len() {
                attrs_value(&fd.trace_graph.nodes[t].attrs, &"height".to_owned())
            } else {
                None
            }
        },
    }
}

/// The message that reports `value` to storage on behalf of `me`.
pub fn storage_rpc(value: &String, me: &String, uid: u64) -> (r: Rpc)
    ensures
        r@ == storage_model(value@, me@, uid),
{
    let mut r = Rpc::new_with_src(value.as_str(), me.as_str(), uid);
    proof {
        reveal_strlit("src");
        reveal_strlit("dest");
        reveal_strlit("direction");
        lemma_attr_index(seq![("src"@, me@)], "dest"@);
        assert("src"@.len() != "dest"@.len());
        assert(seq![("src"@, me@)][0].0 != "dest"@);
    }
    r.set_header("dest", "storage".to_owned());
    let ghost h1 = seq![("src"@, me@), ("dest"@, "storage"@)];
    assert(r@.headers =~= h1);
    proof {
        lemma_attr_index(h1, "direction"@);
        assert("src"@.len() != "direction"@.len());
        assert("dest"@.len() != "direction"@.len());
        assert(h1[0].0 != "direction"@);
        assert(h1[1].0 != "direction"@);
    }
    r.set_header("direction", "request".to_owned());
    assert(r@.headers =~= seq![("src"@, me@), ("dest"@, "storage"@), ("direction"@, "request"@)]);
    r
}

/// The storage message for a mapping found by the matcher, if the mapped `a` has a height.
pub fn storage_message(
    whoami: &String,
    uid: u64,
    target_graph: &AttrGraph,
    mapping: &Vec<(usize, usize)>,
    fd: &FerriedData,
) -> (r: Option<Rpc>)
    ensures
        r is Some <==> storage_value(target_graph@, mapping@, fd@) is Some,
        r matches Some(m) ==> m@ == storage_model(
            storage_value(target_graph@, mapping@, fd@).unwrap(),
            whoami@,
            uid,
        ),
{
    match get_value_for_storage(target_graph, mapping, fd) {
        Some(v) => Some(storage_rpc(&v, whoami, uid)),
        None => None,
    }
}

/// Computes this node's height in `fd` from its children's heights and records it, unless
/// the same value is already there. False when the node is not in the graph or a child has
/// no height yet; `fd` is then unchanged.
pub fn execute_udfs_and_check_trace_lvl_prop(filter: &Filter, fd: &mut FerriedData) -> (r: bool)
    requires
        filter.whoami is Some,
        old(fd)@.graph.edges_in_range(),
    ensures
        match udf_model(old(fd)@, filter.whoami.unwrap()@) {
            Some(m) => r && final(fd)@ == m,
            None => !r && final(fd)@ == old(fd)@,
        },
{
    let me = match &filter.whoami {
        Some(w) => w.clone(),
        None => {
            return false;
        },
    };
    let v = match get_node_with_id(&fd.trace_graph, &me) {
        Some(v) => v,
        None => {
            return false;
        },
    };
    proof {
        lemma_index_of_has_label(fd@.graph, me@);
    }
    let cs = fd.trace_graph.children(v);
    proof {
        assert forall|j: int| 0 <= j < fd@.graph.edges.len() implies (#[trigger] fd@.graph.edges[j]).1
            < fd@.graph.nodes.len() by {}
        lemma_children_in_range(fd@.graph.edges, v, fd@.graph.nodes.len());
    }
    let ghost hs = child_heights(fd@.graph, cs@);
    let height = "height".to_owned();
    let mut vals: Vec<String> = Vec::new();
    let mut i: usize = 0;
    while i < cs.len()
        invariant
            i <= cs@.len(),
            fd@ == old(fd)@,
            height@ == height_key(),
            hs == child_heights(fd@.graph, cs@),
            forall|x: int| 0 <= x < cs@.len() ==> #[trigger] cs@[x] < fd@.graph.nodes.len(),
            forall|x: int| 0 <= x < i ==> (#[trigger] hs[x]) is Some,
            vals@.map_values(|s: String| s@) == unwrap_all(hs.take(i as int)),
            me@ == filter.whoami.unwrap()@,
            fd@.graph.index_of(me@) == Some(v as int),
            cs@ == fd@.graph.children(v),
        decreases cs@.len() - i,
    {
        match attrs_value(&fd.trace_graph.nodes[cs[i]].attrs, &height) {
            Some(h) => {
                let ghost before = vals@;
                assert(hs[i as int] == Some(h@));
                vals.push(h);
                assert(unwrap_all(hs.take(i + 1)) =~= unwrap_all(hs.take(i as int)).push(h@));
                assert(vals@.map_values(|s: String| s@) =~= before.map_values(|s: String| s@).push(h@));
            },
            None => {
                assert(hs[i as int] is None);
                assert(!(forall|x: int| 0 <= x < hs.len() ==> (#[trigger] hs[x]) is Some));
                assert(udf_model(old(fd)@, me@) is None);
                return false;
            },
        }
        i += 1;
    }
    assert(hs.take(i as int) =~= hs);
    let value: u64 = if vals.len() == 0 {
        leaf_height()
    } else {
        mid_height(&vals)
    };
    let text = u64_to_string(value);
    let current = attrs_value(&fd.trace_graph.nodes[v].attrs, &height);
    let same = match &current {
        Some(c) => *c == text,
        None => false,
    };
    if same {
        proof {
            let m = fd@.graph.nodes[v as int].1;
            lemma_attr_index(m, height_key());
            let k = attr_index(m, height_key()).unwrap();
            assert(m.update(k, (height_key(), text@)) =~= m);
            assert(fd@.graph.nodes.update(v as int, (fd@.graph.nodes[v as int].0, m)) =~= fd@.graph.nodes);
        }
    } else {
        fd.trace_graph.set_attr(v, height, text);
    }
    true
}

/// Adds this node's workload name to the buffered observations.
pub fn collect_envoy_properties(filter: &Filter, fd: &mut FerriedData)
    requires
        filter.whoami is Some,
    ensures
        final(fd)@ == collect_model(old(fd)@, filter.whoami.unwrap()@),
{
    let me = match &filter.whoami {
        Some(w) => w.clone(),
        None => {
            return;
        },
    };
    let t = ("node.metadata.WORKLOAD_NAME".to_owned(), me.clone(), me);
    let t = (t.1, t.0, t.2);
    if !contains_triple(&fd.unassigned_properties, &t) {
        let ghost tv = (t.0@, t.1@, t.2@);
        fd.unassigned_properties.push(t);
        assert(fd@.props =~= old(fd)@.props.push(tv));
    }
}

/// Reads the ferried data of `x`, merging nodes that share a label: empty data when it carries
/// none.
pub fn read_ferried(x: &Rpc) -> (r: Result<FerriedData, DecodeError>)
    ensures
        r matches Ok(d) ==> reads_as(x@.headers, d@) && d.wf(),
        forall|m: FerriedModel| #[trigger] reads_as(x@.headers, m) ==> (r matches Ok(d) && d@ == m),
{
    match x.header("ferried_data") {
        None => {
            let e = FerriedData::new();
            assert(e@.graph.nodes =~= empty_model().graph.nodes);
            assert(e@.graph.edges =~= empty_model().graph.edges);
            assert(e@.props =~= empty_model().props);
            Ok(e)
        },
        Some(t) => decode_merged(t.as_str()),
    }
}

/// Writes the text form of `fd` into the `ferried_data` header of `x`.
pub fn write_ferried(fd: &FerriedData, x: &mut Rpc)
    ensures
        carries(final(x)@, old(x)@, fd@),
{
    x.set_header("ferried_data", encode_ferried(fd));
}

/// A node's filter.
pub struct Filter {
    /// This node's workload name, read from `filter_state` on first use.
    pub whoami: Option<String>,
    /// The pattern to look for, built on first use.
    pub target_graph: Option<AttrGraph>,
    /// Constant attributes of the node, such as `node.metadata.WORKLOAD_NAME`.
    pub filter_state: IndexMap<String, String>,
    /// Ferried data stored per trace id.
    pub envoy_shared_data: Vec<(u64, FerriedData)>,
    /// Attribute keys that this filter computes.
    pub collected_properties: Vec<String>,
}

impl Filter {
    /// `x` with its headers merged as `merge_headers` does.
    pub open spec fn merged_rpc(&self, x: RpcModel) -> RpcModel {
        RpcModel {
            headers: attr_set(x.headers, ferried_key(), encode_model(self.merged_data(x.uid, is_response(x.headers)))),
            ..x
        }
    }

    /// The data `merge_headers` writes for `uid`: on a response, or with nothing stored (the
    /// data then holds just this node), the stored data with this node as the new root;
    /// otherwise the stored data as it is; assigned in every case.
    pub open spec fn merged_data(&self, uid: u64, response: bool) -> FerriedModel {
        if response || shared_get(self.shared(), uid) is None {
            with_me(stored_or_empty(self.shared(), uid), self.whoami.unwrap()@)
        } else {
            assign_model(stored_or_empty(self.shared(), uid))
        }
    }

    /// What a response leaving this node turns into, given the data `d` read from the merged
    /// message and the mapping `mr` that the matcher found, if it ran and found one (it finds
    /// one whenever the query embeds in the rooted trace at the root service): the
    /// message carrying the reduced data, and a storage message exactly when this is the root
    /// service, the reduction succeeded, and the mapped `a` has a height.
    pub open spec fn response_outcome(
        &self,
        x: RpcModel,
        d: FerriedModel,
        mr: Option<Seq<(usize, usize)>>,
        r: Seq<RpcModel>,
    ) -> bool {
        let me = self.whoami.unwrap()@;
        let done = reduced(d, me);
        let t = self.target_graph.unwrap()@;
        &&& 1 <= r.len() <= 2
        &&& carries(r[0], self.merged_rpc(x), done)
        &&& (r.len() == 2 <==> (me == "productpage-v1"@ && udf_model(d, me) is Some && (mr matches Some(m)
            && storage_value(t, m, done) is Some)))
        &&& (r.len() == 2 ==> (mr matches Some(m) && r[1] == storage_model(
            storage_value(t, m, done).unwrap(),
            me,
            x.uid,
        )))
        &&& (me == "productpage-v1"@ && udf_model(d, me) is Some && root_count(query_model(t)) == 1 && root_count(
            done.graph,
        ) == 1 && (exists|m: Seq<(usize, usize)>| #[trigger] is_embedding(done.graph, query_model(t), m)))
            ==> mr is Some
    }

    /// What a request arriving does, from this filter to `after`: it passes on one message,
    /// unchanged when its ferried data cannot be read; otherwise carrying the data with this
    /// node's observations added, which are also stored.
    pub open spec fn incoming_request_done(&self, after: Filter, x: RpcModel, r: Seq<RpcModel>) -> bool {
        &&& after.wf()
        &&& after.whoami == self.whoami
        &&& after.target_graph == self.target_graph
        &&& after.filter_state == self.filter_state
        &&& r.len() == 1
        &&& (forall|d: FerriedModel| !#[trigger] reads_as(x.headers, d)) ==> r[0] == x && after.shared()
            == self.shared()
        &&& forall|d: FerriedModel|
            #![trigger reads_as(x.headers, d)]
            reads_as(x.headers, d) ==> {
                let c = collect_model(d, self.whoami.unwrap()@);
                &&& carries(r[0], x, c)
                &&& stored_or_empty(self.shared(), x.uid).graph.nodes.len() + c.graph.nodes.len() < usize::MAX
                    ==> shared_get(after.shared(), x.uid) == Some(merge_model(stored_or_empty(self.shared(), x.uid), c))
            }
        &&& forall|u: u64| u != x.uid ==> shared_get(after.shared(), u) == #[trigger] shared_get(self.shared(), u)
    }

    /// What a request leaving does: one message, with headers merged as `merge_headers` says.
    pub open spec fn outgoing_request_done(&self, after: Filter, x: RpcModel, r: Seq<RpcModel>) -> bool {
        &&& after == *self
        &&& r.len() == 1
        &&& r[0] == self.merged_rpc(x)
    }

    /// What a response arriving does: the message passes on, and its ferried data, when
    /// readable, is merged into what is stored.
    pub open spec fn incoming_response_done(&self, after: Filter, x: RpcModel, r: Seq<RpcModel>) -> bool {
        &&& after.wf()
        &&& after.whoami == self.whoami
        &&& after.target_graph == self.target_graph
        &&& after.filter_state == self.filter_state
        &&& r.len() == 1
        &&& r[0] == x
        &&& !readable(x.headers) ==> after.shared() == self.shared()
        &&& forall|d: FerriedModel|
            #![trigger reads_as(x.headers, d)]
            attr_get(x.headers, ferried_key()) is Some && reads_as(x.headers, d) && stored_or_empty(
                self.shared(),
                x.uid,
            ).graph.nodes.len() + d.graph.nodes.len() < usize::MAX ==> shared_get(after.shared(), x.uid) == Some(
                merge_model(stored_or_empty(self.shared(), x.uid), d),
            )
        &&& forall|u: u64| u != x.uid ==> shared_get(after.shared(), u) == #[trigger] shared_get(self.shared(), u)
    }

    /// What a response leaving does: see `response_outcome`; unreadable data passes the merged
    /// message on.
    pub open spec fn outgoing_response_done(&self, after: Filter, x: RpcModel, r: Seq<RpcModel>) -> bool {
        &&& after == *self
        &&& (forall|d: FerriedModel| !#[trigger] reads_as(self.merged_rpc(x).headers, d)) ==> r.len() == 1 && r[0]
            == self.merged_rpc(x)
        &&& forall|d: FerriedModel|
            #![trigger reads_as(self.merged_rpc(x).headers, d)]
            reads_as(self.merged_rpc(x).headers, d) ==> exists|mr: Option<Seq<(usize, usize)>>|
                #![trigger self.response_outcome(x, d, mr, r)]
                (mr matches Some(m) ==> is_embedding(
                    reduced(d, self.whoami.unwrap()@).graph,
                    query_model(self.target_graph.unwrap()@),
                    m,
                )) && self.response_outcome(x, d, mr, r)
    }

    /// `after` is this filter set up for use: `whoami` read from the ambient attributes and
    /// the query built, where they were missing.
    pub open spec fn initialized(&self, after: Filter) -> bool {
        &&& after.wf()
        &&& after.whoami is Some
        &&& after.target_graph is Some
        &&& after.filter_state == self.filter_state
        &&& after.envoy_shared_data == self.envoy_shared_data
        &&& after.collected_properties == self.collected_properties
        &&& self.whoami is Some ==> after.whoami == self.whoami
        &&& self.whoami is None ==> attr_get(map_items(self.filter_state), workload_key()) == Some(after.whoami.unwrap()@)
        &&& self.target_graph is Some ==> after.target_graph == self.target_graph
        &&& self.target_graph is None ==> after.target_graph.unwrap()@.edges == seq![(0usize, 1usize), (1usize, 2usize)]
            && after.target_graph.unwrap()@.nodes == seq![
            ("a"@, Seq::<(Seq<char>, Seq<char>)>::empty()),
            ("b"@, Seq::empty()),
            ("c"@, Seq::empty()),
        ]
    }

    /// What `execute` does from this filter to `after`: set up, then the hook that the
    /// message's direction and location select.
    pub open spec fn executes(&self, after: Filter, x: RpcModel, r: Seq<RpcModel>) -> bool {
        exists|mid: Filter|
            #[trigger] self.initialized(mid) && if x.header("direction"@) == Some("request"@) {
                if x.header("location"@) == Some("ingress"@) {
                    mid.incoming_request_done(after, x, r)
                } else {
                    mid.outgoing_request_done(after, x, r)
                }
            } else {
                if x.header("location"@) == Some("ingress"@) {
                    mid.incoming_response_done(after, x, r)
                } else {
                    mid.outgoing_response_done(after, x, r)
                }
            }
    }

    pub open spec fn shared(&self) -> SharedModel {
        shared_view(self.envoy_shared_data@)
    }

    /// Trace ids stored once each, and well-formed stored data.
    pub open spec fn wf(&self) -> bool {
        &&& uids_unique(self.shared())
        &&& forall|i: int| 0 <= i < self.shared().len() ==> (#[trigger] self.shared()[i]).1.wf()
        &&& self.target_graph matches Some(t) ==> t@.edges_in_range()
    }

    /// A filter with no ambient attributes.
    pub fn new() -> (r: Filter)
        ensures
            r.wf(),
            r.whoami is None,
            r.target_graph is None,
            map_items(r.filter_state).len() == 0,
            r.shared().len() == 0,
            r.collected_properties@.len() == 1,
            r.collected_properties@[0]@ == "height"@,
    {
        Filter::new_with_envoy_properties(map_new())
    }

    /// A filter with the given ambient attributes.
    pub fn new_with_envoy_properties(string_data: IndexMap<String, String>) -> (r: Filter)
        ensures
            r.wf(),
            r.whoami is None,
            r.target_graph is None,
            r.filter_state == string_data,
            r.shared().len() == 0,
            r.collected_properties@.len() == 1,
            r.collected_properties@[0]@ == "height"@,
    {
        let r = Filter {
            whoami: None,
            target_graph: None,
            filter_state: string_data,
            envoy_shared_data: Vec::new(),
            collected_properties: vec!["height".to_owned()],
        };
        assert(r.shared() =~= Seq::empty());
        r
    }

    /// Index of the data stored for `uid`, if any.
    fn shared_index(&self, uid: u64) -> (r: Option<usize>)
        requires
            uids_unique(self.shared()),
        ensures
            r matches Some(i) ==> i < self.shared().len() && self.shared()[i as int].0 == uid && shared_get(
                self.shared(),
                uid,
            ) == Some(self.shared()[i as int].1),
            r is None ==> shared_get(self.shared(), uid) is None,
    {
        let mut i: usize = 0;
        while i < self.envoy_shared_data.len()
            invariant
                i <= self.envoy_shared_data@.len(),
                uids_unique(self.shared()),
                forall|j: int| 0 <= j < i ==> #[trigger] self.shared()[j].0 != uid,
            decreases self.envoy_shared_data@.len() - i,
        {
            if self.envoy_shared_data[i].0 == uid {
                assert(self.shared()[i as int].0 == uid);
                let ghost j = choose|j: int| 0 <= j < self.shared().len() && #[trigger] self.shared()[j].0 == uid;
                assert(j == i);
                return Some(i);
            }
            i += 1;
        }
        None
    }

    /// A copy of the data stored for `uid`, or empty data.
    pub fn stored_data(&self, uid: u64) -> (r: FerriedData)
        requires
            self.wf(),
        ensures
            r@ == stored_or_empty(self.shared(), uid),
            r.wf(),
    {
        match self.shared_index(uid) {
            Some(i) => {
                assert(self.shared()[i as int].1.wf());
                self.envoy_shared_data[i].1.duplicate()
            },
            None => {
                let e = FerriedData::new();
                assert(e@.graph.nodes =~= empty_model().graph.nodes);
                assert(e@.graph.edges =~= empty_model().graph.edges);
                assert(e@.props =~= empty_model().props);
                e
            },
        }
    }

    /// Merges `data` into what is stored for `uid` (nothing stored counts as empty data).
    pub fn store_data(&mut self, uid: u64, data: &FerriedData)
        requires
            old(self).wf(),
            data@.graph.edges_in_range(),
        ensures
            final(self).wf(),
            final(self).whoami == old(self).whoami,
            final(self).target_graph == old(self).target_graph,
            final(self).filter_state == old(self).filter_state,
            final(self).collected_properties == old(self).collected_properties,
            stored_or_empty(old(self).shared(), uid).graph.nodes.len() + data@.graph.nodes.len() < usize::MAX
                ==> shared_get(final(self).shared(), uid) == Some(
                merge_model(stored_or_empty(old(self).shared(), uid), data@),
            ),
            stored_or_empty(old(self).shared(), uid).graph.nodes.len() + data@.graph.nodes.len() >= usize::MAX
                ==> final(self).shared() == old(self).shared(),
            forall|u: u64| u != uid ==> shared_get(final(self).shared(), u) == #[trigger] shared_get(
                old(self).shared(),
                u,
            ),
    {
        let mut st = self.stored_data(uid);
        if st.trace_graph.nodes.len() >= usize::MAX - data.trace_graph.nodes.len() {
            return;
        }
        st.merge_from(data);
        let ghost m = st@;
        match self.shared_index(uid) {
            Some(i) => {
                proof {
                    lemma_shared_update(self.shared(), i as int, m);
                }
                self.envoy_shared_data.set(i, (uid, st));
                assert(self.shared() =~= old(self).shared().update(i as int, (uid, m)));
            },
            None => {
                proof {
                    lemma_shared_push(self.shared(), uid, m);
                }
                self.envoy_shared_data.push((uid, st));
                assert(self.shared() =~= old(self).shared().push((uid, m)));
            },
        }
    }

    /// Merges the ferried data of `headers`, if present and readable, into what is stored
    /// for `uid`.
    pub fn store_headers(&mut self, uid_64: u64, headers: &IndexMap<String, String>)
        requires
            old(self).wf(),
        ensures
            final(self).wf(),
            final(self).whoami == old(self).whoami,
            final(self).target_graph == old(self).target_graph,
            final(self).filter_state == old(self).filter_state,
            final(self).collected_properties == old(self).collected_properties,
            !readable(map_items(*headers)) ==> final(self).shared() == old(self).shared(),
            forall|d: FerriedModel|
                #![trigger reads_as(map_items(*headers), d)]
                attr_get(map_items(*headers), ferried_key()) is Some && reads_as(map_items(*headers), d)
                    && stored_or_empty(old(self).shared(), uid_64).graph.nodes.len() + d.graph.nodes.len() < usize::MAX
                    ==> shared_get(final(self).shared(), uid_64) == Some(
                    merge_model(stored_or_empty(old(self).shared(), uid_64), d),
                ),
            forall|u: u64| u != uid_64 ==> shared_get(final(self).shared(), u) == #[trigger] shared_get(
                old(self).shared(),
                u,
            ),
    {
        let text = match map_get(headers, "ferried_data") {
            Some(t) => t,
            None => {
                return;
            },
        };
        match decode_merged(text.as_str()) {
            Ok(data) => {
                assert(reads_as(map_items(*headers), data@));
                self.store_data(uid_64, &data);
            },
            Err(_) => {},
        }
    }
    /// The data for `uid` as a response leaves this node: what is stored (or nothing), with
    /// this node added as the new root when it is not in the graph yet, then assigned.
    pub fn response_data(&self, uid: u64) -> (r: FerriedData)
        requires
            self.wf(),
            self.whoami is Some,
        ensures
            r@ == with_me(stored_or_empty(self.shared(), uid), self.whoami.unwrap()@),
            r@.graph.edges_in_range(),
    {
        let me = match &self.whoami {
            Some(w) => w.clone(),
            None => {
                return FerriedData::new();
            },
        };
        let mut fd = self.stored_data(uid);
        let ghost fd0 = fd@;
        let present = get_node_with_id(&fd.trace_graph, &me).is_some();
        proof {
            lemma_index_of_has_label(fd0.graph, me@);
        }
        if !present && fd.trace_graph.nodes.len() < usize::MAX {
            let roots = fd.trace_graph.roots();
            let n = fd.trace_graph.nodes.len();
            proof {
                lemma_roots_sorted(fd0.graph, n as int);
            }
            let attrs = vec![("node.metadata.WORKLOAD_NAME".to_owned(), me.clone())];
            assert(attrs_view(attrs@) =~= seq![(workload_key(), me@)]);
            fd.trace_graph.add_node(me.clone(), attrs);
            let ghost added = add_root(fd0.graph, me@);
            let mut k: usize = 0;
            while k < roots.len()
                invariant
                    k <= roots@.len(),
                    n == fd0.graph.nodes.len(),
                    roots@ == roots_upto(fd0.graph, n as int),
                    forall|i: int, j: int| 0 <= i < j < roots@.len() ==> #[trigger] roots@[i] < #[trigger] roots@[j],
                    forall|i: int| 0 <= i < roots@.len() ==> #[trigger] roots@[i] < n,
                    fd0.graph.edges_in_range(),
                    added == add_root(fd0.graph, me@),
                    fd@.graph.nodes == added.nodes,
                    fd@.graph.nodes.len() == n + 1,
                    fd@.props == fd0.props,
                    fd@.graph.edges == fd0.graph.edges + roots@.take(k as int).map_values(|r: usize| (n, r)),
                decreases roots@.len() - k,
            {
                let r = roots[k];
                proof {
                    assert(!fd@.graph.has_edge(n, r)) by {
                        if fd@.graph.has_edge(n, r) {
                            let j = choose|j: int| 0 <= j < fd@.graph.edges.len() && fd@.graph.edges[j] == (n, r);
                            if j < fd0.graph.edges.len() {
                                assert(fd@.graph.edges[j] == fd0.graph.edges[j]);
                            } else {
                                let q = j - fd0.graph.edges.len();
                                assert(fd@.graph.edges[j] == (n, roots@[q]));
                            }
                        }
                    }
                }
                fd.trace_graph.add_edge(n, r);
                assert(roots@.take(k + 1).map_values(|r: usize| (n, r)) =~= roots@.take(k as int).map_values(
                    |r: usize| (n, r),
                ).push((n, r)));
                assert(fd@.graph.edges =~= fd0.graph.edges + roots@.take(k + 1).map_values(|r: usize| (n, r)));
                k += 1;
            }
            assert(roots@.take(k as int) =~= roots@);
            assert(fd@.graph.edges =~= added.edges);
            assert(fd@.graph.edges_in_range()) by {
                assert forall|j: int| 0 <= j < fd@.graph.edges.len() implies (#[trigger] fd@.graph.edges[j]).0
                    < fd@.graph.nodes.len() && fd@.graph.edges[j].1 < fd@.graph.nodes.len() by {
                    if j >= fd0.graph.edges.len() {
                        let q = j - fd0.graph.edges.len();
                        assert(fd@.graph.edges[j] == (n, roots@[q]));
                    }
                }
            }
        }
        fd.assign_properties();
        fd
    }

    /// Headers with the merged ferried data written into `ferried_data`: the stored data for
    /// `uid`, with this node added as the new root on a response, or data holding just this
    /// node when nothing is stored.
    pub fn merge_headers(&self, uid: u64, new_rpc_headers: IndexMap<String, String>) -> (r: IndexMap<String, String>)
        requires
            self.wf(),
            self.whoami is Some,
        ensures
            map_items(r) == attr_set(
                map_items(new_rpc_headers),
                ferried_key(),
                encode_model(self.merged_data(uid, is_response(map_items(new_rpc_headers)))),
            ),
    {
        let mut headers = new_rpc_headers;
        let response = match map_get(&headers, "direction") {
            Some(d) => d == "response".to_owned(),
            None => false,
        };
        let stored = self.shared_index(uid).is_some();
        let fd = if !response && stored {
            let mut fd = self.stored_data(uid);
            fd.assign_properties();
            fd
        } else {
            self.response_data(uid)
        };
        map_insert(&mut headers, "ferried_data".to_owned(), encode_ferried(&fd));
        headers
    }

    /// Reads `node.metadata.WORKLOAD_NAME` from the ambient attributes into `whoami`.
    pub fn set_whoami(&mut self)
        ensures
            attr_get(map_items(old(self).filter_state), workload_key()) is None ==> final(self).whoami == old(self).whoami,
            attr_get(map_items(old(self).filter_state), workload_key()) matches Some(w) ==> (final(self).whoami matches Some(s) && s@ == w),
            final(self).target_graph == old(self).target_graph,
            final(self).filter_state == old(self).filter_state,
            final(self).envoy_shared_data == old(self).envoy_shared_data,
            final(self).collected_properties == old(self).collected_properties,
    {
        match map_get(&self.filter_state, "node.metadata.WORKLOAD_NAME") {
            Some(w) => {
                self.whoami = Some(w);
            },
            None => {},
        }
    }

    /// Sets `whoami` and `target_graph` on first use; the workload name must be known.
    pub fn init_filter(&mut self)
        requires
            old(self).wf(),
            old(self).whoami is Some || attr_get(map_items(old(self).filter_state), workload_key()) is Some,
        ensures
            final(self).wf(),
            final(self).whoami is Some,
            old(self).whoami is Some ==> final(self).whoami == old(self).whoami,
            old(self).whoami is None ==> match attr_get(map_items(old(self).filter_state), workload_key()) {
                Some(w) => final(self).whoami matches Some(s) && s@ == w,
                None => final(self).whoami is None,
            },
            final(self).target_graph is Some,
            old(self).target_graph is Some ==> final(self).target_graph == old(self).target_graph,
            old(self).target_graph is None ==> final(self).target_graph.unwrap()@.edges == seq![
                (0usize, 1usize),
                (1usize, 2usize),
            ] && final(self).target_graph.unwrap()@.nodes == seq![
                ("a"@, Seq::<(Seq<char>, Seq<char>)>::empty()),
                ("b"@, Seq::empty()),
                ("c"@, Seq::empty()),
            ],
            final(self).filter_state == old(self).filter_state,
            final(self).envoy_shared_data == old(self).envoy_shared_data,
            final(self).collected_properties == old(self).collected_properties,
    {
        if self.whoami.is_none() {
            self.set_whoami();
        }
        if self.target_graph.is_none() {
            let t = create_target_graph();
            assert(t@.edges_in_range());
            self.target_graph = Some(t);
        }
    }

    /// A request arriving: reads its ferried data (a message whose data cannot be read passes
    /// unchanged), adds this node's observations, writes the data back and stores it.
    pub fn on_incoming_requests(&mut self, x: Rpc) -> (r: Vec<Rpc>)
        requires
            old(self).wf(),
            old(self).whoami is Some,
        ensures
            old(self).incoming_request_done(*final(self), x@, rpcs_view(r@)),
    {
        let mut msg = x;
        let mut fd = match read_ferried(&msg) {
            Ok(d) => d,
            Err(_) => {
                return vec![msg];
            },
        };
        let ghost d = fd@;
        assert(reads_as(x@.headers, d));
        collect_envoy_properties(self, &mut fd);
        write_ferried(&fd, &mut msg);
        self.store_data(msg.uid, &fd);
        vec![msg]
    }

    /// A request leaving: its headers get merged as `merge_headers` says.
    pub fn on_outgoing_requests(&self, x: Rpc) -> (r: Vec<Rpc>)
        requires
            self.wf(),
            self.whoami is Some,
        ensures
            self.outgoing_request_done(*self, x@, rpcs_view(r@)),
    {
        let mut x = x;
        let h = x.headers;
        x.headers = self.merge_headers(x.uid, h);
        vec![x]
    }

    /// A response arriving: its ferried data is merged into what is stored.
    pub fn on_incoming_responses(&mut self, x: Rpc) -> (r: Vec<Rpc>)
        requires
            old(self).wf(),
        ensures
            old(self).incoming_response_done(*final(self), x@, rpcs_view(r@)),
    {
        self.store_headers(x.uid, &x.headers);
        vec![x]
    }

    /// A response leaving: its headers are merged; data that cannot be read passes the
    /// message on unchanged. Otherwise the data gets this node's height and is written back;
    /// at the root service, a match of the query (its vertex names standing for any service)
    /// adds a message to storage with the height of the service that `a` stands for.
    pub fn on_outgoing_responses(&self, x: Rpc) -> (r: Vec<Rpc>)
        requires
            self.wf(),
            self.whoami is Some,
            self.target_graph is Some,
        ensures
            self.outgoing_response_done(*self, x@, rpcs_view(r@)),
    {
        let me = match &self.whoami {
            Some(w) => w.clone(),
            None => {
                return vec![x];
            },
        };
        let target = match &self.target_graph {
            Some(t) => t,
            None => {
                return vec![x];
            },
        };
        let mut msg = x;
        let h = msg.headers;
        msg.headers = self.merge_headers(msg.uid, h);
        assert(msg@ == self.merged_rpc(x@));
        let mut fd = match read_ferried(&msg) {
            Ok(d) => d,
            Err(_) => {
                let r = vec![msg];
                assert(rpcs_view(r@)[0] == r@[0]@);
                return r;
            },
        };
        let ghost d = fd@;
        let ok = execute_udfs_and_check_trace_lvl_prop(self, &mut fd);
        proof {
            lemma_index_of_has_label(d.graph, me@);
            match udf_model(d, me@) {
                Some(m) => {
                    assert(fd@.graph.edges == d.graph.edges);
                    assert(fd@.graph.nodes.len() == d.graph.nodes.len());
                },
                None => {},
            }
        }
        assert(fd@ == reduced(d, me@));
        write_ferried(&fd, &mut msg);
        let ghost mut mr: Option<Seq<(usize, usize)>> = None;
        let mut storage: Option<Rpc> = None;
        if ok && me == "productpage-v1".to_owned() {
            let query = as_query(target);
            assert(query@.edges_in_range());
            match find_mapping_shamir_centralized(&fd.trace_graph, &query) {
                Ok(Some(m)) => {
                    proof {
                        mr = Some(m@);
                    }
                    storage = storage_message(&me, msg.uid, target, &m, &fd);
                },
                _ => {},
            }
        }
        assert(target@ == self.target_graph.unwrap()@);
        let r = match storage {
            Some(st) => vec![msg, st],
            None => vec![msg],
        };
        assert(rpcs_view(r@)[0] == r@[0]@);
        assert(r@.len() == 2 ==> rpcs_view(r@)[1] == r@[1]@);
        assert(self.response_outcome(x@, d, mr, rpcs_view(r@)));
        r
    }

    /// Runs the hook that the message's direction and location select, after setting the
    /// filter up on first use.
    pub fn execute(&mut self, x: &Rpc) -> (r: Vec<Rpc>)
        requires
            old(self).wf(),
            old(self).whoami is Some || attr_get(map_items(old(self).filter_state), workload_key()) is Some,
            x@.header("direction"@) == Some("request"@) || x@.header("direction"@) == Some("response"@),
            x@.header("location"@) == Some("ingress"@) || x@.header("location"@) == Some("egress"@),
        ensures
            final(self).wf(),
            final(self).whoami is Some,
            final(self).target_graph is Some,
            1 <= r@.len() <= 2,
            old(self).executes(*final(self), x@, rpcs_view(r@)),
    {
        self.init_filter();
        let ghost mid = *self;
        assert(old(self).initialized(mid));
        let direction = x.header("direction");
        let location = x.header("location");
        let request = match &direction {
            Some(d) => *d == "request".to_owned(),
            None => false,
        };
        let ingress = match &location {
            Some(l) => *l == "ingress".to_owned(),
            None => false,
        };
        proof {
            reveal_strlit("request");
            reveal_strlit("response");
            reveal_strlit("ingress");
            reveal_strlit("egress");
            assert("request"@.len() != "response"@.len());
            assert("ingress"@ != "egress"@) by {
                assert("ingress"@.len() != "egress"@.len());
            }
        }
        if request {
            if ingress {
                self.on_incoming_requests(x.duplicate())
            } else {
                self.on_outgoing_requests(x.duplicate())
            }
        } else {
            if ingress {
                self.on_incoming_responses(x.duplicate())
            } else {
                self.on_outgoing_responses(x.duplicate())
            }
        }
    }
}

} // verus!
