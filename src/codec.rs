//! Text form of ferried data, as carried in the `ferried_data` header:
//! `{"trace_graph":{"nodes":[...],"edges":[...]},"unassigned_properties":[...]}` where a node
//! is `["label",[["key","value"],...]]`, an edge `[from,to]` with node indices, and an
//! observation `["label","key","value"]`. Inside quotes, `"` and `\` are preceded by `\`.
use vstd::prelude::*;
use crate::ferried::{triples_view, FerriedData, FerriedModel, TripleModel};
use crate::graph::{attrs_view, nodes_view, AttrGraph, AttrsModel, GraphNode, NodeModel};

verus! {

#[derive(PartialEq, Eq, Structural, Clone, Copy, Debug)]
pub enum DecodeError {
    /// The text is not the encoding of any ferried data.
    Malformed,
}

/// Relies on `String::push`: appends the character to the end of the string.
#[verifier::external_body]
fn push_char(s: &mut String, c: char)
    ensures
        final(s)@ == old(s)@.push(c),
{
    s.push(c)
}

/// The characters of `s`, in order.
pub fn chars_of_str(s: &str) -> (r: Vec<char>)
    ensures
        r@ == s@,
{
    chars_of(s)
}

fn chars_of(s: &str) -> (r: Vec<char>)
    ensures
        r@ == s@,
{
    let n = s.unicode_len();
    let mut r: Vec<char> = Vec::new();
    let mut i: usize = 0;
    while i < n
        invariant
            i <= n,
            n == s@.len(),
            r@ == s@.take(i as int),
        decreases n - i,
    {
        r.push(s.get_char(i));
        assert(r@ =~= s@.take(i + 1));
        i += 1;
    }
    assert(s@.take(n as int) =~= s@);
    r
}

pub open spec fn esc_char(c: char) -> Seq<char> {
    if c == '"' || c == '\\' {
        seq!['\\', c]
    } else {
        seq![c]
    }
}

pub open spec fn esc(s: Seq<char>) -> Seq<char>
    decreases s.len(),
{
    if s.len() == 0 {
        Seq::empty()
    } else {
        esc(s.drop_last()) + esc_char(s.last())
    }
}

pub open spec fn enc_str(s: Seq<char>) -> Seq<char> {
    seq!['"'] + esc(s) + seq!['"']
}

pub open spec fn digit_char(d: nat) -> char {
    if d == 0 {
        '0'
    } else if d == 1 {
        '1'
    } else if d == 2 {
        '2'
    } else if d == 3 {
        '3'
    } else if d == 4 {
        '4'
    } else if d == 5 {
        '5'
    } else if d == 6 {
        '6'
    } else if d == 7 {
        '7'
    } else if d == 8 {
        '8'
    } else {
        '9'
    }
}

pub open spec fn enc_nat(n: nat) -> Seq<char>
    decreases n,
{
    if n < 10 {
        seq![digit_char(n)]
    } else {
        enc_nat(n / 10).push(digit_char(n % 10))
    }
}

/// The items separated by commas.
pub open spec fn join(items: Seq<Seq<char>>) -> Seq<char>
    decreases items.len(),
{
    if items.len() == 0 {
        Seq::empty()
    } else if items.len() == 1 {
        items[0]
    } else {
        join(items.drop_last()) + seq![','] + items.last()
    }
}

pub open spec fn enc_list(items: Seq<Seq<char>>) -> Seq<char> {
    seq!['['] + join(items) + seq![']']
}

pub open spec fn enc_attr(p: (Seq<char>, Seq<char>)) -> Seq<char> {
    enc_list(seq![enc_str(p.0), enc_str(p.1)])
}

pub open spec fn enc_attrs(a: AttrsModel) -> Seq<char> {
    enc_list(a.map_values(|p: (Seq<char>, Seq<char>)| enc_attr(p)))
}

pub open spec fn enc_node(n: NodeModel) -> Seq<char> {
    enc_list(seq![enc_str(n.0), enc_attrs(n.1)])
}

pub open spec fn enc_edge(e: (usize, usize)) -> Seq<char> {
    enc_list(seq![enc_nat(e.0 as nat), enc_nat(e.1 as nat)])
}

pub open spec fn enc_triple(t: TripleModel) -> Seq<char> {
    enc_list(seq![enc_str(t.0), enc_str(t.1), enc_str(t.2)])
}

pub open spec fn enc_nodes(ns: Seq<NodeModel>) -> Seq<char> {
    enc_list(ns.map_values(|n: NodeModel| enc_node(n)))
}

pub open spec fn enc_edges(es: Seq<(usize, usize)>) -> Seq<char> {
    enc_list(es.map_values(|e: (usize, usize)| enc_edge(e)))
}

pub open spec fn enc_triples(ts: Seq<TripleModel>) -> Seq<char> {
    enc_list(ts.map_values(|t: TripleModel| enc_triple(t)))
}

/// The text form of ferried data.
pub open spec fn encode_model(fd: FerriedModel) -> Seq<char> {
    "{\"trace_graph\":{\"nodes\":"@ + enc_nodes(fd.graph.nodes) + ",\"edges\":"@ + enc_edges(
        fd.graph.edges,
    ) + "},\"unassigned_properties\":"@ + enc_triples(fd.props) + "}"@
}

fn write_str(out: &mut String, s: &String)
    ensures
        final(out)@ == old(out)@ + enc_str(s@),
{
    let cs = chars_of(s.as_str());
    push_char(out, '"');
    let mut i: usize = 0;
    while i < cs.len()
        invariant
            i <= cs@.len(),
            cs@ == s@,
            out@ == old(out)@ + seq!['"'] + esc(cs@.take(i as int)),
        decreases cs@.len() - i,
    {
        let c = cs[i];
        assert(cs@.take(i + 1).drop_last() =~= cs@.take(i as int));
        if c == '"' || c == '\\' {
            push_char(out, '\\');
        }
        push_char(out, c);
        assert(out@ =~= old(out)@ + seq!['"'] + esc(cs@.take(i + 1)));
        i += 1;
    }
    assert(cs@.take(i as int) =~= s@);
    push_char(out, '"');
    assert(out@ =~= old(out)@ + enc_str(s@));
}

fn digit(d: usize) -> (c: char)
    requires
        d < 10,
    ensures
        c == digit_char(d as nat),
{
    if d == 0 {
        '0'
    } else if d == 1 {
        '1'
    } else if d == 2 {
        '2'
    } else if d == 3 {
        '3'
    } else if d == 4 {
        '4'
    } else if d == 5 {
        '5'
    } else if d == 6 {
        '6'
    } else if d == 7 {
        '7'
    } else if d == 8 {
        '8'
    } else {
        '9'
    }
}

fn write_nat(out: &mut String, n: usize)
    ensures
        final(out)@ == old(out)@ + enc_nat(n as nat),
    decreases n,
{
    if n < 10 {
        push_char(out, digit(n));
        assert(out@ =~= old(out)@ + enc_nat(n as nat));
    } else {
        write_nat(out, n / 10);
        push_char(out, digit(n % 10));
        assert(out@ =~= old(out)@ + enc_nat(n as nat));
    }
}

/// The decimal form of `n`.
pub fn u64_to_string(n: u64) -> (r: String)
    ensures
        r@ == enc_nat(n as nat),
{
    let mut out = String::new();
    write_u64(&mut out, n);
    assert(out@ =~= enc_nat(n as nat));
    out
}

fn write_u64(out: &mut String, n: u64)
    ensures
        final(out)@ == old(out)@ + enc_nat(n as nat),
    decreases n,
{
    if n < 10 {
        push_char(out, digit(n as usize));
        assert(out@ =~= old(out)@ + enc_nat(n as nat));
    } else {
        write_u64(out, n / 10);
        push_char(out, digit((n % 10) as usize));
        assert(out@ =~= old(out)@ + enc_nat(n as nat));
    }
}

proof fn lemma_join_push(items: Seq<Seq<char>>, x: Seq<char>)
    ensures
        join(items.push(x)) == if items.len() == 0 {
            x
        } else {
            join(items) + seq![','] + x
        },
{
    assert(items.push(x).drop_last() =~= items);
}

fn write_attrs(out: &mut String, a: &Vec<(String, String)>)
    ensures
        final(out)@ == old(out)@ + enc_attrs(attrs_view(a@)),
{
    let ghost av = attrs_view(a@);
    push_char(out, '[');
    let mut i: usize = 0;
    while i < a.len()
        invariant
            i <= a@.len(),
            av == attrs_view(a@),
            out@ == old(out)@ + seq!['['] + join(
                av.take(i as int).map_values(|p: (Seq<char>, Seq<char>)| enc_attr(p)),
            ),
        decreases a@.len() - i,
    {
        let ghost before = out@;
        if i > 0 {
            push_char(out, ',');
        }
        push_char(out, '[');
        write_str(out, &a[i].0);
        push_char(out, ',');
        write_str(out, &a[i].1);
        push_char(out, ']');
        proof {
            let f = |p: (Seq<char>, Seq<char>)| enc_attr(p);
            let prev = av.take(i as int).map_values(f);
            assert(av.take(i + 1).map_values(f) =~= prev.push(enc_attr(av[i as int])));
            lemma_join_push(prev, enc_attr(av[i as int]));
            assert(join(seq![enc_str(av[i as int].0), enc_str(av[i as int].1)]) =~= enc_str(
                av[i as int].0,
            ) + seq![','] + enc_str(av[i as int].1)) by {
                lemma_join_push(seq![enc_str(av[i as int].0)], enc_str(av[i as int].1));
                assert(seq![enc_str(av[i as int].0)].push(enc_str(av[i as int].1)) =~= seq![
                    enc_str(av[i as int].0),
                    enc_str(av[i as int].1),
                ]);
            }
            assert(out@ =~= old(out)@ + seq!['['] + join(av.take(i + 1).map_values(f)));
        }
        i += 1;
    }
    assert(av.take(i as int) =~= av);
    push_char(out, ']');
    assert(out@ =~= old(out)@ + enc_attrs(av));
}

proof fn lemma_enc_list2(a: Seq<char>, b: Seq<char>)
    ensures
        enc_list(seq![a, b]) == seq!['['] + a + seq![','] + b + seq![']'],
{
    lemma_join_push(seq![a], b);
    assert(seq![a].push(b) =~= seq![a, b]);
    assert(enc_list(seq![a, b]) =~= seq!['['] + a + seq![','] + b + seq![']']);
}

proof fn lemma_enc_list3(a: Seq<char>, b: Seq<char>, c: Seq<char>)
    ensures
        enc_list(seq![a, b, c]) == seq!['['] + a + seq![','] + b + seq![','] + c + seq![']'],
{
    lemma_join_push(seq![a], b);
    assert(seq![a].push(b) =~= seq![a, b]);
    lemma_join_push(seq![a, b], c);
    assert(seq![a, b].push(c) =~= seq![a, b, c]);
    assert(enc_list(seq![a, b, c]) =~= seq!['['] + a + seq![','] + b + seq![','] + c + seq![']']);
}

fn write_node(out: &mut String, n: &GraphNode)
    ensures
        final(out)@ == old(out)@ + enc_node(n@),
{
    push_char(out, '[');
    write_str(out, &n.label);
    push_char(out, ',');
    write_attrs(out, &n.attrs);
    push_char(out, ']');
    proof {
        lemma_enc_list2(enc_str(n@.0), enc_attrs(n@.1));
    }
    assert(out@ =~= old(out)@ + enc_node(n@));
}

fn write_nodes(out: &mut String, ns: &Vec<GraphNode>)
    ensures
        final(out)@ == old(out)@ + enc_nodes(nodes_view(ns@)),
{
    let ghost nv = nodes_view(ns@);
    push_char(out, '[');
    let mut i: usize = 0;
    while i < ns.len()
        invariant
            i <= ns@.len(),
            nv == nodes_view(ns@),
            out@ == old(out)@ + seq!['['] + join(nv.take(i as int).map_values(|n: NodeModel| enc_node(n))),
        decreases ns@.len() - i,
    {
        if i > 0 {
            push_char(out, ',');
        }
        write_node(out, &ns[i]);
        proof {
            let f = |n: NodeModel| enc_node(n);
            let prev = nv.take(i as int).map_values(f);
            assert(nv.take(i + 1).map_values(f) =~= prev.push(enc_node(nv[i as int])));
            lemma_join_push(prev, enc_node(nv[i as int]));
            assert(out@ =~= old(out)@ + seq!['['] + join(nv.take(i + 1).map_values(f)));
        }
        i += 1;
    }
    assert(nv.take(i as int) =~= nv);
    push_char(out, ']');
    assert(out@ =~= old(out)@ + enc_nodes(nv));
}

fn write_edges(out: &mut String, es: &Vec<(usize, usize)>)
    ensures
        final(out)@ == old(out)@ + enc_edges(es@),
{
    push_char(out, '[');
    let mut i: usize = 0;
    while i < es.len()
        invariant
            i <= es@.len(),
            out@ == old(out)@ + seq!['['] + join(es@.take(i as int).map_values(|e: (usize, usize)| enc_edge(e))),
        decreases es@.len() - i,
    {
        if i > 0 {
            push_char(out, ',');
        }
        let e = es[i];
        push_char(out, '[');
        write_nat(out, e.0);
        push_char(out, ',');
        write_nat(out, e.1);
        push_char(out, ']');
        proof {
            let f = |e: (usize, usize)| enc_edge(e);
            let prev = es@.take(i as int).map_values(f);
            assert(es@.take(i + 1).map_values(f) =~= prev.push(enc_edge(es@[i as int])));
            lemma_join_push(prev, enc_edge(e));
            lemma_enc_list2(enc_nat(e.0 as nat), enc_nat(e.1 as nat));
            assert(out@ =~= old(out)@ + seq!['['] + join(es@.take(i + 1).map_values(f)));
        }
        i += 1;
    }
    assert(es@.take(i as int) =~= es@);
    push_char(out, ']');
    assert(out@ =~= old(out)@ + enc_edges(es@));
}

fn write_triples(out: &mut String, ts: &Vec<(String, String, String)>)
    ensures
        final(out)@ == old(out)@ + enc_triples(triples_view(ts@)),
{
    let ghost tv = triples_view(ts@);
    push_char(out, '[');
    let mut i: usize = 0;
    while i < ts.len()
        invariant
            i <= ts@.len(),
            tv == triples_view(ts@),
            out@ == old(out)@ + seq!['['] + join(tv.take(i as int).map_values(|t: TripleModel| enc_triple(t))),
        decreases ts@.len() - i,
    {
        if i > 0 {
            push_char(out, ',');
        }
        push_char(out, '[');
        write_str(out, &ts[i].0);
        push_char(out, ',');
        write_str(out, &ts[i].1);
        push_char(out, ',');
        write_str(out, &ts[i].2);
        push_char(out, ']');
        proof {
            let f = |t: TripleModel| enc_triple(t);
            let prev = tv.take(i as int).map_values(f);
            assert(tv.take(i + 1).map_values(f) =~= prev.push(enc_triple(tv[i as int])));
            lemma_join_push(prev, enc_triple(tv[i as int]));
            lemma_enc_list3(enc_str(tv[i as int].0), enc_str(tv[i as int].1), enc_str(tv[i as int].2));
            assert(out@ =~= old(out)@ + seq!['['] + join(tv.take(i + 1).map_values(f)));
        }
        i += 1;
    }
    assert(tv.take(i as int) =~= tv);
    push_char(out, ']');
    assert(out@ =~= old(out)@ + enc_triples(tv));
}

/// The text form of `fd`.
pub fn encode_ferried(fd: &FerriedData) -> (r: String)
    ensures
        r@ == encode_model(fd@),
{
    let mut out = String::new();
    out.append("{\"trace_graph\":{\"nodes\":");
    write_nodes(&mut out, &fd.trace_graph.nodes);
    out.append(",\"edges\":");
    write_edges(&mut out, &fd.trace_graph.edges);
    out.append("},\"unassigned_properties\":");
    write_triples(&mut out, &fd.unassigned_properties);
    out.append("}");
    assert(out@ =~= encode_model(fd@));
    out
}

/// `e` stands in `inp` at `pos`.
pub open spec fn fits(inp: Seq<char>, pos: int, e: Seq<char>) -> bool {
    0 <= pos && pos + e.len() <= inp.len() && inp.subrange(pos, pos + e.len()) == e
}

proof fn lemma_esc_append(a: Seq<char>, b: Seq<char>)
    ensures
        esc(a + b) == esc(a) + esc(b),
    decreases b.len(),
{
    if b.len() == 0 {
        assert(a + b =~= a);
        assert(esc(a) + esc(b) =~= esc(a));
    } else {
        lemma_esc_append(a, b.drop_last());
        assert((a + b).drop_last() =~= a + b.drop_last());
        assert(esc(a + b) =~= esc(a) + esc(b));
    }
}

proof fn lemma_esc_one(c: char)
    ensures
        esc(seq![c]) == esc_char(c),
{
    assert(seq![c].drop_last() =~= Seq::<char>::empty());
    assert(esc(Seq::<char>::empty()) =~= Seq::<char>::empty());
    assert(seq![c].last() == c);
    assert(esc(seq![c]) =~= esc_char(c));
}

/// Where the `k`-th character of `t` lies in the encoding of `t` at `pos`.
proof fn lemma_str_step(inp: Seq<char>, pos: int, t: Seq<char>, k: int)
    requires
        fits(inp, pos, enc_str(t)),
        0 <= k <= t.len(),
    ensures
        pos + 1 + esc(t.take(k)).len() < inp.len(),
        k == t.len() ==> inp[pos + 1 + esc(t.take(k)).len()] == '"',
        k < t.len() ==> esc(t.take(k + 1)).len() == esc(t.take(k)).len() + esc_char(t[k]).len(),
        k < t.len() && (t[k] == '"' || t[k] == '\\') ==> inp[pos + 1 + esc(t.take(k)).len()] == '\\'
            && inp[pos + 2 + esc(t.take(k)).len()] == t[k] && pos + 2 + esc(t.take(k)).len() < inp.len(),
        k < t.len() && !(t[k] == '"' || t[k] == '\\') ==> inp[pos + 1 + esc(t.take(k)).len()] == t[k],
{
    let e = enc_str(t);
    let i = esc(t.take(k)).len() as int;
    assert(t =~= t.take(k) + t.skip(k));
    lemma_esc_append(t.take(k), t.skip(k));
    assert(forall|j: int| 0 <= j < e.len() ==> inp[pos + j] == #[trigger] e[j]) by {
        assert forall|j: int| 0 <= j < e.len() implies inp[pos + j] == #[trigger] e[j] by {
            assert(inp.subrange(pos, pos + e.len())[j] == inp[pos + j]);
        }
    }
    if k < t.len() {
        let c = t[k];
        assert(t.skip(k) =~= seq![c] + t.skip(k + 1));
        lemma_esc_append(seq![c], t.skip(k + 1));
        lemma_esc_one(c);
        assert(t.take(k + 1) =~= t.take(k) + seq![c]);
        lemma_esc_append(t.take(k), seq![c]);
        assert(e[1 + i] == esc_char(c)[0]);
        if c == '"' || c == '\\' {
            assert(e[2 + i] == esc_char(c)[1]);
        }
    } else {
        assert(t.skip(k) =~= Seq::<char>::empty());
        assert(esc(t.skip(k)) =~= Seq::<char>::empty());
        assert(e[1 + i] == '"');
    }
}

proof fn lemma_fits_concat(inp: Seq<char>, pos: int, a: Seq<char>, b: Seq<char>)
    requires
        fits(inp, pos, a + b),
    ensures
        fits(inp, pos, a),
        fits(inp, pos + a.len(), b),
{
    assert(inp.subrange(pos, pos + a.len()) =~= inp.subrange(pos, pos + (a + b).len()).subrange(0, a.len() as int));
    assert((a + b).subrange(0, a.len() as int) =~= a);
    assert(inp.subrange(pos + a.len(), pos + a.len() + b.len()) =~= inp.subrange(pos, pos + (a + b).len()).subrange(
        a.len() as int,
        (a + b).len() as int,
    ));
    assert((a + b).subrange(a.len() as int, (a + b).len() as int) =~= b);
}

proof fn lemma_fits_char(inp: Seq<char>, pos: int, c: char)
    requires
        fits(inp, pos, seq![c]),
    ensures
        pos < inp.len() && inp[pos] == c,
{
    assert(inp.subrange(pos, pos + 1)[0] == inp[pos]);
}

/// The pieces of `[a,b]` at `pos`.
proof fn lemma_fits_pair(inp: Seq<char>, pos: int, a: Seq<char>, b: Seq<char>)
    requires
        fits(inp, pos, enc_list(seq![a, b])),
    ensures
        pos < inp.len() && inp[pos] == '[',
        fits(inp, pos + 1, a),
        pos + 1 + a.len() < inp.len() && inp[pos + 1 + a.len()] == ',',
        fits(inp, pos + 2 + a.len(), b),
        pos + 2 + a.len() + b.len() < inp.len() && inp[pos + 2 + a.len() + b.len()] == ']',
        enc_list(seq![a, b]).len() == 3 + a.len() + b.len(),
{
    lemma_enc_list2(a, b);
    let x1 = seq!['['];
    let x2 = x1 + a;
    let x3 = x2 + seq![','];
    let x4 = x3 + b;
    assert(enc_list(seq![a, b]) == x4 + seq![']']);
    lemma_fits_concat(inp, pos, x4, seq![']']);
    lemma_fits_concat(inp, pos, x3, b);
    lemma_fits_concat(inp, pos, x2, seq![',']);
    lemma_fits_concat(inp, pos, x1, a);
    lemma_fits_char(inp, pos, '[');
    lemma_fits_char(inp, pos + x2.len(), ',');
    lemma_fits_char(inp, pos + x4.len(), ']');
}

/// The pieces of `[a,b,c]` at `pos`.
proof fn lemma_fits_triple(inp: Seq<char>, pos: int, a: Seq<char>, b: Seq<char>, c: Seq<char>)
    requires
        fits(inp, pos, enc_list(seq![a, b, c])),
    ensures
        pos < inp.len() && inp[pos] == '[',
        fits(inp, pos + 1, a),
        pos + 1 + a.len() < inp.len() && inp[pos + 1 + a.len()] == ',',
        fits(inp, pos + 2 + a.len(), b),
        pos + 2 + a.len() + b.len() < inp.len() && inp[pos + 2 + a.len() + b.len()] == ',',
        fits(inp, pos + 3 + a.len() + b.len(), c),
        pos + 3 + a.len() + b.len() + c.len() < inp.len() && inp[pos + 3 + a.len() + b.len() + c.len()] == ']',
        enc_list(seq![a, b, c]).len() == 4 + a.len() + b.len() + c.len(),
{
    lemma_enc_list3(a, b, c);
    let x1 = seq!['['];
    let x2 = x1 + a;
    let x3 = x2 + seq![','];
    let x4 = x3 + b;
    let x5 = x4 + seq![','];
    let x6 = x5 + c;
    assert(enc_list(seq![a, b, c]) == x6 + seq![']']);
    lemma_fits_concat(inp, pos, x6, seq![']']);
    lemma_fits_concat(inp, pos, x5, c);
    lemma_fits_concat(inp, pos, x4, seq![',']);
    lemma_fits_concat(inp, pos, x3, b);
    lemma_fits_concat(inp, pos, x2, seq![',']);
    lemma_fits_concat(inp, pos, x1, a);
    lemma_fits_char(inp, pos, '[');
    lemma_fits_char(inp, pos + x2.len(), ',');
    lemma_fits_char(inp, pos + x4.len(), ',');
    lemma_fits_char(inp, pos + x6.len(), ']');
}

proof fn lemma_join_prefix(e: Seq<Seq<char>>, m: int)
    requires
        1 <= m <= e.len(),
    ensures
        join(e.take(m)).len() <= join(e).len(),
        join(e).take(join(e.take(m)).len() as int) == join(e.take(m)),
        m < e.len() ==> join(e.take(m)).len() < join(e).len() && join(e)[join(e.take(m)).len() as int] == ',',
    decreases e.len() - m,
{
    if m == e.len() {
        assert(e.take(m) =~= e);
        assert(join(e).take(join(e).len() as int) =~= join(e));
    } else {
        lemma_join_prefix(e, m + 1);
        assert(e.take(m + 1) =~= e.take(m).push(e[m]));
        lemma_join_push(e.take(m), e[m]);
        let big = join(e.take(m + 1));
        let small = join(e.take(m));
        assert(big == small + seq![','] + e[m]);
        assert(join(e).take(small.len() as int) =~= big.take(small.len() as int));
        assert(big.take(small.len() as int) =~= small);
        assert(join(e)[small.len() as int] == big[small.len() as int]);
    }
}

/// Where the `k`-th item of a list that stands at `pos` lies, and what follows it.
proof fn lemma_list_item(inp: Seq<char>, pos: int, e: Seq<Seq<char>>, k: int)
    requires
        fits(inp, pos, enc_list(e)),
        0 <= k < e.len(),
    ensures
        fits(inp, pos + 1 + join(e.take(k)).len() + if k > 0 {
            1int
        } else {
            0
        }, e[k]),
        pos + 1 + join(e.take(k)).len() + (if k > 0 {
            1int
        } else {
            0
        }) + e[k].len() == pos + 1 + join(e.take(k + 1)).len(),
        pos + 1 + join(e.take(k + 1)).len() < inp.len(),
        k + 1 < e.len() ==> inp[pos + 1 + join(e.take(k + 1)).len()] == ',',
        k + 1 == e.len() ==> inp[pos + 1 + join(e.take(k + 1)).len()] == ']' && pos + 2 + join(
            e.take(k + 1),
        ).len() == pos + enc_list(e).len(),
{
    let whole = enc_list(e);
    assert(e.take(k + 1) =~= e.take(k).push(e[k]));
    lemma_join_push(e.take(k), e[k]);
    lemma_join_prefix(e, k + 1);
    let jk1 = join(e.take(k + 1));
    let off: int = if k > 0 {
        1
    } else {
        0
    };
    let start = 1 + join(e.take(k)).len() + off;
    assert(forall|j: int| 0 <= j < whole.len() ==> inp[pos + j] == #[trigger] whole[j]) by {
        assert forall|j: int| 0 <= j < whole.len() implies inp[pos + j] == #[trigger] whole[j] by {
            assert(inp.subrange(pos, pos + whole.len())[j] == inp[pos + j]);
        }
    }
    assert(forall|j: int| 0 <= j < jk1.len() ==> #[trigger] whole[1 + j] == jk1[j]) by {
        assert forall|j: int| 0 <= j < jk1.len() implies #[trigger] whole[1 + j] == jk1[j] by {
            assert(join(e).take(jk1.len() as int)[j] == jk1[j]);
        }
    }
    assert(inp.subrange(pos + start, pos + start + e[k].len()) =~= e[k]) by {
        assert forall|j: int| 0 <= j < e[k].len() implies #[trigger] inp.subrange(pos + start, pos + start + e[k].len())[j]
            == e[k][j] by {
            assert(jk1[start - 1 + j] == e[k][j]);
            assert(whole[start + j] == jk1[start - 1 + j]);
        }
    }
    if k + 1 < e.len() {
        assert(whole == seq!['['] + join(e) + seq![']']);
        assert(whole[1 + jk1.len() as int] == join(e)[jk1.len() as int]);
    } else {
        assert(e.take(k + 1) =~= e);
        assert(whole[1 + jk1.len() as int] == ']');
    }
}

proof fn lemma_list_empty(inp: Seq<char>, pos: int, e: Seq<Seq<char>>)
    requires
        fits(inp, pos, enc_list(e)),
        e.len() > 0 ==> e[0].len() > 0 && e[0][0] == '[',
    ensures
        pos < inp.len() && inp[pos] == '[',
        pos + 1 < inp.len(),
        (inp[pos + 1] == ']') == (e.len() == 0),
        e.len() == 0 ==> enc_list(e).len() == 2,
{
    let whole = enc_list(e);
    assert(inp.subrange(pos, pos + whole.len())[0] == inp[pos]);
    if e.len() == 0 {
        assert(whole =~= seq!['[', ']']);
        assert(inp.subrange(pos, pos + whole.len())[1] == inp[pos + 1]);
    } else {
        lemma_list_item(inp, pos, e, 0);
        assert(e.take(0) =~= Seq::<Seq<char>>::empty());
        assert(inp.subrange(pos + 1, pos + 1 + e[0].len())[0] == inp[pos + 1]);
    }
}

fn at(inp: &Vec<char>, i: usize, c: char) -> (r: bool)
    ensures
        r == (i < inp@.len() && inp@[i as int] == c),
        inp@.len() <= usize::MAX,
{
    i < inp.len() && inp[i] == c
}

/// Matches the literal `lit` at `pos`.
fn expect_lit(inp: &Vec<char>, pos: usize, lit: &str) -> (r: Option<usize>)
    ensures
        r matches Some(p) ==> pos <= p <= inp@.len() && inp@.subrange(pos as int, p as int) == lit@,
        fits(inp@, pos as int, lit@) ==> r == Some((pos + lit@.len()) as usize),
{
    let lc = chars_of(lit);
    if pos > inp.len() || lc.len() > inp.len() - pos {
        return None;
    }
    proof {
        if fits(inp@, pos as int, lit@) {
            assert forall|x: int| 0 <= x < lc@.len() implies inp@[pos + x] == #[trigger] lc@[x] by {
                assert(inp@.subrange(pos as int, pos + lc@.len())[x] == inp@[pos + x]);
            }
        }
    }
    let mut j: usize = 0;
    while j < lc.len()
        invariant
            j <= lc@.len(),
            pos + lc@.len() <= inp@.len(),
            inp@.len() <= usize::MAX,
            lc@ == lit@,
            forall|x: int| 0 <= x < j ==> inp@[pos + x] == #[trigger] lc@[x],
            fits(inp@, pos as int, lit@) ==> forall|x: int| 0 <= x < lc@.len() ==> inp@[pos + x] == #[trigger] lc@[x],
        decreases lc@.len() - j,
    {
        if inp[pos + j] != lc[j] {
            return None;
        }
        j += 1;
    }
    assert(inp@.subrange(pos as int, pos + lc@.len()) =~= lc@);
    Some(pos + lc.len())
}

fn parse_str(inp: &Vec<char>, pos: usize) -> (r: Option<(String, usize)>)
    ensures
        r matches Some((s, p)) ==> pos <= p <= inp@.len() && inp@.subrange(pos as int, p as int) == enc_str(s@),
        forall|t: Seq<char>| #[trigger] fits(inp@, pos as int, enc_str(t)) ==> (r matches Some((s, p)) && s@ == t
            && p == pos + enc_str(t).len()),
{
    if !at(inp, pos, '"') {
        proof {
            assert forall|t: Seq<char>| #[trigger] fits(inp@, pos as int, enc_str(t)) implies false by {
                assert(inp@.subrange(pos as int, pos + enc_str(t).len())[0] == enc_str(t)[0]);
            }
        }
        return None;
    }
    let mut acc = String::new();
    let mut i: usize = pos + 1;
    proof {
        assert forall|t: Seq<char>| #[trigger] fits(inp@, pos as int, enc_str(t)) implies acc@ == t.take(0) && i == pos
            + 1 + esc(t.take(0)).len() by {
            assert(t.take(0) =~= Seq::<char>::empty());
            assert(acc@ =~= Seq::<char>::empty());
        }
    }
    while i < inp.len()
        invariant
            pos < i <= inp@.len(),
            inp@[pos as int] == '"',
            inp@.subrange(pos + 1, i as int) == esc(acc@),
            forall|t: Seq<char>| #[trigger] fits(inp@, pos as int, enc_str(t)) ==> acc@.len() <= t.len() && acc@ == t.take(
                acc@.len() as int,
            ) && i == pos + 1 + esc(t.take(acc@.len() as int)).len(),
        decreases inp@.len() - i,
    {
        let c = inp[i];
        if c == '"' {
            assert(inp@.subrange(pos as int, i + 1) =~= seq!['"'] + inp@.subrange(pos + 1, i as int) + seq!['"']);
            proof {
                assert forall|t: Seq<char>| #[trigger] fits(inp@, pos as int, enc_str(t)) implies acc@ == t && i + 1
                    == pos + enc_str(t).len() by {
                    let k = acc@.len() as int;
                    lemma_str_step(inp@, pos as int, t, k);
                    if k < t.len() {
                        assert(false);
                    }
                    assert(t.take(k) =~= t);
                }
            }
            return Some((acc, i + 1));
        }
        let ghost before = acc@;
        if c == '\\' {
            if i + 1 >= inp.len() {
                proof {
                    assert forall|t: Seq<char>| #[trigger] fits(inp@, pos as int, enc_str(t)) implies false by {
                        lemma_str_step(inp@, pos as int, t, acc@.len() as int);
                    }
                }
                return None;
            }
            let d = inp[i + 1];
            if d != '"' && d != '\\' {
                proof {
                    assert forall|t: Seq<char>| #[trigger] fits(inp@, pos as int, enc_str(t)) implies false by {
                        lemma_str_step(inp@, pos as int, t, acc@.len() as int);
                    }
                }
                return None;
            }
            push_char(&mut acc, d);
            assert(acc@.drop_last() =~= before);
            assert(inp@.subrange(pos + 1, i + 2) =~= inp@.subrange(pos + 1, i as int) + seq!['\\', d]);
            proof {
                assert forall|t: Seq<char>| #[trigger] fits(inp@, pos as int, enc_str(t)) implies acc@.len() <= t.len()
                    && acc@ == t.take(acc@.len() as int) && i + 2 == pos + 1 + esc(t.take(acc@.len() as int)).len() by {
                    let k = before.len() as int;
                    lemma_str_step(inp@, pos as int, t, k);
                    assert(k < t.len());
                    assert(t.take(k + 1) =~= t.take(k).push(t[k]));
                }
            }
            i = i + 2;
        } else {
            push_char(&mut acc, c);
            assert(acc@.drop_last() =~= before);
            assert(inp@.subrange(pos + 1, i + 1) =~= inp@.subrange(pos + 1, i as int) + seq![c]);
            proof {
                assert forall|t: Seq<char>| #[trigger] fits(inp@, pos as int, enc_str(t)) implies acc@.len() <= t.len()
                    && acc@ == t.take(acc@.len() as int) && i + 1 == pos + 1 + esc(t.take(acc@.len() as int)).len() by {
                    let k = before.len() as int;
                    lemma_str_step(inp@, pos as int, t, k);
                    assert(k < t.len());
                    assert(t.take(k + 1) =~= t.take(k).push(t[k]));
                }
            }
            i = i + 1;
        }
    }
    proof {
        assert forall|t: Seq<char>| #[trigger] fits(inp@, pos as int, enc_str(t)) implies false by {
            lemma_str_step(inp@, pos as int, t, acc@.len() as int);
        }
    }
    None
}

pub open spec fn is_digit(c: char) -> bool {
    c == '0' || c == '1' || c == '2' || c == '3' || c == '4' || c == '5' || c == '6' || c == '7' || c == '8'
        || c == '9'
}

pub open spec fn digit_num(c: char) -> nat {
    if c == '1' {
        1
    } else if c == '2' {
        2
    } else if c == '3' {
        3
    } else if c == '4' {
        4
    } else if c == '5' {
        5
    } else if c == '6' {
        6
    } else if c == '7' {
        7
    } else if c == '8' {
        8
    } else if c == '9' {
        9
    } else {
        0
    }
}

/// The value of a string of decimal digits.
pub open spec fn dval(s: Seq<char>) -> nat
    decreases s.len(),
{
    if s.len() == 0 {
        0
    } else {
        dval(s.drop_last()) * 10 + digit_num(s.last())
    }
}

proof fn lemma_digit_num(d: nat)
    requires
        d < 10,
    ensures
        digit_num(digit_char(d)) == d,
        is_digit(digit_char(d)),
        digit_char(d) == '0' <==> d == 0,
{
    if d == 0 {
    } else if d == 1 {
    } else if d == 2 {
    } else if d == 3 {
    } else if d == 4 {
    } else if d == 5 {
    } else if d == 6 {
    } else if d == 7 {
    } else if d == 8 {
    } else {
        assert(d == 9);
    }
}

proof fn lemma_enc_nat(n: nat)
    ensures
        enc_nat(n).len() >= 1,
        forall|j: int| 0 <= j < enc_nat(n).len() ==> is_digit(#[trigger] enc_nat(n)[j]),
        dval(enc_nat(n)) == n,
        enc_nat(n)[0] == '0' ==> n == 0,
    decreases n,
{
    if n < 10 {
        lemma_digit_num(n);
        assert(seq![digit_char(n)].drop_last() =~= Seq::<char>::empty());
        assert(dval(Seq::<char>::empty()) == 0);
    } else {
        lemma_digit_num(n % 10);
        lemma_enc_nat(n / 10);
        let p = enc_nat(n / 10);
        let e = enc_nat(n);
        assert(e.drop_last() =~= p);
        assert(n == (n / 10) * 10 + n % 10) by (nonlinear_arith);
        assert(n / 10 >= 1) by (nonlinear_arith)
            requires
                n >= 10,
        ;
        assert forall|j: int| 0 <= j < e.len() implies is_digit(#[trigger] e[j]) by {
            if j < p.len() {
                assert(e[j] == p[j]);
            }
        }
        assert(e[0] == p[0]);
    }
}

proof fn lemma_dval_prefix(s: Seq<char>, k: int)
    requires
        0 <= k <= s.len(),
    ensures
        dval(s.take(k)) <= dval(s),
    decreases s.len() - k,
{
    if k < s.len() {
        assert(s.take(k + 1).drop_last() =~= s.take(k));
        lemma_dval_prefix(s, k + 1);
    } else {
        assert(s.take(k) =~= s);
    }
}

/// `enc_nat(n)` stands at `pos`, not followed by a digit.
pub open spec fn nat_fits(inp: Seq<char>, pos: int, n: nat) -> bool {
    &&& fits(inp, pos, enc_nat(n))
    &&& !(pos + enc_nat(n).len() < inp.len() && is_digit(inp[pos + enc_nat(n).len()]))
}

fn digit_value(c: char) -> (r: Option<usize>)
    ensures
        r matches Some(d) ==> d < 10 && c == digit_char(d as nat) && digit_num(c) == d,
        r is Some <==> is_digit(c),
{
    if c == '0' {
        Some(0)
    } else if c == '1' {
        Some(1)
    } else if c == '2' {
        Some(2)
    } else if c == '3' {
        Some(3)
    } else if c == '4' {
        Some(4)
    } else if c == '5' {
        Some(5)
    } else if c == '6' {
        Some(6)
    } else if c == '7' {
        Some(7)
    } else if c == '8' {
        Some(8)
    } else if c == '9' {
        Some(9)
    } else {
        None
    }
}

proof fn lemma_enc_nat_step(v: nat, d: nat)
    requires
        v > 0,
        d < 10,
    ensures
        enc_nat(v * 10 + d) == enc_nat(v).push(digit_char(d)),
{
    assert((v * 10 + d) / 10 == v) by (nonlinear_arith)
        requires
            d < 10,
    ;
    assert((v * 10 + d) % 10 == d) by (nonlinear_arith)
        requires
            d < 10,
    ;
    assert(v * 10 + d >= 10) by (nonlinear_arith)
        requires
            v > 0,
    ;
}

fn parse_nat(inp: &Vec<char>, pos: usize) -> (r: Option<(usize, usize)>)
    ensures
        r matches Some((v, p)) ==> pos <= p <= inp@.len() && inp@.subrange(pos as int, p as int) == enc_nat(v as nat),
        forall|n: nat| n <= usize::MAX && #[trigger] nat_fits(inp@, pos as int, n) ==> r == Some(
            (n as usize, (pos + enc_nat(n).len()) as usize),
        ),
{
    if pos >= inp.len() {
        proof {
            assert forall|n: nat| n <= usize::MAX && #[trigger] nat_fits(inp@, pos as int, n) implies false by {
                lemma_enc_nat(n);
            }
        }
        return None;
    }
    let first = match digit_value(inp[pos]) {
        Some(d) => d,
        None => {
            proof {
                assert forall|n: nat| n <= usize::MAX && #[trigger] nat_fits(inp@, pos as int, n) implies false by {
                    lemma_enc_nat(n);
                    assert(inp@.subrange(pos as int, pos + enc_nat(n).len())[0] == inp@[pos as int]);
                }
            }
            return None;
        },
    };
    if first == 0 {
        assert(inp@.subrange(pos as int, pos + 1) =~= enc_nat(0));
        proof {
            assert forall|n: nat| n <= usize::MAX && #[trigger] nat_fits(inp@, pos as int, n) implies n == 0 by {
                lemma_enc_nat(n);
                assert(inp@.subrange(pos as int, pos + enc_nat(n).len())[0] == inp@[pos as int]);
            }
        }
        return Some((0, pos + 1));
    }
    let mut value: usize = first;
    let mut i: usize = pos + 1;
    assert(inp@.subrange(pos as int, i as int) =~= enc_nat(value as nat));
    proof {
        assert forall|n: nat| n <= usize::MAX && #[trigger] nat_fits(inp@, pos as int, n) implies i <= pos + enc_nat(
            n,
        ).len() by {
            lemma_enc_nat(n);
        }
    }
    while i < inp.len()
        invariant
            pos < i <= inp@.len(),
            value > 0,
            inp@.subrange(pos as int, i as int) == enc_nat(value as nat),
            forall|n: nat| n <= usize::MAX && #[trigger] nat_fits(inp@, pos as int, n) ==> i <= pos + enc_nat(n).len(),
        decreases inp@.len() - i,
    {
        proof {
            lemma_enc_nat(value as nat);
        }
        let d = match digit_value(inp[i]) {
            Some(d) => d,
            None => {
                proof {
                    assert forall|n: nat| n <= usize::MAX && #[trigger] nat_fits(inp@, pos as int, n) implies n == value
                        && i == pos + enc_nat(n).len() by {
                        lemma_enc_nat(n);
                        if i < pos + enc_nat(n).len() {
                            assert(inp@.subrange(pos as int, pos + enc_nat(n).len())[i - pos] == inp@[i as int]);
                        }
                        assert(inp@.subrange(pos as int, i as int) =~= enc_nat(n));
                    }
                }
                return Some((value, i));
            },
        };
        proof {
            assert forall|n: nat| n <= usize::MAX && #[trigger] nat_fits(inp@, pos as int, n) implies i < pos + enc_nat(
                n,
            ).len() && value * 10 + d <= n by {
                lemma_enc_nat(n);
                let e = enc_nat(n);
                if i == pos + e.len() {
                    assert(false);
                }
                assert(inp@.subrange(pos as int, i + 1) =~= e.take(i + 1 - pos));
                assert(inp@.subrange(pos as int, i + 1).drop_last() =~= inp@.subrange(pos as int, i as int));
                lemma_dval_prefix(e, i + 1 - pos);
            }
        }
        if value > (usize::MAX - d) / 10 {
            proof {
                assert forall|n: nat| n <= usize::MAX && #[trigger] nat_fits(inp@, pos as int, n) implies false by {
                    assert(value * 10 + d <= usize::MAX ==> value <= (usize::MAX - d) / 10) by (nonlinear_arith)
                        requires
                            d < 10,
                    ;
                }
            }
            return None;
        }
        proof {
            lemma_enc_nat_step(value as nat, d as nat);
            assert(value * 10 + d <= usize::MAX) by (nonlinear_arith)
                requires
                    value <= (usize::MAX - d) / 10,
                    d < 10,
            ;
        }
        assert(inp@.subrange(pos as int, i + 1) =~= inp@.subrange(pos as int, i as int).push(inp@[i as int]));
        value = value * 10 + d;
        i += 1;
    }
    proof {
        lemma_enc_nat(value as nat);
        assert forall|n: nat| n <= usize::MAX && #[trigger] nat_fits(inp@, pos as int, n) implies n == value && i
            == pos + enc_nat(n).len() by {
            lemma_enc_nat(n);
            assert(inp@.subrange(pos as int, i as int) =~= enc_nat(n));
        }
    }
    Some((value, i))
}

fn parse_attr(inp: &Vec<char>, pos: usize) -> (r: Option<((String, String), usize)>)
    ensures
        r matches Some((a, p)) ==> pos <= p <= inp@.len() && inp@.subrange(pos as int, p as int) == enc_attr(
            (a.0@, a.1@),
        ),
        forall|x: (Seq<char>, Seq<char>)| #[trigger] fits(inp@, pos as int, enc_attr(x)) ==> (r matches Some((a, p))
            && a.0@ == x.0 && a.1@ == x.1 && p == pos + enc_attr(x).len()),
{
    proof {
        assert forall|x: (Seq<char>, Seq<char>)| #[trigger] fits(inp@, pos as int, enc_attr(x)) implies inp@[pos as int]
            == '[' && fits(inp@, pos + 1, enc_str(x.0)) && pos + 1 + enc_str(x.0).len() < inp@.len() && inp@[pos + 1
            + enc_str(x.0).len()] == ',' && fits(inp@, pos + 2 + enc_str(x.0).len(), enc_str(x.1)) && pos + 2
            + enc_str(x.0).len() + enc_str(x.1).len() < inp@.len() && inp@[pos + 2 + enc_str(x.0).len() + enc_str(
            x.1,
        ).len()] == ']' && enc_attr(x).len() == 3 + enc_str(x.0).len() + enc_str(x.1).len() by {
            lemma_fits_pair(inp@, pos as int, enc_str(x.0), enc_str(x.1));
        }
    }
    if !at(inp, pos, '[') {
        return None;
    }
    let (k, p1) = match parse_str(inp, pos + 1) {
        Some(x) => x,
        None => {
            return None;
        },
    };
    if !at(inp, p1, ',') {
        return None;
    }
    let (v, p2) = match parse_str(inp, p1 + 1) {
        Some(x) => x,
        None => {
            return None;
        },
    };
    if !at(inp, p2, ']') {
        return None;
    }
    proof {
        lemma_enc_list2(enc_str(k@), enc_str(v@));
    }
    assert(inp@.subrange(pos as int, p2 + 1) =~= seq!['['] + inp@.subrange(pos + 1, p1 as int) + seq![',']
        + inp@.subrange(p1 + 1, p2 as int) + seq![']']);
    Some(((k, v), p2 + 1))
}

fn parse_edge(inp: &Vec<char>, pos: usize) -> (r: Option<((usize, usize), usize)>)
    ensures
        r matches Some((e, p)) ==> pos <= p <= inp@.len() && inp@.subrange(pos as int, p as int) == enc_edge(e),
        forall|x: (usize, usize)| #[trigger] fits(inp@, pos as int, enc_edge(x)) ==> r == Some(
            (x, (pos + enc_edge(x).len()) as usize),
        ),
{
    proof {
        assert forall|x: (usize, usize)| #[trigger] fits(inp@, pos as int, enc_edge(x)) implies inp@[pos as int] == '['
            && nat_fits(inp@, pos + 1, x.0 as nat) && inp@[pos + 1 + enc_nat(x.0 as nat).len()] == ',' && nat_fits(
            inp@,
            pos + 2 + enc_nat(x.0 as nat).len(),
            x.1 as nat,
        ) && pos + 2 + enc_nat(x.0 as nat).len() + enc_nat(x.1 as nat).len() < inp@.len() && inp@[pos + 2 + enc_nat(
            x.0 as nat,
        ).len() + enc_nat(x.1 as nat).len()] == ']' && enc_edge(x).len() == 3 + enc_nat(x.0 as nat).len() + enc_nat(
            x.1 as nat,
        ).len() by {
            lemma_fits_pair(inp@, pos as int, enc_nat(x.0 as nat), enc_nat(x.1 as nat));
        }
    }
    if !at(inp, pos, '[') {
        return None;
    }
    let (a, p1) = match parse_nat(inp, pos + 1) {
        Some(x) => x,
        None => {
            return None;
        },
    };
    if !at(inp, p1, ',') {
        return None;
    }
    let (b, p2) = match parse_nat(inp, p1 + 1) {
        Some(x) => x,
        None => {
            return None;
        },
    };
    if !at(inp, p2, ']') {
        return None;
    }
    proof {
        lemma_enc_list2(enc_nat(a as nat), enc_nat(b as nat));
    }
    assert(inp@.subrange(pos as int, p2 + 1) =~= seq!['['] + inp@.subrange(pos + 1, p1 as int) + seq![',']
        + inp@.subrange(p1 + 1, p2 as int) + seq![']']);
    Some(((a, b), p2 + 1))
}

fn parse_triple(inp: &Vec<char>, pos: usize) -> (r: Option<((String, String, String), usize)>)
    ensures
        r matches Some((t, p)) ==> pos <= p <= inp@.len() && inp@.subrange(pos as int, p as int) == enc_triple(
            (t.0@, t.1@, t.2@),
        ),
        forall|x: TripleModel| #[trigger] fits(inp@, pos as int, enc_triple(x)) ==> (r matches Some((t, p)) && t.0@
            == x.0 && t.1@ == x.1 && t.2@ == x.2 && p == pos + enc_triple(x).len()),
{
    proof {
        assert forall|x: TripleModel| #[trigger] fits(inp@, pos as int, enc_triple(x)) implies inp@[pos as int] == '['
            && fits(inp@, pos + 1, enc_str(x.0)) && inp@[pos + 1 + enc_str(x.0).len()] == ',' && fits(
            inp@,
            pos + 2 + enc_str(x.0).len(),
            enc_str(x.1),
        ) && inp@[pos + 2 + enc_str(x.0).len() + enc_str(x.1).len()] == ',' && fits(
            inp@,
            pos + 3 + enc_str(x.0).len() + enc_str(x.1).len(),
            enc_str(x.2),
        ) && pos + 3 + enc_str(x.0).len() + enc_str(x.1).len() + enc_str(x.2).len() < inp@.len() && inp@[pos + 3
            + enc_str(x.0).len() + enc_str(x.1).len() + enc_str(x.2).len()] == ']' && enc_triple(x).len() == 4
            + enc_str(x.0).len() + enc_str(x.1).len() + enc_str(x.2).len() by {
            lemma_fits_triple(inp@, pos as int, enc_str(x.0), enc_str(x.1), enc_str(x.2));
        }
    }
    if !at(inp, pos, '[') {
        return None;
    }
    let (a, p1) = match parse_str(inp, pos + 1) {
        Some(x) => x,
        None => {
            return None;
        },
    };
    if !at(inp, p1, ',') {
        return None;
    }
    let (b, p2) = match parse_str(inp, p1 + 1) {
        Some(x) => x,
        None => {
            return None;
        },
    };
    if !at(inp, p2, ',') {
        return None;
    }
    let (c, p3) = match parse_str(inp, p2 + 1) {
        Some(x) => x,
        None => {
            return None;
        },
    };
    if !at(inp, p3, ']') {
        return None;
    }
    proof {
        lemma_enc_list3(enc_str(a@), enc_str(b@), enc_str(c@));
    }
    assert(inp@.subrange(pos as int, p3 + 1) =~= seq!['['] + inp@.subrange(pos + 1, p1 as int) + seq![',']
        + inp@.subrange(p1 + 1, p2 as int) + seq![','] + inp@.subrange(p2 + 1, p3 as int) + seq![']']);
    Some(((a, b, c), p3 + 1))
}

/// The text read so far of a list: the opening bracket, the items `encs` separated by
/// commas, and a comma when `more` items follow.
pub open spec fn list_prefix(encs: Seq<Seq<char>>, more: bool) -> Seq<char> {
    seq!['['] + join(encs) + if more {
        seq![',']
    } else {
        Seq::empty()
    }
}

/// The encodings of the items of an attribute list.
pub open spec fn attr_encs(a: AttrsModel) -> Seq<Seq<char>> {
    a.map_values(|p: (Seq<char>, Seq<char>)| enc_attr(p))
}

/// Position after the first `k` items of a list at `pos` and the comma that follows them.
pub open spec fn item_start(pos: int, e: Seq<Seq<char>>, k: int) -> int {
    pos + 1 + join(e.take(k)).len() + if k > 0 {
        1int
    } else {
        0
    }
}

fn parse_attrs(inp: &Vec<char>, pos: usize) -> (r: Option<(Vec<(String, String)>, usize)>)
    ensures
        r matches Some((a, p)) ==> pos <= p <= inp@.len() && inp@.subrange(pos as int, p as int) == enc_attrs(
            attrs_view(a@),
        ),
        forall|x: AttrsModel| #[trigger] fits(inp@, pos as int, enc_attrs(x)) ==> (r matches Some((a, p))
            && attrs_view(a@) == x && p == pos + enc_attrs(x).len()),
{
    proof {
        assert forall|x: AttrsModel| #[trigger] fits(inp@, pos as int, enc_attrs(x)) implies pos < inp@.len()
            && inp@[pos as int] == '[' && pos + 1 < inp@.len() && (inp@[pos + 1] == ']') == (x.len() == 0) && (x.len()
            == 0 ==> enc_attrs(x).len() == 2) by {
            let e = attr_encs(x);
            assert(enc_attrs(x) == enc_list(e));
            lemma_list_empty(inp@, pos as int, e);
        }
    }
    if !at(inp, pos, '[') {
        return None;
    }
    let mut items: Vec<(String, String)> = Vec::new();
    if at(inp, pos + 1, ']') {
        assert(inp@.subrange(pos as int, pos + 2) =~= enc_attrs(attrs_view(items@)));
        proof {
            assert forall|x: AttrsModel| #[trigger] fits(inp@, pos as int, enc_attrs(x)) implies attrs_view(items@) == x
                by {
                assert(attrs_view(items@) =~= x);
            }
        }
        return Some((items, pos + 2));
    }
    let mut i: usize = pos + 1;
    proof {
        assert forall|x: AttrsModel| #[trigger] fits(inp@, pos as int, enc_attrs(x)) implies items@.len() < x.len()
            && attrs_view(items@) == x.take(items@.len() as int) && i == item_start(
            pos as int,
            attr_encs(x),
            items@.len() as int,
        ) by {
            assert(attrs_view(items@) =~= x.take(0));
            assert(attr_encs(x).take(0) =~= Seq::<Seq<char>>::empty());
        }
    }
    while i < inp.len()
        invariant
            pos < i <= inp@.len(),
            inp@.subrange(pos as int, i as int) == list_prefix(
                attrs_view(items@).map_values(|p: (Seq<char>, Seq<char>)| enc_attr(p)),
                items@.len() > 0,
            ),
            forall|x: AttrsModel| #[trigger] fits(inp@, pos as int, enc_attrs(x)) ==> items@.len() < x.len()
                && attrs_view(items@) == x.take(items@.len() as int) && i == item_start(
                pos as int,
                attr_encs(x),
                items@.len() as int,
            ),
        decreases inp@.len() - i,
    {
        let ghost k = items@.len() as int;
        proof {
            assert forall|x: AttrsModel| #[trigger] fits(inp@, pos as int, enc_attrs(x)) implies fits(
                inp@,
                i as int,
                enc_attr(x[k]),
            ) && i + enc_attr(x[k]).len() == pos + 1 + join(attr_encs(x).take(k + 1)).len() by {
                assert(enc_attrs(x) == enc_list(attr_encs(x)));
                lemma_list_item(inp@, pos as int, attr_encs(x), k);
            }
        }
        let (x, j) = match parse_attr(inp, i) {
            Some(y) => y,
            None => {
                return None;
            },
        };
        let ghost f = |p: (Seq<char>, Seq<char>)| enc_attr(p);
        let ghost prev = attrs_view(items@).map_values(f);
        let ghost xv = (x.0@, x.1@);
        items.push(x);
        proof {
            assert(attrs_view(items@).map_values(f) =~= prev.push(enc_attr(xv)));
            lemma_join_push(prev, enc_attr(xv));
        }
        assert(inp@.subrange(pos as int, j as int) =~= inp@.subrange(pos as int, i as int) + inp@.subrange(
            i as int,
            j as int,
        ));
        assert(inp@.subrange(pos as int, j as int) =~= seq!['['] + join(attrs_view(items@).map_values(f)));
        proof {
            assert forall|y: AttrsModel| #[trigger] fits(inp@, pos as int, enc_attrs(y)) implies attrs_view(items@)
                == y.take(k + 1) && j == pos + 1 + join(attr_encs(y).take(k + 1)).len() && (k + 1 < y.len() ==> inp@[j as int]
                == ',') && (k + 1 == y.len() ==> inp@[j as int] == ']' && j + 1 == pos + enc_attrs(y).len()) && j
                < inp@.len() by {
                assert(enc_attrs(y) == enc_list(attr_encs(y)));
                lemma_list_item(inp@, pos as int, attr_encs(y), k);
                assert(attrs_view(items@) =~= y.take(k + 1));
            }
        }
        if at(inp, j, ',') {
            assert(inp@.subrange(pos as int, j + 1) =~= inp@.subrange(pos as int, j as int).push(','));
            i = j + 1;
        } else if at(inp, j, ']') {
            assert(inp@.subrange(pos as int, j + 1) =~= inp@.subrange(pos as int, j as int).push(']'));
            proof {
                assert forall|y: AttrsModel| #[trigger] fits(inp@, pos as int, enc_attrs(y)) implies attrs_view(items@)
                    == y by {
                    assert(y.take(k + 1) =~= y);
                }
            }
            return Some((items, j + 1));
        } else {
            return None;
        }
    }
    proof {
        assert forall|x: AttrsModel| #[trigger] fits(inp@, pos as int, enc_attrs(x)) implies false by {
            assert(enc_attrs(x) == enc_list(attr_encs(x)));
            lemma_list_item(inp@, pos as int, attr_encs(x), items@.len() as int);
        }
    }
    None
}

fn parse_node(inp: &Vec<char>, pos: usize) -> (r: Option<(GraphNode, usize)>)
    ensures
        r matches Some((n, p)) ==> pos <= p <= inp@.len() && inp@.subrange(pos as int, p as int) == enc_node(n@),
        forall|x: NodeModel| #[trigger] fits(inp@, pos as int, enc_node(x)) ==> (r matches Some((n, p)) && n@ == x && p
            == pos + enc_node(x).len()),
{
    proof {
        assert forall|x: NodeModel| #[trigger] fits(inp@, pos as int, enc_node(x)) implies inp@[pos as int] == '['
            && fits(inp@, pos + 1, enc_str(x.0)) && pos + 1 + enc_str(x.0).len() < inp@.len() && inp@[pos + 1
            + enc_str(x.0).len()] == ',' && fits(inp@, pos + 2 + enc_str(x.0).len(), enc_attrs(x.1)) && pos + 2
            + enc_str(x.0).len() + enc_attrs(x.1).len() < inp@.len() && inp@[pos + 2 + enc_str(x.0).len() + enc_attrs(
            x.1,
        ).len()] == ']' && enc_node(x).len() == 3 + enc_str(x.0).len() + enc_attrs(x.1).len() by {
            lemma_fits_pair(inp@, pos as int, enc_str(x.0), enc_attrs(x.1));
        }
    }
    if !at(inp, pos, '[') {
        return None;
    }
    let (label, p1) = match parse_str(inp, pos + 1) {
        Some(x) => x,
        None => {
            return None;
        },
    };
    if !at(inp, p1, ',') {
        return None;
    }
    let (attrs, p2) = match parse_attrs(inp, p1 + 1) {
        Some(x) => x,
        None => {
            return None;
        },
    };
    if !at(inp, p2, ']') {
        return None;
    }
    let n = GraphNode { label, attrs };
    proof {
        lemma_enc_list2(enc_str(n@.0), enc_attrs(n@.1));
    }
    assert(inp@.subrange(pos as int, p2 + 1) =~= seq!['['] + inp@.subrange(pos + 1, p1 as int) + seq![',']
        + inp@.subrange(p1 + 1, p2 as int) + seq![']']);
    Some((n, p2 + 1))
}




/// The encodings of the nodes of a list.
pub open spec fn node_encs(a: Seq<NodeModel>) -> Seq<Seq<char>> {
    a.map_values(|n: NodeModel| enc_node(n))
}

/// The encodings of the edges of a list.
pub open spec fn edge_encs(a: Seq<(usize, usize)>) -> Seq<Seq<char>> {
    a.map_values(|e: (usize, usize)| enc_edge(e))
}

/// The encodings of the observations of a list.
pub open spec fn triple_encs(a: Seq<TripleModel>) -> Seq<Seq<char>> {
    a.map_values(|t: TripleModel| enc_triple(t))
}

fn parse_nodes(inp: &Vec<char>, pos: usize) -> (r: Option<(Vec<GraphNode>, usize)>)
    ensures
        r matches Some((a, p)) ==> pos <= p <= inp@.len() && inp@.subrange(pos as int, p as int) == enc_nodes(
            nodes_view(a@),
        ),
        forall|x: Seq<NodeModel>| #[trigger] fits(inp@, pos as int, enc_nodes(x)) ==> (r matches Some((a, p))
            && nodes_view(a@) == x && p == pos + enc_nodes(x).len()),
{
    proof {
        assert forall|x: Seq<NodeModel>| #[trigger] fits(inp@, pos as int, enc_nodes(x)) implies pos < inp@.len()
            && inp@[pos as int] == '[' && pos + 1 < inp@.len() && (inp@[pos + 1] == ']') == (x.len() == 0) && (x.len()
            == 0 ==> enc_nodes(x).len() == 2) by {
            let e = node_encs(x);
            assert(enc_nodes(x) == enc_list(e));
            lemma_list_empty(inp@, pos as int, e);
        }
    }
    if !at(inp, pos, '[') {
        return None;
    }
    let mut items: Vec<GraphNode> = Vec::new();
    if at(inp, pos + 1, ']') {
        assert(inp@.subrange(pos as int, pos + 2) =~= enc_nodes(nodes_view(items@)));
        proof {
            assert forall|x: Seq<NodeModel>| #[trigger] fits(inp@, pos as int, enc_nodes(x)) implies nodes_view(items@) == x
                by {
                assert(nodes_view(items@) =~= x);
            }
        }
        return Some((items, pos + 2));
    }
    let mut i: usize = pos + 1;
    proof {
        assert forall|x: Seq<NodeModel>| #[trigger] fits(inp@, pos as int, enc_nodes(x)) implies items@.len() < x.len()
            && nodes_view(items@) == x.take(items@.len() as int) && i == item_start(
            pos as int,
            node_encs(x),
            items@.len() as int,
        ) by {
            assert(nodes_view(items@) =~= x.take(0));
            assert(node_encs(x).take(0) =~= Seq::<Seq<char>>::empty());
        }
    }
    while i < inp.len()
        invariant
            pos < i <= inp@.len(),
            inp@.subrange(pos as int, i as int) == list_prefix(
                nodes_view(items@).map_values(|n: NodeModel| enc_node(n)),
                items@.len() > 0,
            ),
            forall|x: Seq<NodeModel>| #[trigger] fits(inp@, pos as int, enc_nodes(x)) ==> items@.len() < x.len()
                && nodes_view(items@) == x.take(items@.len() as int) && i == item_start(
                pos as int,
                node_encs(x),
                items@.len() as int,
            ),
        decreases inp@.len() - i,
    {
        let ghost k = items@.len() as int;
        proof {
            assert forall|x: Seq<NodeModel>| #[trigger] fits(inp@, pos as int, enc_nodes(x)) implies fits(
                inp@,
                i as int,
                enc_node(x[k]),
            ) && i + enc_node(x[k]).len() == pos + 1 + join(node_encs(x).take(k + 1)).len() by {
                assert(enc_nodes(x) == enc_list(node_encs(x)));
                lemma_list_item(inp@, pos as int, node_encs(x), k);
            }
        }
        let (x, j) = match parse_node(inp, i) {
            Some(y) => y,
            None => {
                return None;
            },
        };
        let ghost f = |n: NodeModel| enc_node(n);
        let ghost prev = nodes_view(items@).map_values(f);
        let ghost xv = x@;
        items.push(x);
        proof {
            assert(nodes_view(items@).map_values(f) =~= prev.push(enc_node(xv)));
            lemma_join_push(prev, enc_node(xv));
        }
        assert(inp@.subrange(pos as int, j as int) =~= inp@.subrange(pos as int, i as int) + inp@.subrange(
            i as int,
            j as int,
        ));
        assert(inp@.subrange(pos as int, j as int) =~= seq!['['] + join(nodes_view(items@).map_values(f)));
        proof {
            assert forall|y: Seq<NodeModel>| #[trigger] fits(inp@, pos as int, enc_nodes(y)) implies nodes_view(items@)
                == y.take(k + 1) && j == pos + 1 + join(node_encs(y).take(k + 1)).len() && (k + 1 < y.len() ==> inp@[j as int]
                == ',') && (k + 1 == y.len() ==> inp@[j as int] == ']' && j + 1 == pos + enc_nodes(y).len()) && j
                < inp@.len() by {
                assert(enc_nodes(y) == enc_list(node_encs(y)));
                lemma_list_item(inp@, pos as int, node_encs(y), k);
                assert(nodes_view(items@) =~= y.take(k + 1));
            }
        }
        if at(inp, j, ',') {
            assert(inp@.subrange(pos as int, j + 1) =~= inp@.subrange(pos as int, j as int).push(','));
            i = j + 1;
        } else if at(inp, j, ']') {
            assert(inp@.subrange(pos as int, j + 1) =~= inp@.subrange(pos as int, j as int).push(']'));
            proof {
                assert forall|y: Seq<NodeModel>| #[trigger] fits(inp@, pos as int, enc_nodes(y)) implies nodes_view(items@)
                    == y by {
                    assert(y.take(k + 1) =~= y);
                }
            }
            return Some((items, j + 1));
        } else {
            return None;
        }
    }
    proof {
        assert forall|x: Seq<NodeModel>| #[trigger] fits(inp@, pos as int, enc_nodes(x)) implies false by {
            assert(enc_nodes(x) == enc_list(node_encs(x)));
            lemma_list_item(inp@, pos as int, node_encs(x), items@.len() as int);
        }
    }
    None
}

fn parse_edges(inp: &Vec<char>, pos: usize) -> (r: Option<(Vec<(usize, usize)>, usize)>)
    ensures
        r matches Some((a, p)) ==> pos <= p <= inp@.len() && inp@.subrange(pos as int, p as int) == enc_edges(
            a@,
        ),
        forall|x: Seq<(usize, usize)>| #[trigger] fits(inp@, pos as int, enc_edges(x)) ==> (r matches Some((a, p))
            && a@ == x && p == pos + enc_edges(x).len()),
{
    proof {
        assert forall|x: Seq<(usize, usize)>| #[trigger] fits(inp@, pos as int, enc_edges(x)) implies pos < inp@.len()
            && inp@[pos as int] == '[' && pos + 1 < inp@.len() && (inp@[pos + 1] == ']') == (x.len() == 0) && (x.len()
            == 0 ==> enc_edges(x).len() == 2) by {
            let e = edge_encs(x);
            assert(enc_edges(x) == enc_list(e));
            lemma_list_empty(inp@, pos as int, e);
        }
    }
    if !at(inp, pos, '[') {
        return None;
    }
    let mut items: Vec<(usize, usize)> = Vec::new();
    if at(inp, pos + 1, ']') {
        assert(inp@.subrange(pos as int, pos + 2) =~= enc_edges(items@));
        proof {
            assert forall|x: Seq<(usize, usize)>| #[trigger] fits(inp@, pos as int, enc_edges(x)) implies items@ == x
                by {
                assert(items@ =~= x);
            }
        }
        return Some((items, pos + 2));
    }
    let mut i: usize = pos + 1;
    proof {
        assert forall|x: Seq<(usize, usize)>| #[trigger] fits(inp@, pos as int, enc_edges(x)) implies items@.len() < x.len()
            && items@ == x.take(items@.len() as int) && i == item_start(
            pos as int,
            edge_encs(x),
            items@.len() as int,
        ) by {
            assert(items@ =~= x.take(0));
            assert(edge_encs(x).take(0) =~= Seq::<Seq<char>>::empty());
        }
    }
    while i < inp.len()
        invariant
            pos < i <= inp@.len(),
            inp@.subrange(pos as int, i as int) == list_prefix(
                items@.map_values(|e: (usize, usize)| enc_edge(e)),
                items@.len() > 0,
            ),
            forall|x: Seq<(usize, usize)>| #[trigger] fits(inp@, pos as int, enc_edges(x)) ==> items@.len() < x.len()
                && items@ == x.take(items@.len() as int) && i == item_start(
                pos as int,
                edge_encs(x),
                items@.len() as int,
            ),
        decreases inp@.len() - i,
    {
        let ghost k = items@.len() as int;
        proof {
            assert forall|x: Seq<(usize, usize)>| #[trigger] fits(inp@, pos as int, enc_edges(x)) implies fits(
                inp@,
                i as int,
                enc_edge(x[k]),
            ) && i + enc_edge(x[k]).len() == pos + 1 + join(edge_encs(x).take(k + 1)).len() by {
                assert(enc_edges(x) == enc_list(edge_encs(x)));
                lemma_list_item(inp@, pos as int, edge_encs(x), k);
            }
        }
        let (x, j) = match parse_edge(inp, i) {
            Some(y) => y,
            None => {
                return None;
            },
        };
        let ghost f = |e: (usize, usize)| enc_edge(e);
        let ghost prev = items@.map_values(f);
        let ghost xv = x;
        items.push(x);
        proof {
            assert(items@.map_values(f) =~= prev.push(enc_edge(xv)));
            lemma_join_push(prev, enc_edge(xv));
        }
        assert(inp@.subrange(pos as int, j as int) =~= inp@.subrange(pos as int, i as int) + inp@.subrange(
            i as int,
            j as int,
        ));
        assert(inp@.subrange(pos as int, j as int) =~= seq!['['] + join(items@.map_values(f)));
        proof {
            assert forall|y: Seq<(usize, usize)>| #[trigger] fits(inp@, pos as int, enc_edges(y)) implies items@
                == y.take(k + 1) && j == pos + 1 + join(edge_encs(y).take(k + 1)).len() && (k + 1 < y.len() ==> inp@[j as int]
                == ',') && (k + 1 == y.len() ==> inp@[j as int] == ']' && j + 1 == pos + enc_edges(y).len()) && j
                < inp@.len() by {
                assert(enc_edges(y) == enc_list(edge_encs(y)));
                lemma_list_item(inp@, pos as int, edge_encs(y), k);
                assert(items@ =~= y.take(k + 1));
            }
        }
        if at(inp, j, ',') {
            assert(inp@.subrange(pos as int, j + 1) =~= inp@.subrange(pos as int, j as int).push(','));
            i = j + 1;
        } else if at(inp, j, ']') {
            assert(inp@.subrange(pos as int, j + 1) =~= inp@.subrange(pos as int, j as int).push(']'));
            proof {
                assert forall|y: Seq<(usize, usize)>| #[trigger] fits(inp@, pos as int, enc_edges(y)) implies items@
                    == y by {
                    assert(y.take(k + 1) =~= y);
                }
            }
            return Some((items, j + 1));
        } else {
            return None;
        }
    }
    proof {
        assert forall|x: Seq<(usize, usize)>| #[trigger] fits(inp@, pos as int, enc_edges(x)) implies false by {
            assert(enc_edges(x) == enc_list(edge_encs(x)));
            lemma_list_item(inp@, pos as int, edge_encs(x), items@.len() as int);
        }
    }
    None
}

fn parse_triples(inp: &Vec<char>, pos: usize) -> (r: Option<(Vec<(String, String, String)>, usize)>)
    ensures
        r matches Some((a, p)) ==> pos <= p <= inp@.len() && inp@.subrange(pos as int, p as int) == enc_triples(
            triples_view(a@),
        ),
        forall|x: Seq<TripleModel>| #[trigger] fits(inp@, pos as int, enc_triples(x)) ==> (r matches Some((a, p))
            && triples_view(a@) == x && p == pos + enc_triples(x).len()),
{
    proof {
        assert forall|x: Seq<TripleModel>| #[trigger] fits(inp@, pos as int, enc_triples(x)) implies pos < inp@.len()
            && inp@[pos as int] == '[' && pos + 1 < inp@.len() && (inp@[pos + 1] == ']') == (x.len() == 0) && (x.len()
            == 0 ==> enc_triples(x).len() == 2) by {
            let e = triple_encs(x);
            assert(enc_triples(x) == enc_list(e));
            lemma_list_empty(inp@, pos as int, e);
        }
    }
    if !at(inp, pos, '[') {
        return None;
    }
    let mut items: Vec<(String, String, String)> = Vec::new();
    if at(inp, pos + 1, ']') {
        assert(inp@.subrange(pos as int, pos + 2) =~= enc_triples(triples_view(items@)));
        proof {
            assert forall|x: Seq<TripleModel>| #[trigger] fits(inp@, pos as int, enc_triples(x)) implies triples_view(items@) == x
                by {
                assert(triples_view(items@) =~= x);
            }
        }
        return Some((items, pos + 2));
    }
    let mut i: usize = pos + 1;
    proof {
        assert forall|x: Seq<TripleModel>| #[trigger] fits(inp@, pos as int, enc_triples(x)) implies items@.len() < x.len()
            && triples_view(items@) == x.take(items@.len() as int) && i == item_start(
            pos as int,
            triple_encs(x),
            items@.len() as int,
        ) by {
            assert(triples_view(items@) =~= x.take(0));
            assert(triple_encs(x).take(0) =~= Seq::<Seq<char>>::empty());
        }
    }
    while i < inp.len()
        invariant
            pos < i <= inp@.len(),
            inp@.subrange(pos as int, i as int) == list_prefix(
                triples_view(items@).map_values(|t: TripleModel| enc_triple(t)),
                items@.len() > 0,
            ),
            forall|x: Seq<TripleModel>| #[trigger] fits(inp@, pos as int, enc_triples(x)) ==> items@.len() < x.len()
                && triples_view(items@) == x.take(items@.len() as int) && i == item_start(
                pos as int,
                triple_encs(x),
                items@.len() as int,
            ),
        decreases inp@.len() - i,
    {
        let ghost k = items@.len() as int;
        proof {
            assert forall|x: Seq<TripleModel>| #[trigger] fits(inp@, pos as int, enc_triples(x)) implies fits(
                inp@,
                i as int,
                enc_triple(x[k]),
            ) && i + enc_triple(x[k]).len() == pos + 1 + join(triple_encs(x).take(k + 1)).len() by {
                assert(enc_triples(x) == enc_list(triple_encs(x)));
                lemma_list_item(inp@, pos as int, triple_encs(x), k);
            }
        }
        let (x, j) = match parse_triple(inp, i) {
            Some(y) => y,
            None => {
                return None;
            },
        };
        let ghost f = |t: TripleModel| enc_triple(t);
        let ghost prev = triples_view(items@).map_values(f);
        let ghost xv = (x.0@, x.1@, x.2@);
        items.push(x);
        proof {
            assert(triples_view(items@).map_values(f) =~= prev.push(enc_triple(xv)));
            lemma_join_push(prev, enc_triple(xv));
        }
        assert(inp@.subrange(pos as int, j as int) =~= inp@.subrange(pos as int, i as int) + inp@.subrange(
            i as int,
            j as int,
        ));
        assert(inp@.subrange(pos as int, j as int) =~= seq!['['] + join(triples_view(items@).map_values(f)));
        proof {
            assert forall|y: Seq<TripleModel>| #[trigger] fits(inp@, pos as int, enc_triples(y)) implies triples_view(items@)
                == y.take(k + 1) && j == pos + 1 + join(triple_encs(y).take(k + 1)).len() && (k + 1 < y.len() ==> inp@[j as int]
                == ',') && (k + 1 == y.len() ==> inp@[j as int] == ']' && j + 1 == pos + enc_triples(y).len()) && j
                < inp@.len() by {
                assert(enc_triples(y) == enc_list(triple_encs(y)));
                lemma_list_item(inp@, pos as int, triple_encs(y), k);
                assert(triples_view(items@) =~= y.take(k + 1));
            }
        }
        if at(inp, j, ',') {
            assert(inp@.subrange(pos as int, j + 1) =~= inp@.subrange(pos as int, j as int).push(','));
            i = j + 1;
        } else if at(inp, j, ']') {
            assert(inp@.subrange(pos as int, j + 1) =~= inp@.subrange(pos as int, j as int).push(']'));
            proof {
                assert forall|y: Seq<TripleModel>| #[trigger] fits(inp@, pos as int, enc_triples(y)) implies triples_view(items@)
                    == y by {
                    assert(y.take(k + 1) =~= y);
                }
            }
            return Some((items, j + 1));
        } else {
            return None;
        }
    }
    proof {
        assert forall|x: Seq<TripleModel>| #[trigger] fits(inp@, pos as int, enc_triples(x)) implies false by {
            assert(enc_triples(x) == enc_list(triple_encs(x)));
            lemma_list_item(inp@, pos as int, triple_encs(x), items@.len() as int);
        }
    }
    None
}

fn edges_fit(edges: &Vec<(usize, usize)>, n: usize) -> (r: bool)
    ensures
        r == forall|j: int| 0 <= j < edges@.len() ==> (#[trigger] edges@[j]).0 < n && edges@[j].1 < n,
{
    let mut j: usize = 0;
    while j < edges.len()
        invariant
            j <= edges@.len(),
            forall|x: int| 0 <= x < j ==> (#[trigger] edges@[x]).0 < n && edges@[x].1 < n,
        decreases edges@.len() - j,
    {
        if edges[j].0 >= n || edges[j].1 >= n {
            return false;
        }
        j += 1;
    }
    true
}

/// The pieces of the text form of `m`, standing in `inp` when it is that text.
proof fn lemma_decode_parts(inp: Seq<char>, m: FerriedModel)
    requires
        encode_model(m) == inp,
    ensures
        ({
            let l1 = "{\"trace_graph\":{\"nodes\":"@;
            let l2 = ",\"edges\":"@;
            let l3 = "},\"unassigned_properties\":"@;
            let n = enc_nodes(m.graph.nodes);
            let e = enc_edges(m.graph.edges);
            let t = enc_triples(m.props);
            &&& fits(inp, 0, l1)
            &&& fits(inp, l1.len() as int, n)
            &&& fits(inp, (l1.len() + n.len()) as int, l2)
            &&& fits(inp, (l1.len() + n.len() + l2.len()) as int, e)
            &&& fits(inp, (l1.len() + n.len() + l2.len() + e.len()) as int, l3)
            &&& fits(inp, (l1.len() + n.len() + l2.len() + e.len() + l3.len()) as int, t)
            &&& fits(inp, (l1.len() + n.len() + l2.len() + e.len() + l3.len() + t.len()) as int, "}"@)
            &&& inp.len() == l1.len() + n.len() + l2.len() + e.len() + l3.len() + t.len() + "}"@.len()
        }),
{
    let l1 = "{\"trace_graph\":{\"nodes\":"@;
    let l2 = ",\"edges\":"@;
    let l3 = "},\"unassigned_properties\":"@;
    let n = enc_nodes(m.graph.nodes);
    let e = enc_edges(m.graph.edges);
    let t = enc_triples(m.props);
    let x1 = l1 + n;
    let x2 = x1 + l2;
    let x3 = x2 + e;
    let x4 = x3 + l3;
    let x5 = x4 + t;
    assert(encode_model(m) == x5 + "}"@);
    assert(inp.subrange(0, inp.len() as int) =~= inp);
    assert(fits(inp, 0, x5 + "}"@));
    lemma_fits_concat(inp, 0, x5, "}"@);
    lemma_fits_concat(inp, 0, x4, t);
    lemma_fits_concat(inp, 0, x3, l3);
    lemma_fits_concat(inp, 0, x2, e);
    lemma_fits_concat(inp, 0, x1, l2);
    lemma_fits_concat(inp, 0, l1, n);
}

/// Reads ferried data from its text form. What it returns encodes back to exactly `s`, and
/// its edges join existing nodes; the text form of any such data is read back to that data.
pub fn decode_ferried(s: &str) -> (r: Result<FerriedData, DecodeError>)
    ensures
        r matches Ok(fd) ==> encode_model(fd@) == s@ && fd@.graph.edges_in_range(),
        forall|m: FerriedModel| #[trigger] encode_model(m) == s@ && m.graph.edges_in_range() ==> (r matches Ok(fd)
            && fd@ == m),
{
    let inp = chars_of(s);
    let ghost any = exists|m: FerriedModel| #[trigger] encode_model(m) == s@ && m.graph.edges_in_range();
    let ghost m0 = choose|m: FerriedModel| #[trigger] encode_model(m) == s@ && m.graph.edges_in_range();
    proof {
        if any {
            lemma_decode_parts(inp@, m0);
        }
    }
    let p0 = match expect_lit(&inp, 0, "{\"trace_graph\":{\"nodes\":") {
        Some(p) => p,
        None => {
            assert(!any);
            return Err(DecodeError::Malformed);
        },
    };
    let (nodes, p1) = match parse_nodes(&inp, p0) {
        Some(x) => x,
        None => {
            assert(!any);
            return Err(DecodeError::Malformed);
        },
    };
    let p2 = match expect_lit(&inp, p1, ",\"edges\":") {
        Some(p) => p,
        None => {
            assert(!any);
            return Err(DecodeError::Malformed);
        },
    };
    let (edges, p3) = match parse_edges(&inp, p2) {
        Some(x) => x,
        None => {
            assert(!any);
            return Err(DecodeError::Malformed);
        },
    };
    let p4 = match expect_lit(&inp, p3, "},\"unassigned_properties\":") {
        Some(p) => p,
        None => {
            assert(!any);
            return Err(DecodeError::Malformed);
        },
    };
    let (props, p5) = match parse_triples(&inp, p4) {
        Some(x) => x,
        None => {
            assert(!any);
            return Err(DecodeError::Malformed);
        },
    };
    let p6 = match expect_lit(&inp, p5, "}") {
        Some(p) => p,
        None => {
            assert(!any);
            return Err(DecodeError::Malformed);
        },
    };
    if p6 != inp.len() || !edges_fit(&edges, nodes.len()) {
        assert(!any);
            return Err(DecodeError::Malformed);
    }
    let fd = FerriedData {
        trace_graph: AttrGraph { nodes, edges },
        unassigned_properties: props,
    };
    proof {
        assert forall|m: FerriedModel| #[trigger] encode_model(m) == s@ && m.graph.edges_in_range() implies fd@ == m by {
            lemma_decode_parts(inp@, m);
            assert(fd@.graph.nodes == m.graph.nodes);
            assert(fd@.graph.edges == m.graph.edges);
            assert(fd@.props == m.props);
        }
    }
    assert(inp@ =~= inp@.subrange(0, p0 as int) + inp@.subrange(p0 as int, p1 as int) + inp@.subrange(
        p1 as int,
        p2 as int,
    ) + inp@.subrange(p2 as int, p3 as int) + inp@.subrange(p3 as int, p4 as int) + inp@.subrange(
        p4 as int,
        p5 as int,
    ) + inp@.subrange(p5 as int, p6 as int));
    Ok(fd)
}

} // verus!
