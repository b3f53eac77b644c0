//! The simulator: owns the elements, ticks them in registration order, then delivers what
//! they sent, in the order it was sent.
use vstd::prelude::*;
use crate::edge::Edge;
use crate::node::{names, Node};
use crate::plugin::SimError;
use crate::rpc::{Rpc, RpcModel};

verus! {

pub enum Element {
    Node(Node),
    Edge(Edge),
}

impl Element {
    pub open spec fn name(&self) -> Seq<char> {
        match self {
            Element::Node(n) => n.id@,
            Element::Edge(e) => e.id@,
        }
    }

    pub open spec fn is_node(&self) -> bool {
        self is Node
    }

    /// Well-formed; an edge has not run past `clock`.
    pub open spec fn ok(&self, clock: Option<u64>) -> bool {
        match self {
            Element::Node(n) => n.wf(),
            Element::Edge(e) => e.wf() && (e.clock is None || e.clock == clock),
        }
    }

    /// Well-formed; an edge ran exactly up to `clock`.
    pub open spec fn ran(&self, clock: Option<u64>) -> bool {
        match self {
            Element::Node(n) => n.wf(),
            Element::Edge(e) => e.wf() && e.clock == clock,
        }
    }

    pub fn id(&self) -> (r: &String)
        ensures
            r@ == self.name(),
    {
        match self {
            Element::Node(n) => &n.id,
            Element::Edge(e) => &e.id,
        }
    }
}

/// `e1` is `e0` with `id` added to the neighbors, when `e0` is a node; else `e0` itself.
pub open spec fn connected(e0: Element, e1: Element, id: Seq<char>) -> bool {
    match (e0, e1) {
        (Element::Node(n0), Element::Node(n1)) => names(n1.neighbors@) == names(n0.neighbors@).push(id) && n1.queue
            == n0.queue && n1.id == n0.id && n1.capacity == n0.capacity && n1.egress_rate == n0.egress_rate
            && n1.generation_rate == n0.generation_rate && n1.plugin == n0.plugin && n1.seed == n0.seed,
        _ => e1 == e0,
    }
}

/// `e1` is `e0` after an edge `id` from `a` to `b` (one-way when `uni`) is wired in: a node
/// named `a` gets the edge as a neighbor, and so does a node named `b` unless one-way.
pub open spec fn rewired(e0: Element, e1: Element, id: Seq<char>, a: Seq<char>, b: Seq<char>, uni: bool) -> bool {
    let at_a = e0.name() == a;
    let at_b = !uni && e0.name() == b;
    &&& !at_a && !at_b ==> e1 == e0
    &&& at_a != at_b ==> connected(e0, e1, id)
    &&& at_a && at_b ==> exists|mid: Element| connected(e0, mid, id) && #[trigger] connected(mid, e1, id)
}

/// A tick at `tick` took element `e0` to `e1`, with trace ids `u0` before and `u1` after,
/// and the element sent `out`.
pub open spec fn elem_ticked(e0: Element, e1: Element, tick: u64, u0: u64, u1: u64, out: Seq<(Rpc, String)>) -> bool {
    match (e0, e1) {
        (Element::Node(a), Element::Node(b)) => a.ticked(b, tick, u0, u1, out),
        (Element::Edge(a), Element::Edge(b)) => a.ticked(b, tick, out) && u1 == u0,
        _ => false,
    }
}

/// Receiving `m` from `from` at `tick` took element `e0` to `e1`.
pub open spec fn elem_received(e0: Element, e1: Element, m: RpcModel, tick: u64, from: Seq<char>) -> bool {
    match (e0, e1) {
        (Element::Node(a), Element::Node(b)) => a.received(b, m),
        (Element::Edge(a), Element::Edge(b)) => exists|r: Rpc| r@ == m && #[trigger] a.received(b, r, tick, from),
        _ => false,
    }
}

/// A message, the element it goes to, and the element that sent it.
pub type Transfer = (RpcModel, Seq<char>, Seq<char>);

pub open spec fn transfers_view(v: Seq<(Rpc, String, String)>) -> Seq<Transfer> {
    v.map_values(|t: (Rpc, String, String)| (t.0@, t.1@, t.2@))
}

/// The messages `out`, with their destinations, as sent by `sender`.
pub open spec fn tagged(out: Seq<(Rpc, String)>, sender: Seq<char>) -> Seq<Transfer> {
    out.map_values(|p: (Rpc, String)| (p.0@, p.1@, sender))
}

/// What the elements sent, element by element in registration order, each message with its
/// destination and its sender's name.
pub open spec fn sent_by(outs: Seq<Seq<(Rpc, String)>>, senders: Seq<Seq<char>>) -> Seq<Transfer>
    decreases outs.len(),
{
    if outs.len() == 0 {
        Seq::empty()
    } else {
        sent_by(outs.drop_last(), senders) + tagged(outs.last(), senders[outs.len() - 1])
    }
}

/// Delivering `t` took the elements `s0` to `s1`: the element named as destination received
/// it; with no such element, nothing changed.
pub open spec fn delivered(s0: Seq<Element>, s1: Seq<Element>, t: Transfer, tick: u64) -> bool {
    ||| exists|i: int|
        0 <= i < s0.len() && #[trigger] s0[i].name() == t.1 && s1.len() == s0.len() && (forall|j: int|
            0 <= j < s0.len() && j != i ==> s1[j] == s0[j]) && elem_received(s0[i], s1[i], t.0, tick, t.2)
    ||| (forall|i: int| 0 <= i < s0.len() ==> #[trigger] s0[i].name() != t.1) && s1 == s0
}

pub open spec fn names_of(v: Seq<Element>) -> Seq<Seq<char>> {
    v.map_values(|e: Element| e.name())
}

pub struct Simulator {
    pub elements: Vec<Element>,
    /// The last tick run, if any.
    pub clock: Option<u64>,
    /// The trace id the next generated message gets.
    pub next_uid: u64,
}

impl Simulator {
    pub open spec fn ids(&self) -> Seq<Seq<char>> {
        names_of(self.elements@)
    }

    pub open spec fn has_id(&self, id: Seq<char>) -> bool {
        self.ids().contains(id)
    }

    pub open spec fn has_node(&self, id: Seq<char>) -> bool {
        exists|i: int| 0 <= i < self.elements@.len() && (#[trigger] self.elements@[i]).name() == id
            && self.elements@[i].is_node()
    }

    /// Every element is well-formed (so every node queue is within its capacity), and ids
    /// are unique.
    pub open spec fn wf(&self) -> bool {
        &&& forall|i: int| 0 <= i < self.elements@.len() ==> (#[trigger] self.elements@[i]).ok(self.clock)
        &&& forall|i: int, j: int|
            0 <= i < self.elements@.len() && 0 <= j < self.elements@.len() && i != j ==> (#[trigger] self.elements@[i]).name()
                != (#[trigger] self.elements@[j]).name()
    }

    /// No node holds more messages than its capacity: `wf` bounds every queue, and every
    /// operation of the simulator keeps `wf`.
    pub proof fn lemma_queues_within_capacity(&self)
        requires
            self.wf(),
        ensures
            forall|i: int|
                0 <= i < self.elements@.len() ==> match #[trigger] self.elements@[i] {
                    Element::Node(n) => crate::node::queue_items(n.queue).len() <= n.capacity,
                    Element::Edge(_) => true,
                },
    {
        assert forall|i: int| 0 <= i < self.elements@.len() implies match #[trigger] self.elements@[i] {
            Element::Node(n) => crate::node::queue_items(n.queue).len() <= n.capacity,
            Element::Edge(_) => true,
        } by {
            assert(self.elements@[i].ok(self.clock));
        }
    }

    pub fn new() -> (r: Simulator)
        ensures
            r.wf(),
            r.elements@.len() == 0,
            r.clock is None,
    {
        Simulator { elements: Vec::new(), clock: None, next_uid: 0 }
    }

    /// Index of the element named `id`, if any.
    pub fn find(&self, id: &String) -> (r: Option<usize>)
        ensures
            r matches Some(i) ==> i < self.elements@.len() && self.elements@[i as int].name() == id@,
            r is None ==> !self.has_id(id@),
    {
        let mut i: usize = 0;
        while i < self.elements.len()
            invariant
                i <= self.elements@.len(),
                forall|j: int| 0 <= j < i ==> (#[trigger] self.elements@[j]).name() != id@,
            decreases self.elements@.len() - i,
        {
            if *self.elements[i].id() == *id {
                return Some(i);
            }
            i += 1;
        }
        assert forall|j: int| 0 <= j < self.ids().len() implies #[trigger] self.ids()[j] != id@ by {
            assert(self.ids()[j] == self.elements@[j].name());
        }
        None
    }

    /// Registers a node; fails with `DuplicateId` when the id is taken.
    pub fn add_node(
        &mut self,
        id: &str,
        capacity: u32,
        egress_rate: u32,
        generation_rate: u32,
        plugin: Option<&str>,
    ) -> (r: Result<(), SimError>)
        requires
            old(self).wf(),
            capacity >= 1,
        ensures
            final(self).wf(),
            final(self).clock == old(self).clock,
            r == Err::<(), SimError>(SimError::DuplicateId) <==> old(self).has_id(id@),
            r is Ok ==> final(self).ids() == old(self).ids().push(id@) && final(self).has_node(id@),
            r is Ok ==> final(self).elements@.drop_last() == old(self).elements@ && match final(self).elements@.last() {
                Element::Node(n) => n.id@ == id@ && n.capacity == capacity && n.egress_rate == egress_rate
                    && n.generation_rate == generation_rate && (n.plugin is Some == plugin is Some) && crate::node::queue_items(n.queue).len() == 0
                    && n.neighbors@.len() == 0,
                Element::Edge(_) => false,
            },
            r is Err ==> final(self).elements == old(self).elements,
    {
        let name = id.to_owned();
        match self.find(&name) {
            Some(i) => {
                assert(self.ids()[i as int] == id@);
                return Err(SimError::DuplicateId);
            },
            None => {},
        }
        let seed = self.elements.len() as u64;
        let node = Node::new(id, capacity, egress_rate, generation_rate, plugin, seed);
        self.elements.push(Element::Node(node));
        assert(self.elements@.drop_last() =~= old(self).elements@);
        assert(self.ids() =~= old(self).ids().push(id@));
        assert(self.elements@[self.elements@.len() - 1].name() == id@);
        proof {
            assert forall|i: int, j: int|
                0 <= i < self.elements@.len() && 0 <= j < self.elements@.len() && i != j implies (#[trigger] self.elements@[i]).name()
                    != (#[trigger] self.elements@[j]).name() by {
                let n = old(self).elements@.len() as int;
                if i == n {
                    assert(old(self).ids()[j] == self.elements@[j].name());
                } else if j == n {
                    assert(old(self).ids()[i] == self.elements@[i].name());
                }
            }
        }
        Ok(())
    }

    proof fn lemma_node_has_id(&self, id: Seq<char>)
        ensures
            self.has_node(id) ==> self.has_id(id),
    {
        if self.has_node(id) {
            let k = choose|k: int| 0 <= k < self.elements@.len() && (#[trigger] self.elements@[k]).name() == id
                && self.elements@[k].is_node();
            assert(self.ids()[k] == id);
        }
    }

    /// Adds a connection to node `target`, keeping everything else.
    fn connect(&mut self, target: usize, edge_id: &str)
        requires
            old(self).wf(),
            target < old(self).elements@.len(),
        ensures
            final(self).wf(),
            final(self).clock == old(self).clock,
            final(self).ids() == old(self).ids(),
            final(self).elements@.len() == old(self).elements@.len(),
            forall|i: int| 0 <= i < old(self).elements@.len() ==> (#[trigger] final(self).elements@[i]).is_node() == old(self).elements@[i].is_node(),
            forall|i: int| 0 <= i < old(self).elements@.len() && i != target ==> #[trigger] final(self).elements@[i] == old(self).elements@[i],
            connected(old(self).elements@[target as int], final(self).elements@[target as int], edge_id@),
    {
        let e = self.elements.remove(target);
        let e2 = match e {
            Element::Node(n) => {
                let mut n = n;
                let ghost before = n.neighbors@;
                let nb = edge_id.to_owned();
                let ghost nbv = nb@;
                n.add_connection(nb);
                assert(names(n.neighbors@) =~= names(before).push(nbv));
                Element::Node(n)
            },
            other => other,
        };
        self.elements.insert(target, e2);
        assert(self.ids() =~= old(self).ids());
        assert forall|i: int| 0 <= i < self.elements@.len() implies (#[trigger] self.elements@[i]).ok(self.clock) by {
            if i != target {
                assert(self.elements@[i] == old(self).elements@[i]);
            }
        }
        assert forall|i: int, j: int|
            0 <= i < self.elements@.len() && 0 <= j < self.elements@.len() && i != j implies (#[trigger] self.elements@[i]).name()
                != (#[trigger] self.elements@[j]).name() by {
            assert(self.ids()[i] == old(self).ids()[i]);
            assert(self.ids()[j] == old(self).ids()[j]);
            assert(old(self).ids()[i] == old(self).elements@[i].name());
            assert(old(self).ids()[j] == old(self).elements@[j].name());
        }
        assert forall|i: int| 0 <= i < old(self).elements@.len() implies (#[trigger] self.elements@[i]).is_node() == old(self).elements@[i].is_node() by {
            if i != target {
                assert(self.elements@[i] == old(self).elements@[i]);
            }
        }
    }

    /// Registers an edge between two nodes and adds it to their neighbor lists (to `a`'s
    /// only, when one-way). Fails with `DuplicateId` when the id is taken, else with
    /// `UnknownEndpoint` when an endpoint is not a registered node.
    pub fn add_edge(
        &mut self,
        latency: u64,
        id: &str,
        endpoint_a: &str,
        endpoint_b: &str,
        unidirectional: bool,
    ) -> (r: Result<(), SimError>)
        requires
            old(self).wf(),
            latency >= 1,
        ensures
            final(self).wf(),
            final(self).clock == old(self).clock,
            r == Err::<(), SimError>(SimError::DuplicateId) <==> old(self).has_id(id@),
            r == Err::<(), SimError>(SimError::UnknownEndpoint) <==> !old(self).has_id(id@) && !(old(
                self,
            ).has_node(endpoint_a@) && old(self).has_node(endpoint_b@)),
            r is Ok ==> final(self).ids() == old(self).ids().push(id@),
            r is Ok ==> final(self).elements@.len() == old(self).elements@.len() + 1 && match final(self).elements@.last() {
                Element::Edge(e) => e.id@ == id@ && e.latency == latency && e.endpoint_a@ == endpoint_a@
                    && e.endpoint_b@ == endpoint_b@ && e.unidirectional == unidirectional && e.queue@.len() == 0,
                Element::Node(_) => false,
            },
            r is Ok ==> forall|i: int|
                0 <= i < old(self).elements@.len() ==> rewired(
                    old(self).elements@[i],
                    #[trigger] final(self).elements@[i],
                    id@,
                    endpoint_a@,
                    endpoint_b@,
                    unidirectional,
                ),
            r is Err ==> final(self).elements == old(self).elements,
    {
        let name = id.to_owned();
        match self.find(&name) {
            Some(i) => {
                assert(self.ids()[i as int] == id@);
                return Err(SimError::DuplicateId);
            },
            None => {},
        }
        let a = match self.find(&endpoint_a.to_owned()) {
            Some(i) => i,
            None => {
                proof {
                    self.lemma_node_has_id(endpoint_a@);
                }
                return Err(SimError::UnknownEndpoint);
            },
        };
        let b = match self.find(&endpoint_b.to_owned()) {
            Some(i) => i,
            None => {
                proof {
                    self.lemma_node_has_id(endpoint_b@);
                }
                return Err(SimError::UnknownEndpoint);
            },
        };
        let a_is_node = match &self.elements[a] {
            Element::Node(_) => true,
            Element::Edge(_) => false,
        };
        let b_is_node = match &self.elements[b] {
            Element::Node(_) => true,
            Element::Edge(_) => false,
        };
        proof {
            assert(old(self).has_node(endpoint_a@) == a_is_node) by {
                if old(self).has_node(endpoint_a@) {
                    let k = choose|k: int| 0 <= k < old(self).elements@.len() && (#[trigger] old(self).elements@[k]).name() == endpoint_a@
                        && old(self).elements@[k].is_node();
                    assert(k == a);
                }
            }
            assert(old(self).has_node(endpoint_b@) == b_is_node) by {
                if old(self).has_node(endpoint_b@) {
                    let k = choose|k: int| 0 <= k < old(self).elements@.len() && (#[trigger] old(self).elements@[k]).name() == endpoint_b@
                        && old(self).elements@[k].is_node();
                    assert(k == b);
                }
            }
        }
        if !a_is_node || !b_is_node {
            return Err(SimError::UnknownEndpoint);
        }
        let ghost s0 = self.elements@;
        self.connect(a, id);
        let ghost s1 = self.elements@;
        if !unidirectional {
            self.connect(b, id);
        }
        let ghost s2 = self.elements@;
        proof {
            assert forall|i: int| 0 <= i < s0.len() implies rewired(s0[i], #[trigger] s2[i], id@, endpoint_a@, endpoint_b@, unidirectional) by {
                assert(old(self).ids()[i] == s0[i].name());
                assert(old(self).ids()[a as int] == s0[a as int].name());
                assert(old(self).ids()[b as int] == s0[b as int].name());
                let at_a = s0[i].name() == endpoint_a@;
                let at_b = !unidirectional && s0[i].name() == endpoint_b@;
                assert(at_a == (i == a));
                assert(!unidirectional ==> (s0[i].name() == endpoint_b@) == (i == b));
                if unidirectional {
                    assert(s2 == s1);
                }
                if at_a && at_b {
                    assert(connected(s0[i], s1[i], id@) && connected(s1[i], s2[i], id@));
                } else if at_a {
                    if !unidirectional {
                        assert(s2[i] == s1[i]);
                    }
                } else if at_b {
                    assert(s1[i] == s0[i]);
                } else {
                    assert(s1[i] == s0[i]);
                    if !unidirectional {
                        assert(s2[i] == s1[i]);
                    }
                }
            }
        }
        let ghost before = self.ids();
        let edge = Edge::new(latency, id, endpoint_a, endpoint_b, unidirectional);
        self.elements.push(Element::Edge(edge));
        assert(self.ids() =~= before.push(id@));
        proof {
            assert forall|i: int, j: int|
                0 <= i < self.elements@.len() && 0 <= j < self.elements@.len() && i != j implies (#[trigger] self.elements@[i]).name()
                    != (#[trigger] self.elements@[j]).name() by {
                let n = old(self).elements@.len() as int;
                assert(self.ids()[i] == self.elements@[i].name());
                assert(self.ids()[j] == self.elements@[j].name());
                if i == n {
                    assert(old(self).ids()[j] == old(self).elements@[j].name());
                } else if j == n {
                    assert(old(self).ids()[i] == old(self).elements@[i].name());
                } else {
                    assert(old(self).ids()[i] == old(self).elements@[i].name());
                    assert(old(self).ids()[j] == old(self).elements@[j].name());
                }
            }
            assert forall|i: int| 0 <= i < self.elements@.len() implies (#[trigger] self.elements@[i]).ok(self.clock) by {}
        }
        Ok(())
    }

    /// One step at tick `tick`: every element ticks, in registration order, and what they
    /// send is delivered afterwards, in the order sent; a message for an unknown element is
    /// dropped. Elements stay well-formed, so no node queue ever exceeds its capacity.
    pub fn tick(&mut self, tick: u64)
        requires
            old(self).wf(),
            old(self).clock matches Some(c) ==> tick == c + 1,
        ensures
            final(self).wf(),
            final(self).clock == Some(tick),
            final(self).ids() == old(self).ids(),
            forall|i: int| 0 <= i < final(self).elements@.len() ==> (#[trigger] final(self).elements@[i]).ran(Some(tick)),
            exists|mid: Seq<Element>, outs: Seq<Seq<(Rpc, String)>>, uids: Seq<u64>, steps: Seq<Seq<Element>>|
                #[trigger] Simulator::tick_trace(*old(self), *final(self), tick, mid, outs, uids, steps),
    {
        let n = self.elements.len();
        let ghost ids0 = old(self).ids();
        let ghost mut outs: Seq<Seq<(Rpc, String)>> = Seq::empty();
        let ghost mut uids: Seq<u64> = seq![old(self).next_uid];
        let mut transfers: Vec<(Rpc, String, String)> = Vec::new();
        let mut i: usize = 0;
        while i < n
            invariant
                i <= n,
                n == self.elements@.len(),
                n == old(self).elements@.len(),
                ids0 == old(self).ids(),
                self.clock == old(self).clock,
                old(self).clock matches Some(c) ==> tick == c + 1,
                self.ids() == old(self).ids(),
                forall|j: int| 0 <= j < i ==> (#[trigger] self.elements@[j]).ran(Some(tick)),
                forall|j: int| i <= j < n ==> (#[trigger] self.elements@[j]).ok(old(self).clock),
                forall|j: int| i <= j < n ==> #[trigger] self.elements@[j] == old(self).elements@[j],
                outs.len() == i,
                uids.len() == i + 1,
                uids[0] == old(self).next_uid,
                uids[i as int] == self.next_uid,
                forall|j: int|
                    0 <= j < i ==> #[trigger] elem_ticked(
                        old(self).elements@[j],
                        self.elements@[j],
                        tick,
                        uids[j],
                        uids[j + 1],
                        outs[j],
                    ),
                transfers_view(transfers@) == sent_by(outs, ids0),
            decreases n - i,
        {
            let ghost u_before = self.next_uid;
            let ghost e_old = self.elements@[i as int];
            let e = self.elements.remove(i);
            let ghost before = self.elements@;
            let mut sent: Vec<(Rpc, String)> = Vec::new();
            let e2 = match e {
                Element::Node(node) => {
                    let mut node = node;
                    sent = node.tick(tick, &mut self.next_uid);
                    Element::Node(node)
                },
                Element::Edge(edge) => {
                    let mut edge = edge;
                    sent = edge.tick(tick);
                    Element::Edge(edge)
                },
            };
            assert(elem_ticked(e_old, e2, tick, u_before, self.next_uid, sent@));
            let sender = e2.id().clone();
            assert(sender@ == ids0[i as int]) by {
                assert(old(self).ids()[i as int] == old(self).elements@[i as int].name());
            }
            let ghost t0 = transfers_view(transfers@);
            let ghost who = ids0[i as int];
            let mut k: usize = 0;
            while k < sent.len()
                invariant
                    k <= sent@.len(),
                    sender@ == who,
                    transfers_view(transfers@) == t0 + tagged(sent@.take(k as int), who),
                decreases sent@.len() - k,
            {
                let ghost tb = transfers@;
                transfers.push((sent[k].0.duplicate(), sent[k].1.clone(), sender.clone()));
                assert(transfers_view(transfers@) =~= transfers_view(tb).push(
                    (sent@[k as int].0@, sent@[k as int].1@, who),
                ));
                assert(tagged(sent@.take(k + 1), who) =~= tagged(sent@.take(k as int), who).push(
                    (sent@[k as int].0@, sent@[k as int].1@, who),
                ));
                k += 1;
            }
            proof {
                assert(sent@.take(sent@.len() as int) =~= sent@);
                let o2 = outs.push(sent@);
                assert(o2.drop_last() =~= outs);
                assert(o2.last() == sent@);
                assert(sent_by(o2, ids0) =~= t0 + tagged(sent@, who));
                outs = o2;
                uids = uids.push(self.next_uid);
            }
            self.elements.insert(i, e2);
            assert(self.ids() =~= old(self).ids()) by {
                assert forall|j: int| 0 <= j < n implies #[trigger] self.ids()[j] == old(self).ids()[j] by {
                    if j < i {
                        assert(self.elements@[j] == before[j]);
                    } else if j > i {
                        assert(self.elements@[j] == before[j - 1]);
                    }
                }
            }
            assert forall|j: int| 0 <= j < i + 1 implies (#[trigger] self.elements@[j]).ran(Some(tick)) by {
                if j < i {
                    assert(self.elements@[j] == before[j]);
                }
            }
            assert forall|j: int| i + 1 <= j < n implies (#[trigger] self.elements@[j]).ok(old(self).clock) by {
                assert(self.elements@[j] == before[j - 1]);
            }
            assert forall|j: int| i + 1 <= j < n implies #[trigger] self.elements@[j] == old(self).elements@[j] by {
                assert(self.elements@[j] == before[j - 1]);
            }
            assert forall|j: int|
                0 <= j < i + 1 implies #[trigger] elem_ticked(
                old(self).elements@[j],
                self.elements@[j],
                tick,
                uids[j],
                uids[j + 1],
                outs[j],
            ) by {
                if j < i {
                    assert(self.elements@[j] == before[j]);
                }
            }
            i += 1;
        }
        let ghost mid = self.elements@;
        let ghost sent_all = transfers_view(transfers@);
        let ghost mut steps: Seq<Seq<Element>> = seq![mid];
        let mut k: usize = 0;
        while k < transfers.len()
            invariant
                k <= transfers@.len(),
                n == self.elements@.len(),
                self.ids() == old(self).ids(),
                forall|j: int| 0 <= j < n ==> (#[trigger] self.elements@[j]).ran(Some(tick)),
                sent_all == transfers_view(transfers@),
                uids.len() == n + 1,
                uids[n as int] == self.next_uid,
                steps.len() == k + 1,
                steps[0] == mid,
                steps[k as int] == self.elements@,
                forall|j: int| 0 <= j < k ==> #[trigger] delivered(steps[j], steps[j + 1], sent_all[j], tick),
            decreases transfers@.len() - k,
        {
            let msg = transfers[k].0.duplicate();
            let dest = transfers[k].1.clone();
            let sender = transfers[k].2.clone();
            let ghost s0 = self.elements@;
            assert(sent_all[k as int] == (msg@, dest@, sender@));
            match self.find(&dest) {
                None => {
                    assert forall|j: int| 0 <= j < s0.len() implies #[trigger] s0[j].name() != dest@ by {
                        assert(self.ids()[j] == s0[j].name());
                    }
                },
                Some(t) => {
                    let e = self.elements.remove(t);
                    let ghost before = self.elements@;
                    let e2 = match e {
                        Element::Node(node) => {
                            let mut node = node;
                            node.recv(msg, tick, sender.as_str());
                            Element::Node(node)
                        },
                        Element::Edge(edge) => {
                            let mut edge = edge;
                            let ghost m = msg;
                            edge.recv(msg, tick, sender.as_str());
                            Element::Edge(edge)
                        },
                    };
                    assert(elem_received(s0[t as int], e2, sent_all[k as int].0, tick, sender@));
                    self.elements.insert(t, e2);
                    assert(self.ids() =~= old(self).ids()) by {
                        assert forall|j: int| 0 <= j < n implies #[trigger] self.ids()[j] == old(self).ids()[j] by {
                            if j < t {
                                assert(self.elements@[j] == before[j]);
                            } else if j > t {
                                assert(self.elements@[j] == before[j - 1]);
                            }
                        }
                    }
                    assert forall|j: int| 0 <= j < n implies (#[trigger] self.elements@[j]).ran(Some(tick)) by {
                        if j < t {
                            assert(self.elements@[j] == before[j]);
                        } else if j > t {
                            assert(self.elements@[j] == before[j - 1]);
                        }
                    }
                    assert forall|j: int| 0 <= j < s0.len() && j != t implies self.elements@[j] == s0[j] by {
                        if j < t {
                            assert(self.elements@[j] == before[j]);
                        } else {
                            assert(self.elements@[j] == before[j - 1]);
                        }
                    }
                    assert(s0[t as int].name() == dest@);
                },
            }
            proof {
                let st2 = steps.push(self.elements@);
                assert(delivered(s0, self.elements@, sent_all[k as int], tick));
                assert forall|j: int| 0 <= j < k + 1 implies #[trigger] delivered(st2[j], st2[j + 1], sent_all[j], tick) by {
                    assert(st2[j] == steps[j] || j == k);
                    if j < k {
                        assert(st2[j + 1] == steps[j + 1]);
                    }
                }
                steps = st2;
            }
            k += 1;
        }
        self.clock = Some(tick);
        assert forall|i: int, j: int|
            0 <= i < self.elements@.len() && 0 <= j < self.elements@.len() && i != j implies (#[trigger] self.elements@[i]).name()
                != (#[trigger] self.elements@[j]).name() by {
            assert(self.ids()[i] == self.elements@[i].name());
            assert(self.ids()[j] == self.elements@[j].name());
            assert(old(self).ids()[i] == old(self).elements@[i].name());
            assert(old(self).ids()[j] == old(self).elements@[j].name());
        }
        assert(sent_all == sent_by(outs, old(self).ids()));
        assert(steps[sent_all.len() as int] == self.elements@);
        assert(uids[n as int] == self.next_uid);
        assert(Simulator::tick_trace(*old(self), *self, tick, mid, outs, uids, steps));
    }

    /// One tick at `tick` from `before` to `after`: each element ticked in registration order
    /// (`before`'s elements to `mid`, sending `outs`, with trace ids `uids`), then every message
    /// sent, in that order, delivered to the element it names (`steps`).
    pub open spec fn tick_trace(
        before: Simulator,
        after: Simulator,
        tick: u64,
        mid: Seq<Element>,
        outs: Seq<Seq<(Rpc, String)>>,
        uids: Seq<u64>,
        steps: Seq<Seq<Element>>,
    ) -> bool {
        let n = before.elements@.len();
        let sent = sent_by(outs, before.ids());
        &&& mid.len() == n
        &&& outs.len() == n
        &&& uids.len() == n + 1
        &&& uids[0] == before.next_uid
        &&& uids[n as int] == after.next_uid
        &&& forall|i: int|
            0 <= i < n ==> #[trigger] elem_ticked(before.elements@[i], mid[i], tick, uids[i], uids[i + 1], outs[i])
        &&& steps.len() == sent.len() + 1
        &&& steps[0] == mid
        &&& steps[sent.len() as int] == after.elements@
        &&& forall|k: int| 0 <= k < sent.len() ==> #[trigger] delivered(steps[k], steps[k + 1], sent[k], tick)
    }
}

} // verus!
