//! A service node: a bounded FIFO queue drained at an egress rate, optional spontaneous
//! traffic, an optional filter, and a list of neighbors.
use vstd::prelude::*;
use queues::{IsQueue, Queue};
use rand::rngs::StdRng;
use rand::{Rng, SeedableRng};
use crate::codec::{enc_nat, u64_to_string};
use crate::graph::lemma_attr_set_get;
use crate::plugin::{routable, PluginWrapper};
use crate::rpc::{Rpc, RpcModel};

verus! {

/// Relies on rand's `StdRng::seed_from_u64` and `Rng::gen_range(0, n)`: a value in `[0, n)`,
/// drawn from a generator seeded with `seed`.
#[verifier::external_body]
fn pick_index(seed: u64, n: usize) -> (r: usize)
    requires
        n > 0,
    ensures
        r < n,
{
    let mut rng: StdRng = SeedableRng::seed_from_u64(seed);
    rng.gen_range(0, n)
}

#[verifier::external_type_specification]
#[verifier::external_body]
#[verifier::reject_recursive_types(T)]
pub struct ExQueue<T: Clone>(Queue<T>);

/// The messages a node queue holds, oldest first.
pub uninterp spec fn queue_items(q: Queue<RpcWithDst>) -> Seq<RpcWithDst>;

/// Relies on queues' `Queue::new`: an empty queue.
#[verifier::external_body]
fn queue_new() -> (r: Queue<RpcWithDst>)
    ensures
        queue_items(r) == Seq::<RpcWithDst>::empty(),
{
    Queue::new()
}

/// Relies on queues' `IsQueue::add` for `Queue`: the value goes to the back, and adding
/// always succeeds.
#[verifier::external_body]
fn queue_add(q: &mut Queue<RpcWithDst>, x: RpcWithDst)
    ensures
        queue_items(*final(q)) == queue_items(*old(q)).push(x),
{
    let _ = q.add(x);
}

/// Relies on queues' `IsQueue::remove` for `Queue`: the oldest value leaves; an empty queue
/// gives an error and stays empty.
#[verifier::external_body]
fn queue_remove(q: &mut Queue<RpcWithDst>) -> (r: Option<RpcWithDst>)
    ensures
        queue_items(*old(q)).len() == 0 ==> r is None && queue_items(*final(q)) == queue_items(*old(q)),
        queue_items(*old(q)).len() > 0 ==> r == Some(queue_items(*old(q))[0]) && queue_items(*final(q))
            == queue_items(*old(q)).drop_first(),
{
    q.remove().ok()
}

/// Relies on queues' `IsQueue::size` for `Queue`: the number of values held.
#[verifier::external_body]
fn queue_size(q: &Queue<RpcWithDst>) -> (r: usize)
    ensures
        r == queue_items(*q).len(),
{
    q.size()
}

/// A message and the element it goes to next.
pub struct RpcWithDst {
    pub rpc: Rpc,
    pub destination: String,
}

pub struct Node {
    pub queue: Queue<RpcWithDst>,
    pub id: String,
    pub capacity: u32,
    pub egress_rate: u32,
    pub generation_rate: u32,
    pub plugin: Option<PluginWrapper>,
    pub neighbors: Vec<String>,
    pub seed: u64,
}

pub open spec fn names(v: Seq<String>) -> Seq<Seq<char>> {
    v.map_values(|s: String| s@)
}

impl Clone for RpcWithDst {
    fn clone(&self) -> (r: RpcWithDst)
        ensures
            r.rpc@ == self.rpc@,
            r.destination == self.destination,
    {
        RpcWithDst { rpc: self.rpc.duplicate(), destination: self.destination.clone() }
    }
}

/// Where routing sends `m` given `choice` among the neighbors: to the neighbor its `dest`
/// header names, else to the chosen neighbor, whose name is then written into `dest`.
pub open spec fn routed(m: RpcModel, neighbors: Seq<Seq<char>>, choice: int) -> Option<(RpcModel, Seq<char>)> {
    match m.header("dest"@) {
        Some(d) => if neighbors.contains(d) {
            Some((m, d))
        } else if neighbors.len() > 0 {
            Some((RpcModel { headers: crate::graph::attr_set(m.headers, "dest"@, neighbors[choice]), ..m }, neighbors[choice]))
        } else {
            None
        },
        None => if neighbors.len() > 0 {
            Some((RpcModel { headers: crate::graph::attr_set(m.headers, "dest"@, neighbors[choice]), ..m }, neighbors[choice]))
        } else {
            None
        },
    }
}

/// A freshly generated request: payload the tick, direction `request`, and a `dest` header
/// naming the neighbor it goes to.
pub open spec fn fresh_request(out: (Rpc, String), tick: u64, neighbors: Seq<Seq<char>>) -> bool {
    &&& out.0@.data == enc_nat(tick as nat)
    &&& out.0@.header("dest"@) == Some(out.1@)
    &&& out.0@.header("direction"@) == Some("request"@)
    &&& neighbors.contains(out.1@)
}

/// `q1` is `q0` with the message that routing `m` (with `choice`) gives appended, when
/// routing gives one and `q0` has room below `cap`; else `q1` is `q0`.
pub open spec fn queued_after_routing(
    q0: Seq<RpcWithDst>,
    q1: Seq<RpcWithDst>,
    m: RpcModel,
    neighbors: Seq<Seq<char>>,
    choice: int,
    cap: u32,
) -> bool {
    match routed(m, neighbors, choice) {
        Some((mm, d)) => if q0.len() < cap {
            q1.len() == q0.len() + 1 && q1.drop_last() == q0 && q1.last().rpc@ == mm && q1.last().destination@ == d
        } else {
            q1 == q0
        },
        None => q1 == q0,
    }
}

/// Routes `rpc` among `neighbors`, using `choice` when a neighbor must be picked.
pub fn route_with_choice(neighbors: &Vec<String>, rpc: Rpc, choice: usize) -> (r: Vec<RpcWithDst>)
    requires
        neighbors@.len() > 0 ==> choice < neighbors@.len(),
    ensures
        match routed(rpc@, names(neighbors@), choice as int) {
            Some((m, d)) => r@.len() == 1 && r@[0].rpc@ == m && r@[0].destination@ == d,
            None => r@.len() == 0,
        },
{
    let ghost nv = names(neighbors@);
    match rpc.header("dest") {
        Some(d) => {
            let mut i: usize = 0;
            while i < neighbors.len()
                invariant
                    i <= neighbors@.len(),
                    nv == names(neighbors@),
                    rpc@.header("dest"@) == Some(d@),
                    forall|j: int| 0 <= j < i ==> #[trigger] nv[j] != d@,
                decreases neighbors@.len() - i,
            {
                if neighbors[i] == d {
                    assert(nv[i as int] == d@);
                    assert(nv.contains(d@));
                    let r = vec![RpcWithDst { rpc, destination: d }];
                    assert(r@[0].rpc@ == rpc@ && r@[0].destination@ == d@);
                    return r;
                }
                i += 1;
            }
            assert(!nv.contains(d@));
        },
        None => {},
    }
    if neighbors.len() == 0 {
        return Vec::new();
    }
    let which = neighbors[choice].clone();
    let mut msg = rpc;
    msg.set_header("dest", which.clone());
    vec![RpcWithDst { rpc: msg, destination: which }]
}

/// Sets the `location` header, and `direction` to `request` when it names no direction.
pub fn mark_location(rpc: &mut Rpc, location: &str)
    requires
        location@ == "ingress"@ || location@ == "egress"@,
    ensures
        routable(final(rpc)@),
        final(rpc)@.data == old(rpc)@.data,
        final(rpc)@.uid == old(rpc)@.uid,
{
    let known = match rpc.header("direction") {
        Some(d) => d == "request".to_owned() || d == "response".to_owned(),
        None => false,
    };
    if !known {
        rpc.set_header("direction", "request".to_owned());
    }
    let ghost mid = rpc@.headers;
    rpc.set_header("location", location.to_owned());
    proof {
        reveal_strlit("direction");
        reveal_strlit("location");
        assert("direction"@.len() != "location"@.len());
        lemma_attr_set_get(mid, "location"@, location@, "direction"@);
        lemma_attr_set_get(mid, "location"@, location@, "location"@);
        if !known {
            lemma_attr_set_get(old(rpc)@.headers, "direction"@, "request"@, "direction"@);
        }
    }
}

/// The next fresh trace id; the counter advances unless at its maximum.
pub fn fresh_uid(next_uid: &mut u64) -> (r: u64)
    ensures
        r == *old(next_uid),
        *final(next_uid) == if *old(next_uid) < u64::MAX {
            (*old(next_uid) + 1) as u64
        } else {
            *old(next_uid)
        },
{
    let r = *next_uid;
    if r < u64::MAX {
        *next_uid = r + 1;
    }
    r
}

impl Node {
    /// What a tick at `tick` does, from this node to `after`, with trace ids `u0` before and
    /// `u1` after, sending `out`.
    pub open spec fn ticked(self, after: Node, tick: u64, u0: u64, u1: u64, out: Seq<(Rpc, String)>) -> bool {
        let q = queue_items(self.queue);
        let k = if q.len() < self.egress_rate {
            q.len()
        } else {
            self.egress_rate as nat
        };
        let g = if self.generation_rate < self.egress_rate {
            self.generation_rate
        } else {
            self.egress_rate
        };
        &&& after.wf()
        &&& queue_items(after.queue) == q.subrange(k as int, q.len() as int)
        &&& self.plugin is None && q.len() > 0 ==> out == q.take(k as int).map_values(
            |x: RpcWithDst| (x.rpc, x.destination),
        )
        &&& self.plugin is None && q.len() == 0 ==> {
            &&& out.len() <= g
            &&& self.neighbors@.len() > 0 ==> out.len() == g
            &&& forall|i: int| 0 <= i < out.len() ==> #[trigger] fresh_request(out[i], tick, names(self.neighbors@))
            &&& u0 + g <= u64::MAX && self.neighbors@.len() > 0 ==> u1 == u0 + g && forall|i: int|
                0 <= i < out.len() ==> (#[trigger] out[i]).0.uid == u0 + i
        }
        &&& after.capacity == self.capacity
        &&& after.neighbors == self.neighbors
        &&& after.id == self.id
        &&& after.egress_rate == self.egress_rate
        &&& after.generation_rate == self.generation_rate
        &&& after.seed == self.seed
        &&& after.plugin is Some == self.plugin is Some
    }

    /// What receiving `m` does, from this node to `after`.
    pub open spec fn received(self, after: Node, m: RpcModel) -> bool {
        &&& after.wf()
        &&& queue_items(self.queue).len() >= self.capacity ==> queue_items(after.queue) == queue_items(self.queue) && after.plugin
                    == self.plugin
        &&& queue_items(self.queue).len() < self.capacity && self.plugin is None ==> after.plugin is None
                    && exists|c: int|
                    (self.neighbors@.len() > 0 ==> 0 <= c < self.neighbors@.len()) && #[trigger] queued_after_routing(
                        queue_items(self.queue),
                        queue_items(after.queue),
                        m,
                        names(self.neighbors@),
                        c,
                        self.capacity,
                    )
        &&& queue_items(after.queue).take(queue_items(self.queue).len() as int) == queue_items(self.queue)
        &&& queue_items(self.queue).len() <= queue_items(after.queue).len()
        &&& after.capacity == self.capacity
        &&& after.neighbors == self.neighbors
        &&& after.id == self.id
        &&& after.egress_rate == self.egress_rate
        &&& after.generation_rate == self.generation_rate
        &&& after.seed == self.seed
        &&& after.plugin is Some == self.plugin is Some
    }

    /// The queue holds at most `capacity` messages; an idle filter holds no message.
    pub open spec fn wf(&self) -> bool {
        &&& queue_items(self.queue).len() <= self.capacity
        &&& self.plugin matches Some(p) ==> p.wf() && p.stored_rpc is None
    }

    pub fn new(
        id: &str,
        capacity: u32,
        egress_rate: u32,
        generation_rate: u32,
        plugin: Option<&str>,
        seed: u64,
    ) -> (r: Node)
        requires
            capacity >= 1,
        ensures
            r.wf(),
            r.id@ == id@,
            r.capacity == capacity,
            r.egress_rate == egress_rate,
            r.generation_rate == generation_rate,
            r.seed == seed,
            queue_items(r.queue).len() == 0,
            r.neighbors@.len() == 0,
            r.plugin is Some == plugin is Some,
    {
        let created = match plugin {
            Some(path) => {
                let mut plugin_id = id.to_owned();
                plugin_id.append("_plugin");
                let mut p = PluginWrapper::new(plugin_id.as_str(), path, id);
                p.add_connection(id.to_owned());
                Some(p)
            },
            None => None,
        };
        Node {
            queue: queue_new(),
            id: id.to_owned(),
            capacity,
            egress_rate,
            generation_rate,
            plugin: created,
            neighbors: Vec::new(),
            seed,
        }
    }

    pub fn add_connection(&mut self, neighbor: String)
        ensures
            final(self).neighbors@ == old(self).neighbors@.push(neighbor),
            final(self).queue == old(self).queue,
            final(self).capacity == old(self).capacity,
            final(self).plugin == old(self).plugin,
            final(self).id == old(self).id,
            final(self).egress_rate == old(self).egress_rate,
            final(self).generation_rate == old(self).generation_rate,
            final(self).seed == old(self).seed,
    {
        self.neighbors.push(neighbor);
    }

    pub fn whoami(&self) -> (r: &String)
        ensures
            r == &self.id,
    {
        &self.id
    }

    pub fn neighbors(&self) -> (r: &Vec<String>)
        ensures
            r == &self.neighbors,
    {
        &self.neighbors
    }

    /// Appends `x` to the queue unless it is full; a full queue drops it.
    pub fn enqueue(&mut self, x: RpcWithDst, _now: u64)
        requires
            old(self).wf(),
        ensures
            final(self).wf(),
            queue_items(final(self).queue) == if queue_items(old(self).queue).len() < old(self).capacity {
                queue_items(old(self).queue).push(x)
            } else {
                queue_items(old(self).queue)
            },
            final(self).capacity == old(self).capacity,
            final(self).plugin == old(self).plugin,
            final(self).neighbors == old(self).neighbors,
            final(self).id == old(self).id,
            final(self).egress_rate == old(self).egress_rate,
            final(self).generation_rate == old(self).generation_rate,
            final(self).seed == old(self).seed,
    {
        if queue_size(&self.queue) < self.capacity as usize {
            queue_add(&mut self.queue, x);
        }
    }

    /// Takes the oldest message of the queue.
    pub fn dequeue(&mut self, _now: u64) -> (r: Option<RpcWithDst>)
        requires
            old(self).wf(),
        ensures
            final(self).wf(),
            queue_items(old(self).queue).len() == 0 ==> r is None && queue_items(final(self).queue) == queue_items(old(self).queue),
            queue_items(old(self).queue).len() > 0 ==> r == Some(queue_items(old(self).queue)[0]) && queue_items(final(self).queue)
                == queue_items(old(self).queue).drop_first(),
            final(self).capacity == old(self).capacity,
            final(self).plugin == old(self).plugin,
            final(self).neighbors == old(self).neighbors,
            final(self).id == old(self).id,
            final(self).egress_rate == old(self).egress_rate,
            final(self).generation_rate == old(self).generation_rate,
            final(self).seed == old(self).seed,
    {
        let r = queue_remove(&mut self.queue);
        assert(queue_items(old(self).queue).len() > 0 ==> queue_items(self.queue) =~= queue_items(old(self).queue).drop_first());
        r
    }

    /// Routes `rpc` among the neighbors; the pick, when one is needed, comes from a
    /// generator seeded with the node's seed.
    pub fn route_rpc(&self, rpc: Rpc) -> (r: Vec<RpcWithDst>)
        ensures
            exists|c: int|
                (self.neighbors@.len() > 0 ==> 0 <= c < self.neighbors@.len()) && match #[trigger] routed(
                    rpc@,
                    names(self.neighbors@),
                    c,
                ) {
                    Some((m, d)) => r@.len() == 1 && r@[0].rpc@ == m && r@[0].destination@ == d,
                    None => r@.len() == 0,
                },
    {
        let choice = if self.neighbors.len() > 0 {
            pick_index(self.seed, self.neighbors.len())
        } else {
            0
        };
        route_with_choice(&self.neighbors, rpc, choice)
    }

    /// Routes `rpc` and queues what comes out, as far as the queue has room.
    fn route_and_enqueue(&mut self, rpc: Rpc, tick: u64)
        requires
            old(self).wf(),
        ensures
            final(self).wf(),
            final(self).capacity == old(self).capacity,
            final(self).plugin == old(self).plugin,
            final(self).neighbors == old(self).neighbors,
            final(self).id == old(self).id,
            final(self).egress_rate == old(self).egress_rate,
            final(self).generation_rate == old(self).generation_rate,
            final(self).seed == old(self).seed,
            exists|c: int|
                (old(self).neighbors@.len() > 0 ==> 0 <= c < old(self).neighbors@.len()) && #[trigger] queued_after_routing(
                    queue_items(old(self).queue),
                    queue_items(final(self).queue),
                    rpc@,
                    names(old(self).neighbors@),
                    c,
                    old(self).capacity,
                ),
    {
        let ghost m0 = rpc@;
        let routed_rpcs = self.route_rpc(rpc);
        let ghost c0 = choose|c: int|
            (self.neighbors@.len() > 0 ==> 0 <= c < self.neighbors@.len()) && match #[trigger] routed(
                m0,
                names(self.neighbors@),
                c,
            ) {
                Some((m, d)) => routed_rpcs@.len() == 1 && routed_rpcs@[0].rpc@ == m && routed_rpcs@[0].destination@ == d,
                None => routed_rpcs@.len() == 0,
            };
        if routed_rpcs.len() > 0 {
            let mut routed_rpcs = routed_rpcs;
            let item = routed_rpcs.swap_remove(0);
            self.enqueue(item, tick);
            assert(queue_items(self.queue).len() == queue_items(old(self).queue).len() + 1 ==> queue_items(self.queue).drop_last() =~= queue_items(old(self).queue));
        }
        assert(queued_after_routing(queue_items(old(self).queue), queue_items(self.queue), m0, names(old(self).neighbors@), c0, old(self).capacity));
    }

    /// Receives a message: when the queue has room, it passes the ingress filter (if any),
    /// and each result is routed and queued while room remains; a full queue drops it.
    pub fn recv(&mut self, rpc: Rpc, tick: u64, _sender: &str)
        requires
            old(self).wf(),
        ensures
            old(self).received(*final(self), rpc@),

    {
        if queue_size(&self.queue) >= self.capacity as usize {
            assert(queue_items(self.queue).take(queue_items(self.queue).len() as int) =~= queue_items(self.queue));
            return;
        }
        let plugin = self.plugin.take();
        match plugin {
            None => {
                self.route_and_enqueue(rpc, tick);
                proof {
                    let c = choose|c: int|
                        (old(self).neighbors@.len() > 0 ==> 0 <= c < old(self).neighbors@.len()) && #[trigger] queued_after_routing(
                            queue_items(old(self).queue),
                            queue_items(self.queue),
                            rpc@,
                            names(old(self).neighbors@),
                            c,
                            old(self).capacity,
                        );
                    if queue_items(self.queue).len() == queue_items(old(self).queue).len() + 1 {
                        assert(queue_items(self.queue).take(queue_items(old(self).queue).len() as int) =~= queue_items(self.queue).drop_last());
                    } else {
                        assert(queue_items(self.queue).take(queue_items(old(self).queue).len() as int) =~= queue_items(self.queue));
                    }
                }
            },
            Some(p) => {
                let mut p = p;
                let mut m = rpc;
                mark_location(&mut m, "ingress");
                p.recv(m, tick, self.id.as_str());
                let outs = p.tick(tick);
                self.plugin = Some(p);
                let mut i: usize = 0;
                assert(queue_items(self.queue).take(queue_items(old(self).queue).len() as int) =~= queue_items(old(self).queue));
                while i < outs.len()
                    invariant
                        i <= outs@.len(),
                        self.wf(),
                        self.plugin is Some,
                        queue_items(old(self).queue).len() <= queue_items(self.queue).len(),
                        queue_items(self.queue).take(queue_items(old(self).queue).len() as int) == queue_items(old(self).queue),
                        self.capacity == old(self).capacity,
                        self.neighbors == old(self).neighbors,
                        self.id == old(self).id,
                        self.egress_rate == old(self).egress_rate,
                        self.generation_rate == old(self).generation_rate,
                        self.seed == old(self).seed,
                    decreases outs@.len() - i,
                {
                    let ghost before = queue_items(self.queue);
                    self.route_and_enqueue(outs[i].0.duplicate(), tick);
                    proof {
                        let c = choose|c: int|
                            (self.neighbors@.len() > 0 ==> 0 <= c < self.neighbors@.len()) && #[trigger] queued_after_routing(
                                before,
                                queue_items(self.queue),
                                outs@[i as int].0@,
                                names(self.neighbors@),
                                c,
                                self.capacity,
                            );
                        if queue_items(self.queue).len() == before.len() + 1 {
                            assert(queue_items(self.queue).take(queue_items(old(self).queue).len() as int) =~= before.take(queue_items(old(self).queue).len() as int));
                        }
                    }
                    i += 1;
                }
            },
        }
    }

    /// Sends `rpc` through the egress filter, when there is one, and collects what comes out
    /// with the destination its `dest` header names.
    fn emit(&mut self, rpc: Rpc, destination: String, tick: u64, out: &mut Vec<(Rpc, String)>)
        requires
            old(self).wf(),
        ensures
            final(self).wf(),
            final(self).queue == old(self).queue,
            final(self).capacity == old(self).capacity,
            final(self).neighbors == old(self).neighbors,
            final(self).id == old(self).id,
            final(self).egress_rate == old(self).egress_rate,
            final(self).generation_rate == old(self).generation_rate,
            final(self).seed == old(self).seed,
            final(self).plugin is Some == old(self).plugin is Some,
            old(self).plugin is None ==> final(out)@ == old(out)@.push((rpc, destination)),
    {
        let plugin = self.plugin.take();
        match plugin {
            None => {
                out.push((rpc, destination));
            },
            Some(p) => {
                let mut p = p;
                let mut m = rpc;
                mark_location(&mut m, "egress");
                p.recv(m, tick, self.id.as_str());
                let filtered = p.tick(tick);
                self.plugin = Some(p);
                let mut i: usize = 0;
                while i < filtered.len()
                    invariant
                        i <= filtered@.len(),
                    decreases filtered@.len() - i,
                {
                    match &filtered[i].1 {
                        Some(d) => {
                            out.push((filtered[i].0.duplicate(), d.clone()));
                        },
                        None => {},
                    }
                    i += 1;
                }
            },
        }
    }

    /// One step. A non-empty queue sends up to `egress_rate` messages, oldest first. An empty
    /// queue instead synthesizes up to `generation_rate` (at most `egress_rate`) fresh requests
    /// whose payload is the tick, each routed to a neighbor.
    pub fn tick(&mut self, tick: u64, next_uid: &mut u64) -> (r: Vec<(Rpc, String)>)
        requires
            old(self).wf(),
        ensures
            old(self).ticked(*final(self), tick, *old(next_uid), *final(next_uid), r@),

    {
        let mut ret: Vec<(Rpc, String)> = Vec::new();
        let ghost q0 = queue_items(old(self).queue);
        if queue_size(&self.queue) > 0 {
            let k: usize = if queue_size(&self.queue) < self.egress_rate as usize {
                queue_size(&self.queue)
            } else {
                self.egress_rate as usize
            };
            let mut turn: usize = 0;
            while turn < k
                invariant
                    turn <= k,
                    k <= q0.len(),
                    k == if q0.len() < self.egress_rate { q0.len() as int } else { self.egress_rate as int },
                    q0 == queue_items(old(self).queue),
                    self.wf(),
                    queue_items(self.queue) == q0.subrange(turn as int, q0.len() as int),
                    old(self).plugin is None ==> self.plugin is None,
                    old(self).plugin is None ==> ret@ == q0.take(turn as int).map_values(
                        |x: RpcWithDst| (x.rpc, x.destination),
                    ),
                    self.capacity == old(self).capacity,
                    self.neighbors == old(self).neighbors,
                    self.id == old(self).id,
                    self.egress_rate == old(self).egress_rate,
                    self.generation_rate == old(self).generation_rate,
                    self.seed == old(self).seed,
                    self.plugin is Some == old(self).plugin is Some,
                decreases k - turn,
            {
                let item = match self.dequeue(tick) {
                    Some(x) => x,
                    None => {
                        return ret;
                    },
                };
                self.emit(item.rpc, item.destination, tick, &mut ret);
                proof {
                    assert(queue_items(self.queue) =~= q0.subrange(turn + 1, q0.len() as int));
                    if old(self).plugin is None {
                        assert(q0.take(turn + 1).map_values(|x: RpcWithDst| (x.rpc, x.destination)) =~= q0.take(
                            turn as int,
                        ).map_values(|x: RpcWithDst| (x.rpc, x.destination)).push((item.rpc, item.destination)));
                    }
                }
                turn += 1;
            }
        } else {
            let g: u32 = if self.generation_rate < self.egress_rate {
                self.generation_rate
            } else {
                self.egress_rate
            };
            let ghost u0 = *old(next_uid);
            let ghost nb = names(self.neighbors@);
            let mut turn: u32 = 0;
            while turn < g
                invariant
                    turn <= g,
                    g == if self.generation_rate < self.egress_rate { self.generation_rate } else { self.egress_rate },
                    q0 == queue_items(old(self).queue),
                    q0.len() == 0,
                    self.wf(),
                    queue_items(self.queue).len() == 0,
                    u0 == *old(next_uid),
                    nb == names(self.neighbors@),
                    old(self).plugin is None ==> self.plugin is None,
                    old(self).plugin is None ==> ret@.len() <= turn,
                    old(self).plugin is None && nb.len() > 0 ==> ret@.len() == turn,
                    old(self).plugin is None ==> forall|i: int| 0 <= i < ret@.len() ==> #[trigger] fresh_request(ret@[i], tick, nb),
                    u0 + g <= u64::MAX ==> *next_uid == u0 + turn,
                    old(self).plugin is None && u0 + g <= u64::MAX && nb.len() > 0 ==> forall|i: int|
                        0 <= i < ret@.len() ==> (#[trigger] ret@[i]).0.uid == u0 + i,
                    self.capacity == old(self).capacity,
                    self.neighbors == old(self).neighbors,
                    self.id == old(self).id,
                    self.egress_rate == old(self).egress_rate,
                    self.generation_rate == old(self).generation_rate,
                    self.seed == old(self).seed,
                    self.plugin is Some == old(self).plugin is Some,
                decreases g - turn,
            {
                let uid = fresh_uid(next_uid);
                let payload = u64_to_string(tick);
                let fresh = Rpc::new(payload.as_str(), uid);
                let ghost fm = fresh@;
                let routed_rpcs = self.route_rpc(fresh);
                let ghost c0 = choose|c: int|
                    (self.neighbors@.len() > 0 ==> 0 <= c < self.neighbors@.len()) && match #[trigger] routed(
                        fm,
                        names(self.neighbors@),
                        c,
                    ) {
                        Some((m, d)) => routed_rpcs@.len() == 1 && routed_rpcs@[0].rpc@ == m && routed_rpcs@[0].destination@ == d,
                        None => routed_rpcs@.len() == 0,
                    };
                proof {
                    assert(fm.header("dest"@) is None) by {
                        crate::graph::lemma_attr_index(fm.headers, "dest"@);
                    }
                }
                if routed_rpcs.len() > 0 {
                    let mut routed_rpcs = routed_rpcs;
                    let item = routed_rpcs.swap_remove(0);
                    let mut m = item.rpc;
                    let ghost h1 = m@.headers;
                    m.set_header("direction", "request".to_owned());
                    proof {
                        reveal_strlit("dest");
                        reveal_strlit("direction");
                        assert("dest"@.len() != "direction"@.len());
                        lemma_attr_set_get(h1, "direction"@, "request"@, "dest"@);
                        lemma_attr_set_get(h1, "direction"@, "request"@, "direction"@);
                        lemma_attr_set_get(fm.headers, "dest"@, nb[c0], "dest"@);
                        assert(nb.contains(nb[c0]));
                    }
                    let ghost before = ret@;
                    let ghost dest = item.destination;
                    self.emit(m, item.destination, tick, &mut ret);
                    proof {
                        if old(self).plugin is None {
                            assert(fresh_request(ret@[ret@.len() - 1], tick, nb));
                            assert forall|i: int| 0 <= i < ret@.len() implies #[trigger] fresh_request(ret@[i], tick, nb) by {
                                if i < before.len() {
                                    assert(ret@[i] == before[i]);
                                }
                            }
                            if u0 + g <= u64::MAX && nb.len() > 0 {
                                assert forall|i: int| 0 <= i < ret@.len() implies (#[trigger] ret@[i]).0.uid == u0 + i by {
                                    if i < before.len() {
                                        assert(ret@[i] == before[i]);
                                    }
                                }
                            }
                        }
                    }
                }
                turn += 1;
            }
        }
        proof {
            if q0.len() > 0 {
                let k = if q0.len() < self.egress_rate { q0.len() as int } else { self.egress_rate as int };
                assert(queue_items(self.queue) == q0.subrange(k, q0.len() as int));
            } else {
                assert(queue_items(self.queue) =~= q0.subrange(0, 0));
            }
        }
        ret
    }
}

} // verus!
