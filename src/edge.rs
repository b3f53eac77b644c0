//! A link between two nodes that delivers each message a fixed number of ticks after it
//! arrived, in arrival order.
use vstd::prelude::*;
use crate::rpc::Rpc;

verus! {

/// A message in flight: where it goes, ticks left, and the tick it arrived at.
pub struct EdgeEntry {
    pub rpc: Rpc,
    pub destination: String,
    pub remaining: u64,
    pub received: u64,
}

pub struct Edge {
    pub id: String,
    pub latency: u64,
    pub endpoint_a: String,
    pub endpoint_b: String,
    pub unidirectional: bool,
    pub queue: Vec<EdgeEntry>,
    /// The last tick this edge ran, if any.
    pub clock: Option<u64>,
}

/// The entries that leave at the next tick, in order.
pub open spec fn due(q: Seq<EdgeEntry>) -> Seq<EdgeEntry>
    decreases q.len(),
{
    if q.len() == 0 {
        Seq::empty()
    } else if q.last().remaining == 1 {
        due(q.drop_last()).push(q.last())
    } else {
        due(q.drop_last())
    }
}

/// The entries that stay after the next tick, one tick closer, in order.
pub open spec fn staying(q: Seq<EdgeEntry>) -> Seq<EdgeEntry>
    decreases q.len(),
{
    if q.len() == 0 {
        Seq::empty()
    } else if q.last().remaining == 1 {
        staying(q.drop_last())
    } else {
        staying(q.drop_last()).push(
            EdgeEntry { remaining: (q.last().remaining - 1) as u64, ..q.last() },
        )
    }
}

pub open spec fn deliveries(q: Seq<EdgeEntry>) -> Seq<(Rpc, String)> {
    due(q).map_values(|e: EdgeEntry| (e.rpc, e.destination))
}

impl Edge {
    /// What a tick at `tick` does, from this edge to `after`, sending `out`.
    pub open spec fn ticked(self, after: Edge, tick: u64, out: Seq<(Rpc, String)>) -> bool {
        &&& after.wf()
        &&& after.clock == Some(tick)
        &&& after.queue@ == staying(self.queue@)
        &&& out == deliveries(self.queue@)
        &&& forall|j: int|
                    0 <= j < due(self.queue@).len() ==> (#[trigger] due(self.queue@)[j]).received
                        + self.latency == tick
        &&& after.latency == self.latency
        &&& after.id == self.id
        &&& after.endpoint_a == self.endpoint_a
        &&& after.endpoint_b == self.endpoint_b
        &&& after.unidirectional == self.unidirectional
    }

    /// What receiving `m` from `from` at `tick` does, from this edge to `after`.
    pub open spec fn received(self, after: Edge, m: Rpc, tick: u64, from: Seq<char>) -> bool {
        &&& after.wf()
        &&& after.clock == Some(tick)
        &&& after.latency == self.latency
        &&& after.id == self.id
        &&& after.endpoint_a == self.endpoint_a
        &&& after.endpoint_b == self.endpoint_b
        &&& after.unidirectional == self.unidirectional
        &&& from == self.endpoint_a@ ==> after.queue@.len() == self.queue@.len() + 1
            && after.queue@.last().destination@ == self.endpoint_b@
        &&& from != self.endpoint_a@ && from == self.endpoint_b@ && !self.unidirectional ==> after.queue@.len()
            == self.queue@.len() + 1 && after.queue@.last().destination@ == self.endpoint_a@
        &&& after.queue@.len() == self.queue@.len() + 1 ==> after.queue@.drop_last() == self.queue@
            && after.queue@.last().rpc == m && after.queue@.last().received == tick && after.queue@.last().remaining
            == self.latency
        &&& after.queue@.len() == self.queue@.len() + 1 || after.queue@ == self.queue@
    }

    /// Positive latency; every entry has between 1 and `latency` ticks left, and arrived
    /// `latency - remaining` ticks before the last tick.
    pub open spec fn wf(&self) -> bool {
        &&& self.latency >= 1
        &&& self.clock is None ==> self.queue@.len() == 0
        &&& forall|j: int|
            0 <= j < self.queue@.len() ==> 1 <= (#[trigger] self.queue@[j]).remaining <= self.latency
                && self.queue@[j].received + self.latency == self.clock.unwrap() + self.queue@[j].remaining
    }

    pub fn new(latency: u64, id: &str, endpoint_a: &str, endpoint_b: &str, unidirectional: bool) -> (r: Edge)
        requires
            latency >= 1,
        ensures
            r.wf(),
            r.latency == latency,
            r.id@ == id@,
            r.endpoint_a@ == endpoint_a@,
            r.endpoint_b@ == endpoint_b@,
            r.unidirectional == unidirectional,
            r.queue@.len() == 0,
            r.clock is None,
    {
        Edge {
            id: id.to_owned(),
            latency,
            endpoint_a: endpoint_a.to_owned(),
            endpoint_b: endpoint_b.to_owned(),
            unidirectional,
            queue: Vec::new(),
            clock: None,
        }
    }

    /// Takes a message from `sender` at tick `tick`, the tick this edge last ran (a fresh edge
    /// takes `tick` as its clock): it goes to the other endpoint, except that a one-way edge
    /// drops what comes from `b`.
    pub fn recv(&mut self, rpc: Rpc, tick: u64, sender: &str)
        requires
            old(self).wf(),
            old(self).clock is None || old(self).clock == Some(tick),
        ensures
            old(self).received(*final(self), rpc, tick, sender@),

    {
        self.clock = Some(tick);
        let s = sender.to_owned();
        let destination = if s == self.endpoint_a {
            self.endpoint_b.clone()
        } else if s == self.endpoint_b && !self.unidirectional {
            self.endpoint_a.clone()
        } else {
            return;
        };
        self.queue.push(EdgeEntry { rpc, destination, remaining: self.latency, received: tick });
        assert(self.queue@.drop_last() =~= old(self).queue@);
    }

    /// One step at tick `tick`, the tick after the last one run: every message in flight gets
    /// one tick closer, and those that arrive now leave in arrival order. Each of them was
    /// received exactly `latency` ticks before.
    pub fn tick(&mut self, tick: u64) -> (r: Vec<(Rpc, String)>)
        requires
            old(self).wf(),
            old(self).clock matches Some(c) ==> tick == c + 1,
        ensures
            old(self).ticked(*final(self), tick, r@),

    {
        let ghost q0 = self.queue@;
        let mut rest: Vec<EdgeEntry> = Vec::new();
        std::mem::swap(&mut self.queue, &mut rest);
        let mut out: Vec<(Rpc, String)> = Vec::new();
        let mut keep: Vec<EdgeEntry> = Vec::new();
        let total = rest.len();
        let mut i: usize = 0;
        while rest.len() > 0
            invariant
                q0 == old(self).queue@,
                q0.len() == total,
                i + rest@.len() == q0.len(),
                rest@ == q0.subrange(i as int, q0.len() as int),
                out@ == deliveries(q0.take(i as int)),
                keep@ == staying(q0.take(i as int)),
                old(self).wf(),
                old(self).clock matches Some(c) ==> tick == c + 1,
                forall|j: int|
                    0 <= j < due(q0.take(i as int)).len() ==> (#[trigger] due(q0.take(i as int))[j]).received
                        + old(self).latency == tick,
                forall|j: int| 0 <= j < staying(q0.take(i as int)).len() ==> 1 <= (#[trigger] staying(
                    q0.take(i as int),
                )[j]).remaining <= old(self).latency && staying(q0.take(i as int))[j].received + old(self).latency
                    == tick + staying(q0.take(i as int))[j].remaining,
            decreases rest@.len(),
        {
            let e = rest.remove(0);
            assert(e == q0[i as int]);
            assert(rest@ =~= q0.subrange(i + 1, q0.len() as int));
            assert(q0.take(i + 1).drop_last() =~= q0.take(i as int));
            assert(q0.take(i + 1).last() == e);
            if e.remaining == 1 {
                let ghost before = out@;
                out.push((e.rpc, e.destination));
                assert(due(q0.take(i + 1)) == due(q0.take(i as int)).push(e));
                assert(out@ =~= deliveries(q0.take(i + 1)));
                assert(forall|j: int|
                    0 <= j < due(q0.take(i + 1)).len() - 1 ==> due(q0.take(i + 1))[j] == due(q0.take(i as int))[j]);
            } else {
                let moved = EdgeEntry {
                    rpc: e.rpc,
                    destination: e.destination,
                    remaining: e.remaining - 1,
                    received: e.received,
                };
                keep.push(moved);
                assert(staying(q0.take(i + 1)) == staying(q0.take(i as int)).push(moved));
                assert(keep@ =~= staying(q0.take(i + 1)));
                assert(forall|j: int|
                    0 <= j < staying(q0.take(i + 1)).len() - 1 ==> staying(q0.take(i + 1))[j] == staying(
                        q0.take(i as int),
                    )[j]);
            }
            i += 1;
        }
        assert(q0.take(i as int) =~= q0);
        self.queue = keep;
        self.clock = Some(tick);
        out
    }
}

} // verus!
