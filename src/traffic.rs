//! An element that sends a fixed number of fresh requests each tick.
use vstd::prelude::*;
use crate::codec::{enc_nat, u64_to_string};
use crate::node::fresh_uid;
use crate::rpc::Rpc;

verus! {

pub struct TrafficGenerator {
    pub rate: u32,
    pub id: u32,
    pub neighbor: Option<u32>,
}

impl TrafficGenerator {
    pub fn new(rate: u32, id: u32) -> (r: TrafficGenerator)
        ensures
            r.rate == rate,
            r.id == id,
            r.neighbor is None,
    {
        TrafficGenerator { rate, id, neighbor: None }
    }

    pub fn add_connection(&mut self, neighbor: u32)
        ensures
            final(self).neighbor == Some(neighbor),
            final(self).rate == old(self).rate,
            final(self).id == old(self).id,
    {
        self.neighbor = Some(neighbor);
    }

    /// `rate` fresh messages whose payload is the tick, each for the neighbor; their trace
    /// ids come from `next_uid`, in order.
    pub fn tick(&self, tick: u64, next_uid: &mut u64) -> (r: Vec<(Rpc, Option<u32>)>)
        requires
            *old(next_uid) + self.rate <= u64::MAX,
        ensures
            r@.len() == self.rate,
            *final(next_uid) == *old(next_uid) + self.rate,
            forall|i: int|
                0 <= i < r@.len() ==> (#[trigger] r@[i]).1 == self.neighbor && r@[i].0@.data == enc_nat(tick as nat)
                    && r@[i].0@.uid == *old(next_uid) + i && r@[i].0@.headers.len() == 0,
    {
        let mut ret: Vec<(Rpc, Option<u32>)> = Vec::new();
        let mut i: u32 = 0;
        while i < self.rate
            invariant
                i <= self.rate,
                ret@.len() == i,
                *next_uid == *old(next_uid) + i,
                *old(next_uid) + self.rate <= u64::MAX,
                forall|j: int|
                    0 <= j < ret@.len() ==> (#[trigger] ret@[j]).1 == self.neighbor && ret@[j].0@.data == enc_nat(
                        tick as nat,
                    ) && ret@[j].0@.uid == *old(next_uid) + j && ret@[j].0@.headers.len() == 0,
            decreases self.rate - i,
        {
            let uid = fresh_uid(next_uid);
            let payload = u64_to_string(tick);
            ret.push((Rpc::new(payload.as_str(), uid), self.neighbor));
            i += 1;
        }
        ret
    }
}

} // verus!
