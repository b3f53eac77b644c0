//! The wrapper that runs a node's filter: it holds one pending message between a `recv` and
//! the following `tick`. Filters come from a static registry: every name selects the
//! trace-propagating filter of this library.
use vstd::prelude::*;
use crate::filter::{rpcs_view, workload_key, Filter};
use crate::graph::attr_get;
use crate::rpc::{map_insert, map_items, map_new, Rpc, RpcModel};

verus! {

#[derive(PartialEq, Eq, Structural, Clone, Copy, Debug)]
pub enum SimError {
    /// An element id is already registered.
    DuplicateId,
    /// An edge names an endpoint that is not registered.
    UnknownEndpoint,
}

/// The message carries a known direction and location.
pub open spec fn routable(m: RpcModel) -> bool {
    &&& (m.header("direction"@) == Some("request"@) || m.header("direction"@) == Some("response"@))
    &&& (m.header("location"@) == Some("ingress"@) || m.header("location"@) == Some("egress"@))
}

pub struct PluginWrapper {
    pub id: String,
    pub plugin_path: String,
    pub filter: Filter,
    pub stored_rpc: Option<Rpc>,
    pub neighbor: Option<String>,
}

impl PluginWrapper {
    /// The filter is set up, and a pending message carries a direction and a location.
    pub open spec fn wf(&self) -> bool {
        &&& self.filter.wf()
        &&& (self.filter.whoami is Some || attr_get(map_items(self.filter.filter_state), workload_key())
            is Some)
        &&& self.stored_rpc matches Some(m) ==> routable(m@)
    }

    /// A wrapper named `plugin_id` around the filter that `plugin_str` names, for the node
    /// whose workload is `workload`.
    pub fn new(plugin_id: &str, plugin_str: &str, workload: &str) -> (r: PluginWrapper)
        ensures
            r.wf(),
            r.id@ == plugin_id@,
            r.plugin_path@ == plugin_str@,
            r.stored_rpc is None,
            r.neighbor is None,
            map_items(r.filter.filter_state) == seq![(workload_key(), workload@)],
            r.filter.whoami is None,
            r.filter.target_graph is None,
            r.filter.shared().len() == 0,
    {
        let mut props = map_new();
        map_insert(&mut props, "node.metadata.WORKLOAD_NAME".to_owned(), workload.to_owned());
        proof {
            crate::graph::lemma_attr_index(Seq::<(Seq<char>, Seq<char>)>::empty(), workload_key());
            assert(map_items(props) =~= seq![(workload_key(), workload@)]);
            crate::graph::lemma_attr_index(seq![(workload_key(), workload@)], workload_key());
        }
        let filter = Filter::new_with_envoy_properties(props);
        PluginWrapper {
            id: plugin_id.to_owned(),
            plugin_path: plugin_str.to_owned(),
            filter,
            stored_rpc: None,
            neighbor: None,
        }
    }

    pub fn add_connection(&mut self, neighbor: String)
        ensures
            final(self).neighbor == Some(neighbor),
            final(self).filter == old(self).filter,
            final(self).stored_rpc == old(self).stored_rpc,
            final(self).id == old(self).id,
    {
        self.neighbor = Some(neighbor);
    }

    /// Holds `rpc` until the next tick. A second message before the tick would overwrite the
    /// first; callers tick in between.
    pub fn recv(&mut self, rpc: Rpc, _tick: u64, _node_id: &str)
        requires
            old(self).wf(),
            old(self).stored_rpc is None,
            routable(rpc@),
        ensures
            final(self).wf(),
            final(self).stored_rpc == Some(rpc),
            final(self).filter == old(self).filter,
            final(self).id == old(self).id,
            final(self).neighbor == old(self).neighbor,
    {
        self.stored_rpc = Some(rpc);
    }

    /// Runs the filter on the held message, if any, and empties the slot; each message the
    /// filter produces comes paired with the destination its `dest` header names.
    pub fn tick(&mut self, _tick: u64) -> (r: Vec<(Rpc, Option<String>)>)
        requires
            old(self).wf(),
        ensures
            final(self).wf(),
            final(self).stored_rpc is None,
            old(self).stored_rpc is None ==> r@.len() == 0 && final(self).filter == old(self).filter,
            old(self).stored_rpc matches Some(m) ==> exists|out: Seq<RpcModel>|
                #[trigger] old(self).filter.executes(final(self).filter, m@, out) && r@.len() == out.len() && forall|i: int|
                    0 <= i < out.len() ==> (#[trigger] r@[i]).0@ == out[i] && match r@[i].1 {
                        Some(d) => out[i].header("dest"@) == Some(d@),
                        None => out[i].header("dest"@) is None,
                    },
            final(self).id == old(self).id,
            final(self).neighbor == old(self).neighbor,
    {
        match self.stored_rpc.take() {
            Some(m) => {
                let outs = self.execute(&m);
                let ghost out = rpcs_view(outs@);
                let mut r: Vec<(Rpc, Option<String>)> = Vec::new();
                let mut i: usize = 0;
                while i < outs.len()
                    invariant
                        i <= outs@.len(),
                        out == rpcs_view(outs@),
                        r@.len() == i,
                        forall|j: int|
                            0 <= j < i ==> (#[trigger] r@[j]).0@ == out[j] && match r@[j].1 {
                                Some(d) => out[j].header("dest"@) == Some(d@),
                                None => out[j].header("dest"@) is None,
                            },
                    decreases outs@.len() - i,
                {
                    let o = outs[i].duplicate();
                    let d = o.header("dest");
                    r.push((o, d));
                    i += 1;
                }
                r
            },
            None => Vec::new(),
        }
    }

    /// Runs the filter on `input`.
    pub fn execute(&mut self, input: &Rpc) -> (r: Vec<Rpc>)
        requires
            old(self).filter.wf(),
            old(self).filter.whoami is Some || attr_get(map_items(old(self).filter.filter_state), workload_key())
                is Some,
            routable(input@),
        ensures
            final(self).filter.wf(),
            final(self).filter.whoami is Some,
            1 <= r@.len() <= 2,
            old(self).filter.executes(final(self).filter, input@, rpcs_view(r@)),
            final(self).stored_rpc == old(self).stored_rpc,
            final(self).id == old(self).id,
            final(self).neighbor == old(self).neighbor,
    {
        self.filter.execute(input)
    }
}

} // verus!
