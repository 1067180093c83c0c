//! NamespaceHandle: caller-supplied identity of a target network namespace
//! plus optional extra arguments and capability arguments, the source of
//! the per-invocation runtime parameters.

use vstd::prelude::*;

use crate::api::RuntimeConf;
use crate::exec::{lemma_pair_views, pair_views, clone_pairs};

verus! {

/// The caller-supplied identity of a target network namespace.
pub struct Namespace {
    pub id: String,
    pub path: String,
    pub capability_args: Vec<(String, String)>,
    pub args: Vec<(String, String)>,
}

/// The runtime-parameter view [`Namespace::config`] builds for one target
/// interface name.
pub open spec fn ns_rt(ns: Namespace, ifname: Seq<char>) -> crate::api::RtView {
    crate::api::RtView {
        container_id: ns.id@,
        net_ns: ns.path@,
        if_name: ifname,
        args: pair_views(ns.args@, 0),
        capability_args: pair_views(ns.capability_args@, 0),
        cache_dir: Seq::<char>::empty(),
    }
}

impl Namespace {
    /// A namespace handle for a container id and a namespace path, with no
    /// extra arguments.
    pub fn new(id: String, path: String) -> (r: Namespace)
        ensures
            r.id@ == id@,
            r.path@ == path@,
            r.args@.len() == 0,
            r.capability_args@.len() == 0,
    {
        Namespace { id, path, capability_args: Vec::new(), args: Vec::new() }
    }

    /// Replaces the argument pairs wholesale.
    pub fn with_args(self, args: Vec<(String, String)>) -> (r: Namespace)
        ensures
            r.id@ == self.id@,
            r.path@ == self.path@,
            r.args@ == args@,
            r.capability_args@ == self.capability_args@,
    {
        Namespace { args, ..self }
    }

    /// Replaces the capability arguments wholesale.
    pub fn with_capabilities(self, capabilities: Vec<(String, String)>) -> (r: Namespace)
        ensures
            r.id@ == self.id@,
            r.path@ == self.path@,
            r.args@ == self.args@,
            r.capability_args@ == capabilities@,
    {
        Namespace { capability_args: capabilities, ..self }
    }

    /// Appends one argument pair, in order.
    pub fn add_arg(&mut self, key: &str, value: &str)
        ensures
            final(self).id@ == old(self).id@,
            final(self).path@ == old(self).path@,
            final(self).args@.len() == old(self).args@.len() + 1,
            pair_views(final(self).args@, 0) == pair_views(old(self).args@, 0).push(
                (key@, value@),
            ),
            final(self).capability_args@ == old(self).capability_args@,
    {
        let ghost pre = self.args@;
        self.args.push((String::from_str(key), String::from_str(value)));
        proof {
            lemma_pair_views(self.args@, 0);
            lemma_pair_views(pre, 0);
            assert forall|t: int| 0 <= t < self.args@.len() implies pair_views(self.args@, 0)[t]
                == pair_views(pre, 0).push((key@, value@))[t] by {
                assert(pair_views(self.args@, 0)[t] == ((#[trigger] self.args@[t]).0@,
                self.args@[t].1@));
                if t < pre.len() {
                    assert(self.args@[t] == pre[t]);
                    assert(pair_views(pre, 0)[t] == (pre[t].0@, pre[t].1@));
                }
            }
            assert(pair_views(self.args@, 0) =~= pair_views(pre, 0).push((key@, value@)));
        }
    }

    /// Appends one capability argument pair, in order.
    pub fn add_capability(&mut self, key: &str, value: &str)
        ensures
            final(self).id@ == old(self).id@,
            final(self).path@ == old(self).path@,
            final(self).args@ == old(self).args@,
            final(self).capability_args@.len() == old(self).capability_args@.len() + 1,
            pair_views(final(self).capability_args@, 0) == pair_views(
                old(self).capability_args@,
                0,
            ).push((key@, value@)),
    {
        let ghost pre = self.capability_args@;
        self.capability_args.push((String::from_str(key), String::from_str(value)));
        proof {
            lemma_pair_views(self.capability_args@, 0);
            lemma_pair_views(pre, 0);
            assert forall|t: int| 0 <= t < self.capability_args@.len() implies pair_views(
                self.capability_args@,
                0,
            )[t] == pair_views(pre, 0).push((key@, value@))[t] by {
                assert(pair_views(self.capability_args@, 0)[t] == ((
                #[trigger] self.capability_args@[t]).0@, self.capability_args@[t].1@));
                if t < pre.len() {
                    assert(self.capability_args@[t] == pre[t]);
                    assert(pair_views(pre, 0)[t] == (pre[t].0@, pre[t].1@));
                }
            }
            assert(pair_views(self.capability_args@, 0) =~= pair_views(pre, 0).push(
                (key@, value@),
            ));
        }
    }

    /// The per-invocation runtime parameters for one target interface name:
    /// the namespace's identity and arguments, built fresh per call.
    pub fn config(&self, ifname: String) -> (r: RuntimeConf)
        ensures
            r@ == ns_rt(*self, ifname@),
            r@.container_id == self.id@,
            r@.net_ns == self.path@,
            r@.if_name == ifname@,
            r@.args == pair_views(self.args@, 0),
            r@.capability_args == pair_views(self.capability_args@, 0),
            r@.cache_dir == Seq::<char>::empty(),
    {
        let r = RuntimeConf {
            container_id: self.id.clone(),
            net_ns: self.path.clone(),
            if_name: ifname,
            args: clone_pairs(&self.args),
            capability_args: clone_pairs(&self.capability_args),
            cache_dir: String::new(),
        };
        r
    }

    pub fn get_id(&self) -> (r: &str)
        ensures
            r@ == self.id@,
    {
        self.id.as_str()
    }

    pub fn get_path(&self) -> (r: &str)
        ensures
            r@ == self.path@,
    {
        self.path.as_str()
    }
}

} // verus!
