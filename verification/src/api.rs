//! ChainOrchestrator: sequencing ADD/DEL/CHECK across a plugin chain,
//! threading each delegate's decoded result into the next delegate's input.
//!
//! Every contract here speaks over the executor's call record: what stdin
//! bytes, environment and binary path each invocation carried, and how the
//! function's result relates to the recorded outcomes.

use vstd::prelude::*;

use crate::conf::{
    name_key, name_key_vec, prev_result_key, prev_result_key_vec, version_key, version_key_vec,
    wf_chain, wf_plugin, ChainView, NetworkConfig, NetworkConfigList, PluginView,
};
use crate::errors::CniError;
use crate::exec::{
    call_view, clone_pairs, decode_result, decoded_of, delegate_result_err, interpret_output,
    interpret_spec, join_paths, join_paths_spec, lemma_pair_views, pair_views, protocol_env_of,
    str_views, ArgsView, CallView, ChainResult, Exec, ExecArgs, InterpretView, OutcomeView,
    PluginCall, ResultView, wf_result,
};
use crate::json::{lemma_obj_set_get_other, lemma_obj_set_get_same, obj_get, obj_set, ser, JVal, JsonValue};

verus! {

/// The per-invocation runtime parameters: container id, namespace path,
/// target interface name, ordered argument pairs, capability arguments and
/// an optional cache directory.  Built fresh per call; never persisted.
pub struct RuntimeConf {
    pub container_id: String,
    pub net_ns: String,
    pub if_name: String,
    pub args: Vec<(String, String)>,
    pub capability_args: Vec<(String, String)>,
    pub cache_dir: String,
}

/// The mathematical content of [`RuntimeConf`].
pub ghost struct RtView {
    pub container_id: Seq<char>,
    pub net_ns: Seq<char>,
    pub if_name: Seq<char>,
    pub args: Seq<(Seq<char>, Seq<char>)>,
    pub capability_args: Seq<(Seq<char>, Seq<char>)>,
    pub cache_dir: Seq<char>,
}

impl View for RuntimeConf {
    type V = RtView;

    open spec fn view(&self) -> RtView {
        RtView {
            container_id: self.container_id@,
            net_ns: self.net_ns@,
            if_name: self.if_name@,
            args: pair_views(self.args@, 0),
            capability_args: pair_views(self.capability_args@, 0),
            cache_dir: self.cache_dir@,
        }
    }
}

/// The local environment a `verb` invocation carries: the six protocol
/// variables over the runtime parameters and the joined search paths.
pub open spec fn call_env(verb: Seq<char>, rt: RtView, paths: Seq<Seq<char>>) -> Seq<
    (Seq<char>, Seq<char>),
> {
    protocol_env_of(
        ArgsView {
            command: verb,
            containerd_id: rt.container_id,
            netns: rt.net_ns,
            plugin_args: rt.args,
            ifname: rt.if_name,
            path: join_paths_spec(paths),
        },
    )
}

/// The plugin's own JSON object with the chain's `name` and `cniVersion`
/// written over its members, and, where a previous result exists, a
/// `prevResult` member holding that result's value.
#[verifier::opaque]
pub open spec fn merged_value(
    p: PluginView,
    name: Seq<u8>,
    version: Seq<u8>,
    prev: Option<ResultView>,
) -> JVal {
    let ms1 = obj_set(p.value->Obj_0, name_key(), JVal::Str(name));
    let ms2 = obj_set(ms1, version_key(), JVal::Str(version));
    match prev {
        Option::Some(rv) => JVal::Obj(obj_set(ms2, prev_result_key(), rv.value)),
        Option::None => JVal::Obj(ms2),
    }
}

/// The exact bytes sent to a delegate's input for ADD.
pub open spec fn add_stdin(
    p: PluginView,
    name: Seq<u8>,
    version: Seq<u8>,
    prev: Option<ResultView>,
) -> Seq<u8> {
    ser(merged_value(p, name, version, prev))
}

/// The exact bytes sent to a delegate's input for DEL and CHECK: the merged
/// object without a previous result.
pub open spec fn del_stdin(p: PluginView, name: Seq<u8>, version: Seq<u8>) -> Seq<u8> {
    ser(merged_value(p, name, version, Option::None))
}

pub open spec fn prev_view(prev: Option<&ChainResult>) -> Option<ResultView> {
    match prev {
        Option::Some(cr) => Option::Some(cr@),
        Option::None => Option::None,
    }
}

/// For ADD, the merged object sent to a delegate holds a `prevResult`
/// member exactly when a previous result was threaded in, and then that
/// member is the previous result's value; the `name` and `cniVersion`
/// members are the chain's.  This needs the plugin's own object to carry no
/// `prevResult` key of its own: a configuration that writes one would keep
/// it through the first invocation as any other unknown key.
pub proof fn lemma_prev_result_membership(
    p: PluginView,
    name: Seq<u8>,
    version: Seq<u8>,
    prev: Option<ResultView>,
)
    requires
        wf_plugin(p),
        obj_get(p.value->Obj_0, prev_result_key()) is None,
    ensures
        obj_get(merged_value(p, name, version, prev)->Obj_0, prev_result_key()) == (match prev {
            Option::Some(rv) => Option::Some(rv.value),
            Option::None => Option::<JVal>::None,
        }),
        obj_get(merged_value(p, name, version, prev)->Obj_0, name_key()) == Option::Some(
            JVal::Str(name),
        ),
        obj_get(merged_value(p, name, version, prev)->Obj_0, version_key()) == Option::Some(
            JVal::Str(version),
        ),
{
    reveal(merged_value);
    let ms0 = p.value->Obj_0;
    let ms1 = obj_set(ms0, name_key(), JVal::Str(name));
    let ms2 = obj_set(ms1, version_key(), JVal::Str(version));
    assert(name_key().len() != version_key().len());
    assert(name_key().len() != prev_result_key().len());
    assert(version_key()[0] != prev_result_key()[0]);
    lemma_obj_set_get_other(ms0, name_key(), prev_result_key(), JVal::Str(name));
    lemma_obj_set_get_other(ms1, version_key(), prev_result_key(), JVal::Str(version));
    lemma_obj_set_get_same(ms0, name_key(), JVal::Str(name));
    lemma_obj_set_get_other(ms1, version_key(), name_key(), JVal::Str(version));
    lemma_obj_set_get_same(ms1, version_key(), JVal::Str(version));
    match prev {
        Option::Some(rv) => {
            lemma_obj_set_get_same(ms2, prev_result_key(), rv.value);
            lemma_obj_set_get_other(ms2, prev_result_key(), name_key(), rv.value);
            lemma_obj_set_get_other(ms2, prev_result_key(), version_key(), rv.value);
        },
        Option::None => {},
    }
}

/// One recorded invocation is the ADD call of plugin `k`: its binary comes
/// from some search path, its stdin is the merged object and its
/// environment holds the six protocol variables for ADD.
#[verifier::opaque]
pub open spec fn add_call_shape(
    c: CallView,
    chain: ChainView,
    rt: RtView,
    paths: Seq<Seq<char>>,
    k: int,
    prev: Option<ResultView>,
) -> bool {
    &&& (exists|i: int|
        0 <= i < paths.len() && c.path == crate::exec::joined_path(
            #[trigger] paths[i],
            chain.plugins[k].plugin_type,
        ))
    &&& c.stdin == add_stdin(chain.plugins[k], chain.name, chain.cni_version, prev)
    &&& c.env == call_env("ADD"@, rt, paths)
}

/// The recorded calls are the ADD prefix of the chain in order, each
/// invocation's stdin holding a previous result exactly from the decoded
/// output of the invocation before it.
pub open spec fn add_trace_ok(
    chain: ChainView,
    rt: RtView,
    paths: Seq<Seq<char>>,
    calls: Seq<CallView>,
) -> bool {
    forall|k: int|
        0 <= k < calls.len() ==> add_call_shape(
            #[trigger] calls[k],
            chain,
            rt,
            paths,
            k,
            if k == 0 {
                Option::None
            } else {
                decoded_of(calls[k - 1].output)
            },
        ) && (k > 0 ==> decoded_of(calls[k - 1].output) is Some)
}

/// One recorded invocation is the `verb` call of plugin `k`, without a
/// previous result.
#[verifier::opaque]
pub open spec fn bare_call_shape(
    c: CallView,
    chain: ChainView,
    rt: RtView,
    paths: Seq<Seq<char>>,
    k: int,
    verb: Seq<char>,
) -> bool {
    &&& (exists|i: int|
        0 <= i < paths.len() && c.path == crate::exec::joined_path(
            #[trigger] paths[i],
            chain.plugins[k].plugin_type,
        ))
    &&& c.stdin == del_stdin(chain.plugins[k], chain.name, chain.cni_version)
    &&& c.env == call_env(verb, rt, paths)
}

pub open spec fn del_trace_ok(
    chain: ChainView,
    rt: RtView,
    paths: Seq<Seq<char>>,
    calls: Seq<CallView>,
) -> bool {
    forall|k: int|
        0 <= k < calls.len() ==> bare_call_shape(#[trigger] calls[k], chain, rt, paths, k, "DEL"@)
}

/// Assembles [`add_call_shape`] from its parts.
pub proof fn lemma_add_call_shape_intro(
    c: CallView,
    chain: ChainView,
    rt: RtView,
    paths: Seq<Seq<char>>,
    k: int,
    prev: Option<ResultView>,
)
    requires
        exists|i: int|
            0 <= i < paths.len() && c.path == crate::exec::joined_path(
                #[trigger] paths[i],
                chain.plugins[k].plugin_type,
            ),
        c.stdin == add_stdin(chain.plugins[k], chain.name, chain.cni_version, prev),
        c.env == call_env("ADD"@, rt, paths),
    ensures
        add_call_shape(c, chain, rt, paths, k, prev),
{
    reveal(add_call_shape);
}

/// Assembles [`bare_call_shape`] from its parts.
pub proof fn lemma_bare_call_shape_intro(
    c: CallView,
    chain: ChainView,
    rt: RtView,
    paths: Seq<Seq<char>>,
    k: int,
    verb: Seq<char>,
)
    requires
        exists|i: int|
            0 <= i < paths.len() && c.path == crate::exec::joined_path(
                #[trigger] paths[i],
                chain.plugins[k].plugin_type,
            ),
        c.stdin == del_stdin(chain.plugins[k], chain.name, chain.cni_version),
        c.env == call_env(verb, rt, paths),
    ensures
        bare_call_shape(c, chain, rt, paths, k, verb),
{
    reveal(bare_call_shape);
}

/// Extending a mapped CHECK record by one call for a later plugin keeps it
/// mapped.
pub proof fn lemma_check_mapped_extend(
    chain: ChainView,
    rt: RtView,
    paths: Seq<Seq<char>>,
    mid_added: Seq<CallView>,
    added: Seq<CallView>,
    pre_idxs: Seq<int>,
    at: int,
)
    requires
        check_mapped(chain, rt, paths, mid_added, pre_idxs),
        added.len() == mid_added.len() + 1,
        forall|q: int| 0 <= q < mid_added.len() ==> added[q] == #[trigger] mid_added[q],
        0 <= at < chain.plugins.len(),
        forall|j: int| #![trigger pre_idxs[j]] 0 <= j < pre_idxs.len() ==> pre_idxs[j] < at,
        bare_call_shape(added.last(), chain, rt, paths, at, "CHECK"@),
    ensures
        check_mapped(chain, rt, paths, added, pre_idxs.push(at)),
{
    assert forall|j: int| #![trigger pre_idxs.push(at)[j]] 0 <= j < added.len() implies 0
        <= pre_idxs.push(at)[j] < chain.plugins.len() && bare_call_shape(
        added[j],
        chain,
        rt,
        paths,
        pre_idxs.push(at)[j],
        "CHECK"@,
    ) by {
        if j < mid_added.len() {
            assert(added[j] == mid_added[j]);
            assert(pre_idxs.push(at)[j] == pre_idxs[j]);
        } else {
            assert(added[j] == added.last());
            assert(pre_idxs.push(at)[j] == at);
        }
    }
    assert forall|j: int| #![trigger pre_idxs.push(at)[j]] 0 <= j < pre_idxs.push(at).len() - 1
        implies pre_idxs.push(at)[j] < pre_idxs.push(at)[j + 1] by {
        if j < pre_idxs.len() - 1 {
            assert(pre_idxs.push(at)[j] == pre_idxs[j]);
            assert(pre_idxs.push(at)[j + 1] == pre_idxs[j + 1]);
        } else {
            assert(pre_idxs.push(at)[j] == pre_idxs[j]);
            assert(pre_idxs.push(at)[j + 1] == at);
        }
    }
}

/// A collected CHECK failure is grounded: either a recorded delegate
/// outcome explains it, or it names a plugin type of the chain (one that
/// could not be resolved).
pub open spec fn failure_tied(e: CniError, chain: ChainView, calls: Seq<CallView>) -> bool {
    ||| (e matches CniError::PluginNotFound { plugin: pl } && exists|q: int|
        0 <= q < chain.plugins.len() && pl@ == (#[trigger] chain.plugins[q]).plugin_type)
    ||| exists|j: int|
        0 <= j < calls.len() && delegate_result_err((#[trigger] calls[j]).output, e)
}

/// A grounded failure stays grounded when the record grows at the end.
pub proof fn lemma_failure_tied_grow(
    e: CniError,
    chain: ChainView,
    calls1: Seq<CallView>,
    calls2: Seq<CallView>,
)
    requires
        failure_tied(e, chain, calls1),
        calls1.len() <= calls2.len(),
        forall|j: int| 0 <= j < calls1.len() ==> calls2[j] == #[trigger] calls1[j],
    ensures
        failure_tied(e, chain, calls2),
{
    if exists|j: int| 0 <= j < calls1.len() && delegate_result_err(
        (#[trigger] calls1[j]).output,
        e,
    ) {
        let j0 = choose|j: int|
            0 <= j < calls1.len() && delegate_result_err((#[trigger] calls1[j]).output, e);
        assert(calls2[j0] == calls1[j0]);
        assert(delegate_result_err(calls2[j0].output, e));
    }
}

/// The recorded calls are CHECK invocations of the chain's plugins at
/// strictly increasing positions (a plugin whose binary cannot be resolved
/// gets no call), whatever the failure list holds.
pub open spec fn check_mapped(
    chain: ChainView,
    rt: RtView,
    paths: Seq<Seq<char>>,
    calls: Seq<CallView>,
    idxs: Seq<int>,
) -> bool {
    &&& idxs.len() == calls.len()
    &&& (forall|j: int| #![trigger calls[j]]
        0 <= j < calls.len() ==> 0 <= idxs[j] < chain.plugins.len() && bare_call_shape(
            calls[j],
            chain,
            rt,
            paths,
            idxs[j],
            "CHECK"@,
        ))
    &&& (forall|j: int| #![trigger idxs[j]] 0 <= j < idxs.len() - 1 ==> idxs[j] < idxs[j + 1])
}

/// Extending a well-formed ADD trace by one well-shaped call keeps it
/// well formed.
pub proof fn lemma_add_trace_extend(
    chain: ChainView,
    rt: RtView,
    paths: Seq<Seq<char>>,
    mid_added: Seq<CallView>,
    added: Seq<CallView>,
    prev: Option<ResultView>,
)
    requires
        add_trace_ok(chain, rt, paths, mid_added),
        added.len() == mid_added.len() + 1,
        forall|q: int| 0 <= q < mid_added.len() ==> added[q] == #[trigger] mid_added[q],
        add_call_shape(added.last(), chain, rt, paths, mid_added.len() as int, prev),
        mid_added.len() == 0 ==> prev is None,
        mid_added.len() > 0 ==> prev == decoded_of(mid_added.last().output) && prev is Some,
    ensures
        add_trace_ok(chain, rt, paths, added),
{
    assert forall|k: int| 0 <= k < added.len() implies add_call_shape(
        #[trigger] added[k],
        chain,
        rt,
        paths,
        k,
        if k == 0 {
            Option::None
        } else {
            decoded_of(added[k - 1].output)
        },
    ) && (k > 0 ==> decoded_of(added[k - 1].output) is Some) by {
        if k < mid_added.len() {
            assert(added[k] == mid_added[k]);
            if k > 0 {
                assert(added[k - 1] == mid_added[k - 1]);
            }
        } else {
            if k > 0 {
                assert(added[k - 1] == mid_added[k - 1]);
                assert(mid_added[k - 1] == mid_added.last());
            }
        }
    }
}

/// Extending a well-formed DEL trace by one well-shaped call keeps it
/// well formed.
pub proof fn lemma_del_trace_extend(
    chain: ChainView,
    rt: RtView,
    paths: Seq<Seq<char>>,
    mid_added: Seq<CallView>,
    added: Seq<CallView>,
)
    requires
        del_trace_ok(chain, rt, paths, mid_added),
        added.len() == mid_added.len() + 1,
        forall|q: int| 0 <= q < mid_added.len() ==> added[q] == #[trigger] mid_added[q],
        bare_call_shape(added.last(), chain, rt, paths, mid_added.len() as int, "DEL"@),
    ensures
        del_trace_ok(chain, rt, paths, added),
{
    assert forall|k: int| 0 <= k < added.len() implies bare_call_shape(
        #[trigger] added[k],
        chain,
        rt,
        paths,
        k,
        "DEL"@,
    ) by {
        if k < mid_added.len() {
            assert(added[k] == mid_added[k]);
        }
    }
}

/// The CNI operations over chains, as the registry drives them.  Callers
/// owe each operation a chain or element that holds its invariant.
pub trait CNI {
    fn add_network_list(
        &mut self,
        net: &NetworkConfigList,
        rt: &RuntimeConf,
    ) -> Result<ChainResult, CniError>
        requires
            wf_chain(net@),
    ;

    fn check_network_list(&mut self, net: &NetworkConfigList, rt: &RuntimeConf) -> Vec<CniError>
        requires
            wf_chain(net@),
    ;

    fn delete_network_list(&mut self, net: &NetworkConfigList, rt: &RuntimeConf) -> Result<
        (),
        CniError,
    >
        requires
            wf_chain(net@),
    ;

    fn add_network(
        &mut self,
        name: &Vec<u8>,
        cni_version: &Vec<u8>,
        net: &NetworkConfig,
        prev: Option<&ChainResult>,
        rt: &RuntimeConf,
    ) -> Result<ChainResult, CniError>
        requires
            wf_plugin(net@),
            prev matches Option::Some(cr) ==> crate::exec::wf_result(cr@),
    ;

    fn delete_network(
        &mut self,
        name: &Vec<u8>,
        cni_version: &Vec<u8>,
        net: &NetworkConfig,
        rt: &RuntimeConf,
    ) -> Result<(), CniError>
        requires
            wf_plugin(net@),
    ;
}

/// The orchestrator: search paths, an executor and a cache directory.
pub struct CNIConfig<E: Exec> {
    pub path: Vec<String>,
    pub executor: E,
    pub cache_dir: String,
}

impl<E: Exec> CNIConfig<E> {
    /// Rebuilds one plugin's JSON object with the chain's name and version
    /// written in and the previous result attached, producing the exact
    /// delegate input bytes.
    pub fn build_new_config(
        &self,
        name: &Vec<u8>,
        cni_version: &Vec<u8>,
        orig: &NetworkConfig,
        prev: Option<&ChainResult>,
    ) -> (r: Vec<u8>)
        requires
            wf_plugin(orig@),
            prev matches Option::Some(cr) ==> wf_result(cr@),
        ensures
            r@ == add_stdin(orig@, name@, cni_version@, prev_view(prev)),
    {
        proof {
            reveal(merged_value);
            reveal(crate::exec::wf_result);
            crate::parse::lemma_roundtrip(orig@.value);
        }
        let parsed = crate::parse::parse_document(&orig.bytes);
        let mut ms = match parsed {
            Option::Some(v) => match v {
                JsonValue::Obj(ms) => ms,
                _ => vstd::pervasive::unreached(),
            },
            Option::None => vstd::pervasive::unreached(),
        };
        crate::json::members_set(
            &mut ms,
            name_key_vec(),
            JsonValue::Str(crate::conf::clone_bytes(name)),
        );
        crate::json::members_set(
            &mut ms,
            version_key_vec(),
            JsonValue::Str(crate::conf::clone_bytes(cni_version)),
        );
        match prev {
            Option::Some(cr) => {
                let pv = match crate::parse::parse_document(&cr.bytes) {
                    Option::Some(v) => v,
                    Option::None => vstd::pervasive::unreached(),
                };
                proof {
                    assert(crate::json::jval_of(pv) == cr@.value);
                }
                crate::json::members_set(&mut ms, prev_result_key_vec(), pv);
            },
            Option::None => {},
        }
        crate::json::to_bytes(&JsonValue::Obj(ms))
    }

    /// ADD for one plugin: resolve the delegate binary, rebuild the plugin's
    /// object with name, version and the previous result, invoke the
    /// delegate and decode its output.  The recorded call pins the exact
    /// stdin bytes and environment; the result is exactly the decoding of
    /// the recorded outcome.
    pub fn add_network(
        &mut self,
        name: &Vec<u8>,
        cni_version: &Vec<u8>,
        net: &NetworkConfig,
        prev: Option<&ChainResult>,
        rt: &RuntimeConf,
    ) -> (r: Result<ChainResult, CniError>)
        requires
            wf_plugin(net@),
            prev matches Option::Some(cr) ==> wf_result(cr@),
        ensures
            final(self).path@ == old(self).path@,
            final(self).cache_dir@ == old(self).cache_dir@,
            ({
                let pre = old(self).executor.calls();
                let post = final(self).executor.calls();
                let paths = str_views(old(self).path@, 0);
                &&& pre.len() <= post.len() <= pre.len() + 1
                &&& (forall|t: int| 0 <= t < pre.len() ==> post[t] == #[trigger] pre[t])
                &&& (post.len() == pre.len() ==> (r matches Result::Err(e) && (e matches
                    CniError::PluginNotFound { plugin: pl } && pl@ == net@.plugin_type)))
                &&& (post.len() == pre.len() + 1 ==> {
                    let c = post.last();
                    &&& (exists|i: int|
                        0 <= i < paths.len() && c.path == crate::exec::joined_path(
                            #[trigger] paths[i],
                            net@.plugin_type,
                        ))
                    &&& c.stdin == add_stdin(net@, name@, cni_version@, prev_view(prev))
                    &&& c.env == call_env("ADD"@, rt@, paths)
                    &&& match r {
                        Result::Ok(cr) => decoded_of(c.output) == Option::Some(cr@) && wf_result(
                            cr@,
                        ),
                        Result::Err(e) => delegate_result_err(c.output, e) && decoded_of(
                            c.output,
                        ) is None,
                    }
                })
            }),
    {
        proof {
            reveal(crate::exec::decoded_of);
        }
        let plugin_path = match self.executor.find_in_path(&net.plugin_type, &self.path) {
            Result::Ok(p) => p,
            Result::Err(e) => {
                return Result::Err(e);
            },
        };
        let stdin = self.build_new_config(name, cni_version, net, prev);
        let args = ExecArgs {
            command: String::from_str("ADD"),
            containerd_id: rt.container_id.clone(),
            netns: rt.net_ns.clone(),
            plugin_args: clone_pairs(&rt.args),
            ifname: rt.if_name.clone(),
            path: join_paths(&self.path),
        };
        let env = args.protocol_env();
        let call = PluginCall { path: plugin_path, stdin, env };
        proof {
            crate::exec::lemma_str_views(self.path@, 0);
            let i0 = choose|i: int|
                0 <= i < self.path@.len() && call.path@ == crate::exec::joined_path(
                    self.path@[i]@,
                    net@.plugin_type,
                );
            assert(str_views(self.path@, 0)[i0] == self.path@[i0]@);
            assert(pair_views(call.env@, 0) == call_env("ADD"@, rt@, str_views(self.path@, 0)));
        }
        let outcome = self.executor.exec_plugins(&call);
        match interpret_output(outcome) {
            Result::Ok(bytes) => match decode_result(bytes) {
                Result::Ok(cr) => Result::Ok(cr),
                Result::Err(e) => Result::Err(e),
            },
            Result::Err(e) => Result::Err(e),
        }
    }

    /// One plugin invocation without result threading, under the given verb.
    fn bare_network_op(
        &mut self,
        verb: &str,
        name: &Vec<u8>,
        cni_version: &Vec<u8>,
        net: &NetworkConfig,
        rt: &RuntimeConf,
    ) -> (r: Result<(), CniError>)
        requires
            wf_plugin(net@),
        ensures
            final(self).path@ == old(self).path@,
            final(self).cache_dir@ == old(self).cache_dir@,
            ({
                let pre = old(self).executor.calls();
                let post = final(self).executor.calls();
                let paths = str_views(old(self).path@, 0);
                &&& pre.len() <= post.len() <= pre.len() + 1
                &&& (forall|t: int| 0 <= t < pre.len() ==> post[t] == #[trigger] pre[t])
                &&& (post.len() == pre.len() ==> (r matches Result::Err(e) && (e matches
                    CniError::PluginNotFound { plugin: pl } && pl@ == net@.plugin_type)))
                &&& (post.len() == pre.len() + 1 ==> {
                    let c = post.last();
                    &&& (exists|i: int|
                        0 <= i < paths.len() && c.path == crate::exec::joined_path(
                            #[trigger] paths[i],
                            net@.plugin_type,
                        ))
                    &&& c.stdin == del_stdin(net@, name@, cni_version@)
                    &&& c.env == call_env(verb@, rt@, paths)
                    &&& match r {
                        Result::Ok(u) => interpret_spec(c.output) is Output,
                        Result::Err(e) => delegate_result_err(c.output, e) && !(interpret_spec(
                            c.output,
                        ) is Output),
                    }
                })
            }),
    {
        let plugin_path = match self.executor.find_in_path(&net.plugin_type, &self.path) {
            Result::Ok(p) => p,
            Result::Err(e) => {
                return Result::Err(e);
            },
        };
        let stdin = self.build_new_config(name, cni_version, net, Option::None);
        let args = ExecArgs {
            command: String::from_str(verb),
            containerd_id: rt.container_id.clone(),
            netns: rt.net_ns.clone(),
            plugin_args: clone_pairs(&rt.args),
            ifname: rt.if_name.clone(),
            path: join_paths(&self.path),
        };
        let env = args.protocol_env();
        let call = PluginCall { path: plugin_path, stdin, env };
        proof {
            crate::exec::lemma_str_views(self.path@, 0);
            let i0 = choose|i: int|
                0 <= i < self.path@.len() && call.path@ == crate::exec::joined_path(
                    self.path@[i]@,
                    net@.plugin_type,
                );
            assert(str_views(self.path@, 0)[i0] == self.path@[i0]@);
            assert(pair_views(call.env@, 0) == call_env(verb@, rt@, str_views(self.path@, 0)));
        }
        let outcome = self.executor.exec_plugins(&call);
        match interpret_output(outcome) {
            Result::Ok(_) => Result::Ok(()),
            Result::Err(e) => Result::Err(e),
        }
    }

    /// DEL for one plugin: the merged object without a previous result,
    /// under the DEL verb.
    pub fn delete_network(
        &mut self,
        name: &Vec<u8>,
        cni_version: &Vec<u8>,
        net: &NetworkConfig,
        rt: &RuntimeConf,
    ) -> (r: Result<(), CniError>)
        requires
            wf_plugin(net@),
        ensures
            final(self).path@ == old(self).path@,
            final(self).cache_dir@ == old(self).cache_dir@,
            ({
                let pre = old(self).executor.calls();
                let post = final(self).executor.calls();
                let paths = str_views(old(self).path@, 0);
                &&& pre.len() <= post.len() <= pre.len() + 1
                &&& (forall|t: int| 0 <= t < pre.len() ==> post[t] == #[trigger] pre[t])
                &&& (post.len() == pre.len() ==> (r matches Result::Err(e) && (e matches
                    CniError::PluginNotFound { plugin: pl } && pl@ == net@.plugin_type)))
                &&& (post.len() == pre.len() + 1 ==> {
                    let c = post.last();
                    &&& (exists|i: int|
                        0 <= i < paths.len() && c.path == crate::exec::joined_path(
                            #[trigger] paths[i],
                            net@.plugin_type,
                        ))
                    &&& c.stdin == del_stdin(net@, name@, cni_version@)
                    &&& c.env == call_env("DEL"@, rt@, paths)
                    &&& match r {
                        Result::Ok(u) => interpret_spec(c.output) is Output,
                        Result::Err(e) => delegate_result_err(c.output, e) && !(interpret_spec(
                            c.output,
                        ) is Output),
                    }
                })
            }),
    {
        self.bare_network_op("DEL", name, cni_version, net, rt)
    }

    /// ADD across the whole chain, front to back: each delegate's decoded
    /// result is threaded into the next delegate's input; the first failure
    /// aborts the chain at once, with no compensating rollback, so plugins
    /// after the failing one are never invoked.
    #[verifier::loop_isolation(false)]
    #[verifier::rlimit(100)]
    pub fn add_network_list(&mut self, net: &NetworkConfigList, rt: &RuntimeConf) -> (r: Result<
        ChainResult,
        CniError,
    >)
        requires
            wf_chain(net@),
        ensures
            final(self).path@ == old(self).path@,
            final(self).cache_dir@ == old(self).cache_dir@,
            ({
                let pre = old(self).executor.calls();
                let post = final(self).executor.calls();
                let paths = str_views(old(self).path@, 0);
                let n = net@.plugins.len();
                let added = post.skip(pre.len() as int);
                &&& post.len() >= pre.len()
                &&& (forall|t: int| 0 <= t < pre.len() ==> post[t] == #[trigger] pre[t])
                &&& added.len() <= n
                &&& add_trace_ok(net@, rt@, paths, added)
                &&& match r {
                    Result::Ok(cr) => added.len() == n && n > 0 && wf_result(cr@) && decoded_of(
                        post.last().output,
                    ) == Option::Some(cr@),
                    Result::Err(e) => {
                        ||| (n == 0 && added.len() == 0 && e matches CniError::Execute { .. })
                        ||| (added.len() < n && (e matches CniError::PluginNotFound {
                            plugin: pl,
                        } && pl@ == net@.plugins[added.len() as int].plugin_type))
                        ||| (1 <= added.len() <= n && delegate_result_err(
                            post.last().output,
                            e,
                        ))
                    },
                }
            }),
    {
        proof {
            crate::conf::lemma_pviews_of(net.plugins@, 0);
        }
        let ghost pre = self.executor.calls();
        let ghost paths = str_views(old(self).path@, 0);
        let mut prev: Option<ChainResult> = Option::None;
        let mut k: usize = 0;
        while k < net.plugins.len()
            invariant
                k <= net@.plugins.len(),
                self.path@ == old(self).path@,
                self.cache_dir@ == old(self).cache_dir@,
                self.executor.calls().len() == pre.len() + k,
                forall|t: int| 0 <= t < pre.len() ==> self.executor.calls()[t] == #[trigger] pre[t],
                add_trace_ok(net@, rt@, paths, self.executor.calls().skip(pre.len() as int)),
                match prev {
                    Option::Some(cr) => k > 0 && wf_result(cr@) && decoded_of(
                        self.executor.calls().last().output,
                    ) == Option::Some(cr@),
                    Option::None => k == 0,
                },
            decreases net@.plugins.len() - k,
        {
            let prev_ref = match &prev {
                Option::Some(c) => Option::Some(c),
                Option::None => Option::None,
            };
            let ghost mid = self.executor.calls();
            proof {
                crate::conf::lemma_pviews_of(net.plugins@, 0);
                assert((net.plugins@[k as int])@ == net@.plugins[k as int]);
                assert(wf_plugin(net@.plugins[k as int]));
            }
            let step = self.add_network(&net.name, &net.cni_version, &net.plugins[k], prev_ref, rt);
            proof {
                crate::conf::lemma_pviews_of(net.plugins@, 0);
            }
            match step {
                Result::Ok(cr) => {
                    proof {
                        let mid_added = mid.skip(pre.len() as int);
                        let added = self.executor.calls().skip(pre.len() as int);
                        assert forall|q: int| 0 <= q < mid_added.len() implies added[q]
                            == #[trigger] mid_added[q] by {
                            assert(added[q] == self.executor.calls()[pre.len() + q]);
                            assert(mid_added[q] == mid[pre.len() + q]);
                        }
                        assert(added.last() == self.executor.calls().last());
                        if k > 0 {
                            assert(mid_added.last() == mid.last());
                        }
                        lemma_add_call_shape_intro(
                            added.last(),
                            net@,
                            rt@,
                            paths,
                            k as int,
                            prev_view(prev_ref),
                        );
                        lemma_add_trace_extend(net@, rt@, paths, mid_added, added, prev_view(
                            prev_ref,
                        ));
                    }
                    prev = Option::Some(cr);
                },
                Result::Err(e) => {
                    proof {
                        let mid_added = mid.skip(pre.len() as int);
                        let added = self.executor.calls().skip(pre.len() as int);
                        if self.executor.calls().len() == mid.len() {
                            assert(added =~= mid_added);
                        } else {
                            assert forall|q: int| 0 <= q < mid_added.len() implies added[q]
                                == #[trigger] mid_added[q] by {
                                assert(added[q] == self.executor.calls()[pre.len() + q]);
                                assert(mid_added[q] == mid[pre.len() + q]);
                            }
                            assert(added.last() == self.executor.calls().last());
                            if k > 0 {
                                assert(mid_added.last() == mid.last());
                            }
                            lemma_add_call_shape_intro(
                                added.last(),
                                net@,
                                rt@,
                                paths,
                                k as int,
                                prev_view(prev_ref),
                            );
                            lemma_add_trace_extend(net@, rt@, paths, mid_added, added, prev_view(
                                prev_ref,
                            ));
                        }
                    }
                    return Result::Err(e);
                },
            }
            k = k + 1;
        }
        proof {
            assert(self.executor.calls().skip(pre.len() as int).len() == net@.plugins.len());
            match &prev {
                Option::Some(cr) => {
                    assert(decoded_of(self.executor.calls().last().output) == Option::Some(cr@));
                    assert(wf_result(cr@));
                    assert(net@.plugins.len() > 0);
                },
                Option::None => {
                    assert(net@.plugins.len() == 0);
                },
            }
        }
        match prev {
            Option::Some(cr) => Result::Ok(cr),
            Option::None => {
                let message: Vec<u8> = Vec::new();
                Result::Err(CniError::Execute { message })
            },
        }
    }

    /// DEL across the whole chain, in the same front-to-back order as ADD;
    /// the whole teardown aborts and propagates on the first plugin error,
    /// and best-effort cleanup across the remainder is the caller's
    /// business.
    #[verifier::loop_isolation(false)]
    pub fn delete_network_list(&mut self, net: &NetworkConfigList, rt: &RuntimeConf) -> (r: Result<
        (),
        CniError,
    >)
        requires
            wf_chain(net@),
        ensures
            final(self).path@ == old(self).path@,
            final(self).cache_dir@ == old(self).cache_dir@,
            ({
                let pre = old(self).executor.calls();
                let post = final(self).executor.calls();
                let paths = str_views(old(self).path@, 0);
                let n = net@.plugins.len();
                let added = post.skip(pre.len() as int);
                &&& post.len() >= pre.len()
                &&& (forall|t: int| 0 <= t < pre.len() ==> post[t] == #[trigger] pre[t])
                &&& added.len() <= n
                &&& del_trace_ok(net@, rt@, paths, added)
                &&& match r {
                    Result::Ok(u) => added.len() == n && (forall|q: int|
                        0 <= q < added.len() ==> interpret_spec(
                            (#[trigger] added[q]).output,
                        ) is Output),
                    Result::Err(e) => {
                        &&& (forall|q: int|
                            0 <= q < added.len() - 1 ==> interpret_spec(
                                (#[trigger] added[q]).output,
                            ) is Output)
                        &&& {
                            ||| (added.len() < n && (e matches CniError::PluginNotFound {
                                plugin: pl,
                            } && pl@ == net@.plugins[added.len() as int].plugin_type))
                            ||| (1 <= added.len() <= n && delegate_result_err(
                                post.last().output,
                                e,
                            ))
                        }
                    },
                }
            }),
    {
        proof {
            crate::conf::lemma_pviews_of(net.plugins@, 0);
        }
        let ghost pre = self.executor.calls();
        let ghost paths = str_views(old(self).path@, 0);
        let mut k: usize = 0;
        while k < net.plugins.len()
            invariant
                k <= net@.plugins.len(),
                self.path@ == old(self).path@,
                self.cache_dir@ == old(self).cache_dir@,
                self.executor.calls().len() == pre.len() + k,
                forall|t: int| 0 <= t < pre.len() ==> self.executor.calls()[t] == #[trigger] pre[t],
                del_trace_ok(net@, rt@, paths, self.executor.calls().skip(pre.len() as int)),
                forall|q: int|
                    0 <= q < k ==> interpret_spec(
                        (#[trigger] self.executor.calls().skip(pre.len() as int)[q]).output,
                    ) is Output,
            decreases net@.plugins.len() - k,
        {
            let ghost mid = self.executor.calls();
            proof {
                crate::conf::lemma_pviews_of(net.plugins@, 0);
                assert((net.plugins@[k as int])@ == net@.plugins[k as int]);
                assert(wf_plugin(net@.plugins[k as int]));
            }
            let step = self.delete_network(&net.name, &net.cni_version, &net.plugins[k], rt);
            proof {
                crate::conf::lemma_pviews_of(net.plugins@, 0);
            }
            match step {
                Result::Ok(u) => {
                    proof {
                        let mid_added = mid.skip(pre.len() as int);
                        let added = self.executor.calls().skip(pre.len() as int);
                        assert forall|q: int| 0 <= q < mid_added.len() implies added[q]
                            == #[trigger] mid_added[q] by {
                            assert(added[q] == self.executor.calls()[pre.len() + q]);
                            assert(mid_added[q] == mid[pre.len() + q]);
                        }
                        assert(added.last() == self.executor.calls().last());
                        lemma_bare_call_shape_intro(added.last(), net@, rt@, paths, k as int, "DEL"@);
                        lemma_del_trace_extend(net@, rt@, paths, mid_added, added);
                        assert forall|q: int| 0 <= q < k + 1 implies interpret_spec(
                            (#[trigger] added[q]).output,
                        ) is Output by {
                            if q < k {
                                assert(added[q] == mid_added[q]);
                            } else {
                                assert(added[q] == added.last());
                            }
                        }
                    }
                },
                Result::Err(e) => {
                    proof {
                        let mid_added = mid.skip(pre.len() as int);
                        let added = self.executor.calls().skip(pre.len() as int);
                        if self.executor.calls().len() == mid.len() {
                            assert(added =~= mid_added);
                        } else {
                            assert forall|q: int| 0 <= q < mid_added.len() implies added[q]
                                == #[trigger] mid_added[q] by {
                                assert(added[q] == self.executor.calls()[pre.len() + q]);
                                assert(mid_added[q] == mid[pre.len() + q]);
                            }
                            assert(added.last() == self.executor.calls().last());
                            lemma_bare_call_shape_intro(
                                added.last(),
                                net@,
                                rt@,
                                paths,
                                k as int,
                                "DEL"@,
                            );
                            lemma_del_trace_extend(net@, rt@, paths, mid_added, added);
                        }
                        assert forall|q: int| 0 <= q < added.len() - 1 implies interpret_spec(
                            (#[trigger] added[q]).output,
                        ) is Output by {
                            assert(added[q] == mid_added[q]);
                        }
                    }
                    return Result::Err(e);
                },
            }
            k = k + 1;
        }
        Result::Ok(())
    }

    /// CHECK against every plugin of the chain, in order, collecting the
    /// per-plugin failures; an empty list means healthy, and then one CHECK
    /// invocation was performed per plugin, in chain order.  A chain loaded
    /// with `disableCheck` is not checked at all.
    #[verifier::loop_isolation(false)]
    pub fn check_network_list(&mut self, net: &NetworkConfigList, rt: &RuntimeConf) -> (failures:
        Vec<CniError>)
        requires
            wf_chain(net@),
        ensures
            final(self).path@ == old(self).path@,
            final(self).cache_dir@ == old(self).cache_dir@,
            ({
                let pre = old(self).executor.calls();
                let post = final(self).executor.calls();
                let paths = str_views(old(self).path@, 0);
                let n = net@.plugins.len();
                let added = post.skip(pre.len() as int);
                &&& post.len() >= pre.len()
                &&& (forall|t: int| 0 <= t < pre.len() ==> post[t] == #[trigger] pre[t])
                &&& (net@.disable_check ==> post.len() == pre.len() && failures@.len() == 0)
                &&& added.len() <= n
                &&& failures@.len() <= n
                &&& (!net@.disable_check ==> added.len() + failures@.len() >= n)
                &&& (exists|idxs: Seq<int>| #[trigger] check_mapped(
                    net@,
                    rt@,
                    paths,
                    added,
                    idxs,
                ))
                &&& (forall|t: int|
                    0 <= t < failures@.len() ==> failure_tied(#[trigger] failures@[t], net@, added))
                &&& (forall|t: int|
                    0 <= t < failures@.len() ==> !((#[trigger] failures@[t]) is NotInitialized))
                &&& (!net@.disable_check && failures@.len() == 0 ==> added.len() == n && (
                forall|j: int|
                    0 <= j < added.len() ==> bare_call_shape(
                        #[trigger] added[j],
                        net@,
                        rt@,
                        paths,
                        j,
                        "CHECK"@,
                    ) && interpret_spec(added[j].output) is Output))
            }),
    {
        proof {
            crate::conf::lemma_pviews_of(net.plugins@, 0);
        }
        let mut failures: Vec<CniError> = Vec::new();
        let ghost pre = self.executor.calls();
        let ghost paths = str_views(old(self).path@, 0);
        if net.disable_check {
            proof {
                assert(self.executor.calls().skip(pre.len() as int) =~= Seq::<CallView>::empty());
                assert(check_mapped(
                    net@,
                    rt@,
                    paths,
                    self.executor.calls().skip(pre.len() as int),
                    Seq::<int>::empty(),
                ));
            }
            return failures;
        }
        let ghost mut idxs: Seq<int> = Seq::empty();
        proof {
            assert(self.executor.calls().skip(pre.len() as int) =~= Seq::<CallView>::empty());
            assert(check_mapped(
                net@,
                rt@,
                paths,
                self.executor.calls().skip(pre.len() as int),
                idxs,
            ));
        }
        let mut k: usize = 0;
        while k < net.plugins.len()
            invariant
                k <= net@.plugins.len(),
                self.path@ == old(self).path@,
                self.cache_dir@ == old(self).cache_dir@,
                self.executor.calls().len() <= pre.len() + k,
                self.executor.calls().len() >= pre.len(),
                forall|t: int| 0 <= t < pre.len() ==> self.executor.calls()[t] == #[trigger] pre[t],
                failures@.len() <= k,
                self.executor.calls().len() - pre.len() + failures@.len() >= k,
                check_mapped(
                    net@,
                    rt@,
                    paths,
                    self.executor.calls().skip(pre.len() as int),
                    idxs,
                ),
                forall|j: int| #![trigger idxs[j]] 0 <= j < idxs.len() ==> idxs[j] < k,
                forall|t: int|
                    0 <= t < failures@.len() ==> failure_tied(
                        #[trigger] failures@[t],
                        net@,
                        self.executor.calls().skip(pre.len() as int),
                    ),
                forall|t: int|
                    0 <= t < failures@.len() ==> !((#[trigger] failures@[t]) is NotInitialized),
                failures@.len() == 0 ==> self.executor.calls().len() == pre.len() + k && (
                forall|j: int|
                    0 <= j < k ==> bare_call_shape(
                        #[trigger] self.executor.calls().skip(pre.len() as int)[j],
                        net@,
                        rt@,
                        paths,
                        j,
                        "CHECK"@,
                    ) && interpret_spec(
                        self.executor.calls().skip(pre.len() as int)[j].output,
                    ) is Output),
            decreases net@.plugins.len() - k,
        {
            let ghost mid = self.executor.calls();
            proof {
                crate::conf::lemma_pviews_of(net.plugins@, 0);
                assert((net.plugins@[k as int])@ == net@.plugins[k as int]);
                assert(wf_plugin(net@.plugins[k as int]));
            }
            let step = self.bare_network_op(
                "CHECK",
                &net.name,
                &net.cni_version,
                &net.plugins[k],
                rt,
            );
            proof {
                let mid_added = mid.skip(pre.len() as int);
                let added = self.executor.calls().skip(pre.len() as int);
                if self.executor.calls().len() == mid.len() {
                    assert(added =~= mid_added);
                } else {
                    assert forall|q: int| 0 <= q < mid_added.len() implies added[q]
                        == #[trigger] mid_added[q] by {
                        assert(added[q] == self.executor.calls()[pre.len() + q]);
                        assert(mid_added[q] == mid[pre.len() + q]);
                    }
                    assert(added.last() == self.executor.calls().last());
                    lemma_bare_call_shape_intro(added.last(), net@, rt@, paths, k as int, "CHECK"@);
                    lemma_check_mapped_extend(
                        net@,
                        rt@,
                        paths,
                        mid_added,
                        added,
                        idxs,
                        k as int,
                    );
                    idxs = idxs.push(k as int);
                    assert forall|t: int| 0 <= t < failures@.len() implies failure_tied(
                        #[trigger] failures@[t],
                        net@,
                        added,
                    ) by {
                        lemma_failure_tied_grow(failures@[t], net@, mid_added, added);
                    }
                }
            }
            match step {
                Result::Ok(u) => {
                    proof {
                        let mid_added = mid.skip(pre.len() as int);
                        let added = self.executor.calls().skip(pre.len() as int);
                        if failures@.len() == 0 {
                            assert(added.last() == self.executor.calls().last());
                            lemma_bare_call_shape_intro(
                                added.last(),
                                net@,
                                rt@,
                                paths,
                                k as int,
                                "CHECK"@,
                            );
                            assert forall|j: int| 0 <= j < k + 1 implies bare_call_shape(
                                #[trigger] added[j],
                                net@,
                                rt@,
                                paths,
                                j,
                                "CHECK"@,
                            ) && interpret_spec(added[j].output) is Output by {
                                if j < k {
                                    assert(added[j] == self.executor.calls()[pre.len() + j]);
                                    assert(mid_added[j] == mid[pre.len() + j]);
                                    assert(added[j] == mid_added[j]);
                                } else {
                                    assert(added[j] == added.last());
                                }
                            }
                        }
                    }
                },
                Result::Err(e) => {
                    proof {
                        let added = self.executor.calls().skip(pre.len() as int);
                        if self.executor.calls().len() == mid.len() {
                            assert(e matches CniError::PluginNotFound { plugin: pl } && pl@
                                == net@.plugins[k as int].plugin_type);
                            assert(failure_tied(e, net@, added));
                        } else {
                            assert(delegate_result_err(added.last().output, e));
                            assert(failure_tied(e, net@, added));
                        }
                    }
                    let ghost pre_fail = failures@;
                    failures.push(e);
                    proof {
                        assert forall|t: int| 0 <= t < failures@.len() implies failure_tied(
                            #[trigger] failures@[t],
                            net@,
                            self.executor.calls().skip(pre.len() as int),
                        ) by {
                            if t < pre_fail.len() {
                                assert(failures@[t] == pre_fail[t]);
                            } else {
                                assert(failures@[t] == e);
                            }
                        }
                    }
                },
            }
            k = k + 1;
        }
        failures
    }
}

impl<E: Exec> CNI for CNIConfig<E> {
    fn add_network_list(&mut self, net: &NetworkConfigList, rt: &RuntimeConf) -> Result<
        ChainResult,
        CniError,
    > {
        CNIConfig::add_network_list(self, net, rt)
    }

    fn check_network_list(&mut self, net: &NetworkConfigList, rt: &RuntimeConf) -> Vec<CniError> {
        CNIConfig::check_network_list(self, net, rt)
    }

    fn delete_network_list(&mut self, net: &NetworkConfigList, rt: &RuntimeConf) -> Result<
        (),
        CniError,
    > {
        CNIConfig::delete_network_list(self, net, rt)
    }

    fn add_network(
        &mut self,
        name: &Vec<u8>,
        cni_version: &Vec<u8>,
        net: &NetworkConfig,
        prev: Option<&ChainResult>,
        rt: &RuntimeConf,
    ) -> Result<ChainResult, CniError> {
        CNIConfig::add_network(self, name, cni_version, net, prev, rt)
    }

    fn delete_network(
        &mut self,
        name: &Vec<u8>,
        cni_version: &Vec<u8>,
        net: &NetworkConfig,
        rt: &RuntimeConf,
    ) -> Result<(), CniError> {
        CNIConfig::delete_network(self, name, cni_version, net, rt)
    }
}

} // verus!
