//! Registry Facade: owns the set of configured networks and drives
//! setup/remove/check across them.
//!
//! Decisions this implementation fixes and documents: DEL iterates each
//! chain in the same forward order as ADD; `remove` across bindings aborts
//! on the first binding error and propagates it; the loopback binding may
//! be appended more than once, each call adding one more binding.

use vstd::prelude::*;

use crate::api::{CNIConfig, RuntimeConf};
use crate::conf::{
    clone_bytes, type_key, type_key_vec, wf_chain, wf_plugin, ChainView, ConfigFile,
    NetworkConfig, NetworkConfigList,
};
use crate::errors::CniError;
use crate::exec::Exec;
use crate::json::{jval_of, JsonValue, JVal};
use crate::namespace::Namespace;

verus! {

/// Registry-level configuration: plugin binary directories, the
/// configuration directory, the minimum number of chains, and the prefix
/// of auto-assigned interface names.
pub struct Config {
    pub plugin_dirs: Vec<String>,
    pub plugin_conf_dir: String,
    pub plugin_max_conf_num: usize,
    pub prefix: String,
}

/// One binding of a chain to a target interface name.
pub struct Network {
    pub config: NetworkConfigList,
    pub ifname: String,
}

pub open spec fn wf_network(n: Network) -> bool {
    wf_chain(n.config@)
}

impl Network {
    /// ADD for this binding's whole chain, under runtime parameters built
    /// from the namespace handle and this binding's interface name; the
    /// first plugin failure aborts the chain at once, with no rollback.
    pub fn attach<E: Exec>(&self, cni: &mut CNIConfig<E>, ns: &Namespace) -> (r: Result<
        (),
        CniError,
    >)
        requires
            wf_network(*self),
        ensures
            final(cni).path@ == old(cni).path@,
            final(cni).cache_dir@ == old(cni).cache_dir@,
            ({
                let pre = old(cni).executor.calls();
                let post = final(cni).executor.calls();
                let paths = crate::exec::str_views(old(cni).path@, 0);
                let n = self.config@.plugins.len();
                let added = post.skip(pre.len() as int);
                let rt = crate::namespace::ns_rt(*ns, self.ifname@);
                &&& post.len() >= pre.len()
                &&& (forall|t: int| 0 <= t < pre.len() ==> post[t] == #[trigger] pre[t])
                &&& added.len() <= n
                &&& crate::api::add_trace_ok(self.config@, rt, paths, added)
                &&& match r {
                    Result::Ok(u) => added.len() == n && n > 0 && crate::exec::decoded_of(
                        post.last().output,
                    ) is Some,
                    Result::Err(e) => {
                        ||| (n == 0 && added.len() == 0 && e matches CniError::Execute { .. })
                        ||| (added.len() < n && (e matches CniError::PluginNotFound {
                            plugin: pl,
                        } && pl@ == self.config@.plugins[added.len() as int].plugin_type))
                        ||| (1 <= added.len() <= n && crate::exec::delegate_result_err(
                            post.last().output,
                            e,
                        ))
                    },
                }
            }),
    {
        let rt = ns.config(self.ifname.clone());
        match cni.add_network_list(&self.config, &rt) {
            Result::Ok(u) => Result::Ok(()),
            Result::Err(e) => Result::Err(e),
        }
    }

    /// DEL for this binding's whole chain, in the same forward order as
    /// ADD; the teardown aborts on the first plugin error.
    pub fn remove<E: Exec>(&self, cni: &mut CNIConfig<E>, ns: &Namespace) -> (r: Result<
        (),
        CniError,
    >)
        requires
            wf_network(*self),
        ensures
            final(cni).path@ == old(cni).path@,
            final(cni).cache_dir@ == old(cni).cache_dir@,
            ({
                let pre = old(cni).executor.calls();
                let post = final(cni).executor.calls();
                let paths = crate::exec::str_views(old(cni).path@, 0);
                let n = self.config@.plugins.len();
                let added = post.skip(pre.len() as int);
                let rt = crate::namespace::ns_rt(*ns, self.ifname@);
                &&& post.len() >= pre.len()
                &&& (forall|t: int| 0 <= t < pre.len() ==> post[t] == #[trigger] pre[t])
                &&& added.len() <= n
                &&& crate::api::del_trace_ok(self.config@, rt, paths, added)
                &&& match r {
                    Result::Ok(u) => added.len() == n && (forall|q: int|
                        0 <= q < added.len() ==> crate::exec::interpret_spec(
                            (#[trigger] added[q]).output,
                        ) is Output),
                    Result::Err(e) => {
                        &&& (forall|q: int|
                            0 <= q < added.len() - 1 ==> crate::exec::interpret_spec(
                                (#[trigger] added[q]).output,
                            ) is Output)
                        &&& {
                            ||| (added.len() < n && (e matches CniError::PluginNotFound {
                                plugin: pl,
                            } && pl@ == self.config@.plugins[added.len() as int].plugin_type))
                            ||| (1 <= added.len() <= n && crate::exec::delegate_result_err(
                                post.last().output,
                                e,
                            ))
                        }
                    },
                }
            }),
    {
        let rt = ns.config(self.ifname.clone());
        cni.delete_network_list(&self.config, &rt)
    }

    /// CHECK for this binding's whole chain; healthy exactly when no
    /// failure was collected, and then every plugin was checked in order;
    /// otherwise the last collected failure is returned.
    pub fn check<E: Exec>(&self, cni: &mut CNIConfig<E>, ns: &Namespace) -> (r: Result<
        (),
        CniError,
    >)
        requires
            wf_network(*self),
        ensures
            final(cni).path@ == old(cni).path@,
            final(cni).cache_dir@ == old(cni).cache_dir@,
            ({
                let pre = old(cni).executor.calls();
                let post = final(cni).executor.calls();
                let paths = crate::exec::str_views(old(cni).path@, 0);
                let n = self.config@.plugins.len();
                let added = post.skip(pre.len() as int);
                let rt = crate::namespace::ns_rt(*ns, self.ifname@);
                &&& post.len() >= pre.len()
                &&& (forall|t: int| 0 <= t < pre.len() ==> post[t] == #[trigger] pre[t])
                &&& (self.config@.disable_check ==> post.len() == pre.len() && r is Ok)
                &&& added.len() <= n
                &&& (exists|idxs: Seq<int>| #[trigger] crate::api::check_mapped(
                    self.config@,
                    rt,
                    paths,
                    added,
                    idxs,
                ))
                &&& match r {
                    Result::Ok(u) => !self.config@.disable_check ==> added.len() == n && (
                    forall|j: int|
                        0 <= j < added.len() ==> crate::api::bare_call_shape(
                            #[trigger] added[j],
                            self.config@,
                            rt,
                            paths,
                            j,
                            "CHECK"@,
                        ) && crate::exec::interpret_spec(added[j].output) is Output),
                    Result::Err(e) => crate::api::failure_tied(e, self.config@, added) && !(
                    e is NotInitialized),
                }
            }),
    {
        let rt = ns.config(self.ifname.clone());
        let mut failures = cni.check_network_list(&self.config, &rt);
        if failures.len() > 0 {
            match failures.pop() {
                Option::Some(e) => Result::Err(e),
                Option::None => Result::Ok(()),
            }
        } else {
            Result::Ok(())
        }
    }
}

/// The registry facade: configuration, the orchestrator with its executor,
/// the configured minimum number of bindings, and the ordered bindings.
pub struct Libcni<E: Exec> {
    pub config: Config,
    pub cni: CNIConfig<E>,
    pub network_count: usize,
    pub networks: Vec<Network>,
}

pub open spec fn wf_libcni<E: Exec>(c: Libcni<E>) -> bool {
    forall|i: int| 0 <= i < c.networks@.len() ==> wf_network(#[trigger] c.networks@[i])
}

/// The registry holds at least the configured minimum of bindings.
pub open spec fn status_ok<E: Exec>(c: Libcni<E>) -> bool {
    c.networks@.len() >= c.network_count
}

/// Status is a function of the registry alone: repeated calls without
/// registry mutation return the same outcome.
pub proof fn lemma_status_idempotent<E: Exec>(a: Libcni<E>, b: Libcni<E>)
    requires
        a.networks@ == b.networks@,
        a.network_count == b.network_count,
    ensures
        status_ok(a) == status_ok(b),
{
}

pub open spec fn digit_char(d: nat) -> char {
    if d == 0 { '0' }
    else if d == 1 { '1' }
    else if d == 2 { '2' }
    else if d == 3 { '3' }
    else if d == 4 { '4' }
    else if d == 5 { '5' }
    else if d == 6 { '6' }
    else if d == 7 { '7' }
    else if d == 8 { '8' }
    else { '9' }
}

/// The decimal digits of `n`, most significant first.
pub open spec fn dec_chars(n: nat) -> Seq<char>
    decreases n,
{
    if n < 10 {
        seq![digit_char(n)]
    } else {
        dec_chars(n / 10).push(digit_char(n % 10))
    }
}

/// Appends the decimal digits of `n`.
pub fn push_dec(n: u64, out: &mut String)
    ensures
        final(out)@ == old(out)@ + dec_chars(n as nat),
    decreases n,
{
    proof {
        reveal_strlit("0");
        reveal_strlit("1");
        reveal_strlit("2");
        reveal_strlit("3");
        reveal_strlit("4");
        reveal_strlit("5");
        reveal_strlit("6");
        reveal_strlit("7");
        reveal_strlit("8");
        reveal_strlit("9");
    }
    if n >= 10 {
        push_dec(n / 10, out);
    }
    let d = n % 10;
    if d == 0 { out.append("0"); }
    else if d == 1 { out.append("1"); }
    else if d == 2 { out.append("2"); }
    else if d == 3 { out.append("3"); }
    else if d == 4 { out.append("4"); }
    else if d == 5 { out.append("5"); }
    else if d == 6 { out.append("6"); }
    else if d == 7 { out.append("7"); }
    else if d == 8 { out.append("8"); }
    else { out.append("9"); }
    proof {
        if n < 10 {
            assert(out@ =~= old(out)@ + dec_chars(n as nat));
        } else {
            assert(out@ =~= old(out)@ + dec_chars(n as nat));
        }
    }
}

pub open spec fn lo_type_bytes() -> Seq<u8> {
    seq![0x6cu8, 0x6f, 0x6f, 0x70, 0x62, 0x61, 0x63, 0x6b]
}

pub open spec fn lo_name_bytes() -> Seq<u8> {
    seq![0x63u8, 0x6e, 0x69, 0x2d, 0x6c, 0x6f, 0x6f, 0x70, 0x62, 0x61, 0x63, 0x6b]
}

pub open spec fn lo_version_bytes() -> Seq<u8> {
    seq![0x30u8, 0x2e, 0x33, 0x2e, 0x31]
}

/// View of a list of byte vectors.
pub open spec fn byte_views(ds: Seq<Vec<u8>>, i: int) -> Seq<Seq<u8>>
    decreases ds.len() - i,
{
    if i < 0 || i >= ds.len() {
        Seq::empty()
    } else {
        seq![ds[i]@] + byte_views(ds, i + 1)
    }
}

pub broadcast proof fn lemma_byte_views(ds: Seq<Vec<u8>>, i: int)
    requires
        0 <= i <= ds.len(),
    ensures
        (#[trigger] byte_views(ds, i)).len() == ds.len() - i,
        forall|k: int| i <= k < ds.len() ==> byte_views(ds, i)[k - i] == (#[trigger] ds[k])@,
    decreases ds.len() - i,
{
    if i < ds.len() {
        lemma_byte_views(ds, i + 1);
    }
}

/// The bytes of the `.conflist`-named directory entries from `i` on, in
/// listing order.
pub open spec fn conflist_docs(files: Seq<(String, Vec<u8>)>, i: int) -> Seq<Seq<u8>>
    decreases files.len() - i,
{
    if i < 0 || i >= files.len() {
        Seq::empty()
    } else if is_conflist_name(files[i].0@) {
        seq![files[i].1@] + conflist_docs(files, i + 1)
    } else {
        conflist_docs(files, i + 1)
    }
}

/// The runtime parameters a fresh namespace handle yields for an interface
/// name: the container id, the namespace path and no arguments.
pub open spec fn fresh_rt(id: Seq<char>, ns_path: Seq<char>, ifname: Seq<char>) -> crate::api::RtView {
    crate::api::RtView {
        container_id: id,
        net_ns: ns_path,
        if_name: ifname,
        args: Seq::<(Seq<char>, Seq<char>)>::empty(),
        capability_args: Seq::<(Seq<char>, Seq<char>)>::empty(),
        cache_dir: Seq::<char>::empty(),
    }
}

/// Plugin count of the first `k` bindings together.
pub open spec fn plugins_total(nets: Seq<Network>, k: int) -> int
    decreases k,
{
    if k <= 0 {
        0
    } else {
        plugins_total(nets, k - 1) + nets[k - 1].config@.plugins.len()
    }
}

pub proof fn lemma_plugins_total_bounds(nets: Seq<Network>, j: int, m: int)
    requires
        0 <= j <= m,
    ensures
        0 <= plugins_total(nets, j) <= plugins_total(nets, m),
    decreases j + m,
{
    if j > 0 {
        lemma_plugins_total_bounds(nets, j - 1, j - 1);
    }
    if j < m {
        lemma_plugins_total_bounds(nets, j, m - 1);
    }
}

/// The calls are the complete, successful ADD traces of bindings `0..m`,
/// in registry order, each under runtime parameters from the id, the path
/// and that binding's interface name.
#[verifier::opaque]
pub open spec fn setup_segments(
    nets: Seq<Network>,
    id: Seq<char>,
    ns_path: Seq<char>,
    paths: Seq<Seq<char>>,
    calls: Seq<crate::exec::CallView>,
    m: int,
) -> bool
    decreases m,
{
    if m <= 0 {
        calls.len() == 0
    } else {
        let done = plugins_total(nets, m - 1);
        let seg = calls.skip(done);
        &&& calls.len() == plugins_total(nets, m)
        &&& setup_segments(nets, id, ns_path, paths, calls.take(done), m - 1)
        &&& nets[m - 1].config@.plugins.len() > 0
        &&& seg.len() == nets[m - 1].config@.plugins.len()
        &&& crate::api::add_trace_ok(
            nets[m - 1].config@,
            fresh_rt(id, ns_path, nets[m - 1].ifname@),
            paths,
            seg,
        )
        &&& crate::exec::decoded_of(seg.last().output) is Some
    }
}

/// Appending one binding's complete successful ADD trace extends the
/// segments by one binding.
/// The segments of `m` bindings hold exactly their plugins' worth of calls.
pub proof fn lemma_setup_segments_len(
    nets: Seq<Network>,
    id: Seq<char>,
    ns_path: Seq<char>,
    paths: Seq<Seq<char>>,
    calls: Seq<crate::exec::CallView>,
    m: int,
)
    requires
        m >= 0,
        setup_segments(nets, id, ns_path, paths, calls, m),
    ensures
        calls.len() == plugins_total(nets, m),
{
    reveal(setup_segments);
}

/// With no bindings processed, the empty record is the segments.
pub proof fn lemma_setup_segments_empty(
    nets: Seq<Network>,
    id: Seq<char>,
    ns_path: Seq<char>,
    paths: Seq<Seq<char>>,
    calls: Seq<crate::exec::CallView>,
)
    requires
        calls.len() == 0,
    ensures
        setup_segments(nets, id, ns_path, paths, calls, 0),
{
    reveal(setup_segments);
}

#[verifier::rlimit(100)]
#[verifier::spinoff_prover]
pub proof fn lemma_setup_segments_extend(
    nets: Seq<Network>,
    id: Seq<char>,
    ns_path: Seq<char>,
    paths: Seq<Seq<char>>,
    calls1: Seq<crate::exec::CallView>,
    calls2: Seq<crate::exec::CallView>,
    m: int,
)
    requires
        setup_segments(nets, id, ns_path, paths, calls1, m),
        0 <= m < nets.len(),
        nets[m].config@.plugins.len() > 0,
        calls2.len() == calls1.len() + nets[m].config@.plugins.len(),
        forall|t: int| 0 <= t < calls1.len() ==> calls2[t] == #[trigger] calls1[t],
        crate::api::add_trace_ok(
            nets[m].config@,
            fresh_rt(id, ns_path, nets[m].ifname@),
            paths,
            calls2.subrange(calls1.len() as int, calls2.len() as int),
        ),
        crate::exec::decoded_of(calls2.last().output) is Some,
    ensures
        setup_segments(nets, id, ns_path, paths, calls2, m + 1),
{
    reveal(setup_segments);
    if m > 0 {
        lemma_plugins_total_bounds(nets, m - 1, m);
    }
    assert(plugins_total(nets, m + 1) == plugins_total(nets, m)
        + nets[m].config@.plugins.len());
    assert(calls1.len() == plugins_total(nets, m));
    assert(calls2.take(plugins_total(nets, m)) =~= calls1);
    assert(calls2.skip(plugins_total(nets, m)) =~= calls2.subrange(
        calls1.len() as int,
        calls2.len() as int,
    ));
    assert(calls2.skip(plugins_total(nets, m)).last() == calls2.last());
}

/// A setup run aborted at binding `m`: the bindings before it attached
/// completely, the failing binding's calls form a well-shaped ADD prefix,
/// and the error ties to the resolution or the last recorded outcome.
#[verifier::opaque]
pub open spec fn setup_aborted(
    nets: Seq<Network>,
    id: Seq<char>,
    ns_path: Seq<char>,
    paths: Seq<Seq<char>>,
    added: Seq<crate::exec::CallView>,
    e: CniError,
    m: int,
) -> bool {
    let done = plugins_total(nets, m);
    let rem = added.skip(done);
    let n = nets[m].config@.plugins.len();
    &&& 0 <= m < nets.len()
    &&& 0 <= done <= added.len()
    &&& setup_segments(nets, id, ns_path, paths, added.take(done), m)
    &&& rem.len() <= n
    &&& crate::api::add_trace_ok(nets[m].config@, fresh_rt(id, ns_path, nets[m].ifname@), paths, rem)
    &&& {
        ||| (n == 0 && rem.len() == 0 && e matches CniError::Execute { .. })
        ||| (rem.len() < n && (e matches CniError::PluginNotFound { plugin: pl } && pl@
            == nets[m].config@.plugins[rem.len() as int].plugin_type))
        ||| (1 <= rem.len() && crate::exec::delegate_result_err(rem.last().output, e))
    }
}

/// The calls are the complete, successful DEL traces of bindings `0..m`,
/// in the same forward order as ADD.
#[verifier::opaque]
pub open spec fn remove_segments(
    nets: Seq<Network>,
    id: Seq<char>,
    ns_path: Seq<char>,
    paths: Seq<Seq<char>>,
    calls: Seq<crate::exec::CallView>,
    m: int,
) -> bool
    decreases m,
{
    if m <= 0 {
        calls.len() == 0
    } else {
        let done = plugins_total(nets, m - 1);
        let seg = calls.skip(done);
        &&& calls.len() == plugins_total(nets, m)
        &&& remove_segments(nets, id, ns_path, paths, calls.take(done), m - 1)
        &&& seg.len() == nets[m - 1].config@.plugins.len()
        &&& crate::api::del_trace_ok(
            nets[m - 1].config@,
            fresh_rt(id, ns_path, nets[m - 1].ifname@),
            paths,
            seg,
        )
        &&& (forall|q: int|
            0 <= q < seg.len() ==> crate::exec::interpret_spec(
                (#[trigger] seg[q]).output,
            ) is Output)
    }
}

pub proof fn lemma_remove_segments_len(
    nets: Seq<Network>,
    id: Seq<char>,
    ns_path: Seq<char>,
    paths: Seq<Seq<char>>,
    calls: Seq<crate::exec::CallView>,
    m: int,
)
    requires
        m >= 0,
        remove_segments(nets, id, ns_path, paths, calls, m),
    ensures
        calls.len() == plugins_total(nets, m),
{
    reveal(remove_segments);
}

pub proof fn lemma_remove_segments_empty(
    nets: Seq<Network>,
    id: Seq<char>,
    ns_path: Seq<char>,
    paths: Seq<Seq<char>>,
    calls: Seq<crate::exec::CallView>,
)
    requires
        calls.len() == 0,
    ensures
        remove_segments(nets, id, ns_path, paths, calls, 0),
{
    reveal(remove_segments);
}

/// Appending one binding's complete successful DEL trace extends the
/// segments by one binding.
#[verifier::rlimit(100)]
#[verifier::spinoff_prover]
pub proof fn lemma_remove_segments_extend(
    nets: Seq<Network>,
    id: Seq<char>,
    ns_path: Seq<char>,
    paths: Seq<Seq<char>>,
    calls1: Seq<crate::exec::CallView>,
    calls2: Seq<crate::exec::CallView>,
    m: int,
)
    requires
        remove_segments(nets, id, ns_path, paths, calls1, m),
        0 <= m < nets.len(),
        calls2.len() == calls1.len() + nets[m].config@.plugins.len(),
        forall|t: int| 0 <= t < calls1.len() ==> calls2[t] == #[trigger] calls1[t],
        crate::api::del_trace_ok(
            nets[m].config@,
            fresh_rt(id, ns_path, nets[m].ifname@),
            paths,
            calls2.subrange(calls1.len() as int, calls2.len() as int),
        ),
        forall|q: int|
            calls1.len() <= q < calls2.len() ==> crate::exec::interpret_spec(
                (#[trigger] calls2[q]).output,
            ) is Output,
    ensures
        remove_segments(nets, id, ns_path, paths, calls2, m + 1),
{
    reveal(remove_segments);
    if m > 0 {
        lemma_plugins_total_bounds(nets, m - 1, m);
    }
    lemma_remove_segments_len(nets, id, ns_path, paths, calls1, m);
    assert(plugins_total(nets, m + 1) == plugins_total(nets, m)
        + nets[m].config@.plugins.len());
    assert(calls2.take(plugins_total(nets, m)) =~= calls1);
    assert(calls2.skip(plugins_total(nets, m)) =~= calls2.subrange(
        calls1.len() as int,
        calls2.len() as int,
    ));
    assert forall|q: int|
        0 <= q < calls2.skip(plugins_total(nets, m)).len() implies crate::exec::interpret_spec(
        (#[trigger] calls2.skip(plugins_total(nets, m))[q]).output,
    ) is Output by {
        assert(calls2.skip(plugins_total(nets, m))[q] == calls2[calls1.len() + q]);
    }
}

/// A remove run aborted at binding `m`: the bindings before it were torn
/// down completely, the failing binding's calls form a well-shaped DEL
/// prefix whose earlier outcomes succeeded, and the error ties to the
/// resolution or the last recorded outcome.
#[verifier::opaque]
pub open spec fn remove_aborted(
    nets: Seq<Network>,
    id: Seq<char>,
    ns_path: Seq<char>,
    paths: Seq<Seq<char>>,
    added: Seq<crate::exec::CallView>,
    e: CniError,
    m: int,
) -> bool {
    let done = plugins_total(nets, m);
    let rem = added.skip(done);
    let n = nets[m].config@.plugins.len();
    &&& 0 <= m < nets.len()
    &&& 0 <= done <= added.len()
    &&& remove_segments(nets, id, ns_path, paths, added.take(done), m)
    &&& rem.len() <= n
    &&& crate::api::del_trace_ok(nets[m].config@, fresh_rt(id, ns_path, nets[m].ifname@), paths, rem)
    &&& (forall|q: int|
        0 <= q < rem.len() - 1 ==> crate::exec::interpret_spec(
            (#[trigger] rem[q]).output,
        ) is Output)
    &&& {
        ||| (rem.len() < n && (e matches CniError::PluginNotFound { plugin: pl } && pl@
            == nets[m].config@.plugins[rem.len() as int].plugin_type))
        ||| (1 <= rem.len() && crate::exec::delegate_result_err(rem.last().output, e))
    }
}

/// Call count of CHECK across the first `k` bindings: chains loaded with
/// `disableCheck` contribute nothing.
pub open spec fn checked_total(nets: Seq<Network>, k: int) -> int
    decreases k,
{
    if k <= 0 {
        0
    } else {
        checked_total(nets, k - 1) + (if nets[k - 1].config@.disable_check {
            0
        } else {
            nets[k - 1].config@.plugins.len() as int
        })
    }
}

pub proof fn lemma_checked_total_bounds(nets: Seq<Network>, j: int, m: int)
    requires
        0 <= j <= m,
    ensures
        0 <= checked_total(nets, j) <= checked_total(nets, m),
    decreases j + m,
{
    if j > 0 {
        lemma_checked_total_bounds(nets, j - 1, j - 1);
    }
    if j < m {
        lemma_checked_total_bounds(nets, j, m - 1);
    }
}

/// The calls are the complete, healthy CHECK traces of bindings `0..m`, in
/// registry order: every plugin of every non-disabled chain checked with a
/// successful outcome, and disabled chains not checked at all.
#[verifier::opaque]
pub open spec fn check_segments(
    nets: Seq<Network>,
    id: Seq<char>,
    ns_path: Seq<char>,
    paths: Seq<Seq<char>>,
    calls: Seq<crate::exec::CallView>,
    m: int,
) -> bool
    decreases m,
{
    if m <= 0 {
        calls.len() == 0
    } else {
        let done = checked_total(nets, m - 1);
        let seg = calls.skip(done);
        let n = nets[m - 1].config@.plugins.len();
        &&& calls.len() == checked_total(nets, m)
        &&& check_segments(nets, id, ns_path, paths, calls.take(done), m - 1)
        &&& (nets[m - 1].config@.disable_check ==> seg.len() == 0)
        &&& (!nets[m - 1].config@.disable_check ==> seg.len() == n && (forall|j: int|
            0 <= j < seg.len() ==> crate::api::bare_call_shape(
                #[trigger] seg[j],
                nets[m - 1].config@,
                fresh_rt(id, ns_path, nets[m - 1].ifname@),
                paths,
                j,
                "CHECK"@,
            ) && crate::exec::interpret_spec(seg[j].output) is Output))
    }
}

pub proof fn lemma_check_segments_len(
    nets: Seq<Network>,
    id: Seq<char>,
    ns_path: Seq<char>,
    paths: Seq<Seq<char>>,
    calls: Seq<crate::exec::CallView>,
    m: int,
)
    requires
        m >= 0,
        check_segments(nets, id, ns_path, paths, calls, m),
    ensures
        calls.len() == checked_total(nets, m),
{
    reveal(check_segments);
}

pub proof fn lemma_check_segments_empty(
    nets: Seq<Network>,
    id: Seq<char>,
    ns_path: Seq<char>,
    paths: Seq<Seq<char>>,
    calls: Seq<crate::exec::CallView>,
)
    requires
        calls.len() == 0,
    ensures
        check_segments(nets, id, ns_path, paths, calls, 0),
{
    reveal(check_segments);
}

/// Appending one binding's complete healthy CHECK trace (or nothing, for a
/// disabled chain) extends the segments by one binding.
#[verifier::rlimit(100)]
#[verifier::spinoff_prover]
pub proof fn lemma_check_segments_extend(
    nets: Seq<Network>,
    id: Seq<char>,
    ns_path: Seq<char>,
    paths: Seq<Seq<char>>,
    calls1: Seq<crate::exec::CallView>,
    calls2: Seq<crate::exec::CallView>,
    m: int,
)
    requires
        check_segments(nets, id, ns_path, paths, calls1, m),
        0 <= m < nets.len(),
        nets[m].config@.disable_check ==> calls2 == calls1,
        !nets[m].config@.disable_check ==> calls2.len() == calls1.len()
            + nets[m].config@.plugins.len() && (forall|t: int|
            0 <= t < calls1.len() ==> calls2[t] == #[trigger] calls1[t]) && (forall|j: int|
            0 <= j < nets[m].config@.plugins.len() ==> crate::api::bare_call_shape(
                #[trigger] calls2[calls1.len() + j],
                nets[m].config@,
                fresh_rt(id, ns_path, nets[m].ifname@),
                paths,
                j,
                "CHECK"@,
            ) && crate::exec::interpret_spec(calls2[calls1.len() + j].output) is Output),
    ensures
        check_segments(nets, id, ns_path, paths, calls2, m + 1),
{
    reveal(check_segments);
    if m > 0 {
        lemma_checked_total_bounds(nets, m - 1, m);
    }
    lemma_check_segments_len(nets, id, ns_path, paths, calls1, m);
    if nets[m].config@.disable_check {
        assert(calls2.take(checked_total(nets, m)) =~= calls1);
        assert(calls2.skip(checked_total(nets, m)) =~= Seq::<crate::exec::CallView>::empty());
    } else {
        assert(calls2.take(checked_total(nets, m)) =~= calls1);
        let seg = calls2.skip(checked_total(nets, m));
        assert forall|j: int| 0 <= j < seg.len() implies crate::api::bare_call_shape(
            #[trigger] seg[j],
            nets[m].config@,
            fresh_rt(id, ns_path, nets[m].ifname@),
            paths,
            j,
            "CHECK"@,
        ) && crate::exec::interpret_spec(seg[j].output) is Output by {
            assert(seg[j] == calls2[calls1.len() + j]);
        }
    }
}

/// A check run aborted at binding `m`: the bindings before it were checked
/// healthy in full, and the returned failure is one collected for binding
/// `m`, grounded in a recorded outcome or an unresolvable plugin type.
#[verifier::opaque]
pub open spec fn check_aborted(
    nets: Seq<Network>,
    id: Seq<char>,
    ns_path: Seq<char>,
    paths: Seq<Seq<char>>,
    added: Seq<crate::exec::CallView>,
    e: CniError,
    m: int,
) -> bool {
    let done = checked_total(nets, m);
    let rem = added.skip(done);
    &&& 0 <= m < nets.len()
    &&& 0 <= done <= added.len()
    &&& check_segments(nets, id, ns_path, paths, added.take(done), m)
    &&& crate::api::failure_tied(e, nets[m].config@, rem)
    &&& !(e is NotInitialized)
}

impl<E: Exec> Libcni<E> {
    /// A registry over the given executor, with the default directories,
    /// the interface-name prefix and a minimum of one binding.
    pub fn new(executor: E) -> (r: Libcni<E>)
        ensures
            r.networks@.len() == 0,
            r.network_count == 1,
            r.config.prefix@ == "vethcni"@,
            r.config.plugin_conf_dir@ == "/etc/cni/net.d"@,
            r.config.plugin_dirs@.len() == 1 && r.config.plugin_dirs@[0]@ == "/opt/cni/bin"@,
            r.cni.path@.len() == 1 && r.cni.path@[0]@ == "/opt/cni/bin"@,
            wf_libcni(r),
            r.cni.executor == executor,
    {
        let mut plugin_dirs: Vec<String> = Vec::new();
        plugin_dirs.push(String::from_str("/opt/cni/bin"));
        let mut path: Vec<String> = Vec::new();
        path.push(String::from_str("/opt/cni/bin"));
        Libcni {
            config: Config {
                plugin_dirs,
                plugin_conf_dir: String::from_str("/etc/cni/net.d"),
                plugin_max_conf_num: 1,
                prefix: String::from_str("vethcni"),
            },
            cni: CNIConfig { path, executor, cache_dir: String::new() },
            network_count: 1,
            networks: Vec::new(),
        }
    }

    /// Fails exactly when the registry holds fewer bindings than the
    /// configured minimum; performs no outside interaction.
    pub fn status(&self) -> (r: Result<(), CniError>)
        ensures
            r is Ok <==> status_ok(*self),
            r is Err ==> r matches Result::Err(CniError::NotInitialized),
    {
        if self.networks.len() < self.network_count {
            Result::Err(CniError::NotInitialized)
        } else {
            Result::Ok(())
        }
    }

    /// The ordered bindings.
    pub fn networks(&self) -> (r: &Vec<Network>)
        ensures
            r == self.networks,
    {
        &self.networks
    }

    /// The registry-level configuration.
    pub fn getconfig(&self) -> (r: &Config)
        ensures
            r == self.config,
    {
        &self.config
    }

    /// Appends the built-in loopback binding: a single-plugin chain of type
    /// `loopback`, bound to the interface name `lo`.  Each call appends one
    /// more binding; nothing deduplicates.
    pub fn add_lo_network(&mut self) -> (r: Result<(), CniError>)
        requires
            wf_libcni(*old(self)),
        ensures
            r is Ok,
            final(self).networks@.len() == old(self).networks@.len() + 1,
            forall|t: int|
                0 <= t < old(self).networks@.len() ==> (#[trigger] final(self).networks@[t])
                    == old(self).networks@[t],
            ({
                let b = final(self).networks@.last();
                &&& b.ifname@ == "lo"@
                &&& b.config@.name == lo_name_bytes()
                &&& b.config@.cni_version == lo_version_bytes()
                &&& b.config@.plugins.len() == 1
                &&& b.config@.plugins[0].plugin_type == lo_type_bytes()
            }),
            wf_libcni(*final(self)),
            final(self).network_count == old(self).network_count,
            final(self).cni.executor == old(self).cni.executor,
    {
        let mut lo_type: Vec<u8> = Vec::new();
        lo_type.push(0x6c);
        lo_type.push(0x6f);
        lo_type.push(0x6f);
        lo_type.push(0x70);
        lo_type.push(0x62);
        lo_type.push(0x61);
        lo_type.push(0x63);
        lo_type.push(0x6b);
        proof {
            assert(lo_type@ =~= lo_type_bytes());
        }
        let mut lo_name: Vec<u8> = Vec::new();
        lo_name.push(0x63);
        lo_name.push(0x6e);
        lo_name.push(0x69);
        lo_name.push(0x2d);
        lo_name.push(0x6c);
        lo_name.push(0x6f);
        lo_name.push(0x6f);
        lo_name.push(0x70);
        lo_name.push(0x62);
        lo_name.push(0x61);
        lo_name.push(0x63);
        lo_name.push(0x6b);
        proof {
            assert(lo_name@ =~= lo_name_bytes());
        }
        let mut lo_version: Vec<u8> = Vec::new();
        lo_version.push(0x30);
        lo_version.push(0x2e);
        lo_version.push(0x33);
        lo_version.push(0x2e);
        lo_version.push(0x31);
        proof {
            assert(lo_version@ =~= lo_version_bytes());
        }
        let mut members: Vec<(Vec<u8>, JsonValue)> = Vec::new();
        members.push((type_key_vec(), JsonValue::Str(clone_bytes(&lo_type))));
        let value = JsonValue::Obj(members);
        let bytes = crate::json::to_bytes(&value);
        proof {
            crate::json::lemma_jmembers_of(value->Obj_0@, 0);
            assert(jval_of(value)->Obj_0 =~= seq![(type_key(), JVal::Str(lo_type_bytes()))]);
            assert(crate::json::obj_get(jval_of(value)->Obj_0, type_key()) == Option::Some(
                JVal::Str(lo_type_bytes()),
            ));
            reveal_with_fuel(crate::json::wf_str_content, 16);
            assert(crate::json::wf_str_content(type_key()));
            assert(crate::json::wf_str_content(lo_type_bytes()));
            assert(crate::json::wf_member((type_key(), JVal::Str(lo_type_bytes()))));
            assert(crate::json::wf_jval(jval_of(value)));
        }
        let plugin = NetworkConfig {
            plugin_type: lo_type,
            bytes,
            value: Ghost(jval_of(value)),
        };
        proof {
            assert(wf_plugin(plugin@));
        }
        let mut plugins: Vec<NetworkConfig> = Vec::new();
        plugins.push(plugin);
        proof {
            crate::conf::lemma_pviews_of(plugins@, 0);
        }
        let chain = NetworkConfigList {
            name: lo_name,
            cni_version: lo_version,
            disable_check: false,
            plugins,
            bytes: Vec::new(),
        };
        proof {
            assert(wf_chain(chain@));
        }
        let ghost pre = self.networks@;
        self.networks.push(Network { config: chain, ifname: String::from_str("lo") });
        proof {
            assert forall|i: int| 0 <= i < self.networks@.len() implies wf_network(
                #[trigger] self.networks@[i],
            ) by {
                if i < pre.len() {
                    assert(self.networks@[i] == pre[i]);
                }
            }
        }
        Result::Ok(())
    }

    /// Replaces the bindings wholesale with the chains parsed from the
    /// given documents, each bound to the prefix plus its one-based
    /// position.  The first rejected document aborts the load, leaving the
    /// registry as it was.
    #[verifier::loop_isolation(false)]
    pub fn load(&mut self, docs: &Vec<Vec<u8>>) -> (r: Result<(), CniError>)
        requires
            docs@.len() < 0xffffffff,
        ensures
            final(self).network_count == old(self).network_count,
            final(self).config == old(self).config,
            final(self).cni.executor == old(self).cni.executor,
            final(self).cni.path@ == old(self).cni.path@,
            match r {
                Result::Ok(u) => {
                    &&& final(self).networks@.len() == docs@.len()
                    &&& (forall|i: int|
                        0 <= i < docs@.len() ==> crate::conf::chain_of_doc(
                            (#[trigger] docs@[i])@,
                        ) == Option::Some(final(self).networks@[i].config@)
                            && final(self).networks@[i].ifname@ == old(self).config.prefix@
                            + dec_chars((i + 1) as nat))
                    &&& wf_libcni(*final(self))
                },
                Result::Err(e) => {
                    &&& final(self).networks@ == old(self).networks@
                    &&& e is Config
                    &&& exists|i: int|
                        0 <= i < docs@.len() && crate::conf::chain_of_doc(
                            (#[trigger] docs@[i])@,
                        ) is None
                },
            },
    {
        let mut nets: Vec<Network> = Vec::new();
        let mut k: usize = 0;
        while k < docs.len()
            invariant
                k <= docs@.len(),
                nets@.len() == k,
                forall|i: int|
                    0 <= i < k ==> crate::conf::chain_of_doc((#[trigger] docs@[i])@)
                        == Option::Some(nets@[i].config@) && nets@[i].ifname@
                        == old(self).config.prefix@ + dec_chars((i + 1) as nat)
                        && wf_network(nets@[i]),
                self.config == old(self).config,
                self.networks@ == old(self).networks@,
                self.network_count == old(self).network_count,
                self.cni.executor == old(self).cni.executor,
                self.cni.path@ == old(self).cni.path@,
            decreases docs@.len() - k,
        {
            match ConfigFile::config_from_bytes(&docs[k]) {
                Result::Ok(c) => {
                    let mut name = self.config.prefix.clone();
                    push_dec((k as u64) + 1, &mut name);
                    let ghost pre = nets@;
                    nets.push(Network { config: c, ifname: name });
                    proof {
                        assert forall|i: int| 0 <= i < k + 1 implies crate::conf::chain_of_doc(
                            (#[trigger] docs@[i])@,
                        ) == Option::Some(nets@[i].config@) && nets@[i].ifname@
                            == old(self).config.prefix@ + dec_chars((i + 1) as nat)
                            && wf_network(nets@[i]) by {
                            if i < k {
                                assert(nets@[i] == pre[i]);
                            }
                        }
                    }
                },
                Result::Err(e) => {
                    return Result::Err(e);
                },
            }
            k = k + 1;
        }
        let ghost built = nets@;
        self.networks = nets;
        proof {
            assert forall|i: int| 0 <= i < self.networks@.len() implies wf_network(
                #[trigger] self.networks@[i],
            ) by {
                assert(crate::conf::chain_of_doc((docs@[i])@) == Option::Some(
                    built[i].config@,
                ));
            }
        }
        Result::Ok(())
    }

    /// Discovers chain documents among the given directory entries — each a
    /// file name and its bytes — keeping the composite-chain files (name
    /// suffix `.conflist`) in listing order, and replaces the bindings
    /// wholesale with the parsed chains, bound to the prefix plus their
    /// one-based position.  The result is a function of the listing and the
    /// configured prefix alone: equal listings load equal registries.  The
    /// first rejected document aborts the load, leaving the registry as it
    /// was.
    #[verifier::loop_isolation(false)]
    pub fn load_default_conf(&mut self, files: &Vec<(String, Vec<u8>)>) -> (r: Result<
        (),
        CniError,
    >)
        requires
            files@.len() < 0xffffffff,
        ensures
            final(self).network_count == old(self).network_count,
            final(self).config == old(self).config,
            final(self).cni.executor == old(self).cni.executor,
            final(self).cni.path@ == old(self).cni.path@,
            ({
                let kept = conflist_docs(files@, 0);
                match r {
                    Result::Ok(u) => {
                        &&& final(self).networks@.len() == kept.len()
                        &&& (forall|i: int|
                            0 <= i < kept.len() ==> crate::conf::chain_of_doc(#[trigger] kept[i])
                                == Option::Some(final(self).networks@[i].config@)
                                && final(self).networks@[i].ifname@ == old(self).config.prefix@
                                + dec_chars((i + 1) as nat))
                        &&& wf_libcni(*final(self))
                    },
                    Result::Err(e) => {
                        &&& final(self).networks@ == old(self).networks@
                        &&& e is Config
                        &&& exists|i: int|
                            0 <= i < kept.len() && crate::conf::chain_of_doc(
                                #[trigger] kept[i],
                            ) is None
                    },
                }
            }),
    {
        let ghost kept = conflist_docs(files@, 0);
        let mut docs: Vec<Vec<u8>> = Vec::new();
        let mut k: usize = 0;
        while k < files.len()
            invariant
                k <= files@.len(),
                docs@.len() <= k,
                byte_views(docs@, 0) + conflist_docs(files@, k as int) == kept,
                self.networks@ == old(self).networks@,
                self.network_count == old(self).network_count,
                self.config == old(self).config,
                self.cni.executor == old(self).cni.executor,
                self.cni.path@ == old(self).cni.path@,
            decreases files@.len() - k,
        {
            proof {
                lemma_byte_views(docs@, 0);
            }
            if has_conflist_suffix(&files[k].0) {
                let ghost pre_docs = docs@;
                docs.push(clone_bytes(&files[k].1));
                proof {
                    lemma_byte_views(docs@, 0);
                    assert forall|t: int| 0 <= t < docs@.len() implies byte_views(docs@, 0)[t]
                        == byte_views(pre_docs, 0).push(files@[k as int].1@)[t] by {
                        assert(byte_views(docs@, 0)[t] == (#[trigger] docs@[t])@);
                        if t < pre_docs.len() {
                            assert(docs@[t] == pre_docs[t]);
                            assert(byte_views(pre_docs, 0)[t] == pre_docs[t]@);
                        }
                    }
                    assert(byte_views(docs@, 0) =~= byte_views(pre_docs, 0).push(
                        files@[k as int].1@,
                    ));
                    assert(conflist_docs(files@, k as int) == seq![files@[k as int].1@]
                        + conflist_docs(files@, k as int + 1));
                    assert(byte_views(pre_docs, 0).push(files@[k as int].1@) + conflist_docs(
                        files@,
                        k as int + 1,
                    ) =~= byte_views(pre_docs, 0) + conflist_docs(files@, k as int));
                }
            }
            k = k + 1;
        }
        proof {
            lemma_byte_views(docs@, 0);
            assert(conflist_docs(files@, files@.len() as int) =~= Seq::<Seq<u8>>::empty());
            assert(byte_views(docs@, 0) =~= kept);
        }
        let r = self.load(&docs);
        proof {
            lemma_byte_views(docs@, 0);
            assert(kept.len() == docs@.len());
            match &r {
                Result::Ok(u) => {
                    assert forall|i: int| 0 <= i < kept.len() implies crate::conf::chain_of_doc(
                        #[trigger] kept[i],
                    ) == Option::Some(self.networks@[i].config@) && self.networks@[i].ifname@
                        == old(self).config.prefix@ + dec_chars((i + 1) as nat) by {
                        assert(kept[i] == byte_views(docs@, 0)[i]);
                        assert(byte_views(docs@, 0)[i] == (docs@[i])@);
                    }
                },
                Result::Err(e) => {
                    let i0 = choose|i: int|
                        0 <= i < docs@.len() && crate::conf::chain_of_doc(
                            (#[trigger] docs@[i])@,
                        ) is None;
                    assert(kept[i0] == (docs@[i0])@);
                    assert(crate::conf::chain_of_doc(kept[i0]) is None);
                },
            }
        }
        r
    }

    /// Status check, then ADD for every binding in registry order, each
    /// under runtime parameters built from the container id, the namespace
    /// path and that binding's interface name; the first failure
    /// short-circuits the remaining bindings, with no rollback of chains
    /// already attached.  When uninitialized, no delegate is invoked.
    #[verifier::loop_isolation(false)]
    #[verifier::rlimit(100)]
    #[verifier::spinoff_prover]
    pub fn setup(&mut self, id: String, path: String) -> (r: Result<(), CniError>)
        requires
            wf_libcni(*old(self)),
        ensures
            final(self).networks@ == old(self).networks@,
            final(self).network_count == old(self).network_count,
            final(self).config == old(self).config,
            final(self).cni.path@ == old(self).cni.path@,
            final(self).cni.cache_dir@ == old(self).cni.cache_dir@,
            wf_libcni(*final(self)),
            !status_ok(*old(self)) ==> r matches Result::Err(CniError::NotInitialized),
            r matches Result::Err(CniError::NotInitialized) ==> !status_ok(*old(self)),
            ({
                let pre = old(self).cni.executor.calls();
                let post = final(self).cni.executor.calls();
                let paths = crate::exec::str_views(old(self).cni.path@, 0);
                let nets = old(self).networks@;
                let added = post.skip(pre.len() as int);
                &&& post.len() >= pre.len()
                &&& (forall|t: int| 0 <= t < pre.len() ==> post[t] == #[trigger] pre[t])
                &&& (!status_ok(*old(self)) ==> post.len() == pre.len())
                &&& (status_ok(*old(self)) && r is Ok ==> setup_segments(
                    nets,
                    id@,
                    path@,
                    paths,
                    added,
                    nets.len() as int,
                ))
                &&& (status_ok(*old(self)) ==> (r matches Result::Err(e) ==> exists|m: int|
                    #[trigger] setup_aborted(nets, id@, path@, paths, added, e, m)))
            }),
    {
        let ghost pre = self.cni.executor.calls();
        let ghost paths = crate::exec::str_views(old(self).cni.path@, 0);
        let ghost nets = old(self).networks@;
        if self.networks.len() < self.network_count {
            return Result::Err(CniError::NotInitialized);
        }
        let namespace = Namespace::new(id, path);
        let mut k: usize = 0;
        proof {
            assert(self.cni.executor.calls().skip(pre.len() as int)
                =~= Seq::<crate::exec::CallView>::empty());
            lemma_setup_segments_empty(
                nets,
                id@,
                path@,
                paths,
                self.cni.executor.calls().skip(pre.len() as int),
            );
        }
        while k < self.networks.len()
            invariant
                k <= self.networks@.len(),
                self.networks@ == old(self).networks@,
                self.network_count == old(self).network_count,
                self.config == old(self).config,
                self.cni.path@ == old(self).cni.path@,
                self.cni.cache_dir@ == old(self).cni.cache_dir@,
                namespace.id@ == id@,
                namespace.path@ == path@,
                namespace.args@.len() == 0,
                namespace.capability_args@.len() == 0,
                self.cni.executor.calls().len() >= pre.len(),
                forall|t: int|
                    0 <= t < pre.len() ==> self.cni.executor.calls()[t] == #[trigger] pre[t],
                setup_segments(
                    nets,
                    id@,
                    path@,
                    paths,
                    self.cni.executor.calls().skip(pre.len() as int),
                    k as int,
                ),
            decreases self.networks@.len() - k,
        {
            let rt = namespace.config(self.networks[k].ifname.clone());
            proof {
                assert(wf_network(self.networks@[k as int]));
                assert(crate::exec::pair_views(namespace.args@, 0)
                    =~= Seq::<(Seq<char>, Seq<char>)>::empty());
                assert(crate::exec::pair_views(namespace.capability_args@, 0)
                    =~= Seq::<(Seq<char>, Seq<char>)>::empty());
                assert(rt@ == fresh_rt(id@, path@, nets[k as int].ifname@));
            }
            let ghost mid = self.cni.executor.calls();
            match self.cni.add_network_list(&self.networks[k].config, &rt) {
                Result::Ok(u) => {
                    proof {
                        let calls1 = mid.skip(pre.len() as int);
                        let calls2 = self.cni.executor.calls().skip(pre.len() as int);
                        assert forall|t: int| 0 <= t < calls1.len() implies calls2[t]
                            == #[trigger] calls1[t] by {
                            assert(calls2[t] == self.cni.executor.calls()[pre.len() + t]);
                            assert(calls1[t] == mid[pre.len() + t]);
                        }
                        assert(calls2.subrange(calls1.len() as int, calls2.len() as int)
                            =~= self.cni.executor.calls().skip(mid.len() as int));
                        assert(calls2.last() == self.cni.executor.calls().last());
                        lemma_setup_segments_extend(
                            nets,
                            id@,
                            path@,
                            paths,
                            calls1,
                            calls2,
                            k as int,
                        );
                    }
                },
                Result::Err(e) => {
                    proof {
                        let calls1 = mid.skip(pre.len() as int);
                        let added = self.cni.executor.calls().skip(pre.len() as int);
                        lemma_setup_segments_len(nets, id@, path@, paths, calls1, k as int);
                        assert(calls1.len() == plugins_total(nets, k as int));
                        assert forall|t: int| 0 <= t < calls1.len() implies added[t]
                            == #[trigger] calls1[t] by {
                            assert(added[t] == self.cni.executor.calls()[pre.len() + t]);
                            assert(calls1[t] == mid[pre.len() + t]);
                        }
                        assert(added.take(plugins_total(nets, k as int)) =~= calls1);
                        assert(added.skip(plugins_total(nets, k as int))
                            =~= self.cni.executor.calls().skip(mid.len() as int));
                        if self.cni.executor.calls().len() > mid.len() {
                            assert(added.skip(plugins_total(nets, k as int)).last()
                                == self.cni.executor.calls().last());
                        }
                        assert(setup_aborted(nets, id@, path@, paths, added, e, k as int)) by {
                            reveal(setup_aborted);
                        }
                    }
                    return Result::Err(e);
                },
            }
            k = k + 1;
        }
        Result::Ok(())
    }

    /// Status check, then DEL for every binding in registry order (the
    /// same forward order as ADD), each under runtime parameters built from
    /// the container id, the namespace path and that binding's interface
    /// name; the teardown aborts on the first binding error and propagates
    /// it.  When uninitialized, no delegate is invoked.
    #[verifier::loop_isolation(false)]
    #[verifier::rlimit(100)]
    #[verifier::spinoff_prover]
    pub fn remove(&mut self, id: String, path: String) -> (r: Result<(), CniError>)
        requires
            wf_libcni(*old(self)),
        ensures
            final(self).networks@ == old(self).networks@,
            final(self).network_count == old(self).network_count,
            final(self).config == old(self).config,
            final(self).cni.path@ == old(self).cni.path@,
            final(self).cni.cache_dir@ == old(self).cni.cache_dir@,
            wf_libcni(*final(self)),
            !status_ok(*old(self)) ==> r matches Result::Err(CniError::NotInitialized),
            r matches Result::Err(CniError::NotInitialized) ==> !status_ok(*old(self)),
            ({
                let pre = old(self).cni.executor.calls();
                let post = final(self).cni.executor.calls();
                let paths = crate::exec::str_views(old(self).cni.path@, 0);
                let nets = old(self).networks@;
                let added = post.skip(pre.len() as int);
                &&& post.len() >= pre.len()
                &&& (forall|t: int| 0 <= t < pre.len() ==> post[t] == #[trigger] pre[t])
                &&& (!status_ok(*old(self)) ==> post.len() == pre.len())
                &&& (status_ok(*old(self)) && r is Ok ==> remove_segments(
                    nets,
                    id@,
                    path@,
                    paths,
                    added,
                    nets.len() as int,
                ))
                &&& (status_ok(*old(self)) ==> (r matches Result::Err(e) ==> exists|m: int|
                    #[trigger] remove_aborted(nets, id@, path@, paths, added, e, m)))
            }),
    {
        let ghost pre = self.cni.executor.calls();
        let ghost paths = crate::exec::str_views(old(self).cni.path@, 0);
        let ghost nets = old(self).networks@;
        if self.networks.len() < self.network_count {
            return Result::Err(CniError::NotInitialized);
        }
        let namespace = Namespace::new(id, path);
        let mut k: usize = 0;
        proof {
            assert(self.cni.executor.calls().skip(pre.len() as int)
                =~= Seq::<crate::exec::CallView>::empty());
            lemma_remove_segments_empty(
                nets,
                id@,
                path@,
                paths,
                self.cni.executor.calls().skip(pre.len() as int),
            );
        }
        while k < self.networks.len()
            invariant
                k <= self.networks@.len(),
                self.networks@ == old(self).networks@,
                self.network_count == old(self).network_count,
                self.config == old(self).config,
                self.cni.path@ == old(self).cni.path@,
                self.cni.cache_dir@ == old(self).cni.cache_dir@,
                namespace.id@ == id@,
                namespace.path@ == path@,
                namespace.args@.len() == 0,
                namespace.capability_args@.len() == 0,
                self.cni.executor.calls().len() >= pre.len(),
                forall|t: int|
                    0 <= t < pre.len() ==> self.cni.executor.calls()[t] == #[trigger] pre[t],
                remove_segments(
                    nets,
                    id@,
                    path@,
                    paths,
                    self.cni.executor.calls().skip(pre.len() as int),
                    k as int,
                ),
            decreases self.networks@.len() - k,
        {
            let rt = namespace.config(self.networks[k].ifname.clone());
            proof {
                assert(wf_network(self.networks@[k as int]));
                assert(crate::exec::pair_views(namespace.args@, 0)
                    =~= Seq::<(Seq<char>, Seq<char>)>::empty());
                assert(crate::exec::pair_views(namespace.capability_args@, 0)
                    =~= Seq::<(Seq<char>, Seq<char>)>::empty());
                assert(rt@ == fresh_rt(id@, path@, nets[k as int].ifname@));
            }
            let ghost mid = self.cni.executor.calls();
            match self.cni.delete_network_list(&self.networks[k].config, &rt) {
                Result::Ok(u) => {
                    proof {
                        let calls1 = mid.skip(pre.len() as int);
                        let calls2 = self.cni.executor.calls().skip(pre.len() as int);
                        assert forall|t: int| 0 <= t < calls1.len() implies calls2[t]
                            == #[trigger] calls1[t] by {
                            assert(calls2[t] == self.cni.executor.calls()[pre.len() + t]);
                            assert(calls1[t] == mid[pre.len() + t]);
                        }
                        assert(calls2.subrange(calls1.len() as int, calls2.len() as int)
                            =~= self.cni.executor.calls().skip(mid.len() as int));
                        assert forall|q: int| calls1.len() <= q < calls2.len() implies
                            crate::exec::interpret_spec(
                            (#[trigger] calls2[q]).output,
                        ) is Output by {
                            assert(calls2[q] == self.cni.executor.calls().skip(
                                mid.len() as int,
                            )[q - calls1.len()]);
                        }
                        lemma_remove_segments_extend(
                            nets,
                            id@,
                            path@,
                            paths,
                            calls1,
                            calls2,
                            k as int,
                        );
                    }
                },
                Result::Err(e) => {
                    proof {
                        let calls1 = mid.skip(pre.len() as int);
                        let added = self.cni.executor.calls().skip(pre.len() as int);
                        lemma_remove_segments_len(nets, id@, path@, paths, calls1, k as int);
                        assert forall|t: int| 0 <= t < calls1.len() implies added[t]
                            == #[trigger] calls1[t] by {
                            assert(added[t] == self.cni.executor.calls()[pre.len() + t]);
                            assert(calls1[t] == mid[pre.len() + t]);
                        }
                        assert(added.take(plugins_total(nets, k as int)) =~= calls1);
                        assert(added.skip(plugins_total(nets, k as int))
                            =~= self.cni.executor.calls().skip(mid.len() as int));
                        if self.cni.executor.calls().len() > mid.len() {
                            assert(added.skip(plugins_total(nets, k as int)).last()
                                == self.cni.executor.calls().last());
                        }
                        assert forall|q: int|
                            0 <= q < added.skip(plugins_total(nets, k as int)).len() - 1 implies
                            crate::exec::interpret_spec(
                            (#[trigger] added.skip(plugins_total(nets, k as int))[q]).output,
                        ) is Output by {
                            assert(added.skip(plugins_total(nets, k as int))[q]
                                == self.cni.executor.calls().skip(mid.len() as int)[q]);
                        }
                        assert(remove_aborted(nets, id@, path@, paths, added, e, k as int)) by {
                            reveal(remove_aborted);
                        }
                    }
                    return Result::Err(e);
                },
            }
            k = k + 1;
        }
        Result::Ok(())
    }

    /// Status check, then CHECK for every binding in registry order, each
    /// under runtime parameters built from the container id, the namespace
    /// path and that binding's interface name; the first binding with
    /// collected failures aborts, and the last of its failures propagates.
    /// When uninitialized, no delegate is invoked.
    #[verifier::loop_isolation(false)]
    #[verifier::rlimit(100)]
    #[verifier::spinoff_prover]
    pub fn check(&mut self, id: String, path: String) -> (r: Result<(), CniError>)
        requires
            wf_libcni(*old(self)),
        ensures
            final(self).networks@ == old(self).networks@,
            final(self).network_count == old(self).network_count,
            final(self).config == old(self).config,
            final(self).cni.path@ == old(self).cni.path@,
            final(self).cni.cache_dir@ == old(self).cni.cache_dir@,
            wf_libcni(*final(self)),
            !status_ok(*old(self)) ==> r matches Result::Err(CniError::NotInitialized),
            r matches Result::Err(CniError::NotInitialized) ==> !status_ok(*old(self)),
            ({
                let pre = old(self).cni.executor.calls();
                let post = final(self).cni.executor.calls();
                let paths = crate::exec::str_views(old(self).cni.path@, 0);
                let nets = old(self).networks@;
                let added = post.skip(pre.len() as int);
                &&& post.len() >= pre.len()
                &&& (forall|t: int| 0 <= t < pre.len() ==> post[t] == #[trigger] pre[t])
                &&& (!status_ok(*old(self)) ==> post.len() == pre.len())
                &&& (status_ok(*old(self)) && r is Ok ==> check_segments(
                    nets,
                    id@,
                    path@,
                    paths,
                    added,
                    nets.len() as int,
                ))
                &&& (status_ok(*old(self)) ==> (r matches Result::Err(e) ==> exists|m: int|
                    #[trigger] check_aborted(nets, id@, path@, paths, added, e, m)))
            }),
    {
        let ghost pre = self.cni.executor.calls();
        let ghost paths = crate::exec::str_views(old(self).cni.path@, 0);
        let ghost nets = old(self).networks@;
        if self.networks.len() < self.network_count {
            return Result::Err(CniError::NotInitialized);
        }
        let namespace = Namespace::new(id, path);
        let mut k: usize = 0;
        proof {
            assert(self.cni.executor.calls().skip(pre.len() as int)
                =~= Seq::<crate::exec::CallView>::empty());
            lemma_check_segments_empty(
                nets,
                id@,
                path@,
                paths,
                self.cni.executor.calls().skip(pre.len() as int),
            );
        }
        while k < self.networks.len()
            invariant
                k <= self.networks@.len(),
                self.networks@ == old(self).networks@,
                self.network_count == old(self).network_count,
                self.config == old(self).config,
                self.cni.path@ == old(self).cni.path@,
                self.cni.cache_dir@ == old(self).cni.cache_dir@,
                namespace.id@ == id@,
                namespace.path@ == path@,
                namespace.args@.len() == 0,
                namespace.capability_args@.len() == 0,
                self.cni.executor.calls().len() >= pre.len(),
                forall|t: int|
                    0 <= t < pre.len() ==> self.cni.executor.calls()[t] == #[trigger] pre[t],
                check_segments(
                    nets,
                    id@,
                    path@,
                    paths,
                    self.cni.executor.calls().skip(pre.len() as int),
                    k as int,
                ),
            decreases self.networks@.len() - k,
        {
            let rt = namespace.config(self.networks[k].ifname.clone());
            proof {
                assert(wf_network(self.networks@[k as int]));
                assert(crate::exec::pair_views(namespace.args@, 0)
                    =~= Seq::<(Seq<char>, Seq<char>)>::empty());
                assert(crate::exec::pair_views(namespace.capability_args@, 0)
                    =~= Seq::<(Seq<char>, Seq<char>)>::empty());
                assert(rt@ == fresh_rt(id@, path@, nets[k as int].ifname@));
            }
            let ghost mid = self.cni.executor.calls();
            let mut failures = self.cni.check_network_list(&self.networks[k].config, &rt);
            if failures.len() > 0 {
                match failures.pop() {
                    Option::Some(e) => {
                        proof {
                            let calls1 = mid.skip(pre.len() as int);
                            let added = self.cni.executor.calls().skip(pre.len() as int);
                            lemma_check_segments_len(nets, id@, path@, paths, calls1, k as int);
                            assert forall|t: int| 0 <= t < calls1.len() implies added[t]
                                == #[trigger] calls1[t] by {
                                assert(added[t] == self.cni.executor.calls()[pre.len() + t]);
                                assert(calls1[t] == mid[pre.len() + t]);
                            }
                            assert(added.take(checked_total(nets, k as int)) =~= calls1);
                            assert(added.skip(checked_total(nets, k as int))
                                =~= self.cni.executor.calls().skip(mid.len() as int));
                            assert(check_aborted(nets, id@, path@, paths, added, e, k as int))
                                by {
                                reveal(check_aborted);
                            }
                        }
                        return Result::Err(e);
                    },
                    Option::None => {},
                }
            }
            proof {
                let calls1 = mid.skip(pre.len() as int);
                let calls2 = self.cni.executor.calls().skip(pre.len() as int);
                lemma_check_segments_len(nets, id@, path@, paths, calls1, k as int);
                if nets[k as int].config@.disable_check {
                    assert(calls2 =~= calls1);
                } else {
                    assert forall|t: int| 0 <= t < calls1.len() implies calls2[t]
                        == #[trigger] calls1[t] by {
                        assert(calls2[t] == self.cni.executor.calls()[pre.len() + t]);
                        assert(calls1[t] == mid[pre.len() + t]);
                    }
                    assert forall|j: int| 0 <= j < nets[k as int].config@.plugins.len() implies
                        crate::api::bare_call_shape(
                        #[trigger] calls2[calls1.len() + j],
                        nets[k as int].config@,
                        fresh_rt(id@, path@, nets[k as int].ifname@),
                        paths,
                        j,
                        "CHECK"@,
                    ) && crate::exec::interpret_spec(
                        calls2[calls1.len() + j].output,
                    ) is Output by {
                        assert(calls2[calls1.len() + j] == self.cni.executor.calls().skip(
                            mid.len() as int,
                        )[j]);
                    }
                }
                lemma_check_segments_extend(nets, id@, path@, paths, calls1, calls2, k as int);
            }
            k = k + 1;
        }
        Result::Ok(())
    }
}

/// The bytes of the composite-chain file suffix, `.conflist`.
pub open spec fn conflist_suffix() -> Seq<u8> {
    seq![0x2eu8, 0x63, 0x6f, 0x6e, 0x66, 0x6c, 0x69, 0x73, 0x74]
}

/// The file name, UTF-8 encoded, ends in `.conflist`.
pub open spec fn is_conflist_name(name: Seq<char>) -> bool {
    let b = vstd::utf8::encode_utf8(name);
    b.len() >= 9 && b.skip(b.len() - 9) == conflist_suffix()
}

/// The file name ends in `.conflist`.
fn has_conflist_suffix(name: &String) -> (r: bool)
    ensures
        r == is_conflist_name(name@),
{
    let bytes = crate::exec::string_to_bytes(name);
    if bytes.len() < 9 {
        return false;
    }
    let start = bytes.len() - 9;
    let suffix = crate::json::copy_range(&bytes, start, bytes.len());
    let mut expected: Vec<u8> = Vec::new();
    expected.push(0x2e);
    expected.push(0x63);
    expected.push(0x6f);
    expected.push(0x6e);
    expected.push(0x66);
    expected.push(0x6c);
    expected.push(0x69);
    expected.push(0x73);
    expected.push(0x74);
    proof {
        assert(expected@ =~= conflist_suffix());
        assert(bytes@.subrange(start as int, bytes@.len() as int) =~= bytes@.skip(
            bytes@.len() - 9,
        ));
    }
    crate::json::bytes_eq(&suffix, &expected)
}

} // verus!
