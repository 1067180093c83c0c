//! PluginExecutor support: the per-delegate environment, the interpretation
//! of delegate output, binary resolution, and the executor capability with
//! its in-memory test double.
//!
//! The six protocol variables are assembled as a local list of pairs and
//! handed to the executor together with the stdin bytes; an executor merges
//! them on top of the inherited process environment at the spawn call and
//! must never mutate the process-global environment.

use vstd::prelude::*;

use crate::errors::CniError;
use crate::json::{obj_get, JVal, JsonValue};
use crate::parse::spec_parse;

verus! {

/// View of a list of string pairs as a sequence of character-sequence pairs.
pub open spec fn pair_views(ps: Seq<(String, String)>, i: int) -> Seq<(Seq<char>, Seq<char>)>
    decreases ps.len() - i,
{
    if i < 0 || i >= ps.len() {
        Seq::empty()
    } else {
        seq![(ps[i].0@, ps[i].1@)] + pair_views(ps, i + 1)
    }
}

pub broadcast proof fn lemma_pair_views(ps: Seq<(String, String)>, i: int)
    requires
        0 <= i <= ps.len(),
    ensures
        (#[trigger] pair_views(ps, i)).len() == ps.len() - i,
        forall|k: int|
            i <= k < ps.len() ==> pair_views(ps, i)[k - i] == ((#[trigger] ps[k]).0@, ps[k].1@),
    decreases ps.len() - i,
{
    if i < ps.len() {
        lemma_pair_views(ps, i + 1);
    }
}

/// The serialised argument list: `key=value` pairs joined by `;`.
pub open spec fn join_args_spec(args: Seq<(Seq<char>, Seq<char>)>) -> Seq<char>
    decreases args.len(),
{
    if args.len() == 0 {
        Seq::empty()
    } else if args.len() == 1 {
        args[0].0 + seq!['='] + args[0].1
    } else {
        join_args_spec(args.drop_last()) + seq![';'] + args.last().0 + seq!['='] + args.last().1
    }
}

/// The search-path list joined by `:`.
pub open spec fn join_paths_spec(paths: Seq<Seq<char>>) -> Seq<char>
    decreases paths.len(),
{
    if paths.len() == 0 {
        Seq::empty()
    } else if paths.len() == 1 {
        paths[0]
    } else {
        join_paths_spec(paths.drop_last()) + seq![':'] + paths.last()
    }
}

/// View of a list of strings.
pub open spec fn str_views(ps: Seq<String>, i: int) -> Seq<Seq<char>>
    decreases ps.len() - i,
{
    if i < 0 || i >= ps.len() {
        Seq::empty()
    } else {
        seq![ps[i]@] + str_views(ps, i + 1)
    }
}

pub broadcast proof fn lemma_str_views(ps: Seq<String>, i: int)
    requires
        0 <= i <= ps.len(),
    ensures
        (#[trigger] str_views(ps, i)).len() == ps.len() - i,
        forall|k: int| i <= k < ps.len() ==> str_views(ps, i)[k - i] == (#[trigger] ps[k])@,
    decreases ps.len() - i,
{
    if i < ps.len() {
        lemma_str_views(ps, i + 1);
    }
}

/// Joins `key=value` pairs with `;`.
#[verifier::loop_isolation(false)]
pub fn join_args(args: &Vec<(String, String)>) -> (r: String)
    ensures
        r@ == join_args_spec(pair_views(args@, 0)),
{
    proof {
        lemma_pair_views(args@, 0);
        reveal_strlit(";");
        reveal_strlit("=");
    }
    let ghost views = pair_views(args@, 0);
    let mut out = String::new();
    let mut k: usize = 0;
    while k < args.len()
        invariant
            k <= args@.len(),
            out@ == join_args_spec(views.take(k as int)),
        decreases args@.len() - k,
    {
        if k > 0 {
            out.append(";");
        }
        out.append(args[k].0.as_str());
        out.append("=");
        out.append(args[k].1.as_str());
        proof {
            assert(views.take(k as int + 1).drop_last() =~= views.take(k as int));
            assert(views.take(k as int + 1).last() == (args@[k as int].0@, args@[k as int].1@));
            if k == 0 {
                assert(views.take(1).len() == 1);
                assert(out@ =~= join_args_spec(views.take(1)));
            } else {
                assert(out@ =~= join_args_spec(views.take(k as int + 1)));
            }
        }
        k = k + 1;
    }
    proof {
        assert(views.take(args@.len() as int) =~= views);
    }
    out
}

/// Joins the search paths with `:`.
#[verifier::loop_isolation(false)]
pub fn join_paths(paths: &Vec<String>) -> (r: String)
    ensures
        r@ == join_paths_spec(str_views(paths@, 0)),
{
    proof {
        lemma_str_views(paths@, 0);
        reveal_strlit(":");
    }
    let ghost views = str_views(paths@, 0);
    let mut out = String::new();
    let mut k: usize = 0;
    while k < paths.len()
        invariant
            k <= paths@.len(),
            out@ == join_paths_spec(views.take(k as int)),
        decreases paths@.len() - k,
    {
        if k > 0 {
            out.append(":");
        }
        out.append(paths[k].as_str());
        proof {
            assert(views.take(k as int + 1).drop_last() =~= views.take(k as int));
            assert(views.take(k as int + 1).last() == paths@[k as int]@);
            if k == 0 {
                assert(views.take(1).len() == 1);
                assert(out@ =~= join_paths_spec(views.take(1)));
            } else {
                assert(out@ =~= join_paths_spec(views.take(k as int + 1)));
            }
        }
        k = k + 1;
    }
    proof {
        assert(views.take(paths@.len() as int) =~= views);
    }
    out
}

/// The mathematical content of [`ExecArgs`].
pub ghost struct ArgsView {
    pub command: Seq<char>,
    pub containerd_id: Seq<char>,
    pub netns: Seq<char>,
    pub plugin_args: Seq<(Seq<char>, Seq<char>)>,
    pub ifname: Seq<char>,
    pub path: Seq<char>,
}

/// The inputs of one delegate invocation's environment: the command verb,
/// the per-call runtime values and the colon-joined search-path list.
pub struct ExecArgs {
    pub command: String,
    pub containerd_id: String,
    pub netns: String,
    pub plugin_args: Vec<(String, String)>,
    pub ifname: String,
    pub path: String,
}

impl View for ExecArgs {
    type V = ArgsView;

    open spec fn view(&self) -> ArgsView {
        ArgsView {
            command: self.command@,
            containerd_id: self.containerd_id@,
            netns: self.netns@,
            plugin_args: pair_views(self.plugin_args@, 0),
            ifname: self.ifname@,
            path: self.path@,
        }
    }
}

/// The six protocol variables of one invocation, in protocol order.
pub open spec fn protocol_env_of(a: ArgsView) -> Seq<(Seq<char>, Seq<char>)> {
    seq![
        ("CNI_COMMAND"@, a.command),
        ("CNI_CONTAINERID"@, a.containerd_id),
        ("CNI_NETNS"@, a.netns),
        ("CNI_IFNAME"@, a.ifname),
        ("CNI_ARGS"@, join_args_spec(a.plugin_args)),
        ("CNI_PATH"@, a.path),
    ]
}

/// A key is one of the six protocol variables.
pub open spec fn is_protocol_key(k: Seq<char>) -> bool {
    ||| k == "CNI_COMMAND"@
    ||| k == "CNI_CONTAINERID"@
    ||| k == "CNI_NETNS"@
    ||| k == "CNI_IFNAME"@
    ||| k == "CNI_ARGS"@
    ||| k == "CNI_PATH"@
}

impl ExecArgs {
    /// The six protocol variables as a local list of pairs.
    pub fn protocol_env(&self) -> (r: Vec<(String, String)>)
        ensures
            pair_views(r@, 0) == protocol_env_of(self@),
    {
        let mut r: Vec<(String, String)> = Vec::new();
        r.push((String::from_str("CNI_COMMAND"), self.command.clone()));
        r.push((String::from_str("CNI_CONTAINERID"), self.containerd_id.clone()));
        r.push((String::from_str("CNI_NETNS"), self.netns.clone()));
        r.push((String::from_str("CNI_IFNAME"), self.ifname.clone()));
        r.push((String::from_str("CNI_ARGS"), join_args(&self.plugin_args)));
        r.push((String::from_str("CNI_PATH"), self.path.clone()));
        proof {
            lemma_pair_views(r@, 0);
            assert forall|t: int| 0 <= t < r@.len() implies pair_views(r@, 0)[t]
                == protocol_env_of(self@)[t] by {
                assert(pair_views(r@, 0)[t] == ((#[trigger] r@[t]).0@, r@[t].1@));
            }
            assert(pair_views(r@, 0) =~= protocol_env_of(self@));
        }
        r
    }

    /// The local environment of one invocation: the six protocol variables
    /// merged on top of (never replacing) the inherited environment, which
    /// itself is left untouched.
    #[verifier::loop_isolation(false)]
    pub fn to_env(&self, inherited: &Vec<(String, String)>) -> (r: Vec<(String, String)>)
        ensures
            pair_views(r@, 0) == pair_views(inherited@, 0).filter(
                |p: (Seq<char>, Seq<char>)| !is_protocol_key(p.0),
            ) + protocol_env_of(self@),
    {
        proof {
            lemma_pair_views(inherited@, 0);
        }
        let ghost inh = pair_views(inherited@, 0);
        let ghost pred = |p: (Seq<char>, Seq<char>)| !is_protocol_key(p.0);
        let mut out: Vec<(String, String)> = Vec::new();
        let mut k: usize = 0;
        while k < inherited.len()
            invariant
                k <= inherited@.len(),
                pair_views(out@, 0) == inh.take(k as int).filter(pred),
            decreases inherited@.len() - k,
        {
            proof {
                reveal(Seq::filter);
                assert(inh.take(k as int + 1).drop_last() =~= inh.take(k as int));
                assert(inh.take(k as int + 1).last() == (
                    inherited@[k as int].0@,
                    inherited@[k as int].1@,
                ));
            }
            let key = &inherited[k].0;
            let keep = !(is_str_eq(key, "CNI_COMMAND") || is_str_eq(key, "CNI_CONTAINERID")
                || is_str_eq(key, "CNI_NETNS") || is_str_eq(key, "CNI_IFNAME") || is_str_eq(
                key,
                "CNI_ARGS",
            ) || is_str_eq(key, "CNI_PATH"));
            if keep {
                let ghost pre = out@;
                out.push((inherited[k].0.clone(), inherited[k].1.clone()));
                proof {
                    lemma_pair_views(out@, 0);
                    lemma_pair_views(pre, 0);
                    assert forall|t: int| 0 <= t < out@.len() implies pair_views(out@, 0)[t]
                        == pair_views(pre, 0).push(
                        (inherited@[k as int].0@, inherited@[k as int].1@),
                    )[t] by {
                        assert(pair_views(out@, 0)[t] == ((#[trigger] out@[t]).0@, out@[t].1@));
                        if t < pre.len() {
                            assert(out@[t] == pre[t]);
                            assert(pair_views(pre, 0)[t] == (pre[t].0@, pre[t].1@));
                        } else {
                            assert(out@[t].0@ == inherited@[k as int].0@);
                            assert(out@[t].1@ == inherited@[k as int].1@);
                        }
                    }
                    assert(pair_views(out@, 0) =~= pair_views(pre, 0).push(
                        (inherited@[k as int].0@, inherited@[k as int].1@),
                    ));
                }
            }
            k = k + 1;
        }
        proof {
            assert(inh.take(inherited@.len() as int) =~= inh);
        }
        let mut six = self.protocol_env();
        let ghost kept = out@;
        let ghost six_view = six@;
        out.append(&mut six);
        proof {
            lemma_pair_views(out@, 0);
            lemma_pair_views(kept, 0);
            lemma_pair_views(six_view, 0);
            assert forall|t: int| 0 <= t < out@.len() implies pair_views(out@, 0)[t] == (
                pair_views(kept, 0) + pair_views(six_view, 0)
            )[t] by {
                if t < kept.len() {
                    assert(out@[t] == kept[t]);
                } else {
                    assert(out@[t] == six_view[t - kept.len()]);
                }
            }
            assert(pair_views(out@, 0) =~= pair_views(kept, 0) + pair_views(six_view, 0));
        }
        out
    }
}

/// String equality against a literal.
pub fn is_str_eq(a: &String, b: &str) -> (r: bool)
    ensures
        r == (a@ == b@),
{
    let bs = String::from_str(b);
    a.eq(&bs)
}

/// What one spawned delegate did: completed with output and an exit status,
/// exceeded the caller-supplied time bound, or could not be started.
pub enum SpawnOutcome {
    Completed { stdout: Vec<u8>, stderr: Vec<u8>, success: bool },
    TimedOut,
    StartFailed,
}

/// The mathematical content of [`SpawnOutcome`].
pub ghost enum OutcomeView {
    Completed { stdout: Seq<u8>, stderr: Seq<u8>, success: bool },
    TimedOut,
    StartFailed,
}

impl View for SpawnOutcome {
    type V = OutcomeView;

    open spec fn view(&self) -> OutcomeView {
        match self {
            SpawnOutcome::Completed { stdout, stderr, success } => OutcomeView::Completed {
                stdout: stdout@,
                stderr: stderr@,
                success: *success,
            },
            SpawnOutcome::TimedOut => OutcomeView::TimedOut,
            SpawnOutcome::StartFailed => OutcomeView::StartFailed,
        }
    }
}

/// Copies an outcome.
pub fn clone_outcome(o: &SpawnOutcome) -> (r: SpawnOutcome)
    ensures
        r@ == o@,
{
    match o {
        SpawnOutcome::Completed { stdout, stderr, success } => SpawnOutcome::Completed {
            stdout: crate::conf::clone_bytes(stdout),
            stderr: crate::conf::clone_bytes(stderr),
            success: *success,
        },
        SpawnOutcome::TimedOut => SpawnOutcome::TimedOut,
        SpawnOutcome::StartFailed => SpawnOutcome::StartFailed,
    }
}

pub open spec fn code_key() -> Seq<u8> {
    seq![0x63u8, 0x6f, 0x64, 0x65]
}

pub fn code_key_vec() -> (r: Vec<u8>)
    ensures
        r@ == code_key(),
{
    let mut v: Vec<u8> = Vec::new();
    v.push(0x63);
    v.push(0x6f);
    v.push(0x64);
    v.push(0x65);
    proof {
        assert(v@ =~= code_key());
    }
    v
}

/// Copies a list of string pairs.
pub fn clone_pairs(v: &Vec<(String, String)>) -> (r: Vec<(String, String)>)
    ensures
        pair_views(r@, 0) == pair_views(v@, 0),
{
    let mut out: Vec<(String, String)> = Vec::new();
    let mut k: usize = 0;
    while k < v.len()
        invariant
            k <= v@.len(),
            out@.len() == k,
            forall|t: int|
                0 <= t < k ==> (#[trigger] out@[t]).0@ == v@[t].0@ && out@[t].1@ == v@[t].1@,
        decreases v@.len() - k,
    {
        out.push((v[k].0.clone(), v[k].1.clone()));
        k = k + 1;
    }
    proof {
        lemma_pair_views(out@, 0);
        lemma_pair_views(v@, 0);
        assert forall|t: int| 0 <= t < out@.len() implies pair_views(out@, 0)[t] == pair_views(
            v@,
            0,
        )[t] by {
            assert(pair_views(out@, 0)[t] == ((#[trigger] out@[t]).0@, out@[t].1@));
            assert(pair_views(v@, 0)[t] == (v@[t].0@, v@[t].1@));
        }
        assert(pair_views(out@, 0) =~= pair_views(v@, 0));
    }
    out
}

/// The delegate's stdout parses as a JSON object carrying a `code` member:
/// the protocol's error envelope.
#[verifier::opaque]
pub open spec fn has_error_code(stdout: Seq<u8>) -> bool {
    match spec_parse(stdout) {
        Option::Some(v) => v is Obj && obj_get(v->Obj_0, code_key()) is Some,
        Option::None => false,
    }
}

/// How the output of one delegate is read.
pub ghost enum InterpretView {
    /// Raw stdout bytes, handed on for result decoding.
    Output(Seq<u8>),
    /// Protocol-level failure: stdout held an error envelope; the message is
    /// the stdout text, or the stderr text where stdout is empty.
    ProtocolError(Seq<u8>),
    /// Nonzero exit with unparseable stdout; the message is the stderr text.
    Failed(Seq<u8>),
    TimedOut,
    StartFailed,
}

/// Interpretation of a delegate's outcome: an error envelope on stdout is a
/// failure regardless of exit status; otherwise unparseable stdout plus a
/// nonzero exit is a failure; everything else hands stdout on.
#[verifier::opaque]
pub open spec fn interpret_spec(o: OutcomeView) -> InterpretView {
    match o {
        OutcomeView::TimedOut => InterpretView::TimedOut,
        OutcomeView::StartFailed => InterpretView::StartFailed,
        OutcomeView::Completed { stdout, stderr, success } => {
            if has_error_code(stdout) {
                InterpretView::ProtocolError(
                    if stdout.len() > 0 {
                        stdout
                    } else {
                        stderr
                    },
                )
            } else if spec_parse(stdout) is None && !success {
                InterpretView::Failed(stderr)
            } else {
                InterpretView::Output(stdout)
            }
        },
    }
}

/// Reads one delegate outcome, exactly as [`interpret_spec`] describes.
pub fn interpret_output(o: SpawnOutcome) -> (r: Result<Vec<u8>, CniError>)
    ensures
        ({
            let iv = interpret_spec(o@);
            match r {
                Result::Ok(out) => iv == InterpretView::Output(out@),
                Result::Err(e) => match e {
                    CniError::Timeout => iv is TimedOut,
                    CniError::Execute { message } => iv == InterpretView::ProtocolError(message@)
                        || iv == InterpretView::Failed(message@) || (iv is StartFailed
                        && message@ == Seq::<u8>::empty()),
                    _ => false,
                },
            }
        }),
        r is Ok <==> interpret_spec(o@) is Output,
{
    proof {
        reveal(has_error_code);
        reveal(interpret_spec);
    }
    match o {
        SpawnOutcome::TimedOut => Result::Err(CniError::Timeout),
        SpawnOutcome::StartFailed => {
            let message: Vec<u8> = Vec::new();
            proof {
                assert(message@ =~= Seq::<u8>::empty());
            }
            Result::Err(CniError::Execute { message })
        },
        SpawnOutcome::Completed { stdout, stderr, success } => {
            match crate::parse::parse_document(&stdout) {
                Option::Some(v) => {
                    let envelope = match &v {
                        JsonValue::Obj(ms) => crate::json::members_find(
                            ms,
                            &code_key_vec(),
                        ).is_some(),
                        _ => false,
                    };
                    if envelope {
                        if stdout.len() > 0 {
                            Result::Err(CniError::Execute { message: stdout })
                        } else {
                            Result::Err(CniError::Execute { message: stderr })
                        }
                    } else {
                        Result::Ok(stdout)
                    }
                },
                Option::None => {
                    if !success {
                        Result::Err(CniError::Execute { message: stderr })
                    } else {
                        Result::Ok(stdout)
                    }
                },
            }
        },
    }
}

/// What threading a delegate's outcome into the next invocation yields:
/// the decoded result, where the outcome hands stdout on and it parses.
#[verifier::opaque]
pub open spec fn decoded_of(output: OutcomeView) -> Option<ResultView> {
    match interpret_spec(output) {
        InterpretView::Output(b) => match spec_parse(b) {
            Option::Some(v) => Option::Some(ResultView { bytes: b, value: v }),
            Option::None => Option::None,
        },
        _ => Option::None,
    }
}

/// How one chain-step error corresponds to the recorded outcome.
pub open spec fn delegate_result_err(output: OutcomeView, e: CniError) -> bool {
    match e {
        CniError::Decode => interpret_spec(output) matches InterpretView::Output(b) && spec_parse(
            b,
        ) is None,
        CniError::Timeout => interpret_spec(output) is TimedOut,
        CniError::Execute { message } => interpret_spec(output) == InterpretView::ProtocolError(
            message@,
        ) || interpret_spec(output) == InterpretView::Failed(message@) || (interpret_spec(output)
            is StartFailed && message@ == Seq::<u8>::empty()),
        _ => false,
    }
}

/// The mathematical content of [`ChainResult`].
pub ghost struct ResultView {
    pub bytes: Seq<u8>,
    pub value: JVal,
}

/// One plugin's decoded result: the raw stdout bytes and the JSON value
/// they parse to, passed as `prevResult` to the next plugin in the chain.
pub struct ChainResult {
    pub bytes: Vec<u8>,
    pub value: Ghost<JVal>,
}

impl View for ChainResult {
    type V = ResultView;

    open spec fn view(&self) -> ResultView {
        ResultView { bytes: self.bytes@, value: self.value@ }
    }
}

/// Invariant of a decoded result: the value is what the bytes parse to.
#[verifier::opaque]
pub open spec fn wf_result(r: ResultView) -> bool {
    &&& spec_parse(r.bytes) == Option::Some(r.value)
    &&& crate::json::wf_jval(r.value)
}

/// ResultDecoder: parses a delegate's stdout into a chainable result value.
/// Succeeds exactly when the bytes are one JSON document.
pub fn decode_result(bytes: Vec<u8>) -> (r: Result<ChainResult, CniError>)
    ensures
        match r {
            Result::Ok(cr) => cr@.bytes == bytes@ && wf_result(cr@) && spec_parse(bytes@)
                == Option::Some(cr@.value),
            Result::Err(e) => spec_parse(bytes@) is None && e is Decode,
        },
        r is Ok <==> spec_parse(bytes@) is Some,
{
    proof {
        reveal(wf_result);
    }
    match crate::parse::parse_document(&bytes) {
        Option::Some(v) => {
            proof {
                crate::parse::lemma_spec_parse_wf(bytes@);
            }
            Result::Ok(ChainResult { value: Ghost(crate::json::jval_of(v)), bytes })
        },
        Option::None => Result::Err(CniError::Decode),
    }
}

/// The delegate executable for a plugin type under a search directory.
pub open spec fn joined_path(dir: Seq<char>, plugin: Seq<u8>) -> Seq<u8> {
    vstd::utf8::encode_utf8(dir) + seq![0x2fu8] + plugin
}

/// The UTF-8 bytes of a string.
pub fn string_to_bytes(s: &String) -> (r: Vec<u8>)
    ensures
        r@ == vstd::utf8::encode_utf8(s@),
{
    s.as_str().as_bytes_vec()
}

/// First index whose flag is set, or the length.
pub open spec fn first_present(flags: Seq<bool>, i: int) -> int
    decreases flags.len() - i,
{
    if i < 0 || i >= flags.len() {
        flags.len() as int
    } else if flags[i] {
        i
    } else {
        first_present(flags, i + 1)
    }
}

/// Resolution decision: search paths in order, the first path whose flag
/// says the binary exists wins; with no hit the plugin is not found.
#[verifier::loop_isolation(false)]
pub fn resolve_path(plugin: &Vec<u8>, paths: &Vec<String>, present: &Vec<bool>) -> (r: Result<
    Vec<u8>,
    CniError,
>)
    requires
        present@.len() == paths@.len(),
    ensures
        r is Ok <==> first_present(present@, 0) < present@.len(),
        r matches Result::Ok(p) ==> p@ == joined_path(
            paths@[first_present(present@, 0)]@,
            plugin@,
        ),
        r matches Result::Err(e) ==> e matches CniError::PluginNotFound { plugin: pl } && pl@
            == plugin@,
{
    let mut k: usize = 0;
    while k < present.len() && !present[k]
        invariant
            k <= present@.len(),
            first_present(present@, 0) == first_present(present@, k as int),
        decreases present@.len() - k,
    {
        k = k + 1;
    }
    if k < present.len() {
        let mut p = string_to_bytes(&paths[k]);
        p.push(0x2f);
        crate::json::push_bytes(&mut p, plugin);
        proof {
            assert(p@ =~= joined_path(paths@[k as int]@, plugin@));
        }
        Result::Ok(p)
    } else {
        Result::Err(CniError::PluginNotFound { plugin: crate::conf::clone_bytes(plugin) })
    }
}

/// One delegate invocation as handed to an executor: the resolved binary
/// path, the exact stdin bytes and the six protocol variables.
pub struct PluginCall {
    pub path: Vec<u8>,
    pub stdin: Vec<u8>,
    pub env: Vec<(String, String)>,
}

/// The record of one performed invocation: the call and what came back.
pub ghost struct CallView {
    pub path: Seq<u8>,
    pub stdin: Seq<u8>,
    pub env: Seq<(Seq<char>, Seq<char>)>,
    pub output: OutcomeView,
}

pub open spec fn call_view(c: PluginCall, o: OutcomeView) -> CallView {
    CallView { path: c.path@, stdin: c.stdin@, env: pair_views(c.env@, 0), output: o }
}

/// Copies a call.
pub fn clone_call(c: &PluginCall) -> (r: PluginCall)
    ensures
        r.path@ == c.path@,
        r.stdin@ == c.stdin@,
        pair_views(r.env@, 0) == pair_views(c.env@, 0),
{
    let mut env: Vec<(String, String)> = Vec::new();
    let mut k: usize = 0;
    while k < c.env.len()
        invariant
            k <= c.env@.len(),
            env@.len() == k,
            forall|t: int|
                0 <= t < k ==> (#[trigger] env@[t]).0@ == c.env@[t].0@ && env@[t].1@
                    == c.env@[t].1@,
        decreases c.env@.len() - k,
    {
        env.push((c.env[k].0.clone(), c.env[k].1.clone()));
        k = k + 1;
    }
    proof {
        lemma_pair_views(env@, 0);
        lemma_pair_views(c.env@, 0);
        assert forall|t: int| 0 <= t < env@.len() implies pair_views(env@, 0)[t] == pair_views(
            c.env@,
            0,
        )[t] by {
            assert(pair_views(env@, 0)[t] == ((#[trigger] env@[t]).0@, env@[t].1@));
            assert(pair_views(c.env@, 0)[t] == (c.env@[t].0@, c.env@[t].1@));
        }
        assert(pair_views(env@, 0) =~= pair_views(c.env@, 0));
    }
    PluginCall {
        path: crate::conf::clone_bytes(&c.path),
        stdin: crate::conf::clone_bytes(&c.stdin),
        env,
    }
}

/// The process-exec capability: resolving a plugin type to a binary and
/// invoking one delegate.  The production implementation spawns real
/// subprocesses and lives outside the verified library; the in-memory
/// [`FakeExec`] below serves tests.  An implementation must pass the six
/// given variables merged on top of the inherited process environment to
/// the spawned delegate, and must never mutate the process-global
/// environment.
pub trait Exec {
    /// Every delegate invocation this executor has performed, in order,
    /// with its outcome.  An implementation outside the verified library
    /// leaves the default, of which nothing is known.
    open spec fn calls(&self) -> Seq<CallView> {
        Seq::empty()
    }

    /// Resolves a plugin type to an executable path.  What exists on disk
    /// is the executor's world; every implementation promises only that a
    /// success is some search path joined with the plugin type, and that a
    /// failure names the plugin.
    fn find_in_path(&mut self, plugin: &Vec<u8>, paths: &Vec<String>) -> (r: Result<
        Vec<u8>,
        CniError,
    >)
        ensures
            final(self).calls() == old(self).calls(),
            r matches Result::Ok(p) ==> exists|i: int|
                0 <= i < paths@.len() && p@ == joined_path((#[trigger] paths@[i])@, plugin@),
            r matches Result::Err(e) ==> e matches CniError::PluginNotFound { plugin: pl } && pl@
                == plugin@;

    /// Performs one delegate invocation: writes the stdin bytes completely,
    /// waits for exit or for the time bound, and returns the outcome.  The
    /// call and its outcome are appended to the record.
    fn exec_plugins(&mut self, call: &PluginCall) -> (r: SpawnOutcome)
        ensures
            final(self).calls() == old(self).calls().push(call_view(*call, r@));
}

/// One recorded invocation of the in-memory executor.
pub struct CallRecord {
    pub call: PluginCall,
    pub outcome: SpawnOutcome,
}

pub open spec fn record_views(rs: Seq<CallRecord>, i: int) -> Seq<CallView>
    decreases rs.len() - i,
{
    if i < 0 || i >= rs.len() {
        Seq::empty()
    } else {
        seq![call_view(rs[i].call, rs[i].outcome@)] + record_views(rs, i + 1)
    }
}

pub broadcast proof fn lemma_record_views(rs: Seq<CallRecord>, i: int)
    requires
        0 <= i <= rs.len(),
    ensures
        (#[trigger] record_views(rs, i)).len() == rs.len() - i,
        forall|k: int|
            i <= k < rs.len() ==> record_views(rs, i)[k - i] == call_view(
                (#[trigger] rs[k]).call,
                rs[k].outcome@,
            ),
    decreases rs.len() - i,
{
    if i < rs.len() {
        lemma_record_views(rs, i + 1);
    }
}

/// Whether some known binary sits under `dir` for `plugin`.
pub open spec fn has_binary(bins: Seq<(String, Vec<u8>)>, dir: Seq<char>, plugin: Seq<u8>) -> bool {
    exists|t: int| 0 <= t < bins.len() && (#[trigger] bins[t]).0@ == dir && bins[t].1@ == plugin
}

/// The in-memory executor for tests: a table of existing binaries, a queue
/// of scripted outcomes consumed front to back (an empty queue answers with
/// a successful, outputless completion), and the record of performed calls.
pub struct FakeExec {
    pub binaries: Vec<(String, Vec<u8>)>,
    pub replies: Vec<SpawnOutcome>,
    pub next_reply: usize,
    pub log: Vec<CallRecord>,
}

impl FakeExec {
    /// An executor that knows no binaries and answers every invocation with
    /// a successful, outputless completion.
    pub fn new() -> (r: FakeExec)
        ensures
            r.calls() == Seq::<CallView>::empty(),
            r.binaries@.len() == 0,
            r.replies@.len() == 0,
    {
        FakeExec { binaries: Vec::new(), replies: Vec::new(), next_reply: 0, log: Vec::new() }
    }

    /// Registers a binary for `plugin` under the directory `dir`.
    pub fn add_binary(&mut self, dir: String, plugin: Vec<u8>)
        ensures
            final(self).calls() == old(self).calls(),
            final(self).binaries@ == old(self).binaries@.push((dir, plugin)),
            final(self).replies@ == old(self).replies@,
            final(self).next_reply == old(self).next_reply,
            final(self).log@ == old(self).log@,
    {
        self.binaries.push((dir, plugin));
    }

    /// Scripts the outcome of the next not-yet-scripted invocation.
    pub fn queue_reply(&mut self, outcome: SpawnOutcome)
        ensures
            final(self).calls() == old(self).calls(),
            final(self).replies@ == old(self).replies@.push(outcome),
            final(self).log@ == old(self).log@,
            final(self).next_reply == old(self).next_reply,
    {
        self.replies.push(outcome);
    }
}

impl Exec for FakeExec {
    open spec fn calls(&self) -> Seq<CallView> {
        record_views(self.log@, 0)
    }

    #[verifier::loop_isolation(false)]
    fn find_in_path(&mut self, plugin: &Vec<u8>, paths: &Vec<String>) -> (r: Result<
        Vec<u8>,
        CniError,
    >) {
        let mut present: Vec<bool> = Vec::new();
        let mut k: usize = 0;
        while k < paths.len()
            invariant
                k <= paths@.len(),
                present@.len() == k,
            decreases paths@.len() - k,
        {
            let mut hit = false;
            let mut t: usize = 0;
            while t < self.binaries.len() && !hit
                invariant
                    t <= self.binaries@.len(),
                decreases self.binaries@.len() - t,
            {
                if is_str_eq(&self.binaries[t].0, paths[k].as_str()) && crate::json::bytes_eq(
                    &self.binaries[t].1,
                    plugin,
                ) {
                    hit = true;
                }
                t = t + 1;
            }
            present.push(hit);
            k = k + 1;
        }
        let r = resolve_path(plugin, paths, &present);
        proof {
            if r is Ok {
                let fp = first_present(present@, 0);
                crate::exec::lemma_first_present(present@, 0);
            }
        }
        r
    }

    fn exec_plugins(&mut self, call: &PluginCall) -> (r: SpawnOutcome) {
        let outcome = if self.next_reply < self.replies.len() {
            let o = clone_outcome(&self.replies[self.next_reply]);
            self.next_reply = self.next_reply + 1;
            o
        } else {
            SpawnOutcome::Completed { stdout: Vec::new(), stderr: Vec::new(), success: true }
        };
        let ghost pre = self.log@;
        let rec = CallRecord { call: clone_call(call), outcome: clone_outcome(&outcome) };
        self.log.push(rec);
        proof {
            lemma_record_views(self.log@, 0);
            lemma_record_views(pre, 0);
            assert forall|t: int| 0 <= t < self.log@.len() implies record_views(self.log@, 0)[t]
                == record_views(pre, 0).push(call_view(*call, outcome@))[t] by {
                assert(record_views(self.log@, 0)[t] == call_view(
                    (#[trigger] self.log@[t]).call,
                    self.log@[t].outcome@,
                ));
                if t < pre.len() {
                    assert(self.log@[t] == pre[t]);
                    assert(record_views(pre, 0)[t] == call_view(pre[t].call, pre[t].outcome@));
                }
            }
            assert(record_views(self.log@, 0) =~= record_views(pre, 0).push(
                call_view(*call, outcome@),
            ));
        }
        outcome
    }
}

/// Reading [`decoded_of`] from its parts: an outcome whose interpretation
/// hands bytes on that parse decodes to exactly that result.
pub proof fn lemma_decoded_of_ok(output: OutcomeView, bytes: Seq<u8>, rv: ResultView)
    requires
        interpret_spec(output) == InterpretView::Output(bytes),
        spec_parse(bytes) == Option::Some(rv.value),
        rv.bytes == bytes,
    ensures
        decoded_of(output) == Option::Some(rv),
{
    reveal(decoded_of);
}

/// An outcome that hands no parseable bytes on decodes to nothing.
pub proof fn lemma_decoded_of_none(output: OutcomeView)
    requires
        !(interpret_spec(output) is Output) || (interpret_spec(output)
            matches InterpretView::Output(b) && spec_parse(b) is None),
    ensures
        decoded_of(output) is None,
{
    reveal(decoded_of);
}

/// What the result invariant says of the bytes.
pub proof fn lemma_wf_result_parse(rv: ResultView)
    requires
        wf_result(rv),
    ensures
        spec_parse(rv.bytes) == Option::Some(rv.value),
        crate::json::wf_jval(rv.value),
{
    reveal(wf_result);
}

/// The index the first-set-flag scan returns is in range and set, where any
/// flag is set at all.
pub proof fn lemma_first_present(flags: Seq<bool>, i: int)
    requires
        0 <= i <= flags.len(),
    ensures
        i <= first_present(flags, i) <= flags.len(),
        first_present(flags, i) < flags.len() ==> flags[first_present(flags, i)],
    decreases flags.len() - i,
{
    if i < flags.len() && !flags[i] {
        lemma_first_present(flags, i + 1);
    }
}

} // verus!
