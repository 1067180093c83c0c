//! ConfigLoader: parsing plugin-chain configuration documents into the
//! in-memory chain model.
//!
//! A document is a JSON object with a required `name` string, a required
//! `cniVersion` string, an optional `disableCheck` boolean (default false)
//! and a required `plugins` array of objects, each carrying a nonempty
//! `type` string.  Each plugin keeps its whole JSON object: the stored bytes
//! are the object's serialisation, so unknown plugin-specific keys survive
//! untouched through the chain.

use vstd::prelude::*;

use crate::errors::{CniError, ConfigFault};
use crate::json::{
    jmembers_of, jval_of, jvals_of, lemma_jvals_of, obj_get, ser, wf_jval, JVal, JsonValue,
    copy_range,
};
use crate::parse::{lemma_spec_parse_wf, parse_document, spec_parse};

verus! {

pub open spec fn name_key() -> Seq<u8> {
    seq![0x6eu8, 0x61, 0x6d, 0x65]
}

pub open spec fn version_key() -> Seq<u8> {
    seq![0x63u8, 0x6e, 0x69, 0x56, 0x65, 0x72, 0x73, 0x69, 0x6f, 0x6e]
}

pub open spec fn disable_check_key() -> Seq<u8> {
    seq![0x64u8, 0x69, 0x73, 0x61, 0x62, 0x6c, 0x65, 0x43, 0x68, 0x65, 0x63, 0x6b]
}

pub open spec fn plugins_key() -> Seq<u8> {
    seq![0x70u8, 0x6c, 0x75, 0x67, 0x69, 0x6e, 0x73]
}

pub open spec fn type_key() -> Seq<u8> {
    seq![0x74u8, 0x79, 0x70, 0x65]
}

pub open spec fn prev_result_key() -> Seq<u8> {
    seq![0x70u8, 0x72, 0x65, 0x76, 0x52, 0x65, 0x73, 0x75, 0x6c, 0x74]
}

pub fn name_key_vec() -> (r: Vec<u8>)
    ensures
        r@ == name_key(),
{
    let mut v: Vec<u8> = Vec::new();
    v.push(0x6e);
    v.push(0x61);
    v.push(0x6d);
    v.push(0x65);
    proof {
        assert(v@ =~= name_key());
    }
    v
}

pub fn version_key_vec() -> (r: Vec<u8>)
    ensures
        r@ == version_key(),
{
    let mut v: Vec<u8> = Vec::new();
    v.push(0x63);
    v.push(0x6e);
    v.push(0x69);
    v.push(0x56);
    v.push(0x65);
    v.push(0x72);
    v.push(0x73);
    v.push(0x69);
    v.push(0x6f);
    v.push(0x6e);
    proof {
        assert(v@ =~= version_key());
    }
    v
}

pub fn disable_check_key_vec() -> (r: Vec<u8>)
    ensures
        r@ == disable_check_key(),
{
    let mut v: Vec<u8> = Vec::new();
    v.push(0x64);
    v.push(0x69);
    v.push(0x73);
    v.push(0x61);
    v.push(0x62);
    v.push(0x6c);
    v.push(0x65);
    v.push(0x43);
    v.push(0x68);
    v.push(0x65);
    v.push(0x63);
    v.push(0x6b);
    proof {
        assert(v@ =~= disable_check_key());
    }
    v
}

pub fn plugins_key_vec() -> (r: Vec<u8>)
    ensures
        r@ == plugins_key(),
{
    let mut v: Vec<u8> = Vec::new();
    v.push(0x70);
    v.push(0x6c);
    v.push(0x75);
    v.push(0x67);
    v.push(0x69);
    v.push(0x6e);
    v.push(0x73);
    proof {
        assert(v@ =~= plugins_key());
    }
    v
}

pub fn type_key_vec() -> (r: Vec<u8>)
    ensures
        r@ == type_key(),
{
    let mut v: Vec<u8> = Vec::new();
    v.push(0x74);
    v.push(0x79);
    v.push(0x70);
    v.push(0x65);
    proof {
        assert(v@ =~= type_key());
    }
    v
}

pub fn prev_result_key_vec() -> (r: Vec<u8>)
    ensures
        r@ == prev_result_key(),
{
    let mut v: Vec<u8> = Vec::new();
    v.push(0x70);
    v.push(0x72);
    v.push(0x65);
    v.push(0x76);
    v.push(0x52);
    v.push(0x65);
    v.push(0x73);
    v.push(0x75);
    v.push(0x6c);
    v.push(0x74);
    proof {
        assert(v@ =~= prev_result_key());
    }
    v
}

/// Copies a byte vector.
pub fn clone_bytes(v: &Vec<u8>) -> (r: Vec<u8>)
    ensures
        r@ == v@,
{
    let r = copy_range(v, 0, v.len());
    proof {
        assert(v@.subrange(0, v@.len() as int) =~= v@);
    }
    r
}

/// The mathematical content of one chain element.
pub ghost struct PluginView {
    /// Content bytes of the element's `type` string.
    pub plugin_type: Seq<u8>,
    /// The element's whole JSON object, serialised.
    pub bytes: Seq<u8>,
    /// The element's whole JSON object.
    pub value: JVal,
}

/// One chain element: a type name and the element's exact JSON object,
/// kept in full so unknown keys are never dropped.
pub struct NetworkConfig {
    pub plugin_type: Vec<u8>,
    pub bytes: Vec<u8>,
    pub value: Ghost<JVal>,
}

impl View for NetworkConfig {
    type V = PluginView;

    open spec fn view(&self) -> PluginView {
        PluginView {
            plugin_type: self.plugin_type@,
            bytes: self.bytes@,
            value: self.value@,
        }
    }
}

/// Invariant of a chain element: the stored bytes are exactly the
/// serialisation of the element's object, and the type is the object's
/// nonempty `type` string.
pub open spec fn wf_plugin(p: PluginView) -> bool {
    &&& p.value is Obj
    &&& wf_jval(p.value)
    &&& p.bytes == ser(p.value)
    &&& obj_get(p.value->Obj_0, type_key()) == Option::Some(JVal::Str(p.plugin_type))
    &&& p.plugin_type.len() > 0
}

/// The mathematical content of one chain.
pub ghost struct ChainView {
    pub name: Seq<u8>,
    pub cni_version: Seq<u8>,
    pub disable_check: bool,
    pub plugins: Seq<PluginView>,
    pub bytes: Seq<u8>,
}

/// One plugin chain: ordered plugins plus chain-level name, protocol
/// version, disable-check flag and the whole document's raw bytes.
pub struct NetworkConfigList {
    pub name: Vec<u8>,
    pub cni_version: Vec<u8>,
    pub disable_check: bool,
    pub plugins: Vec<NetworkConfig>,
    pub bytes: Vec<u8>,
}

pub open spec fn pviews_of(ps: Seq<NetworkConfig>, i: int) -> Seq<PluginView>
    decreases ps.len() - i,
{
    if i < 0 || i >= ps.len() {
        Seq::empty()
    } else {
        seq![ps[i]@] + pviews_of(ps, i + 1)
    }
}

pub broadcast proof fn lemma_pviews_of(ps: Seq<NetworkConfig>, i: int)
    requires
        0 <= i <= ps.len(),
    ensures
        (#[trigger] pviews_of(ps, i)).len() == ps.len() - i,
        forall|k: int| i <= k < ps.len() ==> pviews_of(ps, i)[k - i] == (#[trigger] ps[k])@,
    decreases ps.len() - i,
{
    if i < ps.len() {
        lemma_pviews_of(ps, i + 1);
    }
}

impl View for NetworkConfigList {
    type V = ChainView;

    open spec fn view(&self) -> ChainView {
        ChainView {
            name: self.name@,
            cni_version: self.cni_version@,
            disable_check: self.disable_check,
            plugins: pviews_of(self.plugins@, 0),
            bytes: self.bytes@,
        }
    }
}

/// Invariant of a chain: every element holds its invariant.
pub open spec fn wf_chain(c: ChainView) -> bool {
    forall|k: int| 0 <= k < c.plugins.len() ==> wf_plugin(#[trigger] c.plugins[k])
}

/// The chain element a `plugins` array element denotes, if admissible.
pub open spec fn plugin_of_elem(e: JVal) -> Option<PluginView> {
    match e {
        JVal::Obj(ms) => match obj_get(ms, type_key()) {
            Option::Some(t) => match t {
                JVal::Str(tb) => if tb.len() > 0 {
                    Option::Some(PluginView { plugin_type: tb, bytes: ser(e), value: e })
                } else {
                    Option::None
                },
                _ => Option::None,
            },
            Option::None => Option::None,
        },
        _ => Option::None,
    }
}

/// The chain elements of the array elements from `i` on, if all admissible.
pub open spec fn plugins_of_elems(es: Seq<JVal>, i: int) -> Option<Seq<PluginView>>
    decreases es.len() - i,
{
    if i < 0 || i >= es.len() {
        Option::Some(Seq::empty())
    } else {
        match plugin_of_elem(es[i]) {
            Option::None => Option::None,
            Option::Some(p) => match plugins_of_elems(es, i + 1) {
                Option::None => Option::None,
                Option::Some(rest) => Option::Some(seq![p] + rest),
            },
        }
    }
}

/// What parsing a configuration document yields, if it is accepted.
pub open spec fn chain_of_doc(doc: Seq<u8>) -> Option<ChainView> {
    match spec_parse(doc) {
        Option::None => Option::None,
        Option::Some(v) => match v {
            JVal::Obj(ms) => match obj_get(ms, name_key()) {
                Option::Some(nv) => match nv {
                    JVal::Str(name) => match obj_get(ms, version_key()) {
                        Option::Some(vv) => match vv {
                            JVal::Str(ver) => {
                                let dv = obj_get(ms, disable_check_key());
                                if !(dv is None || dv->Some_0 is Bool) {
                                    Option::None
                                } else {
                                    let disable = if dv is Some {
                                        dv->Some_0->Bool_0
                                    } else {
                                        false
                                    };
                                    match obj_get(ms, plugins_key()) {
                                        Option::Some(pv) => match pv {
                                            JVal::Arr(es) => match plugins_of_elems(es, 0) {
                                                Option::Some(ps) => Option::Some(
                                                    ChainView {
                                                        name: name,
                                                        cni_version: ver,
                                                        disable_check: disable,
                                                        plugins: ps,
                                                        bytes: doc,
                                                    },
                                                ),
                                                Option::None => Option::None,
                                            },
                                            _ => Option::None,
                                        },
                                        Option::None => Option::None,
                                    }
                                }
                            },
                            _ => Option::None,
                        },
                        Option::None => Option::None,
                    },
                    _ => Option::None,
                },
                Option::None => Option::None,
            },
            _ => Option::None,
        },
    }
}

pub proof fn lemma_plugins_of_elems_build(es: Seq<JVal>, i: int, ps: Seq<PluginView>)
    requires
        0 <= i <= es.len(),
        ps.len() == es.len() - i,
        forall|t: int| i <= t < es.len() ==> plugin_of_elem(#[trigger] es[t]) == Option::Some(
            ps[t - i],
        ),
    ensures
        plugins_of_elems(es, i) == Option::Some(ps),
    decreases es.len() - i,
{
    if i < es.len() {
        lemma_plugins_of_elems_build(es, i + 1, ps.skip(1));
        assert(seq![ps[0]] + ps.skip(1) =~= ps);
    } else {
        assert(ps =~= Seq::<PluginView>::empty());
    }
}

pub proof fn lemma_plugins_of_elems_none(es: Seq<JVal>, i: int, bad: int)
    requires
        0 <= i <= bad < es.len(),
        plugin_of_elem(es[bad]) is None,
    ensures
        plugins_of_elems(es, i) is None,
    decreases bad - i,
{
    if i < bad {
        match plugin_of_elem(es[i]) {
            Option::None => {},
            Option::Some(_) => {
                lemma_plugins_of_elems_none(es, i + 1, bad);
            },
        }
    }
}

pub proof fn lemma_plugins_of_elems_index(es: Seq<JVal>, i: int)
    requires
        0 <= i <= es.len(),
        plugins_of_elems(es, i) is Some,
    ensures
        plugins_of_elems(es, i)->Some_0.len() == es.len() - i,
        forall|t: int|
            i <= t < es.len() ==> Option::Some((plugins_of_elems(es, i)->Some_0)[t - i])
                == plugin_of_elem(#[trigger] es[t]),
    decreases es.len() - i,
{
    if i < es.len() {
        lemma_plugins_of_elems_index(es, i + 1);
    }
}

/// A member looked up among well-formed members is well formed.
pub proof fn lemma_obj_get_wf(ms: Seq<(Seq<u8>, JVal)>, key: Seq<u8>)
    requires
        forall|i: int| 0 <= i < ms.len() ==> crate::json::wf_member(#[trigger] ms[i]),
        obj_get(ms, key) is Some,
    ensures
        wf_jval(obj_get(ms, key)->Some_0),
    decreases ms.len(),
{
    if ms.len() > 0 && ms[0].0 != key {
        assert forall|t: int| 0 <= t < ms.drop_first().len() implies crate::json::wf_member(
            #[trigger] ms.drop_first()[t],
        ) by {
            assert(ms.drop_first()[t] == ms[t + 1]);
            assert(crate::json::wf_member(ms[t + 1]));
        }
        lemma_obj_get_wf(ms.drop_first(), key);
    } else if ms.len() > 0 {
        assert(crate::json::wf_member(ms[0]));
    }
}

/// Every chain the loader accepts holds its invariant.
pub proof fn lemma_chain_of_doc_wf(doc: Seq<u8>)
    ensures
        chain_of_doc(doc) matches Option::Some(c) ==> wf_chain(c),
{
    if chain_of_doc(doc) is Some {
        let c = chain_of_doc(doc)->Some_0;
        lemma_spec_parse_wf(doc);
        let ms = spec_parse(doc)->Some_0->Obj_0;
        lemma_obj_get_wf(ms, plugins_key());
        let es = obj_get(ms, plugins_key())->Some_0->Arr_0;
        lemma_plugins_of_elems_index(es, 0);
        assert forall|k: int| 0 <= k < c.plugins.len() implies wf_plugin(
            #[trigger] c.plugins[k],
        ) by {
            assert(Option::Some(c.plugins[k]) == plugin_of_elem(es[k]));
            assert(wf_jval(es[k]));
        }
    }
}

/// Round-trip fidelity: each plugin's stored bytes parse back to exactly the
/// plugin's own object, and the `type` member of that object is the type the
/// first pass decoded.
pub proof fn lemma_plugin_roundtrip(doc: Seq<u8>, k: int)
    requires
        chain_of_doc(doc) is Some,
        0 <= k < chain_of_doc(doc)->Some_0.plugins.len(),
    ensures
        ({
            let p = chain_of_doc(doc)->Some_0.plugins[k];
            &&& spec_parse(p.bytes) == Option::Some(p.value)
            &&& obj_get(p.value->Obj_0, type_key()) == Option::Some(JVal::Str(p.plugin_type))
        }),
{
    lemma_chain_of_doc_wf(doc);
    let p = chain_of_doc(doc)->Some_0.plugins[k];
    crate::parse::lemma_roundtrip(p.value);
}

/// Loader entry points.  Reading directories and files is the embedding
/// program's business; the loader works on names and bytes.
pub struct ConfigFile {}

impl ConfigFile {
    /// Parses one configuration document into the chain model.  Returns the
    /// chain exactly when [`chain_of_doc`] accepts the bytes, and then the
    /// chain is the one [`chain_of_doc`] describes, with its invariant.
    #[verifier::loop_isolation(false)]
    pub fn config_from_bytes(datas: &Vec<u8>) -> (r: Result<NetworkConfigList, CniError>)
        ensures
            match r {
                Result::Ok(c) => chain_of_doc(datas@) == Option::Some(c@) && wf_chain(c@),
                Result::Err(e) => chain_of_doc(datas@) is None && e is Config,
            },
    {
        let doc = match parse_document(datas) {
            Option::Some(v) => v,
            Option::None => {
                return Result::Err(CniError::Config(ConfigFault::Unparseable));
            },
        };
        let members = match doc {
            JsonValue::Obj(ms) => ms,
            _ => {
                return Result::Err(CniError::Config(ConfigFault::NotAnObject));
            },
        };
        let ghost ms_view = jmembers_of(members@, 0);
        let name = match crate::json::members_find(&members, &name_key_vec()) {
            Option::Some(v) => match v {
                JsonValue::Str(nb) => clone_bytes(nb),
                _ => {
                    return Result::Err(CniError::Config(ConfigFault::MissingName));
                },
            },
            Option::None => {
                return Result::Err(CniError::Config(ConfigFault::MissingName));
            },
        };
        let cni_version = match crate::json::members_find(&members, &version_key_vec()) {
            Option::Some(v) => match v {
                JsonValue::Str(vb) => clone_bytes(vb),
                _ => {
                    return Result::Err(CniError::Config(ConfigFault::MissingVersion));
                },
            },
            Option::None => {
                return Result::Err(CniError::Config(ConfigFault::MissingVersion));
            },
        };
        let disable_check = match crate::json::members_find(&members, &disable_check_key_vec()) {
            Option::Some(v) => match v {
                JsonValue::Bool(b) => *b,
                _ => {
                    return Result::Err(CniError::Config(ConfigFault::BadDisableCheck));
                },
            },
            Option::None => false,
        };
        let plugins_arr = match crate::json::members_find(&members, &plugins_key_vec()) {
            Option::Some(v) => match v {
                JsonValue::Arr(es) => es,
                _ => {
                    return Result::Err(CniError::Config(ConfigFault::MissingPlugins));
                },
            },
            Option::None => {
                return Result::Err(CniError::Config(ConfigFault::MissingPlugins));
            },
        };
        let ghost es_view = jvals_of(plugins_arr@, 0);
        proof {
            lemma_jvals_of(plugins_arr@, 0);
        }
        let mut plugins: Vec<NetworkConfig> = Vec::new();
        let mut k: usize = 0;
        while k < plugins_arr.len()
            invariant
                k <= plugins_arr@.len(),
                es_view == jvals_of(plugins_arr@, 0),
                es_view.len() == plugins_arr@.len(),
                forall|t: int|
                    0 <= t < plugins_arr@.len() ==> es_view[t] == jval_of(
                        #[trigger] plugins_arr@[t],
                    ),
                plugins@.len() == k,
                forall|t: int|
                    0 <= t < k ==> plugin_of_elem(es_view[t]) == Option::Some(
                        (#[trigger] plugins@[t])@,
                    ),
            decreases plugins_arr@.len() - k,
        {
            let elem = &plugins_arr[k];
            let ems = match elem {
                JsonValue::Obj(ems) => ems,
                _ => {
                    proof {
                        assert(es_view[k as int] == jval_of(plugins_arr@[k as int]));
                        assert(plugin_of_elem(es_view[k as int]) is None);
                        lemma_plugins_of_elems_none(es_view, 0, k as int);
                    }
                    return Result::Err(CniError::Config(ConfigFault::BadPlugin));
                },
            };
            let tv = match crate::json::members_find(ems, &type_key_vec()) {
                Option::Some(v) => match v {
                    JsonValue::Str(tb) => tb,
                    _ => {
                        proof {
                            lemma_plugins_of_elems_none(es_view, 0, k as int);
                        }
                        return Result::Err(CniError::Config(ConfigFault::BadPlugin));
                    },
                },
                Option::None => {
                    proof {
                        assert(es_view[k as int] == jval_of(plugins_arr@[k as int]));
                        assert(plugin_of_elem(es_view[k as int]) is None);
                        lemma_plugins_of_elems_none(es_view, 0, k as int);
                    }
                    return Result::Err(CniError::Config(ConfigFault::BadPlugin));
                },
            };
            if tv.len() == 0 {
                proof {
                    assert(es_view[k as int] == jval_of(plugins_arr@[k as int]));
                    assert(plugin_of_elem(es_view[k as int]) is None);
                    lemma_plugins_of_elems_none(es_view, 0, k as int);
                }
                return Result::Err(CniError::Config(ConfigFault::BadPlugin));
            }
            let plugin_type = clone_bytes(tv);
            let bytes = crate::json::to_bytes(elem);
            let p = NetworkConfig { plugin_type, bytes, value: Ghost(jval_of(*elem)) };
            proof {
                assert(plugin_of_elem(es_view[k as int]) == Option::Some(p@));
            }
            let ghost pre = plugins@;
            plugins.push(p);
            proof {
                assert forall|t: int| 0 <= t < k + 1 implies plugin_of_elem(es_view[t])
                    == Option::Some((#[trigger] plugins@[t])@) by {
                    if t < k {
                        assert(plugins@[t] == pre[t]);
                    }
                }
            }
            k = k + 1;
        }
        proof {
            lemma_pviews_of(plugins@, 0);
            assert forall|t: int| 0 <= t < es_view.len() implies plugin_of_elem(
                #[trigger] es_view[t],
            ) == Option::Some(pviews_of(plugins@, 0)[t]) by {
                assert(plugin_of_elem(es_view[t]) == Option::Some(plugins@[t]@));
                assert(pviews_of(plugins@, 0)[t] == plugins@[t]@);
            }
            lemma_plugins_of_elems_build(es_view, 0, pviews_of(plugins@, 0));
            lemma_chain_of_doc_wf(datas@);
        }
        Result::Ok(
            NetworkConfigList {
                name,
                cni_version,
                disable_check,
                plugins,
                bytes: clone_bytes(datas),
            },
        )
    }
}

} // verus!
