use rust_cni::api::{CNIConfig, RuntimeConf};
use rust_cni::cni::Libcni;
use rust_cni::conf::ConfigFile;
use rust_cni::errors::{CniError, ConfigFault};
use rust_cni::exec::{resolve_path, ExecArgs, FakeExec, SpawnOutcome};
use rust_cni::json::JsonValue;
use rust_cni::parse::parse_document;

fn env_value(env: &Vec<(String, String)>, key: &str) -> Option<String> {
    for (k, v) in env {
        if k == key {
            return Some(v.clone());
        }
    }
    None
}

fn ok_reply(json: &[u8]) -> SpawnOutcome {
    SpawnOutcome::Completed { stdout: json.to_vec(), stderr: Vec::new(), success: true }
}

fn simple_chain_doc() -> Vec<u8> {
    br#"{"cniVersion":"0.4.0","name":"net1","plugins":[{"type":"bridge","mtu":1500},{"type":"tuning"}]}"#.to_vec()
}

#[test]
fn test_parse_chain_fields() {
    let chain = ConfigFile::config_from_bytes(&simple_chain_doc()).unwrap();
    assert_eq!(chain.name, b"net1".to_vec());
    assert_eq!(chain.cni_version, b"0.4.0".to_vec());
    assert!(!chain.disable_check);
    assert_eq!(chain.plugins.len(), 2);
    assert_eq!(chain.plugins[0].plugin_type, b"bridge".to_vec());
    assert_eq!(chain.plugins[1].plugin_type, b"tuning".to_vec());
}

#[test]
fn test_plugin_bytes_roundtrip() {
    // Round-trip fidelity: the stored plugin bytes reparse to an object whose
    // type is the type decoded the first time, unknown keys kept.
    let chain = ConfigFile::config_from_bytes(&simple_chain_doc()).unwrap();
    let reparsed = parse_document(&chain.plugins[0].bytes).unwrap();
    match reparsed {
        JsonValue::Obj(ms) => {
            let mut saw_type = false;
            let mut saw_mtu = false;
            for (k, v) in &ms {
                if k == &b"type".to_vec() {
                    saw_type = true;
                    match v {
                        JsonValue::Str(t) => assert_eq!(t, &b"bridge".to_vec()),
                        _ => panic!("type is not a string"),
                    }
                }
                if k == &b"mtu".to_vec() {
                    saw_mtu = true;
                }
            }
            assert!(saw_type);
            assert!(saw_mtu, "unknown key dropped");
        },
        _ => panic!("plugin bytes are not an object"),
    }
}

#[test]
fn test_parse_rejects_missing_name() {
    let doc = br#"{"cniVersion":"0.4.0","plugins":[{"type":"bridge"}]}"#.to_vec();
    match ConfigFile::config_from_bytes(&doc) {
        Err(CniError::Config(ConfigFault::MissingName)) => {},
        other => panic!("unexpected: {:?}", other.map(|_| ())),
    }
}

#[test]
fn test_parse_rejects_bad_plugin() {
    let doc = br#"{"cniVersion":"0.4.0","name":"n","plugins":[{"notype":true}]}"#.to_vec();
    match ConfigFile::config_from_bytes(&doc) {
        Err(CniError::Config(ConfigFault::BadPlugin)) => {},
        other => panic!("unexpected: {:?}", other.map(|_| ())),
    }
}

#[test]
fn test_resolve_prefers_first_hit() {
    // The binary exists only under /b: resolution must yield /b/bridge.
    let plugin = b"bridge".to_vec();
    let paths = vec!["/a".to_string(), "/b".to_string()];
    let present = vec![false, true];
    match resolve_path(&plugin, &paths, &present) {
        Ok(p) => assert_eq!(p, b"/b/bridge".to_vec()),
        Err(_) => panic!("not resolved"),
    }
    let nowhere = vec![false, false];
    match resolve_path(&plugin, &paths, &nowhere) {
        Err(CniError::PluginNotFound { plugin: pl }) => assert_eq!(pl, b"bridge".to_vec()),
        _ => panic!("expected PluginNotFound"),
    }
}

fn test_config(fake: FakeExec) -> CNIConfig<FakeExec> {
    CNIConfig {
        path: vec!["/opt/cni/bin".to_string()],
        executor: fake,
        cache_dir: String::new(),
    }
}

fn test_rt(ifname: &str) -> RuntimeConf {
    RuntimeConf {
        container_id: "c1".to_string(),
        net_ns: "/proc/123/ns/net".to_string(),
        if_name: ifname.to_string(),
        args: Vec::new(),
        capability_args: Vec::new(),
        cache_dir: String::new(),
    }
}

#[test]
fn test_add_chain_threads_prev_result() {
    // Two plugins, no failures: exactly two invocations in chain order;
    // the second invocation's stdin carries the first decoded result.
    let chain = ConfigFile::config_from_bytes(&simple_chain_doc()).unwrap();
    let mut fake = FakeExec::new();
    fake.add_binary("/opt/cni/bin".to_string(), b"bridge".to_vec());
    fake.add_binary("/opt/cni/bin".to_string(), b"tuning".to_vec());
    fake.queue_reply(ok_reply(br#"{"ip":"10.0.0.2"}"#));
    fake.queue_reply(ok_reply(br#"{"ip":"10.0.0.2","dns":{}}"#));
    let mut cni = test_config(fake);
    let rt = test_rt("eth0");
    let result = cni.add_network_list(&chain, &rt).unwrap();
    assert_eq!(result.bytes, br#"{"ip":"10.0.0.2","dns":{}}"#.to_vec());
    assert_eq!(cni.executor.log.len(), 2);
    assert_eq!(cni.executor.log[0].call.path, b"/opt/cni/bin/bridge".to_vec());
    assert_eq!(
        cni.executor.log[0].call.stdin,
        br#"{"type":"bridge","mtu":1500,"name":"net1","cniVersion":"0.4.0"}"#.to_vec()
    );
    assert_eq!(cni.executor.log[1].call.path, b"/opt/cni/bin/tuning".to_vec());
    assert_eq!(
        cni.executor.log[1].call.stdin,
        br#"{"type":"tuning","name":"net1","cniVersion":"0.4.0","prevResult":{"ip":"10.0.0.2"}}"#
            .to_vec()
    );
    let env = &cni.executor.log[0].call.env;
    assert_eq!(env_value(env, "CNI_COMMAND").unwrap(), "ADD");
    assert_eq!(env_value(env, "CNI_CONTAINERID").unwrap(), "c1");
    assert_eq!(env_value(env, "CNI_NETNS").unwrap(), "/proc/123/ns/net");
    assert_eq!(env_value(env, "CNI_IFNAME").unwrap(), "eth0");
    assert_eq!(env_value(env, "CNI_PATH").unwrap(), "/opt/cni/bin");
}

#[test]
fn test_add_failure_stops_chain() {
    // The failing plugin aborts the chain at once: later plugins are never
    // invoked, and the protocol error envelope is surfaced.
    let doc = br#"{"cniVersion":"0.4.0","name":"n","plugins":[{"type":"a"},{"type":"b"},{"type":"c"}]}"#.to_vec();
    let chain = ConfigFile::config_from_bytes(&doc).unwrap();
    let mut fake = FakeExec::new();
    fake.add_binary("/opt/cni/bin".to_string(), b"a".to_vec());
    fake.add_binary("/opt/cni/bin".to_string(), b"b".to_vec());
    fake.add_binary("/opt/cni/bin".to_string(), b"c".to_vec());
    fake.queue_reply(ok_reply(br#"{"ip":"10.0.0.2"}"#));
    fake.queue_reply(ok_reply(br#"{"code":7,"msg":"boom"}"#));
    let mut cni = test_config(fake);
    let rt = test_rt("eth0");
    match cni.add_network_list(&chain, &rt) {
        Err(CniError::Execute { message }) => {
            assert_eq!(message, br#"{"code":7,"msg":"boom"}"#.to_vec());
        },
        other => panic!("unexpected: {:?}", other.map(|_| ()).map_err(|_| ())),
    }
    assert_eq!(cni.executor.log.len(), 2, "plugins after the failure were invoked");
}

#[test]
fn test_lo_setup_single_delegate() {
    // addLoopback then setup: exactly one delegate invocation, with
    // CNI_IFNAME=lo, CNI_CONTAINERID=c1 and CNI_NETNS the given path.
    let mut fake = FakeExec::new();
    fake.add_binary("/opt/cni/bin".to_string(), b"loopback".to_vec());
    fake.queue_reply(ok_reply(br#"{"cniVersion":"0.3.1"}"#));
    let mut cni = Libcni::new(fake);
    cni.add_lo_network().unwrap();
    cni.setup("c1".to_string(), "/var/run/netns/testing".to_string()).unwrap();
    assert_eq!(cni.cni.executor.log.len(), 1);
    let call = &cni.cni.executor.log[0].call;
    assert_eq!(env_value(&call.env, "CNI_COMMAND").unwrap(), "ADD");
    assert_eq!(env_value(&call.env, "CNI_IFNAME").unwrap(), "lo");
    assert_eq!(env_value(&call.env, "CNI_CONTAINERID").unwrap(), "c1");
    assert_eq!(env_value(&call.env, "CNI_NETNS").unwrap(), "/var/run/netns/testing");
    assert_eq!(call.path, b"/opt/cni/bin/loopback".to_vec());
    assert_eq!(
        call.stdin,
        br#"{"type":"loopback","name":"cni-loopback","cniVersion":"0.3.1"}"#.to_vec()
    );
}

#[test]
fn test_status_idempotent() {
    let mut cni = Libcni::new(FakeExec::new());
    assert!(cni.status().is_err());
    assert!(cni.status().is_err());
    cni.add_lo_network().unwrap();
    assert!(cni.status().is_ok());
    assert!(cni.status().is_ok());
}

#[test]
fn test_setup_requires_initialization() {
    let mut cni = Libcni::new(FakeExec::new());
    match cni.setup("".to_string(), "/nowhere".to_string()) {
        Err(CniError::NotInitialized) => {},
        _ => panic!("expected NotInitialized"),
    }
}

#[test]
fn test_load_default_conf_end_to_end() {
    // One chain loaded from a directory listing, then setup: one process
    // for type bridge with the auto-assigned interface name and the merged
    // stdin without prevResult.
    let doc = br#"{"cniVersion":"0.4.0","name":"net1","plugins":[{"type":"bridge"}]}"#.to_vec();
    let files = vec![
        ("10-net.conflist".to_string(), doc),
        ("junk.txt".to_string(), b"junk".to_vec()),
    ];
    let mut fake = FakeExec::new();
    fake.add_binary("/opt/cni/bin".to_string(), b"bridge".to_vec());
    fake.queue_reply(ok_reply(br#"{"ip":"10.0.0.9"}"#));
    let mut cni = Libcni::new(fake);
    cni.load_default_conf(&files).unwrap();
    assert_eq!(cni.networks().len(), 1);
    assert_eq!(cni.networks()[0].ifname, "vethcni1");
    assert_eq!(cni.networks()[0].config.name, b"net1".to_vec());
    cni.setup("c1".to_string(), "/proc/123/ns/net".to_string()).unwrap();
    assert_eq!(cni.cni.executor.log.len(), 1);
    let call = &cni.cni.executor.log[0].call;
    assert_eq!(call.path, b"/opt/cni/bin/bridge".to_vec());
    assert_eq!(env_value(&call.env, "CNI_COMMAND").unwrap(), "ADD");
    assert_eq!(env_value(&call.env, "CNI_IFNAME").unwrap(), "vethcni1");
    assert_eq!(
        call.stdin,
        br#"{"type":"bridge","name":"net1","cniVersion":"0.4.0"}"#.to_vec()
    );
}

#[test]
fn test_remove_runs_del() {
    let mut fake = FakeExec::new();
    fake.add_binary("/opt/cni/bin".to_string(), b"loopback".to_vec());
    let mut cni = Libcni::new(fake);
    cni.add_lo_network().unwrap();
    cni.remove("c1".to_string(), "/proc/123/ns/net".to_string()).unwrap();
    assert_eq!(cni.cni.executor.log.len(), 1);
    let call = &cni.cni.executor.log[0].call;
    assert_eq!(env_value(&call.env, "CNI_COMMAND").unwrap(), "DEL");
    assert!(env_value(&call.env, "CNI_ARGS").unwrap().is_empty());
}

#[test]
fn test_env_merge_keeps_inherited() {
    let args = ExecArgs {
        command: "ADD".to_string(),
        containerd_id: "c1".to_string(),
        netns: "/ns".to_string(),
        plugin_args: vec![
            ("IgnoreUnknown".to_string(), "true".to_string()),
            ("K".to_string(), "V".to_string()),
        ],
        ifname: "eth0".to_string(),
        path: "/opt/cni/bin".to_string(),
    };
    let inherited = vec![
        ("HOME".to_string(), "/root".to_string()),
        ("CNI_ARGS".to_string(), "stale".to_string()),
    ];
    let env = args.to_env(&inherited);
    assert_eq!(env_value(&env, "HOME").unwrap(), "/root");
    assert_eq!(env_value(&env, "CNI_ARGS").unwrap(), "IgnoreUnknown=true;K=V");
    assert_eq!(env_value(&env, "CNI_COMMAND").unwrap(), "ADD");
    // The stale inherited CNI_ARGS was replaced, not duplicated.
    let stale = env.iter().filter(|(k, _)| k == "CNI_ARGS").count();
    assert_eq!(stale, 1);
}

#[test]
fn test_timeout_surfaces() {
    let doc = br#"{"cniVersion":"0.4.0","name":"n","plugins":[{"type":"a"}]}"#.to_vec();
    let chain = ConfigFile::config_from_bytes(&doc).unwrap();
    let mut fake = FakeExec::new();
    fake.add_binary("/opt/cni/bin".to_string(), b"a".to_vec());
    fake.queue_reply(SpawnOutcome::TimedOut);
    let mut cni = test_config(fake);
    match cni.add_network_list(&chain, &test_rt("eth0")) {
        Err(CniError::Timeout) => {},
        _ => panic!("expected Timeout"),
    }
}

#[test]
fn test_unparseable_result_is_decode_error() {
    let doc = br#"{"cniVersion":"0.4.0","name":"n","plugins":[{"type":"a"}]}"#.to_vec();
    let chain = ConfigFile::config_from_bytes(&doc).unwrap();
    let mut fake = FakeExec::new();
    fake.add_binary("/opt/cni/bin".to_string(), b"a".to_vec());
    fake.queue_reply(ok_reply(b"not json"));
    let mut cni = test_config(fake);
    match cni.add_network_list(&chain, &test_rt("eth0")) {
        Err(CniError::Decode) => {},
        _ => panic!("expected Decode"),
    }
}

#[test]
fn test_namespace_args_flow_into_cni_args() {
    let mut ns = rust_cni::namespace::Namespace::new("c9".to_string(), "/ns9".to_string());
    ns.add_arg("IgnoreUnknown", "true");
    let rt = ns.config("eth3".to_string());
    assert_eq!(rt.container_id, "c9");
    assert_eq!(rt.net_ns, "/ns9");
    assert_eq!(rt.if_name, "eth3");
    assert_eq!(rt.args.len(), 1);
    assert_eq!(rt.args[0].0, "IgnoreUnknown");
    assert_eq!(ns.get_id(), "c9");
    assert_eq!(ns.get_path(), "/ns9");
}

#[test]
fn test_network_attach_and_check() {
    let doc = br#"{"cniVersion":"0.4.0","name":"n","plugins":[{"type":"a"}]}"#.to_vec();
    let chain = ConfigFile::config_from_bytes(&doc).unwrap();
    let binding = rust_cni::cni::Network { config: chain, ifname: "eth7".to_string() };
    let mut fake = FakeExec::new();
    fake.add_binary("/opt/cni/bin".to_string(), b"a".to_vec());
    fake.queue_reply(ok_reply(br#"{"ip":"10.1.1.1"}"#));
    let mut cni = test_config(fake);
    let ns = rust_cni::namespace::Namespace::new("c2".to_string(), "/ns2".to_string());
    binding.attach(&mut cni, &ns).unwrap();
    assert_eq!(cni.executor.log.len(), 1);
    assert_eq!(env_value(&cni.executor.log[0].call.env, "CNI_IFNAME").unwrap(), "eth7");
    binding.check(&mut cni, &ns).unwrap();
    binding.remove(&mut cni, &ns).unwrap();
    assert_eq!(cni.executor.log.len(), 3);
    assert_eq!(env_value(&cni.executor.log[2].call.env, "CNI_COMMAND").unwrap(), "DEL");
}

#[test]
fn test_disable_check_skips_delegates() {
    let doc =
        br#"{"cniVersion":"0.4.0","name":"n","disableCheck":true,"plugins":[{"type":"a"}]}"#
            .to_vec();
    let chain = ConfigFile::config_from_bytes(&doc).unwrap();
    assert!(chain.disable_check);
    let mut fake = FakeExec::new();
    fake.add_binary("/opt/cni/bin".to_string(), b"a".to_vec());
    let mut cni = test_config(fake);
    let failures = cni.check_network_list(&chain, &test_rt("eth0"));
    assert!(failures.is_empty());
    assert_eq!(cni.executor.log.len(), 0, "disabled chain was checked");
}

#[test]
fn test_check_collects_failures_per_plugin() {
    let doc = br#"{"cniVersion":"0.4.0","name":"n","plugins":[{"type":"a"},{"type":"b"}]}"#
        .to_vec();
    let chain = ConfigFile::config_from_bytes(&doc).unwrap();
    let mut fake = FakeExec::new();
    // Only plugin a resolves; its check succeeds. Plugin b's resolution fails.
    fake.add_binary("/opt/cni/bin".to_string(), b"a".to_vec());
    fake.queue_reply(ok_reply(br#"{}"#));
    let mut cni = test_config(fake);
    let failures = cni.check_network_list(&chain, &test_rt("eth0"));
    assert_eq!(cni.executor.log.len(), 1, "plugin a was still checked");
    assert_eq!(failures.len(), 1);
    match &failures[0] {
        CniError::PluginNotFound { plugin } => assert_eq!(plugin, &b"b".to_vec()),
        other => panic!("unexpected failure: {:?}", other),
    }
}
