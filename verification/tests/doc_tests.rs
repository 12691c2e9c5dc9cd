use clash_guard::ConfigDoc;
use clash_guard::ConfigValue;
use clash_guard::IClashTemp;

fn s(text: &str) -> ConfigValue {
    ConfigValue::Str(text.to_string())
}

#[test]
fn document_insert_and_get() {
    let mut d = ConfigDoc::new();
    assert_eq!(d.len(), 0);
    d.insert("a".to_string(), ConfigValue::Int(1));
    d.insert("b".to_string(), ConfigValue::Int(2));
    assert_eq!(d.get("a"), Some(&ConfigValue::Int(1)));
    assert_eq!(d.get("b"), Some(&ConfigValue::Int(2)));
    assert_eq!(d.get("c"), None);
    d.insert("a".to_string(), ConfigValue::Int(9));
    assert_eq!(d.get("a"), Some(&ConfigValue::Int(9)));
    assert_eq!(d.len(), 2);
    assert_eq!(d.entries[0].0, "a");
    assert!(d.check_wf());
}

#[test]
fn patch_overwrites_only_listed_keys() {
    let mut d = ConfigDoc::new();
    d.insert("mixed-port".to_string(), ConfigValue::Int(7890));
    d.insert("log-level".to_string(), s("info"));
    d.insert("mode".to_string(), s("rule"));
    let mut t = IClashTemp(d);

    let mut patch = ConfigDoc::new();
    patch.insert("log-level".to_string(), s("debug"));
    patch.insert("new-key".to_string(), ConfigValue::Bool(true));
    t.patch_config(patch);

    assert_eq!(t.0.get("mixed-port"), Some(&ConfigValue::Int(7890)));
    assert_eq!(t.0.get("log-level"), Some(&s("debug")));
    assert_eq!(t.0.get("mode"), Some(&s("rule")));
    assert_eq!(t.0.get("new-key"), Some(&ConfigValue::Bool(true)));
    assert_eq!(t.0.len(), 4);
    assert_eq!(t.0.entries[0].0, "mixed-port");
    assert_eq!(t.0.entries[1].0, "log-level");
    assert_eq!(t.0.entries[2].0, "mode");
    assert_eq!(t.0.entries[3].0, "new-key");
}

fn prepare_doc() -> IClashTemp {
    let mut d = ConfigDoc::new();
    d.insert("mixed-port".to_string(), ConfigValue::Int(7890));
    d.insert("external-controller".to_string(), s("192.168.1.1:9090"));
    d.insert("mode".to_string(), s("rule"));
    IClashTemp(d)
}

#[test]
fn prepare_same_port_leaves_document_alone() {
    let mut t = prepare_doc();
    let r = t.prepare_external_controller_port(9090);
    assert_eq!(r, None);
    assert_eq!(t.0, prepare_doc().0);
}

#[test]
fn prepare_new_port_patches_only_controller_key() {
    let mut t = prepare_doc();
    let r = t.prepare_external_controller_port(9091);
    assert_eq!(r, Some("192.168.1.1:9091".to_string()));
    assert_eq!(t.0.get("external-controller"), Some(&s("192.168.1.1:9091")));
    assert_eq!(t.0.get("mixed-port"), Some(&ConfigValue::Int(7890)));
    assert_eq!(t.0.get("mode"), Some(&s("rule")));
    assert_eq!(t.0.len(), 3);
}

#[test]
fn prepare_defaults_without_a_controller_entry() {
    let mut t = IClashTemp(ConfigDoc::new());
    let r = t.prepare_external_controller_port(9090);
    assert_eq!(r, None);
    assert_eq!(t.0.len(), 0);
    let r = t.prepare_external_controller_port(8000);
    assert_eq!(r, Some("127.0.0.1:8000".to_string()));
    assert_eq!(t.0.get("external-controller"), Some(&s("127.0.0.1:8000")));
}

#[test]
fn prepare_keeps_a_bracketed_host_whole() {
    let mut d = ConfigDoc::new();
    d.insert("external-controller".to_string(), s("[::1]:8080"));
    d.insert("mode".to_string(), s("rule"));
    let mut t = IClashTemp(d);

    let r = t.prepare_external_controller_port(8080);
    assert_eq!(r, None);
    assert_eq!(t.0.get("external-controller"), Some(&s("[::1]:8080")));

    let r = t.prepare_external_controller_port(9091);
    assert_eq!(r, Some("[::1]:9091".to_string()));
    assert_eq!(t.0.get("external-controller"), Some(&s("[::1]:9091")));
    assert_eq!(t.0.get("mode"), Some(&s("rule")));
    assert_eq!(t.0.len(), 2);
}

#[test]
fn external_controller_port_reading() {
    let t = IClashTemp(ConfigDoc::new());
    assert_eq!(t.get_external_controller_port(), 9090);

    let mut d = ConfigDoc::new();
    d.insert("external-controller".to_string(), s("1.2.3.4:8080"));
    assert_eq!(IClashTemp(d).get_external_controller_port(), 8080);

    let mut d = ConfigDoc::new();
    d.insert("external-controller".to_string(), s("[::1]:8080"));
    assert_eq!(IClashTemp(d).get_external_controller_port(), 8080);
}

#[test]
fn tun_device_ip() {
    let t = IClashTemp(ConfigDoc::new());
    assert_eq!(t.get_tun_device_ip(), "198.18.0.2");

    let mut inner = ConfigDoc::new();
    inner.insert("fake-ip-range".to_string(), s("198.18.0.1/16"));
    let mut d = ConfigDoc::new();
    d.insert("dns".to_string(), ConfigValue::Mapping(inner));
    assert_eq!(IClashTemp(d).get_tun_device_ip(), "198.18.0.2");

    let mut inner = ConfigDoc::new();
    inner.insert("fake-ip-range".to_string(), s("10.1/16.1/16x"));
    let mut d = ConfigDoc::new();
    d.insert("dns".to_string(), ConfigValue::Mapping(inner));
    assert_eq!(IClashTemp(d).get_tun_device_ip(), "10.2.2x");

    let mut d = ConfigDoc::new();
    d.insert("dns".to_string(), s("not a mapping"));
    assert_eq!(IClashTemp(d).get_tun_device_ip(), "198.18.0.2");

    let mut inner = ConfigDoc::new();
    inner.insert("enable".to_string(), ConfigValue::Bool(true));
    let mut d = ConfigDoc::new();
    d.insert("dns".to_string(), ConfigValue::Mapping(inner));
    assert_eq!(IClashTemp(d).get_tun_device_ip(), "198.18.0.2");

    let mut inner = ConfigDoc::new();
    inner.insert("fake-ip-range".to_string(), ConfigValue::Int(5));
    let mut d = ConfigDoc::new();
    d.insert("dns".to_string(), ConfigValue::Mapping(inner));
    assert_eq!(IClashTemp(d).get_tun_device_ip(), "198.18.0.2");
}

fn to_yaml(v: &ConfigValue) -> serde_yaml::Value {
    match v {
        ConfigValue::Null => serde_yaml::Value::Null,
        ConfigValue::Bool(b) => serde_yaml::Value::Bool(*b),
        ConfigValue::Int(i) => {
            if *i >= 0 {
                serde_yaml::Value::Number(serde_yaml::Number::from(*i as u64))
            } else {
                serde_yaml::Value::Number(serde_yaml::Number::from(*i as i64))
            }
        }
        ConfigValue::Float(t) => {
            serde_yaml::Value::Number(serde_yaml::Number::from(t.parse::<f64>().unwrap()))
        }
        ConfigValue::Str(text) => serde_yaml::Value::String(text.clone()),
        ConfigValue::List(xs) => serde_yaml::Value::Sequence(xs.iter().map(to_yaml).collect()),
        ConfigValue::Mapping(d) => serde_yaml::Value::Mapping(doc_to_yaml(d)),
    }
}

fn doc_to_yaml(d: &ConfigDoc) -> serde_yaml::Mapping {
    let mut m = serde_yaml::Mapping::new();
    for (k, v) in d.entries.iter() {
        m.insert(serde_yaml::Value::String(k.clone()), to_yaml(v));
    }
    m
}

fn from_yaml(v: &serde_yaml::Value) -> ConfigValue {
    match v {
        serde_yaml::Value::Null => ConfigValue::Null,
        serde_yaml::Value::Bool(b) => ConfigValue::Bool(*b),
        serde_yaml::Value::Number(n) => {
            if let Some(u) = n.as_u64() {
                ConfigValue::Int(u as i128)
            } else if let Some(i) = n.as_i64() {
                ConfigValue::Int(i as i128)
            } else {
                ConfigValue::Float(n.to_string())
            }
        }
        serde_yaml::Value::String(text) => ConfigValue::Str(text.clone()),
        serde_yaml::Value::Sequence(xs) => ConfigValue::List(xs.iter().map(from_yaml).collect()),
        serde_yaml::Value::Mapping(m) => ConfigValue::Mapping(yaml_to_doc(m)),
        _ => ConfigValue::Null,
    }
}

fn yaml_to_doc(m: &serde_yaml::Mapping) -> ConfigDoc {
    let mut d = ConfigDoc::new();
    for (k, v) in m.iter() {
        if let serde_yaml::Value::String(key) = k {
            d.insert(key.clone(), from_yaml(v));
        }
    }
    d
}

fn round_trip_base() -> ConfigDoc {
    let mut dns = ConfigDoc::new();
    dns.insert("fake-ip-range".to_string(), s("198.18.0.1/16"));
    dns.insert("enable".to_string(), ConfigValue::Bool(true));
    let mut d = ConfigDoc::new();
    d.insert("mixed-port".to_string(), ConfigValue::Int(65537));
    d.insert("log-level".to_string(), s("debug"));
    d.insert("external-controller".to_string(), s("0.0.0.0:8080  "));
    d.insert("dns".to_string(), ConfigValue::Mapping(dns));
    d.insert(
        "rules".to_string(),
        ConfigValue::List(vec![s("MATCH,DIRECT")]),
    );
    d
}

#[test]
fn save_then_load_leaves_guard_a_noop() {
    let guarded = IClashTemp::guard(round_trip_base());
    let text = serde_yaml::to_string(&doc_to_yaml(&guarded)).unwrap();
    let reread: serde_yaml::Mapping = serde_yaml::from_str(&text).unwrap();
    let loaded = yaml_to_doc(&reread);
    let reguarded = IClashTemp::guard(loaded);
    assert_eq!(reguarded, IClashTemp::guard(round_trip_base()));
    assert_eq!(reguarded.get("mixed-port"), Some(&ConfigValue::Int(1)));
    assert_eq!(
        reguarded.get("external-controller"),
        Some(&s("0.0.0.0:8080"))
    );
    assert_eq!(reguarded.get("log-level"), Some(&s("debug")));
}
