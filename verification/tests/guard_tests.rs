use clash_guard::ClashInfo;
use clash_guard::ConfigDoc;
use clash_guard::ConfigValue;
use clash_guard::IClashTemp;

fn get_case(mp: ConfigValue, ec: ConfigValue) -> ClashInfo {
    let mut map = ConfigDoc::new();
    map.insert("mixed-port".to_string(), mp);
    map.insert("external-controller".to_string(), ec);

    IClashTemp(IClashTemp::guard(map)).get_client_info()
}

fn get_result<S: Into<String>>(port: u16, server: S) -> ClashInfo {
    ClashInfo {
        port,
        server: server.into(),
        secret: None,
    }
}

fn s(text: &str) -> ConfigValue {
    ConfigValue::Str(text.to_string())
}

#[test]
fn test_clash_info() {
    assert_eq!(
        IClashTemp(IClashTemp::guard(ConfigDoc::new())).get_client_info(),
        get_result(7890, "127.0.0.1:9090")
    );

    assert_eq!(get_case(s(""), s("")), get_result(7890, "127.0.0.1:9090"));

    assert_eq!(
        get_case(ConfigValue::Int(65537), s("")),
        get_result(1, "127.0.0.1:9090")
    );

    assert_eq!(
        get_case(ConfigValue::Int(8888), s("127.0.0.1:8888")),
        get_result(8888, "127.0.0.1:8888")
    );

    assert_eq!(
        get_case(ConfigValue::Int(8888), s("   :98888 ")),
        get_result(8888, "127.0.0.1:9090")
    );

    assert_eq!(
        get_case(ConfigValue::Int(8888), s("0.0.0.0:8080  ")),
        get_result(8888, "127.0.0.1:8080")
    );

    assert_eq!(
        get_case(ConfigValue::Int(8888), s("0.0.0.0:8080")),
        get_result(8888, "127.0.0.1:8080")
    );

    assert_eq!(
        get_case(ConfigValue::Int(8888), s("[::]:8080")),
        get_result(8888, "127.0.0.1:8080")
    );

    assert_eq!(
        get_case(ConfigValue::Int(8888), s("192.168.1.1:8080")),
        get_result(8888, "192.168.1.1:8080")
    );

    assert_eq!(
        get_case(ConfigValue::Int(8888), s("192.168.1.1:80800")),
        get_result(8888, "127.0.0.1:9090")
    );
}

#[test]
fn mixed_port_defaults() {
    let empty = ConfigDoc::new();
    assert_eq!(IClashTemp::guard_mixed_port(&empty), 7890);

    let mut d = ConfigDoc::new();
    d.insert("mixed-port".to_string(), s("not a number"));
    assert_eq!(IClashTemp::guard_mixed_port(&d), 7890);

    let mut d = ConfigDoc::new();
    d.insert("mixed-port".to_string(), ConfigValue::Int(0));
    assert_eq!(IClashTemp::guard_mixed_port(&d), 7890);

    let mut d = ConfigDoc::new();
    d.insert("mixed-port".to_string(), s("0"));
    assert_eq!(IClashTemp::guard_mixed_port(&d), 7890);

    let mut d = ConfigDoc::new();
    d.insert("mixed-port".to_string(), ConfigValue::Bool(true));
    assert_eq!(IClashTemp::guard_mixed_port(&d), 7890);

    let mut d = ConfigDoc::new();
    d.insert("mixed-port".to_string(), ConfigValue::Int(-1));
    assert_eq!(IClashTemp::guard_mixed_port(&d), 7890);
}

#[test]
fn mixed_port_truncation_and_passthrough() {
    let mut d = ConfigDoc::new();
    d.insert("mixed-port".to_string(), ConfigValue::Int(65537));
    assert_eq!(IClashTemp::guard_mixed_port(&d), 1);

    let mut d = ConfigDoc::new();
    d.insert("mixed-port".to_string(), ConfigValue::Int(1));
    assert_eq!(IClashTemp::guard_mixed_port(&d), 1);

    let mut d = ConfigDoc::new();
    d.insert("mixed-port".to_string(), ConfigValue::Int(65535));
    assert_eq!(IClashTemp::guard_mixed_port(&d), 65535);

    let mut d = ConfigDoc::new();
    d.insert("mixed-port".to_string(), s("8080"));
    assert_eq!(IClashTemp::guard_mixed_port(&d), 8080);

    let mut d = ConfigDoc::new();
    d.insert("mixed-port".to_string(), s("+123"));
    assert_eq!(IClashTemp::guard_mixed_port(&d), 123);

    let mut d = ConfigDoc::new();
    d.insert("mixed-port".to_string(), s("65537"));
    assert_eq!(IClashTemp::guard_mixed_port(&d), 7890);
}

fn ctrl_case(raw: Option<&str>) -> (String, String) {
    let mut d = ConfigDoc::new();
    if let Some(text) = raw {
        d.insert("external-controller".to_string(), s(text));
    }
    (
        IClashTemp::guard_server_ctrl(&d),
        IClashTemp::guard_client_ctrl(&d),
    )
}

#[test]
fn controller_normalization_table() {
    assert_eq!(
        ctrl_case(None),
        ("127.0.0.1:9090".to_string(), "127.0.0.1:9090".to_string())
    );
    assert_eq!(
        ctrl_case(Some("")),
        ("127.0.0.1:9090".to_string(), "127.0.0.1:9090".to_string())
    );
    assert_eq!(
        ctrl_case(Some(":98888")),
        ("127.0.0.1:9090".to_string(), "127.0.0.1:9090".to_string())
    );
    assert_eq!(
        ctrl_case(Some("0.0.0.0:8080")),
        ("0.0.0.0:8080".to_string(), "127.0.0.1:8080".to_string())
    );
    assert_eq!(
        ctrl_case(Some("[::]:8080")),
        ("[::]:8080".to_string(), "127.0.0.1:8080".to_string())
    );
    assert_eq!(
        ctrl_case(Some("192.168.1.1:8080")),
        (
            "192.168.1.1:8080".to_string(),
            "192.168.1.1:8080".to_string()
        )
    );
    assert_eq!(
        ctrl_case(Some("192.168.1.1:80800")),
        ("127.0.0.1:9090".to_string(), "127.0.0.1:9090".to_string())
    );
}

#[test]
fn controller_port_shorthand_and_trim() {
    assert_eq!(
        ctrl_case(Some(":9872")),
        ("127.0.0.1:9872".to_string(), "127.0.0.1:9872".to_string())
    );
    assert_eq!(
        ctrl_case(Some("\u{a0}1.2.3.4:80\u{a0}\u{2003}")),
        ("1.2.3.4:80".to_string(), "1.2.3.4:80".to_string())
    );
    assert_eq!(
        ctrl_case(Some("  10.0.0.2:80  ")),
        ("10.0.0.2:80".to_string(), "10.0.0.2:80".to_string())
    );
    assert_eq!(
        ctrl_case(Some("1.2.3.4:80 x")),
        ("127.0.0.1:9090".to_string(), "127.0.0.1:9090".to_string())
    );
    assert_eq!(
        ctrl_case(Some("01.2.3.4:80")),
        ("127.0.0.1:9090".to_string(), "127.0.0.1:9090".to_string())
    );
}

#[test]
fn controller_ipv6_canonical_form() {
    assert_eq!(
        ctrl_case(Some("[0:0:0:0:0:0:0:1]:80")),
        ("[::1]:80".to_string(), "[::1]:80".to_string())
    );
    assert_eq!(
        ctrl_case(Some("[2001:DB8::1]:443")),
        ("[2001:db8::1]:443".to_string(), "[2001:db8::1]:443".to_string())
    );
    assert_eq!(
        ctrl_case(Some("[1:0:2:0:0:0:3:4]:80")),
        ("[1:0:2::3:4]:80".to_string(), "[1:0:2::3:4]:80".to_string())
    );
    assert_eq!(
        ctrl_case(Some("[fe80::1]:0")),
        ("[fe80::1]:0".to_string(), "[fe80::1]:0".to_string())
    );
    assert_eq!(
        ctrl_case(Some("[::'::]:80")),
        ("127.0.0.1:9090".to_string(), "127.0.0.1:9090".to_string())
    );
}

#[test]
fn guard_is_idempotent_on_samples() {
    let samples: Vec<(Option<ConfigValue>, Option<ConfigValue>)> = vec![
        (None, None),
        (Some(ConfigValue::Int(65537)), Some(s("[::]:8080"))),
        (Some(s("  77  ")), Some(s("   :98888 "))),
        (Some(ConfigValue::Bool(false)), Some(ConfigValue::Int(3))),
        (Some(s("8080")), Some(s("0.0.0.0:8080  "))),
    ];
    for (mp, ec) in samples {
        let build = |mp: &Option<ConfigValue>, ec: &Option<ConfigValue>| {
            let mut d = ConfigDoc::new();
            if let Some(v) = mp {
                d.insert("mixed-port".to_string(), copy_value(v));
            }
            if let Some(v) = ec {
                d.insert("external-controller".to_string(), copy_value(v));
            }
            d
        };
        let once = IClashTemp::guard(build(&mp, &ec));
        let again = IClashTemp::guard(build(&mp, &ec));
        let twice = IClashTemp::guard(again);
        assert_eq!(once, twice);
    }
}

fn copy_value(v: &ConfigValue) -> ConfigValue {
    match v {
        ConfigValue::Null => ConfigValue::Null,
        ConfigValue::Bool(b) => ConfigValue::Bool(*b),
        ConfigValue::Int(i) => ConfigValue::Int(*i),
        ConfigValue::Float(t) => ConfigValue::Float(t.clone()),
        ConfigValue::Str(t) => ConfigValue::Str(t.clone()),
        ConfigValue::List(xs) => ConfigValue::List(xs.iter().map(copy_value).collect()),
        ConfigValue::Mapping(d) => {
            let mut out = ConfigDoc::new();
            for (k, val) in d.entries.iter() {
                out.insert(k.clone(), copy_value(val));
            }
            ConfigValue::Mapping(out)
        }
    }
}

#[test]
fn template_shape() {
    let t = IClashTemp::template();
    assert_eq!(t.0.entries.len(), 9);
    assert_eq!(t.0.get("mixed-port"), Some(&ConfigValue::Int(7890)));
    assert_eq!(t.0.get("log-level"), Some(&ConfigValue::Str("info".to_string())));
    assert_eq!(t.0.get("allow-lan"), Some(&ConfigValue::Bool(false)));
    assert_eq!(t.0.get("mode"), Some(&ConfigValue::Str("rule".to_string())));
    assert_eq!(
        t.0.get("external-controller"),
        Some(&ConfigValue::Str("127.0.0.1:17650".to_string()))
    );
    assert_eq!(t.0.get("unified-delay"), Some(&ConfigValue::Bool(true)));
    assert_eq!(t.0.get("tcp-concurrent"), Some(&ConfigValue::Bool(true)));
    assert_eq!(t.0.get("ipv6"), Some(&ConfigValue::Bool(false)));
    match t.0.get("secret") {
        Some(ConfigValue::Str(sec)) => {
            assert_eq!(sec.chars().count(), 36);
            for (i, c) in sec.chars().enumerate() {
                if i == 8 || i == 13 || i == 18 || i == 23 {
                    assert_eq!(c, '-');
                } else {
                    assert!(c.is_ascii_hexdigit() && !c.is_ascii_uppercase());
                }
            }
        }
        other => panic!("secret missing or not a string: {:?}", other),
    }
    let info = t.get_client_info();
    assert_eq!(info.port, 7890);
    assert_eq!(info.server, "127.0.0.1:17650");
    assert!(info.secret.is_some());
}

#[test]
fn template_secrets_differ() {
    let a = IClashTemp::template();
    let b = IClashTemp::template();
    assert_ne!(a.0.get("secret"), b.0.get("secret"));
}

#[test]
fn new_guards_loaded_documents() {
    let mut d = ConfigDoc::new();
    d.insert("mixed-port".to_string(), ConfigValue::Int(65537));
    d.insert("external-controller".to_string(), s("0.0.0.0:8080"));
    let t = IClashTemp::new(Some(d));
    assert_eq!(t.0.get("mixed-port"), Some(&ConfigValue::Int(1)));
    assert_eq!(
        t.0.get("external-controller"),
        Some(&ConfigValue::Str("0.0.0.0:8080".to_string()))
    );

    let fallback = IClashTemp::new(None);
    assert_eq!(fallback.0.entries.len(), 9);
    assert_eq!(fallback.get_mixed_port(), 7890);
}

#[test]
fn secret_coercions() {
    let mut d = ConfigDoc::new();
    d.insert("secret".to_string(), ConfigValue::Bool(true));
    assert_eq!(
        IClashTemp(d).get_client_info().secret,
        Some("true".to_string())
    );

    let mut d = ConfigDoc::new();
    d.insert("secret".to_string(), ConfigValue::Int(-57));
    assert_eq!(
        IClashTemp(d).get_client_info().secret,
        Some("-57".to_string())
    );

    let mut d = ConfigDoc::new();
    d.insert("secret".to_string(), ConfigValue::Float("6.5".to_string()));
    assert_eq!(
        IClashTemp(d).get_client_info().secret,
        Some("6.5".to_string())
    );

    let mut d = ConfigDoc::new();
    d.insert("secret".to_string(), ConfigValue::Null);
    assert_eq!(IClashTemp(d).get_client_info().secret, None);
}
