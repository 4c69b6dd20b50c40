use t2_bus::cli::{
    parse_bus_addr_exec, parse_config_text, payload_kind, raw_payload_text, register, resolve_addr,
    serialize_config, unregister, validate_bus_addr, validate_bus_addr_name, AddrKind, Commands,
    PayloadKind, ResolvedBusAddr,
};

#[test]
fn address_names() {
    assert_eq!(validate_bus_addr_name("my_bus"), Ok("my_bus".to_string()));
    for bad in ["", "Bus", "bus1", "my-bus", "a b"] {
        assert_eq!(
            validate_bus_addr_name(bad),
            Err("Invalid bus address name, must contain only lowercase and underscore.".to_string())
        );
    }
}

#[test]
fn addresses() {
    assert_eq!(validate_bus_addr("tcp:127.0.0.1:4242"), Ok("tcp:127.0.0.1:4242".to_string()));
    assert_eq!(validate_bus_addr("unix:.t2"), Ok("unix:.t2".to_string()));
    assert_eq!(validate_bus_addr("name:home"), Ok("name:home".to_string()));
    let err = Err("Invalid bus address. Must be in the format of (tcp|unix|name):<address or name>".to_string());
    for bad in ["tcp:", "udp:x", "tcp", "unix:a\nb", "Tcp:x"] {
        assert_eq!(validate_bus_addr(bad), err);
    }
    assert_eq!(parse_bus_addr_exec("unix:/tmp/bus"), Some((AddrKind::Unix, "/tmp/bus".to_string())));
}

#[test]
fn resolving_addresses() {
    let config = vec![
        ("home".to_string(), ResolvedBusAddr::Unix("/tmp/home".into())),
        ("work".to_string(), ResolvedBusAddr::Tcp("10.0.0.1:4242".into())),
    ];
    assert_eq!(resolve_addr(&Some("tcp:1.2.3.4:5".into()), &config), Ok(ResolvedBusAddr::Tcp("1.2.3.4:5".into())));
    assert_eq!(resolve_addr(&Some("unix:.t2".into()), &config), Ok(ResolvedBusAddr::Unix(".t2".into())));
    assert_eq!(resolve_addr(&Some("name:work".into()), &config), Ok(ResolvedBusAddr::Tcp("10.0.0.1:4242".into())));
    assert_eq!(resolve_addr(&Some("name:nope".into()), &config), Err("Address not found in config".into()));
    assert_eq!(resolve_addr(&None, &config), Ok(ResolvedBusAddr::Unix("/tmp/home".into())));
    assert_eq!(
        resolve_addr(&None, &vec![]),
        Err("No default address found in config. Use the register command to add one or specify an address".into())
    );
}

#[test]
fn config_text() {
    let text = "home unix:/tmp/home\nwork tcp:10.0.0.1:4242\ngarbage\nodd name tcp:x y\nlast tcp:unterminated";
    let config = parse_config_text(text);
    assert_eq!(
        config,
        vec![
            ("home".to_string(), ResolvedBusAddr::Unix("/tmp/home".into())),
            ("work".to_string(), ResolvedBusAddr::Tcp("10.0.0.1:4242".into())),
            ("odd name".to_string(), ResolvedBusAddr::Tcp("x y".into())),
        ]
    );
    assert_eq!(parse_config_text(""), vec![]);
}

#[test]
fn config_round_trip() {
    let config = vec![
        ("home".to_string(), ResolvedBusAddr::Unix("/tmp/home".into())),
        ("work".to_string(), ResolvedBusAddr::Tcp("10.0.0.1:4242".into())),
    ];
    let text = serialize_config(&config);
    assert_eq!(text, "home unix:/tmp/home\nwork tcp:10.0.0.1:4242\n");
    assert_eq!(parse_config_text(&text), config);
}

#[test]
fn register_and_unregister() {
    let config = vec![
        ("home".to_string(), ResolvedBusAddr::Unix("/tmp/home".into())),
        ("work".to_string(), ResolvedBusAddr::Tcp("w".into())),
    ];
    let c2 = register(config.clone(), "work".into(), ResolvedBusAddr::Tcp("w2".into()), true);
    assert_eq!(
        c2,
        vec![
            ("work".to_string(), ResolvedBusAddr::Tcp("w2".into())),
            ("home".to_string(), ResolvedBusAddr::Unix("/tmp/home".into())),
        ]
    );
    let c3 = register(config.clone(), "lab".into(), ResolvedBusAddr::Unix("l".into()), false);
    assert_eq!(c3.len(), 3);
    assert_eq!(c3[2], ("lab".to_string(), ResolvedBusAddr::Unix("l".into())));
    assert_eq!(resolve_addr(&Some("name:lab".into()), &c3), Ok(ResolvedBusAddr::Unix("l".into())));
    assert_eq!(unregister(config, &"home".to_string()), vec![("work".to_string(), ResolvedBusAddr::Tcp("w".into()))]);
}

#[test]
fn address_text() {
    assert_eq!(ResolvedBusAddr::Tcp("a:1".into()).to_string(), "tcp:a:1");
    assert_eq!(ResolvedBusAddr::Unix("/p".into()).to_string(), "unix:/p");
}

#[test]
fn command_validation() {
    let cmd = Commands::Pub { topic: "f32/x".into(), value: "1.5".into(), addr: None };
    assert_eq!(cmd.validate(true), Ok(()));
    assert_eq!(
        cmd.validate(false),
        Err("When the topic starts with f32/ then the value must be a valid f32".to_string())
    );
    let cmd = Commands::Pub { topic: "string/x".into(), value: "hi".into(), addr: None };
    assert_eq!(cmd.validate(false), Ok(()));
    let cmd = Commands::Pub { topic: "bytes/x".into(), value: "hi".into(), addr: None };
    assert_eq!(cmd.validate(true), Err("Unknown protocol".to_string()));
    let cmd = Commands::Sub { topic: "anything".into(), addr: None };
    assert_eq!(cmd.validate(false), Ok(()));
}

#[test]
fn payload_rendering() {
    assert_eq!(payload_kind("f32/temp"), PayloadKind::F32);
    assert_eq!(payload_kind("string/name"), PayloadKind::Text);
    assert_eq!(payload_kind("other"), PayloadKind::Raw);
    assert_eq!(raw_payload_text(&[0x00, 0xab, 0x1f]), "0x00ab1f");
    assert_eq!(raw_payload_text(&[]), "0x");
}
