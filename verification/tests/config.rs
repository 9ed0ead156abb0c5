use wasm_dispatch::protocol::config::parse_port;
use wasm_dispatch::protocol::{Config, Environment, Wifi};

#[test]
fn an_empty_environment_gives_the_defaults() {
    let config = Config::new(&Environment::default());
    assert_eq!(
        config,
        Config { host: "localhost".into(), dispatcher_port: 3000, inspector_port: 3030, wifi: None }
    );
    assert_eq!(config, Config::default());
}

#[test]
fn the_environment_overrides_the_defaults() {
    let env = Environment {
        host: Some("10.1.2.3".into()),
        port: Some("4000".into()),
        web_port: Some("bad".into()),
        inspector_port: Some("+4040".into()),
        wifi_ssid: Some("net".into()),
        wifi_password: Some("secret".into()),
    };
    assert_eq!(
        Config::new(&env),
        Config {
            host: "10.1.2.3".into(),
            dispatcher_port: 4000,
            inspector_port: 4040,
            wifi: Some(Wifi { ssid: "net".into(), password: "secret".into() }),
        }
    );
    let env = Environment {
        web_port: Some("5000".into()),
        inspector_port: Some("6000".into()),
        wifi_ssid: Some("net".into()),
        ..Environment::default()
    };
    let config = Config::new(&env);
    assert_eq!(config.inspector_port, 5000);
    assert_eq!(config.wifi, None);
}

#[test]
fn ports_are_read_as_the_standard_library_reads_them() {
    for text in [
        "0", "1", "65535", "65536", "065535", "0000000000000000000000080", "+0", "+", "", " 80", "80 ",
        "-1", "8_0", "٣", "99999999999999999999999", "70000", "+65535", "++1", "1+",
    ] {
        assert_eq!(parse_port(text), text.parse::<u16>().ok(), "{:?}", text);
    }
}
