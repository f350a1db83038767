use tcp_auth_proxy::allow_set::AllowSet;
use tcp_auth_proxy::config::{
    parse_config, parse_destination, parse_port, push_decimal, split_fields, ConfigError,
    IDLE_TIMEOUT_SECS,
};
use tcp_auth_proxy::control::{authorize, list};
use tcp_auth_proxy::session::{on_accept, step, Action, Event, Phase};

fn ip(s: &str) -> String {
    s.to_string()
}

fn sorted(mut v: Vec<String>) -> Vec<String> {
    v.sort();
    v
}

#[test]
fn new_allow_set_is_empty() {
    let set = AllowSet::new();
    assert_eq!(set.len(), 0);
    assert!(!set.contains(&ip("10.0.0.1")));
    assert!(list(&set).is_empty());
}

#[test]
fn authorize_adds_caller_and_confirms() {
    let mut set = AllowSet::new();
    let text = authorize(&mut set, ip("192.168.1.7"));
    assert_eq!(text, "OK: IP 192.168.1.7 已授权");
    assert!(set.contains(&ip("192.168.1.7")));
    assert!(!set.contains(&ip("192.168.1.8")));
}

#[test]
fn authorize_ipv6_caller() {
    let mut set = AllowSet::new();
    let text = authorize(&mut set, ip("::1"));
    assert_eq!(text, "OK: IP ::1 已授权");
    assert!(set.contains(&ip("::1")));
}

#[test]
fn authorize_twice_keeps_size() {
    let mut once = AllowSet::new();
    authorize(&mut once, ip("1.2.3.4"));
    let mut twice = AllowSet::new();
    authorize(&mut twice, ip("1.2.3.4"));
    let second = authorize(&mut twice, ip("1.2.3.4"));
    assert_eq!(second, "OK: IP 1.2.3.4 已授权");
    assert_eq!(once.len(), 1);
    assert_eq!(twice.len(), once.len());
    assert_eq!(list(&twice), vec![ip("1.2.3.4")]);
}

#[test]
fn list_is_independent_of_call_order() {
    let mut ab = AllowSet::new();
    authorize(&mut ab, ip("10.0.0.1"));
    authorize(&mut ab, ip("10.0.0.2"));
    let mut ba = AllowSet::new();
    authorize(&mut ba, ip("10.0.0.2"));
    authorize(&mut ba, ip("10.0.0.1"));
    let expected = vec![ip("10.0.0.1"), ip("10.0.0.2")];
    assert_eq!(sorted(list(&ab)), expected);
    assert_eq!(sorted(list(&ba)), expected);
}

#[test]
fn many_distinct_callers_all_listed() {
    let mut set = AllowSet::new();
    let mut expected = Vec::new();
    for i in 0..50u32 {
        let a = format!("10.1.{}.{}", i / 10, i % 10);
        authorize(&mut set, a.clone());
        expected.push(a);
    }
    assert_eq!(set.len(), 50);
    assert_eq!(sorted(list(&set)), sorted(expected));
}

#[test]
fn unauthorized_peer_is_closed_silently() {
    let mut set = AllowSet::new();
    authorize(&mut set, ip("10.0.0.1"));
    let (phase, action) = on_accept(&set, &ip("10.0.0.9"));
    assert_eq!(phase, Phase::Closed);
    assert_eq!(action, Action::Close);
    assert_eq!(step(phase, Event::Connected), (Phase::Closed, Action::Idle));
    assert_eq!(step(phase, Event::Admission { allowed: true }), (Phase::Closed, Action::Idle));
}

#[test]
fn empty_allow_set_admits_nobody() {
    let set = AllowSet::new();
    assert_eq!(on_accept(&set, &ip("127.0.0.1")), (Phase::Closed, Action::Close));
}

#[test]
fn authorized_peer_is_connected_and_forwarded() {
    let mut set = AllowSet::new();
    authorize(&mut set, ip("10.0.0.1"));
    let (phase, action) = on_accept(&set, &ip("10.0.0.1"));
    assert_eq!((phase, action), (Phase::Connecting, Action::Connect));
    let (phase, action) = step(phase, Event::Connected);
    assert_eq!((phase, action), (Phase::Forwarding, Action::Forward));
    assert_eq!(step(phase, Event::Finished), (Phase::Closed, Action::Close));
    assert_eq!(step(phase, Event::Failed), (Phase::Closed, Action::Close));
}

#[test]
fn unreachable_destination_closes_inbound() {
    let (phase, action) = step(Phase::Connecting, Event::ConnectFailed);
    assert_eq!((phase, action), (Phase::Closed, Action::Close));
    assert_eq!(step(phase, Event::Connected), (Phase::Closed, Action::Idle));
}

#[test]
fn deadline_closes_forwarding_session() {
    assert_eq!(step(Phase::Forwarding, Event::TimedOut), (Phase::Closed, Action::Close));
    assert_eq!(step(Phase::Connecting, Event::TimedOut), (Phase::Connecting, Action::Idle));
}

#[test]
fn split_keeps_empty_fields() {
    assert_eq!(split_fields("a--b"), vec![ip("a"), ip(""), ip("b")]);
    assert_eq!(split_fields(""), vec![ip("")]);
    assert_eq!(split_fields("-"), vec![ip(""), ip("")]);
    assert_eq!(split_fields("8080-key-9000-22"), vec![ip("8080"), ip("key"), ip("9000"), ip("22")]);
}

#[test]
fn port_parsing_follows_decimal_rules() {
    assert_eq!(parse_port("0"), Some(0));
    assert_eq!(parse_port("8080"), Some(8080));
    assert_eq!(parse_port("+22"), Some(22));
    assert_eq!(parse_port("0080"), Some(80));
    assert_eq!(parse_port("65535"), Some(65535));
    assert_eq!(parse_port("65536"), None);
    assert_eq!(parse_port("999999"), None);
    assert_eq!(parse_port(""), None);
    assert_eq!(parse_port("+"), None);
    assert_eq!(parse_port("12a"), None);
    assert_eq!(parse_port(" 1"), None);
}

#[test]
fn decimal_rendering() {
    let mut s = String::from("p=");
    push_decimal(&mut s, 0);
    assert_eq!(s, "p=0");
    let mut s = String::new();
    push_decimal(&mut s, 65535);
    assert_eq!(s, "65535");
    let mut s = String::new();
    push_decimal(&mut s, 100);
    assert_eq!(s, "100");
}

#[test]
fn destination_forms() {
    assert_eq!(parse_destination("22"), Some(ip("127.0.0.1:22")));
    assert_eq!(parse_destination("0080"), Some(ip("127.0.0.1:80")));
    assert_eq!(parse_destination("10.0.0.5:3306"), Some(ip("10.0.0.5:3306")));
    assert_eq!(parse_destination("example.org:443"), Some(ip("example.org:443")));
    assert_eq!(parse_destination("ssh"), None);
    assert_eq!(parse_destination("70000"), None);
}

#[test]
fn parse_config_with_bare_port() {
    let c = parse_config("8080-s3cret-9000-22").unwrap();
    assert_eq!(c.control_port, 8080);
    assert_eq!(c.secret, "s3cret");
    assert_eq!(c.listen_port, 9000);
    assert_eq!(c.destination, "127.0.0.1:22");
    assert_eq!(c.idle_timeout_secs, Some(IDLE_TIMEOUT_SECS));
    assert_eq!(IDLE_TIMEOUT_SECS, 300);
}

#[test]
fn parse_config_with_host_and_port() {
    let c = parse_config("80-key-443-10.0.0.2:8443").unwrap();
    assert_eq!(c.control_port, 80);
    assert_eq!(c.secret, "key");
    assert_eq!(c.listen_port, 443);
    assert_eq!(c.destination, "10.0.0.2:8443");
}

#[test]
fn parse_config_ignores_extra_fields() {
    let c = parse_config("1-k-2-3-extra").unwrap();
    assert_eq!((c.control_port, c.listen_port), (1, 2));
    assert_eq!(c.destination, "127.0.0.1:3");
}

#[test]
fn parse_config_errors() {
    assert_eq!(parse_config("").err(), Some(ConfigError::TooFewFields));
    assert_eq!(parse_config("8080-key-9000").err(), Some(ConfigError::TooFewFields));
    assert_eq!(parse_config("http-key-9000-22").err(), Some(ConfigError::InvalidControlPort));
    assert_eq!(parse_config("8080-key-99999-22").err(), Some(ConfigError::InvalidListenPort));
    assert_eq!(parse_config("8080-key-9000-ssh").err(), Some(ConfigError::InvalidDestination));
    assert_eq!(parse_config("x-key-y-z").err(), Some(ConfigError::InvalidControlPort));
}
