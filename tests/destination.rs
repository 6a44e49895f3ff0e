use conduit::dest::{
    add_port_to_hostname, get_ip_with_port, host_header, resolve_after_srv,
    resolve_after_well_known, resolve_start, FedDest, IpAddress, ResolveStep, SocketAddress,
};

fn v4(a: u8, b: u8, c: u8, d: u8, port: u16) -> FedDest {
    FedDest::Literal(SocketAddress { ip: IpAddress::V4([a, b, c, d]), port })
}

fn v6(groups: [u16; 8], port: u16) -> FedDest {
    FedDest::Literal(SocketAddress { ip: IpAddress::V6(groups), port })
}

fn named(host: &str, port: &str) -> FedDest {
    FedDest::Named(String::from(host), String::from(port))
}

#[test]
fn ips_get_default_ports() {
    assert_eq!(get_ip_with_port("1.1.1.1"), Some(v4(1, 1, 1, 1, 8448)));
    assert_eq!(
        get_ip_with_port("dead:beef::"),
        Some(v6([0xdead, 0xbeef, 0, 0, 0, 0, 0, 0], 8448))
    );
}

#[test]
fn ips_keep_custom_ports() {
    assert_eq!(get_ip_with_port("1.1.1.1:1234"), Some(v4(1, 1, 1, 1, 1234)));
    assert_eq!(
        get_ip_with_port("[dead::beef]:8933"),
        Some(v6([0xdead, 0, 0, 0, 0, 0, 0, 0xbeef], 8933))
    );
}

#[test]
fn hostnames_get_default_ports() {
    assert_eq!(
        add_port_to_hostname("example.com"),
        FedDest::Named(String::from("example.com"), String::from(":8448"))
    )
}

#[test]
fn hostnames_keep_custom_ports() {
    assert_eq!(
        add_port_to_hostname("example.com:1337"),
        FedDest::Named(String::from("example.com"), String::from(":1337"))
    )
}

#[test]
fn names_are_not_ip_literals() {
    assert_eq!(get_ip_with_port("example.com"), None);
    assert_eq!(get_ip_with_port("example.com:8448"), None);
    assert_eq!(get_ip_with_port("01.1.1.1"), None);
    assert_eq!(get_ip_with_port("256.1.1.1"), None);
    assert_eq!(get_ip_with_port("1.1.1.1:70000"), None);
    assert_eq!(get_ip_with_port(""), None);
    assert_eq!(get_ip_with_port("1:2:3"), None);
}

#[test]
fn full_ipv6_and_bracketed_ports() {
    assert_eq!(
        get_ip_with_port("1:2:3:4:5:6:7:8"),
        Some(v6([1, 2, 3, 4, 5, 6, 7, 8], 8448))
    );
    assert_eq!(get_ip_with_port("[::1]:443"), Some(v6([0, 0, 0, 0, 0, 0, 0, 1], 443)));
    assert_eq!(get_ip_with_port("10.0.0.255:0080"), Some(v4(10, 0, 0, 255, 80)));
}

#[test]
fn destination_texts() {
    assert_eq!(v4(1, 2, 3, 4, 8448).into_https_string(), "https://1.2.3.4:8448");
    assert_eq!(v4(1, 2, 3, 4, 8448).into_uri_string(), "1.2.3.4:8448");
    assert_eq!(named("example.com", ":8448").into_https_string(), "https://example.com:8448");
    assert_eq!(
        v6([0xdead, 0xbeef, 0, 0, 0, 0, 0, 1], 443).into_uri_string(),
        "[dead:beef::1]:443"
    );
    assert_eq!(v4(9, 8, 7, 6, 1).hostname(), "9.8.7.6");
    assert_eq!(named("example.com", ":1").hostname(), "example.com");
}

#[test]
fn destination_ports() {
    assert_eq!(v4(1, 2, 3, 4, 1234).port(), Some(1234));
    assert_eq!(named("example.com", ":8448").port(), Some(8448));
    assert_eq!(named("example.com", ":+443").port(), Some(443));
    assert_eq!(named("example.com", "").port(), None);
    assert_eq!(named("example.com", ":x").port(), None);
    assert_eq!(named("example.com", ":65536").port(), None);
}

#[test]
fn resolution_of_literals_and_ports() {
    assert_eq!(
        resolve_start("1.1.1.1"),
        ResolveStep::Resolved { destination: v4(1, 1, 1, 1, 8448), host: named("1.1.1.1", ":8448") }
    );
    assert_eq!(
        resolve_start("1.1.1.1:1234"),
        ResolveStep::Resolved { destination: v4(1, 1, 1, 1, 1234), host: v4(1, 1, 1, 1, 1234) }
    );
    assert_eq!(
        resolve_start("example.com:1337"),
        ResolveStep::Resolved {
            destination: named("example.com", ":1337"),
            host: named("example.com", ":1337")
        }
    );
    assert_eq!(resolve_start("example.com"), ResolveStep::FetchWellKnown);
}

#[test]
fn resolution_through_well_known() {
    assert_eq!(
        resolve_after_well_known("example.com", None),
        ResolveStep::QuerySrv {
            srv_name: String::from("example.com"),
            hostname: String::from("example.com")
        }
    );
    assert_eq!(
        resolve_after_well_known(
            "example.com",
            Some(String::from("{\"m.server\": \"matrix.example.com:443\"}"))
        ),
        ResolveStep::Resolved {
            destination: named("matrix.example.com", ":443"),
            host: named("matrix.example.com", ":443")
        }
    );
    assert_eq!(
        resolve_after_well_known("example.com", Some(String::from("{\"m.server\": \"5.6.7.8\"}"))),
        ResolveStep::Resolved { destination: v4(5, 6, 7, 8, 8448), host: v4(5, 6, 7, 8, 8448) }
    );
    assert_eq!(
        resolve_after_well_known(
            "example.com",
            Some(String::from("{\"m.server\": \"matrix.example.com\"}"))
        ),
        ResolveStep::QuerySrv {
            srv_name: String::from("matrix.example.com"),
            hostname: String::from("matrix.example.com:8448")
        }
    );
    assert_eq!(
        resolve_after_well_known("example.com", Some(String::from("not json"))),
        ResolveStep::QuerySrv {
            srv_name: String::from("example.com"),
            hostname: String::from("example.com")
        }
    );
}

#[test]
fn resolution_through_srv() {
    let with_srv = resolve_after_srv("matrix.example.com", "matrix.example.com:8448", Some(443));
    assert_eq!(with_srv.destination, named("matrix.example.com", ":443"));
    assert_eq!(with_srv.host, named("matrix.example.com", ":8448"));
    assert_eq!(with_srv.tls_override, Some((String::from("matrix.example.com"), 443)));

    let without = resolve_after_srv("example.com", "example.com", None);
    assert_eq!(without.destination, named("example.com", ":8448"));
    assert_eq!(without.host, named("example.com", ":8448"));
    assert_eq!(without.tls_override, None);
}

#[test]
fn host_headers() {
    assert_eq!(host_header("1.2.3.4"), named("1.2.3.4", ":8448"));
    assert_eq!(host_header("1.2.3.4:99"), v4(1, 2, 3, 4, 99));
    assert_eq!(host_header("example.com"), named("example.com", ":8448"));
    assert_eq!(host_header("example.com:99"), named("example.com", ":99"));
}

#[test]
fn ipv6_with_dotted_tail() {
    assert_eq!(get_ip_with_port("::1.2.3.4"), Some(v6([0, 0, 0, 0, 0, 0, 0x0102, 0x0304], 8448)));
    assert_eq!(
        get_ip_with_port("[::ffff:1.2.3.4]:8448"),
        Some(v6([0, 0, 0, 0, 0, 0xffff, 0x0102, 0x0304], 8448))
    );
    assert_eq!(
        get_ip_with_port("1:2:3:4:5:6:10.0.0.1"),
        Some(v6([1, 2, 3, 4, 5, 6, 0x0a00, 0x0001], 8448))
    );
    assert_eq!(get_ip_with_port("::1.2.3"), None);
    assert_eq!(get_ip_with_port("1.2.3.4::"), None);
    assert_eq!(get_ip_with_port("::1.2.3.4:5"), None);
    assert_eq!(get_ip_with_port("1:2:3:4:5:6:7:1.2.3.4"), None);
}

#[test]
fn ipv6_written_as_std_writes_it() {
    assert_eq!(v6([0; 8], 1).hostname(), "::");
    assert_eq!(v6([0, 0, 0, 0, 0, 0, 0, 1], 1).hostname(), "::1");
    assert_eq!(v6([0, 0, 0, 0, 0, 0xffff, 0x0102, 0x0304], 1).hostname(), "::ffff:1.2.3.4");
    assert_eq!(v6([1, 0, 0, 2, 0, 0, 0, 3], 1).hostname(), "1:0:0:2::3");
    assert_eq!(v6([1, 0, 0, 2, 0, 0, 3, 4], 1).hostname(), "1::2:0:0:3:4");
    assert_eq!(v6([1, 0, 2, 3, 4, 5, 6, 7], 1).hostname(), "1:0:2:3:4:5:6:7");
    assert_eq!(v6([0x2001, 0xdb8, 0, 0, 0, 0, 0, 0], 443).into_uri_string(), "[2001:db8::]:443");
}
