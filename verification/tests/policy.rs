use cybersentinel::config::{HostPolicy, ReassemblyConfig};
use cybersentinel::net::{IpAddr, IpNetwork};
use cybersentinel::reassembly::policy::PolicyResolver;
use cybersentinel::reassembly::OverlapPolicy;
use cybersentinel::reassembly::OverlapPolicy::{First, Last};

fn ip(text: &str) -> IpAddr {
    IpAddr::parse(text).unwrap()
}

fn network(text: &str) -> IpNetwork {
    match text.split_once('/') {
        Some((address, prefix)) => {
            IpNetwork::new(ip(address), prefix.parse().unwrap()).unwrap()
        }
        None => IpNetwork::host(ip(text)),
    }
}

fn entry(text: &str, policy: OverlapPolicy) -> HostPolicy {
    HostPolicy {
        network: network(text),
        policy,
    }
}

#[test]
fn falls_back_to_the_default_when_nothing_matches() {
    let resolver = PolicyResolver::new(First, &[entry("10.0.0.0/8", Last)]);
    assert_eq!(resolver.for_destination(ip("192.0.2.1")), First);
    assert_eq!(resolver.for_destination(ip("10.1.2.3")), Last);
}

#[test]
fn the_longest_prefix_wins_regardless_of_file_order() {
    // The specific host is listed last, and must still win.
    let resolver = PolicyResolver::new(
        First,
        &[entry("10.0.0.0/8", First), entry("10.1.2.3/32", Last)],
    );
    assert_eq!(resolver.for_destination(ip("10.1.2.3")), Last);
    assert_eq!(resolver.for_destination(ip("10.1.2.4")), First);

    // ... and the same the other way round.
    let resolver = PolicyResolver::new(
        First,
        &[entry("10.1.2.3/32", Last), entry("10.0.0.0/8", First)],
    );
    assert_eq!(resolver.for_destination(ip("10.1.2.3")), Last);
}

#[test]
fn a_bare_address_is_a_host_override() {
    let resolver = PolicyResolver::new(First, &[entry("192.0.2.10", Last)]);
    assert_eq!(resolver.for_destination(ip("192.0.2.10")), Last);
    assert_eq!(resolver.for_destination(ip("192.0.2.11")), First);
}

#[test]
fn ipv6_overrides_work_and_do_not_affect_ipv4() {
    let resolver = PolicyResolver::new(First, &[entry("2001:db8::/32", Last)]);
    assert_eq!(resolver.for_destination(ip("2001:db8::5")), Last);
    assert_eq!(resolver.for_destination(ip("10.0.0.1")), First);
}

#[test]
fn a_zero_prefix_override_covers_its_whole_family() {
    let resolver = PolicyResolver::new(First, &[entry("0.0.0.0/0", Last)]);
    assert_eq!(resolver.for_destination(ip("8.8.8.8")), Last);
    assert_eq!(
        resolver.for_destination(ip("2001:db8::1")),
        First,
        "an IPv4 catch-all must not swallow IPv6"
    );
}

#[test]
fn an_empty_table_is_just_the_default() {
    let resolver = PolicyResolver::new(Last, &[]);
    assert_eq!(resolver.override_count(), 0);
    assert_eq!(resolver.for_destination(ip("1.1.1.1")), Last);
    assert_eq!(resolver.default_policy(), Last);
}

#[test]
fn builds_from_a_config_section() {
    let config = ReassemblyConfig {
        overlap_policy: Last,
        host_policies: vec![entry("172.16.0.0/12", First)],
        ..ReassemblyConfig::default()
    };
    let resolver = PolicyResolver::from_config(&config);
    assert_eq!(resolver.for_destination(ip("172.16.5.5")), First);
    assert_eq!(resolver.for_destination(ip("8.8.8.8")), Last);
}
