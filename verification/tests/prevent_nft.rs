use cybersentinel::net::IpAddr;
use cybersentinel::prevent::nft::{
    add_element_args, queue_rule, queue_statement, BLOCKED_SET_V4, BLOCKED_SET_V6, TABLE,
};
use cybersentinel::prevent::FailMode;
use cybersentinel::time::Duration;

fn ip(text: &str) -> IpAddr {
    IpAddr::parse(text).expect("an address")
}

/// The three words the whole fail-open promise rests on.
#[test]
fn fail_open_puts_bypass_in_the_rule_and_fail_closed_does_not() {
    assert_eq!(queue_statement(0, FailMode::Open), "queue num 0 bypass");
    assert_eq!(queue_statement(0, FailMode::Closed), "queue num 0");
}

#[test]
fn the_generated_ruleset_matches_the_fail_mode() {
    let open = queue_rule(3, FailMode::Open);
    assert!(open.contains("queue num 3 bypass"));

    let closed = queue_rule(3, FailMode::Closed);
    assert!(closed.contains("queue num 3"));
    assert!(
        !closed.contains("bypass"),
        "a fail-closed ruleset containing bypass would be fail-open in practice"
    );
}

/// The kernel-side drop has to come *before* the queue statement, or every
/// packet from an already-blocked source takes a trip through userspace.
#[test]
fn the_block_set_is_checked_before_packets_are_queued() {
    let rule = queue_rule(0, FailMode::Open);
    let set_drop = rule.find("@blocked_v4").expect("the set is used");
    let queue = rule.find("queue num").expect("the queue statement");
    assert!(
        set_drop < queue,
        "a blocked source should be dropped by the kernel, not queued to userspace"
    );
}

#[test]
fn the_ruleset_declares_both_address_families() {
    let rule = queue_rule(0, FailMode::Open);
    assert!(rule.contains("type ipv4_addr"));
    assert!(rule.contains("type ipv6_addr"));
    assert!(
        rule.contains("flags timeout"),
        "a set without timeouts would block sources for ever"
    );
}

#[test]
fn adding_a_v4_address_targets_the_v4_set() {
    let args = add_element_args(
        ip("203.0.113.7"),
        Duration::from_secs(600),
    );
    assert_eq!(args[4], BLOCKED_SET_V4);
    assert!(args[5].contains("203.0.113.7"));
    assert!(args[5].contains("timeout 600s"));
}

#[test]
fn adding_a_v6_address_targets_the_v6_set() {
    let args = add_element_args(
        ip("2001:db8::1"),
        Duration::from_secs(60),
    );
    assert_eq!(args[4], BLOCKED_SET_V6);
    assert!(args[5].contains("2001:db8::1"));
}

/// Every argument is built from a parsed `IpAddr`, so there is no operator
/// or attacker text in the command at all.
#[test]
fn the_command_contains_nothing_but_the_address_and_the_timeout() {
    let args = add_element_args(
        ip("203.0.113.7"),
        Duration::from_secs(1),
    );
    assert_eq!(args[..5], ["add", "element", "inet", TABLE, BLOCKED_SET_V4]);
    assert_eq!(args.len(), 6);
}
