use cybersentinel::net::{IpAddr, IpNetwork, NetTuple, Protocol};
use cybersentinel::prevent::{
    BlockOutcome, Decision, DropReason, FailMode, Mode, Prevention, PreventionSettings,
};
use cybersentinel::time::{Duration, Timestamp};

fn at(seconds: u64) -> Timestamp {
    Timestamp::from_secs(seconds)
}

fn after(start: Timestamp, by: Duration) -> Timestamp {
    start.saturating_add(by)
}

fn ip(text: &str) -> IpAddr {
    IpAddr::parse(text).unwrap()
}

fn network(text: &str) -> IpNetwork {
    match text.split_once('/') {
        Some((address, prefix)) => {
            IpNetwork::new(ip(address), prefix.parse().unwrap()).unwrap()
        }
        None => IpNetwork::host(ip(text)),
    }
}

fn tuple(src: &str, dest: &str) -> NetTuple {
    NetTuple {
        src_ip: ip(src),
        src_port: Some(4_000),
        dest_ip: ip(dest),
        dest_port: Some(80),
        proto: Protocol::Tcp,
    }
}

fn armed() -> Prevention {
    Prevention::new(PreventionSettings {
        mode: Mode::Prevent,
        ..PreventionSettings::default()
    })
}

#[test]
fn the_default_is_detect_and_accepts_everything() {
    let mut prevention = Prevention::new(PreventionSettings::default());
    assert!(!prevention.armed());

    let flow = tuple("203.0.113.7", "10.0.0.1");
    // Even after a rule asks for a block.
    assert_eq!(
        prevention.block(&flow, at(1_000)),
        BlockOutcome::NotArmed
    );
    assert_eq!(
        prevention.decide(&flow, at(1_000)),
        Decision::Accept,
        "detect mode never drops, whatever the rules say"
    );
}

#[test]
fn an_unknown_flow_is_accepted() {
    let mut prevention = armed();
    assert_eq!(
        prevention.decide(&tuple("203.0.113.7", "10.0.0.1"), at(1_000)),
        Decision::Accept,
        "default accept: the verdict path never guesses"
    );
}

#[test]
fn a_blocked_flow_drops_its_later_packets() {
    let mut prevention = armed();
    let flow = tuple("203.0.113.7", "10.0.0.1");
    let now = at(1_000);

    assert!(matches!(
        prevention.block(&flow, now),
        BlockOutcome::Blocked { .. }
    ));
    assert_eq!(
        prevention.decide(&flow, now),
        Decision::Drop(DropReason::FlowVerdict)
    );
}

#[test]
fn a_blocked_source_drops_a_brand_new_flow() {
    let mut prevention = armed();
    let now = at(1_000);
    prevention.block(&tuple("203.0.113.7", "10.0.0.1"), now);

    // A different flow id entirely — the next connection from that source.
    assert_eq!(
        prevention.decide(&tuple("203.0.113.7", "10.0.0.2"), now),
        Decision::Drop(DropReason::BlockedSource),
        "blocking the source is what stops the next connection starting"
    );
}

#[test]
fn an_unrelated_source_is_unaffected() {
    let mut prevention = armed();
    let now = at(1_000);
    prevention.block(&tuple("203.0.113.7", "10.0.0.1"), now);
    assert_eq!(
        prevention.decide(&tuple("198.51.100.4", "10.0.0.1"), now),
        Decision::Accept
    );
}

// -----------------------------------------------------------------------
// the allow-list
// -----------------------------------------------------------------------

fn with_allow_list(entries: &[&str]) -> Prevention {
    Prevention::new(PreventionSettings {
        mode: Mode::Prevent,
        allow_list: entries
            .iter()
            .map(|entry| network(entry))
            .collect(),
        ..PreventionSettings::default()
    })
}

#[test]
fn an_allow_listed_source_is_never_blocked() {
    let mut prevention = with_allow_list(&["192.0.2.1"]);
    let flow = tuple("192.0.2.1", "10.0.0.1");
    let now = at(1_000);

    assert_eq!(
        prevention.block(&flow, now),
        BlockOutcome::AllowListed {
            address: ip("192.0.2.1")
        },
        "a matching block rule must not enforce against an allow-listed host"
    );
    assert_eq!(prevention.decide(&flow, now), Decision::Accept);
}

#[test]
fn an_allow_listed_network_covers_its_hosts() {
    let mut prevention = with_allow_list(&["10.0.0.0/8"]);
    let now = at(1_000);
    assert!(matches!(
        prevention.block(&tuple("10.1.2.3", "203.0.113.7"), now),
        BlockOutcome::AllowListed { .. }
    ));
}

/// Cutting the flow to a critical host breaks it exactly as thoroughly as
/// blocking that host's own traffic, so the allow-list covers both ends.
#[test]
fn an_allow_listed_destination_is_protected_too() {
    let mut prevention = with_allow_list(&["10.0.0.53"]);
    let flow = tuple("203.0.113.7", "10.0.0.53");
    let now = at(1_000);

    assert!(matches!(
        prevention.block(&flow, now),
        BlockOutcome::AllowListed { .. }
    ));
    assert_eq!(prevention.decide(&flow, now), Decision::Accept);
}

/// The allow-list is checked before any verdict, so no ordering of events
/// can produce a drop for a protected host.
#[test]
fn an_allow_list_entry_added_to_the_block_set_by_another_route_still_passes() {
    let mut prevention = with_allow_list(&["192.0.2.1"]);
    let now = at(1_000);
    // Block a different source, then ask about the protected one whose
    // traffic shares the flow id (a contrived collision, but the check must
    // not depend on that not happening).
    prevention.block(&tuple("203.0.113.7", "10.0.0.1"), now);
    assert_eq!(
        prevention.decide(&tuple("192.0.2.1", "10.0.0.9"), now),
        Decision::Accept
    );
}

// -----------------------------------------------------------------------
// the kill switch
// -----------------------------------------------------------------------

#[test]
fn disarming_stops_dropping_on_the_very_next_packet() {
    let mut prevention = armed();
    let flow = tuple("203.0.113.7", "10.0.0.1");
    let now = at(1_000);

    prevention.block(&flow, now);
    assert!(prevention.decide(&flow, now).is_drop());

    prevention.set_mode(Mode::Detect);
    assert_eq!(
        prevention.decide(&flow, now),
        Decision::Accept,
        "the kill switch cannot be outrun by a verdict recorded before it"
    );
}

#[test]
fn re_arming_restores_the_verdicts_that_were_already_known() {
    let mut prevention = armed();
    let flow = tuple("203.0.113.7", "10.0.0.1");
    let now = at(1_000);

    prevention.block(&flow, now);
    prevention.set_mode(Mode::Detect);
    prevention.set_mode(Mode::Prevent);

    assert!(
        prevention.decide(&flow, now).is_drop(),
        "re-arming should not require re-detecting everything"
    );
}

// -----------------------------------------------------------------------
// bounds and expiry
// -----------------------------------------------------------------------

#[test]
fn a_source_block_lapses() {
    let mut prevention = Prevention::new(PreventionSettings {
        mode: Mode::Prevent,
        source_block: Duration::from_secs(60),
        ..PreventionSettings::default()
    });
    let start = at(1_000);
    prevention.block(&tuple("203.0.113.7", "10.0.0.1"), start);

    let later = after(start, Duration::from_secs(61));
    assert_eq!(
        prevention.decide(&tuple("203.0.113.7", "10.0.0.2"), later),
        Decision::Accept,
        "a block that never lapses is a permanent outage nobody chose"
    );
}

#[test]
fn expiry_clears_both_tables() {
    let mut prevention = Prevention::new(PreventionSettings {
        mode: Mode::Prevent,
        source_block: Duration::from_secs(60),
        ..PreventionSettings::default()
    });
    let start = at(1_000);
    for index in 0..10 {
        prevention.block(&tuple(&format!("203.0.113.{index}"), "10.0.0.1"), start);
    }
    assert_eq!(prevention.stats().blocked_flows_active, 10);

    prevention.expire(after(start, Duration::from_secs(61)));
    assert_eq!(prevention.stats().blocked_flows_active, 0);
    assert_eq!(prevention.stats().blocked_sources_active, 0);
}

#[test]
fn a_full_store_refuses_to_record_and_counts_it() {
    let mut prevention = Prevention::new(PreventionSettings {
        mode: Mode::Prevent,
        max_blocked_flows: 2,
        ..PreventionSettings::default()
    });
    let now = at(1_000);
    for index in 0..2 {
        assert!(matches!(
            prevention.block(&tuple(&format!("203.0.113.{index}"), "10.0.0.1"), now),
            BlockOutcome::Blocked { .. }
        ));
    }
    assert_eq!(
        prevention.block(&tuple("203.0.113.99", "10.0.0.1"), now),
        BlockOutcome::Full,
        "a block that could not be recorded is a hole, not a silent no-op"
    );
    assert_eq!(prevention.stats().counters.blocks_dropped_at_capacity, 1);
}

// -----------------------------------------------------------------------
// soak: does the state stay bounded and drain, over a long timeline
// -----------------------------------------------------------------------

/// The question a five-second burst cannot answer: does this leak?
///
/// An IPS holds state per condemned flow and per blocked source, and both
/// are fed by whoever is attacking — which is exactly the shape of an
/// unbounded-growth bug an attacker gets to trigger. Simulated time rather
/// than real, so the whole hour runs in milliseconds and runs in CI.
#[test]
fn an_hour_of_continuous_blocking_stays_bounded_and_drains() {
    let block_for = Duration::from_secs(60);
    let mut prevention = Prevention::new(PreventionSettings {
        mode: Mode::Prevent,
        source_block: block_for,
        max_blocked_flows: 4_096,
        max_blocked_sources: 4_096,
        ..PreventionSettings::default()
    });

    let start = at(1_000);
    // An hour, a block every second, from a rotating cast of sources —
    // 3,600 blocks against a store that may hold 4,096.
    for second in 0..3_600_u64 {
        let now = after(start, Duration::from_secs(second));
        let source = format!(
            "10.{}.{}.{}",
            second % 251,
            (second / 251) % 251,
            1 + second % 250
        );
        prevention.block(&tuple(&source, "10.0.0.1"), now);
        prevention.expire(now);

        let stats = prevention.stats();
        assert!(
            stats.blocked_flows_active <= 4_096,
            "flow table exceeded its cap at second {second}"
        );
        assert!(
            stats.blocked_sources_active <= 4_096,
            "source table exceeded its cap at second {second}"
        );
        // Nothing may be held longer than the block duration, so the live
        // set can never be larger than one block-window's worth of work.
        assert!(
            stats.blocked_sources_active <= 61,
            "at second {second} the source table held {} entries, but nothing \
             should outlive its 60s block",
            stats.blocked_sources_active
        );
    }

    // And it drains completely once the traffic stops.
    prevention.expire(after(start, Duration::from_secs(3_600 + 61)));
    let stats = prevention.stats();
    assert_eq!(
        stats.blocked_sources_active, 0,
        "the source table did not drain"
    );
    assert_eq!(
        stats.blocked_flows_active, 0,
        "the flow table did not drain"
    );
    assert!(
        stats.counters.blocks_dropped_at_capacity == 0,
        "a cap was hit that should not have been"
    );
}

/// The same source attacking continuously must not grow the table: it is
/// one entry whose expiry moves, not one entry per attempt.
#[test]
fn one_persistent_source_is_one_entry() {
    let mut prevention = armed();
    let start = at(1_000);
    for second in 0..10_000_u64 {
        let now = after(start, Duration::from_millis(second * 100));
        prevention.block(&tuple("203.0.113.7", "10.0.0.1"), now);
        prevention.expire(now);
    }
    assert_eq!(
        prevention.stats().blocked_sources_active,
        1,
        "a source blocked ten thousand times is still one source"
    );
}

/// Past the cap the store refuses rather than grows, and says so. The
/// refusal is the important half: silently evicting a live verdict would
/// let an attacker restore their own traffic by making noise.
#[test]
fn a_flood_of_distinct_sources_hits_the_cap_and_reports_it() {
    let mut prevention = Prevention::new(PreventionSettings {
        mode: Mode::Prevent,
        max_blocked_sources: 512,
        max_blocked_flows: 512,
        source_block: Duration::from_secs(3_600),
        ..PreventionSettings::default()
    });
    let now = at(1_000);
    for index in 0..5_000_u32 {
        let source = format!(
            "10.{}.{}.{}",
            index / 65_536,
            (index / 256) % 256,
            index % 256
        );
        prevention.block(&tuple(&source, "10.0.0.1"), now);
    }

    let stats = prevention.stats();
    assert!(stats.blocked_sources_active <= 512);
    assert!(
        stats.counters.blocks_dropped_at_capacity > 0,
        "hitting the cap must be counted: a block that was not recorded is not enforced"
    );
}

/// Latency accounting must survive a long run without wrapping.
#[test]
fn latency_totals_do_not_overflow_over_a_long_run() {
    let mut prevention = armed();
    for _ in 0..100_000 {
        prevention.record_latency(u64::MAX / 200_000);
    }
    let stats = prevention.stats();
    assert!(stats.counters.verdict_latency_us_total > 0);
    assert!(stats.counters.verdict_latency_us_max > 0);
}

#[test]
fn stats_report_the_active_mode_and_fail_mode() {
    let prevention = Prevention::new(PreventionSettings {
        mode: Mode::Prevent,
        fail_mode: FailMode::Closed,
        ..PreventionSettings::default()
    });
    let stats = prevention.stats();
    assert_eq!(stats.mode, "prevent");
    assert_eq!(stats.fail_mode, "closed");
}

#[test]
fn latency_is_recorded() {
    let mut prevention = armed();
    prevention.record_latency(10);
    prevention.record_latency(250);
    prevention.record_latency(5);
    let stats = prevention.stats();
    assert_eq!(stats.counters.verdict_latency_us_max, 250);
    assert_eq!(stats.counters.verdict_latency_us_total, 265);
}

#[test]
fn every_judged_packet_is_counted_in_both_modes() {
    let mut prevention = Prevention::new(PreventionSettings::default());
    let flow = tuple("203.0.113.7", "10.0.0.1");
    for _ in 0..5 {
        prevention.decide(&flow, at(1_000));
    }
    assert_eq!(prevention.stats().counters.packets_judged, 5);
    assert_eq!(prevention.stats().counters.packets_dropped, 0);
}

#[test]
fn every_judgement_is_counted_once() {
    let mut prevention = armed();
    let flow = tuple("203.0.113.7", "10.0.0.1");
    let back = NetTuple {
        src_ip: flow.dest_ip,
        src_port: flow.dest_port,
        dest_ip: flow.src_ip,
        dest_port: flow.src_port,
        proto: Protocol::Tcp,
    };
    assert_eq!(prevention.decide(&flow, at(1)), Decision::Accept);
    prevention.block(&flow, at(1));
    for packet in [&flow, &back] {
        assert_eq!(
            prevention.decide(packet, at(2)),
            Decision::Drop(DropReason::FlowVerdict)
        );
    }
    prevention.set_mode(Mode::Detect);
    assert_eq!(prevention.decide(&flow, at(3)), Decision::Accept);
    let counters = prevention.stats().counters;
    assert_eq!(counters.packets_judged, 4);
    assert_eq!(counters.packets_dropped, 2);
}
