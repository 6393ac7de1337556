use cybersentinel::hids::names;
use cybersentinel::hids::sources::{
    declare_platform_gaps, platform_gaps, SourceRegistry, SourceState,
};

#[test]
fn a_hole_is_reported_with_its_reason() {
    let mut registry = SourceRegistry::new();
    registry.active(names::FIM_REALTIME);
    registry.unavailable(names::AUTH_STRUCTURED, "journalctl is not installed".to_string());

    let holes = registry.holes();
    assert_eq!(holes.len(), 1);
    assert_eq!(holes[0].name, names::AUTH_STRUCTURED);
    assert!(
        !holes[0].detail.is_empty(),
        "a hole without a reason is not actionable"
    );
}

#[test]
fn an_active_source_is_not_a_hole() {
    let mut registry = SourceRegistry::new();
    registry.active(names::PROCESS_TABLE);
    assert!(registry.holes().is_empty());
    assert_eq!(
        registry.state(names::PROCESS_TABLE),
        Some(SourceState::Active)
    );
}

#[test]
fn record_counts_survive_a_state_change() {
    // A source that degrades has still produced what it produced; losing
    // the count would hide how much coverage there was before it broke.
    let mut registry = SourceRegistry::new();
    registry.active(names::AUTH_FILES);
    registry.produced(names::AUTH_FILES, 7);
    registry.degraded(names::AUTH_FILES, "one of two files disappeared".to_string());

    let snapshot = registry.snapshot();
    let entry = snapshot
        .iter()
        .find(|entry| entry.name == names::AUTH_FILES)
        .expect("the source is listed");
    assert_eq!(entry.records, 7);
    assert_eq!(entry.state, SourceState::Degraded);
}

#[test]
fn the_snapshot_is_in_stable_order() {
    let mut registry = SourceRegistry::new();
    registry.active(names::PROCESS_TABLE);
    registry.active(names::AUTH_FILES);
    registry.active(names::FIM_BASELINE);

    let names: Vec<_> = registry
        .snapshot()
        .into_iter()
        .map(|entry| entry.name)
        .collect();
    let mut sorted = names.clone();
    sorted.sort();
    assert_eq!(names, sorted, "consumers diff these; order must not churn");
}

/// Every source without a backend must announce itself: a host sensor that is not
/// monitoring the host and says nothing about it looks like a quiet host.
#[test]
fn a_platform_without_backends_says_so_rather_than_reporting_zeroes() {
    for os in ["windows", "macos", "freebsd"] {
        let gaps = platform_gaps(os);
        assert!(
            !gaps.is_empty(),
            "{os} has no host backends but declares no gaps: it would look quiet"
        );
        for (name, detail) in gaps {
            assert!(
                !detail.is_empty(),
                "{os}/{name} says unsupported without saying why"
            );
        }
    }
}

#[test]
fn windows_and_macos_gaps_name_the_phase_that_fills_them() {
    for (os, phase) in [("windows", "Phase 5"), ("macos", "Phase 6")] {
        for (name, detail) in platform_gaps(os) {
            assert!(
                detail.contains(phase),
                "{os}/{name} does not say when it stops being a gap: {detail:?}"
            );
        }
    }
}

#[test]
fn linux_declares_no_gaps_because_it_implements_them_all() {
    assert!(platform_gaps("linux").is_empty());
}

#[test]
fn declaring_gaps_marks_them_unsupported_in_the_registry() {
    let mut registry = SourceRegistry::new();
    declare_platform_gaps(&mut registry, "windows");
    for hole in registry.holes() {
        assert_eq!(hole.state, SourceState::Unsupported);
    }
    // The registry agrees with the pure function.
    assert_eq!(registry.holes().len(), platform_gaps("windows").len());

    let mut registry = SourceRegistry::new();
    declare_platform_gaps(&mut registry, "linux");
    assert!(registry.holes().is_empty());
}

#[test]
fn a_later_declaration_overwrites_an_earlier_one() {
    // A backend that *does* exist must be able to overwrite the gap
    // declaration, or the gap list would be permanently wrong.
    let mut registry = SourceRegistry::new();
    registry.unsupported(names::PROCESS_TABLE, "not on this platform".to_string());
    registry.active(names::PROCESS_TABLE);
    assert!(registry.holes().is_empty());
}

#[test]
fn counting_and_declaring_again_keep_the_order() {
    let mut registry = SourceRegistry::new();
    registry.produced("m", 2);
    registry.active("z");
    registry.degraded("a", "late".to_string());
    registry.unavailable("m", "gone".to_string());
    registry.produced("a", 1);
    let listed: Vec<(String, u64)> = registry
        .snapshot()
        .into_iter()
        .map(|entry| (entry.name, entry.records))
        .collect();
    assert_eq!(
        listed,
        [
            ("a".to_string(), 1),
            ("m".to_string(), 2),
            ("z".to_string(), 0)
        ]
    );
}
