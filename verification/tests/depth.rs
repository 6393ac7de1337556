use cybersentinel::prevent::depth::{buffer_is_adequate, parse};

const SAMPLE: &str = "   17  12345     3 2 65535     0     0     4271  1\n\
                      \x20  18  12346  1024 2 65535   512    17    99999  1\n";

#[test]
fn reads_the_line_for_the_requested_queue() {
    let depth = parse(SAMPLE, 17).expect("queue 17");
    assert_eq!(depth.queued, 3);
    assert_eq!(depth.queue_dropped, 0);
    assert_eq!(depth.unjudged(), 0);
}

#[test]
fn a_saturated_queue_reports_what_never_reached_a_verdict() {
    let depth = parse(SAMPLE, 18).expect("queue 18");
    assert_eq!(depth.queued, 1_024);
    assert_eq!(depth.queue_dropped, 512);
    assert_eq!(depth.user_dropped, 17);
    assert_eq!(
        depth.unjudged(),
        529,
        "both causes mean the fail mode decided instead of the sensor"
    );
}

#[test]
fn an_unbound_queue_is_absent_rather_than_zero() {
    assert!(
        parse(SAMPLE, 99).is_none(),
        "reporting zeroes for a queue nobody bound would look like a healthy queue"
    );
    assert!(parse("", 17).is_none());
}

#[test]
fn malformed_input_never_panics() {
    for text in [
        "",
        "garbage",
        "17",
        "17 1 2",
        "x y z a b c d e f",
        "17 1 2 3 4 5 6 7 8 9 10 11",
        &"9".repeat(10_000),
    ] {
        let _ = parse(text, 17);
    }
}

#[test]
fn the_kernel_default_is_not_big_enough_for_inline_prevention() {
    // 208 KB is what a stock Linux ships with, and it left 1.3% of packets
    // unjudged under load. The constant exists so that is a startup error
    // rather than something an operator reads off a throughput graph.
    assert!(!buffer_is_adequate(212_992));
    assert!(buffer_is_adequate(8 * 1_024 * 1_024));
}

/// A kernel that adds a column must not take the reading away.
#[test]
fn extra_columns_are_tolerated() {
    let future = "17  12345  7 2 65535  1  2  4271  1  99  extra";
    let depth = parse(future, 17).expect("still readable");
    assert_eq!(depth.queued, 7);
    assert_eq!(depth.unjudged(), 3);
}
