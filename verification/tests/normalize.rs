use cybersentinel::reassembly::normalize::{
    collapse_path, normalize_path, percent_decode, percent_decode_repeatedly, Normalized,
    NormalizeOptions,
};

fn normalize(input: &str) -> Normalized {
    normalize_path(input.as_bytes(), &NormalizeOptions::default())
}

fn text(bytes: &[u8]) -> String {
    String::from_utf8_lossy(bytes).into_owned()
}

// -----------------------------------------------------------------------
// percent decoding
// -----------------------------------------------------------------------

#[test]
fn decodes_valid_escapes_in_either_case() {
    let (out, flags) = percent_decode(b"%2Fetc%2fpasswd");
    assert_eq!(text(&out), "/etc/passwd");
    assert!(flags.percent_encoded);
    assert!(!flags.invalid_escape);
}

#[test]
fn leaves_malformed_escapes_exactly_as_written() {
    for input in ["%", "%2", "%zz", "%2z", "100%", "%%41"] {
        let (out, flags) = percent_decode(input.as_bytes());
        assert!(
            flags.invalid_escape,
            "{input} should flag an invalid escape"
        );
        assert!(
            out.len() <= input.len(),
            "decoding must never grow its input: {input}"
        );
    }
    // Specifically: the stray % survives, it is not dropped or guessed at.
    assert_eq!(text(&percent_decode(b"a%zz").0), "a%zz");
    assert_eq!(text(&percent_decode(b"%%41").0), "%A");
}

#[test]
fn a_decoded_null_byte_is_flagged() {
    let (out, flags) = percent_decode(b"/etc/passwd%00.jpg");
    assert!(flags.null_byte);
    assert_eq!(out[11], 0);
}

#[test]
fn decoding_stops_when_a_pass_changes_nothing() {
    let result = percent_decode_repeatedly(b"/plain/path", 4);
    assert_eq!(result.rounds_applied, 0);
    assert!(!result.flags.double_encoded);
}

#[test]
fn double_encoding_needs_and_gets_a_second_pass() {
    // %252e is `%2e` once decoded, and `.` twice decoded.
    let once = percent_decode_repeatedly(b"%252e%252e%252f", 1);
    assert_eq!(text(&once.bytes), "%2e%2e%2f");
    assert!(!once.flags.double_encoded);
    assert!(once.flags.decode_limit_reached, "one pass was not enough");

    let twice = percent_decode_repeatedly(b"%252e%252e%252f", 2);
    assert_eq!(text(&twice.bytes), "../");
    assert!(twice.flags.double_encoded);
    assert!(!twice.flags.decode_limit_reached);
}

#[test]
fn the_round_limit_is_reported_rather_than_silently_hit() {
    // Triple encoded, with only two rounds allowed.
    let result = percent_decode_repeatedly(b"%25252e", 2);
    assert!(result.flags.decode_limit_reached);
    assert_eq!(text(&result.bytes), "%2e");
}

#[test]
fn decoding_can_be_turned_off_entirely() {
    let result = percent_decode_repeatedly(b"%2e%2e%2f", 0);
    assert_eq!(text(&result.bytes), "%2e%2e%2f");
    assert_eq!(result.rounds_applied, 0);
}

// -----------------------------------------------------------------------
// path collapsing
// -----------------------------------------------------------------------

#[test]
fn collapses_self_references_and_traversal() {
    assert_eq!(text(&collapse_path(b"/a/./b", false).0), "/a/b");
    assert_eq!(text(&collapse_path(b"/a/b/../c", false).0), "/a/c");
    assert_eq!(text(&collapse_path(b"/a/b/../../c", false).0), "/c");
    assert_eq!(
        text(&collapse_path(b"/foo/../etc/passwd", false).0),
        "/etc/passwd"
    );
}

#[test]
fn collapses_repeated_separators() {
    let (out, flags) = collapse_path(b"/a//b///c", false);
    assert_eq!(text(&out), "/a/b/c");
    assert!(flags.empty_segment);
}

#[test]
fn preserves_absoluteness_and_trailing_separators() {
    assert_eq!(text(&collapse_path(b"/a/b/", false).0), "/a/b/");
    assert_eq!(text(&collapse_path(b"a/b", false).0), "a/b");
    assert_eq!(text(&collapse_path(b"/", false).0), "/");
    assert_eq!(text(&collapse_path(b"", false).0), "");
    // `.` and `..` name directories, so the result keeps its separator.
    assert_eq!(text(&collapse_path(b"/a/b/.", false).0), "/a/b/");
    assert_eq!(text(&collapse_path(b"/a/b/..", false).0), "/a/");
}

#[test]
fn walking_above_the_root_is_clamped_and_flagged() {
    let (out, flags) = collapse_path(b"/../../../etc/passwd", false);
    assert_eq!(text(&out), "/etc/passwd");
    assert!(flags.above_root, "escaping the root is worth knowing about");
    assert!(flags.traversal);
}

#[test]
fn backslashes_are_separators_only_when_asked() {
    let (kept, flags) = collapse_path(br"/a\..\b", false);
    assert_eq!(
        text(&kept),
        r"/a\..\b",
        "a backslash is an ordinary byte by default"
    );
    assert!(!flags.backslash);

    let (collapsed, flags) = collapse_path(br"/a\..\b", true);
    assert_eq!(text(&collapsed), "/b");
    assert!(flags.backslash);
}

#[test]
fn an_ordinary_path_is_left_alone_and_flags_nothing() {
    let (out, flags) = collapse_path(b"/index.html", false);
    assert_eq!(text(&out), "/index.html");
    assert!(
        !flags.any(),
        "a clean path should raise no flags: {flags:?}"
    );
}

// -----------------------------------------------------------------------
// the composition — this is what an attacker actually sends
// -----------------------------------------------------------------------

#[test]
fn every_spelling_of_the_same_request_normalizes_alike() {
    // A rule looking for /etc/passwd must match all of these, because the
    // server resolves all of them to the same file.
    let spellings = [
        "/etc/passwd",
        "/etc/./passwd",
        "/foo/../etc/passwd",
        "/etc//passwd",
        "/%65tc/passwd",
        "%2fetc%2fpasswd",
        "/etc/%2e/passwd",
        "/%252e%252e%252fetc/passwd",
        "/a/b/../../etc/passwd",
    ];
    for spelling in spellings {
        assert_eq!(
            text(&normalize(spelling).bytes),
            "/etc/passwd",
            "{spelling} did not normalize to /etc/passwd"
        );
    }
}

#[test]
fn encoded_traversal_is_resolved_because_decoding_happens_first() {
    // The whole point: %2e%2e%2f must become ../ before it can be resolved.
    let result = normalize("/var/www/%2e%2e/%2e%2e/etc/passwd");
    assert_eq!(text(&result.bytes), "/etc/passwd");
    assert!(result.flags.percent_encoded);
    assert!(result.flags.traversal);
}

#[test]
fn double_encoded_traversal_is_resolved_and_flagged() {
    let result = normalize("/var/%252e%252e/%252e%252e/etc/passwd");
    assert_eq!(text(&result.bytes), "/etc/passwd");
    assert!(
        result.flags.double_encoded,
        "double encoding is itself signal"
    );
}

#[test]
fn windows_style_traversal_normalizes_when_the_target_is_windows() {
    let options = NormalizeOptions {
        backslash_is_separator: true,
        ..NormalizeOptions::default()
    };
    let result = normalize_path(br"/scripts/..%5c..%5cwinnt/system32/cmd.exe", &options);
    assert_eq!(text(&result.bytes), "/winnt/system32/cmd.exe");
    assert!(result.flags.backslash);
}

#[test]
fn normalization_never_grows_its_input() {
    // The one property a normalizer must have: no amplification.
    let inputs: [&[u8]; 8] = [
        b"",
        b"/",
        b"%",
        b"%%%%%%%%",
        b"/a/b/c",
        b"%2e%2e%2f%2e%2e%2f",
        b"////////////",
        b"/../../../../..",
    ];
    for input in inputs {
        let result = normalize_path(input, &NormalizeOptions::default());
        assert!(
            result.bytes.len() <= input.len(),
            "{:?} grew from {} to {} bytes",
            text(input),
            input.len(),
            result.bytes.len()
        );
    }
}

#[test]
fn collapsing_can_be_disabled_leaving_only_decoding() {
    let options = NormalizeOptions {
        collapse_path: false,
        ..NormalizeOptions::default()
    };
    let result = normalize_path(b"/a/%2e%2e/b", &options);
    assert_eq!(text(&result.bytes), "/a/../b");
}

#[test]
fn arbitrary_bytes_normalize_without_panicking() {
    let inputs: [&[u8]; 9] = [
        &[],
        &[0xff; 64],
        &[0x00; 16],
        b"%00%00%00",
        b"/../%",
        b"\\\\\\\\",
        b"..",
        b"../",
        &[b'%'; 256],
    ];
    for input in inputs {
        for backslash in [false, true] {
            for rounds in [0, 1, 2, 8] {
                let options = NormalizeOptions {
                    decode_rounds: rounds,
                    collapse_path: true,
                    backslash_is_separator: backslash,
                };
                let result = normalize_path(input, &options);
                assert!(result.bytes.len() <= input.len());
            }
        }
    }
}

#[test]
fn a_stray_percent_sign_is_reported_even_when_nothing_decodes() {
    let result = normalize_path(b"/100%", &NormalizeOptions::default());
    assert_eq!(text(&result.bytes), "/100%");
    assert_eq!(result.rounds_applied, 0);
    assert!(result.flags.invalid_escape);
    assert!(!result.flags.percent_encoded);

    let off = percent_decode_repeatedly(b"/100%", 0);
    assert!(!off.flags.invalid_escape);
}

#[test]
fn a_collapsed_path_is_left_alone() {
    for path in [
        "/", "", "..", "/..", "a/..", "/a/./b/", "//a//b", "a/b/../c/.", r"\a\..\b\", "/a/b/..",
    ] {
        for backslash in [false, true] {
            let (once, _) = collapse_path(path.as_bytes(), backslash);
            let (twice, flags) = collapse_path(&once, backslash);
            assert_eq!(once, twice, "{path}");
            assert!(!flags.any(), "{path}");
        }
    }
}
