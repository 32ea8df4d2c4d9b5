use pyspy::flamegraph::Flamegraph;
use pyspy::raw::SnapshotError;
use pyspy::text::{split_tokens, u64_to_string};

#[test]
fn test_raw_format_exact() {
    let mut flame = Flamegraph::new(true);
    flame.add_count("a;b (f.py:1)", 0, 1).unwrap();
    assert_eq!(flame.write_raw(), String::from("1\n0 1 a;b (f.py:1)\n"));

    let empty = Flamegraph::new(false);
    assert_eq!(empty.write_raw(), String::from("0\n"));
}

#[test]
fn test_raw_round_trip() {
    // write_raw, reload, and filter over the full range reproduces the
    // exact per-path totals of the in-memory structure.
    let mut flame = Flamegraph::new(true);
    flame.add_count("alpha (a.py:1)", 0, 3).unwrap();
    flame.add_count("alpha (a.py:1)", 2, 4).unwrap();
    flame.add_count("beta with spaces", 1, 5).unwrap();
    flame.add_count("gamma", 7, 1).unwrap();

    let text = flame.write_raw();
    let reloaded = Flamegraph::from_raw(text.as_str()).unwrap();
    assert_eq!(reloaded.show_linenumbers, true);
    assert_eq!(reloaded.write_raw(), text);

    let before = flame.filter_records(0, u64::MAX);
    let after = reloaded.filter_records(0, u64::MAX);
    assert_eq!(after.len(), before.len());
    for key in ["alpha (a.py:1)", "beta with spaces", "gamma"] {
        let key = String::from(key);
        assert_eq!(after.get(&key).unwrap_or(0), before.get(&key).unwrap_or(0));
    }
    // The window structure survives too.
    assert_eq!(
        reloaded.filter_records(0, 1).get(&String::from("alpha (a.py:1)")).unwrap_or(0),
        3
    );
    assert_eq!(
        reloaded.filter_records(2, 3).get(&String::from("alpha (a.py:1)")).unwrap_or(0),
        4
    );
}

#[test]
fn test_raw_rejects_invalid() {
    assert!(matches!(Flamegraph::from_raw(""), Err(SnapshotError::Invalid)));
    assert!(matches!(Flamegraph::from_raw("garbage"), Err(SnapshotError::Invalid)));
    assert!(matches!(Flamegraph::from_raw("2\n"), Err(SnapshotError::Invalid)));
    // Missing terminal newline.
    assert!(matches!(Flamegraph::from_raw("1\n0 1 x"), Err(SnapshotError::Invalid)));
    // A zero count is never stored.
    assert!(matches!(Flamegraph::from_raw("1\n0 0 x\n"), Err(SnapshotError::Invalid)));
    // Leading zeros are not canonical.
    assert!(matches!(Flamegraph::from_raw("1\n01 1 x\n"), Err(SnapshotError::Invalid)));
    // Buckets of one path must ascend.
    assert!(matches!(
        Flamegraph::from_raw("1\n5 1 x\n5 1 x\n"),
        Err(SnapshotError::Invalid)
    ));
    // Paths must ascend.
    assert!(matches!(
        Flamegraph::from_raw("1\n0 1 b\n0 1 a\n"),
        Err(SnapshotError::Invalid)
    ));
}

#[test]
fn test_raw_accepts_canonical() {
    let fg = Flamegraph::from_raw("0\n3 2 first\n1 1 second\n4 6 second\n").unwrap();
    assert_eq!(fg.show_linenumbers, false);
    let all = fg.filter_records(0, u64::MAX);
    assert_eq!(all.len(), 2);
    assert_eq!(all.get(&String::from("first")).unwrap_or(0), 2);
    assert_eq!(all.get(&String::from("second")).unwrap_or(0), 7);
}

#[test]
fn test_decimal_rendering() {
    assert_eq!(u64_to_string(0), String::from("0"));
    assert_eq!(u64_to_string(7), String::from("7"));
    assert_eq!(u64_to_string(120), String::from("120"));
    assert_eq!(u64_to_string(u64::MAX), String::from("18446744073709551615"));
}

#[test]
fn test_tokenization() {
    assert_eq!(
        split_tokens("  a  bb\tc "),
        vec![String::from("a"), String::from("bb"), String::from("c")]
    );
    assert_eq!(split_tokens(""), Vec::<String>::new());
    assert_eq!(split_tokens("   \t "), Vec::<String>::new());
    assert_eq!(split_tokens("one"), vec![String::from("one")]);
}

#[test]
fn test_empty_path_round_trip() {
    // A trace with no frames folds to the empty path, which the snapshot
    // schema carries as an empty last field.
    let mut flame = Flamegraph::new(true);
    flame.add_count("", 2, 9).unwrap();
    let text = flame.write_raw();
    assert_eq!(text, String::from("1\n2 9 \n"));
    let reloaded = Flamegraph::from_raw(text.as_str()).unwrap();
    assert_eq!(reloaded.filter_records(0, 3).get(&String::new()).unwrap_or(0), 9);
}

#[test]
fn test_tokenization_unicode_whitespace() {
    // Any Unicode white space separates fields, as the rule files allow.
    assert_eq!(
        split_tokens("a\u{00A0}b\u{2003}c\u{3000}d"),
        vec![
            String::from("a"),
            String::from("b"),
            String::from("c"),
            String::from("d")
        ]
    );
    assert_eq!(split_tokens("\u{000C}x\u{0085}"), vec![String::from("x")]);
}
