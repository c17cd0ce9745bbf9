use m3u8_fetch::reassembly::{concat_all, extract_key, order_segments, ReassemblyError};

#[test]
fn key_from_seg_prefix() {
    assert_eq!(extract_key("seg-12-chunk.ts").unwrap(), 12);
    assert_eq!(extract_key("seg-0-a.ts").unwrap(), 0);
}

#[test]
fn key_from_underscore_suffix() {
    assert_eq!(extract_key("movie_7.ts").unwrap(), 7);
}

#[test]
fn key_from_bare_digits() {
    assert_eq!(extract_key("clip42.ts").unwrap(), 42);
}

#[test]
fn key_priority_prefers_seg_prefix() {
    // Both `seg-3-` and a bare `7.ts` match; the `seg-` pattern wins.
    assert_eq!(extract_key("seg-3-part7.ts").unwrap(), 3);
}

#[test]
fn key_with_leading_zeros() {
    assert_eq!(extract_key("seg-007-x.ts").unwrap(), 7);
}

#[test]
fn key_missing_is_an_error() {
    match extract_key("concat.ts") {
        Err(ReassemblyError::NoKey(name)) => assert_eq!(name, "concat.ts"),
        other => panic!("expected NoKey, got {:?}", other),
    }
}

#[test]
fn key_too_large_is_an_error() {
    match extract_key("seg-99999999999-x.ts") {
        Err(ReassemblyError::KeyTooLarge(name)) => assert_eq!(name, "seg-99999999999-x.ts"),
        other => panic!("expected KeyTooLarge, got {:?}", other),
    }
}

#[test]
fn key_at_largest_supported_value() {
    assert_eq!(extract_key("seg-4294967295-x.ts").unwrap(), u32::MAX);
    assert!(matches!(
        extract_key("seg-4294967296-x.ts"),
        Err(ReassemblyError::KeyTooLarge(_))
    ));
}

#[test]
fn ordering_sorts_by_key() {
    let names = vec![
        "b_3.ts".to_string(),
        "a_1.ts".to_string(),
        "x_2.ts".to_string(),
    ];
    let out = order_segments(&names).unwrap();
    assert_eq!(
        out,
        vec!["a_1.ts".to_string(), "x_2.ts".to_string(), "b_3.ts".to_string()]
    );
}

#[test]
fn ordering_ignores_listing_order() {
    let a = vec!["seg-3-x.ts".to_string(), "seg-1-x.ts".to_string(), "seg-2-x.ts".to_string()];
    let b = vec!["seg-2-x.ts".to_string(), "seg-3-x.ts".to_string(), "seg-1-x.ts".to_string()];
    let oa = order_segments(&a).unwrap();
    let ob = order_segments(&b).unwrap();
    assert_eq!(oa, ob);
    assert_eq!(
        oa,
        vec!["seg-1-x.ts".to_string(), "seg-2-x.ts".to_string(), "seg-3-x.ts".to_string()]
    );
}

#[test]
fn ordering_keeps_every_name_exactly_once() {
    let names = vec![
        "seg-5-e.ts".to_string(),
        "seg-4-d.ts".to_string(),
        "seg-9-i.ts".to_string(),
    ];
    let out = order_segments(&names).unwrap();
    let mut expected = names.clone();
    expected.sort();
    let mut got = out.clone();
    got.sort();
    assert_eq!(got, expected);
}

#[test]
fn ordering_fails_on_unkeyed_name() {
    let names = vec!["seg-1-a.ts".to_string(), "concat.ts".to_string()];
    match order_segments(&names) {
        Err(ReassemblyError::NoKey(name)) => assert_eq!(name, "concat.ts"),
        other => panic!("expected NoKey, got {:?}", other),
    }
}

#[test]
fn ordering_of_already_reassembled_directory_fails_cleanly() {
    // A directory holding only the concatenated file cannot be ordered
    // again: its name yields no key, and the run fails before any file
    // is touched.
    let names = vec!["concat.ts".to_string()];
    assert!(matches!(
        order_segments(&names),
        Err(ReassemblyError::NoKey(_))
    ));
}

#[test]
fn concat_joins_in_given_order() {
    let parts = vec![vec![1u8, 2], vec![], vec![3u8, 4, 5]];
    assert_eq!(concat_all(&parts), vec![1u8, 2, 3, 4, 5]);
}

#[test]
fn reassembly_is_order_preserving() {
    // Files with keys [3, 1, 2]: the concatenated bytes follow key
    // order, whatever order the directory listed them in.
    let names = vec![
        "seg-3-c.ts".to_string(),
        "seg-1-a.ts".to_string(),
        "seg-2-b.ts".to_string(),
    ];
    let contents = |name: &str| -> Vec<u8> {
        match name {
            "seg-1-a.ts" => vec![0xa1],
            "seg-2-b.ts" => vec![0xb2, 0xb3],
            "seg-3-c.ts" => vec![0xc4],
            _ => panic!("unexpected name"),
        }
    };
    let ordered = order_segments(&names).unwrap();
    let parts: Vec<Vec<u8>> = ordered.iter().map(|n| contents(n)).collect();
    assert_eq!(concat_all(&parts), vec![0xa1, 0xb2, 0xb3, 0xc4]);
}
