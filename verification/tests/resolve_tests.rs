use m3u8_fetch::resolve::{
    base_url_of, last_component, resolve_segment_url, segment_filename, segment_target_name,
    ResolveError,
};

#[test]
fn base_url_is_truncated_at_last_slash() {
    let b = base_url_of("http://host/path/playlist.m3u8").unwrap();
    assert_eq!(b, "http://host/path/");
}

#[test]
fn base_url_of_nested_path() {
    let b = base_url_of("https://cdn.example/a/b/c/index.m3u8").unwrap();
    assert_eq!(b, "https://cdn.example/a/b/c/");
}

#[test]
fn base_url_without_directory_fails() {
    assert!(matches!(
        base_url_of("http://host"),
        Err(ResolveError::NoDirectory)
    ));
}

#[test]
fn base_url_of_bare_name_fails() {
    assert!(matches!(
        base_url_of("playlist.m3u8"),
        Err(ResolveError::NoDirectory)
    ));
}

#[test]
fn base_url_of_relative_path() {
    assert_eq!(base_url_of("a/b.m3u8").unwrap(), "a/");
}

#[test]
fn resolve_prefixes_relative_reference() {
    let u = resolve_segment_url("http://host/path/", "seg-0-a.ts", false);
    assert_eq!(u, "http://host/path/seg-0-a.ts");
}

#[test]
fn resolve_keeps_absolute_reference() {
    let u = resolve_segment_url("http://host/path/", "http://other/x.ts", true);
    assert_eq!(u, "http://other/x.ts");
}

#[test]
fn last_component_takes_tail() {
    assert_eq!(last_component("/path/seg-0-a.ts"), "seg-0-a.ts");
    assert_eq!(last_component("plain"), "plain");
}

#[test]
fn segment_filename_truncates_at_extension() {
    assert_eq!(segment_filename("seg-0-a.ts"), Some("seg-0-a.ts".to_string()));
    assert_eq!(segment_filename("x.ts?token=1"), Some("x.ts".to_string()));
    assert_eq!(segment_filename("x.tsmore.ts"), Some("x.ts".to_string()));
    assert_eq!(segment_filename("noext"), None);
}

#[test]
fn target_name_comes_from_url_path() {
    // Relies on the url crate: the path of the parsed URL, not the raw
    // text, feeds the filename, so the query must not survive.
    let n = segment_target_name("http://host/path/seg-0-a.ts?tok=1").unwrap();
    assert_eq!(n, "seg-0-a.ts");
}

#[test]
fn target_name_uses_percent_encoded_path() {
    // The url crate percent-encodes the path, so the name differs from
    // the raw text of the URL.
    let n = segment_target_name("http://host/path/seg 1.ts").unwrap();
    assert_eq!(n, "seg%201.ts");
}

#[test]
fn target_name_for_unparsable_url() {
    assert_eq!(segment_target_name("not a url"), None);
}
