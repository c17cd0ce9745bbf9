use m3u8_fetch::playlist::{choose_media_url, M3u8Data};

#[test]
fn parse_drops_directives_and_blanks() {
    let d = M3u8Data::new("#EXTM3U\nseg-0-a.ts\n\nseg-1-b.ts\n#EXT-X-ENDLIST\n".to_string());
    assert_eq!(d.links, vec!["seg-0-a.ts".to_string(), "seg-1-b.ts".to_string()]);
}

#[test]
fn parse_preserves_order() {
    let d = M3u8Data::new("c.ts\na.ts\n#comment\nb.ts".to_string());
    assert_eq!(
        d.links,
        vec!["c.ts".to_string(), "a.ts".to_string(), "b.ts".to_string()]
    );
}

#[test]
fn parse_normalizes_crlf() {
    let d = M3u8Data::new("#EXTM3U\r\na.ts\r\nb.ts\r\n".to_string());
    assert_eq!(d.links, vec!["a.ts".to_string(), "b.ts".to_string()]);
}

#[test]
fn parse_empty_text() {
    let d = M3u8Data::new(String::new());
    assert!(d.links.is_empty());
}

#[test]
fn parse_only_directives() {
    let d = M3u8Data::new("#a\n#b\n\n".to_string());
    assert!(d.links.is_empty());
}

#[test]
fn master_chooses_first_kept_line() {
    let text = "#EXTM3U\n#EXT-X-STREAM-INF:BANDWIDTH=1\n\nlow/index.m3u8\nhigh/index.m3u8\n";
    assert_eq!(choose_media_url(text), Some("low/index.m3u8".to_string()));
}

#[test]
fn master_with_no_candidate() {
    assert_eq!(choose_media_url("#EXTM3U\n\n"), None);
}
