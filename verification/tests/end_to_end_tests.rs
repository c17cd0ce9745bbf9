use m3u8_fetch::playlist::M3u8Data;
use m3u8_fetch::reassembly::{concat_all, order_segments};
use m3u8_fetch::resolve::{resolve_segment_url, segment_target_name};

#[test]
fn end_to_end_two_segments() {
    let body = "#EXTM3U\nseg-0-a.ts\nseg-1-b.ts\n";
    let base = "http://host/path/";

    let d = M3u8Data::new(body.to_string());
    assert_eq!(d.links, vec!["seg-0-a.ts".to_string(), "seg-1-b.ts".to_string()]);

    let urls: Vec<String> = d
        .links
        .iter()
        .map(|l| resolve_segment_url(base, l, false))
        .collect();
    assert_eq!(
        urls,
        vec![
            "http://host/path/seg-0-a.ts".to_string(),
            "http://host/path/seg-1-b.ts".to_string()
        ]
    );

    let names: Vec<String> = urls
        .iter()
        .map(|u| segment_target_name(u).unwrap())
        .collect();
    assert_eq!(
        names,
        vec!["seg-0-a.ts".to_string(), "seg-1-b.ts".to_string()]
    );

    let content_a = vec![1u8, 2, 3];
    let content_b = vec![9u8];
    let ordered = order_segments(&names).unwrap();
    assert_eq!(
        ordered,
        vec!["seg-0-a.ts".to_string(), "seg-1-b.ts".to_string()]
    );
    let parts: Vec<Vec<u8>> = ordered
        .iter()
        .map(|n| {
            if n == "seg-0-a.ts" {
                content_a.clone()
            } else {
                content_b.clone()
            }
        })
        .collect();
    assert_eq!(concat_all(&parts), vec![1u8, 2, 3, 9]);
}
