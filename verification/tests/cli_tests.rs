use m3u8_fetch::cli::{choose_action, Action, Args};

fn args() -> Args {
    Args { url: None, file: None, headers: None, output_dir: None, concat: false }
}

#[test]
fn url_wins_over_everything() {
    let mut a = args();
    a.url = Some("http://host/p/i.m3u8".to_string());
    a.file = Some("list.m3u8".to_string());
    a.concat = true;
    match choose_action(&a) {
        Action::FromUrl(u) => assert_eq!(u, "http://host/p/i.m3u8"),
        _ => panic!("expected FromUrl"),
    }
}

#[test]
fn file_wins_over_concat() {
    let mut a = args();
    a.file = Some("list.m3u8".to_string());
    a.concat = true;
    match choose_action(&a) {
        Action::FromFile(f) => assert_eq!(f, "list.m3u8"),
        _ => panic!("expected FromFile"),
    }
}

#[test]
fn concat_alone_reassembles() {
    let mut a = args();
    a.concat = true;
    assert!(matches!(choose_action(&a), Action::ConcatOnly));
}

#[test]
fn nothing_to_do() {
    assert!(matches!(choose_action(&args()), Action::NoAction));
}
