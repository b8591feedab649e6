use diorama::cli::arg;
use diorama::request::{frame_request, route, Route};

fn pairs_of(line: &str) -> Option<Vec<(String, Option<String>)>> {
    match route(line) {
        Route::Page => None,
        Route::Frame(pairs) => Some(
            pairs
                .iter()
                .map(|p| {
                    (
                        p.key.iter().collect::<String>(),
                        p.value.as_ref().map(|v| v.iter().collect::<String>()),
                    )
                })
                .collect(),
        ),
    }
}

fn kv(k: &str, v: Option<&str>) -> (String, Option<String>) {
    (k.to_string(), v.map(|s| s.to_string()))
}

#[test]
fn frame_query_is_split_into_pairs() {
    let got = pairs_of("GET /frame?yaw=0.8500&pitch=0.3800&dist=27.000&w=960 HTTP/1.1\r\n").unwrap();
    assert_eq!(
        got,
        vec![
            kv("yaw", Some("0.8500")),
            kv("pitch", Some("0.3800")),
            kv("dist", Some("27.000")),
            kv("w", Some("960")),
        ]
    );
}

#[test]
fn other_targets_get_the_page() {
    assert!(pairs_of("GET / HTTP/1.1\r\n").is_none());
    assert!(pairs_of("GET /index.html HTTP/1.1").is_none());
    assert!(pairs_of("GET /fram HTTP/1.1").is_none());
    assert!(pairs_of("").is_none());
    assert!(pairs_of("GET").is_none());
}

#[test]
fn frame_without_query_has_one_empty_pair() {
    assert_eq!(pairs_of("GET /frame HTTP/1.1").unwrap(), vec![kv("", None)]);
    assert_eq!(pairs_of("GET /frames?x HTTP/1.1").unwrap(), vec![kv("x", None)]);
}

#[test]
fn pieces_split_at_first_equals_and_keep_empties() {
    let got = pairs_of("  GET\t/frame?a=b=c&&d=&=e?f  ").unwrap();
    assert_eq!(
        got,
        vec![kv("a", Some("b=c")), kv("", None), kv("d", Some("")), kv("", Some("e?f"))]
    );
}

#[test]
fn unicode_white_space_separates_words() {
    let got = pairs_of("GET\u{a0}/frame?w=1\u{3000}HTTP/1.1").unwrap();
    assert_eq!(got, vec![kv("w", Some("1"))]);
}

#[test]
fn frame_settings_are_clamped() {
    let r = frame_request(10, 5000, 0, 9, 6);
    assert_eq!((r.w, r.h), (64, 1080));
    assert_eq!(r.opts.samples, 1);
    assert_eq!(r.opts.max_depth, 5);
    assert_eq!(r.opts.threads, 6);
    let r = frame_request(800, 450, 2, 3, 1);
    assert_eq!((r.w, r.h, r.opts.samples, r.opts.max_depth), (800, 450, 2, 3));
    let r = frame_request(5000, 1, 9, 0, 1);
    assert_eq!((r.w, r.h, r.opts.samples, r.opts.max_depth), (1920, 48, 4, 0));
}

#[test]
fn args_parse_or_default() {
    let args: Vec<String> = ["prog", "still", "640", "x", "+12", "70000", "-3", ""]
        .iter()
        .map(|s| s.to_string())
        .collect();
    assert_eq!(arg(&args, 2, 1280, usize::MAX), 640);
    assert_eq!(arg(&args, 3, 720, usize::MAX), 720);
    assert_eq!(arg(&args, 4, 2, usize::MAX), 12);
    assert_eq!(arg(&args, 5, 8080, u16::MAX as usize), 8080);
    assert_eq!(arg(&args, 5, 8080, usize::MAX), 70000);
    assert_eq!(arg(&args, 6, 1, usize::MAX), 1);
    assert_eq!(arg(&args, 7, 9, usize::MAX), 9);
    assert_eq!(arg(&args, 8, 4, usize::MAX), 4);
    assert_eq!(arg(&args, 2, 0, 639), 0);
    assert_eq!(arg(&args, 2, 0, 640), 640);
}
