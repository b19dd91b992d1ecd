use axum::http::{HeaderMap, HeaderName, HeaderValue};
use bytes::Bytes;
use proxy::client::client_settings;
use proxy::pipeline::Plan;
use proxy::player::{answer_head, first_end_excl, take_up, Fetched, MAX_INFLIGHT_BYTES};
use proxy::query::Params;
use proxy::reply::internal_error;
use proxy::Player;

fn headers(fields: &[(&'static str, &'static str)]) -> HeaderMap {
    let mut map = HeaderMap::new();
    for (name, value) in fields {
        map.append(HeaderName::from_static(name), HeaderValue::from_static(value));
    }
    map
}

fn player(range: &'static str, thread: usize, chunk_kb: i64) -> Player {
    let incoming = headers(&[("range", range)]);
    Player::new(&incoming, thread, chunk_kb, "http://origin/file".to_string()).ok().unwrap()
}

fn fetched(status: u16, fields: &[(&'static str, &'static str)], body: &'static [u8]) -> Fetched {
    Fetched { status, headers: headers(fields), body: Bytes::from_static(body) }
}

#[test]
fn first_chunk_bounds() {
    // A closed range below a chunk: up to 2001 exactly, and no more.
    assert_eq!(first_end_excl(1000, 2000, 1024 * 1024), 2001);
    // A closed range above a chunk: cut at the chunk.
    assert_eq!(first_end_excl(1000, 99_999_999, 1024), 1000 + 1024);
    // An open range: a probe of 100 bytes.
    assert_eq!(first_end_excl(0, -1, 1024 * 1024), 100);
}

#[test]
fn only_some_fields_are_forwarded() {
    let mut incoming = headers(&[
        ("user-agent", "UA"),
        ("cookie", "a=1"),
        ("cookie", "b=2"),
        ("referer", "here"),
        ("authorization", "secret"),
        ("range", "bytes=5-9"),
    ]);
    incoming.insert("user-agent", HeaderValue::from_bytes(b"\xff\tUA").unwrap());
    let p = Player::new(&incoming, 4, 64, "u".to_string()).ok().unwrap();
    assert_eq!(p.header.len(), 3);
    assert_eq!(p.header.get("user-agent").unwrap().as_bytes(), b"\xff\tUA");
    assert_eq!(p.header.get("cookie").unwrap(), "a=1");
    assert_eq!(p.header.get_all("cookie").iter().count(), 1);
    assert_eq!(p.header.get("referer").unwrap(), "here");
    assert_eq!((p.start, p.end), (5, 9));
    assert_eq!(p.url, "u");
}

#[test]
fn unreadable_range_asks_for_everything() {
    let mut incoming = HeaderMap::new();
    incoming.insert("range", HeaderValue::from_bytes(b"bytes=5-9\xff").unwrap());
    let p = Player::new(&incoming, 4, 64, "u".to_string()).ok().unwrap();
    assert_eq!((p.start, p.end), (0, -1));
    assert_eq!(p.header.len(), 0);
}

#[test]
fn concurrency_is_clamped() {
    let p = player("bytes=0-", 256, 8192);
    assert_eq!((p.thread, p.chunk_size), (8, 8 * 1024 * 1024));
    let p = player("bytes=0-", 0, -5);
    assert_eq!((p.thread, p.chunk_size), (1, 16 * 1024));
    let p = player("bytes=0-", 24, 4096);
    assert_eq!((p.thread, p.chunk_size), (12, 4096 * 1024));
    let p = player("bytes=0-", usize::MAX, i64::MAX);
    assert_eq!((p.thread, p.chunk_size), (8, 8 * 1024 * 1024));
    let p = player("bytes=0-", 16, 1024);
    assert_eq!((p.thread, p.chunk_size), (16, 1024 * 1024));
    assert!(p.thread as i64 * p.chunk_size <= MAX_INFLIGHT_BYTES);
}

#[test]
fn missing_client_is_an_error() {
    let incoming = HeaderMap::new();
    let result =
        Player::with_client(&incoming, 4, 64, "u".to_string(), Err("no tls".to_string()));
    let message = result.err().unwrap();
    assert_eq!(message, "构建 HTTP client 失败: no tls");
    let refusal = internal_error(message);
    assert_eq!(refusal.status, 500);
    assert_eq!(refusal.body, "构建 HTTP client 失败: no tls");
}

#[test]
fn client_is_set_up_as_documented() {
    let s = client_settings();
    assert!(s.accept_invalid_certs);
    assert_eq!(s.max_idle_per_host, 20);
    assert_eq!(s.idle_timeout_secs, 60);
    assert_eq!(s.connect_timeout_secs, 10);
    assert_eq!(s.keepalive_secs, 30);
}

#[test]
fn first_requests() {
    assert_eq!(player("bytes=0-", 4, 16).first_request(), (0, 99));
    assert_eq!(player("bytes=1000-2000", 4, 16).first_request(), (1000, 2000));
    assert_eq!(player("bytes=1000-99999999", 4, 16).first_request(), (1000, 1000 + 16 * 1024 - 1));
    assert_eq!(player("bytes=0-0", 4, 16).first_request(), (0, 0));
    // An end before the start.
    assert_eq!(player("bytes=10-5", 4, 16).first_request(), (10, 10));
    assert!(player("bytes=10-5", 4, 16).in_bounds());
    assert!(!player("bytes=9223372036854775807-", 4, 16).in_bounds());
    assert!(!player("bytes=0-9223372036854775807", 4, 16).in_bounds());
}

#[test]
fn failed_first_request_is_a_bad_gateway() {
    let refusal = player("bytes=0-", 4, 16).play(Err("timeout".to_string())).unwrap().err().unwrap();
    assert_eq!((refusal.status, refusal.body.as_str()), (502, "首块下载失败: timeout"));
}

#[test]
fn origin_has_to_state_the_length() {
    let cases: [&[(&'static str, &'static str)]; 4] = [
        &[],
        &[("content-range", "bytes 0-99/*")],
        &[("content-range", "bytes 0-99/0")],
        &[("content-range", "bytes 0-99/-5")],
    ];
    for fields in cases {
        let refusal = player("bytes=0-", 4, 16).play(Ok(fetched(206, fields, b"abc"))).unwrap().err().unwrap();
        assert_eq!((refusal.status, refusal.body.as_str()), (502, "未获取到文件总大小"));
    }
}

#[test]
fn range_behind_the_file_is_refused() {
    let f = fetched(206, &[("content-range", "bytes 0-0/500")], b"a");
    let refusal = player("bytes=500-", 4, 16).play(Ok(f)).unwrap().err().unwrap();
    assert_eq!((refusal.status, refusal.body.as_str()), (416, "无效范围: 500-499/500"));
    let f = fetched(206, &[("content-range", "bytes 0-0/500")], b"a");
    let refusal = player("bytes=10-5", 4, 16).play(Ok(f)).unwrap().err().unwrap();
    assert_eq!((refusal.status, refusal.body.as_str()), (416, "无效范围: 10-5/500"));
}

#[test]
fn answer_head_and_plan() {
    let f = fetched(
        206,
        &[
            ("content-range", "bytes 1000-2000/12345"),
            ("content-length", "1001"),
            ("transfer-encoding", "chunked"),
            ("connection", "close"),
            ("content-type", "video/mp4"),
            ("set-cookie", "a"),
            ("set-cookie", "b"),
            ("accept-ranges", "none"),
        ],
        b"0123456789",
    );
    let p = player("bytes=1000-2000", 4, 16).play(Ok(f)).unwrap().ok().unwrap();
    assert_eq!(p.status, 206);
    assert_eq!(p.headers.len(), 5);
    assert_eq!(p.headers.get("content-range").unwrap(), "bytes 1000-2000/12345");
    assert_eq!(p.headers.get("content-length").unwrap(), "1001");
    assert_eq!(p.headers.get("accept-ranges").unwrap(), "bytes");
    assert_eq!(p.headers.get("content-type").unwrap(), "video/mp4");
    assert_eq!(p.headers.get("set-cookie").unwrap(), "b");
    assert_eq!(p.first, Bytes::from_static(b"0123456789"));
    assert_eq!(
        p.rest,
        Some(Plan { cursor: 1010, final_end: 2000, chunk_size: 16384, slots: 4096, threads: 4 })
    );
}

#[test]
fn end_is_cut_at_the_file() {
    let f = fetched(206, &[("content-range", "bytes 10-99/50")], b"0123456789");
    let p = player("bytes=10-99", 4, 8192).play(Ok(f)).unwrap().ok().unwrap();
    assert_eq!(p.headers.get("content-range").unwrap(), "bytes 10-49/50");
    assert_eq!(p.headers.get("content-length").unwrap(), "40");
    assert_eq!(
        p.rest,
        Some(Plan { cursor: 20, final_end: 49, chunk_size: 8388608, slots: 8, threads: 4 })
    );
}

#[test]
fn surplus_of_the_first_bytes_is_cut_off() {
    let f = fetched(200, &[("content-range", "bytes 0-99/4")], b"0123456789");
    let p = player("bytes=0-", 4, 16).play(Ok(f)).unwrap().ok().unwrap();
    assert_eq!(p.status, 200);
    assert_eq!(p.first, Bytes::from_static(b"0123"));
    assert_eq!(p.rest, None);
    assert_eq!(p.headers.get("content-length").unwrap(), "4");
}

#[test]
fn whole_file_status_needs_a_whole_file() {
    let cr = [("content-range", "bytes 0-99/400")];
    assert_eq!(player("bytes=0-", 4, 16).play(Ok(fetched(200, &cr, b""))).unwrap().ok().unwrap().status, 200);
    assert_eq!(player("bytes=0-", 4, 16).play(Ok(fetched(206, &cr, b""))).unwrap().ok().unwrap().status, 206);
    assert_eq!(player("bytes=1-", 4, 16).play(Ok(fetched(200, &cr, b""))).unwrap().ok().unwrap().status, 206);
    assert_eq!(player("bytes=0-9", 4, 16).play(Ok(fetched(200, &cr, b""))).unwrap().ok().unwrap().status, 206);
}

/// The answer to a request for everything, where the origin's answer has `names` names.
fn play_with_names(names: usize) -> Option<usize> {
    let mut f = fetched(206, &[("content-range", "bytes 0-99/400")], b"abc");
    for i in 1..names {
        let name = HeaderName::from_bytes(format!("x-{i}").as_bytes()).unwrap();
        f.headers.insert(name, HeaderValue::from_static("v"));
    }
    assert_eq!(f.headers.keys_len(), names);
    let playback = player("bytes=0-", 4, 16).play(Ok(f))?.ok().unwrap();
    assert_eq!(playback.headers.get("accept-ranges").unwrap(), "bytes");
    assert_eq!(playback.headers.get("x-1").unwrap(), "v");
    assert_eq!(playback.headers.get("content-length").unwrap(), "400");
    Some(playback.headers.keys_len())
}

#[test]
fn many_names_are_passed_on() {
    assert_eq!(play_with_names(100), Some(102));
    assert_eq!(play_with_names(6551), Some(6553));
    assert_eq!(play_with_names(6552), Some(6554));
    assert_eq!(play_with_names(20000), Some(20002));
    assert_eq!(play_with_names(24574), Some(24576));
}

#[test]
fn more_names_than_a_header_map_takes() {
    assert_eq!(play_with_names(24575), None);
    assert_eq!(play_with_names(24576), None);
}

#[test]
fn refusals_need_no_head() {
    let mut f = fetched(206, &[("content-range", "bytes 0-99/400")], b"abc");
    for i in 1..24576 {
        let name = HeaderName::from_bytes(format!("x-{i}").as_bytes()).unwrap();
        f.headers.insert(name, HeaderValue::from_static("v"));
    }
    let refusal = player("bytes=400-", 4, 16).play(Ok(f)).unwrap().err().unwrap();
    assert_eq!(refusal.status, 416);
}

#[test]
fn answer_needs_a_head() {
    let p = player("bytes=0-", 4, 16);
    assert!(p.opening(200, Bytes::from_static(b"abc"), 399, None).is_none());
    let head = answer_head(&headers(&[("etag", "e")]), 0, 399, 400).unwrap();
    assert_eq!(head.keys_len(), 4);
    assert_eq!(head.get("content-range").unwrap(), "bytes 0-399/400");
    let playback = p.opening(200, Bytes::from_static(b"abc"), 399, Some(head)).unwrap();
    assert_eq!(playback.status, 200);
    assert_eq!(playback.headers.get("etag").unwrap(), "e");
    assert_eq!(playback.rest.unwrap().cursor, 3);
}

fn params(pairs: &[(&str, &str)]) -> Params {
    let mut params = Params::new();
    for (name, value) in pairs {
        params.insert(name.to_string(), value.to_string());
    }
    params
}

#[test]
fn request_is_taken_up() {
    let incoming = headers(&[("range", "bytes=5-9"), ("referer", "here")]);
    let p = params(&[("thread", "64"), ("chunkSize", "16"), ("url", "http://x/y")]);
    let player = take_up(&p, &incoming).ok().unwrap();
    assert_eq!((player.start, player.end), (5, 9));
    assert_eq!((player.thread, player.chunk_size), (32, 16384));
    assert_eq!(player.url, "http://x/y");
    assert_eq!(player.header.get("referer").unwrap(), "here");
}

#[test]
fn request_with_wrong_parameters_is_refused() {
    let incoming = HeaderMap::new();
    let refusal = take_up(&params(&[("thread", "1")]), &incoming).err().unwrap();
    assert_eq!((refusal.status, refusal.body.as_str()), (400, "参数不完整"));
    let p = params(&[("thread", "x"), ("chunkSize", "16"), ("url", "u")]);
    let refusal = take_up(&p, &incoming).err().unwrap();
    assert_eq!((refusal.status, refusal.body.as_str()), (400, "thread必须为整数"));
}

#[test]
fn closed_range_may_end_at_the_first_byte() {
    let cr = [("content-range", "bytes 0-0/5000")];
    let p = player("bytes=0-0", 1, 16).play(Ok(fetched(206, &cr, b"a"))).unwrap().ok().unwrap();
    assert_eq!(p.status, 206);
    assert_eq!(p.headers.get("content-range").unwrap(), "bytes 0-0/5000");
    assert_eq!(p.headers.get("content-length").unwrap(), "1");
    assert_eq!(p.first, Bytes::from_static(b"a"));
    assert_eq!(p.rest, None);
    // An origin that answers with more, and with the status of a whole file.
    let p = player("bytes=0-0", 1, 16).play(Ok(fetched(200, &cr, b"abc"))).unwrap().ok().unwrap();
    assert_eq!(p.status, 206);
    assert_eq!(p.first, Bytes::from_static(b"a"));
    let refusal = player("bytes=5-0", 1, 16).play(Ok(fetched(206, &cr, b"a"))).unwrap().err().unwrap();
    assert_eq!((refusal.status, refusal.body.as_str()), (416, "无效范围: 5-0/5000"));
}

#[test]
fn first_end_at_the_end_of_the_integers() {
    assert_eq!(first_end_excl(i64::MAX - 50, i64::MAX - 1, 40), i64::MAX - 10);
    assert_eq!(first_end_excl(0, 0, 16), 1);
}
