use axum::http::{HeaderMap, HeaderName, HeaderValue};
use bytes::Bytes;
use proxy::pipeline::{Chunk, Claim, Pipeline, Take};
use proxy::player::{Fetched, MAX_INFLIGHT_BYTES};
use proxy::Player;

fn file() -> Vec<u8> {
    (0..400_000u32).map(|i| (i % 251) as u8).collect()
}

fn part(file: &[u8], start: i64, end: i64) -> Bytes {
    let end = (end as usize).min(file.len() - 1);
    Bytes::copy_from_slice(&file[start as usize..=end])
}

/// Carries out a transfer from an origin that has the file and answers the chunks of
/// each round in reverse.
fn transfer(range: &'static str, thread: usize, chunk_kb: i64) -> (Playhead, Vec<u8>) {
    let file = file();
    let mut incoming = HeaderMap::new();
    incoming.insert("range", HeaderValue::from_static(range));
    let player = Player::new(&incoming, thread, chunk_kb, "u".to_string()).ok().unwrap();
    assert!(player.in_bounds());
    let (start, end) = player.first_request();
    let body = part(&file, start, end);
    let mut headers = HeaderMap::new();
    headers.insert(
        HeaderName::from_static("content-range"),
        HeaderValue::from_str(&format!("bytes {start}-{end}/{}", file.len())).unwrap(),
    );
    let playback = player.play(Ok(Fetched { status: 206, headers, body })).unwrap().ok().unwrap();
    let mut out = playback.first.to_vec();
    if let Some(plan) = playback.rest {
        let mut pipeline: Pipeline<Bytes> = Pipeline::new(plan);
        let mut exited = 0usize;
        loop {
            let mut round: Vec<Chunk> = Vec::new();
            while exited + round.len() < plan.threads {
                match pipeline.claim() {
                    Claim::Fetch(chunk) => round.push(chunk),
                    Claim::Exit => exited += 1,
                    Claim::Wait => break,
                }
            }
            assert!(round.len() as i64 * plan.chunk_size <= MAX_INFLIGHT_BYTES);
            for chunk in round.into_iter().rev() {
                assert!(pipeline.deliver(chunk.seq, Ok(part(&file, chunk.start, chunk.end))));
            }
            let step = loop {
                match pipeline.take() {
                    Take::Write(data) => out.extend_from_slice(&data),
                    step => break step,
                }
            };
            match step {
                Take::Done => break,
                Take::Fail(e) => panic!("{}", e),
                _ => {}
            }
        }
    }
    let head = Playhead {
        content_range: playback.headers.get("content-range").unwrap().to_str().unwrap().to_string(),
        content_length: playback.headers.get("content-length").unwrap().to_str().unwrap().to_string(),
    };
    (head, out)
}

struct Playhead {
    content_range: String,
    content_length: String,
}

#[test]
fn whole_file_arrives() {
    let (head, out) = transfer("bytes=0-", 4, 16);
    assert_eq!(head.content_range, "bytes 0-399999/400000");
    assert_eq!(head.content_length, "400000");
    assert_eq!(out, file());
}

#[test]
fn closed_range_arrives() {
    let (head, out) = transfer("bytes=1000-199999", 7, 17);
    assert_eq!(head.content_range, "bytes 1000-199999/400000");
    assert_eq!(head.content_length, "199000");
    assert_eq!(out, file()[1000..200_000]);
}

#[test]
fn short_range_arrives_at_once() {
    let (head, out) = transfer("bytes=5-9", 4, 16);
    assert_eq!(head.content_length, "5");
    assert_eq!(out, file()[5..10]);
}

#[test]
fn range_behind_the_end_is_cut() {
    let (head, out) = transfer("bytes=399990-999999", 1, 8192);
    assert_eq!(head.content_range, "bytes 399990-399999/400000");
    assert_eq!(out, file()[399_990..]);
}

#[test]
fn first_byte_arrives_alone() {
    let (head, out) = transfer("bytes=0-0", 4, 16);
    assert_eq!(head.content_range, "bytes 0-0/400000");
    assert_eq!(head.content_length, "1");
    assert_eq!(out, file()[..1]);
}
