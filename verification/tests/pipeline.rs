use bytes::Bytes;
use proxy::pipeline::{Chunk, Claim, Pipeline, Plan, Take};

/// Drives a pipeline of one-byte chunks on a simulated clock: fetching chunk `k` takes
/// `delay(k)` ticks, and the writer takes whatever is there. Gives the order in which
/// chunks were written and the peak of the reorder buffer.
fn drive_pipeline(
    nchunk: i64,
    threads: usize,
    slots: usize,
    delay: fn(u64) -> u64,
) -> (Vec<u64>, usize) {
    let plan = Plan { cursor: 0, final_end: nchunk - 1, chunk_size: 1, slots, threads };
    let mut pipeline: Pipeline<(u64, Bytes)> = Pipeline::new(plan);
    let mut idle = threads;
    let mut fetching: Vec<(u64, u64)> = Vec::new();
    let mut now = 0u64;
    let mut out = Vec::new();
    let mut peak = 0usize;
    loop {
        while idle > 0 {
            match pipeline.claim() {
                Claim::Wait => break,
                Claim::Exit => idle -= 1,
                Claim::Fetch(chunk) => {
                    assert_eq!(chunk.start, chunk.seq as i64);
                    assert_eq!(chunk.end, chunk.start);
                    idle -= 1;
                    fetching.push((now + delay(chunk.seq), chunk.seq));
                }
            }
        }
        fetching.sort();
        if !fetching.is_empty() {
            let (at, seq) = fetching.remove(0);
            now = at;
            assert!(pipeline.deliver(seq, Ok((seq, Bytes::new()))));
            idle += 1;
        }
        loop {
            let step = pipeline.take();
            // The chunk that is handed out was in the buffer until now.
            let handed_out = matches!(step, Take::Write(_)) as usize;
            peak = peak.max(pipeline.buffered() + handed_out);
            match step {
                Take::Write((seq, _)) => out.push(seq),
                Take::Wait => break,
                Take::Done => return (out, peak),
                Take::Fail(e) => panic!("{}", e),
            }
        }
        assert!(idle > 0 || !fetching.is_empty(), "deadlock");
    }
}

fn d_fast(_: u64) -> u64 {
    1
}

fn d_straggler(s: u64) -> u64 {
    if s % 5 == 2 {
        30
    } else {
        1
    }
}

fn d_head_slow(s: u64) -> u64 {
    if s == 0 {
        60
    } else {
        1
    }
}

#[test]
fn pipeline_ordered_and_bounded() {
    let (out, peak) = drive_pipeline(120, 16, 24, d_straggler);
    assert_eq!(out.len(), 120);
    assert!(out.windows(2).all(|w| w[1] == w[0] + 1), "out of order");
    assert!(peak <= 24, "reorder buffer: {peak}");
}

#[test]
fn pipeline_head_of_line_blocking_stays_bounded() {
    let (out, peak) = drive_pipeline(120, 16, 20, d_head_slow);
    assert_eq!(out.len(), 120);
    assert!(out.windows(2).all(|w| w[1] == w[0] + 1));
    assert!(peak <= 20, "reorder buffer: {peak}");
    assert!(peak > 0);
}

#[test]
fn pipeline_no_deadlock_when_threads_exceed_slots() {
    let (out, _) = drive_pipeline(8, 32, 4, d_fast);
    assert_eq!(out.len(), 8);
    assert!(out.windows(2).all(|w| w[1] == w[0] + 1));
}

#[test]
fn pipeline_minimal_config() {
    let (out, peak) = drive_pipeline(20, 1, 1, d_fast);
    assert_eq!(out.len(), 20);
    assert!(peak <= 1);
}

#[test]
fn chunks_tile_the_plan() {
    let plan = Plan { cursor: 10, final_end: 34, chunk_size: 10, slots: 8, threads: 4 };
    let mut pipeline: Pipeline<u8> = Pipeline::new(plan);
    assert_eq!(pipeline.claim(), Claim::Fetch(Chunk { seq: 0, start: 10, end: 19 }));
    assert_eq!(pipeline.claim(), Claim::Fetch(Chunk { seq: 1, start: 20, end: 29 }));
    assert_eq!(pipeline.claim(), Claim::Fetch(Chunk { seq: 2, start: 30, end: 34 }));
    assert_eq!(pipeline.claim(), Claim::Exit);
    // All other workers are fetching.
    assert_eq!(pipeline.claim(), Claim::Wait);
}

#[test]
fn chunks_at_the_end_of_the_integers() {
    let end = i64::MAX - 1;
    let plan = Plan { cursor: end - 10, final_end: end, chunk_size: 8, slots: 8, threads: 8 };
    let mut pipeline: Pipeline<u8> = Pipeline::new(plan);
    assert_eq!(
        pipeline.claim(),
        Claim::Fetch(Chunk { seq: 0, start: end - 10, end: end - 3 })
    );
    assert_eq!(pipeline.claim(), Claim::Fetch(Chunk { seq: 1, start: end - 2, end }));
    assert_eq!(pipeline.claim(), Claim::Exit);
}

#[test]
fn window_holds_until_a_chunk_is_written() {
    let plan = Plan { cursor: 0, final_end: 99, chunk_size: 10, slots: 2, threads: 3 };
    let mut pipeline: Pipeline<&str> = Pipeline::new(plan);
    assert!(matches!(pipeline.claim(), Claim::Fetch(_)));
    assert!(matches!(pipeline.claim(), Claim::Fetch(_)));
    assert_eq!(pipeline.claim(), Claim::Wait);
    assert!(pipeline.deliver(1, Ok("one")));
    assert_eq!(pipeline.take(), Take::Wait);
    assert_eq!(pipeline.buffered(), 1);
    assert_eq!(pipeline.claim(), Claim::Wait);
    assert!(pipeline.deliver(0, Ok("zero")));
    assert_eq!(pipeline.take(), Take::Write("zero"));
    // The chunk is handed out, but not written yet.
    assert_eq!(pipeline.claim(), Claim::Wait);
    assert_eq!(pipeline.take(), Take::Write("one"));
    assert!(matches!(pipeline.claim(), Claim::Fetch(Chunk { seq: 2, .. })));
}

#[test]
fn failure_ends_the_transfer() {
    let plan = Plan { cursor: 0, final_end: 99, chunk_size: 10, slots: 8, threads: 3 };
    let mut pipeline: Pipeline<&str> = Pipeline::new(plan);
    pipeline.claim();
    pipeline.claim();
    pipeline.claim();
    assert!(pipeline.deliver(0, Ok("zero")));
    assert!(!pipeline.deliver(2, Err("lost".to_string())));
    assert_eq!(pipeline.take(), Take::Write("zero"));
    assert_eq!(pipeline.take(), Take::Fail("lost".to_string()));
    assert_eq!(pipeline.take(), Take::Done);
    // Nobody takes what comes now, and workers leave.
    assert!(!pipeline.deliver(1, Ok("one")));
    assert_eq!(pipeline.claim(), Claim::Exit);
}

#[test]
fn unknown_chunk_is_not_taken() {
    let plan = Plan { cursor: 0, final_end: 99, chunk_size: 10, slots: 8, threads: 3 };
    let mut pipeline: Pipeline<&str> = Pipeline::new(plan);
    assert!(!pipeline.deliver(0, Ok("early")));
    assert_eq!(pipeline.take(), Take::Wait);
}
