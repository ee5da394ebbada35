use fraud_index::balance::pick_backend;
use fraud_index::cache::{hash_query, insert, len, lookup, LruCache, CAPACITY};
use fraud_index::dataset::Dataset;
use fraud_index::distance::DIMS;
use fraud_index::engine::{process, warm_nprobe, warm_query, AppState};
use fraud_index::fastpath::{fast_path, is_less, FastResult};
use fraud_index::http::{get_content_length, FraudResult, HTTP_BAD_REQUEST, HTTP_NOT_FOUND,
    HTTP_READY, RESPONSE_BODIES};
use fraud_index::ivf::IVFIndex;
use fraud_index::server::{after_read, after_send, answer_request, before_read, frame, on_event,
    process_buffer, reset_when_crowded, respond, Conn, EventStep, Framing, ReadStep, Received,
    Route, Sent, WriteStep, READ_BUF_SIZE, SCORE_RESPONSES, SERVICE_UNAVAILABLE};
use std::sync::Arc;

fn fill(conn: &mut Conn, bytes: &[u8]) {
    conn.read_buf[conn.filled..conn.filled + bytes.len()].copy_from_slice(bytes);
    assert_ne!(after_read(conn, Received::Data(bytes.len())), ReadStep::Process);
}

const READY: &[u8] = b"GET /ready HTTP/1.1\r\nHost: a\r\n\r\n";
const SCORE: &[u8] = b"POST /fraud-score HTTP/1.1\r\nContent-Length: 2\r\n\r\n{}";

#[test]
fn requests_are_framed() {
    assert_eq!(frame(b""), Framing::Incomplete);
    assert_eq!(
        frame(READY),
        Framing::Complete { route: Route::Ready, body_start: READY.len(), total: READY.len() },
    );
    assert_eq!(
        frame(SCORE),
        Framing::Complete { route: Route::FraudScore, body_start: 49, total: 51 },
    );
    assert_eq!(frame(&SCORE[..50]), Framing::Incomplete);
    for other in ["POST /ready", "GET /fraud-score", "GET /ready/", "get /ready"] {
        let text = format!("{} HTTP/1.1\r\nHost: a\r\n\r\n", other);
        assert!(matches!(
            frame(text.as_bytes()),
            Framing::Complete { route: Route::Unknown, .. }
        ));
    }
}

#[test]
fn impossible_lengths_overflow() {
    let text = format!("POST /fraud-score HTTP/1.1\r\nContent-Length: {}\r\n\r\n", usize::MAX);
    assert_eq!(frame(text.as_bytes()), Framing::Overflow);
}

#[test]
fn complete_requests_are_stable() {
    let mut more = SCORE.to_vec();
    more.extend_from_slice(b"Content-Length: 99\r\n\r\nGET ");
    assert_eq!(frame(&more), frame(SCORE));
}

#[test]
fn responses_follow_the_outcome() {
    let score = |n| Some(FraudResult::Score(n));
    assert_eq!(respond(Route::Ready, None), SERVICE_UNAVAILABLE);
    assert_eq!(respond(Route::Ready, score(0)), HTTP_READY);
    assert_eq!(respond(Route::FraudScore, None), SERVICE_UNAVAILABLE);
    assert_eq!(respond(Route::FraudScore, score(4)), SCORE_RESPONSES[4]);
    assert_eq!(respond(Route::FraudScore, score(99)), SCORE_RESPONSES[5]);
    assert_eq!(respond(Route::FraudScore, Some(FraudResult::Error)), HTTP_BAD_REQUEST);
    assert_eq!(respond(Route::Unknown, None), HTTP_NOT_FOUND);
    assert_eq!(respond(Route::Unknown, score(1)), HTTP_NOT_FOUND);
}

#[test]
fn score_responses_carry_the_bodies() {
    for n in 0..6 {
        let response = SCORE_RESPONSES[n];
        assert_eq!(get_content_length(response.as_bytes()), RESPONSE_BODIES[n].len());
        assert_eq!(&response[63..], RESPONSE_BODIES[n]);
    }
}

#[test]
fn nothing_succeeds_while_loading() {
    for route in [Route::Ready, Route::FraudScore, Route::Unknown] {
        assert!(!respond(route, None).starts_with("HTTP/1.1 200"));
    }
}

#[test]
fn pipelined_requests_are_answered_in_turn() {
    let mut conn = Conn::new();
    assert_eq!(conn.read_buf.len(), READ_BUF_SIZE);
    fill(&mut conn, READY);
    fill(&mut conn, SCORE);
    fill(&mut conn, &SCORE[..7]);
    let outcome = Some(FraudResult::Score(2));
    assert_eq!(process_buffer(&mut conn, outcome), Some(HTTP_READY));
    assert_eq!(conn.filled, SCORE.len() + 7);
    assert_eq!(process_buffer(&mut conn, outcome), Some(SCORE_RESPONSES[2]));
    assert_eq!(&conn.read_buf[..conn.filled], &SCORE[..7]);
    assert_eq!(process_buffer(&mut conn, outcome), None);
    assert_eq!(conn.filled, 7);
    fill(&mut conn, &SCORE[7..]);
    assert!(matches!(
        conn.request(),
        Framing::Complete { route: Route::FraudScore, total: 51, .. }
    ));
    assert_eq!(process_buffer(&mut conn, None), Some(SERVICE_UNAVAILABLE));
    assert_eq!(conn.filled, 0);
}

#[test]
fn blocking_connections_render_their_responses() {
    let mut conn = Conn::with_size(4096);
    fill(&mut conn, READY);
    fill(&mut conn, SCORE);
    let mut out = Vec::new();
    assert!(answer_request(&mut conn, FraudResult::Error, &mut out));
    assert_eq!(out, HTTP_READY.as_bytes());
    assert!(answer_request(&mut conn, FraudResult::Score(1), &mut out));
    assert!(out.ends_with(RESPONSE_BODIES[1].as_bytes()));
    assert!(!answer_request(&mut conn, FraudResult::Error, &mut out));
    fill(&mut conn, SCORE);
    out.clear();
    assert!(answer_request(&mut conn, FraudResult::Error, &mut out));
    assert_eq!(out, HTTP_BAD_REQUEST.as_bytes());
    fill(&mut conn, b"PUT / HTTP/1.1\r\nHost: a\r\n\r\n");
    out.clear();
    assert!(answer_request(&mut conn, FraudResult::Error, &mut out));
    assert_eq!(out, HTTP_NOT_FOUND.as_bytes());
}

#[test]
fn crowded_buffers_are_reset() {
    let mut conn = Conn::with_size(4096);
    conn.filled = 3071;
    reset_when_crowded(&mut conn);
    assert_eq!(conn.filled, 3071);
    conn.filled = 3072;
    reset_when_crowded(&mut conn);
    assert_eq!(conn.filled, 0);
}

#[test]
fn reads_go_on_until_they_block() {
    let mut conn = Conn::with_size(10);
    assert_eq!(before_read(&conn), ReadStep::ReadAgain);
    assert_eq!(after_read(&mut conn, Received::Data(4)), ReadStep::ReadAgain);
    assert_eq!(conn.filled, 4);
    assert_eq!(after_read(&mut conn, Received::WouldBlock), ReadStep::Process);
    assert_eq!(after_read(&mut conn, Received::Closed), ReadStep::Drop);
    assert_eq!(after_read(&mut conn, Received::Failed), ReadStep::Drop);
    assert_eq!(after_read(&mut conn, Received::Data(6)), ReadStep::Drop);
    assert_eq!(before_read(&conn), ReadStep::Drop);
}

#[test]
fn responses_are_sent_to_the_end() {
    assert_eq!(after_send(0, 10, Sent::Data(4)), WriteStep::SendFrom(4));
    assert_eq!(after_send(4, 10, Sent::Data(6)), WriteStep::Finish);
    assert_eq!(after_send(4, 10, Sent::WouldBlock), WriteStep::Keep);
    assert_eq!(after_send(4, 10, Sent::Failed), WriteStep::Drop);
}

#[test]
fn events_of_broken_connections_drop_them() {
    assert_eq!(on_event(false, true, true), EventStep::Ignore);
    assert_eq!(on_event(true, true, true), EventStep::Drop);
    assert_eq!(on_event(true, false, true), EventStep::Read);
    assert_eq!(on_event(true, false, false), EventStep::Ignore);
}

fn bits(v: [f32; DIMS]) -> [u32; DIMS] {
    v.map(|x| x.to_bits())
}

/// Features that no rule settles.
fn borderline() -> [f32; DIMS] {
    let mut v = [0.0f32; DIMS];
    v[0] = 0.3;
    v[2] = 0.5;
    v[7] = 0.3;
    v[8] = 0.5;
    v[11] = 1.0;
    v[12] = 0.5;
    v
}

#[test]
fn bit_patterns_compare_like_numbers() {
    let values = [f32::NEG_INFINITY, -1.5, -0.0, 0.0, 1e-40, 0.03, 0.5, 1.0, f32::INFINITY, f32::NAN];
    for a in values {
        for b in values {
            assert_eq!(is_less(a.to_bits(), b.to_bits()), a < b);
        }
    }
}

#[test]
fn rules_settle_clear_cases() {
    assert_eq!(fast_path(&bits(borderline())), FastResult::Borderline);

    let mut v = borderline();
    v[0] = 0.02;
    v[7] = 0.04;
    v[11] = 0.0;
    v[12] = 0.1;
    v[8] = 0.9;
    v[9] = 1.0;
    v[2] = 0.9;
    assert_eq!(fast_path(&bits(v)), FastResult::Legit);

    let mut v = borderline();
    v[0] = 0.14;
    v[7] = 0.19;
    v[11] = 0.0;
    assert_eq!(fast_path(&bits(v)), FastResult::Legit);

    let mut v = borderline();
    v[0] = 0.24;
    v[12] = 0.14;
    v[11] = 0.0;
    assert_eq!(fast_path(&bits(v)), FastResult::Legit);

    let mut v = borderline();
    v[2] = 0.09;
    v[8] = 0.19;
    v[7] = 0.14;
    v[10] = 1.0;
    assert_eq!(fast_path(&bits(v)), FastResult::Legit);

    let mut v = borderline();
    v[0] = 0.04;
    v[11] = 0.0;
    v[8] = 0.05;
    assert_eq!(fast_path(&bits(v)), FastResult::Legit);

    let mut v = borderline();
    v[0] = 0.09;
    v[12] = 0.19;
    v[2] = 0.29;
    assert_eq!(fast_path(&bits(v)), FastResult::Legit);

    let mut v = borderline();
    v[2] = 0.04;
    v[8] = 0.29;
    v[10] = 1.0;
    assert_eq!(fast_path(&bits(v)), FastResult::Legit);
}

#[test]
fn rules_settle_clear_frauds() {
    let cases: [&[(usize, f32)]; 9] = [
        &[(0, 0.81), (7, 0.71), (12, 0.61), (10, 1.0)],
        &[(0, 0.51), (9, 1.0), (12, 0.61)],
        &[(0, 0.41), (7, 0.51)],
        &[(2, 0.91), (8, 0.81)],
        &[(8, 0.81), (7, 0.51), (10, 1.0)],
        &[(0, 0.91), (9, 1.0)],
        &[(0, 0.61), (7, 0.81), (11, 0.0)],
        &[(8, 0.91), (7, 0.41), (12, 0.51), (11, 0.0)],
        &[(12, 0.71), (9, 1.0), (0, 0.21)],
    ];
    for case in cases {
        let mut v = borderline();
        for &(d, x) in case {
            v[d] = x;
        }
        assert_eq!(fast_path(&bits(v)), FastResult::Fraud);
    }
}

#[test]
fn rules_are_monotone() {
    let mut safer = borderline();
    safer[0] = 0.02;
    safer[11] = 0.0;
    safer[7] = 0.1;
    let mut safest = safer;
    safest[0] = 0.0;
    safest[10] = 1.0;
    assert_eq!(fast_path(&bits(safer)), FastResult::Legit);
    assert_eq!(fast_path(&bits(safest)), FastResult::Legit);
    let mut worse = borderline();
    worse[0] = 0.95;
    worse[9] = 1.0;
    let mut worst = worse;
    worst[8] = 1.0;
    worst[12] = 1.0;
    assert_eq!(fast_path(&bits(worse)), FastResult::Fraud);
    assert_eq!(fast_path(&bits(worst)), FastResult::Fraud);
}

#[test]
fn what_is_no_number_settles_nothing() {
    assert_eq!(fast_path(&bits([f32::NAN; DIMS])), FastResult::Borderline);
}

#[test]
fn clear_cases_skip_the_search() {
    let mut ds = Dataset::new();
    ds.count = 3;
    ds.num_cells = 1;
    ds.labels = vec![1, 0, 1];
    ds.centroids = vec![[0i16; DIMS]];
    ds.cell_meta = vec![(0, 3)];
    ds.cell_indices = vec![0, 1, 2];
    ds.dims = vec![0i16; DIMS * 3];
    let ivf = IVFIndex::build_from_dataset(&ds, 1);
    let state = AppState { dataset: Arc::new(ds), ivf: Arc::new(ivf) };
    let query = [0i16; DIMS];
    assert_eq!(process(&bits(borderline()), &query, &state), FraudResult::Score(2));
    assert_eq!(process(&bits([0.0; DIMS]), &query, &state), FraudResult::Score(0));
    let mut fraud = borderline();
    fraud[0] = 0.95;
    fraud[9] = 1.0;
    assert_eq!(process(&bits(fraud), &query, &state), FraudResult::Score(5));
}

#[test]
fn warm_up_queries_are_spread() {
    for i in [0u32, 1, 16, 777, 1023, u32::MAX] {
        let q = warm_query(i);
        for d in 0..DIMS {
            let x = i.wrapping_mul(2654435761).wrapping_add(d as u32 * 37) as i16;
            assert_eq!(q[d], x.wrapping_mul(13));
        }
    }
    assert_eq!(warm_nprobe(0), 48);
    assert_eq!(warm_nprobe(1), 1);
    assert_eq!(warm_nprobe(32), 48);
}

fn query(x: i16) -> [i16; DIMS] {
    let mut q = [0i16; DIMS];
    q[0] = x;
    q
}

#[test]
fn queries_hash_by_their_components() {
    let mut h: u64 = 0xcbf29ce484222325;
    let q = [5i16, -1, 0, i16::MIN, i16::MAX, 9, 8, 7, 6, 5, 4, 3, 2, 1];
    for d in 0..DIMS {
        h ^= q[d] as u64;
        h = h.wrapping_mul(0x100000001b3);
    }
    assert_eq!(hash_query(&q), h);
}

#[test]
fn inserted_counts_are_found() {
    let mut cache = LruCache::new();
    assert_eq!(lookup(&mut cache, &query(1)), None);
    insert(&mut cache, &query(1), 3);
    insert(&mut cache, &query(2), 4);
    assert_eq!(lookup(&mut cache, &query(1)), Some(3));
    assert_eq!(lookup(&mut cache, &query(2)), Some(4));
    insert(&mut cache, &query(1), 5);
    assert_eq!(lookup(&mut cache, &query(1)), Some(5));
    assert_eq!(len(&cache), 2);
    assert_eq!(cache.tick, 7);
}

#[test]
fn a_full_cache_evicts_the_least_recently_used() {
    let mut cache = LruCache::new();
    for i in 0..CAPACITY {
        insert(&mut cache, &query(i as i16), (i % 6) as u8);
    }
    assert_eq!(len(&cache), CAPACITY);
    assert_eq!(lookup(&mut cache, &query(0)), Some(0));
    insert(&mut cache, &query(5000), 1);
    assert_eq!(len(&cache), CAPACITY);
    assert_eq!(lookup(&mut cache, &query(0)), Some(0));
    assert_eq!(lookup(&mut cache, &query(1)), None);
    assert_eq!(lookup(&mut cache, &query(2)), Some(2));
    assert_eq!(lookup(&mut cache, &query(5000)), Some(1));
}

#[test]
fn backends_take_turns() {
    let picks: Vec<usize> = (7..13).map(|t| pick_backend(t, 3)).collect();
    assert_eq!(picks, vec![1, 2, 0, 1, 2, 0]);
    assert_eq!(pick_backend(9, 1), 0);
}

#[test]
fn answers_last_while_there_is_room() {
    let mut cache = LruCache::new();
    insert(&mut cache, &query(7), 3);
    for i in 100..600 {
        assert_eq!(lookup(&mut cache, &query(i)), None);
        insert(&mut cache, &query(i), 1);
        assert_eq!(lookup(&mut cache, &query(7)), Some(3));
        assert_eq!(lookup(&mut cache, &query(8)), None);
    }
    assert_eq!(len(&cache), 501);
}
