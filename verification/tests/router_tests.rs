use std::collections::HashMap;

use voicesurf::frame::decode_frame_len;
use voicesurf::frame::encode_frame;
use voicesurf::ignore;
use voicesurf::index::ScoreResult;
use voicesurf::rank::top_k;
use voicesurf::router::Router;
use voicesurf::router::RouterEvent;
use voicesurf::router::RouterOutput;

fn eval_scores(r: &ScoreResult) -> HashMap<usize, f32> {
    let mut m: HashMap<usize, f32> = HashMap::new();
    for e in r.entries.iter() {
        let mut s: f32 = 0.0;
        for t in e.terms.iter() {
            let recip = (t.doc_len as f32).recip();
            let mut tf: f32 = 0.0;
            for _ in 0..t.count {
                tf += recip;
            }
            let idf = ((1 + r.n_docs) as f32 / (1 + t.df) as f32).ln();
            s += tf * idf;
        }
        m.insert(e.doc_id, s);
    }
    m
}

/// A key whose unsigned order agrees with the float order of the score.
fn score_key(s: f32) -> u64 {
    let bits = s.to_bits();
    let key = if bits & 0x8000_0000 != 0 {
        !bits
    } else {
        bits | 0x8000_0000
    };
    key as u64
}

fn sample_documents() -> Vec<(usize, Vec<u8>)> {
    vec![
        (0, b"this is sample".to_vec()),
        (1, b"this is another another example example example".to_vec()),
    ]
}

#[test]
fn create_index_and_query_threaded() {
    let tab_id = 3;
    let mut router = Router::new();
    ignore(router.handle_event(RouterEvent::FocusTab { tab_id }));
    ignore(router.handle_event(RouterEvent::UpdateIndex {
        tab_id,
        updated: sample_documents(),
        removed: vec![],
    }));
    match router.handle_event(RouterEvent::Query {
        tab_id,
        query: b"example".to_vec(),
    }) {
        Some(RouterOutput::ToBrowser { tab_id: _, result }) => {
            let scores_example = eval_scores(&result);
            assert_eq!(scores_example.get(&0).cloned().unwrap_or(0.0), 0.0);
            assert_eq!(scores_example.get(&1).cloned().unwrap_or(0.0), 0.17377077);
        }
        _ => assert!(false),
    }
}

#[test]
fn end_to_end_best_list() {
    let tab_id = 3;
    let mut router = Router::new();
    ignore(router.handle_event(RouterEvent::FocusTab { tab_id }));
    ignore(router.handle_event(RouterEvent::UpdateIndex {
        tab_id,
        updated: sample_documents(),
        removed: vec![],
    }));
    let out = router.handle_event(RouterEvent::Query {
        tab_id,
        query: b"example".to_vec(),
    });
    let result = match out {
        Some(RouterOutput::ToBrowser { tab_id: t, result }) => {
            assert_eq!(t, 3);
            result
        }
        _ => panic!("expected a score result"),
    };
    let scores = eval_scores(&result);
    assert_eq!(scores.get(&1).cloned().unwrap_or(0.0), 0.17377077);
    let scored: Vec<(u64, usize)> = scores
        .iter()
        .map(|(&id, &s)| (score_key(s), id))
        .collect();
    let best = top_k(scored, 10);
    // Document 0 contains no query token, so only document 1 is listed.
    assert_eq!(best, vec![1]);
}

#[test]
fn router_spawns_one_worker_per_tab() {
    let mut router = Router::new();
    assert_eq!(router.workers.len(), 0);
    ignore(router.handle_event(RouterEvent::FocusTab { tab_id: 7 }));
    ignore(router.handle_event(RouterEvent::FocusTab { tab_id: 7 }));
    ignore(router.handle_event(RouterEvent::Query {
        tab_id: 7,
        query: b"x".to_vec(),
    }));
    assert_eq!(router.workers.len(), 1);
    ignore(router.handle_event(RouterEvent::FocusTab { tab_id: 9 }));
    assert_eq!(router.workers.len(), 2);
}

#[test]
fn closed_tab_swallows_later_events() {
    let tab_id = 5;
    let mut router = Router::new();
    ignore(router.handle_event(RouterEvent::UpdateIndex {
        tab_id,
        updated: sample_documents(),
        removed: vec![],
    }));
    let closed = router.handle_event(RouterEvent::CloseTab { tab_id });
    assert!(closed.is_none());
    // The registry entry stays; later events reach the terminated worker
    // and are dropped rather than spawning a fresh one.
    assert_eq!(router.workers.len(), 1);
    let out = router.handle_event(RouterEvent::Query {
        tab_id,
        query: b"example".to_vec(),
    });
    assert!(out.is_none());
    assert_eq!(router.workers.len(), 1);
}

#[test]
fn update_applies_removals_after_updates() {
    let tab_id = 2;
    let mut router = Router::new();
    // An id in both lists ends up removed.
    ignore(router.handle_event(RouterEvent::UpdateIndex {
        tab_id,
        updated: sample_documents(),
        removed: vec![1],
    }));
    match router.handle_event(RouterEvent::Query {
        tab_id,
        query: b"example".to_vec(),
    }) {
        Some(RouterOutput::ToBrowser { tab_id: _, result }) => {
            assert_eq!(result.n_docs, 1);
            assert_eq!(result.entries.len(), 0);
        }
        _ => assert!(false),
    }
}

#[test]
fn focus_emits_vocabulary() {
    let tab_id = 4;
    let mut router = Router::new();
    ignore(router.handle_event(RouterEvent::UpdateIndex {
        tab_id,
        updated: vec![(0, b"alpha beta".to_vec())],
        removed: vec![],
    }));
    match router.handle_event(RouterEvent::FocusTab { tab_id }) {
        Some(RouterOutput::ToTalon { tab_id: t, words }) => {
            assert_eq!(t, 4);
            let mut ws: Vec<String> = words
                .into_iter()
                .map(|w| String::from_utf8(w).unwrap())
                .collect();
            ws.sort();
            assert_eq!(ws, vec!["alpha", "beta"]);
        }
        _ => assert!(false),
    }
}

#[test]
fn top_k_orders_and_truncates() {
    // Descending key; equal keys by ascending id; truncated to k.
    let scored: Vec<(u64, usize)> = vec![(5, 9), (7, 2), (5, 1), (9, 4)];
    assert_eq!(top_k(scored.clone(), 10), vec![4, 2, 1, 9]);
    assert_eq!(top_k(scored, 2), vec![4, 2]);
}

#[test]
fn frame_length_round_trips() {
    let payload = b"{\"tabId\":3,\"best\":[1]}".to_vec();
    let frame = encode_frame(&payload);
    assert_eq!(frame.len(), payload.len() + 4);
    let n = decode_frame_len(frame[0], frame[1], frame[2], frame[3]);
    assert_eq!(n as usize, payload.len());
    assert_eq!(&frame[4..], &payload[..]);
}
