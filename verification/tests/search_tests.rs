use std::sync::atomic::AtomicBool;
use std::sync::Arc;

use noggin::search::{mate_in_moves, relative_eval, stop_due, Limits, Worker, MAX_PLY};
use noggin::{Move, Position, MATE_SCORE};

fn root_search(fen: &str, depth: i32) -> (Worker, i32) {
    let pos = Position::from_fen(fen).unwrap();
    let mut w = Worker::new(1);
    w.start(vec![pos], Limits::new(), Arc::new(AtomicBool::new(false)));
    let score = w.search_root(depth);
    (w, score)
}

#[test]
fn checkmated_root_scores_a_mate_loss() {
    let (w, score) = root_search("rnb1kbnr/pppp1ppp/8/4p3/6Pq/5P2/PPPPP2P/RNBQKBNR w KQkq - 1 3", 2);
    assert!(!w.is_stopped());
    assert_eq!(score, -MATE_SCORE);
}

#[test]
fn stalemated_root_scores_a_draw() {
    let (_, score) = root_search("7k/5Q2/6K1/8/8/8/8/8 b - - 0 1", 3);
    assert_eq!(score, 0);
}

#[test]
fn fifty_move_rule_scores_a_draw() {
    let (_, score) = root_search("4k3/8/8/8/8/8/4P3/4K3 w - - 100 80", 2);
    assert_eq!(score, 0);
}

#[test]
fn quiet_leaves_score_their_static_evaluation() {
    let fen = "4k3/8/8/8/8/8/4P3/4K3 w - - 0 1";
    let pos = Position::from_fen(fen).unwrap();
    let (_, score) = root_search(fen, 1);
    assert_eq!(score, relative_eval(&pos));
}

#[test]
fn mate_in_one_is_found() {
    let (w, score) = root_search("6k1/5ppp/8/8/8/8/5PPP/R5K1 w - - 0 1", 2);
    assert_eq!(score, MATE_SCORE - 1);
    let pv = w.pv();
    assert_eq!(pv[0].uci(), "a1a8");
}

#[test]
fn stop_due_on_request_or_hard_limits() {
    let limits = Limits { hard_nodes: 1000, soft_nodes: 500, hard_time: 200, soft_time: 100, depth: 10 };
    assert!(stop_due(true, 0, 0, &limits));
    assert!(!stop_due(false, 199, 999, &limits));
    assert!(stop_due(false, 200, 0, &limits));
    assert!(stop_due(false, 0, 1000, &limits));
}

#[test]
fn deepening_keeps_the_completed_iteration() {
    let (w, score) = root_search("6k1/5ppp/8/8/8/8/5PPP/R5K1 w - - 0 1", 2);
    let mut root_score = 7;
    let mut root_pv = vec![Move::null(); MAX_PLY];
    let more = w.deepen_step(2, score, 0, &mut root_score, &mut root_pv);
    assert!(more);
    assert_eq!(root_score, score);
    assert_eq!(root_pv[0].uci(), "a1a8");
    let more = w.deepen_step(255, score, 0, &mut root_score, &mut root_pv);
    assert!(!more);
}

#[test]
fn mate_scores_read_as_moves_to_mate() {
    assert_eq!(mate_in_moves(MATE_SCORE - 1), Some(1));
    assert_eq!(mate_in_moves(MATE_SCORE - 2), Some(1));
    assert_eq!(mate_in_moves(MATE_SCORE - 3), Some(2));
    assert_eq!(mate_in_moves(-(MATE_SCORE - 2)), Some(-1));
    assert_eq!(mate_in_moves(-MATE_SCORE), Some(0));
    assert_eq!(mate_in_moves(150), None);
}
