use baka::defs::INFINITY;
use baka::movgen::{Move, MoveList};
use baka::pos::Position;
use baka::pvtable::{EntryFlags, HashEntry, HashTable, PVLine, NUM_ENTRIES};
use baka::search::{Score, ScoreText, SearchInfo};
use baka::uci::START_FEN;

const FOOLS_MATE: &str = "rnb1kbnr/pppp1ppp/8/4p3/6Pq/5P2/PPPPP2P/RNBQKBNR w KQkq - 1 3";
const STALEMATE: &str = "7k/5Q2/6K1/8/8/8/8/8 b - - 0 1";
const BACK_RANK: &str = "6k1/5ppp/8/8/8/8/5PPP/3R2K1 w - - 0 1";

fn play(p: &mut Position, text: &str) -> bool {
    let mut moves = MoveList::new();
    p.gen_moves::<false>(&mut moves);
    for i in 0..moves.len() {
        let m = moves.get(i).0;
        if m.to_string() == text {
            return p.make_move(m);
        }
    }
    false
}

fn legal_count(p: &mut Position) -> usize {
    let mut moves = MoveList::new();
    p.gen_moves::<false>(&mut moves);
    let mut n = 0;
    for i in 0..moves.len() {
        if p.make_move(moves.get(i).0) {
            p.unmake_move();
            n += 1;
        }
    }
    n
}

#[test]
fn checkmate_has_no_legal_move_and_the_mate_score() {
    let mut p = Position::from_fen(FOOLS_MATE).unwrap();
    assert_eq!(legal_count(&mut p), 0);
    assert!(p.in_check(0));
    let mut info = SearchInfo::new(1, None);
    assert_eq!(p.alpha_beta(-INFINITY, INFINITY, 1, &mut info, true), -INFINITY);
    let out = p.search(&mut info);
    assert_eq!(out.best, None);
    assert_eq!(out.reports.len(), 1);
    assert_eq!(out.reports[0].score, -INFINITY);
    assert!(out.reports[0].pv.is_empty());
}

#[test]
fn stalemate_has_no_legal_move_and_scores_zero() {
    let mut p = Position::from_fen(STALEMATE).unwrap();
    assert_eq!(legal_count(&mut p), 0);
    assert!(!p.in_check(1));
    let mut info = SearchInfo::new(3, None);
    assert_eq!(p.alpha_beta(-INFINITY, INFINITY, 3, &mut info, true), 0);
    let out = p.search(&mut info);
    assert_eq!(out.best, None);
    assert!(out.reports.iter().all(|r| r.score == 0));
}

#[test]
fn mate_in_one_is_found() {
    let mut p = Position::from_fen(BACK_RANK).unwrap();
    let mut info = SearchInfo::new(3, None);
    let out = p.search(&mut info);
    assert_eq!(out.best.unwrap().to_string(), "d1d8");
    assert_eq!(out.reports.len(), 3);
    let last = out.reports.last().unwrap();
    assert_eq!(last.depth, 3);
    assert_eq!(last.score, INFINITY - 1);
    assert_eq!(Score(last.score).text(), ScoreText::Mate(1));
    assert_eq!(last.pv[0].to_string(), "d1d8");
    assert!(p.verify());
    assert_eq!(p.hist_ply, 0);
}

#[test]
fn pruning_does_not_change_the_decision() {
    for fen in [BACK_RANK, "r1bqkb1r/pppp1ppp/2n2n2/4p2Q/2B1P3/8/PPPP1PPP/RNB1K1NR w KQkq - 4 4"] {
        let mut plain = Position::from_fen(fen).unwrap();
        let mut info = SearchInfo::new(4, None);
        info.null_move = false;
        info.late_move_reduction = false;
        let a = plain.search(&mut info);
        let mut pruned = Position::from_fen(fen).unwrap();
        let mut info = SearchInfo::new(4, None);
        let b = pruned.search(&mut info);
        assert_eq!(a.best.unwrap().to_string(), b.best.unwrap().to_string(), "{}", fen);
        assert_eq!(a.reports.last().unwrap().score, b.reports.last().unwrap().score, "{}", fen);
    }
}

#[test]
fn repetition_is_scored_as_a_draw() {
    let mut p = Position::from_fen(START_FEN).unwrap();
    assert!(!p.is_repetition());
    for text in ["g1f3", "g8f6", "f3g1"] {
        assert!(play(&mut p, text));
        assert!(!p.is_repetition());
    }
    assert!(play(&mut p, "f6g8"));
    assert!(p.is_repetition());
    let mut info = SearchInfo::new(4, None);
    p.ply = 1;
    assert_eq!(p.alpha_beta(-INFINITY, INFINITY, 4, &mut info, true), 0);
    assert_eq!(info.nodes, 0);
    // twice more round, and the position stands for the third time
    for text in ["g1f3", "g8f6", "f3g1", "f6g8"] {
        assert!(play(&mut p, text));
    }
    assert!(p.is_repetition());
    assert_eq!(p.alpha_beta(-INFINITY, INFINITY, 4, &mut info, true), 0);
}

#[test]
fn a_pawn_move_closes_the_window_for_repetitions() {
    let mut p = Position::from_fen(START_FEN).unwrap();
    for text in ["g1f3", "g8f6", "f3g1", "f6g8", "e2e4"] {
        assert!(play(&mut p, text));
    }
    assert_eq!(p.fty, 0);
    assert!(!p.is_repetition());
}

#[test]
fn a_hundred_quiet_half_moves_are_a_draw() {
    let mut p = Position::from_fen("4k3/8/8/8/8/8/8/R3K3 w - - 100 80").unwrap();
    let mut info = SearchInfo::new(3, None);
    assert_eq!(p.alpha_beta(-INFINITY, INFINITY, 3, &mut info, true), 0);
    // one half-move before the limit every reply is a draw
    let mut q = Position::from_fen("4k3/8/8/8/8/8/8/R3K3 w - - 99 80").unwrap();
    assert_eq!(q.alpha_beta(-INFINITY, INFINITY, 3, &mut info, true), 0);
    let mut q = Position::from_fen("4k3/8/8/8/8/8/8/R3K3 w - - 50 80").unwrap();
    assert!(q.alpha_beta(-INFINITY, INFINITY, 3, &mut info, true) > 300);
    // the clock counts half-moves without a pawn move or capture
    let mut r = Position::from_fen("4k3/8/8/8/8/8/8/R3K3 w - - 98 80").unwrap();
    assert!(play(&mut r, "a1a2"));
    assert!(play(&mut r, "e8e7"));
    assert_eq!(r.fty, 100);
    assert_eq!(r.alpha_beta(-INFINITY, INFINITY, 3, &mut info, true), 0);
}

#[test]
fn a_new_position_has_an_empty_table() {
    let mut p = Position::from_fen(START_FEN).unwrap();
    assert!(p.pv_table.probe(p.key).is_none());
    assert!(p.pv_table.probe(0).is_none());
    assert_eq!(p.pv_line.len(), 0);
    assert_eq!(p.ply, 0);
    let mut info = SearchInfo::new(2, None);
    let out = p.search(&mut info);
    assert_eq!(out.reports.len(), 2);
    assert_eq!(p.pv_line.iter(), out.reports[1].pv);
    assert!(p.pv_table.probe(p.key).is_some());
}

#[test]
fn search_leaves_the_position_as_it_was() {
    let mut p = Position::from_fen(baka::perft::POSITIONS[1]).unwrap();
    let (board, key, turn, cas, ep) = (p.board, p.key, p.turn, p.cas, p.ep);
    let mut info = SearchInfo::new(3, None);
    let out = p.search(&mut info);
    assert!(out.best.is_some());
    assert!(p.move_exists(out.best.unwrap()));
    assert_eq!((p.board, p.key, p.turn, p.cas, p.ep), (board, key, turn, cas, ep));
    assert_eq!(p.hist_ply, 0);
    assert_eq!(p.ply, 0);
    assert!(p.verify());
}

#[test]
fn a_stopped_search_reports_nothing() {
    let mut p = Position::from_fen(START_FEN).unwrap();
    let mut info = SearchInfo::new(5, None);
    info.stopped = true;
    assert_eq!(p.alpha_beta(-INFINITY, INFINITY, 3, &mut info, true), 0);
    assert!(p.search_iteration(2, &mut info).is_none());
    let out = p.search(&mut info);
    assert!(out.reports.is_empty());
    assert_eq!(out.best, None);
}

#[test]
fn time_limit_is_a_matter_of_elapsed_time() {
    let info = SearchInfo::new(5, Some(100));
    assert!(!info.expired(99));
    assert!(info.expired(100));
    assert!(info.expired(101));
    let free = SearchInfo::new(5, None);
    assert!(!free.expired(u64::MAX));
    assert!(free.elapsed() < 60_000);
    let mut spent = SearchInfo::new(5, Some(0));
    assert!(spent.checkup());
    assert!(spent.stopped);
    let mut between = SearchInfo::new(5, Some(0));
    between.nodes = 1;
    assert!(!between.checkup());
    let mut late = SearchInfo::new(5, Some(10));
    assert!(!late.stop_if_late(9));
    assert!(late.stop_if_late(10));
    assert!(late.stop_if_late(0));
    let mut free = SearchInfo::new(5, None);
    assert!(!free.stop_if_late(u64::MAX));
}

#[test]
fn a_reading_of_the_clock_in_milliseconds() {
    assert_eq!(SearchInfo::millis(None), 0);
    assert_eq!(SearchInfo::millis(Some(0)), 0);
    assert_eq!(SearchInfo::millis(Some(1234)), 1234);
    assert_eq!(SearchInfo::millis(Some(u64::MAX as u128)), u64::MAX);
    assert_eq!(SearchInfo::millis(Some(u64::MAX as u128 + 1)), u64::MAX);
    assert_eq!(SearchInfo::millis(Some(u128::MAX)), u64::MAX);
}

#[test]
fn cutoffs_are_counted_and_remembered() {
    // white wins a queen at once: the reply to every other first move is refuted
    let mut p = Position::from_fen("4k3/8/8/3q4/4P3/8/8/4K3 w - - 0 1").unwrap();
    let mut info = SearchInfo::new(3, None);
    let out = p.search(&mut info);
    assert_eq!(out.best.unwrap().to_string(), "e4d5");
    let last = out.reports.last().unwrap();
    assert!(last.fh > 0);
    assert!(last.fhf <= last.fh);
    assert_eq!((info.fh, info.fhf), (last.fh, last.fhf));
    // the root is in the table with the move found, and a quiet killer was noted somewhere
    let e = p.pv_table.probe(p.key).unwrap();
    assert_eq!(e.m.to_string(), "e4d5");
    assert_eq!(e.depth, 3);
    assert!(p.search_killers.iter().any(|r| r.iter().any(|m| !m.is_null() && !m.cap())));
    assert!(p.search_hist.iter().any(|r| r.iter().any(|&w| w > 0)));
}

#[test]
fn quiescence_plays_the_captures_out() {
    // white to move can win the queen that stands en prise
    let mut p = Position::from_fen("4k3/8/8/3q4/4P3/8/8/4K3 w - - 0 1").unwrap();
    let mut info = SearchInfo::new(1, None);
    let stand = p.eval();
    let q = p.quiescence(-INFINITY, INFINITY, &mut info);
    assert!(stand < 0);
    assert!(q > 0);
    assert!(p.verify());
}

#[test]
fn score_text() {
    assert_eq!(Score(100).text(), ScoreText::Cp(100));
    assert_eq!(Score(-250).text(), ScoreText::Cp(-250));
    assert_eq!(Score(INFINITY - 1).text(), ScoreText::Mate(1));
    assert_eq!(Score(INFINITY - 3).text(), ScoreText::Mate(2));
    assert_eq!(Score(INFINITY - 99).text(), ScoreText::Mate(50));
    assert_eq!(Score(INFINITY - 100).text(), ScoreText::Cp(INFINITY - 100));
    assert_eq!(Score(-INFINITY).text(), ScoreText::Mate(0));
    assert_eq!(Score(-INFINITY + 4).text(), ScoreText::Mate(1));
    assert_eq!(Score(-INFINITY + 100).text(), ScoreText::Cp(-INFINITY + 100));
}

#[test]
fn table_stores_and_probes_by_full_key() {
    let mut t = HashTable::new();
    assert!(t.probe(5).is_none());
    // nothing was stored, so no key finds anything, key 0 no more than the others
    assert!(t.probe(0).is_none());
    assert!(t.probe(NUM_ENTRIES).is_none());
    let e = HashEntry { m: Move::new_usual(12, 28, false), score: 33, depth: 7, flags: EntryFlags::Exact };
    t.store(5, e);
    let got = t.probe(5).unwrap();
    assert_eq!((got.m, got.score, got.depth), (e.m, 33, 7));
    assert!(got.flags == EntryFlags::Exact);
    // another key of the same slot replaces the entry, and the old key is no longer found
    t.store(5 + NUM_ENTRIES, HashEntry { score: -1, ..e });
    assert!(t.probe(5).is_none());
    assert_eq!(t.probe(5 + NUM_ENTRIES).unwrap().score, -1);
    t.store(0, e);
    assert_eq!(t.probe(0).unwrap().score, 33);
    t.clear();
    assert!(t.probe(0).is_none());
    assert!(t.probe(5 + NUM_ENTRIES).is_none());
    t.store(7, e);
    assert_eq!(t.probe(7).unwrap().depth, 7);
    assert_eq!(t.entries.len() as u64, NUM_ENTRIES);
}

#[test]
fn principal_variation_line() {
    let mut l = PVLine::new();
    assert_eq!(l.len(), 0);
    l.push(Move::new_usual(12, 28, false));
    l.push(Move::new_usual(52, 36, false));
    assert_eq!(l.len(), 2);
    assert_eq!(l.get(1).to_string(), "e7e5");
    assert_eq!(l.iter(), vec![Move::new_usual(12, 28, false), Move::new_usual(52, 36, false)]);
    l.clear();
    assert_eq!(l.len(), 0);
    assert!(l.iter().is_empty());
}

#[test]
fn principal_variation_follows_the_table() {
    let mut p = Position::from_fen(START_FEN).unwrap();
    p.extract_pv_line(4);
    assert_eq!(p.pv_line.len(), 0);
    let e4 = Move::new_long(12, 28);
    p.pv_table.store(p.key, HashEntry { m: e4, score: 0, depth: 1, flags: EntryFlags::Exact });
    assert!(p.make_move(e4));
    let e5 = Move::new_long(52, 36);
    p.pv_table.store(p.key, HashEntry { m: e5, score: 0, depth: 1, flags: EntryFlags::Exact });
    assert!(p.make_move(e5));
    // a stored move that is not legal ends the line
    p.pv_table.store(p.key, HashEntry { m: Move::new_usual(0, 8, false), score: 0, depth: 1, flags: EntryFlags::Exact });
    p.unmake_move();
    p.unmake_move();
    p.extract_pv_line(4);
    assert_eq!(p.pv_line.iter(), vec![e4, e5]);
    p.extract_pv_line(1);
    assert_eq!(p.pv_line.iter(), vec![e4]);
    assert_eq!(p.hist_ply, 0);
    assert!(p.move_exists(e4));
    assert!(!p.move_exists(e5));
}

#[test]
fn search_reset_clears_the_ordering_tables() {
    let mut p = Position::from_fen(START_FEN).unwrap();
    p.search_hist[3][3] = 9;
    p.search_killers[1][5] = Move::new_usual(1, 2, false);
    p.ply = 7;
    p.search_reset();
    assert_eq!(p.ply, 0);
    assert!(p.search_hist.iter().all(|r| r.iter().all(|&x| x == 0)));
    assert!(p.search_killers.iter().all(|r| r.iter().all(|m| m.is_null())));
}

fn within(v: i16, lo: i16, hi: i16) -> i16 {
    if v <= lo {
        lo
    } else if v >= hi {
        hi
    } else {
        v
    }
}

#[test]
fn the_window_only_cuts_the_quiet_value() {
    for fen in [
        "4k3/8/8/3q4/4P3/8/8/4K3 w - - 0 1",
        "r3k2r/p1ppqpb1/bn2pnp1/3PN3/1p2P3/2N2Q1p/PPPBBPPP/R3K2R w KQkq - 0 1",
        START_FEN,
    ] {
        let mut p = Position::from_fen(fen).unwrap();
        let full = p.quiescence(-INFINITY, INFINITY, &mut SearchInfo::new(1, None));
        for (lo, hi) in [(-50i16, 50i16), (0, 1), (-1000, -900), (300, 2000), (full - 1, full + 1)] {
            let cut = p.quiescence(lo, hi, &mut SearchInfo::new(1, None));
            assert_eq!(cut, within(full, lo, hi));
        }
        assert!(p.verify());
    }
}

#[test]
fn a_search_without_depth_plays_the_captures_out() {
    let mut p = Position::from_fen("4k3/8/8/3q4/4P3/8/8/4K3 w - - 0 1").unwrap();
    let q = p.quiescence(-INFINITY, INFINITY, &mut SearchInfo::new(1, None));
    let v = p.alpha_beta(-INFINITY, INFINITY, 0, &mut SearchInfo::new(1, None), true);
    assert_eq!(v, q);
    let narrow = p.alpha_beta(-10, 10, 0, &mut SearchInfo::new(1, None), true);
    assert_eq!(narrow, within(q, -10, 10));
}

#[test]
fn a_search_of_one_ply_takes_the_best_reply() {
    for fen in [
        START_FEN,
        "4k3/8/8/3q4/4P3/8/8/4K3 w - - 0 1",
        "r3k2r/p1ppqpb1/bn2pnp1/3PN3/1p2P3/2N2Q1p/PPPBBPPP/R3K2R w KQkq - 0 1",
        BACK_RANK,
    ] {
        let mut p = Position::from_fen(fen).unwrap();
        let mut moves = MoveList::new();
        p.gen_moves::<false>(&mut moves);
        let mut best: Option<i16> = None;
        for i in 0..moves.len() {
            if p.make_move(moves.get(i).0) {
                p.ply += 1;
                let worth = -p.quiescence(-INFINITY, INFINITY, &mut SearchInfo::new(1, None));
                p.ply -= 1;
                p.unmake_move();
                if best.map_or(true, |b| worth > b) {
                    best = Some(worth);
                }
            }
        }
        let best = best.unwrap();
        let v = p.alpha_beta(-INFINITY, INFINITY, 1, &mut SearchInfo::new(1, None), true);
        assert_eq!(v, within(best, -INFINITY, INFINITY));
        let mut q = Position::from_fen(fen).unwrap();
        let cut = q.alpha_beta(best - 40, best - 20, 1, &mut SearchInfo::new(1, None), true);
        assert_eq!(cut, best - 20);
        let mut q = Position::from_fen(fen).unwrap();
        let low = q.alpha_beta(best + 20, best + 40, 1, &mut SearchInfo::new(1, None), true);
        assert_eq!(low, best + 20);
    }
}

#[test]
fn the_first_report_scores_the_best_reply() {
    for fen in [START_FEN, "4k3/8/8/3q4/4P3/8/8/4K3 w - - 0 1", BACK_RANK] {
        let mut p = Position::from_fen(fen).unwrap();
        let mut moves = MoveList::new();
        p.gen_moves::<false>(&mut moves);
        let mut best: Option<i16> = None;
        for i in 0..moves.len() {
            if p.make_move(moves.get(i).0) {
                p.ply += 1;
                let worth = -p.quiescence(-INFINITY, INFINITY, &mut SearchInfo::new(1, None));
                p.ply -= 1;
                p.unmake_move();
                if best.map_or(true, |b| worth > b) {
                    best = Some(worth);
                }
            }
        }
        let out = p.search(&mut SearchInfo::new(3, None));
        assert_eq!(out.reports.len(), 3);
        assert_eq!(out.reports[0].score, best.unwrap());
    }
    let mut mated = Position::from_fen(FOOLS_MATE).unwrap();
    let out = mated.search(&mut SearchInfo::new(2, None));
    assert_eq!(out.reports[0].score, -INFINITY);
    assert!(out.best.is_none());
    let mut stale = Position::from_fen(STALEMATE).unwrap();
    let out = stale.search(&mut SearchInfo::new(2, None));
    assert_eq!(out.reports[0].score, 0);
    assert!(out.best.is_none());
}
