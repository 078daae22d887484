use baka::perft::{perft, POSITIONS, RESULTS};
use baka::pos::Position;

fn count(p: usize, depth: usize) -> u64 {
    perft(&mut Position::from_fen(POSITIONS[p]).unwrap(), depth as u8)
}

const N: usize = 5;

#[test]
fn position_one() {
    assert_eq!(count(0, N), RESULTS[0][N - 1]);
}

#[test]
fn position_two() {
    assert_eq!(count(1, N), RESULTS[1][N - 1]);
}

#[test]
fn position_three() {
    assert_eq!(count(2, N), RESULTS[2][N - 1]);
}

#[test]
fn position_four() {
    assert_eq!(count(3, N), RESULTS[3][N - 1]);
}

#[test]
fn position_five() {
    assert_eq!(count(4, N), RESULTS[4][N - 1]);
}

#[test]
fn position_six() {
    assert_eq!(count(5, N), RESULTS[5][N - 1]);
}

#[test]
fn shallow_counts() {
    for p in 0..6 {
        for d in 1..=3 {
            assert_eq!(count(p, d), RESULTS[p][d - 1], "position {} depth {}", p, d);
        }
    }
}
