//! The search: iterative deepening over an alpha-beta search with a
//! transposition table, null-move pruning, late move reduction and a
//! quiescence search at the horizon.

use crate::defs::{INFINITY, MAX_HIST};
use crate::model::{
    in_check, lemma_make_undoable, lemma_make_unmake, lemma_never_null, lemma_pass_undoable, legal,
    pseudo_legal, spec_make, spec_unmake, State,
};
use crate::movgen::{holds, Move, MoveList, OrderedMove};
use crate::pos::Position;
use crate::pvtable::{EntryFlags, HashEntry, HashTable, MAX_DEPTH};
use crate::quiet::{
    clamp, front_fn, front_value, front_worth, larger, leaf_result, lemma_front_covers,
    lemma_front_is_all, lemma_list_by_low, lemma_list_by_prefix, lemma_loud_covers,
    lemma_loud_is_all, lemma_state_drawn, lemma_state_eval, list_best_by, loud_fn, loud_worth,
    quiet_value, scored, state_eval, NO_SCORE,
};
use std::time::{Duration, SystemTime, SystemTimeError};
use vstd::prelude::*;

verus! {

/// The clock is read when the count of nodes has its low bits clear.
pub const CHECKUP_INTERVAL_MASK: u64 = 2047;

/// Plies by which the search after a pass is shortened.
pub const NULL_MOVE_R: u8 = 3;

/// Moves of a node that are searched to the full depth before any is reduced.
pub const FULL_DEPTH_MOVES: usize = 4;

/// The least depth at which a late move is reduced.
pub const REDUCTION_LIMIT: u8 = 3;

/// The half-move clock at which a game is drawn.
pub const FIFTY_MOVES: u16 = 100;

/// The type `std::time::SystemTime`, of which nothing is known here.
#[verifier::external_type_specification]
#[verifier::external_body]
pub struct ExSystemTime(SystemTime);

/// The type `std::time::SystemTimeError`, of which nothing is known here.
#[verifier::external_type_specification]
#[verifier::external_body]
pub struct ExSystemTimeError(SystemTimeError);

/// `SystemTime::now` of std: the current time of the system clock.
pub assume_specification[ SystemTime::now ]() -> SystemTime;

/// `SystemTime::elapsed` of std: the time that has passed since `t`, or an
/// error when the clock was set back meanwhile.
pub assume_specification[ SystemTime::elapsed ](t: &SystemTime) -> Result<
    Duration,
    SystemTimeError,
>;

/// `Duration::as_millis` of std: the whole milliseconds of the duration.
pub assume_specification[ Duration::as_millis ](d: &Duration) -> u128;

/// How a score is reported: as a distance to mate or in centipawns.
#[derive(Debug, Clone, Copy, PartialEq, Eq, Structural)]
pub enum ScoreText {
    Mate(i16),
    Cp(i16),
}

/// A score as the search returns it.
pub struct Score(pub i16);

impl Score {
    /// How the score reads: within a hundred of the mate sentinel it is a
    /// distance to mate in moves, else a number of centipawns.
    pub open spec fn spec_text(self) -> ScoreText {
        if self.0 > INFINITY - 100 {
            ScoreText::Mate(((INFINITY - self.0 + 1) / 2) as i16)
        } else if self.0 < -INFINITY + 100 {
            if self.0 + INFINITY - 1 < 0 {
                ScoreText::Mate(0)
            } else {
                ScoreText::Mate(((self.0 + INFINITY - 1) / 2) as i16)
            }
        } else {
            ScoreText::Cp(self.0)
        }
    }

    /// How the score reads.
    pub fn text(&self) -> (r: ScoreText)
        requires
            self.0 >= -INFINITY,
        ensures
            r == self.spec_text(),
    {
        if self.0 > INFINITY - 100 {
            ScoreText::Mate((INFINITY - self.0 + 1) / 2)
        } else if self.0 < -INFINITY + 100 {
            let d: i16 = self.0 + INFINITY - 1;
            if d < 0 {
                ScoreText::Mate(0)
            } else {
                ScoreText::Mate(d / 2)
            }
        } else {
            ScoreText::Cp(self.0)
        }
    }
}

/// The limits of a search and what it counts on its way.
pub struct SearchInfo {
    pub start_time: SystemTime,
    /// The time that the search may take, in milliseconds, if it is limited.
    pub move_time: Option<u64>,
    /// The depth at which iterative deepening ends.
    pub depth: u8,
    /// The nodes visited, counted modulo two to the 64.
    pub nodes: u64,
    /// The cutoffs by beta, and those among them that the first move gave.
    pub fh: u64,
    pub fhf: u64,
    /// Whether a pass is tried before the moves of a node.
    pub null_move: bool,
    /// Whether late moves are searched to a reduced depth first.
    pub late_move_reduction: bool,
    pub stopped: bool,
}

impl SearchInfo {
    /// The limits of both searches are the same.
    pub open spec fn same_limits(&self, o: &SearchInfo) -> bool {
        &&& self.start_time == o.start_time
        &&& self.move_time == o.move_time
        &&& self.depth == o.depth
        &&& self.null_move == o.null_move
        &&& self.late_move_reduction == o.late_move_reduction
    }

    /// A search to `depth` plies that starts now and may take `move_time` milliseconds.
    pub fn new(depth: u8, move_time: Option<u64>) -> (r: Self)
        ensures
            r.depth == depth,
            r.move_time == move_time,
            r.nodes == 0,
            r.fh == 0,
            r.fhf == 0,
            r.null_move,
            r.late_move_reduction,
            !r.stopped,
    {
        Self {
            start_time: SystemTime::now(),
            depth,
            nodes: 0,
            fh: 0,
            fhf: 0,
            move_time,
            null_move: true,
            late_move_reduction: true,
            stopped: false,
        }
    }

    /// The milliseconds that a reading of the clock stands for: those
    /// read, at most the largest 64-bit number; 0 if the clock gave none.
    pub fn millis(read: Option<u128>) -> (r: u64)
        ensures
            r == match read {
                Some(ms) => if ms > u64::MAX {
                    u64::MAX as int
                } else {
                    ms as int
                },
                None => 0,
            },
    {
        match read {
            Some(ms) => {
                if ms > u64::MAX as u128 {
                    u64::MAX
                } else {
                    ms as u64
                }
            },
            None => 0,
        }
    }

    /// The milliseconds since the search began; 0 if the clock was set back.
    pub fn elapsed(&self) -> u64 {
        let read: Option<u128> = match self.start_time.elapsed() {
            Ok(d) => Some(d.as_millis()),
            Err(_) => None,
        };
        Self::millis(read)
    }

    /// Whether a search that has run for `elapsed` milliseconds has used up its time.
    pub fn expired(&self, elapsed: u64) -> (r: bool)
        ensures
            r == (self.move_time.is_some() && elapsed >= self.move_time.unwrap()),
    {
        match self.move_time {
            Some(t) => elapsed >= t,
            None => false,
        }
    }

    /// Reads the clock every so many nodes, stops the search once its
    /// time is used up, and tells whether it is stopped.
    pub fn checkup(&mut self) -> (r: bool)
        ensures
            r == final(self).stopped,
            old(self).stopped ==> r,
            old(self).move_time.is_none() ==> r == old(self).stopped,
            old(self).nodes & CHECKUP_INTERVAL_MASK != 0 ==> r == old(self).stopped,
            final(self).same_limits(old(self)),
            final(self).nodes == old(self).nodes,
            final(self).fh == old(self).fh,
            final(self).fhf == old(self).fhf,
    {
        if self.nodes & CHECKUP_INTERVAL_MASK == 0 {
            let e: u64 = self.elapsed();
            self.stop_if_late(e)
        } else {
            self.stopped
        }
    }

    /// Stops the search if, after `elapsed` milliseconds, its time is
    /// used up, and tells whether it is stopped. A search once stopped stays so.
    pub fn stop_if_late(&mut self, elapsed: u64) -> (r: bool)
        ensures
            r == final(self).stopped,
            final(self).stopped == (old(self).stopped || (old(self).move_time.is_some() && elapsed
                >= old(self).move_time.unwrap())),
            final(self).same_limits(old(self)),
            final(self).nodes == old(self).nodes,
            final(self).fh == old(self).fh,
            final(self).fhf == old(self).fhf,
    {
        if self.expired(elapsed) {
            self.stopped = true;
        }
        self.stopped
    }

    /// Counts a cutoff by beta, and among the first-move cutoffs too if
    /// `first` holds. A counter that is full stays as it is.
    fn count_cutoff(&mut self, first: bool)
        ensures
            final(self).same_limits(old(self)),
            final(self).stopped == old(self).stopped,
            final(self).nodes == old(self).nodes,
            final(self).fh == if old(self).fh < u64::MAX {
                old(self).fh + 1
            } else {
                old(self).fh as int
            },
            final(self).fhf == if first && old(self).fhf < u64::MAX {
                old(self).fhf + 1
            } else {
                old(self).fhf as int
            },
    {
        if first && self.fhf < u64::MAX {
            self.fhf += 1;
        }
        if self.fh < u64::MAX {
            self.fh += 1;
        }
    }
}

/// Every entry of the list is a pseudo-legal move of the state.
pub open spec fn all_pseudo(list: Seq<OrderedMove>, s: State) -> bool {
    forall|i: int| 0 <= i < list.len() ==> pseudo_legal(s, (#[trigger] list[i]).0)
}

/// What a node that was searched move by move leaves in the table for
/// its position, having returned `r`: an entry of the depth searched with
/// the score `r`, marked as a lower bound if `r` reached beta, as exact if
/// `r` lies inside the window, as an upper bound if no move raised alpha;
/// its move is legal, unless every move was scored as lost at once.
pub open spec fn stored_for(
    found: Option<HashEntry>,
    s: State,
    left: int,
    alpha: i16,
    beta: i16,
    r: i16,
) -> bool {
    match found {
        Some(e) => {
            &&& e.depth == left
            &&& e.score == r
            &&& e.flags == (if r >= beta {
                EntryFlags::Beta
            } else if r > alpha {
                EntryFlags::Exact
            } else {
                EntryFlags::Alpha
            })
            &&& (e.m == Move::null() || (pseudo_legal(s, e.m) && legal(s, e.m)))
        },
        None => false,
    }
}

/// The count of nodes after one more: it starts anew once it is full.
pub open spec fn next_count(n: u64) -> u64 {
    if n == u64::MAX {
        0
    } else {
        (n + 1) as u64
    }
}

/// The search `b` has counted one node more than the search `a`, and is the same otherwise.
pub open spec fn one_node_on(a: &SearchInfo, b: &SearchInfo) -> bool {
    &&& b.same_limits(a)
    &&& b.stopped == a.stopped
    &&& b.fh == a.fh
    &&& b.fhf == a.fhf
    &&& b.nodes == next_count(a.nodes)
}

/// The state offers no legal capture and no legal promotion.
pub open spec fn no_loud_legal(s: State) -> bool {
    forall|m: Move| #[trigger] pseudo_legal(s, m) && (m.cap || m.prom != 0) ==> !legal(s, m)
}

/// Every entry of the list is a capture or a promotion.
pub open spec fn all_loud(list: Seq<OrderedMove>) -> bool {
    forall|i: int| 0 <= i < list.len() ==> (#[trigger] list[i]).0.cap || list[i].0.prom != 0
}

/// Every pseudo-legal move of the state that is wanted is an entry of the list.
pub open spec fn lists_all(list: Seq<OrderedMove>, s: State, loud: bool) -> bool {
    forall|m: Move|
        #[trigger] pseudo_legal(s, m) && (loud ==> m.cap || m.prom != 0) ==> holds(list, m)
}

/// Exchanging two entries of a list keeps what it holds.
pub proof fn lemma_swap_holds(before: Seq<OrderedMove>, after: Seq<OrderedMove>, k: int, b: int, m: Move)
    requires
        0 <= k < before.len(),
        0 <= b < before.len(),
        after == before.update(k, before[b]).update(b, before[k]),
        holds(before, m),
    ensures
        holds(after, m),
{
    let i = choose|i: int| 0 <= i < before.len() && (#[trigger] before[i]).0 == m;
    if i == k {
        assert(after[b].0 == m);
    } else if i == b {
        assert(after[k].0 == m);
    } else {
        assert(after[i].0 == m);
    }
}

/// The state offers no legal move.
pub open spec fn no_legal(s: State) -> bool {
    forall|m: Move| #[trigger] pseudo_legal(s, m) ==> !legal(s, m)
}

impl Position {
    /// The position is in order and the undo stack has room for a search down to the deepest ply.
    pub open spec fn searchable(&self) -> bool {
        &&& self.wf()
        &&& self.ply <= MAX_DEPTH
        &&& self.hist_ply + (MAX_DEPTH - self.ply) <= MAX_HIST
    }

    /// The scratch state of the search, the principal variation aside, and
    /// the tables are the same in both positions.
    pub open spec fn same_scratch_but_line(&self, o: &Position) -> bool {
        &&& self.ply == o.ply
        &&& self.search_killers == o.search_killers
        &&& self.search_hist == o.search_hist
        &&& self.pv_table == o.pv_table
        &&& self.tables == o.tables
        &&& self.zobrist == o.zobrist
    }

    /// Both positions stand for the same state at the same ply, with the same tables.
    pub open spec fn same_game(&self, o: &Position) -> bool {
        &&& self.state() == o.state()
        &&& self.ply == o.ply
        &&& self.tables == o.tables
        &&& self.zobrist == o.zobrist
    }

    /// Where the window starts in which a repetition is looked for: as
    /// many records back as the half-move clock counts, at most all.
    pub open spec fn window_start(&self) -> int {
        if self.fty <= self.hist_ply {
            self.hist_ply - self.fty
        } else {
            0
        }
    }

    /// The depth to which a node is searched: one ply more when the side to move is in check.
    pub open spec fn spec_left(&self, depth: u8) -> int {
        if crate::model::in_check(self.board@, self.turn) {
            depth + 1
        } else {
            depth as int
        }
    }

    /// A pass is tried at the node before its moves: passes are allowed
    /// and switched on, the side to move is not in check, more than
    /// `NULL_MOVE_R` plies are left and no side is in the endgame.
    pub open spec fn tries_pass(&self, depth: u8, null: bool, info: &SearchInfo) -> bool {
        null && info.null_move && !crate::model::in_check(self.board@, self.turn) && depth
            > NULL_MOVE_R && !self.spec_is_endgame()
    }

    /// The value with which the table's entry for the position ends the
    /// search at once: the entry must be at least as deep as the search,
    /// and exact, or an upper bound not above alpha, or a lower bound not below beta.
    pub open spec fn table_cut(&self, depth: u8, alpha: i16, beta: i16) -> Option<i16> {
        match self.pv_table.lookup(self.key) {
            Some(e) => if e.depth >= self.spec_left(depth) {
                match e.flags {
                    EntryFlags::Exact => Some(e.score),
                    EntryFlags::Alpha => if e.score <= alpha {
                        Some(alpha)
                    } else {
                        None
                    },
                    EntryFlags::Beta => if e.score >= beta {
                        Some(beta)
                    } else {
                        None
                    },
                    EntryFlags::Blank => None,
                }
            } else {
                None
            },
            None => None,
        }
    }

    /// The node asks the table: it is not drawn, plies are left to search
    /// and to go, the search is neither stopped nor timed and no pass is tried.
    pub open spec fn probes(&self, depth: u8, null: bool, info: &SearchInfo) -> bool {
        &&& !self.drawn()
        &&& depth > 0
        &&& !info.stopped
        &&& info.move_time.is_none()
        &&& self.ply < MAX_DEPTH
        &&& !self.tries_pass(depth, null, info)
    }

    /// The node is searched move by move: it asks the table, and the table does not cut.
    pub open spec fn opens(
        &self,
        alpha: i16,
        beta: i16,
        depth: u8,
        null: bool,
        info: &SearchInfo,
    ) -> bool {
        self.probes(depth, null, info) && self.table_cut(depth, alpha, beta).is_none()
    }

    /// A search from the position as the root looks at its moves one by
    /// one in the first iteration: the fifty-move rule does not end the
    /// game, the search is neither stopped nor timed and the table does not cut.
    pub open spec fn root_open(&self, info: &SearchInfo) -> bool {
        &&& self.fty < FIFTY_MOVES
        &&& !info.stopped
        &&& info.move_time.is_none()
        &&& self.table_cut(1, (-INFINITY) as i16, INFINITY).is_none()
    }

    /// The hash key of the position is that of an earlier one since the
    /// last pawn move or capture.
    pub open spec fn spec_is_repetition(&self) -> bool {
        exists|i: int| self.window_start() <= i < self.hist_ply && (#[trigger] self.hist[i]).key == self.key
    }

    /// The position is drawn by repetition, if it is not the root, or by the fifty-move rule.
    pub open spec fn drawn(&self) -> bool {
        (self.ply > 0 && self.spec_is_repetition()) || self.fty >= FIFTY_MOVES
    }

    /// Whether the position has occurred before since the last pawn move or capture.
    pub fn is_repetition(&self) -> (r: bool)
        requires
            self.hist_ply <= MAX_HIST,
        ensures
            r == self.spec_is_repetition(),
    {
        let n: usize = self.hist_ply as usize;
        let back: usize = if self.fty as usize <= n {
            self.fty as usize
        } else {
            n
        };
        let mut i: usize = n - back;
        while i < n
            invariant
                n == self.hist_ply,
                n <= MAX_HIST,
                self.window_start() <= i <= n,
                forall|j: int| self.window_start() <= j < i ==> (#[trigger] self.hist[j]).key != self.key,
            decreases n - i,
        {
            if self.key == self.hist[i].key {
                return true;
            }
            i += 1;
        }
        false
    }

    /// Forgets what earlier searches learnt about move ordering and starts at ply 0.
    pub fn search_reset(&mut self)
        ensures
            final(self).ply == 0,
            forall|i: int, j: int| 0 <= i < 12 && 0 <= j < 64 ==> final(self).search_hist[i][j] == 0,
            forall|i: int, j: int|
                0 <= i < 2 && 0 <= j < MAX_DEPTH ==> final(self).search_killers[i][j] == Move::null(),
            final(self).state() == old(self).state(),
            old(self).wf() ==> final(self).wf(),
            old(self).consistent() ==> final(self).consistent(),
            final(self).board == old(self).board,
            final(self).pieces == old(self).pieces,
            final(self).occupied == old(self).occupied,
            final(self).material == old(self).material,
            final(self).hist == old(self).hist,
            final(self).hist_ply == old(self).hist_ply,
            final(self).pv_table == old(self).pv_table,
            final(self).pv_line == old(self).pv_line,
            final(self).tables == old(self).tables,
    {
        self.search_hist = [[0u16; 64]; 12];
        self.search_killers = [[Move::new(); MAX_DEPTH]; 2];
        self.ply = 0;
    }

    /// The value of the position for the side to move by a search of
    /// `depth` plies within the window from `alpha` to `beta`. The position
    /// is the same afterwards as before. A drawn position is worth 0; a
    /// position without legal moves is worth 0 or, in check, the mate
    /// sentinel shortened by the ply; at the deepest ply the position is
    /// worth its evaluation. With no ply to search the value is
    /// that of the leaf, and with one ply that of the best legal move over
    /// the leaves it leads to, each brought into the window. Deeper down
    /// the value rests on what the table holds under the keys of the
    /// positions met, which earlier nodes of the same search put there: it
    /// is stated where the table cuts, where no move is legal, and by the
    /// entry that the node leaves behind.
    #[verifier::rlimit(50)]
    pub fn alpha_beta(&mut self, alpha: i16, beta: i16, depth: u8, info: &mut SearchInfo, null: bool) -> (r: i16)
        requires
            old(self).searchable(),
            -INFINITY <= alpha < beta <= INFINITY,
            depth < 255,
        ensures
            final(self).searchable(),
            final(self).same_game(old(self)),
            final(self).pv_line == old(self).pv_line,
            -INFINITY <= r <= INFINITY,
            old(info).stopped ==> final(info).stopped,
            old(info).move_time.is_none() && !old(info).stopped ==> !final(info).stopped,
            final(info).same_limits(old(info)),
            old(self).drawn() ==> r == 0 && final(self).same_scratch(old(self)) && *final(info)
                == *old(info),
            old(info).stopped ==> r == 0,
            !old(self).drawn() && depth > 0 && !old(info).stopped && old(info).move_time.is_none()
                && old(self).ply >= MAX_DEPTH ==> r == old(self).spec_eval() && final(self).same_scratch(
                old(self),
            ) && *final(info) == *old(info),
            old(self).probes(depth, null, old(info)) && old(self).table_cut(depth, alpha, beta).is_some()
                ==> r == old(self).table_cut(depth, alpha, beta).unwrap() && final(self).same_scratch(
                old(self),
            ) && one_node_on(old(info), final(info)),
            old(self).opens(alpha, beta, depth, null, old(info)) && no_legal(old(self).state()) ==> r
                == (if in_check(old(self).board@, old(self).turn) {
                -INFINITY + old(self).ply
            } else {
                0
            }) && final(self).same_scratch(old(self)) && one_node_on(old(info), final(info)),
            old(self).opens(alpha, beta, depth, null, old(info)) && !no_legal(old(self).state())
                ==> alpha <= r <= beta && stored_for(
                final(self).pv_table.lookup(old(self).key),
                old(self).state(),
                old(self).spec_left(depth),
                alpha,
                beta,
                r,
            ),
            depth == 0 && old(info).move_time.is_none() && !old(info).stopped ==> r == leaf_result(
                old(self).state(),
                old(self).ply as nat,
                alpha as int,
                beta as int,
            ),
            old(self).opens(alpha, beta, depth, null, old(info)) && old(self).spec_left(depth) == 1
                && !no_legal(old(self).state()) ==> r == clamp(
                front_value(old(self).state(), old(self).ply as nat),
                alpha as int,
                beta as int,
            ),
        decreases MAX_DEPTH - old(self).ply, 2int,
    {
        let mut lo: i16 = alpha;
        let mut left: u8 = depth;
        let ghost s0 = self.state();
        let ghost at = self.ply as nat;
        let ghost quiet = self.opens(alpha, beta, depth, null, info);
        let ghost front = quiet && self.spec_left(depth) == 1;
        proof {
            lemma_state_drawn(self);
        }
        if (self.ply > 0 && self.is_repetition()) || self.fty >= FIFTY_MOVES {
            return 0;
        }
        if left == 0 {
            return self.quiescence(lo, beta, info);
        }
        if info.checkup() {
            return 0;
        }
        if self.ply as usize >= MAX_DEPTH {
            return self.eval();
        }
        info.nodes = info.nodes.wrapping_add(1);
        let in_check: bool = self.in_check(self.turnx());
        if in_check {
            left += 1;
        }
        if null && info.null_move && !in_check && left > NULL_MOVE_R && !self.is_endgame() {
            proof {
                lemma_pass_undoable(s0);
            }
            self.make_null_move();
            self.ply += 1;
            let score: i16 = -self.alpha_beta(-beta, -beta + 1, left - 1 - NULL_MOVE_R, info, false);
            self.ply -= 1;
            self.unmake_null_move();
            if score >= beta {
                return beta;
            }
        }
        let mut pv_move = Move::new();
        match self.pv_table.probe(self.key) {
            Some(e) => {
                if e.depth >= left {
                    match e.flags {
                        EntryFlags::Exact => {
                            return e.score;
                        },
                        EntryFlags::Alpha => {
                            if e.score <= lo {
                                return lo;
                            }
                        },
                        EntryFlags::Beta => {
                            if e.score >= beta {
                                return beta;
                            }
                        },
                        EntryFlags::Blank => {},
                    }
                }
                pv_move = e.m;
            },
            None => {},
        }
        let mut best_move = Move::new();
        let mut best_score: i16 = -INFINITY;
        let old_alpha: i16 = lo;
        let mut legal_moves: usize = 0;
        let mut moves = MoveList::new();
        self.gen_moves::<false>(&mut moves);
        if !pv_move.is_null() {
            let mut i: usize = 0;
            while i < moves.len() && moves.get(i).0 != pv_move
                invariant
                    i <= moves@.len(),
                decreases moves@.len() - i,
            {
                i += 1;
            }
            if i < moves.len() {
                let ghost before = moves@;
                moves.moves.set(i, OrderedMove(pv_move, u16::MAX));
                proof {
                    assert forall|j: int| 0 <= j < moves@.len() implies (#[trigger] moves@[j]).0
                        == before[j].0 by {}
                    assert forall|m: Move| #[trigger] pseudo_legal(s0, m) implies holds(moves@, m) by {
                        assert(holds(before, m));
                        let j = choose|j: int| 0 <= j < before.len() && (#[trigger] before[j]).0 == m;
                        assert(moves@[j].0 == m);
                    }
                    assert forall|j: int| 0 <= j < moves@.len() implies pseudo_legal(
                        s0,
                        (#[trigger] moves@[j]).0,
                    ) by {
                        assert(pseudo_legal(s0, before[j].0));
                    }
                }
            }
        }
        let mut moves_searched: usize = 0;
        let mut it = moves.iter_picky();
        while it.k < moves.len()
            invariant
                self.searchable(),
                self.same_game(old(self)),
                self.pv_line == old(self).pv_line,
                self.ply < MAX_DEPTH,
                s0 == old(self).state(),
                all_pseudo(moves@, s0),
                -INFINITY <= lo < beta <= INFINITY,
                -INFINITY <= best_score <= INFINITY,
                old_alpha == alpha,
                old_alpha <= lo,
                best_score <= lo,
                lo != old_alpha ==> lo == best_score,
                left >= 1,
                left == old(self).spec_left(depth),
                it.k <= moves@.len(),
                legal_moves <= it.k,
                moves_searched <= legal_moves,
                lists_all(moves@, s0, false),
                legal_moves == 0 ==> forall|j: int|
                    0 <= j < it.k ==> !legal(s0, (#[trigger] moves@[j]).0),
                best_move == Move::null() || (pseudo_legal(s0, best_move) && legal(s0, best_move)),
                quiet == old(self).opens(alpha, beta, depth, null, old(info)),
                at == old(self).ply,
                depth > 0,
                front == (quiet && left == 1),
                front ==> lo == larger(
                    alpha as int,
                    list_best_by(moves@, front_fn(s0, at), it.k as int),
                ),
                old(self).tries_pass(depth, null, old(info)) || old(self).table_cut(
                    depth,
                    alpha,
                    beta,
                ).is_none() || old(info).stopped || old(info).move_time.is_some(),
                quiet && legal_moves == 0 ==> self.same_scratch(old(self)) && one_node_on(
                    old(info),
                    info,
                ),
                old(info).stopped ==> info.stopped,
                info.same_limits(old(info)),
                no_legal(s0) ==> legal_moves == 0,
                !old(self).drawn(),
                in_check == crate::model::in_check(old(self).board@, old(self).turn),
                old(info).move_time.is_none() && !old(info).stopped ==> !info.stopped,
            decreases moves@.len() - it.k,
        {
            let ghost before = moves@;
            let om = it.next(&mut moves).unwrap();
            proof {
                let b = choose|b: int|
                    it.k - 1 <= b < before.len() && moves@ == #[trigger] before.update(
                        it.k - 1,
                        before[b],
                    ).update(b, before[it.k - 1]);
                assert(all_pseudo(moves@, s0)) by {
                    assert forall|i: int| 0 <= i < moves@.len() implies pseudo_legal(
                        s0,
                        (#[trigger] moves@[i]).0,
                    ) by {
                        assert(pseudo_legal(s0, before[b].0));
                        assert(pseudo_legal(s0, before[it.k - 1].0));
                        assert(pseudo_legal(s0, before[i].0));
                    }
                }
                assert forall|mv: Move| #[trigger] pseudo_legal(s0, mv) implies holds(moves@, mv) by {
                    lemma_swap_holds(before, moves@, it.k - 1, b, mv);
                }
                assert forall|j: int| 0 <= j < it.k - 1 implies (#[trigger] moves@[j]) == before[j] by {
                    assert(moves@.take(it.k - 1)[j] == before.take(it.k - 1)[j]);
                }
                lemma_list_by_prefix(moves@, before, front_fn(s0, at), it.k - 1);
                lemma_list_by_low(moves@, front_fn(s0, at), it.k - 1);
                lemma_front_covers(s0, at, om.0);
                assert(moves@[it.k - 1] == om);
                assert(list_best_by(moves@, front_fn(s0, at), it.k as int) == larger(
                    list_best_by(moves@, front_fn(s0, at), it.k - 1),
                    front_worth(s0, at, om.0),
                ));
            }
            let m = om.0;
            let reduce: bool = info.late_move_reduction && moves_searched >= FULL_DEPTH_MOVES
                && left >= REDUCTION_LIMIT && !in_check && !m.cap() && m.prom() == 0;
            match self.try_move(m, lo, beta, left, info, moves_searched == 0, reduce) {
                None => {},
                Some(score) => {
                    legal_moves += 1;
                    if info.stopped {
                        return 0;
                    }
                    if score > best_score {
                        best_score = score;
                        best_move = m;
                        if score > lo {
                            if score >= beta {
                                info.count_cutoff(legal_moves == 1);
                                self.note_cutoff(m, left, beta);
                                return beta;
                            }
                            lo = score;
                            self.note_raise(m, left);
                        }
                    }
                    moves_searched += 1;
                },
            }
        }
        proof {
            if legal_moves == 0 {
                assert forall|mv: Move| #[trigger] pseudo_legal(s0, mv) implies !legal(s0, mv) by {
                    assert(holds(moves@, mv));
                    let j = choose|j: int| 0 <= j < moves@.len() && (#[trigger] moves@[j]).0 == mv;
                    assert(!legal(s0, moves@[j].0));
                }
            }
            lemma_front_is_all(moves@, s0, at);
        }
        if legal_moves == 0 {
            return if in_check {
                -INFINITY + self.ply as i16
            } else {
                0
            };
        }
        if lo != old_alpha {
            self.pv_table.store(
                self.key,
                HashEntry { depth: left, flags: EntryFlags::Exact, m: best_move, score: best_score },
            );
        } else {
            self.pv_table.store(
                self.key,
                HashEntry { depth: left, flags: EntryFlags::Alpha, m: best_move, score: lo },
            );
        }
        lo
    }

    /// Makes the move `m` if it is legal, searches the position reached
    /// and takes the move back. The first move of a node is searched with
    /// the full window; a later one with a window of one point, at a
    /// reduced depth first if `reduce` holds, and again with the full window
    /// only if it turns out to lie inside it.
    #[verifier::rlimit(50)]
    fn try_move(
        &mut self,
        m: Move,
        alpha: i16,
        beta: i16,
        depth: u8,
        info: &mut SearchInfo,
        first: bool,
        reduce: bool,
    ) -> (r: Option<i16>)
        requires
            old(self).searchable(),
            old(self).ply < MAX_DEPTH,
            pseudo_legal(old(self).state(), m),
            -INFINITY <= alpha < beta <= INFINITY,
            1 <= depth,
            reduce ==> depth >= 2,
        ensures
            final(self).searchable(),
            final(self).same_game(old(self)),
            final(self).pv_line == old(self).pv_line,
            r.is_some() == legal(old(self).state(), m),
            r.is_some() ==> -INFINITY <= r.unwrap() <= INFINITY,
            r.is_none() ==> final(self).same_scratch(old(self)) && *final(info) == *old(info),
            old(info).stopped ==> final(info).stopped,
            old(info).move_time.is_none() && !old(info).stopped ==> !final(info).stopped,
            final(info).same_limits(old(info)),
            depth == 1 && old(info).move_time.is_none() && !old(info).stopped && r.is_some()
                ==> scored(
                r.unwrap() as int,
                front_worth(old(self).state(), old(self).ply as nat, m),
                alpha as int,
                beta as int,
            ),
        decreases MAX_DEPTH - old(self).ply, 1int,
    {
        let ghost s0 = self.state();
        proof {
            lemma_never_null(s0, m);
            lemma_make_unmake(s0, m);
            lemma_make_undoable(s0, m);
        }
        if !self.make_move(m) {
            return None;
        }
        self.ply += 1;
        let score: i16 = if first {
            -self.alpha_beta(-beta, -alpha, depth - 1, info, true)
        } else {
            let mut score: i16;
            if reduce {
                score = -self.alpha_beta(-alpha - 1, -alpha, depth - 2, info, true);
            } else {
                score = alpha + 1;
            }
            if score > alpha {
                score = -self.alpha_beta(-alpha - 1, -alpha, depth - 1, info, true);
                if score > alpha && score < beta {
                    score = -self.alpha_beta(-beta, -alpha, depth - 1, info, true);
                }
            }
            score
        };
        self.unmake_move();
        self.ply -= 1;
        Some(score)
    }

    /// Remembers the move that reached beta: as a killer of its ply if it
    /// is quiet, and in the transposition table as a lower bound.
    fn note_cutoff(&mut self, m: Move, depth: u8, beta: i16)
        requires
            old(self).searchable(),
            old(self).ply < MAX_DEPTH,
            beta > -32768,
        ensures
            final(self).searchable(),
            final(self).same_game(old(self)),
            final(self).pv_line == old(self).pv_line,
            final(self).search_hist == old(self).search_hist,
            final(self).pv_table.entries@ == old(self).pv_table.entries@.update(
                HashTable::slot(old(self).key),
                (old(self).key, (HashEntry { depth, flags: EntryFlags::Beta, m, score: beta })),
            ),
            m.cap ==> final(self).search_killers == old(self).search_killers,
            !m.cap ==> final(self).search_killers[0][old(self).ply as int] == m && final(self).search_killers[1][old(self).ply as int] == old(self).search_killers[0][old(self).ply as int],
            forall|i: int, j: int|
                0 <= i < 2 && 0 <= j < MAX_DEPTH && j != old(self).ply ==> final(self).search_killers[i][j] == old(self).search_killers[i][j],
    {
        if !m.cap() {
            let first = self.search_killers[0][self.ply as usize];
            self.search_killers[1][self.ply as usize] = first;
            self.search_killers[0][self.ply as usize] = m;
        }
        self.pv_table.store(self.key, HashEntry { depth, flags: EntryFlags::Beta, m, score: beta });
    }

    /// Adds the depth to the history weight of a quiet move that raised alpha.
    fn note_raise(&mut self, m: Move, depth: u8)
        requires
            old(self).searchable(),
            m.from < 64,
            m.to < 64,
            old(self).board[m.from as int].is_piece(),
        ensures
            final(self).searchable(),
            final(self).same_game(old(self)),
            final(self).pv_line == old(self).pv_line,
            final(self).pv_table == old(self).pv_table,
            final(self).search_killers == old(self).search_killers,
            m.cap ==> final(self).search_hist == old(self).search_hist,
            !m.cap ==> final(self).search_hist[old(self).board[m.from as int].0 as int][m.to as int]
                == if old(self).search_hist[old(self).board[m.from as int].0 as int][m.to as int]
                + depth > u16::MAX {
                u16::MAX as int
            } else {
                old(self).search_hist[old(self).board[m.from as int].0 as int][m.to as int] + depth
            },
            forall|i: int, j: int|
                0 <= i < 12 && 0 <= j < 64 && !(!m.cap && i == old(self).board[m.from as int].0 && j
                    == m.to) ==> final(self).search_hist[i][j] == old(self).search_hist[i][j],
    {
        if !m.cap() {
            let pc: usize = self.board[m.from() as usize].id() as usize;
            let seen: u16 = self.search_hist[pc][m.to() as usize];
            self.search_hist[pc][m.to() as usize] = if seen > u16::MAX - depth as u16 {
                u16::MAX
            } else {
                seen + depth as u16
            };
        }
    }

    /// The value of the position once the captures and promotions have
    /// been played out: the evaluation may stand, or a capture may raise it.
    #[verifier::rlimit(50)]
    pub fn quiescence(&mut self, alpha: i16, beta: i16, info: &mut SearchInfo) -> (r: i16)
        requires
            old(self).searchable(),
            -INFINITY <= alpha < beta <= INFINITY,
        ensures
            final(self).searchable(),
            final(self).same_game(old(self)),
            final(self).same_scratch(old(self)),
            -INFINITY <= r <= INFINITY,
            old(info).stopped ==> final(info).stopped && r == 0,
            old(info).move_time.is_none() && !old(info).stopped ==> !final(info).stopped,
            final(info).same_limits(old(info)),
            !final(info).stopped && old(self).ply >= MAX_DEPTH ==> r == old(self).spec_eval()
                && one_node_on(old(info), final(info)),
            !final(info).stopped && old(self).ply < MAX_DEPTH ==> alpha <= r <= beta && (r
                >= old(self).spec_eval() || r == beta),
            !final(info).stopped && old(self).ply < MAX_DEPTH && old(self).spec_eval() >= beta ==> r
                == beta && one_node_on(old(info), final(info)),
            !final(info).stopped && old(self).ply < MAX_DEPTH && old(self).spec_eval() < beta
                && no_loud_legal(old(self).state()) ==> r == (if old(self).spec_eval() > alpha {
                old(self).spec_eval()
            } else {
                alpha as int
            }) && one_node_on(old(info), final(info)),
            old(info).move_time.is_none() && !old(info).stopped ==> r == (if old(self).ply
                >= MAX_DEPTH {
                quiet_value(old(self).state(), old(self).ply as nat)
            } else {
                clamp(quiet_value(old(self).state(), old(self).ply as nat), alpha as int, beta as int)
            }),
        decreases MAX_DEPTH - old(self).ply, 0int,
    {
        let mut lo: i16 = alpha;
        let ghost s0 = self.state();
        let ghost at = self.ply as nat;
        let ghost free = info.move_time.is_none() && !info.stopped;
        proof {
            lemma_state_eval(self);
            lemma_loud_covers(s0, at, Move::null());
        }
        if info.checkup() {
            return 0;
        }
        info.nodes = info.nodes.wrapping_add(1);
        if self.ply as usize >= MAX_DEPTH {
            return self.eval();
        }
        let score: i16 = self.eval();
        if score >= beta {
            return beta;
        }
        if score > lo {
            lo = score;
        }
        let mut moves = MoveList::new();
        self.gen_moves::<true>(&mut moves);
        let mut legal_moves: usize = 0;
        let mut it = moves.iter_picky();
        while it.k < moves.len()
            invariant
                self.searchable(),
                self.same_game(old(self)),
                self.same_scratch(old(self)),
                self.ply < MAX_DEPTH,
                s0 == old(self).state(),
                all_pseudo(moves@, s0),
                all_loud(moves@),
                lists_all(moves@, s0, true),
                at == old(self).ply,
                free == (old(info).move_time.is_none() && !old(info).stopped),
                old(self).spec_eval() == state_eval(s0),
                free ==> lo == larger(
                    larger(alpha as int, state_eval(s0)),
                    list_best_by(moves@, loud_fn(s0, at), it.k as int),
                ),
                legal_moves == 0 ==> one_node_on(old(info), info) && lo == (if old(self).spec_eval()
                    > alpha {
                    old(self).spec_eval()
                } else {
                    alpha as int
                }),
                no_loud_legal(s0) ==> legal_moves == 0,
                -INFINITY <= lo < beta <= INFINITY,
                alpha <= lo,
                lo >= old(self).spec_eval(),
                !info.stopped,
                it.k <= moves@.len(),
                legal_moves <= it.k,
                !old(info).stopped,
                info.same_limits(old(info)),
                old(info).move_time.is_none() ==> !info.stopped,
            decreases moves@.len() - it.k,
        {
            let ghost before = moves@;
            let om = it.next(&mut moves).unwrap();
            proof {
                let b = choose|b: int|
                    it.k - 1 <= b < before.len() && moves@ == #[trigger] before.update(
                        it.k - 1,
                        before[b],
                    ).update(b, before[it.k - 1]);
                assert(all_pseudo(moves@, s0)) by {
                    assert forall|i: int| 0 <= i < moves@.len() implies pseudo_legal(
                        s0,
                        (#[trigger] moves@[i]).0,
                    ) by {
                        assert(pseudo_legal(s0, before[b].0));
                        assert(pseudo_legal(s0, before[it.k - 1].0));
                        assert(pseudo_legal(s0, before[i].0));
                    }
                }
                assert forall|i: int| 0 <= i < moves@.len() implies (#[trigger] moves@[i]).0.cap
                    || moves@[i].0.prom != 0 by {
                    assert(before[b].0.cap || before[b].0.prom != 0);
                    assert(before[it.k - 1].0.cap || before[it.k - 1].0.prom != 0);
                    assert(before[i].0.cap || before[i].0.prom != 0);
                }
                assert forall|mv: Move|
                    #[trigger] pseudo_legal(s0, mv) && (mv.cap || mv.prom != 0) implies holds(
                    moves@,
                    mv,
                ) by {
                    lemma_swap_holds(before, moves@, it.k - 1, b, mv);
                }
                assert forall|j: int| 0 <= j < it.k - 1 implies (#[trigger] moves@[j]) == before[j] by {
                    assert(moves@.take(it.k - 1)[j] == before.take(it.k - 1)[j]);
                }
                lemma_list_by_prefix(moves@, before, loud_fn(s0, at), it.k - 1);
                lemma_list_by_low(moves@, loud_fn(s0, at), it.k - 1);
                lemma_loud_covers(s0, at, om.0);
                assert(moves@[it.k - 1] == om);
                assert(om.0.cap || om.0.prom != 0);
            }
            let m = om.0;
            proof {
                lemma_never_null(s0, m);
                lemma_make_unmake(s0, m);
                lemma_make_undoable(s0, m);
            }
            let ghost tried = list_best_by(moves@, loud_fn(s0, at), it.k - 1);
            proof {
                assert(list_best_by(moves@, loud_fn(s0, at), it.k as int) == larger(
                    tried,
                    loud_worth(s0, at, m),
                ));
                assert(legal(s0, m) ==> loud_worth(s0, at, m) == -quiet_value(
                    spec_make(s0, m),
                    at + 1,
                ));
                assert(!legal(s0, m) ==> loud_worth(s0, at, m) == NO_SCORE);
            }
            if self.make_move(m) {
                self.ply += 1;
                legal_moves += 1;
                let score: i16 = -self.quiescence(-beta, -lo, info);
                self.unmake_move();
                self.ply -= 1;
                if info.stopped {
                    return 0;
                }
                if score > lo {
                    if score >= beta {
                        info.count_cutoff(legal_moves == 1);
                        return beta;
                    }
                    lo = score;
                }
            }
        }
        proof {
            lemma_loud_is_all(moves@, s0, at);
        }
        lo
    }

    /// Whether `m` is a legal move of the position, which stays as it was.
    pub fn move_exists(&mut self, m: Move) -> (r: bool)
        requires
            old(self).wf(),
            old(self).ply < MAX_DEPTH,
            old(self).hist_ply < MAX_HIST,
        ensures
            final(self).wf(),
            final(self).state() == old(self).state(),
            final(self).same_scratch(old(self)),
            r == (pseudo_legal(old(self).state(), m) && legal(old(self).state(), m)),
    {
        let mut moves = MoveList::new();
        self.gen_moves::<false>(&mut moves);
        let ghost s0 = self.state();
        let mut i: usize = 0;
        while i < moves.len() && moves.get(i).0 != m
            invariant
                i <= moves@.len(),
                all_pseudo(moves@, s0),
                pseudo_legal(s0, m) ==> holds(moves@, m),
                forall|j: int| 0 <= j < i ==> (#[trigger] moves@[j]).0 != m,
            decreases moves@.len() - i,
        {
            i += 1;
        }
        if i >= moves.len() {
            proof {
                if pseudo_legal(s0, m) {
                    assert(holds(moves@, m));
                }
            }
            return false;
        }
        proof {
            assert(pseudo_legal(s0, moves@[i as int].0));
            lemma_never_null(s0, m);
            lemma_make_unmake(s0, m);
            lemma_make_undoable(s0, m);
        }
        if self.make_move(m) {
            self.unmake_move();
            true
        } else {
            false
        }
    }
}

/// The line of play that the table holds from the state `s`: the move
/// stored under the key of each state reached, as long as it is a legal
/// move there, for at most `depth` moves (one at least) and `room` in all.
pub open spec fn spec_pv(table: HashTable, s: State, depth: int, room: int) -> Seq<Move>
    decreases room,
{
    if room <= 0 {
        Seq::<Move>::empty()
    } else {
        match table.lookup(s.key) {
            Some(e) => if pseudo_legal(s, e.m) && legal(s, e.m) {
                if depth <= 1 {
                    seq![e.m]
                } else {
                    seq![e.m] + spec_pv(table, spec_make(s, e.m), depth - 1, room - 1)
                }
            } else {
                Seq::<Move>::empty()
            },
            None => Seq::<Move>::empty(),
        }
    }
}

/// The records of the undo stack that following a line of `depth` moves
/// may take: one at least, and no more than the line's buffer holds.
pub open spec fn pv_room(depth: u8) -> int {
    if depth < 1 {
        1
    } else if depth > MAX_DEPTH {
        MAX_DEPTH as int
    } else {
        depth as int
    }
}

/// The state before the latest `n` moves and passes were made.
pub open spec fn unwound(s: State, n: int) -> State
    decreases n,
{
    if n <= 0 {
        s
    } else {
        unwound(
            if s.hist.last().m == Move::null() {
                crate::model::spec_unpass(s)
            } else {
                spec_unmake(s)
            },
            n - 1,
        )
    }
}

/// The states that a line of legal moves leads through from the state `s`.
pub open spec fn is_line(s: State, line: Seq<Move>) -> bool
    decreases line.len(),
{
    line.len() == 0 || (pseudo_legal(s, line[0]) && legal(s, line[0]) && is_line(
        spec_make(s, line[0]),
        line.drop_first(),
    ))
}

/// The line that the table holds is a line of legal moves.
pub proof fn lemma_pv_is_line(table: HashTable, s: State, depth: int, room: int)
    ensures
        is_line(s, spec_pv(table, s, depth, room)),
    decreases room,
{
    let pv = spec_pv(table, s, depth, room);
    if room > 0 {
        match table.lookup(s.key) {
            Some(e) => {
                if pseudo_legal(s, e.m) && legal(s, e.m) {
                    let next = spec_make(s, e.m);
                    if depth > 1 {
                        let rest = spec_pv(table, next, depth - 1, room - 1);
                        lemma_pv_is_line(table, next, depth - 1, room - 1);
                        assert(pv == seq![e.m] + rest);
                        assert(pv.drop_first() =~= rest);
                    } else {
                        assert(pv == seq![e.m]);
                        assert(pv.drop_first() =~= Seq::<Move>::empty());
                        assert(is_line(next, pv.drop_first()));
                    }
                    assert(pv[0] == e.m);
                    assert(is_line(next, pv.drop_first()));
                }
            },
            None => {},
        }
    }
}

/// What one iteration of the deepening search found.
pub struct DepthReport {
    pub score: i16,
    pub depth: u8,
    pub nodes: u64,
    /// Milliseconds since the search began.
    pub time: u64,
    /// The principal variation.
    pub pv: Vec<Move>,
    pub fh: u64,
    pub fhf: u64,
}

/// What a whole search found.
pub struct SearchOutcome {
    /// One report for each depth that was searched to the end.
    pub reports: Vec<DepthReport>,
    /// The first move of the principal variation; none if the position has no legal move.
    pub best: Option<Move>,
}

impl Position {
    /// Follows the moves that the transposition table stores, making each
    /// on the board, and keeps them in `pv_line`.
    #[verifier::rlimit(50)]
    fn follow_pv(&mut self, depth: u8)
        requires
            old(self).wf(),
            old(self).ply < MAX_DEPTH,
            old(self).hist_ply + pv_room(depth) <= MAX_HIST,
        ensures
            final(self).wf(),
            final(self).same_scratch_but_line(old(self)),
            final(self).pv_line.wf(),
            final(self).hist_ply == old(self).hist_ply + final(self).pv_line.n,
            unwound(final(self).state(), final(self).pv_line.n as int) == old(self).state(),
            final(self).pv_line@ == spec_pv(
                old(self).pv_table,
                old(self).state(),
                depth as int,
                MAX_DEPTH as int,
            ),
    {
        let ghost s0 = self.state();
        let ghost table = self.pv_table;
        let mut left: u8 = depth;
        let ghost d0 = depth as int;
        self.pv_line.clear();
        let mut done: bool = false;
        while !done && self.pv_line.len() < MAX_DEPTH
            invariant
                self.wf(),
                self.ply < MAX_DEPTH,
                self.same_scratch_but_line(old(self)),
                self.pv_table == table,
                self.pv_line.wf(),
                self.hist_ply == old(self).hist_ply + self.pv_line.n,
                old(self).hist_ply + pv_room(depth) <= MAX_HIST,
                !done ==> self.pv_line.n + (if left < 1 {
                    1int
                } else {
                    left as int
                }) == (if depth < 1 {
                    1int
                } else {
                    depth as int
                }),
                unwound(self.state(), self.pv_line.n as int) == s0,
                spec_pv(table, s0, d0, MAX_DEPTH as int) == self.pv_line@ + (if done {
                    Seq::<Move>::empty()
                } else {
                    spec_pv(table, self.state(), left as int, MAX_DEPTH - self.pv_line.n)
                }),
            decreases (if done { 0int } else { 1int }), MAX_DEPTH - self.pv_line.n,
        {
            let ghost cur = self.state();
            let ghost line = self.pv_line@;
            match self.pv_table.probe(self.key) {
                Some(e) => {
                    if !self.move_exists(e.m) {
                        done = true;
                    } else {
                        proof {
                            lemma_make_unmake(cur, e.m);
                        }
                        let ok: bool = self.make_move(e.m);
                        self.pv_line.push(e.m);
                        if left <= 1 {
                            done = true;
                        } else {
                            left -= 1;
                        }
                        proof {
                            let rest = if done {
                                Seq::<Move>::empty()
                            } else {
                                spec_pv(table, self.state(), left as int, MAX_DEPTH - self.pv_line.n)
                            };
                            assert(line + (seq![e.m] + rest) =~= line.push(e.m) + rest);
                        }
                    }
                },
                None => {
                    done = true;
                },
            }
        }
        proof {
            assert(self.pv_line@ + Seq::<Move>::empty() =~= self.pv_line@);
        }
    }

    /// Reads the principal variation out of the transposition table into
    /// `pv_line`: the stored moves are followed as long as each is legal.
    #[verifier::rlimit(50)]
    pub fn extract_pv_line(&mut self, depth: u8)
        requires
            old(self).wf(),
            old(self).ply < MAX_DEPTH,
            old(self).hist_ply + pv_room(depth) <= MAX_HIST,
        ensures
            final(self).wf(),
            final(self).state() == old(self).state(),
            final(self).same_scratch_but_line(old(self)),
            final(self).pv_line@ == spec_pv(
                old(self).pv_table,
                old(self).state(),
                depth as int,
                MAX_DEPTH as int,
            ),
            is_line(old(self).state(), final(self).pv_line@),
    {
        let ghost s0 = self.state();
        self.follow_pv(depth);
        proof {
            lemma_pv_is_line(old(self).pv_table, s0, depth as int, MAX_DEPTH as int);
        }
        let n: usize = self.pv_line.len();
        let ghost line = self.pv_line;
        let mut k: usize = n;
        while k > 0
            invariant
                k <= n,
                self.wf(),
                self.hist_ply == old(self).hist_ply + k,
                unwound(self.state(), k as int) == s0,
                self.same_scratch_but_line(old(self)),
                self.pv_line == line,
            decreases k,
        {
            proof {
                reveal_with_fuel(unwound, 2);
            }
            self.take_back();
            k -= 1;
        }
    }

    /// Takes the latest move or pass back.
    pub fn take_back(&mut self)
        requires
            old(self).wf(),
            old(self).hist_ply > 0,
        ensures
            final(self).wf(),
            final(self).state() == unwound(old(self).state(), 1),
            final(self).hist_ply == old(self).hist_ply - 1,
            final(self).same_scratch(old(self)),
    {
        proof {
            reveal_with_fuel(unwound, 2);
            assert(self.state().hist.last() == self.hist[self.hist_ply - 1]);
        }
        if self.hist[self.hist_ply as usize - 1].m.is_null() {
            self.unmake_null_move();
        } else {
            self.unmake_move();
        }
    }

    /// Searches the position to `depth` plies and reports what was found,
    /// unless the search was stopped on the way.
    pub fn search_iteration(&mut self, depth: u8, info: &mut SearchInfo) -> (r: Option<DepthReport>)
        requires
            old(self).wf(),
            old(self).ply == 0,
            old(self).hist_ply + MAX_DEPTH <= MAX_HIST,
            depth < 255,
        ensures
            final(self).wf(),
            final(self).same_game(old(self)),
            final(info).same_limits(old(info)),
            r.is_none() == final(info).stopped,
            old(info).stopped ==> final(info).stopped,
            old(info).move_time.is_none() && !old(info).stopped ==> r.is_some(),
            r.is_some() ==> r.unwrap().depth == depth && r.unwrap().pv@ == final(self).pv_line@
                && -INFINITY <= r.unwrap().score <= INFINITY && is_line(
                old(self).state(),
                r.unwrap().pv@,
            ) && r.unwrap().pv@ == spec_pv(
                final(self).pv_table,
                old(self).state(),
                depth as int,
                MAX_DEPTH as int,
            ),
            r.is_none() ==> final(self).pv_line == old(self).pv_line,
            old(self).drawn() && !old(info).stopped ==> r.is_some() && r.unwrap().score == 0,
            old(self).probes(depth, true, old(info)) && old(self).table_cut(
                depth,
                (-INFINITY) as i16,
                INFINITY,
            ).is_some() ==> r.unwrap().score == old(self).table_cut(
                depth,
                (-INFINITY) as i16,
                INFINITY,
            ).unwrap() && final(self).same_scratch_but_line(old(self)),
            old(self).opens((-INFINITY) as i16, INFINITY, depth, true, old(info)) && no_legal(old(self).state())
                ==> r.unwrap().score == (if in_check(old(self).board@, old(self).turn) {
                -INFINITY
            } else {
                0
            }) && final(self).same_scratch_but_line(old(self)),
            old(self).opens((-INFINITY) as i16, INFINITY, depth, true, old(info)) && !no_legal(
                old(self).state(),
            ) ==> stored_for(
                final(self).pv_table.lookup(old(self).key),
                old(self).state(),
                old(self).spec_left(depth),
                (-INFINITY) as i16,
                INFINITY,
                r.unwrap().score,
            ),
            old(self).opens((-INFINITY) as i16, INFINITY, depth, true, old(info)) && old(self).spec_left(depth)
                == 1 && !no_legal(old(self).state()) ==> r.unwrap().score == clamp(
                front_value(old(self).state(), 0),
                -INFINITY as int,
                INFINITY as int,
            ),
            depth == 0 && old(info).move_time.is_none() && !old(info).stopped ==> r.unwrap().score
                == leaf_result(old(self).state(), 0, -INFINITY as int, INFINITY as int),
    {
        info.nodes = 0;
        let best_score: i16 = self.alpha_beta(-INFINITY, INFINITY, depth, info, true);
        if info.stopped {
            return None;
        }
        self.extract_pv_line(depth);
        let time: u64 = info.elapsed();
        Some(
            DepthReport {
                score: best_score,
                depth,
                nodes: info.nodes,
                time,
                pv: self.pv_line.iter(),
                fh: info.fh,
                fhf: info.fhf,
            },
        )
    }

    /// Searches the position by iterative deepening up to the depth and
    /// within the time that `info` sets, and reports each depth searched
    /// to the end and the best move found.
    pub fn search(&mut self, info: &mut SearchInfo) -> (r: SearchOutcome)
        requires
            old(self).wf(),
            old(self).hist_ply + MAX_DEPTH <= MAX_HIST,
        ensures
            final(self).wf(),
            final(self).state() == old(self).state(),
            final(self).ply == 0,
            final(info).same_limits(old(info)),
            r.reports@.len() <= old(info).depth,
            forall|i: int| 0 <= i < r.reports@.len() ==> (#[trigger] r.reports@[i]).depth == i + 1,
            r.best == (if final(self).pv_line@.len() > 0 {
                Some(final(self).pv_line@[0])
            } else {
                None
            }),
            r.best.is_some() ==> pseudo_legal(old(self).state(), r.best.unwrap()) && legal(
                old(self).state(),
                r.best.unwrap(),
            ),
            no_legal(old(self).state()) ==> r.best.is_none(),
            final(self).tables == old(self).tables,
            old(info).stopped ==> r.reports@.len() == 0,
            r.reports@.len() < old(info).depth && r.reports@.len() < 254 ==> final(info).stopped,
            old(info).move_time.is_none() && !old(info).stopped ==> !final(info).stopped
                && r.reports@.len() == (if old(info).depth < 254 {
                old(info).depth as int
            } else {
                254
            }),
            forall|i: int|
                0 <= i < r.reports@.len() ==> is_line(old(self).state(), (#[trigger] r.reports@[i]).pv@)
                    && -INFINITY <= r.reports@[i].score <= INFINITY,
            old(self).fty >= FIFTY_MOVES ==> forall|i: int|
                0 <= i < r.reports@.len() ==> (#[trigger] r.reports@[i]).score == 0,
            r.reports@.len() > 0 ==> final(self).pv_line@ == r.reports@.last().pv@,
            r.reports@.len() == 0 ==> final(self).pv_line@.len() == 0,
            old(self).root_open(old(info)) && r.reports@.len() > 0 && no_legal(old(self).state())
                ==> r.reports@[0].score == (if in_check(old(self).board@, old(self).turn) {
                -INFINITY
            } else {
                0
            }),
            old(self).root_open(old(info)) && r.reports@.len() > 0 && !no_legal(old(self).state())
                && !in_check(old(self).board@, old(self).turn) ==> r.reports@[0].score == clamp(
                front_value(old(self).state(), 0),
                -INFINITY as int,
                INFINITY as int,
            ),
    {
        let ghost s0 = self.state();
        let ghost clear = self.root_open(info);
        self.search_reset();
        self.pv_line.clear();
        let mut reports: Vec<DepthReport> = Vec::new();
        let last: u8 = if info.depth < 254 {
            info.depth
        } else {
            254
        };
        let mut depth: u8 = 1;
        let mut going: bool = true;
        while going && depth <= last
            invariant
                1 <= depth <= last + 1,
                last <= 254,
                last == (if old(info).depth < 254 {
                    old(info).depth as int
                } else {
                    254
                }),
                self.tables == old(self).tables,
                self.fty == old(self).fty,
                !going ==> info.stopped,
                going ==> reports@.len() == depth - 1,
                old(info).stopped ==> info.stopped && reports@.len() == 0,
                old(info).move_time.is_none() && !old(info).stopped ==> !info.stopped,
                forall|i: int|
                    0 <= i < reports@.len() ==> is_line(s0, (#[trigger] reports@[i]).pv@) && -INFINITY
                        <= reports@[i].score <= INFINITY,
                old(self).fty >= FIFTY_MOVES ==> forall|i: int|
                    0 <= i < reports@.len() ==> (#[trigger] reports@[i]).score == 0,
                reports@.len() > 0 ==> self.pv_line@ == reports@.last().pv@,
                reports@.len() == 0 ==> self.pv_line@.len() == 0,
                self.wf(),
                self.state() == s0,
                self.ply == 0,
                self.hist_ply + MAX_DEPTH <= MAX_HIST,
                info.same_limits(old(info)),
                reports@.len() <= depth - 1,
                forall|i: int| 0 <= i < reports@.len() ==> (#[trigger] reports@[i]).depth == i + 1,
                is_line(s0, self.pv_line@),
                self.pv_line.wf(),
                reports@.len() == depth - 1 || info.stopped,
                clear == old(self).root_open(old(info)),
                self.board == old(self).board,
                going && depth == 1 ==> self.pv_table == old(self).pv_table,
                self.turn == old(self).turn,
                self.key == old(self).key,
                clear && reports@.len() > 0 && no_legal(s0) ==> reports@[0].score == (if in_check(
                    old(self).board@,
                    old(self).turn,
                ) {
                    -INFINITY
                } else {
                    0
                }),
                clear && reports@.len() > 0 && !no_legal(s0) && !in_check(
                    old(self).board@,
                    old(self).turn,
                ) ==> reports@[0].score == clamp(
                    front_value(s0, 0),
                    -INFINITY as int,
                    INFINITY as int,
                ),
            decreases (if going { 1int } else { 0int }), last + 1 - depth,
        {
            let ghost before = reports@;
            proof {
                assert(self.state().turn == self.turn && self.state().key == self.key);
                if clear && depth == 1 {
                    assert(self.table_cut(1, (-INFINITY) as i16, INFINITY) == old(self).table_cut(
                        1,
                        (-INFINITY) as i16,
                        INFINITY,
                    ));
                    assert(self.opens((-INFINITY) as i16, INFINITY, 1, true, info));
                }
            }
            match self.search_iteration(depth, info) {
                Some(rep) => {
                    reports.push(rep);
                    proof {
                        if before.len() > 0 {
                            assert(reports@[0] == before[0]);
                        }
                    }
                    depth += 1;
                },
                None => {
                    going = false;
                },
            }
        }
        let best: Option<Move> = if self.pv_line.len() > 0 {
            Some(self.pv_line.get(0))
        } else {
            None
        };
        SearchOutcome { reports, best }
    }
}

/// Unwinding a state in order gives a state in order whose hash key is
/// the key that the record of the move made from it keeps.
pub proof fn lemma_unwound(s: State, k: int)
    requires
        crate::model::playable(s),
        1 <= k <= s.hist.len(),
    ensures
        crate::model::playable(unwound(s, k)),
        unwound(s, k).key == s.hist[s.hist.len() - k].key,
        unwound(s, k).zobrist == s.zobrist,
    decreases k,
{
    let prev = if s.hist.last().m == Move::null() {
        crate::model::spec_unpass(s)
    } else {
        spec_unmake(s)
    };
    assert(crate::model::playable(prev));
    assert(prev.hist =~= s.hist.drop_last());
    if k > 1 {
        lemma_unwound(prev, k - 1);
        assert(unwound(s, k) == unwound(prev, k - 1));
    } else {
        reveal_with_fuel(unwound, 2);
    }
}

/// A position that stood on the board before, with the same pieces on the
/// same squares, the same side to move, the same castling rights and the
/// same en-passant square, and with neither a pawn move nor a capture
/// since, is a repetition: the search scores it as a draw.
pub proof fn lemma_repetition(p: &Position, k: int)
    requires
        p.wf(),
        1 <= k <= p.hist_ply,
        k <= p.fty,
        unwound(p.state(), k).board == p.board@,
        unwound(p.state(), k).turn == p.turn,
        unwound(p.state(), k).cas == p.cas,
        unwound(p.state(), k).ep == p.ep,
    ensures
        p.spec_is_repetition(),
{
    let s = p.state();
    lemma_unwound(s, k);
    let earlier = unwound(s, k);
    assert(crate::model::sound(earlier));
    assert(earlier.key == p.key);
    let i = p.hist_ply - k;
    assert(s.hist[i] == p.hist[i]);
    assert(p.window_start() <= i < p.hist_ply && p.hist[i].key == p.key);
}

} // verus!
