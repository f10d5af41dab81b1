//! Search: transposition-table entries, mate-score handling, move ordering, and a negamax
//! alpha-beta search with quiescence.
use vstd::prelude::*;
use crate::{Position, Piece, Side, Sq, Move, MoveList, Score, MATE_SCORE, INF_SCORE, material};
use crate::move_gen::{all_fit, gen_legal_qsearch, after_move, lemma_after_move};
use crate::eval::{evaluate, material_balance};

verus! {

/// Scores above this in absolute value announce a mate.
pub open spec fn mate_score(s: int) -> bool {
    s > MATE_SCORE - 1000 || s < -(MATE_SCORE - 1000)
}

/// Whether `s` announces a mate.
pub fn is_mate(s: Score) -> (r: bool)
    ensures
        r == mate_score(s as int),
{
    s > MATE_SCORE - 1000 || s < -(MATE_SCORE - 1000)
}

/// Half of `x`, rounded towards zero.
pub open spec fn half_toward_zero(x: int) -> int {
    if x >= 0 {
        x / 2
    } else {
        -((-x) / 2)
    }
}

/// The moves to mate that a mate score announces: half the plies left to mate, rounded up,
/// negative when the side to move is the one mated.
pub open spec fn mate_moves(s: int) -> int {
    let plies = MATE_SCORE - (if s < 0 { -s } else { s });
    if s > 0 {
        half_toward_zero(plies + 1)
    } else {
        -half_toward_zero(plies + 1)
    }
}

/// For a mate score, the number of moves to mate (negative when the side to move is mated);
/// none for any other score.
pub fn mate_in_moves(s: Score) -> (r: Option<i64>)
    ensures
        r == (if mate_score(s as int) { Some(mate_moves(s as int) as i64) } else { None }),
{
    if is_mate(s) {
        let wide = s as i64;
        let magnitude: i64 = if wide < 0 { -wide } else { wide };
        let p1: i64 = MATE_SCORE as i64 - magnitude + 1;
        let half: i64 = if p1 >= 0 { p1 / 2 } else { -((-p1) / 2) };
        if wide > 0 {
            Some(half)
        } else {
            Some(-half)
        }
    } else {
        None
    }
}

/// How a stored score bounds the true score.
#[derive(Copy, Clone, PartialEq, Eq, Structural)]
pub enum TTKind {
    Exact,
    Lower,
    Upper,
}

/// A transposition-table entry: bound kind, search depth, low 16 bits of the hash, best move,
/// and the score with mate distances counted from the entry's own position.
#[derive(Copy, Clone)]
pub struct TTEntry {
    pub kind: TTKind,
    pub depth: u8,
    pub hash_lo: u16,
    pub mv: Move,
    pub rel_score: i16,
}

/// A score as seen `ply` plies from the root, from one stored relative to its position: mate
/// scores are moved one unit towards zero per ply.
pub open spec fn score_at_ply(rel: int, ply: int) -> int {
    if mate_score(rel) {
        if rel < 0 {
            rel + ply
        } else {
            rel - ply
        }
    } else {
        rel
    }
}

/// The score to store for `score` found `ply` plies from the root: mate scores are moved one
/// unit away from zero per ply, then cut to 16 bits.
pub open spec fn score_to_store(score: int, ply: int) -> i16 {
    if mate_score(score) {
        if score < 0 {
            (score - ply) as i16
        } else {
            (score + ply) as i16
        }
    } else {
        score as i16
    }
}

impl TTEntry {
    /// The empty entry.
    pub fn null() -> (r: TTEntry)
        ensures
            r.kind == TTKind::Exact,
            r.depth == 0,
            r.hash_lo == 0,
            r.mv.word() == 0,
            r.rel_score == 0,
    {
        TTEntry { kind: TTKind::Exact, depth: 0, hash_lo: 0, mv: Move::null(), rel_score: 0 }
    }

    /// The stored score as seen `ply` plies from the root.
    pub fn score(&self, ply: i32) -> (r: Score)
        requires
            0 <= ply <= 1000,
        ensures
            r == score_at_ply(self.rel_score as int, ply as int),
    {
        let rel = self.rel_score as Score;
        if is_mate(rel) {
            if rel < 0 {
                rel + ply
            } else {
                rel - ply
            }
        } else {
            rel
        }
    }

    /// The stored score when it settles the window (`alpha`, `beta`): an exact score inside
    /// it, a lower bound above `beta`, or an upper bound below `alpha`.
    pub fn cutoff(&self, ply: i32, alpha: Score, beta: Score) -> (r: Option<Score>)
        requires
            0 <= ply <= 1000,
        ensures
            ({
                let s = score_at_ply(self.rel_score as int, ply as int);
                r == match self.kind {
                    TTKind::Exact => if alpha < s && s < beta { Some(s as i32) } else { None },
                    TTKind::Lower => if s > beta { Some(s as i32) } else { None },
                    TTKind::Upper => if s < alpha { Some(s as i32) } else { None },
                }
            }),
    {
        let score = self.score(ply);
        match self.kind {
            TTKind::Exact => {
                if score > alpha && score < beta {
                    Some(score)
                } else {
                    None
                }
            },
            TTKind::Lower => {
                if score > beta {
                    Some(score)
                } else {
                    None
                }
            },
            TTKind::Upper => {
                if score < alpha {
                    Some(score)
                } else {
                    None
                }
            },
        }
    }
}

/// The score to store in a table entry for `score` found `ply` plies from the root.
pub fn stored_score(score: Score, ply: i32) -> (r: i16)
    requires
        -INF_SCORE <= score <= INF_SCORE,
        0 <= ply <= 1000,
    ensures
        r == score_to_store(score as int, ply as int),
{
    if is_mate(score) {
        if score < 0 {
            (score - ply) as i16
        } else {
            (score + ply) as i16
        }
    } else {
        score as i16
    }
}

/// The evaluation from the side to move's point of view.
pub fn relative_eval(pos: &Position) -> (r: Score)
    ensures
        r == (if pos.side_to_move() == Side::White { material_balance(*pos) } else { -material_balance(*pos) }),
        -300_000 <= r <= 300_000,
{
    let e = evaluate(pos);
    e * pos.stm().sign()
}

/// Ordering score of the hash move.
pub const MOVE_SCORE_HASH_MOVE: i32 = 30_000_000;
/// Base ordering score of promotions.
pub const MOVE_SCORE_PROMOTION_BASE: i32 = 25_000_000;
/// Base ordering score of captures.
pub const MOVE_SCORE_CAPTURE_BASE: i32 = 20_000_000;
/// Ordering score of other moves.
pub const MOVE_SCORE_NON_CAPTURE_BASE: i32 = 10_000_000;

/// The ordering score of `mv`: the hash move first, then promotions by the value of the new
/// piece, then captures by the value of what they take (ties broken towards the lower kind),
/// then the rest.
pub open spec fn move_score(pos: Position, mv: Move, hash_mv: Move) -> int {
    if mv == hash_mv {
        MOVE_SCORE_HASH_MOVE as int
    } else if mv.promo() is Some {
        MOVE_SCORE_PROMOTION_BASE + material(mv.promo()->0)
    } else {
        match pos.capture_of(mv) {
            Some((_, p)) => MOVE_SCORE_CAPTURE_BASE + material(p) - p.index(),
            None => MOVE_SCORE_NON_CAPTURE_BASE as int,
        }
    }
}

/// Hands out moves best first: each call picks the highest-scored of the remaining moves.
pub struct MovePicker {
    moves: MoveList,
    scores: Vec<i32>,
    index: usize,
}

/// `b` is the first position in `lo..` of a highest score of `scores`.
pub open spec fn first_best(scores: Seq<i32>, lo: int, b: int) -> bool {
    &&& lo <= b < scores.len()
    &&& forall|j: int| lo <= j < scores.len() ==> #[trigger] scores[j] <= scores[b]
    &&& forall|j: int| lo <= j < b ==> #[trigger] scores[j] < scores[b]
}

/// `s` with the elements at `a` and `b` exchanged.
pub open spec fn swapped<T>(s: Seq<T>, a: int, b: int) -> Seq<T> {
    s.update(a, s[b]).update(b, s[a])
}

impl MovePicker {
    /// The moves, in their current order.
    pub closed spec fn moves_seq(self) -> Seq<Move> {
        self.moves@
    }

    /// The ordering score of each move.
    pub closed spec fn scores_seq(self) -> Seq<i32> {
        self.scores@
    }

    /// How many moves have been handed out.
    pub closed spec fn picked(self) -> int {
        self.index as int
    }

    /// Each move has its score, every score is above `i32::MIN`, and no more moves were
    /// handed out than there are.
    pub closed spec fn wf(self) -> bool {
        &&& self.scores@.len() == self.moves@.len()
        &&& self.index <= self.moves@.len()
        &&& forall|i: int| 0 <= i < self.scores@.len() ==> #[trigger] self.scores@[i] > i32::MIN
    }

    /// The ordering score of `mv`.
    pub fn score_move(pos: &Position, mv: Move, hash_mv: Move) -> (r: i32)
        requires
            pos.board_ok(),
            pos.fits(mv),
        ensures
            r == move_score(*pos, mv, hash_mv),
    {
        if mv == hash_mv {
            MOVE_SCORE_HASH_MOVE
        } else if let Some(q) = mv.promotion() {
            MOVE_SCORE_PROMOTION_BASE + q.material_value()
        } else {
            match pos.capture(mv) {
                Some((_, p)) => MOVE_SCORE_CAPTURE_BASE + p.material_value() - p.id() as i32,
                None => MOVE_SCORE_NON_CAPTURE_BASE,
            }
        }
    }

    /// A picker over `moves`, each scored against `hash_mv`.
    pub fn new(pos: &Position, moves: MoveList, hash_mv: Move) -> (r: Self)
        requires
            pos.board_ok(),
            all_fit(*pos, moves@),
        ensures
            r.wf(),
            r.moves_seq() == moves@,
            r.picked() == 0,
            forall|i: int| 0 <= i < moves@.len() ==> #[trigger] r.scores_seq()[i] == move_score(*pos, moves@[i], hash_mv),
    {
        let mut scores: Vec<i32> = Vec::new();
        let mut i: usize = 0;
        while i < moves.len()
            invariant
                i <= moves@.len(),
                pos.board_ok(),
                all_fit(*pos, moves@),
                scores@.len() == i,
                forall|j: int| 0 <= j < i ==> #[trigger] scores@[j] == move_score(*pos, moves@[j], hash_mv),
            decreases moves@.len() - i,
        {
            let mv = moves.get(i);
            assert(pos.fits(moves@[i as int]));
            scores.push(Self::score_move(pos, mv, hash_mv));
            i += 1;
        }
        MovePicker { moves, scores, index: 0 }
    }

    /// The next move, highest score first, with its position in the handing-out order.
    pub fn next(&mut self) -> (r: Option<(usize, Move)>)
        requires
            old(self).wf(),
        ensures
            final(self).wf(),
            old(self).picked() >= old(self).moves_seq().len() ==> r is None && *final(self) == *old(self),
            old(self).picked() < old(self).moves_seq().len() ==> exists|b: int| {
                &&& #[trigger] first_best(old(self).scores_seq(), old(self).picked(), b)
                &&& r == Some((old(self).picked() as usize, old(self).moves_seq()[b]))
                &&& final(self).moves_seq() == swapped(old(self).moves_seq(), old(self).picked(), b)
                &&& final(self).scores_seq() == swapped(old(self).scores_seq(), old(self).picked(), b)
                &&& final(self).picked() == old(self).picked() + 1
            },
    {
        if self.index >= self.moves.len() {
            return None;
        }
        let ghost start = *self;
        let mut best_idx: usize = self.index;
        let mut best_score: i32 = i32::MIN;
        let mut i: usize = self.index;
        while i < self.moves.len()
            invariant
                self.wf(),
                self.index < self.moves@.len(),
                self.index <= i <= self.moves@.len(),
                i == self.index ==> best_score == i32::MIN,
                i > self.index ==> first_best(self.scores@.subrange(0, i as int), self.index as int, best_idx as int)
                    && best_score == self.scores@[best_idx as int],
            decreases self.moves@.len() - i,
        {
            let s = self.scores[i];
            if s > best_score {
                best_idx = i;
                best_score = s;
            }
            i += 1;
        }
        assert(self.scores@.subrange(0, self.moves@.len() as int) =~= self.scores@);
        let idx = self.index;
        let a = self.scores[idx];
        let b = self.scores[best_idx];
        self.scores.set(idx, b);
        self.scores.set(best_idx, a);
        self.moves.swap(idx, best_idx);
        self.index = idx + 1;
        let mv = self.moves.get(idx);
        proof {
            assert(first_best(start.scores@, start.index as int, best_idx as int));
            assert(self.scores@ =~= swapped(start.scores@, idx as int, best_idx as int));
            assert(self.moves@ =~= swapped(start.moves@, idx as int, best_idx as int));
            assert(swapped(start.moves@, idx as int, best_idx as int)[idx as int] == start.moves@[best_idx as int]);
            assert(mv == self.moves@[idx as int]);
            assert(mv == start.moves@[best_idx as int]);
            assert(start == *old(self));
            assert(first_best(old(self).scores_seq(), old(self).picked(), best_idx as int));
            assert(self.moves_seq() == swapped(old(self).moves_seq(), old(self).picked(), best_idx as int));
            assert(self.scores_seq() == swapped(old(self).scores_seq(), old(self).picked(), best_idx as int));
            assert forall|k: int| 0 <= k < self.scores@.len() implies #[trigger] self.scores@[k] > i32::MIN by {
                if k == idx as int {
                    assert(self.scores@[k] == start.scores@[best_idx as int]);
                } else if k == best_idx as int {
                    assert(self.scores@[k] == start.scores@[idx as int]);
                } else {
                    assert(self.scores@[k] == start.scores@[k]);
                }
            }
        }
        Some((idx, mv))
    }
}

/// Plies of the principal-variation table, in each direction.
pub const MAX_PLY: usize = 128;

/// Plies beyond which quiescence search stops and returns the static evaluation.
pub const QUIESCENCE_LIMIT: usize = 1000;

/// Search limits: hard and soft node counts, hard and soft times in milliseconds, and depth.
#[derive(Copy, Clone)]
pub struct Limits {
    pub hard_nodes: u64,
    pub soft_nodes: u64,
    pub hard_time: u64,
    pub soft_time: u64,
    pub depth: i32,
}

impl Limits {
    /// Limits that do not bind: a million million nodes, a million seconds, depth 255.
    pub fn new() -> (r: Self)
        ensures
            r.hard_nodes == 1_000_000_000_000,
            r.soft_nodes == 1_000_000_000_000,
            r.hard_time == 1_000_000_000,
            r.soft_time == 1_000_000_000,
            r.depth == 255,
    {
        Limits {
            hard_nodes: 1_000_000_000_000,
            soft_nodes: 1_000_000_000_000,
            hard_time: 1_000_000_000,
            soft_time: 1_000_000_000,
            depth: 255,
        }
    }
}

#[verifier::external_type_specification]
#[verifier::external_body]
pub struct ExInstant(std::time::Instant);

/// Calls `Instant::now`: the current moment, of which nothing is stated.
#[verifier::external_body]
fn now() -> std::time::Instant {
    std::time::Instant::now()
}

/// Calls `Instant::elapsed` on `start`, then `Duration::as_millis` on what it gives: the
/// milliseconds the clock counts since then, cut to 64 bits, of which nothing is stated.
#[verifier::external_body]
fn elapsed_ms(start: &std::time::Instant) -> u64 {
    start.elapsed().as_millis() as u64
}

/// Calls `std::mem::size_of` for `TTEntry`: its size in bytes, as vstd's `size_of` names it,
/// not zero since the type has fields.
#[verifier::external_body]
fn entry_size() -> (r: usize)
    ensures
        r > 0,
        r as nat == vstd::layout::size_of::<TTEntry>(),
{
    std::mem::size_of::<TTEntry>()
}

/// The number of table entries that fit in `size_mb` megabytes, at least 1024.
pub open spec fn tt_entries(size_mb: int) -> int {
    if (size_mb * 1048576) / (vstd::layout::size_of::<TTEntry>() as int) > 1024 {
        (size_mb * 1048576) / (vstd::layout::size_of::<TTEntry>() as int)
    } else {
        1024
    }
}

/// Number of table entries that fit in `size_mb` megabytes, at least 1024.
pub fn tt_len(size_mb: usize) -> (r: usize)
    requires
        size_mb * 1048576 <= usize::MAX,
    ensures
        r as int == tt_entries(size_mb as int),
{
    let bytes = size_mb * 1024 * 1024;
    let n = bytes / entry_size();
    if n > 1024 {
        n
    } else {
        1024
    }
}

/// The search state: principal variations by ply, the transposition table, node count, stop
/// flags, clock, limits, and the positions from the game start to the current node.
pub struct Worker {
    pv: Vec<Move>,
    tt: Vec<TTEntry>,
    nodes: u64,
    stopped: bool,
    start_time: std::time::Instant,
    stop: std::sync::Arc<std::sync::atomic::AtomicBool>,
    limits: Limits,
    pos_stack: Vec<Position>,
}

impl Worker {
    /// The principal-variation table has a row per ply, the table has an entry, and every
    /// position on the stack is well formed.
    pub closed spec fn wf(self) -> bool {
        &&& self.pv@.len() == MAX_PLY * MAX_PLY
        &&& self.tt@.len() >= 1
        &&& forall|i: int| 0 <= i < self.pos_stack@.len() ==> (#[trigger] self.pos_stack@[i]).wf()
    }

    /// The positions from the game start to the current node.
    pub closed spec fn stack(self) -> Seq<Position> {
        self.pos_stack@
    }

    /// Nodes searched so far.
    pub closed spec fn node_count(self) -> u64 {
        self.nodes
    }

    /// The transposition table.
    pub closed spec fn table(self) -> Seq<TTEntry> {
        self.tt@
    }

    /// Whether the search under way was stopped.
    pub closed spec fn was_stopped(self) -> bool {
        self.stopped
    }

    /// The limits of the search under way.
    pub closed spec fn search_limits(self) -> Limits {
        self.limits
    }

    /// The principal-variation table, row by row.
    pub closed spec fn pv_table(self) -> Seq<Move> {
        self.pv@
    }

    /// A worker with an empty table of `tt_size_mb` megabytes.
    pub fn new(tt_size_mb: usize) -> (r: Self)
        requires
            tt_size_mb * 1048576 <= usize::MAX,
        ensures
            r.wf(),
            r.stack().len() == 0,
            r.node_count() == 0,
            r.table().len() == tt_entries(tt_size_mb as int),
            r.table().len() >= 1024,
            forall|i: int| 0 <= i < r.table().len() ==> (#[trigger] r.table()[i]).hash_lo == 0 && r.table()[i].depth == 0,
            forall|i: int| 0 <= i < r.pv_table().len() ==> (#[trigger] r.pv_table()[i]).word() == 0,
    {
        let mut pv: Vec<Move> = Vec::new();
        let mut i: usize = 0;
        while i < MAX_PLY * MAX_PLY
            invariant
                i <= MAX_PLY * MAX_PLY,
                pv@.len() == i,
                forall|k: int| 0 <= k < i ==> (#[trigger] pv@[k]).word() == 0,
            decreases MAX_PLY * MAX_PLY - i,
        {
            pv.push(Move::null());
            i += 1;
        }
        let tt = Self::empty_table(tt_len(tt_size_mb));
        Worker {
            pv,
            tt,
            nodes: 0,
            stopped: false,
            start_time: now(),
            stop: std::sync::Arc::new(std::sync::atomic::AtomicBool::new(false)),
            limits: Limits::new(),
            pos_stack: Vec::new(),
        }
    }

    fn empty_table(n: usize) -> (r: Vec<TTEntry>)
        ensures
            r@.len() == n,
            forall|i: int| 0 <= i < n ==> (#[trigger] r@[i]).hash_lo == 0 && r@[i].depth == 0,
    {
        let mut tt: Vec<TTEntry> = Vec::new();
        let mut i: usize = 0;
        while i < n
            invariant
                i <= n,
                tt@.len() == i,
                forall|k: int| 0 <= k < i ==> (#[trigger] tt@[k]).hash_lo == 0 && tt@[k].depth == 0,
            decreases n - i,
        {
            tt.push(TTEntry::null());
            i += 1;
        }
        tt
    }

    /// Replaces the table by an empty one of `size_mb` megabytes.
    pub fn resize_tt(&mut self, size_mb: usize)
        requires
            old(self).wf(),
            size_mb * 1048576 <= usize::MAX,
        ensures
            final(self).wf(),
            final(self).table().len() == tt_entries(size_mb as int),
            final(self).table().len() >= 1024,
            forall|i: int| 0 <= i < final(self).table().len() ==> (#[trigger] final(self).table()[i]).hash_lo == 0
                && final(self).table()[i].depth == 0,
            final(self).stack() == old(self).stack(),
    {
        let n = tt_len(size_mb);
        self.tt = Self::empty_table(n);
    }

    /// Empties the table.
    pub fn reset(&mut self)
        requires
            old(self).wf(),
        ensures
            final(self).wf(),
            final(self).table().len() == old(self).table().len(),
            forall|i: int| 0 <= i < final(self).table().len() ==> (#[trigger] final(self).table()[i]).hash_lo == 0,
            final(self).stack() == old(self).stack(),
    {
        let n = self.tt.len();
        self.tt = Self::empty_table(n);
    }

    /// Nodes searched so far.
    pub fn nodes(&self) -> (r: u64)
        ensures
            r == self.node_count(),
    {
        self.nodes
    }

    /// Milliseconds since the search started.
    pub fn elapsed_ms(&self) -> u64 {
        elapsed_ms(&self.start_time)
    }

    /// The principal variation from the root: the first row of the table up to its first null
    /// move.
    pub fn pv(&self) -> (r: Vec<Move>)
        requires
            self.wf(),
        ensures
            r@.len() <= MAX_PLY,
            forall|i: int| 0 <= i < r@.len() ==> #[trigger] r@[i] == self.pv_table()[i] && r@[i].word() != 0,
            r@.len() < MAX_PLY ==> self.pv_table()[r@.len() as int].word() == 0,
    {
        let mut r: Vec<Move> = Vec::new();
        let mut i: usize = 0;
        while i < MAX_PLY
            invariant
                self.wf(),
                i <= MAX_PLY,
                r@.len() == i,
                forall|k: int| 0 <= k < i ==> #[trigger] r@[k] == self.pv@[k] && r@[k].word() != 0,
            decreases MAX_PLY - i,
        {
            let m = self.pv[i];
            let z = Move::null();
            proof { Move::lemma_word_eq(m, z); }
            if m == z {
                return r;
            }
            r.push(m);
            i += 1;
        }
        r
    }

    /// Whether the stop flag has been raised.
    fn stop_requested(&self) -> bool {
        self.stop.load(std::sync::atomic::Ordering::Relaxed)
    }

    /// Every 4096 nodes, stops the search when asked to or past the hard limits.
    fn check_stop(&mut self) -> (r: bool)
        requires
            old(self).wf(),
        ensures
            final(self).wf(),
            final(self).stack() == old(self).stack(),
            final(self).node_count() == old(self).node_count(),
            final(self).table() == old(self).table(),
            final(self).pv_table() == old(self).pv_table(),
            r == final(self).stopped,
            old(self).stopped ==> final(self).stopped,
            old(self).nodes & 4095 != 0 ==> final(self).stopped == old(self).stopped,
            old(self).nodes & 4095 == 0 && old(self).nodes >= old(self).limits.hard_nodes ==> final(self).stopped,
            old(self).nodes & 4095 == 0 && old(self).limits.hard_time == 0 ==> final(self).stopped,
            final(self).limits == old(self).limits,
    {
        if self.nodes & 4095 == 0 {
            let requested = self.stop_requested();
            let elapsed = elapsed_ms(&self.start_time);
            if stop_due(requested, elapsed, self.nodes, &self.limits) {
                self.stopped = true;
            }
        }
        self.stopped
    }
}

/// The last position of `stack`, `ply` plies from the root, repeats: within the reach of its
/// halfmove clock, a position an even distance back carries its hash often enough.
pub open spec fn repeated(st: Seq<Position>, ply: int) -> bool {
    let hm = st[st.len() - 1].halfmoves() as usize as int;
    let max_offset = if hm < st.len() - 1 { hm } else { st.len() - 1 };
    exists|k: int| 2 <= k <= max_offset && #[trigger] repeat_at(st, ply, k)
}

/// The static evaluation from the side to move's point of view.
pub open spec fn side_eval(p: Position) -> int {
    if p.side_to_move() == Side::White { material_balance(p) } else { -material_balance(p) }
}

/// The position has no move on the moves list.
pub open spec fn no_moves(p: Position) -> bool {
    forall|m: Move| !#[trigger] p.listed_move(m)
}

/// No move on the moves list of `p` captures.
pub open spec fn no_captures(p: Position) -> bool {
    forall|m: Move| #[trigger] p.listed_move(m) ==> p.capture_of(m) is None
}

/// Plies left before the quiescence search stops at `ply`.
pub open spec fn plies_left(ply: int) -> int {
    if ply <= QUIESCENCE_LIMIT { QUIESCENCE_LIMIT - ply } else { 0 }
}

/// Full plies left at `depth`.
pub open spec fn depth_left(depth: int) -> int {
    if depth > 0 { depth } else { 0 }
}

/// `v` is a score a table entry can settle a null window (`alpha`, `beta`) with, `ply` plies from
/// the root: a stored score, as seen at `ply`, below `alpha` or above `beta`.
pub open spec fn stored_cutoff(ply: int, alpha: int, beta: int, v: int) -> bool {
    &&& beta == alpha + 1
    &&& exists|rel: i16| #[trigger] score_at_ply(rel as int, ply) == v
    &&& (v < alpha || v > beta)
}

/// The score the quiescence search of `p` starts from: the static evaluation out of check, the
/// lowest score in check.
pub open spec fn quiescence_start(p: Position) -> int {
    if p.checker_bb() != 0 { -INF_SCORE as int } else { side_eval(p) }
}

/// The score the search starts from.
pub open spec fn lowest_score() -> int {
    -INF_SCORE as int
}

/// `m` is searched by the quiescence search of `p`: a listed move, and a capture unless `p` is
/// in check.
#[verifier::opaque]
pub open spec fn quiescence_move(p: Position, m: Move) -> bool {
    p.listed_move(m) && (p.checker_bb() == 0 ==> p.capture_of(m) is Some)
}

/// What a quiescence search went through: the moves it searched in turn, the score each
/// child search gave, and what each child search went through.
pub struct QuiescenceTrace {
    pub moves: Seq<Move>,
    pub scores: Seq<int>,
    pub kids: Seq<QuiescenceTrace>,
}

/// A record of no move searched.
pub open spec fn no_quiescence_trace() -> QuiescenceTrace {
    QuiescenceTrace { moves: Seq::empty(), scores: Seq::empty(), kids: Seq::empty() }
}

/// What a search went through: the moves it searched in turn, the scores of each child's
/// null-window and full-window searches and what each went through, at depth 0 what its
/// quiescence search went through, and the variation it left in its row of the table.
pub struct SearchTrace {
    pub moves: Seq<Move>,
    pub scores: Seq<(int, int)>,
    pub narrow: Seq<SearchTrace>,
    pub wide: Seq<SearchTrace>,
    pub quiet: QuiescenceTrace,
    pub variation: Seq<Move>,
}

/// `t` with the variation `v`.
pub open spec fn traced(t: SearchTrace, v: Seq<Move>) -> SearchTrace {
    SearchTrace { moves: t.moves, scores: t.scores, narrow: t.narrow, wide: t.wide, quiet: t.quiet, variation: v }
}

/// The best score, the raised lower bound and whether `beta` was reached, after the quiescence
/// search of the top of `st` has searched the moves `ms` in turn, the child of the `i`-th
/// scoring `vs[i]` as `ks[i]` records, starting from the static evaluation (out of check) and
/// `alpha0`; `None` unless each child score is one the quiescence search gives and only the
/// last move reaches `beta`. A move that takes a king is passed over.
#[verifier::opaque]
pub open spec fn quiescence_steps(st: Seq<Position>, beta: int, ply: int, ms: Seq<Move>, vs: Seq<int>, ks: Seq<QuiescenceTrace>, alpha0: int) -> Option<(int, int, bool)>
    decreases 0int, plies_left(ply), 0int, ms.len(),
{
    if ms.len() == 0 {
        Some((quiescence_start(st.last()), alpha0, false))
    } else if vs.len() != ms.len() || ks.len() != ms.len() || ply >= QUIESCENCE_LIMIT || ply < 0 {
        None
    } else {
        match quiescence_steps(st, beta, ply, ms.drop_last(), vs.drop_last(), ks.drop_last(), alpha0) {
            None => None,
            Some((b, a, cut)) => {
                let p = st[st.len() - 1];
                let m = ms.last();
                let v = vs.last();
                if cut {
                    None
                } else if p.occupant(m.to_sq()) == Some((Piece::King, p.side_to_move().other())) {
                    Some((b, a, false))
                } else if !quiescence_value(st.push(after_move(p, m)), -beta, -a, ply + 1, v, ks.last()) {
                    None
                } else {
                    let b2 = if -v > b { -v } else { b };
                    let a2 = if -v > a { -v } else { a };
                    Some((b2, a2, a2 >= beta))
                }
            },
        }
    }
}

/// `v` is the score the quiescence search gives for the top of `st`, `ply` plies from the
/// root, within the window (`alpha`, `beta`), going through `t`: 0 for a repetition, a mate
/// loss when in check with no moves, 0 at the fifty-move limit, the static evaluation at the
/// ply limit; else a score the table settles a null window with, or the static evaluation
/// when it reaches `beta` out of check, or the fail-soft maximum of the static evaluation (out
/// of check) and the negated scores of the children of its moves, searched in the order of
/// `t` with the window narrowed as scores rise, all of them unless one reaches `beta`.
#[verifier::opaque]
pub open spec fn quiescence_value(st: Seq<Position>, alpha: int, beta: int, ply: int, v: int, t: QuiescenceTrace) -> bool
    decreases 0int, plies_left(ply), 2int, 0int,
{
    let p = st[st.len() - 1];
    if repeated(st, ply) {
        v == 0
    } else if p.checker_bb() != 0 && no_moves(p) {
        v == -MATE_SCORE + ply
    } else if p.halfmoves() >= 100 {
        v == 0
    } else if ply >= QUIESCENCE_LIMIT || ply < 0 {
        v == side_eval(p)
    } else {
        ||| stored_cutoff(ply, alpha, beta, v)
        ||| p.checker_bb() == 0 && side_eval(p) >= beta && v == side_eval(p)
        ||| quiescence_expanded(st, alpha, beta, ply, v, t)
    }
}

/// `v` is the fail-soft maximum of the static evaluation (out of check) and the negated scores
/// of the children of the moves of the top of `st`, searched in the order of `t` with the
/// window (`alpha`, `beta`) narrowed as scores rise, all of them unless one reaches `beta`.
#[verifier::opaque]
pub open spec fn quiescence_expanded(st: Seq<Position>, alpha: int, beta: int, ply: int, v: int, t: QuiescenceTrace) -> bool
    decreases 0int, plies_left(ply), 1int, 0int,
{
    let p = st[st.len() - 1];
    &&& t.moves.no_duplicates()
    &&& forall|i: int| 0 <= i < t.moves.len() ==> quiescence_move(p, #[trigger] t.moves[i])
    &&& quiescence_steps(st, beta, ply, t.moves, t.scores, t.kids, alpha) matches Some((b, _, cut))
    &&& v == b
    &&& (cut || forall|m: Move| quiescence_move(p, m) ==> #[trigger] t.moves.contains(m))
}

/// The best score, the raised lower bound and whether `beta` was reached, after the search of
/// the top of `st` with `depth` plies to go has searched the moves `ms` in turn: in a window
/// wider than null (`pv`), the first move with the full window and each later one with a
/// null window first, searched again with the full window when it beats the bound; with a
/// null window, each move with it. The child of the `i`-th move scored `vs[i].0` in the
/// null-window search, going through `ns[i]`, and `vs[i].1` in the full-window one, going
/// through `ws[i]`; `None` unless each child score is one the search gives and only the last
/// move reaches `beta`. A move that takes a king is passed over.
#[verifier::opaque]
pub open spec fn search_steps(st: Seq<Position>, beta: int, ply: int, depth: int, pv: bool, ms: Seq<Move>, vs: Seq<(int, int)>, ns: Seq<SearchTrace>, ws: Seq<SearchTrace>, alpha0: int) -> Option<(int, int, bool)>
    decreases depth_left(depth), plies_left(ply), 0int, ms.len(),
{
    if ms.len() == 0 {
        Some((lowest_score(), alpha0, false))
    } else if vs.len() != ms.len() || ns.len() != ms.len() || ws.len() != ms.len() || depth <= 0 {
        None
    } else {
        match search_steps(st, beta, ply, depth, pv, ms.drop_last(), vs.drop_last(), ns.drop_last(), ws.drop_last(), alpha0) {
            None => None,
            Some((b, a, cut)) => {
                let p = st[st.len() - 1];
                let i = ms.len() - 1;
                let m = ms[i];
                let child = st.push(after_move(p, m));
                let narrow = !pv || i > 0;
                let s1 = if narrow { -vs[i].0 } else { 0 };
                let wide = pv && (i == 0 || s1 > a);
                let s = if wide { -vs[i].1 } else { s1 };
                if cut {
                    None
                } else if p.occupant(m.to_sq()) == Some((Piece::King, p.side_to_move().other())) {
                    Some((b, a, false))
                } else if narrow && !search_value(child, -(a + 1), -a, ply + 1, depth - 1, vs[i].0, ns[i]) {
                    None
                } else if wide && !search_value(child, -beta, -a, ply + 1, depth - 1, vs[i].1, ws[i]) {
                    None
                } else {
                    let b2 = if s > b { s } else { b };
                    let a2 = if s > a { s } else { a };
                    Some((b2, a2, a2 >= beta))
                }
            },
        }
    }
}

/// `v` is the score the search gives for the top of `st`, `ply` plies from the root, with
/// `depth` plies to go and the window (`alpha`, `beta`), going through `t`: the quiescence
/// search's at depth 0; else 0 for a repetition, a mate loss or 0 with no moves, 0 at the
/// fifty-move limit; else a score the table settles a null window with, or the fail-soft
/// principal-variation value over the listed moves, searched in the order of `t`, all of them
/// unless one reaches `beta`.
#[verifier::opaque]
pub open spec fn search_value(st: Seq<Position>, alpha: int, beta: int, ply: int, depth: int, v: int, t: SearchTrace) -> bool
    decreases depth_left(depth), plies_left(ply), 3int, 0int,
{
    let p = st[st.len() - 1];
    if depth <= 0 {
        quiescence_value(st, alpha, beta, ply, v, t.quiet)
    } else if repeated(st, ply) {
        v == 0
    } else if no_moves(p) {
        v == (if p.checker_bb() != 0 { -MATE_SCORE + ply } else { 0 })
    } else if p.halfmoves() >= 100 {
        v == 0
    } else {
        ||| stored_cutoff(ply, alpha, beta, v)
        ||| search_expanded(st, alpha, beta, ply, depth, v, t)
    }
}

/// `v` is the fail-soft principal-variation value over the listed moves of the top of `st`,
/// with `depth` plies to go and the window (`alpha`, `beta`), searched in the order of `t`, all
/// of them unless one reaches `beta`.
#[verifier::opaque]
pub open spec fn search_expanded(st: Seq<Position>, alpha: int, beta: int, ply: int, depth: int, v: int, t: SearchTrace) -> bool
    decreases depth_left(depth), plies_left(ply), 2int, 0int,
{
    let p = st[st.len() - 1];
    &&& t.moves.no_duplicates()
    &&& forall|i: int| 0 <= i < t.moves.len() ==> p.listed_move(#[trigger] t.moves[i])
    &&& search_steps(st, beta, ply, depth, beta > alpha + 1, t.moves, t.scores, t.narrow, t.wide, alpha) matches Some((b, _, cut))
    &&& v == b
    &&& (cut || forall|m: Move| p.listed_move(m) ==> #[trigger] t.moves.contains(m))
}

/// A position is in check exactly when its checker bitboard counts a square.
proof fn lemma_checked_iff(p: Position)
    ensures
        (crate::bits::popcount(p.checker_bb()) == 0) == (p.checker_bb() == 0),
{
    assert(crate::bits::popcount(0u64) == 0);
    if crate::bits::popcount(p.checker_bb()) == 0 {
        crate::movegen::lemma_popcount_zero(p.checker_bb());
    }
}

/// Whether the search stops at a stop check: when asked to, or once the hard time or node
/// limit is reached.
pub fn stop_due(requested: bool, elapsed_ms: u64, nodes: u64, limits: &Limits) -> (r: bool)
    ensures
        r == (requested || elapsed_ms >= limits.hard_time || nodes >= limits.hard_nodes),
{
    requested || elapsed_ms >= limits.hard_time || nodes >= limits.hard_nodes
}

/// Number of positions at even distances 2, 4, .. up to `k` back from the last of `stack`
/// that carry the hash `h`.
pub open spec fn repeats(stack: Seq<Position>, h: u64, k: int) -> nat
    decreases k,
{
    if k < 2 {
        0
    } else {
        repeats(stack, h, k - 2) + (if stack[stack.len() - 1 - k].hash_value() == h { 1nat } else { 0nat })
    }
}

/// The position `k` plies back (an even number) from the last of `stack`, seen from a node
/// `ply` plies from the root, carries the last position's hash and completes a repetition.
pub open spec fn repeat_at(stack: Seq<Position>, ply: int, k: int) -> bool {
    let h = stack[stack.len() - 1].hash_value();
    &&& k % 2 == 0
    &&& stack[stack.len() - 1 - k].hash_value() == h
    &&& 1 + repeats(stack, h, k) >= repetition_threshold(ply, k)
}

/// How many occurrences make a repetition `k` plies back from a node `ply` plies from the root:
/// three when that position is at or before the root, two inside the search.
pub open spec fn repetition_threshold(ply: int, k: int) -> int {
    if ply - k <= 0 {
        3
    } else {
        2
    }
}

/// Counting occurrences further back never finds fewer.
proof fn lemma_repeats_mono(st: Seq<Position>, h: u64, a: int, b: int)
    requires
        0 <= a <= b,
        (b - a) % 2 == 0,
    ensures
        repeats(st, h, b) >= repeats(st, h, a),
    decreases b - a,
{
    if a < b {
        lemma_repeats_mono(st, h, a, b - 2);
    }
}

/// An occurrence counted up to `k` stands at an even distance from `k` back.
proof fn lemma_repeats_witness(st: Seq<Position>, h: u64, k: int)
    requires
        repeats(st, h, k) >= 1,
    ensures
        exists|j: int| 2 <= j <= k && (k - j) % 2 == 0 && #[trigger] st[st.len() - 1 - j].hash_value() == h,
    decreases k,
{
    if k >= 2 {
        if st[st.len() - 1 - k].hash_value() == h {
            assert(st[st.len() - 1 - k].hash_value() == h);
        } else {
            lemma_repeats_witness(st, h, k - 2);
            let j = choose|j: int| 2 <= j <= k - 2 && (k - 2 - j) % 2 == 0 && #[trigger] st[st.len() - 1 - j].hash_value() == h;
            assert(st[st.len() - 1 - j].hash_value() == h);
        }
    }
}

/// Threefold repetition: when the position on top of the stack carries the hash of two earlier
/// positions at even distances within reach of its halfmove clock, it repeats, wherever the
/// root is: with the current position they make three occurrences.
pub proof fn lemma_repetition_threefold(st: Seq<Position>, ply: int, k1: int, k2: int)
    requires
        st.len() >= 1,
        st[st.len() - 1].halfmoves() >= 0,
        2 <= k1 < k2,
        k1 % 2 == 0,
        k2 % 2 == 0,
        k2 <= st[st.len() - 1].halfmoves(),
        k2 <= st.len() - 1,
        st[st.len() - 1 - k1].hash_value() == st[st.len() - 1].hash_value(),
        st[st.len() - 1 - k2].hash_value() == st[st.len() - 1].hash_value(),
    ensures
        repeated(st, ply),
{
    let h = st[st.len() - 1].hash_value();
    lemma_repeats_mono(st, h, k1, k2 - 2);
    assert(repeats(st, h, k1) >= 1);
    assert(repeats(st, h, k2) >= 2);
    assert(repeat_at(st, ply, k2));
}

/// Inside the search, one earlier occurrence of the position on top of the stack, at an even
/// distance within reach of its halfmove clock and after the root, is a repetition: with the
/// current position it makes two occurrences.
pub proof fn lemma_repetition_in_search(st: Seq<Position>, ply: int, k: int)
    requires
        st.len() >= 1,
        st[st.len() - 1].halfmoves() >= 0,
        2 <= k < ply,
        k % 2 == 0,
        k <= st[st.len() - 1].halfmoves(),
        k <= st.len() - 1,
        st[st.len() - 1 - k].hash_value() == st[st.len() - 1].hash_value(),
    ensures
        repeated(st, ply),
{
    let h = st[st.len() - 1].hash_value();
    assert(repeats(st, h, k) >= 1);
    assert(repeat_at(st, ply, k));
}

/// A repetition has an earlier occurrence of the position on top of the stack at an even
/// distance within reach of its halfmove clock; unless that one lies after the root, there is
/// a second, nearer one.
pub proof fn lemma_repetition_occurrences(st: Seq<Position>, ply: int)
    requires
        st.len() >= 1,
        repeated(st, ply),
    ensures
        ({
            let hm = st[st.len() - 1].halfmoves() as usize as int;
            let max_offset = if hm < st.len() - 1 { hm } else { st.len() - 1 };
            let h = st[st.len() - 1].hash_value();
            exists|k: int| #![trigger st[st.len() - 1 - k]] {
                &&& 2 <= k <= max_offset
                &&& k % 2 == 0
                &&& st[st.len() - 1 - k].hash_value() == h
                &&& (k < ply || exists|j: int| 2 <= j < k && j % 2 == 0 && #[trigger] st[st.len() - 1 - j].hash_value() == h)
            }
        }),
{
    let hm = st[st.len() - 1].halfmoves() as usize as int;
    let max_offset = if hm < st.len() - 1 { hm } else { st.len() - 1 };
    let h = st[st.len() - 1].hash_value();
    let k = choose|k: int| 2 <= k <= max_offset && #[trigger] repeat_at(st, ply, k);
    assert(st[st.len() - 1 - k].hash_value() == h);
    if k >= ply {
        assert(repeats(st, h, k) >= 2);
        assert(repeats(st, h, k - 2) >= 1);
        lemma_repeats_witness(st, h, k - 2);
        let j = choose|j: int| 2 <= j <= k - 2 && (k - 2 - j) % 2 == 0 && #[trigger] st[st.len() - 1 - j].hash_value() == h;
        assert(j % 2 == 0);
    }
}

/// Row `ply` of the principal-variation table: the variation found `ply` plies from the root.
pub open spec fn pv_row(t: Seq<Move>, ply: int) -> Seq<Move> {
    t.subrange(ply * MAX_PLY, ply * MAX_PLY + MAX_PLY)
}

/// `dst` repeats `src` up to and including its first null move.
pub open spec fn follows_line(src: Seq<Move>, dst: Seq<Move>) -> bool {
    forall|i: int| 0 <= i < dst.len() && i < src.len() && (forall|j: int| 0 <= j < i ==> (#[trigger] src[j]).word() != 0)
        ==> #[trigger] dst[i] == src[i]
}

/// The moves of `row` up to its first null move are played in turn from `p`: each is on the
/// move list of the position the moves before it lead to.
pub open spec fn pv_line(p: Position, row: Seq<Move>) -> bool
    decreases row.len(),
{
    row.len() == 0 || row[0].word() == 0 || (p.listed_move(row[0]) && pv_line(after_move(p, row[0]), row.drop_first()))
}

/// What repeats a line up to its first null move is a line too.
proof fn lemma_line_prefix(q: Position, a: Seq<Move>, b: Seq<Move>)
    requires
        pv_line(q, a),
        follows_line(a, b),
        b.len() <= a.len(),
    ensures
        pv_line(q, b),
    decreases b.len(),
{
    if b.len() > 0 && b[0].word() != 0 {
        assert(b[0] == a[0]);
        let a1 = a.drop_first();
        let b1 = b.drop_first();
        assert forall|i: int| 0 <= i < b1.len() && i < a1.len() && (forall|j: int| 0 <= j < i ==> (#[trigger] a1[j]).word() != 0)
            implies #[trigger] b1[i] == a1[i] by {
            assert forall|j: int| 0 <= j < i + 1 implies (#[trigger] a[j]).word() != 0 by {
                if j > 0 {
                    assert(a[j] == a1[j - 1]);
                }
            }
            assert(b[i + 1] == a[i + 1]);
        }
        lemma_line_prefix(after_move(q, a[0]), a1, b1);
    }
}

/// A move on the list of `p` put in front of a line from the position it leads to makes a line
/// from `p`.
proof fn lemma_line_extend(p: Position, mv: Move, child: Seq<Move>, row: Seq<Move>)
    requires
        p.listed_move(mv),
        pv_line(after_move(p, mv), child),
        row.len() >= 1,
        row[0] == mv,
        follows_line(child, row.drop_first()),
        row.len() - 1 <= child.len(),
    ensures
        pv_line(p, row),
{
    lemma_line_prefix(after_move(p, mv), child, row.drop_first());
}

/// The variation read off the root row of the table, up to its first null move, is a line from
/// the root when the row is one.
pub proof fn lemma_root_variation(p: Position, t: Seq<Move>, r: Seq<Move>)
    requires
        t.len() == MAX_PLY * MAX_PLY,
        pv_line(p, pv_row(t, 0)),
        r.len() <= MAX_PLY,
        forall|i: int| 0 <= i < r.len() ==> #[trigger] r[i] == t[i],
    ensures
        pv_line(p, r),
{
    let row = pv_row(t, 0);
    assert forall|i: int| 0 <= i < r.len() && i < row.len() && (forall|j: int| 0 <= j < i ==> (#[trigger] row[j]).word() != 0)
        implies #[trigger] r[i] == row[i] by {
        assert(row[i] == t[i]);
    }
    lemma_line_prefix(p, row, r);
}

/// `row` starts with one of the moves `ms` whose full-window child search scored `-s`, and
/// goes on with the variation that child search left.
pub open spec fn best_line_at(ms: Seq<Move>, vs: Seq<(int, int)>, ws: Seq<SearchTrace>, row: Seq<Move>, s: int) -> bool {
    exists|k: int| #![trigger ms[k]]
        0 <= k < ms.len() && k < vs.len() && k < ws.len() && row[0] == ms[k] && -vs[k].1 == s
            && follows_line(ws[k].variation, row.drop_first())
}

/// Searching more moves keeps the move the variation starts with.
proof fn lemma_best_line_push(ms: Seq<Move>, vs: Seq<(int, int)>, ws: Seq<SearchTrace>, row: Seq<Move>, s: int, m: Move, v: (int, int), w: SearchTrace)
    requires
        best_line_at(ms, vs, ws, row, s),
    ensures
        best_line_at(ms.push(m), vs.push(v), ws.push(w), row, s),
{
    let k = choose|k: int| #![trigger ms[k]]
        0 <= k < ms.len() && k < vs.len() && k < ws.len() && row[0] == ms[k] && -vs[k].1 == s
            && follows_line(ws[k].variation, row.drop_first());
    assert(ms.push(m)[k] == ms[k]);
    assert(vs.push(v)[k] == vs[k]);
    assert(ws.push(w)[k] == ws[k]);
}

/// A move whose full-window child search raised the bound starts the variation.
proof fn lemma_best_line_new(ms: Seq<Move>, vs: Seq<(int, int)>, ws: Seq<SearchTrace>, row: Seq<Move>, m: Move, v: (int, int), w: SearchTrace)
    requires
        ms.len() == vs.len(),
        ms.len() == ws.len(),
        row[0] == m,
        follows_line(w.variation, row.drop_first()),
    ensures
        best_line_at(ms.push(m), vs.push(v), ws.push(w), row, -v.1),
{
    let k = ms.len() as int;
    assert(ms.push(m)[k] == m);
    assert(vs.push(v)[k] == v);
    assert(ws.push(w)[k] == w);
}

/// The slot of a table of `len` entries for hash `h`: the high half of their product.
pub open spec fn tt_slot(h: u64, len: nat) -> int {
    (h as int * len) / 0x1_0000_0000_0000_0000
}

/// The score that the table entry of `p` settles for a null-window search (`beta == alpha + 1`)
/// of `depth` plies, `ply` plies from the root: its stored hash bits match, it was searched at
/// least as deep, and its score, as seen at `ply`, is exact inside the window, a lower bound
/// above `beta` or an upper bound below `alpha`.
pub open spec fn table_cutoff(table: Seq<TTEntry>, p: Position, ply: int, alpha: int, beta: int, depth: int) -> Option<int> {
    let e = table[tt_slot(p.hash_value(), table.len())];
    let s = score_at_ply(e.rel_score as int, ply);
    if beta > alpha + 1 || e.hash_lo != p.hash_value() as u16 || (e.depth as int) < depth {
        None
    } else {
        match e.kind {
            TTKind::Exact => if alpha < s && s < beta { Some(s) } else { None },
            TTKind::Lower => if s > beta { Some(s) } else { None },
            TTKind::Upper => if s < alpha { Some(s) } else { None },
        }
    }
}

impl Worker {
    /// Whether the current position repeats an earlier one often enough to count as a draw,
    /// looking back no further than the halfmove clock allows.
    pub fn is_repetition(&self, ply: i32) -> (r: bool)
        requires
            self.stack().len() >= 1,
            0 <= ply <= QUIESCENCE_LIMIT,
        ensures
            r == repeated(self.stack(), ply as int),
    {
        let len = self.pos_stack.len();
        let pos = &self.pos_stack[len - 1];
        let hash = pos.hash;
        let hm = pos.halfmove_clock as usize;
        let ghost st = self.pos_stack@;
        let mut count: u64 = 1;
        let mut offset: usize = 2;
        let max_offset = if hm < len - 1 { hm } else { len - 1 };
        while offset <= max_offset
            invariant
                st == self.pos_stack@,
                len == st.len(),
                len >= 1,
                hash == st[len - 1].hash_value(),
                max_offset <= len - 1,
                max_offset as int == (if (st[len - 1].halfmoves() as usize as int) < len - 1 {
                    st[len - 1].halfmoves() as usize as int
                } else {
                    len - 1
                }),
                2 <= offset <= max_offset + 2,
                offset % 2 == 0,
                0 <= ply <= QUIESCENCE_LIMIT,
                count == 1 + repeats(st, hash, offset - 2),
                count <= offset,
                forall|k: int| 2 <= k < offset ==> !#[trigger] repeat_at(st, ply as int, k),
            decreases max_offset + 2 - offset,
        {
            let index = len - 1 - offset;
            if self.pos_stack[index].hash == hash {
                count += 1;
                assert(count == 1 + repeats(st, hash, offset as int));
                let threshold: u64 = if offset >= ply as usize { 3 } else { 2 };
                assert(threshold == repetition_threshold(ply as int, offset as int));
                if count >= threshold {
                    assert(st[len - 1 - offset as int].hash_value() == hash);
                    assert(repeat_at(st, ply as int, offset as int));
                    assert(st == self.stack());
                    assert(exists|k: int| 2 <= k <= max_offset && #[trigger] repeat_at(st, ply as int, k));
                    return true;
                }
            }
            proof {
                assert forall|k: int| 2 <= k < offset + 2 implies !#[trigger] repeat_at(st, ply as int, k) by {
                    if k == offset {
                    } else if k == offset + 1 {
                    }
                }
            }
            if max_offset - offset < 2 {
                return false;
            }
            offset += 2;
        }
        false
    }

    /// The table slot of `pos`.
    fn tt_index(&self, pos: &Position) -> (r: usize)
        requires
            self.table().len() >= 1,
        ensures
            r == tt_slot(pos.hash_value(), self.table().len()),
            r < self.table().len(),
    {
        let len = self.tt.len() as u128;
        let h = pos.hash as u128;
        assert(h * len < 0x1_0000_0000_0000_0000 * len) by (nonlinear_arith)
            requires
                h < 0x1_0000_0000_0000_0000,
                len >= 1,
        ;
        assert(h * len <= 0xffff_ffff_ffff_ffff * 0xffff_ffff_ffff_ffff) by (nonlinear_arith)
            requires
                h <= 0xffff_ffff_ffff_ffff,
                len <= 0xffff_ffff_ffff_ffff,
        ;
        let q = h * len / 0x1_0000_0000_0000_0000;
        assert(q < len) by (nonlinear_arith)
            requires
                h * len < 0x1_0000_0000_0000_0000 * len,
                q == h * len / 0x1_0000_0000_0000_0000,
        ;
        q as usize
    }

    /// The table entry for `pos`, when its stored hash bits match.
    fn tt_query(&self, pos: &Position) -> (r: Option<TTEntry>)
        requires
            self.table().len() >= 1,
        ensures
            ({
                let e = self.table()[tt_slot(pos.hash_value(), self.table().len())];
                r == if e.hash_lo == pos.hash_value() as u16 { Some(e) } else { None }
            }),
    {
        let entry = self.tt[self.tt_index(pos)];
        if entry.hash_lo == pos.hash as u16 {
            Some(entry)
        } else {
            None
        }
    }

    /// Stores a result for `pos` in its table slot.
    fn tt_write(&mut self, pos: &Position, depth: i32, mv: Move, ply: i32, kind: TTKind, score: Score)
        requires
            old(self).wf(),
            -INF_SCORE <= score <= INF_SCORE,
            0 <= ply <= 1000,
        ensures
            final(self).wf(),
            final(self).stack() == old(self).stack(),
            final(self).node_count() == old(self).node_count(),
            final(self).pv_table() == old(self).pv_table(),
            final(self).stopped == old(self).stopped,
            final(self).table() == old(self).table().update(
                tt_slot(pos.hash_value(), old(self).table().len()),
                TTEntry {
                    kind,
                    depth: depth as u8,
                    hash_lo: pos.hash_value() as u16,
                    mv,
                    rel_score: score_to_store(score as int, ply as int),
                },
            ),
    {
        let idx = self.tt_index(pos);
        let rel_score = stored_score(score, ply);
        let entry = TTEntry { kind, depth: depth as u8, hash_lo: pos.hash as u16, mv, rel_score };
        self.tt.set(idx, entry);
    }
}

/// Handing out the move at `b` by exchanging it with the one at `a` extends the handed-out
/// prefix by it, keeps the moves of the list and keeps them free of repeats.
proof fn lemma_swapped_pick(s: Seq<Move>, a: int, b: int)
    requires
        0 <= a <= b < s.len(),
    ensures
        swapped(s, a, b).take(a + 1) == s.take(a).push(s[b]),
        swapped(s, a, b).len() == s.len(),
        forall|m: Move| #[trigger] swapped(s, a, b).contains(m) <==> s.contains(m),
        s.no_duplicates() ==> swapped(s, a, b).no_duplicates(),
{
    let t = swapped(s, a, b);
    assert forall|i: int| 0 <= i < a + 1 implies #[trigger] t.take(a + 1)[i] == s.take(a).push(s[b])[i] by {
        if i < a {
            assert(t[i] == s[i]);
        } else {
            assert(t[a] == s[b]);
        }
    }
    assert(t.take(a + 1) =~= s.take(a).push(s[b]));
    assert forall|m: Move| #[trigger] t.contains(m) <==> s.contains(m) by {
        if t.contains(m) {
            let i = choose|i: int| 0 <= i < t.len() && t[i] == m;
            if i == a {
                assert(s[b] == m);
            } else if i == b {
                assert(s[a] == m);
            } else {
                assert(s[i] == m);
            }
        }
        if s.contains(m) {
            let i = choose|i: int| 0 <= i < s.len() && s[i] == m;
            if i == a {
                assert(t[b] == m);
            } else if i == b {
                assert(t[a] == m);
            } else {
                assert(t[i] == m);
            }
        }
    }
    if s.no_duplicates() {
        assert forall|i: int, j: int| 0 <= i < t.len() && 0 <= j < t.len() && i != j implies t[i] != t[j] by {
            let si = if i == a { b } else if i == b { a } else { i };
            let sj = if j == a { b } else if j == b { a } else { j };
            assert(t[i] == s[si] && t[j] == s[sj]);
        }
    }
}

/// Passing over a move that takes a king leaves the quiescence steps where they were.
proof fn lemma_quiescence_skip(st: Seq<Position>, beta: int, ply: int, ms: Seq<Move>, vs: Seq<int>, ks: Seq<QuiescenceTrace>, alpha: int, b: int, a: int, m: Move, x: int, k: QuiescenceTrace)
    requires
        st.len() >= 1,
        quiescence_steps(st, beta, ply, ms, vs, ks, alpha) == Some((b, a, false)),
        ms.len() == vs.len(),
        ms.len() == ks.len(),
        0 <= ply < QUIESCENCE_LIMIT,
        st[st.len() - 1].occupant(m.to_sq()) == Some((Piece::King, st[st.len() - 1].side_to_move().other())),
    ensures
        quiescence_steps(st, beta, ply, ms.push(m), vs.push(x), ks.push(k), alpha) == Some((b, a, false)),
{
    reveal(quiescence_steps);
    assert(ms.push(m).drop_last() =~= ms);
    assert(vs.push(x).drop_last() =~= vs);
    assert(ks.push(k).drop_last() =~= ks);
}

/// No move searched yet: the quiescence steps stand at their start.
proof fn lemma_quiescence_start(st: Seq<Position>, beta: int, ply: int, alpha: int)
    ensures
        quiescence_steps(st, beta, ply, Seq::empty(), Seq::empty(), Seq::empty(), alpha) == Some((quiescence_start(st.last()), alpha, false)),
{
    reveal(quiescence_steps);
}

/// Searching one more move extends the quiescence steps by its child's score.
proof fn lemma_quiescence_step(st: Seq<Position>, beta: int, ply: int, ms: Seq<Move>, vs: Seq<int>, ks: Seq<QuiescenceTrace>, alpha: int, b: int, a: int, m: Move, v: int, k: QuiescenceTrace)
    requires
        st.len() >= 1,
        quiescence_steps(st, beta, ply, ms, vs, ks, alpha) == Some((b, a, false)),
        ms.len() == vs.len(),
        ms.len() == ks.len(),
        0 <= ply < QUIESCENCE_LIMIT,
        st[st.len() - 1].occupant(m.to_sq()) != Some((Piece::King, st[st.len() - 1].side_to_move().other())),
        quiescence_value(st.push(after_move(st[st.len() - 1], m)), -beta, -a, ply + 1, v, k),
    ensures
        ({
            let b2 = if -v > b { -v } else { b };
            let a2 = if -v > a { -v } else { a };
            quiescence_steps(st, beta, ply, ms.push(m), vs.push(v), ks.push(k), alpha) == Some((b2, a2, a2 >= beta))
        }),
{
    reveal(quiescence_value);
    reveal(quiescence_steps);
    assert(ms.push(m).drop_last() =~= ms);
    assert(vs.push(v).drop_last() =~= vs);
    assert(ks.push(k).drop_last() =~= ks);
}

/// A quiescence search that searched the moves `ms` of its position in turn, free of repeats,
/// all of them unless the last reached `beta`, gives its best score.
proof fn lemma_quiescence_searched(st: Seq<Position>, alpha: int, beta: int, ply: int, ms: Seq<Move>, vs: Seq<int>, ks: Seq<QuiescenceTrace>, b: int, a: int, cut: bool)
    requires
        st.len() >= 1,
        !repeated(st, ply),
        !(st[st.len() - 1].checker_bb() != 0 && no_moves(st[st.len() - 1])),
        st[st.len() - 1].halfmoves() < 100,
        0 <= ply < QUIESCENCE_LIMIT,
        ms.no_duplicates(),
        forall|m: Move| #[trigger] ms.contains(m) ==> quiescence_move(st[st.len() - 1], m),
        quiescence_steps(st, beta, ply, ms, vs, ks, alpha) == Some((b, a, cut)),
        cut || forall|m: Move| quiescence_move(st[st.len() - 1], m) ==> #[trigger] ms.contains(m),
    ensures
        quiescence_expanded(st, alpha, beta, ply, b, QuiescenceTrace { moves: ms, scores: vs, kids: ks }),
        quiescence_value(st, alpha, beta, ply, b, QuiescenceTrace { moves: ms, scores: vs, kids: ks }),
{
    reveal(quiescence_steps);
    reveal(quiescence_value);
    reveal(quiescence_expanded);
    let p = st[st.len() - 1];
    assert forall|i: int| 0 <= i < ms.len() implies quiescence_move(p, #[trigger] ms[i]) by {
        assert(ms.contains(ms[i]));
    }
}

/// `v` is the score a full-window search of the top of `st` as the root, `depth` plies deep,
/// gives, going through `t`.
pub open spec fn root_value(st: Seq<Position>, depth: int, v: int, t: SearchTrace) -> bool {
    search_value(st, -INF_SCORE as int, INF_SCORE as int, 0, depth, v, t)
}

/// `v` is the fail-soft principal-variation value of a full-window search of the top of `st` as
/// the root, `depth` plies deep, over its listed moves in the order of `t`.
pub open spec fn root_expanded(st: Seq<Position>, depth: int, v: int, t: SearchTrace) -> bool {
    search_expanded(st, -INF_SCORE as int, INF_SCORE as int, 0, depth, v, t)
}

/// A record of no move searched, and no quiescence search.
pub open spec fn no_search_trace() -> SearchTrace {
    SearchTrace { moves: Seq::empty(), scores: Seq::empty(), narrow: Seq::empty(), wide: Seq::empty(), quiet: no_quiescence_trace(),
        variation: Seq::empty() }
}

/// No move searched yet: the search steps stand at their start.
proof fn lemma_search_start(st: Seq<Position>, beta: int, ply: int, depth: int, pv: bool, alpha: int)
    ensures
        search_steps(st, beta, ply, depth, pv, Seq::empty(), Seq::empty(), Seq::empty(), Seq::empty(), alpha)
            == Some((lowest_score(), alpha, false)),
{
    reveal(search_steps);
}

/// Passing over a move that takes a king leaves the search steps where they were.
proof fn lemma_search_skip(st: Seq<Position>, beta: int, ply: int, depth: int, pv: bool, ms: Seq<Move>, vs: Seq<(int, int)>, ns: Seq<SearchTrace>, ws: Seq<SearchTrace>, alpha: int, b: int, a: int, m: Move)
    requires
        st.len() >= 1,
        depth > 0,
        search_steps(st, beta, ply, depth, pv, ms, vs, ns, ws, alpha) == Some((b, a, false)),
        ms.len() == vs.len(),
        ms.len() == ns.len(),
        ms.len() == ws.len(),
        st[st.len() - 1].occupant(m.to_sq()) == Some((Piece::King, st[st.len() - 1].side_to_move().other())),
    ensures
        search_steps(st, beta, ply, depth, pv, ms.push(m), vs.push((0, 0)), ns.push(no_search_trace()), ws.push(no_search_trace()), alpha)
            == Some((b, a, false)),
{
    reveal(search_steps);
    assert(ms.push(m).drop_last() =~= ms);
    assert(vs.push((0, 0)).drop_last() =~= vs);
    assert(ns.push(no_search_trace()).drop_last() =~= ns);
    assert(ws.push(no_search_trace()).drop_last() =~= ws);
}

/// Searching one more move, with a null window first unless it is the first move of a wider
/// window, and again with the full window where the search does so, extends the search steps
/// by its score.
proof fn lemma_search_step(st: Seq<Position>, beta: int, ply: int, depth: int, pv: bool, ms: Seq<Move>, vs: Seq<(int, int)>, ns: Seq<SearchTrace>, ws: Seq<SearchTrace>, alpha: int, b: int, a: int, m: Move, v1: int, n: SearchTrace, v2: int, w: SearchTrace)
    requires
        st.len() >= 1,
        depth > 0,
        search_steps(st, beta, ply, depth, pv, ms, vs, ns, ws, alpha) == Some((b, a, false)),
        ms.len() == vs.len(),
        ms.len() == ns.len(),
        ms.len() == ws.len(),
        st[st.len() - 1].occupant(m.to_sq()) != Some((Piece::King, st[st.len() - 1].side_to_move().other())),
        (!pv || ms.len() > 0) ==> search_value(st.push(after_move(st[st.len() - 1], m)), -(a + 1), -a, ply + 1, depth - 1, v1, n),
        pv && (ms.len() == 0 || -v1 > a) ==> search_value(st.push(after_move(st[st.len() - 1], m)), -beta, -a, ply + 1, depth - 1, v2, w),
    ensures
        ({
            let narrow = !pv || ms.len() > 0;
            let s1 = if narrow { -v1 } else { 0 };
            let wide = pv && (ms.len() == 0 || s1 > a);
            let s = if wide { -v2 } else { s1 };
            let b2 = if s > b { s } else { b };
            let a2 = if s > a { s } else { a };
            search_steps(st, beta, ply, depth, pv, ms.push(m), vs.push((v1, v2)), ns.push(n), ws.push(w), alpha) == Some((b2, a2, a2 >= beta))
        }),
{
    reveal(search_value);
    reveal(search_steps);
    assert(ms.push(m).drop_last() =~= ms);
    assert(vs.push((v1, v2)).drop_last() =~= vs);
    assert(ns.push(n).drop_last() =~= ns);
    assert(ws.push(w).drop_last() =~= ws);
}

/// A search that searched the listed moves `ms` of its position in turn, free of repeats, all
/// of them unless the last reached `beta`, gives its best score.
proof fn lemma_search_searched(st: Seq<Position>, alpha: int, beta: int, ply: int, depth: int, ms: Seq<Move>, vs: Seq<(int, int)>, ns: Seq<SearchTrace>, ws: Seq<SearchTrace>, b: int, a: int, cut: bool, var: Seq<Move>)
    requires
        st.len() >= 1,
        depth > 0,
        !repeated(st, ply),
        !no_moves(st[st.len() - 1]),
        st[st.len() - 1].halfmoves() < 100,
        ms.no_duplicates(),
        forall|m: Move| #[trigger] ms.contains(m) ==> st[st.len() - 1].listed_move(m),
        search_steps(st, beta, ply, depth, beta > alpha + 1, ms, vs, ns, ws, alpha) == Some((b, a, cut)),
        cut || forall|m: Move| st[st.len() - 1].listed_move(m) ==> #[trigger] ms.contains(m),
    ensures
        search_expanded(st, alpha, beta, ply, depth, b, SearchTrace { moves: ms, scores: vs, narrow: ns, wide: ws, quiet: no_quiescence_trace(), variation: var }),
        search_value(st, alpha, beta, ply, depth, b, SearchTrace { moves: ms, scores: vs, narrow: ns, wide: ws, quiet: no_quiescence_trace(), variation: var }),
{
    reveal(search_expanded);
    reveal_with_fuel(search_value, 2);
    reveal(search_steps);
    let p = st[st.len() - 1];
    assert forall|i: int| 0 <= i < ms.len() implies p.listed_move(#[trigger] ms[i]) by {
        assert(ms.contains(ms[i]));
    }
}

/// A prefix of a list free of repeats is free of repeats.
proof fn lemma_take_nodup(s: Seq<Move>, n: int)
    requires
        s.no_duplicates(),
        0 <= n <= s.len(),
    ensures
        s.take(n).no_duplicates(),
        forall|i: int| 0 <= i < n ==> #[trigger] s.take(n)[i] == s[i],
{
    assert forall|i: int, j: int| 0 <= i < n && 0 <= j < n && i != j implies s.take(n)[i] != s.take(n)[j] by {
        assert(s.take(n)[i] == s[i] && s.take(n)[j] == s[j]);
    }
}

/// Exchanging two moves of a list keeps every move fitting.
proof fn lemma_all_fit_swapped(pos: Position, s: Seq<Move>, a: int, b: int)
    requires
        all_fit(pos, s),
        0 <= a < s.len(),
        0 <= b < s.len(),
    ensures
        all_fit(pos, swapped(s, a, b)),
{
    assert forall|i: int| 0 <= i < swapped(s, a, b).len() implies #[trigger] pos.fits(swapped(s, a, b)[i]) by {
        if i == b {
            assert(swapped(s, a, b)[i] == s[a]);
        } else if i == a {
            assert(swapped(s, a, b)[i] == s[b]);
        } else {
            assert(swapped(s, a, b)[i] == s[i]);
        }
    }
}

impl Worker {
    /// Quiescence search: from the position on top of the stack, only captures (every legal
    /// move in check), with the static evaluation as a floor when not in check.
    #[verifier::spinoff_prover]
    #[verifier::rlimit(100)]
    fn qsearch(&mut self, alpha: Score, beta: Score, ply: usize) -> (res: (Score, Ghost<QuiescenceTrace>))
        requires
            old(self).wf(),
            old(self).stack().len() >= 1,
            -INF_SCORE <= alpha < beta <= INF_SCORE,
            ply <= QUIESCENCE_LIMIT,
        ensures
            final(self).wf(),
            final(self).stack() == old(self).stack(),
            -INF_SCORE <= res.0 <= INF_SCORE,
            old(self).was_stopped() ==> final(self).was_stopped(),
            final(self).pv_table() == old(self).pv_table(),
            ({
                let st = old(self).stack();
                let p = st[st.len() - 1];
                !final(self).was_stopped() && !repeated(st, ply as int) && !(p.checker_bb() != 0 && no_moves(p))
                    && p.halfmoves() < 100 && ply < QUIESCENCE_LIMIT
                    && table_cutoff(old(self).table(), p, ply as int, alpha as int, beta as int, 0) is None
                    && !(p.checker_bb() == 0 && side_eval(p) >= beta)
                    ==> quiescence_expanded(st, alpha as int, beta as int, ply as int, res.0 as int, res.1@)
            }),
            !final(self).was_stopped() ==> quiescence_value(old(self).stack(), alpha as int, beta as int, ply as int, res.0 as int, res.1@),
            ({
                let st = old(self).stack();
                let p = st[st.len() - 1];
                !final(self).was_stopped() ==> {
                    &&& repeated(st, ply as int) ==> res.0 == 0
                    &&& !repeated(st, ply as int) && p.checker_bb() != 0 && no_moves(p) ==> res.0 == -MATE_SCORE + ply
                    &&& !repeated(st, ply as int) && !(p.checker_bb() != 0 && no_moves(p)) && p.halfmoves() >= 100 ==> res.0 == 0
                    &&& !repeated(st, ply as int) && p.checker_bb() == 0 && p.halfmoves() < 100 && beta > alpha + 1
                        ==> res.0 >= side_eval(p)
                    &&& !repeated(st, ply as int) && p.checker_bb() == 0 && p.halfmoves() < 100 && side_eval(p) >= beta
                        && beta > alpha + 1 ==> res.0 >= beta
                    &&& !repeated(st, ply as int) && !(p.checker_bb() != 0 && no_moves(p)) && p.halfmoves() < 100
                        && ply < QUIESCENCE_LIMIT && table_cutoff(old(self).table(), p, ply as int, alpha as int, beta as int, 0) is Some
                        ==> table_cutoff(old(self).table(), p, ply as int, alpha as int, beta as int, 0) == Some(res.0 as int)
                    &&& !repeated(st, ply as int) && p.checker_bb() == 0 && p.halfmoves() < 100 && ply >= QUIESCENCE_LIMIT
                        ==> res.0 == side_eval(p)
                    &&& !repeated(st, ply as int) && p.checker_bb() == 0 && p.halfmoves() < 100 && no_captures(p)
                        && table_cutoff(old(self).table(), p, ply as int, alpha as int, beta as int, 0) is None
                        ==> res.0 == side_eval(p)
                }
            }),
        decreases QUIESCENCE_LIMIT - ply,
    {
        let ghost table0 = self.table();
        let mut window_alpha = alpha;
        self.nodes = self.nodes.wrapping_add(1);
        if self.check_stop() {
            return (0, Ghost(no_quiescence_trace()));
        }
        let alpha0 = window_alpha;
        let is_pv = beta > window_alpha + 1;
        if self.is_repetition(ply as i32) {
            assert(quiescence_value(old(self).stack(), alpha as int, beta as int, ply as int, 0, no_quiescence_trace())) by {
                reveal(quiescence_value);
            }
            return (0, Ghost(no_quiescence_trace()));
        }
        let ghost stack = self.pos_stack@;
        let pos = self.pos_stack[self.pos_stack.len() - 1];
        assert(pos.wf());
        let moves = gen_legal_qsearch(&pos);
        proof {
            lemma_checked_iff(pos);
            if pos.checker_bb() != 0 && moves@.len() > 0 {
                assert(moves@.contains(moves@[0]));
                assert(pos.listed_move(moves@[0]));
            }
        }
        if moves.len() == 0 {
            if pos.checked().is_some() {
                proof {
                    assert forall|m: Move| !#[trigger] pos.listed_move(m) by {
                        if pos.listed_move(m) {
                            assert(moves@.contains(m));
                        }
                    }
                }
                assert(quiescence_value(stack, alpha as int, beta as int, ply as int, -MATE_SCORE + ply, no_quiescence_trace())) by {
                    reveal(quiescence_value);
                }
                return (-MATE_SCORE + ply as Score, Ghost(no_quiescence_trace()));
            }
        }
        if pos.halfmove_clock >= 100 {
            assert(quiescence_value(stack, alpha as int, beta as int, ply as int, 0, no_quiescence_trace())) by {
                reveal(quiescence_value);
            }
            return (0, Ghost(no_quiescence_trace()));
        }
        if ply >= QUIESCENCE_LIMIT {
            assert(quiescence_value(stack, alpha as int, beta as int, ply as int, side_eval(pos), no_quiescence_trace())) by {
                reveal(quiescence_value);
            }
            return (relative_eval(&pos), Ghost(no_quiescence_trace()));
        }
        let hash_mv = match self.tt_query(&pos) {
            Some(entry) => {
                if !is_pv {
                    if let Some(cutoff_score) = entry.cutoff(ply as i32, window_alpha, beta) {
                        assert(score_at_ply(entry.rel_score as int, ply as int) == cutoff_score);
                        assert(quiescence_value(stack, alpha as int, beta as int, ply as int, cutoff_score as int, no_quiescence_trace())) by {
                            reveal(quiescence_value);
                        }
                        return (cutoff_score, Ghost(no_quiescence_trace()));
                    }
                }
                entry.mv
            },
            None => Move::null(),
        };
        let ghost n_moves = moves@.len();
        proof {
            if pos.checker_bb() == 0 && no_captures(pos) && moves@.len() > 0 {
                assert(moves@.contains(moves@[0]));
                assert(pos.listed_move(moves@[0]));
            }
        }
        let mut picker = MovePicker::new(&pos, moves, hash_mv);
        let mut best_score = if pos.checked().is_some() {
            -INF_SCORE
        } else {
            let stand_pat = relative_eval(&pos);
            if stand_pat >= beta {
                assert(quiescence_value(stack, alpha as int, beta as int, ply as int, stand_pat as int, no_quiescence_trace())) by {
                    reveal(quiescence_value);
                }
                return (stand_pat, Ghost(no_quiescence_trace()));
            }
            stand_pat
        };
        let mut best_mv = Move::null();
        let ghost mut done: Seq<Move> = Seq::empty();
        let ghost mut vals: Seq<int> = Seq::empty();
        let ghost mut kids: Seq<QuiescenceTrace> = Seq::empty();
        proof {
            lemma_quiescence_start(stack, beta as int, ply as int, alpha as int);
            assert(picker.moves_seq().take(0) =~= done);
            assert forall|m: Move| #[trigger] picker.moves_seq().contains(m) <==> quiescence_move(pos, m) by {
                reveal(quiescence_move);
                assert(picker.moves_seq() == moves@);
            }
        }
        loop
            invariant
                self.wf(),
                self.pos_stack@ == stack,
                stack == old(self).stack(),
                stack.len() >= 1,
                pos == stack[stack.len() - 1],
                pos.wf(),
                picker.wf(),
                all_fit(pos, picker.moves_seq()),
                -INF_SCORE <= alpha0 <= window_alpha < beta <= INF_SCORE,
                -INF_SCORE <= best_score <= INF_SCORE,
                ply < QUIESCENCE_LIMIT,
                !repeated(stack, ply as int),
                pos.halfmoves() < 100,
                pos.checker_bb() != 0 ==> !no_moves(pos),
                pos.checker_bb() == 0 ==> best_score >= side_eval(pos) && side_eval(pos) < beta,
                table0 == old(self).table(),
                alpha0 == alpha,
                table_cutoff(table0, pos, ply as int, alpha0 as int, beta as int, 0) is None,
                picker.moves_seq().len() == n_moves,
                pos.checker_bb() == 0 && no_captures(pos) ==> n_moves == 0,
                pos.checker_bb() == 0 && n_moves == 0 ==> best_score == side_eval(pos),
                done == picker.moves_seq().take(picker.picked()),
                picker.moves_seq().no_duplicates(),
                forall|m: Move| #[trigger] picker.moves_seq().contains(m) <==> quiescence_move(pos, m),
                vals.len() == done.len(),
                kids.len() == done.len(),
                old(self).was_stopped() ==> self.stopped,
                self.pv_table() == old(self).pv_table(),
                !self.stopped ==> quiescence_steps(stack, beta as int, ply as int, done, vals, kids, alpha as int)
                    == Some((best_score as int, window_alpha as int, false)),
            ensures
                !self.stopped ==> quiescence_value(stack, alpha as int, beta as int, ply as int, best_score as int,
                    QuiescenceTrace { moves: done, scores: vals, kids: kids }),
                !self.stopped ==> quiescence_expanded(stack, alpha as int, beta as int, ply as int, best_score as int,
                    QuiescenceTrace { moves: done, scores: vals, kids: kids }),
            decreases picker.moves_seq().len() - picker.picked(),
        {
            let ghost before = picker;
            match picker.next() {
                None => {
                    proof {
                        if !self.stopped {
                            assert(picker.picked() == picker.moves_seq().len());
                            assert(done =~= picker.moves_seq());
                            lemma_quiescence_searched(stack, alpha as int, beta as int, ply as int, done, vals, kids, best_score as int,
                                window_alpha as int, false);
                        }
                    }
                    break;
                },
                Some((_, mv)) => {
                    proof {
                        let b = choose|b: int| #[trigger] first_best(before.scores_seq(), before.picked(), b)
                            && Some((before.picked() as usize, before.moves_seq()[b])) == Some((before.picked() as usize, mv))
                            && picker.moves_seq() == swapped(before.moves_seq(), before.picked(), b);
                        assert(pos.fits(before.moves_seq()[b]));
                        lemma_all_fit_swapped(pos, before.moves_seq(), before.picked(), b);
                        lemma_swapped_pick(before.moves_seq(), before.picked(), b);
                    }
                    let ghost done0 = done;
                    proof {
                        done = done.push(mv);
                    }
                    let ghost best0 = best_score as int;
                    let ghost alpha1 = window_alpha as int;
                    if pos.takes_king(mv) {
                        proof {
                            if !self.stopped {
                                lemma_quiescence_skip(stack, beta as int, ply as int, done0, vals, kids, alpha as int, best0, alpha1, mv, 0,
                                    no_quiescence_trace());
                            }
                            vals = vals.push(0);
                            kids = kids.push(no_quiescence_trace());
                        }
                        continue;
                    }
                    let child = pos.make_move(mv);
                    proof {
                        assert(pos.plays(mv, child));
                        lemma_after_move(pos, mv, child);
                        assert(stack.push(child) == stack.push(after_move(pos, mv)));
                    }
                    self.pos_stack.push(child);
                    let ghost child_stack = self.pos_stack@;
                    let (child_score, Ghost(child_trace)) = self.qsearch(-beta, -window_alpha, ply + 1);
                    let score = -child_score;
                    self.pos_stack.pop();
                    assert(self.pos_stack@ =~= stack);
                    proof {
                        if !self.stopped {
                            assert(child_stack =~= stack.push(after_move(pos, mv)));
                            lemma_quiescence_step(stack, beta as int, ply as int, done0, vals, kids, alpha as int, best0, alpha1, mv,
                                child_score as int, child_trace);
                        }
                        vals = vals.push(child_score as int);
                        kids = kids.push(child_trace);
                    }
                    if score > best_score {
                        best_score = score;
                    }
                    if score > window_alpha {
                        best_mv = mv;
                        window_alpha = score;
                    }
                    if window_alpha >= beta {
                        self.tt_write(&pos, 0, mv, ply as i32, TTKind::Lower, best_score);
                        proof {
                            if !self.stopped {
                                lemma_take_nodup(picker.moves_seq(), picker.picked());
                                assert forall|m: Move| #[trigger] done.contains(m) implies quiescence_move(pos, m) by {
                                    let k = choose|k: int| 0 <= k < done.len() && done[k] == m;
                                    assert(picker.moves_seq().contains(picker.moves_seq()[k]));
                                }
                                lemma_quiescence_searched(stack, alpha as int, beta as int, ply as int, done, vals, kids, best_score as int,
                                    window_alpha as int, true);
                            }
                        }
                        return (best_score, Ghost(QuiescenceTrace { moves: done, scores: vals, kids: kids }));
                    }
                },
            }
        }

        let kind = if best_score > alpha0 {
            TTKind::Exact
        } else {
            TTKind::Upper
        };
        self.tt_write(&pos, 0, best_mv, ply as i32, kind, best_score);
        (best_score, Ghost(QuiescenceTrace { moves: done, scores: vals, kids: kids }))
    }
}

impl Worker {
    /// Copies the variation of ply `ply + 1` behind `mv` into the row of ply `ply`.
    fn update_pv(&mut self, ply: usize, mv: Move)
        requires
            old(self).wf(),
            ply < MAX_PLY,
        ensures
            final(self).wf(),
            final(self).stack() == old(self).stack(),
            final(self).stopped == old(self).stopped,
            final(self).pv_table()[ply * MAX_PLY] == mv,
            pv_row(final(self).pv_table(), ply as int)[0] == mv,
            ply + 1 < MAX_PLY ==> follows_line(pv_row(old(self).pv_table(), ply + 1), pv_row(final(self).pv_table(), ply as int).drop_first()),
            ply + 1 == MAX_PLY ==> pv_row(final(self).pv_table(), ply as int)[1].word() == 0,
            forall|i: int| 0 <= i < ply * MAX_PLY && i < MAX_PLY * MAX_PLY ==> #[trigger] final(self).pv_table()[i] == old(self).pv_table()[i],
    {
        self.pv.set(ply * MAX_PLY, mv);
        if ply + 1 < MAX_PLY {
            let ghost r1 = pv_row(old(self).pv@, ply + 1);
            let mut i: usize = 0;
            while i < MAX_PLY - 1
                invariant
                    self.wf(),
                    self.pos_stack@ == old(self).pos_stack@,
                    self.stopped == old(self).stopped,
                    ply + 1 < MAX_PLY,
                    i < MAX_PLY,
                    self.pv@.len() == MAX_PLY * MAX_PLY,
                    old(self).pv@.len() == MAX_PLY * MAX_PLY,
                    self.pv@[ply * MAX_PLY] == mv,
                    r1 == pv_row(old(self).pv@, ply + 1),
                    forall|k: int| 0 <= k < ply * MAX_PLY && k < MAX_PLY * MAX_PLY ==> #[trigger] self.pv@[k] == old(self).pv@[k],
                    forall|k: int| (ply + 1) * MAX_PLY <= k < (ply + 2) * MAX_PLY && k < MAX_PLY * MAX_PLY ==> #[trigger] self.pv@[k] == old(self).pv@[k],
                    forall|k: int| 0 <= k < i ==> pv_row(self.pv@, ply as int)[k + 1] == #[trigger] r1[k] && r1[k].word() != 0,
                ensures
                    self.wf(),
                    self.pos_stack@ == old(self).pos_stack@,
                    self.stopped == old(self).stopped,
                    self.pv@[ply * MAX_PLY] == mv,
                    forall|k: int| 0 <= k < ply * MAX_PLY && k < MAX_PLY * MAX_PLY ==> #[trigger] self.pv@[k] == old(self).pv@[k],
                    follows_line(r1, pv_row(self.pv@, ply as int).drop_first()),
                decreases MAX_PLY - 1 - i,
            {
                let x = self.pv[(ply + 1) * MAX_PLY + i];
                assert(r1[i as int] == old(self).pv@[(ply + 1) * MAX_PLY + i]);
                assert(x == r1[i as int]);
                self.pv.set(ply * MAX_PLY + i + 1, x);
                proof {
                    assert(pv_row(self.pv@, ply as int)[i + 1] == x);
                    assert forall|k: int| 0 <= k < i implies pv_row(self.pv@, ply as int)[k + 1] == #[trigger] r1[k] && r1[k].word() != 0 by {
                        assert(pv_row(self.pv@, ply as int)[k + 1] == self.pv@[ply * MAX_PLY + k + 1]);
                    }
                }
                if x == Move::null() {
                    proof {
                        let d = pv_row(self.pv@, ply as int).drop_first();
                        assert forall|k: int| 0 <= k < d.len() && k < r1.len() && (forall|j: int| 0 <= j < k ==> (#[trigger] r1[j]).word() != 0)
                            implies #[trigger] d[k] == r1[k] by {
                            if k > i {
                                assert(r1[i as int].word() != 0);
                            }
                            assert(d[k] == pv_row(self.pv@, ply as int)[k + 1]);
                        }
                    }
                    break;
                }
                i += 1;
            }
            proof {
                if i == MAX_PLY - 1 {
                    let d = pv_row(self.pv@, ply as int).drop_first();
                    assert forall|k: int| 0 <= k < d.len() && k < r1.len() && (forall|j: int| 0 <= j < k ==> (#[trigger] r1[j]).word() != 0)
                        implies #[trigger] d[k] == r1[k] by {
                        assert(d[k] == pv_row(self.pv@, ply as int)[k + 1]);
                    }
                }
            }
        } else {
            self.pv.set(ply * MAX_PLY + 1, Move::null());
        }
    }

    /// Principal-variation alpha-beta search of `depth` plies from the position on top of the
    /// stack, `ply` plies from the root, with quiescence search at the leaves.
    #[verifier::spinoff_prover]
    #[verifier::rlimit(100)]
    fn search(&mut self, alpha: Score, beta: Score, ply: usize, depth: i32) -> (res: (Score, Ghost<SearchTrace>))
        requires
            old(self).wf(),
            old(self).stack().len() >= 1,
            -INF_SCORE <= alpha < beta <= INF_SCORE,
            ply <= QUIESCENCE_LIMIT,
            depth > 0 ==> ply + depth <= QUIESCENCE_LIMIT,
        ensures
            final(self).wf(),
            final(self).stack() == old(self).stack(),
            -INF_SCORE <= res.0 <= INF_SCORE,
            old(self).was_stopped() ==> final(self).was_stopped(),
            !final(self).was_stopped() && ply < MAX_PLY ==> pv_line(old(self).stack()[old(self).stack().len() - 1],
                pv_row(final(self).pv_table(), ply as int)),
            !final(self).was_stopped() && ply < MAX_PLY ==> res.1@.variation == pv_row(final(self).pv_table(), ply as int),
            ({
                let st = old(self).stack();
                let p = st[st.len() - 1];
                let t = res.1@;
                !final(self).was_stopped() && depth > 0 && beta > alpha + 1 && ply + 1 < MAX_PLY && !repeated(st, ply as int)
                    && !no_moves(p) && p.halfmoves() < 100 && res.0 > alpha
                    ==> best_line_at(t.moves, t.scores, t.wide, t.variation, res.0 as int)
            }),
            ({
                let st = old(self).stack();
                let p = st[st.len() - 1];
                !final(self).was_stopped() && depth > 0 && !repeated(st, ply as int) && !no_moves(p) && p.halfmoves() < 100
                    && table_cutoff(old(self).table(), p, ply as int, alpha as int, beta as int, depth as int) is None
                    ==> search_expanded(st, alpha as int, beta as int, ply as int, depth as int, res.0 as int, res.1@)
            }),
            forall|i: int| 0 <= i < ply * MAX_PLY && i < MAX_PLY * MAX_PLY ==> #[trigger] final(self).pv_table()[i] == old(self).pv_table()[i],
            ({
                let st = old(self).stack();
                let p = st[st.len() - 1];
                !final(self).was_stopped() && depth > 0 && beta > alpha + 1 && ply < MAX_PLY && !repeated(st, ply as int)
                    && !no_moves(p) && p.halfmoves() < 100 ==> {
                    &&& res.0 > alpha ==> p.listed_move(final(self).pv_table()[ply * MAX_PLY])
                    &&& res.0 <= alpha ==> final(self).pv_table()[ply * MAX_PLY].word() == 0
                }
            }),
            !final(self).was_stopped() ==> search_value(old(self).stack(), alpha as int, beta as int, ply as int, depth as int,
                res.0 as int, res.1@),
            ({
                let st = old(self).stack();
                let p = st[st.len() - 1];
                !final(self).was_stopped() && depth > 0 ==> {
                    &&& repeated(st, ply as int) ==> res.0 == 0
                    &&& !repeated(st, ply as int) && no_moves(p) ==> res.0 == (if p.checker_bb() != 0 { -MATE_SCORE + ply } else { 0 })
                    &&& !repeated(st, ply as int) && !no_moves(p) && p.halfmoves() >= 100 ==> res.0 == 0
                    &&& !repeated(st, ply as int) && !no_moves(p) && p.halfmoves() < 100
                        && table_cutoff(old(self).table(), p, ply as int, alpha as int, beta as int, depth as int) is Some
                        ==> table_cutoff(old(self).table(), p, ply as int, alpha as int, beta as int, depth as int) == Some(res.0 as int)
                }
            }),
        decreases depth, 1int,
    {
        let ghost table0 = self.table();
        let mut window_alpha = alpha;
        if ply < MAX_PLY {
            self.pv.set(ply * MAX_PLY, Move::null());
        }
        if depth <= 0 {
            let (q, Ghost(qt)) = self.qsearch(window_alpha, beta, ply);
            let ghost t = SearchTrace { moves: Seq::empty(), scores: Seq::empty(), narrow: Seq::empty(), wide: Seq::empty(), quiet: qt,
                variation: pv_row(self.pv_table(), ply as int) };
            proof {
                if !self.stopped {
                    assert(search_value(old(self).stack(), alpha as int, beta as int, ply as int, depth as int, q as int, t)) by {
                        reveal(search_value);
                    }
                }
            }
            return (q, Ghost(t));
        }
        self.nodes = self.nodes.wrapping_add(1);
        if self.check_stop() {
            return (0, Ghost(traced(no_search_trace(), pv_row(self.pv_table(), ply as int))));
        }
        let alpha0 = window_alpha;
        let is_pv = beta > window_alpha + 1;
        if self.is_repetition(ply as i32) {
            assert(search_value(old(self).stack(), alpha as int, beta as int, ply as int, depth as int, 0, traced(no_search_trace(), pv_row(self.pv_table(), ply as int)))) by {
                reveal(search_value);
            }
            return (0, Ghost(traced(no_search_trace(), pv_row(self.pv_table(), ply as int))));
        }
        let ghost stack = self.pos_stack@;
        let pos = self.pos_stack[self.pos_stack.len() - 1];
        assert(pos.wf());
        let moves = pos.gen_legal_moves();
        proof {
            lemma_checked_iff(pos);
            if moves@.len() > 0 {
                assert(moves@.contains(moves@[0]));
                assert(pos.listed_move(moves@[0]));
            }
        }
        if moves.len() == 0 {
            proof {
                assert forall|m: Move| !#[trigger] pos.listed_move(m) by {
                    if pos.listed_move(m) {
                        assert(moves@.contains(m));
                    }
                }
            }
            if pos.checked().is_some() {
                assert(search_value(stack, alpha as int, beta as int, ply as int, depth as int, -MATE_SCORE + ply, traced(no_search_trace(), pv_row(self.pv_table(), ply as int)))) by {
                    reveal(search_value);
                }
                return (-MATE_SCORE + ply as Score, Ghost(traced(no_search_trace(), pv_row(self.pv_table(), ply as int))));
            } else {
                assert(search_value(stack, alpha as int, beta as int, ply as int, depth as int, 0, traced(no_search_trace(), pv_row(self.pv_table(), ply as int)))) by {
                    reveal(search_value);
                }
                return (0, Ghost(traced(no_search_trace(), pv_row(self.pv_table(), ply as int))));
            }
        }
        if pos.halfmove_clock >= 100 {
            assert(search_value(stack, alpha as int, beta as int, ply as int, depth as int, 0, traced(no_search_trace(), pv_row(self.pv_table(), ply as int)))) by {
                reveal(search_value);
            }
            return (0, Ghost(traced(no_search_trace(), pv_row(self.pv_table(), ply as int))));
        }
        let hash_mv = match self.tt_query(&pos) {
            Some(entry) => {
                if !is_pv && entry.depth as i32 >= depth {
                    if let Some(cut_score) = entry.cutoff(ply as i32, window_alpha, beta) {
                        assert(score_at_ply(entry.rel_score as int, ply as int) == cut_score);
                        assert(search_value(stack, alpha as int, beta as int, ply as int, depth as int, cut_score as int,
                            traced(no_search_trace(), pv_row(self.pv_table(), ply as int)))) by {
                            reveal(search_value);
                        }
                        return (cut_score, Ghost(traced(no_search_trace(), pv_row(self.pv_table(), ply as int))));
                    }
                }
                entry.mv
            },
            None => Move::null(),
        };
        let mut picker = MovePicker::new(&pos, moves, hash_mv);
        let mut best_score: Score = -INF_SCORE;
        let mut best_mv = Move::null();
        proof {
            if ply < MAX_PLY {
                assert(pv_row(self.pv_table(), ply as int)[0] == self.pv_table()[ply * MAX_PLY]);
            }
        }
        let ghost mut done: Seq<Move> = Seq::empty();
        let ghost mut vals: Seq<(int, int)> = Seq::empty();
        let ghost mut narrows: Seq<SearchTrace> = Seq::empty();
        let ghost mut wides: Seq<SearchTrace> = Seq::empty();
        proof {
            lemma_search_start(stack, beta as int, ply as int, depth as int, is_pv, alpha as int);
            assert(picker.moves_seq().take(0) =~= done);
            assert forall|m: Move| #[trigger] picker.moves_seq().contains(m) <==> pos.listed_move(m) by {
                assert(picker.moves_seq() == moves@);
            }
        }
        loop
            invariant
                self.wf(),
                self.pos_stack@ == stack,
                stack == old(self).stack(),
                stack.len() >= 1,
                pos == stack[stack.len() - 1],
                pos.wf(),
                picker.wf(),
                all_fit(pos, picker.moves_seq()),
                -INF_SCORE <= alpha0 <= window_alpha < beta <= INF_SCORE,
                -INF_SCORE <= best_score <= INF_SCORE,
                ply < QUIESCENCE_LIMIT,
                depth > 0,
                ply + depth <= QUIESCENCE_LIMIT,
                !repeated(stack, ply as int),
                !no_moves(pos),
                pos.halfmoves() < 100,
                table0 == old(self).table(),
                alpha0 == alpha,
                table_cutoff(table0, pos, ply as int, alpha0 as int, beta as int, depth as int) is None,
                is_pv == (beta > alpha + 1),
                done == picker.moves_seq().take(picker.picked()),
                picker.moves_seq().no_duplicates(),
                forall|m: Move| #[trigger] picker.moves_seq().contains(m) <==> pos.listed_move(m),
                vals.len() == done.len(),
                narrows.len() == done.len(),
                wides.len() == done.len(),
                !self.stopped,
                !old(self).was_stopped(),
                forall|k: int| 0 <= k < ply * MAX_PLY && k < MAX_PLY * MAX_PLY ==> #[trigger] self.pv_table()[k] == old(self).pv_table()[k],
                best_score <= window_alpha,
                window_alpha > alpha ==> best_score == window_alpha,
                is_pv && ply < MAX_PLY && window_alpha > alpha ==> pos.listed_move(self.pv_table()[ply * MAX_PLY]),
                is_pv && ply < MAX_PLY && window_alpha == alpha ==> self.pv_table()[ply * MAX_PLY].word() == 0,
                ply < MAX_PLY ==> pv_line(pos, pv_row(self.pv_table(), ply as int)),
                self.pv_table().len() == MAX_PLY * MAX_PLY,
                is_pv && ply + 1 < MAX_PLY && window_alpha > alpha ==> best_line_at(done, vals, wides, pv_row(self.pv_table(), ply as int), window_alpha as int),
                search_steps(stack, beta as int, ply as int, depth as int, is_pv, done, vals, narrows, wides, alpha as int)
                    == Some((best_score as int, window_alpha as int, false)),
            ensures
                ply < MAX_PLY ==> pv_line(pos, pv_row(self.pv_table(), ply as int)),
                is_pv && ply + 1 < MAX_PLY && best_score > alpha ==> best_line_at(done, vals, wides, pv_row(self.pv_table(), ply as int), best_score as int),
                search_value(stack, alpha as int, beta as int, ply as int, depth as int, best_score as int,
                    SearchTrace { moves: done, scores: vals, narrow: narrows, wide: wides, quiet: no_quiescence_trace(), variation: pv_row(self.pv_table(), ply as int) }),
                search_expanded(stack, alpha as int, beta as int, ply as int, depth as int, best_score as int,
                    SearchTrace { moves: done, scores: vals, narrow: narrows, wide: wides, quiet: no_quiescence_trace(), variation: pv_row(self.pv_table(), ply as int) }),
            decreases picker.moves_seq().len() - picker.picked(),
        {
            let ghost before = picker;
            match picker.next() {
                None => {
                    proof {
                        assert(picker.picked() == picker.moves_seq().len());
                        assert(done =~= picker.moves_seq());
                        lemma_search_searched(stack, alpha as int, beta as int, ply as int, depth as int, done, vals, narrows, wides,
                            best_score as int, window_alpha as int, false, pv_row(self.pv_table(), ply as int));
                    }
                    break;
                },
                Some((mv_index, mv)) => {
                    proof {
                        let b = choose|b: int| #[trigger] first_best(before.scores_seq(), before.picked(), b)
                            && Some((before.picked() as usize, before.moves_seq()[b])) == Some((mv_index, mv))
                            && picker.moves_seq() == swapped(before.moves_seq(), before.picked(), b);
                        assert(pos.fits(before.moves_seq()[b]));
                        lemma_all_fit_swapped(pos, before.moves_seq(), before.picked(), b);
                        lemma_swapped_pick(before.moves_seq(), before.picked(), b);
                        assert(before.moves_seq().contains(before.moves_seq()[b]));
                    }
                    assert(pos.listed_move(mv));
                    let ghost done0 = done;
                    let ghost vals0 = vals;
                    let ghost wides0 = wides;
                    let ghost row0 = pv_row(self.pv_table(), ply as int);
                    let ghost best0 = best_score as int;
                    let ghost alpha1 = window_alpha as int;
                    proof {
                        done = done.push(mv);
                    }
                    if pos.takes_king(mv) {
                        proof {
                            lemma_search_skip(stack, beta as int, ply as int, depth as int, is_pv, done0, vals, narrows, wides, alpha as int,
                                best0, alpha1, mv);
                            vals = vals.push((0, 0));
                            narrows = narrows.push(no_search_trace());
                            wides = wides.push(no_search_trace());
                            if is_pv && ply + 1 < MAX_PLY && window_alpha > alpha {
                                lemma_best_line_push(done0, vals0, wides0, row0, window_alpha as int, mv, (0, 0), no_search_trace());
                            }
                        }
                        continue;
                    }
                    let ghost pv_before = self.pv_table();
                    let (score, Ghost(kid)) = self.search_child(&pos, mv, is_pv, mv_index == 0, window_alpha, beta, ply, depth);
                    let ghost (v1, t1, v2, t2) = kid;
                    proof {
                        assert forall|k: int| 0 <= k < ply * MAX_PLY && k < MAX_PLY * MAX_PLY implies #[trigger] self.pv_table()[k] == old(self).pv_table()[k] by {
                            assert(self.pv_table()[k] == pv_before[k]);
                        }
                        if ply < MAX_PLY {
                            assert(self.pv_table()[ply * MAX_PLY] == pv_before[ply * MAX_PLY]);
                            assert(pv_row(self.pv_table(), ply as int) =~= pv_row(pv_before, ply as int));
                        }
                    }
                    if self.stopped {
                        return (0, Ghost(traced(no_search_trace(), pv_row(self.pv_table(), ply as int))));
                    }
                    proof {
                        lemma_search_step(stack, beta as int, ply as int, depth as int, is_pv, done0, vals, narrows, wides, alpha as int,
                            best0, alpha1, mv, v1, t1, v2, t2);
                        vals = vals.push((v1, v2));
                        narrows = narrows.push(t1);
                        wides = wides.push(t2);
                    }
                    if score > best_score {
                        best_score = score;
                    }
                    if score > window_alpha {
                        if is_pv && ply < MAX_PLY {
                            let ghost pv_child = self.pv_table();
                            self.update_pv(ply, mv);
                            proof {
                                let row = pv_row(self.pv_table(), ply as int);
                                if ply + 1 < MAX_PLY {
                                    lemma_line_extend(pos, mv, pv_row(pv_child, ply + 1), row);
                                } else {
                                    assert(row.drop_first()[0] == row[1]);
                                    assert(pv_line(after_move(pos, mv), row.drop_first()));
                                    assert(pv_line(pos, row));
                                }
                            }
                        }
                        best_mv = mv;
                        window_alpha = score;
                    }
                    proof {
                        if is_pv && ply + 1 < MAX_PLY && window_alpha > alpha {
                            if score as int > alpha1 {
                                lemma_best_line_new(done0, vals0, wides0, pv_row(self.pv_table(), ply as int), mv, (v1, v2), t2);
                            } else {
                                assert(pv_row(self.pv_table(), ply as int) == row0);
                                lemma_best_line_push(done0, vals0, wides0, row0, window_alpha as int, mv, (v1, v2), t2);
                            }
                        }
                    }
                    if window_alpha >= beta {
                        self.tt_write(&pos, depth, mv, ply as i32, TTKind::Lower, best_score);
                        proof {
                            lemma_take_nodup(picker.moves_seq(), picker.picked());
                            assert forall|m: Move| #[trigger] done.contains(m) implies pos.listed_move(m) by {
                                let k = choose|k: int| 0 <= k < done.len() && done[k] == m;
                                assert(picker.moves_seq().contains(picker.moves_seq()[k]));
                            }
                            lemma_search_searched(stack, alpha as int, beta as int, ply as int, depth as int, done, vals, narrows, wides,
                                best_score as int, window_alpha as int, true, pv_row(self.pv_table(), ply as int));
                        }
                        return (best_score, Ghost(SearchTrace { moves: done, scores: vals, narrow: narrows, wide: wides,
                            quiet: no_quiescence_trace(), variation: pv_row(self.pv_table(), ply as int) }));
                    }
                },
            }
        }
        let kind = if best_score > alpha0 {
            TTKind::Exact
        } else {
            TTKind::Upper
        };
        self.tt_write(&pos, depth, best_mv, ply as i32, kind, best_score);
        (best_score, Ghost(SearchTrace { moves: done, scores: vals, narrow: narrows, wide: wides, quiet: no_quiescence_trace(), variation: pv_row(self.pv_table(), ply as int) }))
    }

    /// Searches the child `mv` leads to from `pos`, the top of the stack: in a window wider than
    /// null (`pv`), the first move (`first`) with the full window and a later one with a null
    /// window first, again with the full window when it beats `window_alpha`; with a null
    /// window, with it. Returns the move's score, and the child scores and what their searches
    /// went through.
    fn search_child(&mut self, pos: &Position, mv: Move, pv: bool, first: bool, window_alpha: Score, beta: Score, ply: usize, depth: i32) -> (res: (Score, Ghost<(int, SearchTrace, int, SearchTrace)>))
        requires
            old(self).wf(),
            old(self).stack().len() >= 1,
            *pos == old(self).stack()[old(self).stack().len() - 1],
            pos.wf(),
            pos.applicable(mv),
            -INF_SCORE <= window_alpha < beta <= INF_SCORE,
            ply < QUIESCENCE_LIMIT,
            depth > 0,
            ply + depth <= QUIESCENCE_LIMIT,
        ensures
            final(self).wf(),
            final(self).stack() == old(self).stack(),
            -INF_SCORE <= res.0 <= INF_SCORE,
            old(self).was_stopped() ==> final(self).was_stopped(),
            forall|i: int| 0 <= i < (ply + 1) * MAX_PLY && i < MAX_PLY * MAX_PLY ==> #[trigger] final(self).pv_table()[i] == old(self).pv_table()[i],
            !final(self).was_stopped() && ply + 1 < MAX_PLY ==> pv_line(after_move(*pos, mv), pv_row(final(self).pv_table(), ply + 1)),
            ({
                let (v1, t1, v2, t2) = res.1@;
                let child = old(self).stack().push(after_move(*pos, mv));
                let narrow = !pv || !first;
                let s1 = if narrow { -v1 } else { 0 };
                let wide = pv && (first || s1 > window_alpha);
                !final(self).was_stopped() ==> {
                    &&& narrow ==> search_value(child, -(window_alpha + 1), -window_alpha, ply + 1, depth - 1, v1, t1)
                    &&& wide ==> search_value(child, -beta, -window_alpha, ply + 1, depth - 1, v2, t2)
                    &&& res.0 == (if wide { -v2 } else { s1 })
                    &&& wide && ply + 1 < MAX_PLY ==> t2.variation == pv_row(final(self).pv_table(), ply + 1)
                }
            }),
        decreases depth, 0int,
    {
        let ghost stack = self.pos_stack@;
        let child = pos.make_move(mv);
        proof {
            assert(pos.plays(mv, child));
            lemma_after_move(*pos, mv, child);
        }
        self.pos_stack.push(child);
        let ghost child_stack = self.pos_stack@;
        let ghost pv_before = self.pv_table();
        let mut score: Score = 0;
        let ghost mut v1: int = 0;
        let ghost mut t1: SearchTrace = no_search_trace();
        let ghost mut v2: int = 0;
        let ghost mut t2: SearchTrace = no_search_trace();
        if !pv || !first {
            let (c1, Ghost(k1)) = self.search(-(window_alpha + 1), -window_alpha, ply + 1, depth - 1);
            score = -c1;
            proof {
                v1 = c1 as int;
                t1 = k1;
            }
        }
        let ghost stopped_mid = self.stopped;
        let ghost pv_mid = self.pv_table();
        if pv && (first || score > window_alpha) {
            let (c2, Ghost(k2)) = self.search(-beta, -window_alpha, ply + 1, depth - 1);
            score = -c2;
            proof {
                v2 = c2 as int;
                t2 = k2;
            }
        }
        proof {
            assert forall|k: int| 0 <= k < (ply + 1) * MAX_PLY && k < MAX_PLY * MAX_PLY implies #[trigger] self.pv_table()[k] == pv_before[k] by {
                assert(self.pv_table()[k] == pv_mid[k]);
            }
        }
        let ghost pv_after = self.pv_table();
        self.pos_stack.pop();
        assert(self.pos_stack@ =~= stack);
        proof {
            assert(self.pv_table() == pv_after);
            assert(child_stack =~= stack.push(after_move(*pos, mv)));
        }
        (score, Ghost((v1, t1, v2, t2)))
    }

    /// Prepares a search of the last position of `pos_stack` under `limits`, watching `stop`.
    pub fn start(&mut self, pos_stack: Vec<Position>, limits: Limits, stop: std::sync::Arc<std::sync::atomic::AtomicBool>)
        requires
            old(self).wf(),
            forall|i: int| 0 <= i < pos_stack@.len() ==> (#[trigger] pos_stack@[i]).wf(),
        ensures
            final(self).wf(),
            final(self).stack() == pos_stack@,
            final(self).node_count() == 0,
            final(self).table() == old(self).table(),
            !final(self).was_stopped(),
            final(self).search_limits() == limits,
    {
        self.nodes = 0;
        self.stopped = false;
        self.stop = stop;
        self.limits = limits;
        self.pos_stack = pos_stack;
        self.start_time = now();
    }

    /// One iteration of iterative deepening: a full-window search of `depth` plies from the
    /// root.
    pub fn search_root(&mut self, depth: i32) -> (r: Score)
        requires
            old(self).wf(),
            old(self).stack().len() >= 1,
            1 <= depth <= QUIESCENCE_LIMIT,
        ensures
            final(self).wf(),
            final(self).stack() == old(self).stack(),
            -INF_SCORE <= r <= INF_SCORE,
            old(self).was_stopped() ==> final(self).was_stopped(),
            !final(self).was_stopped() ==> pv_line(old(self).stack()[old(self).stack().len() - 1], pv_row(final(self).pv_table(), 0)),
            ({
                let st = old(self).stack();
                let p = st[st.len() - 1];
                !final(self).was_stopped() && !repeated(st, 0) && !no_moves(p) && p.halfmoves() < 100 && r > -INF_SCORE
                    ==> exists|t: SearchTrace| #[trigger] root_value(st, depth as int, r as int, t)
                        && t.variation == pv_row(final(self).pv_table(), 0)
                        && best_line_at(t.moves, t.scores, t.wide, t.variation, r as int)
            }),
            !final(self).was_stopped() ==> exists|t: SearchTrace| #[trigger] root_value(old(self).stack(), depth as int, r as int, t),
            ({
                let st = old(self).stack();
                let p = st[st.len() - 1];
                !final(self).was_stopped() && !repeated(st, 0) && !no_moves(p) && p.halfmoves() < 100
                    ==> exists|t: SearchTrace| #[trigger] root_expanded(st, depth as int, r as int, t)
            }),
            ({
                let st = old(self).stack();
                let p = st[st.len() - 1];
                !final(self).was_stopped() ==> {
                    &&& repeated(st, 0) ==> r == 0
                    &&& !repeated(st, 0) && no_moves(p) ==> r == (if p.checker_bb() != 0 { -MATE_SCORE } else { 0 })
                    &&& !repeated(st, 0) && !no_moves(p) && p.halfmoves() >= 100 ==> r == 0
                }
            }),
    {
        let (r, Ghost(t)) = self.search(-INF_SCORE, INF_SCORE, 0, depth);
        proof {
            if !self.stopped {
                assert(root_value(old(self).stack(), depth as int, r as int, t));
                let st = old(self).stack();
                let p = st[st.len() - 1];
                if !repeated(st, 0) && !no_moves(p) && p.halfmoves() < 100 {
                    assert(root_expanded(st, depth as int, r as int, t));
                }
            }
        }
        r
    }

    /// Whether the search was stopped.
    pub fn is_stopped(&self) -> (r: bool)
        ensures
            r == self.was_stopped(),
    {
        self.stopped
    }

    /// The limits of the current search.
    pub fn limits(&self) -> (r: Limits)
        ensures
            r == self.search_limits(),
    {
        self.limits
    }

    /// The decision after one iteration of iterative deepening at depth `d` that gave `score`,
    /// `elapsed_ms` milliseconds into the search. Unless the search was stopped, the score and
    /// the principal variation of the iteration become the root's: the variation's moves
    /// replace the first ones of `root_pv`. The result says whether to search one ply deeper:
    /// not when stopped, at the depth limit (or the deepest the search allows), or past the soft
    /// node or time limit.
    pub fn deepen_step(&self, d: i32, score: Score, elapsed_ms: u64, root_score: &mut Score, root_pv: &mut Vec<Move>) -> (r: bool)
        requires
            self.wf(),
            old(root_pv)@.len() == MAX_PLY,
        ensures
            r == (!self.was_stopped() && d < self.search_limits().depth && d < QUIESCENCE_LIMIT
                && self.node_count() < self.search_limits().soft_nodes && elapsed_ms < self.search_limits().soft_time),
            self.was_stopped() ==> *final(root_score) == *old(root_score) && final(root_pv)@ == old(root_pv)@,
            !self.was_stopped() ==> *final(root_score) == score,
            !self.was_stopped() ==> exists|n: int| #![trigger self.pv_table().subrange(0, n)] {
                &&& 0 <= n <= MAX_PLY
                &&& forall|i: int| 0 <= i < n ==> (#[trigger] self.pv_table()[i]).word() != 0
                &&& n < MAX_PLY ==> self.pv_table()[n].word() == 0
                &&& final(root_pv)@ == self.pv_table().subrange(0, n) + old(root_pv)@.subrange(n, MAX_PLY as int)
            },
    {
        if self.stopped {
            return false;
        }
        *root_score = score;
        let pv = self.pv();
        let ghost start = root_pv@;
        let mut i: usize = 0;
        while i < pv.len()
            invariant
                i <= pv@.len() <= MAX_PLY,
                start.len() == MAX_PLY,
                root_pv@ == pv@.subrange(0, i as int) + start.subrange(i as int, MAX_PLY as int),
            decreases pv@.len() - i,
        {
            root_pv.set(i, pv[i]);
            i += 1;
            assert(root_pv@ =~= pv@.subrange(0, i as int) + start.subrange(i as int, MAX_PLY as int));
        }
        proof {
            let n = pv@.len() as int;
            assert(pv@ =~= self.pv_table().subrange(0, n));
            assert(forall|k: int| 0 <= k < n ==> (#[trigger] self.pv_table()[k]).word() != 0) by {
                assert forall|k: int| 0 <= k < n implies (#[trigger] self.pv_table()[k]).word() != 0 by {
                    assert(pv@[k] == self.pv_table()[k]);
                }
            }
            assert(root_pv@ == self.pv_table().subrange(0, n) + start.subrange(n, MAX_PLY as int));
        }
        d < self.limits.depth && d < QUIESCENCE_LIMIT as i32 && self.nodes < self.limits.soft_nodes
            && elapsed_ms < self.limits.soft_time
    }

    /// Sets the root row of the principal-variation table to `row`.
    pub fn set_root_pv(&mut self, row: &Vec<Move>)
        requires
            old(self).wf(),
            row@.len() == MAX_PLY,
        ensures
            final(self).wf(),
            final(self).stack() == old(self).stack(),
            final(self).pv_table().subrange(0, MAX_PLY as int) == row@,
    {
        let mut i: usize = 0;
        while i < MAX_PLY
            invariant
                self.wf(),
                self.pos_stack@ == old(self).pos_stack@,
                row@.len() == MAX_PLY,
                i <= MAX_PLY,
                forall|k: int| 0 <= k < i ==> #[trigger] self.pv@[k] == row@[k],
            decreases MAX_PLY - i,
        {
            self.pv.set(i, row[i]);
            i += 1;
        }
        assert(self.pv@.subrange(0, MAX_PLY as int) =~= row@);
    }
}

/// Storing a score found `ply` plies from the root and reading it back at the same ply gives
/// the score.
pub proof fn lemma_stored_score_round_trip(score: int, ply: int)
    requires
        -MATE_SCORE <= score <= MATE_SCORE,
        0 <= ply <= 1000,
    ensures
        score_at_ply(score_to_store(score, ply) as int, ply) == score,
{
}

} // verus!
