use vstd::prelude::*;

use crate::hex::{HexPosition, in_board_c};
use crate::{GameState, Model, MoveResult, Player, apply_model, full, moves, status_spec};

verus! {

/// The score reported for a won position; a lost position scores `-WIN`.
pub const WIN: i64 = 1_000_000_000;

/// A sentinel strictly beyond every achievable score; used to seed the
/// search window.
pub const SCORE_INF: i64 = 1_000_000_000_000_000;

/// Search depths are clamped to this bound; it is far beyond anything a
/// search could ever complete, and keeps depth arithmetic inside `i64`.
pub const DEPTH_CAP: usize = 1_000_000;

/// The mathematical value of a position: the evaluation difference, and a
/// depth component that prefers wins found sooner and losses found later.
/// Scores compare lexicographically.
pub ghost struct SpecScore {
    pub v: int,
    pub d: int,
}

pub open spec fn ss_le(a: SpecScore, b: SpecScore) -> bool {
    a.v < b.v || (a.v == b.v && a.d <= b.d)
}

pub open spec fn ss_lt(a: SpecScore, b: SpecScore) -> bool {
    a.v < b.v || (a.v == b.v && a.d < b.d)
}

/// Negating a score negates both components, so that a score good for one
/// player is exactly as bad for the other.
pub open spec fn ss_neg(a: SpecScore) -> SpecScore {
    SpecScore { v: -a.v, d: -a.d }
}

pub open spec fn ss_max(a: SpecScore, b: SpecScore) -> SpecScore {
    if ss_le(a, b) {
        b
    } else {
        a
    }
}

/// The smallest score the search ever holds: below every achievable value.
pub open spec fn ss_neg_inf() -> SpecScore {
    SpecScore { v: -SCORE_INF as int, d: 0 }
}

/// Scores whose components negate safely inside `i64`.
pub open spec fn score_wf(s: SpecScore) -> bool {
    &&& -SCORE_INF <= s.v <= SCORE_INF
    &&& -SCORE_INF <= s.d <= SCORE_INF
}

/// An evaluation with its depth tie-break, as held by the search.
#[derive(Debug, Copy, Clone, Eq, PartialEq, Structural)]
pub struct Score(pub i64, pub i64);

impl View for Score {
    type V = SpecScore;

    open spec fn view(&self) -> SpecScore {
        SpecScore { v: self.0 as int, d: self.1 as int }
    }
}

impl Score {
    fn neg(self) -> (r: Score)
        requires
            score_wf(self@),
        ensures
            r@ == ss_neg(self@),
            score_wf(r@),
    {
        Score(-self.0, -self.1)
    }

    fn le(self, other: Score) -> (r: bool)
        ensures
            r == ss_le(self@, other@),
    {
        self.0 < other.0 || (self.0 == other.0 && self.1 <= other.1)
    }

    fn lt(self, other: Score) -> (r: bool)
        ensures
            r == ss_lt(self@, other@),
    {
        self.0 < other.0 || (self.0 == other.0 && self.1 < other.1)
    }

    fn neg_inf() -> (r: Score)
        ensures
            r@ == ss_neg_inf(),
            score_wf(r@),
    {
        Score(-SCORE_INF, 0)
    }

    fn pos_inf() -> (r: Score)
        ensures
            r@ == ss_neg(ss_neg_inf()),
            score_wf(r@),
    {
        Score(SCORE_INF, 0)
    }
}

/// A position evaluator: anything that can score a position from one
/// player's perspective, higher meaning better for that player.
pub trait Ranker: Sized {
    /// The value this evaluator assigns to a position.
    spec fn rank_spec(&self, m: Model, player: Player) -> int;

    /// Every evaluation stays within the terminal constants.
    proof fn rank_bounded(&self, m: Model, player: Player)
        ensures
            -WIN <= self.rank_spec(m, player) <= WIN,
    ;

    /// Scores `state` from `player`'s perspective.
    fn rank(&self, state: &GameState, player: Player) -> (r: i64)
        requires
            state.wf(),
        ensures
            r as int == self.rank_spec(state@, player),
    ;
}

/// An evaluator that only recognises finished games: a win, a loss and a
/// draw get the terminal constants, and every other position scores zero.
pub struct NullRanker;

impl Ranker for NullRanker {
    open spec fn rank_spec(&self, m: Model, player: Player) -> int {
        match status_spec(m) {
            MoveResult::End(p) => if p == player {
                WIN as int
            } else {
                -WIN as int
            },
            MoveResult::Tie => -100,
            _ => 0,
        }
    }

    proof fn rank_bounded(&self, m: Model, player: Player) {
    }

    fn rank(&self, state: &GameState, player: Player) -> (r: i64) {
        match state.is_over() {
            MoveResult::End(p) => if p == player {
                WIN
            } else {
                -WIN
            },
            MoveResult::Tie => -100,
            _ => 0,
        }
    }
}

/// The fixed-point unit of the evaluator weights: a weight of `SCALE`
/// stands for 1.0, and `normalize` scales the four weights so that they
/// sum to (almost exactly) one unit.
pub const SCALE: i64 = 1_000_000;

/// Whether `p` has a stone on cell `c`.
pub open spec fn owned(occ: Map<(int, int), Player>, c: (int, int), p: Player) -> bool {
    occ.dom().contains(c) && occ[c] == p
}

/// Whether cell `c` is free (which includes cells off the board).
pub open spec fn free(occ: Map<(int, int), Player>, c: (int, int)) -> bool {
    !occ.dom().contains(c)
}

/// The cell `k` steps from `c` in direction `d`.
pub open spec fn ray_cell(c: (int, int), d: int, k: nat) -> (int, int) {
    crate::hex::step_k(c, d, k)
}

/// Triads at `c`: a stone of `p` whose neighbours in directions 1 and 2
/// are both `p`'s (the upper corner shape), and likewise for directions 4
/// and 5 (the lower corner shape); the two halves count independently.
pub open spec fn contrib_triad(occ: Map<(int, int), Player>, p: Player, c: (int, int)) -> int {
    (if owned(occ, c, p) && owned(occ, ray_cell(c, 1, 1), p) && owned(occ, ray_cell(c, 2, 1), p) {
        1int
    } else {
        0int
    }) + (if owned(occ, c, p) && owned(occ, ray_cell(c, 4, 1), p) && owned(
        occ,
        ray_cell(c, 5, 1),
        p,
    ) {
        1int
    } else {
        0int
    })
}

/// One ray's window: the two nearest ray cells free and the third `p`'s.
pub open spec fn window_dir(occ: Map<(int, int), Player>, p: Player, c: (int, int), d: int) -> int {
    if free(occ, ray_cell(c, d, 1)) && free(occ, ray_cell(c, d, 2)) && owned(
        occ,
        ray_cell(c, d, 3),
        p,
    ) {
        1int
    } else {
        0int
    }
}

/// Windows at `c`, counted along the outward half of the rays
/// (directions 3, 4 and 5).
pub open spec fn contrib_window(occ: Map<(int, int), Player>, p: Player, c: (int, int)) -> int {
    if owned(occ, c, p) {
        window_dir(occ, p, c, 3) + window_dir(occ, p, c, 4) + window_dir(occ, p, c, 5)
    } else {
        0
    }
}

/// One ray's slot: the nearest ray cell free and the next one `p`'s.
pub open spec fn slot_dir(occ: Map<(int, int), Player>, p: Player, c: (int, int), d: int) -> int {
    if free(occ, ray_cell(c, d, 1)) && owned(occ, ray_cell(c, d, 2), p) {
        1int
    } else {
        0int
    }
}

/// Slots at `c`, counted along the inward half of the rays
/// (directions 0, 1 and 2).
pub open spec fn contrib_slot(occ: Map<(int, int), Player>, p: Player, c: (int, int)) -> int {
    if owned(occ, c, p) {
        slot_dir(occ, p, c, 0) + slot_dir(occ, p, c, 1) + slot_dir(occ, p, c, 2)
    } else {
        0
    }
}

/// One ray's double: the nearest ray cell `p`'s and the next one free.
pub open spec fn double_dir(occ: Map<(int, int), Player>, p: Player, c: (int, int), d: int) -> int {
    if owned(occ, ray_cell(c, d, 1), p) && free(occ, ray_cell(c, d, 2)) {
        1int
    } else {
        0int
    }
}

/// Doubles at `c`, counted along all six rays.
pub open spec fn contrib_double(occ: Map<(int, int), Player>, p: Player, c: (int, int)) -> int {
    if owned(occ, c, p) {
        double_dir(occ, p, c, 0) + double_dir(occ, p, c, 1) + double_dir(occ, p, c, 2) + double_dir(
            occ,
            p,
            c,
            3,
        ) + double_dir(occ, p, c, 4) + double_dir(occ, p, c, 5)
    } else {
        0
    }
}

/// The per-cell contribution of motif `k` (0 triads, 1 windows, 2 slots,
/// 3 doubles).
pub open spec fn motif_at(k: int, occ: Map<(int, int), Player>, p: Player, c: (int, int)) -> int {
    if k == 0 {
        contrib_triad(occ, p, c)
    } else if k == 1 {
        contrib_window(occ, p, c)
    } else if k == 2 {
        contrib_slot(occ, p, c)
    } else {
        contrib_double(occ, p, c)
    }
}

/// The sum of motif `k`'s contributions over the board cells from `(q, r)`
/// onward in scan order.
pub open spec fn sum_from(k: int, occ: Map<(int, int), Player>, p: Player, q: int, r: int) -> int
    decreases (5 - q) * 10 + (5 - r) when -4 <= q <= 5 && -4 <= r <= 5
{
    if q > 4 {
        0
    } else if r > 4 {
        sum_from(k, occ, p, q + 1, -4)
    } else {
        motif_at(k, occ, p, (q, r)) + sum_from(k, occ, p, q, r + 1)
    }
}

/// The number of occurrences of motif `k` for player `p`.
pub open spec fn motif_count(k: int, occ: Map<(int, int), Player>, p: Player) -> int {
    sum_from(k, occ, p, -4, -4)
}

/// Clamps an evaluation to the terminal constants, so that no weighted sum
/// can outrank an actual win.
pub open spec fn clamp_win(x: int) -> int {
    if x > WIN {
        WIN as int
    } else if x < -WIN {
        -WIN as int
    } else {
        x
    }
}

/// An evaluator that scores a position by a weighted sum of four motif
/// counts of the player's stones, after short-circuiting finished games to
/// the terminal constants. Weights are fixed-point with unit `SCALE`.
#[derive(Debug, Clone, Copy)]
pub struct FeatureRanker {
    pub window_score: i64,
    pub triad_score: i64,
    pub slot_score: i64,
    pub double_score: i64,
}

impl FeatureRanker {
    /// Scales the four non-negative weights by `SCALE / total`, so that
    /// they sum to one fixed-point unit (up to rounding: the sum lands
    /// within 3 of `SCALE`).
    pub fn normalize(&mut self)
        requires
            old(self).window_score >= 0,
            old(self).triad_score >= 0,
            old(self).slot_score >= 0,
            old(self).double_score >= 0,
            weights_total(*old(self)) > 0,
        ensures
            final(self).window_score == old(self).window_score * SCALE / weights_total(*old(self)),
            final(self).triad_score == old(self).triad_score * SCALE / weights_total(*old(self)),
            final(self).slot_score == old(self).slot_score * SCALE / weights_total(*old(self)),
            final(self).double_score == old(self).double_score * SCALE / weights_total(*old(self)),
            SCALE - 3 <= weights_total(*final(self)) <= SCALE,
            final(self).window_score >= 0,
            final(self).triad_score >= 0,
            final(self).slot_score >= 0,
            final(self).double_score >= 0,
    {
        proof {
            lemma_normalize_bounds(
                old(self).window_score as int,
                old(self).triad_score as int,
                old(self).slot_score as int,
                old(self).double_score as int,
            );
        }
        let total: u128 = self.window_score as u128 + self.triad_score as u128
            + self.slot_score as u128 + self.double_score as u128;
        let w = ((self.window_score as u128 * SCALE as u128) / total) as i64;
        let tr = ((self.triad_score as u128 * SCALE as u128) / total) as i64;
        let sl = ((self.slot_score as u128 * SCALE as u128) / total) as i64;
        let db = ((self.double_score as u128 * SCALE as u128) / total) as i64;
        self.window_score = w;
        self.triad_score = tr;
        self.slot_score = sl;
        self.double_score = db;
    }
}

/// The sum of the four evaluator weights.
pub open spec fn weights_total(r: FeatureRanker) -> int {
    r.window_score + r.triad_score + r.slot_score + r.double_score
}

impl FeatureRanker {
    /// The number of triads `player` has on the board.
    pub fn count_triads(game: &GameState, player: Player) -> (n: u32)
        requires
            game.wf(),
        ensures
            n as int == motif_count(0, game@.occ, player),
            n <= 486,
    {
        let mut acc: u32 = 0;
        let mut q: i32 = -4;
        while q <= 4
            invariant
                game.wf(),
                -4 <= q <= 5,
                acc as int + sum_from(0, game@.occ, player, q as int, -4) == motif_count(
                    0,
                    game@.occ,
                    player,
                ),
                acc as int <= 54 * (q + 4),
            decreases 5 - q,
        {
            let mut r: i32 = -4;
            while r <= 4
                invariant
                    game.wf(),
                    -4 <= q <= 4,
                    -4 <= r <= 5,
                    acc as int + sum_from(0, game@.occ, player, q as int, r as int) == motif_count(
                        0,
                        game@.occ,
                        player,
                    ),
                    acc as int <= 6 * ((q + 4) * 9 + (r + 4)),
                decreases 5 - r,
            {
                let h = triad_at(game, player, HexPosition::from_axial(q, r));
                acc = acc + h;
                r = r + 1;
            }
            q = q + 1;
        }
        acc
    }

    /// The number of windows `player` has on the board.
    pub fn count_windows(game: &GameState, player: Player) -> (n: u32)
        requires
            game.wf(),
        ensures
            n as int == motif_count(1, game@.occ, player),
            n <= 486,
    {
        let mut acc: u32 = 0;
        let mut q: i32 = -4;
        while q <= 4
            invariant
                game.wf(),
                -4 <= q <= 5,
                acc as int + sum_from(1, game@.occ, player, q as int, -4) == motif_count(
                    1,
                    game@.occ,
                    player,
                ),
                acc as int <= 54 * (q + 4),
            decreases 5 - q,
        {
            let mut r: i32 = -4;
            while r <= 4
                invariant
                    game.wf(),
                    -4 <= q <= 4,
                    -4 <= r <= 5,
                    acc as int + sum_from(1, game@.occ, player, q as int, r as int) == motif_count(
                        1,
                        game@.occ,
                        player,
                    ),
                    acc as int <= 6 * ((q + 4) * 9 + (r + 4)),
                decreases 5 - r,
            {
                let pos = HexPosition::from_axial(q, r);
                let o = game.map().get(&pos);
                let mut h: u32 = 0;
                if o.is_some() && o.unwrap() == player {
                    h = window_dir_at(game, player, pos, 3) + window_dir_at(game, player, pos, 4)
                        + window_dir_at(game, player, pos, 5);
                }
                acc = acc + h;
                r = r + 1;
            }
            q = q + 1;
        }
        acc
    }

    /// The number of slots `player` has on the board.
    pub fn count_slots(game: &GameState, player: Player) -> (n: u32)
        requires
            game.wf(),
        ensures
            n as int == motif_count(2, game@.occ, player),
            n <= 486,
    {
        let mut acc: u32 = 0;
        let mut q: i32 = -4;
        while q <= 4
            invariant
                game.wf(),
                -4 <= q <= 5,
                acc as int + sum_from(2, game@.occ, player, q as int, -4) == motif_count(
                    2,
                    game@.occ,
                    player,
                ),
                acc as int <= 54 * (q + 4),
            decreases 5 - q,
        {
            let mut r: i32 = -4;
            while r <= 4
                invariant
                    game.wf(),
                    -4 <= q <= 4,
                    -4 <= r <= 5,
                    acc as int + sum_from(2, game@.occ, player, q as int, r as int) == motif_count(
                        2,
                        game@.occ,
                        player,
                    ),
                    acc as int <= 6 * ((q + 4) * 9 + (r + 4)),
                decreases 5 - r,
            {
                let pos = HexPosition::from_axial(q, r);
                let o = game.map().get(&pos);
                let mut h: u32 = 0;
                if o.is_some() && o.unwrap() == player {
                    h = slot_dir_at(game, player, pos, 0) + slot_dir_at(game, player, pos, 1)
                        + slot_dir_at(game, player, pos, 2);
                }
                acc = acc + h;
                r = r + 1;
            }
            q = q + 1;
        }
        acc
    }

    /// The number of doubles `player` has on the board.
    pub fn count_doubles(game: &GameState, player: Player) -> (n: u32)
        requires
            game.wf(),
        ensures
            n as int == motif_count(3, game@.occ, player),
            n <= 486,
    {
        let mut acc: u32 = 0;
        let mut q: i32 = -4;
        while q <= 4
            invariant
                game.wf(),
                -4 <= q <= 5,
                acc as int + sum_from(3, game@.occ, player, q as int, -4) == motif_count(
                    3,
                    game@.occ,
                    player,
                ),
                acc as int <= 54 * (q + 4),
            decreases 5 - q,
        {
            let mut r: i32 = -4;
            while r <= 4
                invariant
                    game.wf(),
                    -4 <= q <= 4,
                    -4 <= r <= 5,
                    acc as int + sum_from(3, game@.occ, player, q as int, r as int) == motif_count(
                        3,
                        game@.occ,
                        player,
                    ),
                    acc as int <= 6 * ((q + 4) * 9 + (r + 4)),
                decreases 5 - r,
            {
                let pos = HexPosition::from_axial(q, r);
                let o = game.map().get(&pos);
                let mut h: u32 = 0;
                if o.is_some() && o.unwrap() == player {
                    h = double_dir_at(game, player, pos, 0) + double_dir_at(game, player, pos, 1)
                        + double_dir_at(game, player, pos, 2) + double_dir_at(game, player, pos, 3)
                        + double_dir_at(game, player, pos, 4) + double_dir_at(game, player, pos, 5);
                }
                acc = acc + h;
                r = r + 1;
            }
            q = q + 1;
        }
        acc
    }
}

/// The triad contributions of one cell.
fn triad_at(game: &GameState, player: Player, pos: HexPosition) -> (n: u32)
    requires
        game.wf(),
        -4 <= pos@.0 <= 4,
        -4 <= pos@.1 <= 4,
    ensures
        n as int == contrib_triad(game@.occ, player, pos@),
        n <= 2,
{
    proof {
        crate::hex::lemma_step_k_unfold(pos@, 1);
        crate::hex::lemma_step_k_unfold(pos@, 2);
        crate::hex::lemma_step_k_unfold(pos@, 4);
        crate::hex::lemma_step_k_unfold(pos@, 5);
    }
    let mut n: u32 = 0;
    let o = game.map().get(&pos);
    if o.is_some() && o.unwrap() == player {
        let n1 = game.map().get(&pos.neighbor(1));
        let n2 = game.map().get(&pos.neighbor(2));
        if n1.is_some() && n1.unwrap() == player && n2.is_some() && n2.unwrap() == player {
            n = n + 1;
        }
        let n4 = game.map().get(&pos.neighbor(4));
        let n5 = game.map().get(&pos.neighbor(5));
        if n4.is_some() && n4.unwrap() == player && n5.is_some() && n5.unwrap() == player {
            n = n + 1;
        }
    }
    n
}

/// One ray's window test at one cell.
fn window_dir_at(game: &GameState, player: Player, pos: HexPosition, d: usize) -> (n: u32)
    requires
        game.wf(),
        -4 <= pos@.0 <= 4,
        -4 <= pos@.1 <= 4,
        d < 6,
    ensures
        n as int == window_dir(game@.occ, player, pos@, d as int),
        n <= 1,
{
    proof {
        crate::hex::lemma_step_k_unfold(pos@, d as int);
    }
    let p1 = pos.neighbor(d);
    let p2 = p1.neighbor(d);
    let p3 = p2.neighbor(d);
    let o1 = game.map().get(&p1);
    let o2 = game.map().get(&p2);
    let o3 = game.map().get(&p3);
    if o1.is_none() && o2.is_none() && o3.is_some() && o3.unwrap() == player {
        1
    } else {
        0
    }
}

/// One ray's slot test at one cell.
fn slot_dir_at(game: &GameState, player: Player, pos: HexPosition, d: usize) -> (n: u32)
    requires
        game.wf(),
        -4 <= pos@.0 <= 4,
        -4 <= pos@.1 <= 4,
        d < 6,
    ensures
        n as int == slot_dir(game@.occ, player, pos@, d as int),
        n <= 1,
{
    proof {
        crate::hex::lemma_step_k_unfold(pos@, d as int);
    }
    let p1 = pos.neighbor(d);
    let p2 = p1.neighbor(d);
    let o1 = game.map().get(&p1);
    let o2 = game.map().get(&p2);
    if o1.is_none() && o2.is_some() && o2.unwrap() == player {
        1
    } else {
        0
    }
}

/// One ray's double test at one cell.
fn double_dir_at(game: &GameState, player: Player, pos: HexPosition, d: usize) -> (n: u32)
    requires
        game.wf(),
        -4 <= pos@.0 <= 4,
        -4 <= pos@.1 <= 4,
        d < 6,
    ensures
        n as int == double_dir(game@.occ, player, pos@, d as int),
        n <= 1,
{
    proof {
        crate::hex::lemma_step_k_unfold(pos@, d as int);
    }
    let p1 = pos.neighbor(d);
    let p2 = p1.neighbor(d);
    let o1 = game.map().get(&p1);
    let o2 = game.map().get(&p2);
    if o1.is_some() && o1.unwrap() == player && o2.is_none() {
        1
    } else {
        0
    }
}

/// One weight times one motif count stays far inside `i128`.
proof fn lemma_weight_prod_bound(w: int, c: int)
    requires
        -0x8000_0000_0000_0000 <= w <= 0x7FFF_FFFF_FFFF_FFFF,
        0 <= c <= 486,
    ensures
        -0x1000_0000_0000_0000_0000 <= w * c <= 0x1000_0000_0000_0000_0000,
{
    assert(-0x1000_0000_0000_0000_0000 <= w * c <= 0x1000_0000_0000_0000_0000)
        by (nonlinear_arith)
        requires
            -0x8000_0000_0000_0000 <= w <= 0x7FFF_FFFF_FFFF_FFFF,
            0 <= c <= 486,
    ;
}

impl Ranker for FeatureRanker {
    /// A finished game gets the terminal constants; anything else gets the
    /// weighted motif sum, clamped so it can never outrank a real win.
    open spec fn rank_spec(&self, m: Model, player: Player) -> int {
        match status_spec(m) {
            MoveResult::End(p) => if p == player {
                WIN as int
            } else {
                -WIN as int
            },
            MoveResult::Tie => -100,
            _ => clamp_win(
                self.triad_score * motif_count(0, m.occ, player) + self.window_score * motif_count(
                    1,
                    m.occ,
                    player,
                ) + self.slot_score * motif_count(2, m.occ, player) + self.double_score
                    * motif_count(3, m.occ, player),
            ),
        }
    }

    proof fn rank_bounded(&self, m: Model, player: Player) {
    }

    fn rank(&self, state: &GameState, player: Player) -> (r: i64) {
        match state.is_over() {
            MoveResult::End(p) => {
                return if p == player {
                    WIN
                } else {
                    -WIN
                };
            },
            MoveResult::Tie => {
                return -100;
            },
            _ => {},
        }
        let ct = FeatureRanker::count_triads(state, player);
        let cw = FeatureRanker::count_windows(state, player);
        let cs = FeatureRanker::count_slots(state, player);
        let cd = FeatureRanker::count_doubles(state, player);
        proof {
            lemma_weight_prod_bound(self.triad_score as int, ct as int);
            lemma_weight_prod_bound(self.window_score as int, cw as int);
            lemma_weight_prod_bound(self.slot_score as int, cs as int);
            lemma_weight_prod_bound(self.double_score as int, cd as int);
        }
        let sum: i128 = self.triad_score as i128 * ct as i128 + self.window_score as i128
            * cw as i128 + self.slot_score as i128 * cs as i128 + self.double_score as i128
            * cd as i128;
        if sum > WIN as i128 {
            WIN
        } else if sum < -WIN as i128 {
            -WIN
        } else {
            sum as i64
        }
    }
}

/// Rounding analysis of the normalisation: each scaled weight is between 0
/// and `SCALE`, and the four of them sum to within 3 of `SCALE`.
proof fn lemma_normalize_bounds(w: int, t: int, s: int, d: int)
    requires
        w >= 0,
        t >= 0,
        s >= 0,
        d >= 0,
        w + t + s + d > 0,
    ensures
        0 <= w * SCALE / (w + t + s + d) <= SCALE,
        0 <= t * SCALE / (w + t + s + d) <= SCALE,
        0 <= s * SCALE / (w + t + s + d) <= SCALE,
        0 <= d * SCALE / (w + t + s + d) <= SCALE,
        SCALE - 3 <= w * SCALE / (w + t + s + d) + t * SCALE / (w + t + s + d) + s * SCALE / (w + t
            + s + d) + d * SCALE / (w + t + s + d) <= SCALE,
{
    let tot = w + t + s + d;
    let sc = SCALE as int;
    lemma_scaled_weight_bounds(w, tot);
    lemma_scaled_weight_bounds(t, tot);
    lemma_scaled_weight_bounds(s, tot);
    lemma_scaled_weight_bounds(d, tot);
    vstd::arithmetic::div_mod::lemma_fundamental_div_mod(w * sc, tot);
    vstd::arithmetic::div_mod::lemma_fundamental_div_mod(t * sc, tot);
    vstd::arithmetic::div_mod::lemma_fundamental_div_mod(s * sc, tot);
    vstd::arithmetic::div_mod::lemma_fundamental_div_mod(d * sc, tot);
    vstd::arithmetic::div_mod::lemma_mod_bound(w * sc, tot);
    vstd::arithmetic::div_mod::lemma_mod_bound(t * sc, tot);
    vstd::arithmetic::div_mod::lemma_mod_bound(s * sc, tot);
    vstd::arithmetic::div_mod::lemma_mod_bound(d * sc, tot);
    let qw = w * sc / tot;
    let qt = t * sc / tot;
    let qs = s * sc / tot;
    let qd = d * sc / tot;
    let bigq = qw + qt + qs + qd;
    let bigr = w * sc % tot + t * sc % tot + s * sc % tot + d * sc % tot;
    assert(w * sc + t * sc + s * sc + d * sc == tot * sc) by (nonlinear_arith)
        requires
            tot == w + t + s + d,
    ;
    assert(tot * qw + tot * qt + tot * qs + tot * qd == tot * bigq) by (nonlinear_arith)
        requires
            bigq == qw + qt + qs + qd,
    ;
    assert(tot * sc == tot * bigq + bigr);
    assert(0 <= bigr <= 4 * tot - 4);
    assert(tot * (sc - bigq) == bigr) by (nonlinear_arith)
        requires
            tot * sc == tot * bigq + bigr,
    ;
    assert(0 <= sc - bigq <= 3) by (nonlinear_arith)
        requires
            tot >= 1,
            tot * (sc - bigq) == bigr,
            0 <= bigr <= 4 * tot - 4,
    ;
}

/// One scaled weight never leaves `[0, SCALE]`.
proof fn lemma_scaled_weight_bounds(w: int, tot: int)
    requires
        0 <= w <= tot,
        tot >= 1,
    ensures
        0 <= w * SCALE / tot <= SCALE,
{
    let sc = SCALE as int;
    assert(w * sc >= 0) by (nonlinear_arith)
        requires
            w >= 0,
            sc > 0,
    ;
    assert(w * sc <= tot * sc) by (nonlinear_arith)
        requires
            w <= tot,
            sc > 0,
    ;
    vstd::arithmetic::div_mod::lemma_div_is_ordered(w * sc, tot * sc, tot);
    vstd::arithmetic::div_mod::lemma_div_multiples_vanish(sc, tot);
    vstd::arithmetic::div_mod::lemma_div_pos_is_pos(w * sc, tot);
}

/// Whether the search stops at this node: no depth left, a full board,
/// or a decided game.
pub open spec fn is_leaf(m: Model, depth: nat) -> bool {
    depth == 0 || full(m) || status_spec(m) is End
}

/// The score of a horizon or terminal node: the difference between the
/// evaluator's view of both sides, tie-broken toward shallower depth.
pub open spec fn leaf_score<R: Ranker>(rk: R, m: Model, player: Player, depth: nat) -> SpecScore {
    SpecScore {
        v: rk.rank_spec(m, player) - rk.rank_spec(m, player.spec_inverse()),
        d: -(depth as int),
    }
}

/// The full-width negamax value of a position for the player to move at
/// this node: the best, over every legal move, of the negated value of the
/// resulting position for the opponent.
pub open spec fn nm<R: Ranker>(rk: R, m: Model, player: Player, depth: nat) -> SpecScore
    decreases depth, 1int, 0int,
{
    if is_leaf(m, depth) {
        leaf_score(rk, m, player, depth)
    } else {
        nm_best(rk, m, player, depth, moves(m).len() as int)
    }
}

/// The best negated child value among the first `i` legal moves.
pub open spec fn nm_best<R: Ranker>(rk: R, m: Model, player: Player, depth: nat, i: int) -> SpecScore
    decreases depth, 0int, i,
{
    if i <= 0 || depth == 0 {
        ss_neg_inf()
    } else {
        ss_max(
            nm_best(rk, m, player, depth, i - 1),
            ss_neg(
                nm(
                    rk,
                    apply_model(m, moves(m)[i - 1]),
                    player.spec_inverse(),
                    (depth - 1) as nat,
                ),
            ),
        )
    }
}

/// The negated value of the `j`-th child, as seen by the player to move.
pub open spec fn child_value<R: Ranker>(
    rk: R,
    m: Model,
    player: Player,
    depth: nat,
    j: int,
) -> SpecScore {
    ss_neg(nm(rk, apply_model(m, moves(m)[j]), player.spec_inverse(), (depth - 1) as nat))
}

/// Search values stay within twice the terminal constant, with a depth
/// component no larger than the remaining depth.
pub open spec fn ss_in_range(s: SpecScore, depth: nat) -> bool {
    &&& -2 * WIN <= s.v <= 2 * WIN
    &&& -(depth as int) <= s.d <= depth as int
}

proof fn lemma_nm_bounded<R: Ranker>(rk: R, m: Model, player: Player, depth: nat)
    ensures
        ss_in_range(nm(rk, m, player, depth), depth),
    decreases depth, 1int, 0int,
{
    if is_leaf(m, depth) {
        rk.rank_bounded(m, player);
        rk.rank_bounded(m, player.spec_inverse());
    } else {
        crate::lemma_moves_nonempty(m);
        lemma_nm_best_bounded(rk, m, player, depth, moves(m).len() as int);
    }
}

proof fn lemma_nm_best_bounded<R: Ranker>(rk: R, m: Model, player: Player, depth: nat, i: int)
    requires
        depth >= 1,
        1 <= i <= moves(m).len(),
    ensures
        ss_in_range(nm_best(rk, m, player, depth, i), depth),
    decreases depth, 0int, i,
{
    lemma_nm_bounded(
        rk,
        apply_model(m, moves(m)[i - 1]),
        player.spec_inverse(),
        (depth - 1) as nat,
    );
    let cv = ss_neg(
        nm(rk, apply_model(m, moves(m)[i - 1]), player.spec_inverse(), (depth - 1) as nat),
    );
    assert(ss_in_range(cv, depth));
    assert(nm_best(rk, m, player, depth, i) == ss_max(nm_best(rk, m, player, depth, i - 1), cv));
    if i > 1 {
        lemma_nm_best_bounded(rk, m, player, depth, i - 1);
    } else {
        assert(nm_best(rk, m, player, depth, 0) == ss_neg_inf());
        assert(ss_le(ss_neg_inf(), cv));
    }
}

proof fn lemma_nm_best_mono<R: Ranker>(rk: R, m: Model, player: Player, depth: nat, i: int, j: int)
    requires
        i <= j,
    ensures
        ss_le(nm_best(rk, m, player, depth, i), nm_best(rk, m, player, depth, j)),
    decreases j - i,
{
    if i < j {
        lemma_nm_best_mono(rk, m, player, depth, i, j - 1);
    }
}

/// Anything that dominates every child value dominates the running best.
proof fn lemma_nm_best_le<R: Ranker>(
    rk: R,
    m: Model,
    player: Player,
    depth: nat,
    i: int,
    b: SpecScore,
)
    requires
        depth >= 1,
        0 <= i <= moves(m).len(),
        ss_le(ss_neg_inf(), b),
        forall|j: int| 0 <= j < i ==> ss_le(#[trigger] child_value(rk, m, player, depth, j), b),
    ensures
        ss_le(nm_best(rk, m, player, depth, i), b),
    decreases i,
{
    if i > 0 {
        lemma_nm_best_le(rk, m, player, depth, i - 1, b);
        assert(child_value(rk, m, player, depth, i - 1) == ss_neg(
            nm(rk, apply_model(m, moves(m)[i - 1]), player.spec_inverse(), (depth - 1) as nat),
        ));
    }
}

/// Every child value is dominated by the running best that includes it.
proof fn lemma_child_le_nm_best<R: Ranker>(
    rk: R,
    m: Model,
    player: Player,
    depth: nat,
    j: int,
    i: int,
)
    requires
        depth >= 1,
        0 <= j < i,
    ensures
        ss_le(child_value(rk, m, player, depth, j), nm_best(rk, m, player, depth, i)),
{
    assert(nm_best(rk, m, player, depth, j + 1) == ss_max(
        nm_best(rk, m, player, depth, j),
        ss_neg(nm(rk, apply_model(m, moves(m)[j]), player.spec_inverse(), (depth - 1) as nat)),
    ));
    lemma_nm_best_mono(rk, m, player, depth, j + 1, i);
}

/// One node of the search: fail-soft negamax with the window
/// `(alpha, beta)`. The returned score `r` relates to the true full-width
/// value `t` of this node as fail-soft alpha-beta promises: a result
/// inside the window is exact, a result at or below `alpha` is an upper
/// bound on `t`, and a result at or beyond `beta` is a lower bound.
fn eval<R: Ranker>(
    ranker: &R,
    state: &GameState,
    depth: usize,
    alpha: Score,
    beta: Score,
    player: Player,
) -> (r: Score)
    requires
        state.wf(),
        depth <= DEPTH_CAP,
        score_wf(alpha@),
        score_wf(beta@),
        ss_lt(alpha@, beta@),
        ss_le(ss_neg_inf(), alpha@),
        ss_le(beta@, ss_neg(ss_neg_inf())),
    ensures
        score_wf(r@),
        ss_in_range(r@, depth as nat),
        ss_le(r@, alpha@) ==> ss_le(nm(*ranker, state@, player, depth as nat), r@),
        ss_le(beta@, r@) ==> ss_le(r@, nm(*ranker, state@, player, depth as nat)),
        ss_lt(alpha@, r@) && ss_lt(r@, beta@) ==> r@ == nm(*ranker, state@, player, depth as nat),
    decreases depth,
{
    let ghost m = state@;
    let ghost t = nm(*ranker, m, player, depth as nat);
    if depth == 0 || state.map().is_full() || state.is_game_over() {
        proof {
            ranker.rank_bounded(m, player);
            ranker.rank_bounded(m, player.spec_inverse());
            assert(is_leaf(m, depth as nat));
        }
        let a = ranker.rank(state, player);
        let b = ranker.rank(state, player.inverse());
        let sc = Score(a - b, -(depth as i64));
        proof {
            assert(sc@ == t);
        }
        return sc;
    }
    proof {
        assert(!is_leaf(m, depth as nat));
        crate::lemma_moves_nonempty(m);
    }
    let mvs = state.legal_moves();
    let mut value = Score::neg_inf();
    let mut a_cur = alpha;
    let mut i: usize = 0;
    while i < mvs.len()
        invariant
            state.wf(),
            m == state@,
            t == nm(*ranker, m, player, depth as nat),
            !is_leaf(m, depth as nat),
            1 <= depth <= DEPTH_CAP,
            mvs@.map_values(|p: HexPosition| p@) == moves(m),
            i <= mvs@.len(),
            score_wf(alpha@),
            score_wf(beta@),
            ss_lt(alpha@, beta@),
            ss_le(ss_neg_inf(), alpha@),
            ss_le(beta@, ss_neg(ss_neg_inf())),
            score_wf(value@),
            score_wf(a_cur@),
            ss_le(ss_neg_inf(), value@),
            i == 0 ==> value@ == ss_neg_inf(),
            a_cur@ == ss_max(alpha@, value@),
            ss_lt(value@, beta@),
            ss_le(nm_best(*ranker, m, player, depth as nat, i as int), value@),
            ss_le(value@, ss_max(alpha@, nm_best(*ranker, m, player, depth as nat, i as int))),
            i >= 1 ==> ss_in_range(value@, depth as nat),
        decreases mvs@.len() - i,
    {
        let mv = mvs[i];
        proof {
            crate::lemma_moves_from_elems(m.occ, -4, -4);
            assert(moves(m)[i as int] == mvs@.map_values(|p: HexPosition| p@)[i as int]);
            assert(mv@ == moves(m)[i as int]);
        }
        let child = state.with_move(&mv);
        proof {
            assert(child@ == apply_model(m, moves(m)[i as int]));
        }
        let cs = eval(ranker, &child, depth - 1, beta.neg(), a_cur.neg(), player.inverse());
        let sc = cs.neg();
        let ghost cv = child_value(*ranker, m, player, depth as nat, i as int);
        proof {
            assert(ss_in_range(sc@, depth as nat));
            assert(cv == ss_neg(
                nm(*ranker, child@, player.spec_inverse(), (depth - 1) as nat),
            ));
            assert(ss_le(beta@, sc@) ==> ss_le(sc@, cv));
            assert(ss_le(sc@, a_cur@) ==> ss_le(cv, sc@));
            assert(ss_lt(a_cur@, sc@) && ss_lt(sc@, beta@) ==> sc@ == cv);
            assert(nm_best(*ranker, m, player, depth as nat, i as int + 1) == ss_max(
                nm_best(*ranker, m, player, depth as nat, i as int),
                cv,
            ));
        }
        if beta.le(sc) {
            let out = if value.lt(sc) {
                sc
            } else {
                value
            };
            proof {
                lemma_child_le_nm_best(
                    *ranker,
                    m,
                    player,
                    depth as nat,
                    i as int,
                    moves(m).len() as int,
                );
                assert(out@ == sc@);
                assert(ss_le(sc@, cv));
                assert(ss_le(cv, nm_best(*ranker, m, player, depth as nat, moves(m).len() as int)));
                assert(t == nm_best(*ranker, m, player, depth as nat, moves(m).len() as int));
                assert(ss_le(out@, t));
            }
            return out;
        }
        if value.lt(sc) {
            value = sc;
        }
        if a_cur.lt(value) {
            a_cur = value;
        }
        i = i + 1;
    }
    proof {
        assert(i as int == moves(m).len());
        assert(t == nm_best(*ranker, m, player, depth as nat, moves(m).len() as int));
        assert(ss_le(t, value@));
        assert(ss_le(value@, ss_max(alpha@, t)));
    }
    value
}

/// Picks the index of a maximal score, resolving ties close to uniformly
/// at random: moves are scanned in order, a strictly better score always
/// takes over (and resets the tie chance to one half), and a score equal
/// to the current best takes over with a probability that halves at each
/// further tie at that value.
fn select_best(rng: &mut TieRng, scores: &Vec<Score>) -> (idx: usize)
    requires
        scores@.len() > 0,
    ensures
        idx < scores@.len(),
        forall|j: int| 0 <= j < scores@.len() ==> ss_le(#[trigger] scores@[j]@, scores@[idx as int]@),
{
    let mut best: usize = 0;
    let mut ties: u32 = 1;
    let mut j: usize = 1;
    while j < scores.len()
        invariant
            scores@.len() > 0,
            1 <= j <= scores@.len(),
            best < j,
            forall|k: int| 0 <= k < j ==> ss_le(#[trigger] scores@[k]@, scores@[best as int]@),
        decreases scores@.len() - j,
    {
        let sj = scores[j];
        let sb = scores[best];
        if sb.lt(sj) {
            best = j;
            ties = 1;
        } else if sj == sb {
            if rng.draw_replace(ties) {
                best = j;
            }
            if ties < 63 {
                ties = ties + 1;
            }
        }
        j = j + 1;
    }
    best
}

impl<R: Ranker> Ai for RankerAi<R> {
    /// Negamax alpha-beta move choice. Each root move is searched with the
    /// full window, so every root score is exact and equal-scoring moves
    /// are recognised as genuine ties; the pruning happens inside the
    /// subtrees, where the windows narrow. Beyond returning a legal cell,
    /// the chosen move is one whose subtree scores exactly the full-width
    /// negamax value of the position: pruning changes the work done, never
    /// the best achievable score at the root, and ties among equally good
    /// moves are broken by the halving random replacement policy of
    /// `select_best`.
    fn choose_move(&mut self, state: &GameState, player: Player) -> (mv: HexPosition)
        ensures
            ss_neg(
                nm(
                    old(self).ranker,
                    apply_model(state@, mv@),
                    player.spec_inverse(),
                    (old(self).spec_depth() - 1) as nat,
                ),
            ) == nm(old(self).ranker, state@, player, old(self).spec_depth()),
            final(self).ranker == old(self).ranker,
            final(self).recursion_limit == old(self).recursion_limit,
    {
        let ghost m = state@;
        let mut depth = self.recursion_limit;
        if depth == 0 {
            depth = 1;
        }
        if depth > DEPTH_CAP {
            depth = DEPTH_CAP;
        }
        let ghost dd = depth as nat;
        proof {
            assert(dd == old(self).spec_depth());
            assert(!full(m));
            assert(!is_leaf(m, dd));
            crate::lemma_moves_nonempty(m);
        }
        let mvs = state.legal_moves();
        let mut scores: Vec<Score> = Vec::new();
        let mut i: usize = 0;
        while i < mvs.len()
            invariant
                state.wf(),
                m == state@,
                !is_leaf(m, dd),
                1 <= depth <= DEPTH_CAP,
                dd == depth as nat,
                self.ranker == old(self).ranker,
                self.recursion_limit == old(self).recursion_limit,
                mvs@.map_values(|p: HexPosition| p@) == moves(m),
                scores@.len() == i,
                i <= mvs@.len(),
                forall|j: int|
                    0 <= j < i ==> #[trigger] scores@[j]@ == child_value(
                        old(self).ranker,
                        m,
                        player,
                        dd,
                        j,
                    ),
                forall|j: int| 0 <= j < i ==> ss_in_range(#[trigger] scores@[j]@, dd),
            decreases mvs@.len() - i,
        {
            let mv_i = mvs[i];
            proof {
                crate::lemma_moves_from_elems(m.occ, -4, -4);
                assert(mv_i@ == moves(m)[i as int]);
            }
            let child = state.with_move(&mv_i);
            let cs = eval(
                &self.ranker,
                &child,
                depth - 1,
                Score::neg_inf(),
                Score::pos_inf(),
                player.inverse(),
            );
            let sc = cs.neg();
            proof {
                let tch = nm(old(self).ranker, child@, player.spec_inverse(), (dd - 1) as nat);
                lemma_nm_bounded(old(self).ranker, child@, player.spec_inverse(), (dd - 1) as nat);
                assert(ss_lt(ss_neg_inf(), cs@) && ss_lt(cs@, ss_neg(ss_neg_inf())));
                assert(cs@ == tch);
                assert(sc@ == child_value(old(self).ranker, m, player, dd, i as int));
            }
            scores.push(sc);
            i = i + 1;
        }
        let idx = select_best(&mut self.rng, &scores);
        let mv = mvs[idx];
        proof {
            let rk = old(self).ranker;
            let len = moves(m).len() as int;
            crate::lemma_moves_from_elems(m.occ, -4, -4);
            assert(mv@ == moves(m)[idx as int]);
            assert(in_board_c(mv@) && !m.occ.dom().contains(mv@));
            assert(nm(rk, m, player, dd) == nm_best(rk, m, player, dd, len));
            lemma_child_le_nm_best(rk, m, player, dd, idx as int, len);
            assert forall|j: int| 0 <= j < len implies ss_le(
                #[trigger] child_value(rk, m, player, dd, j),
                scores@[idx as int]@,
            ) by {
                assert(child_value(rk, m, player, dd, j) == scores@[j]@);
            }
            lemma_nm_best_le(rk, m, player, dd, len, scores@[idx as int]@);
            assert(scores@[idx as int]@ == child_value(rk, m, player, dd, idx as int));
            assert(child_value(rk, m, player, dd, idx as int) == nm_best(rk, m, player, dd, len));
        }
        mv
    }
}

/// Scores are antisymmetric under swapping the two players: the
/// evaluation difference one player sees is exactly the negation of the
/// difference the other sees.
pub proof fn lemma_rank_antisymmetric<R: Ranker>(rk: &R, m: Model, a: Player, b: Player)
    ensures
        rk.rank_spec(m, a) - rk.rank_spec(m, b) == -(rk.rank_spec(m, b) - rk.rank_spec(m, a)),
{
}

/// A small deterministic generator for the search's move tie-breaking;
/// seeded randomly by `RankerAi::new`, or explicitly for reproducible runs.
#[derive(Debug, Copy, Clone)]
pub struct TieRng {
    s: u64,
}

impl TieRng {
    /// A generator starting from `seed`.
    pub fn from_seed(seed: u64) -> TieRng {
        TieRng { s: if seed == 0 { 0x9E3779B97F4A7C15u64 } else { seed } }
    }

    fn next(&mut self) -> u64 {
        let mut x = self.s;
        x = x ^ (x << 13);
        x = x ^ (x >> 7);
        x = x ^ (x << 17);
        self.s = x;
        x
    }

    /// Draws true with probability `2^-k` (for `k` up to 63); this is the
    /// halving replacement chance of the tie-break policy.
    fn draw_replace(&mut self, k: u32) -> bool {
        let kk: u32 = if k > 63 {
            63
        } else {
            k
        };
        proof {
            assert((1u64 << kk) >= 1) by (bit_vector)
                requires
                    kk < 64u32,
            ;
        }
        let x = self.next();
        x & ((1u64 << kk) - 1) == 0
    }
}

/// Relies on rand::random: draws one arbitrary machine word from the
/// thread-local generator. Nothing is promised of the value; the search's
/// contracts hold for every outcome.
#[verifier::external_body]
fn draw_seed() -> u64 {
    rand::random::<u64>()
}

/// A move chooser: picks one legal cell for `player` in a running game.
pub trait Ai {
    fn choose_move(&mut self, state: &GameState, player: Player) -> (mv: HexPosition)
        requires
            state.wf(),
            status_spec(state@) == MoveResult::Good,
        ensures
            in_board_c(mv@),
            !state@.occ.dom().contains(mv@),
    ;
}

/// The game-tree searcher: negamax with alpha-beta pruning over the legal
/// moves, scoring horizon positions with the supplied evaluator.
#[derive(Debug, Copy, Clone)]
pub struct RankerAi<R: Ranker> {
    pub recursion_limit: usize,
    pub ranker: R,
    pub rng: TieRng,
}

impl<R: Ranker> RankerAi<R> {
    /// The depth the search actually uses: at least 1, and capped so that
    /// depth arithmetic stays inside machine integers.
    pub open spec fn spec_depth(self) -> nat {
        if self.recursion_limit == 0 {
            1nat
        } else if self.recursion_limit > DEPTH_CAP {
            DEPTH_CAP as nat
        } else {
            self.recursion_limit as nat
        }
    }

    /// A searcher with a randomly seeded tie-break generator.
    pub fn new(ranker: R, recursion_limit: usize) -> (ai: RankerAi<R>)
        ensures
            ai.ranker == ranker,
            ai.recursion_limit == if recursion_limit == 0 {
                1usize
            } else {
                recursion_limit
            },
    {
        let seed = draw_seed();
        RankerAi {
            recursion_limit: if recursion_limit == 0 {
                1
            } else {
                recursion_limit
            },
            ranker,
            rng: TieRng::from_seed(seed),
        }
    }

    /// A searcher whose tie-breaking is reproducible from `seed`.
    pub fn with_seed(ranker: R, recursion_limit: usize, seed: u64) -> (ai: RankerAi<R>)
        ensures
            ai.ranker == ranker,
            ai.recursion_limit == if recursion_limit == 0 {
                1usize
            } else {
                recursion_limit
            },
    {
        RankerAi {
            recursion_limit: if recursion_limit == 0 {
                1
            } else {
                recursion_limit
            },
            ranker,
            rng: TieRng::from_seed(seed),
        }
    }
}

} // verus!
