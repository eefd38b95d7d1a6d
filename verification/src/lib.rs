pub mod ai;
pub mod board;
pub mod hex;

use vstd::prelude::*;
use vstd::map::*;

use crate::board::{Board, count_of};
use crate::hex::{HexPosition, in_board_c, step};

verus! {

/// One of the two players. `Red` moves first; the names come from the
/// stone colours used when the game is drawn on screen.
#[derive(Debug, Copy, Clone, Eq, PartialEq, Ord, PartialOrd, Structural)]
pub enum Player {
    Green,
    Red,
}

impl Player {
    /// The player who makes the first move of a game.
    pub fn starting() -> (p: Player)
        ensures
            p == Player::Red,
    {
        Player::Red
    }

    /// The opponent of `self`.
    pub fn inverse(&self) -> (p: Player)
        ensures
            p == self.spec_inverse(),
    {
        match *self {
            Player::Green => Player::Red,
            Player::Red => Player::Green,
        }
    }

    pub open spec fn spec_inverse(self) -> Player {
        match self {
            Player::Green => Player::Red,
            Player::Red => Player::Green,
        }
    }
}

/// The outcome of attempting one move.
#[derive(Debug, Copy, Clone, Eq, PartialEq, Ord, PartialOrd, Structural)]
pub enum MoveResult {
    /// The move was legal and the game goes on.
    Good,
    /// The move was illegal (outside the board, or the cell is occupied);
    /// the state is unchanged.
    Bad,
    /// The game is over and the named player has won.
    End(Player),
    /// The board is full and nobody has won.
    Tie,
}

/// The mathematical model of a game position: whose turn it is, which cell
/// holds whose stone, and where the last stone was placed.
pub ghost struct Model {
    pub cur: Player,
    pub occ: Map<(int, int), Player>,
    pub last: Option<(int, int)>,
}

/// The model after the mover of `m` places a stone on the free cell `c`.
pub open spec fn apply_model(m: Model, c: (int, int)) -> Model {
    Model { cur: m.cur.spec_inverse(), occ: m.occ.insert(c, m.cur), last: Some(c) }
}

/// Whether every board cell is occupied.
pub open spec fn full(m: Model) -> bool {
    forall|c: (int, int)| in_board_c(c) ==> m.occ.dom().contains(c)
}

/// The number of consecutive cells occupied by `p` strictly beyond `c` in
/// direction `d`, looking at most `fuel` cells out.
pub open spec fn run_dir(occ: Map<(int, int), Player>, p: Player, c: (int, int), d: int, fuel: nat) -> int
    decreases fuel,
{
    if fuel == 0 {
        0
    } else {
        let n = step(c, d);
        if occ.dom().contains(n) && occ[n] == p {
            1 + run_dir(occ, p, n, d, (fuel - 1) as nat)
        } else {
            0
        }
    }
}

/// The length of the contiguous run of `p`'s stones through `c` along the
/// bidirectional axis pairing directions `a` and `a + 3`.
pub open spec fn axis_run(occ: Map<(int, int), Player>, p: Player, c: (int, int), a: int) -> int {
    run_dir(occ, p, c, a, 10) + run_dir(occ, p, c, a + 3, 10) + 1
}

/// One axis's contribution to the outcome: a run of 4 or 5 declares the
/// mover the winner, overriding anything found before; a run of exactly 3
/// declares the opponent the winner, but only if no axis has fired yet.
pub open spec fn axis_update(st: Option<Player>, run: int, p: Player) -> Option<Player> {
    if st is None && run == 3 {
        Some(p.spec_inverse())
    } else if run == 4 || run == 5 {
        Some(p)
    } else {
        st
    }
}

/// The winner declared by examining the three axes through the last move,
/// in order.
pub open spec fn axes_verdict(occ: Map<(int, int), Player>, p: Player, c: (int, int)) -> Option<
    Player,
> {
    axis_update(
        axis_update(axis_update(None, axis_run(occ, p, c, 0), p), axis_run(occ, p, c, 1), p),
        axis_run(occ, p, c, 2),
        p,
    )
}

/// The terminal status of a position: a full board is a draw; before any
/// move the game is simply on; otherwise only the three axes through the
/// last move are inspected.
pub open spec fn status_spec(m: Model) -> MoveResult {
    if full(m) {
        MoveResult::Tie
    } else {
        match m.last {
            None => MoveResult::Good,
            Some(c) => {
                if m.occ.dom().contains(c) {
                    match axes_verdict(m.occ, m.occ[c], c) {
                        Some(w) => MoveResult::End(w),
                        None => MoveResult::Good,
                    }
                } else {
                    MoveResult::Good
                }
            },
        }
    }
}

/// The scan order of the board: all board cells from `(q, r)` onward,
/// rows in `q`, then `r`, both ascending, that are not occupied in `occ`.
pub open spec fn moves_from(occ: Map<(int, int), Player>, q: int, r: int) -> Seq<(int, int)>
    decreases (5 - q) * 10 + (5 - r) when -4 <= q <= 5 && -4 <= r <= 5
{
    if q > 4 {
        Seq::empty()
    } else if r > 4 {
        moves_from(occ, q + 1, -4)
    } else {
        (if in_board_c((q, r)) && !occ.dom().contains((q, r)) {
            seq![(q, r)]
        } else {
            Seq::empty()
        }) + moves_from(occ, q, r + 1)
    }
}

/// Every free board cell, in scan order: the legal moves of a position.
pub open spec fn moves(m: Model) -> Seq<(int, int)> {
    moves_from(m.occ, -4, -4)
}

/// The whole game position: the placement map, whose turn it is, and the
/// last stone placed.
#[derive(Clone)]
pub struct GameState {
    pub current_player: Player,
    pub map: Board,
    pub last_move: Option<HexPosition>,
}

impl View for GameState {
    type V = Model;

    open spec fn view(&self) -> Model {
        Model {
            cur: self.current_player,
            occ: self.map.as_map(),
            last: match self.last_move {
                Some(p) => Some(p@),
                None => None,
            },
        }
    }
}

impl GameState {
    /// Validity of a reachable position: the board storage is sound, the
    /// stone counts of the two players match whose turn it is (the mover is
    /// the player who has not yet moved), and the recorded last move holds a
    /// stone of the player who placed it.
    pub open spec fn wf(self) -> bool {
        &&& self.map.wf()
        &&& count_of(self.map.slots(), Player::Red, 81) == count_of(
            self.map.slots(),
            Player::Green,
            81,
        ) + if self.current_player == Player::Green {
            1int
        } else {
            0int
        }
        &&& match self.last_move {
            Some(p) => in_board_c(p@) && self.map.occ_at(p@)
                == Some(self.current_player.spec_inverse()),
            None => true,
        }
    }

    /// The number of stones on the board.
    pub open spec fn stone_count(self) -> int {
        self.map.stone_count()
    }

    /// A fresh game: empty board, `Red` to move.
    pub fn new() -> (s: GameState)
        ensures
            s.wf(),
            s@.cur == Player::Red,
            s@.occ == Map::<(int, int), Player>::empty(),
            s@.last is None,
            s.stone_count() == 0,
            status_spec(s@) == MoveResult::Good,
    {
        let s = GameState { current_player: Player::Red, map: Board::new(), last_move: None };
        proof {
            lemma_count_of_all_none(s.map.slots(), Player::Red, 81);
            lemma_count_of_all_none(s.map.slots(), Player::Green, 81);
            assert(s@.occ =~= Map::<(int, int), Player>::empty());
            assert(!full(s@)) by {
                assert(in_board_c((0int, 0int)) && !s@.occ.dom().contains((0int, 0int)));
            }
        }
        s
    }

    /// Attempts to place the mover's stone on `pos`.
    ///
    /// An illegal move (off the board, or an occupied cell) is reported as
    /// `Bad` and leaves the state untouched. A legal move places the stone,
    /// hands the turn to the opponent, records the move, and reports the
    /// terminal status of the new position.
    pub fn make_move(&mut self, pos: &HexPosition) -> (res: MoveResult)
        requires
            old(self).wf(),
        ensures
            final(self).wf(),
            !(in_board_c(pos@) && !old(self)@.occ.dom().contains(pos@)) ==> res == MoveResult::Bad
                && *final(self) == *old(self),
            in_board_c(pos@) && !old(self)@.occ.dom().contains(pos@) ==> {
                &&& final(self)@ == apply_model(old(self)@, pos@)
                &&& final(self).stone_count() == old(self).stone_count() + 1
                &&& res == status_spec(final(self)@)
                &&& res != MoveResult::Bad
            },
    {
        if self.map.could_contain(pos) && !self.map.contains(pos) {
            let mover = self.current_player;
            self.map.insert(pos, mover);
            self.current_player = self.current_player.inverse();
            self.last_move = Some(*pos);
            proof {
                assert(self@.occ =~= old(self)@.occ.insert(pos@, mover));
            }
            let res = self.is_over();
            proof {
                assert(res != MoveResult::Bad);
            }
            res
        } else {
            MoveResult::Bad
        }
    }

    /// Whether the game has been won by somebody.
    pub fn is_game_over(&self) -> (b: bool)
        requires
            self.wf(),
        ensures
            b == (status_spec(self@) is End),
    {
        match self.is_over() {
            MoveResult::End(_) => true,
            _ => false,
        }
    }

    /// The terminal status of the position: `Tie` on a full board, `Good`
    /// before any move, and otherwise the verdict of the three axes through
    /// the last move.
    pub fn is_over(&self) -> (res: MoveResult)
        requires
            self.wf(),
        ensures
            res == status_spec(self@),
            res != MoveResult::Bad,
    {
        if self.map.is_full() {
            return MoveResult::Tie;
        }
        let lm = match self.last_move {
            Some(l) => l,
            None => { return MoveResult::Good; },
        };
        let p = match self.map.get(&lm) {
            Some(p) => p,
            None => {
                proof {
                    assert(false);
                }
                Player::Red
            },
        };
        let r0 = self.map.count_run(&lm, 0, p) + self.map.count_run(&lm, 3, p) + 1;
        let r1 = self.map.count_run(&lm, 1, p) + self.map.count_run(&lm, 4, p) + 1;
        let r2 = self.map.count_run(&lm, 2, p) + self.map.count_run(&lm, 5, p) + 1;
        let s0 = axis_apply(None, r0, p);
        let s1 = axis_apply(s0, r1, p);
        let s2 = axis_apply(s1, r2, p);
        match s2 {
            Some(w) => MoveResult::End(w),
            None => MoveResult::Good,
        }
    }

    /// The player whose turn it is.
    pub fn current_player(&self) -> (p: Player)
        ensures
            p == self@.cur,
    {
        self.current_player
    }

    /// The placement map of the position.
    pub fn map(&self) -> (b: &Board)
        ensures
            *b == self.map,
    {
        &self.map
    }

    /// Every free board cell, in the board's scan order.
    pub fn legal_moves(&self) -> (mv: Vec<HexPosition>)
        requires
            self.wf(),
        ensures
            mv@.map_values(|p: HexPosition| p@) == moves(self@),
    {
        let ghost target = moves(self@);
        let mut out: Vec<HexPosition> = Vec::new();
        let mut q: i32 = -4;
        while q <= 4
            invariant
                self.wf(),
                -4 <= q <= 5,
                target == moves(self@),
                out@.map_values(|p: HexPosition| p@) + moves_from(self@.occ, q as int, -4)
                    == target,
            decreases 5 - q,
        {
            let mut r: i32 = -4;
            while r <= 4
                invariant
                    self.wf(),
                    -4 <= q <= 4,
                    -4 <= r <= 5,
                    target == moves(self@),
                    out@.map_values(|p: HexPosition| p@) + moves_from(self@.occ, q as int, r as int)
                        == target,
                decreases 5 - r,
            {
                let pos = HexPosition::from_axial(q, r);
                if self.map.could_contain(&pos) && !self.map.contains(&pos) {
                    let ghost before = out@;
                    out.push(pos);
                    proof {
                        assert(out@.map_values(|p: HexPosition| p@) =~= before.map_values(
                            |p: HexPosition| p@,
                        ).push(pos@));
                        assert(before.map_values(|p: HexPosition| p@).push(pos@) + moves_from(
                            self@.occ,
                            q as int,
                            r as int + 1,
                        ) =~= before.map_values(|p: HexPosition| p@) + (seq![pos@] + moves_from(
                            self@.occ,
                            q as int,
                            r as int + 1,
                        )));
                    }
                } else {
                    proof {
                        assert(moves_from(self@.occ, q as int, r as int) == Seq::<(int, int)>::empty()
                            + moves_from(self@.occ, q as int, r as int + 1));
                        assert(Seq::<(int, int)>::empty() + moves_from(self@.occ, q as int, r as int + 1)
                            =~= moves_from(self@.occ, q as int, r as int + 1));
                    }
                }
                r = r + 1;
            }
            q = q + 1;
        }
        out
    }

    /// The position that results from playing `pos` on a copy of this one;
    /// an illegal move returns an unchanged copy.
    pub fn with_move(&self, pos: &HexPosition) -> (st: GameState)
        requires
            self.wf(),
        ensures
            st.wf(),
            in_board_c(pos@) && !self@.occ.dom().contains(pos@) ==> st@ == apply_model(
                self@,
                pos@,
            ) && st.stone_count() == self.stone_count() + 1,
            !(in_board_c(pos@) && !self@.occ.dom().contains(pos@)) ==> st@ == self@
                && st.stone_count() == self.stone_count(),
    {
        let mut st = GameState {
            current_player: self.current_player,
            map: self.map.duplicate(),
            last_move: self.last_move,
        };
        proof {
            assert(st.map.as_map() =~= self.map.as_map());
            assert(st@ == self@);
        }
        let _ = st.make_move(pos);
        st
    }
}

/// One axis's contribution to the verdict, as executable code.
fn axis_apply(st: Option<Player>, run: u32, p: Player) -> (out: Option<Player>)
    ensures
        out == axis_update(st, run as int, p),
{
    if st.is_none() && run == 3 {
        Some(p.inverse())
    } else if run == 4 || run == 5 {
        Some(p)
    } else {
        st
    }
}

/// Every cell in the move list lies on the board and is free.
pub proof fn lemma_moves_from_elems(occ: Map<(int, int), Player>, q: int, r: int)
    requires
        -4 <= q <= 5,
        -4 <= r <= 5,
    ensures
        forall|i: int|
            0 <= i < moves_from(occ, q, r).len() ==> in_board_c(
                #[trigger] moves_from(occ, q, r)[i],
            ) && !occ.dom().contains(moves_from(occ, q, r)[i]),
    decreases (5 - q) * 10 + (5 - r),
{
    if q > 4 {
        assert(moves_from(occ, q, r).len() == 0);
    } else if r > 4 {
        lemma_moves_from_elems(occ, q + 1, -4);
        assert(moves_from(occ, q, r) == moves_from(occ, q + 1, -4));
    } else {
        lemma_moves_from_elems(occ, q, r + 1);
        let rest = moves_from(occ, q, r + 1);
        let s = moves_from(occ, q, r);
        if in_board_c((q, r)) && !occ.dom().contains((q, r)) {
            assert(s == seq![(q, r)] + rest);
            assert(s.len() == 1 + rest.len());
            assert forall|i: int| 0 <= i < s.len() implies in_board_c(#[trigger] s[i])
                && !occ.dom().contains(s[i]) by {
                if i == 0 {
                    assert(s[i] == (q, r));
                } else {
                    assert(s[i] == rest[i - 1]);
                }
            }
        } else {
            assert(s == Seq::<(int, int)>::empty() + rest);
            assert(s.len() == rest.len());
            assert forall|i: int| 0 <= i < s.len() implies in_board_c(#[trigger] s[i])
                && !occ.dom().contains(s[i]) by {
                assert(s[i] == rest[i]);
            }
        }
    }
}

/// Every free board cell at or beyond `(q, r)` in scan order appears in
/// the move list.
pub proof fn lemma_moves_from_contains(occ: Map<(int, int), Player>, q: int, r: int, c: (int, int))
    requires
        -4 <= q <= 5,
        -4 <= r <= 5,
        in_board_c(c),
        !occ.dom().contains(c),
        c.0 > q || (c.0 == q && c.1 >= r),
    ensures
        moves_from(occ, q, r).contains(c),
    decreases (5 - q) * 10 + (5 - r),
{
    if q > 4 {
        assert(false);
    } else if r > 4 {
        lemma_moves_from_contains(occ, q + 1, -4, c);
    } else if c == (q, r) {
        assert(moves_from(occ, q, r)[0] == c);
    } else {
        lemma_moves_from_contains(occ, q, r + 1, c);
        let rest = moves_from(occ, q, r + 1);
        let j = choose|j: int| 0 <= j < rest.len() && rest[j] == c;
        let head = if in_board_c((q, r)) && !occ.dom().contains((q, r)) {
            seq![(q, r)]
        } else {
            Seq::<(int, int)>::empty()
        };
        assert(moves_from(occ, q, r)[head.len() + j] == c);
    }
}

/// A position that is not full has at least one legal move.
pub proof fn lemma_moves_nonempty(m: Model)
    requires
        !full(m),
    ensures
        moves(m).len() > 0,
{
    let c = choose|c: (int, int)| in_board_c(c) && !m.occ.dom().contains(c);
    lemma_moves_from_contains(m.occ, -4, -4, c);
}

/// A position with every board cell occupied is reported as a draw, no
/// matter what runs the last move completed.
pub proof fn lemma_full_board_drawn(m: Model)
    requires
        full(m),
    ensures
        status_spec(m) == MoveResult::Tie,
{
}

proof fn lemma_count_of_all_none(s: Seq<Option<Player>>, p: Player, n: nat)
    requires
        n <= s.len(),
        forall|j: int| 0 <= j < n ==> s[j] is None,
    ensures
        count_of(s, p, n) == 0,
    decreases n,
{
    if n > 0 {
        lemma_count_of_all_none(s, p, (n - 1) as nat);
    }
}

} // verus!

