use vstd::prelude::*;
use crate::hex::{HexPosition, in_board_c};
use crate::Player;

verus! {

/// Number of slots in the bounding box of the radius-4 board
/// (coordinates `-4..=4` in each axis).
pub const SLOT_COUNT: usize = 81;

/// Number of cells that actually lie on the radius-4 board.
pub const CELL_COUNT: usize = 61;

/// The storage slot of board cell `c` inside the 9-by-9 bounding box.
pub open spec fn slot_of(c: (int, int)) -> int {
    (c.0 + 4) * 9 + (c.1 + 4)
}

/// The axial coordinates stored at slot `i`.
pub open spec fn coords_of(i: int) -> (int, int) {
    (i / 9 - 4, i % 9 - 4)
}

/// How many of the first `n` slots hold a stone.
pub open spec fn count_occ(s: Seq<Option<Player>>, n: nat) -> int
    decreases n,
{
    if n == 0 {
        0
    } else {
        count_occ(s, (n - 1) as nat) + if s[n - 1] is Some {
            1int
        } else {
            0int
        }
    }
}

/// How many of the first `n` slots hold a stone of player `p`.
pub open spec fn count_of(s: Seq<Option<Player>>, p: Player, n: nat) -> int
    decreases n,
{
    if n == 0 {
        0
    } else {
        count_of(s, p, (n - 1) as nat) + if s[n - 1] == Some(p) {
            1int
        } else {
            0int
        }
    }
}

/// The placement map of the game: which board cell is occupied by which
/// player. Stones are stored in a fixed array of 81 slots covering the
/// bounding box of the 61-cell board.
#[derive(Clone)]
pub struct Board {
    pub cells: Vec<Option<Player>>,
    pub stones: usize,
}

impl Board {
    /// Structural invariant: 81 slots, a stone count that matches the
    /// contents, and no stone outside the board shape.
    pub open spec fn wf(self) -> bool {
        &&& self.cells@.len() == 81
        &&& self.stones as int == count_occ(self.cells@, 81)
        &&& forall|i: int|
            0 <= i < 81 && !in_board_c(coords_of(i)) ==> self.cells@[i] is None
    }

    /// The occupant of cell `c`, `None` off the board.
    pub open spec fn occ_at(self, c: (int, int)) -> Option<Player> {
        if in_board_c(c) && self.cells@.len() == 81 {
            self.cells@[slot_of(c)]
        } else {
            None
        }
    }

    /// The number of stones on the board.
    pub open spec fn stone_count(self) -> int {
        self.stones as int
    }

    /// The occupancy as a mathematical map from coordinates to players.
    pub open spec fn as_map(self) -> Map<(int, int), Player> {
        Map::new(|c: (int, int)| self.occ_at(c) is Some, |c: (int, int)| self.occ_at(c)->0)
    }

    /// The raw slot sequence; used only by the proofs in this crate.
    pub open spec fn slots(self) -> Seq<Option<Player>> {
        self.cells@
    }

    /// An empty board.
    pub fn new() -> (b: Board)
        ensures
            b.wf(),
            b.stone_count() == 0,
            forall|c: (int, int)| b.occ_at(c) is None,
            forall|j: int| 0 <= j < 81 ==> b.slots()[j] is None,
    {
        let mut cells: Vec<Option<Player>> = Vec::new();
        let mut i: usize = 0;
        while i < SLOT_COUNT
            invariant
                cells@.len() == i,
                i <= 81,
                forall|j: int| 0 <= j < i ==> cells@[j] is None,
            decreases 81 - i,
        {
            cells.push(None);
            i = i + 1;
        }
        proof {
            lemma_count_occ_all_none(cells@, 81);
        }
        Board { cells, stones: 0 }
    }

    /// Whether `c` is a cell of the board shape, occupied or not.
    pub fn could_contain(&self, pos: &HexPosition) -> (b: bool)
        ensures
            b == in_board_c(pos@),
    {
        pos.is_on_board()
    }

    /// Whether `c` is occupied.
    pub fn contains(&self, pos: &HexPosition) -> (b: bool)
        requires
            self.wf(),
        ensures
            b == (self.occ_at(pos@) is Some),
    {
        self.get(pos).is_some()
    }

    /// The occupant of `pos`, if any.
    pub fn get(&self, pos: &HexPosition) -> (o: Option<Player>)
        requires
            self.wf(),
        ensures
            o == self.occ_at(pos@),
    {
        if pos.is_on_board() {
            let (q, r) = pos.as_axial();
            let idx: usize = ((q + 4) * 9 + (r + 4)) as usize;
            self.cells[idx]
        } else {
            None
        }
    }

    /// Places `p`'s stone on the free board cell `pos`.
    pub fn insert(&mut self, pos: &HexPosition, p: Player)
        requires
            old(self).wf(),
            in_board_c(pos@),
            old(self).occ_at(pos@) is None,
        ensures
            final(self).wf(),
            final(self).occ_at(pos@) == Some(p),
            forall|c: (int, int)| c != pos@ ==> final(self).occ_at(c) == old(self).occ_at(c),
            final(self).stone_count() == old(self).stone_count() + 1,
            forall|pl: Player|
                count_of(final(self).slots(), pl, 81) == count_of(old(self).slots(), pl, 81)
                    + if pl == p {
                    1int
                } else {
                    0int
                },
    {
        let (q, r) = pos.as_axial();
        let idx: usize = ((q + 4) * 9 + (r + 4)) as usize;
        proof {
            lemma_slot_coords(pos@);
            lemma_count_occ_le(self.cells@, 81);
            lemma_count_occ_update(self.cells@, idx as int, Some(p), 81);
            assert forall|pl: Player| true implies count_of(
                self.cells@.update(idx as int, Some(p)),
                pl,
                81,
            ) == count_of(self.cells@, pl, 81) + (if pl == p {
                1int
            } else {
                0int
            }) by {
                lemma_count_of_update(self.cells@, pl, idx as int, Some(p), 81);
            }
        }
        self.cells.set(idx, Some(p));
        self.stones = self.stones + 1;
        proof {
            assert forall|c: (int, int)| c != pos@ implies self.occ_at(c) == old(self).occ_at(
                c,
            ) by {
                if in_board_c(c) {
                    lemma_slot_injective(c, pos@);
                }
            }
        }
    }

    /// Whether every board cell is occupied.
    pub fn is_full(&self) -> (b: bool)
        requires
            self.wf(),
        ensures
            b == (self.stone_count() == 61),
            b == (forall|c: (int, int)| in_board_c(c) ==> self.occ_at(c) is Some),
    {
        proof {
            lemma_full_iff_count(*self);
        }
        self.stones == CELL_COUNT
    }

    /// The number of stones on the board.
    pub fn len(&self) -> (n: usize)
        ensures
            n as int == self.stone_count(),
    {
        self.stones
    }

    /// An independent copy of this board.
    pub fn duplicate(&self) -> (b: Board)
        ensures
            b.cells@ == self.cells@,
            b.stones == self.stones,
    {
        let mut cells: Vec<Option<Player>> = Vec::new();
        let mut i: usize = 0;
        while i < self.cells.len()
            invariant
                cells@.len() == i,
                i <= self.cells@.len(),
                forall|j: int| 0 <= j < i ==> cells@[j] == self.cells@[j],
            decreases self.cells@.len() - i,
        {
            cells.push(self.cells[i]);
            i = i + 1;
        }
        proof {
            assert(cells@ =~= self.cells@);
        }
        Board { cells, stones: self.stones }
    }

    /// The number of consecutive cells occupied by `p` strictly beyond
    /// `start` in direction `d`.
    pub fn count_run(&self, start: &HexPosition, d: usize, p: Player) -> (n: u32)
        requires
            self.wf(),
            in_board_c(start@),
            d < 6,
        ensures
            n as int == crate::run_dir(self.as_map(), p, start@, d as int, 10),
            n <= 8,
    {
        let mut cur: HexPosition = *start;
        let mut cnt: u32 = 0;
        loop
            invariant
                self.wf(),
                in_board_c(start@),
                in_board_c(cur@),
                d < 6,
                cnt <= 8,
                crate::hex::dir_offset(d as int).0 == 1 ==> cur@.0 == start@.0 + cnt,
                crate::hex::dir_offset(d as int).0 == -1 ==> cur@.0 == start@.0 - cnt,
                crate::hex::dir_offset(d as int).0 == 0 ==> (crate::hex::dir_offset(d as int).1
                    == 1 ==> cur@.1 == start@.1 + cnt) && (crate::hex::dir_offset(d as int).1 == -1
                    ==> cur@.1 == start@.1 - cnt),
                crate::run_dir(self.as_map(), p, start@, d as int, 10) == cnt + crate::run_dir(
                    self.as_map(),
                    p,
                    cur@,
                    d as int,
                    (10 - cnt) as nat,
                ),
            decreases 10 - cnt,
        {
            let nxt = cur.neighbor(d);
            let o = self.get(&nxt);
            if o.is_some() && o.unwrap() == p {
                cnt = cnt + 1;
                cur = nxt;
            } else {
                return cnt;
            }
        }
    }
}

/// Slots determine coordinates: on the board, `coords_of` undoes `slot_of`.
pub proof fn lemma_slot_coords(c: (int, int))
    requires
        in_board_c(c),
    ensures
        0 <= slot_of(c) < 81,
        coords_of(slot_of(c)) == c,
{
    let i = slot_of(c);
    vstd::arithmetic::div_mod::lemma_fundamental_div_mod_converse(i, 9, c.0 + 4, c.1 + 4);
}

/// Distinct board cells use distinct slots.
pub proof fn lemma_slot_injective(a: (int, int), b: (int, int))
    requires
        in_board_c(a),
        in_board_c(b),
        a != b,
    ensures
        slot_of(a) != slot_of(b),
{
    lemma_slot_coords(a);
    lemma_slot_coords(b);
}

proof fn lemma_count_occ_all_none(s: Seq<Option<Player>>, n: nat)
    requires
        n <= s.len(),
        forall|j: int| 0 <= j < n ==> s[j] is None,
    ensures
        count_occ(s, n) == 0,
    decreases n,
{
    if n > 0 {
        lemma_count_occ_all_none(s, (n - 1) as nat);
    }
}

/// The stone count never exceeds the number of slots looked at.
proof fn lemma_count_occ_le(s: Seq<Option<Player>>, n: nat)
    ensures
        0 <= count_occ(s, n) <= n,
    decreases n,
{
    if n > 0 {
        lemma_count_occ_le(s, (n - 1) as nat);
    }
}

proof fn lemma_count_occ_update(s: Seq<Option<Player>>, i: int, v: Option<Player>, n: nat)
    requires
        0 <= i < n,
        n <= s.len(),
        s[i] is None,
        v is Some,
    ensures
        count_occ(s.update(i, v), n) == count_occ(s, n) + 1,
    decreases n,
{
    if n > 0 {
        if i == n - 1 {
            lemma_count_occ_same(s.update(i, v), s, (n - 1) as nat);
        } else {
            lemma_count_occ_update(s, i, v, (n - 1) as nat);
        }
    }
}

proof fn lemma_count_occ_same(a: Seq<Option<Player>>, b: Seq<Option<Player>>, n: nat)
    requires
        n <= a.len(),
        n <= b.len(),
        forall|j: int| 0 <= j < n ==> a[j] == b[j],
    ensures
        count_occ(a, n) == count_occ(b, n),
    decreases n,
{
    if n > 0 {
        lemma_count_occ_same(a, b, (n - 1) as nat);
    }
}

proof fn lemma_count_of_update(s: Seq<Option<Player>>, q: Player, i: int, v: Option<Player>, n: nat)
    requires
        0 <= i < n,
        n <= s.len(),
        s[i] is None,
        v is Some,
    ensures
        count_of(s.update(i, v), q, n) == count_of(s, q, n) + if v == Some(q) {
            1int
        } else {
            0int
        },
    decreases n,
{
    if n > 0 {
        if i == n - 1 {
            lemma_count_of_same(s.update(i, v), s, q, (n - 1) as nat);
        } else {
            lemma_count_of_update(s, q, i, v, (n - 1) as nat);
        }
    }
}

proof fn lemma_count_of_same(a: Seq<Option<Player>>, b: Seq<Option<Player>>, q: Player, n: nat)
    requires
        n <= a.len(),
        n <= b.len(),
        forall|j: int| 0 <= j < n ==> a[j] == b[j],
    ensures
        count_of(a, q, n) == count_of(b, q, n),
    decreases n,
{
    if n > 0 {
        lemma_count_of_same(a, b, q, (n - 1) as nat);
    }
}

/// How many of the first `n` slots belong to the board shape.
pub open spec fn count_board_slots(n: nat) -> int
    decreases n,
{
    if n == 0 {
        0
    } else {
        count_board_slots((n - 1) as nat) + if in_board_c(coords_of(n - 1)) {
            1int
        } else {
            0int
        }
    }
}

/// Counting stones slot by slot never beats counting board slots, and the
/// two agree exactly when every board cell is occupied.
proof fn lemma_count_occ_vs_board(b: Board, n: nat)
    requires
        b.wf(),
        n <= 81,
    ensures
        count_occ(b.slots(), n) <= count_board_slots(n),
        (forall|c: (int, int)| in_board_c(c) ==> b.occ_at(c) is Some) ==> count_occ(b.slots(), n)
            == count_board_slots(n),
    decreases n,
{
    if n > 0 {
        lemma_count_occ_vs_board(b, (n - 1) as nat);
        let i = n - 1;
        if in_board_c(coords_of(i)) {
            lemma_slot_coords(coords_of(i));
        }
    }
}

/// Evaluates the board-slot count: 61 of the 81 bounding-box slots lie on
/// the board.
#[verifier::rlimit(100)]
proof fn lemma_board_slot_total()
    ensures
        count_board_slots(81) == 61,
{
    reveal_with_fuel(count_board_slots, 28);
    assert(count_board_slots(27) == 18);
    assert(count_board_slots(54) == 43);
    assert(count_board_slots(81) == 61);
}

/// A full board is exactly a board with 61 stones.
proof fn lemma_full_iff_count(b: Board)
    requires
        b.wf(),
    ensures
        (b.stone_count() == 61) == (forall|c: (int, int)|
            in_board_c(c) ==> b.occ_at(c) is Some),
{
    lemma_board_slot_total();
    lemma_count_occ_vs_board(b, 81);
    if b.stone_count() == 61 {
        assert forall|c: (int, int)| in_board_c(c) implies b.occ_at(c) is Some by {
            if b.occ_at(c) is None {
                lemma_slot_coords(c);
                lemma_count_occ_missing(b.slots(), slot_of(c), 81);
            }
        }
    }
}

/// If one looked-at board slot is empty, the count stays below the
/// board-slot total.
proof fn lemma_count_occ_missing(s: Seq<Option<Player>>, i: int, n: nat)
    requires
        0 <= i < n,
        s.len() == 81,
        n <= 81,
        s[i] is None,
        in_board_c(coords_of(i)),
        forall|j: int| 0 <= j < 81 && !in_board_c(coords_of(j)) ==> s[j] is None,
    ensures
        count_occ(s, n) < count_board_slots(n),
    decreases n,
{
    if i == n - 1 {
        lemma_count_occ_boardslots_le(s, (n - 1) as nat);
    } else {
        lemma_count_occ_missing(s, i, (n - 1) as nat);
    }
}

/// Slot-by-slot, occupied slots are board slots, so the stone count is
/// bounded by the board-slot count.
proof fn lemma_count_occ_boardslots_le(s: Seq<Option<Player>>, n: nat)
    requires
        s.len() == 81,
        n <= 81,
        forall|j: int| 0 <= j < 81 && !in_board_c(coords_of(j)) ==> s[j] is None,
    ensures
        count_occ(s, n) <= count_board_slots(n),
    decreases n,
{
    if n > 0 {
        lemma_count_occ_boardslots_le(s, (n - 1) as nat);
    }
}

} // verus!
