//! Board representation and the rules of Kalah-style Mancala.
//!
//! # Layout
//!
//! The board is stored as a flat array whose first `2 * pits_per_side + 2`
//! cells are in use:
//!
//! ```text
//! index:  0 .. N-1      N        N+1 .. 2N     2N+1
//!        [ P0 pits ] [P0 store] [ P1 pits ]  [P1 store]
//! ```
//!
//! Seeds are sown counterclockwise (increasing index, wrapping around),
//! skipping the *opponent's* store. A cell is a `u8`, which is sufficient as
//! long as the total number of seeds fits in a `u8`; [`Board::new`] rejects
//! boards that would overflow.
//!
//! Contracts speak of a board as one of the players sees it
//! ([`Board::seen_by`]); the meaning of a move is defined in [`crate::model`].

use vstd::prelude::*;

use crate::model;
use crate::text;
use crate::value;

verus! {

/// Maximum number of board cells (`2 * pits_per_side + 2`). Boards are stored in
/// a fixed-size array so positions are cheap to copy during search.
pub const MAX_CELLS: usize = 32;

/// Maximum pits per side, derived from [`MAX_CELLS`].
pub const MAX_PITS: usize = 15;

/// Maximum number of seeds on a board.
pub const MAX_SEEDS: u32 = 255;

/// The two players. `P0` is conventionally rendered as the South (bottom) side,
/// `P1` as the North (top) side.
#[derive(Clone, Copy, Debug, PartialEq, Eq, Hash, Structural)]
pub enum Player {
    P0,
    P1,
}

impl Player {
    /// The opposing player.
    pub open spec fn opponent(self) -> Player {
        match self {
            Player::P0 => Player::P1,
            Player::P1 => Player::P0,
        }
    }

    /// The opposing player.
    pub fn other(self) -> (p: Player)
        ensures
            p == self.opponent(),
            p != self,
    {
        match self {
            Player::P0 => Player::P1,
            Player::P1 => Player::P0,
        }
    }

    /// The name under which a player is shown.
    pub open spec fn label_text(self) -> Seq<char> {
        match self {
            Player::P0 => "P0 (South)"@,
            Player::P1 => "P1 (North)"@,
        }
    }

    /// The name under which a player is shown.
    pub fn label(self) -> (t: &'static str)
        ensures
            t@ == self.label_text(),
            self is P0 ==> t@ == "P0 (South)"@,
            self is P1 ==> t@ == "P1 (North)"@,
    {
        match self {
            Player::P0 => "P0 (South)",
            Player::P1 => "P1 (North)",
        }
    }
}

/// Tunable rule options for the Kalah variant.
#[derive(Clone, Copy, Debug, PartialEq, Eq, Structural)]
pub struct Rules {
    /// If `true`, a capture only happens when the *opposite* pit is non-empty.
    /// If `false`, landing the last seed in one of your own previously-empty
    /// pits always captures (you take at least your own seed).
    pub capture_requires_nonempty_opposite: bool,
}

impl Default for Rules {
    fn default() -> (rules: Self)
        ensures
            rules.capture_requires_nonempty_opposite,
    {
        Rules { capture_requires_nonempty_opposite: true }
    }
}

/// The result of applying a move.
#[derive(Clone, Copy, Debug)]
pub struct MoveResult {
    /// The resulting board, with `turn` already updated.
    pub board: Board,
    /// Whether the move granted an extra turn (last seed landed in own store),
    /// in which case the turn is unchanged from the mover.
    pub extra_turn: bool,
    /// Whether the move performed a capture.
    pub captured: bool,
}

/// A Mancala position: the seed counts, the board size, and the side to move.
///
/// `cells` is a fixed-size array; only the first `2 * pits_per_side + 2` entries
/// are meaningful and the remainder are kept zero.
#[derive(Clone, Copy, Debug, PartialEq, Eq, Hash)]
pub struct Board {
    pits_per_side: usize,
    cells: [u8; 32],
    turn: Player,
}

/// Byte counts as integers.
pub open spec fn ints(cells: Seq<u8>) -> Seq<int> {
    cells.map_values(|c: u8| c as int)
}

/// Why cell counts do not make a board, if they do not.
pub open spec fn board_error(pits_per_side: int, cells: Seq<int>) -> Option<Seq<char>> {
    if pits_per_side == 0 {
        Some("pits_per_side must be at least 1"@)
    } else if pits_per_side > MAX_PITS {
        Some(
            "pits_per_side "@ + text::decimal(pits_per_side)
                + " exceeds the supported maximum of "@ + text::decimal(MAX_PITS as int),
        )
    } else if cells.len() != 2 * pits_per_side + 2 {
        Some(
            "expected "@ + text::decimal(2 * pits_per_side + 2) + " cells for a board with "@
                + text::decimal(pits_per_side) + " pits per side, got "@ + text::decimal(
                cells.len() as int,
            ),
        )
    } else if model::total(cells) > MAX_SEEDS {
        Some(
            "total seed count "@ + text::decimal(model::total(cells))
                + " exceeds the supported maximum of "@ + text::decimal(MAX_SEEDS as int),
        )
    } else {
        None
    }
}

/// The cells of the standard opening: `seeds` in every pit, nothing in a store.
pub open spec fn opening_cells(pits_per_side: int, seeds: int) -> Seq<int> {
    Seq::new(
        (2 * pits_per_side + 2) as nat,
        |r: int|
            if r == pits_per_side || r == 2 * pits_per_side + 1 {
                0
            } else {
                seeds
            },
    )
}

/// Board index of the cell that player `p` sees at index `r`.
pub open spec fn global_index(n: int, p: Player, r: int) -> int {
    match p {
        Player::P0 => r,
        Player::P1 => if r <= n {
            r + n + 1
        } else {
            r - n - 1
        },
    }
}

/// Index `g` on a ring of `total` cells that it exceeds by at most one.
spec fn wrap(g: int, total: int) -> int {
    if g == total {
        0
    } else {
        g
    }
}

/// An array of cells as player `p` sees it.
spec fn seen(cells: Seq<u8>, n: int, p: Player) -> Seq<int> {
    Seq::new((2 * n + 2) as nat, |r: int| cells[global_index(n, p, r)] as int)
}

/// A position and the player who is to move, who sees it so: what a board tells.
pub struct Seat {
    pub mover: Player,
    pub pos: Seq<int>,
}

impl Seat {
    /// After pit `i` is played.
    pub open spec fn moved(self, rules: Rules, i: int) -> Seat {
        Seat {
            mover: if model::extra_turn(self.pos, i) {
                self.mover
            } else {
                self.mover.opponent()
            },
            pos: model::after(rules, self.pos, i),
        }
    }
}

/// After a line of moves.
pub open spec fn seat_after(rules: Rules, at: Seat, line: Seq<usize>) -> Seat
    decreases line.len(),
{
    if line.len() == 0 {
        at
    } else {
        seat_after(rules, at, line.drop_last()).moved(rules, line.last() as int)
    }
}

impl Board {
    /// Pits per side.
    pub closed spec fn pits(&self) -> int {
        self.pits_per_side as int
    }

    /// The seed counts in board order.
    pub closed spec fn counts(&self) -> Seq<int> {
        Seq::new((2 * self.pits_per_side + 2) as nat, |r: int| self.cells[r] as int)
    }

    /// The side to move.
    pub closed spec fn mover(&self) -> Player {
        self.turn
    }

    /// The position as player `p` sees it: own pits, own store, the other
    /// player's pits, the other player's store.
    pub open spec fn seen_by(&self, p: Player) -> Seq<int> {
        match p {
            Player::P0 => self.counts(),
            Player::P1 => model::flip(self.counts()),
        }
    }

    /// The position as the player to move sees it.
    pub open spec fn pos(&self) -> Seq<int> {
        self.seen_by(self.mover())
    }

    /// The position and the side to move.
    pub open spec fn seat(&self) -> Seat {
        Seat { mover: self.mover(), pos: self.pos() }
    }

    /// The cells beyond the board are empty.
    pub closed spec fn padded(&self) -> bool {
        forall|r: int| 2 * self.pits_per_side + 2 <= r < MAX_CELLS ==> #[trigger] self.cells[r] == 0
    }

    /// Every board has a supported size and a supported number of seeds.
    #[verifier::type_invariant]
    pub open spec fn wf(&self) -> bool {
        &&& 1 <= self.pits() <= MAX_PITS
        &&& self.counts().len() == 2 * self.pits() + 2
        &&& forall|r: int| 0 <= r < self.counts().len() ==> 0 <= #[trigger] self.counts()[r]
        &&& model::total(self.counts()) <= MAX_SEEDS
        &&& self.padded()
    }

    /// What every board is, as seen by either player.
    pub proof fn lemma_seen(&self)
        requires
            self.wf(),
        ensures
            forall|p: Player|
                {
                    let s = #[trigger] self.seen_by(p);
                    &&& model::valid(s)
                    &&& model::pits(s) == self.pits()
                    &&& s.len() == 2 * self.pits() + 2
                    &&& model::total(s) == model::total(self.counts())
                    &&& model::total(s) <= MAX_SEEDS
                },
            self.seen_by(Player::P1) == model::flip(self.seen_by(Player::P0)),
            self.seen_by(Player::P0) == model::flip(self.seen_by(Player::P1)),
            forall|p: Player, r: int|
                0 <= r < 2 * self.pits() + 2 ==> #[trigger] self.seen_by(p)[r]
                    == self.counts()[global_index(self.pits(), p, r)],
    {
        assert(model::valid(self.counts()));
        model::lemma_flip(self.counts());
    }

    /// Two boards that agree on size, mover and what the mover sees are equal.
    pub proof fn lemma_same(a: Board, b: Board)
        requires
            a.wf(),
            b.wf(),
            a.mover() == b.mover(),
            a.pos() == b.pos(),
        ensures
            a == b,
    {
        a.lemma_seen();
        b.lemma_seen();
        assert(a.pits() == b.pits());
        assert(a.counts() == b.counts());
        assert(a.cells@ =~= b.cells@) by {
            assert forall|r: int| 0 <= r < 32 implies a.cells@[r] == b.cells@[r] by {
                if r < 2 * a.pits_per_side + 2 {
                    assert(a.counts()[r] == b.counts()[r]);
                } else {
                    assert(a.cells[r] == 0);
                    assert(b.cells[r] == 0);
                }
            }
        }
        assert(a.cells =~= b.cells);
    }

    /// Build a board from explicit cell counts.
    ///
    /// `cells` must have length `2 * pits_per_side + 2`, `pits_per_side` must be
    /// in `1..=MAX_PITS`, and the total number of seeds must fit in a `u8`
    /// (at most 255). Returns an error otherwise.
    pub fn new(pits_per_side: usize, cells: Vec<u8>, turn: Player) -> (res: Result<Board, String>)
        ensures
            match res {
                Ok(b) => {
                    &&& board_error(pits_per_side as int, ints(cells@)) is None
                    &&& b.wf()
                    &&& b.pits() == pits_per_side
                    &&& b.counts() == ints(cells@)
                    &&& b.mover() == turn
                },
                Err(e) => board_error(pits_per_side as int, ints(cells@)) == Some(e@),
            },
            res is Ok <==> 1 <= pits_per_side <= 15 && cells@.len() == 2 * pits_per_side + 2
                && model::total(ints(cells@)) <= 255,
    {
        if pits_per_side == 0 {
            return Err(String::from_str("pits_per_side must be at least 1"));
        }
        if pits_per_side > MAX_PITS {
            let mut e = String::from_str("pits_per_side ");
            text::push_decimal(&mut e, pits_per_side as u64);
            e.append(" exceeds the supported maximum of ");
            text::push_decimal(&mut e, MAX_PITS as u64);
            return Err(e);
        }
        let expected: usize = 2 * pits_per_side + 2;
        if cells.len() != expected {
            let mut e = String::from_str("expected ");
            text::push_decimal(&mut e, expected as u64);
            e.append(" cells for a board with ");
            text::push_decimal(&mut e, pits_per_side as u64);
            e.append(" pits per side, got ");
            text::push_decimal(&mut e, cells.len() as u64);
            return Err(e);
        }
        let ghost all = ints(cells@);
        let mut sum: u32 = 0;
        let mut buf: [u8; 32] = [0u8;32];
        let mut i: usize = 0;
        while i < expected
            invariant
                expected == cells@.len(),
                expected <= 32,
                i <= expected,
                all == ints(cells@),
                sum == model::total(all.take(i as int)),
                sum <= 255 * i,
                forall|r: int| 0 <= r < i ==> #[trigger] buf[r] == cells@[r],
                forall|r: int| i <= r < 32 ==> #[trigger] buf[r] == 0,
            decreases expected - i,
        {
            sum = sum + cells[i] as u32;
            buf[i] = cells[i];
            proof {
                assert(all.take(i + 1).drop_last() =~= all.take(i as int));
            }
            i = i + 1;
        }
        assert(all.take(expected as int) =~= all);
        if sum > MAX_SEEDS {
            let mut e = String::from_str("total seed count ");
            text::push_decimal(&mut e, sum as u64);
            e.append(" exceeds the supported maximum of ");
            text::push_decimal(&mut e, MAX_SEEDS as u64);
            return Err(e);
        }
        proof {
            let b = Board { pits_per_side, cells: buf, turn };
            assert(b.counts() =~= all);
        }
        Ok(Board { pits_per_side, cells: buf, turn })
    }

    /// The standard opening position: every pit holds `seeds_per_pit` seeds,
    /// both stores empty.
    pub fn start(pits_per_side: usize, seeds_per_pit: u8, turn: Player) -> (res: Result<
        Board,
        String,
    >)
        ensures
            match res {
                Ok(b) => {
                    &&& board_error(
                        pits_per_side as int,
                        opening_cells(pits_per_side as int, seeds_per_pit as int),
                    ) is None
                    &&& b.wf()
                    &&& b.pits() == pits_per_side
                    &&& b.counts() == opening_cells(pits_per_side as int, seeds_per_pit as int)
                    &&& b.mover() == turn
                },
                Err(e) => board_error(
                    pits_per_side as int,
                    opening_cells(pits_per_side as int, seeds_per_pit as int),
                ) == Some(e@),
            },
            res is Ok <==> 1 <= pits_per_side <= 15 && 2 * pits_per_side * seeds_per_pit <= 255,
            res matches Ok(b) ==> {
                &&& b.counts().len() == 2 * pits_per_side + 2
                &&& forall|r: int|
                    0 <= r < b.counts().len() ==> #[trigger] b.counts()[r] == if r % (pits_per_side
                        + 1) == pits_per_side {
                        0
                    } else {
                        seeds_per_pit as int
                    }
            },
    {
        proof {
            if pits_per_side >= 1 {
                lemma_opening(pits_per_side as int, seeds_per_pit as int);
            }
        }
        if pits_per_side == 0 || pits_per_side > MAX_PITS {
            return Board::new(pits_per_side, Vec::new(), turn);
        }
        let n: usize = pits_per_side;
        let mut cells: Vec<u8> = vec![seeds_per_pit; 2 * n + 2];
        cells[n] = 0;
        cells[2 * n + 1] = 0;
        assert(ints(cells@) =~= opening_cells(n as int, seeds_per_pit as int));
        Board::new(n, cells, turn)
    }

    /// Number of pits on each side.
    pub fn pits_per_side(&self) -> (n: usize)
        ensures
            n == self.pits(),
            1 <= n <= MAX_PITS,
    {
        proof {
            use_type_invariant(self);
        }
        self.pits_per_side
    }

    /// The side to move.
    pub fn turn(&self) -> (p: Player)
        ensures
            p == self.mover(),
    {
        self.turn
    }

    /// Raw cell counts (see the module docs for the layout).
    pub fn cells(&self) -> (cells: &[u8])
        ensures
            ints(cells@) == self.counts(),
            cells@.len() == 2 * self.pits() + 2,
    {
        proof {
            use_type_invariant(self);
        }
        let all: &[u8] = self.cells.as_slice();
        let cells = vstd::slice::slice_subrange(all, 0, self.total_cells());
        assert(ints(cells@) =~= self.counts());
        cells
    }

    /// Total number of cells, `2 * pits_per_side + 2`.
    pub fn total_cells(&self) -> (n: usize)
        ensures
            n == 2 * self.pits() + 2,
    {
        proof {
            use_type_invariant(self);
        }
        2 * self.pits_per_side + 2
    }

    /// Global cell index of player `p`'s store.
    pub fn store_index(&self, p: Player) -> (g: usize)
        ensures
            g == global_index(self.pits(), p, self.pits()),
    {
        proof {
            use_type_invariant(self);
        }
        match p {
            Player::P0 => self.pits_per_side,
            Player::P1 => 2 * self.pits_per_side + 1,
        }
    }

    /// Global cell index of player `p`'s pit number `i` (0-based within the row).
    pub fn pit_global(&self, p: Player, i: usize) -> (g: usize)
        requires
            self.pits() + 1 + i <= usize::MAX,
        ensures
            g == match p {
                Player::P0 => i as int,
                Player::P1 => self.pits() + 1 + i,
            },
            i < self.pits() ==> g == global_index(self.pits(), p, i as int),
    {
        match p {
            Player::P0 => i,
            Player::P1 => self.pits_per_side + 1 + i,
        }
    }

    /// Seeds in player `p`'s pit number `i`.
    pub fn pit(&self, p: Player, i: usize) -> (c: u8)
        requires
            i < self.pits(),
        ensures
            c == self.seen_by(p)[i as int],
    {
        proof {
            use_type_invariant(self);
            self.lemma_seen();
        }
        self.cells[self.pit_global(p, i)]
    }

    /// Seeds currently in player `p`'s store.
    pub fn store(&self, p: Player) -> (c: u8)
        ensures
            c == model::bank(self.seen_by(p)),
    {
        proof {
            use_type_invariant(self);
            self.lemma_seen();
        }
        self.cells[self.store_index(p)]
    }

    /// Whether global index `g` is one of player `p`'s playing pits.
    fn is_own_pit(&self, p: Player, g: usize) -> (own: bool)
        ensures
            own == exists|r: int|
                0 <= r < self.pits() && g == #[trigger] global_index(self.pits(), p, r),
    {
        proof {
            use_type_invariant(self);
            let r = match p {
                Player::P0 => g as int,
                Player::P1 => g - self.pits() - 1,
            };
            assert(0 <= r < self.pits() ==> g == global_index(self.pits(), p, r));
        }
        match p {
            Player::P0 => g < self.pits_per_side,
            Player::P1 => g > self.pits_per_side && g < 2 * self.pits_per_side + 1,
        }
    }

    /// The pit directly opposite global pit index `g` (capture target).
    fn opposite(&self, g: usize) -> (o: usize)
        requires
            g <= 2 * self.pits(),
        ensures
            o == 2 * self.pits() - g,
    {
        proof {
            use_type_invariant(self);
        }
        2 * self.pits_per_side - g
    }

    /// Seeds in player `p`'s pits.
    pub fn pit_seeds(&self, p: Player) -> (sum: u32)
        ensures
            sum == model::total(model::mine(self.seen_by(p))),
            sum <= MAX_SEEDS,
    {
        proof {
            use_type_invariant(self);
            self.lemma_seen();
        }
        let ghost row = model::mine(self.seen_by(p));
        let n: usize = self.pits_per_side;
        let mut sum: u32 = 0;
        let mut i: usize = 0;
        while i < n
            invariant
                n == self.pits(),
                n <= MAX_PITS,
                i <= n,
                row == model::mine(self.seen_by(p)),
                row.len() == n,
                sum == model::total(row.take(i as int)),
                sum <= 255 * i,
            decreases n - i,
        {
            sum = sum + self.pit(p, i) as u32;
            proof {
                assert(row.take(i + 1).drop_last() =~= row.take(i as int));
            }
            i = i + 1;
        }
        proof {
            assert(row.take(n as int) =~= row);
            model::lemma_bounds(self.seen_by(p));
        }
        sum
    }

    /// Seeds in the pits of both players.
    pub fn seeds_in_play(&self) -> (sum: u32)
        ensures
            sum == model::in_play(self.pos()),
            forall|p: Player| sum == #[trigger] model::in_play(self.seen_by(p)),
            sum <= MAX_SEEDS,
    {
        let a = self.pit_seeds(Player::P0);
        let b = self.pit_seeds(Player::P1);
        proof {
            use_type_invariant(self);
            self.lemma_seen();
            model::lemma_flip(self.seen_by(Player::P0));
            model::lemma_bounds(self.seen_by(Player::P0));
        }
        a + b
    }

    /// Whether player `p`'s entire row of pits is empty.
    pub fn side_empty(&self, p: Player) -> (empty: bool)
        ensures
            empty == model::empty_row(model::mine(self.seen_by(p))),
            empty <==> forall|i: int|
                0 <= i < self.pits() ==> #[trigger] self.seen_by(p)[i] == 0,
    {
        proof {
            use_type_invariant(self);
            self.lemma_seen();
        }
        let ghost row = model::mine(self.seen_by(p));
        let n: usize = self.pits_per_side;
        let mut i: usize = 0;
        while i < n
            invariant
                n == self.pits(),
                i <= n,
                row == model::mine(self.seen_by(p)),
                row.len() == n,
                forall|r: int| 0 <= r < n ==> #[trigger] row[r] == self.seen_by(p)[r],
                forall|r: int| 0 <= r < i ==> #[trigger] row[r] == 0,
            decreases n - i,
        {
            if self.pit(p, i) != 0 {
                assert(row[i as int] != 0);
                return false;
            }
            i = i + 1;
        }
        assert forall|k: int| 0 <= k < self.pits() implies #[trigger] self.seen_by(p)[k] == 0 by {
            assert(row[k] == 0);
        }
        true
    }

    /// A position is terminal when either side has no seeds in its pits.
    pub fn is_terminal(&self) -> (terminal: bool)
        ensures
            terminal == model::over(self.pos()),
            terminal <==> (forall|i: int|
                0 <= i < self.pits() ==> #[trigger] self.seen_by(Player::P0)[i] == 0) || (forall|
                i: int,
            |
                0 <= i < self.pits() ==> #[trigger] self.seen_by(Player::P1)[i] == 0),
    {
        proof {
            use_type_invariant(self);
            self.lemma_seen();
            model::lemma_flip(self.seen_by(Player::P0));
        }
        self.side_empty(Player::P0) || self.side_empty(Player::P1)
    }

    /// Legal moves for player `p`: the indices of non-empty pits, ascending.
    pub fn legal_moves(&self, p: Player) -> (moves: Vec<usize>)
        ensures
            forall|i: usize| #[trigger]
                moves@.contains(i) <==> model::legal(self.seen_by(p), i as int),
            forall|a: int, b: int| 0 <= a < b < moves@.len() ==> moves@[a] < moves@[b],
            moves@.map_values(|m: usize| m as int) == model::legal_pits(self.seen_by(p)),
    {
        proof {
            use_type_invariant(self);
            self.lemma_seen();
        }
        let n: usize = self.pits_per_side;
        let mut moves: Vec<usize> = Vec::new();
        let mut i: usize = 0;
        assert(moves@.map_values(|m: usize| m as int) =~= Seq::<int>::empty());
        while i < n
            invariant
                n == self.pits(),
                n == model::pits(self.seen_by(p)),
                i <= n,
                forall|j: usize| #[trigger]
                    moves@.contains(j) <==> j < i && model::legal(self.seen_by(p), j as int),
                forall|a: int, b: int| 0 <= a < b < moves@.len() ==> moves@[a] < moves@[b],
                forall|a: int| 0 <= a < moves@.len() ==> #[trigger] moves@[a] < i,
                moves@.map_values(|m: usize| m as int) == model::legal_below(
                    self.seen_by(p),
                    i as int,
                ),
            decreases n - i,
        {
            let ghost before = moves@;
            if self.pit(p, i) > 0 {
                moves.push(i);
                proof {
                    assert(moves@.map_values(|m: usize| m as int) =~= before.map_values(
                        |m: usize| m as int,
                    ).push(i as int));
                    assert forall|j: usize| #[trigger] moves@.contains(j) <==> j < i + 1
                        && model::legal(self.seen_by(p), j as int) by {
                        if before.contains(j) {
                            let a = choose|a: int| 0 <= a < before.len() && before[a] == j;
                            assert(moves@[a] == j);
                        }
                        if j == i {
                            assert(moves@[before.len() as int] == i);
                        }
                        if moves@.contains(j) && j != i {
                            let a = choose|a: int| 0 <= a < moves@.len() && moves@[a] == j;
                            assert(before[a] == j);
                        }
                    }
                }
            }
            i = i + 1;
        }
        moves
    }

    /// Global index where the last seed of move `mv` (for the side to move)
    /// would land, accounting for the skipped opponent store.
    pub fn sow_landing(&self, mv: usize) -> (g: usize)
        requires
            mv < self.pits(),
        ensures
            g == global_index(self.pits(), self.mover(), model::last_cell(self.pos(), mv as int)),
            0 <= model::last_cell(self.pos(), mv as int) <= 2 * self.pits(),
    {
        proof {
            use_type_invariant(self);
            self.lemma_seen();
        }
        let p = self.turn;
        let n: usize = self.pits_per_side;
        let total = self.total_cells();
        let opp_store = self.store_index(p.other());
        let mut remaining: u8 = self.pit(p, mv);
        let mut g: usize = self.pit_global(p, mv);
        let ghost mut at = mv as int;
        let ghost goal = model::last_cell(self.pos(), mv as int);
        while remaining > 0
            invariant
                1 <= n <= MAX_PITS,
                total == 2 * n + 2,
                opp_store == global_index(n as int, p, 2 * n + 1),
                0 <= at <= 2 * n,
                g == global_index(n as int, p, at),
                model::landing(n as int, at, remaining as int) == goal,
            decreases remaining,
        {
            g = Self::next_cell(g, total, opp_store);
            proof {
                at = model::step(n as int, at);
            }
            remaining = remaining - 1;
        }
        g
    }

    /// The cell that follows `g` when sowing.
    fn next_cell(g: usize, total: usize, opp_store: usize) -> (next: usize)
        requires
            4 <= total <= MAX_CELLS,
            total % 2 == 0,
            g < total,
            opp_store == total - 1 || opp_store == total / 2 - 1,
            g != opp_store,
        ensures
            next == {
                let a = wrap(g + 1, total as int);
                if a == opp_store {
                    wrap(a + 1, total as int)
                } else {
                    a
                }
            },
            next < total,
            next != opp_store,
    {
        let mut next: usize = if g + 1 == total {
            0
        } else {
            g + 1
        };
        if next == opp_store {
            next = if next + 1 == total {
                0
            } else {
                next + 1
            };
        }
        next
    }

    /// Whether move `mv` (for the side to move) would grant an extra turn.
    pub fn grants_extra_turn(&self, mv: usize) -> (extra: bool)
        requires
            mv < self.pits(),
        ensures
            extra == model::extra_turn(self.pos(), mv as int),
            self.pos()[mv as int] > 0 ==> (extra <==> (mv + self.pos()[mv as int]) % (2 * self.pits()
                + 1) == self.pits()),
    {
        proof {
            use_type_invariant(self);
            self.lemma_seen();
            if self.pos()[mv as int] > 0 {
                model::lemma_extra_turn(self.pos(), mv as int);
            }
        }
        self.sow_landing(mv) == self.store_index(self.turn)
    }

    /// Apply `mv` (a 0-based pit index for the side to move, naming a non-empty
    /// pit) and return the resulting position.
    pub fn apply(&self, rules: &Rules, mv: usize) -> (r: MoveResult)
        requires
            model::legal(self.pos(), mv as int),
        ensures
            r.extra_turn == model::extra_turn(self.pos(), mv as int),
            r.captured == model::captures(*rules, self.pos(), mv as int),
            r.board.wf(),
            r.board.pits() == self.pits(),
            r.board.seen_by(self.mover()) == model::played(*rules, self.pos(), mv as int),
            r.board.mover() == if r.extra_turn {
                self.mover()
            } else {
                self.mover().opponent()
            },
            r.board.pos() == model::after(*rules, self.pos(), mv as int),
            r.board.seat() == self.seat().moved(*rules, mv as int),
    {
        let p = self.turn;
        let n: usize = self.pits_per_side;
        let ghost s = self.pos();
        let ghost e = model::last_cell(s, mv as int);
        proof {
            use_type_invariant(self);
            self.lemma_seen();
            model::lemma_played(*rules, s, mv as int);
        }
        let (sown, g) = self.sow_seeds(mv);
        let (cells, captured) = self.capture(rules, sown, g, Ghost(e));
        let extra_turn = g == self.store_index(p);
        let turn = if extra_turn {
            p
        } else {
            p.other()
        };
        proof {
            let done = model::played(*rules, s, mv as int);
            Self::lemma_board_seen(Board { pits_per_side: n, cells, turn }, p, done);
        }
        MoveResult { board: Board { pits_per_side: n, cells, turn }, extra_turn, captured }
    }

    /// Carry out the capture, if there is one, after the mover's last seed fell
    /// into cell `g` (`e` as the mover sees it). Tells whether there was one.
    fn capture(&self, rules: &Rules, sown: [u8; 32], g: usize, Ghost(e): Ghost<int>) -> (out: (
        [u8; 32],
        bool,
    ))
        requires
            0 <= e <= 2 * self.pits(),
            g == global_index(self.pits(), self.mover(), e),
            model::valid(seen(sown@, self.pits(), self.mover())),
            model::total(seen(sown@, self.pits(), self.mover())) <= MAX_SEEDS,
            forall|r: int| 2 * self.pits() + 2 <= r < 32 ==> #[trigger] sown@[r] == 0,
        ensures
            out.1 == {
                let t = seen(sown@, self.pits(), self.mover());
                &&& e < self.pits()
                &&& t[e] == 1
                &&& (t[2 * self.pits() - e] > 0 || !rules.capture_requires_nonempty_opposite)
            },
            seen(out.0@, self.pits(), self.mover()) == {
                let t = seen(sown@, self.pits(), self.mover());
                let n = self.pits();
                if out.1 {
                    t.update(e, 0).update(2 * n - e, 0).update(n, t[n] + t[e] + t[2 * n - e])
                } else {
                    t
                }
            },
            forall|r: int| 2 * self.pits() + 2 <= r < 32 ==> #[trigger] out.0@[r] == 0,
    {
        proof {
            use_type_invariant(self);
        }
        let p = self.turn;
        let ghost n = self.pits();
        let ghost t = seen(sown@, n, p);
        let mut cells: [u8; 32] = sown;
        let own_store = self.store_index(p);
        assert(sown@[g as int] == t[e]);
        if !self.is_own_pit(p, g) || cells[g] != 1 {
            assert(e < n && t[e] == 1 ==> g == global_index(n, p, e));
            return (cells, false);
        }
        // The last seed landed in one of the mover's pits that was empty before
        // this seed dropped: a potential capture.
        let opp = self.opposite(g);
        assert(opp == global_index(n, p, 2 * n - e));
        assert(sown@[opp as int] == t[2 * n - e]);
        assert(sown@[own_store as int] == t[n]);
        if rules.capture_requires_nonempty_opposite && cells[opp] == 0 {
            return (cells, false);
        }
        proof {
            let a = t.update(e, 0);
            let b = a.update(2 * n - e, 0);
            model::lemma_total_update(t, e, 0);
            model::lemma_total_update(a, 2 * n - e, 0);
            model::lemma_total_nonneg(b);
            assert(b[n] == t[n]);
        }
        let taken: u8 = cells[g] + cells[opp];
        cells[g] = 0;
        cells[opp] = 0;
        cells[own_store] = cells[own_store] + taken;
        assert(seen(cells@, n, p) =~= t.update(e, 0).update(2 * n - e, 0).update(
            n,
            t[n] + t[e] + t[2 * n - e],
        ));
        (cells, true)
    }

    /// A board is well formed and seen as the cells that it was made of.
    proof fn lemma_board_seen(b: Board, p: Player, s: Seq<int>)
        requires
            1 <= b.pits_per_side <= MAX_PITS,
            seen(b.cells@, b.pits_per_side as int, p) == s,
            model::valid(s),
            model::total(s) <= MAX_SEEDS,
            b.padded(),
        ensures
            b.wf(),
            b.seen_by(p) == s,
            b.seen_by(p.opponent()) == model::flip(s),
    {
        model::lemma_flip(s);
        match p {
            Player::P0 => {
                assert(b.counts() =~= s);
            },
            Player::P1 => {
                assert(b.counts() =~= model::flip(s));
            },
        }
    }

    /// Take the seeds of pit `mv` of the side to move and sow them. Returns the
    /// cells and the index of the cell that took the last seed.
    fn sow_seeds(&self, mv: usize) -> (out: ([u8; 32], usize))
        requires
            model::legal(self.pos(), mv as int),
        ensures
            seen(out.0@, self.pits(), self.mover()) == model::sown(self.pos(), mv as int),
            out.1 == global_index(
                self.pits(),
                self.mover(),
                model::last_cell(self.pos(), mv as int),
            ),
            forall|r: int| 2 * self.pits() + 2 <= r < 32 ==> #[trigger] out.0@[r] == 0,
    {
        let p = self.turn;
        let n: usize = self.pits_per_side;
        let ghost s = self.pos();
        let ghost t = model::sown(s, mv as int);
        let ghost e = model::last_cell(s, mv as int);
        proof {
            use_type_invariant(self);
            self.lemma_seen();
            assert(s =~= seen(self.cells@, n as int, p));
            model::lemma_total_update(s, mv as int, 0);
        }
        let total = self.total_cells();
        let opp_store = self.store_index(p.other());
        let start = self.pit_global(p, mv);

        let mut cells: [u8; 32] = self.cells;
        let mut seeds: u8 = cells[start];
        cells[start] = 0;
        let mut g: usize = start;
        let ghost mut at = mv as int;
        assert(seen(cells@, n as int, p) =~= s.update(mv as int, 0));
        while seeds > 0
            invariant
                1 <= n <= MAX_PITS,
                total == 2 * n + 2,
                opp_store == global_index(n as int, p, 2 * n + 1),
                0 <= at <= 2 * n,
                g == global_index(n as int, p, at),
                model::valid(seen(cells@, n as int, p)),
                model::total(seen(cells@, n as int, p)) + seeds <= 255,
                model::sow(seen(cells@, n as int, p), at, seeds as int) == t,
                model::landing(n as int, at, seeds as int) == e,
                forall|r: int| 2 * n + 2 <= r < 32 ==> #[trigger] cells@[r] == 0,
            decreases seeds,
        {
            let ghost cur = seen(cells@, n as int, p);
            proof {
                at = model::step(n as int, at);
                model::lemma_total_nonneg(cur);
                model::lemma_total_update(cur, at, cur[at] + 1);
                assert(model::pits(cur) == n);
            }
            g = Self::next_cell(g, total, opp_store);
            assert(cells@[g as int] == cur[at]);
            cells[g] = cells[g] + 1;
            seeds = seeds - 1;
            assert(seen(cells@, n as int, p) =~= cur.update(at, cur[at] + 1));
        }
        (cells, g)
    }

    /// Final scores `(p0, p1)` for a terminal position: each side's remaining
    /// pit seeds are swept into its own store. Safe to call on any position,
    /// but only meaningful at a terminal one.
    pub fn final_scores(&self) -> (scores: (u32, u32))
        ensures
            scores.0 == model::total(model::mine(self.seen_by(Player::P0))) + model::bank(
                self.seen_by(Player::P0),
            ),
            scores.1 == model::total(model::mine(self.seen_by(Player::P1))) + model::bank(
                self.seen_by(Player::P1),
            ),
            scores.0 + scores.1 == model::total(self.counts()),
            self.mover() is P0 ==> scores.0 - scores.1 == value::final_margin(self.pos()),
            self.mover() is P1 ==> scores.1 - scores.0 == value::final_margin(self.pos()),
    {
        let a = self.store(Player::P0) as u32 + self.pit_seeds(Player::P0);
        let b = self.store(Player::P1) as u32 + self.pit_seeds(Player::P1);
        proof {
            use_type_invariant(self);
            self.lemma_seen();
            model::lemma_flip(self.seen_by(Player::P0));
            model::lemma_total_parts(self.seen_by(Player::P0));
        }
        (a, b)
    }

    /// Final score margin from `p`'s perspective (positive = `p` wins by that
    /// many seeds). Meaningful at terminal positions.
    pub fn terminal_margin(&self, p: Player) -> (margin: i32)
        ensures
            margin == value::final_margin(self.seen_by(p)),
            margin == -value::final_margin(self.seen_by(p.opponent())),
            -255 <= margin <= 255,
    {
        let (s0, s1) = self.final_scores();
        proof {
            use_type_invariant(self);
            self.lemma_seen();
            model::lemma_flip(self.seen_by(Player::P0));
            model::lemma_bounds(self.seen_by(Player::P0));
            model::lemma_bounds(self.seen_by(Player::P1));
        }
        match p {
            Player::P0 => s0 as i32 - s1 as i32,
            Player::P1 => s1 as i32 - s0 as i32,
        }
    }
}

// ---------------------------------------------------------------------------
// Laws of boards
// ---------------------------------------------------------------------------

/// Which counts make a board, and what is said of those that do not. A side has 1 to 15
/// pits, each side has a store besides, and no more than 255 seeds are on a board.
pub proof fn lemma_board_error(n: int, cells: Seq<int>)
    requires
        n >= 0,
    ensures
        board_error(n, cells) is None <==> 1 <= n <= 15 && cells.len() == 2 * n + 2 && model::total(
            cells,
        ) <= 255,
        n == 0 ==> board_error(n, cells) == Some("pits_per_side must be at least 1"@),
        n > 15 ==> board_error(n, cells) == Some(
            "pits_per_side "@ + text::decimal(n) + " exceeds the supported maximum of 15"@,
        ),
        1 <= n <= 15 && cells.len() != 2 * n + 2 ==> board_error(n, cells) == Some(
            "expected "@ + text::decimal(2 * n + 2) + " cells for a board with "@ + text::decimal(n)
                + " pits per side, got "@ + text::decimal(cells.len() as int),
        ),
        1 <= n <= 15 && cells.len() == 2 * n + 2 && model::total(cells) > 255 ==> board_error(
            n,
            cells,
        ) == Some(
            "total seed count "@ + text::decimal(model::total(cells))
                + " exceeds the supported maximum of 255"@,
        ),
{
    reveal_strlit(" exceeds the supported maximum of ");
    reveal_strlit(" exceeds the supported maximum of 15");
    reveal_strlit(" exceeds the supported maximum of 255");
    reveal_with_fuel(text::decimal, 3);
    let most = " exceeds the supported maximum of "@;
    assert(text::decimal(15) =~= seq!['1', '5']);
    assert(text::decimal(255) =~= seq!['2', '5', '5']);
    assert(most + text::decimal(15) =~= " exceeds the supported maximum of 15"@);
    assert(most + text::decimal(255) =~= " exceeds the supported maximum of 255"@);
    text::lemma_join("pits_per_side "@ + text::decimal(n), most, text::decimal(15));
    text::lemma_join(
        "total seed count "@ + text::decimal(model::total(cells)),
        most,
        text::decimal(255),
    );
}

proof fn lemma_alike(row: Seq<int>, v: int)
    requires
        forall|j: int| 0 <= j < row.len() ==> row[j] == v,
    ensures
        model::total(row) == row.len() * v,
    decreases row.len(),
{
    if row.len() > 0 {
        lemma_alike(row.drop_last(), v);
        let k = row.len() as int;
        assert((k - 1) * v + v == k * v) by (nonlinear_arith);
    }
}

/// The opening is the same for both players: nothing is in a store, all pits hold the same
/// number of seeds, and the seeds on the board are those of all pits.
pub proof fn lemma_opening(n: int, seeds: int)
    requires
        n >= 1,
        seeds >= 0,
    ensures
        ({
            let s = opening_cells(n, seeds);
            &&& model::valid(s)
            &&& s.len() == 2 * n + 2
            &&& forall|r: int|
                0 <= r < s.len() ==> #[trigger] s[r] == if r % (n + 1) == n {
                    0
                } else {
                    seeds
                }
            &&& model::flip(s) == s
            &&& model::lead(s) == 0
            &&& model::total(s) == 2 * n * seeds
            &&& model::in_play(s) == 2 * n * seeds
        }),
{
    let s = opening_cells(n, seeds);
    assert forall|r: int| 0 <= r < s.len() implies #[trigger] s[r] == if r % (n + 1) == n {
        0
    } else {
        seeds
    } by {
        if r < n + 1 {
            vstd::arithmetic::div_mod::lemma_small_mod(r as nat, (n + 1) as nat);
        } else {
            vstd::arithmetic::div_mod::lemma_small_mod((r - n - 1) as nat, (n + 1) as nat);
            vstd::arithmetic::div_mod::lemma_mod_add_multiples_vanish(r - n - 1, n + 1);
        }
    }
    assert(model::flip(s) =~= s);
    lemma_alike(model::mine(s), seeds);
    lemma_alike(model::theirs(s), seeds);
    model::lemma_total_parts(s);
    assert(n * seeds + n * seeds == 2 * n * seeds) by (nonlinear_arith);
}

/// A seat knows the board: the cells that each player sees are the same cells, and who moves
/// next is the same player after a last seed in the own store and the other player otherwise.
pub proof fn lemma_seat(rules: Rules, at: Seat, i: int)
    requires
        model::valid(at.pos),
        model::legal(at.pos, i),
    ensures
        at.moved(rules, i).mover == at.mover <==> (i + at.pos[i]) % (at.pos.len() - 1) == at.pos.len()
            / 2 - 1,
        at.moved(rules, i).mover == at.mover ==> at.moved(rules, i).pos == model::played(
            rules,
            at.pos,
            i,
        ),
        at.moved(rules, i).mover != at.mover ==> at.moved(rules, i).pos == model::flip(
            model::played(rules, at.pos, i),
        ),
        at.mover.opponent() != at.mover,
        at.mover.opponent().opponent() == at.mover,
{
    model::lemma_extra_turn(at.pos, i);
}

/// The cells in board order, and what the players see: P0 sees the cells as they are stored,
/// P1 sees them from the other half on.
pub proof fn lemma_views(b: Board)
    requires
        b.wf(),
    ensures
        b.seen_by(Player::P0) == b.counts(),
        forall|r: int|
            0 <= r <= b.pits() ==> #[trigger] b.seen_by(Player::P1)[r] == b.counts()[r + b.pits()
                + 1],
        forall|r: int|
            b.pits() < r < 2 * b.pits() + 2 ==> #[trigger] b.seen_by(Player::P1)[r] == b.counts()[r
                - b.pits() - 1],
        b.seat() == (Seat { mover: b.mover(), pos: b.seen_by(b.mover()) }),
        model::bank(b.seen_by(Player::P0)) == b.counts()[b.pits()],
        model::bank(b.seen_by(Player::P1)) == b.counts()[2 * b.pits() + 1],
{
    b.lemma_seen();
}

} // verus!
