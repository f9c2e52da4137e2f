//! Pieces, moves and boards of a sliding-block puzzle.

use vstd::prelude::*;

verus! {

/// A grid coordinate `(x, y)`; it is on a board when both are below the
/// board's width and height.
pub type Tile = (u32, u32);

/// The axis a piece lies along and slides along.
#[derive(PartialEq, Eq, Structural, Hash, Debug, Clone, Copy)]
pub enum Direction {
    Horizontal,
    Vertical,
}

/// A rigid piece: `size` tiles starting at `location` (its minimum-coordinate
/// end) and running along `direction`.
#[derive(PartialEq, Eq, Hash, Debug, Clone, Copy)]
pub struct Piece {
    pub size: u32,
    pub location: Tile,
    pub direction: Direction,
    pub marked: bool,
}

impl Piece {
    /// Whether the piece covers tile `t` (coordinates as integers).
    pub open spec fn covers(self, t: (int, int)) -> bool {
        let (x, y) = (self.location.0 as int, self.location.1 as int);
        match self.direction {
            Direction::Horizontal => t.1 == y && x <= t.0 < x + self.size,
            Direction::Vertical => t.0 == x && y <= t.1 < y + self.size,
        }
    }

    /// The `i`-th tile of the piece, counted from its location.
    pub open spec fn tile_at(self, i: int) -> (int, int) {
        let (x, y) = (self.location.0 as int, self.location.1 as int);
        match self.direction {
            Direction::Horizontal => (x + i, y),
            Direction::Vertical => (x, y + i),
        }
    }

    /// Every tile of the piece has coordinates that fit in `u32`.
    pub open spec fn fits_u32(self) -> bool {
        match self.direction {
            Direction::Horizontal => self.location.0 + self.size <= u32::MAX + 1,
            Direction::Vertical => self.location.1 + self.size <= u32::MAX + 1,
        }
    }

    /// The tiles the piece occupies, in order from its location.
    pub open spec fn occupies_spec(self) -> Seq<Tile> {
        Seq::new(self.size as nat, |i: int| (self.tile_at(i).0 as u32, self.tile_at(i).1 as u32))
    }

    /// Create a new, unmarked piece.
    pub fn new(location: Tile, size: u32, direction: Direction) -> (r: Piece)
        ensures
            r == (Piece { size, location, direction, marked: false }),
    {
        Piece { marked: false, location, direction, size }
    }

    /// Create a new marked piece: the one that has to reach the goal.
    pub fn marked(location: Tile, size: u32, direction: Direction) -> (r: Piece)
        ensures
            r == (Piece { size, location, direction, marked: true }),
    {
        Piece { marked: true, location, direction, size }
    }

    /// The tiles the piece occupies: `size` consecutive tiles from its location.
    pub fn occupies(&self) -> (r: Vec<Tile>)
        requires
            self.fits_u32(),
        ensures
            r@ == self.occupies_spec(),
    {
        let (x, y) = self.location;
        let mut r: Vec<Tile> = Vec::new();
        let mut i: u32 = 0;
        while i < self.size
            invariant
                self.fits_u32(),
                self.location == (x, y),
                i <= self.size,
                r@ == self.occupies_spec().take(i as int),
            decreases self.size - i,
        {
            let t = match self.direction {
                Direction::Horizontal => (x + i, y),
                Direction::Vertical => (x, y + i),
            };
            r.push(t);
            i = i + 1;
            assert(r@ =~= self.occupies_spec().take(i as int));
        }
        assert(r@ =~= self.occupies_spec());
        r
    }
}


/// A slide of the piece whose location is the carried tile, by the carried
/// number of steps. Left and Right slide along x, Up and Down along y.
#[derive(PartialEq, Eq, Hash, Debug, Clone, Copy)]
pub enum Move {
    Left(Tile, u32),
    Right(Tile, u32),
    Up(Tile, u32),
    Down(Tile, u32),
}

impl Move {
    /// The location of the piece the move slides.
    pub open spec fn origin(self) -> Tile {
        match self {
            Move::Left(t, _) => t,
            Move::Right(t, _) => t,
            Move::Up(t, _) => t,
            Move::Down(t, _) => t,
        }
    }

    /// How many tiles the piece slides.
    pub open spec fn steps(self) -> u32 {
        match self {
            Move::Left(_, k) => k,
            Move::Right(_, k) => k,
            Move::Up(_, k) => k,
            Move::Down(_, k) => k,
        }
    }

    /// The same slide with another step count.
    pub open spec fn with_steps(self, k: u32) -> Move {
        match self {
            Move::Left(t, _) => Move::Left(t, k),
            Move::Right(t, _) => Move::Right(t, k),
            Move::Up(t, _) => Move::Up(t, k),
            Move::Down(t, _) => Move::Down(t, k),
        }
    }

    /// The axis the move slides along.
    pub open spec fn axis(self) -> Direction {
        match self {
            Move::Left(..) | Move::Right(..) => Direction::Horizontal,
            Move::Up(..) | Move::Down(..) => Direction::Vertical,
        }
    }

    /// Whether the move goes toward larger coordinates.
    pub open spec fn forward(self) -> bool {
        match self {
            Move::Right(..) | Move::Down(..) => true,
            Move::Left(..) | Move::Up(..) => false,
        }
    }

    /// The origin tile moved by the move's offset.
    pub open spec fn target(self) -> Tile {
        let (x, y) = self.origin();
        let k = self.steps();
        match self {
            Move::Left(..) => ((x - k) as u32, y),
            Move::Right(..) => ((x + k) as u32, y),
            Move::Up(..) => (x, (y - k) as u32),
            Move::Down(..) => (x, (y + k) as u32),
        }
    }

    /// The target tile can be computed without leaving `u32`.
    pub open spec fn invertible(self) -> bool {
        let (x, y) = self.origin();
        let k = self.steps();
        match self {
            Move::Left(..) => x >= k,
            Move::Right(..) => x + k <= u32::MAX,
            Move::Up(..) => y >= k,
            Move::Down(..) => y + k <= u32::MAX,
        }
    }

    /// The move that slides the moved piece back where it came from.
    pub open spec fn inverse(self) -> Move {
        let t = self.target();
        let k = self.steps();
        match self {
            Move::Left(..) => Move::Right(t, k),
            Move::Right(..) => Move::Left(t, k),
            Move::Up(..) => Move::Down(t, k),
            Move::Down(..) => Move::Up(t, k),
        }
    }

    /// The tile from which the move occurs.
    pub fn get_tile(&self) -> (r: Tile)
        ensures
            r == self.origin(),
    {
        match *self {
            Move::Left(t, _) => t,
            Move::Right(t, _) => t,
            Move::Up(t, _) => t,
            Move::Down(t, _) => t,
        }
    }
}

/// The `k`-th tile beyond the piece's end (forward) or before its location
/// (backward), along its axis.
pub open spec fn beyond(p: Piece, forward: bool, k: int) -> (int, int) {
    if forward {
        p.tile_at(p.size - 1 + k)
    } else {
        p.tile_at(-k)
    }
}

/// The slides of `m`'s kind from its origin by 1, 2, ..., `n` steps.
pub open spec fn slide_seq(m: Move, n: nat) -> Seq<Move> {
    Seq::new(n, |j: int| m.with_steps((j + 1) as u32))
}

/// The piece after the move has slid it.
pub open spec fn moved(p: Piece, m: Move) -> Piece {
    if p.location == m.origin() {
        Piece { location: m.target(), ..p }
    } else {
        p
    }
}

/// The tiles that the pieces occupy, piece after piece.
pub open spec fn occupied(ps: Seq<Piece>) -> Seq<Tile>
    decreases ps.len(),
{
    if ps.len() == 0 {
        Seq::empty()
    } else {
        occupied(ps.drop_last()) + ps.last().occupies_spec()
    }
}

/// The state of a board: everything else about it follows from these.
pub struct BoardView {
    pub width: u32,
    pub height: u32,
    pub goal: Tile,
    pub pieces: Seq<Piece>,
}

impl BoardView {
    /// The tile lies within the board.
    pub open spec fn in_bounds(self, t: (int, int)) -> bool {
        0 <= t.0 < self.width && 0 <= t.1 < self.height
    }

    /// The piece lies wholly on the board.
    pub open spec fn on_board(self, p: Piece) -> bool {
        &&& p.size >= 1
        &&& self.in_bounds(p.tile_at(0))
        &&& self.in_bounds(p.tile_at(p.size - 1))
    }

    /// Every piece lies on the board and no two pieces share a tile.
    pub open spec fn wf(self) -> bool {
        &&& forall|i: int| 0 <= i < self.pieces.len() ==> self.on_board(#[trigger] self.pieces[i])
        &&& forall|i: int, j: int, t: (int, int)|
            0 <= i < self.pieces.len() && 0 <= j < self.pieces.len() && i != j
                ==> !(#[trigger] self.pieces[i].covers(t) && #[trigger] self.pieces[j].covers(t))
    }

    /// The tile is on the board and no piece covers it.
    pub open spec fn empty(self, t: (int, int)) -> bool {
        &&& self.in_bounds(t)
        &&& forall|j: int| 0 <= j < self.pieces.len() ==> !(#[trigger] self.pieces[j].covers(t))
    }

    /// A marked piece covers the goal.
    pub open spec fn won(self) -> bool {
        exists|i: int|
            0 <= i < self.pieces.len() && self.pieces[i].marked
                && #[trigger] self.pieces[i].covers((self.goal.0 as int, self.goal.1 as int))
    }

    /// Piece `i` is the one that `m` slides, along its own axis, over empty tiles.
    pub open spec fn slides(self, i: int, m: Move) -> bool {
        let p = self.pieces[i];
        &&& 0 <= i < self.pieces.len()
        &&& p.location == m.origin()
        &&& p.direction == m.axis()
        &&& forall|k: int| 1 <= k <= m.steps() ==> #[trigger] self.empty(beyond(p, m.forward(), k))
    }

    /// The move slides some piece by at least one step over empty tiles.
    pub open spec fn legal(self, m: Move) -> bool {
        &&& m.steps() >= 1
        &&& exists|i: int| #[trigger] self.slides(i, m)
    }

    /// The board after the move.
    pub open spec fn play(self, m: Move) -> BoardView {
        BoardView { pieces: self.pieces.map_values(|p: Piece| moved(p, m)), ..self }
    }

    /// How many consecutive empty tiles follow the `i`-th one beyond the piece.
    pub open spec fn run(self, p: Piece, forward: bool, i: nat) -> nat
        decreases self.width + self.height - i,
    {
        if i < self.width + self.height && self.empty(beyond(p, forward, i + 1 as int)) {
            self.run(p, forward, i + 1)
        } else {
            i
        }
    }

    /// Slides of one piece: every step length up to the free run, shortest
    /// first, forward before backward for horizontal pieces and backward
    /// before forward for vertical ones.
    pub open spec fn piece_moves(self, p: Piece) -> Seq<Move> {
        let fwd = self.run(p, true, 0);
        let back = self.run(p, false, 0);
        match p.direction {
            Direction::Horizontal => slide_seq(Move::Right(p.location, 1), fwd)
                + slide_seq(Move::Left(p.location, 1), back),
            Direction::Vertical => slide_seq(Move::Up(p.location, 1), back)
                + slide_seq(Move::Down(p.location, 1), fwd),
        }
    }

    /// The slides of the first `n` pieces, piece after piece.
    pub open spec fn moves_upto(self, n: int) -> Seq<Move>
        decreases n,
    {
        if n <= 0 {
            Seq::empty()
        } else {
            self.moves_upto(n - 1) + self.piece_moves(self.pieces[n - 1])
        }
    }

    /// Every move of the board, in the order they are generated.
    pub open spec fn moves(self) -> Seq<Move> {
        self.moves_upto(self.pieces.len() as int)
    }
}

/// A board: its dimensions, goal and pieces, with the tiles the pieces occupy
/// and whether the puzzle is won kept alongside.
#[derive(PartialEq, Eq, Hash, Debug)]
pub struct Board {
    pub width: u32,
    pub height: u32,
    pub goal: Tile,
    pub is_won: bool,
    pub pieces: Vec<Piece>,
    pub occupied_tiles: Vec<Tile>,
}

impl View for Board {
    type V = BoardView;

    open spec fn view(&self) -> BoardView {
        BoardView { width: self.width, height: self.height, goal: self.goal, pieces: self.pieces@ }
    }
}

impl Board {
    /// The state is well formed and the derived fields agree with it.
    pub open spec fn wf(&self) -> bool {
        &&& self@.wf()
        &&& self.occupied_tiles@ == occupied(self.pieces@)
        &&& self.is_won == self@.won()
    }
}

/// A tile occupies-list holds `t` exactly when the piece covers `t`.
pub proof fn lemma_occupies_contains(p: Piece, t: Tile)
    requires
        p.fits_u32(),
    ensures
        p.occupies_spec().contains(t) <==> p.covers((t.0 as int, t.1 as int)),
{
    let ti = (t.0 as int, t.1 as int);
    if p.covers(ti) {
        let i = match p.direction {
            Direction::Horizontal => t.0 - p.location.0,
            Direction::Vertical => t.1 - p.location.1,
        };
        assert(p.occupies_spec()[i] == t);
    }
    if p.occupies_spec().contains(t) {
        let i = choose|i: int| 0 <= i < p.occupies_spec().len() && p.occupies_spec()[i] == t;
        assert(p.tile_at(i) == ti);
    }
}

/// A tile is among the occupied tiles exactly when some piece covers it.
pub proof fn lemma_occupied_contains(ps: Seq<Piece>, t: Tile)
    requires
        forall|i: int| 0 <= i < ps.len() ==> (#[trigger] ps[i]).fits_u32(),
    ensures
        occupied(ps).contains(t) <==> exists|i: int|
            0 <= i < ps.len() && #[trigger] ps[i].covers((t.0 as int, t.1 as int)),
    decreases ps.len(),
{
    let ti = (t.0 as int, t.1 as int);
    if ps.len() > 0 {
        let init = ps.drop_last();
        lemma_occupied_contains(init, t);
        lemma_occupies_contains(ps.last(), t);
        let a = occupied(init);
        let b = ps.last().occupies_spec();
        if occupied(ps).contains(t) {
            let k = choose|k: int| 0 <= k < (a + b).len() && (a + b)[k] == t;
            if k < a.len() {
                assert(a[k] == t);
                assert(a.contains(t));
                let i = choose|i: int| 0 <= i < init.len() && #[trigger] init[i].covers(ti);
                assert(ps[i] == init[i]);
            } else {
                assert(b[k - a.len()] == t);
                assert(ps[ps.len() - 1].covers(ti));
            }
        }
        if exists|i: int| 0 <= i < ps.len() && #[trigger] ps[i].covers(ti) {
            let i = choose|i: int| 0 <= i < ps.len() && #[trigger] ps[i].covers(ti);
            if i < ps.len() - 1 {
                assert(init[i] == ps[i]);
                let k = choose|k: int| 0 <= k < a.len() && a[k] == t;
                assert((a + b)[k] == t);
            } else {
                let k = choose|k: int| 0 <= k < b.len() && b[k] == t;
                assert((a + b)[a.len() + k] == t);
            }
        }
    }
}

/// Whether `t` is one of the tiles in `v`.
fn holds_tile(v: &Vec<Tile>, t: Tile) -> (r: bool)
    ensures
        r == v@.contains(t),
{
    let mut i: usize = 0;
    while i < v.len()
        invariant
            i <= v.len(),
            forall|k: int| 0 <= k < i ==> v@[k] != t,
        decreases v.len() - i,
    {
        if v[i].0 == t.0 && v[i].1 == t.1 {
            assert(v@[i as int] == t);
            return true;
        }
        i = i + 1;
    }
    false
}

impl Board {
    /// Create a new board; the occupied tiles and the win flag are derived
    /// from the pieces.
    pub fn new(width: u32, height: u32, goal: Tile, pieces: Vec<Piece>) -> (r: Board)
        requires
            (BoardView { width, height, goal, pieces: pieces@ }).wf(),
        ensures
            r@ == (BoardView { width, height, goal, pieces: pieces@ }),
            r.wf(),
    {
        let ghost bv = BoardView { width, height, goal, pieces: pieces@ };
        assert forall|i: int| 0 <= i < pieces@.len() implies (#[trigger] pieces@[i]).fits_u32() by {
            assert(bv.on_board(bv.pieces[i]));
        }
        let occupied_tiles = Board::occupied_tiles(&pieces);
        let mut is_won = false;
        let mut i: usize = 0;
        while i < pieces.len()
            invariant
                i <= pieces.len(),
                forall|k: int| 0 <= k < pieces@.len() ==> (#[trigger] pieces@[k]).fits_u32(),
                is_won == exists|k: int|
                    0 <= k < i && pieces@[k].marked && #[trigger] pieces@[k].covers(
                        (goal.0 as int, goal.1 as int),
                    ),
            decreases pieces.len() - i,
        {
            let p = pieces[i];
            if p.marked {
                let occ = p.occupies();
                proof {
                    lemma_occupies_contains(p, goal);
                }
                if holds_tile(&occ, goal) {
                    is_won = true;
                }
            }
            i = i + 1;
        }
        proof {
            let g = (goal.0 as int, goal.1 as int);
            if bv.won() {
                let k = choose|k: int|
                    0 <= k < bv.pieces.len() && bv.pieces[k].marked && #[trigger] bv.pieces[k].covers(g);
                assert(pieces@[k].covers(g));
            }
            if is_won {
                let k = choose|k: int|
                    0 <= k < i && pieces@[k].marked && #[trigger] pieces@[k].covers(g);
                assert(bv.pieces == pieces@);
                assert(0 <= k < bv.pieces.len());
                assert(bv.goal == goal);
                assert(bv.pieces[k].marked);
                assert(bv.won());
            }
        }
        Board { width, height, goal, is_won, pieces, occupied_tiles }
    }

    /// The tiles the pieces occupy, piece after piece.
    pub fn occupied_tiles(pieces: &Vec<Piece>) -> (r: Vec<Tile>)
        requires
            forall|i: int| 0 <= i < pieces@.len() ==> (#[trigger] pieces@[i]).fits_u32(),
        ensures
            r@ == occupied(pieces@),
    {
        let mut r: Vec<Tile> = Vec::new();
        let mut i: usize = 0;
        while i < pieces.len()
            invariant
                i <= pieces.len(),
                forall|k: int| 0 <= k < pieces@.len() ==> (#[trigger] pieces@[k]).fits_u32(),
                r@ == occupied(pieces@.take(i as int)),
            decreases pieces.len() - i,
        {
            let mut occ = pieces[i].occupies();
            r.append(&mut occ);
            proof {
                let s = pieces@.take(i + 1);
                assert(s.drop_last() =~= pieces@.take(i as int));
            }
            i = i + 1;
        }
        assert(pieces@.take(i as int) =~= pieces@);
        r
    }

    /// Whether the tile lies within the board.
    pub fn tile_exists(&self, t: Tile) -> (r: bool)
        ensures
            r == (t.0 < self.width && t.1 < self.height),
    {
        t.0 < self.width && t.1 < self.height
    }

    /// Whether the tile lies within the board and no piece occupies it.
    pub fn empty_tile(&self, t: Tile) -> (r: bool)
        ensures
            r == (t.0 < self.width && t.1 < self.height && !self.occupied_tiles@.contains(t)),
    {
        self.tile_exists(t) && !holds_tile(&self.occupied_tiles, t)
    }
}

/// Every piece of a well-formed board has coordinates that fit in `u32`.
pub proof fn lemma_wf_fits(b: BoardView)
    requires
        b.wf(),
    ensures
        forall|i: int| 0 <= i < b.pieces.len() ==> (#[trigger] b.pieces[i]).fits_u32(),
{
    assert forall|i: int| 0 <= i < b.pieces.len() implies (#[trigger] b.pieces[i]).fits_u32() by {
        assert(b.on_board(b.pieces[i]));
    }
}

/// An empty tile `k` places beyond a piece on the board lies within `k` of
/// the board's far edge.
pub proof fn lemma_beyond_bound(b: BoardView, p: Piece, forward: bool, k: int)
    requires
        b.on_board(p),
        k >= 1,
        b.in_bounds(beyond(p, forward, k)),
    ensures
        k < b.width || k < b.height,
        p.direction == Direction::Horizontal ==> k < b.width,
        p.direction == Direction::Vertical ==> k < b.height,
{
}

/// The free run from `j` reaches `n` when tiles `j+1..=n` beyond the piece are
/// empty and tile `n+1` is not.
pub proof fn lemma_run_from(b: BoardView, p: Piece, forward: bool, j: nat, n: nat)
    requires
        b.on_board(p),
        j <= n,
        forall|k: int| j < k <= n ==> #[trigger] b.empty(beyond(p, forward, k)),
        !b.empty(beyond(p, forward, n + 1 as int)),
    ensures
        b.run(p, forward, j) == n,
    decreases n - j,
{
    if j < n {
        assert(b.empty(beyond(p, forward, j + 1 as int)));
        lemma_beyond_bound(b, p, forward, j + 1 as int);
        lemma_run_from(b, p, forward, j + 1, n);
    }
}

/// The free run from `j` consists of empty tiles and stops before one that
/// is not empty.
pub proof fn lemma_run_props(b: BoardView, p: Piece, forward: bool, j: nat)
    requires
        b.on_board(p),
    ensures
        j <= b.run(p, forward, j),
        forall|k: int| j < k <= b.run(p, forward, j) ==> #[trigger] b.empty(beyond(p, forward, k)),
        b.run(p, forward, j) > j ==> b.run(p, forward, j) < b.width || b.run(p, forward, j) < b.height,
        !b.empty(beyond(p, forward, b.run(p, forward, j) + 1 as int)),
    decreases b.width + b.height - j,
{
    if j < b.width + b.height && b.empty(beyond(p, forward, j + 1 as int)) {
        lemma_run_props(b, p, forward, j + 1);
        let r = b.run(p, forward, j);
        assert(b.empty(beyond(p, forward, r as int)));
        lemma_beyond_bound(b, p, forward, r as int);
    }
}

/// Appends the slides of `m`'s kind by 1, 2, ..., `n` steps.
fn push_slides(moves: &mut Vec<Move>, m: Move, n: u32)
    ensures
        final(moves)@ == old(moves)@ + slide_seq(m, n as nat),
{
    let ghost start = moves@;
    let mut k: u32 = 0;
    while k < n
        invariant
            k <= n,
            moves@ == start + slide_seq(m, k as nat),
        decreases n - k,
    {
        k = k + 1;
        let s = match m {
            Move::Left(t, _) => Move::Left(t, k),
            Move::Right(t, _) => Move::Right(t, k),
            Move::Up(t, _) => Move::Up(t, k),
            Move::Down(t, _) => Move::Down(t, k),
        };
        moves.push(s);
        assert(moves@ =~= start + slide_seq(m, k as nat));
    }
}

impl Board {
    /// Whether the tile `i` places beyond the piece (forward: past its end;
    /// backward: before its location) is on the board and empty.
    fn probe(&self, p: Piece, forward: bool, i: u32) -> (r: bool)
        requires
            self.wf(),
            self@.on_board(p),
            i >= 1,
        ensures
            r == self@.empty(beyond(p, forward, i as int)),
    {
        let (x, y) = p.location;
        let ghost t = beyond(p, forward, i as int);
        proof {
            lemma_wf_fits(self@);
        }
        let tile = match p.direction {
            Direction::Horizontal => {
                if forward {
                    let end = x + (p.size - 1);
                    if i >= self.width - end {
                        return false;
                    }
                    (end + i, y)
                } else {
                    if i > x {
                        return false;
                    }
                    (x - i, y)
                }
            },
            Direction::Vertical => {
                if forward {
                    let end = y + (p.size - 1);
                    if i >= self.height - end {
                        return false;
                    }
                    (x, end + i)
                } else {
                    if i > y {
                        return false;
                    }
                    (x, y - i)
                }
            },
        };
        proof {
            lemma_occupied_contains(self.pieces@, tile);
        }
        self.empty_tile(tile)
    }

    /// The number of consecutive empty tiles beyond the piece in one direction.
    fn run_length(&self, p: Piece, forward: bool) -> (r: u32)
        requires
            self.wf(),
            self@.on_board(p),
        ensures
            r == self@.run(p, forward, 0),
    {
        let mut i: u32 = 1;
        while self.probe(p, forward, i)
            invariant
                self.wf(),
                self@.on_board(p),
                1 <= i <= self.width + self.height,
                forall|k: int| 1 <= k < i ==> #[trigger] self@.empty(beyond(p, forward, k)),
            decreases self.width + self.height - i,
        {
            proof {
                lemma_beyond_bound(self@, p, forward, i as int);
            }
            i = i + 1;
        }
        proof {
            lemma_run_from(self@, p, forward, 0, (i - 1) as nat);
        }
        i - 1
    }

    /// Every legal slide: for each piece in order, each step length from 1
    /// up to its free run, first toward the larger coordinate and then toward
    /// the smaller for horizontal pieces, the other way round for vertical ones.
    pub fn all_moves(&self) -> (r: Vec<Move>)
        requires
            self.wf(),
        ensures
            r@ == self@.moves(),
    {
        let mut moves: Vec<Move> = Vec::new();
        let mut n: usize = 0;
        while n < self.pieces.len()
            invariant
                self.wf(),
                n <= self.pieces.len(),
                moves@ == self@.moves_upto(n as int),
            decreases self.pieces.len() - n,
        {
            let p = self.pieces[n];
            proof {
                assert(self@.on_board(self@.pieces[n as int]));
            }
            let fwd = self.run_length(p, true);
            let back = self.run_length(p, false);
            match p.direction {
                Direction::Horizontal => {
                    push_slides(&mut moves, Move::Right(p.location, 1), fwd);
                    push_slides(&mut moves, Move::Left(p.location, 1), back);
                },
                Direction::Vertical => {
                    push_slides(&mut moves, Move::Up(p.location, 1), back);
                    push_slides(&mut moves, Move::Down(p.location, 1), fwd);
                },
            }
            n = n + 1;
        }
        moves
    }
}

/// A tile covered by the slid piece was covered by it before or is one of the
/// tiles it slid over.
pub proof fn lemma_moved_cover(p: Piece, m: Move, t: (int, int))
    requires
        p.location == m.origin(),
        p.direction == m.axis(),
        m.invertible(),
        moved(p, m).covers(t),
    ensures
        p.covers(t) || exists|k: int| 1 <= k <= m.steps() && t == #[trigger] beyond(p, m.forward(), k),
{
    let (x, y) = (p.location.0 as int, p.location.1 as int);
    let s = m.steps() as int;
    if !p.covers(t) {
        let k = match m {
            Move::Right(..) => t.0 - (x + p.size - 1),
            Move::Left(..) => x - t.0,
            Move::Down(..) => t.1 - (y + p.size - 1),
            Move::Up(..) => y - t.1,
        };
        assert(1 <= k <= s && t == beyond(p, m.forward(), k));
    }
}

/// A tile that the slid piece would cross on its way back is not covered by
/// it, and was covered by the piece or slid over.
pub proof fn lemma_back_cover(p: Piece, m: Move, k: int)
    requires
        p.location == m.origin(),
        p.direction == m.axis(),
        m.invertible(),
        1 <= k <= m.steps(),
    ensures
        !moved(p, m).covers(beyond(moved(p, m), !m.forward(), k)),
        p.covers(beyond(moved(p, m), !m.forward(), k)) || exists|j: int|
            1 <= j <= m.steps() && beyond(moved(p, m), !m.forward(), k) == #[trigger] beyond(
                p,
                m.forward(),
                j,
            ),
{
    let (x, y) = (p.location.0 as int, p.location.1 as int);
    let u = beyond(moved(p, m), !m.forward(), k);
    if !p.covers(u) {
        let j = match m {
            Move::Right(..) => u.0 - (x + p.size - 1),
            Move::Left(..) => x - u.0,
            Move::Down(..) => u.1 - (y + p.size - 1),
            Move::Up(..) => y - u.1,
        };
        assert(1 <= j <= m.steps() && u == beyond(p, m.forward(), j));
    }
}

/// On a well-formed board, the piece a legal move slides is the only one
/// at the move's origin, and the move's target can be computed.
pub proof fn lemma_legal_piece(b: BoardView, m: Move, i: int)
    requires
        b.wf(),
        b.slides(i, m),
        m.steps() >= 1,
    ensures
        m.invertible(),
        forall|j: int| 0 <= j < b.pieces.len() && j != i ==> (#[trigger] b.pieces[j]).location != m.origin(),
{
    let p = b.pieces[i];
    assert(b.empty(beyond(p, m.forward(), m.steps() as int)));
    assert forall|j: int| 0 <= j < b.pieces.len() && j != i implies (#[trigger] b.pieces[j]).location
        != m.origin() by {
        let l = (p.location.0 as int, p.location.1 as int);
        assert(b.on_board(b.pieces[j]));
        assert(b.on_board(p));
        assert(p.covers(l));
        if b.pieces[j].location == m.origin() {
            assert(b.pieces[j].covers(l));
        }
    }
}

/// A legal move keeps the board well formed.
pub proof fn lemma_play_wf(b: BoardView, m: Move)
    requires
        b.wf(),
        b.legal(m),
    ensures
        m.invertible(),
        b.play(m).wf(),
{
    let i = choose|i: int| #[trigger] b.slides(i, m);
    lemma_legal_piece(b, m, i);
    let p = b.pieces[i];
    let q = moved(p, m);
    let c = b.play(m);
    assert(c.pieces[i] == q);
    assert(b.on_board(p));
    // Every tile the slid piece covers is on the board and free of the others.
    assert forall|t: (int, int)| q.covers(t) implies c.in_bounds(t) && forall|j: int|
        0 <= j < b.pieces.len() && j != i ==> !(#[trigger] b.pieces[j]).covers(t) by {
        lemma_moved_cover(p, m, t);
        if !p.covers(t) {
            let k = choose|k: int| 1 <= k <= m.steps() && t == #[trigger] beyond(p, m.forward(), k);
            assert(b.empty(beyond(p, m.forward(), k)));
        }
    }
    assert forall|j: int| 0 <= j < c.pieces.len() implies c.on_board(#[trigger] c.pieces[j]) by {
        assert(b.on_board(b.pieces[j]));
        if j == i {
            assert(q.covers(q.tile_at(0)));
            assert(q.covers(q.tile_at(q.size - 1)));
        } else {
            assert(c.pieces[j] == b.pieces[j]);
        }
    }
    assert forall|j1: int, j2: int, t: (int, int)|
        0 <= j1 < c.pieces.len() && 0 <= j2 < c.pieces.len() && j1 != j2 implies !(
        #[trigger] c.pieces[j1].covers(t) && #[trigger] c.pieces[j2].covers(t)) by {
        if j1 != i && j2 != i {
            assert(c.pieces[j1] == b.pieces[j1]);
            assert(c.pieces[j2] == b.pieces[j2]);
        } else if j1 == i {
            assert(c.pieces[j2] == b.pieces[j2]);
        } else {
            assert(c.pieces[j1] == b.pieces[j1]);
        }
    }
}

/// Undoing a legal move restores the board: after `m`, its inverse is legal,
/// and playing it gives back the same pieces in the same order (and so the
/// same occupied tiles and win flag).
pub proof fn lemma_play_undo(b: BoardView, m: Move)
    requires
        b.wf(),
        b.legal(m),
    ensures
        m.invertible(),
        b.play(m).wf(),
        b.play(m).legal(m.inverse()),
        b.play(m).play(m.inverse()) == b,
{
    lemma_play_wf(b, m);
    let i = choose|i: int| #[trigger] b.slides(i, m);
    lemma_legal_piece(b, m, i);
    let p = b.pieces[i];
    let q = moved(p, m);
    let c = b.play(m);
    let n = m.inverse();
    assert(c.pieces[i] == q);
    assert(b.on_board(p));
    assert forall|k: int| 1 <= k <= n.steps() implies #[trigger] c.empty(beyond(q, n.forward(), k)) by {
        lemma_back_cover(p, m, k);
        let u = beyond(q, n.forward(), k);
        if !p.covers(u) {
            let j = choose|j: int| 1 <= j <= m.steps() && u == #[trigger] beyond(p, m.forward(), j);
            assert(b.empty(beyond(p, m.forward(), j)));
        }
        assert forall|j: int| 0 <= j < c.pieces.len() implies !(#[trigger] c.pieces[j]).covers(u) by {
            if j != i {
                assert(c.pieces[j] == b.pieces[j]);
            }
        }
    }
    assert(c.slides(i, n));
    // No other piece sits at the slid piece's new location.
    assert forall|j: int| 0 <= j < c.pieces.len() && j != i implies (#[trigger] c.pieces[j]).location
        != n.origin() by {
        let l = (q.location.0 as int, q.location.1 as int);
        assert(q.covers(l));
        assert(c.on_board(c.pieces[j]));
        if c.pieces[j].location == n.origin() {
            assert(c.pieces[j].covers(l));
        }
    }
    assert(c.play(n).pieces =~= b.pieces);
}

/// Every slide a piece contributes to the move list is legal.
pub proof fn lemma_piece_moves_legal(b: BoardView, j: int)
    requires
        b.wf(),
        0 <= j < b.pieces.len(),
    ensures
        forall|e: int| 0 <= e < b.piece_moves(b.pieces[j]).len() ==> b.legal(
            #[trigger] b.piece_moves(b.pieces[j])[e],
        ),
{
    let p = b.pieces[j];
    assert(b.on_board(p));
    lemma_run_props(b, p, true, 0);
    lemma_run_props(b, p, false, 0);
    let s = b.piece_moves(p);
    assert forall|e: int| 0 <= e < s.len() implies b.legal(#[trigger] s[e]) by {
        let fwd = b.run(p, true, 0);
        let back = b.run(p, false, 0);
        let first = if p.direction == Direction::Horizontal { fwd } else { back };
        let a = if e < first { e } else { e - first };
        assert(s[e].steps() == a + 1);
        assert(b.slides(j, s[e]));
    }
}

/// Every generated move is legal.
pub proof fn lemma_moves_upto_legal(b: BoardView, n: int)
    requires
        b.wf(),
        n <= b.pieces.len(),
    ensures
        forall|e: int| 0 <= e < b.moves_upto(n).len() ==> b.legal(#[trigger] b.moves_upto(n)[e]),
    decreases n,
{
    if n > 0 {
        lemma_moves_upto_legal(b, n - 1);
        lemma_piece_moves_legal(b, n - 1);
        let a = b.moves_upto(n - 1);
        let s = b.piece_moves(b.pieces[n - 1]);
        assert forall|e: int| 0 <= e < b.moves_upto(n).len() implies b.legal(
            #[trigger] b.moves_upto(n)[e],
        ) by {
            if e < a.len() {
                assert(b.moves_upto(n)[e] == a[e]);
            } else {
                assert(b.moves_upto(n)[e] == s[e - a.len()]);
            }
        }
    }
}

impl Board {
    /// The board after sliding the piece at the move's origin by the move's
    /// offset; every other piece stays, and the order of the pieces is kept.
    pub fn play(&self, mov: &Move) -> (r: Board)
        requires
            self.wf(),
            self@.legal(*mov),
        ensures
            r@ == self@.play(*mov),
            r.wf(),
    {
        proof {
            lemma_play_wf(self@, *mov);
        }
        let (x, y) = mov.get_tile();
        let target: Tile = match *mov {
            Move::Left(_, k) => (x - k, y),
            Move::Right(_, k) => (x + k, y),
            Move::Up(_, k) => (x, y - k),
            Move::Down(_, k) => (x, y + k),
        };
        let mut pieces: Vec<Piece> = Vec::new();
        let mut i: usize = 0;
        while i < self.pieces.len()
            invariant
                i <= self.pieces.len(),
                target == mov.target(),
                (x, y) == mov.origin(),
                pieces@ =~= self.pieces@.take(i as int).map_values(|p: Piece| moved(p, *mov)),
            decreases self.pieces.len() - i,
        {
            let p = self.pieces[i];
            if p.location.0 == x && p.location.1 == y {
                pieces.push(Piece { location: target, ..p });
            } else {
                pieces.push(p);
            }
            i = i + 1;
        }
        assert(self.pieces@.take(i as int) =~= self.pieces@);
        Board::new(self.width, self.height, self.goal, pieces)
    }

    /// The board before `mov` was played: plays the inverse slide.
    pub fn undo(&self, mov: &Move) -> (r: Board)
        requires
            self.wf(),
            mov.invertible(),
            self@.legal(mov.inverse()),
        ensures
            r@ == self@.play(mov.inverse()),
            r.wf(),
    {
        let reverse_move = match *mov {
            Move::Left((x, y), steps) => Move::Right((x - steps, y), steps),
            Move::Right((x, y), steps) => Move::Left((x + steps, y), steps),
            Move::Up((x, y), steps) => Move::Down((x, y - steps), steps),
            Move::Down((x, y), steps) => Move::Up((x, y + steps), steps),
        };
        self.play(&reverse_move)
    }

    /// Each move of `all_moves`, in order, with the board it leads to.
    pub fn future_boards(&self) -> (r: Vec<(Board, Move)>)
        requires
            self.wf(),
        ensures
            r@.len() == self@.moves().len(),
            forall|i: int|
                0 <= i < r@.len() ==> {
                    &&& (#[trigger] r@[i]).1 == self@.moves()[i]
                    &&& r@[i].0@ == self@.play(self@.moves()[i])
                    &&& r@[i].0.wf()
                },
    {
        let moves = self.all_moves();
        proof {
            lemma_moves_upto_legal(self@, self.pieces@.len() as int);
        }
        let mut r: Vec<(Board, Move)> = Vec::new();
        let mut i: usize = 0;
        while i < moves.len()
            invariant
                self.wf(),
                i <= moves.len(),
                moves@ == self@.moves(),
                forall|e: int| 0 <= e < moves@.len() ==> self@.legal(#[trigger] moves@[e]),
                r@.len() == i,
                forall|k: int|
                    0 <= k < i ==> {
                        &&& (#[trigger] r@[k]).1 == self@.moves()[k]
                        &&& r@[k].0@ == self@.play(self@.moves()[k])
                        &&& r@[k].0.wf()
                    },
            decreases moves.len() - i,
        {
            let next = moves[i];
            proof {
                assert(self@.legal(moves@[i as int]));
            }
            r.push((self.play(&next), next));
            i = i + 1;
        }
        r
    }
}

/// The slides of piece `i` are among the moves of the first `n` pieces.
pub proof fn lemma_moves_upto_contains(b: BoardView, n: int, i: int, e: int)
    requires
        0 <= i < n <= b.pieces.len(),
        0 <= e < b.piece_moves(b.pieces[i]).len(),
    ensures
        b.moves_upto(n).contains(b.piece_moves(b.pieces[i])[e]),
    decreases n,
{
    let a = b.moves_upto(n - 1);
    let s = b.piece_moves(b.pieces[n - 1]);
    if i < n - 1 {
        lemma_moves_upto_contains(b, n - 1, i, e);
        let k = choose|k: int| 0 <= k < a.len() && a[k] == b.piece_moves(b.pieces[i])[e];
        assert(b.moves_upto(n)[k] == a[k]);
    } else {
        assert(b.moves_upto(n)[a.len() + e] == s[e]);
    }
}

/// The generated moves are exactly the legal ones: each slides a piece along
/// its axis over on-board, empty tiles only, and every such slide is there.
pub proof fn lemma_moves_exact(b: BoardView, m: Move)
    requires
        b.wf(),
    ensures
        b.moves().contains(m) <==> b.legal(m),
{
    if b.moves().contains(m) {
        lemma_moves_upto_legal(b, b.pieces.len() as int);
    }
    if b.legal(m) {
        let i = choose|i: int| #[trigger] b.slides(i, m);
        let p = b.pieces[i];
        assert(b.on_board(p));
        lemma_run_props(b, p, m.forward(), 0);
        let run = b.run(p, m.forward(), 0);
        if m.steps() > run {
            assert(b.empty(beyond(p, m.forward(), run + 1 as int)));
        }
        let first = if p.direction == Direction::Horizontal {
            b.run(p, true, 0)
        } else {
            b.run(p, false, 0)
        };
        let e = if (p.direction == Direction::Horizontal) == m.forward() {
            m.steps() - 1
        } else {
            first + m.steps() - 1
        };
        assert(b.piece_moves(p)[e] == m);
        lemma_moves_upto_contains(b, b.pieces.len() as int, i, e);
    }
}

/// Moves come in runs: with a slide by `k` steps, every shorter slide of the
/// same piece in the same direction is generated too.
pub proof fn lemma_moves_prefix(b: BoardView, m: Move, k: u32)
    requires
        b.wf(),
        b.moves().contains(m),
        1 <= k <= m.steps(),
    ensures
        b.moves().contains(m.with_steps(k)),
{
    lemma_moves_exact(b, m);
    let i = choose|i: int| #[trigger] b.slides(i, m);
    let s = m.with_steps(k);
    assert(s.forward() == m.forward() && s.origin() == m.origin() && s.axis() == m.axis());
    assert(s.steps() == k);
    assert forall|j: int| 1 <= j <= s.steps() implies #[trigger] b.empty(
        beyond(b.pieces[i], s.forward(), j),
    ) by {
        assert(b.empty(beyond(b.pieces[i], m.forward(), j)));
    }
    assert(b.slides(i, s));
    lemma_moves_exact(b, m.with_steps(k));
}

/// Whether two pieces are equal, field by field.
fn same_piece(a: &Piece, b: &Piece) -> (r: bool)
    ensures
        r == (*a == *b),
{
    a.size == b.size && a.location.0 == b.location.0 && a.location.1 == b.location.1
        && a.direction == b.direction && a.marked == b.marked
}

impl Board {
    /// Whether the two boards are in the same state: same dimensions, goal,
    /// and pieces in the same order.
    pub fn same_state(&self, other: &Board) -> (r: bool)
        ensures
            r == (self@ == other@),
    {
        if self.width != other.width || self.height != other.height || self.goal.0 != other.goal.0
            || self.goal.1 != other.goal.1 || self.pieces.len() != other.pieces.len() {
            return false;
        }
        let mut i: usize = 0;
        while i < self.pieces.len()
            invariant
                i <= self.pieces@.len(),
                self.pieces@.len() == other.pieces@.len(),
                forall|k: int| 0 <= k < i ==> self.pieces@[k] == other.pieces@[k],
            decreases self.pieces.len() - i,
        {
            if !same_piece(&self.pieces[i], &other.pieces[i]) {
                return false;
            }
            i = i + 1;
        }
        assert(self.pieces@ =~= other.pieces@);
        true
    }
}

/// The tiles a piece occupies are distinct.
pub proof fn lemma_occupies_distinct(p: Piece)
    requires
        p.fits_u32(),
    ensures
        p.occupies_spec().no_duplicates(),
{
    let s = p.occupies_spec();
    assert forall|a: int, c: int| 0 <= a < s.len() && 0 <= c < s.len() && a != c implies s[a] != s[c] by {
        assert(p.tile_at(a) != p.tile_at(c));
    }
}

/// The occupied tiles of a board are exactly the tiles its pieces cover,
/// each listed once.
pub proof fn lemma_occupied_tiles(b: Board)
    requires
        b.wf(),
    ensures
        forall|t: Tile| #[trigger] b.occupied_tiles@.contains(t) <==> exists|i: int|
            0 <= i < b.pieces@.len() && #[trigger] b.pieces@[i].occupies_spec().contains(t),
        b.occupied_tiles@.no_duplicates(),
{
    let ps = b.pieces@;
    lemma_wf_fits(b@);
    assert forall|t: Tile| #[trigger] b.occupied_tiles@.contains(t) <==> exists|i: int|
        0 <= i < ps.len() && #[trigger] ps[i].occupies_spec().contains(t) by {
        lemma_occupied_contains(ps, t);
        if exists|i: int| 0 <= i < ps.len() && #[trigger] ps[i].occupies_spec().contains(t) {
            let i = choose|i: int| 0 <= i < ps.len() && #[trigger] ps[i].occupies_spec().contains(t);
            lemma_occupies_contains(ps[i], t);
        }
        if b.occupied_tiles@.contains(t) {
            let i = choose|i: int| 0 <= i < ps.len() && #[trigger] ps[i].covers((t.0 as int, t.1 as int));
            lemma_occupies_contains(ps[i], t);
        }
    }
    lemma_occupied_distinct(ps);
}

/// Pieces that pairwise share no tile occupy distinct tiles.
proof fn lemma_occupied_distinct(ps: Seq<Piece>)
    requires
        forall|i: int| 0 <= i < ps.len() ==> (#[trigger] ps[i]).fits_u32(),
        forall|i: int, j: int, t: (int, int)|
            0 <= i < ps.len() && 0 <= j < ps.len() && i != j ==> !(#[trigger] ps[i].covers(t)
                && #[trigger] ps[j].covers(t)),
    ensures
        occupied(ps).no_duplicates(),
    decreases ps.len(),
{
    if ps.len() > 0 {
        let init = ps.drop_last();
        let last = ps.last();
        assert forall|i: int, j: int, t: (int, int)|
            0 <= i < init.len() && 0 <= j < init.len() && i != j implies !(#[trigger] init[i].covers(t)
                && #[trigger] init[j].covers(t)) by {
            assert(init[i] == ps[i] && init[j] == ps[j]);
        }
        lemma_occupied_distinct(init);
        lemma_occupies_distinct(last);
        let a = occupied(init);
        let c = last.occupies_spec();
        assert forall|x: int, y: int| 0 <= x < (a + c).len() && 0 <= y < (a + c).len() && x != y implies (a
            + c)[x] != (a + c)[y] by {
            if x < a.len() && y >= a.len() {
                let t = a[x];
                if t == c[y - a.len()] {
                    assert(a.contains(t));
                    lemma_occupied_contains(init, t);
                    let i = choose|i: int| 0 <= i < init.len() && #[trigger] init[i].covers((t.0 as int, t.1 as int));
                    lemma_occupies_contains(last, t);
                    assert(c.contains(t));
                    assert(ps[i].covers((t.0 as int, t.1 as int)));
                    assert(ps[ps.len() - 1].covers((t.0 as int, t.1 as int)));
                }
            } else if y < a.len() && x >= a.len() {
                let t = a[y];
                if t == c[x - a.len()] {
                    assert(a.contains(t));
                    lemma_occupied_contains(init, t);
                    let i = choose|i: int| 0 <= i < init.len() && #[trigger] init[i].covers((t.0 as int, t.1 as int));
                    lemma_occupies_contains(last, t);
                    assert(c.contains(t));
                    assert(ps[i].covers((t.0 as int, t.1 as int)));
                    assert(ps[ps.len() - 1].covers((t.0 as int, t.1 as int)));
                }
            }
        }
    }
}

} // verus!
