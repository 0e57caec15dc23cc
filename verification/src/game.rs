//! The board engine: a grid of cells with mine placement, adjacency
//! derivation, flood reveal with chord expansion, marking, and win/loss
//! detection.
use vstd::prelude::*;

use crate::counting::{
    count_marked_mines, count_mines, count_unrevealed, is_mine, lemma_count_marked_mines_bounds,
    lemma_count_marked_mines_congruent, lemma_count_mines_congruent, lemma_count_mines_update,
    lemma_count_unrevealed_update,
};
use crate::field::{Field, FieldStatus, FieldType};

verus! {

/// Where the game stands: still accepting moves, or terminally won/lost.
#[derive(Clone, Copy, Debug, PartialEq, Eq, Structural)]
pub enum GameStatus {
    Lost,
    Won,
    Playing,
}

/// A configuration the constructor rejects.
#[derive(Clone, Copy, Debug, PartialEq, Eq, Structural)]
pub enum ConfigError {
    /// The requested mine count is at least the cell count, so a board
    /// with that many distinct mines cannot be placed.
    TooManyMines,
}

/// The board: a `width * height` grid of cells in row-major order
/// (index = x + y * width), the mine count it was built with, and the
/// game status.
pub struct Game {
    pub game_width: u32,
    pub game_height: u32,
    pub game_mines_count: u32,
    pub game_fields_array: Vec<Field>,
    pub game_status: GameStatus,
}

/// (a, b) is one of the up-to-8 grid neighbors of (x, y).
pub open spec fn adjacent(x: int, y: int, a: int, b: int) -> bool {
    &&& -1 <= a - x <= 1
    &&& -1 <= b - y <= 1
    &&& !(a == x && b == y)
}

/// The k-th of the 8 neighbor positions of (x, y), in the order the
/// engine visits them.
pub open spec fn spec_neighbor(x: int, y: int, k: int) -> (int, int) {
    if k == 0 {
        (x - 1, y - 1)
    } else if k == 1 {
        (x, y - 1)
    } else if k == 2 {
        (x + 1, y - 1)
    } else if k == 3 {
        (x - 1, y)
    } else if k == 4 {
        (x + 1, y)
    } else if k == 5 {
        (x - 1, y + 1)
    } else if k == 6 {
        (x, y + 1)
    } else {
        (x + 1, y + 1)
    }
}

pub proof fn lemma_neighbor_adjacent(x: int, y: int)
    ensures
        forall|k: int|
            0 <= k < 8 ==> adjacent(
                x,
                y,
                (#[trigger] spec_neighbor(x, y, k)).0,
                spec_neighbor(x, y, k).1,
            ),
{
}

pub proof fn lemma_adjacent_has_index(x: int, y: int, a: int, b: int)
    requires
        adjacent(x, y, a, b),
    ensures
        exists|k: int| 0 <= k < 8 && #[trigger] spec_neighbor(x, y, k) == (a, b),
{
    if a == x - 1 && b == y - 1 {
        assert(spec_neighbor(x, y, 0) == (a, b));
    } else if a == x && b == y - 1 {
        assert(spec_neighbor(x, y, 1) == (a, b));
    } else if a == x + 1 && b == y - 1 {
        assert(spec_neighbor(x, y, 2) == (a, b));
    } else if a == x - 1 && b == y {
        assert(spec_neighbor(x, y, 3) == (a, b));
    } else if a == x + 1 && b == y {
        assert(spec_neighbor(x, y, 4) == (a, b));
    } else if a == x - 1 && b == y + 1 {
        assert(spec_neighbor(x, y, 5) == (a, b));
    } else if a == x && b == y + 1 {
        assert(spec_neighbor(x, y, 6) == (a, b));
    } else {
        assert(spec_neighbor(x, y, 7) == (a, b));
    }
}

pub proof fn lemma_neighbor_distinct(x: int, y: int)
    ensures
        forall|k: int, l: int|
            0 <= k < 8 && 0 <= l < 8 && #[trigger] spec_neighbor(x, y, k) == #[trigger] spec_neighbor(
                x,
                y,
                l,
            ) ==> k == l,
{
}

/// Row-major index arithmetic: an in-bounds coordinate pair maps below
/// the cell count.
pub proof fn lemma_index_bounds(w: int, h: int, x: int, y: int)
    by (nonlinear_arith)
    requires
        0 <= x < w,
        0 <= y < h,
    ensures
        0 <= x + y * w < w * h,
{
}

/// Row-major index arithmetic: distinct in-bounds coordinate pairs map
/// to distinct indices.
pub proof fn lemma_index_injective(w: int, x1: int, y1: int, x2: int, y2: int)
    by (nonlinear_arith)
    requires
        0 <= x1 < w,
        0 <= x2 < w,
        x1 + y1 * w == x2 + y2 * w,
    ensures
        x1 == x2 && y1 == y2,
{
}

impl Game {
    pub open spec fn width(self) -> int {
        self.game_width as int
    }

    pub open spec fn height(self) -> int {
        self.game_height as int
    }

    pub open spec fn area(self) -> int {
        self.width() * self.height()
    }

    pub open spec fn cells(self) -> Seq<Field> {
        self.game_fields_array@
    }

    pub open spec fn in_bounds(self, x: int, y: int) -> bool {
        0 <= x < self.width() && 0 <= y < self.height()
    }

    pub open spec fn index_of(self, x: int, y: int) -> int {
        x + y * self.width()
    }

    pub open spec fn cell(self, x: int, y: int) -> Field {
        self.cells()[self.index_of(x, y)]
    }

    /// There is a mine at (x, y); false off the board.
    pub open spec fn mine_at(self, x: int, y: int) -> bool {
        self.in_bounds(x, y) && is_mine(self.cell(x, y))
    }

    pub open spec fn mine_ind(self, x: int, y: int) -> int {
        if self.mine_at(x, y) {
            1
        } else {
            0
        }
    }

    /// How many of the up-to-8 neighbors of (x, y) hold a mine.
    pub open spec fn adjacent_mines(self, x: int, y: int) -> int {
        self.mine_ind(x - 1, y - 1) + self.mine_ind(x, y - 1) + self.mine_ind(x + 1, y - 1)
            + self.mine_ind(x - 1, y) + self.mine_ind(x + 1, y) + self.mine_ind(x - 1, y + 1)
            + self.mine_ind(x, y + 1) + self.mine_ind(x + 1, y + 1)
    }

    pub open spec fn marked_ind(self, x: int, y: int) -> int {
        if self.in_bounds(x, y) && self.cell(x, y).is_marked {
            1
        } else {
            0
        }
    }

    /// How many of the up-to-8 neighbors of (x, y) are marked.
    pub open spec fn marked_neighbors(self, x: int, y: int) -> int {
        self.marked_ind(x - 1, y - 1) + self.marked_ind(x, y - 1) + self.marked_ind(x + 1, y - 1)
            + self.marked_ind(x - 1, y) + self.marked_ind(x + 1, y) + self.marked_ind(
            x - 1,
            y + 1,
        ) + self.marked_ind(x, y + 1) + self.marked_ind(x + 1, y + 1)
    }

    /// A non-mine cell's kind encodes its exact mine-adjacency count:
    /// `Empty` for zero, `Pointer(n)` for n >= 1.
    pub open spec fn pointer_ok(t: FieldType, n: int) -> bool {
        match t {
            FieldType::Mine => true,
            FieldType::Empty => n == 0,
            FieldType::Pointer { mines_nearby } => mines_nearby as int == n && 1 <= n,
        }
    }

    pub open spec fn pointers_consistent(self) -> bool {
        forall|x: int, y: int|
            self.in_bounds(x, y) ==> Self::pointer_ok(
                (#[trigger] self.cell(x, y)).field_type,
                self.adjacent_mines(x, y),
            )
    }

    /// The board invariant: the grid has exactly `width * height` cells,
    /// strictly fewer mines than cells, exactly `mine_count` of them, and
    /// every cell's kind matches its mine-adjacency count.
    pub open spec fn wf(self) -> bool {
        &&& self.cells().len() == self.area()
        &&& (self.game_mines_count as int) < self.area()
        &&& count_mines(self.cells()) == self.game_mines_count as int
        &&& self.pointers_consistent()
    }

    /// Bounds-checked mapping from a raw coordinate pair to the
    /// row-major cell index.
    fn get_cell_index(&self, x: i64, y: i64) -> (r: Option<usize>)
        requires
            self.cells().len() == self.area(),
        ensures
            match r {
                Some(i) => self.in_bounds(x as int, y as int) && i as int == self.index_of(
                    x as int,
                    y as int,
                ) && i < self.cells().len(),
                None => !self.in_bounds(x as int, y as int),
            },
    {
        if x < 0 || y < 0 {
            return None;
        }
        if x >= self.game_width as i64 || y >= self.game_height as i64 {
            return None;
        }
        let _n = self.game_fields_array.len();
        proof {
            lemma_index_bounds(self.width(), self.height(), x as int, y as int);
        }
        let idx: u64 = (x as u64) + (y as u64) * (self.game_width as u64);
        Some(idx as usize)
    }

    /// Like `get_cell_index`, for coordinates already known in bounds.
    fn cell_index_in_bounds(&self, x: u32, y: u32) -> (i: usize)
        requires
            self.cells().len() == self.area(),
            (x as int) < self.width(),
            (y as int) < self.height(),
        ensures
            i as int == self.index_of(x as int, y as int),
            i < self.cells().len(),
    {
        let _n = self.game_fields_array.len();
        proof {
            lemma_index_bounds(self.width(), self.height(), x as int, y as int);
        }
        let idx: u64 = (x as u64) + (y as u64) * (self.game_width as u64);
        idx as usize
    }
}

/// A fresh cell: hidden, empty, unmarked.
pub open spec fn blank_field() -> Field {
    Field { field_status: FieldStatus::Unrevealed, field_type: FieldType::Empty, is_marked: false }
}

/// The cell index c occurs in the sequence s.
pub open spec fn contains_index(s: Seq<u64>, c: int) -> bool {
    exists|j: int| 0 <= j < s.len() && (#[trigger] s[j]) as int == c
}

/// The product of two u32-sized factors fits in a u64.
pub proof fn lemma_area_fits_u64(w: int, h: int)
    by (nonlinear_arith)
    requires
        0 <= w < 0x1_0000_0000,
        0 <= h < 0x1_0000_0000,
    ensures
        0 <= w * h < 0x1_0000_0000_0000_0000,
{
}

/// Relies on rand::random: draws an arbitrary machine-random value.
/// Nothing is promised of it; callers must hold for every outcome.
#[verifier::external_body]
fn random_u64() -> u64 {
    rand::random::<u64>()
}

fn blank_fields(total: u64) -> (v: Vec<Field>)
    ensures
        v@.len() == total as int,
        count_mines(v@) == 0,
        forall|j: int| 0 <= j < total as int ==> #[trigger] v@[j] == blank_field(),
{
    let mut v: Vec<Field> = Vec::new();
    let mut i: u64 = 0;
    while i < total
        invariant
            i <= total,
            v@.len() == i as int,
            count_mines(v@) == 0,
            forall|j: int| 0 <= j < i as int ==> #[trigger] v@[j] == blank_field(),
        decreases total - i,
    {
        let bf = Field {
            field_status: FieldStatus::Unrevealed,
            field_type: FieldType::Empty,
            is_marked: false,
        };
        proof {
            crate::counting::lemma_count_mines_push(v@, bf);
        }
        v.push(bf);
        i = i + 1;
    }
    v
}

/// The mine at (mx, my) has already been visited by the derivation pass
/// when its cursor stands at (cx, cy): the pass walks columns left to
/// right, each column top to bottom.
pub open spec fn processed_before(mx: int, my: int, cx: int, cy: int) -> bool {
    mx < cx || (mx == cx && my < cy)
}

fn neighbor_coords(x: i64, y: i64, k: usize) -> (r: (i64, i64))
    requires
        k < 8,
        -0x1_0000_0000_0000 <= x <= 0x1_0000_0000_0000,
        -0x1_0000_0000_0000 <= y <= 0x1_0000_0000_0000,
    ensures
        r.0 as int == spec_neighbor(x as int, y as int, k as int).0,
        r.1 as int == spec_neighbor(x as int, y as int, k as int).1,
{
    match k {
        0 => (x - 1, y - 1),
        1 => (x, y - 1),
        2 => (x + 1, y - 1),
        3 => (x - 1, y),
        4 => (x + 1, y),
        5 => (x - 1, y + 1),
        6 => (x, y + 1),
        _ => (x + 1, y + 1),
    }
}

impl Game {
    pub open spec fn pmine_ind(self, mx: int, my: int, cx: int, cy: int) -> int {
        if self.mine_at(mx, my) && processed_before(mx, my, cx, cy) {
            1
        } else {
            0
        }
    }

    /// How many mine neighbors of (x, y) the derivation pass has already
    /// visited when its cursor stands at (cx, cy).
    pub open spec fn partial_adjacent_mines(self, x: int, y: int, cx: int, cy: int) -> int {
        self.pmine_ind(x - 1, y - 1, cx, cy) + self.pmine_ind(x, y - 1, cx, cy) + self.pmine_ind(
            x + 1,
            y - 1,
            cx,
            cy,
        ) + self.pmine_ind(x - 1, y, cx, cy) + self.pmine_ind(x + 1, y, cx, cy) + self.pmine_ind(
            x - 1,
            y + 1,
            cx,
            cy,
        ) + self.pmine_ind(x, y + 1, cx, cy) + self.pmine_ind(x + 1, y + 1, cx, cy)
    }

    /// A non-mine cell's kind encodes a running count n: `Empty` while
    /// the count is zero, `Pointer(n)` once it is positive.
    pub open spec fn encodes(t: FieldType, n: int) -> bool {
        match t {
            FieldType::Empty => n == 0,
            FieldType::Pointer { mines_nearby } => mines_nearby as int == n && 1 <= n,
            FieldType::Mine => false,
        }
    }

    /// Every non-mine cell encodes the partial count of the derivation
    /// pass whose cursor stands at (cx, cy).
    pub open spec fn partial_encoded(self, cx: int, cy: int) -> bool {
        forall|a: int, b: int|
            #![trigger self.cell(a, b)]
            self.in_bounds(a, b) && !is_mine(self.cell(a, b)) ==> Self::encodes(
                self.cell(a, b).field_type,
                self.partial_adjacent_mines(a, b, cx, cy),
            )
    }

    /// What the derivation pass leaves untouched: dimensions, statuses,
    /// marks, and where the mines are.
    pub open spec fn setup_frame(pre: Game, cur: Game) -> bool {
        &&& cur.game_width == pre.game_width
        &&& cur.game_height == pre.game_height
        &&& cur.game_mines_count == pre.game_mines_count
        &&& cur.game_status == pre.game_status
        &&& cur.cells().len() == pre.cells().len()
        &&& forall|i: int|
            0 <= i < pre.cells().len() ==> {
                &&& (#[trigger] cur.cells()[i]).field_status == pre.cells()[i].field_status
                &&& cur.cells()[i].is_marked == pre.cells()[i].is_marked
                &&& is_mine(cur.cells()[i]) == is_mine(pre.cells()[i])
            }
    }
}

proof fn lemma_mine_at_congruent(pre: Game, cur: Game)
    requires
        cur.game_width == pre.game_width,
        cur.game_height == pre.game_height,
        cur.cells().len() == pre.cells().len(),
        forall|i: int|
            0 <= i < pre.cells().len() ==> is_mine(#[trigger] cur.cells()[i]) == is_mine(
                pre.cells()[i],
            ),
        pre.cells().len() == pre.area(),
    ensures
        forall|x: int, y: int| #[trigger] cur.mine_at(x, y) == pre.mine_at(x, y),
{
    assert forall|x: int, y: int| #[trigger] cur.mine_at(x, y) == pre.mine_at(x, y) by {
        if pre.in_bounds(x, y) {
            lemma_index_bounds(pre.width(), pre.height(), x, y);
        }
    }
}

proof fn lemma_partial_step(g: Game, a: int, b: int, cx: int, cy: int)
    ensures
        g.partial_adjacent_mines(a, b, cx, cy + 1) == g.partial_adjacent_mines(a, b, cx, cy) + (
        if g.mine_at(cx, cy) && adjacent(a, b, cx, cy) {
            1int
        } else {
            0int
        }),
{
}

proof fn lemma_partial_column_wrap(g: Game, a: int, b: int, cx: int)
    ensures
        g.partial_adjacent_mines(a, b, cx, g.height()) == g.partial_adjacent_mines(
            a,
            b,
            cx + 1,
            0,
        ),
{
}

proof fn lemma_partial_complete(g: Game, a: int, b: int)
    ensures
        g.partial_adjacent_mines(a, b, g.width(), 0) == g.adjacent_mines(a, b),
{
}

proof fn lemma_partial_initial(g: Game, a: int, b: int)
    ensures
        g.partial_adjacent_mines(a, b, 0, 0) == 0,
{
}

proof fn lemma_partial_lt_when_unprocessed_adjacent_mine(g: Game, a: int, b: int, cx: int, cy: int)
    requires
        adjacent(a, b, cx, cy),
        g.mine_at(cx, cy),
    ensures
        g.partial_adjacent_mines(a, b, cx, cy) <= 7,
{
    assert(g.pmine_ind(cx, cy, cx, cy) == 0);
}

/// The cell with its status forced to `Revealed`, all else kept.
pub open spec fn revealed_cell(f: Field) -> Field {
    Field { field_status: FieldStatus::Revealed, ..f }
}

/// What a reveal leaves untouched: dimensions, mine count, every cell's
/// kind and mark; and statuses only advance from hidden to revealed.
pub open spec fn reveal_only(pre: Game, cur: Game) -> bool {
    &&& cur.game_width == pre.game_width
    &&& cur.game_height == pre.game_height
    &&& cur.game_mines_count == pre.game_mines_count
    &&& cur.cells().len() == pre.cells().len()
    &&& forall|i: int|
        0 <= i < pre.cells().len() ==> {
            &&& (#[trigger] cur.cells()[i]).field_type == pre.cells()[i].field_type
            &&& cur.cells()[i].is_marked == pre.cells()[i].is_marked
            &&& (pre.cells()[i].field_status == FieldStatus::Revealed ==> cur.cells()[i].field_status
                == FieldStatus::Revealed)
        }
}

/// Every cell that a reveal has newly opened as `Empty` has all of its
/// in-bounds neighbors opened too: the flood never strands an open
/// empty cell next to a hidden one.
pub open spec fn flood_progress(pre: Game, cur: Game) -> bool {
    forall|a: int, b: int|
        #![trigger cur.cell(a, b)]
        pre.in_bounds(a, b) && pre.cell(a, b).field_status == FieldStatus::Unrevealed && cur.cell(
            a,
            b,
        ).field_status == FieldStatus::Revealed && cur.cell(a, b).field_type == FieldType::Empty
            ==> cur.neighbors_revealed(a, b)
}

/// (c, d) is a cell this reveal newly opened that cascades onward: an
/// empty cell floods all its neighbors; a pointer whose marked-neighbor
/// count exactly matches its number floods its unmarked ones.
pub open spec fn cascades(pre: Game, post: Game, c: int, d: int) -> bool {
    &&& pre.in_bounds(c, d)
    &&& pre.cell(c, d).field_status == FieldStatus::Unrevealed
    &&& post.cell(c, d).field_status == FieldStatus::Revealed
    &&& match pre.cell(c, d).field_type {
        FieldType::Empty => true,
        FieldType::Pointer { mines_nearby } => pre.marked_neighbors(c, d) == mines_nearby as int
            && mines_nearby != 0,
        FieldType::Mine => false,
    }
}

/// A newly opened cell traces back to the flood: it neighbors some
/// newly opened cell that cascades, and is unmarked unless that cell is
/// empty.
pub open spec fn flood_from(pre: Game, post: Game, a: int, b: int) -> bool {
    exists|c: int, d: int|
        #![trigger adjacent(c, d, a, b)]
        adjacent(c, d, a, b) && cascades(pre, post, c, d) && (!(pre.cell(c, d).field_type
            == FieldType::Empty) ==> !pre.cell(a, b).is_marked)
}

/// No cell is opened beyond the flood: everything this reveal newly
/// opened is the target itself or traces back to it through cascading
/// cells.
pub open spec fn flood_bounded(pre: Game, post: Game, x: int, y: int) -> bool {
    forall|a: int, b: int|
        #![trigger post.cell(a, b)]
        pre.in_bounds(a, b) && pre.cell(a, b).field_status == FieldStatus::Unrevealed && post.cell(
            a,
            b,
        ).field_status == FieldStatus::Revealed ==> ((a == x && b == y) || flood_from(
            pre,
            post,
            a,
            b,
        ))
}

impl Game {
    /// All in-bounds neighbors of (x, y) are revealed.
    pub open spec fn neighbors_revealed(self, x: int, y: int) -> bool {
        forall|c: int, d: int|
            #![trigger self.cell(c, d)]
            adjacent(x, y, c, d) && self.in_bounds(c, d) ==> self.cell(c, d).field_status
                == FieldStatus::Revealed
    }

    /// What one reveal call does at its target (x, y), assumed in
    /// bounds: an already-open cell is left alone; a hidden cell is
    /// opened; a mine or an unsatisfied pointer changes nothing else; a
    /// satisfied pointer opens its unmarked neighbors; an empty cell
    /// opens all its neighbors.
    pub open spec fn reveal_target_post(pre: Game, post: Game, x: int, y: int) -> bool {
        let t = pre.cell(x, y);
        &&& (t.field_status == FieldStatus::Revealed ==> post.cells() == pre.cells())
        &&& (t.field_status == FieldStatus::Unrevealed ==> {
            &&& post.cell(x, y).field_status == FieldStatus::Revealed
            &&& (t.field_type == FieldType::Mine ==> post.cells() == pre.cells().update(
                pre.index_of(x, y),
                revealed_cell(t),
            ))
            &&& (match t.field_type {
                FieldType::Pointer { mines_nearby } => {
                    let mc = pre.marked_neighbors(x, y);
                    &&& (mc == 0 || mc != mines_nearby as int ==> post.cells()
                        == pre.cells().update(pre.index_of(x, y), revealed_cell(t)))
                    &&& (mc != 0 && mc == mines_nearby as int ==> forall|a: int, b: int|
                        #![trigger post.cell(a, b)]
                        adjacent(x, y, a, b) && pre.in_bounds(a, b) && !pre.cell(a, b).is_marked
                            ==> post.cell(a, b).field_status == FieldStatus::Revealed)
                },
                _ => true,
            })
            &&& (t.field_type == FieldType::Empty ==> post.neighbors_revealed(x, y))
        })
    }
}

proof fn lemma_reveal_only_trans(g0: Game, g1: Game, g2: Game)
    requires
        reveal_only(g0, g1),
        reveal_only(g1, g2),
    ensures
        reveal_only(g0, g2),
{
}

proof fn lemma_flood_progress_trans(g0: Game, g1: Game, g2: Game)
    requires
        g0.cells().len() == g0.area(),
        reveal_only(g0, g1),
        reveal_only(g1, g2),
        flood_progress(g0, g1),
        flood_progress(g1, g2),
    ensures
        flood_progress(g0, g2),
{
    assert forall|a: int, b: int|
        #![trigger g2.cell(a, b)]
        g0.in_bounds(a, b) && g0.cell(a, b).field_status == FieldStatus::Unrevealed && g2.cell(
            a,
            b,
        ).field_status == FieldStatus::Revealed && g2.cell(a, b).field_type
        == FieldType::Empty implies g2.neighbors_revealed(a, b) by {
        lemma_index_bounds(g0.width(), g0.height(), a, b);
        if g1.cell(a, b).field_status == FieldStatus::Revealed {
            assert(g1.cell(a, b).field_type == FieldType::Empty);
            assert(g1.neighbors_revealed(a, b));
            assert forall|c: int, d: int|
                #![trigger g2.cell(c, d)]
                adjacent(a, b, c, d) && g2.in_bounds(c, d) implies g2.cell(c, d).field_status
                == FieldStatus::Revealed by {
                lemma_index_bounds(g0.width(), g0.height(), c, d);
                assert(g1.cell(c, d).field_status == FieldStatus::Revealed);
            }
        }
    }
}

/// An operation that touches no cell's kind preserves the board
/// invariant: the mine count and the adjacency encoding stand.
proof fn lemma_wf_preserved(pre: Game, cur: Game)
    requires
        pre.wf(),
        cur.game_width == pre.game_width,
        cur.game_height == pre.game_height,
        cur.game_mines_count == pre.game_mines_count,
        cur.cells().len() == pre.cells().len(),
        forall|i: int|
            0 <= i < pre.cells().len() ==> (#[trigger] cur.cells()[i]).field_type
                == pre.cells()[i].field_type,
    ensures
        cur.wf(),
{
    lemma_count_mines_congruent(pre.cells(), cur.cells());
    lemma_mine_at_congruent(pre, cur);
    assert forall|x: int, y: int|
        cur.in_bounds(x, y) implies Game::pointer_ok(
        (#[trigger] cur.cell(x, y)).field_type,
        cur.adjacent_mines(x, y),
    ) by {
        lemma_index_bounds(pre.width(), pre.height(), x, y);
        assert(Game::pointer_ok(pre.cell(x, y).field_type, pre.adjacent_mines(x, y)));
        assert(cur.adjacent_mines(x, y) == pre.adjacent_mines(x, y));
    }
}

proof fn lemma_marked_neighbors_congruent(pre: Game, cur: Game, x: int, y: int)
    requires
        cur.game_width == pre.game_width,
        cur.game_height == pre.game_height,
        cur.cells().len() == pre.cells().len(),
        pre.cells().len() == pre.area(),
        forall|i: int|
            0 <= i < pre.cells().len() ==> (#[trigger] cur.cells()[i]).is_marked
                == pre.cells()[i].is_marked,
    ensures
        cur.marked_neighbors(x, y) == pre.marked_neighbors(x, y),
{
    assert forall|a: int, b: int| #[trigger] cur.marked_ind(a, b) == pre.marked_ind(a, b) by {
        if pre.in_bounds(a, b) {
            lemma_index_bounds(pre.width(), pre.height(), a, b);
        }
    }
}

impl Game {
    /// The adjacency-derivation pass: walk every cell; at each mine,
    /// bump the running count of each in-bounds non-mine neighbor, so
    /// that afterwards every cell's kind matches its exact
    /// mine-adjacency count.
    #[verifier::rlimit(50)]
    fn setup_pointers(&mut self)
        requires
            old(self).cells().len() == old(self).area(),
            forall|i: int|
                0 <= i < old(self).cells().len() ==> ((#[trigger] old(self).cells()[i]).field_type
                    == FieldType::Mine || old(self).cells()[i].field_type == FieldType::Empty),
        ensures
            Game::setup_frame(*old(self), *final(self)),
            final(self).pointers_consistent(),
    {
        let w = self.game_width;
        let h = self.game_height;
        proof {
            assert forall|a: int, b: int|
                #![trigger self.cell(a, b)]
                self.in_bounds(a, b) && !is_mine(self.cell(a, b)) implies Self::encodes(
                self.cell(a, b).field_type,
                self.partial_adjacent_mines(a, b, 0, 0),
            ) by {
                lemma_index_bounds(self.width(), self.height(), a, b);
                lemma_partial_initial(*self, a, b);
            }
        }
        let mut x: u32 = 0;
        while x < w
            invariant
                x <= w,
                w == old(self).game_width,
                h == old(self).game_height,
                old(self).cells().len() == old(self).area(),
                Game::setup_frame(*old(self), *self),
                self.partial_encoded(x as int, 0),
            decreases w - x,
        {
            let mut y: u32 = 0;
            while y < h
                invariant
                    x < w,
                    y <= h,
                    w == old(self).game_width,
                    h == old(self).game_height,
                    old(self).cells().len() == old(self).area(),
                    Game::setup_frame(*old(self), *self),
                    self.partial_encoded(x as int, y as int),
                decreases h - y,
            {
                let ci = self.cell_index_in_bounds(x, y);
                if self.game_fields_array[ci].field_type == FieldType::Mine {
                    proof {
                        assert(self.mine_at(x as int, y as int));
                    }
                    let ghost s0 = *self;
                    let mut k: usize = 0;
                    while k < 8
                        invariant
                            k <= 8,
                            x < w,
                            y < h,
                            w == s0.game_width,
                            h == s0.game_height,
                            old(self).cells().len() == old(self).area(),
                            Game::setup_frame(*old(self), s0),
                            Game::setup_frame(s0, *self),
                            s0.cells().len() == s0.area(),
                            s0.mine_at(x as int, y as int),
                            s0.partial_encoded(x as int, y as int),
                            forall|a: int, b: int|
                                #![trigger self.cell(a, b)]
                                s0.in_bounds(a, b) && !s0.mine_at(a, b) ==> (if exists|l: int|
                                    0 <= l < k && #[trigger] spec_neighbor(
                                        x as int,
                                        y as int,
                                        l,
                                    ) == (a, b) {
                                    Self::encodes(
                                        self.cell(a, b).field_type,
                                        s0.partial_adjacent_mines(a, b, x as int, y as int) + 1,
                                    )
                                } else {
                                    Self::encodes(
                                        self.cell(a, b).field_type,
                                        s0.partial_adjacent_mines(a, b, x as int, y as int),
                                    )
                                }),
                        decreases 8 - k,
                    {
                        proof {
                            lemma_mine_at_congruent(s0, *self);
                            lemma_neighbor_distinct(x as int, y as int);
                        }
                        let (nx, ny) = neighbor_coords(x as i64, y as i64, k);
                        let ghost prev = *self;
                        match self.get_cell_index(nx, ny) {
                            Some(i) => {
                                let f = self.game_fields_array[i];
                                proof {
                                    assert(f == self.cell(nx as int, ny as int));
                                    if !is_mine(f) {
                                        assert(s0.in_bounds(nx as int, ny as int));
                                        assert(!s0.mine_at(nx as int, ny as int));
                                        assert(!(exists|l: int|
                                            0 <= l < k && #[trigger] spec_neighbor(
                                                x as int,
                                                y as int,
                                                l,
                                            ) == (nx as int, ny as int)));
                                        assert(Self::encodes(
                                            f.field_type,
                                            s0.partial_adjacent_mines(
                                                nx as int,
                                                ny as int,
                                                x as int,
                                                y as int,
                                            ),
                                        ));
                                        lemma_neighbor_adjacent(x as int, y as int);
                                        lemma_partial_lt_when_unprocessed_adjacent_mine(
                                            s0,
                                            nx as int,
                                            ny as int,
                                            x as int,
                                            y as int,
                                        );
                                    }
                                }
                                match f.field_type {
                                    FieldType::Empty => {
                                        let f2 = Field {
                                            field_type: FieldType::Pointer { mines_nearby: 1 },
                                            ..f
                                        };
                                        self.game_fields_array[i] = f2;
                                    },
                                    FieldType::Pointer { mines_nearby } => {
                                        let f2 = Field {
                                            field_type: FieldType::Pointer {
                                                mines_nearby: mines_nearby + 1,
                                            },
                                            ..f
                                        };
                                        self.game_fields_array[i] = f2;
                                    },
                                    FieldType::Mine => {},
                                }
                                proof {
                                    assert forall|a: int, b: int|
                                        #![trigger self.cell(a, b)]
                                        s0.in_bounds(a, b) && !s0.mine_at(a, b) && !(a == nx as int
                                            && b == ny as int) implies self.cell(a, b)
                                        == prev.cell(a, b) by {
                                        lemma_index_bounds(s0.width(), s0.height(), a, b);
                                        if s0.index_of(a, b) == s0.index_of(nx as int, ny as int) {
                                            lemma_index_injective(
                                                s0.width(),
                                                a,
                                                b,
                                                nx as int,
                                                ny as int,
                                            );
                                        }
                                    }
                                }
                            },
                            None => {
                                proof {
                                    assert(!s0.in_bounds(nx as int, ny as int));
                                }
                            },
                        }
                        k = k + 1;
                    }
                    proof {
                        lemma_mine_at_congruent(s0, *self);
                        lemma_neighbor_adjacent(x as int, y as int);
                        assert forall|a: int, b: int|
                            #![trigger self.cell(a, b)]
                            self.in_bounds(a, b) && !is_mine(self.cell(a, b)) implies Self::encodes(
                            self.cell(a, b).field_type,
                            self.partial_adjacent_mines(a, b, x as int, y as int + 1),
                        ) by {
                            lemma_index_bounds(s0.width(), s0.height(), a, b);
                            lemma_partial_step(s0, a, b, x as int, y as int);
                            if adjacent(a, b, x as int, y as int) {
                                lemma_adjacent_has_index(x as int, y as int, a, b);
                            }
                            assert(self.partial_adjacent_mines(a, b, x as int, y as int)
                                == s0.partial_adjacent_mines(a, b, x as int, y as int));
                            assert(self.partial_adjacent_mines(a, b, x as int, y as int + 1)
                                == s0.partial_adjacent_mines(a, b, x as int, y as int + 1));
                        }
                    }
                } else {
                    proof {
                        assert(!self.mine_at(x as int, y as int));
                        assert forall|a: int, b: int|
                            #![trigger self.cell(a, b)]
                            self.in_bounds(a, b) && !is_mine(self.cell(a, b)) implies Self::encodes(
                            self.cell(a, b).field_type,
                            self.partial_adjacent_mines(a, b, x as int, y as int + 1),
                        ) by {
                            lemma_index_bounds(self.width(), self.height(), a, b);
                            lemma_partial_step(*self, a, b, x as int, y as int);
                        }
                    }
                }
                y = y + 1;
            }
            proof {
                assert forall|a: int, b: int|
                    #![trigger self.cell(a, b)]
                    self.in_bounds(a, b) && !is_mine(self.cell(a, b)) implies Self::encodes(
                    self.cell(a, b).field_type,
                    self.partial_adjacent_mines(a, b, x as int + 1, 0),
                ) by {
                    lemma_index_bounds(self.width(), self.height(), a, b);
                    lemma_partial_column_wrap(*self, a, b, x as int);
                }
            }
            x = x + 1;
        }
        proof {
            assert forall|a: int, b: int|
                self.in_bounds(a, b) implies Self::pointer_ok(
                (#[trigger] self.cell(a, b)).field_type,
                self.adjacent_mines(a, b),
            ) by {
                lemma_index_bounds(self.width(), self.height(), a, b);
                if !is_mine(self.cell(a, b)) {
                    lemma_partial_complete(*self, a, b);
                }
            }
        }
    }

    /// Build a fresh board: every cell hidden, empty and unmarked, then
    /// exactly `game_mines_count` distinct cells mined at random, then
    /// the adjacency counts derived. Rejected if and only if the mine
    /// count is not below the cell count.
    pub fn new(game_width: u32, game_height: u32, game_mines_count: u32) -> (r: Result<
        Game,
        ConfigError,
    >)
        ensures
            match r {
                Ok(g) => {
                    &&& (game_mines_count as int) < (game_width as int) * (game_height as int)
                    &&& g.wf()
                    &&& g.game_width == game_width
                    &&& g.game_height == game_height
                    &&& g.game_mines_count == game_mines_count
                    &&& g.game_status == GameStatus::Playing
                    &&& forall|i: int|
                        0 <= i < g.cells().len() ==> (#[trigger] g.cells()[i]).field_status
                            == FieldStatus::Unrevealed && !g.cells()[i].is_marked
                },
                Err(e) => {
                    &&& e == ConfigError::TooManyMines
                    &&& (game_mines_count as int) >= (game_width as int) * (game_height as int)
                },
            },
    {
        proof {
            lemma_area_fits_u64(game_width as int, game_height as int);
        }
        let total: u64 = (game_width as u64) * (game_height as u64);
        if game_mines_count as u64 >= total {
            return Err(ConfigError::TooManyMines);
        }
        let mut fields: Vec<Field> = blank_fields(total);
        let mut empty_fields: Vec<u64> = Vec::new();
        let mut i: u64 = 0;
        while i < total
            invariant
                i <= total,
                empty_fields@.len() == i as int,
                forall|j: int| 0 <= j < i as int ==> (#[trigger] empty_fields@[j]) as int == j,
            decreases total - i,
        {
            empty_fields.push(i);
            i = i + 1;
        }
        proof {
            assert forall|c: int| 0 <= c < total as int implies contains_index(
                empty_fields@,
                c,
            ) by {
                assert((empty_fields@[c]) as int == c);
            }
        }
        let mut placed: u32 = 0;
        while placed < game_mines_count
            invariant
                placed <= game_mines_count,
                (game_mines_count as u64) < total,
                fields@.len() == total as int,
                empty_fields@.len() == total as int - placed as int,
                count_mines(fields@) == placed as int,
                forall|j: int|
                    0 <= j < empty_fields@.len() ==> ((#[trigger] empty_fields@[j]) as int)
                        < total as int,
                forall|j1: int, j2: int|
                    #![trigger empty_fields@[j1], empty_fields@[j2]]
                    0 <= j1 < j2 < empty_fields@.len() ==> empty_fields@[j1] != empty_fields@[j2],
                forall|c: int|
                    0 <= c < total as int ==> (is_mine(#[trigger] fields@[c]) <==> !contains_index(
                        empty_fields@,
                        c,
                    )),
                forall|c: int|
                    0 <= c < total as int ==> (#[trigger] fields@[c]).field_status
                        == FieldStatus::Unrevealed && !fields@[c].is_marked && (fields@[c].field_type
                        == FieldType::Mine || fields@[c].field_type == FieldType::Empty),
            decreases game_mines_count - placed,
        {
            let len: usize = empty_fields.len();
            let r = random_u64();
            let index: usize = (r % (len as u64)) as usize;
            let target: u64 = empty_fields[index];
            let ghost pre_fields = fields@;
            let ghost pre_pool = empty_fields@;
            proof {
                assert(contains_index(pre_pool, target as int));
            }
            let _fl: usize = fields.len();
            let ti: usize = target as usize;
            let f = fields[ti];
            let f2 = Field { field_type: FieldType::Mine, ..f };
            fields[ti] = f2;
            proof {
                lemma_count_mines_update(pre_fields, target as int, f2);
            }
            let _removed = empty_fields.remove(index);
            proof {
                let pool2 = empty_fields@;
                assert forall|j1: int, j2: int|
                    #![trigger pool2[j1], pool2[j2]]
                    0 <= j1 < j2 < pool2.len() implies pool2[j1] != pool2[j2] by {
                    let m1: int = if j1 < index as int {
                        j1
                    } else {
                        j1 + 1
                    };
                    let m2: int = if j2 < index as int {
                        j2
                    } else {
                        j2 + 1
                    };
                    assert(pool2[j1] == pre_pool[m1]);
                    assert(pool2[j2] == pre_pool[m2]);
                }
                assert forall|c: int|
                    0 <= c < total as int implies (is_mine(#[trigger] fields@[c])
                    <==> !contains_index(pool2, c)) by {
                    if c == target as int {
                        assert(is_mine(fields@[c]));
                        if contains_index(pool2, c) {
                            let j = choose|j: int|
                                0 <= j < pool2.len() && (#[trigger] pool2[j]) as int == c;
                            if j < index as int {
                                assert(pool2[j] == pre_pool[j]);
                                assert(pre_pool[j] == pre_pool[index as int]);
                                assert(false);
                            } else {
                                assert(pool2[j] == pre_pool[j + 1]);
                                assert(pre_pool[j + 1] == pre_pool[index as int]);
                                assert(false);
                            }
                        }
                    } else {
                        assert(fields@[c] == pre_fields[c]);
                        if contains_index(pre_pool, c) {
                            let j = choose|j: int|
                                0 <= j < pre_pool.len() && (#[trigger] pre_pool[j]) as int == c;
                            assert(j != index as int);
                            if j < index as int {
                                assert(pool2[j] as int == c);
                            } else {
                                assert(pool2[j - 1] == pre_pool[j]);
                                assert(pool2[j - 1] as int == c);
                            }
                            assert(contains_index(pool2, c));
                        }
                        if contains_index(pool2, c) {
                            let j = choose|j: int|
                                0 <= j < pool2.len() && (#[trigger] pool2[j]) as int == c;
                            if j < index as int {
                                assert(pre_pool[j] as int == c);
                            } else {
                                assert(pool2[j] == pre_pool[j + 1]);
                                assert(pre_pool[j + 1] as int == c);
                            }
                            assert(contains_index(pre_pool, c));
                        }
                    }
                }
            }
            placed = placed + 1;
        }
        let mut g = Game {
            game_width,
            game_height,
            game_mines_count,
            game_fields_array: fields,
            game_status: GameStatus::Playing,
        };
        let ghost pre_setup = g;
        g.setup_pointers();
        proof {
            lemma_count_mines_congruent(pre_setup.cells(), g.cells());
        }
        Ok(g)
    }

    /// Build a board with mines at exactly the given distinct cell
    /// indices, then derive the adjacency counts. This deterministic
    /// constructor is the seam that lets callers pin the minefield.
    pub fn with_mines(game_width: u32, game_height: u32, mines: &Vec<u64>) -> (g: Game)
        requires
            (mines@.len() as int) < (game_width as int) * (game_height as int),
            mines@.len() < 0x1_0000_0000,
            forall|j: int|
                0 <= j < mines@.len() ==> ((#[trigger] mines@[j]) as int) < (game_width as int)
                    * (game_height as int),
            forall|j1: int, j2: int|
                #![trigger mines@[j1], mines@[j2]]
                0 <= j1 < j2 < mines@.len() ==> mines@[j1] != mines@[j2],
        ensures
            g.wf(),
            g.game_width == game_width,
            g.game_height == game_height,
            g.game_mines_count as int == mines@.len(),
            g.game_status == GameStatus::Playing,
            forall|i: int|
                0 <= i < g.cells().len() ==> (#[trigger] g.cells()[i]).field_status
                    == FieldStatus::Unrevealed && !g.cells()[i].is_marked,
            forall|i: int|
                0 <= i < g.cells().len() ==> (is_mine(#[trigger] g.cells()[i]) <==> contains_index(
                    mines@,
                    i,
                )),
    {
        proof {
            lemma_area_fits_u64(game_width as int, game_height as int);
        }
        let total: u64 = (game_width as u64) * (game_height as u64);
        let mut fields: Vec<Field> = blank_fields(total);
        let mut j: usize = 0;
        while j < mines.len()
            invariant
                j <= mines@.len(),
                (mines@.len() as int) < total as int,
                total as int == (game_width as int) * (game_height as int),
                forall|l: int|
                    0 <= l < mines@.len() ==> ((#[trigger] mines@[l]) as int) < total as int,
                forall|l1: int, l2: int|
                    #![trigger mines@[l1], mines@[l2]]
                    0 <= l1 < l2 < mines@.len() ==> mines@[l1] != mines@[l2],
                fields@.len() == total as int,
                count_mines(fields@) == j as int,
                forall|c: int|
                    0 <= c < total as int ==> (is_mine(#[trigger] fields@[c]) <==> exists|l: int|
                        0 <= l < j as int && (#[trigger] mines@[l]) as int == c),
                forall|c: int|
                    0 <= c < total as int ==> (#[trigger] fields@[c]).field_status
                        == FieldStatus::Unrevealed && !fields@[c].is_marked && (fields@[c].field_type
                        == FieldType::Mine || fields@[c].field_type == FieldType::Empty),
            decreases mines@.len() - j,
        {
            let target: u64 = mines[j];
            let ghost pre_fields = fields@;
            let _fl: usize = fields.len();
            let ti: usize = target as usize;
            let f = fields[ti];
            let f2 = Field { field_type: FieldType::Mine, ..f };
            fields[ti] = f2;
            proof {
                if is_mine(pre_fields[target as int]) {
                    let l = choose|l: int|
                        0 <= l < j as int && (#[trigger] mines@[l]) as int == target as int;
                    assert(mines@[l] == mines@[j as int]);
                    assert(false);
                }
                lemma_count_mines_update(pre_fields, target as int, f2);
                assert forall|c: int|
                    0 <= c < total as int implies (is_mine(#[trigger] fields@[c]) <==> exists|l: int|
                        0 <= l < j as int + 1 && (#[trigger] mines@[l]) as int == c) by {
                    if c == target as int {
                        assert(mines@[j as int] as int == c);
                    } else {
                        assert(fields@[c] == pre_fields[c]);
                        if exists|l: int|
                            0 <= l < j as int + 1 && (#[trigger] mines@[l]) as int == c {
                            let l = choose|l: int|
                                0 <= l < j as int + 1 && (#[trigger] mines@[l]) as int == c;
                            assert(l != j as int);
                            assert(exists|l2: int|
                                0 <= l2 < j as int && (#[trigger] mines@[l2]) as int == c);
                        }
                    }
                }
            }
            j = j + 1;
        }
        let mut g = Game {
            game_width,
            game_height,
            game_mines_count: mines.len() as u32,
            game_fields_array: fields,
            game_status: GameStatus::Playing,
        };
        let ghost pre_setup = g;
        g.setup_pointers();
        proof {
            lemma_count_mines_congruent(pre_setup.cells(), g.cells());
        }
        g
    }


    /// Count the marked cells among the up-to-8 neighbors of (x, y).
    #[verifier::rlimit(50)]
    fn count_marked_neighbors(&self, x: i64, y: i64) -> (r: u8)
        requires
            self.cells().len() == self.area(),
            -0x1_0000_0000_0000 <= x <= 0x1_0000_0000_0000,
            -0x1_0000_0000_0000 <= y <= 0x1_0000_0000_0000,
        ensures
            r as int == self.marked_neighbors(x as int, y as int),
    {
        let mut marked_around: u8 = 0;
        match self.get_cell_index(x - 1, y - 1) {
            Some(i) => {
                if self.game_fields_array[i].is_marked {
                    marked_around = marked_around + 1;
                }
            },
            None => {},
        }
        assert(marked_around as int == self.marked_ind(x as int - 1, y as int - 1));
        match self.get_cell_index(x, y - 1) {
            Some(i) => {
                if self.game_fields_array[i].is_marked {
                    marked_around = marked_around + 1;
                }
            },
            None => {},
        }
        assert(marked_around as int == self.marked_ind(x as int - 1, y as int - 1)
            + self.marked_ind(x as int, y as int - 1));
        match self.get_cell_index(x + 1, y - 1) {
            Some(i) => {
                if self.game_fields_array[i].is_marked {
                    marked_around = marked_around + 1;
                }
            },
            None => {},
        }
        assert(marked_around as int == self.marked_ind(x as int - 1, y as int - 1)
            + self.marked_ind(x as int, y as int - 1) + self.marked_ind(
            x as int + 1,
            y as int - 1,
        ));
        match self.get_cell_index(x - 1, y) {
            Some(i) => {
                if self.game_fields_array[i].is_marked {
                    marked_around = marked_around + 1;
                }
            },
            None => {},
        }
        assert(marked_around as int == self.marked_ind(x as int - 1, y as int - 1)
            + self.marked_ind(x as int, y as int - 1) + self.marked_ind(
            x as int + 1,
            y as int - 1,
        ) + self.marked_ind(x as int - 1, y as int));
        match self.get_cell_index(x + 1, y) {
            Some(i) => {
                if self.game_fields_array[i].is_marked {
                    marked_around = marked_around + 1;
                }
            },
            None => {},
        }
        assert(marked_around as int == self.marked_ind(x as int - 1, y as int - 1)
            + self.marked_ind(x as int, y as int - 1) + self.marked_ind(
            x as int + 1,
            y as int - 1,
        ) + self.marked_ind(x as int - 1, y as int) + self.marked_ind(x as int + 1, y as int));
        match self.get_cell_index(x - 1, y + 1) {
            Some(i) => {
                if self.game_fields_array[i].is_marked {
                    marked_around = marked_around + 1;
                }
            },
            None => {},
        }
        assert(marked_around as int == self.marked_ind(x as int - 1, y as int - 1)
            + self.marked_ind(x as int, y as int - 1) + self.marked_ind(
            x as int + 1,
            y as int - 1,
        ) + self.marked_ind(x as int - 1, y as int) + self.marked_ind(x as int + 1, y as int)
            + self.marked_ind(x as int - 1, y as int + 1));
        match self.get_cell_index(x, y + 1) {
            Some(i) => {
                if self.game_fields_array[i].is_marked {
                    marked_around = marked_around + 1;
                }
            },
            None => {},
        }
        assert(marked_around as int == self.marked_ind(x as int - 1, y as int - 1)
            + self.marked_ind(x as int, y as int - 1) + self.marked_ind(
            x as int + 1,
            y as int - 1,
        ) + self.marked_ind(x as int - 1, y as int) + self.marked_ind(x as int + 1, y as int)
            + self.marked_ind(x as int - 1, y as int + 1) + self.marked_ind(
            x as int,
            y as int + 1,
        ));
        match self.get_cell_index(x + 1, y + 1) {
            Some(i) => {
                if self.game_fields_array[i].is_marked {
                    marked_around = marked_around + 1;
                }
            },
            None => {},
        }
        assert(marked_around as int == self.marked_neighbors(x as int, y as int));
        marked_around
    }

    /// The recursive flood reveal. Opens the target cell; an empty cell
    /// cascades into all 8 neighbors, a satisfied pointer cascades into
    /// its unmarked neighbors, anything else stops the flood.
    #[verifier::spinoff_prover]
    #[verifier::rlimit(100)]
    fn flood_reveal(&mut self, x: i64, y: i64)
        requires
            old(self).wf(),
            -0x1_0000_0000_0000 <= x <= 0x1_0000_0000_0000,
            -0x1_0000_0000_0000 <= y <= 0x1_0000_0000_0000,
        ensures
            final(self).wf(),
            reveal_only(*old(self), *final(self)),
            final(self).game_status == old(self).game_status,
            count_unrevealed(final(self).cells()) <= count_unrevealed(old(self).cells()),
            flood_progress(*old(self), *final(self)),
            !old(self).in_bounds(x as int, y as int) ==> final(self).cells() == old(self).cells(),
            old(self).in_bounds(x as int, y as int) ==> Game::reveal_target_post(
                *old(self),
                *final(self),
                x as int,
                y as int,
            ),
            old(self).in_bounds(x as int, y as int) ==> flood_bounded(
                *old(self),
                *final(self),
                x as int,
                y as int,
            ),
        decreases count_unrevealed(old(self).cells()), 0int,
    {
        let idx_opt = self.get_cell_index(x, y);
        let c = match idx_opt {
            None => {
                return ;
            },
            Some(c) => c,
        };
        let f = self.game_fields_array[c];
        proof {
            assert(f == old(self).cell(x as int, y as int));
        }
        if f.field_status == FieldStatus::Revealed {
            return ;
        }
        let f2 = Field { field_status: FieldStatus::Revealed, ..f };
        self.game_fields_array[c] = f2;
        let ghost s1 = *self;
        proof {
            lemma_count_unrevealed_update(old(self).cells(), c as int, f2);
            lemma_wf_preserved(*old(self), s1);
            assert forall|a: int, b: int|
                #![trigger s1.cell(a, b)]
                old(self).in_bounds(a, b) && !(a == x as int && b == y as int) implies s1.cell(a, b)
                == old(self).cell(a, b) by {
                lemma_index_bounds(old(self).width(), old(self).height(), a, b);
                if old(self).index_of(a, b) == c as int {
                    lemma_index_injective(old(self).width(), a, b, x as int, y as int);
                }
            }
        
            assert forall|a: int, b: int|
                #![trigger s1.cell(a, b)]
                old(self).in_bounds(a, b) && old(self).cell(a, b).field_status
                    == FieldStatus::Unrevealed && s1.cell(a, b).field_status
                    == FieldStatus::Revealed implies ((a == x as int && b == y as int)
                || flood_from(*old(self), s1, a, b)) by {
                if !(a == x as int && b == y as int) {
                    assert(s1.cell(a, b) == old(self).cell(a, b));
                }
            }
            assert(flood_bounded(*old(self), s1, x as int, y as int));
        }
        match f.field_type {
            FieldType::Pointer { mines_nearby } => {
                let marked_around = self.count_marked_neighbors(x, y);
                proof {
                    lemma_marked_neighbors_congruent(*old(self), s1, x as int, y as int);
                }
                if marked_around != 0 && marked_around == mines_nearby {
                    proof {
                        crate::counting::lemma_count_unrevealed_bounds(self.cells());
                    }
                    self.reveal_neighbors(x, y, true);
                    proof {
                        lemma_flood_progress_trans_from_update(*old(self), s1, *self, x, y);
                        assert(self.cell(x as int, y as int).field_status
                            == FieldStatus::Revealed);
                        assert(cascades(*old(self), *self, x as int, y as int));
                        lemma_flood_bounded_step(*old(self), s1, *self, x as int, y as int, true);
                        assert forall|a: int, b: int|
                            #![trigger self.cell(a, b)]
                            adjacent(x as int, y as int, a, b) && old(self).in_bounds(a, b) && !old(
                                self,
                            ).cell(a, b).is_marked implies self.cell(a, b).field_status
                            == FieldStatus::Revealed by {
                            lemma_index_bounds(old(self).width(), old(self).height(), a, b);
                        }
                    }
                }
            },
            FieldType::Empty => {
                proof {
                    crate::counting::lemma_count_unrevealed_bounds(self.cells());
                }
                self.reveal_neighbors(x, y, false);
                proof {
                    lemma_flood_progress_trans_from_update(*old(self), s1, *self, x, y);
                    assert(self.neighbors_revealed(x as int, y as int));
                    assert(self.cell(x as int, y as int).field_status == FieldStatus::Revealed);
                    assert(cascades(*old(self), *self, x as int, y as int));
                    lemma_flood_bounded_step(*old(self), s1, *self, x as int, y as int, false);
                }
            },
            FieldType::Mine => {},
        }
    }

    /// Cascade one reveal into the 8 neighbors of (x, y), skipping
    /// marked neighbors when asked to (the chord rule keeps flags shut).
    #[verifier::spinoff_prover]
    #[verifier::rlimit(100)]
    fn reveal_neighbors(&mut self, x: i64, y: i64, skip_marked: bool)
        requires
            old(self).wf(),
            -0x1_0000_0000_0000 <= x <= 0x1_0000_0000_0000,
            -0x1_0000_0000_0000 <= y <= 0x1_0000_0000_0000,
        ensures
            final(self).wf(),
            reveal_only(*old(self), *final(self)),
            final(self).game_status == old(self).game_status,
            count_unrevealed(final(self).cells()) <= count_unrevealed(old(self).cells()),
            flood_progress(*old(self), *final(self)),
            forall|a: int, b: int|
                #![trigger final(self).cell(a, b)]
                adjacent(x as int, y as int, a, b) && old(self).in_bounds(a, b) && (skip_marked
                    ==> !old(self).cell(a, b).is_marked) ==> final(self).cell(a, b).field_status
                    == FieldStatus::Revealed,
            forall|a: int, b: int|
                #![trigger final(self).cell(a, b)]
                old(self).in_bounds(a, b) && old(self).cell(a, b).field_status
                    == FieldStatus::Unrevealed && final(self).cell(a, b).field_status
                    == FieldStatus::Revealed ==> ((adjacent(x as int, y as int, a, b) && (
                skip_marked ==> !old(self).cell(a, b).is_marked)) || flood_from(
                    *old(self),
                    *final(self),
                    a,
                    b,
                )),
        decreases count_unrevealed(old(self).cells()), 1int,
    {
        let mut k: usize = 0;
        while k < 8
            invariant
                k <= 8,
                -0x1_0000_0000_0000 <= x <= 0x1_0000_0000_0000,
                -0x1_0000_0000_0000 <= y <= 0x1_0000_0000_0000,
                self.wf(),
                reveal_only(*old(self), *self),
                self.game_status == old(self).game_status,
                count_unrevealed(self.cells()) <= count_unrevealed(old(self).cells()),
                flood_progress(*old(self), *self),
                forall|l: int|
                    0 <= l < k ==> {
                        let p = #[trigger] spec_neighbor(x as int, y as int, l);
                        old(self).in_bounds(p.0, p.1) && (skip_marked ==> !old(self).cell(
                            p.0,
                            p.1,
                        ).is_marked) ==> self.cell(p.0, p.1).field_status == FieldStatus::Revealed
                    },
                forall|a: int, b: int|
                    #![trigger self.cell(a, b)]
                    old(self).in_bounds(a, b) && old(self).cell(a, b).field_status
                        == FieldStatus::Unrevealed && self.cell(a, b).field_status
                        == FieldStatus::Revealed ==> ((adjacent(x as int, y as int, a, b) && (
                    skip_marked ==> !old(self).cell(a, b).is_marked)) || flood_from(
                        *old(self),
                        *self,
                        a,
                        b,
                    )),
            decreases 8 - k,
        {
            let (nx, ny) = neighbor_coords(x, y, k);
            let ghost mid = *self;
            match self.get_cell_index(nx, ny) {
                Some(i) => {
                    let skip = skip_marked && self.game_fields_array[i].is_marked;
                    if !skip {
                        proof {
                            crate::counting::lemma_count_unrevealed_bounds(self.cells());
                        }
                        self.flood_reveal(nx, ny);
                        proof {
                            lemma_reveal_only_trans(*old(self), mid, *self);
                            lemma_flood_progress_trans(*old(self), mid, *self);
                            assert(self.cell(nx as int, ny as int).field_status
                                == FieldStatus::Revealed);
                            lemma_neighbor_adjacent(x as int, y as int);
                            assert forall|a: int, b: int|
                                #![trigger self.cell(a, b)]
                                old(self).in_bounds(a, b) && old(self).cell(a, b).field_status
                                    == FieldStatus::Unrevealed && self.cell(a, b).field_status
                                    == FieldStatus::Revealed implies ((adjacent(
                                x as int,
                                y as int,
                                a,
                                b,
                            ) && (skip_marked ==> !old(self).cell(a, b).is_marked)) || flood_from(
                                *old(self),
                                *self,
                                a,
                                b,
                            )) by {
                                lemma_index_bounds(old(self).width(), old(self).height(), a, b);
                                if mid.cell(a, b).field_status == FieldStatus::Revealed {
                                    if flood_from(*old(self), mid, a, b) {
                                        lemma_flood_from_monotone(*old(self), mid, *self, a, b);
                                    }
                                } else {
                                    assert(mid.in_bounds(a, b));
                                    assert(mid.cell(a, b).field_status == FieldStatus::Unrevealed);
                                    if !(a == nx as int && b == ny as int) {
                                        assert(flood_from(mid, *self, a, b));
                                        lemma_flood_from_back(*old(self), mid, *self, a, b);
                                    } else {
                                        assert(adjacent(x as int, y as int, a, b));
                                        assert(mid.cell(a, b).is_marked == old(self).cell(
                                            a,
                                            b,
                                        ).is_marked);
                                    }
                                }
                            }
                            assert forall|l: int| 0 <= l < k + 1 implies {
                                let p = #[trigger] spec_neighbor(x as int, y as int, l);
                                old(self).in_bounds(p.0, p.1) && (skip_marked ==> !old(self).cell(
                                    p.0,
                                    p.1,
                                ).is_marked) ==> self.cell(p.0, p.1).field_status
                                    == FieldStatus::Revealed
                            } by {
                                let p = spec_neighbor(x as int, y as int, l);
                                if old(self).in_bounds(p.0, p.1) {
                                    lemma_index_bounds(old(self).width(), old(self).height(), p.0, p.1);
                                }
                            }
                        }
                    } else {
                        proof {
                            assert(old(self).cell(nx as int, ny as int).is_marked);
                        }
                    }
                },
                None => {},
            }
            k = k + 1;
        }
        proof {
            assert forall|a: int, b: int|
                #![trigger self.cell(a, b)]
                adjacent(x as int, y as int, a, b) && old(self).in_bounds(a, b) && (skip_marked
                    ==> !old(self).cell(a, b).is_marked) implies self.cell(a, b).field_status
                == FieldStatus::Revealed by {
                lemma_adjacent_has_index(x as int, y as int, a, b);
                let l = choose|l: int|
                    0 <= l < 8 && #[trigger] spec_neighbor(x as int, y as int, l) == (a, b);
                assert(spec_neighbor(x as int, y as int, l).0 == a);
            }
        }
    }
}

/// The cell with its mark toggled, all else kept.
pub open spec fn mark_toggled(f: Field) -> Field {
    Field { is_marked: !f.is_marked, ..f }
}

/// Two boards carry exactly the same externally visible state.
pub open spec fn state_eq(a: Game, b: Game) -> bool {
    &&& b.game_width == a.game_width
    &&& b.game_height == a.game_height
    &&& b.game_mines_count == a.game_mines_count
    &&& b.game_status == a.game_status
    &&& b.cells() == a.cells()
}

impl Game {
    /// What one `reveal` call does, evaluator included. Off the board,
    /// or once the game is over, it is a no-op. On a mine it opens the
    /// whole minefield and loses; otherwise it floods from the target
    /// and wins exactly when every mine is marked.
    pub open spec fn reveal_post(pre: Game, post: Game, x: int, y: int) -> bool {
        &&& (pre.game_status != GameStatus::Playing ==> state_eq(pre, post))
        &&& (pre.game_status == GameStatus::Playing && !pre.in_bounds(x, y) ==> state_eq(
            pre,
            post,
        ))
        &&& (pre.game_status == GameStatus::Playing && pre.in_bounds(x, y) ==> {
            &&& reveal_only(pre, post)
            &&& flood_progress(pre, post)
            &&& (is_mine(pre.cell(x, y)) ==> {
                &&& post.game_status == GameStatus::Lost
                &&& forall|i: int|
                    0 <= i < pre.cells().len() ==> #[trigger] post.cells()[i] == (if is_mine(
                        pre.cells()[i],
                    ) {
                        revealed_cell(pre.cells()[i])
                    } else {
                        pre.cells()[i]
                    })
            })
            &&& (!is_mine(pre.cell(x, y)) ==> {
                &&& post.game_status == (if count_marked_mines(pre.cells())
                    == pre.game_mines_count as int {
                    GameStatus::Won
                } else {
                    GameStatus::Playing
                })
                &&& Game::reveal_target_post(pre, post, x, y)
                &&& flood_bounded(pre, post, x, y)
            })
        })
    }

    /// What one `mark` call does: a no-op off the board, after the game
    /// is over, or on a revealed cell; otherwise it toggles the mark and
    /// wins exactly when every mine is then marked.
    pub open spec fn mark_post(pre: Game, post: Game, x: int, y: int) -> bool {
        &&& (pre.game_status != GameStatus::Playing ==> state_eq(pre, post))
        &&& (pre.game_status == GameStatus::Playing && !pre.in_bounds(x, y) ==> state_eq(
            pre,
            post,
        ))
        &&& (pre.game_status == GameStatus::Playing && pre.in_bounds(x, y) && pre.cell(
            x,
            y,
        ).field_status == FieldStatus::Revealed ==> state_eq(pre, post))
        &&& (pre.game_status == GameStatus::Playing && pre.in_bounds(x, y) && pre.cell(
            x,
            y,
        ).field_status == FieldStatus::Unrevealed ==> {
            &&& post.game_width == pre.game_width
            &&& post.game_height == pre.game_height
            &&& post.game_mines_count == pre.game_mines_count
            &&& post.cells() == pre.cells().update(
                pre.index_of(x, y),
                mark_toggled(pre.cell(x, y)),
            )
            &&& post.game_status == (if count_marked_mines(post.cells())
                == pre.game_mines_count as int {
                GameStatus::Won
            } else {
                GameStatus::Playing
            })
        })
    }

    /// Count the cells that are both mined and marked: the win measure.
    fn marked_mine_total(&self) -> (r: u64)
        ensures
            r as int == count_marked_mines(self.cells()),
    {
        let mut acc: u64 = 0;
        let n = self.game_fields_array.len();
        let mut i: usize = 0;
        while i < n
            invariant
                i <= n,
                n == self.cells().len(),
                acc as int == count_marked_mines(self.cells().take(i as int)),
                acc <= i,
            decreases n - i,
        {
            let f = self.game_fields_array[i];
            proof {
                assert(self.cells().take(i as int + 1).drop_last() =~= self.cells().take(i as int));
                assert(self.cells().take(i as int + 1).last() == self.cells()[i as int]);
                lemma_count_marked_mines_bounds(self.cells().take(i as int));
            }
            if f.field_type == FieldType::Mine && f.is_marked {
                acc = acc + 1;
            }
            i = i + 1;
        }
        proof {
            assert(self.cells().take(n as int) =~= self.cells());
        }
        acc
    }

    /// Open every mine cell: the loss pass that shows the player the
    /// whole minefield.
    fn reveal_all_mines(&mut self)
        ensures
            final(self).game_width == old(self).game_width,
            final(self).game_height == old(self).game_height,
            final(self).game_mines_count == old(self).game_mines_count,
            final(self).game_status == old(self).game_status,
            final(self).cells().len() == old(self).cells().len(),
            forall|i: int|
                0 <= i < old(self).cells().len() ==> #[trigger] final(self).cells()[i] == (
                if is_mine(old(self).cells()[i]) {
                    revealed_cell(old(self).cells()[i])
                } else {
                    old(self).cells()[i]
                }),
    {
        let n = self.game_fields_array.len();
        let mut i: usize = 0;
        while i < n
            invariant
                i <= n,
                n == old(self).cells().len(),
                self.cells().len() == old(self).cells().len(),
                self.game_width == old(self).game_width,
                self.game_height == old(self).game_height,
                self.game_mines_count == old(self).game_mines_count,
                self.game_status == old(self).game_status,
                forall|j: int|
                    0 <= j < i as int ==> #[trigger] self.cells()[j] == (if is_mine(
                        old(self).cells()[j],
                    ) {
                        revealed_cell(old(self).cells()[j])
                    } else {
                        old(self).cells()[j]
                    }),
                forall|j: int|
                    i as int <= j < n ==> #[trigger] self.cells()[j] == old(self).cells()[j],
            decreases n - i,
        {
            let f = self.game_fields_array[i];
            if f.field_type == FieldType::Mine {
                let f2 = Field { field_status: FieldStatus::Revealed, ..f };
                self.game_fields_array[i] = f2;
            }
            i = i + 1;
        }
    }

    /// The reveal move: ignored off the board or once the game is over;
    /// otherwise floods from the target, then evaluates loss (the target
    /// is a mine) or win (every mine marked).
    #[verifier::spinoff_prover]
    #[verifier::rlimit(100)]
    pub fn reveal_cell(&mut self, x: i32, y: i32)
        requires
            old(self).wf(),
        ensures
            final(self).wf(),
            Game::reveal_post(*old(self), *final(self), x as int, y as int),
    {
        if self.game_status != GameStatus::Playing {
            return ;
        }
        let xi = x as i64;
        let yi = y as i64;
        let c = match self.get_cell_index(xi, yi) {
            None => {
                return ;
            },
            Some(c) => c,
        };
        let target_is_mine = self.game_fields_array[c].field_type == FieldType::Mine;
        self.flood_reveal(xi, yi);
        let ghost s1 = *self;
        if target_is_mine {
            self.reveal_all_mines();
            self.game_status = GameStatus::Lost;
            proof {
                lemma_reveal_post_mine(*old(self), s1, *self, x as int, y as int);
            }
        } else {
            let marked = self.marked_mine_total();
            proof {
                lemma_count_marked_mines_congruent(old(self).cells(), s1.cells());
            }
            if marked == self.game_mines_count as u64 {
                self.game_status = GameStatus::Won;
            }
            proof {
                lemma_transfer_to_same_cells(*old(self), s1, *self, x as int, y as int);
                lemma_wf_preserved(*old(self), *self);
            }
        }
    }

    /// The mark move: ignored off the board, once the game is over, or
    /// on a revealed cell; otherwise toggles the cell's mark, then
    /// evaluates the win condition.
    pub fn mark(&mut self, x: i32, y: i32)
        requires
            old(self).wf(),
        ensures
            final(self).wf(),
            Game::mark_post(*old(self), *final(self), x as int, y as int),
    {
        if self.game_status != GameStatus::Playing {
            return ;
        }
        let c = match self.get_cell_index(x as i64, y as i64) {
            None => {
                return ;
            },
            Some(c) => c,
        };
        let f = self.game_fields_array[c];
        if f.field_status == FieldStatus::Revealed {
            return ;
        }
        let f2 = Field { is_marked: !f.is_marked, ..f };
        self.game_fields_array[c] = f2;
        let marked = self.marked_mine_total();
        if marked == self.game_mines_count as u64 {
            self.game_status = GameStatus::Won;
        }
        proof {
            lemma_wf_preserved(*old(self), *self);
        }
    }

    /// Open every cell, mines included, without touching the game
    /// status: the debug shortcut that shows the whole board.
    pub fn set_all_visible(&mut self)
        requires
            old(self).wf(),
        ensures
            final(self).wf(),
            final(self).game_width == old(self).game_width,
            final(self).game_height == old(self).game_height,
            final(self).game_mines_count == old(self).game_mines_count,
            final(self).game_status == old(self).game_status,
            final(self).cells().len() == old(self).cells().len(),
            forall|i: int|
                0 <= i < old(self).cells().len() ==> #[trigger] final(self).cells()[i]
                    == revealed_cell(old(self).cells()[i]),
    {
        let n = self.game_fields_array.len();
        let mut i: usize = 0;
        while i < n
            invariant
                i <= n,
                n == old(self).cells().len(),
                self.cells().len() == old(self).cells().len(),
                self.game_width == old(self).game_width,
                self.game_height == old(self).game_height,
                self.game_mines_count == old(self).game_mines_count,
                self.game_status == old(self).game_status,
                forall|j: int|
                    0 <= j < i as int ==> #[trigger] self.cells()[j] == revealed_cell(
                        old(self).cells()[j],
                    ),
                forall|j: int|
                    i as int <= j < n ==> #[trigger] self.cells()[j] == old(self).cells()[j],
            decreases n - i,
        {
            let f = self.game_fields_array[i];
            let f2 = Field { field_status: FieldStatus::Revealed, ..f };
            self.game_fields_array[i] = f2;
            i = i + 1;
        }
        proof {
            lemma_wf_preserved(*old(self), *self);
        }
    }

    /// Discard the board and build a fresh one with the same parameters.
    pub fn reset(&mut self)
        requires
            old(self).wf(),
        ensures
            final(self).wf(),
            final(self).game_width == old(self).game_width,
            final(self).game_height == old(self).game_height,
            final(self).game_mines_count == old(self).game_mines_count,
            final(self).game_status == GameStatus::Playing,
            forall|i: int|
                0 <= i < final(self).cells().len() ==> (#[trigger] final(self).cells()[i]).field_status
                    == FieldStatus::Unrevealed && !final(self).cells()[i].is_marked,
    {
        match Game::new(self.game_width, self.game_height, self.game_mines_count) {
            Ok(g) => {
                *self = g;
            },
            Err(_) => {
                proof {
                    assert(false);
                }
            },
        }
    }

    pub fn get_width(&self) -> (r: u32)
        ensures
            r == self.game_width,
    {
        self.game_width
    }

    pub fn get_height(&self) -> (r: u32)
        ensures
            r == self.game_height,
    {
        self.game_height
    }

    pub fn get_mines_count(&self) -> (r: u32)
        ensures
            r == self.game_mines_count,
    {
        self.game_mines_count
    }

    pub fn get_game_status(&self) -> (r: GameStatus)
        ensures
            r == self.game_status,
    {
        self.game_status
    }

    /// Read one cell; `None` exactly off the board.
    pub fn get_field(&self, x: i64, y: i64) -> (r: Option<Field>)
        requires
            self.wf(),
        ensures
            r == (if self.in_bounds(x as int, y as int) {
                Some(self.cell(x as int, y as int))
            } else {
                None::<Field>
            }),
    {
        match self.get_cell_index(x, y) {
            Some(i) => Some(self.game_fields_array[i]),
            None => None,
        }
    }
}

proof fn lemma_flood_from_monotone(pre: Game, mid: Game, post: Game, a: int, b: int)
    requires
        pre.cells().len() == pre.area(),
        mid.game_width == pre.game_width,
        mid.game_height == pre.game_height,
        mid.cells().len() == pre.cells().len(),
        reveal_only(mid, post),
        flood_from(pre, mid, a, b),
    ensures
        flood_from(pre, post, a, b),
{
    let (c, d) = choose|c: int, d: int|
        #![trigger adjacent(c, d, a, b)]
        adjacent(c, d, a, b) && cascades(pre, mid, c, d) && (!(pre.cell(c, d).field_type
            == FieldType::Empty) ==> !pre.cell(a, b).is_marked);
    lemma_index_bounds(pre.width(), pre.height(), c, d);
    assert(post.cell(c, d).field_status == FieldStatus::Revealed);
    assert(cascades(pre, post, c, d));
}

proof fn lemma_flood_from_back(pre: Game, mid: Game, post: Game, a: int, b: int)
    requires
        pre.cells().len() == pre.area(),
        pre.in_bounds(a, b),
        reveal_only(pre, mid),
        flood_from(mid, post, a, b),
    ensures
        flood_from(pre, post, a, b),
{
    let (c, d) = choose|c: int, d: int|
        #![trigger adjacent(c, d, a, b)]
        adjacent(c, d, a, b) && cascades(mid, post, c, d) && (!(mid.cell(c, d).field_type
            == FieldType::Empty) ==> !mid.cell(a, b).is_marked);
    lemma_index_bounds(pre.width(), pre.height(), c, d);
    lemma_index_bounds(pre.width(), pre.height(), a, b);
    assert(pre.cell(c, d) == mid.cell(c, d) || (pre.cell(c, d).field_type == mid.cell(
        c,
        d,
    ).field_type && pre.cell(c, d).is_marked == mid.cell(c, d).is_marked));
    assert(pre.cell(c, d).field_status == FieldStatus::Unrevealed);
    lemma_marked_neighbors_congruent(pre, mid, c, d);
    assert(cascades(pre, post, c, d));
    assert(pre.cell(a, b).is_marked == mid.cell(a, b).is_marked);
}

/// One flood step stays bounded: with the target newly opened and
/// cascading, and the cascade from it bounded, the whole call is.
proof fn lemma_flood_bounded_step(pre: Game, s1: Game, post: Game, x: int, y: int, skip: bool)
    requires
        pre.wf(),
        pre.in_bounds(x, y),
        pre.cell(x, y).field_status == FieldStatus::Unrevealed,
        reveal_only(pre, s1),
        forall|a: int, b: int|
            #![trigger s1.cell(a, b)]
            pre.in_bounds(a, b) && !(a == x && b == y) ==> s1.cell(a, b) == pre.cell(a, b),
        reveal_only(s1, post),
        cascades(pre, post, x, y),
        !(pre.cell(x, y).field_type == FieldType::Empty) ==> skip,
        forall|a: int, b: int|
            #![trigger post.cell(a, b)]
            s1.in_bounds(a, b) && s1.cell(a, b).field_status == FieldStatus::Unrevealed
                && post.cell(a, b).field_status == FieldStatus::Revealed ==> ((adjacent(x, y, a, b)
                && (skip ==> !s1.cell(a, b).is_marked)) || flood_from(s1, post, a, b)),
    ensures
        flood_bounded(pre, post, x, y),
{
    assert forall|a: int, b: int|
        #![trigger post.cell(a, b)]
        pre.in_bounds(a, b) && pre.cell(a, b).field_status == FieldStatus::Unrevealed && post.cell(
            a,
            b,
        ).field_status == FieldStatus::Revealed implies ((a == x && b == y) || flood_from(
        pre,
        post,
        a,
        b,
    )) by {
        lemma_index_bounds(pre.width(), pre.height(), a, b);
        if !(a == x && b == y) {
            assert(s1.cell(a, b) == pre.cell(a, b));
            assert(s1.cell(a, b).field_status == FieldStatus::Unrevealed);
            if flood_from(s1, post, a, b) {
                lemma_flood_from_back(pre, s1, post, a, b);
            } else {
                assert(adjacent(x, y, a, b) && (skip ==> !s1.cell(a, b).is_marked));
                assert(flood_from(pre, post, a, b));
            }
        }
    }
}

/// Facts about a board carry over to another with the same cells and
/// dimensions (only the game status may differ).
proof fn lemma_transfer_to_same_cells(pre: Game, s1: Game, post: Game, x: int, y: int)
    requires
        post.cells() == s1.cells(),
        post.game_width == s1.game_width,
        post.game_height == s1.game_height,
        post.game_mines_count == s1.game_mines_count,
        reveal_only(pre, s1),
        flood_progress(pre, s1),
    ensures
        reveal_only(pre, post),
        flood_progress(pre, post),
        Game::reveal_target_post(pre, s1, x, y) ==> Game::reveal_target_post(pre, post, x, y),
        flood_bounded(pre, s1, x, y) ==> flood_bounded(pre, post, x, y),
{
    assert forall|a: int, b: int| #[trigger] post.cell(a, b) == s1.cell(a, b) by {}
}

/// The loss step meets the reveal contract: after a mine is hit, every
/// mine stands revealed and nothing else has moved since the flood.
proof fn lemma_reveal_post_mine(pre: Game, s1: Game, post: Game, x: int, y: int)
    requires
        pre.wf(),
        pre.game_status == GameStatus::Playing,
        pre.in_bounds(x, y),
        is_mine(pre.cell(x, y)),
        reveal_only(pre, s1),
        s1.cells() == pre.cells() || s1.cells() == pre.cells().update(
            pre.index_of(x, y),
            revealed_cell(pre.cell(x, y)),
        ),
        post.game_width == s1.game_width,
        post.game_height == s1.game_height,
        post.game_mines_count == s1.game_mines_count,
        post.game_status == GameStatus::Lost,
        post.cells().len() == s1.cells().len(),
        forall|i: int|
            0 <= i < s1.cells().len() ==> #[trigger] post.cells()[i] == (if is_mine(
                s1.cells()[i],
            ) {
                revealed_cell(s1.cells()[i])
            } else {
                s1.cells()[i]
            }),
    ensures
        post.wf(),
        Game::reveal_post(pre, post, x, y),
{
    lemma_index_bounds(pre.width(), pre.height(), x, y);
    assert forall|i: int|
        0 <= i < pre.cells().len() implies #[trigger] post.cells()[i] == (if is_mine(
        pre.cells()[i],
    ) {
        revealed_cell(pre.cells()[i])
    } else {
        pre.cells()[i]
    }) by {
        assert(s1.cells()[i] == pre.cells()[i] || s1.cells()[i] == revealed_cell(pre.cells()[i]));
    }
    assert(reveal_only(pre, post));
    lemma_wf_preserved(pre, post);
    assert forall|a: int, b: int|
        #![trigger post.cell(a, b)]
        pre.in_bounds(a, b) && pre.cell(a, b).field_status == FieldStatus::Unrevealed && post.cell(
            a,
            b,
        ).field_status == FieldStatus::Revealed && post.cell(a, b).field_type
        == FieldType::Empty implies post.neighbors_revealed(a, b) by {
        lemma_index_bounds(pre.width(), pre.height(), a, b);
        assert(post.cells()[pre.index_of(a, b)].field_type == pre.cells()[pre.index_of(
            a,
            b,
        )].field_type);
        assert(!is_mine(pre.cell(a, b)));
        assert(post.cells()[pre.index_of(a, b)] == pre.cells()[pre.index_of(a, b)]);
        assert(false);
    }
}

/// Composition of one flood step: the pre state, the state after only
/// the target at (x, y) was opened, and the state after the cascade.
proof fn lemma_flood_progress_trans_from_update(g0: Game, g1: Game, g2: Game, x: i64, y: i64)
    requires
        g0.wf(),
        g0.in_bounds(x as int, y as int),
        g1.cells() == g0.cells().update(
            g0.index_of(x as int, y as int),
            revealed_cell(g0.cell(x as int, y as int)),
        ),
        g1.game_width == g0.game_width,
        g1.game_height == g0.game_height,
        g1.game_mines_count == g0.game_mines_count,
        reveal_only(g1, g2),
        flood_progress(g1, g2),
        g0.cell(x as int, y as int).field_type != FieldType::Empty || g2.neighbors_revealed(
            x as int,
            y as int,
        ),
    ensures
        flood_progress(g0, g2),
        reveal_only(g0, g2),
{
    lemma_index_bounds(g0.width(), g0.height(), x as int, y as int);
    assert(reveal_only(g0, g1));
    lemma_reveal_only_trans(g0, g1, g2);
    assert forall|a: int, b: int|
        #![trigger g2.cell(a, b)]
        g0.in_bounds(a, b) && g0.cell(a, b).field_status == FieldStatus::Unrevealed && g2.cell(
            a,
            b,
        ).field_status == FieldStatus::Revealed && g2.cell(a, b).field_type
        == FieldType::Empty implies g2.neighbors_revealed(a, b) by {
        lemma_index_bounds(g0.width(), g0.height(), a, b);
        if a == x as int && b == y as int {
            assert(g0.cell(a, b).field_type == g2.cell(a, b).field_type);
        } else {
            if g0.index_of(a, b) == g0.index_of(x as int, y as int) {
                lemma_index_injective(g0.width(), a, b, x as int, y as int);
            }
            assert(g1.cell(a, b) == g0.cell(a, b));
        }
    }
}

} // verus!
