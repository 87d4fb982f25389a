use crate::cell::{lemma_with_bit, MazeCell, BOTTOM_BIT, RIGHT_BIT, VISITED_BIT};
use crate::position::{origin, Direction, Position};
use crate::rng::{rng_from_entropy, rng_from_seed, shuffle_directions};
use rand::rngs::SmallRng;
use vstd::prelude::*;

verus! {

/// Number of cells of `s` whose `visited` flag is clear.
pub open spec fn unvisited(s: Seq<MazeCell>) -> nat
    decreases s.len(),
{
    if s.len() == 0 {
        0
    } else {
        unvisited(s.drop_last()) + if s.last().visited_flag() {
            0nat
        } else {
            1nat
        }
    }
}

/// Number of wall flags of `c` that are cleared.
pub open spec fn cleared(c: MazeCell) -> nat {
    (if c.right_flag() { 0nat } else { 1nat }) + (if c.bottom_flag() { 0nat } else { 1nat })
}

/// Number of cleared wall flags over all of `s`.
pub open spec fn opened(s: Seq<MazeCell>) -> nat
    decreases s.len(),
{
    if s.len() == 0 {
        0
    } else {
        opened(s.drop_last()) + cleared(s.last())
    }
}

/// The number of steps that `limit` allows.
pub open spec fn budget(limit: Option<usize>) -> int {
    match limit {
        Some(n) => n as int,
        None => usize::MAX as int,
    }
}

/// Whether `order` names each of the four directions.
pub open spec fn all_directions(order: Seq<Direction>) -> bool {
    order.len() == 4 && forall|d: Direction| order.contains(d)
}

/// The mathematical state of a maze.
pub struct MazeView {
    pub width: nat,
    pub height: nat,
    pub cursor: Position,
    pub tail: Seq<Position>,
    pub cells: Seq<MazeCell>,
}

impl MazeView {
    pub open spec fn offset(self, p: Position) -> int {
        p.x + p.y * self.width
    }

    pub open spec fn in_bounds(self, p: Position) -> bool {
        p.x < self.width && p.y < self.height
    }

    pub open spec fn cell(self, p: Position) -> MazeCell {
        self.cells[self.offset(p)]
    }

    /// The cell store has one cell per coordinate pair.
    pub open spec fn wf(self) -> bool {
        &&& self.cells.len() == self.width * self.height
        &&& self.width * self.height <= isize::MAX
    }

    /// The outer edge is closed: every cell of the rightmost column keeps its
    /// right wall and every cell of the bottom row keeps its bottom wall.
    pub open spec fn boundary_closed(self) -> bool {
        forall|p: Position|
            #![trigger self.cell(p)]
            self.in_bounds(p) ==> (p.x == self.width - 1 ==> self.cell(p).right_flag()) && (
            p.y == self.height - 1 ==> self.cell(p).bottom_flag())
    }

    /// Every unvisited cell is still closed on all four sides.
    pub open spec fn unvisited_walled(self) -> bool {
        forall|p: Position|
            #![trigger self.cell(p)]
            self.in_bounds(p) && !self.cell(p).visited_flag() ==> {
                &&& self.cell(p).right_flag()
                &&& self.cell(p).bottom_flag()
                &&& p.x > 0 ==> self.cell(Position { x: (p.x - 1) as usize, y: p.y }).right_flag()
                &&& p.y > 0 ==> self.cell(Position { x: p.x, y: (p.y - 1) as usize }).bottom_flag()
            }
    }

    /// What holds of every state that generation can reach.
    pub open spec fn inv(self) -> bool {
        &&& self.wf()
        &&& self.width >= 1
        &&& self.height >= 1
        &&& self.in_bounds(self.cursor)
        &&& self.cell(self.cursor).visited_flag()
        &&& forall|i: int|
            0 <= i < self.tail.len() ==> self.in_bounds(#[trigger] self.tail[i]) && self.cell(
                self.tail[i],
            ).visited_flag()
        &&& self.tail.len() + unvisited(self.cells) <= self.cells.len()
        &&& self.boundary_closed()
        &&& self.unvisited_walled()
        &&& opened(self.cells) + unvisited(self.cells) + 1 == self.cells.len()
    }

    /// Moving in direction `d` from the cursor reaches an unvisited cell.
    pub open spec fn open_dir(self, d: Direction) -> bool {
        d.fits(self.cursor, self.width as int, self.height as int) && !self.cell(
            d.target(self.cursor),
        ).visited_flag()
    }

    /// The first direction of `order`, from index `i` on, that is open.
    pub open spec fn first_open(self, order: Seq<Direction>, i: int) -> Option<Direction>
        decreases order.len() - i,
    {
        if i < 0 || i >= order.len() {
            None
        } else if self.open_dir(order[i]) {
            Some(order[i])
        } else {
            self.first_open(order, i + 1)
        }
    }

    /// The cell store after opening the edge crossed by moving in `d`.
    pub open spec fn cells_opened(self, d: Direction) -> Seq<MazeCell> {
        let c = self.cursor;
        let t = d.target(c);
        match d {
            Direction::Right => self.cells.update(
                self.offset(c),
                self.cell(c).with_flag(RIGHT_BIT, false),
            ),
            Direction::Bottom => self.cells.update(
                self.offset(c),
                self.cell(c).with_flag(BOTTOM_BIT, false),
            ),
            Direction::Left => self.cells.update(
                self.offset(t),
                self.cell(t).with_flag(RIGHT_BIT, false),
            ),
            Direction::Top => self.cells.update(
                self.offset(t),
                self.cell(t).with_flag(BOTTOM_BIT, false),
            ),
        }
    }

    /// The state after a forward move in direction `d`.
    pub open spec fn advance(self, d: Direction) -> MazeView {
        let t = d.target(self.cursor);
        let opened = self.cells_opened(d);
        MazeView {
            cursor: t,
            tail: self.tail.push(t),
            cells: opened.update(self.offset(t), opened[self.offset(t)].with_flag(VISITED_BIT, true)),
            ..self
        }
    }

    /// The state after one step that scans the directions in `order`, and
    /// whether that step found generation complete.
    pub open spec fn step(self, order: Seq<Direction>) -> (MazeView, bool) {
        match self.first_open(order, 0) {
            Some(d) => (self.advance(d), false),
            None => if self.tail.len() == 0 {
                (self, true)
            } else {
                (MazeView { cursor: self.tail.last(), tail: self.tail.drop_last(), ..self }, false)
            },
        }
    }

    /// The state after one step per order of `orders`, stopping at the first
    /// step that reports completion, and whether such a step came.
    pub open spec fn run(self, orders: Seq<Seq<Direction>>) -> (MazeView, bool)
        decreases orders.len(),
    {
        if orders.len() == 0 {
            (self, false)
        } else if self.step(orders[0]).1 {
            self.step(orders[0])
        } else {
            self.step(orders[0]).0.run(orders.drop_first())
        }
    }

    /// The state of a newly built `width` by `height` maze.
    pub open spec fn is_fresh(self, width: nat, height: nat) -> bool {
        &&& self.width == width
        &&& self.height == height
        &&& self.wf()
        &&& self.cursor == origin()
        &&& self.tail == seq![origin()]
        &&& Maze::initial_view(width, height, self.cells)
        &&& width >= 1 && height >= 1 ==> self.inv()
        &&& width >= 1 && height >= 1 ==> self.measure() + 1 == 2 * (width * height)
    }

    /// Generation is over: the tail is empty and the cursor has nowhere to go.
    pub open spec fn finished(self) -> bool {
        self.tail.len() == 0 && forall|d: Direction| !self.open_dir(d)
    }

    /// An upper bound on the steps left before completion.
    pub open spec fn measure(self) -> nat {
        2 * unvisited(self.cells) + self.tail.len()
    }
}

/// A maze under generation by randomized depth-first traversal.
pub struct Maze {
    width: usize,
    height: usize,
    cursor: Position,
    tail: Vec<Position>,
    cells: Vec<MazeCell>,
    rng: SmallRng,
}

impl View for Maze {
    type V = MazeView;

    closed spec fn view(&self) -> MazeView {
        MazeView {
            width: self.width as nat,
            height: self.height as nat,
            cursor: self.cursor,
            tail: self.tail@,
            cells: self.cells@,
        }
    }
}

pub proof fn lemma_unvisited_le(s: Seq<MazeCell>)
    ensures
        unvisited(s) <= s.len(),
    decreases s.len(),
{
    if s.len() > 0 {
        lemma_unvisited_le(s.drop_last());
    }
}

pub proof fn lemma_unvisited_update(s: Seq<MazeCell>, i: int, c: MazeCell)
    requires
        0 <= i < s.len(),
    ensures
        unvisited(s.update(i, c)) + (if s[i].visited_flag() { 0nat } else { 1nat }) == unvisited(s)
            + (if c.visited_flag() { 0nat } else { 1nat }),
    decreases s.len(),
{
    let u = s.update(i, c);
    if i == s.len() - 1 {
        assert(u.drop_last() =~= s.drop_last());
    } else {
        assert(u.drop_last() =~= s.drop_last().update(i, c));
        lemma_unvisited_update(s.drop_last(), i, c);
    }
}

pub proof fn lemma_opened_update(s: Seq<MazeCell>, i: int, c: MazeCell)
    requires
        0 <= i < s.len(),
    ensures
        opened(s.update(i, c)) + cleared(s[i]) == opened(s) + cleared(c),
    decreases s.len(),
{
    let u = s.update(i, c);
    if i == s.len() - 1 {
        assert(u.drop_last() =~= s.drop_last());
    } else {
        assert(u.drop_last() =~= s.drop_last().update(i, c));
        lemma_opened_update(s.drop_last(), i, c);
    }
}

pub proof fn lemma_opened_all_closed(s: Seq<MazeCell>)
    requires
        forall|i: int| 0 <= i < s.len() ==> cleared(#[trigger] s[i]) == 0,
    ensures
        opened(s) == 0,
    decreases s.len(),
{
    if s.len() > 0 {
        lemma_opened_all_closed(s.drop_last());
    }
}

pub proof fn lemma_unvisited_zero(s: Seq<MazeCell>, i: int)
    requires
        unvisited(s) == 0,
        0 <= i < s.len(),
    ensures
        s[i].visited_flag(),
    decreases s.len(),
{
    if i < s.len() - 1 {
        lemma_unvisited_zero(s.drop_last(), i);
    }
}

pub proof fn lemma_unvisited_all_closed(s: Seq<MazeCell>)
    requires
        forall|i: int| 0 <= i < s.len() ==> !(#[trigger] s[i]).visited_flag(),
    ensures
        unvisited(s) == s.len(),
    decreases s.len(),
{
    if s.len() > 0 {
        lemma_unvisited_all_closed(s.drop_last());
    }
}


/// Width times height, and a cell offset below it, stay in range.
proof fn lemma_offset_bound(x: int, y: int, w: int, h: int)
    requires
        0 <= x < w,
        0 <= y < h,
    ensures
        x + y * w < w * h,
{
    assert(x + y * w < w * h) by (nonlinear_arith)
        requires
            0 <= x < w,
            0 <= y < h,
    ;
}

impl Maze {
    /// The initial state for a `width` by `height` grid.
    pub open spec fn initial_view(width: nat, height: nat, cells: Seq<MazeCell>) -> bool {
        &&& cells.len() == width * height
        &&& forall|i: int| 0 < i < cells.len() ==> (#[trigger] cells[i]).0 == 6
        &&& cells.len() > 0 ==> cells[0].0 == 7
        &&& forall|i: int|
            0 < i < cells.len() ==> !(#[trigger] cells[i]).visited_flag() && cells[i].right_flag()
                && cells[i].bottom_flag()
        &&& cells.len() > 0 ==> cells[0].visited_flag() && cells[0].right_flag()
            && cells[0].bottom_flag()
    }

    fn build(width: usize, height: usize, rng: SmallRng) -> (r: Maze)
        requires
            width * height <= isize::MAX,
        ensures
            r@.is_fresh(width as nat, height as nat),
    {
        let n: usize = width * height;
        let closed = MazeCell::new();
        let mut cells: Vec<MazeCell> = Vec::new();
        let mut i: usize = 0;
        while i < n
            invariant
                i <= n,
                cells@.len() == i,
                forall|j: int| 0 <= j < i ==> cells@[j] == closed,
            decreases n - i,
        {
            cells.push(closed);
            i = i + 1;
        }
        if n > 0 {
            let mut first = cells[0];
            first.set_visited(true);
            assert(first.0 == 7) by {
                assert((6u8 | (1u8 << 0u8)) == 7u8) by (bit_vector);
            }
            cells.set(0, first);
        }
        let mut tail: Vec<Position> = Vec::new();
        tail.push(Position::new(0, 0));
        let r = Maze { width, height, cursor: Position::new(0, 0), tail, cells, rng };
        proof {
            if width >= 1 && height >= 1 {
                assert(n > 0) by (nonlinear_arith)
                    requires
                        width >= 1,
                        height >= 1,
                        n == width * height,
                ;
                let s = r.cells@;
                let rest = s.update(0, closed);
                assert forall|j: int| 0 <= j < rest.len() implies !(#[trigger] rest[j]).visited_flag() by {}
                lemma_unvisited_all_closed(rest);
                lemma_unvisited_update(rest, 0, s[0]);
                assert(rest.update(0, s[0]) =~= s);
                assert(r@.cell(r@.cursor) == s[0]);
                assert forall|j: int| 0 <= j < s.len() implies cleared(#[trigger] s[j]) == 0 by {}
                lemma_opened_all_closed(s);
                assert forall|p: Position| #![trigger r@.cell(p)] r@.in_bounds(p) && !r@.cell(
                    p,
                ).visited_flag() implies {
                    &&& r@.cell(p).right_flag()
                    &&& r@.cell(p).bottom_flag()
                    &&& p.x > 0 ==> r@.cell(Position { x: (p.x - 1) as usize, y: p.y }).right_flag()
                    &&& p.y > 0 ==> r@.cell(Position { x: p.x, y: (p.y - 1) as usize }).bottom_flag()
                } by {
                    lemma_offset_bound(p.x as int, p.y as int, width as int, height as int);
                    if p.x > 0 {
                        lemma_offset_bound(p.x - 1, p.y as int, width as int, height as int);
                    }
                    if p.y > 0 {
                        lemma_offset_bound(p.x as int, p.y - 1, width as int, height as int);
                    }
                }
                assert forall|p: Position| #![trigger r@.cell(p)] r@.in_bounds(p) implies (p.x == r@.width - 1
                    ==> r@.cell(p).right_flag()) && (p.y == r@.height - 1 ==> r@.cell(p).bottom_flag()) by {
                    lemma_offset_bound(p.x as int, p.y as int, width as int, height as int);
                }
            }
        }
        r
    }

    /// A maze whose generator is seeded from the operating system, or `None`
    /// where the operating system could not supply a seed.
    pub fn new(width: usize, height: usize) -> (r: Option<Maze>)
        requires
            width * height <= isize::MAX,
        ensures
            r.is_some() ==> r.unwrap()@.is_fresh(width as nat, height as nat),
    {
        match rng_from_entropy() {
            Some(rng) => Some(Self::build(width, height, rng)),
            None => None,
        }
    }

    /// A maze whose generator is seeded with `seed`.
    pub fn from_seed(width: usize, height: usize, seed: u64) -> (r: Maze)
        requires
            width * height <= isize::MAX,
        ensures
            r@.is_fresh(width as nat, height as nat),
    {
        Self::build(width, height, rng_from_seed(seed))
    }

    pub fn width(&self) -> (r: usize)
        ensures
            r == self@.width,
    {
        self.width
    }

    pub fn height(&self) -> (r: usize)
        ensures
            r == self@.height,
    {
        self.height
    }

    /// Every cell at once, in row-major order.
    pub fn cells_ptr(&self) -> (r: &[MazeCell])
        ensures
            r@ == self@.cells,
    {
        self.cells.as_slice()
    }

    /// Where the cell at (`x`, `y`) lies in the cell store.
    pub fn get_cell_offset(&self, x: usize, y: usize) -> (r: usize)
        requires
            self@.wf(),
            x < self@.width,
            y < self@.height,
        ensures
            r == self@.offset(Position::at(x as nat, y as nat)),
            r < self@.cells.len(),
    {
        proof {
            lemma_offset_bound(x as int, y as int, self.width as int, self.height as int);
        }
        x + y * self.width
    }

    /// A copy of the cell at (`x`, `y`).
    pub fn get_cell(&self, x: usize, y: usize) -> (r: MazeCell)
        requires
            self@.wf(),
            x < self@.width,
            y < self@.height,
        ensures
            r == self@.cell(Position::at(x as nat, y as nat)),
    {
        self.cells[self.get_cell_offset(x, y)]
    }

    /// Whether moving from the cursor in direction `d` reaches an unvisited cell.
    fn is_open(&self, d: Direction) -> (r: bool)
        requires
            self@.inv(),
        ensures
            r == self@.open_dir(d),
    {
        match d {
            Direction::Bottom => {
                if self.cursor.y >= self.height - 1 {
                    return false;
                }
                !self.get_cell(self.cursor.x, self.cursor.y + 1).visited()
            },
            Direction::Left => {
                if self.cursor.x == 0 {
                    return false;
                }
                !self.get_cell(self.cursor.x - 1, self.cursor.y).visited()
            },
            Direction::Right => {
                if self.cursor.x >= self.width - 1 {
                    return false;
                }
                !self.get_cell(self.cursor.x + 1, self.cursor.y).visited()
            },
            Direction::Top => {
                if self.cursor.y == 0 {
                    return false;
                }
                !self.get_cell(self.cursor.x, self.cursor.y - 1).visited()
            },
        }
    }

    /// Moves the cursor one cell in direction `d`.
    fn move_cursor(&mut self, d: Direction)
        requires
            d.fits(old(self)@.cursor, old(self)@.width as int, old(self)@.height as int),
        ensures
            final(self)@ == (MazeView { cursor: d.target(old(self)@.cursor), ..old(self)@ }),
    {
        let mut c = self.cursor;
        d.apply(&mut c);
        self.cursor = c;
    }

    /// Sets flag `i` of the cell at `p` to `v`.
    fn set_flag_at(&mut self, p: Position, i: u8, v: bool)
        requires
            old(self)@.wf(),
            old(self)@.in_bounds(p),
            i == VISITED_BIT || i == RIGHT_BIT || i == BOTTOM_BIT,
        ensures
            final(self)@.wf(),
            final(self)@ == (MazeView {
                cells: old(self)@.cells.update(
                    old(self)@.offset(p),
                    old(self)@.cell(p).with_flag(i, v),
                ),
                ..old(self)@
            }),
    {
        let off = self.get_cell_offset(p.x, p.y);
        let mut c = self.cells[off];
        if i == VISITED_BIT {
            c.set_visited(v);
        } else if i == RIGHT_BIT {
            c.set_right(v);
        } else {
            c.set_bottom(v);
        }
        self.cells.set(off, c);
    }
}


/// Distinct in-bounds positions have distinct offsets.
proof fn lemma_offset_injective(v: MazeView, p: Position, q: Position)
    requires
        v.in_bounds(p),
        v.in_bounds(q),
        v.offset(p) == v.offset(q),
    ensures
        p == q,
{
    let w = v.width as int;
    let (px, py, qx, qy) = (p.x as int, p.y as int, q.x as int, q.y as int);
    if py < qy {
        assert(py * w + w <= qy * w) by (nonlinear_arith)
            requires
                py < qy,
                w >= 0,
        ;
    } else if qy < py {
        assert(qy * w + w <= py * w) by (nonlinear_arith)
            requires
                qy < py,
                w >= 0,
        ;
    }
}

/// What `first_open` picks is open and comes from `order`; when it picks
/// nothing, no direction of `order` from `i` on is open.
pub proof fn lemma_first_open(v: MazeView, order: Seq<Direction>, i: int)
    requires
        0 <= i,
    ensures
        match v.first_open(order, i) {
            Some(d) => v.open_dir(d) && order.contains(d),
            None => forall|k: int| i <= k < order.len() ==> !v.open_dir(#[trigger] order[k]),
        },
    decreases order.len() - i,
{
    if i < order.len() {
        lemma_first_open(v, order, i + 1);
    }
}

/// How a forward move changes each cell's flags, and the unvisited count.
proof fn lemma_advance(v: MazeView, d: Direction)
    requires
        v.inv(),
        v.open_dir(d),
    ensures
        v.advance(d).cells.len() == v.cells.len(),
        unvisited(v.advance(d).cells) + 1 == unvisited(v.cells),
        opened(v.advance(d).cells) == opened(v.cells) + 1,
        forall|p: Position|
            #![trigger v.advance(d).cell(p)]
            v.in_bounds(p) ==> {
                let c = v.cursor;
                let t = d.target(c);
                let n = v.advance(d).cell(p);
                &&& n.visited_flag() == (v.cell(p).visited_flag() || p == t)
                &&& n.right_flag() == if (d == Direction::Right && p == c) || (d == Direction::Left
                    && p == t) {
                    false
                } else {
                    v.cell(p).right_flag()
                }
                &&& n.bottom_flag() == if (d == Direction::Bottom && p == c) || (d == Direction::Top
                    && p == t) {
                    false
                } else {
                    v.cell(p).bottom_flag()
                }
            },
{
    let c = v.cursor;
    let t = d.target(c);
    let w = v.width as int;
    let opened = v.cells_opened(d);
    assert(v.height <= v.width * v.height && v.width <= v.width * v.height) by (nonlinear_arith)
        requires
            v.width >= 1,
            v.height >= 1,
    ;
    lemma_offset_bound(c.x as int, c.y as int, w, v.height as int);
    lemma_offset_bound(t.x as int, t.y as int, w, v.height as int);
    if d == Direction::Bottom {
        assert((c.y + 1) * w == c.y * w + w) by (nonlinear_arith);
    }
    if d == Direction::Top {
        assert((c.y - 1) * w == c.y * w - w) by (nonlinear_arith);
    }
    assert(v.offset(c) != v.offset(t));
    let (oi, ci) = match d {
        Direction::Right => (v.offset(c), v.cell(c).with_flag(RIGHT_BIT, false)),
        Direction::Bottom => (v.offset(c), v.cell(c).with_flag(BOTTOM_BIT, false)),
        Direction::Left => (v.offset(t), v.cell(t).with_flag(RIGHT_BIT, false)),
        Direction::Top => (v.offset(t), v.cell(t).with_flag(BOTTOM_BIT, false)),
    };
    assert(opened == v.cells.update(oi, ci));
    v.cell(c).lemma_with_flag(RIGHT_BIT, false);
    v.cell(c).lemma_with_flag(BOTTOM_BIT, false);
    v.cell(t).lemma_with_flag(RIGHT_BIT, false);
    v.cell(t).lemma_with_flag(BOTTOM_BIT, false);
    lemma_unvisited_update(v.cells, oi, ci);
    let ot = v.offset(t);
    opened[ot].lemma_with_flag(VISITED_BIT, true);
    lemma_unvisited_update(opened, ot, opened[ot].with_flag(VISITED_BIT, true));
    assert(v.cell(t).right_flag() && v.cell(t).bottom_flag());
    if d == Direction::Right {
        assert(c == Position { x: (t.x - 1) as usize, y: t.y });
    }
    if d == Direction::Bottom {
        assert(c == Position { x: t.x, y: (t.y - 1) as usize });
    }
    assert(cleared(ci) == cleared(v.cells[oi]) + 1);
    lemma_opened_update(v.cells, oi, ci);
    lemma_opened_update(opened, ot, opened[ot].with_flag(VISITED_BIT, true));
    assert forall|p: Position| #![trigger v.advance(d).cell(p)] v.in_bounds(p) implies {
        let n = v.advance(d).cell(p);
        &&& n.visited_flag() == (v.cell(p).visited_flag() || p == t)
        &&& n.right_flag() == if (d == Direction::Right && p == c) || (d == Direction::Left && p
            == t) {
            false
        } else {
            v.cell(p).right_flag()
        }
        &&& n.bottom_flag() == if (d == Direction::Bottom && p == c) || (d == Direction::Top && p
            == t) {
            false
        } else {
            v.cell(p).bottom_flag()
        }
    } by {
        lemma_offset_bound(p.x as int, p.y as int, w, v.height as int);
        if v.offset(p) == v.offset(c) {
            lemma_offset_injective(v, p, c);
        }
        if v.offset(p) == ot {
            lemma_offset_injective(v, p, t);
        }
    }
}

/// One step keeps every state property that generation relies on.
pub proof fn lemma_step_inv(v: MazeView, order: Seq<Direction>)
    requires
        v.inv(),
    ensures
        v.step(order).0.inv(),
        v.step(order).0.width == v.width,
        v.step(order).0.height == v.height,
{
    lemma_first_open(v, order, 0);
    match v.first_open(order, 0) {
        Some(d) => {
            lemma_advance(v, d);
            let n = v.advance(d);
            let t = d.target(v.cursor);
            assert(n.cell(t).visited_flag());
            assert forall|i: int| 0 <= i < n.tail.len() implies n.in_bounds(#[trigger] n.tail[i])
                && n.cell(n.tail[i]).visited_flag() by {
                if i < v.tail.len() {
                    assert(n.tail[i] == v.tail[i]);
                    assert(v.in_bounds(v.tail[i]));
                }
            }
            assert forall|p: Position| #![trigger n.cell(p)] n.in_bounds(p) implies (p.x == n.width
                - 1 ==> n.cell(p).right_flag()) && (p.y == n.height - 1 ==> n.cell(p).bottom_flag()) by {
                assert(v.in_bounds(p));
                assert(p.x == v.width - 1 ==> v.cell(p).right_flag());
            }
            assert(n.boundary_closed());
            assert forall|p: Position| #![trigger n.cell(p)] n.in_bounds(p) && !n.cell(p).visited_flag() implies {
                &&& n.cell(p).right_flag()
                &&& n.cell(p).bottom_flag()
                &&& p.x > 0 ==> n.cell(Position { x: (p.x - 1) as usize, y: p.y }).right_flag()
                &&& p.y > 0 ==> n.cell(Position { x: p.x, y: (p.y - 1) as usize }).bottom_flag()
            } by {
                assert(v.in_bounds(p));
                assert(!v.cell(p).visited_flag());
                if p.x > 0 {
                    let l = Position { x: (p.x - 1) as usize, y: p.y };
                    assert(v.in_bounds(l));
                    assert(n.cell(l).right_flag() == v.cell(l).right_flag());
                }
                if p.y > 0 {
                    let u = Position { x: p.x, y: (p.y - 1) as usize };
                    assert(v.in_bounds(u));
                    assert(n.cell(u).bottom_flag() == v.cell(u).bottom_flag());
                }
            }
            assert(n.wf());
            assert(n.in_bounds(n.cursor));
            assert(n.tail.len() + unvisited(n.cells) <= n.cells.len());
        },
        None => {
            if v.tail.len() > 0 {
                let n = v.step(order).0;
                assert(v.tail.contains(v.tail.last()));
                assert forall|i: int| 0 <= i < n.tail.len() implies n.in_bounds(#[trigger] n.tail[i])
                    && n.cell(n.tail[i]).visited_flag() by {
                    assert(n.tail[i] == v.tail[i]);
                }
                assert(v.in_bounds(v.tail[v.tail.len() - 1]));
                assert(n.cursor == v.tail[v.tail.len() - 1]);
                assert(n.cell(n.cursor).visited_flag());
                assert(n.in_bounds(n.cursor));
                assert forall|p: Position| #![trigger n.cell(p)] n.in_bounds(p) implies (p.x == n.width
                    - 1 ==> n.cell(p).right_flag()) && (p.y == n.height - 1 ==> n.cell(p).bottom_flag()) by {
                    assert(v.cell(p) == n.cell(p));
                }
                assert forall|p: Position| #![trigger n.cell(p)] n.in_bounds(p) && !n.cell(
                    p,
                ).visited_flag() implies {
                    &&& n.cell(p).right_flag()
                    &&& n.cell(p).bottom_flag()
                    &&& p.x > 0 ==> n.cell(Position { x: (p.x - 1) as usize, y: p.y }).right_flag()
                    &&& p.y > 0 ==> n.cell(Position { x: p.x, y: (p.y - 1) as usize }).bottom_flag()
                } by {
                    assert(v.cell(p) == n.cell(p));
                    assert(v.cell(Position { x: (p.x - 1) as usize, y: p.y }) == n.cell(
                        Position { x: (p.x - 1) as usize, y: p.y },
                    ));
                    assert(v.cell(Position { x: p.x, y: (p.y - 1) as usize }) == n.cell(
                        Position { x: p.x, y: (p.y - 1) as usize },
                    ));
                }
            }
        },
    }
}


/// The measure bounds how many steps remain: it is at most twice the number
/// of cells.
pub proof fn lemma_measure_bound(v: MazeView)
    requires
        v.inv(),
    ensures
        v.measure() <= 2 * (v.width * v.height),
        v.measure() < usize::MAX,
{
    lemma_unvisited_le(v.cells);
}

/// A step that does not finish lowers the measure by exactly one; a step that
/// finishes changes nothing; and with the measure at zero the step finishes.
pub proof fn lemma_step_measure(v: MazeView, order: Seq<Direction>)
    requires
        v.inv(),
    ensures
        !v.step(order).1 ==> v.step(order).0.measure() + 1 == v.measure(),
        v.step(order).1 ==> v.step(order).0 == v,
        v.measure() == 0 ==> v.step(order).1,
{
    lemma_first_open(v, order, 0);
    match v.first_open(order, 0) {
        Some(d) => {
            lemma_advance(v, d);
            if v.measure() == 0 {
                let t = d.target(v.cursor);
                lemma_offset_bound(t.x as int, t.y as int, v.width as int, v.height as int);
                lemma_unvisited_zero(v.cells, v.offset(t));
            }
        },
        None => {},
    }
}

/// Once a step scanning all four directions reports completion, every later
/// step, in any order, reports completion again and leaves the state as it is.
pub proof fn lemma_completion_idempotent(v: MazeView, order: Seq<Direction>, later: Seq<Direction>)
    requires
        v.inv(),
        all_directions(order),
        v.step(order).1,
    ensures
        v.finished(),
        v.step(later) == (v, true),
{
    lemma_first_open(v, order, 0);
    lemma_first_open(v, later, 0);
    assert forall|d: Direction| !v.open_dir(d) by {
        assert(order.contains(d));
    }
}

impl Maze {
    /// One step of the traversal, trying the directions in `order`.
    /// Returns whether generation was already complete.
    pub fn step_in_order(&mut self, order: [Direction; 4]) -> (r: bool)
        requires
            old(self)@.inv(),
        ensures
            final(self)@ == old(self)@.step(order@).0,
            r == old(self)@.step(order@).1,
            final(self)@.inv(),
            final(self)@.width == old(self)@.width,
            final(self)@.height == old(self)@.height,
    {
        proof {
            lemma_step_inv(self@, order@);
            lemma_first_open(self@, order@, 0);
        }
        let ghost start = self@;
        let mut dest: Option<Direction> = None;
        let mut i: usize = 0;
        while i < 4 && dest.is_none()
            invariant
                self@ == start,
                start.inv(),
                i <= 4,
                dest.is_none() ==> self@.first_open(order@, 0) == self@.first_open(order@, i as int),
                dest.is_some() ==> dest == self@.first_open(order@, 0),
            decreases 4 - i + if dest.is_none() { 1int } else { 0int },
        {
            if self.is_open(order[i]) {
                dest = Some(order[i]);
            } else {
                i = i + 1;
            }
        }
        match dest {
            Some(d) => {
                let c = self.cursor;
                match d {
                    Direction::Bottom => {
                        self.set_flag_at(c, BOTTOM_BIT, false);
                        self.move_cursor(d);
                    },
                    Direction::Right => {
                        self.set_flag_at(c, RIGHT_BIT, false);
                        self.move_cursor(d);
                    },
                    Direction::Top => {
                        self.move_cursor(d);
                        let t = self.cursor;
                        self.set_flag_at(t, BOTTOM_BIT, false);
                    },
                    Direction::Left => {
                        self.move_cursor(d);
                        let t = self.cursor;
                        self.set_flag_at(t, RIGHT_BIT, false);
                    },
                }
                let t = self.cursor;
                self.set_flag_at(t, VISITED_BIT, true);
                self.tail.push(t);
                false
            },
            None => match self.tail.pop() {
                None => true,
                Some(pos) => {
                    self.cursor = pos;
                    false
                },
            },
        }
    }

    /// One step of the traversal, trying the four directions in a random
    /// order drawn from the maze's generator. Returns whether generation was
    /// already complete.
    pub fn gen_step(&mut self) -> (r: bool)
        requires
            old(self)@.inv(),
        ensures
            final(self)@.inv(),
            (exists|order: Seq<Direction>|
                all_directions(order) && final(self)@ == old(self)@.step(order).0 && r == old(
                    self,
                )@.step(order).1),
            r ==> final(self)@.finished() && final(self)@ == old(self)@,
            !r ==> final(self)@.measure() + 1 == old(self)@.measure(),
            final(self)@.width == old(self)@.width,
            final(self)@.height == old(self)@.height,
    {
        let ghost start = self@;
        let base = [Direction::Left, Direction::Right, Direction::Top, Direction::Bottom];
        let order = shuffle_directions(base, &mut self.rng);
        proof {
            order@.to_multiset_ensures();
            base@.to_multiset_ensures();
            assert forall|d: Direction| order@.contains(d) by {
                match d {
                    Direction::Left => assert(base@[0] == d),
                    Direction::Right => assert(base@[1] == d),
                    Direction::Top => assert(base@[2] == d),
                    Direction::Bottom => assert(base@[3] == d),
                }
                assert(base@.contains(d));
                assert(order@.to_multiset().count(d) > 0);
            }
            lemma_step_measure(self@, order@);
            if self@.step(order@).1 {
                lemma_completion_idempotent(self@, order@, order@);
            }
        }
        let r = self.step_in_order(order);
        assert(all_directions(order@) && self@ == start.step(order@).0 && r == start.step(order@).1);
        r
    }

    /// Runs steps until generation completes or `limit` steps have run (no
    /// bound when `limit` is `None`). Returns whether generation completed.
    pub fn generate(&mut self, limit: Option<usize>) -> (r: bool)
        requires
            old(self)@.inv(),
        ensures
            final(self)@.inv(),
            final(self)@.width == old(self)@.width,
            final(self)@.height == old(self)@.height,
            r ==> final(self)@.finished(),
            r || (limit.is_some() && final(self)@.measure() + limit.unwrap() == old(self)@.measure()),
            limit.is_none() ==> r,
            (exists|orders: Seq<Seq<Direction>>|
                orders.len() <= budget(limit) && (!r ==> orders.len() == budget(limit)) && (forall|
                    i: int,
                | 0 <= i < orders.len() ==> all_directions(#[trigger] orders[i])) && final(self)@
                    == old(self)@.run(orders).0 && r == old(self)@.run(orders).1),
    {
        let ghost start = self@;
        assert(start == old(self)@);
        let n: usize = match limit {
            Some(n) => n,
            None => usize::MAX,
        };
        let mut i: usize = 0;
        let mut done = false;
        let ghost mut orders: Seq<Seq<Direction>> = seq![];
        while i < n && !done
            invariant
                orders.len() == i + if done { 1int } else { 0int },
                orders.len() <= n,
                forall|k: int| 0 <= k < orders.len() ==> all_directions(#[trigger] orders[k]),
                self@ == start.run(orders).0,
                done == start.run(orders).1,
                self@.inv(),
                self@.width == start.width,
                self@.height == start.height,
                self@.measure() + i == start.measure(),
                i <= n,
                done ==> self@.finished(),
                done ==> i < n,
            decreases n - i + if done { 0int } else { 1int },
        {
            let ghost prev = self@;
            let step_done = self.gen_step();
            proof {
                let o = choose|o: Seq<Direction>|
                    all_directions(o) && self@ == prev.step(o).0 && step_done == prev.step(o).1;
                lemma_run_push(start, orders, o);
                orders = orders.push(o);
            }
            if step_done {
                done = true;
            } else {
                i = i + 1;
            }
        }
        proof {
            lemma_measure_bound(start);
        }
        done
    }
}

/// In every reachable state the cleared walls number one less than the
/// visited cells; so once every cell is visited, exactly `width * height - 1`
/// walls are cleared, each an interior edge since the outer boundary stays
/// closed.
pub proof fn lemma_cleared_walls(v: MazeView)
    requires
        v.inv(),
    ensures
        opened(v.cells) + 1 == v.width * v.height - unvisited(v.cells),
        unvisited(v.cells) == 0 ==> opened(v.cells) == v.width * v.height - 1,
        v.boundary_closed(),
{
}

/// One more step after a run that has not completed continues from where
/// the run stopped.
pub proof fn lemma_run_push(v: MazeView, orders: Seq<Seq<Direction>>, o: Seq<Direction>)
    requires
        !v.run(orders).1,
    ensures
        v.run(orders.push(o)) == v.run(orders).0.step(o),
    decreases orders.len(),
{
    let longer = orders.push(o);
    if orders.len() > 0 {
        assert(longer[0] == orders[0]);
        assert(longer.drop_first() =~= orders.drop_first().push(o));
        lemma_run_push(v.step(orders[0]).0, orders.drop_first(), o);
        assert(!v.step(orders[0]).1);
        assert(v.run(longer) == v.step(orders[0]).0.run(longer.drop_first()));
    } else {
        assert(longer[0] == o);
        assert(longer.drop_first().len() == 0);
        assert(v.run(orders) == (v, false));
        let n = v.step(o).0;
        assert(n.run(longer.drop_first()) == (n, false));
        assert(v.step(o) == (v.step(o).0, v.step(o).1));
    }
}

/// Generation paused after a run that has not completed resumes exactly:
/// running `first` and then `rest` is running them one after the other.
pub proof fn lemma_run_resume(v: MazeView, first: Seq<Seq<Direction>>, rest: Seq<Seq<Direction>>)
    requires
        !v.run(first).1,
    ensures
        v.run(first + rest) == v.run(first).0.run(rest),
    decreases first.len(),
{
    if first.len() > 0 {
        assert((first + rest).drop_first() =~= first.drop_first() + rest);
        lemma_run_resume(v.step(first[0]).0, first.drop_first(), rest);
    } else {
        assert(first + rest =~= rest);
    }
}

} // verus!
