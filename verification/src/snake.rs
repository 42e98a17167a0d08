//! The body tracker: an ordered sequence of occupied grid cells, head first,
//! together with the current heading and the most recently vacated cell.

use vstd::prelude::*;
use std::collections::VecDeque;

verus! {

/// The four axis-aligned directions the snake can travel in.
#[derive(Copy, Clone, PartialEq, Eq, Structural)]
pub enum Direction {
    Up,
    Down,
    Left,
    Right,
}

/// The direction opposite to `d`: up pairs with down and left with right.
pub open spec fn dir_opposite(d: Direction) -> Direction {
    match d {
        Direction::Up => Direction::Down,
        Direction::Down => Direction::Up,
        Direction::Left => Direction::Right,
        Direction::Right => Direction::Left,
    }
}

impl Direction {
    /// The opposite direction, used to recognise and refuse an instant
    /// reversal of the heading.
    pub fn opposite(&self) -> (d: Direction)
        ensures
            d == dir_opposite(*self),
    {
        match *self {
            Direction::Up => Direction::Down,
            Direction::Down => Direction::Up,
            Direction::Left => Direction::Right,
            Direction::Right => Direction::Left,
        }
    }
}

/// The cell one step away from `c` in direction `d`. The board origin is the
/// top-left corner and y grows downward, so moving up decrements y.
pub open spec fn cell_step(c: (int, int), d: Direction) -> (int, int) {
    match d {
        Direction::Up => (c.0, c.1 - 1),
        Direction::Down => (c.0, c.1 + 1),
        Direction::Left => (c.0 - 1, c.1),
        Direction::Right => (c.0 + 1, c.1),
    }
}

/// Two cells are grid-adjacent when they differ by exactly one along one axis.
pub open spec fn adjacent(a: (int, int), b: (int, int)) -> bool {
    ||| a.0 == b.0 && (a.1 == b.1 + 1 || a.1 + 1 == b.1)
    ||| a.1 == b.1 && (a.0 == b.0 + 1 || a.0 + 1 == b.0)
}

/// The heading a query uses: the candidate when one is given, the current
/// heading otherwise.
pub open spec fn requested_dir(dir: Option<Direction>, current: Direction) -> Direction {
    match dir {
        Some(d) => d,
        None => current,
    }
}

/// The heading an advance adopts: a candidate is accepted unless it would
/// reverse the current heading, in which case the current heading is kept.
pub open spec fn advanced_dir(dir: Option<Direction>, current: Direction) -> Direction {
    match dir {
        Some(d) => if d == dir_opposite(current) {
            current
        } else {
            d
        },
        None => current,
    }
}

/// Both coordinates of `c` fit in `i32`.
pub open spec fn in_i32_range(c: (int, int)) -> bool {
    i32::MIN <= c.0 <= i32::MAX && i32::MIN <= c.1 <= i32::MAX
}

/// Whether cell `c` coincides with a body cell other than the last one. The
/// back cell is deliberately left out of the comparison: it is vacated on the
/// next advance, so the head may move onto it.
pub open spec fn hits_body(cells: Seq<(int, int)>, c: (int, int)) -> bool {
    exists|i: int| 0 <= i < cells.len() - 1 && #[trigger] cells[i] == c
}

/// One occupied grid square.
#[derive(Copy, Clone)]
struct Block {
    x: i32,
    y: i32,
}

impl View for Block {
    type V = (int, int);

    closed spec fn view(&self) -> (int, int) {
        (self.x as int, self.y as int)
    }
}

/// The snake: its body cells (head at the front, oldest tail segment at the
/// back), its heading, and the cell most recently removed from the back.
pub struct Snake {
    direction: Direction,
    body: VecDeque<Block>,
    tail: Option<Block>,
}

impl Snake {
    /// The occupied cells, head first, as mathematical integer pairs.
    pub closed spec fn cells(&self) -> Seq<(int, int)> {
        self.body@.map(|i: int, b: Block| b@)
    }

    /// The current heading.
    pub closed spec fn heading(&self) -> Direction {
        self.direction
    }

    /// The cell most recently vacated by an advance, if it has not been
    /// consumed by growth.
    pub closed spec fn retained_tail(&self) -> Option<(int, int)> {
        match self.tail {
            Some(b) => Some(b@),
            None => None,
        }
    }

    /// The body is never empty, consecutive cells are grid-adjacent, and the
    /// retained cell, when present, is adjacent to the current back cell.
    pub open spec fn well_formed(&self) -> bool {
        &&& self.cells().len() >= 1
        &&& forall|i: int|
            0 <= i < self.cells().len() - 1 ==> adjacent(
                #[trigger] self.cells()[i],
                self.cells()[i + 1],
            )
        &&& (self.retained_tail() matches Some(c) ==> adjacent(c, self.cells().last()))
    }

    /// Creates a snake of three cells with its head at `(x + 2, y)`, heading
    /// right, with no retained tail.
    pub fn new(x: i32, y: i32) -> (s: Snake)
        requires
            x + 2 <= i32::MAX,
        ensures
            s.well_formed(),
            s.cells() == seq![(x + 2, y as int), (x + 1, y as int), (x as int, y as int)],
            s.heading() == Direction::Right,
            s.retained_tail() is None,
    {
        let mut body: VecDeque<Block> = VecDeque::new();
        body.push_back(Block { x: x + 2, y });
        body.push_back(Block { x: x + 1, y });
        body.push_back(Block { x, y });

        let s = Snake { direction: Direction::Right, body, tail: None };
        proof {
            assert(s.cells() =~= seq![
                (x + 2, y as int),
                (x + 1, y as int),
                (x as int, y as int),
            ]);
        }
        s
    }

    /// The number of cells the body occupies.
    pub fn get_length(&self) -> (n: usize)
        ensures
            n == self.cells().len(),
    {
        self.body.len()
    }

    /// The grid coordinates of the front cell.
    pub fn head_position(&self) -> (p: (i32, i32))
        requires
            self.cells().len() >= 1,
        ensures
            (p.0 as int, p.1 as int) == self.cells()[0],
    {
        let head_block = &self.body[0];
        (head_block.x, head_block.y)
    }

    /// The grid coordinates of the cell at position `i`, counted from the head.
    pub fn cell(&self, i: usize) -> (p: (i32, i32))
        requires
            i < self.cells().len(),
        ensures
            (p.0 as int, p.1 as int) == self.cells()[i as int],
    {
        let block = &self.body[i];
        (block.x, block.y)
    }

    /// The current heading.
    pub fn head_direction(&self) -> (d: Direction)
        ensures
            d == self.heading(),
    {
        self.direction
    }

    /// The cell the head would occupy after an advance along `dir` (or along
    /// the current heading when `dir` is `None`), without changing any state.
    /// The candidate is applied here exactly as given; only `move_forward`
    /// filters out reversals.
    pub fn next_head(&self, dir: Option<Direction>) -> (p: (i32, i32))
        requires
            self.cells().len() >= 1,
            in_i32_range(cell_step(self.cells()[0], requested_dir(dir, self.heading()))),
        ensures
            (p.0 as int, p.1 as int) == cell_step(
                self.cells()[0],
                requested_dir(dir, self.heading()),
            ),
    {
        let (head_x, head_y): (i32, i32) = self.head_position();

        let mut moving_dir = self.direction;
        match dir {
            Some(d) => moving_dir = d,
            None => {}
        }
        match moving_dir {
            Direction::Up => (head_x, head_y - 1),
            Direction::Down => (head_x, head_y + 1),
            Direction::Left => (head_x - 1, head_y),
            Direction::Right => (head_x + 1, head_y),
        }
    }

    /// Advances the body one cell: the heading is updated from `dir` (a
    /// candidate that would reverse the current heading is ignored, so the
    /// advance then behaves exactly as with no candidate at all), the cell one
    /// step ahead becomes the new head, and the back cell is removed from the
    /// body and retained for a later `grow_tail`. The length is unchanged.
    pub fn move_forward(&mut self, dir: Option<Direction>)
        requires
            old(self).well_formed(),
            in_i32_range(cell_step(old(self).cells()[0], advanced_dir(dir, old(self).heading()))),
        ensures
            final(self).well_formed(),
            final(self).heading() == advanced_dir(dir, old(self).heading()),
            final(self).cells() == seq![
                cell_step(old(self).cells()[0], advanced_dir(dir, old(self).heading())),
            ] + old(self).cells().drop_last(),
            final(self).cells().len() == old(self).cells().len(),
            final(self).retained_tail() == Some(old(self).cells().last()),
    {
        match dir {
            Some(d) => {
                if !(d == self.direction.opposite()) {
                    self.direction = d;
                }
            }
            None => {}
        }
        let (last_x, last_y): (i32, i32) = self.head_position();

        let new_block = match self.direction {
            Direction::Up => Block { x: last_x, y: last_y - 1 },
            Direction::Down => Block { x: last_x, y: last_y + 1 },
            Direction::Left => Block { x: last_x - 1, y: last_y },
            Direction::Right => Block { x: last_x + 1, y: last_y },
        };

        self.body.push_front(new_block);
        self.tail = None;
        let removed_block = match self.body.pop_back() {
            Some(b) => b,
            None => unreached(),
        };
        self.tail = Some(removed_block);

        proof {
            let oldc = old(self).cells();
            let newc = self.cells();
            let head = cell_step(oldc[0], advanced_dir(dir, old(self).heading()));
            assert(newc =~= seq![head] + oldc.drop_last());
            assert forall|i: int| 0 <= i < newc.len() - 1 implies adjacent(
                #[trigger] newc[i],
                newc[i + 1],
            ) by {
                if i == 0 {
                    assert(newc[1] == oldc[0]);
                } else {
                    assert(newc[i] == oldc[i - 1]);
                    assert(newc[i + 1] == oldc[i]);
                    assert(adjacent(oldc[i - 1], oldc[i]));
                }
            }
            if oldc.len() >= 2 {
                assert(adjacent(oldc[oldc.len() - 2], oldc[oldc.len() - 1]));
                assert(newc.last() == oldc[oldc.len() - 2]);
            } else {
                assert(newc.last() == head);
            }
            assert(adjacent(self.retained_tail().unwrap(), newc.last()));
        }
    }

    /// Appends the retained cell, if any, to the back of the body, making the
    /// body one cell longer, and consumes it; with no retained cell present
    /// this is a no-op.
    pub fn grow_tail(&mut self)
        requires
            old(self).well_formed(),
        ensures
            final(self).well_formed(),
            final(self).heading() == old(self).heading(),
            old(self).retained_tail() matches Some(c) ==> final(self).cells() == old(
                self,
            ).cells().push(c),
            old(self).retained_tail() is Some ==> final(self).retained_tail() is None,
            old(self).retained_tail() is None ==> *final(self) == *old(self),
    {
        if let Some(block) = self.tail {
            self.body.push_back(block);
            self.tail = None;
            proof {
                let oldc = old(self).cells();
                assert(self.cells() =~= oldc.push(block@));
                assert forall|i: int| 0 <= i < self.cells().len() - 1 implies adjacent(
                    #[trigger] self.cells()[i],
                    self.cells()[i + 1],
                ) by {
                    if i < oldc.len() - 1 {
                        assert(adjacent(oldc[i], oldc[i + 1]));
                    } else {
                        assert(self.cells()[i] == oldc.last());
                        assert(adjacent(block@, oldc.last()));
                    }
                }
            }
        }
    }

    /// Whether `(x, y)` coincides with a body cell other than the current back
    /// cell. The back cell is excluded: it is vacated on the next advance, so
    /// the head may safely move onto it. Cells are examined head first and the
    /// walk stops before the last one.
    pub fn is_overlapping(&self, x: i32, y: i32) -> (r: bool)
        requires
            self.cells().len() >= 1,
        ensures
            r == hits_body(self.cells(), (x as int, y as int)),
    {
        let len: usize = self.body.len();
        let mut i: usize = 0;

        while i + 1 < len
            invariant
                len == self.cells().len(),
                1 <= len,
                0 <= i < len,
                forall|j: int| 0 <= j < i ==> #[trigger] self.cells()[j] != (x as int, y as int),
            decreases len - i,
        {
            let block = &self.body[i];
            if x == block.x && y == block.y {
                proof {
                    assert(self.cells()[i as int] == (x as int, y as int));
                }
                return true;
            }
            i = i + 1;
        }

        false
    }
}

/// A freshly constructed body collides with its own middle cell but not with
/// its construction coordinates: of the three cells laid down for a head at
/// `(x + 2, y)`, the cell `(x + 1, y)` is reported as overlapping, while
/// `(x, y)` is not, being excluded as the current back cell.
pub proof fn lemma_new_body_overlap(cells: Seq<(int, int)>, x: int, y: int)
    requires
        cells == seq![(x + 2, y), (x + 1, y), (x, y)],
    ensures
        hits_body(cells, (x + 1, y)),
        !hits_body(cells, (x, y)),
{
    assert(cells[1] == (x + 1, y));
    assert(cells[0] != (x, y));
}

/// Projecting the next head is pure: any two results that satisfy the
/// contract of `next_head` for the same snake and the same candidate are
/// equal, and the projection reads nothing but the head cell and the heading.
pub proof fn lemma_next_head_pure(
    s: Snake,
    dir: Option<Direction>,
    p1: (int, int),
    p2: (int, int),
)
    requires
        p1 == cell_step(s.cells()[0], requested_dir(dir, s.heading())),
        p2 == cell_step(s.cells()[0], requested_dir(dir, s.heading())),
    ensures
        p1 == p2,
{
}

/// A candidate that would reverse the current heading is ignored by an
/// advance: the adopted heading is the current one, the same as with no
/// candidate at all, so the whole advance behaves as one without a candidate.
pub proof fn lemma_reversal_ignored(d: Direction, current: Direction)
    requires
        d == dir_opposite(current),
    ensures
        advanced_dir(Some(d), current) == advanced_dir(None, current),
        advanced_dir(Some(d), current) == current,
{
}

/// An advance never adopts the opposite of the heading used just before it,
/// whatever candidate is offered.
pub proof fn lemma_no_reversal(dir: Option<Direction>, current: Direction)
    ensures
        advanced_dir(dir, current) != dir_opposite(current),
{
}

/// Growing right after an advance restores the removed cell: the body becomes
/// exactly one cell longer than before the advance, and its new back cell is
/// the cell that the advance removed.
pub proof fn lemma_grow_restores_removed_cell(
    s0: Snake,
    s1: Snake,
    s2: Snake,
    dir: Option<Direction>,
)
    requires
        s0.well_formed(),
        s1.cells() == seq![
            cell_step(s0.cells()[0], advanced_dir(dir, s0.heading())),
        ] + s0.cells().drop_last(),
        s1.retained_tail() == Some(s0.cells().last()),
        s1.retained_tail() matches Some(c) && s2.cells() == s1.cells().push(c),
    ensures
        s2.cells().len() == s0.cells().len() + 1,
        s2.cells().last() == s0.cells().last(),
{
}

/// A collision query hits whenever some cell before the back one matches the
/// queried cell.
pub proof fn lemma_earlier_cell_hits(cells: Seq<(int, int)>, i: int)
    requires
        0 <= i < cells.len() - 1,
    ensures
        hits_body(cells, cells[i]),
{
}

/// The back cell itself never makes a collision query hit: for a body of at
/// least two cells whose back cell is matched by no earlier cell, querying
/// the back cell's coordinates reports no overlap.
pub proof fn lemma_back_cell_excluded(cells: Seq<(int, int)>, c: (int, int))
    requires
        cells.len() >= 2,
        cells.last() == c,
        forall|i: int| 0 <= i < cells.len() - 1 ==> #[trigger] cells[i] != c,
    ensures
        !hits_body(cells, c),
{
}

/// A collision query never examines the back cell, whatever the body length:
/// two bodies of equal length that agree on every cell except possibly the
/// back one answer every query alike.
pub proof fn lemma_back_cell_never_examined(
    cells1: Seq<(int, int)>,
    cells2: Seq<(int, int)>,
    c: (int, int),
)
    requires
        cells1.len() == cells2.len(),
        forall|i: int| 0 <= i < cells1.len() - 1 ==> #[trigger] cells1[i] == cells2[i],
    ensures
        hits_body(cells1, c) == hits_body(cells2, c),
{
    if hits_body(cells1, c) {
        let i = choose|i: int| 0 <= i < cells1.len() - 1 && #[trigger] cells1[i] == c;
        assert(cells2[i] == c);
    }
    if hits_body(cells2, c) {
        let i = choose|i: int| 0 <= i < cells2.len() - 1 && #[trigger] cells2[i] == c;
        assert(cells1[i] == c);
    }
}

} // verus!
