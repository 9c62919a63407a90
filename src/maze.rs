use vstd::prelude::*;
use vstd::arithmetic::div_mod::lemma_fundamental_div_mod_converse;
use crate::position::{adjacent, step, Position, DOWN, LEFT, RIGHT, UP};
use crate::walls::{
    find_entrance, gen_all_walls, h_index, is_entrance, is_side_slot, no_entrance, sides_blocked,
    v_index, Wall, CERTAIN,
};

verus! {

/// How many times `Maze::new` draws a wall grid before it gives up on
/// finding an entrance.
pub const MAX_ATTEMPTS: u32 = 64;

/// One active search branch: where it stands and the path that led there.
#[derive(Debug)]
pub struct Cell {
    position: Position,
    path: Vec<Position>,
}

/// The mathematical view of a branch.
pub struct BranchView {
    pub position: Position,
    pub path: Seq<Position>,
}

impl View for Cell {
    type V = BranchView;

    closed spec fn view(&self) -> BranchView {
        BranchView { position: self.position, path: self.path@ }
    }
}

/// Why a maze could not be built.
#[derive(Clone, Copy, Debug, PartialEq, Eq, Structural)]
pub enum MazeError {
    /// A dimension is zero, or the grid does not fit in memory.
    Dimensions,
    /// A wall array has the wrong length.
    WallCount,
    /// An outer left or right wall is open.
    OpenSide,
    /// No wall of the top row from the middle column on is open.
    NoEntrance,
    /// The chosen entrance column lies outside the grid.
    EntranceOutside,
}

/// A maze with its wavefront solver state.
pub struct Maze {
    width: u32,
    height: u32,
    cells: Vec<Cell>,
    v_walls: Vec<Wall>,
    h_walls: Vec<Wall>,
    visited: Vec<bool>,
    winner: Option<Cell>,
    entrance: Position,
}

/// The mathematical view of a maze.
pub struct MazeView {
    pub width: nat,
    pub height: nat,
    pub v_walls: Seq<Wall>,
    pub h_walls: Seq<Wall>,
    pub visited: Set<Position>,
    pub frontier: Seq<BranchView>,
    pub winner: Option<BranchView>,
    pub entrance: Position,
}

/// Index of position `p` in the visited table of a maze of width `width`.
pub open spec fn visit_index(width: int, p: Position) -> int {
    p.y * (width + 1) + p.x
}

/// The positions that a visited table of a `width` by `height` maze marks.
pub open spec fn visited_set(width: int, height: int, table: Seq<bool>) -> Set<Position> {
    Set::new(|p: Position| p.x <= width && p.y <= height && table[visit_index(width, p)])
}

impl View for Maze {
    type V = MazeView;

    closed spec fn view(&self) -> MazeView {
        MazeView {
            width: self.width as nat,
            height: self.height as nat,
            v_walls: self.v_walls@,
            h_walls: self.h_walls@,
            visited: visited_set(self.width as int, self.height as int, self.visited@),
            frontier: self.cells@.map_values(|c: Cell| c@),
            winner: match self.winner {
                Some(c) => Some(c@),
                None => None,
            },
            entrance: self.entrance,
        }
    }
}

/// The branch that stands at `p` having come from nowhere else.
pub open spec fn start_branch(p: Position) -> BranchView {
    BranchView { position: p, path: seq![p] }
}

impl MazeView {
    /// `p` is a cell of the grid.
    pub open spec fn in_grid(self, p: Position) -> bool {
        p.x < self.width && p.y < self.height
    }

    /// The wall of cell `p` in `direction` (0 up, 1 down, 2 left, 3 right).
    pub open spec fn cell_wall(self, p: Position, direction: int) -> Wall {
        let w = self.width as int;
        if direction == UP {
            self.h_walls[h_index(w, p.x as int, p.y as int)]
        } else if direction == DOWN {
            self.h_walls[h_index(w, p.x as int, p.y + 1)]
        } else if direction == LEFT {
            self.v_walls[v_index(w, p.x as int, p.y as int)]
        } else {
            self.v_walls[v_index(w, p.x + 1, p.y as int)]
        }
    }

    /// The wall between cell `a` and its neighbour `b`.
    pub open spec fn wall_between(self, a: Position, b: Position) -> Wall {
        if b.y + 1 == a.y {
            self.cell_wall(a, UP as int)
        } else if b.y == a.y + 1 {
            self.cell_wall(a, DOWN as int)
        } else if b.x + 1 == a.x {
            self.cell_wall(a, LEFT as int)
        } else {
            self.cell_wall(a, RIGHT as int)
        }
    }

    /// Moving from cell `a` to `b` is one unit on one axis through an open wall.
    pub open spec fn open_step(self, a: Position, b: Position) -> bool {
        self.in_grid(a) && adjacent(a, b) && self.wall_between(a, b) == Wall::Open
    }

    /// `b` is reached from cell `a` by one step through an open wall.
    pub open spec fn open_neighbour(self, a: Position, b: Position) -> bool {
        exists|d: int|
            0 <= d < 4 && #[trigger] self.cell_wall(a, d) == Wall::Open && step(
                a,
                d,
                self.width as int,
                self.height as int,
            ) == Some(b)
    }

    /// A path from the entrance in which every step goes through an open wall.
    pub open spec fn valid_path(self, path: Seq<Position>) -> bool {
        &&& path.len() >= 1
        &&& path[0] == self.entrance
        &&& forall|i: int| 0 <= i < path.len() - 1 ==> #[trigger] self.open_step(path[i], path[i + 1])
    }

    /// A branch whose path is valid and ends where the branch stands.
    pub open spec fn valid_branch(self, b: BranchView) -> bool {
        self.valid_path(b.path) && b.path.last() == b.position
    }

    /// The invariant of every maze.
    pub open spec fn wf(self) -> bool {
        &&& 1 <= self.width <= u32::MAX
        &&& 1 <= self.height <= u32::MAX
        &&& self.v_walls.len() == (self.width + 1) * self.height
        &&& self.h_walls.len() == self.width * (self.height + 1)
        &&& sides_blocked(self.v_walls, self.width as int, self.height as int)
        &&& self.entrance.y == 0
        &&& self.entrance.x < self.width
        &&& self.visited.contains(self.entrance)
        &&& forall|i: int|
            0 <= i < self.frontier.len() ==> {
                let b = #[trigger] self.frontier[i];
                self.in_grid(b.position) && self.visited.contains(b.position) && self.valid_branch(b)
            }
        &&& forall|i: int, j: int|
            0 <= i < self.frontier.len() && 0 <= j < self.frontier.len() && i != j
                ==> #[trigger] self.frontier[i].position != #[trigger] self.frontier[j].position
        &&& self.winner matches Some(b) ==> {
            &&& self.valid_branch(b)
            &&& b.position.y == self.height
            &&& b.position.x < self.width
        }
    }

    /// The state right after construction: one branch at the entrance.
    pub open spec fn is_fresh(self) -> bool {
        &&& self.frontier == seq![start_branch(self.entrance)]
        &&& self.visited == set![self.entrance]
        &&& self.winner is None
    }

    /// The grid, entrance and dimensions of `self` and `other` agree.
    pub open spec fn same_grid(self, other: MazeView) -> bool {
        &&& self.width == other.width
        &&& self.height == other.height
        &&& self.v_walls == other.v_walls
        &&& self.h_walls == other.h_walls
        &&& self.entrance == other.entrance
    }
}

/// Two positions of the grid have the same visited index only if they are equal.
proof fn lemma_visit_index_injective(width: int, a: Position, b: Position)
    requires
        width >= 0,
        a.x <= width,
        b.x <= width,
        visit_index(width, a) == visit_index(width, b),
    ensures
        a == b,
{
    lemma_fundamental_div_mod_converse(visit_index(width, a), width + 1, a.y as int, a.x as int);
    lemma_fundamental_div_mod_converse(visit_index(width, b), width + 1, b.y as int, b.x as int);
}

/// Every position of the grid, the row below it included, has a slot in the table.
proof fn lemma_visit_index_bound(width: int, height: int, p: Position)
    requires
        width >= 0,
        height >= 0,
        p.x <= width,
        p.y <= height,
    ensures
        0 <= visit_index(width, p) < (width + 1) * (height + 1),
{
    assert(0 <= p.y * (width + 1) + p.x < (width + 1) * (height + 1)) by (nonlinear_arith)
        requires
            width >= 0,
            height >= 0,
            0 <= p.x <= width,
            0 <= p.y <= height,
    ;
}

/// Marking one position in the table adds exactly that position to the set.
proof fn lemma_mark_visited(width: int, height: int, table: Seq<bool>, q: Position)
    requires
        width >= 0,
        height >= 0,
        q.x <= width,
        q.y <= height,
        table.len() == (width + 1) * (height + 1),
    ensures
        visited_set(width, height, table.update(visit_index(width, q), true)) == visited_set(
            width,
            height,
            table,
        ).insert(q),
{
    lemma_visit_index_bound(width, height, q);
    let after = table.update(visit_index(width, q), true);
    assert forall|p: Position| visited_set(width, height, after).contains(p) <==> visited_set(
        width,
        height,
        table,
    ).insert(q).contains(p) by {
        if p.x <= width && p.y <= height {
            lemma_visit_index_bound(width, height, p);
            if visit_index(width, p) == visit_index(width, q) {
                lemma_visit_index_injective(width, p, q);
            }
        }
    }
    assert(visited_set(width, height, after) =~= visited_set(width, height, table).insert(q));
}

/// A step through an open wall from a cell of a well-formed maze stays in
/// bounds, goes to a neighbour, and leaves the grid only through its bottom.
proof fn lemma_open_move(v: MazeView, a: Position, d: int, b: Position)
    requires
        v.wf(),
        v.in_grid(a),
        0 <= d < 4,
        v.cell_wall(a, d) == Wall::Open,
        step(a, d, v.width as int, v.height as int) == Some(b),
    ensures
        v.open_step(a, b),
        v.open_neighbour(a, b),
        b.x < v.width,
        b.y <= v.height,
        b.y == v.height ==> d == DOWN,
{
    let w = v.width as int;
    assert(v.v_walls[v_index(w, 0, a.y as int)] == Wall::Block);
    assert(v.v_walls[v_index(w, w, a.y as int)] == Wall::Block);
    if d == UP {
        assert(b.y + 1 == a.y && b.x == a.x);
    } else if d == DOWN {
        assert(b.y == a.y + 1 && b.x == a.x);
    } else if d == LEFT {
        assert(b.x + 1 == a.x && b.y == a.y);
    } else {
        assert(b.x == a.x + 1 && b.y == a.y);
        assert(a.x + 1 < w);
    }
}

/// Whether a branch is valid depends on the grid and the entrance alone.
proof fn lemma_valid_branch_same_grid(a: MazeView, b: MazeView, br: BranchView)
    requires
        a.same_grid(b),
        a.valid_branch(br),
    ensures
        b.valid_branch(br),
{
    assert forall|i: int| 0 <= i < br.path.len() - 1 implies #[trigger] b.open_step(
        br.path[i],
        br.path[i + 1],
    ) by {
        assert(a.open_step(br.path[i], br.path[i + 1]));
    }
}

/// Marking one more position keeps a well-formed maze well formed.
proof fn lemma_wf_mark(v: MazeView, q: Position)
    requires
        v.wf(),
    ensures
        (MazeView { visited: v.visited.insert(q), ..v }).wf(),
{
    let u = MazeView { visited: v.visited.insert(q), ..v };
    assert forall|i: int| 0 <= i < u.frontier.len() implies {
        let b = #[trigger] u.frontier[i];
        u.in_grid(b.position) && u.visited.contains(b.position) && u.valid_branch(b)
    } by {
        lemma_valid_branch_same_grid(v, u, u.frontier[i]);
    }
    if let Some(w) = u.winner {
        lemma_valid_branch_same_grid(v, u, w);
    }
}

/// Appending an open step to a valid branch gives a valid branch.
proof fn lemma_extend_branch(v: MazeView, b: BranchView, q: Position)
    requires
        v.valid_branch(b),
        v.open_step(b.position, q),
    ensures
        v.valid_branch(BranchView { position: q, path: b.path.push(q) }),
{
    let path = b.path.push(q);
    assert forall|i: int| 0 <= i < path.len() - 1 implies #[trigger] v.open_step(path[i], path[i + 1]) by {
        if i < b.path.len() - 1 {
            assert(path[i] == b.path[i] && path[i + 1] == b.path[i + 1]);
        }
    }
}

/// `bytes` holds `x` then `y`, each cut to a byte, of every position in order.
pub open spec fn coordinate_bytes(ps: Seq<Position>, bytes: Seq<u8>) -> bool {
    &&& bytes.len() == 2 * ps.len()
    &&& forall|k: int|
        0 <= k < ps.len() ==> bytes[2 * k] == (#[trigger] ps[k]).x as u8 && bytes[2 * k + 1]
            == ps[k].y as u8
}

/// Writing one more position extends the byte form by its two coordinates.
proof fn lemma_coordinate_bytes_push(ps: Seq<Position>, bytes: Seq<u8>, p: Position)
    requires
        coordinate_bytes(ps, bytes),
    ensures
        coordinate_bytes(ps.push(p), bytes.push(p.x as u8).push(p.y as u8)),
{
    let ps2 = ps.push(p);
    let b2 = bytes.push(p.x as u8).push(p.y as u8);
    assert forall|k: int| 0 <= k < ps2.len() implies b2[2 * k] == (#[trigger] ps2[k]).x as u8
        && b2[2 * k + 1] == ps2[k].y as u8 by {
        if k < ps.len() {
            assert(ps2[k] == ps[k]);
        }
    }
}

/// A copy of a wall array.
fn copy_walls(walls: &Vec<Wall>) -> (r: Vec<Wall>)
    ensures
        r@ == walls@,
{
    let mut r: Vec<Wall> = Vec::new();
    let mut i: usize = 0;
    while i < walls.len()
        invariant
            i <= walls.len(),
            r@ == walls@.subrange(0, i as int),
        decreases walls.len() - i,
    {
        r.push(walls[i]);
        i += 1;
        assert(r@ =~= walls@.subrange(0, i as int));
    }
    assert(walls@.subrange(0, walls.len() as int) =~= walls@);
    r
}

/// Some cell of `cells` stands at `q`.
spec fn claimed(cells: Seq<Cell>, q: Position) -> bool {
    exists|k: int| 0 <= k < cells.len() && (#[trigger] cells[k]).position == q
}

/// Appending a cell keeps every claim and adds the new cell's position.
proof fn lemma_claimed_push(cells: Seq<Cell>, c: Cell, q: Position)
    requires
        claimed(cells, q) || q == c.position,
    ensures
        claimed(cells.push(c), q),
{
    let all = cells.push(c);
    if q == c.position {
        assert(all[cells.len() as int] == c);
    } else {
        let k = choose|k: int| 0 <= k < cells.len() && (#[trigger] cells[k]).position == q;
        assert(all[k] == cells[k]);
    }
}

/// A copy of `path` with `p` appended.
fn extend_path(path: &Vec<Position>, p: Position) -> (r: Vec<Position>)
    ensures
        r@ == path@.push(p),
{
    let mut r: Vec<Position> = Vec::new();
    let mut i: usize = 0;
    while i < path.len()
        invariant
            i <= path.len(),
            r@ == path@.subrange(0, i as int),
        decreases path.len() - i,
    {
        r.push(path[i]);
        i += 1;
        assert(r@ =~= path@.subrange(0, i as int));
    }
    assert(path@.subrange(0, path.len() as int) =~= path@);
    r.push(p);
    r
}

impl Maze {
    /// The view is well formed and the stored tables agree with it.
    pub closed spec fn wf(&self) -> bool {
        &&& self@.wf()
        &&& (self.width + 1) * (self.height + 1) <= usize::MAX
        &&& self.visited.len() == (self.width + 1) * (self.height + 1)
        &&& forall|i: int| 0 <= i < self.cells.len() ==> #[trigger] self.cells@[i].path.len() >= 1
    }

    /// Whether a `width` by `height` maze is too small or too large to build.
    pub open spec fn dims_error(width: int, height: int) -> bool {
        width == 0 || height == 0 || (width + 1) * (height + 1) > usize::MAX
    }

    /// The first fault of a wall grid, if any.
    pub open spec fn grid_error(width: int, height: int, v_walls: Seq<Wall>, h_walls: Seq<Wall>) -> Option<MazeError> {
        if Self::dims_error(width, height) {
            Some(MazeError::Dimensions)
        } else if v_walls.len() != (width + 1) * height || h_walls.len() != width * (height + 1) {
            Some(MazeError::WallCount)
        } else if !sides_blocked(v_walls, width, height) {
            Some(MazeError::OpenSide)
        } else {
            None
        }
    }

    fn check_dims(width: u32, height: u32) -> (r: bool)
        ensures
            r == Self::dims_error(width as int, height as int),
            !r ==> width + 1 <= usize::MAX && height + 1 <= usize::MAX,
    {
        proof {
            assert((width + 1) * (height + 1) <= 0x1_0000_0000 * 0x1_0000_0000) by (nonlinear_arith);
            assert(width + 1 <= (width + 1) * (height + 1)) by (nonlinear_arith);
            assert(height + 1 <= (width + 1) * (height + 1)) by (nonlinear_arith);
        }
        width == 0 || height == 0 || (width as u128 + 1) * (height as u128 + 1) > usize::MAX as u128
    }

    /// Checks the dimensions, the lengths of the wall arrays and the outer walls.
    fn check_grid(width: u32, height: u32, v_walls: &Vec<Wall>, h_walls: &Vec<Wall>) -> (r: Option<MazeError>)
        ensures
            r == Self::grid_error(width as int, height as int, v_walls@, h_walls@),
    {
        if Self::check_dims(width, height) {
            return Some(MazeError::Dimensions);
        }
        let w1: usize = width as usize + 1;
        let h1: usize = height as usize + 1;
        proof {
            assert((width + 1) * height <= (width + 1) * (height + 1)) by (nonlinear_arith);
            assert(width * (height + 1) <= (width + 1) * (height + 1)) by (nonlinear_arith);
        }
        if v_walls.len() != w1 * height as usize || h_walls.len() != width as usize * h1 {
            return Some(MazeError::WallCount);
        }
        let mut y: usize = 0;
        while y < height as usize
            invariant
                w1 == width + 1,
                v_walls.len() == (width + 1) * height,
                h_walls.len() == width * (height + 1),
                !Self::dims_error(width as int, height as int),
                y <= height,
                forall|k: int| 0 <= k < y ==> #[trigger] v_walls@[v_index(width as int, 0, k)] == Wall::Block
                    && v_walls@[v_index(width as int, width as int, k)] == Wall::Block,
            decreases height - y,
        {
            proof {
                assert(y * (width + 1) + width < (width + 1) * height) by (nonlinear_arith)
                    requires y < height;
            }
            if v_walls[y * w1] != Wall::Block || v_walls[y * w1 + width as usize] != Wall::Block {
                proof {
                    assert(v_index(width as int, 0, y as int) == y * w1);
                    assert(v_index(width as int, width as int, y as int) == y * w1 + width);
                    assert(v_walls@[v_index(width as int, 0, y as int)] != Wall::Block
                        || v_walls@[v_index(width as int, width as int, y as int)] != Wall::Block);
                    assert(!sides_blocked(v_walls@, width as int, height as int));
                }
                return Some(MazeError::OpenSide);
            }
            y += 1;
        }
        None
    }

    /// Builds a maze from given walls, with its entrance at column `entrance_x`
    /// of the top row, whatever the wall there.
    pub fn with_entrance(width: u32, height: u32, v_walls: Vec<Wall>, h_walls: Vec<Wall>, entrance_x: u32) -> (r: Result<Maze, MazeError>)
        ensures
            r matches Err(e) ==> e == Self::build_error(width as int, height as int, v_walls@, h_walls@, entrance_x as int).unwrap(),
            Self::build_error(width as int, height as int, v_walls@, h_walls@, entrance_x as int) is None <==> r is Ok,
            r matches Ok(m) ==> {
                &&& m.wf()
                &&& m@.wf()
                &&& m@.is_fresh()
                &&& m@.width == width
                &&& m@.height == height
                &&& m@.v_walls == v_walls@
                &&& m@.h_walls == h_walls@
                &&& m@.entrance == (Position { x: entrance_x, y: 0 })
            },
    {
        if let Some(e) = Self::check_grid(width, height, &v_walls, &h_walls) {
            return Err(e);
        }
        if entrance_x >= width {
            return Err(MazeError::EntranceOutside);
        }
        proof {
            assert(width + 1 <= (width + 1) * (height + 1)) by (nonlinear_arith);
            assert(height + 1 <= (width + 1) * (height + 1)) by (nonlinear_arith);
        }
        let w1: usize = width as usize + 1;
        let h1: usize = height as usize + 1;
        let p = Position { x: entrance_x, y: 0 };
        let mut path: Vec<Position> = Vec::new();
        path.push(p);
        let mut cells: Vec<Cell> = Vec::new();
        cells.push(Cell { position: p, path });
        let mut visited: Vec<bool> = Vec::new();
        let n: usize = w1 * h1;
        let mut i: usize = 0;
        while i < n
            invariant
                n == (width + 1) * (height + 1),
                i <= n,
                visited.len() == i,
                forall|k: int| 0 <= k < i ==> !visited@[k],
            decreases n - i,
        {
            visited.push(false);
            i += 1;
        }
        visited.set(p.x as usize, true);
        let m = Maze { width, height, cells, v_walls, h_walls, visited, winner: None, entrance: p };
        proof {
            assert(m@.frontier =~= seq![start_branch(p)]);
            assert forall|q: Position| m@.visited.contains(q) <==> q == p by {
                if m@.visited.contains(q) {
                    lemma_visit_index_bound(width as int, height as int, q);
                    if visit_index(width as int, q) == p.x {
                        lemma_visit_index_injective(width as int, q, p);
                    }
                }
            }
            assert(m@.visited =~= set![p]);
        }
        Ok(m)
    }

    /// Builds a maze from given walls; its entrance is the first open wall of
    /// the top row from column `width / 2` on.
    pub fn from_walls(width: u32, height: u32, v_walls: Vec<Wall>, h_walls: Vec<Wall>) -> (r: Result<Maze, MazeError>)
        ensures
            Self::grid_error(width as int, height as int, v_walls@, h_walls@) matches Some(e) ==> r == Err::<Maze, MazeError>(e),
            Self::grid_error(width as int, height as int, v_walls@, h_walls@) is None ==> {
                &&& no_entrance(h_walls@, width as int) <==> r == Err::<Maze, MazeError>(MazeError::NoEntrance)
                &&& !no_entrance(h_walls@, width as int) <==> r is Ok
            },
            r matches Ok(m) ==> {
                &&& m.wf()
                &&& m@.wf()
                &&& m@.is_fresh()
                &&& m@.width == width
                &&& m@.height == height
                &&& m@.v_walls == v_walls@
                &&& m@.h_walls == h_walls@
                &&& is_entrance(h_walls@, width as int, m@.entrance.x as int)
            },
    {
        if let Some(e) = Self::check_grid(width, height, &v_walls, &h_walls) {
            return Err(e);
        }
        proof {
            assert(width <= width * (height + 1)) by (nonlinear_arith)
                requires height >= 0;
        }
        match find_entrance(width, &h_walls) {
            Some(x) => Self::with_entrance(width, height, v_walls, h_walls, x),
            None => Err(MazeError::NoEntrance),
        }
    }

    /// Draws random walls, each open with probability `p_vertical / 2^32` or
    /// `p_horizontal / 2^32` (the outer left and right walls always closed),
    /// until the top row has an entrance from column `width / 2` on, at most
    /// `MAX_ATTEMPTS` times.
    pub fn new(width: u32, height: u32, p_vertical: u64, p_horizontal: u64) -> (r: Result<Maze, MazeError>)
        ensures
            Self::dims_error(width as int, height as int) <==> r == Err::<Maze, MazeError>(MazeError::Dimensions),
            !Self::dims_error(width as int, height as int) ==> {
                &&& r is Ok || r == Err::<Maze, MazeError>(MazeError::NoEntrance)
                &&& p_horizontal == 0 ==> r == Err::<Maze, MazeError>(MazeError::NoEntrance)
                &&& p_horizontal >= CERTAIN ==> r is Ok
            },
            r matches Ok(m) ==> {
                &&& m.wf()
                &&& m@.wf()
                &&& m@.is_fresh()
                &&& m@.width == width
                &&& m@.height == height
                &&& is_entrance(m@.h_walls, width as int, m@.entrance.x as int)
                &&& p_vertical == 0 ==> forall|i: int| 0 <= i < m@.v_walls.len() ==> m@.v_walls[i] == Wall::Block
                &&& p_vertical >= CERTAIN ==> forall|i: int|
                    0 <= i < m@.v_walls.len() && !is_side_slot(i, width as int) ==> m@.v_walls[i] == Wall::Open
                &&& p_horizontal >= CERTAIN ==> forall|i: int| 0 <= i < m@.h_walls.len() ==> m@.h_walls[i] == Wall::Open
            },
    {
        if Self::check_dims(width, height) {
            return Err(MazeError::Dimensions);
        }
        let mut attempt: u32 = 0;
        while attempt < MAX_ATTEMPTS
            invariant
                !Self::dims_error(width as int, height as int),
                p_horizontal >= CERTAIN ==> attempt == 0,
            decreases MAX_ATTEMPTS - attempt,
        {
            let (v_walls, h_walls) = gen_all_walls(width, height, p_vertical, p_horizontal);
            proof {
                assert(width <= width * (height + 1)) by (nonlinear_arith)
                    requires height >= 0;
            }
            match find_entrance(width, &h_walls) {
                Some(x) => {
                    return Self::with_entrance(width, height, v_walls, h_walls, x);
                },
                None => {
                    proof {
                        if p_horizontal >= CERTAIN {
                            assert(h_walls@[(width / 2) as int] == Wall::Open);
                        }
                    }
                },
            }
            attempt += 1;
        }
        Err(MazeError::NoEntrance)
    }

    /// Puts the frontier back to a single branch at the entrance; the walls,
    /// the visited set and the winner stay as they are.
    pub fn clear_cells(&mut self)
        requires
            old(self).wf(),
        ensures
            final(self).wf(),
            final(self)@.wf(),
            final(self)@ == (MazeView { frontier: seq![start_branch(old(self)@.entrance)], ..old(self)@ }),
    {
        let ghost pre = self@;
        let p = self.entrance;
        let mut path: Vec<Position> = Vec::new();
        path.push(p);
        let mut cells: Vec<Cell> = Vec::new();
        cells.push(Cell { position: p, path });
        self.cells = cells;
        proof {
            if let Some(w) = pre.winner {
                lemma_valid_branch_same_grid(pre, self@, w);
            }
        }
        proof {
            assert(self@.frontier =~= seq![start_branch(p)]);
            assert(self@.frontier[0] == start_branch(p));
            assert(self@.valid_branch(start_branch(p)));
            assert(self.cells@[0].path.len() >= 1);
        }
    }

    /// The wall of cell `p` in `direction` (0 up, 1 down, 2 left, 3 right).
    fn cell_wall(&self, p: Position, direction: usize) -> (r: Wall)
        requires
            self.wf(),
            self@.in_grid(p),
            direction < 4,
        ensures
            r == self@.cell_wall(p, direction as int),
    {
        let w: usize = self.width as usize;
        let x: usize = p.x as usize;
        let y: usize = p.y as usize;
        proof {
            let hh = self.height as int;
            assert((y + 1) * w + x < w * (hh + 1)) by (nonlinear_arith)
                requires x < w, y < hh;
            assert(y * w + x <= (y + 1) * w + x) by (nonlinear_arith);
            assert(y * (w + 1) + x + 1 < (w + 1) * hh) by (nonlinear_arith)
                requires x < w, y < hh;
            assert(w * (hh + 1) <= (w + 1) * (hh + 1)) by (nonlinear_arith)
                requires hh >= 0;
            assert((w + 1) * hh <= (w + 1) * (hh + 1)) by (nonlinear_arith)
                requires hh >= 0;
            assert(w + 1 <= (w + 1) * (hh + 1)) by (nonlinear_arith)
                requires hh >= 0;
        }
        if direction == UP {
            self.h_walls[y * w + x]
        } else if direction == DOWN {
            self.h_walls[(y + 1) * w + x]
        } else if direction == LEFT {
            self.v_walls[y * (w + 1) + x]
        } else {
            self.v_walls[y * (w + 1) + x + 1]
        }
    }

    /// Advances every branch of the frontier by one step through the open
    /// walls around it. A position goes to the first branch, in frontier
    /// order, that reaches it; a branch that reaches the row below the last
    /// becomes the winner and ends the solve.
    pub fn tick(&mut self)
        requires
            old(self).wf(),
        ensures
            final(self).wf(),
            final(self)@.wf(),
            final(self)@.same_grid(old(self)@),
            old(self)@.visited.subset_of(final(self)@.visited),
            old(self)@.winner is Some ==> final(self)@ == old(self)@,
            old(self)@.winner is None ==> {
                let pre = old(self)@;
                let post = final(self)@;
                &&& forall|k: int|
                    0 <= k < post.frontier.len() ==> {
                        let b = #[trigger] post.frontier[k];
                        &&& !pre.visited.contains(b.position)
                        &&& forall|j: int| 0 <= j < pre.frontier.len() ==> pre.frontier[j].position != b.position
                        &&& exists|j: int|
                            0 <= j < pre.frontier.len() && b.path == pre.frontier[j].path.push(
                                b.position,
                            )
                    }
                &&& post.winner matches Some(w) ==> {
                    &&& post.frontier.len() == 0
                    &&& !pre.visited.contains(w.position)
                    &&& exists|j: int|
                        0 <= j < pre.frontier.len() && w.path == pre.frontier[j].path.push(
                            w.position,
                        )
                }
                &&& post.winner is None ==> forall|j: int, q: Position|
                    0 <= j < pre.frontier.len() && pre.open_neighbour(pre.frontier[j].position, q)
                        ==> post.visited.contains(q)
                &&& post.winner is None ==> forall|q: Position|
                    #[trigger] post.visited.contains(q) ==> pre.visited.contains(q) || exists|k: int|
                        0 <= k < post.frontier.len() && post.frontier[k].position == q
            },
    {
        if self.winner.is_some() {
            return;
        }
        let ghost pre = self@;
        let ghost start: Maze = *self;
        let n = self.cells.len();
        let mut next: Vec<Cell> = Vec::new();
        let mut i: usize = 0;
        while i < n
            invariant
                pre == start@,
                pre == old(self)@,
                pre.winner is None,
                pre.wf(),
                start.wf(),
                self.wf(),
                n == self.cells.len(),
                i <= n,
                self.width == start.width,
                self.height == start.height,
                self.v_walls@ == start.v_walls@,
                self.h_walls@ == start.h_walls@,
                self.cells@ == start.cells@,
                self.entrance == start.entrance,
                self.winner is None,
                self.visited.len() == start.visited.len(),
                self@.same_grid(pre),
                self@.frontier == pre.frontier,
                pre.visited.subset_of(self@.visited),
                forall|k: int|
                    0 <= k < next.len() ==> {
                        let b = (#[trigger] next@[k])@;
                        &&& next@[k].path.len() >= 1
                        &&& pre.in_grid(b.position)
                        &&& self@.visited.contains(b.position)
                        &&& !pre.visited.contains(b.position)
                        &&& pre.valid_branch(b)
                        &&& exists|j: int|
                            0 <= j < pre.frontier.len() && b.path == pre.frontier[j].path.push(
                                b.position,
                            )
                    },
                forall|k1: int, k2: int|
                    0 <= k1 < next.len() && 0 <= k2 < next.len() && k1 != k2
                        ==> (#[trigger] next@[k1]).position != (#[trigger] next@[k2]).position,
                forall|j: int, q: Position|
                    0 <= j < i && pre.open_neighbour(pre.frontier[j].position, q)
                        ==> self@.visited.contains(q),
                forall|q: Position|
                    #[trigger] self@.visited.contains(q) ==> pre.visited.contains(q) || claimed(next@, q),
            decreases n - i,
        {
            let pos = self.cells[i].position;
            let ghost parent = pre.frontier[i as int];
            assert(parent.position == pos);
            let mut win: Option<Cell> = None;
            let mut d: usize = 0;
            while d < 4
                invariant
                    pre == start@,
                    pre == old(self)@,
                    pre.winner is None,
                    pre.wf(),
                    start.wf(),
                    self.wf(),
                    n == self.cells.len(),
                    i < n,
                    parent == pre.frontier[i as int],
                    parent.position == pos,
                    pre.in_grid(pos),
                    d <= 4,
                    self.width == start.width,
                    self.height == start.height,
                    self.v_walls@ == start.v_walls@,
                    self.h_walls@ == start.h_walls@,
                    self.cells@ == start.cells@,
                    self.entrance == start.entrance,
                    self.winner is None,
                    self.visited.len() == start.visited.len(),
                    self@.same_grid(pre),
                    self@.frontier == pre.frontier,
                    pre.visited.subset_of(self@.visited),
                    forall|k: int|
                        0 <= k < next.len() ==> {
                            let b = (#[trigger] next@[k])@;
                            &&& next@[k].path.len() >= 1
                            &&& pre.in_grid(b.position)
                            &&& self@.visited.contains(b.position)
                            &&& !pre.visited.contains(b.position)
                            &&& pre.valid_branch(b)
                            &&& exists|j: int|
                                0 <= j < pre.frontier.len() && b.path == pre.frontier[j].path.push(
                                    b.position,
                                )
                        },
                    forall|k1: int, k2: int|
                        0 <= k1 < next.len() && 0 <= k2 < next.len() && k1 != k2
                            ==> (#[trigger] next@[k1]).position != (#[trigger] next@[k2]).position,
                    forall|j: int, q: Position|
                        0 <= j < i && pre.open_neighbour(pre.frontier[j].position, q)
                            ==> self@.visited.contains(q),
                    forall|dd: int|
                        0 <= dd < d && #[trigger] pre.cell_wall(pos, dd) == Wall::Open && step(
                            pos,
                            dd,
                            pre.width as int,
                            pre.height as int,
                        ) is Some ==> self@.visited.contains(
                            step(pos, dd, pre.width as int, pre.height as int).unwrap(),
                        ),
                    forall|q: Position|
                        #[trigger] self@.visited.contains(q) ==> pre.visited.contains(q) || claimed(next@, q)
                            || (win matches Some(c) && c.position == q),
                    win is Some ==> d > DOWN,
                    win matches Some(c) ==> {
                        &&& c@.position.y == pre.height
                        &&& c@.position.x < pre.width
                        &&& self@.visited.contains(c@.position)
                        &&& !pre.visited.contains(c@.position)
                        &&& pre.valid_branch(c@)
                        &&& c@.path == parent.path.push(c@.position)
                    },
                decreases 4 - d,
            {
                if self.cell_wall(pos, d) == Wall::Open {
                    match pos.advance(d, self.width, self.height) {
                        Some(q) => {
                            proof {
                                lemma_open_move(pre, pos, d as int, q);
                                lemma_visit_index_bound(self.width as int, self.height as int, q);
                                let hh = self.height as int;
                                assert(self.width + 1 <= (self.width + 1) * (hh + 1)) by (nonlinear_arith)
                                    requires hh >= 0;
                            }
                            let k: usize = q.y as usize * (self.width as usize + 1) + q.x as usize;
                            if !self.visited[k] {
                                let ghost before = self@;
                                let ghost table = self.visited@;
                                self.visited.set(k, true);
                                proof {
                                    lemma_mark_visited(
                                        self.width as int,
                                        self.height as int,
                                        table,
                                        q,
                                    );
                                    assert(self@.visited == before.visited.insert(q));
                                    assert(self@.frontier == before.frontier);
                                    assert(self@ == MazeView { visited: before.visited.insert(q), ..before });
                                    lemma_wf_mark(before, q);
                                    lemma_extend_branch(pre, parent, q);
                                }
                                let path = extend_path(&self.cells[i].path, q);
                                let c = Cell { position: q, path };
                                assert(c@.path == parent.path.push(q));
                                let ghost old_next = next@;
                                if q.y == self.height {
                                    assert(win is None);
                                    win = Some(c);
                                } else {
                                    next.push(c);
                                    proof {
                                        assert(next@.last()@.path == pre.frontier[i as int].path.push(q));
                                        assert forall|q2: Position|
                                            #[trigger] self@.visited.contains(q2) implies pre.visited.contains(q2)
                                                || claimed(next@, q2) || (win matches Some(c) && c.position == q2) by {
                                            if claimed(old_next, q2) || q2 == q {
                                                lemma_claimed_push(old_next, next@.last(), q2);
                                                assert(next@ == old_next.push(next@.last()));
                                            }
                                        }
                                    }
                                }
                            }
                        },
                        None => {},
                    }
                }
                d += 1;
            }
            proof {
                assert forall|j: int, q: Position|
                    0 <= j < i + 1 && pre.open_neighbour(pre.frontier[j].position, q)
                        implies self@.visited.contains(q) by {
                    if j == i {
                        let dd = choose|dd: int|
                            0 <= dd < 4 && #[trigger] pre.cell_wall(pos, dd) == Wall::Open && step(
                                pos,
                                dd,
                                pre.width as int,
                                pre.height as int,
                            ) == Some(q);
                    }
                }
            }
            if win.is_some() {
                self.winner = win;
                self.cells = Vec::new();
                proof {
                    assert(self@.frontier =~= Seq::<BranchView>::empty());
                    let c = win.unwrap();
                    assert(self@.winner == Some(c@));
                    lemma_valid_branch_same_grid(pre, self@, c@);
                    assert(self@.wf());
                }
                return;
            }
            i += 1;
        }
        self.cells = next;
        proof {
            let post = self@;
            assert(post.frontier.len() == next.len());
            assert forall|k: int| 0 <= k < next.len() implies post.frontier[k] == next@[k]@ by {}
            assert forall|k1: int, k2: int|
                0 <= k1 < post.frontier.len() && 0 <= k2 < post.frontier.len() && k1 != k2
                    implies #[trigger] post.frontier[k1].position != #[trigger] post.frontier[k2].position by {
                assert(next@[k1].position != next@[k2].position);
            }
            assert forall|k: int| 0 <= k < post.frontier.len() implies {
                let b = #[trigger] post.frontier[k];
                post.in_grid(b.position) && post.visited.contains(b.position) && post.valid_branch(b)
            } by {
                assert(post.frontier[k] == next@[k]@);
                lemma_valid_branch_same_grid(pre, post, post.frontier[k]);
            }
            assert(post.wf());
            assert forall|q: Position| #[trigger] post.visited.contains(q) implies pre.visited.contains(q)
                || exists|k: int| 0 <= k < post.frontier.len() && post.frontier[k].position == q by {
                if !pre.visited.contains(q) {
                    let k = choose|k: int| 0 <= k < next.len() && (#[trigger] next@[k]).position == q;
                    assert(post.frontier[k] == next@[k]@);
                }
            }
        }
    }

    /// The number of columns.
    pub fn width(&self) -> (r: u32)
        ensures
            r == self@.width,
    {
        self.width
    }

    /// The number of rows.
    pub fn height(&self) -> (r: u32)
        ensures
            r == self@.height,
    {
        self.height
    }

    /// The number of branches in the frontier.
    pub fn cell_count(&self) -> (r: u32)
        ensures
            r == self@.frontier.len() as u32,
    {
        self.cells.len() as u32
    }

    /// The number of positions on the winning path; zero before a win.
    pub fn light_path_len(&self) -> (r: u32)
        ensures
            r == match self@.winner {
                Some(b) => b.path.len() as u32,
                None => 0u32,
            },
    {
        match &self.winner {
            Some(c) => c.path.len() as u32,
            None => 0,
        }
    }

    /// The winning path as bytes, `x` then `y` for each position, entrance
    /// first; empty before a win.
    pub fn lightup(&self) -> (r: Vec<u8>)
        ensures
            self@.winner is None ==> r@.len() == 0,
            self@.winner matches Some(b) ==> coordinate_bytes(b.path, r@),
    {
        match &self.winner {
            Some(c) => {
                let mut r: Vec<u8> = Vec::new();
                let mut i: usize = 0;
                while i < c.path.len()
                    invariant
                        i <= c.path.len(),
                        coordinate_bytes(c.path@.subrange(0, i as int), r@),
                    decreases c.path.len() - i,
                {
                    let p = c.path[i];
                    r.push(p.x as u8);
                    r.push(p.y as u8);
                    i += 1;
                    proof {
                        lemma_coordinate_bytes_push(c.path@.subrange(0, i - 1), r@.drop_last().drop_last(), p);
                        assert(c.path@.subrange(0, i as int) =~= c.path@.subrange(0, i - 1).push(p));
                    }
                }
                assert(c.path@.subrange(0, c.path.len() as int) =~= c.path@);
                r
            },
            None => Vec::new(),
        }
    }

    /// The positions of the frontier as bytes, `x` then `y` for each branch,
    /// in frontier order.
    pub fn cells(&self) -> (r: Vec<u8>)
        ensures
            coordinate_bytes(self@.frontier.map_values(|b: BranchView| b.position), r@),
    {
        let ghost ps = self@.frontier.map_values(|b: BranchView| b.position);
        let mut r: Vec<u8> = Vec::new();
        let mut i: usize = 0;
        while i < self.cells.len()
            invariant
                i <= self.cells.len(),
                ps == self@.frontier.map_values(|b: BranchView| b.position),
                ps.len() == self.cells.len(),
                coordinate_bytes(ps.subrange(0, i as int), r@),
            decreases self.cells.len() - i,
        {
            let p = self.cells[i].position;
            assert(p == ps[i as int]);
            r.push(p.x as u8);
            r.push(p.y as u8);
            i += 1;
            proof {
                lemma_coordinate_bytes_push(ps.subrange(0, i - 1), r@.drop_last().drop_last(), p);
                assert(ps.subrange(0, i as int) =~= ps.subrange(0, i - 1).push(p));
            }
        }
        assert(ps.subrange(0, ps.len() as int) =~= ps);
        r
    }

    /// A copy of the horizontal walls.
    pub fn h_walls(&self) -> (r: Vec<Wall>)
        ensures
            r@ == self@.h_walls,
    {
        copy_walls(&self.h_walls)
    }

    /// A copy of the vertical walls.
    pub fn v_walls(&self) -> (r: Vec<Wall>)
        ensures
            r@ == self@.v_walls,
    {
        copy_walls(&self.v_walls)
    }

    /// The error that building a maze from these walls and entrance column
    /// meets first, if any.
    pub open spec fn build_error(width: int, height: int, v_walls: Seq<Wall>, h_walls: Seq<Wall>, entrance_x: int) -> Option<MazeError> {
        if Self::grid_error(width, height, v_walls, h_walls) is Some {
            Self::grid_error(width, height, v_walls, h_walls)
        } else if entrance_x >= width {
            Some(MazeError::EntranceOutside)
        } else {
            None
        }
    }
}

/// In a well-formed maze the winning path starts at the entrance, ends one
/// row below the last, and each of its steps moves one unit on one axis
/// through a wall that is open.
pub proof fn lemma_winning_path_connected(v: MazeView)
    requires
        v.wf(),
        v.winner is Some,
    ensures
        ({
            let path = v.winner.unwrap().path;
            &&& path.len() >= 2
            &&& path[0] == v.entrance
            &&& path.last().y == v.height
            &&& forall|i: int|
                0 <= i < path.len() - 1 ==> adjacent(#[trigger] path[i], path[i + 1])
                    && v.in_grid(path[i]) && v.wall_between(path[i], path[i + 1]) == Wall::Open
        }),
{
    let path = v.winner.unwrap().path;
    assert forall|i: int| 0 <= i < path.len() - 1 implies adjacent(#[trigger] path[i], path[i + 1])
        && v.in_grid(path[i]) && v.wall_between(path[i], path[i + 1]) == Wall::Open by {
        assert(v.open_step(path[i], path[i + 1]));
    }
    if path.len() == 1 {
        assert(path[0] == v.entrance);
    }
}

/// No two branches of a well-formed maze share a position, and every
/// branch's position is in the visited set, which no later tick hands out
/// again.
pub proof fn lemma_positions_exclusive(v: MazeView, i: int, j: int)
    requires
        v.wf(),
        0 <= i < v.frontier.len(),
        0 <= j < v.frontier.len(),
        i != j,
    ensures
        v.frontier[i].position != v.frontier[j].position,
        v.visited.contains(v.frontier[i].position),
{
}

} // verus!
