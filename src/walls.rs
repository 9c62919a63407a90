use vstd::prelude::*;
use vstd::arithmetic::div_mod::lemma_fundamental_div_mod_converse;

verus! {

/// The state of one wall slot.
#[derive(Clone, Copy, Debug, PartialEq, Eq, Structural)]
pub enum Wall {
    Open,
    Block,
}

/// The threshold that stands for a probability of one: a wall opens when a
/// uniformly drawn `u32` falls below its threshold.
pub const CERTAIN: u64 = 0x1_0000_0000;

/// Index of the vertical wall left of column `x` in row `y`.
pub open spec fn v_index(width: int, x: int, y: int) -> int {
    y * (width + 1) + x
}

/// Index of the horizontal wall above column `x` in row `y`.
pub open spec fn h_index(width: int, x: int, y: int) -> int {
    y * width + x
}

/// The outer left and right vertical walls of every row are closed.
pub open spec fn sides_blocked(v_walls: Seq<Wall>, width: int, height: int) -> bool {
    forall|y: int|
        0 <= y < height ==> #[trigger] v_walls[v_index(width, 0, y)] == Wall::Block
            && v_walls[v_index(width, width, y)] == Wall::Block
}

/// A vertical slot lies on the outer boundary when its column is `0` or `width`.
pub open spec fn is_side_slot(i: int, width: int) -> bool {
    i % (width + 1) == 0 || i % (width + 1) == width
}

/// `x` is the first open wall of the top row at or after column `width / 2`.
pub open spec fn is_entrance(h_walls: Seq<Wall>, width: int, x: int) -> bool {
    &&& width / 2 <= x < width
    &&& h_walls[x] == Wall::Open
    &&& forall|k: int| width / 2 <= k < x ==> h_walls[k] == Wall::Block
}

/// No wall of the top row from column `width / 2` on is open.
pub open spec fn no_entrance(h_walls: Seq<Wall>, width: int) -> bool {
    forall|k: int| width / 2 <= k < width ==> h_walls[k] == Wall::Block
}

/// Relies on rand::random::<u32>, which draws from the thread-local generator;
/// nothing is known of the value.
#[verifier::external_body]
fn draw_u32() -> (r: u32) {
    rand::random::<u32>()
}

/// The wall for one draw: open when the draw falls below `threshold`.
pub fn wall_from_draw(draw: u32, threshold: u64) -> (r: Wall)
    ensures
        r == (if (draw as u64) < threshold { Wall::Open } else { Wall::Block }),
{
    if (draw as u64) < threshold {
        Wall::Open
    } else {
        Wall::Block
    }
}

fn gen_wall(threshold: u64) -> (r: Wall)
    ensures
        threshold == 0 ==> r == Wall::Block,
        threshold >= CERTAIN ==> r == Wall::Open,
{
    wall_from_draw(draw_u32(), threshold)
}

/// Draws a wall grid: `(width + 1) * height` vertical and `width * (height + 1)`
/// horizontal walls, each open with probability `p_vertical / 2^32` or
/// `p_horizontal / 2^32`, except that the outer left and right walls are
/// always closed.
pub fn gen_all_walls(width: u32, height: u32, p_vertical: u64, p_horizontal: u64) -> (r: (
    Vec<Wall>,
    Vec<Wall>,
))
    requires
        (width + 1) * (height + 1) <= usize::MAX,
    ensures
        r.0.len() == (width + 1) * height,
        r.1.len() == width * (height + 1),
        sides_blocked(r.0@, width as int, height as int),
        forall|i: int| 0 <= i < r.0.len() && is_side_slot(i, width as int) ==> r.0[i] == Wall::Block,
        p_vertical == 0 ==> forall|i: int| 0 <= i < r.0.len() ==> r.0[i] == Wall::Block,
        p_vertical >= CERTAIN ==> forall|i: int|
            0 <= i < r.0.len() && !is_side_slot(i, width as int) ==> r.0[i] == Wall::Open,
        p_horizontal == 0 ==> forall|i: int| 0 <= i < r.1.len() ==> r.1[i] == Wall::Block,
        p_horizontal >= CERTAIN ==> forall|i: int| 0 <= i < r.1.len() ==> r.1[i] == Wall::Open,
{
    let w1: usize = width as usize + 1;
    assert((width + 1) * height <= (width + 1) * (height + 1)) by (nonlinear_arith);
    assert(width * (height + 1) <= (width + 1) * (height + 1)) by (nonlinear_arith);
    let nv: usize = w1 * height as usize;
    let nh: usize = width as usize * (height as usize + 1);
    let mut v_walls: Vec<Wall> = Vec::new();
    let mut i: usize = 0;
    while i < nv
        invariant
            w1 == width + 1,
            nv == (width + 1) * height,
            i <= nv,
            v_walls.len() == i,
            forall|k: int| 0 <= k < i && is_side_slot(k, width as int) ==> v_walls[k] == Wall::Block,
            p_vertical == 0 ==> forall|k: int| 0 <= k < i ==> v_walls[k] == Wall::Block,
            p_vertical >= CERTAIN ==> forall|k: int|
                0 <= k < i && !is_side_slot(k, width as int) ==> v_walls[k] == Wall::Open,
        decreases nv - i,
    {
        let column = i % w1;
        if column == 0 || column == width as usize {
            v_walls.push(Wall::Block);
        } else {
            v_walls.push(gen_wall(p_vertical));
        }
        i += 1;
    }
    let mut h_walls: Vec<Wall> = Vec::new();
    let mut j: usize = 0;
    while j < nh
        invariant
            nh == width * (height + 1),
            j <= nh,
            h_walls.len() == j,
            p_horizontal == 0 ==> forall|k: int| 0 <= k < j ==> h_walls[k] == Wall::Block,
            p_horizontal >= CERTAIN ==> forall|k: int| 0 <= k < j ==> h_walls[k] == Wall::Open,
        decreases nh - j,
    {
        h_walls.push(gen_wall(p_horizontal));
        j += 1;
    }
    proof {
        lemma_sides_blocked(v_walls@, width as int, height as int);
    }
    (v_walls, h_walls)
}

/// A grid whose boundary slots (by index) are closed has its outer columns closed.
pub proof fn lemma_sides_blocked(v_walls: Seq<Wall>, width: int, height: int)
    requires
        width >= 0,
        height >= 0,
        v_walls.len() == (width + 1) * height,
        forall|i: int| 0 <= i < v_walls.len() && is_side_slot(i, width) ==> v_walls[i] == Wall::Block,
    ensures
        sides_blocked(v_walls, width, height),
{
    assert forall|y: int| 0 <= y < height implies #[trigger] v_walls[v_index(width, 0, y)]
        == Wall::Block && v_walls[v_index(width, width, y)] == Wall::Block by {
        lemma_fundamental_div_mod_converse(v_index(width, 0, y), width + 1, y, 0);
        lemma_fundamental_div_mod_converse(v_index(width, width, y), width + 1, y, width);
        assert(v_index(width, width, y) < (width + 1) * height) by (nonlinear_arith)
            requires
                0 <= y < height,
                width >= 0,
                v_index(width, width, y) == y * (width + 1) + width,
        ;
        assert(v_index(width, 0, y) >= 0) by (nonlinear_arith)
            requires
                0 <= y,
                width >= 0,
                v_index(width, 0, y) == y * (width + 1),
        ;
    }
}

/// Scans the top row from column `width / 2` for the first open wall.
pub fn find_entrance(width: u32, h_walls: &Vec<Wall>) -> (r: Option<u32>)
    requires
        h_walls.len() >= width,
    ensures
        r matches Some(x) ==> is_entrance(h_walls@, width as int, x as int),
        r is None <==> no_entrance(h_walls@, width as int),
{
    let mut x: u32 = width / 2;
    while x < width
        invariant
            width / 2 <= x <= width,
            h_walls.len() >= width,
            forall|k: int| width / 2 <= k < x ==> h_walls[k] == Wall::Block,
        decreases width - x,
    {
        if h_walls[x as usize] == Wall::Open {
            return Some(x);
        }
        x += 1;
    }
    None
}

} // verus!
