use vstd::prelude::*;
use vstd::arithmetic::div_mod::{lemma_div_is_ordered, lemma_div_basics};

use crate::structure::{Hitbox, Rect};
use crate::union_find::UnionFind;

verus! {

/// The grid cell coordinate of `v` for cells of size `size`: the quotient rounded toward zero.
pub open spec fn cell_coord(v: int, size: int) -> int {
    if v >= 0 {
        v / size
    } else {
        -((-v) / size)
    }
}

/// The cell `(cx, cy)` is one of those that `r` touches.
pub open spec fn in_cells(r: Rect, size: int, cx: int, cy: int) -> bool {
    &&& cell_coord(r.x as int, size) <= cx <= cell_coord(r.x + r.w, size)
    &&& cell_coord(r.y as int, size) <= cy <= cell_coord(r.y + r.h, size)
}

/// Every hitbox has a well-formed rectangle.
pub open spec fn all_wf(hb: Seq<Hitbox>) -> bool {
    forall|i: int| 0 <= i < hb.len() ==> (#[trigger] hb[i]).rect.wf()
}

/// The hitboxes at `a` and `b` overlap.
pub open spec fn overlapping(hb: Seq<Hitbox>, a: int, b: int) -> bool {
    hb[a].rect.overlaps_spec(hb[b].rect)
}

/// `path` is a chain of hitbox positions in which each hitbox overlaps the next.
pub open spec fn is_chain(hb: Seq<Hitbox>, path: Seq<int>) -> bool {
    &&& path.len() >= 1
    &&& forall|k: int| 0 <= k < path.len() ==> 0 <= #[trigger] path[k] < hb.len()
    &&& forall|k: int| 0 <= k < path.len() - 1 ==> overlapping(hb, #[trigger] path[k], path[k + 1])
}

/// A chain of overlapping hitboxes leads from `i` to `j`.
pub open spec fn connected(hb: Seq<Hitbox>, i: int, j: int) -> bool {
    exists|path: Seq<int>| #[trigger] is_chain(hb, path) && path[0] == i && path.last() == j
}

/// Truncating division is monotone.
proof fn lemma_cell_coord_ordered(a: int, b: int, size: int)
    requires
        a <= b,
        size > 0,
    ensures
        cell_coord(a, size) <= cell_coord(b, size),
{
    lemma_div_basics(size);
    if a >= 0 {
        lemma_div_is_ordered(a, b, size);
    } else if b >= 0 {
        lemma_div_is_ordered(0, -a, size);
        lemma_div_is_ordered(0, b, size);
    } else {
        lemma_div_is_ordered(-b, -a, size);
    }
}

/// Two overlapping rectangles touch a common cell.
proof fn lemma_overlap_shares_cell(r1: Rect, r2: Rect, size: int) -> (c: (int, int))
    requires
        r1.wf(),
        r2.wf(),
        r1.overlaps_spec(r2),
        size > 0,
    ensures
        in_cells(r1, size, c.0, c.1),
        in_cells(r2, size, c.0, c.1),
{
    let px: int = if r1.x >= r2.x { r1.x as int } else { r2.x as int };
    let py: int = if r1.y >= r2.y { r1.y as int } else { r2.y as int };
    lemma_cell_coord_ordered(r1.x as int, px, size);
    lemma_cell_coord_ordered(px, r1.x + r1.w, size);
    lemma_cell_coord_ordered(r2.x as int, px, size);
    lemma_cell_coord_ordered(px, r2.x + r2.w, size);
    lemma_cell_coord_ordered(r1.y as int, py, size);
    lemma_cell_coord_ordered(py, r1.y + r1.h, size);
    lemma_cell_coord_ordered(r2.y as int, py, size);
    lemma_cell_coord_ordered(py, r2.y + r2.h, size);
    (cell_coord(px, size), cell_coord(py, size))
}

/// The cell coordinate of `v`.
fn cell_of(v: i64, size: i64) -> (r: i64)
    requires
        size > 0,
    ensures
        r == cell_coord(v as int, size as int),
{
    v / size
}

/// One cell of the grid: its coordinates and the positions of the hitboxes that touch it.
struct GridCell {
    cx: i64,
    cy: i64,
    members: Vec<usize>,
}

/// No two cells of the grid have the same coordinates.
spec fn keys_unique(grid: Seq<GridCell>) -> bool {
    forall|g1: int, g2: int|
        0 <= g1 < grid.len() && 0 <= g2 < grid.len() && g1 != g2 ==> (#[trigger] grid[g1].cx != #[trigger] grid[g2].cx
            || grid[g1].cy != grid[g2].cy)
}

/// The grid holds position `m` in its cell `(cx, cy)`.
spec fn grid_has(grid: Seq<GridCell>, cx: int, cy: int, m: int) -> bool {
    exists|g: int|
        0 <= g < grid.len() && grid[g].cx == cx && grid[g].cy == cy && (#[trigger] grid[g]).members@.contains(
            m as usize,
        )
}

/// Every position the grid holds is below `n`.
spec fn members_below(grid: Seq<GridCell>, n: int) -> bool {
    forall|g: int, k: int|
        0 <= g < grid.len() && 0 <= k < grid[g].members.len() ==> (#[trigger] grid[g].members@[k]) < n
}

/// The cells kept their coordinates, and their positions are still there.
spec fn grid_grows(old_grid: Seq<GridCell>, new_grid: Seq<GridCell>) -> bool {
    &&& old_grid.len() <= new_grid.len()
    &&& forall|g: int|
        0 <= g < old_grid.len() ==> {
            &&& (#[trigger] new_grid[g]).cx == old_grid[g].cx
            &&& new_grid[g].cy == old_grid[g].cy
            &&& forall|m: usize| old_grid[g].members@.contains(m) ==> new_grid[g].members@.contains(m)
        }
}

/// The position in the grid of the cell `(cx, cy)`, if the grid has it.
fn find_cell(grid: &Vec<GridCell>, cx: i64, cy: i64) -> (r: Option<usize>)
    ensures
        r matches Some(g) ==> g < grid.len() && grid@[g as int].cx == cx && grid@[g as int].cy == cy,
        r is None ==> forall|g: int| 0 <= g < grid.len() ==> !(#[trigger] grid@[g].cx == cx && grid@[g].cy == cy),
{
    let mut g: usize = 0;
    while g < grid.len()
        invariant
            g <= grid.len(),
            forall|k: int| 0 <= k < g ==> !(#[trigger] grid@[k].cx == cx && grid@[k].cy == cy),
        decreases grid.len() - g,
    {
        if grid[g].cx == cx && grid[g].cy == cy {
            return Some(g);
        }
        g += 1;
    }
    None
}

/// Adds `index` to the cell `(cx, cy)`, making the cell if the grid has none.
fn add_to_cell(grid: &mut Vec<GridCell>, cx: i64, cy: i64, index: usize)
    requires
        keys_unique(old(grid)@),
    ensures
        keys_unique(final(grid)@),
        grid_grows(old(grid)@, final(grid)@),
        grid_has(final(grid)@, cx as int, cy as int, index as int),
        forall|g: int, k: int|
            0 <= g < final(grid).len() && 0 <= k < final(grid)@[g].members.len() ==> (#[trigger] final(grid)@[g].members@[k]
                == index || (g < old(grid).len() && old(grid)@[g].members@.contains(final(grid)@[g].members@[k]))),
{
    let ghost start = grid@;
    match find_cell(grid, cx, cy) {
        Some(g) => {
            grid[g].members.push(index);
            proof {
                assert(grid@[g as int].members@[grid@[g as int].members.len() - 1] == index);
                assert forall|h: int| 0 <= h < start.len() implies {
                    &&& (#[trigger] grid@[h]).cx == start[h].cx
                    &&& grid@[h].cy == start[h].cy
                    &&& forall|m: usize| start[h].members@.contains(m) ==> grid@[h].members@.contains(m)
                } by {
                    if h == g {
                        assert forall|m: usize| start[h].members@.contains(m) implies grid@[h].members@.contains(m) by {
                            let k = choose|k: int| 0 <= k < start[h].members.len() && start[h].members@[k] == m;
                            assert(grid@[h].members@[k] == m);
                        }
                    }
                }
                assert forall|h: int, k: int|
                    0 <= h < grid.len() && 0 <= k < grid@[h].members.len() implies (#[trigger] grid@[h].members@[k]
                        == index || (h < start.len() && start[h].members@.contains(grid@[h].members@[k]))) by {
                    if h == g && k < start[h].members.len() {
                        assert(start[h].members@[k] == grid@[h].members@[k]);
                    }
                }
            }
        },
        None => {
            let mut members: Vec<usize> = Vec::new();
            members.push(index);
            grid.push(GridCell { cx, cy, members });
            proof {
                let g = start.len() as int;
                assert(grid@[g].members@[0] == index);
                assert forall|h: int| 0 <= h < start.len() implies {
                    &&& (#[trigger] grid@[h]).cx == start[h].cx
                    &&& grid@[h].cy == start[h].cy
                    &&& forall|m: usize| start[h].members@.contains(m) ==> grid@[h].members@.contains(m)
                } by {
                    assert(grid@[h] == start[h]);
                }
            }
        },
    }
}

/// Registers the hitbox at position `index` in every cell that its rectangle touches.
fn insert_hitbox_in_grid(grid: &mut Vec<GridCell>, hitbox: &Hitbox, index: usize, cell_size: i64)
    requires
        keys_unique(old(grid)@),
        hitbox.rect.wf(),
        cell_size > 0,
    ensures
        keys_unique(final(grid)@),
        grid_grows(old(grid)@, final(grid)@),
        forall|cx: int, cy: int|
            in_cells(hitbox.rect, cell_size as int, cx, cy) ==> #[trigger] grid_has(final(grid)@, cx, cy, index as int),
        forall|g: int, k: int|
            0 <= g < final(grid).len() && 0 <= k < final(grid)@[g].members.len() ==> (#[trigger] final(grid)@[g].members@[k]
                == index || (g < old(grid).len() && old(grid)@[g].members@.contains(final(grid)@[g].members@[k]))),
{
    let ghost start = grid@;
    let r = hitbox.rect;
    let min_x = cell_of(r.x, cell_size);
    let max_x = cell_of(r.x + r.w, cell_size);
    let min_y = cell_of(r.y, cell_size);
    let max_y = cell_of(r.y + r.h, cell_size);
    proof {
        lemma_cell_coord_ordered(r.x as int, r.x + r.w, cell_size as int);
        lemma_cell_coord_ordered(r.y as int, r.y + r.h, cell_size as int);
    }
    let mut cx: i128 = min_x as i128;
    while cx <= max_x as i128
        invariant
            keys_unique(grid@),
            grid_grows(start, grid@),
            min_x as int <= cx <= max_x as int + 1,
            min_y as int <= max_y as int,
            min_x == cell_coord(r.x as int, cell_size as int),
            max_x == cell_coord(r.x + r.w, cell_size as int),
            min_y == cell_coord(r.y as int, cell_size as int),
            max_y == cell_coord(r.y + r.h, cell_size as int),
            forall|x: int, y: int|
                min_x <= x < cx && min_y <= y <= max_y ==> #[trigger] grid_has(grid@, x, y, index as int),
            forall|g: int, k: int|
                0 <= g < grid.len() && 0 <= k < grid@[g].members.len() ==> (#[trigger] grid@[g].members@[k] == index
                    || (g < start.len() && start[g].members@.contains(grid@[g].members@[k]))),
        decreases max_x as int + 1 - cx,
    {
        let mut cy: i128 = min_y as i128;
        while cy <= max_y as i128
            invariant
                keys_unique(grid@),
                grid_grows(start, grid@),
                min_x as int <= cx <= max_x as int,
                min_y as int <= cy <= max_y as int + 1,
                min_y as int <= max_y as int,
                forall|x: int, y: int|
                    (min_x <= x < cx && min_y <= y <= max_y) || (x == cx && min_y <= y < cy) ==> #[trigger] grid_has(
                        grid@,
                        x,
                        y,
                        index as int,
                    ),
                forall|g: int, k: int|
                    0 <= g < grid.len() && 0 <= k < grid@[g].members.len() ==> (#[trigger] grid@[g].members@[k]
                        == index || (g < start.len() && start[g].members@.contains(grid@[g].members@[k]))),
            decreases max_y as int + 1 - cy,
        {
            let ghost before = grid@;
            add_to_cell(grid, cx as i64, cy as i64, index);
            proof {
                assert forall|x: int, y: int|
                    (min_x <= x < cx && min_y <= y <= max_y) || (x == cx && min_y <= y < cy + 1) implies #[trigger] grid_has(
                    grid@,
                    x,
                    y,
                    index as int,
                ) by {
                    if !(x == cx && y == cy) {
                        assert(grid_has(before, x, y, index as int));
                        let g = choose|g: int|
                            0 <= g < before.len() && before[g].cx == x && before[g].cy == y
                                && (#[trigger] before[g]).members@.contains(index);
                        assert(grid@[g].members@.contains(index));
                    }
                }
                assert forall|g: int| 0 <= g < start.len() implies {
                    &&& (#[trigger] grid@[g]).cx == start[g].cx
                    &&& grid@[g].cy == start[g].cy
                    &&& forall|m: usize| start[g].members@.contains(m) ==> grid@[g].members@.contains(m)
                } by {
                    assert(before[g].cx == start[g].cx);
                }
                assert forall|g: int, k: int|
                    0 <= g < grid.len() && 0 <= k < grid@[g].members.len() implies (#[trigger] grid@[g].members@[k]
                        == index || (g < start.len() && start[g].members@.contains(grid@[g].members@[k]))) by {
                    let m = grid@[g].members@[k];
                    if m != index {
                        assert(g < before.len() && before[g].members@.contains(m));
                        let j = choose|j: int| 0 <= j < before[g].members.len() && before[g].members@[j] == m;
                        assert(before[g].members@[j] == m);
                    }
                }
            }
            cy += 1;
        }
        cx += 1;
    }
    proof {
        assert forall|x: int, y: int| in_cells(r, cell_size as int, x, y) implies #[trigger] grid_has(
            grid@,
            x,
            y,
            index as int,
        ) by {}
    }
}

proof fn lemma_grows_keeps(old_grid: Seq<GridCell>, new_grid: Seq<GridCell>, cx: int, cy: int, m: int)
    requires
        grid_grows(old_grid, new_grid),
        grid_has(old_grid, cx, cy, m),
    ensures
        grid_has(new_grid, cx, cy, m),
{
    let g = choose|g: int|
        0 <= g < old_grid.len() && old_grid[g].cx == cx && old_grid[g].cy == cy && (#[trigger] old_grid[g]).members@.contains(
            m as usize,
        );
    assert(new_grid[g].members@.contains(m as usize));
}

proof fn lemma_push_keeps<A>(s: Seq<A>, v: A, x: A)
    requires
        s.contains(x),
    ensures
        s.push(v).contains(x),
{
    let k = choose|k: int| 0 <= k < s.len() && s[k] == x;
    assert(s.push(v)[k] == x);
}

/// The pair `(a, b)`, smaller position first.
pub open spec fn ordered_pair(a: int, b: int) -> (usize, usize) {
    if a < b {
        (a as usize, b as usize)
    } else {
        (b as usize, a as usize)
    }
}

/// The pair of positions is settled: the same position, hitboxes apart, or already found.
spec fn covered(hb: Seq<Hitbox>, found: Seq<(usize, usize)>, a: int, b: int) -> bool {
    a == b || !overlapping(hb, a, b) || found.contains(ordered_pair(a, b))
}

/// Each pair found is a pair of overlapping hitboxes, smaller position first.
pub open spec fn pairs_sound(hb: Seq<Hitbox>, found: Seq<(usize, usize)>) -> bool {
    forall|k: int|
        0 <= k < found.len() ==> {
            &&& (#[trigger] found[k]).0 < found[k].1 < hb.len()
            &&& overlapping(hb, found[k].0 as int, found[k].1 as int)
        }
}

fn contains_pair(found: &Vec<(usize, usize)>, pair: (usize, usize)) -> (r: bool)
    ensures
        r == found@.contains(pair),
{
    let mut k: usize = 0;
    while k < found.len()
        invariant
            k <= found.len(),
            forall|j: int| 0 <= j < k ==> found@[j] != pair,
        decreases found.len() - k,
    {
        if found[k].0 == pair.0 && found[k].1 == pair.1 {
            assert(found@[k as int] == pair);
            return true;
        }
        k += 1;
    }
    false
}

/// Finds every pair of overlapping hitboxes, each once, smaller position first. Each hitbox is
/// registered in every grid cell of size `cell_size` that it touches, and the hitboxes of each
/// cell are tested pairwise.
pub fn detect_collisions(hitboxes: &Vec<Hitbox>, cell_size: i64) -> (r: Vec<(usize, usize)>)
    requires
        all_wf(hitboxes@),
        cell_size > 0,
    ensures
        pairs_sound(hitboxes@, r@),
        forall|a: int, b: int|
            0 <= a < b < hitboxes.len() && overlapping(hitboxes@, a, b) ==> #[trigger] r@.contains(
                (a as usize, b as usize),
            ),
        r@.no_duplicates(),
{
    let n = hitboxes.len();
    let mut grid: Vec<GridCell> = Vec::new();
    let mut i: usize = 0;
    while i < n
        invariant
            n == hitboxes.len(),
            i <= n,
            all_wf(hitboxes@),
            cell_size > 0,
            keys_unique(grid@),
            members_below(grid@, i as int),
            forall|m: int, cx: int, cy: int|
                0 <= m < i && in_cells(hitboxes@[m].rect, cell_size as int, cx, cy) ==> #[trigger] grid_has(
                    grid@,
                    cx,
                    cy,
                    m,
                ),
        decreases n - i,
    {
        let ghost before = grid@;
        assert(hitboxes@[i as int].rect.wf());
        insert_hitbox_in_grid(&mut grid, &hitboxes[i], i, cell_size);
        proof {
            assert forall|m: int, cx: int, cy: int|
                0 <= m < i + 1 && in_cells(hitboxes@[m].rect, cell_size as int, cx, cy) implies #[trigger] grid_has(
                grid@,
                cx,
                cy,
                m,
            ) by {
                if m < i {
                    lemma_grows_keeps(before, grid@, cx, cy, m);
                }
            }
            assert forall|g: int, k: int| 0 <= g < grid.len() && 0 <= k < grid@[g].members.len() implies (#[trigger] grid@[
                g
            ].members@[k]) < i + 1 by {
                let m = grid@[g].members@[k];
                if m != i {
                    let j = choose|j: int| 0 <= j < before[g].members.len() && before[g].members@[j] == m;
                }
            }
        }
        i += 1;
    }
    let grid = grid;
    let mut found: Vec<(usize, usize)> = Vec::new();
    let mut g: usize = 0;
    while g < grid.len()
        invariant
            n == hitboxes.len(),
            all_wf(hitboxes@),
            members_below(grid@, n as int),
            pairs_sound(hitboxes@, found@),
            found@.no_duplicates(),
            g <= grid.len(),
            forall|h: int, a: int, b: int|
                #![trigger found@.contains((a as usize, b as usize)), grid@[h]]
                0 <= h < g && grid@[h].members@.contains(a as usize) && grid@[h].members@.contains(b as usize) && 0 <= a < b
                    < n && overlapping(hitboxes@, a, b) ==> found@.contains((a as usize, b as usize)),
        decreases grid.len() - g,
    {
        let members = &grid[g].members;
        let mut p: usize = 0;
        while p < members.len()
            invariant
                n == hitboxes.len(),
                all_wf(hitboxes@),
                members_below(grid@, n as int),
                *members == grid@[g as int].members,
                g < grid.len(),
                pairs_sound(hitboxes@, found@),
                found@.no_duplicates(),
                p <= members.len(),
                forall|h: int, a: int, b: int|
                    #![trigger found@.contains((a as usize, b as usize)), grid@[h]]
                    0 <= h < g && grid@[h].members@.contains(a as usize) && grid@[h].members@.contains(b as usize) && 0 <= a
                        < b < n && overlapping(hitboxes@, a, b) ==> found@.contains((a as usize, b as usize)),
                forall|pa: int, qa: int|
                    0 <= pa < p && pa < qa < members.len() ==> covered(
                        hitboxes@,
                        found@,
                        #[trigger] members@[pa] as int,
                        #[trigger] members@[qa] as int,
                    ),
            decreases members.len() - p,
        {
            let mut q: usize = p + 1;
            while q < members.len()
                invariant
                    n == hitboxes.len(),
                    all_wf(hitboxes@),
                    members_below(grid@, n as int),
                    *members == grid@[g as int].members,
                    g < grid.len(),
                    pairs_sound(hitboxes@, found@),
                    found@.no_duplicates(),
                    p < members.len(),
                    p + 1 <= q <= members.len(),
                    forall|h: int, a: int, b: int|
                        #![trigger found@.contains((a as usize, b as usize)), grid@[h]]
                        0 <= h < g && grid@[h].members@.contains(a as usize) && grid@[h].members@.contains(b as usize) && 0
                            <= a < b < n && overlapping(hitboxes@, a, b) ==> found@.contains(
                            (a as usize, b as usize),
                        ),
                    forall|pa: int, qa: int|
                        0 <= pa < p && pa < qa < members.len() ==> covered(
                            hitboxes@,
                            found@,
                            #[trigger] members@[pa] as int,
                            #[trigger] members@[qa] as int,
                        ),
                    forall|qa: int|
                        p < qa < q ==> covered(hitboxes@, found@, members@[p as int] as int, #[trigger] members@[qa] as int),
                decreases members.len() - q,
            {
                let a = members[p];
                let b = members[q];
                assert(a < n && b < n);
                if a != b {
                    assert(hitboxes@[a as int].rect.wf() && hitboxes@[b as int].rect.wf());
                    if hitboxes[a].rect.overlaps(&hitboxes[b].rect) {
                        let pair = if a < b {
                            (a, b)
                        } else {
                            (b, a)
                        };
                        if !contains_pair(&found, pair) {
                            let ghost before = found@;
                            found.push(pair);
                            proof {
                                assert(found@[found.len() - 1] == pair);
                                assert forall|x: (usize, usize)| before.contains(x) implies #[trigger] found@.contains(x) by {
                                    lemma_push_keeps(before, pair, x);
                                }
                                assert(found@.no_duplicates()) by {
                                    assert forall|k1: int, k2: int|
                                        0 <= k1 < found.len() && 0 <= k2 < found.len() && k1 != k2 implies found@[k1]
                                        != found@[k2] by {
                                        if k1 < before.len() && k2 < before.len() {
                                            assert(before[k1] != before[k2]);
                                        } else if k1 < before.len() {
                                            assert(before.contains(found@[k1]));
                                        } else {
                                            assert(before.contains(found@[k2]));
                                        }
                                    }
                                }
                            }
                        }
                        assert(found@.contains(pair));
                    }
                }
                q += 1;
            }
            p += 1;
        }
        proof {
            assert forall|h: int, a: int, b: int|
                #![trigger found@.contains((a as usize, b as usize)), grid@[h]]
                0 <= h < g + 1 && grid@[h].members@.contains(a as usize) && grid@[h].members@.contains(b as usize) && 0 <= a
                    < b < n && overlapping(hitboxes@, a, b) implies found@.contains((a as usize, b as usize)) by {
                if h == g {
                    let pa = choose|pa: int| 0 <= pa < members.len() && members@[pa] == a as usize;
                    let pb = choose|pb: int| 0 <= pb < members.len() && members@[pb] == b as usize;
                    if pa < pb {
                        assert(covered(hitboxes@, found@, members@[pa] as int, members@[pb] as int));
                    } else {
                        assert(covered(hitboxes@, found@, members@[pb] as int, members@[pa] as int));
                        assert(overlapping(hitboxes@, b, a));
                    }
                }
            }
        }
        g += 1;
    }
    proof {
        assert forall|a: int, b: int|
            0 <= a < b < hitboxes.len() && overlapping(hitboxes@, a, b) implies #[trigger] found@.contains(
            (a as usize, b as usize),
        ) by {
            assert(hitboxes@[a].rect.wf() && hitboxes@[b].rect.wf());
            let c = lemma_overlap_shares_cell(hitboxes@[a].rect, hitboxes@[b].rect, cell_size as int);
            assert(grid_has(grid@, c.0, c.1, a));
            assert(grid_has(grid@, c.0, c.1, b));
            let ga = choose|ga: int|
                0 <= ga < grid.len() && grid@[ga].cx == c.0 && grid@[ga].cy == c.1 && (#[trigger] grid@[ga]).members@.contains(
                    a as usize,
                );
            let gb = choose|gb: int|
                0 <= gb < grid.len() && grid@[gb].cx == c.0 && grid@[gb].cy == c.1 && (#[trigger] grid@[gb]).members@.contains(
                    b as usize,
                );
            assert(ga == gb);
        }
    }
    found
}

/// Overlap is symmetric.
pub proof fn lemma_overlapping_symmetric(hb: Seq<Hitbox>, a: int, b: int)
    ensures
        overlapping(hb, a, b) == overlapping(hb, b, a),
{
}

/// Every hitbox is connected to itself, and to each hitbox it overlaps.
pub proof fn lemma_connected_step(hb: Seq<Hitbox>, a: int, b: int)
    requires
        0 <= a < hb.len(),
        0 <= b < hb.len(),
    ensures
        connected(hb, a, a),
        overlapping(hb, a, b) ==> connected(hb, a, b),
{
    let pa = seq![a];
    assert(is_chain(hb, pa));
    if overlapping(hb, a, b) {
        let pb = seq![a, b];
        assert(is_chain(hb, pb));
    }
}

/// Connection is symmetric.
pub proof fn lemma_connected_symmetric(hb: Seq<Hitbox>, i: int, j: int)
    requires
        connected(hb, i, j),
    ensures
        connected(hb, j, i),
{
    let path = choose|path: Seq<int>| #[trigger] is_chain(hb, path) && path[0] == i && path.last() == j;
    let rev = path.reverse();
    assert forall|k: int| 0 <= k < rev.len() - 1 implies overlapping(hb, #[trigger] rev[k], rev[k + 1]) by {
        let m = path.len() - 2 - k;
        assert(overlapping(hb, path[m], path[m + 1]));
        assert(rev[k] == path[m + 1]);
        assert(rev[k + 1] == path[m]);
    }
    assert forall|k: int| 0 <= k < rev.len() implies 0 <= #[trigger] rev[k] < hb.len() by {
        assert(rev[k] == path[path.len() - 1 - k]);
    }
    assert(is_chain(hb, rev));
}

/// Connection is transitive.
pub proof fn lemma_connected_transitive(hb: Seq<Hitbox>, i: int, j: int, k: int)
    requires
        connected(hb, i, j),
        connected(hb, j, k),
    ensures
        connected(hb, i, k),
{
    let pa = choose|path: Seq<int>| #[trigger] is_chain(hb, path) && path[0] == i && path.last() == j;
    let pb = choose|path: Seq<int>| #[trigger] is_chain(hb, path) && path[0] == j && path.last() == k;
    let p = pa + pb.skip(1);
    assert forall|m: int| 0 <= m < p.len() implies 0 <= #[trigger] p[m] < hb.len() by {
        if m >= pa.len() {
            assert(p[m] == pb[m - pa.len() + 1]);
        }
    }
    assert forall|m: int| 0 <= m < p.len() - 1 implies overlapping(hb, #[trigger] p[m], p[m + 1]) by {
        if m < pa.len() - 1 {
            assert(p[m] == pa[m] && p[m + 1] == pa[m + 1]);
        } else if m == pa.len() - 1 {
            assert(p[m] == pb[0]);
            assert(p[m + 1] == pb[1]);
            assert(overlapping(hb, pb[0], pb[1]));
        } else {
            assert(p[m] == pb[m - pa.len() + 1]);
            assert(p[m + 1] == pb[m - pa.len() + 2]);
            assert(overlapping(hb, pb[m - pa.len() + 1], pb[m - pa.len() + 2]));
        }
    }
    assert(is_chain(hb, p));
    if pb.len() == 1 {
        assert(p =~= pa);
    } else {
        assert(p.last() == pb.last());
    }
}

/// A labelling that gives overlapping hitboxes one label gives every chain one label.
proof fn lemma_chain_one_label(hb: Seq<Hitbox>, label: Seq<int>, path: Seq<int>)
    requires
        label.len() == hb.len(),
        is_chain(hb, path),
        forall|a: int, b: int|
            0 <= a < hb.len() && 0 <= b < hb.len() && #[trigger] overlapping(hb, a, b) ==> label[a] == label[b],
    ensures
        label[path[0]] == label[path.last()],
    decreases path.len(),
{
    if path.len() > 1 {
        let shorter = path.drop_last();
        assert(is_chain(hb, shorter)) by {
            assert forall|k: int| 0 <= k < shorter.len() implies 0 <= #[trigger] shorter[k] < hb.len() by {
                assert(shorter[k] == path[k]);
            }
            assert forall|k: int| 0 <= k < shorter.len() - 1 implies overlapping(hb, #[trigger] shorter[k], shorter[k + 1]) by {
                assert(shorter[k] == path[k] && shorter[k + 1] == path[k + 1]);
            }
        }
        lemma_chain_one_label(hb, label, shorter);
        let m = path.len() - 2;
        assert(overlapping(hb, path[m], path[m + 1]));
        assert(shorter.last() == path[m]);
    }
}

/// `groups` is the partition of the pin hitboxes into nets: each group is a non-empty, ascending
/// list of pin positions, every pin lies in a group, and two pins lie in one group exactly when
/// a chain of overlapping hitboxes, of pins or wires, joins them.
pub open spec fn is_net_partition(hb: Seq<Hitbox>, groups: Seq<Vec<usize>>) -> bool {
    &&& forall|g: int| 0 <= g < groups.len() ==> (#[trigger] groups[g]).len() > 0
    &&& forall|g: int, k: int|
        0 <= g < groups.len() && 0 <= k < groups[g].len() ==> {
            &&& (#[trigger] groups[g]@[k]) < hb.len()
            &&& hb[groups[g]@[k] as int].kind.is_pin_spec()
        }
    &&& forall|g: int, k1: int, k2: int|
        0 <= g < groups.len() && 0 <= k1 < k2 < groups[g].len() ==> #[trigger] groups[g]@[k1] < #[trigger] groups[g]@[k2]
    &&& forall|m: int|
        0 <= m < hb.len() && (#[trigger] hb[m]).kind.is_pin_spec() ==> exists|g: int|
            0 <= g < groups.len() && #[trigger] groups[g]@.contains(m as usize)
    &&& forall|g1: int, g2: int, k1: int, k2: int|
        0 <= g1 < groups.len() && 0 <= g2 < groups.len() && 0 <= k1 < groups[g1].len() && 0 <= k2 < groups[g2].len()
            ==> (connected(hb, #[trigger] groups[g1]@[k1] as int, #[trigger] groups[g2]@[k2] as int) <==> g1 == g2)
}

/// The position in `roots` of `r`, if it is there.
fn find_root(roots: &Vec<usize>, r: usize) -> (res: Option<usize>)
    ensures
        res matches Some(g) ==> g < roots.len() && roots@[g as int] == r,
        res is None ==> !roots@.contains(r),
{
    let mut g: usize = 0;
    while g < roots.len()
        invariant
            g <= roots.len(),
            forall|k: int| 0 <= k < g ==> roots@[k] != r,
        decreases roots.len() - g,
    {
        if roots[g] == r {
            return Some(g);
        }
        g += 1;
    }
    None
}

/// Groups the pin hitboxes into nets. Overlapping hitboxes, of pins or of wires, are joined;
/// each resulting set of hitboxes that holds a pin gives one net, the list of its pin
/// positions in ascending order. Nets come in the order of their first pin.
pub fn group_connected_pins(hitboxes: &Vec<Hitbox>, cell_size: i64) -> (groups: Vec<Vec<usize>>)
    requires
        all_wf(hitboxes@),
        cell_size > 0,
    ensures
        is_net_partition(hitboxes@, groups@),
{
    let n = hitboxes.len();
    let collisions = detect_collisions(hitboxes, cell_size);
    let mut uf = UnionFind::new(n);
    proof {
        assert forall|i: int, j: int| 0 <= i < n && 0 <= j < n && #[trigger] uf.same(i, j) implies connected(
            hitboxes@,
            i,
            j,
        ) by {
            assert(uf.root(i) == i && uf.root(j) == j);
            lemma_connected_step(hitboxes@, i, j);
        }
    }
    let mut k: usize = 0;
    while k < collisions.len()
        invariant
            n == hitboxes.len(),
            uf.wf(),
            uf.len() == n,
            pairs_sound(hitboxes@, collisions@),
            k <= collisions.len(),
            forall|i: int, j: int| 0 <= i < n && 0 <= j < n && #[trigger] uf.same(i, j) ==> connected(hitboxes@, i, j),
            forall|c: int| 0 <= c < k ==> uf.same(#[trigger] collisions@[c].0 as int, collisions@[c].1 as int),
        decreases collisions.len() - k,
    {
        let (a, b) = collisions[k];
        let ghost before = uf;
        uf.union(a, b);
        proof {
            assert(collisions@[k as int].0 == a && collisions@[k as int].1 == b);
            assert(overlapping(hitboxes@, a as int, b as int));
            assert forall|i: int, j: int| 0 <= i < n && 0 <= j < n && #[trigger] uf.same(i, j) implies connected(
                hitboxes@,
                i,
                j,
            ) by {
                lemma_connected_step(hitboxes@, a as int, b as int);
                lemma_connected_step(hitboxes@, b as int, a as int);
                lemma_overlapping_symmetric(hitboxes@, a as int, b as int);
                if before.same(i, j) {
                } else if before.same(i, a as int) && before.same(j, b as int) {
                    assert(connected(hitboxes@, i, a as int));
                    assert(connected(hitboxes@, j, b as int));
                    lemma_connected_symmetric(hitboxes@, j, b as int);
                    lemma_connected_transitive(hitboxes@, i, a as int, b as int);
                    lemma_connected_transitive(hitboxes@, i, b as int, j);
                } else {
                    assert(connected(hitboxes@, i, b as int));
                    assert(connected(hitboxes@, j, a as int));
                    lemma_connected_symmetric(hitboxes@, j, a as int);
                    lemma_connected_transitive(hitboxes@, i, b as int, a as int);
                    lemma_connected_transitive(hitboxes@, i, a as int, j);
                }
            }
            assert forall|c: int| 0 <= c < k + 1 implies uf.same(#[trigger] collisions@[c].0 as int, collisions@[c].1 as int) by {
                if c < k {
                    assert(before.same(collisions@[c].0 as int, collisions@[c].1 as int));
                }
            }
        }
        k += 1;
    }
    proof {
        assert forall|a: int, b: int|
            0 <= a < n && 0 <= b < n && #[trigger] overlapping(hitboxes@, a, b) implies uf.roots@[a] == uf.roots@[b] by {
            lemma_overlapping_symmetric(hitboxes@, a, b);
            if a < b {
                assert(collisions@.contains((a as usize, b as usize)));
                let c = choose|c: int| 0 <= c < collisions.len() && collisions@[c] == (a as usize, b as usize);
                assert(uf.same(collisions@[c].0 as int, collisions@[c].1 as int));
            } else if b < a {
                assert(collisions@.contains((b as usize, a as usize)));
                let c = choose|c: int| 0 <= c < collisions.len() && collisions@[c] == (b as usize, a as usize);
                assert(uf.same(collisions@[c].0 as int, collisions@[c].1 as int));
            }
        }
    }
    let ghost labels = uf.roots@;
    assert forall|x: int, y: int|
        #![trigger labels[x], labels[y]]
        0 <= x < n && 0 <= y < n && labels[x] == labels[y] implies connected(hitboxes@, x, y) by {
        assert(uf.same(x, y));
    }
    let mut groups: Vec<Vec<usize>> = Vec::new();
    let mut group_roots: Vec<usize> = Vec::new();
    let mut i: usize = 0;
    while i < n
        invariant
            n == hitboxes.len(),
            uf.wf(),
            uf.len() == n,
            uf.roots@ == labels,
            i <= n,
            forall|x: int, y: int|
                #![trigger labels[x], labels[y]]
                0 <= x < n && 0 <= y < n && labels[x] == labels[y] ==> connected(hitboxes@, x, y),
            forall|a: int, b: int|
                0 <= a < n && 0 <= b < n && #[trigger] overlapping(hitboxes@, a, b) ==> labels[a] == labels[b],
            groups.len() == group_roots.len(),
            forall|g1: int, g2: int|
                0 <= g1 < g2 < group_roots.len() ==> #[trigger] group_roots@[g1] != #[trigger] group_roots@[g2],
            forall|g: int| 0 <= g < groups.len() ==> (#[trigger] groups@[g]).len() > 0,
            forall|g: int, k: int|
                0 <= g < groups.len() && 0 <= k < groups@[g].len() ==> {
                    &&& (#[trigger] groups@[g]@[k]) < i
                    &&& hitboxes@[groups@[g]@[k] as int].kind.is_pin_spec()
                    &&& labels[groups@[g]@[k] as int] == group_roots@[g]
                },
            forall|g: int, k1: int, k2: int|
                0 <= g < groups.len() && 0 <= k1 < k2 < groups@[g].len() ==> #[trigger] groups@[g]@[k1]
                    < #[trigger] groups@[g]@[k2],
            forall|m: int|
                0 <= m < i && (#[trigger] hitboxes@[m]).kind.is_pin_spec() ==> exists|g: int|
                    0 <= g < groups.len() && #[trigger] groups@[g]@.contains(m as usize),
        decreases n - i,
    {
        if hitboxes[i].kind.is_pin() {
            let r = uf.find(i);
            let ghost before = groups@;
            match find_root(&group_roots, r) {
                Some(g) => {
                    groups[g].push(i);
                    proof {
                        assert(groups@[g as int]@.last() == i);
                        assert forall|h: int, k: int| 0 <= h < groups.len() && 0 <= k < groups@[h].len() implies {
                            &&& (#[trigger] groups@[h]@[k]) < i + 1
                            &&& hitboxes@[groups@[h]@[k] as int].kind.is_pin_spec()
                            &&& labels[groups@[h]@[k] as int] == group_roots@[h]
                        } by {
                            if h == g && k < before[h].len() {
                                assert(groups@[h]@[k] == before[h]@[k]);
                            }
                        }
                        assert forall|h: int, k1: int, k2: int|
                            0 <= h < groups.len() && 0 <= k1 < k2 < groups@[h].len() implies #[trigger] groups@[h]@[k1]
                            < #[trigger] groups@[h]@[k2] by {
                            if h == g {
                                assert(groups@[h]@[k1] == before[h]@[k1]);
                                if k2 < before[h].len() {
                                    assert(groups@[h]@[k2] == before[h]@[k2]);
                                }
                            }
                        }
                        assert forall|m: int|
                            0 <= m < i + 1 && (#[trigger] hitboxes@[m]).kind.is_pin_spec() implies exists|h: int|
                            0 <= h < groups.len() && #[trigger] groups@[h]@.contains(m as usize) by {
                            if m == i {
                                assert(groups@[g as int]@.contains(m as usize));
                            } else {
                                let h = choose|h: int| 0 <= h < before.len() && #[trigger] before[h]@.contains(m as usize);
                                let k = choose|k: int| 0 <= k < before[h].len() && before[h]@[k] == m as usize;
                                assert(groups@[h]@[k] == m as usize);
                                assert(groups@[h]@.contains(m as usize));
                            }
                        }
                    }
                },
                None => {
                    let mut fresh: Vec<usize> = Vec::new();
                    fresh.push(i);
                    groups.push(fresh);
                    group_roots.push(r);
                    proof {
                        let g = before.len() as int;
                        assert(groups@[g]@[0] == i);
                        assert forall|g1: int, g2: int|
                            0 <= g1 < g2 < group_roots.len() implies #[trigger] group_roots@[g1] != #[trigger] group_roots@[g2] by {
                            if g2 == g {
                                assert(group_roots@[g1] == group_roots@.drop_last()[g1]);
                            }
                        }
                        assert forall|m: int|
                            0 <= m < i + 1 && (#[trigger] hitboxes@[m]).kind.is_pin_spec() implies exists|h: int|
                            0 <= h < groups.len() && #[trigger] groups@[h]@.contains(m as usize) by {
                            if m == i {
                                assert(groups@[g]@.contains(m as usize));
                            } else {
                                let h = choose|h: int| 0 <= h < before.len() && #[trigger] before[h]@.contains(m as usize);
                                assert(groups@[h] == before[h]);
                            }
                        }
                    }
                },
            }
        }
        i += 1;
    }
    proof {
        assert forall|g1: int, g2: int, k1: int, k2: int|
            0 <= g1 < groups.len() && 0 <= g2 < groups.len() && 0 <= k1 < groups@[g1].len() && 0 <= k2 < groups@[g2].len()
                implies (connected(hitboxes@, #[trigger] groups@[g1]@[k1] as int, #[trigger] groups@[g2]@[k2] as int)
                <==> g1 == g2) by {
            let x = groups@[g1]@[k1] as int;
            let y = groups@[g2]@[k2] as int;
            if g1 == g2 {
                assert(labels[x] == labels[y]);
            }
            if connected(hitboxes@, x, y) {
                let path = choose|path: Seq<int>| #[trigger] is_chain(hitboxes@, path) && path[0] == x && path.last() == y;
                lemma_chain_one_label(hitboxes@, labels, path);
                if g1 < g2 {
                    assert(group_roots@[g1] != group_roots@[g2]);
                } else if g2 < g1 {
                    assert(group_roots@[g2] != group_roots@[g1]);
                }
            }
        }
    }
    groups
}

/// Two pins whose hitboxes overlap, even at one point, lie in one net.
pub proof fn lemma_overlapping_pins_share_net(hb: Seq<Hitbox>, groups: Seq<Vec<usize>>, i: int, j: int)
    requires
        is_net_partition(hb, groups),
        hb.len() <= usize::MAX,
        0 <= i < hb.len(),
        0 <= j < hb.len(),
        hb[i].kind.is_pin_spec(),
        hb[j].kind.is_pin_spec(),
        overlapping(hb, i, j),
    ensures
        exists|g: int| 0 <= g < groups.len() && groups[g]@.contains(i as usize) && groups[g]@.contains(j as usize),
{
    let gi = choose|g: int| 0 <= g < groups.len() && #[trigger] groups[g]@.contains(i as usize);
    let gj = choose|g: int| 0 <= g < groups.len() && #[trigger] groups[g]@.contains(j as usize);
    let ki = choose|k: int| 0 <= k < groups[gi].len() && groups[gi]@[k] == i as usize;
    let kj = choose|k: int| 0 <= k < groups[gj].len() && groups[gj]@[k] == j as usize;
    lemma_connected_step(hb, i, j);
    assert(connected(hb, groups[gi]@[ki] as int, groups[gj]@[kj] as int));
}

/// A chain that leaves `i` has a step from `i` to another hitbox.
proof fn lemma_chain_leaves(hb: Seq<Hitbox>, path: Seq<int>, i: int) -> (k: int)
    requires
        is_chain(hb, path),
        path[0] == i,
        path.last() != i,
    ensures
        0 <= k < path.len() - 1,
        path[k] == i,
        path[k + 1] != i,
    decreases path.len(),
{
    if path[path.len() - 2] == i {
        path.len() - 2
    } else {
        let shorter = path.drop_last();
        assert(is_chain(hb, shorter)) by {
            assert forall|m: int| 0 <= m < shorter.len() implies 0 <= #[trigger] shorter[m] < hb.len() by {
                assert(shorter[m] == path[m]);
            }
            assert forall|m: int| 0 <= m < shorter.len() - 1 implies overlapping(hb, #[trigger] shorter[m], shorter[m + 1]) by {
                assert(shorter[m] == path[m] && shorter[m + 1] == path[m + 1]);
            }
        }
        lemma_chain_leaves(hb, shorter, i)
    }
}

/// A pin whose hitbox overlaps no other hitbox forms a net of its own.
pub proof fn lemma_isolated_pin_alone(hb: Seq<Hitbox>, groups: Seq<Vec<usize>>, i: int, g: int)
    requires
        is_net_partition(hb, groups),
        hb.len() <= usize::MAX,
        0 <= i < hb.len(),
        forall|j: int| 0 <= j < hb.len() && j != i ==> !overlapping(hb, i, j),
        0 <= g < groups.len(),
        groups[g]@.contains(i as usize),
    ensures
        groups[g]@ == seq![i as usize],
{
    let ki = choose|k: int| 0 <= k < groups[g].len() && groups[g]@[k] == i as usize;
    assert forall|k: int| 0 <= k < groups[g].len() implies groups[g]@[k] == i as usize by {
        let j = groups[g]@[k] as int;
        assert(connected(hb, groups[g]@[ki] as int, groups[g]@[k] as int));
        if j != i {
            let path = choose|path: Seq<int>| #[trigger] is_chain(hb, path) && path[0] == i && path.last() == j;
            let m = lemma_chain_leaves(hb, path, i);
            assert(overlapping(hb, path[m], path[m + 1]));
        }
    }
    if groups[g].len() > 1 {
        assert(groups[g]@[0] < groups[g]@[1]);
    }
    assert(groups[g]@ =~= seq![i as usize]);
}

} // verus!
