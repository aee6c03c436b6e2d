use vstd::prelude::*;
use vstd::arithmetic::div_mod::{
    lemma_div_basics_5, lemma_div_pos_is_pos, lemma_fundamental_div_mod,
    lemma_fundamental_div_mod_converse, lemma_mod_pos_bound,
};
use vstd::arithmetic::mul::lemma_mul_is_commutative;
use crate::int3::{Int3, nonneg3, positive3, within3, div3, rem3, mul3, add3, fits_i32_3};
use crate::ndgrid::{CellGrid, grid_cells, index_box, nonzero_len, grid_filled, grid_get, grid_set};

verus! {

/// The entry at block location `t` of the block table after the first `n` logical locations
/// were written into it in order: the index of the last of them that lies at `t`, or 0 where
/// none does (the table starts out filled with 0).
pub open spec fn table_value(locs: Seq<(int, int, int)>, n: int, t: (int, int, int)) -> int
    decreases n,
{
    if n <= 0 {
        0
    } else if locs[n - 1] == t {
        n - 1
    } else {
        table_value(locs, n - 1, t)
    }
}

/// The mesh block that a cell belongs to: the table entry at the cell's block location,
/// which is the cell position divided component-wise by the mesh block size.
pub open spec fn block_of_cell(
    locs: Seq<(int, int, int)>,
    mesh_block: (int, int, int),
    cell: (int, int, int),
) -> int {
    table_value(locs, locs.len() as int, div3(cell, mesh_block))
}

/// Every logical location lies inside the grid `root`.
pub open spec fn locations_within(locs: Seq<(int, int, int)>, root: (int, int, int)) -> bool {
    forall|b: int| 0 <= b < locs.len() ==> within3(#[trigger] locs[b], root)
}

/// No two mesh blocks share a logical location.
pub open spec fn locations_distinct(locs: Seq<(int, int, int)>) -> bool {
    forall|a: int, b: int|
        0 <= a < locs.len() && 0 <= b < locs.len() && a != b ==> #[trigger] locs[a] != #[trigger] locs[b]
}

/// The views of a sequence of positions.
pub open spec fn views3(v: Seq<Int3>) -> Seq<(int, int, int)> {
    v.map_values(|l: Int3| l@)
}

/// Where some of the first `n` blocks lies at `t`, the table entry there is the last of them.
proof fn lemma_table_hit(locs: Seq<(int, int, int)>, n: int, t: (int, int, int))
    requires
        0 <= n <= locs.len(),
        exists|b: int| 0 <= b < n && locs[b] == t,
    ensures
        0 <= table_value(locs, n, t) < n,
        locs[table_value(locs, n, t)] == t,
        forall|b: int| table_value(locs, n, t) < b < n ==> locs[b] != t,
    decreases n,
{
    if locs[n - 1] != t {
        let b = choose|b: int| 0 <= b < n && locs[b] == t;
        assert(0 <= b < n - 1 && locs[b] == t);
        lemma_table_hit(locs, n - 1, t);
    }
}

/// With distinct locations, the table entry at the location of block `b` is `b`, once `b`
/// has been written.
proof fn lemma_table_unique(locs: Seq<(int, int, int)>, n: int, b: int)
    requires
        0 <= b < n <= locs.len(),
        locations_distinct(locs),
    ensures
        table_value(locs, n, locs[b]) == b,
    decreases n,
{
    if n - 1 != b {
        assert(locs[n - 1] != locs[b]);
        lemma_table_unique(locs, n - 1, b);
    }
}

/// Where none of the first `n` blocks lies at `t`, the table entry there is 0.
proof fn lemma_table_miss(locs: Seq<(int, int, int)>, n: int, t: (int, int, int))
    requires
        0 <= n <= locs.len(),
        forall|b: int| 0 <= b < n ==> locs[b] != t,
    ensures
        table_value(locs, n, t) == 0,
    decreases n,
{
    if n > 0 {
        lemma_table_miss(locs, n - 1, t);
    }
}

/// On one axis, a cell `c` with `l * d <= c < l * d + d` has block coordinate `l`.
proof fn lemma_axis_block(l: int, d: int, c: int)
    requires
        d > 0,
        l * d <= c < l * d + d,
    ensures
        c / d == l,
        c % d == c - l * d,
{
    lemma_fundamental_div_mod_converse(c, d, l, c - l * d);
}

/// On one axis, the block coordinate `c / d` of a cell `c >= 0` has `c` in its extent.
proof fn lemma_axis_extent(d: int, c: int)
    requires
        d > 0,
        c >= 0,
    ensures
        (c / d) * d <= c < (c / d) * d + d,
        c == (c / d) * d + c % d,
        0 <= c % d < d,
{
    lemma_fundamental_div_mod(c, d);
    lemma_mul_is_commutative(d, c / d);
    lemma_mod_pos_bound(c, d);
}

/// Law: where some listed block's extent (its logical location times the mesh block size, up to
/// one mesh block further on each axis) holds the cell, the layout assigns the cell a listed
/// block whose extent holds it, the last such block in the list; the cell is that block's first
/// cell plus an offset inside one mesh block.
pub proof fn lemma_cell_decomposes(
    locs: Seq<(int, int, int)>,
    mesh_block: (int, int, int),
    cell: (int, int, int),
)
    requires
        mesh_block.0 > 0 && mesh_block.1 > 0 && mesh_block.2 > 0,
        exists|b: int| 0 <= b < locs.len() && #[trigger] locs[b].0 * mesh_block.0 <= cell.0 < locs[b].0 * mesh_block.0 + mesh_block.0
            && locs[b].1 * mesh_block.1 <= cell.1 < locs[b].1 * mesh_block.1 + mesh_block.1
            && locs[b].2 * mesh_block.2 <= cell.2 < locs[b].2 * mesh_block.2 + mesh_block.2,
    ensures
        ({
            let r = block_of_cell(locs, mesh_block, cell);
            let l = locs[r];
            &&& 0 <= r < locs.len()
            &&& l.0 * mesh_block.0 <= cell.0 < l.0 * mesh_block.0 + mesh_block.0
            &&& l.1 * mesh_block.1 <= cell.1 < l.1 * mesh_block.1 + mesh_block.1
            &&& l.2 * mesh_block.2 <= cell.2 < l.2 * mesh_block.2 + mesh_block.2
            &&& cell.0 == l.0 * mesh_block.0 + cell.0 % mesh_block.0
            &&& cell.1 == l.1 * mesh_block.1 + cell.1 % mesh_block.1
            &&& cell.2 == l.2 * mesh_block.2 + cell.2 % mesh_block.2
            &&& forall|b: int| r < b < locs.len() ==> !(#[trigger] locs[b].0 * mesh_block.0 <= cell.0 < locs[b].0 * mesh_block.0 + mesh_block.0
                && locs[b].1 * mesh_block.1 <= cell.1 < locs[b].1 * mesh_block.1 + mesh_block.1
                && locs[b].2 * mesh_block.2 <= cell.2 < locs[b].2 * mesh_block.2 + mesh_block.2)
        }),
{
    let b = choose|b: int| 0 <= b < locs.len() && #[trigger] locs[b].0 * mesh_block.0 <= cell.0 < locs[b].0 * mesh_block.0 + mesh_block.0
        && locs[b].1 * mesh_block.1 <= cell.1 < locs[b].1 * mesh_block.1 + mesh_block.1
        && locs[b].2 * mesh_block.2 <= cell.2 < locs[b].2 * mesh_block.2 + mesh_block.2;
    let q = div3(cell, mesh_block);
    lemma_axis_block(locs[b].0, mesh_block.0, cell.0);
    lemma_axis_block(locs[b].1, mesh_block.1, cell.1);
    lemma_axis_block(locs[b].2, mesh_block.2, cell.2);
    assert(locs[b] == q);
    lemma_table_hit(locs, locs.len() as int, q);
    let r = block_of_cell(locs, mesh_block, cell);
    assert forall|b2: int| r < b2 < locs.len() implies !(#[trigger] locs[b2].0 * mesh_block.0 <= cell.0 < locs[b2].0 * mesh_block.0 + mesh_block.0
        && locs[b2].1 * mesh_block.1 <= cell.1 < locs[b2].1 * mesh_block.1 + mesh_block.1
        && locs[b2].2 * mesh_block.2 <= cell.2 < locs[b2].2 * mesh_block.2 + mesh_block.2) by {
        if locs[b2].0 * mesh_block.0 <= cell.0 < locs[b2].0 * mesh_block.0 + mesh_block.0
            && locs[b2].1 * mesh_block.1 <= cell.1 < locs[b2].1 * mesh_block.1 + mesh_block.1
            && locs[b2].2 * mesh_block.2 <= cell.2 < locs[b2].2 * mesh_block.2 + mesh_block.2 {
            lemma_axis_block(locs[b2].0, mesh_block.0, cell.0);
            lemma_axis_block(locs[b2].1, mesh_block.1, cell.1);
            lemma_axis_block(locs[b2].2, mesh_block.2, cell.2);
            assert(locs[b2] == q);
        }
    }
}

/// Law: a cell whose extent no listed block holds is assigned block 0.
pub proof fn lemma_unlisted_cell_block_zero(
    locs: Seq<(int, int, int)>,
    mesh_block: (int, int, int),
    cell: (int, int, int),
)
    requires
        mesh_block.0 > 0 && mesh_block.1 > 0 && mesh_block.2 > 0,
        cell.0 >= 0 && cell.1 >= 0 && cell.2 >= 0,
        forall|b: int| 0 <= b < locs.len() ==> !(#[trigger] locs[b].0 * mesh_block.0 <= cell.0 < locs[b].0 * mesh_block.0 + mesh_block.0
            && locs[b].1 * mesh_block.1 <= cell.1 < locs[b].1 * mesh_block.1 + mesh_block.1
            && locs[b].2 * mesh_block.2 <= cell.2 < locs[b].2 * mesh_block.2 + mesh_block.2),
    ensures
        block_of_cell(locs, mesh_block, cell) == 0,
{
    let q = div3(cell, mesh_block);
    lemma_axis_extent(mesh_block.0, cell.0);
    lemma_axis_extent(mesh_block.1, cell.1);
    lemma_axis_extent(mesh_block.2, cell.2);
    assert forall|b: int| 0 <= b < locs.len() implies locs[b] != q by {
        if locs[b] == q {
            assert(locs[b].0 * mesh_block.0 <= cell.0 < locs[b].0 * mesh_block.0 + mesh_block.0);
        }
    }
    lemma_table_miss(locs, locs.len() as int, q);
}

/// Law: with distinct logical locations, every cell in a block's extent (its logical location
/// times the mesh block size, up to one mesh block further on each axis) is assigned to that block.
pub proof fn lemma_block_cells_assigned(
    locs: Seq<(int, int, int)>,
    mesh_block: (int, int, int),
    b: int,
    cell: (int, int, int),
)
    requires
        mesh_block.0 > 0 && mesh_block.1 > 0 && mesh_block.2 > 0,
        locations_distinct(locs),
        0 <= b < locs.len(),
        locs[b].0 * mesh_block.0 <= cell.0 < locs[b].0 * mesh_block.0 + mesh_block.0,
        locs[b].1 * mesh_block.1 <= cell.1 < locs[b].1 * mesh_block.1 + mesh_block.1,
        locs[b].2 * mesh_block.2 <= cell.2 < locs[b].2 * mesh_block.2 + mesh_block.2,
    ensures
        block_of_cell(locs, mesh_block, cell) == b,
{
    let l = locs[b];
    lemma_axis_block(l.0, mesh_block.0, cell.0);
    lemma_axis_block(l.1, mesh_block.1, cell.1);
    lemma_axis_block(l.2, mesh_block.2, cell.2);
    assert(div3(cell, mesh_block) == l);
    lemma_table_unique(locs, locs.len() as int, b);
}

/// How the cells of the root grid are divided among mesh blocks: the grid size, the size of
/// one mesh block, the logical location of each block in the grid of blocks, and, for every
/// cell, the index of the block that holds it.
pub struct CellLayout {
    root: Int3,
    mesh_block: Int3,
    locations: Vec<Int3>,
    cell_block: CellGrid,
}

impl CellLayout {
    /// Number of cells along each axis of the root grid.
    pub closed spec fn root_dims(self) -> (int, int, int) {
        self.root@
    }

    /// Number of cells along each axis of one mesh block.
    pub closed spec fn mesh_dims(self) -> (int, int, int) {
        self.mesh_block@
    }

    /// The logical location of each mesh block, by block index.
    pub closed spec fn block_locations(self) -> Seq<(int, int, int)> {
        views3(self.locations@)
    }

    /// The block that holds `cell`.
    pub open spec fn block_at(self, cell: (int, int, int)) -> int {
        block_of_cell(self.block_locations(), self.mesh_dims(), cell)
    }

    #[verifier::type_invariant]
    closed spec fn inv(self) -> bool {
        &&& nonneg3(self.root@)
        &&& positive3(self.mesh_block@)
        &&& locations_within(views3(self.locations@), self.root@)
        &&& grid_cells(self.cell_block).dom() == index_box(self.root.x as int, self.root.y as int, self.root.z as int)
        &&& forall|t: (int, int, int)| #[trigger] grid_cells(self.cell_block).dom().contains(t)
            ==> grid_cells(self.cell_block)[t] == block_of_cell(views3(self.locations@), self.mesh_block@, t)
    }

    /// Builds the layout: first a table over the grid of block locations in which each block's
    /// index is written at its logical location (later blocks overwrite earlier ones), then,
    /// for every cell, the table entry at the cell's position divided by the mesh block size.
    pub fn build(root: Int3, mesh_block: Int3, locations: Vec<Int3>) -> (r: CellLayout)
        requires
            nonneg3(root@),
            positive3(mesh_block@),
            nonzero_len(root.x as int) * nonzero_len(root.y as int) * nonzero_len(root.z as int)
                <= isize::MAX,
            locations_within(views3(locations@), root@),
        ensures
            r.root_dims() == root@,
            r.mesh_dims() == mesh_block@,
            r.block_locations() == views3(locations@),
            r.root_dims() == (root.x as int, root.y as int, root.z as int),
            r.mesh_dims() == (mesh_block.x as int, mesh_block.y as int, mesh_block.z as int),
            r.block_locations().len() == locations.len(),
            forall|b: int| 0 <= b < locations.len() ==> #[trigger] r.block_locations()[b]
                == (locations[b].x as int, locations[b].y as int, locations[b].z as int),
    {
        let ghost lv = views3(locations@);
        let n = locations.len();
        let mut table = grid_filled(root.x as usize, root.y as usize, root.z as usize, 0);
        let mut b: usize = 0;
        while b < n
            invariant
                n == locations.len(),
                lv == views3(locations@),
                0 <= b <= n,
                nonneg3(root@),
                locations_within(lv, root@),
                grid_cells(table).dom() == index_box(root.x as int, root.y as int, root.z as int),
                forall|t: (int, int, int)| #[trigger] grid_cells(table).dom().contains(t)
                    ==> grid_cells(table)[t] == table_value(lv, b as int, t),
            decreases n - b,
        {
            let l = locations[b];
            assert(lv[b as int] == l@);
            assert(within3(lv[b as int], root@));
            grid_set(&mut table, l.x as usize, l.y as usize, l.z as usize, b);
            b = b + 1;
        }
        let mut out = grid_filled(root.x as usize, root.y as usize, root.z as usize, 0);
        let mut i: i32 = 0;
        while i < root.x
            invariant
                0 <= i <= root.x,
                nonneg3(root@),
                positive3(mesh_block@),
                n == lv.len(),
                grid_cells(table).dom() == index_box(root.x as int, root.y as int, root.z as int),
                forall|t: (int, int, int)| #[trigger] grid_cells(table).dom().contains(t)
                    ==> grid_cells(table)[t] == table_value(lv, n as int, t),
                grid_cells(out).dom() == index_box(root.x as int, root.y as int, root.z as int),
                forall|t: (int, int, int)| #[trigger] grid_cells(out).dom().contains(t) && t.0 < i
                    ==> grid_cells(out)[t] == block_of_cell(lv, mesh_block@, t),
            decreases root.x - i,
        {
            let mut j: i32 = 0;
            while j < root.y
                invariant
                    0 <= i < root.x,
                    0 <= j <= root.y,
                    nonneg3(root@),
                    positive3(mesh_block@),
                    n == lv.len(),
                    grid_cells(table).dom() == index_box(root.x as int, root.y as int, root.z as int),
                    forall|t: (int, int, int)| #[trigger] grid_cells(table).dom().contains(t)
                        ==> grid_cells(table)[t] == table_value(lv, n as int, t),
                    grid_cells(out).dom() == index_box(root.x as int, root.y as int, root.z as int),
                    forall|t: (int, int, int)| #[trigger] grid_cells(out).dom().contains(t)
                        && (t.0 < i || (t.0 == i && t.1 < j))
                        ==> grid_cells(out)[t] == block_of_cell(lv, mesh_block@, t),
                decreases root.y - j,
            {
                let mut k: i32 = 0;
                while k < root.z
                    invariant
                        0 <= i < root.x,
                        0 <= j < root.y,
                        0 <= k <= root.z,
                        nonneg3(root@),
                        positive3(mesh_block@),
                        n == lv.len(),
                        grid_cells(table).dom() == index_box(root.x as int, root.y as int, root.z as int),
                        forall|t: (int, int, int)| #[trigger] grid_cells(table).dom().contains(t)
                            ==> grid_cells(table)[t] == table_value(lv, n as int, t),
                        grid_cells(out).dom() == index_box(root.x as int, root.y as int, root.z as int),
                        forall|t: (int, int, int)| #[trigger] grid_cells(out).dom().contains(t)
                            && (t.0 < i || (t.0 == i && t.1 < j) || (t.0 == i && t.1 == j && t.2 < k))
                            ==> grid_cells(out)[t] == block_of_cell(lv, mesh_block@, t),
                    decreases root.z - k,
                {
                    let cell = Int3::new(i, j, k);
                    let q = cell.div(mesh_block);
                    proof {
                        lemma_div_basics_5(i as int, mesh_block.x as int);
                        lemma_div_basics_5(j as int, mesh_block.y as int);
                        lemma_div_basics_5(k as int, mesh_block.z as int);
                        lemma_div_pos_is_pos(i as int, mesh_block.x as int);
                        lemma_div_pos_is_pos(j as int, mesh_block.y as int);
                        lemma_div_pos_is_pos(k as int, mesh_block.z as int);
                        assert(grid_cells(table).dom().contains(q@));
                    }
                    let v = grid_get(&table, q.x as usize, q.y as usize, q.z as usize);
                    grid_set(&mut out, i as usize, j as usize, k as usize, v);
                    k = k + 1;
                }
                j = j + 1;
            }
            i = i + 1;
        }
        CellLayout { root, mesh_block, locations, cell_block: out }
    }

    /// The grid size in cells.
    pub fn root(&self) -> (r: Int3)
        ensures
            r@ == self.root_dims(),
    {
        self.root
    }

    /// The mesh block size in cells.
    pub fn mesh_block(&self) -> (r: Int3)
        ensures
            r@ == self.mesh_dims(),
    {
        self.mesh_block
    }

    /// The number of mesh blocks.
    pub fn num_blocks(&self) -> (r: usize)
        ensures
            r == self.block_locations().len(),
    {
        self.locations.len()
    }

    /// The index of the mesh block that holds `cell`: where some listed block's extent holds
    /// the cell, the last such block in the list; where none does, block 0.
    pub fn block_of(&self, cell: Int3) -> (r: usize)
        requires
            0 <= cell.x < self.root_dims().0,
            0 <= cell.y < self.root_dims().1,
            0 <= cell.z < self.root_dims().2,
        ensures
            r == self.block_at(cell@),
            ({
                let locs = self.block_locations();
                let m = self.mesh_dims();
                (exists|b: int| 0 <= b < locs.len() && #[trigger] locs[b].0 * m.0 <= cell.x < locs[b].0 * m.0 + m.0
                    && locs[b].1 * m.1 <= cell.y < locs[b].1 * m.1 + m.1
                    && locs[b].2 * m.2 <= cell.z < locs[b].2 * m.2 + m.2)
                ==> {
                    &&& r < locs.len()
                    &&& locs[r as int].0 * m.0 <= cell.x < locs[r as int].0 * m.0 + m.0
                    &&& locs[r as int].1 * m.1 <= cell.y < locs[r as int].1 * m.1 + m.1
                    &&& locs[r as int].2 * m.2 <= cell.z < locs[r as int].2 * m.2 + m.2
                    &&& forall|b: int| r < b < locs.len() ==> !(#[trigger] locs[b].0 * m.0 <= cell.x < locs[b].0 * m.0 + m.0
                        && locs[b].1 * m.1 <= cell.y < locs[b].1 * m.1 + m.1
                        && locs[b].2 * m.2 <= cell.z < locs[b].2 * m.2 + m.2)
                }
            }),
            ({
                let locs = self.block_locations();
                let m = self.mesh_dims();
                (forall|b: int| 0 <= b < locs.len() ==> !(#[trigger] locs[b].0 * m.0 <= cell.x < locs[b].0 * m.0 + m.0
                    && locs[b].1 * m.1 <= cell.y < locs[b].1 * m.1 + m.1
                    && locs[b].2 * m.2 <= cell.z < locs[b].2 * m.2 + m.2))
                ==> r == 0
            }),
    {
        proof {
            use_type_invariant(self);
            assert(grid_cells(self.cell_block).dom().contains(cell@));
            let locs = self.block_locations();
            let m = self.mesh_dims();
            if exists|b: int| 0 <= b < locs.len() && #[trigger] locs[b].0 * m.0 <= cell.x < locs[b].0 * m.0 + m.0
                && locs[b].1 * m.1 <= cell.y < locs[b].1 * m.1 + m.1
                && locs[b].2 * m.2 <= cell.z < locs[b].2 * m.2 + m.2 {
                lemma_cell_decomposes(locs, m, cell@);
            } else {
                lemma_unlisted_cell_block_zero(locs, m, cell@);
            }
        }
        grid_get(&self.cell_block, cell.x as usize, cell.y as usize, cell.z as usize)
    }

    /// The position of `cell` inside its mesh block: the cell position modulo the block size,
    /// so that the cell is its block coordinate times the block size plus this offset.
    pub fn sub_block_of(&self, cell: Int3) -> (r: (usize, usize, usize))
        requires
            cell.x >= 0,
            cell.y >= 0,
            cell.z >= 0,
        ensures
            (r.0 as int, r.1 as int, r.2 as int) == rem3(cell@, self.mesh_dims()),
            r.0 == (cell.x as int) % self.mesh_dims().0,
            r.1 == (cell.y as int) % self.mesh_dims().1,
            r.2 == (cell.z as int) % self.mesh_dims().2,
            r.0 < self.mesh_dims().0 && r.1 < self.mesh_dims().1 && r.2 < self.mesh_dims().2,
            cell.x == ((cell.x as int) / self.mesh_dims().0) * self.mesh_dims().0 + r.0,
            cell.y == ((cell.y as int) / self.mesh_dims().1) * self.mesh_dims().1 + r.1,
            cell.z == ((cell.z as int) / self.mesh_dims().2) * self.mesh_dims().2 + r.2,
    {
        proof {
            use_type_invariant(self);
        }
        let s = cell.rem(self.mesh_block);
        (s.x as usize, s.y as usize, s.z as usize)
    }

    /// The first cell of mesh block `b`: its logical location times the mesh block size.
    pub fn block_origin(&self, b: usize) -> (r: Int3)
        requires
            b < self.block_locations().len(),
            i32::MIN <= self.block_locations()[b as int].0 * self.mesh_dims().0 <= i32::MAX,
            i32::MIN <= self.block_locations()[b as int].1 * self.mesh_dims().1 <= i32::MAX,
            i32::MIN <= self.block_locations()[b as int].2 * self.mesh_dims().2 <= i32::MAX,
        ensures
            r@ == mul3(self.block_locations()[b as int], self.mesh_dims()),
            r.x == self.block_locations()[b as int].0 * self.mesh_dims().0,
            r.y == self.block_locations()[b as int].1 * self.mesh_dims().1,
            r.z == self.block_locations()[b as int].2 * self.mesh_dims().2,
    {
        let l = self.locations[b];
        assert(self.block_locations()[b as int] == l@);
        l.mul(self.mesh_block)
    }
}

} // verus!
