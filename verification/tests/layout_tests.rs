use kerr_march::int3::Int3;
use kerr_march::layout::CellLayout;

fn two_block_layout() -> CellLayout {
    // A 4x2x2 grid split into two 2x2x2 mesh blocks along x.
    CellLayout::build(
        Int3::new(4, 2, 2),
        Int3::new(2, 2, 2),
        vec![Int3::new(0, 0, 0), Int3::new(1, 0, 0)],
    )
}

#[test]
fn int3_component_ops() {
    let a = Int3::new(7, 8, 9);
    let m = Int3::new(2, 3, 4);
    assert_eq!(a.div(m), Int3::new(3, 2, 2));
    assert_eq!(a.rem(m), Int3::new(1, 2, 1));
    assert_eq!(a.mul(m), Int3::new(14, 24, 36));
}

#[test]
fn layout_assigns_cells_to_blocks() {
    let layout = two_block_layout();
    assert_eq!(layout.root(), Int3::new(4, 2, 2));
    assert_eq!(layout.mesh_block(), Int3::new(2, 2, 2));
    assert_eq!(layout.num_blocks(), 2);
    for i in 0..4 {
        for j in 0..2 {
            for k in 0..2 {
                let expected = if i < 2 { 0 } else { 1 };
                assert_eq!(layout.block_of(Int3::new(i, j, k)), expected);
            }
        }
    }
}

#[test]
fn layout_blocks_in_reverse_order() {
    // Block 0 sits at the far end, block 1 at the origin.
    let layout = CellLayout::build(
        Int3::new(4, 1, 1),
        Int3::new(2, 1, 1),
        vec![Int3::new(1, 0, 0), Int3::new(0, 0, 0)],
    );
    assert_eq!(layout.block_of(Int3::new(0, 0, 0)), 1);
    assert_eq!(layout.block_of(Int3::new(1, 0, 0)), 1);
    assert_eq!(layout.block_of(Int3::new(2, 0, 0)), 0);
    assert_eq!(layout.block_of(Int3::new(3, 0, 0)), 0);
}

#[test]
fn layout_later_block_overwrites_same_location() {
    let layout = CellLayout::build(
        Int3::new(2, 1, 1),
        Int3::new(1, 1, 1),
        vec![Int3::new(1, 0, 0), Int3::new(1, 0, 0)],
    );
    assert_eq!(layout.block_of(Int3::new(1, 0, 0)), 1);
    // No block lists location (0, 0, 0): the table's initial 0 stays.
    assert_eq!(layout.block_of(Int3::new(0, 0, 0)), 0);
}

#[test]
fn layout_sub_block_is_offset_in_block() {
    let layout = two_block_layout();
    assert_eq!(layout.sub_block_of(Int3::new(3, 1, 0)), (1, 1, 0));
    assert_eq!(layout.sub_block_of(Int3::new(2, 0, 1)), (0, 0, 1));
}

#[test]
fn layout_block_origin_is_location_times_block_size() {
    let layout = two_block_layout();
    assert_eq!(layout.block_origin(0), Int3::new(0, 0, 0));
    assert_eq!(layout.block_origin(1), Int3::new(2, 0, 0));
}

#[test]
fn law_cell_decomposes_on_example() {
    // Every cell equals its block's origin plus its offset inside the block.
    let layout = two_block_layout();
    for i in 0..4 {
        for j in 0..2 {
            for k in 0..2 {
                let c = Int3::new(i, j, k);
                let b = layout.block_of(c);
                let o = layout.block_origin(b);
                let s = layout.sub_block_of(c);
                assert_eq!(o.x + s.0 as i32, i);
                assert_eq!(o.y + s.1 as i32, j);
                assert_eq!(o.z + s.2 as i32, k);
            }
        }
    }
}

#[test]
fn law_block_cells_assigned_on_example() {
    // With distinct locations, every cell of each block belongs to that block.
    let layout = CellLayout::build(
        Int3::new(4, 6, 2),
        Int3::new(2, 3, 2),
        vec![
            Int3::new(1, 1, 0),
            Int3::new(0, 0, 0),
            Int3::new(1, 0, 0),
            Int3::new(0, 1, 0),
        ],
    );
    for b in 0..layout.num_blocks() {
        let o = layout.block_origin(b);
        for di in 0..2 {
            for dj in 0..3 {
                for dk in 0..2 {
                    let c = Int3::new(o.x + di, o.y + dj, o.z + dk);
                    assert_eq!(layout.block_of(c), b);
                }
            }
        }
    }
}

#[test]
fn layout_empty_grid() {
    let layout = CellLayout::build(Int3::new(0, 3, 3), Int3::new(1, 1, 1), vec![]);
    assert_eq!(layout.num_blocks(), 0);
    assert_eq!(layout.root(), Int3::new(0, 3, 3));
}
