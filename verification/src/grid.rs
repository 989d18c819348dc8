//! The dense grid of a model and its flattening.
//!
//! A cell holds 0 where the model has no voxel, and otherwise the position of
//! the voxel's colour in the colour table plus one. The cells are laid out
//! with X as the outer axis, then Y, then Z: the cell at `(x, y, z)` stands
//! at `(x * size.y + y) * size.z + z`. A decoder replays the same order.

use vstd::prelude::*;
use crate::error::EncodeError;
use crate::model::{palette_covers, Color, Model, Size, Voxel};
use crate::palette::{color_index, get_color_index, lemma_contained_has_first};
use crate::rle::cells_fit;

verus! {

/// Where the cell at `(x, y, z)` stands in the flattened grid.
pub open spec fn cell_index(size: Size, x: int, y: int, z: int) -> int {
    (x * size.y + y) * size.z + z
}

/// What a cell holds for a voxel of colour `color`.
pub open spec fn cell_value(table: Seq<Color>, color: Color) -> usize {
    (color_index(table, color) + 1) as usize
}

/// Every voxel lies inside the box.
pub open spec fn all_inside(size: Size, voxels: Seq<Voxel>) -> bool {
    forall|k: int| 0 <= k < voxels.len() ==> size.holds(#[trigger] voxels[k])
}

/// Why a model is turned away, if it is: an axis longer than 255 comes
/// before a voxel outside the box.
pub open spec fn rejection(size: Size, voxels: Seq<Voxel>) -> Option<EncodeError> {
    if !size.fits_header() {
        Some(EncodeError::DimensionOverflow)
    } else if !all_inside(size, voxels) {
        Some(EncodeError::VoxelOutOfBounds)
    } else {
        None
    }
}

/// The flattened grid after the voxels of `voxels` were set in list order on
/// an empty grid.
pub open spec fn grid_cells(
    size: Size,
    table: Seq<Color>,
    palette: Seq<Color>,
    voxels: Seq<Voxel>,
) -> Seq<usize>
    decreases voxels.len(),
{
    if voxels.len() == 0 {
        Seq::new(size.volume(), |i: int| 0usize)
    } else {
        let v = voxels.last();
        grid_cells(size, table, palette, voxels.drop_last()).update(
            cell_index(size, v.x as int, v.y as int, v.z as int),
            cell_value(table, palette[v.i as int]),
        )
    }
}

/// A cell inside the box has its place inside the flattened grid.
pub proof fn lemma_cell_index_in_grid(size: Size, x: int, y: int, z: int)
    requires
        0 <= x < size.x,
        0 <= y < size.y,
        0 <= z < size.z,
    ensures
        0 <= cell_index(size, x, y, z) < size.volume(),
{
    let dx = size.x as int;
    let dy = size.y as int;
    let dz = size.z as int;
    assert(0 <= x * dy + y <= dx * dy - 1) by (nonlinear_arith)
        requires
            0 <= x < dx,
            0 <= y < dy,
    ;
    let row = x * dy + y;
    assert(0 <= row * dz + z <= dx * dy * dz - 1) by (nonlinear_arith)
        requires
            0 <= row <= dx * dy - 1,
            0 <= z < dz,
    ;
}

/// A box whose axes fit the header has at most 255 * 255 * 255 cells.
pub proof fn lemma_volume_bound(size: Size)
    requires
        size.fits_header(),
    ensures
        size.volume() == size.x * size.y * size.z,
        size.x * size.y <= 65025,
        size.volume() <= 16581375,
{
    let dx = size.x as int;
    let dy = size.y as int;
    let dz = size.z as int;
    assert(0 <= dx * dy <= 65025) by (nonlinear_arith)
        requires
            0 <= dx <= 255,
            0 <= dy <= 255,
    ;
    let area = dx * dy;
    assert(0 <= area * dz <= 16581375) by (nonlinear_arith)
        requires
            0 <= area <= 65025,
            0 <= dz <= 255,
    ;
}

/// The grid has one cell for each place of the box.
pub proof fn lemma_grid_len(size: Size, table: Seq<Color>, palette: Seq<Color>, voxels: Seq<Voxel>)
    requires
        all_inside(size, voxels),
    ensures
        grid_cells(size, table, palette, voxels).len() == size.volume(),
    decreases voxels.len(),
{
    if voxels.len() > 0 {
        let front = voxels.drop_last();
        let v = voxels.last();
        assert(all_inside(size, front)) by {
            assert forall|k: int| 0 <= k < front.len() implies size.holds(#[trigger] front[k]) by {
                assert(front[k] == voxels[k]);
            }
        }
        lemma_grid_len(size, table, palette, front);
        assert(size.holds(voxels[voxels.len() - 1]));
        lemma_cell_index_in_grid(size, v.x as int, v.y as int, v.z as int);
    }
}

/// Builds the flattened grid of `model`, with each voxel's colour looked up
/// in `table`. Fails with `DimensionOverflow` where an axis is longer than
/// 255, before anything is allocated, and with `VoxelOutOfBounds` where a
/// voxel lies outside the box.
pub fn linearize(model: &Model, palette: &Vec<Color>, table: &Vec<Color>) -> (res: Result<
    Vec<usize>,
    EncodeError,
>)
    requires
        palette_covers(model.voxels@, palette@),
    ensures
        match rejection(model.size, model.voxels@) {
            Some(e) => res == Err::<Vec<usize>, EncodeError>(e),
            None => res.is_ok() && res.unwrap()@ == grid_cells(
                model.size,
                table@,
                palette@,
                model.voxels@,
            ),
        },
{
    let size = model.size;
    if size.x > 255 || size.y > 255 || size.z > 255 {
        return Err(EncodeError::DimensionOverflow);
    }
    let dx = size.x as usize;
    let dy = size.y as usize;
    let dz = size.z as usize;
    proof {
        lemma_volume_bound(size);
    }
    let volume = dx * dy * dz;
    let mut cells: Vec<usize> = vec![0usize; volume];
    assert(cells@ =~= grid_cells(size, table@, palette@, model.voxels@.take(0)));
    for k in 0..model.voxels.len()
        invariant
            size == model.size,
            size.fits_header(),
            dx == size.x,
            dy == size.y,
            dz == size.z,
            palette_covers(model.voxels@, palette@),
            all_inside(size, model.voxels@.take(k as int)),
            cells@ == grid_cells(size, table@, palette@, model.voxels@.take(k as int)),
    {
        let v = model.voxels[k];
        if v.x as usize >= dx || v.y as usize >= dy || v.z as usize >= dz {
            assert(!size.holds(model.voxels@[k as int]));
            return Err(EncodeError::VoxelOutOfBounds);
        }
        let position = get_color_index(table, palette, v.i as usize);
        proof {
            lemma_cell_index_in_grid(size, v.x as int, v.y as int, v.z as int);
            lemma_volume_bound(size);
            lemma_grid_len(size, table@, palette@, model.voxels@.take(k as int));
            let now = model.voxels@.take(k + 1);
            assert(now.drop_last() =~= model.voxels@.take(k as int));
            assert(now.last() == v);
            assert(all_inside(size, now)) by {
                assert forall|j: int| 0 <= j < now.len() implies size.holds(#[trigger] now[j]) by {
                    if j < k {
                        assert(model.voxels@.take(k as int)[j] == now[j]);
                    }
                }
            }
            assert(0 <= v.x * dy + v.y <= 65025) by (nonlinear_arith)
                requires
                    0 <= v.x < dx <= 255,
                    0 <= v.y < dy <= 255,
            ;
        }
        let index = (v.x as usize * dy + v.y as usize) * dz + v.z as usize;
        assert(position < table.len() || position == 0);
        cells.set(index, position + 1);
    }
    proof {
        assert(model.voxels@.take(model.voxels.len() as int) =~= model.voxels@);
    }
    Ok(cells)
}

/// A grid whose colours all stand in `table` holds no value beyond the
/// table's length.
pub proof fn lemma_grid_cells_fit(
    size: Size,
    table: Seq<Color>,
    palette: Seq<Color>,
    voxels: Seq<Voxel>,
)
    requires
        all_inside(size, voxels),
        forall|k: int|
            0 <= k < voxels.len() ==> table.contains(palette[(#[trigger] voxels[k]).i as int]),
    ensures
        cells_fit(grid_cells(size, table, palette, voxels), table.len()),
    decreases voxels.len(),
{
    let cells = grid_cells(size, table, palette, voxels);
    if voxels.len() > 0 {
        let front = voxels.drop_last();
        let v = voxels.last();
        assert(all_inside(size, front)) by {
            assert forall|k: int| 0 <= k < front.len() implies size.holds(#[trigger] front[k]) by {
                assert(front[k] == voxels[k]);
            }
        }
        assert forall|k: int| 0 <= k < front.len() implies table.contains(
            palette[(#[trigger] front[k]).i as int],
        ) by {
            assert(front[k] == voxels[k]);
        }
        lemma_grid_cells_fit(size, table, palette, front);
        lemma_grid_len(size, table, palette, front);
        let color = palette[v.i as int];
        assert(v == voxels[voxels.len() - 1]);
        assert(size.holds(v));
        lemma_cell_index_in_grid(size, v.x as int, v.y as int, v.z as int);
        lemma_contained_has_first(table, color);
        assert(color_index(table, color) < table.len());
        let earlier = grid_cells(size, table, palette, front);
        assert forall|i: int| 0 <= i < cells.len() implies #[trigger] cells[i] <= table.len() by {
            if i != cell_index(size, v.x as int, v.y as int, v.z as int) {
                assert(cells[i] == earlier[i]);
            }
        }
    }
}

/// The voxel that decides what the cell at `(x, y, z)` holds: the last one
/// of the list that stands there.
pub open spec fn voxel_at(voxels: Seq<Voxel>, x: int, y: int, z: int) -> Option<Voxel>
    decreases voxels.len(),
{
    if voxels.len() == 0 {
        None
    } else if voxels.last().x == x && voxels.last().y == y && voxels.last().z == z {
        Some(voxels.last())
    } else {
        voxel_at(voxels.drop_last(), x, y, z)
    }
}

/// A quotient and a remainder name one number only.
proof fn lemma_mixed_radix(a: int, b: int, c: int, d: int, base: int)
    requires
        0 <= b < base,
        0 <= d < base,
        a * base + b == c * base + d,
    ensures
        a == c,
        b == d,
{
    assert(a == c) by (nonlinear_arith)
        requires
            0 <= b < base,
            0 <= d < base,
            a * base + b == c * base + d,
    {
        if a < c {
            assert((c - a) * base >= base);
        } else if c < a {
            assert((a - c) * base >= base);
        }
    }
}

/// Two cells of the box that stand at the same place of the flattened grid
/// are the same cell.
pub proof fn lemma_cell_index_injective(
    size: Size,
    x: int,
    y: int,
    z: int,
    x2: int,
    y2: int,
    z2: int,
)
    requires
        0 <= y < size.y,
        0 <= z < size.z,
        0 <= y2 < size.y,
        0 <= z2 < size.z,
        cell_index(size, x, y, z) == cell_index(size, x2, y2, z2),
    ensures
        x == x2,
        y == y2,
        z == z2,
{
    lemma_mixed_radix(x * size.y + y, z, x2 * size.y + y2, z2, size.z as int);
    lemma_mixed_radix(x, y, x2, y2, size.y as int);
}

/// The cell at `(x, y, z)` holds 0 where no voxel stands there, and else
/// the value of the colour of the last voxel that does.
pub proof fn lemma_grid_cell(
    size: Size,
    table: Seq<Color>,
    palette: Seq<Color>,
    voxels: Seq<Voxel>,
    x: int,
    y: int,
    z: int,
)
    requires
        all_inside(size, voxels),
        0 <= x < size.x,
        0 <= y < size.y,
        0 <= z < size.z,
    ensures
        grid_cells(size, table, palette, voxels)[cell_index(size, x, y, z)] == match voxel_at(
            voxels,
            x,
            y,
            z,
        ) {
            Some(v) => cell_value(table, palette[v.i as int]),
            None => 0usize,
        },
    decreases voxels.len(),
{
    lemma_cell_index_in_grid(size, x, y, z);
    if voxels.len() > 0 {
        let front = voxels.drop_last();
        let v = voxels.last();
        assert(all_inside(size, front)) by {
            assert forall|k: int| 0 <= k < front.len() implies size.holds(#[trigger] front[k]) by {
                assert(front[k] == voxels[k]);
            }
        }
        assert(size.holds(voxels[voxels.len() - 1]));
        lemma_grid_len(size, table, palette, front);
        lemma_grid_cell(size, table, palette, front, x, y, z);
        lemma_cell_index_in_grid(size, v.x as int, v.y as int, v.z as int);
        if cell_index(size, v.x as int, v.y as int, v.z as int) == cell_index(size, x, y, z) {
            lemma_cell_index_injective(size, v.x as int, v.y as int, v.z as int, x, y, z);
        }
    }
}

/// The cell that stands at place `i` of the flattened grid.
pub open spec fn cell_place(size: Size, i: int) -> (int, int, int) {
    ((i / (size.z as int)) / (size.y as int), (i / (size.z as int)) % (size.y as int), i % (
    size.z as int))
}

/// Every place of the flattened grid is the place of a cell of the box:
/// the flattening leaves no gap.
pub proof fn lemma_every_place_is_a_cell(size: Size, i: int)
    requires
        0 <= i < size.volume(),
    ensures
        0 <= cell_place(size, i).0 < size.x,
        0 <= cell_place(size, i).1 < size.y,
        0 <= cell_place(size, i).2 < size.z,
        cell_index(size, cell_place(size, i).0, cell_place(size, i).1, cell_place(size, i).2)
            == i,
{
    let dx = size.x as int;
    let dy = size.y as int;
    let dz = size.z as int;
    assert(dx > 0 && dy > 0 && dz > 0) by (nonlinear_arith)
        requires
            0 <= i < dx * dy * dz,
            0 <= dx,
            0 <= dy,
            0 <= dz,
    ;
    let row = i / dz;
    let z = i % dz;
    vstd::arithmetic::div_mod::lemma_fundamental_div_mod(i, dz);
    assert(0 <= row < dx * dy) by (nonlinear_arith)
        requires
            i == dz * row + z,
            0 <= z < dz,
            0 <= i < dx * dy * dz,
    ;
    let x = row / dy;
    let y = row % dy;
    vstd::arithmetic::div_mod::lemma_fundamental_div_mod(row, dy);
    assert(0 <= x < dx) by (nonlinear_arith)
        requires
            row == dy * x + y,
            0 <= y < dy,
            0 <= row < dx * dy,
    ;
    assert((x * dy + y) * dz + z == i) by (nonlinear_arith)
        requires
            row == dy * x + y,
            i == dz * row + z,
    ;
}

} // verus!
