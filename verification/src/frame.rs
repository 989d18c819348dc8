//! The frame codec: one model in, the bytes of one frame out.
//!
//! A frame is
//!
//! | offset | bytes | meaning |
//! |---|---|---|
//! | 0 | 2 | reserved, both 0 |
//! | 2 | 3 | the length of the X, Y and Z axis, each minus one |
//! | 5 | 1 | the number of colours in the table, if below 256 |
//! | 6 | 3 each | the colours of the table, if there are fewer than 256 |
//! | .. | .. | the run-length encoded body |
//!
//! Where the LZMA stream of the whole frame, behind the two marker bytes
//! `[0, 254]`, is strictly shorter than the frame, it takes the frame's place.

use vstd::prelude::*;
use crate::error::EncodeError;
use crate::grid::{
    all_inside,
    cell_index,
    cell_place,
    grid_cells,
    lemma_cell_index_in_grid,
    lemma_every_place_is_a_cell,
    lemma_grid_cell,
    lemma_grid_cells_fit,
    lemma_grid_len,
    linearize,
    rejection,
    voxel_at,
};
use crate::model::{voxel_colors, Color, Model, Size, Voxel};
use crate::palette::{
    build_palette,
    lemma_contained_has_first,
    lemma_palette_table_first_seen_order,
    palette_table,
};
use crate::rle::{
    body_bytes,
    cell_colors,
    cells_fit,
    decode_body,
    encode_runs,
    lemma_body_round_trip,
    mode_for,
    Mode,
};

verus! {

/// The effort level handed to the compressor: the highest it knows.
pub const MAX_EFFORT: i32 = 9;

/// The five header bytes of a frame.
pub open spec fn header_bytes(size: Size) -> Seq<u8> {
    seq![0u8, 0u8, (size.x - 1) as u8, (size.y - 1) as u8, (size.z - 1) as u8]
}

/// The colours of a table, three bytes each: red, green, blue.
pub open spec fn palette_bytes(table: Seq<Color>) -> Seq<u8> {
    Seq::new(
        3 * table.len(),
        |i: int|
            if i % 3 == 0 {
                table[i / 3].r
            } else if i % 3 == 1 {
                table[i / 3].g
            } else {
                table[i / 3].b
            },
    )
}

/// The palette block of a frame: the number of colours and the colours, or
/// nothing at all where the table holds 256 colours or more.
pub open spec fn palette_block(table: Seq<Color>) -> Seq<u8> {
    if table.len() < 256 {
        seq![table.len() as u8] + palette_bytes(table)
    } else {
        Seq::empty()
    }
}

/// The frame of a grid `cells` in a box `size` with the colour table `table`.
pub open spec fn frame_bytes(size: Size, table: Seq<Color>, cells: Seq<usize>) -> Seq<u8> {
    header_bytes(size) + palette_block(table) + body_bytes(mode_for(table.len()), table, cells)
}

/// The colour table of a voxel list.
pub open spec fn model_table(voxels: Seq<Voxel>, palette: Seq<Color>) -> Seq<Color> {
    palette_table(voxel_colors(voxels, palette))
}

/// The grid of a model, with its own colour table.
pub open spec fn model_cells(size: Size, voxels: Seq<Voxel>, palette: Seq<Color>) -> Seq<usize> {
    grid_cells(size, model_table(voxels, palette), palette, voxels)
}

/// The frame of a model, before compression is tried.
pub open spec fn model_frame(size: Size, voxels: Seq<Voxel>, palette: Seq<Color>) -> Seq<u8> {
    frame_bytes(size, model_table(voxels, palette), model_cells(size, voxels, palette))
}

/// The grid of a model holds no value beyond the length of the model's
/// colour table.
pub proof fn lemma_model_cells_fit(size: Size, voxels: Seq<Voxel>, palette: Seq<Color>)
    requires
        all_inside(size, voxels),
    ensures
        cells_fit(model_cells(size, voxels, palette), model_table(voxels, palette).len()),
{
    let colors = voxel_colors(voxels, palette);
    let table = model_table(voxels, palette);
    lemma_palette_table_first_seen_order(colors);
    assert forall|k: int| 0 <= k < voxels.len() implies table.contains(
        palette[(#[trigger] voxels[k]).i as int],
    ) by {
        assert(colors[k] == palette[voxels[k].i as int]);
        assert(colors.contains(colors[k]));
        assert(table.contains(colors[k]) <==> colors.contains(colors[k]));
    }
    lemma_grid_cells_fit(size, table, palette, voxels);
}

/// Encodes one model as a frame, without trying compression.
///
/// Fails with `DimensionOverflow` where an axis is longer than 255, before
/// anything else is done, and with `VoxelOutOfBounds` where a voxel lies
/// outside the box.
pub fn encode_frame(model: &Model, palette: &Vec<Color>) -> (res: Result<Vec<u8>, EncodeError>)
    requires
        model.encodable(palette@),
    ensures
        match rejection(model.size, model.voxels@) {
            Some(e) => res == Err::<Vec<u8>, EncodeError>(e),
            None => res.is_ok() && res.unwrap()@ == model_frame(
                model.size,
                model.voxels@,
                palette@,
            ),
        },
{
    let size = model.size;
    if size.x > 255 || size.y > 255 || size.z > 255 {
        return Err(EncodeError::DimensionOverflow);
    }
    let table = build_palette(&model.voxels, palette);
    let cells = match linearize(model, palette, &table) {
        Ok(cells) => cells,
        Err(e) => {
            return Err(e);
        },
    };
    let mut out: Vec<u8> = Vec::new();
    out.push(0);
    out.push(0);
    out.push((size.x - 1) as u8);
    out.push((size.y - 1) as u8);
    out.push((size.z - 1) as u8);
    assert(out@ =~= header_bytes(size));
    if table.len() < 256 {
        out.push(table.len() as u8);
        for k in 0..table.len()
            invariant
                table@.len() < 256,
                out@ == header_bytes(size) + (seq![table@.len() as u8] + palette_bytes(
                    table@.take(k as int),
                )),
        {
            let color = table[k];
            let ghost before = out@;
            out.push(color.r);
            out.push(color.g);
            out.push(color.b);
            proof {
                let shorter = palette_bytes(table@.take(k as int));
                let longer = palette_bytes(table@.take(k + 1));
                assert(longer =~= shorter + seq![color.r, color.g, color.b]);
                assert(out@ =~= header_bytes(size) + (seq![table@.len() as u8] + longer));
            }
        }
        assert(table@.take(table@.len() as int) =~= table@);
    } else {
        assert(out@ =~= header_bytes(size) + palette_block(table@));
    }
    proof {
        lemma_model_cells_fit(size, model.voxels@, palette@);
    }
    encode_runs(&cells, &table, &mut out);
    Ok(out)
}

/// The stream that the LZMA compressor gives for `data` at effort `level`,
/// where it succeeds: five property bytes, the length of `data` in eight
/// bytes, and the compressed data.
pub uninterp spec fn lzma_stream(data: Seq<u8>, level: i32) -> Seq<u8>;

/// Calls `gmod_lzma::compress`. That function fixes every setting of the
/// encoder but the level; it also hands over the number of processors, which
/// the encoder, built for one thread, does not read. So a stream that the
/// call returns depends on `data` and `level` alone, and the contract gives
/// that stream its name. Nothing is claimed of when the call fails: it
/// reports failure with a code, also where it could not get memory. The
/// levels that the encoder documents are 0 to 9.
#[verifier::external_body]
fn lzma_compress(data: &Vec<u8>, level: i32) -> (res: Result<Vec<u8>, u64>)
    requires
        0 <= level <= 9,
    ensures
        res matches Ok(stream) ==> stream@ == lzma_stream(data@, level),
{
    match gmod_lzma::compress(data.as_slice(), level) {
        Ok(stream) => Ok(stream),
        Err(code) => Err(code as u64),
    }
}

/// A stream behind the two bytes that mark a compressed frame.
pub open spec fn marked_stream(stream: Seq<u8>) -> Seq<u8> {
    seq![0u8, 254u8] + stream
}

/// The shorter of a frame and its marked stream; the frame where neither is
/// shorter.
pub open spec fn shorter_form(frame: Seq<u8>, stream: Seq<u8>) -> Seq<u8> {
    if marked_stream(stream).len() < frame.len() {
        marked_stream(stream)
    } else {
        frame
    }
}

/// What is written for a model where the compressor succeeds: the model's
/// frame, or the marked stream of that frame where it is strictly shorter.
pub open spec fn model_output(size: Size, voxels: Seq<Voxel>, palette: Seq<Color>) -> Seq<u8> {
    shorter_form(
        model_frame(size, voxels, palette),
        lzma_stream(model_frame(size, voxels, palette), MAX_EFFORT),
    )
}

/// What is written is never longer than the frame, and it is the marked
/// stream exactly where that is strictly shorter than the frame.
pub proof fn lemma_shorter_form(frame: Seq<u8>, stream: Seq<u8>)
    ensures
        shorter_form(frame, stream).len() <= frame.len(),
        stream.len() + 2 < frame.len() ==> shorter_form(frame, stream) == marked_stream(stream),
        stream.len() + 2 >= frame.len() ==> shorter_form(frame, stream) == frame,
{
}

/// Decides what is written for a frame, given what the compressor returned
/// for it: the marked stream where that is strictly shorter, else the frame
/// itself. A failure of the compressor is passed on as `CompressionFailure`;
/// the frame is never used in place of a stream that could not be made.
pub fn select_output(frame: Vec<u8>, compressed: Result<Vec<u8>, u64>) -> (res: Result<
    Vec<u8>,
    EncodeError,
>)
    ensures
        match compressed {
            Ok(stream) => res.is_ok() && res.unwrap()@ == shorter_form(frame@, stream@),
            Err(code) => res == Err::<Vec<u8>, EncodeError>(
                EncodeError::CompressionFailure { code },
            ),
        },
{
    match compressed {
        Err(code) => Err(EncodeError::CompressionFailure { code }),
        Ok(stream) => {
            let mut stream = stream;
            let ghost given = stream@;
            if stream.len() < frame.len() && frame.len() - stream.len() > 2 {
                let mut out: Vec<u8> = Vec::new();
                out.push(0);
                out.push(254);
                out.append(&mut stream);
                assert(out@ =~= marked_stream(given));
                Ok(out)
            } else {
                Ok(frame)
            }
        },
    }
}

/// Encodes one model: its frame, or the marked LZMA stream of its frame
/// where that is strictly shorter.
///
/// Fails with `DimensionOverflow` where an axis is longer than 255, with
/// `VoxelOutOfBounds` where a voxel lies outside the box, and with
/// `CompressionFailure` where the compressor reports an error.
pub fn convert_model_to_dat(model: &Model, palette: &Vec<Color>) -> (res: Result<
    Vec<u8>,
    EncodeError,
>)
    requires
        model.encodable(palette@),
    ensures
        match rejection(model.size, model.voxels@) {
            Some(e) => res == Err::<Vec<u8>, EncodeError>(e),
            None => match res {
                Ok(out) => out@ == model_output(model.size, model.voxels@, palette@),
                Err(e) => e is CompressionFailure,
            },
        },
{
    let frame = match encode_frame(model, palette) {
        Ok(frame) => frame,
        Err(e) => {
            return Err(e);
        },
    };
    let compressed = lzma_compress(&frame, MAX_EFFORT);
    select_output(frame, compressed)
}

/// What a frame shows: the lengths of the three axes and, for each cell of
/// the flattened grid, its colour or nothing.
pub struct Picture {
    pub x: nat,
    pub y: nat,
    pub z: nat,
    pub cells: Seq<Option<Color>>,
}

/// The first `count` colours that `bytes` holds, three bytes each.
pub open spec fn table_from_bytes(bytes: Seq<u8>, count: nat) -> Seq<Color> {
    Seq::new(
        count,
        |k: int| Color { r: bytes[3 * k], g: bytes[3 * k + 1], b: bytes[3 * k + 2] },
    )
}

/// What a decoder reads from the body of a frame whose header it has read.
/// `with_table` says whether a palette block stands before the body; the
/// frame itself does not say so.
pub open spec fn decode_cells(bytes: Seq<u8>, with_table: bool) -> Option<Seq<Option<Color>>> {
    if !with_table {
        decode_body(Mode::RawColor, Seq::empty(), bytes.skip(5))
    } else if bytes.len() < 6 || bytes.len() < 6 + 3 * bytes[5] {
        None
    } else {
        decode_body(
            mode_for(bytes[5] as nat),
            table_from_bytes(bytes.skip(6), bytes[5] as nat),
            bytes.skip(6 + 3 * bytes[5]),
        )
    }
}

/// What a decoder reads from an uncompressed frame: the picture, or `None`
/// where the bytes are no frame or do not fill the box exactly.
pub open spec fn decode_frame(bytes: Seq<u8>, with_table: bool) -> Option<Picture> {
    if bytes.len() < 5 || bytes[0] != 0 || bytes[1] != 0 {
        None
    } else {
        match decode_cells(bytes, with_table) {
            Some(cells) => if cells.len() == (bytes[2] + 1) * (bytes[3] + 1) * (bytes[4] + 1) {
                Some(
                    Picture {
                        x: (bytes[2] + 1) as nat,
                        y: (bytes[3] + 1) as nat,
                        z: (bytes[4] + 1) as nat,
                        cells,
                    },
                )
            } else {
                None
            },
            None => None,
        }
    }
}

/// A raw-colour body carries its colours itself: the table plays no part in
/// decoding it.
pub proof fn lemma_raw_body_needs_no_table(table: Seq<Color>, other: Seq<Color>, bytes: Seq<u8>)
    ensures
        decode_body(Mode::RawColor, table, bytes) == decode_body(Mode::RawColor, other, bytes),
    decreases bytes.len(),
{
    if bytes.len() == 0 {
    } else if bytes[0] == 0 {
        if bytes.len() >= 2 {
            lemma_raw_body_needs_no_table(table, other, bytes.skip(2));
        }
    } else if bytes[0] == 1 && bytes.len() >= 4 {
        lemma_raw_body_needs_no_table(table, other, bytes.skip(4));
    }
}

/// Decoding a frame gives back the box and what each cell of the grid
/// shows, whatever the size of the colour table.
pub proof fn lemma_frame_round_trip(size: Size, table: Seq<Color>, cells: Seq<usize>)
    requires
        size.nonempty(),
        size.fits_header(),
        cells.len() == size.volume(),
        cells_fit(cells, table.len()),
    ensures
        decode_frame(frame_bytes(size, table, cells), table.len() < 256) == Some(
            Picture {
                x: size.x as nat,
                y: size.y as nat,
                z: size.z as nat,
                cells: cell_colors(table, cells),
            },
        ),
{
    let mode = mode_for(table.len());
    let header = header_bytes(size);
    let block = palette_block(table);
    let body = body_bytes(mode, table, cells);
    let bytes = frame_bytes(size, table, cells);
    lemma_body_round_trip(mode, table, cells);
    assert(bytes[0] == 0 && bytes[1] == 0);
    assert(bytes[2] + 1 == size.x && bytes[3] + 1 == size.y && bytes[4] + 1 == size.z);
    if table.len() < 256 {
        let count = table.len() as int;
        assert(bytes[5] == count);
        assert(bytes.skip(6 + 3 * count) =~= body);
        assert(table_from_bytes(bytes.skip(6), count as nat) =~= table) by {
            assert forall|k: int| 0 <= k < count implies table_from_bytes(bytes.skip(6), count as nat)[k]
                == table[k] by {
                assert(bytes.skip(6)[3 * k] == palette_bytes(table)[3 * k]);
                assert(bytes.skip(6)[3 * k + 1] == palette_bytes(table)[3 * k + 1]);
                assert(bytes.skip(6)[3 * k + 2] == palette_bytes(table)[3 * k + 2]);
            }
        }
    } else {
        assert(bytes.skip(5) =~= body);
        lemma_raw_body_needs_no_table(table, Seq::empty(), body);
    }
}

/// What the model shows at `(x, y, z)`: the colour of the last voxel that
/// stands there, or nothing.
pub open spec fn shown_at(voxels: Seq<Voxel>, palette: Seq<Color>, x: int, y: int, z: int) -> Option<
    Color,
> {
    match voxel_at(voxels, x, y, z) {
        Some(v) => Some(palette[v.i as int]),
        None => None,
    }
}

/// A colour table is no longer than the colours it was built from.
pub proof fn lemma_palette_table_len(colors: Seq<Color>)
    ensures
        palette_table(colors).len() <= colors.len(),
    decreases colors.len(),
{
    if colors.len() > 0 {
        lemma_palette_table_len(colors.drop_last());
    }
}

/// The voxel that decides a cell is one of the list.
proof fn lemma_voxel_at_is_listed(voxels: Seq<Voxel>, x: int, y: int, z: int)
    ensures
        voxel_at(voxels, x, y, z) matches Some(v) ==> voxels.contains(v),
    decreases voxels.len(),
{
    if voxels.len() > 0 {
        let front = voxels.drop_last();
        lemma_voxel_at_is_listed(front, x, y, z);
        if let Some(v) = voxel_at(voxels, x, y, z) {
            if voxels.last() == v {
                assert(voxels[voxels.len() - 1] == v);
            } else {
                let k = choose|k: int| 0 <= k < front.len() && front[k] == v;
                assert(voxels[k] == v);
            }
        }
    }
}

/// Encoding a model loses nothing. A decoder reads from the frame the
/// model's box and, at every place of it, the colour of the voxel that the
/// model shows there, or nothing where the model shows none. The last two
/// clauses say the same of the cells, once by their coordinates and once by
/// their place in the flattened grid. The voxel list is one that a `Vec`
/// can hold.
pub proof fn lemma_model_round_trip(size: Size, voxels: Seq<Voxel>, palette: Seq<Color>)
    requires
        size.nonempty(),
        size.fits_header(),
        all_inside(size, voxels),
        voxels.len() <= usize::MAX,
    ensures
        decode_frame(
            model_frame(size, voxels, palette),
            model_table(voxels, palette).len() < 256,
        ) matches Some(picture) && {
            &&& picture.x == size.x
            &&& picture.y == size.y
            &&& picture.z == size.z
            &&& picture.cells.len() == size.volume()
            &&& forall|x: int, y: int, z: int|
                0 <= x < size.x && 0 <= y < size.y && 0 <= z < size.z ==> picture.cells[cell_index(
                    size,
                    x,
                    y,
                    z,
                )] == #[trigger] shown_at(voxels, palette, x, y, z)
            &&& forall|i: int|
                0 <= i < size.volume() ==> #[trigger] picture.cells[i] == shown_at(
                    voxels,
                    palette,
                    cell_place(size, i).0,
                    cell_place(size, i).1,
                    cell_place(size, i).2,
                )
        },
{
    let colors = voxel_colors(voxels, palette);
    let table = model_table(voxels, palette);
    let cells = model_cells(size, voxels, palette);
    lemma_grid_len(size, table, palette, voxels);
    lemma_model_cells_fit(size, voxels, palette);
    lemma_frame_round_trip(size, table, cells);
    lemma_palette_table_len(colors);
    lemma_palette_table_first_seen_order(colors);
    let shown = cell_colors(table, cells);
    assert forall|x: int, y: int, z: int|
        0 <= x < size.x && 0 <= y < size.y && 0 <= z < size.z implies shown[cell_index(
        size,
        x,
        y,
        z,
    )] == #[trigger] shown_at(voxels, palette, x, y, z) by {
        lemma_cell_index_in_grid(size, x, y, z);
        lemma_grid_cell(size, table, palette, voxels, x, y, z);
        lemma_voxel_at_is_listed(voxels, x, y, z);
        if let Some(v) = voxel_at(voxels, x, y, z) {
            let k = choose|k: int| 0 <= k < voxels.len() && voxels[k] == v;
            let color = palette[v.i as int];
            assert(colors[k] == color);
            assert(colors.contains(color));
            assert(table.contains(color) <==> colors.contains(color));
            lemma_contained_has_first(table, color);
        }
    }
    assert forall|i: int| 0 <= i < size.volume() implies #[trigger] shown[i] == shown_at(
        voxels,
        palette,
        cell_place(size, i).0,
        cell_place(size, i).1,
        cell_place(size, i).2,
    ) by {
        lemma_every_place_is_a_cell(size, i);
        let (x, y, z) = cell_place(size, i);
        assert(shown[cell_index(size, x, y, z)] == shown_at(voxels, palette, x, y, z));
    }
}

} // verus!
