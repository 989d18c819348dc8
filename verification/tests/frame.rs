use voxel_dat::{encode_frame, Color, EncodeError, Model, Size, Voxel};

fn rgb(r: u8, g: u8, b: u8) -> Color {
    Color { r, g, b }
}

fn distinct_palette() -> Vec<Color> {
    (0..256usize).map(|k| rgb(k as u8, (k / 2) as u8, (255 - k) as u8)).collect()
}

fn row_of_colours(n: usize) -> Model {
    let mut voxels = Vec::new();
    for k in 0..n {
        voxels.push(Voxel { x: (k / 16) as u8, y: (k % 16) as u8, z: 0, i: k as u8 });
    }
    Model { size: Size { x: 16, y: 16, z: 1 }, voxels }
}

struct Shown {
    size: (usize, usize, usize),
    cells: Vec<Option<Color>>,
}

fn read_frame(bytes: &[u8], with_table: bool) -> Shown {
    assert_eq!(&bytes[..2], &[0, 0]);
    let size = (bytes[2] as usize + 1, bytes[3] as usize + 1, bytes[4] as usize + 1);
    let mut pos = 5;
    let mut table = Vec::new();
    if with_table {
        let count = bytes[5] as usize;
        pos = 6;
        for _ in 0..count {
            table.push(rgb(bytes[pos], bytes[pos + 1], bytes[pos + 2]));
            pos += 3;
        }
    }
    let mut cells = Vec::new();
    while pos < bytes.len() {
        if bytes[pos] == 0 {
            for _ in 0..bytes[pos + 1] {
                cells.push(None);
            }
            pos += 2;
        } else if !with_table {
            assert_eq!(bytes[pos], 1);
            cells.push(Some(rgb(bytes[pos + 1], bytes[pos + 2], bytes[pos + 3])));
            pos += 4;
        } else if table.len() < 128 {
            assert!(bytes[pos] >= 128);
            for _ in 0..(bytes[pos] - 127) {
                cells.push(Some(table[bytes[pos + 1] as usize - 1]));
            }
            pos += 2;
        } else {
            cells.push(Some(table[bytes[pos] as usize - 1]));
            pos += 1;
        }
    }
    Shown { size, cells }
}

fn shown_by(model: &Model, palette: &[Color]) -> Vec<Option<Color>> {
    let (dy, dz) = (model.size.y as usize, model.size.z as usize);
    let mut cells = vec![None; model.size.x as usize * dy * dz];
    for v in &model.voxels {
        cells[(v.x as usize * dy + v.y as usize) * dz + v.z as usize] = Some(palette[v.i as usize]);
    }
    cells
}

#[test]
fn small_model_gives_header_table_and_body() {
    let palette = distinct_palette();
    let model = Model {
        size: Size { x: 2, y: 1, z: 2 },
        voxels: vec![Voxel { x: 0, y: 0, z: 1, i: 3 }, Voxel { x: 1, y: 0, z: 0, i: 5 }],
    };
    let frame = encode_frame(&model, &palette).unwrap();
    assert_eq!(
        frame,
        vec![0, 0, 1, 0, 1, 2, 3, 1, 252, 5, 2, 250, 0, 1, 128, 1, 128, 2, 0, 1]
    );
}

#[test]
fn model_without_voxels_has_an_empty_table() {
    let model = Model { size: Size { x: 3, y: 4, z: 5 }, voxels: Vec::new() };
    let frame = encode_frame(&model, &Vec::new()).unwrap();
    assert_eq!(frame, vec![0, 0, 2, 3, 4, 0, 0, 60]);
}

#[test]
fn largest_box_is_written_as_254() {
    let model = Model { size: Size { x: 255, y: 1, z: 255 }, voxels: Vec::new() };
    let frame = encode_frame(&model, &Vec::new()).unwrap();
    assert_eq!(&frame[..6], &[0, 0, 254, 0, 254, 0]);
    assert_eq!(frame.len(), 6 + 2 * 255);
    for pair in frame[6..].chunks(2) {
        assert_eq!(pair, &[0, 255]);
    }
}

#[test]
fn solid_cube_is_eight_runs() {
    let mut voxels = Vec::new();
    for x in 0..10u8 {
        for y in 0..10u8 {
            for z in 0..10u8 {
                voxels.push(Voxel { x, y, z, i: 0 });
            }
        }
    }
    let model = Model { size: Size { x: 10, y: 10, z: 10 }, voxels };
    let frame = encode_frame(&model, &vec![rgb(10, 20, 30)]).unwrap();
    let mut expected = vec![0, 0, 9, 9, 9, 1, 10, 20, 30];
    for _ in 0..7 {
        expected.extend([255, 1]);
    }
    expected.extend([231, 1]);
    assert_eq!(frame, expected);
}

#[test]
fn table_of_127_colours_uses_multi_mode() {
    let palette = distinct_palette();
    let frame = encode_frame(&row_of_colours(127), &palette).unwrap();
    assert_eq!(frame[5], 127);
    assert_eq!(frame.len(), 5 + 1 + 3 * 127 + 2 * 127 + 2);
    let body = &frame[6 + 3 * 127..];
    for k in 0..127 {
        assert_eq!(&body[2 * k..2 * k + 2], &[128, k as u8 + 1]);
    }
    assert_eq!(&body[254..], &[0, 129]);
}

#[test]
fn table_of_128_colours_uses_indexed_mode() {
    let palette = distinct_palette();
    let frame = encode_frame(&row_of_colours(128), &palette).unwrap();
    assert_eq!(frame[5], 128);
    assert_eq!(frame.len(), 5 + 1 + 3 * 128 + 128 + 2);
    let body = &frame[6 + 3 * 128..];
    for k in 0..128 {
        assert_eq!(body[k], k as u8 + 1);
    }
    assert_eq!(&body[128..], &[0, 128]);
}

#[test]
fn table_of_255_colours_still_has_a_palette_block() {
    let palette = distinct_palette();
    let frame = encode_frame(&row_of_colours(255), &palette).unwrap();
    assert_eq!(frame[5], 255);
    assert_eq!(frame.len(), 5 + 1 + 3 * 255 + 255 + 2);
    assert_eq!(&frame[6..9], &[0, 0, 255]);
    assert_eq!(&frame[frame.len() - 3..], &[255, 0, 1]);
}

#[test]
fn table_of_256_colours_uses_raw_colour_mode_without_palette_block() {
    let palette = distinct_palette();
    let frame = encode_frame(&row_of_colours(256), &palette).unwrap();
    assert_eq!(frame.len(), 5 + 4 * 256);
    for k in 0..256usize {
        let c = palette[k];
        assert_eq!(&frame[5 + 4 * k..9 + 4 * k], &[1, c.r, c.g, c.b]);
    }
}

#[test]
fn indexed_mode_does_not_merge_equal_neighbours() {
    let palette = distinct_palette();
    let mut model = row_of_colours(128);
    model.voxels.push(Voxel { x: 8, y: 0, z: 0, i: 127 });
    model.voxels.push(Voxel { x: 8, y: 1, z: 0, i: 127 });
    let frame = encode_frame(&model, &palette).unwrap();
    let body = &frame[6 + 3 * 128..];
    assert_eq!(&body[127..], &[128, 128, 128, 0, 126]);
}

#[test]
fn overwritten_colour_stays_in_the_table() {
    let palette = distinct_palette();
    let model = Model {
        size: Size { x: 1, y: 1, z: 1 },
        voxels: vec![Voxel { x: 0, y: 0, z: 0, i: 1 }, Voxel { x: 0, y: 0, z: 0, i: 2 }],
    };
    let frame = encode_frame(&model, &palette).unwrap();
    assert_eq!(frame, vec![0, 0, 0, 0, 0, 2, 1, 0, 254, 2, 1, 253, 128, 2]);
}

#[test]
fn axis_of_256_fails_with_dimension_overflow() {
    let palette = distinct_palette();
    for size in [(256, 10, 10), (10, 256, 10), (10, 10, 256)] {
        let model = Model {
            size: Size { x: size.0, y: size.1, z: size.2 },
            voxels: vec![Voxel { x: 0, y: 0, z: 0, i: 0 }],
        };
        assert_eq!(encode_frame(&model, &palette), Err(EncodeError::DimensionOverflow));
    }
}

#[test]
fn very_large_box_fails_without_being_built() {
    let model = Model {
        size: Size { x: u32::MAX, y: u32::MAX, z: u32::MAX },
        voxels: Vec::new(),
    };
    assert_eq!(encode_frame(&model, &Vec::new()), Err(EncodeError::DimensionOverflow));
}

#[test]
fn stray_voxel_fails_with_voxel_out_of_bounds() {
    let palette = distinct_palette();
    let model = Model {
        size: Size { x: 4, y: 4, z: 4 },
        voxels: vec![Voxel { x: 3, y: 3, z: 3, i: 0 }, Voxel { x: 3, y: 4, z: 3, i: 0 }],
    };
    assert_eq!(encode_frame(&model, &palette), Err(EncodeError::VoxelOutOfBounds));
}

#[test]
fn decoding_gives_back_the_model_in_multi_mode() {
    let palette = distinct_palette();
    let mut voxels = Vec::new();
    for x in 0..9u8 {
        for y in 0..7u8 {
            for z in 0..200u8 {
                if (x as u32 + y as u32 * 3 + z as u32 / 150) % 4 != 0 {
                    voxels.push(Voxel { x, y, z, i: (x + y) % 5 });
                }
            }
        }
    }
    let model = Model { size: Size { x: 9, y: 7, z: 200 }, voxels };
    let frame = encode_frame(&model, &palette).unwrap();
    assert_eq!(frame[5], 5);
    let shown = read_frame(&frame, true);
    assert_eq!(shown.size, (9, 7, 200));
    assert_eq!(shown.cells, shown_by(&model, &palette));
}

#[test]
fn decoding_gives_back_the_model_in_indexed_mode() {
    let palette = distinct_palette();
    let mut voxels = Vec::new();
    for x in 0..20u8 {
        for y in 0..20u8 {
            if (x + y) % 3 != 0 {
                voxels.push(Voxel { x, y, z: x % 2, i: x.wrapping_mul(20).wrapping_add(y) % 200 });
            }
        }
    }
    let model = Model { size: Size { x: 20, y: 20, z: 2 }, voxels };
    let frame = encode_frame(&model, &palette).unwrap();
    assert!(frame[5] >= 128);
    let shown = read_frame(&frame, true);
    assert_eq!(shown.size, (20, 20, 2));
    assert_eq!(shown.cells, shown_by(&model, &palette));
}

#[test]
fn decoding_gives_back_the_model_in_raw_colour_mode() {
    let palette = distinct_palette();
    let mut voxels = Vec::new();
    for x in 0..20u8 {
        for y in 0..20u8 {
            voxels.push(Voxel { x, y, z: 0, i: ((x as u32 * 20 + y as u32) % 256) as u8 });
            if (x + y) % 5 != 0 {
                voxels.push(Voxel { x, y, z: 2, i: 255 - y });
            }
        }
    }
    let model = Model { size: Size { x: 20, y: 20, z: 3 }, voxels };
    let frame = encode_frame(&model, &palette).unwrap();
    assert_eq!(&frame[..9], &[0, 0, 19, 19, 2, 1, 0, 0, 255]);
    let shown = read_frame(&frame, false);
    assert_eq!(shown.size, (20, 20, 3));
    assert_eq!(shown.cells, shown_by(&model, &palette));
}
