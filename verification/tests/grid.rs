use voxel_dat::{linearize, Color, EncodeError, Model, Size, Voxel};

fn rgb(r: u8, g: u8, b: u8) -> Color {
    Color { r, g, b }
}

fn model(x: u32, y: u32, z: u32, voxels: Vec<Voxel>) -> Model {
    Model { size: Size { x, y, z }, voxels }
}

#[test]
fn cells_run_with_x_outside_and_z_inside() {
    let palette = vec![rgb(1, 0, 0), rgb(2, 0, 0), rgb(3, 0, 0)];
    let table = palette.clone();
    let m = model(
        2,
        3,
        4,
        vec![
            Voxel { x: 0, y: 0, z: 1, i: 0 },
            Voxel { x: 0, y: 2, z: 0, i: 1 },
            Voxel { x: 1, y: 0, z: 0, i: 2 },
            Voxel { x: 1, y: 2, z: 3, i: 0 },
        ],
    );
    let cells = linearize(&m, &palette, &table).unwrap();
    let mut expected = vec![0usize; 24];
    expected[1] = 1;
    expected[8] = 2;
    expected[12] = 3;
    expected[23] = 1;
    assert_eq!(cells, expected);
}

#[test]
fn model_without_voxels_is_all_empty() {
    let m = model(3, 2, 1, Vec::new());
    assert_eq!(linearize(&m, &Vec::new(), &Vec::new()), Ok(vec![0usize; 6]));
}

#[test]
fn later_voxel_decides_a_shared_cell() {
    let palette = vec![rgb(1, 0, 0), rgb(2, 0, 0)];
    let table = palette.clone();
    let m = model(
        1,
        1,
        2,
        vec![
            Voxel { x: 0, y: 0, z: 1, i: 0 },
            Voxel { x: 0, y: 0, z: 1, i: 1 },
        ],
    );
    assert_eq!(linearize(&m, &palette, &table), Ok(vec![0, 2]));
}

#[test]
fn cell_holds_table_position_plus_one() {
    let palette = vec![rgb(1, 0, 0), rgb(2, 0, 0), rgb(3, 0, 0)];
    let table = vec![rgb(3, 0, 0), rgb(1, 0, 0)];
    let m = model(
        1,
        1,
        3,
        vec![
            Voxel { x: 0, y: 0, z: 0, i: 0 },
            Voxel { x: 0, y: 0, z: 2, i: 2 },
        ],
    );
    assert_eq!(linearize(&m, &palette, &table), Ok(vec![2, 0, 1]));
}

#[test]
fn axis_of_256_overflows_on_each_axis() {
    let palette = vec![rgb(1, 0, 0)];
    for size in [(256, 1, 1), (1, 256, 1), (1, 1, 256), (1000, 1000, 1000)] {
        let m = model(size.0, size.1, size.2, Vec::new());
        assert_eq!(linearize(&m, &palette, &palette), Err(EncodeError::DimensionOverflow));
    }
}

#[test]
fn axis_of_255_is_accepted() {
    let m = model(255, 1, 1, vec![Voxel { x: 254, y: 0, z: 0, i: 0 }]);
    let palette = vec![rgb(1, 0, 0)];
    let cells = linearize(&m, &palette, &palette).unwrap();
    assert_eq!(cells.len(), 255);
    assert_eq!(cells[254], 1);
}

#[test]
fn overflow_is_reported_before_a_stray_voxel() {
    let palette = vec![rgb(1, 0, 0)];
    let m = model(256, 1, 1, vec![Voxel { x: 0, y: 5, z: 0, i: 0 }]);
    assert_eq!(linearize(&m, &palette, &palette), Err(EncodeError::DimensionOverflow));
}

#[test]
fn voxel_outside_the_box_is_refused() {
    let palette = vec![rgb(1, 0, 0)];
    for v in [
        Voxel { x: 2, y: 0, z: 0, i: 0 },
        Voxel { x: 0, y: 3, z: 0, i: 0 },
        Voxel { x: 0, y: 0, z: 4, i: 0 },
        Voxel { x: 255, y: 255, z: 255, i: 0 },
    ] {
        let m = model(2, 3, 4, vec![Voxel { x: 1, y: 2, z: 3, i: 0 }, v]);
        assert_eq!(linearize(&m, &palette, &palette), Err(EncodeError::VoxelOutOfBounds));
    }
}
