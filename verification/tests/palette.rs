use voxel_dat::palette::find_color;
use voxel_dat::{build_palette, get_color_index, Color, Voxel};

fn rgb(r: u8, g: u8, b: u8) -> Color {
    Color { r, g, b }
}

fn at(i: u8) -> Voxel {
    Voxel { x: 0, y: 0, z: 0, i }
}

#[test]
fn empty_voxel_list_gives_empty_table() {
    let palette = vec![rgb(1, 2, 3)];
    assert_eq!(build_palette(&Vec::new(), &palette), Vec::<Color>::new());
}

#[test]
fn table_keeps_first_seen_order_without_repeats() {
    let palette = vec![rgb(0, 0, 0), rgb(10, 0, 0), rgb(0, 20, 0), rgb(0, 0, 30)];
    let voxels = vec![at(2), at(0), at(2), at(3), at(0), at(3), at(2)];
    let table = build_palette(&voxels, &palette);
    assert_eq!(table, vec![rgb(0, 20, 0), rgb(0, 0, 0), rgb(0, 0, 30)]);
}

#[test]
fn table_is_not_sorted() {
    let palette = vec![rgb(1, 1, 1), rgb(2, 2, 2), rgb(3, 3, 3)];
    let voxels = vec![at(2), at(1), at(0)];
    let table = build_palette(&voxels, &palette);
    assert_eq!(table, vec![rgb(3, 3, 3), rgb(2, 2, 2), rgb(1, 1, 1)]);
}

#[test]
fn equal_colours_under_different_indices_share_one_entry() {
    let palette = vec![rgb(7, 8, 9), rgb(1, 1, 1), rgb(7, 8, 9)];
    let voxels = vec![at(0), at(2), at(1), at(2)];
    let table = build_palette(&voxels, &palette);
    assert_eq!(table, vec![rgb(7, 8, 9), rgb(1, 1, 1)]);
    assert_eq!(get_color_index(&table, &palette, 0), 0);
    assert_eq!(get_color_index(&table, &palette, 2), 0);
    assert_eq!(get_color_index(&table, &palette, 1), 1);
}

#[test]
fn table_has_no_two_equal_entries() {
    let mut palette = Vec::new();
    for k in 0..=255u8 {
        palette.push(rgb(k % 7, k % 5, k % 3));
    }
    let mut voxels = Vec::new();
    for round in 0..3u32 {
        for k in 0..=255u8 {
            voxels.push(at(k.wrapping_mul(37).wrapping_add(round as u8)));
        }
    }
    let table = build_palette(&voxels, &palette);
    assert_eq!(table.len(), 105);
    for a in 0..table.len() {
        for b in (a + 1)..table.len() {
            assert_ne!(table[a], table[b]);
        }
    }
    let mut expected: Vec<Color> = Vec::new();
    for v in &voxels {
        let c = palette[v.i as usize];
        if !expected.contains(&c) {
            expected.push(c);
        }
    }
    assert_eq!(table, expected);
}

#[test]
fn index_is_the_position_of_the_first_match() {
    let colors = vec![rgb(5, 5, 5), rgb(6, 6, 6), rgb(5, 5, 5)];
    let palette = vec![rgb(6, 6, 6), rgb(5, 5, 5)];
    assert_eq!(get_color_index(&colors, &palette, 0), 1);
    assert_eq!(get_color_index(&colors, &palette, 1), 0);
}

#[test]
fn index_of_a_missing_colour_is_zero() {
    let colors = vec![rgb(5, 5, 5), rgb(6, 6, 6)];
    let palette = vec![rgb(9, 9, 9)];
    assert_eq!(get_color_index(&colors, &palette, 0), 0);
    assert_eq!(get_color_index(&Vec::new(), &palette, 0), 0);
}

#[test]
fn find_gives_the_first_position_or_none() {
    let table = vec![rgb(1, 1, 1), rgb(2, 2, 2), rgb(1, 1, 1)];
    assert_eq!(find_color(&table, rgb(1, 1, 1)), Some(0));
    assert_eq!(find_color(&table, rgb(2, 2, 2)), Some(1));
    assert_eq!(find_color(&table, rgb(1, 1, 2)), None);
    assert_eq!(find_color(&Vec::new(), rgb(1, 1, 1)), None);
}
