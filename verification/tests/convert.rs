use voxel_dat::{
    convert_model_to_dat, encode_frames, pack_animation, Color, EncodeError, Model, SceneNode,
    Size, VoxData, Voxel,
};

fn rgb(r: u8, g: u8, b: u8) -> Color {
    Color { r, g, b }
}

fn dot(i: u8) -> Model {
    Model { size: Size { x: 1, y: 1, z: 2 }, voxels: vec![Voxel { x: 0, y: 0, z: 1, i }] }
}

fn scenes_for(layers: &[(u32, &[u32])]) -> Vec<SceneNode> {
    let mut scenes = vec![
        SceneNode::Transform { child: 1, layer_id: 0 },
        SceneNode::Group { children: Vec::new() },
    ];
    let mut children = Vec::new();
    for (layer, models) in layers {
        let at = scenes.len() as u32;
        children.push(at);
        scenes.push(SceneNode::Transform { child: at + 1, layer_id: *layer });
        scenes.push(SceneNode::Shape { models: models.to_vec() });
    }
    scenes[1] = SceneNode::Group { children };
    scenes
}

fn data() -> VoxData {
    VoxData {
        models: vec![dot(0), dot(1), dot(2), dot(1)],
        palette: vec![rgb(10, 0, 0), rgb(0, 20, 0), rgb(0, 0, 30)],
        scenes: scenes_for(&[(0, &[3]), (1, &[2, 0, 1]), (2, &[])]),
    }
}

#[test]
fn data_without_models_fails_with_no_models_in_file() {
    let empty = VoxData { models: Vec::new(), palette: Vec::new(), scenes: Vec::new() };
    assert!(empty.can_convert(0, false));
    assert_eq!(empty.convert(0, false), Err(EncodeError::NoModelsInFile));
    assert!(empty.can_convert(3, true));
    assert_eq!(empty.convert(3, true), Err(EncodeError::NoModelsInFile));
}

#[test]
fn still_picture_is_the_first_model_of_the_layer() {
    let d = data();
    assert!(d.can_convert(0, false));
    assert_eq!(d.convert(0, false), Ok(vec![0, 0, 0, 0, 1, 1, 0, 20, 0, 0, 1, 128, 1]));
    assert!(d.can_convert(1, false));
    assert_eq!(d.convert(1, false), Ok(vec![0, 0, 0, 0, 1, 1, 0, 0, 30, 0, 1, 128, 1]));
    assert_eq!(d.convert(1, false), convert_model_to_dat(&d.models[2], &d.palette));
}

#[test]
fn animation_holds_every_model_of_the_layer_in_order() {
    let d = data();
    assert!(d.can_convert(1, true));
    let out = d.convert(1, true).unwrap();
    let mut expected = vec![2];
    for colour in [[0, 0, 30], [10, 0, 0], [0, 20, 0]] {
        expected.extend([0, 13, 0, 0, 0, 0, 1, 1]);
        expected.extend(colour);
        expected.extend([0, 1, 128, 1]);
    }
    expected.extend([0, 0, 1, 0, 2, 0]);
    assert_eq!(out, expected);
}

#[test]
fn animation_is_the_packed_frames() {
    let d = data();
    let frames = encode_frames(&d.models, &d.palette, &vec![2, 0, 1]).unwrap();
    assert_eq!(frames.len(), 3);
    assert_eq!(frames[1], convert_model_to_dat(&d.models[0], &d.palette).unwrap());
    assert_eq!(d.convert(1, true), pack_animation(&frames));
}

#[test]
fn animation_of_a_layer_without_models_has_too_many_frames() {
    let d = data();
    assert!(d.can_convert(2, true));
    assert_eq!(d.convert(2, true), Err(EncodeError::TooManyFrames));
    assert!(d.can_convert(7, true));
    assert_eq!(d.convert(7, true), Err(EncodeError::TooManyFrames));
}

#[test]
fn animation_of_more_than_256_models_has_too_many_frames() {
    let mut d = data();
    let ids = vec![1u32; 257];
    d.scenes = scenes_for(&[(0, &ids)]);
    assert!(d.can_convert(0, true));
    assert_eq!(d.convert(0, true), Err(EncodeError::TooManyFrames));
    d.scenes = scenes_for(&[(0, &ids[..256])]);
    let out = d.convert(0, true).unwrap();
    assert_eq!(out[0], 255);
    assert_eq!(out.len(), 1 + 256 * 15 + 512);
}

#[test]
fn first_model_that_fails_decides_the_error() {
    let mut d = data();
    d.models[0].voxels.push(Voxel { x: 0, y: 1, z: 0, i: 0 });
    d.models[1].size.x = 300;
    assert_eq!(d.convert(1, true), Err(EncodeError::VoxelOutOfBounds));
    d.scenes = scenes_for(&[(1, &[2, 1, 0])]);
    assert_eq!(d.convert(1, true), Err(EncodeError::DimensionOverflow));
    assert_eq!(
        encode_frames(&d.models, &d.palette, &vec![2, 3, 0, 1]),
        Err(EncodeError::VoxelOutOfBounds)
    );
    assert_eq!(d.convert(1, false), Ok(vec![0, 0, 0, 0, 1, 1, 0, 0, 30, 0, 1, 128, 1]));
}

#[test]
fn no_ids_give_no_frames() {
    let d = data();
    assert_eq!(encode_frames(&d.models, &d.palette, &Vec::new()), Ok(Vec::new()));
}

#[test]
fn still_picture_needs_a_model_in_the_layer() {
    let d = data();
    assert!(!d.can_convert(2, false));
    assert!(!d.can_convert(9, false));
}

#[test]
fn selected_models_must_exist() {
    let mut d = data();
    d.scenes = scenes_for(&[(0, &[4]), (1, &[0, 4]), (2, &[0, 1])]);
    assert!(!d.can_convert(0, false));
    assert!(!d.can_convert(0, true));
    assert!(d.can_convert(1, false));
    assert!(!d.can_convert(1, true));
    assert!(d.can_convert(2, true));
}

#[test]
fn selected_models_must_be_encodable() {
    let mut d = data();
    d.models[2].size.y = 0;
    assert!(!d.models[2].is_encodable(&d.palette));
    assert!(!d.can_convert(1, false));
    assert!(!d.can_convert(1, true));
    assert!(d.can_convert(0, true));
    let mut d = data();
    d.models[3].voxels[0].i = 3;
    assert!(!d.models[3].is_encodable(&d.palette));
    assert!(!d.can_convert(0, false));
    assert!(d.can_convert(1, true));
    assert!(d.models[0].is_encodable(&d.palette));
    assert!(dot(0).is_encodable(&vec![rgb(1, 1, 1)]));
    assert!(!dot(0).is_encodable(&Vec::new()));
}

#[test]
fn animation_gathers_the_models_of_every_shape_of_the_layer() {
    let mut d = data();
    d.scenes = scenes_for(&[(1, &[2]), (0, &[3]), (1, &[0, 1])]);
    assert!(d.can_convert(1, true));
    let frames = encode_frames(&d.models, &d.palette, &vec![2, 0, 1]).unwrap();
    assert_eq!(d.convert(1, true), pack_animation(&frames));
    assert_eq!(d.convert(1, true).unwrap()[0], 2);
    assert_eq!(d.convert(1, false), convert_model_to_dat(&d.models[2], &d.palette));
}

#[test]
fn first_model_turned_away_decides_at_once() {
    let mut d = data();
    d.models[2].size.z = 256;
    assert_eq!(
        encode_frames(&d.models, &d.palette, &vec![2, 0, 1]),
        Err(EncodeError::DimensionOverflow)
    );
    assert_eq!(d.convert(1, true), Err(EncodeError::DimensionOverflow));
    let mut d = data();
    d.models[2].voxels.push(Voxel { x: 1, y: 0, z: 0, i: 0 });
    assert_eq!(
        encode_frames(&d.models, &d.palette, &vec![2]),
        Err(EncodeError::VoxelOutOfBounds)
    );
    assert_eq!(d.convert(1, true), Err(EncodeError::VoxelOutOfBounds));
}
