//! The whole conversion: from the contents of a voxel file to the bytes that
//! are written out.
//!
//! The models of the wanted layer are selected first. A still picture is
//! the first of them, encoded. An animation is all of them, each encoded on
//! its own and in the order of the selection, packed into one container.

use vstd::prelude::*;
use crate::animation::{container_bytes, frame_views, pack_animation, MAX_FRAMES};
use crate::error::EncodeError;
use crate::frame::{convert_model_to_dat, model_output};
use crate::grid::rejection;
use crate::model::{Color, Model};
use crate::scene::{get_model_ids, layer_model_ids, SceneNode};

verus! {

/// What a voxel file holds, as far as the conversion reads it: the models,
/// the source palette that their voxels index, and the scene graph.
#[derive(Clone, Debug)]
pub struct VoxData {
    pub models: Vec<Model>,
    pub palette: Vec<Color>,
    pub scenes: Vec<SceneNode>,
}

/// Every id names a model, and the encoder takes that model with `palette`.
pub open spec fn all_encodable(models: Seq<Model>, palette: Seq<Color>, ids: Seq<usize>) -> bool {
    forall|k: int|
        0 <= k < ids.len() ==> (#[trigger] ids[k]) < models.len() && models[ids[k] as int].encodable(
            palette,
        )
}

/// Why the model that `id` names is turned away, if it is.
pub open spec fn rejection_of(models: Seq<Model>, id: usize) -> Option<EncodeError> {
    rejection(models[id as int].size, models[id as int].voxels@)
}

/// None of the models that `ids` names is turned away.
pub open spec fn none_rejected(models: Seq<Model>, ids: Seq<usize>) -> bool {
    forall|k: int| 0 <= k < ids.len() ==> rejection_of(models, #[trigger] ids[k]) is None
}

/// The model at position `k` of `ids` is the first that is turned away.
pub open spec fn first_rejected(models: Seq<Model>, ids: Seq<usize>, k: int) -> bool {
    &&& 0 <= k < ids.len()
    &&& rejection_of(models, ids[k]) is Some
    &&& none_rejected(models, ids.take(k))
}

/// What is written for each of the models that `ids` names, where the
/// compressor succeeds.
pub open spec fn model_outputs(models: Seq<Model>, palette: Seq<Color>, ids: Seq<usize>) -> Seq<
    Seq<u8>,
> {
    Seq::new(
        ids.len(),
        |k: int|
            model_output(models[ids[k] as int].size, models[ids[k] as int].voxels@, palette),
    )
}

/// Encodes the models that `ids` names, one after the other, and stops at
/// the first that fails. Without ids there is nothing to fail. Where the
/// first model is turned away, its error is the result; a later model is
/// reached only after the compressor has run on those before it.
pub fn encode_frames(models: &Vec<Model>, palette: &Vec<Color>, ids: &Vec<usize>) -> (res: Result<
    Vec<Vec<u8>>,
    EncodeError,
>)
    requires
        all_encodable(models@, palette@, ids@),
    ensures
        match res {
            Ok(frames) => none_rejected(models@, ids@) && frame_views(frames@) == model_outputs(
                models@,
                palette@,
                ids@,
            ),
            Err(e) => e is CompressionFailure || exists|k: int|
                first_rejected(models@, ids@, k) && rejection_of(models@, ids@[k]) == Some(e),
        },
        ids@.len() == 0 ==> res is Ok,
        first_rejected(models@, ids@, 0) ==> res == Err::<Vec<Vec<u8>>, EncodeError>(
            rejection_of(models@, ids@[0]).unwrap(),
        ),
{
    let mut frames: Vec<Vec<u8>> = Vec::new();
    assert(ids@.take(0) =~= Seq::<usize>::empty());
    assert(frame_views(frames@) =~= model_outputs(models@, palette@, ids@.take(0)));
    for k in 0..ids.len()
        invariant
            all_encodable(models@, palette@, ids@),
            none_rejected(models@, ids@.take(k as int)),
            frame_views(frames@) == model_outputs(models@, palette@, ids@.take(k as int)),
    {
        let id = ids[k];
        assert(ids@[k as int] < models@.len());
        let ghost before = frames@;
        assert(before.len() == k) by {
            assert(frame_views(before).len() == before.len());
            assert(model_outputs(models@, palette@, ids@.take(k as int)).len() == k);
        }
        match convert_model_to_dat(&models[id], palette) {
            Ok(frame) => {
                frames.push(frame);
                proof {
                    let now = ids@.take(k + 1);
                    assert(none_rejected(models@, now)) by {
                        assert forall|j: int| 0 <= j < now.len() implies rejection_of(
                            models@,
                            #[trigger] now[j],
                        ) is None by {
                            if j < k {
                                assert(ids@.take(k as int)[j] == now[j]);
                            }
                        }
                    }
                    assert(frame_views(frames@) =~= model_outputs(models@, palette@, now)) by {
                        assert forall|j: int| 0 <= j < now.len() implies frame_views(frames@)[j]
                            == model_outputs(models@, palette@, now)[j] by {
                            assert(frame_views(frames@)[j] == frames@[j]@);
                            if j < k {
                                assert(frames@[j] == before[j]);
                                assert(frame_views(before)[j] == before[j]@);
                                assert(ids@.take(k as int)[j] == now[j]);
                                assert(model_outputs(models@, palette@, ids@.take(k as int))[j]
                                    == model_outputs(models@, palette@, now)[j]);
                            }
                        }
                    }
                }
            },
            Err(e) => {
                assert(e is CompressionFailure || (first_rejected(models@, ids@, k as int)
                    && rejection_of(models@, ids@[k as int]) == Some(e)));
                if k > 0 {
                    assert(ids@.take(k as int)[0] == ids@[0]);
                    assert(rejection_of(models@, ids@.take(k as int)[0]) is None);
                }
                return Err(e);
            },
        }
    }
    assert(ids@.take(ids@.len() as int) =~= ids@);
    Ok(frames)
}

/// The models that are converted: all of the layer for an animation, the
/// first of the layer for a still picture.
pub open spec fn chosen_ids(scenes: Seq<SceneNode>, layer: int, animation: bool) -> Seq<usize> {
    let ids = layer_model_ids(scenes, layer);
    if animation || ids.len() == 0 {
        ids
    } else {
        seq![ids[0]]
    }
}

impl VoxData {
    /// What `convert` asks of the data. Where the file holds a model at
    /// all, a still picture needs a model in the layer, and every model
    /// that is converted must exist and be one that the encoder takes.
    pub open spec fn convertible(&self, layer: int, animation: bool) -> bool {
        self.models@.len() > 0 ==> {
            let chosen = chosen_ids(self.scenes@, layer, animation);
            &&& animation || chosen.len() == 1
            &&& all_encodable(self.models@, self.palette@, chosen)
        }
    }

    /// Tests whether `convert` takes the data for this layer and kind of
    /// output.
    pub fn can_convert(&self, layer: usize, animation: bool) -> (ok: bool)
        ensures
            ok == self.convertible(layer as int, animation),
    {
        if self.models.len() == 0 {
            return true;
        }
        let ids = get_model_ids(&self.scenes, layer);
        let ghost chosen = chosen_ids(self.scenes@, layer as int, animation);
        if !animation {
            if ids.len() == 0 {
                return false;
            }
            assert(chosen[0] == ids@[0]);
            let first = ids[0];
            return first < self.models.len() && self.models[first].is_encodable(&self.palette);
        }
        let mut k: usize = 0;
        while k < ids.len()
            invariant
                k <= ids.len(),
                animation,
                self.models@.len() > 0,
                chosen == chosen_ids(self.scenes@, layer as int, animation),
                ids@ == chosen,
                all_encodable(self.models@, self.palette@, ids@.take(k as int)),
            decreases ids.len() - k,
        {
            let id = ids[k];
            if id >= self.models.len() || !self.models[id].is_encodable(&self.palette) {
                assert(!(chosen[k as int] < self.models@.len() && self.models@[chosen[k as int] as int].encodable(
                    self.palette@,
                )));
                return false;
            }
            proof {
                let now = ids@.take(k + 1);
                assert forall|j: int| 0 <= j < now.len() implies (#[trigger] now[j])
                    < self.models@.len() && self.models@[now[j] as int].encodable(
                    self.palette@,
                ) by {
                    if j < k {
                        assert(ids@.take(k as int)[j] == now[j]);
                    }
                }
            }
            k += 1;
        }
        assert(ids@.take(ids@.len() as int) =~= ids@);
        true
    }

    /// Converts the models of `layer`: the first of them as one frame, or,
    /// for an animation, all of them as a container of frames.
    ///
    /// Fails with `NoModelsInFile` where the data holds no model, with the
    /// error of the first model that cannot be encoded, and, for an
    /// animation, with `TooManyFrames` where the layer holds no model or more
    /// than 256. An animation of an empty layer always fails so, and an
    /// animation whose first model is turned away always fails with that
    /// model's error, since the compressor is not yet asked.
    pub fn convert(&self, layer: usize, animation: bool) -> (res: Result<Vec<u8>, EncodeError>)
        requires
            self.convertible(layer as int, animation),
        ensures
            self.models@.len() == 0 ==> res == Err::<Vec<u8>, EncodeError>(
                EncodeError::NoModelsInFile,
            ),
            self.models@.len() > 0 && !animation ==> match rejection_of(
                self.models@,
                chosen_ids(self.scenes@, layer as int, animation)[0],
            ) {
                Some(e) => res == Err::<Vec<u8>, EncodeError>(e),
                None => match res {
                    Ok(out) => out@ == model_outputs(
                        self.models@,
                        self.palette@,
                        chosen_ids(self.scenes@, layer as int, animation),
                    )[0],
                    Err(e) => e is CompressionFailure,
                },
            },
            self.models@.len() > 0 && animation && chosen_ids(
                self.scenes@,
                layer as int,
                animation,
            ).len() == 0 ==> res == Err::<Vec<u8>, EncodeError>(EncodeError::TooManyFrames),
            self.models@.len() > 0 && animation && first_rejected(
                self.models@,
                chosen_ids(self.scenes@, layer as int, animation),
                0,
            ) ==> res == Err::<Vec<u8>, EncodeError>(
                rejection_of(
                    self.models@,
                    chosen_ids(self.scenes@, layer as int, animation)[0],
                ).unwrap(),
            ),
            self.models@.len() > 0 && animation ==> match res {
                Ok(out) => {
                    &&& none_rejected(
                        self.models@,
                        chosen_ids(self.scenes@, layer as int, animation),
                    )
                    &&& 1 <= chosen_ids(self.scenes@, layer as int, animation).len() <= MAX_FRAMES
                    &&& out@ == container_bytes(
                        model_outputs(
                            self.models@,
                            self.palette@,
                            chosen_ids(self.scenes@, layer as int, animation),
                        ),
                    )
                },
                Err(e) => {
                    ||| e is CompressionFailure
                    ||| exists|k: int|
                        first_rejected(
                            self.models@,
                            chosen_ids(self.scenes@, layer as int, animation),
                            k,
                        ) && rejection_of(
                            self.models@,
                            chosen_ids(self.scenes@, layer as int, animation)[k],
                        ) == Some(e)
                    ||| {
                        &&& e == EncodeError::TooManyFrames
                        &&& none_rejected(
                            self.models@,
                            chosen_ids(self.scenes@, layer as int, animation),
                        )
                        &&& chosen_ids(self.scenes@, layer as int, animation).len() == 0
                            || chosen_ids(self.scenes@, layer as int, animation).len()
                            > MAX_FRAMES
                    }
                },
            },
    {
        if self.models.len() == 0 {
            return Err(EncodeError::NoModelsInFile);
        }
        let ids = get_model_ids(&self.scenes, layer);
        if animation {
            match encode_frames(&self.models, &self.palette, &ids) {
                Ok(frames) => {
                    assert(frame_views(frames@).len() == ids@.len());
                    pack_animation(&frames)
                },
                Err(e) => Err(e),
            }
        } else {
            let ghost chosen = chosen_ids(self.scenes@, layer as int, animation);
            assert(chosen[0] == ids@[0]);
            assert(chosen[0] < self.models@.len());
            convert_model_to_dat(&self.models[ids[0]], &self.palette)
        }
    }
}

} // verus!
