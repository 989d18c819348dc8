//! The model selector: which models of a scene graph belong to a layer.
//!
//! The selector matches one fixed pattern and nothing else. The node at
//! index 0 must be a transform whose child is a group. Of that group's
//! children, each one counts that is a transform of the wanted layer whose
//! own child is a shape. The answer is the models of all those shapes,
//! shape by shape in the order of the group's children. An index that names
//! no node matches nothing. This is the layer convention of the authoring
//! tool, not a walk of the whole graph.

use vstd::prelude::*;

verus! {

/// A node of the scene graph. Children are named by their index in the
/// list of nodes.
#[derive(Clone, Debug)]
pub enum SceneNode {
    Transform { child: u32, layer_id: u32 },
    Group { children: Vec<u32> },
    Shape { models: Vec<u32> },
}

/// The children of the group under the root transform, if the graph starts
/// that way.
pub open spec fn root_children(scenes: Seq<SceneNode>) -> Option<Seq<u32>> {
    if scenes.len() == 0 {
        None
    } else {
        match scenes[0] {
            SceneNode::Transform { child, .. } => if child < scenes.len() {
                match scenes[child as int] {
                    SceneNode::Group { children } => Some(children@),
                    _ => None,
                }
            } else {
                None
            },
            _ => None,
        }
    }
}

/// The models of the shape under the node at `at`, if that node is a
/// transform of `layer` whose child is a shape.
pub open spec fn layer_shape(scenes: Seq<SceneNode>, layer: int, at: u32) -> Option<Seq<u32>> {
    if at < scenes.len() {
        match scenes[at as int] {
            SceneNode::Transform { child, layer_id } => if layer_id == layer && child
                < scenes.len() {
                match scenes[child as int] {
                    SceneNode::Shape { models } => Some(models@),
                    _ => None,
                }
            } else {
                None
            },
            _ => None,
        }
    } else {
        None
    }
}

/// The ids of the models of a shape, as indices into the list of models.
pub open spec fn shape_ids(models: Seq<u32>) -> Seq<usize> {
    Seq::new(models.len(), |k: int| models[k] as usize)
}

/// What the child at `at` adds to the answer: the ids of its shape's models
/// where it leads to a shape of `layer`, and nothing else.
pub open spec fn child_ids(scenes: Seq<SceneNode>, layer: int, at: u32) -> Seq<usize> {
    match layer_shape(scenes, layer, at) {
        Some(models) => shape_ids(models),
        None => Seq::empty(),
    }
}

/// What the children add to the answer, one after the other in the order
/// of the list.
pub open spec fn layer_shapes(scenes: Seq<SceneNode>, layer: int, children: Seq<u32>) -> Seq<
    usize,
>
    decreases children.len(),
{
    if children.len() == 0 {
        Seq::empty()
    } else {
        child_ids(scenes, layer, children[0]) + layer_shapes(scenes, layer, children.skip(1))
    }
}

/// The ids of the models that belong to `layer`: those of every shape of
/// the layer, shape by shape in the order of the root group's children and,
/// within a shape, in the order in which it lists them. Empty where nothing
/// matches.
pub open spec fn layer_model_ids(scenes: Seq<SceneNode>, layer: int) -> Seq<usize> {
    match root_children(scenes) {
        Some(children) => layer_shapes(scenes, layer, children),
        None => Seq::empty(),
    }
}

/// Finds the models of `layer`. The result is empty where the graph holds
/// no match; whether that is fatal is for the caller to decide.
pub fn get_model_ids(scenes: &Vec<SceneNode>, layer: usize) -> (ids: Vec<usize>)
    ensures
        ids@ == layer_model_ids(scenes@, layer as int),
{
    let mut ids: Vec<usize> = Vec::new();
    if scenes.len() == 0 {
        return ids;
    }
    if let SceneNode::Transform { child, .. } = &scenes[0] {
        let group = *child as usize;
        if group < scenes.len() {
            if let SceneNode::Group { children } = &scenes[group] {
                let ghost whole = layer_shapes(scenes@, layer as int, children@);
                let mut k: usize = 0;
                assert(children@.skip(0) =~= children@);
                assert(ids@ + whole =~= whole);
                while k < children.len()
                    invariant
                        k <= children.len(),
                        whole == layer_shapes(scenes@, layer as int, children@),
                        ids@ + layer_shapes(scenes@, layer as int, children@.skip(k as int))
                            == whole,
                    decreases children.len() - k,
                {
                    let at = children[k] as usize;
                    let ghost before = ids@;
                    let ghost added = child_ids(scenes@, layer as int, children@[k as int]);
                    let ghost rest = layer_shapes(scenes@, layer as int, children@.skip(k + 1));
                    proof {
                        assert(children@.skip(k as int)[0] == children@[k as int]);
                        assert(children@.skip(k as int).skip(1) =~= children@.skip(k + 1));
                        assert((before + added) + rest =~= before + (added + rest));
                    }
                    if at < scenes.len() {
                        if let SceneNode::Transform { child, layer_id } = &scenes[at] {
                            let shape = *child as usize;
                            if *layer_id as usize == layer && shape < scenes.len() {
                                if let SceneNode::Shape { models } = &scenes[shape] {
                                    for m in 0..models.len()
                                        invariant
                                            added == shape_ids(models@),
                                            ids@ == before + added.take(m as int),
                                    {
                                        ids.push(models[m] as usize);
                                        assert(added.take(m + 1) =~= added.take(m as int).push(
                                            added[m as int],
                                        ));
                                    }
                                    assert(added.take(models@.len() as int) =~= added);
                                }
                            }
                        }
                    }
                    assert(ids@ =~= before + added);
                    k += 1;
                }
                assert(children@.skip(children@.len() as int).len() == 0);
                assert(ids@ + Seq::<usize>::empty() =~= ids@);
            }
        }
    }
    ids
}

} // verus!
