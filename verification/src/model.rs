//! The plain data a model is made of.

use vstd::prelude::*;

verus! {

/// An RGB triple. Two colours are equal when all three components are.
#[derive(Clone, Copy, Debug, PartialEq, Eq, Structural)]
pub struct Color {
    pub r: u8,
    pub g: u8,
    pub b: u8,
}

/// One voxel of a model: its coordinates and the index of its colour in the
/// source palette.
#[derive(Clone, Copy, Debug, PartialEq, Eq, Structural)]
pub struct Voxel {
    pub x: u8,
    pub y: u8,
    pub z: u8,
    pub i: u8,
}

/// The bounding box of a model, in voxels per axis.
#[derive(Clone, Copy, Debug, PartialEq, Eq, Structural)]
pub struct Size {
    pub x: u32,
    pub y: u32,
    pub z: u32,
}

/// A model: a bounding box and the voxels set inside it. Where two voxels
/// share a cell, the later one in the list decides the cell's colour.
#[derive(Clone, Debug)]
pub struct Model {
    pub size: Size,
    pub voxels: Vec<Voxel>,
}

impl Size {
    /// No axis is empty.
    pub open spec fn nonempty(self) -> bool {
        self.x >= 1 && self.y >= 1 && self.z >= 1
    }

    /// Every axis fits the single header byte that stores it minus one.
    pub open spec fn fits_header(self) -> bool {
        self.x <= 255 && self.y <= 255 && self.z <= 255
    }

    /// The number of cells in the box.
    pub open spec fn volume(self) -> nat {
        (self.x * self.y * self.z) as nat
    }

    /// Whether `v` lies inside the box.
    pub open spec fn holds(self, v: Voxel) -> bool {
        v.x < self.x && v.y < self.y && v.z < self.z
    }
}

/// Every voxel's colour index names an entry of `palette`.
pub open spec fn palette_covers(voxels: Seq<Voxel>, palette: Seq<Color>) -> bool {
    forall|k: int| 0 <= k < voxels.len() ==> (#[trigger] voxels[k]).i < palette.len()
}

/// The colour of each voxel, in list order, looked up in the source palette.
pub open spec fn voxel_colors(voxels: Seq<Voxel>, palette: Seq<Color>) -> Seq<Color> {
    Seq::new(voxels.len(), |k: int| palette[voxels[k].i as int])
}

impl Model {
    /// What the encoder asks of a model and the source palette: no axis of
    /// the box is empty, and every voxel's colour index names an entry of
    /// the palette.
    pub open spec fn encodable(&self, palette: Seq<Color>) -> bool {
        self.size.nonempty() && palette_covers(self.voxels@, palette)
    }

    /// Tests whether the encoder takes this model with `palette`.
    pub fn is_encodable(&self, palette: &Vec<Color>) -> (ok: bool)
        ensures
            ok == self.encodable(palette@),
    {
        if self.size.x < 1 || self.size.y < 1 || self.size.z < 1 {
            return false;
        }
        let mut k: usize = 0;
        while k < self.voxels.len()
            invariant
                k <= self.voxels.len(),
                forall|j: int| 0 <= j < k ==> (#[trigger] self.voxels@[j]).i < palette@.len(),
            decreases self.voxels.len() - k,
        {
            if self.voxels[k].i as usize >= palette.len() {
                return false;
            }
            k += 1;
        }
        true
    }
}

} // verus!
