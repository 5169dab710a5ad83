//! CPU-side light storage for one box-shaped region of voxels.

use vstd::prelude::*;
use crate::lighting::color::dark;

verus! {

/// A point light source placed at a specific voxel position.
pub struct LightSource {
    pub x: u32,
    pub y: u32,
    pub z: u32,
    /// RGB color of the light.
    pub color: [u8; 3],
}

/// CPU-side 3D light data for a chunk, stored as RGB per voxel.
pub struct Lightmap {
    pub width: u32,
    pub height: u32,
    pub depth: u32,
    data: Vec<[u8; 3]>,
}

impl View for Lightmap {
    type V = Seq<[u8; 3]>;

    /// The stored light values in storage order: `x` fastest, then `y`, then
    /// `z`.
    closed spec fn view(&self) -> Seq<[u8; 3]> {
        self.data@
    }
}

/// The storage index of voxel `(x, y, z)` in a region `width` wide and
/// `height` high.
pub open spec fn row_major(width: int, height: int, x: int, y: int, z: int) -> int {
    x + y * width + z * width * height
}

/// Row-major indices of voxels inside the region are inside the storage.
pub proof fn lemma_row_major_in_range(
    width: int,
    height: int,
    depth: int,
    x: int,
    y: int,
    z: int,
)
    requires
        0 <= x < width,
        0 <= y < height,
        0 <= z < depth,
    ensures
        0 <= row_major(width, height, x, y, z) < width * height * depth,
        0 <= y * width <= row_major(width, height, x, y, z),
        0 <= z * width <= z * width * height <= row_major(width, height, x, y, z),
{
    assert(0 <= y * width <= (height - 1) * width) by (nonlinear_arith)
        requires
            0 <= y <= height - 1,
            0 < width,
    ;
    assert(0 <= z * width && z * (width * height) == z * width * height && (depth - 1) * (width
        * height) == width * height * depth - width * height && (height - 1) * width == width
        * height - width && z * width <= z * width * height) by (nonlinear_arith)
        requires
            0 <= z,
            0 < width,
            0 < height,
    ;
    assert(z * (width * height) <= (depth - 1) * (width * height)) by (nonlinear_arith)
        requires
            0 <= z <= depth - 1,
            0 < width * height,
    ;
}

/// Different voxels of the region have different row-major indices.
pub proof fn lemma_row_major_injective(
    width: int,
    height: int,
    x1: int,
    y1: int,
    z1: int,
    x2: int,
    y2: int,
    z2: int,
)
    requires
        0 <= x1 < width,
        0 <= y1 < height,
        0 <= x2 < width,
        0 <= y2 < height,
        row_major(width, height, x1, y1, z1) == row_major(width, height, x2, y2, z2),
    ensures
        x1 == x2,
        y1 == y2,
        z1 == z2,
{
    let r1 = x1 + y1 * width;
    let r2 = x2 + y2 * width;
    assert(0 <= r1 < width * height && 0 <= r2 < width * height) by {
        lemma_row_major_in_range(width, height, 1, x1, y1, 0);
        lemma_row_major_in_range(width, height, 1, x2, y2, 0);
    }
    let plane = width * height;
    assert(z1 * width * height == z1 * plane && z2 * width * height == z2 * plane)
        by (nonlinear_arith)
        requires
            plane == width * height,
    ;
    assert(z1 == z2) by (nonlinear_arith)
        requires
            r1 + z1 * plane == r2 + z2 * plane,
            0 <= r1 < plane,
            0 <= r2 < plane,
    ;
    assert(y1 == y2) by (nonlinear_arith)
        requires
            x1 + y1 * width == x2 + y2 * width,
            0 <= x1 < width,
            0 <= x2 < width,
    ;
}

impl Lightmap {
    /// The number of voxels along the x axis.
    pub closed spec fn spec_width(&self) -> u32 {
        self.width
    }

    /// The number of voxels along the y axis.
    pub closed spec fn spec_height(&self) -> u32 {
        self.height
    }

    /// The number of voxels along the z axis.
    pub closed spec fn spec_depth(&self) -> u32 {
        self.depth
    }

    /// The storage holds exactly one light value per voxel of the region,
    /// and every storage index fits in 32 bits.
    pub open spec fn wf(&self) -> bool {
        &&& self@.len() == self.spec_width() * self.spec_height() * self.spec_depth()
        &&& self@.len() <= u32::MAX
    }

    /// The voxel lies inside the region.
    pub open spec fn holds(&self, x: u32, y: u32, z: u32) -> bool {
        x < self.spec_width() && y < self.spec_height() && z < self.spec_depth()
    }

    /// The storage index of a voxel.
    pub open spec fn spec_index(&self, x: u32, y: u32, z: u32) -> int {
        row_major(self.spec_width() as int, self.spec_height() as int, x as int, y as int, z as int)
    }

    /// Returns the number of voxels along the x axis.
    #[verifier::when_used_as_spec(spec_width)]
    pub fn width(&self) -> (width: u32)
        ensures
            width == self.spec_width(),
    {
        self.width
    }

    /// Returns the number of voxels along the y axis.
    #[verifier::when_used_as_spec(spec_height)]
    pub fn height(&self) -> (height: u32)
        ensures
            height == self.spec_height(),
    {
        self.height
    }

    /// Returns the number of voxels along the z axis.
    #[verifier::when_used_as_spec(spec_depth)]
    pub fn depth(&self) -> (depth: u32)
        ensures
            depth == self.spec_depth(),
    {
        self.depth
    }

    /// The light stored for a voxel.
    pub open spec fn light_at(&self, x: u32, y: u32, z: u32) -> [u8; 3] {
        self@[self.spec_index(x, y, z)]
    }

    /// Creates a new lightmap initialized to black (no light).
    pub fn new(width: u32, height: u32, depth: u32) -> (lightmap: Lightmap)
        requires
            width * height * depth <= u32::MAX,
        ensures
            lightmap.wf(),
            lightmap.width() == width,
            lightmap.height() == height,
            lightmap.depth() == depth,
            forall|i: int| 0 <= i < lightmap@.len() ==> lightmap@[i] == dark(),
    {
        let size: usize = if width == 0 || height == 0 || depth == 0 {
            assert(width * height * depth == 0) by (nonlinear_arith)
                requires
                    width == 0 || height == 0 || depth == 0,
            ;
            0
        } else {
            assert(width * height <= width * height * depth) by (nonlinear_arith)
                requires
                    width > 0,
                    height > 0,
                    depth > 0,
            ;
            (width * height * depth) as usize
        };
        Lightmap { width, height, depth, data: vec![[0u8, 0u8, 0u8]; size] }
    }

    /// Sets the light color at the given voxel position.
    pub fn set(&mut self, x: u32, y: u32, z: u32, color: [u8; 3])
        requires
            old(self).wf(),
            old(self).holds(x, y, z),
        ensures
            final(self).wf(),
            final(self).width() == old(self).width(),
            final(self).height() == old(self).height(),
            final(self).depth() == old(self).depth(),
            final(self)@ == old(self)@.update(old(self).spec_index(x, y, z), color),
    {
        let idx = self.index(x, y, z);
        self.data[idx] = color;
    }

    /// Gets the light color at the given voxel position.
    pub fn get(&self, x: u32, y: u32, z: u32) -> (light: [u8; 3])
        requires
            self.wf(),
            self.holds(x, y, z),
        ensures
            light == self.light_at(x, y, z),
    {
        self.data[self.index(x, y, z)]
    }

    /// Resets all voxels to black.
    pub fn clear(&mut self)
        ensures
            final(self).width() == old(self).width(),
            final(self).height() == old(self).height(),
            final(self).depth() == old(self).depth(),
            final(self)@.len() == old(self)@.len(),
            forall|i: int| 0 <= i < final(self)@.len() ==> final(self)@[i] == dark(),
    {
        let mut i: usize = 0;
        while i < self.data.len()
            invariant
                self.width() == old(self).width(),
                self.height() == old(self).height(),
                self.depth() == old(self).depth(),
                self@.len() == old(self)@.len(),
                i <= self@.len(),
                forall|k: int| 0 <= k < i ==> self@[k] == dark(),
            decreases self@.len() - i,
        {
            self.data[i] = [0, 0, 0];
            i += 1;
        }
    }

    /// Returns the raw data as a flat byte sequence: three bytes per voxel in
    /// channel order, voxels in storage order, no padding.
    pub fn as_bytes(&self) -> (bytes: Vec<u8>)
        ensures
            bytes@.len() == 3 * self@.len(),
            forall|i: int, channel: int|
                0 <= i < self@.len() && 0 <= channel < 3 ==> bytes@[3 * i + channel]
                    == #[trigger] self@[i][channel],
    {
        let mut bytes: Vec<u8> = Vec::new();
        let mut i: usize = 0;
        while i < self.data.len()
            invariant
                i <= self@.len(),
                bytes@.len() == 3 * i,
                forall|k: int, channel: int|
                    0 <= k < i && 0 <= channel < 3 ==> bytes@[3 * k + channel]
                        == #[trigger] self@[k][channel],
            decreases self@.len() - i,
        {
            let light = self.data[i];
            bytes.push(light[0]);
            bytes.push(light[1]);
            bytes.push(light[2]);
            i += 1;
        }
        bytes
    }

    /// Returns the storage index of a voxel: `x + y * width + z * width *
    /// height`.
    pub fn index(&self, x: u32, y: u32, z: u32) -> (idx: usize)
        requires
            self.wf(),
            self.holds(x, y, z),
        ensures
            idx == self.spec_index(x, y, z),
            idx < self@.len(),
    {
        proof {
            lemma_row_major_in_range(
                self.width() as int,
                self.height() as int,
                self.depth() as int,
                x as int,
                y as int,
                z as int,
            );
        }
        (x + y * self.width + z * self.width * self.height) as usize
    }
}

} // verus!
