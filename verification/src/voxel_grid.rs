//! The dense voxel grid every generator writes into: one material byte, one
//! RGB light sample (0--15 per channel) and one face-occlusion byte per cell,
//! stored y-major, then z, then x.

use vstd::prelude::*;

verus! {

pub const VOXEL_AIR: u8 = 0;
pub const VOXEL_FLOOR: u8 = 1;
pub const VOXEL_WALL: u8 = 2;
pub const VOXEL_CEILING: u8 = 3;
pub const VOXEL_LIGHT: u8 = 4;
pub const VOXEL_RED_WALL: u8 = 5;
pub const VOXEL_RED_LIGHT: u8 = 6;
pub const VOXEL_GLIMMER: u8 = 7;
pub const VOXEL_DRY_CARPET: u8 = 8;
pub const VOXEL_STICKY_CARPET: u8 = 9;
pub const VOXEL_FLUID: u8 = 10;
pub const VOXEL_WATER: u8 = 11;
pub const VOXEL_AGED_WALLPAPER: u8 = 12;
pub const VOXEL_DAMAGED_WALL: u8 = 13;
pub const VOXEL_FURNITURE: u8 = 14;
pub const VOXEL_SEAT: u8 = 15;
pub const VOXEL_SHELVING: u8 = 16;

/// The mathematical content of a grid.
pub struct GridView {
    pub width: nat,
    pub height: nat,
    pub depth: nat,
    pub materials: Seq<u8>,
    pub light: Seq<[u8; 3]>,
    pub occlusion: Seq<u8>,
}

impl GridView {
    pub open spec fn volume(self) -> nat {
        self.width * self.height * self.depth
    }

    pub open spec fn in_bounds(self, x: int, y: int, z: int) -> bool {
        0 <= x < self.width && 0 <= y < self.height && 0 <= z < self.depth
    }

    /// y-major, then z, then x.
    pub open spec fn index(self, x: int, y: int, z: int) -> int {
        y * (self.width * self.depth) + z * self.width + x
    }

    pub open spec fn material(self, x: int, y: int, z: int) -> u8 {
        self.materials[self.index(x, y, z)]
    }

    pub open spec fn light_at(self, x: int, y: int, z: int) -> [u8; 3] {
        self.light[self.index(x, y, z)]
    }

    pub open spec fn occlusion_at(self, x: int, y: int, z: int) -> u8 {
        self.occlusion[self.index(x, y, z)]
    }

    pub open spec fn wf(self) -> bool {
        &&& self.materials.len() == self.volume()
        &&& self.light.len() == self.volume()
        &&& self.occlusion.len() == self.volume()
    }

    /// The coordinates `(x, y, z)` stored in slot `i`.
    pub open spec fn decode(self, i: int) -> (int, int, int) {
        let r = i % (self.width * self.depth) as int;
        (r % (self.width as int), i / (self.width * self.depth) as int, r / (self.width as int))
    }

    pub open spec fn same_shape(self, other: GridView) -> bool {
        &&& self.width == other.width
        &&& self.height == other.height
        &&& self.depth == other.depth
    }
}

/// Every in-bounds coordinate has a slot inside the storage.
pub proof fn lemma_index_in_range(v: GridView, x: int, y: int, z: int)
    requires
        v.in_bounds(x, y, z),
    ensures
        0 <= v.index(x, y, z) < v.volume(),
{
    let w = v.width as int;
    let h = v.height as int;
    let d = v.depth as int;
    assert(0 <= z * w + x < d * w) by (nonlinear_arith)
        requires
            0 <= x < w,
            0 <= z < d,
    ;
    assert(0 <= y * (w * d) <= (h - 1) * (w * d)) by (nonlinear_arith)
        requires
            0 <= y < h,
            0 <= w,
            0 <= d,
    ;
    assert((h - 1) * (w * d) + w * d == w * h * d) by (nonlinear_arith);
    assert(d * w == w * d) by (nonlinear_arith);
}

/// Distinct in-bounds coordinates occupy distinct slots.
pub proof fn lemma_index_injective(v: GridView, x1: int, y1: int, z1: int, x2: int, y2: int, z2: int)
    requires
        v.in_bounds(x1, y1, z1),
        v.in_bounds(x2, y2, z2),
        v.index(x1, y1, z1) == v.index(x2, y2, z2),
    ensures
        x1 == x2 && y1 == y2 && z1 == z2,
{
    let w = v.width as int;
    let d = v.depth as int;
    let i = v.index(x1, y1, z1);
    assert(0 <= z1 * w + x1 < w * d) by (nonlinear_arith)
        requires
            0 <= x1 < w,
            0 <= z1 < d,
    ;
    assert(0 <= z2 * w + x2 < w * d) by (nonlinear_arith)
        requires
            0 <= x2 < w,
            0 <= z2 < d,
    ;
    vstd::arithmetic::div_mod::lemma_fundamental_div_mod_converse(i, w * d, y1, z1 * w + x1);
    vstd::arithmetic::div_mod::lemma_fundamental_div_mod_converse(i, w * d, y2, z2 * w + x2);
    let r = z1 * w + x1;
    vstd::arithmetic::div_mod::lemma_fundamental_div_mod_converse(r, w, z1, x1);
    vstd::arithmetic::div_mod::lemma_fundamental_div_mod_converse(r, w, z2, x2);
}

/// Every slot of the storage holds exactly one in-bounds coordinate.
pub proof fn lemma_decode(v: GridView, i: int)
    requires
        0 <= i < v.volume(),
    ensures
        v.width > 0 && v.height > 0 && v.depth > 0,
        v.in_bounds(v.decode(i).0, v.decode(i).1, v.decode(i).2),
        v.index(v.decode(i).0, v.decode(i).1, v.decode(i).2) == i,
{
    let w = v.width as int;
    let h = v.height as int;
    let d = v.depth as int;
    assert(w * h * d == (w * d) * h) by (nonlinear_arith);
    assert(w > 0 && d > 0 && h > 0) by (nonlinear_arith)
        requires
            0 <= i < w * h * d,
            w >= 0,
            h >= 0,
            d >= 0,
    ;
    assert(w * d > 0) by (nonlinear_arith)
        requires
            w > 0,
            d > 0,
    ;
    let wd = w * d;
    vstd::arithmetic::div_mod::lemma_fundamental_div_mod(i, wd);
    let y = i / wd;
    let r = i % wd;
    vstd::arithmetic::div_mod::lemma_fundamental_div_mod(r, w);
    let z = r / w;
    let x = r % w;
    assert(0 <= r < wd) by {
        vstd::arithmetic::div_mod::lemma_mod_bound(i, wd);
    }
    assert(0 <= x < w) by {
        vstd::arithmetic::div_mod::lemma_mod_bound(r, w);
    }
    assert(0 <= z < d) by (nonlinear_arith)
        requires
            r == w * z + x,
            0 <= r < w * d,
            0 <= x < w,
            w > 0,
    ;
    assert(0 <= y < h) by (nonlinear_arith)
        requires
            i == wd * y + r,
            0 <= r < wd,
            0 <= i < wd * h,
            wd > 0,
    ;
    assert(y * wd == wd * y) by (nonlinear_arith);
    assert(z * w == w * z) by (nonlinear_arith);
}

pub struct VoxelGrid {
    width: usize,
    height: usize,
    depth: usize,
    voxels: Vec<u8>,
    light: Vec<[u8; 3]>,
    occlusion: Vec<u8>,
}

impl View for VoxelGrid {
    type V = GridView;

    closed spec fn view(&self) -> GridView {
        GridView {
            width: self.width as nat,
            height: self.height as nat,
            depth: self.depth as nat,
            materials: self.voxels@,
            light: self.light@,
            occlusion: self.occlusion@,
        }
    }
}

impl VoxelGrid {
    /// A grid is usable when its storage matches its dimensions and its
    /// volume can be addressed.
    pub open spec fn wf(&self) -> bool {
        &&& self@.wf()
        &&& self@.width <= usize::MAX
        &&& self@.height <= usize::MAX
        &&& self@.depth <= usize::MAX
        &&& self@.width * self@.height <= usize::MAX
        &&& self@.volume() <= usize::MAX
    }

    /// Number of cells.
    pub fn volume(&self) -> (n: usize)
        requires
            self.wf(),
        ensures
            n == self@.volume(),
    {
        self.width * self.height * self.depth
    }

    /// An all-air, unlit, unoccluded grid.
    pub fn new(width: usize, height: usize, depth: usize) -> (grid: Self)
        requires
            width * height <= usize::MAX,
            width * height * depth <= usize::MAX,
        ensures
            grid.wf(),
            grid@.width == width,
            grid@.height == height,
            grid@.depth == depth,
            forall|i: int| 0 <= i < grid@.volume() ==> grid@.materials[i] == VOXEL_AIR,
            forall|i: int| 0 <= i < grid@.volume() ==> grid@.light[i] == [0u8, 0u8, 0u8],
            forall|i: int| 0 <= i < grid@.volume() ==> grid@.occlusion[i] == 0,
    {
        let n = width * height * depth;
        let mut voxels: Vec<u8> = Vec::new();
        let mut light: Vec<[u8; 3]> = Vec::new();
        let mut occlusion: Vec<u8> = Vec::new();
        let mut i: usize = 0;
        while i < n
            invariant
                i <= n,
                voxels@.len() == i,
                light@.len() == i,
                occlusion@.len() == i,
                forall|j: int| 0 <= j < i ==> voxels@[j] == VOXEL_AIR,
                forall|j: int| 0 <= j < i ==> light@[j] == [0u8, 0u8, 0u8],
                forall|j: int| 0 <= j < i ==> occlusion@[j] == 0,
            decreases n - i,
        {
            voxels.push(VOXEL_AIR);
            light.push([0u8, 0u8, 0u8]);
            occlusion.push(0u8);
            i = i + 1;
        }
        VoxelGrid { width, height, depth, voxels, light, occlusion }
    }

    pub fn width(&self) -> (r: usize)
        ensures
            r == self@.width,
    {
        self.width
    }

    pub fn height(&self) -> (r: usize)
        ensures
            r == self@.height,
    {
        self.height
    }

    pub fn depth(&self) -> (r: usize)
        ensures
            r == self@.depth,
    {
        self.depth
    }

    fn slot(&self, x: usize, y: usize, z: usize) -> (r: usize)
        requires
            self.wf(),
            self@.in_bounds(x as int, y as int, z as int),
        ensures
            r == self@.index(x as int, y as int, z as int),
            r < self@.volume(),
    {
        proof {
            lemma_index_in_range(self@, x as int, y as int, z as int);
            let w = self.width as int;
            let h = self.height as int;
            let d = self.depth as int;
            assert(w * d <= w * h * d) by (nonlinear_arith)
                requires
                    1 <= h,
                    0 <= w,
                    0 <= d,
            ;
            assert(y * (w * d) <= y * (w * d) + z * w + x);
            assert(z * w <= z * w + x);
            assert(0 <= y * (w * d)) by (nonlinear_arith)
                requires
                    0 <= y,
                    0 <= w * d,
            ;
            assert(0 <= z * w) by (nonlinear_arith)
                requires
                    0 <= z,
                    0 <= w,
            ;
        }
        y * (self.width * self.depth) + z * self.width + x
    }

    /// The coordinates held in storage slot `i`.
    pub fn coords_of(&self, i: usize) -> (c: (usize, usize, usize))
        requires
            self.wf(),
            i < self@.volume(),
        ensures
            c.0 == self@.decode(i as int).0,
            c.1 == self@.decode(i as int).1,
            c.2 == self@.decode(i as int).2,
            self@.in_bounds(c.0 as int, c.1 as int, c.2 as int),
            self@.index(c.0 as int, c.1 as int, c.2 as int) == i,
    {
        proof {
            lemma_decode(self@, i as int);
            let w = self.width as int;
            let h = self.height as int;
            let d = self.depth as int;
            assert(0 < w * d <= w * h * d) by (nonlinear_arith)
                requires
                    0 <= i < w * h * d,
                    0 < w,
                    0 < h,
                    0 < d,
            ;
        }
        let wd = self.width * self.depth;
        let r = i % wd;
        (r % self.width, i / wd, r / self.width)
    }

    pub fn get(&self, x: usize, y: usize, z: usize) -> (m: u8)
        requires
            self.wf(),
            self@.in_bounds(x as int, y as int, z as int),
        ensures
            m == self@.material(x as int, y as int, z as int),
    {
        let i = self.slot(x, y, z);
        self.voxels[i]
    }

    pub fn set(&mut self, x: usize, y: usize, z: usize, material: u8)
        requires
            old(self).wf(),
            old(self)@.in_bounds(x as int, y as int, z as int),
        ensures
            final(self).wf(),
            final(self)@.same_shape(old(self)@),
            final(self)@.materials == old(self)@.materials.update(
                old(self)@.index(x as int, y as int, z as int),
                material,
            ),
            final(self)@.light == old(self)@.light,
            final(self)@.occlusion == old(self)@.occlusion,
            forall|a: int, b: int, c: int|
                old(self)@.in_bounds(a, b, c) ==> #[trigger] final(self)@.material(a, b, c) == if a == x && b
                    == y && c == z {
                    material
                } else {
                    old(self)@.material(a, b, c)
                },
    {
        let i = self.slot(x, y, z);
        let ghost before = self@;
        self.voxels.set(i, material);
        proof {
            assert forall|a: int, b: int, c: int| before.in_bounds(a, b, c) implies #[trigger] self@.material(a, b, c)
                == if a == x && b == y && c == z {
                material
            } else {
                before.material(a, b, c)
            } by {
                lemma_index_in_range(before, a, b, c);
                if before.index(a, b, c) == before.index(x as int, y as int, z as int) {
                    lemma_index_injective(before, a, b, c, x as int, y as int, z as int);
                }
            }
        }
    }

    pub fn get_light_rgb(&self, x: usize, y: usize, z: usize) -> (rgb: [u8; 3])
        requires
            self.wf(),
            self@.in_bounds(x as int, y as int, z as int),
        ensures
            rgb == self@.light_at(x as int, y as int, z as int),
    {
        let i = self.slot(x, y, z);
        self.light[i]
    }

    pub fn set_light_rgb(&mut self, x: usize, y: usize, z: usize, rgb: [u8; 3])
        requires
            old(self).wf(),
            old(self)@.in_bounds(x as int, y as int, z as int),
        ensures
            final(self).wf(),
            final(self)@.same_shape(old(self)@),
            final(self)@.materials == old(self)@.materials,
            final(self)@.light == old(self)@.light.update(
                old(self)@.index(x as int, y as int, z as int),
                rgb,
            ),
            final(self)@.occlusion == old(self)@.occlusion,
    {
        let i = self.slot(x, y, z);
        self.light.set(i, rgb);
    }

    pub fn get_face_occlusion(&self, x: usize, y: usize, z: usize) -> (mask: u8)
        requires
            self.wf(),
            self@.in_bounds(x as int, y as int, z as int),
        ensures
            mask == self@.occlusion_at(x as int, y as int, z as int),
    {
        let i = self.slot(x, y, z);
        self.occlusion[i]
    }

    pub fn set_face_occlusion(&mut self, x: usize, y: usize, z: usize, mask: u8)
        requires
            old(self).wf(),
            old(self)@.in_bounds(x as int, y as int, z as int),
        ensures
            final(self).wf(),
            final(self)@.same_shape(old(self)@),
            final(self)@.materials == old(self)@.materials,
            final(self)@.light == old(self)@.light,
            final(self)@.occlusion == old(self)@.occlusion.update(
                old(self)@.index(x as int, y as int, z as int),
                mask,
            ),
    {
        let i = self.slot(x, y, z);
        self.occlusion.set(i, mask);
    }
}

} // verus!
