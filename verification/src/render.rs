//! Plain data handed to the GPU-side collaborators: prebuilt byte views,
//! buffer update descriptions, and the sizing of the per-pixel work buffer.
//! Device, pipeline and window handling live outside the library and only
//! consume these values.
use vstd::prelude::*;

verus! {

/// The bytes of the compute pass's view uniform, built by the caller from
/// camera state and encoded fixed-point coordinates.
pub struct ComputeView {
    pub bytes: Vec<u8>,
}

impl ComputeView {
    pub fn bytes(&self) -> (r: &Vec<u8>)
        ensures
            r@ == self.bytes@,
    {
        &self.bytes
    }
}

/// The bytes of the tile pass's view uniform.
pub struct TileView {
    pub bytes: Vec<u8>,
}

impl TileView {
    pub fn bytes(&self) -> (r: &Vec<u8>)
        ensures
            r@ == self.bytes@,
    {
        &self.bytes
    }
}

/// A pending write of `data` into a GPU array buffer at `offset` elements.
pub struct ArrBufUpdate<T> {
    pub offset: usize,
    pub data: Vec<T>,
}

/// Input-handling state that outlives a single frame.
pub struct InputHandling {
    pub snapshot: bool,
}

impl InputHandling {
    pub fn new() -> (r: Self)
        ensures
            !r.snapshot,
    {
        InputHandling { snapshot: false }
    }
}

/// Number of 32-bit cells the compute pass needs per frame: each pixel
/// stores two variable-width values of `2 + len` words, twice, plus one
/// status cell.
pub fn work_size(width: u32, height: u32, len: usize) -> (r: usize)
    requires
        width * height <= 0xffff_ffff,
        len <= 0xffff,
        (width as int * height as int) * ((2 + len) * 4 + 1) <= usize::MAX,
    ensures
        r == (width * height) * (((2 + len) * 2) * 2 + 1),
{
    let varwidth: usize = (2 + len) * 2;
    (width * height) as usize * (varwidth * 2 + 1)
}

/// A zeroed work buffer of that size.
pub fn work_vec(width: u32, height: u32, len: usize) -> (r: Vec<u32>)
    requires
        width * height <= 0xffff_ffff,
        len <= 0xffff,
        (width as int * height as int) * ((2 + len) * 4 + 1) <= usize::MAX,
    ensures
        r@.len() == (width * height) * (((2 + len) * 2) * 2 + 1),
        forall|i: int| 0 <= i < r@.len() ==> r@[i] == 0,
{
    let n = work_size(width, height, len);
    let mut v: Vec<u32> = Vec::new();
    let mut z: usize = 0;
    while z < n
        invariant
            z <= n,
            v@.len() == z,
            forall|i: int| 0 <= i < z ==> v@[i] == 0,
        decreases n - z,
    {
        v.push(0u32);
        z += 1;
    }
    v
}

} // verus!
