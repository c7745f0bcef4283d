//! Raster helpers of the WebGPU scene packet: row flipping, mask textures
//! and RGBA pixel addressing.
use vstd::prelude::*;
use crate::presentation::{PresentationOutputKind, PresentationPluginCapabilities};

verus! {

/// The raster textures of a GPU scene packet (R8 or RGBA8, row-major).
#[derive(Clone, Debug)]
pub struct WebGpuTextureSet {
    pub height: Vec<u8>,
    pub land_mask: Vec<u8>,
    pub flux: Vec<u8>,
    pub terrain_albedo: Vec<u8>,
    pub roughness: Vec<u8>,
    pub ao: Vec<u8>,
    pub water_color: Vec<u8>,
    pub water_alpha: Vec<u8>,
    pub coast_glow: Vec<u8>,
}

/// The GPU scene plugin takes no configuration.
#[derive(Clone, Copy, Debug, Default)]
pub struct WebGpuPresentationConfig;

/// The plugin that builds the GPU scene packet.
#[derive(Clone, Copy, Debug, Default)]
pub struct WebGpuScenePlugin;

impl WebGpuScenePlugin {
    /// The GPU plugin produces a scene packet.
    pub fn output_kind() -> (k: PresentationOutputKind)
        ensures
            k == PresentationOutputKind::GpuScenePacket,
    {
        PresentationOutputKind::GpuScenePacket
    }

    /// It takes no layer switches and exports no SVG; it needs the raster
    /// data, heightmap and land mask, and embeds no images.
    pub fn capabilities() -> (c: PresentationPluginCapabilities)
        ensures
            c == (PresentationPluginCapabilities {
                supports_layer_config: false,
                supports_direct_svg_export: false,
                requires_raster_data: true,
                requires_heightmap: true,
                requires_land_mask: true,
                embeds_raster_images: false,
            }),
    {
        PresentationPluginCapabilities {
            supports_layer_config: false,
            supports_direct_svg_export: false,
            requires_raster_data: true,
            requires_heightmap: true,
            requires_land_mask: true,
            embeds_raster_images: false,
        }
    }
}

/// The row-flipped copy of a `width` by `height` raster stored bottom row
/// first: row `y` of the result is row `height - 1 - y` of `data`; bytes past
/// the raster are zero.
pub open spec fn top_down(data: Seq<u8>, width: int, height: int) -> Seq<u8> {
    Seq::new(
        data.len(),
        |i: int|
            if i < width * height {
                data[(height - 1 - i / width) * width + i % width]
            } else {
                0u8
            },
    )
}

/// Flipping the rows of a raster twice gives the raster back.
pub proof fn lemma_top_down_twice(data: Seq<u8>, width: int, height: int)
    requires
        width > 0,
        height >= 0,
        data.len() == width * height,
    ensures
        top_down(top_down(data, width, height), width, height) == data,
{
    let once = top_down(data, width, height);
    let twice = top_down(once, width, height);
    assert forall|i: int| 0 <= i < data.len() implies #[trigger] twice[i] == data[i] by {
        let y = i / width;
        let x = i % width;
        vstd::arithmetic::div_mod::lemma_fundamental_div_mod(i, width);
        assert(0 <= x < width);
        assert(0 <= y < height) by (nonlinear_arith)
            requires
                i == width * y + x,
                0 <= x < width,
                0 <= i < width * height,
                width > 0,
        ;
        let j = (height - 1 - y) * width + x;
        assert(0 <= j < width * height) by (nonlinear_arith)
            requires
                j == (height - 1 - y) * width + x,
                0 <= y < height,
                0 <= x < width,
        ;
        vstd::arithmetic::div_mod::lemma_fundamental_div_mod_converse(j, width, height - 1 - y, x);
        assert(once[j] == data[(height - 1 - (height - 1 - y)) * width + x]);
        assert(y * width + x == i) by (nonlinear_arith)
            requires
                i == width * y + x,
        ;
        assert((height - 1 - (height - 1 - y)) * width + x == i);
    }
    assert(twice =~= data);
}

/// Flips a bottom-up raster of bytes into top-down row order.
pub fn to_top_down_u8(data: &[u8], width: u32, height: u32) -> (r: Vec<u8>)
    requires
        width as int * height as int <= data@.len(),
    ensures
        r@ == top_down(data@, width as int, height as int),
{
    let w = width as usize;
    let h = height as usize;
    let n = data.len();
    let mut output: Vec<u8> = Vec::new();
    let mut t: usize = 0;
    while t < n
        invariant
            t <= n,
            n == data@.len(),
            output@.len() == t,
            forall|i: int| 0 <= i < t ==> output@[i] == 0,
        decreases n - t,
    {
        output.push(0);
        t = t + 1;
    }
    let mut y: usize = 0;
    while y < h
        invariant
            w == width,
            h == height,
            n == data@.len(),
            w * h <= n,
            y <= h,
            output@.len() == n,
            forall|i: int|
                0 <= i < n ==> #[trigger] output@[i] == if i < y * w {
                    data@[(h - 1 - i / (w as int)) * w + i % (w as int)]
                } else {
                    0u8
                },
        decreases h - y,
    {
        assert(y * w + w <= w * h && (h - 1 - y) * w + w <= w * h) by (nonlinear_arith)
            requires
                y < h,
        ;
        let src_row = (h - 1 - y) * w;
        let dst_row = y * w;
        let mut x: usize = 0;
        while x < w
            invariant
                w == width,
                h == height,
                n == data@.len(),
                w * h <= n,
                y < h,
                src_row == (h - 1 - y) * w,
                dst_row == y * w,
                dst_row + w <= n,
                src_row + w <= n,
                x <= w,
                output@.len() == n,
                forall|i: int|
                    0 <= i < n ==> #[trigger] output@[i] == if i < dst_row + x {
                        data@[(h - 1 - i / (w as int)) * w + i % (w as int)]
                    } else {
                        0u8
                    },
            decreases w - x,
        {
            let v = data[src_row + x];
            output.set(dst_row + x, v);
            proof {
                let i = (dst_row + x) as int;
                assert(i / (w as int) == y && i % (w as int) == x) by (nonlinear_arith)
                    requires
                        i == y * w + x,
                        x < w,
                ;
            }
            x = x + 1;
        }
        assert(y * w + w == (y + 1) * w) by (nonlinear_arith);
        y = y + 1;
    }
    assert(output@ =~= top_down(data@, width as int, height as int));
    output
}

/// The single-channel mask texture: 255 where the mask is set, 0 elsewhere.
pub fn encode_mask_texture(data: &[u8], width: u32, height: u32) -> (r: Vec<u8>)
    ensures
        r@.len() == data@.len(),
        forall|i: int| 0 <= i < data@.len() ==> #[trigger] r@[i] == if data@[i] > 0 {
            255u8
        } else {
            0u8
        },
{
    let n = data.len();
    let mut r: Vec<u8> = Vec::new();
    let mut i: usize = 0;
    while i < n
        invariant
            n == data@.len(),
            i <= n,
            r@.len() == i,
            forall|j: int| 0 <= j < i ==> #[trigger] r@[j] == if data@[j] > 0 {
                255u8
            } else {
                0u8
            },
        decreases n - i,
    {
        let v: u8 = if data[i] > 0 {
            255
        } else {
            0
        };
        r.push(v);
        i = i + 1;
    }
    r
}

/// Byte offset of pixel `(x, y)` in an RGBA8 texture `width` pixels wide.
pub fn pixel_offset_rgba(width: u32, x: usize, y: usize) -> (r: usize)
    requires
        (y as int * width as int + x as int) * 4 <= usize::MAX,
    ensures
        r == (y as int * width as int + x as int) * 4,
{
    assert(y as int * width as int <= usize::MAX) by (nonlinear_arith)
        requires
            (y as int * width as int + x as int) * 4 <= usize::MAX,
            x >= 0,
    ;
    (y * width as usize + x) * 4
}

/// Writes one RGBA pixel at byte `offset`.
pub fn write_rgba(texture: &mut [u8], offset: usize, r: u8, g: u8, b: u8, a: u8)
    requires
        offset + 3 < old(texture)@.len(),
    ensures
        final(texture)@ == old(texture)@.update(offset as int, r).update(offset + 1, g).update(
            offset + 2,
            b,
        ).update(offset + 3, a),
{
    texture[offset] = r;
    texture[offset + 1] = g;
    texture[offset + 2] = b;
    texture[offset + 3] = a;
}

/// `v` clamped into `[lo, hi]` (with `lo <= hi`).
pub open spec fn clamp_int(v: int, lo: int, hi: int) -> int {
    if v < lo {
        lo
    } else if v > hi {
        hi
    } else {
        v
    }
}

/// The texel index that the R8 samplers read for `(x, y)`: the coordinates
/// clamped into the texture.
pub open spec fn clamped_index(width: u32, height: u32, x: i32, y: i32) -> int {
    let max_x = if width > 0 { width - 1 } else { 0 };
    let max_y = if height > 0 { height - 1 } else { 0 };
    clamp_int(y as int, 0, max_y) * width + clamp_int(x as int, 0, max_x)
}

/// Whether the R8 mask is set at `(x, y)` (clamped to the edge): its channel
/// value, read as a fraction of 255, exceeds one half, which for a byte means
/// it is at least 128.
pub fn sample_mask_r8(texture: &[u8], width: u32, height: u32, x: i32, y: i32) -> (b: bool)
    requires
        width <= 0x8000_0000u32,
        height <= 0x8000_0000u32,
        clamped_index(width, height, x, y) < texture@.len(),
    ensures
        b == (texture@[clamped_index(width, height, x, y)] >= 128),
{
    let max_x: i32 = if width > 0 {
        (width - 1) as i32
    } else {
        0
    };
    let max_y: i32 = if height > 0 {
        (height - 1) as i32
    } else {
        0
    };
    let cx: usize = if x < 0 {
        0
    } else if x > max_x {
        max_x as usize
    } else {
        x as usize
    };
    let cy: usize = if y < 0 {
        0
    } else if y > max_y {
        max_y as usize
    } else {
        y as usize
    };
    assert(cy as int * width as int + cx as int == clamped_index(width, height, x, y));
    let n = texture.len();
    assert(cy as int * width as int + cx as int <= n);
    let idx = cy * width as usize + cx;
    texture[idx] >= 128
}

/// Entry `k` of the triangle list of a grid `w` vertices wide: quad
/// `k / 6`, counted row by row over the `w - 1` quads of a row, gives the
/// triangles `(i0, i2, i1)` and `(i1, i2, i3)` of its corners `i0` (top
/// left), `i1 = i0 + 1`, `i2 = i0 + w` and `i3 = i2 + 1`.
pub open spec fn grid_index(w: int, k: int) -> int {
    let q = k / 6;
    let c = k % 6;
    let i0 = (q / (w - 1)) * w + q % (w - 1);
    if c == 0 {
        i0
    } else if c == 1 || c == 4 {
        i0 + w
    } else if c == 2 || c == 3 {
        i0 + 1
    } else {
        i0 + w + 1
    }
}

/// Entry `k` of the triangle list, located at quad `(x, y)` corner `c`.
proof fn lemma_grid_entry(w: int, y: int, x: int, c: int)
    requires
        w > 1,
        0 <= x < w - 1,
        0 <= y,
        0 <= c < 6,
    ensures
        grid_index(w, (y * (w - 1) + x) * 6 + c) == if c == 0 {
            y * w + x
        } else if c == 1 || c == 4 {
            y * w + x + w
        } else if c == 2 || c == 3 {
            y * w + x + 1
        } else {
            y * w + x + w + 1
        },
{
    let q = y * (w - 1) + x;
    assert(0 <= q) by (nonlinear_arith)
        requires
            0 <= y,
            0 <= x,
            w > 1,
            q == y * (w - 1) + x,
    ;
    vstd::arithmetic::div_mod::lemma_fundamental_div_mod_converse(q * 6 + c, 6, q, c);
    vstd::arithmetic::div_mod::lemma_fundamental_div_mod_converse(q, w - 1, y, x);
}

/// The triangle list of the terrain mesh, a grid of `width` by `height`
/// vertices: two triangles per quad, as `grid_index` says; none when the
/// grid is one vertex wide or high.
pub fn terrain_mesh_indices(width: u32, height: u32) -> (r: Vec<u32>)
    requires
        width as int * height as int <= u32::MAX,
    ensures
        width > 1 && height > 1 ==> r@.len() == (width - 1) * (height - 1) * 6,
        !(width > 1 && height > 1) ==> r@.len() == 0,
        forall|k: int| 0 <= k < r@.len() ==> r@[k] as int == grid_index(width as int, k),
        forall|k: int| 0 <= k < r@.len() ==> (#[trigger] r@[k]) < width * height,
{
    let mut indices: Vec<u32> = Vec::new();
    if width > 1 && height > 1 {
        let mut y: u32 = 0;
        while y < height - 1
            invariant
                width > 1,
                height > 1,
                width as int * height as int <= u32::MAX,
                y <= height - 1,
                indices@.len() == y as int * (width - 1) * 6,
                forall|k: int| 0 <= k < indices@.len() ==> indices@[k] as int == grid_index(width as int, k),
                forall|k: int| 0 <= k < indices@.len() ==> (#[trigger] indices@[k]) < width * height,
            decreases height - 1 - y,
        {
            let mut x: u32 = 0;
            while x < width - 1
                invariant
                    width > 1,
                    height > 1,
                    width as int * height as int <= u32::MAX,
                    y < height - 1,
                    x <= width - 1,
                    indices@.len() == (y as int * (width - 1) + x) * 6,
                    forall|k: int| 0 <= k < indices@.len() ==> indices@[k] as int == grid_index(width as int, k),
                    forall|k: int| 0 <= k < indices@.len() ==> (#[trigger] indices@[k]) < width * height,
                decreases width - 1 - x,
            {
                assert(y as int * width + x + width + 1 <= width as int * height) by (nonlinear_arith)
                    requires
                        y < height - 1,
                        x < width - 1,
                        width > 1,
                ;
                let i0 = y * width + x;
                let i1 = i0 + 1;
                let i2 = i0 + width;
                let i3 = i2 + 1;
                let ghost base = indices@.len() as int;
                assert(y as int * width + x + width + 1 < width as int * height) by (nonlinear_arith)
                    requires
                        y < height - 1,
                        x < width - 1,
                        width > 1,
                ;
                indices.push(i0);
                indices.push(i2);
                indices.push(i1);
                indices.push(i1);
                indices.push(i2);
                indices.push(i3);
                proof {
                    lemma_grid_entry(width as int, y as int, x as int, 0);
                    lemma_grid_entry(width as int, y as int, x as int, 1);
                    lemma_grid_entry(width as int, y as int, x as int, 2);
                    lemma_grid_entry(width as int, y as int, x as int, 3);
                    lemma_grid_entry(width as int, y as int, x as int, 4);
                    lemma_grid_entry(width as int, y as int, x as int, 5);
                    assert forall|k: int| 0 <= k < indices@.len() implies indices@[k] as int == grid_index(
                        width as int,
                        k,
                    ) by {
                        if k >= base {
                            assert(k == base || k == base + 1 || k == base + 2 || k == base + 3 || k == base + 4
                                || k == base + 5);
                        }
                    }
                    assert(indices@.len() == (y as int * (width - 1) + x + 1) * 6) by (nonlinear_arith)
                        requires
                            indices@.len() == base + 6,
                            base == (y as int * (width - 1) + x) * 6,
                    ;
                }
                x = x + 1;
            }
            assert(indices@.len() == (y as int + 1) * (width - 1) * 6) by (nonlinear_arith)
                requires
                    indices@.len() == (y as int * (width - 1) + (width - 1)) * 6,
            ;
            y = y + 1;
        }
        assert(indices@.len() == (width - 1) * (height - 1) * 6) by (nonlinear_arith)
            requires
                indices@.len() == (height - 1) as int * (width - 1) * 6,
        ;
    }
    indices
}

} // verus!
