//! Region canvases: the raster of one tile, and the placing of shaded chunk
//! patches into it.
use vstd::prelude::*;
use crate::coords::{SIDE, CLoc, RLoc};
use crate::pipeline::north_of;
use vstd::arithmetic::div_mod::{lemma_fundamental_div_mod, lemma_fundamental_div_mod_converse};

verus! {

/// Pixels along one side of a chunk patch.
pub const CHUNK_PIXELS: usize = 16;

/// Pixels along one side of a region tile: `SIDE * CHUNK_PIXELS`.
pub const TILE_PIXELS: usize = 512;

/// Pixels in a region tile.
pub const TILE_AREA: usize = 262144;

/// One RGBA pixel.
pub type Rgba = [u8; 4];

/// The canvas after drawing `patch` over the square of chunk `c`: pixel
/// `(px, py)` of that square takes the patch's pixel at the same place
/// inside the chunk; every other pixel stays.
pub open spec fn blit_spec(canvas: Seq<Rgba>, patch: Seq<Rgba>, c: CLoc) -> Seq<Rgba> {
    Seq::new(
        canvas.len(),
        |p: int|
            {
                let px = p % TILE_PIXELS as int;
                let py = p / TILE_PIXELS as int;
                if c.0 * CHUNK_PIXELS <= px < c.0 * CHUNK_PIXELS + CHUNK_PIXELS && c.1 * CHUNK_PIXELS
                    <= py < c.1 * CHUNK_PIXELS + CHUNK_PIXELS {
                    patch[(py - c.1 * CHUNK_PIXELS) * CHUNK_PIXELS as int + (px - c.0
                        * CHUNK_PIXELS)]
                } else {
                    canvas[p]
                }
            },
    )
}

/// The canvas after the first `k` pixels of `patch`, in row-major order,
/// were drawn over the square of chunk `c`.
spec fn blit_upto(canvas: Seq<Rgba>, patch: Seq<Rgba>, c: CLoc, k: int) -> Seq<Rgba> {
    Seq::new(
        canvas.len(),
        |p: int|
            {
                let px = p % TILE_PIXELS as int;
                let py = p / TILE_PIXELS as int;
                let local = (py - c.1 * CHUNK_PIXELS) * CHUNK_PIXELS as int + (px - c.0
                    * CHUNK_PIXELS);
                if c.0 * CHUNK_PIXELS <= px < c.0 * CHUNK_PIXELS + CHUNK_PIXELS && c.1 * CHUNK_PIXELS
                    <= py < c.1 * CHUNK_PIXELS + CHUNK_PIXELS && local < k {
                    patch[local]
                } else {
                    canvas[p]
                }
            },
    )
}

/// Draws `patch`, a chunk's 16 by 16 pixels in row-major order, over the
/// square of chunk `c` in the canvas.
pub fn blit(canvas: &mut Vec<Rgba>, patch: &[Rgba; 256], c: &CLoc)
    requires
        old(canvas)@.len() == TILE_AREA,
        c.valid(),
    ensures
        final(canvas)@ == blit_spec(old(canvas)@, patch@, *c),
{
    let ghost start = canvas@;
    let mut k: usize = 0;
    proof {
        assert(blit_upto(start, patch@, *c, 0) =~= start);
    }
    while k < 256
        invariant
            k <= 256,
            c.valid(),
            start.len() == TILE_AREA,
            canvas@ == blit_upto(start, patch@, *c, k as int),
        decreases 256 - k,
    {
        let y = k / CHUNK_PIXELS;
        let x = k % CHUNK_PIXELS;
        let p = (c.1 * CHUNK_PIXELS + y) * TILE_PIXELS + c.0 * CHUNK_PIXELS + x;
        let ghost before = canvas@;
        canvas[p] = patch[k];
        proof {
            let px = (c.0 * CHUNK_PIXELS + x) as int;
            let py = (c.1 * CHUNK_PIXELS + y) as int;
            lemma_fundamental_div_mod_converse(p as int, TILE_PIXELS as int, py, px);
            assert forall|q: int| 0 <= q < TILE_AREA implies #[trigger] canvas@[q] == blit_upto(
                start,
                patch@,
                *c,
                k + 1,
            )[q] by {
                let qx = q % TILE_PIXELS as int;
                let qy = q / TILE_PIXELS as int;
                lemma_fundamental_div_mod(q, TILE_PIXELS as int);
                if q != p {
                    let local = (qy - c.1 * CHUNK_PIXELS) * CHUNK_PIXELS as int + (qx - c.0
                        * CHUNK_PIXELS);
                    if c.0 * CHUNK_PIXELS <= qx < c.0 * CHUNK_PIXELS + CHUNK_PIXELS && c.1
                        * CHUNK_PIXELS <= qy < c.1 * CHUNK_PIXELS + CHUNK_PIXELS && local == k {
                        lemma_fundamental_div_mod_converse(
                            local,
                            CHUNK_PIXELS as int,
                            qy - c.1 * CHUNK_PIXELS,
                            qx - c.0 * CHUNK_PIXELS,
                        );
                        assert(false);
                    }
                }
            }
            assert(canvas@ =~= blit_upto(start, patch@, *c, k + 1));
        }
        k += 1;
    }
    proof {
        assert forall|q: int| 0 <= q < TILE_AREA implies #[trigger] canvas@[q] == blit_spec(
            start,
            patch@,
            *c,
        )[q] by {
            let qx = q % TILE_PIXELS as int;
            let qy = q / TILE_PIXELS as int;
            if c.0 * CHUNK_PIXELS <= qx < c.0 * CHUNK_PIXELS + CHUNK_PIXELS && c.1 * CHUNK_PIXELS
                <= qy < c.1 * CHUNK_PIXELS + CHUNK_PIXELS {
                assert((qy - c.1 * CHUNK_PIXELS) * CHUNK_PIXELS as int + (qx - c.0 * CHUNK_PIXELS) < 256);
            }
        }
        assert(canvas@ =~= blit_spec(start, patch@, *c));
    }
}

/// Draws the shaded patch of chunk `c` over its square of the canvas; a
/// chunk that could not be read or shaded has no patch and leaves the
/// canvas as it was. The result tells whether a patch was drawn.
pub fn draw_chunk(canvas: &mut Vec<Rgba>, patch: Option<&[Rgba; 256]>, c: &CLoc) -> (drawn: bool)
    requires
        old(canvas)@.len() == TILE_AREA,
        c.valid(),
    ensures
        drawn == patch is Some,
        patch is None ==> final(canvas)@ == old(canvas)@,
        patch matches Some(p) ==> final(canvas)@ == blit_spec(old(canvas)@, p@, *c),
{
    match patch {
        Some(p) => {
            blit(canvas, p, c);
            true
        },
        None => false,
    }
}

/// A canvas of the tile's size with every pixel zero.
pub fn blank_canvas() -> (r: Vec<Rgba>)
    ensures
        r@.len() == TILE_AREA,
        forall|i: int| 0 <= i < TILE_AREA ==> #[trigger] r@[i] == [0u8, 0u8, 0u8, 0u8],
{
    let mut r: Vec<Rgba> = Vec::new();
    let mut i: usize = 0;
    while i < TILE_AREA
        invariant
            i <= TILE_AREA,
            r@.len() == i,
            forall|j: int| 0 <= j < i ==> #[trigger] r@[j] == [0u8, 0u8, 0u8, 0u8],
        decreases TILE_AREA - i,
    {
        r.push([0u8, 0u8, 0u8, 0u8]);
        i += 1;
    }
    r
}

/// The canvas that raw RGBA bytes hold, four bytes per pixel, where they are
/// exactly a tile's worth.
pub fn canvas_from_rgba(bytes: &[u8]) -> (r: Option<Vec<Rgba>>)
    ensures
        r is Some <==> bytes@.len() == TILE_AREA * 4,
        r matches Some(c) ==> c@.len() == TILE_AREA && forall|i: int|
            0 <= i < TILE_AREA ==> #[trigger] c@[i] == [
                bytes@[4 * i],
                bytes@[4 * i + 1],
                bytes@[4 * i + 2],
                bytes@[4 * i + 3],
            ],
{
    if bytes.len() != TILE_AREA * 4 {
        return None;
    }
    let mut r: Vec<Rgba> = Vec::new();
    let mut i: usize = 0;
    while i < TILE_AREA
        invariant
            i <= TILE_AREA,
            bytes@.len() == TILE_AREA * 4,
            r@.len() == i,
            forall|j: int|
                0 <= j < i ==> #[trigger] r@[j] == [
                    bytes@[4 * j],
                    bytes@[4 * j + 1],
                    bytes@[4 * j + 2],
                    bytes@[4 * j + 3],
                ],
        decreases TILE_AREA - i,
    {
        r.push([bytes[4 * i], bytes[4 * i + 1], bytes[4 * i + 2], bytes[4 * i + 3]]);
        i += 1;
    }
    Some(r)
}

/// The raw RGBA bytes of a canvas, four per pixel.
pub fn canvas_to_rgba(canvas: &Vec<Rgba>) -> (r: Vec<u8>)
    requires
        canvas@.len() == TILE_AREA,
    ensures
        r@.len() == TILE_AREA * 4,
        forall|i: int|
            0 <= i < TILE_AREA ==> #[trigger] canvas@[i] == [
                r@[4 * i],
                r@[4 * i + 1],
                r@[4 * i + 2],
                r@[4 * i + 3],
            ],
{
    let mut r: Vec<u8> = Vec::new();
    let mut i: usize = 0;
    while i < TILE_AREA
        invariant
            i <= TILE_AREA,
            canvas@.len() == TILE_AREA,
            r@.len() == 4 * i,
            forall|j: int|
                0 <= j < i ==> #[trigger] canvas@[j] == [
                    r@[4 * j],
                    r@[4 * j + 1],
                    r@[4 * j + 2],
                    r@[4 * j + 3],
                ],
        decreases TILE_AREA - i,
    {
        let px = canvas[i];
        r.push(px[0]);
        r.push(px[1]);
        r.push(px[2]);
        r.push(px[3]);
        proof {
            assert(px == [r@[4 * i], r@[4 * i + 1], r@[4 * i + 2], r@[4 * i + 3]]);
        }
        i += 1;
    }
    r
}

/// The chunk whose shading context is north of chunk `c` of region `r`: the
/// chunk above in the same region, or for the first row the last-row chunk
/// of the region to the north, where that region is representable.
pub fn north_chunk(r: &RLoc, c: &CLoc) -> (res: Option<(RLoc, CLoc)>)
    requires
        c.valid(),
    ensures
        c.1 > 0 ==> res == Some((*r, CLoc(c.0, (c.1 - 1) as usize))),
        c.1 == 0 ==> res == match north_of(*r) {
            Some(n) => Some((n, CLoc(c.0, (SIDE - 1) as usize))),
            None => None,
        },
{
    if c.1 > 0 {
        Some((*r, CLoc(c.0, c.1 - 1)))
    } else if r.1 > i32::MIN {
        Some((RLoc(r.0, r.1 - 1), CLoc(c.0, SIDE - 1)))
    } else {
        None
    }
}

} // verus!
