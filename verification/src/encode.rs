//! Fixed GPU record layouts, 16-byte aligned, as sequences of 32-bit
//! words. Shader code decodes these bit for bit, so encoding and decoding
//! must round-trip exactly; the lemmas at the end state that they do.
//!
//! Layouts: a box record is `lower[3] + pad, upper[3] + pad` (32 bytes); a
//! node record embeds the box and adds `left`, `right`, `is_leaf`,
//! `start`, `end` and padding to 64 bytes. In the traversal layout the
//! `right` slot carries the skip index once skip links are computed
//! (`is_leaf` discriminates).

use vstd::prelude::*;

use crate::bvh::BVHNode;
use crate::geom::{Vec3, AABB};

verus! {

/// A signed fixed-point coordinate reinterpreted as a record word.
pub fn coord_bits(x: i32) -> (r: u32)
    ensures
        r == x as u32,
{
    #[verifier::truncate] (x as u32)
}

/// A record word reinterpreted as a signed fixed-point coordinate.
pub fn bits_coord(w: u32) -> (r: i32)
    ensures
        r == w as i32,
{
    #[verifier::truncate] (w as i32)
}

/// Reinterpreting a coordinate as a word and back is the identity, and so
/// is the reverse.
pub proof fn lemma_coord_bits_roundtrip(x: i32, w: u32)
    ensures
        (x as u32) as i32 == x,
        (w as i32) as u32 == w,
{
    assert((x as u32) as i32 == x) by (bit_vector);
    assert((w as i32) as u32 == w) by (bit_vector);
}

/// The eight words of a box record: lower corner plus padding, upper
/// corner plus padding.
pub open spec fn aabb_words(b: AABB) -> Seq<u32> {
    seq![
        b.lb.x as u32,
        b.lb.y as u32,
        b.lb.z as u32,
        0u32,
        b.ub.x as u32,
        b.ub.y as u32,
        b.ub.z as u32,
        0u32,
    ]
}

/// The box encoded in eight record words starting at `base`.
pub open spec fn decoded_aabb(w: Seq<u32>, base: int) -> AABB {
    AABB {
        lb: Vec3 { x: w[base] as i32, y: w[base + 1] as i32, z: w[base + 2] as i32 },
        ub: Vec3 { x: w[base + 4] as i32, y: w[base + 5] as i32, z: w[base + 6] as i32 },
    }
}

/// Append the record words of a box to `out`.
pub fn encode_aabb(b: &AABB, out: &mut Vec<u32>)
    ensures
        final(out)@ == old(out)@ + aabb_words(*b),
{
    out.push(coord_bits(b.lb.x));
    out.push(coord_bits(b.lb.y));
    out.push(coord_bits(b.lb.z));
    out.push(0);
    out.push(coord_bits(b.ub.x));
    out.push(coord_bits(b.ub.y));
    out.push(coord_bits(b.ub.z));
    out.push(0);
    proof {
        assert(out@ =~= old(out)@ + aabb_words(*b));
    }
}

/// Read a box record starting at word `base`.
pub fn decode_aabb(words: &Vec<u32>, base: usize) -> (r: AABB)
    requires
        base + 8 <= words@.len(),
    ensures
        r == decoded_aabb(words@, base as int),
{
    let n = words.len();
    AABB {
        lb: Vec3 {
            x: bits_coord(words[base]),
            y: bits_coord(words[base + 1]),
            z: bits_coord(words[base + 2]),
        },
        ub: Vec3 {
            x: bits_coord(words[base + 4]),
            y: bits_coord(words[base + 5]),
            z: bits_coord(words[base + 6]),
        },
    }
}

/// Decoding an encoded box gives the box back.
pub proof fn lemma_aabb_roundtrip(b: AABB)
    ensures
        decoded_aabb(aabb_words(b), 0) == b,
{
    lemma_coord_bits_roundtrip(b.lb.x, 0);
    lemma_coord_bits_roundtrip(b.lb.y, 0);
    lemma_coord_bits_roundtrip(b.lb.z, 0);
    lemma_coord_bits_roundtrip(b.ub.x, 0);
    lemma_coord_bits_roundtrip(b.ub.y, 0);
    lemma_coord_bits_roundtrip(b.ub.z, 0);
}

/// The field view of a node record: the in-memory node with its indices
/// narrowed to record width and the skip link moved into the `right`
/// slot.
#[derive(Clone, Copy, Debug, PartialEq, Eq, Structural)]
pub struct BVHNodeGPU {
    pub bounds: AABB,
    pub left: u32,
    pub right: u32,
    pub is_leaf: u32,
    pub start: u32,
    pub end: u32,
}

/// The record fields a built node maps to: `right` carries the skip
/// index, `is_leaf` is one word.
pub open spec fn spec_node_gpu(n: BVHNode) -> BVHNodeGPU {
    BVHNodeGPU {
        bounds: n.bounds,
        left: n.left as u32,
        right: n.skip as u32,
        is_leaf: if n.is_leaf {
            1u32
        } else {
            0u32
        },
        start: n.start as u32,
        end: n.end as u32,
    }
}

/// Narrow a built node to its record fields.
pub fn node_gpu(n: &BVHNode) -> (g: BVHNodeGPU)
    requires
        n.left <= u32::MAX,
        n.skip <= u32::MAX,
        n.start <= u32::MAX,
        n.end <= u32::MAX,
    ensures
        g == spec_node_gpu(*n),
{
    BVHNodeGPU {
        bounds: n.bounds,
        left: n.left as u32,
        right: n.skip as u32,
        is_leaf: if n.is_leaf {
            1
        } else {
            0
        },
        start: n.start as u32,
        end: n.end as u32,
    }
}

/// The sixteen words of a node record: the box, the five index words and
/// padding to a 16-byte multiple.
pub open spec fn node_words(g: BVHNodeGPU) -> Seq<u32> {
    aabb_words(g.bounds) + seq![g.left, g.right, g.is_leaf, g.start, g.end, 0u32, 0u32, 0u32]
}

/// The record fields encoded in sixteen words starting at `base`.
pub open spec fn decoded_node(w: Seq<u32>, base: int) -> BVHNodeGPU {
    BVHNodeGPU {
        bounds: decoded_aabb(w, base),
        left: w[base + 8],
        right: w[base + 9],
        is_leaf: w[base + 10],
        start: w[base + 11],
        end: w[base + 12],
    }
}

/// Append the record words of a node to `out`.
pub fn encode_node(g: &BVHNodeGPU, out: &mut Vec<u32>)
    ensures
        final(out)@ == old(out)@ + node_words(*g),
{
    encode_aabb(&g.bounds, out);
    out.push(g.left);
    out.push(g.right);
    out.push(g.is_leaf);
    out.push(g.start);
    out.push(g.end);
    out.push(0);
    out.push(0);
    out.push(0);
    proof {
        assert(out@ =~= old(out)@ + node_words(*g));
    }
}

/// Read a node record starting at word `base`.
pub fn decode_node(words: &Vec<u32>, base: usize) -> (g: BVHNodeGPU)
    requires
        base + 16 <= words@.len(),
    ensures
        g == decoded_node(words@, base as int),
{
    let n = words.len();
    BVHNodeGPU {
        bounds: decode_aabb(words, base),
        left: words[base + 8],
        right: words[base + 9],
        is_leaf: words[base + 10],
        start: words[base + 11],
        end: words[base + 12],
    }
}

/// Decoding an encoded node record gives the fields back exactly.
pub proof fn lemma_node_roundtrip(g: BVHNodeGPU)
    ensures
        decoded_node(node_words(g), 0) == g,
{
    lemma_aabb_roundtrip(g.bounds);
    assert(decoded_aabb(node_words(g), 0) == decoded_aabb(aabb_words(g.bounds), 0));
}

/// Re-encoding a decoded record reproduces the words exactly, for any
/// sixteen words whose padding slots are zero.
pub proof fn lemma_words_roundtrip(w: Seq<u32>)
    requires
        w.len() == 16,
        w[3] == 0,
        w[7] == 0,
        w[13] == 0,
        w[14] == 0,
        w[15] == 0,
    ensures
        node_words(decoded_node(w, 0)) == w,
{
    let g = decoded_node(w, 0);
    lemma_coord_bits_roundtrip(0, w[0]);
    lemma_coord_bits_roundtrip(0, w[1]);
    lemma_coord_bits_roundtrip(0, w[2]);
    lemma_coord_bits_roundtrip(0, w[4]);
    lemma_coord_bits_roundtrip(0, w[5]);
    lemma_coord_bits_roundtrip(0, w[6]);
    assert(node_words(g) =~= w);
}

/// Pack three 8-bit color channels into one word, red high.
pub fn pack_rgb(r: u32, g: u32, b: u32) -> (p: u32)
    requires
        r <= 255,
        g <= 255,
        b <= 255,
    ensures
        p == r * 65536 + g * 256 + b,
{
    r * 65536 + g * 256 + b
}

} // verus!
