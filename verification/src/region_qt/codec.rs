//! The codec: canonical pre-order binary serialization of a built tree and
//! its inverse. The format is `width` and `height` as little-endian 32-bit
//! values, then one tag byte per node in pre-order — a leaf tag followed by
//! the four color channel bytes, or an interior tag followed by the four
//! children in canonical quadrant order. The shape is self-describing, so no
//! length fields are needed.

use vstd::prelude::*;

use crate::region_qt::primitives::{lemma_quadrant_geometry, BoundingBox, Point};
use crate::region_qt::{RegionError, RegionNodeQt, RegionQt};

verus! {

/// Tag byte marking an interior node; its four children follow.
pub const TAG_INTERIOR: u8 = 0;

/// Tag byte marking a leaf; its four color channel bytes follow.
pub const TAG_LEAF: u8 = 1;

/// The four little-endian bytes of a 32-bit value.
pub open spec fn u32_le(v: u32) -> Seq<u8> {
    seq![
        (v & 0xff) as u8,
        ((v >> 8) & 0xff) as u8,
        ((v >> 16) & 0xff) as u8,
        ((v >> 24) & 0xff) as u8,
    ]
}

/// The canonical pre-order encoding of one node.
pub open spec fn spec_encode_node(n: RegionNodeQt) -> Seq<u8>
    decreases n,
{
    match n {
        RegionNodeQt::Leaf { color, .. } => seq![TAG_LEAF, color.r, color.g, color.b, color.a],
        RegionNodeQt::Interior { c0, c1, c2, c3, .. } =>
            seq![TAG_INTERIOR] + spec_encode_node(*c0) + spec_encode_node(*c1)
                + spec_encode_node(*c2) + spec_encode_node(*c3),
    }
}

/// The canonical encoding of a built tree: the dimensions, then the root.
pub open spec fn spec_encode(t: RegionQt) -> Seq<u8> {
    u32_le(t.spec_width()) + u32_le(t.spec_height()) + spec_encode_node(t.root_node())
}

/// `p` is an initial segment of `s`.
pub open spec fn is_prefix(p: Seq<u8>, s: Seq<u8>) -> bool {
    p.len() <= s.len() && p == s.subrange(0, p.len() as int)
}

/// Every node encoding starts with its variant's tag byte.
proof fn lemma_encode_node_head(n: RegionNodeQt)
    ensures
        spec_encode_node(n).len() >= 1,
        n is Leaf ==> spec_encode_node(n).len() == 5
            && spec_encode_node(n)[0] == TAG_LEAF,
        n is Interior ==> spec_encode_node(n)[0] == TAG_INTERIOR,
{
    match n {
        RegionNodeQt::Leaf { .. } => {},
        RegionNodeQt::Interior { c0, c1, c2, c3, .. } => {
            let e = seq![TAG_INTERIOR] + spec_encode_node(*c0) + spec_encode_node(*c1)
                + spec_encode_node(*c2) + spec_encode_node(*c3);
            assert(e[0] == TAG_INTERIOR);
        },
    }
}

/// Append the four little-endian bytes of `v`.
fn push_u32_le(out: &mut Vec<u8>, v: u32)
    ensures
        final(out)@ == old(out)@ + u32_le(v),
{
    out.push((v & 0xff) as u8);
    out.push(((v >> 8) & 0xff) as u8);
    out.push(((v >> 16) & 0xff) as u8);
    out.push(((v >> 24) & 0xff) as u8);
    proof {
        assert(out@ =~= old(out)@ + u32_le(v));
    }
}

/// Read four little-endian bytes as a 32-bit value.
fn read_u32_le(bytes: &Vec<u8>, pos: usize) -> (v: u32)
    requires
        pos + 4 <= bytes@.len(),
    ensures
        u32_le(v) == bytes@.subrange(pos as int, pos as int + 4),
{
    // pins the buffer length to a machine word for the offset arithmetic
    let _n: usize = bytes.len();
    let b0 = bytes[pos];
    let b1 = bytes[pos + 1];
    let b2 = bytes[pos + 2];
    let b3 = bytes[pos + 3];
    let v: u32 = (b0 as u32) | ((b1 as u32) << 8u32) | ((b2 as u32) << 16u32)
        | ((b3 as u32) << 24u32);
    proof {
        assert((v & 0xff) as u8 == b0 && ((v >> 8) & 0xff) as u8 == b1
            && ((v >> 16) & 0xff) as u8 == b2 && ((v >> 24) & 0xff) as u8 == b3) by (bit_vector)
            requires
                v == (b0 as u32) | ((b1 as u32) << 8u32) | ((b2 as u32) << 16u32)
                    | ((b3 as u32) << 24u32),
        ;
        assert(u32_le(v) =~= bytes@.subrange(pos as int, pos as int + 4));
    }
    v
}

/// Two equal four-byte encodings come from the same value.
proof fn lemma_u32_le_injective(v1: u32, v2: u32)
    requires
        u32_le(v1) == u32_le(v2),
    ensures
        v1 == v2,
{
    assert(u32_le(v1)[0] == u32_le(v2)[0]);
    assert(u32_le(v1)[1] == u32_le(v2)[1]);
    assert(u32_le(v1)[2] == u32_le(v2)[2]);
    assert(u32_le(v1)[3] == u32_le(v2)[3]);
    assert(v1 == v2) by (bit_vector)
        requires
            (v1 & 0xff) as u8 == (v2 & 0xff) as u8,
            ((v1 >> 8) & 0xff) as u8 == ((v2 >> 8) & 0xff) as u8,
            ((v1 >> 16) & 0xff) as u8 == ((v2 >> 16) & 0xff) as u8,
            ((v1 >> 24) & 0xff) as u8 == ((v2 >> 24) & 0xff) as u8,
    ;
}

/// Write the pre-order encoding of the subtree rooted at `n`.
fn encode_node(n: &RegionNodeQt, out: &mut Vec<u8>)
    ensures
        final(out)@ == old(out)@ + spec_encode_node(*n),
    decreases *n,
{
    match n {
        RegionNodeQt::Leaf { color, .. } => {
            out.push(TAG_LEAF);
            out.push(color.r);
            out.push(color.g);
            out.push(color.b);
            out.push(color.a);
            proof {
                assert(out@ =~= old(out)@ + spec_encode_node(*n));
            }
        },
        RegionNodeQt::Interior { c0, c1, c2, c3, .. } => {
            out.push(TAG_INTERIOR);
            encode_node(c0, out);
            encode_node(c1, out);
            encode_node(c2, out);
            encode_node(c3, out);
            proof {
                assert(out@ =~= old(out)@ + spec_encode_node(*n));
            }
        },
    }
}

/// Splitting a prefix: when `p + q` starts `s`, `p` starts `s` and `q`
/// starts what remains of `s` after `p`.
proof fn lemma_prefix_parts(p: Seq<u8>, q: Seq<u8>, s: Seq<u8>)
    requires
        is_prefix(p + q, s),
    ensures
        is_prefix(p, s),
        is_prefix(q, s.skip(p.len() as int)),
{
    assert forall|i: int| 0 <= i < p.len() + q.len() implies (p + q)[i] == s[i] by {
        assert((p + q)[i] == s.subrange(0, (p + q).len() as int)[i]);
    }
    assert(p =~= s.subrange(0, p.len() as int));
    assert(q =~= s.skip(p.len() as int).subrange(0, q.len() as int));
}

/// Dropping `a` then `b` elements is dropping `a + b` elements.
proof fn lemma_skip_skip(s: Seq<u8>, a: int, b: int)
    requires
        0 <= a,
        0 <= b,
        a + b <= s.len(),
    ensures
        s.skip(a).skip(b) == s.skip(a + b),
{
    assert(s.skip(a).skip(b) =~= s.skip(a + b));
}

/// A subrange starting at `a` is a prefix of the stream from `a` on.
proof fn lemma_subrange_prefix(s: Seq<u8>, a: int, b: int)
    requires
        0 <= a <= b <= s.len(),
    ensures
        is_prefix(s.subrange(a, b), s.skip(a)),
{
    assert(s.subrange(a, b) =~= s.skip(a).subrange(0, b - a));
}

/// The interior encoding regrouped for peeling children off the front.
proof fn lemma_interior_regroup(n: RegionNodeQt)
    requires
        n is Interior,
    ensures
        spec_encode_node(n) == seq![TAG_INTERIOR]
            + (spec_encode_node(n.child(0))
                + (spec_encode_node(n.child(1))
                    + (spec_encode_node(n.child(2)) + spec_encode_node(n.child(3))))),
{
    match n {
        RegionNodeQt::Interior { c0, c1, c2, c3, .. } => {
            assert(spec_encode_node(n) =~= seq![TAG_INTERIOR]
                + (spec_encode_node(*c0)
                    + (spec_encode_node(*c1)
                        + (spec_encode_node(*c2) + spec_encode_node(*c3)))));
        },
        RegionNodeQt::Leaf { .. } => {},
    }
}

/// Round-trip determinism of the node format: two well-formed nodes over the
/// same box whose encodings begin the same byte stream are the same node.
/// The format is prefix-free in this sense, so no length fields are needed.
pub proof fn lemma_encode_deterministic(a: RegionNodeQt, b: RegionNodeQt, s: Seq<u8>)
    requires
        a.wf(),
        b.wf(),
        a.bounding() == b.bounding(),
        is_prefix(spec_encode_node(a), s),
        is_prefix(spec_encode_node(b), s),
    ensures
        a == b,
    decreases a,
{
    lemma_encode_node_head(a);
    lemma_encode_node_head(b);
    let ea = spec_encode_node(a);
    let eb = spec_encode_node(b);
    assert(ea[0] == s[0]);
    assert(eb[0] == s[0]);
    match (a, b) {
        (
            RegionNodeQt::Leaf { bounding: bba, color: ca },
            RegionNodeQt::Leaf { bounding: bbb, color: cb },
        ) => {
            assert(ca.r == s[1] && ca.g == s[2] && ca.b == s[3] && ca.a == s[4]);
            assert(cb.r == s[1] && cb.g == s[2] && cb.b == s[3] && cb.a == s[4]);
            assert(bba == bbb);
            assert(a == b);
        },
        (
            RegionNodeQt::Interior { bounding: bba, c0: a0, c1: a1, c2: a2, c3: a3 },
            RegionNodeQt::Interior { bounding: bbb, c0: b0, c1: b1, c2: b2, c3: b3 },
        ) => {
            assert(bba == bbb);
            let ea0 = spec_encode_node(*a0);
            let ea1 = spec_encode_node(*a1);
            let ea2 = spec_encode_node(*a2);
            let ea3 = spec_encode_node(*a3);
            let eb0 = spec_encode_node(*b0);
            let eb1 = spec_encode_node(*b1);
            let eb2 = spec_encode_node(*b2);
            let eb3 = spec_encode_node(*b3);
            lemma_interior_regroup(a);
            lemma_interior_regroup(b);
            let s1 = s.skip(1);
            lemma_prefix_parts(seq![TAG_INTERIOR], ea0 + (ea1 + (ea2 + ea3)), s);
            lemma_prefix_parts(seq![TAG_INTERIOR], eb0 + (eb1 + (eb2 + eb3)), s);
            lemma_prefix_parts(ea0, ea1 + (ea2 + ea3), s1);
            lemma_prefix_parts(eb0, eb1 + (eb2 + eb3), s1);
            lemma_encode_deterministic(*a0, *b0, s1);
            let s2 = s1.skip(ea0.len() as int);
            lemma_prefix_parts(ea1, ea2 + ea3, s2);
            lemma_prefix_parts(eb1, eb2 + eb3, s2);
            lemma_encode_deterministic(*a1, *b1, s2);
            let s3 = s2.skip(ea1.len() as int);
            lemma_prefix_parts(ea2, ea3, s3);
            lemma_prefix_parts(eb2, eb3, s3);
            lemma_encode_deterministic(*a2, *b2, s3);
            let s4 = s3.skip(ea2.len() as int);
            lemma_encode_deterministic(*a3, *b3, s4);
            assert(a == b);
        },
        _ => {
            assert(false);
        },
    }
}

/// Parse one node from `bytes` at `pos`, reconstructing its box as
/// `bounding`. On success the consumed bytes are exactly the node's
/// encoding; on failure no well-formed node over `bounding` encodes to a
/// prefix of the remaining stream.
fn parse_node(bytes: &Vec<u8>, pos: usize, bounding: BoundingBox) -> (r: Result<
    (RegionNodeQt, usize),
    RegionError,
>)
    requires
        bounding.valid(),
        pos <= bytes@.len(),
    ensures
        match r {
            Ok(p) => {
                &&& pos < p.1 <= bytes@.len()
                &&& p.0.wf()
                &&& p.0.bounding() == bounding
                &&& spec_encode_node(p.0) == bytes@.subrange(pos as int, p.1 as int)
            },
            Err(e) => {
                &&& e == RegionError::CorruptData
                &&& forall|n: RegionNodeQt| n.wf() && n.bounding() == bounding ==>
                    !is_prefix(#[trigger] spec_encode_node(n), bytes@.skip(pos as int))
            },
        },
    decreases bounding.width() + bounding.height(),
{
    let len: usize = bytes.len();
    let ghost s = bytes@.skip(pos as int);
    if pos >= len {
        proof {
            assert forall|n: RegionNodeQt| n.wf() && n.bounding() == bounding implies
                !is_prefix(#[trigger] spec_encode_node(n), s) by {
                lemma_encode_node_head(n);
            }
        }
        return Err(RegionError::CorruptData);
    }
    let tag = bytes[pos];
    proof {
        assert(s[0] == tag);
    }
    if tag == TAG_LEAF {
        if len - pos < 5 {
            proof {
                assert forall|n: RegionNodeQt| n.wf() && n.bounding() == bounding implies
                    !is_prefix(#[trigger] spec_encode_node(n), s) by {
                    lemma_encode_node_head(n);
                    if is_prefix(spec_encode_node(n), s) {
                        assert(spec_encode_node(n)[0] == s[0]);
                        assert(n is Leaf);
                        assert(false);
                    }
                }
            }
            return Err(RegionError::CorruptData);
        }
        let cr = bytes[pos + 1];
        let cg = bytes[pos + 2];
        let cb = bytes[pos + 3];
        let ca = bytes[pos + 4];
        let node = RegionNodeQt::Leaf {
            bounding,
            color: crate::region_qt::Rgba { r: cr, g: cg, b: cb, a: ca },
        };
        let end = pos + 5;
        proof {
            assert(spec_encode_node(node) =~= bytes@.subrange(pos as int, end as int));
        }
        Ok((node, end))
    } else if tag == TAG_INTERIOR {
        let divisible = bounding.max.x - bounding.min.x > 1 || bounding.max.y - bounding.min.y > 1;
        if !divisible {
            proof {
                assert forall|n: RegionNodeQt| n.wf() && n.bounding() == bounding implies
                    !is_prefix(#[trigger] spec_encode_node(n), s) by {
                    lemma_encode_node_head(n);
                    if is_prefix(spec_encode_node(n), s) {
                        assert(spec_encode_node(n)[0] == s[0]);
                        assert(n is Interior);
                        assert(n.bounding().divisible());
                        assert(false);
                    }
                }
            }
            return Err(RegionError::CorruptData);
        }
        proof {
            lemma_quadrant_geometry(bounding);
        }
        let q0 = bounding.quadrant(0);
        let q1 = bounding.quadrant(1);
        let q2 = bounding.quadrant(2);
        let q3 = bounding.quadrant(3);

        let res0 = parse_node(bytes, pos + 1, q0);
        let (n0, p1) = match res0 {
            Ok(p) => p,
            Err(_) => {
                proof {
                    lemma_skip_skip(bytes@, pos as int, 1);
                    assert forall|n: RegionNodeQt| n.wf() && n.bounding() == bounding implies
                        !is_prefix(#[trigger] spec_encode_node(n), s) by {
                        lemma_encode_node_head(n);
                        if is_prefix(spec_encode_node(n), s) {
                            match n {
                                RegionNodeQt::Interior { bounding: nb, c0: m0, c1: m1, c2: m2, c3: m3 } => {
                                    let em0 = spec_encode_node(*m0);
                                    let em1 = spec_encode_node(*m1);
                                    let em2 = spec_encode_node(*m2);
                                    let em3 = spec_encode_node(*m3);
                                    lemma_interior_regroup(n);
                                    lemma_prefix_parts(seq![TAG_INTERIOR], em0 + (em1 + (em2 + em3)), s);
                                    lemma_prefix_parts(em0, em1 + (em2 + em3), bytes@.skip(pos + 1));
                                    assert(false);
                                },
                                RegionNodeQt::Leaf { .. } => {
                                    assert(false);
                                },
                            }
                        }
                    }
                }
                return Err(RegionError::CorruptData);
            },
        };

        let res1 = parse_node(bytes, p1, q1);
        let (n1, p2) = match res1 {
            Ok(p) => p,
            Err(_) => {
                proof {
                    lemma_skip_skip(bytes@, pos as int, 1);
                    assert forall|n: RegionNodeQt| n.wf() && n.bounding() == bounding implies
                        !is_prefix(#[trigger] spec_encode_node(n), s) by {
                        lemma_encode_node_head(n);
                        if is_prefix(spec_encode_node(n), s) {
                            match n {
                                RegionNodeQt::Interior { bounding: nb, c0: m0, c1: m1, c2: m2, c3: m3 } => {
                                    let em0 = spec_encode_node(*m0);
                                    let em1 = spec_encode_node(*m1);
                                    let em2 = spec_encode_node(*m2);
                                    let em3 = spec_encode_node(*m3);
                                    lemma_interior_regroup(n);
                                    lemma_prefix_parts(seq![TAG_INTERIOR], em0 + (em1 + (em2 + em3)), s);
                                    lemma_prefix_parts(em0, em1 + (em2 + em3), bytes@.skip(pos + 1));
                                    lemma_subrange_prefix(bytes@, pos + 1, p1 as int);
                                    lemma_encode_deterministic(*m0, n0, bytes@.skip(pos + 1));
                                    lemma_skip_skip(bytes@, pos + 1, p1 - (pos + 1));
                                    lemma_prefix_parts(em1, em2 + em3, bytes@.skip(p1 as int));
                                    assert(false);
                                },
                                RegionNodeQt::Leaf { .. } => {
                                    assert(false);
                                },
                            }
                        }
                    }
                }
                return Err(RegionError::CorruptData);
            },
        };

        let res2 = parse_node(bytes, p2, q2);
        let (n2, p3) = match res2 {
            Ok(p) => p,
            Err(_) => {
                proof {
                    lemma_skip_skip(bytes@, pos as int, 1);
                    assert forall|n: RegionNodeQt| n.wf() && n.bounding() == bounding implies
                        !is_prefix(#[trigger] spec_encode_node(n), s) by {
                        lemma_encode_node_head(n);
                        if is_prefix(spec_encode_node(n), s) {
                            match n {
                                RegionNodeQt::Interior { bounding: nb, c0: m0, c1: m1, c2: m2, c3: m3 } => {
                                    let em0 = spec_encode_node(*m0);
                                    let em1 = spec_encode_node(*m1);
                                    let em2 = spec_encode_node(*m2);
                                    let em3 = spec_encode_node(*m3);
                                    lemma_interior_regroup(n);
                                    lemma_prefix_parts(seq![TAG_INTERIOR], em0 + (em1 + (em2 + em3)), s);
                                    lemma_prefix_parts(em0, em1 + (em2 + em3), bytes@.skip(pos + 1));
                                    lemma_subrange_prefix(bytes@, pos + 1, p1 as int);
                                    lemma_encode_deterministic(*m0, n0, bytes@.skip(pos + 1));
                                    lemma_skip_skip(bytes@, pos + 1, p1 - (pos + 1));
                                    lemma_prefix_parts(em1, em2 + em3, bytes@.skip(p1 as int));
                                    lemma_subrange_prefix(bytes@, p1 as int, p2 as int);
                                    lemma_encode_deterministic(*m1, n1, bytes@.skip(p1 as int));
                                    lemma_skip_skip(bytes@, p1 as int, p2 - p1);
                                    lemma_prefix_parts(em2, em3, bytes@.skip(p2 as int));
                                    assert(false);
                                },
                                RegionNodeQt::Leaf { .. } => {
                                    assert(false);
                                },
                            }
                        }
                    }
                }
                return Err(RegionError::CorruptData);
            },
        };

        let res3 = parse_node(bytes, p3, q3);
        let (n3, p4) = match res3 {
            Ok(p) => p,
            Err(_) => {
                proof {
                    lemma_skip_skip(bytes@, pos as int, 1);
                    assert forall|n: RegionNodeQt| n.wf() && n.bounding() == bounding implies
                        !is_prefix(#[trigger] spec_encode_node(n), s) by {
                        lemma_encode_node_head(n);
                        if is_prefix(spec_encode_node(n), s) {
                            match n {
                                RegionNodeQt::Interior { bounding: nb, c0: m0, c1: m1, c2: m2, c3: m3 } => {
                                    let em0 = spec_encode_node(*m0);
                                    let em1 = spec_encode_node(*m1);
                                    let em2 = spec_encode_node(*m2);
                                    let em3 = spec_encode_node(*m3);
                                    lemma_interior_regroup(n);
                                    lemma_prefix_parts(seq![TAG_INTERIOR], em0 + (em1 + (em2 + em3)), s);
                                    lemma_prefix_parts(em0, em1 + (em2 + em3), bytes@.skip(pos + 1));
                                    lemma_subrange_prefix(bytes@, pos + 1, p1 as int);
                                    lemma_encode_deterministic(*m0, n0, bytes@.skip(pos + 1));
                                    lemma_skip_skip(bytes@, pos + 1, p1 - (pos + 1));
                                    lemma_prefix_parts(em1, em2 + em3, bytes@.skip(p1 as int));
                                    lemma_subrange_prefix(bytes@, p1 as int, p2 as int);
                                    lemma_encode_deterministic(*m1, n1, bytes@.skip(p1 as int));
                                    lemma_skip_skip(bytes@, p1 as int, p2 - p1);
                                    lemma_prefix_parts(em2, em3, bytes@.skip(p2 as int));
                                    lemma_subrange_prefix(bytes@, p2 as int, p3 as int);
                                    lemma_encode_deterministic(*m2, n2, bytes@.skip(p2 as int));
                                    lemma_skip_skip(bytes@, p2 as int, p3 - p2);
                                    assert(false);
                                },
                                RegionNodeQt::Leaf { .. } => {
                                    assert(false);
                                },
                            }
                        }
                    }
                }
                return Err(RegionError::CorruptData);
            },
        };

        let node = RegionNodeQt::Interior {
            bounding,
            c0: Box::new(n0),
            c1: Box::new(n1),
            c2: Box::new(n2),
            c3: Box::new(n3),
        };
        proof {
            assert(spec_encode_node(node) =~= bytes@.subrange(pos as int, p4 as int));
        }
        Ok((node, p4))
    } else {
        proof {
            assert forall|n: RegionNodeQt| n.wf() && n.bounding() == bounding implies
                !is_prefix(#[trigger] spec_encode_node(n), s) by {
                lemma_encode_node_head(n);
                if is_prefix(spec_encode_node(n), s) {
                    assert(spec_encode_node(n)[0] == s[0]);
                    assert(false);
                }
            }
        }
        Err(RegionError::CorruptData)
    }
}

impl RegionQt {
    /// Serialize the tree to its canonical byte format.
    pub fn save(&self) -> (r: Result<Vec<u8>, RegionError>)
        requires
            self.wf(),
        ensures
            match r {
                Ok(bytes) => self.is_built() && bytes@ == spec_encode(*self),
                Err(e) => !self.is_built() && e == RegionError::EmptyTree,
            },
    {
        match &self.root {
            None => Err(RegionError::EmptyTree),
            Some(root) => {
                let mut out: Vec<u8> = Vec::new();
                push_u32_le(&mut out, self.width);
                push_u32_le(&mut out, self.height);
                encode_node(root, &mut out);
                proof {
                    assert(out@ =~= spec_encode(*self));
                }
                Ok(out)
            },
        }
    }

    /// Restore a tree from its canonical byte format: the exact inverse of
    /// `save`. Succeeds precisely on the encodings of built, well-formed
    /// trees; anything truncated, trailing-padded or mis-tagged is refused.
    pub fn load(bytes: &Vec<u8>) -> (r: Result<RegionQt, RegionError>)
        ensures
            match r {
                Ok(t) => t.wf() && t.is_built() && spec_encode(t) == bytes@,
                Err(e) => e == RegionError::CorruptData
                    && forall|t: RegionQt| t.wf() && t.is_built() ==>
                        #[trigger] spec_encode(t) != bytes@,
            },
    {
        let len = bytes.len();
        if len < 8 {
            proof {
                assert forall|t: RegionQt| t.wf() && t.is_built() implies
                    #[trigger] spec_encode(t) != bytes@ by {
                    lemma_encode_node_head(t.root_node());
                }
            }
            return Err(RegionError::CorruptData);
        }
        let w = read_u32_le(bytes, 0);
        let h = read_u32_le(bytes, 4);
        if w == 0 || h == 0 {
            proof {
                assert forall|t: RegionQt| t.wf() && t.is_built() implies
                    #[trigger] spec_encode(t) != bytes@ by {
                    if spec_encode(t) == bytes@ {
                        assert(u32_le(t.spec_width()) =~= bytes@.subrange(0, 4));
                        assert(u32_le(t.spec_height()) =~= bytes@.subrange(4, 8));
                        lemma_u32_le_injective(t.spec_width(), w);
                        lemma_u32_le_injective(t.spec_height(), h);
                        assert(false);
                    }
                }
            }
            return Err(RegionError::CorruptData);
        }
        let bb = BoundingBox::new(Point { x: 0, y: 0 }, Point { x: w, y: h });
        match parse_node(bytes, 8, bb) {
            Err(_) => {
                proof {
                    assert forall|t: RegionQt| t.wf() && t.is_built() implies
                        #[trigger] spec_encode(t) != bytes@ by {
                        if spec_encode(t) == bytes@ {
                            assert(u32_le(t.spec_width()) =~= bytes@.subrange(0, 4));
                            assert(u32_le(t.spec_height()) =~= bytes@.subrange(4, 8));
                            lemma_u32_le_injective(t.spec_width(), w);
                            lemma_u32_le_injective(t.spec_height(), h);
                            let e = spec_encode_node(t.root_node());
                            assert(e =~= bytes@.skip(8));
                            assert(e =~= bytes@.skip(8).subrange(0, e.len() as int));
                            assert(is_prefix(e, bytes@.skip(8)));
                            assert(t.root_node().bounding() == bb);
                            assert(false);
                        }
                    }
                }
                Err(RegionError::CorruptData)
            },
            Ok((node, end)) => {
                if end != len {
                    proof {
                        assert forall|t: RegionQt| t.wf() && t.is_built() implies
                            #[trigger] spec_encode(t) != bytes@ by {
                            if spec_encode(t) == bytes@ {
                                assert(u32_le(t.spec_width()) =~= bytes@.subrange(0, 4));
                                assert(u32_le(t.spec_height()) =~= bytes@.subrange(4, 8));
                                lemma_u32_le_injective(t.spec_width(), w);
                                lemma_u32_le_injective(t.spec_height(), h);
                                let e = spec_encode_node(t.root_node());
                                assert(e =~= bytes@.skip(8));
                                assert(e =~= bytes@.skip(8).subrange(0, e.len() as int));
                                assert(is_prefix(e, bytes@.skip(8)));
                                lemma_subrange_prefix(bytes@, 8, end as int);
                                lemma_encode_deterministic(t.root_node(), node, bytes@.skip(8));
                                assert(e.len() == end - 8);
                                assert(false);
                            }
                        }
                    }
                    Err(RegionError::CorruptData)
                } else {
                    let t = RegionQt { root: Some(Box::new(node)), width: w, height: h };
                    proof {
                        assert(t.root_node() == node);
                        assert(t.full_box() == bb);
                        assert(spec_encode(t) =~= bytes@);
                    }
                    Ok(t)
                }
            },
        }
    }
}

/// Round-trip identity: two built, well-formed trees with the same canonical
/// encoding agree in their dimensions and in their entire root, so decoding
/// what `save` produced restores the tree exactly — same width and height,
/// and the same rasterized output.
pub proof fn lemma_round_trip(t1: RegionQt, t2: RegionQt)
    requires
        t1.wf(),
        t1.is_built(),
        t2.wf(),
        t2.is_built(),
        spec_encode(t1) == spec_encode(t2),
    ensures
        t1.spec_width() == t2.spec_width(),
        t1.spec_height() == t2.spec_height(),
        t1.root_node() == t2.root_node(),
{
    let s = spec_encode(t1);
    assert(u32_le(t1.spec_width()) =~= s.subrange(0, 4));
    assert(u32_le(t2.spec_width()) =~= s.subrange(0, 4));
    lemma_u32_le_injective(t1.spec_width(), t2.spec_width());
    assert(u32_le(t1.spec_height()) =~= s.subrange(4, 8));
    assert(u32_le(t2.spec_height()) =~= s.subrange(4, 8));
    lemma_u32_le_injective(t1.spec_height(), t2.spec_height());
    let e1 = spec_encode_node(t1.root_node());
    let e2 = spec_encode_node(t2.root_node());
    assert(e1 =~= s.skip(8));
    assert(e2 =~= s.skip(8));
    assert(e1 =~= s.skip(8).subrange(0, e1.len() as int));
    assert(e2 =~= s.skip(8).subrange(0, e2.len() as int));
    assert(t1.root_node().bounding() == t2.root_node().bounding());
    lemma_encode_deterministic(t1.root_node(), t2.root_node(), s.skip(8));
}

} // verus!
