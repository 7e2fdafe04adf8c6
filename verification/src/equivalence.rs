//! The semantic equivalence checker: two documents describe the same
//! physical toolpath when their declared layer counts match, they have the
//! same layers in the same order (same identifier, same segment count), and
//! every segment of the first document's layer appears — in either
//! direction — among the corresponding layer's segments of the second.
//!
//! As in the reference behavior, the per-segment test is an "exists a
//! match" scan that does not consume matched candidates, so it is not a
//! full multiset comparison; duplicate segments can mask one another.

use vstd::prelude::*;

use crate::geometry::seg_match;
use crate::model::DocV;
use crate::model::GCodeData;
use crate::model::LayerV;

verus! {

/// A segment equal (in either direction) to `s` occurs in `segs`.
pub open spec fn has_match(segs: Seq<crate::geometry::SegV>, s: crate::geometry::SegV) -> bool {
    exists|j: int| 0 <= j < segs.len() && seg_match(s, #[trigger] segs[j])
}

/// Layer-wise equivalence: same identifier, same segment count, and every
/// segment of `a` has a directional match in `b`.
pub open spec fn layer_equiv(a: LayerV, b: LayerV) -> bool {
    &&& a.id == b.id
    &&& a.segments.len() == b.segments.len()
    &&& forall|i: int| 0 <= i < a.segments.len() ==> has_match(b.segments, #[trigger] a.segments[i])
}

/// Document equivalence: same declared layer count, same number of layers,
/// and corresponding layers equivalent.
pub open spec fn doc_equiv(a: DocV, b: DocV) -> bool {
    &&& a.num_layers == b.num_layers
    &&& a.layers.len() == b.layers.len()
    &&& forall|i: int| 0 <= i < a.layers.len() ==> layer_equiv(#[trigger] a.layers[i], b.layers[i])
}

/// Whether the two documents describe the same physical toolpath, up to
/// segment order and per-segment direction within each layer.
pub fn test_gcode_equality(gcode_a: &GCodeData, gcode_b: &GCodeData) -> (r: bool)
    ensures
        r == doc_equiv(gcode_a@, gcode_b@),
{
    let ghost av = gcode_a@;
    let ghost bv = gcode_b@;
    if gcode_a.num_layers != gcode_b.num_layers {
        return false;
    }
    if gcode_a.layers.len() != gcode_b.layers.len() {
        return false;
    }
    let mut i: usize = 0;
    while i < gcode_a.layers.len()
        invariant
            i <= gcode_a.layers@.len(),
            av == gcode_a@,
            bv == gcode_b@,
            av.layers.len() == bv.layers.len(),
            av.num_layers == bv.num_layers,
            forall|p: int| 0 <= p < i as int ==> layer_equiv(#[trigger] av.layers[p], bv.layers[p]),
        decreases gcode_a.layers@.len() - i,
    {
        let la = &gcode_a.layers[i];
        let lb = &gcode_b.layers[i];
        proof {
            assert(av.layers[i as int] == la@);
            assert(bv.layers[i as int] == lb@);
        }
        if la.id != lb.id {
            proof {
                assert(!layer_equiv(av.layers[i as int], bv.layers[i as int]));
            }
            return false;
        }
        if la.segments.len() != lb.segments.len() {
            proof {
                assert(!layer_equiv(av.layers[i as int], bv.layers[i as int]));
            }
            return false;
        }
        let mut p: usize = 0;
        while p < la.segments.len()
            invariant
                p <= la.segments@.len(),
                av == gcode_a@,
                bv == gcode_b@,
                av.layers.len() == bv.layers.len(),
                av.num_layers == bv.num_layers,
                (i as int) < av.layers.len(),
                la@ == av.layers[i as int],
                lb@ == bv.layers[i as int],
                forall|q: int|
                    0 <= q < p as int ==> has_match(lb@.segments, #[trigger] la@.segments[q]),
            decreases la.segments@.len() - p,
        {
            let sa = la.segments[p];
            proof {
                assert(sa@ == la@.segments[p as int]);
            }
            let mut found = false;
            let mut j: usize = 0;
            while j < lb.segments.len()
                invariant
                    j <= lb.segments@.len(),
                    (i as int) < bv.layers.len(),
                    lb@ == bv.layers[i as int],
                    found ==> has_match(lb@.segments, sa@),
                    !found ==> forall|q: int|
                        0 <= q < j as int ==> !seg_match(sa@, #[trigger] lb@.segments[q]),
                decreases lb.segments@.len() - j,
            {
                if sa.is_equal(&lb.segments[j]) {
                    proof {
                        assert(seg_match(sa@, lb@.segments[j as int]));
                    }
                    found = true;
                }
                j = j + 1;
            }
            if !found {
                proof {
                    assert(!has_match(lb@.segments, la@.segments[p as int]));
                    assert(!layer_equiv(av.layers[i as int], bv.layers[i as int]));
                }
                return false;
            }
            p = p + 1;
        }
        proof {
            assert(layer_equiv(av.layers[i as int], bv.layers[i as int]));
        }
        i = i + 1;
    }
    true
}

/// Reordering always yields an equivalent document: for any well-formed
/// document, `reorder_doc` keeps the declared layer count, the layers with
/// their identifiers and segment counts, and every input cut reappears in
/// its layer in one direction or the other.
pub proof fn lemma_reorder_equivalent(d: DocV)
    ensures
        doc_equiv(d, crate::minimizer::reorder_doc(d)),
{
    broadcast use vstd::seq_lib::group_to_multiset_ensures;

    crate::minimizer::lemma_reorder_layers_shape(Option::None, d.layers);
    let r = crate::minimizer::reorder_doc(d);
    assert forall|i: int| 0 <= i < d.layers.len() implies layer_equiv(
        #[trigger] d.layers[i],
        r.layers[i],
    ) by {
        let a = d.layers[i].segments;
        let b = r.layers[i].segments;
        assert(crate::minimizer::canon_ms(b) == crate::minimizer::canon_ms(a));
        assert forall|p: int| 0 <= p < a.len() implies has_match(b, #[trigger] a[p]) by {
            let s = a[p];
            let cs = crate::geometry::seg_canon(s);
            assert(crate::minimizer::canon_seq(a)[p] == cs);
            assert(crate::minimizer::canon_seq(a).contains(cs));
            assert(crate::minimizer::canon_ms(a).count(cs) > 0);
            assert(crate::minimizer::canon_ms(b).count(cs) > 0);
            assert(crate::minimizer::canon_seq(b).contains(cs));
            let j = choose|j: int|
                0 <= j < crate::minimizer::canon_seq(b).len() && crate::minimizer::canon_seq(
                    b,
                )[j] == cs;
            assert(crate::geometry::seg_canon(b[j]) == cs);
            crate::geometry::lemma_match_iff_canon(s, b[j]);
            assert(seg_match(s, b[j]));
        }
    }
}

} // verus!
