//! The length and time estimator.
//!
//! A document's traversal is summarized by its *profile*: the ordered list of
//! squared distances of every move made — each segment's cutting move, the
//! travel between consecutive segments of a layer, and the travel from the
//! end of each non-empty layer to the start of the next non-empty layer.
//! Empty layers contribute nothing and do not break continuity.
//!
//! The total length in micrometers is the sum of the integer floor square
//! roots of the profile's entries; callers divide by 1000 and by the speed
//! to obtain a wall-clock estimate.

use vstd::prelude::*;

use crate::geometry::lemma_pt_sq_dist_range;
use crate::geometry::lemma_sqrt_floor_bound;
use crate::geometry::isqrt_um;
use crate::geometry::pt_sq_dist;
use crate::geometry::seg_len_sq;
use crate::geometry::sqrt_floor;
use crate::geometry::travel_sq;
use crate::geometry::SegV;
use crate::minimizer::seg_end;
use crate::model::segs_view;
use crate::model::DocV;
use crate::model::GCodeData;
use crate::model::LayerV;

verus! {

/// Squared distances of one layer's moves in traversal order: each
/// segment's cutting length, interleaved with the travel between
/// consecutive segments.
pub open spec fn layer_profile(segs: Seq<SegV>) -> Seq<int>
    decreases segs.len(),
{
    if segs.len() == 0 {
        Seq::empty()
    } else if segs.len() == 1 {
        seq![seg_len_sq(segs[0])]
    } else {
        seq![seg_len_sq(segs[0]), travel_sq(segs[0], segs[1])] + layer_profile(segs.drop_first())
    }
}

/// Squared distance from the continuity point `p` to the start of `s`.
pub open spec fn lead_in_sq(p: (int, int), s: SegV) -> int {
    pt_sq_dist(p.0, p.1, s.x1, s.y1)
}

/// Squared distances of the whole document's moves in traversal order,
/// `prev` being the end point of the last segment already traversed, if
/// any.  Empty layers are skipped and leave `prev` untouched.
pub open spec fn doc_profile(ls: Seq<LayerV>, prev: Option<(int, int)>) -> Seq<int>
    decreases ls.len(),
{
    if ls.len() == 0 {
        Seq::empty()
    } else {
        let segs = ls[0].segments;
        if segs.len() == 0 {
            doc_profile(ls.drop_first(), prev)
        } else {
            let lead = match prev {
                Option::Some(p) => seq![lead_in_sq(p, segs[0])],
                Option::None => Seq::<int>::empty(),
            };
            lead + layer_profile(segs) + doc_profile(
                ls.drop_first(),
                Option::Some(seg_end(segs.last())),
            )
        }
    }
}

/// The document's traversal profile, starting with no previous end point.
pub open spec fn doc_profile_of(d: DocV) -> Seq<int> {
    doc_profile(d.layers, Option::None)
}

/// Sum of the floor square roots of a profile's entries.
pub open spec fn sum_sqrt(p: Seq<int>) -> int
    decreases p.len(),
{
    if p.len() == 0 {
        0
    } else {
        sqrt_floor(p[0]) + sum_sqrt(p.drop_first())
    }
}

/// Total cutting plus travel length of a document, in micrometers, each
/// move's length rounded down to a whole micrometer.
pub open spec fn total_length_um(d: DocV) -> int {
    sum_sqrt(doc_profile_of(d))
}

/// Mathematical value of the executable continuity point.
pub open spec fn prev_v(p: Option<(i32, i32)>) -> Option<(int, int)> {
    match p {
        Option::Some(q) => Option::Some((q.0 as int, q.1 as int)),
        Option::None => Option::None,
    }
}

/// Integer values of a vector of squared distances.
pub open spec fn ints_of(v: Seq<u128>) -> Seq<int> {
    v.map_values(|x: u128| x as int)
}

/// The document's traversal profile as executable values: every squared
/// cutting and travel distance, in traversal order, in square micrometers.
pub fn get_profile_sq_um2(gcode: &GCodeData) -> (r: Vec<u128>)
    ensures
        ints_of(r@) == doc_profile_of(gcode@),
{
    let ghost lv = gcode@.layers;
    let mut out: Vec<u128> = Vec::new();
    let mut prev: Option<(i32, i32)> = Option::None;
    let mut i: usize = 0;
    proof {
        assert(lv.skip(0) =~= lv);
        assert(ints_of(out@) =~= Seq::<int>::empty());
        assert(Seq::<int>::empty() + doc_profile(lv, Option::None) =~= doc_profile(
            lv,
            Option::None,
        ));
    }
    while i < gcode.layers.len()
        invariant
            i <= gcode.layers@.len(),
            lv == gcode@.layers,
            doc_profile_of(gcode@) == ints_of(out@) + doc_profile(
                lv.skip(i as int),
                prev_v(prev),
            ),
        decreases gcode.layers@.len() - i,
    {
        let ghost pending = lv.skip(i as int);
        let ghost prev0 = prev_v(prev);
        let ghost out_start = out@;
        let l = &gcode.layers[i];
        let ghost sv = segs_view(l.segments@);
        proof {
            assert(pending[0] == lv[i as int]);
            assert(lv[i as int] == l@);
            assert(pending.drop_first() =~= lv.skip(i as int + 1));
        }
        let ghost lead = match prev0 {
            Option::Some(p) => seq![lead_in_sq(p, sv[0])],
            Option::None => Seq::<int>::empty(),
        };
        let n = l.segments.len();
        if n > 0 {
            match prev {
                Option::Some((px, py)) => {
                    let s0 = &l.segments[0];
                    let d = crate::geometry::dist_sq_points(px, py, s0.x1, s0.y1);
                    out.push(d);
                    proof {
                        assert(d as int == lead_in_sq((px as int, py as int), sv[0]));
                        assert(ints_of(out@) =~= ints_of(out_start) + lead);
                    }
                },
                Option::None => {
                    proof {
                        assert(ints_of(out@) =~= ints_of(out_start) + lead);
                    }
                },
            }
            let ghost out_lead = out@;
            let mut j: usize = 0;
            proof {
                assert(sv.skip(0) =~= sv);
            }
            while j < n
                invariant
                    j <= n,
                    n == l.segments@.len(),
                    sv == segs_view(l.segments@),
                    ints_of(out@) + layer_profile(sv.skip(j as int)) =~= ints_of(out_lead)
                        + layer_profile(sv),
                decreases n - j,
            {
                let ghost outj = out@;
                let ghost tail = sv.skip(j as int);
                let c = l.segments[j].length_sq_um2();
                out.push(c);
                proof {
                    assert(ints_of(out@) =~= ints_of(outj).push(c as int));
                    assert(tail[0] == sv[j as int]);
                }
                if j + 1 < n {
                    let ghost outc = out@;
                    let t = l.segments[j].travel_sq_to(&l.segments[j + 1]);
                    out.push(t);
                    proof {
                        assert(ints_of(out@) =~= ints_of(outc).push(t as int));
                        assert(tail[1] == sv[j as int + 1]);
                        assert(tail.drop_first() =~= sv.skip(j as int + 1));
                        assert(layer_profile(tail) == seq![
                            seg_len_sq(tail[0]),
                            travel_sq(tail[0], tail[1]),
                        ] + layer_profile(tail.drop_first()));
                        assert(ints_of(outj) + layer_profile(tail) =~= ints_of(out@)
                            + layer_profile(sv.skip(j as int + 1)));
                    }
                } else {
                    proof {
                        assert(tail.len() == 1);
                        assert(layer_profile(tail) =~= seq![seg_len_sq(tail[0])]);
                        assert(sv.skip(j as int + 1) =~= Seq::<SegV>::empty());
                        assert(ints_of(outj) + layer_profile(tail) =~= ints_of(out@)
                            + layer_profile(sv.skip(j as int + 1)));
                    }
                }
                j = j + 1;
            }
            let lastseg = l.segments[n - 1];
            prev = Option::Some((lastseg.x2, lastseg.y2));
            proof {
                assert(lastseg@ == sv.last());
                assert(prev_v(prev) == Option::Some(seg_end(sv.last())));
                assert(sv.skip(n as int) =~= Seq::<SegV>::empty());
                assert(layer_profile(Seq::<SegV>::empty()) =~= Seq::<int>::empty());
                assert(ints_of(out@) + Seq::<int>::empty() =~= ints_of(out@));
                assert(ints_of(out@) =~= ints_of(out_lead) + layer_profile(sv));
                assert(ints_of(out@) =~= ints_of(out_start) + lead + layer_profile(sv));
                // unfold one document step
                assert(doc_profile(pending, prev0) == lead + layer_profile(sv) + doc_profile(
                    lv.skip(i as int + 1),
                    Option::Some(seg_end(sv.last())),
                ));
                assert(ints_of(out_start) + (lead + layer_profile(sv) + doc_profile(
                    lv.skip(i as int + 1),
                    prev_v(prev),
                )) =~= ints_of(out@) + doc_profile(lv.skip(i as int + 1), prev_v(prev)));
                assert(doc_profile_of(gcode@) == ints_of(out@) + doc_profile(
                    lv.skip(i as int + 1),
                    prev_v(prev),
                ));
            }
        } else {
            proof {
                assert(sv.len() == 0);
                assert(doc_profile(pending, prev0) == doc_profile(
                    lv.skip(i as int + 1),
                    prev0,
                ));
            }
        }
        i = i + 1;
    }
    proof {
        assert(lv.skip(gcode.layers@.len() as int) =~= Seq::<LayerV>::empty());
        assert(doc_profile(Seq::<LayerV>::empty(), prev_v(prev)) =~= Seq::<int>::empty());
        assert(ints_of(out@) + Seq::<int>::empty() =~= ints_of(out@));
    }
    out
}

/// Every entry of a profile built from `i32` coordinates is a non-negative
/// squared distance below `2^66`.
pub proof fn lemma_profile_entries_bounded(ls: Seq<LayerV>, prev: Option<(int, int)>)
    requires
        forall|i: int, j: int|
            0 <= i < ls.len() && 0 <= j < ls[i].segments.len() ==> seg_in_i32(
                #[trigger] ls[i].segments[j],
            ),
        match prev {
            Option::Some(p) => pt_in_i32(p),
            Option::None => true,
        },
    ensures
        forall|k: int|
            0 <= k < doc_profile(ls, prev).len() ==> 0 <= #[trigger] doc_profile(ls, prev)[k]
                < 0x4_0000_0000_0000_0000,
    decreases ls.len(),
{
    if ls.len() > 0 {
        let segs = ls[0].segments;
        assert(forall|i: int, j: int|
            0 <= i < ls.drop_first().len() && 0 <= j < ls.drop_first()[i].segments.len()
                ==> seg_in_i32(#[trigger] ls.drop_first()[i].segments[j]));
        if segs.len() == 0 {
            lemma_profile_entries_bounded(ls.drop_first(), prev);
            assert forall|k: int| 0 <= k < doc_profile(ls, prev).len() implies 0
                <= #[trigger] doc_profile(ls, prev)[k] < 0x4_0000_0000_0000_0000 by {
                assert(doc_profile(ls, prev)[k] == doc_profile(ls.drop_first(), prev)[k]);
            }
        } else {
            assert(seg_in_i32(segs.last()));
            lemma_profile_entries_bounded(
                ls.drop_first(),
                Option::Some(seg_end(segs.last())),
            );
            lemma_layer_profile_entries_bounded(segs);
            let lead = match prev {
                Option::Some(p) => seq![lead_in_sq(p, segs[0])],
                Option::None => Seq::<int>::empty(),
            };
            match prev {
                Option::Some(p) => {
                    lemma_pt_sq_dist_range(p.0, p.1, segs[0].x1, segs[0].y1);
                },
                Option::None => {},
            }
            let rest = doc_profile(ls.drop_first(), Option::Some(seg_end(segs.last())));
            let whole = lead + layer_profile(segs) + rest;
            assert(doc_profile(ls, prev) == whole);
            assert forall|k: int| 0 <= k < doc_profile(ls, prev).len() implies 0
                <= #[trigger] doc_profile(ls, prev)[k] < 0x4_0000_0000_0000_0000 by {
                assert(doc_profile(ls, prev)[k] == whole[k]);
                if k < lead.len() {
                    assert(whole[k] == lead[0]);
                } else if k < lead.len() + layer_profile(segs).len() {
                    assert(whole[k] == layer_profile(segs)[k - lead.len()]);
                } else {
                    assert(whole[k] == rest[k - lead.len() - layer_profile(segs).len()]);
                }
            }
        }
    }
}

/// A segment whose coordinates all fit in `i32`.
pub open spec fn seg_in_i32(s: SegV) -> bool {
    &&& i32::MIN <= s.x1 <= i32::MAX
    &&& i32::MIN <= s.y1 <= i32::MAX
    &&& i32::MIN <= s.x2 <= i32::MAX
    &&& i32::MIN <= s.y2 <= i32::MAX
}

/// A point whose coordinates fit in `i32`.
pub open spec fn pt_in_i32(p: (int, int)) -> bool {
    &&& i32::MIN <= p.0 <= i32::MAX
    &&& i32::MIN <= p.1 <= i32::MAX
}

proof fn lemma_layer_profile_entries_bounded(segs: Seq<SegV>)
    requires
        forall|j: int| 0 <= j < segs.len() ==> seg_in_i32(#[trigger] segs[j]),
    ensures
        forall|k: int|
            0 <= k < layer_profile(segs).len() ==> 0 <= #[trigger] layer_profile(segs)[k]
                < 0x4_0000_0000_0000_0000,
    decreases segs.len(),
{
    if segs.len() == 0 {
    } else if segs.len() == 1 {
        lemma_pt_sq_dist_range(segs[0].x1, segs[0].y1, segs[0].x2, segs[0].y2);
        assert(layer_profile(segs)[0] == seg_len_sq(segs[0]));
    } else {
        lemma_layer_profile_entries_bounded(segs.drop_first());
        lemma_pt_sq_dist_range(segs[0].x1, segs[0].y1, segs[0].x2, segs[0].y2);
        lemma_pt_sq_dist_range(segs[0].x2, segs[0].y2, segs[1].x1, segs[1].y1);
        let head = seq![seg_len_sq(segs[0]), travel_sq(segs[0], segs[1])];
        let rest = layer_profile(segs.drop_first());
        assert(layer_profile(segs) == head + rest);
        assert forall|k: int| 0 <= k < (head + rest).len() implies 0 <= #[trigger] (head
            + rest)[k] < 0x4_0000_0000_0000_0000 by {
            if k < 2 {
                assert((head + rest)[k] == head[k]);
            } else {
                assert((head + rest)[k] == rest[k - 2]);
            }
        }
    }
}

/// Every segment of a document's mathematical value has `i32` coordinates.
pub proof fn lemma_doc_view_in_i32(gcode: &GCodeData)
    ensures
        forall|i: int, j: int|
            0 <= i < gcode@.layers.len() && 0 <= j < gcode@.layers[i].segments.len()
                ==> seg_in_i32(#[trigger] gcode@.layers[i].segments[j]),
{
    assert forall|i: int, j: int|
        0 <= i < gcode@.layers.len() && 0 <= j < gcode@.layers[i].segments.len() implies seg_in_i32(
        #[trigger] gcode@.layers[i].segments[j],
    ) by {
        let l = gcode.layers@[i];
        assert(gcode@.layers[i] == l@);
        assert(gcode@.layers[i].segments[j] == l.segments@[j]@);
    }
}

/// Total cutting plus travel length of the document in micrometers, each
/// move's Euclidean length rounded down to a whole micrometer.
pub fn get_total_length_um(gcode: &GCodeData) -> (r: u128)
    ensures
        r as int == total_length_um(gcode@),
{
    let profile = get_profile_sq_um2(gcode);
    proof {
        lemma_doc_view_in_i32(gcode);
        lemma_profile_entries_bounded(gcode@.layers, Option::None);
    }
    let ghost pv = ints_of(profile@);
    let mut total: u128 = 0;
    let mut i: usize = 0;
    proof {
        assert(pv.skip(0) =~= pv);
    }
    while i < profile.len()
        invariant
            i <= profile@.len(),
            pv == ints_of(profile@),
            pv == doc_profile_of(gcode@),
            forall|k: int| 0 <= k < pv.len() ==> 0 <= #[trigger] pv[k] < 0x4_0000_0000_0000_0000,
            total as int + sum_sqrt(pv.skip(i as int)) == sum_sqrt(pv),
            total as int <= (i as int) * 0x2_0000_0000,
        decreases profile@.len() - i,
    {
        let ghost tail = pv.skip(i as int);
        proof {
            assert(tail[0] == pv[i as int]);
            assert(tail.drop_first() =~= pv.skip(i as int + 1));
            lemma_sqrt_floor_bound(pv[i as int]);
            assert((i as int + 1) * 0x2_0000_0000 == (i as int) * 0x2_0000_0000 + 0x2_0000_0000);
            assert((i as int) * 0x2_0000_0000 <= (profile@.len() as int) * 0x2_0000_0000);
        }
        let s = isqrt_um(profile[i]);
        total = total + s;
        i = i + 1;
    }
    proof {
        assert(pv.skip(profile@.len() as int) =~= Seq::<int>::empty());
    }
    total
}

/// The segment with every coordinate multiplied by `k`.
pub open spec fn scale_seg(k: int, s: SegV) -> SegV {
    SegV { x1: k * s.x1, y1: k * s.y1, x2: k * s.x2, y2: k * s.y2 }
}

/// The layer with every coordinate multiplied by `k`.
pub open spec fn scale_layer(k: int, l: LayerV) -> LayerV {
    LayerV { id: l.id, segments: l.segments.map_values(|s: SegV| scale_seg(k, s)) }
}

/// The document with every coordinate multiplied by `k`.
pub open spec fn scale_doc(k: int, d: DocV) -> DocV {
    DocV { num_layers: d.num_layers, layers: d.layers.map_values(|l: LayerV| scale_layer(k, l)) }
}

/// The point with both coordinates multiplied by `k`.
pub open spec fn scale_pt(k: int, p: (int, int)) -> (int, int) {
    (k * p.0, k * p.1)
}

/// The continuity point, scaled if present.
pub open spec fn scale_prev(k: int, prev: Option<(int, int)>) -> Option<(int, int)> {
    match prev {
        Option::Some(p) => Option::Some(scale_pt(k, p)),
        Option::None => Option::None,
    }
}

proof fn lemma_pt_sq_dist_scale(k: int, ax: int, ay: int, bx: int, by: int)
    by (nonlinear_arith)
    ensures
        pt_sq_dist(k * ax, k * ay, k * bx, k * by) == k * k * pt_sq_dist(ax, ay, bx, by),
{
}

proof fn lemma_layer_profile_scale(k: int, segs: Seq<SegV>)
    ensures
        layer_profile(segs.map_values(|s: SegV| scale_seg(k, s))) == layer_profile(
            segs,
        ).map_values(|e: int| k * k * e),
    decreases segs.len(),
{
    let sc = segs.map_values(|s: SegV| scale_seg(k, s));
    if segs.len() == 0 {
        assert(layer_profile(sc) =~= layer_profile(segs).map_values(|e: int| k * k * e));
    } else if segs.len() == 1 {
        lemma_pt_sq_dist_scale(k, segs[0].x1, segs[0].y1, segs[0].x2, segs[0].y2);
        assert(layer_profile(sc) =~= layer_profile(segs).map_values(|e: int| k * k * e));
    } else {
        lemma_layer_profile_scale(k, segs.drop_first());
        assert(sc.drop_first() =~= segs.drop_first().map_values(|s: SegV| scale_seg(k, s)));
        lemma_pt_sq_dist_scale(k, segs[0].x1, segs[0].y1, segs[0].x2, segs[0].y2);
        lemma_pt_sq_dist_scale(k, segs[0].x2, segs[0].y2, segs[1].x1, segs[1].y1);
        assert(layer_profile(sc) == seq![
            seg_len_sq(sc[0]),
            travel_sq(sc[0], sc[1]),
        ] + layer_profile(sc.drop_first()));
        assert(layer_profile(sc) =~= layer_profile(segs).map_values(|e: int| k * k * e));
    }
}

proof fn lemma_doc_profile_scale(k: int, ls: Seq<LayerV>, prev: Option<(int, int)>)
    ensures
        doc_profile(ls.map_values(|l: LayerV| scale_layer(k, l)), scale_prev(k, prev))
            == doc_profile(ls, prev).map_values(|e: int| k * k * e),
    decreases ls.len(),
{
    let sc = ls.map_values(|l: LayerV| scale_layer(k, l));
    if ls.len() == 0 {
        assert(doc_profile(sc, scale_prev(k, prev)) =~= doc_profile(ls, prev).map_values(
            |e: int| k * k * e,
        ));
    } else {
        let segs = ls[0].segments;
        let ssegs = sc[0].segments;
        assert(ssegs == segs.map_values(|s: SegV| scale_seg(k, s)));
        assert(sc.drop_first() =~= ls.drop_first().map_values(|l: LayerV| scale_layer(k, l)));
        if segs.len() == 0 {
            lemma_doc_profile_scale(k, ls.drop_first(), prev);
        } else {
            assert(ssegs.last() == scale_seg(k, segs.last()));
            assert(seg_end(ssegs.last()) == scale_pt(k, seg_end(segs.last())));
            lemma_doc_profile_scale(
                k,
                ls.drop_first(),
                Option::Some(seg_end(segs.last())),
            );
            lemma_layer_profile_scale(k, segs);
            match prev {
                Option::Some(p) => {
                    lemma_pt_sq_dist_scale(k, p.0, p.1, segs[0].x1, segs[0].y1);
                    assert(lead_in_sq(scale_pt(k, p), ssegs[0]) == k * k * lead_in_sq(
                        p,
                        segs[0],
                    ));
                },
                Option::None => {},
            }
            assert(doc_profile(sc, scale_prev(k, prev)) =~= doc_profile(ls, prev).map_values(
                |e: int| k * k * e,
            ));
        }
    }
}

/// Time monotonicity: scaling every coordinate of a document by a positive
/// constant `k` multiplies every squared cutting and travel distance by
/// `k * k` — so every Euclidean move length, and with it the estimated
/// execution time at a fixed speed, scales by exactly `k`.
pub proof fn lemma_profile_scales(d: DocV, k: int)
    requires
        0 < k,
    ensures
        doc_profile_of(scale_doc(k, d)) == doc_profile_of(d).map_values(|e: int| k * k * e),
{
    lemma_doc_profile_scale(k, d.layers, Option::None);
}

/// Empty-input behavior: a document with no layers has an empty profile,
/// total length zero, and reorders to itself.
pub proof fn lemma_empty_doc(d: DocV)
    requires
        d.layers.len() == 0,
    ensures
        doc_profile_of(d).len() == 0,
        total_length_um(d) == 0,
        crate::minimizer::reorder_doc(d) == d,
{
    assert(crate::minimizer::reorder_doc(d) =~= d);
}

/// Empty-layer behavior: a layer with no segments contributes nothing to
/// the profile — neither cutting nor travel length — and does not break the
/// continuity between its non-empty neighbors.
pub proof fn lemma_empty_layer_ignored(ls: Seq<LayerV>, i: int, prev: Option<(int, int)>)
    requires
        0 <= i < ls.len(),
        ls[i].segments.len() == 0,
    ensures
        doc_profile(ls, prev) == doc_profile(ls.remove(i), prev),
    decreases ls.len(),
{
    if i == 0 {
        assert(ls.remove(0) =~= ls.drop_first());
    } else {
        let segs = ls[0].segments;
        assert(ls.remove(i).drop_first() =~= ls.drop_first().remove(i - 1));
        assert(ls.drop_first()[i - 1] == ls[i]);
        assert(ls.remove(i)[0] == ls[0]);
        if segs.len() == 0 {
            lemma_empty_layer_ignored(ls.drop_first(), i - 1, prev);
        } else {
            lemma_empty_layer_ignored(
                ls.drop_first(),
                i - 1,
                Option::Some(seg_end(segs.last())),
            );
            assert(ls.remove(i)[0].segments == segs);
        }
    }
}

} // verus!
