//! The reordering engine: per layer, a greedy nearest-neighbor tour over the
//! segments (candidates may be flipped), preceded by a rotation that keeps the
//! layer's start close to the end of the previous non-empty layer.
//!
//! The whole transformation is pinned down by the spec function
//! [`reorder_doc`]: `minimize_gcode` promises that the reordered document
//! equals it, so the result is a function of the input document alone.

use vstd::prelude::*;

use crate::geometry::pt_sq_dist;
use crate::geometry::seg_rev;
use crate::geometry::travel_sq;
use crate::geometry::SegV;
use crate::geometry::Segment;
use crate::geometry::dist_sq_points;
use crate::model::copy_segments;
use crate::model::layers_view;
use crate::model::lemma_layers_view_push;
use crate::model::lemma_segs_view_push;
use crate::model::lemma_segs_view_remove;
use crate::model::lemma_segs_view_subrange;
use crate::model::segs_view;
use crate::model::DocV;
use crate::model::GCodeData;
use crate::model::Layer;
use crate::model::LayerV;

verus! {

/// The candidate as it would be placed after `last`: in its own direction if
/// its start is at least as close to the end of `last` as its end is,
/// otherwise reversed.  On a tie the original direction wins.
pub open spec fn orient(last: SegV, c: SegV) -> SegV {
    if travel_sq(last, c) <= travel_sq(last, seg_rev(c)) {
        c
    } else {
        seg_rev(c)
    }
}

/// The travel cost of placing candidate `c` after `last`: the smaller of the
/// squared distances to its start in either direction.
pub open spec fn cand_dist(last: SegV, c: SegV) -> int {
    travel_sq(last, orient(last, c))
}

/// Index of the first candidate among `pool[0..n]` with minimal placement
/// cost after `last`: a left-to-right scan where only a strictly smaller
/// cost displaces the current best, so the lowest index wins ties.
pub open spec fn greedy_pick(last: SegV, pool: Seq<SegV>, n: int) -> int
    decreases n,
{
    if n <= 1 {
        0
    } else {
        let prev = greedy_pick(last, pool, n - 1);
        if cand_dist(last, pool[n - 1]) < cand_dist(last, pool[prev]) {
            n - 1
        } else {
            prev
        }
    }
}

pub proof fn lemma_greedy_pick_in_range(last: SegV, pool: Seq<SegV>, n: int)
    requires
        1 <= n,
    ensures
        0 <= greedy_pick(last, pool, n) < n,
    decreases n,
{
    if n > 1 {
        lemma_greedy_pick_in_range(last, pool, n - 1);
    }
}

/// The greedy tour over `pool`, continuing from `last`: repeatedly place the
/// first cheapest candidate in its cheaper orientation and remove it from
/// the pool.
pub open spec fn greedy_rest(last: SegV, pool: Seq<SegV>) -> Seq<SegV>
    decreases pool.len(),
    via greedy_rest_dec
{
    if pool.len() == 0 {
        Seq::empty()
    } else {
        let i = greedy_pick(last, pool, pool.len() as int);
        let placed = orient(last, pool[i]);
        seq![placed] + greedy_rest(placed, pool.remove(i))
    }
}

#[via_fn]
proof fn greedy_rest_dec(last: SegV, pool: Seq<SegV>) {
    if pool.len() > 0 {
        lemma_greedy_pick_in_range(last, pool, pool.len() as int);
    }
}

/// Squared distance from a point to the start of a segment, as used by the
/// inter-layer continuity step (which never flips candidates).
pub open spec fn start_dist_sq(p: (int, int), s: SegV) -> int {
    pt_sq_dist(p.0, p.1, s.x1, s.y1)
}

/// Index of the first segment among `segs[0..n]` whose start is closest to
/// the continuity anchor `p`; the lowest index wins ties.
pub open spec fn rot_pick(p: (int, int), segs: Seq<SegV>, n: int) -> int
    decreases n,
{
    if n <= 1 {
        0
    } else {
        let prev = rot_pick(p, segs, n - 1);
        if start_dist_sq(p, segs[n - 1]) < start_dist_sq(p, segs[prev]) {
            n - 1
        } else {
            prev
        }
    }
}

pub proof fn lemma_rot_pick_in_range(p: (int, int), segs: Seq<SegV>, n: int)
    requires
        1 <= n,
    ensures
        0 <= rot_pick(p, segs, n) < n,
    decreases n,
{
    if n > 1 {
        lemma_rot_pick_in_range(p, segs, n - 1);
    }
}

/// The sequence rotated so that index `k` comes first.
pub open spec fn rotated_seq(segs: Seq<SegV>, k: int) -> Seq<SegV> {
    segs.subrange(k, segs.len() as int) + segs.subrange(0, k)
}

/// One layer's reordering: rotate the chosen continuity segment to the
/// front (only when an anchor exists), fix it as the tour's first element in
/// its original direction, and place the rest greedily.
pub open spec fn reorder_layer_segs(anchor: Option<(int, int)>, segs: Seq<SegV>) -> Seq<SegV> {
    if segs.len() == 0 {
        segs
    } else {
        let rot = match anchor {
            Option::Some(p) => rotated_seq(segs, rot_pick(p, segs, segs.len() as int)),
            Option::None => segs,
        };
        seq![rot[0]] + greedy_rest(rot[0], rot.drop_first())
    }
}

/// The end point of a segment.
pub open spec fn seg_end(s: SegV) -> (int, int) {
    (s.x2, s.y2)
}

/// The continuity anchor after a layer: the end of its last segment if it
/// has one, otherwise the anchor carried over from before.
pub open spec fn anchor_after(anchor: Option<(int, int)>, segs: Seq<SegV>) -> Option<(int, int)> {
    if segs.len() == 0 {
        anchor
    } else {
        Option::Some(seg_end(segs.last()))
    }
}

/// All layers reordered in order, each one's anchor taken from the
/// reordered layers before it.
pub open spec fn reorder_layers_spec(anchor: Option<(int, int)>, ls: Seq<LayerV>) -> Seq<LayerV>
    decreases ls.len(),
{
    if ls.len() == 0 {
        ls
    } else {
        let segs = reorder_layer_segs(anchor, ls[0].segments);
        seq![LayerV { id: ls[0].id, segments: segs }] + reorder_layers_spec(
            anchor_after(anchor, segs),
            ls.drop_first(),
        )
    }
}

/// The whole reordered document: same declared layer count, layers
/// reordered starting with no anchor.
pub open spec fn reorder_doc(d: DocV) -> DocV {
    DocV { num_layers: d.num_layers, layers: reorder_layers_spec(Option::None, d.layers) }
}

/// Mathematical value of an executable continuity anchor.
pub open spec fn anch_v(a: Option<(i32, i32)>) -> Option<(int, int)> {
    match a {
        Option::Some(p) => Option::Some((p.0 as int, p.1 as int)),
        Option::None => Option::None,
    }
}

/// The candidate in the orientation it would be placed in after `last`.
fn orient_exec(last: &Segment, c: &Segment) -> (r: Segment)
    ensures
        r@ == orient(last@, c@),
{
    let fwd = last.travel_sq_to(c);
    let flipped = c.reversed();
    let bwd = last.travel_sq_to(&flipped);
    if fwd <= bwd {
        *c
    } else {
        flipped
    }
}

/// The placement cost of candidate `c` after `last`.
fn eff_dist(last: &Segment, c: &Segment) -> (r: u128)
    ensures
        r as int == cand_dist(last@, c@),
{
    let fwd = last.travel_sq_to(c);
    let flipped = c.reversed();
    let bwd = last.travel_sq_to(&flipped);
    if fwd <= bwd {
        fwd
    } else {
        bwd
    }
}

/// A copy of `v` rotated left by `k` places.
fn rotate_left_segments(v: &Vec<Segment>, k: usize) -> (r: Vec<Segment>)
    requires
        k <= v@.len(),
    ensures
        r@ == v@.subrange(k as int, v@.len() as int) + v@.subrange(0, k as int),
{
    let mut r: Vec<Segment> = Vec::new();
    let mut i: usize = k;
    while i < v.len()
        invariant
            k <= i <= v@.len(),
            r@ == v@.subrange(k as int, i as int),
        decreases v@.len() - i,
    {
        r.push(v[i]);
        proof {
            assert(v@.subrange(k as int, i as int).push(v@[i as int]) =~= v@.subrange(
                k as int,
                i as int + 1,
            ));
        }
        i = i + 1;
    }
    proof {
        assert(r@ + v@.subrange(0, 0) =~= r@);
    }
    let mut j: usize = 0;
    while j < k
        invariant
            k <= v@.len(),
            j <= k,
            r@ == v@.subrange(k as int, v@.len() as int) + v@.subrange(0, j as int),
        decreases k - j,
    {
        r.push(v[j]);
        proof {
            assert((v@.subrange(k as int, v@.len() as int) + v@.subrange(0, j as int)).push(
                v@[j as int],
            ) =~= v@.subrange(k as int, v@.len() as int) + v@.subrange(0, j as int + 1));
        }
        j = j + 1;
    }
    r
}

/// Reorder one layer's segments, continuing from `anchor` if one exists.
fn reorder_layer_exec(anchor: Option<(i32, i32)>, segs: &Vec<Segment>) -> (r: Vec<Segment>)
    ensures
        segs_view(r@) == reorder_layer_segs(anch_v(anchor), segs_view(segs@)),
{
    let ghost sv = segs_view(segs@);
    if segs.len() == 0 {
        let r: Vec<Segment> = Vec::new();
        proof {
            assert(segs_view(r@) =~= sv);
        }
        return r;
    }
    let rotated: Vec<Segment> = match anchor {
        Option::Some((ax, ay)) => {
            let mut k: usize = 0;
            let mut best: u128 = dist_sq_points(ax, ay, segs[0].x1, segs[0].y1);
            let mut j: usize = 1;
            while j < segs.len()
                invariant
                    1 <= j <= segs@.len(),
                    (k as int) < (j as int),
                    k as int == rot_pick((ax as int, ay as int), segs_view(segs@), j as int),
                    best as int == start_dist_sq(
                        (ax as int, ay as int),
                        segs_view(segs@)[k as int],
                    ),
                decreases segs@.len() - j,
            {
                let d = dist_sq_points(ax, ay, segs[j].x1, segs[j].y1);
                if d < best {
                    best = d;
                    k = j;
                }
                j = j + 1;
            }
            let rot = rotate_left_segments(segs, k);
            proof {
                lemma_segs_view_subrange(segs@, k as int, segs@.len() as int);
                lemma_segs_view_subrange(segs@, 0, k as int);
                assert(segs_view(rot@) =~= rotated_seq(sv, k as int));
            }
            rot
        },
        Option::None => {
            copy_segments(segs)
        },
    };
    let ghost rv = segs_view(rotated@);
    proof {
        assert(rv == match anch_v(anchor) {
            Option::Some(p) => rotated_seq(sv, rot_pick(p, sv, sv.len() as int)),
            Option::None => sv,
        });
        assert(rv.len() == sv.len());
    }
    let mut ordered: Vec<Segment> = Vec::new();
    ordered.push(rotated[0]);
    let mut remaining: Vec<Segment> = Vec::new();
    let mut t: usize = 1;
    while t < rotated.len()
        invariant
            1 <= t <= rotated@.len(),
            remaining@ == rotated@.subrange(1, t as int),
        decreases rotated@.len() - t,
    {
        remaining.push(rotated[t]);
        proof {
            assert(rotated@.subrange(1, t as int).push(rotated@[t as int]) =~= rotated@.subrange(
                1,
                t as int + 1,
            ));
        }
        t = t + 1;
    }
    let ghost goal = seq![rv[0]] + greedy_rest(rv[0], rv.drop_first());
    proof {
        lemma_segs_view_push(Seq::<Segment>::empty(), rotated@[0]);
        assert(segs_view(ordered@) =~= seq![rv[0]]);
        lemma_segs_view_subrange(rotated@, 1, rotated@.len() as int);
        assert(rv.subrange(1, rv.len() as int) =~= rv.drop_first());
        assert(segs_view(remaining@) == rv.drop_first());
        assert(goal == segs_view(ordered@) + greedy_rest(segs_view(ordered@).last(), segs_view(remaining@)));
    }
    while remaining.len() > 0
        invariant
            ordered@.len() >= 1,
            goal == segs_view(ordered@) + greedy_rest(
                segs_view(ordered@).last(),
                segs_view(remaining@),
            ),
        decreases remaining@.len(),
    {
        let ghost ord_v = segs_view(ordered@);
        let ghost rem_v = segs_view(remaining@);
        let last = ordered[ordered.len() - 1];
        proof {
            assert(last@ == ord_v.last());
        }
        let mut bi: usize = 0;
        let mut bd: u128 = eff_dist(&last, &remaining[0]);
        let mut j: usize = 1;
        while j < remaining.len()
            invariant
                1 <= j <= remaining@.len(),
                (bi as int) < (j as int),
                rem_v == segs_view(remaining@),
                last@ == ord_v.last(),
                bi as int == greedy_pick(last@, rem_v, j as int),
                bd as int == cand_dist(last@, rem_v[bi as int]),
            decreases remaining@.len() - j,
        {
            let d = eff_dist(&last, &remaining[j]);
            if d < bd {
                bd = d;
                bi = j;
            }
            j = j + 1;
        }
        proof {
            lemma_greedy_pick_in_range(last@, rem_v, rem_v.len() as int);
        }
        let ghost rem_raw = remaining@;
        let ghost ord_raw = ordered@;
        let chosen = remaining.remove(bi);
        let placed = orient_exec(&last, &chosen);
        ordered.push(placed);
        proof {
            lemma_segs_view_remove(rem_raw, bi as int);
            lemma_segs_view_push(ord_raw, placed);
            assert(placed@ == orient(last@, rem_v[bi as int]));
            assert(greedy_rest(last@, rem_v) == seq![placed@] + greedy_rest(
                placed@,
                rem_v.remove(bi as int),
            ));
            assert(ord_v + (seq![placed@] + greedy_rest(placed@, rem_v.remove(bi as int)))
                =~= ord_v.push(placed@) + greedy_rest(placed@, rem_v.remove(bi as int)));
            assert(segs_view(ordered@).last() == placed@);
            assert(goal == segs_view(ordered@) + greedy_rest(
                segs_view(ordered@).last(),
                segs_view(remaining@),
            ));
        }
    }
    proof {
        assert(segs_view(remaining@) =~= Seq::<SegV>::empty());
        assert(greedy_rest(segs_view(ordered@).last(), segs_view(remaining@)) =~= Seq::<SegV>::empty());
        assert(goal =~= segs_view(ordered@));
        assert(reorder_layer_segs(anch_v(anchor), sv) == goal);
    }
    ordered
}

/// Reorder every layer in order, threading the continuity anchor through
/// the layers already reordered.
fn reorder_all_layers(layers: &Vec<Layer>) -> (r: Vec<Layer>)
    ensures
        layers_view(r@) == reorder_layers_spec(Option::None, layers_view(layers@)),
{
    let ghost lv = layers_view(layers@);
    let mut out: Vec<Layer> = Vec::new();
    let mut anchor: Option<(i32, i32)> = Option::None;
    let mut i: usize = 0;
    proof {
        assert(lv.skip(0) =~= lv);
        assert(layers_view(out@) =~= Seq::<LayerV>::empty());
    }
    while i < layers.len()
        invariant
            i <= layers@.len(),
            lv == layers_view(layers@),
            out@.len() == i as int,
            reorder_layers_spec(Option::None, lv) == layers_view(out@) + reorder_layers_spec(
                anch_v(anchor),
                lv.skip(i as int),
            ),
        decreases layers@.len() - i,
    {
        let ghost out_raw = out@;
        let ghost pending = lv.skip(i as int);
        let ghost anch0 = anch_v(anchor);
        let l = &layers[i];
        proof {
            assert(pending[0] == lv[i as int]);
            assert(lv[i as int] == l@);
        }
        let ordered = reorder_layer_exec(anchor, &l.segments);
        let ghost osegs = segs_view(ordered@);
        proof {
            assert(osegs == reorder_layer_segs(anch0, pending[0].segments));
        }
        if ordered.len() > 0 {
            let lastseg = ordered[ordered.len() - 1];
            proof {
                assert(lastseg@ == osegs.last());
            }
            anchor = Option::Some((lastseg.x2, lastseg.y2));
        }
        proof {
            assert(anch_v(anchor) == anchor_after(anch0, osegs));
        }
        let newlayer = Layer { id: l.id, segments: ordered };
        out.push(newlayer);
        proof {
            lemma_layers_view_push(out_raw, newlayer);
            assert(newlayer@ == LayerV { id: pending[0].id, segments: osegs });
            assert(pending.drop_first() =~= lv.skip(i as int + 1));
            assert(reorder_layers_spec(anch0, pending) == seq![
                LayerV { id: pending[0].id, segments: osegs },
            ] + reorder_layers_spec(anch_v(anchor), lv.skip(i as int + 1)));
            assert(layers_view(out_raw) + (seq![newlayer@] + reorder_layers_spec(
                anch_v(anchor),
                lv.skip(i as int + 1),
            )) =~= layers_view(out_raw).push(newlayer@) + reorder_layers_spec(
                anch_v(anchor),
                lv.skip(i as int + 1),
            ));
        }
        i = i + 1;
    }
    proof {
        assert(lv.skip(layers@.len() as int) =~= Seq::<LayerV>::empty());
        assert(reorder_layers_spec(anch_v(anchor), Seq::<LayerV>::empty()) =~= Seq::<LayerV>::empty());
        assert(layers_view(out@) + Seq::<LayerV>::empty() =~= layers_view(out@));
    }
    out
}

/// The canonical (direction-insensitive) forms of a segment sequence.
pub open spec fn canon_seq(segs: Seq<SegV>) -> Seq<SegV> {
    segs.map_values(|s: SegV| crate::geometry::seg_canon(s))
}

/// The multiset of cuts in a segment sequence, compared without direction.
pub open spec fn canon_ms(segs: Seq<SegV>) -> vstd::multiset::Multiset<SegV> {
    canon_seq(segs).to_multiset()
}

proof fn lemma_greedy_rest_canon_ms(last: SegV, pool: Seq<SegV>)
    ensures
        canon_ms(greedy_rest(last, pool)) == canon_ms(pool),
    decreases pool.len(),
{
    broadcast use vstd::seq_lib::group_to_multiset_ensures;
    broadcast use vstd::multiset::group_multiset_axioms;

    if pool.len() == 0 {
        assert(canon_seq(greedy_rest(last, pool)) =~= canon_seq(pool));
    } else {
        let n = pool.len() as int;
        let i = greedy_pick(last, pool, n);
        lemma_greedy_pick_in_range(last, pool, n);
        let placed = orient(last, pool[i]);
        crate::geometry::lemma_canon_rev(pool[i]);
        let c = crate::geometry::seg_canon(pool[i]);
        assert(crate::geometry::seg_canon(placed) == c);
        let rest = greedy_rest(placed, pool.remove(i));
        assert(greedy_rest(last, pool) == seq![placed] + rest);
        lemma_greedy_rest_canon_ms(placed, pool.remove(i));
        assert(canon_seq(seq![placed] + rest) =~= canon_seq(rest).insert(0, c));
        vstd::seq_lib::to_multiset_insert(canon_seq(rest), 0, c);
        assert(canon_ms(greedy_rest(last, pool)) == canon_ms(pool.remove(i)).insert(c));
        assert(canon_seq(pool.remove(i)) =~= canon_seq(pool).remove(i));
        assert(canon_seq(pool)[i] == c);
        assert(canon_seq(pool).remove(i).to_multiset() == canon_seq(pool).to_multiset().remove(c));
        assert(canon_seq(pool).contains(c));
        assert(canon_ms(pool).count(c) > 0);
        assert(canon_ms(pool).remove(c).insert(c) =~= canon_ms(pool));
    }
}

proof fn lemma_rotated_canon_ms(segs: Seq<SegV>, k: int)
    requires
        0 <= k <= segs.len(),
    ensures
        canon_ms(rotated_seq(segs, k)) == canon_ms(segs),
        rotated_seq(segs, k).len() == segs.len(),
{
    broadcast use vstd::multiset::group_multiset_axioms;

    let a = segs.subrange(0, k);
    let b = segs.subrange(k, segs.len() as int);
    assert(segs =~= a + b);
    assert(canon_seq(a + b) =~= canon_seq(a) + canon_seq(b));
    assert(canon_seq(b + a) =~= canon_seq(b) + canon_seq(a));
    assert(canon_seq(rotated_seq(segs, k)) =~= canon_seq(b) + canon_seq(a));
    vstd::seq_lib::lemma_multiset_commutative(canon_seq(a), canon_seq(b));
    vstd::seq_lib::lemma_multiset_commutative(canon_seq(b), canon_seq(a));
    assert(canon_seq(a).to_multiset().add(canon_seq(b).to_multiset()) =~= canon_seq(
        b,
    ).to_multiset().add(canon_seq(a).to_multiset()));
}

/// One layer's reordering is a permutation of its cuts: same count, same
/// multiset of direction-insensitive segments.
pub proof fn lemma_reorder_layer_canon(anchor: Option<(int, int)>, segs: Seq<SegV>)
    ensures
        canon_ms(reorder_layer_segs(anchor, segs)) == canon_ms(segs),
        reorder_layer_segs(anchor, segs).len() == segs.len(),
{
    broadcast use vstd::seq_lib::group_to_multiset_ensures;
    broadcast use vstd::multiset::group_multiset_axioms;

    if segs.len() == 0 {
    } else {
        let rot = match anchor {
            Option::Some(p) => rotated_seq(segs, rot_pick(p, segs, segs.len() as int)),
            Option::None => segs,
        };
        match anchor {
            Option::Some(p) => {
                lemma_rot_pick_in_range(p, segs, segs.len() as int);
                lemma_rotated_canon_ms(segs, rot_pick(p, segs, segs.len() as int));
            },
            Option::None => {},
        }
        assert(canon_ms(rot) == canon_ms(segs));
        assert(rot.len() == segs.len());
        let tour = greedy_rest(rot[0], rot.drop_first());
        lemma_greedy_rest_canon_ms(rot[0], rot.drop_first());
        let c0 = crate::geometry::seg_canon(rot[0]);
        assert(reorder_layer_segs(anchor, segs) == seq![rot[0]] + tour);
        assert(canon_seq(seq![rot[0]] + tour) =~= canon_seq(tour).insert(0, c0));
        vstd::seq_lib::to_multiset_insert(canon_seq(tour), 0, c0);
        assert(canon_seq(rot) =~= canon_seq(rot.drop_first()).insert(0, c0));
        vstd::seq_lib::to_multiset_insert(canon_seq(rot.drop_first()), 0, c0);
        assert(canon_ms(reorder_layer_segs(anchor, segs)) == canon_ms(rot));
        // lengths through the multisets
        assert(canon_seq(reorder_layer_segs(anchor, segs)).len() == canon_ms(
            reorder_layer_segs(anchor, segs),
        ).len());
        assert(canon_seq(segs).len() == canon_ms(segs).len());
    }
}

/// Shape of the reordered layer sequence: same length, identifiers kept in
/// place, and each layer's multiset of cuts preserved.
pub proof fn lemma_reorder_layers_shape(anchor: Option<(int, int)>, ls: Seq<LayerV>)
    ensures
        reorder_layers_spec(anchor, ls).len() == ls.len(),
        forall|i: int|
            0 <= i < ls.len() ==> {
                &&& (#[trigger] reorder_layers_spec(anchor, ls)[i]).id == ls[i].id
                &&& reorder_layers_spec(anchor, ls)[i].segments.len() == ls[i].segments.len()
                &&& canon_ms(reorder_layers_spec(anchor, ls)[i].segments) == canon_ms(
                    ls[i].segments,
                )
            },
    decreases ls.len(),
{
    if ls.len() > 0 {
        let segs = reorder_layer_segs(anchor, ls[0].segments);
        lemma_reorder_layer_canon(anchor, ls[0].segments);
        let rest = reorder_layers_spec(anchor_after(anchor, segs), ls.drop_first());
        lemma_reorder_layers_shape(anchor_after(anchor, segs), ls.drop_first());
        let whole = seq![LayerV { id: ls[0].id, segments: segs }] + rest;
        assert(reorder_layers_spec(anchor, ls) == whole);
        assert forall|i: int| 0 <= i < ls.len() implies {
            &&& (#[trigger] reorder_layers_spec(anchor, ls)[i]).id == ls[i].id
            &&& reorder_layers_spec(anchor, ls)[i].segments.len() == ls[i].segments.len()
            &&& canon_ms(reorder_layers_spec(anchor, ls)[i].segments) == canon_ms(ls[i].segments)
        } by {
            if i == 0 {
                assert(whole[0] == LayerV { id: ls[0].id, segments: segs });
            } else {
                assert(whole[i] == rest[i - 1]);
                assert(ls.drop_first()[i - 1] == ls[i]);
            }
        }
    }
}

/// Multiset preservation: every layer of the reordered document holds
/// exactly the cuts of the corresponding input layer, compared without
/// direction — none added, none lost.
pub proof fn lemma_reorder_preserves_cuts(d: DocV, i: int)
    requires
        0 <= i < d.layers.len(),
    ensures
        reorder_doc(d).layers.len() == d.layers.len(),
        reorder_doc(d).layers[i].id == d.layers[i].id,
        reorder_doc(d).layers[i].segments.len() == d.layers[i].segments.len(),
        canon_ms(reorder_doc(d).layers[i].segments) == canon_ms(d.layers[i].segments),
{
    lemma_reorder_layers_shape(Option::None, d.layers);
}

/// Determinism: the reordered document is a mathematical function of the
/// input document alone, so equal inputs reorder identically; together with
/// `minimize_gcode`'s contract, two runs on the same input produce the same
/// output.
pub proof fn lemma_reorder_deterministic(a: DocV, b: DocV)
    requires
        a == b,
    ensures
        reorder_doc(a) == reorder_doc(b),
{
}

/// Reorder the document's layers in place and also return the reordered
/// document; both equal `reorder_doc` of the input.
pub fn minimize_gcode(gcode: &mut GCodeData) -> (r: GCodeData)
    ensures
        final(gcode)@ == reorder_doc(old(gcode)@),
        r@ == reorder_doc(old(gcode)@),
{
    let reordered = reorder_all_layers(&gcode.layers);
    gcode.layers = reordered;
    let snapshot = GCodeData {
        num_layers: gcode.num_layers,
        layers: crate::model::copy_layers(&gcode.layers),
    };
    snapshot
}

} // verus!
