//! The in-memory toolpath document: ordered layers of ordered segments,
//! together with their mathematical views and a few helpers that connect
//! executable vectors to their spec-level sequences.

use vstd::prelude::*;

use crate::geometry::SegV;
use crate::geometry::Segment;

verus! {

/// An identified group of segments manufactured together at one level.
#[derive(Clone, Debug)]
pub struct Layer {
    pub id: usize,
    pub segments: Vec<Segment>,
}

/// A whole toolpath document: the declared layer count from the source
/// header (which may exceed the number of layers actually present) and the
/// layers in manufacturing order.
#[derive(Clone, Debug)]
pub struct GCodeData {
    pub num_layers: usize,
    pub layers: Vec<Layer>,
}

/// Mathematical value of a layer.
#[verifier::ext_equal]
pub ghost struct LayerV {
    pub id: int,
    pub segments: Seq<SegV>,
}

/// Mathematical value of a document.
#[verifier::ext_equal]
pub ghost struct DocV {
    pub num_layers: int,
    pub layers: Seq<LayerV>,
}

/// The mathematical values of a sequence of segments.
pub open spec fn segs_view(v: Seq<Segment>) -> Seq<SegV> {
    v.map_values(|s: Segment| s@)
}

/// The mathematical values of a sequence of layers.
pub open spec fn layers_view(v: Seq<Layer>) -> Seq<LayerV> {
    v.map_values(|l: Layer| l@)
}

impl View for Layer {
    type V = LayerV;

    open spec fn view(&self) -> LayerV {
        LayerV { id: self.id as int, segments: segs_view(self.segments@) }
    }
}

impl View for GCodeData {
    type V = DocV;

    open spec fn view(&self) -> DocV {
        DocV { num_layers: self.num_layers as int, layers: layers_view(self.layers@) }
    }
}

pub proof fn lemma_segs_view_push(v: Seq<Segment>, s: Segment)
    ensures
        segs_view(v.push(s)) == segs_view(v).push(s@),
{
    assert(segs_view(v.push(s)) =~= segs_view(v).push(s@));
}

pub proof fn lemma_segs_view_remove(v: Seq<Segment>, i: int)
    requires
        0 <= i < v.len(),
    ensures
        segs_view(v.remove(i)) == segs_view(v).remove(i),
{
    assert(segs_view(v.remove(i)) =~= segs_view(v).remove(i));
}

pub proof fn lemma_segs_view_subrange(v: Seq<Segment>, i: int, j: int)
    requires
        0 <= i <= j <= v.len(),
    ensures
        segs_view(v.subrange(i, j)) == segs_view(v).subrange(i, j),
{
    assert(segs_view(v.subrange(i, j)) =~= segs_view(v).subrange(i, j));
}

pub proof fn lemma_layers_view_push(v: Seq<Layer>, l: Layer)
    ensures
        layers_view(v.push(l)) == layers_view(v).push(l@),
{
    assert(layers_view(v.push(l)) =~= layers_view(v).push(l@));
}

/// An element-wise copy of a segment vector.
pub fn copy_segments(v: &Vec<Segment>) -> (r: Vec<Segment>)
    ensures
        r@ == v@,
{
    let mut r: Vec<Segment> = Vec::new();
    let mut i: usize = 0;
    while i < v.len()
        invariant
            i <= v.len(),
            r@ == v@.subrange(0, i as int),
        decreases v.len() - i,
    {
        r.push(v[i]);
        proof {
            assert(v@.subrange(0, i as int).push(v@[i as int]) =~= v@.subrange(
                0,
                i as int + 1,
            ));
        }
        i = i + 1;
    }
    proof {
        assert(v@.subrange(0, v@.len() as int) =~= v@);
    }
    r
}

/// An element-wise copy of a layer vector; the copy has the same
/// mathematical value as the original.
pub fn copy_layers(v: &Vec<Layer>) -> (r: Vec<Layer>)
    ensures
        layers_view(r@) == layers_view(v@),
        r@.len() == v@.len(),
{
    let mut r: Vec<Layer> = Vec::new();
    let mut i: usize = 0;
    while i < v.len()
        invariant
            i <= v.len(),
            r@.len() == i,
            layers_view(r@) == layers_view(v@).subrange(0, i as int),
        decreases v.len() - i,
    {
        let l = &v[i];
        let copy = Layer { id: l.id, segments: copy_segments(&l.segments) };
        proof {
            lemma_layers_view_push(r@, copy);
            assert(copy@ == l@);
            assert(layers_view(v@)[i as int] == l@);
            assert(layers_view(v@).subrange(0, i as int).push(l@) =~= layers_view(
                v@,
            ).subrange(0, i as int + 1));
        }
        r.push(copy);
        i = i + 1;
    }
    proof {
        assert(layers_view(v@).subrange(0, v@.len() as int) =~= layers_view(v@));
    }
    r
}

} // verus!
