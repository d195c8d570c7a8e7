//! Byte ranges over the virtual archive and the segment plans that serve them.

use vstd::prelude::*;

verus! {

/// Half-open byte interval `[start, end)` over a 64-bit address space.
#[derive(Clone, Copy, Debug, PartialEq, Eq, Structural)]
pub struct Range {
    pub start: u64,
    pub end: u64,
}

impl Range {
    /// A range is well formed when it does not end before it starts; an
    /// empty range (`start == end`) is valid.
    pub open spec fn wf(self) -> bool {
        self.start <= self.end
    }

    pub open spec fn spec_len(self) -> nat {
        (self.end - self.start) as nat
    }

    /// Number of bytes covered.
    pub fn len(&self) -> (r: u64)
        requires
            self.wf(),
        ensures
            r == self.spec_len(),
    {
        self.end - self.start
    }
}

} // verus!

use crate::zip::{
    Layout, Region, region_offset, region_len, prefix_len, region_bytes,
    lemma_wf_bodies_fit, lemma_region_slice, lemma_concat_from_len, lemma_prefix_suffix,
    lemma_prefix_len_mono, lemma_layout_totality,
};
use crate::encode::copy_range;

verus! {

/// One piece of a stream plan: constant bytes already in memory, or a
/// ranged read of one member's body (`range` is relative to the body).
pub enum Segment {
    Bytes(Vec<u8>),
    BodyRead { member_index: usize, range: Range },
}

/// The bytes a segment stands for, given the member bodies.
pub open spec fn segment_bytes(s: Segment, bodies: Seq<Seq<u8>>) -> Seq<u8> {
    match s {
        Segment::Bytes(v) => v@,
        Segment::BodyRead { member_index, range } => bodies[member_index as int].subrange(
            range.start as int,
            range.end as int,
        ),
    }
}

/// Concatenation of a whole plan.
pub open spec fn segments_bytes(ss: Seq<Segment>, bodies: Seq<Seq<u8>>) -> Seq<u8>
    decreases ss.len(),
{
    if ss.len() == 0 {
        Seq::empty()
    } else {
        segments_bytes(ss.drop_last(), bodies) + segment_bytes(ss.last(), bodies)
    }
}

pub proof fn lemma_segments_push(ss: Seq<Segment>, x: Segment, bodies: Seq<Seq<u8>>)
    ensures
        segments_bytes(ss.push(x), bodies) == segments_bytes(ss, bodies) + segment_bytes(
            x,
            bodies,
        ),
{
    assert(ss.push(x).drop_last() =~= ss);
    assert(ss.push(x).last() == x);
}

proof fn lemma_slice_split(s: Seq<u8>, a: int, b: int, c: int)
    requires
        0 <= a <= b <= c <= s.len(),
    ensures
        s.subrange(a, c) == s.subrange(a, b) + s.subrange(b, c),
{
    assert(s.subrange(a, c) =~= s.subrange(a, b) + s.subrange(b, c));
}

proof fn lemma_sub_subrange(s: Seq<u8>, a: int, b: int, c: int, d: int)
    requires
        0 <= a <= c <= d <= b <= s.len(),
    ensures
        s.subrange(c, d) == s.subrange(a, b).subrange(c - a, d - a),
{
    assert(s.subrange(c, d) =~= s.subrange(a, b).subrange(c - a, d - a));
}

/// How far into the requested range the regions before `j` reach.
pub open spec fn covered_upto(rs: Seq<Region>, r: Range, j: int) -> int {
    let off = prefix_len(rs, j) as int;
    if off < r.start as int {
        r.start as int
    } else if off > r.end as int {
        r.end as int
    } else {
        off
    }
}

/// Walk the layout regions in order and emit one segment for each region
/// that intersects the requested range: a slice of the cached constant
/// block, or a ranged body read translated to body-relative offsets.
///
/// For every assignment of member bodies of the declared sizes, the
/// emitted segments concatenate to exactly the requested slice of the
/// archive.
#[verifier::loop_isolation(false)]
#[verifier::rlimit(100)]
pub fn plan_range(l: &Layout, r: Range) -> (segs: Vec<Segment>)
    requires
        l.wf(),
        r.wf(),
        r.end as nat <= l.total_len as nat,
    ensures
        forall|bodies: Seq<Seq<u8>>|
            l.wf_bodies(bodies) ==> #[trigger] segments_bytes(segs@, bodies)
                == l.archive_bytes(bodies).subrange(r.start as int, r.end as int),
{
    let ghost rs = l.regions@;
    let mut segs: Vec<Segment> = Vec::new();
    let mut j: usize = 0;
    proof {
        assert(covered_upto(rs, r, 0) == r.start as int);
        assert forall|bodies: Seq<Seq<u8>>| l.wf_bodies(bodies) implies #[trigger] segments_bytes(
            segs@,
            bodies,
        ) == l.archive_bytes(bodies).subrange(r.start as int, covered_upto(rs, r, 0)) by {
            lemma_wf_bodies_fit(*l, bodies);
            lemma_concat_from_len(rs, bodies, 0);
            lemma_prefix_suffix(rs, rs.len() as int);
            assert(l.archive_bytes(bodies).subrange(r.start as int, r.start as int)
                =~= Seq::<u8>::empty());
        }
    }
    while j < l.regions.len()
        invariant
            j <= rs.len(),
            forall|bodies: Seq<Seq<u8>>|
                l.wf_bodies(bodies) ==> #[trigger] segments_bytes(segs@, bodies)
                    == l.archive_bytes(bodies).subrange(r.start as int, covered_upto(rs, r, j as int)),
        decreases rs.len() - j,
    {
        let ghost jj = j as int;
        let ghost segs0 = segs@;
        let (off, rlen): (u64, u64) = match &l.regions[j] {
            Region::Const { offset, bytes } => (*offset, bytes.len() as u64),
            Region::Body { offset, size, .. } => (*offset, *size),
        };
        proof {
            assert(off == region_offset(rs[jj]));
            assert(rlen as nat == region_len(rs[jj]));
            assert(prefix_len(rs, jj + 1) == prefix_len(rs, jj) + region_len(rs[jj]));
            lemma_prefix_len_mono(rs, jj + 1, rs.len() as int);
            assert(off as nat + rlen as nat <= l.total_len as nat);
        }
        let end_off = off + rlen;
        let lo = if off > r.start {
            off
        } else {
            r.start
        };
        let hi = if end_off < r.end {
            end_off
        } else {
            r.end
        };
        if lo < hi {
            match &l.regions[j] {
                Region::Const { offset, bytes } => {
                    let piece = copy_range(bytes, (lo - off) as usize, (hi - off) as usize);
                    segs.push(Segment::Bytes(piece));
                },
                Region::Body { member_index, .. } => {
                    segs.push(
                        Segment::BodyRead {
                            member_index: *member_index,
                            range: Range { start: lo - off, end: hi - off },
                        },
                    );
                },
            }
            proof {
                let x = segs@.last();
                assert(segs@ == segs0.push(x));
                assert forall|bodies: Seq<Seq<u8>>| l.wf_bodies(bodies) implies #[trigger] segments_bytes(
                    segs@,
                    bodies,
                ) == l.archive_bytes(bodies).subrange(
                    r.start as int,
                    covered_upto(rs, r, jj + 1),
                ) by {
                    lemma_wf_bodies_fit(*l, bodies);
                    let a = l.archive_bytes(bodies);
                    lemma_concat_from_len(rs, bodies, 0);
                    lemma_prefix_suffix(rs, rs.len() as int);
                    assert(a.len() == l.total_len as nat);
                    lemma_region_slice(rs, bodies, jj);
                    let p = prefix_len(rs, jj) as int;
                    let q = p + region_len(rs[jj]) as int;
                    assert(a.subrange(p, q) == region_bytes(rs[jj], bodies));
                    lemma_sub_subrange(a, p, q, lo as int, hi as int);
                    assert(segment_bytes(x, bodies) == a.subrange(lo as int, hi as int));
                    lemma_segments_push(segs0, x, bodies);
                    assert(covered_upto(rs, r, jj) == lo as int);
                    assert(covered_upto(rs, r, jj + 1) == hi as int);
                    lemma_slice_split(a, r.start as int, lo as int, hi as int);
                }
            }
        } else {
            proof {
                assert forall|bodies: Seq<Seq<u8>>| l.wf_bodies(bodies) implies #[trigger] segments_bytes(
                    segs@,
                    bodies,
                ) == l.archive_bytes(bodies).subrange(
                    r.start as int,
                    covered_upto(rs, r, jj + 1),
                ) by {
                    assert(covered_upto(rs, r, jj + 1) == covered_upto(rs, r, jj));
                }
            }
        }
        j = j + 1;
    }
    proof {
        assert(prefix_len(rs, rs.len() as int) == l.total_len as nat);
        assert(covered_upto(rs, r, rs.len() as int) == r.end as int);
    }
    segs
}

} // verus!

verus! {

/// A source of lazy byte sequences for any sub-range of a known total
/// length: an in-memory buffer, or the virtual ZIP archive.
pub enum StreamRange {
    Memory(Vec<u8>),
    Zip(Layout),
}

impl StreamRange {
    pub open spec fn wf(self) -> bool {
        match self {
            StreamRange::Memory(_) => true,
            StreamRange::Zip(l) => l.wf(),
        }
    }

    /// Body assignments that make sense for this provider.
    pub open spec fn wf_bodies(self, bodies: Seq<Seq<u8>>) -> bool {
        match self {
            StreamRange::Memory(_) => true,
            StreamRange::Zip(l) => l.wf_bodies(bodies),
        }
    }

    /// The provider's whole logical content, given the member bodies (a
    /// memory provider's content does not depend on them).
    pub open spec fn content(self, bodies: Seq<Seq<u8>>) -> Seq<u8> {
        match self {
            StreamRange::Memory(v) => v@,
            StreamRange::Zip(l) => l.archive_bytes(bodies),
        }
    }

    pub open spec fn spec_len(self) -> nat {
        match self {
            StreamRange::Memory(v) => v@.len(),
            StreamRange::Zip(l) => l.total_len as nat,
        }
    }

    pub proof fn lemma_content_len(self, bodies: Seq<Seq<u8>>)
        requires
            self.wf(),
            self.wf_bodies(bodies),
        ensures
            self.content(bodies).len() == self.spec_len(),
    {
        match self {
            StreamRange::Memory(_) => {},
            StreamRange::Zip(l) => {
                lemma_layout_totality(l, bodies);
            },
        }
    }

    /// Total number of bytes.
    pub fn len(&self) -> (r: u64)
        requires
            self.wf(),
        ensures
            r as nat == self.spec_len(),
    {
        match self {
            StreamRange::Memory(v) => v.len() as u64,
            StreamRange::Zip(l) => l.total_len,
        }
    }

    /// The plan for one sub-range: segments whose concatenation is exactly
    /// the bytes `[r.start, r.end)` of the content, whatever the bodies.
    pub fn stream_range(&self, r: Range) -> (segs: Vec<Segment>)
        requires
            self.wf(),
            r.wf(),
            r.end as nat <= self.spec_len(),
        ensures
            forall|bodies: Seq<Seq<u8>>|
                self.wf_bodies(bodies) ==> #[trigger] segments_bytes(segs@, bodies)
                    == self.content(bodies).subrange(r.start as int, r.end as int),
    {
        match self {
            StreamRange::Memory(v) => {
                let total = v.len();
                proof {
                    assert(v@.len() == self.spec_len());
                    assert(r.end as nat <= total as nat);
                }
                let a = r.start as usize;
                let b = r.end as usize;
                proof {
                    assert(a as nat == r.start as nat);
                    assert(b as nat == r.end as nat);
                }
                let piece = copy_range(v, a, b);
                let mut segs: Vec<Segment> = Vec::new();
                segs.push(Segment::Bytes(piece));
                proof {
                    assert(segs@.drop_last() =~= Seq::<Segment>::empty());
                    assert forall|bodies: Seq<Seq<u8>>|
                        self.wf_bodies(bodies) implies #[trigger] segments_bytes(segs@, bodies)
                        == self.content(bodies).subrange(r.start as int, r.end as int) by {
                        assert(segments_bytes(segs@, bodies) == segments_bytes(
                            segs@.drop_last(),
                            bodies,
                        ) + segment_bytes(segs@.last(), bodies));
                        assert(segments_bytes(segs@.drop_last(), bodies) == Seq::<u8>::empty());
                        assert(Seq::<u8>::empty() + segment_bytes(segs@.last(), bodies)
                            =~= segment_bytes(segs@.last(), bodies));
                        assert(segment_bytes(segs@.last(), bodies) == v@.subrange(
                            r.start as int,
                            r.end as int,
                        ));
                    }
                }
                segs
            },
            StreamRange::Zip(l) => plan_range(l, r),
        }
    }
}

/// Range fidelity: a plan for `[r.start, r.end)` yields exactly the
/// corresponding slice of what a plan for the full range `[0, len)`
/// yields, for any bodies that fit the provider.
pub proof fn lemma_range_fidelity(
    p: StreamRange,
    bodies: Seq<Seq<u8>>,
    sub: Seq<Segment>,
    full: Seq<Segment>,
    r: Range,
)
    requires
        p.wf(),
        p.wf_bodies(bodies),
        r.wf(),
        r.end as nat <= p.spec_len(),
        segments_bytes(sub, bodies) == p.content(bodies).subrange(r.start as int, r.end as int),
        segments_bytes(full, bodies) == p.content(bodies).subrange(0, p.spec_len() as int),
    ensures
        segments_bytes(sub, bodies) == segments_bytes(full, bodies).subrange(
            r.start as int,
            r.end as int,
        ),
{
    p.lemma_content_len(bodies);
    assert(p.content(bodies).subrange(0, p.spec_len() as int) =~= p.content(bodies));
    assert(segments_bytes(full, bodies) == p.content(bodies));
}

} // verus!
