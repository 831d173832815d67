//! Placing capsule data on storage zones: the data is cut into segments of
//! a fixed size, each named by the BLAKE3 digest of its bytes, and the
//! segments are gathered, in order, into zones that each hold at least one
//! segment's worth of bytes (the last zone may hold less).

use vstd::prelude::*;
use crate::digest::{blake3_digest, blake3_hash};

verus! {

/// A segment of capsule data: where it starts in the capsule's bytes, how
/// long it is, and the digest of its bytes.
#[derive(Clone, Debug)]
pub struct SegmentRef {
    pub capsule_id: u128,
    pub offset: u64,
    pub length: u64,
    pub compressed_hash: Vec<u8>,
}

pub struct SegmentView {
    pub capsule_id: u128,
    pub offset: u64,
    pub length: u64,
    pub compressed_hash: Seq<u8>,
}

impl View for SegmentRef {
    type V = SegmentView;

    open spec fn view(&self) -> SegmentView {
        SegmentView {
            capsule_id: self.capsule_id,
            offset: self.offset,
            length: self.length,
            compressed_hash: self.compressed_hash@,
        }
    }
}

pub open spec fn seg_views(s: Seq<SegmentRef>) -> Seq<SegmentView> {
    s.map_values(|r: SegmentRef| r@)
}

/// A storage zone and the segments placed on it.
#[derive(Clone, Debug)]
pub struct Zone {
    pub id: u64,
    pub iv_seed: u64,
    pub segments: Vec<SegmentRef>,
}

/// Where the data of capsules goes.
#[derive(Clone, Debug)]
pub struct ZonePlan {
    pub zones: Vec<Zone>,
    pub merkle_root: Option<Vec<u8>>,
}

// ---------------------------------------------------------------------------
// Cutting
// ---------------------------------------------------------------------------

/// The segments of one slice of data that starts at `base` in the capsule:
/// pieces of `n` bytes, the last one shorter.
pub open spec fn slice_pieces(data: Seq<u8>, base: int, n: nat, cap: u128) -> Seq<SegmentView>
    decreases data.len(),
{
    if data.len() == 0 || n == 0 {
        Seq::empty()
    } else {
        let t: int = if data.len() <= n {
            data.len() as int
        } else {
            n as int
        };
        seq![
            SegmentView {
                capsule_id: cap,
                offset: base as u64,
                length: t as u64,
                compressed_hash: blake3_digest(data.take(t)),
            },
        ] + slice_pieces(data.skip(t), base + t, n, cap)
    }
}

/// Total length of the slices.
pub open spec fn total_len(slices: Seq<Seq<u8>>) -> int
    decreases slices.len(),
{
    if slices.len() == 0 {
        0
    } else {
        total_len(slices.drop_last()) + slices.last().len()
    }
}

/// The segments of all slices, the slices laid end to end from `base`.
pub open spec fn all_pieces(slices: Seq<Seq<u8>>, base: int, n: nat, cap: u128) -> Seq<
    SegmentView,
>
    decreases slices.len(),
{
    if slices.len() == 0 {
        Seq::empty()
    } else {
        slice_pieces(slices[0], base, n, cap) + all_pieces(
            slices.drop_first(),
            base + slices[0].len(),
            n,
            cap,
        )
    }
}

pub open spec fn slice_views(s: Seq<Vec<u8>>) -> Seq<Seq<u8>> {
    s.map_values(|v: Vec<u8>| v@)
}

proof fn lemma_pieces_step(p: Seq<u8>, a: int, base: int, n: nat, cap: u128)
    requires
        0 <= a < p.len(),
        n > 0,
    ensures
        ({
            let t = if p.len() - a <= n { p.len() - a } else { n as int };
            slice_pieces(p.skip(a), base + a, n, cap) == seq![
                SegmentView {
                    capsule_id: cap,
                    offset: (base + a) as u64,
                    length: t as u64,
                    compressed_hash: blake3_digest(p.subrange(a, a + t)),
                },
            ] + slice_pieces(p.skip(a + t), base + a + t, n, cap)
        }),
{
    let q = p.skip(a);
    let t = if p.len() - a <= n { p.len() - a } else { n as int };
    assert(q.take(t) =~= p.subrange(a, a + t));
    assert(q.skip(t) =~= p.skip(a + t));
}

/// Cuts a slice of capsule data, laid at `base`, into segments and appends
/// them to `out`.
fn cut_slice(out: &mut Vec<SegmentRef>, data: &Vec<u8>, base: usize, n: usize, cap: u128)
    requires
        n > 0,
        base + data@.len() <= usize::MAX,
    ensures
        seg_views(final(out)@) == seg_views(old(out)@) + slice_pieces(
            data@,
            base as int,
            n as nat,
            cap,
        ),
{
    let len = data.len();
    let mut start: usize = 0;
    proof {
        assert(data@.skip(0) =~= data@);
        assert(seg_views(out@) + slice_pieces(data@, base as int, n as nat, cap) =~= seg_views(
            old(out)@,
        ) + slice_pieces(data@, base as int, n as nat, cap));
    }
    while start < len
        invariant
            len == data@.len(),
            n > 0,
            base + len <= usize::MAX,
            start <= len,
            seg_views(out@) + slice_pieces(data@.skip(start as int), base + start, n as nat, cap)
                == seg_views(old(out)@) + slice_pieces(data@, base as int, n as nat, cap),
        decreases len - start,
    {
        let take: usize = if len - start <= n {
            len - start
        } else {
            n
        };
        let piece = copy_range(data, start, start + take);
        let hash = blake3_hash(piece.as_slice());
        proof {
            lemma_pieces_step(data@, start as int, base as int, n as nat, cap);
        }
        let ghost before = out@;
        out.push(
            SegmentRef {
                capsule_id: cap,
                offset: (base + start) as u64,
                length: take as u64,
                compressed_hash: hash,
            },
        );
        proof {
            let sv = SegmentView {
                capsule_id: cap,
                offset: (base + start) as u64,
                length: take as u64,
                compressed_hash: blake3_digest(data@.subrange(start as int, start + take)),
            };
            assert(seg_views(out@) =~= seg_views(before).push(sv));
            assert(seg_views(out@) + slice_pieces(
                data@.skip(start + take),
                base + start + take,
                n as nat,
                cap,
            ) =~= seg_views(before) + (seq![sv] + slice_pieces(
                data@.skip(start + take),
                base + start + take,
                n as nat,
                cap,
            )));
        }
        start = start + take;
    }
    proof {
        assert(data@.skip(len as int).len() == 0);
        assert(seg_views(out@) + slice_pieces(data@.skip(len as int), base + len, n as nat, cap)
            =~= seg_views(out@));
    }
}

fn copy_range(src: &Vec<u8>, start: usize, end: usize) -> (r: Vec<u8>)
    requires
        start <= end <= src@.len(),
    ensures
        r@ == src@.subrange(start as int, end as int),
{
    let mut r: Vec<u8> = Vec::new();
    let mut i: usize = start;
    while i < end
        invariant
            start <= i <= end,
            end <= src@.len(),
            r@ == src@.subrange(start as int, i as int),
        decreases end - i,
    {
        proof {
            assert(src@.subrange(start as int, i + 1) =~= src@.subrange(start as int, i as int).push(
                src@[i as int],
            ));
        }
        r.push(src[i]);
        i = i + 1;
    }
    r
}

// ---------------------------------------------------------------------------
// Gathering into zones
// ---------------------------------------------------------------------------

/// Where gathering stands after some segments: the zones already closed,
/// the segments of the zone being filled, and the bytes on it.
pub struct GroupState {
    pub closed: Seq<Seq<SegmentView>>,
    pub current: Seq<SegmentView>,
    pub usage: int,
}

/// Gathering the segments in order: each joins the open zone, which closes
/// as soon as it holds at least `n` bytes.
pub open spec fn group_fold(s: Seq<SegmentView>, n: nat) -> GroupState
    decreases s.len(),
{
    if s.len() == 0 {
        GroupState { closed: Seq::empty(), current: Seq::empty(), usage: 0 }
    } else {
        let st = group_fold(s.drop_last(), n);
        let cur = st.current.push(s.last());
        let u = st.usage + s.last().length;
        if u >= n {
            GroupState { closed: st.closed.push(cur), current: Seq::empty(), usage: 0 }
        } else {
            GroupState { closed: st.closed, current: cur, usage: u }
        }
    }
}

/// The zones' segments: the closed zones, then the open one if it holds
/// any segment.
pub open spec fn zone_groups(s: Seq<SegmentView>, n: nat) -> Seq<Seq<SegmentView>> {
    let st = group_fold(s, n);
    if st.current.len() > 0 {
        st.closed.push(st.current)
    } else {
        st.closed
    }
}

/// Zone `i` of a plan is numbered `i`, seeded with `i`, and holds group `i`.
pub open spec fn zones_match(zones: Seq<Zone>, groups: Seq<Seq<SegmentView>>) -> bool {
    &&& zones.len() == groups.len()
    &&& forall|i: int|
        0 <= i < zones.len() ==> (#[trigger] zones[i]).id == i && zones[i].iv_seed == i
            && seg_views(zones[i].segments@) == groups[i]
}

proof fn lemma_group_bounds(s: Seq<SegmentView>, n: nat)
    requires
        n > 0,
    ensures
        0 <= group_fold(s, n).usage < n,
        group_fold(s, n).closed.len() <= s.len(),
        group_fold(s, n).current.len() == 0 ==> group_fold(s, n).usage == 0,
        group_fold(s, n).closed.len() + group_fold(s, n).current.len() <= s.len(),
    decreases s.len(),
{
    if s.len() > 0 {
        lemma_group_bounds(s.drop_last(), n);
    }
}

/// A plan that places the segments laid out by a layout of segment size
/// `segment_size`.
pub struct CpuFixed {
    segment_size: usize,
}

impl CpuFixed {
    pub closed spec fn segment_size_spec(self) -> nat {
        self.segment_size as nat
    }

    /// A layout with segments of `segment_size` bytes, at least one.
    pub fn new(segment_size: usize) -> (r: Self)
        requires
            segment_size > 0,
        ensures
            r.segment_size_spec() == segment_size,
    {
        CpuFixed { segment_size }
    }

    pub fn segment_size(&self) -> (r: usize)
        ensures
            r == self.segment_size_spec(),
    {
        self.segment_size
    }

    /// Cuts the slices, laid end to end, into segments of the layout's size
    /// (the last of each slice shorter), each with the digest of its bytes.
    pub fn cut_segments(&self, capsule: u128, data_slices: &Vec<Vec<u8>>) -> (r: Vec<SegmentRef>)
        requires
            self.segment_size_spec() > 0,
            total_len(slice_views(data_slices@)) <= usize::MAX,
        ensures
            seg_views(r@) == all_pieces(
                slice_views(data_slices@),
                0,
                self.segment_size_spec(),
                capsule,
            ),
    {
        let ghost sl = slice_views(data_slices@);
        let ghost n = self.segment_size_spec();
        let mut out: Vec<SegmentRef> = Vec::new();
        let mut cursor: usize = 0;
        let mut i: usize = 0;
        proof {
            assert(sl.skip(0) =~= sl);
            assert(seg_views(out@) + all_pieces(sl, 0, n, capsule) =~= all_pieces(
                sl,
                0,
                n,
                capsule,
            ));
            assert(sl.take(0) =~= Seq::<Seq<u8>>::empty());
        }
        while i < data_slices.len()
            invariant
                sl == slice_views(data_slices@),
                n == self.segment_size_spec(),
                n > 0,
                n == self.segment_size,
                i <= data_slices@.len(),
                total_len(sl) <= usize::MAX,
                cursor == total_len(sl.take(i as int)),
                seg_views(out@) + all_pieces(sl.skip(i as int), cursor as int, n, capsule)
                    == all_pieces(sl, 0, n, capsule),
            decreases data_slices@.len() - i,
        {
            let slice = &data_slices[i];
            proof {
                assert(sl[i as int] == slice@);
                assert(sl.take(i + 1).drop_last() =~= sl.take(i as int));
                assert(sl.take(i + 1).last() == slice@);
                lemma_total_len_prefix(sl, i + 1);
                let rest = sl.skip(i as int);
                assert(rest[0] == slice@);
                assert(rest.drop_first() =~= sl.skip(i + 1));
            }
            let ghost before = out@;
            cut_slice(&mut out, slice, cursor, self.segment_size, capsule);
            proof {
                assert(seg_views(out@) + all_pieces(
                    sl.skip(i + 1),
                    cursor + slice@.len(),
                    n,
                    capsule,
                ) =~= seg_views(before) + (slice_pieces(slice@, cursor as int, n, capsule)
                    + all_pieces(sl.skip(i + 1), cursor + slice@.len(), n, capsule)));
            }
            cursor = cursor + slice.len();
            i = i + 1;
        }
        proof {
            assert(sl.skip(data_slices@.len() as int).len() == 0);
            assert(seg_views(out@) + all_pieces(
                sl.skip(data_slices@.len() as int),
                cursor as int,
                n,
                capsule,
            ) =~= seg_views(out@));
        }
        out
    }

    /// Gathers segments, in order, into zones numbered from zero: each zone
    /// takes segments until it holds at least the layout's segment size in
    /// bytes; the last zone holds what is left, if anything.
    pub fn group_into_zones(&self, segments: Vec<SegmentRef>) -> (r: Vec<Zone>)
        requires
            self.segment_size_spec() > 0,
        ensures
            zones_match(r@, zone_groups(seg_views(segments@), self.segment_size_spec())),
    {
        let ghost s = seg_views(segments@);
        let ghost n = self.segment_size_spec();
        let mut zones: Vec<Zone> = Vec::new();
        let mut current: Vec<SegmentRef> = Vec::new();
        let mut usage: u128 = 0;
        let mut i: usize = 0;
        proof {
            assert(s.take(0) =~= Seq::<SegmentView>::empty());
        }
        while i < segments.len()
            invariant
                s == seg_views(segments@),
                n == self.segment_size_spec(),
                n > 0,
                i <= segments@.len(),
                zones_match(zones@, group_fold(s.take(i as int), n).closed),
                seg_views(current@) == group_fold(s.take(i as int), n).current,
                usage == group_fold(s.take(i as int), n).usage,
                zones@.len() <= i,
            decreases segments@.len() - i,
        {
            proof {
                assert(s.take(i + 1).drop_last() =~= s.take(i as int));
                assert(s.take(i + 1).last() == segments@[i as int]@);
                lemma_group_bounds(s.take(i as int), n);
            }
            let seg = segments[i].clone_ref();
            let len = seg.length;
            let ghost cur_before = current@;
            current.push(seg);
            proof {
                assert(seg_views(current@) =~= seg_views(cur_before).push(segments@[i as int]@));
            }
            usage = usage + len as u128;
            if usage >= self.segment_size as u128 {
                let zid = zones.len() as u64;
                let mut taken: Vec<SegmentRef> = Vec::new();
                std::mem::swap(&mut taken, &mut current);
                let ghost zb = zones@;
                zones.push(Zone { id: zid, iv_seed: zid, segments: taken });
                usage = 0;
                proof {
                    let g = group_fold(s.take(i + 1), n).closed;
                    assert(zones@.len() == g.len());
                    assert forall|k: int| 0 <= k < zones@.len() implies (#[trigger] zones@[k]).id
                        == k && zones@[k].iv_seed == k && seg_views(zones@[k].segments@) == g[k] by {
                        if k < zb.len() {
                            assert(zones@[k] == zb[k]);
                        }
                    }
                    assert(seg_views(current@) =~= Seq::<SegmentView>::empty());
                }
            }
            i = i + 1;
        }
        proof {
            assert(s.take(segments@.len() as int) =~= s);
        }
        if current.len() > 0 {
            let zid = zones.len() as u64;
            let ghost zb = zones@;
            zones.push(Zone { id: zid, iv_seed: zid, segments: current });
            proof {
                let g = zone_groups(s, n);
                assert forall|k: int| 0 <= k < zones@.len() implies (#[trigger] zones@[k]).id == k
                    && zones@[k].iv_seed == k && seg_views(zones@[k].segments@) == g[k] by {
                    if k < zb.len() {
                        assert(zones@[k] == zb[k]);
                    }
                }
            }
        }
        zones
    }

    /// The plan for the data of `capsules` (the segments name the first
    /// capsule, or capsule zero when none is given): its slices cut into
    /// segments and gathered into zones.
    pub fn build_plan(&self, capsules: &Vec<u128>, data_slices: &Vec<Vec<u8>>) -> (r: ZonePlan)
        requires
            self.segment_size_spec() > 0,
            total_len(slice_views(data_slices@)) <= usize::MAX,
        ensures
            zones_match(
                r.zones@,
                zone_groups(
                    all_pieces(
                        slice_views(data_slices@),
                        0,
                        self.segment_size_spec(),
                        if capsules@.len() > 0 {
                            capsules@[0]
                        } else {
                            0
                        },
                    ),
                    self.segment_size_spec(),
                ),
            ),
            r.merkle_root is None,
    {
        let capsule: u128 = if capsules.len() > 0 {
            capsules[0]
        } else {
            0
        };
        let segments = self.cut_segments(capsule, data_slices);
        let zones = self.group_into_zones(segments);
        ZonePlan { zones, merkle_root: None }
    }
}

proof fn lemma_total_len_prefix(s: Seq<Seq<u8>>, i: int)
    requires
        0 <= i <= s.len(),
    ensures
        total_len(s.take(i)) <= total_len(s),
    decreases s.len() - i,
{
    if i < s.len() {
        lemma_total_len_prefix(s, i + 1);
        assert(s.take(i + 1).drop_last() =~= s.take(i));
    } else {
        assert(s.take(i) =~= s);
    }
}

impl SegmentRef {
    pub fn clone_ref(&self) -> (r: Self)
        ensures
            r@ == self@,
    {
        SegmentRef {
            capsule_id: self.capsule_id,
            offset: self.offset,
            length: self.length,
            compressed_hash: self.compressed_hash.clone(),
        }
    }
}

// ---------------------------------------------------------------------------
// Whole-capsule digest and the zoned layout
// ---------------------------------------------------------------------------

/// The slices laid end to end.
pub open spec fn joined(slices: Seq<Seq<u8>>) -> Seq<u8>
    decreases slices.len(),
{
    if slices.len() == 0 {
        Seq::empty()
    } else {
        joined(slices.drop_last()) + slices.last()
    }
}

/// The root digest of a capsule's data: the BLAKE3 digest of its slices
/// laid end to end.
pub fn merkle_root(data_slices: &Vec<Vec<u8>>) -> (r: Vec<u8>)
    ensures
        r@ == blake3_digest(joined(slice_views(data_slices@))),
{
    let ghost sl = slice_views(data_slices@);
    let mut all: Vec<u8> = Vec::new();
    let mut i: usize = 0;
    proof {
        assert(sl.take(0) =~= Seq::<Seq<u8>>::empty());
    }
    while i < data_slices.len()
        invariant
            sl == slice_views(data_slices@),
            i <= data_slices@.len(),
            all@ == joined(sl.take(i as int)),
        decreases data_slices@.len() - i,
    {
        proof {
            assert(sl.take(i + 1).drop_last() =~= sl.take(i as int));
            assert(sl.take(i + 1).last() == data_slices@[i as int]@);
        }
        crate::wire::push_bytes(&mut all, data_slices[i].as_slice());
        i = i + 1;
    }
    proof {
        assert(sl.take(data_slices@.len() as int) =~= sl);
    }
    blake3_hash(all.as_slice())
}

/// The digest that seals a plan. Built without post-quantum hashing, both
/// digest the slices laid end to end with BLAKE3.
#[derive(Clone, Copy, Debug, PartialEq, Eq, Structural)]
pub enum MerkleAlgo {
    Blake3,
    SphincsPlus,
}

/// A fixed layout whose plans also carry the root digest of the data they
/// lay out.
pub struct CpuQuantumReady {
    fixed: CpuFixed,
    merkle_algo: MerkleAlgo,
}

impl CpuQuantumReady {
    pub closed spec fn segment_size_spec(self) -> nat {
        self.fixed.segment_size_spec()
    }

    pub closed spec fn merkle_algo_spec(self) -> MerkleAlgo {
        self.merkle_algo
    }

    /// The digest that seals this layout's plans.
    pub fn merkle_algo(&self) -> (r: MerkleAlgo)
        ensures
            r == self.merkle_algo_spec(),
    {
        self.merkle_algo
    }

    /// A layout with segments of `segment_size` bytes, at least one, sealed
    /// with `merkle_algo`.
    pub fn new(segment_size: usize, merkle_algo: MerkleAlgo) -> (r: Self)
        requires
            segment_size > 0,
        ensures
            r.segment_size_spec() == segment_size,
            r.merkle_algo_spec() == merkle_algo,
    {
        CpuQuantumReady { fixed: CpuFixed::new(segment_size), merkle_algo }
    }

    /// The fixed layout's plan for the data of `capsules`, sealed with the
    /// root digest of the slices laid end to end.
    pub fn synthesize(&self, capsules: &Vec<u128>, data_slices: &Vec<Vec<u8>>) -> (r: ZonePlan)
        requires
            self.segment_size_spec() > 0,
            total_len(slice_views(data_slices@)) <= usize::MAX,
        ensures
            zones_match(
                r.zones@,
                zone_groups(
                    all_pieces(
                        slice_views(data_slices@),
                        0,
                        self.segment_size_spec(),
                        if capsules@.len() > 0 {
                            capsules@[0]
                        } else {
                            0
                        },
                    ),
                    self.segment_size_spec(),
                ),
            ),
            r.merkle_root is Some,
            r.merkle_root->Some_0@ == blake3_digest(joined(slice_views(data_slices@))),
    {
        let plan = self.fixed.build_plan(capsules, data_slices);
        let root = merkle_root(data_slices);
        ZonePlan { zones: plan.zones, merkle_root: Some(root) }
    }
}

/// A layout for zoned devices: zones of a fixed size, placed along a graph
/// of a given radius.
pub struct ZnsGraphLayout {
    zone_size: u64,
    graph_radius: u32,
}

impl ZnsGraphLayout {
    pub closed spec fn zone_size_spec(self) -> u64 {
        self.zone_size
    }

    pub closed spec fn graph_radius_spec(self) -> u32 {
        self.graph_radius
    }

    /// A layout with zones of `zone_size_mib` MiB.
    pub fn new(zone_size_mib: u32, graph_radius: u32) -> (r: Self)
        ensures
            r.zone_size_spec() == zone_size_mib * 1048576,
            r.graph_radius_spec() == graph_radius,
    {
        ZnsGraphLayout { zone_size: zone_size_mib as u64 * 1024 * 1024, graph_radius }
    }

    /// Bytes per zone.
    pub fn zone_size(&self) -> (r: u64)
        ensures
            r == self.zone_size_spec(),
    {
        self.zone_size
    }

    pub fn graph_radius(&self) -> (r: u32)
        ensures
            r == self.graph_radius_spec(),
    {
        self.graph_radius
    }
}

// ---------------------------------------------------------------------------
// Laws of the fixed layout
// ---------------------------------------------------------------------------

/// The segments `ps` lay the bytes `d`, placed at `base`, end to end: the
/// first starts at `base`, each starts where the one before ended, the
/// last ends with `d`; each holds 1 to `n` bytes, names capsule `cap`, and
/// carries the BLAKE3 digest of its bytes.
pub open spec fn covers(ps: Seq<SegmentView>, d: Seq<u8>, base: int, n: nat, cap: u128) -> bool {
    &&& ps.len() == 0 ==> d.len() == 0
    &&& ps.len() > 0 ==> ps[0].offset == base && ps.last().offset + ps.last().length == base + d.len()
    &&& forall|k: int|
        1 <= k < ps.len() ==> #[trigger] ps[k].offset == ps[k - 1].offset + ps[k - 1].length
    &&& forall|k: int|
        0 <= k < ps.len() ==> {
            &&& 1 <= (#[trigger] ps[k]).length <= n
            &&& ps[k].capsule_id == cap
            &&& base <= ps[k].offset
            &&& ps[k].offset + ps[k].length <= base + d.len()
            &&& ps[k].compressed_hash == blake3_digest(
                d.subrange(ps[k].offset - base, ps[k].offset - base + ps[k].length),
            )
        }
}

proof fn lemma_covers_concat(
    a: Seq<SegmentView>,
    d1: Seq<u8>,
    b: Seq<SegmentView>,
    d2: Seq<u8>,
    base: int,
    n: nat,
    cap: u128,
)
    requires
        covers(a, d1, base, n, cap),
        covers(b, d2, base + d1.len(), n, cap),
    ensures
        covers(a + b, d1 + d2, base, n, cap),
{
    let ps = a + b;
    let d = d1 + d2;
    assert forall|k: int| 0 <= k < ps.len() implies {
        &&& 1 <= (#[trigger] ps[k]).length <= n
        &&& ps[k].capsule_id == cap
        &&& base <= ps[k].offset
        &&& ps[k].offset + ps[k].length <= base + d.len()
        &&& ps[k].compressed_hash == blake3_digest(
            d.subrange(ps[k].offset - base, ps[k].offset - base + ps[k].length),
        )
    } by {
        if k < a.len() {
            assert(ps[k] == a[k]);
            assert(d.subrange(ps[k].offset - base, ps[k].offset - base + ps[k].length) =~= d1.subrange(
                ps[k].offset - base,
                ps[k].offset - base + ps[k].length,
            ));
        } else {
            assert(ps[k] == b[k - a.len()]);
            let o = ps[k].offset - base - d1.len();
            assert(d.subrange(ps[k].offset - base, ps[k].offset - base + ps[k].length) =~= d2.subrange(
                o,
                o + ps[k].length,
            ));
        }
    }
    assert forall|k: int| 1 <= k < ps.len() implies #[trigger] ps[k].offset == ps[k - 1].offset
        + ps[k - 1].length by {
        if k < a.len() {
            assert(ps[k] == a[k] && ps[k - 1] == a[k - 1]);
        } else if k == a.len() {
            assert(ps[k] == b[0] && ps[k - 1] == a.last());
        } else {
            assert(ps[k] == b[k - a.len()] && ps[k - 1] == b[k - 1 - a.len()]);
        }
    }
    if ps.len() > 0 {
        if a.len() > 0 {
            assert(ps[0] == a[0]);
        } else {
            assert(ps[0] == b[0]);
        }
        if b.len() > 0 {
            assert(ps.last() == b.last());
        } else {
            assert(ps.last() == a.last());
        }
    }
}

proof fn lemma_slice_covers(data: Seq<u8>, base: int, n: nat, cap: u128)
    requires
        n > 0,
        0 <= base,
        base + data.len() <= u64::MAX,
    ensures
        covers(slice_pieces(data, base, n, cap), data, base, n, cap),
    decreases data.len(),
{
    if data.len() > 0 {
        let t: int = if data.len() <= n {
            data.len() as int
        } else {
            n as int
        };
        let first = SegmentView {
            capsule_id: cap,
            offset: base as u64,
            length: t as u64,
            compressed_hash: blake3_digest(data.take(t)),
        };
        lemma_slice_covers(data.skip(t), base + t, n, cap);
        assert(covers(seq![first], data.take(t), base, n, cap)) by {
            assert(data.take(t).subrange(0, t) =~= data.take(t));
        }
        lemma_covers_concat(seq![first], data.take(t), slice_pieces(data.skip(t), base + t, n, cap), data.skip(t), base, n, cap);
        assert(data.take(t) + data.skip(t) =~= data);
    }
}

/// The slices laid end to end, first slice first.
pub open spec fn joined_front(slices: Seq<Seq<u8>>) -> Seq<u8>
    decreases slices.len(),
{
    if slices.len() == 0 {
        Seq::empty()
    } else {
        slices[0] + joined_front(slices.drop_first())
    }
}

proof fn lemma_joined_front(slices: Seq<Seq<u8>>)
    ensures
        joined_front(slices) == joined(slices),
        joined(slices).len() == total_len(slices),
    decreases slices.len(),
{
    if slices.len() > 0 {
        let m = slices.drop_last();
        lemma_joined_front(m);
        lemma_joined_front(slices.drop_first());
        if slices.len() == 1 {
            assert(slices.drop_first().len() == 0);
            assert(m.len() == 0);
            assert(joined_front(slices) =~= slices[0]);
            assert(joined(slices) =~= slices.last());
        } else {
            lemma_joined_front(slices.drop_first().drop_last());
            lemma_joined_front(m.drop_first());
            assert(slices.drop_first().drop_last() =~= m.drop_first());
            assert(slices.drop_first().last() == slices.last());
            assert(m[0] == slices[0]);
            assert(joined_front(slices) =~= joined(slices));
        }
    }
}

proof fn lemma_all_covers(slices: Seq<Seq<u8>>, base: int, n: nat, cap: u128)
    requires
        n > 0,
        0 <= base,
        base + joined_front(slices).len() <= u64::MAX,
    ensures
        covers(all_pieces(slices, base, n, cap), joined_front(slices), base, n, cap),
    decreases slices.len(),
{
    if slices.len() > 0 {
        let rest = slices.drop_first();
        lemma_slice_covers(slices[0], base, n, cap);
        lemma_all_covers(rest, base + slices[0].len(), n, cap);
        lemma_covers_concat(
            slice_pieces(slices[0], base, n, cap),
            slices[0],
            all_pieces(rest, base + slices[0].len(), n, cap),
            joined_front(rest),
            base,
            n,
            cap,
        );
    }
}

/// The zones' segments one after another.
pub open spec fn flatten(gs: Seq<Seq<SegmentView>>) -> Seq<SegmentView>
    decreases gs.len(),
{
    if gs.len() == 0 {
        Seq::empty()
    } else {
        flatten(gs.drop_last()) + gs.last()
    }
}

proof fn lemma_group_fold_flatten(s: Seq<SegmentView>, n: nat)
    ensures
        flatten(group_fold(s, n).closed) + group_fold(s, n).current == s,
        forall|i: int|
            0 <= i < group_fold(s, n).closed.len() ==> (#[trigger] group_fold(s, n).closed[i]).len() > 0,
    decreases s.len(),
{
    if s.len() > 0 {
        let t = s.drop_last();
        lemma_group_fold_flatten(t, n);
        let st = group_fold(t, n);
        let cur = st.current.push(s.last());
        assert(t.push(s.last()) =~= s);
        assert((flatten(st.closed) + st.current).push(s.last()) =~= flatten(st.closed) + cur);
        assert(flatten(st.closed) + cur =~= s);
        if st.usage + s.last().length >= n {
            let c2 = st.closed.push(cur);
            assert(c2.drop_last() =~= st.closed);
            assert(flatten(c2) == flatten(st.closed) + cur);
            assert(flatten(c2) + Seq::<SegmentView>::empty() =~= s);
            assert forall|i: int| 0 <= i < c2.len() implies (#[trigger] c2[i]).len() > 0 by {
                if i < st.closed.len() {
                    assert(c2[i] == st.closed[i]);
                }
            }
        }
    }
}

/// The fixed layout covers the data exactly: its zones, in order, hold
/// segments that lay the slices end to end from offset zero, each of 1 to
/// `n` bytes, naming the capsule and carrying the BLAKE3 digest of its
/// bytes; no zone is empty.
pub proof fn lemma_plan_covers_data(slices: Seq<Seq<u8>>, n: nat, cap: u128)
    requires
        n > 0,
        total_len(slices) <= u64::MAX,
    ensures
        ({
            let gs = zone_groups(all_pieces(slices, 0, n, cap), n);
            &&& covers(flatten(gs), joined(slices), 0, n, cap)
            &&& forall|i: int| 0 <= i < gs.len() ==> (#[trigger] gs[i]).len() > 0
        }),
{
    lemma_joined_front(slices);
    lemma_all_covers(slices, 0, n, cap);
    let s = all_pieces(slices, 0, n, cap);
    lemma_group_fold_flatten(s, n);
    let st = group_fold(s, n);
    if st.current.len() > 0 {
        let gs = st.closed.push(st.current);
        assert(gs.drop_last() =~= st.closed);
        assert(flatten(gs) == s);
        assert forall|i: int| 0 <= i < gs.len() implies (#[trigger] gs[i]).len() > 0 by {
            if i < st.closed.len() {
                assert(gs[i] == st.closed[i]);
            }
        }
    } else {
        assert(flatten(st.closed) + st.current =~= flatten(st.closed));
    }
}

} // verus!
