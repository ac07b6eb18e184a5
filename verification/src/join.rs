//! Timestamp-continuous join planning.
//!
//! The joiner consumes the packets of each extracted segment in order and
//! plans, for every packet, whether it is written and with which rewritten
//! timestamps and output stream. The output stream set is fixed from the
//! first segment: streams without a known codec are excluded, and packets
//! of streams absent from the mapping are never written. Per segment the
//! packets are sorted by presentation timestamp, one offset per stream is
//! computed from the ledger of last written timestamps, and leading
//! non-keyframe video packets are dropped.

use vstd::prelude::*;
use vstd::pervasive::VecAdditionalExecFns;

verus! {

/// Metadata of one packet of a segment container.
#[derive(Clone, Copy, Debug)]
pub struct PacketInfo {
    /// Index of the packet's stream within its segment container.
    pub stream: usize,
    /// Presentation timestamp in stream time-base units, if set.
    pub pts: Option<i64>,
    /// Decoding timestamp in stream time-base units, if set.
    pub dts: Option<i64>,
    /// Whether the packet is flagged as a keyframe.
    pub key: bool,
    /// Whether the packet belongs to a video stream.
    pub video: bool,
}

/// One planned write: which packet of the segment goes out, on which
/// output stream, with which rewritten timestamps.
#[derive(Clone, Copy, Debug)]
pub struct WriteOp {
    /// Position of the packet in the segment's packet list as handed in.
    pub index: usize,
    /// The packet's stream index within the segment.
    pub src_stream: usize,
    /// The output stream the packet maps to.
    pub out_stream: usize,
    /// Rewritten presentation timestamp, if the packet had one.
    pub pts: Option<i64>,
    /// Rewritten decoding timestamp, if the packet had one.
    pub dts: Option<i64>,
    /// Keyframe flag, carried over unchanged.
    pub key: bool,
    /// Video flag, carried over unchanged.
    pub video: bool,
}

/// A planned write with mathematical-integer timestamps.
pub struct OpModel {
    pub index: int,
    pub src_stream: int,
    pub out_stream: int,
    pub pts: Option<int>,
    pub dts: Option<int>,
    pub key: bool,
    pub video: bool,
}

/// The mathematical value of a planned write.
pub open spec fn op_model(op: WriteOp) -> OpModel {
    OpModel {
        index: op.index as int,
        src_stream: op.src_stream as int,
        out_stream: op.out_stream as int,
        pts: opt_int(op.pts),
        dts: opt_int(op.dts),
        key: op.key,
        video: op.video,
    }
}

/// An optional timestamp as a mathematical integer.
pub open spec fn opt_int(o: Option<i64>) -> Option<int> {
    match o {
        Some(v) => Some(v as int),
        None => None,
    }
}

/// Joiner state while a segment is planned: which segment streams have
/// shown their first keyframe, and the ledger of last written timestamps
/// per output stream.
pub struct JoinState {
    pub seen: Seq<bool>,
    pub lpts: Seq<int>,
    pub ldts: Seq<int>,
}

// ---------------------------------------------------------------------
// Output stream mapping, fixed from the first segment.
// ---------------------------------------------------------------------

/// How many of the first `i` streams have a known codec.
pub open spec fn count_known(known: Seq<bool>, i: int) -> int
    decreases i,
{
    if i <= 0 {
        0
    } else {
        count_known(known, i - 1) + if known[i - 1] {
            1int
        } else {
            0int
        }
    }
}

/// The stream mapping a first segment with codec-known flags `known`
/// induces: stream `i` maps to the count of known streams before it, or
/// nowhere when its codec is unknown.
pub open spec fn mapping_spec(known: Seq<bool>) -> Seq<Option<usize>> {
    Seq::new(
        known.len(),
        |i: int|
            if known[i] {
                Some(count_known(known, i) as usize)
            } else {
                None
            },
    )
}

/// No two mapped streams share an output stream.
pub open spec fn mapping_injective(m: Seq<Option<usize>>) -> bool {
    forall|i: int, j: int| #![trigger m[i], m[j]]
        0 <= i < j < m.len() && m[i] is Some && m[j] is Some ==> m[i]->0 != m[j]->0
}

/// Every mapped output stream index lies below `n_out`.
pub open spec fn mapping_bounded(m: Seq<Option<usize>>, n_out: int) -> bool {
    forall|i: int| #![trigger m[i]] 0 <= i < m.len() && m[i] is Some ==> (m[i]->0 as int) < n_out
}

proof fn lemma_count_known_mono(known: Seq<bool>, i: int, j: int)
    requires
        0 <= i <= j <= known.len(),
    ensures
        count_known(known, i) <= count_known(known, j),
        i < j && known[i] ==> count_known(known, i) + 1 <= count_known(known, j),
    decreases j - i,
{
    if i < j {
        lemma_count_known_mono(known, i + 1, j);
    }
}

proof fn lemma_count_known_range(known: Seq<bool>, i: int)
    requires
        0 <= i,
    ensures
        0 <= count_known(known, i) <= i,
    decreases i,
{
    if i > 0 {
        lemma_count_known_range(known, i - 1);
    }
}

/// The induced mapping never sends two streams to one output stream, and
/// every output stream index lies below the total count of known streams.
pub proof fn lemma_mapping_spec_wf(known: Seq<bool>)
    requires
        known.len() <= usize::MAX,
    ensures
        mapping_injective(mapping_spec(known)),
        mapping_bounded(mapping_spec(known), count_known(known, known.len() as int)),
        forall|i: int| #![trigger mapping_spec(known)[i]]
            0 <= i < known.len() ==> 0 <= count_known(known, i),
{
    let m = mapping_spec(known);
    assert forall|i: int, j: int|
        0 <= i < j < m.len() && #[trigger] m[i] is Some && #[trigger] m[j] is Some implies m[i]->0
        != m[j]->0 by {
        assert(m[i] == (if known[i] {
            Some(count_known(known, i) as usize)
        } else {
            None::<usize>
        }));
        assert(m[j] == (if known[j] {
            Some(count_known(known, j) as usize)
        } else {
            None::<usize>
        }));
        lemma_count_known_range(known, i);
        lemma_count_known_range(known, j);
        assert(known[i]);
        lemma_count_known_mono(known, i, j);
        assert(count_known(known, i) + 1 <= count_known(known, j));
        assert(count_known(known, i) as usize != count_known(known, j) as usize);
    }
    assert forall|i: int| 0 <= i < m.len() && #[trigger] m[i] is Some implies (m[i]->0 as int)
        < count_known(known, known.len() as int) by {
        lemma_count_known_mono(known, 0, i);
        lemma_count_known_mono(known, i, known.len() as int);
    }
    assert forall|i: int| 0 <= i < known.len() implies 0 <= count_known(known, i) by {
        lemma_count_known_mono(known, 0, i);
    }
}

/// Build the output stream mapping from the first segment's streams:
/// stream `i` is included exactly when its codec is known, and output
/// indices are assigned in order.
pub fn build_mapping(known: &Vec<bool>) -> (m: Vec<Option<usize>>)
    ensures
        m@ == mapping_spec(known@),
{
    let mut m: Vec<Option<usize>> = Vec::new();
    let mut next: usize = 0;
    let mut i: usize = 0;
    while i < known.len()
        invariant
            i <= known.len(),
            m@.len() == i as int,
            next as int == count_known(known@, i as int),
            forall|k: int| #![trigger m@[k]]
                0 <= k < i as int ==> m@[k] == mapping_spec(known@)[k],
        decreases known.len() - i,
    {
        if known[i] {
            m.push(Some(next));
            proof {
                lemma_count_known_range(known@, i as int);
            }
            next = next + 1;
        } else {
            m.push(None);
        }
        i += 1;
    }
    proof {
        assert(m@ =~= mapping_spec(known@));
    }
    m
}

/// How many output streams the first segment's streams induce.
pub fn output_stream_count(known: &Vec<bool>) -> (n: usize)
    ensures
        n as int == count_known(known@, known@.len() as int),
{
    let mut next: usize = 0;
    let mut i: usize = 0;
    while i < known.len()
        invariant
            i <= known.len(),
            next as int == count_known(known@, i as int),
        decreases known.len() - i,
    {
        if known[i] {
            proof {
                lemma_count_known_range(known@, i as int);
            }
            next = next + 1;
        }
        i += 1;
    }
    next
}

// ---------------------------------------------------------------------
// The per-output-stream timestamp ledger.
// ---------------------------------------------------------------------

/// Last written presentation and decoding timestamp per output stream.
/// A stream nothing was written to yet holds -1, so the first written
/// timestamp starts at zero.
pub struct Ledger {
    pub last_pts: Vec<i64>,
    pub last_dts: Vec<i64>,
}

impl Ledger {
    /// A fresh ledger for `n` output streams.
    pub fn new(n: usize) -> (l: Ledger)
        ensures
            l.last_pts@.len() == n as int,
            l.last_dts@.len() == n as int,
            forall|i: int| #![trigger l.last_pts@[i]]
                0 <= i < n as int ==> l.last_pts@[i] == -1i64,
            forall|i: int| #![trigger l.last_dts@[i]]
                0 <= i < n as int ==> l.last_dts@[i] == -1i64,
    {
        let mut lp: Vec<i64> = Vec::new();
        let mut i: usize = 0;
        while i < n
            invariant
                i <= n,
                lp@.len() == i as int,
                forall|k: int| #![trigger lp@[k]] 0 <= k < i as int ==> lp@[k] == -1i64,
            decreases n - i,
        {
            lp.push(-1);
            i += 1;
        }
        let mut ld: Vec<i64> = Vec::new();
        let mut j: usize = 0;
        while j < n
            invariant
                j <= n,
                ld@.len() == j as int,
                forall|k: int| #![trigger ld@[k]] 0 <= k < j as int ==> ld@[k] == -1i64,
            decreases n - j,
        {
            ld.push(-1);
            j += 1;
        }
        Ledger { last_pts: lp, last_dts: ld }
    }
}

/// A ledger column as mathematical integers.
pub open spec fn ledger_ints(v: Seq<i64>) -> Seq<int> {
    v.map_values(|x: i64| x as int)
}

// ---------------------------------------------------------------------
// Sorting a segment's packets by presentation timestamp.
// ---------------------------------------------------------------------

/// The sort key of a packet: its presentation timestamp, or zero when
/// unset.
pub open spec fn pts_key(p: PacketInfo) -> int {
    match p.pts {
        Some(v) => v as int,
        None => 0,
    }
}

/// The packets paired with their original positions.
pub open spec fn indexed(packets: Seq<PacketInfo>) -> Seq<(usize, PacketInfo)> {
    Seq::new(packets.len(), |i: int| (i as usize, packets[i]))
}

/// Keys never decrease along `s`.
pub open spec fn sorted_by_pts(s: Seq<(usize, PacketInfo)>) -> bool {
    forall|i: int, j: int| #![trigger s[i], s[j]]
        0 <= i < j < s.len() ==> pts_key(s[i].1) <= pts_key(s[j].1)
}

/// Insert `x` into the key-sorted `s` after any entry whose key does not
/// exceed `x`'s, so equal keys keep their relative order.
pub open spec fn insert_by_pts(s: Seq<(usize, PacketInfo)>, x: (usize, PacketInfo)) -> Seq<
    (usize, PacketInfo),
>
    decreases s.len(),
{
    if s.len() == 0 {
        seq![x]
    } else if pts_key(x.1) < pts_key(s.last().1) {
        insert_by_pts(s.drop_last(), x).push(s.last())
    } else {
        s.push(x)
    }
}

/// Stable sort of a segment's indexed packets by presentation timestamp.
pub open spec fn sort_by_pts(s: Seq<(usize, PacketInfo)>) -> Seq<(usize, PacketInfo)>
    decreases s.len(),
{
    if s.len() == 0 {
        Seq::empty()
    } else {
        insert_by_pts(sort_by_pts(s.drop_last()), s.last())
    }
}

proof fn lemma_insert_by_pts_sorted(s: Seq<(usize, PacketInfo)>, x: (usize, PacketInfo))
    requires
        sorted_by_pts(s),
    ensures
        sorted_by_pts(insert_by_pts(s, x)),
        insert_by_pts(s, x).len() == s.len() + 1,
        insert_by_pts(s, x).last() == (if s.len() > 0 && pts_key(x.1) < pts_key(s.last().1) {
            s.last()
        } else {
            x
        }),
    decreases s.len(),
{
    if s.len() == 0 {
    } else if pts_key(x.1) < pts_key(s.last().1) {
        assert(forall|i: int| #![trigger s.drop_last()[i]]
            0 <= i < s.drop_last().len() ==> s.drop_last()[i] == s[i]);
        lemma_insert_by_pts_sorted(s.drop_last(), x);
        let t = insert_by_pts(s.drop_last(), x);
        assert(pts_key(t.last().1) <= pts_key(s.last().1));
        let r = t.push(s.last());
        assert(forall|i: int| #![trigger r[i]] 0 <= i < t.len() ==> r[i] == t[i]);
        assert forall|i: int, j: int|
            0 <= i < j < r.len() implies pts_key(#[trigger] r[i].1) <= pts_key(
            #[trigger] r[j].1,
        ) by {
            if j < t.len() {
            } else {
                if i < t.len() - 1 {
                    assert(pts_key(t[i].1) <= pts_key(t.last().1));
                }
            }
        }
    } else {
        let r = s.push(x);
        assert(forall|i: int| #![trigger r[i]] 0 <= i < s.len() ==> r[i] == s[i]);
        assert forall|i: int, j: int|
            0 <= i < j < r.len() implies pts_key(#[trigger] r[i].1) <= pts_key(
            #[trigger] r[j].1,
        ) by {
            if j == s.len() {
                if i < s.len() - 1 {
                    assert(pts_key(s[i].1) <= pts_key(s.last().1));
                }
            }
        }
    }
}

proof fn lemma_insert_by_pts_at(s: Seq<(usize, PacketInfo)>, x: (usize, PacketInfo), p: int)
    requires
        sorted_by_pts(s),
        0 <= p <= s.len(),
        forall|k: int| #![trigger s[k]] 0 <= k < p ==> pts_key(s[k].1) <= pts_key(x.1),
        forall|k: int| #![trigger s[k]] p <= k < s.len() ==> pts_key(x.1) < pts_key(s[k].1),
    ensures
        insert_by_pts(s, x) == s.insert(p, x),
    decreases s.len(),
{
    if s.len() == 0 {
        assert(insert_by_pts(s, x) =~= s.insert(0, x));
    } else if pts_key(x.1) < pts_key(s.last().1) {
        assert(p < s.len()) by {
            if p == s.len() {
                assert(pts_key(s[s.len() - 1].1) <= pts_key(x.1));
            }
        }
        assert(forall|i: int| #![trigger s.drop_last()[i]]
            0 <= i < s.drop_last().len() ==> s.drop_last()[i] == s[i]);
        lemma_insert_by_pts_at(s.drop_last(), x, p);
        assert(insert_by_pts(s.drop_last(), x).push(s.last()) =~= s.insert(p, x));
    } else {
        assert(p == s.len()) by {
            if p < s.len() {
                assert(pts_key(x.1) < pts_key(s[p].1));
                if p < s.len() - 1 {
                    assert(pts_key(s[p].1) <= pts_key(s[s.len() - 1].1));
                }
            }
        }
        assert(s.push(x) =~= s.insert(s.len() as int, x));
    }
}

proof fn lemma_insert_by_pts_elems(s: Seq<(usize, PacketInfo)>, x: (usize, PacketInfo))
    ensures
        forall|k: int| #![trigger insert_by_pts(s, x)[k]]
            0 <= k < insert_by_pts(s, x).len()
                ==> (exists|i: int| 0 <= i < s.len() && insert_by_pts(s, x)[k] == s[i])
                    || insert_by_pts(s, x)[k] == x,
    decreases s.len(),
{
    if s.len() == 0 {
    } else if pts_key(x.1) < pts_key(s.last().1) {
        lemma_insert_by_pts_elems(s.drop_last(), x);
        let t = insert_by_pts(s.drop_last(), x);
        assert forall|k: int|
            0 <= k < t.push(s.last()).len() implies (exists|i: int|
            0 <= i < s.len() && #[trigger] t.push(s.last())[k] == s[i]) || t.push(s.last())[k]
            == x by {
            if k < t.len() {
                assert(t.push(s.last())[k] == t[k]);
                if t[k] != x {
                    let i = choose|i: int| 0 <= i < s.drop_last().len() && t[k] == s.drop_last()[i];
                    assert(s.drop_last()[i] == s[i]);
                }
            } else {
                assert(t.push(s.last())[k] == s[s.len() - 1]);
            }
        }
    } else {
        assert forall|k: int|
            0 <= k < s.push(x).len() implies (exists|i: int|
            0 <= i < s.len() && #[trigger] s.push(x)[k] == s[i]) || s.push(x)[k] == x by {
            if k < s.len() {
                assert(s.push(x)[k] == s[k]);
            }
        }
    }
}

/// Every entry of the sorted sequence is an entry of the input.
proof fn lemma_sort_by_pts_elems(s: Seq<(usize, PacketInfo)>)
    ensures
        sorted_by_pts(sort_by_pts(s)),
        forall|k: int| #![trigger sort_by_pts(s)[k]]
            0 <= k < sort_by_pts(s).len() ==> exists|i: int|
                0 <= i < s.len() && sort_by_pts(s)[k] == s[i],
    decreases s.len(),
{
    if s.len() > 0 {
        assert(forall|i: int| #![trigger s.drop_last()[i]]
            0 <= i < s.drop_last().len() ==> s.drop_last()[i] == s[i]);
        lemma_sort_by_pts_elems(s.drop_last());
        let t = sort_by_pts(s.drop_last());
        lemma_insert_by_pts_sorted(t, s.last());
        lemma_insert_by_pts_elems(t, s.last());
        let r = insert_by_pts(t, s.last());
        assert forall|k: int| 0 <= k < r.len() implies exists|i: int|
            0 <= i < s.len() && #[trigger] r[k] == s[i] by {
            if r[k] != s.last() {
                let i = choose|i: int| 0 <= i < t.len() && r[k] == t[i];
                let i2 = choose|i2: int| 0 <= i2 < s.drop_last().len() && t[i] == s.drop_last()[i2];
                assert(s.drop_last()[i2] == s[i2]);
                assert(r[k] == s[i2]);
            } else {
                assert(r[k] == s[s.len() - 1]);
            }
        }
    }
}

/// The sort key of a packet, computed.
fn key_of(p: &PacketInfo) -> (k: i64)
    ensures
        k as int == pts_key(*p),
{
    match p.pts {
        Some(v) => v,
        None => 0,
    }
}

/// Pair each packet with its original position and stable-sort the pairs
/// by presentation timestamp.
pub fn sort_packets(packets: &Vec<PacketInfo>) -> (r: Vec<(usize, PacketInfo)>)
    ensures
        r@ == sort_by_pts(indexed(packets@)),
{
    let ghost ix = indexed(packets@);
    let mut iv: Vec<(usize, PacketInfo)> = Vec::new();
    let mut i: usize = 0;
    while i < packets.len()
        invariant
            i <= packets.len(),
            iv@.len() == i as int,
            forall|k: int| #![trigger iv@[k]] 0 <= k < i as int ==> iv@[k] == indexed(packets@)[k],
        decreases packets.len() - i,
    {
        iv.push((i, packets[i]));
        i += 1;
    }
    proof {
        assert(iv@ =~= ix);
    }
    let mut r: Vec<(usize, PacketInfo)> = Vec::new();
    let mut j: usize = 0;
    while j < iv.len()
        invariant
            j <= iv.len(),
            iv@ == ix,
            r@ == sort_by_pts(ix.take(j as int)),
            sorted_by_pts(r@),
        decreases iv.len() - j,
    {
        let x = iv[j];
        proof {
            assert(ix.take(j as int + 1).drop_last() =~= ix.take(j as int));
            assert(ix.take(j as int + 1).last() == ix[j as int]);
        }
        let xk = key_of(&x.1);
        let mut p: usize = 0;
        while p < r.len() && key_of(&r[p].1) <= xk
            invariant
                p <= r.len(),
                r@ == sort_by_pts(ix.take(j as int)),
                sorted_by_pts(r@),
                xk as int == pts_key(x.1),
                forall|k: int| #![trigger r@[k]] 0 <= k < p ==> pts_key(r@[k].1) <= pts_key(x.1),
            decreases r.len() - p,
        {
            p += 1;
        }
        proof {
            assert forall|k: int| p <= k < r@.len() implies pts_key(x.1) < pts_key(
                #[trigger] r@[k].1,
            ) by {
                assert(pts_key(x.1) < pts_key(r@[p as int].1));
                if (p as int) < k {
                    assert(pts_key(r@[p as int].1) <= pts_key(r@[k].1));
                }
            }
            lemma_insert_by_pts_at(r@, x, p as int);
            lemma_insert_by_pts_sorted(r@, x);
        }
        r.insert(p, x);
        j += 1;
    }
    proof {
        assert(ix.take(ix.len() as int) =~= ix);
    }
    r
}

// ---------------------------------------------------------------------
// First timestamps and per-stream offsets.
// ---------------------------------------------------------------------

/// The first set presentation timestamp of stream `stream` in `s`.
pub open spec fn first_pts_of(s: Seq<(usize, PacketInfo)>, stream: int) -> Option<i64>
    decreases s.len(),
{
    if s.len() == 0 {
        None
    } else if s[0].1.stream as int == stream && s[0].1.pts is Some {
        s[0].1.pts
    } else {
        first_pts_of(s.skip(1), stream)
    }
}

/// The first set decoding timestamp of stream `stream` in `s`.
pub open spec fn first_dts_of(s: Seq<(usize, PacketInfo)>, stream: int) -> Option<i64>
    decreases s.len(),
{
    if s.len() == 0 {
        None
    } else if s[0].1.stream as int == stream && s[0].1.dts is Some {
        s[0].1.dts
    } else {
        first_dts_of(s.skip(1), stream)
    }
}

/// The presentation-timestamp offset applied to stream `stream` for this
/// segment: one past the ledger's last written timestamp, minus the
/// segment's first timestamp of that stream. Defined exactly for mapped
/// streams with at least one set presentation timestamp.
pub open spec fn pts_offset_of(
    s: Seq<(usize, PacketInfo)>,
    lpts: Seq<int>,
    mapping: Seq<Option<usize>>,
    stream: int,
) -> Option<int> {
    if 0 <= stream < mapping.len() && mapping[stream] is Some && first_pts_of(s, stream) is Some {
        Some(lpts[mapping[stream]->0 as int] + 1 - first_pts_of(s, stream)->0)
    } else {
        None
    }
}

/// The decoding-timestamp offset for stream `stream`: defined whenever
/// the presentation offset is, with a missing first decoding timestamp
/// read as zero.
pub open spec fn dts_offset_of(
    s: Seq<(usize, PacketInfo)>,
    ldts: Seq<int>,
    mapping: Seq<Option<usize>>,
    stream: int,
) -> Option<int> {
    if 0 <= stream < mapping.len() && mapping[stream] is Some && first_pts_of(s, stream) is Some {
        Some(
            ldts[mapping[stream]->0 as int] + 1 - (match first_dts_of(s, stream) {
                Some(d) => d as int,
                None => 0,
            }),
        )
    } else {
        None
    }
}

// ---------------------------------------------------------------------
// The emit pass.
// ---------------------------------------------------------------------

/// A timestamp shifted by the stream's offset, when both exist.
pub open spec fn shift_ts(v: Option<i64>, off: Option<int>) -> Option<int> {
    match v {
        Some(t) => match off {
            Some(o) => Some(t + o),
            None => Some(t as int),
        },
        None => None,
    }
}

/// Plan the writes for the sorted packets `s` from state `st`: packets of
/// unmapped streams are dropped, leading non-keyframe video packets are
/// dropped per stream, every other packet is written with its timestamps
/// shifted by its stream's offsets, and the ledger records each written
/// timestamp.
pub open spec fn join_emit(
    s: Seq<(usize, PacketInfo)>,
    mapping: Seq<Option<usize>>,
    poffs: Seq<Option<int>>,
    doffs: Seq<Option<int>>,
    st: JoinState,
) -> (Seq<OpModel>, JoinState)
    decreases s.len(),
{
    if s.len() == 0 {
        (Seq::empty(), st)
    } else {
        let idx = s[0].0;
        let p = s[0].1;
        if p.stream as int >= mapping.len() || mapping[p.stream as int] is None {
            join_emit(s.skip(1), mapping, poffs, doffs, st)
        } else if p.video && !st.seen[p.stream as int] && !p.key {
            join_emit(s.skip(1), mapping, poffs, doffs, st)
        } else {
            let o = mapping[p.stream as int]->0 as int;
            let np = shift_ts(p.pts, poffs[p.stream as int]);
            let nd = shift_ts(p.dts, doffs[p.stream as int]);
            let st1 = JoinState {
                seen: if p.video {
                    st.seen.update(p.stream as int, true)
                } else {
                    st.seen
                },
                lpts: if p.pts is Some && poffs[p.stream as int] is Some {
                    st.lpts.update(o, np->0)
                } else {
                    st.lpts
                },
                ldts: if p.dts is Some && doffs[p.stream as int] is Some {
                    st.ldts.update(o, nd->0)
                } else {
                    st.ldts
                },
            };
            let rest = join_emit(s.skip(1), mapping, poffs, doffs, st1);
            (
                seq![
                    OpModel {
                        index: idx as int,
                        src_stream: p.stream as int,
                        out_stream: o,
                        pts: np,
                        dts: nd,
                        key: p.key,
                        video: p.video,
                    },
                ] + rest.0,
                rest.1,
            )
        }
    }
}

/// The joiner state a fresh segment starts from: no keyframe seen yet,
/// ledger carried over.
pub open spec fn fresh_state(n_streams: int, lpts: Seq<int>, ldts: Seq<int>) -> JoinState {
    JoinState { seen: Seq::new(n_streams as nat, |i: int| false), lpts: lpts, ldts: ldts }
}

/// The full plan for one segment: sort the packets by presentation
/// timestamp, fix one offset per stream from the ledger, and emit.
pub open spec fn plan_spec(
    packets: Seq<PacketInfo>,
    mapping: Seq<Option<usize>>,
    lpts: Seq<int>,
    ldts: Seq<int>,
) -> (Seq<OpModel>, JoinState) {
    let s = sort_by_pts(indexed(packets));
    let poffs = Seq::new(mapping.len(), |t: int| pts_offset_of(s, lpts, mapping, t));
    let doffs = Seq::new(mapping.len(), |t: int| dts_offset_of(s, ldts, mapping, t));
    join_emit(s, mapping, poffs, doffs, fresh_state(mapping.len() as int, lpts, ldts))
}

/// No two planned writes for one output stream carry equal or decreasing
/// presentation timestamps.
pub open spec fn monotone_ops(ops: Seq<OpModel>) -> bool {
    forall|i: int, j: int| #![trigger ops[i], ops[j]]
        0 <= i < j < ops.len() && ops[i].out_stream == ops[j].out_stream && ops[i].pts is Some
            && ops[j].pts is Some ==> ops[i].pts->0 < ops[j].pts->0
}

/// Every planned write with a presentation timestamp lies strictly after
/// the ledger value its output stream carried in.
pub open spec fn ops_after(ops: Seq<OpModel>, lpts: Seq<int>) -> bool {
    forall|k: int| #![trigger ops[k]]
        0 <= k < ops.len() && ops[k].pts is Some ==> ops[k].pts->0 > lpts[ops[k].out_stream]
}

/// Every planned write carries a packet of a mapped stream to exactly
/// the output stream the mapping names.
pub open spec fn ops_respect_mapping(ops: Seq<OpModel>, mapping: Seq<Option<usize>>) -> bool {
    forall|k: int| #![trigger ops[k]]
        0 <= k < ops.len() ==> 0 <= ops[k].src_stream < mapping.len() && mapping[ops[k].src_stream]
            is Some && (mapping[ops[k].src_stream]->0 as int) == ops[k].out_stream
}

/// No two packets of one stream share a set presentation timestamp.
pub open spec fn distinct_pts_per_stream(s: Seq<(usize, PacketInfo)>) -> bool {
    forall|i: int, j: int| #![trigger s[i], s[j]]
        0 <= i < j < s.len() && s[i].1.stream == s[j].1.stream && s[i].1.pts is Some && s[j].1.pts
            is Some ==> s[i].1.pts != s[j].1.pts
}

/// No two packets of one stream in the segment share a set presentation
/// timestamp.
pub open spec fn packets_distinct_pts(packets: Seq<PacketInfo>) -> bool {
    forall|i: int, j: int| #![trigger packets[i], packets[j]]
        0 <= i < j < packets.len() && packets[i].stream == packets[j].stream && packets[i].pts
            is Some && packets[j].pts is Some ==> packets[i].pts != packets[j].pts
}

proof fn lemma_insert_by_pts_multiset(s: Seq<(usize, PacketInfo)>, x: (usize, PacketInfo))
    ensures
        insert_by_pts(s, x).to_multiset() == s.push(x).to_multiset(),
    decreases s.len(),
{
    broadcast use vstd::seq_lib::group_to_multiset_ensures;
    broadcast use vstd::multiset::group_multiset_axioms;

    if s.len() == 0 {
        assert(seq![x] =~= Seq::<(usize, PacketInfo)>::empty().push(x));
    } else if pts_key(x.1) < pts_key(s.last().1) {
        lemma_insert_by_pts_multiset(s.drop_last(), x);
        let t = insert_by_pts(s.drop_last(), x);
        assert(s.drop_last().push(s.last()) =~= s);
        assert(t.push(s.last()).to_multiset() =~= t.to_multiset().insert(s.last()));
        assert(s.drop_last().push(x).to_multiset() =~= s.drop_last().to_multiset().insert(x));
        assert(s.to_multiset() =~= s.drop_last().to_multiset().insert(s.last()));
        assert(s.push(x).to_multiset() =~= s.to_multiset().insert(x));
        assert(s.drop_last().to_multiset().insert(x).insert(s.last())
            =~= s.drop_last().to_multiset().insert(s.last()).insert(x));
        assert(insert_by_pts(s, x).to_multiset() =~= s.push(x).to_multiset());
    } else {
    }
}

proof fn lemma_sort_by_pts_multiset(s: Seq<(usize, PacketInfo)>)
    ensures
        sort_by_pts(s).to_multiset() == s.to_multiset(),
    decreases s.len(),
{
    broadcast use vstd::seq_lib::group_to_multiset_ensures;

    if s.len() > 0 {
        lemma_sort_by_pts_multiset(s.drop_last());
        lemma_insert_by_pts_multiset(sort_by_pts(s.drop_last()), s.last());
        let t = sort_by_pts(s.drop_last());
        assert(t.push(s.last()).to_multiset() =~= t.to_multiset().insert(s.last()));
        assert(s.drop_last().push(s.last()) =~= s);
        assert(s.to_multiset() =~= s.drop_last().to_multiset().insert(s.last()));
        assert(sort_by_pts(s).to_multiset() =~= s.to_multiset());
    }
}

/// Distinct per-stream timestamps survive the sort: the sorted pairs are
/// exactly the indexed pairs, none duplicated.
proof fn lemma_sorted_distinct(packets: Seq<PacketInfo>)
    requires
        packets.len() <= usize::MAX,
        packets_distinct_pts(packets),
    ensures
        distinct_pts_per_stream(sort_by_pts(indexed(packets))),
{
    let ix = indexed(packets);
    let s = sort_by_pts(ix);
    lemma_sort_by_pts_elems(ix);
    lemma_sort_by_pts_multiset(ix);
    assert(ix.no_duplicates()) by {
        assert forall|i: int, j: int|
            0 <= i < ix.len() && 0 <= j < ix.len() && i != j implies ix[i] != ix[j] by {
            assert(ix[i].0 == i as usize);
            assert(ix[j].0 == j as usize);
        }
    }
    ix.lemma_multiset_has_no_duplicates();
    assert(forall|x: (usize, PacketInfo)|
        s.to_multiset().contains(x) ==> #[trigger] s.to_multiset().count(x) == 1);
    s.lemma_multiset_has_no_duplicates_conv();
    assert forall|k: int, k2: int|
        0 <= k < k2 < s.len() && (#[trigger] s[k]).1.stream == (#[trigger] s[k2]).1.stream
            && s[k].1.pts is Some && s[k2].1.pts is Some implies s[k].1.pts != s[k2].1.pts by {
        assert(s[k] != s[k2]);
        let i = choose|i: int| 0 <= i < ix.len() && s[k] == ix[i];
        let i2 = choose|i2: int| 0 <= i2 < ix.len() && s[k2] == ix[i2];
        assert(ix[i].1 == packets[i]);
        assert(ix[i2].1 == packets[i2]);
        assert(i != i2);
        if i < i2 {
            assert(packets[i].pts != packets[i2].pts);
        } else {
            assert(packets[i2].pts != packets[i].pts);
        }
    }
}

/// The last written presentation timestamp for output stream `o` among
/// `ops`, or `dflt` when none was written.
pub open spec fn last_pts_of(ops: Seq<OpModel>, o: int, dflt: int) -> int
    decreases ops.len(),
{
    if ops.len() == 0 {
        dflt
    } else if ops.last().out_stream == o && ops.last().pts is Some {
        ops.last().pts->0
    } else {
        last_pts_of(ops.drop_last(), o, dflt)
    }
}

proof fn lemma_last_pts_prepend(op: OpModel, ops: Seq<OpModel>, o: int, dflt: int)
    ensures
        last_pts_of(seq![op] + ops, o, dflt) == last_pts_of(
            ops,
            o,
            if op.out_stream == o && op.pts is Some {
                op.pts->0
            } else {
                dflt
            },
        ),
    decreases ops.len(),
{
    if ops.len() == 0 {
        assert(seq![op] + ops =~= seq![op]);
        assert(seq![op] + ops == seq![op]);
        if op.out_stream == o && op.pts is Some {
            assert(seq![op].last() == op);
            assert(last_pts_of(seq![op], o, dflt) == op.pts->0);
        } else {
            assert(seq![op].drop_last() =~= Seq::<OpModel>::empty());
            assert(seq![op].drop_last() == Seq::<OpModel>::empty());
            assert(last_pts_of(Seq::<OpModel>::empty(), o, dflt) == dflt);
            assert(last_pts_of(seq![op], o, dflt) == dflt);
        }
    } else {
        assert((seq![op] + ops).len() == ops.len() + 1);
        assert((seq![op] + ops).last() == ops.last());
        assert((seq![op] + ops).drop_last() =~= seq![op] + ops.drop_last());
        assert((seq![op] + ops).drop_last() == seq![op] + ops.drop_last());
        lemma_last_pts_prepend(op, ops.drop_last(), o, dflt);
    }
}

proof fn lemma_join_emit_mapping(
    s: Seq<(usize, PacketInfo)>,
    mapping: Seq<Option<usize>>,
    poffs: Seq<Option<int>>,
    doffs: Seq<Option<int>>,
    st: JoinState,
)
    ensures
        ops_respect_mapping(join_emit(s, mapping, poffs, doffs, st).0, mapping),
    decreases s.len(),
{
    if s.len() > 0 {
        let p = s[0].1;
        if p.stream as int >= mapping.len() || mapping[p.stream as int] is None {
            lemma_join_emit_mapping(s.skip(1), mapping, poffs, doffs, st);
        } else if p.video && !st.seen[p.stream as int] && !p.key {
            lemma_join_emit_mapping(s.skip(1), mapping, poffs, doffs, st);
        } else {
            let o = mapping[p.stream as int]->0 as int;
            let np = shift_ts(p.pts, poffs[p.stream as int]);
            let nd = shift_ts(p.dts, doffs[p.stream as int]);
            let st1 = JoinState {
                seen: if p.video {
                    st.seen.update(p.stream as int, true)
                } else {
                    st.seen
                },
                lpts: if p.pts is Some && poffs[p.stream as int] is Some {
                    st.lpts.update(o, np->0)
                } else {
                    st.lpts
                },
                ldts: if p.dts is Some && doffs[p.stream as int] is Some {
                    st.ldts.update(o, nd->0)
                } else {
                    st.ldts
                },
            };
            lemma_join_emit_mapping(s.skip(1), mapping, poffs, doffs, st1);
            let rest = join_emit(s.skip(1), mapping, poffs, doffs, st1);
            let r = join_emit(s, mapping, poffs, doffs, st);
            assert forall|k: int| 0 <= k < r.0.len() implies 0 <= (#[trigger] r.0[k]).src_stream < mapping.len()
                && mapping[r.0[k].src_stream] is Some
                && (mapping[r.0[k].src_stream]->0 as int) == r.0[k].out_stream by {
                if k > 0 {
                    assert(r.0[k] == rest.0[k - 1]);
                }
            }
        }
    }
}

proof fn lemma_join_emit_monotone(
    s: Seq<(usize, PacketInfo)>,
    mapping: Seq<Option<usize>>,
    poffs: Seq<Option<int>>,
    doffs: Seq<Option<int>>,
    st: JoinState,
)
    requires
        mapping_injective(mapping),
        forall|t: int| #![trigger mapping[t]]
            0 <= t < mapping.len() && mapping[t] is Some ==> (mapping[t]->0 as int) < st.lpts.len(),
        sorted_by_pts(s),
        distinct_pts_per_stream(s),
        forall|k: int| #![trigger s[k]]
            0 <= k < s.len() && (s[k].1.stream as int) < mapping.len() && mapping[s[k].1.stream
                as int] is Some && s[k].1.pts is Some ==> poffs[s[k].1.stream as int] is Some,
        forall|k: int| #![trigger s[k]]
            0 <= k < s.len() && (s[k].1.stream as int) < mapping.len() && mapping[s[k].1.stream
                as int] is Some && s[k].1.pts is Some ==> s[k].1.pts->0 + poffs[s[k].1.stream
                as int]->0 > st.lpts[mapping[s[k].1.stream as int]->0 as int],
    ensures
        monotone_ops(join_emit(s, mapping, poffs, doffs, st).0),
        ops_after(join_emit(s, mapping, poffs, doffs, st).0, st.lpts),
        join_emit(s, mapping, poffs, doffs, st).1.lpts.len() == st.lpts.len(),
        forall|o: int| #![trigger join_emit(s, mapping, poffs, doffs, st).1.lpts[o]]
            0 <= o < st.lpts.len() ==> join_emit(s, mapping, poffs, doffs, st).1.lpts[o]
                >= st.lpts[o] && join_emit(s, mapping, poffs, doffs, st).1.lpts[o] == last_pts_of(
                join_emit(s, mapping, poffs, doffs, st).0,
                o,
                st.lpts[o],
            ),
    decreases s.len(),
{
    if s.len() == 0 {
    } else {
        let p = s[0].1;
        assert(forall|k: int| #![trigger s.skip(1)[k]]
            0 <= k < s.skip(1).len() ==> s.skip(1)[k] == s[k + 1]);
        if p.stream as int >= mapping.len() || mapping[p.stream as int] is None {
            lemma_join_emit_monotone(s.skip(1), mapping, poffs, doffs, st);
        } else if p.video && !st.seen[p.stream as int] && !p.key {
            lemma_join_emit_monotone(s.skip(1), mapping, poffs, doffs, st);
        } else {
            let o = mapping[p.stream as int]->0 as int;
            let np = shift_ts(p.pts, poffs[p.stream as int]);
            let nd = shift_ts(p.dts, doffs[p.stream as int]);
            let updated = p.pts is Some && poffs[p.stream as int] is Some;
            let st1 = JoinState {
                seen: if p.video {
                    st.seen.update(p.stream as int, true)
                } else {
                    st.seen
                },
                lpts: if updated {
                    st.lpts.update(o, np->0)
                } else {
                    st.lpts
                },
                ldts: if p.dts is Some && doffs[p.stream as int] is Some {
                    st.ldts.update(o, nd->0)
                } else {
                    st.ldts
                },
            };
            if updated {
                assert(np->0 == p.pts->0 + poffs[p.stream as int]->0);
                assert(np->0 > st.lpts[o]);
            }
            // The new ledger dominates the old one pointwise.
            assert(forall|oo: int| #![trigger st1.lpts[oo]]
                0 <= oo < st.lpts.len() ==> st1.lpts[oo] >= st.lpts[oo]);
            // All later candidates still lie strictly above the ledger.
            assert forall|k: int|
                0 <= k < s.skip(1).len() && ((#[trigger] s.skip(1)[k]).1.stream as int)
                    < mapping.len() && mapping[s.skip(1)[k].1.stream as int] is Some && s.skip(
                1,
            )[k].1.pts is Some implies s.skip(1)[k].1.pts->0 + poffs[s.skip(1)[k].1.stream
                as int]->0 > st1.lpts[mapping[s.skip(1)[k].1.stream as int]->0 as int] by {
                let q = s[k + 1].1;
                let oo = mapping[q.stream as int]->0 as int;
                if oo == o && updated {
                    assert(q.stream == p.stream) by {
                        if q.stream as int != p.stream as int {
                            assert(mapping[p.stream as int]->0 != mapping[q.stream as int]->0);
                        }
                    }
                    assert(pts_key(s[0].1) <= pts_key(s[k + 1].1));
                    assert(p.pts->0 <= q.pts->0);
                    assert(p.pts != q.pts);
                    assert(p.pts->0 < q.pts->0);
                } else {
                    assert(st1.lpts[oo] == st.lpts[oo]);
                }
            }
            lemma_join_emit_monotone(s.skip(1), mapping, poffs, doffs, st1);
            lemma_join_emit_mapping(s.skip(1), mapping, poffs, doffs, st1);
            let rest = join_emit(s.skip(1), mapping, poffs, doffs, st1);
            let r = join_emit(s, mapping, poffs, doffs, st);
            let op0 = r.0[0];
            assert(op0.out_stream == o && op0.pts == np);
            assert(forall|k: int| #![trigger r.0[k]] 1 <= k < r.0.len() ==> r.0[k] == rest.0[k - 1]);
            assert forall|k: int|
                0 <= k < r.0.len() && (#[trigger] r.0[k]).pts is Some implies r.0[k].pts->0
                > st.lpts[r.0[k].out_stream] by {
                if k == 0 {
                } else {
                    let q = rest.0[k - 1];
                    assert(q.pts->0 > st1.lpts[q.out_stream]);
                    assert(0 <= q.out_stream < st.lpts.len());
                    assert(st1.lpts[q.out_stream] >= st.lpts[q.out_stream]);
                }
            }
            assert forall|i: int, j: int|
                0 <= i < j < r.0.len() && (#[trigger] r.0[i]).out_stream == (
                #[trigger] r.0[j]).out_stream && r.0[i].pts is Some && r.0[j].pts
                is Some implies r.0[i].pts->0 < r.0[j].pts->0 by {
                if i == 0 {
                    let q = rest.0[j - 1];
                    assert(q.pts->0 > st1.lpts[q.out_stream]);
                    if updated {
                        assert(st1.lpts[o] == np->0);
                    } else {
                        // A planned write with a timestamp always has an
                        // offset, so its stream's ledger was updated.
                        assert(poffs[p.stream as int] is Some);
                    }
                }
            }
            assert forall|oo: int| 0 <= oo < st.lpts.len() implies #[trigger] r.1.lpts[oo]
                >= st.lpts[oo] && r.1.lpts[oo] == last_pts_of(r.0, oo, st.lpts[oo]) by {
                lemma_last_pts_prepend(op0, rest.0, oo, st.lpts[oo]);
                assert(r.0 =~= seq![op0] + rest.0);
                if op0.out_stream == oo && op0.pts is Some {
                    assert(updated);
                    assert(st1.lpts[oo] == np->0);
                } else {
                    assert(st1.lpts[oo] == st.lpts[oo]);
                }
                assert(rest.1.lpts[oo] == last_pts_of(rest.0, oo, st1.lpts[oo]));
            }
        }
    }
}

/// The joined timeline is monotone: with the mapping injective and no
/// stream repeating a presentation timestamp inside the segment, the
/// planned writes of a segment are strictly increasing in presentation
/// timestamp per output stream, and every written timestamp lies strictly
/// after the ledger carried in from the segments before it — so segment
/// boundaries never fold the timeline back.
pub proof fn lemma_plan_monotone(
    packets: Seq<PacketInfo>,
    mapping: Seq<Option<usize>>,
    lpts: Seq<int>,
    ldts: Seq<int>,
)
    requires
        mapping_injective(mapping),
        forall|t: int| #![trigger mapping[t]]
            0 <= t < mapping.len() && mapping[t] is Some ==> (mapping[t]->0 as int) < lpts.len(),
        packets.len() <= usize::MAX,
        packets_distinct_pts(packets),
    ensures
        monotone_ops(plan_spec(packets, mapping, lpts, ldts).0),
        ops_after(plan_spec(packets, mapping, lpts, ldts).0, lpts),
        plan_spec(packets, mapping, lpts, ldts).1.lpts.len() == lpts.len(),
        forall|o: int| #![trigger plan_spec(packets, mapping, lpts, ldts).1.lpts[o]]
            0 <= o < lpts.len() ==> plan_spec(packets, mapping, lpts, ldts).1.lpts[o] >= lpts[o]
                && plan_spec(packets, mapping, lpts, ldts).1.lpts[o] == last_pts_of(
                plan_spec(packets, mapping, lpts, ldts).0,
                o,
                lpts[o],
            ),
{
    let s = sort_by_pts(indexed(packets));
    let poffs = Seq::new(mapping.len(), |t: int| pts_offset_of(s, lpts, mapping, t));
    let doffs = Seq::new(mapping.len(), |t: int| dts_offset_of(s, ldts, mapping, t));
    let st = fresh_state(mapping.len() as int, lpts, ldts);
    lemma_sorted_distinct(packets);
    lemma_sort_by_pts_elems(indexed(packets));
    assert forall|k: int|
        0 <= k < s.len() && ((#[trigger] s[k]).1.stream as int) < mapping.len()
            && mapping[s[k].1.stream as int] is Some && s[k].1.pts is Some
            implies poffs[s[k].1.stream as int] is Some by {
        lemma_first_pts_some(s, s[k].1.stream as int, k);
    }
    assert forall|k: int|
        0 <= k < s.len() && ((#[trigger] s[k]).1.stream as int) < mapping.len()
            && mapping[s[k].1.stream as int] is Some && s[k].1.pts is Some
            implies s[k].1.pts->0 + poffs[s[k].1.stream as int]->0
            > st.lpts[mapping[s[k].1.stream as int]->0 as int] by {
        let t = s[k].1.stream as int;
        lemma_first_pts_some(s, t, k);
        lemma_first_pts_min(s, t, k);
        assert(poffs[t]->0 == lpts[mapping[t]->0 as int] + 1 - first_pts_of(s, t)->0);
    }
    lemma_join_emit_monotone(s, mapping, poffs, doffs, st);
}

/// Segment boundaries never fold the timeline back: planning a second
/// segment from the ledger the first one left behind, every write of the
/// second segment lies strictly after the last write of the first on its
/// output stream — and after the initial ledger value where the first
/// segment wrote nothing to that stream.
pub proof fn lemma_join_boundary_monotone(
    seg1: Seq<PacketInfo>,
    seg2: Seq<PacketInfo>,
    mapping: Seq<Option<usize>>,
    lpts: Seq<int>,
    ldts: Seq<int>,
)
    requires
        mapping_injective(mapping),
        forall|t: int| #![trigger mapping[t]]
            0 <= t < mapping.len() && mapping[t] is Some ==> (mapping[t]->0 as int) < lpts.len(),
        seg1.len() <= usize::MAX,
        packets_distinct_pts(seg1),
        seg2.len() <= usize::MAX,
        packets_distinct_pts(seg2),
    ensures
        ({
            let first = plan_spec(seg1, mapping, lpts, ldts);
            let second = plan_spec(seg2, mapping, first.1.lpts, first.1.ldts);
            forall|k: int| #![trigger second.0[k]]
                0 <= k < second.0.len() && second.0[k].pts is Some ==> 0 <= second.0[k].out_stream
                    < lpts.len() && second.0[k].pts->0 > last_pts_of(
                    first.0,
                    second.0[k].out_stream,
                    lpts[second.0[k].out_stream],
                )
        }),
{
    let first = plan_spec(seg1, mapping, lpts, ldts);
    let second = plan_spec(seg2, mapping, first.1.lpts, first.1.ldts);
    lemma_plan_monotone(seg1, mapping, lpts, ldts);
    lemma_plan_monotone(seg2, mapping, first.1.lpts, first.1.ldts);
    lemma_plan_stream_fidelity(seg2, mapping, first.1.lpts, first.1.ldts);
    assert forall|k: int|
        0 <= k < second.0.len() && (#[trigger] second.0[k]).pts is Some implies 0
            <= second.0[k].out_stream < lpts.len() && second.0[k].pts->0 > last_pts_of(
        first.0,
        second.0[k].out_stream,
        lpts[second.0[k].out_stream],
    ) by {
        let src = second.0[k].src_stream;
        assert(mapping[src] is Some && (mapping[src]->0 as int) == second.0[k].out_stream);
        let o = second.0[k].out_stream;
        assert(second.0[k].pts->0 > first.1.lpts[o]);
        assert(first.1.lpts[o] == last_pts_of(first.0, o, lpts[o]));
    }
}

/// Stream fidelity: every planned write carries a packet of a stream the
/// first segment's mapping names, to exactly the output stream it names.
/// A packet of any other stream never appears in the plan.
pub proof fn lemma_plan_stream_fidelity(
    packets: Seq<PacketInfo>,
    mapping: Seq<Option<usize>>,
    lpts: Seq<int>,
    ldts: Seq<int>,
)
    ensures
        ops_respect_mapping(plan_spec(packets, mapping, lpts, ldts).0, mapping),
{
    let s = sort_by_pts(indexed(packets));
    let poffs = Seq::new(mapping.len(), |t: int| pts_offset_of(s, lpts, mapping, t));
    let doffs = Seq::new(mapping.len(), |t: int| dts_offset_of(s, ldts, mapping, t));
    lemma_join_emit_mapping(
        s,
        mapping,
        poffs,
        doffs,
        fresh_state(mapping.len() as int, lpts, ldts),
    );
}

proof fn lemma_first_pts_some(s: Seq<(usize, PacketInfo)>, stream: int, k: int)
    requires
        0 <= k < s.len(),
        s[k].1.stream as int == stream,
        s[k].1.pts is Some,
    ensures
        first_pts_of(s, stream) is Some,
    decreases s.len(),
{
    if s[0].1.stream as int == stream && s[0].1.pts is Some {
    } else {
        assert(k >= 1);
        assert(s.skip(1)[k - 1] == s[k]);
        lemma_first_pts_some(s.skip(1), stream, k - 1);
    }
}

proof fn lemma_first_pts_min(s: Seq<(usize, PacketInfo)>, stream: int, k: int)
    requires
        sorted_by_pts(s),
        0 <= k < s.len(),
        s[k].1.stream as int == stream,
        s[k].1.pts is Some,
        first_pts_of(s, stream) is Some,
    ensures
        first_pts_of(s, stream)->0 <= s[k].1.pts->0,
    decreases s.len(),
{
    if s[0].1.stream as int == stream && s[0].1.pts is Some {
        if k > 0 {
            assert(pts_key(s[0].1) <= pts_key(s[k].1));
        }
    } else {
        assert(k >= 1);
        assert(forall|m: int| #![trigger s.skip(1)[m]]
            0 <= m < s.skip(1).len() ==> s.skip(1)[m] == s[m + 1]);
        lemma_first_pts_min(s.skip(1), stream, k - 1);
    }
}

/// A timestamp small enough that offset arithmetic stays inside `i64`.
pub open spec fn ts_bounded(v: Option<i64>) -> bool {
    match v {
        Some(t) => -0x2000_0000_0000_0000 <= t <= 0x2000_0000_0000_0000,
        None => true,
    }
}

/// Both timestamps of the packet are bounded.
pub open spec fn packet_bounded(p: PacketInfo) -> bool {
    ts_bounded(p.pts) && ts_bounded(p.dts)
}

proof fn lemma_first_pts_elem(s: Seq<(usize, PacketInfo)>, stream: int)
    requires
        first_pts_of(s, stream) is Some,
    ensures
        exists|k: int|
            0 <= k < s.len() && (#[trigger] s[k]).1.stream as int == stream && s[k].1.pts
                == first_pts_of(s, stream),
    decreases s.len(),
{
    if s[0].1.stream as int == stream && s[0].1.pts is Some {
        assert(s[0].1.pts == first_pts_of(s, stream));
    } else {
        lemma_first_pts_elem(s.skip(1), stream);
        let k = choose|k: int|
            0 <= k < s.skip(1).len() && (#[trigger] s.skip(1)[k]).1.stream as int == stream
                && s.skip(1)[k].1.pts == first_pts_of(s.skip(1), stream);
        assert(s.skip(1)[k] == s[k + 1]);
    }
}

proof fn lemma_first_dts_elem(s: Seq<(usize, PacketInfo)>, stream: int)
    requires
        first_dts_of(s, stream) is Some,
    ensures
        exists|k: int|
            0 <= k < s.len() && (#[trigger] s[k]).1.stream as int == stream && s[k].1.dts
                == first_dts_of(s, stream),
    decreases s.len(),
{
    if s[0].1.stream as int == stream && s[0].1.dts is Some {
        assert(s[0].1.dts == first_dts_of(s, stream));
    } else {
        lemma_first_dts_elem(s.skip(1), stream);
        let k = choose|k: int|
            0 <= k < s.skip(1).len() && (#[trigger] s.skip(1)[k]).1.stream as int == stream
                && s.skip(1)[k].1.dts == first_dts_of(s.skip(1), stream);
        assert(s.skip(1)[k] == s[k + 1]);
    }
}

/// Plan one segment's writes and advance the ledger. The returned list
/// is exactly what the plan specification prescribes for the packets,
/// the mapping and the incoming ledger.
pub fn plan_segment(packets: &Vec<PacketInfo>, mapping: &Vec<Option<usize>>, ledger: &mut Ledger)
    -> (ops: Vec<WriteOp>)
    requires
        old(ledger).last_pts@.len() == old(ledger).last_dts@.len(),
        forall|t: int| #![trigger mapping@[t]]
            0 <= t < mapping@.len() && mapping@[t] is Some ==> (mapping@[t]->0 as int) < old(
                ledger,
            ).last_pts@.len(),
        forall|k: int| #![trigger packets@[k]]
            0 <= k < packets@.len() ==> packet_bounded(packets@[k]),
        forall|o: int| #![trigger old(ledger).last_pts@[o]]
            0 <= o < old(ledger).last_pts@.len() ==> -0x2000_0000_0000_0000 <= old(
                ledger,
            ).last_pts@[o] <= 0x2000_0000_0000_0000,
        forall|o: int| #![trigger old(ledger).last_dts@[o]]
            0 <= o < old(ledger).last_dts@.len() ==> -0x2000_0000_0000_0000 <= old(
                ledger,
            ).last_dts@[o] <= 0x2000_0000_0000_0000,
    ensures
        ops@.map_values(|op: WriteOp| op_model(op)) == plan_spec(
            packets@,
            mapping@,
            ledger_ints(old(ledger).last_pts@),
            ledger_ints(old(ledger).last_dts@),
        ).0,
        ledger_ints(final(ledger).last_pts@) == plan_spec(
            packets@,
            mapping@,
            ledger_ints(old(ledger).last_pts@),
            ledger_ints(old(ledger).last_dts@),
        ).1.lpts,
        ledger_ints(final(ledger).last_dts@) == plan_spec(
            packets@,
            mapping@,
            ledger_ints(old(ledger).last_pts@),
            ledger_ints(old(ledger).last_dts@),
        ).1.ldts,
{
    let n = mapping.len();
    let ghost lp0 = ledger_ints(ledger.last_pts@);
    let ghost ld0 = ledger_ints(ledger.last_dts@);
    let sorted = sort_packets(packets);
    let ghost s = sort_by_pts(indexed(packets@));
    proof {
        lemma_sort_by_pts_elems(indexed(packets@));
        assert forall|j: int| 0 <= j < s.len() implies packet_bounded((#[trigger] s[j]).1) by {
            let i = choose|i: int| 0 <= i < indexed(packets@).len() && s[j] == indexed(packets@)[i];
            assert(indexed(packets@)[i].1 == packets@[i]);
        }
    }
    // First set timestamps per segment stream, in sorted order.
    let mut fpts: Vec<Option<i64>> = Vec::new();
    let mut fdts: Vec<Option<i64>> = Vec::new();
    let mut t0: usize = 0;
    while t0 < n
        invariant
            t0 <= n,
            fpts@.len() == t0 as int,
            fdts@.len() == t0 as int,
            forall|u: int| #![trigger fpts@[u]] 0 <= u < t0 as int ==> fpts@[u] is None,
            forall|u: int| #![trigger fdts@[u]] 0 <= u < t0 as int ==> fdts@[u] is None,
        decreases n - t0,
    {
        fpts.push(None);
        fdts.push(None);
        t0 += 1;
    }
    let mut k: usize = 0;
    proof {
        assert(s.skip(0) =~= s);
    }
    while k < sorted.len()
        invariant
            k <= sorted.len(),
            sorted@ == s,
            n as int == mapping@.len(),
            fpts@.len() == n as int,
            fdts@.len() == n as int,
            forall|u: int| #![trigger fpts@[u]]
                0 <= u < n as int ==> (fpts@[u] is Some ==> first_pts_of(s, u) == fpts@[u]) && (
                fpts@[u] is None ==> first_pts_of(s.skip(k as int), u) == first_pts_of(s, u)),
            forall|u: int| #![trigger fdts@[u]]
                0 <= u < n as int ==> (fdts@[u] is Some ==> first_dts_of(s, u) == fdts@[u]) && (
                fdts@[u] is None ==> first_dts_of(s.skip(k as int), u) == first_dts_of(s, u)),
        decreases sorted.len() - k,
    {
        proof {
            assert(s.skip(k as int)[0] == s[k as int]);
            assert(s.skip(k as int).skip(1) =~= s.skip(k as int + 1));
        }
        let pr = sorted[k];
        let p = pr.1;
        if p.stream < n {
            if fpts[p.stream].is_none() {
                match p.pts {
                    Some(v) => {
                        fpts.set(p.stream, Some(v));
                    },
                    None => {},
                }
            }
            if fdts[p.stream].is_none() {
                match p.dts {
                    Some(v) => {
                        fdts.set(p.stream, Some(v));
                    },
                    None => {},
                }
            }
        }
        k += 1;
    }
    proof {
        assert(s.skip(sorted@.len() as int) =~= Seq::<(usize, PacketInfo)>::empty());
        assert forall|u: int| 0 <= u < n as int implies #[trigger] fpts@[u] == first_pts_of(
            s,
            u,
        ) by {
            if fpts@[u] is None {
                assert(first_pts_of(s.skip(sorted@.len() as int), u) is None);
            }
        }
        assert forall|u: int| 0 <= u < n as int implies #[trigger] fdts@[u] == first_dts_of(
            s,
            u,
        ) by {
            if fdts@[u] is None {
                assert(first_dts_of(s.skip(sorted@.len() as int), u) is None);
            }
        }
    }
    // One offset pair per stream, fixed before any packet is planned.
    let ghost pofs = Seq::new(mapping@.len(), |t: int| pts_offset_of(s, lp0, mapping@, t));
    let ghost dofs = Seq::new(mapping@.len(), |t: int| dts_offset_of(s, ld0, mapping@, t));
    let mut poffs: Vec<Option<i64>> = Vec::new();
    let mut doffs: Vec<Option<i64>> = Vec::new();
    let mut t: usize = 0;
    while t < n
        invariant
            t <= n,
            n as int == mapping@.len(),
            poffs@.len() == t as int,
            doffs@.len() == t as int,
            ledger.last_pts@ == old(ledger).last_pts@,
            ledger.last_dts@ == old(ledger).last_dts@,
            lp0 == ledger_ints(old(ledger).last_pts@),
            ld0 == ledger_ints(old(ledger).last_dts@),
            pofs == Seq::new(mapping@.len(), |t: int| pts_offset_of(s, lp0, mapping@, t)),
            dofs == Seq::new(mapping@.len(), |t: int| dts_offset_of(s, ld0, mapping@, t)),
            forall|j: int| #![trigger s[j]] 0 <= j < s.len() ==> packet_bounded(s[j].1),
            forall|tt: int| #![trigger mapping@[tt]]
                0 <= tt < mapping@.len() && mapping@[tt] is Some ==> (mapping@[tt]->0 as int)
                    < ledger.last_pts@.len(),
            ledger.last_pts@.len() == ledger.last_dts@.len(),
            forall|o: int| #![trigger ledger.last_pts@[o]]
                0 <= o < ledger.last_pts@.len() ==> -0x2000_0000_0000_0000 <= ledger.last_pts@[o]
                    <= 0x2000_0000_0000_0000,
            forall|o: int| #![trigger ledger.last_dts@[o]]
                0 <= o < ledger.last_dts@.len() ==> -0x2000_0000_0000_0000 <= ledger.last_dts@[o]
                    <= 0x2000_0000_0000_0000,
            fpts@.len() == n as int,
            fdts@.len() == n as int,
            forall|u: int| #![trigger fpts@[u]]
                0 <= u < n as int ==> fpts@[u] == first_pts_of(s, u),
            forall|u: int| #![trigger fdts@[u]]
                0 <= u < n as int ==> fdts@[u] == first_dts_of(s, u),
            forall|u: int| #![trigger poffs@[u]]
                0 <= u < t as int ==> opt_int(poffs@[u]) == pofs[u],
            forall|u: int| #![trigger doffs@[u]]
                0 <= u < t as int ==> opt_int(doffs@[u]) == dofs[u],
            forall|u: int| #![trigger poffs@[u]]
                0 <= u < t as int && poffs@[u] is Some ==> -0x4000_0000_0000_0001 <= poffs@[u]->0
                    <= 0x4000_0000_0000_0001,
            forall|u: int| #![trigger doffs@[u]]
                0 <= u < t as int && doffs@[u] is Some ==> -0x4000_0000_0000_0001 <= doffs@[u]->0
                    <= 0x4000_0000_0000_0001,
        decreases n - t,
    {
        let mut po: Option<i64> = None;
        let mut dof: Option<i64> = None;
        match mapping[t] {
            Some(o) => {
                match fpts[t] {
                    Some(f) => {
                        proof {
                            lemma_first_pts_elem(s, t as int);
                            let kk = choose|kk: int|
                                0 <= kk < s.len() && (#[trigger] s[kk]).1.stream as int == t as int
                                    && s[kk].1.pts == first_pts_of(s, t as int);
                            assert(packet_bounded(s[kk].1));
                            if first_dts_of(s, t as int) is Some {
                                lemma_first_dts_elem(s, t as int);
                                let kd = choose|kd: int|
                                    0 <= kd < s.len() && (#[trigger] s[kd]).1.stream as int == t
                                        as int && s[kd].1.dts == first_dts_of(s, t as int);
                                assert(packet_bounded(s[kd].1));
                            }
                        }
                        let lp = ledger.last_pts[o];
                        po = Some(lp + 1 - f);
                        let fd: i64 = match fdts[t] {
                            Some(d) => d,
                            None => 0,
                        };
                        let ld = ledger.last_dts[o];
                        dof = Some(ld + 1 - fd);
                    },
                    None => {},
                }
            },
            None => {},
        }
        poffs.push(po);
        doffs.push(dof);
        t += 1;
    }
    // The emit pass.
    let ghost st0 = fresh_state(mapping@.len() as int, lp0, ld0);
    let ghost full = join_emit(s, mapping@, pofs, dofs, st0);
    let mut seen: Vec<bool> = Vec::new();
    let mut t1: usize = 0;
    while t1 < n
        invariant
            t1 <= n,
            seen@.len() == t1 as int,
            forall|u: int| #![trigger seen@[u]] 0 <= u < t1 as int ==> seen@[u] == false,
        decreases n - t1,
    {
        seen.push(false);
        t1 += 1;
    }
    let mut ops: Vec<WriteOp> = Vec::new();
    let mut i: usize = 0;
    proof {
        assert(seen@ =~= st0.seen);
        assert(s.skip(0) =~= s);
        assert(ops@.map_values(|op: WriteOp| op_model(op)) =~= Seq::<OpModel>::empty());
        assert(Seq::<OpModel>::empty() + full.0 =~= full.0);
    }
    while i < sorted.len()
        invariant
            i <= sorted.len(),
            sorted@ == s,
            n as int == mapping@.len(),
            forall|j: int| #![trigger s[j]] 0 <= j < s.len() ==> packet_bounded(s[j].1),
            forall|tt: int| #![trigger mapping@[tt]]
                0 <= tt < mapping@.len() && mapping@[tt] is Some ==> (mapping@[tt]->0 as int)
                    < ledger.last_pts@.len(),
            ledger.last_pts@.len() == old(ledger).last_pts@.len(),
            ledger.last_dts@.len() == old(ledger).last_pts@.len(),
            seen@.len() == n as int,
            poffs@.len() == n as int,
            doffs@.len() == n as int,
            forall|u: int| #![trigger poffs@[u]]
                0 <= u < n as int ==> opt_int(poffs@[u]) == pofs[u],
            forall|u: int| #![trigger doffs@[u]]
                0 <= u < n as int ==> opt_int(doffs@[u]) == dofs[u],
            forall|u: int| #![trigger poffs@[u]]
                0 <= u < n as int && poffs@[u] is Some ==> -0x4000_0000_0000_0001 <= poffs@[u]->0
                    <= 0x4000_0000_0000_0001,
            forall|u: int| #![trigger doffs@[u]]
                0 <= u < n as int && doffs@[u] is Some ==> -0x4000_0000_0000_0001 <= doffs@[u]->0
                    <= 0x4000_0000_0000_0001,
            full == join_emit(s, mapping@, pofs, dofs, st0),
            ops@.map_values(|op: WriteOp| op_model(op)) + join_emit(
                s.skip(i as int),
                mapping@,
                pofs,
                dofs,
                JoinState {
                    seen: seen@,
                    lpts: ledger_ints(ledger.last_pts@),
                    ldts: ledger_ints(ledger.last_dts@),
                },
            ).0 == full.0,
            join_emit(
                s.skip(i as int),
                mapping@,
                pofs,
                dofs,
                JoinState {
                    seen: seen@,
                    lpts: ledger_ints(ledger.last_pts@),
                    ldts: ledger_ints(ledger.last_dts@),
                },
            ).1 == full.1,
        decreases sorted.len() - i,
    {
        let ghost cur = JoinState {
            seen: seen@,
            lpts: ledger_ints(ledger.last_pts@),
            ldts: ledger_ints(ledger.last_dts@),
        };
        proof {
            assert(s.skip(i as int)[0] == s[i as int]);
            assert(s.skip(i as int).skip(1) =~= s.skip(i as int + 1));
        }
        let pr = sorted[i];
        let p = pr.1;
        if p.stream < n {
            match mapping[p.stream] {
                Some(o) => {
                    let gated = p.video && !seen[p.stream] && !p.key;
                    if !gated {
                        if p.video {
                            seen.set(p.stream, true);
                        }
                        let mut np: Option<i64> = None;
                        match p.pts {
                            Some(ts) => {
                                match poffs[p.stream] {
                                    Some(off) => {
                                        let v = ts + off;
                                        np = Some(v);
                                        ledger.last_pts.set(o, v);
                                    },
                                    None => {
                                        np = Some(ts);
                                    },
                                }
                            },
                            None => {},
                        }
                        let mut nd: Option<i64> = None;
                        match p.dts {
                            Some(ts) => {
                                match doffs[p.stream] {
                                    Some(off) => {
                                        let v = ts + off;
                                        nd = Some(v);
                                        ledger.last_dts.set(o, v);
                                    },
                                    None => {
                                        nd = Some(ts);
                                    },
                                }
                            },
                            None => {},
                        }
                        let op = WriteOp {
                            index: pr.0,
                            src_stream: p.stream,
                            out_stream: o,
                            pts: np,
                            dts: nd,
                            key: p.key,
                            video: p.video,
                        };
                        proof {
                            let st1 = JoinState {
                                seen: seen@,
                                lpts: ledger_ints(ledger.last_pts@),
                                ldts: ledger_ints(ledger.last_dts@),
                            };
                            let spec_st1 = JoinState {
                                seen: if p.video {
                                    cur.seen.update(p.stream as int, true)
                                } else {
                                    cur.seen
                                },
                                lpts: if p.pts is Some && pofs[p.stream as int] is Some {
                                    cur.lpts.update(
                                        mapping@[p.stream as int]->0 as int,
                                        shift_ts(p.pts, pofs[p.stream as int])->0,
                                    )
                                } else {
                                    cur.lpts
                                },
                                ldts: if p.dts is Some && dofs[p.stream as int] is Some {
                                    cur.ldts.update(
                                        mapping@[p.stream as int]->0 as int,
                                        shift_ts(p.dts, dofs[p.stream as int])->0,
                                    )
                                } else {
                                    cur.ldts
                                },
                            };
                            assert(st1.seen =~= spec_st1.seen);
                            assert(st1.lpts =~= spec_st1.lpts);
                            assert(st1.ldts =~= spec_st1.ldts);
                            assert(op_model(op) == OpModel {
                                index: pr.0 as int,
                                src_stream: p.stream as int,
                                out_stream: mapping@[p.stream as int]->0 as int,
                                pts: shift_ts(p.pts, pofs[p.stream as int]),
                                dts: shift_ts(p.dts, dofs[p.stream as int]),
                                key: p.key,
                                video: p.video,
                            });
                            let f = |op: WriteOp| op_model(op);
                            let tail = join_emit(
                                s.skip(i as int + 1),
                                mapping@,
                                pofs,
                                dofs,
                                spec_st1,
                            ).0;
                            assert(ops@.push(op).map_values(f) =~= ops@.map_values(f).push(
                                op_model(op),
                            ));
                            assert(ops@.map_values(f).push(op_model(op)) + tail =~= ops@.map_values(
                                f,
                            ) + (seq![op_model(op)] + tail));
                        }
                        ops.push(op);
                    }
                },
                None => {},
            }
        }
        i += 1;
    }
    proof {
        assert(s.skip(sorted@.len() as int) =~= Seq::<(usize, PacketInfo)>::empty());
        assert(ops@.map_values(|op: WriteOp| op_model(op)) + Seq::<OpModel>::empty()
            =~= ops@.map_values(|op: WriteOp| op_model(op)));
        assert(pofs =~= Seq::new(
            mapping@.len(),
            |t: int| pts_offset_of(s, lp0, mapping@, t),
        ));
    }
    ops
}

} // verus!
