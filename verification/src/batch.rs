//! Which buffered packets go out next, and in what order: cutting back to a
//! keyframe, holding inter-frames back until one comes, and ordering by decode
//! time.

use vstd::prelude::*;

use crate::backpressure::BoundedBuffer;
use crate::models::{MediaKind, MediaPacket, PacketView};

verus! {

/// The views of a list of packets.
pub open spec fn packets(s: Seq<MediaPacket>) -> Seq<PacketView> {
    s.map_values(|p: MediaPacket| p@)
}

/// True of the packets a decoder can start from.
pub open spec fn is_keyframe(p: PacketView) -> bool {
    p.kind == MediaKind::Video && p.is_key
}

/// True of video that depends on earlier video.
pub open spec fn is_inter_frame(p: PacketView) -> bool {
    p.kind == MediaKind::Video && !p.is_key
}

/// Where the newest keyframe is.
pub open spec fn latest_keyframe(s: Seq<PacketView>) -> Option<int>
    decreases s.len(),
{
    if s.len() == 0 {
        None
    } else if is_keyframe(s.last()) {
        Some(s.len() - 1)
    } else {
        latest_keyframe(s.drop_last())
    }
}

/// How many packets lie before the newest keyframe; none where there is no
/// keyframe.
pub open spec fn stale(s: Seq<PacketView>) -> int {
    match latest_keyframe(s) {
        Some(at) => at,
        None => 0,
    }
}

/// The packets from the newest keyframe on; all of them where there is none.
pub open spec fn cut(s: Seq<PacketView>) -> Seq<PacketView> {
    s.skip(stale(s))
}

/// The packets that go out, in the order they came in. While a keyframe is
/// awaited, inter-frames are held back.
pub open spec fn passed(s: Seq<PacketView>, awaiting: bool) -> Seq<PacketView>
    decreases s.len(),
{
    if s.len() == 0 {
        Seq::empty()
    } else if awaiting && is_inter_frame(s.last()) && !has_keyframe(s.drop_last()) {
        passed(s.drop_last(), awaiting)
    } else {
        passed(s.drop_last(), awaiting).push(s.last())
    }
}

/// True if there is a keyframe among the packets.
pub open spec fn has_keyframe(s: Seq<PacketView>) -> bool {
    exists|i: int| 0 <= i < s.len() && is_keyframe(#[trigger] s[i])
}

/// Packets in decode order with one more, behind all that are not later.
pub open spec fn inserted(s: Seq<PacketView>, p: PacketView) -> Seq<PacketView>
    decreases s.len(),
{
    if s.len() > 0 && s.last().dts > p.dts {
        inserted(s.drop_last(), p).push(s.last())
    } else {
        s.push(p)
    }
}

/// The packets in decode order; those with equal timestamps keep the order
/// they came in.
pub open spec fn by_dts(s: Seq<PacketView>) -> Seq<PacketView>
    decreases s.len(),
{
    if s.len() == 0 {
        s
    } else {
        inserted(by_dts(s.drop_last()), s.last())
    }
}

/// What goes out next: the packets that pass, in decode order.
pub open spec fn next_batch(s: Seq<PacketView>, awaiting: bool) -> Seq<PacketView> {
    by_dts(passed(s, awaiting))
}

/// True if decode timestamps never go back.
pub open spec fn in_decode_order(s: Seq<PacketView>) -> bool {
    forall|i: int, j: int| 0 <= i <= j < s.len() ==> (#[trigger] s[i]).dts <= (#[trigger] s[j]).dts
}

// ---------------------------------------------------------------------------
// Laws
// ---------------------------------------------------------------------------

proof fn lemma_inserted(s: Seq<PacketView>, p: PacketView)
    requires
        in_decode_order(s),
    ensures
        in_decode_order(inserted(s, p)),
        inserted(s, p).len() == s.len() + 1,
        inserted(s, p).to_multiset() == s.to_multiset().insert(p),
        inserted(s, p).last().dts == if s.len() > 0 && s.last().dts > p.dts {
            s.last().dts
        } else {
            p.dts
        },
    decreases s.len(),
{
    broadcast use vstd::seq_lib::group_to_multiset_ensures;

    if s.len() > 0 && s.last().dts > p.dts {
        let rest = s.drop_last();
        lemma_inserted(rest, p);
        let low = inserted(rest, p);
        let out = low.push(s.last());
        assert forall|i: int, j: int| 0 <= i <= j < out.len() implies (#[trigger] out[i]).dts <= (
        #[trigger] out[j]).dts by {
            if j == out.len() - 1 && i < low.len() {
                assert(low[i].dts <= low[low.len() - 1].dts);
                if rest.len() > 0 {
                    assert(s[rest.len() - 1].dts <= s[s.len() - 1].dts);
                }
            }
        }
        assert(s =~= rest.push(s.last()));
        assert(s.to_multiset() =~= rest.to_multiset().insert(s.last()));
        assert(out.to_multiset() =~= low.to_multiset().insert(s.last()));
        assert(out.to_multiset() =~= s.to_multiset().insert(p));
    } else {
        assert(s.push(p).to_multiset() =~= s.to_multiset().insert(p));
    }
}

/// A batch is in decode order, and holds the packets that it was made from,
/// each as often as it came in.
pub proof fn batches_are_in_decode_order(s: Seq<PacketView>)
    ensures
        in_decode_order(by_dts(s)),
        by_dts(s).len() == s.len(),
        by_dts(s).to_multiset() == s.to_multiset(),
    decreases s.len(),
{
    broadcast use vstd::seq_lib::group_to_multiset_ensures;

    if s.len() > 0 {
        batches_are_in_decode_order(s.drop_last());
        lemma_inserted(by_dts(s.drop_last()), s.last());
        assert(s =~= s.drop_last().push(s.last()));
        assert(s.to_multiset() =~= s.drop_last().to_multiset().insert(s.last()));
    }
}

/// The packets with a given decode timestamp.
pub open spec fn at_time(s: Seq<PacketView>, dts: int) -> Seq<PacketView> {
    s.filter(|p: PacketView| p.dts == dts)
}

proof fn lemma_inserted_stable(s: Seq<PacketView>, p: PacketView, dts: int)
    requires
        in_decode_order(s),
    ensures
        at_time(inserted(s, p), dts) == if p.dts == dts {
            at_time(s, dts).push(p)
        } else {
            at_time(s, dts)
        },
    decreases s.len(),
{
    let keep = |q: PacketView| q.dts == dts;
    if s.len() > 0 && s.last().dts > p.dts {
        let rest = s.drop_last();
        lemma_inserted_stable(rest, p, dts);
        reveal(Seq::filter);
        assert(inserted(s, p).drop_last() =~= inserted(rest, p));
        if p.dts == dts {
            assert(!keep(s.last()));
        }
    } else {
        reveal(Seq::filter);
        assert(s.push(p).drop_last() =~= s);
    }
}

/// Packets with equal timestamps keep the order they came in.
pub proof fn equal_times_keep_their_order(s: Seq<PacketView>, dts: int)
    ensures
        at_time(by_dts(s), dts) == at_time(s, dts),
    decreases s.len(),
{
    if s.len() > 0 {
        equal_times_keep_their_order(s.drop_last(), dts);
        batches_are_in_decode_order(s.drop_last());
        lemma_inserted_stable(by_dts(s.drop_last()), s.last(), dts);
        reveal(Seq::filter);
    }
}

/// Packets that came in decode order already are left as they are.
pub proof fn ordered_packets_stay(s: Seq<PacketView>)
    requires
        in_decode_order(s),
    ensures
        by_dts(s) == s,
    decreases s.len(),
{
    if s.len() > 0 {
        let rest = s.drop_last();
        assert(in_decode_order(rest)) by {
            assert forall|i: int, j: int| 0 <= i <= j < rest.len() implies (
            #[trigger] rest[i]).dts <= (#[trigger] rest[j]).dts by {
                assert(s[i].dts <= s[j].dts);
            }
        }
        ordered_packets_stay(rest);
        if rest.len() > 0 {
            assert(s[rest.len() - 1].dts <= s[s.len() - 1].dts);
        }
        assert(rest.push(s.last()) =~= s);
    }
}

/// While a keyframe is awaited, no inter-frame passes before one: the stream
/// resumes at a point a decoder can start from. Audio and keyframes all pass.
pub proof fn awaited_keyframes_come_first(s: Seq<PacketView>, i: int)
    requires
        0 <= i < passed(s, true).len(),
        is_inter_frame(passed(s, true)[i]),
    ensures
        exists|k: int| 0 <= k < i && is_keyframe(#[trigger] passed(s, true)[k]),
    decreases s.len(),
{
    if s.len() > 0 {
        let rest = s.drop_last();
        let p = passed(s, true);
        let q = passed(rest, true);
        if i < q.len() {
            assert(p[i] == q[i]);
            awaited_keyframes_come_first(rest, i);
            let k = choose|k: int| 0 <= k < i && is_keyframe(#[trigger] q[k]);
            assert(p[k] == q[k]);
        } else {
            let at = choose|at: int| 0 <= at < rest.len() && is_keyframe(#[trigger] rest[at]);
            lemma_keyframes_pass(rest, at);
            let k = choose|k: int| 0 <= k < q.len() && q[k] == rest[at];
            assert(p[k] == q[k]);
        }
    }
}

proof fn lemma_keyframes_pass(s: Seq<PacketView>, at: int)
    requires
        0 <= at < s.len(),
        is_keyframe(s[at]),
    ensures
        exists|k: int| 0 <= k < passed(s, true).len() && passed(s, true)[k] == s[at],
    decreases s.len(),
{
    let rest = s.drop_last();
    let p = passed(s, true);
    let q = passed(rest, true);
    if at == s.len() - 1 {
        assert(p[p.len() - 1] == s[at]);
    } else {
        assert(rest[at] == s[at]);
        lemma_keyframes_pass(rest, at);
        let k = choose|k: int| 0 <= k < q.len() && q[k] == rest[at];
        assert(p[k] == q[k]);
    }
}

/// Nothing is held back unless a keyframe is awaited; and then only inter-frames
/// in front of the first keyframe are.
pub proof fn only_awaiting_holds_back(s: Seq<PacketView>, k: int)
    requires
        0 <= k <= s.len(),
        k < s.len() ==> is_keyframe(s[k]),
        forall|i: int| 0 <= i < k ==> !is_keyframe(#[trigger] s[i]),
    ensures
        passed(s, false) == s,
        passed(s, true) == s.take(k).filter(|p: PacketView| !is_inter_frame(p)) + s.skip(k),
    decreases s.len(),
{
    reveal(Seq::filter);
    let f = |p: PacketView| !is_inter_frame(p);
    if s.len() == 0 {
        assert(passed(s, false) =~= s);
        assert(passed(s, true) =~= s.take(k).filter(f) + s.skip(k));
    } else {
        let rest = s.drop_last();
        assert(rest.push(s.last()) =~= s);
        if k == s.len() {
            assert forall|i: int| 0 <= i < rest.len() implies !is_keyframe(#[trigger] rest[i]) by {
                assert(rest[i] == s[i]);
            }
            only_awaiting_holds_back(rest, k - 1);
            assert(rest.take(k - 1) =~= rest);
            assert(s.take(k) =~= s);
            assert(rest.skip(k - 1) =~= Seq::<PacketView>::empty());
            assert(rest.filter(f) + Seq::<PacketView>::empty() =~= rest.filter(f));
            assert(!has_keyframe(rest));
            assert(passed(s, true) =~= s.take(k).filter(f) + s.skip(k));
        } else if k < s.len() - 1 {
            assert(rest[k] == s[k]);
            assert forall|i: int| 0 <= i < k implies !is_keyframe(#[trigger] rest[i]) by {
                assert(rest[i] == s[i]);
            }
            only_awaiting_holds_back(rest, k);
            assert(has_keyframe(rest));
            assert(rest.take(k) =~= s.take(k));
            assert(rest.skip(k).push(s.last()) =~= s.skip(k));
            assert(passed(s, true) =~= s.take(k).filter(f) + s.skip(k));
        } else {
            assert forall|i: int| 0 <= i < rest.len() implies !is_keyframe(#[trigger] rest[i]) by {
                assert(rest[i] == s[i]);
            }
            only_awaiting_holds_back(rest, k);
            assert(rest.take(k) =~= s.take(k));
            assert(is_keyframe(s.last()));
            assert(passed(s, true) =~= s.take(k).filter(f) + s.skip(k));
        }
    }
}

/// What a cut keeps begins with a keyframe, and nothing newer is one; without
/// a keyframe everything is kept.
pub proof fn cuts_keep_the_newest_keyframe(s: Seq<PacketView>)
    ensures
        match latest_keyframe(s) {
            Some(at) => {
                &&& 0 <= at < s.len()
                &&& is_keyframe(s[at])
                &&& forall|i: int| at < i < s.len() ==> !is_keyframe(#[trigger] s[i])
                &&& cut(s).len() > 0
                &&& cut(s).first() == s[at]
            },
            None => !has_keyframe(s) && cut(s) == s,
        },
    decreases s.len(),
{
    if s.len() > 0 && !is_keyframe(s.last()) {
        let rest = s.drop_last();
        cuts_keep_the_newest_keyframe(rest);
        if let Some(at) = latest_keyframe(rest) {
            assert(rest[at] == s[at]);
            assert forall|i: int| at < i < s.len() implies !is_keyframe(#[trigger] s[i]) by {
                if i < rest.len() {
                    assert(rest[i] == s[i]);
                }
            }
        } else {
            assert forall|i: int| 0 <= i < s.len() implies !is_keyframe(#[trigger] s[i]) by {
                if i < rest.len() {
                    assert(rest[i] == s[i]);
                }
            }
        }
    }
    if latest_keyframe(s) is None {
        assert(s.skip(0) =~= s);
    }
}

proof fn lemma_latest_keyframe(s: Seq<PacketView>, at: int)
    requires
        0 <= at <= s.len(),
        at < s.len() ==> is_keyframe(s[at]) || at == 0,
        at > 0 ==> at < s.len(),
        forall|i: int| at < i < s.len() ==> !is_keyframe(#[trigger] s[i]),
    ensures
        stale(s) == at,
    decreases s.len(),
{
    if s.len() > 0 && !is_keyframe(s.last()) {
        let rest = s.drop_last();
        if at < rest.len() {
            lemma_latest_keyframe(rest, at);
        } else if rest.len() == 0 {
            assert(latest_keyframe(rest) is None);
        }
    } else if s.len() > 0 {
        assert(at == s.len() - 1) by {
            if at < s.len() - 1 {
                assert(!is_keyframe(s[s.len() - 1]));
            }
        }
    }
}

// ---------------------------------------------------------------------------
// Carrying it out
// ---------------------------------------------------------------------------

/// Can a decoder start from this packet?
pub fn starts_decoding(p: &MediaPacket) -> (yes: bool)
    ensures
        yes == is_keyframe(p@),
{
    match p.kind {
        MediaKind::Video => p.is_key,
        MediaKind::Audio => false,
    }
}

/// Discard every buffered packet. Returns how many there were.
pub fn discard_all(buffer: &mut BoundedBuffer<MediaPacket>) -> (discarded: u64)
    requires
        old(buffer).spec_dropped() + old(buffer)@.len() <= u64::MAX,
    ensures
        discarded == old(buffer)@.len(),
        final(buffer)@.len() == 0,
        final(buffer).spec_dropped() == old(buffer).spec_dropped() + discarded,
        final(buffer).spec_pushed() == old(buffer).spec_pushed(),
        final(buffer).spec_capacity() == old(buffer).spec_capacity(),
{
    let mut n: u64 = 0;
    loop
        invariant
            n + buffer@.len() == old(buffer)@.len(),
            old(buffer).spec_dropped() + old(buffer)@.len() <= u64::MAX,
            buffer.spec_dropped() == old(buffer).spec_dropped() + n,
            buffer.spec_pushed() == old(buffer).spec_pushed(),
            buffer.spec_capacity() == old(buffer).spec_capacity(),
        decreases buffer@.len(),
    {
        if buffer.pop_oldest().is_none() {
            return n;
        }
        buffer.record_drop();
        n = n + 1;
    }
}

/// Discard everything before the newest keyframe. Returns how many packets
/// were discarded.
pub fn cut_to_keyframe(buffer: &mut BoundedBuffer<MediaPacket>) -> (discarded: u64)
    requires
        old(buffer).spec_dropped() + old(buffer)@.len() <= u64::MAX,
    ensures
        discarded == stale(packets(old(buffer)@)),
        packets(final(buffer)@) == cut(packets(old(buffer)@)),
        final(buffer)@.len() == old(buffer)@.len() - discarded,
        final(buffer).spec_dropped() == old(buffer).spec_dropped() + discarded,
        final(buffer).spec_pushed() == old(buffer).spec_pushed(),
        final(buffer).spec_capacity() == old(buffer).spec_capacity(),
{
    let key = |p: &MediaPacket| -> (yes: bool)
        ensures
            yes == is_keyframe(p@),
        { starts_decoding(p) };
    let discarded: u64 = buffer.resync_keep_latest_keyframe(key);
    proof {
        let s = packets(old(buffer)@);
        assert forall|i: int| discarded < i < s.len() implies !is_keyframe(#[trigger] s[i]) by {
            assert(call_ensures(key, (&old(buffer)@[i],), false));
        }
        lemma_latest_keyframe(s, discarded as int);
        assert(packets(buffer@) =~= s.skip(discarded as int));
    }
    discarded
}

/// Put a packet into its place among packets in decode order.
fn insert_by_dts(sorted: &mut Vec<MediaPacket>, pkt: MediaPacket)
    ensures
        packets(final(sorted)@) == inserted(packets(old(sorted)@), pkt@),
        final(sorted)@.len() == old(sorted)@.len() + 1,
{
    let n: usize = sorted.len();
    let mut at: usize = n;
    while at > 0 && sorted[at - 1].dts > pkt.dts
        invariant
            at <= n == sorted@.len(),
            *sorted == *old(sorted),
            forall|k: int| at <= k < n ==> (#[trigger] sorted@[k])@.dts > pkt@.dts,
        decreases at,
    {
        at = at - 1;
    }
    proof {
        lemma_inserted_at(packets(sorted@), pkt@, at as int);
    }
    sorted.insert(at, pkt);
    assert(packets(sorted@) =~= packets(old(sorted)@).insert(at as int, pkt@));
}

proof fn lemma_inserted_at(s: Seq<PacketView>, p: PacketView, at: int)
    requires
        0 <= at <= s.len(),
        at > 0 ==> s[at - 1].dts <= p.dts,
        forall|k: int| at <= k < s.len() ==> (#[trigger] s[k]).dts > p.dts,
    ensures
        inserted(s, p) == s.insert(at, p),
    decreases s.len(),
{
    if at == s.len() {
        assert(s.push(p) =~= s.insert(at, p));
    } else {
        let rest = s.drop_last();
        assert(s.last() == s[s.len() - 1]);
        assert forall|k: int| at <= k < rest.len() implies (#[trigger] rest[k]).dts > p.dts by {
            assert(rest[k] == s[k]);
        }
        lemma_inserted_at(rest, p, at);
        assert(rest.insert(at, p).push(s.last()) =~= s.insert(at, p));
    }
}

/// Drain the buffer. While `awaiting` is set (a transport died with no keyframe
/// buffered) video inter-frames are discarded so the fresh connection starts at
/// a clean GOP boundary; audio and keyframes pass through, and the flag clears
/// as soon as a keyframe is drained.
///
/// The platform pushes video and audio from separate encoder threads, so the
/// arrival order in the buffer is *delivery* order, not *time* order: a video
/// encoder that catches up after a stall can deliver a burst of frames whose
/// timestamps race ahead of the audio that was captured at the same wall-clock
/// moment. The batch is ordered by decode time, so that the muxer always sees
/// globally time-ordered packets.
pub fn drain(buffer: &mut BoundedBuffer<MediaPacket>, awaiting: &mut bool) -> (batch: Vec<
    MediaPacket,
>)
    requires
        old(buffer).spec_dropped() + old(buffer)@.len() <= u64::MAX,
    ensures
        packets(batch@) == next_batch(packets(old(buffer)@), *old(awaiting)),
        batch@.len() <= old(buffer)@.len(),
        *final(awaiting) == (*old(awaiting) && !has_keyframe(packets(old(buffer)@))),
        final(buffer)@.len() == 0,
        final(buffer).spec_dropped() == old(buffer).spec_dropped() + old(buffer)@.len()
            - batch@.len(),
        final(buffer).spec_pushed() == old(buffer).spec_pushed(),
        final(buffer).spec_capacity() == old(buffer).spec_capacity(),
{
    let ghost all = packets(buffer@);
    let ghost was = *awaiting;
    let ghost n = buffer@.len();
    let ghost mut i: int = 0;
    let mut batch: Vec<MediaPacket> = Vec::new();
    assert(packets(batch@) =~= next_batch(all.take(0), was));
    assert(all.skip(0) =~= all);
    loop
        invariant
            n == all.len() == old(buffer)@.len(),
            all == packets(old(buffer)@),
            was == *old(awaiting),
            0 <= i <= n,
            packets(buffer@) == all.skip(i),
            buffer@.len() == n - i,
            packets(batch@) == next_batch(all.take(i), was),
            batch@.len() <= i,
            *awaiting == (was && !has_keyframe(all.take(i))),
            buffer.spec_dropped() == old(buffer).spec_dropped() + i - batch@.len(),
            buffer.spec_pushed() == old(buffer).spec_pushed(),
            buffer.spec_capacity() == old(buffer).spec_capacity(),
            old(buffer).spec_dropped() + n <= u64::MAX,
        ensures
            i == n,
            buffer@.len() == 0,
            packets(batch@) == next_batch(all.take(i), was),
            batch@.len() <= i,
            *awaiting == (was && !has_keyframe(all.take(i))),
            buffer.spec_dropped() == old(buffer).spec_dropped() + i - batch@.len(),
            buffer.spec_pushed() == old(buffer).spec_pushed(),
            buffer.spec_capacity() == old(buffer).spec_capacity(),
        decreases n - i,
    {
        let ghost before = buffer@;
        match buffer.pop_oldest() {
            None => {
                break;
            },
            Some(pkt) => {
                proof {
                    assert(packets(before)[0] == pkt@);
                    assert(all[i] == pkt@);
                    assert(packets(buffer@) =~= packets(before).drop_first());
                    assert(all.skip(i).drop_first() =~= all.skip(i + 1));
                    assert(all.take(i + 1).drop_last() =~= all.take(i));
                    assert(all.take(i + 1).last() == pkt@);
                    lemma_has_keyframe(all.take(i), pkt@);
                    assert(all.take(i + 1) =~= all.take(i).push(pkt@));
                    let p = passed(all.take(i), was).push(pkt@);
                    assert(p.drop_last() =~= passed(all.take(i), was));
                    i = i + 1;
                }
                let inter: bool = match pkt.kind {
                    MediaKind::Video => !pkt.is_key,
                    MediaKind::Audio => false,
                };
                if *awaiting && inter {
                    buffer.record_drop();
                } else {
                    if starts_decoding(&pkt) {
                        *awaiting = false;
                    }
                    insert_by_dts(&mut batch, pkt);
                }
            },
        }
    }
    assert(all.take(n as int) =~= all);
    batch
}

proof fn lemma_has_keyframe(s: Seq<PacketView>, p: PacketView)
    ensures
        has_keyframe(s.push(p)) == (has_keyframe(s) || is_keyframe(p)),
{
    let t = s.push(p);
    if has_keyframe(s) {
        let i = choose|i: int| 0 <= i < s.len() && is_keyframe(#[trigger] s[i]);
        assert(t[i] == s[i]);
    }
    if is_keyframe(p) {
        assert(t[s.len() as int] == p);
    }
    if has_keyframe(t) {
        let i = choose|i: int| 0 <= i < t.len() && is_keyframe(#[trigger] t[i]);
        if i < s.len() {
            assert(s[i] == t[i]);
        }
    }
}

} // verus!
