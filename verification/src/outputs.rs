//! Feeding packet-level outputs: every output gets every packet that reached
//! the wire, and one that fails is retired rather than allowed to sink the
//! stream.

use vstd::prelude::*;

use crate::batch::packets;
use crate::io::IoError;
use crate::models::{MediaPacket, PacketView};
use crate::mux::opt_slice;
use crate::sink::{PacketSink, SinkCall};
use crate::telemetry::{lemma_repeated, BookView, Level, LogBook};

verus! {

/// The calls each output has had.
pub open spec fn calls_of<O: PacketSink>(outputs: Seq<O>) -> Seq<Seq<SinkCall>> {
    outputs.map_values(|o: O| o.calls())
}

/// True if `after` is what feeding `p` can make of the outputs in `before`: an
/// output that took it stays, one that failed is gone, and the order is kept.
pub open spec fn fed(
    before: Seq<Seq<SinkCall>>,
    after: Seq<Seq<SinkCall>>,
    p: PacketView,
) -> bool
    decreases before.len(),
{
    if before.len() == 0 {
        after.len() == 0
    } else {
        ||| after.len() > 0 && after.last() == before.last().push(SinkCall::Packet(p, true))
            && fed(before.drop_last(), after.drop_last(), p)
        ||| fed(before.drop_last(), after, p)
    }
}

/// The same for a run of packets, one after the other.
pub open spec fn fed_all(
    before: Seq<Seq<SinkCall>>,
    after: Seq<Seq<SinkCall>>,
    ps: Seq<PacketView>,
) -> bool
    decreases ps.len(),
{
    if ps.len() == 0 {
        after == before
    } else {
        exists|middle: Seq<Seq<SinkCall>>|
            #![trigger fed(middle, after, ps.last())]
            fed_all(before, middle, ps.drop_last()) && fed(middle, after, ps.last())
    }
}

/// The calls once every output has been told of codec configurations.
pub open spec fn told_codecs(
    before: Seq<Seq<SinkCall>>,
    avcc: Option<Seq<u8>>,
    asc: Option<Seq<u8>>,
) -> Seq<Seq<SinkCall>> {
    before.map_values(|c: Seq<SinkCall>| c.push(SinkCall::Codecs(avcc, asc)))
}

/// True if every output has been told of the end, whatever it answered.
pub open spec fn finished(before: Seq<Seq<SinkCall>>, after: Seq<Seq<SinkCall>>) -> bool {
    &&& after.len() == before.len()
    &&& forall|i: int|
        0 <= i < after.len() ==> {
            ||| #[trigger] after[i] == before[i].push(SinkCall::Finish(true))
            ||| after[i] == before[i].push(SinkCall::Finish(false))
        }
}

/// The calls that hand a run of packets over.
pub open spec fn packet_calls(ps: Seq<PacketView>) -> Seq<SinkCall> {
    ps.map_values(|p: PacketView| SinkCall::Packet(p, true))
}

proof fn lemma_fed_member(
    before: Seq<Seq<SinkCall>>,
    after: Seq<Seq<SinkCall>>,
    p: PacketView,
    i: int,
)
    requires
        fed(before, after, p),
        0 <= i < after.len(),
    ensures
        exists|k: int|
            0 <= k < before.len() && after[i] == (#[trigger] before[k]).push(
                SinkCall::Packet(p, true),
            ),
    decreases before.len(),
{
    if before.len() > 0 {
        let b = before.drop_last();
        if after.last() == before.last().push(SinkCall::Packet(p, true)) && fed(
            b,
            after.drop_last(),
            p,
        ) {
            if i == after.len() - 1 {
                assert(after[i] == before[before.len() - 1].push(SinkCall::Packet(p, true)));
            } else {
                lemma_fed_member(b, after.drop_last(), p, i);
                let k = choose|k: int|
                    0 <= k < b.len() && after.drop_last()[i] == (#[trigger] b[k]).push(
                        SinkCall::Packet(p, true),
                    );
                assert(before[k] == b[k]);
            }
        } else {
            lemma_fed_member(b, after, p, i);
            let k = choose|k: int|
                0 <= k < b.len() && after[i] == (#[trigger] b[k]).push(SinkCall::Packet(p, true));
            assert(before[k] == b[k]);
        }
    }
}

/// An output that is still there has had every packet, in order, and took each.
pub proof fn surviving_outputs_get_everything(
    before: Seq<Seq<SinkCall>>,
    after: Seq<Seq<SinkCall>>,
    ps: Seq<PacketView>,
    i: int,
)
    requires
        fed_all(before, after, ps),
        0 <= i < after.len(),
    ensures
        exists|k: int|
            0 <= k < before.len() && after[i] == (#[trigger] before[k]) + packet_calls(ps),
    decreases ps.len(),
{
    if ps.len() == 0 {
        assert(before[i] + packet_calls(ps) =~= before[i]);
    } else {
        let middle = choose|middle: Seq<Seq<SinkCall>>|
            #![trigger fed(middle, after, ps.last())]
            fed_all(before, middle, ps.drop_last()) && fed(middle, after, ps.last());
        lemma_fed_member(middle, after, ps.last(), i);
        let j = choose|j: int|
            0 <= j < middle.len() && after[i] == (#[trigger] middle[j]).push(
                SinkCall::Packet(ps.last(), true),
            );
        surviving_outputs_get_everything(before, middle, ps.drop_last(), j);
        let k = choose|k: int|
            0 <= k < before.len() && middle[j] == (#[trigger] before[k]) + packet_calls(
                ps.drop_last(),
            );
        assert(after[i] =~= before[k] + packet_calls(ps));
    }
}

/// True if `next` is the book with `n` more records of `message`, where such
/// records are kept.
pub open spec fn reported(book: BookView, next: BookView, message: Seq<char>, n: nat) -> bool {
    book.repeated(next, Level::Warn, "stream::engine"@, message, n)
}

proof fn lemma_reported(a: BookView, b: BookView, c: BookView, message: Seq<char>, m: nat, n: nat)
    requires
        reported(a, b, message, m),
        reported(b, c, message, n),
    ensures
        reported(a, c, message, m + n),
{
    lemma_repeated(a, b, c, Level::Warn, "stream::engine"@, message, m, n);
}

/// Report a failure of an output.
fn report(book: &mut LogBook, message: &str, error: &IoError)
    ensures
        reported(old(book)@, final(book)@, message@, 1),
{
    book.fail(Level::Warn, "stream::engine", message, error.message.as_str());
    assert(old(book)@.records =~= book@.records.subrange(0, old(book)@.records.len() as int));
}

/// Feed one successfully-muxed packet to every output; a failing output is
/// retired (which is reported) rather than allowed to sink the stream.
pub fn feed_outputs<O: PacketSink>(outputs: &mut Vec<O>, pkt: &MediaPacket, book: &mut LogBook)
    ensures
        fed(calls_of(old(outputs)@), calls_of(final(outputs)@), pkt@),
        final(outputs)@.len() <= old(outputs)@.len(),
        reported(
            old(book)@,
            final(book)@,
            "output retired"@,
            (old(outputs)@.len() - final(outputs)@.len()) as nat,
        ),
{
    let ghost all = calls_of(outputs@);
    let ghost mut done: int = 0;
    let mut i: usize = 0;
    assert(all.skip(0) =~= all);
    assert(all.take(0) =~= Seq::<Seq<SinkCall>>::empty());
    assert(calls_of(outputs@).take(0) =~= Seq::<Seq<SinkCall>>::empty());
    while i < outputs.len()
        invariant
            all == calls_of(old(outputs)@),
            0 <= done <= all.len(),
            i <= outputs@.len(),
            outputs@.len() - i == all.len() - done,
            outputs@.len() <= all.len() == old(outputs)@.len(),
            reported(
                old(book)@,
                book@,
                "output retired"@,
                (all.len() - outputs@.len()) as nat,
            ),
            fed(all.take(done), calls_of(outputs@).take(i as int), pkt@),
            calls_of(outputs@).skip(i as int) == all.skip(done),
        decreases outputs@.len() - i,
    {
        let ghost before = calls_of(outputs@);
        assert(before.skip(i as int)[0] == all.skip(done)[0]);
        assert(before[i as int] == all[done]);
        assert(all.take(done + 1).drop_last() =~= all.take(done));
        assert(all.take(done + 1).last() == all[done]);
        let outcome: Result<(), IoError> = outputs[i].packet(pkt);
        if outcome.is_ok() {
            proof {
                let now = calls_of(outputs@);
                assert(now =~= before.update(
                    i as int,
                    before[i as int].push(SinkCall::Packet(pkt@, true)),
                ));
                assert(now.take(i + 1).drop_last() =~= before.take(i as int));
                assert(now.take(i + 1).last() == all[done].push(SinkCall::Packet(pkt@, true)));
                assert(now.skip(i + 1) =~= before.skip(i as int).drop_first());
                assert(all.skip(done + 1) =~= all.skip(done).drop_first());
            }
            i = i + 1;
        } else {
            let _retired: O = outputs.remove(i);
            let ghost book0 = book@;
            if let Err(e) = &outcome {
                report(book, "output retired", e);
            }
            proof {
                lemma_reported(
                    old(book)@,
                    book0,
                    book@,
                    "output retired"@,
                    (all.len() - before.len()) as nat,
                    1,
                );
                let now = calls_of(outputs@);
                assert(now.take(i as int) =~= before.take(i as int));
                assert(now.skip(i as int) =~= before.skip(i as int).drop_first());
                assert(all.skip(done + 1) =~= all.skip(done).drop_first());
            }
        }
        proof {
            done = done + 1;
        }
    }
    assert(all.take(done) =~= all);
    assert(calls_of(outputs@).take(i as int) =~= calls_of(outputs@));
}

/// Feed the first `sent` packets of a batch to every output.
pub fn feed_batch<O: PacketSink>(
    outputs: &mut Vec<O>,
    batch: &Vec<MediaPacket>,
    sent: usize,
    book: &mut LogBook,
)
    requires
        sent <= batch@.len(),
    ensures
        final(outputs)@.len() <= old(outputs)@.len(),
        reported(
            old(book)@,
            final(book)@,
            "output retired"@,
            (old(outputs)@.len() - final(outputs)@.len()) as nat,
        ),
        fed_all(
            calls_of(old(outputs)@),
            calls_of(final(outputs)@),
            packets(batch@).take(sent as int),
        ),
{
    let ghost all = packets(batch@);
    let mut i: usize = 0;
    while i < sent
        invariant
            i <= sent <= batch@.len(),
            all == packets(batch@),
            fed_all(calls_of(old(outputs)@), calls_of(outputs@), all.take(i as int)),
            outputs@.len() <= old(outputs)@.len(),
            reported(
                old(book)@,
                book@,
                "output retired"@,
                (old(outputs)@.len() - outputs@.len()) as nat,
            ),
        decreases sent - i,
    {
        let ghost middle = calls_of(outputs@);
        let ghost book0 = book@;
        let ghost had = outputs@.len();
        feed_outputs(outputs, &batch[i], book);
        proof {
            lemma_reported(
                old(book)@,
                book0,
                book@,
                "output retired"@,
                (old(outputs)@.len() - had) as nat,
                (had - outputs@.len()) as nat,
            );
            let next = all.take(i + 1);
            assert(next.drop_last() =~= all.take(i as int));
            assert(next.last() == batch@[i as int]@);
            assert(fed(middle, calls_of(outputs@), next.last()));
        }
        i = i + 1;
    }
}

/// Tell every output of codec configurations.
pub fn tell_codecs<O: PacketSink>(
    outputs: &mut Vec<O>,
    avcc: Option<&[u8]>,
    asc: Option<&[u8]>,
)
    ensures
        calls_of(final(outputs)@) == told_codecs(
            calls_of(old(outputs)@),
            opt_slice(avcc),
            opt_slice(asc),
        ),
{
    let ghost all = calls_of(outputs@);
    let ghost call = SinkCall::Codecs(opt_slice(avcc), opt_slice(asc));
    let n: usize = outputs.len();
    let mut i: usize = 0;
    while i < n
        invariant
            i <= n == outputs@.len() == all.len(),
            all == calls_of(old(outputs)@),
            call == SinkCall::Codecs(opt_slice(avcc), opt_slice(asc)),
            forall|k: int| 0 <= k < i ==> (#[trigger] outputs@[k]).calls() == all[k].push(call),
            forall|k: int| i <= k < n ==> (#[trigger] outputs@[k]).calls() == all[k],
        decreases n - i,
    {
        outputs[i].codecs(avcc, asc);
        i = i + 1;
    }
    assert(calls_of(outputs@) =~= told_codecs(all, opt_slice(avcc), opt_slice(asc)));
}

/// How many of some outputs failed in their last call, the end.
pub open spec fn unfinished(calls: Seq<Seq<SinkCall>>) -> nat
    decreases calls.len(),
{
    if calls.len() == 0 {
        0
    } else {
        unfinished(calls.drop_last()) + if calls.last().len() > 0 && calls.last().last()
            == SinkCall::Finish(false) {
            1nat
        } else {
            0
        }
    }
}

/// Finalize every output (recordings close their file, HLS writes the end
/// marker); a failing output is reported, not fatal.
pub fn finish_outputs<O: PacketSink>(outputs: &mut Vec<O>, book: &mut LogBook)
    ensures
        reported(
            old(book)@,
            final(book)@,
            "output finish failed"@,
            unfinished(calls_of(final(outputs)@)),
        ),
        finished(calls_of(old(outputs)@), calls_of(final(outputs)@)),
{
    let ghost all = calls_of(outputs@);
    let n: usize = outputs.len();
    let mut i: usize = 0;
    assert(all.take(0) =~= Seq::<Seq<SinkCall>>::empty());
    while i < n
        invariant
            i <= n == outputs@.len() == all.len(),
            all == calls_of(old(outputs)@),
            forall|k: int|
                0 <= k < i ==> {
                    ||| (#[trigger] outputs@[k]).calls() == all[k].push(SinkCall::Finish(true))
                    ||| outputs@[k].calls() == all[k].push(SinkCall::Finish(false))
                },
            forall|k: int| i <= k < n ==> (#[trigger] outputs@[k]).calls() == all[k],
            reported(
                old(book)@,
                book@,
                "output finish failed"@,
                unfinished(calls_of(outputs@).take(i as int)),
            ),
        decreases n - i,
    {
        let ghost before = calls_of(outputs@);
        let ghost book0 = book@;
        let outcome: Result<(), IoError> = outputs[i].finish();
        if let Err(e) = &outcome {
            report(book, "output finish failed", e);
        }
        proof {
            let now = calls_of(outputs@);
            assert(now.take(i + 1).drop_last() =~= before.take(i as int));
            assert(now.take(i + 1).last() == outputs@[i as int].calls());
            if outcome is Err {
                lemma_reported(
                    old(book)@,
                    book0,
                    book@,
                    "output finish failed"@,
                    unfinished(before.take(i as int)),
                    1,
                );
            }
        }
        i = i + 1;
    }
    assert(calls_of(outputs@).take(n as int) =~= calls_of(outputs@));
    assert forall|k: int| 0 <= k < n implies {
        ||| #[trigger] calls_of(outputs@)[k] == all[k].push(SinkCall::Finish(true))
        ||| calls_of(outputs@)[k] == all[k].push(SinkCall::Finish(false))
    } by {
        assert(calls_of(outputs@)[k] == outputs@[k].calls());
    }
}

} // verus!
