//! Laws of the playlist's text.

use vstd::prelude::*;
use vstd::string::*;
use vstd::utf8::encode_utf8;

use crate::hls::mp4::segment_bytes;
use crate::hls::{
    entries, larger, newest, playlist, pruned, retired_segments_are_deleted, target_duration,
    window_size, ConfigView, HlsView, Published,
};
use crate::text::{
    all_digits, decimal, decimals_read_back, number, three_digits, three_digits_read_back,
};

verus! {

/// Lines of text, each with its line end.
pub open spec fn terminated(lines: Seq<Seq<char>>) -> Seq<char>
    decreases lines.len(),
{
    if lines.len() == 0 {
        Seq::empty()
    } else {
        terminated(lines.drop_last()) + lines.last() + "\n"@
    }
}

/// True of a line that is `name` and, behind it, the number `n`.
pub open spec fn tells_number(line: Seq<char>, name: Seq<char>, n: int) -> bool {
    let digits = line.skip(name.len() as int);
    &&& name.is_prefix_of(line)
    &&& digits.len() > 0
    &&& all_digits(digits)
    &&& number(digits) == n
}

/// True of a line that tells a segment's duration in seconds, to the millisecond.
pub open spec fn tells_duration(line: Seq<char>, ms: int) -> bool {
    let n = line.len() as int;
    let seconds = line.subrange(8, n - 5);
    let millis = line.subrange(n - 4, n - 1);
    &&& n >= 14
    &&& line.take(8) == "#EXTINF:"@
    &&& line[n - 5] == '.'
    &&& line[n - 1] == ','
    &&& all_digits(seconds)
    &&& all_digits(millis)
    &&& 1000 * number(seconds) + number(millis) == ms
}

/// True if these are the lines of a playlist that lists these segments.
pub open spec fn lists(
    lines: Seq<Seq<char>>,
    cfg: ConfigView,
    target: int,
    first: int,
    window: Seq<(Seq<char>, u64)>,
    finished: bool,
) -> bool {
    let n = window.len() as int;
    &&& lines.len() == 6 + 2 * n + if finished {
        1int
    } else {
        0
    }
    &&& lines[0] == "#EXTM3U"@
    &&& lines[1] == "#EXT-X-VERSION:7"@
    &&& tells_number(lines[2], "#EXT-X-TARGETDURATION:"@, target)
    &&& tells_number(lines[3], "#EXT-X-MEDIA-SEQUENCE:"@, first)
    &&& lines[4] == "#EXT-X-INDEPENDENT-SEGMENTS"@
    &&& lines[5] == "#EXT-X-MAP:URI=\""@ + cfg.init_name + "\""@
    &&& forall|i: int|
        0 <= i < n ==> tells_duration(lines[6 + 2 * i], (#[trigger] window[i]).1 as int) && lines[7
            + 2 * i] == window[i].0
    &&& finished ==> lines[6 + 2 * n] == "#EXT-X-ENDLIST"@
}

spec fn entry_line(ms: u64) -> Seq<char> {
    "#EXTINF:"@ + decimal((ms / 1000) as nat) + "."@ + three_digits((ms % 1000) as int) + ","@
}

spec fn entry_lines(window: Seq<(Seq<char>, u64)>) -> Seq<Seq<char>>
    decreases window.len(),
{
    if window.len() == 0 {
        Seq::empty()
    } else {
        entry_lines(window.drop_last()).push(entry_line(window.last().1)).push(window.last().0)
    }
}

proof fn lemma_entry_line(ms: u64)
    ensures
        tells_duration(entry_line(ms), ms as int),
{
    reveal_strlit("#EXTINF:");
    reveal_strlit(".");
    reveal_strlit(",");
    let line = entry_line(ms);
    let a = decimal((ms / 1000) as nat);
    let b = three_digits((ms % 1000) as int);
    decimals_read_back((ms / 1000) as nat);
    three_digits_read_back((ms % 1000) as int);
    let n = line.len() as int;
    assert(n == 8 + a.len() + 5);
    assert(line.take(8) =~= "#EXTINF:"@);
    assert(line.subrange(8, n - 5) =~= a);
    assert(line.subrange(n - 4, n - 1) =~= b);
}

proof fn lemma_entry_lines(window: Seq<(Seq<char>, u64)>)
    ensures
        entry_lines(window).len() == 2 * window.len(),
        forall|i: int|
            0 <= i < window.len() ==> entry_lines(window)[2 * i] == entry_line(
                (#[trigger] window[i]).1,
            ) && entry_lines(window)[2 * i + 1] == window[i].0,
    decreases window.len(),
{
    if window.len() > 0 {
        let rest = window.drop_last();
        lemma_entry_lines(rest);
        assert forall|i: int| 0 <= i < window.len() implies entry_lines(window)[2 * i]
            == entry_line((#[trigger] window[i]).1) && entry_lines(window)[2 * i + 1]
            == window[i].0 by {
            if i < rest.len() {
                assert(rest[i] == window[i]);
            }
        }
    }
}

proof fn lemma_terminated(lines: Seq<Seq<char>>, line: Seq<char>)
    ensures
        terminated(lines.push(line)) == terminated(lines) + line + "\n"@,
{
    assert(lines.push(line).drop_last() =~= lines);
}

/// The lines of the entries make the entries, behind any others.
#[verifier::rlimit(40)]
proof fn lemma_entries(head: Seq<Seq<char>>, window: Seq<(Seq<char>, u64)>)
    ensures
        terminated(head + entry_lines(window)) == terminated(head) + entries(window),
    decreases window.len(),
{
    if window.len() == 0 {
        assert(head + entry_lines(window) =~= head);
        assert(terminated(head) + entries(window) =~= terminated(head));
    } else {
        let rest = window.drop_last();
        let line = entry_line(window.last().1);
        let name = window.last().0;
        let lines = head + entry_lines(rest);
        lemma_entries(head, rest);
        assert(head + entry_lines(window) =~= lines.push(line).push(name));
        lemma_terminated(lines, line);
        lemma_terminated(lines.push(line), name);
        reveal_strlit(",");
        reveal_strlit("\n");
        reveal_strlit(",\n");
        assert(","@ + "\n"@ =~= ",\n"@);
        let a = "#EXTINF:"@ + decimal((window.last().1 / 1000) as nat) + "."@ + three_digits(
            (window.last().1 % 1000) as int,
        );
        assert(terminated(head + entry_lines(window)) == terminated(head) + entries(rest) + (a
            + ","@) + "\n"@ + name + "\n"@);
        assert(terminated(head + entry_lines(window)) =~= terminated(head) + entries(window));
    }
}

proof fn lemma_number_line(name: Seq<char>, n: nat)
    ensures
        tells_number(name + decimal(n), name, n as int),
{
    decimals_read_back(n);
    assert((name + decimal(n)).skip(name.len() as int) =~= decimal(n));
}

/// A playlist is lines of text. It tells the target duration and the number of
/// the first segment that is listed, then, segment by segment in order, how long
/// each lasts and under which name it is stored; its last line says that the
/// stream is over, and only if it is.
pub proof fn playlists_list_their_segments(cfg: ConfigView, v: HlsView, finished: bool)
    requires
        v.window.len() <= v.sequence,
    ensures
        exists|lines: Seq<Seq<char>>|
            #[trigger] terminated(lines) == playlist(cfg, v, finished) && lists(
                lines,
                cfg,
                target_duration(cfg, v.longest),
                v.sequence - v.window.len(),
                v.window,
                finished,
            ),
{
    let target = target_duration(cfg, v.longest);
    let first = v.sequence - v.window.len();
    let a = "#EXT-X-TARGETDURATION:"@ + decimal(target as nat);
    let b = "#EXT-X-MEDIA-SEQUENCE:"@ + decimal(first as nat);
    let m = "#EXT-X-MAP:URI=\""@ + cfg.init_name + "\""@;
    let h1 = Seq::<Seq<char>>::empty().push("#EXTM3U"@);
    let h2 = h1.push("#EXT-X-VERSION:7"@);
    let h3 = h2.push(a);
    let h4 = h3.push(b);
    let h5 = h4.push("#EXT-X-INDEPENDENT-SEGMENTS"@);
    let head = h5.push(m);
    let body = head + entry_lines(v.window);
    let lines = if finished {
        body.push("#EXT-X-ENDLIST"@)
    } else {
        body
    };
    lemma_terminated(Seq::empty(), "#EXTM3U"@);
    lemma_terminated(h1, "#EXT-X-VERSION:7"@);
    lemma_terminated(h2, a);
    lemma_terminated(h3, b);
    lemma_terminated(h4, "#EXT-X-INDEPENDENT-SEGMENTS"@);
    lemma_terminated(h5, m);
    lemma_entries(head, v.window);
    lemma_terminated(body, "#EXT-X-ENDLIST"@);
    lemma_number_line("#EXT-X-TARGETDURATION:"@, target as nat);
    lemma_number_line("#EXT-X-MEDIA-SEQUENCE:"@, first as nat);
    lemma_entry_lines(v.window);
    assert forall|i: int| 0 <= i < v.window.len() implies tells_duration(
        lines[6 + 2 * i],
        (#[trigger] v.window[i]).1 as int,
    ) && lines[7 + 2 * i] == v.window[i].0 by {
        lemma_entry_line(v.window[i].1);
        assert(body[6 + 2 * i] == entry_lines(v.window)[2 * i]);
        assert(body[6 + (2 * i + 1)] == entry_lines(v.window)[2 * i + 1]);
    }
    assert(lists(lines, cfg, target, first, v.window, finished));
    lemma_head_text(a, b, cfg.init_name, terminated(head));
    lemma_playlist(cfg, v, finished, terminated(head));
    if finished {
        let end = "#EXT-X-ENDLIST"@;
        reveal_strlit("#EXT-X-ENDLIST");
        reveal_strlit("\n");
        reveal_strlit("#EXT-X-ENDLIST\n");
        assert(terminated(head) + entries(v.window) + end + "\n"@ =~= terminated(head) + entries(
            v.window,
        ) + "#EXT-X-ENDLIST\n"@);
    } else {
        assert(terminated(head) + entries(v.window) + Seq::<char>::empty() =~= terminated(head)
            + entries(v.window));
    }
    assert(terminated(lines) == playlist(cfg, v, finished));
}

/// The lines at the top, as text.
spec fn head_text(a: Seq<char>, b: Seq<char>, init: Seq<char>) -> Seq<char> {
    "#EXTM3U\n"@ + "#EXT-X-VERSION:7\n"@ + a + "\n"@ + b + "\n"@
        + "#EXT-X-INDEPENDENT-SEGMENTS\n"@ + "#EXT-X-MAP:URI=\""@ + init + "\"\n"@
}

proof fn lemma_head_text(a: Seq<char>, b: Seq<char>, init: Seq<char>, text: Seq<char>)
    requires
        text == Seq::<char>::empty() + "#EXTM3U"@ + "\n"@ + "#EXT-X-VERSION:7"@ + "\n"@ + a + "\n"@
            + b + "\n"@ + "#EXT-X-INDEPENDENT-SEGMENTS"@ + "\n"@ + ("#EXT-X-MAP:URI=\""@ + init
            + "\""@) + "\n"@,
    ensures
        text == head_text(a, b, init),
{
    lemma_line_ends();
    let n = "\n"@;
    let x = "#EXTM3U"@;
    let y = "#EXT-X-VERSION:7"@;
    let z = "#EXT-X-INDEPENDENT-SEGMENTS"@;
    let w = "#EXT-X-MAP:URI=\""@;
    let q = "\""@;
    assert(Seq::<char>::empty() + x + n =~= x + n);
    lemma_seam(x + n, y, n);
    let top = x + n + y + n + a + n + b + n;
    lemma_seam(top, z, n);
    lemma_seam(top + z + n, w + init, q + n);
    lemma_seam(top + z + n, w, init);
    assert(top + z + n + (w + init + q) + n =~= top + z + n + (w + init) + (q + n));
}

proof fn lemma_seam(a: Seq<char>, b: Seq<char>, c: Seq<char>)
    ensures
        a + b + c == a + (b + c),
{
    assert(a + b + c =~= a + (b + c));
}

proof fn lemma_line_ends()
    ensures
        "#EXTM3U"@ + "\n"@ == "#EXTM3U\n"@,
        "#EXT-X-VERSION:7"@ + "\n"@ == "#EXT-X-VERSION:7\n"@,
        "#EXT-X-INDEPENDENT-SEGMENTS"@ + "\n"@ == "#EXT-X-INDEPENDENT-SEGMENTS\n"@,
        "\""@ + "\n"@ == "\"\n"@,
{
    reveal_strlit("\n");
    reveal_strlit("\"");
    reveal_strlit("\"\n");
    reveal_strlit("#EXTM3U");
    reveal_strlit("#EXTM3U\n");
    reveal_strlit("#EXT-X-VERSION:7");
    reveal_strlit("#EXT-X-VERSION:7\n");
    reveal_strlit("#EXT-X-INDEPENDENT-SEGMENTS");
    reveal_strlit("#EXT-X-INDEPENDENT-SEGMENTS\n");
    assert("#EXTM3U"@ + "\n"@ =~= "#EXTM3U\n"@);
    assert("#EXT-X-VERSION:7"@ + "\n"@ =~= "#EXT-X-VERSION:7\n"@);
    assert("#EXT-X-INDEPENDENT-SEGMENTS"@ + "\n"@ =~= "#EXT-X-INDEPENDENT-SEGMENTS\n"@);
    assert("\""@ + "\n"@ =~= "\"\n"@);
}

proof fn lemma_playlist(cfg: ConfigView, v: HlsView, finished: bool, head: Seq<char>)
    requires
        v.window.len() <= v.sequence,
        head == head_text(
            "#EXT-X-TARGETDURATION:"@ + decimal(target_duration(cfg, v.longest) as nat),
            "#EXT-X-MEDIA-SEQUENCE:"@ + decimal((v.sequence - v.window.len()) as nat),
            cfg.init_name,
        ),
    ensures
        playlist(cfg, v, finished) == head + entries(v.window) + (if finished {
            "#EXT-X-ENDLIST\n"@
        } else {
            Seq::empty()
        }),
{
    reveal(playlist);
    let top = "#EXTM3U\n"@ + "#EXT-X-VERSION:7\n"@;
    let n = "\n"@;
    let a = "#EXT-X-TARGETDURATION:"@;
    let da = decimal(target_duration(cfg, v.longest) as nat);
    let b = "#EXT-X-MEDIA-SEQUENCE:"@;
    let db = decimal((v.sequence - v.window.len()) as nat);
    lemma_seam(top, a, da);
    lemma_seam(top + a + da + n, b, db);
}

/// The target duration that is announced is no more than is needed: where it
/// exceeds the one that was asked for, and one second, the longest segment is
/// longer than a second less.
pub proof fn announced_targets_are_tight(cfg: ConfigView, longest: u64)
    ensures
        target_duration(cfg, longest) >= larger(cfg.target as int, 1),
        target_duration(cfg, longest) > larger(cfg.target as int, 1) ==> 1000 * (target_duration(
            cfg,
            longest,
        ) - 1) < longest,
{
}

/// True if the playlist that is stored lists the segments of the window.
pub open spec fn stored_playlist(s: Published, cfg: ConfigView, finished: bool) -> bool {
    &&& s.files.contains_key(cfg.playlist_name)
    &&& exists|lines: Seq<Seq<char>>|
        s.files[cfg.playlist_name] == encode_utf8(#[trigger] terminated(lines)) && lists(
            lines,
            cfg,
            target_duration(cfg, s.view.longest),
            s.view.sequence - s.view.window.len(),
            s.view.window,
            finished,
        )
}

proof fn lemma_stored(s: Published, cfg: ConfigView, finished: bool)
    requires
        s.view.window.len() <= s.view.sequence,
    ensures
        stored_playlist(s.listed(cfg, finished), cfg, finished),
{
    playlists_list_their_segments(cfg, s.view, finished);
}

/// A playlist is stored with every segment that is closed, and says that the
/// stream goes on; the one that is stored at the end says that it is over.
pub proof fn playlists_follow_the_stream(s: Published, cfg: ConfigView)
    requires
        s.view.window.len() <= s.view.sequence < u32::MAX,
    ensures
        stored_playlist(s.rolled(cfg), cfg, false),
        s.rolled(cfg).view.sequence == s.view.sequence + 1,
        !s.view.finished ==> (s.ended(cfg) matches Some(end) ==> stored_playlist(end, cfg, true)
            && end.view.finished),
{
    lemma_rolled(s, cfg);
    let last = Published { view: HlsView { finished: true, ..s.view }, ..s };
    lemma_rolled(last, cfg);
    if !s.view.finished {
        if let Some(c) = last.closed(cfg) {
            lemma_stored(c, cfg, true);
        }
    }
}

proof fn lemma_rolled(s: Published, cfg: ConfigView)
    requires
        s.view.window.len() <= s.view.sequence < u32::MAX,
    ensures
        stored_playlist(s.rolled(cfg), cfg, false),
        s.rolled(cfg).view.sequence == s.view.sequence + 1,
        s.rolled(cfg).view.window.len() <= s.rolled(cfg).view.sequence,
        s.rolled(cfg).view.finished == s.view.finished,
{
    let ready = s.initialized(cfg);
    let sealed = ready.view.sealed(cfg);
    let next = Published {
        view: HlsView { window: newest(sealed.window, window_size(cfg)), ..sealed },
        files: pruned(
            sealed.window,
            ready.files.insert(
                ready.view.segment_name(cfg),
                segment_bytes(ready.view.sequence, ready.view.fragments()),
            ),
            window_size(cfg),
        ),
    };
    assert(s.rolled(cfg) == next.listed(cfg, false));
    lemma_stored(next, cfg, false);
}

/// A segment that is closed is stored under the name that the playlist lists last,
/// as the fragments of what it holds; its number goes into it. (The name is not
/// one that is in use.)
pub proof fn closed_segments_are_stored(s: Published, cfg: ConfigView)
    requires
        s.view.init,
        s.view.segment_name(cfg) != cfg.playlist_name,
        forall|i: int|
            0 <= i < s.view.window.len() ==> (#[trigger] s.view.window[i]).0
                != s.view.segment_name(cfg),
    ensures
        ({
            let after = s.rolled(cfg);
            let name = after.view.window.last().0;
            &&& after.files.contains_key(name)
            &&& after.files[name] == segment_bytes(s.view.sequence, s.view.fragments())
        }),
{
    let name = s.view.segment_name(cfg);
    let bytes = segment_bytes(s.view.sequence, s.view.fragments());
    let window = s.view.window.push((name, s.view.duration()));
    let files = s.files.insert(name, bytes);
    let keep = window_size(cfg);
    assert(s.view.sealed(cfg).window == window);
    assert forall|i: int| 0 <= i < window.len() - keep implies (#[trigger] window[i]).0 != name by {
        assert(window[i] == s.view.window[i]);
    }
    retired_segments_are_deleted(window, files, keep, name);
    assert(newest(window, keep).last() == window.last());
}

} // verus!
