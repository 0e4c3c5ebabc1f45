//! fMP4 (CMAF-style) boxes: the initialization segment (`ftyp` + `moov`) and
//! media segments (`styp` + `moof` + `mdat`).

use vstd::prelude::*;

use crate::bytes;
use crate::bytes::{be16, be24, be32, zeros};

verus! {

/// Ticks per second of the video track.
pub const VIDEO_TIMESCALE: u32 = 90_000;

/// Track id of video.
pub const VIDEO_TRACK_ID: u32 = 1;

/// Track id of audio.
pub const AUDIO_TRACK_ID: u32 = 2;

/// `ftyp`
pub const FTYP: u32 = 0x66747970;

/// `styp`
pub const STYP: u32 = 0x73747970;

/// `moov`
pub const MOOV: u32 = 0x6D6F6F76;

/// `mvhd`
pub const MVHD: u32 = 0x6D766864;

/// `trak`
pub const TRAK: u32 = 0x7472616B;

/// `tkhd`
pub const TKHD: u32 = 0x746B6864;

/// `mdia`
pub const MDIA: u32 = 0x6D646961;

/// `mdhd`
pub const MDHD: u32 = 0x6D646864;

/// `hdlr`
pub const HDLR: u32 = 0x68646C72;

/// `minf`
pub const MINF: u32 = 0x6D696E66;

/// `vmhd`
pub const VMHD: u32 = 0x766D6864;

/// `smhd`
pub const SMHD: u32 = 0x736D6864;

/// `dinf`
pub const DINF: u32 = 0x64696E66;

/// `dref`
pub const DREF: u32 = 0x64726566;

/// `url `
pub const URL: u32 = 0x75726C20;

/// `stbl`
pub const STBL: u32 = 0x7374626C;

/// `stsd`
pub const STSD: u32 = 0x73747364;

/// `stts`
pub const STTS: u32 = 0x73747473;

/// `stsc`
pub const STSC: u32 = 0x73747363;

/// `stsz`
pub const STSZ: u32 = 0x7374737A;

/// `stco`
pub const STCO: u32 = 0x7374636F;

/// `avc1`
pub const AVC1: u32 = 0x61766331;

/// `avcC`
pub const AVCC: u32 = 0x61766343;

/// `mp4a`
pub const MP4A: u32 = 0x6D703461;

/// `esds`
pub const ESDS: u32 = 0x65736473;

/// `mvex`
pub const MVEX: u32 = 0x6D766578;

/// `trex`
pub const TREX: u32 = 0x74726578;

/// `moof`
pub const MOOF: u32 = 0x6D6F6F66;

/// `mfhd`
pub const MFHD: u32 = 0x6D666864;

/// `traf`
pub const TRAF: u32 = 0x74726166;

/// `tfhd`
pub const TFHD: u32 = 0x74666864;

/// `tfdt`
pub const TFDT: u32 = 0x74666474;

/// `trun`
pub const TRUN: u32 = 0x7472756E;

/// `mdat`
pub const MDAT: u32 = 0x6D646174;

/// `vide`
pub const VIDE: u32 = 0x76696465;

/// `soun`
pub const SOUN: u32 = 0x736F756E;

/// `iso6`
pub const ISO6: u32 = 0x69736F36;

/// `cmfc`
pub const CMFC: u32 = 0x636D6663;

/// `mp41`
pub const MP41: u32 = 0x6D703431;

/// `msdh`
pub const MSDH: u32 = 0x6D736468;

/// `msix`
pub const MSIX: u32 = 0x6D736978;

// ---------------------------------------------------------------------------
// Boxes
// ---------------------------------------------------------------------------

/// A box: its length, its type and what it holds.
pub open spec fn mp4_box(kind: u32, payload: Seq<u8>) -> Seq<u8> {
    be32(8 + payload.len() as int) + be32(kind as int) + payload
}

/// A box with a version and flags.
pub open spec fn full_box(kind: u32, version: u8, flags: u32, payload: Seq<u8>) -> Seq<u8> {
    mp4_box(kind, seq![version] + be24(flags as int) + payload)
}

/// A box around `payload`.
fn boxed(kind: u32, payload: &[u8]) -> (out: Vec<u8>)
    ensures
        out@ == mp4_box(kind, payload@),
{
    let mut out: Vec<u8> = Vec::new();
    bytes::append_low32(&mut out, 8 + payload.len() as u128);
    assert(out@ =~= be32(8 + payload@.len() as int));
    bytes::append_be32(&mut out, kind);
    bytes::append(&mut out, payload);
    out
}

/// A box with a version and flags around `payload`.
fn full_boxed(kind: u32, version: u8, flags: u32, payload: &[u8]) -> (out: Vec<u8>)
    ensures
        out@ == full_box(kind, version, flags, payload@),
{
    let mut inner: Vec<u8> = Vec::new();
    inner.push(version);
    assert(inner@ =~= seq![version]);
    bytes::append_be24(&mut inner, flags);
    bytes::append(&mut inner, payload);
    boxed(kind, inner.as_slice())
}

// ---------------------------------------------------------------------------
// The initialization segment
// ---------------------------------------------------------------------------

/// What the file conforms to.
pub open spec fn ftyp() -> Seq<u8> {
    mp4_box(
        FTYP,
        be32(ISO6 as int) + be32(0) + be32(ISO6 as int) + be32(CMFC as int) + be32(MP41 as int),
    )
}

fn build_ftyp() -> (out: Vec<u8>)
    ensures
        out@ == ftyp(),
{
    let mut inner: Vec<u8> = Vec::new();
    bytes::append_be32(&mut inner, ISO6);
    assert(inner@ =~= be32(ISO6 as int));
    bytes::append_be32(&mut inner, 0);
    bytes::append_be32(&mut inner, ISO6);
    bytes::append_be32(&mut inner, CMFC);
    bytes::append_be32(&mut inner, MP41);
    boxed(FTYP, inner.as_slice())
}

/// What a segment conforms to.
pub open spec fn styp() -> Seq<u8> {
    mp4_box(STYP, be32(MSDH as int) + be32(0 as int) + be32(MSDH as int) + be32(MSIX as int))
}

fn build_styp() -> (out: Vec<u8>)
    ensures
        out@ == styp(),
{
    let mut inner: Vec<u8> = Vec::new();
    bytes::append_be32(&mut inner, MSDH);
    assert(inner@ =~= be32(MSDH as int));
    bytes::append_be32(&mut inner, 0);
    bytes::append_be32(&mut inner, MSDH);
    bytes::append_be32(&mut inner, MSIX);
    boxed(STYP, inner.as_slice())
}

/// The identity transformation.
pub open spec fn unity_matrix() -> Seq<u8> {
    be32(0x0001_0000) + zeros(12) + be32(0x0001_0000) + zeros(12) + be32(0x4000_0000)
}

fn build_unity_matrix() -> (out: Vec<u8>)
    ensures
        out@ == unity_matrix(),
{
    let mut inner: Vec<u8> = Vec::new();
    bytes::append_be32(&mut inner, 0x0001_0000);
    assert(inner@ =~= be32(0x0001_0000 as int));
    bytes::append_zeros(&mut inner, 12);
    bytes::append_be32(&mut inner, 0x0001_0000);
    bytes::append_zeros(&mut inner, 12);
    bytes::append_be32(&mut inner, 0x4000_0000);
    inner
}

/// The movie header: milliseconds, no duration.
pub open spec fn mvhd() -> Seq<u8> {
    full_box(
        MVHD,
        0,
        0,
        zeros(8) + be32(1000) + be32(0) + be32(0x0001_0000) + be16(0x0100) + zeros(10)
            + unity_matrix() + zeros(24) + be32(3),
    )
}

fn build_mvhd() -> (out: Vec<u8>)
    ensures
        out@ == mvhd(),
{
    let mut inner: Vec<u8> = Vec::new();
    bytes::append_zeros(&mut inner, 8);
    assert(inner@ =~= zeros(8));
    bytes::append_be32(&mut inner, 1000);
    bytes::append_be32(&mut inner, 0);
    bytes::append_be32(&mut inner, 0x0001_0000);
    bytes::append_be16(&mut inner, 0x0100);
    bytes::append_zeros(&mut inner, 10);
    bytes::append(&mut inner, build_unity_matrix().as_slice());
    bytes::append_zeros(&mut inner, 24);
    bytes::append_be32(&mut inner, 3);
    full_boxed(MVHD, 0, 0, inner.as_slice())
}

/// A track header.
pub open spec fn tkhd(track_id: u32, volume: u16, width: u32, height: u32) -> Seq<u8> {
    full_box(
        TKHD,
        0,
        7,
        zeros(8) + be32(track_id as int) + zeros(20) + be16(volume as int) + zeros(2)
            + unity_matrix() + be32(width * 0x1_0000) + be32(height * 0x1_0000),
    )
}

fn build_tkhd(track_id: u32, volume: u16, width: u32, height: u32) -> (out: Vec<u8>)
    ensures
        out@ == tkhd(track_id, volume, width, height),
{
    let mut inner: Vec<u8> = Vec::new();
    bytes::append_zeros(&mut inner, 8);
    assert(inner@ =~= zeros(8));
    bytes::append_be32(&mut inner, track_id);
    bytes::append_zeros(&mut inner, 20);
    bytes::append_be16(&mut inner, volume);
    bytes::append_zeros(&mut inner, 2);
    bytes::append(&mut inner, build_unity_matrix().as_slice());
    bytes::append_low32(&mut inner, width as u128 * 0x1_0000);
    bytes::append_low32(&mut inner, height as u128 * 0x1_0000);
    full_boxed(TKHD, 0, 7, inner.as_slice())
}

/// A media header: the timescale, undetermined language.
pub open spec fn mdhd(timescale: u32) -> Seq<u8> {
    full_box(
        MDHD,
        0,
        0,
        zeros(8) + be32(timescale as int) + be32(0) + be16(0x55C4) + be16(0),
    )
}

fn build_mdhd(timescale: u32) -> (out: Vec<u8>)
    ensures
        out@ == mdhd(timescale),
{
    let mut inner: Vec<u8> = Vec::new();
    bytes::append_zeros(&mut inner, 8);
    assert(inner@ =~= zeros(8));
    bytes::append_be32(&mut inner, timescale);
    bytes::append_be32(&mut inner, 0);
    bytes::append_be16(&mut inner, 0x55C4);
    bytes::append_be16(&mut inner, 0);
    full_boxed(MDHD, 0, 0, inner.as_slice())
}

/// What kind of track it is.
pub open spec fn hdlr(handler: u32) -> Seq<u8> {
    full_box(HDLR, 0, 0, zeros(4) + be32(handler as int) + zeros(13))
}

fn build_hdlr(handler: u32) -> (out: Vec<u8>)
    ensures
        out@ == hdlr(handler),
{
    let mut inner: Vec<u8> = Vec::new();
    bytes::append_zeros(&mut inner, 4);
    assert(inner@ =~= zeros(4));
    bytes::append_be32(&mut inner, handler);
    bytes::append_zeros(&mut inner, 13);
    full_boxed(HDLR, 0, 0, inner.as_slice())
}

/// Where the media is: in this file.
pub open spec fn dinf() -> Seq<u8> {
    mp4_box(DINF, full_box(DREF, 0, 0, be32(1) + full_box(URL, 0, 1, Seq::empty())))
}

fn build_dinf() -> (out: Vec<u8>)
    ensures
        out@ == dinf(),
{
    let mut inner: Vec<u8> = Vec::new();
    bytes::append(&mut inner, build_dref().as_slice());
    assert(inner@ =~= full_box(DREF, 0, 0, be32(1) + full_box(URL, 0, 1, Seq::empty())));
    boxed(DINF, inner.as_slice())
}

fn build_dref() -> (out: Vec<u8>)
    ensures
        out@ == full_box(DREF, 0, 0, be32(1) + full_box(URL, 0, 1, Seq::empty())),
{
    let none: Vec<u8> = Vec::new();
    let entry: Vec<u8> = full_boxed(URL, 0, 1, none.as_slice());
    assert(none@ =~= Seq::<u8>::empty());
    let mut inner: Vec<u8> = Vec::new();
    bytes::append_be32(&mut inner, 1);
    assert(inner@ =~= be32(1));
    bytes::append(&mut inner, entry.as_slice());
    full_boxed(DREF, 0, 0, inner.as_slice())
}

/// A table without entries.
pub open spec fn empty_table(kind: u32) -> Seq<u8> {
    full_box(kind, 0, 0, zeros(4))
}

fn build_empty_table(kind: u32) -> (out: Vec<u8>)
    ensures
        out@ == empty_table(kind),
{
    let mut inner: Vec<u8> = Vec::new();
    bytes::append_zeros(&mut inner, 4);
    assert(inner@ =~= zeros(4));
    full_boxed(kind, 0, 0, inner.as_slice())
}

/// Sample sizes: none.
pub open spec fn stsz() -> Seq<u8> {
    full_box(STSZ, 0, 0, zeros(8))
}

fn build_stsz() -> (out: Vec<u8>)
    ensures
        out@ == stsz(),
{
    let mut inner: Vec<u8> = Vec::new();
    bytes::append_zeros(&mut inner, 8);
    assert(inner@ =~= zeros(8));
    full_boxed(STSZ, 0, 0, inner.as_slice())
}

/// The sample table: one description, no samples.
pub open spec fn stbl(entry: Seq<u8>) -> Seq<u8> {
    mp4_box(STBL, stsd(entry) + empty_table(STTS) + empty_table(STSC) + stsz() + empty_table(STCO))
}

fn build_stbl(entry: &[u8]) -> (out: Vec<u8>)
    ensures
        out@ == stbl(entry@),
{
    let mut inner: Vec<u8> = Vec::new();
    bytes::append(&mut inner, build_stsd(entry).as_slice());
    assert(inner@ =~= stsd(entry@));
    bytes::append(&mut inner, build_empty_table(STTS).as_slice());
    bytes::append(&mut inner, build_empty_table(STSC).as_slice());
    bytes::append(&mut inner, build_stsz().as_slice());
    bytes::append(&mut inner, build_empty_table(STCO).as_slice());
    boxed(STBL, inner.as_slice())
}

/// The sample descriptions: one.
pub open spec fn stsd(entry: Seq<u8>) -> Seq<u8> {
    full_box(STSD, 0, 0, be32(1 as int) + entry)
}

fn build_stsd(entry: &[u8]) -> (out: Vec<u8>)
    ensures
        out@ == stsd(entry@),
{
    let mut inner: Vec<u8> = Vec::new();
    bytes::append_be32(&mut inner, 1);
    assert(inner@ =~= be32(1 as int));
    bytes::append(&mut inner, entry);
    full_boxed(STSD, 0, 0, inner.as_slice())
}

/// How H.264 is decoded.
pub open spec fn avc1(avcc: Seq<u8>, width: u32, height: u32) -> Seq<u8> {
    mp4_box(
        AVC1,
        zeros(6) + be16(1) + zeros(16) + low16(width) + low16(height) + be32(0x0048_0000) + be32(
            0x0048_0000,
        ) + zeros(4) + be16(1) + zeros(32) + be16(0x0018) + be16(0xFFFF) + mp4_box(AVCC, avcc),
    )
}

fn build_avc1(avcc: &[u8], width: u32, height: u32) -> (out: Vec<u8>)
    ensures
        out@ == avc1(avcc@, width, height),
{
    let mut inner: Vec<u8> = Vec::new();
    bytes::append_zeros(&mut inner, 6);
    assert(inner@ =~= zeros(6));
    bytes::append_be16(&mut inner, 1);
    bytes::append_zeros(&mut inner, 16);
    bytes::append(&mut inner, build_low16(width).as_slice());
    bytes::append(&mut inner, build_low16(height).as_slice());
    bytes::append_be32(&mut inner, 0x0048_0000);
    bytes::append_be32(&mut inner, 0x0048_0000);
    bytes::append_zeros(&mut inner, 4);
    bytes::append_be16(&mut inner, 1);
    bytes::append_zeros(&mut inner, 32);
    bytes::append_be16(&mut inner, 0x0018);
    bytes::append_be16(&mut inner, 0xFFFF);
    bytes::append(&mut inner, boxed(AVCC, avcc).as_slice());
    boxed(AVC1, inner.as_slice())
}

/// The low 16 bits of a number.
pub open spec fn low16(x: u32) -> Seq<u8> {
    be16((x % 0x1_0000) as int)
}

fn build_low16(x: u32) -> (out: Vec<u8>)
    ensures
        out@ == low16(x),
{
    let mut out: Vec<u8> = Vec::new();
    bytes::append_be16(&mut out, (x % 0x1_0000) as u16);
    assert(out@ =~= low16(x));
    out
}

/// An MPEG-4 descriptor: tag, length in four groups of seven bits, contents.
pub open spec fn descriptor(tag: u8, body: Seq<u8>) -> Seq<u8> {
    let n = body.len() as int;
    seq![
        tag,
        (0x80 + n / 0x20_0000 % 0x80) as u8,
        (0x80 + n / 0x4000 % 0x80) as u8,
        (0x80 + n / 0x80 % 0x80) as u8,
        (n % 0x80) as u8,
    ] + body
}

fn build_descriptor(tag: u8, body: &[u8]) -> (out: Vec<u8>)
    ensures
        out@ == descriptor(tag, body@),
{
    let n: usize = body.len();
    let mut out: Vec<u8> = Vec::new();
    out.push(tag);
    out.push((0x80 + n / 0x20_0000 % 0x80) as u8);
    out.push((0x80 + n / 0x4000 % 0x80) as u8);
    out.push((0x80 + n / 0x80 % 0x80) as u8);
    out.push((n % 0x80) as u8);
    bytes::append(&mut out, body);
    assert(out@ =~= descriptor(tag, body@));
    out
}

/// How AAC is decoded: MPEG-4 audio, bitrate, and the configuration.
pub open spec fn decoder_config(asc: Seq<u8>, bitrate: u32) -> Seq<u8> {
    seq![0x40u8] + seq![0x15u8] + zeros(3) + be32(bitrate as int) + be32(bitrate as int)
        + descriptor(0x05, asc)
}

fn build_decoder_config(asc: &[u8], bitrate: u32) -> (out: Vec<u8>)
    ensures
        out@ == decoder_config(asc@, bitrate),
{
    let mut inner: Vec<u8> = Vec::new();
    inner.push(0x40u8);
    assert(inner@ =~= seq![0x40u8]);
    inner.push(0x15u8);
    bytes::append_zeros(&mut inner, 3);
    bytes::append_be32(&mut inner, bitrate);
    bytes::append_be32(&mut inner, bitrate);
    bytes::append(&mut inner, build_descriptor(0x05, asc).as_slice());
    inner
}

/// The elementary stream: id, decoder configuration, predefined sync layer.
pub open spec fn es_descriptor(asc: Seq<u8>, bitrate: u32) -> Seq<u8> {
    zeros(3) + descriptor(0x04, decoder_config(asc, bitrate)) + descriptor(0x06, seq![2u8])
}

fn build_es_descriptor(asc: &[u8], bitrate: u32) -> (out: Vec<u8>)
    ensures
        out@ == es_descriptor(asc@, bitrate),
{
    let mut inner: Vec<u8> = Vec::new();
    bytes::append_zeros(&mut inner, 3);
    assert(inner@ =~= zeros(3));
    bytes::append(
        &mut inner,
        build_descriptor(0x04, build_decoder_config(asc, bitrate).as_slice()).as_slice(),
    );
    bytes::append(&mut inner, build_sync_layer().as_slice());
    inner
}

fn build_sync_layer() -> (out: Vec<u8>)
    ensures
        out@ == descriptor(0x06, seq![2u8]),
{
    let mut body: Vec<u8> = Vec::new();
    body.push(2);
    assert(body@ =~= seq![2u8]);
    build_descriptor(0x06, body.as_slice())
}

/// The elementary stream box.
pub open spec fn esds(asc: Seq<u8>, bitrate: u32) -> Seq<u8> {
    full_box(ESDS, 0, 0, descriptor(0x03, es_descriptor(asc, bitrate)))
}

fn build_esds(asc: &[u8], bitrate: u32) -> (out: Vec<u8>)
    ensures
        out@ == esds(asc@, bitrate),
{
    let mut inner: Vec<u8> = Vec::new();
    bytes::append(
        &mut inner,
        build_descriptor(0x03, build_es_descriptor(asc, bitrate).as_slice()).as_slice(),
    );
    assert(inner@ =~= descriptor(0x03, es_descriptor(asc@, bitrate)));
    full_boxed(ESDS, 0, 0, inner.as_slice())
}

/// How AAC samples look.
pub open spec fn mp4a(asc: Seq<u8>, rate: u32, channels: u8, bitrate: u32) -> Seq<u8> {
    mp4_box(
        MP4A,
        zeros(6) + be16(1) + zeros(8) + low16(channels as u32) + be16(16) + zeros(4) + be32(
            rate * 0x1_0000,
        ) + esds(asc, bitrate),
    )
}

fn build_mp4a(asc: &[u8], rate: u32, channels: u8, bitrate: u32) -> (out: Vec<u8>)
    ensures
        out@ == mp4a(asc@, rate, channels, bitrate),
{
    let mut inner: Vec<u8> = Vec::new();
    bytes::append_zeros(&mut inner, 6);
    assert(inner@ =~= zeros(6));
    bytes::append_be16(&mut inner, 1);
    bytes::append_zeros(&mut inner, 8);
    bytes::append(&mut inner, build_low16(channels as u32).as_slice());
    bytes::append_be16(&mut inner, 16);
    bytes::append_zeros(&mut inner, 4);
    bytes::append_low32(&mut inner, rate as u128 * 0x1_0000);
    bytes::append(&mut inner, build_esds(asc, bitrate).as_slice());
    boxed(MP4A, inner.as_slice())
}

/// H.264 video in a file.
#[derive(Debug)]
pub struct VideoTrack {
    /// The `AVCDecoderConfigurationRecord`.
    pub avcc: Vec<u8>,
    /// Width in pixels; 0 if unknown.
    pub width: u32,
    /// Height in pixels; 0 if unknown.
    pub height: u32,
}

/// AAC audio in a file.
#[derive(Debug)]
pub struct AudioTrack {
    /// The `AudioSpecificConfig`.
    pub asc: Vec<u8>,
    /// Samples per second: the track's timescale.
    pub sample_rate: u32,
    /// Channels.
    pub channels: u8,
    /// Nominal bits per second.
    pub bitrate: u32,
}

/// A video track as a mathematical value.
#[verifier::ext_equal]
pub struct VideoTrackView {
    /// The decoder configuration.
    pub avcc: Seq<u8>,
    /// Width in pixels.
    pub width: u32,
    /// Height in pixels.
    pub height: u32,
}

/// An audio track as a mathematical value.
#[verifier::ext_equal]
pub struct AudioTrackView {
    /// The decoder configuration.
    pub asc: Seq<u8>,
    /// Samples per second.
    pub sample_rate: u32,
    /// Channels.
    pub channels: u8,
    /// Bits per second.
    pub bitrate: u32,
}

impl View for VideoTrack {
    type V = VideoTrackView;

    open spec fn view(&self) -> VideoTrackView {
        VideoTrackView { avcc: self.avcc@, width: self.width, height: self.height }
    }
}

impl View for AudioTrack {
    type V = AudioTrackView;

    open spec fn view(&self) -> AudioTrackView {
        AudioTrackView {
            asc: self.asc@,
            sample_rate: self.sample_rate,
            channels: self.channels,
            bitrate: self.bitrate,
        }
    }
}

/// The view of an optional video track.
pub open spec fn opt_video(t: Option<VideoTrack>) -> Option<VideoTrackView> {
    match t {
        Some(v) => Some(v@),
        None => None,
    }
}

/// The view of an optional audio track.
pub open spec fn opt_audio(t: Option<AudioTrack>) -> Option<AudioTrackView> {
    match t {
        Some(a) => Some(a@),
        None => None,
    }
}

/// A media information box: what kind of media, where it is, its samples.
pub open spec fn minf(header: Seq<u8>, entry: Seq<u8>) -> Seq<u8> {
    mp4_box(MINF, header + dinf() + stbl(entry))
}

fn build_minf(header: &[u8], entry: &[u8]) -> (out: Vec<u8>)
    ensures
        out@ == minf(header@, entry@),
{
    let mut inner: Vec<u8> = Vec::new();
    bytes::append(&mut inner, header);
    assert(inner@ =~= header@);
    bytes::append(&mut inner, build_dinf().as_slice());
    bytes::append(&mut inner, build_stbl(entry).as_slice());
    boxed(MINF, inner.as_slice())
}

/// A media box.
pub open spec fn mdia(timescale: u32, handler: u32, header: Seq<u8>, entry: Seq<u8>) -> Seq<u8> {
    mp4_box(MDIA, mdhd(timescale) + hdlr(handler) + minf(header, entry))
}

fn build_mdia(timescale: u32, handler: u32, header: &[u8], entry: &[u8]) -> (out: Vec<u8>)
    ensures
        out@ == mdia(timescale, handler, header@, entry@),
{
    let mut inner: Vec<u8> = Vec::new();
    bytes::append(&mut inner, build_mdhd(timescale).as_slice());
    assert(inner@ =~= mdhd(timescale));
    bytes::append(&mut inner, build_hdlr(handler).as_slice());
    bytes::append(&mut inner, build_minf(header, entry).as_slice());
    boxed(MDIA, inner.as_slice())
}

/// The header of video media.
pub open spec fn vmhd() -> Seq<u8> {
    full_box(VMHD, 0, 1, zeros(8))
}

/// The header of audio media.
pub open spec fn smhd() -> Seq<u8> {
    full_box(SMHD, 0, 0, zeros(4))
}

fn build_media_header(kind: u32, flags: u32, n: usize) -> (out: Vec<u8>)
    ensures
        out@ == full_box(kind, 0, flags, zeros(n as nat)),
{
    let mut inner: Vec<u8> = Vec::new();
    bytes::append_zeros(&mut inner, n);
    assert(inner@ =~= zeros(n as nat));
    full_boxed(kind, 0, flags, inner.as_slice())
}

/// The video track.
pub open spec fn video_trak(t: VideoTrackView) -> Seq<u8> {
    mp4_box(
        TRAK,
        tkhd(VIDEO_TRACK_ID, 0, t.width, t.height) + mdia(
            VIDEO_TIMESCALE,
            VIDE,
            vmhd(),
            avc1(t.avcc, t.width, t.height),
        ),
    )
}

fn build_video_trak(t: &VideoTrack) -> (out: Vec<u8>)
    ensures
        out@ == video_trak(t@),
{
    let header: Vec<u8> = build_media_header(VMHD, 1, 8);
    let entry: Vec<u8> = build_avc1(t.avcc.as_slice(), t.width, t.height);
    let media: Vec<u8> = build_mdia(VIDEO_TIMESCALE, VIDE, header.as_slice(), entry.as_slice());
    let mut inner: Vec<u8> = build_tkhd(VIDEO_TRACK_ID, 0, t.width, t.height);
    bytes::append(&mut inner, media.as_slice());
    boxed(TRAK, inner.as_slice())
}

/// The audio track.
pub open spec fn audio_trak(t: AudioTrackView) -> Seq<u8> {
    mp4_box(
        TRAK,
        tkhd(AUDIO_TRACK_ID, 0x0100, 0, 0) + mdia(
            t.sample_rate,
            SOUN,
            smhd(),
            mp4a(t.asc, t.sample_rate, t.channels, t.bitrate),
        ),
    )
}

fn build_audio_trak(t: &AudioTrack) -> (out: Vec<u8>)
    ensures
        out@ == audio_trak(t@),
{
    let header: Vec<u8> = build_media_header(SMHD, 0, 4);
    let entry: Vec<u8> = build_mp4a(t.asc.as_slice(), t.sample_rate, t.channels, t.bitrate);
    let media: Vec<u8> = build_mdia(t.sample_rate, SOUN, header.as_slice(), entry.as_slice());
    let mut inner: Vec<u8> = build_tkhd(AUDIO_TRACK_ID, 0x0100, 0, 0);
    bytes::append(&mut inner, media.as_slice());
    boxed(TRAK, inner.as_slice())
}

/// What samples of a track default to.
pub open spec fn trex(track_id: u32) -> Seq<u8> {
    full_box(TREX, 0, 0, be32(track_id as int) + be32(1 as int) + zeros(12))
}

fn build_trex(track_id: u32) -> (out: Vec<u8>)
    ensures
        out@ == trex(track_id),
{
    let mut inner: Vec<u8> = Vec::new();
    bytes::append_be32(&mut inner, track_id);
    assert(inner@ =~= be32(track_id as int));
    bytes::append_be32(&mut inner, 1);
    bytes::append_zeros(&mut inner, 12);
    full_boxed(TREX, 0, 0, inner.as_slice())
}

/// The movie: header, the tracks there are, and their defaults.
pub open spec fn moov(video: Option<VideoTrackView>, audio: Option<AudioTrackView>) -> Seq<u8> {
    let v = match video {
        Some(t) => video_trak(t),
        None => Seq::empty(),
    };
    let a = match audio {
        Some(t) => audio_trak(t),
        None => Seq::empty(),
    };
    let dv = if video is Some {
        trex(VIDEO_TRACK_ID)
    } else {
        Seq::empty()
    };
    let da = if audio is Some {
        trex(AUDIO_TRACK_ID)
    } else {
        Seq::empty()
    };
    mp4_box(MOOV, mvhd() + v + a + mp4_box(MVEX, dv + da))
}

/// The initialization segment.
#[verifier::opaque]
pub open spec fn init_bytes(
    video: Option<VideoTrackView>,
    audio: Option<AudioTrackView>,
) -> Seq<u8> {
    ftyp() + moov(video, audio)
}

/// Build the initialization segment for the tracks that are given.
pub fn init_segment(video: &Option<VideoTrack>, audio: &Option<AudioTrack>) -> (out: Vec<u8>)
    ensures
        out@ == init_bytes(opt_video(*video), opt_audio(*audio)),
{
    proof {
        reveal(init_bytes);
    }
    let mut defaults: Vec<u8> = Vec::new();
    let mut inner: Vec<u8> = build_mvhd();
    let ghost head = inner@;
    if let Some(t) = video {
        let track: Vec<u8> = build_video_trak(t);
        bytes::append(&mut inner, track.as_slice());
        let entry: Vec<u8> = build_trex(VIDEO_TRACK_ID);
        bytes::append(&mut defaults, entry.as_slice());
        assert(defaults@ =~= trex(VIDEO_TRACK_ID));
    } else {
        assert(head + Seq::<u8>::empty() =~= head);
        assert(defaults@ =~= Seq::<u8>::empty());
    }
    let ghost second = inner@;
    let ghost first_defaults = defaults@;
    if let Some(t) = audio {
        let track: Vec<u8> = build_audio_trak(t);
        bytes::append(&mut inner, track.as_slice());
        let entry: Vec<u8> = build_trex(AUDIO_TRACK_ID);
        bytes::append(&mut defaults, entry.as_slice());
    } else {
        assert(second + Seq::<u8>::empty() =~= second);
        assert(first_defaults + Seq::<u8>::empty() =~= first_defaults);
    }
    let extends: Vec<u8> = boxed(MVEX, defaults.as_slice());
    bytes::append(&mut inner, extends.as_slice());
    let movie: Vec<u8> = boxed(MOOV, inner.as_slice());
    let mut out: Vec<u8> = build_ftyp();
    bytes::append(&mut out, movie.as_slice());
    out
}

// ---------------------------------------------------------------------------
// Media segments
// ---------------------------------------------------------------------------

/// The flags of a sample: whether it depends on others (2: it does not, 1: it
/// does), and whether it is a sync sample.
pub open spec fn flags_of(depends_on: u8, is_sync: bool) -> u32 {
    (depends_on * 0x100_0000 + if is_sync {
        0int
    } else {
        0x1_0000
    }) as u32
}

/// The flags of a sample.
pub fn sample_flags(depends_on: u8, is_sync: bool) -> (flags: u32)
    ensures
        flags == flags_of(depends_on, is_sync),
{
    depends_on as u32 * 0x100_0000 + if is_sync {
        0
    } else {
        0x1_0000
    }
}

/// One sample of a fragment.
#[derive(Debug)]
pub struct FragmentSample {
    /// Duration in ticks.
    pub duration: u32,
    /// The sample's bytes.
    pub payload: Vec<u8>,
    /// Its flags.
    pub flags: u32,
    /// How long after decoding it is shown, in ticks: a signed number in two's
    /// complement.
    pub composition_offset: u32,
}

/// The samples of one track in a segment.
#[derive(Debug)]
pub struct Fragment {
    /// The track.
    pub track_id: u32,
    /// Decode time of the first sample in ticks.
    pub base_decode_time: u64,
    /// The samples.
    pub samples: Vec<FragmentSample>,
}

/// A sample as a mathematical value.
#[verifier::ext_equal]
pub struct SampleView {
    /// Duration in ticks.
    pub duration: u32,
    /// The sample's bytes.
    pub payload: Seq<u8>,
    /// Its flags.
    pub flags: u32,
    /// How long after decoding it is shown.
    pub composition_offset: u32,
}

/// A fragment as a mathematical value.
#[verifier::ext_equal]
pub struct FragmentView {
    /// The track.
    pub track_id: u32,
    /// Decode time of the first sample.
    pub base_decode_time: u64,
    /// The samples.
    pub samples: Seq<SampleView>,
}

impl View for FragmentSample {
    type V = SampleView;

    open spec fn view(&self) -> SampleView {
        SampleView {
            duration: self.duration,
            payload: self.payload@,
            flags: self.flags,
            composition_offset: self.composition_offset,
        }
    }
}

/// The views of a list of samples.
pub open spec fn sample_views(s: Seq<FragmentSample>) -> Seq<SampleView> {
    s.map_values(|x: FragmentSample| x@)
}

impl View for Fragment {
    type V = FragmentView;

    open spec fn view(&self) -> FragmentView {
        FragmentView {
            track_id: self.track_id,
            base_decode_time: self.base_decode_time,
            samples: sample_views(self.samples@),
        }
    }
}

/// The views of a list of fragments.
pub open spec fn fragment_views(s: Seq<Fragment>) -> Seq<FragmentView> {
    s.map_values(|x: Fragment| x@)
}

/// A sample's entry in its run.
pub open spec fn run_entry(s: SampleView) -> Seq<u8> {
    be32(s.duration as int) + be32(s.payload.len() as int) + be32(s.flags as int) + be32(
        s.composition_offset as int,
    )
}

/// The entries of a run.
pub open spec fn run_entries(s: Seq<SampleView>) -> Seq<u8>
    decreases s.len(),
{
    if s.len() == 0 {
        Seq::empty()
    } else {
        run_entries(s.drop_last()) + run_entry(s.last())
    }
}

/// The bytes of the samples, one after the other.
pub open spec fn sample_data(s: Seq<SampleView>) -> Seq<u8>
    decreases s.len(),
{
    if s.len() == 0 {
        Seq::empty()
    } else {
        sample_data(s.drop_last()) + s.last().payload
    }
}

/// The bytes of all fragments, one after the other.
pub open spec fn media_data(f: Seq<FragmentView>) -> Seq<u8>
    decreases f.len(),
{
    if f.len() == 0 {
        Seq::empty()
    } else {
        media_data(f.drop_last()) + sample_data(f.last().samples)
    }
}

/// The length of a track fragment with `n` samples.
pub open spec fn traf_len(n: nat) -> nat {
    8 + 16 + 20 + (20 + 16 * n)
}

/// The length of the track fragments together.
pub open spec fn trafs_len(f: Seq<FragmentView>) -> nat
    decreases f.len(),
{
    if f.len() == 0 {
        0
    } else {
        trafs_len(f.drop_last()) + traf_len(f.last().samples.len())
    }
}

/// The length of the movie fragment box.
pub open spec fn moof_len(f: Seq<FragmentView>) -> nat {
    8 + 16 + trafs_len(f)
}

/// A run of samples whose bytes start `offset` bytes behind the start of the
/// movie fragment box.
pub open spec fn trun(s: Seq<SampleView>, offset: int) -> Seq<u8> {
    full_box(TRUN, 1, 0xF01, be32(s.len() as int) + be32(offset) + run_entries(s))
}

/// A track fragment.
pub open spec fn traf(f: FragmentView, offset: int) -> Seq<u8> {
    mp4_box(
        TRAF,
        full_box(TFHD, 0, 0x2_0000, be32(f.track_id as int)) + full_box(
            TFDT,
            1,
            0,
            be32(f.base_decode_time as int / 0x1_0000_0000) + be32(f.base_decode_time as int),
        ) + trun(f.samples, offset),
    )
}

/// The track fragments; the bytes of the first start at `start`.
pub open spec fn trafs(f: Seq<FragmentView>, start: int) -> Seq<u8>
    decreases f.len(),
{
    if f.len() == 0 {
        Seq::empty()
    } else {
        trafs(f.drop_last(), start) + traf(
            f.last(),
            start + media_data(f.drop_last()).len(),
        )
    }
}

/// The movie fragment box.
pub open spec fn moof(sequence: u32, f: Seq<FragmentView>) -> Seq<u8> {
    mp4_box(
        MOOF,
        full_box(MFHD, 0, 0, be32(sequence as int)) + trafs(f, moof_len(f) as int + 8),
    )
}

/// A media segment.
#[verifier::opaque]
pub open spec fn segment_bytes(sequence: u32, f: Seq<FragmentView>) -> Seq<u8> {
    styp() + moof(sequence, f) + mp4_box(MDAT, media_data(f))
}

fn append_entry(out: &mut Vec<u8>, s: &FragmentSample)
    ensures
        final(out)@ == old(out)@ + run_entry(s@),
{
    let mut entry: Vec<u8> = Vec::new();
    bytes::append_be32(&mut entry, s.duration);
    assert(entry@ =~= be32(s.duration as int));
    bytes::append_low32(&mut entry, s.payload.len() as u128);
    bytes::append_be32(&mut entry, s.flags);
    bytes::append_be32(&mut entry, s.composition_offset);
    bytes::append(out, entry.as_slice());
}

fn build_trun(samples: &Vec<FragmentSample>, offset: u128) -> (out: Vec<u8>)
    ensures
        out@ == trun(sample_views(samples@), offset as int),
{
    let ghost all = sample_views(samples@);
    let n: usize = samples.len();
    let mut entries: Vec<u8> = Vec::new();
    let mut i: usize = 0;
    assert(all.take(0) =~= Seq::<SampleView>::empty());
    assert(entries@ =~= run_entries(all.take(0)));
    while i < n
        invariant
            i <= n == samples@.len(),
            all == sample_views(samples@),
            entries@ == run_entries(all.take(i as int)),
        decreases n - i,
    {
        append_entry(&mut entries, &samples[i]);
        proof {
            let next = all.take(i + 1);
            assert(next.drop_last() =~= all.take(i as int));
            assert(next.last() == samples@[i as int]@);
        }
        i = i + 1;
    }
    assert(all.take(n as int) =~= all);
    let mut inner: Vec<u8> = Vec::new();
    bytes::append_low32(&mut inner, n as u128);
    assert(inner@ =~= be32(all.len() as int));
    bytes::append_low32(&mut inner, offset);
    bytes::append(&mut inner, entries.as_slice());
    full_boxed(TRUN, 1, 0xF01, inner.as_slice())
}

fn build_traf(f: &Fragment, offset: u128) -> (out: Vec<u8>)
    ensures
        out@ == traf(f@, offset as int),
{
    let mut track: Vec<u8> = Vec::new();
    bytes::append_be32(&mut track, f.track_id);
    assert(track@ =~= be32(f.track_id as int));
    let mut time: Vec<u8> = Vec::new();
    bytes::append_low32(&mut time, (f.base_decode_time / 0x1_0000_0000) as u128);
    assert(time@ =~= be32(f.base_decode_time as int / 0x1_0000_0000));
    bytes::append_low32(&mut time, f.base_decode_time as u128);
    let mut inner: Vec<u8> = full_boxed(TFHD, 0, 0x2_0000, track.as_slice());
    let decode_time: Vec<u8> = full_boxed(TFDT, 1, 0, time.as_slice());
    bytes::append(&mut inner, decode_time.as_slice());
    let run: Vec<u8> = build_trun(&f.samples, offset);
    bytes::append(&mut inner, run.as_slice());
    boxed(TRAF, inner.as_slice())
}

fn append_samples(out: &mut Vec<u8>, samples: &Vec<FragmentSample>)
    ensures
        final(out)@ == old(out)@ + sample_data(sample_views(samples@)),
{
    let ghost all = sample_views(samples@);
    let n: usize = samples.len();
    let mut i: usize = 0;
    assert(all.take(0) =~= Seq::<SampleView>::empty());
    assert(out@ =~= old(out)@ + sample_data(all.take(0)));
    while i < n
        invariant
            i <= n == samples@.len(),
            all == sample_views(samples@),
            out@ == old(out)@ + sample_data(all.take(i as int)),
        decreases n - i,
    {
        bytes::append(out, samples[i].payload.as_slice());
        proof {
            let next = all.take(i + 1);
            assert(next.drop_last() =~= all.take(i as int));
            assert(next.last() == samples@[i as int]@);
            bytes::lemma_concat(
                old(out)@,
                sample_data(all.take(i as int)),
                samples@[i as int].payload@,
            );
        }
        i = i + 1;
    }
    assert(all.take(n as int) =~= all);
}

/// The length that the movie fragment box will have.
fn length_of_moof(fragments: &Vec<Fragment>) -> (n: u128)
    requires
        fragments@.len() <= 2,
    ensures
        n == moof_len(fragment_views(fragments@)),
        n <= 0x100_0000_0000_0000_0000,
{
    let ghost all = fragment_views(fragments@);
    let count: usize = fragments.len();
    let mut n: u128 = 24;
    let mut i: usize = 0;
    assert(all.take(0) =~= Seq::<FragmentView>::empty());
    while i < count
        invariant
            i <= count == fragments@.len(),
            count <= 2,
            all == fragment_views(fragments@),
            n == 24 + trafs_len(all.take(i as int)),
            n <= 24 + i * 0x20_0000_0000_0000_0000,
        decreases count - i,
    {
        n = n + 64 + 16 * fragments[i].samples.len() as u128;
        proof {
            let next = all.take(i + 1);
            assert(next.drop_last() =~= all.take(i as int));
            assert(next.last() == fragments@[i as int]@);
        }
        i = i + 1;
    }
    assert(all.take(count as int) =~= all);
    n
}

/// Build a media segment from the fragments of at most two tracks.
pub fn media_segment(sequence: u32, fragments: &Vec<Fragment>) -> (out: Vec<u8>)
    requires
        fragments@.len() <= 2,
    ensures
        out@ == segment_bytes(sequence, fragment_views(fragments@)),
{
    proof {
        reveal(segment_bytes);
    }
    let ghost all = fragment_views(fragments@);
    let start: u128 = length_of_moof(fragments) + 8;
    let count: usize = fragments.len();
    let mut number: Vec<u8> = Vec::new();
    bytes::append_be32(&mut number, sequence);
    assert(number@ =~= be32(sequence as int));
    let header: Vec<u8> = full_boxed(MFHD, 0, 0, number.as_slice());
    let mut tracks: Vec<u8> = Vec::new();
    let mut data: Vec<u8> = Vec::new();
    let mut i: usize = 0;
    assert(all.take(0) =~= Seq::<FragmentView>::empty());
    assert(tracks@ =~= trafs(all.take(0), start as int));
    assert(data@ =~= media_data(all.take(0)));
    while i < count
        invariant
            i <= count == fragments@.len(),
            all == fragment_views(fragments@),
            start <= 0x100_0000_0000_0000_0008,
            tracks@ == trafs(all.take(i as int), start as int),
            data@ == media_data(all.take(i as int)),
        decreases count - i,
    {
        let track: Vec<u8> = build_traf(&fragments[i], start + data.len() as u128);
        bytes::append(&mut tracks, track.as_slice());
        append_samples(&mut data, &fragments[i].samples);
        proof {
            let next = all.take(i + 1);
            assert(next.drop_last() =~= all.take(i as int));
            assert(next.last() == fragments@[i as int]@);
        }
        i = i + 1;
    }
    assert(all.take(count as int) =~= all);
    let mut inner: Vec<u8> = header;
    bytes::append(&mut inner, tracks.as_slice());
    let movie: Vec<u8> = boxed(MOOF, inner.as_slice());
    let media: Vec<u8> = boxed(MDAT, data.as_slice());
    let mut out: Vec<u8> = build_styp();
    bytes::append(&mut out, movie.as_slice());
    bytes::append(&mut out, media.as_slice());
    out
}

// ---------------------------------------------------------------------------
// Laws
// ---------------------------------------------------------------------------

/// A box begins with its own length.
pub proof fn boxes_state_their_length(kind: u32, payload: Seq<u8>, rest: Seq<u8>)
    requires
        8 + payload.len() < 0x1_0000_0000,
    ensures
        mp4_box(kind, payload).len() == 8 + payload.len(),
        bytes::from_be32(mp4_box(kind, payload) + rest) == mp4_box(kind, payload).len(),
{
    lemma_box_len(kind, payload);
    let n = 8 + payload.len() as int;
    let tail = be32(kind as int) + payload + rest;
    bytes::lemma_front_be32(n, tail);
    assert(mp4_box(kind, payload) + rest =~= be32(n) + tail);
}

proof fn lemma_box_len(kind: u32, payload: Seq<u8>)
    ensures
        mp4_box(kind, payload).len() == 8 + payload.len(),
{
}

proof fn lemma_full_box_len(kind: u32, version: u8, flags: u32, payload: Seq<u8>)
    ensures
        full_box(kind, version, flags, payload).len() == 12 + payload.len(),
{
    lemma_box_len(kind, seq![version] + be24(flags as int) + payload);
}

proof fn lemma_word_len(x: int)
    ensures
        be32(x).len() == 4,
{
}

proof fn lemma_entries_len(s: Seq<SampleView>)
    ensures
        run_entries(s).len() == 16 * s.len(),
    decreases s.len(),
{
    if s.len() > 0 {
        lemma_entries_len(s.drop_last());
        lemma_word_len(s.last().duration as int);
        lemma_word_len(s.last().payload.len() as int);
        lemma_word_len(s.last().flags as int);
        lemma_word_len(s.last().composition_offset as int);
    }
}

proof fn lemma_trun_len(s: Seq<SampleView>, offset: int)
    ensures
        trun(s, offset).len() == 20 + 16 * s.len(),
{
    lemma_entries_len(s);
    lemma_word_len(s.len() as int);
    lemma_word_len(offset);
    lemma_full_box_len(
        TRUN,
        1,
        0xF01,
        be32(s.len() as int) + be32(offset) + run_entries(s),
    );
}

proof fn lemma_traf_len(f: FragmentView, offset: int)
    ensures
        traf(f, offset).len() == traf_len(f.samples.len()),
{
    lemma_trun_len(f.samples, offset);
    let track = be32(f.track_id as int);
    let high = be32(f.base_decode_time as int / 0x1_0000_0000);
    let low = be32(f.base_decode_time as int);
    lemma_word_len(f.track_id as int);
    lemma_word_len(f.base_decode_time as int / 0x1_0000_0000);
    lemma_word_len(f.base_decode_time as int);
    lemma_full_box_len(TFHD, 0, 0x2_0000, track);
    lemma_full_box_len(TFDT, 1, 0, high + low);
    lemma_box_len(
        TRAF,
        full_box(TFHD, 0, 0x2_0000, track) + full_box(TFDT, 1, 0, high + low) + trun(
            f.samples,
            offset,
        ),
    );
}

proof fn lemma_trafs_len(f: Seq<FragmentView>, start: int)
    ensures
        trafs(f, start).len() == trafs_len(f),
    decreases f.len(),
{
    if f.len() > 0 {
        lemma_trafs_len(f.drop_last(), start);
        lemma_traf_len(f.last(), start + media_data(f.drop_last()).len());
    }
}

proof fn lemma_moof_len(sequence: u32, f: Seq<FragmentView>)
    ensures
        moof(sequence, f).len() == moof_len(f),
{
    let start = moof_len(f) as int + 8;
    lemma_trafs_len(f, start);
    lemma_word_len(sequence as int);
    lemma_full_box_len(MFHD, 0, 0, be32(sequence as int));
    lemma_box_len(MOOF, full_box(MFHD, 0, 0, be32(sequence as int)) + trafs(f, start));
}

proof fn lemma_media_data(f: Seq<FragmentView>, k: int)
    requires
        0 <= k < f.len(),
    ensures
        ({
            let at = media_data(f.take(k)).len();
            let own = sample_data(f[k].samples);
            &&& at + own.len() <= media_data(f).len()
            &&& media_data(f).subrange(at as int, (at + own.len()) as int) == own
        }),
    decreases f.len(),
{
    let at = media_data(f.take(k)).len() as int;
    let own = sample_data(f[k].samples);
    let rest = f.drop_last();
    if k == f.len() - 1 {
        assert(f.take(k) =~= rest);
        assert(media_data(f).subrange(at, at + own.len()) =~= own);
    } else {
        assert(rest.take(k) =~= f.take(k));
        lemma_media_data(rest, k);
        assert(media_data(f).subrange(at, at + own.len()) =~= media_data(rest).subrange(
            at,
            at + own.len(),
        ));
    }
}

/// A segment is a type box, a movie fragment and the media data. Counted from
/// the start of the movie fragment, the samples of each track lie where its run
/// says: behind the movie fragment, the header of the media data, and the
/// tracks before it.
pub proof fn runs_point_at_their_samples(sequence: u32, f: Seq<FragmentView>, k: int)
    requires
        0 <= k < f.len(),
    ensures
        ({
            let offset = moof_len(f) + 8 + media_data(f.take(k)).len();
            let from = styp().len() + offset;
            let own = sample_data(f[k].samples);
            &&& moof(sequence, f).len() == moof_len(f)
            &&& from + own.len() <= segment_bytes(sequence, f).len()
            &&& segment_bytes(sequence, f).subrange(from as int, (from + own.len()) as int) == own
        }),
{
    reveal(segment_bytes);
    lemma_moof_len(sequence, f);
    lemma_media_data(f, k);
    let data = media_data(f);
    lemma_box_len(MDAT, data);
    lemma_segment_tail(styp(), moof(sequence, f), be32(8 + data.len() as int), be32(
        MDAT as int,
    ), data, media_data(f.take(k)).len() as int, sample_data(f[k].samples).len() as int);
    lemma_word_len(8 + data.len() as int);
    lemma_word_len(MDAT as int);
}

proof fn lemma_segment_tail(
    a: Seq<u8>,
    b: Seq<u8>,
    c: Seq<u8>,
    d: Seq<u8>,
    data: Seq<u8>,
    at: int,
    n: int,
)
    requires
        0 <= at,
        0 <= n,
        at + n <= data.len(),
    ensures
        ({
            let all = a + b + (c + d + data);
            let from = a.len() + b.len() + c.len() + d.len() + at;
            &&& from + n <= all.len()
            &&& all.subrange(from as int, from + n) == data.subrange(at, at + n)
        }),
{
    let all = a + b + (c + d + data);
    let from = a.len() + b.len() + c.len() + d.len() + at;
    assert(all.subrange(from as int, from + n) =~= data.subrange(at, at + n));
}

/// The offset that the `k`-th track's run states.
pub proof fn runs_state_their_offset(f: Seq<FragmentView>, start: int, k: int)
    requires
        0 <= k < f.len(),
    ensures
        trafs(f, start).subrange(
            trafs_len(f.take(k)) as int,
            (trafs_len(f.take(k)) + traf_len(f[k].samples.len())) as int,
        ) == traf(f[k], start + media_data(f.take(k)).len()),
    decreases f.len(),
{
    let rest = f.drop_last();
    let at = trafs_len(f.take(k)) as int;
    let n = traf_len(f[k].samples.len()) as int;
    let last = traf(f.last(), start + media_data(rest).len());
    lemma_trafs_len(rest, start);
    lemma_traf_len(f.last(), start + media_data(rest).len());
    if k == f.len() - 1 {
        assert(f.take(k) =~= rest);
        assert(trafs(f, start).subrange(at, at + n) =~= last);
    } else {
        assert(rest.take(k) =~= f.take(k));
        runs_state_their_offset(rest, start, k);
        lemma_trafs_prefix(rest, k);
        assert(trafs(f, start).subrange(at, at + n) =~= trafs(rest, start).subrange(at, at + n));
    }
}

proof fn lemma_trafs_prefix(f: Seq<FragmentView>, k: int)
    requires
        0 <= k < f.len(),
    ensures
        trafs_len(f.take(k)) + traf_len(f[k].samples.len()) <= trafs_len(f),
    decreases f.len(),
{
    if k == f.len() - 1 {
        assert(f.take(k) =~= f.drop_last());
    } else {
        assert(f.drop_last().take(k) =~= f.take(k));
        lemma_trafs_prefix(f.drop_last(), k);
    }
}

} // verus!
