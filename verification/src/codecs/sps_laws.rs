//! Sequence parameter sets from the encoder's side: how their fields are coded
//! (ITU-T H.264 7.3.2.1.1), and what is read of them.

use vstd::arithmetic::power2::{lemma2_to64, lemma_pow2_unfold, pow2};
use vstd::prelude::*;

use crate::codecs::bits::{
    bit_at, bits_at, se_at, skip_bits, skip_ue, skip_ues, ue_at, zeros_at,
};
use crate::codecs::h264::{
    cropped_size, has_chroma_fields, size_at, skip_chroma_fields, skip_order_fields,
    skip_scaling_list, skip_scaling_lists, sps_dimensions, width_position,
};

verus! {

// ---------------------------------------------------------------------------
// Codes
// ---------------------------------------------------------------------------

/// `v` in binary, in `n` digits, the most significant first.
pub open spec fn binary(v: nat, n: nat) -> Seq<int>
    decreases n,
{
    if n == 0 {
        Seq::empty()
    } else {
        binary(v / 2, (n - 1) as nat).push(v as int % 2)
    }
}

/// How many binary digits a number has.
pub open spec fn digits(v: nat) -> nat
    decreases v,
{
    if v <= 1 {
        1
    } else {
        1 + digits(v / 2)
    }
}

/// The unsigned Exp-Golomb code of `x`: `x + 1` in binary, behind as many zeros
/// as it has digits, but one.
#[verifier::opaque]
pub open spec fn ue_code(x: nat) -> Seq<int> {
    Seq::new((digits(x + 1) - 1) as nat, |i: int| 0) + binary(x + 1, digits(x + 1))
}

/// The codes of several numbers, one behind the other.
pub open spec fn ue_codes(xs: Seq<nat>) -> Seq<int>
    decreases xs.len(),
{
    if xs.len() == 0 {
        Seq::empty()
    } else {
        ue_code(xs.first()) + ue_codes(xs.drop_first())
    }
}

/// The number under which a signed one is coded: 0, 1, -1, 2, -2 and so on.
pub open spec fn signed_rank(x: int) -> nat {
    if x > 0 {
        (2 * x - 1) as nat
    } else {
        (-2 * x) as nat
    }
}

/// The bits of one flag.
pub open spec fn flag(on: bool) -> Seq<int> {
    seq![
        if on {
            1int
        } else {
            0
        },
    ]
}

/// True if `d` holds these bits from bit `p` on; the first bit of a byte is its
/// most significant one.
#[verifier::opaque]
pub open spec fn holds(d: Seq<u8>, p: int, bits: Seq<int>) -> bool {
    &&& 0 <= p
    &&& p + bits.len() <= 8 * d.len()
    &&& forall|i: int|
        0 <= i < bits.len() ==> #[trigger] bits[i] == (d[(p + i) / 8] as int / pow2(
            (7 - (p + i) % 8) as nat,
        ) as int) % 2
}

proof fn lemma_bit(d: Seq<u8>, p: int)
    requires
        0 <= p < 8 * d.len(),
    ensures
        bit_at(d, p) == (d[p / 8] as int / pow2((7 - p % 8) as nat) as int) % 2,
        bit_at(d, p) == 0 || bit_at(d, p) == 1,
{
    let b = d[p / 8];
    let k = (7 - p % 8) as u8;
    vstd::bits::lemma_u8_shr_is_div(b, k);
    let c = b >> k;
    assert(c & 1 == c % 2) by (bit_vector);
}

proof fn lemma_held(d: Seq<u8>, p: int, bits: Seq<int>)
    requires
        holds(d, p, bits),
    ensures
        forall|i: int| 0 <= i < bits.len() ==> #[trigger] bits[i] == bit_at(d, p + i),
{
    reveal(holds);
    assert forall|i: int| 0 <= i < bits.len() implies #[trigger] bits[i] == bit_at(d, p + i) by {
        lemma_bit(d, p + i);
    }
}

proof fn lemma_split(d: Seq<u8>, p: int, a: Seq<int>, b: Seq<int>)
    requires
        holds(d, p, a + b),
    ensures
        holds(d, p, a),
        holds(d, p + a.len(), b),
{
    reveal(holds);
    let all = a + b;
    assert forall|i: int| 0 <= i < a.len() implies #[trigger] a[i] == (d[(p + i) / 8] as int
        / pow2((7 - (p + i) % 8) as nat) as int) % 2 by {
        assert(all[i] == a[i]);
    }
    assert forall|i: int| 0 <= i < b.len() implies #[trigger] b[i] == (d[(p + a.len() + i) / 8]
        as int / pow2((7 - (p + a.len() + i) % 8) as nat) as int) % 2 by {
        assert(all[a.len() + i] == b[i]);
    }
}

proof fn lemma_flag(d: Seq<u8>, p: int, on: bool)
    requires
        holds(d, p, flag(on)),
    ensures
        (bit_at(d, p) == 1) == on,
        (bit_at(d, p) == 0) == !on,
        skip_bits(d, Some(p), 1) == Some(p + 1),
{
    reveal(holds);
    lemma_held(d, p, flag(on));
    assert(flag(on)[0] == bit_at(d, p + 0));
}

proof fn lemma_digits(v: nat)
    requires
        v >= 1,
    ensures
        digits(v) >= 1,
        pow2((digits(v) - 1) as nat) <= v < pow2(digits(v)),
    decreases v,
{
    lemma2_to64();
    if v > 1 {
        lemma_digits(v / 2);
        lemma_pow2_unfold(digits(v));
        lemma_pow2_unfold((digits(v) - 1) as nat);
    }
}

proof fn lemma_digits_bound(v: nat, n: nat)
    requires
        1 <= v < pow2(n),
    ensures
        digits(v) <= n,
{
    lemma_digits(v);
    if digits(v) > n {
        if n < digits(v) - 1 {
            vstd::arithmetic::power2::lemma_pow2_strictly_increases(n, (digits(v) - 1) as nat);
        }
    }
}

proof fn lemma_binary_len(v: nat, n: nat)
    ensures
        binary(v, n).len() == n,
    decreases n,
{
    if n > 0 {
        lemma_binary_len(v / 2, (n - 1) as nat);
    }
}

/// Reading `n` binary digits gives the number back.
proof fn lemma_binary(d: Seq<u8>, p: int, v: nat, n: nat)
    requires
        v < pow2(n),
        holds(d, p, binary(v, n)),
    ensures
        bits_at(d, p, n) == v,
    decreases n,
{
    lemma2_to64();
    if n > 0 {
        let m = (n - 1) as nat;
        let front = binary(v / 2, m);
        lemma_pow2_unfold(n);
        lemma_binary_len(v / 2, m);
        assert(binary(v, n) =~= front + seq![v as int % 2]);
        lemma_split(d, p, front, seq![v as int % 2]);
        lemma_binary(d, p, v / 2, m);
        lemma_held(d, p + m, seq![v as int % 2]);
        assert(seq![v as int % 2][0] == bit_at(d, p + m + 0));
    }
}

/// The first of the digits is a one; the others are what is left of the number.
proof fn lemma_binary_front(v: nat, n: nat)
    requires
        n >= 1,
        pow2((n - 1) as nat) <= v < pow2(n),
    ensures
        binary(v, n) == seq![1int] + binary((v - pow2((n - 1) as nat)) as nat, (n - 1) as nat),
    decreases n,
{
    lemma2_to64();
    lemma_pow2_unfold(n);
    if n == 1 {
        assert(binary(v / 2, 0) =~= Seq::<int>::empty());
        assert(binary(v, 1) =~= seq![1int]);
        assert(seq![1int] + binary(0, 0) =~= seq![1int]);
    } else {
        let m = (n - 1) as nat;
        lemma_pow2_unfold(m);
        lemma_binary_front(v / 2, m);
        let rest = (v - pow2(m)) as nat;
        assert(rest / 2 == v / 2 - pow2((m - 1) as nat));
        assert(rest as int % 2 == v as int % 2);
        let low = binary(rest / 2, (m - 1) as nat);
        assert((seq![1int] + low).push(v as int % 2) =~= seq![1int] + low.push(v as int % 2));
    }
}

proof fn lemma_zeros(d: Seq<u8>, p: int, n: nat)
    requires
        0 <= p,
        p + n < 8 * d.len(),
        forall|q: int| p <= q < p + n ==> #[trigger] bit_at(d, q) == 0,
        bit_at(d, p + n) == 1,
    ensures
        zeros_at(d, p) == n,
    decreases n,
{
    if n > 0 {
        assert(bit_at(d, p) == 0);
        lemma_zeros(d, p + 1, (n - 1) as nat);
    }
}

/// An Exp-Golomb code reads back, and what follows begins right behind it.
pub proof fn codes_read_back(d: Seq<u8>, p: int, x: nat)
    requires
        x < 0xFFFF_FFFF,
        holds(d, p, ue_code(x)),
    ensures
        ue_at(d, p) == x,
        skip_ue(d, Some(p)) == Some(p + ue_code(x).len()),
        ue_code(x).len() >= 1,
{
    reveal(ue_code);
    reveal(holds);
    let n = digits(x + 1);
    let z = (n - 1) as nat;
    lemma2_to64();
    lemma_digits(x + 1);
    lemma_digits_bound(x + 1, 32);
    lemma_binary_len(x + 1, n);
    lemma_binary_front(x + 1, n);
    let zeros = Seq::new(z, |i: int| 0int);
    let low = binary((x + 1 - pow2(z)) as nat, z);
    lemma_pow2_unfold(n);
    lemma_binary_len((x + 1 - pow2(z)) as nat, z);
    assert(ue_code(x) =~= zeros + (seq![1int] + low));
    lemma_split(d, p, zeros, seq![1int] + low);
    lemma_split(d, p + z, seq![1int], low);
    lemma_held(d, p, zeros);
    lemma_held(d, p + z, seq![1int]);
    assert forall|q: int| p <= q < p + z implies #[trigger] bit_at(d, q) == 0 by {
        assert(zeros[q - p] == bit_at(d, p + (q - p)));
    }
    assert(seq![1int][0] == bit_at(d, p + z + 0));
    lemma_zeros(d, p, z);
    lemma_binary(d, p + z + 1, (x + 1 - pow2(z)) as nat, z);
}

proof fn lemma_signed(d: Seq<u8>, p: int, x: int)
    requires
        -0x7FFF_FFFF < x < 0x7FFF_FFFF,
        holds(d, p, ue_code(signed_rank(x))),
    ensures
        se_at(d, p) == x,
        skip_ue(d, Some(p)) == Some(p + ue_code(signed_rank(x)).len()),
{
    codes_read_back(d, p, signed_rank(x));
}

proof fn lemma_codes(d: Seq<u8>, p: int, xs: Seq<nat>)
    requires
        forall|i: int| 0 <= i < xs.len() ==> #[trigger] xs[i] < 0xFFFF_FFFF,
        holds(d, p, ue_codes(xs)),
    ensures
        skip_ues(d, Some(p), xs.len()) == Some(p + ue_codes(xs).len()),
    decreases xs.len(),
{
    if xs.len() > 0 {
        let rest = xs.drop_first();
        lemma_split(d, p, ue_code(xs.first()), ue_codes(rest));
        assert(xs[0] == xs.first());
        codes_read_back(d, p, xs.first());
        assert forall|i: int| 0 <= i < rest.len() implies #[trigger] rest[i] < 0xFFFF_FFFF by {
            assert(rest[i] == xs[i + 1]);
        }
        lemma_codes(d, p + ue_code(xs.first()).len(), rest);
    }
}

// ---------------------------------------------------------------------------
// The fields
// ---------------------------------------------------------------------------

/// One scaling list: the scales that are coded, and the differences that code
/// them. A list may end early, with a difference that leads to zero.
pub struct ScalingList {
    /// The scales.
    pub scales: Seq<nat>,
    /// The differences.
    pub deltas: Seq<int>,
}

/// True if a list of `size` scales is coded by these differences, from a scale
/// of `last` on.
pub open spec fn list_coded(list: ScalingList, size: nat, last: int) -> bool {
    let n = list.scales.len();
    &&& n <= size
    &&& list.deltas.len() == if n < size {
        n + 1
    } else {
        n
    }
    &&& forall|i: int| 0 <= i < n ==> 1 <= #[trigger] list.scales[i] <= 255
    &&& forall|i: int|
        0 <= i < list.deltas.len() ==> -128 <= #[trigger] list.deltas[i] <= 127 && ((if i == 0 {
            last
        } else {
            list.scales[i - 1] as int
        }) + list.deltas[i]) % 256 == if i < n {
            list.scales[i] as int
        } else {
            0
        }
}

/// The bits of the differences.
pub open spec fn deltas_code(deltas: Seq<int>) -> Seq<int>
    decreases deltas.len(),
{
    if deltas.len() == 0 {
        Seq::empty()
    } else {
        ue_code(signed_rank(deltas.first())) + deltas_code(deltas.drop_first())
    }
}

/// The bits of the scaling lists: a flag for each, and the list if it is there.
pub open spec fn lists_code(lists: Seq<Option<ScalingList>>) -> Seq<int>
    decreases lists.len(),
{
    if lists.len() == 0 {
        Seq::empty()
    } else {
        (match lists.first() {
            Some(l) => flag(true) + deltas_code(l.deltas),
            None => flag(false),
        }) + lists_code(lists.drop_first())
    }
}

/// The fields of the high profiles.
pub struct ChromaFields {
    /// chroma_format_idc.
    pub format: nat,
    /// separate_colour_plane_flag, coded for format 3 alone.
    pub separate: bool,
    /// bit_depth_luma_minus8 and bit_depth_chroma_minus8.
    pub depths: (nat, nat),
    /// qpprime_y_zero_transform_bypass_flag.
    pub bypass: bool,
    /// The scaling lists, if there is a matrix: 12 for format 3, else 6.
    pub scaling: Option<Seq<Option<ScalingList>>>,
}

/// The bits of the fields of the high profiles.
pub open spec fn chroma_code(c: ChromaFields) -> Seq<int> {
    ue_code(c.format) + ((if c.format == 3 {
        flag(c.separate)
    } else {
        Seq::empty()
    }) + (ue_code(c.depths.0) + (ue_code(c.depths.1) + (flag(c.bypass) + (match c.scaling {
        Some(lists) => flag(true) + lists_code(lists),
        None => flag(false),
    })))))
}

/// The picture-order-count fields.
pub enum OrderFields {
    /// Type 0, with log2_max_pic_order_cnt_lsb_minus4.
    Lsb(nat),
    /// Type 1: a flag, two offsets, and a cycle of offsets, each under its rank.
    Cycle(bool, nat, nat, Seq<nat>),
    /// Type 2.
    Output,
}

/// The bits of the picture-order-count fields.
pub open spec fn order_code(o: OrderFields) -> Seq<int> {
    match o {
        OrderFields::Lsb(x) => ue_code(0) + ue_code(x),
        OrderFields::Cycle(always, a, b, cycle) => ue_code(1) + (flag(always) + (ue_codes(
            seq![a, b],
        ) + (ue_code(cycle.len()) + ue_codes(cycle)))),
        OrderFields::Output => ue_code(2),
    }
}

/// The fields that say how large the picture is.
pub struct SizeFields {
    /// Macroblocks across.
    pub width: nat,
    /// Map units down: macroblocks, or pairs of them where fields are coded.
    pub height: nat,
    /// frame_mbs_only_flag.
    pub frames_only: bool,
    /// mb_adaptive_frame_field_flag, coded where fields are.
    pub adaptive: bool,
    /// direct_8x8_inference_flag.
    pub direct: bool,
    /// The crop offsets: left, right, top and bottom.
    pub crop: Option<(nat, nat, nat, nat)>,
}

/// The bits of the size fields.
pub open spec fn size_code(z: SizeFields) -> Seq<int> {
    ue_code((z.width - 1) as nat) + (ue_code((z.height - 1) as nat) + (flag(z.frames_only) + ((if
        z.frames_only {
        Seq::empty()
    } else {
        flag(z.adaptive)
    }) + (flag(z.direct) + (match z.crop {
        Some((l, r, t, b)) => flag(true) + ue_codes(seq![l, r, t, b]),
        None => flag(false),
    })))))
}

/// A sequence parameter set, as far as the size.
pub struct SpsFields {
    /// seq_parameter_set_id.
    pub id: nat,
    /// The fields of the high profiles, in those.
    pub chroma: Option<ChromaFields>,
    /// log2_max_frame_num_minus4.
    pub frame_num: nat,
    /// The picture-order-count fields.
    pub order: OrderFields,
    /// max_num_ref_frames.
    pub references: nat,
    /// gaps_in_frame_num_value_allowed_flag.
    pub gaps: bool,
    /// The size.
    pub size: SizeFields,
}

/// The bits of a sequence parameter set behind its first four bytes.
pub open spec fn sps_code(f: SpsFields) -> Seq<int> {
    ue_code(f.id) + ((match f.chroma {
        Some(c) => chroma_code(c),
        None => Seq::empty(),
    }) + (ue_code(f.frame_num) + (order_code(f.order) + (ue_code(f.references) + (flag(f.gaps)
        + size_code(f.size))))))
}

/// True if the fields fit their codes.
pub open spec fn codable(f: SpsFields) -> bool {
    let most = 0xFFFF_FFFEnat;
    &&& f.id <= most && f.frame_num <= most && f.references <= most
    &&& match f.order {
        OrderFields::Lsb(x) => x <= most,
        OrderFields::Cycle(_, a, b, cycle) => a <= most && b <= most && cycle.len() <= 255
            && forall|i: int| 0 <= i < cycle.len() ==> #[trigger] cycle[i] <= most,
        OrderFields::Output => true,
    }
    &&& f.chroma matches Some(c) ==> {
        &&& c.format <= 3
        &&& c.depths.0 <= most && c.depths.1 <= most
        &&& c.scaling matches Some(lists) ==> {
            &&& lists.len() == if c.format == 3 {
                12nat
            } else {
                6
            }
            &&& forall|i: int|
                0 <= i < lists.len() ==> (#[trigger] lists[i] matches Some(l) ==> list_coded(
                    l,
                    if i < 6 {
                        16
                    } else {
                        64
                    },
                    8,
                ))
        }
    }
    &&& 1 <= f.size.width <= most && 1 <= f.size.height <= most
    &&& f.size.crop matches Some((l, r, t, b)) ==> l <= most && r <= most && t <= most && b <= most
}

// ---------------------------------------------------------------------------
// Reading them
// ---------------------------------------------------------------------------

proof fn lemma_list(d: Seq<u8>, p: int, list: ScalingList, size: nat, last: int)
    requires
        1 <= last <= 255,
        list_coded(list, size, last),
        holds(d, p, deltas_code(list.deltas)),
    ensures
        skip_scaling_list(d, Some(p), size, last, last) == Some(p + deltas_code(list.deltas).len()),
    decreases size,
{
    let n = list.scales.len();
    if size > 0 {
        let delta = list.deltas[0];
        let code = ue_code(signed_rank(delta));
        let rest = ScalingList {
            scales: if n > 0 {
                list.scales.drop_first()
            } else {
                list.scales
            },
            deltas: list.deltas.drop_first(),
        };
        lemma_split(d, p, code, deltas_code(rest.deltas));
        lemma_signed(d, p, delta);
        let q = p + code.len();
        if n > 0 {
            let scale = list.scales[0] as int;
            assert((last + delta) % 256 == scale);
            assert forall|i: int| 0 <= i < rest.deltas.len() implies -128
                <= #[trigger] rest.deltas[i] <= 127 && ((if i == 0 {
                scale
            } else {
                rest.scales[i - 1] as int
            }) + rest.deltas[i]) % 256 == if i < rest.scales.len() {
                rest.scales[i] as int
            } else {
                0
            } by {
                assert(rest.deltas[i] == list.deltas[i + 1]);
            }
            assert forall|i: int| 0 <= i < rest.scales.len() implies 1 <= #[trigger] rest.scales[i]
                <= 255 by {
                assert(rest.scales[i] == list.scales[i + 1]);
            }
            lemma_list(d, q, rest, (size - 1) as nat, scale);
        } else {
            assert((last + delta) % 256 == 0);
            assert(rest.deltas.len() == 0);
            assert(skip_scaling_list(d, Some(q), (size - 1) as nat, last, 0) == Some(q));
        }
    }
}

proof fn lemma_lists(d: Seq<u8>, p: int, lists: Seq<Option<ScalingList>>, from: nat, count: nat)
    requires
        from + lists.len() == count,
        forall|i: int|
            0 <= i < lists.len() ==> (#[trigger] lists[i] matches Some(l) ==> list_coded(
                l,
                if from + i < 6 {
                    16
                } else {
                    64
                },
                8,
            )),
        holds(d, p, lists_code(lists)),
    ensures
        skip_scaling_lists(d, Some(p), from, count) == Some(p + lists_code(lists).len()),
    decreases lists.len(),
{
    if lists.len() > 0 {
        let rest = lists.drop_first();
        let first = match lists.first() {
            Some(l) => flag(true) + deltas_code(l.deltas),
            None => flag(false),
        };
        lemma_split(d, p, first, lists_code(rest));
        assert forall|i: int| 0 <= i < rest.len() implies (#[trigger] rest[i] matches Some(l)
            ==> list_coded(
            l,
            if from + 1 + i < 6 {
                16
            } else {
                64
            },
            8,
        )) by {
            assert(rest[i] == lists[i + 1]);
        }
        lemma_lists(d, p + first.len(), rest, from + 1, count);
        assert(lists[0] == lists.first());
        match lists.first() {
            Some(l) => {
                lemma_split(d, p, flag(true), deltas_code(l.deltas));
                lemma_flag(d, p, true);
                lemma_list(
                    d,
                    p + 1,
                    l,
                    if from < 6 {
                        16
                    } else {
                        64
                    },
                    8,
                );
            },
            None => {
                lemma_flag(d, p, false);
            },
        }
    }
}

proof fn lemma_chroma(d: Seq<u8>, p: int, c: ChromaFields)
    requires
        holds(d, p, chroma_code(c)),
        c.format <= 3,
        c.depths.0 < 0xFFFF_FFFF && c.depths.1 < 0xFFFF_FFFF,
        c.scaling matches Some(lists) ==> {
            &&& lists.len() == if c.format == 3 {
                12nat
            } else {
                6
            }
            &&& forall|i: int|
                0 <= i < lists.len() ==> (#[trigger] lists[i] matches Some(l) ==> list_coded(
                    l,
                    if i < 6 {
                        16
                    } else {
                        64
                    },
                    8,
                ))
        },
    ensures
        ue_at(d, p) == c.format,
        skip_chroma_fields(d, Some(p)) == Some(p + chroma_code(c).len()),
{
    let scaling = match c.scaling {
        Some(lists) => flag(true) + lists_code(lists),
        None => flag(false),
    };
    let plane = if c.format == 3 {
        flag(c.separate)
    } else {
        Seq::empty()
    };
    let e = flag(c.bypass) + scaling;
    let f = ue_code(c.depths.1) + e;
    let g = ue_code(c.depths.0) + f;
    lemma_split(d, p, ue_code(c.format), plane + g);
    codes_read_back(d, p, c.format);
    let p1 = p + ue_code(c.format).len();
    lemma_split(d, p1, plane, g);
    if c.format == 3 {
        lemma_flag(d, p1, c.separate);
    }
    let p2 = p1 + plane.len();
    lemma_split(d, p2, ue_code(c.depths.0), f);
    codes_read_back(d, p2, c.depths.0);
    let p3 = p2 + ue_code(c.depths.0).len();
    lemma_split(d, p3, ue_code(c.depths.1), e);
    codes_read_back(d, p3, c.depths.1);
    let p4 = p3 + ue_code(c.depths.1).len();
    lemma_split(d, p4, flag(c.bypass), scaling);
    lemma_flag(d, p4, c.bypass);
    match c.scaling {
        Some(lists) => {
            lemma_split(d, p4 + 1, flag(true), lists_code(lists));
            lemma_flag(d, p4 + 1, true);
            lemma_lists(d, p4 + 2, lists, 0, lists.len());
        },
        None => {
            lemma_flag(d, p4 + 1, false);
        },
    }
}

proof fn lemma_order(d: Seq<u8>, p: int, o: OrderFields)
    requires
        holds(d, p, order_code(o)),
        match o {
            OrderFields::Lsb(x) => x < 0xFFFF_FFFF,
            OrderFields::Cycle(_, a, b, cycle) => a < 0xFFFF_FFFF && b < 0xFFFF_FFFF && cycle.len()
                <= 255 && forall|i: int| 0 <= i < cycle.len() ==> #[trigger] cycle[i] < 0xFFFF_FFFF,
            OrderFields::Output => true,
        },
    ensures
        skip_order_fields(d, Some(p)) == Some(p + order_code(o).len()),
{
    match o {
        OrderFields::Lsb(x) => {
            lemma_split(d, p, ue_code(0), ue_code(x));
            codes_read_back(d, p, 0);
            codes_read_back(d, p + ue_code(0).len(), x);
        },
        OrderFields::Cycle(always, a, b, cycle) => {
            let tail = ue_code(cycle.len()) + ue_codes(cycle);
            let offsets = ue_codes(seq![a, b]) + tail;
            lemma_split(d, p, ue_code(1), flag(always) + offsets);
            codes_read_back(d, p, 1);
            let p1 = p + ue_code(1).len();
            lemma_split(d, p1, flag(always), offsets);
            lemma_flag(d, p1, always);
            lemma_split(d, p1 + 1, ue_codes(seq![a, b]), tail);
            lemma_codes(d, p1 + 1, seq![a, b]);
            let p2 = p1 + 1 + ue_codes(seq![a, b]).len();
            lemma_split(d, p2, ue_code(cycle.len()), ue_codes(cycle));
            codes_read_back(d, p2, cycle.len());
            lemma_codes(d, p2 + ue_code(cycle.len()).len(), cycle);
        },
        OrderFields::Output => {
            codes_read_back(d, p, 2);
        },
    }
}

proof fn lemma_four(d: Seq<u8>, p: int, l: nat, r: nat, t: nat, b: nat)
    requires
        holds(d, p, ue_codes(seq![l, r, t, b])),
        l < 0xFFFF_FFFF && r < 0xFFFF_FFFF && t < 0xFFFF_FFFF && b < 0xFFFF_FFFF,
    ensures
        ({
            let right = skip_ue(d, Some(p));
            let top = skip_ue(d, right);
            let bottom = skip_ue(d, top);
            &&& right is Some && top is Some && bottom is Some && skip_ue(d, bottom) is Some
            &&& ue_at(d, p) == l
            &&& ue_at(d, right->0) == r
            &&& ue_at(d, top->0) == t
            &&& ue_at(d, bottom->0) == b
        }),
{
    let none = Seq::<nat>::empty();
    assert(seq![l, r, t, b].drop_first() =~= seq![r, t, b]);
    assert(seq![r, t, b].drop_first() =~= seq![t, b]);
    assert(seq![t, b].drop_first() =~= seq![b]);
    assert(seq![b].drop_first() =~= none);
    assert(ue_codes(none) =~= Seq::<int>::empty());
    assert(ue_codes(seq![b]) =~= ue_code(b));
    lemma_split(d, p, ue_code(l), ue_codes(seq![r, t, b]));
    codes_read_back(d, p, l);
    let p1 = p + ue_code(l).len();
    lemma_split(d, p1, ue_code(r), ue_codes(seq![t, b]));
    codes_read_back(d, p1, r);
    let p2 = p1 + ue_code(r).len();
    lemma_split(d, p2, ue_code(t), ue_codes(seq![b]));
    codes_read_back(d, p2, t);
    codes_read_back(d, p2 + ue_code(t).len(), b);
}

/// What the crop offsets take off, across and down.
spec fn cropped_off(z: SizeFields, chroma: nat) -> (int, int) {
    match z.crop {
        Some((l, r, t, b)) => (
            if chroma == 1 || chroma == 2 {
                2 * (l + r) as int
            } else {
                (l + r) as int
            },
            if chroma == 1 && z.frames_only {
                2 * (t + b) as int
            } else if chroma == 1 {
                4 * (t + b) as int
            } else if z.frames_only {
                (t + b) as int
            } else {
                2 * (t + b) as int
            },
        ),
        None => (0, 0),
    }
}

proof fn lemma_cropped(z: SizeFields, chroma: nat, frame_only: int, x: int, y: int)
    requires
        frame_only == if z.frames_only {
            1int
        } else {
            0
        },
        match z.crop {
            Some((l, r, t, b)) => x == l + r && y == t + b,
            None => x == 0 && y == 0,
        },
    ensures
        ({
            let w = 16 * z.width - cropped_off(z, chroma).0;
            let h = if z.frames_only {
                16 * z.height
            } else {
                32 * z.height
            } - cropped_off(z, chroma).1;
            cropped_size(z.width as int, z.height as int, frame_only, chroma as int, x, y) == if 0
                < w <= u32::MAX && 0 < h <= u32::MAX {
                Some((w as u32, h as u32))
            } else {
                None
            }
        }),
{
    let n = z.height as int;
    assert(1 * n * 16 == 16 * n && 2 * n * 16 == 32 * n);
    assert(x * 2 == 2 * x && y * 2 == 2 * y && y * 4 == 4 * y && x * 1 == x && y * 1 == y);
}

proof fn lemma_size(d: Seq<u8>, p: int, z: SizeFields, chroma: nat)
    requires
        holds(d, p, size_code(z)),
        1 <= z.width < 0xFFFF_FFFF,
        1 <= z.height < 0xFFFF_FFFF,
        z.crop matches Some((l, r, t, b)) ==> l < 0xFFFF_FFFF && r < 0xFFFF_FFFF && t < 0xFFFF_FFFF
            && b < 0xFFFF_FFFF,
    ensures
        ({
            let w = 16 * z.width - cropped_off(z, chroma).0;
            let h = if z.frames_only {
                16 * z.height
            } else {
                32 * z.height
            } - cropped_off(z, chroma).1;
            size_at(d, Some(p), chroma as int) == if 0 < w <= u32::MAX && 0 < h <= u32::MAX {
                Some((w as u32, h as u32))
            } else {
                None
            }
        }),
{
    let crop = match z.crop {
        Some((l, r, t, b)) => flag(true) + ue_codes(seq![l, r, t, b]),
        None => flag(false),
    };
    let adaptive = if z.frames_only {
        Seq::empty()
    } else {
        flag(z.adaptive)
    };
    let e = flag(z.direct) + crop;
    let f = adaptive + e;
    let g = flag(z.frames_only) + f;
    let w = (z.width - 1) as nat;
    let h = (z.height - 1) as nat;
    lemma_split(d, p, ue_code(w), ue_code(h) + g);
    codes_read_back(d, p, w);
    let p1 = p + ue_code(w).len();
    lemma_split(d, p1, ue_code(h), g);
    codes_read_back(d, p1, h);
    let p2 = p1 + ue_code(h).len();
    lemma_split(d, p2, flag(z.frames_only), f);
    lemma_flag(d, p2, z.frames_only);
    lemma_split(d, p2 + 1, adaptive, e);
    let p3 = p2 + 1 + adaptive.len();
    lemma_split(d, p3, flag(z.direct), crop);
    lemma_flag(d, p3, z.direct);
    match z.crop {
        Some((l, r, t, b)) => {
            lemma_split(d, p3 + 1, flag(true), ue_codes(seq![l, r, t, b]));
            lemma_flag(d, p3 + 1, true);
            lemma_four(d, p3 + 2, l, r, t, b);
            lemma_cropped(z, chroma, bit_at(d, p2), (l + r) as int, (t + b) as int);
            assert(size_at(d, Some(p), chroma as int) == cropped_size(
                z.width as int,
                z.height as int,
                bit_at(d, p2),
                chroma as int,
                (l + r) as int,
                (t + b) as int,
            ));
        },
        None => {
            lemma_flag(d, p3 + 1, false);
            lemma_cropped(z, chroma, bit_at(d, p2), 0, 0);
            assert(size_at(d, Some(p), chroma as int) == cropped_size(
                z.width as int,
                z.height as int,
                bit_at(d, p2),
                chroma as int,
                0,
                0,
            ));
        },
    }
}

/// The size that is read of a sequence parameter set is the one that the encoder
/// coded (H.264 7.4.2.1.1), whatever else it codes before and behind. A
/// macroblock is 16 samples either way, and a map unit two macroblocks high where
/// fields are coded. A crop offset counts chroma samples: one for two luma samples
/// across in formats 1 and 2, and down in format 1; downwards it is doubled where
/// fields are coded. A set without the fields of the high profiles is in format 1
/// (4:2:0).
pub proof fn coded_sizes_are_read(d: Seq<u8>, f: SpsFields)
    requires
        d.len() >= 4,
        d[0] as int % 32 == 7,
        f.chroma is Some <==> (d[1] == 100 || d[1] == 110 || d[1] == 122 || d[1] == 244 || d[1]
            == 44 || d[1] == 83 || d[1] == 86 || d[1] == 118 || d[1] == 128),
        codable(f),
        holds(d, 32, sps_code(f)),
    ensures
        ({
            let format = match f.chroma {
                Some(c) => c.format,
                None => 1,
            };
            let (left, right, top, bottom) = match f.size.crop {
                Some(c) => c,
                None => (0nat, 0nat, 0nat, 0nat),
            };
            let w = 16 * f.size.width - if format == 1 || format == 2 {
                2 * left + 2 * right
            } else {
                left + right
            };
            let h = if f.size.frames_only && format == 1 {
                16 * f.size.height - 2 * top - 2 * bottom
            } else if f.size.frames_only {
                16 * f.size.height - top - bottom
            } else if format == 1 {
                32 * f.size.height - 4 * top - 4 * bottom
            } else {
                32 * f.size.height - 2 * top - 2 * bottom
            };
            sps_dimensions(d) == if 0 < w <= u32::MAX && 0 < h <= u32::MAX {
                Some((w as u32, h as u32))
            } else {
                None
            }
        }),
{
    let chroma = match f.chroma {
        Some(c) => chroma_code(c),
        None => Seq::empty(),
    };
    let e = flag(f.gaps) + size_code(f.size);
    let g = ue_code(f.references) + e;
    let h = order_code(f.order) + g;
    let k = ue_code(f.frame_num) + h;
    lemma_split(d, 32, ue_code(f.id), chroma + k);
    codes_read_back(d, 32, f.id);
    let p1: int = 32 + ue_code(f.id).len() as int;
    lemma_split(d, p1, chroma, k);
    if let Some(c) = f.chroma {
        lemma_chroma(d, p1, c);
    }
    let p2 = p1 + chroma.len();
    lemma_split(d, p2, ue_code(f.frame_num), h);
    codes_read_back(d, p2, f.frame_num);
    let p3 = p2 + ue_code(f.frame_num).len();
    lemma_split(d, p3, order_code(f.order), g);
    lemma_order(d, p3, f.order);
    let p4 = p3 + order_code(f.order).len();
    lemma_split(d, p4, ue_code(f.references), e);
    codes_read_back(d, p4, f.references);
    let p5 = p4 + ue_code(f.references).len();
    lemma_split(d, p5, flag(f.gaps), size_code(f.size));
    lemma_flag(d, p5, f.gaps);
    assert(width_position(d) == Some(p5 + 1));
    lemma_size(
        d,
        p5 + 1,
        f.size,
        match f.chroma {
            Some(c) => c.format,
            None => 1,
        },
    );
    assert(has_chroma_fields(d[1] as int) == f.chroma is Some);
    assert(crate::codecs::h264::unit_type(d[0]) == 7) by {
        let b = d[0];
        assert(b & 0x1F == b % 32) by (bit_vector);
    }
}

/// Progressive 4:2:0 video: each crop offset takes two lines or columns off.
pub proof fn progressive_sizes_are_read(d: Seq<u8>, f: SpsFields, crop: (nat, nat, nat, nat))
    requires
        d.len() >= 4,
        d[0] as int % 32 == 7,
        d[1] == 66 || d[1] == 77 || d[1] == 88,
        f.chroma is None,
        f.size.frames_only,
        f.size.crop == Some(crop),
        codable(f),
        holds(d, 32, sps_code(f)),
        0 < 16 * f.size.width - 2 * (crop.0 + crop.1) <= u32::MAX,
        0 < 16 * f.size.height - 2 * (crop.2 + crop.3) <= u32::MAX,
    ensures
        sps_dimensions(d) == Some(
            (
                (16 * f.size.width - 2 * (crop.0 + crop.1)) as u32,
                (16 * f.size.height - 2 * (crop.2 + crop.3)) as u32,
            ),
        ),
{
    coded_sizes_are_read(d, f);
}

/// The profiles whose parameter sets say how colour is sampled: High, High 10,
/// High 4:2:2 and High 4:4:4, the intra profile, and those of scalable and
/// multiview coding.
pub proof fn high_profiles_sample_colour(profile: u8)
    ensures
        has_chroma_fields(profile as int) <==> seq![
            100u8,
            110,
            122,
            244,
            44,
            83,
            86,
            118,
            128,
        ].contains(profile),
{
    let high = seq![100u8, 110, 122, 244, 44, 83, 86, 118, 128];
    assert(high[0] == 100 && high[1] == 110 && high[2] == 122 && high[3] == 244 && high[4] == 44);
    assert(high[5] == 83 && high[6] == 86 && high[7] == 118 && high[8] == 128);
}

} // verus!
