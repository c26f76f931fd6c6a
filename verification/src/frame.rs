//! Which frames of a JPEG image the image decoder can take.

use crate::jpeg;
use crate::jpeg::{Color, Factors, Frame, FrameView, Headers, HeadersView, ScansView};
use vstd::prelude::*;

verus! {

/// The largest sampling factor across.
pub open spec fn max_h(factors: Seq<Factors>) -> int
    decreases factors.len(),
{
    if factors.len() == 0 {
        0
    } else if max_h(factors.drop_last()) < factors.last().h {
        factors.last().h as int
    } else {
        max_h(factors.drop_last())
    }
}

/// The largest sampling factor down.
pub open spec fn max_v(factors: Seq<Factors>) -> int
    decreases factors.len(),
{
    if factors.len() == 0 {
        0
    } else if max_v(factors.drop_last()) < factors.last().v {
        factors.last().v as int
    } else {
        max_v(factors.drop_last())
    }
}

/// The component is sampled half as often down as the most often sampled one, and as
/// often or half as often across.
pub open spec fn is_halved_down(factors: Seq<Factors>, c: int) -> bool {
    let across = max_h(factors) / (factors[c].h as int);
    &&& across == 1 || across == 2
    &&& max_v(factors) / (factors[c].v as int) == 2
}

/// The component is sampled half as often as the most often sampled one, both across
/// and down.
pub open spec fn is_halved(factors: Seq<Factors>, c: int) -> bool {
    &&& max_h(factors) / (factors[c].h as int) == 2
    &&& max_v(factors) / (factors[c].v as int) == 2
}

/// How many groups of `f` blocks, each of eight samples, a side of that size takes.
pub open spec fn groups(size: int, f: int) -> int {
    (size + 8 * f - 1) / (8 * f)
}

/// How many blocks the decoder lets a row of the component take: it goes by the largest
/// sampling factor among this component and those ahead of it.
pub open spec fn row_room(frame: FrameView, c: int) -> int {
    frame.factors[c].h * groups(frame.width, max_h(frame.factors.take(c + 1)))
}

/// How many blocks a row of the component takes.
pub open spec fn row_blocks(frame: FrameView, c: int) -> int {
    frame.factors[c].h * groups(frame.width, max_h(frame.factors))
}

/// The rows of every component take the room that the decoder gives them.
pub open spec fn is_even(frame: FrameView) -> bool {
    groups(frame.width, frame.factors[0].h as int) == groups(frame.width, max_h(frame.factors))
}

/// A row that the decoder begins inside the component's blocks ends behind them.
pub open spec fn is_overrun(frame: FrameView, c: int) -> bool {
    let v = frame.factors[c].v as int;
    let rows = groups(frame.height, max_v(frame.factors));
    let left = (v * (row_blocks(frame, c) * rows)) % (v * row_room(frame, c));
    0 < left < row_room(frame, c)
}

/// Two rows of the component, which is halved, do not fit into one of the first one.
pub open spec fn is_crowded(frame: FrameView, c: int) -> bool {
    is_halved(frame.factors, c) && 2 * row_room(frame, c) > row_room(frame, 0)
}

/// Some component is crowded.
pub open spec fn has_crowded(frame: FrameView) -> bool {
    exists|c: int| 0 <= c < frame.factors.len() && #[trigger] is_crowded(frame, c)
}

/// Some component is overrun.
pub open spec fn has_overrun(frame: FrameView) -> bool {
    exists|c: int| 0 <= c < frame.factors.len() && #[trigger] is_overrun(frame, c)
}

/// Some component is halved down.
pub open spec fn has_halved_down(frame: FrameView) -> bool {
    exists|c: int| 0 <= c < frame.factors.len() && #[trigger] is_halved_down(frame.factors, c)
}

/// How many blocks the component has that has the most of them, among the first `k`.
pub open spec fn most_blocks(frame: FrameView, k: nat) -> int
    decreases k,
{
    if k == 0 {
        0
    } else {
        let c = k - 1;
        let rows = groups(frame.height, max_v(frame.factors));
        jpeg::larger(
            most_blocks(frame, c as nat),
            frame.factors[c].v * (row_room(frame, c) * rows),
        )
    }
}

/// The largest number of that many bits.
pub open spec fn most_of_bits(bits: nat) -> int
    decreases bits,
{
    if bits == 0 {
        0
    } else {
        2 * most_of_bits((bits - 1) as nat) + 1
    }
}

proof fn lemma_most_of_bits(bits: nat)
    requires
        bits <= 15,
    ensures
        most_of_bits(bits) <= 0x7fff,
{
    reveal_with_fuel(most_of_bits, 16);
}

/// What the decoder adds to a block's constant coefficient to round and to center it.
pub const CENTER: u32 = 1028;

/// However the scans of a baseline image run, no constant coefficient leaves the range of
/// the decoder's arithmetic: each is the sum of at most one difference for each block of
/// each scan, times a first value of a quantization table. Where the decoder starts afresh
/// in between depends on the data, so that is not reckoned with.
pub open spec fn stays_in_range(h: HeadersView, s: ScansView) -> bool {
    let sum = s.scans * most_blocks(h.frame, h.frame.factors.len()) * most_of_bits(s.bits as nat);
    sum * h.quant + CENTER <= i32::MAX
}

/// The decoder takes the only component of a frame to be sampled once, and has no room to
/// round one of its sides up to whole blocks.
pub open spec fn is_too_long(h: HeadersView) -> bool {
    &&& h.color == Color::Luma
    &&& h.frame.factors[0].h > 1 || h.frame.factors[0].v > 1
    &&& h.frame.width > 65528 || h.frame.height > 65528
}

/// The decoder can take a frame with these headers.
pub open spec fn can_decode_frame(data: Seq<u8>, h: HeadersView) -> bool {
    if h.frame.progressive {
        &&& !(h.frame.factors.len() < 3 && h.color == Color::Ycck)
        &&& !(is_even(h.frame) && has_crowded(h.frame))
        &&& !(h.frame.factors.len() == 4 && has_halved_down(h.frame) && (h.color == Color::Ycbcr
            || jpeg::is_marked_from(data, h.body)))
    } else {
        let first = ScansView { scans: 1, bits: h.bits };
        &&& !is_too_long(h)
        &&& h.scan != h.frame.factors.len() ==> !has_overrun(h.frame) && !has_crowded(h.frame)
        &&& stays_in_range(h, jpeg::scans_from(data, h.body, false, first))
    }
}

/// The most bytes that the decoder can count.
pub const MOST_BYTES: usize = 0x7fff_ffff;

/// The decoder can take the image's frame, or finds headers that it refuses. Left out
/// are images of more bytes than it can count, and:
///
/// - a progressive frame of one or two components that are marked as four;
/// - a progressive frame of four components, one of them halved down, that are or may
///   come to be marked as three;
/// - a frame, progressive or in several scans, of which a component is halved and two
///   of its rows do not fit into one of the first component, which is sampled less
///   often across than another one;
/// - a frame in several scans whose first component is sampled less often across than
///   another one, so that some row ends behind the component's blocks;
/// - a baseline frame of one component that is sampled more than once and has a side
///   that cannot be rounded up;
/// - a baseline frame of so many blocks, with such tables, that a constant coefficient
///   could leave the range of the decoder's arithmetic.
pub open spec fn can_decode(data: Seq<u8>) -> bool {
    &&& data.len() <= MOST_BYTES
    &&& jpeg::headers(data) matches Some(h) ==> can_decode_frame(data, h)
}

/// The largest sampling factors, across and down.
fn largest(factors: &Vec<Factors>) -> (r: Factors)
    ensures
        r.h == max_h(factors@),
        r.v == max_v(factors@),
{
    let mut r = Factors { h: 0, v: 0 };
    let mut c: usize = 0;
    assert(factors@.take(0).len() == 0);
    while c < factors.len()
        invariant
            c <= factors@.len(),
            r.h == max_h(factors@.take(c as int)),
            r.v == max_v(factors@.take(c as int)),
        decreases factors@.len() - c,
    {
        let f = factors[c];
        assert(factors@.take(c + 1).drop_last() =~= factors@.take(c as int));
        if r.h < f.h {
            r.h = f.h;
        }
        if r.v < f.v {
            r.v = f.v;
        }
        c += 1;
    }
    assert(factors@.take(c as int) =~= factors@);
    r
}

/// How many groups of `f` blocks, each of eight samples, a side of that size takes.
fn group_count(size: u16, f: u8) -> (r: u64)
    requires
        0 < size,
        0 < f,
    ensures
        r == groups(size as int, f as int),
        1 <= r <= 8192,
{
    let r: u64 = (size as u64 + 8 * f as u64 - 1) / (8 * f as u64);
    assert(1 <= r <= 8192) by (nonlinear_arith)
        requires
            r == (size + 8 * f - 1) / (8 * f),
            0 < size <= 0xffff,
            0 < f,
    ;
    r
}

/// How many blocks that many groups of `h` blocks have.
fn block_count(h: u8, groups: u64) -> (r: u64)
    requires
        0 < h,
        1 <= groups <= 8192,
    ensures
        r == h * groups,
        0 < r <= 0x20_0000,
{
    assert(0 < h * groups <= 255 * 8192) by (nonlinear_arith)
        requires
            0 < h <= 255,
            1 <= groups <= 8192,
    ;
    h as u64 * groups
}

/// How many blocks `v` times that many rows of `room` blocks have.
fn times_rows(room: u64, rows: u64, v: u8) -> (r: u64)
    requires
        room <= 0x20_0000,
        rows <= 8192,
    ensures
        r == v * (room * rows),
        r <= 255 * (0x20_0000 * 8192),
{
    assert(room * rows <= 0x20_0000 * 8192) by (nonlinear_arith)
        requires
            room <= 0x20_0000,
            rows <= 8192,
    ;
    let all: u64 = room * rows;
    assert(v * all <= 255 * (0x20_0000 * 8192)) by (nonlinear_arith)
        requires
            v <= 255,
            all <= 0x20_0000 * 8192,
    ;
    v as u64 * all
}

/// A row of `room` blocks that begins inside a component of that many blocks across,
/// times `v` and `rows` down, may end behind it.
fn overrun(room: u64, across: u64, rows: u64, v: u8) -> (r: bool)
    requires
        0 < room <= 0x20_0000,
        across <= 0x20_0000,
        rows <= 8192,
        0 < v,
    ensures
        r == (0 < (v * (across * rows)) % (v * room) < room),
{
    let all = times_rows(across, rows, v);
    assert(0 < v * room <= 255 * 0x20_0000) by (nonlinear_arith)
        requires
            0 < v <= 255,
            0 < room <= 0x20_0000,
    ;
    let left: u64 = all % (v as u64 * room);
    0 < left && left < room
}

/// The largest number of that many bits.
fn mask(bits: u8) -> (r: u128)
    requires
        bits <= 15,
    ensures
        r == most_of_bits(bits as nat),
        r <= 0x7fff,
{
    let mut r: u128 = 0;
    let mut k: u8 = 0;
    while k < bits
        invariant
            k <= bits <= 15,
            r == most_of_bits(k as nat) <= 0x7fff,
        decreases bits - k,
    {
        r = 2 * r + 1;
        k += 1;
        proof {
            lemma_most_of_bits(k as nat);
        }
    }
    r
}

/// Whether so many scans of so many blocks, with such tables, keep the constant
/// coefficients in range.
fn in_range(scans: usize, blocks: u64, bits: u8, quant: u16) -> (r: bool)
    requires
        scans <= 0x8000_0000,
        blocks <= 255 * (0x20_0000 * 8192),
        bits <= 15,
    ensures
        r == (scans * blocks * most_of_bits(bits as nat) * quant + CENTER <= i32::MAX),
{
    let step = mask(bits);
    let ghost most = 255 * (0x20_0000 * 8192);
    assert(scans * blocks <= 0x8000_0000 * most) by (nonlinear_arith)
        requires
            scans <= 0x8000_0000,
            blocks <= most,
    ;
    let all: u128 = scans as u128 * blocks as u128;
    assert(all * step <= (0x8000_0000 * most) * 0x7fff) by (nonlinear_arith)
        requires
            all <= 0x8000_0000 * most,
            step <= 0x7fff,
    ;
    let sum: u128 = all * step;
    assert(sum * quant <= ((0x8000_0000 * most) * 0x7fff) * 0xffff) by (nonlinear_arith)
        requires
            sum <= (0x8000_0000 * most) * 0x7fff,
            quant <= 0xffff,
    ;
    sum * quant as u128 + CENTER as u128 <= 0x7fff_ffff
}

/// Whether the decoder can take a frame with these headers.
fn decide(data: &[u8], headers: &Headers) -> (r: bool)
    requires
        data@.len() <= MOST_BYTES,
        headers.wf(),
        headers.body <= data@.len(),
    ensures
        r == can_decode_frame(data@, headers@),
{
    let frame = &headers.frame;
    let factors = &frame.factors;
    let most = largest(factors);
    let wide: u64 = group_count(frame.width, most.h);
    let rows: u64 = group_count(frame.height, most.v);
    let narrow: u64 = group_count(frame.width, factors[0].h);
    let first: u64 = block_count(factors[0].h, narrow);
    assert(max_h(factors@.take(1)) == factors@[0].h) by {
        assert(factors@.take(1).drop_last() =~= factors@.take(0));
        assert(max_h(factors@.take(0)) == 0);
    }
    let mut run: u8 = 0;
    let mut blocks: u64 = 0;
    let mut crowded = false;
    let mut overruns = false;
    let mut halved_down = false;
    let mut c: usize = 0;
    while c < factors.len()
        invariant
            c <= factors@.len(),
            frame == headers.frame,
            factors == frame.factors,
            frame.wf(),
            most.h == max_h(factors@),
            most.v == max_v(factors@),
            wide == groups(frame.width as int, most.h as int),
            rows == groups(frame.height as int, most.v as int),
            1 <= wide <= 8192,
            rows <= 8192,
            first == row_room(frame@, 0),
            run == max_h(factors@.take(c as int)),
            blocks == most_blocks(frame@, c as nat) <= 255 * (0x20_0000 * 8192),
            crowded == exists|j: int| 0 <= j < c && #[trigger] is_crowded(frame@, j),
            overruns == exists|j: int| 0 <= j < c && #[trigger] is_overrun(frame@, j),
            halved_down == exists|j: int| 0 <= j < c && #[trigger] is_halved_down(factors@, j),
        decreases factors@.len() - c,
    {
        let f = factors[c];
        assert(factors@.take(c + 1).drop_last() =~= factors@.take(c as int));
        if run < f.h {
            run = f.h;
        }
        let own: u64 = group_count(frame.width, run);
        let room: u64 = block_count(f.h, own);
        let across: u64 = block_count(f.h, wide);
        let ratio: u8 = most.h / f.h;
        if most.v / f.v == 2 {
            if ratio == 2 && 2 * room > first {
                assert(is_crowded(frame@, c as int));
                crowded = true;
            }
            if ratio == 1 || ratio == 2 {
                assert(is_halved_down(factors@, c as int));
                halved_down = true;
            }
        }
        if overrun(room, across, rows, f.v) {
            assert(is_overrun(frame@, c as int));
            overruns = true;
        }
        let own_blocks: u64 = times_rows(room, rows, f.v);
        if blocks < own_blocks {
            blocks = own_blocks;
        }
        c += 1;
    }
    if frame.progressive {
        !(factors.len() < 3 && headers.color == Color::Ycck) && !(narrow == wide && crowded) && !(
        factors.len() == 4 && halved_down && (headers.color == Color::Ycbcr || jpeg::marked_ycbcr(
            data,
            headers.body,
        )))
    } else {
        let found = jpeg::read_scans(data, headers.body, headers.bits);
        let sampled = factors[0].h > 1 || factors[0].v > 1;
        let long = frame.width > 65528 || frame.height > 65528;
        !(headers.color == Color::Luma && sampled && long) && (headers.scan as usize
            == factors.len() || (!overruns && !crowded)) && in_range(
            found.scans,
            blocks,
            found.bits,
            headers.quant,
        )
    }
}

/// Whether the decoder can take the image's frame.
pub fn frame_can_decode(data: &[u8]) -> (r: bool)
    ensures
        r == can_decode(data@),
{
    if data.len() > MOST_BYTES {
        return false;
    }
    match jpeg::read_headers(data) {
        None => true,
        Some(h) => decide(data, &h),
    }
}

/// The largest sampling factors are those of some component, and no component has larger
/// ones.
pub proof fn law_largest_factors(factors: Seq<Factors>)
    requires
        factors.len() > 0,
        forall|c: int|
            0 <= c < factors.len() ==> 0 < (#[trigger] factors[c]).h && 0 < factors[c].v,
    ensures
        forall|c: int|
            0 <= c < factors.len() ==> (#[trigger] factors[c]).h <= max_h(factors) && factors[c].v
                <= max_v(factors),
        exists|c: int| 0 <= c < factors.len() && (#[trigger] factors[c]).h == max_h(factors),
        exists|c: int| 0 <= c < factors.len() && (#[trigger] factors[c]).v == max_v(factors),
    decreases factors.len(),
{
    let init = factors.drop_last();
    let n = factors.len() - 1;
    assert(factors[n] == factors.last());
    assert(max_h(Seq::empty()) == 0 && max_v(Seq::empty()) == 0);
    if n > 0 {
        assert forall|c: int| 0 <= c < init.len() implies 0 < (#[trigger] init[c]).h && 0
            < init[c].v by {
            assert(init[c] == factors[c]);
        }
        law_largest_factors(init);
        let i = choose|c: int| 0 <= c < init.len() && (#[trigger] init[c]).h == max_h(init);
        let j = choose|c: int| 0 <= c < init.len() && (#[trigger] init[c]).v == max_v(init);
        assert(factors[i].h == max_h(init));
        assert(factors[j].v == max_v(init));
        assert forall|c: int| 0 <= c < factors.len() implies (#[trigger] factors[c]).h <= max_h(
            factors,
        ) && factors[c].v <= max_v(factors) by {
            if c < n {
                assert(init[c] == factors[c]);
            }
        }
    } else {
        assert(init =~= Seq::empty());
    }
}

/// The groups of blocks along a side cover it, and one less would not.
pub proof fn law_groups_cover_the_side(size: int, f: int)
    requires
        0 < size,
        0 < f,
    ensures
        groups(size, f) * (8 * f) >= size,
        (groups(size, f) - 1) * (8 * f) < size,
{
    let d = 8 * f;
    let q = (size + d - 1) / d;
    vstd::arithmetic::div_mod::lemma_fundamental_div_mod(size + d - 1, d);
    vstd::arithmetic::div_mod::lemma_mod_bound(size + d - 1, d);
    assert(q * d == d * q) by (nonlinear_arith);
    assert((q - 1) * d == q * d - d) by (nonlinear_arith);
}

/// A number of so many bits is below that power of two, and all below it are.
pub proof fn law_bits_make_a_power_of_two(bits: nat)
    ensures
        most_of_bits(bits) + 1 == vstd::arithmetic::power2::pow2(bits),
    decreases bits,
{
    if bits == 0 {
        vstd::arithmetic::power2::lemma2_to64();
    } else {
        law_bits_make_a_power_of_two((bits - 1) as nat);
        vstd::arithmetic::power2::lemma_pow2_unfold(bits);
    }
}

/// How many blocks a component has: each of its rows takes groups of blocks for the largest
/// factor across so far, and there are groups of rows for the largest factor down. No
/// component has more blocks than the one with the most, which is one of them.
pub proof fn law_most_blocks(frame: FrameView, k: nat)
    requires
        0 < frame.width,
        0 < frame.height,
        k <= frame.factors.len(),
        forall|c: int|
            0 <= c < frame.factors.len() ==> 0 < (#[trigger] frame.factors[c]).h && 0
                < frame.factors[c].v,
    ensures
        forall|c: int|
            0 <= c < k ==> (#[trigger] frame.factors[c]).v * (frame.factors[c].h * groups(
                frame.width,
                max_h(frame.factors.take(c + 1)),
            ) * groups(frame.height, max_v(frame.factors))) <= most_blocks(frame, k),
        k > 0 ==> exists|c: int|
            0 <= c < k && (#[trigger] frame.factors[c]).v * (frame.factors[c].h * groups(
                frame.width,
                max_h(frame.factors.take(c + 1)),
            ) * groups(frame.height, max_v(frame.factors))) == most_blocks(frame, k),
    decreases k,
{
    if k > 0 {
        let n = k - 1;
        let rows = groups(frame.height, max_v(frame.factors));
        law_most_blocks(frame, n as nat);
        let own = frame.factors[n].v * (frame.factors[n].h * groups(
            frame.width,
            max_h(frame.factors.take(n + 1)),
        ) * rows);
        assert(own == frame.factors[n].v * (row_room(frame, n) * rows));
        if n == 0 {
            lemma_blocks_positive(frame, 0);
            assert(most_blocks(frame, 0) == 0);
            assert(most_blocks(frame, k) == own);
            assert(frame.factors[n].v > 0);
        } else {
            let c = choose|c: int|
                0 <= c < n && (#[trigger] frame.factors[c]).v * (frame.factors[c].h * groups(
                    frame.width,
                    max_h(frame.factors.take(c + 1)),
                ) * rows) == most_blocks(frame, n as nat);
            if most_blocks(frame, k) == most_blocks(frame, n as nat) {
                assert(frame.factors[c].v > 0);
            } else {
                assert(frame.factors[n].v > 0);
            }
        }
    }
}

proof fn lemma_blocks_positive(frame: FrameView, c: int)
    requires
        0 < frame.width,
        0 < frame.height,
        0 <= c < frame.factors.len(),
        forall|c: int|
            0 <= c < frame.factors.len() ==> 0 < (#[trigger] frame.factors[c]).h && 0
                < frame.factors[c].v,
    ensures
        0 < row_room(frame, c),
        0 < groups(frame.height, max_v(frame.factors)),
        0 < frame.factors[c].v * (row_room(frame, c) * groups(frame.height, max_v(frame.factors))),
{
    let part = frame.factors.take(c + 1);
    assert forall|j: int| 0 <= j < part.len() implies 0 < (#[trigger] part[j]).h && 0
        < part[j].v by {
        assert(part[j] == frame.factors[j]);
    }
    law_largest_factors(part);
    law_largest_factors(frame.factors);
    assert(part[c] == frame.factors[c]);
    let m = max_h(part);
    let w = max_v(frame.factors);
    assert(m > 0 && w > 0);
    law_groups_cover_the_side(frame.width, m);
    law_groups_cover_the_side(frame.height, w);
    let g = groups(frame.width, m);
    let rows = groups(frame.height, w);
    assert(g > 0) by (nonlinear_arith)
        requires
            g * (8 * m) >= frame.width,
            frame.width > 0,
            m > 0,
    ;
    assert(rows > 0) by (nonlinear_arith)
        requires
            rows * (8 * w) >= frame.height,
            frame.height > 0,
            w > 0,
    ;
    let h = frame.factors[c].h as int;
    let v = frame.factors[c].v as int;
    assert(h * g > 0) by (nonlinear_arith)
        requires
            h > 0,
            g > 0,
    ;
    assert(v * (h * g * rows) > 0) by (nonlinear_arith)
        requires
            h * g > 0,
            v > 0,
            rows > 0,
    ;
}

/// Where the first component is sampled across as often as any, the rows of every
/// component take the room that they are given: none is overrun and none is crowded.
proof fn lemma_first_sampled_most(frame: FrameView)
    requires
        0 < frame.width,
        0 < frame.height,
        0 < frame.factors.len(),
        forall|c: int|
            0 <= c < frame.factors.len() ==> 0 < (#[trigger] frame.factors[c]).h && 0
                < frame.factors[c].v && frame.factors[c].h <= frame.factors[0].h,
    ensures
        !has_overrun(frame),
        !has_crowded(frame),
{
    let m = frame.factors[0].h as int;
    law_largest_factors(frame.factors);
    let i = choose|c: int|
        0 <= c < frame.factors.len() && (#[trigger] frame.factors[c]).h == max_h(frame.factors);
    assert(max_h(frame.factors) == m);
    let g = groups(frame.width, m);
    let rows = groups(frame.height, max_v(frame.factors));
    assert forall|c: int| 0 <= c < frame.factors.len() implies #[trigger] row_room(frame, c)
        == frame.factors[c].h * g by {
        let part = frame.factors.take(c + 1);
        assert forall|j: int| 0 <= j < part.len() implies 0 < (#[trigger] part[j]).h && 0
            < part[j].v by {
            assert(part[j] == frame.factors[j]);
        }
        law_largest_factors(part);
        assert(part[0] == frame.factors[0]);
        let j = choose|j: int| 0 <= j < part.len() && (#[trigger] part[j]).h == max_h(part);
        assert(part[j] == frame.factors[j]);
    }
    assert forall|c: int| 0 <= c < frame.factors.len() implies !#[trigger] is_overrun(
        frame,
        c,
    ) by {
        let v = frame.factors[c].v as int;
        let room = row_room(frame, c);
        lemma_blocks_positive(frame, c);
        assert(v * (room * rows) == rows * (v * room)) by (nonlinear_arith);
        assert(v * room > 0) by (nonlinear_arith)
            requires
                v > 0,
                room > 0,
        ;
        vstd::arithmetic::div_mod::lemma_mod_multiples_basic(rows, v * room);
    }
    assert forall|c: int| 0 <= c < frame.factors.len() implies !#[trigger] is_crowded(
        frame,
        c,
    ) by {
        let h = frame.factors[c].h as int;
        lemma_blocks_positive(frame, c);
        lemma_blocks_positive(frame, 0);
        if m / h == 2 {
            assert(2 * h <= m) by (nonlinear_arith)
                requires
                    m / h == 2,
                    h > 0,
            ;
            assert(2 * (h * g) <= m * g) by (nonlinear_arith)
                requires
                    2 * h <= m,
                    m * g > 0,
                    m > 0,
            ;
        }
    }
}

/// A baseline image whose first scan holds all its components is taken, whatever its
/// sampling, unless it is an over-long one of a single component or its sums leave the
/// decoder's range: scans, times blocks, times the largest difference, times the largest
/// first value of a table.
pub proof fn law_one_scan_is_taken(data: Seq<u8>, h: HeadersView, scans: int, bits: nat)
    requires
        !h.frame.progressive,
        h.scan == h.frame.factors.len(),
        h.frame.factors.len() > 0,
        ({
            let s = jpeg::scans_from(data, h.body, false, ScansView { scans: 1, bits: h.bits });
            s.scans == scans && s.bits == bits
        }),
    ensures
        ({
            let most = most_blocks(h.frame, h.frame.factors.len());
            let size = vstd::arithmetic::power2::pow2(bits) - 1;
            let fits = scans * most * size * h.quant + 1028 <= 0x7fff_ffff;
            let long = h.frame.width > 65528 || h.frame.height > 65528;
            let once = h.frame.factors[0].h <= 1 && h.frame.factors[0].v <= 1;
            &&& fits && !long ==> can_decode_frame(data, h)
            &&& fits && h.color != Color::Luma ==> can_decode_frame(data, h)
            &&& fits && once ==> can_decode_frame(data, h)
            &&& !fits ==> !can_decode_frame(data, h)
            &&& long && !once && h.color == Color::Luma ==> !can_decode_frame(data, h)
        }),
{
    law_bits_make_a_power_of_two(bits);
}

/// A baseline image in several scans is taken where it would be in one and its first
/// component is sampled across as often as any.
pub proof fn law_several_scans_are_taken(data: Seq<u8>, h: HeadersView)
    requires
        !h.frame.progressive,
        0 < h.frame.width,
        0 < h.frame.height,
        0 < h.frame.factors.len(),
        forall|c: int|
            0 <= c < h.frame.factors.len() ==> 0 < (#[trigger] h.frame.factors[c]).h && 0
                < h.frame.factors[c].v && h.frame.factors[c].h <= h.frame.factors[0].h,
    ensures
        can_decode_frame(data, h) <==> can_decode_frame(
            data,
            HeadersView { scan: h.frame.factors.len() as int, ..h },
        ),
{
    lemma_first_sampled_most(h.frame);
}

/// A baseline image in several scans is refused where a row of some component begins
/// inside its blocks and ends behind them: behind whole groups of rows, fewer blocks are
/// left than a row takes.
pub proof fn law_overrun_rows_are_refused(data: Seq<u8>, h: HeadersView, c: int, n: int, left: int)
    requires
        !h.frame.progressive,
        h.scan != h.frame.factors.len(),
        0 <= c < h.frame.factors.len(),
        0 <= n,
        0 < left,
        ({
            let f = h.frame.factors[c];
            let rows = groups(h.frame.height, max_v(h.frame.factors));
            let across = f.h * groups(h.frame.width, max_h(h.frame.factors));
            let room = f.h * groups(h.frame.width, max_h(h.frame.factors.take(c + 1)));
            &&& 0 < f.v
            &&& left < room
            &&& f.v * (across * rows) == n * (f.v * room) + left
        }),
    ensures
        !can_decode_frame(data, h),
{
    let v = h.frame.factors[c].v as int;
    let room = row_room(h.frame, c);
    let rows = groups(h.frame.height, max_v(h.frame.factors));
    let all = v * (row_blocks(h.frame, c) * rows);
    assert(v * room >= room) by (nonlinear_arith)
        requires
            v >= 1,
            room > 0,
    ;
    vstd::arithmetic::div_mod::lemma_fundamental_div_mod_converse(all, v * room, n, left);
    assert(is_overrun(h.frame, c));
}

/// A frame, progressive or in several scans, is refused where a component is sampled half
/// as often as another one both across and down, and two of its rows take more room than
/// one of the first component; a progressive one, only where the first component has all
/// the groups of blocks that a row takes.
pub proof fn law_crowded_rows_are_refused(data: Seq<u8>, h: HeadersView, c: int)
    requires
        0 <= c < h.frame.factors.len(),
        max_h(h.frame.factors) / (h.frame.factors[c].h as int) == 2,
        max_v(h.frame.factors) / (h.frame.factors[c].v as int) == 2,
        ({
            let own = h.frame.factors[c].h * groups(
                h.frame.width,
                max_h(h.frame.factors.take(c + 1)),
            );
            let first = h.frame.factors[0].h * groups(
                h.frame.width,
                h.frame.factors[0].h as int,
            );
            2 * own > first
        }),
    ensures
        !h.frame.progressive && h.scan != h.frame.factors.len() ==> !can_decode_frame(data, h),
        h.frame.progressive && groups(h.frame.width, h.frame.factors[0].h as int) == groups(
            h.frame.width,
            max_h(h.frame.factors),
        ) ==> !can_decode_frame(data, h),
{
    let one = h.frame.factors.take(1);
    assert(one.drop_last() =~= Seq::empty());
    assert(max_h(one.drop_last()) == 0);
    assert(one.last() == h.frame.factors[0]);
    assert(max_h(one) == h.frame.factors[0].h);
    assert(is_crowded(h.frame, c));
}

/// A progressive image is taken where its first component is sampled across as often as
/// any and it has three components, or one or two that are not marked as four, or four that
/// are all sampled alike down, or four that neither are nor come to be marked as three.
pub proof fn law_progressive_is_taken(data: Seq<u8>, h: HeadersView)
    requires
        h.frame.progressive,
        0 < h.frame.width,
        0 < h.frame.height,
        0 < h.frame.factors.len() <= 4,
        forall|c: int|
            0 <= c < h.frame.factors.len() ==> 0 < (#[trigger] h.frame.factors[c]).h && 0
                < h.frame.factors[c].v && h.frame.factors[c].h <= h.frame.factors[0].h,
    ensures
        h.frame.factors.len() == 3 ==> can_decode_frame(data, h),
        h.frame.factors.len() < 3 ==> (can_decode_frame(data, h) <==> h.color != Color::Ycck),
        h.frame.factors.len() == 4 && (forall|c: int|
            0 <= c < 4 ==> (#[trigger] h.frame.factors[c]).v == h.frame.factors[0].v)
            ==> can_decode_frame(data, h),
        h.frame.factors.len() == 4 && h.color != Color::Ycbcr && !jpeg::is_marked_from(
            data,
            h.body,
        ) ==> can_decode_frame(data, h),
{
    lemma_first_sampled_most(h.frame);
    let factors = h.frame.factors;
    if factors.len() == 4 && forall|c: int|
        0 <= c < 4 ==> (#[trigger] factors[c]).v == factors[0].v {
        law_largest_factors(factors);
        let j = choose|j: int| 0 <= j < factors.len() && (#[trigger] factors[j]).v == max_v(factors);
        assert forall|c: int| 0 <= c < factors.len() implies !#[trigger] is_halved_down(
            factors,
            c,
        ) by {
            let v = factors[c].v as int;
            assert(v == max_v(factors));
            assert(v / v == 1) by (nonlinear_arith)
                requires
                    v > 0,
            ;
        }
    }
}

/// A progressive image of four components is refused where one of them is sampled half as
/// often down as another, and not less than half as often across, and they are or come to
/// be marked as three.
pub proof fn law_halved_progressive_is_refused(data: Seq<u8>, h: HeadersView, c: int)
    requires
        h.frame.progressive,
        h.frame.factors.len() == 4,
        0 <= c < 4,
        max_v(h.frame.factors) / (h.frame.factors[c].v as int) == 2,
        1 <= max_h(h.frame.factors) / (h.frame.factors[c].h as int) <= 2,
        h.color == Color::Ycbcr || jpeg::is_marked_from(data, h.body),
    ensures
        !can_decode_frame(data, h),
{
    assert(is_halved_down(h.frame.factors, c));
}

/// Data that hold no headers to be taken are left to the decoder, which refuses them,
/// unless there are more bytes than it can count.
pub proof fn law_other_data_is_left_to_the_decoder(data: Seq<u8>)
    ensures
        data.len() > 0x7fff_ffff ==> !can_decode(data),
        data.len() <= 0x7fff_ffff && jpeg::headers(data) is None ==> can_decode(data),
        data.len() <= 0x7fff_ffff && jpeg::headers(data) is Some ==> (can_decode(data)
            <==> can_decode_frame(data, jpeg::headers(data)->0)),
{
}

/// In several scans a baseline image is taken exactly if it would be in one and, of each
/// component, what is left behind whole groups of rows is nothing or at least a row, and
/// two rows of a component that is halved both ways fit into one of the first.
pub proof fn law_several_scans_exactly(data: Seq<u8>, h: HeadersView)
    requires
        !h.frame.progressive,
        h.scan != h.frame.factors.len(),
        0 < h.frame.factors.len(),
    ensures
        can_decode_frame(data, h) <==> can_decode_frame(
            data,
            HeadersView { scan: h.frame.factors.len() as int, ..h },
        ) && forall|c: int|
            0 <= c < h.frame.factors.len() ==> {
                let f = #[trigger] h.frame.factors[c];
                let rows = groups(h.frame.height, max_v(h.frame.factors));
                let across = f.h * groups(h.frame.width, max_h(h.frame.factors));
                let room = f.h * groups(h.frame.width, max_h(h.frame.factors.take(c + 1)));
                let first = h.frame.factors[0].h * groups(
                    h.frame.width,
                    max_h(h.frame.factors.take(1)),
                );
                let left = (f.v * (across * rows)) % (f.v * room);
                let halved = max_h(h.frame.factors) / (f.h as int) == 2 && max_v(h.frame.factors)
                    / (f.v as int) == 2;
                (left <= 0 || room <= left) && (halved ==> 2 * room <= first)
            },
{
    let factors = h.frame.factors;
    assert forall|c: int| 0 <= c < factors.len() implies {
        let f = #[trigger] factors[c];
        let rows = groups(h.frame.height, max_v(factors));
        let across = f.h * groups(h.frame.width, max_h(factors));
        let room = f.h * groups(h.frame.width, max_h(factors.take(c + 1)));
        let first = factors[0].h * groups(h.frame.width, max_h(factors.take(1)));
        let left = (f.v * (across * rows)) % (f.v * room);
        let halved = max_h(factors) / (f.h as int) == 2 && max_v(factors) / (f.v as int) == 2;
        (left <= 0 || room <= left) && (halved ==> 2 * room <= first) <==> !is_overrun(h.frame, c)
            && !is_crowded(h.frame, c)
    } by {}
    if !has_overrun(h.frame) && !has_crowded(h.frame) {
        assert forall|c: int| 0 <= c < factors.len() implies !is_overrun(h.frame, c)
            && !is_crowded(h.frame, c) && (#[trigger] factors[c]) == factors[c] by {}
    }
    if has_overrun(h.frame) {
        let c = choose|c: int| 0 <= c < factors.len() && #[trigger] is_overrun(h.frame, c);
        assert(factors[c] == factors[c]);
    }
    if has_crowded(h.frame) {
        let c = choose|c: int| 0 <= c < factors.len() && #[trigger] is_crowded(h.frame, c);
        assert(factors[c] == factors[c]);
    }
}

/// A progressive image is taken exactly if none of three things holds: it has one or two
/// components that are marked as four; the first component has all the groups of blocks
/// that a row takes, and of a component that is halved both ways two rows do not fit into
/// one of the first; it has four components that are or come to be marked as three, one of
/// them halved down and at most halved across.
pub proof fn law_progressive_exactly(data: Seq<u8>, h: HeadersView)
    requires
        h.frame.progressive,
    ensures
        can_decode_frame(data, h) <==> {
            let factors = h.frame.factors;
            &&& h.color == Color::Ycck ==> factors.len() >= 3
            &&& groups(h.frame.width, factors[0].h as int) != groups(
                h.frame.width,
                max_h(factors),
            ) || forall|c: int|
                0 <= c < factors.len() ==> {
                    let f = #[trigger] factors[c];
                    let room = f.h * groups(h.frame.width, max_h(factors.take(c + 1)));
                    let first = factors[0].h * groups(h.frame.width, max_h(factors.take(1)));
                    max_h(factors) / (f.h as int) == 2 && max_v(factors) / (f.v as int) == 2 ==> 2
                        * room <= first
                }
            &&& factors.len() == 4 && (h.color == Color::Ycbcr || jpeg::is_marked_from(
                data,
                h.body,
            )) ==> forall|c: int|
                0 <= c < 4 ==> {
                    let f = #[trigger] factors[c];
                    let across = max_h(factors) / (f.h as int);
                    max_v(factors) / (f.v as int) == 2 ==> across < 1 || across > 2
                }
        },
{
    let factors = h.frame.factors;
    if has_crowded(h.frame) {
        let c = choose|c: int| 0 <= c < factors.len() && #[trigger] is_crowded(h.frame, c);
        assert(factors[c] == factors[c]);
    } else {
        assert forall|c: int| 0 <= c < factors.len() implies !is_crowded(h.frame, c) && (
        #[trigger] factors[c]) == factors[c] by {}
    }
    if has_halved_down(h.frame) {
        let c = choose|c: int| 0 <= c < factors.len() && #[trigger] is_halved_down(factors, c);
        assert(factors[c] == factors[c]);
    } else {
        assert forall|c: int| 0 <= c < factors.len() implies !is_halved_down(factors, c) && (
        #[trigger] factors[c]) == factors[c] by {}
    }
}

} // verus!
