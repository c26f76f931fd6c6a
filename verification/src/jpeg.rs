//! The headers of a JPEG image, as the image decoder reads them, and the markers that it
//! may come upon behind the first scan header.
//!
//! An image is a row of segments. A segment starts with a marker, the byte 255 and one
//! that is neither 0 nor 255, and a length of two bytes, which counts itself. The frame
//! header gives the image's size and its components; the first scan header ends the
//! headers.

use vstd::prelude::*;

verus! {

/// The second byte of the marker of a baseline frame header.
pub const BASELINE: u8 = 0xc0;

/// That of an extended sequential frame header, which the decoder takes for a baseline one.
pub const EXTENDED: u8 = 0xc1;

/// That of a progressive frame header.
pub const PROGRESSIVE: u8 = 0xc2;

/// That of Huffman tables.
pub const HUFFMAN: u8 = 0xc4;

/// That of arithmetic conditioning, which the decoder refuses.
pub const ARITHMETIC: u8 = 0xcc;

/// That of the end of the image.
pub const END: u8 = 0xd9;

/// That of a scan header.
pub const SCAN: u8 = 0xda;

/// That of quantization tables.
pub const QUANTIZATION: u8 = 0xdb;

/// That of a number of lines, which the decoder refuses.
pub const LINES: u8 = 0xdc;

/// That of a restart interval.
pub const RESTART: u8 = 0xdd;

/// That of a JFIF segment, and of others with the same marker.
pub const JFIF: u8 = 0xe0;

/// That of an Exif segment, and of others with the same marker.
pub const EXIF: u8 = 0xe1;

/// That of a color profile, and of others with the same marker.
pub const PROFILE: u8 = 0xe2;

/// That of a Photoshop segment, and of others with the same marker.
pub const PHOTOSHOP: u8 = 0xed;

/// That of an Adobe segment, and of others with the same marker.
pub const ADOBE: u8 = 0xee;

/// That of a comment.
pub const COMMENT: u8 = 0xfe;

/// What an image's components stand for.
#[derive(Clone, Copy, Debug, PartialEq, Eq, Structural)]
pub enum Color {
    Luma,
    Ycbcr,
    Cmyk,
    Ycck,
}

/// How often a component is sampled, across and down.
#[derive(Clone, Copy, Debug, PartialEq, Eq, Structural)]
pub struct Factors {
    pub h: u8,
    pub v: u8,
}

/// What a frame header says.
#[verifier::ext_equal]
pub struct FrameView {
    pub progressive: bool,
    pub width: int,
    pub height: int,
    pub factors: Seq<Factors>,
}

/// What has been read of an image's headers: its frame, what the components stand for,
/// the largest first value of a quantization table, and the largest size, in bits, of the
/// difference of two constant coefficients.
#[verifier::ext_equal]
pub struct ReadView {
    pub frame: Option<FrameView>,
    pub color: Color,
    pub quant: int,
    pub bits: int,
}

/// What the headers of an image say: besides what was read ahead of the first scan
/// header, how many components the first scan holds, and where its data begin.
#[verifier::ext_equal]
pub struct HeadersView {
    pub frame: FrameView,
    pub color: Color,
    pub quant: int,
    pub bits: int,
    pub scan: int,
    pub body: int,
}

/// The number in the two bytes at `i`.
pub open spec fn be16(data: Seq<u8>, i: int) -> int {
    data[i] * 256 + data[i + 1]
}

/// A marker stands at `i`.
pub open spec fn is_marker(data: Seq<u8>, i: int) -> bool {
    data[i] == 0xff && data[i + 1] != 0 && data[i + 1] != 0xff
}

/// Where the first marker at or behind `q` stands.
pub open spec fn marker_from(data: Seq<u8>, q: int) -> Option<int>
    decreases data.len() - q,
{
    if q + 1 >= data.len() {
        None
    } else if is_marker(data, q) {
        Some(q)
    } else {
        marker_from(data, q + 1)
    }
}

/// A marker that is found stands at or behind `q`, with a byte behind it.
pub proof fn lemma_marker_from(data: Seq<u8>, q: int)
    ensures
        marker_from(data, q) matches Some(i) ==> q <= i && i + 1 < data.len(),
    decreases data.len() - q,
{
    if q + 1 < data.len() && !is_marker(data, q) {
        lemma_marker_from(data, q + 1);
    }
}

/// The sampling factors of the component whose description stands at `p`.
pub open spec fn factors_at(data: Seq<u8>, p: int) -> Factors {
    Factors { h: data[p + 1] / 16, v: data[p + 1] % 16 }
}

/// The description of a component at `p` is one that the decoder takes.
pub open spec fn is_component(data: Seq<u8>, p: int) -> bool {
    let f = factors_at(data, p);
    &&& f.h == 1 || f.h == 2 || f.h == 4
    &&& 1 <= f.v <= 4
    &&& data[p + 2] < 4
}

/// The frame header whose marker stands at `i`, if the decoder takes it.
pub open spec fn frame_at(data: Seq<u8>, i: int) -> Option<FrameView> {
    let n = be16(data, i + 2);
    let k = data[i + 9] as int;
    if {
        &&& i + 2 + n <= data.len()
        &&& n == 8 + 3 * k
        &&& 1 <= k <= 4
        &&& data[i + 4] == 8
        &&& be16(data, i + 5) != 0
        &&& be16(data, i + 7) != 0
        &&& forall|c: int| 0 <= c < k ==> #[trigger] is_component(data, i + 10 + 3 * c)
    } {
        Some(
            FrameView {
                progressive: data[i + 1] == PROGRESSIVE,
                width: be16(data, i + 7),
                height: be16(data, i + 5),
                factors: Seq::new(k as nat, |c: int| factors_at(data, i + 10 + 3 * c)),
            },
        )
    } else {
        None
    }
}

/// What an image's components stand for once its frame header has been read.
pub open spec fn after_frame(color: Color, components: int) -> Color {
    if components == 1 {
        Color::Luma
    } else if components == 4 && color == Color::Ycbcr {
        Color::Cmyk
    } else {
        color
    }
}

/// The segment whose marker stands at `i` is Adobe's.
pub open spec fn is_adobe(data: Seq<u8>, i: int) -> bool {
    &&& i + 9 <= data.len()
    &&& data[i + 1] == ADOBE
    &&& data.subrange(i + 4, i + 9) == seq![0x41u8, 0x64u8, 0x6fu8, 0x62u8, 0x65u8]
}

/// What the components stand for by the Adobe segment whose marker stands at `i`.
pub open spec fn adobe_color(data: Seq<u8>, i: int) -> Option<Color> {
    if be16(data, i + 2) < 14 || i + 16 > data.len() {
        None
    } else if data[i + 15] == 0 {
        Some(Color::Cmyk)
    } else if data[i + 15] == 1 {
        Some(Color::Ycbcr)
    } else if data[i + 15] == 2 {
        Some(Color::Ycck)
    } else {
        None
    }
}

/// Where the decoder goes on behind a segment that it passes over: `m` is the marker's
/// second byte and `n` the segment's length.
pub open spec fn past_segment(i: int, m: u8, n: int) -> int {
    if m == JFIF && n == 6 {
        i + 9
    } else {
        i + 2 + n
    }
}

/// A number, or one that is there, whichever is larger.
spec fn larger_of(a: int, b: Option<int>) -> Option<int> {
    match b {
        None => None,
        Some(b) => Some(larger(a, b)),
    }
}

/// The larger of two numbers.
pub open spec fn larger(a: int, b: int) -> int {
    if a < b {
        b
    } else {
        a
    }
}

/// The sum of the `k` bytes at `p`.
pub open spec fn sum_at(data: Seq<u8>, p: int, k: nat) -> int
    decreases k,
{
    if k == 0 {
        0
    } else {
        sum_at(data, p, (k - 1) as nat) + data[p + k - 1]
    }
}

/// The largest of the `k` bytes at `p`.
pub open spec fn most_at(data: Seq<u8>, p: int, k: nat) -> int
    decreases k,
{
    if k == 0 {
        0
    } else {
        larger(most_at(data, p, (k - 1) as nat), data[p + k - 1] as int)
    }
}

/// The largest first value of the quantization tables from `p` to `end`, if the decoder
/// takes them. A table is a byte that gives the width of its values and its number, and
/// 64 values.
pub open spec fn quant_from(data: Seq<u8>, p: int, end: int) -> Option<int>
    decreases end - p,
{
    if p >= end {
        Some(0)
    } else {
        let wide = data[p] / 16;
        let next = p + 65 + 64 * wide;
        if wide > 1 || data[p] % 16 > 3 || next > end {
            None
        } else {
            let first = if wide == 0 {
                data[p + 1] as int
            } else {
                be16(data, p + 1)
            };
            match quant_from(data, next, end) {
                None => None,
                Some(rest) => Some(larger(first, rest)),
            }
        }
    }
}

/// The largest symbol of the Huffman tables for constant coefficients from `p` to `end`,
/// if the decoder takes them. A table is a byte that gives its kind and its number, sixteen
/// counts, and as many symbols as they add up to.
pub open spec fn bits_from(data: Seq<u8>, p: int, end: int) -> Option<int>
    decreases end - p,
{
    if p >= end {
        Some(0)
    } else {
        let count = sum_at(data, p + 1, 16);
        let next = p + 17 + count;
        if p + 17 > end || data[p] / 16 > 1 || data[p] % 16 > 3 || count > 256 || count < 0 || next
            > end {
            None
        } else {
            let most = if data[p] / 16 == 0 {
                most_at(data, p + 17, count as nat)
            } else {
                0
            };
            match bits_from(data, next, end) {
                None => None,
                Some(rest) => if most > 15 {
                    None
                } else {
                    Some(larger(most, rest))
                },
            }
        }
    }
}

/// The segment whose marker stands at `i` says that the image is a frame of a film, for
/// which the decoder has Huffman tables of its own.
pub open spec fn is_film(data: Seq<u8>, i: int) -> bool {
    &&& i + 9 <= data.len()
    &&& data[i + 1] == JFIF
    &&& data.subrange(i + 4, i + 9) == seq![0x41u8, 0x56u8, 0x49u8, 0x31u8, 0x00u8]
}

/// What has been read of the headers once the segment has been whose marker stands at
/// `i`; none if it breaks off or the decoder refuses it.
pub open spec fn after_segment(data: Seq<u8>, i: int, r: ReadView) -> Option<ReadView> {
    let m = data[i + 1];
    let n = be16(data, i + 2);
    if i + 2 + n > data.len() || n < 2 || m == END || m == ARITHMETIC || m == LINES {
        None
    } else if m == BASELINE || m == EXTENDED || m == PROGRESSIVE {
        match frame_at(data, i) {
            None => None,
            Some(f) => if r.frame is Some {
                None
            } else {
                Some(
                    ReadView {
                        frame: Some(f),
                        color: after_frame(r.color, f.factors.len() as int),
                        ..r
                    },
                )
            },
        }
    } else if m == QUANTIZATION {
        match quant_from(data, i + 4, i + 2 + n) {
            None => None,
            Some(q) => Some(ReadView { quant: larger(r.quant, q), ..r }),
        }
    } else if m == HUFFMAN {
        match bits_from(data, i + 4, i + 2 + n) {
            None => None,
            Some(b) => Some(ReadView { bits: larger(r.bits, b), ..r }),
        }
    } else if m == RESTART && n != 4 {
        None
    } else if is_adobe(data, i) {
        match adobe_color(data, i) {
            None => None,
            Some(color) => Some(ReadView { color, ..r }),
        }
    } else if is_film(data, i) && n > 5 {
        Some(ReadView { bits: larger(r.bits, 11), ..r })
    } else {
        Some(r)
    }
}

/// What the headers from `q` on say, given what has been read ahead of them; none where
/// they break off or hold what the decoder refuses.
pub open spec fn headers_from(data: Seq<u8>, q: int, r: ReadView) -> Option<HeadersView>
    decreases (if q < data.len() { data.len() - q } else { 0 }),
{
    proof {
        lemma_marker_from(data, q);
    }
    match marker_from(data, q) {
        None => None,
        Some(i) => {
            let m = data[i + 1];
            let n = be16(data, i + 2);
            if i + 5 > data.len() {
                None
            } else if m == SCAN {
                let scan = data[i + 4] as int;
                match r.frame {
                    None => None,
                    Some(frame) => if i + 2 + n > data.len() || n != 6 + 2 * scan || scan < 1
                        || scan > 4 {
                        None
                    } else {
                        Some(
                            HeadersView {
                                frame,
                                color: r.color,
                                quant: r.quant,
                                bits: r.bits,
                                scan,
                                body: i + 2 + n,
                            },
                        )
                    },
                }
            } else {
                match after_segment(data, i, r) {
                    None => None,
                    Some(next) => if n < 2 {
                        None
                    } else {
                        headers_from(data, past_segment(i, m, n), next)
                    },
                }
            }
        },
    }
}

/// What has been read ahead of the first segment.
pub open spec fn nothing_read() -> ReadView {
    ReadView { frame: None, color: Color::Ycbcr, quant: 0, bits: 0 }
}

/// What the headers of an image say; none where they break off or hold what the decoder
/// refuses.
pub open spec fn headers(data: Seq<u8>) -> Option<HeadersView> {
    if data.len() < 2 || data[0] != 0xff || data[1] != 0xd8 {
        None
    } else {
        headers_from(data, 2, nothing_read())
    }
}

/// The marker with that second byte stands in the data of a scan.
pub open spec fn is_restart_mark(m: u8) -> bool {
    0xd0 <= m <= 0xd7
}

/// The segment with that marker may stand between the scans of a baseline image.
pub open spec fn is_between_scans(m: u8) -> bool {
    m == HUFFMAN || m == QUANTIZATION || m == RESTART || m == COMMENT || m == JFIF || m == EXIF || m
        == PROFILE || m == PHOTOSHOP || m == ADOBE
}

/// What a baseline image holds from its first scan header on: how many scans, and the
/// largest size, in bits, of the difference of two constant coefficients.
pub struct ScansView {
    pub scans: int,
    pub bits: int,
}

/// What a baseline image holds from `q` on, as far as the decoder may read it, counted on
/// from `r`. `between` says whether `q` stands between two scans.
pub open spec fn scans_from(data: Seq<u8>, q: int, between: bool, r: ScansView) -> ScansView
    decreases (if q < data.len() { data.len() - q } else { 0 }),
{
    proof {
        lemma_marker_from(data, q);
    }
    match marker_from(data, q) {
        None => r,
        Some(i) => {
            let m = data[i + 1];
            let n = larger(be16(data, i + 2), 2);
            if m == END {
                r
            } else if !between && is_restart_mark(m) {
                scans_from(data, i + 2, false, r)
            } else if i + 4 > data.len() || !(between || m == SCAN || is_between_scans(m)) {
                r
            } else if m == SCAN {
                scans_from(data, i + 2 + n, false, ScansView { scans: r.scans + 1, ..r })
            } else if m == HUFFMAN && i + 2 + n <= data.len() {
                match bits_from(data, i + 4, i + 2 + n) {
                    None => r,
                    Some(b) => scans_from(
                        data,
                        i + 2 + n,
                        true,
                        ScansView { bits: larger(r.bits, b), ..r },
                    ),
                }
            } else {
                scans_from(data, past_segment(i, m, n), true, r)
            }
        },
    }
}

/// A progressive image holds an Adobe segment that says YCbCr from `q` on, as far as the
/// decoder may read it.
pub open spec fn is_marked_from(data: Seq<u8>, q: int) -> bool
    decreases (if q < data.len() { data.len() - q } else { 0 }),
{
    proof {
        lemma_marker_from(data, q);
    }
    match marker_from(data, q) {
        None => false,
        Some(i) => {
            let m = data[i + 1];
            let n = be16(data, i + 2);
            if m == END {
                false
            } else if is_restart_mark(m) {
                is_marked_from(data, i + 2)
            } else if i + 4 > data.len() || n < 2 || m == ARITHMETIC || m == LINES || m == BASELINE
                || m == EXTENDED || m == PROGRESSIVE {
                false
            } else if is_adobe(data, i) {
                match adobe_color(data, i) {
                    None => false,
                    Some(color) => color == Color::Ycbcr || is_marked_from(data, i + 2 + n),
                }
            } else {
                is_marked_from(data, past_segment(i, m, n))
            }
        },
    }
}

/// A frame header.
pub struct Frame {
    pub progressive: bool,
    pub width: u16,
    pub height: u16,
    pub factors: Vec<Factors>,
}

impl View for Frame {
    type V = FrameView;

    open spec fn view(&self) -> FrameView {
        FrameView {
            progressive: self.progressive,
            width: self.width as int,
            height: self.height as int,
            factors: self.factors@,
        }
    }
}

impl Frame {
    /// The frame is not empty, it has a component, and each component is sampled.
    pub open spec fn wf(&self) -> bool {
        &&& 0 < self.width
        &&& 0 < self.height
        &&& 0 < self.factors@.len()
        &&& forall|c: int|
            0 <= c < self.factors@.len() ==> 0 < (#[trigger] self.factors@[c]).h && 0
                < self.factors@[c].v
    }
}

/// What has been read of an image's headers.
struct Read {
    frame: Option<Frame>,
    color: Color,
    quant: u16,
    bits: u8,
}

impl Read {
    spec fn view(&self) -> ReadView {
        ReadView {
            frame: match self.frame {
                Some(f) => Some(f@),
                None => None,
            },
            color: self.color,
            quant: self.quant as int,
            bits: self.bits as int,
        }
    }

    spec fn wf(&self) -> bool {
        &&& self.bits <= 15
        &&& self.frame matches Some(f) ==> f.wf()
    }
}

/// What the headers of an image say.
pub struct Headers {
    pub frame: Frame,
    pub color: Color,
    pub quant: u16,
    pub bits: u8,
    pub scan: u8,
    pub body: usize,
}

impl View for Headers {
    type V = HeadersView;

    open spec fn view(&self) -> HeadersView {
        HeadersView {
            frame: self.frame@,
            color: self.color,
            quant: self.quant as int,
            bits: self.bits as int,
            scan: self.scan as int,
            body: self.body as int,
        }
    }
}

impl Headers {
    /// The frame is one that can be read, and a difference has at most fifteen bits.
    pub open spec fn wf(&self) -> bool {
        self.frame.wf() && self.bits <= 15
    }
}

/// The number in the two bytes at `i`.
fn number_at(data: &[u8], i: usize) -> (r: u16)
    requires
        i + 1 < data@.len(),
    ensures
        r == be16(data@, i as int),
{
    data[i] as u16 * 256 + data[i + 1] as u16
}

/// Where the first marker at or behind `q` stands.
fn find_marker(data: &[u8], q: usize) -> (r: Option<usize>)
    ensures
        match r {
            Some(i) => marker_from(data@, q as int) == Some(i as int),
            None => marker_from(data@, q as int) is None,
        },
        r matches Some(i) ==> q <= i && i + 1 < data@.len(),
{
    let mut i: usize = q;
    while i < data.len() && data.len() - i > 1
        invariant
            q <= i,
            marker_from(data@, q as int) == marker_from(data@, i as int),
        decreases data@.len() - i,
    {
        if data[i] == 0xff && data[i + 1] != 0 && data[i + 1] != 0xff {
            return Some(i);
        }
        i += 1;
    }
    None
}

/// The frame header whose marker stands at `i`.
fn read_frame(data: &[u8], i: usize) -> (r: Option<Frame>)
    requires
        i + 5 <= data@.len(),
    ensures
        match r {
            Some(f) => frame_at(data@, i as int) == Some(f@) && f.wf(),
            None => frame_at(data@, i as int) is None,
        },
{
    let len: usize = data.len();
    let room: usize = len - i - 2;
    let n = number_at(data, i + 2);
    if room < 8 || n as usize > room {
        return None;
    }
    let k: u8 = data[i + 9];
    if n != 8 + 3 * k as u16 || k < 1 || k > 4 || data[i + 4] != 8 || number_at(data, i + 5) == 0
        || number_at(data, i + 7) == 0 {
        return None;
    }
    let mut factors: Vec<Factors> = Vec::new();
    let mut c: usize = 0;
    while c < k as usize
        invariant
            c <= k <= 4,
            i + 10 + 3 * k <= data@.len() == len,
            factors@ == Seq::new(c as nat, |j: int| factors_at(data@, i + 10 + 3 * j)),
            forall|j: int| 0 <= j < c ==> #[trigger] is_component(data@, i + 10 + 3 * j),
            forall|j: int| 0 <= j < c ==> 0 < (#[trigger] factors@[j]).h && 0 < factors@[j].v,
            k == data@[i + 9],
        decreases k - c,
    {
        let p: usize = i + 10 + 3 * c;
        let f = Factors { h: data[p + 1] / 16, v: data[p + 1] % 16 };
        if !(f.h == 1 || f.h == 2 || f.h == 4) || f.v < 1 || f.v > 4 || data[p + 2] >= 4 {
            assert(!is_component(data@, i + 10 + 3 * (c as int)));
            return None;
        }
        factors.push(f);
        c += 1;
    }
    let width = number_at(data, i + 7);
    let height = number_at(data, i + 5);
    Some(Frame { progressive: data[i + 1] == PROGRESSIVE, width, height, factors })
}

/// The segment whose marker stands at `i` is Adobe's.
fn adobe(data: &[u8], i: usize) -> (r: bool)
    requires
        i + 2 <= data@.len(),
    ensures
        r == is_adobe(data@, i as int),
{
    if data.len() - i < 9 {
        return false;
    }
    let r = data[i + 1] == ADOBE && data[i + 4] == 0x41 && data[i + 5] == 0x64 && data[i + 6] == 0x6f
        && data[i + 7] == 0x62 && data[i + 8] == 0x65;
    proof {
        let found = data@.subrange(i + 4, i + 9);
        let name = seq![0x41u8, 0x64u8, 0x6fu8, 0x62u8, 0x65u8];
        assert(found[0] == data@[i + 4] && found[1] == data@[i + 5] && found[2] == data@[i + 6]
            && found[3] == data@[i + 7] && found[4] == data@[i + 8]);
        if r {
            assert(found =~= name);
        }
    }
    r
}

/// What the components stand for by the Adobe segment whose marker stands at `i`.
fn adobe_mark(data: &[u8], i: usize) -> (r: Option<Color>)
    requires
        i + 4 <= data@.len(),
    ensures
        r == adobe_color(data@, i as int),
{
    if data.len() - i < 16 || number_at(data, i + 2) < 14 {
        return None;
    }
    match data[i + 15] {
        0 => Some(Color::Cmyk),
        1 => Some(Color::Ycbcr),
        2 => Some(Color::Ycck),
        _ => None,
    }
}

/// The segment whose marker stands at `i` says that the image is a frame of a film.
fn film(data: &[u8], i: usize) -> (r: bool)
    requires
        i + 2 <= data@.len(),
    ensures
        r == is_film(data@, i as int),
{
    if data.len() - i < 9 {
        return false;
    }
    let r = data[i + 1] == JFIF && data[i + 4] == 0x41 && data[i + 5] == 0x56 && data[i + 6] == 0x49
        && data[i + 7] == 0x31 && data[i + 8] == 0x00;
    proof {
        let found = data@.subrange(i + 4, i + 9);
        assert(found[0] == data@[i + 4] && found[1] == data@[i + 5] && found[2] == data@[i + 6]
            && found[3] == data@[i + 7] && found[4] == data@[i + 8]);
        if r {
            assert(found =~= seq![0x41u8, 0x56u8, 0x49u8, 0x31u8, 0x00u8]);
        }
    }
    r
}

/// The largest first value of the quantization tables from `start` to `end`.
fn read_quant(data: &[u8], start: usize, end: usize) -> (r: Option<u16>)
    requires
        start <= end <= data@.len(),
    ensures
        match r {
            Some(q) => quant_from(data@, start as int, end as int) == Some(q as int),
            None => quant_from(data@, start as int, end as int) is None,
        },
{
    let mut p: usize = start;
    let mut most: u16 = 0;
    while p < end
        invariant
            p <= end <= data@.len(),
            quant_from(data@, start as int, end as int) == larger_of(
                most as int,
                quant_from(data@, p as int, end as int),
            ),
        decreases end - p,
    {
        let wide: usize = (data[p] / 16) as usize;
        if wide > 1 || data[p] % 16 > 3 || end - p < 65 + 64 * wide {
            return None;
        }
        let first: u16 = if wide == 0 {
            data[p + 1] as u16
        } else {
            number_at(data, p + 1)
        };
        if most < first {
            most = first;
        }
        p = p + 65 + 64 * wide;
    }
    Some(most)
}

/// The sum of the sixteen bytes at `p`.
fn sum_of_counts(data: &[u8], p: usize) -> (r: usize)
    requires
        p + 16 <= data@.len(),
    ensures
        r == sum_at(data@, p as int, 16),
        r <= 16 * 255,
{
    let len: usize = data.len();
    let mut sum: usize = 0;
    let mut k: usize = 0;
    while k < 16
        invariant
            k <= 16,
            p + 16 <= data@.len() == len,
            sum == sum_at(data@, p as int, k as nat),
            sum <= k * 255,
        decreases 16 - k,
    {
        sum += data[p + k] as usize;
        k += 1;
    }
    sum
}

/// The largest of the `k` bytes at `p`.
fn most_of(data: &[u8], p: usize, k: usize) -> (r: u8)
    requires
        p + k <= data@.len(),
    ensures
        r == most_at(data@, p as int, k as nat),
{
    let len: usize = data.len();
    let mut most: u8 = 0;
    let mut j: usize = 0;
    while j < k
        invariant
            j <= k,
            p + k <= data@.len() == len,
            most == most_at(data@, p as int, j as nat),
        decreases k - j,
    {
        if most < data[p + j] {
            most = data[p + j];
        }
        j += 1;
    }
    most
}

/// The largest symbol of the Huffman tables for constant coefficients from `start` to
/// `end`.
fn read_bits(data: &[u8], start: usize, end: usize) -> (r: Option<u8>)
    requires
        start <= end <= data@.len(),
    ensures
        match r {
            Some(b) => bits_from(data@, start as int, end as int) == Some(b as int) && b <= 15,
            None => bits_from(data@, start as int, end as int) is None,
        },
{
    let mut p: usize = start;
    let mut most: u8 = 0;
    while p < end
        invariant
            p <= end <= data@.len(),
            most <= 15,
            bits_from(data@, start as int, end as int) == larger_of(
                most as int,
                bits_from(data@, p as int, end as int),
            ),
        decreases end - p,
    {
        if end - p < 17 || data[p] / 16 > 1 || data[p] % 16 > 3 {
            return None;
        }
        let count = sum_of_counts(data, p + 1);
        if count > 256 || end - p - 17 < count {
            return None;
        }
        if data[p] / 16 == 0 {
            let own: u8 = most_of(data, p + 17, count);
            if own > 15 {
                return None;
            }
            if most < own {
                most = own;
            }
        }
        p = p + 17 + count;
    }
    Some(most)
}

/// Takes over the segment whose marker stands at `i`; false if the decoder refuses it.
fn read_segment(data: &[u8], i: usize, r: &mut Read) -> (taken: bool)
    requires
        i + 5 <= data@.len(),
        old(r).wf(),
    ensures
        match after_segment(data@, i as int, old(r).view()) {
            None => !taken,
            Some(next) => taken && final(r).view() == next && final(r).wf() && be16(
                data@,
                i + 2,
            ) >= 2 && i + 2 + be16(data@, i + 2) <= data@.len(),
        },
{
    let room: usize = data.len() - i - 2;
    let m: u8 = data[i + 1];
    let n = number_at(data, i + 2) as usize;
    if n > room || n < 2 || m == END || m == ARITHMETIC || m == LINES {
        return false;
    }
    let end: usize = i + 2 + n;
    if m == BASELINE || m == EXTENDED || m == PROGRESSIVE {
        match read_frame(data, i) {
            None => {
                return false;
            },
            Some(f) => {
                if r.frame.is_some() {
                    return false;
                }
                if f.factors.len() == 1 {
                    r.color = Color::Luma;
                } else if f.factors.len() == 4 && r.color == Color::Ycbcr {
                    r.color = Color::Cmyk;
                }
                r.frame = Some(f);
            },
        }
    } else if m == QUANTIZATION {
        match read_quant(data, i + 4, end) {
            None => {
                return false;
            },
            Some(q) => {
                if r.quant < q {
                    r.quant = q;
                }
            },
        }
    } else if m == HUFFMAN {
        match read_bits(data, i + 4, end) {
            None => {
                return false;
            },
            Some(b) => {
                if r.bits < b {
                    r.bits = b;
                }
            },
        }
    } else if m == RESTART && n != 4 {
        return false;
    } else if adobe(data, i) {
        match adobe_mark(data, i) {
            None => {
                return false;
            },
            Some(c) => {
                r.color = c;
            },
        }
    } else if film(data, i) && n > 5 && r.bits < 11 {
        r.bits = 11;
    }
    true
}

/// What the headers of an image say.
pub fn read_headers(data: &[u8]) -> (r: Option<Headers>)
    ensures
        match r {
            Some(h) => headers(data@) == Some(h@) && h.wf() && h.body <= data@.len(),
            None => headers(data@) is None,
        },
{
    if data.len() < 2 || data[0] != 0xff || data[1] != 0xd8 {
        return None;
    }
    let len: usize = data.len();
    let mut q: usize = 2;
    let mut r = Read { frame: None, color: Color::Ycbcr, quant: 0, bits: 0 };
    loop
        invariant
            len == data@.len(),
            q <= len,
            r.wf(),
            headers(data@) == headers_from(data@, q as int, r.view()),
        decreases len - q,
    {
        let i: usize = match find_marker(data, q) {
            Some(i) => i,
            None => {
                return None;
            },
        };
        if len - i < 5 {
            return None;
        }
        let m: u8 = data[i + 1];
        let n = number_at(data, i + 2) as usize;
        if m == SCAN {
            let scan: u8 = data[i + 4];
            if n > len - i - 2 || n != 6 + 2 * scan as usize || scan < 1 || scan > 4 {
                return None;
            }
            return match r.frame {
                Some(frame) => Some(
                    Headers {
                        frame,
                        color: r.color,
                        quant: r.quant,
                        bits: r.bits,
                        scan,
                        body: i + 2 + n,
                    },
                ),
                None => None,
            };
        }
        if !read_segment(data, i, &mut r) {
            return None;
        }
        let step: usize = if m == JFIF && n == 6 {
            7
        } else {
            n
        };
        if step > len - i - 2 {
            assert(headers_from(data@, i + 2 + step, r.view()) is None);
            return None;
        }
        q = i + 2 + step;
    }
}

/// What a baseline image holds from its first scan header on.
pub struct Scans {
    pub scans: usize,
    pub bits: u8,
}

/// What a baseline image holds whose first scan's data begin at `body`, and of whose
/// headers the largest size of a difference is known.
pub fn read_scans(data: &[u8], body: usize, bits: u8) -> (r: Scans)
    requires
        body <= data@.len(),
        bits <= 15,
    ensures
        scans_from(data@, body as int, false, ScansView { scans: 1, bits: bits as int })
            == (ScansView { scans: r.scans as int, bits: r.bits as int }),
        r.bits <= 15,
        1 <= r.scans <= data@.len() + 1,
{
    let len: usize = data.len();
    let mut r = Scans { scans: 1, bits };
    let mut q: usize = body;
    let mut between = false;
    loop
        invariant
            len == data@.len(),
            body <= q <= len,
            scans_from(data@, body as int, false, ScansView { scans: 1, bits: bits as int })
                == scans_from(
                data@,
                q as int,
                between,
                ScansView { scans: r.scans as int, bits: r.bits as int },
            ),
            r.bits <= 15,
            1 <= r.scans <= q - body + 1,
        decreases len - q,
    {
        let i: usize = match find_marker(data, q) {
            Some(i) => i,
            None => {
                return r;
            },
        };
        let m: u8 = data[i + 1];
        if m == END {
            return r;
        }
        if !between && 0xd0 <= m && m <= 0xd7 {
            q = i + 2;
            continue ;
        }
        let listed = m == HUFFMAN || m == QUANTIZATION || m == RESTART || m == COMMENT || m == JFIF
            || m == EXIF || m == PROFILE || m == PHOTOSHOP || m == ADOBE;
        if len - i < 4 || !(between || m == SCAN || listed) {
            return r;
        }
        let mut n = number_at(data, i + 2) as usize;
        if n < 2 {
            n = 2;
        }
        let step: usize = if m == JFIF && n == 6 {
            7
        } else {
            n
        };
        if m == HUFFMAN && n <= len - i - 2 {
            match read_bits(data, i + 4, i + 2 + n) {
                None => {
                    return r;
                },
                Some(b) => {
                    if r.bits < b {
                        r.bits = b;
                    }
                },
            }
        }
        between = m != SCAN;
        if m == SCAN {
            r.scans = r.scans + 1;
        }
        if step > len - i - 2 {
            assert(scans_from(
                data@,
                i + 2 + step,
                between,
                ScansView { scans: r.scans as int, bits: r.bits as int },
            ) == (ScansView { scans: r.scans as int, bits: r.bits as int }));
            return r;
        }
        q = i + 2 + step;
    }
}

/// Whether a progressive image whose first scan's data begin at `body` holds an Adobe
/// segment behind it that says YCbCr.
pub fn marked_ycbcr(data: &[u8], body: usize) -> (r: bool)
    requires
        body <= data@.len(),
    ensures
        r == is_marked_from(data@, body as int),
{
    let len: usize = data.len();
    let mut q: usize = body;
    loop
        invariant
            len == data@.len(),
            q <= len,
            is_marked_from(data@, body as int) == is_marked_from(data@, q as int),
        decreases len - q,
    {
        let i: usize = match find_marker(data, q) {
            Some(i) => i,
            None => {
                return false;
            },
        };
        let m: u8 = data[i + 1];
        if m == END {
            return false;
        }
        if 0xd0 <= m && m <= 0xd7 {
            q = i + 2;
            continue ;
        }
        if len - i < 4 || m == ARITHMETIC || m == LINES || m == BASELINE || m == EXTENDED || m
            == PROGRESSIVE {
            return false;
        }
        let n = number_at(data, i + 2) as usize;
        if n < 2 {
            return false;
        }
        let mut step: usize = n;
        if adobe(data, i) {
            match adobe_mark(data, i) {
                None => {
                    return false;
                },
                Some(c) => {
                    if c == Color::Ycbcr {
                        return true;
                    }
                },
            }
        } else if m == JFIF && n == 6 {
            step = 7;
        }
        if step > len - i - 2 {
            assert(!is_marked_from(data@, i + 2 + step));
            return false;
        }
        q = i + 2 + step;
    }
}

/// The marker that is found is the first: a byte 255 with one behind it that is neither 0
/// nor 255; none is found only where there is none.
pub proof fn law_first_marker(data: Seq<u8>, q: int)
    ensures
        match marker_from(data, q) {
            Some(i) => {
                &&& q <= i && i + 1 < data.len()
                &&& data[i] == 255 && data[i + 1] != 0 && data[i + 1] != 255
                &&& forall|j: int|
                    q <= j < i ==> #[trigger] data[j] != 255 || data[j + 1] == 0 || data[j + 1]
                        == 255
            },
            None => forall|j: int|
                q <= j && j + 1 < data.len() ==> #[trigger] data[j] != 255 || data[j + 1] == 0
                    || data[j + 1] == 255,
        },
    decreases data.len() - q,
{
    if q + 1 < data.len() && !is_marker(data, q) {
        law_first_marker(data, q + 1);
    }
}

/// A marker stands at `i`, with that second byte, and behind it a segment of that length
/// that the data hold.
pub open spec fn segment_at(data: Seq<u8>, i: int, m: u8, n: int) -> bool {
    &&& 0 <= i
    &&& i + 5 <= data.len()
    &&& i + 2 + n <= data.len()
    &&& n >= 2
    &&& data[i] == 255
    &&& data[i + 1] == m
    &&& m != 0 && m != 255
    &&& data[i + 2] * 256 + data[i + 3] == n
}

proof fn lemma_segment_at(data: Seq<u8>, i: int, m: u8, n: int)
    requires
        segment_at(data, i, m, n),
    ensures
        marker_from(data, i) == Some(i),
        be16(data, i + 2) == n,
{
    assert(is_marker(data, i));
}

/// Segments that say nothing of the frame are passed over: all but frame headers, tables,
/// scan headers, restart intervals, those that are refused, and those of JFIF and Adobe.
pub proof fn law_other_segments_are_passed_over(
    data: Seq<u8>,
    i: int,
    m: u8,
    n: int,
    r: ReadView,
)
    requires
        segment_at(data, i, m, n),
        m != 0xc0 && m != 0xc1 && m != 0xc2 && m != 0xc4 && m != 0xcc && m != 0xd9 && m != 0xda && m
            != 0xdb && m != 0xdc && m != 0xdd && m != 0xe0 && m != 0xee,
    ensures
        headers_from(data, i, r) == headers_from(data, i + 2 + n, r),
{
    lemma_segment_at(data, i, m, n);
}

/// Segments with the marker of JFIF are passed over too, unless they say that the image is
/// a frame of a film; those of six bytes take one byte more than they say. Segments with
/// the marker of Adobe that are not Adobe's are passed over as well.
pub proof fn law_named_segments_are_passed_over(data: Seq<u8>, i: int, n: int, r: ReadView)
    requires
        i + 9 > data.len() || data[i + 4] != 0x41 || data[i + 5] != 0x56 || data[i + 6] != 0x49
            || data[i + 7] != 0x31 || data[i + 8] != 0,
        i + 9 > data.len() || data[i + 4] != 0x41 || data[i + 5] != 0x64 || data[i + 6] != 0x6f
            || data[i + 7] != 0x62 || data[i + 8] != 0x65,
    ensures
        segment_at(data, i, 0xe0, n) && n != 6 ==> headers_from(data, i, r) == headers_from(
            data,
            i + 2 + n,
            r,
        ),
        segment_at(data, i, 0xe0, n) && n == 6 ==> headers_from(data, i, r) == headers_from(
            data,
            i + 9,
            r,
        ),
        segment_at(data, i, 0xee, n) ==> headers_from(data, i, r) == headers_from(
            data,
            i + 2 + n,
            r,
        ),
        segment_at(data, i, 0xee, n) ==> is_marked_from(data, i) == is_marked_from(
            data,
            i + 2 + n,
        ),
{
    if i + 9 <= data.len() {
        let name = data.subrange(i + 4, i + 9);
        if segment_at(data, i, 0xe0, n) || segment_at(data, i, 0xee, n) {
            assert(name[0] == data[i + 4] && name[1] == data[i + 5] && name[2] == data[i + 6]
                && name[3] == data[i + 7] && name[4] == data[i + 8]);
        }
    }
    if segment_at(data, i, 0xe0, n) {
        lemma_segment_at(data, i, 0xe0, n);
    }
    if segment_at(data, i, 0xee, n) {
        lemma_segment_at(data, i, 0xee, n);
    }
}

/// A restart interval is passed over where it has its one length, else it is refused.
pub proof fn law_restart_interval(data: Seq<u8>, i: int, n: int, r: ReadView)
    requires
        segment_at(data, i, 0xdd, n),
    ensures
        n == 4 ==> headers_from(data, i, r) == headers_from(data, i + 6, r),
        n != 4 ==> headers_from(data, i, r) is None,
{
    lemma_segment_at(data, i, 0xdd, n);
}

/// A frame header is read byte by byte: its marker tells whether it is progressive; then
/// come eight bits of precision, the height, the width, and of each component how often it
/// is sampled, across in the upper four bits and down in the lower.
pub proof fn law_frame_header_is_read(
    data: Seq<u8>,
    i: int,
    m: u8,
    k: int,
    frame: FrameView,
    r: ReadView,
)
    requires
        1 <= k <= 4,
        segment_at(data, i, m, 8 + 3 * k),
        m == 0xc0 || m == 0xc1 || m == 0xc2,
        r.frame is None,
        data[i + 4] == 8,
        data[i + 5] * 256 + data[i + 6] == frame.height,
        data[i + 7] * 256 + data[i + 8] == frame.width,
        data[i + 9] == k,
        0 < frame.height,
        0 < frame.width,
        frame.progressive <==> m == 0xc2,
        frame.factors.len() == k,
        forall|c: int|
            0 <= c < k ==> {
                let f = #[trigger] frame.factors[c];
                &&& f.h == 1 || f.h == 2 || f.h == 4
                &&& 1 <= f.v <= 4
                &&& data[i + 10 + 3 * c + 1] == f.h * 16 + f.v
                &&& data[i + 10 + 3 * c + 2] < 4
            },
    ensures
        headers_from(data, i, r) == headers_from(
            data,
            i + 10 + 3 * k,
            ReadView {
                frame: Some(frame),
                color: if k == 1 {
                    Color::Luma
                } else if k == 4 && r.color == Color::Ycbcr {
                    Color::Cmyk
                } else {
                    r.color
                },
                quant: r.quant,
                bits: r.bits,
            },
        ),
{
    lemma_segment_at(data, i, m, 8 + 3 * k);
    assert forall|c: int| 0 <= c < k implies #[trigger] is_component(data, i + 10 + 3 * c)
        && factors_at(data, i + 10 + 3 * c) == frame.factors[c] by {
        let f = frame.factors[c];
        let b = data[i + 10 + 3 * c + 1];
        assert(b == f.h * 16 + f.v);
    }
    let f = frame_at(data, i);
    assert(f is Some);
    assert(f->0.factors =~= frame.factors) by {
        assert forall|c: int| 0 <= c < k implies f->0.factors[c] == frame.factors[c] by {
            assert(is_component(data, i + 10 + 3 * c));
        }
    }
    assert(f->0 =~= frame);
}

/// A second frame header, an arithmetic one, a number of lines and an end ahead of the
/// first scan are refused.
pub proof fn law_refused_segments(data: Seq<u8>, i: int, m: u8, n: int, r: ReadView)
    requires
        segment_at(data, i, m, n),
    ensures
        (m == 0xc0 || m == 0xc1 || m == 0xc2) && r.frame is Some ==> headers_from(data, i, r) is None,
        m == 0xcc || m == 0xd9 || m == 0xdc ==> headers_from(data, i, r) is None,
        m == 0xda && r.frame is None ==> headers_from(data, i, r) is None,
{
    lemma_segment_at(data, i, m, n);
}

/// An Adobe segment says by its last byte what the components stand for.
pub proof fn law_adobe_segment_is_read(data: Seq<u8>, i: int, n: int, r: ReadView)
    requires
        segment_at(data, i, 0xee, n),
        n >= 14,
        data[i + 4] == 0x41,
        data[i + 5] == 0x64,
        data[i + 6] == 0x6f,
        data[i + 7] == 0x62,
        data[i + 8] == 0x65,
    ensures
        data[i + 15] == 0 ==> headers_from(data, i, r) == headers_from(
            data,
            i + 2 + n,
            ReadView { color: Color::Cmyk, ..r },
        ),
        data[i + 15] == 1 ==> headers_from(data, i, r) == headers_from(
            data,
            i + 2 + n,
            ReadView { color: Color::Ycbcr, ..r },
        ),
        data[i + 15] == 2 ==> headers_from(data, i, r) == headers_from(
            data,
            i + 2 + n,
            ReadView { color: Color::Ycck, ..r },
        ),
        data[i + 15] > 2 ==> headers_from(data, i, r) is None,
        data[i + 15] == 1 ==> is_marked_from(data, i),
        data[i + 15] == 0 || data[i + 15] == 2 ==> is_marked_from(data, i) == is_marked_from(
            data,
            i + 2 + n,
        ),
{
    lemma_segment_at(data, i, 0xee, n);
    assert(data.subrange(i + 4, i + 9) =~= seq![0x41u8, 0x64u8, 0x6fu8, 0x62u8, 0x65u8]);
}

/// Of quantization tables the largest first value counts. A table of narrow values is 65
/// bytes long, one of wide values 129.
pub proof fn law_quantization_tables(data: Seq<u8>, p: int, end: int)
    requires
        p < end,
    ensures
        quant_from(data, end, end) == Some(0int),
        data[p] < 4 && p + 65 <= end ==> match quant_from(data, p + 65, end) {
            Some(rest) => quant_from(data, p, end) matches Some(most) && most >= data[p + 1] && most
                >= rest && (most == data[p + 1] || most == rest),
            None => quant_from(data, p, end) is None,
        },
        16 <= data[p] < 20 && p + 129 <= end ==> match quant_from(data, p + 129, end) {
            Some(rest) => quant_from(data, p, end) matches Some(most) && most >= data[p + 1] * 256
                + data[p + 2] && most >= rest && (most == data[p + 1] * 256 + data[p + 2] || most
                == rest),
            None => quant_from(data, p, end) is None,
        },
        data[p] >= 32 || data[p] % 16 >= 4 ==> quant_from(data, p, end) is None,
        data[p] < 16 && p + 65 > end ==> quant_from(data, p, end) is None,
        data[p] >= 16 && p + 129 > end ==> quant_from(data, p, end) is None,
{
}

/// The sum of bytes goes by parts, and the largest of them is one of them.
pub proof fn law_sums_and_largest(data: Seq<u8>, p: int, j: nat, k: nat)
    ensures
        sum_at(data, p, j + k) == sum_at(data, p, j) + sum_at(data, p + j, k),
        sum_at(data, p, 1) == data[p],
        sum_at(data, p, 0) == 0,
        forall|x: int| 0 <= x < k ==> #[trigger] data[p + x] <= most_at(data, p, k),
        k > 0 ==> exists|x: int| 0 <= x < k && #[trigger] data[p + x] == most_at(data, p, k),
        most_at(data, p, 0) == 0,
    decreases k,
{
    assert(sum_at(data, p, 0) == 0 && sum_at(data, p + j, 0) == 0);
    assert(sum_at(data, p, 1) == data[p]);
    assert(most_at(data, p, 0) == 0);
    if k > 0 {
        let n = (k - 1) as nat;
        law_sums_and_largest(data, p, j, n);
        assert((j + k - 1) as nat == j + n);
        assert(sum_at(data, p, j + k) == sum_at(data, p, j + n) + data[p + (j + k) - 1]);
        assert(p + (j + k) - 1 == (p + j) + k - 1);
        assert(p + k - 1 == p + n);
        if n > 0 {
            let x = choose|x: int| 0 <= x < n && #[trigger] data[p + x] == most_at(data, p, n);
            if most_at(data, p, k) == most_at(data, p, n) {
                assert(data[p + x] == most_at(data, p, k));
            } else {
                assert(data[p + n] == most_at(data, p, k));
            }
        } else {
            assert(data[p + 0] == most_at(data, p, k));
        }
        assert forall|x: int| 0 <= x < k implies #[trigger] data[p + x] <= most_at(data, p, k) by {
            if x < n {
                assert(data[p + x] <= most_at(data, p, n));
            }
        }
    }
}

/// Of Huffman tables for constant coefficients the largest symbol counts, which is at most
/// fifteen; of other tables none does. A table has sixteen counts and as many symbols.
pub proof fn law_huffman_tables(data: Seq<u8>, p: int, end: int, count: int)
    requires
        p + 17 + count <= end,
        count == sum_at(data, p + 1, 16),
        0 <= count <= 256,
    ensures
        bits_from(data, end, end) == Some(0int),
        data[p] < 4 && most_at(data, p + 17, count as nat) <= 15 ==> match bits_from(
            data,
            p + 17 + count,
            end,
        ) {
            Some(rest) => bits_from(data, p, end) matches Some(most) && most >= most_at(
                data,
                p + 17,
                count as nat,
            ) && most >= rest && (most == most_at(data, p + 17, count as nat) || most == rest),
            None => bits_from(data, p, end) is None,
        },
        data[p] < 4 && most_at(data, p + 17, count as nat) > 15 ==> bits_from(data, p, end) is None,
        16 <= data[p] < 20 ==> match bits_from(data, p + 17 + count, end) {
            Some(rest) => bits_from(data, p, end) == Some(larger(0, rest)),
            None => bits_from(data, p, end) is None,
        },
        data[p] >= 32 || data[p] % 16 >= 4 ==> bits_from(data, p, end) is None,
{
}

/// Tables count for the whole image: what has been read of them only grows.
pub proof fn law_tables_are_read(data: Seq<u8>, i: int, n: int, r: ReadView)
    ensures
        segment_at(data, i, 0xdb, n) ==> match quant_from(data, i + 4, i + 2 + n) {
            Some(q) => headers_from(data, i, r) == headers_from(
                data,
                i + 2 + n,
                ReadView {
                    quant: if q > r.quant {
                        q
                    } else {
                        r.quant
                    },
                    ..r
                },
            ),
            None => headers_from(data, i, r) is None,
        },
        segment_at(data, i, 0xc4, n) ==> match bits_from(data, i + 4, i + 2 + n) {
            Some(b) => headers_from(data, i, r) == headers_from(
                data,
                i + 2 + n,
                ReadView {
                    bits: if b > r.bits {
                        b
                    } else {
                        r.bits
                    },
                    ..r
                },
            ),
            None => headers_from(data, i, r) is None,
        },
{
    if segment_at(data, i, 0xdb, n) {
        lemma_segment_at(data, i, 0xdb, n);
    }
    if segment_at(data, i, 0xc4, n) {
        lemma_segment_at(data, i, 0xc4, n);
    }
}

/// The first scan header ends the headers: they say what was read ahead of it, how many
/// components it holds, and that the data begin behind it. The headers of an image begin
/// behind its first marker, with nothing read.
pub proof fn law_scan_header_ends_the_headers(
    data: Seq<u8>,
    i: int,
    scan: int,
    frame: FrameView,
    r: ReadView,
)
    requires
        1 <= scan <= 4,
        segment_at(data, i, 0xda, 6 + 2 * scan),
        data[i + 4] == scan,
        r.frame == Some(frame),
    ensures
        headers_from(data, i, r) == Some(
            HeadersView {
                frame,
                color: r.color,
                quant: r.quant,
                bits: r.bits,
                scan,
                body: i + 8 + 2 * scan,
            },
        ),
        data[0] == 255 && data[1] == 0xd8 ==> headers(data) == headers_from(
            data,
            2,
            ReadView { frame: None, color: Color::Ycbcr, quant: 0, bits: 0 },
        ),
        data[0] != 255 || data[1] != 0xd8 ==> headers(data) is None,
{
    lemma_segment_at(data, i, 0xda, 6 + 2 * scan);
}

/// Bytes that are no marker are passed over.
pub proof fn law_other_bytes_are_passed_over(
    data: Seq<u8>,
    q: int,
    read: ReadView,
    between: bool,
    r: ScansView,
)
    requires
        0 <= q,
        q + 1 < data.len(),
        data[q] != 255 || data[q + 1] == 0 || data[q + 1] == 255,
    ensures
        headers_from(data, q, read) == headers_from(data, q + 1, read),
        scans_from(data, q, between, r) == scans_from(data, q + 1, between, r),
        is_marked_from(data, q) == is_marked_from(data, q + 1),
{
    assert(!is_marker(data, q));
    assert(marker_from(data, q) == marker_from(data, q + 1));
}

/// Every scan header behind the first counts; restart marks do not, and the end of the
/// image ends the count. The tables between scans count as those ahead of the first.
pub proof fn law_scans_are_counted(data: Seq<u8>, i: int, m: u8, n: int, between: bool, r: ScansView)
    requires
        segment_at(data, i, m, n),
    ensures
        m == 0xda ==> scans_from(data, i, between, r) == scans_from(
            data,
            i + 2 + n,
            false,
            ScansView { scans: r.scans + 1, bits: r.bits },
        ),
        m == 0xd9 ==> scans_from(data, i, between, r) == r,
        0xd0 <= m <= 0xd7 ==> scans_from(data, i, false, r) == scans_from(data, i + 2, false, r),
        m == 0xc4 ==> match bits_from(data, i + 4, i + 2 + n) {
            Some(b) => scans_from(data, i, between, r) == scans_from(
                data,
                i + 2 + n,
                true,
                ScansView {
                    scans: r.scans,
                    bits: if b > r.bits {
                        b
                    } else {
                        r.bits
                    },
                },
            ),
            None => scans_from(data, i, between, r) == r,
        },
        m == 0xdb || m == 0xdd || m == 0xfe || m == 0xe1 || m == 0xe2 || m == 0xed || m == 0xee
            ==> scans_from(data, i, between, r) == scans_from(data, i + 2 + n, true, r),
        m == 0xe0 && n != 6 ==> scans_from(data, i, between, r) == scans_from(
            data,
            i + 2 + n,
            true,
            r,
        ),
{
    lemma_segment_at(data, i, m, n);
}

/// Going on only adds to what was counted.
pub proof fn law_scans_only_add(data: Seq<u8>, q: int, between: bool, r: ScansView)
    ensures
        scans_from(data, q, between, r).scans >= r.scans,
        scans_from(data, q, between, r).bits >= r.bits,
    decreases (if q < data.len() { data.len() - q } else { 0 }),
{
    lemma_marker_from(data, q);
    if let Some(i) = marker_from(data, q) {
        let m = data[i + 1];
        let n = larger(be16(data, i + 2), 2);
        if m != END {
            if !between && is_restart_mark(m) {
                law_scans_only_add(data, i + 2, false, r);
            } else if i + 4 > data.len() || !(between || m == SCAN || is_between_scans(m)) {
            } else if m == SCAN {
                law_scans_only_add(data, i + 2 + n, false, ScansView { scans: r.scans + 1, ..r });
            } else if m == HUFFMAN && i + 2 + n <= data.len() {
                if let Some(b) = bits_from(data, i + 4, i + 2 + n) {
                    law_scans_only_add(
                        data,
                        i + 2 + n,
                        true,
                        ScansView { bits: larger(r.bits, b), ..r },
                    );
                }
            } else {
                law_scans_only_add(data, past_segment(i, m, n), true, r);
            }
        }
    }
}

/// Behind the first scan header of a progressive image nothing marks it as YCbCr but an
/// Adobe segment: other scans, tables and segments are passed over, and the end of the
/// image and another frame header end the search.
pub proof fn law_marks_are_adobes(data: Seq<u8>, i: int, m: u8, n: int)
    requires
        segment_at(data, i, m, n),
    ensures
        m == 0xda || m == 0xc4 || m == 0xdb || m == 0xdd || m == 0xfe || (0xe1 <= m <= 0xef && m
            != 0xee) ==> is_marked_from(data, i) == is_marked_from(data, i + 2 + n),
        m == 0xe0 && n != 6 ==> is_marked_from(data, i) == is_marked_from(data, i + 2 + n),
        0xd0 <= m <= 0xd7 ==> is_marked_from(data, i) == is_marked_from(data, i + 2),
        m == 0xd9 || m == 0xc0 || m == 0xc1 || m == 0xc2 || m == 0xcc || m == 0xdc
            ==> !is_marked_from(data, i),
{
    lemma_segment_at(data, i, m, n);
}

/// A segment that says that the image is a frame of a film stands for the decoder's own
/// tables, whose largest symbol is eleven.
pub proof fn law_film_has_tables(data: Seq<u8>, i: int, n: int, r: ReadView)
    requires
        segment_at(data, i, 0xe0, n),
        n > 6,
        data[i + 4] == 0x41,
        data[i + 5] == 0x56,
        data[i + 6] == 0x49,
        data[i + 7] == 0x31,
        data[i + 8] == 0,
    ensures
        headers_from(data, i, r) == headers_from(
            data,
            i + 2 + n,
            ReadView {
                bits: if r.bits < 11 {
                    11
                } else {
                    r.bits
                },
                ..r
            },
        ),
{
    lemma_segment_at(data, i, 0xe0, n);
    assert(data.subrange(i + 4, i + 9) =~= seq![0x41u8, 0x56u8, 0x49u8, 0x31u8, 0x00u8]);
}

/// A frame header is refused that is not of the length for its components, has none or more
/// than four of them, another precision than eight bits, a side of zero, or a component
/// that is not sampled one, two or four times across and one to four times down, or that
/// names a table above the fourth.
pub proof fn law_other_frame_headers_are_refused(
    data: Seq<u8>,
    i: int,
    m: u8,
    n: int,
    c: int,
    r: ReadView,
)
    requires
        segment_at(data, i, m, n),
        m == 0xc0 || m == 0xc1 || m == 0xc2,
    ensures
        n != 8 + 3 * data[i + 9] ==> headers_from(data, i, r) is None,
        data[i + 9] == 0 || data[i + 9] > 4 ==> headers_from(data, i, r) is None,
        data[i + 4] != 8 ==> headers_from(data, i, r) is None,
        data[i + 5] == 0 && data[i + 6] == 0 ==> headers_from(data, i, r) is None,
        data[i + 7] == 0 && data[i + 8] == 0 ==> headers_from(data, i, r) is None,
        0 <= c < data[i + 9] && data[i + 10 + 3 * c + 1] / 16 != 1 && data[i + 10 + 3 * c + 1] / 16
            != 2 && data[i + 10 + 3 * c + 1] / 16 != 4 ==> headers_from(data, i, r) is None,
        0 <= c < data[i + 9] && (data[i + 10 + 3 * c + 1] % 16 == 0 || data[i + 10 + 3 * c + 1] % 16
            > 4) ==> headers_from(data, i, r) is None,
        0 <= c < data[i + 9] && data[i + 10 + 3 * c + 2] >= 4 ==> headers_from(data, i, r) is None,
{
    lemma_segment_at(data, i, m, n);
    if 0 <= c < data[i + 9] && is_component(data, i + 10 + 3 * c) {
        assert(factors_at(data, i + 10 + 3 * c).h == data[i + 10 + 3 * c + 1] / 16);
    }
}

/// Headers that break off are refused: no marker is left, a segment is longer than what is
/// left or shorter than its own length, or a scan header is not of the length for its
/// components.
pub proof fn law_broken_headers_are_refused(data: Seq<u8>, i: int, r: ReadView)
    requires
        0 <= i,
        i + 1 < data.len(),
        data[i] == 255,
        data[i + 1] != 0,
        data[i + 1] != 255,
    ensures
        headers_from(data, data.len() as int, r) is None,
        i + 5 > data.len() ==> headers_from(data, i, r) is None,
        i + 2 + data[i + 2] * 256 + data[i + 3] > data.len() ==> headers_from(data, i, r) is None,
        data[i + 2] == 0 && data[i + 3] < 2 ==> headers_from(data, i, r) is None,
        data[i + 1] == 0xda && data[i + 2] * 256 + data[i + 3] != 6 + 2 * data[i + 4]
            ==> headers_from(data, i, r) is None,
        data[i + 1] == 0xda && (data[i + 4] == 0 || data[i + 4] > 4) ==> headers_from(data, i, r)
            is None,
        data[i + 1] == 0xee && i + 9 <= data.len() && data[i + 4] == 0x41 && data[i + 5] == 0x64
            && data[i + 6] == 0x6f && data[i + 7] == 0x62 && data[i + 8] == 0x65 && data[i + 2] * 256
            + data[i + 3] < 14 ==> headers_from(data, i, r) is None,
{
    assert(is_marker(data, i));
    assert(marker_from(data, i) == Some(i));
    assert(marker_from(data, data.len() as int) is None);
    if i + 9 <= data.len() && data[i + 4] == 0x41 && data[i + 5] == 0x64 && data[i + 6] == 0x6f
        && data[i + 7] == 0x62 && data[i + 8] == 0x65 {
        assert(data.subrange(i + 4, i + 9) =~= seq![0x41u8, 0x64u8, 0x6fu8, 0x62u8, 0x65u8]);
    }
}

/// Huffman tables that break off, or that have more than 256 symbols, are refused.
pub proof fn law_broken_tables_are_refused(data: Seq<u8>, p: int, end: int)
    requires
        p < end,
    ensures
        p + 17 > end ==> bits_from(data, p, end) is None,
        sum_at(data, p + 1, 16) > 256 ==> bits_from(data, p, end) is None,
        p + 17 + sum_at(data, p + 1, 16) > end ==> bits_from(data, p, end) is None,
{
}

/// Between scans every segment is passed over that is not one of the others; behind the
/// data of a scan, a segment that cannot stand there ends the count, and so does a marker
/// that breaks off.
pub proof fn law_other_segments_between_scans(
    data: Seq<u8>,
    i: int,
    m: u8,
    n: int,
    r: ScansView,
)
    requires
        segment_at(data, i, m, n),
    ensures
        m != 0xd9 && m != 0xda && m != 0xc4 && m != 0xe0 ==> scans_from(data, i, true, r)
            == scans_from(data, i + 2 + n, true, r),
        m == 0xe0 && n == 6 ==> scans_from(data, i, true, r) == scans_from(data, i + 9, true, r)
            && scans_from(data, i, false, r) == scans_from(data, i + 9, true, r),
        !(0xd0 <= m <= 0xd7) && m != 0xda && m != 0xc4 && m != 0xdb && m != 0xdd && m != 0xfe && m
            != 0xe0 && m != 0xe1 && m != 0xe2 && m != 0xed && m != 0xee ==> scans_from(
            data,
            i,
            false,
            r,
        ) == r,
        scans_from(data, data.len() as int, true, r) == r,
        scans_from(data, data.len() as int, false, r) == r,
        !is_marked_from(data, data.len() as int),
{
    lemma_segment_at(data, i, m, n);
    assert(marker_from(data, data.len() as int) is None);
}

} // verus!
