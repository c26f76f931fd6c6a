//! Covers: taking the JPEG out of a cover's SVG, and making the thumbnail.

use crate::books;
use crate::books::Book;
use crate::frame;
use crate::plan;
use crate::plan::BookRun;
use crate::runs;
use crate::runs::Stage;
use crate::text;
use crate::thumbnail;
use vstd::prelude::*;

verus! {

/// What precedes the data of a JPEG image embedded in an SVG.
pub open spec fn uri_prefix() -> Seq<char> {
    "xlink:href=\"data:image/jpeg;base64,"@
}

/// Where the data of the image that is embedded at `i` ends: at the next quotation
/// mark, behind at least one character. None where no image is embedded at `i`.
pub open spec fn uri_end(svg: Seq<char>, i: int) -> Option<int> {
    let start = i + uri_prefix().len();
    if !text::occurs_at(svg, uri_prefix(), i) {
        None
    } else {
        match text::find_from(svg, "\""@, start) {
            Some(end) if end > start => Some(end),
            _ => None,
        }
    }
}

/// The data of the first image embedded at or after `i`.
pub open spec fn uri_data_from(svg: Seq<char>, i: int) -> Option<Seq<char>>
    decreases svg.len() - i,
{
    if i >= svg.len() {
        None
    } else {
        match uri_end(svg, i) {
            Some(end) => Some(svg.subrange(i + uri_prefix().len(), end)),
            None => uri_data_from(svg, i + 1),
        }
    }
}

/// The data of the first JPEG image that is embedded in an SVG.
pub fn jpeg_data_uri(svg: &str) -> (r: Option<String>)
    ensures
        match r {
            Some(data) => uri_data_from(svg@, 0) == Some(data@),
            None => uri_data_from(svg@, 0) is None,
        },
{
    let v = text::chars_of(svg);
    let prefix = text::chars_of("xlink:href=\"data:image/jpeg;base64,");
    let quote = text::chars_of("\"");
    let mut i: usize = 0;
    while i < v.len()
        invariant
            i <= v@.len(),
            v@ == svg@,
            prefix@ == uri_prefix(),
            quote@ == "\""@,
            uri_data_from(svg@, 0) == uri_data_from(svg@, i as int),
        decreases v@.len() - i,
    {
        if prefix.len() <= v.len() - i && text::stands_at(&v, &prefix, i) {
            let start = i + prefix.len();
            proof {
                text::lemma_find_from(v@, quote@, start as int);
            }
            if let Some(end) = text::find_in(&v, &quote, start) {
                if end > start {
                    return Some(text::string_of(&v, start, end));
                }
            }
        }
        i += 1;
    }
    None
}

/// The data that is taken out of an SVG stands in it between the prefix and a
/// quotation mark, and holds no quotation mark itself; no image is embedded before it.
pub proof fn law_data_uri_is_first(svg: Seq<char>, i: int)
    requires
        0 <= i,
    ensures
        match uri_data_from(svg, i) {
            Some(data) => exists|k: int| #[trigger]
                uri_end(svg, k) is Some && i <= k && data == svg.subrange(
                    k + uri_prefix().len(),
                    uri_end(svg, k)->0,
                ) && data.len() > 0 && (forall|j: int|
                    0 <= j < data.len() ==> #[trigger] data[j] != '"') && forall|j: int|
                    i <= j < k ==> #[trigger] uri_end(svg, j) is None,
            None => forall|j: int| i <= j ==> #[trigger] uri_end(svg, j) is None,
        },
    decreases svg.len() - i,
{
    reveal_strlit("\"");
    reveal_strlit("xlink:href=\"data:image/jpeg;base64,");
    assert(uri_prefix().len() > 0);
    if i < svg.len() {
        if let Some(end) = uri_end(svg, i) {
            let start = i + uri_prefix().len();
            let data = svg.subrange(start, end);
            text::lemma_find_from(svg, "\""@, start);
            assert forall|j: int| 0 <= j < data.len() implies #[trigger] data[j] != '"' by {
                if data[j] == '"' {
                    assert(svg.subrange(start + j, start + j + 1) =~= "\""@);
                    assert(text::occurs_at(svg, "\""@, start + j));
                }
            }
        } else {
            law_data_uri_is_first(svg, i + 1);
        }
    }
}

/// Why some bytes are not UTF-8, as [`std::str::Utf8Error`] words it.
pub uninterp spec fn utf8_error(bytes: Seq<u8>) -> Seq<char>;

/// Calls [`std::str::from_utf8`]: bytes that are UTF-8 give the text they encode, any
/// others a reason that depends on the bytes alone.
#[verifier::external_body]
fn utf8_text(bytes: &[u8]) -> (r: Result<&str, String>)
    ensures
        match r {
            Ok(s) => vstd::utf8::valid_utf8(bytes@) && s@ == vstd::utf8::decode_utf8(bytes@),
            Err(e) => !vstd::utf8::valid_utf8(bytes@) && e@ == utf8_error(bytes@),
        },
{
    std::str::from_utf8(bytes).map_err(|e| e.to_string())
}

/// The bytes that a text writes in base 64 with the standard alphabet and padding, or
/// the reason why it writes none: what [`base64::engine::general_purpose::STANDARD`]
/// makes of it.
pub uninterp spec fn base64_bytes(s: Seq<char>) -> Result<Seq<u8>, Seq<char>>;

/// Calls [`base64::Engine::decode`] of the standard engine. The result depends on the
/// text alone.
#[verifier::external_body]
fn decode_base64(s: &str) -> (r: Result<Vec<u8>, String>)
    ensures
        match r {
            Ok(bytes) => base64_bytes(s@) == Ok::<Seq<u8>, Seq<char>>(bytes@),
            Err(e) => base64_bytes(s@) == Err::<Seq<u8>, Seq<char>>(e@),
        },
{
    base64::Engine::decode(&base64::engine::general_purpose::STANDARD, s).map_err(|e| e.to_string())
}

/// The JPEG image embedded in a cover's SVG, or why there is none.
pub open spec fn cover_image(svg: Seq<u8>) -> Result<Seq<u8>, Seq<char>> {
    if !vstd::utf8::valid_utf8(svg) {
        Err("SVG not UTF-8: "@ + utf8_error(svg))
    } else {
        match uri_data_from(vstd::utf8::decode_utf8(svg), 0) {
            None => Err("no JPEG data URI in SVG"@),
            Some(data) => match base64_bytes(data) {
                Ok(bytes) => Ok(bytes),
                Err(e) => Err("base64 decode: "@ + e),
            },
        }
    }
}

/// The JPEG image embedded in a cover's SVG.
pub fn extract_jpeg_from_svg(svg: &[u8]) -> (r: Result<Vec<u8>, String>)
    ensures
        match r {
            Ok(bytes) => cover_image(svg@) == Ok::<Seq<u8>, Seq<char>>(bytes@),
            Err(m) => cover_image(svg@) == Err::<Seq<u8>, Seq<char>>(m@),
        },
{
    let svg_text = match utf8_text(svg) {
        Ok(s) => s,
        Err(e) => {
            return Err("SVG not UTF-8: ".to_string().concat(e.as_str()));
        },
    };
    match jpeg_data_uri(svg_text) {
        None => Err("no JPEG data URI in SVG".to_string()),
        Some(data) => match decode_base64(data.as_str()) {
            Ok(bytes) => Ok(bytes),
            Err(e) => Err("base64 decode: ".to_string().concat(e.as_str())),
        },
    }
}

/// Width and height of a JPEG image, or why it cannot be decoded: what
/// [`image::load_from_memory_with_format`] makes of it.
pub uninterp spec fn jpeg_size(data: Seq<u8>) -> Result<(u32, u32), Seq<char>>;

/// Calls [`image::load_from_memory_with_format`] for JPEG, and the decoded image's
/// `dimensions`. Whether the image can be decoded, its size and the reason given
/// depend on the bytes alone; a JPEG image has no side above 65535. The decoder comes
/// back from every image whose frame it can take, built with overflow checks or without.
#[verifier::external_body]
fn read_jpeg_size(data: &[u8]) -> (r: Result<(u32, u32), String>)
    requires
        frame::can_decode(data@),
    ensures
        match r {
            Ok(size) => {
                &&& jpeg_size(data@) == Ok::<(u32, u32), Seq<char>>(size)
                &&& size.0 <= thumbnail::MAX_SIDE
                &&& size.1 <= thumbnail::MAX_SIDE
            },
            Err(e) => jpeg_size(data@) == Err::<(u32, u32), Seq<char>>(e@),
        },
{
    image::load_from_memory_with_format(data, image::ImageFormat::Jpeg)
        .map(|img| image::GenericImageView::dimensions(&img))
        .map_err(|e| e.to_string())
}

/// `out` is an outcome of decoding the JPEG image `data`, resizing it to `w` by `h`
/// with the triangle filter and encoding it as JPEG at the given quality: the bytes,
/// or why it cannot be encoded.
pub uninterp spec fn is_jpeg_thumbnail(
    data: Seq<u8>,
    w: u32,
    h: u32,
    quality: u8,
    out: Result<Seq<u8>, Seq<char>>,
) -> bool;

/// Calls [`image::load_from_memory_with_format`], `resize_exact` of the decoded image
/// and `write_with_encoder` with a [`image::codecs::jpeg::JpegEncoder`]. The encoder
/// takes every size of which neither side is zero nor above 65535, and what it writes
/// is a JPEG image of that size. The pixels are not stated: the decoder chooses its
/// arithmetic by what the machine offers.
#[verifier::external_body]
fn encode_thumbnail(data: &[u8], w: u32, h: u32, quality: u8) -> (r: Result<Vec<u8>, String>)
    requires
        frame::can_decode(data@),
        jpeg_size(data@) is Ok,
        w <= thumbnail::THUMB_W,
        h <= thumbnail::THUMB_H,
    ensures
        match r {
            Ok(bytes) => {
                &&& 0 < w && 0 < h
                &&& is_jpeg_thumbnail(data@, w, h, quality, Ok(bytes@))
                &&& jpeg_size(bytes@) == Ok::<(u32, u32), Seq<char>>((w, h))
            },
            Err(e) => {
                &&& w == 0 || h == 0
                &&& is_jpeg_thumbnail(data@, w, h, quality, Err(e@))
            },
        },
{
    let img = image::load_from_memory_with_format(data, image::ImageFormat::Jpeg)
        .map_err(|e| e.to_string())?;
    let small = img.resize_exact(w, h, image::imageops::FilterType::Triangle);
    let mut out = std::io::Cursor::new(Vec::new());
    let encoder = image::codecs::jpeg::JpegEncoder::new_with_quality(&mut out, quality);
    small.write_with_encoder(encoder).map_err(|e| e.to_string())?;
    Ok(out.into_inner())
}

/// The quality that thumbnails are encoded at.
pub const QUALITY: u8 = 85;

/// `m` says why the JPEG image `data` could not be encoded at that size.
pub open spec fn is_encoding_failure(data: Seq<u8>, w: u32, h: u32, m: Seq<char>) -> bool {
    exists|e: Seq<char>|
        m == "encode jpeg: "@ + e && #[trigger] is_jpeg_thumbnail(data, w, h, QUALITY, Err(e))
}

/// `r` is the thumbnail of the JPEG image `data`, or says why there is none.
pub open spec fn is_thumbnail(data: Seq<u8>, r: Result<Seq<u8>, Seq<char>>) -> bool {
    match jpeg_size(data) {
        Err(e) => r == Err::<Seq<u8>, Seq<char>>("decode image: "@ + e),
        Ok(size) => {
            let fit = thumbnail::thumb_size_of(size.0 as nat, size.1 as nat);
            let w = fit.0 as u32;
            let h = fit.1 as u32;
            &&& size.0 <= thumbnail::MAX_SIDE && size.1 <= thumbnail::MAX_SIDE
            &&& match r {
                Ok(bytes) => {
                    &&& 0 < w <= thumbnail::THUMB_W && 0 < h <= thumbnail::THUMB_H
                    &&& is_jpeg_thumbnail(data, w, h, QUALITY, Ok(bytes))
                    &&& jpeg_size(bytes) == Ok::<(u32, u32), Seq<char>>((w, h))
                },
                Err(m) => (w == 0 || h == 0) && is_encoding_failure(data, w, h, m),
            }
        },
    }
}

/// What a result holds, its bytes or its message.
pub open spec fn outcome(r: Result<Vec<u8>, String>) -> Result<Seq<u8>, Seq<char>> {
    match r {
        Ok(bytes) => Ok(bytes@),
        Err(m) => Err(m@),
    }
}

/// The thumbnail of a JPEG image. An image whose frame the decoder cannot take is
/// refused.
pub fn resize_jpeg(data: &[u8]) -> (r: Result<Vec<u8>, String>)
    ensures
        frame::can_decode(data@) ==> is_thumbnail(data@, outcome(r)),
        !frame::can_decode(data@) ==> (r matches Err(m) && m@
            == "decode image: unsupported frame"@),
{
    if !frame::frame_can_decode(data) {
        return Err("decode image: unsupported frame".to_string());
    }
    let (src_w, src_h) = match read_jpeg_size(data) {
        Ok(size) => size,
        Err(e) => {
            return Err("decode image: ".to_string().concat(e.as_str()));
        },
    };
    let (w, h) = thumbnail::thumb_size(src_w, src_h);
    proof {
        thumbnail::law_thumbnail_fits(src_w as nat, src_h as nat);
    }
    match encode_thumbnail(data, w, h, QUALITY) {
        Ok(bytes) => Ok(bytes),
        Err(e) => {
            let m = "encode jpeg: ".to_string().concat(e.as_str());
            assert(is_encoding_failure(data@, w, h, m@));
            Err(m)
        },
    }
}

/// The address of a book's cover.
pub fn cover_url(repo: &str) -> (r: String)
    ensures
        r@ == "https://raw.githubusercontent.com/standardebooks/"@ + repo@
            + "/master/src/epub/images/cover.svg"@,
{
    let mut r = "https://raw.githubusercontent.com/standardebooks/".to_string();
    r.append(repo);
    r.append("/master/src/epub/images/cover.svg");
    r
}

/// The file name of a book's thumbnail.
pub fn cover_file_name(repo: &str) -> (r: String)
    ensures
        r@ == repo@ + ".jpg"@,
{
    repo.to_string().concat(".jpg")
}

/// The thumbnail in the answer to a request for a cover: `status` is the answer's
/// status line and `body` its bytes.
pub fn cover_from_response(success: bool, status: &str, body: &[u8]) -> (r: Result<
    Vec<u8>,
    String,
>)
    ensures
        !success ==> (r matches Err(m) && m@ == "HTTP "@ + status@),
        success ==> match cover_image(body@) {
            Ok(data) => if frame::can_decode(data) {
                is_thumbnail(data, outcome(r))
            } else {
                outcome(r) == Err::<Seq<u8>, Seq<char>>("decode image: unsupported frame"@)
            },
            Err(e) => outcome(r) == Err::<Seq<u8>, Seq<char>>(e),
        },
{
    if !success {
        return Err("HTTP ".to_string().concat(status));
    }
    match extract_jpeg_from_svg(body) {
        Ok(data) => resize_jpeg(data.as_slice()),
        Err(e) => Err(e),
    }
}

/// What a run of fetching covers came to.
#[derive(Clone, Copy, Debug, PartialEq, Eq)]
pub struct CoverResult {
    pub fetched: usize,
    pub cached: usize,
    pub errors: usize,
}

/// A run that fetches the covers that are not there: `on_disk` says of each book
/// whether its thumbnail is, and `limit` how many are fetched at once.
pub fn cover_run(list: &Vec<Book>, on_disk: &Vec<bool>, limit: usize) -> (r: BookRun)
    requires
        on_disk@.len() == list@.len(),
    ensures
        r.wf(),
        r@ == plan::fresh_book_run(books::views(list@), on_disk@, "fetched"@, limit as nat),
{
    BookRun::new(list, on_disk, "fetched", limit)
}

/// What a run of fetching covers came to.
pub fn cover_result(run: &BookRun) -> (r: CoverResult)
    requires
        run.wf(),
    ensures
        r.fetched == runs::count_at(run@.run.stages, Stage::Done),
        r.cached == run@.there,
        r.errors == runs::count_at(run@.run.stages, Stage::Failed),
{
    CoverResult { fetched: run.done(), cached: run.there(), errors: run.failed() }
}

proof fn lemma_uri_skips(svg: Seq<char>, i: int, k: int)
    requires
        0 <= i <= k,
        forall|j: int| i <= j < k ==> #[trigger] uri_end(svg, j) is None,
    ensures
        uri_data_from(svg, i) == uri_data_from(svg, k),
    decreases k - i,
{
    if i < k {
        assert(uri_end(svg, i) is None);
        lemma_uri_skips(svg, i + 1, k);
        if i >= svg.len() {
            assert(uri_data_from(svg, k) is None);
        }
    }
}

/// A JPEG image that is embedded in an SVG is found: its data are all that stands between
/// the words that announce it and the next quotation mark, wherever they are, if no other
/// is announced ahead of it.
pub proof fn law_embedded_image_is_found(a: Seq<char>, data: Seq<char>, b: Seq<char>)
    requires
        !text::has(
            a + "xlink:href=\"data:image/jpeg;base64"@,
            "xlink:href=\"data:image/jpeg;base64,"@,
        ),
        data.len() > 0,
        forall|i: int| 0 <= i < data.len() ==> #[trigger] data[i] != '"',
    ensures
        uri_data_from(
            a + "xlink:href=\"data:image/jpeg;base64,"@ + data + seq!['"'] + b,
            0,
        ) == Some(data),
{
    let p = uri_prefix();
    reveal_strlit("xlink:href=\"data:image/jpeg;base64,");
    reveal_strlit("xlink:href=\"data:image/jpeg;base64");
    reveal_strlit("\"");
    assert(p.drop_last() =~= "xlink:href=\"data:image/jpeg;base64"@);
    assert("\""@ =~= seq!['"']);
    let rest = data + seq!['"'] + b;
    let svg = a + p + data + seq!['"'] + b;
    assert(svg =~= a + p + rest);
    text::law_found_first(a, p, rest);
    let n = a.len() as int;
    let start = n + p.len();
    let end = start + data.len();
    text::lemma_find_from(svg, p, 0);
    text::lemma_find_from(svg, "\""@, start);
    assert(svg.subrange(end, end + 1) =~= "\""@);
    assert(text::occurs_at(svg, "\""@, end));
    assert forall|j: int| start <= j < end implies !text::occurs_at(svg, "\""@, j) by {
        assert(svg[j] == data[j - start]);
        assert(svg.subrange(j, j + 1)[0] == svg[j]);
    }
    assert(text::find_from(svg, "\""@, start) == Some(end));
    assert(uri_end(svg, n) == Some(end));
    assert forall|j: int| 0 <= j < n implies #[trigger] uri_end(svg, j) is None by {
        assert(!text::occurs_at(svg, p, j));
    }
    lemma_uri_skips(svg, 0, n);
    assert(svg.subrange(start, end) =~= data);
}

/// An SVG without the words that announce an image has none. Where they stand with nothing
/// between them and a quotation mark, or without one behind them, no image is embedded
/// there, and the search goes on.
pub proof fn law_no_image_without_data(svg: Seq<char>, i: int)
    requires
        0 <= i,
    ensures
        !text::has(svg, "xlink:href=\"data:image/jpeg;base64,"@) ==> uri_data_from(svg, 0) is None,
        text::occurs_at(svg, "xlink:href=\"data:image/jpeg;base64,\""@, i) ==> uri_data_from(svg, i)
            == uri_data_from(svg, i + 1),
        (forall|j: int|
            i + "xlink:href=\"data:image/jpeg;base64,"@.len() <= j < svg.len() ==> #[trigger] svg[j]
                != '"') ==> uri_data_from(svg, i) == uri_data_from(svg, i + 1),
{
    let p = uri_prefix();
    reveal_strlit("xlink:href=\"data:image/jpeg;base64,");
    reveal_strlit("xlink:href=\"data:image/jpeg;base64,\"");
    reveal_strlit("\"");
    let start = i + p.len();
    text::lemma_find_from(svg, "\""@, start);
    if !text::has(svg, p) {
        assert forall|j: int| 0 <= j < svg.len() implies #[trigger] uri_end(svg, j) is None by {
            assert(!text::occurs_at(svg, p, j));
        }
        lemma_uri_skips(svg, 0, svg.len() as int);
    }
    if text::occurs_at(svg, "xlink:href=\"data:image/jpeg;base64,\""@, i) {
        let all = "xlink:href=\"data:image/jpeg;base64,\""@;
        assert(svg.subrange(i, i + all.len())[all.len() - 1] == svg[start]);
        assert(svg[start] == '"');
        assert(svg.subrange(start, start + 1) =~= "\""@);
        assert(text::occurs_at(svg, "\""@, start));
        assert(uri_end(svg, i) is None);
    }
    if forall|j: int| start <= j < svg.len() ==> #[trigger] svg[j] != '"' {
        if let Some(end) = text::find_from(svg, "\""@, start) {
            assert(svg.subrange(end, end + 1)[0] == svg[end]);
        }
        assert(uri_end(svg, i) is None);
    }
}

/// The image of a cover is what its embedded data write in base 64. Each thing that can be
/// wrong with it is told in its own words.
pub proof fn law_cover_image_is_what_is_embedded(svg: Seq<u8>, e: Seq<char>, data: Seq<char>)
    ensures
        !vstd::utf8::valid_utf8(svg) ==> cover_image(svg) == Err::<Seq<u8>, _>(
            "SVG not UTF-8: "@ + utf8_error(svg),
        ),
        vstd::utf8::valid_utf8(svg) && uri_data_from(vstd::utf8::decode_utf8(svg), 0) is None
            ==> cover_image(svg) == Err::<Seq<u8>, _>("no JPEG data URI in SVG"@),
        vstd::utf8::valid_utf8(svg) && uri_data_from(vstd::utf8::decode_utf8(svg), 0) == Some(data)
            ==> (base64_bytes(data) is Ok ==> cover_image(svg) == base64_bytes(data)) && (
        base64_bytes(data) == Err::<Seq<u8>, _>(e) ==> cover_image(svg) == Err::<Seq<u8>, _>(
            "base64 decode: "@ + e,
        )),
{
}

/// A thumbnail is a JPEG image of quality 85 that is at most 280 wide and 420 high, of the
/// size that the image is fitted to.
pub proof fn law_thumbnail_is_made_to_size(data: Seq<u8>, w: u32, h: u32, bytes: Seq<u8>)
    requires
        jpeg_size(data) == Ok::<(u32, u32), Seq<char>>((w, h)),
        is_thumbnail(data, Ok(bytes)),
    ensures
        ({
            let size = thumbnail::thumb_size_of(w as nat, h as nat);
            let x = size.0 as u32;
            let y = size.1 as u32;
            &&& 0 < x <= 280
            &&& 0 < y <= 420
            &&& jpeg_size(bytes) == Ok::<(u32, u32), Seq<char>>((x, y))
            &&& is_jpeg_thumbnail(data, x, y, 85, Ok(bytes))
        }),
{
}

/// The search for an image goes from left to right: where none is announced it goes on
/// with the next character, and where one is embedded it ends with that image's data.
pub proof fn law_search_for_images_goes_on(svg: Seq<char>, i: int, data: Seq<char>)
    requires
        0 <= i < svg.len(),
        data.len() > 0,
        forall|k: int| 0 <= k < data.len() ==> #[trigger] data[k] != '"',
    ensures
        !text::occurs_at(svg, "xlink:href=\"data:image/jpeg;base64,"@, i) ==> uri_data_from(svg, i)
            == uri_data_from(svg, i + 1),
        text::occurs_at(svg, "xlink:href=\"data:image/jpeg;base64,"@ + data + seq!['"'], i)
            ==> uri_data_from(svg, i) == Some(data),
        uri_data_from(svg, svg.len() as int) is None,
{
    let p = uri_prefix();
    reveal_strlit("xlink:href=\"data:image/jpeg;base64,");
    reveal_strlit("\"");
    assert("\""@ =~= seq!['"']);
    let all = p + data + seq!['"'];
    let start = i + p.len();
    let end = start + data.len();
    if text::occurs_at(svg, all, i) {
        let part = svg.subrange(i, i + all.len());
        assert forall|k: int| 0 <= k < all.len() implies svg[i + k] == #[trigger] all[k] by {
            assert(part[k] == svg[i + k]);
        }
        assert(svg.subrange(i, start) =~= p) by {
            assert forall|k: int| 0 <= k < p.len() implies svg.subrange(i, start)[k] == p[k] by {
                assert(all[k] == p[k]);
            }
        }
        assert(text::occurs_at(svg, p, i));
        assert(svg.subrange(start, end) =~= data) by {
            assert forall|k: int| 0 <= k < data.len() implies svg.subrange(start, end)[k]
                == data[k] by {
                assert(all[p.len() + k] == data[k]);
            }
        }
        assert(svg[end] == '"') by {
            assert(all[all.len() - 1] == '"');
        }
        assert(svg.subrange(end, end + 1) =~= "\""@);
        assert(text::occurs_at(svg, "\""@, end));
        text::lemma_find_from(svg, "\""@, start);
        assert forall|j: int| start <= j < end implies !text::occurs_at(svg, "\""@, j) by {
            assert(svg.subrange(start, end)[j - start] == data[j - start]);
            assert(svg.subrange(j, j + 1)[0] == svg[j]);
        }
        assert(uri_end(svg, i) == Some(end));
    }
}

/// A thumbnail is owed of every image that the decoder decodes, unless a side of it would
/// be zero; an image that it does not decode is answered with its reason.
pub proof fn law_thumbnail_is_owed(data: Seq<u8>, r: Result<Seq<u8>, Seq<char>>, e: Seq<char>)
    requires
        is_thumbnail(data, r),
    ensures
        jpeg_size(data) == Err::<(u32, u32), _>(e) ==> r == Err::<Seq<u8>, _>("decode image: "@ + e),
        jpeg_size(data) matches Ok(size) ==> {
            let fit = thumbnail::thumb_size_of(size.0 as nat, size.1 as nat);
            &&& fit.0 > 0 && fit.1 > 0 ==> r is Ok
            &&& r matches Err(m) ==> exists|reason: Seq<char>|
                m == #[trigger] ("encode jpeg: "@ + reason)
        },
{
    if let Ok(size) = jpeg_size(data) {
        thumbnail::law_thumbnail_fits(size.0 as nat, size.1 as nat);
        if let Err(m) = r {
            let fit = thumbnail::thumb_size_of(size.0 as nat, size.1 as nat);
            assert(is_encoding_failure(data, fit.0 as u32, fit.1 as u32, m));
            let reason = choose|reason: Seq<char>|
                m == "encode jpeg: "@ + reason && #[trigger] is_jpeg_thumbnail(
                    data,
                    fit.0 as u32,
                    fit.1 as u32,
                    QUALITY,
                    Err(reason),
                );
            assert(m == "encode jpeg: "@ + reason);
        }
    }
}

} // verus!
