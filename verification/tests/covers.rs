use base64::Engine;
use ebook_manager::books::Book;
use ebook_manager::covers::{
    cover_file_name, cover_from_response, cover_result, cover_run, cover_url, extract_jpeg_from_svg,
    jpeg_data_uri, resize_jpeg, CoverResult,
};
use ebook_manager::plan::{JobOutcome, Turn};
use ebook_manager::runs::Progress;
use ebook_manager::thumbnail::thumb_size;
use image::GenericImageView;

fn jpeg(w: u32, h: u32) -> Vec<u8> {
    let img = image::RgbImage::from_fn(w, h, |x, y| image::Rgb([x as u8, y as u8, 90]));
    let mut out = std::io::Cursor::new(Vec::new());
    let encoder = image::codecs::jpeg::JpegEncoder::new_with_quality(&mut out, 90);
    image::DynamicImage::ImageRgb8(img).write_with_encoder(encoder).unwrap();
    out.into_inner()
}

fn svg(data: &[u8]) -> String {
    let text = base64::engine::general_purpose::STANDARD.encode(data);
    format!("<svg><image xlink:href=\"data:image/jpeg;base64,{text}\"/></svg>")
}

fn size_of(data: &[u8]) -> (u32, u32) {
    image::load_from_memory_with_format(data, image::ImageFormat::Jpeg).unwrap().dimensions()
}

/// The size of a thumbnail by floating-point arithmetic.
fn float_size(w: u32, h: u32) -> (u32, u32) {
    let ratio = w as f64 / h as f64;
    let target = 280.0f64 / 420.0f64;
    let (x, y) = if ratio > target {
        (280, (280.0 / ratio) as u32)
    } else {
        ((420.0 * ratio) as u32, 420)
    };
    if x >= w && y >= h {
        (w, h)
    } else {
        (x, y)
    }
}

#[test]
fn thumbnails_have_the_size_that_floating_point_gives() {
    for w in 0..=700 {
        for h in 0..=700 {
            assert_eq!(thumb_size(w, h), float_size(w, h), "{w} x {h}");
        }
    }
    let mut n: u64 = 1;
    for _ in 0..400_000 {
        n = n.wrapping_mul(6364136223846793005).wrapping_add(1442695040888963407);
        let (w, h) = ((n >> 48) as u32, (n >> 20) as u32 & 0xffff);
        assert_eq!(thumb_size(w, h), float_size(w, h), "{w} x {h}");
    }
    for w in [1, 2, 3, 279, 280, 281, 32767, 65534, 65535] {
        for h in 0..=65535 {
            assert_eq!(thumb_size(w, h), float_size(w, h), "{w} x {h}");
            assert_eq!(thumb_size(h, w), float_size(h, w), "{h} x {w}");
        }
    }
}

#[test]
fn thumbnails_of_known_covers() {
    assert_eq!(thumb_size(1400, 2100), (280, 420));
    assert_eq!(thumb_size(2000, 1000), (280, 140));
    assert_eq!(thumb_size(1000, 3000), (140, 420));
    assert_eq!(thumb_size(100, 50), (100, 50));
    assert_eq!(thumb_size(280, 420), (280, 420));
    assert_eq!(thumb_size(65535, 1), (280, 0));
}

#[test]
fn a_thumbnail_fits_and_is_never_larger() {
    for (w, h) in [(65535, 65535), (1, 65535), (281, 420), (280, 421), (700, 1050)] {
        let (x, y) = thumb_size(w, h);
        assert!(x <= 280 && y <= 420);
        assert!(x <= w && y <= h);
    }
}

#[test]
fn the_data_uri_is_found_as_by_pattern() {
    let re = regex::Regex::new(r#"xlink:href="data:image/jpeg;base64,([^"]+)""#).unwrap();
    let p = "xlink:href=\"data:image/jpeg;base64,";
    let cases = [
        String::new(),
        "<svg/>".to_string(),
        p.to_string(),
        format!("{p}\""),
        format!("{p}abc"),
        format!("{p}abc\""),
        format!("{p}\"{p}abc\""),
        format!("{p}\" x {p}d\ne\" y"),
        format!("{p}{p}abc\""),
        format!("{p}a\" {p}b\""),
        format!("x{p}é ü\""),
        format!("xlink:href=\"data:image/png;base64,q\" {p}zz\""),
        format!("{p}\"\"{p}"),
    ];
    for s in cases {
        let expected = re.captures(&s).map(|c| c[1].to_string());
        assert_eq!(jpeg_data_uri(&s), expected, "{s:?}");
    }
    let pieces = ["xlink:href=\"", "data:image/jpeg;base64,", "\"", "a", p];
    for code in 0..5usize.pow(5) {
        let mut n = code;
        let mut s = String::new();
        for _ in 0..5 {
            s.push_str(pieces[n % 5]);
            n /= 5;
        }
        let expected = re.captures(&s).map(|c| c[1].to_string());
        assert_eq!(jpeg_data_uri(&s), expected, "{s:?}");
    }
}

#[test]
fn the_image_is_taken_out_of_the_cover() {
    let data = jpeg(8, 12);
    assert_eq!(extract_jpeg_from_svg(svg(&data).as_bytes()), Ok(data));
}

#[test]
fn a_cover_without_image_is_refused() {
    assert_eq!(extract_jpeg_from_svg(b"<svg/>"), Err("no JPEG data URI in SVG".to_string()));
    let m = extract_jpeg_from_svg(b"\xff\xfe").unwrap_err();
    assert_eq!(m, "SVG not UTF-8: invalid utf-8 sequence of 1 bytes from index 0");
    let m = extract_jpeg_from_svg(b"xlink:href=\"data:image/jpeg;base64,!!\"").unwrap_err();
    assert_eq!(m, "base64 decode: Invalid symbol 33, offset 0.");
}

#[test]
fn an_image_is_made_smaller() {
    let large = jpeg(700, 1050);
    let thumb = resize_jpeg(&large).unwrap();
    assert_eq!(size_of(&thumb), (280, 420));
    assert!(thumb != large);
    assert_eq!(size_of(&resize_jpeg(&jpeg(600, 300)).unwrap()), (280, 140));
    assert_eq!(size_of(&resize_jpeg(&jpeg(20, 30)).unwrap()), (20, 30));
}

#[test]
fn what_is_no_image_is_refused() {
    let m = resize_jpeg(b"not a jpeg").unwrap_err();
    assert!(m.starts_with("decode image: ") && m.len() > "decode image: ".len(), "{m}");
}

#[test]
fn an_image_too_flat_for_a_thumbnail_is_refused() {
    for (w, h) in [(2000, 1), (1, 2000)] {
        let m = resize_jpeg(&jpeg(w, h)).unwrap_err();
        assert!(m.starts_with("encode jpeg: ") && m.len() > "encode jpeg: ".len(), "{m}");
    }
}

#[test]
fn the_answer_to_a_request_for_a_cover_is_read() {
    let body = svg(&jpeg(300, 450));
    assert_eq!(
        cover_from_response(false, "404 Not Found", body.as_bytes()),
        Err("HTTP 404 Not Found".to_string())
    );
    assert_eq!(
        cover_from_response(true, "200 OK", b"<svg/>"),
        Err("no JPEG data URI in SVG".to_string())
    );
    let thumb = cover_from_response(true, "200 OK", body.as_bytes()).unwrap();
    assert_eq!(size_of(&thumb), (280, 420));
}

#[test]
fn covers_have_an_address_and_a_file() {
    assert_eq!(
        cover_url("jane-austen_emma"),
        "https://raw.githubusercontent.com/standardebooks/jane-austen_emma/master/src/epub/images/cover.svg"
    );
    assert_eq!(cover_file_name("jane-austen_emma"), "jane-austen_emma.jpg");
}

fn book(title: &str, repo: &str) -> Book {
    Book { title: title.to_string(), repo_name: repo.to_string(), ..Book::default() }
}

#[test]
fn covers_that_are_there_are_not_fetched() {
    let list = vec![book("a", "r0"), book("b", "r1"), book("c", ""), book("d", "r3"), book("e", "r4")];
    let mut run = cover_run(&list, &vec![false, true, false, false, false], 10);
    assert_eq!(run.start(false), Turn::Job(0));
    assert_eq!(run.start(false), Turn::Job(1));
    assert_eq!(run.job(1).repo_name, "r3");
    assert_eq!(
        run.settle(1, JobOutcome::Done),
        Some(Progress { current: 2, total: 3, title: "d".to_string(), status: "fetched".to_string() })
    );
    assert_eq!(
        run.settle(0, JobOutcome::Failed("HTTP 404".to_string())),
        Some(Progress { current: 1, total: 3, title: "a".to_string(), status: "error: HTTP 404".to_string() })
    );
    assert_eq!(run.start(true), Turn::Over);
    assert_eq!(run.start(false), Turn::Job(2));
    assert_eq!(run.settle(2, JobOutcome::Cancelled), None);
    assert_eq!(run.start(false), Turn::Over);
    assert_eq!(cover_result(&run), CoverResult { fetched: 1, cached: 1, errors: 1 });
}

#[test]
fn a_finished_run_accounts_for_every_named_book() {
    let mut list: Vec<Book> = (0..12).map(|i| book("t", &format!("r{i}"))).collect();
    list[3].repo_name.clear();
    list[8].repo_name.clear();
    let on_disk = (0..12).map(|i| i % 4 == 0).collect();
    let mut run = cover_run(&list, &on_disk, 10);
    let mut started = vec![];
    while let Turn::Job(i) = run.start(false) {
        started.push(i);
    }
    for i in started.into_iter().rev() {
        let outcome = if i % 3 == 1 { JobOutcome::Failed("e".to_string()) } else { JobOutcome::Done };
        run.settle(i, outcome);
    }
    let r = cover_result(&run);
    assert_eq!(r, CoverResult { fetched: 5, cached: 2, errors: 3 });
    assert_eq!(r.fetched + r.cached + r.errors, list.iter().filter(|b| !b.repo_name.is_empty()).count());
}
