use base64::Engine;
use ebook_manager::covers::{cover_from_response, resize_jpeg};
use ebook_manager::frame::frame_can_decode;
use image::GenericImageView;

/// What goes into an image.
struct Plan {
    progressive: bool,
    size: (u16, u16),
    factors: Vec<(u8, u8)>,
    /// The components of each scan.
    scans: Vec<Vec<u8>>,
    /// What the Adobe segments ahead of the frame, behind it and behind the first scan
    /// say the components stand for.
    marks: [Option<u8>; 3],
    /// Where the bits of the blocks come from; they are all zero at zero.
    seed: u64,
    /// After how many units the decoder starts afresh, if it does.
    restart: u8,
    /// The segment of quantization tables.
    quant: Vec<u8>,
    /// The largest symbol of the Huffman table for constant coefficients.
    last: u8,
}

/// A quantization table with the given first value, of two bytes if it has to be.
fn quant(first: u16) -> Vec<u8> {
    let mut out = vec![0xff, 0xdb, 0];
    if first < 256 {
        out.extend([67, 0, first as u8]);
        out.extend([1; 63]);
    } else {
        out.extend([131, 0x10]);
        out.extend(first.to_be_bytes());
        out.extend([0, 1].repeat(63));
    }
    out
}

/// A Huffman table of three symbols.
fn huffman(out: &mut Vec<u8>, kind: u8, last: u8) {
    out.extend([0xff, 0xc4, 0, 22, kind, 1, 1, 1]);
    out.extend([0; 13]);
    out.extend([0, 1, last]);
}

fn next(seed: &mut u64) -> u64 {
    *seed = seed.wrapping_mul(6364136223846793005).wrapping_add(1442695040888963407);
    *seed >> 33
}

fn adobe(out: &mut Vec<u8>, mark: Option<u8>) {
    if let Some(t) = mark {
        out.extend([0xff, 0xee, 0, 14]);
        out.extend(b"Adobe");
        out.extend([0, 100, 0, 0, 0, 0, t]);
    }
}

fn frame(out: &mut Vec<u8>, plan: &Plan) {
    let n = plan.factors.len() as u8;
    out.extend([0xff, if plan.progressive { 0xc2 } else { 0xc0 }, 0, 8 + 3 * n, 8]);
    out.extend(plan.size.1.to_be_bytes());
    out.extend(plan.size.0.to_be_bytes());
    out.push(n);
    for (c, (h, v)) in plan.factors.iter().enumerate() {
        out.extend([c as u8 + 1, h * 16 + v, 0]);
    }
}

/// How many bytes the blocks of a scan take if they are all empty.
fn scan_len(plan: &Plan, scan: &[u8]) -> usize {
    let (w, h) = (plan.size.0 as usize, plan.size.1 as usize);
    let most_h = plan.factors.iter().map(|f| f.0 as usize).fold(1, usize::max);
    let most_v = plan.factors.iter().map(|f| f.1 as usize).fold(1, usize::max);
    let blocks = if scan.len() == 1 {
        let f = plan.factors[scan[0] as usize];
        (w * f.0 as usize).div_ceil(8 * most_h) * (h * f.1 as usize).div_ceil(8 * most_v)
    } else {
        let unit: usize = scan.iter().map(|c| plan.factors[*c as usize]).map(|f| (f.0 * f.1) as usize).sum();
        w.div_ceil(8 * most_h) * h.div_ceil(8 * most_v) * unit
    };
    (if plan.progressive { blocks } else { 2 * blocks }).div_ceil(8)
}

fn put_scan(out: &mut Vec<u8>, plan: &Plan, scan: &[u8], range: [u8; 3]) {
    let n = scan.len() as u8;
    out.extend([0xff, 0xda, 0, 6 + 2 * n, n]);
    for c in scan {
        out.extend([c + 1, 0]);
    }
    out.extend(range);
    let mut seed = plan.seed + range[2] as u64;
    for i in 0..scan_len(plan, scan) {
        let b = next(&mut seed) as u8;
        out.push(if plan.seed == 0 || b == 0xff { 0 } else { b });
        if plan.restart > 0 && i % 5 == 4 {
            out.extend([0xff, 0xd0 + (i / 5 % 8) as u8]);
        }
    }
}

/// The segments of an image from the tables on, with `extra` ahead of them.
fn image_with(plan: &Plan, extra: &[u8]) -> Vec<u8> {
    let mut out = vec![0xff, 0xd8];
    out.extend(extra);
    adobe(&mut out, plan.marks[0]);
    out.extend(&plan.quant);
    frame(&mut out, plan);
    adobe(&mut out, plan.marks[1]);
    huffman(&mut out, 0x00, plan.last);
    huffman(&mut out, 0x10, 0x31);
    if plan.restart > 0 {
        out.extend([0xff, 0xdd, 0, 4, 0, plan.restart]);
    }
    for (i, scan) in plan.scans.iter().enumerate() {
        put_scan(&mut out, plan, scan, [0, if plan.progressive { 0 } else { 63 }, 0]);
        if i == 0 {
            adobe(&mut out, plan.marks[2]);
        }
    }
    if plan.progressive && plan.seed > 0 {
        for c in 0..plan.factors.len() as u8 {
            put_scan(&mut out, plan, &[c], [1, 63, 0x01]);
            put_scan(&mut out, plan, &[c], [1, 63, 0x10]);
        }
    }
    out.extend([0xff, 0xd9]);
    out
}

fn image(plan: &Plan) -> Vec<u8> {
    image_with(plan, &[])
}

/// A frame of 40 by 24 samples whose components come in one scan.
fn plan(progressive: bool, factors: &[(u8, u8)]) -> Plan {
    Plan {
        progressive,
        size: (40, 24),
        factors: factors.to_vec(),
        scans: vec![(0..factors.len() as u8).collect()],
        marks: [None; 3],
        seed: 0,
        restart: 0,
        quant: quant(1),
        last: 5,
    }
}

/// The same, each component in a scan of its own.
fn in_scans(factors: &[(u8, u8)]) -> Plan {
    Plan { scans: (0..factors.len() as u8).map(|c| vec![c]).collect(), ..plan(false, factors) }
}

fn refused(plan: &Plan) {
    let data = image(plan);
    assert!(!frame_can_decode(&data));
    let m = Err("decode image: unsupported frame".to_string());
    assert_eq!(resize_jpeg(&data), m);
    let text = base64::engine::general_purpose::STANDARD.encode(&data);
    let svg = format!("<svg><image xlink:href=\"data:image/jpeg;base64,{text}\"/></svg>");
    assert_eq!(cover_from_response(true, "200 OK", svg.as_bytes()), m);
}

fn taken(plan: &Plan) {
    let data = image(plan);
    assert!(frame_can_decode(&data));
    let thumb = resize_jpeg(&data).unwrap();
    let size = image::load_from_memory_with_format(&thumb, image::ImageFormat::Jpeg).unwrap().dimensions();
    assert_eq!(size, (plan.size.0 as u32, plan.size.1 as u32));
}

#[test]
fn ordinary_frames_are_taken() {
    for progressive in [false, true] {
        taken(&plan(progressive, &[(1, 1)]));
        for first in [(1, 1), (2, 1), (1, 2), (2, 2), (4, 1)] {
            taken(&plan(progressive, &[first, (1, 1), (1, 1)]));
            for mark in [0, 1, 2] {
                let marked = Plan { marks: [Some(mark), None, None], ..plan(progressive, &[first, (1, 1), (1, 1)]) };
                let r = resize_jpeg(&image(&marked));
                assert!(frame_can_decode(&image(&marked)));
                // Three components cannot be YCCK.
                assert!(r.is_ok() || mark == 2, "{r:?}");
            }
        }
        for mark in [0, 2] {
            let four = [(1, 1), (1, 1), (1, 1), (1, 1)];
            taken(&Plan { marks: [Some(mark), None, None], ..plan(progressive, &four) });
            let halved = [(2, 2), (1, 1), (1, 1), (2, 2)];
            taken(&Plan { marks: [Some(mark), None, None], ..plan(progressive, &halved) });
        }
    }
    taken(&in_scans(&[(1, 1), (1, 1), (1, 1)]));
    taken(&in_scans(&[(2, 1), (1, 1), (1, 1)]));
}

#[test]
fn few_components_marked_as_four_are_refused_if_progressive() {
    for factors in [vec![(1, 1)], vec![(1, 1), (1, 1)], vec![(2, 2), (1, 1)]] {
        let marked = Plan { marks: [None, Some(2), None], ..plan(true, &factors) };
        refused(&marked);
        assert!(frame_can_decode(&image(&Plan { progressive: false, ..marked })));
        assert!(frame_can_decode(&image(&Plan { marks: [None, Some(0), None], ..plan(true, &factors) })));
        assert!(frame_can_decode(&image(&Plan { marks: [None, Some(2), Some(1)], ..plan(false, &factors) })));
    }
    // The frame header has the last word on a single component.
    taken(&Plan { marks: [Some(2), None, None], ..plan(true, &[(1, 1)]) });
    refused(&Plan { marks: [Some(2), None, None], ..plan(true, &[(1, 1), (1, 1)]) });
}

#[test]
fn four_components_marked_as_three_are_refused_if_progressive_and_halved_down() {
    let halved = [(1, 2), (1, 1), (1, 1), (1, 2)];
    refused(&Plan { marks: [None, Some(1), None], ..plan(true, &halved) });
    refused(&Plan { marks: [None, Some(0), Some(1)], ..plan(true, &halved) });
    assert!(frame_can_decode(&image(&Plan { marks: [None, Some(1), None], ..plan(false, &halved) })));
    assert!(frame_can_decode(&image(&Plan { marks: [Some(1), None, None], ..plan(true, &halved) })));
    assert!(frame_can_decode(&image(&Plan { marks: [None, Some(0), Some(2)], ..plan(true, &halved) })));
    let even = [(2, 1), (1, 1), (1, 1), (2, 1)];
    assert!(frame_can_decode(&image(&Plan { marks: [None, Some(1), None], ..plan(true, &even) })));
}

#[test]
fn a_first_component_too_narrow_for_a_halved_one_is_refused() {
    let narrow = Plan { size: (8, 24), ..plan(true, &[(1, 1), (2, 2), (1, 1)]) };
    refused(&narrow);
    refused(&Plan { progressive: false, scans: vec![vec![0], vec![1], vec![2]], ..narrow });
    assert!(frame_can_decode(&image(&Plan { size: (8, 24), ..plan(false, &[(1, 1), (2, 2), (1, 1)]) })));
    refused(&Plan { size: (8, 32), ..plan(true, &[(1, 1), (2, 2)]) });
    // Wider by its own factor than by the largest one: the decoder finds that out.
    let wide = image(&Plan { size: (33, 32), ..plan(true, &[(1, 1), (4, 2), (2, 1)]) });
    assert!(frame_can_decode(&wide));
    assert!(resize_jpeg(&wide).unwrap_err().starts_with("decode image: Format error decoding Jpeg"));
}

#[test]
fn scans_that_run_over_are_refused() {
    refused(&Plan { size: (17, 32), ..in_scans(&[(1, 1), (2, 1)]) });
    assert!(frame_can_decode(&image(&Plan { size: (17, 32), ..plan(false, &[(1, 1), (2, 1)]) })));
    // Six blocks hold two rows of three, which is where the decoder stops.
    assert!(frame_can_decode(&image(&Plan { size: (17, 24), ..in_scans(&[(1, 1), (2, 1)]) })));
    assert!(frame_can_decode(&image(&Plan { size: (8, 32), ..in_scans(&[(1, 1), (2, 1)]) })));
    let first_two = vec![vec![0, 1], vec![2]];
    refused(&Plan { size: (17, 32), scans: first_two, ..plan(false, &[(1, 1), (2, 1), (1, 1)]) });
}

/// An image of one component, all of whose blocks are empty.
fn gray(size: (u16, u16), factors: (u8, u8), first: u16, last: u8) -> Plan {
    Plan { size, quant: quant(first), last, ..plan(false, &[factors]) }
}

#[test]
fn a_side_that_cannot_be_rounded_up_is_refused() {
    refused(&gray((65535, 8), (2, 2), 1, 5));
    refused(&gray((65529, 8), (1, 2), 1, 5));
    refused(&gray((8, 65529), (2, 1), 1, 5));
    assert!(frame_can_decode(&image(&gray((65528, 8), (2, 2), 1, 5))));
    assert!(frame_can_decode(&image(&gray((8, 65528), (2, 2), 1, 5))));
    assert!(frame_can_decode(&image(&gray((65535, 8), (1, 1), 1, 5))));
    assert!(frame_can_decode(&image(&Plan { progressive: true, ..gray((65535, 8), (2, 2), 1, 5) })));
    // Two components have their sides rounded up otherwise.
    let two = Plan { size: (65535, 8), ..plan(false, &[(2, 2), (1, 1)]) };
    assert!(frame_can_decode(&image(&two)));
}

#[test]
fn constant_coefficients_that_could_leave_the_range_are_refused() {
    // Two blocks, fifteen bits, two bytes: 2 * 32767 * 65535 is too much, half of it is not.
    refused(&gray((16, 8), (1, 1), 65535, 15));
    assert!(frame_can_decode(&image(&gray((8, 8), (1, 1), 65535, 15))));
    assert!(frame_can_decode(&image(&gray((16, 8), (1, 1), 32767, 15))));
    assert!(frame_can_decode(&image(&gray((16, 8), (1, 1), 65535, 14))));
    let n = 0x7fff_ffff - 1028;
    assert!(frame_can_decode(&image(&gray((8, 8 * 257), (1, 1), (n / (257 * 32767)) as u16, 15))));
    refused(&gray((8, 8 * 257), (1, 1), (n / (257 * 32767)) as u16 + 1, 15));
    // A progressive image is reckoned otherwise.
    assert!(frame_can_decode(&image(&Plan { progressive: true, ..gray((16, 8), (1, 1), 65535, 15) })));
    // The component with the most blocks counts, and the largest first value.
    refused(&Plan { size: (16, 8), quant: quant(65535), last: 15, ..plan(false, &[(1, 1), (2, 1)]) });
    let mut tables = quant(65535);
    tables.extend(quant(1));
    refused(&Plan { quant: tables, ..gray((16, 8), (1, 1), 1, 15) });
}

#[test]
fn the_scans_behind_the_first_are_reckoned_with() {
    let single = gray((8, 8), (1, 1), 65535, 15);
    assert!(frame_can_decode(&image(&single)));
    // Another scan, behind a comment, goes on where the first one ended.
    let scan = [0xff, 0xda, 0, 8, 1, 1, 0, 0, 63, 0, 0];
    let mut twice = image(&single);
    twice.truncate(twice.len() - 2);
    twice.extend([0xff, 0xfe, 0, 2]);
    twice.extend(scan);
    twice.extend([0xff, 0xd9]);
    assert!(!frame_can_decode(&twice));
    // So does one behind other segments and a mark that is read as a segment.
    let mut skipped = image(&single);
    skipped.truncate(skipped.len() - 2);
    skipped.extend([0xff, 0xfe, 0, 2, 0xff, 0xd3, 0, 4, 0xff, 0xd9]);
    skipped.extend(scan);
    assert!(!frame_can_decode(&skipped));
    // One behind the end of the image, or inside a comment, is none.
    let mut behind = image(&single);
    behind.extend(scan);
    assert!(frame_can_decode(&behind));
    let mut inside = image(&single);
    inside.truncate(inside.len() - 2);
    inside.extend([0xff, 0xfe, 0, 13]);
    inside.extend(scan);
    inside.extend([0xff, 0xd9]);
    assert!(frame_can_decode(&inside));
    assert!(resize_jpeg(&inside).is_ok());
    // Huffman tables between the scans count too.
    let mut tables = image(&gray((16, 8), (1, 1), 65535, 5));
    assert!(frame_can_decode(&tables));
    tables.truncate(tables.len() - 2);
    huffman(&mut tables, 0, 15);
    assert!(!frame_can_decode(&tables));
}

#[test]
fn film_frames_have_tables_of_their_own() {
    let film = [0xff, 0xe0, 0, 7, b'A', b'V', b'I', b'1', 0];
    let p = gray((8 * 100, 8), (1, 1), 16000, 2);
    assert!(frame_can_decode(&image(&p)));
    assert!(!frame_can_decode(&image_with(&p, &film)));
    let other = [0xff, 0xe0, 0, 7, b'A', b'V', b'I', b'2', 0];
    assert!(frame_can_decode(&image_with(&p, &other)));
}

#[test]
fn covers_of_the_usual_size_are_in_range() {
    let img = image::RgbImage::from_fn(1400, 2100, |x, y| image::Rgb([x as u8, y as u8, 90]));
    let img = image::DynamicImage::ImageRgb8(img);
    for quality in [40, 50, 75, 90, 100] {
        let mut out = std::io::Cursor::new(Vec::new());
        let encoder = image::codecs::jpeg::JpegEncoder::new_with_quality(&mut out, quality);
        img.write_with_encoder(encoder).unwrap();
        assert!(frame_can_decode(&out.into_inner()), "{quality}");
    }
}

#[test]
fn what_the_decoder_does_not_read_marks_nothing() {
    let halved = [(1, 2), (1, 1), (1, 1), (1, 2)];
    let p = Plan { marks: [None, Some(0), None], ..plan(true, &halved) };
    let mut mark = vec![];
    adobe(&mut mark, Some(1));
    let mut behind = image(&p);
    behind.extend(&mark);
    assert!(frame_can_decode(&behind));
    assert!(resize_jpeg(&behind).is_ok());
    let mut inside = image(&p);
    inside.truncate(inside.len() - 2);
    inside.extend([0xff, 0xfe, 0, 2 + mark.len() as u8]);
    inside.extend(&mark);
    inside.extend([0xff, 0xd9]);
    assert!(frame_can_decode(&inside));
    assert!(resize_jpeg(&inside).is_ok());
    let mut read = image(&p);
    read.truncate(read.len() - 2);
    read.extend([0xff, 0xd1, 0xff, 0xfe, 0, 3, 0]);
    read.extend(&mark);
    assert!(!frame_can_decode(&read));
}

#[test]
fn the_frame_is_found_behind_other_segments() {
    let p = Plan { marks: [None, Some(2), None], ..plan(true, &[(1, 1)]) };
    let ahead: [&[u8]; 9] = [
        &[0xff, 0xe0, 0, 2],
        &[0xff, 0xe0, 0, 6, 1, 2, 3, 4, 5],
        &[0xff, 0xe1, 0, 4, 0xff, 0xd9],
        &[0xff, 0xfe, 0, 5, 1, 2, 3],
        &[0xff, 0xff, 0xff, 0xfe, 0, 2],
        &[0xff, 0x00, 0x17, 0xff, 0x00, 0xff, 0xff],
        &[0xff, 0xc3, 0, 3, 0],
        &[0xff, 0xd0, 0, 2],
        &[0xff, 0xee, 0, 7, b'A', b'd', b'o', b'b', b'i'],
    ];
    for extra in ahead {
        assert!(!frame_can_decode(&image_with(&p, extra)), "{extra:?}");
    }
}

#[test]
fn headers_that_the_decoder_refuses_are_left_to_it() {
    let p = Plan { marks: [None, Some(2), None], ..plan(true, &[(1, 1)]) };
    let mut second = vec![];
    frame(&mut second, &p);
    let ahead: [&[u8]; 7] = [
        &[0xff, 0xd9, 0, 2],
        &[0xff, 0xdc, 0, 2],
        &[0xff, 0xcc, 0, 2],
        &[0xff, 0xe5, 0, 1],
        &[0xff, 0xda, 0, 8, 1, 1, 0, 0, 0, 0],
        &[0xff, 0xee, 0, 12, b'A', b'd', b'o', b'b', b'e', 0, 100, 0, 0, 0, 0, 2],
        &second,
    ];
    for extra in ahead {
        let data = image_with(&p, extra);
        assert!(frame_can_decode(&data), "{extra:?}");
        assert!(resize_jpeg(&data).unwrap_err().starts_with("decode image: Format error"), "{extra:?}");
    }
    let data = image(&p);
    for cut in 0..data.len().min(180) {
        let r = resize_jpeg(&data[..cut]);
        if frame_can_decode(&data[..cut]) {
            assert!(r.unwrap_err() != "decode image: unsupported frame");
        }
    }
    for bad in [(0, 1), (3, 1), (1, 0), (1, 5)] {
        assert!(frame_can_decode(&image(&Plan { factors: vec![bad], ..plan(true, &[(1, 1)]) })));
    }
}

#[test]
fn frames_that_are_taken_are_decoded_or_refused_by_the_decoder() {
    let mut seed: u64 = 2024;
    let mut thumbnails = 0;
    for _ in 0..15_000 {
        let n = 1 + next(&mut seed) as usize % 4;
        let mut factors = vec![];
        for _ in 0..n {
            let k = next(&mut seed) as usize;
            factors.push(([1, 2, 4, 1, 2][k % 5], [1, 2, 3, 4, 1, 2][k / 8 % 6]));
        }
        let mut scans: Vec<Vec<u8>> = vec![(0..n as u8).collect()];
        match next(&mut seed) % 4 {
            0 => scans = (0..n as u8).map(|c| vec![c]).collect(),
            1 if n > 1 => scans = vec![vec![n as u8 - 1], (0..n as u8 - 1).collect()],
            2 if n > 1 => scans = vec![(0..n as u8 - 1).collect(), vec![n as u8 - 1]],
            _ => {}
        }
        let mut marks = [None; 3];
        for m in marks.iter_mut() {
            let k = next(&mut seed) % 8;
            *m = if k < 3 { Some(k as u8) } else { None };
        }
        let k = next(&mut seed);
        let p = Plan {
            progressive: k % 2 == 0,
            size: (1 + (k / 2 % 70) as u16, 1 + (k / 256 % 50) as u16),
            factors,
            scans,
            marks,
            seed: next(&mut seed) % 2 * next(&mut seed),
            restart: if k / 65536 % 3 == 0 { 1 + (k / 262144 % 4) as u8 } else { 0 },
            quant: quant(1),
            last: 5,
        };
        let data = image(&p);
        let r = resize_jpeg(&data);
        thumbnails += r.is_ok() as u32;
        let unsupported = r == Err("decode image: unsupported frame".to_string());
        assert_eq!(frame_can_decode(&data), !unsupported);
    }
    assert!(thumbnails > 2_000, "{thumbnails}");
}
