use f2png::container::{
    estimate_cipher_len_from_plain, header_len, max_plain_len_for_limit,
    read_footer, read_header,
};
use f2png::error::Fault;
use f2png::parts::{format_part_file_name, format_part_header_name, parse_part_header_name};
use f2png::payload::FileEntry;
use f2png::progress::{done_of_whole, ProgressPhase, ProgressSink, Silent};
use f2png::{
    is_container_png, join_container_png_parts_to_file, split_container_png_to_parts,
    unwrap_container_png_to_dir, wrap_single_file_container_png,
    wrap_single_file_container_png_parts,
};
use std::io::Cursor;

const CHUNK: u64 = 4 * 1024 * 1024;

fn cover(name: &str, format: image::ImageFormat) -> FileEntry {
    let img = image::ImageBuffer::from_pixel(8, 8, image::Rgb([10u8, 20, 30]));
    let mut data = Vec::new();
    image::DynamicImage::ImageRgb8(img).write_to(Cursor::new(&mut data), format).unwrap();
    FileEntry { name: name.to_string(), data }
}

fn png() -> FileEntry {
    cover("cover.png", image::ImageFormat::Png)
}

fn file(name: &str, data: &[u8]) -> FileEntry {
    FileEntry { name: name.to_string(), data: data.to_vec() }
}

fn wrap(name: &str, data: &[u8], password: Option<&str>) -> Vec<u8> {
    wrap_single_file_container_png(Some(&png()), file(name, data), "c.png", password, &mut Silent)
        .unwrap()
}

fn sample(len: usize) -> Vec<u8> {
    (0..len).map(|i| (i * 13 + i / 256) as u8).collect()
}

fn join(parts: &[FileEntry], password: Option<&str>) -> Result<Vec<u8>, f2png::error::Error> {
    join_container_png_parts_to_file(parts, password, &mut Silent)
}

fn split(
    infile: &FileEntry,
    limit: u64,
    password: Option<&str>,
) -> Result<Vec<FileEntry>, f2png::error::Error> {
    wrap_single_file_container_png_parts(Some(&png()), infile, limit, password, &mut Silent)
}

fn cover_len() -> u64 {
    let plain = wrap("x", b"y", None);
    read_footer(&plain).unwrap() as u64
}

#[test]
fn container_has_its_layout() {
    let out = wrap("a.b", b"hello", None);
    let start = read_footer(&out).unwrap();
    let img = image::load_from_memory(&out[..start]).unwrap().to_rgb8();
    assert_eq!(img.dimensions(), (8, 8));
    assert_eq!(img.get_pixel(3, 3).0, [10, 20, 30]);
    assert_eq!(&out[start..start + 4], b"F2C1");
    assert_eq!(&out[start + 4..start + 8], &[1, 0, 0, 3]);
    assert_eq!(&out[start + 8..start + 11], b"a.b");
    assert_eq!(&out[start + 11..start + 19], &[0, 0, 0, 0, 0, 0, 0, 5]);
    assert_eq!(&out[start + 19..start + 32], &[0; 13]);
    let data = start + header_len(3, 0);
    assert_eq!(&out[data - 8..data], &[0, 0, 0, 0, 0, 0, 0, 5]);
    assert_eq!(&out[data..data + 5], b"hello");
    assert_eq!(&out[data + 5..data + 10], b"F2CF\x01");
    assert_eq!(out.len(), data + 5 + 13);
    let (header, from, to) = read_header(&out, start).unwrap();
    assert_eq!(header.name, "a.b");
    assert_eq!((from, to), (data, data + 5));
    assert!(is_container_png(&out));
}

#[test]
fn container_covers_are_recoded() {
    let bmp = cover("cover.bmp", image::ImageFormat::Bmp);
    let out =
        wrap_single_file_container_png(Some(&bmp), file("f", b"x"), "c.png", None, &mut Silent)
            .unwrap();
    assert_eq!(&out[..4], b"\x89PNG");
    let out =
        wrap_single_file_container_png(Some(&png()), file("f", b"x"), "c.bmp", None, &mut Silent)
            .unwrap();
    assert_eq!(&out[..2], b"BM");
    assert_eq!(unwrap_container_png_to_dir(&out, None, &mut Silent).unwrap().data, b"x");
}

#[test]
fn container_without_cover_is_grey() {
    let out =
        wrap_single_file_container_png(None, file("f", b"x"), "c.png", None, &mut Silent).unwrap();
    let start = read_footer(&out).unwrap();
    let img = image::load_from_memory(&out[..start]).unwrap().to_rgba8();
    assert_eq!(img.dimensions(), (512, 512));
    assert!(img.pixels().all(|p| p.0 == [200, 200, 200, 255]));
}

#[test]
fn container_refuses_covers_that_are_no_images() {
    let e = wrap_single_file_container_png(
        Some(&file("cover.png", b"no image")),
        file("f", b"x"),
        "c.png",
        None,
        &mut Silent,
    )
    .unwrap_err();
    assert!(matches!(e, Fault::Image { .. }));
    let e = wrap_single_file_container_png(None, file("f", b"x"), "c.txt", None, &mut Silent)
        .unwrap_err();
    assert!(matches!(&e, Fault::Image { .. }));
    assert!(!e.message().is_empty());
}

#[test]
fn container_restores_the_last_component() {
    let out = wrap("some/dir\\name.txt", b"x", None);
    assert_eq!(unwrap_container_png_to_dir(&out, None, &mut Silent).unwrap().name, "name.txt");
}

#[test]
fn container_errors_of_the_footer() {
    let out = wrap("n", b"data", None);
    assert_eq!(read_footer(&out[..12]).unwrap_err(), Fault::NotContainer);
    assert_eq!(read_footer(&out[..out.len() - 1]).unwrap_err(), Fault::NoFooter);
    let mut version = out.clone();
    let at = out.len() - 9;
    version[at] = 7;
    assert_eq!(read_footer(&version).unwrap_err(), Fault::UnsupportedContainer { version: 7 });
    let mut far = out.clone();
    far[at + 1] = 1;
    assert_eq!(read_footer(&far).unwrap_err(), Fault::InvalidFooter);
    assert!(!is_container_png(&far));
    assert!(!is_container_png(&png().data));
}

#[test]
fn container_errors_of_the_header() {
    let out = wrap("name", b"data", None);
    let start = read_footer(&out).unwrap();
    let err = |edit: &dyn Fn(&mut Vec<u8>)| {
        let mut bytes = out.clone();
        edit(&mut bytes);
        unwrap_container_png_to_dir(&bytes, None, &mut Silent).unwrap_err()
    };
    assert_eq!(err(&|b| b[start] = 0), Fault::BadContainerMagic);
    assert_eq!(err(&|b| b[start + 4] = 2), Fault::UnsupportedContainer { version: 2 });
    assert_eq!(err(&|b| b[start + 7] = 0), Fault::InvalidContainerName);
    assert_eq!(err(&|b| b[start + 6] = 0x11), Fault::InvalidContainerName);
    assert_eq!(err(&|b| b[start + 6] = 0x0f), Fault::UnexpectedEof);
    assert_eq!(err(&|b| b[start + 20] = 0xff), Fault::UnexpectedEof);
    assert_eq!(err(&|b| b[start + 20] = 4), Fault::ContainerWithoutData);
    let cipher_len = start + header_len(4, 0) - 1;
    assert_eq!(err(&|b| b[cipher_len] = 0), Fault::InvalidCipherLen);
    assert_eq!(err(&|b| b[cipher_len] = 5), Fault::InvalidCipherLen);
    assert_eq!(
        err(&|b| b[cipher_len] = 3),
        Fault::ContainerLenMismatch { extracted: 3, stated: 4 }
    );
    assert_eq!(err(&|b| b[cipher_len + 1] ^= 1), Fault::ContainerShaMismatch);
    assert_eq!(
        err(&|b| b[cipher_len] = 3).message(),
        "Tamanho plaintext não coincide: extraído 3 vs esperado 4"
    );
    assert_eq!(err(&|b| b[start + 5] = 1), Fault::PasswordRequired);
}

#[test]
fn container_needs_its_password() {
    let out = wrap("n", b"data", Some("pw"));
    let open = |pw| unwrap_container_png_to_dir(&out, pw, &mut Silent);
    assert_eq!(open(Some("pw")).unwrap().data, b"data");
    assert_eq!(open(None).unwrap_err(), Fault::PasswordRequired);
    let e = open(Some("no")).unwrap_err();
    assert_eq!(e, Fault::NotAuthentic);
    assert_eq!(e.message(), "SHA mismatch: password errada ou dados corrompidos.");
}

#[test]
fn container_of_nothing_is_read_only_when_encrypted() {
    let out = wrap("n", b"", Some("pw"));
    assert_eq!(unwrap_container_png_to_dir(&out, Some("pw"), &mut Silent).unwrap().data, b"");
    let out = wrap("n", b"", None);
    assert!(is_container_png(&out));
    let e = unwrap_container_png_to_dir(&out, None, &mut Silent).unwrap_err();
    assert_eq!(e, Fault::ContainerWithoutData);
}

#[test]
fn container_names_have_limits() {
    let out = wrap(&"x".repeat(4096), b"d", None);
    assert_eq!(unwrap_container_png_to_dir(&out, None, &mut Silent).unwrap().name.len(), 4096);
    let out = wrap(&"x".repeat(4097), b"d", None);
    let e = unwrap_container_png_to_dir(&out, None, &mut Silent).unwrap_err();
    assert_eq!(e, Fault::InvalidContainerName);
    let e = wrap_single_file_container_png(
        None,
        file(&"x".repeat(65536), b"d"),
        "c.png",
        None,
        &mut Silent,
    )
    .unwrap_err();
    assert_eq!(e, Fault::NameTooLong);
}

#[test]
fn cipher_length_counts_tags() {
    assert_eq!(estimate_cipher_len_from_plain(5, false), 5);
    assert_eq!(estimate_cipher_len_from_plain(0, true), 16);
    assert_eq!(estimate_cipher_len_from_plain(1, true), 17);
    assert_eq!(estimate_cipher_len_from_plain(CHUNK - 1, true), CHUNK + 15);
    assert_eq!(estimate_cipher_len_from_plain(CHUNK, true), CHUNK + 32);
    assert_eq!(estimate_cipher_len_from_plain(u64::MAX, true), u64::MAX);
}

#[test]
fn plain_length_fills_the_limit() {
    let overhead = 100 + 69 + 10 + 22 + 13;
    assert_eq!(max_plain_len_for_limit(overhead, 100, 10, true, 22).unwrap_err(), Fault::LimitTooLow);
    for available in [17u64, 18, 1000, CHUNK + 15, CHUNK + 16, CHUNK + 32, 3 * CHUNK] {
        let plain = max_plain_len_for_limit(overhead + available, 100, 10, true, 22).unwrap();
        assert!(estimate_cipher_len_from_plain(plain, true) <= available);
        assert!(estimate_cipher_len_from_plain(plain + 1, true) > available);
    }
    assert_eq!(
        max_plain_len_for_limit(overhead + 16, 100, 10, true, 22).unwrap_err(),
        Fault::LimitTooLowEncrypted
    );
    assert_eq!(max_plain_len_for_limit(overhead - 22 + 5, 100, 10, false, 0).unwrap(), 5);
    assert_eq!(
        max_plain_len_for_limit(u64::MAX, u64::MAX, 10, false, 0).unwrap_err(),
        Fault::LimitTooLow
    );
}

#[test]
fn part_names_round_trip() {
    assert_eq!(format_part_header_name("a.bin", 1, 12), "a.bin.part0001of0012");
    assert_eq!(format_part_header_name("a", 12345, 99999), "a.part12345of99999");
    for base in ["a.bin", "", "x.part0001of0002", "of.part", "é/ü"] {
        for (i, t) in [(1, 1), (9999, 9999), (u32::MAX, 7)] {
            let name = format_part_header_name(base, i, t);
            assert_eq!(parse_part_header_name(&name), Some((base.to_string(), i, t)));
        }
    }
    for name in ["a", "a.part", "a.part1", "a.part1of", "a.partof1", "a.part0of1", "a.part1of0",
        "a.part-1of1", "a.part1of4294967296", "a.part1ofx"]
    {
        assert_eq!(parse_part_header_name(name), None, "{}", name);
    }
    assert_eq!(parse_part_header_name("a.part+1of+02"), Some(("a".to_string(), 1, 2)));
    assert_eq!(parse_part_header_name("a.part1of2of3"), None);
}

#[test]
fn part_files_are_named_after_the_stem() {
    assert_eq!(format_part_file_name("name.bin", 1), "name_part0001.png");
    assert_eq!(format_part_file_name("a.tar.gz", 23), "a.tar_part0023.png");
    assert_eq!(format_part_file_name(".profile", 2), ".profile_part0002.png");
    assert_eq!(format_part_file_name("plain", 9999), "plain_part9999.png");
}

#[test]
fn split_files_join_in_any_order() {
    for password in [None, Some("pw")] {
        let infile = file("big.bin", &sample(2500));
        let salt = if password.is_some() { 22 + 16 } else { 0 };
        let limit = cover_len() + 69 + (7 + 15) + salt + 13 + 1001;
        let mut parts = split(&infile, limit, password).unwrap();
        assert_eq!(parts.len(), 3);
        assert_eq!(parts[0].name, "big_part0001.png");
        assert_eq!(parts[2].name, "big_part0003.png");
        assert!(parts.iter().all(|p| (p.data.len() as u64) < limit));
        assert_eq!(parts[0].data.len() as u64, limit - 1);
        let first = unwrap_container_png_to_dir(&parts[0].data, password, &mut Silent).unwrap();
        assert_eq!(first.name, "big.bin.part0001of0003");
        assert_eq!(first.data, &infile.data[..1000]);
        assert_eq!(join(&parts, password).unwrap(), infile.data);
        parts.reverse();
        assert_eq!(join(&parts, password).unwrap(), infile.data);
        parts.swap(0, 1);
        assert_eq!(join(&parts, password).unwrap(), infile.data);
    }
}

#[test]
fn split_of_an_exact_multiple_has_no_empty_part() {
    let infile = file("b", &sample(2000));
    let limit = cover_len() + 69 + 16 + 13 + 1001;
    let parts = split(&infile, limit, None).unwrap();
    assert_eq!(parts.len(), 2);
    assert_eq!(join(&parts, None).unwrap(), infile.data);
}

#[test]
fn split_of_an_empty_file_is_one_part() {
    let infile = file("b", b"");
    let limit = cover_len() + 1000;
    let parts = split(&infile, limit, Some("pw")).unwrap();
    assert_eq!(parts.len(), 1);
    assert_eq!(join(&parts, Some("pw")).unwrap(), b"");
    let parts = split(&infile, limit, None).unwrap();
    assert_eq!(join(&parts, None).unwrap_err(), Fault::ContainerWithoutData);
}

#[test]
fn split_errors() {
    let infile = file("b", &sample(20_000));
    let overhead = cover_len() + 69 + 16 + 13;
    assert_eq!(split(&infile, 0, None).unwrap_err(), Fault::LimitTooLow);
    assert_eq!(split(&infile, overhead + 1, None).unwrap_err(), Fault::LimitTooLow);
    assert_eq!(split(&infile, overhead + 39, Some("p")).unwrap_err(), Fault::LimitTooLowEncrypted);
    let e = split(&infile, overhead + 3, None).unwrap_err();
    assert_eq!(e, Fault::TooManyParts);
    assert_eq!(e.message(), "Ficheiro demasiado grande para 9999 partes.");
    let long = file(&"x".repeat(65530), b"data");
    assert_eq!(split(&long, 1 << 20, None).unwrap_err(), Fault::NameTooLong);
}

#[test]
fn split_of_a_container() {
    let data = sample(3000);
    let whole = wrap("dir/big.bin", &data, Some("pw"));
    let limit = cover_len() + 69 + 22 + 22 + 13 + 1017;
    let parts =
        split_container_png_to_parts(&whole, Some(&png()), limit, Some("pw"), &mut Silent).unwrap();
    assert_eq!(parts.len(), 3);
    assert_eq!(parts[1].name, "big_part0002.png");
    assert_eq!(join(&parts, Some("pw")).unwrap(), data);
    let e = split_container_png_to_parts(&whole, None, limit, None, &mut Silent).unwrap_err();
    assert_eq!(e, Fault::PasswordRequired);
}

#[test]
fn join_errors() {
    let limit = cover_len() + 69 + 16 + 13 + 1001;
    let a = split(&file("a", &sample(2500)), limit, None).unwrap();
    let b = split(&file("b", &sample(2500)), limit, None).unwrap();
    let short = split(&file("a", &sample(1500)), limit, None).unwrap();
    let pick = |parts: &[&FileEntry]| {
        let list: Vec<FileEntry> = parts.iter().map(|p| file(&p.name, &p.data)).collect();
        join(&list, None).unwrap_err()
    };
    assert_eq!(join(&[], None).unwrap_err(), Fault::NoParts);
    assert_eq!(pick(&[&a[0], &a[1]]), Fault::MissingParts { total: 3, received: 2 });
    assert_eq!(pick(&[&a[0], &a[1], &a[1]]), Fault::RepeatedPart { index: 2 });
    assert_eq!(pick(&[&a[0], &b[1], &a[2]]), Fault::DifferentFiles);
    assert_eq!(pick(&[&a[0], &short[1], &a[2]]), Fault::InconsistentTotals);
    let other = file("c.png", &wrap("whole.bin", b"x", None));
    assert_eq!(pick(&[&a[0], &other]), Fault::InvalidPartName { name: "whole.bin".to_string() });
    assert_eq!(pick(&[&png()]), Fault::NoFooter);
    let secret = split(&file("a", &sample(10)), limit, Some("pw")).unwrap();
    assert_eq!(join(&secret, None).unwrap_err(), Fault::PasswordRequired);
    assert_eq!(join(&secret, Some("no")).unwrap_err(), Fault::NotAuthentic);
}

struct Reports {
    seen: Vec<(ProgressPhase, u64, u64)>,
}

impl ProgressSink for Reports {
    fn report(&mut self, phase: ProgressPhase, done: u64, total: u64) {
        self.seen.push((phase, done, total));
    }
}

#[test]
fn parts_report_progress_of_the_whole() {
    let limit = cover_len() + 69 + 16 + 13 + 1001;
    let mut sink = Reports { seen: Vec::new() };
    let infile = file("a", &sample(2500));
    let parts =
        wrap_single_file_container_png_parts(Some(&png()), &infile, limit, None, &mut sink)
            .unwrap();
    assert_eq!(
        sink.seen,
        vec![
            (ProgressPhase::Prepare, 0, 2500),
            (ProgressPhase::Prepare, 1000, 2500),
            (ProgressPhase::Save, 1000, 2500),
            (ProgressPhase::Prepare, 1000, 2500),
            (ProgressPhase::Prepare, 2000, 2500),
            (ProgressPhase::Save, 2000, 2500),
            (ProgressPhase::Prepare, 2000, 2500),
            (ProgressPhase::Prepare, 2500, 2500),
            (ProgressPhase::Save, 2500, 2500)
        ]
    );
    let mut sink = Reports { seen: Vec::new() };
    join_container_png_parts_to_file(&parts, None, &mut sink).unwrap();
    assert_eq!(
        sink.seen,
        vec![
            (ProgressPhase::Parse, 1000, 2500),
            (ProgressPhase::Parse, 2000, 2500),
            (ProgressPhase::Parse, 2500, 2500)
        ]
    );
}

#[test]
fn progress_of_a_part_is_scaled() {
    assert_eq!(done_of_whole(100, 50, 0, 4), 100);
    assert_eq!(done_of_whole(100, 50, 1, 4), 112);
    assert_eq!(done_of_whole(100, 50, 9, 4), 150);
    assert_eq!(done_of_whole(100, 50, 0, 0), 150);
    assert_eq!(done_of_whole(u64::MAX, 50, 3, 4), u64::MAX);
}

#[test]
fn containers_report_each_piece() {
    let data = sample(CHUNK as usize + 100);
    let total = data.len() as u64;
    for (password, wrapping, reading) in [
        (None, ProgressPhase::Prepare, ProgressPhase::Parse),
        (Some("pw"), ProgressPhase::Encrypt, ProgressPhase::Decrypt),
    ] {
        let mut sink = Reports { seen: Vec::new() };
        let out = wrap_single_file_container_png(
            Some(&png()),
            file("f", &data),
            "c.png",
            password,
            &mut sink,
        )
        .unwrap();
        let mut expected = vec![(ProgressPhase::Prepare, 0, 1), (wrapping, CHUNK, total)];
        // Of what is encrypted, only full segments are reported.
        if password.is_none() {
            expected.push((wrapping, total, total));
        }
        expected.push((ProgressPhase::Save, 1, 1));
        assert_eq!(sink.seen, expected);
        let mut sink = Reports { seen: Vec::new() };
        assert!(unwrap_container_png_to_dir(&out, password, &mut sink).unwrap().data == data);
        assert_eq!(
            sink.seen,
            vec![
                (reading, CHUNK, total),
                (reading, total, total),
                (ProgressPhase::Save, 1, 1)
            ]
        );
    }
}

#[test]
fn splitting_a_container_reports_both_steps() {
    let whole = wrap("a", &sample(1500), None);
    let limit = cover_len() + 69 + 16 + 13 + 1001;
    let mut sink = Reports { seen: Vec::new() };
    split_container_png_to_parts(&whole, Some(&png()), limit, None, &mut sink).unwrap();
    assert_eq!(
        sink.seen[..3],
        [
            (ProgressPhase::Parse, 1500, 1500),
            (ProgressPhase::Save, 1, 1),
            (ProgressPhase::Prepare, 0, 1500)
        ]
    );
    assert_eq!(sink.seen.last(), Some(&(ProgressPhase::Save, 1500, 1500)));
}

#[test]
fn parts_of_any_sizes_join() {
    let parts = [
        file("1.png", &wrap("f.part0001of0003", b"one", None)),
        file("2.png", &wrap("f.part0002of0003", b"and a longer two", Some("pw"))),
        file("3.png", &wrap("f.part0003of0003", b"3", None)),
    ];
    let data = join(&parts, Some("pw")).unwrap();
    assert_eq!(data, b"oneand a longer two3");
}

#[test]
fn headers_past_the_end_are_refused() {
    let out = wrap("n", b"data", None);
    for start in [out.len() - 5, out.len(), out.len() + 1, usize::MAX] {
        assert!(read_header(&out, start).is_err());
    }
}

#[test]
fn plain_containers_have_no_nonce() {
    let out = wrap("n", b"data", None);
    let (header, _, _) = read_header(&out, read_footer(&out).unwrap()).unwrap();
    assert_eq!(header.nonce, vec![0; 12]);
    assert!(header.salt.is_empty());
}

#[test]
fn empty_last_segments_are_reported() {
    for (len, reports) in [(0, vec![0]), (CHUNK, vec![CHUNK, CHUNK]), (5, vec![5])] {
        let out = wrap("f", &sample(len as usize), Some("pw"));
        let mut sink = Reports { seen: Vec::new() };
        unwrap_container_png_to_dir(&out, Some("pw"), &mut sink).unwrap();
        let mut expected: Vec<(ProgressPhase, u64, u64)> =
            reports.into_iter().map(|done| (ProgressPhase::Decrypt, done, len)).collect();
        expected.push((ProgressPhase::Save, 1, 1));
        assert_eq!(sink.seen, expected);
    }
}
