use f2png::desk::{capacity_hint, FileLen};
use f2png::error::Fault;
use f2png::lsb::Growth;
use f2png::payload::FileEntry;
use f2png::progress::{ProgressPhase, ProgressSink, Silent};
use f2png::raster::{open_image, save_image};
use f2png::stego::{
    estimate_cipher_len, hidden_bytes, multi_payload_len, preflight_capacity, single_payload_len,
};
use f2png::{
    embed_multi, embed_single_file, info_capacity, reveal_to_dir, swap_cover, EncryptOptions,
};
use std::io::Cursor;

const STILL: Growth = Growth { width: 0, height: 0, max_pixels: 0 };

fn cover(w: u32, h: u32) -> FileEntry {
    let img = image::ImageBuffer::from_fn(w, h, |x, y| {
        image::Rgba([(x * 3) as u8, (y * 5) as u8, (x + y) as u8, 255u8])
    });
    let mut data = Vec::new();
    image::DynamicImage::ImageRgba8(img)
        .write_to(Cursor::new(&mut data), image::ImageFormat::Png)
        .unwrap();
    FileEntry { name: "cover.png".to_string(), data }
}

fn file(name: &str, data: &[u8]) -> FileEntry {
    FileEntry { name: name.to_string(), data: data.to_vec() }
}

fn opts(password: Option<&str>, bpc: u8, allow_upscale: bool) -> EncryptOptions {
    EncryptOptions { password: password.map(|p| p.to_string()), bpc, allow_upscale }
}

fn same(f: &FileEntry) -> FileEntry {
    file(&f.name, &f.data)
}

struct Phases {
    seen: Vec<ProgressPhase>,
}

impl ProgressSink for Phases {
    fn report(&mut self, phase: ProgressPhase, done: u64, total: u64) {
        assert!(done <= total);
        if self.seen.last() != Some(&phase) {
            self.seen.push(phase);
        }
    }
}

#[test]
fn hidden_length_is_known_beforehand() {
    let chunk = 4 * 1024 * 1024;
    assert_eq!(estimate_cipher_len(10, false), 10);
    assert_eq!(estimate_cipher_len(0, true), 16);
    assert_eq!(estimate_cipher_len(chunk, true), chunk + 32);
    assert_eq!(estimate_cipher_len(usize::MAX, true), usize::MAX);
    assert_eq!(hidden_bytes(10, false), 47);
    assert_eq!(hidden_bytes(10, true), 37 + 22 + 26);
    assert_eq!(hidden_bytes(usize::MAX, false), usize::MAX);
}

#[test]
fn a_cover_that_is_just_large_enough_is_used_as_it_is() {
    // 8 * 8 pixels at four bits hold 96 bytes: 37 of header, 43 + 1 of entry, 15 of data.
    let infile = file("f", &[1; 15]);
    let out =
        embed_single_file(cover(8, 8), &infile, "s.png", &opts(None, 4, false), STILL, &mut Silent)
            .unwrap();
    assert_eq!((out.out_width, out.out_height), (8, 8));
    assert_eq!(out.stego.name, "s.png");
    let res = reveal_to_dir(out.stego, 4, None, &mut Silent).unwrap();
    assert_eq!(res.outputs[0].data, vec![1; 15]);
    let infile = file("f", &[1; 16]);
    let e =
        embed_single_file(cover(8, 8), &infile, "s.png", &opts(None, 4, false), STILL, &mut Silent)
            .unwrap_err();
    assert_eq!(e, Fault::DoesNotFit { capacity: 96, needed: 97 });
    assert_eq!(
        e.message(),
        "Payload não cabe na imagem (cap ~96 bytes, necessário ~97 bytes). \
Usa uma capa maior, aumenta --bpc, ou ativa --allow-upscale."
    );
}

#[test]
fn growth_is_limited_in_pixels() {
    let growth = Growth { width: 20, height: 20, max_pixels: 399 };
    let e = embed_single_file(
        cover(8, 8),
        &file("f", &[1; 200]),
        "s.png",
        &opts(None, 4, true),
        growth,
        &mut Silent,
    )
    .unwrap_err();
    assert_eq!(e, Fault::CoverTooSmall { bpc: 4, width: 20, height: 20, pixels: 400 });
    let growth = Growth { width: 20, height: 20, max_pixels: 400 };
    let out = embed_single_file(
        cover(8, 8),
        &file("f", &[1; 200]),
        "s.png",
        &opts(None, 4, true),
        growth,
        &mut Silent,
    )
    .unwrap();
    assert_eq!((out.out_width, out.out_height), (20, 20));
    let res = reveal_to_dir(out.stego, 4, None, &mut Silent).unwrap();
    assert_eq!(res.outputs[0].data, vec![1; 200]);
}

#[test]
fn growth_to_nothing_is_refused() {
    let growth = Growth { width: 0, height: 5, max_pixels: 10 };
    let e = embed_single_file(
        cover(8, 8),
        &file("f", &[1; 200]),
        "s.png",
        &opts(None, 4, true),
        growth,
        &mut Silent,
    )
    .unwrap_err();
    assert_eq!(e, Fault::UpscaleTooSmall { width: 0, height: 5 });
}

#[test]
fn growth_without_room_is_refused() {
    // 244 bytes take 163 pixels at four bits.
    for (side, room) in [(12u32, false), (13, true)] {
        let growth = Growth { width: side, height: side, max_pixels: 1000 };
        let out = embed_single_file(
            cover(8, 8),
            &file("f", &[1; 163]),
            "s.png",
            &opts(None, 4, true),
            growth,
            &mut Silent,
        );
        if room {
            let res = reveal_to_dir(out.unwrap().stego, 4, None, &mut Silent).unwrap();
            assert_eq!(res.outputs[0].data, vec![1; 163]);
        } else {
            let e = out.unwrap_err();
            assert_eq!(e, Fault::UpscaleTooSmall { width: 12, height: 12 });
            assert_eq!(e.message(), "Upscale insuficiente para o payload (12x12).");
        }
    }
}

#[test]
fn names_that_end_in_a_dot_have_no_format() {
    for name in ["cover.png.", "cover", ".png"] {
        let e = info_capacity(file(name, &cover(4, 4).data), 2).unwrap_err();
        assert_eq!(e.message(), "The image format could not be determined");
    }
    let e = info_capacity(file("cover.xyz", &cover(4, 4).data), 2).unwrap_err();
    assert_ne!(e.message(), "The image format could not be determined");
}

#[test]
fn preflight_tells_before_anything_is_done() {
    let img = open_image(cover(8, 8)).unwrap();
    let growth = Growth { width: 9, height: 9, max_pixels: 80 };
    assert!(preflight_capacity(img.image(), 4, false, false, 59, growth).is_ok());
    assert!(preflight_capacity(img.image(), 4, false, false, 60, growth).is_err());
    assert!(preflight_capacity(img.image(), 4, false, true, 21, growth).is_ok());
    assert!(preflight_capacity(img.image(), 4, false, true, 22, growth).is_err());
    assert_eq!(
        preflight_capacity(img.image(), 4, true, false, 60, growth).unwrap_err(),
        Fault::CoverTooSmall { bpc: 4, width: 9, height: 9, pixels: 81 }
    );
}

#[test]
fn bits_per_channel_are_refused_when_hiding() {
    for bpc in [5u8, 8] {
        let e = embed_single_file(
            cover(32, 32),
            &file("f", b"x"),
            "s.png",
            &opts(None, bpc, false),
            STILL,
            &mut Silent,
        )
        .unwrap_err();
        assert_eq!(e, Fault::InvalidBpc);
    }
    let e = embed_single_file(
        cover(32, 32),
        &file("f", b"x"),
        "s.png",
        &opts(None, 0, false),
        STILL,
        &mut Silent,
    )
    .unwrap_err();
    assert_eq!(e, Fault::DoesNotFit { capacity: 0, needed: 82 });
}

#[test]
fn revealing_needs_the_right_bits_and_password() {
    let hidden = embed_single_file(
        cover(32, 32),
        &file("f", b"secret"),
        "s.png",
        &opts(Some("pw"), 2, false),
        STILL,
        &mut Silent,
    )
    .unwrap()
    .stego;
    let reveal = |bpc, pw: Option<&str>| {
        reveal_to_dir(same(&hidden), bpc, pw.map(|p| p.to_string()), &mut Silent)
    };
    assert_eq!(reveal(2, Some("pw")).unwrap().outputs[0].data, b"secret");
    assert_eq!(reveal(2, None).unwrap_err().error, Fault::PasswordRequired);
    let fault = reveal(2, Some("no")).unwrap_err();
    assert_eq!(fault.error, Fault::NotAuthentic);
    assert_eq!(fault.error.message(), "SHA mismatch: password errada ou dados corrompidos.");
    assert!(fault.files.is_empty());
    assert!(matches!(
        reveal(1, Some("pw")).unwrap_err().error,
        Fault::BadMagic | Fault::ExtractTruncated
    ));
    assert_eq!(reveal(7, Some("pw")).unwrap_err().error, Fault::InvalidBpc);
}

#[test]
fn revealing_tells_when_the_bits_differ() {
    // A header that claims three bits per channel, written with one.
    let header = f2png::format::build_header(3, false, false, &[], &[], 0, 0);
    let img = open_image(cover(16, 16)).unwrap().into_image();
    let img = f2png::lsb::embed_bits(img, f2png::lsb::BlobRef::new(&header, &[]), 1);
    let stego = FileEntry { name: "s.png".to_string(), data: save_image(img, "s.png").unwrap() };
    let e = reveal_to_dir(stego, 1, None, &mut Silent).unwrap_err().error;
    assert_eq!(e, Fault::BpcMismatch { given: 1, found: 3 });
    assert_eq!(e.message(), "BPC fornecido (1) não coincide com o embutido (3)");
}

#[test]
fn revealing_tells_when_the_image_ends() {
    let tiny = open_image(cover(4, 4)).unwrap().into_image();
    let stego = FileEntry { name: "s.png".to_string(), data: save_image(tiny, "s.png").unwrap() };
    let e = reveal_to_dir(stego, 1, None, &mut Silent).unwrap_err().error;
    assert_eq!(e, Fault::ExtractTruncated);
    let header = f2png::format::build_header(1, false, false, &[], &[], usize::MAX, 0);
    let img = open_image(cover(16, 16)).unwrap().into_image();
    let img = f2png::lsb::embed_bits(img, f2png::lsb::BlobRef::new(&header, &[]), 1);
    let stego = FileEntry { name: "s.png".to_string(), data: save_image(img, "s.png").unwrap() };
    let e = reveal_to_dir(stego, 1, None, &mut Silent).unwrap_err().error;
    assert_eq!(e, Fault::ExtractTruncated);
}

#[test]
fn files_that_are_no_images_are_refused() {
    let e = info_capacity(file("x.png", b"nothing"), 2).unwrap_err();
    assert!(matches!(e, Fault::Image { .. }));
    let e = info_capacity(file("x", &cover(4, 4).data), 2).unwrap_err();
    assert!(matches!(e, Fault::Image { .. }));
    let e = embed_single_file(
        cover(32, 32),
        &file("f", b"x"),
        "s.unknown",
        &opts(None, 2, false),
        STILL,
        &mut Silent,
    )
    .unwrap_err();
    assert!(matches!(e, Fault::Image { .. }));
}

#[test]
fn images_survive_saving() {
    let img = open_image(cover(9, 7)).unwrap().into_image();
    let raw = img.as_raw().to_vec();
    let png = save_image(img, "a.png").unwrap();
    let again = open_image(FileEntry { name: "b.PNG".to_string(), data: png }).unwrap();
    assert_eq!(again.image().as_raw(), &raw[..]);
    assert_eq!((again.image().width(), again.image().height()), (9, 7));
}

#[test]
fn scaling_gives_the_size_asked_for() {
    let img = open_image(cover(9, 7)).unwrap();
    let big = img.resize(30, 20).unwrap();
    assert_eq!((big.width(), big.height()), (30, 20));
    let expected = image::load_from_memory(&cover(9, 7).data)
        .unwrap()
        .resize_exact(30, 20, image::imageops::FilterType::Triangle)
        .to_rgba8();
    assert_eq!(big.as_raw(), &expected.into_raw()[..]);
    let wide = img.resize(5_000_000, 1).unwrap();
    assert_eq!((wide.width(), wide.height()), (5_000_000, 1));
    assert_eq!(img.resize(u32::MAX, u32::MAX).unwrap_err(), Fault::OutputOverflow);
    assert_eq!(img.resize(0, 5).unwrap_err(), Fault::OutputOverflow);
}

#[test]
fn capacity_is_told() {
    let (w, h, cap) = info_capacity(cover(10, 11), 3).unwrap();
    assert_eq!((w, h, cap), (10, 11, 10 * 11 * 9 / 8));
    assert_eq!(info_capacity(cover(10, 11), 255).unwrap().2, 10 * 11 * 3 * 255 / 8);
}

#[test]
fn several_files_come_back_in_order() {
    let inputs = [file("a", b"first"), file("b/a", b"second"), file("c", b"")];
    let out = embed_multi(
        cover(64, 64),
        &inputs,
        "s.png",
        &opts(Some("pw"), 3, false),
        STILL,
        &mut Silent,
    )
    .unwrap();
    assert_eq!(out.file_count, 3);
    let res = reveal_to_dir(out.stego, 3, Some("pw".to_string()), &mut Silent).unwrap();
    assert!(res.multi && res.encrypted);
    let names: Vec<&str> = res.outputs.iter().map(|f| f.name.as_str()).collect();
    assert_eq!(names, vec!["a", "a", "c"]);
    assert_eq!(res.outputs[1].data, b"second");
    let long = [file(&"x".repeat(65536), b"")];
    let big = opts(None, 4, false);
    let e = embed_multi(cover(256, 256), &long, "s.png", &big, STILL, &mut Silent).unwrap_err();
    assert_eq!(e, Fault::NameTooLong);
    let e = embed_single_file(cover(256, 256), &long[0], "s.png", &big, STILL, &mut Silent)
        .unwrap_err();
    assert_eq!(e, Fault::NameTooLong);
}

#[test]
fn swapping_the_cover_keeps_the_files() {
    let inputs = [file("a", b"first"), file("b", b"second")];
    let old = embed_multi(cover(64, 64), &inputs, "s.png", &opts(Some("old"), 2, false), STILL,
        &mut Silent)
    .unwrap()
    .stego;
    let new = swap_cover(
        same(&old),
        cover(80, 50),
        "new.png",
        Some("old".to_string()),
        &opts(Some("new"), 2, false),
        STILL,
    )
    .unwrap();
    assert_eq!((new.out_width, new.out_height, new.file_count), (80, 50, 0));
    let res = reveal_to_dir(same(&new.stego), 2, Some("new".to_string()), &mut Silent).unwrap();
    assert!(res.multi);
    assert_eq!(res.outputs[1].data, b"second");
    let plain = swap_cover(
        new.stego,
        cover(70, 70),
        "plain.png",
        Some("new".to_string()),
        &opts(None, 2, false),
        STILL,
    )
    .unwrap();
    assert!(!plain.encrypted);
    let res = reveal_to_dir(plain.stego, 2, None, &mut Silent).unwrap();
    assert_eq!(res.outputs[0].data, b"first");
    let e = swap_cover(same(&old), cover(70, 70), "x.png", None, &opts(None, 2, false), STILL)
        .unwrap_err();
    assert_eq!(e, Fault::PasswordRequired);
    let e = swap_cover(
        same(&old),
        cover(70, 70),
        "x.png",
        Some("no".to_string()),
        &opts(None, 2, false),
        STILL,
    )
    .unwrap_err();
    assert_eq!(e, Fault::NotAuthentic);
    let e = swap_cover(
        old,
        cover(4, 4),
        "x.png",
        Some("old".to_string()),
        &opts(None, 2, false),
        STILL,
    )
    .unwrap_err();
    assert_eq!(e, Fault::UpscaleDisabled);
}

#[test]
fn swapping_checks_the_plain_length() {
    let header = f2png::format::build_header(1, false, false, &[], &[], 2, 3);
    let img = open_image(cover(16, 16)).unwrap().into_image();
    let img = f2png::lsb::embed_bits(img, f2png::lsb::BlobRef::new(&header, &[7, 7]), 1);
    let stego = FileEntry { name: "s.png".to_string(), data: save_image(img, "s.png").unwrap() };
    let e = swap_cover(stego, cover(32, 32), "x.png", None, &opts(None, 1, false), STILL)
        .unwrap_err();
    assert_eq!(e, Fault::PlainLenMismatch { got: 2, expected: 3 });
}

#[test]
fn growth_beyond_the_limit_is_refused_when_swapping() {
    let old =
        embed_single_file(cover(32, 32), &file("f", b"x"), "s.png", &opts(None, 2, false), STILL,
            &mut Silent)
        .unwrap()
        .stego;
    let growth = Growth { width: 100, height: 100, max_pixels: 9_999 };
    let e = swap_cover(old, cover(2, 2), "x.png", None, &opts(None, 2, true), growth).unwrap_err();
    assert_eq!(e, Fault::UpscaleTooLarge { width: 100, height: 100, pixels: 10_000 });
}

#[test]
fn phases_come_in_order() {
    let mut phases = Phases { seen: Vec::new() };
    let out = embed_single_file(
        cover(32, 32),
        &file("f", b"x"),
        "s.png",
        &opts(Some("pw"), 2, false),
        STILL,
        &mut phases,
    )
    .unwrap();
    assert_eq!(
        phases.seen,
        vec![
            ProgressPhase::Prepare,
            ProgressPhase::Encrypt,
            ProgressPhase::Embed,
            ProgressPhase::Save
        ]
    );
    let mut phases = Phases { seen: Vec::new() };
    reveal_to_dir(out.stego, 2, Some("pw".to_string()), &mut phases).unwrap();
    assert_eq!(phases.seen, vec![ProgressPhase::Extract]);
}

struct Reports {
    seen: Vec<(ProgressPhase, u64, u64)>,
}

impl ProgressSink for Reports {
    fn report(&mut self, phase: ProgressPhase, done: u64, total: u64) {
        self.seen.push((phase, done, total));
    }
}

#[test]
fn hiding_reports_all_its_steps() {
    let mut sink = Reports { seen: Vec::new() };
    let out = embed_single_file(
        cover(32, 32),
        &file("f", b"secret"),
        "s.png",
        &opts(None, 2, false),
        STILL,
        &mut sink,
    )
    .unwrap();
    // 37 of header, 44 of entry, 6 of data.
    assert_eq!(
        sink.seen,
        vec![
            (ProgressPhase::Prepare, 6, 6),
            (ProgressPhase::Embed, 0, 87),
            (ProgressPhase::Embed, 87, 87),
            (ProgressPhase::Save, 0, 1),
            (ProgressPhase::Save, 1, 1)
        ]
    );
    let mut sink = Reports { seen: Vec::new() };
    reveal_to_dir(out.stego, 2, None, &mut sink).unwrap();
    assert_eq!(sink.seen.first(), Some(&(ProgressPhase::Extract, 37, 87)));
    assert_eq!(sink.seen.last(), Some(&(ProgressPhase::Extract, 87, 87)));
    assert_eq!(sink.seen.len(), 51);
    assert!(sink.seen.windows(2).all(|w| w[0].1 + 1 == w[1].1));
    let mut sink = Reports { seen: Vec::new() };
    let list = [file("a", b"12"), file("b", b""), file("c", b"345")];
    embed_multi(cover(40, 40), &list, "s.png", &opts(Some("pw"), 4, false), STILL, &mut sink)
        .unwrap();
    assert_eq!(sink.seen[..2], [(ProgressPhase::Prepare, 2, 5), (ProgressPhase::Prepare, 5, 5)]);
    assert_eq!(sink.seen[2..4], [(ProgressPhase::Encrypt, 139, 139); 2]);
    assert_eq!(sink.seen[4].0, ProgressPhase::Embed);
    assert_eq!(sink.seen.last(), Some(&(ProgressPhase::Save, 1, 1)));
}

#[test]
fn revealing_keeps_the_files_before_a_fault() {
    let mut plain = f2png::payload::build_payload_multi(&[file("a", b"good"), file("b", b"bad")]);
    *plain.last_mut().unwrap() ^= 1;
    let header =
        f2png::format::build_header(4, false, true, &[], &[], plain.len(), plain.len());
    let img = open_image(cover(16, 16)).unwrap().into_image();
    let img = f2png::lsb::embed_bits(img, f2png::lsb::BlobRef::new(&header, &plain), 4);
    let stego = FileEntry { name: "s.png".to_string(), data: save_image(img, "s.png").unwrap() };
    let fault = reveal_to_dir(stego, 4, None, &mut Silent).unwrap_err();
    assert_eq!(fault.error, Fault::MultiShaMismatch);
    assert_eq!(fault.files.len(), 1);
    assert_eq!((fault.files[0].name.as_str(), fault.files[0].data.as_slice()), ("a", &b"good"[..]));
}

#[test]
fn hints_are_exact() {
    let files = [file("name.bin", &[1; 1000]), file("é", &[2; 50])];
    let lens = [FileLen { name: 8, data: 1000 }, FileLen { name: 2, data: 50 }];
    assert_eq!(single_payload_len(&files[0]), 1051);
    assert_eq!(multi_payload_len(&files), 5 + 42 + 8 + 1000 + 42 + 2 + 50);
    for encrypted in [false, true] {
        let one = capacity_hint(64, 64, 2, &lens[..1], encrypted);
        assert_eq!(one.total as usize, hidden_bytes(single_payload_len(&files[0]), encrypted));
        let both = capacity_hint(64, 64, 2, &lens, encrypted);
        assert_eq!(both.total as usize, hidden_bytes(multi_payload_len(&files), encrypted));
    }
}

#[test]
fn more_bits_hold_more() {
    let sizes: Vec<usize> = (1..=4).map(|bpc| info_capacity(cover(10, 10), bpc).unwrap().2).collect();
    assert_eq!(sizes, vec![37, 75, 112, 150]);
}

#[test]
fn options_can_be_copied() {
    let a = opts(Some("pw"), 3, true);
    let b = a.clone();
    assert_eq!((b.password, b.bpc, b.allow_upscale), (Some("pw".to_string()), 3, true));
}

#[test]
fn names_are_preserved() {
    let grey = image::ImageBuffer::from_pixel(64, 64, image::Rgba([200u8, 200, 200, 255]));
    let mut data = Vec::new();
    image::DynamicImage::ImageRgba8(grey)
        .write_to(Cursor::new(&mut data), image::ImageFormat::Png)
        .unwrap();
    let names = [".env", "trailing. ", " leading", "...", "a.b.c", "Makefile"];
    for name in names {
        let grey = FileEntry { name: "cover.png".to_string(), data: data.clone() };
        let infile = file(name, b"K=1");
        let out =
            embed_single_file(grey, &infile, "s.png", &opts(None, 2, true), STILL, &mut Silent)
                .unwrap();
        let res = reveal_to_dir(out.stego, 2, None, &mut Silent).unwrap();
        assert_eq!(res.outputs.len(), 1);
        assert_eq!(res.outputs[0].name, name);
        assert_eq!(res.outputs[0].data, b"K=1");
    }
    let list: Vec<FileEntry> = names.iter().map(|n| file(n, n.as_bytes())).collect();
    let out = embed_multi(cover(64, 64), &list, "s.png", &opts(Some("pw"), 2, false), STILL,
        &mut Silent)
    .unwrap();
    let res = reveal_to_dir(out.stego, 2, Some("pw".to_string()), &mut Silent).unwrap();
    let back: Vec<&str> = res.outputs.iter().map(|f| f.name.as_str()).collect();
    assert_eq!(back, names);
}
