use f2png::lsb::Growth;
use f2png::payload::FileEntry;
use f2png::progress::Silent;
use f2png::stego::hidden_bytes;
use f2png::{
    embed_multi, embed_single_file, info_capacity, reveal_to_dir, unwrap_container_png_to_dir,
    wrap_single_file_container_png, EncryptOptions,
};
use std::io::Cursor;

fn make_cover_size(name: &str, w: u32, h: u32) -> FileEntry {
    let img = image::ImageBuffer::from_pixel(w, h, image::Rgba([200u8, 200, 200, 255]));
    let mut data = Vec::new();
    image::DynamicImage::ImageRgba8(img)
        .write_to(Cursor::new(&mut data), image::ImageFormat::Png)
        .unwrap();
    FileEntry { name: name.to_string(), data }
}

fn make_cover(name: &str) -> FileEntry {
    make_cover_size(name, 256, 256)
}

fn make_file(name: &str, size: usize, byte: u8) -> FileEntry {
    FileEntry { name: name.to_string(), data: vec![byte; size] }
}

fn grow(w: u32, h: u32, bpc: u8, needed: usize) -> Growth {
    let current = (w as f64) * (h as f64) * 3.0 * (bpc as f64);
    let scale = ((needed as f64 * 8.0 / current).sqrt() * 1.01).max(1.0);
    Growth {
        width: (w as f64 * scale).ceil() as u32,
        height: (h as f64 * scale).ceil() as u32,
        max_pixels: 512_000_000,
    }
}

fn single_len(file: &FileEntry) -> usize {
    43 + file.name.len() + file.data.len()
}

#[test]
fn roundtrip_single_plain() {
    let infile = make_file("file.bin", 128 * 1024, 7);
    let opts = EncryptOptions { password: None, bpc: 2, allow_upscale: true };
    let growth = grow(256, 256, 2, hidden_bytes(single_len(&infile), false));
    let out =
        embed_single_file(make_cover("cover.png"), &infile, "stego.png", &opts, growth, &mut Silent)
            .unwrap();
    assert_eq!((out.out_width, out.out_height), (growth.width, growth.height));
    assert_eq!(out.file_count, 1);
    let res = reveal_to_dir(out.stego, 2, None, &mut Silent).unwrap();
    assert_eq!(res.outputs.len(), 1);
    assert_eq!(res.outputs[0].name, "file.bin");
    assert_eq!(res.outputs[0].data, infile.data);
    assert!(!res.encrypted);
    assert!(!res.multi);
}

#[test]
fn roundtrip_single_encrypted() {
    let infile = make_file("file.bin", 64 * 1024, 0xAB);
    let opts = EncryptOptions { password: Some("secret123".into()), bpc: 2, allow_upscale: true };
    let growth = grow(256, 256, 2, hidden_bytes(single_len(&infile), true));
    let out =
        embed_single_file(make_cover("cover.png"), &infile, "stego.png", &opts, growth, &mut Silent)
            .unwrap();
    assert!(out.encrypted);
    let res = reveal_to_dir(out.stego, 2, Some("secret123".into()), &mut Silent).unwrap();
    assert_eq!(res.outputs.len(), 1);
    assert_eq!(res.outputs[0].data, infile.data);
    assert!(res.encrypted);
}

#[test]
fn roundtrip_single_encrypted_large_stream() {
    // The capacity at four bits per channel: 2048 * 2048 * 12 / 8 bytes.
    let cover = make_cover_size("cover.png", 2048, 2048);
    let infile = make_file("file.bin", 5 * 1024 * 1024, 0x3C);
    let opts = EncryptOptions { password: Some("secret123".into()), bpc: 4, allow_upscale: false };
    let growth = Growth { width: 0, height: 0, max_pixels: 0 };
    let out =
        embed_single_file(cover, &infile, "stego.png", &opts, growth, &mut Silent).unwrap();
    assert_eq!((out.out_width, out.out_height), (2048, 2048));
    let res = reveal_to_dir(out.stego, 4, Some("secret123".into()), &mut Silent).unwrap();
    assert_eq!(res.outputs.len(), 1);
    assert_eq!(res.outputs[0].data, infile.data);
}

#[test]
fn roundtrip_multi_plain() {
    let mut inputs = Vec::new();
    for i in 0..3 {
        inputs.push(make_file(&format!("file{i}.bin"), 32 * 1024, i as u8));
    }
    let plain_len: usize = 5 + inputs.iter().map(|f| 42 + f.name.len() + f.data.len()).sum::<usize>();
    let opts = EncryptOptions { password: None, bpc: 2, allow_upscale: true };
    let growth = grow(256, 256, 2, hidden_bytes(plain_len, false));
    let out = embed_multi(make_cover("cover.png"), &inputs, "stego.png", &opts, growth, &mut Silent)
        .unwrap();
    assert_eq!(out.file_count, 3);
    let res = reveal_to_dir(out.stego, 2, None, &mut Silent).unwrap();
    assert_eq!(res.outputs.len(), 3);
    assert!(res.multi);
    for (orig, restored) in inputs.iter().zip(res.outputs.iter()) {
        assert_eq!(orig.name, restored.name);
        assert_eq!(orig.data, restored.data);
    }
}

#[test]
fn info_capacity_matches() {
    let (w, h, cap) = info_capacity(make_cover("cover.png"), 2).unwrap();
    assert_eq!((w, h), (256, 256));
    // cap = w*h*3*BPC/8
    assert_eq!(cap, (w as usize) * (h as usize) * 3 * 2 / 8);
}

#[test]
fn container_wrap_unwrap_plain() {
    let cover = make_cover("cover.png");
    let infile = make_file("file.bin", 256 * 1024, 0x5A);
    let original = infile.data.clone();
    let out =
        wrap_single_file_container_png(Some(&cover), infile, "container.png", None, &mut Silent)
            .unwrap();
    let restored = unwrap_container_png_to_dir(&out, None, &mut Silent).unwrap();
    assert_eq!(restored.name, "file.bin");
    assert_eq!(restored.data, original);
}

#[test]
fn container_wrap_unwrap_encrypted() {
    let cover = make_cover("cover.png");
    let infile = make_file("file.bin", 512 * 1024, 0xC3);
    let original = infile.data.clone();
    let out = wrap_single_file_container_png(
        Some(&cover),
        infile,
        "container.png",
        Some("pw123"),
        &mut Silent,
    )
    .unwrap();
    let restored = unwrap_container_png_to_dir(&out, Some("pw123"), &mut Silent).unwrap();
    assert_eq!(restored.data, original);
}
