use f2png::error::Fault;
use f2png::lsb::{
    capacity_bytes, embed_bits, extract_lsb, extract_lsb_with_progress, BitStreamReader, BlobRef,
};
use f2png::progress::{ProgressPhase, ProgressSink};
use f2png::raster::RgbaImage;

fn flat(w: u32, h: u32, value: u8) -> RgbaImage {
    RgbaImage::from_raw(w, h, vec![value; (w * h * 4) as usize]).unwrap()
}

struct Recorder {
    reports: Vec<(ProgressPhase, u64, u64)>,
}

impl ProgressSink for Recorder {
    fn report(&mut self, phase: ProgressPhase, done: u64, total: u64) {
        self.reports.push((phase, done, total));
    }
}

#[test]
fn image_needs_all_its_bytes() {
    assert!(RgbaImage::from_raw(2, 2, vec![0; 15]).is_none());
    assert!(RgbaImage::from_raw(2, 2, vec![0; 17]).is_none());
    let img = RgbaImage::from_raw(2, 3, vec![1; 24]).unwrap();
    assert_eq!((img.width(), img.height()), (2, 3));
    assert_eq!(img.as_raw(), &[1u8; 24]);
}

#[test]
fn embedding_writes_low_bits_in_order() {
    // 0xb4 is 10110100, lowest bit first: 0 0 1 0 1 1 0 1.
    let out = embed_bits(flat(2, 2, 0xff), BlobRef::new(&[0xb4], &[]), 1);
    assert_eq!(
        out.as_raw(),
        &[
            0xfe, 0xfe, 0xff, 0xff, // 0 0 1
            0xfe, 0xff, 0xff, 0xff, // 0 1 1
            0xfe, 0xff, 0xff, 0xff, // 0 1, nothing left for blue
            0xff, 0xff, 0xff, 0xff
        ]
    );
}

#[test]
fn embedding_clears_the_bits_after_the_data() {
    // Three bits per channel: the third channel gets two bits of data and a zero.
    let out = embed_bits(flat(1, 1, 0xff), BlobRef::new(&[0xff], &[]), 3);
    assert_eq!(out.as_raw(), &[0xff, 0xff, 0xfb, 0xff]);
}

#[test]
fn embedding_keeps_alpha_and_high_bits() {
    let mut raw = Vec::new();
    for i in 0..(16 * 16 * 4) {
        raw.push((i * 7 % 256) as u8);
    }
    let before = raw.clone();
    let data: Vec<u8> = (0..90).map(|i| (i * 37 + 5) as u8).collect();
    let out = embed_bits(
        RgbaImage::from_raw(16, 16, raw).unwrap(),
        BlobRef::new(&data[..10], &data[10..]),
        2,
    );
    for (i, (a, b)) in before.iter().zip(out.as_raw().iter()).enumerate() {
        if i % 4 == 3 || (i / 4) * 6 >= data.len() * 8 {
            assert_eq!(a, b);
        } else {
            assert_eq!(a >> 2, b >> 2);
        }
    }
    assert_eq!(&extract_lsb(&out, 2).unwrap()[..90], &data[..]);
}

#[test]
fn embedded_data_is_extracted_for_every_bpc() {
    for bpc in 1..=4u8 {
        let img = flat(17, 13, 0x80);
        let cap = capacity_bytes(&img, bpc);
        assert_eq!(cap, 17 * 13 * 3 * bpc as usize / 8);
        let data: Vec<u8> = (0..cap).map(|i| (i * 101 + 3) as u8).collect();
        let out = embed_bits(img, BlobRef::new(&[], &data), bpc);
        assert_eq!(extract_lsb(&out, bpc).unwrap(), data);
    }
}

#[test]
fn embedding_too_much_leaves_out_the_rest() {
    let out = embed_bits(flat(2, 2, 0), BlobRef::new(&[0xff; 9], &[]), 1);
    assert_eq!(extract_lsb(&out, 1).unwrap(), vec![0xff]);
}

#[test]
fn bits_per_channel_are_checked() {
    let img = flat(4, 4, 0);
    assert_eq!(extract_lsb(&img, 0).unwrap_err(), Fault::InvalidBpc);
    assert_eq!(extract_lsb(&img, 5).unwrap_err(), Fault::InvalidBpc);
    assert!(BitStreamReader::new(&img, 9).is_err());
    assert_eq!(capacity_bytes(&img, 8), 48);
    assert_eq!(capacity_bytes(&img, 0), 0);
}

#[test]
fn bit_reader_reads_to_the_end() {
    let out = embed_bits(flat(2, 2, 0), BlobRef::new(&[0x5a], &[]), 1);
    let mut reader = BitStreamReader::new(&out, 1).unwrap();
    assert_eq!(reader.capacity_bits(), 12);
    assert_eq!(reader.bits_read(), 0);
    assert_eq!(reader.next_byte(), Some(0x5a));
    assert_eq!(reader.bits_read(), 8);
    assert_eq!(reader.next_byte(), None);
    assert_eq!(reader.bits_read(), 12);
    assert_eq!(reader.next_byte(), None);
}

#[test]
fn extraction_reports_its_progress() {
    let img = flat(64, 64, 0);
    let mut recorder = Recorder { reports: Vec::new() };
    let out = extract_lsb_with_progress(&img, 2, &mut recorder).unwrap();
    assert_eq!(out.len(), 64 * 64 * 6 / 8);
    let total = 64 * 64 * 6;
    assert_eq!(recorder.reports.last(), Some(&(ProgressPhase::Extract, total, total)));
    assert!(recorder.reports.len() <= 101);
    assert!(recorder.reports.windows(2).all(|w| w[0].1 < w[1].1));
}

#[test]
fn blob_is_head_then_tail() {
    let blob = BlobRef::new(&[1, 2], &[3]);
    assert_eq!(blob.len_bytes(), 3);
    assert_eq!((blob.byte_at(0), blob.byte_at(1), blob.byte_at(2)), (1, 2, 3));
}
