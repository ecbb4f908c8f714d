use f2png::error::Fault;
use f2png::payload::{
    build_payload_multi, build_payload_multi_streaming, build_payload_single,
    build_payload_single_streaming, file_to_entry, parse_payload, parse_payload_streaming,
    sanitize_filename, FileEntry, PayloadFault, MAX_NAME_LEN,
};
use f2png::progress::{ProgressPhase, ProgressSink, Silent};
use f2png::source::SliceSource;

fn file(name: &str, data: &[u8]) -> FileEntry {
    FileEntry { name: name.to_string(), data: data.to_vec() }
}

fn streamed(data: &[u8]) -> Result<Vec<FileEntry>, PayloadFault> {
    parse_payload_streaming(&mut SliceSource::new(data))
}

// The SHA-256 of `abc`.
const ABC: [u8; 32] = [
    0xba, 0x78, 0x16, 0xbf, 0x8f, 0x01, 0xcf, 0xea, 0x41, 0x41, 0x40, 0xde, 0x5d, 0xae, 0x22, 0x23,
    0xb0, 0x03, 0x61, 0xa3, 0x96, 0x17, 0x7a, 0x9c, 0xb4, 0x10, 0xff, 0x61, 0xf2, 0x00, 0x15, 0xad,
];

#[test]
fn single_payload_has_its_layout() {
    let buf = build_payload_single(&file("a.b", b"abc"));
    let mut expected = vec![b'S', 0, 3, b'a', b'.', b'b', 0, 0, 0, 0, 0, 0, 0, 3];
    expected.extend_from_slice(&ABC);
    expected.extend_from_slice(b"abc");
    assert_eq!(buf, expected);
    let streaming = build_payload_single_streaming(&file("a.b", b"abc"), &mut Silent).unwrap();
    assert_eq!(streaming.data, expected);
    assert_eq!(streaming.len, expected.len());
}

#[test]
fn multi_payload_has_its_layout() {
    let files = [file("x", b"abc"), file("y", b"")];
    let buf = build_payload_multi(&files);
    assert_eq!(&buf[..5], &[b'M', 0, 0, 0, 2]);
    assert_eq!(&buf[5..8], &[0, 1, b'x']);
    assert_eq!(&buf[16..48], &ABC);
    assert_eq!(buf.len(), 5 + 42 + 1 + 3 + 42 + 1);
    let streaming = build_payload_multi_streaming(&files, &mut Silent).unwrap();
    assert_eq!(streaming.data, buf);
}

#[test]
fn payloads_read_back() {
    let mut buf = build_payload_single(&file("dir/../naïve .txt. ", b"abc"));
    buf.extend_from_slice(b"more");
    for files in [parse_payload(&buf).unwrap(), streamed(&buf).unwrap()] {
        assert_eq!(files.len(), 1);
        assert_eq!(files[0].name, "naïve .txt. ");
        assert_eq!(files[0].data, b"abc");
    }
    let many: Vec<FileEntry> =
        (0..5).map(|i| file(&format!("f{}", i), &vec![i as u8; i * 100])).collect();
    let buf = build_payload_multi(&many);
    for files in [parse_payload(&buf).unwrap(), streamed(&buf).unwrap()] {
        assert_eq!(files.len(), 5);
        for (a, b) in many.iter().zip(files.iter()) {
            assert_eq!((&a.name, &a.data), (&b.name, &b.data));
        }
    }
    let buf = build_payload_multi(&[]);
    assert!(parse_payload(&buf).unwrap().is_empty());
    assert!(streamed(&buf).unwrap().is_empty());
}

#[test]
fn names_that_are_not_text_are_replaced() {
    let mut buf = build_payload_single(&file("ab", b"abc"));
    buf[3] = 0xff;
    assert_eq!(parse_payload(&buf).unwrap()[0].name, "\u{fffd}b");
    assert_eq!(streamed(&buf).unwrap()[0].name, "\u{fffd}b");
}

#[test]
fn names_are_sanitized() {
    for (name, clean) in [
        ("file.bin", "file.bin"),
        ("/etc/passwd", "passwd"),
        ("a\\b\\c.txt", "c.txt"),
        ("../..", "restored.bin"),
        ("..", "restored.bin"),
        (".", "restored.bin"),
        ("", "restored.bin"),
        ("dir/", "restored.bin"),
        ("dir/.", "restored.bin"),
        (".hidden", ".hidden"),
        ("...", "..."),
        (" . ", " . "),
        ("x\0y", "x_y"),
        ("\0", "_"),
        (" a. b .", " a. b ."),
        ("dir\\.env", ".env"),
        ("çã/é.png", "é.png"),
    ] {
        assert_eq!(sanitize_filename(name), clean, "{:?}", name);
        assert_eq!(sanitize_filename(clean), clean);
    }
    let long = "é".repeat(5000);
    assert_eq!(sanitize_filename(&long).chars().count(), MAX_NAME_LEN);
    let cut = format!("{}.{}", "a".repeat(4095), "b");
    let once = sanitize_filename(&cut);
    assert_eq!(once.len(), 4096);
    assert_eq!(sanitize_filename(&once), once);
}

#[test]
fn payload_errors_in_memory() {
    let single = build_payload_single(&file("name", b"abc"));
    let err = |data: &[u8]| parse_payload(data).unwrap_err().error;
    assert_eq!(err(&[]), Fault::EmptyPayload);
    assert_eq!(err(b"X"), Fault::UnknownPayload);
    assert_eq!(err(&single[..42]), Fault::SingleTruncated);
    assert_eq!(err(&single[..46]), Fault::SingleTruncatedName);
    assert_eq!(err(&single[..single.len() - 1]), Fault::SingleTruncatedData);
    let mut damaged = single.clone();
    *damaged.last_mut().unwrap() ^= 1;
    assert_eq!(err(&damaged), Fault::SingleShaMismatch);
    assert_eq!(err(&damaged).message(), "SHA mismatch no payload single.");
    let mut huge = single.clone();
    for b in &mut huge[7..15] {
        *b = 0xff;
    }
    assert_eq!(err(&huge), Fault::SingleTruncatedData);

    let multi = build_payload_multi(&[file("n", b"abc"), file("m", b"d")]);
    assert_eq!(err(&multi[..4]), Fault::MultiTruncated);
    assert_eq!(err(&[b'M', 0, 1, 0x86, 0xa1]), Fault::TooManyFiles { count: 100_001 });
    assert_eq!(
        err(&[b'M', 0, 1, 0x86, 0xa1]).message(),
        "Payload multi com demasiados ficheiros (100001)."
    );
    assert_eq!(err(&multi[..6]), Fault::MultiTruncatedName);
    assert_eq!(err(&multi[..20]), Fault::MultiTruncatedMeta);
    assert_eq!(err(&multi[..multi.len() - 1]), Fault::MultiTruncatedData);
    let mut damaged = multi.clone();
    *damaged.last_mut().unwrap() ^= 1;
    assert_eq!(err(&damaged), Fault::MultiShaMismatch);
}

#[test]
fn payload_errors_from_a_source() {
    let single = build_payload_single(&file("name", b"abc"));
    let err = |data: &[u8]| streamed(data).unwrap_err().error;
    for len in [0, 1, 2, 5, 10, 20, 47, single.len() - 1] {
        assert_eq!(err(&single[..len]), Fault::UnexpectedEof);
    }
    assert_eq!(err(b"X"), Fault::UnknownPayload);
    assert_eq!(err(&[b'S', 0, 0]), Fault::InvalidName { len: 0 });
    assert_eq!(err(&[b'S', 0x10, 1]), Fault::InvalidName { len: 4097 });
    assert_eq!(err(&[b'S', 0x10, 1]).message(), "Nome inválido no payload (len=4097).");
    let mut damaged = single.clone();
    *damaged.last_mut().unwrap() ^= 1;
    assert_eq!(err(&damaged), Fault::SingleShaMismatch);
    let multi = build_payload_multi(&[file("n", b"abc")]);
    assert_eq!(err(&multi[..4]), Fault::UnexpectedEof);
    assert_eq!(err(&[b'M', 0, 1, 0x86, 0xa1]), Fault::TooManyFiles { count: 100_001 });
    let mut damaged = multi.clone();
    *damaged.last_mut().unwrap() ^= 1;
    assert_eq!(err(&damaged), Fault::MultiShaMismatch);
}

#[test]
fn empty_names_differ_between_readers() {
    let buf = build_payload_single(&file("", b"abc"));
    assert_eq!(parse_payload(&buf).unwrap()[0].name, "restored.bin");
    assert_eq!(streamed(&buf).unwrap_err().error, Fault::InvalidName { len: 0 });
}

#[test]
fn long_names_do_not_fit() {
    let long = file(&"x".repeat(65536), b"abc");
    let e = build_payload_single_streaming(&long, &mut Silent).unwrap_err();
    assert_eq!(e, Fault::NameTooLong);
    assert!(build_payload_multi_streaming(&[file("a", b""), long], &mut Silent).is_err());
    let fits = file(&"x".repeat(65535), b"abc");
    assert!(build_payload_single_streaming(&fits, &mut Silent).is_ok());
    // Without the check the length of the name wraps around.
    let wrapped = build_payload_single(&file(&"x".repeat(65536), b"abc"));
    assert_eq!(&wrapped[1..3], &[0, 0]);
}

#[test]
fn files_without_a_name_get_one() {
    assert_eq!(file_to_entry(None, vec![1]).name, "restored.bin");
    assert_eq!(file_to_entry(Some("a".to_string()), vec![1]).name, "a");
}

#[test]
fn files_before_a_fault_are_kept() {
    let list = [file("a", b"first"), file("d/b", b"second"), file("c", b"third")];
    let mut damaged = build_payload_multi(&list);
    *damaged.last_mut().unwrap() ^= 1;
    for fault in [parse_payload(&damaged).unwrap_err(), streamed(&damaged).unwrap_err()] {
        assert_eq!(fault.error, Fault::MultiShaMismatch);
        assert_eq!(fault.files.len(), 2);
        assert_eq!(fault.files[1].name, "b");
        assert_eq!(fault.files[1].data, b"second");
    }
    let cut = &damaged[..damaged.len() - 5];
    assert_eq!(parse_payload(cut).unwrap_err().error, Fault::MultiTruncatedData);
    assert_eq!(parse_payload(cut).unwrap_err().files.len(), 2);
    assert_eq!(streamed(cut).unwrap_err().error, Fault::UnexpectedEof);
    assert_eq!(streamed(cut).unwrap_err().files.len(), 2);
    // A source refuses an empty name and keeps what came before it.
    let unnamed = build_payload_multi(&[file("a", b"first"), file("", b"second")]);
    assert_eq!(streamed(&unnamed).unwrap_err().error, Fault::InvalidName { len: 0 });
    assert_eq!(streamed(&unnamed).unwrap_err().files[0].data, b"first");
    assert!(streamed(&[b'M', 0, 1, 0x86, 0xa1]).unwrap_err().files.is_empty());
}

#[test]
fn sources_and_memory_agree_on_short_names() {
    for name in ["x".repeat(4096), "\u{e9}".repeat(2048), "a".to_string()] {
        let buf = build_payload_single(&file(&name, b"abc"));
        assert_eq!(parse_payload(&buf).unwrap()[0].name, streamed(&buf).unwrap()[0].name);
    }
    let buf = build_payload_single(&file(&"x".repeat(4097), b"abc"));
    assert_eq!(parse_payload(&buf).unwrap()[0].name.len(), 4096);
    assert_eq!(streamed(&buf).unwrap_err().error, Fault::InvalidName { len: 4097 });
}

#[test]
fn whole_names_stay() {
    let name = "x".repeat(4096);
    assert_eq!(sanitize_filename(&name), name);
    let cut = format!("{}.", name);
    assert_eq!(sanitize_filename(&cut), name);
}

struct Copies {
    seen: Vec<(u64, u64)>,
}

impl ProgressSink for Copies {
    fn report(&mut self, phase: ProgressPhase, done: u64, total: u64) {
        assert_eq!(phase, ProgressPhase::Prepare);
        self.seen.push((done, total));
    }
}

#[test]
fn copies_are_reported_piece_by_piece() {
    let mib = 1024 * 1024;
    let mut sink = Copies { seen: Vec::new() };
    build_payload_single_streaming(&file("f", &vec![7; 2 * mib + 5]), &mut sink).unwrap();
    let total = 2 * mib as u64 + 5;
    assert_eq!(sink.seen, vec![(mib as u64, total), (2 * mib as u64, total), (total, total)]);
    let mut sink = Copies { seen: Vec::new() };
    build_payload_single_streaming(&file("f", b""), &mut sink).unwrap();
    assert!(sink.seen.is_empty());
    let mut sink = Copies { seen: Vec::new() };
    let list = [file("a", b"12345"), file("b", b""), file("c", b"678")];
    build_payload_multi_streaming(&list, &mut sink).unwrap();
    assert_eq!(sink.seen, vec![(5, 8), (8, 8)]);
}
