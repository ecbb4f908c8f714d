use f2png::bytes::{push_be, read_be};
use f2png::error::Fault;
use f2png::format::{build_header, parse_header, HEADER_FIXED_LEN};
use f2png::number::{divide_rounded, to_double};

#[test]
fn big_endian_numbers_round_trip() {
    let mut buf = vec![9u8];
    push_be(&mut buf, 0x0102, 2);
    push_be(&mut buf, 0xdead_beef, 4);
    push_be(&mut buf, u64::MAX, 8);
    assert_eq!(&buf[..7], &[9, 1, 2, 0xde, 0xad, 0xbe, 0xef]);
    assert_eq!(read_be(&buf, 1, 2), 0x0102);
    assert_eq!(read_be(&buf, 3, 4), 0xdead_beef);
    assert_eq!(read_be(&buf, 7, 8), u64::MAX);
}

#[test]
fn big_endian_numbers_keep_their_low_bytes() {
    let mut buf = Vec::new();
    push_be(&mut buf, 0x1_0203, 2);
    assert_eq!(buf, vec![2, 3]);
}

#[test]
fn header_has_its_layout() {
    let h = build_header(2, true, true, &[1, 2, 3], &[4, 5], 6, 7);
    let mut expected = b"F2L2".to_vec();
    expected.extend_from_slice(&[1, 3, 2, 0, 3, 1, 2, 3]);
    expected.extend_from_slice(&[4, 5, 0, 0, 0, 0, 0, 0, 0, 0, 0, 0]);
    expected.extend_from_slice(&[0, 0, 0, 0, 0, 0, 0, 7]);
    expected.extend_from_slice(&[0, 0, 0, 0, 0, 0, 0, 6]);
    assert_eq!(h, expected);
    assert_eq!(h.len(), HEADER_FIXED_LEN + 3);
}

#[test]
fn header_reads_back_whatever_follows() {
    let mut buf = build_header(4, true, false, &[7; 22], &[8; 12], 1000, 900);
    buf.extend_from_slice(&[0xff; 40]);
    let h = parse_header(&buf).unwrap();
    assert_eq!(h.bpc, 4);
    assert!(h.encrypted);
    assert!(!h.multi);
    assert_eq!(h.salt, vec![7; 22]);
    assert_eq!(h.nonce, vec![8; 12]);
    assert_eq!((h.cipher_len, h.plain_len), (1000, 900));
    assert_eq!(h.header_size, 59);
}

#[test]
fn header_nonce_is_cut_to_twelve_bytes() {
    let h = build_header(1, false, false, &[], &[9; 20], 0, 0);
    assert_eq!(h.len(), HEADER_FIXED_LEN);
    assert_eq!(parse_header(&h).unwrap().nonce, vec![9; 12]);
}

#[test]
fn header_salt_length_is_one_byte() {
    let h = build_header(1, false, false, &[5; 256], &[], 0, 0);
    assert_eq!(h[8], 0);
    assert_eq!(h.len(), HEADER_FIXED_LEN + 256);
}

#[test]
fn header_errors() {
    let good = build_header(2, false, false, &[1, 2], &[], 3, 3);
    assert_eq!(parse_header(&good[..36]).unwrap_err(), Fault::HeaderTooSmall);
    let mut magic = good.clone();
    magic[3] = b'1';
    assert_eq!(parse_header(&magic).unwrap_err(), Fault::BadMagic);
    let mut version = good.clone();
    version[4] = 2;
    let e = parse_header(&version).unwrap_err();
    assert_eq!(e, Fault::UnsupportedVersion { version: 2 });
    assert_eq!(e.message(), "Versão de header não suportada: 2");
    assert_eq!(parse_header(&good[..38]).unwrap_err(), Fault::HeaderTruncated);
    assert!(parse_header(&good).is_ok());
}

#[test]
fn division_rounds_ties_to_even() {
    assert_eq!(divide_rounded(5, 2), 2);
    assert_eq!(divide_rounded(7, 2), 4);
    assert_eq!(divide_rounded(8, 3), 3);
    assert_eq!(divide_rounded(7, 3), 2);
}

#[test]
fn doubles_are_those_of_the_machine() {
    let near = [
        0u64,
        1,
        (1 << 53) - 1,
        1 << 53,
        (1 << 53) + 1,
        (1 << 53) + 3,
        (1 << 54) + 2,
        (1 << 54) + 6,
        (1 << 60) + 127,
        (1 << 60) + 128,
        (1 << 60) + 129,
        (1 << 60) + 384,
        u64::MAX - 1024,
        u64::MAX - 1023,
        u64::MAX,
    ];
    for n in near {
        assert_eq!(to_double(n), n as f64 as u128, "{}", n);
    }
    let mut n: u64 = 12345;
    for _ in 0..2000 {
        n = n.wrapping_mul(6364136223846793005).wrapping_add(1442695040888963407);
        assert_eq!(to_double(n), n as f64 as u128, "{}", n);
    }
}

#[test]
fn messages_tell_numbers() {
    let e: f2png::error::Error =
        Fault::UpscaleTooLarge { width: 40000, height: 30000, pixels: 1_200_000_000 };
    assert_eq!(
        e.message(),
        "Upscale exigiria imagem enorme (40000x30000 = 1200000000 px, ~4.47 GiB RGBA). \
Use uma capa maior, aumente --bpc, ou define F2PNG_MAX_PIXELS para permitir."
    );
    let e: f2png::error::Error =
        Fault::CoverTooSmall { bpc: 2, width: 1 << 20, height: 1 << 20, pixels: 1 << 40 };
    assert_eq!(
        e.message(),
        "Payload demasiado grande para esta capa: com bpc=2 seria necessário upscale \
~1048576x1048576 (1099511627776 px, ~4096.00 GiB RGBA). \
Usa uma capa maior/mais alta resolução, aumenta --bpc, ou (com risco de OOM) define \
F2PNG_MAX_PIXELS para permitir."
    );
    let e: f2png::error::Error = Fault::MissingParts { total: 4, received: 3 };
    assert_eq!(e.message(), "Faltam partes: esperado 4, recebido 3.");
    let e: f2png::error::Error = Fault::InvalidPartName { name: "x".to_string() };
    assert_eq!(e.message(), "Nome de parte inválido no container: x");
}
