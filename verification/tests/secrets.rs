use argon2::Argon2;
use chacha20poly1305::aead::stream::EncryptorBE32;
use chacha20poly1305::aead::{Aead, KeyInit};
use chacha20poly1305::{ChaCha20Poly1305, Key, Nonce};
use f2png::crypto::{
    decrypt_payload, encrypt_payload, encrypt_payload_stream, encrypt_payload_stream_with,
    encrypt_payload_with, StreamDecryptReader, STREAM_CHUNK,
};
use f2png::error::Fault;
use f2png::progress::{ProgressPhase, ProgressSink, Silent};
use f2png::source::{ByteSource, SliceSource};

const SALT: &[u8; 22] = b"abcdefghijklmnopqrstuv";

fn key(password: &str) -> [u8; 32] {
    let mut key = [0u8; 32];
    Argon2::default().hash_password_into(password.as_bytes(), SALT, &mut key).unwrap();
    key
}

fn sample(len: usize) -> Vec<u8> {
    (0..len).map(|i| (i * 31 + i / 251) as u8).collect()
}

#[test]
fn message_is_that_of_the_cipher() {
    let out = encrypt_payload_with("pw", SALT.to_vec(), vec![3; 12], b"hello").unwrap();
    let cipher = ChaCha20Poly1305::new(Key::from_slice(&key("pw")));
    let expected = cipher.encrypt(Nonce::from_slice(&[3; 12]), &b"hello"[..]).unwrap();
    assert_eq!(out.ciphertext, expected);
    assert_eq!(out.ciphertext.len(), 5 + 16);
    assert_eq!(out.salt, SALT.to_vec());
    assert_eq!(out.nonce, vec![3; 12]);
    assert!(out.encrypted);
    let back = decrypt_payload(Some("pw"), &out.salt, &out.nonce, &out.ciphertext, true).unwrap();
    assert_eq!(back, b"hello");
}

#[test]
fn message_without_password_stays_plain() {
    let out = encrypt_payload(None, b"hello").unwrap();
    assert_eq!(out.ciphertext, b"hello");
    assert!(out.salt.is_empty());
    assert!(out.nonce.is_empty());
    assert!(!out.encrypted);
    assert_eq!(decrypt_payload(None, &[], &[], b"hello", false).unwrap(), b"hello");
}

#[test]
fn message_needs_its_password() {
    let out = encrypt_payload(Some("pw"), b"hello").unwrap();
    assert_eq!(out.salt.len(), 22);
    assert_eq!(out.nonce.len(), 12);
    let open = |pw| decrypt_payload(pw, &out.salt, &out.nonce, &out.ciphertext, true);
    assert_eq!(open(Some("pw")).unwrap(), b"hello");
    assert_eq!(open(Some("other")).unwrap_err(), Fault::Aead);
    let e = open(None).unwrap_err();
    assert_eq!(e, Fault::PasswordRequired);
    assert_eq!(e.message(), "Password requerida");
}

#[test]
fn salts_and_nonces_are_new_each_time() {
    let a = encrypt_payload(Some("pw"), b"x").unwrap();
    let b = encrypt_payload(Some("pw"), b"x").unwrap();
    assert_ne!(a.salt, b.salt);
    assert_ne!(a.nonce, b.nonce);
    assert_ne!(a.nonce, vec![0; 12]);
}

#[test]
fn key_derivation_refuses_short_salts() {
    let e = decrypt_payload(Some("pw"), b"short", &[0; 12], b"x", true).unwrap_err();
    assert_eq!(e, Fault::KeyDerivation { text: "salt is too short".to_string() });
    assert_eq!(e.message(), "salt is too short");
    assert!(StreamDecryptReader::new("pw", &[1; 7], &[0; 12], b"x").is_err());
    assert!(StreamDecryptReader::new("pw", &[1; 8], &[0; 12], b"x").is_ok());
}

#[test]
fn stream_is_that_of_the_cipher() {
    let plain = sample(STREAM_CHUNK + 1000);
    let nonce = [1u8, 2, 3, 4, 5, 6, 7];
    let out =
        encrypt_payload_stream_with("pw", SALT.to_vec(), &nonce, &plain, &mut Silent).unwrap();
    let cipher = ChaCha20Poly1305::new(Key::from_slice(&key("pw")));
    let mut encryptor = EncryptorBE32::from_aead(cipher, (&nonce).into());
    let mut expected = encryptor.encrypt_next(&plain[..STREAM_CHUNK]).unwrap();
    expected.extend(encryptor.encrypt_last(&plain[STREAM_CHUNK..]).unwrap());
    assert!(out.data == expected);
    assert_eq!(out.cipher_len, plain.len() + 32);
    assert_eq!(out.plain_len, plain.len());
    assert_eq!(out.nonce, vec![1, 2, 3, 4, 5, 6, 7, 0, 0, 0, 0, 0]);
}

#[test]
fn streams_of_all_shapes_read_back() {
    for len in [0usize, 1, 1000, STREAM_CHUNK - 1, STREAM_CHUNK, STREAM_CHUNK + 1] {
        let plain = sample(len);
        let out = encrypt_payload_stream(Some("pw"), plain.clone(), &mut Silent).unwrap();
        assert_eq!(out.cipher_len, len + (len / STREAM_CHUNK + 1) * 16);
        assert_eq!(out.cipher_len, out.data.len());
        let mut reader = StreamDecryptReader::new("pw", &out.salt, &out.nonce, &out.data).unwrap();
        assert!(reader.read_to_end().unwrap() == plain);
        reader.close();
    }
}

#[test]
fn stream_without_password_stays_plain() {
    let out = encrypt_payload_stream(None, vec![1, 2, 3], &mut Silent).unwrap();
    assert_eq!(out.data, vec![1, 2, 3]);
    assert_eq!((out.cipher_len, out.plain_len), (3, 3));
    assert!(out.salt.is_empty() && out.nonce.is_empty() && !out.encrypted);
}

#[test]
fn stream_reader_reads_in_pieces() {
    let plain = sample(100);
    let out = encrypt_payload_stream(Some("pw"), plain.clone(), &mut Silent).unwrap();
    let mut reader = StreamDecryptReader::new("pw", &out.salt, &out.nonce, &out.data).unwrap();
    assert_eq!(reader.read(30).unwrap(), &plain[..30]);
    assert_eq!(reader.read(0).unwrap(), Vec::<u8>::new());
    assert_eq!(reader.read(1000).unwrap(), &plain[30..]);
    assert_eq!(reader.read(10).unwrap(), Vec::<u8>::new());
    let mut reader = StreamDecryptReader::new("pw", &out.salt, &out.nonce, &out.data).unwrap();
    assert_eq!(reader.read_exact(99).unwrap(), &plain[..99]);
    assert_eq!(reader.read_exact(2).unwrap_err(), Fault::UnexpectedEof);
}

#[test]
fn stream_reader_fails_where_the_stream_is_damaged() {
    let plain = sample(STREAM_CHUNK + 10);
    let mut out = encrypt_payload_stream(Some("pw"), plain.clone(), &mut Silent).unwrap();
    let last = out.data.len() - 1;
    out.data[last] ^= 1;
    let mut reader = StreamDecryptReader::new("pw", &out.salt, &out.nonce, &out.data).unwrap();
    assert!(reader.read_exact(STREAM_CHUNK).unwrap() == plain[..STREAM_CHUNK]);
    assert_eq!(reader.read(1).unwrap_err(), Fault::NotAuthentic);
    assert_eq!(reader.read(1).unwrap(), Vec::<u8>::new());
    let mut reader = StreamDecryptReader::new("pw", &out.salt, &out.nonce, &out.data).unwrap();
    assert_eq!(reader.read_to_end().unwrap_err(), Fault::NotAuthentic);
}

#[test]
fn stream_that_ends_with_a_full_segment_is_accepted() {
    let plain = sample(STREAM_CHUNK);
    let out = encrypt_payload_stream(Some("pw"), plain.clone(), &mut Silent).unwrap();
    let cut = &out.data[..STREAM_CHUNK + 16];
    let mut reader = StreamDecryptReader::new("pw", &out.salt, &out.nonce, cut).unwrap();
    assert!(reader.read_to_end().unwrap() == plain);
}

#[test]
fn slices_are_sources() {
    let mut source = SliceSource::new(&[1, 2, 3]);
    assert_eq!(source.read_exact(2).unwrap(), vec![1, 2]);
    assert_eq!(source.read_exact(0).unwrap(), Vec::<u8>::new());
    let e = source.read_exact(2).unwrap_err();
    assert_eq!(e, Fault::UnexpectedEof);
    assert_eq!(e.message(), "failed to fill whole buffer");
    assert_eq!(source.read_exact(1).unwrap(), vec![3]);
}

#[test]
fn streams_read_back_until_an_empty_answer() {
    for len in [0usize, 5, STREAM_CHUNK, STREAM_CHUNK + 7] {
        let plain = sample(len);
        let out = encrypt_payload_stream(Some("pw"), plain.clone(), &mut Silent).unwrap();
        for want in [3usize, 1_000_003, usize::MAX] {
            if want == 3 && len > 5 {
                continue;
            }
            let mut reader =
                StreamDecryptReader::new("pw", &out.salt, &out.nonce, &out.data).unwrap();
            let mut back = Vec::new();
            loop {
                let bytes = reader.read(want).unwrap();
                if bytes.is_empty() {
                    break;
                }
                back.extend(bytes);
            }
            assert!(back == plain);
            assert!(reader.at_end());
            assert!(reader.read(want).unwrap().is_empty());
            assert!(reader.read(want).unwrap().is_empty());
        }
    }
}

#[test]
fn streams_are_refused_under_another_password() {
    let out = encrypt_payload_stream(Some("pw"), sample(100), &mut Silent).unwrap();
    let mut reader = StreamDecryptReader::new("no", &out.salt, &out.nonce, &out.data).unwrap();
    let e = reader.read_to_end().unwrap_err();
    assert_eq!(e, Fault::NotAuthentic);
    assert_eq!(e.message(), "SHA mismatch: password errada ou dados corrompidos.");
}

struct Steps {
    seen: Vec<(u64, u64)>,
}

impl ProgressSink for Steps {
    fn report(&mut self, phase: ProgressPhase, done: u64, total: u64) {
        assert_eq!(phase, ProgressPhase::Encrypt);
        self.seen.push((done, total));
    }
}

#[test]
fn encryption_reports_its_segments() {
    let chunk = STREAM_CHUNK as u64;
    for (len, dones) in [
        (0, vec![0]),
        (9, vec![9, 9]),
        (chunk, vec![chunk, chunk]),
        (chunk + 1, vec![chunk, chunk + 1, chunk + 1]),
    ] {
        let mut sink = Steps { seen: Vec::new() };
        encrypt_payload_stream(Some("pw"), sample(len as usize), &mut sink).unwrap();
        let expected: Vec<(u64, u64)> = dones.into_iter().map(|done| (done, len)).collect();
        assert_eq!(sink.seen, expected);
        let mut sink = Steps { seen: Vec::new() };
        encrypt_payload_stream(None, sample(len as usize), &mut sink).unwrap();
        assert!(sink.seen.is_empty());
    }
}
