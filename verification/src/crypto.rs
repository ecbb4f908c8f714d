//! Encryption: Argon2id keys, ChaCha20-Poly1305 messages and streams.
//!
//! A stream is cut into segments of `STREAM_CHUNK` bytes. Each takes a tag, and
//! a last segment, shorter than the others and possibly empty, ends the stream.
use crate::bytes::{append, copy_range};
use crate::error::{outcome, Error, ErrorView, Fault};
use crate::format::{fix_nonce, fixed_nonce};
use crate::progress::{
    all_scaled, lemma_nothing_told, lemma_own, lemma_pieces_push, lemma_pieces_run,
    lemma_steady_push, only_told, pieces_log, runs_to, tell, told_all, ProgressPhase, ProgressSink,
    Report, Scale,
};
use crate::source::ByteSource;
use argon2::password_hash::SaltString;
use argon2::Argon2;
use chacha20poly1305::aead::stream::{NewStream, Nonce as StreamNonce, StreamBE32, StreamPrimitive};
use chacha20poly1305::aead::{Aead, KeyInit};
use chacha20poly1305::{ChaCha20Poly1305, Key, Nonce};
use rand::rngs::OsRng;
use rand::RngCore;
use vstd::prelude::*;
use vstd::utf8::encode_utf8;
use zeroize::Zeroize;

verus! {

/// The plain bytes of a full segment of a stream.
pub const STREAM_CHUNK: usize = 4_194_304;

/// The bytes that authentication adds to a message or segment.
pub const TAG_SIZE: usize = 16;

/// The bytes of a full segment with its tag.
pub const SEALED_CHUNK: usize = 4_194_320;

/// The bytes of a nonce that belong to a stream.
pub const STREAM_NONCE_LEN: usize = 7;

/// The bytes of a generated salt.
pub const SALT_LEN: usize = 22;

/// The largest message that ChaCha20 has key stream for.
pub const MAX_MESSAGE: u64 = 274_877_906_816;

/// The key that Argon2id derives from a password and a salt.
pub uninterp spec fn argon2_key(password: Seq<u8>, salt: Seq<u8>) -> Seq<u8>;

/// The ciphertext of a segment of a stream.
pub uninterp spec fn sealed_segment(
    key: Seq<u8>,
    nonce: Seq<u8>,
    position: u32,
    last: bool,
    plain: Seq<u8>,
) -> Seq<u8>;

/// The plaintext of a segment of a stream, if it is authentic.
pub uninterp spec fn opened_segment(
    key: Seq<u8>,
    nonce: Seq<u8>,
    position: u32,
    last: bool,
    cipher: Seq<u8>,
) -> Option<Seq<u8>>;

/// The ciphertext of a message.
pub uninterp spec fn sealed_message(key: Seq<u8>, nonce: Seq<u8>, plain: Seq<u8>) -> Seq<u8>;

/// The plaintext of a message, if it is authentic.
pub uninterp spec fn opened_message(key: Seq<u8>, nonce: Seq<u8>, cipher: Seq<u8>) -> Option<
    Seq<u8>,
>;

/// Why Argon2id derives no key from a password and a salt of these lengths.
pub open spec fn kdf_refusal(password_len: nat, salt_len: nat) -> Option<Seq<char>> {
    if password_len > 0xffff_ffff {
        Some("password is too long"@)
    } else if salt_len < 8 {
        Some("salt is too short"@)
    } else if salt_len > 0xffff_ffff {
        Some("salt is too long"@)
    } else {
        None
    }
}

/// The key for a password and a salt, or why there is none.
pub open spec fn derived_key(password: Seq<u8>, salt: Seq<u8>) -> Result<Seq<u8>, ErrorView> {
    match kdf_refusal(password.len(), salt.len()) {
        Some(text) => Err(Fault::KeyDerivation { text }),
        None => Ok(argon2_key(password, salt)),
    }
}

/// The text of a password, as bytes.
pub open spec fn password_bytes(password: Seq<char>) -> Seq<u8> {
    encode_utf8(password)
}

/// Calls `Argon2::hash_password_into` of `argon2` with its default parameters
/// for a key of 32 bytes. It refuses by length alone: a password of more than
/// 4294967295 bytes, then a salt of fewer than 8 or more than 4294967295. The key
/// is a function of the password and the salt.
#[verifier::external_body]
fn hash_password(password: &[u8], salt: &[u8]) -> (out: Result<Vec<u8>, String>)
    ensures
        match out {
            Ok(key) => kdf_refusal(password@.len(), salt@.len()) is None && key@ == argon2_key(
                password@,
                salt@,
            ) && key@.len() == 32,
            Err(text) => kdf_refusal(password@.len(), salt@.len()) == Some(text@),
        },
{
    let mut key = vec![0u8; 32];
    Argon2::default().hash_password_into(password, salt, &mut key).map_err(|e| e.to_string())?;
    Ok(key)
}

/// Calls `SaltString::generate` of `argon2` with the system's random numbers:
/// sixteen random bytes, written as 22 characters of base 64. It panics where the
/// system has no random numbers to give.
#[verifier::external_body]
fn generate_salt() -> (out: Vec<u8>)
    ensures
        out@.len() == SALT_LEN,
{
    SaltString::generate(&mut OsRng).as_salt().as_ref().as_bytes().to_vec()
}

/// Calls `fill_bytes` of `rand` on the system's random numbers. It panics where the
/// system has none to give.
#[verifier::external_body]
fn random_bytes(len: usize) -> (out: Vec<u8>)
    ensures
        out@.len() == len,
{
    let mut out = vec![0u8; len];
    OsRng.fill_bytes(&mut out);
    out
}

/// Calls `zeroize` on a vector: it is overwritten and then cleared.
#[verifier::external_body]
fn wipe(secret: &mut Vec<u8>)
    ensures
        final(secret)@ == Seq::<u8>::empty(),
{
    secret.zeroize();
}

/// Encrypts with `StreamPrimitive::encrypt` of `StreamBE32` over
/// `ChaCha20Poly1305`. The ciphertext is a function of the arguments, takes a tag
/// more than the plaintext, and opens to the plaintext.
#[verifier::external_body]
fn seal_segment(key: &[u8], nonce: &[u8], position: u32, last: bool, plain: &[u8]) -> (out: Vec<u8>)
    requires
        key@.len() == 32,
        nonce@.len() == STREAM_NONCE_LEN,
        plain@.len() <= MAX_MESSAGE,
    ensures
        out@ == sealed_segment(key@, nonce@, position, last, plain@),
        out@.len() == plain@.len() + TAG_SIZE,
        opened_segment(key@, nonce@, position, last, out@) == Some(plain@),
{
    let cipher = ChaCha20Poly1305::new(Key::from_slice(key));
    let nonce = StreamNonce::<ChaCha20Poly1305, StreamBE32<ChaCha20Poly1305>>::from_slice(nonce);
    StreamBE32::from_aead(cipher, nonce).encrypt(position, last, plain).unwrap()
}

/// Decrypts with `StreamPrimitive::decrypt` of `StreamBE32` over
/// `ChaCha20Poly1305`. The result is a function of the arguments; a plaintext is a
/// tag shorter than the ciphertext.
#[verifier::external_body]
fn open_segment(key: &[u8], nonce: &[u8], position: u32, last: bool, cipher: &[u8]) -> (out: Option<
    Vec<u8>,
>)
    requires
        key@.len() == 32,
        nonce@.len() == STREAM_NONCE_LEN,
        cipher@.len() <= MAX_MESSAGE + TAG_SIZE,
    ensures
        match out {
            Some(plain) => opened_segment(key@, nonce@, position, last, cipher@) == Some(plain@)
                && plain@.len() + TAG_SIZE == cipher@.len(),
            None => opened_segment(key@, nonce@, position, last, cipher@) is None,
        },
{
    let aead = ChaCha20Poly1305::new(Key::from_slice(key));
    let nonce = StreamNonce::<ChaCha20Poly1305, StreamBE32<ChaCha20Poly1305>>::from_slice(nonce);
    StreamBE32::from_aead(aead, nonce).decrypt(position, last, cipher).ok()
}

/// Encrypts with `Aead::encrypt` of `ChaCha20Poly1305`. The ciphertext is a
/// function of the arguments, takes a tag more than the plaintext, and opens to
/// the plaintext.
#[verifier::external_body]
fn seal_message(key: &[u8], nonce: &[u8], plain: &[u8]) -> (out: Vec<u8>)
    requires
        key@.len() == 32,
        nonce@.len() == 12,
        plain@.len() <= MAX_MESSAGE,
    ensures
        out@ == sealed_message(key@, nonce@, plain@),
        out@.len() == plain@.len() + TAG_SIZE,
        opened_message(key@, nonce@, out@) == Some(plain@),
{
    let cipher = ChaCha20Poly1305::new(Key::from_slice(key));
    cipher.encrypt(Nonce::from_slice(nonce), plain).unwrap()
}

/// Decrypts with `Aead::decrypt` of `ChaCha20Poly1305`. The result is a function
/// of the arguments.
#[verifier::external_body]
fn open_message(key: &[u8], nonce: &[u8], cipher: &[u8]) -> (out: Option<Vec<u8>>)
    requires
        key@.len() == 32,
        nonce@.len() == 12,
        cipher@.len() <= MAX_MESSAGE + TAG_SIZE,
    ensures
        match out {
            Some(plain) => opened_message(key@, nonce@, cipher@) == Some(plain@),
            None => opened_message(key@, nonce@, cipher@) is None,
        },
{
    let aead = ChaCha20Poly1305::new(Key::from_slice(key));
    aead.decrypt(Nonce::from_slice(nonce), cipher).ok()
}

/// Derives the key for a password and a salt.
fn derive_key(password: &str, salt: &[u8]) -> (out: Result<Vec<u8>, Error>)
    ensures
        outcome(out) == derived_key(password_bytes(password@), salt@),
        out matches Ok(key) ==> key@.len() == 32,
{
    match hash_password(password.as_bytes(), salt) {
        Ok(key) => Ok(key),
        Err(text) => Err(Fault::KeyDerivation { text }),
    }
}

/// `front`, then `rest` where there is one.
pub open spec fn followed_by(front: Seq<u8>, rest: Option<Seq<u8>>) -> Option<Seq<u8>> {
    match rest {
        Some(bytes) => Some(front + bytes),
        None => None,
    }
}

/// The ciphertext of a stream from segment `position` on. The counter of the
/// segments has 32 bits, and its last value does not number a full segment.
pub open spec fn sealed_stream(
    key: Seq<u8>,
    nonce: Seq<u8>,
    position: nat,
    plain: Seq<u8>,
) -> Option<Seq<u8>>
    decreases plain.len(),
{
    if plain.len() < STREAM_CHUNK {
        Some(sealed_segment(key, nonce, position as u32, true, plain))
    } else if position >= u32::MAX {
        None
    } else {
        followed_by(
            sealed_segment(key, nonce, position as u32, false, plain.take(STREAM_CHUNK as int)),
            sealed_stream(key, nonce, position + 1, plain.skip(STREAM_CHUNK as int)),
        )
    }
}

/// The plaintext of a stream from segment `position` on, up to its end or to the
/// first segment that is not authentic, and whether there is such a segment.
pub open spec fn opened_stream(
    key: Seq<u8>,
    nonce: Seq<u8>,
    position: nat,
    cipher: Seq<u8>,
) -> (Seq<u8>, bool)
    decreases cipher.len(),
{
    if cipher.len() == 0 {
        (Seq::empty(), false)
    } else if cipher.len() < SEALED_CHUNK {
        match opened_segment(key, nonce, position as u32, true, cipher) {
            Some(plain) => (plain, false),
            None => (Seq::empty(), true),
        }
    } else if position >= u32::MAX {
        (Seq::empty(), true)
    } else {
        match opened_segment(key, nonce, position as u32, false, cipher.take(SEALED_CHUNK as int)) {
            Some(plain) => {
                let rest = opened_stream(key, nonce, position + 1, cipher.skip(SEALED_CHUNK as int));
                (plain + rest.0, rest.1)
            },
            None => (Seq::empty(), true),
        }
    }
}

/// The number of bytes that the ciphertext of a stream takes.
pub open spec fn stream_len(plain_len: nat) -> nat {
    plain_len + (plain_len / STREAM_CHUNK as nat + 1) * TAG_SIZE as nat
}

/// A stream can be encrypted as long as its segments can be counted.
proof fn lemma_countable_stream(key: Seq<u8>, nonce: Seq<u8>, position: nat, plain: Seq<u8>)
    requires
        position <= u32::MAX,
    ensures
        sealed_stream(key, nonce, position, plain) is Some <==> position + plain.len()
            / STREAM_CHUNK as nat <= u32::MAX,
    decreases plain.len(),
{
    if plain.len() >= STREAM_CHUNK && position < u32::MAX {
        lemma_countable_stream(key, nonce, position + 1, plain.skip(STREAM_CHUNK as int));
    }
}

/// Why a payload of `len` bytes cannot be encrypted with a password and a
/// generated salt.
pub open spec fn seal_refusal(password: Option<Seq<char>>, len: nat) -> Option<ErrorView> {
    match password {
        None => None,
        Some(text) => if password_bytes(text).len() > 0xffff_ffff {
            Some(Fault::KeyDerivation { text: "password is too long"@ })
        } else if len / STREAM_CHUNK as nat > u32::MAX {
            Some(Fault::Aead)
        } else {
            None
        },
    }
}

/// The segments of `cipher` before segment `count` open to the chunks of `plain`.
spec fn segments_open(
    key: Seq<u8>,
    nonce: Seq<u8>,
    plain: Seq<u8>,
    cipher: Seq<u8>,
    count: int,
) -> bool {
    forall|i: int|
        0 <= i < count ==> #[trigger] opened_segment(
            key,
            nonce,
            i as u32,
            false,
            cipher.subrange(SEALED_CHUNK * i, SEALED_CHUNK * i + SEALED_CHUNK),
        ) == Some(plain.subrange(STREAM_CHUNK * i, STREAM_CHUNK * i + STREAM_CHUNK))
}

/// A stream whose segments open, opens.
proof fn lemma_segments_open(
    key: Seq<u8>,
    nonce: Seq<u8>,
    plain: Seq<u8>,
    cipher: Seq<u8>,
    count: int,
    i: int,
)
    requires
        0 <= i <= count < u32::MAX || 0 <= i <= count == u32::MAX,
        count == plain.len() / STREAM_CHUNK as nat,
        cipher.len() == plain.len() + (count + 1) * TAG_SIZE,
        segments_open(key, nonce, plain, cipher, count),
        opened_segment(
            key,
            nonce,
            count as u32,
            true,
            cipher.skip(SEALED_CHUNK * count),
        ) == Some(plain.skip(STREAM_CHUNK * count)),
    ensures
        opened_stream(key, nonce, i as nat, cipher.skip(SEALED_CHUNK * i)) == (
            plain.skip(STREAM_CHUNK * i),
            false,
        ),
    decreases count - i,
{
    let rest = cipher.skip(SEALED_CHUNK * i);
    if i < count {
        lemma_segments_open(key, nonce, plain, cipher, count, i + 1);
        assert(rest.skip(SEALED_CHUNK as int) =~= cipher.skip(SEALED_CHUNK * (i + 1)));
        assert(rest.take(SEALED_CHUNK as int) =~= cipher.subrange(SEALED_CHUNK * i, SEALED_CHUNK * i + SEALED_CHUNK));
        assert(plain.subrange(STREAM_CHUNK * i, STREAM_CHUNK * i + STREAM_CHUNK) + plain.skip(
            STREAM_CHUNK * (i + 1),
        ) =~= plain.skip(STREAM_CHUNK * i));
    }
}

/// The number of chunks that `len` bytes take.
pub open spec fn pieces_of(len: nat) -> nat {
    (len + STREAM_CHUNK - 1) as nat / STREAM_CHUNK as nat
}

/// The number of segments in a ciphertext of `len` bytes.
pub open spec fn segments_of(len: nat) -> nat {
    (len + SEALED_CHUNK - 1) as nat / SEALED_CHUNK as nat
}

/// What encrypting `len` bytes reports of the segments that are full: how many bytes
/// are encrypted after each.
pub open spec fn segments_log(len: nat) -> Seq<Report> {
    pieces_log(
        ProgressPhase::Encrypt,
        STREAM_CHUNK as nat,
        len / STREAM_CHUNK as nat,
        len,
        len as u64,
    )
}

/// The full segments of `len` bytes.
proof fn lemma_whole_segments(len: nat, count: nat)
    requires
        count * STREAM_CHUNK <= len < (count + 1) * STREAM_CHUNK,
        len <= u64::MAX,
    ensures
        count == len / STREAM_CHUNK as nat,
        pieces_log(
            ProgressPhase::Encrypt,
            STREAM_CHUNK as nat,
            count,
            count * STREAM_CHUNK as nat,
            len as u64,
        ) == segments_log(len),
{
    let short = pieces_log(
        ProgressPhase::Encrypt,
        STREAM_CHUNK as nat,
        count,
        count * STREAM_CHUNK as nat,
        len as u64,
    );
    assert(short =~= segments_log(len));
}

/// What encrypting a payload of `len` bytes reports: how many bytes are encrypted
/// after each segment, of which the last may not be empty, then that all are.
pub open spec fn stream_log(len: nat) -> Seq<Report> {
    pieces_log(
        ProgressPhase::Encrypt,
        STREAM_CHUNK as nat,
        pieces_of(len),
        len,
        len as u64,
    ).push(Report { phase: ProgressPhase::Encrypt, done: len as u64, total: len as u64 })
}

/// What encrypting a payload reports goes on until all bytes are encrypted.
pub proof fn lemma_stream_log(len: nat)
    requires
        len <= u64::MAX,
    ensures
        runs_to(stream_log(len), ProgressPhase::Encrypt, len as u64),
        stream_log(len).len() > 0,
{
    let front = stream_log(len).drop_last();
    let count = pieces_of(len);
    let r = Report { phase: ProgressPhase::Encrypt, done: len as u64, total: len as u64 };
    lemma_pieces_run(ProgressPhase::Encrypt, STREAM_CHUNK as nat, count, len, len as u64);
    assert(stream_log(len) == pieces_log(
        ProgressPhase::Encrypt,
        STREAM_CHUNK as nat,
        count,
        len,
        len as u64,
    ).push(r));
    lemma_steady_push(
        pieces_log(ProgressPhase::Encrypt, STREAM_CHUNK as nat, count, len, len as u64),
        r,
    );
}

/// Encrypts a stream and reports the segments that are full, in these units. What it
/// gives opens to the plaintext.
#[verifier::rlimit(40)]
fn seal_stream<P: ProgressSink>(
    key: &[u8],
    nonce: &[u8],
    plain: &[u8],
    scale: Scale,
    progress: &mut P,
) -> (out: Result<Vec<u8>, Error>)
    requires
        key@.len() == 32,
        nonce@.len() == STREAM_NONCE_LEN,
    ensures
        out is Ok ==> told_all(
            *old(progress),
            all_scaled(scale, segments_log(plain@.len())),
            *final(progress),
        ),
        match out {
            Ok(cipher) => sealed_stream(key@, nonce@, 0, plain@) == Some(cipher@) && cipher@.len()
                == stream_len(plain@.len()) && opened_stream(key@, nonce@, 0, cipher@) == (
                plain@,
                false,
            ),
            Err(e) => sealed_stream(key@, nonce@, 0, plain@) is None && e@ == ErrorView::Aead,
        },
        only_told(*old(progress), *final(progress)),
{
    let total: usize = plain.len();
    let mut out: Vec<u8> = Vec::new();
    let mut position: u32 = 0;
    let mut at: usize = 0;
    let ghost mut log: Seq<Report> = Seq::empty();
    assert(all_scaled(scale, log) =~= Seq::<Report>::empty());
    assert(log =~= pieces_log(
        ProgressPhase::Encrypt,
        STREAM_CHUNK as nat,
        0,
        0,
        total as u64,
    ));
    assert(plain@.skip(0) =~= plain@);
    assert(followed_by(Seq::empty(), sealed_stream(key@, nonce@, 0, plain@)) == sealed_stream(
        key@,
        nonce@,
        0,
        plain@,
    )) by {
        if let Some(bytes) = sealed_stream(key@, nonce@, 0, plain@) {
            assert(Seq::<u8>::empty() + bytes =~= bytes);
        }
    }
    while total - at >= STREAM_CHUNK
        invariant
            key@.len() == 32,
            nonce@.len() == STREAM_NONCE_LEN,
            at <= total == plain@.len(),
            at == STREAM_CHUNK * position,
            out@.len() == SEALED_CHUNK * position,
            segments_open(key@, nonce@, plain@, out@, position as int),
            sealed_stream(key@, nonce@, 0, plain@) == followed_by(
                out@,
                sealed_stream(key@, nonce@, position as nat, plain@.skip(at as int)),
            ),
            told_all(*old(progress), all_scaled(scale, log), *progress),
            log == pieces_log(
                ProgressPhase::Encrypt,
                STREAM_CHUNK as nat,
                position as nat,
                at as nat,
                total as u64,
            ),
        decreases total - at,
    {
        if position == u32::MAX {
            return Err(Fault::Aead);
        }
        let ghost before = out@;
        let ghost left = plain@.skip(at as int);
        let chunk = vstd::slice::slice_subrange(plain, at, at + STREAM_CHUNK);
        assert(left.take(STREAM_CHUNK as int) =~= chunk@);
        let sealed: Vec<u8> = seal_segment(key, nonce, position, false, chunk);
        append(&mut out, sealed.as_slice());
        proof {
            let after = left.skip(STREAM_CHUNK as int);
            assert(after =~= plain@.skip(at + STREAM_CHUNK));
            if let Some(bytes) = sealed_stream(key@, nonce@, (position + 1) as nat, after) {
                assert(before + (sealed@ + bytes) =~= out@ + bytes);
            }
            assert forall|i: int| 0 <= i < position + 1 implies #[trigger] opened_segment(
                key@,
                nonce@,
                i as u32,
                false,
                out@.subrange(SEALED_CHUNK * i, SEALED_CHUNK * i + SEALED_CHUNK),
            ) == Some(plain@.subrange(STREAM_CHUNK * i, STREAM_CHUNK * i + STREAM_CHUNK)) by {
                if i < position {
                    assert(out@.subrange(SEALED_CHUNK * i, SEALED_CHUNK * i + SEALED_CHUNK) =~= before.subrange(
                        SEALED_CHUNK * i,
                        SEALED_CHUNK * i + SEALED_CHUNK,
                    ));
                } else {
                    assert(out@.subrange(SEALED_CHUNK * i, SEALED_CHUNK * i + SEALED_CHUNK) =~= sealed@);
                    assert(plain@.subrange(STREAM_CHUNK * i, STREAM_CHUNK * i + STREAM_CHUNK)
                        =~= chunk@);
                }
            }
        }
        proof {
            lemma_pieces_push(
                ProgressPhase::Encrypt,
                STREAM_CHUNK as nat,
                position as nat,
                at as nat,
                (at + STREAM_CHUNK) as nat,
                total as u64,
            );
        }
        position = position + 1;
        at = at + STREAM_CHUNK;
        let r = Report { phase: ProgressPhase::Encrypt, done: at as u64, total: total as u64 };
        tell(progress, scale, r, Ghost(*old(progress)), Ghost(log));
        proof {
            log = log.push(r);
        }
    }
    let ghost before = out@;
    let chunk = vstd::slice::slice_subrange(plain, at, total);
    assert(plain@.skip(at as int) =~= chunk@);
    let sealed: Vec<u8> = seal_segment(key, nonce, position, true, chunk);
    append(&mut out, sealed.as_slice());
    proof {
        assert(segments_open(key@, nonce@, plain@, out@, position as int)) by {
            assert forall|i: int| 0 <= i < position implies #[trigger] opened_segment(
                key@,
                nonce@,
                i as u32,
                false,
                out@.subrange(SEALED_CHUNK * i, SEALED_CHUNK * i + SEALED_CHUNK),
            ) == Some(plain@.subrange(STREAM_CHUNK * i, STREAM_CHUNK * i + STREAM_CHUNK)) by {
                assert(out@.subrange(SEALED_CHUNK * i, SEALED_CHUNK * i + SEALED_CHUNK) =~= before.subrange(
                    SEALED_CHUNK * i,
                    SEALED_CHUNK * i + SEALED_CHUNK,
                ));
            }
        }
        assert(out@.skip(SEALED_CHUNK * position) =~= sealed@);
        lemma_segments_open(key@, nonce@, plain@, out@, position as int, 0);
        assert(out@.skip(0) =~= out@);
    }
    proof {
        lemma_whole_segments(total as nat, position as nat);
        assert(log =~= segments_log(total as nat));
    }
    Ok(out)
}

/// The mathematical view of a stream that is being decrypted: its key and nonce,
/// the number of the next segment, the ciphertext that is left, and the plaintext
/// that was decrypted but not read yet.
#[verifier::ext_equal]
pub struct Decryption {
    pub key: Seq<u8>,
    pub nonce: Seq<u8>,
    pub position: u32,
    pub cipher: Seq<u8>,
    pub buffered: Seq<u8>,
}

impl Decryption {
    /// The next segment of the ciphertext.
    pub open spec fn segment(self) -> Seq<u8> {
        if self.cipher.len() < SEALED_CHUNK {
            self.cipher
        } else {
            self.cipher.take(SEALED_CHUNK as int)
        }
    }

    /// Whether the next segment is the last one.
    pub open spec fn at_last(self) -> bool {
        self.cipher.len() < SEALED_CHUNK
    }

    /// The plaintext of the next segment, if it is authentic.
    pub open spec fn next_plain(self) -> Option<Seq<u8>> {
        if !self.at_last() && self.position == u32::MAX {
            None
        } else {
            opened_segment(self.key, self.nonce, self.position, self.at_last(), self.segment())
        }
    }

    /// The stream after its next segment was decrypted; one that is not authentic
    /// is skipped.
    pub open spec fn advanced(self) -> Decryption {
        Decryption {
            position: if self.next_plain() is Some && !self.at_last() {
                (self.position + 1) as u32
            } else {
                self.position
            },
            cipher: self.cipher.skip(self.segment().len() as int),
            buffered: match self.next_plain() {
                Some(plain) => plain,
                None => Seq::empty(),
            },
            ..self
        }
    }

    /// Reading up to `want` of the bytes that are decrypted.
    pub open spec fn taken(self, want: nat) -> (Seq<u8>, Decryption) {
        let n = if want < self.buffered.len() {
            want as int
        } else {
            self.buffered.len() as int
        };
        (self.buffered.take(n), Decryption { buffered: self.buffered.skip(n), ..self })
    }

    /// Whether asking for up to `want` bytes can give this answer, or none where
    /// decryption fails, and leave the stream like this: the bytes are those that
    /// are decrypted, else those of the next segment, which is a tag longer than its
    /// plaintext.
    pub open spec fn reads(self, want: nat, answer: Option<Seq<u8>>, after: Decryption) -> bool {
        if self.buffered.len() > 0 || self.cipher.len() == 0 {
            answer == Some(self.taken(want).0) && after == self.taken(want).1
        } else if self.next_plain() is Some {
            &&& self.next_plain()->Some_0.len() + TAG_SIZE == self.segment().len()
            &&& answer == Some(self.advanced().taken(want).0)
            &&& after == self.advanced().taken(want).1
        } else {
            answer is None && after == self.advanced()
        }
    }

    /// The bytes that are left to be read, and whether decryption fails after them.
    pub open spec fn left(self) -> (Seq<u8>, bool) {
        let rest = opened_stream(self.key, self.nonce, self.position as nat, self.cipher);
        (self.buffered + rest.0, rest.1)
    }
}

/// The start of a stream under a key. The stream's nonce is the start of the given
/// one.
pub open spec fn stream_start(key: Seq<u8>, nonce: Seq<u8>, cipher: Seq<u8>) -> Decryption {
    Decryption {
        key,
        nonce: fixed_nonce(nonce, STREAM_NONCE_LEN as nat),
        position: 0,
        cipher,
        buffered: Seq::empty(),
    }
}

/// What a read answers: bytes, or none where it fails.
pub open spec fn answer_of(out: Result<Vec<u8>, Error>) -> Option<Seq<u8>> {
    match out {
        Ok(bytes) => Some(bytes@),
        Err(_) => None,
    }
}

/// Decrypting the next segment keeps what is left to be read.
proof fn lemma_advanced(before: Decryption)
    requires
        before.buffered.len() == 0,
        before.cipher.len() > 0,
        before.next_plain() is Some,
    ensures
        before.advanced().left() == before.left(),
{
    let after = before.advanced();
    assert(before.buffered =~= Seq::<u8>::empty());
    if before.at_last() {
        assert(after.cipher =~= Seq::<u8>::empty());
    }
    assert(after.left().0 =~= before.left().0);
}

/// A read takes its bytes off those that are left. A read of at least one byte gives
/// none only at the end, where decryption does not fail.
proof fn lemma_read(before: Decryption, want: nat, answer: Option<Seq<u8>>, after: Decryption)
    requires
        before.reads(want, answer, after),
    ensures
        match answer {
            Some(bytes) => before.left() == (bytes + after.left().0, after.left().1) && (
            bytes.len() == 0 && want > 0 ==> before.left() == (Seq::<u8>::empty(), false)),
            None => before.left() == (Seq::<u8>::empty(), true),
        },
{
    if answer is Some {
        let bytes = answer->Some_0;
        let ready = if before.buffered.len() > 0 || before.cipher.len() == 0 {
            before
        } else {
            lemma_advanced(before);
            before.advanced()
        };
        assert(ready.left().0 =~= bytes + after.left().0);
        if bytes.len() == 0 && want > 0 {
            assert(ready.buffered =~= Seq::<u8>::empty());
            assert(ready.cipher.len() == 0);
            assert(ready.left().0 =~= Seq::<u8>::empty());
        }
    } else {
        assert(before.buffered =~= Seq::<u8>::empty());
        assert(before.left().0 =~= Seq::<u8>::empty());
    }
}

/// The bytes of answers, one after the other.
pub open spec fn all_read(answers: Seq<Option<Seq<u8>>>) -> Seq<u8>
    decreases answers.len(),
{
    if answers.len() == 0 {
        Seq::empty()
    } else {
        all_read(answers.drop_last()) + (match answers.last() {
            Some(bytes) => bytes,
            None => Seq::empty(),
        })
    }
}

/// The stream goes through these states where it is asked for so many bytes each
/// time and answers like this.
pub open spec fn is_reading(
    states: Seq<Decryption>,
    wants: Seq<nat>,
    answers: Seq<Option<Seq<u8>>>,
) -> bool {
    &&& wants.len() == answers.len()
    &&& states.len() == answers.len() + 1
    &&& forall|i: int|
        0 <= i < answers.len() ==> states[i].reads(
            wants[i],
            #[trigger] answers[i],
            states[i + 1],
        )
}

/// What reads give and what is left afterwards is what was left before.
proof fn lemma_reading(
    states: Seq<Decryption>,
    wants: Seq<nat>,
    answers: Seq<Option<Seq<u8>>>,
    plain: Seq<u8>,
    n: int,
)
    requires
        is_reading(states, wants, answers),
        forall|i: int| 0 <= i < wants.len() ==> #[trigger] wants[i] > 0,
        states[0].left() == (plain, false),
        0 <= n <= answers.len(),
    ensures
        forall|i: int| 0 <= i < n ==> (#[trigger] answers[i]) is Some,
        states[n].left() == (states[n].left().0, false),
        all_read(answers.take(n)) + states[n].left().0 == plain,
        forall|i: int|
            0 <= i < n && (#[trigger] answers[i]) == Some(Seq::<u8>::empty())
                ==> states[n].left().0.len() == 0 && states[i].left().0.len() == 0,
        states[n].left().0.len() == 0 || states[n].left().0.len() + n <= plain.len(),
    decreases n,
{
    if n == 0 {
        assert(all_read(answers.take(0)) + plain =~= plain);
    } else {
        lemma_reading(states, wants, answers, plain, n - 1);
        let (before, after) = (states[n - 1], states[n]);
        let answer = answers[n - 1];
        assert(wants[n - 1] > 0);
        assert(before.reads(wants[n - 1], answer, after));
        lemma_read(before, wants[n - 1], answer, after);
        let bytes = answer->Some_0;
        assert(answers.take(n).drop_last() =~= answers.take(n - 1));
        assert(answers.take(n).last() == answer);
        assert(all_read(answers.take(n)) + after.left().0 =~= all_read(answers.take(n - 1)) + (bytes
            + after.left().0));
        assert(before.left().0.len() == bytes.len() + after.left().0.len());
    }
}

/// Reading a stream that holds `plain`, with requests of at least one byte, does not
/// fail. What was read and what is left is `plain`; an empty answer comes only when
/// all of it was read, and then every later answer is empty too. It comes after no
/// more requests than `plain` has bytes.
pub proof fn law_reading_to_the_end(
    states: Seq<Decryption>,
    wants: Seq<nat>,
    answers: Seq<Option<Seq<u8>>>,
    plain: Seq<u8>,
)
    requires
        is_reading(states, wants, answers),
        forall|i: int| 0 <= i < wants.len() ==> #[trigger] wants[i] > 0,
        states[0].left() == (plain, false),
    ensures
        forall|i: int| 0 <= i < answers.len() ==> (#[trigger] answers[i]) is Some,
        all_read(answers) + states.last().left().0 == plain,
        forall|i: int|
            0 <= i < answers.len() && (#[trigger] answers[i]) == Some(Seq::<u8>::empty())
                ==> all_read(answers) == plain && all_read(answers.take(i)) == plain,
        forall|i: int, j: int|
            0 <= i <= j < answers.len() && (#[trigger] answers[i]) == Some(Seq::<u8>::empty())
                ==> #[trigger] answers[j] == Some(Seq::<u8>::empty()),
        answers.len() > plain.len() ==> answers.last() == Some(Seq::<u8>::empty()),
{
    let n = answers.len() as int;
    lemma_reading(states, wants, answers, plain, n);
    assert(answers.take(n) =~= answers);
    assert forall|i: int| 0 <= i < n && (#[trigger] answers[i]) == Some(
        Seq::<u8>::empty(),
    ) implies all_read(answers) == plain && all_read(answers.take(i)) == plain by {
        lemma_reading(states, wants, answers, plain, i);
        assert(all_read(answers) + states[n].left().0 =~= all_read(answers));
        assert(all_read(answers.take(i)) + states[i].left().0 =~= all_read(answers.take(i)));
    }
    assert forall|i: int, j: int|
        0 <= i <= j < n && (#[trigger] answers[i]) == Some(Seq::<u8>::empty()) implies (
    #[trigger] answers[j]) == Some(Seq::<u8>::empty()) by {
        if i < j {
            lemma_reading(states, wants, answers, plain, j);
            lemma_reading(states, wants, answers, plain, j + 1);
            assert(states[j].reads(wants[j], answers[j], states[j + 1]));
            lemma_read(states[j], wants[j], answers[j], states[j + 1]);
            assert(answers[j]->Some_0 =~= Seq::<u8>::empty());
        }
    }
    if n > plain.len() {
        lemma_reading(states, wants, answers, plain, n - 1);
        assert(states[n - 1].reads(wants[n - 1], answers[n - 1], states[n]));
        lemma_read(states[n - 1], wants[n - 1], answers[n - 1], states[n]);
        assert(answers[n - 1]->Some_0 =~= Seq::<u8>::empty());
    }
}

/// Reads the plaintext of an encrypted stream.
pub struct StreamDecryptReader<'a> {
    key: Vec<u8>,
    nonce: Vec<u8>,
    position: u32,
    cipher: &'a [u8],
    at: usize,
    plain_buf: Vec<u8>,
    plain_pos: usize,
}

impl<'a> View for StreamDecryptReader<'a> {
    type V = Decryption;

    closed spec fn view(&self) -> Decryption {
        Decryption {
            key: self.key@,
            nonce: self.nonce@,
            position: self.position,
            cipher: self.cipher@.skip(self.at as int),
            buffered: self.plain_buf@.skip(self.plain_pos as int),
        }
    }
}

impl<'a> StreamDecryptReader<'a> {
    /// The key and nonce have their lengths and the places are in range.
    pub closed spec fn wf(self) -> bool {
        &&& self.key@.len() == 32
        &&& self.nonce@.len() == STREAM_NONCE_LEN
        &&& self.at <= self.cipher@.len()
        &&& self.plain_pos <= self.plain_buf@.len()
    }

    /// A reader at the start of a stream. The stream's nonce is the start of the
    /// given one.
    pub fn new(password: &str, salt: &[u8], nonce: &[u8], cipher: &'a [u8]) -> (out: Result<
        StreamDecryptReader<'a>,
        Error,
    >)
        ensures
            match derived_key(password_bytes(password@), salt@) {
                Ok(key) => out is Ok && out->Ok_0.wf() && out->Ok_0@ == stream_start(
                    key,
                    nonce@,
                    cipher@,
                ),
                Err(e) => out is Err && out->Err_0@ == e,
            },
    {
        let key: Vec<u8> = derive_key(password, salt)?;
        let out = StreamDecryptReader {
            key,
            nonce: fix_nonce(nonce, STREAM_NONCE_LEN),
            position: 0,
            cipher,
            at: 0,
            plain_buf: Vec::new(),
            plain_pos: 0,
        };
        assert(out@.cipher =~= cipher@);
        assert(out@.buffered =~= Seq::<u8>::empty());
        Ok(out)
    }

    /// Decrypts the next segment.
    fn advance(&mut self) -> (out: Result<(), Error>)
        requires
            old(self).wf(),
            old(self)@.cipher.len() > 0,
        ensures
            final(self).wf(),
            final(self)@ == old(self)@.advanced(),
            match out {
                Ok(_) => old(self)@.next_plain() is Some && old(self)@.next_plain()->Some_0.len()
                    + TAG_SIZE == old(self)@.segment().len(),
                Err(e) => old(self)@.next_plain() is None && e@ == ErrorView::NotAuthentic,
            },
    {
        let total: usize = self.cipher.len();
        let last: bool = total - self.at < SEALED_CHUNK;
        let to: usize = if last {
            total
        } else {
            self.at + SEALED_CHUNK
        };
        let segment = vstd::slice::slice_subrange(self.cipher, self.at, to);
        assert(segment@ =~= old(self)@.segment());
        assert(self.cipher@.skip(to as int) =~= old(self)@.cipher.skip(segment@.len() as int));
        self.at = to;
        self.plain_buf = Vec::new();
        self.plain_pos = 0;
        assert(self@.buffered =~= Seq::<u8>::empty());
        if !last && self.position == u32::MAX {
            return Err(Fault::NotAuthentic);
        }
        match open_segment(
            self.key.as_slice(),
            self.nonce.as_slice(),
            self.position,
            last,
            segment,
        ) {
            None => Err(Fault::NotAuthentic),
            Some(plain) => {
                assert(plain@.skip(0) =~= plain@);
                self.plain_buf = plain;
                if !last {
                    self.position = self.position + 1;
                }
                Ok(())
            },
        }
    }

    /// Reads up to `want` bytes: of those that are decrypted, else of the next
    /// segment. At the end of the stream there are none.
    #[verifier::rlimit(40)]
    pub fn read(&mut self, want: usize) -> (out: Result<Vec<u8>, Error>)
        requires
            old(self).wf(),
        ensures
            final(self).wf(),
            old(self)@.reads(want as nat, answer_of(out), final(self)@),
            out matches Err(e) ==> e@ == ErrorView::NotAuthentic,
            match out {
                Ok(bytes) => old(self)@.left() == (
                    bytes@ + final(self)@.left().0,
                    final(self)@.left().1,
                ) && (bytes@.len() == 0 && want > 0 ==> old(self)@.left() == (
                    Seq::<u8>::empty(),
                    false,
                )),
                Err(_) => old(self)@.left() == (Seq::<u8>::empty(), true),
            },
    {
        let ghost before = self@;
        if self.plain_pos == self.plain_buf.len() && self.at < self.cipher.len() {
            match self.advance() {
                Ok(_) => {},
                Err(e) => {
                    proof {
                        lemma_read(before, want as nat, None, self@);
                    }
                    return Err(e);
                },
            }
        }
        let ghost ready = self@;
        let available: usize = self.plain_buf.len() - self.plain_pos;
        let n: usize = if want < available {
            want
        } else {
            available
        };
        let out: Vec<u8> = copy_range(
            self.plain_buf.as_slice(),
            self.plain_pos,
            self.plain_pos + n,
        );
        self.plain_pos = self.plain_pos + n;
        proof {
            assert(out@ =~= ready.taken(want as nat).0);
            assert(self@.buffered =~= ready.buffered.skip(n as int));
            assert(self@ =~= ready.taken(want as nat).1);
            lemma_read(before, want as nat, Some(out@), self@);
        }
        Ok(out)
    }

    /// Reads all that is left.
    pub fn read_to_end(&mut self) -> (out: Result<Vec<u8>, Error>)
        requires
            old(self).wf(),
        ensures
            final(self).wf(),
            match out {
                Ok(bytes) => old(self)@.left() == (bytes@, false),
                Err(e) => old(self)@.left().1 && e@ == ErrorView::NotAuthentic,
            },
    {
        let mut out: Vec<u8> = Vec::new();
        assert(old(self)@.left().0 =~= out@ + self@.left().0);
        loop
            invariant
                self.wf(),
                old(self)@.left().0 == out@ + self@.left().0,
                old(self)@.left().1 == self@.left().1,
            decreases self@.left().0.len(),
        {
            let ghost before = out@;
            let bytes: Vec<u8> = self.read(STREAM_CHUNK)?;
            if bytes.len() == 0 {
                assert(out@ + Seq::<u8>::empty() =~= out@);
                return Ok(out);
            }
            append(&mut out, bytes.as_slice());
            assert(before + (bytes@ + self@.left().0) =~= out@ + self@.left().0);
        }
    }

    /// Whether all segments are decrypted and read.
    pub fn at_end(&self) -> (out: bool)
        requires
            self.wf(),
        ensures
            out == (self@.buffered.len() == 0 && self@.cipher.len() == 0),
    {
        self.plain_pos == self.plain_buf.len() && self.at == self.cipher.len()
    }

    /// Wipes the key.
    pub fn close(self) {
        let mut key: Vec<u8> = self.key;
        wipe(&mut key);
    }
}

impl<'a> ByteSource for StreamDecryptReader<'a> {
    open spec fn rest(&self) -> Seq<u8> {
        self@.left().0
    }

    open spec fn broken(&self) -> bool {
        self@.left().1
    }

    open spec fn ready(&self) -> bool {
        self.wf()
    }

    fn read_exact(&mut self, n: usize) -> (out: Result<Vec<u8>, Error>) {
        let ghost all = self.rest();
        let mut out: Vec<u8> = Vec::new();
        assert(all =~= out@ + self.rest());
        while out.len() < n
            invariant
                self.wf(),
                all == old(self).rest(),
                all == out@ + self.rest(),
                self.broken() == old(self).broken(),
                out@.len() <= n,
            decreases n - out@.len(),
        {
            let ghost before = out@;
            let bytes: Vec<u8> = self.read(n - out.len())?;
            if bytes.len() == 0 {
                return Err(Fault::UnexpectedEof);
            }
            append(&mut out, bytes.as_slice());
            assert(before + (bytes@ + self.rest()) =~= out@ + self.rest());
        }
        assert(out@ =~= all.take(n as int));
        assert(self.rest() =~= all.skip(n as int));
        Ok(out)
    }
}

/// A message and what is needed to decrypt it.
pub struct CryptoOutput {
    pub ciphertext: Vec<u8>,
    pub salt: Vec<u8>,
    pub nonce: Vec<u8>,
    pub encrypted: bool,
}

/// The mathematical view of a message and what is needed to decrypt it.
#[verifier::ext_equal]
pub struct Sealed {
    pub ciphertext: Seq<u8>,
    pub salt: Seq<u8>,
    pub nonce: Seq<u8>,
    pub encrypted: bool,
}

impl View for CryptoOutput {
    type V = Sealed;

    open spec fn view(&self) -> Sealed {
        Sealed {
            ciphertext: self.ciphertext@,
            salt: self.salt@,
            nonce: self.nonce@,
            encrypted: self.encrypted,
        }
    }
}

/// The text of an optional password.
pub open spec fn text_of(password: Option<&str>) -> Option<Seq<char>> {
    match password {
        Some(text) => Some(text@),
        None => None,
    }
}

/// A message encrypted with a password, a salt and a nonce, or why it is not.
pub open spec fn sealed_payload(
    password: Seq<char>,
    salt: Seq<u8>,
    nonce: Seq<u8>,
    plain: Seq<u8>,
) -> Result<Sealed, ErrorView> {
    match derived_key(password_bytes(password), salt) {
        Err(e) => Err(e),
        Ok(key) => if plain.len() > MAX_MESSAGE {
            Err(Fault::Aead)
        } else {
            Ok(
                Sealed {
                    ciphertext: sealed_message(key, nonce, plain),
                    salt,
                    nonce,
                    encrypted: true,
                },
            )
        },
    }
}

/// A decrypted message, or why it is not.
pub open spec fn opened_payload(
    password: Option<Seq<char>>,
    salt: Seq<u8>,
    nonce: Seq<u8>,
    cipher: Seq<u8>,
    encrypted: bool,
) -> Result<Seq<u8>, ErrorView> {
    if !encrypted {
        Ok(cipher)
    } else {
        match password {
            None => Err(Fault::PasswordRequired),
            Some(text) => match derived_key(password_bytes(text), salt) {
                Err(e) => Err(e),
                Ok(key) => if cipher.len() > MAX_MESSAGE + TAG_SIZE {
                    Err(Fault::Aead)
                } else {
                    match opened_message(key, nonce, cipher) {
                        Some(plain) => Ok(plain),
                        None => Err(Fault::Aead),
                    }
                },
            },
        }
    }
}

/// Encrypts a message with a password, a salt and a nonce of twelve bytes. What
/// it gives decrypts to the message.
pub fn encrypt_payload_with(
    password: &str,
    salt: Vec<u8>,
    nonce: Vec<u8>,
    plaintext: &[u8],
) -> (out: Result<CryptoOutput, Error>)
    requires
        nonce@.len() == 12,
    ensures
        outcome(out) == sealed_payload(password@, salt@, nonce@, plaintext@),
        out matches Ok(o) ==> opened_payload(
            Some(password@),
            o.salt@,
            o.nonce@,
            o.ciphertext@,
            o.encrypted,
        ) == Ok::<Seq<u8>, ErrorView>(plaintext@),
{
    let mut key: Vec<u8> = derive_key(password, salt.as_slice())?;
    if plaintext.len() as u64 > MAX_MESSAGE {
        wipe(&mut key);
        return Err(Fault::Aead);
    }
    let ciphertext: Vec<u8> = seal_message(key.as_slice(), nonce.as_slice(), plaintext);
    wipe(&mut key);
    Ok(CryptoOutput { ciphertext, salt, nonce, encrypted: true })
}

/// Encrypts a message where there is a password, with a new salt and nonce. What
/// it gives decrypts to the message.
pub fn encrypt_payload(password: Option<&str>, plaintext: &[u8]) -> (out: Result<
    CryptoOutput,
    Error,
>)
    ensures
        password is None ==> outcome(out) == Ok::<Sealed, ErrorView>(
            Sealed {
                ciphertext: plaintext@,
                salt: Seq::empty(),
                nonce: Seq::empty(),
                encrypted: false,
            },
        ),
        password matches Some(pw) ==> match out {
            Ok(o) => o.salt@.len() == SALT_LEN && o.nonce@.len() == 12 && sealed_payload(
                pw@,
                o.salt@,
                o.nonce@,
                plaintext@,
            ) == Ok::<Sealed, ErrorView>(o@),
            Err(e) => forall|salt: Seq<u8>, nonce: Seq<u8>|
                salt.len() == SALT_LEN ==> #[trigger] sealed_payload(pw@, salt, nonce, plaintext@)
                    == Err::<Sealed, ErrorView>(e@),
        },
        out matches Ok(o) ==> opened_payload(
            text_of(password),
            o.salt@,
            o.nonce@,
            o.ciphertext@,
            o.encrypted,
        ) == Ok::<Seq<u8>, ErrorView>(plaintext@),
{
    match password {
        Some(pw) => {
            let salt: Vec<u8> = generate_salt();
            let nonce: Vec<u8> = random_bytes(12);
            encrypt_payload_with(pw, salt, nonce, plaintext)
        },
        None => {
            let out = CryptoOutput {
                ciphertext: copy_range(plaintext, 0, plaintext.len()),
                salt: Vec::new(),
                nonce: Vec::new(),
                encrypted: false,
            };
            assert(out.ciphertext@ =~= plaintext@);
            Ok(out)
        },
    }
}

/// Decrypts a message that is marked as encrypted.
pub fn decrypt_payload(
    password: Option<&str>,
    salt: &[u8],
    nonce: &[u8],
    ciphertext: &[u8],
    encrypted_flag: bool,
) -> (out: Result<Vec<u8>, Error>)
    requires
        encrypted_flag && password is Some && kdf_refusal(
            password_bytes(password->Some_0@).len(),
            salt@.len(),
        ) is None ==> nonce@.len() == 12,
    ensures
        outcome(out) == opened_payload(
            text_of(password),
            salt@,
            nonce@,
            ciphertext@,
            encrypted_flag,
        ),
{
    if !encrypted_flag {
        let out: Vec<u8> = copy_range(ciphertext, 0, ciphertext.len());
        assert(out@ =~= ciphertext@);
        return Ok(out);
    }
    match password {
        None => Err(Fault::PasswordRequired),
        Some(pw) => {
            let mut key: Vec<u8> = derive_key(pw, salt)?;
            if ciphertext.len() as u64 > MAX_MESSAGE + TAG_SIZE as u64 {
                wipe(&mut key);
                return Err(Fault::Aead);
            }
            let out = open_message(key.as_slice(), nonce, ciphertext);
            wipe(&mut key);
            match out {
                Some(plain) => Ok(plain),
                None => Err(Fault::Aead),
            }
        },
    }
}

/// A stream and what is needed to decrypt it.
pub struct CryptoStreamOutput {
    pub data: Vec<u8>,
    pub salt: Vec<u8>,
    pub nonce: Vec<u8>,
    pub encrypted: bool,
    pub cipher_len: usize,
    pub plain_len: usize,
}

/// The mathematical view of a stream and what is needed to decrypt it.
#[verifier::ext_equal]
pub struct SealedStream {
    pub data: Seq<u8>,
    pub salt: Seq<u8>,
    pub nonce: Seq<u8>,
    pub encrypted: bool,
    pub cipher_len: usize,
    pub plain_len: usize,
}

impl View for CryptoStreamOutput {
    type V = SealedStream;

    open spec fn view(&self) -> SealedStream {
        SealedStream {
            data: self.data@,
            salt: self.salt@,
            nonce: self.nonce@,
            encrypted: self.encrypted,
            cipher_len: self.cipher_len,
            plain_len: self.plain_len,
        }
    }
}

/// A payload encrypted as a stream with a password, a salt and the seven bytes of
/// a stream's nonce, or why it is not.
pub open spec fn sealed_payload_stream(
    password: Seq<char>,
    salt: Seq<u8>,
    nonce: Seq<u8>,
    plain: Seq<u8>,
) -> Result<SealedStream, ErrorView> {
    match derived_key(password_bytes(password), salt) {
        Err(e) => Err(e),
        Ok(key) => match sealed_stream(key, nonce, 0, plain) {
            None => Err(Fault::Aead),
            Some(data) => Ok(
                SealedStream {
                    data,
                    salt,
                    nonce: fixed_nonce(nonce, 12),
                    encrypted: true,
                    cipher_len: data.len() as usize,
                    plain_len: plain.len() as usize,
                },
            ),
        },
    }
}

/// The plaintext of a stream and whether it breaks off, or why there is no key.
pub open spec fn opened_payload_stream(
    password: Option<Seq<char>>,
    salt: Seq<u8>,
    nonce: Seq<u8>,
    cipher: Seq<u8>,
    encrypted: bool,
) -> Result<(Seq<u8>, bool), ErrorView> {
    if !encrypted {
        Ok((cipher, false))
    } else {
        match password {
            None => Err(Fault::PasswordRequired),
            Some(text) => match derived_key(password_bytes(text), salt) {
                Err(e) => Err(e),
                Ok(key) => Ok(
                    opened_stream(key, fixed_nonce(nonce, STREAM_NONCE_LEN as nat), 0, cipher),
                ),
            },
        }
    }
}

/// The output is a stream of the right lengths that decrypts to `plain`.
pub open spec fn decrypts_to(
    out: SealedStream,
    password: Option<Seq<char>>,
    plain: Seq<u8>,
) -> bool {
    &&& out.encrypted == (password is Some)
    &&& out.salt.len() <= 255
    &&& out.cipher_len == out.data.len()
    &&& out.plain_len == plain.len()
    &&& out.data.len() == (if out.encrypted {
        stream_len(plain.len())
    } else {
        plain.len()
    })
    &&& out.salt.len() == (if out.encrypted {
        SALT_LEN as nat
    } else {
        0
    })
    &&& out.nonce.len() == (if out.encrypted {
        12 as nat
    } else {
        0
    })
    &&& opened_payload_stream(
        password,
        out.salt,
        fixed_nonce(out.nonce, 12),
        out.data,
        out.encrypted,
    ) == Ok::<(Seq<u8>, bool), ErrorView>((plain, false))
}

/// Reading a payload that was encrypted as a stream, with its password, its salt and
/// nonce and requests of at least one byte, gives the payload: no read fails, an
/// empty answer comes only when all of it was read, every later answer is empty too,
/// and it comes after no more requests than the payload has bytes.
pub proof fn law_sealed_stream_reads_back(
    sealed: SealedStream,
    password: Seq<char>,
    plain: Seq<u8>,
    states: Seq<Decryption>,
    wants: Seq<nat>,
    answers: Seq<Option<Seq<u8>>>,
)
    requires
        decrypts_to(sealed, Some(password), plain),
        is_reading(states, wants, answers),
        forall|i: int| 0 <= i < wants.len() ==> #[trigger] wants[i] > 0,
        derived_key(password_bytes(password), sealed.salt) matches Ok(key) && states[0]
            == stream_start(key, sealed.nonce, sealed.data),
    ensures
        forall|i: int| 0 <= i < answers.len() ==> (#[trigger] answers[i]) is Some,
        forall|i: int|
            0 <= i < answers.len() && (#[trigger] answers[i]) == Some(Seq::<u8>::empty())
                ==> all_read(answers.take(i)) == plain,
        forall|i: int, j: int|
            0 <= i <= j < answers.len() && (#[trigger] answers[i]) == Some(Seq::<u8>::empty())
                ==> #[trigger] answers[j] == Some(Seq::<u8>::empty()),
        answers.len() > plain.len() ==> answers.last() == Some(Seq::<u8>::empty())
            && all_read(answers) == plain,
{
    assert(fixed_nonce(fixed_nonce(sealed.nonce, 12), STREAM_NONCE_LEN as nat) =~= fixed_nonce(
        sealed.nonce,
        STREAM_NONCE_LEN as nat,
    ));
    assert(states[0].left().0 =~= plain);
    law_reading_to_the_end(states, wants, answers, plain);
    if answers.len() > plain.len() {
        assert(answers[answers.len() - 1] == Some(Seq::<u8>::empty()));
    }
}

/// Whether the cipher refuses the first segment of a stream under the key that the
/// password gives.
pub open spec fn refuses(
    password: Seq<char>,
    salt: Seq<u8>,
    nonce: Seq<u8>,
    cipher: Seq<u8>,
) -> bool {
    &&& cipher.len() > 0
    &&& derived_key(password_bytes(password), salt) matches Ok(key) && stream_start(
        key,
        nonce,
        cipher,
    ).next_plain() is None
}

/// Of a stream whose first segment is refused nothing is read.
pub proof fn lemma_refused(password: Seq<char>, salt: Seq<u8>, nonce: Seq<u8>, cipher: Seq<u8>)
    requires
        refuses(password, salt, nonce, cipher),
    ensures
        opened_payload_stream(Some(password), salt, nonce, cipher, true) == Ok::<
            (Seq<u8>, bool),
            ErrorView,
        >((Seq::empty(), true)),
{
}

/// Encrypts a payload as a stream with a password, a generated salt and the seven
/// bytes of a stream's nonce, and reports in these units. What it gives decrypts to
/// the payload.
fn seal_payload_with<P: ProgressSink>(
    password: &str,
    salt: Vec<u8>,
    nonce: &[u8],
    payload: &[u8],
    scale: Scale,
    progress: &mut P,
) -> (out: Result<CryptoStreamOutput, Error>)
    requires
        salt@.len() == SALT_LEN,
        nonce@.len() == STREAM_NONCE_LEN,
    ensures
        outcome(out) == sealed_payload_stream(password@, salt@, nonce@, payload@),
        match seal_refusal(Some(password@), payload@.len()) {
            Some(e) => outcome(out) == Err::<SealedStream, ErrorView>(e),
            None => out is Ok,
        },
        out matches Ok(o) ==> decrypts_to(o@, Some(password@), payload@),
        out is Ok ==> told_all(
            *old(progress),
            all_scaled(scale, segments_log(payload@.len())),
            *final(progress),
        ),
        only_told(*old(progress), *final(progress)),
{
    proof {
        lemma_nothing_told(*progress);
    }
    let mut key: Vec<u8> = derive_key(password, salt.as_slice())?;
    proof {
        lemma_countable_stream(key@, nonce@, 0, payload@);
    }
    let sealed = seal_stream(key.as_slice(), nonce, payload, scale, progress);
    wipe(&mut key);
    let data: Vec<u8> = sealed?;
    let nonce_field: Vec<u8> = fix_nonce(nonce, 12);
    proof {
        assert(fixed_nonce(fixed_nonce(nonce_field@, 12), STREAM_NONCE_LEN as nat) =~= nonce@);
    }
    let cipher_len: usize = data.len();
    Ok(
        CryptoStreamOutput {
            data,
            salt,
            nonce: nonce_field,
            encrypted: true,
            cipher_len,
            plain_len: payload.len(),
        },
    )
}

/// Encrypts a payload as a stream with a password, a generated salt and the seven
/// bytes of a stream's nonce. What it gives decrypts to the payload. It reports how
/// many bytes are encrypted, until all are.
pub fn encrypt_payload_stream_with<P: ProgressSink>(
    password: &str,
    salt: Vec<u8>,
    nonce: &[u8],
    payload: &[u8],
    progress: &mut P,
) -> (out: Result<CryptoStreamOutput, Error>)
    requires
        salt@.len() == SALT_LEN,
        nonce@.len() == STREAM_NONCE_LEN,
    ensures
        outcome(out) == sealed_payload_stream(password@, salt@, nonce@, payload@),
        match seal_refusal(Some(password@), payload@.len()) {
            Some(e) => outcome(out) == Err::<SealedStream, ErrorView>(e),
            None => out is Ok,
        },
        out matches Ok(o) ==> decrypts_to(o@, Some(password@), payload@),
        out is Ok ==> told_all(
            *old(progress),
            stream_log(payload@.len()),
            *final(progress),
        ),
        only_told(*old(progress), *final(progress)),
{
    let out = seal_payload_with(password, salt, nonce, payload, Scale::Own, progress);
    if out.is_ok() {
        report_last_segment(payload.len(), progress, Ghost(*old(progress)));
    }
    out
}

/// Reports the last segment of a stream where it is not empty, then that all bytes
/// are encrypted.
fn report_last_segment<P: ProgressSink>(len: usize, progress: &mut P, Ghost(start): Ghost<P>)
    requires
        told_all(start, all_scaled(Scale::Own, segments_log(len as nat)), *old(progress)),
    ensures
        told_all(start, stream_log(len as nat), *final(progress)),
{
    let r = Report { phase: ProgressPhase::Encrypt, done: len as u64, total: len as u64 };
    let ghost mut log = segments_log(len as nat);
    let ghost whole = len as nat / STREAM_CHUNK as nat;
    if len % STREAM_CHUNK != 0 {
        tell(progress, Scale::Own, r, Ghost(start), Ghost(log));
        proof {
            lemma_whole_segments(len as nat, whole);
            lemma_pieces_push(
                ProgressPhase::Encrypt,
                STREAM_CHUNK as nat,
                whole,
                whole * STREAM_CHUNK as nat,
                len as nat,
                len as u64,
            );
            log = log.push(r);
        }
    }
    tell(progress, Scale::Own, r, Ghost(start), Ghost(log));
    proof {
        lemma_own(log.push(r));
        assert(log.push(r) =~= stream_log(len as nat));
    }
}

/// What putting a payload into a stream reports, in these units: with a password the
/// segments that are full, and nothing without one.
pub open spec fn sealing_log(scale: Scale, encrypted: bool, len: nat) -> Seq<Report> {
    if encrypted {
        all_scaled(scale, segments_log(len))
    } else {
        Seq::empty()
    }
}

/// Encrypts a payload as a stream where there is a password, with a new salt and
/// nonce, and reports in these units. What it gives decrypts to the payload.
pub(crate) fn seal_payload<P: ProgressSink>(
    password: Option<&str>,
    payload: Vec<u8>,
    scale: Scale,
    progress: &mut P,
) -> (out: Result<CryptoStreamOutput, Error>)
    ensures
        password is None ==> outcome(out) == Ok::<SealedStream, ErrorView>(
            SealedStream {
                data: payload@,
                salt: Seq::empty(),
                nonce: Seq::empty(),
                encrypted: false,
                cipher_len: payload@.len() as usize,
                plain_len: payload@.len() as usize,
            },
        ),
        (password is Some && out is Ok) ==> out->Ok_0.nonce@.len() == 12 && sealed_payload_stream(
            password->Some_0@,
            out->Ok_0.salt@,
            out->Ok_0.nonce@.take(STREAM_NONCE_LEN as int),
            payload@,
        ) == Ok::<SealedStream, ErrorView>(out->Ok_0@),
        match seal_refusal(text_of(password), payload@.len()) {
            Some(e) => outcome(out) == Err::<SealedStream, ErrorView>(e),
            None => out is Ok,
        },
        out matches Ok(o) ==> decrypts_to(o@, text_of(password), payload@),
        out is Ok ==> told_all(
            *old(progress),
            sealing_log(scale, password is Some, payload@.len()),
            *final(progress),
        ),
        only_told(*old(progress), *final(progress)),
{
    proof {
        lemma_nothing_told(*progress);
    }
    match password {
        Some(pw) => {
            let salt: Vec<u8> = generate_salt();
            let nonce: Vec<u8> = random_bytes(STREAM_NONCE_LEN);
            let out = seal_payload_with(
                pw,
                salt,
                nonce.as_slice(),
                payload.as_slice(),
                scale,
                progress,
            );
            assert(fixed_nonce(nonce@, 12).take(STREAM_NONCE_LEN as int) =~= nonce@);
            out
        },
        None => {
            let len: usize = payload.len();
            Ok(
                CryptoStreamOutput {
                    data: payload,
                    salt: Vec::new(),
                    nonce: Vec::new(),
                    encrypted: false,
                    cipher_len: len,
                    plain_len: len,
                },
            )
        },
    }
}

/// Encrypts a payload as a stream where there is a password, with a new salt and
/// nonce. What it gives decrypts to the payload. Where there is a password it reports
/// how many bytes are encrypted, until all are; else it reports nothing.
pub fn encrypt_payload_stream<P: ProgressSink>(
    password: Option<&str>,
    payload: Vec<u8>,
    progress: &mut P,
) -> (out: Result<CryptoStreamOutput, Error>)
    ensures
        password is None ==> outcome(out) == Ok::<SealedStream, ErrorView>(
            SealedStream {
                data: payload@,
                salt: Seq::empty(),
                nonce: Seq::empty(),
                encrypted: false,
                cipher_len: payload@.len() as usize,
                plain_len: payload@.len() as usize,
            },
        ),
        (password is Some && out is Ok) ==> out->Ok_0.nonce@.len() == 12 && sealed_payload_stream(
            password->Some_0@,
            out->Ok_0.salt@,
            out->Ok_0.nonce@.take(STREAM_NONCE_LEN as int),
            payload@,
        ) == Ok::<SealedStream, ErrorView>(out->Ok_0@),
        match seal_refusal(text_of(password), payload@.len()) {
            Some(e) => outcome(out) == Err::<SealedStream, ErrorView>(e),
            None => out is Ok,
        },
        out matches Ok(o) ==> decrypts_to(o@, text_of(password), payload@),
        password is None ==> *final(progress) == *old(progress),
        (password is Some && out is Ok) ==> told_all(
            *old(progress),
            stream_log(payload@.len()),
            *final(progress),
        ),
        only_told(*old(progress), *final(progress)),
{
    let len: usize = payload.len();
    let out = seal_payload(password, payload, Scale::Own, progress);
    if password.is_some() && out.is_ok() {
        report_last_segment(len, progress, Ghost(*old(progress)));
    }
    out
}

/// A password and a salt give the key that Argon2id derives from all of the password's
/// bytes and all of the salt's. Only their lengths are refused.
pub proof fn law_key_takes_all_of_the_password(password: Seq<char>, salt: Seq<u8>)
    ensures
        password_bytes(password) == encode_utf8(password),
        ({
            let out = derived_key(encode_utf8(password), salt);
            if encode_utf8(password).len() > 4_294_967_295 {
                out == Err::<Seq<u8>, ErrorView>(
                    Fault::KeyDerivation { text: "password is too long"@ },
                )
            } else if salt.len() < 8 {
                out == Err::<Seq<u8>, ErrorView>(
                    Fault::KeyDerivation { text: "salt is too short"@ },
                )
            } else if salt.len() > 4_294_967_295 {
                out == Err::<Seq<u8>, ErrorView>(
                    Fault::KeyDerivation { text: "salt is too long"@ },
                )
            } else {
                out == Ok::<Seq<u8>, ErrorView>(argon2_key(encode_utf8(password), salt))
            }
        }),
{
}

/// A password that is given is the password, whatever it is.
pub proof fn law_password_is_handed_on(password: &str)
    ensures
        text_of(Some(password)) == Some(password@),
        text_of(None) is None,
{
}

/// Segment `i` of a ciphertext: 4194320 bytes, or what is left of it.
spec fn segment_at(cipher: Seq<u8>, i: int) -> Seq<u8> {
    cipher.subrange(
        4_194_320 * i,
        if 4_194_320 * (i + 1) < cipher.len() {
            4_194_320 * (i + 1)
        } else {
            cipher.len() as int
        },
    )
}

/// The segments of a stream, from one on.
proof fn lemma_stream_pieces(key: Seq<u8>, nonce: Seq<u8>, position: nat, cipher: Seq<u8>) -> (pieces:
    Seq<Seq<u8>>)
    requires
        !opened_stream(key, nonce, position, cipher).1,
        position <= u32::MAX,
    ensures
        pieces.len() == (cipher.len() + 4_194_319) / 4_194_320,
        position + cipher.len() / 4_194_320 <= u32::MAX,
        pieces.flatten() == opened_stream(key, nonce, position, cipher).0,
        forall|i: int|
            #![trigger pieces[i]]
            0 <= i < pieces.len() ==> opened_segment(
                key,
                nonce,
                (position + i) as u32,
                cipher.len() < 4_194_320 * (i + 1),
                segment_at(cipher, i),
            ) == Some(pieces[i]),
    decreases cipher.len(),
{
    if cipher.len() == 0 {
        Seq::empty()
    } else if cipher.len() < SEALED_CHUNK {
        let plain = opened_segment(key, nonce, position as u32, true, cipher)->Some_0;
        assert(segment_at(cipher, 0) =~= cipher);
        let pieces = seq![plain];
        assert(pieces.drop_first() =~= Seq::<Seq<u8>>::empty());
        assert(plain + Seq::<u8>::empty() =~= plain);
        reveal_with_fuel(Seq::flatten, 2);
        pieces
    } else {
        let plain = opened_segment(
            key,
            nonce,
            position as u32,
            false,
            cipher.take(SEALED_CHUNK as int),
        )->Some_0;
        let rest = cipher.skip(SEALED_CHUNK as int);
        let others = lemma_stream_pieces(key, nonce, position + 1, rest);
        let pieces = seq![plain] + others;
        assert(segment_at(cipher, 0) =~= cipher.take(SEALED_CHUNK as int));
        assert(pieces.drop_first() =~= others);
        assert forall|i: int|
            #![trigger pieces[i]]
            0 <= i < pieces.len() implies opened_segment(
            key,
            nonce,
            (position + i) as u32,
            cipher.len() < 4_194_320 * (i + 1),
            segment_at(cipher, i),
        ) == Some(pieces[i]) by {
            if i > 0 {
                assert(others[i - 1] == pieces[i]);
                assert(segment_at(rest, i - 1) =~= segment_at(cipher, i));
            }
        }
        pieces
    }
}

/// A stream that is read without a fault is authentic from its first byte to its last:
/// it is cut into segments of 4194320 bytes, of which the last may be shorter, each
/// opens under the key, the nonce and its number, and what is read is what they open
/// to, one after the other.
pub proof fn law_read_stream_is_authentic(
    password: Seq<char>,
    salt: Seq<u8>,
    nonce: Seq<u8>,
    cipher: Seq<u8>,
    plain: Seq<u8>,
) -> (pieces: Seq<Seq<u8>>)
    requires
        nonce.len() >= 7,
        opened_payload_stream(Some(password), salt, nonce, cipher, true) == Ok::<
            (Seq<u8>, bool),
            ErrorView,
        >((plain, false)),
    ensures
        pieces.len() == (cipher.len() + 4_194_319) / 4_194_320,
        plain == pieces.flatten(),
        forall|i: int|
            #![trigger pieces[i]]
            0 <= i < pieces.len() ==> opened_segment(
                argon2_key(encode_utf8(password), salt),
                nonce.take(7),
                i as u32,
                cipher.len() < 4_194_320 * (i + 1),
                cipher.subrange(
                    4_194_320 * i,
                    if 4_194_320 * (i + 1) < cipher.len() {
                        4_194_320 * (i + 1)
                    } else {
                        cipher.len() as int
                    },
                ),
            ) == Some(pieces[i]),
{
    assert(fixed_nonce(nonce, 7) =~= nonce.take(7));
    lemma_stream_pieces(argon2_key(encode_utf8(password), salt), nonce.take(7), 0, cipher)
}

/// The segments of a stream that open, from one on.
proof fn lemma_pieces_are_read(
    key: Seq<u8>,
    nonce: Seq<u8>,
    position: nat,
    cipher: Seq<u8>,
    pieces: Seq<Seq<u8>>,
)
    requires
        position + cipher.len() / 4_194_320 <= u32::MAX,
        pieces.len() == (cipher.len() + 4_194_319) / 4_194_320,
        forall|i: int|
            #![trigger pieces[i]]
            0 <= i < pieces.len() ==> opened_segment(
                key,
                nonce,
                (position + i) as u32,
                cipher.len() < 4_194_320 * (i + 1),
                segment_at(cipher, i),
            ) == Some(pieces[i]),
    ensures
        opened_stream(key, nonce, position, cipher) == (pieces.flatten(), false),
    decreases cipher.len(),
{
    if cipher.len() == 0 {
        assert(pieces =~= Seq::<Seq<u8>>::empty());
    } else if cipher.len() < SEALED_CHUNK {
        assert(segment_at(cipher, 0) =~= cipher);
        assert(pieces[0] == pieces[0]);
        assert(pieces.drop_first() =~= Seq::<Seq<u8>>::empty());
        assert(pieces[0] + Seq::<u8>::empty() =~= pieces[0]);
        reveal_with_fuel(Seq::flatten, 2);
    } else {
        let rest = cipher.skip(SEALED_CHUNK as int);
        let others = pieces.drop_first();
        assert(segment_at(cipher, 0) =~= cipher.take(SEALED_CHUNK as int));
        assert(pieces[0] == pieces[0]);
        assert forall|i: int|
            #![trigger others[i]]
            0 <= i < others.len() implies opened_segment(
            key,
            nonce,
            (position + 1 + i) as u32,
            rest.len() < 4_194_320 * (i + 1),
            segment_at(rest, i),
        ) == Some(others[i]) by {
            assert(pieces[i + 1] == others[i]);
            assert(segment_at(rest, i) =~= segment_at(cipher, i + 1));
        }
        lemma_pieces_are_read(key, nonce, position + 1, rest, others);
    }
}

/// A stream of which every segment is authentic is read: what its segments open to, one
/// after the other, without a fault.
pub proof fn law_authentic_stream_is_read(
    password: Seq<char>,
    salt: Seq<u8>,
    nonce: Seq<u8>,
    cipher: Seq<u8>,
    pieces: Seq<Seq<u8>>,
)
    requires
        encode_utf8(password).len() <= 4_294_967_295,
        8 <= salt.len() <= 4_294_967_295,
        nonce.len() >= 7,
        cipher.len() / 4_194_320 <= 4_294_967_295,
        pieces.len() == (cipher.len() + 4_194_319) / 4_194_320,
        forall|i: int|
            #![trigger pieces[i]]
            0 <= i < pieces.len() ==> opened_segment(
                argon2_key(encode_utf8(password), salt),
                nonce.take(7),
                i as u32,
                cipher.len() < 4_194_320 * (i + 1),
                cipher.subrange(
                    4_194_320 * i,
                    if 4_194_320 * (i + 1) < cipher.len() {
                        4_194_320 * (i + 1)
                    } else {
                        cipher.len() as int
                    },
                ),
            ) == Some(pieces[i]),
    ensures
        opened_payload_stream(Some(password), salt, nonce, cipher, true) == Ok::<
            (Seq<u8>, bool),
            ErrorView,
        >((pieces.flatten(), false)),
{
    assert(fixed_nonce(nonce, 7) =~= nonce.take(7));
    lemma_pieces_are_read(
        argon2_key(encode_utf8(password), salt),
        nonce.take(7),
        0,
        cipher,
        pieces,
    );
}

/// What is not encrypted is read as it is, whatever the password; what is encrypted is
/// not read without one.
pub proof fn law_plain_streams_need_no_password(
    password: Option<Seq<char>>,
    salt: Seq<u8>,
    nonce: Seq<u8>,
    data: Seq<u8>,
)
    ensures
        opened_payload_stream(password, salt, nonce, data, false) == Ok::<
            (Seq<u8>, bool),
            ErrorView,
        >((data, false)),
        opened_payload_stream(None, salt, nonce, data, true) == Err::<(Seq<u8>, bool), ErrorView>(
            Fault::PasswordRequired,
        ),
        password matches Some(text) ==> (derived_key(encode_utf8(text), salt) matches Err(e)
            ==> opened_payload_stream(password, salt, nonce, data, true) == Err::<
            (Seq<u8>, bool),
            ErrorView,
        >(e)),
{
}

/// With a password a payload is encrypted with a salt of 22 bytes and a nonce of 12, and
/// takes 16 bytes more for each 4194304 and for the end; without one it stays as it is.
pub proof fn law_sealed_stream(out: SealedStream, password: Option<Seq<char>>, plain: Seq<u8>)
    requires
        decrypts_to(out, password, plain),
    ensures
        out.encrypted == (password is Some),
        out.plain_len == plain.len(),
        out.cipher_len == out.data.len(),
        password is Some ==> out.salt.len() == 22 && out.nonce.len() == 12 && out.data.len()
            == plain.len() + 16 * (plain.len() / 4_194_304 + 1),
        password is None ==> out.salt.len() == 0 && out.nonce.len() == 0 && out.data == plain,
        password matches Some(text) ==> opened_payload_stream(
            password,
            out.salt,
            out.nonce,
            out.data,
            true,
        ) == Ok::<(Seq<u8>, bool), ErrorView>((plain, false)),
{
    assert(fixed_nonce(fixed_nonce(out.nonce, 12), 7) =~= fixed_nonce(out.nonce, 7));
    assert((plain.len() / 4_194_304 + 1) * 16 == 16 * (plain.len() / 4_194_304 + 1));
}

/// A payload is refused for encryption only where its password is longer than
/// 4294967295 bytes, or where it has more full segments than 32 bits count.
pub proof fn law_what_can_be_encrypted(password: Option<Seq<char>>, len: nat)
    ensures
        password is None ==> seal_refusal(password, len) is None,
        password matches Some(text) ==> {
            let out = seal_refusal(password, len);
            if encode_utf8(text).len() > 4_294_967_295 {
                out == Some::<ErrorView>(Fault::KeyDerivation { text: "password is too long"@ })
            } else if len >= 4_294_967_296 * 4_194_304 {
                out == Some::<ErrorView>(Fault::Aead)
            } else {
                out is None
            }
        },
{
}

/// The chunks of a payload from one on, encrypted.
proof fn lemma_sealed_pieces(key: Seq<u8>, nonce: Seq<u8>, position: nat, plain: Seq<u8>)
    requires
        sealed_stream(key, nonce, position, plain) is Some,
        position <= u32::MAX,
    ensures
        sealed_stream(key, nonce, position, plain)->Some_0 == Seq::new(
            (plain.len() / 4_194_304 + 1) as nat,
            |i: int|
                sealed_segment(
                    key,
                    nonce,
                    (position + i) as u32,
                    plain.len() < 4_194_304 * (i + 1),
                    chunk_at(plain, i),
                ),
        ).flatten(),
    decreases plain.len(),
{
    let pieces = Seq::new(
        (plain.len() / 4_194_304 + 1) as nat,
        |i: int|
            sealed_segment(
                key,
                nonce,
                (position + i) as u32,
                plain.len() < 4_194_304 * (i + 1),
                chunk_at(plain, i),
            ),
    );
    if plain.len() < STREAM_CHUNK {
        assert(chunk_at(plain, 0) =~= plain);
        assert(pieces.drop_first() =~= Seq::<Seq<u8>>::empty());
        assert(pieces[0] + Seq::<u8>::empty() =~= pieces[0]);
        reveal_with_fuel(Seq::flatten, 2);
    } else {
        let rest = plain.skip(STREAM_CHUNK as int);
        lemma_sealed_pieces(key, nonce, position + 1, rest);
        let others = Seq::new(
            (rest.len() / 4_194_304 + 1) as nat,
            |i: int|
                sealed_segment(
                    key,
                    nonce,
                    (position + 1 + i) as u32,
                    rest.len() < 4_194_304 * (i + 1),
                    chunk_at(rest, i),
                ),
        );
        assert(chunk_at(plain, 0) =~= plain.take(STREAM_CHUNK as int));
        assert forall|i: int| 0 <= i < others.len() implies others[i] == pieces[i + 1] by {
            assert(chunk_at(rest, i) =~= chunk_at(plain, i + 1));
        }
        assert(pieces.drop_first() =~= others);
    }
}

/// Chunk `i` of a payload: 4194304 bytes, or what is left of it.
spec fn chunk_at(plain: Seq<u8>, i: int) -> Seq<u8> {
    plain.subrange(
        4_194_304 * i,
        if 4_194_304 * (i + 1) < plain.len() {
            4_194_304 * (i + 1)
        } else {
            plain.len() as int
        },
    )
}

/// A payload is encrypted chunk by chunk: each 4194304 bytes, and what is left of them,
/// go through the cipher with the key of the password, the nonce and their number.
pub proof fn law_all_of_a_payload_is_encrypted(
    password: Seq<char>,
    salt: Seq<u8>,
    nonce: Seq<u8>,
    plain: Seq<u8>,
)
    requires
        nonce.len() == 7,
        sealed_payload_stream(password, salt, nonce, plain) is Ok,
    ensures
        ({
            let out = sealed_payload_stream(password, salt, nonce, plain)->Ok_0;
            &&& out.encrypted
            &&& out.salt == salt
            &&& out.nonce.take(7) == nonce
            &&& out.data == Seq::new(
                (plain.len() / 4_194_304 + 1) as nat,
                |i: int|
                    sealed_segment(
                        argon2_key(encode_utf8(password), salt),
                        nonce,
                        i as u32,
                        plain.len() < 4_194_304 * (i + 1),
                        plain.subrange(
                            4_194_304 * i,
                            if 4_194_304 * (i + 1) < plain.len() {
                                4_194_304 * (i + 1)
                            } else {
                                plain.len() as int
                            },
                        ),
                    ),
            ).flatten()
        }),
{
    let key = argon2_key(encode_utf8(password), salt);
    lemma_sealed_pieces(key, nonce, 0, plain);
    assert(fixed_nonce(nonce, 12).take(7) =~= nonce);
    let pieces = Seq::new(
        (plain.len() / 4_194_304 + 1) as nat,
        |i: int|
            sealed_segment(
                key,
                nonce,
                i as u32,
                plain.len() < 4_194_304 * (i + 1),
                plain.subrange(
                    4_194_304 * i,
                    if 4_194_304 * (i + 1) < plain.len() {
                        4_194_304 * (i + 1)
                    } else {
                        plain.len() as int
                    },
                ),
            ),
    );
    assert(pieces =~= Seq::new(
        (plain.len() / 4_194_304 + 1) as nat,
        |i: int|
            sealed_segment(
                key,
                nonce,
                (0 + i) as u32,
                plain.len() < 4_194_304 * (i + 1),
                chunk_at(plain, i),
            ),
    ));
}

/// A message of up to 274877906816 bytes is encrypted whole with the key of its
/// password, and a ciphertext is read exactly where the cipher takes it under that key.
pub proof fn law_messages(
    password: Seq<char>,
    salt: Seq<u8>,
    nonce: Seq<u8>,
    text: Seq<u8>,
)
    requires
        encode_utf8(password).len() <= 4_294_967_295,
        8 <= salt.len() <= 4_294_967_295,
    ensures
        text.len() <= 274_877_906_816 ==> sealed_payload(password, salt, nonce, text) == Ok::<
            Sealed,
            ErrorView,
        >(
            Sealed {
                ciphertext: sealed_message(argon2_key(encode_utf8(password), salt), nonce, text),
                salt,
                nonce,
                encrypted: true,
            },
        ),
        text.len() > 274_877_906_816 ==> sealed_payload(password, salt, nonce, text) == Err::<
            Sealed,
            ErrorView,
        >(Fault::Aead),
        text.len() <= 274_877_906_832 ==> match opened_message(
            argon2_key(encode_utf8(password), salt),
            nonce,
            text,
        ) {
            Some(plain) => opened_payload(Some(password), salt, nonce, text, true) == Ok::<
                Seq<u8>,
                ErrorView,
            >(plain),
            None => opened_payload(Some(password), salt, nonce, text, true) == Err::<
                Seq<u8>,
                ErrorView,
            >(Fault::Aead),
        },
        opened_payload(None, salt, nonce, text, true) == Err::<Seq<u8>, ErrorView>(
            Fault::PasswordRequired,
        ),
        opened_payload(None, salt, nonce, text, false) == Ok::<Seq<u8>, ErrorView>(text),
{
}

/// A reader starts with all of a stream to be read, and a stream is refused where the
/// cipher refuses its first segment.
pub proof fn law_readers_start_with_the_stream(
    password: Seq<char>,
    salt: Seq<u8>,
    nonce: Seq<u8>,
    cipher: Seq<u8>,
)
    requires
        encode_utf8(password).len() <= 4_294_967_295,
        8 <= salt.len() <= 4_294_967_295,
        nonce.len() >= 7,
    ensures
        opened_payload_stream(Some(password), salt, nonce, cipher, true) == Ok::<
            (Seq<u8>, bool),
            ErrorView,
        >(stream_start(argon2_key(encode_utf8(password), salt), nonce, cipher).left()),
        cipher.len() > 0 && opened_segment(
            argon2_key(encode_utf8(password), salt),
            nonce.take(7),
            0,
            cipher.len() < 4_194_320,
            if cipher.len() < 4_194_320 {
                cipher
            } else {
                cipher.take(4_194_320)
            },
        ) is None ==> refuses(password, salt, nonce, cipher) && opened_payload_stream(
            Some(password),
            salt,
            nonce,
            cipher,
            true,
        ) == Ok::<(Seq<u8>, bool), ErrorView>((Seq::empty(), true)),
{
    let key = argon2_key(encode_utf8(password), salt);
    assert(fixed_nonce(nonce, 7) =~= nonce.take(7));
    let start = stream_start(key, nonce, cipher);
    assert(start.left().0 =~= opened_stream(key, nonce.take(7), 0, cipher).0);
}

/// What encrypting a stream reports: after each 4194304 bytes, and after the rest where
/// there is one, how many bytes are encrypted, then once more that all are.
pub proof fn law_encryption_reports(len: nat, i: int)
    requires
        len <= u64::MAX,
    ensures
        stream_log(len).len() == (len + 4_194_303) / 4_194_304 + 1,
        segments_log(len).len() == len / 4_194_304,
        stream_log(len).last() == (Report {
            phase: ProgressPhase::Encrypt,
            done: len as u64,
            total: len as u64,
        }),
        0 <= i < stream_log(len).len() ==> stream_log(len)[i].phase == ProgressPhase::Encrypt
            && stream_log(len)[i].total == len && stream_log(len)[i].done == (if (i + 1) * 4_194_304
            < len {
            (i + 1) * 4_194_304
        } else {
            len as int
        }),
        0 <= i < segments_log(len).len() ==> segments_log(len)[i] == (Report {
            phase: ProgressPhase::Encrypt,
            done: ((i + 1) * 4_194_304) as u64,
            total: len as u64,
        }),
{
}

/// Encrypted data in memory is what its fields hold.
pub proof fn law_sealed_in_memory(s: CryptoStreamOutput, m: CryptoOutput)
    ensures
        s@.data == s.data@ && s@.salt == s.salt@ && s@.nonce == s.nonce@,
        s@.encrypted == s.encrypted && s@.cipher_len == s.cipher_len && s@.plain_len == s.plain_len,
        m@.ciphertext == m.ciphertext@ && m@.salt == m.salt@ && m@.nonce == m.nonce@,
        m@.encrypted == m.encrypted,
{
}

} // verus!
