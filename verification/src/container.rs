//! Containers: a file appended to an image.
//!
//! A container is a PNG, a header, the data and a footer. The header is magic
//! (4), version (1), flags (1), length of the name (2), name, plain length (8),
//! length of the salt (1), salt, nonce (12), SHA-256 (32) and cipher length (8);
//! the footer is magic (4), version (1) and the place of the header (8).
use crate::bytes::{append, be_bytes, be_value, copy_range, push_be, read_be, same};
use crate::bytes::{
    lemma_be_bytes_len, lemma_be_round_trip, lemma_be_value_bound, lemma_byte_ranges,
};
use crate::crypto::{
    decrypts_to, law_sealed_stream, law_what_can_be_encrypted, lemma_refused,
    opened_payload_stream, pieces_of, refuses, seal_payload, seal_refusal, segments_log, segments_of, stream_len, text_of, CryptoStreamOutput, SealedStream,
    StreamDecryptReader, STREAM_CHUNK,
};
use crate::error::{outcome, Error, ErrorView, Fault};
use crate::format::{fix_nonce, fixed_nonce};
use crate::number::counted64;
use crate::payload::{
    lemma_text_round_trip, read_text, sha256, sha256_of, text_in, Entry, FileEntry,
};
use crate::progress::{
    all_scaled, lemma_nothing_told, lemma_only_told, lemma_own, lemma_pieces_push,
    lemma_pieces_run, lemma_told_concat, only_told, pieces_log, runs_to, tell, told_all,
    ProgressPhase, ProgressSink, Report, Scale,
};
use crate::raster::{
    encoded_image, format_name, is_png_name, recode_image, recoded_image, save_image, saved, Raster, RgbaImage,
};
use crate::source::ByteSource;
use crate::text::{after_last_separator, chars_of, last_component, string_of};
use vstd::prelude::*;
use vstd::utf8::encode_utf8;

verus! {

/// The bytes that a container's header starts with: `F2C1`.
pub const CONTAINER_MAGIC: [u8; 4] = [0x46, 0x32, 0x43, 0x31];

/// The bytes that a container's footer starts with: `F2CF`.
pub const CONTAINER_FOOTER_MAGIC: [u8; 4] = [0x46, 0x32, 0x43, 0x46];

/// The length of a container's footer.
pub const FOOTER_LEN: usize = 13;

/// The length of a container's header without its name and salt.
pub const CONTAINER_FIXED_LEN: usize = 69;

/// The length of data after encryption.
pub open spec fn container_cipher_len(plain_len: nat, encrypted: bool) -> nat {
    if encrypted {
        stream_len(plain_len)
    } else {
        plain_len
    }
}

/// The length of data after encryption, as far as it can be counted.
pub fn estimate_cipher_len_from_plain(plain_len: u64, encrypted: bool) -> (out: u64)
    ensures
        out == counted64(container_cipher_len(plain_len as nat, encrypted)),
{
    if !encrypted {
        return plain_len;
    }
    let tags: u64 = plain_len / STREAM_CHUNK as u64 + 1;
    plain_len.saturating_add(tags * 16)
}

/// The length of a container's header.
pub fn header_len(name_len: usize, salt_len: usize) -> (out: usize)
    requires
        CONTAINER_FIXED_LEN + name_len + salt_len <= usize::MAX,
    ensures
        out == CONTAINER_FIXED_LEN + name_len + salt_len,
{
    4 + 1 + 1 + 2 + name_len + 8 + 1 + salt_len + 12 + 32 + 8
}

/// The length of a container without its data.
pub open spec fn container_overhead(cover_size: nat, name_len: nat, salt_len: nat) -> nat {
    cover_size + CONTAINER_FIXED_LEN as nat + name_len + salt_len + FOOTER_LEN as nat
}

/// Longer data is longer after encryption.
pub proof fn lemma_cipher_len_grows(a: nat, b: nat, encrypted: bool)
    requires
        a <= b,
    ensures
        container_cipher_len(a, encrypted) <= container_cipher_len(b, encrypted),
{
    assert(a / STREAM_CHUNK as nat <= b / STREAM_CHUNK as nat);
}

/// `plain` is the largest length of data with which a container stays within a
/// limit.
pub open spec fn largest_plain(
    plain: nat,
    limit: nat,
    overhead: nat,
    encrypted: bool,
) -> bool {
    &&& overhead + container_cipher_len(plain, encrypted) <= limit
    &&& forall|more: nat|
        plain < more ==> overhead + #[trigger] container_cipher_len(more, encrypted) > limit
}

/// The largest length of data with which a container stays within a limit.
pub fn max_plain_len_for_limit(
    max_png_bytes: u64,
    cover_size: u64,
    name_len: usize,
    encrypted: bool,
    salt_len: usize,
) -> (out: Result<u64, Error>)
    ensures
        ({
            let overhead = container_overhead(cover_size as nat, name_len as nat, salt_len as nat);
            match out {
                Ok(plain) => plain > 0 && largest_plain(
                    plain as nat,
                    max_png_bytes as nat,
                    overhead,
                    encrypted,
                ),
                Err(e) => if max_png_bytes <= overhead {
                    e@ == ErrorView::LimitTooLow
                } else {
                    encrypted && overhead + container_cipher_len(1, true) > max_png_bytes && e@
                        == ErrorView::LimitTooLowEncrypted
                },
            }
        }),
{
    let fixed: u128 = CONTAINER_FIXED_LEN as u128 + name_len as u128 + salt_len as u128;
    let overhead: u128 = cover_size as u128 + fixed + FOOTER_LEN as u128;
    if max_png_bytes as u128 <= overhead {
        return Err(Fault::LimitTooLow);
    }
    let available: u64 = (max_png_bytes as u128 - overhead) as u64;
    if !encrypted {
        return Ok(available);
    }
    let mut lo: u64 = 0;
    let mut hi: u64 = available;
    while lo < hi
        invariant
            lo <= hi <= available < u64::MAX,
            lo == 0 || container_cipher_len(lo as nat, true) <= available,
            forall|more: nat|
                hi < more ==> #[trigger] container_cipher_len(more, true) > available,
        decreases hi - lo,
    {
        let mid: u64 = lo + (hi - lo + 1) / 2;
        if estimate_cipher_len_from_plain(mid, true) <= available {
            lo = mid;
        } else {
            hi = mid - 1;
            assert forall|more: nat| hi < more implies #[trigger] container_cipher_len(more, true)
                > available by {
                lemma_cipher_len_grows(mid as nat, more, true);
            }
        }
    }
    if lo == 0 {
        assert(container_cipher_len(1, true) > available);
        return Err(Fault::LimitTooLowEncrypted);
    }
    Ok(lo)
}

/// The mathematical view of a container's header.
#[verifier::ext_equal]
pub struct ContainerFields {
    pub encrypted: bool,
    pub name: Seq<char>,
    pub plain_len: u64,
    pub salt: Seq<u8>,
    pub nonce: Seq<u8>,
    pub sha256: Seq<u8>,
}

/// A container's header.
#[derive(Debug)]
pub struct ContainerHeader {
    pub encrypted: bool,
    pub name: String,
    pub plain_len: u64,
    pub salt: Vec<u8>,
    pub nonce: Vec<u8>,
    pub sha256: Vec<u8>,
}

impl View for ContainerHeader {
    type V = ContainerFields;

    open spec fn view(&self) -> ContainerFields {
        ContainerFields {
            encrypted: self.encrypted,
            name: self.name@,
            plain_len: self.plain_len,
            salt: self.salt@,
            nonce: self.nonce@,
            sha256: self.sha256@,
        }
    }
}

/// The bytes of a container's header.
pub open spec fn container_header_bytes(
    encrypted: bool,
    name: Seq<char>,
    plain_len: nat,
    salt: Seq<u8>,
    nonce: Seq<u8>,
    sha256: Seq<u8>,
    cipher_len: nat,
) -> Seq<u8> {
    CONTAINER_MAGIC@ + seq![
        1u8,
        if encrypted {
            1u8
        } else {
            0u8
        },
    ] + be_bytes(encode_utf8(name).len(), 2) + encode_utf8(name) + be_bytes(plain_len, 8) + seq![
        salt.len() as u8,
    ] + salt + fixed_nonce(nonce, 12) + sha256 + be_bytes(cipher_len, 8)
}

/// The bytes of a container's footer.
pub open spec fn footer_bytes(header_start: nat) -> Seq<u8> {
    CONTAINER_FOOTER_MAGIC@ + seq![1u8] + be_bytes(header_start, 8)
}

/// Writes a container's header, if its name and salt fit their fields.
pub fn write_header(
    buf: &mut Vec<u8>,
    encrypted: bool,
    name: &str,
    plain_len: u64,
    salt: &[u8],
    nonce: &[u8],
    sha: &[u8],
    cipher_len: u64,
) -> (out: Result<(), Error>)
    ensures
        match out {
            Ok(_) => encode_utf8(name@).len() <= u16::MAX && salt@.len() <= u8::MAX && final(buf)@
                == old(buf)@ + container_header_bytes(
                encrypted,
                name@,
                plain_len as nat,
                salt@,
                nonce@,
                sha@,
                cipher_len as nat,
            ),
            Err(e) => final(buf)@ == old(buf)@ && if encode_utf8(name@).len() > u16::MAX {
                e@ == ErrorView::NameTooLong
            } else {
                salt@.len() > u8::MAX && e@ == ErrorView::SaltTooLong
            },
        },
{
    let stored: &[u8] = name.as_bytes();
    if stored.len() > u16::MAX as usize {
        return Err(Fault::NameTooLong);
    }
    if salt.len() > u8::MAX as usize {
        return Err(Fault::SaltTooLong);
    }
    append(buf, &CONTAINER_MAGIC);
    buf.push(0x01);
    buf.push(
        if encrypted {
            0x01
        } else {
            0x00
        },
    );
    push_be(buf, stored.len() as u64, 2);
    append(buf, stored);
    push_be(buf, plain_len, 8);
    buf.push(salt.len() as u8);
    append(buf, salt);
    let fixed: Vec<u8> = fix_nonce(nonce, 12);
    append(buf, fixed.as_slice());
    append(buf, sha);
    push_be(buf, cipher_len, 8);
    assert(buf@ =~= old(buf)@ + container_header_bytes(
        encrypted,
        name@,
        plain_len as nat,
        salt@,
        nonce@,
        sha@,
        cipher_len as nat,
    ));
    Ok(())
}

/// Writes a container's footer.
pub fn write_footer(buf: &mut Vec<u8>, header_start: u64)
    ensures
        final(buf)@ == old(buf)@ + footer_bytes(header_start as nat),
{
    append(buf, &CONTAINER_FOOTER_MAGIC);
    buf.push(0x01);
    push_be(buf, header_start, 8);
    assert(buf@ =~= old(buf)@ + footer_bytes(header_start as nat));
}

/// The place of the header that a file's footer tells, or why there is none.
pub open spec fn footer_of(file: Seq<u8>) -> Result<nat, ErrorView> {
    let foot = file.skip(file.len() - FOOTER_LEN);
    let start = be_value(foot.subrange(5, 13));
    if file.len() < FOOTER_LEN {
        Err(Fault::NotContainer)
    } else if foot.subrange(0, 4) != CONTAINER_FOOTER_MAGIC@ {
        Err(Fault::NoFooter)
    } else if foot[4] != 1 {
        Err(Fault::UnsupportedContainer { version: foot[4] })
    } else if start >= file.len() - FOOTER_LEN {
        Err(Fault::InvalidFooter)
    } else {
        Ok(start)
    }
}

/// Reads a file's footer.
pub fn read_footer(file: &[u8]) -> (out: Result<usize, Error>)
    ensures
        match out {
            Ok(start) => footer_of(file@) == Ok::<nat, ErrorView>(start as nat) && start
                + FOOTER_LEN < file@.len(),
            Err(e) => footer_of(file@) == Err::<nat, ErrorView>(e@),
        },
{
    let len: usize = file.len();
    if len < FOOTER_LEN {
        return Err(Fault::NotContainer);
    }
    let at: usize = len - FOOTER_LEN;
    let ghost foot = file@.skip(at as int);
    let magic: Vec<u8> = copy_range(file, at, at + 4);
    assert(magic@ =~= foot.subrange(0, 4));
    if !same(magic.as_slice(), &CONTAINER_FOOTER_MAGIC) {
        return Err(Fault::NoFooter);
    }
    if file[at + 4] != 0x01 {
        return Err(Fault::UnsupportedContainer { version: file[at + 4] });
    }
    let start: u64 = read_be(file, at + 5, 8);
    assert(file@.subrange(at + 5, at + 13) =~= foot.subrange(5, 13));
    if start >= at as u64 {
        return Err(Fault::InvalidFooter);
    }
    Ok(start as usize)
}

/// Whether a file ends like a container.
pub fn is_container_png(file: &[u8]) -> (out: bool)
    ensures
        out == (footer_of(file@) is Ok),
{
    read_footer(file).is_ok()
}

/// The header at a place in a file and the place where its data starts and ends,
/// or why there is none. Fields are read up to the end of the file; the data ends
/// before the footer.
pub open spec fn container_header_of(file: Seq<u8>, start: int) -> Result<
    (ContainerFields, int, int),
    ErrorView,
> {
    let len = file.len() as int;
    let name_len = be_value(file.subrange(start + 6, start + 8)) as int;
    let meta = start + 8 + name_len;
    let salt_end = meta + 9 + file[meta + 8];
    let data_start = salt_end + 52;
    let cipher_len = be_value(file.subrange(salt_end + 44, data_start)) as int;
    if len < start + 4 {
        Err(Fault::UnexpectedEof)
    } else if file.subrange(start, start + 4) != CONTAINER_MAGIC@ {
        Err(Fault::BadContainerMagic)
    } else if len < start + 5 {
        Err(Fault::UnexpectedEof)
    } else if file[start + 4] != 1 {
        Err(Fault::UnsupportedContainer { version: file[start + 4] })
    } else if len < start + 8 {
        Err(Fault::UnexpectedEof)
    } else if name_len == 0 || name_len > 4096 {
        Err(Fault::InvalidContainerName)
    } else if len < meta + 9 {
        Err(Fault::UnexpectedEof)
    } else if len < data_start {
        Err(Fault::UnexpectedEof)
    } else if data_start >= len - FOOTER_LEN {
        Err(Fault::ContainerWithoutData)
    } else if cipher_len == 0 || data_start + cipher_len > len - FOOTER_LEN {
        Err(Fault::InvalidCipherLen)
    } else {
        Ok(
            (
                ContainerFields {
                    encrypted: file[start + 5] % 2 == 1,
                    name: text_in(file.subrange(start + 8, meta)),
                    plain_len: be_value(file.subrange(meta, meta + 8)) as u64,
                    salt: file.subrange(meta + 9, salt_end),
                    nonce: file.subrange(salt_end, salt_end + 12),
                    sha256: file.subrange(salt_end + 12, salt_end + 44),
                },
                data_start,
                data_start + cipher_len,
            ),
        )
    }
}

/// Reads the header at a place in a file.
pub fn read_header(file: &[u8], start: usize) -> (out: Result<
    (ContainerHeader, usize, usize),
    Error,
>)
    ensures
        match out {
            Ok((h, from, to)) => container_header_of(file@, start as int) == Ok::<
                (ContainerFields, int, int),
                ErrorView,
            >((h@, from as int, to as int)) && from <= to <= file@.len(),
            Err(e) => container_header_of(file@, start as int) == Err::<
                (ContainerFields, int, int),
                ErrorView,
            >(e@),
        },
{
    let len: usize = file.len();
    if len < 4 || start > len - 4 {
        return Err(Fault::UnexpectedEof);
    }
    let magic: Vec<u8> = copy_range(file, start, start + 4);
    if !same(magic.as_slice(), &CONTAINER_MAGIC) {
        return Err(Fault::BadContainerMagic);
    }
    if len - start < 5 {
        return Err(Fault::UnexpectedEof);
    }
    if file[start + 4] != 0x01 {
        return Err(Fault::UnsupportedContainer { version: file[start + 4] });
    }
    if len - start < 8 {
        return Err(Fault::UnexpectedEof);
    }
    let encrypted: bool = file[start + 5] % 2 == 1;
    let name_len: usize = read_be(file, start + 6, 2) as usize;
    proof {
        lemma_be_value_bound(file@.subrange(start + 6, start + 8));
        lemma_byte_ranges();
    }
    if name_len == 0 || name_len > 4096 {
        return Err(Fault::InvalidContainerName);
    }
    if len - start < 8 + name_len + 9 {
        return Err(Fault::UnexpectedEof);
    }
    let meta: usize = start + 8 + name_len;
    let salt_len: usize = file[meta + 8] as usize;
    if len - meta < 9 + salt_len + 52 {
        return Err(Fault::UnexpectedEof);
    }
    let salt_end: usize = meta + 9 + salt_len;
    let data_start: usize = salt_end + 52;
    let data_end: usize = len - FOOTER_LEN;
    if data_start >= data_end {
        return Err(Fault::ContainerWithoutData);
    }
    let cipher_len: u64 = read_be(file, salt_end + 44, 8);
    if cipher_len == 0 || cipher_len > (data_end - data_start) as u64 {
        return Err(Fault::InvalidCipherLen);
    }
    let name: String = read_text(vstd::slice::slice_subrange(file, start + 8, meta));
    let header = ContainerHeader {
        encrypted,
        name,
        plain_len: read_be(file, meta, 8),
        salt: copy_range(file, meta + 9, salt_end),
        nonce: copy_range(file, salt_end, salt_end + 12),
        sha256: copy_range(file, salt_end + 12, salt_end + 44),
    };
    Ok((header, data_start, data_start + cipher_len as usize))
}

/// The data of a container, or why it cannot be had.
pub open spec fn decoded_container(
    h: ContainerFields,
    data: Seq<u8>,
    password: Option<Seq<char>>,
) -> Result<Seq<u8>, ErrorView> {
    match opened_payload_stream(password, h.salt, h.nonce, data, h.encrypted) {
        Err(e) => Err(e),
        Ok((plain, broken)) => if broken {
            Err(Fault::NotAuthentic)
        } else if plain.len() != h.plain_len {
            Err(Fault::ContainerLenMismatch { extracted: plain.len() as u64, stated: h.plain_len })
        } else if sha256_of(plain)@ != h.sha256 {
            Err(Fault::ContainerShaMismatch)
        } else {
            Ok(plain)
        },
    }
}

/// Decrypts a stream and reports each segment.
fn decrypt_told<P: ProgressSink>(
    reader: &mut StreamDecryptReader,
    total: u64,
    scale: Scale,
    progress: &mut P,
) -> (out: Result<Vec<u8>, Error>)
    requires
        old(reader).wf(),
        old(reader)@.buffered.len() == 0,
    ensures
        final(reader).wf(),
        match out {
            Ok(bytes) => old(reader)@.left() == (bytes@, false),
            Err(e) => old(reader)@.left().1 && e@ == ErrorView::NotAuthentic,
        },
        out is Ok ==> told_all(
            *old(progress),
            all_scaled(
                scale,
                pieces_log(
                    ProgressPhase::Decrypt,
                    STREAM_CHUNK as nat,
                    segments_of(old(reader)@.cipher.len()),
                    out->Ok_0@.len(),
                    total,
                ),
            ),
            *final(progress),
        ),
        out is Ok ==> out->Ok_0@.len() <= segments_of(old(reader)@.cipher.len()) * STREAM_CHUNK,
        only_told(*old(progress), *final(progress)),
{
    let ghost phase = ProgressPhase::Decrypt;
    let ghost chunk = STREAM_CHUNK as nat;
    let mut out: Vec<u8> = Vec::new();
    let ghost mut count: nat = 0;
    let ghost mut log: Seq<Report> = Seq::empty();
    proof {
        assert(old(reader)@.left().0 =~= out@ + reader@.left().0);
        assert(all_scaled(scale, log) =~= Seq::<Report>::empty());
        assert(log =~= pieces_log(phase, chunk, 0, 0, total));
    }
    while !reader.at_end()
        invariant
            reader.wf(),
            reader@.buffered.len() == 0,
            old(reader)@.left().0 == out@ + reader@.left().0,
            old(reader)@.left().1 == reader@.left().1,
            phase == ProgressPhase::Decrypt,
            chunk == STREAM_CHUNK,
            told_all(*old(progress), all_scaled(scale, log), *progress),
            log == pieces_log(phase, chunk, count, out@.len(), total),
            reader@.cipher.len() > 0 ==> out@.len() == count * chunk,
            out@.len() <= count * chunk,
            count + segments_of(reader@.cipher.len()) == segments_of(old(reader)@.cipher.len()),
        decreases reader@.cipher.len(),
    {
        let ghost before = out@;
        let bytes: Vec<u8> = reader.read(STREAM_CHUNK)?;
        append(&mut out, bytes.as_slice());
        assert(out.len() == out@.len());
        assert(before + (bytes@ + reader@.left().0) =~= out@ + reader@.left().0);
        let r = Report { phase: ProgressPhase::Decrypt, done: out.len() as u64, total };
        tell(progress, scale, r, Ghost(*old(progress)), Ghost(log));
        proof {
            lemma_pieces_push(phase, chunk, count, before.len(), out@.len(), total);
            log = log.push(r);
            assert((count + 1) * chunk == count * chunk + chunk) by (nonlinear_arith);
            count = count + 1;
        }
    }
    proof {
        assert(reader@.left().0 =~= Seq::<u8>::empty());
        assert(old(reader)@.left().0 =~= out@);
    }
    Ok(out)
}

/// Appends data and reports each piece of it that was copied.
fn copy_told<P: ProgressSink>(
    buf: &mut Vec<u8>,
    data: &[u8],
    phase: ProgressPhase,
    total: u64,
    scale: Scale,
    progress: &mut P,
)
    ensures
        final(buf)@ == old(buf)@ + data@,
        told_all(
            *old(progress),
            all_scaled(
                scale,
                pieces_log(
                    phase,
                    STREAM_CHUNK as nat,
                    pieces_of(data@.len()),
                    data@.len(),
                    total,
                ),
            ),
            *final(progress),
        ),
{
    let ghost chunk = STREAM_CHUNK as nat;
    let ghost mut count: nat = 0;
    let ghost mut log: Seq<Report> = Seq::empty();
    let mut at: usize = 0;
    proof {
        assert(buf@ =~= old(buf)@ + data@.take(0));
        assert(all_scaled(scale, log) =~= Seq::<Report>::empty());
        assert(log =~= pieces_log(phase, chunk, 0, 0, total));
    }
    while at < data.len()
        invariant
            at <= data@.len(),
            buf@ == old(buf)@ + data@.take(at as int),
            chunk == STREAM_CHUNK,
            told_all(*old(progress), all_scaled(scale, log), *progress),
            log == pieces_log(phase, chunk, count, at as nat, total),
            at < data@.len() ==> at == count * chunk,
            count + pieces_of((data@.len() - at) as nat) == pieces_of(data@.len()),
        decreases data@.len() - at,
    {
        let end: usize = if data.len() - at < STREAM_CHUNK {
            data.len()
        } else {
            at + STREAM_CHUNK
        };
        append(buf, vstd::slice::slice_subrange(data, at, end));
        assert(buf@ =~= old(buf)@ + data@.take(end as int));
        let r = Report { phase, done: end as u64, total };
        tell(progress, scale, r, Ghost(*old(progress)), Ghost(log));
        proof {
            lemma_pieces_push(phase, chunk, count, at as nat, end as nat, total);
            log = log.push(r);
            assert((count + 1) * chunk == count * chunk + chunk) by (nonlinear_arith);
            count = count + 1;
        }
        at = end;
    }
    assert(data@.take(at as int) =~= data@);
}

/// What decoding a container is doing.
pub open spec fn decoding_phase(encrypted: bool) -> ProgressPhase {
    if encrypted {
        ProgressPhase::Decrypt
    } else {
        ProgressPhase::Parse
    }
}

/// What decoding the `data_len` bytes of a container reports: how many of the
/// `plain_len` bytes are there after each segment, or each piece without encryption.
pub open spec fn decoding_log(encrypted: bool, data_len: nat, plain_len: u64) -> Seq<Report> {
    pieces_log(
        decoding_phase(encrypted),
        STREAM_CHUNK as nat,
        if encrypted {
            segments_of(data_len)
        } else {
            pieces_of(data_len)
        },
        plain_len as nat,
        plain_len,
    )
}

/// Decrypts the data of a container and checks its length and hash. It reports each
/// piece in these units.
pub(crate) fn decode_scaled<P: ProgressSink>(
    header: &ContainerHeader,
    data: &[u8],
    password: Option<&str>,
    scale: Scale,
    progress: &mut P,
) -> (out: Result<Vec<u8>, Error>)
    ensures
        outcome(out) == decoded_container(header@, data@, text_of(password)),
        out is Ok ==> told_all(
            *old(progress),
            all_scaled(scale, decoding_log(header.encrypted, data@.len(), header.plain_len)),
            *final(progress),
        ) && runs_to(
            decoding_log(header.encrypted, data@.len(), header.plain_len),
            decoding_phase(header.encrypted),
            header.plain_len,
        ),
        only_told(*old(progress), *final(progress)),
{
    proof {
        lemma_nothing_told(*progress);
    }
    let plain: Vec<u8> = if header.encrypted {
        match password {
            None => {
                return Err(Fault::PasswordRequired);
            },
            Some(pw) => {
                let mut reader: StreamDecryptReader = StreamDecryptReader::new(
                    pw,
                    header.salt.as_slice(),
                    header.nonce.as_slice(),
                    data,
                )?;
                assert(reader.rest() =~= opened_payload_stream(
                    text_of(password),
                    header.salt@,
                    header.nonce@,
                    data@,
                    true,
                )->Ok_0.0);
                let read = decrypt_told(&mut reader, header.plain_len, scale, progress);
                reader.close();
                read?
            },
        }
    } else {
        let mut plain: Vec<u8> = Vec::new();
        copy_told(&mut plain, data, ProgressPhase::Parse, header.plain_len, scale, progress);
        assert(plain@ =~= data@);
        plain
    };
    if plain.len() as u64 != header.plain_len {
        return Err(
            Fault::ContainerLenMismatch { extracted: plain.len() as u64, stated: header.plain_len },
        );
    }
    let actual: [u8; 32] = sha256(plain.as_slice());
    if !same(actual.as_slice(), header.sha256.as_slice()) {
        return Err(Fault::ContainerShaMismatch);
    }
    proof {
        let count = if header.encrypted {
            segments_of(data@.len())
        } else {
            pieces_of(data@.len())
        };
        lemma_pieces_run(
            decoding_phase(header.encrypted),
            STREAM_CHUNK as nat,
            count,
            plain@.len(),
            header.plain_len,
        );
    }
    Ok(plain)
}

/// Decrypts the data of a container and checks its length and hash. It reports each
/// piece.
pub fn decode_container_payload<P: ProgressSink>(
    header: &ContainerHeader,
    data: &[u8],
    password: Option<&str>,
    progress: &mut P,
) -> (out: Result<Vec<u8>, Error>)
    ensures
        outcome(out) == decoded_container(header@, data@, text_of(password)),
        out is Ok ==> told_all(
            *old(progress),
            decoding_log(header.encrypted, data@.len(), header.plain_len),
            *final(progress),
        ) && runs_to(
            decoding_log(header.encrypted, data@.len(), header.plain_len),
            decoding_phase(header.encrypted),
            header.plain_len,
        ),
        only_told(*old(progress), *final(progress)),
{
    proof {
        lemma_own(decoding_log(header.encrypted, data@.len(), header.plain_len));
    }
    decode_scaled(header, data, password, Scale::Own, progress)
}

/// The fields and the data of a container, or why it is none.
pub open spec fn container_of(file: Seq<u8>) -> Result<(ContainerFields, Seq<u8>), ErrorView> {
    match footer_of(file) {
        Err(e) => Err(e),
        Ok(start) => match container_header_of(file, start as int) {
            Err(e) => Err(e),
            Ok((h, from, to)) => Ok((h, file.subrange(from, to))),
        },
    }
}

/// Reads the fields and the data of a container.
pub fn read_container(file: &[u8]) -> (out: Result<(ContainerHeader, Vec<u8>), Error>)
    ensures
        match out {
            Ok((h, data)) => container_of(file@) == Ok::<(ContainerFields, Seq<u8>), ErrorView>(
                (h@, data@),
            ),
            Err(e) => container_of(file@) == Err::<(ContainerFields, Seq<u8>), ErrorView>(e@),
        },
{
    let start: usize = read_footer(file)?;
    let (header, from, to) = read_header(file, start)?;
    Ok((header, copy_range(file, from, to)))
}

/// The file in a container, or why it cannot be had.
pub open spec fn unwrapped(file: Seq<u8>, password: Option<Seq<char>>) -> Result<
    Entry,
    ErrorView,
> {
    match container_of(file) {
        Err(e) => Err(e),
        Ok((h, data)) => match decoded_container(h, data, password) {
            Err(e) => Err(e),
            Ok(plain) => Ok(Entry { name: last_component(h.name), data: plain }),
        },
    }
}

/// The report that all is saved.
pub open spec fn all_saved() -> Report {
    Report { phase: ProgressPhase::Save, done: 1, total: 1 }
}

/// What taking a file out of a container reports: each piece that is decoded, then
/// that all is saved.
pub open spec fn unwrap_log(h: ContainerFields, data: Seq<u8>) -> Seq<Report> {
    decoding_log(h.encrypted, data.len(), h.plain_len).push(all_saved())
}

/// Takes the file out of a container.
pub fn unwrap_container_png_to_dir<P: ProgressSink>(
    stego: &[u8],
    password: Option<&str>,
    progress: &mut P,
) -> (out: Result<FileEntry, Error>)
    ensures
        outcome(out) == unwrapped(stego@, text_of(password)),
        out is Ok ==> told_all(
            *old(progress),
            unwrap_log(container_of(stego@)->Ok_0.0, container_of(stego@)->Ok_0.1),
            *final(progress),
        ),
        only_told(*old(progress), *final(progress)),
{
    proof {
        lemma_nothing_told(*progress);
    }
    let (header, data) = read_container(stego)?;
    let name: Vec<char> = after_last_separator(chars_of(header.name.as_str()).as_slice());
    let plain: Vec<u8> = decode_container_payload(&header, data.as_slice(), password, progress)?;
    let r = Report { phase: ProgressPhase::Save, done: 1, total: 1 };
    let ghost log = decoding_log(header.encrypted, data@.len(), header.plain_len);
    proof {
        lemma_own(log);
        lemma_own(log.push(r));
        assert(log.push(r) == unwrap_log(header@, data@));
    }
    tell(progress, Scale::Own, r, Ghost(*old(progress)), Ghost(log));
    Ok(FileEntry { name: string_of(name.as_slice()), data: plain })
}

/// The plain cover: 512 by 512 light grey pixels.
pub open spec fn plain_cover() -> Raster {
    Raster {
        width: 512,
        height: 512,
        data: Seq::new(
            1_048_576,
            |i: int|
                if i % 4 == 3 {
                    255u8
                } else {
                    200u8
                },
        ),
    }
}

/// The image that a container starts with, or why there is none: the cover, else
/// a plain one, in the format that the name of the container asks for.
pub open spec fn cover_bytes(cover: Option<Entry>, out_name: Seq<char>) -> Result<
    Seq<u8>,
    ErrorView,
> {
    match cover {
        Some(file) => match recoded_image(format_name(file.name), file.data, out_name) {
            Ok(bytes) => Ok(bytes),
            Err(text) => Err(Fault::Image { text }),
        },
        None => saved(plain_cover(), out_name),
    }
}

/// The mathematical view of an optional file.
pub open spec fn entry_of(file: Option<&FileEntry>) -> Option<Entry> {
    match file {
        Some(f) => Some(f@),
        None => None,
    }
}

/// Writes the image that a container starts with.
pub fn write_cover_png(cover: Option<&FileEntry>, out_name: &str) -> (out: Result<Vec<u8>, Error>)
    ensures
        outcome(out) == cover_bytes(entry_of(cover), out_name@),
        cover is None && is_png_name(out_name@) ==> out is Ok,
{
    match cover {
        Some(file) => recode_image(file, out_name),
        None => {
            let mut data: Vec<u8> = Vec::new();
            while data.len() < 1_048_576
                invariant
                    data@.len() <= 1_048_576,
                    data@.len() % 4 == 0,
                    forall|i: int| 0 <= i < data@.len() ==> data@[i] == plain_cover().data[i],
                decreases 1_048_576 - data.len(),
            {
                data.push(200);
                data.push(200);
                data.push(200);
                data.push(255);
            }
            assert(data@ =~= plain_cover().data);
            assert(512nat * 512nat == 262_144nat) by (nonlinear_arith);
            let img: RgbaImage = RgbaImage::from_raw(512, 512, data).unwrap();
            save_image(img, out_name)
        },
    }
}

/// A container: the cover, the header, the data and the footer.
#[verifier::opaque]
pub open spec fn container_file(
    cover: Seq<u8>,
    name: Seq<char>,
    crypto: SealedStream,
    plain: Seq<u8>,
) -> Seq<u8> {
    cover + container_header_bytes(
        crypto.encrypted,
        name,
        plain.len(),
        crypto.salt,
        crypto.nonce,
        sha256_of(plain)@,
        crypto.data.len(),
    ) + crypto.data + footer_bytes(cover.len())
}

/// A file is a container of this name that decrypts to `plain`.
pub open spec fn contains(
    file: Seq<u8>,
    name: Seq<char>,
    password: Option<Seq<char>>,
    plain: Seq<u8>,
) -> bool {
    container_of(file) matches Ok((h, data)) && h.name == name && decoded_container(
        h,
        data,
        password,
    ) == Ok::<Seq<u8>, ErrorView>(plain)
}

/// Whether a container of this name and data can be read: an empty or long name
/// and empty data cannot.
pub open spec fn readable(name: Seq<char>, password: Option<Seq<char>>, plain_len: nat) -> bool {
    1 <= encode_utf8(name).len() <= 4096 && (password is Some || plain_len > 0)
}

/// The length of a container.
pub proof fn lemma_container_len(
    cover: Seq<u8>,
    name: Seq<char>,
    crypto: SealedStream,
    password: Option<Seq<char>>,
    plain: Seq<u8>,
)
    requires
        decrypts_to(crypto, password, plain),
    ensures
        container_file(cover, name, crypto, plain).len() == container_overhead(
            cover.len(),
            encode_utf8(name).len(),
            crypto.salt.len(),
        ) + container_cipher_len(plain.len(), password is Some),
{
    reveal(container_file);
    lemma_be_bytes_len(encode_utf8(name).len(), 2);
    lemma_be_bytes_len(plain.len(), 8);
    lemma_be_bytes_len(crypto.data.len(), 8);
    lemma_be_bytes_len(cover.len(), 8);
}

/// Where the fields of a container lie.
#[verifier::rlimit(40)]
proof fn lemma_container_fields(
    cover: Seq<u8>,
    name: Seq<char>,
    crypto: SealedStream,
    password: Option<Seq<char>>,
    plain: Seq<u8>,
)
    requires
        decrypts_to(crypto, password, plain),
        readable(name, password, plain.len()),
        container_file(cover, name, crypto, plain).len() <= u64::MAX,
    ensures
        ({
            let file = container_file(cover, name, crypto, plain);
            let start = cover.len() as int;
            let n = encode_utf8(name).len() as int;
            let s = crypto.salt.len() as int;
            let from = start + 69 + n + s;
            &&& file.len() == from + crypto.data.len() + 13
            &&& file.subrange(start, start + 4) == CONTAINER_MAGIC@
            &&& file[start + 4] == 1
            &&& file[start + 5] % 2 == 1 <==> crypto.encrypted
            &&& be_value(file.subrange(start + 6, start + 8)) == n
            &&& file.subrange(start + 8, start + 8 + n) == encode_utf8(name)
            &&& be_value(file.subrange(start + 8 + n, start + 16 + n)) == plain.len()
            &&& file[start + 16 + n] == s
            &&& file.subrange(start + 17 + n, start + 17 + n + s) == crypto.salt
            &&& file.subrange(start + 17 + n + s, start + 29 + n + s) == fixed_nonce(
                crypto.nonce,
                12,
            )
            &&& file.subrange(start + 29 + n + s, start + 61 + n + s) == sha256_of(plain)@
            &&& be_value(file.subrange(start + 61 + n + s, from)) == crypto.data.len()
            &&& file.subrange(from, from + crypto.data.len()) == crypto.data
            &&& file.skip(file.len() - 13) == footer_bytes(cover.len())
        }),
{
    let file = container_file(cover, name, crypto, plain);
    let start = cover.len() as int;
    let n = encode_utf8(name).len() as int;
    let s = crypto.salt.len() as int;
    let from = start + 69 + n + s;
    reveal(container_file);
    lemma_container_len(cover, name, crypto, password, plain);
    lemma_byte_ranges();
    lemma_be_bytes_len(cover.len(), 8);
    lemma_be_round_trip(n as nat, 2);
    lemma_be_round_trip(plain.len(), 8);
    lemma_be_round_trip(crypto.data.len(), 8);
    assert(file.subrange(start, start + 4) =~= CONTAINER_MAGIC@);
    assert(file.subrange(start + 6, start + 8) =~= be_bytes(n as nat, 2));
    assert(file.subrange(start + 8, start + 8 + n) =~= encode_utf8(name));
    assert(file.subrange(start + 8 + n, start + 16 + n) =~= be_bytes(plain.len(), 8));
    assert(file.subrange(start + 17 + n, start + 17 + n + s) =~= crypto.salt);
    assert(file.subrange(start + 17 + n + s, start + 29 + n + s) =~= fixed_nonce(
        crypto.nonce,
        12,
    ));
    assert(file.subrange(start + 29 + n + s, start + 61 + n + s) =~= sha256_of(plain)@);
    assert(file.subrange(start + 61 + n + s, from) =~= be_bytes(crypto.data.len(), 8));
    assert(file.subrange(from, from + crypto.data.len()) =~= crypto.data);
    assert(file.skip(file.len() - 13) =~= footer_bytes(cover.len()));
}

/// Reading a written container gives back its name and data. Empty data that is
/// not encrypted, empty names and names of more than 4096 bytes are refused.
#[verifier::rlimit(40)]
pub proof fn law_container_round_trip(
    cover: Seq<u8>,
    name: Seq<char>,
    crypto: SealedStream,
    password: Option<Seq<char>>,
    plain: Seq<u8>,
)
    requires
        decrypts_to(crypto, password, plain),
        readable(name, password, plain.len()),
        container_file(cover, name, crypto, plain).len() <= u64::MAX,
    ensures
        contains(container_file(cover, name, crypto, plain), name, password, plain),
        unwrapped(container_file(cover, name, crypto, plain), password) == Ok::<Entry, ErrorView>(
            Entry { name: last_component(name), data: plain },
        ),
{
    let file = container_file(cover, name, crypto, plain);
    lemma_container_fields(cover, name, crypto, password, plain);
    lemma_byte_ranges();
    lemma_be_round_trip(cover.len(), 8);
    lemma_text_round_trip(name);
    let foot = file.skip(file.len() - FOOTER_LEN);
    assert(foot.subrange(0, 4) =~= CONTAINER_FOOTER_MAGIC@);
    assert(foot.subrange(5, 13) =~= be_bytes(cover.len(), 8));
    assert(footer_of(file) == Ok::<nat, ErrorView>(cover.len()));
}

/// Why data cannot be put into a container of this name.
pub open spec fn wrap_refusal(
    name: Seq<char>,
    password: Option<Seq<char>>,
    plain_len: nat,
) -> Option<ErrorView> {
    match seal_refusal(password, 0) {
        Some(e) => Some(e),
        None => if encode_utf8(name).len() > u16::MAX {
            Some(Fault::NameTooLong)
        } else {
            seal_refusal(password, plain_len)
        },
    }
}

/// A file is a container of this cover, name and data.
pub open spec fn is_container(
    file: Seq<u8>,
    cover: Seq<u8>,
    name: Seq<char>,
    password: Option<Seq<char>>,
    plain: Seq<u8>,
) -> bool {
    exists|crypto: SealedStream| #[trigger]
        decrypts_to(crypto, password, plain) && file == container_file(cover, name, crypto, plain)
}

/// Whether a password is too long for a key to be derived from it.
fn password_too_long(password: Option<&str>) -> (out: bool)
    ensures
        out == (seal_refusal(text_of(password), 0) is Some),
{
    match password {
        Some(pw) => pw.as_bytes().len() as u64 > 0xffff_ffff,
        None => false,
    }
}

/// What putting `len` bytes into a container reports: how many are encrypted after
/// each full segment, or without a password each piece that is copied, then that all
/// is saved.
pub open spec fn wrap_log(len: nat, encrypted: bool) -> Seq<Report> {
    wrapping_log(len, encrypted).push(all_saved())
}

/// What encrypting or copying `len` bytes into a container reports.
pub open spec fn wrapping_log(len: nat, encrypted: bool) -> Seq<Report> {
    if encrypted {
        segments_log(len)
    } else {
        pieces_log(
            ProgressPhase::Prepare,
            STREAM_CHUNK as nat,
            pieces_of(len),
            len,
            len as u64,
        )
    }
}

/// Puts data into a container of a given cover and name, and reports in these units.
#[verifier::rlimit(40)]
pub(crate) fn wrap_scaled<P: ProgressSink>(
    cover: &[u8],
    name: &str,
    plain: Vec<u8>,
    password: Option<&str>,
    scale: Scale,
    progress: &mut P,
) -> (out: Result<Vec<u8>, Error>)
    ensures
        match wrap_refusal(name@, text_of(password), plain@.len()) {
            Some(e) => outcome(out) == Err::<Seq<u8>, ErrorView>(e),
            None => out is Ok && is_container(
                out->Ok_0@,
                cover@,
                name@,
                text_of(password),
                plain@,
            ),
        },
        out is Ok ==> told_all(
            *old(progress),
            all_scaled(scale, wrap_log(plain@.len(), password is Some)),
            *final(progress),
        ),
        only_told(*old(progress), *final(progress)),
{
    proof {
        lemma_nothing_told(*progress);
    }
    let ghost secret = text_of(password);
    if name.as_bytes().len() > u16::MAX as usize {
        if password_too_long(password) {
            return Err(
                Fault::KeyDerivation {
                    text: string_of(chars_of("password is too long").as_slice()),
                },
            );
        }
        return Err(Fault::NameTooLong);
    }
    let hash: [u8; 32] = sha256(plain.as_slice());
    let plain_len: u64 = plain.len() as u64;
    let ghost data = plain@;
    let ghost start = *progress;
    let crypto: CryptoStreamOutput = seal_payload(password, plain, scale, progress)?;
    let mut file: Vec<u8> = copy_range(cover, 0, cover.len());
    write_header(
        &mut file,
        crypto.encrypted,
        name,
        plain_len,
        crypto.salt.as_slice(),
        crypto.nonce.as_slice(),
        hash.as_slice(),
        crypto.cipher_len as u64,
    )?;
    let ghost log = wrapping_log(data.len(), password is Some);
    if crypto.encrypted {
        append(&mut file, crypto.data.as_slice());
    } else {
        copy_told(
            &mut file,
            crypto.data.as_slice(),
            ProgressPhase::Prepare,
            plain_len,
            scale,
            progress,
        );
    }
    write_footer(&mut file, cover.len() as u64);
    proof {
        assert(cover@.subrange(0, cover@.len() as int) =~= cover@);
        assert(decrypts_to(crypto@, secret, data));
        reveal(container_file);
        assert(file@ == container_file(cover@, name@, crypto@, data));
    }
    let r = Report { phase: ProgressPhase::Save, done: 1, total: 1 };
    tell(progress, scale, r, Ghost(start), Ghost(log));
    Ok(file)
}

/// Puts data into a container of a given cover and name.
pub fn wrap_bytes<P: ProgressSink>(
    cover: &[u8],
    name: &str,
    plain: Vec<u8>,
    password: Option<&str>,
    progress: &mut P,
) -> (out: Result<Vec<u8>, Error>)
    ensures
        match wrap_refusal(name@, text_of(password), plain@.len()) {
            Some(e) => outcome(out) == Err::<Seq<u8>, ErrorView>(e),
            None => out is Ok && is_container(
                out->Ok_0@,
                cover@,
                name@,
                text_of(password),
                plain@,
            ),
        },
        out is Ok ==> told_all(
            *old(progress),
            wrap_log(plain@.len(), password is Some),
            *final(progress),
        ),
        only_told(*old(progress), *final(progress)),
{
    proof {
        lemma_own(wrap_log(plain@.len(), password is Some));
    }
    wrap_scaled(cover, name, plain, password, Scale::Own, progress)
}

/// What putting a file of `len` bytes into a container reports: that nothing is
/// prepared, then what putting its content there reports.
pub open spec fn whole_wrap_log(len: nat, encrypted: bool) -> Seq<Report> {
    seq![Report { phase: ProgressPhase::Prepare, done: 0, total: 1 }] + wrap_log(len, encrypted)
}

/// Puts a file into a container. What it gives, gives the file back.
pub fn wrap_single_file_container_png<P: ProgressSink>(
    cover: Option<&FileEntry>,
    infile: FileEntry,
    out_png: &str,
    password: Option<&str>,
    progress: &mut P,
) -> (out: Result<Vec<u8>, Error>)
    ensures
        match cover_bytes(entry_of(cover), out_png@) {
            Err(e) => outcome(out) == Err::<Seq<u8>, ErrorView>(e),
            Ok(png) => match wrap_refusal(infile@.name, text_of(password), infile@.data.len()) {
                Some(e) => outcome(out) == Err::<Seq<u8>, ErrorView>(e),
                None => out is Ok && is_container(
                    out->Ok_0@,
                    png,
                    infile@.name,
                    text_of(password),
                    infile@.data,
                ),
            },
        },
        out is Ok && readable(infile@.name, text_of(password), infile@.data.len()) ==> unwrapped(
            out->Ok_0@,
            text_of(password),
        ) == Ok::<Entry, ErrorView>(
            Entry { name: last_component(infile@.name), data: infile@.data },
        ),
        cover is None && is_png_name(out_png@) && wrap_refusal(
            infile@.name,
            text_of(password),
            infile@.data.len(),
        ) is None ==> out is Ok,
        out is Ok ==> told_all(
            *old(progress),
            whole_wrap_log(infile@.data.len(), password is Some),
            *final(progress),
        ),
        only_told(*old(progress), *final(progress)),
{
    proof {
        lemma_nothing_told(*progress);
    }
    let ghost start = *progress;
    let r = Report { phase: ProgressPhase::Prepare, done: 0, total: 1 };
    let ghost none: Seq<Report> = Seq::empty();
    let ghost first = none.push(r);
    proof {
        lemma_own(none);
        lemma_own(first);
    }
    tell(progress, Scale::Own, r, Ghost(start), Ghost(none));
    let ghost mid = *progress;
    let png: Vec<u8> = write_cover_png(cover, out_png)?;
    let name: String = infile.name;
    let wrapped = wrap_bytes(png.as_slice(), name.as_str(), infile.data, password, progress);
    proof {
        lemma_only_told(start, mid, *progress);
    }
    let out: Vec<u8> = wrapped?;
    proof {
        lemma_wrapped_reads(out, png@, name@, text_of(password), infile@.data);
        let log = wrap_log(infile@.data.len(), password is Some);
        lemma_told_concat(start, first, mid, log, *progress);
        assert(first + log =~= whole_wrap_log(infile@.data.len(), password is Some));
    }
    Ok(out)
}

/// A container in memory can be read back.
proof fn lemma_wrapped_reads(
    file: Vec<u8>,
    cover: Seq<u8>,
    name: Seq<char>,
    password: Option<Seq<char>>,
    plain: Seq<u8>,
)
    requires
        is_container(file@, cover, name, password, plain),
    ensures
        readable(name, password, plain.len()) ==> contains(file@, name, password, plain)
            && unwrapped(file@, password) == Ok::<Entry, ErrorView>(
            Entry { name: last_component(name), data: plain },
        ),
{
    let crypto = choose|crypto: SealedStream| #[trigger]
        decrypts_to(crypto, password, plain) && file@ == container_file(cover, name, crypto, plain);
    assert(file@.len() == file.len());
    if readable(name, password, plain.len()) {
        law_container_round_trip(cover, name, crypto, password, plain);
    }
}

/// A container is recognized as one, whatever it contains.
pub proof fn law_container_is_recognized(
    cover: Seq<u8>,
    name: Seq<char>,
    crypto: SealedStream,
    password: Option<Seq<char>>,
    plain: Seq<u8>,
)
    requires
        decrypts_to(crypto, password, plain),
        container_file(cover, name, crypto, plain).len() <= u64::MAX,
    ensures
        footer_of(container_file(cover, name, crypto, plain)) == Ok::<nat, ErrorView>(cover.len()),
{
    let file = container_file(cover, name, crypto, plain);
    lemma_container_len(cover, name, crypto, password, plain);
    lemma_byte_ranges();
    lemma_be_round_trip(cover.len(), 8);
    let foot = file.skip(file.len() - FOOTER_LEN);
    assert(foot =~= footer_bytes(cover.len())) by {
        reveal(container_file);
    }
    assert(foot.subrange(0, 4) =~= CONTAINER_FOOTER_MAGIC@);
    assert(foot.subrange(5, 13) =~= be_bytes(cover.len(), 8));
}

/// What is encrypted in a container cannot be had without a password, and the
/// answer says so.
pub proof fn law_container_needs_password(file: Seq<u8>)
    requires
        container_of(file) matches Ok((h, _)) && h.encrypted,
    ensures
        unwrapped(file, None) == Err::<Entry, ErrorView>(Fault::PasswordRequired),
{
}

/// Where the cipher refuses the data of a container under the key that a password
/// gives, the file cannot be had, and the answer says so.
pub proof fn law_container_refuses_password(file: Seq<u8>, password: Seq<char>)
    requires
        container_of(file) matches Ok((h, data)) && h.encrypted && refuses(
            password,
            h.salt,
            h.nonce,
            data,
        ),
    ensures
        unwrapped(file, Some(password)) == Err::<Entry, ErrorView>(Fault::NotAuthentic),
{
    let (h, data) = container_of(file)->Ok_0;
    lemma_refused(password, h.salt, h.nonce, data);
}

/// A container starts with its cover, whose image it shows.
pub proof fn law_container_starts_with_cover(
    cover: Seq<u8>,
    name: Seq<char>,
    crypto: SealedStream,
    plain: Seq<u8>,
)
    ensures
        container_file(cover, name, crypto, plain).len() >= cover.len(),
        container_file(cover, name, crypto, plain).take(cover.len() as int) == cover,
{
    reveal(container_file);
    assert(container_file(cover, name, crypto, plain).take(cover.len() as int) =~= cover);
}

/// A file that is taken out of a container has the length and the hash that the
/// container states.
pub proof fn law_container_is_checked(file: Seq<u8>, password: Option<Seq<char>>)
    requires
        unwrapped(file, password) is Ok,
    ensures
        container_of(file) is Ok,
        ({
            let stated = container_of(file)->Ok_0.0;
            let data = unwrapped(file, password)->Ok_0.data;
            data.len() == stated.plain_len && sha256_of(data)@ == stated.sha256
        }),
{
}

/// With a cover, a container starts with the image of that cover, written again under
/// the container's name; where that fails, the text of the failure is the answer. The
/// name of the cover is the one that it is opened under.
pub proof fn law_container_shows_its_cover(file: Entry, out_name: Seq<char>)
    requires
        file.name.len() == 0 || file.name.last() != '.',
    ensures
        match recoded_image(file.name, file.data, out_name) {
            Ok(bytes) => cover_bytes(Some(file), out_name) == Ok::<Seq<u8>, ErrorView>(bytes),
            Err(text) => cover_bytes(Some(file), out_name) == Err::<Seq<u8>, ErrorView>(
                Fault::Image { text },
            ),
        },
{
}

/// A cover whose name ends in a dot is taken as one without a name.
pub proof fn law_dot_tells_no_format_of_a_cover(
    stem: Seq<char>,
    data: Seq<u8>,
    out_name: Seq<char>,
)
    ensures
        cover_bytes(Some(Entry { name: stem.push('.'), data }), out_name) == cover_bytes(
            Some(Entry { name: ""@, data }),
            out_name,
        ),
{
    reveal_strlit("");
}

/// Without a cover, a container starts with 512 by 512 light grey pixels that hide
/// nothing.
pub proof fn law_container_without_cover_is_grey(out_name: Seq<char>, pixels: Seq<u8>)
    requires
        pixels.len() == 4 * 512 * 512,
        forall|i: int|
            #![trigger pixels[i]]
            0 <= i < pixels.len() ==> pixels[i] == (if i % 4 == 3 {
                255u8
            } else {
                200u8
            }),
    ensures
        match encoded_image(out_name, 512, 512, pixels) {
            Ok(bytes) => cover_bytes(None, out_name) == Ok::<Seq<u8>, ErrorView>(bytes),
            Err(text) => cover_bytes(None, out_name) == Err::<Seq<u8>, ErrorView>(
                Fault::Image { text },
            ),
        },
{
    assert(plain_cover().data =~= pixels);
}

/// A cover that is given is the cover.
pub proof fn law_cover_is_handed_on(cover: &FileEntry)
    ensures
        entry_of(Some(cover)) == Some(Entry { name: cover.name@, data: cover.data@ }),
        entry_of(None) is None,
{
}

/// Where the fields of a container lie: the cover, then `F2C1`, version 1, a flag for
/// encryption, the length of the name in two bytes, the name, the plain length in eight,
/// the length of the salt in one, the salt, twelve bytes of nonce, the hash in 32, the
/// cipher length in eight, the data, then `F2CF`, version 1 and the place of the header
/// in eight.
#[verifier::rlimit(60)]
pub proof fn law_container_layout(
    cover: Seq<u8>,
    name: Seq<char>,
    crypto: SealedStream,
    plain: Seq<u8>,
)
    requires
        encode_utf8(name).len() <= 65_535,
        crypto.salt.len() <= 255,
        plain.len() <= u64::MAX,
        crypto.data.len() <= u64::MAX,
        cover.len() <= u64::MAX,
    ensures
        ({
            let file = container_file(cover, name, crypto, plain);
            let head = cover.len() as int;
            let n = encode_utf8(name).len() as int;
            let s = crypto.salt.len() as int;
            let from = head + 69 + n + s;
            let end = from + crypto.data.len();
            &&& file.len() == end + 13
            &&& file.take(head) == cover
            &&& file.subrange(head, head + 5) == seq![0x46u8, 0x32, 0x43, 0x31, 1]
            &&& file[head + 5] == (if crypto.encrypted {
                1u8
            } else {
                0u8
            })
            &&& be_value(file.subrange(head + 6, head + 8)) == n
            &&& file.subrange(head + 8, head + 8 + n) == encode_utf8(name)
            &&& be_value(file.subrange(head + 8 + n, head + 16 + n)) == plain.len()
            &&& file[head + 16 + n] as int == s
            &&& file.subrange(head + 17 + n, head + 17 + n + s) == crypto.salt
            &&& forall|i: int|
                0 <= i < 12 ==> #[trigger] file[head + 17 + n + s + i] == (if i
                    < crypto.nonce.len() {
                    crypto.nonce[i]
                } else {
                    0
                })
            &&& file.subrange(head + 29 + n + s, head + 61 + n + s) == sha256_of(plain)@
            &&& be_value(file.subrange(head + 61 + n + s, from)) == crypto.data.len()
            &&& file.subrange(from, end) == crypto.data
            &&& file.subrange(end, end + 5) == seq![0x46u8, 0x32, 0x43, 0x46, 1]
            &&& be_value(file.subrange(end + 5, end + 13)) == cover.len()
        }),
{
    let file = container_file(cover, name, crypto, plain);
    let head = cover.len() as int;
    let n = encode_utf8(name).len() as int;
    let s = crypto.salt.len() as int;
    let from = head + 69 + n + s;
    let end = from + crypto.data.len() as int;
    reveal(container_file);
    lemma_byte_ranges();
    lemma_be_round_trip(cover.len(), 8);
    lemma_be_round_trip(n as nat, 2);
    lemma_be_round_trip(plain.len(), 8);
    lemma_be_round_trip(crypto.data.len(), 8);
    assert(file.take(head) =~= cover);
    assert(file.subrange(head, head + 5) =~= seq![0x46u8, 0x32, 0x43, 0x31, 1]);
    assert(file.subrange(head + 6, head + 8) =~= be_bytes(n as nat, 2));
    assert(file.subrange(head + 8, head + 8 + n) =~= encode_utf8(name));
    assert(file.subrange(head + 8 + n, head + 16 + n) =~= be_bytes(plain.len(), 8));
    assert(file.subrange(head + 17 + n, head + 17 + n + s) =~= crypto.salt);
    assert forall|i: int| 0 <= i < 12 implies #[trigger] file[head + 17 + n + s + i] == (if i
        < crypto.nonce.len() {
        crypto.nonce[i]
    } else {
        0
    }) by {
        assert(file[head + 17 + n + s + i] == fixed_nonce(crypto.nonce, 12)[i]);
    }
    assert(file.subrange(head + 29 + n + s, head + 61 + n + s) =~= sha256_of(plain)@);
    assert(file.subrange(head + 61 + n + s, from) =~= be_bytes(crypto.data.len(), 8));
    assert(file.subrange(from, end) =~= crypto.data);
    assert(file.subrange(end, end + 5) =~= seq![0x46u8, 0x32, 0x43, 0x46, 1]);
    assert(file.subrange(end + 5, end + 13) =~= be_bytes(cover.len(), 8));
}

/// A file is taken for a container exactly where it ends in `F2CF`, version 1 and a
/// place before these 13 bytes; the answer says what is wrong with another.
pub proof fn law_containers_are_told_by_their_end(file: Seq<u8>)
    ensures
        ({
            let at = file.len() - 13;
            let out = footer_of(file);
            if file.len() < 13 {
                out == Err::<nat, ErrorView>(Fault::NotContainer)
            } else if file.subrange(at, at + 4) != seq![0x46u8, 0x32, 0x43, 0x46] {
                out == Err::<nat, ErrorView>(Fault::NoFooter)
            } else if file[at + 4] != 1 {
                out == Err::<nat, ErrorView>(Fault::UnsupportedContainer { version: file[at + 4] })
            } else if be_value(file.subrange(at + 5, at + 13)) >= at {
                out == Err::<nat, ErrorView>(Fault::InvalidFooter)
            } else {
                out == Ok::<nat, ErrorView>(be_value(file.subrange(at + 5, at + 13)))
            }
        }),
{
    let at = file.len() - 13;
    if file.len() >= 13 {
        let foot = file.skip(at);
        assert(foot.subrange(0, 4) =~= file.subrange(at, at + 4));
        assert(foot.subrange(5, 13) =~= file.subrange(at + 5, at + 13));
        assert(CONTAINER_FOOTER_MAGIC@ =~= seq![0x46u8, 0x32, 0x43, 0x46]);
    }
}

/// A container that is read is one, and says what stands in it: `F2C1` and version 1
/// where its end points to, a name of 1 to 4096 bytes, then its fields, and as many bytes
/// of data as they state, before the end.
pub proof fn law_container_is_what_stands_there(file: Seq<u8>)
    requires
        container_of(file) is Ok,
    ensures
        ({
            let (h, data) = container_of(file)->Ok_0;
            let end = file.len() - 13;
            let head = be_value(file.subrange(end + 5, end + 13)) as int;
            let n = be_value(file.subrange(head + 6, head + 8)) as int;
            let s = file[head + 16 + n] as int;
            let from = head + 69 + n + s;
            &&& file.subrange(end, end + 5) == seq![0x46u8, 0x32, 0x43, 0x46, 1]
            &&& file.subrange(head, head + 5) == seq![0x46u8, 0x32, 0x43, 0x31, 1]
            &&& 1 <= n <= 4096
            &&& h.encrypted == (file[head + 5] % 2 == 1)
            &&& h.name == text_in(file.subrange(head + 8, head + 8 + n))
            &&& h.plain_len == be_value(file.subrange(head + 8 + n, head + 16 + n))
            &&& h.salt == file.subrange(head + 17 + n, head + 17 + n + s)
            &&& h.nonce == file.subrange(head + 17 + n + s, head + 29 + n + s)
            &&& h.sha256 == file.subrange(head + 29 + n + s, head + 61 + n + s)
            &&& data.len() == be_value(file.subrange(head + 61 + n + s, from))
            &&& data.len() > 0
            &&& from + data.len() <= end
            &&& data == file.subrange(from, from + data.len())
        }),
{
    let end = file.len() - 13;
    law_containers_are_told_by_their_end(file);
    let head = be_value(file.subrange(end + 5, end + 13)) as int;
    let n = be_value(file.subrange(head + 6, head + 8)) as int;
    lemma_be_value_bound(file.subrange(head + 8 + n, head + 16 + n));
    lemma_byte_ranges();
    assert(file.subrange(end, end + 5) =~= seq![0x46u8, 0x32, 0x43, 0x46, 1]) by {
        assert forall|i: int| 0 <= i < 4 implies file[end + i] == seq![
            0x46u8,
            0x32,
            0x43,
            0x46,
        ][i] by {
            assert(file.subrange(end, end + 4)[i] == file[end + i]);
        }
    }
    assert(CONTAINER_MAGIC@ =~= seq![0x46u8, 0x32, 0x43, 0x31]);
    assert(file.subrange(head, head + 5) =~= seq![0x46u8, 0x32, 0x43, 0x31, 1]) by {
        assert forall|i: int| 0 <= i < 4 implies file[head + i] == seq![
            0x46u8,
            0x32,
            0x43,
            0x31,
        ][i] by {
            assert(file.subrange(head, head + 4)[i] == file[head + i]);
        }
    }
}

/// The data of a container is had exactly where it decrypts, and has the length and the
/// hash that the container states; the answer says which of these fails.
pub proof fn law_container_data_is_checked(
    h: ContainerFields,
    data: Seq<u8>,
    password: Option<Seq<char>>,
)
    ensures
        match opened_payload_stream(password, h.salt, h.nonce, data, h.encrypted) {
            Err(e) => decoded_container(h, data, password) == Err::<Seq<u8>, ErrorView>(e),
            Ok((plain, true)) => decoded_container(h, data, password) == Err::<Seq<u8>, ErrorView>(
                Fault::NotAuthentic,
            ),
            Ok((plain, false)) => {
                &&& plain.len() == h.plain_len && sha256_of(plain)@ == h.sha256
                    ==> decoded_container(h, data, password) == Ok::<Seq<u8>, ErrorView>(plain)
                &&& plain.len() != h.plain_len ==> decoded_container(h, data, password) == Err::<
                    Seq<u8>,
                    ErrorView,
                >(
                    Fault::ContainerLenMismatch {
                        extracted: plain.len() as u64,
                        stated: h.plain_len,
                    },
                )
                &&& plain.len() == h.plain_len && sha256_of(plain)@ != h.sha256
                    ==> decoded_container(h, data, password) == Err::<Seq<u8>, ErrorView>(
                    Fault::ContainerShaMismatch,
                )
            },
        },
{
}

/// What is taken out of a file is the data of the container that it is, under the last
/// component of the stored name; what is wrong with the container is the answer.
pub proof fn law_unwrap_takes_the_data_out(file: Seq<u8>, password: Option<Seq<char>>)
    ensures
        match container_of(file) {
            Err(e) => unwrapped(file, password) == Err::<Entry, ErrorView>(e),
            Ok((h, data)) => match decoded_container(h, data, password) {
                Err(e) => unwrapped(file, password) == Err::<Entry, ErrorView>(e),
                Ok(plain) => unwrapped(file, password) == Ok::<Entry, ErrorView>(
                    Entry { name: last_component(h.name), data: plain },
                ),
            },
        },
        footer_of(file) matches Err(e) ==> unwrapped(file, password) == Err::<Entry, ErrorView>(e),
{
}

/// A container gives back what was put into it, under a name of 1 to 4096 bytes and, with
/// no password, where there is any data; it starts with its cover and is recognized, and
/// its length is that of the cover, the name and the data with 82 bytes more, and with a
/// password 22 bytes of salt and the tags.
pub proof fn law_container_gives_back(
    file: Seq<u8>,
    cover: Seq<u8>,
    name: Seq<char>,
    password: Option<Seq<char>>,
    plain: Seq<u8>,
)
    requires
        is_container(file, cover, name, password, plain),
        file.len() <= u64::MAX,
    ensures
        file.take(cover.len() as int) == cover,
        footer_of(file) == Ok::<nat, ErrorView>(cover.len()),
        file.len() == cover.len() + encode_utf8(name).len() + 82 + plain.len() + (
        if password is Some {
            22 + 16 * (plain.len() / 4_194_304 + 1)
        } else {
            0
        }),
        1 <= encode_utf8(name).len() <= 4096 && (password is Some || plain.len() > 0) ==> unwrapped(
            file,
            password,
        ) == Ok::<Entry, ErrorView>(Entry { name: last_component(name), data: plain }),
        1 <= encode_utf8(name).len() <= 4096 && (password is Some || plain.len() > 0) ==> (
        container_of(file) matches Ok((h, data)) && h.name == name && h.plain_len == plain.len()
            && h.encrypted == (password is Some) && decoded_container(h, data, password) == Ok::<
            Seq<u8>,
            ErrorView,
        >(plain)),
{
    let crypto = choose|crypto: SealedStream| #[trigger]
        decrypts_to(crypto, password, plain) && file == container_file(cover, name, crypto, plain);
    law_sealed_stream(crypto, password, plain);
    lemma_container_len(cover, name, crypto, password, plain);
    law_container_is_recognized(cover, name, crypto, password, plain);
    law_container_starts_with_cover(cover, name, crypto, plain);
    if 1 <= encode_utf8(name).len() <= 4096 && (password is Some || plain.len() > 0) {
        law_container_round_trip(cover, name, crypto, password, plain);
        lemma_container_fields(cover, name, crypto, password, plain);
    }
}

/// A file is refused for a container only where its name is longer than 65535 bytes, or
/// where it cannot be encrypted.
pub proof fn law_what_can_be_wrapped(
    name: Seq<char>,
    password: Option<Seq<char>>,
    plain_len: nat,
)
    ensures
        ({
            let out = wrap_refusal(name, password, plain_len);
            if password matches Some(text) && encode_utf8(text).len() > 4_294_967_295 {
                out == Some::<ErrorView>(Fault::KeyDerivation { text: "password is too long"@ })
            } else if encode_utf8(name).len() > 65_535 {
                out == Some::<ErrorView>(Fault::NameTooLong)
            } else if password is Some && plain_len >= 4_294_967_296 * 4_194_304 {
                out == Some::<ErrorView>(Fault::Aead)
            } else {
                out is None
            }
        }),
        readable(name, password, plain_len) <==> 1 <= encode_utf8(name).len() <= 4096 && (
        password is Some || plain_len > 0),
{
    law_what_can_be_encrypted(password, plain_len);
    law_what_can_be_encrypted(password, 0);
}

/// How long data is in a container, and how long the rest of the container is.
pub proof fn law_container_lengths(n: nat, cover: nat, name: nat, salt: nat)
    ensures
        container_cipher_len(n, false) == n,
        container_cipher_len(n, true) == n + 16 * (n / 4_194_304 + 1),
        container_overhead(cover, name, salt) == cover + name + salt + 82,
{
    assert((n / 4_194_304 + 1) * 16 == 16 * (n / 4_194_304 + 1));
}

/// The largest length of data within a limit: with it a container stays within the
/// limit, and with one byte more it does not.
pub proof fn law_largest_plain(plain: nat, limit: nat, overhead: nat, encrypted: bool)
    ensures
        largest_plain(plain, limit, overhead, encrypted) <==> overhead + container_cipher_len(
            plain,
            encrypted,
        ) <= limit && overhead + container_cipher_len(plain + 1, encrypted) > limit,
{
    if overhead + container_cipher_len(plain, encrypted) <= limit && overhead
        + container_cipher_len(plain + 1, encrypted) > limit {
        assert forall|more: nat| plain < more implies overhead + #[trigger] container_cipher_len(
            more,
            encrypted,
        ) > limit by {
            lemma_cipher_len_grows(plain + 1, more, encrypted);
        }
    }
    if largest_plain(plain, limit, overhead, encrypted) {
        assert(overhead + container_cipher_len(plain + 1, encrypted) > limit);
    }
}

/// What wrapping and unwrapping report: each 4194304 bytes that are copied, encrypted or
/// decoded, the rest where it is not encrypted or is decoded, and at the end that all is
/// saved.
pub proof fn law_container_reports(len: nat, encrypted: bool, i: int)
    requires
        len <= u64::MAX,
    ensures
        ({
            let log = whole_wrap_log(len, encrypted);
            let pieces = if encrypted {
                len / 4_194_304
            } else {
                (len + 4_194_303) as nat / 4_194_304
            };
            &&& log.len() == pieces + 2
            &&& log[0] == (Report { phase: ProgressPhase::Prepare, done: 0, total: 1 })
            &&& log.last() == (Report { phase: ProgressPhase::Save, done: 1, total: 1 })
            &&& wrap_log(len, encrypted) == log.skip(1)
            &&& 0 < i <= pieces ==> log[i] == (Report {
                phase: if encrypted {
                    ProgressPhase::Encrypt
                } else {
                    ProgressPhase::Prepare
                },
                done: (if i * 4_194_304 < len {
                    i * 4_194_304
                } else {
                    len as int
                }) as u64,
                total: len as u64,
            })
        }),
{
    let log = whole_wrap_log(len, encrypted);
    assert(log.skip(1) =~= wrap_log(len, encrypted));
}

/// What decoding a container reports: for each segment, or each 4194304 bytes that are
/// not encrypted, how many bytes are there.
pub proof fn law_decoding_reports(encrypted: bool, data_len: nat, plain_len: u64, i: int)
    ensures
        ({
            let log = decoding_log(encrypted, data_len, plain_len);
            &&& log.len() == (if encrypted {
                (data_len + 4_194_319) as nat / 4_194_320
            } else {
                (data_len + 4_194_303) as nat / 4_194_304
            })
            &&& 0 <= i < log.len() ==> log[i] == (Report {
                phase: if encrypted {
                    ProgressPhase::Decrypt
                } else {
                    ProgressPhase::Parse
                },
                done: (if (i + 1) * 4_194_304 < plain_len {
                    (i + 1) * 4_194_304
                } else {
                    plain_len as int
                }) as u64,
                total: plain_len,
            })
        }),
{
}

/// A header in memory says what its fields hold.
pub proof fn law_container_header_in_memory(h: ContainerHeader)
    ensures
        h@ == (ContainerFields {
            encrypted: h.encrypted,
            name: h.name@,
            plain_len: h.plain_len,
            salt: h.salt@,
            nonce: h.nonce@,
            sha256: h.sha256@,
        }),
{
}

/// What is no container header is refused, and the answer says why: it ends too early,
/// does not start with `F2C1`, has another version than 1, has no name or one of more
/// than 4096 bytes, leaves no data before the end of the file, or states none or more
/// than there is.
pub proof fn law_container_headers_are_told_apart(file: Seq<u8>, head: int)
    requires
        0 <= head,
    ensures
        ({
            let out = container_header_of(file, head);
            let n = be_value(file.subrange(head + 6, head + 8)) as int;
            let s = file[head + 16 + n] as int;
            let from = head + 69 + n + s;
            let stated = be_value(file.subrange(from - 8, from)) as int;
            if file.len() < head + 4 {
                out == Err::<(ContainerFields, int, int), ErrorView>(Fault::UnexpectedEof)
            } else if file.subrange(head, head + 4) != seq![0x46u8, 0x32, 0x43, 0x31] {
                out == Err::<(ContainerFields, int, int), ErrorView>(Fault::BadContainerMagic)
            } else if file.len() > head + 4 && file[head + 4] != 1 {
                out == Err::<(ContainerFields, int, int), ErrorView>(
                    Fault::UnsupportedContainer { version: file[head + 4] },
                )
            } else if file.len() < head + 8 {
                out == Err::<(ContainerFields, int, int), ErrorView>(Fault::UnexpectedEof)
            } else if n == 0 || n > 4096 {
                out == Err::<(ContainerFields, int, int), ErrorView>(Fault::InvalidContainerName)
            } else if file.len() < head + 17 + n || file.len() < from {
                out == Err::<(ContainerFields, int, int), ErrorView>(Fault::UnexpectedEof)
            } else if file.len() <= from + 13 {
                out == Err::<(ContainerFields, int, int), ErrorView>(Fault::ContainerWithoutData)
            } else if stated == 0 || from + stated + 13 > file.len() {
                out == Err::<(ContainerFields, int, int), ErrorView>(Fault::InvalidCipherLen)
            } else {
                out is Ok && out->Ok_0.1 == from && out->Ok_0.2 == from + stated
            }
        }),
{
    assert(CONTAINER_MAGIC@ =~= seq![0x46u8, 0x32, 0x43, 0x31]);
}

/// A container is read where its end points to, and what is wrong there is the answer.
pub proof fn law_container_is_read_where_it_lies(file: Seq<u8>)
    ensures
        match footer_of(file) {
            Err(e) => container_of(file) == Err::<(ContainerFields, Seq<u8>), ErrorView>(e),
            Ok(head) => match container_header_of(file, head as int) {
                Err(e) => container_of(file) == Err::<(ContainerFields, Seq<u8>), ErrorView>(e),
                Ok((h, from, to)) => container_of(file) == Ok::<
                    (ContainerFields, Seq<u8>),
                    ErrorView,
                >((h, file.subrange(from, to))),
            },
        },
{
}

} // verus!
