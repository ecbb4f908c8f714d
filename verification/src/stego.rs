//! Hiding files in images and taking them out again.
use crate::bytes::lemma_be_bytes_len;
use crate::crypto::{
    decrypts_to, encrypt_payload_stream, law_what_can_be_encrypted, lemma_refused, lemma_stream_log, opened_payload_stream,
    refuses, seal_refusal, stream_len, stream_log, text_of, CryptoStreamOutput, SealedStream,
    StreamDecryptReader, SALT_LEN, STREAM_CHUNK, TAG_SIZE,
};
use crate::error::{outcome, Error, ErrorView, Fault};
use crate::format::{
    build_header, fixed_nonce, header_bytes, law_header_round_trip, lemma_header_len, parse_header,
    parsed_header, Header, HeaderView, HEADER_FIXED_LEN,
};
use crate::lsb::{
    capacity, capacity_bytes, embed_lsb_parallel, embedded, embedding, embedding_log, extracted,
    fits, grown, law_capacity, law_embed_extract, lemma_growth_countable, roomy, valid_bpc, BitStreamReader,
    BlobRef, Growth,
};
use crate::number::counted64;
use crate::payload::{
    all_restored, build_payload_multi_streaming, build_payload_single_streaming, contents_len,
    entries_bytes, entries_of, law_multi_streamed, law_plain_name_stays, law_plain_names_stay,
    law_single_streamed, lemma_entries_push, lemma_entry_len, multi_payload, name_fits,
    name_restorable, parse_payload_streaming, payload_outcome, plain_component, restored,
    single_payload, streamed_payload, unread, Entry, FileEntry, PayloadFault, PayloadFile, Unread,
    MAX_FILES,
};
use crate::progress::{
    counts_up, lemma_counted_steady, lemma_nothing_told, lemma_only_told, lemma_own,
    lemma_told_concat, only_told, tell, told_all, ProgressPhase, ProgressSink, Report, Scale,
    Silent,
};
use crate::raster::{
    decoded_image, encoded_image, is_png_name, law_png_names, lossless, open_image, opened, resizable, save_image, saved, Opened,
    OpenedImage, Raster, RgbaImage, MAX_DECODED, MAX_WIDTH,
};
use crate::source::{ByteSource, SliceSource};
use vstd::prelude::*;
use vstd::utf8::encode_utf8;

verus! {

/// How files are hidden.
#[derive(Debug)]
pub struct EncryptOptions {
    pub password: Option<String>,
    pub bpc: u8,
    pub allow_upscale: bool,
}

impl Clone for EncryptOptions {
    fn clone(&self) -> (out: EncryptOptions)
        ensures
            string_text(out.password) == string_text(self.password),
            out.bpc == self.bpc,
            out.allow_upscale == self.allow_upscale,
    {
        let password: Option<String> = match &self.password {
            Some(text) => Some(text.clone()),
            None => None,
        };
        EncryptOptions { password, bpc: self.bpc, allow_upscale: self.allow_upscale }
    }
}

/// What hiding gives: the image file and some facts about it.
#[derive(Debug)]
pub struct EmbedResult {
    pub stego: FileEntry,
    pub out_width: u32,
    pub out_height: u32,
    pub encrypted: bool,
    pub file_count: usize,
}

/// The mathematical view of what hiding gives.
#[verifier::ext_equal]
pub struct Hidden {
    pub stego: Entry,
    pub out_width: u32,
    pub out_height: u32,
    pub encrypted: bool,
    pub file_count: usize,
}

impl View for EmbedResult {
    type V = Hidden;

    open spec fn view(&self) -> Hidden {
        Hidden {
            stego: self.stego@,
            out_width: self.out_width,
            out_height: self.out_height,
            encrypted: self.encrypted,
            file_count: self.file_count,
        }
    }
}

/// What revealing gives: the files and some facts about them.
#[derive(Debug)]
pub struct RevealResult {
    pub outputs: Vec<FileEntry>,
    pub encrypted: bool,
    pub multi: bool,
}

/// The mathematical view of what revealing gives.
#[verifier::ext_equal]
pub struct Revealed {
    pub outputs: Seq<Entry>,
    pub encrypted: bool,
    pub multi: bool,
}

impl View for RevealResult {
    type V = Revealed;

    open spec fn view(&self) -> Revealed {
        Revealed {
            outputs: entries_of(self.outputs@),
            encrypted: self.encrypted,
            multi: self.multi,
        }
    }
}

/// The text of an optional password.
pub open spec fn string_text(password: Option<String>) -> Option<Seq<char>> {
    match password {
        Some(text) => Some(text@),
        None => None,
    }
}

/// `n`, as far as it can be counted.
pub open spec fn counted(n: nat) -> nat {
    if n <= usize::MAX {
        n
    } else {
        usize::MAX as nat
    }
}

/// The length of a payload after encryption.
pub open spec fn cipher_len_of(plain_len: nat, encrypted: bool) -> nat {
    if encrypted {
        stream_len(plain_len)
    } else {
        plain_len
    }
}

/// The length of the header and the payload that are hidden.
pub open spec fn hidden_len(plain_len: nat, encrypted: bool) -> nat {
    HEADER_FIXED_LEN as nat + (if encrypted {
        SALT_LEN as nat
    } else {
        0
    }) + cipher_len_of(plain_len, encrypted)
}

/// The length of a payload after encryption, known beforehand.
pub fn estimate_cipher_len(plain_len: usize, encrypted: bool) -> (out: usize)
    ensures
        out == counted(cipher_len_of(plain_len as nat, encrypted)),
{
    if !encrypted {
        return plain_len;
    }
    let tag_blocks: usize = plain_len / STREAM_CHUNK + 1;
    plain_len.saturating_add(tag_blocks * TAG_SIZE)
}

/// The length of all that is hidden, known beforehand.
pub fn hidden_bytes(plain_len: usize, encrypted: bool) -> (out: usize)
    ensures
        out == counted(hidden_len(plain_len as nat, encrypted)),
{
    let salt_len: usize = if encrypted {
        SALT_LEN
    } else {
        0
    };
    estimate_cipher_len(plain_len, encrypted).saturating_add(HEADER_FIXED_LEN + salt_len)
}

/// Whether a payload of `plain_len` bytes is known beforehand to fit an image.
pub open spec fn preflight(
    img: Raster,
    bpc: u8,
    allow_upscale: bool,
    encrypted: bool,
    plain_len: nat,
    growth: Growth,
) -> Result<(), ErrorView> {
    let needed = counted(hidden_len(plain_len, encrypted));
    let cap = capacity(img, bpc as int);
    if needed <= cap {
        Ok(())
    } else if !allow_upscale {
        Err(Fault::DoesNotFit { capacity: cap as usize, needed: needed as usize })
    } else if growth.pixels() > growth.max_pixels {
        Err(
            Fault::CoverTooSmall {
                bpc,
                width: growth.width,
                height: growth.height,
                pixels: growth.pixels() as u64,
            },
        )
    } else {
        Ok(())
    }
}

/// Tells beforehand whether a payload of `plain_len` bytes fits an image.
pub fn preflight_capacity(
    img: &RgbaImage,
    bpc: u8,
    allow_upscale: bool,
    encrypted: bool,
    plain_len: usize,
    growth: Growth,
) -> (out: Result<(), Error>)
    ensures
        outcome(out) == preflight(
            img@,
            bpc,
            allow_upscale,
            encrypted,
            plain_len as nat,
            growth,
        ),
{
    let needed: usize = hidden_bytes(plain_len, encrypted);
    let cap: usize = capacity_bytes(img, bpc);
    if needed <= cap {
        return Ok(());
    }
    if !allow_upscale {
        return Err(Fault::DoesNotFit { capacity: cap, needed });
    }
    let pixels: u64 = growth.count();
    if pixels > growth.max_pixels {
        return Err(
            Fault::CoverTooSmall { bpc, width: growth.width, height: growth.height, pixels },
        );
    }
    Ok(())
}

/// The header and payload in the low bits of an image, or why there are none.
pub open spec fn extracted_payload(img: Raster, bpc: int) -> Result<
    (Seq<u8>, HeaderView),
    ErrorView,
> {
    let all = extracted(img, bpc);
    let header_len = HEADER_FIXED_LEN + all[8];
    if !valid_bpc(bpc) {
        Err(Fault::InvalidBpc)
    } else if all.len() < 9 || all.len() < header_len {
        Err(Fault::ExtractTruncated)
    } else {
        match parsed_header(all.take(header_len)) {
            Err(e) => Err(e),
            Ok(h) => if all.len() < h.header_size + h.cipher_len {
                Err(Fault::ExtractTruncated)
            } else {
                Ok((all.subrange(h.header_size as int, h.header_size + h.cipher_len), h))
            },
        }
    }
}

/// What reading a payload of `total` bytes behind a header reports: how many bytes
/// are read, from the end of the header on, for each byte of the `len` behind it.
pub open spec fn reading_log(header_size: nat, len: nat, total: nat) -> Seq<Report> {
    Seq::new(
        len + 1,
        |i: int|
            Report {
                phase: ProgressPhase::Extract,
                done: (header_size + i) as u64,
                total: total as u64,
            },
    )
}

/// Reads bytes of an image until `buf` has `len` of them.
fn read_up_to(reader: &mut BitStreamReader, buf: &mut Vec<u8>, len: usize) -> (out: Result<
    (),
    Error,
>)
    requires
        old(reader).wf(),
        old(buf)@.len() <= len,
        old(buf)@.len() <= extracted(old(reader)@.image, old(reader)@.bpc).len(),
        old(buf)@ == extracted(old(reader)@.image, old(reader)@.bpc).take(old(buf)@.len() as int),
        old(reader)@.bits == 8 * old(buf)@.len(),
    ensures
        final(reader).wf(),
        final(reader)@.image == old(reader)@.image,
        final(reader)@.bpc == old(reader)@.bpc,
        ({
            let all = extracted(old(reader)@.image, old(reader)@.bpc);
            match out {
                Ok(_) => len <= all.len() && final(buf)@ == all.take(len as int)
                    && final(reader)@.bits == 8 * len,
                Err(e) => all.len() < len && e@ == ErrorView::ExtractTruncated,
            }
        }),
{
    let ghost all = extracted(reader@.image, reader@.bpc);
    while buf.len() < len
        invariant
            reader.wf(),
            reader@.image == old(reader)@.image,
            reader@.bpc == old(reader)@.bpc,
            all == extracted(reader@.image, reader@.bpc),
            buf@.len() <= len,
            buf@.len() <= all.len(),
            buf@ == all.take(buf@.len() as int),
            reader@.bits == 8 * buf@.len(),
        decreases len - buf.len(),
    {
        match reader.next_byte() {
            None => {
                return Err(Fault::ExtractTruncated);
            },
            Some(byte) => {
                buf.push(byte);
                assert(buf@ =~= all.take(buf@.len() as int));
            },
        }
    }
    Ok(())
}

/// Reads the header and payload in the low bits of an image.
pub fn extract_payload<P: ProgressSink>(img: &RgbaImage, bpc: u8, progress: &mut P) -> (out: Result<
    (Vec<u8>, Header),
    Error,
>)
    ensures
        match out {
            Ok((data, header)) => extracted_payload(img@, bpc as int) == Ok::<
                (Seq<u8>, HeaderView),
                ErrorView,
            >((data@, header@)),
            Err(e) => extracted_payload(img@, bpc as int) == Err::<
                (Seq<u8>, HeaderView),
                ErrorView,
            >(e@),
        },
        out matches Ok((data, header)) ==> told_all(
            *old(progress),
            reading_log(
                header@.header_size as nat,
                data@.len(),
                header@.header_size as nat + data@.len(),
            ),
            *final(progress),
        ),
        only_told(*old(progress), *final(progress)),
{
    proof {
        lemma_nothing_told(*progress);
    }
    let mut reader: BitStreamReader = BitStreamReader::new(img, bpc)?;
    let ghost all = extracted(img@, bpc as int);
    let capacity_bits: usize = reader.capacity_bits();
    let mut buf: Vec<u8> = Vec::new();
    assert(buf@ =~= all.take(0));
    read_up_to(&mut reader, &mut buf, 9)?;
    let header_len: usize = HEADER_FIXED_LEN + buf[8] as usize;
    assert(buf@[8] == all[8]);
    read_up_to(&mut reader, &mut buf, header_len)?;
    let header: Header = parse_header(buf.as_slice())?;
    if header.cipher_len > usize::MAX - header.header_size {
        assert(all.len() <= capacity_bits);
        return Err(Fault::ExtractTruncated);
    }
    let total: usize = header.header_size + header.cipher_len;
    let ghost none: Seq<Report> = Seq::empty();
    let ghost mut log: Seq<Report> = none;
    let r = Report {
        phase: ProgressPhase::Extract,
        done: header.header_size as u64,
        total: total as u64,
    };
    proof {
        lemma_own(none);
        lemma_own(none.push(r));
        log = none.push(r);
        assert(log =~= reading_log(header.header_size as nat, 0, total as nat));
    }
    tell(progress, Scale::Own, r, Ghost(*old(progress)), Ghost(none));
    while buf.len() < total
        invariant
            reader.wf(),
            reader@.image == img@,
            reader@.bpc == bpc,
            all == extracted(img@, bpc as int),
            header.header_size <= buf@.len() <= total,
            all.len() < total ==> extracted_payload(img@, bpc as int) == Err::<
                (Seq<u8>, HeaderView),
                ErrorView,
            >(ErrorView::ExtractTruncated),
            buf@.len() <= all.len(),
            buf@ == all.take(buf@.len() as int),
            reader@.bits == 8 * buf@.len(),
            told_all(*old(progress), log, *progress),
            log == reading_log(
                header.header_size as nat,
                (buf@.len() - header.header_size) as nat,
                total as nat,
            ),
        decreases total - buf.len(),
    {
        let next: usize = buf.len() + 1;
        read_up_to(&mut reader, &mut buf, next)?;
        let r = Report {
            phase: ProgressPhase::Extract,
            done: next as u64,
            total: total as u64,
        };
        proof {
            lemma_own(log);
            lemma_own(log.push(r));
        }
        tell(progress, Scale::Own, r, Ghost(*old(progress)), Ghost(log));
        proof {
            log = log.push(r);
            assert(log =~= reading_log(
                header.header_size as nat,
                (next - header.header_size) as nat,
                total as nat,
            ));
        }
    }
    let data: Vec<u8> = crate::bytes::copy_range(buf.as_slice(), header.header_size, total);
    assert(data@ =~= all.subrange(header.header_size as int, total as int));
    Ok((data, header))
}

/// The header and payload that are hidden.
pub open spec fn hidden_blob(crypto: SealedStream, bpc: u8, multi: bool) -> Seq<u8> {
    header_bytes(
        bpc,
        crypto.encrypted,
        multi,
        crypto.salt,
        crypto.nonce,
        crypto.cipher_len as nat,
        crypto.plain_len as nat,
    ) + crypto.data
}

/// What hiding a payload that is encrypted, or meant to be plain, gives, or why it
/// is not hidden.
pub open spec fn hidden(
    img: Opened,
    crypto: SealedStream,
    bpc: u8,
    multi: bool,
    allow_upscale: bool,
    growth: Growth,
    output: Seq<char>,
    file_count: usize,
) -> Result<Hidden, ErrorView> {
    match embedding(img, hidden_blob(crypto, bpc, multi), bpc as int, allow_upscale, growth) {
        Err(e) => Err(e),
        Ok(r) => match saved(r, output) {
            Err(e) => Err(e),
            Ok(data) => Ok(
                Hidden {
                    stego: Entry { name: output, data },
                    out_width: r.width,
                    out_height: r.height,
                    encrypted: crypto.encrypted,
                    file_count,
                },
            ),
        },
    }
}

/// What is revealed of an image file, or the files before the first that cannot be
/// read, and why it cannot.
pub open spec fn revealed(stego: Entry, bpc: u8, password: Option<Seq<char>>) -> Result<
    Revealed,
    Unread,
> {
    match opened(stego) {
        Err(e) => Err(unread(e)),
        Ok(img) => match extracted_payload(img.image, bpc as int) {
            Err(e) => Err(unread(e)),
            Ok((data, h)) => if h.bpc != bpc {
                Err(unread(Fault::BpcMismatch { given: bpc, found: h.bpc }))
            } else {
                match opened_payload_stream(password, h.salt, h.nonce, data, h.encrypted) {
                    Err(e) => Err(unread(e)),
                    Ok((plain, broken)) => match streamed_payload(plain, broken) {
                        Err(u) => Err(u),
                        Ok(outputs) => Ok(
                            Revealed { outputs, encrypted: h.encrypted, multi: h.multi },
                        ),
                    },
                }
            },
        },
    }
}

/// Whether an image file, under this name, is a PNG that can be decoded: one that is
/// within the decoder's limit, or that it decodes all the same.
pub open spec fn decodable(out: Hidden, name: Seq<char>) -> bool {
    &&& is_png_name(out.stego.name)
    &&& is_png_name(name)
    &&& 4 * (out.out_width as nat * out.out_height as nat) <= MAX_DECODED || decoded_image(
        name,
        out.stego.data,
    ) is Ok
}

/// An image file reveals the files of a payload.
pub open spec fn reveals(
    out: Hidden,
    bpc: u8,
    password: Option<Seq<char>>,
    plain: Seq<u8>,
    multi: bool,
) -> bool {
    forall|name: Seq<char>| #[trigger]
        decodable(out, name) ==> revealed(Entry { name, data: out.stego.data }, bpc, password) == (
        match streamed_payload(plain, false) {
            Err(u) => Err::<Revealed, Unread>(u),
            Ok(outputs) => Ok(Revealed { outputs, encrypted: out.encrypted, multi }),
        })
}

/// An image file carries a payload that can be moved to any cover that opens.
pub open spec fn carries(
    out: Hidden,
    bpc: u8,
    password: Option<Seq<char>>,
    plain: Seq<u8>,
    multi: bool,
) -> bool {
    forall|name: Seq<char>, new_cover: Entry|
        #![trigger decodable(out, name), opened(new_cover)]
        decodable(out, name) && opened(new_cover) is Ok ==> swapped(
            Entry { name, data: out.stego.data },
            new_cover,
            bpc,
            password,
        ) == Ok::<(Opened, Seq<u8>, bool), ErrorView>((opened(new_cover)->Ok_0, plain, multi))
}

/// The payload that was embedded in an image with room for it is extracted again.
#[verifier::rlimit(40)]
proof fn lemma_embedded_extracted(
    img: Raster,
    crypto: SealedStream,
    password: Option<Seq<char>>,
    plain: Seq<u8>,
    bpc: u8,
    multi: bool,
)
    requires
        img.wf(),
        valid_bpc(bpc as int),
        decrypts_to(crypto, password, plain),
        hidden_blob(crypto, bpc, multi).len() <= capacity(img, bpc as int),
    ensures
        extracted_payload(
            Raster {
                data: embedded(img.data, hidden_blob(crypto, bpc, multi), bpc as int),
                ..img
            },
            bpc as int,
        ) == Ok::<(Seq<u8>, HeaderView), ErrorView>(
            (
                crypto.data,
                HeaderView {
                    bpc,
                    encrypted: crypto.encrypted,
                    multi,
                    salt: crypto.salt,
                    nonce: fixed_nonce(crypto.nonce, 12),
                    cipher_len: crypto.cipher_len,
                    plain_len: crypto.plain_len,
                    header_size: (HEADER_FIXED_LEN + crypto.salt.len()) as usize,
                },
            ),
        ),
{
    let blob = hidden_blob(crypto, bpc, multi);
    let head = header_bytes(
        bpc,
        crypto.encrypted,
        multi,
        crypto.salt,
        crypto.nonce,
        crypto.cipher_len as nat,
        crypto.plain_len as nat,
    );
    let after = Raster { data: embedded(img.data, blob, bpc as int), ..img };
    let all = extracted(after, bpc as int);
    let header_len = HEADER_FIXED_LEN + crypto.salt.len() as int;
    lemma_header_len(
        bpc,
        crypto.encrypted,
        multi,
        crypto.salt,
        crypto.nonce,
        crypto.cipher_len as nat,
        crypto.plain_len as nat,
    );
    law_embed_extract(img, blob, bpc as int);
    law_header_round_trip(
        bpc,
        crypto.encrypted,
        multi,
        crypto.salt,
        crypto.nonce,
        crypto.cipher_len,
        crypto.plain_len,
        Seq::empty(),
    );
    assert(all.take(blob.len() as int)[8] == blob[8]);
    assert(all.take(header_len) =~= head + Seq::<u8>::empty()) by {
        assert(all.take(header_len) =~= all.take(blob.len() as int).take(header_len));
    }
    assert(all.subrange(header_len, header_len + crypto.cipher_len) =~= crypto.data) by {
        assert(all.subrange(header_len, header_len + crypto.cipher_len) =~= all.take(
            blob.len() as int,
        ).skip(header_len));
    }
}

/// An image file that decodes to an image with an embedded payload reveals it.
proof fn lemma_hidden_reveals(
    img: Opened,
    crypto: SealedStream,
    bpc: u8,
    multi: bool,
    allow_upscale: bool,
    growth: Growth,
    after: Raster,
    out: Hidden,
    password: Option<Seq<char>>,
    plain: Seq<u8>,
)
    requires
        embedding(img, hidden_blob(crypto, bpc, multi), bpc as int, allow_upscale, growth) == Ok::<
            Raster,
            ErrorView,
        >(after),
        after.wf(),
        decrypts_to(crypto, password, plain),
        hidden_blob(crypto, bpc, multi).len() <= capacity(after, bpc as int),
        out.encrypted == crypto.encrypted,
        out.out_width == after.width,
        out.out_height == after.height,
        is_png_name(out.stego.name) ==> lossless(
            out.stego.data,
            after.width,
            after.height,
            after.data,
        ),
    ensures
        reveals(out, bpc, password, plain, multi),
        carries(out, bpc, password, plain, multi),
{
    let room = roomy(img, bpc as int, hidden_blob(crypto, bpc, multi).len(), allow_upscale, growth);
    lemma_embedded_extracted(room->Ok_0, crypto, password, plain, bpc, multi);
}

/// Whether an image takes data of `len` bytes, as it is or grown, and can be written
/// under this name as PNG.
pub open spec fn takes(
    img: Raster,
    len: nat,
    bpc: u8,
    allow_upscale: bool,
    growth: Growth,
    output: Seq<char>,
) -> bool {
    &&& valid_bpc(bpc as int)
    &&& fits(img, bpc as int, len, allow_upscale, growth)
    &&& is_png_name(output)
    &&& 0 < img.data.len()
    &&& len <= capacity(img, bpc as int) || growth.width <= MAX_WIDTH
}

/// The size of an image file that data of `len` bytes was hidden in: that of the
/// cover where it has room, else the one that it grows to.
pub open spec fn sized(out: Hidden, cover: Raster, len: nat, bpc: u8, growth: Growth) -> bool {
    if len <= capacity(cover, bpc as int) {
        out.out_width == cover.width && out.out_height == cover.height
    } else {
        out.out_width == growth.width && out.out_height == growth.height
    }
}

/// An image that takes data is, with the data, neither empty nor too wide to be
/// written.
proof fn lemma_writable(
    before: Opened,
    after: Raster,
    len: nat,
    bpc: u8,
    allow_upscale: bool,
    growth: Growth,
)
    requires
        before.wf(),
        after.wf(),
        0 < before.image.data.len(),
        len <= capacity(before.image, bpc as int) || growth.width <= MAX_WIDTH,
        fits(before.image, bpc as int, len, allow_upscale, growth),
        grown(before.image, after, bpc as int, len, growth),
    ensures
        0 < after.data.len(),
        after.width <= MAX_WIDTH,
{
    let (w, h) = (before.image.width as int, before.image.height as int);
    assert(0 < w <= w * h) by (nonlinear_arith)
        requires
            0 < w * h,
            0 <= w,
            0 <= h,
    ;
    let (x, y) = (growth.width as int, growth.height as int);
    assert(0 < x && 0 < y ==> 0 < x * y) by (nonlinear_arith);
}

/// What saving reports: that nothing is saved, then that all is.
pub open spec fn saving_log() -> Seq<Report> {
    seq![
        Report { phase: ProgressPhase::Save, done: 0, total: 1 },
        Report { phase: ProgressPhase::Save, done: 1, total: 1 },
    ]
}

/// What hiding `len` bytes reports: embedding, then saving.
pub open spec fn hiding_log(len: nat) -> Seq<Report> {
    embedding_log(len) + saving_log()
}

/// Hides a payload that is encrypted, or meant to be plain, in an image. An image
/// that takes it is not refused. Where the image file is a PNG that can be decoded,
/// it reveals the files of the payload.
#[verifier::rlimit(40)]
pub fn hide_payload<P: ProgressSink>(
    img: OpenedImage,
    crypto: &CryptoStreamOutput,
    bpc: u8,
    multi: bool,
    allow_upscale: bool,
    growth: Growth,
    output: &str,
    file_count: usize,
    progress: &mut P,
) -> (out: Result<EmbedResult, Error>)
    ensures
        outcome(out) == hidden(
            img@,
            crypto@,
            bpc,
            multi,
            allow_upscale,
            growth,
            output@,
            file_count,
        ),
        takes(
            img@.image,
            hidden_blob(crypto@, bpc, multi).len(),
            bpc,
            allow_upscale,
            growth,
            output@,
        ) ==> out is Ok,
        out is Ok ==> sized(
            out->Ok_0@,
            img@.image,
            hidden_blob(crypto@, bpc, multi).len(),
            bpc,
            growth,
        ),
        forall|password: Option<Seq<char>>, plain: Seq<u8>|
            out is Ok && #[trigger] decrypts_to(crypto@, password, plain) ==> reveals(
                out->Ok_0@,
                bpc,
                password,
                plain,
                multi,
            ) && carries(out->Ok_0@, bpc, password, plain, multi),
        out is Ok ==> told_all(
            *old(progress),
            hiding_log(hidden_blob(crypto@, bpc, multi).len()),
            *final(progress),
        ),
        only_told(*old(progress), *final(progress)),
{
    proof {
        lemma_nothing_told(*progress);
    }
    let header: Vec<u8> = build_header(
        bpc,
        crypto.encrypted,
        multi,
        crypto.salt.as_slice(),
        crypto.nonce.as_slice(),
        crypto.cipher_len,
        crypto.plain_len,
    );
    if crypto.data.len() > usize::MAX - header.len() {
        if bpc == 0 || bpc > 4 {
            return Err(Fault::InvalidBpc);
        }
        proof {
            let len = hidden_blob(crypto@, bpc, multi).len();
            if fits(img@.image, bpc as int, len, allow_upscale, growth) {
                lemma_growth_countable(img@.image, bpc as int, len, allow_upscale, growth);
            }
        }
        return Err(Fault::OutputOverflow);
    }
    let blob: BlobRef = BlobRef::new(header.as_slice(), crypto.data.as_slice());
    let ghost before = img@;
    let stego: RgbaImage = embed_lsb_parallel(img, blob, bpc, allow_upscale, growth, progress)?;
    let width: u32 = stego.width();
    let height: u32 = stego.height();
    let ghost after = stego@;
    proof {
        if takes(before.image, blob@.len(), bpc, allow_upscale, growth, output@) {
            lemma_writable(before, after, blob@.len(), bpc, allow_upscale, growth);
        }
    }
    let none = Report { phase: ProgressPhase::Save, done: 0, total: 1 };
    let all = Report { phase: ProgressPhase::Save, done: 1, total: 1 };
    let ghost embedded = embedding_log(blob@.len());
    let ghost saving = embedded.push(none);
    proof {
        lemma_own(embedded);
        lemma_own(saving);
        lemma_own(saving.push(all));
        assert(saving.push(all) =~= hiding_log(blob@.len()));
    }
    tell(progress, Scale::Own, none, Ghost(*old(progress)), Ghost(embedded));
    let data: Vec<u8> = save_image(stego, output)?;
    tell(progress, Scale::Own, all, Ghost(*old(progress)), Ghost(saving));
    let out = EmbedResult {
        stego: FileEntry { name: crate::text::string_of(
            crate::text::chars_of(output).as_slice(),
        ), data },
        out_width: width,
        out_height: height,
        encrypted: crypto.encrypted,
        file_count,
    };
    proof {
        assert forall|password: Option<Seq<char>>, plain: Seq<u8>| #[trigger]
            decrypts_to(crypto@, password, plain) implies reveals(out@, bpc, password, plain, multi)
            && carries(out@, bpc, password, plain, multi) by {
            lemma_hidden_reveals(
                before,
                crypto@,
                bpc,
                multi,
                allow_upscale,
                growth,
                after,
                out@,
                password,
                plain,
            );
        }
    }
    Ok(out)
}

/// The length that is known beforehand is the length of what is hidden.
pub proof fn law_hidden_len(
    crypto: SealedStream,
    password: Option<Seq<char>>,
    plain: Seq<u8>,
    bpc: u8,
    multi: bool,
)
    requires
        decrypts_to(crypto, password, plain),
    ensures
        hidden_blob(crypto, bpc, multi).len() == hidden_len(plain.len(), password is Some),
{
    lemma_header_len(
        bpc,
        crypto.encrypted,
        multi,
        crypto.salt,
        crypto.nonce,
        crypto.cipher_len as nat,
        crypto.plain_len as nat,
    );
}

/// The password as it is handed on.
fn as_text(password: &Option<String>) -> (out: Option<&str>)
    ensures
        text_of(out) == string_text(*password),
{
    match password {
        Some(text) => Some(text.as_str()),
        None => None,
    }
}

/// Why files cannot be hidden in a cover, before anything is encrypted: `plain` is
/// their payload and `named` tells whether their names fit.
pub open spec fn embed_refusal(
    cover: Entry,
    plain: Seq<u8>,
    named: bool,
    password: Option<Seq<char>>,
    bpc: u8,
    allow_upscale: bool,
    growth: Growth,
) -> Option<ErrorView> {
    match opened(cover) {
        Err(e) => Some(e),
        Ok(img) => match preflight(
            img.image,
            bpc,
            allow_upscale,
            password is Some,
            counted(plain.len()),
            growth,
        ) {
            Err(e) => Some(e),
            Ok(_) => if !named {
                Some(Fault::NameTooLong)
            } else {
                seal_refusal(password, plain.len())
            },
        },
    }
}

/// An image file reveals these files.
pub open spec fn gives_back(
    out: Hidden,
    bpc: u8,
    password: Option<Seq<char>>,
    files: Seq<Entry>,
    multi: bool,
) -> bool {
    forall|name: Seq<char>| #[trigger]
        decodable(out, name) ==> revealed(Entry { name, data: out.stego.data }, bpc, password)
            == Ok::<Revealed, Unread>(
            Revealed { outputs: files, encrypted: password is Some, multi },
        )
}

/// What encrypting `plain_len` bytes, where they are encrypted, and hiding them
/// reports.
pub open spec fn sealed_log(plain_len: nat, encrypted: bool) -> Seq<Report> {
    encryption_log(plain_len, encrypted) + hiding_log(hidden_len(plain_len, encrypted))
}

/// What encrypting `plain_len` bytes reports, where they are encrypted.
pub open spec fn encryption_log(plain_len: nat, encrypted: bool) -> Seq<Report> {
    if encrypted {
        stream_log(plain_len)
    } else {
        Seq::empty()
    }
}

/// What embedding files reports: each piece of the `contents` bytes of the files that
/// was copied, then the encryption and the hiding of the payload of `plain_len` bytes.
pub open spec fn embed_log(
    log: Seq<Report>,
    contents: u64,
    plain_len: nat,
    encrypted: bool,
) -> bool {
    exists|copying: Seq<Report>| #[trigger]
        counts_up(copying, ProgressPhase::Prepare, contents) && log == copying + sealed_log(
            plain_len,
            encrypted,
        )
}

/// The place of a phase in the order of embedding.
pub open spec fn embed_rank(phase: ProgressPhase) -> int {
    match phase {
        ProgressPhase::Prepare => 0,
        ProgressPhase::Encrypt => 1,
        ProgressPhase::Embed => 2,
        ProgressPhase::Save => 3,
        _ => 4,
    }
}

/// The reports of embedding come in the order of its phases, no phase but encryption
/// with a password is left out or added, no report tells of more than there is or of
/// less than the one before it in its phase, and the last is that all is saved.
pub proof fn law_embed_reports(log: Seq<Report>, contents: u64, plain_len: nat, encrypted: bool)
    requires
        embed_log(log, contents, plain_len, encrypted),
        0 < plain_len <= usize::MAX,
    ensures
        forall|i: int|
            0 <= i < log.len() ==> (#[trigger] log[i]).done <= log[i].total && embed_rank(
                log[i].phase,
            ) <= 3,
        forall|i: int, j: int|
            0 <= i <= j < log.len() ==> embed_rank((#[trigger] log[i]).phase) <= embed_rank(
                (#[trigger] log[j]).phase,
            ),
        forall|i: int, j: int|
            0 <= i <= j < log.len() && (#[trigger] log[i]).phase == (#[trigger] log[j]).phase
                ==> log[i].done <= log[j].done && log[i].total == log[j].total,
        (exists|i: int| 0 <= i < log.len() && (#[trigger] log[i]).phase == ProgressPhase::Prepare)
            <==> contents > 0,
        (exists|i: int| 0 <= i < log.len() && (#[trigger] log[i]).phase == ProgressPhase::Encrypt)
            <==> encrypted,
        log.len() > 0,
        log.last() == (Report { phase: ProgressPhase::Save, done: 1, total: 1 }),
{
    let copying = choose|copying: Seq<Report>| #[trigger]
        counts_up(copying, ProgressPhase::Prepare, contents) && log == copying + sealed_log(
            plain_len,
            encrypted,
        );
    let sealing = encryption_log(plain_len, encrypted);
    lemma_stream_log(plain_len);
    lemma_counted_steady(copying, ProgressPhase::Prepare, contents, contents);
    let hiding = hiding_log(hidden_len(plain_len, encrypted));
    let (c, s) = (copying.len() as int, sealing.len() as int);
    assert forall|i: int| 0 <= i < log.len() implies (#[trigger] log[i]) == (if i < c {
        copying[i]
    } else if i < c + s {
        sealing[i - c]
    } else {
        hiding[i - c - s]
    }) by {}
    assert(log.len() == c + s + 4);
    let len = hidden_len(plain_len, encrypted) as u64;
    assert(hiding[0] == (Report { phase: ProgressPhase::Embed, done: 0, total: len }));
    assert(hiding[1] == (Report { phase: ProgressPhase::Embed, done: len, total: len }));
    assert(hiding[2] == (Report { phase: ProgressPhase::Save, done: 0, total: 1 }));
    assert(hiding[3] == (Report { phase: ProgressPhase::Save, done: 1, total: 1 }));
    assert forall|i: int| 0 <= i < log.len() implies (#[trigger] log[i]).done <= log[i].total
        && embed_rank(log[i].phase) == (if i < c {
        0int
    } else if i < c + s {
        1
    } else if i < c + s + 2 {
        2
    } else {
        3
    }) by {
        if i < c {
            assert(log[i] == copying[i]);
        } else if i < c + s {
            assert(log[i] == sealing[i - c]);
        } else {
            assert(log[i] == hiding[i - c - s]);
        }
    }
    assert forall|i: int, j: int|
        0 <= i <= j < log.len() && (#[trigger] log[i]).phase == (#[trigger] log[j]).phase implies
        log[i].done <= log[j].done && log[i].total == log[j].total by {
        if j < c {
            assert(log[i] == copying[i] && log[j] == copying[j]);
        } else if j < c + s {
            assert(i >= c);
            assert(log[i] == sealing[i - c] && log[j] == sealing[j - c]);
        } else {
            assert(i >= c + s);
            assert(log[i] == hiding[i - c - s] && log[j] == hiding[j - c - s]);
        }
    }
    if contents > 0 {
        assert(log[0] == copying[0]);
    }
    if encrypted {
        assert(log[c] == sealing[0]);
    }
    assert(log.last() == log[c + s + 3]);
}

/// Encrypts a payload where there is a password and hides it.
fn embed_payload<P: ProgressSink>(
    img: OpenedImage,
    payload: PayloadFile,
    multi: bool,
    file_count: usize,
    output: &str,
    opts: &EncryptOptions,
    growth: Growth,
    progress: &mut P,
) -> (out: Result<EmbedResult, Error>)
    ensures
        match seal_refusal(string_text(opts.password), payload.data@.len()) {
            Some(e) => outcome(out) == Err::<Hidden, ErrorView>(e),
            None => exists|crypto: SealedStream| #[trigger]
                decrypts_to(crypto, string_text(opts.password), payload.data@) && outcome(out)
                    == hidden(
                    img@,
                    crypto,
                    opts.bpc,
                    multi,
                    opts.allow_upscale,
                    growth,
                    output@,
                    file_count,
                ),
        },
        out is Ok ==> reveals(
            out->Ok_0@,
            opts.bpc,
            string_text(opts.password),
            payload.data@,
            multi,
        ),
        out is Ok ==> carries(
            out->Ok_0@,
            opts.bpc,
            string_text(opts.password),
            payload.data@,
            multi,
        ),
        seal_refusal(string_text(opts.password), payload.data@.len()) is None && takes(
            img@.image,
            hidden_len(payload.data@.len(), opts.password is Some),
            opts.bpc,
            opts.allow_upscale,
            growth,
            output@,
        ) ==> out is Ok,
        out is Ok ==> sized(
            out->Ok_0@,
            img@.image,
            hidden_len(payload.data@.len(), opts.password is Some),
            opts.bpc,
            growth,
        ),
        out is Ok ==> told_all(
            *old(progress),
            sealed_log(payload.data@.len(), opts.password is Some),
            *final(progress),
        ),
        only_told(*old(progress), *final(progress)),
{
    proof {
        lemma_nothing_told(*progress);
    }
    let ghost start = *progress;
    let crypto: CryptoStreamOutput = encrypt_payload_stream(
        as_text(&opts.password),
        payload.data,
        progress,
    )?;
    proof {
        assert(decrypts_to(crypto@, string_text(opts.password), payload.data@));
        law_hidden_len(crypto@, string_text(opts.password), payload.data@, opts.bpc, multi);
    }
    let ghost mid = *progress;
    let out = hide_payload(
        img,
        &crypto,
        opts.bpc,
        multi,
        opts.allow_upscale,
        growth,
        output,
        file_count,
        progress,
    );
    proof {
        lemma_only_told(start, mid, *progress);
        if out is Ok {
            let plain_len = payload.data@.len();
            let encrypted = opts.password is Some;
            let sealing = encryption_log(plain_len, encrypted);
            let hiding = hiding_log(hidden_len(plain_len, encrypted));
            lemma_told_concat(start, sealing, mid, hiding, *progress);
        }
    }
    out
}

/// Reports of copying, then of encrypting and hiding.
proof fn lemma_embed_log<P: ProgressSink>(
    start: P,
    mid: P,
    end: P,
    contents: u64,
    plain_len: nat,
    encrypted: bool,
)
    requires
        exists|log: Seq<Report>|
            told_all(start, log, mid) && counts_up(log, ProgressPhase::Prepare, contents),
        told_all(mid, sealed_log(plain_len, encrypted), end),
    ensures
        exists|log: Seq<Report>|
            told_all(start, log, end) && embed_log(log, contents, plain_len, encrypted),
{
    let copying = choose|log: Seq<Report>|
        told_all(start, log, mid) && counts_up(log, ProgressPhase::Prepare, contents);
    let rest = sealed_log(plain_len, encrypted);
    lemma_told_concat(start, copying, mid, rest, end);
    assert(embed_log(copying + rest, contents, plain_len, encrypted));
}

/// The length of the payload of one file, known beforehand.
pub fn single_payload_len(input_file: &FileEntry) -> (out: usize)
    ensures
        out == counted(single_payload(input_file@).len()),
{
    proof {
        lemma_entry_len(input_file@);
    }
    let name_len: usize = input_file.name.as_str().as_bytes().len();
    name_len.saturating_add(43).saturating_add(input_file.data.len())
}

/// Whether a cover takes a payload of `plain_len` bytes, with names and a password
/// that are not refused, so that hiding it is owed.
pub open spec fn owed(
    cover: Entry,
    plain_len: nat,
    named: bool,
    opts: EncryptOptions,
    growth: Growth,
    output: Seq<char>,
) -> bool {
    &&& opened(cover) is Ok
    &&& named
    &&& seal_refusal(string_text(opts.password), plain_len) is None
    &&& takes(
        opened(cover)->Ok_0.image,
        hidden_len(plain_len, opts.password is Some),
        opts.bpc,
        opts.allow_upscale,
        growth,
        output,
    )
}

/// Hides one file in a cover. `growth` is the size that the cover takes where it
/// has to grow.
pub fn embed_single_file<P: ProgressSink>(
    cover: FileEntry,
    input_file: &FileEntry,
    output: &str,
    opts: &EncryptOptions,
    growth: Growth,
    progress: &mut P,
) -> (out: Result<EmbedResult, Error>)
    ensures
        ({
            let plain = single_payload(input_file@);
            let password = string_text(opts.password);
            match embed_refusal(
                cover@,
                plain,
                name_fits(input_file@),
                password,
                opts.bpc,
                opts.allow_upscale,
                growth,
            ) {
                Some(e) => outcome(out) == Err::<Hidden, ErrorView>(e),
                None => exists|crypto: SealedStream| #[trigger]
                    decrypts_to(crypto, password, plain) && outcome(out) == hidden(
                        opened(cover@)->Ok_0,
                        crypto,
                        opts.bpc,
                        false,
                        opts.allow_upscale,
                        growth,
                        output@,
                        1,
                    ),
            }
        }),
        out is Ok && name_restorable(input_file@) ==> gives_back(
            out->Ok_0@,
            opts.bpc,
            string_text(opts.password),
            seq![restored(input_file@)],
            false,
        ),
        out is Ok && name_restorable(input_file@) && plain_component(input_file@.name)
            ==> gives_back(
            out->Ok_0@,
            opts.bpc,
            string_text(opts.password),
            seq![input_file@],
            false,
        ),
        out is Ok ==> carries(
            out->Ok_0@,
            opts.bpc,
            string_text(opts.password),
            single_payload(input_file@),
            false,
        ),
        out is Ok ==> sized(
            out->Ok_0@,
            opened(cover@)->Ok_0.image,
            hidden_len(single_payload(input_file@).len(), opts.password is Some),
            opts.bpc,
            growth,
        ),
        owed(
            cover@,
            single_payload(input_file@).len(),
            name_fits(input_file@),
            *opts,
            growth,
            output@,
        ) ==> out is Ok,
        out is Ok ==> exists|log: Seq<Report>|
            told_all(*old(progress), log, *final(progress)) && embed_log(
                log,
                input_file.data@.len() as u64,
                single_payload(input_file@).len(),
                opts.password is Some,
            ),
        only_told(*old(progress), *final(progress)),
{
    proof {
        lemma_nothing_told(*progress);
    }
    let ghost start = *progress;
    let img: OpenedImage = open_image(cover)?;
    let plain_len: usize = single_payload_len(input_file);
    preflight_capacity(
        img.image(),
        opts.bpc,
        opts.allow_upscale,
        opts.password.is_some(),
        plain_len,
        growth,
    )?;
    let payload: PayloadFile = build_payload_single_streaming(input_file, progress)?;
    proof {
        if name_restorable(input_file@) {
            law_single_streamed(input_file@, Seq::empty(), false);
            assert(single_payload(input_file@) + Seq::<u8>::empty() =~= payload.data@);
        }
        if plain_component(input_file@.name) {
            law_plain_name_stays(input_file@.name);
        }
    }
    let ghost mid = *progress;
    let out = embed_payload(img, payload, false, 1, output, opts, growth, progress);
    proof {
        lemma_only_told(start, mid, *progress);
        if out is Ok {
            lemma_embed_log(
                start,
                mid,
                *progress,
                input_file.data@.len() as u64,
                payload.data@.len(),
                opts.password is Some,
            );
        }
    }
    out
}

/// The length of the payload of a list of files, known beforehand.
pub fn multi_payload_len(inputs: &[FileEntry]) -> (out: usize)
    ensures
        out == counted(multi_payload(entries_of(inputs@)).len()),
{
    let ghost all = entries_of(inputs@);
    let mut total: usize = 5;
    let mut k: usize = 0;
    assert(all.take(0) =~= Seq::<Entry>::empty());
    while k < inputs.len()
        invariant
            k <= inputs@.len(),
            all == entries_of(inputs@),
            total == counted(5 + entries_bytes(all.take(k as int)).len()),
        decreases inputs.len() - k,
    {
        let input: &FileEntry = &inputs[k];
        let name_len: usize = input.name.as_str().as_bytes().len();
        total = total.saturating_add(name_len.saturating_add(42)).saturating_add(input.data.len());
        proof {
            lemma_entry_len(all[k as int]);
            lemma_entries_push(all.take(k as int), all[k as int]);
            assert(all.take(k + 1) =~= all.take(k as int).push(all[k as int]));
        }
        k = k + 1;
    }
    proof {
        assert(all.take(k as int) =~= all);
        lemma_be_bytes_len(all.len(), 4);
    }
    total
}

/// Hides a list of files in a cover. `growth` is the size that the cover takes
/// where it has to grow.
pub fn embed_multi<P: ProgressSink>(
    cover: FileEntry,
    inputs: &[FileEntry],
    output: &str,
    opts: &EncryptOptions,
    growth: Growth,
    progress: &mut P,
) -> (out: Result<EmbedResult, Error>)
    ensures
        ({
            let files = entries_of(inputs@);
            let plain = multi_payload(files);
            let password = string_text(opts.password);
            match embed_refusal(
                cover@,
                plain,
                forall|i: int| 0 <= i < files.len() ==> name_fits(#[trigger] files[i]),
                password,
                opts.bpc,
                opts.allow_upscale,
                growth,
            ) {
                Some(e) => outcome(out) == Err::<Hidden, ErrorView>(e),
                None => exists|crypto: SealedStream| #[trigger]
                    decrypts_to(crypto, password, plain) && outcome(out) == hidden(
                        opened(cover@)->Ok_0,
                        crypto,
                        opts.bpc,
                        true,
                        opts.allow_upscale,
                        growth,
                        output@,
                        inputs@.len() as usize,
                    ),
            }
        }),
        out is Ok && inputs@.len() <= MAX_FILES && (forall|i: int|
            0 <= i < inputs@.len() ==> name_restorable(#[trigger] inputs@[i]@)) ==> gives_back(
            out->Ok_0@,
            opts.bpc,
            string_text(opts.password),
            all_restored(entries_of(inputs@)),
            true,
        ),
        out is Ok && inputs@.len() <= MAX_FILES && (forall|i: int|
            0 <= i < inputs@.len() ==> name_restorable(#[trigger] inputs@[i]@) && plain_component(
                inputs@[i]@.name,
            )) ==> gives_back(
            out->Ok_0@,
            opts.bpc,
            string_text(opts.password),
            entries_of(inputs@),
            true,
        ),
        out is Ok ==> carries(
            out->Ok_0@,
            opts.bpc,
            string_text(opts.password),
            multi_payload(entries_of(inputs@)),
            true,
        ),
        out is Ok ==> sized(
            out->Ok_0@,
            opened(cover@)->Ok_0.image,
            hidden_len(multi_payload(entries_of(inputs@)).len(), opts.password is Some),
            opts.bpc,
            growth,
        ),
        owed(
            cover@,
            multi_payload(entries_of(inputs@)).len(),
            forall|i: int| 0 <= i < inputs@.len() ==> name_fits(#[trigger] inputs@[i]@),
            *opts,
            growth,
            output@,
        ) ==> out is Ok,
        out is Ok ==> exists|log: Seq<Report>|
            told_all(*old(progress), log, *final(progress)) && embed_log(
                log,
                counted64(contents_len(entries_of(inputs@))),
                multi_payload(entries_of(inputs@)).len(),
                opts.password is Some,
            ),
        only_told(*old(progress), *final(progress)),
{
    proof {
        lemma_nothing_told(*progress);
    }
    let ghost start = *progress;
    let img: OpenedImage = open_image(cover)?;
    let plain_len: usize = multi_payload_len(inputs);
    preflight_capacity(
        img.image(),
        opts.bpc,
        opts.allow_upscale,
        opts.password.is_some(),
        plain_len,
        growth,
    )?;
    let ghost files = entries_of(inputs@);
    let built = build_payload_multi_streaming(inputs, progress);
    proof {
        assert forall|i: int| 0 <= i < inputs@.len() implies files[i] == #[trigger] inputs@[i]@ by {
        }
        if built is Err {
            let i = choose|i: int| 0 <= i < inputs@.len() && !name_fits(#[trigger] inputs@[i]@);
            assert(!name_fits(files[i]));
        }
    }
    let payload: PayloadFile = built?;
    proof {
        assert forall|i: int| 0 <= i < files.len() implies name_fits(#[trigger] files[i]) by {
            assert(name_fits(inputs@[i]@));
        }
        if inputs@.len() <= MAX_FILES && (forall|i: int|
            0 <= i < inputs@.len() ==> name_restorable(#[trigger] inputs@[i]@)) {
            assert forall|i: int| 0 <= i < files.len() implies name_restorable(#[trigger] files[i])
                && files[i].data.len() <= usize::MAX by {
                assert(name_restorable(inputs@[i]@));
                lemma_vec_len(inputs@[i].data);
            }
            law_multi_streamed(files, Seq::empty(), false);
            assert(multi_payload(files) + Seq::<u8>::empty() =~= payload.data@);
        }
        if forall|i: int| 0 <= i < inputs@.len() ==> plain_component((#[trigger] inputs@[i]@).name) {
            assert forall|i: int| 0 <= i < files.len() implies plain_component(
                (#[trigger] files[i]).name,
            ) by {
                assert(plain_component(inputs@[i]@.name));
            }
            law_plain_names_stay(files);
        }
    }
    let ghost mid = *progress;
    let out = embed_payload(img, payload, true, inputs.len(), output, opts, growth, progress);
    proof {
        lemma_only_told(start, mid, *progress);
        if out is Ok {
            lemma_embed_log(
                start,
                mid,
                *progress,
                counted64(contents_len(files)),
                payload.data@.len(),
                opts.password is Some,
            );
        }
    }
    out
}

/// A vector has no more elements than can be counted.
proof fn lemma_vec_len(v: Vec<u8>)
    ensures
        v@.len() <= usize::MAX,
{
    assert(v.len() == v@.len());
}

/// What reading a header and a payload gives where it is opened.
spec fn opened_files(
    h: HeaderView,
    data: Seq<u8>,
    password: Option<Seq<char>>,
) -> Result<Seq<Entry>, Unread> {
    match opened_payload_stream(password, h.salt, h.nonce, data, h.encrypted) {
        Err(e) => Err(unread(e)),
        Ok((plain, broken)) => streamed_payload(plain, broken),
    }
}

/// Reads the files of a payload that may be encrypted.
fn open_files(header: &Header, data: &[u8], password: Option<&str>) -> (out: Result<
    Vec<FileEntry>,
    PayloadFault,
>)
    ensures
        payload_outcome(out) == opened_files(header@, data@, text_of(password)),
{
    if !header.encrypted {
        let mut source: SliceSource = SliceSource::new(data);
        return parse_payload_streaming(&mut source);
    }
    match password {
        None => Err(PayloadFault::first(Fault::PasswordRequired)),
        Some(pw) => {
            let mut reader: StreamDecryptReader = match StreamDecryptReader::new(
                pw,
                header.salt.as_slice(),
                header.nonce.as_slice(),
                data,
            ) {
                Ok(reader) => reader,
                Err(error) => {
                    return Err(PayloadFault::first(error));
                },
            };
            assert(reader.rest() =~= opened_payload_stream(
                text_of(password),
                header.salt@,
                header.nonce@,
                data@,
                true,
            )->Ok_0.0);
            let out = parse_payload_streaming(&mut reader);
            reader.close();
            out
        },
    }
}

/// What revealing says, in mathematical views.
pub open spec fn reveal_outcome(r: Result<RevealResult, PayloadFault>) -> Result<
    Revealed,
    Unread,
> {
    match r {
        Ok(v) => Ok(v@),
        Err(u) => Err(u@),
    }
}

/// What revealing an image file reports: the reading of its payload.
pub open spec fn reveal_log(stego: Entry, bpc: u8) -> Seq<Report> {
    let (data, h) = extracted_payload(opened(stego)->Ok_0.image, bpc as int)->Ok_0;
    reading_log(h.header_size as nat, data.len(), h.header_size as nat + data.len())
}

/// Takes the files out of an image file. Of a list in which a file cannot be read it
/// gives back the files before that one with the fault.
pub fn reveal_to_dir<P: ProgressSink>(
    stego: FileEntry,
    bpc: u8,
    password: Option<String>,
    progress: &mut P,
) -> (out: Result<RevealResult, PayloadFault>)
    ensures
        reveal_outcome(out) == revealed(stego@, bpc, string_text(password)),
        out is Ok ==> told_all(*old(progress), reveal_log(stego@, bpc), *final(progress)),
        only_told(*old(progress), *final(progress)),
{
    proof {
        lemma_nothing_told(*progress);
    }
    let img: OpenedImage = match open_image(stego) {
        Ok(img) => img,
        Err(error) => {
            return Err(PayloadFault::first(error));
        },
    };
    let (data, header) = match extract_payload(img.image(), bpc, progress) {
        Ok(extracted) => extracted,
        Err(error) => {
            return Err(PayloadFault::first(error));
        },
    };
    if header.bpc != bpc {
        return Err(PayloadFault::first(Fault::BpcMismatch { given: bpc, found: header.bpc }));
    }
    let outputs: Vec<FileEntry> = open_files(&header, data.as_slice(), as_text(&password))?;
    Ok(RevealResult { outputs, encrypted: header.encrypted, multi: header.multi })
}

/// The payload that a header and its data hold, or why it cannot be had.
pub open spec fn opened_blob(h: HeaderView, data: Seq<u8>, password: Option<Seq<char>>) -> Result<
    Seq<u8>,
    ErrorView,
> {
    match opened_payload_stream(password, h.salt, h.nonce, data, h.encrypted) {
        Err(e) => Err(e),
        Ok((plain, broken)) => if broken {
            Err(Fault::NotAuthentic)
        } else if plain.len() != h.plain_len {
            Err(Fault::PlainLenMismatch { got: plain.len() as usize, expected: h.plain_len })
        } else {
            Ok(plain)
        },
    }
}

/// Decrypts the payload that a header and its data hold.
pub fn decrypt_blob_to_payload(header: &Header, data: Vec<u8>, password: Option<&str>) -> (out:
    Result<PayloadFile, Error>)
    ensures
        match out {
            Ok(p) => opened_blob(header@, data@, text_of(password)) == Ok::<
                Seq<u8>,
                ErrorView,
            >(p.data@) && p.len == p.data@.len(),
            Err(e) => opened_blob(header@, data@, text_of(password)) == Err::<
                Seq<u8>,
                ErrorView,
            >(e@),
        },
{
    let plain: Vec<u8> = if header.encrypted {
        match password {
            None => {
                return Err(Fault::PasswordRequired);
            },
            Some(pw) => {
                let mut reader: StreamDecryptReader = StreamDecryptReader::new(
                    pw,
                    header.salt.as_slice(),
                    header.nonce.as_slice(),
                    data.as_slice(),
                )?;
                assert(reader.rest() =~= opened_payload_stream(
                    text_of(password),
                    header.salt@,
                    header.nonce@,
                    data@,
                    true,
                )->Ok_0.0);
                let read = reader.read_to_end();
                reader.close();
                read?
            },
        }
    } else {
        data
    };
    let len: usize = plain.len();
    if len != header.plain_len {
        return Err(Fault::PlainLenMismatch { got: len, expected: header.plain_len });
    }
    Ok(PayloadFile { data: plain, len })
}

/// The new cover, the payload of an image file and whether it is a list, or why
/// they cannot be had.
pub open spec fn swapped(
    stego: Entry,
    new_cover: Entry,
    bpc: u8,
    password: Option<Seq<char>>,
) -> Result<(Opened, Seq<u8>, bool), ErrorView> {
    match opened(new_cover) {
        Err(e) => Err(e),
        Ok(cover) => match opened(stego) {
            Err(e) => Err(e),
            Ok(img) => match extracted_payload(img.image, bpc as int) {
                Err(e) => Err(e),
                Ok((data, h)) => match opened_blob(h, data, password) {
                    Err(e) => Err(e),
                    Ok(plain) => Ok((cover, plain, h.multi)),
                },
            },
        },
    }
}

/// Moves the payload of an image file to another cover. Where the old file
/// reveals files, the new one, written as PNG and decodable, reveals the same.
pub fn swap_cover(
    stego: FileEntry,
    new_cover: FileEntry,
    output: &str,
    decrypt_password: Option<String>,
    opts: &EncryptOptions,
    growth: Growth,
) -> (out: Result<EmbedResult, Error>)
    ensures
        match swapped(stego@, new_cover@, opts.bpc, string_text(decrypt_password)) {
            Err(e) => outcome(out) == Err::<Hidden, ErrorView>(e),
            Ok((cover, plain, multi)) => {
                &&& match seal_refusal(string_text(opts.password), plain.len()) {
                    Some(e) => outcome(out) == Err::<Hidden, ErrorView>(e),
                    None => exists|crypto: SealedStream| #[trigger]
                        decrypts_to(crypto, string_text(opts.password), plain) && outcome(out)
                            == hidden(
                            cover,
                            crypto,
                            opts.bpc,
                            multi,
                            opts.allow_upscale,
                            growth,
                            output@,
                            0,
                        ),
                }
                &&& out is Ok && revealed(stego@, opts.bpc, string_text(decrypt_password)) is Ok
                    ==> gives_back(
                    out->Ok_0@,
                    opts.bpc,
                    string_text(opts.password),
                    revealed(stego@, opts.bpc, string_text(decrypt_password))->Ok_0.outputs,
                    revealed(stego@, opts.bpc, string_text(decrypt_password))->Ok_0.multi,
                )
                &&& out is Ok ==> carries(
                    out->Ok_0@,
                    opts.bpc,
                    string_text(opts.password),
                    plain,
                    multi,
                )
                &&& out is Ok ==> sized(
                    out->Ok_0@,
                    cover.image,
                    hidden_len(plain.len(), opts.password is Some),
                    opts.bpc,
                    growth,
                )
                &&& owed(new_cover@, plain.len(), true, *opts, growth, output@) ==> out is Ok
            },
        },
{
    let cover: OpenedImage = open_image(new_cover)?;
    let old: OpenedImage = open_image(stego)?;
    let (data, header) = extract_payload(old.image(), opts.bpc, &mut Silent)?;
    let multi: bool = header.multi;
    let payload: PayloadFile = decrypt_blob_to_payload(&header, data, as_text(&decrypt_password))?;
    embed_payload(cover, payload, multi, 0, output, opts, growth, &mut Silent)
}

/// The size of an image and the number of bytes that it holds.
pub fn info_capacity(image: FileEntry, bpc: u8) -> (out: Result<(u32, u32, usize), Error>)
    ensures
        match out {
            Ok((width, height, bytes)) => opened(image@) is Ok && ({
                let img = opened(image@)->Ok_0.image;
                width == img.width && height == img.height && bytes == capacity(img, bpc as int)
            }),
            Err(e) => opened(image@) == Err::<Opened, ErrorView>(e@),
        },
{
    let img: OpenedImage = open_image(image)?;
    let bytes: usize = capacity_bytes(img.image(), bpc);
    Ok((img.image().width(), img.image().height(), bytes))
}

/// What is hidden encrypted cannot be had without a password, and the answer says
/// so.
pub proof fn law_reveal_needs_password(stego: Entry, bpc: u8)
    requires
        opened(stego) is Ok,
        extracted_payload(opened(stego)->Ok_0.image, bpc as int) matches Ok((_, h)) && h.encrypted
            && h.bpc == bpc,
    ensures
        revealed(stego, bpc, None) == Err::<Revealed, Unread>(unread(Fault::PasswordRequired)),
{
}

/// Where the cipher refuses what is hidden under the key that a password gives,
/// nothing is revealed, and the answer says so.
pub proof fn law_reveal_refuses_password(stego: Entry, bpc: u8, password: Seq<char>)
    requires
        opened(stego) is Ok,
        extracted_payload(opened(stego)->Ok_0.image, bpc as int) matches Ok((data, h))
            && h.encrypted && h.bpc == bpc && refuses(password, h.salt, h.nonce, data),
    ensures
        revealed(stego, bpc, Some(password)) == Err::<Revealed, Unread>(
            unread(Fault::NotAuthentic),
        ),
{
    let (data, h) = extracted_payload(opened(stego)->Ok_0.image, bpc as int)->Ok_0;
    lemma_refused(password, h.salt, h.nonce, data);
}

/// A payload that the capacity of a cover is known to suffice for does not make it
/// grow: it passes beforehand, and the cover is the image that it goes into.
pub proof fn law_capacity_means_room(
    img: Opened,
    bpc: u8,
    plain_len: nat,
    encrypted: bool,
    allow_upscale: bool,
    growth: Growth,
)
    requires
        hidden_len(plain_len, encrypted) <= capacity(img.image, bpc as int),
    ensures
        preflight(img.image, bpc, allow_upscale, encrypted, plain_len, growth) == Ok::<
            (),
            ErrorView,
        >(()),
        roomy(img, bpc as int, hidden_len(plain_len, encrypted), allow_upscale, growth) == Ok::<
            Raster,
            ErrorView,
        >(img.image),
{
}

/// What was hidden with other bits per channel is not revealed, and the answer
/// says so wherever a header is found.
pub proof fn law_reveal_needs_its_bits(stego: Entry, bpc: u8, password: Option<Seq<char>>)
    requires
        opened(stego) is Ok,
        extracted_payload(opened(stego)->Ok_0.image, bpc as int) matches Ok((_, h)) && h.bpc != bpc,
    ensures
        revealed(stego, bpc, password) == Err::<Revealed, Unread>(
            unread(
                Fault::BpcMismatch {
                    given: bpc,
                    found: extracted_payload(opened(stego)->Ok_0.image, bpc as int)->Ok_0.1.bpc,
                },
            ),
        ),
{
}

/// The password of the options is the password, whatever it is.
pub proof fn law_password_is_kept(password: String)
    ensures
        string_text(Some(password)) == Some(password@),
        string_text(None) is None,
{
}

/// A payload that was encrypted, or left plain, is had back from its header and data with
/// its password, however long it is.
pub proof fn law_payload_is_had_back(
    crypto: SealedStream,
    password: Option<Seq<char>>,
    plain: Seq<u8>,
    h: HeaderView,
)
    requires
        decrypts_to(crypto, password, plain),
        h.encrypted == crypto.encrypted,
        h.salt == crypto.salt,
        h.plain_len == crypto.plain_len,
        forall|i: int|
            0 <= i < 7 && password is Some ==> h.nonce.len() >= 7 && #[trigger] h.nonce[i]
                == crypto.nonce[i],
    ensures
        opened_blob(h, crypto.data, password) == Ok::<Seq<u8>, ErrorView>(plain),
{
    if password is Some {
        assert(fixed_nonce(h.nonce, 7) =~= fixed_nonce(fixed_nonce(crypto.nonce, 12), 7)) by {
            assert forall|i: int| 0 <= i < 7 implies fixed_nonce(h.nonce, 7)[i] == fixed_nonce(
                fixed_nonce(crypto.nonce, 12),
                7,
            )[i] by {
                assert(h.nonce[i] == crypto.nonce[i]);
            }
        }
    }
}

/// The payload of an image is had exactly where it decrypts to the stated length; the
/// answer says which of these fails.
pub proof fn law_payload_is_checked(h: HeaderView, data: Seq<u8>, password: Option<Seq<char>>)
    ensures
        match opened_payload_stream(password, h.salt, h.nonce, data, h.encrypted) {
            Err(e) => opened_blob(h, data, password) == Err::<Seq<u8>, ErrorView>(e),
            Ok((plain, true)) => opened_blob(h, data, password) == Err::<Seq<u8>, ErrorView>(
                Fault::NotAuthentic,
            ),
            Ok((plain, false)) => {
                &&& plain.len() == h.plain_len ==> opened_blob(h, data, password) == Ok::<
                    Seq<u8>,
                    ErrorView,
                >(plain)
                &&& plain.len() != h.plain_len ==> opened_blob(h, data, password) == Err::<
                    Seq<u8>,
                    ErrorView,
                >(
                    Fault::PlainLenMismatch {
                        got: plain.len() as usize,
                        expected: h.plain_len,
                    },
                )
            },
        },
{
}

/// Moving a payload takes it out of the old image and keeps whether it is a list; what is
/// wrong with the new cover, the old image or the payload is the answer, in this order.
pub proof fn law_swap_moves_the_payload(
    stego: Entry,
    new_cover: Entry,
    bpc: u8,
    password: Option<Seq<char>>,
)
    ensures
        ({
            let out = swapped(stego, new_cover, bpc, password);
            match (opened(new_cover), opened(stego)) {
                (Err(e), _) => out == Err::<(Opened, Seq<u8>, bool), ErrorView>(e),
                (Ok(_), Err(e)) => out == Err::<(Opened, Seq<u8>, bool), ErrorView>(e),
                (Ok(cover), Ok(img)) => match extracted_payload(img.image, bpc as int) {
                    Err(e) => out == Err::<(Opened, Seq<u8>, bool), ErrorView>(e),
                    Ok((data, h)) => match opened_blob(h, data, password) {
                        Err(e) => out == Err::<(Opened, Seq<u8>, bool), ErrorView>(e),
                        Ok(plain) => out == Ok::<(Opened, Seq<u8>, bool), ErrorView>(
                            (cover, plain, h.multi),
                        ),
                    },
                },
            }
        }),
{
}

/// What was hidden in an image can be taken out of any file that opens as the image with
/// the data: it is revealed, and it can be moved to any cover that opens, with the
/// password that it was hidden with.
pub proof fn law_hidden_payload_is_found(
    before: Raster,
    crypto: SealedStream,
    bpc: u8,
    multi: bool,
    password: Option<Seq<char>>,
    plain: Seq<u8>,
    stego: Entry,
    new_cover: Entry,
)
    requires
        before.data.len() == 4 * (before.width as nat * before.height as nat),
        16 * (before.width as nat * before.height as nat) <= usize::MAX,
        1 <= bpc <= 4,
        decrypts_to(crypto, password, plain),
        8 * hidden_blob(crypto, bpc, multi).len() <= before.width as nat * before.height as nat * 3
            * bpc as nat,
        opened(stego) is Ok,
        opened(stego)->Ok_0.image == (Raster {
            width: before.width,
            height: before.height,
            data: embedded(before.data, hidden_blob(crypto, bpc, multi), bpc as int),
        }),
        opened(new_cover) is Ok,
    ensures
        swapped(stego, new_cover, bpc, password) == Ok::<(Opened, Seq<u8>, bool), ErrorView>(
            (opened(new_cover)->Ok_0, plain, multi),
        ),
        streamed_payload(plain, false) matches Ok(files) ==> revealed(stego, bpc, password) == Ok::<
            Revealed,
            Unread,
        >(Revealed { outputs: files, encrypted: password is Some, multi }),
        streamed_payload(plain, false) matches Err(u) ==> revealed(stego, bpc, password) == Err::<
            Revealed,
            Unread,
        >(u),
{
    law_capacity(before, bpc);
    lemma_embedded_extracted(before, crypto, password, plain, bpc, multi);
}

/// The data that is hidden is the header of the payload, then the payload.
pub proof fn law_hidden_data(crypto: SealedStream, bpc: u8, multi: bool)
    requires
        crypto.salt.len() <= 255,
        crypto.cipher_len == crypto.data.len(),
    ensures
        ({
            let blob = hidden_blob(crypto, bpc, multi);
            let s = crypto.salt.len() as int;
            &&& blob.len() == 37 + s + crypto.data.len()
            &&& blob.skip(37 + s) == crypto.data
            &&& parsed_header(blob) matches Ok(h) && h.bpc == bpc && h.multi == multi
                && h.encrypted == crypto.encrypted && h.salt == crypto.salt && h.plain_len
                == crypto.plain_len && h.cipher_len == crypto.data.len() && h.header_size == 37 + s
                && h.nonce.len() == 12 && forall|i: int|
                0 <= i < 12 && i < crypto.nonce.len() ==> #[trigger] h.nonce[i] == crypto.nonce[i]
        }),
{
    let blob = hidden_blob(crypto, bpc, multi);
    lemma_header_len(
        bpc,
        crypto.encrypted,
        multi,
        crypto.salt,
        crypto.nonce,
        crypto.cipher_len as nat,
        crypto.plain_len as nat,
    );
    law_header_round_trip(
        bpc,
        crypto.encrypted,
        multi,
        crypto.salt,
        crypto.nonce,
        crypto.cipher_len,
        crypto.plain_len,
        crypto.data,
    );
    assert(blob.skip(37 + crypto.salt.len() as int) =~= crypto.data);
}

/// What hiding gives: a file of the name that was asked for, which is the image with the
/// data as the encoder writes it, its size, and whether it is encrypted. What is wrong
/// with the image or the encoder is the answer.
pub proof fn law_hiding_writes_the_image(
    img: Opened,
    crypto: SealedStream,
    bpc: u8,
    multi: bool,
    allow_upscale: bool,
    growth: Growth,
    output: Seq<char>,
    file_count: usize,
)
    ensures
        ({
            let out = hidden(
                img,
                crypto,
                bpc,
                multi,
                allow_upscale,
                growth,
                output,
                file_count,
            );
            match embedding(
                img,
                hidden_blob(crypto, bpc, multi),
                bpc as int,
                allow_upscale,
                growth,
            ) {
                Err(e) => out == Err::<Hidden, ErrorView>(e),
                Ok(after) => {
                    &&& 0 < after.width <= 1_073_741_823 && 0 < after.height ==> match encoded_image(
                        output,
                        after.width,
                        after.height,
                        after.data,
                    ) {
                        Err(text) => out == Err::<Hidden, ErrorView>(Fault::Image { text }),
                        Ok(data) => out == Ok::<Hidden, ErrorView>(
                            Hidden {
                                stego: Entry { name: output, data },
                                out_width: after.width,
                                out_height: after.height,
                                encrypted: crypto.encrypted,
                                file_count,
                            },
                        ),
                    }
                    &&& after.width == 0 || after.width > 1_073_741_823 || after.height == 0
                        ==> out is Err
                },
            }
        }),
{
}

/// Hiding in a cover with room for the data succeeds: where the cover opens and is not
/// empty, one to four bits per channel are used, the file is a PNG, the names fit and the
/// password is not too long, 8 bits to each byte of the payload, of 37 bytes of header and,
/// with a password, of 22 of salt and 16 for each 4194304 bytes and the end, fit three
/// channels of each pixel.
pub proof fn law_hiding_is_owed(
    cover: Entry,
    plain_len: nat,
    opts: EncryptOptions,
    growth: Growth,
    stem: Seq<char>,
)
    requires
        opened(cover) is Ok,
        opened(cover)->Ok_0.image.data.len() > 0,
        1 <= opts.bpc <= 4,
        stem.len() > 0,
        stem.last() != '/',
        stem.last() != '\\',
        stem.last() != ':',
        plain_len <= usize::MAX,
        plain_len < 4_294_967_296 * 4_194_304,
        opts.password matches Some(text) ==> encode_utf8(text@).len() <= 4_294_967_295,
        8 * (plain_len + 37 + (if opts.password is Some {
            22 + 16 * (plain_len / 4_194_304 + 1)
        } else {
            0
        })) <= opened(cover)->Ok_0.image.width as nat * opened(cover)->Ok_0.image.height as nat * 3
            * opts.bpc as nat,
        opened(cover)->Ok_0.image.width as nat * opened(cover)->Ok_0.image.height as nat * 3
            * opts.bpc as nat / 8 <= usize::MAX,
    ensures
        owed(cover, plain_len, true, opts, growth, stem + ".png"@),
{
    law_png_names(stem, seq!['p', 'n', 'g']);
    law_capacity(opened(cover)->Ok_0.image, opts.bpc);
    law_what_can_be_encrypted(string_text(opts.password), plain_len);
    law_hidden_length(plain_len, opts.password is Some);
}

/// Hiding in a cover that has to grow is owed too, where that is allowed, the grown image
/// is within the limit and has room, and the cover can be scaled.
pub proof fn law_growing_is_owed(
    cover: Entry,
    plain_len: nat,
    opts: EncryptOptions,
    growth: Growth,
    stem: Seq<char>,
)
    requires
        opened(cover) is Ok,
        opened(cover)->Ok_0.image.data.len() > 0,
        1 <= opts.bpc <= 4,
        stem.len() > 0,
        stem.last() != '/',
        stem.last() != '\\',
        stem.last() != ':',
        plain_len <= usize::MAX,
        plain_len < 4_294_967_296 * 4_194_304,
        opts.password matches Some(text) ==> encode_utf8(text@).len() <= 4_294_967_295,
        opts.allow_upscale,
        growth.width <= 1_073_741_823,
        growth.width as nat * growth.height as nat <= growth.max_pixels,
        8 * (plain_len + 37 + (if opts.password is Some {
            22 + 16 * (plain_len / 4_194_304 + 1)
        } else {
            0
        })) <= growth.width as nat * growth.height as nat * 3 * opts.bpc as nat,
        resizable(
            opened(cover)->Ok_0.image.width,
            opened(cover)->Ok_0.image.height,
            growth.width,
            growth.height,
        ),
    ensures
        owed(cover, plain_len, true, opts, growth, stem + ".png"@),
{
    law_png_names(stem, seq!['p', 'n', 'g']);
    law_what_can_be_encrypted(string_text(opts.password), plain_len);
    law_hidden_length(plain_len, opts.password is Some);
}

/// The length of all that is hidden.
pub proof fn law_hidden_length(plain_len: nat, encrypted: bool)
    ensures
        hidden_len(plain_len, encrypted) == plain_len + 37 + (if encrypted {
            22 + 16 * (plain_len / 4_194_304 + 1)
        } else {
            0
        }),
        cipher_len_of(plain_len, encrypted) == plain_len + (if encrypted {
            16 * (plain_len / 4_194_304 + 1)
        } else {
            0
        }),
        plain_len <= usize::MAX ==> counted(plain_len) == plain_len,
        plain_len > usize::MAX ==> counted(plain_len) == usize::MAX,
{
    assert((plain_len / 4_194_304 + 1) * 16 == 16 * (plain_len / 4_194_304 + 1));
}

/// A payload is refused beforehand exactly where the cover has no room for it and may not
/// grow, or would grow beyond the limit; the answer tells the sizes.
pub proof fn law_refused_beforehand(
    img: Raster,
    bpc: u8,
    allow_upscale: bool,
    encrypted: bool,
    plain_len: nat,
    growth: Growth,
)
    requires
        hidden_len(plain_len, encrypted) <= usize::MAX,
        img.width as nat * img.height as nat * 3 * bpc as nat / 8 <= usize::MAX,
    ensures
        ({
            let needed = plain_len + 37 + (if encrypted {
                22 + 16 * (plain_len / 4_194_304 + 1)
            } else {
                0
            });
            let bits = img.width as nat * img.height as nat * 3 * bpc as nat;
            let pixels = growth.width as nat * growth.height as nat;
            let out = preflight(img, bpc, allow_upscale, encrypted, plain_len, growth);
            if 8 * needed <= bits {
                out == Ok::<(), ErrorView>(())
            } else if !allow_upscale {
                out == Err::<(), ErrorView>(
                    Fault::DoesNotFit { capacity: (bits / 8) as usize, needed: needed as usize },
                )
            } else if pixels > growth.max_pixels {
                out == Err::<(), ErrorView>(
                    Fault::CoverTooSmall {
                        bpc,
                        width: growth.width,
                        height: growth.height,
                        pixels: pixels as u64,
                    },
                )
            } else {
                out == Ok::<(), ErrorView>(())
            }
        }),
{
    law_capacity(img, bpc);
    law_hidden_length(plain_len, encrypted);
}

/// Files are refused for what is wrong with the cover, for their size, for their names
/// and for their password, in this order, and for nothing else before they are hidden.
pub proof fn law_what_is_refused(
    cover: Entry,
    plain: Seq<u8>,
    named: bool,
    password: Option<Seq<char>>,
    bpc: u8,
    allow_upscale: bool,
    growth: Growth,
)
    requires
        plain.len() <= usize::MAX,
    ensures
        ({
            let out = embed_refusal(cover, plain, named, password, bpc, allow_upscale, growth);
            match opened(cover) {
                Err(e) => out == Some(e),
                Ok(img) => match preflight(
                    img.image,
                    bpc,
                    allow_upscale,
                    password is Some,
                    plain.len(),
                    growth,
                ) {
                    Err(e) => out == Some(e),
                    Ok(_) => if !named {
                        out == Some::<ErrorView>(Fault::NameTooLong)
                    } else {
                        out == seal_refusal(password, plain.len())
                    },
                },
            }
        }),
{
}

/// The size of the image that data was hidden in is that of the cover where it has room,
/// else the one that it was to grow to.
pub proof fn law_size_is_kept(out: Hidden, cover: Raster, len: nat, bpc: u8, growth: Growth)
    requires
        sized(out, cover, len, bpc, growth),
        cover.width as nat * cover.height as nat * 3 * bpc as nat / 8 <= usize::MAX,
    ensures
        8 * len <= cover.width as nat * cover.height as nat * 3 * bpc as nat ==> out.out_width
            == cover.width && out.out_height == cover.height,
        8 * len > cover.width as nat * cover.height as nat * 3 * bpc as nat ==> out.out_width
            == growth.width && out.out_height == growth.height,
{
    law_capacity(cover, bpc);
}

/// A file that was written as PNG, of up to 536870912 bytes of pixels, gives back its
/// files under every name of a PNG, and its payload can be moved to any cover that opens.
pub proof fn law_what_is_given_back(
    out: Hidden,
    bpc: u8,
    password: Option<Seq<char>>,
    files: Seq<Entry>,
    plain: Seq<u8>,
    multi: bool,
    stem: Seq<char>,
    name: Seq<char>,
    new_cover: Entry,
)
    requires
        out.stego.name == stem + ".png"@,
        stem.len() > 0,
        stem.last() != '/',
        stem.last() != '\\',
        stem.last() != ':',
        name.len() > 0,
        name.last() != '/',
        name.last() != '\\',
        name.last() != ':',
        4 * (out.out_width as nat * out.out_height as nat) <= 536_870_912,
    ensures
        gives_back(out, bpc, password, files, multi) ==> revealed(
            Entry { name: name + ".png"@, data: out.stego.data },
            bpc,
            password,
        ) == Ok::<Revealed, Unread>(
            Revealed { outputs: files, encrypted: password is Some, multi },
        ),
        carries(out, bpc, password, plain, multi) && opened(new_cover) is Ok ==> swapped(
            Entry { name: name + ".png"@, data: out.stego.data },
            new_cover,
            bpc,
            password,
        ) == Ok::<(Opened, Seq<u8>, bool), ErrorView>((opened(new_cover)->Ok_0, plain, multi)),
        reveals(out, bpc, password, plain, multi) ==> (streamed_payload(plain, false) matches Ok(
            outputs,
        ) ==> revealed(Entry { name: name + ".png"@, data: out.stego.data }, bpc, password) == Ok::<
            Revealed,
            Unread,
        >(Revealed { outputs, encrypted: out.encrypted, multi })),
{
    law_png_names(stem, seq!['p', 'n', 'g']);
    law_png_names(name, seq!['p', 'n', 'g']);
    assert(decodable(out, name + ".png"@));
}

/// The payload of an image is what follows the header in its low bits, as long as the
/// header states; an image that ends before is refused, and so are other bits per channel
/// than one to four.
pub proof fn law_payload_follows_its_header(img: Raster, bpc: u8)
    ensures
        !(1 <= bpc <= 4) ==> extracted_payload(img, bpc as int) == Err::<
            (Seq<u8>, HeaderView),
            ErrorView,
        >(Fault::InvalidBpc),
        1 <= bpc <= 4 ==> ({
            let all = extracted(img, bpc as int);
            let out = extracted_payload(img, bpc as int);
            if all.len() < 9 || all.len() < 37 + all[8] {
                out == Err::<(Seq<u8>, HeaderView), ErrorView>(Fault::ExtractTruncated)
            } else {
                match parsed_header(all.take(37 + all[8])) {
                    Err(e) => out == Err::<(Seq<u8>, HeaderView), ErrorView>(e),
                    Ok(h) => if all.len() < h.header_size + h.cipher_len {
                        out == Err::<(Seq<u8>, HeaderView), ErrorView>(Fault::ExtractTruncated)
                    } else {
                        out == Ok::<(Seq<u8>, HeaderView), ErrorView>(
                            (all.skip(h.header_size as int).take(h.cipher_len as int), h),
                        )
                    },
                }
            }
        }),
{
    let all = extracted(img, bpc as int);
    if extracted_payload(img, bpc as int) is Ok {
        let h = extracted_payload(img, bpc as int)->Ok_0.1;
        assert(all.skip(h.header_size as int).take(h.cipher_len as int) =~= all.subrange(
            h.header_size as int,
            h.header_size + h.cipher_len,
        ));
    }
}

/// An image reveals the files of the payload in its low bits: what is wrong with the
/// image, the header or the bits per channel is answered with no file, what is wrong with
/// the payload with the files before the fault.
pub proof fn law_reveal_reads_the_payload(stego: Entry, bpc: u8, password: Option<Seq<char>>)
    ensures
        match opened(stego) {
            Err(e) => revealed(stego, bpc, password) == Err::<Revealed, Unread>(
                Unread { files: Seq::empty(), error: e },
            ),
            Ok(img) => match extracted_payload(img.image, bpc as int) {
                Err(e) => revealed(stego, bpc, password) == Err::<Revealed, Unread>(
                    Unread { files: Seq::empty(), error: e },
                ),
                Ok((data, h)) => h.bpc == bpc ==> match opened_payload_stream(
                    password,
                    h.salt,
                    h.nonce,
                    data,
                    h.encrypted,
                ) {
                    Err(e) => revealed(stego, bpc, password) == Err::<Revealed, Unread>(
                        Unread { files: Seq::empty(), error: e },
                    ),
                    Ok((plain, broken)) => match streamed_payload(plain, broken) {
                        Err(u) => revealed(stego, bpc, password) == Err::<Revealed, Unread>(u),
                        Ok(files) => revealed(stego, bpc, password) == Ok::<Revealed, Unread>(
                            Revealed { outputs: files, encrypted: h.encrypted, multi: h.multi },
                        ),
                    },
                },
            },
        },
{
}

/// What revealing reports: each byte of the payload that is read, from the end of the
/// header on, until all are.
pub proof fn law_reading_reports(header_size: nat, len: nat, i: int)
    requires
        header_size + len <= u64::MAX,
        0 <= i <= len,
    ensures
        reading_log(header_size, len, header_size + len).len() == len + 1,
        reading_log(header_size, len, header_size + len)[i] == (Report {
            phase: ProgressPhase::Extract,
            done: (header_size + i) as u64,
            total: (header_size + len) as u64,
        }),
{
}

/// What hiding and revealing give is what their results hold.
pub proof fn law_results_in_memory(e: EmbedResult, r: RevealResult, fault: PayloadFault)
    ensures
        e@.stego.name == e.stego.name@ && e@.stego.data == e.stego.data@,
        e@.out_width == e.out_width && e@.out_height == e.out_height,
        e@.encrypted == e.encrypted && e@.file_count == e.file_count,
        r@.encrypted == r.encrypted && r@.multi == r.multi,
        r@.outputs == entries_of(r.outputs@),
        fault@.files == entries_of(fault.files@) && fault@.error == fault.error@,
        reveal_outcome(Ok(r)) == Ok::<Revealed, Unread>(r@),
        reveal_outcome(Err(fault)) == Err::<Revealed, Unread>(fault@),
{
}

} // verus!
