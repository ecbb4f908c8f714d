//! The payload: one file or a list of files, each with its name and hash.
//!
//! One file is `S` and its entry; a list is `M`, the number of files (4) and
//! their entries. An entry is the length of the name (2), the name, the length
//! of the content (8), its SHA-256 (32) and the content; numbers are big-endian.
use crate::bytes::{append, be_bytes, be_value, copy_range, push_be, read_be, same};
use crate::bytes::{
    lemma_be_bytes_len, lemma_be_round_trip, lemma_be_value_bound, lemma_byte_ranges,
};
use crate::error::{Error, ErrorView, Fault};
use crate::number::counted64;
use crate::progress::{
    counted_to, counts_up, lemma_counted_push, lemma_own, only_told, tell,
    told_all, ProgressPhase, ProgressSink, Report, Scale,
};
use crate::source::{read_failure, ByteSource};
use crate::text::{
    after_last_separator, chars_of, is_separator, last_component, law_last_component, lemma_last_component,
    lemma_last_component_whole, string_of,
};
use sha2::{Digest, Sha256};
use vstd::prelude::*;
use vstd::utf8::{decode_utf8, encode_utf8, valid_utf8};

verus! {

/// The bytes that every hidden header starts with: `F2L2`.
pub const MAGIC_V2: [u8; 4] = [0x46, 0x32, 0x4c, 0x32];

/// The longest file name, in characters of a restored name and in bytes of a
/// name that is read from a source.
pub const MAX_NAME_LEN: usize = 4096;

/// The most files that a list may hold.
pub const MAX_FILES: u32 = 100_000;

/// The bytes of a content that are copied before they are reported.
pub const COPY_CHUNK: usize = 1_048_576;

/// A file by its name and content.
#[derive(Debug)]
pub struct FileEntry {
    pub name: String,
    pub data: Vec<u8>,
}

/// The mathematical view of a file.
#[verifier::ext_equal]
pub struct Entry {
    pub name: Seq<char>,
    pub data: Seq<u8>,
}

impl View for FileEntry {
    type V = Entry;

    open spec fn view(&self) -> Entry {
        Entry { name: self.name@, data: self.data@ }
    }
}

/// A payload and its length.
#[derive(Debug)]
pub struct PayloadFile {
    pub data: Vec<u8>,
    pub len: usize,
}

/// The SHA-256 of `data`.
pub uninterp spec fn sha256_of(data: Seq<u8>) -> [u8; 32];

/// The text that bytes which are not UTF-8 are read as.
pub uninterp spec fn replaced_utf8(bytes: Seq<u8>) -> Seq<char>;

/// Calls `Sha256::digest` of `sha2`: the hash is a function of the data.
#[verifier::external_body]
pub(crate) fn sha256(data: &[u8]) -> (out: [u8; 32])
    ensures
        out == sha256_of(data@),
{
    Sha256::digest(data).into()
}

/// Calls `String::from_utf8_lossy`: UTF-8 is read as the text it encodes, other
/// bytes as a text with replacement characters that is a function of them.
#[verifier::external_body]
pub(crate) fn read_text(bytes: &[u8]) -> (out: String)
    ensures
        out@ == (if valid_utf8(bytes@) {
            decode_utf8(bytes@)
        } else {
            replaced_utf8(bytes@)
        }),
{
    String::from_utf8_lossy(bytes).into_owned()
}

/// The text that bytes are read as.
pub open spec fn text_in(bytes: Seq<u8>) -> Seq<char> {
    if valid_utf8(bytes) {
        decode_utf8(bytes)
    } else {
        replaced_utf8(bytes)
    }
}

/// Text that was written as bytes is read as the same text.
pub proof fn lemma_text_round_trip(text: Seq<char>)
    ensures
        text_in(encode_utf8(text)) == text,
{
    vstd::utf8::encode_utf8_valid_utf8(text);
    vstd::utf8::encode_utf8_decode_utf8(text);
}

/// The character that stands for `c` in the name of a restored file.
pub open spec fn replaced(c: char) -> char {
    if c == '\0' || is_separator(c) {
        '_'
    } else {
        c
    }
}

/// Whether a component of a path names no file: it is empty or one of the special
/// directory names.
pub open spec fn names_no_file(component: Seq<char>) -> bool {
    component.len() == 0 || component == seq!['.'] || component == seq!['.', '.']
}

/// The name that a file is restored under: the last component of the stored name,
/// or `restored.bin` where that names no file.
pub open spec fn sanitized(name: Seq<char>) -> Seq<char> {
    let base = last_component(name);
    let kept = if names_no_file(base) {
        "restored.bin"@
    } else {
        base
    };
    let len = if kept.len() < MAX_NAME_LEN {
        kept.len() as int
    } else {
        MAX_NAME_LEN as int
    };
    kept.map_values(|c: char| replaced(c)).take(len)
}

/// The name that a file is restored under.
pub fn sanitize_filename(name: &str) -> (out: String)
    ensures
        out@ == sanitized(name@),
{
    let base: Vec<char> = after_last_separator(chars_of(name).as_slice());
    let no_file: bool = base.len() == 0 || (base.len() == 1 && base[0] == '.') || (base.len() == 2
        && base[0] == '.' && base[1] == '.');
    proof {
        if no_file {
            assert(base@.len() == 0 || base@ =~= seq!['.'] || base@ =~= seq!['.', '.']);
        }
        assert(no_file == names_no_file(base@));
    }
    let kept: Vec<char> = if no_file {
        chars_of("restored.bin")
    } else {
        base
    };
    let mut out: Vec<char> = Vec::new();
    let mut k: usize = 0;
    let ghost mapped = kept@.map_values(|c: char| replaced(c));
    while k < kept.len() && k < MAX_NAME_LEN
        invariant
            k <= kept@.len(),
            k <= MAX_NAME_LEN,
            mapped == kept@.map_values(|c: char| replaced(c)),
            out@ == mapped.take(k as int),
        decreases kept.len() - k,
    {
        let c: char = kept[k];
        if c == '\0' || c == '/' || c == '\\' {
            out.push('_');
        } else {
            out.push(c);
        }
        k = k + 1;
        assert(out@ =~= mapped.take(k as int));
    }
    string_of(out.as_slice())
}

/// A name that is one plain component of a path: not empty, not longer than the
/// limit, without separators and zero characters, and none of the special directory
/// names.
pub open spec fn plain_component(name: Seq<char>) -> bool {
    &&& !names_no_file(name)
    &&& name.len() <= MAX_NAME_LEN
    &&& forall|i: int|
        0 <= i < name.len() ==> !is_separator(#[trigger] name[i]) && name[i] != '\0'
}

/// A name that is one plain component is restored as it is.
pub proof fn law_plain_name_stays(name: Seq<char>)
    requires
        plain_component(name),
    ensures
        sanitized(name) == name,
{
    lemma_last_component_whole(name);
    assert(name.map_values(|c: char| replaced(c)) =~= name);
    assert(name.take(name.len() as int) =~= name);
}

/// A restored file has a name that is one plain component: not empty, not longer
/// than the limit, without separators and zero characters, and none of the special
/// directory names.
pub proof fn law_restored_name(name: Seq<char>)
    ensures
        plain_component(sanitized(name)),
        1 <= sanitized(name).len() <= MAX_NAME_LEN,
        sanitized(name) != "."@,
        sanitized(name) != ".."@,
{
    let base = last_component(name);
    lemma_last_component(name);
    reveal_strlit("restored.bin");
    reveal_strlit(".");
    reveal_strlit("..");
    let clean = sanitized(name);
    let kept = if names_no_file(base) {
        "restored.bin"@
    } else {
        base
    };
    assert(kept.len() > 0);
    assert forall|i: int| 0 <= i < clean.len() implies !is_separator(#[trigger] clean[i])
        && clean[i] != '\0' && (clean[i] == '.' ==> kept[i] == '.') by {
        assert(clean[i] == replaced(kept[i]));
    }
    if clean =~= seq!['.'] {
        assert(clean[0] == '.');
        assert(kept =~= seq!['.']);
    }
    if clean =~= seq!['.', '.'] {
        assert(clean[0] == '.' && clean[1] == '.');
        assert(kept =~= seq!['.', '.']);
    }
    assert("."@ =~= seq!['.']);
    assert(".."@ =~= seq!['.', '.']);
}

/// Restoring a restored name keeps it.
pub proof fn law_restored_name_stays(name: Seq<char>)
    ensures
        sanitized(sanitized(name)) == sanitized(name),
{
    law_restored_name(name);
    law_plain_name_stays(sanitized(name));
}

/// The bytes of a file name.
pub open spec fn name_bytes(e: Entry) -> Seq<u8> {
    encode_utf8(e.name)
}

/// The entry of a file in a payload.
pub open spec fn entry_bytes(e: Entry) -> Seq<u8> {
    be_bytes(name_bytes(e).len(), 2) + name_bytes(e) + be_bytes(e.data.len(), 8) + sha256_of(
        e.data,
    )@ + e.data
}

/// The entries of files, one after the other.
pub open spec fn entries_bytes(es: Seq<Entry>) -> Seq<u8>
    decreases es.len(),
{
    if es.len() == 0 {
        Seq::empty()
    } else {
        entry_bytes(es.first()) + entries_bytes(es.drop_first())
    }
}

/// The payload of one file.
pub open spec fn single_payload(e: Entry) -> Seq<u8> {
    seq![0x53u8] + entry_bytes(e)
}

/// The payload of a list of files.
pub open spec fn multi_payload(es: Seq<Entry>) -> Seq<u8> {
    seq![0x4du8] + be_bytes(es.len(), 4) + entries_bytes(es)
}

/// The mathematical views of files.
pub open spec fn entries_of(files: Seq<FileEntry>) -> Seq<Entry> {
    files.map_values(|f: FileEntry| f@)
}

/// The length of an entry.
pub open spec fn entry_len(e: Entry) -> nat {
    42 + name_bytes(e).len() + e.data.len()
}

/// The length of an entry is that of its fields.
pub proof fn lemma_entry_len(e: Entry)
    ensures
        entry_bytes(e).len() == entry_len(e),
{
    lemma_be_bytes_len(name_bytes(e).len(), 2);
    lemma_be_bytes_len(e.data.len(), 8);
}

/// One more file takes one more entry.
pub proof fn lemma_entries_push(es: Seq<Entry>, e: Entry)
    ensures
        entries_bytes(es.push(e)) == entries_bytes(es) + entry_bytes(e),
    decreases es.len(),
{
    if es.len() == 0 {
        assert(es.push(e).drop_first() =~= es);
        assert(entries_bytes(es.push(e)) =~= entries_bytes(es) + entry_bytes(e));
    } else {
        lemma_entries_push(es.drop_first(), e);
        assert(es.push(e).drop_first() =~= es.drop_first().push(e));
        assert(es.push(e).first() == es.first());
        assert(entries_bytes(es.push(e)) =~= entries_bytes(es) + entry_bytes(e));
    }
}

/// The file that is hidden for a name and a content; without a name it is called
/// `restored.bin`.
pub fn file_to_entry(name: Option<String>, data: Vec<u8>) -> (out: FileEntry)
    ensures
        out@ == (Entry {
            name: match name {
                Some(text) => text@,
                None => "restored.bin"@,
            },
            data: data@,
        }),
{
    match name {
        Some(name) => FileEntry { name, data },
        None => FileEntry { name: string_of(chars_of("restored.bin").as_slice()), data },
    }
}

/// Appends the entry of a file.
fn push_entry(buf: &mut Vec<u8>, entry: &FileEntry)
    ensures
        final(buf)@ == old(buf)@ + entry_bytes(entry@),
{
    let name: &[u8] = entry.name.as_str().as_bytes();
    push_be(buf, name.len() as u64, 2);
    append(buf, name);
    push_be(buf, entry.data.len() as u64, 8);
    let hash: [u8; 32] = sha256(entry.data.as_slice());
    append(buf, hash.as_slice());
    append(buf, entry.data.as_slice());
    assert(buf@ =~= old(buf)@ + entry_bytes(entry@));
}

/// Writes the payload of one file.
pub fn build_payload_single(input_file: &FileEntry) -> (buf: Vec<u8>)
    ensures
        buf@ == single_payload(input_file@),
{
    let mut buf: Vec<u8> = Vec::new();
    buf.push(0x53);
    push_entry(&mut buf, input_file);
    assert(buf@ =~= single_payload(input_file@));
    buf
}

/// Writes the payload of a list of files.
pub fn build_payload_multi(inputs: &[FileEntry]) -> (buf: Vec<u8>)
    ensures
        buf@ == multi_payload(entries_of(inputs@)),
{
    let mut buf: Vec<u8> = Vec::new();
    buf.push(0x4d);
    push_be(&mut buf, inputs.len() as u64, 4);
    let ghost start = buf@;
    let ghost all = entries_of(inputs@);
    let mut k: usize = 0;
    assert(all.take(0) =~= Seq::<Entry>::empty());
    while k < inputs.len()
        invariant
            k <= inputs@.len(),
            all == entries_of(inputs@),
            buf@ == start + entries_bytes(all.take(k as int)),
        decreases inputs.len() - k,
    {
        push_entry(&mut buf, &inputs[k]);
        proof {
            lemma_entries_push(all.take(k as int), all[k as int]);
            assert(all.take(k + 1) =~= all.take(k as int).push(all[k as int]));
        }
        k = k + 1;
        assert(buf@ =~= start + entries_bytes(all.take(k as int)));
    }
    assert(all.take(k as int) =~= all);
    assert(buf@ =~= multi_payload(all));
    buf
}

/// Whether the length of a file's name fits its field.
pub open spec fn name_fits(e: Entry) -> bool {
    name_bytes(e).len() <= u16::MAX
}

/// The bytes of the contents of files.
pub open spec fn contents_len(es: Seq<Entry>) -> nat
    decreases es.len(),
{
    if es.len() == 0 {
        0
    } else {
        contents_len(es.drop_last()) + es.last().data.len()
    }
}

/// The first files have no more bytes than all.
proof fn lemma_contents_len(es: Seq<Entry>, n: int)
    requires
        0 <= n <= es.len(),
    ensures
        contents_len(es.take(n)) <= contents_len(es),
        n < es.len() ==> contents_len(es.take(n + 1)) == contents_len(es.take(n))
            + es[n].data.len(),
        es.take(es.len() as int) == es,
    decreases es.len(),
{
    assert(es.take(es.len() as int) =~= es);
    if n < es.len() {
        assert(es.take(n + 1).drop_last() =~= es.take(n));
        lemma_contents_len(es.drop_last(), n);
        assert(es.drop_last().take(n) =~= es.take(n));
    }
}

/// Appends the entry of a file and reports each piece of its content that was
/// copied. `copied` bytes of the `whole` were copied before.
fn copy_entry<P: ProgressSink>(
    buf: &mut Vec<u8>,
    entry: &FileEntry,
    copied: u64,
    total: u64,
    on_copied: &mut P,
    Ghost(whole): Ghost<nat>,
    Ghost(start): Ghost<P>,
    Ghost(log): Ghost<Seq<Report>>,
) -> (out: Ghost<Seq<Report>>)
    requires
        total == counted64(whole),
        copied + entry.data@.len() <= whole,
        copied <= old(buf)@.len(),
        told_all(start, log, *old(on_copied)),
        counted_to(log, ProgressPhase::Prepare, total, copied),
    ensures
        final(buf)@ == old(buf)@ + entry_bytes(entry@),
        copied + entry.data@.len() <= final(buf)@.len() <= usize::MAX,
        told_all(start, out@, *final(on_copied)),
        counted_to(out@, ProgressPhase::Prepare, total, (copied + entry.data@.len()) as u64),
{
    let name: &[u8] = entry.name.as_str().as_bytes();
    push_be(buf, name.len() as u64, 2);
    append(buf, name);
    push_be(buf, entry.data.len() as u64, 8);
    let hash: [u8; 32] = sha256(entry.data.as_slice());
    append(buf, hash.as_slice());
    let ghost front = buf@;
    let ghost mut told = log;
    let data: &[u8] = entry.data.as_slice();
    let mut at: usize = 0;
    assert(buf.len() == buf@.len());
    assert(front + data@.take(0) =~= front);
    while at < data.len()
        invariant
            at <= data@.len(),
            data@ == entry.data@,
            total == counted64(whole),
            copied + data@.len() <= whole,
            copied <= front.len(),
            buf@ == front + data@.take(at as int),
            buf@.len() <= usize::MAX,
            told_all(start, told, *on_copied),
            counted_to(told, ProgressPhase::Prepare, total, (copied + at) as u64),
        decreases data@.len() - at,
    {
        let end: usize = if data.len() - at < COPY_CHUNK {
            data.len()
        } else {
            at + COPY_CHUNK
        };
        append(buf, vstd::slice::slice_subrange(data, at, end));
        assert(buf@ =~= front + data@.take(end as int));
        assert(buf.len() == buf@.len());
        let r = Report { phase: ProgressPhase::Prepare, done: copied + end as u64, total };
        proof {
            lemma_own(told);
            lemma_own(told.push(r));
            lemma_counted_push(told, (copied + at) as u64, r);
        }
        tell(on_copied, Scale::Own, r, Ghost(start), Ghost(told));
        proof {
            told = told.push(r);
        }
        at = end;
    }
    assert(data@.take(at as int) =~= data@);
    assert(buf@ =~= old(buf)@ + entry_bytes(entry@));
    Ghost(told)
}

/// Writes the payload of one file, if its name fits, and reports each piece of the
/// content that was copied.
pub fn build_payload_single_streaming<P: ProgressSink>(
    input_file: &FileEntry,
    on_copied: &mut P,
) -> (out: Result<PayloadFile, Error>)
    ensures
        match out {
            Ok(p) => name_fits(input_file@) && p.data@ == single_payload(input_file@) && p.len
                == p.data@.len(),
            Err(e) => !name_fits(input_file@) && e@ == ErrorView::NameTooLong,
        },
        out is Ok ==> exists|log: Seq<Report>|
            told_all(*old(on_copied), log, *final(on_copied)) && counts_up(
                log,
                ProgressPhase::Prepare,
                input_file.data@.len() as u64,
            ),
        out is Err ==> *final(on_copied) == *old(on_copied),
{
    if input_file.name.as_str().as_bytes().len() > u16::MAX as usize {
        return Err(Fault::NameTooLong);
    }
    let total: u64 = input_file.data.len() as u64;
    let mut data: Vec<u8> = Vec::new();
    data.push(0x53);
    let Ghost(log) = copy_entry(
        &mut data,
        input_file,
        0,
        total,
        on_copied,
        Ghost(input_file.data@.len()),
        Ghost(*old(on_copied)),
        Ghost(Seq::empty()),
    );
    assert(data@ =~= single_payload(input_file@));
    assert(counts_up(log, ProgressPhase::Prepare, total));
    let len: usize = data.len();
    Ok(PayloadFile { data, len })
}

/// Writes the payload of a list of files, if their names fit, and reports each piece
/// of their contents that was copied.
pub fn build_payload_multi_streaming<P: ProgressSink>(
    inputs: &[FileEntry],
    on_copied: &mut P,
) -> (out: Result<PayloadFile, Error>)
    ensures
        match out {
            Ok(p) => (forall|i: int| 0 <= i < inputs@.len() ==> name_fits(#[trigger] inputs@[i]@))
                && p.data@ == multi_payload(entries_of(inputs@)) && p.len == p.data@.len(),
            Err(e) => (exists|i: int| 0 <= i < inputs@.len() && !name_fits(#[trigger] inputs@[i]@))
                && e@ == ErrorView::NameTooLong,
        },
        out is Ok ==> exists|log: Seq<Report>|
            told_all(*old(on_copied), log, *final(on_copied)) && counts_up(
                log,
                ProgressPhase::Prepare,
                counted64(contents_len(entries_of(inputs@))),
            ),
        only_told(*old(on_copied), *final(on_copied)),
{
    let ghost all = entries_of(inputs@);
    let mut total: u64 = 0;
    let mut k: usize = 0;
    while k < inputs.len()
        invariant
            k <= inputs@.len(),
            all == entries_of(inputs@),
            total == counted64(contents_len(all.take(k as int))),
        decreases inputs.len() - k,
    {
        proof {
            lemma_contents_len(all, k as int);
        }
        total = total.saturating_add(inputs[k].data.len() as u64);
        k = k + 1;
    }
    let mut data: Vec<u8> = Vec::new();
    data.push(0x4d);
    push_be(&mut data, inputs.len() as u64, 4);
    let ghost front = data@;
    let ghost mut log: Seq<Report> = Seq::empty();
    let mut copied: u64 = 0;
    k = 0;
    proof {
        assert(all.take(0) =~= Seq::<Entry>::empty());
        lemma_contents_len(all, all.len() as int);
    }
    while k < inputs.len()
        invariant
            k <= inputs@.len(),
            all == entries_of(inputs@),
            forall|i: int| 0 <= i < k ==> name_fits(#[trigger] inputs@[i]@),
            data@ == front + entries_bytes(all.take(k as int)),
            total == counted64(contents_len(all)),
            copied == contents_len(all.take(k as int)),
            copied <= data@.len(),
            told_all(*old(on_copied), log, *on_copied),
            counted_to(log, ProgressPhase::Prepare, total, copied),
        decreases inputs.len() - k,
    {
        let input: &FileEntry = &inputs[k];
        if input.name.as_str().as_bytes().len() > u16::MAX as usize {
            assert(!name_fits(inputs@[k as int]@));
            return Err(Fault::NameTooLong);
        }
        assert(name_fits(inputs@[k as int]@));
        proof {
            lemma_contents_len(all, k as int);
            lemma_contents_len(all, k + 1);
            lemma_entries_push(all.take(k as int), all[k as int]);
            assert(all.take(k + 1) =~= all.take(k as int).push(all[k as int]));
        }
        let Ghost(more) = copy_entry(
            &mut data,
            input,
            copied,
            total,
            on_copied,
            Ghost(contents_len(all)),
            Ghost(*old(on_copied)),
            Ghost(log),
        );
        proof {
            log = more;
        }
        copied = copied + input.data.len() as u64;
        k = k + 1;
        assert(data@ =~= front + entries_bytes(all.take(k as int)));
    }
    proof {
        assert(all.take(k as int) =~= all);
        assert(data@ =~= multi_payload(all));
        assert(counts_up(log, ProgressPhase::Prepare, total));
    }
    let len: usize = data.len();
    Ok(PayloadFile { data, len })
}

/// The file at the start of `rest` and the number of bytes of its entry, or why
/// there is none. The errors of a list differ from those of a single file.
#[verifier::opaque]
pub open spec fn parsed_entry(rest: Seq<u8>, multi: bool) -> Result<(Entry, nat), ErrorView> {
    let meta = 2 + be_value(rest.subrange(0, 2)) as int;
    let size = be_value(rest.subrange(meta, meta + 8));
    let start = meta + 40;
    let data = rest.subrange(start, start + size);
    if multi && rest.len() < 2 {
        Err(Fault::MultiTruncatedName)
    } else if !multi && rest.len() < 42 {
        Err(Fault::SingleTruncated)
    } else if rest.len() < start {
        Err(
            if multi {
                Fault::MultiTruncatedMeta
            } else {
                Fault::SingleTruncatedName
            },
        )
    } else if size > usize::MAX {
        Err(Fault::FileTooLarge)
    } else if rest.len() < start + size {
        Err(
            if multi {
                Fault::MultiTruncatedData
            } else {
                Fault::SingleTruncatedData
            },
        )
    } else if sha256_of(data)@ != rest.subrange(meta + 8, meta + 40) {
        Err(
            if multi {
                Fault::MultiShaMismatch
            } else {
                Fault::SingleShaMismatch
            },
        )
    } else {
        Ok((Entry { name: sanitized(text_in(rest.subrange(2, meta))), data }, (start + size) as nat))
    }
}

/// What is known of a payload that cannot be read to its end: the files before the
/// fault, and the fault.
#[verifier::ext_equal]
pub struct Unread {
    pub files: Seq<Entry>,
    pub error: ErrorView,
}

/// A payload of which nothing can be read.
pub open spec fn unread(error: ErrorView) -> Unread {
    Unread { files: Seq::empty(), error }
}

/// Files, then the others as far as they can be read.
pub open spec fn joined(front: Seq<Entry>, others: Result<Seq<Entry>, Unread>) -> Result<
    Seq<Entry>,
    Unread,
> {
    match others {
        Ok(es) => Ok(front + es),
        Err(u) => Err(Unread { files: front + u.files, error: u.error }),
    }
}

/// The `count` files at the start of `rest`, or those before the first that is not
/// there, and why it is not.
pub open spec fn parsed_entries(rest: Seq<u8>, count: nat) -> Result<Seq<Entry>, Unread>
    decreases count,
{
    if count == 0 {
        Ok(Seq::empty())
    } else {
        match parsed_entry(rest, true) {
            Err(e) => Err(unread(e)),
            Ok((entry, used)) => joined(
                seq![entry],
                parsed_entries(rest.skip(used as int), (count - 1) as nat),
            ),
        }
    }
}

/// The files of a payload, or those before the first that cannot be read, and why
/// it cannot.
pub open spec fn parsed_payload(data: Seq<u8>) -> Result<Seq<Entry>, Unread> {
    if data.len() == 0 {
        Err(unread(Fault::EmptyPayload))
    } else if data[0] == 0x53 {
        match parsed_entry(data.skip(1), false) {
            Ok((entry, _)) => Ok(seq![entry]),
            Err(e) => Err(unread(e)),
        }
    } else if data[0] == 0x4d {
        let count = be_value(data.subrange(1, 5));
        if data.len() < 5 {
            Err(unread(Fault::MultiTruncated))
        } else if count > MAX_FILES {
            Err(unread(Fault::TooManyFiles { count: count as u32 }))
        } else {
            parsed_entries(data.skip(5), count)
        }
    } else {
        Err(unread(Fault::UnknownPayload))
    }
}

/// Why a payload cannot be read to its end, with the files before the fault.
#[derive(Debug)]
pub struct PayloadFault {
    pub files: Vec<FileEntry>,
    pub error: Error,
}

impl View for PayloadFault {
    type V = Unread;

    open spec fn view(&self) -> Unread {
        Unread { files: entries_of(self.files@), error: self.error@ }
    }
}

impl PayloadFault {
    /// A fault before the first file.
    pub fn first(error: Error) -> (out: Self)
        ensures
            out@ == unread(error@),
    {
        let out = PayloadFault { files: Vec::new(), error };
        assert(out@ =~= unread(error@));
        out
    }
}

/// What reading a payload says, in mathematical views.
pub open spec fn payload_outcome(r: Result<Vec<FileEntry>, PayloadFault>) -> Result<
    Seq<Entry>,
    Unread,
> {
    match r {
        Ok(files) => Ok(entries_of(files@)),
        Err(u) => Err(u@),
    }
}

/// What reading files says, in mathematical views.
pub open spec fn files_outcome(r: Result<Vec<FileEntry>, Error>) -> Result<
    Seq<Entry>,
    ErrorView,
> {
    match r {
        Ok(files) => Ok(entries_of(files@)),
        Err(e) => Err(e@),
    }
}

/// Reads the file whose entry starts at `at`.
fn parse_entry(data: &[u8], at: usize, multi: bool) -> (out: Result<(FileEntry, usize), Error>)
    requires
        at <= data@.len(),
    ensures
        match out {
            Ok((file, next)) => at <= next <= data@.len() && parsed_entry(
                data@.skip(at as int),
                multi,
            ) == Ok::<(Entry, nat), ErrorView>((file@, (next - at) as nat)),
            Err(e) => parsed_entry(data@.skip(at as int), multi) == Err::<
                (Entry, nat),
                ErrorView,
            >(e@),
        },
{
    reveal(parsed_entry);
    let ghost rest = data@.skip(at as int);
    let left: usize = data.len() - at;
    if multi && left < 2 {
        return Err(Fault::MultiTruncatedName);
    }
    if !multi && left < 42 {
        return Err(Fault::SingleTruncated);
    }
    let name_len: usize = read_be(data, at, 2) as usize;
    proof {
        assert(rest.subrange(0, 2) =~= data@.subrange(at as int, at + 2));
        lemma_be_value_bound(rest.subrange(0, 2));
        lemma_byte_ranges();
    }
    if left < 2 + name_len + 40 {
        return Err(
            if multi {
                Fault::MultiTruncatedMeta
            } else {
                Fault::SingleTruncatedName
            },
        );
    }
    let meta: usize = at + 2 + name_len;
    let size_u64: u64 = read_be(data, meta, 8);
    assert(rest.subrange(2 + name_len, 2 + name_len + 8) =~= data@.subrange(
        meta as int,
        meta + 8,
    ));
    if size_u64 > usize::MAX as u64 {
        return Err(Fault::FileTooLarge);
    }
    let size: usize = size_u64 as usize;
    let start: usize = meta + 40;
    if data.len() - start < size {
        return Err(
            if multi {
                Fault::MultiTruncatedData
            } else {
                Fault::SingleTruncatedData
            },
        );
    }
    let content: Vec<u8> = copy_range(data, start, start + size);
    let expected: Vec<u8> = copy_range(data, meta + 8, meta + 40);
    let actual: [u8; 32] = sha256(content.as_slice());
    proof {
        assert(rest.subrange(2 + name_len + 40, 2 + name_len + 40 + size) =~= content@);
        assert(rest.subrange(2 + name_len + 8, 2 + name_len + 40) =~= expected@);
        assert(rest.subrange(2, 2 + name_len) =~= data@.subrange(at + 2, meta as int));
    }
    if !same(actual.as_slice(), expected.as_slice()) {
        return Err(
            if multi {
                Fault::MultiShaMismatch
            } else {
                Fault::SingleShaMismatch
            },
        );
    }
    let text: String = read_text(vstd::slice::slice_subrange(data, at + 2, meta));
    let name: String = sanitize_filename(text.as_str());
    Ok((FileEntry { name, data: content }, start + size))
}

/// Joining files one after the other.
proof fn lemma_joined_push(front: Seq<Entry>, e: Entry, others: Result<Seq<Entry>, Unread>)
    ensures
        joined(front, joined(seq![e], others)) == joined(front.push(e), others),
        joined(Seq::empty(), others) == others,
{
    match others {
        Ok(es) => {
            assert(front + (seq![e] + es) =~= front.push(e) + es);
            assert(Seq::<Entry>::empty() + es =~= es);
        },
        Err(u) => {
            assert(front + (seq![e] + u.files) =~= front.push(e) + u.files);
            assert(Seq::<Entry>::empty() + u.files =~= u.files);
        },
    }
}

/// Adding a file to the views of files.
proof fn lemma_entries_of_push(files: Seq<FileEntry>, f: FileEntry)
    ensures
        entries_of(files.push(f)) == entries_of(files).push(f@),
{
    assert(entries_of(files.push(f)) =~= entries_of(files).push(f@));
}

/// Reads the `count` files whose entries start at `at`.
fn parse_entries(data: &[u8], at: usize, count: u32) -> (out: Result<
    Vec<FileEntry>,
    PayloadFault,
>)
    requires
        at <= data@.len(),
    ensures
        payload_outcome(out) == parsed_entries(data@.skip(at as int), count as nat),
{
    let mut files: Vec<FileEntry> = Vec::new();
    let mut idx: usize = at;
    let mut k: u32 = 0;
    let ghost all = parsed_entries(data@.skip(at as int), count as nat);
    proof {
        assert(entries_of(files@) =~= Seq::<Entry>::empty());
        lemma_joined_push(Seq::empty(), arbitrary(), all);
    }
    while k < count
        invariant
            k <= count,
            idx <= data@.len(),
            all == parsed_entries(data@.skip(at as int), count as nat),
            all == joined(
                entries_of(files@),
                parsed_entries(data@.skip(idx as int), (count - k) as nat),
            ),
        decreases count - k,
    {
        let ghost before = entries_of(files@);
        let (file, next) = match parse_entry(data, idx, true) {
            Ok(read) => read,
            Err(error) => {
                assert(before + Seq::<Entry>::empty() =~= before);
                return Err(PayloadFault { files, error });
            },
        };
        proof {
            let used = next - idx;
            assert(data@.skip(idx as int).skip(used) =~= data@.skip(next as int));
            lemma_entries_of_push(files@, file);
            lemma_joined_push(
                before,
                file@,
                parsed_entries(data@.skip(next as int), (count - k - 1) as nat),
            );
        }
        files.push(file);
        idx = next;
        k = k + 1;
    }
    assert(entries_of(files@) + Seq::<Entry>::empty() =~= entries_of(files@));
    Ok(files)
}

/// Reads the files of a payload. Of a list in which a file cannot be read it gives
/// back the files before that one with the fault.
pub fn parse_payload(plaintext: &[u8]) -> (out: Result<Vec<FileEntry>, PayloadFault>)
    ensures
        payload_outcome(out) == parsed_payload(plaintext@),
{
    if plaintext.len() == 0 {
        return Err(PayloadFault::first(Fault::EmptyPayload));
    }
    if plaintext[0] == 0x53 {
        return match parse_entry(plaintext, 1, false) {
            Ok((file, _next)) => Ok(one_file(file)),
            Err(error) => Err(PayloadFault::first(error)),
        };
    }
    if plaintext[0] == 0x4d {
        if plaintext.len() < 5 {
            return Err(PayloadFault::first(Fault::MultiTruncated));
        }
        proof {
            lemma_be_value_bound(plaintext@.subrange(1, 5));
            lemma_byte_ranges();
        }
        let count: u32 = read_be(plaintext, 1, 4) as u32;
        if count > MAX_FILES {
            return Err(PayloadFault::first(Fault::TooManyFiles { count }));
        }
        return parse_entries(plaintext, 5, count);
    }
    Err(PayloadFault::first(Fault::UnknownPayload))
}

/// A list of one file.
fn one_file(file: FileEntry) -> (files: Vec<FileEntry>)
    ensures
        entries_of(files@) == seq![file@],
{
    let mut files: Vec<FileEntry> = Vec::new();
    proof {
        lemma_entries_of_push(files@, file);
        assert(entries_of(files@).push(file@) =~= seq![file@]);
    }
    files.push(file);
    files
}

/// A file as it is restored: under its sanitized name.
pub open spec fn restored(e: Entry) -> Entry {
    Entry { name: sanitized(e.name), data: e.data }
}

/// Files as they are restored.
pub open spec fn all_restored(es: Seq<Entry>) -> Seq<Entry> {
    es.map_values(|e: Entry| restored(e))
}

/// Files whose names are plain components are restored as they are.
pub proof fn law_plain_names_stay(es: Seq<Entry>)
    requires
        forall|i: int| 0 <= i < es.len() ==> plain_component((#[trigger] es[i]).name),
    ensures
        all_restored(es) == es,
{
    assert forall|i: int| 0 <= i < es.len() implies all_restored(es)[i] == es[i] by {
        law_plain_name_stays(es[i].name);
    }
    assert(all_restored(es) =~= es);
}

/// Reading a written entry gives back the file, whatever follows it.
proof fn lemma_entry_round_trip(e: Entry, tail: Seq<u8>, multi: bool)
    requires
        name_fits(e),
        e.data.len() <= usize::MAX,
    ensures
        parsed_entry(entry_bytes(e) + tail, multi) == Ok::<(Entry, nat), ErrorView>(
            (restored(e), entry_len(e)),
        ),
{
    reveal(parsed_entry);
    let rest = entry_bytes(e) + tail;
    let n = name_bytes(e).len() as int;
    lemma_byte_ranges();
    lemma_be_round_trip(n as nat, 2);
    lemma_be_round_trip(e.data.len(), 8);
    lemma_text_round_trip(e.name);
    assert(rest.subrange(0, 2) =~= be_bytes(n as nat, 2));
    assert(rest.subrange(2, 2 + n) =~= name_bytes(e));
    assert(rest.subrange(2 + n, 2 + n + 8) =~= be_bytes(e.data.len(), 8));
    assert(rest.subrange(2 + n + 8, 2 + n + 40) =~= sha256_of(e.data)@);
    assert(rest.subrange(2 + n + 40, 2 + n + 40 + e.data.len()) =~= e.data);
}

/// Reading written entries gives back the files, whatever follows them.
proof fn lemma_entries_round_trip(es: Seq<Entry>, tail: Seq<u8>)
    requires
        forall|i: int| 0 <= i < es.len() ==> name_fits(#[trigger] es[i]),
        forall|i: int| 0 <= i < es.len() ==> (#[trigger] es[i]).data.len() <= usize::MAX,
    ensures
        parsed_entries(entries_bytes(es) + tail, es.len()) == Ok::<Seq<Entry>, Unread>(
            all_restored(es),
        ),
    decreases es.len(),
{
    if es.len() == 0 {
        assert(all_restored(es) =~= Seq::<Entry>::empty());
    } else {
        let e = es[0];
        let others = es.drop_first();
        assert forall|i: int| 0 <= i < others.len() implies name_fits(#[trigger] others[i])
            && others[i].data.len() <= usize::MAX by {
            assert(others[i] == es[i + 1]);
        }
        let after = entries_bytes(others) + tail;
        lemma_entry_len(e);
        lemma_entry_round_trip(e, after, true);
        lemma_entries_round_trip(others, tail);
        assert(entries_bytes(es) + tail =~= entry_bytes(e) + after);
        assert((entry_bytes(e) + after).skip(entry_len(e) as int) =~= after);
        assert(seq![restored(e)] + all_restored(others) =~= all_restored(es));
    }
}

/// Reading the payload of one file gives back the file under its sanitized name,
/// whatever follows the payload. A name of more than 65535 bytes does not fit its
/// length field.
pub proof fn law_single_round_trip(e: Entry, tail: Seq<u8>)
    requires
        name_fits(e),
        e.data.len() <= usize::MAX,
    ensures
        parsed_payload(single_payload(e) + tail) == Ok::<Seq<Entry>, Unread>(
            seq![restored(e)],
        ),
{
    lemma_entry_round_trip(e, tail, false);
    assert((single_payload(e) + tail).skip(1) =~= entry_bytes(e) + tail);
}

/// Reading the payload of a list of files gives back the files in order, each
/// under its sanitized name, whatever follows the payload. Lists of more than
/// 100000 files are refused.
pub proof fn law_multi_round_trip(es: Seq<Entry>, tail: Seq<u8>)
    requires
        es.len() <= MAX_FILES,
        forall|i: int| 0 <= i < es.len() ==> name_fits(#[trigger] es[i]),
        forall|i: int| 0 <= i < es.len() ==> (#[trigger] es[i]).data.len() <= usize::MAX,
    ensures
        parsed_payload(multi_payload(es) + tail) == Ok::<Seq<Entry>, Unread>(
            all_restored(es),
        ),
{
    let data = multi_payload(es) + tail;
    lemma_byte_ranges();
    lemma_be_round_trip(es.len(), 4);
    lemma_entries_round_trip(es, tail);
    assert(data.subrange(1, 5) =~= be_bytes(es.len(), 4));
    assert(data.skip(5) =~= entries_bytes(es) + tail);
}

/// The file at the start of what a source has left and the number of bytes of its
/// entry, or why there is none. `broken` tells how reading past the end fails.
#[verifier::opaque]
pub open spec fn streamed_entry(rest: Seq<u8>, broken: bool, multi: bool) -> Result<
    (Entry, nat),
    ErrorView,
> {
    let name_len = be_value(rest.subrange(0, 2));
    let meta = 2 + name_len as int;
    let size = be_value(rest.subrange(meta, meta + 8));
    let start = meta + 40;
    let data = rest.subrange(start, start + size);
    if rest.len() < 2 {
        Err(read_failure(broken))
    } else if name_len == 0 || name_len > MAX_NAME_LEN {
        Err(Fault::InvalidName { len: name_len as u16 })
    } else if rest.len() < meta + 8 {
        Err(read_failure(broken))
    } else if size > usize::MAX {
        Err(Fault::FileTooLarge)
    } else if rest.len() < start + size {
        Err(read_failure(broken))
    } else if sha256_of(data)@ != rest.subrange(meta + 8, meta + 40) {
        Err(
            if multi {
                Fault::MultiShaMismatch
            } else {
                Fault::SingleShaMismatch
            },
        )
    } else {
        Ok((Entry { name: sanitized(text_in(rest.subrange(2, meta))), data }, (start + size) as nat))
    }
}

/// The next `count` files of a source, or those before the first that is not there,
/// and why it is not.
pub open spec fn streamed_entries(rest: Seq<u8>, broken: bool, count: nat) -> Result<
    Seq<Entry>,
    Unread,
>
    decreases count,
{
    if count == 0 {
        Ok(Seq::empty())
    } else {
        match streamed_entry(rest, broken, true) {
            Err(e) => Err(unread(e)),
            Ok((entry, used)) => joined(
                seq![entry],
                streamed_entries(rest.skip(used as int), broken, (count - 1) as nat),
            ),
        }
    }
}

/// The files of a payload that is read from a source, or those before the first
/// that cannot be read, and why it cannot.
pub open spec fn streamed_payload(rest: Seq<u8>, broken: bool) -> Result<Seq<Entry>, Unread> {
    if rest.len() < 1 {
        Err(unread(read_failure(broken)))
    } else if rest[0] == 0x53 {
        match streamed_entry(rest.skip(1), broken, false) {
            Ok((entry, _)) => Ok(seq![entry]),
            Err(e) => Err(unread(e)),
        }
    } else if rest[0] == 0x4d {
        let count = be_value(rest.subrange(1, 5));
        if rest.len() < 5 {
            Err(unread(read_failure(broken)))
        } else if count > MAX_FILES {
            Err(unread(Fault::TooManyFiles { count: count as u32 }))
        } else {
            streamed_entries(rest.skip(5), broken, count)
        }
    } else {
        Err(unread(Fault::UnknownPayload))
    }
}

/// Reads a big-endian number of `width` bytes from a source.
fn read_number<R: ByteSource>(reader: &mut R, width: usize) -> (out: Result<u64, Error>)
    requires
        old(reader).ready(),
        width <= 8,
    ensures
        final(reader).ready(),
        match out {
            Ok(value) => width <= old(reader).rest().len() && value as nat == be_value(
                old(reader).rest().take(width as int),
            ) && final(reader).rest() == old(reader).rest().skip(width as int)
                && final(reader).broken() == old(reader).broken(),
            Err(e) => width > old(reader).rest().len() && e@ == read_failure(
                old(reader).broken(),
            ),
        },
{
    let bytes: Vec<u8> = reader.read_exact(width)?;
    assert(bytes@.subrange(0, width as int) =~= bytes@);
    Ok(read_be(bytes.as_slice(), 0, width))
}

/// Reads the next file from a source.
fn parse_entry_stream<R: ByteSource>(reader: &mut R, multi: bool) -> (out: Result<FileEntry, Error>)
    requires
        old(reader).ready(),
    ensures
        final(reader).ready(),
        ({
            let parsed = streamed_entry(old(reader).rest(), old(reader).broken(), multi);
            match out {
                Ok(file) => parsed is Ok && parsed->Ok_0.0 == file@ && parsed->Ok_0.1 <= old(
                    reader,
                ).rest().len() && final(reader).rest() == old(reader).rest().skip(
                    parsed->Ok_0.1 as int,
                ) && final(reader).broken() == old(reader).broken(),
                Err(e) => parsed == Err::<(Entry, nat), ErrorView>(e@),
            }
        }),
{
    reveal(streamed_entry);
    let ghost rest = reader.rest();
    let name_len: usize = read_number(reader, 2)? as usize;
    proof {
        assert(rest.take(2) =~= rest.subrange(0, 2));
        lemma_be_value_bound(rest.subrange(0, 2));
        lemma_byte_ranges();
    }
    if name_len == 0 || name_len > MAX_NAME_LEN {
        return Err(Fault::InvalidName { len: name_len as u16 });
    }
    let ghost meta = 2 + name_len as int;
    let stored: Vec<u8> = reader.read_exact(name_len)?;
    assert(stored@ =~= rest.subrange(2, meta));
    assert(reader.rest() =~= rest.skip(meta));
    let size_u64: u64 = read_number(reader, 8)?;
    assert(rest.skip(meta).take(8) =~= rest.subrange(meta, meta + 8));
    assert(reader.rest() =~= rest.skip(meta + 8));
    if size_u64 > usize::MAX as u64 {
        return Err(Fault::FileTooLarge);
    }
    let size: usize = size_u64 as usize;
    let expected: Vec<u8> = reader.read_exact(32)?;
    assert(expected@ =~= rest.subrange(meta + 8, meta + 40));
    assert(reader.rest() =~= rest.skip(meta + 40));
    let data: Vec<u8> = reader.read_exact(size)?;
    assert(data@ =~= rest.subrange(meta + 40, meta + 40 + size));
    assert(reader.rest() =~= rest.skip(meta + 40 + size));
    let actual: [u8; 32] = sha256(data.as_slice());
    if !same(actual.as_slice(), expected.as_slice()) {
        return Err(
            if multi {
                Fault::MultiShaMismatch
            } else {
                Fault::SingleShaMismatch
            },
        );
    }
    let text: String = read_text(stored.as_slice());
    Ok(FileEntry { name: sanitize_filename(text.as_str()), data })
}

/// Reads the next `count` files from a source.
fn parse_entries_stream<R: ByteSource>(reader: &mut R, count: u32) -> (out: Result<
    Vec<FileEntry>,
    PayloadFault,
>)
    requires
        old(reader).ready(),
    ensures
        final(reader).ready(),
        payload_outcome(out) == streamed_entries(
            old(reader).rest(),
            old(reader).broken(),
            count as nat,
        ),
{
    let mut files: Vec<FileEntry> = Vec::new();
    let mut k: u32 = 0;
    let ghost broken = reader.broken();
    let ghost all = streamed_entries(reader.rest(), broken, count as nat);
    proof {
        assert(entries_of(files@) =~= Seq::<Entry>::empty());
        lemma_joined_push(Seq::empty(), arbitrary(), all);
    }
    while k < count
        invariant
            k <= count,
            reader.ready(),
            reader.broken() == broken,
            broken == old(reader).broken(),
            all == streamed_entries(old(reader).rest(), broken, count as nat),
            all == joined(
                entries_of(files@),
                streamed_entries(reader.rest(), broken, (count - k) as nat),
            ),
        decreases count - k,
    {
        let ghost before = entries_of(files@);
        let file: FileEntry = match parse_entry_stream(reader, true) {
            Ok(file) => file,
            Err(error) => {
                assert(before + Seq::<Entry>::empty() =~= before);
                return Err(PayloadFault { files, error });
            },
        };
        proof {
            lemma_entries_of_push(files@, file);
            lemma_joined_push(
                before,
                file@,
                streamed_entries(reader.rest(), broken, (count - k - 1) as nat),
            );
        }
        files.push(file);
        k = k + 1;
    }
    assert(entries_of(files@) + Seq::<Entry>::empty() =~= entries_of(files@));
    Ok(files)
}

/// Reads the files of a payload from a source. Of a list in which a file cannot be
/// read it gives back the files before that one with the fault.
pub fn parse_payload_streaming<R: ByteSource>(reader: &mut R) -> (out: Result<
    Vec<FileEntry>,
    PayloadFault,
>)
    requires
        old(reader).ready(),
    ensures
        final(reader).ready(),
        payload_outcome(out) == streamed_payload(old(reader).rest(), old(reader).broken()),
{
    let ghost rest = reader.rest();
    let tag: Vec<u8> = match reader.read_exact(1) {
        Ok(tag) => tag,
        Err(error) => {
            return Err(PayloadFault::first(error));
        },
    };
    if tag[0] == 0x53 {
        return match parse_entry_stream(reader, false) {
            Ok(file) => Ok(one_file(file)),
            Err(error) => Err(PayloadFault::first(error)),
        };
    }
    if tag[0] == 0x4d {
        let count: u32 = match read_number(reader, 4) {
            Ok(count) => count as u32,
            Err(error) => {
                return Err(PayloadFault::first(error));
            },
        };
        proof {
            assert(rest.skip(1).take(4) =~= rest.subrange(1, 5));
            assert(reader.rest() =~= rest.skip(5));
            lemma_be_value_bound(rest.subrange(1, 5));
            lemma_byte_ranges();
        }
        if count > MAX_FILES {
            return Err(PayloadFault::first(Fault::TooManyFiles { count }));
        }
        return parse_entries_stream(reader, count);
    }
    Err(PayloadFault::first(Fault::UnknownPayload))
}

/// Whether a source gives back the name of a file.
pub open spec fn name_restorable(e: Entry) -> bool {
    1 <= name_bytes(e).len() <= MAX_NAME_LEN
}

/// Reading a written entry from a source gives back the file.
proof fn lemma_entry_streamed(e: Entry, tail: Seq<u8>, broken: bool, multi: bool)
    requires
        name_restorable(e),
        e.data.len() <= usize::MAX,
    ensures
        streamed_entry(entry_bytes(e) + tail, broken, multi) == Ok::<(Entry, nat), ErrorView>(
            (restored(e), entry_len(e)),
        ),
{
    reveal(parsed_entry);
    reveal(streamed_entry);
    lemma_entry_round_trip(e, tail, multi);
    let rest = entry_bytes(e) + tail;
    let n = name_bytes(e).len() as int;
    lemma_byte_ranges();
    lemma_be_round_trip(n as nat, 2);
    lemma_be_round_trip(e.data.len(), 8);
    assert(rest.subrange(0, 2) =~= be_bytes(n as nat, 2));
    assert(rest.subrange(2 + n, 2 + n + 8) =~= be_bytes(e.data.len(), 8));
}

/// Reading written entries from a source gives back the files.
proof fn lemma_entries_streamed(es: Seq<Entry>, tail: Seq<u8>, broken: bool)
    requires
        forall|i: int| 0 <= i < es.len() ==> name_restorable(#[trigger] es[i]),
        forall|i: int| 0 <= i < es.len() ==> (#[trigger] es[i]).data.len() <= usize::MAX,
    ensures
        streamed_entries(entries_bytes(es) + tail, broken, es.len()) == Ok::<
            Seq<Entry>,
            Unread,
        >(all_restored(es)),
    decreases es.len(),
{
    if es.len() == 0 {
        assert(all_restored(es) =~= Seq::<Entry>::empty());
    } else {
        let e = es[0];
        let others = es.drop_first();
        assert forall|i: int| 0 <= i < others.len() implies name_restorable(#[trigger] others[i])
            && others[i].data.len() <= usize::MAX by {
            assert(others[i] == es[i + 1]);
        }
        let after = entries_bytes(others) + tail;
        lemma_entry_len(e);
        lemma_entry_streamed(e, after, broken, true);
        lemma_entries_streamed(others, tail, broken);
        assert(entries_bytes(es) + tail =~= entry_bytes(e) + after);
        assert((entry_bytes(e) + after).skip(entry_len(e) as int) =~= after);
        assert(seq![restored(e)] + all_restored(others) =~= all_restored(es));
    }
}

/// Reading the payload of one file from a source gives back the file under its
/// sanitized name, whatever follows the payload. Empty names and names of more
/// than 4096 bytes are refused.
pub proof fn law_single_streamed(e: Entry, tail: Seq<u8>, broken: bool)
    requires
        name_restorable(e),
        e.data.len() <= usize::MAX,
    ensures
        streamed_payload(single_payload(e) + tail, broken) == Ok::<Seq<Entry>, Unread>(
            seq![restored(e)],
        ),
{
    lemma_entry_streamed(e, tail, broken, false);
    assert((single_payload(e) + tail).skip(1) =~= entry_bytes(e) + tail);
}

/// Reading the payload of a list of files from a source gives back the files in
/// order, each under its sanitized name, whatever follows the payload.
pub proof fn law_multi_streamed(es: Seq<Entry>, tail: Seq<u8>, broken: bool)
    requires
        es.len() <= MAX_FILES,
        forall|i: int| 0 <= i < es.len() ==> name_restorable(#[trigger] es[i]),
        forall|i: int| 0 <= i < es.len() ==> (#[trigger] es[i]).data.len() <= usize::MAX,
    ensures
        streamed_payload(multi_payload(es) + tail, broken) == Ok::<Seq<Entry>, Unread>(
            all_restored(es),
        ),
{
    let data = multi_payload(es) + tail;
    lemma_byte_ranges();
    lemma_be_round_trip(es.len(), 4);
    lemma_entries_streamed(es, tail, broken);
    assert(data.subrange(1, 5) =~= be_bytes(es.len(), 4));
    assert(data.skip(5) =~= entries_bytes(es) + tail);
}

/// What is read from a source is what is read from memory.
proof fn lemma_entry_streamed_is_parsed(rest: Seq<u8>, broken: bool, multi: bool)
    requires
        streamed_entry(rest, broken, multi) is Ok,
    ensures
        parsed_entry(rest, multi) == streamed_entry(rest, broken, multi),
{
    reveal(parsed_entry);
    reveal(streamed_entry);
}

/// What is read from a source is what is read from memory.
proof fn lemma_entries_streamed_are_parsed(rest: Seq<u8>, broken: bool, count: nat)
    requires
        streamed_entries(rest, broken, count) is Ok,
    ensures
        parsed_entries(rest, count) == streamed_entries(rest, broken, count),
    decreases count,
{
    if count > 0 {
        lemma_entry_streamed_is_parsed(rest, broken, true);
        let used = streamed_entry(rest, broken, true)->Ok_0.1;
        lemma_entries_streamed_are_parsed(rest.skip(used as int), broken, (count - 1) as nat);
    }
}

/// A payload that can be read from a source can be read from memory, and gives
/// the same files.
pub proof fn law_streamed_is_parsed(data: Seq<u8>, broken: bool)
    requires
        streamed_payload(data, broken) is Ok,
    ensures
        parsed_payload(data) == streamed_payload(data, broken),
{
    if data[0] == 0x53 {
        lemma_entry_streamed_is_parsed(data.skip(1), broken, false);
    } else {
        lemma_entries_streamed_are_parsed(
            data.skip(5),
            broken,
            be_value(data.subrange(1, 5)),
        );
    }
}

/// Whether a source would take the name of the entry at the start of `rest`.
pub open spec fn stored_name_fits(rest: Seq<u8>) -> bool {
    1 <= be_value(rest.subrange(0, 2)) <= MAX_NAME_LEN
}

/// Whether a source would take the names of the `count` entries at the start of
/// `rest`.
pub open spec fn stored_names_fit(rest: Seq<u8>, count: nat) -> bool
    decreases count,
{
    count > 0 ==> {
        &&& stored_name_fits(rest)
        &&& match parsed_entry(rest, true) {
            Ok((_, used)) => stored_names_fit(rest.skip(used as int), (count - 1) as nat),
            Err(_) => true,
        }
    }
}

/// Whether a source would take the names of a payload: none is empty or longer than
/// 4096 bytes.
pub open spec fn payload_names_fit(data: Seq<u8>) -> bool {
    if data[0] == 0x53 {
        stored_name_fits(data.skip(1))
    } else {
        stored_names_fit(data.skip(5), be_value(data.subrange(1, 5)))
    }
}

/// What is read from memory is what is read from a source.
proof fn lemma_entry_parsed_is_streamed(rest: Seq<u8>, broken: bool, multi: bool)
    requires
        parsed_entry(rest, multi) is Ok,
        stored_name_fits(rest),
    ensures
        streamed_entry(rest, broken, multi) == parsed_entry(rest, multi),
{
    reveal(parsed_entry);
    reveal(streamed_entry);
}

/// What is read from memory is what is read from a source.
proof fn lemma_entries_parsed_are_streamed(rest: Seq<u8>, broken: bool, count: nat)
    requires
        parsed_entries(rest, count) is Ok,
        stored_names_fit(rest, count),
    ensures
        streamed_entries(rest, broken, count) == parsed_entries(rest, count),
    decreases count,
{
    if count > 0 {
        lemma_entry_parsed_is_streamed(rest, broken, true);
        let used = parsed_entry(rest, true)->Ok_0.1;
        lemma_entries_parsed_are_streamed(rest.skip(used as int), broken, (count - 1) as nat);
    }
}

/// A payload that can be read from memory can be read from a source, and gives the
/// same files, as long as its names are neither empty nor longer than 4096 bytes.
pub proof fn law_parsed_is_streamed(data: Seq<u8>, broken: bool)
    requires
        parsed_payload(data) is Ok,
        payload_names_fit(data),
    ensures
        streamed_payload(data, broken) == parsed_payload(data),
{
    if data[0] == 0x53 {
        lemma_entry_parsed_is_streamed(data.skip(1), broken, false);
    } else {
        lemma_entries_parsed_are_streamed(
            data.skip(5),
            broken,
            be_value(data.subrange(1, 5)),
        );
    }
}

/// A file that is read from a payload has the hash that its entry states.
pub proof fn law_entry_is_checked(rest: Seq<u8>, multi: bool)
    requires
        parsed_entry(rest, multi) is Ok,
    ensures
        ({
            let meta = 2 + be_value(rest.subrange(0, 2)) as int;
            sha256_of(parsed_entry(rest, multi)->Ok_0.0.data)@ == rest.subrange(meta + 8, meta + 40)
        }),
{
    reveal(parsed_entry);
}

/// Where the fields of an entry lie in the payload of one file: `S`, the length of the
/// name in two bytes, the name, the length of the content in eight, its hash in 32, and
/// the content to the end.
pub proof fn law_payload_of_one_file(e: Entry)
    requires
        encode_utf8(e.name).len() <= 65_535,
        e.data.len() <= u64::MAX,
    ensures
        ({
            let bytes = single_payload(e);
            let n = encode_utf8(e.name).len() as int;
            &&& bytes.len() == 43 + n + e.data.len()
            &&& bytes[0] == 0x53
            &&& be_value(bytes.subrange(1, 3)) == n
            &&& bytes.subrange(3, 3 + n) == encode_utf8(e.name)
            &&& be_value(bytes.subrange(3 + n, 11 + n)) == e.data.len()
            &&& bytes.subrange(11 + n, 43 + n) == sha256_of(e.data)@
            &&& bytes.skip(43 + n) == e.data
        }),
{
    let bytes = single_payload(e);
    let n = encode_utf8(e.name).len() as int;
    lemma_entry_len(e);
    lemma_byte_ranges();
    lemma_be_round_trip(n as nat, 2);
    lemma_be_round_trip(e.data.len(), 8);
    assert(bytes.subrange(1, 3) =~= be_bytes(n as nat, 2));
    assert(bytes.subrange(3, 3 + n) =~= encode_utf8(e.name));
    assert(bytes.subrange(3 + n, 11 + n) =~= be_bytes(e.data.len(), 8));
    assert(bytes.subrange(11 + n, 43 + n) =~= sha256_of(e.data)@);
    assert(bytes.skip(43 + n) =~= e.data);
}

/// The payload of a list is `M`, the number of files in four bytes, and the entries that
/// the files have in payloads of their own, in their order.
pub proof fn law_payload_of_a_list(es: Seq<Entry>, e: Entry)
    requires
        es.len() < 0xffff_ffff,
    ensures
        multi_payload(Seq::empty()).len() == 5,
        multi_payload(es)[0] == 0x4d,
        be_value(multi_payload(es).subrange(1, 5)) == es.len(),
        multi_payload(es.push(e)).skip(5) == multi_payload(es).skip(5) + single_payload(e).skip(1),
{
    lemma_byte_ranges();
    lemma_be_bytes_len(0, 4);
    lemma_be_round_trip(es.len(), 4);
    lemma_be_bytes_len(es.len() + 1, 4);
    lemma_entries_push(es, e);
    assert(multi_payload(es).subrange(1, 5) =~= be_bytes(es.len(), 4));
    assert(multi_payload(es).skip(5) =~= entries_bytes(es));
    assert(multi_payload(es.push(e)).skip(5) =~= entries_bytes(es.push(e)));
    assert(single_payload(e).skip(1) =~= entry_bytes(e));
}

/// The file that is read is the one that stands in the bytes: all of them are there, the
/// content follows the fields, has the length and the hash that they state, and the name
/// is the stored one, sanitized.
pub proof fn law_file_is_what_stands_there(rest: Seq<u8>, multi: bool)
    requires
        parsed_entry(rest, multi) is Ok,
    ensures
        ({
            let (file, used) = parsed_entry(rest, multi)->Ok_0;
            let n = be_value(rest.subrange(0, 2)) as int;
            &&& used <= rest.len()
            &&& used == 42 + n + file.data.len()
            &&& file.data == rest.subrange(42 + n, used as int)
            &&& be_value(rest.subrange(2 + n, 10 + n)) == file.data.len()
            &&& sha256_of(file.data)@ == rest.subrange(10 + n, 42 + n)
            &&& file.name == sanitized(text_in(rest.subrange(2, 2 + n)))
        }),
{
    reveal(parsed_entry);
    lemma_be_value_bound(rest.subrange(0, 2));
    lemma_byte_ranges();
}

/// Text is read from its UTF-8 bytes as it is.
pub proof fn law_names_are_utf8(text: Seq<char>)
    ensures
        text_in(encode_utf8(text)) == text,
{
    lemma_text_round_trip(text);
}

/// A source and memory tell the same of the same bytes, but for how they end and for
/// names that are empty or longer than 4096 bytes, which a source refuses.
pub proof fn law_source_refuses_names(e: Entry, tail: Seq<u8>, broken: bool, multi: bool)
    requires
        encode_utf8(e.name).len() <= 65_535,
        encode_utf8(e.name).len() == 0 || encode_utf8(e.name).len() > 4096,
    ensures
        streamed_entry(single_payload(e).skip(1) + tail, broken, multi) == Err::<
            (Entry, nat),
            ErrorView,
        >(Fault::InvalidName { len: encode_utf8(e.name).len() as u16 }),
{
    reveal(streamed_entry);
    let n = name_bytes(e).len();
    lemma_byte_ranges();
    lemma_be_round_trip(n, 2);
    let rest = single_payload(e).skip(1) + tail;
    assert(rest =~= entry_bytes(e) + tail);
    assert(rest.subrange(0, 2) =~= be_bytes(n, 2));
}

/// Files with names of 1 to 4096 bytes, up to 100000 of them, come back from a source in
/// their order, each under its sanitized name, whatever follows them.
pub proof fn law_list_comes_back(es: Seq<Entry>, tail: Seq<u8>, broken: bool)
    requires
        es.len() <= 100_000,
        forall|i: int|
            0 <= i < es.len() ==> 1 <= encode_utf8((#[trigger] es[i]).name).len() <= 4096,
        forall|i: int| 0 <= i < es.len() ==> (#[trigger] es[i]).data.len() <= usize::MAX,
    ensures
        streamed_payload(multi_payload(es) + tail, broken) matches Ok(files) && files.len()
            == es.len() && forall|i: int|
            #![trigger files[i]]
            0 <= i < es.len() ==> files[i].data == es[i].data && files[i].name == sanitized(
                es[i].name,
            ),
        parsed_payload(multi_payload(es) + tail) == streamed_payload(multi_payload(es) + tail, broken),
{
    assert forall|i: int| 0 <= i < es.len() implies name_restorable(#[trigger] es[i]) && name_fits(
        es[i],
    ) by {
        assert(1 <= encode_utf8(es[i].name).len() <= 4096);
    }
    law_multi_streamed(es, tail, broken);
    law_multi_round_trip(es, tail);
}

/// A file with a name of 1 to 4096 bytes comes back from a source under its sanitized
/// name, whatever follows it.
pub proof fn law_file_comes_back(e: Entry, tail: Seq<u8>, broken: bool)
    requires
        1 <= encode_utf8(e.name).len() <= 4096,
        e.data.len() <= usize::MAX,
    ensures
        streamed_payload(single_payload(e) + tail, broken) == Ok::<Seq<Entry>, Unread>(
            seq![Entry { name: sanitized(e.name), data: e.data }],
        ),
        parsed_payload(single_payload(e) + tail) == streamed_payload(
            single_payload(e) + tail,
            broken,
        ),
{
    law_single_streamed(e, tail, broken);
    law_single_round_trip(e, tail);
}

/// A payload that states more than 100000 files is refused whole, and so is one that is
/// neither a file nor a list.
pub proof fn law_payloads_that_are_refused(data: Seq<u8>, broken: bool)
    requires
        data.len() >= 5,
    ensures
        data[0] == 0x4d && be_value(data.subrange(1, 5)) > 100_000 ==> streamed_payload(data, broken)
            == Err::<Seq<Entry>, Unread>(
            Unread {
                files: Seq::empty(),
                error: Fault::TooManyFiles { count: be_value(data.subrange(1, 5)) as u32 },
            },
        ) && parsed_payload(data) == streamed_payload(data, broken),
        data[0] != 0x4d && data[0] != 0x53 ==> streamed_payload(data, broken) == Err::<
            Seq<Entry>,
            Unread,
        >(Unread { files: Seq::empty(), error: Fault::UnknownPayload }) && parsed_payload(data)
            == streamed_payload(data, broken),
        parsed_payload(Seq::empty()) == Err::<Seq<Entry>, Unread>(
            Unread { files: Seq::empty(), error: Fault::EmptyPayload },
        ),
        streamed_payload(Seq::empty(), false) == Err::<Seq<Entry>, Unread>(
            Unread { files: Seq::empty(), error: Fault::UnexpectedEof },
        ),
        streamed_payload(Seq::empty(), true) == Err::<Seq<Entry>, Unread>(
            Unread { files: Seq::empty(), error: Fault::NotAuthentic },
        ),
        streamed_payload(data, broken) matches Ok(files) ==> (data[0] == 0x53 && files.len() == 1)
            || (data[0] == 0x4d && files.len() == be_value(data.subrange(1, 5)) <= 100_000),
{
    if streamed_payload(data, broken) is Ok && data[0] == 0x4d {
        lemma_streamed_count(data.skip(5), broken, be_value(data.subrange(1, 5)));
    }
}

/// As many files are read as were asked for.
proof fn lemma_streamed_count(rest: Seq<u8>, broken: bool, count: nat)
    requires
        streamed_entries(rest, broken, count) is Ok,
    ensures
        streamed_entries(rest, broken, count)->Ok_0.len() == count,
    decreases count,
{
    if count > 0 {
        let used = streamed_entry(rest, broken, true)->Ok_0.1;
        lemma_streamed_count(rest.skip(used as int), broken, (count - 1) as nat);
    }
}

/// Of a list in which a file cannot be read, the files before it are given back with the
/// fault.
pub proof fn law_files_before_a_fault(
    es: Seq<Entry>,
    count: nat,
    tail: Seq<u8>,
    broken: bool,
    error: ErrorView,
)
    requires
        es.len() < count <= 100_000,
        forall|i: int|
            0 <= i < es.len() ==> 1 <= encode_utf8((#[trigger] es[i]).name).len() <= 4096,
        forall|i: int| 0 <= i < es.len() ==> (#[trigger] es[i]).data.len() <= usize::MAX,
        streamed_entry(tail, broken, true) == Err::<(Entry, nat), ErrorView>(error),
    ensures
        streamed_payload(
            seq![0x4du8] + be_bytes(count, 4) + multi_payload(es).skip(5) + tail,
            broken,
        ) matches Err(u) && u.error == error && u.files.len() == es.len() && forall|i: int|
            #![trigger u.files[i]]
            0 <= i < es.len() ==> u.files[i].data == es[i].data && u.files[i].name == sanitized(
                es[i].name,
            ),
{
    let data = seq![0x4du8] + be_bytes(count, 4) + multi_payload(es).skip(5) + tail;
    lemma_byte_ranges();
    lemma_be_round_trip(count, 4);
    lemma_be_bytes_len(es.len(), 4);
    assert(multi_payload(es).skip(5) =~= entries_bytes(es));
    assert(data.subrange(1, 5) =~= be_bytes(count, 4));
    assert(data.skip(5) =~= entries_bytes(es) + tail);
    lemma_streamed_up_to(es, count, tail, broken, error);
}

/// Entries that are read up to one that is not.
proof fn lemma_streamed_up_to(
    es: Seq<Entry>,
    count: nat,
    tail: Seq<u8>,
    broken: bool,
    error: ErrorView,
)
    requires
        es.len() < count,
        forall|i: int|
            0 <= i < es.len() ==> 1 <= encode_utf8((#[trigger] es[i]).name).len() <= 4096,
        forall|i: int| 0 <= i < es.len() ==> (#[trigger] es[i]).data.len() <= usize::MAX,
        streamed_entry(tail, broken, true) == Err::<(Entry, nat), ErrorView>(error),
    ensures
        streamed_entries(entries_bytes(es) + tail, broken, count) == Err::<Seq<Entry>, Unread>(
            Unread { files: all_restored(es), error },
        ),
    decreases es.len(),
{
    if es.len() == 0 {
        assert(entries_bytes(es) + tail =~= tail);
        assert(all_restored(es) =~= Seq::<Entry>::empty());
    } else {
        let e = es[0];
        let others = es.drop_first();
        assert forall|i: int| 0 <= i < others.len() implies 1 <= encode_utf8(
            (#[trigger] others[i]).name,
        ).len() <= 4096 && others[i].data.len() <= usize::MAX by {
            assert(others[i] == es[i + 1]);
        }
        let after = entries_bytes(others) + tail;
        assert(1 <= encode_utf8(es[0].name).len() <= 4096);
        lemma_entry_len(e);
        lemma_entry_streamed(e, after, broken, true);
        lemma_streamed_up_to(others, (count - 1) as nat, tail, broken, error);
        assert(entries_bytes(es) + tail =~= entry_bytes(e) + after);
        assert((entry_bytes(e) + after).skip(entry_len(e) as int) =~= after);
        assert(seq![restored(e)] + all_restored(others) =~= all_restored(es));
    }
}

/// A file whose content ends before its stated length, or whose content has another hash
/// than the stated one, is not read.
pub proof fn law_damaged_files_are_refused(rest: Seq<u8>, broken: bool, multi: bool)
    requires
        rest.len() >= 42,
        1 <= be_value(rest.subrange(0, 2)) <= 4096,
        rest.len() >= 42 + be_value(rest.subrange(0, 2)),
    ensures
        ({
            let n = be_value(rest.subrange(0, 2)) as int;
            let size = be_value(rest.subrange(2 + n, 10 + n)) as int;
            let out = streamed_entry(rest, broken, multi);
            if size > usize::MAX {
                out == Err::<(Entry, nat), ErrorView>(Fault::FileTooLarge)
            } else if rest.len() < 42 + n + size {
                out == Err::<(Entry, nat), ErrorView>(
                    if broken {
                        Fault::NotAuthentic
                    } else {
                        Fault::UnexpectedEof
                    },
                ) && parsed_entry(rest, multi) is Err
            } else if sha256_of(rest.subrange(42 + n, 42 + n + size))@ != rest.subrange(
                10 + n,
                42 + n,
            ) {
                out == Err::<(Entry, nat), ErrorView>(
                    if multi {
                        Fault::MultiShaMismatch
                    } else {
                        Fault::SingleShaMismatch
                    },
                ) && parsed_entry(rest, multi) == out
            } else {
                out is Ok && parsed_entry(rest, multi) == out
            }
        }),
{
    reveal(parsed_entry);
    reveal(streamed_entry);
}

/// A stored path is restored under its last component, one character for one: zeros
/// become underscores, and what goes beyond 4096 characters is cut off. A path that ends
/// in no name, in `.` or in `..`, is restored as `restored.bin`.
pub proof fn law_restored_name_is_the_last_component(
    dir: Seq<char>,
    separator: char,
    base: Seq<char>,
)
    requires
        separator == '/' || separator == '\\',
        forall|i: int| 0 <= i < base.len() ==> #[trigger] base[i] != '/' && base[i] != '\\',
    ensures
        sanitized(dir.push(separator) + base) == sanitized(base),
        base.len() == 0 || base == seq!['.'] || base == seq!['.', '.'] ==> sanitized(base)
            == "restored.bin"@,
        base.len() > 0 && base != seq!['.'] && base != seq!['.', '.'] ==> sanitized(base).len() == (
        if base.len() < 4096 {
            base.len() as int
        } else {
            4096
        }) && forall|i: int|
            0 <= i < sanitized(base).len() ==> #[trigger] sanitized(base)[i] == (if base[i]
                == '\0' {
                '_'
            } else {
                base[i]
            }),
{
    law_last_component(dir, separator, base);
    reveal_strlit("restored.bin");
    let fallback = "restored.bin"@;
    assert(fallback.map_values(|c: char| replaced(c)).take(12) =~= fallback);
}

/// A name is one plain component where it is not empty, not longer than 4096 characters,
/// holds no separator and no zero, and is neither `.` nor `..`.
pub proof fn law_plain_components(name: Seq<char>)
    ensures
        plain_component(name) <==> 1 <= name.len() <= 4096 && name != seq!['.'] && name != seq![
            '.',
            '.',
        ] && (forall|i: int|
            0 <= i < name.len() ==> #[trigger] name[i] != '/' && name[i] != '\\' && name[i]
                != '\0'),
{
}

/// A name of up to 65535 bytes can be stored, one of 1 to 4096 can be read from a source.
pub proof fn law_name_lengths(e: Entry)
    ensures
        name_fits(e) <==> encode_utf8(e.name).len() <= 65_535,
        name_restorable(e) <==> 1 <= encode_utf8(e.name).len() <= 4096,
        restored(e) == (Entry { name: sanitized(e.name), data: e.data }),
{
}

/// Files in memory are their names and contents, in their order.
pub proof fn law_files_in_memory(files: Seq<FileEntry>, i: int)
    requires
        0 <= i < files.len(),
    ensures
        entries_of(files).len() == files.len(),
        entries_of(files)[i].name == files[i].name@,
        entries_of(files)[i].data == files[i].data@,
{
}

/// One more file adds its bytes to what is copied.
pub proof fn law_contents_add_up(es: Seq<Entry>, e: Entry)
    ensures
        contents_len(Seq::empty()) == 0,
        contents_len(es.push(e)) == contents_len(es) + e.data.len(),
{
    assert(es.push(e).drop_last() =~= es);
}

/// What reading gives is the files, or those before a fault and the fault.
pub proof fn law_reading_in_memory(files: Vec<FileEntry>, fault: PayloadFault, error: Error)
    ensures
        payload_outcome(Ok(files)) == Ok::<Seq<Entry>, Unread>(entries_of(files@)),
        payload_outcome(Err(fault)) == Err::<Seq<Entry>, Unread>(
            Unread { files: entries_of(fault.files@), error: fault.error@ },
        ),
        files_outcome(Ok(files)) == Ok::<Seq<Entry>, ErrorView>(entries_of(files@)),
        files_outcome(Err(error)) == Err::<Seq<Entry>, ErrorView>(error@),
{
}

} // verus!
