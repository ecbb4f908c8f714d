//! What the user interfaces decide and say.
use crate::bytes::lemma_be_bytes_len;
use crate::crypto::STREAM_CHUNK;
use crate::lsb::{capacity, law_capacity};
use crate::number::counted64;
use crate::payload::{
    entries_bytes, lemma_entries_push, lemma_entry_len, multi_payload, name_bytes, single_payload,
    Entry,
};
use crate::raster::Raster;
use crate::stego::hidden_len;
use crate::text::{
    chars_of, copy_chars, decimal, is_png, parse_number, parsed_number, push_decimal, push_text,
    string_of,
};
use vstd::prelude::*;
use vstd::utf8::encode_utf8;

verus! {

/// The number of pixels up to which covers grow where nothing else is asked for.
pub const DEFAULT_MAX_PIXELS: u64 = 512_000_000;

/// The plain bytes of a full segment of a stream, as 64 bits.
const SEGMENT: u64 = 4_194_304;

/// The length from which on the log is cut, in bytes.
pub const LOG_LIMIT: usize = 10_000;

/// The end of the log that is kept, in characters.
pub const LOG_KEPT: usize = 5_000;

/// The product of two numbers, as far as it can be counted.
fn times(a: u64, b: u64) -> (out: u64)
    ensures
        out == counted64(a as nat * b as nat),
{
    assert(a as int * b as int <= u64::MAX * u64::MAX) by (nonlinear_arith)
        requires
            a <= u64::MAX,
            b <= u64::MAX,
    ;
    assert(0 <= a as int * b as int) by (nonlinear_arith);
    let product: u128 = a as u128 * b as u128;
    if product <= u64::MAX as u128 {
        product as u64
    } else {
        u64::MAX
    }
}

/// The number of pixels up to which covers grow: the number that the setting
/// writes, else the default.
pub open spec fn pixel_limit(setting: Option<Seq<char>>) -> u64 {
    match setting {
        Some(text) => match parsed_number(text, u64::MAX as nat) {
            Some(n) => n as u64,
            None => DEFAULT_MAX_PIXELS,
        },
        None => DEFAULT_MAX_PIXELS,
    }
}

/// The number of pixels up to which covers grow.
pub fn max_pixels(setting: Option<&str>) -> (out: u64)
    ensures
        out == pixel_limit(crate::crypto::text_of(setting)),
{
    match setting {
        Some(text) => match parse_number(chars_of(text).as_slice(), u64::MAX) {
            Some(n) => n,
            None => DEFAULT_MAX_PIXELS,
        },
        None => DEFAULT_MAX_PIXELS,
    }
}

/// A size limit as it is chosen: a number of GiB, or one of MiB.
#[derive(Clone, Copy, Debug)]
pub struct SizeLimit {
    pub preset: bool,
    pub gib: u64,
    pub mib: u64,
}

impl SizeLimit {
    /// The limit in bytes.
    pub open spec fn bytes(self) -> u64 {
        if self.preset {
            counted64(self.gib as nat * 1_073_741_824)
        } else {
            counted64(self.mib as nat * 1_048_576)
        }
    }

    /// The limit in bytes.
    pub fn max_bytes(&self) -> (out: u64)
        ensures
            out == self.bytes(),
    {
        if self.preset {
            times(self.gib, 1_073_741_824)
        } else {
            times(self.mib, 1_048_576)
        }
    }
}

/// A size limit in bytes, unless one in GiB is given.
pub fn limit_in_bytes(max_bytes: u64, max_gib: Option<u64>) -> (out: u64)
    ensures
        out == (match max_gib {
            Some(gib) => counted64(gib as nat * 1_073_741_824),
            None => max_bytes,
        }),
{
    match max_gib {
        Some(gib) => times(gib, 1_073_741_824),
        None => max_bytes,
    }
}

/// A password field: an empty one means that there is no password.
pub fn password_field(text: &str) -> (out: Option<String>)
    ensures
        match out {
            Some(password) => text@.len() > 0 && password@ == text@,
            None => text@.len() == 0,
        },
{
    let chars: Vec<char> = chars_of(text);
    if chars.len() == 0 {
        None
    } else {
        Some(string_of(chars.as_slice()))
    }
}

/// Why a request is not carried out.
#[derive(Clone, Copy, Debug, PartialEq, Eq, Structural)]
pub enum Refusal {
    /// No file to hide.
    NoFiles,
    /// Several files for one container.
    OneFileOnly,
    /// No cover to hide in.
    NoCover,
    /// No image to reveal.
    NoStego,
    /// No cover for the parts of a container.
    PartsNeedCover,
    /// No parts to join.
    NoParts,
    /// Neither parts nor a directory of them.
    PartsNotGiven,
    /// A directory without parts.
    NoPngParts,
}

/// The text that tells the user about a refusal.
pub open spec fn refusal_text(r: Refusal) -> Seq<char> {
    match r {
        Refusal::NoFiles => "ERRO: adiciona pelo menos um ficheiro."@,
        Refusal::OneFileOnly => "ERRO: modo container só suporta 1 ficheiro (por agora)."@,
        Refusal::NoCover => "ERRO: escolhe imagem de cobertura."@,
        Refusal::NoStego => "ERRO: escolhe stego."@,
        Refusal::PartsNeedCover => "Capa obrigatória para separar em partes."@,
        Refusal::NoParts => "ERRO: adiciona partes PNG."@,
        Refusal::PartsNotGiven => "Indica partes ou --indir"@,
        Refusal::NoPngParts => "Sem partes PNG para juntar."@,
    }
}

impl Refusal {
    /// The text that tells the user about this refusal.
    pub fn message(&self) -> (out: &'static str)
        ensures
            out@ == refusal_text(*self),
    {
        match self {
            Refusal::NoFiles => "ERRO: adiciona pelo menos um ficheiro.",
            Refusal::OneFileOnly => "ERRO: modo container só suporta 1 ficheiro (por agora).",
            Refusal::NoCover => "ERRO: escolhe imagem de cobertura.",
            Refusal::NoStego => "ERRO: escolhe stego.",
            Refusal::PartsNeedCover => "Capa obrigatória para separar em partes.",
            Refusal::NoParts => "ERRO: adiciona partes PNG.",
            Refusal::PartsNotGiven => "Indica partes ou --indir",
            Refusal::NoPngParts => "Sem partes PNG para juntar.",
        }
    }
}

/// What a request to hide files says.
#[derive(Clone, Copy, Debug)]
pub struct EmbedForm {
    pub file_count: usize,
    pub has_cover: bool,
    pub container_mode: bool,
    pub container_split: bool,
    pub limit: SizeLimit,
}

/// How files are hidden.
#[derive(Clone, Copy, Debug, PartialEq, Eq, Structural)]
pub enum EmbedPlan {
    /// In the parts of a container, each of at most this many bytes.
    Parts { max_bytes: u64 },
    /// In one container.
    Container,
    /// One file in the low bits of a cover.
    Single,
    /// Several files in the low bits of a cover.
    Multi,
}

/// How files are hidden, or why not.
pub open spec fn embed_plan(form: EmbedForm) -> Result<EmbedPlan, Refusal> {
    if form.file_count == 0 {
        Err(Refusal::NoFiles)
    } else if form.container_mode && form.file_count != 1 {
        Err(Refusal::OneFileOnly)
    } else if !form.container_mode && !form.has_cover {
        Err(Refusal::NoCover)
    } else if form.container_mode && form.container_split {
        Ok(EmbedPlan::Parts { max_bytes: form.limit.bytes() })
    } else if form.container_mode {
        Ok(EmbedPlan::Container)
    } else if form.file_count == 1 {
        Ok(EmbedPlan::Single)
    } else {
        Ok(EmbedPlan::Multi)
    }
}

/// Decides how files are hidden.
pub fn plan_embed(form: &EmbedForm) -> (out: Result<EmbedPlan, Refusal>)
    ensures
        out == embed_plan(*form),
{
    if form.file_count == 0 {
        return Err(Refusal::NoFiles);
    }
    if form.container_mode && form.file_count != 1 {
        return Err(Refusal::OneFileOnly);
    }
    if !form.container_mode && !form.has_cover {
        return Err(Refusal::NoCover);
    }
    if form.container_mode && form.container_split {
        Ok(EmbedPlan::Parts { max_bytes: form.limit.max_bytes() })
    } else if form.container_mode {
        Ok(EmbedPlan::Container)
    } else if form.file_count == 1 {
        Ok(EmbedPlan::Single)
    } else {
        Ok(EmbedPlan::Multi)
    }
}

/// What a request to reveal files says.
#[derive(Clone, Copy, Debug)]
pub struct RevealForm {
    pub has_stego: bool,
    pub is_container: bool,
    pub split_container: bool,
    pub has_split_cover: bool,
    pub limit: SizeLimit,
}

/// How files are revealed.
#[derive(Clone, Copy, Debug, PartialEq, Eq, Structural)]
pub enum RevealPlan {
    /// By splitting a container into parts of at most this many bytes.
    Split { max_bytes: u64 },
    /// From a container.
    Container,
    /// From the low bits of an image, with this many bits per channel.
    Hidden { bpc: u8 },
}

/// How files are revealed, or why not.
pub open spec fn reveal_plan(form: RevealForm) -> Result<RevealPlan, Refusal> {
    if !form.has_stego {
        Err(Refusal::NoStego)
    } else if form.split_container {
        if form.has_split_cover {
            Ok(RevealPlan::Split { max_bytes: form.limit.bytes() })
        } else {
            Err(Refusal::PartsNeedCover)
        }
    } else if form.is_container {
        Ok(RevealPlan::Container)
    } else {
        Ok(RevealPlan::Hidden { bpc: 2 })
    }
}

/// Decides how files are revealed.
pub fn plan_reveal(form: &RevealForm) -> (out: Result<RevealPlan, Refusal>)
    ensures
        out == reveal_plan(*form),
{
    if !form.has_stego {
        return Err(Refusal::NoStego);
    }
    if form.split_container {
        if !form.has_split_cover {
            return Err(Refusal::PartsNeedCover);
        }
        Ok(RevealPlan::Split { max_bytes: form.limit.max_bytes() })
    } else if form.is_container {
        Ok(RevealPlan::Container)
    } else {
        Ok(RevealPlan::Hidden { bpc: 2 })
    }
}

/// Where the parts to join come from.
#[derive(Clone, Copy, Debug, PartialEq, Eq, Structural)]
pub enum PartSource {
    /// They are given one by one.
    Given,
    /// They are all those in a directory.
    Directory,
}

/// Decides where the parts to join come from.
pub fn plan_join(given: usize, has_directory: bool) -> (out: Result<PartSource, Refusal>)
    ensures
        out == (if given > 0 {
            Ok::<PartSource, Refusal>(PartSource::Given)
        } else if has_directory {
            Ok(PartSource::Directory)
        } else {
            Err(Refusal::PartsNotGiven)
        }),
{
    if given > 0 {
        Ok(PartSource::Given)
    } else if has_directory {
        Ok(PartSource::Directory)
    } else {
        Err(Refusal::PartsNotGiven)
    }
}

/// Whether an extension is `png`, in letters of either case.
pub fn is_png_extension(extension: &str) -> (out: bool)
    ensures
        out == is_png(extension@),
{
    let c: Vec<char> = chars_of(extension);
    c.len() == 3 && (c[0] == 'p' || c[0] == 'P') && (c[1] == 'n' || c[1] == 'N') && (c[2] == 'g'
        || c[2] == 'G')
}

/// The estimated size of a container for `total_in` bytes.
pub open spec fn container_estimate(total_in: u64, encrypted: bool) -> u64 {
    let tags = if encrypted {
        total_in as nat / STREAM_CHUNK as nat + 1
    } else {
        0
    };
    counted64(total_in as nat + 256 + tags * 16)
}

/// Estimates the size of a container for `total_in` bytes.
pub fn container_hint(total_in: u64, encrypted: bool) -> (out: u64)
    ensures
        out == container_estimate(total_in, encrypted),
{
    let tags: u64 = if encrypted {
        total_in / SEGMENT + 1
    } else {
        0
    };
    total_in.saturating_add(256 + tags * 16)
}

/// The name and the content of a file to hide, by their lengths in bytes.
#[derive(Clone, Copy, Debug)]
pub struct FileLen {
    pub name: u64,
    pub data: u64,
}

/// What is known beforehand about hiding files in an image.
#[derive(Clone, Copy, Debug, PartialEq, Eq, Structural)]
pub struct CapacityHint {
    pub capacity: u64,
    pub plain: u64,
    pub total: u64,
    pub fits: bool,
}

/// The length of the entries of files.
pub open spec fn entries_estimate(files: Seq<FileLen>) -> nat
    decreases files.len(),
{
    if files.len() == 0 {
        0
    } else {
        entries_estimate(files.drop_last()) + 42 + files.last().name as nat
            + files.last().data as nat
    }
}

/// The length of the payload of files; there is none without files.
pub open spec fn plain_estimate(files: Seq<FileLen>) -> nat {
    if files.len() == 0 {
        0
    } else if files.len() == 1 {
        1 + entries_estimate(files)
    } else {
        5 + entries_estimate(files)
    }
}

/// The length of a payload of `plain` bytes and its header.
pub open spec fn total_estimate(plain: u64, encrypted: bool) -> u64 {
    if encrypted {
        counted64(plain as nat + (plain as nat / STREAM_CHUNK as nat + 1) * 16 + 59)
    } else {
        counted64(plain as nat + 37)
    }
}

/// What is known beforehand about hiding files in an image.
pub open spec fn hint_of(
    width: u32,
    height: u32,
    bpc: u8,
    files: Seq<FileLen>,
    encrypted: bool,
) -> CapacityHint {
    let capacity = (counted64(width as nat * height as nat * 3 * bpc as nat) / 8) as u64;
    let plain = counted64(plain_estimate(files));
    let total = total_estimate(plain, encrypted);
    CapacityHint { capacity, plain, total, fits: capacity > 0 && total <= capacity }
}

/// The length of the payload of files, as far as it can be counted.
fn estimate_plain(files: &[FileLen]) -> (out: u64)
    ensures
        out == counted64(plain_estimate(files@)),
{
    if files.len() == 0 {
        return 0;
    }
    let start: u64 = if files.len() == 1 {
        1
    } else {
        5
    };
    let mut total: u64 = start;
    let mut k: usize = 0;
    while k < files.len()
        invariant
            k <= files@.len(),
            start <= 5,
            total == counted64(start as nat + entries_estimate(files@.take(k as int))),
        decreases files.len() - k,
    {
        assert(files@.take(k + 1).drop_last() =~= files@.take(k as int));
        total = total.saturating_add(42).saturating_add(files[k].name).saturating_add(
            files[k].data,
        );
        k = k + 1;
    }
    assert(files@.take(k as int) =~= files@);
    total
}

/// Tells beforehand about hiding files in an image.
pub fn capacity_hint(
    width: u32,
    height: u32,
    bpc: u8,
    files: &[FileLen],
    encrypted: bool,
) -> (out: CapacityHint)
    ensures
        out == hint_of(width, height, bpc, files@, encrypted),
{
    assert(width as int * height as int <= 0xffff_ffff * 0xffff_ffff) by (nonlinear_arith)
        requires
            width <= 0xffff_ffff,
            height <= 0xffff_ffff,
    ;
    let pixels: u128 = width as u128 * height as u128;
    assert(pixels * 3 * bpc <= pixels * 3 * 255) by (nonlinear_arith)
        requires
            pixels >= 0,
            bpc <= 255,
    ;
    let bits: u128 = pixels * 3 * bpc as u128;
    let capacity: u64 = if bits <= u64::MAX as u128 {
        bits as u64 / 8
    } else {
        u64::MAX / 8
    };
    let plain: u64 = estimate_plain(files);
    let total: u64 = if encrypted {
        plain.saturating_add((plain / SEGMENT + 1) * 16).saturating_add(59)
    } else {
        plain.saturating_add(37)
    };
    CapacityHint { capacity, plain, total, fits: capacity > 0 && total <= capacity }
}

/// A log after a message was added: where it is too long, only its end is kept.
pub open spec fn logged(log: Seq<char>, msg: Seq<char>) -> Seq<char> {
    let all = log + msg + "\n"@;
    if encode_utf8(all).len() > LOG_LIMIT && all.len() > LOG_KEPT {
        all.skip(all.len() - LOG_KEPT)
    } else {
        all
    }
}

/// Adds a message to a log.
pub fn push_log(log: &mut String, msg: &str)
    ensures
        final(log)@ == logged(old(log)@, msg@),
        final(log)@.len() <= LOG_KEPT || encode_utf8(final(log)@).len() <= LOG_LIMIT,
{
    push_text(log, msg);
    push_text(log, "\n");
    if log.as_str().as_bytes().len() > LOG_LIMIT {
        let chars: Vec<char> = chars_of(log.as_str());
        let total: usize = chars.len();
        if total > LOG_KEPT {
            let kept: Vec<char> = copy_chars(chars.as_slice(), total - LOG_KEPT, total);
            assert(kept@ =~= chars@.skip(total - LOG_KEPT));
            *log = string_of(kept.as_slice());
        }
    }
}

/// What a task tells the user interface.
#[derive(Debug)]
pub enum UiMessage {
    Progress { label: String },
    Info { msg: String },
    Done { log: String },
    Error { err: String },
}

/// What the user interface shows of its task.
#[derive(Debug)]
pub struct Status {
    pub log: String,
    pub label: String,
    pub busy: bool,
}

/// What becomes of the progress gauge.
#[derive(Clone, Copy, Debug, PartialEq, Eq, Structural)]
pub enum Gauge {
    /// It shows the progress of the message.
    Follows,
    /// It stays.
    Stays,
    /// It is full.
    Full,
    /// It is empty.
    Empty,
}

impl Status {
    /// The status after a message.
    pub fn receive(&mut self, message: UiMessage) -> (out: Gauge)
        ensures
            match message {
                UiMessage::Progress { label } => {
                    &&& out == Gauge::Follows
                    &&& final(self).label@ == label@
                    &&& final(self).log == old(self).log
                    &&& final(self).busy == old(self).busy
                },
                UiMessage::Info { msg } => {
                    &&& out == Gauge::Stays
                    &&& final(self).label == old(self).label
                    &&& final(self).log@ == logged(old(self).log@, msg@)
                    &&& final(self).busy == old(self).busy
                },
                UiMessage::Done { log } => {
                    &&& out == Gauge::Full
                    &&& final(self).label@ == "Pronto"@
                    &&& final(self).log@ == logged(old(self).log@, log@)
                    &&& !final(self).busy
                },
                UiMessage::Error { err } => {
                    &&& out == Gauge::Empty
                    &&& final(self).label@ == "Erro"@
                    &&& final(self).log@ == logged(old(self).log@, "ERRO: "@ + err@)
                    &&& !final(self).busy
                },
            },
    {
        match message {
            UiMessage::Progress { label } => {
                self.label = label;
                Gauge::Follows
            },
            UiMessage::Info { msg } => {
                push_log(&mut self.log, msg.as_str());
                Gauge::Stays
            },
            UiMessage::Done { log } => {
                self.busy = false;
                self.label = string_of(chars_of("Pronto").as_slice());
                push_log(&mut self.log, log.as_str());
                Gauge::Full
            },
            UiMessage::Error { err } => {
                self.busy = false;
                self.label = string_of(chars_of("Erro").as_slice());
                let mut text: String = string_of(chars_of("ERRO: ").as_slice());
                push_text(&mut text, err.as_str());
                push_log(&mut self.log, text.as_str());
                Gauge::Empty
            },
        }
    }

    /// What is shown as the state.
    pub fn shown_label(&self) -> (out: &str)
        ensures
            out@ == (if self.busy {
                self.label@
            } else {
                "Pronto"@
            }),
    {
        if self.busy {
            self.label.as_str()
        } else {
            "Pronto"
        }
    }
}

/// A truth value as it is shown.
pub open spec fn truth_text(b: bool) -> Seq<char> {
    if b {
        "true"@
    } else {
        "false"@
    }
}

/// Appends a truth value.
fn push_truth(out: &mut String, b: bool)
    ensures
        final(out)@ == old(out)@ + truth_text(b),
{
    if b {
        push_text(out, "true");
    } else {
        push_text(out, "false");
    }
}

/// What is shown of hiding files.
#[derive(Clone, Copy, Debug)]
pub struct EmbedSummary {
    pub files: usize,
    pub bpc: u8,
    pub password_set: bool,
    pub allow_upscale: bool,
    pub container_mode: bool,
    pub split: bool,
}

/// The cover as it is shown.
pub open spec fn cover_text(cover: Option<Seq<char>>) -> Seq<char> {
    match cover {
        Some(text) => text,
        None => "(auto)"@,
    }
}

/// The message that hiding files starts.
pub open spec fn embed_start_text(
    cover: Option<Seq<char>>,
    out: Seq<char>,
    s: EmbedSummary,
) -> Seq<char> {
    "A iniciar embed: cover='"@ + cover_text(cover) + "', out='"@ + out + "', ficheiros="@
        + decimal(s.files as nat) + ", bpc="@ + decimal(s.bpc as nat) + ", password_set="@
        + truth_text(s.password_set) + ", allow_upscale="@ + truth_text(s.allow_upscale)
        + ", container_mode="@ + truth_text(s.container_mode) + ", split="@ + truth_text(s.split)
}

/// The message that files are being hidden.
pub open spec fn embed_run_text(
    cover: Option<Seq<char>>,
    out: Seq<char>,
    s: EmbedSummary,
) -> Seq<char> {
    "Embed em curso → cover='"@ + cover_text(cover) + "', out='"@ + out + "', ficheiros="@
        + decimal(s.files as nat) + ", bpc="@ + decimal(s.bpc as nat) + ", container_mode="@
        + truth_text(s.container_mode) + ", split="@ + truth_text(s.split)
}

/// Appends the cover as it is shown.
fn push_cover(text: &mut String, cover: Option<&str>)
    ensures
        final(text)@ == old(text)@ + cover_text(crate::crypto::text_of(cover)),
{
    match cover {
        Some(name) => push_text(text, name),
        None => push_text(text, "(auto)"),
    }
}

/// The message that hiding files starts.
pub fn embed_started(cover: Option<&str>, out: &str, s: EmbedSummary) -> (text: String)
    ensures
        text@ == embed_start_text(crate::crypto::text_of(cover), out@, s),
{
    let mut text: String = String::new();
    push_text(&mut text, "A iniciar embed: cover='");
    push_cover(&mut text, cover);
    push_text(&mut text, "', out='");
    push_text(&mut text, out);
    push_text(&mut text, "', ficheiros=");
    push_decimal(&mut text, s.files as u64);
    push_text(&mut text, ", bpc=");
    push_decimal(&mut text, s.bpc as u64);
    push_text(&mut text, ", password_set=");
    push_truth(&mut text, s.password_set);
    push_text(&mut text, ", allow_upscale=");
    push_truth(&mut text, s.allow_upscale);
    push_text(&mut text, ", container_mode=");
    push_truth(&mut text, s.container_mode);
    push_text(&mut text, ", split=");
    push_truth(&mut text, s.split);
    assert(text@ =~= embed_start_text(crate::crypto::text_of(cover), out@, s));
    text
}

/// The message that files are being hidden.
pub fn embed_running(cover: Option<&str>, out: &str, s: EmbedSummary) -> (text: String)
    ensures
        text@ == embed_run_text(crate::crypto::text_of(cover), out@, s),
{
    let mut text: String = String::new();
    push_text(&mut text, "Embed em curso → cover='");
    push_cover(&mut text, cover);
    push_text(&mut text, "', out='");
    push_text(&mut text, out);
    push_text(&mut text, "', ficheiros=");
    push_decimal(&mut text, s.files as u64);
    push_text(&mut text, ", bpc=");
    push_decimal(&mut text, s.bpc as u64);
    push_text(&mut text, ", container_mode=");
    push_truth(&mut text, s.container_mode);
    push_text(&mut text, ", split=");
    push_truth(&mut text, s.split);
    assert(text@ =~= embed_run_text(crate::crypto::text_of(cover), out@, s));
    text
}

/// The message that revealing files starts.
pub fn reveal_started(stego: &str, outdir: &str, password_set: bool, split: bool) -> (text: String)
    ensures
        text@ == "A iniciar reveal: stego='"@ + stego@ + "', outdir='"@ + outdir@
            + "', bpc=2, password_set="@ + truth_text(password_set) + ", split="@ + truth_text(
            split,
        ),
{
    let mut text: String = String::new();
    push_text(&mut text, "A iniciar reveal: stego='");
    push_text(&mut text, stego);
    push_text(&mut text, "', outdir='");
    push_text(&mut text, outdir);
    push_text(&mut text, "', bpc=2, password_set=");
    push_truth(&mut text, password_set);
    push_text(&mut text, ", split=");
    push_truth(&mut text, split);
    assert(text@ =~= "A iniciar reveal: stego='"@ + stego@ + "', outdir='"@ + outdir@
        + "', bpc=2, password_set="@ + truth_text(password_set) + ", split="@ + truth_text(split));
    text
}

/// The message that files are being revealed.
pub fn reveal_running(stego: &str, outdir: &str, is_container: bool, split: bool) -> (text: String)
    ensures
        text@ == "Reveal em curso → stego='"@ + stego@ + "', outdir='"@ + outdir@ + "', mode="@ + (
        if is_container {
            "container"@
        } else {
            "lsb"@
        }) + ", split="@ + truth_text(split),
{
    let mut text: String = String::new();
    push_text(&mut text, "Reveal em curso → stego='");
    push_text(&mut text, stego);
    push_text(&mut text, "', outdir='");
    push_text(&mut text, outdir);
    push_text(&mut text, "', mode=");
    if is_container {
        push_text(&mut text, "container");
    } else {
        push_text(&mut text, "lsb");
    }
    push_text(&mut text, ", split=");
    push_truth(&mut text, split);
    assert(text@ =~= "Reveal em curso → stego='"@ + stego@ + "', outdir='"@ + outdir@ + "', mode="@
        + (if is_container {
        "container"@
    } else {
        "lsb"@
    }) + ", split="@ + truth_text(split));
    text
}

/// The message that joining parts starts.
pub fn join_started(parts: usize, out: &str, password_set: bool) -> (text: String)
    ensures
        text@ == "A iniciar join: partes="@ + decimal(parts as nat) + ", out='"@ + out@
            + "', password_set="@ + truth_text(password_set),
{
    let mut text: String = String::new();
    push_text(&mut text, "A iniciar join: partes=");
    push_decimal(&mut text, parts as u64);
    push_text(&mut text, ", out='");
    push_text(&mut text, out);
    push_text(&mut text, "', password_set=");
    push_truth(&mut text, password_set);
    assert(text@ =~= "A iniciar join: partes="@ + decimal(parts as nat) + ", out='"@ + out@
        + "', password_set="@ + truth_text(password_set));
    text
}

/// What the user is told beforehand is what hiding will need: the length of the
/// payload of files of these lengths, and of all that is hidden.
pub proof fn law_hint_is_exact(files: Seq<Entry>, lens: Seq<FileLen>, plain: u64, encrypted: bool)
    requires
        files.len() == lens.len(),
        forall|i: int|
            0 <= i < files.len() ==> (#[trigger] lens[i]).name == name_bytes(files[i]).len()
                && lens[i].data == files[i].data.len(),
    ensures
        files.len() == 1 ==> plain_estimate(lens) == single_payload(files[0]).len(),
        files.len() > 1 ==> plain_estimate(lens) == multi_payload(files).len(),
        total_estimate(plain, encrypted) == counted64(hidden_len(plain as nat, encrypted)),
{
    lemma_entries_estimate(files, lens);
    lemma_be_bytes_len(files.len(), 4);
    if files.len() == 1 {
        lemma_entry_len(files[0]);
        assert(files.drop_first() =~= Seq::<Entry>::empty());
        assert(entries_bytes(files.drop_first()).len() == 0);
    }
}

/// The entries of files have the lengths that are estimated.
proof fn lemma_entries_estimate(files: Seq<Entry>, lens: Seq<FileLen>)
    requires
        files.len() == lens.len(),
        forall|i: int|
            0 <= i < files.len() ==> (#[trigger] lens[i]).name == name_bytes(files[i]).len()
                && lens[i].data == files[i].data.len(),
    ensures
        entries_estimate(lens) == entries_bytes(files).len(),
    decreases files.len(),
{
    if files.len() > 0 {
        let front = files.drop_last();
        assert forall|i: int| 0 <= i < front.len() implies (#[trigger] lens.drop_last()[i]).name
            == name_bytes(front[i]).len() && lens.drop_last()[i].data == front[i].data.len() by {
            assert(lens.drop_last()[i] == lens[i]);
        }
        lemma_entries_estimate(front, lens.drop_last());
        lemma_entries_push(front, files.last());
        lemma_entry_len(files.last());
        assert(files =~= front.push(files.last()));
        assert(lens[files.len() - 1] == lens.last());
    }
}

/// A limit of so many GiB is 1073741824 bytes for each, one of MiB 1048576 for each, as
/// far as 64 bits count.
pub proof fn law_size_limits(gib: u64, mib: u64)
    ensures
        gib <= 17_179_869_183 ==> (SizeLimit { preset: true, gib, mib }).bytes() == gib
            * 1_073_741_824,
        gib > 17_179_869_183 ==> (SizeLimit { preset: true, gib, mib }).bytes() == u64::MAX,
        mib <= 17_592_186_044_415 ==> (SizeLimit { preset: false, gib, mib }).bytes() == mib
            * 1_048_576,
        mib > 17_592_186_044_415 ==> (SizeLimit { preset: false, gib, mib }).bytes() == u64::MAX,
{
}

/// Covers grow up to 512000000 pixels, unless the setting writes another number.
pub proof fn law_pixel_limit(n: u64)
    ensures
        pixel_limit(None) == 512_000_000,
        pixel_limit(Some(decimal(n as nat))) == n,
{
    crate::text::lemma_decimal(n as nat);
    assert(decimal(n as nat)[0] != '+');
}

/// A setting that writes no number that 64 bits hold is as none.
pub proof fn law_pixel_limit_without_number(text: Seq<char>)
    ensures
        parsed_number(text, 0xffff_ffff_ffff_ffff) is None ==> pixel_limit(Some(text))
            == 512_000_000,
        parsed_number(text, 0xffff_ffff_ffff_ffff) matches Some(n) ==> pixel_limit(Some(text)) == n,
{
    if let Some(n) = parsed_number(text, 0xffff_ffff_ffff_ffff) {
        assert(n <= u64::MAX);
    }
}

/// Files are hidden as they are asked to be: in a container, which takes one file, in
/// parts of one up to the limit, or in the low bits of a cover, which there has to be.
pub proof fn law_embed_plans(form: EmbedForm)
    ensures
        embed_plan(form) matches Ok(plan) ==> form.file_count > 0 && match plan {
            EmbedPlan::Parts { max_bytes } => form.container_mode && form.container_split
                && form.file_count == 1 && max_bytes == form.limit.bytes(),
            EmbedPlan::Container => form.container_mode && !form.container_split
                && form.file_count == 1,
            EmbedPlan::Single => !form.container_mode && form.has_cover && form.file_count == 1,
            EmbedPlan::Multi => !form.container_mode && form.has_cover && form.file_count > 1,
        },
        embed_plan(form) matches Err(why) ==> match why {
            Refusal::NoFiles => form.file_count == 0,
            Refusal::OneFileOnly => form.container_mode && form.file_count > 1,
            Refusal::NoCover => !form.container_mode && !form.has_cover && form.file_count > 0,
            _ => false,
        },
{
}

/// Files are revealed as they lie: a container is split into parts where that is asked
/// for, which takes a cover, else unwrapped; another image is read with two bits per
/// channel.
pub proof fn law_reveal_plans(form: RevealForm)
    ensures
        reveal_plan(form) matches Ok(plan) ==> form.has_stego && match plan {
            RevealPlan::Split { max_bytes } => form.split_container && form.has_split_cover
                && max_bytes == form.limit.bytes(),
            RevealPlan::Container => form.is_container && !form.split_container,
            RevealPlan::Hidden { bpc } => bpc == 2 && !form.is_container && !form.split_container,
        },
        reveal_plan(form) matches Err(why) ==> match why {
            Refusal::NoStego => !form.has_stego,
            Refusal::PartsNeedCover => form.has_stego && form.split_container
                && !form.has_split_cover,
            _ => false,
        },
{
}

/// The estimate for a container: 256 bytes more than the file, and with a password 16
/// more for each 4194304 bytes and the end.
pub proof fn law_container_estimate(len: u64)
    requires
        len <= 0xffff_0000_0000_0000,
    ensures
        container_estimate(len, false) == len + 256,
        container_estimate(len, true) == len + 256 + 16 * (len / 4_194_304 + 1),
{
}

/// The hint tells whether hiding fits: the capacity is that of the image, the length that
/// of all that will be hidden, and it fits where the one is not below the other.
pub proof fn law_hint_tells_whether_it_fits(
    img: Raster,
    bpc: u8,
    files: Seq<Entry>,
    lens: Seq<FileLen>,
    encrypted: bool,
)
    requires
        img.width as nat * img.height as nat * 3 * bpc as nat <= u64::MAX,
        usize::MAX == u64::MAX,
        files.len() == lens.len(),
        files.len() >= 1,
        forall|i: int|
            0 <= i < files.len() ==> (#[trigger] lens[i]).name == name_bytes(files[i]).len()
                && lens[i].data == files[i].data.len(),
    ensures
        ({
            let plain = if files.len() == 1 {
                single_payload(files[0]).len()
            } else {
                multi_payload(files).len()
            };
            let hint = hint_of(img.width, img.height, bpc, lens, encrypted);
            &&& hint.capacity == capacity(img, bpc as int)
            &&& plain <= u64::MAX ==> hint.plain == plain && hint.total == counted64(
                hidden_len(plain, encrypted),
            )
            &&& hidden_len(plain, encrypted) <= u64::MAX ==> (hint.fits <==> hint.capacity > 0
                && hidden_len(plain, encrypted) <= capacity(img, bpc as int))
        }),
{
    let plain = if files.len() == 1 {
        single_payload(files[0]).len()
    } else {
        multi_payload(files).len()
    };
    law_capacity(img, bpc);
    law_hint_is_exact(files, lens, counted64(plain), encrypted);
}

/// A log ends with what was said last, on a line of its own. Of up to 10000 bytes nothing
/// is lost, of more the last 5000 characters are kept.
pub proof fn law_log_keeps_the_end(log: Seq<char>, msg: Seq<char>)
    ensures
        ({
            let all = log + msg + seq!['\n'];
            let kept = logged(log, msg);
            &&& encode_utf8(all).len() <= 10_000 ==> kept == all
            &&& all.len() <= 5_000 ==> kept == all
            &&& encode_utf8(all).len() > 10_000 && all.len() > 5_000 ==> kept.len() == 5_000
            &&& kept == all.skip(all.len() - kept.len())
        }),
{
    reveal_strlit("\n");
    assert("\n"@ =~= seq!['\n']);
    let all = log + msg + seq!['\n'];
    assert(all =~= log + msg + "\n"@);
    assert(all.skip(0) =~= all);
}

/// The messages that files are hidden tell all that was asked for.
pub proof fn law_embed_texts(cover: Option<Seq<char>>, out: Seq<char>, s: EmbedSummary)
    ensures
        ({
            let from = match cover {
                Some(text) => text,
                None => "(auto)"@,
            };
            let said = |b: bool|
                if b {
                    "true"@
                } else {
                    "false"@
                };
            &&& embed_start_text(cover, out, s) == "A iniciar embed: cover='"@ + from + "', out='"@
                + out + "', ficheiros="@ + decimal(s.files as nat) + ", bpc="@ + decimal(
                s.bpc as nat,
            ) + ", password_set="@ + said(s.password_set) + ", allow_upscale="@ + said(
                s.allow_upscale,
            ) + ", container_mode="@ + said(s.container_mode) + ", split="@ + said(s.split)
            &&& embed_run_text(cover, out, s) == "Embed em curso → cover='"@ + from + "', out='"@
                + out + "', ficheiros="@ + decimal(s.files as nat) + ", bpc="@ + decimal(
                s.bpc as nat,
            ) + ", container_mode="@ + said(s.container_mode) + ", split="@ + said(s.split)
        }),
        truth_text(true) == "true"@,
        truth_text(false) == "false"@,
{
}

/// What the user is told of each refusal.
pub proof fn law_refusal_texts()
    ensures
        refusal_text(Refusal::NoFiles) == "ERRO: adiciona pelo menos um ficheiro."@,
        refusal_text(Refusal::OneFileOnly) == "ERRO: modo container só suporta 1 ficheiro (por agora)."@,
        refusal_text(Refusal::NoCover) == "ERRO: escolhe imagem de cobertura."@,
        refusal_text(Refusal::NoStego) == "ERRO: escolhe stego."@,
        refusal_text(Refusal::PartsNeedCover) == "Capa obrigatória para separar em partes."@,
        refusal_text(Refusal::NoParts) == "ERRO: adiciona partes PNG."@,
        refusal_text(Refusal::PartsNotGiven) == "Indica partes ou --indir"@,
        refusal_text(Refusal::NoPngParts) == "Sem partes PNG para juntar."@,
{
}

} // verus!
