//! Containers in parts: splitting a file over several containers and joining
//! them again.
use crate::bytes::{append, copy_range};
use crate::container::{
    all_saved, container_cipher_len, container_file, container_of, container_overhead, contains,
    cover_bytes, decode_scaled, decoded_container, decoding_log, decoding_phase, entry_of, is_container,
    largest_plain, law_container_lengths, law_container_round_trip, law_largest_plain,
    law_what_can_be_wrapped, lemma_cipher_len_grows, lemma_container_len,
    max_plain_len_for_limit, read_container, unwrap_container_png_to_dir, unwrap_log, unwrapped,
    whole_wrap_log, wrap_log, wrap_refusal, wrap_scaled, wrapping_log, write_cover_png,
};
use crate::crypto::{
    decrypts_to, lemma_refused, pieces_of, refuses, seal_refusal, text_of, SealedStream, SALT_LEN,
    STREAM_CHUNK,
};
use crate::error::{outcome, Error, ErrorView, Fault};
use crate::number::counted64;
use crate::parts::{
    format_part_file_name, format_part_header_name, law_part_name_round_trip,
    parse_part_header_name, parsed_part_name, part_file_name, part_name,
};
use crate::payload::{entries_of, files_outcome, Entry, FileEntry};
use crate::progress::{
    all_scaled, along, lemma_along_part, lemma_nothing_told, lemma_only_told, lemma_pieces_run,
    lemma_scaled_concat, lemma_steady_rises, lemma_told_concat, only_told, rising, steady, tell,
    told_all, ProgressPhase, ProgressSink, Report, Scale,
};
use crate::raster::is_png_name;
use crate::text::{lemma_padded, lemma_padded_four, padded};
use std::collections::HashSet;
use vstd::prelude::*;
use vstd::utf8::{encode_scalar, encode_utf8};

verus! {

/// The most parts that a file is split into.
pub const MAX_PARTS: u64 = 9_999;

/// Encoding texts one after the other is encoding them together.
proof fn lemma_encode_concat(a: Seq<char>, b: Seq<char>)
    ensures
        encode_utf8(a + b) == encode_utf8(a) + encode_utf8(b),
    decreases a.len(),
{
    if a.len() == 0 {
        assert(a + b =~= b);
        assert(encode_utf8(a) + encode_utf8(b) =~= encode_utf8(b));
    } else {
        lemma_encode_concat(a.drop_first(), b);
        assert((a + b).drop_first() =~= a.drop_first() + b);
        assert(encode_utf8(a + b) =~= encode_utf8(a) + encode_utf8(b));
    }
}

/// ASCII characters take one byte each.
proof fn lemma_encode_ascii(s: Seq<char>)
    requires
        forall|i: int| 0 <= i < s.len() ==> (#[trigger] s[i]) as u32 <= 0x7f,
    ensures
        encode_utf8(s).len() == s.len(),
    decreases s.len(),
{
    if s.len() > 0 {
        let rest = s.drop_first();
        assert forall|i: int| 0 <= i < rest.len() implies (#[trigger] rest[i]) as u32 <= 0x7f by {
            assert(rest[i] == s[i + 1]);
        }
        lemma_encode_ascii(rest);
        assert(s[0] as u32 <= 0x7f);
        assert(encode_scalar(s[0] as u32).len() == 1);
    }
}

/// The names of all parts of a file take the same number of bytes.
proof fn lemma_part_name_len(base: Seq<char>, index: u32, total: u32)
    requires
        index <= 9_999,
        total <= 9_999,
    ensures
        encode_utf8(part_name(base, index, total)).len() == encode_utf8(base).len() + 15,
{
    let tail = ".part"@ + padded(index as nat, 4) + "of"@ + padded(total as nat, 4);
    reveal_strlit(".part");
    reveal_strlit("of");
    lemma_padded(index as nat, 4);
    lemma_padded(total as nat, 4);
    lemma_padded_four(index as nat);
    lemma_padded_four(total as nat);
    assert(part_name(base, index, total) =~= base + tail);
    lemma_encode_concat(base, tail);
    assert forall|i: int| 0 <= i < tail.len() implies (#[trigger] tail[i]) as u32 <= 0x7f by {
        if 5 <= i < 9 {
            assert(tail[i] == padded(index as nat, 4)[i - 5]);
        } else if 11 <= i {
            assert(tail[i] == padded(total as nat, 4)[i - 11]);
        }
    }
    lemma_encode_ascii(tail);
}

/// The salt of a container takes this many bytes.
pub open spec fn salt_len_of(password: Option<Seq<char>>) -> nat {
    if password is Some {
        SALT_LEN as nat
    } else {
        0
    }
}

/// The length of a part without its data.
pub open spec fn part_overhead(
    cover: Seq<u8>,
    base: Seq<char>,
    password: Option<Seq<char>>,
) -> nat {
    container_overhead(cover.len(), encode_utf8(base).len() + 15, salt_len_of(password))
}

/// The largest length of data with which a container stays within a limit.
pub open spec fn plain_limit(limit: nat, overhead: nat, encrypted: bool) -> nat {
    choose|plain: nat| largest_plain(plain, limit, overhead, encrypted)
}

/// There is only one largest length.
proof fn lemma_plain_limit(plain: nat, limit: nat, overhead: nat, encrypted: bool)
    requires
        largest_plain(plain, limit, overhead, encrypted),
    ensures
        plain_limit(limit, overhead, encrypted) == plain,
{
    let other = plain_limit(limit, overhead, encrypted);
    assert(largest_plain(other, limit, overhead, encrypted));
    if other < plain {
        assert(overhead + container_cipher_len(plain, encrypted) > limit);
    } else if plain < other {
        assert(overhead + container_cipher_len(other, encrypted) > limit);
    }
}

/// The number of parts of at most `max` bytes that `len` bytes take.
pub open spec fn part_count(len: nat, max: nat) -> nat {
    if len == 0 {
        1
    } else {
        (len + max - 1) as nat / max
    }
}

/// The data of part `i`, counted from 0.
pub open spec fn chunk(data: Seq<u8>, max: nat, i: int) -> Seq<u8> {
    let from = i * max;
    let to = if from + max < data.len() {
        from + max
    } else {
        data.len() as int
    };
    data.subrange(from, to)
}

/// The largest length that is below a limit.
pub open spec fn below(limit: nat) -> nat {
    if limit == 0 {
        0
    } else {
        (limit - 1) as nat
    }
}

/// Why a file cannot be split into parts, each of which stays below a limit.
pub open spec fn split_refusal(
    cover: Result<Seq<u8>, ErrorView>,
    file: Entry,
    limit: nat,
    password: Option<Seq<char>>,
) -> Option<ErrorView> {
    match cover {
        Err(e) => Some(e),
        Ok(png) => {
            let overhead = part_overhead(png, file.name, password);
            let max = plain_limit(below(limit), overhead, password is Some);
            let count = part_count(file.data.len(), max);
            if below(limit) <= overhead {
                Some(Fault::LimitTooLow)
            } else if password is Some && overhead + container_cipher_len(1, true) > below(limit) {
                Some(Fault::LimitTooLowEncrypted)
            } else if count > MAX_PARTS {
                Some(Fault::TooManyParts)
            } else {
                wrap_refusal(
                    part_name(file.name, 1, count as u32),
                    password,
                    chunk(file.data, max, 0).len(),
                )
            }
        },
    }
}

/// A file is part `i`, counted from 0, of `count` parts of another.
pub open spec fn is_part(
    part: Entry,
    cover: Seq<u8>,
    file: Entry,
    max: nat,
    i: int,
    count: int,
    password: Option<Seq<char>>,
) -> bool {
    &&& part.name == part_file_name(file.name, (i + 1) as u32)
    &&& is_container(
        part.data,
        cover,
        part_name(file.name, (i + 1) as u32, count as u32),
        password,
        chunk(file.data, max, i),
    )
}

/// The parts cover the data, and none is left out.
proof fn lemma_part_count(len: nat, max: nat)
    requires
        max > 0,
    ensures
        part_count(len, max) >= 1,
        len > 0 ==> (part_count(len, max) - 1) * max < len <= part_count(len, max) * max,
        len > 0 ==> part_count(len, max) == len / max + (if len % max == 0 {
            0int
        } else {
            1
        }),
{
    if len > 0 {
        let count = part_count(len, max) as int;
        let (l, m) = (len as int, max as int);
        assert(m * count <= l + m - 1 < m * count + m) by (nonlinear_arith)
            requires
                count == (l + m - 1) / m,
                m > 0,
        ;
        assert((count - 1) * m == m * count - m && count * m == m * count) by (nonlinear_arith);
        assert(count >= 1) by (nonlinear_arith)
            requires
                l + m - 1 < m * count + m,
                l > 0,
                m > 0,
        ;
        let (q, r) = (l / m, l % m);
        assert(l == m * q + r && 0 <= r < m) by (nonlinear_arith)
            requires
                q == l / m,
                r == l % m,
                m > 0,
        ;
        if r == 0 {
            assert(q == count) by (nonlinear_arith)
                requires
                    l == m * q,
                    m * count <= l + m - 1 < m * count + m,
                    m > 0,
            ;
        } else {
            assert(q + 1 == count) by (nonlinear_arith)
                requires
                    l == m * q + r,
                    0 < r < m,
                    m * count <= l + m - 1 < m * count + m,
                    m > 0,
            ;
        }
    }
}

/// Where the data of a part lies.
proof fn lemma_chunk_bounds(len: nat, max: nat, i: int)
    requires
        max > 0,
        0 <= i < part_count(len, max),
    ensures
        0 <= i * max <= len,
        len > 0 ==> i * max < len,
        i + 1 < part_count(len, max) ==> i * max + max < len,
        i + 1 == part_count(len, max) ==> len <= i * max + max,
{
    lemma_part_count(len, max);
    let count = part_count(len, max) as int;
    let m = max as int;
    assert(0 <= i * m) by (nonlinear_arith)
        requires
            0 <= i,
            0 < m,
    ;
    assert((i + 1) * m == i * m + m) by (nonlinear_arith);
    if len > 0 {
        assert(i * m <= (count - 1) * m) by (nonlinear_arith)
            requires
                i <= count - 1,
                0 < m,
        ;
        if i + 1 < count {
            assert((i + 1) * m <= (count - 1) * m) by (nonlinear_arith)
                requires
                    i + 1 <= count - 1,
                    0 < m,
            ;
        }
    } else {
        assert(i == 0);
    }
}

/// Whether splitting can be in this phase.
pub open spec fn splitting_phase(phase: ProgressPhase, encrypted: bool) -> bool {
    match phase {
        ProgressPhase::Prepare | ProgressPhase::Save => true,
        ProgressPhase::Encrypt => encrypted,
        _ => false,
    }
}

/// What splitting `len` bytes reports: how many are in parts, never fewer than
/// before, until all are saved. A file of none is counted as one unit.
pub open spec fn split_log(log: Seq<Report>, len: nat, encrypted: bool) -> bool {
    let total = if len == 0 {
        1
    } else {
        len as u64
    };
    &&& along(log, total, len as u64)
    &&& forall|i: int|
        0 <= i < log.len() ==> splitting_phase((#[trigger] log[i]).phase, encrypted)
    &&& log.len() > 0
    &&& log.last() == (Report { phase: ProgressPhase::Save, done: len as u64, total })
}

/// What making a part reports takes no share back and ends when all is saved.
proof fn lemma_part_rises(len: nat, encrypted: bool)
    requires
        len <= u64::MAX,
    ensures
        rising(whole_wrap_log(len, encrypted)),
        whole_wrap_log(len, encrypted).len() > 0,
        whole_wrap_log(len, encrypted).last() == all_saved(),
        forall|i: int|
            0 <= i < whole_wrap_log(len, encrypted).len() ==> splitting_phase(
                (#[trigger] whole_wrap_log(len, encrypted)[i]).phase,
                encrypted,
            ),
{
    let log = whole_wrap_log(len, encrypted);
    let body = wrapping_log(len, encrypted);
    let n = log.len() as int;
    let (phase, count) = if encrypted {
        (ProgressPhase::Encrypt, len / STREAM_CHUNK as nat)
    } else {
        (ProgressPhase::Prepare, pieces_of(len))
    };
    lemma_pieces_run(phase, STREAM_CHUNK as nat, count, len, len as u64);
    assert(steady(body, phase, len as u64));
    assert(log.last() == all_saved());
    assert forall|i: int| 0 < i < n - 1 implies #[trigger] log[i] == body[i - 1] by {}
    assert forall|i: int, j: int| 0 <= i < j < n implies {
        ||| (#[trigger] log[j]).done >= log[j].total
        ||| (#[trigger] log[i]).done == 0 && log[i].total > 0
        ||| log[i].total == log[j].total && log[i].done <= log[j].done
    } by {
        if 0 < i && j < n - 1 {
            assert(log[i] == body[i - 1] && log[j] == body[j - 1]);
        }
    }
}

/// Splits a file over several containers, each of which stays below the limit.
#[verifier::rlimit(40)]
pub fn wrap_single_file_container_png_parts<P: ProgressSink>(
    cover: Option<&FileEntry>,
    infile: &FileEntry,
    max_png_bytes: u64,
    password: Option<&str>,
    progress: &mut P,
) -> (out: Result<Vec<FileEntry>, Error>)
    ensures
        ({
            let cover = cover_bytes(entry_of(cover), "cover.png"@);
            let secret = text_of(password);
            match split_refusal(cover, infile@, max_png_bytes as nat, secret) {
                Some(e) => files_outcome(out) == Err::<Seq<Entry>, ErrorView>(e),
                None => out is Ok && is_split(
                    entries_of(out->Ok_0@),
                    cover->Ok_0,
                    infile@,
                    max_png_bytes as nat,
                    secret,
                ),
            }
        }),
        cover is None ==> cover_bytes(entry_of(cover), "cover.png"@) is Ok,
        out is Ok ==> exists|log: Seq<Report>|
            told_all(*old(progress), log, *final(progress)) && split_log(
                log,
                infile@.data.len(),
                password is Some,
            ),
        only_told(*old(progress), *final(progress)),
{
    proof {
        lemma_nothing_told(*progress);
    }
    let ghost secret = text_of(password);
    proof {
        reveal_strlit("cover.png");
        assert(is_png_name("cover.png"@));
    }
    let png: Vec<u8> = write_cover_png(cover, "cover.png")?;
    let salt_len: usize = if password.is_some() {
        SALT_LEN
    } else {
        0
    };
    let first: String = format_part_header_name(infile.name.as_str(), 1, 1);
    let name_len: usize = first.as_str().as_bytes().len();
    let ghost overhead = part_overhead(png@, infile@.name, secret);
    proof {
        lemma_part_name_len(infile@.name, 1, 1);
    }
    let limit: u64 = max_png_bytes.saturating_sub(1);
    assert(limit as nat == below(max_png_bytes as nat));
    let max_plain: u64 = max_plain_len_for_limit(
        limit,
        png.len() as u64,
        name_len,
        password.is_some(),
        salt_len,
    )?;
    let ghost max = max_plain as nat;
    proof {
        lemma_plain_limit(max, limit as nat, overhead, secret is Some);
        if secret is Some {
            lemma_cipher_len_grows(1, max, true);
        }
        lemma_part_count(infile@.data.len(), max);
    }
    let len: usize = infile.data.len();
    let count: u64 = if len == 0 {
        1
    } else if len as u64 % max_plain == 0 {
        len as u64 / max_plain
    } else {
        assert(len as u64 / max_plain <= len) by (nonlinear_arith)
            requires
                max_plain > 0,
        ;
        assert(len as u64 / max_plain < u64::MAX) by (nonlinear_arith)
            requires
                len as u64 % max_plain != 0,
                max_plain > 0,
        ;
        len as u64 / max_plain + 1
    };
    assert(count as nat == part_count(infile@.data.len(), max));
    if count > MAX_PARTS {
        return Err(Fault::TooManyParts);
    }
    let ghost file = infile@;
    let mut parts: Vec<FileEntry> = Vec::new();
    let mut idx: u32 = 0;
    let mut from: usize = 0;
    let total: u64 = if len == 0 {
        1
    } else {
        len as u64
    };
    let ghost mut log: Seq<Report> = Seq::empty();
    assert(0 * max == 0) by (nonlinear_arith);
    while (idx as u64) < count
        invariant
            idx <= count <= MAX_PARTS,
            count as nat == part_count(file.data.len(), max),
            max == max_plain,
            max > 0,
            file == infile@,
            len == infile@.data.len(),
            secret == text_of(password),
            overhead == part_overhead(png@, file.name, secret),
            limit < max_png_bytes,
            largest_plain(max, limit as nat, overhead, secret is Some),
            idx < count ==> from == idx * max,
            parts@.len() == idx,
            idx > 0 ==> wrap_refusal(
                part_name(file.name, 1, count as u32),
                secret,
                chunk(file.data, max, 0).len(),
            ) is None,
            split_refusal(
                cover_bytes(entry_of(cover), "cover.png"@),
                file,
                max_png_bytes as nat,
                secret,
            ) == wrap_refusal(
                part_name(file.name, 1, count as u32),
                secret,
                chunk(file.data, max, 0).len(),
            ),
            forall|i: int|
                0 <= i < idx ==> is_part(
                    #[trigger] parts@[i]@,
                    png@,
                    file,
                    max,
                    i,
                    count as int,
                    secret,
                ) && parts@[i]@.data.len() < max_png_bytes,
            from <= len,
            idx == count ==> from == len,
            idx > 0 ==> log.len() > 0 && log.last() == (Report {
                phase: ProgressPhase::Save,
                done: from as u64,
                total,
            }),
            told_all(*old(progress), log, *progress),
            along(log, total, from as u64),
            forall|i: int|
                0 <= i < log.len() ==> splitting_phase((#[trigger] log[i]).phase, secret is Some),
        decreases count - idx,
    {
        proof {
            lemma_chunk_bounds(file.data.len(), max, idx as int);
            lemma_chunk_bounds(file.data.len(), max, 0);
            lemma_part_name_len(file.name, (idx + 1) as u32, count as u32);
            lemma_part_name_len(file.name, 1, count as u32);
            assert(0 * max == 0) by (nonlinear_arith);
            assert((idx + 1) * max == idx * max + max) by (nonlinear_arith);
        }
        let to: usize = if max_plain >= (len - from) as u64 {
            len
        } else {
            from + max_plain as usize
        };
        let plain: Vec<u8> = copy_range(infile.data.as_slice(), from, to);
        let ghost piece = plain@;
        assert(piece =~= chunk(file.data, max, idx as int));
        assert(piece.len() <= chunk(file.data, max, 0).len());
        let header_name: String = format_part_header_name(
            infile.name.as_str(),
            idx + 1,
            count as u32,
        );
        let scale = Scale::Part { base: from as u64, len: (to - from) as u64, total };
        let r = Report { phase: ProgressPhase::Prepare, done: 0, total: 1 };
        let ghost none: Seq<Report> = Seq::empty();
        let ghost start = *progress;
        assert(all_scaled(scale, none) =~= none);
        tell(progress, scale, r, Ghost(start), Ghost(none));
        let ghost mid = *progress;
        let wrapped = wrap_scaled(
            png.as_slice(),
            header_name.as_str(),
            plain,
            password,
            scale,
            progress,
        );
        proof {
            lemma_refusal_shrinks(secret, piece.len(), chunk(file.data, max, 0).len());
            lemma_only_told(start, mid, *progress);
            lemma_only_told(*old(progress), start, *progress);
        }
        let data: Vec<u8> = wrapped?;
        proof {
            let rest = wrap_log(piece.len(), password is Some);
            let part = none.push(r) + rest;
            assert(part =~= whole_wrap_log(piece.len(), password is Some));
            lemma_part_rises(piece.len(), password is Some);
            lemma_scaled_concat(scale, none.push(r), rest);
            lemma_told_concat(
                start,
                all_scaled(scale, none.push(r)),
                mid,
                all_scaled(scale, rest),
                *progress,
            );
            lemma_told_concat(*old(progress), log, start, all_scaled(scale, part), *progress);
            lemma_along_part(log, part, from as u64, (to - from) as u64, total);
            log = log + all_scaled(scale, part);
            lemma_part_len(
                data@,
                png@,
                file.name,
                header_name@,
                secret,
                piece,
                max,
                limit as nat,
            );
        }
        let name: String = format_part_file_name(infile.name.as_str(), idx + 1);
        let part = FileEntry { name, data };
        assert(is_part(part@, png@, file, max, idx as int, count as int, secret));
        parts.push(part);
        idx = idx + 1;
        from = to;
    }
    proof {
        assert forall|i: int| 0 <= i < count implies is_part(
            #[trigger] entries_of(parts@)[i],
            png@,
            file,
            max,
            i,
            count as int,
            secret,
        ) && entries_of(parts@)[i].data.len() < max_png_bytes by {
            assert(entries_of(parts@)[i] == parts@[i]@);
        }
    }
    assert(split_log(log, infile@.data.len(), password is Some));
    Ok(parts)
}

/// Files are the parts of another, and each is below the limit.
pub open spec fn is_split(
    parts: Seq<Entry>,
    cover: Seq<u8>,
    file: Entry,
    limit: nat,
    password: Option<Seq<char>>,
) -> bool {
    let max = plain_limit(below(limit), part_overhead(cover, file.name, password), password is Some);
    &&& max > 0
    &&& parts.len() == part_count(file.data.len(), max) <= MAX_PARTS
    &&& forall|i: int|
        0 <= i < parts.len() ==> is_part(
            #[trigger] parts[i],
            cover,
            file,
            max,
            i,
            parts.len() as int,
            password,
        ) && parts[i].data.len() < limit
}

/// Shorter data is not refused where longer data is not.
proof fn lemma_refusal_shrinks(password: Option<Seq<char>>, less: nat, more: nat)
    requires
        less <= more,
    ensures
        seal_refusal(password, more) is None ==> seal_refusal(password, less) is None,
{
    assert(less / crate::crypto::STREAM_CHUNK as nat <= more / crate::crypto::STREAM_CHUNK as nat);
}

/// A part does not exceed the limit.
proof fn lemma_part_len(
    part: Seq<u8>,
    cover: Seq<u8>,
    base: Seq<char>,
    name: Seq<char>,
    password: Option<Seq<char>>,
    plain: Seq<u8>,
    max: nat,
    limit: nat,
)
    requires
        is_container(part, cover, name, password, plain),
        encode_utf8(name).len() == encode_utf8(base).len() + 15,
        plain.len() <= max,
        largest_plain(max, limit, part_overhead(cover, base, password), password is Some),
    ensures
        part.len() <= limit,
{
    let crypto = choose|crypto: SealedStream| #[trigger]
        decrypts_to(crypto, password, plain) && part == container_file(cover, name, crypto, plain);
    lemma_container_len(cover, name, crypto, password, plain);
    lemma_cipher_len_grows(plain.len(), max, password is Some);
}

/// What the name of a part tells.
#[verifier::ext_equal]
pub struct PartInfo {
    pub base: Seq<char>,
    pub index: u32,
    pub total: u32,
}

/// What the name of a container tells about it as a part, or why it is none.
pub open spec fn part_info(file: Seq<u8>) -> Result<PartInfo, ErrorView> {
    match container_of(file) {
        Err(e) => Err(e),
        Ok((h, _)) => match parsed_part_name(h.name) {
            None => Err(Fault::InvalidPartName { name: h.name }),
            Some((base, index, total)) => Ok(PartInfo { base, index, total }),
        },
    }
}

/// What the names of the first `k` parts tell, or why one of them is none.
pub open spec fn part_infos(parts: Seq<Entry>, k: int) -> Result<Seq<PartInfo>, ErrorView>
    decreases k,
{
    if k <= 0 {
        Ok(Seq::empty())
    } else {
        match part_infos(parts, k - 1) {
            Err(e) => Err(e),
            Ok(infos) => match part_info(parts[k - 1].data) {
                Err(e) => Err(e),
                Ok(info) => Ok(infos.push(info)),
            },
        }
    }
}

/// Why the first `k` parts do not belong together.
pub open spec fn conflict(infos: Seq<PartInfo>, k: int) -> Option<ErrorView>
    decreases k,
{
    if k <= 0 {
        None
    } else {
        match conflict(infos, k - 1) {
            Some(e) => Some(e),
            None => {
                let info = infos[k - 1];
                if info.base != infos[0].base {
                    Some(Fault::DifferentFiles)
                } else if info.total != infos[0].total {
                    Some(Fault::InconsistentTotals)
                } else if exists|j: int| 0 <= j < k - 1 && #[trigger] infos[j].index == info.index {
                    Some(Fault::RepeatedPart { index: info.index })
                } else {
                    None
                }
            },
        }
    }
}

/// Which of the first `k` parts has the smallest index above `above`.
pub open spec fn next_part(infos: Seq<PartInfo>, above: int, k: int) -> Option<int>
    decreases k,
{
    if k <= 0 {
        None
    } else {
        match next_part(infos, above, k - 1) {
            None => if infos[k - 1].index > above {
                Some(k - 1)
            } else {
                None
            },
            Some(p) => if above < infos[k - 1].index < infos[p].index {
                Some(k - 1)
            } else {
                Some(p)
            },
        }
    }
}

/// The next part comes later.
pub proof fn lemma_next_part(infos: Seq<PartInfo>, above: int, k: int)
    requires
        k <= infos.len(),
    ensures
        next_part(infos, above, k) matches Some(p) ==> 0 <= p < k && infos[p].index > above,
    decreases k,
{
    if k > 0 {
        lemma_next_part(infos, above, k - 1);
    }
}

/// The data of a part, or why it cannot be had.
pub open spec fn decoded_part(file: Seq<u8>, password: Option<Seq<char>>) -> Result<
    Seq<u8>,
    ErrorView,
> {
    match container_of(file) {
        Err(e) => Err(e),
        Ok((h, data)) => decoded_container(h, data, password),
    }
}

/// The data of the parts with an index above `above`, in the order of their
/// indices, or why it cannot be had.
pub open spec fn joined_above(
    parts: Seq<Entry>,
    infos: Seq<PartInfo>,
    above: int,
    password: Option<Seq<char>>,
) -> Result<Seq<u8>, ErrorView>
    decreases u32::MAX - above,
{
    match next_part(infos, above, infos.len() as int) {
        None => Ok(Seq::empty()),
        Some(p) => {
            proof {
                lemma_next_part(infos, above, infos.len() as int);
            }
            match decoded_part(parts[p].data, password) {
                Err(e) => Err(e),
                Ok(plain) => match joined_above(parts, infos, infos[p].index as int, password) {
                    Err(e) => Err(e),
                    Ok(rest) => Ok(plain + rest),
                },
            }
        },
    }
}

/// The file that parts are joined to, or why they are not.
pub open spec fn joined(parts: Seq<Entry>, password: Option<Seq<char>>) -> Result<
    Seq<u8>,
    ErrorView,
> {
    let n = parts.len() as int;
    if n == 0 {
        Err(Fault::NoParts)
    } else {
        match part_infos(parts, n) {
            Err(e) => Err(e),
            Ok(infos) => match conflict(infos, n) {
                Some(e) => Err(e),
                None => if n != infos[0].total {
                    Err(Fault::MissingParts { total: infos[0].total, received: n as usize })
                } else {
                    joined_above(parts, infos, 0, password)
                },
            },
        }
    }
}

/// What the name of a part tells, as it is read.
struct PartRecord {
    base: String,
    index: u32,
    total: u32,
    plain_len: u64,
}

impl View for PartRecord {
    type V = PartInfo;

    closed spec fn view(&self) -> PartInfo {
        PartInfo { base: self.base@, index: self.index, total: self.total }
    }
}

/// The mathematical views of records.
closed spec fn infos_of(records: Seq<PartRecord>) -> Seq<PartInfo> {
    records.map_values(|r: PartRecord| r@)
}

/// A container states that it holds so many bytes.
spec fn states(file: Seq<u8>, plain_len: u64) -> bool {
    container_of(file) is Ok && container_of(file)->Ok_0.0.plain_len == plain_len
}

/// Parts state that they hold as many bytes as their records say.
spec fn all_state(parts: Seq<FileEntry>, records: Seq<PartRecord>) -> bool {
    forall|i: int|
        0 <= i < records.len() ==> #[trigger] states(parts[i].data@, records[i].plain_len)
}

/// Reads what the name of a container tells about it as a part.
fn read_part_info(file: &[u8]) -> (out: Result<PartRecord, Error>)
    ensures
        outcome(out) == part_info(file@),
        out matches Ok(record) ==> states(file@, record.plain_len),
{
    let (header, _data) = read_container(file)?;
    match parse_part_header_name(header.name.as_str()) {
        None => Err(Fault::InvalidPartName { name: header.name }),
        Some((base, index, total)) => Ok(
            PartRecord { base, index, total, plain_len: header.plain_len },
        ),
    }
}

/// Reads what the names of all parts tell.
fn read_part_infos(parts: &[FileEntry]) -> (out: Result<Vec<PartRecord>, Error>)
    ensures
        match out {
            Ok(records) => part_infos(entries_of(parts@), parts@.len() as int) == Ok::<
                Seq<PartInfo>,
                ErrorView,
            >(infos_of(records@)),
            Err(e) => part_infos(entries_of(parts@), parts@.len() as int) == Err::<
                Seq<PartInfo>,
                ErrorView,
            >(e@),
        },
        out matches Ok(records) ==> all_state(parts@, records@),
{
    let ghost all = entries_of(parts@);
    let mut records: Vec<PartRecord> = Vec::new();
    let mut k: usize = 0;
    assert(infos_of(records@) =~= Seq::<PartInfo>::empty());
    while k < parts.len()
        invariant
            k <= parts@.len(),
            all == entries_of(parts@),
            part_infos(all, k as int) == Ok::<Seq<PartInfo>, ErrorView>(infos_of(records@)),
            records@.len() == k,
            all_state(parts@, records@),
        decreases parts.len() - k,
    {
        let part: &FileEntry = &parts[k];
        assert(all[k as int] == part@);
        let read = read_part_info(part.data.as_slice());
        proof {
            if read is Err {
                lemma_infos_fail(all, k + 1, parts@.len() as int);
            }
        }
        let record: PartRecord = read?;
        let ghost before = records@;
        records.push(record);
        assert(infos_of(records@) =~= infos_of(before).push(record@));
        k = k + 1;
    }
    Ok(records)
}

/// A part that cannot be read fails all that follow it.
proof fn lemma_infos_fail(parts: Seq<Entry>, k: int, n: int)
    requires
        k <= n,
        part_infos(parts, k) is Err,
    ensures
        part_infos(parts, n) == part_infos(parts, k),
    decreases n - k,
{
    if k < n {
        lemma_infos_fail(parts, k, n - 1);
    }
}

/// Parts that do not belong together do not with others either.
proof fn lemma_conflict_stays(infos: Seq<PartInfo>, k: int, n: int)
    requires
        k <= n,
        conflict(infos, k) is Some,
    ensures
        conflict(infos, n) == conflict(infos, k),
    decreases n - k,
{
    if k < n {
        lemma_conflict_stays(infos, k, n - 1);
    }
}

/// Tells why parts do not belong together.
fn find_conflict(records: &Vec<PartRecord>) -> (out: Option<Error>)
    ensures
        match out {
            Some(e) => conflict(infos_of(records@), records@.len() as int) == Some(e@),
            None => conflict(infos_of(records@), records@.len() as int) is None,
        },
{
    broadcast use vstd::std_specs::hash::group_hash_axioms;

    let ghost infos = infos_of(records@);
    let mut seen: HashSet<u32> = HashSet::new();
    let mut k: usize = 0;
    while k < records.len()
        invariant
            k <= records@.len(),
            infos == infos_of(records@),
            conflict(infos, k as int) is None,
            forall|index: u32|
                seen@.contains(index) <==> exists|j: int|
                    0 <= j < k && #[trigger] infos[j].index == index,
        decreases records.len() - k,
    {
        let record: &PartRecord = &records[k];
        let first: &PartRecord = &records[0];
        assert(infos[k as int] == record@);
        assert(infos[0] == first@);
        let same_base: bool = record.base == first.base;
        let fresh: bool = !seen.contains(&record.index);
        proof {
            if !same_base || record.total != first.total || !fresh {
                assert(conflict(infos, k + 1) is Some);
                lemma_conflict_stays(infos, k + 1, records@.len() as int);
            }
        }
        if !same_base {
            return Some(Fault::DifferentFiles);
        }
        if record.total != first.total {
            return Some(Fault::InconsistentTotals);
        }
        if !fresh {
            return Some(Fault::RepeatedPart { index: record.index });
        }
        let ghost before = seen@;
        seen.insert(record.index);
        proof {
            assert forall|index: u32|
                seen@.contains(index) <==> exists|j: int|
                    0 <= j < k + 1 && #[trigger] infos[j].index == index by {
                if before.contains(index) {
                    let j = choose|j: int| 0 <= j < k && #[trigger] infos[j].index == index;
                    assert(infos[j].index == index);
                }
                if index == record.index {
                    assert(infos[k as int].index == index);
                }
            }
        }
        k = k + 1;
    }
    None
}

/// Which part has the smallest index above `above`.
fn find_next(records: &Vec<PartRecord>, above: u32) -> (out: Option<usize>)
    ensures
        match out {
            Some(p) => next_part(infos_of(records@), above as int, records@.len() as int) == Some(
                p as int,
            ) && p < records@.len(),
            None => next_part(infos_of(records@), above as int, records@.len() as int) is None,
        },
{
    let ghost infos = infos_of(records@);
    let mut best: Option<usize> = None;
    let mut k: usize = 0;
    while k < records.len()
        invariant
            k <= records@.len(),
            infos == infos_of(records@),
            match best {
                Some(p) => next_part(infos, above as int, k as int) == Some(p as int) && p < k,
                None => next_part(infos, above as int, k as int) is None,
            },
        decreases records.len() - k,
    {
        let record: &PartRecord = &records[k];
        assert(infos[k as int] == record@);
        match best {
            None => {
                if record.index > above {
                    best = Some(k);
                }
            },
            Some(p) => {
                assert(infos[p as int] == records@[p as int]@);
                if record.index > above && record.index < records[p].index {
                    best = Some(k);
                }
            },
        }
        k = k + 1;
    }
    best
}

/// The number of bytes that the parts with an index above `above` state.
spec fn stated_above(records: Seq<PartRecord>, above: int) -> nat
    decreases u32::MAX - above,
{
    let infos = infos_of(records);
    match next_part(infos, above, infos.len() as int) {
        None => 0,
        Some(p) => {
            proof {
                lemma_next_part(infos, above, infos.len() as int);
            }
            records[p].plain_len as nat + stated_above(records, infos[p].index as int)
        },
    }
}

/// The number of bytes that the parts state, as far as it can be counted.
fn stated_len(records: &Vec<PartRecord>) -> (out: u64)
    ensures
        out == counted64(stated_above(records@, 0)),
{
    let ghost infos = infos_of(records@);
    let ghost mut sum: nat = 0;
    let mut total: u64 = 0;
    let mut above: u32 = 0;
    loop
        invariant
            infos == infos_of(records@),
            total == counted64(sum),
            stated_above(records@, 0) == sum + stated_above(records@, above as int),
        decreases u32::MAX - above,
    {
        match find_next(records, above) {
            None => {
                return total;
            },
            Some(p) => {
                proof {
                    lemma_next_part(infos, above as int, infos.len() as int);
                    assert(infos[p as int] == records@[p as int]@);
                    sum = sum + records@[p as int].plain_len as nat;
                }
                total = total.saturating_add(records[p].plain_len);
                above = records[p].index;
            },
        }
    }
}

/// What joining `len` bytes reports: how many are there, never fewer than before,
/// until all are.
pub open spec fn join_log(log: Seq<Report>, len: nat) -> bool {
    &&& along(log, len as u64, len as u64)
    &&& forall|i: int|
        0 <= i < log.len() ==> (#[trigger] log[i]).phase == ProgressPhase::Decrypt || log[i].phase
            == ProgressPhase::Parse
    &&& if log.len() == 0 {
        len == 0
    } else {
        log.last().done == len
    }
}

/// Data that is there, then more where it can be had.
spec fn after(front: Seq<u8>, more: Result<Seq<u8>, ErrorView>) -> Result<Seq<u8>, ErrorView> {
    match more {
        Ok(bytes) => Ok(front + bytes),
        Err(e) => Err(e),
    }
}

/// Joins parts, in any order, to the file that was split.
pub fn join_container_png_parts_to_file<P: ProgressSink>(
    parts: &[FileEntry],
    password: Option<&str>,
    progress: &mut P,
) -> (out: Result<Vec<u8>, Error>)
    ensures
        outcome(out) == joined(entries_of(parts@), text_of(password)),
        out is Ok ==> exists|log: Seq<Report>|
            told_all(*old(progress), log, *final(progress)) && join_log(log, out->Ok_0@.len()),
        only_told(*old(progress), *final(progress)),
{
    proof {
        lemma_nothing_told(*progress);
    }
    if parts.len() == 0 {
        return Err(Fault::NoParts);
    }
    let ghost all = entries_of(parts@);
    let ghost secret = text_of(password);
    let records: Vec<PartRecord> = read_part_infos(parts)?;
    let ghost infos = infos_of(records@);
    proof {
        lemma_infos_len(all, parts@.len() as int);
        assert(infos[0] == records@[0]@);
    }
    match find_conflict(&records) {
        Some(e) => {
            return Err(e);
        },
        None => {},
    }
    let total: u32 = records[0].total;
    if records.len() as u64 != total as u64 {
        return Err(Fault::MissingParts { total, received: records.len() });
    }
    let mut out: Vec<u8> = Vec::new();
    let mut above: u32 = 0;
    let total_plain: u64 = stated_len(&records);
    let ghost stated = stated_above(records@, 0);
    let ghost mut log: Seq<Report> = Seq::empty();
    let ghost whole = joined_above(all, infos, 0, secret);
    proof {
        if let Ok(bytes) = whole {
            assert(Seq::<u8>::empty() + bytes =~= bytes);
        }
    }
    loop
        invariant
            all == entries_of(parts@),
            secret == text_of(password),
            infos == infos_of(records@),
            records@.len() == parts@.len(),
            joined(all, secret) == whole,
            whole == after(out@, joined_above(all, infos, above as int, secret)),
            all_state(parts@, records@),
            total_plain == counted64(stated),
            stated == out@.len() + stated_above(records@, above as int),
            out@.len() <= usize::MAX,
            told_all(*old(progress), log, *progress),
            along(log, total_plain, out@.len() as u64),
            forall|i: int|
                0 <= i < log.len() ==> (#[trigger] log[i]).phase == ProgressPhase::Decrypt
                    || log[i].phase == ProgressPhase::Parse,
            if log.len() == 0 {
                out@.len() == 0
            } else {
                log.last().done == out@.len()
            },
        decreases u32::MAX - above,
    {
        match find_next(&records, above) {
            None => {
                assert(out@ + Seq::<u8>::empty() =~= out@);
                assert(join_log(log, out@.len()));
                return Ok(out);
            },
            Some(p) => {
                proof {
                    assert(states(parts@[p as int].data@, records@[p as int].plain_len));
                    lemma_next_part(infos, above as int, infos.len() as int);
                    assert(infos[p as int] == records@[p as int]@);
                }
                let part: &FileEntry = &parts[p];
                assert(all[p as int] == part@);
                let (header, data) = read_container(part.data.as_slice())?;
                let scale = Scale::Part {
                    base: out.len() as u64,
                    len: header.plain_len,
                    total: total_plain,
                };
                let ghost mid = *progress;
                let decoded = decode_scaled(&header, data.as_slice(), password, scale, progress);
                proof {
                    lemma_only_told(*old(progress), mid, *progress);
                }
                let plain: Vec<u8> = decoded?;
                let ghost before = out@;
                append(&mut out, plain.as_slice());
                assert(out.len() == out@.len());
                proof {
                    let phase = decoding_phase(header.encrypted);
                    let part = decoding_log(header.encrypted, data@.len(), header.plain_len);
                    lemma_told_concat(*old(progress), log, mid, all_scaled(scale, part), *progress);
                    lemma_steady_rises(part, phase, header.plain_len);
                    lemma_along_part(
                        log,
                        part,
                        before.len() as u64,
                        header.plain_len,
                        total_plain,
                    );
                    log = log + all_scaled(scale, part);
                    if let Ok(rest) = joined_above(all, infos, infos[p as int].index as int, secret) {
                        assert(before + (plain@ + rest) =~= out@ + rest);
                    }
                }
                above = records[p].index;
            },
        }
    }
}

/// There are as many infos as parts.
proof fn lemma_infos_len(parts: Seq<Entry>, k: int)
    requires
        0 <= k,
    ensures
        part_infos(parts, k) matches Ok(infos) ==> infos.len() == k,
    decreases k,
{
    if k > 0 {
        lemma_infos_len(parts, k - 1);
    }
}

/// Takes the file out of a container and splits it over several.
pub fn split_container_png_to_parts<P: ProgressSink>(
    stego: &[u8],
    cover: Option<&FileEntry>,
    max_png_bytes: u64,
    password: Option<&str>,
    progress: &mut P,
) -> (out: Result<Vec<FileEntry>, Error>)
    ensures
        match unwrapped(stego@, text_of(password)) {
            Err(e) => files_outcome(out) == Err::<Seq<Entry>, ErrorView>(e),
            Ok(file) => {
                let cover = cover_bytes(entry_of(cover), "cover.png"@);
                let secret = text_of(password);
                match split_refusal(cover, file, max_png_bytes as nat, secret) {
                    Some(e) => files_outcome(out) == Err::<Seq<Entry>, ErrorView>(e),
                    None => out is Ok && is_split(
                        entries_of(out->Ok_0@),
                        cover->Ok_0,
                        file,
                        max_png_bytes as nat,
                        secret,
                    ),
                }
            },
        },
        out is Ok ==> exists|splitting: Seq<Report>|
            #![trigger split_log(
                splitting,
                unwrapped(stego@, text_of(password))->Ok_0.data.len(),
                password is Some,
            )]
            told_all(
                *old(progress),
                unwrap_log(container_of(stego@)->Ok_0.0, container_of(stego@)->Ok_0.1) + splitting,
                *final(progress),
            ) && split_log(
                splitting,
                unwrapped(stego@, text_of(password))->Ok_0.data.len(),
                password is Some,
            ),
        only_told(*old(progress), *final(progress)),
{
    proof {
        lemma_nothing_told(*progress);
    }
    let ghost start = *progress;
    let file: FileEntry = unwrap_container_png_to_dir(stego, password, progress)?;
    let ghost mid = *progress;
    let out = wrap_single_file_container_png_parts(
        cover,
        &file,
        max_png_bytes,
        password,
        progress,
    );
    proof {
        lemma_only_told(start, mid, *progress);
        if out is Ok {
            let (h, data) = container_of(stego@)->Ok_0;
            let unwrapping = unwrap_log(h, data);
            let splitting = choose|log: Seq<Report>|
                told_all(mid, log, *progress) && split_log(
                    log,
                    file@.data.len(),
                    password is Some,
                );
            lemma_told_concat(start, unwrapping, mid, splitting, *progress);
        }
    }
    out
}

/// Parts have an index above 0, so that there is a first one.
proof fn lemma_first_part(parts: Seq<Entry>, k: int)
    requires
        0 <= k <= parts.len(),
        part_infos(parts, k) is Ok,
    ensures
        part_infos(parts, k)->Ok_0.len() == k,
        k > 0 ==> next_part(part_infos(parts, k)->Ok_0, 0, k) is Some,
    decreases k,
{
    if k > 0 {
        lemma_first_part(parts, k - 1);
        let infos = part_infos(parts, k)->Ok_0;
        assert(infos[k - 1] == part_info(parts[k - 1].data)->Ok_0);
    }
}

/// Where the cipher refuses the data of every part under the key that a password
/// gives, parts that belong together are not joined, and the answer says so.
pub proof fn law_join_refuses_password(parts: Seq<Entry>, password: Seq<char>)
    requires
        parts.len() > 0,
        part_infos(parts, parts.len() as int) matches Ok(infos) && conflict(
            infos,
            parts.len() as int,
        ) is None && parts.len() == infos[0].total,
        forall|i: int|
            0 <= i < parts.len() ==> refused_part((#[trigger] parts[i]).data, password),
    ensures
        joined(parts, Some(password)) == Err::<Seq<u8>, ErrorView>(Fault::NotAuthentic),
{
    let n = parts.len() as int;
    let infos = part_infos(parts, n)->Ok_0;
    lemma_first_part(parts, n);
    lemma_next_part(infos, 0, n);
    let p = next_part(infos, 0, n)->Some_0;
    assert(refused_part(parts[p].data, password));
    let (h, data) = container_of(parts[p].data)->Ok_0;
    lemma_refused(password, h.salt, h.nonce, data);
}

/// Whether the cipher refuses the data of a container under the key that a password
/// gives.
pub open spec fn refused_part(file: Seq<u8>, password: Seq<char>) -> bool {
    container_of(file) matches Ok((h, data)) && h.encrypted && refuses(
        password,
        h.salt,
        h.nonce,
        data,
    )
}

/// `order` names each of the first `n` numbers once.
pub open spec fn is_order(order: Seq<int>, n: int) -> bool {
    &&& order.len() == n
    &&& forall|k: int| 0 <= k < n ==> 0 <= #[trigger] order[k] < n
    &&& forall|j: int, k: int| 0 <= j < k < n ==> #[trigger] order[j] != #[trigger] order[k]
    &&& forall|i: int| 0 <= i < n ==> #[trigger] order.contains(i)
}

/// The parts in another order.
pub open spec fn shuffled(parts: Seq<Entry>, order: Seq<int>) -> Seq<Entry> {
    Seq::new(order.len(), |k: int| parts[order[k]])
}

/// What the names of shuffled parts tell.
spec fn shuffled_infos(base: Seq<char>, order: Seq<int>) -> Seq<PartInfo> {
    Seq::new(
        order.len(),
        |k: int|
            PartInfo { base, index: (order[k] + 1) as u32, total: order.len() as u32 },
    )
}

/// The infos of the first `k` shuffled parts.
proof fn lemma_shuffled_infos(parts: Seq<Entry>, base: Seq<char>, order: Seq<int>, k: int)
    requires
        0 <= k <= order.len(),
        forall|i: int|
            0 <= i < order.len() ==> part_info((#[trigger] shuffled(parts, order)[i]).data) == Ok::<
                PartInfo,
                ErrorView,
            >(shuffled_infos(base, order)[i]),
    ensures
        part_infos(shuffled(parts, order), k) == Ok::<Seq<PartInfo>, ErrorView>(
            shuffled_infos(base, order).take(k),
        ),
    decreases k,
{
    let infos = shuffled_infos(base, order);
    if k > 0 {
        lemma_shuffled_infos(parts, base, order, k - 1);
        assert(infos.take(k) =~= infos.take(k - 1).push(infos[k - 1]));
        assert(part_info(shuffled(parts, order)[k - 1].data) == Ok::<PartInfo, ErrorView>(
            infos[k - 1],
        ));
    } else {
        assert(infos.take(0) =~= Seq::<PartInfo>::empty());
    }
}

/// Shuffled parts belong together.
proof fn lemma_no_conflict(base: Seq<char>, order: Seq<int>, k: int)
    requires
        is_order(order, order.len() as int),
        order.len() <= u32::MAX,
        0 <= k <= order.len(),
    ensures
        conflict(shuffled_infos(base, order), k) is None,
    decreases k,
{
    if k > 0 {
        lemma_no_conflict(base, order, k - 1);
        let infos = shuffled_infos(base, order);
        assert forall|j: int| 0 <= j < k - 1 implies #[trigger] infos[j].index != infos[k
            - 1].index by {
            assert(order[j] != order[k - 1]);
        }
    }
}

/// Of the first `m` shuffled parts, the one with the index after `above` comes
/// next once it is among them.
proof fn lemma_next_shuffled(base: Seq<char>, order: Seq<int>, above: int, k: int, m: int)
    requires
        is_order(order, order.len() as int),
        order.len() <= u32::MAX,
        0 <= above < order.len(),
        0 <= k < order.len(),
        order[k] == above,
        0 <= m <= order.len(),
    ensures
        ({
            let next = next_part(shuffled_infos(base, order), above, m);
            if k < m {
                next == Some(k)
            } else {
                next matches Some(p) ==> 0 <= p < m && shuffled_infos(base, order)[p].index > above
                    + 1
            }
        }),
    decreases m,
{
    let infos = shuffled_infos(base, order);
    if m > 0 {
        lemma_next_shuffled(base, order, above, k, m - 1);
        assert(infos[k].index == above + 1);
        if m - 1 != k {
            assert(order[m - 1] != order[k]);
            assert(infos[m - 1].index != above + 1);
        }
    }
}

/// No part follows the last one.
proof fn lemma_none_above(base: Seq<char>, order: Seq<int>, above: int, m: int)
    requires
        is_order(order, order.len() as int),
        order.len() <= u32::MAX,
        above >= order.len(),
        0 <= m <= order.len(),
    ensures
        next_part(shuffled_infos(base, order), above, m) is None,
    decreases m,
{
    if m > 0 {
        lemma_none_above(base, order, above, m - 1);
    }
}

/// The data of parts from one on.
pub open spec fn pieces_from(pieces: Seq<Seq<u8>>, i: int) -> Seq<u8>
    decreases pieces.len() - i,
{
    if i < 0 || i >= pieces.len() {
        Seq::empty()
    } else {
        pieces[i] + pieces_from(pieces, i + 1)
    }
}

/// Files are the parts of one that is named `base`, with these pieces of data.
pub open spec fn are_parts(
    parts: Seq<Entry>,
    base: Seq<char>,
    pieces: Seq<Seq<u8>>,
    password: Option<Seq<char>>,
) -> bool {
    &&& parts.len() == pieces.len()
    &&& 1 <= parts.len() <= u32::MAX
    &&& forall|i: int|
        #![trigger parts[i]]
        0 <= i < parts.len() ==> {
            &&& decoded_part(parts[i].data, password) == Ok::<Seq<u8>, ErrorView>(pieces[i])
            &&& part_info(parts[i].data) == Ok::<PartInfo, ErrorView>(
                PartInfo { base, index: (i + 1) as u32, total: parts.len() as u32 },
            )
        }
}

/// Joining shuffled parts from one on gives the data from there on.
proof fn lemma_joined_above(
    parts: Seq<Entry>,
    base: Seq<char>,
    pieces: Seq<Seq<u8>>,
    order: Seq<int>,
    above: int,
    password: Option<Seq<char>>,
)
    requires
        is_order(order, parts.len() as int),
        are_parts(parts, base, pieces, password),
        0 <= above <= order.len(),
    ensures
        joined_above(shuffled(parts, order), shuffled_infos(base, order), above, password) == Ok::<
            Seq<u8>,
            ErrorView,
        >(pieces_from(pieces, above)),
    decreases order.len() - above,
{
    let infos = shuffled_infos(base, order);
    let n = order.len() as int;
    if above == n {
        lemma_none_above(base, order, above, n);
    } else {
        assert(order.contains(above));
        let k = choose|k: int| 0 <= k < order.len() && order[k] == above;
        lemma_next_shuffled(base, order, above, k, n);
        lemma_joined_above(parts, base, pieces, order, above + 1, password);
        assert(shuffled(parts, order)[k] == parts[above]);
        assert(infos[k].index as int == above + 1);
    }
}

/// Joining the parts of a file, of whatever sizes and in whatever order, gives the
/// pieces of data one after the other.
pub proof fn law_join_of_parts(
    parts: Seq<Entry>,
    base: Seq<char>,
    pieces: Seq<Seq<u8>>,
    order: Seq<int>,
    password: Option<Seq<char>>,
)
    requires
        are_parts(parts, base, pieces, password),
        is_order(order, parts.len() as int),
    ensures
        joined(shuffled(parts, order), password) == Ok::<Seq<u8>, ErrorView>(
            pieces_from(pieces, 0),
        ),
{
    let n = parts.len() as int;
    let infos = shuffled_infos(base, order);
    assert forall|k: int| 0 <= k < order.len() implies part_info(
        (#[trigger] shuffled(parts, order)[k]).data,
    ) == Ok::<PartInfo, ErrorView>(infos[k]) by {
        assert(shuffled(parts, order)[k] == parts[order[k]]);
    }
    lemma_shuffled_infos(parts, base, order, n);
    assert(infos.take(n) =~= infos);
    lemma_no_conflict(base, order, n);
    lemma_joined_above(parts, base, pieces, order, 0, password);
}

/// The data of the parts of a split file from one on is the file's.
proof fn lemma_chunks_from(data: Seq<u8>, max: nat, pieces: Seq<Seq<u8>>, i: int)
    requires
        max > 0,
        pieces.len() == part_count(data.len(), max),
        forall|j: int| 0 <= j < pieces.len() ==> #[trigger] pieces[j] == chunk(data, max, j),
        0 <= i < pieces.len(),
    ensures
        pieces_from(pieces, i) == data.skip(i * max),
    decreases pieces.len() - i,
{
    lemma_chunk_bounds(data.len(), max, i);
    assert((i + 1) * max == i * max + max) by (nonlinear_arith);
    if i + 1 < pieces.len() {
        lemma_chunks_from(data, max, pieces, i + 1);
        assert(chunk(data, max, i) + data.skip((i + 1) * max) =~= data.skip(i * max));
    } else {
        assert(pieces_from(pieces, i + 1) =~= Seq::<u8>::empty());
        assert(chunk(data, max, i) + Seq::<u8>::empty() =~= data.skip(i * max));
    }
}

/// Joining the parts of a split file, in whatever order, gives back its content.
/// An empty file that is not encrypted, and a name that leaves no room for the
/// number of the part in 4096 bytes, cannot be read back.
#[verifier::rlimit(40)]
pub proof fn law_join_of_split(
    parts: Seq<Entry>,
    order: Seq<int>,
    cover: Seq<u8>,
    file: Entry,
    limit: u64,
    password: Option<Seq<char>>,
)
    requires
        is_split(parts, cover, file, limit as nat, password),
        is_order(order, parts.len() as int),
        password is Some || file.data.len() > 0,
        encode_utf8(file.name).len() + 15 <= 4096,
    ensures
        joined(shuffled(parts, order), password) == Ok::<Seq<u8>, ErrorView>(file.data),
{
    let max = plain_limit(
        below(limit as nat),
        part_overhead(cover, file.name, password),
        password is Some,
    );
    let n = parts.len() as int;
    let pieces = Seq::new(parts.len(), |i: int| chunk(file.data, max, i));
    lemma_part_count(file.data.len(), max);
    assert forall|i: int| 0 <= i < n implies decoded_part((#[trigger] parts[i]).data, password)
        == Ok::<Seq<u8>, ErrorView>(pieces[i]) && part_info(parts[i].data) == Ok::<
        PartInfo,
        ErrorView,
    >(PartInfo { base: file.name, index: (i + 1) as u32, total: n as u32 }) by {
        let name = part_name(file.name, (i + 1) as u32, n as u32);
        let plain = chunk(file.data, max, i);
        let crypto = choose|crypto: SealedStream| #[trigger]
            decrypts_to(crypto, password, plain) && parts[i].data == container_file(
                cover,
                name,
                crypto,
                plain,
            );
        lemma_part_name_len(file.name, (i + 1) as u32, n as u32);
        lemma_chunk_bounds(file.data.len(), max, i);
        law_part_name_round_trip(file.name, (i + 1) as u32, n as u32);
        law_container_round_trip(cover, name, crypto, password, plain);
    }
    law_join_of_parts(parts, file.name, pieces, order, password);
    lemma_chunks_from(file.data, max, pieces, 0);
    assert(0 * max == 0) by (nonlinear_arith);
    assert(file.data.skip(0) =~= file.data);
}

/// Where some data stays within a limit there is a largest length that does.
proof fn lemma_largest_exists(plain: nat, limit: nat, overhead: nat, encrypted: bool)
    requires
        overhead + container_cipher_len(plain, encrypted) <= limit,
    ensures
        largest_plain(plain_limit(limit, overhead, encrypted), limit, overhead, encrypted),
        plain <= plain_limit(limit, overhead, encrypted),
    decreases limit - plain,
{
    if overhead + container_cipher_len(plain + 1, encrypted) <= limit {
        lemma_largest_exists(plain + 1, limit, overhead, encrypted);
    } else {
        law_largest_plain(plain, limit, overhead, encrypted);
        lemma_plain_limit(plain, limit, overhead, encrypted);
    }
}

/// The length of a part without its data: the cover, the name with 15 characters more, 82
/// bytes, and 22 bytes of salt with a password.
proof fn lemma_part_overhead(cover: Seq<u8>, base: Seq<char>, password: Option<Seq<char>>)
    ensures
        part_overhead(cover, base, password) == cover.len() + encode_utf8(base).len() + 97 + (
        if password is Some {
            22int
        } else {
            0
        }),
{
    law_container_lengths(0, cover.len(), encode_utf8(base).len() + 15, salt_len_of(password));
}

/// The length of part `i` is that of its data.
proof fn lemma_part_sizes(
    part: Entry,
    cover: Seq<u8>,
    file: Entry,
    max: nat,
    i: int,
    count: int,
    password: Option<Seq<char>>,
)
    requires
        is_part(part, cover, file, max, i, count, password),
        0 <= i < count <= 9_999,
    ensures
        part.data.len() == part_overhead(cover, file.name, password) + container_cipher_len(
            chunk(file.data, max, i).len(),
            password is Some,
        ),
{
    let name = part_name(file.name, (i + 1) as u32, count as u32);
    let plain = chunk(file.data, max, i);
    let crypto = choose|crypto: SealedStream| #[trigger]
        decrypts_to(crypto, password, plain) && part.data == container_file(
            cover,
            name,
            crypto,
            plain,
        );
    lemma_container_len(cover, name, crypto, password, plain);
    lemma_part_name_len(file.name, (i + 1) as u32, count as u32);
}

/// The largest length of data in the parts of a split file is that below the limit.
proof fn lemma_split_is_largest(
    parts: Seq<Entry>,
    cover: Seq<u8>,
    file: Entry,
    limit: nat,
    password: Option<Seq<char>>,
)
    requires
        is_split(parts, cover, file, limit, password),
    ensures
        limit > 0,
        ({
            let overhead = part_overhead(cover, file.name, password);
            let max = plain_limit((limit - 1) as nat, overhead, password is Some);
            &&& largest_plain(max, (limit - 1) as nat, overhead, password is Some)
            &&& max == plain_limit(below(limit), overhead, password is Some)
        }),
{
    let overhead = part_overhead(cover, file.name, password);
    let max = plain_limit(below(limit), overhead, password is Some);
    lemma_part_count(file.data.len(), max);
    assert(is_part(parts[0], cover, file, max, 0, parts.len() as int, password));
    lemma_part_sizes(parts[0], cover, file, max, 0, parts.len() as int, password);
    lemma_largest_exists(
        chunk(file.data, max, 0).len(),
        (limit - 1) as nat,
        overhead,
        password is Some,
    );
}

/// The pieces of data from one on, put together.
proof fn lemma_pieces_flatten(pieces: Seq<Seq<u8>>, i: int)
    requires
        0 <= i <= pieces.len(),
    ensures
        pieces_from(pieces, i) == pieces.skip(i).flatten(),
    decreases pieces.len() - i,
{
    if i < pieces.len() {
        lemma_pieces_flatten(pieces, i + 1);
        assert(pieces.skip(i).drop_first() =~= pieces.skip(i + 1));
        assert(pieces.skip(i).first() == pieces[i]);
    } else {
        assert(pieces.skip(i) =~= Seq::<Seq<u8>>::empty());
    }
}

/// Splitting uses the limit that was asked for. The pieces of data in the parts make up
/// the file; each part is a container of the cover under its name, is shorter than the
/// limit, and but for the last would reach it with one more byte of data, which takes 17
/// bytes where it fills an encrypted segment, else one.
#[verifier::rlimit(40)]
pub proof fn law_split_fills_the_parts(
    parts: Seq<Entry>,
    cover: Seq<u8>,
    file: Entry,
    limit: nat,
    password: Option<Seq<char>>,
) -> (pieces: Seq<Seq<u8>>)
    requires
        is_split(parts, cover, file, limit, password),
    ensures
        1 <= parts.len() <= 9_999,
        pieces.len() == parts.len(),
        pieces.flatten() == file.data,
        forall|i: int|
            #![trigger parts[i]]
            0 <= i < parts.len() ==> {
                &&& parts[i].name == part_file_name(file.name, (i + 1) as u32)
                &&& is_container(
                    parts[i].data,
                    cover,
                    part_name(file.name, (i + 1) as u32, parts.len() as u32),
                    password,
                    pieces[i],
                )
                &&& parts[i].data.len() < limit
                &&& i + 1 < parts.len() ==> pieces[i].len() > 0 && parts[i].data.len() + (
                if password is Some && (pieces[i].len() + 1) % 4_194_304 == 0 {
                    17int
                } else {
                    1
                }) >= limit
            },
{
    let encrypted = password is Some;
    let overhead = part_overhead(cover, file.name, password);
    let max = plain_limit(below(limit), overhead, encrypted);
    let n = parts.len() as int;
    lemma_split_is_largest(parts, cover, file, limit, password);
    lemma_part_count(file.data.len(), max);
    let pieces = Seq::new(parts.len(), |i: int| chunk(file.data, max, i));
    lemma_chunks_from(file.data, max, pieces, 0);
    assert(0 * max == 0) by (nonlinear_arith);
    assert(file.data.skip(0) =~= file.data);
    lemma_pieces_flatten(pieces, 0);
    assert(pieces.skip(0) =~= pieces);
    law_largest_plain(max, (limit - 1) as nat, overhead, encrypted);
    law_container_lengths(max, 0, 0, 0);
    law_container_lengths(max + 1, 0, 0, 0);
    assert((max + 1) / 4_194_304 == max / 4_194_304 + (if (max + 1) % 4_194_304 == 0 {
        1int
    } else {
        0
    }));
    assert forall|i: int|
        #![trigger parts[i]]
        0 <= i < n implies parts[i].data.len() < limit && (i + 1 < n ==> pieces[i].len() > 0
        && parts[i].data.len() + (if encrypted && (pieces[i].len() + 1) % 4_194_304 == 0 {
        17int
    } else {
        1
    }) >= limit) by {
        assert(is_part(parts[i], cover, file, max, i, n, password));
        lemma_part_sizes(parts[i], cover, file, max, i, n, password);
        lemma_chunk_bounds(file.data.len(), max, i);
        if i + 1 < n {
            assert(pieces[i].len() == max);
        }
    }
    pieces
}

/// A file whose one container is shorter than the limit is not divided.
pub proof fn law_split_of_what_fits(
    parts: Seq<Entry>,
    cover: Seq<u8>,
    file: Entry,
    limit: nat,
    password: Option<Seq<char>>,
)
    requires
        is_split(parts, cover, file, limit, password),
        cover.len() + encode_utf8(file.name).len() + 97 + file.data.len() + (if password is Some {
            22 + 16 * (file.data.len() / 4_194_304 + 1)
        } else {
            0
        }) < limit,
    ensures
        parts.len() == 1,
{
    let encrypted = password is Some;
    let overhead = part_overhead(cover, file.name, password);
    let max = plain_limit(below(limit), overhead, encrypted);
    let len = file.data.len();
    lemma_split_is_largest(parts, cover, file, limit, password);
    lemma_part_overhead(cover, file.name, password);
    law_container_lengths(len, 0, 0, 0);
    lemma_largest_exists(len, (limit - 1) as nat, overhead, encrypted);
    lemma_part_count(len, max);
    if len > 0 && parts.len() > 1 {
        assert((parts.len() - 1) * max >= max) by (nonlinear_arith)
            requires
                parts.len() - 1 >= 1,
                max >= 0,
        ;
    }
}

/// A limit is too low only where it leaves no byte for data: the cover, the name and 97
/// bytes more, with a password 22 of salt, then reach it or leave no room for a tag and a
/// byte. A cover that cannot be had is refused for what is wrong with it.
pub proof fn law_limits_that_are_too_low(
    cover: Seq<u8>,
    file: Entry,
    limit: nat,
    password: Option<Seq<char>>,
    fault: ErrorView,
)
    ensures
        ({
            let overhead = cover.len() + encode_utf8(file.name).len() + 97 + (if password is Some {
                22int
            } else {
                0
            });
            let out = split_refusal(Ok(cover), file, limit, password);
            &&& overhead + 1 >= limit <==> out == Some::<ErrorView>(Fault::LimitTooLow)
            &&& password is Some && overhead + 1 < limit <= overhead + 17 <==> out == Some::<
                ErrorView,
            >(Fault::LimitTooLowEncrypted)
        }),
        split_refusal(Err(fault), file, limit, password) == Some(fault),
{
    lemma_part_overhead(cover, file.name, password);
    law_container_lengths(1, 0, 0, 0);
    let overhead = part_overhead(cover, file.name, password);
    let max = plain_limit(below(limit), overhead, password is Some);
    let count = part_count(file.data.len(), max);
    law_what_can_be_wrapped(
        part_name(file.name, 1, count as u32),
        password,
        chunk(file.data, max, 0).len(),
    );
}

/// A file is split where some length of data below the limit takes it up in 9999 parts,
/// its name leaves room for the number of a part, and it can be encrypted.
pub proof fn law_what_can_be_split(
    cover: Seq<u8>,
    file: Entry,
    limit: nat,
    password: Option<Seq<char>>,
    plain: nat,
)
    requires
        plain > 0,
        cover.len() + encode_utf8(file.name).len() + 97 + plain + (if password is Some {
            22 + 16 * (plain / 4_194_304 + 1)
        } else {
            0
        }) < limit,
        file.data.len() <= 9_999 * plain,
        encode_utf8(file.name).len() + 15 <= 65_535,
        password matches Some(text) ==> encode_utf8(text).len() <= 4_294_967_295,
        file.data.len() < 4_294_967_296 * 4_194_304,
    ensures
        split_refusal(Ok(cover), file, limit, password) is None,
{
    let encrypted = password is Some;
    let overhead = part_overhead(cover, file.name, password);
    let len = file.data.len();
    lemma_part_overhead(cover, file.name, password);
    law_container_lengths(plain, 0, 0, 0);
    law_container_lengths(1, 0, 0, 0);
    lemma_largest_exists(plain, below(limit), overhead, encrypted);
    let max = plain_limit(below(limit), overhead, encrypted);
    let count = part_count(len, max);
    lemma_part_count(len, max);
    if len > 0 && count > 9_999 {
        assert((count - 1) * max >= 9_999 * plain) by (nonlinear_arith)
            requires
                count - 1 >= 9_999,
                max >= plain,
        ;
    }
    lemma_part_name_len(file.name, 1, count as u32);
    lemma_chunk_bounds(len, max, 0);
    assert(0 * max == 0) by (nonlinear_arith);
    law_what_can_be_wrapped(
        part_name(file.name, 1, count as u32),
        password,
        chunk(file.data, max, 0).len(),
    );
}

/// A file has too many parts only where 9999 of any length of data below the limit do not
/// take it up.
pub proof fn law_too_many_parts(
    cover: Seq<u8>,
    file: Entry,
    limit: nat,
    password: Option<Seq<char>>,
    plain: nat,
)
    requires
        split_refusal(Ok(cover), file, limit, password) == Some::<ErrorView>(Fault::TooManyParts),
        cover.len() + encode_utf8(file.name).len() + 97 + plain + (if password is Some {
            22 + 16 * (plain / 4_194_304 + 1)
        } else {
            0
        }) < limit,
    ensures
        9_999 * plain < file.data.len(),
{
    let encrypted = password is Some;
    let overhead = part_overhead(cover, file.name, password);
    let len = file.data.len();
    lemma_part_overhead(cover, file.name, password);
    law_container_lengths(plain, 0, 0, 0);
    lemma_largest_exists(plain, below(limit), overhead, encrypted);
    let max = plain_limit(below(limit), overhead, encrypted);
    let count = part_count(len, max);
    law_what_can_be_wrapped(
        part_name(file.name, 1, count as u32),
        password,
        chunk(file.data, max, 0).len(),
    );
    if max > 0 {
        lemma_part_count(len, max);
        assert((count - 1) * max >= 9_999 * plain) by (nonlinear_arith)
            requires
                count - 1 >= 9_999,
                max >= plain,
        ;
    }
}

/// A file is part of another where it is a container, and its name tells which.
pub proof fn law_parts_are_containers(file: Seq<u8>, password: Option<Seq<char>>)
    ensures
        match container_of(file) {
            Err(e) => part_info(file) == Err::<PartInfo, ErrorView>(e) && decoded_part(
                file,
                password,
            ) == Err::<Seq<u8>, ErrorView>(e),
            Ok((h, data)) => {
                &&& decoded_part(file, password) == decoded_container(h, data, password)
                &&& match parsed_part_name(h.name) {
                    None => part_info(file) == Err::<PartInfo, ErrorView>(
                        Fault::InvalidPartName { name: h.name },
                    ),
                    Some((base, index, total)) => part_info(file) == Ok::<PartInfo, ErrorView>(
                        PartInfo { base, index, total },
                    ),
                }
            },
        },
{
}

/// What the names of parts that belong together tell.
proof fn lemma_infos(parts: Seq<Entry>, k: int)
    requires
        0 <= k <= parts.len(),
        part_infos(parts, k) is Ok,
    ensures
        part_infos(parts, k)->Ok_0.len() == k,
        forall|i: int|
            #![trigger part_infos(parts, k)->Ok_0[i]]
            0 <= i < k ==> part_info(parts[i].data) == Ok::<PartInfo, ErrorView>(
                part_infos(parts, k)->Ok_0[i],
            ) && part_infos(parts, k)->Ok_0[i].index > 0,
    decreases k,
{
    if k > 0 {
        lemma_infos(parts, k - 1);
        let infos = part_infos(parts, k)->Ok_0;
        let before = part_infos(parts, k - 1)->Ok_0;
        assert forall|i: int|
            #![trigger infos[i]]
            0 <= i < k implies part_info(parts[i].data) == Ok::<PartInfo, ErrorView>(infos[i])
            && infos[i].index > 0 by {
            if i < k - 1 {
                assert(infos[i] == before[i]);
            }
        }
    }
}

/// Parts that belong together have one base and total, and each another index.
proof fn lemma_agree(infos: Seq<PartInfo>, k: int)
    requires
        0 <= k <= infos.len(),
        conflict(infos, k) is None,
    ensures
        forall|i: int|
            #![trigger infos[i]]
            0 <= i < k ==> infos[i].base == infos[0].base && infos[i].total == infos[0].total,
        forall|i: int, j: int|
            0 <= i < j < k ==> (#[trigger] infos[i]).index != (#[trigger] infos[j]).index,
    decreases k,
{
    if k > 0 {
        lemma_agree(infos, k - 1);
        assert forall|i: int, j: int| 0 <= i < j < k implies (#[trigger] infos[i]).index != (
        #[trigger] infos[j]).index by {
            if j == k - 1 {
                assert(infos[i].index != infos[k - 1].index);
            }
        }
    }
}

/// The next part is the first with an index above; where there is none, no index is above.
proof fn lemma_next_is_least(infos: Seq<PartInfo>, above: int, k: int)
    requires
        0 <= k <= infos.len(),
    ensures
        match next_part(infos, above, k) {
            None => forall|i: int| 0 <= i < k ==> (#[trigger] infos[i]).index <= above,
            Some(p) => 0 <= p < k && infos[p].index > above && forall|i: int|
                0 <= i < k ==> (#[trigger] infos[i]).index <= above || infos[p].index
                    <= infos[i].index,
        },
    decreases k,
{
    if k > 0 {
        lemma_next_is_least(infos, above, k - 1);
    }
}

/// The order in which parts with an index above are joined.
proof fn lemma_joined_order(
    parts: Seq<Entry>,
    infos: Seq<PartInfo>,
    above: int,
    password: Option<Seq<char>>,
) -> (order: Seq<int>)
    requires
        joined_above(parts, infos, above, password) is Ok,
        infos.len() == parts.len(),
        forall|i: int, j: int|
            0 <= i < j < infos.len() ==> (#[trigger] infos[i]).index != (#[trigger] infos[j]).index,
    ensures
        forall|k: int|
            #![trigger order[k]]
            0 <= k < order.len() ==> 0 <= order[k] < parts.len() && infos[order[k]].index > above
                && decoded_part(parts[order[k]].data, password) is Ok,
        forall|j: int, k: int|
            0 <= j < k < order.len() ==> infos[#[trigger] order[j]].index < infos[
            #[trigger] order[k]].index,
        forall|i: int|
            #![trigger infos[i]]
            0 <= i < infos.len() && infos[i].index > above ==> order.contains(i),
        joined_above(parts, infos, above, password)->Ok_0 == Seq::new(
            order.len(),
            |k: int| decoded_part(parts[order[k]].data, password)->Ok_0,
        ).flatten(),
    decreases u32::MAX - above,
{
    let n = infos.len() as int;
    lemma_next_part(infos, above, n);
    lemma_next_is_least(infos, above, n);
    match next_part(infos, above, n) {
        None => {
            let order = Seq::<int>::empty();
            assert(Seq::new(
                order.len(),
                |k: int| decoded_part(parts[order[k]].data, password)->Ok_0,
            ) =~= Seq::<Seq<u8>>::empty());
            order
        },
        Some(p) => {
            let rest = lemma_joined_order(parts, infos, infos[p].index as int, password);
            let order = seq![p] + rest;
            let pieces = Seq::new(
                order.len(),
                |k: int| decoded_part(parts[order[k]].data, password)->Ok_0,
            );
            let others = Seq::new(
                rest.len(),
                |k: int| decoded_part(parts[rest[k]].data, password)->Ok_0,
            );
            assert(pieces.drop_first() =~= others);
            assert(pieces.first() == decoded_part(parts[p].data, password)->Ok_0);
            assert forall|k: int|
                #![trigger order[k]]
                0 <= k < order.len() implies 0 <= order[k] < parts.len() && infos[order[k]].index
                > above && decoded_part(parts[order[k]].data, password) is Ok by {
                if k > 0 {
                    assert(order[k] == rest[k - 1]);
                }
            }
            assert forall|j: int, k: int| 0 <= j < k < order.len() implies infos[
            #[trigger] order[j]].index < infos[#[trigger] order[k]].index by {
                assert(order[k] == rest[k - 1]);
                if j > 0 {
                    assert(order[j] == rest[j - 1]);
                }
            }
            assert forall|i: int|
                #![trigger infos[i]]
                0 <= i < n && infos[i].index > above implies order.contains(i) by {
                if i == p {
                    assert(order[0] == p);
                } else if infos[i].index > infos[p].index {
                    assert(rest.contains(i));
                    let k = choose|k: int| 0 <= k < rest.len() && rest[k] == i;
                    assert(order[k + 1] == i);
                } else {
                    assert(infos[i].index != infos[p].index);
                }
            }
            order
        },
    }
}

/// An order without repetition that holds each of the first `n` numbers has `n` of them.
proof fn lemma_order_len(order: Seq<int>, n: int)
    requires
        0 <= n,
        forall|k: int| #![trigger order[k]] 0 <= k < order.len() ==> 0 <= order[k] < n,
        forall|j: int, k: int| 0 <= j < k < order.len() ==> #[trigger] order[j] != #[trigger] order[k],
        forall|i: int| 0 <= i < n ==> #[trigger] order.contains(i),
    ensures
        order.len() == n,
{
    order.unique_seq_to_set();
    vstd::set_lib::lemma_int_range(0, n);
    assert(order.to_set() =~= vstd::set_lib::set_int_range(0, n)) by {
        assert forall|i: int| vstd::set_lib::set_int_range(0, n).contains(i) implies
            order.to_set().contains(i) by {
            assert(order.contains(i));
        }
    }
}

/// Rising numbers from 1 on, `n` of them and none above `n`, are 1 to `n`.
proof fn lemma_all_numbers(a: Seq<int>, k: int)
    requires
        forall|i: int| #![trigger a[i]] 0 <= i < a.len() ==> 1 <= a[i] <= a.len(),
        forall|i: int, j: int| 0 <= i < j < a.len() ==> #[trigger] a[i] < #[trigger] a[j],
        0 <= k < a.len(),
    ensures
        a[k] == k + 1,
{
    lemma_at_least(a, k);
    lemma_at_most(a, k);
}

/// Rising numbers from 1 on grow at least by one.
proof fn lemma_at_least(a: Seq<int>, k: int)
    requires
        forall|i: int| #![trigger a[i]] 0 <= i < a.len() ==> 1 <= a[i],
        forall|i: int, j: int| 0 <= i < j < a.len() ==> #[trigger] a[i] < #[trigger] a[j],
        0 <= k < a.len(),
    ensures
        a[k] >= k + 1,
    decreases k,
{
    if k > 0 {
        lemma_at_least(a, k - 1);
        assert(a[k - 1] < a[k]);
    }
}

/// Rising numbers up to their number fall at least by one from the end.
proof fn lemma_at_most(a: Seq<int>, k: int)
    requires
        forall|i: int| #![trigger a[i]] 0 <= i < a.len() ==> a[i] <= a.len(),
        forall|i: int, j: int| 0 <= i < j < a.len() ==> #[trigger] a[i] < #[trigger] a[j],
        0 <= k < a.len(),
    ensures
        a[k] <= k + 1,
    decreases a.len() - k,
{
    if k + 1 < a.len() {
        lemma_at_most(a, k + 1);
        assert(a[k] < a[k + 1]);
    }
}

/// Joining succeeds only on a complete set of one file's parts. Every part tells the same
/// base, and as the total the number of parts that are given; no index is 0 or comes
/// twice; every part decodes, and what is joined is their data in the order of their
/// indices, none left out. Where no index is above the total they are all from 1 to it.
#[verifier::rlimit(40)]
pub proof fn law_joined_parts_are_complete(parts: Seq<Entry>, password: Option<Seq<char>>) -> (order:
    Seq<int>)
    requires
        joined(parts, password) is Ok,
    ensures
        parts.len() > 0,
        order.len() == parts.len(),
        forall|i: int|
            #![trigger parts[i]]
            0 <= i < parts.len() ==> {
                &&& part_info(parts[i].data) is Ok
                &&& part_info(parts[i].data)->Ok_0.base == part_info(parts[0].data)->Ok_0.base
                &&& part_info(parts[i].data)->Ok_0.total == parts.len()
                &&& part_info(parts[i].data)->Ok_0.index >= 1
                &&& decoded_part(parts[i].data, password) is Ok
                &&& order.contains(i)
            },
        forall|i: int, j: int|
            0 <= i < j < parts.len() ==> part_info((#[trigger] parts[i]).data)->Ok_0.index
                != part_info((#[trigger] parts[j]).data)->Ok_0.index,
        forall|k: int| #![trigger order[k]] 0 <= k < order.len() ==> 0 <= order[k] < parts.len(),
        forall|j: int, k: int|
            0 <= j < k < order.len() ==> part_info(parts[#[trigger] order[j]].data)->Ok_0.index
                < part_info(parts[#[trigger] order[k]].data)->Ok_0.index,
        joined(parts, password)->Ok_0 == Seq::new(
            order.len(),
            |k: int| decoded_part(parts[order[k]].data, password)->Ok_0,
        ).flatten(),
        (forall|i: int|
            0 <= i < parts.len() ==> part_info((#[trigger] parts[i]).data)->Ok_0.index
                <= parts.len()) ==> forall|k: int|
            #![trigger order[k]]
            0 <= k < order.len() ==> part_info(parts[order[k]].data)->Ok_0.index == k + 1,
{
    let n = parts.len() as int;
    let infos = part_infos(parts, n)->Ok_0;
    lemma_infos(parts, n);
    lemma_agree(infos, n);
    let order = lemma_joined_order(parts, infos, 0, password);
    assert forall|i: int| 0 <= i < n implies #[trigger] order.contains(i) by {
        assert(infos[i].index > 0);
    }
    assert forall|j: int, k: int| 0 <= j < k < order.len() implies #[trigger] order[j]
        != #[trigger] order[k] by {
        assert(infos[order[j]].index < infos[order[k]].index);
    }
    lemma_order_len(order, n);
    assert forall|i: int|
        #![trigger parts[i]]
        0 <= i < n implies part_info(parts[i].data) == Ok::<PartInfo, ErrorView>(infos[i])
        && decoded_part(parts[i].data, password) is Ok by {
        assert(infos[i].index > 0);
        assert(order.contains(i));
        let k = choose|k: int| 0 <= k < order.len() && order[k] == i;
        assert(0 <= order[k] < n);
    }
    assert forall|i: int, j: int| 0 <= i < j < n implies part_info(
        (#[trigger] parts[i]).data,
    )->Ok_0.index != part_info((#[trigger] parts[j]).data)->Ok_0.index by {
        assert(infos[i].index != infos[j].index);
    }
    assert forall|j: int, k: int| 0 <= j < k < order.len() implies part_info(
        parts[#[trigger] order[j]].data,
    )->Ok_0.index < part_info(parts[#[trigger] order[k]].data)->Ok_0.index by {
        assert(infos[order[j]].index < infos[order[k]].index);
        assert(parts[order[j]] == parts[order[j]] && parts[order[k]] == parts[order[k]]);
    }
    if forall|i: int|
        0 <= i < parts.len() ==> part_info((#[trigger] parts[i]).data)->Ok_0.index <= parts.len() {
        let a = Seq::new(order.len(), |k: int| infos[order[k]].index as int);
        assert forall|i: int| #![trigger a[i]] 0 <= i < a.len() implies 1 <= a[i] <= a.len() by {
            assert(0 <= order[i] < n);
            assert(parts[order[i]] == parts[order[i]]);
        }
        assert forall|i: int, j: int| 0 <= i < j < a.len() implies #[trigger] a[i] < #[trigger] a[j] by {
            assert(infos[order[i]].index < infos[order[j]].index);
        }
        assert forall|k: int|
            #![trigger order[k]]
            0 <= k < order.len() implies part_info(parts[order[k]].data)->Ok_0.index == k + 1 by {
            lemma_all_numbers(a, k);
            assert(parts[order[k]] == parts[order[k]]);
        }
    }
    order
}

/// Joining a complete set of parts succeeds, in whatever order they are given: `ranks` are
/// their indices and `places` tells where each index is. What comes out is their data in
/// the order of the indices.
pub proof fn law_complete_sets_are_joined(
    parts: Seq<Entry>,
    base: Seq<char>,
    pieces: Seq<Seq<u8>>,
    ranks: Seq<int>,
    places: Seq<int>,
    password: Option<Seq<char>>,
)
    requires
        1 <= parts.len() <= 0xffff_ffff,
        pieces.len() == parts.len(),
        ranks.len() == parts.len(),
        places.len() == parts.len(),
        forall|i: int|
            #![trigger ranks[i]]
            0 <= i < parts.len() ==> {
                &&& 1 <= ranks[i] <= parts.len()
                &&& places[ranks[i] - 1] == i
                &&& part_info(parts[i].data) == Ok::<PartInfo, ErrorView>(
                    PartInfo { base, index: ranks[i] as u32, total: parts.len() as u32 },
                )
                &&& decoded_part(parts[i].data, password) == Ok::<Seq<u8>, ErrorView>(pieces[i])
            },
        forall|k: int|
            #![trigger places[k]]
            0 <= k < parts.len() ==> 0 <= places[k] < parts.len() && ranks[places[k]] == k + 1,
    ensures
        joined(parts, password) == Ok::<Seq<u8>, ErrorView>(
            Seq::new(parts.len(), |k: int| pieces[places[k]]).flatten(),
        ),
{
    let n = parts.len() as int;
    let sorted = Seq::new(parts.len(), |k: int| parts[places[k]]);
    let data = Seq::new(parts.len(), |k: int| pieces[places[k]]);
    let order = Seq::new(parts.len(), |i: int| ranks[i] - 1);
    assert forall|k: int|
        #![trigger sorted[k]]
        0 <= k < n implies decoded_part(sorted[k].data, password) == Ok::<Seq<u8>, ErrorView>(
        data[k],
    ) && part_info(sorted[k].data) == Ok::<PartInfo, ErrorView>(
        PartInfo { base, index: (k + 1) as u32, total: n as u32 },
    ) by {
        assert(0 <= places[k] < n);
        assert(ranks[places[k]] == k + 1);
    }
    assert forall|i: int| 0 <= i < n implies #[trigger] order.contains(i) by {
        assert(0 <= places[i] < n);
        assert(order[places[i]] == i);
    }
    assert forall|k: int| 0 <= k < n implies 0 <= #[trigger] order[k] < n by {
        assert(1 <= ranks[k] <= n);
    }
    assert forall|j: int, k: int| 0 <= j < k < n implies #[trigger] order[j] != #[trigger] order[k] by {
        assert(places[ranks[j] - 1] == j && places[ranks[k] - 1] == k);
    }
    assert(shuffled(sorted, order) =~= parts) by {
        assert forall|i: int| 0 <= i < n implies shuffled(sorted, order)[i] == parts[i] by {
            assert(places[ranks[i] - 1] == i);
        }
    }
    law_join_of_parts(sorted, base, data, order, password);
    lemma_pieces_flatten(data, 0);
    assert(data.skip(0) =~= data);
}

/// Parts of one file, each given once, that are not as many as they tell are refused, and
/// the answer says how many there are of how many. No parts at all are refused too.
pub proof fn law_missing_parts_are_refused(
    parts: Seq<Entry>,
    infos: Seq<PartInfo>,
    password: Option<Seq<char>>,
)
    requires
        parts.len() > 0,
        infos.len() == parts.len(),
        forall|i: int|
            #![trigger infos[i]]
            0 <= i < parts.len() ==> {
                &&& part_info(parts[i].data) == Ok::<PartInfo, ErrorView>(infos[i])
                &&& infos[i].base == infos[0].base
                &&& infos[i].total == infos[0].total
            },
        forall|i: int, j: int|
            0 <= i < j < infos.len() ==> (#[trigger] infos[i]).index != (#[trigger] infos[j]).index,
        parts.len() != infos[0].total,
    ensures
        joined(parts, password) == Err::<Seq<u8>, ErrorView>(
            Fault::MissingParts { total: infos[0].total, received: parts.len() as usize },
        ),
        joined(Seq::empty(), password) == Err::<Seq<u8>, ErrorView>(Fault::NoParts),
{
    let n = parts.len() as int;
    lemma_infos_are(parts, infos, n);
    assert(infos.take(n) =~= infos);
    lemma_agreeing(infos, n);
}

/// The infos of parts are those of each.
proof fn lemma_infos_are(parts: Seq<Entry>, infos: Seq<PartInfo>, k: int)
    requires
        0 <= k <= parts.len() == infos.len(),
        forall|i: int|
            #![trigger infos[i]]
            0 <= i < parts.len() ==> part_info(parts[i].data) == Ok::<PartInfo, ErrorView>(infos[i]),
    ensures
        part_infos(parts, k) == Ok::<Seq<PartInfo>, ErrorView>(infos.take(k)),
    decreases k,
{
    if k > 0 {
        lemma_infos_are(parts, infos, k - 1);
        assert(infos.take(k) =~= infos.take(k - 1).push(infos[k - 1]));
    } else {
        assert(infos.take(0) =~= Seq::<PartInfo>::empty());
    }
}

/// Parts of one base and total, with different indices, belong together.
proof fn lemma_agreeing(infos: Seq<PartInfo>, k: int)
    requires
        0 <= k <= infos.len(),
        forall|i: int|
            #![trigger infos[i]]
            0 <= i < infos.len() ==> infos[i].base == infos[0].base && infos[i].total
                == infos[0].total,
        forall|i: int, j: int|
            0 <= i < j < infos.len() ==> (#[trigger] infos[i]).index != (#[trigger] infos[j]).index,
    ensures
        conflict(infos, k) is None,
    decreases k,
{
    if k > 0 {
        lemma_agreeing(infos, k - 1);
        assert(infos[k - 1] == infos[k - 1]);
    }
}

/// The first part that does not belong to those before it tells why the set is refused:
/// it is of another file, tells another total, or is given twice.
pub proof fn law_mixed_sets_are_refused(
    parts: Seq<Entry>,
    infos: Seq<PartInfo>,
    k: int,
    twin: int,
    password: Option<Seq<char>>,
)
    requires
        0 < k < parts.len(),
        0 <= twin < k,
        infos.len() == parts.len(),
        forall|i: int|
            #![trigger infos[i]]
            0 <= i < parts.len() ==> part_info(parts[i].data) == Ok::<PartInfo, ErrorView>(infos[i]),
        forall|i: int|
            #![trigger infos[i]]
            0 <= i < k ==> infos[i].base == infos[0].base && infos[i].total == infos[0].total,
        forall|i: int, j: int|
            0 <= i < j < k ==> (#[trigger] infos[i]).index != (#[trigger] infos[j]).index,
    ensures
        infos[k].base != infos[0].base ==> joined(parts, password) == Err::<Seq<u8>, ErrorView>(
            Fault::DifferentFiles,
        ),
        infos[k].base == infos[0].base && infos[k].total != infos[0].total ==> joined(
            parts,
            password,
        ) == Err::<Seq<u8>, ErrorView>(Fault::InconsistentTotals),
        infos[k].base == infos[0].base && infos[k].total == infos[0].total && infos[twin].index
            == infos[k].index ==> joined(parts, password) == Err::<Seq<u8>, ErrorView>(
            Fault::RepeatedPart { index: infos[k].index },
        ),
{
    let n = parts.len() as int;
    lemma_infos_are(parts, infos, n);
    assert(infos.take(n) =~= infos);
    lemma_agreeing_up_to(infos, k);
    lemma_conflict_step(infos, k, twin);
    if conflict(infos, k + 1) is Some {
        lemma_conflict_stays(infos, k + 1, n);
    }
    assert(joined(parts, password) == (match conflict(infos, n) {
        Some(e) => Err::<Seq<u8>, ErrorView>(e),
        None => joined(parts, password),
    }));
}

/// What one more part does to parts that belong together.
proof fn lemma_conflict_step(infos: Seq<PartInfo>, k: int, twin: int)
    requires
        0 <= twin < k < infos.len(),
        conflict(infos, k) is None,
    ensures
        infos[k].base != infos[0].base ==> conflict(infos, k + 1) == Some::<ErrorView>(
            Fault::DifferentFiles,
        ),
        infos[k].base == infos[0].base && infos[k].total != infos[0].total ==> conflict(
            infos,
            k + 1,
        ) == Some::<ErrorView>(Fault::InconsistentTotals),
        infos[k].base == infos[0].base && infos[k].total == infos[0].total && infos[twin].index
            == infos[k].index ==> conflict(infos, k + 1) == Some::<ErrorView>(
            Fault::RepeatedPart { index: infos[k].index },
        ),
{
    let info = infos[k];
    assert(infos[k + 1 - 1] == info);
    if infos[twin].index == info.index {
        assert(exists|j: int| 0 <= j < k && #[trigger] infos[j].index == info.index);
    }
}

/// The first parts belong together where they have one base and total and different
/// indices.
proof fn lemma_agreeing_up_to(infos: Seq<PartInfo>, k: int)
    requires
        0 <= k <= infos.len(),
        forall|i: int|
            #![trigger infos[i]]
            0 <= i < k ==> infos[i].base == infos[0].base && infos[i].total == infos[0].total,
        forall|i: int, j: int|
            0 <= i < j < k ==> (#[trigger] infos[i]).index != (#[trigger] infos[j]).index,
    ensures
        conflict(infos, k) is None,
    decreases k,
{
    if k > 0 {
        lemma_agreeing_up_to(infos, k - 1);
        assert(infos[k - 1] == infos[k - 1]);
    }
}

/// What splitting and joining report: counts of the whole that never fall, and at the
/// end that all of it is done.
pub proof fn law_parts_report_the_whole(log: Seq<Report>, len: nat, encrypted: bool)
    requires
        len <= u64::MAX,
    ensures
        split_log(log, len, encrypted) ==> log.len() > 0 && log.last().phase == ProgressPhase::Save
            && log.last().done == len && forall|i: int, j: int|
            0 <= i <= j < log.len() ==> (#[trigger] log[i]).done <= (#[trigger] log[j]).done <= len
                && log[i].total == (if len == 0 {
                1
            } else {
                len as int
            }) && (log[i].phase == ProgressPhase::Encrypt ==> encrypted) && (log[i].phase
                == ProgressPhase::Prepare || log[i].phase == ProgressPhase::Encrypt || log[i].phase
                == ProgressPhase::Save),
        join_log(log, len) ==> (len > 0 ==> log.len() > 0 && log.last().done == len) && forall|
            i: int,
            j: int,
        |
            0 <= i <= j < log.len() ==> (#[trigger] log[i]).done <= (#[trigger] log[j]).done <= len
                && log[i].total == len && (log[i].phase == ProgressPhase::Decrypt || log[i].phase
                == ProgressPhase::Parse),
{
}

/// A name that leaves no room for the number of a part in 65535 bytes is refused, and so
/// is a password that no key is derived from.
pub proof fn law_names_that_cannot_be_split(
    cover: Seq<u8>,
    file: Entry,
    limit: nat,
    password: Option<Seq<char>>,
    plain: nat,
)
    requires
        plain > 0,
        cover.len() + encode_utf8(file.name).len() + 97 + plain + (if password is Some {
            22 + 16 * (plain / 4_194_304 + 1)
        } else {
            0
        }) < limit,
        file.data.len() <= 9_999 * plain,
    ensures
        password matches Some(text) && encode_utf8(text).len() > 4_294_967_295 ==> split_refusal(
            Ok(cover),
            file,
            limit,
            password,
        ) == Some::<ErrorView>(Fault::KeyDerivation { text: "password is too long"@ }),
        (password matches Some(text) ==> encode_utf8(text).len() <= 4_294_967_295) && encode_utf8(
            file.name,
        ).len() + 15 > 65_535 ==> split_refusal(Ok(cover), file, limit, password) == Some::<
            ErrorView,
        >(Fault::NameTooLong),
{
    let encrypted = password is Some;
    let overhead = part_overhead(cover, file.name, password);
    let len = file.data.len();
    lemma_part_overhead(cover, file.name, password);
    law_container_lengths(plain, 0, 0, 0);
    law_container_lengths(1, 0, 0, 0);
    lemma_largest_exists(plain, below(limit), overhead, encrypted);
    let max = plain_limit(below(limit), overhead, encrypted);
    let count = part_count(len, max);
    lemma_part_count(len, max);
    if len > 0 && count > 9_999 {
        assert((count - 1) * max >= 9_999 * plain) by (nonlinear_arith)
            requires
                count - 1 >= 9_999,
                max >= plain,
        ;
    }
    lemma_part_name_len(file.name, 1, count as u32);
    law_what_can_be_wrapped(
        part_name(file.name, 1, count as u32),
        password,
        chunk(file.data, max, 0).len(),
    );
}

} // verus!
