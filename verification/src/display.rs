//! Progress, sizes and times as they are shown.
use crate::number::{law_small_numbers_are_exact, nearest_double, push_two_decimals, to_double, two_decimals};
use crate::progress::ProgressPhase;
use crate::text::{decimal, padded, push_decimal, push_padded, push_text};
use vstd::arithmetic::power2::{lemma_pow2_unfold, pow2};
use vstd::prelude::*;

verus! {

/// The characters of a progress bar.
pub const BAR_SLOTS: usize = 20;

/// A progress bar with the given number of its slots filled.
pub fn bar(filled: usize) -> (out: String)
    ensures
        out@ == Seq::new(
            BAR_SLOTS as nat,
            |i: int|
                if i < filled {
                    '#'
                } else {
                    '-'
                },
        ),
{
    let mut out: String = String::new();
    let mut k: usize = 0;
    while k < BAR_SLOTS
        invariant
            k <= BAR_SLOTS,
            out@ == Seq::new(
                k as nat,
                |i: int|
                    if i < filled {
                        '#'
                    } else {
                        '-'
                    },
            ),
        decreases BAR_SLOTS - k,
    {
        if k < filled {
            out.push('#');
        } else {
            out.push('-');
        }
        k = k + 1;
        assert(out@ =~= Seq::new(
            k as nat,
            |i: int|
                if i < filled {
                    '#'
                } else {
                    '-'
                },
        ));
    }
    out
}

/// The short name of a phase.
pub open spec fn tag_of(phase: ProgressPhase) -> Seq<char> {
    match phase {
        ProgressPhase::Prepare => "PREP"@,
        ProgressPhase::Encrypt => "ENC"@,
        ProgressPhase::Embed => "LSB"@,
        ProgressPhase::Save => "SAVE"@,
        ProgressPhase::Extract => "EXT"@,
        ProgressPhase::Decrypt => "DEC"@,
        ProgressPhase::Parse => "PARSE"@,
    }
}

/// The short name of a phase.
pub fn phase_tag(p: ProgressPhase) -> (out: &'static str)
    ensures
        out@ == tag_of(p),
{
    match p {
        ProgressPhase::Prepare => "PREP",
        ProgressPhase::Encrypt => "ENC",
        ProgressPhase::Embed => "LSB",
        ProgressPhase::Save => "SAVE",
        ProgressPhase::Extract => "EXT",
        ProgressPhase::Decrypt => "DEC",
        ProgressPhase::Parse => "PARSE",
    }
}

/// The share of embedding that a phase takes: where it starts and how long it is,
/// in percent. Encryption takes its share from embedding.
pub open spec fn embed_share(phase: ProgressPhase, encrypted: bool) -> (int, int) {
    let enc = if encrypted {
        15int
    } else {
        0
    };
    match phase {
        ProgressPhase::Prepare => (0, 20),
        ProgressPhase::Encrypt => (20, enc),
        ProgressPhase::Embed => (20 + enc, 78 - enc),
        ProgressPhase::Save => (98, 2),
        _ => (0, 100),
    }
}

/// The share of embedding that a phase takes.
pub fn phase_share(phase: ProgressPhase, encrypted: bool) -> (out: (u32, u32))
    ensures
        (out.0 as int, out.1 as int) == embed_share(phase, encrypted),
{
    let enc: u32 = if encrypted {
        15
    } else {
        0
    };
    match phase {
        ProgressPhase::Prepare => (0, 20),
        ProgressPhase::Encrypt => (20, enc),
        ProgressPhase::Embed => (20 + enc, 78 - enc),
        ProgressPhase::Save => (98, 2),
        _ => (0, 100),
    }
}

/// The phases of embedding follow each other without gaps and add up to all of
/// it.
pub proof fn law_embed_shares(encrypted: bool)
    ensures
        ({
            let prepare = embed_share(ProgressPhase::Prepare, encrypted);
            let encrypt = embed_share(ProgressPhase::Encrypt, encrypted);
            let embed = embed_share(ProgressPhase::Embed, encrypted);
            let save = embed_share(ProgressPhase::Save, encrypted);
            &&& prepare.0 == 0
            &&& encrypt.0 == prepare.0 + prepare.1
            &&& embed.0 == encrypt.0 + encrypt.1
            &&& save.0 == embed.0 + embed.1
            &&& save.0 + save.1 == 100
        }),
{
}

/// A remaining time in its two largest units.
pub open spec fn eta_text(total: nat) -> Seq<char> {
    let days = total / 86_400;
    let hours = (total % 86_400) / 3_600;
    let minutes = (total % 3_600) / 60;
    let seconds = total % 60;
    if days > 0 {
        decimal(days) + "d "@ + padded(hours, 2) + "h"@
    } else if hours > 0 {
        decimal(hours) + "h "@ + padded(minutes, 2) + "m"@
    } else if minutes > 0 {
        decimal(minutes) + "m "@ + padded(seconds, 2) + "s"@
    } else {
        decimal(seconds) + "s"@
    }
}

/// A remaining time in whole seconds, in its two largest units.
pub fn format_eta(total: u64) -> (out: String)
    ensures
        out@ == eta_text(total as nat),
{
    let days: u64 = total / 86_400;
    let hours: u64 = (total % 86_400) / 3_600;
    let minutes: u64 = (total % 3_600) / 60;
    let seconds: u64 = total % 60;
    let mut out: String = String::new();
    if days > 0 {
        push_decimal(&mut out, days);
        push_text(&mut out, "d ");
        push_padded(&mut out, hours, 2);
        push_text(&mut out, "h");
    } else if hours > 0 {
        push_decimal(&mut out, hours);
        push_text(&mut out, "h ");
        push_padded(&mut out, minutes, 2);
        push_text(&mut out, "m");
    } else if minutes > 0 {
        push_decimal(&mut out, minutes);
        push_text(&mut out, "m ");
        push_padded(&mut out, seconds, 2);
        push_text(&mut out, "s");
    } else {
        push_decimal(&mut out, seconds);
        push_text(&mut out, "s");
    }
    assert(out@ =~= eta_text(total as nat));
    out
}

/// A time of a minute or more in its two largest units.
pub open spec fn time_text(total: nat) -> Seq<char> {
    let minutes = total / 60;
    let hours = minutes / 60;
    let days = hours / 24;
    if minutes < 60 {
        decimal(minutes) + " min "@ + padded(total % 60, 2) + " s"@
    } else if hours < 24 {
        decimal(hours) + " h "@ + padded(minutes % 60, 2) + " min"@
    } else {
        decimal(days) + " d "@ + padded(hours % 24, 2) + " h"@
    }
}

/// A time of a minute or more, in whole seconds, in its two largest units.
pub fn fmt_time(total: u64) -> (out: String)
    ensures
        out@ == time_text(total as nat),
{
    let minutes: u64 = total / 60;
    let hours: u64 = minutes / 60;
    let days: u64 = hours / 24;
    let mut out: String = String::new();
    if minutes < 60 {
        push_decimal(&mut out, minutes);
        push_text(&mut out, " min ");
        push_padded(&mut out, total % 60, 2);
        push_text(&mut out, " s");
    } else if hours < 24 {
        push_decimal(&mut out, hours);
        push_text(&mut out, " h ");
        push_padded(&mut out, minutes % 60, 2);
        push_text(&mut out, " min");
    } else {
        push_decimal(&mut out, days);
        push_text(&mut out, " d ");
        push_padded(&mut out, hours % 24, 2);
        push_text(&mut out, " h");
    }
    assert(out@ =~= time_text(total as nat));
    out
}

/// A number of bytes in the largest unit of which there is one, with two
/// decimals, computed in double precision.
pub open spec fn size_text(bytes: nat) -> Seq<char> {
    let size = nearest_double(bytes);
    if size < 1024 {
        two_decimals(size, 1) + " "@ + "B"@
    } else if size < 1_048_576 {
        two_decimals(size, 1024) + " "@ + "KiB"@
    } else if size < 1_073_741_824 {
        two_decimals(size, 1_048_576) + " "@ + "MiB"@
    } else if size < 1_099_511_627_776 {
        two_decimals(size, 1_073_741_824) + " "@ + "GiB"@
    } else {
        two_decimals(size, 1_099_511_627_776) + " "@ + "TiB"@
    }
}

/// A number of bytes in the largest unit of which there is one.
pub fn fmt_size(bytes: u64) -> (out: String)
    ensures
        out@ == size_text(bytes as nat),
{
    let size: u128 = to_double(bytes);
    let mut out: String = String::new();
    if size < 1024 {
        push_two_decimals(&mut out, size, 1);
        push_text(&mut out, " ");
        push_text(&mut out, "B");
    } else if size < 1_048_576 {
        push_two_decimals(&mut out, size, 1024);
        push_text(&mut out, " ");
        push_text(&mut out, "KiB");
    } else if size < 1_073_741_824 {
        push_two_decimals(&mut out, size, 1_048_576);
        push_text(&mut out, " ");
        push_text(&mut out, "MiB");
    } else if size < 1_099_511_627_776 {
        push_two_decimals(&mut out, size, 1_073_741_824);
        push_text(&mut out, " ");
        push_text(&mut out, "GiB");
    } else {
        push_two_decimals(&mut out, size, 1_099_511_627_776);
        push_text(&mut out, " ");
        push_text(&mut out, "TiB");
    }
    assert(out@ =~= size_text(bytes as nat));
    out
}

/// The sizes that times are estimated for: the powers of two from 1 KiB to 1 TiB.
pub fn size_list() -> (out: Vec<u64>)
    ensures
        out@.len() == 31,
        forall|i: int| 0 <= i < 31 ==> #[trigger] out@[i] == pow2((10 + i) as nat),
{
    let mut out: Vec<u64> = Vec::new();
    let mut size: u64 = 1024;
    proof {
        vstd::arithmetic::power2::lemma2_to64();
    }
    while out.len() < 30
        invariant
            out@.len() <= 30,
            size == pow2((10 + out@.len()) as nat),
            size <= 0x100_0000_0000,
            forall|i: int| 0 <= i < out@.len() ==> #[trigger] out@[i] == pow2((10 + i) as nat),
        decreases 30 - out.len(),
    {
        out.push(size);
        proof {
            lemma_pow2_unfold((10 + out@.len()) as nat);
            vstd::arithmetic::power2::lemma_pow2_strictly_increases(
                (10 + out@.len() - 1) as nat,
                40,
            );
            vstd::arithmetic::power2::lemma2_to64_rest();
            assert(pow2((10 + out@.len()) as nat) <= pow2(40)) by {
                if out@.len() < 30 {
                    vstd::arithmetic::power2::lemma_pow2_strictly_increases(
                        (10 + out@.len()) as nat,
                        40,
                    );
                }
            }
        }
        size = size * 2;
    }
    out.push(size);
    out
}

/// A remaining time is told in its two largest units: days and hours, hours and minutes,
/// minutes and seconds, or seconds.
pub proof fn law_remaining_times(days: nat, hours: nat, minutes: nat, seconds: nat)
    requires
        hours < 24,
        minutes < 60,
        seconds < 60,
    ensures
        ({
            let text = eta_text(86_400 * days + 3_600 * hours + 60 * minutes + seconds);
            &&& days > 0 ==> text == decimal(days) + "d "@ + padded(hours, 2) + "h"@
            &&& days == 0 && hours > 0 ==> text == decimal(hours) + "h "@ + padded(minutes, 2)
                + "m"@
            &&& days == 0 && hours == 0 && minutes > 0 ==> text == decimal(minutes) + "m "@
                + padded(seconds, 2) + "s"@
            &&& days == 0 && hours == 0 && minutes == 0 ==> text == decimal(seconds) + "s"@
        }),
{
    let total = 86_400 * days + 3_600 * hours + 60 * minutes + seconds;
    assert(total / 86_400 == days);
    assert(total % 86_400 == 3_600 * hours + 60 * minutes + seconds);
    assert((total % 86_400) / 3_600 == hours);
    assert(total % 3_600 == 60 * minutes + seconds);
    assert((total % 3_600) / 60 == minutes);
    assert(total % 60 == seconds);
}

/// A time is told in minutes and seconds, in hours and minutes, or in days and hours.
pub proof fn law_times(days: nat, hours: nat, minutes: nat, seconds: nat)
    requires
        hours < 24,
        minutes < 60,
        seconds < 60,
    ensures
        ({
            let text = time_text(86_400 * days + 3_600 * hours + 60 * minutes + seconds);
            &&& days > 0 ==> text == decimal(days) + " d "@ + padded(hours, 2) + " h"@
            &&& days == 0 && hours > 0 ==> text == decimal(hours) + " h "@ + padded(minutes, 2)
                + " min"@
            &&& days == 0 && hours == 0 ==> text == decimal(minutes) + " min "@ + padded(seconds, 2)
                + " s"@
        }),
{
    let total = 86_400 * days + 3_600 * hours + 60 * minutes + seconds;
    assert(total / 60 == 1_440 * days + 60 * hours + minutes);
    assert(total / 60 / 60 == 24 * days + hours);
    assert(total / 60 / 60 / 24 == days);
    assert(total % 60 == seconds);
}

/// A size is told in the largest unit of which there is one, each 1024 of the one before,
/// with two decimals that are rounded. Sizes from two to the power of 53 on are taken as
/// the nearest double.
pub proof fn law_sizes(bytes: nat)
    ensures
        ({
            let n = nearest_double(bytes);
            let text = size_text(bytes);
            &&& n < 1024 ==> text == two_decimals(n, 1) + " "@ + "B"@
            &&& 1024 <= n < 1024 * 1024 ==> text == two_decimals(n, 1024) + " "@ + "KiB"@
            &&& 1024 * 1024 <= n < 1024 * 1024 * 1024 ==> text == two_decimals(n, 1024 * 1024)
                + " "@ + "MiB"@
            &&& 1024 * 1024 * 1024 <= n < 1024 * 1024 * 1024 * 1024 ==> text == two_decimals(
                n,
                1024 * 1024 * 1024,
            ) + " "@ + "GiB"@
            &&& 1024 * 1024 * 1024 * 1024 <= n ==> text == two_decimals(
                n,
                1024 * 1024 * 1024 * 1024,
            ) + " "@ + "TiB"@
        }),
        bytes < 0x20_0000_0000_0000 ==> nearest_double(bytes) == bytes,
{
    if bytes < 0x20_0000_0000_0000 {
        law_small_numbers_are_exact(bytes);
    }
}

/// Of hiding files, preparing takes a fifth, encryption, with a password, 15 hundredths,
/// saving the last two, and embedding the rest; other phases count for themselves.
pub proof fn law_shares(phase: ProgressPhase, encrypted: bool)
    ensures
        ({
            let (from, len) = embed_share(phase, encrypted);
            match phase {
                ProgressPhase::Prepare => from == 0 && len == 20,
                ProgressPhase::Encrypt => from == 20 && len == (if encrypted {
                    15int
                } else {
                    0
                }),
                ProgressPhase::Embed => from + len == 98 && len == (if encrypted {
                    63int
                } else {
                    78
                }),
                ProgressPhase::Save => from == 98 && len == 2,
                _ => from == 0 && len == 100,
            }
        }),
{
}

/// The phases by their short names, each another.
pub proof fn law_tags(phase: ProgressPhase, other: ProgressPhase)
    ensures
        phase != other ==> tag_of(phase) != tag_of(other),
        tag_of(ProgressPhase::Encrypt) == "ENC"@,
        tag_of(ProgressPhase::Save) == "SAVE"@,
        tag_of(ProgressPhase::Extract) == "EXT"@,
        tag_of(ProgressPhase::Decrypt) == "DEC"@,
        tag_of(ProgressPhase::Prepare) == "PREP"@,
        tag_of(ProgressPhase::Embed) == "LSB"@,
        tag_of(ProgressPhase::Parse) == "PARSE"@,
{
    reveal_strlit("PREP");
    reveal_strlit("ENC");
    reveal_strlit("LSB");
    reveal_strlit("SAVE");
    reveal_strlit("EXT");
    reveal_strlit("DEC");
    reveal_strlit("PARSE");
    let (a, c) = (tag_of(phase), tag_of(other));
    if phase != other {
        assert(a.len() != c.len() || a[0] != c[0] || a[1] != c[1]);
    }
}

} // verus!
