//! The names of the parts that a file is split into.
use crate::text::{
    chars_of, copy_chars, find_first, find_last, first_occurrence, is_digit, last_occurrence,
    lemma_padded, occurs_at, padded, parse_number, parsed_number, push_padded, push_text, string_of,
};
use vstd::prelude::*;

verus! {

/// The name in the header of part `index` of `total`.
pub open spec fn part_name(base: Seq<char>, index: u32, total: u32) -> Seq<char> {
    base + ".part"@ + padded(index as nat, 4) + "of"@ + padded(total as nat, 4)
}

/// The base, index and total in the name of a part, if it is one.
pub open spec fn parsed_part_name(name: Seq<char>) -> Option<(Seq<char>, u32, u32)> {
    match last_occurrence(name, ".part"@, name.len() as int) {
        None => None,
        Some(at) => {
            let suffix = name.skip(at + 5);
            match first_occurrence(suffix, "of"@, 0) {
                None => None,
                Some(of) => match (
                    parsed_number(suffix.take(of), u32::MAX as nat),
                    parsed_number(suffix.skip(of + 2), u32::MAX as nat),
                ) {
                    (Some(index), Some(total)) => if index == 0 || total == 0 {
                        None
                    } else {
                        Some((name.take(at), index as u32, total as u32))
                    },
                    _ => None,
                },
            }
        },
    }
}

/// The name in the header of part `index` of `total`.
pub fn format_part_header_name(base: &str, index: u32, total: u32) -> (out: String)
    ensures
        out@ == part_name(base@, index, total),
{
    let mut out: String = String::new();
    push_text(&mut out, base);
    push_text(&mut out, ".part");
    push_padded(&mut out, index as u64, 4);
    push_text(&mut out, "of");
    push_padded(&mut out, total as u64, 4);
    assert(out@ =~= part_name(base@, index, total));
    out
}

/// The base, index and total in the name of a part, in their mathematical views.
pub open spec fn part_view(p: Option<(String, u32, u32)>) -> Option<(Seq<char>, u32, u32)> {
    match p {
        Some((base, index, total)) => Some((base@, index, total)),
        None => None,
    }
}

/// Reads the name of a part.
pub fn parse_part_header_name(name: &str) -> (out: Option<(String, u32, u32)>)
    ensures
        part_view(out) == parsed_part_name(name@),
{
    proof {
        reveal_strlit(".part");
        reveal_strlit("of");
    }
    let chars: Vec<char> = chars_of(name);
    let marker: Vec<char> = chars_of(".part");
    match find_last(chars.as_slice(), marker.as_slice()) {
        None => None,
        Some(at) => {
            proof {
                lemma_last_occurrence(name@, ".part"@, name@.len() as int);
            }
            let end: usize = chars.len();
            let suffix: Vec<char> = copy_chars(chars.as_slice(), at + 5, end);
            assert(suffix@ =~= name@.skip(at + 5));
            let of_chars: Vec<char> = chars_of("of");
            match find_first(suffix.as_slice(), of_chars.as_slice()) {
                None => None,
                Some(of) => {
                    proof {
                        lemma_first_occurrence(suffix@, "of"@, 0);
                    }
                    let left: Vec<char> = copy_chars(suffix.as_slice(), 0, of);
                    let right: Vec<char> = copy_chars(suffix.as_slice(), of + 2, end - at - 5);
                    assert(left@ =~= suffix@.take(of as int));
                    assert(right@ =~= suffix@.skip(of + 2));
                    match (
                        parse_number(left.as_slice(), u32::MAX as u64),
                        parse_number(right.as_slice(), u32::MAX as u64),
                    ) {
                        (Some(index), Some(total)) => {
                            if index == 0 || total == 0 {
                                return None;
                            }
                            let base: Vec<char> = copy_chars(chars.as_slice(), 0, at);
                            assert(base@ =~= name@.take(at as int));
                            Some((string_of(base.as_slice()), index as u32, total as u32))
                        },
                        _ => None,
                    }
                },
            }
        },
    }
}

/// A last occurrence is one.
proof fn lemma_last_occurrence(s: Seq<char>, pattern: Seq<char>, from: int)
    ensures
        last_occurrence(s, pattern, from) matches Some(at) ==> occurs_at(s, pattern, at),
    decreases from + 1,
{
    if from >= 0 && !occurs_at(s, pattern, from) {
        lemma_last_occurrence(s, pattern, from - 1);
    }
}

/// A first occurrence is one.
proof fn lemma_first_occurrence(s: Seq<char>, pattern: Seq<char>, from: int)
    requires
        0 <= from,
    ensures
        first_occurrence(s, pattern, from) matches Some(at) ==> occurs_at(s, pattern, at),
    decreases s.len() - from + 1,
{
    if from <= s.len() && !occurs_at(s, pattern, from) {
        lemma_first_occurrence(s, pattern, from + 1);
    }
}

/// An occurrence that none follows is the last one.
proof fn lemma_is_last(s: Seq<char>, pattern: Seq<char>, at: int, from: int)
    requires
        0 <= at <= from,
        occurs_at(s, pattern, at),
        forall|i: int| at < i <= from ==> !#[trigger] occurs_at(s, pattern, i),
    ensures
        last_occurrence(s, pattern, from) == Some(at),
    decreases from - at,
{
    if from > at {
        assert(!occurs_at(s, pattern, from));
        lemma_is_last(s, pattern, at, from - 1);
    }
}

/// An occurrence that none precedes is the first one.
proof fn lemma_is_first(s: Seq<char>, pattern: Seq<char>, at: int, from: int)
    requires
        0 <= from <= at,
        occurs_at(s, pattern, at),
        forall|i: int| from <= i < at ==> !#[trigger] occurs_at(s, pattern, i),
    ensures
        first_occurrence(s, pattern, from) == Some(at),
    decreases at - from,
{
    if from < at {
        assert(!occurs_at(s, pattern, from));
        lemma_is_first(s, pattern, at, from + 1);
    }
}

/// Reading the name of a part gives back its base, index and total, whatever the
/// base is.
pub proof fn law_part_name_round_trip(base: Seq<char>, index: u32, total: u32)
    requires
        index > 0,
        total > 0,
    ensures
        parsed_part_name(part_name(base, index, total)) == Some((base, index, total)),
{
    reveal_strlit(".part");
    reveal_strlit("of");
    let name = part_name(base, index, total);
    let i = padded(index as nat, 4);
    let t = padded(total as nat, 4);
    let at = base.len() as int;
    lemma_padded(index as nat, 4);
    lemma_padded(total as nat, 4);
    let suffix = name.skip(at + 5);
    assert(suffix =~= i + "of"@ + t);
    assert(name.subrange(at, at + 5) =~= ".part"@);
    assert forall|p: int| at < p <= name.len() implies !#[trigger] occurs_at(name, ".part"@, p) by {
        if occurs_at(name, ".part"@, p) {
            assert(name.subrange(p, p + 5)[0] == '.');
            assert(name[p] == '.');
            if p >= at + 5 {
                assert(suffix[p - at - 5] == '.');
                if p - at - 5 < i.len() {
                    assert(is_digit(i[p - at - 5]));
                } else if p - at - 5 >= i.len() + 2 {
                    assert(is_digit(t[p - at - 5 - i.len() - 2]));
                }
            }
        }
    }
    lemma_is_last(name, ".part"@, at, name.len() as int);
    let of = i.len() as int;
    assert(suffix.subrange(of, of + 2) =~= "of"@);
    assert forall|p: int| 0 <= p < of implies !#[trigger] occurs_at(suffix, "of"@, p) by {
        if occurs_at(suffix, "of"@, p) {
            assert(suffix.subrange(p, p + 2)[0] == 'o');
            assert(suffix[p] == i[p]);
            assert(is_digit(i[p]));
        }
    }
    lemma_is_first(suffix, "of"@, of, 0);
    assert(suffix.take(of) =~= i);
    assert(suffix.skip(of + 2) =~= t);
    assert(name.take(at) =~= base);
}

/// The part of a file name before its last dot; a name that has no dot, or only
/// one at its start, is taken whole.
pub open spec fn stem_of(name: Seq<char>) -> Seq<char> {
    match last_occurrence(name, "."@, name.len() as int) {
        Some(at) => if at == 0 {
            name
        } else {
            name.take(at)
        },
        None => name,
    }
}

/// The name of the file that part `index` is written to.
pub open spec fn part_file_name(name: Seq<char>, index: u32) -> Seq<char> {
    stem_of(name) + "_part"@ + padded(index as nat, 4) + ".png"@
}

/// The part of a file name before its last dot.
fn file_stem(name: &str) -> (out: String)
    ensures
        out@ == stem_of(name@),
{
    proof {
        reveal_strlit(".");
    }
    let chars: Vec<char> = chars_of(name);
    let dot: Vec<char> = chars_of(".");
    match find_last(chars.as_slice(), dot.as_slice()) {
        Some(at) => {
            if at == 0 {
                return string_of(chars.as_slice());
            }
            proof {
                lemma_last_occurrence(name@, "."@, name@.len() as int);
            }
            let stem: Vec<char> = copy_chars(chars.as_slice(), 0, at);
            assert(stem@ =~= name@.take(at as int));
            string_of(stem.as_slice())
        },
        None => string_of(chars.as_slice()),
    }
}

/// The name of the file that part `index` of a file is written to.
pub fn format_part_file_name(name: &str, index: u32) -> (out: String)
    ensures
        out@ == part_file_name(name@, index),
{
    let mut out: String = file_stem(name);
    push_text(&mut out, "_part");
    push_padded(&mut out, index as u64, 4);
    push_text(&mut out, ".png");
    assert(out@ =~= part_file_name(name@, index));
    out
}

/// The digits of a number of up to four.
proof fn lemma_four_digits(n: nat)
    requires
        n <= 9_999,
    ensures
        padded(n, 4) == seq![
            (48 + n / 1000) as char,
            (48 + n / 100 % 10) as char,
            (48 + n / 10 % 10) as char,
            (48 + n % 10) as char,
        ],
{
    reveal_with_fuel(crate::text::decimal, 5);
    let digits = seq![
        (48 + n / 1000) as char,
        (48 + n / 100 % 10) as char,
        (48 + n / 10 % 10) as char,
        (48 + n % 10) as char,
    ];
    if n < 10 {
        assert(padded(n, 4) =~= digits);
    } else if n < 100 {
        assert(padded(n, 4) =~= digits);
    } else if n < 1000 {
        assert(padded(n, 4) =~= digits);
    } else {
        assert(padded(n, 4) =~= digits);
    }
}

/// The name of a part is that of the file, `.part`, four digits of its index, `of` and
/// four of the total. Longer numbers take as many digits as they have.
pub proof fn law_part_names(base: Seq<char>, index: u32, total: u32)
    ensures
        part_name(base, index, total) == base + seq!['.', 'p', 'a', 'r', 't'] + padded(
            index as nat,
            4,
        ) + seq!['o', 'f'] + padded(total as nat, 4),
        index <= 9_999 && total <= 9_999 ==> part_name(base, index, total) == base + seq![
            '.',
            'p',
            'a',
            'r',
            't',
            (48 + index / 1000) as char,
            (48 + index / 100 % 10) as char,
            (48 + index / 10 % 10) as char,
            (48 + index % 10) as char,
            'o',
            'f',
            (48 + total / 1000) as char,
            (48 + total / 100 % 10) as char,
            (48 + total / 10 % 10) as char,
            (48 + total % 10) as char,
        ],
{
    reveal_strlit(".part");
    reveal_strlit("of");
    assert(".part"@ =~= seq!['.', 'p', 'a', 'r', 't']);
    assert("of"@ =~= seq!['o', 'f']);
    if index <= 9_999 && total <= 9_999 {
        lemma_four_digits(index as nat);
        lemma_four_digits(total as nat);
        assert(part_name(base, index, total) =~= base + seq![
            '.',
            'p',
            'a',
            'r',
            't',
            (48 + index / 1000) as char,
            (48 + index / 100 % 10) as char,
            (48 + index / 10 % 10) as char,
            (48 + index % 10) as char,
            'o',
            'f',
            (48 + total / 1000) as char,
            (48 + total / 100 % 10) as char,
            (48 + total / 10 % 10) as char,
            (48 + total % 10) as char,
        ]);
    }
}

/// A name that is read as that of a part is one: a base, `.part`, a number, `of` and
/// another number, neither of them 0.
pub proof fn law_part_names_are_read(name: Seq<char>) -> (numbers: (Seq<char>, Seq<char>))
    requires
        parsed_part_name(name) is Some,
    ensures
        ({
            let (base, index, total) = parsed_part_name(name)->Some_0;
            &&& name == base + ".part"@ + numbers.0 + "of"@ + numbers.1
            &&& parsed_number(numbers.0, 0xffff_ffff) == Some(index as nat)
            &&& parsed_number(numbers.1, 0xffff_ffff) == Some(total as nat)
            &&& index > 0
            &&& total > 0
        }),
{
    reveal_strlit(".part");
    reveal_strlit("of");
    let at = last_occurrence(name, ".part"@, name.len() as int)->Some_0;
    lemma_last_occurrence(name, ".part"@, name.len() as int);
    let suffix = name.skip(at + 5);
    let of = first_occurrence(suffix, "of"@, 0)->Some_0;
    lemma_first_occurrence(suffix, "of"@, 0);
    let numbers = (suffix.take(of), suffix.skip(of + 2));
    assert(suffix =~= numbers.0 + "of"@ + numbers.1) by {
        assert(suffix.subrange(of, of + 2) =~= "of"@);
        assert forall|i: int| of <= i < of + 2 implies suffix[i] == "of"@[i - of] by {
            assert(suffix.subrange(of, of + 2)[i - of] == suffix[i]);
        }
    }
    assert(name =~= name.take(at) + ".part"@ + suffix) by {
        assert forall|i: int| at <= i < at + 5 implies name[i] == ".part"@[i - at] by {
            assert(name.subrange(at, at + 5)[i - at] == name[i]);
        }
    }
    assert(name =~= name.take(at) + ".part"@ + numbers.0 + "of"@ + numbers.1);
    numbers
}

/// The file of part `index` is named after the file that is split: its name without the
/// extension, `_part`, four digits and `.png`.
pub proof fn law_part_files(stem: Seq<char>, extension: Seq<char>, index: u32)
    requires
        stem.len() > 0,
        forall|i: int| 0 <= i < extension.len() ==> #[trigger] extension[i] != '.',
    ensures
        part_file_name(stem + "."@ + extension, index) == stem + "_part"@ + padded(index as nat, 4)
            + ".png"@,
        (forall|i: int| 0 < i < stem.len() ==> #[trigger] stem[i] != '.') ==> part_file_name(
            stem,
            index,
        ) == stem + "_part"@ + padded(index as nat, 4) + ".png"@,
{
    reveal_strlit(".");
    let name = stem + "."@ + extension;
    let at = stem.len() as int;
    assert(name.subrange(at, at + 1) =~= "."@);
    assert forall|p: int| at < p <= name.len() implies !#[trigger] occurs_at(name, "."@, p) by {
        if occurs_at(name, "."@, p) {
            assert(name.subrange(p, p + 1)[0] == '.');
            assert(name[p] == extension[p - at - 1]);
        }
    }
    lemma_is_last(name, "."@, at, name.len() as int);
    assert(name.take(at) =~= stem);
    if forall|i: int| 0 < i < stem.len() ==> #[trigger] stem[i] != '.' {
        lemma_last_occurrence(stem, "."@, stem.len() as int);
        if let Some(found) = last_occurrence(stem, "."@, stem.len() as int) {
            assert(stem.subrange(found, found + 1)[0] == '.');
            assert(stem[found] == '.');
        }
    }
}

} // verus!
