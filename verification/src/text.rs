//! Text as sequences of characters: decimal numbers, searching and splitting.
use vstd::prelude::*;

verus! {

/// `String::push` appends one character.
pub assume_specification[ String::push ](s: &mut String, c: char)
    ensures
        final(s)@ == old(s)@.push(c),
;

/// The decimal digit for `d`.
pub open spec fn digit_char(d: nat) -> char {
    (48 + d) as char
}

/// `n` in decimal, without leading zeros.
pub open spec fn decimal(n: nat) -> Seq<char>
    decreases n,
{
    if n < 10 {
        seq![digit_char(n)]
    } else {
        decimal(n / 10).push(digit_char(n % 10))
    }
}

/// `n` zeros.
pub open spec fn zeros(n: nat) -> Seq<char> {
    Seq::new(n, |i: int| '0')
}

/// `n` in decimal, filled up with leading zeros to `width` characters.
pub open spec fn padded(n: nat, width: nat) -> Seq<char> {
    let plain = decimal(n);
    if plain.len() < width {
        zeros((width - plain.len()) as nat) + plain
    } else {
        plain
    }
}

/// Whether `c` is one of `0` to `9`.
pub open spec fn is_digit(c: char) -> bool {
    '0' <= c <= '9'
}

/// Whether every character of `s` is a decimal digit.
pub open spec fn all_digits(s: Seq<char>) -> bool {
    forall|i: int| 0 <= i < s.len() ==> is_digit(#[trigger] s[i])
}

/// The number that the digits `s` write.
pub open spec fn decimal_value(s: Seq<char>) -> nat
    decreases s.len(),
{
    if s.len() == 0 {
        0
    } else {
        decimal_value(s.drop_last()) * 10 + (s.last() as nat - 48) as nat
    }
}

/// The unsigned number that `s` writes, if it is at most `max`: digits, with
/// one `+` allowed before them.
pub open spec fn parsed_number(s: Seq<char>, max: nat) -> Option<nat> {
    let body = if s.len() > 1 && s[0] == '+' {
        s.skip(1)
    } else {
        s
    };
    if body.len() > 0 && all_digits(body) && decimal_value(body) <= max {
        Some(decimal_value(body))
    } else {
        None
    }
}

/// Whether `pattern` stands in `s` from position `at` on.
pub open spec fn occurs_at(s: Seq<char>, pattern: Seq<char>, at: int) -> bool {
    0 <= at && at + pattern.len() <= s.len() && s.subrange(at, at + pattern.len()) == pattern
}

/// The last position at or before `from` where `pattern` stands in `s`.
pub open spec fn last_occurrence(s: Seq<char>, pattern: Seq<char>, from: int) -> Option<int>
    decreases from + 1,
{
    if from < 0 {
        None
    } else if occurs_at(s, pattern, from) {
        Some(from)
    } else {
        last_occurrence(s, pattern, from - 1)
    }
}

/// The first position at or after `from` where `pattern` stands in `s`.
pub open spec fn first_occurrence(s: Seq<char>, pattern: Seq<char>, from: int) -> Option<int>
    decreases s.len() - from + 1,
{
    if from > s.len() {
        None
    } else if occurs_at(s, pattern, from) {
        Some(from)
    } else {
        first_occurrence(s, pattern, from + 1)
    }
}

/// Whether `c` separates the components of a path.
pub open spec fn is_separator(c: char) -> bool {
    c == '/' || c == '\\'
}

/// The part of `s` after its last path separator.
pub open spec fn last_component(s: Seq<char>) -> Seq<char>
    decreases s.len(),
{
    if s.len() == 0 || is_separator(s.last()) {
        Seq::empty()
    } else {
        last_component(s.drop_last()).push(s.last())
    }
}

/// Decimal text is made of digits, is never empty, and its value is the number.
pub proof fn lemma_decimal(n: nat)
    ensures
        decimal(n).len() >= 1,
        all_digits(decimal(n)),
        decimal_value(decimal(n)) == n,
    decreases n,
{
    if n < 10 {
        assert(decimal(n).drop_last() =~= Seq::<char>::empty());
        assert(decimal_value(Seq::<char>::empty()) == 0);
    } else {
        lemma_decimal(n / 10);
        assert(decimal(n).drop_last() =~= decimal(n / 10));
    }
}

/// Leading zeros do not change the value.
proof fn lemma_leading_zeros(count: nat, s: Seq<char>)
    requires
        all_digits(s),
    ensures
        all_digits(zeros(count) + s),
        decimal_value(zeros(count) + s) == decimal_value(s),
    decreases s.len(), count,
{
    if s.len() > 0 {
        lemma_leading_zeros(count, s.drop_last());
        assert((zeros(count) + s).drop_last() =~= zeros(count) + s.drop_last());
        assert(decimal_value(zeros(count) + s) == decimal_value(zeros(count) + s.drop_last()) * 10
            + (s.last() as nat - 48) as nat);
    } else if count > 0 {
        lemma_leading_zeros((count - 1) as nat, s);
        assert((zeros(count) + s).drop_last() =~= zeros((count - 1) as nat) + s);
    } else {
        assert(zeros(count) + s =~= s);
    }
}

/// Padded decimal text is made of digits and reads back as the number.
pub proof fn lemma_padded(n: nat, width: nat)
    ensures
        padded(n, width).len() >= 1,
        all_digits(padded(n, width)),
        decimal_value(padded(n, width)) == n,
        forall|max: nat| n <= max ==> #[trigger] parsed_number(padded(n, width), max) == Some(n),
{
    lemma_decimal(n);
    if decimal(n).len() < width {
        lemma_leading_zeros((width - decimal(n).len()) as nat, decimal(n));
    }
    assert(padded(n, width)[0] != '+');
}

/// Numbers of up to four digits take exactly four characters when padded to four.
pub proof fn lemma_padded_four(n: nat)
    requires
        n <= 9999,
    ensures
        padded(n, 4).len() == 4,
{
    reveal_with_fuel(decimal, 5);
}

/// The last component of a name holds no separator.
pub proof fn lemma_last_component(s: Seq<char>)
    ensures
        last_component(s).len() <= s.len(),
        forall|i: int| 0 <= i < last_component(s).len() ==> !is_separator(#[trigger] last_component(s)[i]),
    decreases s.len(),
{
    if s.len() > 0 && !is_separator(s.last()) {
        lemma_last_component(s.drop_last());
    }
}

/// A name without separators is its own last component.
pub proof fn lemma_last_component_whole(s: Seq<char>)
    requires
        forall|i: int| 0 <= i < s.len() ==> !is_separator(#[trigger] s[i]),
    ensures
        last_component(s) == s,
    decreases s.len(),
{
    if s.len() > 0 {
        lemma_last_component_whole(s.drop_last());
        assert(last_component(s) =~= s);
    }
}

/// The characters of `s`.
pub fn chars_of(s: &str) -> (out: Vec<char>)
    ensures
        out@ == s@,
{
    let mut out: Vec<char> = Vec::new();
    for c in it: s.chars()
        invariant
            it.seq() == s@,
            out@ == s@.take(it.index() as int),
    {
        out.push(c);
    }
    assert(s@.take(s@.len() as int) =~= s@);
    out
}

/// The text made of the characters `s`.
pub fn string_of(s: &[char]) -> (out: String)
    ensures
        out@ == s@,
{
    let mut out: String = String::new();
    let mut k: usize = 0;
    while k < s.len()
        invariant
            k <= s@.len(),
            out@ == s@.take(k as int),
        decreases s.len() - k,
    {
        out.push(s[k]);
        k = k + 1;
        assert(s@.take(k as int) =~= s@.take(k - 1).push(s@[k - 1]));
    }
    assert(s@.take(s@.len() as int) =~= s@);
    out
}

/// Appends the text `more` to `out`.
pub fn push_text(out: &mut String, more: &str)
    ensures
        final(out)@ == old(out)@ + more@,
{
    out.append(more);
}

/// Appends `n` in decimal to `out`.
pub fn push_decimal(out: &mut String, n: u64)
    ensures
        final(out)@ == old(out)@ + decimal(n as nat),
    decreases n,
{
    if n >= 10 {
        push_decimal(out, n / 10);
    }
    out.push((48u8 + (n % 10) as u8) as char);
    assert(out@ =~= old(out)@ + decimal(n as nat));
}

/// `n` in decimal, as characters.
fn decimal_chars(n: u64) -> (out: Vec<char>)
    ensures
        out@ == decimal(n as nat),
{
    let mut text: String = String::new();
    push_decimal(&mut text, n);
    assert(text@ =~= decimal(n as nat));
    chars_of(text.as_str())
}

/// Appends `n` in decimal to `out`, filled up with leading zeros to `width` characters.
pub fn push_padded(out: &mut String, n: u64, width: usize)
    ensures
        final(out)@ == old(out)@ + padded(n as nat, width as nat),
{
    let digits: Vec<char> = decimal_chars(n);
    let mut k: usize = digits.len();
    let ghost mut done: nat = 0;
    while k < width
        invariant
            k == digits@.len() + done,
            digits@ == decimal(n as nat),
            k <= width || done == 0,
            out@ == old(out)@ + zeros(done),
        decreases width - k,
    {
        out.push('0');
        k = k + 1;
        proof {
            done = done + 1;
            assert(zeros(done) =~= zeros((done - 1) as nat).push('0'));
            assert(out@ =~= old(out)@ + zeros(done));
        }
    }
    push_decimal(out, n);
    assert(out@ =~= old(out)@ + padded(n as nat, width as nat));
}

/// Once the digits read so far exceed a bound, the whole number does.
proof fn lemma_decimal_value_grows(s: Seq<char>, k: int)
    requires
        all_digits(s),
        0 <= k <= s.len(),
    ensures
        decimal_value(s.take(k)) <= decimal_value(s),
    decreases s.len() - k,
{
    if k < s.len() {
        lemma_decimal_value_grows(s, k + 1);
        assert(s.take(k + 1).drop_last() =~= s.take(k));
    } else {
        assert(s.take(k) =~= s);
    }
}

/// Reads an unsigned decimal number that is at most `max`.
pub fn parse_number(s: &[char], max: u64) -> (out: Option<u64>)
    ensures
        out is Some <==> parsed_number(s@, max as nat) is Some,
        out matches Some(n) ==> parsed_number(s@, max as nat) == Some(n as nat),
{
    let total: usize = s.len();
    let start: usize = if total > 1 && s[0] == '+' {
        1
    } else {
        0
    };
    let ghost body = if s@.len() > 1 && s@[0] == '+' {
        s@.skip(1)
    } else {
        s@
    };
    assert(body =~= s@.skip(start as int));
    if total == start {
        return None;
    }
    let mut value: u64 = 0;
    let mut k: usize = start;
    assert(body.take(0) =~= Seq::<char>::empty());
    while k < total
        invariant
            start <= k <= total == s@.len(),
            start < total,
            body == s@.skip(start as int),
            parsed_number(s@, max as nat) == (if body.len() > 0 && all_digits(body)
                && decimal_value(body) <= max {
                Some(decimal_value(body))
            } else {
                None
            }),
            all_digits(body.take(k - start)),
            value as nat == decimal_value(body.take(k - start)),
            value <= max,
        decreases total - k,
    {
        let c: char = s[k];
        assert(body[k - start] == c);
        if !('0' <= c && c <= '9') {
            assert(!all_digits(body));
            return None;
        }
        let digit: u64 = (c as u32 - 48) as u64;
        let ghost next = body.take(k - start + 1);
        proof {
            assert(next.drop_last() =~= body.take(k - start));
            assert(next.last() == c);
            if all_digits(body) {
                lemma_decimal_value_grows(body, k - start + 1);
            }
            assert forall|i: int| 0 <= i < next.len() implies is_digit(#[trigger] next[i]) by {
                if i < k - start {
                    assert(body.take(k - start)[i] == next[i]);
                }
            }
        }
        let larger: u128 = value as u128 * 10 + digit as u128;
        if larger > max as u128 {
            return None;
        }
        value = larger as u64;
        k = k + 1;
    }
    assert(body.take(total - start) =~= body);
    Some(value)
}

/// Whether `pattern` stands in `s` from position `at` on.
fn stands_at(s: &[char], pattern: &[char], at: usize) -> (found: bool)
    requires
        at <= s@.len(),
    ensures
        found == occurs_at(s@, pattern@, at as int),
{
    if pattern.len() > s.len() - at {
        return false;
    }
    let mut k: usize = 0;
    let total: usize = s.len();
    while k < pattern.len()
        invariant
            k <= pattern@.len(),
            at + pattern@.len() <= total == s@.len(),
            forall|j: int| 0 <= j < k ==> s@[at + j] == pattern@[j],
        decreases pattern.len() - k,
    {
        if s[at + k] != pattern[k] {
            assert(s@.subrange(at as int, at + pattern@.len())[k as int] != pattern@[k as int]);
            return false;
        }
        k = k + 1;
    }
    assert(s@.subrange(at as int, at + pattern@.len()) =~= pattern@);
    true
}

/// The last position where `pattern` stands in `s`.
pub fn find_last(s: &[char], pattern: &[char]) -> (out: Option<usize>)
    ensures
        out is Some <==> last_occurrence(s@, pattern@, s@.len() as int) is Some,
        out matches Some(i) ==> last_occurrence(s@, pattern@, s@.len() as int) == Some(i as int),
{
    let mut from: usize = s.len();
    loop
        invariant
            from <= s@.len(),
            last_occurrence(s@, pattern@, s@.len() as int) == last_occurrence(
                s@,
                pattern@,
                from as int,
            ),
        decreases from,
    {
        if stands_at(s, pattern, from) {
            return Some(from);
        }
        if from == 0 {
            assert(last_occurrence(s@, pattern@, -1) is None);
            return None;
        }
        from = from - 1;
    }
}

/// The first position where `pattern` stands in `s`.
pub fn find_first(s: &[char], pattern: &[char]) -> (out: Option<usize>)
    ensures
        out is Some <==> first_occurrence(s@, pattern@, 0) is Some,
        out matches Some(i) ==> first_occurrence(s@, pattern@, 0) == Some(i as int),
{
    let mut from: usize = 0;
    let total: usize = s.len();
    loop
        invariant
            from <= total == s@.len(),
            first_occurrence(s@, pattern@, 0) == first_occurrence(s@, pattern@, from as int),
        decreases total - from,
    {
        if stands_at(s, pattern, from) {
            return Some(from);
        }
        if from == total {
            assert(first_occurrence(s@, pattern@, total + 1) is None);
            return None;
        }
        from = from + 1;
    }
}

/// Copies the characters of `s` from `from` up to `to`.
pub fn copy_chars(s: &[char], from: usize, to: usize) -> (out: Vec<char>)
    requires
        from <= to <= s@.len(),
    ensures
        out@ == s@.subrange(from as int, to as int),
{
    vstd::slice::slice_to_vec(vstd::slice::slice_subrange(s, from, to))
}

/// The last component starts where the trailing characters without separators start.
proof fn lemma_last_component_from(s: Seq<char>, from: int)
    requires
        0 <= from <= s.len(),
        from == 0 || is_separator(s[from - 1]),
        forall|i: int| from <= i < s.len() ==> !is_separator(#[trigger] s[i]),
    ensures
        last_component(s) == s.skip(from),
    decreases s.len(),
{
    if s.len() > from {
        lemma_last_component_from(s.drop_last(), from);
        assert(s.drop_last().skip(from).push(s.last()) =~= s.skip(from));
    } else {
        assert(s.skip(from) =~= Seq::<char>::empty());
    }
}

/// The part of `s` after its last path separator.
pub fn after_last_separator(s: &[char]) -> (out: Vec<char>)
    ensures
        out@ == last_component(s@),
{
    let total: usize = s.len();
    let mut from: usize = total;
    while from > 0 && !(s[from - 1] == '/' || s[from - 1] == '\\')
        invariant
            from <= total == s@.len(),
            forall|i: int| from <= i < total ==> !is_separator(#[trigger] s@[i]),
        decreases from,
    {
        from = from - 1;
    }
    proof {
        lemma_last_component_from(s@, from as int);
        assert(s@.skip(from as int) =~= s@.subrange(from as int, total as int));
    }
    copy_chars(s, from, total)
}

/// Whether two texts are the same.
pub fn same_text(a: &[char], b: &[char]) -> (equal: bool)
    ensures
        equal == (a@ == b@),
{
    if a.len() != b.len() {
        return false;
    }
    let found: bool = stands_at(a, b, 0);
    assert(a@.subrange(0, b@.len() as int) =~= a@);
    found
}

/// Whether a letter, of either case, is that small one.
pub open spec fn is_letter(c: char, small: char) -> bool {
    c == small || c as int + 32 == small as int
}

/// Whether a text is `png`, in letters of either case.
pub open spec fn is_png(text: Seq<char>) -> bool {
    &&& text.len() == 3
    &&& is_letter(text[0], 'p')
    &&& is_letter(text[1], 'n')
    &&& is_letter(text[2], 'g')
}

/// Decimal text writes a number digit by digit: the text of ten times a number and a
/// digit is the text of the number and the digit.
pub proof fn law_decimal(n: nat, d: nat)
    requires
        d < 10,
    ensures
        decimal(d) == seq![(48 + d) as char],
        n > 0 ==> decimal(10 * n + d) == decimal(n).push((48 + d) as char),
        decimal_value(decimal(n)) == n,
        all_digits(decimal(n)),
{
    lemma_decimal(n);
    assert((10 * n + d) / 10 == n && (10 * n + d) % 10 == d);
}

/// Padded text is the decimal text with zeros before it, and has the width asked for
/// unless the number is longer.
pub proof fn law_padded(n: nat, width: nat)
    ensures
        ({
            let (text, plain) = (padded(n, width), decimal(n));
            let zeros = text.len() - plain.len();
            &&& text.len() == if plain.len() < width { width } else { plain.len() }
            &&& text.skip(zeros) == plain
            &&& forall|i: int| 0 <= i < zeros ==> #[trigger] text[i] == '0'
        }),
        decimal_value(padded(n, width)) == n,
{
    lemma_padded(n, width);
    let (text, plain) = (padded(n, width), decimal(n));
    assert(text.skip(text.len() - plain.len()) =~= plain);
}

/// Text that is read as a number is digits, with at most one `+` before them, and
/// writes a number within the bound; all such text is read.
pub proof fn law_numbers_read(digits: Seq<char>, max: nat)
    requires
        digits.len() > 0,
        forall|i: int| 0 <= i < digits.len() ==> '0' <= #[trigger] digits[i] <= '9',
    ensures
        decimal_value(digits) <= max ==> parsed_number(digits, max) == Some(decimal_value(digits)),
        decimal_value(digits) <= max ==> parsed_number(seq!['+'] + digits, max) == Some(
            decimal_value(digits),
        ),
        decimal_value(digits) > max ==> parsed_number(digits, max) is None,
        decimal_value(digits) > max ==> parsed_number(seq!['+'] + digits, max) is None,
        decimal_value(digits.push('0')) == 10 * decimal_value(digits),
{
    assert((seq!['+'] + digits).skip(1) =~= digits);
    assert(digits.push('0').drop_last() =~= digits);
}

/// Text with another character than digits behind its first is not read as a number.
pub proof fn law_other_text_is_no_number(s: Seq<char>, i: int, max: nat)
    requires
        0 <= i < s.len(),
        !('0' <= s[i] <= '9'),
        i > 0 || s[0] != '+' || s.len() == 1,
    ensures
        parsed_number(s, max) is None,
        parsed_number(Seq::empty(), max) is None,
{
    if s.len() > 1 && s[0] == '+' {
        assert(s.skip(1)[i - 1] == s[i]);
        assert(!is_digit(s.skip(1)[i - 1]));
    } else {
        assert(!is_digit(s[i]));
    }
}

/// What stands behind the last separator of a path, of either kind, is its last
/// component.
pub proof fn law_last_component(dir: Seq<char>, separator: char, base: Seq<char>)
    requires
        separator == '/' || separator == '\\',
        forall|i: int| 0 <= i < base.len() ==> #[trigger] base[i] != '/' && base[i] != '\\',
    ensures
        last_component(dir.push(separator) + base) == base,
        last_component(base) == base,
{
    let path = dir.push(separator) + base;
    lemma_last_component_from(path, dir.len() as int + 1);
    assert(path.skip(dir.len() as int + 1) =~= base);
    lemma_last_component_whole(base);
}

/// The last occurrence of a text is an occurrence that none follows; where there is
/// one, one is found.
pub proof fn law_last_occurrence(s: Seq<char>, pattern: Seq<char>, at: int)
    requires
        0 <= at,
        at + pattern.len() <= s.len(),
        s.subrange(at, at + pattern.len()) == pattern,
    ensures
        last_occurrence(s, pattern, s.len() as int) matches Some(found) && at <= found && found
            + pattern.len() <= s.len() && s.subrange(found, found + pattern.len()) == pattern,
        first_occurrence(s, pattern, 0) matches Some(found) && 0 <= found <= at && s.subrange(
            found,
            found + pattern.len(),
        ) == pattern,
{
    lemma_last_from(s, pattern, at, s.len() as int);
    lemma_first_from(s, pattern, at, 0);
}

/// Where an occurrence lies before a place, the last one before it is found.
proof fn lemma_last_from(s: Seq<char>, pattern: Seq<char>, at: int, from: int)
    requires
        occurs_at(s, pattern, at),
        at <= from,
    ensures
        last_occurrence(s, pattern, from) matches Some(found) && at <= found && occurs_at(
            s,
            pattern,
            found,
        ),
    decreases from - at,
{
    if !occurs_at(s, pattern, from) {
        lemma_last_from(s, pattern, at, from - 1);
    }
}

/// Where an occurrence lies behind a place, the first one behind it is found.
proof fn lemma_first_from(s: Seq<char>, pattern: Seq<char>, at: int, from: int)
    requires
        occurs_at(s, pattern, at),
        0 <= from <= at,
    ensures
        first_occurrence(s, pattern, from) matches Some(found) && from <= found <= at && occurs_at(
            s,
            pattern,
            found,
        ),
    decreases at - from,
{
    if !occurs_at(s, pattern, from) {
        lemma_first_from(s, pattern, at, from + 1);
    }
}

/// The extension `png` is recognized in letters of either case, and no other is.
pub proof fn law_png_extension(text: Seq<char>)
    ensures
        is_png(text) <==> text.len() == 3 && (text[0] == 'p' || text[0] == 'P') && (text[1] == 'n'
            || text[1] == 'N') && (text[2] == 'g' || text[2] == 'G'),
{
}

} // verus!
