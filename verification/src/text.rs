//! Text handling on characters.
//!
//! A string is its sequence of characters. The functions here are the handful of string
//! operations that headers, configuration values and host names need, each stated on that
//! sequence.
use vstd::prelude::*;
use vstd::slice::slice_subrange;
use vstd::string::*;
use vstd::utf8::*;

verus! {

/// `String::push` appends one character to the end of the string.
pub assume_specification[ String::push ](s: &mut String, c: char)
    ensures
        final(s)@ == old(s)@.push(c),
;

/// The characters with the Unicode `White_Space` property.
pub open spec fn is_space(c: char) -> bool {
    let n = c as u32;
    ||| 0x09 <= n <= 0x0d
    ||| n == 0x20
    ||| n == 0x85
    ||| n == 0xa0
    ||| n == 0x1680
    ||| 0x2000 <= n <= 0x200a
    ||| n == 0x2028
    ||| n == 0x2029
    ||| n == 0x202f
    ||| n == 0x205f
    ||| n == 0x3000
}

pub open spec fn is_digit(c: char) -> bool {
    '0' <= c <= '9'
}

/// `s` without its leading white space.
pub open spec fn trimmed_start(s: Seq<char>) -> Seq<char>
    decreases s.len(),
{
    if s.len() > 0 && is_space(s[0]) {
        trimmed_start(s.skip(1))
    } else {
        s
    }
}

/// `s` without its trailing white space.
pub open spec fn trimmed_end(s: Seq<char>) -> Seq<char>
    decreases s.len(),
{
    if s.len() > 0 && is_space(s.last()) {
        trimmed_end(s.drop_last())
    } else {
        s
    }
}

/// `s` without white space at either end.
pub open spec fn trimmed(s: Seq<char>) -> Seq<char> {
    trimmed_end(trimmed_start(s))
}

pub open spec fn lower_char(c: char) -> char {
    if 'A' <= c <= 'Z' {
        ((c as u8) + 32) as u8 as char
    } else {
        c
    }
}

/// `s` with its ASCII capitals made small.
pub open spec fn lowered(s: Seq<char>) -> Seq<char> {
    s.map_values(|c: char| lower_char(c))
}

/// Where `c` first stands in `s` at `from` or behind it; the length of `s` where it does not.
pub open spec fn find_from(s: Seq<char>, c: char, from: int) -> int
    decreases s.len() - from,
{
    if from < 0 || from >= s.len() {
        s.len() as int
    } else if s[from] == c {
        from
    } else {
        find_from(s, c, from + 1)
    }
}

/// What stands before and behind the first `c` in `s`.
pub open spec fn split_at_first(s: Seq<char>, c: char) -> Option<(Seq<char>, Seq<char>)> {
    let i = find_from(s, c, 0);
    if i < s.len() {
        Some((s.take(i), s.skip(i + 1)))
    } else {
        None
    }
}

/// The parts of `s` between its `c`s: one more than there are `c`s.
pub open spec fn parts(s: Seq<char>, c: char) -> Seq<Seq<char>>
    decreases s.len(),
{
    proof {
        lemma_find_from(s, c, 0);
    }
    let i = find_from(s, c, 0);
    if i < s.len() {
        seq![s.take(i)] + parts(s.skip(i + 1), c)
    } else {
        seq![s]
    }
}

/// The value of a run of decimal digits.
pub open spec fn digits_value(s: Seq<char>) -> nat
    decreases s.len(),
{
    if s.len() == 0 {
        0
    } else {
        digits_value(s.drop_last()) * 10 + ((s.last() as u32 - '0' as u32) as nat)
    }
}

pub open spec fn all_digits(s: Seq<char>) -> bool {
    forall|i: int| 0 <= i < s.len() ==> is_digit(#[trigger] s[i])
}

/// A decimal number that fits in 64 bits, with an optional plus sign in front.
pub open spec fn parsed_u64(s: Seq<char>) -> Option<u64> {
    let d = if s.len() > 0 && s[0] == '+' {
        s.skip(1)
    } else {
        s
    };
    if d.len() > 0 && all_digits(d) && digits_value(d) <= u64::MAX {
        Some(digits_value(d) as u64)
    } else {
        None
    }
}

pub open spec fn digit_char(n: int) -> char {
    (n + 48) as u8 as char
}

/// `n` written in decimal, without leading zeros.
pub open spec fn decimal(n: nat) -> Seq<char>
    decreases n,
{
    if n < 10 {
        seq![digit_char(n as int)]
    } else {
        decimal(n / 10).push(digit_char((n % 10) as int))
    }
}

pub proof fn lemma_find_from(s: Seq<char>, c: char, from: int)
    requires
        0 <= from <= s.len(),
    ensures
        from <= find_from(s, c, from) <= s.len(),
        find_from(s, c, from) < s.len() ==> s[find_from(s, c, from)] == c,
        forall|j: int| from <= j < find_from(s, c, from) ==> s[j] != c,
    decreases s.len() - from,
{
    if from < s.len() && s[from] != c {
        lemma_find_from(s, c, from + 1);
    }
}

/// A position that holds `c`, with no `c` before it, is the first one.
pub proof fn lemma_find_is(s: Seq<char>, c: char, from: int, at: int)
    requires
        0 <= from <= at <= s.len(),
        at < s.len() ==> s[at] == c,
        forall|j: int| from <= j < at ==> s[j] != c,
    ensures
        find_from(s, c, from) == at,
    decreases at - from,
{
    if from < at {
        lemma_find_is(s, c, from + 1, at);
    }
}

/// Writing a number and reading it back gives the number.
pub proof fn lemma_decimal_reads_back(n: nat)
    ensures
        decimal(n).len() > 0,
        all_digits(decimal(n)),
        digits_value(decimal(n)) == n,
    decreases n,
{
    if n < 10 {
        assert(decimal(n).drop_last() =~= Seq::empty());
        assert(digits_value(decimal(n).drop_last()) == 0);
    } else {
        lemma_decimal_reads_back(n / 10);
        assert(decimal(n).drop_last() =~= decimal(n / 10));
    }
}

/// The characters of a string.
pub fn chars_of(s: &str) -> (out: Vec<char>)
    ensures
        out@ == s@,
{
    broadcast use group_string_axioms;

    let mut out: Vec<char> = Vec::new();
    for c in it: s.chars()
        invariant
            out@ =~= it.seq().take(it.index() as int),
            it.seq() == s@,
    {
        out.push(c);
    }
    out
}

/// The string made of some characters.
pub fn string_of(s: &[char]) -> (out: String)
    ensures
        out@ == s@,
{
    let mut out = String::new();
    let n: usize = s.len();
    for i in 0..n
        invariant
            n == s@.len(),
            out@ =~= s@.take(i as int),
    {
        out.push(s[i]);
    }
    out
}

/// Whether two strings hold the same characters.
pub fn same(a: &str, b: &str) -> (out: bool)
    ensures
        out == (a@ == b@),
{
    proof {
        encode_utf8_decode_utf8(a@);
        encode_utf8_decode_utf8(b@);
    }
    same_bytes(a.as_bytes(), b.as_bytes())
}

/// Whether two byte strings are equal.
pub fn same_bytes(a: &[u8], b: &[u8]) -> (out: bool)
    ensures
        out == (a@ == b@),
{
    if a.len() != b.len() {
        return false;
    }
    let n: usize = a.len();
    for i in 0..n
        invariant
            n == a@.len(),
            n == b@.len(),
            forall|j: int| 0 <= j < i ==> a@[j] == b@[j],
    {
        if a[i] != b[i] {
            return false;
        }
    }
    assert(a@ =~= b@);
    true
}

/// Whether two runs of characters are equal.
pub fn same_chars(a: &[char], b: &[char]) -> (out: bool)
    ensures
        out == (a@ == b@),
{
    if a.len() != b.len() {
        return false;
    }
    let n: usize = a.len();
    for i in 0..n
        invariant
            n == a@.len(),
            n == b@.len(),
            forall|j: int| 0 <= j < i ==> a@[j] == b@[j],
    {
        if a[i] != b[i] {
            return false;
        }
    }
    assert(a@ =~= b@);
    true
}

pub fn space(c: char) -> (out: bool)
    ensures
        out == is_space(c),
{
    let n: u32 = c as u32;
    (0x09 <= n && n <= 0x0d) || n == 0x20 || n == 0x85 || n == 0xa0 || n == 0x1680 || (0x2000 <= n
        && n <= 0x200a) || n == 0x2028 || n == 0x2029 || n == 0x202f || n == 0x205f || n == 0x3000
}

/// `s` without its leading white space.
pub fn trim_start(s: &[char]) -> (out: &[char])
    ensures
        out@ == trimmed_start(s@),
{
    let n: usize = s.len();
    let mut i: usize = 0;
    assert(s@.skip(0) =~= s@);
    while i < n && space(s[i])
        invariant
            n == s@.len(),
            i <= n,
            trimmed_start(s@) == trimmed_start(s@.skip(i as int)),
        decreases n - i,
    {
        assert(s@.skip(i as int).skip(1) =~= s@.skip(i as int + 1));
        i = i + 1;
    }
    assert(s@.skip(i as int) =~= s@.subrange(i as int, n as int));
    slice_subrange(s, i, n)
}

/// `s` without its trailing white space.
pub fn trim_end(s: &[char]) -> (out: &[char])
    ensures
        out@ == trimmed_end(s@),
{
    let mut n: usize = s.len();
    assert(s@.take(n as int) =~= s@);
    while n > 0 && space(s[n - 1])
        invariant
            n <= s@.len(),
            trimmed_end(s@) == trimmed_end(s@.take(n as int)),
        decreases n,
    {
        assert(s@.take(n as int).drop_last() =~= s@.take(n as int - 1));
        n = n - 1;
    }
    assert(s@.take(n as int) =~= s@.subrange(0, n as int));
    slice_subrange(s, 0, n)
}

/// `s` without white space at either end.
pub fn trim(s: &[char]) -> (out: &[char])
    ensures
        out@ == trimmed(s@),
{
    trim_end(trim_start(s))
}

/// Trimming only ever takes characters away.
pub proof fn lemma_trimmed_shorter(s: Seq<char>)
    ensures
        trimmed_start(s).len() <= s.len(),
        trimmed_end(s).len() <= s.len(),
        trimmed(s).len() <= s.len(),
    decreases s.len(),
{
    if s.len() > 0 {
        lemma_trimmed_shorter(s.skip(1));
        lemma_trimmed_shorter(s.drop_last());
        if is_space(s[0]) {
        } else {
            assert(trimmed(s) == trimmed_end(s));
        }
    }
}

/// Text with no white space at either end is left as it is.
pub proof fn lemma_trimmed_fixed(s: Seq<char>)
    requires
        s.len() > 0 ==> !is_space(s[0]) && !is_space(s.last()),
    ensures
        trimmed(s) == s,
{
}

proof fn lemma_trimmed_start_of(before: Seq<char>, rest: Seq<char>)
    requires
        forall|i: int| 0 <= i < before.len() ==> is_space(#[trigger] before[i]),
        rest.len() > 0 ==> !is_space(rest[0]),
    ensures
        trimmed_start(before + rest) == rest,
    decreases before.len(),
{
    let s = before + rest;
    if before.len() > 0 {
        assert(is_space(before[0]) && s[0] == before[0]);
        assert(s.skip(1) =~= before.skip(1) + rest);
        assert forall|i: int| 0 <= i < before.skip(1).len() implies is_space(
            #[trigger] before.skip(1)[i],
        ) by {
            assert(before.skip(1)[i] == before[i + 1]);
        }
        lemma_trimmed_start_of(before.skip(1), rest);
    } else {
        assert(s =~= rest);
    }
}

proof fn lemma_trimmed_end_of(rest: Seq<char>, after: Seq<char>)
    requires
        forall|i: int| 0 <= i < after.len() ==> is_space(#[trigger] after[i]),
        rest.len() > 0 ==> !is_space(rest.last()),
    ensures
        trimmed_end(rest + after) == rest,
    decreases after.len(),
{
    let s = rest + after;
    if after.len() > 0 {
        assert(is_space(after[after.len() - 1]) && s.last() == after.last());
        assert(s.drop_last() =~= rest + after.drop_last());
        assert forall|i: int| 0 <= i < after.drop_last().len() implies is_space(
            #[trigger] after.drop_last()[i],
        ) by {
            assert(after.drop_last()[i] == after[i]);
        }
        lemma_trimmed_end_of(rest, after.drop_last());
    } else {
        assert(s =~= rest);
    }
}

/// Trimming takes the white space around a text, all of it, and nothing else.
pub proof fn trimming_takes_the_white_space_around(
    before: Seq<char>,
    s: Seq<char>,
    after: Seq<char>,
)
    requires
        forall|i: int| 0 <= i < before.len() ==> is_space(#[trigger] before[i]),
        forall|i: int| 0 <= i < after.len() ==> is_space(#[trigger] after[i]),
        s.len() > 0 ==> !is_space(s[0]) && !is_space(s.last()),
    ensures
        trimmed(before + s + after) == s,
{
    if s.len() > 0 {
        assert(before + s + after =~= before + (s + after));
        lemma_trimmed_start_of(before, s + after);
        lemma_trimmed_end_of(s, after);
    } else {
        let spaces = before + after;
        assert(before + s + after =~= spaces + s);
        assert forall|i: int| 0 <= i < spaces.len() implies is_space(#[trigger] spaces[i]) by {
            if i < before.len() {
                assert(spaces[i] == before[i]);
            } else {
                assert(spaces[i] == after[i - before.len()]);
            }
        }
        lemma_trimmed_start_of(spaces, s);
    }
}

/// Of the ASCII characters, the space and those from the tab to the carriage return are white
/// space, and no others.
pub proof fn ascii_white_space(c: char)
    requires
        (c as u32) < 0x80,
    ensures
        is_space(c) <==> c == ' ' || '\t' <= c <= '\r',
{
}

/// Making letters small moves each ASCII capital down the alphabet to its small letter and touches
/// nothing else.
pub proof fn small_letters_stand_for_capitals(s: Seq<char>, i: int)
    requires
        0 <= i < s.len(),
    ensures
        lowered(s).len() == s.len(),
        'A' <= s[i] <= 'Z' ==> lowered(s)[i] as int - 'a' as int == s[i] as int - 'A' as int,
        !('A' <= s[i] <= 'Z') ==> lowered(s)[i] == s[i],
{
}

/// What stands in front of the first of a character is one part, and what stands behind it falls
/// into parts in turn; without that character a text is its own only part.
pub proof fn texts_part_at_every_separator(a: Seq<char>, c: char, b: Seq<char>)
    requires
        forall|i: int| 0 <= i < a.len() ==> #[trigger] a[i] != c,
    ensures
        split_at_first(a + seq![c] + b, c) == Some((a, b)),
        split_at_first(a, c) is None,
        parts(a + seq![c] + b, c) == seq![a] + parts(b, c),
        parts(a, c) == seq![a],
{
    let s = a + seq![c] + b;
    lemma_find_is(a, c, 0, a.len() as int);
    lemma_splits(a, c, b);
    lemma_find_is(s, c, 0, a.len() as int);
    assert(s.take(a.len() as int) =~= a);
    assert(s.skip(a.len() as int + 1) =~= b);
}

/// What is stripped off an end is that character alone, and all of it.
pub proof fn stripping_takes_one_character_alone(s: Seq<char>, c: char, count: nat)
    requires
        s.len() > 0 ==> s.last() != c,
    ensures
        stripped_end(s + Seq::new(count, |i: int| c), c) == s,
    decreases count,
{
    let tail = Seq::new(count, |i: int| c);
    let all = s + tail;
    if count > 0 {
        let shorter = Seq::new((count - 1) as nat, |i: int| c);
        assert(all.drop_last() =~= s + shorter);
        assert(all.last() == c);
        stripping_takes_one_character_alone(s, c, (count - 1) as nat);
    } else {
        assert(all =~= s);
    }
}

/// The last place of a character holds it, and no later one does.
pub proof fn the_last_place_is_the_last(s: Seq<char>, c: char, i: int)
    requires
        0 <= i < s.len(),
    ensures
        -1 <= last_of(s, c) < s.len(),
        last_of(s, c) >= 0 ==> s[last_of(s, c)] == c,
        s[i] == c ==> i <= last_of(s, c),
    decreases s.len(),
{
    if s.last() != c && s.len() > 1 {
        let front = s.drop_last();
        the_last_place_is_the_last(front, c, if i < front.len() {
            i
        } else {
            0
        });
        if i < front.len() {
            assert(front[i] == s[i]);
        }
        if last_of(s, c) >= 0 {
            assert(front[last_of(s, c)] == s[last_of(s, c)]);
        }
    } else if s.last() != c {
        assert(s.drop_last() =~= Seq::empty());
        assert(last_of(s.drop_last(), c) == -1);
    }
}

/// A number is written with its digits in order of weight, and every number that fits is read as
/// what it says, with a plus sign in front or without one.
pub proof fn numbers_are_written_in_decimal(n: nat, digit: nat)
    requires
        digit < 10,
    ensures
        n == 0 ==> decimal(digit) == seq![digit_of(digit)],
        n > 0 ==> decimal(10 * n + digit) == decimal(n).push(digit_of(digit)),
        n <= u64::MAX ==> parsed_u64(decimal(n)) == Some(n as u64),
        n <= u64::MAX ==> parsed_u64(seq!['+'] + decimal(n)) == Some(n as u64),
        n > u64::MAX ==> parsed_u64(decimal(n)) is None,
{
    lemma_decimal_reads_back(n);
    assert((10 * n + digit) / 10 == n);
    assert((10 * n + digit) % 10 == digit);
    assert(is_digit(decimal(n)[0]));
    let signed = seq!['+'] + decimal(n);
    assert(signed.skip(1) =~= decimal(n));
}

/// The character of a digit.
pub open spec fn digit_of(n: nat) -> char {
    seq!['0', '1', '2', '3', '4', '5', '6', '7', '8', '9'][n as int]
}

/// What holds anything but digits, or nothing, is no number.
pub proof fn only_digits_make_a_number(s: Seq<char>, i: int)
    requires
        0 <= i < s.len(),
        !('0' <= s[i] <= '9'),
        !(i == 0 && s[0] == '+'),
    ensures
        parsed_u64(s) is None,
        parsed_u64(Seq::empty()) is None,
{
    if s[0] == '+' {
        assert(s.skip(1)[i - 1] == s[i]);
    }
    assert(is_digit(s[i]) ==> '0' <= s[i] <= '9');
}

pub fn lower_one(c: char) -> (out: char)
    ensures
        out == lower_char(c),
{
    if 'A' <= c && c <= 'Z' {
        ((c as u8) + 32) as char
    } else {
        c
    }
}

/// `s` with its ASCII capitals made small.
pub fn lower(s: &[char]) -> (out: Vec<char>)
    ensures
        out@ == lowered(s@),
{
    let mut out: Vec<char> = Vec::new();
    let n: usize = s.len();
    for i in 0..n
        invariant
            n == s@.len(),
            out@.len() == i,
            forall|j: int| 0 <= j < i ==> out@[j] == lower_char(s@[j]),
    {
        out.push(lower_one(s[i]));
    }
    assert(out@ =~= lowered(s@));
    out
}

/// Where `c` first stands in `s` at `from` or behind it; the length of `s` where it does not.
pub fn find(s: &[char], c: char, from: usize) -> (at: usize)
    requires
        from <= s@.len(),
    ensures
        at == find_from(s@, c, from as int),
        from <= at <= s@.len(),
{
    let n: usize = s.len();
    let mut i: usize = from;
    while i < n && s[i] != c
        invariant
            n == s@.len(),
            from <= i <= n,
            find_from(s@, c, from as int) == find_from(s@, c, i as int),
        decreases n - i,
    {
        i = i + 1;
    }
    i
}

/// What stands before and behind the first `c` in `s`.
pub fn split_once(s: &[char], c: char) -> (out: Option<(&[char], &[char])>)
    ensures
        out is Some <==> split_at_first(s@, c) is Some,
        out matches Some((a, b)) ==> split_at_first(s@, c) == Some((a@, b@)),
{
    let n: usize = s.len();
    let i: usize = find(s, c, 0);
    if i < n {
        assert(s@.take(i as int) =~= s@.subrange(0, i as int));
        assert(s@.skip(i as int + 1) =~= s@.subrange(i as int + 1, n as int));
        Some((slice_subrange(s, 0, i), slice_subrange(s, i + 1, n)))
    } else {
        None
    }
}

/// What follows `prefix` in `s`, where `s` starts with it.
pub fn strip_prefix<'a>(s: &'a [char], prefix: &str) -> (out: Option<&'a [char]>)
    ensures
        out is Some <==> prefix@.is_prefix_of(s@),
        out matches Some(r) ==> r@ == s@.skip(prefix@.len() as int),
{
    let p = chars_of(prefix);
    let k: usize = p.len();
    let n: usize = s.len();
    if n < k {
        return None;
    }
    assert(s@.take(k as int) =~= s@.subrange(0, k as int));
    if same_chars(slice_subrange(s, 0, k), p.as_slice()) {
        assert(s@.skip(k as int) =~= s@.subrange(k as int, n as int));
        Some(slice_subrange(s, k, n))
    } else {
        None
    }
}

/// Reads a decimal number, with an optional plus sign in front.
pub fn parse_u64(s: &[char]) -> (out: Option<u64>)
    ensures
        out == parsed_u64(s@),
{
    let n: usize = s.len();
    let start: usize = if n > 0 && s[0] == '+' {
        1
    } else {
        0
    };
    let ghost d = if s@.len() > 0 && s@[0] == '+' {
        s@.skip(1)
    } else {
        s@
    };
    assert(d =~= s@.subrange(start as int, n as int));
    if start == n {
        return None;
    }
    let mut value: u64 = 0;
    let mut i: usize = start;
    while i < n
        invariant
            n == s@.len(),
            start <= i <= n,
            d == s@.subrange(start as int, n as int),
            d == (if s@.len() > 0 && s@[0] == '+' {
                s@.skip(1)
            } else {
                s@
            }),
            all_digits(d.take(i - start)),
            value == digits_value(d.take(i - start)),
        decreases n - i,
    {
        let c = s[i];
        let ghost k = i - start;
        assert(d[k] == c);
        assert(d.take(k + 1).drop_last() =~= d.take(k));
        assert(d.take(k + 1).last() == c);
        if c < '0' || c > '9' {
            return None;
        }
        let v: u64 = (c as u32 - '0' as u32) as u64;
        if value > (u64::MAX - v) / 10 {
            proof {
                assert(value * 10 + v > u64::MAX);
                lemma_digits_value_grows(d, k + 1);
            }
            return None;
        }
        value = value * 10 + v;
        assert forall|j: int| 0 <= j < k + 1 implies is_digit(#[trigger] d.take(k + 1)[j]) by {
            if j < k {
                assert(d.take(k + 1)[j] == d.take(k)[j]);
            }
        }
        i = i + 1;
    }
    assert(d.take(n - start) =~= d);
    Some(value)
}

/// More digits never make a number smaller.
pub proof fn lemma_digits_value_grows(s: Seq<char>, k: int)
    requires
        0 <= k <= s.len(),
    ensures
        digits_value(s.take(k)) <= digits_value(s),
    decreases s.len() - k,
{
    if k < s.len() {
        lemma_digits_value_grows(s, k + 1);
        assert(s.take(k + 1).drop_last() =~= s.take(k));
    } else {
        assert(s.take(k) =~= s);
    }
}

/// `n` written in decimal, without leading zeros.
pub fn decimal_chars(n: u64) -> (out: Vec<char>)
    ensures
        out@ == decimal(n as nat),
    decreases n,
{
    let d: char = ((n % 10) as u8 + 48) as char;
    if n < 10 {
        let out: Vec<char> = vec![d];
        assert(out@ =~= decimal(n as nat));
        out
    } else {
        let mut out = decimal_chars(n / 10);
        out.push(d);
        out
    }
}

/// `n` written in decimal, as a string.
pub fn decimal_string(n: u64) -> (out: String)
    ensures
        out@ == decimal(n as nat),
{
    string_of(decimal_chars(n).as_slice())
}

/// Digits with zeros in front up to a width.
pub open spec fn zero_filled(digits: Seq<char>, width: nat) -> Seq<char> {
    if digits.len() < width {
        Seq::new((width - digits.len()) as nat, |i: int| '0') + digits
    } else {
        digits
    }
}

/// `n` written in decimal, with zeros in front up to a width.
pub open spec fn padded(n: nat, width: nat) -> Seq<char> {
    zero_filled(decimal(n), width)
}

proof fn lemma_zeros_in_front(k: nat, digits: Seq<char>)
    requires
        all_digits(digits),
    ensures
        all_digits(Seq::new(k, |i: int| '0') + digits),
        digits_value(Seq::new(k, |i: int| '0') + digits) == digits_value(digits),
    decreases k + digits.len(),
{
    let zeros = Seq::new(k, |i: int| '0');
    let all = zeros + digits;
    if digits.len() > 0 {
        let front = digits.drop_last();
        assert(all_digits(front)) by {
            assert forall|i: int| 0 <= i < front.len() implies is_digit(#[trigger] front[i]) by {
                assert(front[i] == digits[i]);
            }
        }
        lemma_zeros_in_front(k, front);
        assert(all.drop_last() =~= zeros + front);
    } else if k > 0 {
        let fewer = Seq::new((k - 1) as nat, |i: int| '0');
        lemma_zeros_in_front((k - 1) as nat, digits);
        assert(all.drop_last() =~= fewer + digits);
        assert(all.last() == '0');
    } else {
        assert(all =~= digits);
    }
}

/// A number written with zeros in front is made of digits and reads back. One of no more than two
/// digits takes up a width of two, one of no more than four a width of four.
pub proof fn lemma_padded_reads_back(n: nat, width: nat)
    ensures
        all_digits(padded(n, width)),
        digits_value(padded(n, width)) == n,
        n < 100 && width == 2 ==> padded(n, width).len() == 2,
        n < 10_000 && width == 4 ==> padded(n, width).len() == 4,
{
    lemma_decimal_reads_back(n);
    let d = decimal(n);
    if d.len() < width {
        lemma_zeros_in_front((width - d.len()) as nat, d);
    }
    reveal_with_fuel(decimal, 5);
}

/// Digits with zeros in front up to a width.
pub fn zero_fill(digits: &str, width: usize) -> (out: String)
    ensures
        out@ == zero_filled(digits@, width as nat),
{
    let have: usize = digits.unicode_len();
    let mut out = String::new();
    let mut i: usize = have;
    while i < width
        invariant
            have <= i,
            i <= width || have >= width && i == have,
            out@ == Seq::new((i - have) as nat, |k: int| '0'),
        decreases width - i,
    {
        out.push('0');
        i = i + 1;
        assert(out@ =~= Seq::new((i - have) as nat, |k: int| '0'));
    }
    out.append(digits);
    assert(out@ =~= zero_filled(digits@, width as nat));
    out
}

/// `n` written in decimal, with zeros in front up to a width.
pub fn padded_string(n: u64, width: usize) -> (out: String)
    ensures
        out@ == padded(n as nat, width as nat),
{
    zero_fill(decimal_string(n).as_str(), width)
}

pub open spec fn hex_char(n: int) -> char {
    if n < 10 {
        (n + 48) as u8 as char
    } else {
        (n + 87) as u8 as char
    }
}

/// `n` written in base sixteen with small letters, without leading zeros.
pub open spec fn hexadecimal(n: nat) -> Seq<char>
    decreases n,
{
    if n < 16 {
        seq![hex_char(n as int)]
    } else {
        hexadecimal(n / 16).push(hex_char((n % 16) as int))
    }
}

/// Each byte as two digits of base sixteen.
pub open spec fn hex_pairs(bytes: Seq<u8>) -> Seq<char>
    decreases bytes.len(),
{
    if bytes.len() == 0 {
        Seq::empty()
    } else {
        hex_pairs(bytes.drop_last()).push(hex_char(bytes.last() as int / 16)).push(
            hex_char(bytes.last() as int % 16),
        )
    }
}

pub fn hex_digit(n: u8) -> (out: char)
    requires
        n < 16,
    ensures
        out == hex_char(n as int),
{
    if n < 10 {
        (n + 48) as char
    } else {
        (n + 87) as char
    }
}

/// `n` written in base sixteen with small letters, without leading zeros.
pub fn hex_string(n: u64) -> (out: String)
    ensures
        out@ == hexadecimal(n as nat),
    decreases n,
{
    let mut out = if n < 16 {
        String::new()
    } else {
        hex_string(n / 16)
    };
    out.push(hex_digit((n % 16) as u8));
    assert(out@ =~= hexadecimal(n as nat));
    out
}

/// Each byte as two digits of base sixteen.
pub fn hex(bytes: &[u8]) -> (out: String)
    ensures
        out@ == hex_pairs(bytes@),
{
    let mut out = String::new();
    let n: usize = bytes.len();
    assert(bytes@.take(0) =~= Seq::empty());
    for i in 0..n
        invariant
            n == bytes@.len(),
            out@ == hex_pairs(bytes@.take(i as int)),
    {
        assert(bytes@.take(i + 1).drop_last() =~= bytes@.take(i as int));
        out.push(hex_digit(bytes[i] / 16));
        out.push(hex_digit(bytes[i] % 16));
    }
    assert(bytes@.take(n as int) =~= bytes@);
    out
}

/// The contents of some runs of characters.
pub open spec fn seqs(v: Seq<Vec<char>>) -> Seq<Seq<char>> {
    v.map_values(|x: Vec<char>| x@)
}

/// The contents of some strings.
pub open spec fn texts(v: Seq<String>) -> Seq<Seq<char>> {
    v.map_values(|x: String| x@)
}

/// A line without the carriage return in front of its line feed.
pub open spec fn without_return(line: Seq<char>) -> Seq<char> {
    if line.len() > 0 && line.last() == '\r' {
        line.drop_last()
    } else {
        line
    }
}

/// The lines of a text. The last line feed ends the last line and starts no further one.
pub open spec fn lines_of(s: Seq<char>) -> Seq<Seq<char>>
    decreases s.len(),
{
    proof {
        lemma_find_from(s, '\n', 0);
    }
    let i = find_from(s, '\n', 0);
    if s.len() == 0 {
        Seq::empty()
    } else if i < s.len() {
        seq![without_return(s.take(i))] + lines_of(s.skip(i + 1))
    } else {
        seq![s]
    }
}

/// Some characters as a vector.
pub fn owned(s: &[char]) -> (out: Vec<char>)
    ensures
        out@ == s@,
{
    vstd::slice::slice_to_vec(s)
}

/// The lines of a text. The last line feed ends the last line and starts no further one.
pub fn lines(s: &[char]) -> (out: Vec<Vec<char>>)
    ensures
        seqs(out@) == lines_of(s@),
{
    let n: usize = s.len();
    let mut out: Vec<Vec<char>> = Vec::new();
    let mut at: usize = 0;
    assert(s@.skip(0) =~= s@);
    assert(seqs(out@) + lines_of(s@) =~= lines_of(s@));
    while at < n
        invariant
            n == s@.len(),
            at <= n,
            seqs(out@) + lines_of(s@.skip(at as int)) == lines_of(s@),
        decreases n - at,
    {
        let ghost rest = s@.skip(at as int);
        let ghost before = seqs(out@);
        let i: usize = find(s, '\n', at);
        proof {
            lemma_find_from(s@, '\n', at as int);
            lemma_find_from(rest, '\n', 0);
            lemma_find_is(rest, '\n', 0, i - at);
        }
        if i < n {
            let end: usize = if i > at && s[i - 1] == '\r' {
                i - 1
            } else {
                i
            };
            let line = owned(slice_subrange(s, at, end));
            assert(line@ =~= without_return(rest.take(i - at)));
            out.push(line);
            assert(rest.skip(i - at + 1) =~= s@.skip(i as int + 1));
            assert(seqs(out@) =~= before.push(line@));
            assert(before + (seq![line@] + lines_of(s@.skip(i as int + 1))) =~= seqs(out@)
                + lines_of(s@.skip(i as int + 1)));
            at = i + 1;
        } else {
            let line = owned(slice_subrange(s, at, n));
            assert(line@ =~= rest);
            out.push(line);
            assert(seqs(out@) =~= before.push(line@));
            assert(s@.skip(n as int) =~= Seq::empty());
            assert(before + seq![line@] =~= seqs(out@) + lines_of(s@.skip(n as int)));
            at = n;
        }
    }
    assert(s@.skip(n as int) =~= Seq::empty());
    assert(seqs(out@) + Seq::<Seq<char>>::empty() =~= seqs(out@));
    out
}

/// A line that ends in a line feed is the first line of what it starts.
pub proof fn lemma_first_line(line: Seq<char>, rest: Seq<char>)
    requires
        find_from(line, '\n', 0) == line.len(),
        line.len() > 0 ==> line.last() != '\r',
    ensures
        lines_of(line + seq!['\n'] + rest) == seq![line] + lines_of(rest),
{
    let s = line + seq!['\n'] + rest;
    lemma_find_from(line, '\n', 0);
    lemma_find_is(s, '\n', 0, line.len() as int);
    assert(s.take(line.len() as int) =~= line);
    assert(s.skip(line.len() as int + 1) =~= rest);
}

/// What stands in front of a character, and behind it, splits there.
pub proof fn lemma_splits(a: Seq<char>, c: char, b: Seq<char>)
    requires
        find_from(a, c, 0) == a.len(),
    ensures
        split_at_first(a + seq![c] + b, c) == Some((a, b)),
{
    let s = a + seq![c] + b;
    lemma_find_from(a, c, 0);
    lemma_find_is(s, c, 0, a.len() as int);
    assert(s.take(a.len() as int) =~= a);
    assert(s.skip(a.len() as int + 1) =~= b);
}

/// A number in decimal holds nothing but digits, so no other character is found in it.
pub proof fn lemma_decimal_holds_no_other(n: nat, c: char)
    requires
        !is_digit(c),
    ensures
        find_from(decimal(n), c, 0) == decimal(n).len(),
{
    lemma_decimal_reads_back(n);
    lemma_find_is(decimal(n), c, 0, decimal(n).len() as int);
}

/// `s` with each `c` in it replaced.
pub open spec fn replaced(s: Seq<char>, c: char, by: Seq<char>) -> Seq<char>
    decreases s.len(),
{
    if s.len() == 0 {
        Seq::empty()
    } else {
        replaced(s.drop_last(), c, by) + (if s.last() == c {
            by
        } else {
            seq![s.last()]
        })
    }
}

/// `s` with each `c` in it replaced.
pub fn replace(s: &str, c: char, by: &str) -> (out: String)
    ensures
        out@ == replaced(s@, c, by@),
{
    let chars = chars_of(s);
    let mut out = String::new();
    let n: usize = chars.len();
    assert(s@.take(0) =~= Seq::empty());
    for i in 0..n
        invariant
            n == s@.len(),
            chars@ == s@,
            out@ == replaced(s@.take(i as int), c, by@),
    {
        assert(s@.take(i + 1).drop_last() =~= s@.take(i as int));
        if chars[i] == c {
            out.append(by);
        } else {
            out.push(chars[i]);
        }
        assert(out@ =~= replaced(s@.take(i + 1), c, by@));
    }
    assert(s@.take(n as int) =~= s@);
    out
}

/// Some texts, one behind the other, with a separator between them.
pub open spec fn joined(parts: Seq<Seq<char>>, separator: Seq<char>) -> Seq<char>
    decreases parts.len(),
{
    if parts.len() == 0 {
        Seq::empty()
    } else if parts.len() == 1 {
        parts[0]
    } else {
        joined(parts.drop_last(), separator) + separator + parts.last()
    }
}

/// Some texts, one behind the other, with a separator between them.
pub fn join(parts: &Vec<String>, separator: &str) -> (out: String)
    ensures
        out@ == joined(texts(parts@), separator@),
{
    let mut out = String::new();
    let n: usize = parts.len();
    let ghost all = texts(parts@);
    assert(all.take(0) =~= Seq::empty());
    for i in 0..n
        invariant
            n == parts@.len(),
            all == texts(parts@),
            out@ == joined(all.take(i as int), separator@),
    {
        assert(all.take(i + 1).drop_last() =~= all.take(i as int));
        assert(all.take(i + 1).last() == parts@[i as int]@);
        if i > 0 {
            out.append(separator);
        }
        out.append(parts[i].as_str());
        assert(out@ =~= joined(all.take(i + 1), separator@));
    }
    assert(all.take(n as int) =~= all);
    out
}

/// The parts of `s` between its `c`s.
pub fn split(s: &[char], c: char) -> (out: Vec<Vec<char>>)
    ensures
        seqs(out@) == parts(s@, c),
{
    let n: usize = s.len();
    let mut out: Vec<Vec<char>> = Vec::new();
    let mut at: usize = 0;
    assert(s@.skip(0) =~= s@);
    assert(seqs(out@) + parts(s@, c) =~= parts(s@, c));
    loop
        invariant
            n == s@.len(),
            at <= n,
            seqs(out@) + parts(s@.skip(at as int), c) == parts(s@, c),
        decreases n - at,
    {
        let ghost rest = s@.skip(at as int);
        let ghost before = seqs(out@);
        let i: usize = find(s, c, at);
        proof {
            lemma_find_from(s@, c, at as int);
            lemma_find_from(rest, c, 0);
            lemma_find_is(rest, c, 0, i - at);
        }
        let part = owned(slice_subrange(s, at, i));
        assert(part@ =~= rest.take(i - at));
        out.push(part);
        assert(seqs(out@) =~= before.push(part@));
        if i < n {
            assert(rest.skip(i - at + 1) =~= s@.skip(i as int + 1));
            assert(before + (seq![part@] + parts(s@.skip(i as int + 1), c)) =~= seqs(out@) + parts(
                s@.skip(i as int + 1),
                c,
            ));
            at = i + 1;
        } else {
            assert(rest.take(i - at) =~= rest);
            assert(before + seq![part@] =~= seqs(out@));
            return out;
        }
    }
}

/// `s` without the `c`s at its end.
pub open spec fn stripped_end(s: Seq<char>, c: char) -> Seq<char>
    decreases s.len(),
{
    if s.len() > 0 && s.last() == c {
        stripped_end(s.drop_last(), c)
    } else {
        s
    }
}

/// `s` without the `c`s at its end.
pub fn strip_end(s: &[char], c: char) -> (out: &[char])
    ensures
        out@ == stripped_end(s@, c),
{
    let mut n: usize = s.len();
    assert(s@.take(n as int) =~= s@);
    while n > 0 && s[n - 1] == c
        invariant
            n <= s@.len(),
            stripped_end(s@, c) == stripped_end(s@.take(n as int), c),
        decreases n,
    {
        assert(s@.take(n as int).drop_last() =~= s@.take(n as int - 1));
        n = n - 1;
    }
    assert(s@.take(n as int) =~= s@.subrange(0, n as int));
    slice_subrange(s, 0, n)
}

/// Where `c` last stands in `s`; minus one where it does not.
pub open spec fn last_of(s: Seq<char>, c: char) -> int
    decreases s.len(),
{
    if s.len() == 0 {
        -1
    } else if s.last() == c {
        s.len() - 1
    } else {
        last_of(s.drop_last(), c)
    }
}

/// Where `c` last stands in `s`.
pub fn find_last(s: &[char], c: char) -> (out: Option<usize>)
    ensures
        match out {
            Some(i) => last_of(s@, c) == i && i < s@.len() && s@[i as int] == c,
            None => last_of(s@, c) == -1,
        },
{
    let mut n: usize = s.len();
    assert(s@.take(n as int) =~= s@);
    while n > 0
        invariant
            n <= s@.len(),
            last_of(s@, c) == last_of(s@.take(n as int), c),
        decreases n,
    {
        if s[n - 1] == c {
            return Some(n - 1);
        }
        assert(s@.take(n as int).drop_last() =~= s@.take(n as int - 1));
        n = n - 1;
    }
    None
}

/// Whether `a` comes before `b` where the first difference decides, and a text comes before any
/// that continues it.
pub open spec fn precedes(a: Seq<char>, b: Seq<char>) -> bool
    decreases a.len(),
{
    if b.len() == 0 {
        false
    } else if a.len() == 0 {
        true
    } else if a[0] != b[0] {
        a[0] < b[0]
    } else {
        precedes(a.skip(1), b.skip(1))
    }
}

/// Of two different texts exactly one comes before the other, and none comes before itself.
pub proof fn lemma_precedes_total(a: Seq<char>, b: Seq<char>)
    ensures
        precedes(a, b) ==> !precedes(b, a) && a != b,
        a != b ==> precedes(a, b) || precedes(b, a),
    decreases a.len(),
{
    if a.len() > 0 && b.len() > 0 && a[0] == b[0] {
        lemma_precedes_total(a.skip(1), b.skip(1));
        if a.skip(1) == b.skip(1) {
            assert(a =~= seq![a[0]] + a.skip(1));
            assert(b =~= seq![b[0]] + b.skip(1));
        }
    } else if a.len() == 0 && b.len() == 0 {
        assert(a =~= b);
    }
}

pub proof fn lemma_precedes_transitive(a: Seq<char>, b: Seq<char>, c: Seq<char>)
    requires
        precedes(a, b),
        precedes(b, c),
    ensures
        precedes(a, c),
    decreases a.len(),
{
    if a.len() > 0 && b.len() > 0 && c.len() > 0 && a[0] == b[0] && b[0] == c[0] {
        lemma_precedes_transitive(a.skip(1), b.skip(1), c.skip(1));
    }
}

/// Whether `a` comes before `b`.
pub fn before(a: &str, b: &str) -> (out: bool)
    ensures
        out == precedes(a@, b@),
{
    let x = chars_of(a);
    let y = chars_of(b);
    let n: usize = x.len();
    let m: usize = y.len();
    let mut i: usize = 0;
    assert(a@.skip(0) =~= a@);
    assert(b@.skip(0) =~= b@);
    while i < n && i < m
        invariant
            n == x@.len(),
            m == y@.len(),
            x@ == a@,
            y@ == b@,
            i <= n,
            i <= m,
            precedes(a@, b@) == precedes(a@.skip(i as int), b@.skip(i as int)),
        decreases n - i,
    {
        if x[i] != y[i] {
            return x[i] < y[i];
        }
        assert(a@.skip(i as int).skip(1) =~= a@.skip(i as int + 1));
        assert(b@.skip(i as int).skip(1) =~= b@.skip(i as int + 1));
        i = i + 1;
    }
    i < m
}

/// Whether a text is among some texts.
pub fn among(names: &Vec<String>, name: &str) -> (out: bool)
    ensures
        out == texts(names@).contains(name@),
{
    let n: usize = names.len();
    for i in 0..n
        invariant
            n == names@.len(),
            forall|j: int| 0 <= j < i ==> texts(names@)[j] != name@,
    {
        if same(names[i].as_str(), name) {
            assert(texts(names@)[i as int] == name@);
            return true;
        }
    }
    false
}

/// A line ends at its line feed, and a carriage return in front of that is no part of it. What
/// stands behind the last line feed is a line where it is not empty.
pub proof fn lines_end_at_line_feeds(line: Seq<char>, rest: Seq<char>)
    requires
        forall|i: int| 0 <= i < line.len() ==> #[trigger] line[i] != '\n',
    ensures
        (line.len() == 0 || line.last() != '\r') ==> lines_of(line + seq!['\n'] + rest) == seq![line]
            + lines_of(rest),
        lines_of(line + seq!['\r', '\n'] + rest) == seq![line] + lines_of(rest),
        line.len() > 0 ==> lines_of(line) == seq![line],
        lines_of(Seq::empty()) == Seq::<Seq<char>>::empty(),
{
    lemma_find_is(line, '\n', 0, line.len() as int);
    if line.len() == 0 || line.last() != '\r' {
        lemma_first_line(line, rest);
    }
    let s = line + seq!['\r', '\n'] + rest;
    let n = line.len() as int;
    assert(s[n] == '\r' && s[n + 1] == '\n');
    assert forall|j: int| 0 <= j < n + 1 implies s[j] != '\n' by {
        if j < n {
            assert(s[j] == line[j]);
        }
    }
    lemma_find_is(s, '\n', 0, n + 1);
    assert(s.take(n + 1).last() == '\r');
    assert(s.take(n + 1).drop_last() =~= line);
    assert(s.skip(n + 2) =~= rest);
}

/// Replacing a character touches that character alone: texts without it stay as they are, and two
/// texts are replaced each for itself.
pub proof fn replacing_touches_one_character_alone(
    a: Seq<char>,
    b: Seq<char>,
    c: char,
    by: Seq<char>,
)
    ensures
        replaced(a + b, c, by) == replaced(a, c, by) + replaced(b, c, by),
        replaced(seq![c], c, by) == by,
        (forall|i: int| 0 <= i < a.len() ==> #[trigger] a[i] != c) ==> replaced(a, c, by) == a,
    decreases a.len() + b.len(),
{
    assert(seq![c].drop_last() =~= Seq::empty());
    assert(replaced(Seq::empty(), c, by) =~= Seq::empty());
    assert(Seq::<char>::empty() + by =~= by);
    if b.len() > 0 {
        replacing_touches_one_character_alone(a, b.drop_last(), c, by);
        assert((a + b).drop_last() =~= a + b.drop_last());
        let own = if b.last() == c {
            by
        } else {
            seq![b.last()]
        };
        assert(replaced(a, c, by) + (replaced(b.drop_last(), c, by) + own) =~= (replaced(a, c, by)
            + replaced(b.drop_last(), c, by)) + own);
    } else {
        assert(a + b =~= a);
        assert(replaced(a, c, by) + replaced(b, c, by) =~= replaced(a, c, by));
        if a.len() > 0 {
            replacing_touches_one_character_alone(a.drop_last(), b, c, by);
            if forall|i: int| 0 <= i < a.len() ==> #[trigger] a[i] != c {
                assert forall|i: int| 0 <= i < a.drop_last().len() implies #[trigger] a.drop_last()[i]
                    != c by {
                    assert(a[i] != c);
                }
                assert(a[a.len() - 1] != c);
                assert(a.drop_last() + seq![a.last()] =~= a);
            }
        } else {
            assert(replaced(a, c, by) =~= a);
        }
    }
}

proof fn lemma_joined_first(first: Seq<char>, rest: Seq<Seq<char>>, separator: Seq<char>)
    requires
        rest.len() > 0,
    ensures
        joined(seq![first] + rest, separator) == first + separator + joined(rest, separator),
    decreases rest.len(),
{
    let all = seq![first] + rest;
    if rest.len() == 1 {
        assert(all.drop_last() =~= seq![first]);
        assert(all.last() == rest[0]);
        assert(joined(seq![first], separator) == first);
        assert(joined(rest, separator) == rest[0]);
    } else {
        let front = rest.drop_last();
        lemma_joined_first(first, front, separator);
        assert(all.drop_last() =~= seq![first] + front);
        assert(all.last() == rest.last());
        assert((first + separator + joined(front, separator)) + separator + rest.last() =~= first
            + separator + (joined(front, separator) + separator + rest.last()));
    }
}

/// Texts that are joined by a character that none of them holds fall apart into themselves.
pub proof fn joined_texts_fall_apart_again(texts: Seq<Seq<char>>, c: char)
    requires
        texts.len() > 0,
        forall|i: int, j: int|
            0 <= i < texts.len() && 0 <= j < texts[i].len() ==> #[trigger] texts[i][j] != c,
    ensures
        parts(joined(texts, seq![c]), c) == texts,
    decreases texts.len(),
{
    let first = texts[0];
    assert forall|j: int| 0 <= j < first.len() implies #[trigger] first[j] != c by {
        assert(texts[0][j] != c);
    }
    if texts.len() == 1 {
        texts_part_at_every_separator(first, c, Seq::empty());
        assert(texts =~= seq![first]);
    } else {
        let rest = texts.skip(1);
        assert forall|i: int, j: int|
            0 <= i < rest.len() && 0 <= j < rest[i].len() implies #[trigger] rest[i][j] != c by {
            assert(texts[i + 1][j] != c);
        }
        joined_texts_fall_apart_again(rest, c);
        lemma_joined_first(first, rest, seq![c]);
        assert(texts =~= seq![first] + rest);
        texts_part_at_every_separator(first, c, joined(rest, seq![c]));
    }
}

/// The first character in which two texts differ decides their order, and a text comes before any
/// longer one that starts with it.
pub proof fn the_first_difference_decides(
    common: Seq<char>,
    x: char,
    a: Seq<char>,
    y: char,
    b: Seq<char>,
)
    requires
        x != y,
    ensures
        precedes(common + seq![x] + a, common + seq![y] + b) <==> x < y,
        precedes(common, common + seq![y] + b),
        !precedes(common + seq![y] + b, common),
        !precedes(common, common),
    decreases common.len(),
{
    let s = common + seq![x] + a;
    let t = common + seq![y] + b;
    if common.len() > 0 {
        let rest = common.skip(1);
        the_first_difference_decides(rest, x, a, y, b);
        assert(s.skip(1) =~= rest + seq![x] + a);
        assert(t.skip(1) =~= rest + seq![y] + b);
        assert(s[0] == common[0] && t[0] == common[0]);
    } else {
        assert(s[0] == x && t[0] == y);
    }
}

/// The digit of base sixteen that stands for a number.
pub open spec fn hex_digit_of(n: nat) -> char {
    seq!['0', '1', '2', '3', '4', '5', '6', '7', '8', '9', 'a', 'b', 'c', 'd', 'e', 'f'][n as int]
}

/// Numbers are written in base sixteen by their digits, highest first, and bytes by two digits
/// each, one byte behind the other.
pub proof fn bytes_are_written_in_base_sixteen(a: Seq<u8>, b: Seq<u8>, byte: u8, n: nat, digit: nat)
    requires
        digit < 16,
    ensures
        hex_pairs(a + b) == hex_pairs(a) + hex_pairs(b),
        hex_pairs(seq![byte]) == seq![
            hex_digit_of(byte as nat / 16),
            hex_digit_of(byte as nat % 16),
        ],
        hexadecimal(digit) == seq![hex_digit_of(digit)],
        n > 0 ==> hexadecimal(16 * n + digit) == hexadecimal(n).push(hex_digit_of(digit)),
    decreases b.len(),
{
    assert((16 * n + digit) / 16 == n);
    assert((16 * n + digit) % 16 == digit);
    assert(seq![byte].drop_last() =~= Seq::empty());
    assert(hex_pairs(Seq::empty()) =~= Seq::empty());
    if b.len() > 0 {
        bytes_are_written_in_base_sixteen(a, b.drop_last(), byte, n, digit);
        assert((a + b).drop_last() =~= a + b.drop_last());
        assert(hex_pairs(a + b) =~= hex_pairs(a) + hex_pairs(b));
    } else {
        assert(a + b =~= a);
        assert(hex_pairs(a) + hex_pairs(b) =~= hex_pairs(a));
    }
}

/// Filling up with zeros brings a number to a width without touching its digits.
pub proof fn zeros_fill_up_to_a_width(digits: Seq<char>, width: nat, i: int)
    ensures
        zero_filled(digits, width).len() == if digits.len() < width {
            width
        } else {
            digits.len()
        },
        zero_filled(digits, width).skip(zero_filled(digits, width).len() - digits.len()) == digits,
        0 <= i < zero_filled(digits, width).len() - digits.len() ==> zero_filled(digits, width)[i]
            == '0',
{
    let filled = zero_filled(digits, width);
    assert(filled.skip(filled.len() - digits.len()) =~= digits);
}

/// White space beyond ASCII: the next line, the spaces of every width, and the two separators.
pub proof fn wide_white_space(c: char)
    requires
        c as u32 >= 0x80,
    ensures
        is_space(c) <==> seq![
            '\u{85}',
            '\u{a0}',
            '\u{1680}',
            '\u{2000}',
            '\u{2001}',
            '\u{2002}',
            '\u{2003}',
            '\u{2004}',
            '\u{2005}',
            '\u{2006}',
            '\u{2007}',
            '\u{2008}',
            '\u{2009}',
            '\u{200a}',
            '\u{2028}',
            '\u{2029}',
            '\u{202f}',
            '\u{205f}',
            '\u{3000}',
        ].contains(c),
{
    let all = seq![
        '\u{85}',
        '\u{a0}',
        '\u{1680}',
        '\u{2000}',
        '\u{2001}',
        '\u{2002}',
        '\u{2003}',
        '\u{2004}',
        '\u{2005}',
        '\u{2006}',
        '\u{2007}',
        '\u{2008}',
        '\u{2009}',
        '\u{200a}',
        '\u{2028}',
        '\u{2029}',
        '\u{202f}',
        '\u{205f}',
        '\u{3000}',
    ];
    assert(all[0] == '\u{85}' && all[1] == '\u{a0}' && all[2] == '\u{1680}' && all[3]
        == '\u{2000}' && all[4] == '\u{2001}' && all[5] == '\u{2002}' && all[6] == '\u{2003}'
        && all[7] == '\u{2004}' && all[8] == '\u{2005}' && all[9] == '\u{2006}' && all[10]
        == '\u{2007}' && all[11] == '\u{2008}' && all[12] == '\u{2009}' && all[13] == '\u{200a}'
        && all[14] == '\u{2028}' && all[15] == '\u{2029}' && all[16] == '\u{202f}' && all[17]
        == '\u{205f}' && all[18] == '\u{3000}');
    if all.contains(c) {
        let k = choose|k: int| 0 <= k < all.len() && all[k] == c;
        assert(is_space(all[k]));
    }
}

/// Zeros in front of a number, and a plus sign in front of those, make no difference to it.
pub proof fn leading_zeros_make_no_difference(n: nat, zeros: nat)
    ensures
        ({
            let written = Seq::new(zeros, |i: int| '0') + decimal(n);
            let found = if n <= u64::MAX {
                Some(n as u64)
            } else {
                None
            };
            parsed_u64(written) == found && parsed_u64(seq!['+'] + written) == found
        }),
{
    lemma_decimal_reads_back(n);
    lemma_zeros_in_front(zeros, decimal(n));
    let written = Seq::new(zeros, |i: int| '0') + decimal(n);
    assert(is_digit(written[0]));
    assert((seq!['+'] + written).skip(1) =~= written);
}

} // verus!
