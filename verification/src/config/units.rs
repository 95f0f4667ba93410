//! Size and duration parsing for the configuration surface.
//!
//! `1000g` and `3560d` mean what nginx reads in them: binary multiples, not decimal ones. The
//! unambiguous IEC and SI spellings are accepted too.
//!
//! Everything here is total: it either returns a value or an error that names the input.
use crate::text;
use vstd::prelude::*;
use vstd::slice::slice_subrange;
use vstd::string::*;

verus! {

/// A length of time in whole seconds.
#[derive(Debug, Clone, Copy, PartialEq, Eq, Structural)]
pub struct Duration {
    pub secs: u64,
}

impl Duration {
    pub fn from_secs(secs: u64) -> (out: Duration)
        ensures
            out.secs == secs,
    {
        Duration { secs }
    }

    pub fn as_secs(&self) -> (out: u64)
        ensures
            out == self.secs,
    {
        self.secs
    }
}

/// Why a size or duration string could not be parsed.
#[derive(Debug, PartialEq, Eq)]
pub enum ParseError {
    Empty,
    Malformed(String),
    UnknownUnit { input: String, unit: String },
    Overflow(String),
}

/// A [`ParseError`] with its text taken as characters.
pub enum Failure {
    Empty,
    Malformed(Seq<char>),
    UnknownUnit { input: Seq<char>, unit: Seq<char> },
    Overflow(Seq<char>),
}

impl View for ParseError {
    type V = Failure;

    open spec fn view(&self) -> Failure {
        match self {
            ParseError::Empty => Failure::Empty,
            ParseError::Malformed(s) => Failure::Malformed(s@),
            ParseError::UnknownUnit { input, unit } => Failure::UnknownUnit {
                input: input@,
                unit: unit@,
            },
            ParseError::Overflow(s) => Failure::Overflow(s@),
        }
    }
}

/// How `std` writes a string between quotation marks, with the characters escaped that need it.
pub uninterp spec fn quoted_text(s: Seq<char>) -> Seq<char>;

/// Calls `<str as Debug>::fmt` through `format!`. The result depends on the string alone; which
/// characters are escaped, and how, is left to `std`.
#[verifier::external_body]
pub(crate) fn quoted(s: &str) -> (out: String)
    ensures
        out@ == quoted_text(s@),
{
    format!("{s:?}")
}

/// A failure in words, with the offending input in it.
pub open spec fn failure_text(f: Failure) -> Seq<char> {
    match f {
        Failure::Empty => "empty value"@,
        Failure::Malformed(s) => quoted_text(s) + " is not a number followed by an optional unit"@,
        Failure::UnknownUnit { input, unit } => "unknown unit "@ + quoted_text(unit) + " in "@
            + quoted_text(input),
        Failure::Overflow(s) => quoted_text(s) + " overflows"@,
    }
}

impl ParseError {
    /// The error in words, with the offending input in it.
    pub fn message(&self) -> (out: String)
        ensures
            out@ == failure_text(self@),
    {
        match self {
            ParseError::Empty => "empty value".to_owned(),
            ParseError::Malformed(s) => quoted(s.as_str()).concat(
                " is not a number followed by an optional unit",
            ),
            ParseError::UnknownUnit { input, unit } => {
                let mut out = "unknown unit ".to_owned();
                out.append(quoted(unit.as_str()).as_str());
                out.append(" in ");
                out.append(quoted(input.as_str()).as_str());
                out
            },
            ParseError::Overflow(s) => quoted(s.as_str()).concat(" overflows"),
        }
    }
}

/// How many digits `s` starts with.
pub open spec fn digit_prefix(s: Seq<char>) -> int
    decreases s.len(),
{
    if s.len() > 0 && text::is_digit(s[0]) {
        1 + digit_prefix(s.skip(1))
    } else {
        0
    }
}

/// The number a value starts with and the unit behind it.
pub open spec fn split_spec(input: Seq<char>) -> Result<(u64, Seq<char>), Failure> {
    let t = text::trimmed(input);
    let k = digit_prefix(t);
    if t.len() == 0 {
        Err(Failure::Empty)
    } else if k == 0 {
        Err(Failure::Malformed(t))
    } else if text::digits_value(t.take(k)) > u64::MAX {
        Err(Failure::Overflow(t))
    } else {
        Ok((text::digits_value(t.take(k)) as u64, text::trimmed(t.skip(k))))
    }
}

/// How many bytes a size unit stands for, in small letters.
pub open spec fn size_unit(unit: Seq<char>) -> Option<u64> {
    if unit == ""@ || unit == "b"@ {
        Some(1)
    } else if unit == "k"@ || unit == "kib"@ {
        Some(0x400)
    } else if unit == "m"@ || unit == "mib"@ {
        Some(0x10_0000)
    } else if unit == "g"@ || unit == "gib"@ {
        Some(0x4000_0000)
    } else if unit == "t"@ || unit == "tib"@ {
        Some(0x100_0000_0000)
    } else if unit == "kb"@ {
        Some(1_000)
    } else if unit == "mb"@ {
        Some(1_000_000)
    } else if unit == "gb"@ {
        Some(1_000_000_000)
    } else if unit == "tb"@ {
        Some(1_000_000_000_000)
    } else {
        None
    }
}

/// How many seconds a duration unit stands for, in small letters.
pub open spec fn duration_unit(unit: Seq<char>) -> Option<u64> {
    if unit == ""@ || unit == "s"@ || unit == "sec"@ || unit == "secs"@ {
        Some(1)
    } else if unit == "m"@ || unit == "min"@ || unit == "mins"@ {
        Some(60)
    } else if unit == "h"@ || unit == "hr"@ || unit == "hrs"@ {
        Some(3_600)
    } else if unit == "d"@ || unit == "day"@ || unit == "days"@ {
        Some(86_400)
    } else if unit == "w"@ || unit == "week"@ || unit == "weeks"@ {
        Some(604_800)
    } else {
        None
    }
}

/// The number times what its unit stands for.
pub open spec fn scaled(
    input: Seq<char>,
    split: Result<(u64, Seq<char>), Failure>,
    multiplier: spec_fn(Seq<char>) -> Option<u64>,
) -> Result<u64, Failure> {
    match split {
        Err(e) => Err(e),
        Ok((value, unit)) => match multiplier(text::lowered(unit)) {
            None => Err(
                Failure::UnknownUnit { input: text::trimmed(input), unit: text::lowered(unit) },
            ),
            Some(m) => if value * m > u64::MAX {
                Err(Failure::Overflow(text::trimmed(input)))
            } else {
                Ok((value * m) as u64)
            },
        },
    }
}

pub open spec fn size_spec(input: Seq<char>) -> Result<u64, Failure> {
    scaled(input, split_spec(input), |u: Seq<char>| size_unit(u))
}

pub open spec fn duration_spec(input: Seq<char>) -> Result<u64, Failure> {
    scaled(input, split_spec(input), |u: Seq<char>| duration_unit(u))
}

proof fn lemma_digit_prefix(s: Seq<char>)
    ensures
        0 <= digit_prefix(s) <= s.len(),
        text::all_digits(s.take(digit_prefix(s))),
        digit_prefix(s) < s.len() ==> !text::is_digit(s[digit_prefix(s)]),
    decreases s.len(),
{
    if s.len() > 0 && text::is_digit(s[0]) {
        lemma_digit_prefix(s.skip(1));
        let k = digit_prefix(s);
        assert forall|i: int| 0 <= i < k implies text::is_digit(#[trigger] s.take(k)[i]) by {
            if i > 0 {
                assert(s.skip(1).take(k - 1)[i - 1] == s[i]);
            }
        }
    }
}

/// A run of digits up to a position that holds none is the digit prefix.
proof fn lemma_digit_prefix_is(s: Seq<char>, k: int)
    requires
        0 <= k <= s.len(),
        text::all_digits(s.take(k)),
        k < s.len() ==> !text::is_digit(s[k]),
    ensures
        digit_prefix(s) == k,
    decreases k,
{
    if k > 0 {
        assert(text::is_digit(s.take(k)[0]));
        assert forall|i: int| 0 <= i < k - 1 implies text::is_digit(
            #[trigger] s.skip(1).take(k - 1)[i],
        ) by {
            assert(s.take(k)[i + 1] == s.skip(1).take(k - 1)[i]);
        }
        lemma_digit_prefix_is(s.skip(1), k - 1);
    }
}

/// Split a value into its numeric prefix and unit suffix.
fn split(input: &[char]) -> (out: Result<(u64, Vec<char>), ParseError>)
    ensures
        out matches Ok((value, unit)) ==> split_spec(input@) == Ok::<(u64, Seq<char>), Failure>(
            (value, unit@),
        ),
        out matches Err(e) ==> split_spec(input@) == Err::<(u64, Seq<char>), Failure>(e@),
{
    let t = text::trim(input);
    let n: usize = t.len();
    if n == 0 {
        return Err(ParseError::Empty);
    }
    let mut k: usize = 0;
    while k < n && '0' <= t[k] && t[k] <= '9'
        invariant
            n == t@.len(),
            k <= n,
            text::all_digits(t@.take(k as int)),
        decreases n - k,
    {
        assert forall|i: int| 0 <= i < k + 1 implies text::is_digit(
            #[trigger] t@.take(k as int + 1)[i],
        ) by {
            if i < k {
                assert(t@.take(k as int)[i] == t@[i]);
            }
        }
        k = k + 1;
    }
    proof {
        lemma_digit_prefix_is(t@, k as int);
    }
    if k == 0 {
        return Err(ParseError::Malformed(text::string_of(t)));
    }
    let digits = slice_subrange(t, 0, k);
    assert(digits@ =~= t@.take(k as int));
    assert(text::is_digit(digits@[0]));
    match text::parse_u64(digits) {
        None => Err(ParseError::Overflow(text::string_of(t))),
        Some(value) => {
            let rest = slice_subrange(t, k, n);
            assert(rest@ =~= t@.skip(k as int));
            let unit = text::trim(rest);
            Ok((value, vstd::slice::slice_to_vec(unit)))
        },
    }
}

/// Whether `unit` is one of two spellings.
fn either(unit: &str, a: &str, b: &str) -> (out: bool)
    ensures
        out == (unit@ == a@ || unit@ == b@),
{
    text::same(unit, a) || text::same(unit, b)
}

fn size_multiplier(unit: &str) -> (out: Option<u64>)
    ensures
        out == size_unit(unit@),
{
    if either(unit, "", "b") {
        Some(1)
    } else if either(unit, "k", "kib") {
        Some(0x400)
    } else if either(unit, "m", "mib") {
        Some(0x10_0000)
    } else if either(unit, "g", "gib") {
        Some(0x4000_0000)
    } else if either(unit, "t", "tib") {
        Some(0x100_0000_0000)
    } else if text::same(unit, "kb") {
        Some(1_000)
    } else if text::same(unit, "mb") {
        Some(1_000_000)
    } else if text::same(unit, "gb") {
        Some(1_000_000_000)
    } else if text::same(unit, "tb") {
        Some(1_000_000_000_000)
    } else {
        None
    }
}

fn duration_multiplier(unit: &str) -> (out: Option<u64>)
    ensures
        out == duration_unit(unit@),
{
    if either(unit, "", "s") || either(unit, "sec", "secs") {
        Some(1)
    } else if text::same(unit, "m") || either(unit, "min", "mins") {
        Some(60)
    } else if text::same(unit, "h") || either(unit, "hr", "hrs") {
        Some(3_600)
    } else if text::same(unit, "d") || either(unit, "day", "days") {
        Some(86_400)
    } else if text::same(unit, "w") || either(unit, "week", "weeks") {
        Some(604_800)
    } else {
        None
    }
}

/// Parse a byte size.
///
/// nginx spellings (`k`, `m`, `g`, `t`) are binary multiples. IEC (`KiB`, `MiB`, ...) and SI
/// (`KB`, `MB`, ...) are also accepted, and SI means powers of ten.
pub fn parse_size(input: &str) -> (out: Result<u64, ParseError>)
    ensures
        out matches Ok(n) ==> size_spec(input@) == Ok::<u64, Failure>(n),
        out matches Err(e) ==> size_spec(input@) == Err::<u64, Failure>(e@),
{
    let chars = text::chars_of(input);
    let (value, unit) = match split(chars.as_slice()) {
        Ok(pair) => pair,
        Err(e) => return Err(e),
    };
    let unit = text::string_of(text::lower(unit.as_slice()).as_slice());
    let multiplier: u64 = match size_multiplier(unit.as_str()) {
        Some(m) => m,
        None => return Err(
            ParseError::UnknownUnit { input: text::string_of(text::trim(chars.as_slice())), unit },
        ),
    };
    match value.checked_mul(multiplier) {
        Some(n) => Ok(n),
        None => Err(ParseError::Overflow(text::string_of(text::trim(chars.as_slice())))),
    }
}

/// Parse a duration in nginx spelling: `s`, `m` (minutes), `h`, `d`, `w`. Bare numbers are seconds.
pub fn parse_duration(input: &str) -> (out: Result<Duration, ParseError>)
    ensures
        out matches Ok(d) ==> duration_spec(input@) == Ok::<u64, Failure>(d.secs),
        out matches Err(e) ==> duration_spec(input@) == Err::<u64, Failure>(e@),
{
    let chars = text::chars_of(input);
    let (value, unit) = match split(chars.as_slice()) {
        Ok(pair) => pair,
        Err(e) => return Err(e),
    };
    let unit = text::string_of(text::lower(unit.as_slice()).as_slice());
    let seconds: u64 = match duration_multiplier(unit.as_str()) {
        Some(m) => m,
        None => return Err(
            ParseError::UnknownUnit { input: text::string_of(text::trim(chars.as_slice())), unit },
        ),
    };
    match value.checked_mul(seconds) {
        Some(n) => Ok(Duration::from_secs(n)),
        None => Err(ParseError::Overflow(text::string_of(text::trim(chars.as_slice())))),
    }
}

/// One, or twice a power of two.
pub open spec fn is_power_of_two(n: nat) -> bool
    decreases n,
{
    n == 1 || (n > 0 && n % 2 == 0 && is_power_of_two(n / 2))
}

/// Whether `n` is a power of two.
pub fn power_of_two(n: u64) -> (out: bool)
    ensures
        out == is_power_of_two(n as nat),
{
    if n == 0 {
        return false;
    }
    let mut rest: u64 = n;
    while rest % 2 == 0
        invariant
            rest > 0,
            is_power_of_two(rest as nat) == is_power_of_two(n as nat),
        decreases rest,
    {
        rest = rest / 2;
    }
    rest == 1
}

/// A byte count in the largest binary unit that divides it.
pub open spec fn size_text(bytes: u64) -> Seq<char> {
    if bytes > 0 && bytes % 0x100_0000_0000 == 0 {
        text::decimal((bytes / 0x100_0000_0000) as nat) + " TiB"@
    } else if bytes > 0 && bytes % 0x4000_0000 == 0 {
        text::decimal((bytes / 0x4000_0000) as nat) + " GiB"@
    } else if bytes > 0 && bytes % 0x10_0000 == 0 {
        text::decimal((bytes / 0x10_0000) as nat) + " MiB"@
    } else if bytes > 0 && bytes % 0x400 == 0 {
        text::decimal((bytes / 0x400) as nat) + " KiB"@
    } else {
        text::decimal(bytes as nat) + " B"@
    }
}

/// Render a byte count the way the config reference and logs should show it.
pub fn format_size(bytes: u64) -> (out: String)
    ensures
        out@ == size_text(bytes),
{
    if bytes > 0 && bytes % 0x100_0000_0000 == 0 {
        text::decimal_string(bytes / 0x100_0000_0000).concat(" TiB")
    } else if bytes > 0 && bytes % 0x4000_0000 == 0 {
        text::decimal_string(bytes / 0x4000_0000).concat(" GiB")
    } else if bytes > 0 && bytes % 0x10_0000 == 0 {
        text::decimal_string(bytes / 0x10_0000).concat(" MiB")
    } else if bytes > 0 && bytes % 0x400 == 0 {
        text::decimal_string(bytes / 0x400).concat(" KiB")
    } else {
        text::decimal_string(bytes).concat(" B")
    }
}

/// What the unit spellings are made of.
proof fn lemma_size_units()
    ensures
        size_unit(seq!['b']) == Some(1u64),
        size_unit(seq!['k']) == Some(0x400u64),
        size_unit(seq!['m']) == Some(0x10_0000u64),
        size_unit(seq!['g']) == Some(0x4000_0000u64),
        size_unit(seq!['t']) == Some(0x100_0000_0000u64),
        size_unit(seq!['k', 'i', 'b']) == Some(0x400u64),
        size_unit(seq!['m', 'i', 'b']) == Some(0x10_0000u64),
        size_unit(seq!['g', 'i', 'b']) == Some(0x4000_0000u64),
        size_unit(seq!['t', 'i', 'b']) == Some(0x100_0000_0000u64),
{
    reveal_strlit("");
    reveal_strlit("b");
    reveal_strlit("k");
    reveal_strlit("m");
    reveal_strlit("g");
    reveal_strlit("t");
    reveal_strlit("kib");
    reveal_strlit("mib");
    reveal_strlit("gib");
    reveal_strlit("tib");
    assert(seq!['b'] =~= "b"@);
    assert(seq!['k'] =~= "k"@);
    assert(seq!['m'] =~= "m"@);
    assert(seq!['g'] =~= "g"@);
    assert(seq!['t'] =~= "t"@);
    assert(seq!['k', 'i', 'b'] =~= "kib"@);
    assert(seq!['m', 'i', 'b'] =~= "mib"@);
    assert(seq!['g', 'i', 'b'] =~= "gib"@);
    assert(seq!['t', 'i', 'b'] =~= "tib"@);
    assert("b"@[0] == 'b' && "k"@[0] == 'k' && "m"@[0] == 'm' && "g"@[0] == 'g' && "t"@[0] == 't');
    assert("kib"@[0] == 'k' && "mib"@[0] == 'm' && "gib"@[0] == 'g' && "tib"@[0] == 't');
}

/// What [`format_size`] writes, [`parse_size`] reads back as the same number of bytes.
pub proof fn formatted_sizes_read_back(bytes: u64)
    ensures
        size_spec(size_text(bytes)) == Ok::<u64, Failure>(bytes),
{
    lemma_size_units();
    reveal_strlit(" TiB");
    reveal_strlit(" GiB");
    reveal_strlit(" MiB");
    reveal_strlit(" KiB");
    reveal_strlit(" B");
    if bytes > 0 && bytes % 0x100_0000_0000 == 0 {
        let unit = seq!['T', 'i', 'B'];
        assert(" TiB"@.skip(1) =~= unit);
        assert(text::lowered(unit) =~= seq!['t', 'i', 'b']);
        lemma_written_size((bytes / 0x100_0000_0000) as nat, 0x100_0000_0000, " TiB"@, unit);
    } else if bytes > 0 && bytes % 0x4000_0000 == 0 {
        let unit = seq!['G', 'i', 'B'];
        assert(" GiB"@.skip(1) =~= unit);
        assert(text::lowered(unit) =~= seq!['g', 'i', 'b']);
        lemma_written_size((bytes / 0x4000_0000) as nat, 0x4000_0000, " GiB"@, unit);
    } else if bytes > 0 && bytes % 0x10_0000 == 0 {
        let unit = seq!['M', 'i', 'B'];
        assert(" MiB"@.skip(1) =~= unit);
        assert(text::lowered(unit) =~= seq!['m', 'i', 'b']);
        lemma_written_size((bytes / 0x10_0000) as nat, 0x10_0000, " MiB"@, unit);
    } else if bytes > 0 && bytes % 0x400 == 0 {
        let unit = seq!['K', 'i', 'B'];
        assert(" KiB"@.skip(1) =~= unit);
        assert(text::lowered(unit) =~= seq!['k', 'i', 'b']);
        lemma_written_size((bytes / 0x400) as nat, 0x400, " KiB"@, unit);
    } else {
        let unit = seq!['B'];
        assert(" B"@.skip(1) =~= unit);
        assert(text::lowered(unit) =~= seq!['b']);
        lemma_written_size(bytes as nat, 1, " B"@, unit);
    }
}

/// A number, a space and a unit are read as the number times the unit.
proof fn lemma_written_size(n: nat, m: u64, tail: Seq<char>, unit: Seq<char>)
    requires
        n * m <= u64::MAX,
        n <= u64::MAX,
        tail.len() == unit.len() + 1,
        tail[0] == ' ',
        tail.skip(1) == unit,
        unit.len() > 0,
        !text::is_space(unit[0]),
        !text::is_space(unit.last()),
        size_unit(text::lowered(unit)) == Some(m),
    ensures
        size_spec(text::decimal(n) + tail) == Ok::<u64, Failure>((n * m) as u64),
{
    lemma_number_and_unit(n, tail, unit);
}

/// A number, a space and a unit split into that number and that unit.
proof fn lemma_number_and_unit(n: nat, tail: Seq<char>, unit: Seq<char>)
    requires
        n <= u64::MAX,
        tail.len() == unit.len() + 1,
        tail[0] == ' ',
        tail.skip(1) == unit,
        unit.len() > 0,
        !text::is_space(unit[0]),
        !text::is_space(unit.last()),
    ensures
        split_spec(text::decimal(n) + tail) == Ok::<(u64, Seq<char>), Failure>((n as u64, unit)),
        text::trimmed(text::decimal(n) + tail) == text::decimal(n) + tail,
{
    let d = text::decimal(n);
    let s = d + tail;
    text::lemma_decimal_reads_back(n);
    assert(text::is_digit(d[0]));
    assert(s[0] == d[0]);
    assert(s.last() == unit.last());
    text::lemma_trimmed_fixed(s);
    assert(s.take(d.len() as int) =~= d);
    lemma_digit_prefix_is(s, d.len() as int);
    assert(s.skip(d.len() as int) =~= tail);
    assert(text::trimmed_start(tail) == text::trimmed_start(unit));
    assert(text::trimmed_start(unit) == unit);
    assert(text::trimmed(tail) == unit);
}

/// A number with an nginx unit means the same size as the number with the IEC unit, however the
/// two are spaced and capitalised.
pub proof fn nginx_units_are_the_binary_ones(nginx: Seq<char>, iec: Seq<char>, letter: char)
    requires
        letter == 'k' || letter == 'm' || letter == 'g' || letter == 't',
        split_spec(nginx) is Ok,
        split_spec(iec) is Ok,
        split_spec(nginx)->Ok_0.0 == split_spec(iec)->Ok_0.0,
        text::lowered(split_spec(nginx)->Ok_0.1) == seq![letter],
        text::lowered(split_spec(iec)->Ok_0.1) == seq![letter, 'i', 'b'],
    ensures
        size_spec(nginx) is Ok <==> size_spec(iec) is Ok,
        size_spec(nginx) is Ok ==> size_spec(nginx) == size_spec(iec),
{
    lemma_size_units();
}

/// A number, with a unit behind it or without one, is split into the two, whatever white space
/// stands around and between them.
proof fn lemma_split(
    before: Seq<char>,
    n: nat,
    gap: Seq<char>,
    unit: Seq<char>,
    after: Seq<char>,
)
    requires
        forall|i: int| 0 <= i < before.len() ==> text::is_space(#[trigger] before[i]),
        forall|i: int| 0 <= i < gap.len() ==> text::is_space(#[trigger] gap[i]),
        forall|i: int| 0 <= i < after.len() ==> text::is_space(#[trigger] after[i]),
        unit.len() > 0 ==> !text::is_space(unit[0]) && !text::is_space(unit.last())
            && !text::is_digit(unit[0]),
        unit.len() == 0 ==> gap.len() == 0,
    ensures
        ({
            let shown = text::decimal(n) + gap + unit;
            let input = before + shown + after;
            &&& text::trimmed(input) == shown
            &&& n <= u64::MAX ==> split_spec(input) == Ok::<(u64, Seq<char>), Failure>(
                (n as u64, unit),
            )
            &&& n > u64::MAX ==> split_spec(input) == Err::<(u64, Seq<char>), Failure>(
                Failure::Overflow(shown),
            )
        }),
{
    let d = text::decimal(n);
    let shown = d + gap + unit;
    text::lemma_decimal_reads_back(n);
    assert(text::is_digit(d[0]) && shown[0] == d[0]);
    if unit.len() == 0 {
        assert(shown =~= d);
        assert(text::is_digit(d[d.len() - 1]));
    }
    text::trimming_takes_the_white_space_around(before, shown, after);
    let k = d.len() as int;
    assert(shown.take(k) =~= d);
    if gap.len() > 0 {
        assert(shown[k] == gap[0]);
    } else if unit.len() > 0 {
        assert(shown[k] == unit[0]);
    }
    lemma_digit_prefix_is(shown, k);
    assert(shown.skip(k) =~= gap + unit + Seq::<char>::empty());
    text::trimming_takes_the_white_space_around(gap, unit, Seq::empty());
}

/// The letters of the multiples, from a thousand to a million million.
pub open spec fn multiple_letters() -> Seq<char> {
    seq!['k', 'm', 'g', 't']
}

pub open spec fn binary_multiples() -> Seq<int> {
    seq![1_024, 1_048_576, 1_073_741_824, 1_099_511_627_776]
}

pub open spec fn decimal_multiples() -> Seq<int> {
    seq![1_000, 1_000_000, 1_000_000_000, 1_000_000_000_000]
}

/// A size is its number times what its unit stands for, where that fits in 64 bits, whatever the
/// case of the unit and the white space. `k` and `KiB` are 1024, `KB` is 1000, and so on for each
/// letter; `b` and no unit at all are single bytes.
pub proof fn sizes_are_numbers_of_units(
    before: Seq<char>,
    n: nat,
    gap: Seq<char>,
    unit: Seq<char>,
    after: Seq<char>,
    multiple: int,
)
    requires
        forall|i: int| 0 <= i < before.len() ==> text::is_space(#[trigger] before[i]),
        forall|i: int| 0 <= i < gap.len() ==> text::is_space(#[trigger] gap[i]),
        forall|i: int| 0 <= i < after.len() ==> text::is_space(#[trigger] after[i]),
        unit.len() > 0 ==> !text::is_space(unit[0]) && !text::is_space(unit.last())
            && !text::is_digit(unit[0]),
        unit.len() == 0 ==> gap.len() == 0,
        0 <= multiple < 4,
    ensures
        ({
            let input = before + (text::decimal(n) + gap + unit) + after;
            let small = text::lowered(unit);
            let letter = multiple_letters()[multiple];
            let binary = binary_multiples()[multiple];
            let decimal = decimal_multiples()[multiple];
            &&& small.len() == 0 || small == seq!['b'] ==> means(size_spec(input), n as int)
            &&& small == seq![letter] || small == seq![letter, 'i', 'b'] ==> means(
                size_spec(input),
                n * binary,
            )
            &&& small == seq![letter, 'b'] ==> means(size_spec(input), n * decimal)
        }),
{
    let small = text::lowered(unit);
    let letter = multiple_letters()[multiple];
    lemma_size_units();
    lemma_other_size_units();
    if small.len() == 0 || small == seq!['b'] {
        if small.len() == 0 {
            assert(small =~= Seq::empty());
        }
        lemma_size_is(before, n, gap, unit, after, 1);
    }
    if small == seq![letter] || small == seq![letter, 'i', 'b'] {
        lemma_size_is(before, n, gap, unit, after, binary_multiples()[multiple] as u64);
    }
    if small == seq![letter, 'b'] {
        lemma_size_is(before, n, gap, unit, after, decimal_multiples()[multiple] as u64);
    }
}

proof fn lemma_size_is(
    before: Seq<char>,
    n: nat,
    gap: Seq<char>,
    unit: Seq<char>,
    after: Seq<char>,
    m: u64,
)
    requires
        forall|i: int| 0 <= i < before.len() ==> text::is_space(#[trigger] before[i]),
        forall|i: int| 0 <= i < gap.len() ==> text::is_space(#[trigger] gap[i]),
        forall|i: int| 0 <= i < after.len() ==> text::is_space(#[trigger] after[i]),
        unit.len() > 0 ==> !text::is_space(unit[0]) && !text::is_space(unit.last())
            && !text::is_digit(unit[0]),
        unit.len() == 0 ==> gap.len() == 0,
        size_unit(text::lowered(unit)) == Some(m),
        m >= 1,
    ensures
        means(size_spec(before + (text::decimal(n) + gap + unit) + after), n * m),
{
    lemma_split(before, n, gap, unit, after);
    assert(n > u64::MAX ==> n * m > u64::MAX) by (nonlinear_arith)
        requires
            m >= 1,
    ;
}

/// Whether an outcome is a number, or an overflow where the number does not fit in 64 bits.
pub open spec fn means(outcome: Result<u64, Failure>, n: int) -> bool {
    if n <= u64::MAX {
        outcome matches Ok(m) && m == n
    } else {
        outcome matches Err(Failure::Overflow(_))
    }
}

proof fn lemma_other_size_units()
    ensures
        size_unit(Seq::empty()) == Some(1u64),
        size_unit(seq!['k', 'b']) == Some(1_000u64),
        size_unit(seq!['m', 'b']) == Some(1_000_000u64),
        size_unit(seq!['g', 'b']) == Some(1_000_000_000u64),
        size_unit(seq!['t', 'b']) == Some(1_000_000_000_000u64),
{
    reveal_strlit("");
    reveal_strlit("b");
    reveal_strlit("k");
    reveal_strlit("m");
    reveal_strlit("g");
    reveal_strlit("t");
    reveal_strlit("kib");
    reveal_strlit("mib");
    reveal_strlit("gib");
    reveal_strlit("tib");
    reveal_strlit("kb");
    reveal_strlit("mb");
    reveal_strlit("gb");
    reveal_strlit("tb");
    assert(Seq::<char>::empty() =~= ""@);
    assert(seq!['k', 'b'] =~= "kb"@);
    assert(seq!['m', 'b'] =~= "mb"@);
    assert(seq!['g', 'b'] =~= "gb"@);
    assert(seq!['t', 'b'] =~= "tb"@);
    assert("kb"@[0] == 'k' && "mb"@[0] == 'm' && "gb"@[0] == 'g' && "tb"@[0] == 't');
    assert("kb"@.len() == 2 && "mb"@.len() == 2 && "gb"@.len() == 2 && "tb"@.len() == 2);
}

/// A unit that is none of the sizes is an error that names it, and a value that starts with no
/// digit is no size.
pub proof fn other_units_are_no_sizes(n: u64, unit: Seq<char>, letters: Seq<char>)
    requires
        unit.len() > 0,
        !text::is_space(unit[0]) && !text::is_space(unit.last()) && !text::is_digit(unit[0]),
        letters == text::lowered(unit),
        letters.len() > 3 || !(letters[0] == 'b' || multiple_letters().contains(letters[0])) || (
        letters.len() == 3 && !(letters[1] == 'i' && letters[2] == 'b')) || (letters.len() == 2
            && letters[1] != 'b') || (letters[0] == 'b' && letters.len() > 1),
    ensures
        size_spec(text::decimal(n as nat) + unit) matches Err(Failure::UnknownUnit { unit: u, .. })
            && u == letters,
        size_spec(unit) == Err::<u64, Failure>(Failure::Malformed(unit)),
        size_spec(Seq::empty()) == Err::<u64, Failure>(Failure::Empty),
{
    let none = Seq::<char>::empty();
    lemma_split(none, n as nat, none, unit, none);
    assert(none + (text::decimal(n as nat) + none + unit) + none =~= text::decimal(n as nat)
        + unit);
    text::lemma_trimmed_fixed(unit);
    text::lemma_trimmed_fixed(none);
    reveal_strlit("");
    reveal_strlit("b");
    reveal_strlit("k");
    reveal_strlit("m");
    reveal_strlit("g");
    reveal_strlit("t");
    reveal_strlit("kib");
    reveal_strlit("mib");
    reveal_strlit("gib");
    reveal_strlit("tib");
    reveal_strlit("kb");
    reveal_strlit("mb");
    reveal_strlit("gb");
    reveal_strlit("tb");
    let m = multiple_letters();
    assert(m[0] == 'k' && m[1] == 'm' && m[2] == 'g' && m[3] == 't');
    assert(m.contains('k') && m.contains('m') && m.contains('g') && m.contains('t'));
    assert(size_unit(letters) is None);
}

/// The spellings of the units of time, from the second to the week.
pub open spec fn time_spellings(unit: int) -> Seq<Seq<char>> {
    if unit == 0 {
        seq![Seq::empty(), seq!['s'], seq!['s', 'e', 'c'], seq!['s', 'e', 'c', 's']]
    } else if unit == 1 {
        seq![seq!['m'], seq!['m', 'i', 'n'], seq!['m', 'i', 'n', 's']]
    } else if unit == 2 {
        seq![seq!['h'], seq!['h', 'r'], seq!['h', 'r', 's']]
    } else if unit == 3 {
        seq![seq!['d'], seq!['d', 'a', 'y'], seq!['d', 'a', 'y', 's']]
    } else {
        seq![seq!['w'], seq!['w', 'e', 'e', 'k'], seq!['w', 'e', 'e', 'k', 's']]
    }
}

/// How many seconds the units of time hold, from the second to the week.
pub open spec fn seconds_of(unit: int) -> int {
    if unit == 0 {
        1
    } else if unit == 1 {
        60
    } else if unit == 2 {
        60int * 60
    } else if unit == 3 {
        24int * 60 * 60
    } else {
        7int * 24 * 60 * 60
    }
}

/// A duration is its number times the seconds of its unit, where that fits in 64 bits, whatever
/// the case of the unit and the white space.
pub proof fn durations_are_numbers_of_units(
    before: Seq<char>,
    n: nat,
    gap: Seq<char>,
    unit: Seq<char>,
    after: Seq<char>,
    scale: int,
    spelling: int,
)
    requires
        forall|i: int| 0 <= i < before.len() ==> text::is_space(#[trigger] before[i]),
        forall|i: int| 0 <= i < gap.len() ==> text::is_space(#[trigger] gap[i]),
        forall|i: int| 0 <= i < after.len() ==> text::is_space(#[trigger] after[i]),
        unit.len() > 0 ==> !text::is_space(unit[0]) && !text::is_space(unit.last())
            && !text::is_digit(unit[0]),
        unit.len() == 0 ==> gap.len() == 0,
        0 <= scale < 5,
        0 <= spelling < time_spellings(scale).len(),
        text::lowered(unit) == time_spellings(scale)[spelling],
    ensures
        means(
            duration_spec(before + (text::decimal(n) + gap + unit) + after),
            n * seconds_of(scale),
        ),
{
    lemma_split(before, n, gap, unit, after);
    lemma_duration_units(text::lowered(unit), scale, spelling);
    let seconds = seconds_of(scale);
    assert(n > u64::MAX ==> n * seconds > u64::MAX) by (nonlinear_arith)
        requires
            seconds >= 1,
    ;
}

proof fn lemma_duration_units(unit: Seq<char>, scale: int, spelling: int)
    requires
        0 <= scale < 5,
        0 <= spelling < time_spellings(scale).len(),
        unit == time_spellings(scale)[spelling],
    ensures
        duration_unit(unit) matches Some(m) && m == seconds_of(scale),
{
    reveal_strlit("");
    reveal_strlit("s");
    reveal_strlit("sec");
    reveal_strlit("secs");
    reveal_strlit("m");
    reveal_strlit("min");
    reveal_strlit("mins");
    reveal_strlit("h");
    reveal_strlit("hr");
    reveal_strlit("hrs");
    reveal_strlit("d");
    reveal_strlit("day");
    reveal_strlit("days");
    reveal_strlit("w");
    reveal_strlit("week");
    reveal_strlit("weeks");
    if scale == 0 {
        assert(unit =~= ""@ || unit =~= "s"@ || unit =~= "sec"@ || unit =~= "secs"@);
    } else if scale == 1 {
        assert(unit =~= "m"@ || unit =~= "min"@ || unit =~= "mins"@);
        assert(unit[0] == 'm');
        assert("s"@[0] == 's' && "sec"@[0] == 's' && "secs"@[0] == 's');
    } else if scale == 2 {
        assert(unit =~= "h"@ || unit =~= "hr"@ || unit =~= "hrs"@);
        assert(unit[0] == 'h');
        assert("s"@[0] == 's' && "sec"@[0] == 's' && "secs"@[0] == 's');
        assert("m"@[0] == 'm' && "min"@[0] == 'm' && "mins"@[0] == 'm');
    } else if scale == 3 {
        assert(unit =~= "d"@ || unit =~= "day"@ || unit =~= "days"@);
        assert(unit[0] == 'd');
        assert("s"@[0] == 's' && "sec"@[0] == 's' && "secs"@[0] == 's');
        assert("m"@[0] == 'm' && "min"@[0] == 'm' && "mins"@[0] == 'm');
        assert("h"@[0] == 'h' && "hr"@[0] == 'h' && "hrs"@[0] == 'h');
    } else {
        assert(unit =~= "w"@ || unit =~= "week"@ || unit =~= "weeks"@);
        assert(unit[0] == 'w');
        assert("s"@[0] == 's' && "sec"@[0] == 's' && "secs"@[0] == 's');
        assert("m"@[0] == 'm' && "min"@[0] == 'm' && "mins"@[0] == 'm');
        assert("h"@[0] == 'h' && "hr"@[0] == 'h' && "hrs"@[0] == 'h');
        assert("d"@[0] == 'd' && "day"@[0] == 'd' && "days"@[0] == 'd');
    }
}

/// The powers of two are the numbers that doubling one gives, and no others.
pub proof fn powers_of_two_come_of_doubling(n: nat, k: nat)
    ensures
        is_power_of_two(vstd::arithmetic::power2::pow2(k)),
        is_power_of_two(n) ==> exists|e: nat| n == #[trigger] vstd::arithmetic::power2::pow2(e),
    decreases n, k,
{
    vstd::arithmetic::power2::lemma2_to64();
    if k > 0 {
        vstd::arithmetic::power2::lemma_pow2_unfold(k);
        vstd::arithmetic::power2::lemma_pow2_pos((k - 1) as nat);
        powers_of_two_come_of_doubling(0, (k - 1) as nat);
        assert(vstd::arithmetic::power2::pow2(k) / 2 == vstd::arithmetic::power2::pow2(
            (k - 1) as nat,
        ));
    }
    if is_power_of_two(n) {
        if n == 1 {
            assert(n == vstd::arithmetic::power2::pow2(0));
        } else {
            powers_of_two_come_of_doubling(n / 2, 0);
            let e = choose|e: nat| n / 2 == #[trigger] vstd::arithmetic::power2::pow2(e);
            vstd::arithmetic::power2::lemma_pow2_unfold(e + 1);
            assert(n == vstd::arithmetic::power2::pow2(e + 1));
        }
    }
}

/// No other spelling is a unit of time, and what has no number in front is no duration.
pub proof fn other_units_are_no_durations(n: u64, unit: Seq<char>, letters: Seq<char>)
    requires
        unit.len() > 0,
        !text::is_space(unit[0]) && !text::is_space(unit.last()) && !text::is_digit(unit[0]),
        letters == text::lowered(unit),
        forall|scale: int|
            0 <= scale < 5 ==> !(#[trigger] time_spellings(scale)).contains(letters),
    ensures
        duration_spec(text::decimal(n as nat) + unit) matches Err(
            Failure::UnknownUnit { unit: u, .. },
        ) && u == letters,
        duration_spec(unit) == Err::<u64, Failure>(Failure::Malformed(unit)),
        duration_spec(Seq::empty()) == Err::<u64, Failure>(Failure::Empty),
{
    let none = Seq::<char>::empty();
    lemma_split(none, n as nat, none, unit, none);
    assert(none + (text::decimal(n as nat) + none + unit) + none =~= text::decimal(n as nat)
        + unit);
    text::lemma_trimmed_fixed(unit);
    text::lemma_trimmed_fixed(none);
    reveal_strlit("");
    reveal_strlit("s");
    reveal_strlit("sec");
    reveal_strlit("secs");
    reveal_strlit("m");
    reveal_strlit("min");
    reveal_strlit("mins");
    reveal_strlit("h");
    reveal_strlit("hr");
    reveal_strlit("hrs");
    reveal_strlit("d");
    reveal_strlit("day");
    reveal_strlit("days");
    reveal_strlit("w");
    reveal_strlit("week");
    reveal_strlit("weeks");
    let a = time_spellings(0);
    let b = time_spellings(1);
    let c = time_spellings(2);
    let d = time_spellings(3);
    let e = time_spellings(4);
    assert(a[0] =~= ""@ && a[1] =~= "s"@ && a[2] =~= "sec"@ && a[3] =~= "secs"@);
    assert(b[0] =~= "m"@ && b[1] =~= "min"@ && b[2] =~= "mins"@);
    assert(c[0] =~= "h"@ && c[1] =~= "hr"@ && c[2] =~= "hrs"@);
    assert(d[0] =~= "d"@ && d[1] =~= "day"@ && d[2] =~= "days"@);
    assert(e[0] =~= "w"@ && e[1] =~= "week"@ && e[2] =~= "weeks"@);
    assert(!a.contains(letters) && !b.contains(letters) && !c.contains(letters) && !d.contains(
        letters,
    ) && !e.contains(letters));
    assert(duration_unit(letters) is None);
}

/// A size is shown in the largest binary unit that it is a whole number of, and in bytes where it is
/// a whole number of none.
pub proof fn sizes_are_shown_in_their_largest_unit(n: nat, bytes: u64)
    requires
        n > 0,
    ensures
        bytes == n * 0x100_0000_0000 ==> size_text(bytes) == text::decimal(n) + " TiB"@,
        bytes == n * 0x4000_0000 && n % 1024 != 0 ==> size_text(bytes) == text::decimal(n) + " GiB"@,
        bytes == n * 0x10_0000 && n % 1024 != 0 ==> size_text(bytes) == text::decimal(n) + " MiB"@,
        bytes == n * 0x400 && n % 1024 != 0 ==> size_text(bytes) == text::decimal(n) + " KiB"@,
        bytes == n && n % 1024 != 0 ==> size_text(bytes) == text::decimal(n) + " B"@,
        size_text(0) == text::decimal(0) + " B"@,
{
}

/// Zeros in front of a size or a duration make no difference to it.
pub proof fn zeros_in_front_make_no_difference(rest: Seq<char>)
    requires
        rest.len() > 0,
        text::is_digit(rest[0]),
        !text::is_space(rest.last()),
    ensures
        size_spec(rest) matches Ok(n) ==> size_spec(seq!['0'] + rest) == Ok::<u64, Failure>(n),
        duration_spec(rest) matches Ok(n) ==> duration_spec(seq!['0'] + rest) == Ok::<u64, Failure>(
            n,
        ),
        size_spec(rest) is Err ==> size_spec(seq!['0'] + rest) is Err,
        duration_spec(rest) is Err ==> duration_spec(seq!['0'] + rest) is Err,
{
    let all = seq!['0'] + rest;
    assert(all[0] == '0' && all.last() == rest.last());
    text::lemma_trimmed_fixed(rest);
    text::lemma_trimmed_fixed(all);
    assert(all.skip(1) =~= rest);
    let k = digit_prefix(rest);
    lemma_digit_prefix(rest);
    assert(digit_prefix(all) == k + 1);
    let d = rest.take(k);
    assert(all.take(k + 1) =~= seq!['0'] + d);
    assert(all.skip(k + 1) =~= rest.skip(k));
    lemma_zero_in_front(d);
}

proof fn lemma_zero_in_front(d: Seq<char>)
    ensures
        text::digits_value(seq!['0'] + d) == text::digits_value(d),
    decreases d.len(),
{
    let all = seq!['0'] + d;
    if d.len() > 0 {
        lemma_zero_in_front(d.drop_last());
        assert(all.drop_last() =~= seq!['0'] + d.drop_last());
        assert(all.last() == d.last());
    } else {
        assert(all =~= seq!['0']);
        assert(seq!['0'].drop_last() =~= Seq::empty());
        assert(text::digits_value(Seq::empty()) == 0);
    }
}

} // verus!
