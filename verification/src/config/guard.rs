//! The on-disk configuration guard.
//!
//! A file in the cache directory records the settings that the stored data depends on. If they
//! change, the slices already on disk no longer mean what the running configuration says they
//! mean, so startup stops rather than serving a mixture. There is no "warn and continue".
use crate::config::units;
use crate::config::units::{format_size, quoted};
use crate::text;
use vstd::prelude::*;
use vstd::string::*;

verus! {

/// Bumped whenever the on-disk slice format changes incompatibly.
pub const STORE_FORMAT_VERSION: u32 = 1;

/// The name of the guard file in a cache directory.
pub const FILE_NAME: &'static str = "CONFIG";

/// The settings the stored data depends on.
#[derive(Debug, Clone, Copy, PartialEq, Eq, Structural)]
pub struct StoredConfig {
    pub slice_size: u64,
    pub store_format_version: u32,
}

/// Why a cache directory cannot be used as it is configured.
#[derive(Debug, PartialEq, Eq)]
pub enum GuardError {
    /// The guard file is there and cannot be read.
    Read { path: String, source: String },
    Write { path: String, source: String },
    Malformed { path: String, line: usize, reason: String },
    Mismatch { found: String, configured: String },
}

/// What is told about a directory that was made with other settings.
pub open spec fn mismatch_text(found: Seq<char>, configured: Seq<char>) -> Seq<char> {
    "cache directory was created with "@ + found + ", but this process is configured with "@
        + configured
        + ".\nThe slices already stored there were written under the old setting and cannot be reinterpreted.\nEither restore the previous setting, point CACHE_DATA_DIR at an empty directory, or set FORCE_CONFIG=true to discard the existing cache."@
}

impl GuardError {
    pub open spec fn message_spec(self) -> Seq<char> {
        match self {
            GuardError::Read { path, source } => "cannot read "@ + path@ + ": "@ + source@,
            GuardError::Write { path, source } => "cannot write "@ + path@ + ": "@ + source@,
            GuardError::Malformed { path, line, reason } => path@ + " is malformed at line "@
                + text::decimal(line as nat) + ": "@ + reason@,
            GuardError::Mismatch { found, configured } => mismatch_text(found@, configured@),
        }
    }

    /// The error in words: what is wrong, and what to do about it.
    pub fn message(&self) -> (out: String)
        ensures
            out@ == self.message_spec(),
    {
        match self {
            GuardError::Read { path, source } => {
                let mut out = "cannot read ".to_owned();
                out.append(path.as_str());
                out.append(": ");
                out.append(source.as_str());
                out
            },
            GuardError::Write { path, source } => {
                let mut out = "cannot write ".to_owned();
                out.append(path.as_str());
                out.append(": ");
                out.append(source.as_str());
                out
            },
            GuardError::Malformed { path, line, reason } => {
                let mut out = path.clone();
                out.append(" is malformed at line ");
                out.append(text::decimal_string(*line as u64).as_str());
                out.append(": ");
                out.append(reason.as_str());
                out
            },
            GuardError::Mismatch { found, configured } => {
                let mut out = "cache directory was created with ".to_owned();
                out.append(found.as_str());
                out.append(", but this process is configured with ");
                out.append(configured.as_str());
                out.append(
                    ".\nThe slices already stored there were written under the old setting and cannot be reinterpreted.\nEither restore the previous setting, point CACHE_DATA_DIR at an empty directory, or set FORCE_CONFIG=true to discard the existing cache.",
                );
                out
            },
        }
    }
}

/// The text of the guard file.
pub open spec fn rendered(c: StoredConfig) -> Seq<char> {
    "# cachic cache directory configuration.\n"@
        + "# Written automatically. Changing these by hand will not migrate the stored data.\n"@
        + "store_format_version="@ + text::decimal(c.store_format_version as nat) + "\nslice_size="@
        + text::decimal(c.slice_size as nat) + "\n"@
}

/// The settings in the lines of a guard file, or the line that is wrong and why. Lines count from
/// one; what is missing is reported against line zero.
pub open spec fn settings_in(
    lines: Seq<Seq<char>>,
    index: int,
    slice_size: Option<u64>,
    version: Option<u32>,
) -> Result<StoredConfig, (int, Seq<char>)>
    decreases lines.len(),
{
    if lines.len() == 0 {
        match (slice_size, version) {
            (Some(s), Some(v)) => Ok(StoredConfig { slice_size: s, store_format_version: v }),
            _ => Err((0, "missing slice_size or store_format_version"@)),
        }
    } else {
        let line = text::trimmed(lines[0]);
        let rest = lines.skip(1);
        if line.len() == 0 || line[0] == '#' {
            settings_in(rest, index + 1, slice_size, version)
        } else {
            match text::split_at_first(line, '=') {
                None => Err((index + 1, "expected key=value, found "@ + units::quoted_text(line))),
                Some((k, v)) => {
                    let key = text::trimmed(k);
                    let value = text::parsed_u64(text::trimmed(v));
                    if key == "slice_size"@ {
                        match value {
                            Some(n) => settings_in(rest, index + 1, Some(n), version),
                            None => Err(
                                (
                                    index + 1,
                                    units::quoted_text(text::trimmed(v)) + " is not a number"@,
                                ),
                            ),
                        }
                    } else if key == "store_format_version"@ {
                        match value {
                            Some(n) => settings_in(rest, index + 1, slice_size, Some(n as u32)),
                            None => Err(
                                (
                                    index + 1,
                                    units::quoted_text(text::trimmed(v)) + " is not a number"@,
                                ),
                            ),
                        }
                    } else {
                        Err((index + 1, "unknown key "@ + units::quoted_text(key)))
                    }
                },
            }
        }
    }
}

/// The settings that a guard file records.
pub open spec fn parsed(s: Seq<char>) -> Result<StoredConfig, (int, Seq<char>)> {
    settings_in(text::lines_of(s), 0, None, None)
}

/// How a configuration is named to an operator.
pub open spec fn described(c: StoredConfig) -> Seq<char> {
    "slice size "@ + units::size_text(c.slice_size) + " (format version "@ + text::decimal(
        c.store_format_version as nat,
    ) + ")"@
}

fn malformed(path: &str, line: usize, reason: String) -> (out: GuardError)
    ensures
        out matches GuardError::Malformed { path: p, line: l, reason: r } && p@ == path@ && l == line
            && r == reason,
{
    GuardError::Malformed { path: path.to_owned(), line, reason }
}

impl StoredConfig {
    /// The text of the guard file.
    pub fn render(&self) -> (out: String)
        ensures
            out@ == rendered(*self),
    {
        let mut out = "# cachic cache directory configuration.\n".to_owned();
        out.append(
            "# Written automatically. Changing these by hand will not migrate the stored data.\n",
        );
        out.append("store_format_version=");
        out.append(text::decimal_string(self.store_format_version as u64).as_str());
        out.append("\nslice_size=");
        out.append(text::decimal_string(self.slice_size).as_str());
        out.append("\n");
        out
    }

    /// Reads the text of the guard file at `path`.
    pub fn parse(text: &str, path: &str) -> (out: Result<Self, GuardError>)
        ensures
            match parsed(text@) {
                Ok(c) => out == Ok::<StoredConfig, GuardError>(c),
                Err((l, why)) => out matches Err(GuardError::Malformed { path: p, line, reason })
                    && p@ == path@ && line == l && reason@ == why,
            },
    {
        let chars = text::chars_of(text);
        let lines = text::lines(chars.as_slice());
        let mut slice_size: Option<u64> = None;
        let mut version: Option<u32> = None;
        let n: usize = lines.len();
        let ghost all = text::lines_of(text@);
        assert(all.skip(0) =~= all);
        let mut index: usize = 0;
        while index < n
            invariant
                index <= n,
                n == lines@.len(),
                all == text::seqs(lines@),
                all == text::lines_of(text@),
                parsed(text@) == settings_in(
                    all.skip(index as int),
                    index as int,
                    slice_size,
                    version,
                ),
            decreases n - index,
        {
            let ghost rest = all.skip(index as int);
            assert(rest[0] == lines@[index as int]@);
            assert(rest.skip(1) =~= all.skip(index as int + 1));
            let line = text::trim(lines[index].as_slice());
            index = index + 1;
            if line.len() == 0 || line[0] == '#' {
                continue;
            }
            let (k, v) = match text::split_once(line, '=') {
                Some(pair) => pair,
                None => {
                    let mut reason = "expected key=value, found ".to_owned();
                    reason.append(quoted(text::string_of(line).as_str()).as_str());
                    return Err(malformed(path, index, reason));
                },
            };
            let key = text::string_of(text::trim(k));
            let value = text::trim(v);
            let is_size = text::same(key.as_str(), "slice_size");
            if !is_size && !text::same(key.as_str(), "store_format_version") {
                let mut reason = "unknown key ".to_owned();
                reason.append(quoted(key.as_str()).as_str());
                return Err(malformed(path, index, reason));
            }
            let number: u64 = match text::parse_u64(value) {
                Some(x) => x,
                None => {
                    let reason = quoted(text::string_of(value).as_str()).concat(
                        " is not a number",
                    );
                    return Err(malformed(path, index, reason));
                },
            };
            if is_size {
                slice_size = Some(number);
            } else {
                version = Some(#[verifier::truncate] (number as u32));
            }
        }
        assert(all.skip(n as int) =~= Seq::empty());
        match (slice_size, version) {
            (Some(slice_size), Some(store_format_version)) => Ok(
                StoredConfig { slice_size, store_format_version },
            ),
            _ => Err(
                malformed(path, 0, "missing slice_size or store_format_version".to_owned()),
            ),
        }
    }

    /// How the configuration is named to an operator.
    pub fn describe(&self) -> (out: String)
        ensures
            out@ == described(*self),
    {
        let mut out = "slice size ".to_owned();
        out.append(format_size(self.slice_size).as_str());
        out.append(" (format version ");
        out.append(text::decimal_string(self.store_format_version as u64).as_str());
        out.append(")");
        out
    }
}

/// What to do about the guard file.
#[derive(Debug, PartialEq, Eq)]
pub enum GuardAction {
    /// It says what it should.
    Keep,
    /// It has to be written, with this text.
    Write(String),
}

/// Check the guard, given the text of the guard file at `path` where there is one.
///
/// A directory without one is new, and gets one. `force` discards settings that differ and adopts
/// the current ones. It does not delete the stored slices, but they will not be found under the
/// new slice size. A file that cannot be read as a guard file is an error either way.
pub fn check(
    existing: Option<&str>,
    path: &str,
    configured: &StoredConfig,
    force: bool,
) -> (out: Result<GuardAction, GuardError>)
    ensures
        match existing {
            None => out matches Ok(GuardAction::Write(t)) && t@ == rendered(*configured),
            Some(s) => match parsed(s@) {
                Err((l, why)) => out matches Err(GuardError::Malformed { path: p, line, reason })
                    && p@ == path@ && line == l && reason@ == why,
                Ok(found) => if found == *configured {
                    out == Ok::<GuardAction, GuardError>(GuardAction::Keep)
                } else if force {
                    out matches Ok(GuardAction::Write(t)) && t@ == rendered(*configured)
                } else {
                    out matches Err(GuardError::Mismatch { found: f, configured: c }) && f@
                        == described(found) && c@ == described(*configured)
                },
            },
        },
{
    let found = match existing {
        None => return Ok(GuardAction::Write(configured.render())),
        Some(s) => match StoredConfig::parse(s, path) {
            Ok(c) => c,
            Err(e) => return Err(e),
        },
    };
    if found == *configured {
        Ok(GuardAction::Keep)
    } else if !force {
        Err(
            GuardError::Mismatch { found: found.describe(), configured: configured.describe() },
        )
    } else {
        Ok(GuardAction::Write(configured.render()))
    }
}

proof fn lemma_literals()
    ensures
        ({
            let a = "# cachic cache directory configuration.\n"@;
            a.len() > 1 && a.last() == '\n' && a[0] == '#' && a[a.len() - 2] == '.'
                && text::find_from(a, '\n', 0) == a.len() - 1
        }),
        ({
            let b = "# Written automatically. Changing these by hand will not migrate the stored data.\n"@;
            b.len() > 1 && b.last() == '\n' && b[0] == '#' && b[b.len() - 2] == '.'
                && text::find_from(b, '\n', 0) == b.len() - 1
        }),
        "store_format_version="@ == "store_format_version"@ + seq!['='],
        "store_format_version"@[0] == 's',
        "store_format_version"@.last() == 'n',
        text::find_from("store_format_version"@, '=', 0) == "store_format_version"@.len(),
        text::find_from("store_format_version"@, '\n', 0) == "store_format_version"@.len(),
        "\nslice_size="@ == seq!['\n'] + "slice_size"@ + seq!['='],
        "slice_size"@[0] == 's',
        "slice_size"@.last() == 'e',
        "slice_size"@.len() == 10,
        "store_format_version"@.len() == 20,
        text::find_from("slice_size"@, '=', 0) == "slice_size"@.len(),
        text::find_from("slice_size"@, '\n', 0) == "slice_size"@.len(),
        "\n"@ == seq!['\n'],
{
    reveal_strlit("# cachic cache directory configuration.\n");
    reveal_strlit(
        "# Written automatically. Changing these by hand will not migrate the stored data.\n",
    );
    reveal_strlit("store_format_version=");
    reveal_strlit("store_format_version");
    reveal_strlit("\nslice_size=");
    reveal_strlit("slice_size");
    reveal_strlit("\n");
    assert("\n"@ =~= seq!['\n']);
    assert("store_format_version="@ =~= "store_format_version"@ + seq!['=']);
    assert("\nslice_size="@ =~= seq!['\n'] + "slice_size"@ + seq!['=']);
    reveal_with_fuel(text::find_from, 84);
}

/// A setting on a line of its own, split into its key and its value.
proof fn lemma_setting_line(key: Seq<char>, n: nat, rest: Seq<char>)
    requires
        key.len() > 0,
        !text::is_space(key[0]),
        !text::is_space(key.last()),
        key[0] != '#',
        text::find_from(key, '=', 0) == key.len(),
        text::find_from(key, '\n', 0) == key.len(),
        n <= u64::MAX,
    ensures
        ({
            let line = key + seq!['='] + text::decimal(n);
            &&& text::lines_of(line + seq!['\n'] + rest) == seq![line] + text::lines_of(rest)
            &&& text::trimmed(line) == line
            &&& line.len() > 0
            &&& line[0] != '#'
            &&& text::split_at_first(line, '=') == Some((key, text::decimal(n)))
            &&& text::trimmed(key) == key
            &&& text::trimmed(text::decimal(n)) == text::decimal(n)
            &&& text::parsed_u64(text::decimal(n)) == Some(n as u64)
        }),
{
    let d = text::decimal(n);
    let line = key + seq!['='] + d;
    text::lemma_decimal_reads_back(n);
    text::lemma_decimal_holds_no_other(n, '\n');
    assert(text::is_digit(d[0]));
    assert(text::is_digit(d[d.len() - 1]));
    assert(line.last() == d.last());
    text::lemma_find_from(key, '\n', 0);
    text::lemma_find_from(d, '\n', 0);
    assert forall|j: int| 0 <= j < line.len() implies line[j] != '\n' by {
        if j > key.len() {
            assert(line[j] == d[j - key.len() - 1]);
        }
    }
    text::lemma_find_is(line, '\n', 0, line.len() as int);
    text::lemma_first_line(line, rest);
    text::lemma_trimmed_fixed(line);
    text::lemma_trimmed_fixed(key);
    text::lemma_trimmed_fixed(d);
    text::lemma_splits(key, '=', d);
}

/// What the guard writes for a configuration, it reads back as that configuration, so an unchanged
/// configuration is always accepted.
#[verifier::spinoff_prover]
#[verifier::rlimit(60)]
pub proof fn written_guards_read_back(c: StoredConfig)
    ensures
        parsed(rendered(c)) == Ok::<StoredConfig, (int, Seq<char>)>(c),
{
    lemma_literals();
    let a = "# cachic cache directory configuration.\n"@;
    let b = "# Written automatically. Changing these by hand will not migrate the stored data.\n"@;
    let k1 = "store_format_version"@;
    let k2 = "slice_size"@;
    let d1 = text::decimal(c.store_format_version as nat);
    let d2 = text::decimal(c.slice_size as nat);
    let nl = seq!['\n'];
    let l1 = k1 + seq!['='] + d1;
    let l2 = k2 + seq!['='] + d2;
    let r3 = l2 + nl + Seq::<char>::empty();
    let r2 = l1 + nl + r3;
    let r1 = b + r2;
    let r0 = a + r1;
    assert(rendered(c) =~= r0);
    lemma_comment(a, r1);
    lemma_comment(b, r2);
    lemma_setting_line(k1, c.store_format_version as nat, r3);
    lemma_setting_line(k2, c.slice_size as nat, Seq::empty());
    let ca = a.drop_last();
    let cb = b.drop_last();
    assert(text::lines_of(Seq::<char>::empty()) =~= Seq::<Seq<char>>::empty());
    let s4 = Seq::<Seq<char>>::empty();
    let s3 = seq![l2] + s4;
    let s2 = seq![l1] + s3;
    let s1 = seq![cb] + s2;
    let s0 = seq![ca] + s1;
    assert(text::lines_of(r0) == s0);
    assert(s0.skip(1) =~= s1);
    assert(s1.skip(1) =~= s2);
    assert(s2.skip(1) =~= s3);
    assert(s3.skip(1) =~= s4);
    assert(k1 != k2) by {
        assert(k1.len() != k2.len());
    }
    let v = c.store_format_version;
    assert(settings_in(s4, 4, Some(c.slice_size), Some(v)) == Ok::<
        StoredConfig,
        (int, Seq<char>),
    >(c));
    assert(settings_in(s3, 3, None, Some(v)) == settings_in(s4, 4, Some(c.slice_size), Some(v)));
    assert((v as u64) as u32 == v);
    assert(settings_in(s2, 2, None, None) == settings_in(s3, 3, None, Some(v)));
    assert(settings_in(s1, 1, None, None) == settings_in(s2, 2, None, None));
}

/// A comment on a line of its own is passed over.
proof fn lemma_comment(comment: Seq<char>, rest: Seq<char>)
    requires
        comment.len() > 1,
        comment.last() == '\n',
        comment[0] == '#',
        comment[comment.len() - 2] == '.',
        text::find_from(comment, '\n', 0) == comment.len() - 1,
    ensures
        text::lines_of(comment + rest) == seq![comment.drop_last()] + text::lines_of(rest),
        text::trimmed(comment.drop_last()) == comment.drop_last(),
        comment.drop_last()[0] == '#',
{
    let line = comment.drop_last();
    text::lemma_find_from(comment, '\n', 0);
    text::lemma_find_is(line, '\n', 0, line.len() as int);
    text::lemma_first_line(line, rest);
    assert(comment + rest =~= line + seq!['\n'] + rest);
    text::lemma_trimmed_fixed(line);
}

/// A guard file is read line by line: each setting counts from the line that gives it on, whatever
/// stands around it; blank lines and comments say nothing; any other key, or a line without one, is
/// wrong; and both settings have to be there in the end.
pub proof fn guard_lines_are_read_one_by_one(
    key: Seq<char>,
    n: u64,
    note: Seq<char>,
    rest: Seq<Seq<char>>,
    index: int,
    slice_size: Option<u64>,
    version: Option<u32>,
)
    requires
        key.len() > 0,
        !text::is_space(key[0]) && !text::is_space(key.last()),
        key[0] != '#',
        forall|i: int| 0 <= i < key.len() ==> #[trigger] key[i] != '=',
    ensures
        ({
            let line = key + seq!['='] + text::decimal(n as nat);
            let read = settings_in(seq![line] + rest, index, slice_size, version);
            &&& key == "slice_size"@ ==> read == settings_in(rest, index + 1, Some(n), version)
            &&& key == "store_format_version"@ && n <= u32::MAX ==> read == settings_in(
                rest,
                index + 1,
                slice_size,
                Some(n as u32),
            )
            &&& key != "slice_size"@ && key != "store_format_version"@ ==> (read matches Err(e)
                && e.0 == index + 1)
        }),
        settings_in(seq![seq!['#'] + note] + rest, index, slice_size, version) == settings_in(
            rest,
            index + 1,
            slice_size,
            version,
        ),
        settings_in(seq![Seq::<char>::empty()] + rest, index, slice_size, version) == settings_in(
            rest,
            index + 1,
            slice_size,
            version,
        ),
        settings_in(seq![key] + rest, index, slice_size, version) matches Err(e) && e.0 == index + 1,
        settings_in(Seq::empty(), index, slice_size, version) is Ok <==> slice_size is Some
            && version is Some,
        slice_size is Some && version is Some ==> settings_in(
            Seq::empty(),
            index,
            slice_size,
            version,
        ) == Ok::<StoredConfig, (int, Seq<char>)>(
            StoredConfig { slice_size: slice_size->0, store_format_version: version->0 },
        ),
{
    reveal_strlit("slice_size");
    reveal_strlit("store_format_version");
    let d = text::decimal(n as nat);
    let line = key + seq!['='] + d;
    text::lemma_decimal_reads_back(n as nat);
    assert(text::is_digit(d[0]) && text::is_digit(d[d.len() - 1]));
    text::numbers_are_written_in_decimal(n as nat, 0);
    assert(line[0] == key[0] && line.last() == d.last());
    text::lemma_trimmed_fixed(line);
    text::lemma_trimmed_fixed(key);
    text::lemma_trimmed_fixed(d);
    text::texts_part_at_every_separator(key, '=', d);
    lemma_head(line, rest);
    lemma_head(key, rest);
    let comment = seq!['#'] + note;
    lemma_head(comment, rest);
    lemma_comment_stays(note);
    let none = Seq::<char>::empty();
    lemma_head(none, rest);
    text::lemma_trimmed_fixed(none);
}

proof fn lemma_head(line: Seq<char>, rest: Seq<Seq<char>>)
    ensures
        (seq![line] + rest).len() > 0,
        (seq![line] + rest)[0] == line,
        (seq![line] + rest).skip(1) == rest,
{
    assert((seq![line] + rest).skip(1) =~= rest);
}

/// A text that starts with a mark starts with it when it is trimmed.
proof fn lemma_comment_stays(note: Seq<char>)
    ensures
        text::trimmed(seq!['#'] + note).len() > 0,
        text::trimmed(seq!['#'] + note)[0] == '#',
    decreases note.len(),
{
    let s = seq!['#'] + note;
    assert(text::trimmed_start(s) == s);
    if note.len() > 0 && text::is_space(s.last()) {
        assert(s.drop_last() =~= seq!['#'] + note.drop_last());
        lemma_comment_stays(note.drop_last());
        assert(text::trimmed_start(s.drop_last()) == s.drop_last());
    }
}

proof fn lemma_size_without_bracket(bytes: u64)
    ensures
        forall|i: int| 0 <= i < units::size_text(bytes).len() ==> #[trigger] units::size_text(
            bytes,
        )[i] != '(',
{
    reveal_strlit(" TiB");
    reveal_strlit(" GiB");
    reveal_strlit(" MiB");
    reveal_strlit(" KiB");
    reveal_strlit(" B");
    let s = units::size_text(bytes);
    let (n, unit) = if bytes > 0 && bytes % 0x100_0000_0000 == 0 {
        (bytes / 0x100_0000_0000, " TiB"@)
    } else if bytes > 0 && bytes % 0x4000_0000 == 0 {
        (bytes / 0x4000_0000, " GiB"@)
    } else if bytes > 0 && bytes % 0x10_0000 == 0 {
        (bytes / 0x10_0000, " MiB"@)
    } else if bytes > 0 && bytes % 0x400 == 0 {
        (bytes / 0x400, " KiB"@)
    } else {
        (bytes, " B"@)
    };
    let d = text::decimal(n as nat);
    assert(s == d + unit);
    text::lemma_decimal_reads_back(n as nat);
    assert forall|i: int| 0 <= i < s.len() implies #[trigger] s[i] != '(' by {
        if i < d.len() {
            assert(text::is_digit(d[i]));
        } else {
            assert(s[i] == unit[i - d.len()]);
        }
    }
}

/// No two configurations are named alike to an operator, so a mismatch always shows a difference.
pub proof fn configurations_are_named_apart(a: StoredConfig, b: StoredConfig)
    requires
        described(a) == described(b),
    ensures
        a == b,
{
    reveal_strlit("slice size ");
    reveal_strlit(" (format version ");
    reveal_strlit(")");
    lemma_described(a);
    lemma_described(b);
    units::formatted_sizes_read_back(a.slice_size);
    units::formatted_sizes_read_back(b.slice_size);
    let start = "slice size "@;
    let sa = units::size_text(a.slice_size);
    let sb = units::size_text(b.slice_size);
    let x = start + sa + seq![' '];
    let y = start + sb + seq![' '];
    assert(x == y);
    assert(sa =~= x.subrange(11, x.len() - 1));
    assert(sb =~= y.subrange(11, y.len() - 1));
    let va = text::decimal(a.store_format_version as nat);
    let vb = text::decimal(b.store_format_version as nat);
    let word = "format version "@;
    reveal_strlit("format version ");
    let p = word + va + seq![')'];
    let q = word + vb + seq![')'];
    assert(p == q);
    assert(va =~= p.subrange(15, p.len() - 1));
    assert(vb =~= q.subrange(15, q.len() - 1));
    text::lemma_decimal_reads_back(a.store_format_version as nat);
    text::lemma_decimal_reads_back(b.store_format_version as nat);
}

proof fn lemma_described(c: StoredConfig)
    ensures
        text::split_at_first(described(c), '(') == Some(
            (
                "slice size "@ + units::size_text(c.slice_size) + seq![' '],
                "format version "@ + text::decimal(c.store_format_version as nat) + seq![')'],
            ),
        ),
{
    reveal_strlit("slice size ");
    reveal_strlit(" (format version ");
    reveal_strlit("format version ");
    reveal_strlit(")");
    let s = units::size_text(c.slice_size);
    lemma_size_without_bracket(c.slice_size);
    let a = "slice size "@ + s + seq![' '];
    let b = "format version "@ + text::decimal(c.store_format_version as nat) + seq![')'];
    assert(described(c) =~= a + seq!['('] + b);
    assert forall|i: int| 0 <= i < a.len() implies #[trigger] a[i] != '(' by {
        if 11 <= i < 11 + s.len() {
            assert(a[i] == s[i - 11]);
        }
    }
    text::texts_part_at_every_separator(a, '(', b);
}

/// White space around a line, a key or a value in a guard file makes no difference.
pub proof fn guard_lines_may_be_spaced(
    before: Seq<char>,
    key: Seq<char>,
    left: Seq<char>,
    right: Seq<char>,
    value: Seq<char>,
    after: Seq<char>,
    rest: Seq<Seq<char>>,
    index: int,
    slice_size: Option<u64>,
    version: Option<u32>,
)
    requires
        forall|i: int| 0 <= i < before.len() ==> text::is_space(#[trigger] before[i]),
        forall|i: int| 0 <= i < left.len() ==> text::is_space(#[trigger] left[i]),
        forall|i: int| 0 <= i < right.len() ==> text::is_space(#[trigger] right[i]),
        forall|i: int| 0 <= i < after.len() ==> text::is_space(#[trigger] after[i]),
        key.len() > 0 && value.len() > 0,
        !text::is_space(key[0]) && !text::is_space(key.last()),
        !text::is_space(value[0]) && !text::is_space(value.last()),
        key[0] != '#',
        forall|i: int| 0 <= i < key.len() ==> #[trigger] key[i] != '=',
    ensures
        ({
            let spaced = before + (key + left + seq!['='] + right + value) + after;
            let plain = key + seq!['='] + value;
            settings_in(seq![spaced] + rest, index, slice_size, version) == settings_in(
                seq![plain] + rest,
                index,
                slice_size,
                version,
            )
        }),
{
    let middle = key + left + seq!['='] + right + value;
    let spaced = before + middle + after;
    let plain = key + seq!['='] + value;
    let none = Seq::<char>::empty();
    assert(middle[0] == key[0] && middle.last() == value.last());
    assert(plain[0] == key[0] && plain.last() == value.last());
    text::trimming_takes_the_white_space_around(before, middle, after);
    text::lemma_trimmed_fixed(plain);
    let k = key + left;
    assert forall|i: int| 0 <= i < k.len() implies #[trigger] k[i] != '=' by {
        if i < key.len() {
            assert(k[i] == key[i]);
        } else {
            assert(k[i] == left[i - key.len()]);
            assert(text::is_space(left[i - key.len()]));
        }
    }
    assert(middle =~= k + seq!['='] + (right + value));
    text::texts_part_at_every_separator(k, '=', right + value);
    text::texts_part_at_every_separator(key, '=', value);
    text::trimming_takes_the_white_space_around(none, key, left);
    assert(none + key + left =~= k);
    text::trimming_takes_the_white_space_around(right, value, none);
    assert(right + value + none =~= right + value);
    text::lemma_trimmed_fixed(key);
    text::lemma_trimmed_fixed(value);
    lemma_head(spaced, rest);
    lemma_head(plain, rest);
}

} // verus!
