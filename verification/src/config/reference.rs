//! The configuration reference.
//!
//! The reference is rendered from the definitions that the program parses its arguments by, so it
//! cannot describe a flag that does not exist or miss one that does.
use crate::text;
use crate::wire;
use vstd::prelude::*;
use vstd::string::*;

verus! {

/// A command-line setting, as it is defined.
pub struct Setting {
    pub id: String,
    pub hidden: bool,
    pub env: Option<String>,
    pub long: Option<String>,
    pub default_values: Vec<String>,
    pub long_help: Option<String>,
    pub help: Option<String>,
}

pub open spec fn cell(value: Option<Seq<char>>, open: Seq<char>) -> Seq<char> {
    match value {
        Some(v) => open + v + "`"@,
        None => "-"@,
    }
}

/// The default values as one text, where there is anything to show.
pub open spec fn default_cell(values: Seq<Seq<char>>) -> Seq<char> {
    let all = text::joined(values, " "@);
    cell(
        if all.len() == 0 {
            None
        } else {
            Some(all)
        },
        "`"@,
    )
}

/// The help of a setting on one line of a table. The long help is taken where there is one: the
/// reference is where the reasoning belongs.
pub open spec fn help_cell(s: Setting) -> Seq<char> {
    let raw = match (wire::chars_in(s.long_help), wire::chars_in(s.help)) {
        (Some(h), _) => h,
        (None, Some(h)) => h,
        (None, None) => Seq::empty(),
    };
    text::replaced(text::replaced(raw, '\n', " "@), '|', "\\|"@)
}

/// Whether a setting is left out of the reference.
pub open spec fn left_out(s: Setting) -> bool {
    s.hidden || s.id@ == "help"@ || s.id@ == "version"@
}

pub open spec fn row(s: Setting) -> Seq<char> {
    "| "@ + cell(wire::chars_in(s.env), "`"@) + " | "@ + cell(wire::chars_in(s.long), "`--"@)
        + " | "@ + default_cell(text::texts(s.default_values@)) + " | "@ + help_cell(s) + " |\n"@
}

/// The rows of the settings that are not left out, in order.
pub open spec fn rows(settings: Seq<Setting>) -> Seq<char>
    decreases settings.len(),
{
    if settings.len() == 0 {
        Seq::empty()
    } else if left_out(settings.last()) {
        rows(settings.drop_last())
    } else {
        rows(settings.drop_last()) + row(settings.last())
    }
}

pub open spec fn opening() -> Seq<char> {
    "# Configuration reference\n\nGenerated from the command-line definitions; do not edit by hand. Regenerate with:\n\n```sh\ncargo run --example config-reference > docs/configuration.md\n```\n\nEvery setting can be given as an environment variable or as a command-line flag. Precedence is environment > file > defaults.\n\nSizes accept nginx spellings (`1000g`, `2g`, `1m`) which are binary multiples, matching `lancachenet/monolithic`, as well as IEC (`GiB`) and SI (`GB`, decimal). Durations accept `s`, `m`, `h`, `d`, `w`.\n\n| Environment variable | Flag | Default | Description |\n|---|---|---|---|\n"@
}

pub open spec fn closing() -> Seq<char> {
    "\n## Sizing notes\n\n- **Per-connection memory** is `READAHEAD_SLICES * CACHE_SLICE_SIZE`. At the defaults that is 4 MiB per in-flight client request, and it is a hard bound rather than a target.\n- **Index memory** is roughly 400 bytes per stored slice, and is *not* part of `CACHE_MEM_SIZE`. A 2 TB cache at 1 MiB slices needs about 760 MB for the index; at 4 MiB slices, about 190 MB. `lancachenet/monolithic`'s equivalent figure is around 128 bytes per slice, so budget roughly three times what you would have under nginx.\n- **Changing `CACHE_SLICE_SIZE`** against an existing cache directory aborts startup. The stored slices were written under the old size and cannot be reinterpreted. Set `FORCE_CONFIG=true` to adopt the new size and abandon the existing cache.\n"@
}

fn put_cell(out: &mut String, value: &Option<String>, open: &str)
    ensures
        final(out)@ == old(out)@ + cell(wire::chars_in(*value), open@),
{
    match value {
        Some(v) => {
            out.append(open);
            out.append(v.as_str());
            out.append("`");
            assert(out@ =~= old(out)@ + cell(Some(v@), open@));
        },
        None => out.append("-"),
    }
}

fn put_row(out: &mut String, s: &Setting)
    ensures
        final(out)@ == old(out)@ + row(*s),
{
    out.append("| ");
    put_cell(out, &s.env, "`");
    out.append(" | ");
    put_cell(out, &s.long, "`--");
    out.append(" | ");
    let all = text::join(&s.default_values, " ");
    let shown = if all.as_str().is_empty() {
        None
    } else {
        Some(all)
    };
    put_cell(out, &shown, "`");
    out.append(" | ");
    let raw = match (&s.long_help, &s.help) {
        (Some(h), _) => h.clone(),
        (None, Some(h)) => h.clone(),
        (None, None) => String::new(),
    };
    let one_line = text::replace(raw.as_str(), '\n', " ");
    let escaped = text::replace(one_line.as_str(), '|', "\\|");
    out.append(escaped.as_str());
    out.append(" |\n");
    assert(out@ =~= old(out)@ + row(*s));
}

/// Render the configuration reference as Markdown.
pub fn render(settings: &Vec<Setting>) -> (out: String)
    ensures
        out@ == opening() + rows(settings@) + closing(),
{
    let mut out =
        "# Configuration reference\n\nGenerated from the command-line definitions; do not edit by hand. Regenerate with:\n\n```sh\ncargo run --example config-reference > docs/configuration.md\n```\n\nEvery setting can be given as an environment variable or as a command-line flag. Precedence is environment > file > defaults.\n\nSizes accept nginx spellings (`1000g`, `2g`, `1m`) which are binary multiples, matching `lancachenet/monolithic`, as well as IEC (`GiB`) and SI (`GB`, decimal). Durations accept `s`, `m`, `h`, `d`, `w`.\n\n| Environment variable | Flag | Default | Description |\n|---|---|---|---|\n".to_owned();
    let n: usize = settings.len();
    assert(settings@.take(0) =~= Seq::empty());
    assert(out@ =~= opening() + rows(settings@.take(0)));
    for i in 0..n
        invariant
            n == settings@.len(),
            out@ == opening() + rows(settings@.take(i as int)),
    {
        assert(settings@.take(i + 1).drop_last() =~= settings@.take(i as int));
        let s = &settings[i];
        assert(settings@.take(i + 1).last() == *s);
        if !s.hidden && !text::same(s.id.as_str(), "help") && !text::same(
            s.id.as_str(),
            "version",
        ) {
            put_row(&mut out, s);
        }
        assert(out@ =~= opening() + rows(settings@.take(i + 1)));
    }
    assert(settings@.take(n as int) =~= settings@);
    out.append(
        "\n## Sizing notes\n\n- **Per-connection memory** is `READAHEAD_SLICES * CACHE_SLICE_SIZE`. At the defaults that is 4 MiB per in-flight client request, and it is a hard bound rather than a target.\n- **Index memory** is roughly 400 bytes per stored slice, and is *not* part of `CACHE_MEM_SIZE`. A 2 TB cache at 1 MiB slices needs about 760 MB for the index; at 4 MiB slices, about 190 MB. `lancachenet/monolithic`'s equivalent figure is around 128 bytes per slice, so budget roughly three times what you would have under nginx.\n- **Changing `CACHE_SLICE_SIZE`** against an existing cache directory aborts startup. The stored slices were written under the old size and cannot be reinterpreted. Set `FORCE_CONFIG=true` to adopt the new size and abandon the existing cache.\n",
    );
    out
}

/// The reference has a row for each setting that is shown, in order, and none for the others.
pub proof fn each_setting_has_its_row(a: Seq<Setting>, b: Seq<Setting>, s: Setting)
    ensures
        rows(a + b) == rows(a) + rows(b),
        s.hidden || s.id@ == "help"@ || s.id@ == "version"@ ==> rows(seq![s]) == Seq::<char>::empty(),
        !s.hidden && s.id@ != "help"@ && s.id@ != "version"@ ==> rows(seq![s]) == row(s),
    decreases b.len(),
{
    assert(seq![s].drop_last() =~= Seq::empty());
    assert(seq![s].last() == s);
    assert(rows(Seq::empty()) =~= Seq::empty());
    assert(Seq::<char>::empty() + row(s) =~= row(s));
    if b.len() > 0 {
        each_setting_has_its_row(a, b.drop_last(), s);
        assert((a + b).drop_last() =~= a + b.drop_last());
        assert((a + b).last() == b.last());
        assert(rows(a + b) =~= rows(a) + rows(b));
    } else {
        assert(a + b =~= a);
        assert(rows(a) + rows(b) =~= rows(a));
    }
}

/// A row falls into its cells at its bars: the variable, the flag behind its two dashes, the default
/// values with spaces between them, and the help, where none of them shows a bar of its own.
pub proof fn rows_fall_into_their_cells(s: Setting)
    requires
        forall|i: int| 0 <= i < cell(wire::chars_in(s.env), "`"@).len() ==> #[trigger] cell(
            wire::chars_in(s.env),
            "`"@,
        )[i] != '|',
        forall|i: int| 0 <= i < cell(wire::chars_in(s.long), "`--"@).len() ==> #[trigger] cell(
            wire::chars_in(s.long),
            "`--"@,
        )[i] != '|',
        forall|i: int|
            0 <= i < default_cell(text::texts(s.default_values@)).len() ==> #[trigger] default_cell(
                text::texts(s.default_values@),
            )[i] != '|',
        forall|i: int| 0 <= i < help_cell(s).len() ==> #[trigger] help_cell(s)[i] != '|',
    ensures
        text::parts(row(s), '|') == seq![
            Seq::empty(),
            seq![' '] + cell(wire::chars_in(s.env), "`"@) + seq![' '],
            seq![' '] + cell(wire::chars_in(s.long), "`--"@) + seq![' '],
            seq![' '] + default_cell(text::texts(s.default_values@)) + seq![' '],
            seq![' '] + help_cell(s) + seq![' '],
            seq!['\n'],
        ],
{
    reveal_strlit("| ");
    reveal_strlit(" | ");
    reveal_strlit(" |\n");
    let a = seq![' '] + cell(wire::chars_in(s.env), "`"@) + seq![' '];
    let b = seq![' '] + cell(wire::chars_in(s.long), "`--"@) + seq![' '];
    let c = seq![' '] + default_cell(text::texts(s.default_values@)) + seq![' '];
    let d = seq![' '] + help_cell(s) + seq![' '];
    let end = seq!['\n'];
    let bar = seq!['|'];
    let none = Seq::<char>::empty();
    lemma_no_bar(cell(wire::chars_in(s.env), "`"@));
    lemma_no_bar(cell(wire::chars_in(s.long), "`--"@));
    lemma_no_bar(default_cell(text::texts(s.default_values@)));
    lemma_no_bar(help_cell(s));
    let r4 = d + bar + end;
    let r3 = c + bar + r4;
    let r2 = b + bar + r3;
    let r1 = a + bar + r2;
    assert(row(s) =~= none + bar + r1);
    text::texts_part_at_every_separator(none, '|', r1);
    text::texts_part_at_every_separator(a, '|', r2);
    text::texts_part_at_every_separator(b, '|', r3);
    text::texts_part_at_every_separator(c, '|', r4);
    text::texts_part_at_every_separator(d, '|', end);
    text::texts_part_at_every_separator(end, '|', none);
    assert(text::parts(row(s), '|') =~= seq![none, a, b, c, d, end]);
}

proof fn lemma_no_bar(s: Seq<char>)
    requires
        forall|i: int| 0 <= i < s.len() ==> #[trigger] s[i] != '|',
    ensures
        forall|i: int|
            0 <= i < (seq![' '] + s + seq![' ']).len() ==> #[trigger] (seq![' '] + s + seq![' '])[i]
                != '|',
{
    let t = seq![' '] + s + seq![' '];
    assert forall|i: int| 0 <= i < t.len() implies #[trigger] t[i] != '|' by {
        if 0 < i <= s.len() {
            assert(s[i - 1] != '|');
        }
    }
}

/// What a cell shows: a value between backquotes, behind what opens it, or a dash where there is
/// none; several defaults with spaces between them; and the longer help where there are two, with
/// line breaks made spaces and bars escaped.
pub proof fn cells_show_what_is_set(
    value: Seq<char>,
    open: Seq<char>,
    a: Seq<char>,
    b: Seq<char>,
    s: Setting,
)
    requires
        forall|i: int| 0 <= i < a.len() ==> #[trigger] a[i] != '|' && a[i] != '\n',
        forall|i: int| 0 <= i < b.len() ==> #[trigger] b[i] != '|' && b[i] != '\n',
    ensures
        cell(Some(value), open) == open + value + seq!['`'],
        cell(None, open) == seq!['-'],
        value.len() > 0 ==> default_cell(seq![value]) == seq!['`'] + value + seq!['`'],
        default_cell(Seq::empty()) == seq!['-'],
        s.long_help matches Some(h) && h@ == a + seq!['\n'] + b ==> help_cell(s) == a + seq![' '] + b,
        s.long_help matches Some(h) && h@ == a + seq!['|'] + b ==> help_cell(s) == a + seq![
            '\\',
            '|',
        ] + b,
        s.long_help is None && (s.help matches Some(h) && h@ == a) ==> help_cell(s) == a,
        s.long_help is None && s.help is None ==> help_cell(s) == Seq::<char>::empty(),
{
    reveal_strlit("`");
    reveal_strlit("-");
    reveal_strlit(" ");
    reveal_strlit("\\|");
    assert("`"@ =~= seq!['`']);
    assert("-"@ =~= seq!['-']);
    assert(" "@ =~= seq![' ']);
    assert("\\|"@ =~= seq!['\\', '|']);
    assert(text::joined(seq![value], " "@) == value);
    lemma_replaced_between(a, b, '\n', " "@);
    lemma_replaced_between(a, b, '|', "\\|"@);
    let broken = a + seq!['\n'] + b;
    let barred = a + seq!['|'] + b;
    let spaced = a + seq![' '] + b;
    lemma_replaced_none(spaced, '|', "\\|"@);
    lemma_replaced_none(barred, '\n', " "@);
    lemma_replaced_none(a, '\n', " "@);
    lemma_replaced_none(a, '|', "\\|"@);
    let none = Seq::<char>::empty();
    lemma_replaced_none(none, '\n', " "@);
    lemma_replaced_none(none, '|', "\\|"@);
}

proof fn lemma_replaced_none(s: Seq<char>, c: char, by: Seq<char>)
    requires
        forall|i: int| 0 <= i < s.len() ==> #[trigger] s[i] != c,
    ensures
        text::replaced(s, c, by) == s,
{
    text::replacing_touches_one_character_alone(s, Seq::empty(), c, by);
}

proof fn lemma_replaced_between(a: Seq<char>, b: Seq<char>, c: char, by: Seq<char>)
    requires
        forall|i: int| 0 <= i < a.len() ==> #[trigger] a[i] != c,
        forall|i: int| 0 <= i < b.len() ==> #[trigger] b[i] != c,
    ensures
        text::replaced(a + seq![c] + b, c, by) == a + by + b,
{
    text::replacing_touches_one_character_alone(a + seq![c], b, c, by);
    text::replacing_touches_one_character_alone(a, seq![c], c, by);
    lemma_replaced_none(a, c, by);
    lemma_replaced_none(b, c, by);
}

} // verus!
