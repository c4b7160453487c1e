//! What is read out of the files that start programs: a text in place of another, the command of
//! a task, the path inside a shortcut, and what the registry holds.
use crate::autostart::{
    decoded, drive_at, embedded_executable, first_zero, last_drive, registry_text, target_of,
    task_command, units_from, utf16_text, utf8_text, wide_text,
};
use crate::autostart_guarantees::{
    exe_before, lemma_exe, separates, trimming_leaves_nothing_of_a_blank_text,
    trimming_takes_white_space_off_both_ends,
};
use crate::text::{ascii_lowered, first_at, lemma_first_at, replaced, stands_at, white, Text};
use vstd::prelude::*;

verus! {

// --- Finding -------------------------------------------------------------------------------------

/// Whether the characters of one text are those of another from a position on.
pub open spec fn reads_at(s: Text, wanted: Text, i: int) -> bool {
    &&& 0 <= i && i + wanted.len() <= s.len()
    &&& forall|k: int| 0 <= k < wanted.len() ==> s[i + k] == #[trigger] wanted[k]
}

proof fn lemma_reads(s: Text, wanted: Text, i: int)
    ensures
        stands_at(s, wanted, i) <==> reads_at(s, wanted, i),
{
    if 0 <= i && i + wanted.len() <= s.len() {
        let here = s.subrange(i, i + wanted.len());
        if reads_at(s, wanted, i) {
            assert(here =~= wanted);
        }
        if here == wanted {
            assert forall|k: int| 0 <= k < wanted.len() implies s[i + k] == #[trigger] wanted[k] by {
                assert(here[k] == s[i + k]);
            }
        }
    }
}

/// A text is found where it stands first.
pub proof fn a_text_is_found_where_it_stands_first(s: Text, wanted: Text, from: int, at: int)
    requires
        0 <= from <= at,
        reads_at(s, wanted, at),
        forall|k: int| from <= k < at ==> !#[trigger] reads_at(s, wanted, k),
    ensures
        first_at(s, wanted, from) == Some(at),
{
    lemma_first_at(s, wanted, from);
    lemma_reads(s, wanted, at);
    if let Some(i) = first_at(s, wanted, from) {
        lemma_reads(s, wanted, i);
        if i < at {
            assert(!reads_at(s, wanted, i));
        }
    }
}

/// A text that stands nowhere is not found.
pub proof fn a_text_that_stands_nowhere_is_not_found(s: Text, wanted: Text, from: int)
    requires
        0 <= from,
        forall|k: int| from <= k ==> !#[trigger] reads_at(s, wanted, k),
    ensures
        first_at(s, wanted, from) is None,
{
    lemma_first_at(s, wanted, from);
    if let Some(i) = first_at(s, wanted, from) {
        lemma_reads(s, wanted, i);
        assert(!reads_at(s, wanted, i));
    }
}

// --- Replacing -----------------------------------------------------------------------------------

/// Replacing goes from left to right: what stands at the front is replaced and left behind, and
/// any other character is kept.
pub proof fn replacing_goes_from_left_to_right(s: Text, from: Text, to: Text)
    requires
        from.len() > 0,
    ensures
        s.len() == 0 ==> replaced(s, from, to) == s,
        reads_at(s, from, 0) ==> replaced(s, from, to) == to + replaced(
            s.skip(from.len() as int),
            from,
            to,
        ),
        s.len() > 0 && !reads_at(s, from, 0) ==> replaced(s, from, to) == seq![s[0]] + replaced(
            s.skip(1),
            from,
            to,
        ),
{
    lemma_first_at(s, from, 0);
    lemma_reads(s, from, 0);
    if s.len() == 0 {
        assert(!stands_at(s, from, 0));
    } else if reads_at(s, from, 0) {
        assert(first_at(s, from, 0) == Some(0int));
        assert(s.take(0) + to =~= to);
    } else {
        let rest = s.skip(1);
        lemma_first_at(rest, from, 0);
        assert forall|k: int| 0 <= k implies #[trigger] stands_at(rest, from, k) == stands_at(
            s,
            from,
            k + 1,
        ) by {
            lemma_reads(rest, from, k);
            lemma_reads(s, from, k + 1);
            if reads_at(rest, from, k) {
                assert forall|j: int| 0 <= j < from.len() implies s[k + 1 + j] == #[trigger] from[j] by {
                    assert(rest[k + j] == from[j]);
                }
            }
            if reads_at(s, from, k + 1) {
                assert forall|j: int| 0 <= j < from.len() implies rest[k + j] == #[trigger] from[j] by {
                    assert(s[k + 1 + j] == from[j]);
                }
            }
        }
        match first_at(s, from, 0) {
            Some(i) => {
                assert(i >= 1);
                assert(stands_at(rest, from, i - 1));
                match first_at(rest, from, 0) {
                    Some(j) => {
                        assert(stands_at(s, from, j + 1));
                        assert(j == i - 1);
                        assert(rest.skip(j + from.len()) =~= s.skip(i + from.len()));
                        assert(s.take(i) =~= seq![s[0]] + rest.take(j));
                        let end = replaced(s.skip(i + from.len()), from, to);
                        assert(s.take(i) + to + end =~= seq![s[0]] + (rest.take(j) + to + end));
                    },
                    None => {},
                }
            },
            None => {
                if let Some(j) = first_at(rest, from, 0) {
                    assert(stands_at(s, from, j + 1));
                }
                assert(s =~= seq![s[0]] + rest);
            },
        }
    }
}

/// A text as a task definition writes it.
pub open spec fn escaped(s: Text) -> Text
    decreases s.len(),
{
    if s.len() == 0 {
        s
    } else {
        (if s[0] == '&' {
            "&amp;"@
        } else if s[0] == '"' {
            "&quot;"@
        } else {
            seq![s[0]]
        }) + escaped(s.skip(1))
    }
}

spec fn half_escaped(s: Text) -> Text
    decreases s.len(),
{
    if s.len() == 0 {
        s
    } else {
        (if s[0] == '&' {
            "&amp;"@
        } else {
            seq![s[0]]
        }) + half_escaped(s.skip(1))
    }
}

proof fn lemma_letter(s: Text, from: Text, to: Text)
    requires
        s.len() > 0,
        from.len() > 0,
        s[0] != from[0],
    ensures
        replaced(s, from, to) == seq![s[0]] + replaced(s.skip(1), from, to),
{
    assert(!reads_at(s, from, 0)) by {
        if reads_at(s, from, 0) {
            assert(from[0] == s[0]);
        }
    }
    replacing_goes_from_left_to_right(s, from, to);
}

proof fn lemma_ampersand(rest: Text)
    ensures
        replaced("&amp;"@ + rest, "&quot;"@, "\""@) == "&amp;"@ + replaced(rest, "&quot;"@, "\""@),
{
    reveal_strlit("&amp;");
    reveal_strlit("&quot;");
    let q = "&quot;"@;
    let to = "\""@;
    let s0 = "&amp;"@ + rest;
    assert(s0[0] == '&' && s0[1] == 'a' && s0[2] == 'm' && s0[3] == 'p' && s0[4] == ';');
    assert(!reads_at(s0, q, 0)) by {
        if reads_at(s0, q, 0) {
            assert(q[1] == s0[1]);
        }
    }
    replacing_goes_from_left_to_right(s0, q, to);
    let s1 = s0.skip(1);
    lemma_letter(s1, q, to);
    let s2 = s1.skip(1);
    lemma_letter(s2, q, to);
    let s3 = s2.skip(1);
    lemma_letter(s3, q, to);
    let s4 = s3.skip(1);
    lemma_letter(s4, q, to);
    assert(s4.skip(1) =~= rest);
    let end = replaced(rest, q, to);
    assert(seq!['&'] + (seq!['a'] + (seq!['m'] + (seq!['p'] + (seq![';'] + end)))) =~= "&amp;"@
        + end);
}

proof fn lemma_front_kept(a: Text, rest: Text, from: Text)
    requires
        reads_at(a, from, 0),
    ensures
        reads_at(a + rest, from, 0),
{
    assert forall|k: int| 0 <= k < from.len() implies (a + rest)[0 + k] == #[trigger] from[k] by {
        assert(a[0 + k] == from[k]);
    }
}

proof fn lemma_quotes(s: Text)
    ensures
        replaced(escaped(s), "&quot;"@, "\""@) == half_escaped(s),
    decreases s.len(),
{
    reveal_strlit("&amp;");
    reveal_strlit("&quot;");
    reveal_strlit("\"");
    let q = "&quot;"@;
    let to = "\""@;
    if s.len() == 0 {
        replacing_goes_from_left_to_right(s, q, to);
    } else {
        let rest = escaped(s.skip(1));
        lemma_quotes(s.skip(1));
        if s[0] == '&' {
            lemma_ampersand(rest);
        } else if s[0] == '"' {
            lemma_front_kept(q, rest, q);
            replacing_goes_from_left_to_right(q + rest, q, to);
            assert((q + rest).skip(q.len() as int) =~= rest);
            assert(to =~= seq!['"']);
        } else {
            let t = seq![s[0]] + rest;
            lemma_letter(t, q, to);
            assert(t.skip(1) =~= rest);
        }
    }
}

proof fn lemma_ampersands(s: Text)
    ensures
        replaced(half_escaped(s), "&amp;"@, "&"@) == s,
    decreases s.len(),
{
    reveal_strlit("&amp;");
    reveal_strlit("&");
    let a = "&amp;"@;
    let to = "&"@;
    if s.len() == 0 {
        replacing_goes_from_left_to_right(s, a, to);
    } else {
        let rest = half_escaped(s.skip(1));
        lemma_ampersands(s.skip(1));
        assert(s =~= seq![s[0]] + s.skip(1));
        if s[0] == '&' {
            lemma_front_kept(a, rest, a);
            replacing_goes_from_left_to_right(a + rest, a, to);
            assert((a + rest).skip(a.len() as int) =~= rest);
            assert(to =~= seq!['&']);
        } else {
            let t = seq![s[0]] + rest;
            lemma_letter(t, a, to);
            assert(t.skip(1) =~= rest);
        }
    }
}

// --- Tasks ---------------------------------------------------------------------------------------

/// The command that a task definition holds is read as it was before it was written there: what
/// stands between the first opening tag and the closing tag behind it, without the white space
/// round it, and with its quotation marks and ampersands back in place.
pub proof fn a_task_runs_the_command_written_in_it(
    xml: Text,
    command: Text,
    open: int,
    from: int,
    to: int,
    close: int,
)
    requires
        reads_at(xml, "<Command>"@, open),
        forall|k: int| 0 <= k < open ==> !#[trigger] reads_at(xml, "<Command>"@, k),
        reads_at(xml, "</Command>"@, close),
        forall|k: int| open + 9 <= k < close ==> !#[trigger] reads_at(xml, "</Command>"@, k),
        open + 9 <= from < to <= close,
        forall|k: int| open + 9 <= k < from || to <= k < close ==> white(#[trigger] xml[k]),
        !white(xml[from]),
        !white(xml[to - 1]),
        xml.subrange(from, to) == escaped(command),
    ensures
        task_command(xml) == Some(command),
{
    reveal_strlit("<Command>");
    reveal_strlit("</Command>");
    a_text_is_found_where_it_stands_first(xml, "<Command>"@, 0, open);
    a_text_is_found_where_it_stands_first(xml, "</Command>"@, open + 9, close);
    let start = open + 9;
    let body = xml.subrange(start, close);
    assert forall|k: int| 0 <= k < from - start || to - start <= k < body.len() implies white(
        #[trigger] body[k],
    ) by {
        assert(body[k] == xml[start + k]);
    }
    trimming_takes_white_space_off_both_ends(body, from - start, to - start);
    assert(body.subrange(from - start, to - start) =~= xml.subrange(from, to));
    lemma_quotes(command);
    lemma_ampersands(command);
}

/// A task definition without a command, with one that is never closed, or with a blank one, runs
/// nothing.
pub proof fn a_task_without_a_command_runs_nothing(xml: Text, open: int, close: int)
    requires
        (forall|k: int| 0 <= k ==> !#[trigger] reads_at(xml, "<Command>"@, k)) || {
            &&& reads_at(xml, "<Command>"@, open)
            &&& forall|k: int| 0 <= k < open ==> !#[trigger] reads_at(xml, "<Command>"@, k)
            &&& {
                ||| forall|k: int| open + 9 <= k ==> !#[trigger] reads_at(xml, "</Command>"@, k)
                ||| {
                    &&& open + 9 <= close
                    &&& reads_at(xml, "</Command>"@, close)
                    &&& forall|k: int| open + 9 <= k < close ==> white(#[trigger] xml[k])
                }
            }
        },
    ensures
        task_command(xml) is None,
{
    reveal_strlit("<Command>");
    reveal_strlit("</Command>");
    if forall|k: int| 0 <= k ==> !#[trigger] reads_at(xml, "<Command>"@, k) {
        a_text_that_stands_nowhere_is_not_found(xml, "<Command>"@, 0);
    } else {
        a_text_is_found_where_it_stands_first(xml, "<Command>"@, 0, open);
        let start = open + 9;
        if forall|k: int| start <= k ==> !#[trigger] reads_at(xml, "</Command>"@, k) {
            a_text_that_stands_nowhere_is_not_found(xml, "</Command>"@, start);
        } else {
            assert(!white('<'));
            assert forall|k: int| start <= k < close implies !#[trigger] reads_at(
                xml,
                "</Command>"@,
                k,
            ) by {
                if reads_at(xml, "</Command>"@, k) {
                    assert(xml[k + 0] == "</Command>"@[0]);
                    assert(white(xml[k]));
                }
            }
            a_text_is_found_where_it_stands_first(xml, "</Command>"@, start, close);
            let body = xml.subrange(start, close);
            assert forall|k: int| 0 <= k < body.len() implies white(#[trigger] body[k]) by {
                assert(body[k] == xml[start + k]);
            }
            trimming_leaves_nothing_of_a_blank_text(body);
        }
    }
}

// --- Shortcuts -----------------------------------------------------------------------------------

/// Whether a path from a drive's root starts at a position: a letter, a colon and a separator.
pub open spec fn rooted(s: Text, i: int) -> bool {
    &&& 0 <= i && i + 2 < s.len()
    &&& 65 <= s[i] as int <= 90 || 97 <= s[i] as int <= 122
    &&& s[i + 1] == ':'
    &&& separates(s[i + 2])
}

proof fn lemma_last_drive(s: Text, n: int)
    requires
        0 <= n <= s.len(),
    ensures
        match last_drive(s, n) {
            Some(i) => 0 <= i < n && rooted(s, i) && forall|k: int|
                i < k < n ==> !#[trigger] rooted(s, k),
            None => forall|k: int| 0 <= k < n ==> !#[trigger] rooted(s, k),
        },
    decreases n,
{
    if n > 0 {
        assert(drive_at(s, n - 1) <==> rooted(s, n - 1));
        if !drive_at(s, n - 1) {
            lemma_last_drive(s, n - 1);
        }
    }
}

/// The path in a shortcut goes from the last drive before the first `.exe` to the end of that.
pub proof fn the_path_in_a_shortcut_is_found(s: Text, from: int, end: int)
    requires
        0 <= from < end - 4,
        exe_before(s, end),
        forall|e: int| e < end ==> !#[trigger] exe_before(s, e),
        rooted(s, from),
        forall|k: int| from < k < end - 4 ==> !#[trigger] rooted(s, k),
    ensures
        embedded_executable(s) == Some(s.subrange(from, end)),
{
    lemma_exe_found(s, end);
    lemma_last_drive(s, end - 4);
    if let Some(i) = last_drive(s, end - 4) {
        if i > from {
            assert(!rooted(s, i));
        } else if i < from {
            assert(!rooted(s, from));
        }
    } else {
        assert(!rooted(s, from));
    }
}

proof fn lemma_exe_found(s: Text, end: int)
    requires
        exe_before(s, end),
        forall|e: int| e < end ==> !#[trigger] exe_before(s, e),
    ensures
        first_at(ascii_lowered(s), ".exe"@, 0) == Some(end - 4),
{
    reveal_strlit(".exe");
    let low = ascii_lowered(s);
    lemma_exe(s, end);
    lemma_first_at(low, ".exe"@, 0);
    if let Some(i) = first_at(low, ".exe"@, 0) {
        lemma_exe(s, i + 4);
        if i + 4 < end {
            assert(!exe_before(s, i + 4));
        }
    }
}

/// Without an `.exe`, or without a drive before the first, no path is found.
pub proof fn without_an_exe_on_a_drive_there_is_no_path(s: Text, end: int)
    requires
        (forall|e: int| !#[trigger] exe_before(s, e)) || {
            &&& exe_before(s, end)
            &&& forall|e: int| e < end ==> !#[trigger] exe_before(s, e)
            &&& forall|k: int| 0 <= k < end - 4 ==> !#[trigger] rooted(s, k)
        },
    ensures
        embedded_executable(s) is None,
{
    reveal_strlit(".exe");
    if forall|e: int| !#[trigger] exe_before(s, e) {
        let low = ascii_lowered(s);
        lemma_first_at(low, ".exe"@, 0);
        if let Some(i) = first_at(low, ".exe"@, 0) {
            lemma_exe(s, i + 4);
            assert(!exe_before(s, i + 4));
        }
    } else {
        lemma_exe_found(s, end);
        lemma_last_drive(s, end - 4);
        if let Some(i) = last_drive(s, end - 4) {
            assert(!rooted(s, i));
        }
    }
}

// --- Bytes ---------------------------------------------------------------------------------------

/// Whether bytes from a position on spell a text, two to a character, the low byte first.
pub open spec fn spells(bytes: Seq<u8>, at: int, s: Text) -> bool {
    &&& at + 2 * s.len() <= bytes.len()
    &&& forall|k: int|
        0 <= k < s.len() ==> (#[trigger] s[k]) as int == bytes[at + 2 * k] + 256 * bytes[at + 2 * k
            + 1]
}

proof fn lemma_no_surrogate(c: char)
    ensures
        0 <= c as int,
        (c as int) < 0xD800 || 0xDFFF < c as int,
{
}

proof fn lemma_units(units: Seq<u16>, s: Text)
    requires
        units.len() == s.len(),
        forall|k: int| 0 <= k < s.len() ==> (#[trigger] s[k]) as int == units[k] as int,
    ensures
        utf16_text(units) == s,
    decreases units.len(),
{
    if units.len() > 0 {
        let c = s[0];
        assert(c as int == units[0] as int);
        let more = units.skip(1);
        let rest = s.skip(1);
        assert forall|k: int| 0 <= k < rest.len() implies (#[trigger] rest[k]) as int
            == more[k] as int by {
            assert(rest[k] == s[k + 1]);
        }
        lemma_units(more, rest);
        lemma_no_surrogate(c);
        assert(units[0] as char == c);
        assert(s =~= seq![c] + rest);
    } else {
        assert(s =~= Seq::empty());
    }
}

proof fn lemma_first_zero(units: Seq<u16>, i: int, at: int)
    requires
        0 <= i <= at <= units.len(),
        forall|k: int| i <= k < at ==> #[trigger] units[k] != 0,
        at == units.len() || units[at] == 0,
    ensures
        first_zero(units, i) == at,
    decreases at - i,
{
    if i < at {
        lemma_first_zero(units, i + 1, at);
    }
}

/// A string value of the registry is read back as it was written, up to the zero that ends it or,
/// where there is none, to the end of the data.
pub proof fn a_registry_text_is_read_as_written(data: Seq<u8>, s: Text)
    requires
        spells(data, 0, s),
        forall|k: int| 0 <= k < s.len() ==> (#[trigger] s[k]) as int != 0,
        data.len() <= 2 * s.len() + 1 || (data[2 * s.len() as int] == 0 && data[2 * s.len() as int
            + 1] == 0),
    ensures
        registry_text(data) == s,
{
    let n = (data.len() / 2) as nat;
    let units = units_from(data, 0, n);
    let m = s.len() as int;
    assert forall|k: int| 0 <= k < m implies #[trigger] units[k] != 0 && units[k] as int
        == s[k] as int by {
        assert(s[k] as int == data[0 + 2 * k] + 256 * data[0 + 2 * k + 1]);
    }
    lemma_first_zero(units, 0, m);
    let kept = units.take(m);
    assert forall|k: int| 0 <= k < s.len() implies (#[trigger] s[k]) as int == kept[k] as int by {
        assert(kept[k] == units[k]);
    }
    lemma_units(kept, s);
}

/// A task definition that starts with the mark of UTF-16 is read as it was written.
pub proof fn a_marked_text_is_read_as_written(bytes: Seq<u8>, s: Text)
    requires
        bytes.len() >= 2,
        bytes[0] == 0xFF,
        bytes[1] == 0xFE,
        spells(bytes, 2, s),
        bytes.len() <= 2 * s.len() + 3,
    ensures
        decoded(bytes) == s,
{
    let n = ((bytes.len() - 2) / 2) as nat;
    let units = units_from(bytes, 2, n);
    assert(n == s.len());
    assert forall|k: int| 0 <= k < s.len() implies (#[trigger] s[k]) as int == units[k] as int by {
        assert(s[k] as int == bytes[2 + 2 * k] + 256 * bytes[2 + 2 * k + 1]);
    }
    lemma_units(units, s);
}

/// A task definition without that mark is read as UTF-8.
pub proof fn an_unmarked_text_is_read_as_utf8(bytes: Seq<u8>)
    requires
        bytes.len() < 2 || bytes[0] != 0xFF || bytes[1] != 0xFE,
    ensures
        decoded(bytes) == utf8_text(bytes),
{
}

proof fn lemma_wide(units: Seq<u16>, s: Text, n: nat)
    requires
        n <= units.len(),
        units.len() == s.len(),
        forall|k: int| 0 <= k < s.len() ==> (#[trigger] s[k]) as int == units[k] as int,
        forall|k: int| 0 <= k < s.len() ==> (#[trigger] s[k]) as int != 0,
    ensures
        wide_text(units, n) == s.take(n as int),
    decreases n,
{
    if n > 0 {
        lemma_wide(units, s, (n - 1) as nat);
        let c = s[n - 1];
        assert(c as int == units[n - 1] as int);
        lemma_no_surrogate(c);
        assert(units[n - 1] as char == c);
        assert(s.take(n as int) =~= s.take(n - 1).push(c));
    } else {
        assert(s.take(0) =~= Seq::empty());
    }
}

/// A wide text is read as it was written.
pub proof fn a_wide_text_is_read_as_written(bytes: Seq<u8>, s: Text)
    requires
        spells(bytes, 0, s),
        forall|k: int| 0 <= k < s.len() ==> (#[trigger] s[k]) as int != 0,
        bytes.len() <= 2 * s.len() + 1,
    ensures
        wide_text(units_from(bytes, 0, (bytes.len() / 2) as nat), (bytes.len() / 2) as nat) == s,
{
    let n = (bytes.len() / 2) as nat;
    let units = units_from(bytes, 0, n);
    assert(n == s.len());
    assert forall|k: int| 0 <= k < s.len() implies (#[trigger] s[k]) as int == units[k] as int by {
        assert(s[k] as int == bytes[0 + 2 * k] + 256 * bytes[0 + 2 * k + 1]);
    }
    lemma_wide(units, s, n);
    assert(s.take(n as int) =~= s);
}

/// Whether one text stands in another as a path to an executable: from the last drive before the
/// first `.exe` to the end of that.
pub open spec fn holds_path(s: Text, path: Text) -> bool {
    exists|from: int, end: int|
        0 <= from < end - 4 && #[trigger] rooted(s, from) && #[trigger] exe_before(s, end) && path
            == s.subrange(from, end) && (forall|e: int| e < end ==> !#[trigger] exe_before(s, e)) && (
        forall|k: int| from < k < end - 4 ==> !#[trigger] rooted(s, k))
}

/// A shortcut points at the path in it, wherever that is written, and only where there is none
/// does it go by its own name.
pub proof fn a_shortcut_points_at_the_path_in_it(
    narrow: Text,
    wide: Text,
    stem: Option<Text>,
    path: Text,
)
    ensures
        holds_path(narrow, path) ==> target_of(narrow, wide, stem) == Some(path),
        embedded_executable(narrow) is None && holds_path(wide, path) ==> target_of(
            narrow,
            wide,
            stem,
        ) == Some(path),
        embedded_executable(narrow) is None && embedded_executable(wide) is None ==> target_of(
            narrow,
            wide,
            stem,
        ) == stem,
{
    if holds_path(narrow, path) {
        lemma_holds_path(narrow, path);
    }
    if holds_path(wide, path) {
        lemma_holds_path(wide, path);
    }
}

proof fn lemma_holds_path(s: Text, path: Text)
    requires
        holds_path(s, path),
    ensures
        embedded_executable(s) == Some(path),
{
    let (from, end) = choose|from: int, end: int|
        0 <= from < end - 4 && #[trigger] rooted(s, from) && #[trigger] exe_before(s, end) && path
            == s.subrange(from, end) && (forall|e: int| e < end ==> !#[trigger] exe_before(s, e)) && (
        forall|k: int| from < k < end - 4 ==> !#[trigger] rooted(s, k));
    the_path_in_a_shortcut_is_found(s, from, end);
}

} // verus!
