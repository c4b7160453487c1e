//! What a survey of autostart entries promises: nothing known is missed, wherever it starts from,
//! and nothing else is reported.
use crate::autostart::{
    account_keys, disabling, executable, exe_ends_at, first_exe_end, first_run, first_where, hint,
    last_part, part_start, personal, recognised, rivals, runs, EntryView, LocationView, StepView,
    Surveyed, RUN_SUBKEY,
};
use crate::known::{registry, AppView};
use crate::text::{
    ascii_lower, ascii_lowered, occurs, stands_at, trimmed, trimmed_back, trimmed_front, white, Text,
};
use vstd::prelude::*;

verus! {

// --- Letters and paths ---------------------------------------------------------------------------

/// Whether two characters are the same but for the case of an ASCII letter.
pub open spec fn alike(a: char, b: char) -> bool {
    ||| a == b
    ||| 'A' <= a <= 'Z' && b as int == a as int + 32
    ||| 'A' <= b <= 'Z' && a as int == b as int + 32
}

/// Characters are lowered alike where they are the same but for their case.
pub proof fn lemma_alike(a: char, b: char)
    ensures
        ascii_lower(a) == ascii_lower(b) <==> alike(a, b),
{
    if 'A' <= a <= 'Z' {
        assert(ascii_lower(a) as int == a as int + 32);
    }
    if 'A' <= b <= 'Z' {
        assert(ascii_lower(b) as int == b as int + 32);
    }
}

/// Whether a character separates the parts of a path.
pub open spec fn separates(c: char) -> bool {
    c == '\\' || c == '/'
}

/// Whether `.exe`, however it is spelled, stands before a position.
pub open spec fn exe_before(s: Text, e: int) -> bool {
    &&& 4 <= e <= s.len()
    &&& alike(s[e - 4], '.')
    &&& alike(s[e - 3], 'e')
    &&& alike(s[e - 2], 'x')
    &&& alike(s[e - 1], 'e')
}

/// Whether a path leads to a program of a given name: behind its last separator stand the name
/// and `.exe`, in whatever case.
pub open spec fn leads_to(path: Text, name: Text) -> bool {
    let start = path.len() - name.len() - 4;
    &&& start >= 0
    &&& start == 0 || separates(path[start - 1])
    &&& forall|k: int| start <= k < path.len() ==> !separates(#[trigger] path[k])
    &&& forall|k: int|
        0 <= k < name.len() ==> alike(#[trigger] path[start + k], #[trigger] name[k])
    &&& exe_before(path, path.len() as int)
}

proof fn lemma_part_start(path: Text, n: int)
    requires
        0 <= n <= path.len(),
    ensures
        ({
            let p = part_start(path, n);
            &&& 0 <= p <= n
            &&& p == 0 || separates(path[p - 1])
            &&& forall|k: int| p <= k < n ==> !separates(#[trigger] path[k])
        }),
    decreases n,
{
    if n > 0 && !separates(path[n - 1]) {
        lemma_part_start(path, n - 1);
    }
}

/// Where `.exe` stands, however it is spelled.
pub proof fn lemma_exe(s: Text, e: int)
    requires
        4 <= e <= s.len(),
    ensures
        stands_at(ascii_lowered(s), ".exe"@, e - 4) <==> exe_before(s, e),
{
    reveal_strlit(".exe");
    let low = ascii_lowered(s);
    let here = low.subrange(e - 4, e);
    lemma_alike(s[e - 4], '.');
    lemma_alike(s[e - 3], 'e');
    lemma_alike(s[e - 2], 'x');
    lemma_alike(s[e - 1], 'e');
    assert(here[0] == ascii_lower(s[e - 4]));
    assert(here[1] == ascii_lower(s[e - 3]));
    assert(here[2] == ascii_lower(s[e - 2]));
    assert(here[3] == ascii_lower(s[e - 1]));
    if exe_before(s, e) {
        assert(here =~= ".exe"@);
    }
}

proof fn lemma_leads(path: Text, name: Text)
    requires
        forall|k: int| 0 <= k < name.len() ==> !separates(#[trigger] name[k]),
    ensures
        ascii_lowered(last_part(path)) == ascii_lowered(name) + ".exe"@ <==> leads_to(path, name),
{
    reveal_strlit(".exe");
    let n = path.len() as int;
    let p = part_start(path, n);
    lemma_part_start(path, n);
    let part = last_part(path);
    let low = ascii_lowered(part);
    let wanted = ascii_lowered(name) + ".exe"@;
    let start = n - name.len() - 4;
    assert(low.len() == n - p);
    if low == wanted {
        assert(p == start);
        assert forall|k: int| 0 <= k < name.len() implies alike(
            #[trigger] path[start + k],
            #[trigger] name[k],
        ) by {
            assert(low[k] == ascii_lower(path[p + k]));
            assert(wanted[k] == ascii_lower(name[k]));
            lemma_alike(path[p + k], name[k]);
        }
        assert(ascii_lowered(path).subrange(n - 4, n) =~= ".exe"@) by {
            assert forall|j: int| 0 <= j < 4 implies #[trigger] ascii_lowered(path).subrange(
                n - 4,
                n,
            )[j] == ".exe"@[j] by {
                assert(low[name.len() + j] == wanted[name.len() + j]);
                assert(low[name.len() + j] == ascii_lower(path[p + name.len() + j]));
            }
        }
        lemma_exe(path, n);
    }
    if leads_to(path, name) {
        assert(p == start) by {
            if p > start {
                assert(separates(path[p - 1]));
            } else if p < start {
                assert(!separates(path[start - 1]));
            }
        }
        lemma_exe(path, n);
        assert forall|k: int| 0 <= k < low.len() implies low[k] == wanted[k] by {
            assert(low[k] == ascii_lower(path[p + k]));
            if k < name.len() {
                assert(alike(path[start + k], name[k]));
                lemma_alike(path[p + k], name[k]);
            } else {
                let j = k - name.len();
                assert(ascii_lowered(path).subrange(n - 4, n)[j] == ".exe"@[j]);
            }
        }
        assert(low =~= wanted);
    }
}

// --- Command lines -------------------------------------------------------------------------------

proof fn lemma_front(s: Text)
    ensures
        exists|j: int| #[trigger] fronted(s, j) && trimmed_front(s) == s.skip(j),
    decreases s.len(),
{
    if s.len() > 0 && white(s[0]) {
        let rest = s.drop_first();
        lemma_front(rest);
        let j = choose|j: int| #[trigger] fronted(rest, j) && trimmed_front(rest) == rest.skip(j);
        assert(rest.skip(j) =~= s.skip(j + 1));
        assert(fronted(s, j + 1)) by {
            assert forall|k: int| 0 <= k < j + 1 implies white(#[trigger] s[k]) by {
                if k > 0 {
                    assert(rest[k - 1] == s[k]);
                }
            }
            if j < rest.len() {
                assert(rest[j] == s[j + 1]);
            }
        }
    } else {
        assert(s.skip(0) =~= s);
        assert(fronted(s, 0));
    }
}

/// Whether the white space at the start of a text ends at a position.
spec fn fronted(s: Text, j: int) -> bool {
    &&& 0 <= j <= s.len()
    &&& forall|k: int| 0 <= k < j ==> white(#[trigger] s[k])
    &&& j < s.len() ==> !white(s[j])
}

/// Whether the white space at the end of a text starts at a position.
spec fn backed(s: Text, m: int) -> bool {
    &&& 0 <= m <= s.len()
    &&& forall|k: int| m <= k < s.len() ==> white(#[trigger] s[k])
    &&& m > 0 ==> !white(s[m - 1])
}

proof fn lemma_back(s: Text)
    ensures
        exists|m: int| #[trigger] backed(s, m) && trimmed_back(s) == s.take(m),
    decreases s.len(),
{
    if s.len() > 0 && white(s.last()) {
        let rest = s.drop_last();
        lemma_back(rest);
        let m = choose|m: int| #[trigger] backed(rest, m) && trimmed_back(rest) == rest.take(m);
        assert(rest.take(m) =~= s.take(m));
        assert(backed(s, m)) by {
            assert forall|k: int| m <= k < s.len() implies white(#[trigger] s[k]) by {
                if k < rest.len() {
                    assert(rest[k] == s[k]);
                }
            }
        }
    } else {
        assert(s.take(s.len() as int) =~= s);
        assert(backed(s, s.len() as int));
    }
}

/// A text that is not blank is trimmed to what stands from its first character that is no white
/// space to its last.
pub proof fn trimming_takes_white_space_off_both_ends(s: Text, from: int, to: int)
    requires
        0 <= from < to <= s.len(),
        forall|k: int| 0 <= k < from ==> white(#[trigger] s[k]),
        forall|k: int| to <= k < s.len() ==> white(#[trigger] s[k]),
        !white(s[from]),
        !white(s[to - 1]),
    ensures
        trimmed(s) == s.subrange(from, to),
{
    lemma_front(s);
    let j = choose|j: int| #[trigger] fronted(s, j) && trimmed_front(s) == s.skip(j);
    assert(j == from);
    let t = s.skip(j);
    lemma_back(t);
    let m = choose|m: int| #[trigger] backed(t, m) && trimmed_back(t) == t.take(m);
    assert(m == to - from) by {
        if m > to - from {
            assert(t[m - 1] == s[from + m - 1]);
        } else if m < to - from {
            assert(t[to - from - 1] == s[to - 1]);
            assert(white(t[to - from - 1]));
        }
    }
    assert(t.take(m) =~= s.subrange(from, to));
}

/// A blank text is trimmed to nothing.
pub proof fn trimming_leaves_nothing_of_a_blank_text(s: Text)
    requires
        forall|k: int| 0 <= k < s.len() ==> white(#[trigger] s[k]),
    ensures
        trimmed(s).len() == 0,
{
    lemma_front(s);
    let j = choose|j: int| #[trigger] fronted(s, j) && trimmed_front(s) == s.skip(j);
    assert(j == s.len());
    lemma_back(s.skip(j));
}

proof fn lemma_trim_end(s: Text, from: int) -> (to: int)
    requires
        0 <= from < s.len(),
        forall|k: int| 0 <= k < from ==> white(#[trigger] s[k]),
        !white(s[from]),
    ensures
        from < to <= s.len(),
        forall|k: int| to <= k < s.len() ==> white(#[trigger] s[k]),
        !white(s[to - 1]),
        trimmed(s) == s.subrange(from, to),
{
    let t = s.skip(from);
    lemma_back(t);
    let m = choose|m: int| #[trigger] backed(t, m) && trimmed_back(t) == t.take(m);
    let to = from + m;
    assert(m > 0) by {
        if m == 0 {
            assert(white(t[0]));
        }
    }
    assert(t[m - 1] == s[to - 1]);
    assert forall|k: int| to <= k < s.len() implies white(#[trigger] s[k]) by {
        assert(t[k - from] == s[k]);
    }
    trimming_takes_white_space_off_both_ends(s, from, to);
    to
}

proof fn lemma_first_where(s: Text, wanted: spec_fn(char) -> bool, i: int, at: int)
    requires
        0 <= i <= at <= s.len(),
        forall|k: int| i <= k < at ==> !wanted(#[trigger] s[k]),
        at < s.len() ==> wanted(s[at]),
    ensures
        first_where(s, wanted, i) == at,
    decreases at - i,
{
    if i < at {
        assert(!wanted(s[i]));
        lemma_first_where(s, wanted, i + 1, at);
    }
}

/// A quoted executable is what stands between the quotes, white space and all.
pub proof fn quotes_hold_the_executable(command: Text, open: int, close: int)
    requires
        0 <= open < close < command.len(),
        forall|k: int| 0 <= k < open ==> white(#[trigger] command[k]),
        command[open] == '"',
        command[close] == '"',
        forall|k: int| open < k < close ==> #[trigger] command[k] != '"',
    ensures
        executable(command) == Some(command.subrange(open + 1, close)),
{
    let to = lemma_trim_end(command, open);
    assert(to > close);
    let t = trimmed(command);
    let quote = |c: char| c == '"';
    assert forall|k: int| 1 <= k < close - open implies !quote(#[trigger] t[k]) by {
        assert(t[k] == command[open + k]);
    }
    assert(t[close - open] == command[close]);
    lemma_first_where(t, quote, 1, close - open);
    assert(t.subrange(1, close - open) =~= command.subrange(open + 1, close));
}

/// Whether an executable can end at a position: `.exe` stands before it, and white space or
/// nothing behind it.
pub open spec fn may_end(command: Text, e: int) -> bool {
    exe_before(command, e) && (e == command.len() || white(command[e]))
}

proof fn lemma_may_end(command: Text, from: int, to: int, e: int)
    requires
        0 <= from < to <= command.len(),
        to == command.len() || white(command[to]),
        from + 4 <= e <= to,
    ensures
        exe_ends_at(command.subrange(from, to), e - from) <==> may_end(command, e),
{
    let t = command.subrange(from, to);
    lemma_exe(t, e - from);
    lemma_exe(command, e);
}

proof fn lemma_first_end(s: Text, i: int, e: int)
    requires
        i <= e <= s.len(),
        exe_ends_at(s, e),
        forall|k: int| i <= k < e ==> !#[trigger] exe_ends_at(s, k),
    ensures
        first_exe_end(s, i) == Some(e),
    decreases e - i,
{
    if i < e {
        lemma_first_end(s, i + 1, e);
    }
}

proof fn lemma_no_end(s: Text, i: int)
    requires
        forall|k: int| i <= k <= s.len() ==> !#[trigger] exe_ends_at(s, k),
    ensures
        first_exe_end(s, i) is None,
    decreases s.len() + 1 - i,
{
    if i <= s.len() {
        lemma_no_end(s, i + 1);
    }
}

/// An executable without quotes ends at the first `.exe` that white space or nothing follows, so
/// that a path may have white space in it.
pub proof fn an_executable_goes_up_to_its_exe(command: Text, from: int, end: int)
    requires
        0 <= from,
        from + 4 <= end <= command.len(),
        forall|k: int| 0 <= k < from ==> white(#[trigger] command[k]),
        !white(command[from]),
        command[from] != '"',
        may_end(command, end),
        forall|e: int| from + 4 <= e < end ==> !#[trigger] may_end(command, e),
    ensures
        executable(command) == Some(command.subrange(from, end)),
{
    let to = lemma_trim_end(command, from);
    assert(to >= end) by {
        lemma_alike(command[end - 1], 'e');
        assert(!white(command[end - 1]));
    }
    let t = trimmed(command);
    lemma_may_end(command, from, to, end);
    assert forall|k: int| 4 <= k < end - from implies !#[trigger] exe_ends_at(t, k) by {
        lemma_may_end(command, from, to, from + k);
        assert(!may_end(command, from + k));
    }
    lemma_first_end(t, 4, end - from);
    assert(t[0] == command[from]);
    assert(t.take(end - from) =~= command.subrange(from, end));
}

/// Without quotes and without an `.exe`, the executable is the first word.
pub proof fn without_an_exe_the_first_word_is_run(command: Text, from: int, end: int)
    requires
        0 <= from < end <= command.len(),
        forall|k: int| 0 <= k < from ==> white(#[trigger] command[k]),
        forall|k: int| from <= k < end ==> !white(#[trigger] command[k]),
        end == command.len() || white(command[end]),
        command[from] != '"',
        forall|e: int| from + 4 <= e <= command.len() ==> !#[trigger] may_end(command, e),
    ensures
        executable(command) == Some(command.subrange(from, end)),
{
    let to = lemma_trim_end(command, from);
    assert(to >= end) by {
        if to < end {
            assert(white(command[to]));
        }
    }
    let t = trimmed(command);
    assert forall|k: int| 4 <= k <= t.len() implies !#[trigger] exe_ends_at(t, k) by {
        lemma_may_end(command, from, to, from + k);
        assert(!may_end(command, from + k));
    }
    lemma_no_end(t, 4);
    let space = |c: char| white(c);
    assert forall|k: int| 0 <= k < end - from implies !space(#[trigger] t[k]) by {
        assert(t[k] == command[from + k]);
    }
    if end - from < t.len() {
        assert(t[end - from] == command[end]);
    }
    lemma_first_where(t, space, 0, end - from);
    assert(t[0] == command[from]);
    assert(t.take(end - from) =~= command.subrange(from, end));
}

/// A blank command line runs nothing.
pub proof fn a_blank_command_runs_nothing(command: Text)
    requires
        forall|k: int| 0 <= k < command.len() ==> white(#[trigger] command[k]),
    ensures
        executable(command) is None,
{
    trimming_leaves_nothing_of_a_blank_text(command);
    let t = trimmed(command);
    assert(t =~= Seq::empty());
    lemma_no_end(t, 4);
}

// --- Recognising ---------------------------------------------------------------------------------

/// Whether a command line runs an application: its executable is a program with one of the
/// application's names.
pub open spec fn starts(command: Text, app: AppView) -> bool {
    exists|j: int|
        0 <= j < app.process_names.len() && executable(command) is Some && leads_to(
            executable(command)->0,
            #[trigger] app.process_names[j],
        )
}

/// Whether no name of an application has a separator in it.
pub open spec fn plainly_named(app: AppView) -> bool {
    forall|j: int, k: int|
        0 <= j < app.process_names.len() && 0 <= k < app.process_names[j].len() ==> !separates(
            #[trigger] app.process_names[j][k],
        )
}

proof fn lemma_starts(command: Text, app: AppView)
    requires
        plainly_named(app),
    ensures
        runs(command, app) <==> starts(command, app),
{
    if executable(command) is Some {
        let exe = executable(command)->0;
        assert forall|j: int| 0 <= j < app.process_names.len() implies (ascii_lowered(
            last_part(exe),
        ) == ascii_lowered(#[trigger] app.process_names[j]) + ".exe"@ <==> leads_to(
            exe,
            app.process_names[j],
        )) by {
            lemma_leads(exe, app.process_names[j]);
        }
        if runs(command, app) {
            let j = choose|j: int|
                0 <= j < app.process_names.len() && ascii_lowered(last_part(exe)) == ascii_lowered(
                    #[trigger] app.process_names[j],
                ) + ".exe"@;
            assert(leads_to(exe, app.process_names[j]));
        }
        if starts(command, app) {
            let j = choose|j: int|
                0 <= j < app.process_names.len() && leads_to(exe, #[trigger] app.process_names[j]);
            assert(ascii_lowered(last_part(exe)) == ascii_lowered(app.process_names[j]) + ".exe"@);
        }
    }
}

proof fn lemma_first_run(apps: Seq<AppView>, command: Text, i: int)
    requires
        0 <= i <= apps.len(),
    ensures
        match first_run(apps, command, i) {
            Some(app) => exists|a: int|
                i <= a < apps.len() && #[trigger] apps[a] == app && runs(command, app) && forall|
                    b: int,
                |
                    i <= b < a ==> !runs(command, #[trigger] apps[b]),
            None => forall|b: int| i <= b < apps.len() ==> !runs(command, #[trigger] apps[b]),
        },
    decreases apps.len() - i,
{
    if i < apps.len() && !runs(command, apps[i]) {
        lemma_first_run(apps, command, i + 1);
        if let Some(app) = first_run(apps, command, i + 1) {
            let a = choose|a: int|
                i + 1 <= a < apps.len() && #[trigger] apps[a] == app && runs(command, app)
                    && forall|b: int| i + 1 <= b < a ==> !runs(command, #[trigger] apps[b]);
            assert(apps[a] == app);
        }
    } else if i < apps.len() {
        assert(apps[i] == apps[i]);
    }
}

proof fn lemma_plain(a: int)
    requires
        0 <= a < registry().len(),
    ensures
        plainly_named(registry()[a]),
{
    reveal_strlit("FanControl");
    reveal_strlit("FanControl.Service");
    reveal_strlit("LibreHardwareMonitor");
    reveal_strlit("OpenHardwareMonitor");
    reveal_strlit("speedfan");
    reveal_strlit("ArgusMonitor");
    reveal_strlit("HWiNFO64");
    reveal_strlit("HWiNFO32");
    reveal_strlit("HWiNFO64A");
    reveal_strlit("aida64");
    reveal_strlit("ArmouryCrate.Service");
    reveal_strlit("ArmourySocketServer");
    reveal_strlit("ArmouryCrate.UserSessionHelper");
    reveal_strlit("AsusCertService");
    reveal_strlit("MSIAfterburner");
    reveal_strlit("iCUE");
    reveal_strlit("NZXT CAM");
}

/// Whether a command line starts a known application, which is the first one that it starts.
pub open spec fn known_as(command: Text, app: AppView) -> bool {
    exists|a: int|
        0 <= a < registry().len() && #[trigger] registry()[a] == app && starts(command, app)
            && forall|b: int| 0 <= b < a ==> !starts(command, #[trigger] registry()[b])
}

/// A command line is recognised wherever its executable has the name of a known application, and
/// only there: as the first of the applications that has the name.
pub proof fn what_starts_a_known_application_is_recognised(command: Text)
    ensures
        recognised(command) is Some <==> exists|a: int|
            0 <= a < registry().len() && starts(command, #[trigger] registry()[a]),
        recognised(command) matches Some(app) ==> known_as(command, app),
{
    let apps = registry();
    assert forall|a: int| 0 <= a < apps.len() implies (runs(command, #[trigger] apps[a])
        <==> starts(command, apps[a])) by {
        lemma_plain(a);
        lemma_starts(command, apps[a]);
    }
    lemma_first_run(apps, command, 0);
    if let Some(app) = recognised(command) {
        let a = choose|a: int|
            0 <= a < apps.len() && #[trigger] apps[a] == app && runs(command, app) && forall|b: int|
                0 <= b < a ==> !runs(command, #[trigger] apps[b]);
        assert(starts(command, apps[a]));
    }
}

// --- Surveys -------------------------------------------------------------------------------------

/// Whether a surveyed entry starts a known application that is there.
pub open spec fn threatens(s: Surveyed) -> bool {
    s.executable_exists && exists|a: int|
        0 <= a < registry().len() && starts(s.command@, #[trigger] registry()[a])
}

/// Whether some reported entries are those at some positions of a survey, one for each.
pub open spec fn reported(all: Seq<Surveyed>, at: Seq<int>, found: Seq<EntryView>) -> bool {
    &&& at.len() == found.len()
    &&& forall|i: int|
        0 <= i < at.len() ==> {
            let s = all[#[trigger] at[i]];
            &&& 0 <= at[i] < all.len()
            &&& threatens(s)
            &&& known_as(s.command@, found[i].app)
            &&& found[i].location == s.location@
            &&& found[i].command == s.command@
        }
    &&& forall|i: int, j: int| 0 <= i < j < at.len() ==> #[trigger] at[i] < #[trigger] at[j]
}

/// Every entry of a survey that starts a known application which is there is reported, wherever
/// it starts from, and nothing else is: the report has one entry for each, in the order of the
/// survey, with that application, that location and that command.
pub proof fn every_rival_is_reported(all: Seq<Surveyed>, n: nat) -> (at: Seq<int>)
    requires
        n <= all.len(),
    ensures
        reported(all, at, rivals(all, n)),
        forall|i: int| 0 <= i < at.len() ==> #[trigger] at[i] < n,
        forall|k: int| 0 <= k < n && threatens(#[trigger] all[k]) ==> at.contains(k),
    decreases n,
{
    if n == 0 {
        Seq::empty()
    } else {
        let m = (n - 1) as nat;
        let before = every_rival_is_reported(all, m);
        what_starts_a_known_application_is_recognised(all[n - 1].command@);
        if threatens(all[n - 1]) {
            let at = before.push(n - 1);
            assert(at[before.len() as int] == n - 1);
            assert forall|k: int| 0 <= k < n && threatens(#[trigger] all[k]) implies at.contains(
                k,
            ) by {
                if k < m {
                    let i = before.index_of(k);
                    assert(at[i] == k);
                }
            }
            at
        } else {
            before
        }
    }
}

/// Every account that has a startup list of its own has it read, once and in the order of the
/// accounts, and no other: hives of file associations and the one used before anyone signs in
/// have none.
pub proof fn every_startup_list_is_read(sids: Seq<Text>, n: nat) -> (at: Seq<int>)
    requires
        n <= sids.len(),
    ensures
        at.len() == account_keys(sids, n).len(),
        forall|i: int|
            0 <= i < at.len() ==> 0 <= #[trigger] at[i] < n && account_keys(sids, n)[i]
                == sids[at[i]] + "\\"@ + RUN_SUBKEY@ && sids[at[i]] != ".DEFAULT"@ && !(
            "_Classes"@.is_suffix_of(sids[at[i]])),
        forall|i: int, j: int| 0 <= i < j < at.len() ==> #[trigger] at[i] < #[trigger] at[j],
        forall|k: int|
            0 <= k < n && #[trigger] sids[k] != ".DEFAULT"@ && !("_Classes"@.is_suffix_of(sids[k]))
                ==> at.contains(k),
    decreases n,
{
    if n == 0 {
        Seq::empty()
    } else {
        let m = (n - 1) as nat;
        let before = every_startup_list_is_read(sids, m);
        let sid = sids[n - 1];
        assert(personal(sid) <==> sid != ".DEFAULT"@ && !("_Classes"@.is_suffix_of(sid))) by {
            let from = sid.len() - "_Classes"@.len();
            if from >= 0 {
                assert(sid.subrange(from, sid.len() as int) =~= sid.skip(from));
            }
        }
        if personal(sid) {
            let at = before.push(n - 1);
            assert(at[before.len() as int] == n - 1);
            assert forall|k: int|
                0 <= k < n && #[trigger] sids[k] != ".DEFAULT"@ && !("_Classes"@.is_suffix_of(
                    sids[k],
                )) implies at.contains(k) by {
                if k < m {
                    let i = before.index_of(k);
                    assert(at[i] == k);
                }
            }
            at
        } else {
            before
        }
    }
}

// --- Switching off -------------------------------------------------------------------------------

/// Switching an entry off concerns what was found and nothing else: a task by its name, a shortcut
/// where it lies, and a value by its name where it stands, of the machine or of a person as it
/// was found.
pub proof fn switching_off_concerns_what_was_found(l: LocationView)
    ensures
        match (l, disabling(l)) {
            (
                LocationView::ScheduledTask { name },
                StepView::DisableTask { name: switched },
            ) => switched == name,
            (
                LocationView::StartupShortcut { path, .. },
                StepView::RenameShortcut { path: renamed, extension },
            ) => renamed == path && extension != "lnk"@,
            (
                LocationView::RunValue { hive, subkey, value },
                StepView::DeleteValue { of_machine, subkey: place, value: name },
            ) => place == subkey && name == value && (of_machine <==> hive == "this machine"@),
            _ => false,
        },
{
    reveal_strlit("lnk");
    reveal_strlit("lnk.openfan-disabled");
    assert("lnk"@.len() == 3 && "lnk.openfan-disabled"@.len() == 20);
}

/// What is removed can be put back by hand: the hint says what ran, under which name, and where.
pub proof fn a_hint_says_what_to_put_back(entry: EntryView)
    requires
        entry.location is RunValue,
    ensures
        hint(entry) matches Some(said) && occurs(said, entry.command) && occurs(
            said,
            entry.location->value,
        ) && occurs(said, entry.location->subkey),
{
    let said = hint(entry)->0;
    let a = "It ran: "@;
    let b = ". Recreate it as a value named \""@;
    let c = "\" under "@;
    let d = " to put it back."@;
    let command = entry.command;
    let value = entry.location->value;
    let subkey = entry.location->subkey;
    assert(said == a + command + b + value + c + subkey + d);
    let i = a.len() as int;
    assert(said.subrange(i, i + command.len()) =~= command);
    assert(stands_at(said, command, i));
    let j = (a + command + b).len() as int;
    assert(said.subrange(j, j + value.len()) =~= value);
    assert(stands_at(said, value, j));
    let k = (a + command + b + value + c).len() as int;
    assert(said.subrange(k, k + subkey.len()) =~= subkey);
    assert(stands_at(said, subkey, k));
}

} // verus!
