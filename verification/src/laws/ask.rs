//! Promises of what a command asks for: its window, its filters, and the settings behind it.

use vstd::prelude::*;
use vstd::string::*;

use crate::cli::{is_asked, is_reckonable, Cli, Cmd, Request};
use crate::config::{chosen_dir, default_config, joined_path, session_file, Config};
use crate::double::{count_units, number};
use crate::since::{date_number, reckonable, spec_start, window_start, SinceError};
use crate::text::{
    back_trimmed, count_digits, count_of, digits_value, front_trimmed, is_digit, is_white,
    opt_text, trimmed,
};

verus! {

// ---------------------------------------------------------------- texts
/// White space is the blank, the tabs and line breaks of ASCII, and the blanks and breaks that
/// Unicode adds to them.
pub proof fn lemma_white_space(c: char)
    ensures
        is_white(c) <==> seq![
            '\t',
            '\n',
            '\u{b}',
            '\u{c}',
            '\r',
            ' ',
            '\u{85}',
            '\u{a0}',
            '\u{1680}',
            '\u{2000}',
            '\u{2001}',
            '\u{2002}',
            '\u{2003}',
            '\u{2004}',
            '\u{2005}',
            '\u{2006}',
            '\u{2007}',
            '\u{2008}',
            '\u{2009}',
            '\u{200a}',
            '\u{2028}',
            '\u{2029}',
            '\u{202f}',
            '\u{205f}',
            '\u{3000}',
        ].contains(c),
{
    let all = seq![
        '\t',
        '\n',
        '\u{b}',
        '\u{c}',
        '\r',
        ' ',
        '\u{85}',
        '\u{a0}',
        '\u{1680}',
        '\u{2000}',
        '\u{2001}',
        '\u{2002}',
        '\u{2003}',
        '\u{2004}',
        '\u{2005}',
        '\u{2006}',
        '\u{2007}',
        '\u{2008}',
        '\u{2009}',
        '\u{200a}',
        '\u{2028}',
        '\u{2029}',
        '\u{202f}',
        '\u{205f}',
        '\u{3000}',
    ];
    let k = c as u32;
    if is_white(c) {
        let at: int = if k <= 0xd {
            k - 9
        } else if k == 0x20 {
            5
        } else if k == 0x85 {
            6
        } else if k == 0xa0 {
            7
        } else if k == 0x1680 {
            8
        } else if k <= 0x200a {
            9 + k - 0x2000
        } else if k == 0x2028 {
            20
        } else if k == 0x2029 {
            21
        } else if k == 0x202f {
            22
        } else if k == 0x205f {
            23
        } else {
            24
        };
        assert(all[at] == c);
    }
}

/// Trimming takes the white space in front and at the end, and nothing else.
pub proof fn lemma_trimming_takes_the_ends(s: Seq<char>)
    ensures
        exists|from: int, to: int|
            {
                &&& 0 <= from <= to <= s.len()
                &&& trimmed(s) == #[trigger] s.subrange(from, to)
                &&& forall|i: int|
                    0 <= i < from || to <= i < s.len() ==> is_white(#[trigger] s[i])
                &&& from < to ==> !is_white(s[from]) && !is_white(s[to - 1])
            },
{
    let from = lemma_front_white(s);
    let t = front_trimmed(s);
    let n = lemma_back_white(t);
    let to = from + n;
    assert(trimmed(s) =~= s.subrange(from, to));
    assert forall|i: int| 0 <= i < from || to <= i < s.len() implies is_white(
        #[trigger] s[i],
    ) by {
        if i >= to {
            assert(t[i - from] == s[i]);
        }
    }
    if from < to {
        assert(t[n - 1] == s[to - 1]);
        assert(t[0] == s[from]);
    }
}

proof fn lemma_front_white(s: Seq<char>) -> (n: int)
    ensures
        0 <= n <= s.len(),
        front_trimmed(s) == s.subrange(n, s.len() as int),
        forall|i: int| 0 <= i < n ==> is_white(#[trigger] s[i]),
        n < s.len() ==> !is_white(s[n]),
    decreases s.len(),
{
    if s.len() > 0 && is_white(s[0]) {
        let t = s.skip(1);
        let m = lemma_front_white(t);
        assert(t.subrange(m, t.len() as int) =~= s.subrange(m + 1, s.len() as int));
        assert forall|i: int| 0 <= i < m + 1 implies is_white(#[trigger] s[i]) by {
            if i > 0 {
                assert(t[i - 1] == s[i]);
            }
        }
        m + 1
    } else {
        assert(s.subrange(0, s.len() as int) =~= s);
        0
    }
}

proof fn lemma_back_white(s: Seq<char>) -> (n: int)
    ensures
        0 <= n <= s.len(),
        back_trimmed(s) == s.subrange(0, n),
        forall|i: int| n <= i < s.len() ==> is_white(#[trigger] s[i]),
        n > 0 ==> !is_white(s[n - 1]),
    decreases s.len(),
{
    if s.len() > 0 && is_white(s.last()) {
        let t = s.drop_last();
        let m = lemma_back_white(t);
        assert(t.subrange(0, m) =~= s.subrange(0, m));
        assert forall|i: int| m <= i < s.len() implies is_white(#[trigger] s[i]) by {
            if i < t.len() {
                assert(t[i] == s[i]);
            }
        }
        m
    } else {
        assert(s.subrange(0, s.len() as int) =~= s);
        s.len() as int
    }
}

/// A count is one or more decimal digits, and worth what they stand for where that fits 64 bits;
/// nothing else is one.
pub proof fn lemma_count_is_its_digits(d: Seq<char>)
    requires
        d.len() > 0 ==> d[0] != '+',
    ensures
        count_of(d) is Some <==> d.len() > 0 && (forall|i: int|
            0 <= i < d.len() ==> 48 <= (#[trigger] d[i]) as u32 <= 57) && d.fold_left(
            0int,
            |n: int, c: char| 10 * n + (c as u32 - 48),
        ) <= u64::MAX,
        count_of(d) matches Some(n) ==> n == d.fold_left(
            0int,
            |n: int, c: char| 10 * n + (c as u32 - 48),
        ),
{
    if d.len() > 0 && forall|i: int| 0 <= i < d.len() ==> 48 <= (#[trigger] d[i]) as u32 <= 57 {
        assert forall|i: int| 0 <= i < d.len() implies is_digit(#[trigger] d[i]) by {
        }
        lemma_digits_fold(d);
    } else if d.len() > 0 {
        let i = choose|i: int| 0 <= i < d.len() && !(48 <= (#[trigger] d[i]) as u32 <= 57);
        assert(!is_digit(d[i]));
    }
}

/// A plus sign in front of a count changes nothing; a second one spoils it.
pub proof fn lemma_plus_sign_is_optional(d: Seq<char>)
    ensures
        d.len() > 0 && d[0] != '+' ==> count_of(seq!['+'] + d) == count_of(d),
        d.len() == 0 || d[0] == '+' ==> count_of(seq!['+'] + d) is None,
{
    let s = seq!['+'] + d;
    assert(s.skip(1) =~= d);
    assert(count_digits(s) == d);
    if d.len() > 0 && d[0] == '+' {
        assert(!is_digit(d[0]));
    }
}

proof fn lemma_digits_fold(s: Seq<char>)
    requires
        forall|i: int| 0 <= i < s.len() ==> is_digit(#[trigger] s[i]),
    ensures
        digits_value(s) == s.fold_left(0int, |n: int, c: char| 10 * n + (c as u32 - 48)),
    decreases s.len(),
{
    if s.len() > 0 {
        let t = s.drop_last();
        assert forall|i: int| 0 <= i < t.len() implies is_digit(#[trigger] t[i]) by {
            assert(t[i] == s[i]);
        }
        lemma_digits_fold(t);
        assert(is_digit(s[s.len() - 1]));
    }
}

// ---------------------------------------------------------------- the window
/// A window of `N` days or hours starts that long before now, and no earlier than the epoch; what
/// stands before the unit has to be a count. Anything else is a date, and the window starts at its
/// midnight, if it is one and not before the epoch. Nothing asked for is 30 days, and the full
/// history has no start.
pub proof fn lemma_window_starts_as_asked(spec: Seq<char>, now_ms: u64)
    ensures
        ({
            let s = trimmed(spec);
            let unit: int = if s.len() > 0 && s.last() == 'd' {
                86_400_000
            } else if s.len() > 0 && s.last() == 'h' {
                3_600_000
            } else {
                0
            };
            let count = count_of(s.drop_last());
            &&& unit > 0 && count is Some && count->0 * unit <= u64::MAX ==> spec_start(
                spec,
                now_ms,
            ) == Ok::<u64, SinceError>(
                (if now_ms >= count->0 * unit {
                    now_ms - count->0 * unit
                } else {
                    0
                }) as u64,
            )
            &&& unit == 86_400_000 && count is None ==> spec_start(spec, now_ms) == Err::<
                u64,
                SinceError,
            >(SinceError::BadDays)
            &&& unit == 3_600_000 && count is None ==> spec_start(spec, now_ms) == Err::<
                u64,
                SinceError,
            >(SinceError::BadHours)
            &&& unit == 0 && date_number(s) is None ==> spec_start(spec, now_ms) == Err::<
                u64,
                SinceError,
            >(SinceError::BadDate)
            &&& unit == 0 && date_number(s) is Some && date_number(s)->0 < 719_163 ==> spec_start(
                spec,
                now_ms,
            ) == Err::<u64, SinceError>(SinceError::BeforeEpoch)
            &&& unit == 0 && date_number(s) is Some && date_number(s)->0 >= 719_163 ==> spec_start(
                spec,
                now_ms,
            ) == Ok::<u64, SinceError>(((date_number(s)->0 - 719_163) * 86_400_000) as u64)
            &&& reckonable(spec) <==> (unit > 0 && count is Some ==> count->0 * unit <= u64::MAX)
        }),
        window_start(None, false, now_ms) == Ok::<Option<u64>, SinceError>(
            Some(
                (if now_ms >= 2_592_000_000 {
                    now_ms - 2_592_000_000
                } else {
                    0
                }) as u64,
            ),
        ),
        window_start(Some(spec), true, now_ms) == Ok::<Option<u64>, SinceError>(None),
        window_start(None, true, now_ms) == Ok::<Option<u64>, SinceError>(None),
        spec_start(spec, now_ms) matches Ok(ms) ==> window_start(Some(spec), false, now_ms) == Ok::<
            Option<u64>,
            SinceError,
        >(Some(ms)),
        spec_start(spec, now_ms) matches Err(e) ==> window_start(Some(spec), false, now_ms) == Err::<
            Option<u64>,
            SinceError,
        >(e),
{
}

// ---------------------------------------------------------------- commands
/// A report or a snapshot is of the window and the project asked for, or tells why the window is
/// not understood; a report is repeated only where that is asked for.
pub proof fn lemma_report_is_as_asked(
    cli: Cli,
    cfg: Config,
    now_ms: u64,
    r: Result<Request, SinceError>,
)
    requires
        is_asked(cli, cfg, now_ms, r),
    ensures
        cli.cmd matches Cmd::Report { since, project, all, json, watch, interval_secs } ==> match window_start(
            opt_text(since),
            all,
            now_ms,
        ) {
            Ok(start) => r matches Ok(Request::Report { filters, json: j, every_secs }) && opt_text(
                filters.root,
            ) == opt_text(cli.root) && filters.since_ms == start && opt_text(filters.project)
                == opt_text(project) && filters.memo_ttl_ms == 0 && j == json && (watch
                ==> every_secs == Some(interval_secs)) && (!watch ==> every_secs is None),
            Err(e) => r == Err::<Request, SinceError>(e),
        },
        cli.cmd matches Cmd::Snapshot { since, project, all } ==> match window_start(
            opt_text(since),
            all,
            now_ms,
        ) {
            Ok(start) => r matches Ok(Request::Snapshot { filters }) && opt_text(filters.root)
                == opt_text(cli.root) && filters.since_ms == start && opt_text(filters.project)
                == opt_text(project) && filters.memo_ttl_ms == 0,
            Err(e) => r == Err::<Request, SinceError>(e),
        },
{
}

/// The dashboard and the daemon look at the full history of all projects. The daemon goes by the
/// cadence asked for, else by that of the settings, and its scans share a memo for two rounds. An
/// event is handed on as it was given.
pub proof fn lemma_daemon_is_as_asked(
    cli: Cli,
    cfg: Config,
    now_ms: u64,
    r: Result<Request, SinceError>,
)
    requires
        is_asked(cli, cfg, now_ms, r),
    ensures
        cli.cmd is Ui ==> (r matches Ok(Request::Ui { filters }) && opt_text(filters.root)
            == opt_text(cli.root) && filters.since_ms is None && filters.project is None
            && filters.memo_ttl_ms == 0),
        cli.cmd matches Cmd::Watch { scan_interval_secs } ==> (r matches Ok(
            Request::Watch { filters, interval_secs },
        ) && (scan_interval_secs is Some ==> interval_secs == scan_interval_secs->0) && (
        scan_interval_secs is None ==> interval_secs == cfg.scan_interval_secs) && opt_text(
            filters.root,
        ) == opt_text(cli.root) && filters.since_ms is None && filters.project is None && (
        interval_secs * 1000 <= u64::MAX ==> filters.memo_ttl_ms == 2000 * interval_secs)),
        cli.cmd matches Cmd::EventHook { event_json } ==> (r matches Ok(
            Request::EventHook { event_json: e },
        ) && opt_text(e) == opt_text(event_json)),
{
}

/// The numbers of a command line can be reckoned with unless a window that counts is too long, or
/// two rounds of the daemon are.
pub proof fn lemma_reckonable_unless_too_long(cli: Cli, cfg: Config)
    ensures
        cli.cmd matches Cmd::Report { since, all, .. } ==> (is_reckonable(cli, cfg) <==> all
            || since is None || reckonable(since->0@)),
        cli.cmd matches Cmd::Snapshot { since, all, .. } ==> (is_reckonable(cli, cfg) <==> all
            || since is None || reckonable(since->0@)),
        cli.cmd is Ui || cli.cmd is EventHook ==> is_reckonable(cli, cfg),
        cli.cmd matches Cmd::Watch { scan_interval_secs } ==> ({
            let secs = match scan_interval_secs {
                Some(n) => n,
                None => cfg.scan_interval_secs,
            };
            secs * 2000 <= u64::MAX ==> is_reckonable(cli, cfg)
        }),
{
}

// ---------------------------------------------------------------- settings
/// State is kept in the directory asked for, else in that of the host, else in one in the home
/// directory; without any there is none.
pub proof fn lemma_state_directory(
    asked: Option<Seq<char>>,
    host: Option<Seq<char>>,
    home: Option<Seq<char>>,
)
    ensures
        asked is Some ==> chosen_dir(asked, host, home) == asked,
        asked is None && host is Some ==> chosen_dir(asked, host, home) == host,
        asked is None && host is None && home is Some ==> chosen_dir(asked, host, home) == Some(
            joined_path(home->0, ".herdr-memex-analytics"@),
        ),
        asked is None && host is None && home is None ==> chosen_dir(asked, host, home) is None,
{
}

/// A file stands in its directory behind exactly one separator.
pub proof fn lemma_file_stands_in_its_directory(dir: Seq<char>, name: Seq<char>)
    ensures
        dir.len() > 0 && dir.last() != '/' ==> joined_path(dir, name) == dir.push('/') + name,
        dir.len() > 0 && dir.last() == '/' ==> joined_path(dir, name) == dir + name,
        dir.len() == 0 ==> joined_path(dir, name) == name,
{
    reveal_strlit("/");
    assert("/"@ =~= seq!['/']);
    if dir.len() > 0 && dir.last() != '/' {
        assert(joined_path(dir, name) =~= dir.push('/') + name);
    } else if dir.len() == 0 {
        assert(joined_path(dir, name) =~= name);
    }
}

/// The states of two sessions are kept in one file only where their keys are the same.
pub proof fn lemma_sessions_have_their_own_files(a: Seq<char>, b: Seq<char>)
    ensures
        session_file(a) == session_file(b) <==> a == b,
{
    reveal_strlit("agent-states-");
    reveal_strlit(".json");
    if session_file(a) == session_file(b) {
        let n = session_file(a).len();
        assert(session_file(a).subrange(13, n - 5) =~= a);
        assert(session_file(b).subrange(13, n - 5) =~= b);
    }
}

/// Without settings the daemon scans every quarter of an hour, watches no daily budget, alerts
/// above 15 dollars an hour, and calls a session bloated from 100,000 tokens on.
pub proof fn lemma_default_settings()
    ensures
        default_config().scan_interval_secs == 900,
        default_config().daily_cost_usd is None,
        default_config().block_burn_rate_usd_hr == number(count_units(15)),
        default_config().context_bloat_tokens == 100_000,
{
}

} // verus!
