//! The report as text.

use vstd::prelude::*;
use vstd::string::*;

use crate::agents::{Tip, TipView};
use crate::double::{number, product, ratio_units, Double};
use crate::projects::{ProjectStats, ProjectView};
use crate::report::{Filters, Report, ReportView};
use crate::text::{
    align_left, align_right, clip, clipped, dec, decimal, join_all, joined, monus, pad_left,
    pad_right, spaced, views,
};
use crate::textmap::{sorted_listing, TextMap};
use crate::tips::{Tips, TipsView};
use crate::usage::{
    at_most, DigestView, ModelDigest, ModelView, ProjectUsage, ProjectUsageView, SourceDigest,
    SourceView, UsageDigest,
};

verus! {

/// Staleness threshold for the daemon snapshot: twice the default scan cadence.
pub const SNAPSHOT_MAX_AGE_MS: u64 = 1_800_000;

// ---------------------------------------------------------------- choosing the report
/// Whether a snapshot taken at `taken_ms` answers a request: the request is not narrowed (the
/// daemon keeps the full window), and the snapshot is fresh.
pub open spec fn snapshot_serves(filters: Filters, taken_ms: u64, now_ms: u64) -> bool {
    filters.since_ms is None && filters.project is None && monus(now_ms, taken_ms)
        < SNAPSHOT_MAX_AGE_MS
}

/// Prefer the daemon's snapshot when fresh; none where a scan is needed. A narrowed request always
/// scans: the daemon keeps the full window.
pub fn load_report(filters: &Filters, snapshot: Option<Report>, now_ms: u64) -> (r: Option<Report>)
    ensures
        r == (if snapshot is Some && snapshot_serves(*filters, snapshot->0.generated_at_ms, now_ms) {
            snapshot
        } else {
            None
        }),
{
    match snapshot {
        Some(rep) => {
            if filters.since_ms.is_none() && filters.project.is_none() && now_ms.saturating_sub(
                rep.generated_at_ms,
            ) < SNAPSHOT_MAX_AGE_MS {
                Some(rep)
            } else {
                None
            }
        },
        None => None,
    }
}

// ---------------------------------------------------------------- words
/// A distance in time, in the largest unit that fits.
pub open spec fn ago_text(then_ms: u64, now_ms: u64) -> Seq<char> {
    let secs = monus(now_ms, then_ms) as nat / 1000;
    if secs < 60 {
        dec(secs) + "s"@
    } else if secs < 3600 {
        dec(secs / 60) + "m"@
    } else if secs < 86_400 {
        dec(secs / 3600) + "h"@
    } else {
        dec(secs / 86_400) + "d"@
    }
}

/// Writes how long ago something was.
pub fn rel_time(then_ms: u64, now_ms: u64) -> (r: String)
    ensures
        r@ == ago_text(then_ms, now_ms),
{
    let secs: u64 = now_ms.saturating_sub(then_ms) / 1000;
    if secs < 60 {
        let mut r = decimal(secs);
        r.append("s");
        r
    } else if secs < 3600 {
        let mut r = decimal(secs / 60);
        r.append("m");
        r
    } else if secs < 86_400 {
        let mut r = decimal(secs / 3600);
        r.append("h");
        r
    } else {
        let mut r = decimal(secs / 86_400);
        r.append("d");
        r
    }
}

/// One count over another with one decimal.
pub open spec fn tenths(n: u64, unit: u64) -> Seq<char> {
    number(ratio_units(n, unit)).text(1)
}

/// A count of tokens, in thousands, millions or billions where it is large.
pub open spec fn tokens_text(n: u64) -> Seq<char> {
    if n < 1_000 {
        dec(n as nat)
    } else if n < 1_000_000 {
        tenths(n, 1_000) + "K"@
    } else if n < 1_000_000_000 {
        tenths(n, 1_000_000) + "M"@
    } else {
        tenths(n, 1_000_000_000) + "B"@
    }
}

/// Writes a count of tokens.
pub fn human_tokens(n: u64) -> (r: String)
    ensures
        r@ == tokens_text(n),
{
    if n < 1_000 {
        decimal(n)
    } else if n < 1_000_000 {
        let mut r = Double::ratio(n, 1_000).fixed(1);
        r.append("K");
        r
    } else if n < 1_000_000_000 {
        let mut r = Double::ratio(n, 1_000_000).fixed(1);
        r.append("M");
        r
    } else {
        let mut r = Double::ratio(n, 1_000_000_000).fixed(1);
        r.append("B");
        r
    }
}

/// A share in percent with some decimals.
pub open spec fn percent_text(share: Double, places: nat) -> Seq<char> {
    product(share, 100).text(places)
}

/// Writes a share in percent.
pub fn percent(share: Double, places: u32) -> (r: String)
    requires
        places <= 2,
    ensures
        r@ == percent_text(share, places as nat),
{
    share.times(100).fixed(places)
}

/// What window a report covers.
pub open spec fn window_text(since_ms: Option<u64>, now_ms: u64) -> Seq<char> {
    match since_ms {
        Some(ms) => "since "@ + ago_text(ms, now_ms),
        None => "all history"@,
    }
}

/// Writes what window a report covers.
pub fn window_label(since_ms: Option<u64>, now_ms: u64) -> (r: String)
    ensures
        r@ == window_text(since_ms, now_ms),
{
    match since_ms {
        Some(ms) => {
            let mut r = "since ".to_owned();
            r.append(rel_time(ms, now_ms).as_str());
            r
        },
        None => "all history".to_owned(),
    }
}

/// How old a report is.
pub open spec fn generated_text(at_ms: u64, now_ms: u64) -> Seq<char> {
    "  (generated "@ + ago_text(at_ms, now_ms) + ")"@
}

/// Writes how old a report is.
pub fn generated_label(at_ms: u64, now_ms: u64) -> (r: String)
    ensures
        r@ == generated_text(at_ms, now_ms),
{
    let mut r = "  (generated ".to_owned();
    r.append(rel_time(at_ms, now_ms).as_str());
    r.append(")");
    r
}

/// A text cut and padded to a column.
pub open spec fn column(s: Seq<char>, w: nat) -> Seq<char> {
    pad_right(clipped(s, w), w)
}

/// Cuts and pads a text to a column.
pub fn to_column(s: &str, w: usize) -> (r: String)
    ensures
        r@ == column(s@, w as nat),
{
    let cut = clip(s, w);
    align_left(cut.as_str(), w)
}

/// A count at the right edge of a column.
pub open spec fn count_column(n: u64, w: nat) -> Seq<char> {
    pad_left(dec(n as nat), w)
}

/// Writes a count at the right edge of a column.
pub fn to_count_column(n: u64, w: usize) -> (r: String)
    ensures
        r@ == count_column(n, w as nat),
{
    align_right(decimal(n).as_str(), w)
}

// ---------------------------------------------------------------- lines
/// The line of a tip.
pub open spec fn tip_line(t: TipView) -> Seq<char> {
    "  "@ + (if t.urgent {
        "!"@
    } else {
        "-"@
    }) + " "@ + t.message + "\n"@
}

fn write_tip(t: &Tip) -> (r: String)
    ensures
        r@ == tip_line(t@),
{
    let mut r = "  ".to_owned();
    r.append(if t.urgent {
        "!"
    } else {
        "-"
    });
    r.append(" ");
    r.append(t.message.as_str());
    r.append("\n");
    r
}

/// The first line.
pub open spec fn title_line(rep: ReportView, now_ms: u64) -> Seq<char> {
    "herdr analytics — "@ + window_text(rep.since_ms, now_ms) + generated_text(
        rep.generated_at_ms,
        now_ms,
    ) + "\n\n"@
}

/// The heads of the columns of the table of projects.
pub open spec fn sessions_head() -> Seq<char> {
    "  "@ + column("project"@, 28) + " "@ + pad_left("sessions"@, 8) + " "@ + pad_left("messages"@, 9)
        + " "@ + pad_left("hrs"@, 7) + " "@ + pad_left("last"@, 10) + "  "@ + "sources"@ + "\n"@
}

fn write_sessions_head() -> (r: String)
    ensures
        r@ == sessions_head(),
{
    let mut r = "  ".to_owned();
    r.append(to_column("project", 28).as_str());
    r.append(" ");
    r.append(align_right("sessions", 8).as_str());
    r.append(" ");
    r.append(align_right("messages", 9).as_str());
    r.append(" ");
    r.append(align_right("hrs", 7).as_str());
    r.append(" ");
    r.append(align_right("last", 10).as_str());
    r.append("  ");
    r.append("sources");
    r.append("\n");
    r
}

/// A source and how many sessions are from it.
pub open spec fn source_word(e: (Seq<char>, u64)) -> Seq<char> {
    e.0 + ":"@ + dec(e.1 as nat)
}

/// The sources of a project.
pub open spec fn sources_text(sources: Map<Seq<char>, u64>) -> Seq<char> {
    spaced(sorted_listing(sources).map_values(|e: (Seq<char>, u64)| source_word(e)))
}

fn write_sources(sources: &TextMap<u64>) -> (r: String)
    ensures
        r@ == sources_text(sources@),
{
    let n: usize = sources.len();
    let ghost words = sources.listing().map_values(|e: (Seq<char>, u64)| source_word(e));
    let mut r = String::new();
    let mut i: usize = 0;
    assert(r@ =~= spaced(words.take(0)));
    while i < n
        invariant
            i <= n == words.len(),
            n == sources.listing().len(),
            words == sources.listing().map_values(|e: (Seq<char>, u64)| source_word(e)),
            r@ == spaced(words.take(i as int)),
        decreases n - i,
    {
        assert(words.take(i + 1).drop_last() =~= words.take(i as int));
        assert(words.take(i + 1).last() == words[i as int]);
        let mut word = sources.key_at(i).clone();
        word.append(":");
        word.append(decimal(*sources.value_at(i)).as_str());
        assert(word@ == words[i as int]);
        if i > 0 {
            r.append(" ");
            r.append(word.as_str());
        } else {
            r = word;
            assert(words.take(1)[0] == words[0]);
        }
        i = i + 1;
    }
    assert(words.take(n as int) =~= words);
    r
}

/// The line of a project.
pub open spec fn project_line(p: ProjectView, generated_ms: u64) -> Seq<char> {
    "  "@ + column(p.project, 28) + " "@ + count_column(p.sessions, 8) + " "@ + count_column(
        p.messages,
        9,
    ) + " "@ + pad_left(tenths(p.active_ms, 3_600_000), 7) + " "@ + pad_left(
        ago_text(p.last_at_ms, generated_ms),
        10,
    ) + "  "@ + sources_text(p.sources) + "\n"@
}

fn write_project(p: &ProjectStats, generated_ms: u64) -> (r: String)
    ensures
        r@ == project_line(p@, generated_ms),
{
    let mut r = "  ".to_owned();
    r.append(to_column(p.project.as_str(), 28).as_str());
    r.append(" ");
    r.append(to_count_column(p.sessions, 8).as_str());
    r.append(" ");
    r.append(to_count_column(p.messages, 9).as_str());
    r.append(" ");
    r.append(align_right(Double::ratio(p.active_ms, 3_600_000).fixed(1).as_str(), 7).as_str());
    r.append(" ");
    r.append(align_right(rel_time(p.last_at_ms, generated_ms).as_str(), 10).as_str());
    r.append("  ");
    r.append(write_sources(&p.sources).as_str());
    r.append("\n");
    r
}

/// The line of the totals.
pub open spec fn totals_line(u: DigestView) -> Seq<char> {
    "  "@ + dec(u.events as nat) + " events, "@ + tokens_text(u.total_tokens) + " tokens, $"@
        + u.known_cost_usd.text(2) + " known cost\n"@
}

fn write_totals(u: &UsageDigest) -> (r: String)
    ensures
        r@ == totals_line(u@),
{
    let mut r = "  ".to_owned();
    r.append(decimal(u.events).as_str());
    r.append(" events, ");
    r.append(human_tokens(u.total_tokens).as_str());
    r.append(" tokens, $");
    r.append(u.known_cost_usd.fixed(2).as_str());
    r.append(" known cost\n");
    r
}

/// The line of the cache hit rate.
pub open spec fn hit_line(u: DigestView) -> Seq<char> {
    match u.cache_hit_rate {
        Some(share) => "  cache hit-rate: "@ + percent_text(share, 1) + "% of "@ + tokens_text(
            u.input_tokens,
        ) + " prompt tokens\n"@,
        None => "  cache hit-rate: n/a (no prompt tokens)\n"@,
    }
}

fn write_hit(u: &UsageDigest) -> (r: String)
    ensures
        r@ == hit_line(u@),
{
    match u.cache_hit_rate {
        Some(share) => {
            let mut r = "  cache hit-rate: ".to_owned();
            r.append(percent(share, 1).as_str());
            r.append("% of ");
            r.append(human_tokens(u.input_tokens).as_str());
            r.append(" prompt tokens\n");
            r
        },
        None => "  cache hit-rate: n/a (no prompt tokens)\n".to_owned(),
    }
}

/// The line of the cache waste.
pub open spec fn waste_line(u: DigestView) -> Seq<char> {
    "  cache waste: "@ + tokens_text(u.missed_tokens) + " tokens ($"@ + u.missed_cost_usd.text(2)
        + ") across "@ + dec(u.miss_count as nat) + " misses\n"@
}

fn write_waste(u: &UsageDigest) -> (r: String)
    ensures
        r@ == waste_line(u@),
{
    let mut r = "  cache waste: ".to_owned();
    r.append(human_tokens(u.missed_tokens).as_str());
    r.append(" tokens ($");
    r.append(u.missed_cost_usd.fixed(2).as_str());
    r.append(") across ");
    r.append(decimal(u.miss_count).as_str());
    r.append(" misses\n");
    r
}

/// The line of where the waste came from.
pub open spec fn causes_line(u: DigestView) -> Seq<char> {
    "    idle-gap misses "@ + dec(u.idle_misses as nat) + ", model-switch misses "@ + dec(
        u.model_switch_misses as nat,
    ) + "\n"@
}

fn write_causes(u: &UsageDigest) -> (r: String)
    ensures
        r@ == causes_line(u@),
{
    let mut r = "    idle-gap misses ".to_owned();
    r.append(decimal(u.idle_misses).as_str());
    r.append(", model-switch misses ");
    r.append(decimal(u.model_switch_misses).as_str());
    r.append("\n");
    r
}

/// The line of a source.
pub open spec fn source_line(s: SourceView) -> Seq<char> {
    "  "@ + column(s.source, 10) + " "@ + count_column(s.events, 6) + " events "@ + pad_left(
        tokens_text(s.total_tokens),
        10,
    ) + " tokens $"@ + pad_left(s.known_cost_usd.text(2), 8) + "  waste "@ + tokens_text(
        s.missed_tokens,
    ) + "\n"@
}

fn write_source(s: &SourceDigest) -> (r: String)
    ensures
        r@ == source_line(s@),
{
    let mut r = "  ".to_owned();
    r.append(to_column(s.source.as_str(), 10).as_str());
    r.append(" ");
    r.append(to_count_column(s.events, 6).as_str());
    r.append(" events ");
    r.append(align_right(human_tokens(s.total_tokens).as_str(), 10).as_str());
    r.append(" tokens $");
    r.append(align_right(s.known_cost_usd.fixed(2).as_str(), 8).as_str());
    r.append("  waste ");
    r.append(human_tokens(s.missed_tokens).as_str());
    r.append("\n");
    r
}

/// The heads of the columns of a table of usage.
pub open spec fn usage_head(name: Seq<char>, w: nat) -> Seq<char> {
    "\n  "@ + column(name, w) + " "@ + pad_left("events"@, 6) + " "@ + pad_left("tokens"@, 10) + " "@
        + pad_left("cost"@, 9) + "\n"@
}

fn write_usage_head(name: &str, w: usize) -> (r: String)
    ensures
        r@ == usage_head(name@, w as nat),
{
    let mut r = "\n  ".to_owned();
    r.append(to_column(name, w).as_str());
    r.append(" ");
    r.append(align_right("events", 6).as_str());
    r.append(" ");
    r.append(align_right("tokens", 10).as_str());
    r.append(" ");
    r.append(align_right("cost", 9).as_str());
    r.append("\n");
    r
}

/// The line of a model or a project in a table of usage.
pub open spec fn usage_line(
    name: Seq<char>,
    w: nat,
    events: u64,
    tokens: u64,
    cost: Double,
) -> Seq<char> {
    "  "@ + column(name, w) + " "@ + count_column(events, 6) + " "@ + pad_left(
        tokens_text(tokens),
        10,
    ) + " $"@ + pad_left(cost.text(2), 8) + "\n"@
}

fn write_usage(name: &str, w: usize, events: u64, tokens: u64, cost: Double) -> (r: String)
    ensures
        r@ == usage_line(name@, w as nat, events, tokens, cost),
{
    let mut r = "  ".to_owned();
    r.append(to_column(name, w).as_str());
    r.append(" ");
    r.append(to_count_column(events, 6).as_str());
    r.append(" ");
    r.append(align_right(human_tokens(tokens).as_str(), 10).as_str());
    r.append(" $");
    r.append(align_right(cost.fixed(2).as_str(), 8).as_str());
    r.append("\n");
    r
}

// ---------------------------------------------------------------- sections
/// The tips.
pub open spec fn tips_part(live: TipsView) -> Seq<Seq<char>> {
    if live.items.len() == 0 {
        Seq::empty()
    } else {
        seq!["Live tips\n"@] + live.items.map_values(|t: TipView| tip_line(t)) + seq!["\n"@]
    }
}

/// The sessions.
pub open spec fn sessions_part(rep: ReportView) -> Seq<Seq<char>> {
    let head = seq!["Sessions\n"@, sessions_head()];
    if rep.projects.len() == 0 {
        head + seq!["  (no indexed sessions in window; run `memex index`)\n"@]
    } else {
        head + rep.projects.map_values(|p: ProjectView| project_line(p, rep.generated_at_ms))
    }
}

/// The models.
pub open spec fn models_part(models: Seq<ModelView>) -> Seq<Seq<char>> {
    if models.len() == 0 {
        Seq::empty()
    } else {
        seq![usage_head("model"@, 20)] + models.map_values(
            |m: ModelView| usage_line(m.model, 20, m.events, m.total_tokens, m.known_cost_usd),
        )
    }
}

/// The first five projects by cost.
pub open spec fn costs_part(projects: Seq<ProjectUsageView>) -> Seq<Seq<char>> {
    if projects.len() == 0 {
        Seq::empty()
    } else {
        seq![usage_head("project"@, 28)] + at_most(projects, 5).map_values(
            |p: ProjectUsageView|
                usage_line(p.project, 28, p.events, p.total_tokens, p.known_cost_usd),
        )
    }
}

/// The advice under the usage.
pub open spec fn advice_part() -> Seq<Seq<char>> {
    seq![
        "\n  tip: idle-gap misses mean returning after the cache went cold —\n"@,
        "  batching related prompts into one session keeps it warm.\n"@,
    ]
}

/// The usage, or why there is none.
pub open spec fn usage_part(rep: ReportView) -> Seq<Seq<char>> {
    match rep.usage {
        Some(u) => seq![
            "\nToken usage\n"@,
            totals_line(u),
            hit_line(u),
            waste_line(u),
            causes_line(u),
        ] + u.by_source.map_values(|s: SourceView| source_line(s)) + models_part(u.by_model)
            + costs_part(rep.project_usage) + advice_part(),
        None => match rep.usage_note {
            Some(note) => seq!["\nToken usage: unavailable — "@ + note + "\n"@],
            None => Seq::empty(),
        },
    }
}

/// The pieces of the text of a report.
pub open spec fn report_parts(rep: ReportView, live: TipsView, now_ms: u64) -> Seq<Seq<char>> {
    tips_part(live) + seq![title_line(rep, now_ms)] + sessions_part(rep) + usage_part(rep)
}

/// The text of a report.
pub open spec fn report_text(rep: ReportView, live: TipsView, now_ms: u64) -> Seq<char> {
    joined(report_parts(rep, live, now_ms))
}

/// Adds one piece.
fn add_part(parts: &mut Vec<String>, part: String)
    ensures
        views(final(parts)@) == views(old(parts)@).push(part@),
{
    let ghost before = parts@;
    parts.push(part);
    assert(views(parts@) =~= views(before).push(part@));
}

fn add_tips(parts: &mut Vec<String>, live: &Tips)
    ensures
        views(final(parts)@) == views(old(parts)@) + tips_part(live@),
{
    let ghost start = views(parts@);
    let ghost lines = live@.items.map_values(|t: TipView| tip_line(t));
    if live.items.len() == 0 {
        assert(views(parts@) =~= start + tips_part(live@));
        return;
    }
    add_part(parts, "Live tips\n".to_owned());
    let mut i: usize = 0;
    while i < live.items.len()
        invariant
            i <= live.items@.len(),
            lines == live@.items.map_values(|t: TipView| tip_line(t)),
            views(parts@) =~= start.push("Live tips\n"@) + lines.take(i as int),
        decreases live.items@.len() - i,
    {
        assert(live@.items[i as int] == live.items@[i as int]@);
        add_part(parts, write_tip(&live.items[i]));
        i = i + 1;
    }
    add_part(parts, "\n".to_owned());
    assert(views(parts@) =~= start + tips_part(live@));
}

fn add_sessions(parts: &mut Vec<String>, rep: &Report)
    ensures
        views(final(parts)@) == views(old(parts)@) + sessions_part(rep@),
{
    let ghost start = views(parts@);
    let ghost lines = rep@.projects.map_values(
        |p: ProjectView| project_line(p, rep.generated_at_ms),
    );
    add_part(parts, "Sessions\n".to_owned());
    add_part(parts, write_sessions_head());
    let ghost head = start.push("Sessions\n"@).push(sessions_head());
    if rep.projects.len() == 0 {
        add_part(parts, "  (no indexed sessions in window; run `memex index`)\n".to_owned());
        assert(views(parts@) =~= start + sessions_part(rep@));
        return;
    }
    let mut i: usize = 0;
    while i < rep.projects.len()
        invariant
            i <= rep.projects@.len(),
            lines == rep@.projects.map_values(
                |p: ProjectView| project_line(p, rep.generated_at_ms),
            ),
            views(parts@) =~= head + lines.take(i as int),
        decreases rep.projects@.len() - i,
    {
        assert(rep@.projects[i as int] == rep.projects@[i as int]@);
        add_part(parts, write_project(&rep.projects[i], rep.generated_at_ms));
        i = i + 1;
    }
    assert(views(parts@) =~= start + sessions_part(rep@));
}

fn add_models(parts: &mut Vec<String>, models: &Vec<ModelDigest>)
    ensures
        views(final(parts)@) == views(old(parts)@) + models_part(views(models@)),
{
    let ghost start = views(parts@);
    let ghost all = views(models@);
    let ghost lines = all.map_values(
        |m: ModelView| usage_line(m.model, 20, m.events, m.total_tokens, m.known_cost_usd),
    );
    if models.len() == 0 {
        assert(views(parts@) =~= start + models_part(all));
        return;
    }
    add_part(parts, write_usage_head("model", 20));
    let mut i: usize = 0;
    while i < models.len()
        invariant
            i <= models@.len(),
            all == views(models@),
            lines == all.map_values(
                |m: ModelView| usage_line(m.model, 20, m.events, m.total_tokens, m.known_cost_usd),
            ),
            views(parts@) =~= start.push(usage_head("model"@, 20)) + lines.take(i as int),
        decreases models@.len() - i,
    {
        let m = &models[i];
        assert(all[i as int] == m@);
        add_part(
            parts,
            write_usage(m.model.as_str(), 20, m.events, m.total_tokens, m.known_cost_usd),
        );
        i = i + 1;
    }
    assert(views(parts@) =~= start + models_part(all));
}

fn add_costs(parts: &mut Vec<String>, projects: &Vec<ProjectUsage>)
    ensures
        views(final(parts)@) == views(old(parts)@) + costs_part(views(projects@)),
{
    let ghost start = views(parts@);
    let ghost all = views(projects@);
    let ghost lines = at_most(all, 5).map_values(
        |p: ProjectUsageView| usage_line(p.project, 28, p.events, p.total_tokens, p.known_cost_usd),
    );
    if projects.len() == 0 {
        assert(views(parts@) =~= start + costs_part(all));
        return;
    }
    add_part(parts, write_usage_head("project", 28));
    let mut i: usize = 0;
    while i < projects.len() && i < 5
        invariant
            i <= projects@.len(),
            i <= 5,
            all == views(projects@),
            lines == at_most(all, 5).map_values(
                |p: ProjectUsageView|
                    usage_line(p.project, 28, p.events, p.total_tokens, p.known_cost_usd),
            ),
            views(parts@) =~= start.push(usage_head("project"@, 28)) + lines.take(i as int),
        decreases projects@.len() - i,
    {
        let p = &projects[i];
        assert(all[i as int] == p@);
        add_part(
            parts,
            write_usage(p.project.as_str(), 28, p.events, p.total_tokens, p.known_cost_usd),
        );
        i = i + 1;
    }
    assert(views(parts@) =~= start + costs_part(all));
}

fn add_digest(parts: &mut Vec<String>, u: &UsageDigest, projects: &Vec<ProjectUsage>)
    ensures
        views(final(parts)@) == views(old(parts)@) + (seq![
            "\nToken usage\n"@,
            totals_line(u@),
            hit_line(u@),
            waste_line(u@),
            causes_line(u@),
        ] + u@.by_source.map_values(|s: SourceView| source_line(s)) + models_part(u@.by_model)
            + costs_part(views(projects@)) + advice_part()),
{
    let ghost start = views(parts@);
    let ghost lines = u@.by_source.map_values(|s: SourceView| source_line(s));
    add_part(parts, "\nToken usage\n".to_owned());
    add_part(parts, write_totals(u));
    add_part(parts, write_hit(u));
    add_part(parts, write_waste(u));
    add_part(parts, write_causes(u));
    let ghost head = views(parts@);
    assert(head =~= start + seq![
        "\nToken usage\n"@,
        totals_line(u@),
        hit_line(u@),
        waste_line(u@),
        causes_line(u@),
    ]);
    let mut i: usize = 0;
    while i < u.by_source.len()
        invariant
            i <= u.by_source@.len(),
            lines == u@.by_source.map_values(|s: SourceView| source_line(s)),
            views(parts@) =~= head + lines.take(i as int),
        decreases u.by_source@.len() - i,
    {
        assert(u@.by_source[i as int] == u.by_source@[i as int]@);
        add_part(parts, write_source(&u.by_source[i]));
        i = i + 1;
    }
    assert(views(parts@) =~= head + lines);
    add_models(parts, &u.by_model);
    add_costs(parts, projects);
    let ghost body = views(parts@);
    add_part(
        parts,
        "\n  tip: idle-gap misses mean returning after the cache went cold —\n".to_owned(),
    );
    add_part(parts, "  batching related prompts into one session keeps it warm.\n".to_owned());
    assert(views(parts@) =~= body + advice_part());
    assert(views(parts@) =~= start + (seq![
        "\nToken usage\n"@,
        totals_line(u@),
        hit_line(u@),
        waste_line(u@),
        causes_line(u@),
    ] + lines + models_part(u@.by_model) + costs_part(views(projects@)) + advice_part()));
}

fn add_usage(parts: &mut Vec<String>, rep: &Report)
    ensures
        views(final(parts)@) == views(old(parts)@) + usage_part(rep@),
{
    let ghost start = views(parts@);
    match &rep.usage {
        Some(u) => {
            add_digest(parts, u, &rep.project_usage);
        },
        None => match &rep.usage_note {
            Some(note) => {
                let mut text = "\nToken usage: unavailable — ".to_owned();
                text.append(note.as_str());
                text.append("\n");
                add_part(parts, text);
                assert(views(parts@) =~= start + usage_part(rep@));
            },
            None => {
                assert(views(parts@) =~= start + usage_part(rep@));
            },
        },
    }
}

/// Writes a report with the tips the daemon holds.
pub fn render_text(rep: &Report, live: &Tips, now_ms: u64) -> (r: String)
    ensures
        r@ == report_text(rep@, live@, now_ms),
{
    let mut parts: Vec<String> = Vec::new();
    assert(views(parts@) =~= Seq::<Seq<char>>::empty());
    add_tips(&mut parts, live);
    let mut title = "herdr analytics — ".to_owned();
    title.append(window_label(rep.since_ms, now_ms).as_str());
    title.append(generated_label(rep.generated_at_ms, now_ms).as_str());
    title.append("\n\n");
    add_part(&mut parts, title);
    add_sessions(&mut parts, rep);
    add_usage(&mut parts, rep);
    assert(views(parts@) =~= report_parts(rep@, live@, now_ms));
    join_all(&parts)
}

} // verus!
