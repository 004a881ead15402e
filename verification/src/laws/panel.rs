//! Promises of the panels of the dashboard: which lines they have, what these tell, and in which
//! colour.

use vstd::prelude::*;
use vstd::string::*;

use crate::double::{count_units, difference, level_of, product, quotient, Double};
use crate::render::{ago_text, column, percent_text, tokens_text};
use crate::report::ReportView;
use crate::text::{clipped, dec, pad_left, pad_right};
use crate::tui::{
    change_part, chart_view, digest_part, footer_view, grouped_digits, header_view, heat_cell,
    hit_color, peak, plotted_values, signed_usd_text, status_view, usage_view, ChartMode, Color,
};
use crate::usage::{DayView, DigestView};

verus! {

// ---------------------------------------------------------------- head and foot
/// The head tells the window and how long ago the report was made.
pub proof fn lemma_head_tells_the_window(rep: ReportView, now_ms: u64)
    ensures
        header_view(rep, now_ms).spans.len() == 2,
        header_view(rep, now_ms).spans[0].text == " herdr analytics"@,
        rep.since_ms is Some ==> header_view(rep, now_ms).spans[1].text == "  "@ + "last 30d"@
            + " · updated "@ + ago_text(rep.generated_at_ms, now_ms),
        rep.since_ms is None ==> header_view(rep, now_ms).spans[1].text == "  "@ + "all history"@
            + " · updated "@ + ago_text(rep.generated_at_ms, now_ms),
{
}

/// The foot names each key, in the colour of keys, and then what it does.
pub proof fn lemma_foot_names_the_keys()
    ensures
        footer_view().spans.map_values(|s: crate::tui::SpanView| s.text) == seq![
            " q"@,
            " quit  "@,
            "j/k"@,
            " move  "@,
            "c"@,
            " chart mode  "@,
            "r"@,
            " rescan now"@,
        ],
        forall|i: int|
            0 <= i < 8 ==> (#[trigger] footer_view().spans[i].style.fg == Some(Color::Magenta) <==> i
                % 2 == 0),
{
}

// ---------------------------------------------------------------- the chart
/// A chart has two rows as wide as it is. A column shows its value in eighths of the peak: the
/// lower row up to half of it, the upper row what is above; and a value above zero never leaves
/// its column empty.
pub proof fn lemma_chart_shows_eighths_of_the_peak(
    daily: Seq<DayView>,
    mode: ChartMode,
    width: nat,
    col: int,
)
    requires
        0 <= col < width,
    ensures
        chart_view(daily, mode, width).len() == 2,
        ({
            let top = peak(plotted_values(daily, mode, width));
            let v = plotted_values(daily, mode, width)[col];
            let upper = chart_view(daily, mode, width)[0].spans[0].text;
            let lower = chart_view(daily, mode, width)[1].spans[0].text;
            let counts = v.is_finite() && v.amount() >= 0;
            let eighths = level_of(v.magnitude(), top.magnitude(), 8);
            &&& upper.len() == width && lower.len() == width
            &&& top.amount() <= 0 ==> upper[col] == ' ' && lower[col] == '⣀'
            &&& top.amount() > 0 && (top.is_infinite() || !counts) ==> upper[col] == ' '
                && lower[col] == ' '
            &&& top.amount() > 0 && top.is_finite() && counts ==> ({
                &&& eighths <= 4 ==> upper[col] == ' '
                &&& eighths == 5 ==> upper[col] == '⣀'
                &&& eighths == 6 ==> upper[col] == '⣤'
                &&& eighths == 7 ==> upper[col] == '⣶'
                &&& eighths >= 8 ==> upper[col] == '⣿'
                &&& eighths >= 4 ==> lower[col] == '⣿'
                &&& eighths == 3 ==> lower[col] == '⣶'
                &&& eighths == 2 ==> lower[col] == '⣤'
                &&& eighths == 1 ==> lower[col] == '⣀'
                &&& eighths == 0 && v.amount() > 0 ==> lower[col] == '⣀'
                &&& eighths == 0 && v.amount() == 0 ==> lower[col] == ' '
            })
        }),
{
    let vals = plotted_values(daily, mode, width);
    let top = peak(vals);
    crate::laws::screen::lemma_peak_is_the_largest(vals);
    let v = vals[col];
    assert(!v.above(top));
    assert(v.is_finite() && v.amount() >= 0 <==> v.is_amount());
}

/// The ground of an hour goes by its share of the busiest one: none, up to a sixth, up to a half,
/// up to five sixths, or more, as far as rounding tells them apart.
pub proof fn lemma_ground_goes_by_the_share(v: u64, max: u64)
    ensures
        ({
            let thirds = level_of(count_units(v), count_units(max), 3);
            let ground = heat_cell(v, max).style.bg;
            &&& heat_cell(v, max).text == " "@
            &&& v == 0 || max == 0 ==> ground == Some(Color::Indexed(236))
            &&& v > 0 && max > 0 && thirds == 0 ==> ground == Some(Color::Indexed(22))
            &&& v > 0 && max > 0 && thirds == 1 ==> ground == Some(Color::Indexed(28))
            &&& v > 0 && max > 0 && thirds == 2 ==> ground == Some(Color::Indexed(34))
            &&& v > 0 && max > 0 && thirds >= 3 ==> ground == Some(Color::Indexed(40))
        }),
{
}

// ---------------------------------------------------------------- the comparison
/// The comparison with the prior window stands where there is usage and a prior window: the
/// difference in cost, its share of the prior cost where that is above zero, in red where the cost
/// has grown.
pub proof fn lemma_change_tells_the_growth(rep: ReportView)
    ensures
        change_part(rep).len() == if rep.usage is Some && rep.wow is Some {
            1nat
        } else {
            0
        },
        rep.usage is Some && rep.wow is Some ==> ({
            let cost = rep.usage->0.known_cost_usd;
            let prior = rep.wow->0.cost_usd;
            let delta = difference(cost, prior);
            let told = change_part(rep)[0].spans[1];
            let some = !prior.is_nan() && prior.amount() > 0;
            &&& some ==> told.text == signed_usd_text(delta) + (" ("@ + product(
                quotient(delta, prior),
                100,
            ).signed_text(1) + "%)"@)
            &&& !some ==> told.text == signed_usd_text(delta)
            &&& told.style.fg == Some(Color::Red) <==> !delta.is_nan() && delta.amount() > 0
            &&& told.style.fg == Some(Color::Red) || told.style.fg == Some(Color::Green)
        }),
{
    let zero = Double { bits: 0 };
    crate::double::lemma_zero();
    if rep.usage is Some && rep.wow is Some {
        let prior = rep.wow->0.cost_usd;
        assert(!zero.is_nan() && zero.amount() == 0);
        assert(signed_usd_text(difference(rep.usage->0.known_cost_usd, prior)) + Seq::<char>::empty()
            =~= signed_usd_text(difference(rep.usage->0.known_cost_usd, prior)));
    }
}

/// A hit rate is green from sixty percent, yellow from thirty, and red below.
pub proof fn lemma_hit_rate_has_its_colour(share: Double)
    ensures
        ({
            let sixty = Double { bits: 0x3FE3_3333_3333_3333 };
            let thirty = Double { bits: 0x3FD3_3333_3333_3333 };
            let good = !share.is_nan() && share.amount() >= sixty.amount();
            let fair = !share.is_nan() && share.amount() >= thirty.amount();
            &&& good ==> hit_color(share) == Color::Green
            &&& !good && fair ==> hit_color(share) == Color::Yellow
            &&& !good && !fair ==> hit_color(share) == Color::Red
        }),
{
    let sixty = Double { bits: 0x3FE3_3333_3333_3333 };
    let thirty = Double { bits: 0x3FD3_3333_3333_3333 };
    assert(!sixty.is_nan() && !thirty.is_nan());
}

// ---------------------------------------------------------------- the digest
/// The first lines of a digest tell its events, tokens, cost and hit rate.
pub proof fn lemma_digest_tells_its_totals(u: DigestView, rep: ReportView)
    ensures
        ({
            let lines = digest_part(u, rep);
            &&& lines[0].spans[0].text == pad_right("events"@, 14)
            &&& lines[1].spans[0].text == pad_right("tokens"@, 14)
            &&& lines[2].spans[0].text == pad_right("cost"@, 14)
            &&& lines[3].spans[0].text == pad_right("hit-rate"@, 14)
            &&& lines[0].spans[1].text == grouped_digits(dec(u.events as nat))
            &&& lines[1].spans[1].text == tokens_text(u.total_tokens)
            &&& lines[2].spans[1].text == "$"@ + u.known_cost_usd.text(2)
            &&& u.cache_hit_rate is None ==> lines[3].spans[1].text == "n/a"@
            &&& u.cache_hit_rate matches Some(share) ==> lines[3].spans[1].text == percent_text(
                share,
                1,
            ) + "% of "@ + tokens_text(u.input_tokens) + " prompt tokens"@
                && lines[3].spans[1].style.fg == Some(hit_color(share))
        }),
{
}

/// Behind them the digest tells the reasoning tokens where there are any, the cache waste, and the
/// first of the bloating sessions where there is one.
pub proof fn lemma_digest_tells_its_waste(u: DigestView, rep: ReportView)
    ensures
        ({
            let lines = digest_part(u, rep);
            let waste: int = if rep.reasoning_tokens > 0 {
                5
            } else {
                4
            };
            let b = rep.bloating_sessions[0];
            &&& rep.reasoning_tokens > 0 && rep.reasoning_share is Some
                ==> lines[4].spans[1].text == tokens_text(rep.reasoning_tokens) + " tokens"@ + (
            " ("@ + percent_text(rep.reasoning_share->0, 1) + "% of output)"@)
            &&& rep.reasoning_tokens > 0 && rep.reasoning_share is None
                ==> lines[4].spans[1].text == tokens_text(rep.reasoning_tokens) + " tokens"@
            &&& lines[waste + 1].spans[0].text == "cache waste"@
            &&& lines[waste + 2].spans[0].text == pad_right("  tokens"@, 14)
            &&& lines[waste + 3].spans[0].text == pad_right("  wasted cost"@, 14)
            &&& lines[waste + 4].spans[0].text == pad_right("  misses"@, 14)
            &&& lines[waste + 5].spans[0].text == pad_right("  after idle"@, 14)
            &&& lines[waste + 6].spans[0].text == pad_right("  switches"@, 14)
            &&& lines[waste + 2].spans[1].text == tokens_text(u.missed_tokens)
            &&& lines[waste + 3].spans[1].text == "$"@ + u.missed_cost_usd.text(2)
            &&& lines[waste + 4].spans[1].text == grouped_digits(dec(u.miss_count as nat))
            &&& lines[waste + 5].spans[1].text == grouped_digits(dec(u.idle_misses as nat))
            &&& lines[waste + 6].spans[1].text == grouped_digits(dec(u.model_switch_misses as nat))
            &&& rep.bloating_sessions.len() > 0 ==> lines[waste + 7].spans[1].text == clipped(
                b.session_id,
                12,
            ) + " ("@ + b.project + ") at "@ + tokens_text(b.last_uncached_input) + " uncached"@
        }),
{
    assert(tokens_text(rep.reasoning_tokens) + " tokens"@ + Seq::<char>::empty() =~= tokens_text(
        rep.reasoning_tokens,
    ) + " tokens"@);
}

/// The digest ends with what each source used and what the first three models used.
pub proof fn lemma_digest_tells_sources_and_models(u: DigestView, rep: ReportView, i: int)
    ensures
        ({
            let lines = digest_part(u, rep);
            let first: int = 12 + (if rep.reasoning_tokens > 0 {
                1int
            } else {
                0
            }) + (if rep.bloating_sessions.len() > 0 {
                1int
            } else {
                0
            });
            let shown: int = if u.by_model.len() < 3 {
                u.by_model.len() as int
            } else {
                3
            };
            let models = first + u.by_source.len() + 2;
            &&& lines.len() == first + u.by_source.len() + (if shown > 0 {
                2 + shown
            } else {
                0
            })
            &&& 0 <= i < u.by_source.len() ==> lines[first + i].spans[0].text == pad_right(
                u.by_source[i].source,
                8,
            ) && lines[first + i].spans[1].text == pad_left(
                tokens_text(u.by_source[i].total_tokens),
                8,
            ) + "  $"@ + u.by_source[i].known_cost_usd.text(2)
            &&& 0 <= i < shown ==> lines[models + i].spans[0].text == column(
                u.by_model[i].model,
                14,
            ) && lines[models + i].spans[1].text == pad_left(
                tokens_text(u.by_model[i].total_tokens),
                8,
            ) + "  $"@ + u.by_model[i].known_cost_usd.text(2)
        }),
{
}

/// The usage panel tells the state of affairs, a blank line if there is any, and the digest, or
/// that there is none and why.
pub proof fn lemma_usage_panel_tells_what_there_is(rep: ReportView)
    ensures
        ({
            let head = status_view(rep).len();
            let skip = if head == 0 {
                0
            } else {
                head + 1
            };
            let rest = usage_view(rep).skip(skip as int);
            &&& usage_view(rep).take(head as int) == status_view(rep)
            &&& rep.usage matches Some(u) ==> rest == digest_part(u, rep)
            &&& rep.usage is None ==> rest[0].spans[0].text == "token usage unavailable"@
            &&& rep.usage is None && rep.usage_note is None ==> rest.len() == 1
            &&& rep.usage is None && rep.usage_note is Some ==> rest.len() == 2
                && rest[1].spans[0].text == rep.usage_note->0
        }),
{
    let head = status_view(rep).len();
    let skip = if head == 0 {
        0
    } else {
        head + 1
    };
    assert(usage_view(rep).take(head as int) =~= status_view(rep));
    if rep.usage is Some {
        assert(usage_view(rep).skip(skip as int) =~= digest_part(rep.usage->0, rep));
    }
}

} // verus!
