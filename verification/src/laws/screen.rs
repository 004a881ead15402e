//! Promises of what is shown: how the dashboard reacts, how numbers are told, and which lines a
//! report has.

use vstd::prelude::*;
use vstd::string::*;

use crate::agents::{dur_text, TipView};
use crate::double::{count_units, number, product, ratio_units, Double};
use crate::projects::ProjectView;
use crate::render::{
    advice_part, ago_text, causes_line, column, costs_part, hit_line, models_part, percent_text,
    project_line, report_parts, report_text, sessions_head, sessions_part, source_line,
    sources_text, tip_line, tips_part, title_line, tokens_text, totals_line, usage_head, usage_line,
    usage_part, waste_line, window_text,
};
use crate::report::ReportView;
use crate::text::{clipped, dec, joined, pad_left, pad_right};
use crate::tips::TipsView;
use crate::tui::{
    clamped, fleet_part, grid_peak, grouped_digits, heat_line, heat_view, peak, plotted_values,
    row_peak, sessions_title_text, shade, signed_usd_text, spend_part, table_view, tip_view,
    turns_part, ChartMode, Color, Dashboard, Input,
};
use crate::usage::{DayView, SourceView};

verus! {

// ---------------------------------------------------------------- the dashboard
/// `q` and escape quit; `j`, down and the wheel select the next row and `k`, up and the wheel the
/// one before, as far as there are rows; `c` plots the next series; `r` asks for a rescan; nothing
/// else does anything, and each of these leaves the rest of the dashboard alone.
pub proof fn lemma_keys_do_what_they_say(d: Dashboard, input: Input, count: nat)
    requires
        count <= usize::MAX,
    ensures
        ({
            let quit = input == Input::Char('q') || input == Input::Esc;
            let down = input == Input::Char('j') || input == Input::Down || input
                == Input::ScrollDown;
            let up = input == Input::Char('k') || input == Input::Up || input == Input::ScrollUp;
            let chart = input == Input::Char('c');
            let scan = input == Input::Char('r');
            let next = d.after(input, count);
            &&& next is None <==> quit
            &&& !quit ==> ({
                let e = next->0;
                &&& down && count > 0 ==> e.selected == if d.selected + 1 < count {
                    d.selected + 1
                } else {
                    count - 1
                }
                &&& down && count == 0 ==> e.selected == 0
                &&& up ==> e.selected == if d.selected > 0 {
                    d.selected - 1
                } else {
                    0
                }
                &&& !down && !up ==> e.selected == d.selected
                &&& chart ==> e.mode == (match d.mode {
                    ChartMode::Tokens => ChartMode::Cost,
                    ChartMode::Cost => ChartMode::Sessions,
                    ChartMode::Sessions => ChartMode::Tokens,
                })
                &&& !chart ==> e.mode == d.mode
                &&& e.force_rescan == (scan || d.force_rescan)
            })
        }),
{
}

/// A selection stays on its row, or moves to the last where its row is gone.
pub proof fn lemma_selection_is_kept(selected: nat, count: nat)
    ensures
        count > 0 && selected < count ==> clamped(selected, count) == selected,
        count > 0 && selected >= count ==> clamped(selected, count) + 1 == count,
        count == 0 ==> clamped(selected, count) == 0,
{
}

// ---------------------------------------------------------------- words
/// A distance in time is told in whole seconds under a minute, minutes under an hour, hours under
/// a day, and days from then on.
pub proof fn lemma_ago_is_told_in_one_unit(then_ms: u64, now_ms: u64)
    ensures
        ({
            let ms = if now_ms >= then_ms {
                (now_ms - then_ms) as nat
            } else {
                0
            };
            &&& ms < 60_000 ==> ago_text(then_ms, now_ms) == dec(ms / 1000) + "s"@
            &&& 60_000 <= ms < 3_600_000 ==> ago_text(then_ms, now_ms) == dec(ms / 60_000) + "m"@
            &&& 3_600_000 <= ms < 86_400_000 ==> ago_text(then_ms, now_ms) == dec(ms / 3_600_000)
                + "h"@
            &&& 86_400_000 <= ms ==> ago_text(then_ms, now_ms) == dec(ms / 86_400_000) + "d"@
        }),
{
}

/// A window is told by how long ago it started, or as all of history.
pub proof fn lemma_window_is_told_by_its_start(since_ms: Option<u64>, now_ms: u64)
    ensures
        since_ms matches Some(ms) ==> window_text(since_ms, now_ms) == "since "@ + ago_text(
            ms,
            now_ms,
        ),
        since_ms is None ==> window_text(since_ms, now_ms) == "all history"@,
{
}

/// Tokens are told as they are under a thousand, and with one decimal in thousands, millions or
/// billions from then on.
pub proof fn lemma_tokens_are_told_in_one_unit(n: u64)
    ensures
        n < 1_000 ==> tokens_text(n) == dec(n as nat),
        1_000 <= n < 1_000_000 ==> tokens_text(n) == number(ratio_units(n, 1_000)).text(1) + "K"@,
        1_000_000 <= n < 1_000_000_000 ==> tokens_text(n) == number(
            ratio_units(n, 1_000_000),
        ).text(1) + "M"@,
        1_000_000_000 <= n ==> tokens_text(n) == number(ratio_units(n, 1_000_000_000)).text(1)
            + "B"@,
{
}

/// A share in percent is a hundred times the share.
pub proof fn lemma_percent_is_a_hundredfold(share: Double, places: nat)
    ensures
        percent_text(share, places) == product(share, 100).text(places),
{
}

/// A column is as wide as it is meant to be: the text at its edge, cut or filled up with spaces.
pub proof fn lemma_columns_are_filled(s: Seq<char>, w: nat)
    ensures
        pad_left(s, w).len() == if s.len() >= w {
            s.len()
        } else {
            w
        },
        pad_right(s, w).len() == pad_left(s, w).len(),
        pad_left(s, w).subrange(pad_left(s, w).len() - s.len(), pad_left(s, w).len() as int) == s,
        pad_right(s, w).take(s.len() as int) == s,
        forall|i: int|
            0 <= i < pad_left(s, w).len() - s.len() ==> #[trigger] pad_left(s, w)[i] == ' ',
        forall|i: int|
            s.len() <= i < pad_right(s, w).len() ==> #[trigger] pad_right(s, w)[i] == ' ',
        clipped(s, w) == s.take(if s.len() < w {
            s.len() as int
        } else {
            w as int
        }),
        column(s, w).len() == w,
        column(s, w) == pad_right(clipped(s, w), w),
{
    assert(pad_left(s, w).subrange(
        pad_left(s, w).len() - s.len(),
        pad_left(s, w).len() as int,
    ) =~= s);
    assert(pad_right(s, w).take(s.len() as int) =~= s);
    assert(s.take(s.len() as int) =~= s);
}

/// Digits in groups: a comma before every third digit from the end but not in front, and the
/// digits as they were.
pub proof fn lemma_digits_are_grouped_by_three(s: Seq<char>)
    requires
        forall|i: int| 0 <= i < s.len() ==> #[trigger] s[i] != ',',
    ensures
        s.len() > 0 ==> grouped_digits(s).len() == s.len() + (s.len() - 1) / 3,
        forall|i: int|
            0 <= i < grouped_digits(s).len() ==> (#[trigger] grouped_digits(s)[i] == ',' <==> (
            grouped_digits(s).len() - i) % 4 == 0),
        grouped_digits(s).filter(|c: char| c != ',') == s,
    decreases s.len(),
{
    let p = |c: char| c != ',';
    reveal_strlit(",");
    if s.len() <= 3 {
        lemma_all_pass(s, p);
    } else {
        let front = s.take(s.len() - 3);
        let back = s.skip(s.len() - 3);
        let g = grouped_digits(front);
        let all = grouped_digits(s);
        assert forall|i: int| 0 <= i < front.len() implies #[trigger] front[i] != ',' by {
            assert(front[i] == s[i]);
        }
        assert forall|i: int| 0 <= i < back.len() implies #[trigger] back[i] != ',' by {
            assert(back[i] == s[i + s.len() - 3]);
        }
        lemma_digits_are_grouped_by_three(front);
        assert(","@ =~= seq![',']);
        assert(all =~= g + seq![','] + back);
        assert(all.len() == g.len() + 4);
        assert forall|i: int| 0 <= i < all.len() implies (#[trigger] all[i] == ',' <==> (all.len()
            - i) % 4 == 0) by {
            if i < g.len() {
                assert(all[i] == g[i]);
                assert((all.len() - i) == (g.len() - i) + 4);
            } else if i > g.len() {
                assert(all[i] == back[i - g.len() - 1]);
            }
        }
        lemma_all_pass(back, p);
        Seq::filter_distributes_over_add(g + seq![','], back, p);
        Seq::filter_distributes_over_add(g, seq![','], p);
        assert(seq![','].filter(p) =~= Seq::<char>::empty()) by {
            reveal(Seq::filter);
            assert(seq![','].drop_last() =~= Seq::<char>::empty());
            assert(seq![','].drop_last().filter(p).len() == 0);
        }
        assert(front + back =~= s);
    }
}

proof fn lemma_all_pass(s: Seq<char>, p: spec_fn(char) -> bool)
    requires
        forall|i: int| 0 <= i < s.len() ==> p(#[trigger] s[i]),
    ensures
        s.filter(p) == s,
    decreases s.len(),
{
    reveal(Seq::filter);
    if s.len() > 0 {
        let t = s.drop_last();
        assert forall|i: int| 0 <= i < t.len() implies p(#[trigger] t[i]) by {
            assert(t[i] == s[i]);
        }
        lemma_all_pass(t, p);
        assert(p(s[s.len() - 1]));
        assert(t.push(s.last()) =~= s);
    }
}

/// Money with a sign: minus where the number is negative, plus where it is not.
pub proof fn lemma_money_has_its_sign(d: Double)
    ensures
        d.is_nan() ==> signed_usd_text(d) == "$NaN"@,
        !d.is_nan() && d.negative() ==> signed_usd_text(d) == "-$"@ + d.size_text(2),
        !d.is_nan() && !d.negative() ==> signed_usd_text(d) == "+$"@ + d.size_text(2),
{
}

// ---------------------------------------------------------------- the chart
/// A chart plots the tokens, the cost or the sessions of the days, which are spread evenly over
/// its columns.
pub proof fn lemma_columns_plot_the_days(
    daily: Seq<DayView>,
    mode: ChartMode,
    width: nat,
    col: int,
)
    requires
        0 <= col < width,
    ensures
        plotted_values(daily, mode, width).len() == width,
        daily.len() > 0 ==> ({
            let day = daily[col * daily.len() / width as int];
            plotted_values(daily, mode, width)[col] == (match mode {
                ChartMode::Tokens => number(count_units(day.tokens)),
                ChartMode::Cost => day.cost_usd,
                ChartMode::Sessions => number(count_units(day.sessions)),
            })
        }),
        daily.len() == 0 ==> plotted_values(daily, mode, width)[col] == (Double { bits: 0 }),
{
}

/// Each series goes by its name.
pub proof fn lemma_series_have_names(mode: ChartMode)
    ensures
        mode == ChartMode::Tokens ==> mode.name() == "tokens"@,
        mode == ChartMode::Cost ==> mode.name() == "cost"@,
        mode == ChartMode::Sessions ==> mode.name() == "sessions"@,
{
}

/// The peak of a chart is the largest of its values, and zero where none is above zero.
pub proof fn lemma_peak_is_the_largest(vals: Seq<Double>)
    ensures
        forall|i: int| 0 <= i < vals.len() ==> !(#[trigger] vals[i]).above(peak(vals)),
        peak(vals) == (Double { bits: 0 }) || exists|i: int|
            0 <= i < vals.len() && #[trigger] vals[i] == peak(vals),
    decreases vals.len(),
{
    if vals.len() > 0 {
        let t = vals.drop_last();
        lemma_peak_is_the_largest(t);
        assert(vals[vals.len() - 1] == vals.last());
        assert forall|i: int| 0 <= i < vals.len() implies !(#[trigger] vals[i]).above(
            peak(vals),
        ) by {
            if i < t.len() {
                assert(t[i] == vals[i]);
                assert(!t[i].above(peak(t)));
            }
        }
        if !vals.last().above(peak(t)) && peak(t) != (Double { bits: 0 }) {
            let i = choose|i: int| 0 <= i < t.len() && #[trigger] t[i] == peak(t);
            assert(vals[i] == peak(vals));
        }
    }
}

// ---------------------------------------------------------------- the heatmap
proof fn lemma_row_peak(row: Seq<u64>)
    ensures
        forall|i: int| 0 <= i < row.len() ==> #[trigger] row[i] <= row_peak(row),
        row_peak(row) == 0 || exists|i: int| 0 <= i < row.len() && #[trigger] row[i] == row_peak(row),
    decreases row.len(),
{
    if row.len() > 0 {
        let t = row.drop_last();
        lemma_row_peak(t);
        assert(row[row.len() - 1] == row.last());
        assert forall|i: int| 0 <= i < row.len() implies #[trigger] row[i] <= row_peak(row) by {
            if i < t.len() {
                assert(t[i] == row[i]);
                assert(t[i] <= row_peak(t));
            }
        }
        if row.last() <= row_peak(t) && row_peak(t) != 0 {
            let i = choose|i: int| 0 <= i < t.len() && #[trigger] t[i] == row_peak(t);
            assert(row[i] == row_peak(row));
        }
    }
}

/// The cells are shaded by the largest of them all.
pub proof fn lemma_grid_peak_is_the_largest(grid: Seq<Seq<u64>>)
    ensures
        forall|r: int, h: int|
            0 <= r < grid.len() && 0 <= h < grid[r].len() ==> #[trigger] grid[r][h] <= grid_peak(
                grid,
            ),
        grid_peak(grid) == 0 || exists|r: int, h: int|
            0 <= r < grid.len() && 0 <= h < grid[r].len() && #[trigger] grid[r][h] == grid_peak(
                grid,
            ),
    decreases grid.len(),
{
    if grid.len() > 0 {
        let t = grid.drop_last();
        lemma_grid_peak_is_the_largest(t);
        lemma_row_peak(grid.last());
        let n = grid.len() - 1;
        assert(grid[n] == grid.last());
        assert forall|r: int, h: int| 0 <= r < grid.len() && 0 <= h < grid[r].len() implies
            #[trigger] grid[r][h] <= grid_peak(grid) by {
            if r < n {
                assert(t[r] == grid[r]);
                assert(t[r][h] <= grid_peak(t));
            } else {
                assert(grid[n][h] <= row_peak(grid[n]));
            }
        }
        if row_peak(grid.last()) > grid_peak(t) {
            let h = choose|h: int|
                0 <= h < grid[n].len() && #[trigger] grid[n][h] == row_peak(grid[n]);
            assert(grid[n][h] == grid_peak(grid));
        } else if grid_peak(t) != 0 {
            let (r, h) = choose|r: int, h: int|
                0 <= r < t.len() && 0 <= h < t[r].len() && #[trigger] t[r][h] == grid_peak(t);
            assert(grid[r][h] == grid_peak(grid));
        }
    }
}

/// A heatmap has a line for each day, under how many days ago it is, today being none, with a cell
/// for each hour; and lines without data up to seven. An hour is blank exactly where nothing
/// happened in it.
pub proof fn lemma_heatmap_has_a_line_a_day(grid: Seq<Seq<u64>>, r: int, h: int)
    ensures
        heat_view(grid).len() == if grid.len() < 7 {
            7
        } else {
            grid.len()
        },
        0 <= r < grid.len() ==> ({
            let line = heat_view(grid)[r];
            &&& line.spans.len() == 1 + grid[r].len()
            &&& line.spans[0].text == "-"@ + dec((grid.len() - 1 - r) as nat) + "d "@
            &&& 0 <= h < grid[r].len() ==> line.spans[1 + h].text == " "@ && (line.spans[1
                + h].style.bg == Some(Color::Indexed(236)) <==> grid[r][h] == 0)
        }),
        grid.len() <= r < heat_view(grid).len() ==> heat_view(grid)[r].spans.len() == 2
            && heat_view(grid)[r].spans[0].text == "-d "@ && heat_view(grid)[r].spans[1].text
            == Seq::new(24, |i: int| ' '),
{
    if 0 <= r < grid.len() {
        assert(heat_view(grid)[r] == heat_line(
            grid[r],
            (grid.len() - r - 1) as nat,
            grid_peak(grid),
        ));
        lemma_grid_peak_is_the_largest(grid);
        if 0 <= h < grid[r].len() {
            assert(grid[r][h] <= grid_peak(grid));
            assert(shade(grid[r][h], grid_peak(grid)) == 0 <==> grid[r][h] == 0);
        }
    }
}

// ---------------------------------------------------------------- tables and lines
/// The table has a row for each project, of its name, sessions, messages, hours and when it was
/// last active; the selected one stands on a dark ground.
pub proof fn lemma_table_has_a_row_a_project(
    projects: Seq<ProjectView>,
    selected: nat,
    now_ms: u64,
    i: int,
)
    requires
        0 <= i < projects.len(),
    ensures
        table_view(projects, selected, now_ms).len() == projects.len(),
        ({
            let row = table_view(projects, selected, now_ms)[i];
            let p = projects[i];
            &&& row.cells.len() == 5
            &&& row.cells[0] == p.project
            &&& row.cells[1] == dec(p.sessions as nat)
            &&& row.cells[2] == dec(p.messages as nat)
            &&& row.cells[3] == number(ratio_units(p.active_ms, 3_600_000)).text(1)
            &&& row.cells[4] == ago_text(p.last_at_ms, now_ms)
            &&& row.style.bg == Some(Color::DarkGray) <==> i == selected
        }),
{
}

/// The title counts the selected row from one.
pub proof fn lemma_title_counts_from_one(selected: nat, count: nat)
    ensures
        count > 0 ==> sessions_title_text(selected, count) == " Sessions "@ + dec(selected + 1)
            + "/"@ + dec(count) + " "@,
        count == 0 ==> sessions_title_text(selected, count) == " Sessions "@ + dec(0) + "/"@ + dec(
            0,
        ) + " "@,
{
}

/// An urgent tip is marked so, in red.
pub proof fn lemma_urgent_tips_stand_out(t: TipView)
    ensures
        tip_view(t).spans.len() == 2,
        tip_view(t).spans[1].text == t.message,
        t.urgent ==> tip_view(t).spans[0].text == " ! "@ && tip_view(t).spans[0].style.fg == Some(
            Color::Red,
        ),
        !t.urgent ==> tip_view(t).spans[0].text == " · "@ && tip_view(t).spans[0].style.fg == Some(
            Color::Yellow,
        ),
{
}

/// The state of affairs tells the spend where any is known, the fleet where it was sampled, in red
/// where an agent is blocked, and the turns where there are any.
pub proof fn lemma_status_tells_what_is_known(rep: ReportView)
    ensures
        rep.burn_rate_usd_per_hr is None && rep.today_cost_usd is None <==> spend_part(rep).len()
            == 0,
        rep.burn_rate_usd_per_hr matches Some(b) ==> spend_part(rep)[0].spans[1].text == "burn $"@
            + b.text(2) + "/hr"@,
        rep.today_cost_usd matches Some(t) ==> spend_part(rep)[0].spans.last().text == "today $"@
            + t.text(2),
        rep.fleet is None <==> fleet_part(rep).len() == 0,
        rep.fleet matches Some(f) ==> fleet_part(rep)[0].spans.last().text == dec(f.working as nat)
            + " working · "@ + dec(f.blocked as nat) + " blocked · "@ + dec(f.idle as nat)
            + " idle"@ && (fleet_part(rep)[0].spans.last().style.fg == Some(Color::Red) <==> f.blocked
            > 0),
        rep.turns is None <==> turns_part(rep).len() == 0,
        rep.turns matches Some(t) ==> turns_part(rep)[0].spans.last().text == dec(
            t.completed as nat,
        ) + " · p50 "@ + (match t.p50_ms {
            Some(ms) => dur_text(ms),
            None => "n/a"@,
        }) + " · p95 "@ + (match t.p95_ms {
            Some(ms) => dur_text(ms),
            None => "n/a"@,
        }) + (match t.intervention_rate {
            Some(share) => " · IR "@ + percent_text(share, 0) + "%"@,
            None => Seq::empty(),
        }),
{
}

// ---------------------------------------------------------------- the text report
proof fn lemma_joined_is_fold(parts: Seq<Seq<char>>)
    ensures
        joined(parts) == parts.fold_left(
            Seq::<char>::empty(),
            |all: Seq<char>, part: Seq<char>| all + part,
        ),
    decreases parts.len(),
{
    if parts.len() > 0 {
        lemma_joined_is_fold(parts.drop_last());
    }
}

/// The text of a report is its pieces one behind the other.
pub proof fn lemma_text_is_its_pieces(rep: ReportView, live: TipsView, now_ms: u64)
    ensures
        report_text(rep, live, now_ms) == report_parts(rep, live, now_ms).fold_left(
            Seq::<char>::empty(),
            |all: Seq<char>, part: Seq<char>| all + part,
        ),
{
    lemma_joined_is_fold(report_parts(rep, live, now_ms));
}

/// Where a row of pieces stands in four that follow one another.
proof fn lemma_placed(a: Seq<Seq<char>>, b: Seq<Seq<char>>, c: Seq<Seq<char>>, d: Seq<Seq<char>>)
    ensures
        ({
            let all = a + b + c + d;
            &&& all.len() == a.len() + b.len() + c.len() + d.len()
            &&& forall|i: int| 0 <= i < a.len() ==> #[trigger] all[i] == a[i]
            &&& forall|i: int| 0 <= i < b.len() ==> all[a.len() + i] == #[trigger] b[i]
            &&& forall|i: int| 0 <= i < c.len() ==> all[a.len() + b.len() + i] == #[trigger] c[i]
            &&& forall|i: int|
                0 <= i < d.len() ==> all[a.len() + b.len() + c.len() + i] == #[trigger] d[i]
        }),
{
}

/// A report starts with the tips, if there are any: a heading, a line for each, the urgent ones
/// marked, and a blank line.
#[verifier::spinoff_prover]
pub proof fn lemma_text_starts_with_the_tips(
    rep: ReportView,
    live: TipsView,
    now_ms: u64,
    i: int,
)
    requires
        0 <= i < live.items.len(),
    ensures
        ({
            let parts = report_parts(rep, live, now_ms);
            let t = live.items[i];
            &&& parts[0] == "Live tips\n"@
            &&& parts[1 + i] == "  "@ + (if t.urgent {
                "!"@
            } else {
                "-"@
            }) + " "@ + t.message + "\n"@
            &&& parts[live.items.len() as int + 1] == "\n"@
        }),
{
    lemma_placed(
        tips_part(live),
        seq![title_line(rep, now_ms)],
        sessions_part(rep),
        usage_part(rep),
    );
    let tips = tips_part(live);
    assert(tips.len() == live.items.len() + 2);
    assert(tips[0] == "Live tips\n"@);
    assert(tips[1 + i] == tip_line(live.items[i]));
    assert(tips[live.items.len() as int + 1] == "\n"@);
}

/// Behind the tips stand the title with the window and the age of the report, and the heads of the
/// table of projects.
#[verifier::spinoff_prover]
pub proof fn lemma_text_goes_on_with_the_title(rep: ReportView, live: TipsView, now_ms: u64)
    ensures
        ({
            let parts = report_parts(rep, live, now_ms);
            let tips: int = if live.items.len() == 0 {
                0
            } else {
                live.items.len() as int + 2
            };
            &&& parts[tips] == "herdr analytics — "@ + window_text(rep.since_ms, now_ms) + (
            "  (generated "@ + ago_text(rep.generated_at_ms, now_ms) + ")"@) + "\n\n"@
            &&& parts[tips + 1] == "Sessions\n"@
            &&& parts[tips + 2] == "  "@ + column("project"@, 28) + " "@ + pad_left("sessions"@, 8)
                + " "@ + pad_left("messages"@, 9) + " "@ + pad_left("hrs"@, 7) + " "@ + pad_left(
                "last"@,
                10,
            ) + "  "@ + "sources"@ + "\n"@
            &&& rep.projects.len() == 0 ==> parts[tips + 3]
                == "  (no indexed sessions in window; run `memex index`)\n"@
        }),
{
    let title = seq![title_line(rep, now_ms)];
    let sessions = sessions_part(rep);
    lemma_placed(tips_part(live), title, sessions, usage_part(rep));
    assert(title[0] == title_line(rep, now_ms));
    assert(sessions[0] == "Sessions\n"@);
    assert(sessions[1] == sessions_head());
    if rep.projects.len() == 0 {
        assert(sessions[2] == "  (no indexed sessions in window; run `memex index`)\n"@);
    }
}

/// The table has a line for each project.
#[verifier::spinoff_prover]
pub proof fn lemma_text_has_a_line_a_project(
    rep: ReportView,
    live: TipsView,
    now_ms: u64,
    i: int,
)
    requires
        0 <= i < rep.projects.len(),
    ensures
        ({
            let parts = report_parts(rep, live, now_ms);
            let tips: int = if live.items.len() == 0 {
                0
            } else {
                live.items.len() as int + 2
            };
            let p = rep.projects[i];
            parts[tips + 3 + i] == "  "@ + column(p.project, 28) + " "@ + pad_left(
                dec(p.sessions as nat),
                8,
            ) + " "@ + pad_left(dec(p.messages as nat), 9) + " "@ + pad_left(
                number(ratio_units(p.active_ms, 3_600_000)).text(1),
                7,
            ) + " "@ + pad_left(ago_text(p.last_at_ms, rep.generated_at_ms), 10) + "  "@
                + sources_text(p.sources) + "\n"@
        }),
{
    let sessions = sessions_part(rep);
    lemma_placed(tips_part(live), seq![title_line(rep, now_ms)], sessions, usage_part(rep));
    assert(sessions[2 + i] == project_line(rep.projects[i], rep.generated_at_ms));
}

/// Where the usage of a report stands.
proof fn lemma_usage_stands_last(rep: ReportView, live: TipsView, now_ms: u64)
    ensures
        ({
            let parts = report_parts(rep, live, now_ms);
            let tips: int = if live.items.len() == 0 {
                0
            } else {
                live.items.len() as int + 2
            };
            let rows: int = if rep.projects.len() == 0 {
                1
            } else {
                rep.projects.len() as int
            };
            parts.skip(tips + 3 + rows) == usage_part(rep)
        }),
{
    lemma_placed(
        tips_part(live),
        seq![title_line(rep, now_ms)],
        sessions_part(rep),
        usage_part(rep),
    );
    let tips = tips_part(live).len();
    let rows = sessions_part(rep).len();
    assert(report_parts(rep, live, now_ms).skip((tips + 1 + rows) as int) =~= usage_part(rep));
}

/// A report ends with the usage: its totals, hit rate, cache waste and what that is due to; or
/// with why there is none, if that is known.
#[verifier::spinoff_prover]
pub proof fn lemma_text_ends_with_the_usage(rep: ReportView, live: TipsView, now_ms: u64)
    ensures
        ({
            let tips: int = if live.items.len() == 0 {
                0
            } else {
                live.items.len() as int + 2
            };
            let rows: int = if rep.projects.len() == 0 {
                1
            } else {
                rep.projects.len() as int
            };
            let parts = report_parts(rep, live, now_ms).skip(tips + 3 + rows);
            &&& rep.usage is None && rep.usage_note is None ==> parts.len() == 0
            &&& rep.usage is None && rep.usage_note is Some ==> parts.len() == 1 && parts[0]
                == "\nToken usage: unavailable — "@ + rep.usage_note->0 + "\n"@
            &&& rep.usage matches Some(u) ==> ({
                &&& parts[0] == "\nToken usage\n"@
                &&& parts[1] == "  "@ + dec(u.events as nat) + " events, "@ + tokens_text(
                    u.total_tokens,
                ) + " tokens, $"@ + u.known_cost_usd.text(2) + " known cost\n"@
                &&& parts[2] == (match u.cache_hit_rate {
                    Some(share) => "  cache hit-rate: "@ + percent_text(share, 1) + "% of "@
                        + tokens_text(u.input_tokens) + " prompt tokens\n"@,
                    None => "  cache hit-rate: n/a (no prompt tokens)\n"@,
                })
                &&& parts[3] == "  cache waste: "@ + tokens_text(u.missed_tokens) + " tokens ($"@
                    + u.missed_cost_usd.text(2) + ") across "@ + dec(u.miss_count as nat)
                    + " misses\n"@
                &&& parts[4] == "    idle-gap misses "@ + dec(u.idle_misses as nat)
                    + ", model-switch misses "@ + dec(u.model_switch_misses as nat) + "\n"@
                &&& parts[parts.len() - 2]
                    == "\n  tip: idle-gap misses mean returning after the cache went cold —\n"@
                &&& parts.last()
                    == "  batching related prompts into one session keeps it warm.\n"@
            })
        }),
{
    lemma_usage_stands_last(rep, live, now_ms);
    if rep.usage is Some {
        let u = rep.usage->0;
        let parts = usage_part(rep);
        let head = seq![
            "\nToken usage\n"@,
            totals_line(u),
            hit_line(u),
            waste_line(u),
            causes_line(u),
        ];
        let front = head + u.by_source.map_values(|s: SourceView| source_line(s));
        assert(parts =~= front + (models_part(u.by_model) + costs_part(rep.project_usage))
            + advice_part());
        assert forall|i: int| 0 <= i < 5 implies #[trigger] parts[i] == head[i] by {}
        assert(parts[parts.len() - 2] == advice_part()[0]);
        assert(parts.last() == advice_part()[1]);
        assert(parts[0] == head[0] && parts[1] == head[1] && parts[2] == head[2] && parts[3]
            == head[3] && parts[4] == head[4]);
    }
}

/// The usage has a line for each source, a table of the models and one of the first five projects
/// by cost, each with its heads, where there are any.
#[verifier::spinoff_prover]
pub proof fn lemma_text_has_tables_of_usage(
    rep: ReportView,
    live: TipsView,
    now_ms: u64,
    i: int,
)
    requires
        rep.usage is Some,
    ensures
        ({
            let tips: int = if live.items.len() == 0 {
                0
            } else {
                live.items.len() as int + 2
            };
            let rows: int = if rep.projects.len() == 0 {
                1
            } else {
                rep.projects.len() as int
            };
            let parts = report_parts(rep, live, now_ms).skip(tips + 3 + rows);
            let u = rep.usage->0;
            let first = 5 + u.by_source.len() as int;
            let models: int = if u.by_model.len() == 0 {
                0
            } else {
                1 + u.by_model.len() as int
            };
            let shown: int = if rep.project_usage.len() < 5 {
                rep.project_usage.len() as int
            } else {
                5
            };
            let costs: int = if shown == 0 {
                0
            } else {
                1 + shown
            };
            let s = u.by_source[i];
            let m = u.by_model[i];
            let p = rep.project_usage[i];
            &&& parts.len() == first + models + costs + 2
            &&& 0 <= i < u.by_source.len() ==> parts[5 + i] == "  "@ + column(s.source, 10) + " "@
                + pad_left(dec(s.events as nat), 6) + " events "@ + pad_left(
                tokens_text(s.total_tokens),
                10,
            ) + " tokens $"@ + pad_left(s.known_cost_usd.text(2), 8) + "  waste "@ + tokens_text(
                s.missed_tokens,
            ) + "\n"@
            &&& models > 0 ==> parts[first] == "\n  "@ + column("model"@, 20) + " "@ + pad_left(
                "events"@,
                6,
            ) + " "@ + pad_left("tokens"@, 10) + " "@ + pad_left("cost"@, 9) + "\n"@
            &&& 0 <= i < u.by_model.len() ==> parts[first + 1 + i] == "  "@ + column(m.model, 20)
                + " "@ + pad_left(dec(m.events as nat), 6) + " "@ + pad_left(
                tokens_text(m.total_tokens),
                10,
            ) + " $"@ + pad_left(m.known_cost_usd.text(2), 8) + "\n"@
            &&& costs > 0 ==> parts[first + models] == "\n  "@ + column("project"@, 28) + " "@
                + pad_left("events"@, 6) + " "@ + pad_left("tokens"@, 10) + " "@ + pad_left(
                "cost"@,
                9,
            ) + "\n"@
            &&& 0 <= i < shown ==> parts[first + models + 1 + i] == "  "@ + column(p.project, 28)
                + " "@ + pad_left(dec(p.events as nat), 6) + " "@ + pad_left(
                tokens_text(p.total_tokens),
                10,
            ) + " $"@ + pad_left(p.known_cost_usd.text(2), 8) + "\n"@
        }),
{
    lemma_usage_stands_last(rep, live, now_ms);
    let u = rep.usage->0;
    let head = seq![
        "\nToken usage\n"@,
        totals_line(u),
        hit_line(u),
        waste_line(u),
        causes_line(u),
    ];
    let sources = u.by_source.map_values(|s: SourceView| source_line(s));
    let models = models_part(u.by_model);
    let costs = costs_part(rep.project_usage);
    let front = head + sources;
    lemma_placed(front, models, costs, advice_part());
    assert(front.len() == 5 + sources.len());
    let parts = usage_part(rep);
    assert(parts == front + models + costs + advice_part());
    if 0 <= i < u.by_source.len() {
        assert(sources[i] == source_line(u.by_source[i]));
        assert(front[5 + i] == sources[i]);
    }
    if u.by_model.len() > 0 {
        assert(models[0] == usage_head("model"@, 20));
    }
    if 0 <= i < u.by_model.len() {
        let m = u.by_model[i];
        assert(models[1 + i] == usage_line(
            m.model,
            20,
            m.events,
            m.total_tokens,
            m.known_cost_usd,
        ));
    }
    if rep.project_usage.len() > 0 {
        assert(costs[0] == usage_head("project"@, 28));
    }
    if 0 <= i < rep.project_usage.len() && i < 5 {
        let p = rep.project_usage[i];
        assert(costs[1 + i] == usage_line(
            p.project,
            28,
            p.events,
            p.total_tokens,
            p.known_cost_usd,
        ));
    }
}

} // verus!
