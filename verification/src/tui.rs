//! The dashboard: what it shows, and how it reacts to keys.

use vstd::prelude::*;
use vstd::string::*;

use crate::agents::{dur_text, human_dur, TipView};
use crate::double::{
    count_units, difference, lemma_above_zero, lemma_counts_grow, lemma_full_level, lemma_zero,
    level_of, number, product, quotient, Double,
};
use crate::projects::{ProjectStats, ProjectView};
use crate::render::{
    ago_text, column, human_tokens, percent, percent_text, rel_time, tenths, to_column, tokens_text,
};
use crate::report::{Report, ReportView};
use crate::text::{
    align_left, align_right, chars_of, clip, clipped, dec, decimal, pad_left, pad_right, push_many,
    spaces, text_of, views,
};
use crate::tips::Tips;
use crate::usage::{
    at_most, rows_of, BloatSession, BloatView, DayPoint, DayView, DigestView, ModelDigest,
    ModelView, SourceDigest, SourceView, UsageDigest,
};

verus! {

/// How often the dashboard re-reads the daemon snapshot and tips.
pub const REFRESH_SECS: u64 = 30;

// ---------------------------------------------------------------- styled text
/// A colour of the terminal.
#[derive(Clone, Copy, Debug, PartialEq, Eq, Structural)]
pub enum Color {
    Red,
    Green,
    Yellow,
    Magenta,
    Cyan,
    DarkGray,
    Indexed(u8),
}

/// How a text is shown.
#[derive(Clone, Copy, Debug, PartialEq, Eq, Structural)]
pub struct Style {
    pub fg: Option<Color>,
    pub bg: Option<Color>,
    pub bold: bool,
}

/// No style at all.
pub open spec fn plain() -> Style {
    Style { fg: None, bg: None, bold: false }
}

/// A colour of the letters.
pub open spec fn fg(color: Color) -> Style {
    Style { fg: Some(color), bg: None, bold: false }
}

/// A colour behind the letters.
pub open spec fn bg(color: Color) -> Style {
    Style { fg: None, bg: Some(color), bold: false }
}

/// Bold letters of a colour.
pub open spec fn bold(color: Color) -> Style {
    Style { fg: Some(color), bg: None, bold: true }
}

/// A piece of text in one style.
#[derive(Debug)]
pub struct Span {
    pub text: String,
    pub style: Style,
}

/// A piece of text in one style, as a sequence of characters.
#[verifier::ext_equal]
pub struct SpanView {
    pub text: Seq<char>,
    pub style: Style,
}

impl View for Span {
    type V = SpanView;

    open spec fn view(&self) -> SpanView {
        SpanView { text: self.text@, style: self.style }
    }
}

/// A line of the dashboard.
#[derive(Debug)]
pub struct Line {
    pub spans: Vec<Span>,
}

/// A line as a row of pieces.
#[verifier::ext_equal]
pub struct LineView {
    pub spans: Seq<SpanView>,
}

impl View for Line {
    type V = LineView;

    open spec fn view(&self) -> LineView {
        LineView { spans: views(self.spans@) }
    }
}

/// A piece.
pub open spec fn piece(text: Seq<char>, style: Style) -> SpanView {
    SpanView { text, style }
}

/// A line of one piece.
pub open spec fn one(span: SpanView) -> LineView {
    LineView { spans: seq![span] }
}

/// A line of two pieces.
pub open spec fn two(first: SpanView, second: SpanView) -> LineView {
    LineView { spans: seq![first, second] }
}

fn span(text: String, fg_color: Option<Color>, is_bold: bool) -> (r: Span)
    ensures
        r@ == piece(text@, Style { fg: fg_color, bg: None, bold: is_bold }),
{
    Span { text, style: Style { fg: fg_color, bg: None, bold: is_bold } }
}

fn line_of(first: Span) -> (r: Line)
    ensures
        r@ == one(first@),
{
    let mut spans: Vec<Span> = Vec::new();
    spans.push(first);
    let r = Line { spans };
    assert(r@.spans =~= one(first@).spans);
    r
}

fn line_of_two(first: Span, second: Span) -> (r: Line)
    ensures
        r@ == two(first@, second@),
{
    let mut spans: Vec<Span> = Vec::new();
    spans.push(first);
    spans.push(second);
    let r = Line { spans };
    assert(r@.spans =~= two(first@, second@).spans);
    r
}

fn add_line(lines: &mut Vec<Line>, line: Line)
    ensures
        views(final(lines)@) == views(old(lines)@).push(line@),
{
    let ghost before = lines@;
    lines.push(line);
    assert(views(lines@) =~= views(before).push(line@));
}

// ---------------------------------------------------------------- labelled values
/// A label, in its column.
pub open spec fn label(k: Seq<char>) -> SpanView {
    piece(pad_right(k, 14), fg(Color::DarkGray))
}

/// A labelled value.
pub open spec fn kv_view(k: Seq<char>, v: Seq<char>) -> LineView {
    two(label(k), piece(v, plain()))
}

/// A labelled value in a colour.
pub open spec fn kv_color(k: Seq<char>, v: Seq<char>, color: Color) -> LineView {
    two(label(k), piece(v, fg(color)))
}

fn label_span(k: &str) -> (r: Span)
    ensures
        r@ == label(k@),
{
    span(align_left(k, 14), Some(Color::DarkGray), false)
}

fn kv(k: &str, v: String) -> (r: Line)
    ensures
        r@ == kv_view(k@, v@),
{
    line_of_two(label_span(k), span(v, None, false))
}

fn kv_colored(k: &str, v: String, color: Color) -> (r: Line)
    ensures
        r@ == kv_color(k@, v@, color),
{
    line_of_two(label_span(k), span(v, Some(color), false))
}

/// A faint line.
pub open spec fn faint(s: Seq<char>) -> LineView {
    one(piece(s, fg(Color::DarkGray)))
}

fn dim(s: &str) -> (r: Line)
    ensures
        r@ == faint(s@),
{
    line_of(span(s.to_owned(), Some(Color::DarkGray), false))
}

/// An empty line.
pub open spec fn blank() -> LineView {
    LineView { spans: Seq::empty() }
}

fn blank_line() -> (r: Line)
    ensures
        r@ == blank(),
{
    let r = Line { spans: Vec::new() };
    assert(r@.spans =~= blank().spans);
    r
}

/// A count with its digits in groups of three.
pub open spec fn grouped_digits(s: Seq<char>) -> Seq<char>
    decreases s.len(),
{
    if s.len() <= 3 {
        s
    } else {
        grouped_digits(s.take(s.len() - 3)) + ","@ + s.skip(s.len() - 3)
    }
}

/// Writes a count with its digits in groups of three.
pub fn thousands(n: u64) -> (r: String)
    ensures
        r@ == grouped_digits(dec(n as nat)),
{
    group_text(decimal(n).as_str())
}

fn group_text(s: &str) -> (r: String)
    ensures
        r@ == grouped_digits(s@),
    decreases s@.len(),
{
    let n: usize = s.unicode_len();
    if n <= 3 {
        return s.to_owned();
    }
    let v = chars_of(s);
    let front = text_of(&v, 0, n - 3);
    let back = text_of(&v, n - 3, n);
    assert(front@ =~= s@.take(n - 3));
    assert(back@ =~= s@.skip(n - 3));
    let mut r = group_text(front.as_str());
    r.append(",");
    r.append(back.as_str());
    r
}

// ---------------------------------------------------------------- the chart
/// What the braille activity chart plots; `c` cycles tokens, cost, sessions.
#[derive(Clone, Copy, Debug, PartialEq, Eq, Structural)]
pub enum ChartMode {
    Tokens,
    Cost,
    Sessions,
}

impl ChartMode {
    /// The mode after this one.
    pub open spec fn following(self) -> ChartMode {
        match self {
            ChartMode::Tokens => ChartMode::Cost,
            ChartMode::Cost => ChartMode::Sessions,
            ChartMode::Sessions => ChartMode::Tokens,
        }
    }

    /// The name of the mode.
    pub open spec fn name(self) -> Seq<char> {
        match self {
            ChartMode::Tokens => "tokens"@,
            ChartMode::Cost => "cost"@,
            ChartMode::Sessions => "sessions"@,
        }
    }

    /// What is plotted of a day.
    pub open spec fn plotted(self, d: DayView) -> Double {
        match self {
            ChartMode::Tokens => number(count_units(d.tokens)),
            ChartMode::Cost => d.cost_usd,
            ChartMode::Sessions => number(count_units(d.sessions)),
        }
    }

    /// The mode after this one.
    pub fn next(self) -> (r: ChartMode)
        ensures
            r == self.following(),
    {
        match self {
            ChartMode::Tokens => ChartMode::Cost,
            ChartMode::Cost => ChartMode::Sessions,
            ChartMode::Sessions => ChartMode::Tokens,
        }
    }

    /// The name of the mode.
    pub fn label(self) -> (r: &'static str)
        ensures
            r@ == self.name(),
    {
        match self {
            ChartMode::Tokens => "tokens",
            ChartMode::Cost => "cost",
            ChartMode::Sessions => "sessions",
        }
    }

    /// What is plotted of a day.
    pub fn value(self, d: &DayPoint) -> (r: Double)
        ensures
            r == self.plotted(d@),
    {
        match self {
            ChartMode::Tokens => Double::count(d.tokens),
            ChartMode::Cost => d.cost_usd,
            ChartMode::Sessions => Double::count(d.sessions),
        }
    }
}

/// Three steps lead round all modes and back.
pub proof fn lemma_modes_go_round(m: ChartMode)
    ensures
        m.following() != m,
        m.following().following() != m,
        m.following().following().following() == m,
{
}

/// The braille ramp.
pub open spec fn ramp(step: nat) -> char {
    if step == 0 {
        ' '
    } else if step == 1 {
        '⣀'
    } else if step == 2 {
        '⣤'
    } else if step == 3 {
        '⣶'
    } else {
        '⣿'
    }
}

fn ramp_char(step: u64) -> (r: char)
    ensures
        r == ramp(step as nat),
{
    if step == 0 {
        ' '
    } else if step == 1 {
        '⣀'
    } else if step == 2 {
        '⣤'
    } else if step == 3 {
        '⣶'
    } else {
        '⣿'
    }
}

/// What each column plots: the days spread over the width, nothing where there are no days.
pub open spec fn plotted_values(daily: Seq<DayView>, mode: ChartMode, width: nat) -> Seq<Double> {
    Seq::new(
        width,
        |col: int|
            if daily.len() == 0 {
                Double { bits: 0 }
            } else {
                mode.plotted(daily[col * daily.len() as int / width as int])
            },
    )
}

/// The largest of some values, and at least zero; what is no number is passed over.
pub open spec fn peak(vals: Seq<Double>) -> Double
    decreases vals.len(),
{
    if vals.len() == 0 {
        Double { bits: 0 }
    } else {
        let before = peak(vals.drop_last());
        if vals.last().above(before) {
            vals.last()
        } else {
            before
        }
    }
}

/// How high a value stands, in eighths of the peak, rounded.
pub open spec fn height(v: Double, top: Double) -> nat {
    if top.is_infinite() || !v.is_amount() {
        0
    } else {
        level_of(v.magnitude(), top.magnitude(), 8)
    }
}

/// The upper row of the chart.
pub open spec fn upper_row(vals: Seq<Double>, top: Double) -> Seq<char> {
    vals.map_values(
        |v: Double|
            ramp(
                if height(v, top) <= 4 {
                    0
                } else {
                    (height(v, top) - 4) as nat
                },
            ),
    )
}

/// The step of a value in the lower row: whatever is worth anything next to a finite peak shows,
/// however little it is.
pub open spec fn footing(v: Double, top: Double) -> nat {
    if height(v, top) >= 4 {
        4
    } else if height(v, top) == 0 && v.is_amount() && v.amount() > 0 && top.is_finite() {
        1
    } else {
        height(v, top)
    }
}

/// The lower row of the chart.
pub open spec fn lower_row(vals: Seq<Double>, top: Double) -> Seq<char> {
    vals.map_values(|v: Double| ramp(footing(v, top)))
}

/// The two rows of the chart: a flat baseline when there is nothing to scale, and no rows where
/// there is no room.
pub open spec fn chart_view(daily: Seq<DayView>, mode: ChartMode, width: nat) -> Seq<LineView> {
    let vals = plotted_values(daily, mode, width);
    let top = peak(vals);
    if width == 0 {
        Seq::empty()
    } else if top.amount() <= 0 {
        seq![
            one(piece(spaces(width), plain())),
            one(piece(Seq::new(width, |i: int| '⣀'), plain())),
        ]
    } else {
        seq![
            one(piece(upper_row(vals, top), plain())),
            one(piece(lower_row(vals, top), plain())),
        ]
    }
}

proof fn lemma_peak_covers(vals: Seq<Double>, i: int)
    requires
        0 <= i < vals.len(),
    ensures
        !peak(vals).is_nan(),
        peak(vals).amount() >= 0,
        !vals[i].is_nan() ==> vals[i].amount() <= peak(vals).amount(),
    decreases vals.len(),
{
    lemma_peak_is_number(vals);
    lemma_peak_is_number(vals.drop_last());
    if i < vals.len() - 1 {
        lemma_peak_covers(vals.drop_last(), i);
        assert(vals.drop_last()[i] == vals[i]);
    }
}

proof fn lemma_peak_is_number(vals: Seq<Double>)
    ensures
        !peak(vals).is_nan(),
        peak(vals).amount() >= 0,
    decreases vals.len(),
{
    if vals.len() == 0 {
        lemma_zero();
    } else {
        lemma_peak_is_number(vals.drop_last());
    }
}

/// The peak fills its column: full blocks in both rows.
pub proof fn lemma_peak_fills_its_column(daily: Seq<DayView>, mode: ChartMode, width: nat, col: int)
    requires
        0 <= col < width,
        plotted_values(daily, mode, width)[col] == peak(plotted_values(daily, mode, width)),
        peak(plotted_values(daily, mode, width)).is_finite(),
        peak(plotted_values(daily, mode, width)).amount() > 0,
    ensures
        chart_view(daily, mode, width).len() == 2,
        chart_view(daily, mode, width)[0].spans[0].text[col] == '⣿',
        chart_view(daily, mode, width)[1].spans[0].text[col] == '⣿',
{
    let vals = plotted_values(daily, mode, width);
    lemma_peak_is_number(vals);
    lemma_above_zero(peak(vals));
    lemma_full_level(peak(vals).magnitude(), 8);
}

fn column_height(v: Double, top: Double) -> (r: u64)
    requires
        !top.is_nan(),
        top.amount() > 0,
        !v.is_nan() ==> v.amount() <= top.amount(),
    ensures
        r == height(v, top),
        r <= 8,
{
    if !top.is_finite_amount() {
        proof {
            lemma_above_zero(top);
        }
        return 0;
    }
    if !v.is_finite_amount() {
        return 0;
    }
    proof {
        lemma_above_zero(top);
    }
    Double::level(v, top, 8)
}

fn column_footing(v: Double, top: Double, h: u64) -> (r: u64)
    requires
        h == height(v, top),
        !top.is_nan(),
        top.amount() > 0,
    ensures
        r == footing(v, top),
{
    if h >= 4 {
        return 4;
    }
    proof {
        lemma_zero();
        lemma_above_zero(top);
    }
    if h == 0 && v.is_finite_amount() && v.gt(Double::zero()) && top.is_finite_amount() {
        1
    } else {
        h
    }
}

/// A value that is worth anything next to a finite peak never leaves its column blank.
pub proof fn lemma_no_dead_column(vals: Seq<Double>, col: int)
    requires
        0 <= col < vals.len(),
        vals[col].amount() > 0,
        vals[col].is_finite(),
        peak(vals).is_finite(),
    ensures
        lower_row(vals, peak(vals))[col] != ' ',
{
    lemma_above_zero(vals[col]);
}

proof fn lemma_peak_stands_somewhere(vals: Seq<Double>) -> (col: int)
    requires
        peak(vals).amount() > 0,
    ensures
        0 <= col < vals.len(),
        vals[col] == peak(vals),
    decreases vals.len(),
{
    lemma_zero();
    let before = vals.drop_last();
    if vals.last().above(peak(before)) {
        vals.len() - 1
    } else {
        lemma_peak_stands_somewhere(before)
    }
}

proof fn lemma_peak_stays_finite(vals: Seq<Double>)
    requires
        forall|i: int| 0 <= i < vals.len() ==> (#[trigger] vals[i]).is_finite(),
    ensures
        peak(vals).is_finite(),
    decreases vals.len(),
{
    if vals.len() == 0 {
        lemma_zero();
    } else {
        let before = vals.drop_last();
        assert forall|i: int| 0 <= i < before.len() implies (#[trigger] before[i]).is_finite() by {
            assert(before[i] == vals[i]);
        }
        lemma_peak_stays_finite(before);
        assert(vals[vals.len() - 1].is_finite());
    }
}

/// A series without zeros fills the panel: two rows of the panel's width, the lower of which
/// reaches the full block somewhere and is blank nowhere.
pub proof fn lemma_zero_free_chart(daily: Seq<DayView>, mode: ChartMode, width: nat)
    requires
        width > 0,
        daily.len() > 0,
        forall|i: int|
            0 <= i < daily.len() ==> mode.plotted(#[trigger] daily[i]).is_finite() && mode.plotted(
                daily[i],
            ).amount() > 0,
    ensures
        chart_view(daily, mode, width).len() == 2,
        chart_view(daily, mode, width)[0].spans.len() == 1,
        chart_view(daily, mode, width)[1].spans.len() == 1,
        chart_view(daily, mode, width)[0].spans[0].text.len() == width,
        chart_view(daily, mode, width)[1].spans[0].text.len() == width,
        chart_view(daily, mode, width)[1].spans[0].text.contains('⣿'),
        !chart_view(daily, mode, width)[1].spans[0].text.contains(' '),
{
    let vals = plotted_values(daily, mode, width);
    assert forall|col: int| 0 <= col < width implies (#[trigger] vals[col]).is_finite()
        && vals[col].amount() > 0 by {
        let n = daily.len() as int;
        let w = width as int;
        assert(0 <= col * n < w * n) by (nonlinear_arith)
            requires
                0 <= col < w,
                n > 0,
        ;
        assert(0 <= col * n / w < n) by (nonlinear_arith)
            requires
                0 <= col * n < w * n,
                w > 0,
        ;
        assert(vals[col] == mode.plotted(daily[col * n / w]));
    }
    lemma_peak_stays_finite(vals);
    assert(vals[0].amount() > 0);
    lemma_peak_covers(vals, 0);
    let top = lemma_peak_stands_somewhere(vals);
    lemma_peak_fills_its_column(daily, mode, width, top);
    let lower = chart_view(daily, mode, width)[1].spans[0].text;
    assert(lower == lower_row(vals, peak(vals)));
    assert(lower[top] == '⣿');
    assert forall|col: int| 0 <= col < width implies lower[col] != ' ' by {
        assert(vals[col].is_finite());
        lemma_no_dead_column(vals, col);
    }
}

/// Two-row braille area chart over the daily series, bucketed to the panel width. Flat `⣀`
/// baseline when there is nothing to scale.
pub fn chart_lines(daily: &Vec<DayPoint>, mode: ChartMode, width: usize) -> (r: Vec<Line>)
    ensures
        views(r@) == chart_view(views(daily@), mode, width as nat),
{
    let mut lines: Vec<Line> = Vec::new();
    if width == 0 {
        assert(views(lines@) =~= Seq::<LineView>::empty());
        return lines;
    }
    let ghost days = views(daily@);
    let ghost all = plotted_values(days, mode, width as nat);
    let mut vals: Vec<Double> = Vec::new();
    let mut top = Double::zero();
    let mut col: usize = 0;
    let n: usize = daily.len();
    while col < width
        invariant
            col <= width,
            width > 0,
            n == daily@.len(),
            days == views(daily@),
            all == plotted_values(days, mode, width as nat),
            vals@ =~= all.take(col as int),
            top == peak(vals@),
        decreases width - col,
    {
        let ghost before = vals@;
        let v = if n == 0 {
            Double::zero()
        } else {
            proof {
                let c = col as int;
                let m = n as int;
                let w = width as int;
                assert(0 <= c * m < w * m) by (nonlinear_arith)
                    requires
                        0 <= c < w,
                        m > 0,
                ;
                assert(0 <= c * m / w < m) by (nonlinear_arith)
                    requires
                        0 <= c * m < w * m,
                        w > 0,
                ;
                assert(c * m <= u128::MAX) by (nonlinear_arith)
                    requires
                        0 <= c <= u64::MAX,
                        0 <= m <= u64::MAX,
                ;
            }
            let at: u128 = (col as u128) * (n as u128) / (width as u128);
            let day = &daily[at as usize];
            assert(days[at as int] == day@);
            mode.value(day)
        };
        vals.push(v);
        assert(vals@.drop_last() =~= before);
        assert(v == all[col as int]);
        if v.gt(top) {
            top = v;
        }
        col = col + 1;
    }
    assert(vals@ =~= all);
    proof {
        lemma_peak_is_number(all);
        lemma_zero();
    }
    if !top.gt(Double::zero()) {
        let mut upper = String::new();
        push_many(&mut upper, ' ', width);
        let mut lower = String::new();
        push_many(&mut lower, '⣀', width);
        assert(upper@ =~= spaces(width as nat));
        assert(lower@ =~= Seq::new(width as nat, |i: int| '⣀'));
        lines.push(line_of(span(upper, None, false)));
        lines.push(line_of(span(lower, None, false)));
        assert(views(lines@) =~= chart_view(days, mode, width as nat));
        return lines;
    }
    let mut upper = String::new();
    let mut lower = String::new();
    let mut i: usize = 0;
    while i < vals.len()
        invariant
            i <= vals@.len(),
            vals@ == all,
            top == peak(all),
            !top.is_nan(),
            top.amount() > 0,
            upper@ =~= upper_row(all, top).take(i as int),
            lower@ =~= lower_row(all, top).take(i as int),
        decreases vals@.len() - i,
    {
        proof {
            lemma_peak_covers(all, i as int);
        }
        let h: u64 = column_height(vals[i], top);
        upper.push(
            ramp_char(
                if h <= 4 {
                    0
                } else {
                    h - 4
                },
            ),
        );
        lower.push(ramp_char(column_footing(vals[i], top, h)));
        i = i + 1;
    }
    assert(upper@ =~= upper_row(all, top));
    assert(lower@ =~= lower_row(all, top));
    lines.push(line_of(span(upper, None, false)));
    lines.push(line_of(span(lower, None, false)));
    assert(views(lines@) =~= chart_view(days, mode, width as nat));
    lines
}

// ---------------------------------------------------------------- the heatmap
/// The largest cell of a row.
pub open spec fn row_peak(row: Seq<u64>) -> u64
    decreases row.len(),
{
    if row.len() == 0 {
        0
    } else {
        let before = row_peak(row.drop_last());
        if row.last() > before {
            row.last()
        } else {
            before
        }
    }
}

/// The largest cell of a grid.
pub open spec fn grid_peak(grid: Seq<Seq<u64>>) -> u64
    decreases grid.len(),
{
    if grid.len() == 0 {
        0
    } else {
        let before = grid_peak(grid.drop_last());
        let here = row_peak(grid.last());
        if here > before {
            here
        } else {
            before
        }
    }
}

/// How strongly a cell is shaded, in five steps.
pub open spec fn shade(v: u64, max: u64) -> nat {
    if max == 0 || v == 0 {
        0
    } else {
        let step = level_of(count_units(v), count_units(max), 3);
        if step >= 3 {
            4
        } else {
            1 + step
        }
    }
}

/// The five steps of the ramp.
pub open spec fn heat_color(step: nat) -> Color {
    if step == 0 {
        Color::Indexed(236)
    } else if step == 1 {
        Color::Indexed(22)
    } else if step == 2 {
        Color::Indexed(28)
    } else if step == 3 {
        Color::Indexed(34)
    } else {
        Color::Indexed(40)
    }
}

/// The cell of an hour.
pub open spec fn heat_cell(v: u64, max: u64) -> SpanView {
    piece(" "@, bg(heat_color(shade(v, max))))
}

/// The row of a day, `age` days ago.
pub open spec fn heat_line(hours: Seq<u64>, age: nat, max: u64) -> LineView {
    LineView {
        spans: seq![piece("-"@ + dec(age) + "d "@, fg(Color::DarkGray))] + hours.map_values(
            |v: u64| heat_cell(v, max),
        ),
    }
}

/// A row without data.
pub open spec fn empty_heat_line() -> LineView {
    two(piece("-d "@, fg(Color::DarkGray)), piece(spaces(24), plain()))
}

/// The rows of the heatmap: one for each day of the grid, and seven at least.
pub open spec fn heat_view(grid: Seq<Seq<u64>>) -> Seq<LineView> {
    Seq::new(
        grid.len(),
        |i: int| heat_line(grid[i], (grid.len() - i - 1) as nat, grid_peak(grid)),
    ) + Seq::new(
        if grid.len() < 7 {
            (7 - grid.len()) as nat
        } else {
            0
        },
        |i: int| empty_heat_line(),
    )
}

fn peak_of_row(row: &[u64; 24]) -> (r: u64)
    ensures
        r == row_peak(row@),
{
    let mut max: u64 = 0;
    let mut i: usize = 0;
    while i < 24
        invariant
            i <= 24,
            row@.len() == 24,
            max == row_peak(row@.take(i as int)),
        decreases 24 - i,
    {
        assert(row@.take(i + 1).drop_last() =~= row@.take(i as int));
        if row[i] > max {
            max = row[i];
        }
        i = i + 1;
    }
    assert(row@.take(24) =~= row@);
    max
}

proof fn lemma_row_peak(row: Seq<u64>, i: int)
    requires
        0 <= i < row.len(),
    ensures
        row[i] <= row_peak(row),
    decreases row.len(),
{
    if i < row.len() - 1 {
        lemma_row_peak(row.drop_last(), i);
    }
}

proof fn lemma_grid_peak(grid: Seq<Seq<u64>>, i: int)
    requires
        0 <= i < grid.len(),
    ensures
        row_peak(grid[i]) <= grid_peak(grid),
    decreases grid.len(),
{
    if i < grid.len() - 1 {
        lemma_grid_peak(grid.drop_last(), i);
        assert(grid.drop_last()[i] == grid[i]);
    }
}

/// The busiest hour has the strongest shade, and an hour without tokens none.
pub proof fn lemma_busiest_hour_is_hottest(max: u64)
    requires
        max > 0,
    ensures
        heat_color(shade(max, max)) == Color::Indexed(40),
        heat_color(shade(0, max)) == Color::Indexed(236),
{
    lemma_counts_grow(max, max);
    lemma_full_level(count_units(max), 3);
}

fn shade_color(v: u64, max: u64) -> (r: Color)
    requires
        v <= max,
    ensures
        r == heat_color(shade(v, max)),
{
    if v == 0 {
        return Color::Indexed(236);
    }
    proof {
        lemma_counts_grow(v, max);
    }
    let step: u64 = Double::level(Double::count(v), Double::count(max), 3);
    if step == 0 {
        Color::Indexed(22)
    } else if step == 1 {
        Color::Indexed(28)
    } else if step == 2 {
        Color::Indexed(34)
    } else {
        Color::Indexed(40)
    }
}

fn heat_row_line(hours: &[u64; 24], age: u64, max: u64) -> (r: Line)
    requires
        row_peak(hours@) <= max,
    ensures
        r@ == heat_line(hours@, age as nat, max),
{
    let mut head = "-".to_owned();
    head.append(decimal(age).as_str());
    head.append("d ");
    let first = span(head, Some(Color::DarkGray), false);
    let ghost lead = first@;
    let ghost cells = hours@.map_values(|v: u64| heat_cell(v, max));
    let mut spans: Vec<Span> = Vec::new();
    spans.push(first);
    let mut i: usize = 0;
    while i < 24
        invariant
            i <= 24,
            hours@.len() == 24,
            row_peak(hours@) <= max,
            cells == hours@.map_values(|v: u64| heat_cell(v, max)),
            views(spans@) =~= seq![lead] + cells.take(i as int),
        decreases 24 - i,
    {
        proof {
            lemma_row_peak(hours@, i as int);
        }
        let ghost before = spans@;
        let cell = Span {
            text: " ".to_owned(),
            style: Style { fg: None, bg: Some(shade_color(hours[i], max)), bold: false },
        };
        spans.push(cell);
        assert(views(spans@) =~= views(before).push(cells[i as int]));
        i = i + 1;
    }
    let r = Line { spans };
    assert(r@.spans =~= heat_line(hours@, age as nat, max).spans);
    r
}

/// 7x24 token-intensity grid for the last seven local days; cells are spaces shaded by a
/// five-step background ramp.
pub fn heatmap_lines(grid: &Vec<[u64; 24]>) -> (r: Vec<Line>)
    ensures
        views(r@) == heat_view(rows_of(grid@)),
{
    let ghost rows = rows_of(grid@);
    let mut max: u64 = 0;
    let mut i: usize = 0;
    while i < grid.len()
        invariant
            i <= grid@.len(),
            rows == rows_of(grid@),
            max == grid_peak(rows.take(i as int)),
        decreases grid@.len() - i,
    {
        assert(rows.take(i + 1).drop_last() =~= rows.take(i as int));
        assert(rows.take(i + 1).last() == grid@[i as int]@);
        let here: u64 = peak_of_row(&grid[i]);
        if here > max {
            max = here;
        }
        i = i + 1;
    }
    assert(rows.take(i as int) =~= rows);
    let mut lines: Vec<Line> = Vec::new();
    let n: usize = grid.len();
    let mut k: usize = 0;
    while k < n
        invariant
            k <= n == grid@.len(),
            rows == rows_of(grid@),
            max == grid_peak(rows),
            views(lines@) =~= heat_view(rows).take(k as int),
        decreases n - k,
    {
        proof {
            lemma_grid_peak(rows, k as int);
            assert(rows[k as int] == grid@[k as int]@);
        }
        let line = heat_row_line(&grid[k], (n - k - 1) as u64, max);
        add_line(&mut lines, line);
        k = k + 1;
    }
    while k < 7
        invariant
            n <= k,
            k <= 7 || k == n,
            n == rows.len(),
            views(lines@) =~= heat_view(rows).take(k as int),
        decreases 7 - k,
    {
        let mut gap = String::new();
        push_many(&mut gap, ' ', 24);
        assert(gap@ =~= spaces(24));
        let line = line_of_two(
            span("-d ".to_owned(), Some(Color::DarkGray), false),
            span(gap, None, false),
        );
        add_line(&mut lines, line);
        k = k + 1;
    }
    assert(views(lines@) =~= heat_view(rows));
    lines
}

// ---------------------------------------------------------------- header, tips, sessions, footer
/// The top line.
pub open spec fn header_view(rep: ReportView, now_ms: u64) -> LineView {
    two(
        piece(" herdr analytics"@, bold(Color::Magenta)),
        piece(
            "  "@ + (if rep.since_ms is Some {
                "last 30d"@
            } else {
                "all history"@
            }) + " · updated "@ + ago_text(rep.generated_at_ms, now_ms),
            plain(),
        ),
    )
}

/// The top line.
pub fn header_line(rep: &Report, now_ms: u64) -> (r: Line)
    ensures
        r@ == header_view(rep@, now_ms),
{
    let mut text = "  ".to_owned();
    text.append(if rep.since_ms.is_some() {
        "last 30d"
    } else {
        "all history"
    });
    text.append(" · updated ");
    text.append(rel_time(rep.generated_at_ms, now_ms).as_str());
    line_of_two(
        span(" herdr analytics".to_owned(), Some(Color::Magenta), true),
        span(text, None, false),
    )
}

/// The line of a tip.
pub open spec fn tip_view(t: TipView) -> LineView {
    if t.urgent {
        two(piece(" ! "@, bold(Color::Red)), piece(t.message, plain()))
    } else {
        two(piece(" · "@, bold(Color::Yellow)), piece(t.message, plain()))
    }
}

/// The lines of the tips.
pub fn tips_lines(live: &Tips) -> (r: Vec<Line>)
    ensures
        views(r@) == live@.items.map_values(|t: TipView| tip_view(t)),
{
    let ghost all = live@.items.map_values(|t: TipView| tip_view(t));
    let mut lines: Vec<Line> = Vec::new();
    let mut i: usize = 0;
    while i < live.items.len()
        invariant
            i <= live.items@.len(),
            all == live@.items.map_values(|t: TipView| tip_view(t)),
            views(lines@) =~= all.take(i as int),
        decreases live.items@.len() - i,
    {
        let t = &live.items[i];
        assert(live@.items[i as int] == t@);
        let line = if t.urgent {
            line_of_two(
                span(" ! ".to_owned(), Some(Color::Red), true),
                span(t.message.clone(), None, false),
            )
        } else {
            line_of_two(
                span(" · ".to_owned(), Some(Color::Yellow), true),
                span(t.message.clone(), None, false),
            )
        };
        add_line(&mut lines, line);
        i = i + 1;
    }
    assert(views(lines@) =~= all);
    lines
}

/// How many rows the tips take: none where there are no tips, else one more than there are, as far
/// as 16 bits tell.
pub fn tips_height(live: &Tips) -> (r: u16)
    requires
        live.items@.len() % 65_536 != 65_535,
    ensures
        r == (if live.items@.len() == 0 {
            0
        } else {
            live.items@.len() % 65_536 + 1
        }),
{
    if live.items.len() == 0 {
        0
    } else {
        (live.items.len() % 65_536) as u16 + 1
    }
}

/// The cells of a project.
pub open spec fn session_cells(p: ProjectView, now_ms: u64) -> Seq<Seq<char>> {
    seq![
        p.project,
        dec(p.sessions as nat),
        dec(p.messages as nat),
        tenths(p.active_ms, 3_600_000),
        ago_text(p.last_at_ms, now_ms),
    ]
}

/// The cells of a project, for the table of sessions.
fn session_row(p: &ProjectStats, now_ms: u64) -> (r: Vec<String>)
    ensures
        views(r@) == session_cells(p@, now_ms),
{
    let mut r: Vec<String> = Vec::new();
    r.push(p.project.clone());
    r.push(decimal(p.sessions));
    r.push(decimal(p.messages));
    r.push(Double::ratio(p.active_ms, 3_600_000).fixed(1));
    r.push(rel_time(p.last_at_ms, now_ms));
    assert(views(r@) =~= session_cells(p@, now_ms));
    r
}

/// A row of a table.
#[derive(Debug)]
pub struct TableRow {
    pub cells: Vec<String>,
    pub style: Style,
}

/// A row of a table with its texts as sequences of characters.
#[verifier::ext_equal]
pub struct TableRowView {
    pub cells: Seq<Seq<char>>,
    pub style: Style,
}

impl View for TableRow {
    type V = TableRowView;

    open spec fn view(&self) -> TableRowView {
        TableRowView { cells: views(self.cells@), style: self.style }
    }
}

/// The table of sessions: a row for each project, the selected one on a dark ground.
pub open spec fn table_view(projects: Seq<ProjectView>, selected: nat, now_ms: u64) -> Seq<
    TableRowView,
> {
    Seq::new(
        projects.len(),
        |i: int|
            TableRowView {
                cells: session_cells(projects[i], now_ms),
                style: if i == selected {
                    bg(Color::DarkGray)
                } else {
                    plain()
                },
            },
    )
}

/// The table of sessions.
pub fn sessions_table(projects: &Vec<ProjectStats>, selected: usize, now_ms: u64) -> (r: Vec<
    TableRow,
>)
    ensures
        views(r@) == table_view(views(projects@), selected as nat, now_ms),
{
    let ghost all = table_view(views(projects@), selected as nat, now_ms);
    let mut rows: Vec<TableRow> = Vec::new();
    let mut i: usize = 0;
    while i < projects.len()
        invariant
            i <= projects@.len(),
            all == table_view(views(projects@), selected as nat, now_ms),
            views(rows@) =~= all.take(i as int),
        decreases projects@.len() - i,
    {
        let ghost before = rows@;
        let ground = if i == selected {
            Some(Color::DarkGray)
        } else {
            None
        };
        let row = TableRow {
            cells: session_row(&projects[i], now_ms),
            style: Style { fg: None, bg: ground, bold: false },
        };
        rows.push(row);
        assert(views(rows@) =~= views(before).push(all[i as int]));
        i = i + 1;
    }
    assert(views(rows@) =~= all);
    rows
}

/// The title of the table of sessions: the selected row and how many there are.
pub open spec fn sessions_title_text(selected: nat, count: nat) -> Seq<char> {
    " Sessions "@ + dec(if count == 0 {
        0
    } else {
        selected + 1
    }) + "/"@ + dec(count) + " "@
}

/// The title of the table of sessions.
pub fn sessions_title(selected: usize, count: usize) -> (r: String)
    requires
        count > 0 ==> selected < usize::MAX,
    ensures
        r@ == sessions_title_text(selected as nat, count as nat),
{
    let shown: u64 = if count == 0 {
        0
    } else {
        (selected + 1) as u64
    };
    let mut r = " Sessions ".to_owned();
    r.append(decimal(shown).as_str());
    r.append("/");
    r.append(decimal(count as u64).as_str());
    r.append(" ");
    r
}

/// The title of the chart.
pub fn chart_title(mode: ChartMode) -> (r: String)
    ensures
        r@ == " Activity · "@ + mode.name() + " "@,
{
    let mut r = " Activity · ".to_owned();
    r.append(mode.label());
    r.append(" ");
    r
}

/// The bottom line.
pub open spec fn footer_view() -> LineView {
    LineView {
        spans: seq![
            piece(" q"@, fg(Color::Magenta)),
            piece(" quit  "@, plain()),
            piece("j/k"@, fg(Color::Magenta)),
            piece(" move  "@, plain()),
            piece("c"@, fg(Color::Magenta)),
            piece(" chart mode  "@, plain()),
            piece("r"@, fg(Color::Magenta)),
            piece(" rescan now"@, plain()),
        ],
    }
}

/// The bottom line.
pub fn footer_line() -> (r: Line)
    ensures
        r@ == footer_view(),
{
    let mut spans: Vec<Span> = Vec::new();
    spans.push(span(" q".to_owned(), Some(Color::Magenta), false));
    spans.push(span(" quit  ".to_owned(), None, false));
    spans.push(span("j/k".to_owned(), Some(Color::Magenta), false));
    spans.push(span(" move  ".to_owned(), None, false));
    spans.push(span("c".to_owned(), Some(Color::Magenta), false));
    spans.push(span(" chart mode  ".to_owned(), None, false));
    spans.push(span("r".to_owned(), Some(Color::Magenta), false));
    spans.push(span(" rescan now".to_owned(), None, false));
    let r = Line { spans };
    assert(r@.spans =~= footer_view().spans);
    r
}

// ---------------------------------------------------------------- the state of affairs
/// An amount of money with its sign.
pub open spec fn signed_usd_text(d: Double) -> Seq<char> {
    if d.is_nan() {
        "$NaN"@
    } else if d.negative() {
        "-$"@ + d.size_text(2)
    } else {
        "+$"@ + d.size_text(2)
    }
}

/// Writes an amount of money with its sign.
pub fn signed_usd(d: Double) -> (r: String)
    ensures
        r@ == signed_usd_text(d),
{
    if d.is_undefined() {
        return "$NaN".to_owned();
    }
    let mut r = if d.is_negative() {
        "-$".to_owned()
    } else {
        "+$".to_owned()
    };
    r.append(d.size(2).as_str());
    r
}

/// The line of the spend, if anything is known of it.
pub open spec fn spend_part(rep: ReportView) -> Seq<LineView> {
    let burn: Seq<SpanView> = match rep.burn_rate_usd_per_hr {
        Some(b) => seq![piece("burn $"@ + b.text(2) + "/hr"@, plain())],
        None => Seq::empty(),
    };
    let today: Seq<SpanView> = match rep.today_cost_usd {
        Some(t) => seq![piece("today $"@ + t.text(2), plain())],
        None => Seq::empty(),
    };
    if burn.len() + today.len() == 0 {
        Seq::empty()
    } else {
        seq![LineView { spans: seq![label("spend"@)] + burn + today }]
    }
}

/// How the cost compares with that of the prior window.
pub open spec fn change_text(cost: Double, prior: Double) -> Seq<char> {
    let delta = difference(cost, prior);
    signed_usd_text(delta) + (if prior.above(Double { bits: 0 }) {
        " ("@ + product(quotient(delta, prior), 100).signed_text(1) + "%)"@
    } else {
        Seq::empty()
    })
}

/// The line of the comparison with the prior window, if there is one.
pub open spec fn change_part(rep: ReportView) -> Seq<LineView> {
    if rep.usage is Some && rep.wow is Some {
        let cost = rep.usage->0.known_cost_usd;
        let prior = rep.wow->0.cost_usd;
        seq![
            kv_color(
                "vs prior"@,
                change_text(cost, prior),
                if difference(cost, prior).above(Double { bits: 0 }) {
                    Color::Red
                } else {
                    Color::Green
                },
            ),
        ]
    } else {
        Seq::empty()
    }
}

/// The line of the fleet, if it was sampled.
pub open spec fn fleet_part(rep: ReportView) -> Seq<LineView> {
    match rep.fleet {
        Some(f) => seq![
            kv_color(
                "fleet"@,
                dec(f.working as nat) + " working · "@ + dec(f.blocked as nat) + " blocked · "@ + dec(
                    f.idle as nat,
                ) + " idle"@,
                if f.blocked > 0 {
                    Color::Red
                } else {
                    Color::Green
                },
            ),
        ],
        None => Seq::empty(),
    }
}

/// A percentile, if there is one.
pub open spec fn span_text(ms: Option<u64>) -> Seq<char> {
    match ms {
        Some(ms) => dur_text(ms),
        None => "n/a"@,
    }
}

/// The line of the turns, if there are any.
pub open spec fn turns_part(rep: ReportView) -> Seq<LineView> {
    match rep.turns {
        Some(t) => seq![
            kv_view(
                "turns"@,
                dec(t.completed as nat) + " · p50 "@ + span_text(t.p50_ms) + " · p95 "@ + span_text(
                    t.p95_ms,
                ) + (match t.intervention_rate {
                    Some(share) => " · IR "@ + percent_text(share, 0) + "%"@,
                    None => Seq::empty(),
                }),
            ),
        ],
        None => Seq::empty(),
    }
}

/// The state of affairs.
pub open spec fn status_view(rep: ReportView) -> Seq<LineView> {
    spend_part(rep) + change_part(rep) + fleet_part(rep) + turns_part(rep)
}

fn add_spend(lines: &mut Vec<Line>, rep: &Report)
    ensures
        views(final(lines)@) == views(old(lines)@) + spend_part(rep@),
{
    let ghost start = views(lines@);
    let mut spans: Vec<Span> = Vec::new();
    spans.push(label_span("spend"));
    match rep.burn_rate_usd_per_hr {
        Some(b) => {
            let mut text = "burn $".to_owned();
            text.append(b.fixed(2).as_str());
            text.append("/hr");
            spans.push(span(text, None, false));
        },
        None => {},
    }
    match rep.today_cost_usd {
        Some(t) => {
            let mut text = "today $".to_owned();
            text.append(t.fixed(2).as_str());
            spans.push(span(text, None, false));
        },
        None => {},
    }
    if spans.len() > 1 {
        let line = Line { spans };
        assert(line@.spans =~= spend_part(rep@)[0].spans);
        add_line(lines, line);
        assert(views(lines@) =~= start + spend_part(rep@));
    } else {
        assert(views(lines@) =~= start + spend_part(rep@));
    }
}

fn add_change(lines: &mut Vec<Line>, rep: &Report)
    ensures
        views(final(lines)@) == views(old(lines)@) + change_part(rep@),
{
    let ghost start = views(lines@);
    match (&rep.usage, rep.wow) {
        (Some(u), Some(wow)) => {
            let cost = u.known_cost_usd;
            let prior = wow.cost_usd;
            let delta = Double::minus(cost, prior);
            let mut text = signed_usd(delta);
            if prior.gt(Double::zero()) {
                proof {
                    lemma_zero();
                    lemma_above_zero(prior);
                }
                let share = delta.over(prior).times(100);
                let mut tail = " (".to_owned();
                tail.append(share.signed(1).as_str());
                tail.append("%)");
                text.append(tail.as_str());
            } else {
                assert(text@ =~= change_text(cost, prior));
            }
            let color = if delta.gt(Double::zero()) {
                Color::Red
            } else {
                Color::Green
            };
            add_line(lines, kv_colored("vs prior", text, color));
            assert(views(lines@) =~= start + change_part(rep@));
        },
        _ => {
            assert(views(lines@) =~= start + change_part(rep@));
        },
    }
}

fn add_fleet(lines: &mut Vec<Line>, rep: &Report)
    ensures
        views(final(lines)@) == views(old(lines)@) + fleet_part(rep@),
{
    let ghost start = views(lines@);
    match &rep.fleet {
        Some(f) => {
            let mut text = decimal(f.working);
            text.append(" working · ");
            text.append(decimal(f.blocked).as_str());
            text.append(" blocked · ");
            text.append(decimal(f.idle).as_str());
            text.append(" idle");
            let color = if f.blocked > 0 {
                Color::Red
            } else {
                Color::Green
            };
            add_line(lines, kv_colored("fleet", text, color));
            assert(views(lines@) =~= start + fleet_part(rep@));
        },
        None => {
            assert(views(lines@) =~= start + fleet_part(rep@));
        },
    }
}

fn write_span(ms: Option<u64>) -> (r: String)
    ensures
        r@ == span_text(ms),
{
    match ms {
        Some(ms) => human_dur(ms),
        None => "n/a".to_owned(),
    }
}

fn add_turns(lines: &mut Vec<Line>, rep: &Report)
    ensures
        views(final(lines)@) == views(old(lines)@) + turns_part(rep@),
{
    let ghost start = views(lines@);
    match &rep.turns {
        Some(t) => {
            let mut text = decimal(t.completed);
            text.append(" · p50 ");
            text.append(write_span(t.p50_ms).as_str());
            text.append(" · p95 ");
            text.append(write_span(t.p95_ms).as_str());
            let mut tail = String::new();
            match t.intervention_rate {
                Some(share) => {
                    tail = " · IR ".to_owned();
                    tail.append(percent(share, 0).as_str());
                    tail.append("%");
                },
                None => {
                    assert(tail@ =~= Seq::<char>::empty());
                },
            }
            text.append(tail.as_str());
            add_line(lines, kv("turns", text));
            assert(views(lines@) =~= start + turns_part(rep@));
        },
        None => {
            assert(views(lines@) =~= start + turns_part(rep@));
        },
    }
}

/// The state of affairs: the spend, how it compares, the fleet and the turns, as far as they are
/// known.
pub fn status_lines(rep: &Report) -> (r: Vec<Line>)
    ensures
        views(r@) == status_view(rep@),
{
    let mut lines: Vec<Line> = Vec::new();
    assert(views(lines@) =~= Seq::<LineView>::empty());
    add_spend(&mut lines, rep);
    add_change(&mut lines, rep);
    add_fleet(&mut lines, rep);
    add_turns(&mut lines, rep);
    assert(views(lines@) =~= status_view(rep@));
    lines
}

// ---------------------------------------------------------------- token usage
/// 0.60.
pub const GOOD_HIT_RATE: u64 = 0x3FE3_3333_3333_3333;

/// 0.30.
pub const FAIR_HIT_RATE: u64 = 0x3FD3_3333_3333_3333;

/// The colour of a hit rate.
pub open spec fn hit_color(share: Double) -> Color {
    if share.reaches(Double { bits: GOOD_HIT_RATE }) {
        Color::Green
    } else if share.reaches(Double { bits: FAIR_HIT_RATE }) {
        Color::Yellow
    } else {
        Color::Red
    }
}

/// The line of the hit rate.
pub open spec fn hit_view(u: DigestView) -> LineView {
    match u.cache_hit_rate {
        Some(share) => kv_color(
            "hit-rate"@,
            percent_text(share, 1) + "% of "@ + tokens_text(u.input_tokens) + " prompt tokens"@,
            hit_color(share),
        ),
        None => kv_view("hit-rate"@, "n/a"@),
    }
}

/// The line of the reasoning tokens, if there are any.
pub open spec fn reasoning_part(rep: ReportView) -> Seq<LineView> {
    if rep.reasoning_tokens > 0 {
        seq![
            kv_view(
                "reasoning"@,
                tokens_text(rep.reasoning_tokens) + " tokens"@ + (match rep.reasoning_share {
                    Some(share) => " ("@ + percent_text(share, 1) + "% of output)"@,
                    None => Seq::empty(),
                }),
            ),
        ]
    } else {
        Seq::empty()
    }
}

/// The lines of the cache waste.
pub open spec fn waste_part(u: DigestView) -> Seq<LineView> {
    seq![
        blank(),
        one(piece("cache waste"@, bold(Color::Red))),
        kv_color("  tokens"@, tokens_text(u.missed_tokens), Color::Red),
        kv_color("  wasted cost"@, "$"@ + u.missed_cost_usd.text(2), Color::Red),
        kv_view("  misses"@, grouped_digits(dec(u.miss_count as nat))),
        kv_view("  after idle"@, grouped_digits(dec(u.idle_misses as nat))),
        kv_view("  switches"@, grouped_digits(dec(u.model_switch_misses as nat))),
    ]
}

/// The line of the worst bloating session, if there is one.
pub open spec fn bloat_part(sessions: Seq<BloatView>) -> Seq<LineView> {
    if sessions.len() == 0 {
        Seq::empty()
    } else {
        let b = sessions[0];
        seq![
            kv_color(
                "bloat"@,
                clipped(b.session_id, 12) + " ("@ + b.project + ") at "@ + tokens_text(
                    b.last_uncached_input,
                ) + " uncached"@,
                Color::Yellow,
            ),
        ]
    }
}

/// What a source or a model used.
pub open spec fn used_view(name: Seq<char>, tokens: u64, cost: Double) -> LineView {
    two(
        piece(name, fg(Color::Cyan)),
        piece(pad_left(tokens_text(tokens), 8) + "  $"@ + cost.text(2), plain()),
    )
}

/// The lines of the sources.
pub open spec fn sources_part(sources: Seq<SourceView>) -> Seq<LineView> {
    sources.map_values(
        |s: SourceView| used_view(pad_right(s.source, 8), s.total_tokens, s.known_cost_usd),
    )
}

/// The lines of the first three models, if there are any.
pub open spec fn top_models_part(models: Seq<ModelView>) -> Seq<LineView> {
    if models.len() == 0 {
        Seq::empty()
    } else {
        seq![blank(), one(piece("top models"@, bold(Color::Cyan)))] + at_most(models, 3).map_values(
            |m: ModelView| used_view(column(m.model, 14), m.total_tokens, m.known_cost_usd),
        )
    }
}

/// The lines of a digest.
pub open spec fn digest_part(u: DigestView, rep: ReportView) -> Seq<LineView> {
    seq![
        kv_view("events"@, grouped_digits(dec(u.events as nat))),
        kv_view("tokens"@, tokens_text(u.total_tokens)),
        kv_color("cost"@, "$"@ + u.known_cost_usd.text(2), Color::Green),
        hit_view(u),
    ] + reasoning_part(rep) + waste_part(u) + bloat_part(rep.bloating_sessions) + seq![blank()]
        + sources_part(u.by_source) + top_models_part(u.by_model)
}

/// The lines of the usage panel.
pub open spec fn usage_view(rep: ReportView) -> Seq<LineView> {
    let head = status_view(rep) + (if status_view(rep).len() == 0 {
        Seq::empty()
    } else {
        seq![blank()]
    });
    head + match rep.usage {
        Some(u) => digest_part(u, rep),
        None => seq![faint("token usage unavailable"@)] + match rep.usage_note {
            Some(note) => seq![faint(note)],
            None => Seq::empty(),
        },
    }
}

fn hit_line(u: &UsageDigest) -> (r: Line)
    ensures
        r@ == hit_view(u@),
{
    match u.cache_hit_rate {
        Some(share) => {
            let color = if share.ge(Double { bits: GOOD_HIT_RATE }) {
                Color::Green
            } else if share.ge(Double { bits: FAIR_HIT_RATE }) {
                Color::Yellow
            } else {
                Color::Red
            };
            let mut text = percent(share, 1);
            text.append("% of ");
            text.append(human_tokens(u.input_tokens).as_str());
            text.append(" prompt tokens");
            kv_colored("hit-rate", text, color)
        },
        None => kv("hit-rate", "n/a".to_owned()),
    }
}

fn dollars(d: Double) -> (r: String)
    ensures
        r@ == "$"@ + d.text(2),
{
    let mut r = "$".to_owned();
    r.append(d.fixed(2).as_str());
    r
}

fn add_reasoning(lines: &mut Vec<Line>, rep: &Report)
    ensures
        views(final(lines)@) == views(old(lines)@) + reasoning_part(rep@),
{
    let ghost start = views(lines@);
    if rep.reasoning_tokens > 0 {
        let mut text = human_tokens(rep.reasoning_tokens);
        text.append(" tokens");
        let mut tail = String::new();
        match rep.reasoning_share {
            Some(share) => {
                tail = " (".to_owned();
                tail.append(percent(share, 1).as_str());
                tail.append("% of output)");
            },
            None => {
                assert(tail@ =~= Seq::<char>::empty());
            },
        }
        text.append(tail.as_str());
        add_line(lines, kv("reasoning", text));
    }
    assert(views(lines@) =~= start + reasoning_part(rep@));
}

fn add_waste(lines: &mut Vec<Line>, u: &UsageDigest)
    ensures
        views(final(lines)@) == views(old(lines)@) + waste_part(u@),
{
    let ghost start = views(lines@);
    add_line(lines, blank_line());
    add_line(lines, line_of(span("cache waste".to_owned(), Some(Color::Red), true)));
    add_line(lines, kv_colored("  tokens", human_tokens(u.missed_tokens), Color::Red));
    add_line(lines, kv_colored("  wasted cost", dollars(u.missed_cost_usd), Color::Red));
    add_line(lines, kv("  misses", thousands(u.miss_count)));
    add_line(lines, kv("  after idle", thousands(u.idle_misses)));
    add_line(lines, kv("  switches", thousands(u.model_switch_misses)));
    assert(views(lines@) =~= start + waste_part(u@));
}

fn add_bloat(lines: &mut Vec<Line>, sessions: &Vec<BloatSession>)
    ensures
        views(final(lines)@) == views(old(lines)@) + bloat_part(views(sessions@)),
{
    let ghost start = views(lines@);
    if sessions.len() > 0 {
        let b = &sessions[0];
        assert(views(sessions@)[0] == b@);
        let mut text = clip(b.session_id.as_str(), 12);
        text.append(" (");
        text.append(b.project.as_str());
        text.append(") at ");
        text.append(human_tokens(b.last_uncached_input).as_str());
        text.append(" uncached");
        add_line(lines, kv_colored("bloat", text, Color::Yellow));
    }
    assert(views(lines@) =~= start + bloat_part(views(sessions@)));
}

fn used_line(name: String, tokens: u64, cost: Double) -> (r: Line)
    ensures
        r@ == used_view(name@, tokens, cost),
{
    let mut text = align_right(human_tokens(tokens).as_str(), 8);
    text.append("  $");
    text.append(cost.fixed(2).as_str());
    line_of_two(span(name, Some(Color::Cyan), false), span(text, None, false))
}

fn add_sources(lines: &mut Vec<Line>, sources: &Vec<SourceDigest>)
    ensures
        views(final(lines)@) == views(old(lines)@) + sources_part(views(sources@)),
{
    let ghost start = views(lines@);
    let ghost all = views(sources@);
    let mut i: usize = 0;
    while i < sources.len()
        invariant
            i <= sources@.len(),
            all == views(sources@),
            views(lines@) =~= start + sources_part(all).take(i as int),
        decreases sources@.len() - i,
    {
        let s = &sources[i];
        assert(all[i as int] == s@);
        add_line(
            lines,
            used_line(align_left(s.source.as_str(), 8), s.total_tokens, s.known_cost_usd),
        );
        i = i + 1;
    }
    assert(views(lines@) =~= start + sources_part(all));
}

fn add_top_models(lines: &mut Vec<Line>, models: &Vec<ModelDigest>)
    ensures
        views(final(lines)@) == views(old(lines)@) + top_models_part(views(models@)),
{
    let ghost start = views(lines@);
    let ghost all = views(models@);
    let ghost rows = at_most(all, 3).map_values(
        |m: ModelView| used_view(column(m.model, 14), m.total_tokens, m.known_cost_usd),
    );
    if models.len() == 0 {
        assert(views(lines@) =~= start + top_models_part(all));
        return;
    }
    add_line(lines, blank_line());
    add_line(lines, line_of(span("top models".to_owned(), Some(Color::Cyan), true)));
    let ghost head = views(lines@);
    let mut i: usize = 0;
    while i < models.len() && i < 3
        invariant
            i <= models@.len(),
            i <= 3,
            all == views(models@),
            rows == at_most(all, 3).map_values(
                |m: ModelView| used_view(column(m.model, 14), m.total_tokens, m.known_cost_usd),
            ),
            views(lines@) =~= head + rows.take(i as int),
        decreases models@.len() - i,
    {
        let m = &models[i];
        assert(all[i as int] == m@);
        add_line(
            lines,
            used_line(to_column(m.model.as_str(), 14), m.total_tokens, m.known_cost_usd),
        );
        i = i + 1;
    }
    assert(views(lines@) =~= start + top_models_part(all));
}

fn add_digest(lines: &mut Vec<Line>, u: &UsageDigest, rep: &Report)
    ensures
        views(final(lines)@) == views(old(lines)@) + digest_part(u@, rep@),
{
    let ghost start = views(lines@);
    add_line(lines, kv("events", thousands(u.events)));
    add_line(lines, kv("tokens", human_tokens(u.total_tokens)));
    add_line(lines, kv_colored("cost", dollars(u.known_cost_usd), Color::Green));
    add_line(lines, hit_line(u));
    add_reasoning(lines, rep);
    add_waste(lines, u);
    add_bloat(lines, &rep.bloating_sessions);
    add_line(lines, blank_line());
    add_sources(lines, &u.by_source);
    add_top_models(lines, &u.by_model);
    assert(views(lines@) =~= start + digest_part(u@, rep@));
}

/// The lines of the usage panel.
pub fn usage_lines(rep: &Report) -> (r: Vec<Line>)
    ensures
        views(r@) == usage_view(rep@),
{
    let mut lines = status_lines(rep);
    if lines.len() > 0 {
        add_line(&mut lines, blank_line());
    }
    let ghost head = views(lines@);
    assert(head =~= status_view(rep@) + (if status_view(rep@).len() == 0 {
        Seq::empty()
    } else {
        seq![blank()]
    }));
    match &rep.usage {
        Some(u) => {
            add_digest(&mut lines, u, rep);
        },
        None => {
            add_line(&mut lines, dim("token usage unavailable"));
            match &rep.usage_note {
                Some(note) => {
                    add_line(&mut lines, dim(note.as_str()));
                },
                None => {},
            }
            assert(views(lines@) =~= head + (seq![faint("token usage unavailable"@)]
                + match rep@.usage_note {
                Some(note) => seq![faint(note)],
                None => Seq::empty(),
            }));
        },
    }
    assert(views(lines@) =~= usage_view(rep@));
    lines
}

// ---------------------------------------------------------------- keys
/// Something the user does.
#[derive(Clone, Copy, Debug, PartialEq, Eq, Structural)]
pub enum Input {
    Char(char),
    Esc,
    Down,
    Up,
    ScrollDown,
    ScrollUp,
    Other,
}

/// What the dashboard remembers between frames.
#[derive(Clone, Copy, Debug, PartialEq, Eq, Structural)]
pub struct Dashboard {
    /// The selected row of the table of sessions.
    pub selected: usize,
    pub mode: ChartMode,
    /// Whether the user asked for a rescan.
    pub force_rescan: bool,
}

/// What is done before a frame is drawn.
#[derive(Clone, Copy, Debug, PartialEq, Eq, Structural)]
pub enum Refresh {
    /// The report stays as it is.
    Keep,
    /// The report is read again.
    Reload,
    /// The index is scanned again; the report stays as it is where that fails.
    Rescan,
}

/// The row that stays selected among `count`: the same, or the last where there are fewer.
pub open spec fn clamped(selected: nat, count: nat) -> nat {
    if count == 0 {
        0
    } else if selected < count {
        selected
    } else {
        (count - 1) as nat
    }
}

impl Dashboard {
    /// A new dashboard.
    pub fn new() -> (r: Dashboard)
        ensures
            r == (Dashboard { selected: 0, mode: ChartMode::Tokens, force_rescan: false }),
    {
        Dashboard { selected: 0, mode: ChartMode::Tokens, force_rescan: false }
    }

    /// What is done before the next frame, `elapsed_secs` after the last refresh: a rescan that was
    /// asked for, else a reload every half minute.
    pub fn refresh(self, elapsed_secs: u64) -> (r: Refresh)
        ensures
            r == (if self.force_rescan {
                Refresh::Rescan
            } else if elapsed_secs >= 30 {
                Refresh::Reload
            } else {
                Refresh::Keep
            }),
    {
        if self.force_rescan {
            Refresh::Rescan
        } else if elapsed_secs >= REFRESH_SECS {
            Refresh::Reload
        } else {
            Refresh::Keep
        }
    }

    /// The dashboard for a frame that shows `count` projects; a rescan that was asked for is done
    /// by then.
    pub fn framed(self, count: usize) -> (r: Dashboard)
        ensures
            r.selected == clamped(self.selected as nat, count as nat),
            r.mode == self.mode,
            !r.force_rescan,
    {
        let selected: usize = if count == 0 {
            0
        } else if self.selected < count {
            self.selected
        } else {
            count - 1
        };
        Dashboard { selected, mode: self.mode, force_rescan: false }
    }

    /// The dashboard after something the user did while `count` projects were shown; none where
    /// the user quit.
    pub open spec fn after(self, input: Input, count: nat) -> Option<Dashboard> {
        let down = Dashboard {
            selected: clamped(
                (if self.selected < usize::MAX {
                    self.selected + 1
                } else {
                    self.selected as int
                }) as nat,
                count,
            ) as usize,
            ..self
        };
        let up = Dashboard {
            selected: if self.selected > 0 {
                (self.selected - 1) as usize
            } else {
                0
            },
            ..self
        };
        match input {
            Input::Char('q') | Input::Esc => None,
            Input::Char('j') | Input::Down | Input::ScrollDown => Some(down),
            Input::Char('k') | Input::Up | Input::ScrollUp => Some(up),
            Input::Char('c') => Some(Dashboard { mode: self.mode.following(), ..self }),
            Input::Char('r') => Some(Dashboard { force_rescan: true, ..self }),
            _ => Some(self),
        }
    }

    /// Reacts to something the user did while `count` projects were shown: `q` quits, `r` forces a
    /// rescan, `j/k`, the arrows or the scroll wheel move, `c` cycles the chart mode.
    pub fn handle(self, input: Input, count: usize) -> (r: Option<Dashboard>)
        ensures
            r == self.after(input, count as nat),
    {
        let next: usize = if self.selected < usize::MAX {
            self.selected + 1
        } else {
            self.selected
        };
        let below: usize = if count == 0 {
            0
        } else if next < count {
            next
        } else {
            count - 1
        };
        let above: usize = if self.selected > 0 {
            self.selected - 1
        } else {
            0
        };
        let down = Dashboard { selected: below, mode: self.mode, force_rescan: self.force_rescan };
        let up = Dashboard { selected: above, mode: self.mode, force_rescan: self.force_rescan };
        match input {
            Input::Esc => None,
            Input::Down | Input::ScrollDown => Some(down),
            Input::Up | Input::ScrollUp => Some(up),
            Input::Char(c) => {
                if c == 'q' {
                    None
                } else if c == 'j' {
                    Some(down)
                } else if c == 'k' {
                    Some(up)
                } else if c == 'c' {
                    Some(
                        Dashboard {
                            selected: self.selected,
                            mode: self.mode.next(),
                            force_rescan: self.force_rescan,
                        },
                    )
                } else if c == 'r' {
                    Some(Dashboard { selected: self.selected, mode: self.mode, force_rescan: true })
                } else {
                    Some(self)
                }
            },
            Input::Other => Some(self),
        }
    }
}

/// Whatever the user does, the selection stays on a row that is shown.
pub proof fn lemma_selection_stays_inside(d: Dashboard, input: Input, count: nat)
    requires
        count == 0 || d.selected < count,
        count <= usize::MAX,
    ensures
        d.after(input, count) matches Some(e) ==> count == 0 || e.selected < count,
{
}

/// Moving down and up again leads back, unless the last row was selected.
pub proof fn lemma_down_and_up(d: Dashboard, count: nat)
    requires
        d.selected + 1 < count,
        count <= usize::MAX,
    ensures
        d.after(Input::Down, count) is Some,
        d.after(Input::Down, count)->0.after(Input::Up, count) == Some(d),
{
}

} // verus!
