//! Sessions, by project.

use vstd::prelude::*;
use vstd::string::*;

use crate::group::{
    grouped, groups, lemma_groups_share_out, lemma_members, lemma_sizes_add_up, members,
};
use crate::order::{
    descending, goes_before, lemma_has_order, lemma_order_keeps_total, lemma_part_total, order_of,
    picked, total, turned,
};
use crate::text::{arrange, arranged, lex_lt, monus, opt_text, views, Replica};
use crate::textmap::{
    dict, is_sorted, lemma_dict_at, listing_of, sorted_listing, TextMap,
};

verus! {

/// One session of memex's index.
#[derive(Debug)]
pub struct SessionRow {
    pub project: String,
    /// The project of the repository the session ran in, where there is one.
    pub repo_project: Option<String>,
    pub message_count: u64,
    pub started_at: u64,
    pub last_at: u64,
    /// The name of the tool the session is from.
    pub source: String,
}

/// A session with its texts as sequences of characters.
#[verifier::ext_equal]
pub struct SessionView {
    pub project: Seq<char>,
    pub repo_project: Option<Seq<char>>,
    pub message_count: u64,
    pub started_at: u64,
    pub last_at: u64,
    pub source: Seq<char>,
}

impl View for SessionRow {
    type V = SessionView;

    open spec fn view(&self) -> SessionView {
        SessionView {
            project: self.project@,
            repo_project: opt_text(self.repo_project),
            message_count: self.message_count,
            started_at: self.started_at,
            last_at: self.last_at,
            source: self.source@,
        }
    }
}

/// The sessions of one project.
#[derive(Clone, Debug)]
pub struct ProjectStats {
    pub project: String,
    pub sessions: u64,
    pub messages: u64,
    /// Sum of per-session wall time from first to last message.
    pub active_ms: u64,
    pub last_at_ms: u64,
    pub sources: TextMap<u64>,
}

/// The sessions of one project as mathematical values.
#[verifier::ext_equal]
pub struct ProjectView {
    pub project: Seq<char>,
    pub sessions: u64,
    pub messages: u64,
    pub active_ms: u64,
    pub last_at_ms: u64,
    pub sources: Map<Seq<char>, u64>,
}

impl View for ProjectStats {
    type V = ProjectView;

    open spec fn view(&self) -> ProjectView {
        ProjectView {
            project: self.project@,
            sessions: self.sessions,
            messages: self.messages,
            active_ms: self.active_ms,
            last_at_ms: self.last_at_ms,
            sources: self.sources@,
        }
    }
}

impl Replica for ProjectStats {
    fn copy(&self) -> (r: ProjectStats) {
        ProjectStats {
            project: self.project.clone(),
            sessions: self.sessions,
            messages: self.messages,
            active_ms: self.active_ms,
            last_at_ms: self.last_at_ms,
            sources: self.sources.copy(),
        }
    }
}

/// The name a session's project goes by: that of the repository, else the project's own.
pub open spec fn shown_project(row: SessionView) -> Seq<char> {
    match row.repo_project {
        Some(repo) => if repo.len() > 0 {
            repo
        } else {
            row.project
        },
        None => row.project,
    }
}

/// The project of each session.
pub open spec fn project_names(rows: Seq<SessionView>) -> Seq<Seq<char>> {
    rows.map_values(|r: SessionView| shown_project(r))
}

/// The messages of each session.
pub open spec fn message_counts(rows: Seq<SessionView>) -> Seq<u64> {
    rows.map_values(|r: SessionView| r.message_count)
}

/// The wall time of each session.
pub open spec fn wall_times(rows: Seq<SessionView>) -> Seq<u64> {
    rows.map_values(|r: SessionView| monus(r.last_at, r.started_at))
}

/// The end of each session.
pub open spec fn ends(rows: Seq<SessionView>) -> Seq<u64> {
    rows.map_values(|r: SessionView| r.last_at)
}

/// The sources of some sessions.
pub open spec fn sources_at(rows: Seq<SessionView>, at: Seq<usize>) -> Seq<Seq<char>> {
    at.map_values(|i: usize| rows[i as int].source)
}

/// The largest of a row, zero where there is none.
pub open spec fn largest(s: Seq<u64>) -> u64
    decreases s.len(),
{
    if s.len() == 0 {
        0
    } else {
        let before = largest(s.drop_last());
        if s.last() > before {
            s.last()
        } else {
            before
        }
    }
}

/// How often each label occurs.
pub open spec fn tally(labels: Seq<Seq<char>>) -> Map<Seq<char>, u64> {
    Map::new(|l: Seq<char>| labels.contains(l), |l: Seq<char>| members(labels, l).len() as u64)
}

/// The statistics of one project.
pub open spec fn project_of(rows: Seq<SessionView>, name: Seq<char>, at: Seq<usize>) -> ProjectView {
    ProjectView {
        project: name,
        sessions: at.len() as u64,
        messages: total(picked(message_counts(rows), at)) as u64,
        active_ms: total(picked(wall_times(rows), at)) as u64,
        last_at_ms: largest(picked(ends(rows), at)),
        sources: tally(sources_at(rows, at)),
    }
}

/// The statistics of each project, by name.
pub open spec fn projects_by_name(rows: Seq<SessionView>) -> Seq<ProjectView> {
    sorted_listing(groups(project_names(rows))).map_values(
        |e: (Seq<char>, Seq<usize>)| project_of(rows, e.0, e.1),
    )
}

/// When each project was last active.
pub open spec fn last_times(projects: Seq<ProjectView>) -> Seq<u64> {
    projects.map_values(|p: ProjectView| p.last_at_ms)
}

/// The projects, the one active last first and by name among equals.
pub open spec fn projects_of(rows: Seq<SessionView>) -> Seq<ProjectView> {
    arranged(
        projects_by_name(rows),
        order_of(turned(last_times(projects_by_name(rows)))),
    )
}

/// Whether the messages and the wall time of some sessions can be counted.
pub open spec fn countable(rows: Seq<SessionView>, at: Seq<usize>) -> bool {
    total(picked(message_counts(rows), at)) <= u64::MAX && total(picked(wall_times(rows), at))
        <= u64::MAX
}

/// Whether the messages and the wall time of every project can be counted.
pub open spec fn all_countable(rows: Seq<SessionView>) -> bool {
    forall|l: Seq<char>|
        project_names(rows).contains(l) ==> countable(
            rows,
            #[trigger] members(project_names(rows), l),
        )
}

fn project_name(row: &SessionRow) -> (r: String)
    ensures
        r@ == shown_project(row@),
{
    match &row.repo_project {
        Some(repo) => {
            if repo.as_str().unicode_len() > 0 {
                repo.clone()
            } else {
                row.project.clone()
            }
        },
        None => row.project.clone(),
    }
}

fn name_labels(rows: &Vec<SessionRow>) -> (r: Vec<String>)
    ensures
        views(r@) == project_names(views(rows@)),
{
    let ghost names = project_names(views(rows@));
    let mut r: Vec<String> = Vec::new();
    let mut i: usize = 0;
    while i < rows.len()
        invariant
            i <= rows@.len(),
            names == project_names(views(rows@)),
            views(r@) =~= names.take(i as int),
        decreases rows@.len() - i,
    {
        let ghost done = r@;
        let name = project_name(&rows[i]);
        r.push(name);
        assert(views(r@) =~= views(done).push(names[i as int]));
        i = i + 1;
    }
    assert(views(r@) =~= names);
    r
}

/// One more of a label.
pub proof fn lemma_tally_push(labels: Seq<Seq<char>>, l: Seq<char>)
    requires
        labels.len() < usize::MAX,
    ensures
        tally(labels.push(l)) == tally(labels).insert(
            l,
            ((if tally(labels).contains_key(l) {
                tally(labels)[l]
            } else {
                0
            }) + 1) as u64,
        ),
        tally(labels).contains_key(l) ==> tally(labels)[l] <= labels.len(),
{
    let next = labels.push(l);
    lemma_members(labels, l);
    assert(next.drop_last() =~= labels);
    assert forall|x: Seq<char>| next.contains(x) == (labels.contains(x) || x == l) by {
        if next.contains(x) && x != l {
            let k = choose|k: int| 0 <= k < next.len() && next[k] == x;
            assert(labels[k] == x);
        }
        if labels.contains(x) {
            let k = choose|k: int| 0 <= k < labels.len() && labels[k] == x;
            assert(next[k] == x);
        }
        assert(next[labels.len() as int] == l);
    }
    if !labels.contains(l) {
        crate::group::lemma_no_members(labels, l);
    }
    assert(tally(next) =~= tally(labels).insert(
        l,
        ((if tally(labels).contains_key(l) {
            tally(labels)[l]
        } else {
            0
        }) + 1) as u64,
    ));
}

fn project_stats(rows: &Vec<SessionRow>, name: &String, at: &Vec<usize>) -> (r: ProjectStats)
    requires
        forall|k: int| 0 <= k < at@.len() ==> #[trigger] at@[k] < rows@.len(),
        countable(views(rows@), at@),
    ensures
        r@ == project_of(views(rows@), name@, at@),
{
    let ghost all = views(rows@);
    let ghost ms = picked(message_counts(all), at@);
    let ghost ws = picked(wall_times(all), at@);
    let ghost es = picked(ends(all), at@);
    let ghost ss = sources_at(all, at@);
    let mut messages: u64 = 0;
    let mut active: u64 = 0;
    let mut last: u64 = 0;
    let mut sources: TextMap<u64> = TextMap::new();
    let mut i: usize = 0;
    let count: usize = at.len();
    proof {
        assert(tally(ss.take(0)) =~= Map::<Seq<char>, u64>::empty());
    }
    while i < count
        invariant
            i <= count == at@.len(),
            all == views(rows@),
            ms == picked(message_counts(all), at@),
            ws == picked(wall_times(all), at@),
            es == picked(ends(all), at@),
            ss == sources_at(all, at@),
            forall|k: int| 0 <= k < at@.len() ==> #[trigger] at@[k] < rows@.len(),
            total(ms) <= u64::MAX,
            total(ws) <= u64::MAX,
            messages == total(ms.take(i as int)),
            active == total(ws.take(i as int)),
            last == largest(es.take(i as int)),
            sources@ == tally(ss.take(i as int)),
        decreases count - i,
    {
        let row = &rows[at[i]];
        proof {
            assert(all[at@[i as int] as int] == row@);
            assert(ms.take(i + 1).drop_last() =~= ms.take(i as int));
            assert(ws.take(i + 1).drop_last() =~= ws.take(i as int));
            assert(es.take(i + 1).drop_last() =~= es.take(i as int));
            assert(ms.take(i + 1).last() == row.message_count);
            assert(ws.take(i + 1).last() == monus(row.last_at, row.started_at));
            assert(es.take(i + 1).last() == row.last_at);
            lemma_part_total(ms, i + 1);
            lemma_part_total(ws, i + 1);
            lemma_tally_push(ss.take(i as int), row.source@);
            assert(ss.take(i + 1) =~= ss.take(i as int).push(row.source@));
        }
        messages = messages + row.message_count;
        active = active + row.last_at.saturating_sub(row.started_at);
        if row.last_at > last {
            last = row.last_at;
        }
        let seen: u64 = match sources.get(row.source.as_str()) {
            Some(n) => *n,
            None => 0,
        };
        sources.insert(row.source.clone(), seen + 1);
        i = i + 1;
    }
    proof {
        assert(ms.take(i as int) =~= ms);
        assert(ws.take(i as int) =~= ws);
        assert(es.take(i as int) =~= es);
        assert(ss.take(i as int) =~= ss);
    }
    ProjectStats {
        project: name.clone(),
        sessions: count as u64,
        messages,
        active_ms: active,
        last_at_ms: last,
        sources,
    }
}

/// Sums the sessions up by project, the project active last first.
pub fn aggregate_projects(rows: &Vec<SessionRow>) -> (r: Vec<ProjectStats>)
    requires
        all_countable(views(rows@)),
    ensures
        views(r@) == projects_of(views(rows@)),
{
    let ghost all = views(rows@);
    let ghost names = project_names(all);
    let labels = name_labels(rows);
    let parts = grouped(&labels);
    let ghost listing = listing_of(parts@);
    let mut list: Vec<ProjectStats> = Vec::new();
    let mut keys: Vec<u64> = Vec::new();
    let mut k: usize = 0;
    let count: usize = rows.len();
    while k < parts.len()
        invariant
            k <= parts@.len(),
            count == rows@.len(),
            all == views(rows@),
            all_countable(all),
            names == project_names(all),
            listing == listing_of(parts@),
            is_sorted(listing),
            dict(listing) == groups(names),
            listing == sorted_listing(groups(names)),
            views(list@) =~= projects_by_name(all).take(k as int),
            keys@ =~= last_times(projects_by_name(all)).take(k as int),
        decreases parts@.len() - k,
    {
        proof {
            lemma_dict_at(listing, k as int);
            lemma_members(names, listing[k as int].0);
            assert(groups(names).contains_key(listing[k as int].0));
            assert(countable(all, members(names, listing[k as int].0)));
        }
        let row = project_stats(rows, &parts[k].0, &parts[k].1);
        let ghost done = list@;
        keys.push(row.last_at_ms);
        list.push(row);
        assert(views(list@) =~= views(done).push(projects_by_name(all)[k as int]));
        k = k + 1;
    }
    assert(views(list@) =~= projects_by_name(all));
    assert(keys@ =~= last_times(projects_by_name(all)));
    let order = descending(&keys);
    arrange(&list, &order)
}

fn part_countable(rows: &Vec<SessionRow>, at: &Vec<usize>) -> (r: bool)
    requires
        forall|k: int| 0 <= k < at@.len() ==> #[trigger] at@[k] < rows@.len(),
    ensures
        r == countable(views(rows@), at@),
{
    let ghost all = views(rows@);
    let ghost ms = picked(message_counts(all), at@);
    let ghost ws = picked(wall_times(all), at@);
    let mut messages: u64 = 0;
    let mut active: u64 = 0;
    let mut i: usize = 0;
    while i < at.len()
        invariant
            i <= at@.len(),
            all == views(rows@),
            ms == picked(message_counts(all), at@),
            ws == picked(wall_times(all), at@),
            forall|k: int| 0 <= k < at@.len() ==> #[trigger] at@[k] < rows@.len(),
            messages == total(ms.take(i as int)),
            active == total(ws.take(i as int)),
        decreases at@.len() - i,
    {
        let row = &rows[at[i]];
        proof {
            assert(all[at@[i as int] as int] == row@);
            assert(ms.take(i + 1).drop_last() =~= ms.take(i as int));
            assert(ws.take(i + 1).drop_last() =~= ws.take(i as int));
            assert(ms.take(i + 1).last() == row.message_count);
            assert(ws.take(i + 1).last() == monus(row.last_at, row.started_at));
            lemma_part_total(ms, i + 1);
            lemma_part_total(ws, i + 1);
        }
        match messages.checked_add(row.message_count) {
            Some(n) => {
                messages = n;
            },
            None => {
                return false;
            },
        }
        match active.checked_add(row.last_at.saturating_sub(row.started_at)) {
            Some(n) => {
                active = n;
            },
            None => {
                return false;
            },
        }
        i = i + 1;
    }
    proof {
        assert(ms.take(i as int) =~= ms);
        assert(ws.take(i as int) =~= ws);
    }
    true
}

/// Whether the messages and the wall time of every project can be counted.
pub fn projects_countable(rows: &Vec<SessionRow>) -> (r: bool)
    ensures
        r == all_countable(views(rows@)),
{
    let ghost all = views(rows@);
    let ghost names = project_names(all);
    let labels = name_labels(rows);
    let parts = grouped(&labels);
    let ghost listing = listing_of(parts@);
    let mut k: usize = 0;
    let count: usize = rows.len();
    while k < parts.len()
        invariant
            k <= parts@.len(),
            count == rows@.len(),
            all == views(rows@),
            names == project_names(all),
            listing == listing_of(parts@),
            is_sorted(listing),
            dict(listing) == groups(names),
            forall|j: int|
                0 <= j < k ==> countable(all, members(names, (#[trigger] listing[j]).0)),
        decreases parts@.len() - k,
    {
        proof {
            lemma_dict_at(listing, k as int);
            lemma_members(names, listing[k as int].0);
            assert(groups(names).contains_key(listing[k as int].0));
        }
        if !part_countable(rows, &parts[k].1) {
            assert(names.contains(listing[k as int].0));
            assert(!countable(all, members(names, listing[k as int].0)));
            return false;
        }
        k = k + 1;
    }
    assert forall|l: Seq<char>| names.contains(l) implies countable(all, #[trigger] members(names, l)) by {
        assert(groups(names).contains_key(l));
        assert(dict(listing).contains_key(l));
        let j = crate::textmap::slot(listing, l);
        assert(listing[j].0 == l);
    }
    true
}

/// The sessions of some projects.
pub open spec fn session_counts(projects: Seq<ProjectView>) -> Seq<u64> {
    projects.map_values(|p: ProjectView| p.sessions)
}

/// Every session is counted under exactly one project.
pub proof fn lemma_sessions_have_one_project(rows: Seq<SessionView>)
    requires
        rows.len() <= usize::MAX,
    ensures
        total(session_counts(projects_of(rows))) == rows.len(),
{
    let labels = project_names(rows);
    let list = projects_by_name(rows);
    let keys = turned(last_times(list));
    lemma_sizes_add_up(labels, session_counts(list));
    lemma_groups_share_out(labels);
    lemma_has_order(keys);
    lemma_order_keeps_total(keys, order_of(keys), session_counts(list));
    assert(session_counts(projects_of(rows)) =~= picked(session_counts(list), order_of(keys)));
}

/// The project that was active last stands first; of projects active equally late the names
/// ascend.
pub proof fn lemma_latest_project_first(rows: Seq<SessionView>, a: int, b: int)
    requires
        rows.len() <= usize::MAX,
        0 <= a < b < projects_of(rows).len(),
    ensures
        projects_of(rows)[a].last_at_ms >= projects_of(rows)[b].last_at_ms,
        projects_of(rows)[a].last_at_ms == projects_of(rows)[b].last_at_ms ==> lex_lt(
            projects_of(rows)[a].project,
            projects_of(rows)[b].project,
        ),
{
    let list = projects_by_name(rows);
    let keys = turned(last_times(list));
    let s = sorted_listing(groups(project_names(rows)));
    lemma_groups_share_out(project_names(rows));
    lemma_has_order(keys);
    let o = order_of(keys);
    assert(goes_before(keys, o[a] as int, o[b] as int));
    assert(list[o[a] as int].project == s[o[a] as int].0);
    assert(list[o[b] as int].project == s[o[b] as int].0);
}

} // verus!
