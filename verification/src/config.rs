//! Where state is kept, and the settings.

use vstd::prelude::*;
use vstd::string::*;

use crate::double::{count_units, number, Double};
use crate::text::{chars_of, opt_text, text_of};

verus! {

/// A file name inside a directory.
pub open spec fn joined_path(dir: Seq<char>, name: Seq<char>) -> Seq<char> {
    if dir.len() == 0 || dir.last() == '/' {
        dir + name
    } else {
        dir + "/"@ + name
    }
}

/// Puts a file name behind a directory.
pub fn join_path(dir: &str, name: &str) -> (r: String)
    ensures
        r@ == joined_path(dir@, name@),
{
    let n: usize = dir.unicode_len();
    let mut r = dir.to_owned();
    if n > 0 && dir.get_char(n - 1) != '/' {
        r.append("/");
    }
    r.append(name);
    r
}

/// Where the plugin keeps its state: the daemon snapshot and config.toml.
///
/// Inside herdr this is `$HERDR_PLUGIN_STATE_DIR`; standalone runs fall back to
/// `~/.herdr-memex-analytics` so the same commands work outside a pane.
#[derive(Debug)]
pub struct PluginPaths {
    pub state_dir: String,
}

/// There is no state directory: neither an override, nor one from the host, nor a home.
#[derive(Clone, Copy, Debug, PartialEq, Eq, Structural)]
pub struct NoStateDir;

impl NoStateDir {
    /// What to tell the user.
    pub fn message(&self) -> (r: String)
        ensures
            r@ == "no state directory (set HOME or --state-dir)"@,
    {
        "no state directory (set HOME or --state-dir)".to_owned()
    }
}

/// The state directory: the override, else the one the host gives, else one in the home directory.
pub open spec fn chosen_dir(
    override_dir: Option<Seq<char>>,
    plugin_dir: Option<Seq<char>>,
    home: Option<Seq<char>>,
) -> Option<Seq<char>> {
    if override_dir is Some {
        override_dir
    } else if plugin_dir is Some {
        plugin_dir
    } else {
        match home {
            Some(h) => Some(joined_path(h, ".herdr-memex-analytics"@)),
            None => None,
        }
    }
}

impl PluginPaths {
    /// Chooses the state directory. `plugin_dir` is what `$HERDR_PLUGIN_STATE_DIR` holds and
    /// `home` what `$HOME` holds.
    pub fn new(
        override_dir: Option<String>,
        plugin_dir: Option<String>,
        home: Option<String>,
    ) -> (r: Result<PluginPaths, NoStateDir>)
        ensures
            match r {
                Ok(p) => chosen_dir(opt_text(override_dir), opt_text(plugin_dir), opt_text(home))
                    == Some(p.state_dir@),
                Err(_) => chosen_dir(opt_text(override_dir), opt_text(plugin_dir), opt_text(home))
                    is None,
            },
    {
        match override_dir {
            Some(dir) => Ok(PluginPaths { state_dir: dir }),
            None => match plugin_dir {
                Some(dir) => Ok(PluginPaths { state_dir: dir }),
                None => match home {
                    Some(h) => Ok(
                        PluginPaths { state_dir: join_path(h.as_str(), ".herdr-memex-analytics") },
                    ),
                    None => Err(NoStateDir),
                },
            },
        }
    }

    /// A file of the state directory.
    pub open spec fn file(self, name: Seq<char>) -> Seq<char> {
        joined_path(self.state_dir@, name)
    }
}

/// Where the daemon's snapshot is kept.
pub fn snapshot_path(paths: &PluginPaths) -> (r: String)
    ensures
        r@ == paths.file("snapshot.json"@),
{
    join_path(paths.state_dir.as_str(), "snapshot.json")
}

/// Where the settings are kept.
pub fn config_path(paths: &PluginPaths) -> (r: String)
    ensures
        r@ == paths.file("config.toml"@),
{
    join_path(paths.state_dir.as_str(), "config.toml")
}

// ---------------------------------------------------------------- file names
/// Where a path ends, without the separators and the `.` components behind its last name.
pub open spec fn path_end(path: Seq<char>, n: nat) -> nat
    decreases n,
{
    if n >= 1 && path[n - 1] == '/' || n >= 2 && path[n - 1] == '.' && path[n - 2] == '/' {
        path_end(path, (n - 1) as nat)
    } else {
        n
    }
}

/// Where the name that ends at `n` starts.
pub open spec fn name_start(path: Seq<char>, n: nat) -> nat
    decreases n,
{
    if n == 0 || path[n - 1] == '/' {
        n
    } else {
        name_start(path, (n - 1) as nat)
    }
}

/// Where the name from `start` to `end` has its last dot, searched up to `n`; a name without one,
/// or with one only in front, has it at its end.
pub open spec fn last_dot(path: Seq<char>, start: nat, end: nat, n: nat) -> nat
    decreases n,
{
    if n <= start + 1 {
        end
    } else if path[n - 1] == '.' {
        (n - 1) as nat
    } else {
        last_dot(path, start, end, (n - 1) as nat)
    }
}

/// Whether a path ends in the name of a file: not in the root, in `.` or in `..`.
pub open spec fn is_named(path: Seq<char>) -> bool {
    let end = path_end(path, path.len());
    let start = name_start(path, end);
    let name = path.subrange(start as int, end as int);
    name.len() > 0 && name != seq!['.'] && name != seq!['.', '.']
}

/// A path up to the extension of its file.
pub open spec fn path_stem(path: Seq<char>) -> Seq<char> {
    let end = path_end(path, path.len());
    path.take(last_dot(path, name_start(path, end), end, end) as int)
}

/// A path with another extension, or with one if it has none; a path that names no file stays as
/// it is.
pub open spec fn with_extension(path: Seq<char>, extension: Seq<char>) -> Seq<char> {
    if is_named(path) {
        path_stem(path) + "."@ + extension
    } else {
        path
    }
}

proof fn lemma_path_bounds(path: Seq<char>, n: nat)
    requires
        n <= path.len(),
    ensures
        path_end(path, n) <= n,
        name_start(path, n) <= n,
    decreases n,
{
    if n > 0 {
        lemma_path_bounds(path, (n - 1) as nat);
    }
}

/// Gives a path another extension.
pub fn replace_extension(path: &str, extension: &str) -> (r: String)
    ensures
        r@ == with_extension(path@, extension@),
{
    let v = chars_of(path);
    let mut end: usize = v.len();
    while end >= 1 && (v[end - 1] == '/' || end >= 2 && v[end - 1] == '.' && v[end - 2] == '/')
        invariant
            v@ == path@,
            end <= v@.len(),
            path_end(v@, v@.len()) == path_end(v@, end as nat),
        decreases end,
    {
        end = end - 1;
    }
    let mut start: usize = end;
    while start >= 1 && v[start - 1] != '/'
        invariant
            v@ == path@,
            start <= end <= v@.len(),
            name_start(v@, end as nat) == name_start(v@, start as nat),
        decreases start,
    {
        start = start - 1;
    }
    let size: usize = end - start;
    let ghost name = v@.subrange(start as int, end as int);
    assert(is_named(v@) <==> name.len() > 0 && name != seq!['.'] && name != seq!['.', '.']);
    if size == 0 || size == 1 && v[start] == '.' || size == 2 && v[start] == '.' && v[start + 1] == '.' {
        assert(!is_named(v@)) by {
            if size == 1 {
                assert(name =~= seq!['.']);
            } else if size == 2 {
                assert(name =~= seq!['.', '.']);
            }
        }
        return path.to_owned();
    }
    assert(is_named(v@)) by {
        assert(name.len() == size);
        if size == 1 {
            assert(name[0] == v@[start as int] && seq!['.'][0] == '.');
        } else if size == 2 {
            assert(name[0] == v@[start as int] && seq!['.', '.'][0] == '.');
            assert(name[1] == v@[start + 1] && seq!['.', '.'][1] == '.');
        }
        assert(seq!['.'].len() == 1 && seq!['.', '.'].len() == 2);
    }
    let mut n: usize = end;
    while n > start + 1 && v[n - 1] != '.'
        invariant
            v@ == path@,
            start < n <= end <= v@.len(),
            last_dot(v@, start as nat, end as nat, end as nat) == last_dot(
                v@,
                start as nat,
                end as nat,
                n as nat,
            ),
        decreases n,
    {
        n = n - 1;
    }
    let cut: usize = if n > start + 1 {
        n - 1
    } else {
        end
    };
    let mut r = text_of(&v, 0, cut);
    assert(r@ =~= path_stem(path@));
    r.append(".");
    r.append(extension);
    r
}

// ---------------------------------------------------------------- atomic writes
/// How a file is replaced so that a reader never sees a half-written one: the new contents go to
/// `tmp`, which is then renamed to `target`.
#[derive(Debug)]
pub struct StorePlan {
    pub target: String,
    pub tmp: String,
}

impl StorePlan {
    /// Whether this replaces the JSON file at `path`.
    pub open spec fn replaces(self, path: Seq<char>) -> bool {
        self.target@ == path && self.tmp@ == with_extension(path, "json.tmp"@)
    }

    /// Whether this replaces the log at `path`.
    pub open spec fn rewrites(self, path: Seq<char>) -> bool {
        self.target@ == path && self.tmp@ == with_extension(path, "jsonl.tmp"@)
    }
}

/// The plan for replacing one JSON file.
pub fn store_json(path: String) -> (r: StorePlan)
    ensures
        r.replaces(path@),
{
    let tmp = replace_extension(path.as_str(), "json.tmp");
    StorePlan { target: path, tmp }
}

/// The plan for replacing one log.
pub fn store_log(path: String) -> (r: StorePlan)
    ensures
        r.rewrites(path@),
{
    let tmp = replace_extension(path.as_str(), "jsonl.tmp");
    StorePlan { target: path, tmp }
}

/// The plan for writing the daemon's snapshot.
pub fn write_snapshot(paths: &PluginPaths) -> (r: StorePlan)
    ensures
        r.replaces(paths.file("snapshot.json"@)),
{
    store_json(snapshot_path(paths))
}

/// What follows the last dot of a name is no dot.
proof fn lemma_last_dot(path: Seq<char>, start: nat, end: nat, n: nat)
    requires
        start < n <= end <= path.len(),
    ensures
        ({
            let dot = last_dot(path, start, end, n);
            &&& start < dot <= end
            &&& dot < n || dot == end
            &&& forall|k: int| dot < k < n ==> path[k] != '.'
        }),
    decreases n,
{
    if n > start + 1 && path[n - 1] != '.' {
        lemma_last_dot(path, start, end, (n - 1) as nat);
    }
}

/// The contents under way are never in the file that is read.
pub proof fn lemma_store_is_atomic(plan: StorePlan, path: Seq<char>)
    requires
        is_named(path),
        plan.replaces(path) || plan.rewrites(path),
    ensures
        plan.tmp@ != plan.target@,
{
    reveal_strlit(".");
    reveal_strlit("json.tmp");
    reveal_strlit("jsonl.tmp");
    let end = path_end(path, path.len());
    let start = name_start(path, end);
    lemma_path_bounds(path, path.len());
    lemma_path_bounds(path, end);
    lemma_last_dot(path, start, end, end);
    let dot = last_dot(path, start, end, end);
    let tmp = plan.tmp@;
    assert(tmp.last() == 'p');
    if tmp == path {
        assert(path.last() == 'p');
        assert(end == path.len());
        if plan.replaces(path) {
            assert(tmp[dot as int + 5] == '.');
        } else {
            assert(tmp[dot as int + 6] == '.');
        }
    }
}

proof fn lemma_tmp_of(path: Seq<char>, front: Seq<char>, extension: Seq<char>)
    requires
        path == front + "."@ + extension,
        front.len() > 0,
        front.last() != '/',
        extension.len() > 0,
        forall|k: int|
            0 <= k < extension.len() ==> #[trigger] extension[k] != '/' && extension[k] != '.',
    ensures
        is_named(path),
        path_stem(path) == front,
{
    reveal_strlit(".");
    let n = path.len();
    let dot = front.len();
    assert(path[n - 1] == extension.last());
    assert(path_end(path, n) == n);
    lemma_name_start_skips(path, n, dot);
    lemma_path_bounds(path, (dot - 1) as nat);
    let start = name_start(path, n);
    assert(path[dot - 1] == front.last());
    assert(start <= dot - 1);
    lemma_dot_found(path, start, n, n, dot);
    assert(path.take(dot as int) =~= front);
    let name = path.subrange(start as int, n as int);
    assert(name.last() == extension.last());
}

proof fn lemma_name_start_skips(path: Seq<char>, n: nat, dot: nat)
    requires
        0 < dot <= n <= path.len(),
        forall|k: int| dot - 1 <= k < n ==> #[trigger] path[k] != '/',
    ensures
        name_start(path, n) == name_start(path, (dot - 1) as nat),
    decreases n,
{
    assert(path[n - 1] != '/');
    if n > dot {
        lemma_name_start_skips(path, (n - 1) as nat, dot);
    }
}

proof fn lemma_dot_found(path: Seq<char>, start: nat, end: nat, n: nat, dot: nat)
    requires
        start < dot < n <= end <= path.len(),
        path[dot as int] == '.',
        forall|k: int| dot < k < n ==> #[trigger] path[k] != '.',
    ensures
        last_dot(path, start, end, n) == dot,
    decreases n,
{
    if n > dot + 1 {
        assert(path[n - 1] != '.');
        lemma_dot_found(path, start, end, (n - 1) as nat, dot);
    }
}

/// Of a file with an extension, another takes its place.
pub proof fn lemma_extension_is_replaced(front: Seq<char>, extension: Seq<char>, other: Seq<char>)
    requires
        front.len() > 0,
        front.last() != '/',
        extension.len() > 0,
        forall|k: int|
            0 <= k < extension.len() ==> #[trigger] extension[k] != '/' && extension[k] != '.',
    ensures
        with_extension(front + "."@ + extension, other) == front + "."@ + other,
{
    lemma_tmp_of(front + "."@ + extension, front, extension);
}

proof fn lemma_no_dot(path: Seq<char>, start: nat, end: nat, n: nat)
    requires
        n <= end <= path.len(),
        forall|k: int| start < k < n ==> #[trigger] path[k] != '.',
    ensures
        last_dot(path, start, end, n) == end,
    decreases n,
{
    if n > start + 1 {
        assert(path[n - 1] != '.');
        lemma_no_dot(path, start, end, (n - 1) as nat);
    }
}

/// To a file without an extension one is added, also where its name has a dot in front.
pub proof fn lemma_extension_is_added(dir: Seq<char>, name: Seq<char>, other: Seq<char>)
    requires
        dir.len() == 0 || dir.last() == '/',
        name.len() > 0,
        name[0] == '.' ==> name.len() > 1,
        forall|k: int| 0 <= k < name.len() ==> #[trigger] name[k] != '/',
        forall|k: int| 0 < k < name.len() ==> #[trigger] name[k] != '.',
    ensures
        with_extension(dir + name, other) == dir + name + "."@ + other,
{
    let path = dir + name;
    let n = path.len();
    let start = dir.len();
    assert forall|k: int| start <= k < n implies #[trigger] path[k] != '/' by {
        assert(path[k] == name[k - start]);
    }
    assert forall|k: int| start < k < n implies #[trigger] path[k] != '.' by {
        assert(path[k] == name[k - start]);
    }
    assert(path[n - 1] == name.last());
    if start < n - 1 {
        assert(path[n - 1] != '.');
    }
    assert(path_end(path, n) == n);
    lemma_name_start_skips(path, n, start + 1);
    if start > 0 {
        assert(path[start - 1] == dir.last());
    }
    assert(name_start(path, n) == start);
    lemma_no_dot(path, start, n, n);
    let own = path.subrange(start as int, n as int);
    assert(own =~= name);
    if name.len() == 1 {
        assert(name[0] != '.' && seq!['.'][0] == '.');
    }
    if name.len() == 2 {
        assert(name[1] != '.' && seq!['.', '.'][1] == '.');
    }
    assert(seq!['.'].len() == 1 && seq!['.', '.'].len() == 2);
    assert(is_named(path));
    assert(path.take(n as int) =~= path);
}

/// A path that leads up to the directory above names no file and stays as it is.
pub proof fn lemma_no_file_no_extension(dir: Seq<char>, other: Seq<char>)
    requires
        dir.len() == 0 || dir.last() == '/',
    ensures
        with_extension(dir + seq!['.', '.'], other) == dir + seq!['.', '.'],
{
    let path = dir + seq!['.', '.'];
    let n = path.len();
    let start = dir.len();
    assert(path[n - 1] == '.' && path[n - 2] == '.');
    assert(path_end(path, n) == n);
    lemma_name_start_skips(path, n, start + 1);
    if start > 0 {
        assert(path[start - 1] == dir.last());
    }
    assert(name_start(path, n) == start);
    assert(path.subrange(start as int, n as int) =~= seq!['.', '.']);
}

/// The contents of a `.json` file are under way beside it, under its name with `.tmp` behind it.
pub proof fn lemma_json_is_written_beside(plan: StorePlan, front: Seq<char>)
    requires
        plan.replaces(front + ".json"@),
        front.len() > 0,
        front.last() != '/',
    ensures
        plan.tmp@ == plan.target@ + ".tmp"@,
{
    reveal_strlit(".");
    reveal_strlit(".json");
    reveal_strlit("json");
    reveal_strlit("json.tmp");
    reveal_strlit(".tmp");
    let path = front + ".json"@;
    assert(path =~= front + "."@ + "json"@);
    lemma_tmp_of(path, front, "json"@);
    assert(plan.tmp@ =~= path + ".tmp"@);
}

/// The lines of a `.jsonl` file are under way beside it, under its name with `.tmp` behind it.
pub proof fn lemma_log_is_written_beside(plan: StorePlan, front: Seq<char>)
    requires
        plan.rewrites(front + ".jsonl"@),
        front.len() > 0,
        front.last() != '/',
    ensures
        plan.tmp@ == plan.target@ + ".tmp"@,
{
    reveal_strlit(".");
    reveal_strlit(".jsonl");
    reveal_strlit("jsonl");
    reveal_strlit("jsonl.tmp");
    reveal_strlit(".tmp");
    let path = front + ".jsonl"@;
    assert(path =~= front + "."@ + "jsonl"@);
    lemma_tmp_of(path, front, "jsonl"@);
    assert(plan.tmp@ =~= path + ".tmp"@);
}

// ---------------------------------------------------------------- session files
/// The name of the file that holds the states of a session.
pub open spec fn session_file(key: Seq<char>) -> Seq<char> {
    "agent-states-"@ + key + ".json"@
}

/// The session whose states a file holds, by the file's name.
pub fn session_of_file(name: &str) -> (r: Option<String>)
    ensures
        match r {
            Some(key) => name@ == session_file(key@),
            None => forall|key: Seq<char>| name@ != #[trigger] session_file(key),
        },
{
    let v = chars_of(name);
    let front = chars_of("agent-states-");
    let back = chars_of(".json");
    proof {
        reveal_strlit("agent-states-");
        reveal_strlit(".json");
        assert forall|key: Seq<char>| session_file(key).len() == key.len() + 18 by {
        }
    }
    if v.len() < front.len() + back.len() {
        return None;
    }
    let mut i: usize = 0;
    while i < front.len()
        invariant
            i <= front@.len(),
            front@ == "agent-states-"@,
            front@.len() + 5 <= v@.len(),
            v@ == name@,
            forall|j: int| 0 <= j < i ==> v@[j] == front@[j],
        decreases front@.len() - i,
    {
        if v[i] != front[i] {
            proof {
                assert forall|key: Seq<char>| name@ != #[trigger] session_file(key) by {
                    assert(session_file(key)[i as int] == front@[i as int]);
                }
            }
            return None;
        }
        i = i + 1;
    }
    let total: usize = v.len();
    let rest: usize = total - back.len();
    let mut k: usize = 0;
    while k < back.len()
        invariant
            k <= back@.len(),
            back@ == ".json"@,
            front@ == "agent-states-"@,
            back@.len() == 5,
            front@.len() == 13,
            front@.len() + 5 <= v@.len(),
            total == v@.len(),
            rest == total - back@.len(),
            v@ == name@,
            forall|j: int| 0 <= j < k ==> v@[rest + j] == back@[j],
        decreases back@.len() - k,
    {
        if v[rest + k] != back[k] {
            proof {
                assert forall|key: Seq<char>| name@ != #[trigger] session_file(key) by {
                    if session_file(key).len() == v@.len() {
                        assert(session_file(key)[rest + k] == back@[k as int]);
                    }
                }
            }
            return None;
        }
        k = k + 1;
    }
    let key = text_of(&v, front.len(), rest);
    proof {
        assert(name@ =~= session_file(key@));
    }
    Some(key)
}

/// Two sessions never share a file: pane ids are only unique within a session, so the states of
/// one must not be written over those of another.
pub proof fn lemma_sessions_are_apart(dir: Seq<char>, a: Seq<char>, b: Seq<char>)
    requires
        a != b,
    ensures
        session_file(a) != session_file(b),
        joined_path(dir, session_file(a)) != joined_path(dir, session_file(b)),
{
    if session_file(a) == session_file(b) {
        lemma_file_key(a, b);
    }
    let p = joined_path(dir, session_file(a));
    let q = joined_path(dir, session_file(b));
    if p == q {
        let n = if dir.len() == 0 || dir.last() == '/' {
            dir.len() as int
        } else {
            reveal_strlit("/");
            dir.len() as int + 1
        };
        assert(p.skip(n) =~= session_file(a));
        assert(q.skip(n) =~= session_file(b));
    }
}

/// The name of a session's file tells the session.
pub proof fn lemma_file_key(a: Seq<char>, b: Seq<char>)
    requires
        session_file(a) == session_file(b),
    ensures
        a == b,
{
    reveal_strlit("agent-states-");
    reveal_strlit(".json");
    let f = session_file(a);
    let g = session_file(b);
    assert(f.len() == a.len() + 18);
    assert(g.len() == b.len() + 18);
    assert(f.subrange(13, (13 + a.len()) as int) =~= a);
    assert(g.subrange(13, (13 + b.len()) as int) =~= b);
}

/// A file under way is not taken for a session's: its name does not end as theirs do.
pub proof fn lemma_tmp_is_no_session(name: Seq<char>, key: Seq<char>)
    ensures
        name + ".tmp"@ != session_file(key),
{
    reveal_strlit(".tmp");
    reveal_strlit(".json");
    reveal_strlit("agent-states-");
    let f = session_file(key);
    let t = name + ".tmp"@;
    if t == f {
        assert(t[t.len() - 1] == 'p');
        assert(f[f.len() - 1] == 'n');
    }
}

// ---------------------------------------------------------------- settings
/// The settings of config.toml.
#[derive(Clone, Copy, Debug, PartialEq, Eq, Structural)]
pub struct Config {
    /// Daemon cadence in seconds; mirrors memex's periodic reindex model.
    pub scan_interval_secs: u64,
    /// Daily spend alert threshold in USD; none disables budget alerts.
    pub daily_cost_usd: Option<Double>,
    /// Urgent burn-rate alert threshold in USD per trailing hour.
    pub block_burn_rate_usd_hr: Double,
    /// Uncached prompt size at which a session counts as context-bloated.
    pub context_bloat_tokens: u64,
}

/// A quarter of an hour between scans.
pub fn default_scan_interval() -> (r: u64)
    ensures
        r == 900,
{
    900
}

/// Fifteen dollars an hour.
pub fn default_block_burn_rate_usd_hr() -> (r: Double)
    ensures
        r == number(count_units(15)),
{
    Double::count(15)
}

/// A hundred thousand uncached tokens.
pub fn default_context_bloat_tokens() -> (r: u64)
    ensures
        r == 100_000,
{
    100_000
}

/// The settings that hold where config.toml says nothing.
pub open spec fn default_config() -> Config {
    Config {
        scan_interval_secs: 900,
        daily_cost_usd: None,
        block_burn_rate_usd_hr: number(count_units(15)),
        context_bloat_tokens: 100_000,
    }
}

impl Default for Config {
    fn default() -> (r: Config)
        ensures
            r == default_config(),
    {
        Config {
            scan_interval_secs: default_scan_interval(),
            daily_cost_usd: None,
            block_burn_rate_usd_hr: default_block_burn_rate_usd_hr(),
            context_bloat_tokens: default_context_bloat_tokens(),
        }
    }
}

impl Config {
    /// The settings in force, given what config.toml holds: a missing or unreadable file falls
    /// back to the defaults, so that the daemon never refuses to start over it.
    pub fn load(parsed: Option<Config>) -> (r: Config)
        ensures
            r == (match parsed {
                Some(c) => c,
                None => default_config(),
            }),
    {
        match parsed {
            Some(c) => c,
            None => Config::default(),
        }
    }
}

} // verus!
