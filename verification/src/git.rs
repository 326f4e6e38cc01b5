//! History enrichment: attaches authorship and age metadata to markers by
//! computing line-level authorship once per file and caching it per line.
//! All repository access goes through a small set of trusted wrappers
//! around git2; everything around those calls is verified.

use vstd::prelude::*;
use vstd::string::StrSliceExecFns;
use vstd::string::StringExecFns;

use crate::clock::now_secs;
use crate::models::DebtMarker;
use crate::models::DebtMarkerView;
use crate::models::GitBlameInfo;
use crate::models::GitBlameInfoView;
use crate::text::chars_of;

verus! {

#[verifier::external_type_specification]
#[verifier::external_body]
pub struct ExRepository(git2::Repository);

#[verifier::external_type_specification]
#[verifier::external_body]
pub struct ExBlame<'a>(git2::Blame<'a>);

#[verifier::external_type_specification]
#[verifier::external_body]
pub struct ExOid(git2::Oid);

#[verifier::external_type_specification]
#[verifier::external_body]
pub struct ExCommit<'a>(git2::Commit<'a>);

/// Error of a history lookup that could not get under way.
#[derive(Debug, Clone, PartialEq, Eq, Structural)]
pub enum GitError {
    /// The repository has no working directory.
    NoWorkdir,
    /// The file's path could not be resolved on disk.
    BadPath,
    /// The attributing commit could not be loaded.
    CommitLookup,
}

/// Relies on git2::Repository::discover: opens the repository containing
/// `path`; a path not under version control yields `Ok(None)`, never an
/// error.
#[verifier::external_body]
pub fn get_repository(path: &str) -> (r: Result<Option<git2::Repository>, GitError>)
    ensures
        r is Ok,
{
    match git2::Repository::discover(std::path::Path::new(path)) {
        Ok(repo) => Ok(Some(repo)),
        Err(_) => Ok(None),
    }
}

/// Relies on git2::Repository::workdir: the repository's working
/// directory, where it has one and its path is text.
#[verifier::external_body]
fn repo_workdir(repo: &git2::Repository) -> (r: Option<String>)
{
    match repo.workdir() {
        Some(p) => p.to_str().map(|s| s.to_string()),
        None => None,
    }
}

/// Relies on std::path::Path::canonicalize: resolves `.` and `..` segments
/// against the file system; the result depends on what is on disk, so
/// nothing is promised of it.
#[verifier::external_body]
fn canonicalize_path(p: &str) -> (r: Option<String>)
{
    match std::path::Path::new(p).canonicalize() {
        Ok(c) => match c.to_str() {
            Some(s) => Some(s.to_string()),
            None => None,
        },
        Err(_) => None,
    }
}

/// Relies on git2::Repository::blame_file: line-level authorship of one
/// file, tracking copies within the same file and the same commit; any
/// failure (an untracked file among them) yields `None`.
#[verifier::external_body]
fn blame_file<'r>(repo: &'r git2::Repository, rel_path: &str) -> (r: Option<git2::Blame<'r>>)
{
    let mut opts = git2::BlameOptions::new();
    opts.track_copies_same_file(true)
        .track_copies_same_commit_moves(true)
        .track_copies_same_commit_copies(true);
    repo.blame_file(std::path::Path::new(rel_path), Some(&mut opts)).ok()
}

/// Relies on git2::Blame::get_line: the identifier of the commit that last
/// changed the given 1-indexed line, where the blame covers that line.
#[verifier::external_body]
fn blame_line_commit(blame: &git2::Blame<'_>, line: usize) -> (r: Option<git2::Oid>)
{
    blame.get_line(line).map(|h| h.final_commit_id())
}

/// Relies on git2::Repository::find_commit.
#[verifier::external_body]
fn find_commit<'r>(repo: &'r git2::Repository, id: git2::Oid) -> (r: Option<git2::Commit<'r>>)
{
    repo.find_commit(id).ok()
}

/// Relies on git2::Commit::author and git2::Signature::name: the author
/// name, where it is well-formed text.
#[verifier::external_body]
fn commit_author_name(c: &git2::Commit<'_>) -> (r: Option<String>)
{
    match c.author().name() {
        Ok(n) => Some(n.to_string()),
        Err(_) => None,
    }
}

/// Relies on git2::Commit::author and git2::Signature::email: the author
/// email, where it is well-formed text.
#[verifier::external_body]
fn commit_author_email(c: &git2::Commit<'_>) -> (r: Option<String>)
{
    match c.author().email() {
        Ok(e) => Some(e.to_string()),
        Err(_) => None,
    }
}

/// Relies on git2::Commit::time and git2::Time::seconds: the commit time
/// as seconds since the Unix epoch.
#[verifier::external_body]
fn commit_time_secs(c: &git2::Commit<'_>) -> i64 {
    c.time().seconds()
}

/// Relies on the Display form of git2::Oid (forty hexadecimal digits),
/// truncated by the format precision to its first seven characters.
#[verifier::external_body]
fn oid_short(id: &git2::Oid) -> (r: String)
    ensures
        r@.len() == 7,
{
    format!("{:.7}", id)
}

/// The working directory, extended to end with a path separator.
pub open spec fn with_sep(workdir: Seq<char>) -> Seq<char> {
    if workdir.len() > 0 && workdir.last() == '/' {
        workdir
    } else {
        workdir.push('/')
    }
}

/// The path `canon` made relative to `workdir`: where it starts with the
/// working directory the remainder is kept, else the path is kept whole;
/// one leading `./` is removed.
pub open spec fn relative_to_spec(canon: Seq<char>, workdir: Seq<char>) -> Seq<char> {
    let wd = with_sep(workdir);
    let rest = if canon.len() >= wd.len() && canon.take(wd.len() as int) == wd {
        canon.skip(wd.len() as int)
    } else {
        canon
    };
    if rest.len() >= 2 && rest[0] == '.' && rest[1] == '/' {
        rest.skip(2)
    } else {
        rest
    }
}

/// Makes a canonical file path relative to the repository's working
/// directory, and strips one leading `./`.
fn relative_to(canon: &String, workdir: &String) -> (r: String)
    ensures
        r@ == relative_to_spec(canon@, workdir@),
{
    let cc = chars_of(canon.as_str());
    let wc = chars_of(workdir.as_str());
    let clen = cc.len();
    let wlen = wc.len();
    let has_sep = wlen > 0 && wc[wlen - 1] == '/';
    let ghost wd = with_sep(workdir@);
    proof {
        if has_sep {
            assert(wd == workdir@);
        } else {
            assert(wd == workdir@.push('/'));
        }
    }
    let mut rest_start: usize = 0;
    if has_sep && clen >= wlen {
        if crate::text::matches_at(&cc, &wc, 0) {
            proof {
                assert(cc@.subrange(0, wlen as int) =~= canon@.take(wd.len() as int));
            }
            rest_start = wlen;
        } else {
            proof {
                assert(canon@.take(wd.len() as int) =~= cc@.subrange(0, wlen as int));
            }
        }
    } else if !has_sep && wlen < usize::MAX && clen >= wlen + 1 {
        if crate::text::matches_at(&cc, &wc, 0) && cc[wlen] == '/' {
            proof {
                assert(cc@.subrange(0, wlen as int) == wc@);
                assert(canon@.take(wd.len() as int) =~= wd) by {
                    assert(forall|j: int|
                        0 <= j < wlen ==> canon@.take(wlen + 1)[j] == cc@.subrange(
                            0,
                            wlen as int,
                        )[j]);
                    assert(canon@.take(wlen + 1)[wlen as int] == '/');
                    assert(wd[wlen as int] == '/');
                    assert(forall|j: int| 0 <= j < wlen ==> wd[j] == wc@[j]);
                }
            }
            rest_start = wlen + 1;
        } else {
            proof {
                if canon@.take(wd.len() as int) == wd {
                    assert(canon@.take(wlen + 1)[wlen as int] == wd[wlen as int]);
                    assert(canon@[wlen as int] == '/');
                    assert(cc@.subrange(0, wlen as int) =~= Seq::new(
                        wlen as nat,
                        |j: int| canon@.take(wlen + 1)[j],
                    ));
                    assert(forall|j: int|
                        0 <= j < wlen ==> cc@.subrange(0, wlen as int)[j] == wd[j]);
                    assert(cc@.subrange(0, wlen as int) =~= wc@);
                }
            }
        }
    } else {
        proof {
            assert(canon@.len() < wd.len());
        }
    }
    let ghost rest = if canon@.len() >= wd.len() && canon@.take(wd.len() as int) == wd {
        canon@.skip(wd.len() as int)
    } else {
        canon@
    };
    proof {
        assert(rest =~= canon@.skip(rest_start as int));
    }
    let strip_dot = clen - rest_start >= 2 && cc[rest_start] == '.' && cc[rest_start + 1] == '/';
    let final_start = if strip_dot {
        rest_start + 2
    } else {
        rest_start
    };
    proof {
        if strip_dot {
            assert(rest[0] == '.' && rest[1] == '/');
            assert(rest.skip(2) =~= canon@.skip(final_start as int));
        } else {
            if rest.len() >= 2 {
                assert(rest[0] == canon@[rest_start as int]);
                assert(rest[1] == canon@[rest_start + 1]);
            }
        }
    }
    let r = copy_tail(canon, &cc, final_start);
    proof {
        assert(r@ == relative_to_spec(canon@, workdir@));
    }
    r
}

/// The characters of `s` from position `start` on, as a new string.
fn copy_tail(s: &String, sc: &Vec<char>, start: usize) -> (r: String)
    requires
        sc@ == s@,
        start <= s@.len(),
    ensures
        r@ == s@.skip(start as int),
{
    let n = sc.len();
    let sub = s.as_str().substring_char(start, n);
    let r = String::from_str(sub);
    proof {
        assert(r@ =~= s@.skip(start as int));
    }
    r
}

/// Whole days between a commit time and now: zero where the commit lies in
/// the future.
pub open spec fn age_days_spec(now: int, t: int) -> int {
    if now >= t {
        (now - t) / 86400
    } else {
        0
    }
}

/// Builds the history record for one line from what the repository
/// returned, filling in placeholders where the author identity is missing,
/// and computing the age once from the given current time.
fn build_info(
    name: Option<String>,
    email: Option<String>,
    hash: String,
    commit_time: i64,
    now: i64,
) -> (r: GitBlameInfo)
    ensures
        r@.commit_hash == hash@,
        r@.commit_time == commit_time as int,
        r@.age_days == age_days_spec(now as int, commit_time as int),
        r@.age_days >= 0,
        name matches Some(n) ==> r@.author == n@,
        name is None ==> r@.author == "Unknown"@,
        email matches Some(e) ==> r@.author_email == e@,
        email is None ==> r@.author_email == "unknown@example.com"@,
{
    let age_days: i64 = if now >= commit_time {
        let diff = (now as i128) - (commit_time as i128);
        let days = (diff as u128) / 86400;
        proof {
            assert(diff == now as int - commit_time as int);
            assert(days as int == (now as int - commit_time as int) / 86400);
            assert(days <= u128::MAX / 86400);
            assert(days as int <= i64::MAX as int);
        }
        days as i64
    } else {
        0
    };
    GitBlameInfo {
        author: match name {
            Some(n) => n,
            None => String::from_str("Unknown"),
        },
        author_email: match email {
            Some(e) => e,
            None => String::from_str("unknown@example.com"),
        },
        commit_hash: hash,
        commit_time,
        age_days,
    }
}

/// Authorship metadata for one line of one file, where the repository can
/// provide it. Fails only where the lookup cannot get under way: no
/// working directory, an unresolvable path, or an unloadable commit; a
/// file or line outside the recorded history yields `Ok(None)`.
pub fn blame_line(repo: &git2::Repository, file_path: &str, line_number: usize) -> (r: Result<
    Option<GitBlameInfo>,
    GitError,
>)
    ensures
        r matches Ok(Some(g)) ==> g@.age_days >= 0 && g@.commit_hash.len() == 7,
{
    let workdir = match repo_workdir(repo) {
        Some(w) => w,
        None => {
            return Err(GitError::NoWorkdir);
        },
    };
    let canon = match canonicalize_path(file_path) {
        Some(c) => c,
        None => {
            return Err(GitError::BadPath);
        },
    };
    let rel = relative_to(&canon, &workdir);
    let blame = match blame_file(repo, rel.as_str()) {
        Some(b) => b,
        None => {
            return Ok(None);
        },
    };
    let oid = match blame_line_commit(&blame, line_number) {
        Some(o) => o,
        None => {
            return Ok(None);
        },
    };
    let commit = match find_commit(repo, oid) {
        Some(c) => c,
        None => {
            return Err(GitError::CommitLookup);
        },
    };
    let name = commit_author_name(&commit);
    let email = commit_author_email(&commit);
    let t = commit_time_secs(&commit);
    let hash = oid_short(&oid);
    let now = now_secs();
    Ok(Some(build_info(name, email, hash, t, now)))
}

/// Authorship metadata for one line, or `None`: without a repository, and
/// on any failure, the marker simply keeps no history metadata.
pub fn enrich_with_git_info(
    repo: Option<&git2::Repository>,
    file_path: &str,
    line_number: usize,
) -> (r: Option<GitBlameInfo>)
    ensures
        repo is None ==> r is None,
        r matches Some(g) ==> g@.age_days >= 0 && g@.commit_hash.len() == 7,
{
    let repo = match repo {
        Some(r) => r,
        None => {
            return None;
        },
    };
    match blame_line(repo, file_path, line_number) {
        Ok(v) => v,
        Err(_) => None,
    }
}

/// Mathematical model of a [`LineHistory`] value.
pub ghost struct LineHistoryView {
    pub line: int,
    pub info: GitBlameInfoView,
}

/// Authorship metadata computed for one line of a file: one entry of the
/// per-file cache.
pub struct LineHistory {
    /// The 1-indexed line this record belongs to.
    pub line: usize,
    /// The record itself.
    pub info: GitBlameInfo,
}

impl View for LineHistory {
    type V = LineHistoryView;

    open spec fn view(&self) -> LineHistoryView {
        LineHistoryView { line: self.line as int, info: self.info@ }
    }
}

impl DeepView for LineHistory {
    type V = LineHistoryView;

    open spec fn deep_view(&self) -> LineHistoryView {
        self.view()
    }
}

/// Mathematical model of a [`FileHistory`] value.
pub ghost struct FileHistoryView {
    pub path: Seq<char>,
    pub records: Seq<LineHistoryView>,
}

/// The line-level history of one file, computed once for all that file's
/// markers and cached per line.
pub struct FileHistory {
    /// The file the records belong to, as the markers name it.
    pub path: String,
    /// One record per line that history could attribute.
    pub records: Vec<LineHistory>,
}

impl View for FileHistory {
    type V = FileHistoryView;

    open spec fn view(&self) -> FileHistoryView {
        FileHistoryView { path: self.path@, records: self.records.deep_view() }
    }
}

impl DeepView for FileHistory {
    type V = FileHistoryView;

    open spec fn deep_view(&self) -> FileHistoryView {
        self.view()
    }
}

/// The record for `line` among `rs`, searched from position `j` on.
pub open spec fn lines_find(rs: Seq<LineHistoryView>, line: int, j: int) -> Option<
    GitBlameInfoView,
>
    decreases rs.len() - j,
{
    if j < 0 || j >= rs.len() {
        None
    } else if rs[j].line == line {
        Some(rs[j].info)
    } else {
        lines_find(rs, line, j + 1)
    }
}

/// The records for `path` among the table's entries, searched from
/// position `j` on.
pub open spec fn table_find(t: Seq<FileHistoryView>, path: Seq<char>, j: int) -> Option<
    Seq<LineHistoryView>,
>
    decreases t.len() - j,
{
    if j < 0 || j >= t.len() {
        None
    } else if t[j].path == path {
        Some(t[j].records)
    } else {
        table_find(t, path, j + 1)
    }
}

/// The history record the table holds for one line of one file, if any.
pub open spec fn history_lookup(
    t: Seq<FileHistoryView>,
    path: Seq<char>,
    line: int,
) -> Option<GitBlameInfoView> {
    match table_find(t, path, 0) {
        None => None,
        Some(rs) => lines_find(rs, line, 0),
    }
}

/// A well-formed history table: one entry per file, one record per line.
pub open spec fn table_wf(t: Seq<FileHistoryView>) -> bool {
    &&& forall|e1: int, e2: int|
        0 <= e1 < e2 < t.len() ==> (#[trigger] t[e1].path) != (#[trigger] t[e2].path)
    &&& forall|e: int, r1: int, r2: int|
        0 <= e < t.len() && 0 <= r1 < r2 < t[e].records.len() ==> (#[trigger] t[e].records[
        r1]).line != (#[trigger] t[e].records[r2]).line
}

/// The table attributes line `line` of file `path` to the record `g`.
pub open spec fn table_contains(
    t: Seq<FileHistoryView>,
    path: Seq<char>,
    line: int,
    g: GitBlameInfoView,
) -> bool {
    exists|e: int, j: int|
        0 <= e < t.len() && 0 <= j < t[e].records.len() && t[e].path == path && (
        #[trigger] t[e].records[j]).line == line && t[e].records[j].info == g
}

proof fn lemma_table_find_char(t: Seq<FileHistoryView>, path: Seq<char>, j0: int)
    requires
        0 <= j0,
        forall|e1: int, e2: int|
            0 <= e1 < e2 < t.len() ==> (#[trigger] t[e1].path) != (#[trigger] t[e2].path),
    ensures
        table_find(t, path, j0) matches Some(rs) ==> exists|e: int|
            j0 <= e < t.len() && (#[trigger] t[e].path) == path && rs == t[e].records,
        (exists|e: int| j0 <= e < t.len() && (#[trigger] t[e].path) == path) ==> table_find(
            t,
            path,
            j0,
        ) is Some,
        forall|e: int|
            j0 <= e < t.len() && (#[trigger] t[e].path) == path ==> table_find(t, path, j0)
                == Some(t[e].records),
    decreases t.len() - j0,
{
    if j0 < t.len() {
        lemma_table_find_char(t, path, j0 + 1);
        if t[j0].path == path {
            assert forall|e: int|
                j0 <= e < t.len() && (#[trigger] t[e].path) == path implies table_find(
                t,
                path,
                j0,
            ) == Some(t[e].records) by {
                if e != j0 {
                    assert(t[j0].path != t[e].path);
                }
            }
        } else {
            if exists|e: int| j0 <= e < t.len() && (#[trigger] t[e].path) == path {
                let e = choose|e: int| j0 <= e < t.len() && (#[trigger] t[e].path) == path;
                assert(j0 + 1 <= e < t.len() && t[e].path == path);
            }
        }
    }
}

proof fn lemma_lines_find_char(rs: Seq<LineHistoryView>, line: int, j0: int)
    requires
        0 <= j0,
        forall|r1: int, r2: int|
            0 <= r1 < r2 < rs.len() ==> (#[trigger] rs[r1]).line != (#[trigger] rs[r2]).line,
    ensures
        lines_find(rs, line, j0) matches Some(g) ==> exists|j: int|
            j0 <= j < rs.len() && (#[trigger] rs[j]).line == line && rs[j].info == g,
        (exists|j: int| j0 <= j < rs.len() && (#[trigger] rs[j]).line == line) ==> lines_find(
            rs,
            line,
            j0,
        ) is Some,
        forall|j: int|
            j0 <= j < rs.len() && (#[trigger] rs[j]).line == line ==> lines_find(rs, line, j0)
                == Some(rs[j].info),
    decreases rs.len() - j0,
{
    if j0 < rs.len() {
        lemma_lines_find_char(rs, line, j0 + 1);
        if rs[j0].line == line {
            assert forall|j: int|
                j0 <= j < rs.len() && (#[trigger] rs[j]).line == line implies lines_find(
                rs,
                line,
                j0,
            ) == Some(rs[j].info) by {
                if j != j0 {
                    assert(rs[j0].line != rs[j].line);
                }
            }
        } else {
            if exists|j: int| j0 <= j < rs.len() && (#[trigger] rs[j]).line == line {
                let j = choose|j: int| j0 <= j < rs.len() && (#[trigger] rs[j]).line == line;
                assert(j0 + 1 <= j < rs.len() && rs[j].line == line);
            }
        }
    }
}

/// In a well-formed table, the lookup finds `g` exactly where the table
/// attributes the line to `g`.
pub proof fn lemma_lookup_characterization(
    t: Seq<FileHistoryView>,
    path: Seq<char>,
    line: int,
)
    requires
        table_wf(t),
    ensures
        forall|g: GitBlameInfoView|
            #[trigger] table_contains(t, path, line, g) <==> history_lookup(t, path, line)
                == Some(g),
{
    lemma_table_find_char(t, path, 0);
    assert forall|g: GitBlameInfoView| #[trigger] table_contains(t, path, line, g) implies
    history_lookup(t, path, line) == Some(g) by {
        let (e, j) = choose|e: int, j: int|
            0 <= e < t.len() && 0 <= j < t[e].records.len() && t[e].path == path && (
            #[trigger] t[e].records[j]).line == line && t[e].records[j].info == g;
        assert(table_find(t, path, 0) == Some(t[e].records));
        lemma_lines_find_char(t[e].records, line, 0);
        assert(lines_find(t[e].records, line, 0) == Some(t[e].records[j].info));
    }
    assert forall|g: GitBlameInfoView| history_lookup(t, path, line) == Some(g) implies
    #[trigger] table_contains(t, path, line, g) by {
        let rs = table_find(t, path, 0)->0;
        let e = choose|e: int| 0 <= e < t.len() && (#[trigger] t[e].path) == path && rs == t[
            e].records;
        lemma_lines_find_char(rs, line, 0);
        let j = choose|j: int| 0 <= j < rs.len() && (#[trigger] rs[j]).line == line && rs[j].info
            == g;
        assert(0 <= e < t.len() && 0 <= j < t[e].records.len() && t[e].path == path && t[
            e].records[j].line == line && t[e].records[j].info == g);
    }
}

/// LAW: enrichment is order-independent. Partitioning the markers into
/// file groups in any order, and processing the groups in any order,
/// produces history tables with the same entries; and any two well-formed
/// tables with the same entries assign the same history record to every
/// marker, so the final per-marker assignment is the same.
pub proof fn lemma_enrichment_order_independent(
    t1: Seq<FileHistoryView>,
    t2: Seq<FileHistoryView>,
    path: Seq<char>,
    line: int,
)
    requires
        table_wf(t1),
        table_wf(t2),
        forall|p: Seq<char>, l: int, g: GitBlameInfoView|
            #[trigger] table_contains(t1, p, l, g) <==> #[trigger] table_contains(t2, p, l, g),
    ensures
        history_lookup(t1, path, line) == history_lookup(t2, path, line),
{
    lemma_lookup_characterization(t1, path, line);
    lemma_lookup_characterization(t2, path, line);
    match history_lookup(t1, path, line) {
        Some(g) => {
            assert(table_contains(t1, path, line, g));
            assert(table_contains(t2, path, line, g));
        },
        None => {
            match history_lookup(t2, path, line) {
                Some(g) => {
                    assert(table_contains(t2, path, line, g));
                    assert(table_contains(t1, path, line, g));
                    assert(false);
                },
                None => {
                },
            }
        },
    }
}

/// The entry of the table for `path`, if any.
fn table_get<'a>(table: &'a Vec<FileHistory>, path: &String) -> (r: Option<&'a FileHistory>)
    ensures
        match r {
            Some(fh) => table_find(table.deep_view(), path@, 0) == Some(fh@.records),
            None => table_find(table.deep_view(), path@, 0) is None,
        },
{
    let ghost t = table.deep_view();
    let mut j: usize = 0;
    while j < table.len()
        invariant
            t == table.deep_view(),
            t.len() == table@.len(),
            j <= t.len(),
            table_find(t, path@, 0) == table_find(t, path@, j as int),
        decreases t.len() - j,
    {
        proof {
            assert(t[j as int] == table@[j as int]@);
        }
        let fh = &table[j];
        if crate::text::eq_str(fh.path.as_str(), path.as_str()) {
            return Some(fh);
        }
        j = j + 1;
    }
    None
}

/// The record of the per-file cache for `line`, if any.
fn lines_get<'a>(records: &'a Vec<LineHistory>, line: usize) -> (r: Option<&'a GitBlameInfo>)
    ensures
        match r {
            Some(g) => lines_find(records.deep_view(), line as int, 0) == Some(g@),
            None => lines_find(records.deep_view(), line as int, 0) is None,
        },
{
    let ghost rs = records.deep_view();
    let mut j: usize = 0;
    while j < records.len()
        invariant
            rs == records.deep_view(),
            rs.len() == records@.len(),
            j <= rs.len(),
            lines_find(rs, line as int, 0) == lines_find(rs, line as int, j as int),
        decreases rs.len() - j,
    {
        proof {
            assert(rs[j as int] == records@[j as int]@);
        }
        let rec = &records[j];
        if rec.line == line {
            return Some(&rec.info);
        }
        j = j + 1;
    }
    None
}

/// The marker fields untouched by enrichment are equal.
pub open spec fn same_core(a: DebtMarkerView, b: DebtMarkerView) -> bool {
    &&& a.marker_type == b.marker_type
    &&& a.file_path == b.file_path
    &&& a.line_number == b.line_number
    &&& a.line_content == b.line_content
    &&& a.context_before == b.context_before
    &&& a.context_after == b.context_after
}

/// Attaches to every marker the history record its file's cache holds for
/// its line; a marker whose file or line the table does not cover keeps
/// its metadata unchanged. This is the pure half of enrichment: the
/// assignment is a function of the table and of each marker's file and
/// line alone.
pub fn apply_histories(markers: &mut Vec<DebtMarker>, table: &Vec<FileHistory>)
    ensures
        final(markers)@.len() == old(markers)@.len(),
        forall|i: int|
            0 <= i < old(markers)@.len() ==> same_core(
                #[trigger] final(markers).deep_view()[i],
                old(markers).deep_view()[i],
            ),
        forall|i: int|
            0 <= i < old(markers)@.len() ==> (#[trigger] final(markers).deep_view()[i]).git_info
                == (match history_lookup(
                table.deep_view(),
                old(markers).deep_view()[i].file_path,
                old(markers).deep_view()[i].line_number,
            ) {
                Some(g) => Some(g),
                None => old(markers).deep_view()[i].git_info,
            }),
{
    let ghost ms0 = old(markers).deep_view();
    let mut i: usize = 0;
    while i < markers.len()
        invariant
            markers@.len() == ms0.len(),
            i <= ms0.len(),
            forall|k: int| i <= k < ms0.len() ==> markers.deep_view()[k] == ms0[k],
            forall|k: int|
                0 <= k < i ==> same_core(#[trigger] markers.deep_view()[k], ms0[k]),
            forall|k: int|
                0 <= k < i ==> (#[trigger] markers.deep_view()[k]).git_info == (
                match history_lookup(table.deep_view(), ms0[k].file_path, ms0[k].line_number) {
                    Some(g) => Some(g),
                    None => ms0[k].git_info,
                }),
        decreases ms0.len() - i,
    {
        let ghost dv0 = markers.deep_view();
        proof {
            assert(dv0[i as int] == ms0[i as int]);
            assert(dv0[i as int] == markers@[i as int]@);
        }
        let found: Option<GitBlameInfo> = {
            let m = &markers[i];
            match table_get(table, &m.file_path) {
                Some(fh) => match lines_get(&fh.records, m.line_number) {
                    Some(g) => Some(g.duplicate()),
                    None => None,
                },
                None => None,
            }
        };
        match found {
            Some(info) => {
                proof {
                    assert(history_lookup(
                        table.deep_view(),
                        ms0[i as int].file_path,
                        ms0[i as int].line_number,
                    ) == Some(info@));
                }
                let ghost pre = markers@;
                let mut nm = markers[i].duplicate();
                nm.git_info = Some(info);
                markers[i] = nm;
                proof {
                    assert(forall|k: int|
                        0 <= k < ms0.len() && k != i ==> markers@[k] == pre[k]);
                    assert(forall|k: int|
                        0 <= k < ms0.len() && k != i ==> #[trigger] markers.deep_view()[k]
                            == dv0[k]);
                    assert(markers.deep_view()[i as int].git_info == Some(info@));
                    assert(same_core(markers.deep_view()[i as int], ms0[i as int]));
                }
            },
            None => {
                proof {
                    assert(history_lookup(
                        table.deep_view(),
                        ms0[i as int].file_path,
                        ms0[i as int].line_number,
                    ) is None);
                    assert(same_core(markers.deep_view()[i as int], ms0[i as int]));
                }
            },
        }
        proof {
            assert(forall|k: int|
                0 <= k < i ==> same_core(#[trigger] markers.deep_view()[k], ms0[k]));
        }
        i = i + 1;
    }
}

/// A path that some marker of the list stands in.
pub open spec fn is_marker_path(p: Seq<char>, ms: Seq<DebtMarkerView>) -> bool {
    exists|i: int| 0 <= i < ms.len() && p == ms[i].file_path
}

/// A path that stands among the first `k` of `paths`.
pub open spec fn drawn_from(p: Seq<char>, paths: Seq<Seq<char>>, k: int) -> bool {
    exists|a: int| 0 <= a < k && p == paths[a]
}

/// The distinct file paths of the markers, in order of first occurrence.
fn distinct_paths(markers: &Vec<DebtMarker>) -> (r: Vec<String>)
    ensures
        forall|a: int, b: int|
            0 <= a < b < r.deep_view().len() ==> r.deep_view()[a] != r.deep_view()[b],
        forall|a: int|
            0 <= a < r.deep_view().len() ==> is_marker_path(
                #[trigger] r.deep_view()[a],
                markers.deep_view(),
            ),
{
    let ghost ms = markers.deep_view();
    let mut paths: Vec<String> = Vec::new();
    let mut i: usize = 0;
    while i < markers.len()
        invariant
            ms == markers.deep_view(),
            ms.len() == markers@.len(),
            i <= ms.len(),
            forall|a: int, b: int|
                0 <= a < b < paths.deep_view().len() ==> paths.deep_view()[a] != paths.deep_view(
                )[b],
            forall|a: int|
                0 <= a < paths.deep_view().len() ==> is_marker_path(
                    #[trigger] paths.deep_view()[a],
                    markers.deep_view(),
                ),
        decreases ms.len() - i,
    {
        proof {
            assert(ms[i as int] == markers@[i as int]@);
        }
        let m = &markers[i];
        if !crate::text::contains_string(&paths, &m.file_path) {
            let ghost p0 = paths.deep_view();
            paths.push(m.file_path.clone());
            proof {
                assert(forall|a: int|
                    0 <= a < p0.len() ==> #[trigger] paths.deep_view()[a] == p0[a]);
                assert(0 <= i < markers.deep_view().len() && paths.deep_view()[p0.len() as int]
                    == markers.deep_view()[i as int].file_path);
                assert(is_marker_path(paths.deep_view()[p0.len() as int], markers.deep_view()));
                assert(paths.deep_view().len() == p0.len() + 1);
            }
        }
        i = i + 1;
    }
    paths
}

/// The distinct line numbers of the markers standing in file `p`.
fn distinct_lines(markers: &Vec<DebtMarker>, p: &String) -> (r: Vec<usize>)
    ensures
        forall|a: int, b: int| 0 <= a < b < r@.len() ==> r@[a] != r@[b],
{
    let mut lines: Vec<usize> = Vec::new();
    let mut i: usize = 0;
    while i < markers.len()
        invariant
            i <= markers@.len(),
            forall|a: int, b: int| 0 <= a < b < lines@.len() ==> lines@[a] != lines@[b],
        decreases markers@.len() - i,
    {
        let m = &markers[i];
        if crate::text::eq_str(m.file_path.as_str(), p.as_str()) && !crate::text::contains_usize(
            &lines,
            m.line_number,
        ) {
            lines.push(m.line_number);
        }
        i = i + 1;
    }
    lines
}

/// Computes the history table for the markers' files: the distinct file
/// paths, each blamed once, with one cached record per distinct marker
/// line that history attributes. Every entry names a file some marker
/// stands in, and the table is well formed: files and lines appear once.
fn collect_file_histories(
    repo: &git2::Repository,
    workdir: &String,
    markers: &Vec<DebtMarker>,
    now: i64,
) -> (t: Vec<FileHistory>)
    ensures
        table_wf(t.deep_view()),
        forall|e: int|
            0 <= e < t.deep_view().len() ==> is_marker_path(
                (#[trigger] t.deep_view()[e]).path,
                markers.deep_view(),
            ),
{
    let paths = distinct_paths(markers);
    let ghost pd = paths.deep_view();
    let mut table: Vec<FileHistory> = Vec::new();
    let mut k: usize = 0;
    while k < paths.len()
        invariant
            pd == paths.deep_view(),
            pd.len() == paths@.len(),
            k <= pd.len(),
            forall|a: int, b: int| 0 <= a < b < pd.len() ==> pd[a] != pd[b],
            forall|e: int|
                0 <= e < table.deep_view().len() ==> drawn_from(
                    (#[trigger] table.deep_view()[e]).path,
                    pd,
                    k as int,
                ),
            table_wf(table.deep_view()),
        decreases pd.len() - k,
    {
        proof {
            assert(pd[k as int] == paths@[k as int]@);
        }
        let p = &paths[k];
        match canonicalize_path(p.as_str()) {
            None => {},
            Some(canon) => {
                let rel = relative_to(&canon, workdir);
                match blame_file(repo, rel.as_str()) {
                    None => {},
                    Some(blame) => {
                        let lines = distinct_lines(markers, p);
                        let mut records: Vec<LineHistory> = Vec::new();
                        let mut li: usize = 0;
                        while li < lines.len()
                            invariant
                                li <= lines@.len(),
                                forall|a: int, b: int|
                                    0 <= a < b < lines@.len() ==> lines@[a] != lines@[b],
                                forall|r1: int|
                                    0 <= r1 < records.deep_view().len() ==> exists|a: int|
                                        0 <= a < li && (#[trigger] records.deep_view()[r1]).line
                                            == lines@[a],
                                forall|r1: int, r2: int|
                                    0 <= r1 < r2 < records.deep_view().len() ==> (
                                    #[trigger] records.deep_view()[r1]).line != (
                                    #[trigger] records.deep_view()[r2]).line,
                            decreases lines@.len() - li,
                        {
                            let line = lines[li];
                            match blame_line_commit(&blame, line) {
                                None => {},
                                Some(oid) => {
                                    match find_commit(repo, oid) {
                                        None => {},
                                        Some(commit) => {
                                            let name = commit_author_name(&commit);
                                            let email = commit_author_email(&commit);
                                            let tsecs = commit_time_secs(&commit);
                                            let hash = oid_short(&oid);
                                            let info = build_info(name, email, hash, tsecs, now);
                                            let ghost r0 = records.deep_view();
                                            records.push(LineHistory { line, info });
                                            proof {
                                                assert(records.deep_view().len() == r0.len() + 1);
                                                assert(forall|a: int|
                                                    0 <= a < r0.len()
                                                        ==> #[trigger] records.deep_view()[a]
                                                        == r0[a]);
                                                assert(records.deep_view()[r0.len() as int].line
                                                    == lines@[li as int]);
                                                assert forall|r1: int, r2: int|
                                                    0 <= r1 < r2 < records.deep_view().len()
                                                        implies (
                                                #[trigger] records.deep_view()[r1]).line != (
                                                #[trigger] records.deep_view()[r2]).line by {
                                                    if r2 == r0.len() as int {
                                                        let a = choose|a: int|
                                                            0 <= a < li && r0[r1].line == lines@[
                                                                a];
                                                        assert(lines@[a] != lines@[li as int]);
                                                    }
                                                }
                                            }
                                        },
                                    }
                                },
                            }
                            li = li + 1;
                        }
                        let ghost t0 = table.deep_view();
                        table.push(FileHistory { path: p.clone(), records });
                        proof {
                            assert(table.deep_view().len() == t0.len() + 1);
                            assert(forall|a: int|
                                0 <= a < t0.len() ==> #[trigger] table.deep_view()[a] == t0[a]);
                            assert(table.deep_view()[t0.len() as int].path == pd[k as int]);
                            assert(table.deep_view()[t0.len() as int].records
                                == records.deep_view());
                            assert forall|e1: int, e2: int|
                                0 <= e1 < e2 < table.deep_view().len() implies (
                            #[trigger] table.deep_view()[e1].path) != (
                            #[trigger] table.deep_view()[e2].path) by {
                                if e2 == t0.len() as int {
                                    assert(drawn_from(t0[e1].path, pd, k as int));
                                    let a = choose|a: int|
                                        0 <= a < k && t0[e1].path == pd[a];
                                    assert(pd[a] != pd[k as int]);
                                } else {
                                    assert(t0[e1].path != t0[e2].path);
                                }
                            }
                            assert forall|e: int, r1: int, r2: int|
                                0 <= e < table.deep_view().len() && 0 <= r1 < r2
                                    < table.deep_view()[e].records.len() implies (
                            #[trigger] table.deep_view()[e].records[r1]).line != (
                            #[trigger] table.deep_view()[e].records[r2]).line by {
                                if e < t0.len() {
                                    assert(table.deep_view()[e] == t0[e]);
                                } else {
                                    assert(table.deep_view()[e].records == records.deep_view());
                                }
                            }
                            assert forall|e: int|
                                0 <= e < table.deep_view().len() implies drawn_from(
                                (#[trigger] table.deep_view()[e]).path,
                                pd,
                                k + 1,
                            ) by {
                                if e < t0.len() {
                                    assert(drawn_from(t0[e].path, pd, k as int));
                                    let a = choose|a: int|
                                        0 <= a < k && t0[e].path == pd[a];
                                    assert(0 <= a < k + 1 && table.deep_view()[e].path == pd[a]);
                                } else {
                                    assert(table.deep_view()[e].path == pd[k as int]);
                                }
                            }
                        }
                    },
                }
            },
        }
        proof {
            assert forall|e: int|
                0 <= e < table.deep_view().len() implies drawn_from(
                (#[trigger] table.deep_view()[e]).path,
                pd,
                k + 1,
            ) by {
                assert(drawn_from(table.deep_view()[e].path, pd, k as int) || drawn_from(
                    table.deep_view()[e].path,
                    pd,
                    k + 1,
                ));
                if drawn_from(table.deep_view()[e].path, pd, k as int) {
                    let a = choose|a: int| 0 <= a < k && table.deep_view()[e].path == pd[a];
                    assert(0 <= a < k + 1 && table.deep_view()[e].path == pd[a]);
                }
            }
        }
        k = k + 1;
    }
    proof {
        assert forall|e: int|
            0 <= e < table.deep_view().len() implies is_marker_path(
            (#[trigger] table.deep_view()[e]).path,
            markers.deep_view(),
        ) by {
            assert(drawn_from(table.deep_view()[e].path, pd, k as int));
            let a = choose|a: int| 0 <= a < k && table.deep_view()[e].path == pd[a];
            assert(0 <= a < pd.len());
            assert(is_marker_path(paths.deep_view()[a], markers.deep_view()));
        }
    }
    table
}

/// Enriches the whole marker list in place: markers are grouped by file,
/// each file's line-level history is computed once and cached per line,
/// and each marker receives the record for its line, where one exists.
/// Without a repository the list is left untouched; a missing working
/// directory is the only fatal failure, and also leaves the list
/// untouched. The assignment each marker receives is a function of the
/// computed history table and of the marker's own file and line alone, so
/// two markers on the same line of the same file always receive the same
/// record.
pub fn enrich_markers_batch(markers: &mut Vec<DebtMarker>, repo: Option<&git2::Repository>) -> (r:
    Result<(), GitError>)
    ensures
        final(markers)@.len() == old(markers)@.len(),
        repo is None ==> r is Ok && final(markers)@ == old(markers)@,
        r is Err ==> final(markers)@ == old(markers)@,
        forall|i: int|
            0 <= i < old(markers)@.len() ==> same_core(
                #[trigger] final(markers).deep_view()[i],
                old(markers).deep_view()[i],
            ),
        exists|t: Seq<FileHistoryView>|
            #[trigger] table_wf(t) && forall|i: int|
                0 <= i < old(markers)@.len() ==> (#[trigger] final(markers).deep_view()[
                i]).git_info == (match history_lookup(
                    t,
                    old(markers).deep_view()[i].file_path,
                    old(markers).deep_view()[i].line_number,
                ) {
                    Some(g) => Some(g),
                    None => old(markers).deep_view()[i].git_info,
                }),
        forall|i: int, j: int|
            0 <= i < old(markers)@.len() && 0 <= j < old(markers)@.len()
                && old(markers).deep_view()[i].file_path == old(markers).deep_view()[j].file_path
                && old(markers).deep_view()[i].line_number == old(markers).deep_view()[
            j].line_number && old(markers).deep_view()[i].git_info == old(markers).deep_view()[
            j].git_info ==> (#[trigger] final(markers).deep_view()[i]).git_info == (
            #[trigger] final(markers).deep_view()[j]).git_info,
{
    let repo = match repo {
        Some(r) => r,
        None => {
            proof {
                let ghost t0 = Seq::<FileHistoryView>::empty();
                assert(table_wf(t0));
                assert(forall|p: Seq<char>, l: int| history_lookup(t0, p, l) is None);
            }
            return Ok(());
        },
    };
    let workdir = match repo_workdir(repo) {
        Some(w) => w,
        None => {
            proof {
                let ghost t0 = Seq::<FileHistoryView>::empty();
                assert(table_wf(t0));
                assert(forall|p: Seq<char>, l: int| history_lookup(t0, p, l) is None);
            }
            return Err(GitError::NoWorkdir);
        },
    };
    let now = now_secs();
    let table = collect_file_histories(repo, &workdir, markers, now);
    apply_histories(markers, &table);
    proof {
        assert(table_wf(table.deep_view()));
        assert forall|i: int, j: int|
            0 <= i < old(markers)@.len() && 0 <= j < old(markers)@.len()
                && old(markers).deep_view()[i].file_path == old(markers).deep_view()[j].file_path
                && old(markers).deep_view()[i].line_number == old(markers).deep_view()[
            j].line_number && old(markers).deep_view()[i].git_info == old(markers).deep_view()[
            j].git_info implies (#[trigger] markers.deep_view()[i]).git_info == (
        #[trigger] markers.deep_view()[j]).git_info by {
            assert(markers.deep_view()[i].git_info == (match history_lookup(
                table.deep_view(),
                old(markers).deep_view()[i].file_path,
                old(markers).deep_view()[i].line_number,
            ) {
                Some(g) => Some(g),
                None => old(markers).deep_view()[i].git_info,
            }));
            assert(markers.deep_view()[j].git_info == (match history_lookup(
                table.deep_view(),
                old(markers).deep_view()[j].file_path,
                old(markers).deep_view()[j].line_number,
            ) {
                Some(g) => Some(g),
                None => old(markers).deep_view()[j].git_info,
            }));
        }
    }
    Ok(())
}


} // verus!
