//! Data model: debt markers, their history metadata, and the scan
//! configuration.

use vstd::prelude::*;
use vstd::string::StringExecFns;

use crate::clock::now_secs;
use crate::text::dec_rep;
use crate::text::push_dec;

verus! {

/// Mathematical model of a [`GitBlameInfo`] value.
pub ghost struct GitBlameInfoView {
    pub author: Seq<char>,
    pub author_email: Seq<char>,
    pub commit_hash: Seq<char>,
    pub commit_time: int,
    pub age_days: int,
}

/// Authorship snapshot for one line, derived from repository history.
#[derive(Debug, Clone)]
pub struct GitBlameInfo {
    /// Author name of the attributing commit.
    pub author: String,
    /// Author email of the attributing commit.
    pub author_email: String,
    /// Abbreviated commit identifier, in fixed-width display form.
    pub commit_hash: String,
    /// Commit time as seconds since the Unix epoch.
    pub commit_time: i64,
    /// Whole days between the commit time and the moment enrichment ran.
    pub age_days: i64,
}

impl View for GitBlameInfo {
    type V = GitBlameInfoView;

    open spec fn view(&self) -> GitBlameInfoView {
        GitBlameInfoView {
            author: self.author@,
            author_email: self.author_email@,
            commit_hash: self.commit_hash@,
            commit_time: self.commit_time as int,
            age_days: self.age_days as int,
        }
    }
}

impl DeepView for GitBlameInfo {
    type V = GitBlameInfoView;

    open spec fn deep_view(&self) -> GitBlameInfoView {
        self.view()
    }
}

/// Mathematical model of a [`DebtMarker`] value.
pub ghost struct DebtMarkerView {
    pub marker_type: Seq<char>,
    pub file_path: Seq<char>,
    pub line_number: int,
    pub line_content: Seq<char>,
    pub context_before: Seq<Seq<char>>,
    pub context_after: Seq<Seq<char>>,
    pub git_info: Option<GitBlameInfoView>,
}

/// One detected technical-debt annotation.
#[derive(Debug, Clone)]
pub struct DebtMarker {
    /// Marker token as found in the source (for example `TODO`).
    pub marker_type: String,
    /// Path of the containing file, as discovered by the walk.
    pub file_path: String,
    /// 1-indexed position of the matching line within the file.
    pub line_number: usize,
    /// Raw, unmodified text of the matching line.
    pub line_content: String,
    /// Raw lines immediately preceding the match, oldest first.
    pub context_before: Vec<String>,
    /// Raw lines immediately following the match, in file order.
    pub context_after: Vec<String>,
    /// Authorship metadata; absent until enrichment runs, and still absent
    /// where enrichment was unavailable or failed for this line.
    pub git_info: Option<GitBlameInfo>,
}

impl View for DebtMarker {
    type V = DebtMarkerView;

    open spec fn view(&self) -> DebtMarkerView {
        DebtMarkerView {
            marker_type: self.marker_type@,
            file_path: self.file_path@,
            line_number: self.line_number as int,
            line_content: self.line_content@,
            context_before: self.context_before.deep_view(),
            context_after: self.context_after.deep_view(),
            git_info: self.git_info.deep_view(),
        }
    }
}

impl DeepView for DebtMarker {
    type V = DebtMarkerView;

    open spec fn deep_view(&self) -> DebtMarkerView {
        self.view()
    }
}

/// Configuration consumed read-only by the scan.
#[derive(Debug, Clone)]
pub struct Config {
    /// Marker tokens to search for.
    pub markers: Vec<String>,
    /// Bare directory names excluded from traversal.
    pub ignored_dirs: Vec<String>,
    /// Number of context lines captured before and after each marker.
    pub context_lines: usize,
    /// Optional severity label per marker token.
    pub severity: Vec<(String, String)>,
}

/// The marker vocabulary used when no configuration overrides it.
pub fn default_markers() -> (r: Vec<String>)
    ensures
        r.deep_view() == seq!["TODO"@, "FIXME"@, "HACK"@, "XXX"@, "NOTE"@],
{
    let mut v: Vec<String> = Vec::new();
    v.push(String::from_str("TODO"));
    v.push(String::from_str("FIXME"));
    v.push(String::from_str("HACK"));
    v.push(String::from_str("XXX"));
    v.push(String::from_str("NOTE"));
    proof {
        assert(v.deep_view() =~= seq!["TODO"@, "FIXME"@, "HACK"@, "XXX"@, "NOTE"@]);
    }
    v
}

/// The directory names skipped by traversal when no configuration overrides
/// them.
pub fn default_ignored_dirs() -> (r: Vec<String>)
    ensures
        r.deep_view() == seq![
            ".git"@,
            "node_modules"@,
            "target"@,
            "dist"@,
            "build"@,
            ".venv"@,
            "venv"@,
            "vendor"@,
            ".next"@,
            "__pycache__"@,
            ".pytest_cache"@,
            "coverage"@,
        ],
{
    let mut v: Vec<String> = Vec::new();
    v.push(String::from_str(".git"));
    v.push(String::from_str("node_modules"));
    v.push(String::from_str("target"));
    v.push(String::from_str("dist"));
    v.push(String::from_str("build"));
    v.push(String::from_str(".venv"));
    v.push(String::from_str("venv"));
    v.push(String::from_str("vendor"));
    v.push(String::from_str(".next"));
    v.push(String::from_str("__pycache__"));
    v.push(String::from_str(".pytest_cache"));
    v.push(String::from_str("coverage"));
    proof {
        assert(v.deep_view() =~= seq![
            ".git"@,
            "node_modules"@,
            "target"@,
            "dist"@,
            "build"@,
            ".venv"@,
            "venv"@,
            "vendor"@,
            ".next"@,
            "__pycache__"@,
            ".pytest_cache"@,
            "coverage"@,
        ]);
    }
    v
}

/// The context-window size used when no configuration overrides it.
pub fn default_context_lines() -> (r: usize)
    ensures
        r == 2,
{
    2
}

impl Default for Config {
    /// The built-in configuration: default marker vocabulary, default
    /// excluded directories, a two-line context window and no severity map.
    fn default() -> (r: Config)
        ensures
            r.markers.deep_view() == seq!["TODO"@, "FIXME"@, "HACK"@, "XXX"@, "NOTE"@],
            r.ignored_dirs.deep_view() == seq![
                ".git"@,
                "node_modules"@,
                "target"@,
                "dist"@,
                "build"@,
                ".venv"@,
                "venv"@,
                "vendor"@,
                ".next"@,
                "__pycache__"@,
                ".pytest_cache"@,
                "coverage"@,
            ],
            r.context_lines == 2,
            r.severity.deep_view() == Seq::<(Seq<char>, Seq<char>)>::empty(),
    {
        let r = Config {
            markers: default_markers(),
            ignored_dirs: default_ignored_dirs(),
            context_lines: default_context_lines(),
            severity: Vec::new(),
        };
        proof {
            assert(r.severity.deep_view() =~= Seq::<(Seq<char>, Seq<char>)>::empty());
        }
        r
    }
}

/// The human-readable form of an age in days: under 30 days the days
/// themselves, under 365 days whole months of 30 days, beyond that whole
/// years of 365 days.
pub open spec fn age_display_spec(days: int) -> Seq<char> {
    if days < 30 {
        dec_rep(days as nat).push('d')
    } else if days < 365 {
        dec_rep((days / 30) as nat).push('m')
    } else {
        dec_rep((days / 365) as nat).push('y')
    }
}

impl GitBlameInfo {
    /// Formats the age as a short human-readable string such as `15d`,
    /// `2m` or `1y`.
    pub fn age_display(&self) -> (r: String)
        requires
            self.age_days >= 0,
        ensures
            r@ == age_display_spec(self.age_days as int),
    {
        let days = self.age_days as u64;
        let mut s = String::new();
        if days < 30 {
            push_dec(&mut s, days);
            s.append("d");
            proof {
                reveal_strlit("d");
                assert(s@ =~= age_display_spec(self.age_days as int));
            }
        } else if days < 365 {
            push_dec(&mut s, days / 30);
            s.append("m");
            proof {
                reveal_strlit("m");
                assert(s@ =~= age_display_spec(self.age_days as int));
            }
        } else {
            push_dec(&mut s, days / 365);
            s.append("y");
            proof {
                reveal_strlit("y");
                assert(s@ =~= age_display_spec(self.age_days as int));
            }
        }
        s
    }
}

/// How many of the markers have the given type.
pub open spec fn count_type(ms: Seq<DebtMarkerView>, t: Seq<char>) -> int
    decreases ms.len(),
{
    if ms.len() == 0 {
        0
    } else {
        count_type(ms.drop_last(), t) + if ms.last().marker_type == t {
            1int
        } else {
            0int
        }
    }
}

/// How many of the markers stand in the given file.
pub open spec fn count_file(ms: Seq<DebtMarkerView>, p: Seq<char>) -> int
    decreases ms.len(),
{
    if ms.len() == 0 {
        0
    } else {
        count_file(ms.drop_last(), p) + if ms.last().file_path == p {
            1int
        } else {
            0int
        }
    }
}

/// How many of the markers carry history metadata naming the given author.
pub open spec fn count_author(ms: Seq<DebtMarkerView>, a: Seq<char>) -> int
    decreases ms.len(),
{
    if ms.len() == 0 {
        0
    } else {
        count_author(ms.drop_last(), a) + if ms.last().git_info matches Some(g) && g.author == a {
            1int
        } else {
            0int
        }
    }
}

/// The value stored under key `k` in the association list, searched from
/// position `j` on.
pub open spec fn assoc_find(v: Seq<(Seq<char>, usize)>, k: Seq<char>, j: int) -> Option<usize>
    decreases v.len() - j,
{
    if j < 0 || j >= v.len() {
        None
    } else if v[j].0 == k {
        Some(v[j].1)
    } else {
        assoc_find(v, k, j + 1)
    }
}

/// The value stored under key `k` in the association list, if any.
pub open spec fn assoc_lookup(v: Seq<(Seq<char>, usize)>, k: Seq<char>) -> Option<usize> {
    assoc_find(v, k, 0)
}

/// The count stored under key `k`, taking an absent key as zero.
pub open spec fn counted(v: Seq<(Seq<char>, usize)>, k: Seq<char>) -> int {
    match assoc_lookup(v, k) {
        Some(c) => c as int,
        None => 0,
    }
}

proof fn lemma_assoc_find_update_same(
    v: Seq<(Seq<char>, usize)>,
    j: int,
    c2: usize,
    j0: int,
)
    requires
        0 <= j0 <= j < v.len(),
        forall|m: int| j0 <= m < j ==> (#[trigger] v[m]).0 != v[j].0,
    ensures
        assoc_find(v.update(j, (v[j].0, c2)), v[j].0, j0) == Some(c2),
    decreases j - j0,
{
    let v2 = v.update(j, (v[j].0, c2));
    if j0 < j {
        assert(v2[j0] == v[j0]);
        lemma_assoc_find_update_same(v, j, c2, j0 + 1);
    }
}

proof fn lemma_assoc_find_update_other(
    v: Seq<(Seq<char>, usize)>,
    j: int,
    c2: usize,
    t: Seq<char>,
    j0: int,
)
    requires
        0 <= j < v.len(),
        0 <= j0,
        t != v[j].0,
    ensures
        assoc_find(v.update(j, (v[j].0, c2)), t, j0) == assoc_find(v, t, j0),
    decreases v.len() - j0,
{
    let v2 = v.update(j, (v[j].0, c2));
    if j0 < v.len() {
        assert(v2[j0].0 == v[j0].0);
        lemma_assoc_find_update_other(v, j, c2, t, j0 + 1);
    }
}

proof fn lemma_assoc_find_push(
    v: Seq<(Seq<char>, usize)>,
    p: (Seq<char>, usize),
    t: Seq<char>,
    j0: int,
)
    requires
        0 <= j0 <= v.len(),
    ensures
        assoc_find(v, t, j0) is Some ==> assoc_find(v.push(p), t, j0) == assoc_find(v, t, j0),
        assoc_find(v, t, j0) is None ==> assoc_find(v.push(p), t, j0) == (if p.0 == t {
            Some(p.1)
        } else {
            None
        }),
    decreases v.len() - j0,
{
    if j0 < v.len() {
        assert(v.push(p)[j0] == v[j0]);
        lemma_assoc_find_push(v, p, t, j0 + 1);
        if v[j0].0 == t {
            assert(assoc_find(v, t, j0) == Some(v[j0].1));
            assert(assoc_find(v.push(p), t, j0) == Some(v[j0].1));
        } else {
            assert(assoc_find(v, t, j0) == assoc_find(v, t, j0 + 1));
            assert(assoc_find(v.push(p), t, j0) == assoc_find(v.push(p), t, j0 + 1));
        }
    } else {
        assert(v.push(p)[j0] == p);
        assert(assoc_find(v, t, j0) is None);
        if p.0 == t {
            assert(assoc_find(v.push(p), t, j0) == Some(p.1));
        } else {
            assert(assoc_find(v.push(p), t, j0) == assoc_find(v.push(p), t, j0 + 1));
            assert(assoc_find(v.push(p), t, j0 + 1) is None);
        }
    }
}

proof fn lemma_assoc_find_found(v: Seq<(Seq<char>, usize)>, k: Seq<char>, j0: int, j: int)
    requires
        0 <= j0 <= j < v.len(),
        forall|m: int| j0 <= m < j ==> (#[trigger] v[m]).0 != k,
        v[j].0 == k,
    ensures
        assoc_find(v, k, j0) == Some(v[j].1),
    decreases j - j0,
{
    if j0 < j {
        lemma_assoc_find_found(v, k, j0 + 1, j);
    }
}

/// Adds one to the count stored under `key`, creating the entry where it is
/// absent.
fn tally(counts: &mut Vec<(String, usize)>, key: &String)
    requires
        assoc_lookup(old(counts).deep_view(), key@) matches Some(c) ==> c < usize::MAX,
    ensures
        counted(final(counts).deep_view(), key@) == counted(old(counts).deep_view(), key@) + 1,
        assoc_lookup(final(counts).deep_view(), key@) is Some,
        forall|t: Seq<char>|
            t != key@ ==> assoc_lookup(final(counts).deep_view(), t) == assoc_lookup(
                old(counts).deep_view(),
                t,
            ),
{
    let ghost dv = counts.deep_view();
    let mut j: usize = 0;
    while j < counts.len()
        invariant
            dv == counts.deep_view(),
            dv.len() == counts@.len(),
            j <= counts@.len(),
            assoc_lookup(old(counts).deep_view(), key@) matches Some(c) ==> c < usize::MAX,
            counts == old(counts),
            forall|m: int| 0 <= m < j ==> (#[trigger] dv[m]).0 != key@,
        decreases counts@.len() - j,
    {
        proof {
            assert(dv[j as int] == (counts@[j as int].0@, counts@[j as int].1));
        }
        if crate::text::eq_str(counts[j].0.as_str(), key.as_str()) {
            let c = counts[j].1;
            proof {
                lemma_assoc_find_found(dv, key@, 0, j as int);
            }
            let k0 = counts[j].0.clone();
            counts[j] = (k0, c + 1);
            proof {
                assert(counts.deep_view() =~= dv.update(j as int, (key@, (c + 1) as usize)));
                assert(dv[j as int].0 == key@);
                assert(dv.update(j as int, (key@, (c + 1) as usize)) =~= dv.update(
                    j as int,
                    (dv[j as int].0, (c + 1) as usize),
                ));
                lemma_assoc_find_update_same(dv, j as int, (c + 1) as usize, 0);
                assert forall|t: Seq<char>| t != key@ implies assoc_lookup(
                    counts.deep_view(),
                    t,
                ) == assoc_lookup(dv, t) by {
                    lemma_assoc_find_update_other(dv, j as int, (c + 1) as usize, t, 0);
                }
            }
            return ;
        }
        j = j + 1;
    }
    proof {
        assert(forall|m: int| 0 <= m < dv.len() ==> (#[trigger] dv[m]).0 != key@);
        if assoc_lookup(dv, key@) is Some {
            lemma_assoc_none_when_absent(dv, key@, 0);
        }
    }
    counts.push((key.clone(), 1));
    proof {
        assert(counts.deep_view() =~= dv.push((key@, 1usize)));
        lemma_assoc_find_push(dv, (key@, 1usize), key@, 0);
        assert forall|t: Seq<char>| t != key@ implies assoc_lookup(counts.deep_view(), t)
            == assoc_lookup(dv, t) by {
            lemma_assoc_find_push(dv, (key@, 1usize), t, 0);
        }
    }
}

proof fn lemma_assoc_none_when_absent(v: Seq<(Seq<char>, usize)>, k: Seq<char>, j0: int)
    requires
        0 <= j0,
        forall|m: int| 0 <= m < v.len() ==> (#[trigger] v[m]).0 != k,
    ensures
        assoc_find(v, k, j0) is None,
    decreases v.len() - j0,
{
    if j0 < v.len() {
        lemma_assoc_none_when_absent(v, k, j0 + 1);
    }
}

/// A complete report over one scan: the markers together with summary
/// counts by marker type, author and file.
#[derive(Debug, Clone)]
pub struct DebtReport {
    /// All markers found.
    pub markers: Vec<DebtMarker>,
    /// Total number of markers.
    pub total_count: usize,
    /// Count of markers per marker type.
    pub by_type: Vec<(String, usize)>,
    /// Count of markers per author (markers with history metadata only).
    pub by_author: Vec<(String, usize)>,
    /// Count of markers per file.
    pub by_file: Vec<(String, usize)>,
    /// The path that was scanned.
    pub scan_path: String,
    /// When the report was built, as seconds since the Unix epoch.
    pub scan_time: i64,
}

impl DebtReport {
    /// Builds a report from a collection of markers: the total and the
    /// per-type, per-author and per-file counts are exactly the counts over
    /// the marker list.
    pub fn new(markers: Vec<DebtMarker>, scan_path: String) -> (r: DebtReport)
        ensures
            r.markers == markers,
            r.total_count == markers@.len(),
            r.scan_path == scan_path,
            forall|t: Seq<char>|
                counted(r.by_type.deep_view(), t) == count_type(markers.deep_view(), t),
            forall|t: Seq<char>|
                assoc_lookup(r.by_type.deep_view(), t) is Some <==> count_type(
                    markers.deep_view(),
                    t,
                ) > 0,
            forall|p: Seq<char>|
                counted(r.by_file.deep_view(), p) == count_file(markers.deep_view(), p),
            forall|p: Seq<char>|
                assoc_lookup(r.by_file.deep_view(), p) is Some <==> count_file(
                    markers.deep_view(),
                    p,
                ) > 0,
            forall|a: Seq<char>|
                counted(r.by_author.deep_view(), a) == count_author(markers.deep_view(), a),
            forall|a: Seq<char>|
                assoc_lookup(r.by_author.deep_view(), a) is Some <==> count_author(
                    markers.deep_view(),
                    a,
                ) > 0,
    {
        let ghost ms = markers.deep_view();
        let total_count = markers.len();
        let mut by_type: Vec<(String, usize)> = Vec::new();
        let mut by_author: Vec<(String, usize)> = Vec::new();
        let mut by_file: Vec<(String, usize)> = Vec::new();
        let mut i: usize = 0;
        proof {
            assert(ms.take(0) =~= Seq::<DebtMarkerView>::empty());
        }
        while i < markers.len()
            invariant
                ms == markers.deep_view(),
                ms.len() == markers@.len(),
                i <= markers@.len(),
                forall|t: Seq<char>|
                    counted(by_type.deep_view(), t) == count_type(ms.take(i as int), t),
                forall|t: Seq<char>|
                    assoc_lookup(by_type.deep_view(), t) is Some <==> count_type(
                        ms.take(i as int),
                        t,
                    ) > 0,
                forall|p: Seq<char>|
                    counted(by_file.deep_view(), p) == count_file(ms.take(i as int), p),
                forall|p: Seq<char>|
                    assoc_lookup(by_file.deep_view(), p) is Some <==> count_file(
                        ms.take(i as int),
                        p,
                    ) > 0,
                forall|a: Seq<char>|
                    counted(by_author.deep_view(), a) == count_author(ms.take(i as int), a),
                forall|a: Seq<char>|
                    assoc_lookup(by_author.deep_view(), a) is Some <==> count_author(
                        ms.take(i as int),
                        a,
                    ) > 0,
            decreases markers@.len() - i,
        {
            proof {
                lemma_count_bounds(ms.take(i as int));
                assert(ms.take(i + 1).drop_last() =~= ms.take(i as int));
                assert(ms.take(i + 1).last() == ms[i as int]);
                assert(ms[i as int] == markers@[i as int]@);
            }
            let m = &markers[i];
            let ghost bt0 = by_type.deep_view();
            let ghost bf0 = by_file.deep_view();
            let ghost ba0 = by_author.deep_view();
            proof {
                assert(counted(bt0, m.marker_type@) == count_type(
                    ms.take(i as int),
                    m.marker_type@,
                ));
                assert(count_type(ms.take(i as int), m.marker_type@) <= i as int);
                assert(counted(bf0, m.file_path@) == count_file(ms.take(i as int), m.file_path@));
                assert(count_file(ms.take(i as int), m.file_path@) <= i as int);
            }
            tally(&mut by_type, &m.marker_type);
            tally(&mut by_file, &m.file_path);
            proof {
                assert forall|t: Seq<char>| counted(by_type.deep_view(), t) == count_type(
                    ms.take(i + 1),
                    t,
                ) && (assoc_lookup(by_type.deep_view(), t) is Some <==> count_type(
                    ms.take(i + 1),
                    t,
                ) > 0) by {
                    assert(count_type(ms.take(i + 1), t) == count_type(ms.take(i as int), t) + (
                    if ms[i as int].marker_type == t {
                        1int
                    } else {
                        0int
                    }));
                    assert(counted(bt0, t) == count_type(ms.take(i as int), t));
                    if t != m.marker_type@ {
                        assert(assoc_lookup(by_type.deep_view(), t) == assoc_lookup(bt0, t));
                    }
                }
                assert forall|t: Seq<char>| counted(by_file.deep_view(), t) == count_file(
                    ms.take(i + 1),
                    t,
                ) && (assoc_lookup(by_file.deep_view(), t) is Some <==> count_file(
                    ms.take(i + 1),
                    t,
                ) > 0) by {
                    assert(count_file(ms.take(i + 1), t) == count_file(ms.take(i as int), t) + (
                    if ms[i as int].file_path == t {
                        1int
                    } else {
                        0int
                    }));
                    assert(counted(bf0, t) == count_file(ms.take(i as int), t));
                    if t != m.file_path@ {
                        assert(assoc_lookup(by_file.deep_view(), t) == assoc_lookup(bf0, t));
                    }
                }
            }
            match &m.git_info {
                Some(g) => {
                    proof {
                        assert(ms[i as int].git_info == Some(g@));
                        assert(counted(ba0, g.author@) == count_author(
                            ms.take(i as int),
                            g.author@,
                        ));
                        assert(count_author(ms.take(i as int), g.author@) <= i as int);
                    }
                    tally(&mut by_author, &g.author);
                    proof {
                        assert forall|a: Seq<char>| counted(by_author.deep_view(), a)
                            == count_author(ms.take(i + 1), a) && (assoc_lookup(
                            by_author.deep_view(),
                            a,
                        ) is Some <==> count_author(ms.take(i + 1), a) > 0) by {
                            assert(count_author(ms.take(i + 1), a) == count_author(
                                ms.take(i as int),
                                a,
                            ) + (if ms[i as int].git_info matches Some(gg) && gg.author == a {
                                1int
                            } else {
                                0int
                            }));
                            assert(counted(ba0, a) == count_author(ms.take(i as int), a));
                            if a != g.author@ {
                                assert(assoc_lookup(by_author.deep_view(), a) == assoc_lookup(
                                    ba0,
                                    a,
                                ));
                            }
                        }
                    }
                },
                None => {
                    proof {
                        assert(ms[i as int].git_info is None);
                        assert forall|a: Seq<char>| counted(by_author.deep_view(), a)
                            == count_author(ms.take(i + 1), a) && (assoc_lookup(
                            by_author.deep_view(),
                            a,
                        ) is Some <==> count_author(ms.take(i + 1), a) > 0) by {
                            assert(count_author(ms.take(i + 1), a) == count_author(
                                ms.take(i as int),
                                a,
                            ));
                        }
                    }
                },
            }
            i = i + 1;
        }
        proof {
            assert(ms.take(i as int) =~= ms);
        }
        DebtReport {
            markers,
            total_count,
            by_type,
            by_author,
            by_file,
            scan_path,
            scan_time: now_secs(),
        }
    }
}

proof fn lemma_count_bounds(ms: Seq<DebtMarkerView>)
    ensures
        forall|t: Seq<char>| 0 <= #[trigger] count_type(ms, t) <= ms.len(),
        forall|p: Seq<char>| 0 <= #[trigger] count_file(ms, p) <= ms.len(),
        forall|a: Seq<char>| 0 <= #[trigger] count_author(ms, a) <= ms.len(),
    decreases ms.len(),
{
    if ms.len() > 0 {
        lemma_count_bounds(ms.drop_last());
        assert forall|t: Seq<char>| 0 <= #[trigger] count_type(ms, t) <= ms.len() by {
            assert(0 <= count_type(ms.drop_last(), t) <= ms.drop_last().len());
        }
        assert forall|p: Seq<char>| 0 <= #[trigger] count_file(ms, p) <= ms.len() by {
            assert(0 <= count_file(ms.drop_last(), p) <= ms.drop_last().len());
        }
        assert forall|a: Seq<char>| 0 <= #[trigger] count_author(ms, a) <= ms.len() by {
            assert(0 <= count_author(ms.drop_last(), a) <= ms.drop_last().len());
        }
    } else {
        assert forall|t: Seq<char>| 0 <= #[trigger] count_type(ms, t) <= ms.len() by {
            assert(count_type(ms, t) == 0);
        }
        assert forall|p: Seq<char>| 0 <= #[trigger] count_file(ms, p) <= ms.len() by {
            assert(count_file(ms, p) == 0);
        }
        assert forall|a: Seq<char>| 0 <= #[trigger] count_author(ms, a) <= ms.len() by {
            assert(count_author(ms, a) == 0);
        }
    }
}


/// The markers that carry history metadata, in their original order.
pub open spec fn with_git(ms: Seq<DebtMarkerView>) -> Seq<DebtMarkerView>
    decreases ms.len(),
{
    if ms.len() == 0 {
        Seq::empty()
    } else if ms.last().git_info is Some {
        with_git(ms.drop_last()).push(ms.last())
    } else {
        with_git(ms.drop_last())
    }
}

/// The age of a marker that carries history metadata.
pub open spec fn age_of(m: DebtMarkerView) -> int {
    (m.git_info->0).age_days
}

/// The markers are ordered oldest first.
pub open spec fn sorted_by_age_desc(s: Seq<DebtMarkerView>) -> bool {
    forall|j: int, k: int|
        0 <= j < k < s.len() ==> age_of(#[trigger] s[j]) >= age_of(#[trigger] s[k])
}

proof fn lemma_insert_to_multiset(s: Seq<DebtMarkerView>, i: int, x: DebtMarkerView)
    requires
        0 <= i <= s.len(),
    ensures
        s.insert(i, x).to_multiset() == s.to_multiset().insert(x),
{
    broadcast use vstd::seq_lib::group_to_multiset_ensures;

    let l = s.subrange(0, i);
    let r = s.subrange(i, s.len() as int);
    assert(s.insert(i, x) == l.push(x) + r);
    assert(s =~= l + r);
    vstd::seq_lib::lemma_multiset_commutative(l.push(x), r);
    vstd::seq_lib::lemma_multiset_commutative(l, r);
    assert(l.push(x).to_multiset() =~= l.to_multiset().insert(x));
    assert(l.to_multiset().insert(x).add(r.to_multiset()) =~= l.to_multiset().add(
        r.to_multiset(),
    ).insert(x));
}

impl DebtReport {
    /// The `limit` oldest markers, oldest first, among the markers that
    /// carry history metadata: a sorting (by age, descending) of those
    /// markers, cut off after `limit` entries.
    pub fn oldest_markers<'a>(&'a self, limit: usize) -> (r: Vec<&'a DebtMarker>)
        ensures
            exists|s: Seq<DebtMarkerView>|
                {
                    &&& #[trigger] s.to_multiset() == with_git(
                        self.markers.deep_view(),
                    ).to_multiset()
                    &&& sorted_by_age_desc(s)
                    &&& forall|j: int| 0 <= j < s.len() ==> (#[trigger] s[j]).git_info is Some
                    &&& r.deep_view() == s.take(
                        if limit as int <= s.len() {
                            limit as int
                        } else {
                            s.len() as int
                        },
                    )
                },
    {
        let ghost ms = self.markers.deep_view();
        let mut sorted: Vec<&'a DebtMarker> = Vec::new();
        let mut i: usize = 0;
        proof {
            broadcast use vstd::seq_lib::group_to_multiset_ensures;

            assert(ms.take(0) =~= Seq::<DebtMarkerView>::empty());
            assert(sorted.deep_view() =~= Seq::<DebtMarkerView>::empty());
            assert(sorted.deep_view().to_multiset() =~= with_git(ms.take(0)).to_multiset());
        }
        while i < self.markers.len()
            invariant
                ms == self.markers.deep_view(),
                ms.len() == self.markers@.len(),
                i <= ms.len(),
                sorted.deep_view().to_multiset() == with_git(ms.take(i as int)).to_multiset(),
                sorted_by_age_desc(sorted.deep_view()),
                forall|j: int|
                    0 <= j < sorted.deep_view().len() ==> (#[trigger] sorted.deep_view()[j])
                        .git_info is Some,
            decreases ms.len() - i,
        {
            proof {
                assert(ms.take(i + 1).drop_last() =~= ms.take(i as int));
                assert(ms.take(i + 1).last() == ms[i as int]);
                assert(ms[i as int] == self.markers@[i as int]@);
            }
            let m = &self.markers[i];
            if m.git_info.is_some() {
                let age = match &m.git_info {
                    Some(g) => g.age_days,
                    None => 0,
                };
                proof {
                    assert(age == age_of(m@));
                }
                let mut p: usize = 0;
                loop
                    invariant
                        p <= sorted@.len(),
                        sorted@.len() == sorted.deep_view().len(),
                        forall|j: int|
                            0 <= j < sorted.deep_view().len() ==> (#[trigger] sorted.deep_view()[
                            j]).git_info is Some,
                        forall|q: int|
                            0 <= q < p ==> age_of(#[trigger] sorted.deep_view()[q]) >= age,
                    ensures
                        p <= sorted@.len(),
                        forall|q: int|
                            0 <= q < p ==> age_of(#[trigger] sorted.deep_view()[q]) >= age,
                        p == sorted@.len() || age_of(sorted.deep_view()[p as int]) < age,
                    decreases sorted@.len() - p,
                {
                    if p >= sorted.len() {
                        break ;
                    }
                    let e = sorted[p];
                    let page = match &e.git_info {
                        Some(g) => g.age_days,
                        None => 0,
                    };
                    proof {
                        assert(sorted.deep_view()[p as int] == e@);
                        assert(page == age_of(e@));
                    }
                    if page < age {
                        break ;
                    }
                    p = p + 1;
                }
                let ghost s0 = sorted.deep_view();
                sorted.insert(p, m);
                proof {
                    broadcast use vstd::seq_lib::group_to_multiset_ensures;

                    assert(sorted.deep_view() =~= s0.insert(p as int, m@));
                    lemma_insert_to_multiset(s0, p as int, m@);
                    assert(with_git(ms.take(i + 1)) == with_git(ms.take(i as int)).push(
                        ms[i as int],
                    ));
                    assert(with_git(ms.take(i as int)).push(ms[i as int]).to_multiset()
                        =~= with_git(ms.take(i as int)).to_multiset().insert(ms[i as int]));
                    s0.insert_ensures(p as int, m@);
                    assert forall|j: int, k: int|
                        0 <= j < k < sorted.deep_view().len() implies age_of(
                        #[trigger] sorted.deep_view()[j],
                    ) >= age_of(#[trigger] sorted.deep_view()[k]) by {
                        let s1 = sorted.deep_view();
                        if k < p {
                            assert(s1[j] == s0[j] && s1[k] == s0[k]);
                        } else if j > p {
                            assert(s1[j] == s0[j - 1] && s1[k] == s0[k - 1]);
                        } else if j < p && k == p {
                            assert(s1[j] == s0[j] && s1[k] == m@);
                        } else if j == p && k > p {
                            assert(s1[j] == m@ && s1[k] == s0[k - 1]);
                            assert(age_of(s0[p as int]) < age);
                            assert(age_of(s0[k - 1]) <= age_of(s0[p as int]));
                        } else if j < p && k > p {
                            assert(s1[j] == s0[j] && s1[k] == s0[k - 1]);
                        }
                    }
                    assert forall|j: int|
                        0 <= j < sorted.deep_view().len() implies (#[trigger] sorted.deep_view()[
                    j]).git_info is Some by {
                        let s1 = sorted.deep_view();
                        if j < p {
                            assert(s1[j] == s0[j]);
                        } else if j > p {
                            assert(s1[j] == s0[j - 1]);
                        } else {
                            assert(s1[j] == m@);
                        }
                    }
                }
            } else {
                proof {
                    assert(ms[i as int].git_info is None);
                    assert(with_git(ms.take(i + 1)) == with_git(ms.take(i as int)));
                }
            }
            i = i + 1;
        }
        proof {
            assert(ms.take(i as int) =~= ms);
        }
        let ghost s_full = sorted.deep_view();
        if limit < sorted.len() {
            sorted.truncate(limit);
            proof {
                assert(sorted.deep_view() =~= s_full.take(limit as int));
            }
        } else {
            proof {
                assert(sorted.deep_view() =~= s_full.take(s_full.len() as int));
            }
        }
        sorted
    }
}


/// A copy of a string vector whose model equals the input's.
pub fn copy_strings(v: &Vec<String>) -> (r: Vec<String>)
    ensures
        r.deep_view() == v.deep_view(),
{
    let mut r: Vec<String> = Vec::new();
    let mut i: usize = 0;
    while i < v.len()
        invariant
            i <= v@.len(),
            r@.len() == i,
            forall|j: int| 0 <= j < i ==> (#[trigger] r@[j])@ == v@[j]@,
        decreases v@.len() - i,
    {
        r.push(v[i].clone());
        i = i + 1;
    }
    proof {
        assert(r.deep_view() =~= v.deep_view());
    }
    r
}

impl GitBlameInfo {
    /// A copy whose model equals this one's.
    pub fn duplicate(&self) -> (r: GitBlameInfo)
        ensures
            r@ == self@,
    {
        GitBlameInfo {
            author: self.author.clone(),
            author_email: self.author_email.clone(),
            commit_hash: self.commit_hash.clone(),
            commit_time: self.commit_time,
            age_days: self.age_days,
        }
    }
}

impl DebtMarker {
    /// A copy whose model equals this one's.
    pub fn duplicate(&self) -> (r: DebtMarker)
        ensures
            r@ == self@,
    {
        DebtMarker {
            marker_type: self.marker_type.clone(),
            file_path: self.file_path.clone(),
            line_number: self.line_number,
            line_content: self.line_content.clone(),
            context_before: copy_strings(&self.context_before),
            context_after: copy_strings(&self.context_after),
            git_info: match &self.git_info {
                Some(g) => Some(g.duplicate()),
                None => None,
            },
        }
    }
}


} // verus!
