//! The file scanner: a single-pass, line-oriented reader over a file's
//! bytes. Lines are delimited by newline bytes, trailing carriage returns are
//! stripped, and lines that do not decode as UTF-8 are skipped (they still
//! count toward line numbers). The scanner applies the compiled rule to each
//! decoded line, keeps a bounded rolling window of preceding lines for
//! `context_before`, and collects a bounded window of following lines for
//! `context_after`.

use vstd::prelude::*;
use vstd::string::StrSliceExecFns;
use vstd::string::StringExecFns;
use vstd::utf8::valid_utf8;
use vstd::utf8::decode_utf8;

use crate::models::DebtMarker;
use crate::models::DebtMarkerView;
use crate::pattern::MarkerPattern;
use crate::pattern::line_match;
use crate::pattern::line_matches;
use crate::text::chars_of;
use crate::text::eq_str;
use crate::text::lower_of;
use crate::text::to_lowercase_str;

verus! {

/// Files larger than this many bytes are skipped unconditionally before
/// scanning begins, to bound worst-case memory and time.
pub const MAX_FILE_SIZE: u64 = 10 * 1024 * 1024;

/// The completed lines of `b` (split at newline bytes, newline not included)
/// together with the trailing partial line after the last newline.
pub open spec fn split_acc(b: Seq<u8>) -> (Seq<Seq<u8>>, Seq<u8>)
    decreases b.len(),
{
    if b.len() == 0 {
        (Seq::empty(), Seq::empty())
    } else {
        let (done, cur) = split_acc(b.drop_last());
        if b.last() == 10u8 {
            (done.push(cur), Seq::empty())
        } else {
            (done, cur.push(b.last()))
        }
    }
}

/// The lines of `b`: segments delimited by newline bytes, with a final
/// segment after the last newline only where it is nonempty (so a trailing
/// newline does not produce an extra empty line).
pub open spec fn split_lines_spec(b: Seq<u8>) -> Seq<Seq<u8>> {
    let (done, cur) = split_acc(b);
    if cur.len() == 0 {
        done
    } else {
        done.push(cur)
    }
}

/// `l` with every trailing carriage-return byte removed.
pub open spec fn strip_cr_spec(l: Seq<u8>) -> Seq<u8>
    decreases l.len(),
{
    if l.len() > 0 && l.last() == 13u8 {
        strip_cr_spec(l.drop_last())
    } else {
        l
    }
}

/// One physical line, decoded: its text after stripping trailing carriage
/// returns, or `None` where the bytes are not valid UTF-8.
pub open spec fn decode_line_spec(l: Seq<u8>) -> Option<Seq<char>> {
    if valid_utf8(strip_cr_spec(l)) {
        Some(decode_utf8(strip_cr_spec(l)))
    } else {
        None
    }
}

/// All physical lines of a file's bytes, each decoded or `None`.
pub open spec fn decoded_lines_spec(b: Seq<u8>) -> Seq<Option<Seq<char>>> {
    Seq::new(split_lines_spec(b).len(), |i: int| decode_line_spec(split_lines_spec(b)[i]))
}

/// Relies on str::from_utf8: it succeeds exactly on valid UTF-8 input and
/// decodes it to the corresponding characters.
#[verifier::external_body]
fn decode_line(bytes: &[u8]) -> (r: Option<String>)
    ensures
        r is Some <==> valid_utf8(bytes@),
        r matches Some(s) ==> s@ == decode_utf8(bytes@),
{
    match core::str::from_utf8(bytes) {
        Ok(s) => Some(s.to_string()),
        Err(_) => None,
    }
}

/// Splits a file's bytes into physical lines and decodes each: trailing
/// carriage returns are stripped, and a line that is not valid UTF-8 becomes
/// `None` while keeping its place in the numbering.
pub fn decode_lines(content: &[u8]) -> (r: Vec<Option<String>>)
    ensures
        r.deep_view() == decoded_lines_spec(content@),
{
    let n = content.len();
    let mut r: Vec<Option<String>> = Vec::new();
    let mut start: usize = 0;
    let mut i: usize = 0;
    while i < n
        invariant
            n == content@.len(),
            start <= i <= n,
            r@.len() == split_acc(content@.take(i as int)).0.len(),
            forall|j: int|
                0 <= j < r@.len() ==> r@[j].deep_view() == decode_line_spec(
                    split_acc(content@.take(i as int)).0[j],
                ),
            split_acc(content@.take(i as int)).1 == content@.subrange(start as int, i as int),
        decreases n - i,
    {
        let ghost pre = content@.take(i as int);
        proof {
            assert(content@.take(i + 1).drop_last() =~= pre);
            assert(content@.take(i + 1).last() == content@[i as int]);
        }
        if content[i] == 10 {
            let mut e = i;
            while e > start && content[e - 1] == 13
                invariant
                    n == content@.len(),
                    start <= e <= i <= n,
                    strip_cr_spec(content@.subrange(start as int, i as int)) == strip_cr_spec(
                        content@.subrange(start as int, e as int),
                    ),
                decreases e,
            {
                proof {
                    assert(content@.subrange(start as int, e as int).drop_last() =~= content@
                        .subrange(start as int, e - 1));
                    assert(content@.subrange(start as int, e as int).last() == content@[e - 1]);
                }
                e = e - 1;
            }
            proof {
                if e > start {
                    assert(content@.subrange(start as int, e as int).last() == content@[e - 1]);
                }
                assert(strip_cr_spec(content@.subrange(start as int, e as int)) == content@
                    .subrange(start as int, e as int));
            }
            let seg = vstd::slice::slice_subrange(content, start, e);
            let d = decode_line(seg);
            let ghost cur = content@.subrange(start as int, i as int);
            r.push(d);
            start = i + 1;
            i = i + 1;
            proof {
                assert(split_acc(content@.take(i as int)).0 == split_acc(pre).0.push(cur));
                assert(forall|j: int|
                    0 <= j < r@.len() ==> r@[j].deep_view() == decode_line_spec(
                        split_acc(content@.take(i as int)).0[j],
                    ));
                assert(split_acc(content@.take(i as int)).1 =~= content@.subrange(
                    start as int,
                    i as int,
                ));
            }
        } else {
            i = i + 1;
            proof {
                assert(split_acc(content@.take(i as int)).0 == split_acc(pre).0);
                assert(split_acc(content@.take(i as int)).1 =~= content@.subrange(
                    start as int,
                    i as int,
                ));
            }
        }
    }
    proof {
        assert(content@.take(n as int) =~= content@);
    }
    if start < n {
        let mut e = n;
        while e > start && content[e - 1] == 13
            invariant
                n == content@.len(),
                start <= e <= n,
                strip_cr_spec(content@.subrange(start as int, n as int)) == strip_cr_spec(
                    content@.subrange(start as int, e as int),
                ),
            decreases e,
        {
            proof {
                assert(content@.subrange(start as int, e as int).drop_last() =~= content@.subrange(
                    start as int,
                    e - 1,
                ));
                assert(content@.subrange(start as int, e as int).last() == content@[e - 1]);
            }
            e = e - 1;
        }
        proof {
            if e > start {
                assert(content@.subrange(start as int, e as int).last() == content@[e - 1]);
            }
            assert(strip_cr_spec(content@.subrange(start as int, e as int)) == content@.subrange(
                start as int,
                e as int,
            ));
        }
        let seg = vstd::slice::slice_subrange(content, start, e);
        let d = decode_line(seg);
        r.push(d);
    }
    proof {
        assert(r.deep_view() =~= decoded_lines_spec(content@));
    }
    r
}

/// Whether a directory entry's bare name stands in the configured
/// excluded-directory set (an exact match, not a pattern).
pub fn is_ignored_dir(name: &str, ignored_dirs: &Vec<String>) -> (r: bool)
    ensures
        r == exists|j: int|
            0 <= j < ignored_dirs.deep_view().len() && ignored_dirs.deep_view()[j] == name@,
{
    let mut i: usize = 0;
    while i < ignored_dirs.len()
        invariant
            i <= ignored_dirs@.len(),
            forall|j: int| 0 <= j < i ==> ignored_dirs.deep_view()[j] != name@,
        decreases ignored_dirs@.len() - i,
    {
        if eq_str(ignored_dirs[i].as_str(), name) {
            proof {
                assert(ignored_dirs.deep_view()[i as int] == name@);
            }
            return true;
        }
        proof {
            assert(ignored_dirs.deep_view()[i as int] == ignored_dirs@[i as int]@);
        }
        i = i + 1;
    }
    false
}

/// The index just after the last `/` of `p` (0 where `p` has none): where the
/// file name of the path starts.
pub open spec fn file_name_start(p: Seq<char>) -> int
    decreases p.len(),
{
    if p.len() == 0 {
        0
    } else if p.last() == '/' {
        p.len() as int
    } else {
        file_name_start(p.drop_last())
    }
}

/// The position of the last `.` of `name`, or `-1` where it has none.
pub open spec fn last_dot_pos(name: Seq<char>) -> int
    decreases name.len(),
{
    if name.len() == 0 {
        -1
    } else if name.last() == '.' {
        name.len() - 1
    } else {
        last_dot_pos(name.drop_last())
    }
}

/// The extension of a path: the part of its file name (the part after the
/// last `/`) that follows the file name's last `.`. A name without a dot, or
/// whose only dot starts it, has no extension.
pub open spec fn extension_spec(p: Seq<char>) -> Option<Seq<char>> {
    let name = p.subrange(file_name_start(p), p.len() as int);
    let d = last_dot_pos(name);
    if d >= 1 {
        Some(name.subrange(d + 1, name.len() as int))
    } else {
        None
    }
}

/// File extensions (lower case) taken to mark binary content.
pub open spec fn binary_ext(e: Seq<char>) -> bool {
    e == "png"@ || e == "jpg"@ || e == "jpeg"@ || e == "gif"@ || e == "ico"@ || e == "pdf"@ || e
        == "zip"@ || e == "tar"@ || e == "gz"@ || e == "exe"@ || e == "dll"@ || e == "so"@ || e
        == "dylib"@ || e == "bin"@ || e == "dat"@
}

/// A path likely names a binary file: its extension, lower-cased, is one of
/// the known binary extensions.
pub open spec fn is_likely_binary_spec(p: Seq<char>) -> bool {
    match extension_spec(p) {
        Some(e) => binary_ext(lower_of(e)),
        None => false,
    }
}

proof fn lemma_file_name_start_bounds(p: Seq<char>)
    ensures
        0 <= file_name_start(p) <= p.len(),
    decreases p.len(),
{
    if p.len() > 0 && p.last() != '/' {
        lemma_file_name_start_bounds(p.drop_last());
    }
}

proof fn lemma_last_dot_pos_bounds(name: Seq<char>)
    ensures
        -1 <= last_dot_pos(name) < name.len(),
    decreases name.len(),
{
    if name.len() > 0 && name.last() != '.' {
        lemma_last_dot_pos_bounds(name.drop_last());
    }
}

/// Whether a path likely names a binary file, judged by its extension.
pub fn is_likely_binary(path: &str) -> (r: bool)
    ensures
        r == is_likely_binary_spec(path@),
{
    let chars = chars_of(path);
    let n = chars.len();
    proof {
        lemma_file_name_start_bounds(chars@);
        assert(chars@.take(n as int) =~= chars@);
    }
    let mut fs: usize = n;
    while fs > 0 && chars[fs - 1] != '/'
        invariant
            n == chars@.len(),
            fs <= n,
            file_name_start(chars@) == file_name_start(chars@.take(fs as int)),
            file_name_start(chars@) <= fs,
        decreases fs,
    {
        proof {
            assert(chars@.take(fs as int).drop_last() =~= chars@.take(fs - 1));
            assert(chars@.take(fs as int).last() == chars@[fs - 1]);
            lemma_file_name_start_bounds(chars@.take(fs - 1));
        }
        fs = fs - 1;
    }
    proof {
        if fs > 0 {
            assert(chars@.take(fs as int).last() == chars@[fs - 1]);
        }
        assert(file_name_start(chars@) == fs as int);
    }
    let ghost name = chars@.subrange(fs as int, n as int);
    proof {
        lemma_last_dot_pos_bounds(name);
        assert(name.take(n - fs) =~= name);
    }
    let mut d: usize = n;
    while d > fs && chars[d - 1] != '.'
        invariant
            n == chars@.len(),
            fs <= d <= n,
            name == chars@.subrange(fs as int, n as int),
            last_dot_pos(name) == last_dot_pos(name.take(d - fs)),
            last_dot_pos(name) < d - fs,
        decreases d,
    {
        proof {
            assert(name.take(d - fs).drop_last() =~= name.take(d - 1 - fs));
            assert(name.take(d - fs).last() == chars@[d - 1]);
            lemma_last_dot_pos_bounds(name.take(d - 1 - fs));
        }
        d = d - 1;
    }
    proof {
        if d > fs {
            assert(name.take(d - fs).last() == chars@[d - 1]);
        }
        assert(last_dot_pos(name) == d - fs - 1);
    }
    if d - fs <= 1 {
        proof {
            assert(extension_spec(chars@) is None);
        }
        return false;
    }
    proof {
        assert(extension_spec(chars@) == Some(name.subrange(d - fs, name.len() as int)));
        assert(name.subrange(d - fs, name.len() as int) =~= chars@.subrange(d as int, n as int));
    }
    let ext = path.substring_char(d, n);
    let low = to_lowercase_str(ext);
    let l = low.as_str();
    eq_str(l, "png") || eq_str(l, "jpg") || eq_str(l, "jpeg") || eq_str(l, "gif") || eq_str(
        l,
        "ico",
    ) || eq_str(l, "pdf") || eq_str(l, "zip") || eq_str(l, "tar") || eq_str(l, "gz") || eq_str(
        l,
        "exe",
    ) || eq_str(l, "dll") || eq_str(l, "so") || eq_str(l, "dylib") || eq_str(l, "bin") || eq_str(
        l,
        "dat",
    )
}

/// State of the scan after some prefix of a file's lines: the rolling
/// window of candidate `context_before` lines, the marker (if any) still
/// collecting its `context_after` window, and the finished markers.
pub ghost struct ScanState {
    pub buf: Seq<Seq<char>>,
    pub pending: Option<(DebtMarkerView, int)>,
    pub out: Seq<DebtMarkerView>,
}

/// The marker created the instant `line` (line number `lineno`) matches:
/// its `context_before` is the buffered window, its `context_after` still
/// empty, its history metadata absent.
pub open spec fn new_marker_view(
    tokens: Seq<Seq<char>>,
    path: Seq<char>,
    line: Seq<char>,
    lineno: int,
    buf: Seq<Seq<char>>,
) -> DebtMarkerView {
    DebtMarkerView {
        marker_type: tokens[line_match(tokens, line)->0.token_idx],
        file_path: path,
        line_number: lineno,
        line_content: line,
        context_before: buf,
        context_after: Seq::empty(),
        git_info: None,
    }
}

/// A pending marker with `line` appended to its `context_after`.
pub open spec fn push_after(m: DebtMarkerView, line: Seq<char>) -> DebtMarkerView {
    DebtMarkerView { context_after: m.context_after.push(line), ..m }
}

/// One step of the scanner's state machine, on the physical line numbered
/// `lineno` whose decoded text is `d` (`None`: the line is skipped, but
/// still numbered). A matching line finalizes any pending marker at the
/// context it has collected so far, and clears the rolling window; a
/// non-matching line feeds the pending marker's `context_after` window if
/// one is open, else the rolling window.
pub open spec fn scan_step(
    tokens: Seq<Seq<char>>,
    n: int,
    path: Seq<char>,
    st: ScanState,
    lineno: int,
    d: Option<Seq<char>>,
) -> ScanState {
    match d {
        None => st,
        Some(line) => {
            if line_matches(tokens, line) {
                let out1 = match st.pending {
                    Some((m, rem)) => st.out.push(m),
                    None => st.out,
                };
                let m = new_marker_view(tokens, path, line, lineno, st.buf);
                if n > 0 {
                    ScanState { buf: Seq::empty(), pending: Some((m, n)), out: out1 }
                } else {
                    ScanState { buf: Seq::empty(), pending: None, out: out1.push(m) }
                }
            } else {
                match st.pending {
                    Some((m, rem)) => {
                        let m2 = push_after(m, line);
                        if rem <= 1 {
                            ScanState { buf: st.buf, pending: None, out: st.out.push(m2) }
                        } else {
                            ScanState { buf: st.buf, pending: Some((m2, rem - 1)), out: st.out }
                        }
                    },
                    None => {
                        if n > 0 {
                            let b1 = st.buf.push(line);
                            let b2 = if b1.len() > n {
                                b1.drop_first()
                            } else {
                                b1
                            };
                            ScanState { buf: b2, pending: None, out: st.out }
                        } else {
                            st
                        }
                    },
                }
            }
        },
    }
}

/// The scanner's initial state.
pub open spec fn scan_init() -> ScanState {
    ScanState { buf: Seq::empty(), pending: None, out: Seq::empty() }
}

/// The scanner's state after the lines of `lines` (line numbers are
/// 1-indexed positions in the sequence).
pub open spec fn scan_fold(
    tokens: Seq<Seq<char>>,
    n: int,
    path: Seq<char>,
    lines: Seq<Option<Seq<char>>>,
) -> ScanState
    decreases lines.len(),
{
    if lines.len() == 0 {
        scan_init()
    } else {
        scan_step(
            tokens,
            n,
            path,
            scan_fold(tokens, n, path, lines.drop_last()),
            lines.len() as int,
            lines.last(),
        )
    }
}

/// The markers of a file, in line order: the scan of all its lines, with a
/// marker whose `context_after` window is still open at end of file
/// finalized with the partial context it has accumulated.
pub open spec fn scan_lines_spec(
    tokens: Seq<Seq<char>>,
    n: int,
    path: Seq<char>,
    lines: Seq<Option<Seq<char>>>,
) -> Seq<DebtMarkerView> {
    let st = scan_fold(tokens, n, path, lines);
    match st.pending {
        Some((m, rem)) => st.out.push(m),
        None => st.out,
    }
}

/// The markers of a file, from its raw bytes.
pub open spec fn scan_content_spec(
    tokens: Seq<Seq<char>>,
    n: int,
    path: Seq<char>,
    content: Seq<u8>,
) -> Seq<DebtMarkerView> {
    scan_lines_spec(tokens, n, path, decoded_lines_spec(content))
}

proof fn lemma_scan_fold_step(
    tokens: Seq<Seq<char>>,
    n: int,
    path: Seq<char>,
    lines: Seq<Option<Seq<char>>>,
    i: int,
)
    requires
        0 <= i < lines.len(),
    ensures
        scan_fold(tokens, n, path, lines.take(i + 1)) == scan_step(
            tokens,
            n,
            path,
            scan_fold(tokens, n, path, lines.take(i)),
            i + 1,
            lines[i],
        ),
{
    assert(lines.take(i + 1).drop_last() =~= lines.take(i));
    assert(lines.take(i + 1).last() == lines[i]);
}

proof fn lemma_scan_fold_wf(
    tokens: Seq<Seq<char>>,
    n: int,
    path: Seq<char>,
    lines: Seq<Option<Seq<char>>>,
)
    requires
        n >= 0,
    ensures
        ({
            let st = scan_fold(tokens, n, path, lines);
            &&& st.buf.len() <= n
            &&& (st.pending matches Some((m, rem)) ==> 1 <= rem <= n && m.context_after.len()
                + rem == n && m.context_before.len() <= n)
            &&& (st.pending is Some ==> st.buf.len() == 0)
            &&& forall|j: int|
                0 <= j < st.out.len() ==> (#[trigger] st.out[j]).context_before.len() <= n
                    && st.out[j].context_after.len() <= n
        }),
    decreases lines.len(),
{
    if lines.len() > 0 {
        lemma_scan_fold_wf(tokens, n, path, lines.drop_last());
    }
}

/// Maps the scanner's executable pending slot to its model.
pub open spec fn pending_view(p: Option<(DebtMarker, usize)>) -> Option<(DebtMarkerView, int)> {
    match p {
        Some((m, rem)) => Some((m@, rem as int)),
        None => None,
    }
}

/// Scans the decoded lines of one file, producing its markers in line
/// order. `lines` holds one entry per physical line (`None` for a line that
/// did not decode).
pub fn scan_lines(
    file_path: &str,
    lines: &Vec<Option<String>>,
    pattern: &MarkerPattern,
    context_lines: usize,
) -> (r: Vec<DebtMarker>)
    requires
        pattern.wf(),
        lines@.len() < usize::MAX,
    ensures
        r.deep_view() == scan_lines_spec(
            pattern.tokens_view(),
            context_lines as int,
            file_path@,
            lines.deep_view(),
        ),
{
    let ghost tokens = pattern.tokens_view();
    let ghost n = context_lines as int;
    let ghost path = file_path@;
    let ghost lv = lines.deep_view();
    let path_owned = String::from_str(file_path);
    let mut out: Vec<DebtMarker> = Vec::new();
    let mut buf: Vec<String> = Vec::new();
    let mut pending: Option<(DebtMarker, usize)> = None;
    let mut i: usize = 0;
    proof {
        assert(lv.take(0) =~= Seq::<Option<Seq<char>>>::empty());
        assert(buf.deep_view() =~= scan_init().buf);
        assert(out.deep_view() =~= scan_init().out);
    }
    while i < lines.len()
        invariant
            pattern.wf(),
            tokens == pattern.tokens_view(),
            n == context_lines as int,
            path == file_path@,
            lv == lines.deep_view(),
            lines@.len() == lv.len(),
            lines@.len() < usize::MAX,
            i <= lines@.len(),
            path_owned@ == path,
            buf.deep_view() == scan_fold(tokens, n, path, lv.take(i as int)).buf,
            pending_view(pending) == scan_fold(tokens, n, path, lv.take(i as int)).pending,
            out.deep_view() == scan_fold(tokens, n, path, lv.take(i as int)).out,
            pending is Some ==> (pending->0).1 >= 1,
        decreases lines@.len() - i,
    {
        let ghost st = scan_fold(tokens, n, path, lv.take(i as int));
        let ghost st2 = scan_fold(tokens, n, path, lv.take(i + 1));
        proof {
            lemma_scan_fold_step(tokens, n, path, lv, i as int);
            lemma_scan_fold_wf(tokens, n, path, lv.take(i + 1));
            assert(lv[i as int] == lines@[i as int].deep_view());
        }
        match &lines[i] {
            None => {
                proof {
                    assert(lv[i as int] is None);
                    assert(st2 == st);
                }
            },
            Some(line) => {
                proof {
                    assert(lv[i as int] == Some(line@));
                }
                match pattern.find_match(line.as_str()) {
                    Some(tt) => {
                        proof {
                            assert(line_matches(tokens, line@));
                        }
                        let token = tt.0;
                        let prev = pending;
                        pending = None;
                        let ghost out_before = out.deep_view();
                        if let Some(mr) = prev {
                            out.push(mr.0);
                            proof {
                                assert(out.deep_view() =~= out_before.push(mr.0@));
                            }
                        }
                        let marker = DebtMarker {
                            marker_type: token,
                            file_path: path_owned.clone(),
                            line_number: i + 1,
                            line_content: line.clone(),
                            context_before: buf,
                            context_after: Vec::new(),
                            git_info: None,
                        };
                        buf = Vec::new();
                        proof {
                            assert(marker@.context_after =~= Seq::<Seq<char>>::empty());
                            assert(marker@ == new_marker_view(tokens, path, line@, i + 1, st.buf));
                            assert(buf.deep_view() =~= Seq::<Seq<char>>::empty());
                        }
                        if context_lines > 0 {
                            pending = Some((marker, context_lines));
                        } else {
                            let ghost out_mid = out.deep_view();
                            out.push(marker);
                            proof {
                                assert(out.deep_view() =~= out_mid.push(
                                    new_marker_view(tokens, path, line@, i + 1, st.buf),
                                ));
                            }
                        }
                    },
                    None => {
                        proof {
                            assert(!line_matches(tokens, line@));
                        }
                        let prev = pending;
                        pending = None;
                        match prev {
                            Some(mr) => {
                                let (mut m, rem) = mr;
                                let ghost mv = m@;
                                m.context_after.push(line.clone());
                                proof {
                                    assert(m@.context_after =~= mv.context_after.push(line@));
                                    assert(m@ == push_after(mv, line@));
                                }
                                if rem <= 1 {
                                    let ghost out_before = out.deep_view();
                                    out.push(m);
                                    proof {
                                        assert(out.deep_view() =~= out_before.push(
                                            push_after(mv, line@),
                                        ));
                                    }
                                } else {
                                    pending = Some((m, rem - 1));
                                }
                            },
                            None => {
                                if context_lines > 0 {
                                    let ghost buf_before = buf.deep_view();
                                    buf.push(line.clone());
                                    proof {
                                        assert(buf.deep_view() =~= buf_before.push(line@));
                                    }
                                    if buf.len() > context_lines {
                                        let ghost b1 = buf.deep_view();
                                        buf.remove(0);
                                        proof {
                                            assert(buf.deep_view() =~= b1.drop_first());
                                        }
                                    }
                                }
                            },
                        }
                    },
                }
            },
        }
        i = i + 1;
    }
    proof {
        assert(lv.take(i as int) =~= lv);
    }
    let final_pending = pending;
    let ghost out_before = out.deep_view();
    if let Some(mr) = final_pending {
        out.push(mr.0);
        proof {
            assert(out.deep_view() =~= out_before.push(mr.0@));
        }
    }
    proof {
        assert(out.deep_view() == scan_lines_spec(tokens, n, path, lv));
    }
    out
}

proof fn lemma_split_count_acc(b: Seq<u8>)
    ensures
        split_acc(b).0.len() + (if split_acc(b).1.len() > 0 {
            1int
        } else {
            0int
        }) <= b.len(),
    decreases b.len(),
{
    if b.len() > 0 {
        lemma_split_count_acc(b.drop_last());
    }
}

/// Scans one file's raw bytes for markers: lines are split, decoded and
/// matched in a single pass.
pub fn scan_content(
    file_path: &str,
    content: &[u8],
    pattern: &MarkerPattern,
    context_lines: usize,
) -> (r: Vec<DebtMarker>)
    requires
        pattern.wf(),
        content@.len() < usize::MAX,
    ensures
        r.deep_view() == scan_content_spec(
            pattern.tokens_view(),
            context_lines as int,
            file_path@,
            content@,
        ),
{
    let lines = decode_lines(content);
    proof {
        lemma_split_count_acc(content@);
        assert(lines@.len() == lines.deep_view().len());
    }
    scan_lines(file_path, &lines, pattern, context_lines)
}

/// LAW: scanning is deterministic. The marker list is a function of the
/// vocabulary, the window size, the path and the file's bytes alone, so
/// compiling the pattern and scanning an unchanged file twice yields
/// identical marker lists.
pub proof fn lemma_scan_deterministic(
    tokens: Seq<Seq<char>>,
    n: int,
    path: Seq<char>,
    content: Seq<u8>,
    m1: Seq<DebtMarkerView>,
    m2: Seq<DebtMarkerView>,
)
    requires
        m1 == scan_content_spec(tokens, n, path, content),
        m2 == scan_content_spec(tokens, n, path, content),
    ensures
        m1 == m2,
{
}

/// LAW: every marker's `context_before` and `context_after` hold at most
/// the window size of lines (they may hold fewer at file boundaries or
/// where a following match truncated the window).
pub proof fn lemma_context_bounded(
    tokens: Seq<Seq<char>>,
    n: int,
    path: Seq<char>,
    lines: Seq<Option<Seq<char>>>,
)
    requires
        n >= 0,
    ensures
        forall|j: int|
            0 <= j < scan_lines_spec(tokens, n, path, lines).len() ==> (#[trigger] scan_lines_spec(
                tokens,
                n,
                path,
                lines,
            )[j]).context_before.len() <= n && scan_lines_spec(
                tokens,
                n,
                path,
                lines,
            )[j].context_after.len() <= n,
{
    lemma_scan_fold_wf(tokens, n, path, lines);
}


/// The first line of a marker's window: where its `context_before` starts.
pub open spec fn win_start(m: DebtMarkerView) -> int {
    m.line_number - m.context_before.len()
}

/// The last line of a marker's window: where its `context_after` ends.
pub open spec fn win_end(m: DebtMarkerView) -> int {
    m.line_number + m.context_after.len()
}

proof fn lemma_scan_fold_windows(
    tokens: Seq<Seq<char>>,
    n: int,
    path: Seq<char>,
    lines: Seq<Option<Seq<char>>>,
)
    requires
        n >= 0,
        forall|j: int| 0 <= j < lines.len() ==> lines[j] is Some,
    ensures
        ({
            let st = scan_fold(tokens, n, path, lines);
            &&& forall|j: int|
                0 <= j < st.out.len() ==> 1 <= win_start(#[trigger] st.out[j]) && win_end(
                    st.out[j],
                ) <= lines.len()
            &&& forall|j: int, k: int|
                0 <= j < k < st.out.len() ==> win_end(#[trigger] st.out[j]) < win_start(
                    #[trigger] st.out[k],
                )
            &&& (st.pending matches Some((m, rem)) ==> 1 <= win_start(m) && win_end(m)
                == lines.len() && (st.out.len() > 0 ==> win_end(st.out[st.out.len() - 1])
                < win_start(m)))
            &&& (st.pending is None ==> forall|j: int|
                0 <= j < st.out.len() ==> win_end(#[trigger] st.out[j]) <= lines.len()
                    - st.buf.len())
            &&& st.buf.len() <= lines.len()
        }),
    decreases lines.len(),
{
    if lines.len() > 0 {
        let prev = lines.drop_last();
        assert(forall|j: int| 0 <= j < prev.len() ==> prev[j] == lines[j]);
        lemma_scan_fold_windows(tokens, n, path, prev);
        lemma_scan_fold_wf(tokens, n, path, prev);
        let st0 = scan_fold(tokens, n, path, prev);
        let st1 = scan_fold(tokens, n, path, lines);
        let line = lines.last()->0;
        let lineno = lines.len() as int;
        if line_matches(tokens, line) {
            let m = new_marker_view(tokens, path, line, lineno, st0.buf);
            assert(win_start(m) == lineno - st0.buf.len());
            let out1 = match st0.pending {
                Some((mp, rem)) => st0.out.push(mp),
                None => st0.out,
            };
            assert(forall|j: int|
                0 <= j < out1.len() ==> 1 <= win_start(#[trigger] out1[j]) && win_end(out1[j])
                    < win_start(m));
            assert(forall|j: int, k: int|
                0 <= j < k < out1.len() ==> win_end(#[trigger] out1[j]) < win_start(
                    #[trigger] out1[k],
                ));
            if n > 0 {
            } else {
                assert(forall|j: int|
                    0 <= j < st1.out.len() ==> 1 <= win_start(#[trigger] st1.out[j]) && win_end(
                        st1.out[j],
                    ) <= lines.len());
            }
        } else {
            match st0.pending {
                Some((mp, rem)) => {
                    let m2 = push_after(mp, line);
                    assert(win_end(m2) == win_end(mp) + 1);
                },
                None => {
                },
            }
        }
    }
}

/// LAW: where every line of the file decodes, the markers of the scan come
/// out in ascending line order with pairwise disjoint windows: each line of
/// the file belongs to at most one marker's window (its `context_before`,
/// the marker line itself and its `context_after`). In particular, two
/// matches closer together than the window size never share context lines:
/// the earlier marker's `context_after` is truncated where the later match
/// begins.
pub proof fn lemma_context_windows_disjoint(
    tokens: Seq<Seq<char>>,
    n: int,
    path: Seq<char>,
    lines: Seq<Option<Seq<char>>>,
)
    requires
        n >= 0,
        forall|j: int| 0 <= j < lines.len() ==> lines[j] is Some,
    ensures
        ({
            let ms = scan_lines_spec(tokens, n, path, lines);
            &&& forall|j: int|
                0 <= j < ms.len() ==> 1 <= win_start(#[trigger] ms[j]) && win_end(ms[j])
                    <= lines.len()
            &&& forall|j: int, k: int|
                0 <= j < k < ms.len() ==> win_end(#[trigger] ms[j]) < win_start(#[trigger] ms[k])
            &&& forall|j: int, k: int|
                0 <= j < k < ms.len() ==> (#[trigger] ms[j]).line_number < (
                #[trigger] ms[k]).line_number
        }),
{
    lemma_scan_fold_windows(tokens, n, path, lines);
    let st = scan_fold(tokens, n, path, lines);
    let ms = scan_lines_spec(tokens, n, path, lines);
    match st.pending {
        Some((m, rem)) => {
            assert(ms == st.out.push(m));
        },
        None => {
        },
    }
    assert(forall|j: int, k: int|
        0 <= j < k < ms.len() ==> win_end(#[trigger] ms[j]) < win_start(#[trigger] ms[k]));
    assert(forall|j: int|
        0 <= j < ms.len() ==> win_start(#[trigger] ms[j]) <= ms[j].line_number <= win_end(ms[j]));
}


proof fn lemma_scan_fold_content(
    tokens: Seq<Seq<char>>,
    n: int,
    path: Seq<char>,
    lines: Seq<Option<Seq<char>>>,
)
    requires
        n >= 0,
        forall|j: int| 0 <= j < lines.len() ==> lines[j] is Some,
    ensures
        ({
            let st = scan_fold(tokens, n, path, lines);
            &&& forall|j: int|
                0 <= j < st.out.len() ==> marker_content_exact(#[trigger] st.out[j], tokens, lines)
            &&& (st.pending matches Some((m, rem)) ==> marker_content_exact(m, tokens, lines)
                && win_end(m) == lines.len())
            &&& forall|q: int|
                0 <= q < st.buf.len() ==> #[trigger] st.buf[q] == lines[lines.len() - st.buf.len()
                    + q]->0
            &&& forall|j: int|
                0 <= j < lines.len() && line_matches(tokens, lines[j]->0) ==> marker_for_line(
                    st,
                    j + 1,
                )
        }),
    decreases lines.len(),
{
    if lines.len() > 0 {
        let prev = lines.drop_last();
        assert(forall|j: int| 0 <= j < prev.len() ==> prev[j] == lines[j]);
        lemma_scan_fold_content(tokens, n, path, prev);
        lemma_scan_fold_windows(tokens, n, path, prev);
        lemma_scan_fold_wf(tokens, n, path, prev);
        let st0 = scan_fold(tokens, n, path, prev);
        let st1 = scan_fold(tokens, n, path, lines);
        let line = lines.last()->0;
        let lineno = lines.len() as int;
        assert(forall|j: int|
            0 <= j < st0.out.len() ==> marker_content_exact(#[trigger] st0.out[j], tokens, prev));
        assert forall|j: int| 0 <= j < st0.out.len() implies marker_content_exact(
            #[trigger] st0.out[j],
            tokens,
            lines,
        ) by {
            lemma_content_extend(st0.out[j], tokens, prev, lines);
        }
        match st0.pending {
            Some((mp0, rem0)) => {
                lemma_content_extend(mp0, tokens, prev, lines);
            },
            None => {},
        }
        if line_matches(tokens, line) {
            let m = new_marker_view(tokens, path, line, lineno, st0.buf);
            assert(marker_content_exact(m, tokens, lines)) by {
                assert(m.line_content == lines[lineno - 1]->0);
                assert forall|q: int| 0 <= q < m.context_before.len() implies
                    #[trigger] m.context_before[q] == lines[m.line_number
                    - m.context_before.len() + q - 1]->0 by {
                    assert(st0.buf[q] == prev[prev.len() - st0.buf.len() + q]->0);
                }
            }
            assert forall|j: int|
                0 <= j < lines.len() && line_matches(tokens, lines[j]->0) implies marker_for_line(
                st1,
                j + 1,
            ) by {
                if j + 1 < lineno {
                    assert(marker_for_line(st0, j + 1));
                    if exists|e: int|
                        0 <= e < st0.out.len() && (#[trigger] st0.out[e]).line_number == j + 1 {
                        let e = choose|e: int|
                            0 <= e < st0.out.len() && (#[trigger] st0.out[e]).line_number == j
                                + 1;
                        assert(st1.out[e].line_number == j + 1);
                    } else {
                        let mp = (st0.pending->0).0;
                        assert(mp.line_number == j + 1);
                        assert(st1.out[st0.out.len() as int] == mp);
                    }
                } else {
                    if n > 0 {
                        assert((st1.pending->0).0.line_number == lineno);
                    } else {
                        assert(st1.out[st1.out.len() - 1].line_number == lineno);
                    }
                }
            }
        } else {
            match st0.pending {
                Some((mp, rem)) => {
                    let m2 = push_after(mp, line);
                    assert(marker_content_exact(m2, tokens, lines)) by {
                        assert(win_end(mp) == prev.len());
                        assert forall|q: int| 0 <= q < m2.context_after.len() implies
                            #[trigger] m2.context_after[q] == lines[m2.line_number + q]->0 by {
                            if q < mp.context_after.len() {
                                assert(mp.context_after[q] == lines[mp.line_number + q]->0);
                            } else {
                                assert(m2.context_after[q] == line);
                                assert(mp.line_number + q == lineno - 1);
                            }
                        }
                    }
                    assert forall|j: int|
                        0 <= j < lines.len() && line_matches(tokens, lines[j]->0) implies
                        marker_for_line(st1, j + 1) by {
                        assert(j + 1 < lineno || !line_matches(tokens, lines[j]->0));
                        assert(marker_for_line(st0, j + 1));
                        if exists|e: int|
                            0 <= e < st0.out.len() && (#[trigger] st0.out[e]).line_number == j
                                + 1 {
                            let e = choose|e: int|
                                0 <= e < st0.out.len() && (#[trigger] st0.out[e]).line_number == j
                                    + 1;
                            assert(st1.out[e].line_number == j + 1);
                        } else {
                            assert(mp.line_number == j + 1);
                            if rem <= 1 {
                                assert(st1.out[st0.out.len() as int].line_number == j + 1);
                            } else {
                                assert((st1.pending->0).0.line_number == j + 1);
                            }
                        }
                    }
                },
                None => {
                    if n > 0 {
                        let b1 = st0.buf.push(line);
                        assert forall|q: int| 0 <= q < b1.len() implies #[trigger] b1[q]
                            == lines[lines.len() - b1.len() + q]->0 by {
                            if q < st0.buf.len() {
                                assert(st0.buf[q] == prev[prev.len() - st0.buf.len() + q]->0);
                            }
                        }
                        if b1.len() > n {
                            assert forall|q: int| 0 <= q < st1.buf.len() implies
                                #[trigger] st1.buf[q] == lines[lines.len() - st1.buf.len()
                                + q]->0 by {
                                assert(st1.buf[q] == b1[q + 1]);
                            }
                        }
                    }
                    assert forall|j: int|
                        0 <= j < lines.len() && line_matches(tokens, lines[j]->0) implies
                        marker_for_line(st1, j + 1) by {
                        assert(marker_for_line(st0, j + 1));
                        if exists|e: int|
                            0 <= e < st0.out.len() && (#[trigger] st0.out[e]).line_number == j
                                + 1 {
                            let e = choose|e: int|
                                0 <= e < st0.out.len() && (#[trigger] st0.out[e]).line_number == j
                                    + 1;
                            assert(st1.out[e].line_number == j + 1);
                        }
                    }
                },
            }
        }
    }
}

/// A marker's text fields hold exactly the file's lines around its own: its
/// line's text, the lines just above it, and the lines just below it; and
/// its own line matches the rule.
pub open spec fn marker_content_exact(
    m: DebtMarkerView,
    tokens: Seq<Seq<char>>,
    lines: Seq<Option<Seq<char>>>,
) -> bool {
    &&& 1 <= m.line_number && m.line_number + m.context_after.len() <= lines.len()
    &&& m.line_number - m.context_before.len() >= 1
    &&& m.line_content == lines[m.line_number - 1]->0
    &&& line_matches(tokens, m.line_content)
    &&& forall|q: int|
        0 <= q < m.context_before.len() ==> #[trigger] m.context_before[q] == lines[m.line_number
            - m.context_before.len() + q - 1]->0
    &&& forall|q: int|
        0 <= q < m.context_after.len() ==> #[trigger] m.context_after[q] == lines[m.line_number
            + q]->0
}

proof fn lemma_content_extend(
    m: DebtMarkerView,
    tokens: Seq<Seq<char>>,
    prev: Seq<Option<Seq<char>>>,
    lines: Seq<Option<Seq<char>>>,
)
    requires
        marker_content_exact(m, tokens, prev),
        lines.len() > 0,
        prev == lines.drop_last(),
    ensures
        marker_content_exact(m, tokens, lines),
{
    assert(forall|j: int| 0 <= j < prev.len() ==> prev[j] == lines[j]);
    assert forall|q: int| 0 <= q < m.context_before.len() implies #[trigger] m.context_before[q]
        == lines[m.line_number - m.context_before.len() + q - 1]->0 by {
        assert(m.context_before[q] == prev[m.line_number - m.context_before.len() + q - 1]->0);
    }
    assert forall|q: int| 0 <= q < m.context_after.len() implies #[trigger] m.context_after[q]
        == lines[m.line_number + q]->0 by {
        assert(m.context_after[q] == prev[m.line_number + q]->0);
    }
}

/// The scan state already carries a marker for line number `ln`: among the
/// finished markers, or as the one still collecting context.
pub open spec fn marker_for_line(st: ScanState, ln: int) -> bool {
    (exists|e: int| 0 <= e < st.out.len() && (#[trigger] st.out[e]).line_number == ln) || (
    st.pending matches Some((m, rem)) && m.line_number == ln)
}

/// LAW: where every line of the file decodes, the markers of the scan are
/// exactly the matching lines: each marker's `line_content` is its own
/// line's text and matches the rule, `context_before` holds exactly the
/// lines just above it and `context_after` exactly the lines just below it
/// (as bounded by the window and by neighboring matches); and every line
/// that matches the rule yields a marker with its line number.
pub proof fn lemma_scan_exact(
    tokens: Seq<Seq<char>>,
    n: int,
    path: Seq<char>,
    lines: Seq<Option<Seq<char>>>,
)
    requires
        n >= 0,
        forall|j: int| 0 <= j < lines.len() ==> lines[j] is Some,
    ensures
        ({
            let ms = scan_lines_spec(tokens, n, path, lines);
            &&& forall|j: int|
                0 <= j < ms.len() ==> marker_content_exact(#[trigger] ms[j], tokens, lines)
            &&& forall|j: int|
                0 <= j < lines.len() && line_matches(tokens, lines[j]->0) ==> exists|e: int|
                    0 <= e < ms.len() && (#[trigger] ms[e]).line_number == j + 1
        }),
{
    lemma_scan_fold_content(tokens, n, path, lines);
    let st = scan_fold(tokens, n, path, lines);
    let ms = scan_lines_spec(tokens, n, path, lines);
    match st.pending {
        Some((m, rem)) => {
            assert(ms == st.out.push(m));
            assert(forall|e: int| 0 <= e < st.out.len() ==> ms[e] == st.out[e]);
            assert(ms[st.out.len() as int] == m);
        },
        None => {
        },
    }
    assert forall|j: int|
        0 <= j < lines.len() && line_matches(tokens, lines[j]->0) implies exists|e: int|
            0 <= e < ms.len() && (#[trigger] ms[e]).line_number == j + 1 by {
        assert(marker_for_line(st, j + 1));
        if exists|e: int| 0 <= e < st.out.len() && (#[trigger] st.out[e]).line_number == j + 1 {
            let e = choose|e: int|
                0 <= e < st.out.len() && (#[trigger] st.out[e]).line_number == j + 1;
            assert(ms[e].line_number == j + 1);
        } else {
            assert(ms[st.out.len() as int].line_number == j + 1);
        }
    }
}


} // verus!
