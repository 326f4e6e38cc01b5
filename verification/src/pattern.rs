//! The pattern compiler: builds a single matching rule from the configured
//! marker vocabulary. The rule recognizes a marker token only where it stands
//! as a distinct annotation right after a comment prefix (`//`, `#`, `/*`,
//! `*`, `<!--`), never as an arbitrary substring embedded in prose, and
//! yields the token together with the trailing free text (with one trailing
//! `*/` or `-->` stripped).

use vstd::prelude::*;
use vstd::string::StrSliceExecFns;
use vstd::string::StringExecFns;

use crate::text::is_space;
use crate::text::is_space_char;
use crate::text::is_word;
use crate::text::is_word_char;
use crate::text::chars_of;
use crate::text::str_matches_at;
use crate::text::skip_spaces;
use crate::text::skip_spaces_spec;
use crate::text::substring_at;

verus! {

/// The recognized comment prefixes, in the order they are tried.
pub open spec fn comment_prefixes() -> Seq<Seq<char>> {
    seq![
        seq!['/', '/'],
        seq!['#'],
        seq!['/', '*'],
        seq!['*'],
        seq!['<', '!', '-', '-'],
    ]
}

/// The comment prefix that occurs at position `i` of `l`, if any. At most
/// one prefix can occur at a given position, since no recognized prefix is a
/// prefix of another.
pub open spec fn matching_prefix(l: Seq<char>, i: int) -> Option<Seq<char>> {
    if i + 2 <= l.len() && l[i] == '/' && l[i + 1] == '/' {
        Some(seq!['/', '/'])
    } else if i + 1 <= l.len() && l[i] == '#' {
        Some(seq!['#'])
    } else if i + 2 <= l.len() && l[i] == '/' && l[i + 1] == '*' {
        Some(seq!['/', '*'])
    } else if i + 1 <= l.len() && l[i] == '*' {
        Some(seq!['*'])
    } else if i + 4 <= l.len() && l[i] == '<' && l[i + 1] == '!' && l[i + 2] == '-' && l[i + 3]
        == '-' {
        Some(seq!['<', '!', '-', '-'])
    } else {
        None
    }
}

/// Position `e` of `l` is a right word boundary: the line ends there, or the
/// next character is not a word character.
pub open spec fn word_boundary(l: Seq<char>, e: int) -> bool {
    e >= l.len() || !is_word_char(l[e])
}

/// Token number `t` of the vocabulary occurs at position `k` of `l`,
/// delimited by a word boundary on its right.
pub open spec fn token_at(tokens: Seq<Seq<char>>, t: int, l: Seq<char>, k: int) -> bool {
    0 <= t < tokens.len() && substring_at(l, tokens[t], k) && word_boundary(
        l,
        k + tokens[t].len(),
    )
}

/// The first token of the vocabulary, from number `t` on, that occurs at
/// position `k` of `l` with a word boundary.
pub open spec fn first_token_from(tokens: Seq<Seq<char>>, l: Seq<char>, k: int, t: int) -> Option<
    int,
>
    decreases tokens.len() - t,
{
    if t >= tokens.len() {
        None
    } else if token_at(tokens, t, l, k) {
        Some(t)
    } else {
        first_token_from(tokens, l, k, t + 1)
    }
}

/// Where the trailing free text of a match ends: at the end of the line,
/// less one trailing `*/` or `-->` where one stands wholly beyond `from`.
pub open spec fn text_end_spec(l: Seq<char>, from: int) -> int {
    if l.len() - from >= 2 && substring_at(l, seq!['*', '/'], l.len() - 2) {
        l.len() - 2
    } else if l.len() - from >= 3 && substring_at(l, seq!['-', '-', '>'], l.len() - 3) {
        l.len() - 3
    } else {
        l.len() as int
    }
}

/// A successful application of the rule to a line: which token matched, and
/// where the trailing free text stands.
pub ghost struct MatchParts {
    pub token_idx: int,
    pub text_start: int,
    pub text_end: int,
}

/// The rule, applied to the line `l`: skip leading whitespace, require a
/// comment prefix, skip whitespace, require a vocabulary token delimited by
/// a word boundary, then skip one optional `:` or whitespace character and
/// further whitespace to reach the trailing free text.
pub open spec fn line_match(tokens: Seq<Seq<char>>, l: Seq<char>) -> Option<MatchParts> {
    let i = skip_spaces_spec(l, 0);
    match matching_prefix(l, i) {
        None => None,
        Some(p) => {
            let k = skip_spaces_spec(l, i + p.len());
            match first_token_from(tokens, l, k, 0) {
                None => None,
                Some(t) => {
                    let e0 = k + tokens[t].len();
                    let e1 = if e0 < l.len() && (l[e0] == ':' || is_space_char(l[e0])) {
                        e0 + 1
                    } else {
                        e0
                    };
                    let e2 = skip_spaces_spec(l, e1);
                    Some(
                        MatchParts {
                            token_idx: t,
                            text_start: e2,
                            text_end: text_end_spec(l, e2),
                        },
                    )
                },
            }
        },
    }
}

/// A line matches the rule.
pub open spec fn line_matches(tokens: Seq<Seq<char>>, l: Seq<char>) -> bool {
    line_match(tokens, l) is Some
}

proof fn lemma_first_token_from(tokens: Seq<Seq<char>>, l: Seq<char>, k: int, t0: int)
    requires
        0 <= t0,
    ensures
        first_token_from(tokens, l, k, t0) matches Some(t) ==> t0 <= t && token_at(
            tokens,
            t,
            l,
            k,
        ),
        (exists|t: int| t0 <= t && token_at(tokens, t, l, k)) ==> first_token_from(
            tokens,
            l,
            k,
            t0,
        ) is Some,
    decreases tokens.len() - t0,
{
    if t0 >= tokens.len() {
        assert(forall|t: int| token_at(tokens, t, l, k) ==> t < tokens.len());
    } else if token_at(tokens, t0, l, k) {
    } else {
        lemma_first_token_from(tokens, l, k, t0 + 1);
        if exists|t: int| t0 <= t && token_at(tokens, t, l, k) {
            let t = choose|t: int| t0 <= t && token_at(tokens, t, l, k);
            assert(t0 + 1 <= t && token_at(tokens, t, l, k));
        }
    }
}

/// LAW: the compiled rule matches a line exactly where the line, after its
/// leading whitespace, begins with a recognized comment prefix followed
/// (after further whitespace) by a vocabulary token delimited on its right by
/// a word boundary — and so never where a token merely stands embedded in
/// prose.
pub proof fn lemma_match_characterization(tokens: Seq<Seq<char>>, l: Seq<char>)
    ensures
        line_matches(tokens, l) <==> exists|p: int, t: int|
            {
                &&& 0 <= p < comment_prefixes().len()
                &&& substring_at(l, comment_prefixes()[p], skip_spaces_spec(l, 0))
                &&& #[trigger] token_at(
                    tokens,
                    t,
                    l,
                    skip_spaces_spec(
                        l,
                        skip_spaces_spec(l, 0) + #[trigger] comment_prefixes()[p].len(),
                    ),
                )
            },
{
    crate::text::lemma_skip_spaces_bounds(l, 0);
    let i = skip_spaces_spec(l, 0);
    if line_matches(tokens, l) {
        let pfx = matching_prefix(l, i)->0;
        let p: int = if i + 2 <= l.len() && l[i] == '/' && l[i + 1] == '/' {
            assert(l.subrange(i, i + 2) =~= seq!['/', '/']);
            0
        } else if i + 1 <= l.len() && l[i] == '#' {
            assert(l.subrange(i, i + 1) =~= seq!['#']);
            1
        } else if i + 2 <= l.len() && l[i] == '/' && l[i + 1] == '*' {
            assert(l.subrange(i, i + 2) =~= seq!['/', '*']);
            2
        } else if i + 1 <= l.len() && l[i] == '*' {
            assert(l.subrange(i, i + 1) =~= seq!['*']);
            3
        } else {
            assert(l.subrange(i, i + 4) =~= seq!['<', '!', '-', '-']);
            4
        };
        assert(comment_prefixes()[p] == pfx);
        assert(substring_at(l, comment_prefixes()[p], i));
        let k = skip_spaces_spec(l, i + pfx.len());
        lemma_first_token_from(tokens, l, k, 0);
        let t = first_token_from(tokens, l, k, 0)->0;
        assert(token_at(tokens, t, l, skip_spaces_spec(l, i + comment_prefixes()[p].len())));
    }
    if exists|p: int, t: int|
        {
            &&& 0 <= p < comment_prefixes().len()
            &&& substring_at(l, comment_prefixes()[p], skip_spaces_spec(l, 0))
            &&& #[trigger] token_at(
                tokens,
                t,
                l,
                skip_spaces_spec(
                    l,
                    skip_spaces_spec(l, 0) + #[trigger] comment_prefixes()[p].len(),
                ),
            )
        } {
        let (p, t) = choose|p: int, t: int|
            {
                &&& 0 <= p < comment_prefixes().len()
                &&& substring_at(l, comment_prefixes()[p], skip_spaces_spec(l, 0))
                &&& #[trigger] token_at(
                    tokens,
                    t,
                    l,
                    skip_spaces_spec(
                        l,
                        skip_spaces_spec(l, 0) + #[trigger] comment_prefixes()[p].len(),
                    ),
                )
            };
        let pfx = comment_prefixes()[p];
        assert(substring_at(l, pfx, i));
        let sub = l.subrange(i, i + pfx.len());
        assert(sub == pfx);
        assert(matching_prefix(l, i) == Some(pfx)) by {
            if p == 0 {
                assert(sub[0] == l[i] && sub[1] == l[i + 1]);
                assert(l[i] == '/' && l[i + 1] == '/');
            } else if p == 1 {
                assert(sub[0] == l[i]);
                assert(l[i] == '#');
            } else if p == 2 {
                assert(sub[0] == l[i] && sub[1] == l[i + 1]);
                assert(l[i] == '/' && l[i + 1] == '*');
            } else if p == 3 {
                assert(sub[0] == l[i]);
                assert(l[i] == '*');
            } else {
                assert(sub[0] == l[i] && sub[1] == l[i + 1] && sub[2] == l[i + 2]);
                assert(sub[3] == l[i + 3]);
                assert(l[i] == '<' && l[i + 1] == '!' && l[i + 2] == '-' && l[i + 3] == '-');
            }
        }
        let k = skip_spaces_spec(l, i + pfx.len());
        lemma_first_token_from(tokens, l, k, 0);
        assert(0 <= t && token_at(tokens, t, l, k));
        assert(first_token_from(tokens, l, k, 0) is Some);
        assert(line_matches(tokens, l));
    }
}

/// Error of the pattern compiler: the vocabulary cannot form a valid rule.
#[derive(Debug, Clone, PartialEq, Eq, Structural)]
pub enum PatternError {
    /// The vocabulary holds no token.
    EmptyVocabulary,
    /// The vocabulary holds an empty token.
    EmptyToken,
}

/// A compiled matching rule over a marker vocabulary.
#[derive(Debug, Clone)]
pub struct MarkerPattern {
    tokens: Vec<String>,
}

impl MarkerPattern {
    /// The vocabulary this rule recognizes.
    pub closed spec fn tokens_view(&self) -> Seq<Seq<char>> {
        self.tokens.deep_view()
    }

    /// The rule is well formed: it holds at least one token, none of them
    /// empty.
    pub closed spec fn wf(&self) -> bool {
        &&& self.tokens.deep_view().len() > 0
        &&& forall|i: int|
            0 <= i < self.tokens.deep_view().len() ==> self.tokens.deep_view()[i].len() > 0
    }
}

/// Compiles the matching rule for the given marker vocabulary. Fails with a
/// [`PatternError`] where no valid rule exists: the vocabulary is empty or
/// holds an empty token. Duplicate tokens are tolerated.
pub fn build_marker_regex(markers: &Vec<String>) -> (r: Result<MarkerPattern, PatternError>)
    ensures
        match r {
            Ok(p) => {
                &&& p.wf()
                &&& p.tokens_view() == markers.deep_view()
                &&& markers.deep_view().len() > 0
                &&& forall|i: int|
                    0 <= i < markers.deep_view().len() ==> markers.deep_view()[i].len() > 0
            },
            Err(e) => {
                &&& (e == PatternError::EmptyVocabulary <==> markers.deep_view().len() == 0)
                &&& markers.deep_view().len() == 0 || exists|i: int|
                    0 <= i < markers.deep_view().len() && markers.deep_view()[i].len() == 0
            },
        },
{
    if markers.len() == 0 {
        return Err(PatternError::EmptyVocabulary);
    }
    let mut tokens: Vec<String> = Vec::new();
    let mut i: usize = 0;
    while i < markers.len()
        invariant
            i <= markers@.len(),
            tokens@.len() == i,
            forall|j: int| 0 <= j < i ==> tokens@[j]@ == markers@[j]@,
            forall|j: int| 0 <= j < i ==> markers@[j]@.len() > 0,
        decreases markers@.len() - i,
    {
        if markers[i].unicode_len() == 0 {
            proof {
                assert(markers.deep_view()[i as int].len() == 0);
            }
            return Err(PatternError::EmptyToken);
        }
        let tok = markers[i].clone();
        tokens.push(tok);
        i = i + 1;
    }
    let r = MarkerPattern { tokens };
    proof {
        assert(r.tokens_view() =~= markers.deep_view());
        assert(forall|j: int|
            0 <= j < markers.deep_view().len() ==> markers.deep_view()[j] == markers@[j]@);
    }
    Ok(r)
}

/// The length of the comment prefix at position `i` of `chars`, if any.
fn prefix_len_at(chars: &Vec<char>, i: usize) -> (r: Option<usize>)
    requires
        i <= chars@.len(),
    ensures
        match r {
            Some(n) => matching_prefix(chars@, i as int) is Some && matching_prefix(
                chars@,
                i as int,
            )->0.len() == n as int,
            None => matching_prefix(chars@, i as int) is None,
        },
{
    let len = chars.len();
    if len - i >= 2 && chars[i] == '/' && chars[i + 1] == '/' {
        Some(2)
    } else if len - i >= 1 && chars[i] == '#' {
        Some(1)
    } else if len - i >= 2 && chars[i] == '/' && chars[i + 1] == '*' {
        Some(2)
    } else if len - i >= 1 && chars[i] == '*' {
        Some(1)
    } else if len - i >= 4 && chars[i] == '<' && chars[i + 1] == '!' && chars[i + 2] == '-'
        && chars[i + 3] == '-' {
        Some(4)
    } else {
        None
    }
}

impl MarkerPattern {
    /// The first vocabulary token occurring at position `k` of `chars` with
    /// a word boundary, if any.
    fn token_index_at(&self, chars: &Vec<char>, k: usize) -> (r: Option<usize>)
        requires
            self.wf(),
            k <= chars@.len(),
        ensures
            match r {
                Some(t) => first_token_from(self.tokens_view(), chars@, k as int, 0) == Some(
                    t as int,
                ) && token_at(self.tokens_view(), t as int, chars@, k as int),
                None => first_token_from(self.tokens_view(), chars@, k as int, 0) is None,
            },
    {
        let mut t: usize = 0;
        while t < self.tokens.len()
            invariant
                self.wf(),
                k <= chars@.len(),
                t <= self.tokens_view().len(),
                first_token_from(self.tokens_view(), chars@, k as int, 0) == first_token_from(
                    self.tokens_view(),
                    chars@,
                    k as int,
                    t as int,
                ),
            decreases self.tokens_view().len() - t,
        {
            let tok = &self.tokens[t];
            let tl = tok.as_str().unicode_len();
            proof {
                assert(tok@ == self.tokens_view()[t as int]);
            }
            if chars.len() - k >= tl && str_matches_at(chars, tok.as_str(), k) {
                let e = k + tl;
                if e >= chars.len() || !is_word(chars[e]) {
                    proof {
                        assert(token_at(self.tokens_view(), t as int, chars@, k as int));
                    }
                    return Some(t);
                }
                proof {
                    assert(!word_boundary(chars@, k + self.tokens_view()[t as int].len()));
                    assert(!token_at(self.tokens_view(), t as int, chars@, k as int));
                }
            } else {
                proof {
                    assert(!token_at(self.tokens_view(), t as int, chars@, k as int));
                }
            }
            t = t + 1;
        }
        None
    }

    /// Applies the rule to a line. Returns the matched token and the
    /// trailing free text, or `None` where the line does not match.
    pub fn find_match(&self, line: &str) -> (r: Option<(String, String)>)
        requires
            self.wf(),
        ensures
            r is Some <==> line_matches(self.tokens_view(), line@),
            r matches Some(m) ==> {
                let parts = line_match(self.tokens_view(), line@)->0;
                m.0@ == self.tokens_view()[parts.token_idx] && m.1@ == line@.subrange(
                    parts.text_start,
                    parts.text_end,
                )
            },
    {
        let chars = chars_of(line);
        let len = chars.len();
        let i = skip_spaces(&chars, 0);
        let pl = match prefix_len_at(&chars, i) {
            Some(n) => n,
            None => {
                return None;
            },
        };
        proof {
            assert(i + pl <= chars@.len());
        }
        let k = skip_spaces(&chars, i + pl);
        let t = match self.token_index_at(&chars, k) {
            Some(t) => t,
            None => {
                return None;
            },
        };
        proof {
            assert(t < self.tokens@.len());
        }
        let tl = self.tokens[t].as_str().unicode_len();
        proof {
            assert(self.tokens@[t as int]@ == self.tokens_view()[t as int]);
            assert(self.tokens_view()[t as int].len() == tl as int);
            assert(k + tl <= chars@.len());
        }
        let e0 = k + tl;
        let e1 = if e0 < len && (chars[e0] == ':' || is_space(chars[e0])) {
            e0 + 1
        } else {
            e0
        };
        let e2 = skip_spaces(&chars, e1);
        let e3 = if len - e2 >= 2 && chars[len - 2] == '*' && chars[len - 1] == '/' {
            proof {
                assert(chars@.subrange(len - 2, len as int) =~= seq!['*', '/']);
            }
            len - 2
        } else if len - e2 >= 3 && chars[len - 3] == '-' && chars[len - 2] == '-' && chars[len - 1]
            == '>' {
            proof {
                assert(!substring_at(chars@, seq!['*', '/'], len - 2)) by {
                    if substring_at(chars@, seq!['*', '/'], len - 2) {
                        assert(chars@.subrange(len - 2, len as int)[0] == chars@[len - 2]);
                        assert(chars@.subrange(len - 2, len as int)[1] == chars@[len - 1]);
                    }
                }
                assert(chars@.subrange(len - 3, len as int) =~= seq!['-', '-', '>']);
            }
            len - 3
        } else {
            proof {
                if len - e2 >= 2 {
                    assert(!substring_at(chars@, seq!['*', '/'], len - 2)) by {
                        if substring_at(chars@, seq!['*', '/'], len - 2) {
                            assert(chars@.subrange(len - 2, len as int)[0] == chars@[len - 2]);
                            assert(chars@.subrange(len - 2, len as int)[1] == chars@[len - 1]);
                        }
                    }
                }
                if len - e2 >= 3 {
                    assert(!substring_at(chars@, seq!['-', '-', '>'], len - 3)) by {
                        if substring_at(chars@, seq!['-', '-', '>'], len - 3) {
                            assert(chars@.subrange(len - 3, len as int)[0] == chars@[len - 3]);
                            assert(chars@.subrange(len - 3, len as int)[1] == chars@[len - 2]);
                            assert(chars@.subrange(len - 3, len as int)[2] == chars@[len - 1]);
                        }
                    }
                }
            }
            len
        };
        proof {
            assert(e3 as int == text_end_spec(chars@, e2 as int));
        }
        let token = self.tokens[t].clone();
        let text = String::from_str(line.substring_char(e2, e3));
        Some((token, text))
    }

    /// Whether the line matches the rule.
    pub fn is_match(&self, line: &str) -> (r: bool)
        requires
            self.wf(),
        ensures
            r == line_matches(self.tokens_view(), line@),
    {
        self.find_match(line).is_some()
    }
}

} // verus!
