//! Character and string utilities shared by the matcher, the scanner and the
//! filters: whitespace and word-character classification, substring search,
//! trimming, and decimal formatting.

use vstd::prelude::*;
use vstd::string::StrSliceExecFns;
use vstd::string::StringExecFns;

verus! {

/// A whitespace character: one of the code points with the Unicode
/// `White_Space` property.
pub open spec fn is_space_char(c: char) -> bool {
    c == '\u{0009}' || c == '\u{000A}' || c == '\u{000B}' || c == '\u{000C}'
        || c == '\u{000D}' || c == '\u{0020}' || c == '\u{0085}' || c == '\u{00A0}'
        || c == '\u{1680}' || c == '\u{2000}' || c == '\u{2001}' || c == '\u{2002}'
        || c == '\u{2003}' || c == '\u{2004}' || c == '\u{2005}' || c == '\u{2006}'
        || c == '\u{2007}' || c == '\u{2008}' || c == '\u{2009}' || c == '\u{200A}'
        || c == '\u{2028}' || c == '\u{2029}' || c == '\u{202F}' || c == '\u{205F}'
        || c == '\u{3000}'
}

/// Decides [`is_space_char`].
pub fn is_space(c: char) -> (r: bool)
    ensures
        r == is_space_char(c),
{
    c == '\u{0009}' || c == '\u{000A}' || c == '\u{000B}' || c == '\u{000C}'
        || c == '\u{000D}' || c == '\u{0020}' || c == '\u{0085}' || c == '\u{00A0}'
        || c == '\u{1680}' || c == '\u{2000}' || c == '\u{2001}' || c == '\u{2002}'
        || c == '\u{2003}' || c == '\u{2004}' || c == '\u{2005}' || c == '\u{2006}'
        || c == '\u{2007}' || c == '\u{2008}' || c == '\u{2009}' || c == '\u{200A}'
        || c == '\u{2028}' || c == '\u{2029}' || c == '\u{202F}' || c == '\u{205F}'
        || c == '\u{3000}'
}

/// A word character: an ASCII letter, an ASCII digit, or an underscore.
/// Marker tokens must be delimited by a non-word character on their right.
pub open spec fn is_word_char(c: char) -> bool {
    ('a' <= c && c <= 'z') || ('A' <= c && c <= 'Z') || ('0' <= c && c <= '9') || c == '_'
}

/// Decides [`is_word_char`].
pub fn is_word(c: char) -> (r: bool)
    ensures
        r == is_word_char(c),
{
    ('a' <= c && c <= 'z') || ('A' <= c && c <= 'Z') || ('0' <= c && c <= '9') || c == '_'
}

/// The characters of `s`, as a vector.
pub fn chars_of(s: &str) -> (r: Vec<char>)
    ensures
        r@ == s@,
{
    let n = s.unicode_len();
    let mut r: Vec<char> = Vec::new();
    let mut i: usize = 0;
    while i < n
        invariant
            n == s@.len(),
            i <= n,
            r@ == s@.take(i as int),
        decreases n - i,
    {
        r.push(s.get_char(i));
        i = i + 1;
        proof {
            assert(r@ =~= s@.take(i as int));
        }
    }
    proof {
        assert(s@.take(n as int) =~= s@);
    }
    r
}

/// Character-for-character equality of two string slices.
pub fn eq_str(a: &str, b: &str) -> (r: bool)
    ensures
        r == (a@ == b@),
{
    let na = a.unicode_len();
    let nb = b.unicode_len();
    if na != nb {
        proof {
            assert(a@ != b@);
        }
        return false;
    }
    let mut i: usize = 0;
    while i < na
        invariant
            na == a@.len(),
            na == b@.len(),
            i <= na,
            forall|j: int| 0 <= j < i ==> a@[j] == b@[j],
        decreases na - i,
    {
        if a.get_char(i) != b.get_char(i) {
            return false;
        }
        i = i + 1;
    }
    proof {
        assert(a@ =~= b@);
    }
    true
}

/// `n` occurs in `h` starting at position `i`.
pub open spec fn substring_at(h: Seq<char>, n: Seq<char>, i: int) -> bool {
    0 <= i && i + n.len() <= h.len() && h.subrange(i, i + n.len()) == n
}

/// `n` occurs somewhere in `h`.
pub open spec fn has_substring(h: Seq<char>, n: Seq<char>) -> bool {
    exists|i: int| substring_at(h, n, i)
}

/// Whether `n` occurs in `h` starting at position `i`.
pub fn matches_at(h: &Vec<char>, n: &Vec<char>, i: usize) -> (r: bool)
    requires
        i + n@.len() <= h@.len(),
    ensures
        r == substring_at(h@, n@, i as int),
{
    let hl = h.len();
    let mut j: usize = 0;
    while j < n.len()
        invariant
            hl == h@.len(),
            i + n@.len() <= h@.len(),
            j <= n@.len(),
            forall|k: int| 0 <= k < j ==> h@[i + k] == n@[k],
        decreases n@.len() - j,
    {
        if h[i + j] != n[j] {
            proof {
                assert(h@.subrange(i as int, i + n@.len())[j as int] != n@[j as int]);
            }
            return false;
        }
        j = j + 1;
    }
    proof {
        assert(h@.subrange(i as int, i + n@.len()) =~= n@);
    }
    true
}

/// Whether the characters of `n` occur in `h` starting at position `i`.
pub fn str_matches_at(h: &Vec<char>, n: &str, i: usize) -> (r: bool)
    requires
        i + n@.len() <= h@.len(),
    ensures
        r == substring_at(h@, n@, i as int),
{
    let hl = h.len();
    let nl = n.unicode_len();
    let mut j: usize = 0;
    while j < nl
        invariant
            hl == h@.len(),
            nl == n@.len(),
            i + n@.len() <= h@.len(),
            j <= n@.len(),
            forall|k: int| 0 <= k < j ==> h@[i + k] == n@[k],
        decreases n@.len() - j,
    {
        if h[i + j] != n.get_char(j) {
            proof {
                assert(h@.subrange(i as int, i + n@.len())[j as int] != n@[j as int]);
            }
            return false;
        }
        j = j + 1;
    }
    proof {
        assert(h@.subrange(i as int, i + n@.len()) =~= n@);
    }
    true
}

/// Substring search: whether `n` occurs anywhere in `h`.
pub fn contains_chars(h: &Vec<char>, n: &Vec<char>) -> (r: bool)
    ensures
        r == has_substring(h@, n@),
{
    if n.len() > h.len() {
        proof {
            assert(forall|i: int| !substring_at(h@, n@, i));
        }
        return false;
    }
    let bound = h.len() - n.len();
    let mut i: usize = 0;
    while i < bound
        invariant
            n@.len() <= h@.len(),
            bound == h@.len() - n@.len(),
            i <= bound,
            forall|k: int| 0 <= k < i ==> !substring_at(h@, n@, k),
        decreases bound - i,
    {
        if matches_at(h, n, i) {
            return true;
        }
        i = i + 1;
    }
    if matches_at(h, n, bound) {
        return true;
    }
    proof {
        assert(forall|k: int| substring_at(h@, n@, k) ==> 0 <= k <= bound);
    }
    false
}

/// Index of the first non-whitespace position of `l` at or after `i`.
pub open spec fn skip_spaces_spec(l: Seq<char>, i: int) -> int
    decreases l.len() - i,
{
    if i < l.len() && is_space_char(l[i]) {
        skip_spaces_spec(l, i + 1)
    } else {
        i
    }
}

/// Skipping whitespace stays within the sequence and passes only
/// whitespace characters.
pub proof fn lemma_skip_spaces_bounds(l: Seq<char>, i: int)
    requires
        0 <= i <= l.len(),
    ensures
        i <= skip_spaces_spec(l, i) <= l.len(),
        forall|j: int| i <= j < skip_spaces_spec(l, i) ==> is_space_char(l[j]),
    decreases l.len() - i,
{
    if i < l.len() && is_space_char(l[i]) {
        lemma_skip_spaces_bounds(l, i + 1);
    }
}

/// Advances `i` over whitespace characters of `l`.
pub fn skip_spaces(l: &Vec<char>, i: usize) -> (r: usize)
    requires
        i <= l@.len(),
    ensures
        r == skip_spaces_spec(l@, i as int),
        i <= r <= l@.len(),
{
    proof {
        lemma_skip_spaces_bounds(l@, i as int);
    }
    let mut j: usize = i;
    while j < l.len() && is_space(l[j])
        invariant
            i <= j <= l@.len(),
            skip_spaces_spec(l@, i as int) == skip_spaces_spec(l@, j as int),
        decreases l@.len() - j,
    {
        j = j + 1;
    }
    j
}

/// Index just after the last non-whitespace position of `l` before `j`.
pub open spec fn trim_end_spec(l: Seq<char>, j: int) -> int
    decreases j,
{
    if j > 0 && is_space_char(l[j - 1]) {
        trim_end_spec(l, j - 1)
    } else {
        j
    }
}

/// `l` with leading and trailing whitespace removed.
pub open spec fn trim_spec(l: Seq<char>) -> Seq<char> {
    let a = skip_spaces_spec(l, 0);
    let b = trim_end_spec(l, l.len() as int);
    if a < b {
        l.subrange(a, b)
    } else {
        Seq::empty()
    }
}

proof fn lemma_trim_end_bounds(l: Seq<char>, j: int)
    requires
        0 <= j <= l.len(),
    ensures
        0 <= trim_end_spec(l, j) <= j,
    decreases j,
{
    if j > 0 && is_space_char(l[j - 1]) {
        lemma_trim_end_bounds(l, j - 1);
    }
}

/// The characters of `l` with leading and trailing whitespace removed.
pub fn trim_chars(l: &Vec<char>) -> (r: Vec<char>)
    ensures
        r@ == trim_spec(l@),
{
    proof {
        lemma_skip_spaces_bounds(l@, 0);
        lemma_trim_end_bounds(l@, l@.len() as int);
    }
    let a = skip_spaces(l, 0);
    let mut b: usize = l.len();
    while b > 0 && is_space(l[b - 1])
        invariant
            b <= l@.len(),
            trim_end_spec(l@, l@.len() as int) == trim_end_spec(l@, b as int),
        decreases b,
    {
        b = b - 1;
    }
    let mut r: Vec<char> = Vec::new();
    if a < b {
        let mut i: usize = a;
        while i < b
            invariant
                a <= i <= b <= l@.len(),
                r@ == l@.subrange(a as int, i as int),
            decreases b - i,
        {
            r.push(l[i]);
            i = i + 1;
            proof {
                assert(r@ =~= l@.subrange(a as int, i as int));
            }
        }
    }
    proof {
        if !(a < b) {
            assert(r@ =~= Seq::<char>::empty());
        }
    }
    r
}

/// The character for the decimal digit `d`.
pub open spec fn digit_char(d: int) -> char {
    if d == 0 {
        '0'
    } else if d == 1 {
        '1'
    } else if d == 2 {
        '2'
    } else if d == 3 {
        '3'
    } else if d == 4 {
        '4'
    } else if d == 5 {
        '5'
    } else if d == 6 {
        '6'
    } else if d == 7 {
        '7'
    } else if d == 8 {
        '8'
    } else {
        '9'
    }
}

/// The decimal representation of `n`, without a sign and without leading
/// zeros (except for `n == 0` itself).
pub open spec fn dec_rep(n: nat) -> Seq<char>
    decreases n,
{
    if n < 10 {
        seq![digit_char(n as int)]
    } else {
        dec_rep(n / 10).push(digit_char((n % 10) as int))
    }
}

fn digit_str(d: u64) -> (r: &'static str)
    requires
        d < 10,
    ensures
        r@ == seq![digit_char(d as int)],
{
    let r: &'static str = if d == 0 {
        "0"
    } else if d == 1 {
        "1"
    } else if d == 2 {
        "2"
    } else if d == 3 {
        "3"
    } else if d == 4 {
        "4"
    } else if d == 5 {
        "5"
    } else if d == 6 {
        "6"
    } else if d == 7 {
        "7"
    } else if d == 8 {
        "8"
    } else {
        "9"
    };
    proof {
        reveal_strlit("0");
        reveal_strlit("1");
        reveal_strlit("2");
        reveal_strlit("3");
        reveal_strlit("4");
        reveal_strlit("5");
        reveal_strlit("6");
        reveal_strlit("7");
        reveal_strlit("8");
        reveal_strlit("9");
        assert(r@ =~= seq![digit_char(d as int)]);
    }
    r
}

/// Appends the decimal representation of `n` to `s`.
pub fn push_dec(s: &mut String, n: u64)
    ensures
        final(s)@ == old(s)@ + dec_rep(n as nat),
    decreases n,
{
    if n >= 10 {
        push_dec(s, n / 10);
    }
    let d: u64 = n % 10;
    s.append(digit_str(d));
    proof {
        if n >= 10 {
            assert(final(s)@ =~= old(s)@ + dec_rep(n as nat));
        } else {
            assert(final(s)@ =~= old(s)@ + dec_rep(n as nat));
        }
    }
}

/// A decimal digit character.
pub open spec fn is_digit_char(c: char) -> bool {
    '0' <= c && c <= '9'
}

/// The numeric value of the digit character `c`.
pub open spec fn digit_val(c: char) -> int {
    c as int - '0' as int
}

/// The numeric value of the digit string `s` (most significant digit first).
pub open spec fn dec_value(s: Seq<char>) -> int
    decreases s.len(),
{
    if s.len() == 0 {
        0
    } else {
        dec_value(s.drop_last()) * 10 + digit_val(s.last())
    }
}

/// `s` with one leading plus sign removed, if it has one.
pub open spec fn sign_stripped(s: Seq<char>) -> Seq<char> {
    if s.len() > 0 && s[0] == '+' {
        s.drop_first()
    } else {
        s
    }
}

/// Every character of `t` is a decimal digit.
pub open spec fn all_digits(t: Seq<char>) -> bool {
    forall|i: int| 0 <= i < t.len() ==> is_digit_char(t[i])
}

/// The digits of `s` after an optional leading plus sign, where the whole of
/// `s` is a well-formed unsigned decimal numeral; `None` otherwise.
pub open spec fn numeral_digits(s: Seq<char>) -> Option<Seq<char>> {
    if sign_stripped(s).len() > 0 && all_digits(sign_stripped(s)) {
        Some(sign_stripped(s))
    } else {
        None
    }
}

proof fn lemma_dec_value_nonneg(s: Seq<char>)
    requires
        all_digits(s),
    ensures
        dec_value(s) >= 0,
    decreases s.len(),
{
    if s.len() > 0 {
        lemma_dec_value_nonneg(s.drop_last());
    }
}

proof fn lemma_dec_value_prefix(s: Seq<char>, i: int)
    requires
        all_digits(s),
        0 <= i <= s.len(),
    ensures
        dec_value(s.take(i)) <= dec_value(s),
    decreases s.len() - i,
{
    lemma_dec_value_nonneg(s.take(i));
    if i < s.len() {
        lemma_dec_value_prefix(s, i + 1);
        assert(s.take(i + 1).drop_last() =~= s.take(i));
        assert(dec_value(s.take(i + 1)) == dec_value(s.take(i)) * 10 + digit_val(s.take(i + 1).last()));
        assert(dec_value(s.take(i)) * 10 >= dec_value(s.take(i)));
        assert(digit_val(s.take(i + 1).last()) >= 0);
    } else {
        assert(s.take(i) =~= s);
    }
}

/// Parses an unsigned decimal numeral (optionally preceded by a plus sign).
/// Returns `Err(())` where `s` is not a numeral or its value does not fit in
/// a `u64`.
pub fn parse_u64_chars(s: &Vec<char>) -> (r: Result<u64, ()>)
    ensures
        match r {
            Ok(v) => numeral_digits(s@) is Some && dec_value(numeral_digits(s@)->0) == v as int,
            Err(_) => numeral_digits(s@) is None || dec_value(numeral_digits(s@)->0)
                > u64::MAX as int,
        },
{
    let start: usize = if s.len() > 0 && s[0] == '+' {
        1
    } else {
        0
    };
    if s.len() == start {
        return Err(());
    }
    let ghost t = if s@.len() > 0 && s@[0] == '+' {
        s@.drop_first()
    } else {
        s@
    };
    proof {
        assert(t =~= s@.subrange(start as int, s@.len() as int));
    }
    let mut i: usize = start;
    let mut acc: u64 = 0;
    while i < s.len()
        invariant
            start <= i <= s@.len(),
            start < s@.len(),
            start == (if s@.len() > 0 && s@[0] == '+' { 1int } else { 0int }),
            t == s@.subrange(start as int, s@.len() as int),
            forall|k: int| start <= k < i ==> is_digit_char(s@[k]),
            acc as int == dec_value(t.take(i - start)),
        decreases s@.len() - i,
    {
        let c = s[i];
        if !('0' <= c && c <= '9') {
            proof {
                assert(t =~= sign_stripped(s@));
                assert(t[i - start] == s@[i as int]);
                assert(!all_digits(t)) by {
                    assert(0 <= i - start < t.len());
                    assert(!is_digit_char(t[i - start]));
                }
                assert(numeral_digits(s@) is None);
            }
            return Err(());
        }
        let d: u64 = (c as u32 as u64) - 48;
        proof {
            assert(is_digit_char(s@[i as int]));
            assert(d == digit_val(s@[i as int]));
        }
        if acc > (u64::MAX - d) / 10 {
            proof {
                assert(t.take(i + 1 - start).drop_last() =~= t.take(i - start));
                assert(t.take(i + 1 - start).last() == s@[i as int]);
                assert(dec_value(t.take(i + 1 - start)) == acc as int * 10 + d as int);
                assert(acc as int * 10 + d as int > u64::MAX as int) by {
                    assert(acc as int > (u64::MAX as int - d as int) / 10);
                    assert(acc as int * 10 > u64::MAX as int - d as int) by (nonlinear_arith)
                        requires
                            acc as int > (u64::MAX as int - d as int) / 10,
                            0 <= d as int <= 9,
                    ;
                };
                assert(t =~= sign_stripped(s@));
                if all_digits(t) {
                    lemma_dec_value_prefix(t, i + 1 - start);
                    assert(dec_value(t) > u64::MAX as int);
                    assert(numeral_digits(s@) == Some(t));
                } else {
                    assert(numeral_digits(s@) is None);
                }
            }
            return Err(());
        }
        proof {
            assert(acc as int * 10 + d as int <= u64::MAX as int) by (nonlinear_arith)
                requires
                    acc as int <= (u64::MAX as int - d as int) / 10,
                    0 <= d as int <= 9,
            ;
        }
        acc = acc * 10 + d;
        i = i + 1;
        proof {
            assert(t.take(i - start).drop_last() =~= t.take(i - 1 - start));
            assert(t.take(i - start).last() == s@[i - 1]);
        }
    }
    proof {
        assert(t =~= sign_stripped(s@));
        assert(t.take(i - start) =~= t);
        assert(all_digits(t));
        assert(numeral_digits(s@) == Some(t));
    }
    Ok(acc)
}

/// Whether the string `s` occurs among the strings of `v`.
pub fn contains_string(v: &Vec<String>, s: &String) -> (r: bool)
    ensures
        r == exists|j: int| 0 <= j < v.deep_view().len() && v.deep_view()[j] == s@,
{
    let mut i: usize = 0;
    while i < v.len()
        invariant
            i <= v@.len(),
            forall|j: int| 0 <= j < i ==> v.deep_view()[j] != s@,
        decreases v@.len() - i,
    {
        if eq_str(v[i].as_str(), s.as_str()) {
            proof {
                assert(v.deep_view()[i as int] == s@);
            }
            return true;
        }
        proof {
            assert(v.deep_view()[i as int] == v@[i as int]@);
        }
        i = i + 1;
    }
    false
}

/// Whether the number `x` occurs in `v`.
pub fn contains_usize(v: &Vec<usize>, x: usize) -> (r: bool)
    ensures
        r == exists|j: int| 0 <= j < v@.len() && v@[j] == x,
{
    let mut i: usize = 0;
    while i < v.len()
        invariant
            i <= v@.len(),
            forall|j: int| 0 <= j < i ==> v@[j] != x,
        decreases v@.len() - i,
    {
        if v[i] == x {
            return true;
        }
        i = i + 1;
    }
    false
}

/// The result of Unicode lowercase conversion, named: it depends on the
/// characters of the input alone.
pub uninterp spec fn lower_of(s: Seq<char>) -> Seq<char>;

/// Relies on str::to_lowercase: the result is a function of the input
/// characters alone, and an empty string stays empty.
#[verifier::external_body]
pub fn to_lowercase_str(s: &str) -> (r: String)
    ensures
        r@ == lower_of(s@),
        s@.len() == 0 ==> r@.len() == 0,
{
    s.to_lowercase()
}

} // verus!
