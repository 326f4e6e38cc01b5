//! Predicate filters over already-built marker lists: by minimum age, by
//! author and by marker type.

use vstd::prelude::*;

use crate::models::DebtMarker;
use crate::models::DebtMarkerView;
use crate::text::chars_of;
use crate::text::contains_chars;
use crate::text::dec_value;
use crate::text::eq_str;
use crate::text::has_substring;
use crate::text::lower_of;
use crate::text::numeral_digits;
use crate::text::parse_u64_chars;
use crate::text::to_lowercase_str;
use crate::text::trim_chars;
use crate::text::trim_spec;

verus! {

/// Error of duration parsing.
#[derive(Debug, Clone, PartialEq, Eq, Structural)]
pub enum DurationError {
    /// The duration string is empty.
    Empty,
    /// The part before the unit is not an unsigned decimal numeral that
    /// fits in 64 bits.
    InvalidNumber,
    /// The last character is not one of the units `d`, `w`, `m`, `y`.
    InvalidUnit,
    /// The duration is well formed but its seconds overflow 64 bits.
    Overflow,
}

/// Days per unit character: `d`ays, `w`eeks, `m`onths of 30 days, `y`ears
/// of 365 days.
pub open spec fn unit_days(u: char) -> Option<int> {
    if u == 'd' {
        Some(1int)
    } else if u == 'w' {
        Some(7int)
    } else if u == 'm' {
        Some(30int)
    } else if u == 'y' {
        Some(365int)
    } else {
        None
    }
}

/// What parsing a duration string yields: the whole string is trimmed, its
/// last character is the unit, the rest an unsigned decimal numeral; the
/// result is the corresponding number of seconds.
pub open spec fn parse_duration_spec(s: Seq<char>) -> Result<int, DurationError> {
    if s.len() == 0 {
        Err(DurationError::Empty)
    } else {
        let t = trim_spec(s);
        if t.len() == 0 {
            Err(DurationError::InvalidNumber)
        } else {
            let numpart = t.drop_last();
            if numeral_digits(numpart) is None || dec_value(numeral_digits(numpart)->0)
                > u64::MAX as int {
                Err(DurationError::InvalidNumber)
            } else {
                match unit_days(t.last()) {
                    None => Err(DurationError::InvalidUnit),
                    Some(mult) => {
                        let secs = dec_value(numeral_digits(numpart)->0) * mult * 86400;
                        if secs > u64::MAX as int {
                            Err(DurationError::Overflow)
                        } else {
                            Ok(secs)
                        }
                    },
                }
            }
        }
    }
}

/// Parses a duration string such as `30d`, `2w`, `6m` or `1y` into seconds.
pub fn parse_duration(s: &str) -> (r: Result<u64, DurationError>)
    ensures
        match r {
            Ok(v) => parse_duration_spec(s@) == Ok::<int, DurationError>(v as int),
            Err(e) => parse_duration_spec(s@) == Err::<int, DurationError>(e),
        },
{
    let chars = chars_of(s);
    if chars.len() == 0 {
        return Err(DurationError::Empty);
    }
    let mut t = trim_chars(&chars);
    if t.len() == 0 {
        return Err(DurationError::InvalidNumber);
    }
    let ghost tv = t@;
    let unit = t[t.len() - 1];
    t.pop();
    proof {
        assert(t@ =~= tv.drop_last());
        assert(unit == tv.last());
    }
    let num = match parse_u64_chars(&t) {
        Ok(v) => v,
        Err(_) => {
            return Err(DurationError::InvalidNumber);
        },
    };
    proof {
        assert(numeral_digits(tv.drop_last()) is Some);
        assert(dec_value(numeral_digits(tv.drop_last())->0) == num as int);
    }
    let mult: u64 = if unit == 'd' {
        1
    } else if unit == 'w' {
        7
    } else if unit == 'm' {
        30
    } else if unit == 'y' {
        365
    } else {
        return Err(DurationError::InvalidUnit);
    };
    proof {
        assert(unit_days(unit) == Some(mult as int));
    }
    if mult > 0 && num > u64::MAX / mult {
        proof {
            assert(num as int * mult as int > u64::MAX as int) by (nonlinear_arith)
                requires
                    num as int > (u64::MAX as int - (mult as int - 1)) / mult as int - 1
                        || num as int > u64::MAX as int / mult as int,
                    num as int > u64::MAX as int / mult as int,
                    1 <= mult as int,
            ;
            assert(num as int * mult as int * 86400 >= num as int * mult as int) by (
            nonlinear_arith)
                requires
                    num as int * mult as int > 0,
            ;
        }
        return Err(DurationError::Overflow);
    }
    proof {
        assert(num as int * mult as int <= u64::MAX as int) by (nonlinear_arith)
            requires
                num as int <= u64::MAX as int / mult as int,
                1 <= mult as int,
        ;
    }
    let days = num * mult;
    if days > u64::MAX / 86400 {
        proof {
            assert(days as int * 86400 > u64::MAX as int) by (nonlinear_arith)
                requires
                    days as int > u64::MAX as int / 86400,
            ;
        }
        return Err(DurationError::Overflow);
    }
    proof {
        assert(days as int * 86400 <= u64::MAX as int) by (nonlinear_arith)
            requires
                days as int <= u64::MAX as int / 86400,
        ;
    }
    let secs = days * 86400;
    Ok(secs)
}

/// The markers whose history metadata is present and at least `min_days`
/// old.
pub open spec fn filter_age(ms: Seq<DebtMarkerView>, min_days: int) -> Seq<DebtMarkerView>
    decreases ms.len(),
{
    if ms.len() == 0 {
        Seq::empty()
    } else if ms.last().git_info matches Some(g) && g.age_days >= min_days {
        filter_age(ms.drop_last(), min_days).push(ms.last())
    } else {
        filter_age(ms.drop_last(), min_days)
    }
}

/// Keeps the markers at least as old as the given age (such as `30d` or
/// `1y`). A marker without history metadata is excluded. Fails exactly
/// where the age string does not parse.
pub fn filter_by_age(markers: Vec<DebtMarker>, min_age_str: &str) -> (r: Result<
    Vec<DebtMarker>,
    DurationError,
>)
    ensures
        match r {
            Ok(v) => parse_duration_spec(min_age_str@) is Ok && v.deep_view() == filter_age(
                markers.deep_view(),
                parse_duration_spec(min_age_str@)->Ok_0 / 86400,
            ),
            Err(e) => parse_duration_spec(min_age_str@) == Err::<int, DurationError>(e),
        },
{
    let secs = match parse_duration(min_age_str) {
        Ok(v) => v,
        Err(e) => {
            return Err(e);
        },
    };
    let min_days = secs / 86400;
    proof {
        assert(min_days as int == parse_duration_spec(min_age_str@)->Ok_0 / 86400);
        assert(min_days <= u64::MAX / 86400);
        assert(min_days as int <= i64::MAX as int);
    }
    let ghost ms = markers.deep_view();
    let mut r: Vec<DebtMarker> = Vec::new();
    let mut i: usize = 0;
    proof {
        assert(ms.take(0) =~= Seq::<DebtMarkerView>::empty());
        assert(r.deep_view() =~= Seq::<DebtMarkerView>::empty());
    }
    while i < markers.len()
        invariant
            ms == markers.deep_view(),
            ms.len() == markers@.len(),
            i <= ms.len(),
            min_days as int <= i64::MAX as int,
            r.deep_view() == filter_age(ms.take(i as int), min_days as int),
        decreases ms.len() - i,
    {
        proof {
            assert(ms.take(i + 1).drop_last() =~= ms.take(i as int));
            assert(ms.take(i + 1).last() == ms[i as int]);
            assert(ms[i as int] == markers@[i as int]@);
        }
        let m = &markers[i];
        let keep = match &m.git_info {
            Some(g) => g.age_days >= min_days as i64,
            None => false,
        };
        if keep {
            let ghost r0 = r.deep_view();
            r.push(m.duplicate());
            proof {
                assert(r.deep_view() =~= r0.push(ms[i as int]));
            }
        }
        i = i + 1;
    }
    proof {
        assert(ms.take(i as int) =~= ms);
    }
    Ok(r)
}

/// The markers whose history metadata names an author (or author email)
/// containing `q`, compared lower-cased.
pub open spec fn filter_author(ms: Seq<DebtMarkerView>, q: Seq<char>) -> Seq<DebtMarkerView>
    decreases ms.len(),
{
    if ms.len() == 0 {
        Seq::empty()
    } else if ms.last().git_info matches Some(g) && (has_substring(lower_of(g.author), q)
        || has_substring(lower_of(g.author_email), q)) {
        filter_author(ms.drop_last(), q).push(ms.last())
    } else {
        filter_author(ms.drop_last(), q)
    }
}

/// Keeps the markers attributed to the given author: a case-insensitive
/// substring match against the author name and email. A marker without
/// history metadata is excluded.
pub fn filter_by_author(markers: Vec<DebtMarker>, author: &str) -> (r: Vec<DebtMarker>)
    ensures
        r.deep_view() == filter_author(markers.deep_view(), lower_of(author@)),
{
    let q = to_lowercase_str(author);
    let qc = chars_of(q.as_str());
    let ghost ms = markers.deep_view();
    let mut r: Vec<DebtMarker> = Vec::new();
    let mut i: usize = 0;
    proof {
        assert(ms.take(0) =~= Seq::<DebtMarkerView>::empty());
        assert(r.deep_view() =~= Seq::<DebtMarkerView>::empty());
    }
    while i < markers.len()
        invariant
            ms == markers.deep_view(),
            ms.len() == markers@.len(),
            i <= ms.len(),
            qc@ == lower_of(author@),
            r.deep_view() == filter_author(ms.take(i as int), lower_of(author@)),
        decreases ms.len() - i,
    {
        proof {
            assert(ms.take(i + 1).drop_last() =~= ms.take(i as int));
            assert(ms.take(i + 1).last() == ms[i as int]);
            assert(ms[i as int] == markers@[i as int]@);
        }
        let m = &markers[i];
        let keep = match &m.git_info {
            Some(g) => {
                let name_low = to_lowercase_str(g.author.as_str());
                let name_c = chars_of(name_low.as_str());
                let mail_low = to_lowercase_str(g.author_email.as_str());
                let mail_c = chars_of(mail_low.as_str());
                contains_chars(&name_c, &qc) || contains_chars(&mail_c, &qc)
            },
            None => false,
        };
        if keep {
            let ghost r0 = r.deep_view();
            r.push(m.duplicate());
            proof {
                assert(r.deep_view() =~= r0.push(ms[i as int]));
            }
        }
        i = i + 1;
    }
    proof {
        assert(ms.take(i as int) =~= ms);
    }
    r
}

/// The markers whose type equals `q` under lower-casing.
pub open spec fn filter_type(ms: Seq<DebtMarkerView>, q: Seq<char>) -> Seq<DebtMarkerView>
    decreases ms.len(),
{
    if ms.len() == 0 {
        Seq::empty()
    } else if lower_of(ms.last().marker_type) == q {
        filter_type(ms.drop_last(), q).push(ms.last())
    } else {
        filter_type(ms.drop_last(), q)
    }
}

/// Keeps the markers of the given type: a case-insensitive exact match.
pub fn filter_by_type(markers: Vec<DebtMarker>, marker_type: &str) -> (r: Vec<DebtMarker>)
    ensures
        r.deep_view() == filter_type(markers.deep_view(), lower_of(marker_type@)),
{
    let q = to_lowercase_str(marker_type);
    let ghost ms = markers.deep_view();
    let mut r: Vec<DebtMarker> = Vec::new();
    let mut i: usize = 0;
    proof {
        assert(ms.take(0) =~= Seq::<DebtMarkerView>::empty());
        assert(r.deep_view() =~= Seq::<DebtMarkerView>::empty());
    }
    while i < markers.len()
        invariant
            ms == markers.deep_view(),
            ms.len() == markers@.len(),
            i <= ms.len(),
            q@ == lower_of(marker_type@),
            r.deep_view() == filter_type(ms.take(i as int), lower_of(marker_type@)),
        decreases ms.len() - i,
    {
        proof {
            assert(ms.take(i + 1).drop_last() =~= ms.take(i as int));
            assert(ms.take(i + 1).last() == ms[i as int]);
            assert(ms[i as int] == markers@[i as int]@);
        }
        let m = &markers[i];
        let tl = to_lowercase_str(m.marker_type.as_str());
        if eq_str(tl.as_str(), q.as_str()) {
            let ghost r0 = r.deep_view();
            r.push(m.duplicate());
            proof {
                assert(r.deep_view() =~= r0.push(ms[i as int]));
            }
        }
        i = i + 1;
    }
    proof {
        assert(ms.take(i as int) =~= ms);
    }
    r
}

} // verus!
