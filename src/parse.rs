use vstd::prelude::*;
use crate::geometry::{coord_ok, MAX_COORD};

verus! {

pub open spec fn is_digit(b: u8) -> bool {
    48 <= b <= 57
}

/// The number written by a string of decimal digits.
pub open spec fn digits_value(s: Seq<u8>) -> int
    decreases s.len(),
{
    if s.len() == 0 {
        0
    } else {
        digits_value(s.drop_last()) * 10 + (s.last() - 48)
    }
}

pub open spec fn all_digits(s: Seq<u8>) -> bool {
    s.len() > 0 && forall|i: int| 0 <= i < s.len() ==> is_digit(#[trigger] s[i])
}

/// The integer written by `s`: an optional `-` or `+`, then one or more
/// decimal digits, nothing else.
pub open spec fn int_value(s: Seq<u8>) -> Option<int> {
    if s.len() > 0 && (s[0] == 45 || s[0] == 43) {
        let rest = s.subrange(1, s.len() as int);
        if !all_digits(rest) {
            None
        } else if s[0] == 45 {
            Some(-digits_value(rest))
        } else {
            Some(digits_value(rest))
        }
    } else if all_digits(s) {
        Some(digits_value(s))
    } else {
        None
    }
}

/// The coordinate written by `s`, when it is an integer within the bound.
pub open spec fn coord_value(s: Seq<u8>) -> Option<int> {
    match int_value(s) {
        Some(v) => if -MAX_COORD <= v <= MAX_COORD { Some(v) } else { None },
        None => None,
    }
}

/// The first comma at or after `from`, or the length when there is none.
pub open spec fn next_comma(s: Seq<u8>, from: int) -> int
    decreases s.len() - from,
{
    if from < 0 || from >= s.len() {
        s.len() as int
    } else if s[from] == 44 {
        from
    } else {
        next_comma(s, from + 1)
    }
}

/// The coordinate pair written as `x,y`: `x` ends at the first comma and `y`
/// at the next comma or the end of the text.
pub open spec fn pair_value(s: Seq<u8>) -> Option<(int, int)> {
    let c1 = next_comma(s, 0);
    let c2 = next_comma(s, c1 + 1);
    if c1 >= s.len() {
        None
    } else {
        match (coord_value(s.subrange(0, c1)), coord_value(s.subrange(c1 + 1, c2))) {
            (Some(x), Some(y)) => Some((x, y)),
            _ => None,
        }
    }
}

proof fn lemma_next_comma_bounds(s: Seq<u8>, from: int)
    requires
        0 <= from,
    ensures
        from <= next_comma(s, from) <= s.len() || (from > s.len() && next_comma(s, from)
            == s.len()),
        next_comma(s, from) < s.len() ==> s[next_comma(s, from)] == 44,
    decreases s.len() - from,
{
    if from < s.len() && s[from] != 44 {
        lemma_next_comma_bounds(s, from + 1);
    }
}

/// Digits read further never make the number smaller.
proof fn lemma_digits_monotone(s: Seq<u8>, k: int)
    requires
        0 <= k <= s.len(),
        forall|i: int| 0 <= i < s.len() ==> is_digit(#[trigger] s[i]),
    ensures
        digits_value(s.subrange(0, k)) <= digits_value(s),
        0 <= digits_value(s),
    decreases s.len(),
{
    if s.len() > 0 {
        let t = s.drop_last();
        if k < s.len() {
            assert(t.subrange(0, k) =~= s.subrange(0, k));
            lemma_digits_monotone(t, k);
        } else {
            assert(s.subrange(0, k) =~= s);
            lemma_digits_monotone(t, 0);
        }
    }
}

fn find_comma(s: &[u8], from: usize) -> (r: usize)
    ensures
        r == next_comma(s@, from as int),
{
    if from >= s.len() {
        return s.len();
    }
    let mut i = from;
    while i < s.len()
        invariant
            from <= i <= s.len(),
            next_comma(s@, i as int) == next_comma(s@, from as int),
        decreases s.len() - i,
    {
        if s[i] == 44 {
            return i;
        }
        i = i + 1;
    }
    i
}

/// The coordinate written by `s[start..end]`, when it is an integer within
/// the bound.
fn parse_coord_in(s: &[u8], start: usize, end: usize) -> (r: Option<i64>)
    requires
        start <= end <= s.len(),
    ensures
        match r {
            Some(v) => coord_value(s@.subrange(start as int, end as int)) == Some(v as int),
            None => coord_value(s@.subrange(start as int, end as int)) is None,
        },
{
    let ghost t = s@.subrange(start as int, end as int);
    let mut i = start;
    let mut negative = false;
    if start < end && (s[start] == 45 || s[start] == 43) {
        negative = s[start] == 45;
        i = start + 1;
    }
    proof {
        if start < end {
            assert(t[0] == s@[start as int]);
        }
    }
    let first = i;
    let ghost rest = s@.subrange(first as int, end as int);
    proof {
        if first > start {
            assert(rest =~= t.subrange(1, t.len() as int));
            assert(t[0] == s@[start as int]);
        } else {
            assert(rest =~= t);
            assert(t.len() > 0 ==> t[0] == s@[start as int]);
        }
    }
    if first == end {
        return None;
    }
    let mut acc: i64 = 0;
    while i < end
        invariant
            start <= first <= i <= end <= s.len(),
            rest == s@.subrange(first as int, end as int),
            t == s@.subrange(start as int, end as int),
            first > start ==> rest == t.subrange(1, t.len() as int) && (t[0] == 45 || t[0] == 43)
                && negative == (t[0] == 45),
            first == start ==> rest == t && !(t.len() > 0 && (t[0] == 45 || t[0] == 43)),
            0 <= acc <= MAX_COORD,
            acc == digits_value(s@.subrange(first as int, i as int)),
            forall|k: int| first <= k < i ==> is_digit(#[trigger] s@[k]),
        decreases end - i,
    {
        let b = s[i];
        if b < 48 || b > 57 {
            proof {
                assert(rest[i - first] == b);
                assert(!all_digits(rest));
            }
            return None;
        }
        proof {
            assert(s@.subrange(first as int, i + 1).drop_last() =~= s@.subrange(
                first as int,
                i as int,
            ));
        }
        acc = acc * 10 + (b - 48) as i64;
        proof {
            assert(s@.subrange(first as int, i + 1).last() == b);
        }
        i = i + 1;
        assert(acc == digits_value(s@.subrange(first as int, i as int)));
        if acc > MAX_COORD {
            proof {
                if all_digits(rest) {
                    assert(rest.subrange(0, i - first) =~= s@.subrange(first as int, i as int));
                    lemma_digits_monotone(rest, i - first);
                    assert(digits_value(rest) > MAX_COORD);
                }
            }
            return None;
        }
    }
    proof {
        assert(rest =~= s@.subrange(first as int, i as int));
        assert forall|k: int| 0 <= k < rest.len() implies is_digit(#[trigger] rest[k]) by {
            assert(rest[k] == s@[first + k]);
        }
    }
    if negative {
        Some(-acc)
    } else {
        Some(acc)
    }
}

/// The coordinate written by `s`: an optional sign and decimal digits, within
/// the coordinate bound.
pub fn parse_coord(s: &[u8]) -> (r: Option<i64>)
    ensures
        match r {
            Some(v) => coord_value(s@) == Some(v as int) && coord_ok(v),
            None => coord_value(s@) is None,
        },
{
    proof {
        assert(s@.subrange(0, s@.len() as int) =~= s@);
    }
    parse_coord_in(s, 0, s.len())
}

/// The coordinate pair written as `x,y`; none when either part is missing,
/// is not an integer, or is out of bounds.
pub fn comma_split(s: &[u8]) -> (r: Option<(i64, i64)>)
    ensures
        match r {
            Some((x, y)) => pair_value(s@) == Some((x as int, y as int)) && coord_ok(x)
                && coord_ok(y),
            None => pair_value(s@) is None,
        },
{
    let c1 = find_comma(s, 0);
    proof {
        lemma_next_comma_bounds(s@, 0);
    }
    if c1 >= s.len() {
        return None;
    }
    let c2 = find_comma(s, c1 + 1);
    proof {
        lemma_next_comma_bounds(s@, c1 + 1);
    }
    match (parse_coord_in(s, 0, c1), parse_coord_in(s, c1 + 1, c2)) {
        (Some(x), Some(y)) => Some((x, y)),
        _ => None,
    }
}

} // verus!
