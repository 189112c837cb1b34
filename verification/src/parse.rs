//! Filename parsing: deriving a group key and a date token from a path.
//!
//! A well-formed filename ends in three underscore-delimited fields: a date,
//! a time and an extension.  The group key is everything before those three
//! fields.  The date token is found by splitting the whole path string on
//! underscores from the end and taking the third-from-last field.
//!
//! The definitions below locate fields by underscore positions; the
//! `split` module proves them equal to the split-and-rejoin reading.
//!
//! Note an inherited asymmetry, kept deliberately: the group key is derived
//! from the filename alone, while the date token is taken from the whole
//! path string.  When a directory name itself holds underscores, the date
//! token may therefore not line up with the filename's own fields.

use vstd::prelude::*;
use irox_time::format::FormatParser;
use irox_time::format::iso8601::BASIC_CALENDAR_DATE;
use crate::date::{Date, days_in_month};
use crate::error::Error;
use crate::file::{FileView, FoundFile};
use crate::order::lemma_char_cast_injective;

verus! {

/// Index of the rightmost occurrence of `c` in `s` strictly before `end`,
/// or `-1` when there is none.
pub open spec fn rfind(s: Seq<char>, c: char, end: int) -> int
    decreases end,
{
    if end <= 0 {
        -1
    } else if s[end - 1] == c {
        end - 1
    } else {
        rfind(s, c, end - 1)
    }
}

/// `rfind` returns `-1` exactly when `c` does not occur before `end`,
/// and otherwise the rightmost occurrence before `end`.
pub proof fn lemma_rfind(s: Seq<char>, c: char, end: int)
    requires
        end <= s.len(),
    ensures
        rfind(s, c, end) == -1 ==> forall|i: int| 0 <= i < end ==> s[i] != c,
        rfind(s, c, end) != -1 ==> {
            &&& 0 <= rfind(s, c, end) < end
            &&& s[rfind(s, c, end)] == c
            &&& forall|i: int| rfind(s, c, end) < i < end ==> s[i] != c
        },
    decreases end,
{
    if end > 0 && s[end - 1] != c {
        lemma_rfind(s, c, end - 1);
    }
}

/// Rightmost occurrence of `c` in `s` strictly before `end`, as an index,
/// or `None` when `c` does not occur there.
pub fn rfind_char(s: &str, c: char, end: usize) -> (r: Option<usize>)
    requires
        end <= s@.len(),
    ensures
        match r {
            Some(i) => rfind(s@, c, end as int) == i && i < end && s@[i as int] == c,
            None => rfind(s@, c, end as int) == -1,
        },
{
    let mut j: usize = end;
    while j > 0
        invariant
            j <= end <= s@.len(),
            rfind(s@, c, end as int) == rfind(s@, c, j as int),
        decreases j,
    {
        let jj: usize = j - 1;
        let ch = s.get_char(jj);
        if ch == c {
            return Some(jj);
        }
        j = jj;
    }
    None
}

/// ASCII decimal digit.
pub open spec fn is_digit(c: char) -> bool {
    48 <= c as u32 <= 57
}

/// Numeric value of an ASCII digit.
pub open spec fn digit_val(c: char) -> int {
    c as u32 - 48
}

/// Decimal value of the digit run `s[from..to]`.
pub open spec fn digits_val(s: Seq<char>, from: int, to: int) -> int
    decreases to - from,
{
    if from >= to {
        0
    } else {
        digits_val(s, from, to - 1) * 10 + digit_val(s[to - 1])
    }
}

/// The final path segment: everything after the last `/`, or the whole
/// string when there is no `/`.
pub open spec fn filename_of(p: Seq<char>) -> Seq<char> {
    p.subrange(rfind(p, '/', p.len() as int) + 1, p.len() as int)
}

/// A path is skipped when its filename holds fewer than three
/// underscore-delimited fields, that is, fewer than two underscores.
pub open spec fn skipped(p: Seq<char>) -> bool {
    let f = filename_of(p);
    rfind(f, '_', rfind(f, '_', f.len() as int)) == -1
}

/// The group key: the filename's fields except the trailing three (date,
/// time, extension), joined back with underscores.  Equivalently, the
/// filename up to its third-from-last underscore, or empty when the
/// filename has exactly three fields.
pub open spec fn group_key_of(p: Seq<char>) -> Seq<char> {
    let f = filename_of(p);
    let u1 = rfind(f, '_', f.len() as int);
    let u2 = rfind(f, '_', u1);
    let u3 = rfind(f, '_', u2);
    if u3 >= 0 {
        f.subrange(0, u3)
    } else {
        Seq::empty()
    }
}

/// The date token: the third-from-last underscore-delimited field of the
/// whole path string (the field before the time and extension fields).
/// Meaningful only when the path holds at least two underscores.
pub open spec fn date_token_of(p: Seq<char>) -> Seq<char> {
    let v1 = rfind(p, '_', p.len() as int);
    let v2 = rfind(p, '_', v1);
    let v3 = rfind(p, '_', v2);
    p.subrange(v3 + 1, v2)
}

/// A token in the shape of a basic calendar date: exactly eight ASCII
/// digits `YYYYMMDD`, with a nonzero day field.
pub open spec fn date_shaped(s: Seq<char>) -> bool {
    &&& s.len() == 8
    &&& (forall|i: int| 0 <= i < 8 ==> is_digit(#[trigger] s[i]))
    &&& !(s[6] == '0' && s[7] == '0')
}

/// The year field of a date-shaped token.
pub open spec fn year_num(s: Seq<char>) -> int {
    digits_val(s, 0, 4)
}

/// The month field of a date-shaped token.
pub open spec fn month_num(s: Seq<char>) -> int {
    digits_val(s, 4, 6)
}

/// The day field of a date-shaped token.
pub open spec fn day_num(s: Seq<char>) -> int {
    digits_val(s, 6, 8)
}

/// A date token that parses: date-shaped, with month and day in calendar
/// range for its year.
pub open spec fn date_token_ok(s: Seq<char>) -> bool {
    &&& date_shaped(s)
    &&& 1 <= month_num(s) <= 12
    &&& day_num(s) <= days_in_month(year_num(s), month_num(s))
}

/// The date a well-formed token denotes.
pub open spec fn date_of_token(s: Seq<char>) -> Date {
    Date { year: year_num(s) as u16, month: month_num(s) as u8, day: day_num(s) as u8 }
}

/// Relies on `irox_time`'s ISO-8601 basic calendar date parser,
/// `BASIC_CALENDAR_DATE.try_from`: on a token of exactly eight ASCII
/// digits with a nonzero day field, it returns the parsed date exactly
/// when the month lies in `1..=12` and the day is no greater than the
/// month's length in that year, and an error otherwise.  The date's
/// fields are read back through `Date::year`, `Date::month_of_year` and
/// `Date::day_of_month`; the last is zero-based, so the day returned
/// here is one less than the token's day field.
#[verifier::external_body]
fn parse_date_fields(token: &str) -> (r: Result<(u16, u8, u8), String>)
    requires
        date_shaped(token@),
    ensures
        r is Ok <==> date_token_ok(token@),
        r matches Ok((y, m, d0)) ==> {
            &&& y == year_num(token@)
            &&& m == month_num(token@)
            &&& d0 + 1 == day_num(token@)
        },
{
    match BASIC_CALENDAR_DATE.try_from(token) {
        Ok(d) => Ok((d.year() as u16, d.month_of_year() as u8, d.day_of_month())),
        Err(e) => Err(e.to_string()),
    }
}

/// The file a successfully parsed path denotes: its group key, the date
/// its date token denotes, and the path itself.
pub open spec fn parsed_view(p: Seq<char>) -> FileView {
    FileView { key: group_key_of(p), date: date_of_token(date_token_of(p)), path: p }
}

/// Parse one path.  Returns `Ok(None)` when the filename has too few
/// underscore-delimited fields (the file is skipped), `Ok(Some(f))` when
/// the path parses, and a format error when the date token is present but
/// is not a valid basic calendar date.
pub fn parse_path(path: &str) -> (r: Result<Option<FoundFile>, Error>)
    ensures
        skipped(path@) ==> r == Ok::<Option<FoundFile>, Error>(None),
        !skipped(path@) && date_token_ok(date_token_of(path@)) ==> (r matches Ok(Some(f))
            && f@ == parsed_view(path@) && f.date.valid()),
        !skipped(path@) && !date_token_ok(date_token_of(path@)) ==> (r matches Err(e)
            && e is FormatError),
{
    let n: usize = path.unicode_len();
    let fstart: usize = match rfind_char(path, '/', n) {
        Some(i) => i + 1,
        None => 0,
    };
    let flen: usize = n - fstart;
    let fsub: &str = path.substring_char(fstart, n);
    proof {
        assert(fsub@ =~= filename_of(path@));
    }
    let i1: usize = match rfind_char(fsub, '_', flen) {
        Some(i) => i,
        None => {
            return Ok(None);
        },
    };
    let i2: usize = match rfind_char(fsub, '_', i1) {
        Some(i) => i,
        None => {
            return Ok(None);
        },
    };
    let key: String = match rfind_char(fsub, '_', i2) {
        Some(i3) => String::from_str(fsub.substring_char(0, i3)),
        None => String::new(),
    };
    proof {
        assert(key@ =~= group_key_of(path@));
    }
    let j1: usize = match rfind_char(path, '_', n) {
        Some(j) => j,
        None => {
            proof {
                lemma_rfind(path@, '_', n as int);
                assert(path@[fstart + i1] == '_');
                assert(false);
            }
            vstd::pervasive::unreached()
        },
    };
    let j2: usize = match rfind_char(path, '_', j1) {
        Some(j) => j,
        None => {
            proof {
                lemma_rfind(path@, '_', n as int);
                assert(path@[fstart + i1] == '_');
                assert(path@[fstart + i2] == '_');
                assert(fstart + i1 <= j1);
                lemma_rfind(path@, '_', j1 as int);
                assert(false);
            }
            vstd::pervasive::unreached()
        },
    };
    let tstart: usize = match rfind_char(path, '_', j2) {
        Some(j) => j + 1,
        None => 0,
    };
    let token: &str = path.substring_char(tstart, j2);
    proof {
        assert(token@ =~= date_token_of(path@));
    }
    let tlen: usize = j2 - tstart;
    if tlen != 8 {
        return Err(Error::FormatError(String::from_str(
            "date token is not an eight digit basic calendar date",
        )));
    }
    let mut k: usize = 0;
    while k < 8
        invariant
            k <= 8,
            !skipped(path@),
            token@.len() == 8,
            token@ == date_token_of(path@),
            forall|i: int| 0 <= i < k ==> is_digit(#[trigger] token@[i]),
        decreases 8 - k,
    {
        let c = token.get_char(k);
        let v: u32 = c as u32;
        if v < 48 || v > 57 {
            return Err(Error::FormatError(String::from_str(
                "date token holds a character that is not a digit",
            )));
        }
        k = k + 1;
    }
    if token.get_char(6) == '0' && token.get_char(7) == '0' {
        return Err(Error::FormatError(String::from_str("date token holds day zero")));
    }
    let (y, m, d0) = match parse_date_fields(token) {
        Ok(t) => t,
        Err(msg) => {
            return Err(Error::FormatError(msg));
        },
    };
    proof {
        lemma_field_bounds(token@);
        lemma_parsed_date_valid(token@);
    }
    let d: Date = Date { year: y, month: m, day: d0 + 1 };
    let ff = FoundFile { path: key, date: d, full_path: String::from_str(path) };
    proof {
        assert(ff@ == parsed_view(path@));
    }
    Ok(Some(ff))
}

/// A well-formed date token denotes a valid calendar date.
proof fn lemma_parsed_date_valid(s: Seq<char>)
    requires
        date_token_ok(s),
    ensures
        date_of_token(s).valid(),
{
    lemma_field_bounds(s);
    if s[6] != '0' {
        lemma_char_cast_injective(s[6], '0');
        assert(digit_val(s[6]) >= 1);
    } else {
        lemma_char_cast_injective(s[7], '0');
        assert(digit_val(s[7]) >= 1);
    }
    assert(digits_val(s, 6, 6) == 0);
    assert(digits_val(s, 6, 7) == digit_val(s[6]));
    assert(digits_val(s, 6, 8) == digits_val(s, 6, 7) * 10 + digit_val(s[7]));
}

/// The numeric fields of an eight digit token lie within their widths:
/// the year below ten thousand, month and day below one hundred.
proof fn lemma_field_bounds(s: Seq<char>)
    requires
        s.len() == 8,
        forall|i: int| 0 <= i < 8 ==> is_digit(#[trigger] s[i]),
    ensures
        0 <= year_num(s) <= 9999,
        0 <= month_num(s) <= 99,
        0 <= day_num(s) <= 99,
{
    assert(digits_val(s, 0, 0) == 0);
    assert(digits_val(s, 0, 1) == digit_val(s[0]));
    assert(digits_val(s, 0, 2) == digits_val(s, 0, 1) * 10 + digit_val(s[1]));
    assert(digits_val(s, 0, 3) == digits_val(s, 0, 2) * 10 + digit_val(s[2]));
    assert(digits_val(s, 0, 4) == digits_val(s, 0, 3) * 10 + digit_val(s[3]));
    assert(digits_val(s, 4, 4) == 0);
    assert(digits_val(s, 4, 5) == digit_val(s[4]));
    assert(digits_val(s, 4, 6) == digits_val(s, 4, 5) * 10 + digit_val(s[5]));
    assert(digits_val(s, 6, 6) == 0);
    assert(digits_val(s, 6, 7) == digit_val(s[6]));
    assert(digits_val(s, 6, 8) == digits_val(s, 6, 7) * 10 + digit_val(s[7]));
}

} // verus!
