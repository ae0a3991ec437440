//! What day it is, which a model has no way of knowing.
//!
//! The day itself is read by whoever calls [`about`] - the machine's `date`,
//! or its clock read straight - and handed over as a [`Now`]. Everything said
//! about it is worked out here: how far off another day is, which weekday it
//! falls on, and how long ago the last one was.

use vstd::prelude::*;

use crate::calendar::{civil_from_days, days_from_civil, days_of, YEAR_RANGE};
use crate::strs::{
    ascii_lower, ascii_upper, ascii_words, ascii_words_of, chars_of, cut_at, cut_len, decimal,
    lower, lower_of, parse_i64, parse_int, push_all, push_str, same, signed_decimal, slice,
    split_at_any, split_at_each, split_on, split_set, starts_with, trim, trimmed, upper_ascii_char,
    write_i64, lower_ascii_char, occurs_at, at,
};

verus! {

/// The day as the machine has it.
pub struct Now {
    pub year: i64,
    pub month: i64,
    pub day: i64,
    /// The time of day, as it is to be said.
    pub clock: String,
    /// The zone that time is in.
    pub zone: String,
}

impl Now {
    /// A day this can count from.
    pub open spec fn wf(&self) -> bool {
        -YEAR_RANGE + 2 <= self.year <= YEAR_RANGE - 2 && 1 <= self.month <= 12 && 1 <= self.day
            <= 31
    }

    /// The day, said in full: weekday, date, time and zone.
    pub open spec fn said_spec(&self) -> Seq<char> {
        weekday_name(days_of(self.year as int, self.month as int, self.day as int)) + " "@
            + stamp_of(self.year as int, self.month as int, self.day as int)
            + ", and the time is "@ + self.clock@ + " ("@ + self.zone@ + ")"@
    }

    /// The day, said in full.
    pub fn said(&self) -> (r: Vec<char>)
        requires
            self.wf(),
        ensures
            r@ == self.said_spec(),
    {
        let mut out = Vec::new();
        let n = days_from_civil((self.year, self.month, self.day));
        push_str(&mut out, weekday(n));
        push_str(&mut out, " ");
        let s = stamp((self.year, self.month, self.day));
        push_all(&mut out, &s);
        push_str(&mut out, ", and the time is ");
        push_str(&mut out, self.clock.as_str());
        push_str(&mut out, " (");
        push_str(&mut out, self.zone.as_str());
        push_str(&mut out, ")");
        out
    }
}

/// The months' names, in lowercase.
pub open spec fn month_word(i: int) -> Seq<char> {
    if i == 0 {
        "january"@
    } else if i == 1 {
        "february"@
    } else if i == 2 {
        "march"@
    } else if i == 3 {
        "april"@
    } else if i == 4 {
        "may"@
    } else if i == 5 {
        "june"@
    } else if i == 6 {
        "july"@
    } else if i == 7 {
        "august"@
    } else if i == 8 {
        "september"@
    } else if i == 9 {
        "october"@
    } else if i == 10 {
        "november"@
    } else {
        "december"@
    }
}

/// A month's name in lowercase.
pub fn month_name(i: usize) -> (r: &'static str)
    requires
        i < 12,
    ensures
        r@ == month_word(i as int),
{
    if i == 0 {
        "january"
    } else if i == 1 {
        "february"
    } else if i == 2 {
        "march"
    } else if i == 3 {
        "april"
    } else if i == 4 {
        "may"
    } else if i == 5 {
        "june"
    } else if i == 6 {
        "july"
    } else if i == 7 {
        "august"
    } else if i == 8 {
        "september"
    } else if i == 9 {
        "october"
    } else if i == 10 {
        "november"
    } else {
        "december"
    }
}

/// A name with its first letter a capital.
pub open spec fn titled(s: Seq<char>) -> Seq<char> {
    if s.len() == 0 {
        s
    } else {
        seq![ascii_upper(s[0])] + s.drop_first()
    }
}

/// `1 <= month <= 12` made so, as an index into the months.
pub open spec fn month_index(month: int) -> int {
    if month < 1 {
        0
    } else if month > 12 {
        11
    } else {
        month - 1
    }
}

/// `25 December 2026`.
pub open spec fn stamp_of(year: int, month: int, day: int) -> Seq<char> {
    signed_decimal(day) + " "@ + titled(month_word(month_index(month))) + " "@ + signed_decimal(
        year,
    )
}

/// `25 December`, the day and month without the year.
pub open spec fn day_month_of(month: int, day: int) -> Seq<char> {
    signed_decimal(day) + " "@ + titled(month_word(month_index(month)))
}

fn titled_month(out: &mut Vec<char>, month: i64)
    ensures
        final(out)@ == old(out)@ + titled(month_word(month_index(month as int))),
{
    let i: usize = if month < 1 {
        0
    } else if month > 12 {
        11
    } else {
        (month - 1) as usize
    };
    let name = chars_of(month_name(i));
    if name.len() > 0 {
        out.push(upper_ascii_char(name[0]));
        let rest = slice(&name, 1, name.len());
        push_all(out, &rest);
        assert(name@.drop_first() =~= rest@);
    }
}

/// A day written out: `25 December 2026`.
pub fn stamp(ymd: (i64, i64, i64)) -> (r: Vec<char>)
    ensures
        r@ == stamp_of(ymd.0 as int, ymd.1 as int, ymd.2 as int),
{
    let (year, month, day) = ymd;
    let mut out = Vec::new();
    write_i64(&mut out, day);
    push_str(&mut out, " ");
    titled_month(&mut out, month);
    push_str(&mut out, " ");
    write_i64(&mut out, year);
    out
}

/// A day and month written out: `25 December`.
pub fn day_month(month: i64, day: i64) -> (r: Vec<char>)
    ensures
        r@ == day_month_of(month as int, day as int),
{
    let mut out = Vec::new();
    write_i64(&mut out, day);
    push_str(&mut out, " ");
    titled_month(&mut out, month);
    out
}

/// The weekday of a day counted from 1970-01-01, which was a Thursday.
pub open spec fn weekday_name(days: int) -> Seq<char> {
    let i = days % 7;
    if i == 0 {
        "Thursday"@
    } else if i == 1 {
        "Friday"@
    } else if i == 2 {
        "Saturday"@
    } else if i == 3 {
        "Sunday"@
    } else if i == 4 {
        "Monday"@
    } else if i == 5 {
        "Tuesday"@
    } else {
        "Wednesday"@
    }
}

/// The weekday of a day counted from 1970-01-01.
pub fn weekday(days: i64) -> (r: &'static str)
    ensures
        r@ == weekday_name(days as int),
{
    let i = if days >= 0 {
        days % 7
    } else {
        let m = (-(days + 1)) % 7;
        proof {
            assert((days as int) % 7 == 6 - m) by {
                vstd::arithmetic::div_mod::lemma_fundamental_div_mod(-(days + 1), 7);
                let q = (-(days + 1)) / 7;
                vstd::arithmetic::div_mod::lemma_fundamental_div_mod_converse_mod(
                    days as int,
                    7,
                    -q - 1,
                    6 - m,
                );
            }
        }
        6 - m
    };
    if i == 0 {
        "Thursday"
    } else if i == 1 {
        "Friday"
    } else if i == 2 {
        "Saturday"
    } else if i == 3 {
        "Sunday"
    } else if i == 4 {
        "Monday"
    } else if i == 5 {
        "Tuesday"
    } else {
        "Wednesday"
    }
}

/// A week on, the weekday is the same.
pub proof fn lemma_weekday_period(days: int)
    ensures
        weekday_name(days + 7) == weekday_name(days),
{
    vstd::arithmetic::div_mod::lemma_mod_add_multiples_vanish(days, 7);
}

/// `n unit`, with an `s` unless there is one.
pub open spec fn say_of(n: int, unit: Seq<char>) -> Seq<char> {
    signed_decimal(n) + " "@ + unit + if n == 1 { ""@ } else { "s"@ }
}

/// Whole years and months between two days, as `(years, months)`.
pub open spec fn span_parts(from: (int, int, int), to: (int, int, int)) -> (int, int) {
    let years = to.0 - from.0;
    let months = to.1 - from.1 - if to.2 < from.2 { 1int } else { 0int };
    if months < 0 {
        (years - 1, months + 12)
    } else {
        (years, months)
    }
}

/// How long between two days, in years and months, or nothing under a month.
pub open spec fn spanned_of(from: (int, int, int), to: (int, int, int)) -> Seq<char> {
    let (y, m) = span_parts(from, to);
    if y == 0 && m == 0 {
        ""@
    } else if y == 0 {
        say_of(m, "month"@)
    } else if m == 0 {
        say_of(y, "year"@)
    } else {
        say_of(y, "year"@) + " and "@ + say_of(m, "month"@)
    }
}

fn say(out: &mut Vec<char>, n: i64, unit: &str)
    ensures
        final(out)@ == old(out)@ + say_of(n as int, unit@),
{
    write_i64(out, n);
    push_str(out, " ");
    push_str(out, unit);
    if n != 1 {
        push_str(out, "s");
    }
    proof {
        reveal_strlit("");
    }
    assert(out@ =~= old(out)@ + say_of(n as int, unit@));
}

/// A span of whole years and months between two dates.
pub open spec fn span_ok(from: (i64, i64, i64), to: (i64, i64, i64)) -> bool {
    -YEAR_RANGE <= from.0 <= YEAR_RANGE && -YEAR_RANGE <= to.0 <= YEAR_RANGE && 1 <= from.1 <= 12
        && 1 <= to.1 <= 12
}

/// How long between two days, in the units people use for it.
pub fn spanned(from: (i64, i64, i64), to: (i64, i64, i64)) -> (r: Vec<char>)
    requires
        span_ok(from, to),
    ensures
        r@ == spanned_of(
            (from.0 as int, from.1 as int, from.2 as int),
            (to.0 as int, to.1 as int, to.2 as int),
        ),
{
    let mut years = to.0 - from.0;
    let mut months = to.1 - from.1;
    if to.2 < from.2 {
        months = months - 1;
    }
    if months < 0 {
        years = years - 1;
        months = months + 12;
    }
    let mut out = Vec::new();
    proof {
        reveal_strlit("");
    }
    if years == 0 && months == 0 {
    } else if years == 0 {
        say(&mut out, months, "month");
    } else if months == 0 {
        say(&mut out, years, "year");
    } else {
        say(&mut out, years, "year");
        push_str(&mut out, " and ");
        say(&mut out, months, "month");
    }
    out
}

/// A count of days, said the way somebody would say it.
pub open spec fn plural_of(days: int, tail: Seq<char>) -> Seq<char> {
    let n = if days == 0 {
        "today"@
    } else if days == 1 {
        "1 day"@
    } else {
        signed_decimal(days) + " days"@
    };
    if days == 0 || tail.len() == 0 {
        n
    } else {
        n + " "@ + tail
    }
}

/// A count of days, said the way somebody would say it.
pub fn plural(days: i64, tail: &str) -> (r: Vec<char>)
    ensures
        r@ == plural_of(days as int, tail@),
{
    let mut out = Vec::new();
    if days == 0 {
        push_str(&mut out, "today");
    } else if days == 1 {
        push_str(&mut out, "1 day");
    } else {
        write_i64(&mut out, days);
        push_str(&mut out, " days");
    }
    if days != 0 && !tail.is_empty() {
        push_str(&mut out, " ");
        push_str(&mut out, tail);
    }
    out
}

// ---------------------------------------------------------------- reading

/// A number that `parse::<i64>` reads out of a piece, trimmed.
pub open spec fn number_of(s: Seq<char>) -> Option<int> {
    parse_int(trim(s))
}

/// `2026-12-25`: year, month and day, the day allowed a time after it.
pub open spec fn parse_of(text: Seq<char>) -> Option<(int, int, int)> {
    let parts = split_on(trim(text), "-"@);
    if parts.len() < 3 {
        None
    } else {
        match (number_of(parts[0]), number_of(parts[1]), parse_int(cut_at(trim(parts[2]), "tT "@))) {
            (Some(y), Some(m), Some(d)) => if 1 <= m <= 12 && 1 <= d <= 31 {
                Some((y, m, d))
            } else {
                None
            },
            _ => None,
        }
    }
}

/// `2026-12-25`, and nothing more forgiving in figures.
pub fn parse(text: &[char]) -> (r: Option<(i64, i64, i64)>)
    ensures
        r matches Some(d) ==> parse_of(text@) == Some((d.0 as int, d.1 as int, d.2 as int)),
        r is None ==> parse_of(text@) is None,
{
    let t = trimmed(text);
    let dash = chars_of("-");
    assert(dash@.len() > 0) by {
        reveal_strlit("-");
    }
    let parts = split_at_each(&t, &dash);
    if parts.len() < 3 {
        return None;
    }
    let y = parse_i64(&trimmed(&parts[0]));
    let m = parse_i64(&trimmed(&parts[1]));
    let tail = trimmed(&parts[2]);
    let stops = chars_of("tT ");
    let n = cut_len(&tail, &stops);
    let d = parse_i64(&slice(&tail, 0, n));
    match (y, m, d) {
        (Some(y), Some(m), Some(d)) => {
            if 1 <= m && m <= 12 && 1 <= d && d <= 31 {
                Some((y, m, d))
            } else {
                None
            }
        },
        _ => None,
    }
}

/// A day and month with no year: the next time that day comes round.
pub open spec fn coming_of(text: Seq<char>, year: int, month: int, day: int) -> Option<(int, int, int)> {
    let parts = split_set(trim(text), "-/"@);
    if parts.len() != 2 {
        None
    } else {
        match (number_of(parts[0]), number_of(parts[1])) {
            (Some(m), Some(d)) => if 1 <= m <= 12 && 1 <= d <= 31 {
                Some((if m > month || (m == month && d >= day) { year } else { year + 1 }, m, d))
            } else {
                None
            },
            _ => None,
        }
    }
}

/// `12-25` and the like: the next time that day comes round.
pub fn coming(text: &[char], now: &Now) -> (r: Option<(i64, i64, i64)>)
    requires
        now.wf(),
    ensures
        r matches Some(d) ==> coming_of(text@, now.year as int, now.month as int, now.day as int)
            == Some((d.0 as int, d.1 as int, d.2 as int)),
        r is None ==> coming_of(text@, now.year as int, now.month as int, now.day as int) is None,
{
    let t = trimmed(text);
    let seps = chars_of("-/");
    let parts = split_at_any(&t, &seps);
    if parts.len() != 2 {
        return None;
    }
    let m = parse_i64(&trimmed(&parts[0]));
    let d = parse_i64(&trimmed(&parts[1]));
    match (m, d) {
        (Some(m), Some(d)) => {
            if 1 <= m && m <= 12 && 1 <= d && d <= 31 {
                let year = if m > now.month || (m == now.month && d >= now.day) {
                    now.year
                } else {
                    now.year + 1
                };
                Some((year, m, d))
            } else {
                None
            }
        },
        _ => None,
    }
}

/// A word in lowercase, letter by letter, for words of ASCII letters and digits.
pub open spec fn ascii_lowered(w: Seq<char>) -> Seq<char> {
    w.map_values(|c: char| ascii_lower(c))
}

/// Whether a word names a month: the start of its name, or its name's first
/// three letters and more.
pub open spec fn names_month(w: Seq<char>, i: int) -> bool {
    starts_with(month_word(i), w) || starts_with(w, month_word(i).take(3))
}

/// The first month, from `i` on, that a word names.
pub open spec fn month_from(w: Seq<char>, i: int) -> Option<int>
    decreases 12 - i,
{
    if i >= 12 || i < 0 {
        None
    } else if names_month(w, i) {
        Some(i)
    } else {
        month_from(w, i + 1)
    }
}

/// The month the first word that names one names, counted from zero.
pub open spec fn first_month(words: Seq<Seq<char>>, i: int) -> Option<int>
    decreases words.len() - i,
{
    if i >= words.len() || i < 0 {
        None
    } else {
        let w = ascii_lowered(words[i]);
        if w.len() >= 3 && month_from(w, 0) is Some {
            month_from(w, 0)
        } else {
            first_month(words, i + 1)
        }
    }
}

/// The year and day a list of words gives, from word `i` on, given what
/// the words before it gave: the first four-figure number from 1000 to 9999
/// is the year, and the first other number from 1 to 31 is the day.
pub open spec fn year_and_day(words: Seq<Seq<char>>, i: int, year: Option<int>, day: Option<int>) -> (Option<int>, Option<int>)
    decreases words.len() - i,
{
    if i >= words.len() || i < 0 {
        (year, day)
    } else {
        let w = words[i];
        match parse_int(w) {
            None => year_and_day(words, i + 1, year, day),
            Some(n) => if w.len() == 4 && 1000 <= n <= 9999 {
                year_and_day(words, i + 1, if year is Some { year } else { Some(n) }, day)
            } else if 1 <= n <= 31 {
                year_and_day(words, i + 1, year, if day is Some { day } else { Some(n) })
            } else {
                year_and_day(words, i + 1, year, day)
            },
        }
    }
}

/// A date written with the month's name in it, in whichever order.
pub open spec fn named_of(text: Seq<char>) -> Option<(Option<int>, int, int)> {
    let words = ascii_words(text);
    match first_month(words, 0) {
        None => None,
        Some(m) => match year_and_day(words, 0, None, None) {
            (year, Some(day)) => Some((year, m + 1, day)),
            _ => None,
        },
    }
}

fn lowered_ascii(w: &[char]) -> (r: Vec<char>)
    ensures
        r@ == ascii_lowered(w@),
{
    let mut out: Vec<char> = Vec::new();
    let mut i: usize = 0;
    while i < w.len()
        invariant
            i <= w@.len(),
            out@ == w@.take(i as int).map_values(|c: char| ascii_lower(c)),
        decreases w.len() - i,
    {
        out.push(lower_ascii_char(w[i]));
        assert(w@.take(i + 1).map_values(|c: char| ascii_lower(c)) =~= w@.take(i as int).map_values(
            |c: char| ascii_lower(c),
        ).push(ascii_lower(w@[i as int])));
        i = i + 1;
    }
    assert(w@.take(w@.len() as int) =~= w@);
    out
}

fn month_of_word(w: &[char]) -> (r: Option<usize>)
    ensures
        r matches Some(i) ==> month_from(w@, 0) == Some(i as int),
        r is None ==> month_from(w@, 0) is None,
{
    let mut i: usize = 0;
    while i < 12
        invariant
            i <= 12,
            month_from(w@, 0) == month_from(w@, i as int),
        decreases 12 - i,
    {
        let name = chars_of(month_name(i));
        let three = slice(&name, 0, if name.len() < 3 { name.len() } else { 3 });
        assert(three@ =~= name@.take(3)) by {
            reveal_strlit("january");
            reveal_strlit("february");
            reveal_strlit("march");
            reveal_strlit("april");
            reveal_strlit("may");
            reveal_strlit("june");
            reveal_strlit("july");
            reveal_strlit("august");
            reveal_strlit("september");
            reveal_strlit("october");
            reveal_strlit("november");
            reveal_strlit("december");
        }
        if at(&name, w, 0) || at(w, &three, 0) {
            return Some(i);
        }
        i = i + 1;
    }
    None
}

fn first_named_month(words: &Vec<Vec<char>>) -> (r: Option<usize>)
    ensures
        r matches Some(m) ==> m < 12 && first_month(words@.map_values(|w: Vec<char>| w@), 0)
            == Some(m as int),
        r is None ==> first_month(words@.map_values(|w: Vec<char>| w@), 0) is None,
{
    let ghost ws = words@.map_values(|w: Vec<char>| w@);
    let mut i: usize = 0;
    while i < words.len()
        invariant
            i <= words@.len(),
            ws == words@.map_values(|w: Vec<char>| w@),
            first_month(ws, 0) == first_month(ws, i as int),
        decreases words.len() - i,
    {
        let w = lowered_ascii(&words[i]);
        assert(ws[i as int] == words@[i as int]@);
        if w.len() >= 3 {
            match month_of_word(&w) {
                Some(m) => {
                    proof {
                        lemma_month_from_below(w@, 0);
                    }
                    return Some(m);
                },
                None => {},
            }
        }
        i = i + 1;
    }
    None
}

proof fn lemma_month_from_below(w: Seq<char>, i: int)
    ensures
        month_from(w, i) matches Some(m) ==> m < 12,
    decreases 12 - i,
{
    if 0 <= i < 12 && !names_month(w, i) {
        lemma_month_from_below(w, i + 1);
    }
}

/// A date written with the month's name in it, in whichever order.
pub fn named(text: &[char]) -> (r: Option<(Option<i64>, i64, i64)>)
    ensures
        r matches Some((y, m, d)) ==> named_of(text@) == Some((
            match y {
                Some(y) => Some(y as int),
                None => None,
            },
            m as int,
            d as int,
        )),
        r is None ==> named_of(text@) is None,
{
    let words = ascii_words_of(text);
    let ghost ws = ascii_words(text@);
    assert(ws =~= words@.map_values(|w: Vec<char>| w@));
    let month = match first_named_month(&words) {
        Some(m) => m,
        None => {
            return None;
        },
    };
    let mut year: Option<i64> = None;
    let mut day: Option<i64> = None;
    let mut k: usize = 0;
    while k < words.len()
        invariant
            k <= words@.len(),
            words@.len() == ws.len(),
            forall|j: int| 0 <= j < words@.len() ==> #[trigger] words@[j]@ == ws[j],
            year_and_day(ws, 0, None, None) == year_and_day(
                ws,
                k as int,
                match year {
                    Some(y) => Some(y as int),
                    None => None,
                },
                match day {
                    Some(d) => Some(d as int),
                    None => None,
                },
            ),
        decreases words.len() - k,
    {
        let w = &words[k];
        match parse_i64(w) {
            None => {},
            Some(n) => {
                if w.len() == 4 && 1000 <= n && n <= 9999 {
                    if year.is_none() {
                        year = Some(n);
                    }
                } else if 1 <= n && n <= 31 {
                    if day.is_none() {
                        day = Some(n);
                    }
                }
            },
        }
        k = k + 1;
    }
    match day {
        Some(d) => Some((year, month as i64 + 1, d)),
        None => None,
    }
}

// --------------------------------------------------------------- answering

/// A month or day in two figures.
pub open spec fn pad2(n: int) -> Seq<char> {
    if 0 <= n < 10 {
        "0"@ + decimal(n as nat)
    } else {
        signed_decimal(n)
    }
}

fn write_pad2(out: &mut Vec<char>, n: i64)
    ensures
        final(out)@ == old(out)@ + pad2(n as int),
{
    if 0 <= n && n < 10 {
        push_str(out, "0");
        crate::strs::write_u64(out, n as u64);
        assert(out@ =~= old(out)@ + pad2(n as int));
    } else {
        write_i64(out, n);
    }
}

/// What is said after today's date when asked about today.
pub open spec fn nudge() -> Seq<char> {
    ". Do not work out how far off another day is by counting from this one - you cannot count days and this can. Ask it again with the day instead: 12-25 for Christmas, 11-03 for the third of November. It answers with the next one and the one before, so that is both directions in a single question."@
}

/// Nothing, or ` - ` and the span between two days.
pub open spec fn long_of(a: (int, int, int), b: (int, int, int)) -> Seq<char> {
    let s = spanned_of(a, b);
    if s.len() == 0 {
        ""@
    } else {
        " - "@ + s
    }
}

/// How the question reads once a date with a month's name in it has been
/// written in figures.
pub open spec fn in_figures(asked: Seq<char>) -> Seq<char> {
    match named_of(asked) {
        Some((Some(year), month, day)) => signed_decimal(year) + "-"@ + pad2(month) + "-"@ + pad2(day),
        Some((None, month, day)) => pad2(month) + "-"@ + pad2(day),
        None => asked,
    }
}

/// The answer about a day that comes round every year: the next one and the
/// one before.
pub open spec fn recurring_of(next: (int, int, int), now: Now) -> Seq<char> {
    let here_ymd = (now.year as int, now.month as int, now.day as int);
    let here = days_of(here_ymd.0, here_ymd.1, here_ymd.2);
    let last = (next.0 - 1, next.1, next.2);
    let to = days_of(next.0, next.1, next.2) - here;
    let since = here - days_of(last.0, last.1, last.2);
    "The next "@ + day_month_of(next.1, next.2) + " is "@ + stamp_of(next.0, next.1, next.2) + ", a "@
        + weekday_name(days_of(next.0, next.1, next.2)) + ", "@ + plural_of(to, "from today"@)
        + long_of(here_ymd, next) + ". The one before was "@ + stamp_of(last.0, last.1, last.2)
        + ", a "@ + weekday_name(days_of(last.0, last.1, last.2)) + ", "@ + plural_of(since, ""@)
        + " ago"@ + long_of(last, here_ymd) + ". Today is "@ + now.said_spec() + "."@
}

/// The answer about one day.
pub open spec fn one_day_of(then: (int, int, int), now: Now) -> Seq<char> {
    let here_ymd = (now.year as int, now.month as int, now.day as int);
    let here = days_of(here_ymd.0, here_ymd.1, here_ymd.2);
    let gap = days_of(then.0, then.1, then.2) - here;
    let when = if gap == 0 {
        "which is today"@
    } else if gap == 1 {
        "which is tomorrow"@
    } else if gap == -1 {
        "which was yesterday"@
    } else if gap > 0 {
        "which is "@ + signed_decimal(gap) + " days from today"@ + long_of(here_ymd, then)
    } else {
        "which was "@ + signed_decimal(-gap) + " days ago"@ + long_of(then, here_ymd)
    };
    let stale = if then.0 < now.year {
        " If you meant the next one rather than that year's, ask about "@ + signed_decimal(
            if then.1 > now.month || (then.1 == now.month && then.2 >= now.day) {
                now.year as int
            } else {
                now.year + 1
            },
        ) + "-"@ + pad2(then.1) + "-"@ + pad2(then.2) + "."@
    } else {
        ""@
    };
    let before = (then.0 - 1, then.1, then.2);
    let gap_before = here - days_of(before.0, before.1, before.2);
    stamp_of(then.0, then.1, then.2) + " is a "@ + weekday_name(days_of(then.0, then.1, then.2))
        + ", "@ + when + "."@ + " The same day a year earlier, "@ + stamp_of(
        before.0,
        before.1,
        before.2,
    ) + ", was a "@ + weekday_name(days_of(before.0, before.1, before.2)) + " and was "@
        + signed_decimal(gap_before) + " days ago."@ + " Today is "@ + now.said_spec() + "."@
        + stale
}

/// What is said about a question that is not a date.
pub open spec fn not_a_date(what: Seq<char>) -> Seq<char> {
    what + " is not a date this understands - write it as 2026-12-25, or 12-25 for the next one there is, or ask about today"@
}

/// What the model asked about: today, or some other day.
pub open spec fn about_of(what: Seq<char>, now: Now) -> Result<Seq<char>, Seq<char>> {
    let asked0 = lower_of(trim(what));
    if asked0.len() == 0 || asked0 == "today"@ || asked0 == "now"@ {
        Ok(now.said_spec() + nudge())
    } else {
        let asked = in_figures(asked0);
        match parse_of(asked) {
            Some(then) => if -YEAR_RANGE + 1 <= then.0 <= YEAR_RANGE {
                Ok(one_day_of(then, now))
            } else {
                Err(not_a_date(what))
            },
            None => match coming_of(asked, now.year as int, now.month as int, now.day as int) {
                Some(next) => Ok(recurring_of(next, now)),
                None => Err(not_a_date(what)),
            },
        }
    }
}

fn push_long(out: &mut Vec<char>, a: (i64, i64, i64), b: (i64, i64, i64))
    requires
        span_ok(a, b),
    ensures
        final(out)@ == old(out)@ + long_of(
            (a.0 as int, a.1 as int, a.2 as int),
            (b.0 as int, b.1 as int, b.2 as int),
        ),
{
    let s = spanned(a, b);
    proof {
        reveal_strlit("");
    }
    if s.len() > 0 {
        push_str(out, " - ");
        push_all(out, &s);
    }
    assert(out@ =~= old(out)@ + long_of(
        (a.0 as int, a.1 as int, a.2 as int),
        (b.0 as int, b.1 as int, b.2 as int),
    ));
}

fn recurring(next: (i64, i64, i64), now: &Now) -> (r: Vec<char>)
    requires
        now.wf(),
        now.year <= next.0 <= now.year + 1,
        1 <= next.1 <= 12,
        1 <= next.2 <= 31,
    ensures
        r@ == recurring_of((next.0 as int, next.1 as int, next.2 as int), *now),
{
    let here_ymd = (now.year, now.month, now.day);
    let here = days_from_civil(here_ymd);
    let last = (next.0 - 1, next.1, next.2);
    let next_days = days_from_civil(next);
    let last_days = days_from_civil(last);
    let to = next_days - here;
    let since = here - last_days;
    let mut out = chars_of("The next ");
    push_all(&mut out, &day_month(next.1, next.2));
    push_str(&mut out, " is ");
    push_all(&mut out, &stamp(next));
    push_str(&mut out, ", a ");
    push_str(&mut out, weekday(next_days));
    push_str(&mut out, ", ");
    push_all(&mut out, &plural(to, "from today"));
    push_long(&mut out, here_ymd, next);
    push_str(&mut out, ". The one before was ");
    push_all(&mut out, &stamp(last));
    push_str(&mut out, ", a ");
    push_str(&mut out, weekday(last_days));
    push_str(&mut out, ", ");
    push_all(&mut out, &plural(since, ""));
    push_str(&mut out, " ago");
    push_long(&mut out, last, here_ymd);
    push_str(&mut out, ". Today is ");
    push_all(&mut out, &now.said());
    push_str(&mut out, ".");
    out
}

fn one_day(then: (i64, i64, i64), now: &Now) -> (r: Vec<char>)
    requires
        now.wf(),
        -YEAR_RANGE + 1 <= then.0 <= YEAR_RANGE,
        1 <= then.1 <= 12,
        1 <= then.2 <= 31,
    ensures
        r@ == one_day_of((then.0 as int, then.1 as int, then.2 as int), *now),
{
    let here_ymd = (now.year, now.month, now.day);
    let here = days_from_civil(here_ymd);
    let then_days = days_from_civil(then);
    let gap = then_days - here;
    let when = if gap == 0 {
        chars_of("which is today")
    } else if gap == 1 {
        chars_of("which is tomorrow")
    } else if gap == -1 {
        chars_of("which was yesterday")
    } else if gap > 0 {
        let mut w = chars_of("which is ");
        write_i64(&mut w, gap);
        push_str(&mut w, " days from today");
        push_long(&mut w, here_ymd, then);
        w
    } else {
        let mut w = chars_of("which was ");
        write_i64(&mut w, -gap);
        push_str(&mut w, " days ago");
        push_long(&mut w, then, here_ymd);
        w
    };
    let mut stale = chars_of("");
    if then.0 < now.year {
        stale = chars_of(" If you meant the next one rather than that year's, ask about ");
        let y = if then.1 > now.month || (then.1 == now.month && then.2 >= now.day) {
            now.year
        } else {
            now.year + 1
        };
        write_i64(&mut stale, y);
        push_str(&mut stale, "-");
        write_pad2(&mut stale, then.1);
        push_str(&mut stale, "-");
        write_pad2(&mut stale, then.2);
        push_str(&mut stale, ".");
    }
    let before = (then.0 - 1, then.1, then.2);
    let before_days = days_from_civil(before);
    let gap_before = here - before_days;
    let mut out = stamp(then);
    push_str(&mut out, " is a ");
    push_str(&mut out, weekday(then_days));
    push_str(&mut out, ", ");
    push_all(&mut out, &when);
    push_str(&mut out, ".");
    push_str(&mut out, " The same day a year earlier, ");
    push_all(&mut out, &stamp(before));
    push_str(&mut out, ", was a ");
    push_str(&mut out, weekday(before_days));
    push_str(&mut out, " and was ");
    write_i64(&mut out, gap_before);
    push_str(&mut out, " days ago.");
    push_str(&mut out, " Today is ");
    push_all(&mut out, &now.said());
    push_str(&mut out, ".");
    push_all(&mut out, &stale);
    out
}

/// What the model asked about: today, or some other day.
pub fn about(what: &str, now: &Now) -> (r: Result<String, String>)
    requires
        now.wf(),
    ensures
        r matches Ok(s) ==> about_of(what@, *now) == Ok::<Seq<char>, Seq<char>>(s@),
        r matches Err(e) ==> about_of(what@, *now) == Err::<Seq<char>, Seq<char>>(e@),
{
    let text = chars_of(what);
    let asked0 = lower(&trimmed(&text));
    let today = chars_of("today");
    let now_word = chars_of("now");
    if asked0.len() == 0 || same(&asked0, &today) || same(&asked0, &now_word) {
        let mut out = now.said();
        push_str(&mut out, ". Do not work out how far off another day is by counting from this one - you cannot count days and this can. Ask it again with the day instead: 12-25 for Christmas, 11-03 for the third of November. It answers with the next one and the one before, so that is both directions in a single question.");
        return Ok(crate::strs::string_of(&out));
    }
    let asked = match named(&asked0) {
        Some((Some(year), month, day)) => {
            let mut v = Vec::new();
            write_i64(&mut v, year);
            push_str(&mut v, "-");
            write_pad2(&mut v, month);
            push_str(&mut v, "-");
            write_pad2(&mut v, day);
            v
        },
        Some((None, month, day)) => {
            let mut v = Vec::new();
            write_pad2(&mut v, month);
            push_str(&mut v, "-");
            write_pad2(&mut v, day);
            v
        },
        None => asked0,
    };
    let mut refused = text;
    push_str(&mut refused, " is not a date this understands - write it as 2026-12-25, or 12-25 for the next one there is, or ask about today");
    match parse(&asked) {
        Some(then) => {
            if -YEAR_RANGE + 1 <= then.0 && then.0 <= YEAR_RANGE {
                Ok(crate::strs::string_of(&one_day(then, now)))
            } else {
                Err(crate::strs::string_of(&refused))
            }
        },
        None => match coming(&asked, now) {
            Some(next) => Ok(crate::strs::string_of(&recurring(next, now))),
            None => Err(crate::strs::string_of(&refused)),
        },
    }
}

/// Where a day stands against today, as the answer about it says it.
pub open spec fn standing(gap: int) -> Seq<char> {
    if gap == 0 {
        "is today"@
    } else if gap == 1 {
        "is tomorrow"@
    } else if gap == -1 {
        "was yesterday"@
    } else if gap > 0 {
        "is "@ + signed_decimal(gap) + " days from today"@
    } else {
        "was "@ + signed_decimal(-gap) + " days ago"@
    }
}

/// The words after the weekday, `which` and where the day stands, then the
/// span of years and months when it is further off.
proof fn lemma_when_begins_with_standing(gap: int, a: (int, int, int), b: (int, int, int))
    ensures
        ({
            let when = if gap == 0 {
                "which is today"@
            } else if gap == 1 {
                "which is tomorrow"@
            } else if gap == -1 {
                "which was yesterday"@
            } else if gap > 0 {
                "which is "@ + signed_decimal(gap) + " days from today"@ + long_of(a, b)
            } else {
                "which was "@ + signed_decimal(-gap) + " days ago"@ + long_of(b, a)
            };
            let head = "which "@ + standing(gap);
            head.len() <= when.len() && when.take(head.len() as int) == head
        }),
{
    reveal_strlit("which ");
    if gap == 0 {
        reveal_strlit("which is today");
        reveal_strlit("is today");
        assert(("which "@ + standing(gap)) =~= "which is today"@);
    } else if gap == 1 {
        reveal_strlit("which is tomorrow");
        reveal_strlit("is tomorrow");
        assert(("which "@ + standing(gap)) =~= "which is tomorrow"@);
    } else if gap == -1 {
        reveal_strlit("which was yesterday");
        reveal_strlit("was yesterday");
        assert(("which "@ + standing(gap)) =~= "which was yesterday"@);
    } else if gap > 0 {
        reveal_strlit("which is ");
        reveal_strlit("is ");
        let w = "which is "@ + signed_decimal(gap) + " days from today"@;
        assert(("which "@ + standing(gap)) =~= w);
        assert((w + long_of(a, b)).take(w.len() as int) =~= w);
    } else {
        reveal_strlit("which was ");
        reveal_strlit("was ");
        let w = "which was "@ + signed_decimal(-gap) + " days ago"@;
        assert(("which "@ + standing(gap)) =~= w);
        assert((w + long_of(b, a)).take(w.len() as int) =~= w);
    }
}

/// The answer about a day begins with the date, the weekday it falls on
/// (counted from 1970-01-01, a Thursday), and then where it stands against
/// today: today, tomorrow, yesterday, so many days ahead or so many back.
#[verifier::spinoff_prover]
#[verifier::rlimit(60)]
pub proof fn law_a_day_is_placed_against_today(then: (int, int, int), now: Now)
    ensures
        ({
            let gap = days_of(then.0, then.1, then.2) - days_of(
                now.year as int,
                now.month as int,
                now.day as int,
            );
            let head = stamp_of(then.0, then.1, then.2) + " is a "@ + weekday_name(
                days_of(then.0, then.1, then.2),
            ) + ", which "@ + standing(gap);
            &&& head.len() <= one_day_of(then, now).len()
            &&& one_day_of(then, now).take(head.len() as int) == head
        }),
        weekday_name(days_of(1970, 1, 1)) == "Thursday"@,
{
    crate::calendar::lemma_epoch();
    let here_ymd = (now.year as int, now.month as int, now.day as int);
    let here = days_of(here_ymd.0, here_ymd.1, here_ymd.2);
    let gap = days_of(then.0, then.1, then.2) - here;
    let when = if gap == 0 {
        "which is today"@
    } else if gap == 1 {
        "which is tomorrow"@
    } else if gap == -1 {
        "which was yesterday"@
    } else if gap > 0 {
        "which is "@ + signed_decimal(gap) + " days from today"@ + long_of(here_ymd, then)
    } else {
        "which was "@ + signed_decimal(-gap) + " days ago"@ + long_of(then, here_ymd)
    };
    lemma_when_begins_with_standing(gap, here_ymd, then);
    let front = stamp_of(then.0, then.1, then.2) + " is a "@ + weekday_name(
        days_of(then.0, then.1, then.2),
    ) + ", "@;
    let w = "which "@ + standing(gap);
    let s = one_day_of(then, now);
    let fw = front + when;
    assert(s.take(fw.len() as int) =~= fw);
    assert(fw.take((front + w).len() as int) =~= front + w);
    assert(s.take((front + w).len() as int) =~= front + w);
    assert((stamp_of(then.0, then.1, then.2) + " is a "@ + weekday_name(
        days_of(then.0, then.1, then.2),
    ) + ", which "@ + standing(gap)) =~= front + w) by {
        reveal_strlit(", which ");
        reveal_strlit(", ");
        reveal_strlit("which ");
    }
}

/// A question that is not a date is answered by saying it back, followed by
/// ` is not a date this understands` and the forms that are.
pub proof fn law_a_refusal_says_the_question_back(what: Seq<char>, now: Now)
    ensures
        about_of(what, now) matches Err(e) ==> e == not_a_date(what),
        about_of(what, now) matches Err(e) ==> e.take(what.len() as int) == what,
{
    if let Err(e) = about_of(what, now) {
        assert(e == not_a_date(what));
        assert(e.take(what.len() as int) =~= what);
    }
}

proof fn lemma_no_dash_split(x: Seq<char>)
    requires
        forall|i: int| 0 <= i < x.len() ==> #[trigger] x[i] != '-',
    ensures
        split_on(x, "-"@) == seq![x],
{
    reveal_strlit("-");
    crate::strs::lemma_find_from(x, "-"@, 0);
    if let Some(k) = crate::strs::find_from(x, "-"@, 0) {
        assert(x.subrange(k, k + 1)[0] == x[k]);
    }
}

proof fn lemma_dash_split(x: Seq<char>, rest: Seq<char>)
    requires
        forall|i: int| 0 <= i < x.len() ==> #[trigger] x[i] != '-',
    ensures
        split_on(x + seq!['-'] + rest, "-"@) == seq![x] + split_on(rest, "-"@),
{
    reveal_strlit("-");
    let t = x + seq!['-'] + rest;
    let dash = "-"@;
    crate::strs::lemma_find_from(t, dash, 0);
    assert(t.subrange(x.len() as int, (x.len() + 1) as int) =~= dash);
    assert(crate::strs::occurs_at(t, dash, x.len() as int));
    match crate::strs::find_from(t, dash, 0) {
        Some(k) => {
            if k < x.len() {
                assert(t.subrange(k, k + 1)[0] == t[k]);
                assert(t[k] == x[k]);
            }
        },
        None => {},
    }
    assert(crate::strs::find(t, dash) == Some(x.len() as int));
    assert(t.take(x.len() as int) =~= x);
    assert(t.skip((x.len() + 1) as int) =~= rest);
}

proof fn lemma_cut_at_none(x: Seq<char>, stops: Seq<char>)
    requires
        forall|i: int| 0 <= i < x.len() ==> !stops.contains(#[trigger] x[i]),
    ensures
        cut_at(x, stops) == x,
    decreases x.len(),
{
    if x.len() > 0 {
        assert(!stops.contains(x[0]));
        assert forall|i: int| 0 <= i < x.drop_first().len() implies !stops.contains(#[trigger] x.drop_first()[i]) by {
            assert(x.drop_first()[i] == x[i + 1]);
        }
        lemma_cut_at_none(x.drop_first(), stops);
        assert(seq![x[0]] + x.drop_first() =~= x);
    }
}

/// Digits and dashes only, beginning and ending with a digit: nothing to
/// trim.
proof fn lemma_figures_untrimmed(t: Seq<char>)
    requires
        t.len() > 0,
        crate::strs::is_digit(t[0]),
        crate::strs::is_digit(t.last()),
    ensures
        trim(t) == t,
{
    assert(crate::strs::trim_start(t) == t);
    assert(crate::strs::trim_end(t) == t);
}

/// A number in figures, read back.
proof fn lemma_number_read(n: nat)
    requires
        n <= 9_223_372_036_854_775_807,
    ensures
        number_of(crate::strs::decimal(n)) == Some(n as int),
        parse_int(crate::strs::decimal(n)) == Some(n as int),
        trim(crate::strs::decimal(n)) == crate::strs::decimal(n),
{
    crate::strs::lemma_decimal_reads_back(n);
    let d = crate::strs::decimal(n);
    assert(crate::strs::is_digit(d[0]));
    assert(crate::strs::is_digit(d.last()));
    lemma_figures_untrimmed(d);
}

/// No word made of figures names a month.
proof fn lemma_no_month_in_figures(words: Seq<Seq<char>>, i: int)
    requires
        0 <= i <= words.len(),
        forall|k: int| 0 <= k < words.len() ==> (#[trigger] words[k]).len() > 0 && crate::strs::is_digit(words[k][0]),
    ensures
        first_month(words, i) is None,
    decreases words.len() - i,
{
    if i < words.len() {
        lemma_no_month_in_figures(words, i + 1);
        let w = ascii_lowered(words[i]);
        assert(w[0] == crate::strs::ascii_lower(words[i][0]));
        assert(crate::strs::is_digit(w[0]));
        lemma_no_month_from(w, 0);
    }
}

proof fn lemma_no_month_from(w: Seq<char>, i: int)
    requires
        0 <= i,
        w.len() > 0,
        crate::strs::is_digit(w[0]),
    ensures
        month_from(w, i) is None,
    decreases 12 - i,
{
    if i < 12 {
        reveal_strlit("january");
        reveal_strlit("february");
        reveal_strlit("march");
        reveal_strlit("april");
        reveal_strlit("may");
        reveal_strlit("june");
        reveal_strlit("july");
        reveal_strlit("august");
        reveal_strlit("september");
        reveal_strlit("october");
        reveal_strlit("november");
        reveal_strlit("december");
        let mw = month_word(i);
        assert(mw.len() >= 3 && 'a' <= mw[0] && mw[0] <= 'z');
        if starts_with(mw, w) {
            assert(mw.subrange(0, w.len() as int)[0] == mw[0]);
        }
        if starts_with(w, mw.take(3)) {
            assert(w.subrange(0, 3)[0] == w[0]);
            assert(mw.take(3)[0] == mw[0]);
        }
        lemma_no_month_from(w, i + 1);
    }
}

/// A date written in figures, year-month-day, is read as that date, and
/// answered as that day: once the text is lowercased as ASCII is, which is
/// what lowercasing does to figures and dashes.
pub proof fn law_a_date_in_figures_is_read(y: nat, m: nat, d: nat, now: Now)
    requires
        1 <= y <= YEAR_RANGE,
        1 <= m <= 12,
        1 <= d <= 31,
    ensures
        ({
            let t = crate::strs::decimal(y) + seq!['-'] + crate::strs::decimal(m) + seq!['-'] + crate::strs::decimal(d);
            lower_of(t) == t.map_values(|c: char| crate::strs::ascii_lower(c)) ==> about_of(t, now) == Ok::<Seq<char>, Seq<char>>(
                one_day_of((y as int, m as int, d as int), now),
            )
        }),
{
    let dy = crate::strs::decimal(y);
    let dm = crate::strs::decimal(m);
    let dd = crate::strs::decimal(d);
    let t = dy + seq!['-'] + dm + seq!['-'] + dd;
    lemma_number_read(y);
    lemma_number_read(m);
    lemma_number_read(d);
    crate::strs::lemma_decimal_reads_back(y);
    crate::strs::lemma_decimal_reads_back(m);
    crate::strs::lemma_decimal_reads_back(d);
    assert forall|i: int| 0 <= i < t.len() implies crate::strs::is_digit(#[trigger] t[i]) || t[i] == '-' by {
        if i < dy.len() {
            assert(t[i] == dy[i]);
        } else if i == dy.len() {
        } else if i < dy.len() + 1 + dm.len() {
            assert(t[i] == dm[i - dy.len() - 1]);
        } else if i == dy.len() + 1 + dm.len() {
        } else {
            assert(t[i] == dd[i - dy.len() - 2 - dm.len()]);
        }
    }
    assert(t[0] == dy[0]);
    assert(t.last() == dd.last());
    lemma_figures_untrimmed(t);
    if lower_of(t) == t.map_values(|c: char| crate::strs::ascii_lower(c)) {
        assert(lower_of(trim(t)) =~= t);
        reveal_strlit("today");
        reveal_strlit("now");
        assert(t != "today"@ && t != "now"@) by {
            if t == "today"@ {
                assert(t[0] == 't');
            }
            if t == "now"@ {
                assert(t[0] == 'n');
            }
        }
        assert(crate::strs::no_letters(t));
        crate::strs::lemma_words_of_figures(t);
        lemma_no_month_in_figures(ascii_words(t), 0);
        assert(named_of(t) is None);
        assert(in_figures(t) == t);
        assert forall|i: int| 0 <= i < dy.len() implies #[trigger] dy[i] != '-' by {
            assert(crate::strs::is_digit(dy[i]));
        }
        assert forall|i: int| 0 <= i < dm.len() implies #[trigger] dm[i] != '-' by {
            assert(crate::strs::is_digit(dm[i]));
        }
        assert forall|i: int| 0 <= i < dd.len() implies #[trigger] dd[i] != '-' by {
            assert(crate::strs::is_digit(dd[i]));
        }
        lemma_dash_split(dy, dm + seq!['-'] + dd);
        assert(t =~= dy + seq!['-'] + (dm + seq!['-'] + dd));
        lemma_dash_split(dm, dd);
        lemma_no_dash_split(dd);
        let parts = split_on(trim(t), "-"@);
        assert(parts =~= seq![dy, dm, dd]);
        reveal_strlit("tT ");
        assert forall|i: int| 0 <= i < dd.len() implies !"tT "@.contains(#[trigger] dd[i]) by {
            assert(crate::strs::is_digit(dd[i]));
            if "tT "@.contains(dd[i]) {
                let j = choose|j: int| 0 <= j < "tT "@.len() && "tT "@[j] == dd[i];
            }
        }
        lemma_cut_at_none(dd, "tT "@);
        assert(parse_of(t) == Some((y as int, m as int, d as int)));
    }
}

/// The day a month and a day with no year is taken for is the next one that
/// comes round: not before today, and - when that day is on the calendar
/// the year before - the same day a year earlier is already past.
pub proof fn law_the_coming_day_is_the_next_one(text: Seq<char>, year: int, month: int, day: int)
    requires
        crate::calendar::valid_date(year, month, day),
    ensures
        coming_of(text, year, month, day) matches Some(next) ==> {
            &&& days_of(next.0, next.1, next.2) >= days_of(year, month, day)
            &&& next.2 <= crate::calendar::month_len(next.0 - 1, next.1) ==> days_of(next.0 - 1, next.1, next.2)
                < days_of(year, month, day)
        },
{
    if let Some(next) = coming_of(text, year, month, day) {
        let (y, m, d) = next;
        assert(1 <= m <= 12 && 1 <= d <= 31);
        crate::calendar::lemma_days_of_day(year, month, day);
        crate::calendar::lemma_days_of_day(y, m, d);
        crate::calendar::lemma_days_of_in_year(year, month, day);
        crate::calendar::lemma_days_of_in_year(y - 1, m, d);
        if y == year {
            if m > month {
                crate::calendar::lemma_days_of_month_order(year, month, m);
            }
        } else {
            assert(y == year + 1);
            crate::calendar::lemma_days_of_in_year(y, m, d);
            if m < month {
                crate::calendar::lemma_days_of_month_order(year, m, month);
                crate::calendar::lemma_days_of_day(year, m, d);
            } else {
                assert(m == month && d < day);
            }
        }
    }
}

} // verus!
