//! Instants in UTC, the calendar around them, and their storage encoding.

use vstd::prelude::*;

verus! {

/// Whether `year` is a leap year of the proleptic Gregorian calendar.
pub open spec fn is_leap_year(year: int) -> bool {
    year % 4 == 0 && (year % 100 != 0 || year % 400 == 0)
}

/// The number of days of `month` (1 to 12) in `year`.
pub open spec fn days_in_month(year: int, month: int) -> int {
    if month == 2 {
        if is_leap_year(year) {
            29
        } else {
            28
        }
    } else if month == 4 || month == 6 || month == 9 || month == 11 {
        30
    } else {
        31
    }
}

/// The mathematical value of an [`Instant`]: a civil date and time of day in
/// UTC, with the nanoseconds elapsed within the second.
pub struct InstantView {
    pub year: int,
    pub month: int,
    pub day: int,
    pub hour: int,
    pub minute: int,
    pub second: int,
    pub nanos: int,
}

impl InstantView {
    /// The fields name a real moment whose year has four digits.
    pub open spec fn wf(self) -> bool {
        &&& 0 <= self.year <= 9999
        &&& 1 <= self.month <= 12
        &&& 1 <= self.day <= days_in_month(self.year, self.month)
        &&& 0 <= self.hour < 24
        &&& 0 <= self.minute < 60
        &&& 0 <= self.second < 60
        &&& 0 <= self.nanos < 1_000_000_000
    }

    /// `self` lies strictly earlier on the time line than `other`.
    pub open spec fn before(self, other: InstantView) -> bool {
        if self.year != other.year {
            self.year < other.year
        } else if self.month != other.month {
            self.month < other.month
        } else if self.day != other.day {
            self.day < other.day
        } else if self.hour != other.hour {
            self.hour < other.hour
        } else if self.minute != other.minute {
            self.minute < other.minute
        } else if self.second != other.second {
            self.second < other.second
        } else {
            self.nanos < other.nanos
        }
    }

    /// `self` is `other` or lies earlier.
    pub open spec fn at_or_before(self, other: InstantView) -> bool {
        self == other || self.before(other)
    }

    /// The same moment with the fraction of the second dropped.
    pub open spec fn whole_second(self) -> InstantView {
        InstantView { nanos: 0, ..self }
    }

    /// The first moment of the same day.
    pub open spec fn midnight(self) -> InstantView {
        InstantView { hour: 0, minute: 0, second: 0, nanos: 0, ..self }
    }

    /// The last whole second of the same day.
    pub open spec fn last_second(self) -> InstantView {
        InstantView { hour: 23, minute: 59, second: 59, nanos: 0, ..self }
    }
}

/// An absolute instant, kept as its UTC date and time of day.
#[derive(Clone, Copy, Debug, PartialEq, Eq, Structural)]
pub struct Instant {
    year: u16,
    month: u8,
    day: u8,
    hour: u8,
    minute: u8,
    second: u8,
    nanos: u32,
}

impl View for Instant {
    type V = InstantView;

    closed spec fn view(&self) -> InstantView {
        InstantView {
            year: self.year as int,
            month: self.month as int,
            day: self.day as int,
            hour: self.hour as int,
            minute: self.minute as int,
            second: self.second as int,
            nanos: self.nanos as int,
        }
    }
}

/// The length of `month` in `year`.
pub fn month_length(year: u16, month: u8) -> (n: u8)
    ensures
        n == days_in_month(year as int, month as int),
{
    if month == 2 {
        if year % 4 == 0 && (year % 100 != 0 || year % 400 == 0) {
            29
        } else {
            28
        }
    } else if month == 4 || month == 6 || month == 9 || month == 11 {
        30
    } else {
        31
    }
}

impl Instant {
    #[verifier::type_invariant]
    spec fn valid(self) -> bool {
        self@.wf()
    }

    /// Two instants with the same value are the same instant.
    pub proof fn lemma_view_injective(a: Instant, b: Instant)
        requires
            a@ == b@,
        ensures
            a == b,
    {
    }

    /// The instant with the given UTC fields, if they name one.
    pub fn new(
        year: i32,
        month: u32,
        day: u32,
        hour: u32,
        minute: u32,
        second: u32,
        nanos: u32,
    ) -> (r: Option<Instant>)
        ensures
            match r {
                Some(t) => t@ == (InstantView {
                    year: year as int,
                    month: month as int,
                    day: day as int,
                    hour: hour as int,
                    minute: minute as int,
                    second: second as int,
                    nanos: nanos as int,
                }) && t@.wf(),
                None => !(InstantView {
                    year: year as int,
                    month: month as int,
                    day: day as int,
                    hour: hour as int,
                    minute: minute as int,
                    second: second as int,
                    nanos: nanos as int,
                }).wf(),
            },
    {
        if year < 0 || year > 9999 || month < 1 || month > 12 || hour >= 24 || minute >= 60
            || second >= 60 || nanos >= 1_000_000_000 {
            return None;
        }
        let y: u16 = year as u16;
        let m: u8 = month as u8;
        if day < 1 || day > month_length(y, m) as u32 {
            return None;
        }
        Some(
            Instant {
                year: y,
                month: m,
                day: day as u8,
                hour: hour as u8,
                minute: minute as u8,
                second: second as u8,
                nanos,
            },
        )
    }

    pub fn year(&self) -> (r: i32)
        ensures
            r == self@.year,
    {
        self.year as i32
    }

    pub fn month(&self) -> (r: u32)
        ensures
            r == self@.month,
    {
        self.month as u32
    }

    pub fn day(&self) -> (r: u32)
        ensures
            r == self@.day,
    {
        self.day as u32
    }

    pub fn hour(&self) -> (r: u32)
        ensures
            r == self@.hour,
    {
        self.hour as u32
    }

    pub fn minute(&self) -> (r: u32)
        ensures
            r == self@.minute,
    {
        self.minute as u32
    }

    pub fn second(&self) -> (r: u32)
        ensures
            r == self@.second,
    {
        self.second as u32
    }

    pub fn nanosecond(&self) -> (r: u32)
        ensures
            r == self@.nanos,
    {
        self.nanos
    }

    /// Whether `self` lies strictly earlier than `other`.
    pub fn is_before(&self, other: &Instant) -> (b: bool)
        ensures
            b == self@.before(other@),
    {
        if self.year != other.year {
            self.year < other.year
        } else if self.month != other.month {
            self.month < other.month
        } else if self.day != other.day {
            self.day < other.day
        } else if self.hour != other.hour {
            self.hour < other.hour
        } else if self.minute != other.minute {
            self.minute < other.minute
        } else if self.second != other.second {
            self.second < other.second
        } else {
            self.nanos < other.nanos
        }
    }

    /// Whether `self` is `other` or lies earlier.
    pub fn is_at_or_before(&self, other: &Instant) -> (b: bool)
        ensures
            b == self@.at_or_before(other@),
    {
        !other.is_before(self)
    }

    /// The first moment of the day of `self`.
    pub fn midnight(&self) -> (r: Instant)
        ensures
            r@ == self@.midnight(),
            r@.wf(),
    {
        proof {
            use_type_invariant(self);
        }
        Instant { hour: 0, minute: 0, second: 0, nanos: 0, ..*self }
    }

    /// The last whole second of the day of `self`.
    pub fn last_second(&self) -> (r: Instant)
        ensures
            r@ == self@.last_second(),
            r@.wf(),
    {
        proof {
            use_type_invariant(self);
        }
        Instant { hour: 23, minute: 59, second: 59, nanos: 0, ..*self }
    }

    /// `self` with the fraction of its second dropped.
    pub fn whole_second(&self) -> (r: Instant)
        ensures
            r@ == self@.whole_second(),
            r@.wf(),
    {
        proof {
            use_type_invariant(self);
        }
        Instant { nanos: 0, ..*self }
    }
}


/// The decimal digit `d` (0 to 9) as a character.
pub open spec fn digit_char(d: int) -> char {
    (48 + d) as char
}

/// `n` (0 to 99) written with two decimal digits.
pub open spec fn digits2(n: int) -> Seq<char> {
    seq![digit_char(n / 10), digit_char(n % 10)]
}

/// `n` (0 to 9999) written with four decimal digits.
pub open spec fn digits4(n: int) -> Seq<char> {
    seq![
        digit_char(n / 1000),
        digit_char((n / 100) % 10),
        digit_char((n / 10) % 10),
        digit_char(n % 10),
    ]
}

/// Whether `c` is one of the characters `0` to `9`.
pub open spec fn is_digit(c: char) -> bool {
    48 <= c as int <= 57
}

/// The number that the two digits of `text` from position `at` spell.
pub open spec fn number2(text: Seq<char>, at: int) -> int {
    (text[at] as int - 48) * 10 + (text[at + 1] as int - 48)
}

/// The number that the four digits of `text` from position `at` spell.
pub open spec fn number4(text: Seq<char>, at: int) -> int {
    number2(text, at) * 100 + number2(text, at + 2)
}

/// Whether `text` has the shape `YYYY-MM-DDTHH:MM:SS`, digits and separators
/// each in their place.
pub open spec fn has_storage_shape(text: Seq<char>) -> bool {
    &&& text.len() == 19
    &&& forall|i: int|
        0 <= i < 19 && i != 4 && i != 7 && i != 10 && i != 13 && i != 16 ==> is_digit(
            #[trigger] text[i],
        )
    &&& text[4] == '-'
    &&& text[7] == '-'
    &&& text[10] == 'T'
    &&& text[13] == ':'
    &&& text[16] == ':'
}

/// The fields that a text of the storage shape spells, at second precision.
pub open spec fn storage_fields(text: Seq<char>) -> InstantView {
    InstantView {
        year: number4(text, 0),
        month: number2(text, 5),
        day: number2(text, 8),
        hour: number2(text, 11),
        minute: number2(text, 14),
        second: number2(text, 17),
        nanos: 0,
    }
}

/// What a stored text means: the instant it spells, if it has the storage
/// shape and spells one.
pub open spec fn parse_storage(text: Seq<char>) -> Option<InstantView> {
    if has_storage_shape(text) && storage_fields(text).wf() {
        Some(storage_fields(text))
    } else {
        None
    }
}

impl InstantView {
    /// The storage encoding: UTC wall-clock text `YYYY-MM-DDTHH:MM:SS`.
    pub open spec fn storage_text(self) -> Seq<char> {
        digits4(self.year) + seq!['-'] + digits2(self.month) + seq!['-'] + digits2(self.day)
            + seq!['T'] + digits2(self.hour) + seq![':'] + digits2(self.minute) + seq![':']
            + digits2(self.second)
    }
}

/// `String::push` appends the character to the end of the string.
pub assume_specification[ String::push ](s: &mut String, c: char)
    ensures
        final(s)@ == old(s)@.push(c),
;

pub(crate) fn push_digit(out: &mut String, d: u8)
    requires
        d < 10,
    ensures
        final(out)@ == old(out)@.push(digit_char(d as int)),
{
    let c: char = (48u8 + d) as char;
    out.push(c);
}

pub(crate) fn push_two(out: &mut String, n: u8)
    requires
        n < 100,
    ensures
        final(out)@ == old(out)@ + digits2(n as int),
{
    push_digit(out, n / 10);
    push_digit(out, n % 10);
}

pub(crate) fn push_four(out: &mut String, n: u16)
    requires
        n <= 9999,
    ensures
        final(out)@ == old(out)@ + digits4(n as int),
{
    push_two(out, (n / 100) as u8);
    push_two(out, (n % 100) as u8);
    proof {
        let y = n as int;
        assert((y / 100) / 10 == y / 1000);
        assert((y % 100) / 10 == (y / 10) % 10);
        assert((y % 100) % 10 == y % 10);
        assert(digits2(y / 100) + digits2(y % 100) =~= digits4(y));
        assert(out@ =~= old(out)@ + (digits2(y / 100) + digits2(y % 100)));
    }
}

/// Storing an instant and reading the text back gives the instant at second
/// precision; in particular an instant without a fraction comes back unchanged.
#[verifier::rlimit(40)]
pub proof fn lemma_storage_round_trip(x: InstantView)
    requires
        x.wf(),
    ensures
        parse_storage(x.storage_text()) == Some(x.whole_second()),
        x.nanos == 0 ==> parse_storage(x.storage_text()) == Some(x),
{
    let t = x.storage_text();
    lemma_storage_text_chars(x);
    lemma_number_of_digits(t, 0, x.year / 100);
    lemma_number_of_digits(t, 2, x.year % 100);
    lemma_number_of_digits(t, 5, x.month);
    lemma_number_of_digits(t, 8, x.day);
    lemma_number_of_digits(t, 11, x.hour);
    lemma_number_of_digits(t, 14, x.minute);
    lemma_number_of_digits(t, 17, x.second);
    assert(has_storage_shape(t));
    assert(storage_fields(t) == x.whole_second());
}

/// The storage text, character by character.
#[verifier::rlimit(40)]
proof fn lemma_storage_text_chars(x: InstantView)
    requires
        x.wf(),
    ensures
        x.storage_text().len() == 19,
        x.storage_text().subrange(0, 2) == digits2(x.year / 100),
        x.storage_text().subrange(2, 4) == digits2(x.year % 100),
        x.storage_text()[4] == '-',
        x.storage_text().subrange(5, 7) == digits2(x.month),
        x.storage_text()[7] == '-',
        x.storage_text().subrange(8, 10) == digits2(x.day),
        x.storage_text()[10] == 'T',
        x.storage_text().subrange(11, 13) == digits2(x.hour),
        x.storage_text()[13] == ':',
        x.storage_text().subrange(14, 16) == digits2(x.minute),
        x.storage_text()[16] == ':',
        x.storage_text().subrange(17, 19) == digits2(x.second),
{
    let y = x.year;
    assert((y / 100) / 10 == y / 1000);
    assert((y % 100) / 10 == (y / 10) % 10);
    assert((y % 100) % 10 == y % 10);
    let p0 = digits4(y);
    assert(p0 =~= digits2(y / 100) + digits2(y % 100));
    let p1 = p0 + seq!['-'];
    let p2 = p1 + digits2(x.month);
    let p3 = p2 + seq!['-'];
    let p4 = p3 + digits2(x.day);
    let p5 = p4 + seq!['T'];
    let p6 = p5 + digits2(x.hour);
    let p7 = p6 + seq![':'];
    let p8 = p7 + digits2(x.minute);
    let p9 = p8 + seq![':'];
    let p10 = p9 + digits2(x.second);
    assert(x.storage_text() == p10);
    assert(p1.len() == 5 && p2.len() == 7 && p3.len() == 8 && p4.len() == 10 && p5.len() == 11);
    assert(p6.len() == 13 && p7.len() == 14 && p8.len() == 16 && p9.len() == 17 && p10.len() == 19);
    assert(p10.subrange(0, 2) =~= digits2(y / 100));
    assert(p10.subrange(2, 4) =~= digits2(y % 100));
    assert(p10.subrange(5, 7) =~= digits2(x.month));
    assert(p10.subrange(8, 10) =~= digits2(x.day));
    assert(p10.subrange(11, 13) =~= digits2(x.hour));
    assert(p10.subrange(14, 16) =~= digits2(x.minute));
    assert(p10.subrange(17, 19) =~= digits2(x.second));
}

/// Where `text` holds the two digits of `n`, they are digits and spell `n`.
proof fn lemma_number_of_digits(text: Seq<char>, at: int, n: int)
    requires
        0 <= n < 100,
        0 <= at,
        at + 2 <= text.len(),
        text.subrange(at, at + 2) == digits2(n),
    ensures
        is_digit(text[at]),
        is_digit(text[at + 1]),
        number2(text, at) == n,
{
    let d = text.subrange(at, at + 2);
    assert(d[0] == text[at] && d[1] == text[at + 1]);
    assert(digit_char(n / 10) as int == 48 + n / 10);
    assert(digit_char(n % 10) as int == 48 + n % 10);
}

/// A text that reads as an instant is the storage text of that instant.
#[verifier::rlimit(40)]
pub proof fn lemma_storage_text_of_parsed(text: Seq<char>)
    requires
        parse_storage(text) is Some,
    ensures
        parse_storage(text)->0.storage_text() == text,
{
    let x = storage_fields(text);
    let s = x.storage_text();
    lemma_storage_text_chars(x);
    assert(x.year / 100 == number2(text, 0) && x.year % 100 == number2(text, 2)) by {
        lemma_digits_of_number(text, 0);
        lemma_digits_of_number(text, 2);
    }
    lemma_same_digits(s, text, 0);
    lemma_same_digits(s, text, 2);
    lemma_same_digits(s, text, 5);
    lemma_same_digits(s, text, 8);
    lemma_same_digits(s, text, 11);
    lemma_same_digits(s, text, 14);
    lemma_same_digits(s, text, 17);
    assert(s =~= text);
}

/// Where `s` holds, written out, the number that two digits of `text`
/// spell, it holds those two digits.
proof fn lemma_same_digits(s: Seq<char>, text: Seq<char>, at: int)
    requires
        0 <= at,
        at + 2 <= text.len(),
        at + 2 <= s.len(),
        is_digit(text[at]),
        is_digit(text[at + 1]),
        s.subrange(at, at + 2) == digits2(number2(text, at)),
    ensures
        s[at] == text[at],
        s[at + 1] == text[at + 1],
{
    lemma_digits_of_number(text, at);
    let d = s.subrange(at, at + 2);
    assert(d[0] == s[at] && d[1] == s[at + 1]);
}

/// Two digits, read as a number and written again, are the same two digits.
proof fn lemma_digits_of_number(text: Seq<char>, at: int)
    requires
        0 <= at,
        at + 1 < text.len(),
        is_digit(text[at]),
        is_digit(text[at + 1]),
    ensures
        0 <= number2(text, at) < 100,
        digits2(number2(text, at))[0] == text[at],
        digits2(number2(text, at))[1] == text[at + 1],
{
    let a = text[at] as int - 48;
    let b = text[at + 1] as int - 48;
    assert(number2(text, at) == a * 10 + b);
    assert((a * 10 + b) / 10 == a);
    assert((a * 10 + b) % 10 == b);
    assert((48 + a) as char == text[at]);
    assert((48 + b) as char == text[at + 1]);
}

impl Instant {
    /// The storage encoding of `self`; the fraction of the second is dropped.
    #[verifier::rlimit(40)]
    pub fn to_storage(&self) -> (text: String)
        ensures
            text@ == self@.storage_text(),
            self@.wf(),
    {
        proof {
            use_type_invariant(self);
        }
        let mut out = String::new();
        push_four(&mut out, self.year);
        out.push('-');
        push_two(&mut out, self.month);
        out.push('-');
        push_two(&mut out, self.day);
        let ghost date = out@;
        assert(date =~= digits4(self@.year) + seq!['-'] + digits2(self@.month) + seq!['-']
            + digits2(self@.day));
        out.push('T');
        push_two(&mut out, self.hour);
        out.push(':');
        push_two(&mut out, self.minute);
        out.push(':');
        push_two(&mut out, self.second);
        assert(out@ =~= date + seq!['T'] + digits2(self@.hour) + seq![':'] + digits2(
            self@.minute,
        ) + seq![':'] + digits2(self@.second));
        out
    }
}


/// The number spelled by the two characters of `text` from `at`, if both are
/// digits.
fn two_digits_at(text: &str, at: usize) -> (r: Option<u32>)
    requires
        at + 1 < text@.len(),
        at < 100,
    ensures
        match r {
            Some(n) => is_digit(text@[at as int]) && is_digit(text@[at + 1]) && n == number2(
                text@,
                at as int,
            ),
            None => !is_digit(text@[at as int]) || !is_digit(text@[at + 1]),
        },
{
    let a: u32 = text.get_char(at) as u32;
    let b: u32 = text.get_char(at + 1) as u32;
    if 48 <= a && a <= 57 && 48 <= b && b <= 57 {
        Some((a - 48) * 10 + (b - 48))
    } else {
        None
    }
}

/// Whether the character of `text` at `at` is `c`.
fn char_is(text: &str, at: usize, c: char) -> (b: bool)
    requires
        at < text@.len(),
    ensures
        b == (text@[at as int] == c),
{
    text.get_char(at) == c
}

impl Instant {
    /// Reads a stored text back as the UTC instant it spells. `None` when the
    /// text is not of the form `YYYY-MM-DDTHH:MM:SS` or names no real moment.
    pub fn from_storage(text: &str) -> (r: Option<Instant>)
        ensures
            match r {
                Some(t) => parse_storage(text@) == Some(t@),
                None => parse_storage(text@) is None,
            },
    {
        if text.unicode_len() != 19 {
            return None;
        }
        if !(char_is(text, 4, '-') && char_is(text, 7, '-') && char_is(text, 10, 'T') && char_is(
            text,
            13,
            ':',
        ) && char_is(text, 16, ':')) {
            return None;
        }
        let century = match two_digits_at(text, 0) {
            Some(n) => n,
            None => { return None; },
        };
        let years = match two_digits_at(text, 2) {
            Some(n) => n,
            None => { return None; },
        };
        let month = match two_digits_at(text, 5) {
            Some(n) => n,
            None => { return None; },
        };
        let day = match two_digits_at(text, 8) {
            Some(n) => n,
            None => { return None; },
        };
        let hour = match two_digits_at(text, 11) {
            Some(n) => n,
            None => { return None; },
        };
        let minute = match two_digits_at(text, 14) {
            Some(n) => n,
            None => { return None; },
        };
        let second = match two_digits_at(text, 17) {
            Some(n) => n,
            None => { return None; },
        };
        assert(has_storage_shape(text@));
        let year: i32 = (century * 100 + years) as i32;
        Instant::new(year, month, day, hour, minute, second, 0)
    }
}


impl InstantView {
    /// The calendar date alone, as `YYYY-MM-DD`.
    pub open spec fn date_text(self) -> Seq<char> {
        digits4(self.year) + seq!['-'] + digits2(self.month) + seq!['-'] + digits2(self.day)
    }

    /// Whether the day of `self` is the last one whose year has four digits.
    pub open spec fn is_last_day(self) -> bool {
        self.year == 9999 && self.month == 12 && self.day == 31
    }

    /// The same time of day on the following calendar day.
    pub open spec fn next_day(self) -> InstantView {
        if self.day < days_in_month(self.year, self.month) {
            InstantView { day: self.day + 1, ..self }
        } else if self.month < 12 {
            InstantView { month: self.month + 1, day: 1, ..self }
        } else {
            InstantView { year: self.year + 1, month: 1, day: 1, ..self }
        }
    }
}

impl Instant {
    /// The calendar date of `self` as `YYYY-MM-DD`.
    #[verifier::rlimit(40)]
    pub fn date_text(&self) -> (text: String)
        ensures
            text@ == self@.date_text(),
    {
        proof {
            use_type_invariant(self);
        }
        let mut out = String::new();
        push_four(&mut out, self.year);
        out.push('-');
        push_two(&mut out, self.month);
        out.push('-');
        push_two(&mut out, self.day);
        assert(out@ =~= self@.date_text());
        out
    }

    /// The same time of day on the following calendar day; `None` on the
    /// last day of the year 9999, after which no instant can be held.
    pub fn next_day(&self) -> (r: Option<Instant>)
        ensures
            match r {
                Some(t) => !self@.is_last_day() && t@ == self@.next_day() && t@.wf(),
                None => self@.is_last_day(),
            },
    {
        proof {
            use_type_invariant(self);
        }
        if self.day < month_length(self.year, self.month) {
            Some(Instant { day: self.day + 1, ..*self })
        } else if self.month < 12 {
            Some(Instant { month: self.month + 1, day: 1, ..*self })
        } else if self.year < 9999 {
            Some(Instant { year: self.year + 1, month: 1, day: 1, ..*self })
        } else {
            None
        }
    }
}


impl InstantView {
    /// The same time of day `days` calendar days later.
    pub open spec fn plus_days(self, days: nat) -> InstantView
        decreases days,
    {
        if days == 0 {
            self
        } else {
            self.plus_days((days - 1) as nat).next_day()
        }
    }

    /// The moment `minutes` minutes later.
    pub open spec fn plus_minutes(self, minutes: nat) -> InstantView {
        let total = self.hour * 60 + self.minute + minutes;
        InstantView {
            hour: (total / 60) % 24,
            minute: total % 60,
            ..self.plus_days((total / 1440) as nat)
        }
    }
}

/// Days only lead forward: once the year 9999 is left, it stays left.
proof fn lemma_plus_days_leaves(x: InstantView, reached: nat, days: nat)
    requires
        reached <= days,
        x.plus_days(reached).year > 9999,
    ensures
        x.plus_days(days).year > 9999,
    decreases days,
{
    if reached < days {
        lemma_plus_days_leaves(x, reached, (days - 1) as nat);
    }
}

impl Instant {
    /// The moment `minutes` minutes after `self`; `None` where that moment
    /// lies after the year 9999.
    pub fn plus_minutes(&self, minutes: u32) -> (r: Option<Instant>)
        ensures
            match r {
                Some(t) => t@ == self@.plus_minutes(minutes as nat) && t@.wf(),
                None => self@.plus_minutes(minutes as nat).year > 9999,
            },
    {
        proof {
            use_type_invariant(self);
        }
        let total: u64 = self.hour as u64 * 60 + self.minute as u64 + minutes as u64;
        let days: u64 = total / 1440;
        let mut day = *self;
        let mut passed: u64 = 0;
        while passed < days
            invariant
                passed <= days,
                days as int == (self@.hour * 60 + self@.minute + minutes as nat) / 1440,
                day@ == self@.plus_days(passed as nat),
                day@.wf(),
            decreases days - passed,
        {
            match day.next_day() {
                Some(next) => {
                    day = next;
                },
                None => {
                    proof {
                        assert(self@.plus_days((passed + 1) as nat).year == 10000);
                        lemma_plus_days_leaves(self@, (passed + 1) as nat, days as nat);
                    }
                    return None;
                },
            }
            passed += 1;
        }
        let later = Instant {
            hour: ((total / 60) % 24) as u8,
            minute: (total % 60) as u8,
            ..day
        };
        proof {
            let sum = self@.hour * 60 + self@.minute + minutes as nat;
            assert(total as int == sum);
            assert(days as int == sum / 1440);
            assert(later@ == (InstantView {
                hour: (sum / 60) % 24,
                minute: sum % 60,
                ..self@.plus_days((sum / 1440) as nat)
            }));
        }
        Some(later)
    }
}

/// The text of an instant in a calendar file: `YYYYMMDDTHHMMSSZ`.
pub open spec fn calendar_text(t: InstantView) -> Seq<char> {
    digits4(t.year) + digits2(t.month) + digits2(t.day) + seq!['T'] + digits2(t.hour) + digits2(
        t.minute,
    ) + digits2(t.second) + seq!['Z']
}

impl Instant {
    /// `self` as calendar files write a UTC time: `YYYYMMDDTHHMMSSZ`.
    #[verifier::rlimit(40)]
    pub fn calendar_text(&self) -> (text: String)
        ensures
            text@ == calendar_text(self@),
    {
        proof {
            use_type_invariant(self);
        }
        let mut out = String::new();
        push_four(&mut out, self.year);
        push_two(&mut out, self.month);
        push_two(&mut out, self.day);
        let ghost date = out@;
        assert(date =~= digits4(self@.year) + digits2(self@.month) + digits2(self@.day));
        out.push('T');
        push_two(&mut out, self.hour);
        push_two(&mut out, self.minute);
        push_two(&mut out, self.second);
        out.push('Z');
        assert(out@ =~= date + seq!['T'] + digits2(self@.hour) + digits2(self@.minute) + digits2(
            self@.second,
        ) + seq!['Z']);
        out
    }
}


/// `a` comes strictly before `b` in the order of texts: character by
/// character, the first difference deciding, a proper beginning first. This
/// is the order in which a table that holds the stored texts compares them.
pub open spec fn text_before(a: Seq<char>, b: Seq<char>) -> bool
    decreases a.len(),
{
    if b.len() == 0 {
        false
    } else if a.len() == 0 {
        true
    } else if a.first() != b.first() {
        (a.first() as int) < (b.first() as int)
    } else {
        text_before(a.drop_first(), b.drop_first())
    }
}

/// Behind beginnings of one length the order of two texts is that of the
/// beginnings, and where these are the same, that of what follows.
#[verifier::rlimit(40)]
proof fn lemma_text_before_parts(p: Seq<char>, r: Seq<char>, q: Seq<char>, s: Seq<char>)
    requires
        p.len() == q.len(),
    ensures
        text_before(p + r, q + s) == (if p == q {
            text_before(r, s)
        } else {
            text_before(p, q)
        }),
        (p + r == q + s) == (p == q && r == s),
    decreases p.len(),
{
    if p.len() == 0 {
        assert(p =~= q);
        assert(p + r =~= r);
        assert(q + s =~= s);
    } else {
        assert((p + r).drop_first() =~= p.drop_first() + r);
        assert((q + s).drop_first() =~= q.drop_first() + s);
        assert((p + r).first() == p.first() && (q + s).first() == q.first());
        lemma_text_before_parts(p.drop_first(), r, q.drop_first(), s);
        if p.first() == q.first() && p.drop_first() == q.drop_first() {
            assert forall|i: int| 0 <= i < p.len() implies p[i] == q[i] by {
                if i > 0 {
                    assert(p.drop_first()[i - 1] == q.drop_first()[i - 1]);
                }
            }
            assert(p =~= q);
        }
        if p + r == q + s {
            assert((p + r).first() == (q + s).first());
            assert(p.drop_first() + r == q.drop_first() + s);
        }
    }
}

/// Two digits stand in the order of their number.
#[verifier::rlimit(40)]
proof fn lemma_digits2_order(m: int, n: int)
    requires
        0 <= m < 100,
        0 <= n < 100,
    ensures
        text_before(digits2(m), digits2(n)) == (m < n),
        (digits2(m) == digits2(n)) == (m == n),
{
    let a = digits2(m);
    let b = digits2(n);
    assert(a[0] as int == 48 + m / 10 && a[1] as int == 48 + m % 10);
    assert(b[0] as int == 48 + n / 10 && b[1] as int == 48 + n % 10);
    let a1 = a.drop_first();
    let b1 = b.drop_first();
    assert(a1.len() == 1 && b1.len() == 1 && a1.first() == a[1] && b1.first() == b[1]);
    assert(!text_before(a1.drop_first(), b1.drop_first()));
    assert(text_before(a1, b1) == (m % 10 < n % 10));
    assert(text_before(a, b) == (if m / 10 != n / 10 {
        m / 10 < n / 10
    } else {
        m % 10 < n % 10
    }));
    if a == b {
        assert(a[0] == b[0] && a[1] == b[1]);
    }
    if m == n {
        assert(a =~= b);
    }
}

/// Four digits are the two of the hundreds and the two of the rest.
proof fn lemma_digits4_split(n: int)
    requires
        0 <= n <= 9999,
    ensures
        digits4(n) == digits2(n / 100) + digits2(n % 100),
        0 <= n / 100 < 100,
        0 <= n % 100 < 100,
{
    assert((n / 100) / 10 == n / 1000);
    assert((n % 100) / 10 == (n / 10) % 10);
    assert((n % 100) % 10 == n % 10);
    assert(digits4(n) =~= digits2(n / 100) + digits2(n % 100));
}

/// Four digits stand in the order of their number.
#[verifier::rlimit(40)]
proof fn lemma_digits4_order(m: int, n: int)
    requires
        0 <= m <= 9999,
        0 <= n <= 9999,
    ensures
        text_before(digits4(m), digits4(n)) == (m < n),
        (digits4(m) == digits4(n)) == (m == n),
{
    lemma_digits4_split(m);
    lemma_digits4_split(n);
    let mh = m / 100;
    let ml = m % 100;
    let nh = n / 100;
    let nl = n % 100;
    assert(m == mh * 100 + ml && n == nh * 100 + nl);
    lemma_digits2_order(mh, nh);
    lemma_digits2_order(ml, nl);
    lemma_text_before_parts(digits2(mh), digits2(ml), digits2(nh), digits2(nl));
    assert((m < n) == (if mh != nh {
        mh < nh
    } else {
        ml < nl
    }));
    assert((m == n) == (mh == nh && ml == nl));
}

/// The stored texts stand in the order of their instants: comparing two
/// stored times as texts is comparing the moments they name, at whole
/// seconds, and two stored texts are the same only for the same second.
#[verifier::rlimit(40)]
pub proof fn lemma_storage_order(x: InstantView, y: InstantView)
    requires
        x.wf(),
        y.wf(),
    ensures
        text_before(x.storage_text(), y.storage_text()) == x.whole_second().before(
            y.whole_second(),
        ),
        (x.storage_text() == y.storage_text()) == (x.whole_second() == y.whole_second()),
{
    let dash = seq!['-'];
    let tee = seq!['T'];
    let colon = seq![':'];
    lemma_digits4_order(x.year, y.year);
    lemma_digits2_order(x.month, y.month);
    lemma_digits2_order(x.day, y.day);
    lemma_digits2_order(x.hour, y.hour);
    lemma_digits2_order(x.minute, y.minute);
    lemma_digits2_order(x.second, y.second);
    let a0 = digits4(x.year);
    let b0 = digits4(y.year);
    let a1 = a0 + dash;
    let b1 = b0 + dash;
    lemma_text_before_parts(a0, dash, b0, dash);
    assert(!text_before(dash, dash)) by {
        reveal_with_fuel(text_before, 2);
    }
    let a2 = a1 + digits2(x.month);
    let b2 = b1 + digits2(y.month);
    lemma_text_before_parts(a1, digits2(x.month), b1, digits2(y.month));
    let a3 = a2 + dash;
    let b3 = b2 + dash;
    lemma_text_before_parts(a2, dash, b2, dash);
    let a4 = a3 + digits2(x.day);
    let b4 = b3 + digits2(y.day);
    lemma_text_before_parts(a3, digits2(x.day), b3, digits2(y.day));
    let a5 = a4 + tee;
    let b5 = b4 + tee;
    lemma_text_before_parts(a4, tee, b4, tee);
    assert(!text_before(tee, tee)) by {
        reveal_with_fuel(text_before, 2);
    }
    let a6 = a5 + digits2(x.hour);
    let b6 = b5 + digits2(y.hour);
    lemma_text_before_parts(a5, digits2(x.hour), b5, digits2(y.hour));
    let a7 = a6 + colon;
    let b7 = b6 + colon;
    lemma_text_before_parts(a6, colon, b6, colon);
    assert(!text_before(colon, colon)) by {
        reveal_with_fuel(text_before, 2);
    }
    let a8 = a7 + digits2(x.minute);
    let b8 = b7 + digits2(y.minute);
    lemma_text_before_parts(a7, digits2(x.minute), b7, digits2(y.minute));
    let a9 = a8 + colon;
    let b9 = b8 + colon;
    lemma_text_before_parts(a8, colon, b8, colon);
    let a10 = a9 + digits2(x.second);
    let b10 = b9 + digits2(y.second);
    lemma_text_before_parts(a9, digits2(x.second), b9, digits2(y.second));
    assert(x.storage_text() == a10);
    assert(y.storage_text() == b10);
    assert((a1 == b1) == (x.year == y.year));
    assert(text_before(a1, b1) == (x.year < y.year));
    assert((a3 == b3) == (x.year == y.year && x.month == y.month));
    assert((a5 == b5) == (x.year == y.year && x.month == y.month && x.day == y.day));
    assert((a7 == b7) == (x.year == y.year && x.month == y.month && x.day == y.day && x.hour
        == y.hour));
    assert((a9 == b9) == (x.year == y.year && x.month == y.month && x.day == y.day && x.hour
        == y.hour && x.minute == y.minute));
}

} // verus!
