//! Scaffolding a new note: turning a title into a file name, resolving the
//! publication date, and rendering the frontmatter template. The date is
//! held as plain calendar fields; chrono supplies only the current moment,
//! and handlebars fills the template.

use vstd::prelude::*;

use chrono::{Datelike, Timelike};

use crate::text::{
    digit_val, is_digit_char, lower_char, lower_char_x, push_char, str_eq,
};

verus! {

/// What can go wrong while creating a note.
#[derive(Debug)]
pub enum NnError {
    FailedToParsePublicationDate { arg: String },
    FailedToCreateNewNote { arg: String },
    FailedToExecEditor { arg: String },
    FailedToRenderFrontmatterTemplate { arg: String },
    FailedToWriteNoteFile { arg: String },
}

impl NnError {
    /// The human-readable message for this failure.
    pub fn message(&self) -> (r: String)
        ensures
            r@ == match *self {
                NnError::FailedToParsePublicationDate { arg } =>
                    "Could to parse publication date because "@ + arg@,
                NnError::FailedToCreateNewNote { arg } => "Could to create new note because "@
                    + arg@,
                NnError::FailedToExecEditor { arg } => "Could not exec editor because "@ + arg@,
                NnError::FailedToRenderFrontmatterTemplate { arg } =>
                    "Could not render frontmatter template because "@ + arg@,
                NnError::FailedToWriteNoteFile { arg } => "Could not write note file because "@
                    + arg@,
            },
    {
        match self {
            NnError::FailedToParsePublicationDate { arg } => String::from_str(
                "Could to parse publication date because ",
            ).concat(arg.as_str()),
            NnError::FailedToCreateNewNote { arg } => String::from_str(
                "Could to create new note because ",
            ).concat(arg.as_str()),
            NnError::FailedToExecEditor { arg } => String::from_str(
                "Could not exec editor because ",
            ).concat(arg.as_str()),
            NnError::FailedToRenderFrontmatterTemplate { arg } => String::from_str(
                "Could not render frontmatter template because ",
            ).concat(arg.as_str()),
            NnError::FailedToWriteNoteFile { arg } => String::from_str(
                "Could not write note file because ",
            ).concat(arg.as_str()),
        }
    }
}

/// Where notes live and which template a new note starts from.
#[derive(Debug, Clone)]
pub struct NewNoteConfig {
    pub notes_directory: String,
    pub notes_template: String,
}

/// The data a note's frontmatter template is filled with.
#[derive(Debug, Clone, PartialEq)]
pub struct FrontMatter {
    pub title: String,
    pub date: String,
}

pub open spec fn is_leap_year(y: int) -> bool {
    (y % 4 == 0 && y % 100 != 0) || y % 400 == 0
}

pub open spec fn days_in_month(y: int, m: int) -> int {
    if m == 1 || m == 3 || m == 5 || m == 7 || m == 8 || m == 10 || m == 12 {
        31
    } else if m == 4 || m == 6 || m == 9 || m == 11 {
        30
    } else if m == 2 {
        if is_leap_year(y) {
            29
        } else {
            28
        }
    } else {
        0
    }
}

/// A publication moment, held as plain calendar fields.
#[derive(Debug, Clone, Copy, PartialEq, Eq, Structural)]
pub struct NoteDate {
    pub year: u16,
    pub month: u8,
    pub day: u8,
    pub hour: u8,
    pub minute: u8,
}

impl NoteDate {
    /// A real calendar date (proleptic Gregorian) with a real time of day;
    /// the year stays within the four digits the ISO rendering writes.
    pub open spec fn valid(self) -> bool {
        &&& self.year <= 9999
        &&& 1 <= self.month <= 12
        &&& 1 <= self.day <= days_in_month(self.year as int, self.month as int)
        &&& self.hour <= 23
        &&& self.minute <= 59
    }
}

impl NoteDate {
    /// Executable check of [`NoteDate::valid`], for callers outside the
    /// verified world.
    pub fn is_valid(&self) -> (r: bool)
        ensures
            r == self.valid(),
    {
        self.year <= 9999 && 1 <= self.month && self.month <= 12 && 1 <= self.day && self.day
            <= days_in_month_x(self.year, self.month) && self.hour <= 23 && self.minute <= 59
    }
}

fn days_in_month_x(y: u16, m: u8) -> (r: u8)
    ensures
        r as int == days_in_month(y as int, m as int),
{
    if m == 1 || m == 3 || m == 5 || m == 7 || m == 8 || m == 10 || m == 12 {
        31
    } else if m == 4 || m == 6 || m == 9 || m == 11 {
        30
    } else if m == 2 {
        if (y % 4 == 0 && y % 100 != 0) || y % 400 == 0 {
            29
        } else {
            28
        }
    } else {
        0
    }
}

/// Relies on chrono's `Local::now` with the `Datelike` and `Timelike`
/// accessors: nothing can be said about which moment comes back, but chrono
/// documents that the accessors describe a real calendar date and time of
/// day (month 1 to 12, a day that exists in that month, hour below 24,
/// minute below 60).
#[verifier::external_body]
fn now_local() -> (r: (i32, u8, u8, u8, u8))
    ensures
        1 <= r.1 <= 12,
        1 <= r.2 <= days_in_month(r.0 as int, r.1 as int),
        r.3 <= 23,
        r.4 <= 59,
{
    let now = chrono::Local::now();
    (now.year(), now.month() as u8, now.day() as u8, now.hour() as u8, now.minute() as u8)
}

/// Does `s` have the exact shape `YYYY-MM-DD HH:MM`, all digits in place?
pub open spec fn date_digits_ok(s: Seq<char>) -> bool {
    &&& s.len() == 16
    &&& is_digit_char(s[0]) && is_digit_char(s[1]) && is_digit_char(s[2]) && is_digit_char(s[3])
    &&& s[4] == '-'
    &&& is_digit_char(s[5]) && is_digit_char(s[6])
    &&& s[7] == '-'
    &&& is_digit_char(s[8]) && is_digit_char(s[9])
    &&& s[10] == ' '
    &&& is_digit_char(s[11]) && is_digit_char(s[12])
    &&& s[13] == ':'
    &&& is_digit_char(s[14]) && is_digit_char(s[15])
}

/// The date a well-shaped `YYYY-MM-DD HH:MM` string denotes.
pub open spec fn date_of(s: Seq<char>) -> NoteDate {
    NoteDate {
        year: (digit_val(s[0]) * 1000 + digit_val(s[1]) * 100 + digit_val(s[2]) * 10 + digit_val(
            s[3],
        )) as u16,
        month: (digit_val(s[5]) * 10 + digit_val(s[6])) as u8,
        day: (digit_val(s[8]) * 10 + digit_val(s[9])) as u8,
        hour: (digit_val(s[11]) * 10 + digit_val(s[12])) as u8,
        minute: (digit_val(s[14]) * 10 + digit_val(s[15])) as u8,
    }
}

/// What a date argument parses to: a string in the exact shape
/// `YYYY-MM-DD HH:MM` denoting a real calendar date and time, or nothing.
pub open spec fn parse_note_date(s: Seq<char>) -> Option<NoteDate> {
    if date_digits_ok(s) && date_of(s).valid() {
        Some(date_of(s))
    } else {
        None
    }
}

fn date_digit(s: &str, i: usize) -> (r: Option<u8>)
    requires
        i < s@.len(),
    ensures
        match r {
            Some(d) => is_digit_char(s@[i as int]) && d as int == digit_val(s@[i as int]) && d < 10,
            None => !is_digit_char(s@[i as int]),
        },
{
    let u = s.get_char(i) as u32;
    if 48 <= u && u <= 57 {
        Some((u - 48) as u8)
    } else {
        None
    }
}

/// Resolve a date argument: the word `now` means the current local time,
/// anything else must be an exact `YYYY-MM-DD HH:MM` date. A returned date is
/// always a real calendar date; any other argument is rejected, as is (for
/// `now`) a clock outside the years 0 to 9999.
pub fn str_date_to_date(date: &str) -> (r: Result<NoteDate, NnError>)
    ensures
        r matches Ok(d) ==> d.valid(),
        r matches Err(e) ==> e is FailedToParsePublicationDate,
        date@ != "now"@ ==> match parse_note_date(date@) {
            Some(d) => r == Ok::<NoteDate, NnError>(d),
            None => r is Err,
        },
{
    proof {
        reveal_strlit("now");
    }
    if str_eq(date, "now") {
        let parts = now_local();
        let y = parts.0;
        if 0 <= y && y <= 9999 {
            Ok(
                NoteDate {
                    year: y as u16,
                    month: parts.1,
                    day: parts.2,
                    hour: parts.3,
                    minute: parts.4,
                },
            )
        } else {
            Err(
                NnError::FailedToParsePublicationDate {
                    arg: String::from_str("current year is out of range"),
                },
            )
        }
    } else {
        let n = date.unicode_len();
        if n != 16 {
            return Err(NnError::FailedToParsePublicationDate { arg: date.to_owned() });
        }
        if !(date.get_char(4) == '-' && date.get_char(7) == '-' && date.get_char(10) == ' '
            && date.get_char(13) == ':') {
            return Err(NnError::FailedToParsePublicationDate { arg: date.to_owned() });
        }
        let (d0, d1, d2, d3) = (
            date_digit(date, 0),
            date_digit(date, 1),
            date_digit(date, 2),
            date_digit(date, 3),
        );
        let (m0, m1) = (date_digit(date, 5), date_digit(date, 6));
        let (a0, a1) = (date_digit(date, 8), date_digit(date, 9));
        let (h0, h1) = (date_digit(date, 11), date_digit(date, 12));
        let (i0, i1) = (date_digit(date, 14), date_digit(date, 15));
        match (d0, d1, d2, d3, m0, m1, a0, a1, h0, h1, i0, i1) {
            (
                Some(d0),
                Some(d1),
                Some(d2),
                Some(d3),
                Some(m0),
                Some(m1),
                Some(a0),
                Some(a1),
                Some(h0),
                Some(h1),
                Some(i0),
                Some(i1),
            ) => {
                let year: u16 = d0 as u16 * 1000 + d1 as u16 * 100 + d2 as u16 * 10 + d3 as u16;
                let month: u8 = m0 * 10 + m1;
                let day: u8 = a0 * 10 + a1;
                let hour: u8 = h0 * 10 + h1;
                let minute: u8 = i0 * 10 + i1;
                let d = NoteDate { year, month, day, hour, minute };
                proof {
                    assert(date_digits_ok(date@));
                    assert(d == date_of(date@));
                }
                if 1 <= month && month <= 12 && 1 <= day && day <= days_in_month_x(year, month)
                    && hour <= 23 && minute <= 59 {
                    Ok(d)
                } else {
                    Err(NnError::FailedToParsePublicationDate { arg: date.to_owned() })
                }
            },
            _ => Err(NnError::FailedToParsePublicationDate { arg: date.to_owned() }),
        }
    }
}

pub open spec fn digit_char(d: int) -> char {
    ((d + 48) as u32) as char
}

pub open spec fn two_digits(v: int) -> Seq<char> {
    seq![digit_char(v / 10), digit_char(v % 10)]
}

pub open spec fn four_digits(v: int) -> Seq<char> {
    seq![
        digit_char(v / 1000),
        digit_char(v / 100 % 10),
        digit_char(v / 10 % 10),
        digit_char(v % 10),
    ]
}

/// The ISO day a date renders to: `YYYY-MM-DD`, zero-padded.
pub open spec fn iso_day(d: NoteDate) -> Seq<char> {
    four_digits(d.year as int) + seq!['-'] + two_digits(d.month as int) + seq!['-'] + two_digits(
        d.day as int,
    )
}

/// The ISO moment a date renders to: `YYYY-MM-DD HH:MM`, zero-padded.
pub open spec fn iso_time(d: NoteDate) -> Seq<char> {
    iso_day(d) + seq![' '] + two_digits(d.hour as int) + seq![':'] + two_digits(d.minute as int)
}

fn digit_char_x(d: u8) -> (c: char)
    requires
        d < 10,
    ensures
        c == digit_char(d as int),
{
    (d + 48) as char
}

/// Render a date as its ISO day, `YYYY-MM-DD`.
pub fn date_to_iso_day(dt: &NoteDate) -> (r: String)
    requires
        dt.valid(),
    ensures
        r@ == iso_day(*dt),
{
    let mut out = String::new();
    push_char(&mut out, digit_char_x((dt.year / 1000) as u8));
    push_char(&mut out, digit_char_x((dt.year / 100 % 10) as u8));
    push_char(&mut out, digit_char_x((dt.year / 10 % 10) as u8));
    push_char(&mut out, digit_char_x((dt.year % 10) as u8));
    push_char(&mut out, '-');
    push_char(&mut out, digit_char_x(dt.month / 10));
    push_char(&mut out, digit_char_x(dt.month % 10));
    push_char(&mut out, '-');
    push_char(&mut out, digit_char_x(dt.day / 10));
    push_char(&mut out, digit_char_x(dt.day % 10));
    proof {
        assert(out@ =~= iso_day(*dt));
    }
    out
}

/// Render a date as its ISO moment, `YYYY-MM-DD HH:MM`.
pub fn date_to_iso_time(dt: &NoteDate) -> (r: String)
    requires
        dt.valid(),
    ensures
        r@ == iso_time(*dt),
{
    let mut out = date_to_iso_day(dt);
    push_char(&mut out, ' ');
    push_char(&mut out, digit_char_x(dt.hour / 10));
    push_char(&mut out, digit_char_x(dt.hour % 10));
    push_char(&mut out, ':');
    push_char(&mut out, digit_char_x(dt.minute / 10));
    push_char(&mut out, digit_char_x(dt.minute % 10));
    proof {
        assert(out@ =~= iso_time(*dt));
    }
    out
}

/// How a title character lands in a file name: spaces become dashes, ASCII
/// capitals become lower case, everything else stays.
pub open spec fn slug_char(c: char) -> char {
    if c == ' ' {
        '-'
    } else {
        lower_char(c)
    }
}

/// The file name for a title: the slugged title with `.md` appended.
pub open spec fn file_name_for_title(title: Seq<char>) -> Seq<char> {
    title.map_values(|c: char| slug_char(c)) + ".md"@
}

/// Turn a title into a markdown file name: lower-cased, spaces dashed,
/// `.md` appended.
pub fn title_to_file_name(title: &str) -> (r: String)
    ensures
        r@ == file_name_for_title(title@),
{
    let n = title.unicode_len();
    let mut out = String::new();
    let mut i: usize = 0;
    while i < n
        invariant
            i <= n,
            n == title@.len(),
            out@ == title@.take(i as int).map_values(|c: char| slug_char(c)),
        decreases n - i,
    {
        let c = title.get_char(i);
        let s = if c == ' ' {
            '-'
        } else {
            lower_char_x(c)
        };
        push_char(&mut out, s);
        proof {
            assert(title@.take(i + 1).map_values(|c: char| slug_char(c)) =~= title@.take(
                i as int,
            ).map_values(|c: char| slug_char(c)).push(slug_char(title@[i as int])));
        }
        i = i + 1;
    }
    proof {
        assert(title@.take(n as int) =~= title@);
    }
    out.concat(".md")
}

/// The text that handlebars renders from a note template and the two
/// frontmatter fields; it depends on those three values alone.
pub uninterp spec fn rendered_note(template: Seq<char>, title: Seq<char>, date: Seq<char>) -> Seq<
    char,
>;

/// Relies on handlebars' `Handlebars::render_template` with a fresh default
/// registry: rendering is a pure function of the template text and the
/// `title` and `date` values handed over, and every failure is reported as a
/// template error.
#[verifier::external_body]
pub fn render_template(template: &str, frontmatter: &FrontMatter) -> (r: Result<String, NnError>)
    ensures
        r matches Ok(s) ==> s@ == rendered_note(template@, frontmatter.title@, frontmatter.date@),
        r matches Err(e) ==> e is FailedToRenderFrontmatterTemplate,
{
    let reg = handlebars::Handlebars::new();
    let mut data = std::collections::BTreeMap::new();
    data.insert("title", frontmatter.title.as_str());
    data.insert("date", frontmatter.date.as_str());
    reg.render_template(template, &data).map_err(
        |e| NnError::FailedToRenderFrontmatterTemplate { arg: e.to_string() },
    )
}

} // verus!
