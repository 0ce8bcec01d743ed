//! Fixture lists: reading them from text, and finding a team's next or last
//! fixture.
use vstd::prelude::*;

use crate::date::{
    lemma_date_text_shape, lemma_is_before_is_calendar_order, lemma_parsed_date_valid,
    parse_date_chars, parse_date_result, Date,
};
use crate::text::{
    append_chars, chars_eq_ignore_ascii_case, chars_of, csv_fields, csv_split,
    decimal, decimal_chars, eq_ignore_ascii_case, split_chars, split_on, string_of, trim,
    trim_chars, views_of, lemma_eq_ignore_ascii_case_chars, same_letter_ignoring_case,
};

verus! {

/// Whether a fixture is still to be played as listed.
#[derive(Debug, Clone, Copy, PartialEq, Eq, Structural)]
pub enum Status {
    Scheduled,
    Postponed,
    Cancelled,
}

#[derive(Debug, Clone, PartialEq, Eq)]
pub struct Fixture {
    pub date: Date,
    pub home: String,
    pub away: String,
    pub competition: Option<String>,
    pub status: Status,
}

/// A fixture with its texts taken as character sequences.
pub ghost struct FixtureView {
    pub date: Date,
    pub home: Seq<char>,
    pub away: Seq<char>,
    pub competition: Option<Seq<char>>,
    pub status: Status,
}

impl View for Fixture {
    type V = FixtureView;

    open spec fn view(&self) -> FixtureView {
        FixtureView {
            date: self.date,
            home: self.home@,
            away: self.away@,
            competition: match self.competition {
                Some(c) => Some(c@),
                None => None,
            },
            status: self.status,
        }
    }
}

#[derive(Debug)]
pub struct ParseError {
    pub line: usize,
    pub message: String,
}

/// The one-line description of a fixture: `YYYY-MM-DD Home vs Away`, then
/// ` (Competition)` where there is one.
pub open spec fn summary_text(f: FixtureView) -> Seq<char> {
    f.date.text() + " "@ + f.home + " vs "@ + f.away + match f.competition {
        Some(c) => " ("@ + c + ")"@,
        None => Seq::empty(),
    }
}

/// The report that no fixture was found for `team`, past or upcoming.
pub open spec fn no_fixture_text(past: bool, team: Seq<char>) -> Seq<char> {
    "no "@ + (if past {
        "past"@
    } else {
        "upcoming"@
    }) + " fixture found for "@ + team
}

impl Fixture {
    /// The fixture on one line: `YYYY-MM-DD Home vs Away (Competition)`, the
    /// competition part only where there is one.
    pub fn summary(&self) -> (s: String)
        ensures
            s@ == summary_text(self@),
    {
        let mut v = chars_of(self.date.to_string().as_str());
        append_chars(&mut v, &chars_of(" "));
        append_chars(&mut v, &chars_of(self.home.as_str()));
        append_chars(&mut v, &chars_of(" vs "));
        append_chars(&mut v, &chars_of(self.away.as_str()));
        match &self.competition {
            Some(c) => {
                append_chars(&mut v, &chars_of(" ("));
                append_chars(&mut v, &chars_of(c.as_str()));
                append_chars(&mut v, &chars_of(")"));
            },
            None => {},
        }
        proof {
            assert(v@ =~= summary_text(self@));
        }
        string_of(&v)
    }
}

/// What is reported when `team` has no past (`last`) or upcoming fixture.
pub fn no_fixture_message(last: bool, team: &str) -> (s: String)
    ensures
        s@ == no_fixture_text(last, team@),
{
    let mut v = chars_of("no ");
    if last {
        append_chars(&mut v, &chars_of("past"));
    } else {
        append_chars(&mut v, &chars_of("upcoming"));
    }
    append_chars(&mut v, &chars_of(" fixture found for "));
    append_chars(&mut v, &chars_of(team));
    proof {
        assert(v@ =~= no_fixture_text(last, team@));
    }
    string_of(&v)
}

impl ParseError {
    /// The error as `line N: message`.
    pub fn to_string(&self) -> (s: String)
        ensures
            s@ == "line "@ + decimal(self.line as nat) + ": "@ + self.message@,
    {
        let mut v = chars_of("line ");
        append_chars(&mut v, &decimal_chars(self.line as u64));
        append_chars(&mut v, &chars_of(": "));
        append_chars(&mut v, &chars_of(self.message.as_str()));
        string_of(&v)
    }
}

// ----- reading a fixture list -----

/// The status that a status field names: empty means scheduled; the names
/// are matched without regard to ASCII case.
pub open spec fn status_named(s: Seq<char>) -> Option<Status> {
    if s.len() == 0 || eq_ignore_ascii_case(s, "scheduled"@) {
        Some(Status::Scheduled)
    } else if eq_ignore_ascii_case(s, "postponed"@) || eq_ignore_ascii_case(s, "ppd"@) {
        Some(Status::Postponed)
    } else if eq_ignore_ascii_case(s, "cancelled"@) || eq_ignore_ascii_case(s, "canceled"@) {
        Some(Status::Cancelled)
    } else {
        None
    }
}

/// The trimmed fields of a fixture line: split on `|` where the line holds
/// one, otherwise read as CSV; `None` for CSV with an unclosed quote.
pub open spec fn line_fields(line: Seq<char>) -> Option<Seq<Seq<char>>> {
    if line.contains('|') {
        Some(split_on(line, '|').map_values(|f: Seq<char>| trim(f)))
    } else {
        match csv_fields(line) {
            Some(fields) => Some(fields.map_values(|f: Seq<char>| trim(f))),
            None => None,
        }
    }
}

/// What one fixture line (already trimmed, neither blank nor a comment) gives:
/// `date|home|away[|competition[|status]]` or the same as CSV.
pub open spec fn parse_line(line: Seq<char>) -> Result<FixtureView, Seq<char>> {
    match line_fields(line) {
        None => Err("unterminated quoted field"@),
        Some(fields) => if fields.len() < 3 || fields.len() > 5 {
            Err("expected 3 to 5 fields, got "@ + decimal(fields.len()))
        } else {
            match parse_date_result(fields[0]) {
                Err(message) => Err(message),
                Ok(date) => if fields[1].len() == 0 || fields[2].len() == 0 {
                    Err("team name cannot be empty"@)
                } else {
                    let status = if fields.len() == 5 {
                        status_named(fields[4])
                    } else {
                        Some(Status::Scheduled)
                    };
                    match status {
                        None => Err("unknown status '"@ + fields[4] + "'"@),
                        Some(status) => Ok(
                            FixtureView {
                                date,
                                home: fields[1],
                                away: fields[2],
                                competition: if fields.len() >= 4 && fields[3].len() > 0 {
                                    Some(fields[3])
                                } else {
                                    None
                                },
                                status,
                            },
                        ),
                    }
                },
            }
        },
    }
}

/// A trimmed line that holds no fixture: blank, or a comment.
pub open spec fn is_skipped(line: Seq<char>) -> bool {
    line.len() == 0 || line[0] == '#'
}

/// What the lines give, in order: the fixtures, or the first error with its
/// 1-based line number.
pub open spec fn parse_lines(lines: Seq<Seq<char>>) -> Result<Seq<FixtureView>, (int, Seq<char>)>
    decreases lines.len(),
{
    if lines.len() == 0 {
        Ok(Seq::empty())
    } else {
        match parse_lines(lines.drop_last()) {
            Err(e) => Err(e),
            Ok(fixtures) => {
                let line = trim(lines.last());
                if is_skipped(line) {
                    Ok(fixtures)
                } else {
                    match parse_line(line) {
                        Ok(f) => Ok(fixtures.push(f)),
                        Err(message) => Err((lines.len() as int, message)),
                    }
                }
            },
        }
    }
}

/// What `parse_fixtures` gives for the text `input`, read line by line. Lines
/// end at `\n`; a `\r` before it is white space and trimmed away, and the
/// empty piece after a final `\n` is a blank line, so the lines and their
/// numbers are those of `str::lines`.
pub open spec fn parse_fixtures_result(input: Seq<char>) -> Result<
    Seq<FixtureView>,
    (int, Seq<char>),
> {
    parse_lines(split_on(input, '\n'))
}

pub open spec fn fixture_views(fixtures: Seq<Fixture>) -> Seq<FixtureView> {
    fixtures.map_values(|f: Fixture| f@)
}

/// Once an error is found, later lines do not change the outcome.
proof fn lemma_parse_lines_error_stays(lines: Seq<Seq<char>>, k: int)
    requires
        0 <= k <= lines.len(),
        parse_lines(lines.take(k)) is Err,
    ensures
        parse_lines(lines) == parse_lines(lines.take(k)),
    decreases lines.len(),
{
    if k < lines.len() {
        assert(lines.drop_last().take(k) =~= lines.take(k));
        lemma_parse_lines_error_stays(lines.drop_last(), k);
    } else {
        assert(lines.take(k) =~= lines);
    }
}

fn status_of(field: &Vec<char>) -> (r: Option<Status>)
    ensures
        r == status_named(field@),
{
    if field.len() == 0 || chars_eq_ignore_ascii_case(field, &chars_of("scheduled")) {
        Some(Status::Scheduled)
    } else if chars_eq_ignore_ascii_case(field, &chars_of("postponed"))
        || chars_eq_ignore_ascii_case(field, &chars_of("ppd")) {
        Some(Status::Postponed)
    } else if chars_eq_ignore_ascii_case(field, &chars_of("cancelled"))
        || chars_eq_ignore_ascii_case(field, &chars_of("canceled")) {
        Some(Status::Cancelled)
    } else {
        None
    }
}

fn contains_char(s: &Vec<char>, c: char) -> (r: bool)
    ensures
        r == s@.contains(c),
{
    let mut i: usize = 0;
    while i < s.len()
        invariant
            0 <= i <= s.len(),
            forall|k: int| 0 <= k < i ==> s@[k] != c,
        decreases s.len() - i,
    {
        if s[i] == c {
            return true;
        }
        i += 1;
    }
    false
}

fn trim_all(fields: &Vec<Vec<char>>) -> (r: Vec<Vec<char>>)
    ensures
        views_of(r@) == views_of(fields@).map_values(|f: Seq<char>| trim(f)),
{
    let mut r: Vec<Vec<char>> = Vec::new();
    let mut i: usize = 0;
    while i < fields.len()
        invariant
            0 <= i <= fields.len(),
            views_of(r@) == views_of(fields@).take(i as int).map_values(|f: Seq<char>| trim(f)),
        decreases fields.len() - i,
    {
        let ghost before = r@;
        r.push(trim_chars(&fields[i]));
        proof {
            assert(views_of(r@) =~= views_of(before).push(trim(fields@[i as int]@)));
            assert(views_of(fields@).take(i + 1) =~= views_of(fields@).take(i as int).push(
                fields@[i as int]@,
            ));
            assert(views_of(r@) =~= views_of(fields@).take(i + 1).map_values(
                |f: Seq<char>| trim(f),
            ));
        }
        i += 1;
    }
    proof {
        assert(views_of(fields@).take(fields@.len() as int) =~= views_of(fields@));
    }
    r
}

fn fields_of_line(line: &Vec<char>) -> (r: Option<Vec<Vec<char>>>)
    ensures
        match r {
            Some(fields) => line_fields(line@) == Some(views_of(fields@)),
            None => line_fields(line@) is None,
        },
{
    if contains_char(line, '|') {
        Some(trim_all(&split_chars(line, '|')))
    } else {
        match csv_split(line) {
            Some(fields) => Some(trim_all(&fields)),
            None => None,
        }
    }
}

fn message_with_text(prefix: &str, text: &Vec<char>, suffix: &str) -> (r: String)
    ensures
        r@ == prefix@ + text@ + suffix@,
{
    let mut msg = chars_of(prefix);
    append_chars(&mut msg, text);
    append_chars(&mut msg, &chars_of(suffix));
    string_of(&msg)
}

/// Reads one trimmed fixture line that is neither blank nor a comment.
fn parse_line_chars(line: &Vec<char>) -> (r: Result<Fixture, String>)
    ensures
        match r {
            Ok(f) => parse_line(line@) == Ok::<FixtureView, Seq<char>>(f@),
            Err(message) => parse_line(line@) == Err::<FixtureView, Seq<char>>(message@),
        },
{
    let fields = match fields_of_line(line) {
        Some(fields) => fields,
        None => {
            return Err(string_of(&chars_of("unterminated quoted field")));
        },
    };
    let n = fields.len();
    if n < 3 || n > 5 {
        let mut msg = chars_of("expected 3 to 5 fields, got ");
        append_chars(&mut msg, &decimal_chars(n as u64));
        return Err(string_of(&msg));
    }
    proof {
        assert(forall|k: int| 0 <= k < n ==> views_of(fields@)[k] == #[trigger] fields@[k]@);
    }
    let date = match parse_date_chars(&fields[0]) {
        Ok(d) => d,
        Err(message) => {
            return Err(message);
        },
    };
    if fields[1].len() == 0 || fields[2].len() == 0 {
        return Err(string_of(&chars_of("team name cannot be empty")));
    }
    let status = if n == 5 {
        match status_of(&fields[4]) {
            Some(s) => s,
            None => {
                return Err(message_with_text("unknown status '", &fields[4], "'"));
            },
        }
    } else {
        Status::Scheduled
    };
    let competition = if n >= 4 && fields[3].len() > 0 {
        Some(string_of(&fields[3]))
    } else {
        None
    };
    let f = Fixture {
        date,
        home: string_of(&fields[1]),
        away: string_of(&fields[2]),
        competition,
        status,
    };
    proof {
        assert(f@.competition == (if n >= 4 && fields@[3]@.len() > 0 {
            Some(fields@[3]@)
        } else {
            None::<Seq<char>>
        }));
    }
    Ok(f)
}

/// Parses a fixture list: one fixture per line, pipe-delimited where the line
/// holds a `|`, CSV otherwise:
///
///   YYYY-MM-DD|Home Team|Away Team[|Competition[|Status]]
///
/// Blank lines and lines starting with '#' are ignored. Whitespace around
/// each field is trimmed. An empty competition field means none; the status
/// is `scheduled` (the default, also when empty), `postponed` (`ppd`) or
/// `cancelled` (`canceled`), in any ASCII case. In CSV a double-quoted
/// section may hold commas; every double quote is dropped (a doubled `""`
/// gives no quote character), and a quote left open at the end of the line
/// is the error "unterminated quoted field".
pub fn parse_fixtures(input: &str) -> (r: Result<Vec<Fixture>, ParseError>)
    ensures
        match r {
            Ok(fixtures) => parse_fixtures_result(input@) == Ok::<
                Seq<FixtureView>,
                (int, Seq<char>),
            >(fixture_views(fixtures@)),
            Err(e) => parse_fixtures_result(input@) == Err::<Seq<FixtureView>, (int, Seq<char>)>(
                (e.line as int, e.message@),
            ),
        },
{
    let text = chars_of(input);
    let lines = split_chars(&text, '\n');
    let mut fixtures: Vec<Fixture> = Vec::new();
    let n = lines.len();
    let mut i: usize = 0;
    proof {
        assert(views_of(lines@).take(0) =~= Seq::<Seq<char>>::empty());
        assert(fixture_views(fixtures@) =~= Seq::<FixtureView>::empty());
    }
    while i < n
        invariant
            n == lines.len(),
            0 <= i <= n,
            text@ == input@,
            views_of(lines@) == split_on(text@, '\n'),
            parse_lines(views_of(lines@).take(i as int)) == Ok::<
                Seq<FixtureView>,
                (int, Seq<char>),
            >(fixture_views(fixtures@)),
        decreases n - i,
    {
        proof {
            assert(views_of(lines@).take(i + 1).drop_last() =~= views_of(lines@).take(i as int));
            assert(views_of(lines@).take(i + 1).last() == lines@[i as int]@);
        }
        let line = trim_chars(&lines[i]);
        if line.len() == 0 || line[0] == '#' {
            i += 1;
        } else {
            match parse_line_chars(&line) {
                Ok(f) => {
                    let ghost before = fixtures@;
                    fixtures.push(f);
                    proof {
                        assert(fixture_views(fixtures@) =~= fixture_views(before).push(f@));
                    }
                    i += 1;
                },
                Err(message) => {
                    proof {
                        let prefix = views_of(lines@).take(i + 1);
                        assert(prefix.len() == i + 1);
                        assert(!is_skipped(trim(prefix.last())));
                        assert(parse_lines(prefix) == Err::<Seq<FixtureView>, (int, Seq<char>)>(
                            ((i + 1) as int, message@),
                        ));
                        lemma_parse_lines_error_stays(views_of(lines@), i + 1);
                    }
                    return Err(ParseError { line: i + 1, message });
                },
            }
        }
    }
    proof {
        assert(views_of(lines@).take(n as int) =~= views_of(lines@));
    }
    Ok(fixtures)
}

// ----- finding fixtures -----

/// The fixture lists `team` as home or away side, compared in full without
/// regard to ASCII case.
pub open spec fn plays_in(f: FixtureView, team: Seq<char>) -> bool {
    eq_ignore_ascii_case(f.home, team) || eq_ignore_ascii_case(f.away, team)
}

/// `f` counts for `next_fixture`: still scheduled, for the trimmed `team`,
/// dated `on_or_after` or later.
pub open spec fn counts_as_next(f: FixtureView, team: Seq<char>, on_or_after: Date) -> bool {
    &&& f.status == Status::Scheduled
    &&& plays_in(f, trim(team))
    &&& !f.date.is_before(on_or_after)
}

/// `f` counts for `last_fixture`: still scheduled, for the trimmed `team`,
/// dated strictly before `before`.
pub open spec fn counts_as_last(f: FixtureView, team: Seq<char>, before: Date) -> bool {
    &&& f.status == Status::Scheduled
    &&& plays_in(f, trim(team))
    &&& f.date.is_before(before)
}

/// Index `i` holds the earliest fixture that counts for `next_fixture`; of
/// fixtures on that same date, the one listed first.
pub open spec fn is_next_choice(fs: Seq<FixtureView>, team: Seq<char>, on_or_after: Date, i: int) -> bool {
    &&& 0 <= i < fs.len()
    &&& counts_as_next(fs[i], team, on_or_after)
    &&& forall|j: int|
        0 <= j < fs.len() && #[trigger] counts_as_next(fs[j], team, on_or_after) ==> {
            &&& !fs[j].date.is_before(fs[i].date)
            &&& fs[j].date == fs[i].date ==> i <= j
        }
}

/// Index `i` holds the latest fixture that counts for `last_fixture`; of
/// fixtures on that same date, the one listed first.
pub open spec fn is_last_choice(fs: Seq<FixtureView>, team: Seq<char>, before: Date, i: int) -> bool {
    &&& 0 <= i < fs.len()
    &&& counts_as_last(fs[i], team, before)
    &&& forall|j: int|
        0 <= j < fs.len() && #[trigger] counts_as_last(fs[j], team, before) ==> {
            &&& !fs[i].date.is_before(fs[j].date)
            &&& fs[j].date == fs[i].date ==> i <= j
        }
}

fn date_is_before(a: &Date, b: &Date) -> (r: bool)
    ensures
        r == a.is_before(*b),
{
    a.year < b.year || (a.year == b.year && a.month < b.month) || (a.year == b.year && a.month
        == b.month && a.day < b.day)
}

fn plays_in_chars(fixture: &Fixture, team: &Vec<char>) -> (r: bool)
    ensures
        r == plays_in(fixture@, team@),
{
    chars_eq_ignore_ascii_case(&chars_of(fixture.home.as_str()), team)
        || chars_eq_ignore_ascii_case(&chars_of(fixture.away.as_str()), team)
}

/// The fixture lists `team` as home or away side: the whole name, compared
/// without regard to ASCII case.
pub fn team_matches(fixture: &Fixture, team: &str) -> (r: bool)
    ensures
        r == plays_in(fixture@, team@),
{
    plays_in_chars(fixture, &chars_of(team))
}

/// Finds the earliest fixture involving `team` on or after `on_or_after`.
///
/// Team names are matched case-insensitively but must match in full, so
/// "Arsenal" never matches a fixture listing "Arsenal U21". When two
/// qualifying fixtures share the same date, the one appearing first in
/// `fixtures` is returned. Postponed and cancelled fixtures are skipped.
pub fn next_fixture<'a>(fixtures: &'a [Fixture], team: &str, on_or_after: Date) -> (r: Option<
    &'a Fixture,
>)
    ensures
        match r {
            Some(f) => exists|i: int|
                is_next_choice(fixture_views(fixtures@), team@, on_or_after, i) && *f
                    == #[trigger] fixtures@[i],
            None => forall|j: int|
                0 <= j < fixtures@.len() ==> !counts_as_next(
                    #[trigger] fixture_views(fixtures@)[j],
                    team@,
                    on_or_after,
                ),
        },
{
    let wanted = trim_chars(&chars_of(team));
    let ghost fs = fixture_views(fixtures@);
    let mut best: Option<usize> = None;
    let n = fixtures.len();
    let mut i: usize = 0;
    while i < n
        invariant
            n == fixtures@.len(),
            fs == fixture_views(fixtures@),
            0 <= i <= n,
            wanted@ == trim(team@),
            match best {
                None => forall|j: int| 0 <= j < i ==> !counts_as_next(#[trigger] fs[j], team@, on_or_after),
                Some(b) => {
                    &&& b < i
                    &&& counts_as_next(fs[b as int], team@, on_or_after)
                    &&& forall|j: int|
                        0 <= j < i && #[trigger] counts_as_next(fs[j], team@, on_or_after) ==> {
                            &&& !fs[j].date.is_before(fs[b as int].date)
                            &&& fs[j].date == fs[b as int].date ==> b <= j
                        }
                },
            },
        decreases n - i,
    {
        let f = &fixtures[i];
        proof {
            assert(fs[i as int] == f@);
        }
        if f.status == Status::Scheduled && !date_is_before(&f.date, &on_or_after)
            && plays_in_chars(f, &wanted) {
            match best {
                None => {
                    best = Some(i);
                },
                Some(b) => {
                    if date_is_before(&f.date, &fixtures[b].date) {
                        best = Some(i);
                    }
                },
            }
        }
        i += 1;
    }
    match best {
        None => None,
        Some(b) => Some(&fixtures[b]),
    }
}

/// Finds the most recent fixture involving `team` strictly before `before`.
///
/// A fixture dated `before` itself is not considered past yet (it has not
/// necessarily kicked off), so the comparison is exclusive on that end;
/// this is the mirror image of `next_fixture`'s inclusive lower bound. Ties
/// on the same date are broken the same way as `next_fixture`: the fixture
/// appearing first in `fixtures` wins. Postponed and cancelled fixtures are
/// skipped.
pub fn last_fixture<'a>(fixtures: &'a [Fixture], team: &str, before: Date) -> (r: Option<
    &'a Fixture,
>)
    ensures
        match r {
            Some(f) => exists|i: int|
                is_last_choice(fixture_views(fixtures@), team@, before, i) && *f
                    == #[trigger] fixtures@[i],
            None => forall|j: int|
                0 <= j < fixtures@.len() ==> !counts_as_last(
                    #[trigger] fixture_views(fixtures@)[j],
                    team@,
                    before,
                ),
        },
{
    let wanted = trim_chars(&chars_of(team));
    let ghost fs = fixture_views(fixtures@);
    let mut best: Option<usize> = None;
    let n = fixtures.len();
    let mut i: usize = 0;
    while i < n
        invariant
            n == fixtures@.len(),
            fs == fixture_views(fixtures@),
            0 <= i <= n,
            wanted@ == trim(team@),
            match best {
                None => forall|j: int| 0 <= j < i ==> !counts_as_last(#[trigger] fs[j], team@, before),
                Some(b) => {
                    &&& b < i
                    &&& counts_as_last(fs[b as int], team@, before)
                    &&& forall|j: int|
                        0 <= j < i && #[trigger] counts_as_last(fs[j], team@, before) ==> {
                            &&& !fs[b as int].date.is_before(fs[j].date)
                            &&& fs[j].date == fs[b as int].date ==> b <= j
                        }
                },
            },
        decreases n - i,
    {
        let f = &fixtures[i];
        proof {
            assert(fs[i as int] == f@);
        }
        if f.status == Status::Scheduled && date_is_before(&f.date, &before)
            && plays_in_chars(f, &wanted) {
            match best {
                None => {
                    best = Some(i);
                },
                Some(b) => {
                    if date_is_before(&fixtures[b].date, &f.date) {
                        best = Some(i);
                    }
                },
            }
        }
        i += 1;
    }
    match best {
        None => None,
        Some(b) => Some(&fixtures[b]),
    }
}

// ----- laws -----

/// A fixture read from a list names a real date and two non-empty teams.
pub open spec fn is_well_formed(f: FixtureView) -> bool {
    f.date.wf() && f.home.len() > 0 && f.away.len() > 0
}

/// Every fixture that `parse_fixtures` returns names a real date and two
/// non-empty team names.
pub proof fn lemma_parsed_fixtures_well_formed(lines: Seq<Seq<char>>)
    ensures
        parse_lines(lines) matches Ok(fs) ==> forall|i: int|
            0 <= i < fs.len() ==> is_well_formed(#[trigger] fs[i]),
    decreases lines.len(),
{
    if lines.len() > 0 {
        lemma_parsed_fixtures_well_formed(lines.drop_last());
        let line = trim(lines.last());
        match line_fields(line) {
            Some(fields) => {
                if fields.len() >= 3 {
                    lemma_parsed_date_valid(fields[0]);
                }
            },
            None => {},
        }
    }
}

/// At most one fixture is the next one: the contract of `next_fixture`
/// determines its answer.
pub proof fn lemma_next_choice_unique(
    fs: Seq<FixtureView>,
    team: Seq<char>,
    on_or_after: Date,
    i: int,
    j: int,
)
    requires
        is_next_choice(fs, team, on_or_after, i),
        is_next_choice(fs, team, on_or_after, j),
    ensures
        i == j,
{
    assert(counts_as_next(fs[i], team, on_or_after));
    assert(counts_as_next(fs[j], team, on_or_after));
}

/// At most one fixture is the last one: the contract of `last_fixture`
/// determines its answer.
pub proof fn lemma_last_choice_unique(
    fs: Seq<FixtureView>,
    team: Seq<char>,
    before: Date,
    i: int,
    j: int,
)
    requires
        is_last_choice(fs, team, before, i),
        is_last_choice(fs, team, before, j),
    ensures
        i == j,
{
    assert(counts_as_last(fs[i], team, before));
    assert(counts_as_last(fs[j], team, before));
}

/// Asked about the same date, the last fixture lies strictly before the next
/// one: a fixture on the reference date itself is upcoming, never past.
pub proof fn lemma_last_before_next(
    fs: Seq<FixtureView>,
    team: Seq<char>,
    date: Date,
    i: int,
    j: int,
)
    requires
        is_last_choice(fs, team, date, i),
        is_next_choice(fs, team, date, j),
    ensures
        fs[i].date.is_before(fs[j].date),
{
}

/// The team asked for is matched in full, ignoring surrounding white space
/// and ASCII case: two queries that agree up to those count the same fixtures.
pub proof fn lemma_team_query_normalized(f: FixtureView, t1: Seq<char>, t2: Seq<char>, date: Date)
    requires
        eq_ignore_ascii_case(trim(t1), trim(t2)),
    ensures
        counts_as_next(f, t1, date) == counts_as_next(f, t2, date),
        counts_as_last(f, t1, date) == counts_as_last(f, t2, date),
{
}


/// A line that is empty or starts with `#` once its surrounding white space
/// is trimmed adds nothing: appending it to any lines leaves the outcome as it
/// was (so a CRLF file's blank `\r` line or an indented comment is skipped).
pub proof fn lemma_blank_and_comment_lines_add_nothing(lines: Seq<Seq<char>>, l: Seq<char>)
    requires
        trim(l).len() == 0 || trim(l)[0] == '#',
    ensures
        parse_lines(lines.push(l)) == parse_lines(lines),
{
    assert(lines.push(l).drop_last() =~= lines);
}

/// A line that holds a fixture appends that fixture after those of the lines
/// before it, and a line that holds an error makes that error, with the new
/// line's 1-based number, the outcome.
pub proof fn lemma_fixture_line_appends(lines: Seq<Seq<char>>, l: Seq<char>)
    requires
        parse_lines(lines) is Ok,
        !(trim(l).len() == 0 || trim(l)[0] == '#'),
    ensures
        parse_line(trim(l)) matches Ok(f) ==> parse_lines(lines.push(l)) == Ok::<
            Seq<FixtureView>,
            (int, Seq<char>),
        >(parse_lines(lines)->Ok_0.push(f)),
        parse_line(trim(l)) matches Err(m) ==> parse_lines(lines.push(l)) == Err::<
            Seq<FixtureView>,
            (int, Seq<char>),
        >(((lines.len() + 1) as int, m)),
{
    assert(lines.push(l).drop_last() =~= lines);
}

/// The fixtures that count for `next_fixture` and `last_fixture`, in terms of
/// calendar days: a scheduled fixture of the (trimmed) team counts as past
/// exactly when its date has a smaller day number than the reference date,
/// and as upcoming exactly when it does not.
pub proof fn lemma_counts_by_day_number(f: FixtureView, team: Seq<char>, date: Date)
    requires
        f.date.wf(),
        date.wf(),
    ensures
        counts_as_last(f, team, date) <==> (f.status == Status::Scheduled && plays_in(f, trim(team))
            && f.date.day_number() < date.day_number()),
        counts_as_next(f, team, date) <==> (f.status == Status::Scheduled && plays_in(f, trim(team))
            && f.date.day_number() >= date.day_number()),
{
    lemma_is_before_is_calendar_order(f.date, date);
}

/// A fixture that is past for one reference date stays past for every later
/// one, and one that is upcoming stays upcoming for every earlier one.
pub proof fn lemma_counting_is_monotone(f: FixtureView, team: Seq<char>, d1: Date, d2: Date)
    requires
        f.date.wf(),
        d1.wf(),
        d2.wf(),
        d1.day_number() <= d2.day_number(),
    ensures
        counts_as_last(f, team, d1) ==> counts_as_last(f, team, d2),
        counts_as_next(f, team, d2) ==> counts_as_next(f, team, d1),
{
    lemma_counts_by_day_number(f, team, d1);
    lemma_counts_by_day_number(f, team, d2);
}

/// A fixture is the team's exactly when its home or away name has the team's
/// length and, character by character, agrees with it up to the case of
/// ASCII letters.
pub proof fn lemma_plays_in_by_characters(f: FixtureView, team: Seq<char>)
    ensures
        plays_in(f, team) <==> ((f.home.len() == team.len() && forall|i: int|
            0 <= i < team.len() ==> same_letter_ignoring_case(#[trigger] f.home[i], team[i])) || (
        f.away.len() == team.len() && forall|i: int|
            0 <= i < team.len() ==> same_letter_ignoring_case(#[trigger] f.away[i], team[i]))),
{
    lemma_eq_ignore_ascii_case_chars(f.home, team);
    lemma_eq_ignore_ascii_case_chars(f.away, team);
}

/// The summary line starts with the fixture date's own text (what
/// `Date::to_string` writes), then a space and the home team's name; for
/// years 0 to 9999 that is `YYYY-MM-DD`, month and day in exactly two digits.
pub proof fn lemma_summary_starts_with_date(f: FixtureView)
    ensures
        summary_text(f).take(f.date.text().len() as int) == f.date.text(),
        summary_text(f)[f.date.text().len() as int] == ' ',
        summary_text(f).subrange(
            f.date.text().len() + 1int,
            f.date.text().len() + 1int + f.home.len(),
        ) == f.home,
        f.date.wf() && 0 <= f.date.year <= 9999 ==> summary_text(f).take(10) == f.date.text()
            && f.date.text().len() == 10,
{
    let t = f.date.text();
    let rest = " "@ + f.home + " vs "@ + f.away + match f.competition {
        Some(c) => " ("@ + c + ")"@,
        None => Seq::empty(),
    };
    assert(summary_text(f) =~= t + rest);
    reveal_strlit(" ");
    assert(summary_text(f).take(t.len() as int) =~= t);
    assert(summary_text(f)[t.len() as int] == rest[0]);
    assert(summary_text(f).subrange(t.len() + 1int, t.len() + 1int + f.home.len()) =~= f.home);
    if f.date.wf() && 0 <= f.date.year <= 9999 {
        lemma_date_text_shape(f.date);
    }
}
} // verus!
