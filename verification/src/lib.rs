//! Answers one question about a season's fixture list: when does a team play
//! next (or when did it last play)? The list is plain text, one fixture per
//! line, pipe-delimited or CSV.
pub mod calendar;
pub mod date;
pub mod fixture;
pub mod text;

pub use date::Date;
pub use fixture::{
    last_fixture, next_fixture, no_fixture_message, parse_fixtures, team_matches, Fixture,
    ParseError, Status,
};
