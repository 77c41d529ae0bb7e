//! Parser for the Axon-literal rendering of a parsed program's abstract
//! syntax tree: a JSON-like notation extended with unit-suffixed numbers,
//! dates, times, year-months, refs, symbols, URIs and two dictionary
//! marker literals.

pub mod ast;
pub mod grammar;
pub mod num;
pub mod scalars;
pub mod util;

pub use ast::{Date, Lit, Month, Time, Val, YearMonth};
pub use grammar::{
    parse, parse_date, parse_num, parse_ref, parse_str, parse_symbol, parse_tag_name, parse_time,
    parse_uri, parse_year_month, ErrorKind, ParseError,
};
pub use num::{normalize_unit, str_to_number};
