//! Timestamp normalization for the program guide: XMLTV stamps are turned
//! into UTC RFC 3339 text through a waterfall of three formats, and a stamp
//! no format accepts passes through unchanged (kept deliberately, since
//! downstream rows store the text as given).

use vstd::prelude::*;

use crate::model::opt_str_view;

verus! {

/// What the spaced-offset parse yields for a stamp: the UTC RFC 3339
/// rendering when the stamp reads as `yyyyMMddHHmmss +ZZzz`, else nothing.
pub uninterp spec fn iso_from_spaced(s: Seq<char>) -> Option<Seq<char>>;

/// What the compact-offset parse yields: the UTC RFC 3339 rendering when
/// the stamp reads as `yyyyMMddHHmmss+ZZzz`, else nothing.
pub uninterp spec fn iso_from_compact(s: Seq<char>) -> Option<Seq<char>>;

/// What the naive parse yields: the RFC 3339 rendering, taken as already
/// UTC, when the stamp reads as bare `yyyyMMddHHmmss`, else nothing.
pub uninterp spec fn iso_from_naive(s: Seq<char>) -> Option<Seq<char>>;

/// Relies on chrono's `DateTime::parse_from_str` with format
/// `"%Y%m%d%H%M%S %z"`, `DateTime::with_timezone` into `Utc`, and
/// `DateTime::to_rfc3339`; the result depends on the stamp text alone.
#[verifier::external_body]
fn parse_spaced(s: &str) -> (r: Option<String>)
    ensures
        opt_str_view(r) == iso_from_spaced(s@),
{
    chrono::DateTime::parse_from_str(s, "%Y%m%d%H%M%S %z").ok().map(
        |dt| dt.with_timezone(&chrono::Utc).to_rfc3339(),
    )
}

/// Relies on chrono's `DateTime::parse_from_str` with format
/// `"%Y%m%d%H%M%S%z"`, `DateTime::with_timezone` into `Utc`, and
/// `DateTime::to_rfc3339`; the result depends on the stamp text alone.
#[verifier::external_body]
fn parse_compact(s: &str) -> (r: Option<String>)
    ensures
        opt_str_view(r) == iso_from_compact(s@),
{
    chrono::DateTime::parse_from_str(s, "%Y%m%d%H%M%S%z").ok().map(
        |dt| dt.with_timezone(&chrono::Utc).to_rfc3339(),
    )
}

/// Relies on chrono's `NaiveDateTime::parse_from_str` with format
/// `"%Y%m%d%H%M%S"`, `NaiveDateTime::and_utc`, and `DateTime::to_rfc3339`;
/// the result depends on the stamp text alone.
#[verifier::external_body]
fn parse_naive(s: &str) -> (r: Option<String>)
    ensures
        opt_str_view(r) == iso_from_naive(s@),
{
    chrono::NaiveDateTime::parse_from_str(s, "%Y%m%d%H%M%S").ok().map(
        |dt| dt.and_utc().to_rfc3339(),
    )
}

/// The normalized form of an XMLTV stamp: the first format of the
/// waterfall that accepts it decides, and a stamp no format accepts is
/// passed through unchanged.
pub open spec fn convert_to_iso_spec(s: Seq<char>) -> Seq<char> {
    match iso_from_spaced(s) {
        Some(r) => r,
        None => match iso_from_compact(s) {
            Some(r) => r,
            None => match iso_from_naive(s) {
                Some(r) => r,
                None => s,
            },
        },
    }
}

/// Normalizes one XMLTV stamp to UTC RFC 3339 text, as
/// `convert_to_iso_spec` says.
pub fn convert_to_iso(s: &str) -> (r: String)
    ensures
        r@ == convert_to_iso_spec(s@),
{
    match parse_spaced(s) {
        Some(x) => x,
        None => match parse_compact(s) {
            Some(x) => x,
            None => match parse_naive(s) {
                Some(x) => x,
                None => s.to_owned(),
            },
        },
    }
}

} // verus!
