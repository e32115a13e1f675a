//! The calls into outside crates, taken on trust: markdown conversion,
//! identifier generation, and the clock.

use vstd::prelude::*;

verus! {

/// The HTML that markdown conversion produces for a text. The
/// conversion is a pure function of the input text, so its result
/// carries a name that contracts can speak of.
pub uninterp spec fn html_of(s: Seq<char>) -> Seq<char>;

/// Relies on markdown::to_html_with_options, with GFM options and raw
/// HTML and raw protocols allowed through: the result depends on the
/// input text alone, and its documentation states that conversion can
/// only error when MDX is enabled, which these options never do, so
/// the call always succeeds.
#[verifier::external_body]
pub(crate) fn markdown_to_html(s: &str) -> (r: Option<String>)
    ensures
        r is Some,
        r matches Some(h) ==> h@ == html_of(s@),
{
    let opts = markdown::Options {
        compile: markdown::CompileOptions {
            allow_dangerous_html: true,
            allow_dangerous_protocol: true,
            ..markdown::CompileOptions::default()
        },
        ..markdown::Options::gfm()
    };
    match markdown::to_html_with_options(s, &opts) {
        Ok(h) => Some(h),
        Err(_) => None,
    }
}

/// Relies on uuid::Uuid::new_v4 for a freshly generated random
/// identifier; nothing is promised of the value, and two calls may in
/// principle collide.
#[verifier::external_body]
pub(crate) fn fresh_id() -> u128 {
    uuid::Uuid::new_v4().as_u128()
}

/// Relies on chrono::Utc::now for the current time, rendered by
/// DateTime::to_rfc3339, whose output always holds at least a full
/// date; beyond being nonempty, nothing is promised of the value.
#[verifier::external_body]
pub(crate) fn now_rfc3339() -> (r: String)
    ensures
        r@.len() > 0,
{
    chrono::Utc::now().to_rfc3339()
}

} // verus!
