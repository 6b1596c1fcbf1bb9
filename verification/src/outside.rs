//! The calls into outside crates. Verus takes the contracts in this file on
//! trust: each item says what it claims of the crate it calls.
use rand::Rng;
use vstd::prelude::*;

verus! {

/// What `ammonia::clean` makes of a text: the HTML fragment sanitized by
/// ammonia's default rules. It depends on the text alone.
pub uninterp spec fn sanitized(text: Seq<char>) -> Seq<char>;

/// Calls `ammonia::clean`. Claimed: the result is `sanitized` of the argument;
/// nothing more is said of what the sanitizer keeps or escapes.
#[verifier::external_body]
pub(crate) fn clean(text: &str) -> (r: String)
    ensures
        r@ == sanitized(text@),
{
    ammonia::clean(text)
}

/// What pulldown-cmark renders of a markdown text, with tables, footnotes,
/// strikethrough and task lists enabled. It depends on the text alone.
pub uninterp spec fn markdown_html(md: Seq<char>) -> Seq<char>;

/// Renders markdown to HTML with `pulldown_cmark::Parser::new_ext` and
/// `pulldown_cmark::html::push_html`, with the four extensions the site uses.
/// Claimed: the result is `markdown_html` of the argument.
#[verifier::external_body]
pub(crate) fn md_to_html(md: &str) -> (r: String)
    ensures
        r@ == markdown_html(md@),
{
    let mut opts = pulldown_cmark::Options::empty();
    opts.insert(pulldown_cmark::Options::ENABLE_TABLES);
    opts.insert(pulldown_cmark::Options::ENABLE_FOOTNOTES);
    opts.insert(pulldown_cmark::Options::ENABLE_STRIKETHROUGH);
    opts.insert(pulldown_cmark::Options::ENABLE_TASKLISTS);
    let parser = pulldown_cmark::Parser::new_ext(md, opts);
    let mut html_md = String::new();
    pulldown_cmark::html::push_html(&mut html_md, parser);
    html_md
}

/// The first second that chrono can turn into a date: the start of year
/// -262143.
pub const FIRST_SECOND: i64 = -8334601228800;

/// The last second that chrono can turn into a date: the end of year 262142.
pub const LAST_SECOND: i64 = 8210266876799;

/// Whether chrono can turn this many seconds since the epoch into a date.
pub open spec fn in_calendar(secs: int) -> bool {
    FIRST_SECOND <= secs <= LAST_SECOND
}

/// The day of the UNIX time `secs`, as chrono writes it with `%Y-%m-%d`.
pub uninterp spec fn day_text(secs: int) -> Seq<char>;

/// Formats the day of a UNIX time with
/// `chrono::NaiveDateTime::from_timestamp(secs, 0).format("%Y-%m-%d")`.
/// `from_timestamp` panics outside the range that `in_calendar` states, so
/// that is required. Claimed: the result is `day_text` of the argument.
#[verifier::external_body]
#[allow(deprecated)]
pub(crate) fn timestamp(secs: i64) -> (r: String)
    requires
        in_calendar(secs as int),
    ensures
        r@ == day_text(secs as int),
{
    let then = chrono::NaiveDateTime::from_timestamp(secs, 0);
    then.format("%Y-%m-%d").to_string()
}

#[verifier::external_type_specification]
#[verifier::external_body]
pub struct ExStdRng(rand::rngs::StdRng);

/// Seeds `rand::rngs::StdRng` from the operating system with
/// `SeedableRng::from_rng(rand::rngs::OsRng)`. Nothing is claimed of the
/// generator; `None` where the operating system gave no seed.
#[verifier::external_body]
pub(crate) fn seeded_rng() -> Option<rand::rngs::StdRng> {
    <rand::rngs::StdRng as rand::SeedableRng>::from_rng(rand::rngs::OsRng).ok()
}

/// One of the 62 ASCII letters and digits, as a byte.
pub open spec fn is_alphanumeric_byte(b: u8) -> bool {
    (0x30 <= b <= 0x39) || (0x41 <= b <= 0x5a) || (0x61 <= b <= 0x7a)
}

/// Draws `rand::distributions::Alphanumeric` from a seeded `StdRng` with
/// `Rng::sample` (a `StdRng` is never reseeded, so the draw does not fail).
/// Claimed: the byte is an ASCII letter or digit (the distribution's
/// charset); which one comes out is chance.
#[verifier::external_body]
pub(crate) fn sample_alphanumeric(rng: &mut rand::rngs::StdRng) -> (b: u8)
    ensures
        is_alphanumeric_byte(b),
{
    rng.sample(rand::distributions::Alphanumeric)
}

} // verus!
