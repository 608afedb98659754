//! The line that is logged when the process panics.
use vstd::prelude::*;
use vstd::string::*;
use crate::text::copy_str;

verus! {

/// Where a crash is reported.
pub const REPORT_URL: &'static str = "https://github.com/ELares/IronCache/issues";

/// The message of a panic: its text where the payload is one.
pub fn payload_message(text: Option<&str>) -> (r: String)
    ensures
        r@ == (match text {
            Some(s) => s@,
            None => "<non-string panic payload>"@,
        }),
{
    match text {
        Some(s) => copy_str(s),
        None => "<non-string panic payload>".to_owned(),
    }
}

/// The line for a panic.
pub open spec fn summary_text(message: Seq<char>, location: Option<&str>, version: Seq<char>) -> Seq<
    char,
> {
    "ironcache PANICKED and is aborting: "@ + message + " (at "@ + (match location {
        Some(l) => l@,
        None => "an unknown location"@,
    }) + "; build "@ + version + "). Please report this crash at "@ + REPORT_URL@
}

/// Builds the line for a panic: what happened, where, in which build, and where to
/// report it.
pub fn panic_summary(message: &str, location: Option<&str>, version: &str) -> (r: String)
    ensures
        r@ == summary_text(message@, location, version@),
{
    let mut r: String = "ironcache PANICKED and is aborting: ".to_owned();
    r.append(message);
    r.append(" (at ");
    match location {
        Some(l) => {
            r.append(l);
        },
        None => {
            r.append("an unknown location");
        },
    }
    r.append("; build ");
    r.append(version);
    r.append("). Please report this crash at ");
    r.append(REPORT_URL);
    r
}

/// The text of a location in the source.
pub open spec fn location_text(file: Seq<char>, line: u32, column: u32) -> Seq<char> {
    file + ":"@ + crate::text::decimal(line as nat) + ":"@ + crate::text::decimal(column as nat)
}

/// Writes down a location in the source.
pub fn location_line(file: &str, line: u32, column: u32) -> (r: String)
    ensures
        r@ == location_text(file@, line, column),
{
    let mut r: String = copy_str(file);
    r.append(":");
    crate::text::append_decimal(&mut r, line as u64);
    r.append(":");
    crate::text::append_decimal(&mut r, column as u64);
    r
}

} // verus!
