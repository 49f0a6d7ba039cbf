//! The text that is logged when the program panics.

use vstd::prelude::*;
use vstd::string::*;

use crate::text;

verus! {

/// Where in the sources something happened, as it is written down.
pub open spec fn location_text(file: Seq<char>, line: u32, column: u32) -> Seq<char> {
    file + ":"@ + text::decimal(line as nat) + ":"@ + text::decimal(column as nat)
}

/// A place is written as the file, the line and the column, with colons between
/// them, the numbers in decimal.
pub proof fn lemma_location_text(file: Seq<char>, line: u32, column: u32)
    ensures
        ({
            let place = location_text(file, line, column);
            let lines = text::decimal(line as nat);
            let columns = text::decimal(column as nat);
            let first = file.len() as int;
            let second = first + 1 + lines.len();
            &&& place.len() == second + 1 + columns.len()
            &&& place.subrange(0, first) == file
            &&& place[first] == ':'
            &&& place.subrange(first + 1, second) == lines
            &&& place[second] == ':'
            &&& place.subrange(second + 1, place.len() as int) == columns
        }),
{
    reveal_strlit(":");
    let place = location_text(file, line, column);
    let lines = text::decimal(line as nat);
    let columns = text::decimal(column as nat);
    let first = file.len() as int;
    let second = first + 1 + lines.len();
    assert(place.subrange(0, first) =~= file);
    assert(place.subrange(first + 1, second) =~= lines);
    assert(place.subrange(second + 1, place.len() as int) =~= columns);
}

/// The report of a panic. Its place is given as file, line and column where it
/// is known, and its message where it is a text.
pub fn panic_report(location: Option<(&str, u32, u32)>, message: Option<&str>) -> (r: String)
    ensures
        r@ == "PANIC occurred at "@ + (match location {
            Some((file, line, column)) => location_text(file@, line, column),
            None => "unknown location"@,
        }) + ": "@ + (match message {
            Some(message) => message@,
            None => "Unknown panic"@,
        }),
{
    let mut r: String = "PANIC occurred at ".to_owned();
    let ghost start = r@;
    match location {
        Some((file, line, column)) => {
            r.append(file);
            r.append(":");
            r.append(text::decimal_text(line as u64).as_str());
            r.append(":");
            r.append(text::decimal_text(column as u64).as_str());
            assert(r@ =~= start + location_text(file@, line, column));
        },
        None => {
            r.append("unknown location");
        },
    }
    r.append(": ");
    match message {
        Some(message) => {
            r.append(message);
        },
        None => {
            r.append("Unknown panic");
        },
    }
    r
}

} // verus!
