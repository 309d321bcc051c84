//! The text lines of a scan report.
use vstd::prelude::*;
use vstd::string::StringExecFns;
use crate::index::{selected, DuplicateIndex, FileEntry};

verus! {

/// The decimal digit character for `d < 10`.
pub open spec fn digit_char(d: nat) -> char {
    if d == 0 { '0' }
    else if d == 1 { '1' }
    else if d == 2 { '2' }
    else if d == 3 { '3' }
    else if d == 4 { '4' }
    else if d == 5 { '5' }
    else if d == 6 { '6' }
    else if d == 7 { '7' }
    else if d == 8 { '8' }
    else { '9' }
}

/// The decimal rendering of `n`, without leading zeros.
pub open spec fn decimal_text(n: nat) -> Seq<char>
    decreases n,
{
    if n < 10 {
        seq![digit_char(n)]
    } else {
        decimal_text(n / 10) + seq![digit_char(n % 10)]
    }
}

/// The plural suffix for a count: empty for exactly one, "s" otherwise.
pub open spec fn plural_suffix(count: nat) -> Seq<char> {
    if count == 1 { Seq::empty() } else { seq!['s'] }
}

/// The summary line of one group.
pub open spec fn group_line_text(digest: Seq<char>, size: u64, count: nat) -> Seq<char> {
    digest + ": "@ + decimal_text(size as nat) + " bytes, "@ + decimal_text(count) + " instance"@
        + plural_suffix(count)
}

fn digit_str(d: u64) -> (r: &'static str)
    requires
        d < 10,
    ensures
        r@ == seq![digit_char(d as nat)],
{
    proof {
        reveal_strlit("0");
        reveal_strlit("1");
        reveal_strlit("2");
        reveal_strlit("3");
        reveal_strlit("4");
        reveal_strlit("5");
        reveal_strlit("6");
        reveal_strlit("7");
        reveal_strlit("8");
        reveal_strlit("9");
    }
    if d == 0 { "0" }
    else if d == 1 { "1" }
    else if d == 2 { "2" }
    else if d == 3 { "3" }
    else if d == 4 { "4" }
    else if d == 5 { "5" }
    else if d == 6 { "6" }
    else if d == 7 { "7" }
    else if d == 8 { "8" }
    else { "9" }
}

/// Renders `n` in decimal.
pub fn decimal(n: u64) -> (r: String)
    ensures
        r@ == decimal_text(n as nat),
    decreases n,
{
    if n < 10 {
        String::from_str(digit_str(n))
    } else {
        let mut s = decimal(n / 10);
        s.append(digit_str(n % 10));
        s
    }
}

/// The plural suffix for `count`: "" for exactly one, "s" for any other count.
pub fn pluralize(count: usize) -> (r: String)
    ensures
        r@ == plural_suffix(count as nat),
{
    proof {
        reveal_strlit("");
        reveal_strlit("s");
    }
    if count == 1 {
        String::from_str("")
    } else {
        String::from_str("s")
    }
}

/// The line giving the number of groups found: "Total files: <n>".
pub fn total_line(total: usize) -> (r: String)
    ensures
        r@ == "Total files: "@ + decimal_text(total as nat),
{
    let mut s = String::from_str("Total files: ");
    s.append(decimal(total as u64).as_str());
    s
}

/// The line giving the number of groups shown: "Duplicate entries: <n>".
pub fn duplicates_line(shown: usize) -> (r: String)
    ensures
        r@ == "Duplicate entries: "@ + decimal_text(shown as nat),
{
    let mut s = String::from_str("Duplicate entries: ");
    s.append(decimal(shown as u64).as_str());
    s
}

/// The summary of a scan: "Total files: <n>" with the number of groups
/// found, then, unless every group is shown, "Duplicate entries: <n>" with
/// the number of groups that have more than one file.
pub fn summary_lines(index: &DuplicateIndex, include_all: bool) -> (r: Vec<String>)
    requires
        index.wf(),
    ensures
        r@.len() == (if include_all { 1int } else { 2int }),
        r@[0]@ == "Total files: "@ + decimal_text(index@.dom().len()),
        !include_all ==> r@[1]@ == "Duplicate entries: "@ + decimal_text(
            selected(index@, false).dom().len(),
        ),
{
    let mut r: Vec<String> = Vec::new();
    r.push(total_line(index.total_groups()));
    if !include_all {
        let shown = index.select_groups(false);
        r.push(duplicates_line(shown.total_groups()));
    }
    r
}

/// The summary line of one group: "<digest>: <size> bytes, <n> instance[s]".
pub fn group_line(digest: &String, entry: &FileEntry) -> (r: String)
    ensures
        r@ == group_line_text(digest@, entry.size, entry.files@.len()),
{
    let count = entry.files.len();
    let mut s = digest.clone();
    s.append(": ");
    s.append(decimal(entry.size).as_str());
    s.append(" bytes, ");
    s.append(decimal(count as u64).as_str());
    s.append(" instance");
    s.append(pluralize(count).as_str());
    s
}

/// The line listing one file of a group: "- <path>".
pub fn file_line(path: &String) -> (r: String)
    ensures
        r@ == "- "@ + path@,
{
    let mut s = String::from_str("- ");
    s.append(path.as_str());
    s
}

} // verus!
