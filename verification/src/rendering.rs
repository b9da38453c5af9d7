//! The text of a list of entries, as a debug rendering writes it.

use std::fmt::Write;
use vstd::prelude::*;
use vstd::string::StringExecFns;

verus! {

/// The entries one after another, with a comma and a space between two of
/// them.
pub open spec fn joined(entries: Seq<Seq<char>>) -> Seq<char>
    decreases entries.len(),
{
    if entries.len() == 0 {
        Seq::empty()
    } else if entries.len() == 1 {
        entries[0]
    } else {
        joined(entries.drop_last()) + seq![',', ' '] + entries.last()
    }
}

/// The entries as a list: joined, in square brackets.
pub open spec fn listed(entries: Seq<Seq<char>>) -> Seq<char> {
    seq!['['] + joined(entries) + seq![']']
}

/// The texts that the strings of `entries` hold.
pub open spec fn texts(entries: Seq<String>) -> Seq<Seq<char>> {
    entries.map_values(|entry: String| entry@)
}

/// Writes `value` into a fresh string with `write!` and `{:?}`, which runs
/// the type's own `std::fmt::Debug::fmt`, and hands the string out; `None`
/// where that returned an error. What is written, and whether it fails,
/// lies with the type: nothing is claimed of either.
#[verifier::external_body]
pub(crate) fn debug_text<T: std::fmt::Debug>(value: &T) -> (text: Option<String>) {
    let mut text = String::new();
    match write!(text, "{:?}", value) {
        Ok(()) => Some(text),
        Err(_) => None,
    }
}

/// Writes the entries as a list.
pub fn list_text(entries: &Vec<String>) -> (text: String)
    ensures
        text@ == listed(texts(entries@)),
{
    proof {
        reveal_strlit("[");
        reveal_strlit(", ");
        reveal_strlit("]");
    }
    let mut text = String::new();
    text.append("[");
    let mut i: usize = 0;
    while i < entries.len()
        invariant
            i <= entries.len(),
            "["@ == seq!['['],
            ", "@ == seq![',', ' '],
            text@ == seq!['['] + joined(texts(entries@.take(i as int))),
        decreases entries.len() - i,
    {
        let ghost before = texts(entries@.take(i as int));
        let ghost after = texts(entries@.take(i + 1));
        assert(after.drop_last() == before);
        assert(after.last() == entries@[i as int]@);
        if i > 0 {
            text.append(", ");
        }
        text.append(entries[i].as_str());
        i = i + 1;
    }
    assert(entries@.take(i as int) == entries@);
    text.append("]");
    text
}

} // verus!
