//! What a sequence of lines contributes to each category, stated over the
//! lines' text.
use vstd::prelude::*;

use crate::extract::json_type_field;

verus! {

/// The number of bytes of a line in UTF-8, its terminator included when it
/// has one.
pub open spec fn byte_len(line: Seq<char>) -> nat {
    vstd::utf8::encode_utf8(line).len()
}

/// How many of `lines` name category `k`.
pub open spec fn count_of(lines: Seq<Seq<char>>, k: Seq<char>) -> nat
    decreases lines.len(),
{
    if lines.len() == 0 {
        0
    } else {
        count_of(lines.drop_last(), k) + if json_type_field(lines.last()) == Some(k) {
            1nat
        } else {
            0nat
        }
    }
}

/// The bytes of the lines of `lines` that name category `k`.
pub open spec fn bytes_of(lines: Seq<Seq<char>>, k: Seq<char>) -> nat
    decreases lines.len(),
{
    if lines.len() == 0 {
        0
    } else {
        bytes_of(lines.drop_last(), k) + if json_type_field(lines.last()) == Some(k) {
            byte_len(lines.last())
        } else {
            0nat
        }
    }
}

/// How many of `lines` name some category.
pub open spec fn parsed_count(lines: Seq<Seq<char>>) -> nat
    decreases lines.len(),
{
    if lines.len() == 0 {
        0
    } else {
        parsed_count(lines.drop_last()) + if json_type_field(lines.last()) is Some {
            1nat
        } else {
            0nat
        }
    }
}

/// The bytes of the lines of `lines` that name some category.
pub open spec fn parsed_bytes(lines: Seq<Seq<char>>) -> nat
    decreases lines.len(),
{
    if lines.len() == 0 {
        0
    } else {
        parsed_bytes(lines.drop_last()) + if json_type_field(lines.last()) is Some {
            byte_len(lines.last())
        } else {
            0nat
        }
    }
}

/// The bytes of all of `lines`.
pub open spec fn total_len(lines: Seq<Seq<char>>) -> nat
    decreases lines.len(),
{
    if lines.len() == 0 {
        0
    } else {
        total_len(lines.drop_last()) + byte_len(lines.last())
    }
}

/// The text of each of `lines`.
pub open spec fn texts(lines: Seq<String>) -> Seq<Seq<char>> {
    lines.map_values(|s: String| s@)
}

/// A category that no line names has no bytes either.
pub proof fn lemma_unnamed_has_no_bytes(lines: Seq<Seq<char>>, k: Seq<char>)
    requires
        count_of(lines, k) == 0,
    ensures
        bytes_of(lines, k) == 0,
    decreases lines.len(),
{
    if lines.len() > 0 {
        lemma_unnamed_has_no_bytes(lines.drop_last(), k);
    }
}

/// Lines that name a category are among the lines, in number and in bytes.
pub proof fn lemma_parsed_within(lines: Seq<Seq<char>>)
    ensures
        parsed_count(lines) <= lines.len(),
        parsed_bytes(lines) <= total_len(lines),
    decreases lines.len(),
{
    if lines.len() > 0 {
        lemma_parsed_within(lines.drop_last());
    }
}

/// A prefix of the lines holds no more bytes than the whole.
pub proof fn lemma_prefix_len(lines: Seq<Seq<char>>, n: int)
    requires
        0 <= n <= lines.len(),
    ensures
        total_len(lines.subrange(0, n)) <= total_len(lines),
    decreases lines.len() - n,
{
    if n < lines.len() {
        let next = lines.subrange(0, n + 1);
        assert(next.drop_last() =~= lines.subrange(0, n));
        lemma_prefix_len(lines, n + 1);
    } else {
        assert(lines.subrange(0, n) =~= lines);
    }
}

} // verus!
