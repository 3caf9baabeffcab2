//! How positions are named in progress messages.
use vstd::prelude::*;

use crate::precompute::walk::{Visit, VisitView};
use crate::text::{byte_char, decimal, hexadecimal, push_decimal, push_hexadecimal, push_text};

verus! {

/// Whether the last guess hit or missed.
pub open spec fn answer_kind(pmask: u32) -> Seq<char> {
    if pmask == 0 {
        "miss"@
    } else {
        "hit"@
    }
}

/// The name of a position: its depth, how it was reached and how many words it has.
pub open spec fn label_text(v: VisitView) -> Seq<char> {
    let count = decimal(v.indices.len());
    if v.depth == 0 {
        "d0 root "@ + count
    } else if v.path.len() == 0 {
        ("d"@ + decimal(v.depth) + " '"@).push(byte_char(v.letter)) + "' "@ + answer_kind(v.pmask) + "(0x"@ + hexadecimal(v.pmask as nat)
            + ") "@ + count
    } else {
        ("d"@ + decimal(v.depth) + " "@ + v.path + "+'"@).push(byte_char(v.letter)) + "'"@ + answer_kind(v.pmask) + " "@ + count
    }
}

/// The name of a position for progress messages.
pub fn format_label(visit: &Visit) -> (r: String)
    ensures
        r@ == label_text(visit@),
{
    let mut s = String::new();
    let count: usize = visit.indices.len();
    if visit.depth == 0 {
        push_text(&mut s, "d0 root ");
        push_decimal(&mut s, count as u64);
        assert(s@ =~= label_text(visit@));
        return s;
    }
    let kind: &str = if visit.pmask == 0 {
        "miss"
    } else {
        "hit"
    };
    push_text(&mut s, "d");
    push_decimal(&mut s, visit.depth as u64);
    if visit.path.as_str().unicode_len() == 0 {
        push_text(&mut s, " '");
        s.push(visit.letter as char);
        push_text(&mut s, "' ");
        push_text(&mut s, kind);
        push_text(&mut s, "(0x");
        push_hexadecimal(&mut s, visit.pmask as u64);
        push_text(&mut s, ") ");
        push_decimal(&mut s, count as u64);
    } else {
        push_text(&mut s, " ");
        push_text(&mut s, visit.path.as_str());
        push_text(&mut s, "+'");
        s.push(visit.letter as char);
        push_text(&mut s, "'");
        push_text(&mut s, kind);
        push_text(&mut s, " ");
        push_decimal(&mut s, count as u64);
    }
    assert(s@ =~= label_text(visit@));
    s
}

} // verus!
