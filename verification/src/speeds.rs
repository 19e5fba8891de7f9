use vstd::prelude::*;
use vstd::string::*;

verus! {

/// Speed in km/h for each recognized road category. Categories not listed
/// are unusable: a segment so tagged contributes no edges.
pub open spec fn speed_spec(c: Seq<char>) -> Option<u32> {
    if c == "motorway"@ || c == "trunk"@ {
        Some(110u32)
    } else if c == "primary"@ {
        Some(70u32)
    } else if c == "secondary"@ {
        Some(60u32)
    } else if c == "tertiary"@ || c == "motorway_link"@ || c == "trunk_link"@
        || c == "primary_link"@ || c == "secondary_link"@ {
        Some(50u32)
    } else if c == "road"@ || c == "unclassified"@ {
        Some(40u32)
    } else if c == "residential"@ || c == "unsurfaced"@ {
        Some(30u32)
    } else if c == "living_street"@ {
        Some(10u32)
    } else if c == "service"@ {
        Some(5u32)
    } else {
        None
    }
}

/// Character-by-character equality of two string slices.
pub fn str_eq_chars(a: &str, b: &str) -> (r: bool)
    ensures
        r == (a@ == b@),
{
    let na = a.unicode_len();
    let nb = b.unicode_len();
    if na != nb {
        return false;
    }
    let mut i: usize = 0;
    while i < na
        invariant
            na == a@.len(),
            na == b@.len(),
            i <= na,
            forall|j: int| 0 <= j < i ==> a@[j] == b@[j],
        decreases na - i,
    {
        if a.get_char(i) != b.get_char(i) {
            return false;
        }
        i = i + 1;
    }
    proof {
        assert(a@ =~= b@);
    }
    true
}

/// See [`speed_spec`].
pub fn speed_for_category(category: &str) -> (r: Option<u32>)
    ensures
        r == speed_spec(category@),
{
    if str_eq_chars(category, "motorway") {
        Some(110)
    } else if str_eq_chars(category, "trunk") {
        Some(110)
    } else if str_eq_chars(category, "primary") {
        Some(70)
    } else if str_eq_chars(category, "secondary") {
        Some(60)
    } else if str_eq_chars(category, "tertiary") {
        Some(50)
    } else if str_eq_chars(category, "motorway_link") {
        Some(50)
    } else if str_eq_chars(category, "trunk_link") {
        Some(50)
    } else if str_eq_chars(category, "primary_link") {
        Some(50)
    } else if str_eq_chars(category, "secondary_link") {
        Some(50)
    } else if str_eq_chars(category, "road") {
        Some(40)
    } else if str_eq_chars(category, "unclassified") {
        Some(40)
    } else if str_eq_chars(category, "residential") {
        Some(30)
    } else if str_eq_chars(category, "unsurfaced") {
        Some(30)
    } else if str_eq_chars(category, "living_street") {
        Some(10)
    } else if str_eq_chars(category, "service") {
        Some(5)
    } else {
        None
    }
}

} // verus!
