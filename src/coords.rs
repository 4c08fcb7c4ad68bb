use vstd::prelude::*;

verus! {

/// The pieces `ts` joined with a dot between each two.
pub open spec fn join_dots(ts: Seq<Seq<char>>) -> Seq<char>
    decreases ts.len(),
{
    if ts.len() == 0 {
        seq![]
    } else if ts.len() == 1 {
        ts[0]
    } else {
        join_dots(ts.drop_last()) + seq!['.'] + ts.last()
    }
}

/// `ts` are the pieces of `s` between its dots, in order: none holds a dot, and
/// joined with dots they give `s` back.
pub open spec fn is_dot_split(ts: Seq<Seq<char>>, s: Seq<char>) -> bool {
    &&& ts.len() >= 1
    &&& join_dots(ts) == s
    &&& forall|k: int| 0 <= k < ts.len() ==> !(#[trigger] ts[k]).contains('.')
}

/// The value of a string of decimal digits.
pub open spec fn digits_value(d: Seq<char>) -> int
    decreases d.len(),
{
    if d.len() == 0 {
        0
    } else {
        digits_value(d.drop_last()) * 10 + ((d.last() as u32) as int - ('0' as u32) as int)
    }
}

/// One or more ASCII decimal digits.
pub open spec fn all_digits(d: Seq<char>) -> bool {
    d.len() > 0 && forall|k: int| 0 <= k < d.len() ==> '0' <= #[trigger] d[k] && d[k] <= '9'
}

/// The signed 32-bit integer that `s` writes in decimal: an optional `+` or `-`,
/// then one or more ASCII digits, with the value in range; else none.
pub open spec fn parsed_i32(s: Seq<char>) -> Option<i32> {
    let signed = s.len() > 0 && (s[0] == '-' || s[0] == '+');
    let d = if signed {
        s.skip(1)
    } else {
        s
    };
    let v = if s.len() > 0 && s[0] == '-' {
        -digits_value(d)
    } else {
        digits_value(d)
    };
    if all_digits(d) && i32::MIN <= v <= i32::MAX {
        Some(v as i32)
    } else {
        None
    }
}

/// Relies on str::split with '.': the pieces between the dots, each as a String.
#[verifier::external_body]
fn split_dots(s: &str) -> (r: Vec<String>)
    ensures
        is_dot_split(r@.map_values(|t: String| t@), s@),
{
    s.split('.').map(|t| t.to_string()).collect()
}

/// Relies on str::parse::<i32>: the decimal integer in `s`, or none.
#[verifier::external_body]
fn parse_i32(s: &str) -> (r: Option<i32>)
    ensures
        r == parsed_i32(s@),
{
    s.parse::<i32>().ok()
}

/// Region coordinates named by tokens `t`: four tokens, the second and third
/// decimal integers.
pub open spec fn coords_of_tokens(t: Seq<Seq<char>>) -> Option<(i32, i32)> {
    if t.len() != 4 {
        None
    } else {
        match (parsed_i32(t[1]), parsed_i32(t[2])) {
            (Some(x), Some(z)) => Some((x, z)),
            _ => None,
        }
    }
}

/// Region coordinates from the dot-separated pieces of a file name.
pub fn coords_from_tokens(tokens: &Vec<String>) -> (r: Option<(i32, i32)>)
    ensures
        r == coords_of_tokens(tokens@.map_values(|t: String| t@)),
{
    let ghost t = tokens@.map_values(|t: String| t@);
    if tokens.len() != 4 {
        return None;
    }
    let x = parse_i32(tokens[1].as_str());
    let z = parse_i32(tokens[2].as_str());
    assert(t[1] == tokens@[1]@ && t[2] == tokens@[2]@);
    match (x, z) {
        (Some(x), Some(z)) => Some((x, z)),
        _ => None,
    }
}

/// The region coordinates in a file name of the form `r.<x>.<z>.<ext>`, or none
/// where the name has not four dot-separated pieces or either coordinate is no
/// 32-bit integer.
pub fn extract_region_coords(file_name: &str) -> (r: Option<(i32, i32)>)
    ensures
        exists|t: Seq<Seq<char>>| is_dot_split(t, file_name@) && r == coords_of_tokens(t),
{
    let tokens = split_dots(file_name);
    let r = coords_from_tokens(&tokens);
    assert(is_dot_split(tokens@.map_values(|t: String| t@), file_name@));
    r
}

} // verus!
