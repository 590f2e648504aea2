//! The addresses of the pages, which all live below one base address.

use crate::text::{chars_of, concat, string_of};
use vstd::prelude::*;

verus! {

/// Makes `new_base` the base address.
pub fn set_base_url(base: &mut String, new_base: &str)
    ensures
        final(base)@ == new_base@,
{
    *base = new_base.to_owned();
}

/// The base address.
pub fn base_url(base: &String) -> (out: String)
    ensures
        out@ == base@,
{
    base.clone()
}

/// The address `u` below `base`: `base`, a `/` unless `u` begins with one,
/// and `u`.
pub open spec fn absolute(base: Seq<char>, u: Seq<char>) -> Seq<char> {
    if u.len() > 0 && u[0] == '/' {
        base + u
    } else {
        base + seq!['/'] + u
    }
}

/// The address `u` below `base`.
pub fn absolute_url(base: &str, u: &str) -> (out: String)
    ensures
        out@ == absolute(base@, u@),
{
    let chars = chars_of(u);
    if chars.len() > 0 && chars[0] == '/' {
        concat(base, u)
    } else {
        let mut slash: Vec<char> = Vec::new();
        slash.push('/');
        assert(slash@ =~= seq!['/']);
        let head = concat(base, string_of(&slash).as_str());
        concat(head.as_str(), u)
    }
}

} // verus!
