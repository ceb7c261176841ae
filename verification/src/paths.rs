//! File paths as the bytes that Unix passes around.

use vstd::prelude::*;
use vstd::slice::slice_to_vec;
use vstd::utf8::*;

verus! {

/// A path with a component added: an absolute component replaces the path, any
/// other one follows it, after a slash unless the path is empty or ends in one.
pub open spec fn joined(base: Seq<u8>, component: Seq<u8>) -> Seq<u8> {
    if component.len() > 0 && component[0] == '/' as u8 {
        component
    } else if base.len() == 0 || base.last() == '/' as u8 {
        base + component
    } else {
        base.push('/' as u8) + component
    }
}

/// Adds a component to a path.
pub fn join(base: &[u8], component: &[u8]) -> (path: Vec<u8>)
    ensures
        path@ == joined(base@, component@),
{
    if component.len() > 0 && component[0] == 47 {
        return slice_to_vec(component);
    }
    let mut path = slice_to_vec(base);
    if base.len() > 0 && base[base.len() - 1] != 47 {
        path.push(47);
    }
    let mut i: usize = 0;
    let ghost start = path@;
    while i < component.len()
        invariant
            i <= component.len(),
            path@ =~= start + component@.take(i as int),
        decreases component.len() - i,
    {
        path.push(component[i]);
        proof {
            assert(component@.take(i + 1) =~= component@.take(i as int).push(
                component@[i as int],
            ));
        }
        i += 1;
    }
    assert(component@.take(i as int) =~= component@);
    path
}

/// Adds a component that is written as text.
pub fn join_str(base: &[u8], component: &str) -> (path: Vec<u8>)
    ensures
        path@ == joined(base@, encode_utf8(component@)),
{
    join(base, component.as_bytes())
}

/// A component that starts with a slash is the path. Any other one follows the base after
/// just one slash, and alone where the base is empty.
pub proof fn law_joined(base: Seq<u8>, component: Seq<u8>)
    ensures
        component.len() > 0 && component[0] == 47 ==> joined(base, component) == component,
        !(component.len() > 0 && component[0] == 47) ==> {
            &&& base.len() == 0 ==> joined(base, component) == component
            &&& base.len() > 0 && base[base.len() - 1] == 47 ==> joined(base, component) == base
                + component
            &&& base.len() > 0 && base[base.len() - 1] != 47 ==> joined(base, component) == base
                + seq![47u8] + component
        },
{
    assert('/' as u8 == 47);
    assert(base.push(47) =~= base + seq![47u8]);
}

/// A component that is written as text, and neither is empty nor starts with a slash,
/// follows a base after one slash, if the base does not close with one.
pub proof fn law_joined_text(base: Seq<u8>, component: Seq<char>)
    requires
        base.len() > 0,
        base.last() != 47,
        component.len() > 0,
        component[0] != '/',
    ensures
        joined(base, encode_utf8(component)) == base + seq![47u8] + encode_utf8(component),
{
    law_joined(base, encode_utf8(component));
    crate::utf8_facts::lemma_no_slash(component);
}

} // verus!
