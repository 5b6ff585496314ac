//! File paths as text, with `/` between their components.

use vstd::prelude::*;
use vstd::string::*;

use crate::text::{chars_equal, chars_of};

verus! {

/// Whether a path starts at the root.
pub open spec fn is_absolute(path: Seq<char>) -> bool {
    path.len() > 0 && path[0] == '/'
}

/// `relative` taken from `base`: an absolute path stands for itself, any other is appended
/// behind a separator.
pub open spec fn joined(base: Seq<char>, relative: Seq<char>) -> Seq<char> {
    if is_absolute(relative) {
        relative
    } else if base.len() > 0 && base.last() != '/' {
        base.push('/') + relative
    } else {
        base + relative
    }
}

/// Where the component that starts at `i` ends.
pub open spec fn component_end(path: Seq<char>, i: int) -> int
    decreases path.len() - i,
{
    if i >= path.len() || path[i] == '/' {
        i
    } else {
        component_end(path, i + 1)
    }
}

/// A component ends within the path.
pub proof fn lemma_component_end(path: Seq<char>, i: int)
    requires
        0 <= i <= path.len(),
    ensures
        i <= component_end(path, i) <= path.len(),
    decreases path.len() - i,
{
    if i < path.len() && path[i] != '/' {
        lemma_component_end(path, i + 1);
    }
}

/// The components of the path from position `i` on. Empty ones do not count, and a single
/// dot counts only where the path begins with it.
pub open spec fn components_from(path: Seq<char>, i: int) -> Seq<Seq<char>>
    decreases path.len() + 1 - i,
{
    if i < 0 || i >= path.len() {
        Seq::empty()
    } else {
        let end = component_end(path, i);
        let component = path.subrange(i, end);
        proof {
            lemma_component_end(path, i);
        }
        let rest = components_from(path, end + 1);
        if component.len() == 0 || (component == seq!['.'] && i > 0) {
            rest
        } else {
            seq![component] + rest
        }
    }
}

/// Two texts name the same path: both absolute or both relative, with the same components.
pub open spec fn same_path_text(a: Seq<char>, b: Seq<char>) -> bool {
    is_absolute(a) == is_absolute(b) && components_from(a, 0) == components_from(b, 0)
}

/// `relative` taken from `base`.
pub fn join_path(base: &str, relative: &str) -> (path: String)
    ensures
        path@ == joined(base@, relative@),
{
    if !relative.is_empty() && relative.get_char(0) == '/' {
        return relative.to_owned();
    }
    let mut path = base.to_owned();
    let length: usize = base.unicode_len();
    if length > 0 && base.get_char(length - 1) != '/' {
        path.push('/');
    }
    path.append(relative);
    path
}

/// The components of a path, as `components_from` gives them.
fn path_components(path: &Vec<char>) -> (components: Vec<Vec<char>>)
    ensures
        components@.len() == components_from(path@, 0).len(),
        forall|k: int|
            0 <= k < components@.len() ==> (#[trigger] components@[k])@ == components_from(
                path@,
                0,
            )[k],
{
    let mut components: Vec<Vec<char>> = Vec::new();
    let mut i: usize = 0;
    let length: usize = path.len();
    while i < length
        invariant
            length == path@.len(),
            components@.len() + components_from(path@, i as int).len() == components_from(
                path@,
                0,
            ).len(),
            components_from(path@, 0).skip(components@.len() as int) == components_from(
                path@,
                i as int,
            ),
            forall|k: int|
                0 <= k < components@.len() ==> (#[trigger] components@[k])@ == components_from(
                    path@,
                    0,
                )[k],
        decreases length - i,
    {
        let start: usize = i;
        let mut component: Vec<char> = Vec::new();
        while i < length && path[i] != '/'
            invariant
                length == path@.len(),
                start <= i <= length,
                component@ == path@.subrange(start as int, i as int),
                component_end(path@, start as int) == component_end(path@, i as int),
            decreases length - i,
        {
            component.push(path[i]);
            i = i + 1;
            assert(component@ =~= path@.subrange(start as int, i as int));
        }
        assert(component_end(path@, start as int) == i);
        let dot = component.len() == 1 && component[0] == '.';
        assert(dot == (component@ =~= seq!['.']));
        let ghost all = components_from(path@, 0);
        let ghost here = components_from(path@, start as int);
        let ghost next = components_from(path@, i + 1);
        if component.len() == 0 || (dot && start > 0) {
            assert(here == next);
        } else {
            assert(here == seq![component@] + next);
            assert(all.skip(components@.len() as int)[0] == component@);
            assert(all.skip(components@.len() as int).skip(1) =~= next);
            assert(all.skip(components@.len() as int + 1) =~= next);
            components.push(component);
        }
        if i < length {
            i = i + 1;
        } else {
            assert(next.len() == 0);
            assert(components_from(path@, i as int) =~= next);
        }
    }
    components
}

/// Whether two texts name the same path.
pub fn same_path(a: &str, b: &str) -> (same: bool)
    ensures
        same == same_path_text(a@, b@),
{
    let a_chars = chars_of(a);
    let b_chars = chars_of(b);
    let a_absolute = a_chars.len() > 0 && a_chars[0] == '/';
    let b_absolute = b_chars.len() > 0 && b_chars[0] == '/';
    if a_absolute != b_absolute {
        return false;
    }
    let a_parts = path_components(&a_chars);
    let b_parts = path_components(&b_chars);
    if a_parts.len() != b_parts.len() {
        return false;
    }
    let mut k: usize = 0;
    while k < a_parts.len()
        invariant
            k <= a_parts@.len(),
            a_parts@.len() == b_parts@.len(),
            a_parts@.len() == components_from(a@, 0).len(),
            b_parts@.len() == components_from(b@, 0).len(),
            forall|j: int|
                0 <= j < a_parts@.len() ==> (#[trigger] a_parts@[j])@ == components_from(a@, 0)[j],
            forall|j: int|
                0 <= j < b_parts@.len() ==> (#[trigger] b_parts@[j])@ == components_from(b@, 0)[j],
            forall|j: int| 0 <= j < k ==> components_from(a@, 0)[j] == components_from(b@, 0)[j],
        decreases a_parts@.len() - k,
    {
        if !chars_equal(&a_parts[k], &b_parts[k]) {
            return false;
        }
        k = k + 1;
    }
    assert(components_from(a@, 0) =~= components_from(b@, 0));
    true
}

/// Naming the same path is an equivalence.
pub proof fn same_path_is_an_equivalence(a: Seq<char>, b: Seq<char>, c: Seq<char>)
    ensures
        same_path_text(a, a),
        same_path_text(a, b) ==> same_path_text(b, a),
        same_path_text(a, b) && same_path_text(b, c) ==> same_path_text(a, c),
{
}

/// Different relative paths lead from the same directory to different places.
pub proof fn lemma_joined_is_injective(base: Seq<char>, a: Seq<char>, b: Seq<char>)
    requires
        !is_absolute(a),
        !is_absolute(b),
        joined(base, a) == joined(base, b),
    ensures
        a == b,
{
    let start = joined(base, a).len() - a.len();
    assert(joined(base, a).skip(start) =~= a);
    assert(joined(base, b).skip(start) =~= b);
}

} // verus!
