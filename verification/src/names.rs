//! Lookup of names in lists where a name's position is its id.

use vstd::prelude::*;

verus! {

/// The first position of `name` in `names`, if it occurs.
pub open spec fn first_position(names: Seq<String>, name: Seq<char>) -> Option<int> {
    if exists|i: int| 0 <= i < names.len() && names[i]@ == name {
        let i = choose|i: int| 0 <= i < names.len() && names[i]@ == name
            && forall|j: int| 0 <= j < i ==> names[j]@ != name;
        Some(i)
    } else {
        None
    }
}

/// The first position is a position of the name, with no earlier one.
pub proof fn lemma_first_position(names: Seq<String>, name: Seq<char>)
    ensures
        first_position(names, name) matches Some(i) ==> 0 <= i < names.len() && names[i]@ == name
            && forall|j: int| 0 <= j < i ==> names[j]@ != name,
        first_position(names, name) is None ==> forall|j: int| 0 <= j < names.len()
            ==> names[j]@ != name,
{
    if exists|i: int| 0 <= i < names.len() && names[i]@ == name {
        let k = choose|i: int| 0 <= i < names.len() && names[i]@ == name;
        lemma_first_exists(names, name, k);
    }
}

/// The first occurrence of a name has no earlier occurrence.
proof fn lemma_first_exists(names: Seq<String>, name: Seq<char>, k: int)
    requires
        0 <= k < names.len(),
        names[k]@ == name,
    ensures
        exists|i: int| 0 <= i < names.len() && names[i]@ == name
            && forall|j: int| 0 <= j < i ==> names[j]@ != name,
    decreases k,
{
    if exists|j: int| 0 <= j < k && names[j]@ == name {
        let j = choose|j: int| 0 <= j < k && names[j]@ == name;
        lemma_first_exists(names, name, j);
    }
}

/// The position of the first occurrence of `name` in `names`.
pub fn position_of(names: &Vec<String>, name: &str) -> (r: Option<usize>)
    ensures
        match r {
            Some(i) => first_position(names@, name@) == Some(i as int),
            None => first_position(names@, name@) is None,
        },
{
    let wanted = name.to_owned();
    let mut i: usize = 0;
    while i < names.len()
        invariant
            i <= names.len(),
            wanted@ == name@,
            forall|j: int| 0 <= j < i ==> names@[j]@ != name@,
        decreases names.len() - i,
    {
        if names[i] == wanted {
            proof {
                lemma_first_exists(names@, name@, i as int);
                let c = choose|c: int| 0 <= c < names@.len() && names@[c]@ == name@
                    && forall|j: int| 0 <= j < c ==> names@[j]@ != name@;
                assert(c == i as int) by {
                    if c < i {
                    } else if c > i {
                        assert(names@[i as int]@ == name@);
                    }
                }
            }
            return Some(i);
        }
        i += 1;
    }
    None
}

} // verus!
