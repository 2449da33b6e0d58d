//! Entry names and relative paths.
//!
//! A name is the byte string under which a directory lists an entry. A path is a
//! sequence of names, read from the root of a tree: the empty path is the root
//! itself. The same path is used below the source root and below the destination
//! root, which is what makes one tree the mirror of the other.

use vstd::prelude::*;

verus! {

/// What a list of names holds, each name as the sequence of its bytes.
pub open spec fn names_view(names: Vec<Vec<u8>>) -> Seq<Seq<u8>> {
    names@.map_values(|name: Vec<u8>| name@)
}

/// `prefix` leads to `path`: it is `path` itself or one of its ancestors.
pub open spec fn leads_to(prefix: Seq<Seq<u8>>, path: Seq<Seq<u8>>) -> bool {
    prefix.len() <= path.len() && path.take(prefix.len() as int) == prefix
}

/// A copy of a name.
pub fn copy_name(name: &Vec<u8>) -> (copy: Vec<u8>)
    ensures
        copy@ == name@,
{
    let mut copy: Vec<u8> = Vec::new();
    let mut i: usize = 0;
    while i < name.len()
        invariant
            i <= name.len(),
            copy@ == name@.take(i as int),
        decreases name.len() - i,
    {
        copy.push(name[i]);
        i += 1;
        assert(name@.take(i as int) == name@.take(i - 1).push(name@[i - 1]));
    }
    assert(name@.take(name.len() as int) == name@);
    copy
}

/// A copy of a list of names.
pub fn copy_names(names: &Vec<Vec<u8>>) -> (copy: Vec<Vec<u8>>)
    ensures
        names_view(copy) == names_view(*names),
{
    let mut copy: Vec<Vec<u8>> = Vec::new();
    let mut i: usize = 0;
    while i < names.len()
        invariant
            i <= names.len(),
            names_view(copy) == names_view(*names).take(i as int),
        decreases names.len() - i,
    {
        let name = copy_name(&names[i]);
        let ghost before = copy;
        copy.push(name);
        i += 1;
        assert(names_view(copy) == names_view(before).push(name@));
        assert(names_view(*names).take(i as int) == names_view(*names).take(i - 1).push(
            names@[i - 1]@,
        ));
    }
    assert(names_view(*names).take(names.len() as int) == names_view(*names));
    copy
}

} // verus!
