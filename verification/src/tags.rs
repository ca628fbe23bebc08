use vstd::prelude::*;

use crate::corridor::names;
use crate::text::str_eq;

verus! {

broadcast use vstd::string::group_string_axioms;

/// Add `tag` to a list of sensory tags unless it is already there.
pub fn add_tag(tags: &mut Vec<String>, tag: &str)
    ensures
        names(final(tags)@) == if names(old(tags)@).contains(tag@) {
            names(old(tags)@)
        } else {
            names(old(tags)@).push(tag@)
        },
        names(old(tags)@).no_duplicates() ==> names(final(tags)@).no_duplicates(),
{
    let ghost before = names(tags@);
    let mut i: usize = 0;
    while i < tags.len()
        invariant
            before == names(tags@),
            i <= tags@.len(),
            forall|j: int| 0 <= j < i ==> before[j] != tag@,
        decreases tags@.len() - i,
    {
        if str_eq(tags[i].as_str(), tag) {
            assert(before[i as int] == tag@);
            return;
        }
        i = i + 1;
    }
    tags.push(tag.to_string());
    assert(names(tags@) =~= before.push(tag@));
}

} // verus!
