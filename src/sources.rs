//! Choosing which source files to measure.
use vstd::prelude::*;

use crate::text::{chars_of, contains, contains_chars};

verus! {

/// Some filter occurs in the path.
pub open spec fn matches_any(path: Seq<char>, filters: Seq<String>) -> bool {
    exists|j: int| 0 <= j < filters.len() && contains(path, #[trigger] filters[j]@)
}

/// The paths that some filter occurs in, in their order.
pub open spec fn kept(files: Seq<String>, filters: Seq<String>) -> Seq<String>
    decreases files.len(),
{
    if files.len() == 0 {
        Seq::empty()
    } else if matches_any(files.last()@, filters) {
        kept(files.drop_last(), filters).push(files.last())
    } else {
        kept(files.drop_last(), filters)
    }
}

/// Whether some filter occurs in `path`.
fn any_filter_in(path: &String, filters: &[String]) -> (r: bool)
    ensures
        r == matches_any(path@, filters@),
{
    let pc = chars_of(path.as_str());
    let mut j: usize = 0;
    while j < filters.len()
        invariant
            pc@ == path@,
            0 <= j <= filters@.len(),
            forall|k: int| 0 <= k < j ==> !contains(path@, #[trigger] filters@[k]@),
        decreases filters.len() - j,
    {
        let fc = chars_of(filters[j].as_str());
        if contains_chars(&pc, &fc) {
            return true;
        }
        j += 1;
    }
    false
}

/// Keeps the paths that contain one of `filters`; with no filter, all of them.
pub fn filter_sources(files: Vec<String>, filters: &[String]) -> (r: Vec<String>)
    ensures
        filters@.len() == 0 ==> r@ == files@,
        filters@.len() > 0 ==> r@ == kept(files@, filters@),
{
    if filters.len() == 0 {
        return files;
    }
    let mut out: Vec<String> = Vec::new();
    let mut i: usize = 0;
    assert(files@.take(0) =~= Seq::<String>::empty());
    while i < files.len()
        invariant
            0 <= i <= files@.len(),
            out@ == kept(files@.take(i as int), filters@),
        decreases files.len() - i,
    {
        assert(files@.take(i + 1).drop_last() =~= files@.take(i as int));
        if any_filter_in(&files[i], filters) {
            out.push(files[i].clone());
        }
        i += 1;
    }
    assert(files@.take(files@.len() as int) =~= files@);
    out
}

} // verus!
