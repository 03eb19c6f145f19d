//! Line coverage of functions, and the module path of a source file.
use vstd::prelude::*;

use std::collections::HashMap;

use crate::paths::{strip_dir, strip_dir_chars};
use crate::text::{chars_of, ends_with, ends_with_chars, starts_with_chars, string_of};

verus! {

/// Per-file line coverage: line number to hit count.
pub type LineCoverage = HashMap<usize, u64>;

pub open spec fn is_sep(c: char) -> bool {
    c == '/' || c == '\\'
}

/// Each path separator replaced by `::`.
pub open spec fn replace_seps(s: Seq<char>) -> Seq<char>
    decreases s.len(),
{
    if s.len() == 0 {
        Seq::empty()
    } else {
        replace_seps(s.drop_last()) + if is_sep(s.last()) {
            seq![':', ':']
        } else {
            seq![s.last()]
        }
    }
}

pub open spec fn strip_rs(s: Seq<char>) -> Seq<char> {
    if ends_with(s, seq!['.', 'r', 's']) {
        s.take(s.len() - 3)
    } else {
        s
    }
}

/// The module path of source file `p` under source directory `d`:
/// `src/foo/bar.rs` is `foo::bar`, `src/foo/mod.rs` is `foo`, `src/mod.rs` is empty.
pub open spec fn module_path_of(p: Seq<char>, d: Seq<char>) -> Seq<char> {
    let r = replace_seps(strip_rs(strip_dir(p, d)));
    if r == seq!['m', 'o', 'd'] {
        Seq::empty()
    } else if ends_with(r, seq![':', ':', 'm', 'o', 'd']) {
        r.take(r.len() - 5)
    } else {
        r
    }
}

/// The module path of a source file, from its path and the source directory,
/// both with `/` between components.
pub fn source_to_module_path(path: &str, src_dir: &str) -> (r: String)
    ensures
        r@ == module_path_of(path@, src_dir@),
{
    let p = chars_of(path);
    let d = chars_of(src_dir);
    let rest = strip_dir_chars(&p, &d);
    let ghost pv = rest@;
    let from: usize = 0;
    let mut to: usize = rest.len();
    let suffix = vec!['.', 'r', 's'];
    if ends_with_chars(&rest, &suffix) {
        to = rest.len() - 3;
    }
    assert(pv.subrange(from as int, to as int) =~= strip_rs(pv));
    let mut out: Vec<char> = Vec::new();
    let mut i: usize = from;
    while i < to
        invariant
            pv == rest@,
            from <= i <= to <= rest@.len(),
            out@ == replace_seps(pv.subrange(from as int, i as int)),
        decreases to - i,
    {
        assert(pv.subrange(from as int, i + 1).drop_last() =~= pv.subrange(from as int, i as int));
        let c = rest[i];
        if c == '/' || c == '\\' {
            out.push(':');
            out.push(':');
        } else {
            out.push(c);
        }
        i += 1;
        assert(out@ =~= replace_seps(pv.subrange(from as int, i as int)));
    }
    let ghost r = out@;
    let modname = vec!['m', 'o', 'd'];
    let modsuffix = vec![':', ':', 'm', 'o', 'd'];
    if out.len() == 3 && starts_with_chars(&out, &modname) {
        assert(r =~= seq!['m', 'o', 'd']);
        return String::new();
    }
    if ends_with_chars(&out, &modsuffix) {
        assert(r != seq!['m', 'o', 'd']);
        out.truncate(out.len() - 5);
        assert(out@ =~= r.take(r.len() - 5));
    } else {
        proof {
            if r == seq!['m', 'o', 'd'] {
                assert(modname@ =~= seq!['m', 'o', 'd']);
                assert(out@.take(3) =~= out@);
            }
        }
    }
    string_of(out)
}

pub open spec fn listed(m: Map<usize, u64>, ln: usize) -> nat {
    if m.dom().contains(ln) {
        1
    } else {
        0
    }
}

pub open spec fn listed_hit(m: Map<usize, u64>, ln: usize) -> nat {
    if m.dom().contains(ln) && m[ln] > 0 {
        1
    } else {
        0
    }
}

/// Lines of `start..=end` that the coverage data lists.
pub open spec fn instrumented_lines(m: Map<usize, u64>, start: usize, end: usize) -> nat
    decreases end,
{
    if end < start {
        0
    } else if end == start {
        listed(m, start)
    } else {
        instrumented_lines(m, start, (end - 1) as usize) + listed(m, end)
    }
}

/// Lines of `start..=end` that the coverage data lists with a hit.
pub open spec fn hit_lines(m: Map<usize, u64>, start: usize, end: usize) -> nat
    decreases end,
{
    if end < start {
        0
    } else if end == start {
        listed_hit(m, start)
    } else {
        hit_lines(m, start, (end - 1) as usize) + listed_hit(m, end)
    }
}

/// How many lines of a range carry coverage data, and how many of those were hit.
pub struct RangeCoverage {
    pub instrumented: u64,
    pub hit: u64,
}

/// Counts the instrumented and the hit lines among `start..=end` (lines count from 1).
pub fn range_coverage(line_cov: &LineCoverage, start: usize, end: usize) -> (r: RangeCoverage)
    requires
        1 <= start,
    ensures
        r.instrumented == instrumented_lines(line_cov@, start, end),
        r.hit == hit_lines(line_cov@, start, end),
        r.hit <= r.instrumented,
{
    broadcast use vstd::std_specs::hash::group_hash_axioms;

    let mut instrumented: u64 = 0;
    let mut hit: u64 = 0;
    if start > end {
        return RangeCoverage { instrumented, hit };
    }
    let mut ln: usize = start;
    loop
        invariant
            1 <= start <= ln <= end,
            ln == start ==> instrumented == 0 && hit == 0,
            ln > start ==> instrumented == instrumented_lines(line_cov@, start, (ln - 1) as usize),
            ln > start ==> hit == hit_lines(line_cov@, start, (ln - 1) as usize),
            hit <= instrumented <= ln - start,
        decreases end - ln,
    {
        match line_cov.get(&ln) {
            Some(count) => {
                instrumented += 1;
                if *count > 0 {
                    hit += 1;
                }
            },
            None => {},
        }
        if ln == end {
            return RangeCoverage { instrumented, hit };
        }
        ln += 1;
    }
}

} // verus!
