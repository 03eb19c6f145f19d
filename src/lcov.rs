//! Reading LCOV line coverage, and finding the coverage of a source file.
use vstd::prelude::*;

use std::collections::HashMap;

use crate::coverage::LineCoverage;
use crate::text::{
    chars_of, ends_with, ends_with_chars, lemma_split_nonempty, split_on, starts_with,
    starts_with_chars, string_of, sub_chars,
};

verus! {

// ---------------------------------------------------------------- text

/// Unicode `White_Space`, what `char::is_whitespace` tests.
pub open spec fn white_space(c: char) -> bool {
    let u = c as u32;
    (0x09 <= u <= 0x0d) || u == 0x20 || u == 0x85 || u == 0xa0 || u == 0x1680 || (0x2000 <= u
        <= 0x200a) || u == 0x2028 || u == 0x2029 || u == 0x202f || u == 0x205f || u == 0x3000
}

/// Whether `c` is white space.
pub fn is_white_space(c: char) -> (r: bool)
    ensures
        r == white_space(c),
{
    let u = c as u32;
    (0x09 <= u && u <= 0x0d) || u == 0x20 || u == 0x85 || u == 0xa0 || u == 0x1680 || (0x2000 <= u
        && u <= 0x200a) || u == 0x2028 || u == 0x2029 || u == 0x202f || u == 0x205f || u == 0x3000
}

pub open spec fn trim_start(s: Seq<char>) -> Seq<char>
    decreases s.len(),
{
    if s.len() > 0 && white_space(s[0]) {
        trim_start(s.skip(1))
    } else {
        s
    }
}

pub open spec fn trim_end(s: Seq<char>) -> Seq<char>
    decreases s.len(),
{
    if s.len() > 0 && white_space(s.last()) {
        trim_end(s.drop_last())
    } else {
        s
    }
}

/// `s` without white space at either end, as `str::trim` gives it.
pub open spec fn trim(s: Seq<char>) -> Seq<char> {
    trim_end(trim_start(s))
}

/// The bounds of `trim(s)` within `s`.
fn trim_bounds(s: &Vec<char>) -> (r: (usize, usize))
    ensures
        r.0 <= r.1 <= s@.len(),
        s@.subrange(r.0 as int, r.1 as int) == trim(s@),
{
    let mut a: usize = 0;
    assert(s@.skip(0) =~= s@);
    while a < s.len() && is_white_space(s[a])
        invariant
            0 <= a <= s@.len(),
            trim_start(s@) == trim_start(s@.skip(a as int)),
        decreases s.len() - a,
    {
        assert(s@.skip(a as int).skip(1) =~= s@.skip(a + 1));
        a += 1;
    }
    let ghost t = s@.skip(a as int);
    assert(trim_start(s@) == t);
    let mut b: usize = s.len();
    while b > a && is_white_space(s[b - 1])
        invariant
            a <= b <= s@.len(),
            t == s@.skip(a as int),
            trim_end(t) == trim_end(s@.subrange(a as int, b as int)),
        decreases b,
    {
        assert(s@.subrange(a as int, b as int).drop_last() =~= s@.subrange(a as int, b - 1));
        b -= 1;
    }
    assert(s@.skip(a as int) =~= s@.subrange(a as int, s@.len() as int));
    (a, b)
}

// ---------------------------------------------------------------- numbers

/// An ASCII digit, `0` to `9`.
pub open spec fn is_digit(c: char) -> bool {
    48 <= (c as u32) <= 57
}

pub open spec fn digits_value(s: Seq<char>) -> nat
    decreases s.len(),
{
    if s.len() == 0 {
        0
    } else {
        digits_value(s.drop_last()) * 10 + (s.last() as u32 - 48) as nat
    }
}

pub open spec fn all_digits(d: Seq<char>) -> bool {
    forall|i: int| 0 <= i < d.len() ==> is_digit(#[trigger] d[i])
}

/// The number that `s` denotes as Rust reads an unsigned integer: an optional
/// `+`, then one or more ASCII digits.
pub open spec fn unsigned_text(s: Seq<char>) -> Option<nat> {
    let d = if s.len() > 0 && s[0] == '+' {
        s.skip(1)
    } else {
        s
    };
    if d.len() > 0 && all_digits(d) {
        Some(digits_value(d))
    } else {
        None
    }
}

/// What `str::parse` gives for an unsigned type whose largest value is `max`.
pub open spec fn parse_unsigned(s: Seq<char>, max: nat) -> Option<nat> {
    match unsigned_text(s) {
        Some(v) => if v <= max {
            Some(v)
        } else {
            None
        },
        None => None,
    }
}

proof fn lemma_digits_prefix(s: Seq<char>, i: int)
    requires
        0 <= i <= s.len(),
        forall|k: int| 0 <= k < s.len() ==> is_digit(#[trigger] s[k]),
    ensures
        digits_value(s.take(i)) <= digits_value(s),
    decreases s.len(),
{
    if i < s.len() {
        assert(s.drop_last().take(i) =~= s.take(i));
        lemma_digits_prefix(s.drop_last(), i);
    } else {
        assert(s.take(i) =~= s);
    }
}

fn parse_digits(s: &Vec<char>, max: u64) -> (r: Option<u64>)
    requires
        9 <= max,
    ensures
        r == (match parse_unsigned(s@, max as nat) {
            Some(v) => Some(v as u64),
            None => None,
        }),
{
    let mut i: usize = 0;
    if s.len() > 0 && s[0] == '+' {
        i = 1;
    }
    let ghost d = s@.skip(i as int);
    assert(d == (if s@.len() > 0 && s@[0] == '+' { s@.skip(1) } else { s@ })) by {
        assert(s@.skip(0) =~= s@);
    }
    if i == s.len() {
        return None;
    }
    let start = i;
    let mut value: u64 = 0;
    while i < s.len()
        invariant
            start <= i <= s@.len(),
            start < s@.len(),
            9 <= max,
            d == s@.skip(start as int),
            d == (if s@.len() > 0 && s@[0] == '+' {
                s@.skip(1)
            } else {
                s@
            }),
            value == digits_value(d.take(i - start)),
            value <= max,
            forall|k: int| 0 <= k < i - start ==> is_digit(#[trigger] d[k]),
        decreases s.len() - i,
    {
        let c = s[i];
        assert(d[i - start] == c);
        let u = c as u32;
        if u < 48 || u > 57 {
            assert(!is_digit(d[i - start]));
            assert(!all_digits(d));
            return None;
        }
        let digit = (u - 48) as u64;
        assert(d.take(i - start + 1).drop_last() =~= d.take(i - start));
        if value > (max - digit) / 10 {
            proof {
                assert(value * 10 + digit > max) by (nonlinear_arith)
                    requires
                        value > (max - digit) / 10,
                        digit <= max,
                ;
                let n = i - start;
                assert(d.take(n + 1).last() == c);
                assert(digits_value(d.take(n + 1)) == value * 10 + digit);
                if all_digits(d) {
                    lemma_digits_prefix(d, n + 1);
                }
            }
            return None;
        }
        value = value * 10 + digit;
        i += 1;
    }
    assert(d.take(d.len() as int) =~= d);
    Some(value)
}

// ---------------------------------------------------------------- records

pub open spec fn sf_tag() -> Seq<char> {
    seq!['S', 'F', ':']
}

pub open spec fn da_tag() -> Seq<char> {
    seq!['D', 'A', ':']
}

pub open spec fn end_tag() -> Seq<char> {
    seq!['e', 'n', 'd', '_', 'o', 'f', '_', 'r', 'e', 'c', 'o', 'r', 'd']
}

/// The first comma of `s`, if any.
pub open spec fn first_comma(s: Seq<char>) -> Option<int> {
    if exists|k: int| 0 <= k < s.len() && s[k] == ',' {
        Some(
            choose|k: int|
                0 <= k < s.len() && s[k] == ',' && (forall|j: int| 0 <= j < k ==> s[j] != ','),
        )
    } else {
        None
    }
}

/// The line number and hit count of the text after `DA:`: two numbers
/// split at the first comma.
pub open spec fn da_entry(rest: Seq<char>) -> Option<(usize, u64)> {
    match first_comma(rest) {
        Some(k) => match (
            parse_unsigned(rest.take(k), usize::MAX as nat),
            parse_unsigned(rest.skip(k + 1), u64::MAX as nat),
        ) {
            (Some(ln), Some(hits)) => Some((ln as usize, hits as u64)),
            _ => None,
        },
        None => None,
    }
}

/// Where reading stands between two lines.
pub struct LcovState {
    /// Coverage of each file whose record has ended.
    pub done: Map<Seq<char>, Map<usize, u64>>,
    /// Path of the record being read.
    pub file: Seq<char>,
    /// Lines of the record being read.
    pub lines: Map<usize, u64>,
}

pub open spec fn lcov_start() -> LcovState {
    LcovState { done: Map::empty(), file: Seq::empty(), lines: Map::empty() }
}

/// Reads one line. Lines that are none of `SF:`, a well-formed `DA:` and
/// `end_of_record` change nothing.
pub open spec fn lcov_step(st: LcovState, line: Seq<char>) -> LcovState {
    let t = trim(line);
    if starts_with(t, sf_tag()) {
        LcovState { done: st.done, file: t.skip(3), lines: Map::empty() }
    } else if starts_with(t, da_tag()) {
        match da_entry(t.skip(3)) {
            Some((ln, hits)) => LcovState {
                done: st.done,
                file: st.file,
                lines: st.lines.insert(ln, hits),
            },
            None => st,
        }
    } else if t == end_tag() && st.file.len() > 0 {
        LcovState { done: st.done.insert(st.file, st.lines), file: st.file, lines: Map::empty() }
    } else {
        st
    }
}

/// The lines of `s`, split at each `\n`; the last may be empty.
pub open spec fn split_lines(s: Seq<char>) -> Seq<Seq<char>> {
    split_on(s, '\n')
}

pub open spec fn lcov_run(st: LcovState, lines: Seq<Seq<char>>) -> LcovState
    decreases lines.len(),
{
    if lines.len() == 0 {
        st
    } else {
        lcov_step(lcov_run(st, lines.drop_last()), lines.last())
    }
}

/// The coverage that LCOV text records, by file path.
pub open spec fn lcov_of(content: Seq<char>) -> Map<Seq<char>, Map<usize, u64>> {
    lcov_run(lcov_start(), split_lines(content)).done
}

/// The line coverage of one file.
pub struct FileCoverage {
    pub path: String,
    pub lines: LineCoverage,
}

/// Line coverage by file path; each path at most once.
pub struct CoverageMap {
    pub files: Vec<FileCoverage>,
}

pub open spec fn records_view(s: Seq<FileCoverage>) -> Map<Seq<char>, Map<usize, u64>>
    decreases s.len(),
{
    if s.len() == 0 {
        Map::empty()
    } else {
        records_view(s.drop_last()).insert(s.last().path@, s.last().lines@)
    }
}

pub open spec fn unique_paths(s: Seq<FileCoverage>) -> bool {
    forall|i: int, j: int| 0 <= i < j < s.len() ==> s[i].path@ != s[j].path@
}

impl View for CoverageMap {
    type V = Map<Seq<char>, Map<usize, u64>>;

    open spec fn view(&self) -> Map<Seq<char>, Map<usize, u64>> {
        records_view(self.files@)
    }
}

/// A path is in the map when a record has it; the last such record gives its lines.
proof fn lemma_records_view(s: Seq<FileCoverage>, k: Seq<char>, i: int)
    ensures
        records_view(s).contains_key(k) <==> exists|j: int| 0 <= j < s.len() && #[trigger] s[j].path@ == k,
        0 <= i < s.len() && s[i].path@ == k && (forall|j: int| i < j < s.len() ==> #[trigger] s[j].path@ != k)
            ==> records_view(s)[k] == s[i].lines@,
    decreases s.len(),
{
    if s.len() > 0 {
        let p = s.drop_last();
        lemma_records_view(p, k, i);
        if records_view(p).contains_key(k) {
            let j = choose|j: int| 0 <= j < p.len() && #[trigger] p[j].path@ == k;
            assert(s[j].path@ == k);
        }
        if exists|j: int| 0 <= j < s.len() && #[trigger] s[j].path@ == k {
            let j = choose|j: int| 0 <= j < s.len() && #[trigger] s[j].path@ == k;
            if j < p.len() {
                assert(p[j].path@ == k);
            }
        }
        if 0 <= i < s.len() - 1 && s[i].path@ == k && (forall|j: int|
            i < j < s.len() ==> #[trigger] s[j].path@ != k) {
            assert(s.last().path@ != k);
            assert forall|j: int| i < j < p.len() implies #[trigger] p[j].path@ != k by {
                assert(s[j].path@ != k);
            }
        }
    }
}

proof fn lemma_records_update(s: Seq<FileCoverage>, i: int, r: FileCoverage)
    requires
        unique_paths(s),
        0 <= i < s.len(),
        s[i].path@ == r.path@,
    ensures
        unique_paths(s.update(i, r)),
        records_view(s.update(i, r)) == records_view(s).insert(r.path@, r.lines@),
{
    let t = s.update(i, r);
    assert forall|a: int, b: int| 0 <= a < b < t.len() implies t[a].path@ != t[b].path@ by {
        assert(s[a].path@ != s[b].path@);
    }
    let m = records_view(s).insert(r.path@, r.lines@);
    assert forall|k: Seq<char>| #[trigger] records_view(t).contains_key(k) <==> m.contains_key(k) by {
        lemma_records_view(t, k, 0);
        lemma_records_view(s, k, 0);
        if exists|j: int| 0 <= j < s.len() && #[trigger] s[j].path@ == k {
            let j = choose|j: int| 0 <= j < s.len() && #[trigger] s[j].path@ == k;
            assert(t[j].path@ == k);
        }
        if exists|j: int| 0 <= j < t.len() && #[trigger] t[j].path@ == k {
            let j = choose|j: int| 0 <= j < t.len() && #[trigger] t[j].path@ == k;
            assert(s[j].path@ == k);
        }
    }
    assert forall|k: Seq<char>| #[trigger] records_view(t).contains_key(k) implies records_view(t)[k]
        == m[k] by {
        lemma_records_view(t, k, 0);
        let j = choose|j: int| 0 <= j < t.len() && #[trigger] t[j].path@ == k;
        assert(forall|x: int| j < x < t.len() ==> #[trigger] t[x].path@ != k);
        lemma_records_view(t, k, j);
        if k != r.path@ {
            assert(s[j].path@ == k);
            assert forall|x: int| j < x < s.len() implies #[trigger] s[x].path@ != k by {
                assert(t[x].path@ != k);
            }
            lemma_records_view(s, k, j);
        } else {
            assert(j == i);
        }
    }
    assert(records_view(t) =~= m);
}

/// Whether two strings hold the same characters.
fn same_text(a: &str, b: &str) -> (r: bool)
    ensures
        r == (a@ == b@),
{
    let x = chars_of(a);
    let y = chars_of(b);
    if x.len() != y.len() {
        return false;
    }
    let r = starts_with_chars(&x, &y);
    assert(x@.take(y@.len() as int) =~= x@);
    r
}

impl CoverageMap {
    pub fn new() -> (r: CoverageMap)
        ensures
            r@ == Map::<Seq<char>, Map<usize, u64>>::empty(),
            unique_paths(r.files@),
    {
        CoverageMap { files: Vec::new() }
    }

    /// The number of files.
    pub fn len(&self) -> (r: usize)
        requires
            unique_paths(self.files@),
        ensures
            r == self@.dom().len(),
    {
        proof {
            lemma_unique_len(self.files@);
        }
        self.files.len()
    }

    /// Sets the coverage of `path`, replacing what it had.
    pub fn insert(&mut self, path: String, lines: LineCoverage)
        requires
            unique_paths(old(self).files@),
        ensures
            unique_paths(final(self).files@),
            final(self)@ == old(self)@.insert(path@, lines@),
    {
        let mut i: usize = 0;
        while i < self.files.len()
            invariant
                0 <= i <= self.files@.len(),
                self.files@ == old(self).files@,
                unique_paths(self.files@),
                forall|j: int| 0 <= j < i ==> #[trigger] self.files@[j].path@ != path@,
            decreases self.files.len() - i,
        {
            if same_text(self.files[i].path.as_str(), path.as_str()) {
                let rec = FileCoverage { path, lines };
                proof {
                    lemma_records_update(self.files@, i as int, rec);
                }
                self.files.set(i, rec);
                return;
            }
            i += 1;
        }
        let rec = FileCoverage { path, lines };
        self.files.push(rec);
        assert(self.files@.drop_last() =~= old(self).files@);
    }

    /// The coverage of `path`, if the map has it.
    pub fn get(&self, path: &str) -> (r: Option<&LineCoverage>)
        ensures
            match r {
                Some(l) => self@.contains_key(path@) && l@ == self@[path@],
                None => !self@.contains_key(path@),
            },
    {
        let mut i: usize = self.files.len();
        while i > 0
            invariant
                0 <= i <= self.files@.len(),
                forall|j: int| i <= j < self.files@.len() ==> #[trigger] self.files@[j].path@ != path@,
            decreases i,
        {
            i -= 1;
            if same_text(self.files[i].path.as_str(), path) {
                proof {
                    lemma_records_view(self.files@, path@, i as int);
                }
                return Some(&self.files[i].lines);
            }
        }
        proof {
            lemma_records_view(self.files@, path@, 0);
        }
        None
    }

    /// Whether the map has `path`.
    pub fn contains_key(&self, path: &str) -> (r: bool)
        ensures
            r == self@.contains_key(path@),
    {
        self.get(path).is_some()
    }
}

proof fn lemma_unique_len(s: Seq<FileCoverage>)
    requires
        unique_paths(s),
    ensures
        records_view(s).dom().len() == s.len(),
        records_view(s).dom().finite(),
    decreases s.len(),
{
    if s.len() > 0 {
        let p = s.drop_last();
        assert(unique_paths(p));
        lemma_unique_len(p);
        lemma_records_view(p, s.last().path@, 0);
        if records_view(p).contains_key(s.last().path@) {
            let j = choose|j: int| 0 <= j < p.len() && #[trigger] p[j].path@ == s.last().path@;
            assert(s[j].path@ == s[s.len() - 1].path@);
        }
    }
}

/// Reads the text after `DA:`.
fn read_da_entry(rest: &Vec<char>) -> (r: Option<(usize, u64)>)
    ensures
        r == da_entry(rest@),
{
    let mut k: usize = 0;
    while k < rest.len() && rest[k] != ','
        invariant
            0 <= k <= rest@.len(),
            forall|j: int| 0 <= j < k ==> rest@[j] != ',',
        decreases rest.len() - k,
    {
        k += 1;
    }
    if k == rest.len() {
        assert(!exists|j: int| 0 <= j < rest@.len() && rest@[j] == ',');
        return None;
    }
    proof {
        assert(exists|j: int| 0 <= j < rest@.len() && rest@[j] == ',');
        let c = first_comma(rest@)->0;
        assert(0 <= c < rest@.len() && rest@[c] == ',' && forall|j: int| 0 <= j < c ==> rest@[j] != ',');
        if c < k {
            assert(rest@[c] != ',');
        }
        if c > k {
            assert(rest@[k as int] != ',');
        }
        assert(c == k);
    }
    let line = sub_chars(rest, 0, k);
    let hits = sub_chars(rest, k + 1, rest.len());
    assert(line@ =~= rest@.take(k as int));
    assert(hits@ =~= rest@.skip(k + 1));
    match (parse_digits(&line, usize::MAX as u64), parse_digits(&hits, u64::MAX)) {
        (Some(ln), Some(h)) => Some((ln as usize, h)),
        _ => None,
    }
}

pub open spec fn state_of(done: CoverageMap, file: Seq<char>, lines: Map<usize, u64>) -> LcovState {
    LcovState { done: done@, file, lines }
}

/// Reads one line of LCOV text into the reading state.
fn read_line(
    line: &Vec<char>,
    done: &mut CoverageMap,
    file: &mut Vec<char>,
    lines: &mut LineCoverage,
)
    requires
        unique_paths(old(done).files@),
    ensures
        unique_paths(final(done).files@),
        state_of(*final(done), final(file)@, final(lines)@) == lcov_step(
            state_of(*old(done), old(file)@, old(lines)@),
            line@,
        ),
{
    broadcast use vstd::std_specs::hash::group_hash_axioms;

    let (a, b) = trim_bounds(line);
    let t = sub_chars(line, a, b);
    let sf = vec!['S', 'F', ':'];
    let da = vec!['D', 'A', ':'];
    let end = vec!['e', 'n', 'd', '_', 'o', 'f', '_', 'r', 'e', 'c', 'o', 'r', 'd'];
    assert(sf@ =~= sf_tag());
    assert(da@ =~= da_tag());
    assert(end@ =~= end_tag());
    if starts_with_chars(&t, &sf) {
        *file = sub_chars(&t, 3, t.len());
        *lines = HashMap::new();
        assert(file@ =~= t@.skip(3));
    } else if starts_with_chars(&t, &da) {
        let rest = sub_chars(&t, 3, t.len());
        assert(rest@ =~= t@.skip(3));
        match read_da_entry(&rest) {
            Some((ln, hits)) => {
                lines.insert(ln, hits);
            },
            None => {},
        }
    } else if t.len() == end.len() && starts_with_chars(&t, &end) && file.len() > 0 {
        assert(t@ =~= t@.take(end@.len() as int));
        let mut finished: LineCoverage = HashMap::new();
        std::mem::swap(lines, &mut finished);
        let path = string_of(sub_chars(file, 0, file.len()));
        assert(file@.subrange(0, file@.len() as int) =~= file@);
        done.insert(path, finished);
    } else {
        proof {
            if t@ == end_tag() {
                assert(t@.take(end@.len() as int) =~= t@);
            }
        }
    }
}

/// Line coverage by file, from LCOV text: `SF:<path>` opens a file's record,
/// `DA:<line>,<hits>` gives a line, `end_of_record` stores the record. A later
/// record of the same file replaces an earlier one; lines that are none of
/// these, or that do not parse, are passed over.
pub fn parse_lcov(content: &str) -> (r: CoverageMap)
    ensures
        r@ == lcov_of(content@),
        unique_paths(r.files@),
{
    broadcast use vstd::std_specs::hash::group_hash_axioms;

    let cs = chars_of(content);
    let mut done = CoverageMap::new();
    let mut file: Vec<char> = Vec::new();
    let mut lines: LineCoverage = HashMap::new();
    let mut cur: Vec<char> = Vec::new();
    let mut i: usize = 0;
    assert(cs@.take(0) =~= Seq::<char>::empty());
    assert(split_lines(Seq::<char>::empty()).drop_last() =~= Seq::<Seq<char>>::empty());
    while i < cs.len()
        invariant
            0 <= i <= cs@.len(),
            unique_paths(done.files@),
            split_lines(cs@.take(i as int)).len() >= 1,
            split_lines(cs@.take(i as int)).last() == cur@,
            lcov_run(lcov_start(), split_lines(cs@.take(i as int)).drop_last()) == state_of(
                done,
                file@,
                lines@,
            ),
        decreases cs.len() - i,
    {
        let c = cs[i];
        let ghost p = split_lines(cs@.take(i as int));
        assert(cs@.take(i + 1).drop_last() =~= cs@.take(i as int));
        assert(cs@.take(i + 1).last() == c);
        if c == '\n' {
            assert(p.push(Seq::empty()).drop_last() =~= p);
            assert(p =~= p.drop_last().push(p.last()));
            read_line(&cur, &mut done, &mut file, &mut lines);
            cur = Vec::new();
        } else {
            let ghost q = p.update(p.len() - 1, p.last().push(c));
            assert(q.drop_last() =~= p.drop_last());
            cur.push(c);
        }
        i += 1;
        proof {
            lemma_split_nonempty(cs@.take(i as int), '\n');
        }
    }
    assert(cs@.take(cs@.len() as int) =~= cs@);
    let ghost all = split_lines(content@);
    assert(all =~= all.drop_last().push(all.last()));
    read_line(&cur, &mut done, &mut file, &mut lines);
    done
}

/// One path ends with the other.
pub open spec fn suffix_related(a: Seq<char>, b: Seq<char>) -> bool {
    ends_with(a, b) || ends_with(b, a)
}

fn suffix_related_exec(a: &str, b: &str) -> (r: bool)
    ensures
        r == suffix_related(a@, b@),
{
    let x = chars_of(a);
    let y = chars_of(b);
    ends_with_chars(&x, &y) || ends_with_chars(&y, &x)
}

/// The coverage of a source file: the record of its exact path, else the
/// first record whose path ends with it or that it ends with, else none.
pub fn find_coverage_for_file(source_path: &str, file_coverage: &CoverageMap) -> (r: LineCoverage)
    requires
        unique_paths(file_coverage.files@),
    ensures
        file_coverage@.contains_key(source_path@) ==> r@ == file_coverage@[source_path@],
        !file_coverage@.contains_key(source_path@) ==> {
            let fs = file_coverage.files@;
            if exists|j: int| 0 <= j < fs.len() && suffix_related(#[trigger] fs[j].path@, source_path@) {
                exists|j: int|
                    0 <= j < fs.len() && suffix_related(#[trigger] fs[j].path@, source_path@) && (
                    forall|k: int| 0 <= k < j ==> !suffix_related(#[trigger] fs[k].path@, source_path@))
                        && r@ == fs[j].lines@
            } else {
                r@ == Map::<usize, u64>::empty()
            }
        },
{
    if let Some(cov) = file_coverage.get(source_path) {
        return cov.clone();
    }
    let fs = &file_coverage.files;
    let mut i: usize = 0;
    while i < fs.len()
        invariant
            0 <= i <= fs@.len(),
            fs@ == file_coverage.files@,
            !file_coverage@.contains_key(source_path@),
            forall|k: int| 0 <= k < i ==> !suffix_related(#[trigger] fs@[k].path@, source_path@),
        decreases fs.len() - i,
    {
        if suffix_related_exec(fs[i].path.as_str(), source_path) {
            let r = fs[i].lines.clone();
            assert(suffix_related(fs@[i as int].path@, source_path@) && r@ == fs@[i as int].lines@);
            return r;
        }
        i += 1;
    }
    HashMap::new()
}

} // verus!
