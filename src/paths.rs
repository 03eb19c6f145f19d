//! Paths as `/`-separated components, and removing a leading directory.
use vstd::prelude::*;

use crate::text::{lemma_split_nonempty, split_on, starts_with_chars, sub_chars};

verus! {

pub open spec fn views(s: Seq<Vec<char>>) -> Seq<Seq<char>> {
    s.map_values(|v: Vec<char>| v@)
}

/// A piece between two `/` that names no component: empty (a doubled or
/// trailing `/`) or `.`.
pub open spec fn is_filler(seg: Seq<char>) -> bool {
    seg.len() == 0 || seg == seq!['.']
}

/// The pieces of `p` between separators.
pub open spec fn pieces(p: Seq<char>) -> Seq<Seq<char>> {
    split_on(p, '/')
}

/// How a path begins: `1` at the root (`/...`), `2` at the current
/// directory (`.` or `./...`), `0` at a plain component.
pub open spec fn head_kind(p: Seq<char>) -> int {
    if p.len() > 0 && p[0] == '/' {
        1
    } else if pieces(p)[0] == seq!['.'] {
        2
    } else {
        0
    }
}

/// The pieces after the root or the leading `.`.
pub open spec fn body_pieces(p: Seq<char>) -> Seq<Seq<char>> {
    if head_kind(p) == 0 {
        pieces(p)
    } else {
        pieces(p).skip(1)
    }
}

/// The named components among pieces, in order.
pub open spec fn components(segs: Seq<Seq<char>>) -> Seq<Seq<char>>
    decreases segs.len(),
{
    if segs.len() == 0 {
        Seq::empty()
    } else if is_filler(segs.last()) {
        components(segs.drop_last())
    } else {
        components(segs.drop_last()).push(segs.last())
    }
}

/// The pieces that remain of `ps` once its components have matched all of
/// `dc`; `None` where a component differs or `ps` ends first.
pub open spec fn strip_components(ps: Seq<Seq<char>>, dc: Seq<Seq<char>>) -> Option<Seq<Seq<char>>>
    decreases ps.len(),
{
    if dc.len() == 0 {
        Some(ps)
    } else if ps.len() == 0 {
        None
    } else if is_filler(ps[0]) {
        strip_components(ps.skip(1), dc)
    } else if ps[0] == dc[0] {
        strip_components(ps.skip(1), dc.skip(1))
    } else {
        None
    }
}

pub open spec fn trim_start_pieces(s: Seq<Seq<char>>) -> Seq<Seq<char>>
    decreases s.len(),
{
    if s.len() > 0 && is_filler(s[0]) {
        trim_start_pieces(s.skip(1))
    } else {
        s
    }
}

pub open spec fn trim_end_pieces(s: Seq<Seq<char>>) -> Seq<Seq<char>>
    decreases s.len(),
{
    if s.len() > 0 && is_filler(s.last()) {
        trim_end_pieces(s.drop_last())
    } else {
        s
    }
}

/// Pieces joined with `/`.
pub open spec fn join_pieces(s: Seq<Seq<char>>) -> Seq<char>
    decreases s.len(),
{
    if s.len() == 0 {
        Seq::empty()
    } else if s.len() == 1 {
        s[0]
    } else {
        join_pieces(s.drop_last()) + seq!['/'] + s.last()
    }
}

/// The part of `p` below directory `d`, compared component by component as
/// `Path::strip_prefix` does, without the separators and `.` that lead or
/// trail it; `p` itself where `d`'s components do not begin `p`'s. A rooted
/// or `.`-led `p` under a `d` without any component is kept whole.
pub open spec fn strip_dir(p: Seq<char>, d: Seq<char>) -> Seq<char> {
    let dc = components(body_pieces(d));
    if head_kind(d) == 0 && dc.len() == 0 && head_kind(p) != 0 {
        p
    } else if head_kind(p) != head_kind(d) {
        p
    } else {
        match strip_components(body_pieces(p), dc) {
            Some(rest) => join_pieces(trim_end_pieces(trim_start_pieces(rest))),
            None => p,
        }
    }
}

/// `s` cut at each `/`.
fn split_slash(s: &Vec<char>) -> (r: Vec<Vec<char>>)
    ensures
        views(r@) == pieces(s@),
{
    let mut out: Vec<Vec<char>> = Vec::new();
    let mut cur: Vec<char> = Vec::new();
    let mut i: usize = 0;
    assert(s@.take(0) =~= Seq::<char>::empty());
    assert(views(out@).push(cur@) =~= split_on(Seq::<char>::empty(), '/'));
    while i < s.len()
        invariant
            0 <= i <= s@.len(),
            views(out@).push(cur@) == split_on(s@.take(i as int), '/'),
        decreases s.len() - i,
    {
        let c = s[i];
        let ghost p = split_on(s@.take(i as int), '/');
        assert(s@.take(i + 1).drop_last() =~= s@.take(i as int));
        assert(s@.take(i + 1).last() == c);
        if c == '/' {
            let done = cur;
            out.push(done);
            cur = Vec::new();
            assert(views(out@).push(cur@) =~= p.push(Seq::empty()));
        } else {
            let ghost before = views(out@);
            cur.push(c);
            assert(views(out@).push(cur@) =~= p.update(p.len() - 1, p.last().push(c)));
        }
        i += 1;
    }
    assert(s@.take(s@.len() as int) =~= s@);
    out.push(cur);
    assert(views(out@) =~= split_on(s@, '/'));
    out
}

fn same_chars(a: &Vec<char>, b: &Vec<char>) -> (r: bool)
    ensures
        r == (a@ == b@),
{
    if a.len() != b.len() {
        return false;
    }
    let r = starts_with_chars(a, b);
    assert(a@.take(b@.len() as int) =~= a@);
    r
}

fn filler(seg: &Vec<char>) -> (r: bool)
    ensures
        r == is_filler(seg@),
{
    if seg.len() == 0 {
        return true;
    }
    if seg.len() == 1 && seg[0] == '.' {
        assert(seg@ =~= seq!['.']);
        return true;
    }
    proof {
        if seg@ == seq!['.'] {
            assert(seg@[0] == '.');
        }
    }
    false
}

fn head_of(p: &Vec<char>, ps: &Vec<Vec<char>>) -> (r: (u8, usize))
    requires
        views(ps@) == pieces(p@),
    ensures
        r.0 as int == head_kind(p@),
        r.1 <= ps@.len(),
        views(ps@).skip(r.1 as int) == body_pieces(p@),
{
    proof {
        lemma_split_nonempty(p@, '/');
    }
    assert(views(ps@)[0] == ps@[0]@);
    assert(views(ps@).skip(0) =~= views(ps@));
    if p.len() > 0 && p[0] == '/' {
        (1, 1)
    } else {
        let dot = vec!['.'];
        assert(dot@ =~= seq!['.']);
        if same_chars(&ps[0], &dot) {
            (2, 1)
        } else {
            (0, 0)
        }
    }
}

/// Appends the characters of `s` to `out`.
fn extend_chars(out: &mut Vec<char>, s: &Vec<char>)
    ensures
        final(out)@ == old(out)@ + s@,
{
    let mut k: usize = 0;
    while k < s.len()
        invariant
            0 <= k <= s@.len(),
            out@ == old(out)@ + s@.take(k as int),
        decreases s.len() - k,
    {
        out.push(s[k]);
        k += 1;
        assert(out@ =~= old(out)@ + s@.take(k as int));
    }
    assert(s@.take(s@.len() as int) =~= s@);
}

/// The directory's components: the named pieces from `from` on.
fn components_from(ps: &Vec<Vec<char>>, from: usize) -> (r: Vec<Vec<char>>)
    requires
        from <= ps@.len(),
    ensures
        views(r@) == components(views(ps@).skip(from as int)),
{
    let ghost all = views(ps@);
    let mut out: Vec<Vec<char>> = Vec::new();
    let mut i: usize = from;
    assert(all.subrange(from as int, from as int) =~= Seq::<Seq<char>>::empty());
    assert(views(out@) =~= Seq::<Seq<char>>::empty());
    while i < ps.len()
        invariant
            from <= i <= ps@.len(),
            all == views(ps@),
            views(out@) == components(all.subrange(from as int, i as int)),
        decreases ps.len() - i,
    {
        assert(all.subrange(from as int, i + 1).drop_last() =~= all.subrange(from as int, i as int));
        assert(all.subrange(from as int, i + 1).last() == ps@[i as int]@);
        if !filler(&ps[i]) {
            let seg = sub_chars(&ps[i], 0, ps[i].len());
            assert(seg@ =~= ps@[i as int]@);
            out.push(seg);
            assert(views(out@) =~= components(all.subrange(from as int, i as int)).push(
                ps@[i as int]@,
            ));
        }
        i += 1;
    }
    assert(all.subrange(from as int, ps@.len() as int) =~= all.skip(from as int));
    out
}

/// The part of path `p` below directory `d`, as `strip_dir` states it.
pub fn strip_dir_chars(p: &Vec<char>, d: &Vec<char>) -> (r: Vec<char>)
    ensures
        r@ == strip_dir(p@, d@),
{
    let ps = split_slash(p);
    let ds = split_slash(d);
    let (hp, pb) = head_of(p, &ps);
    let (hd, db) = head_of(d, &ds);
    let dc = components_from(&ds, db);
    let ghost pss = views(ps@);
    let ghost dcs = views(dc@);
    let whole = sub_chars(p, 0, p.len());
    assert(whole@ =~= p@);
    if (hd == 0 && dc.len() == 0 && hp != 0) || hp != hd {
        return whole;
    }
    // Match the directory's components against the path's pieces.
    let mut i: usize = pb;
    let mut j: usize = 0;
    assert(dcs.skip(0) =~= dcs);
    while j < dc.len()
        invariant
            pb <= i <= ps@.len(),
            0 <= j <= dc@.len(),
            pss == views(ps@),
            dcs == views(dc@),
            hp as int == head_kind(p@),
            hd as int == head_kind(d@),
            hp == hd,
            !(hd == 0 && dc@.len() == 0 && hp != 0),
            pss.skip(pb as int) == body_pieces(p@),
            dcs == components(body_pieces(d@)),
            whole@ == p@,
            strip_components(pss.skip(pb as int), dcs) == strip_components(
                pss.skip(i as int),
                dcs.skip(j as int),
            ),
        decreases ps@.len() - i, dc@.len() - j,
    {
        if i == ps.len() {
            assert(pss.skip(i as int).len() == 0);
            return whole;
        }
        assert(pss.skip(i as int).skip(1) =~= pss.skip(i + 1));
        assert(dcs.skip(j as int).skip(1) =~= dcs.skip(j + 1));
        assert(pss.skip(i as int)[0] == ps@[i as int]@);
        assert(dcs.skip(j as int)[0] == dc@[j as int]@);
        if filler(&ps[i]) {
            i += 1;
        } else if same_chars(&ps[i], &dc[j]) {
            i += 1;
            j += 1;
        } else {
            return whole;
        }
    }
    assert(dcs.skip(j as int).len() == 0);
    // Drop the separators and `.` that lead or trail what remains.
    let mut a: usize = i;
    while a < ps.len() && filler(&ps[a])
        invariant
            i <= a <= ps@.len(),
            pss == views(ps@),
            trim_start_pieces(pss.skip(i as int)) == trim_start_pieces(pss.skip(a as int)),
        decreases ps@.len() - a,
    {
        assert(pss.skip(a as int).skip(1) =~= pss.skip(a + 1));
        assert(pss.skip(a as int)[0] == ps@[a as int]@);
        a += 1;
    }
    proof {
        if a < ps@.len() {
            assert(pss.skip(a as int)[0] == ps@[a as int]@);
        }
    }
    let mut b: usize = ps.len();
    assert(pss.skip(a as int) =~= pss.subrange(a as int, b as int));
    while b > a && filler(&ps[b - 1])
        invariant
            a <= b <= ps@.len(),
            pss == views(ps@),
            trim_end_pieces(pss.skip(a as int)) == trim_end_pieces(pss.subrange(a as int, b as int)),
        decreases b,
    {
        assert(pss.subrange(a as int, b as int).drop_last() =~= pss.subrange(a as int, b - 1));
        b -= 1;
    }
    proof {
        if b > a {
            assert(pss.subrange(a as int, b as int).last() == ps@[b - 1]@);
        }
    }
    // Join what remains with `/`.
    let mut out: Vec<char> = Vec::new();
    let mut k: usize = a;
    assert(pss.subrange(a as int, a as int) =~= Seq::<Seq<char>>::empty());
    while k < b
        invariant
            a <= k <= b <= ps@.len(),
            pss == views(ps@),
            out@ == join_pieces(pss.subrange(a as int, k as int)),
        decreases b - k,
    {
        let ghost prev = out@;
        assert(pss.subrange(a as int, k + 1).drop_last() =~= pss.subrange(a as int, k as int));
        assert(pss.subrange(a as int, k + 1).last() == ps@[k as int]@);
        if k > a {
            out.push('/');
        }
        extend_chars(&mut out, &ps[k]);
        proof {
            if k == a {
                assert(pss.subrange(a as int, k + 1).len() == 1);
                assert(out@ =~= ps@[k as int]@);
            } else {
                assert(out@ =~= prev + seq!['/'] + ps@[k as int]@);
            }
        }
        k += 1;
    }
    out
}

} // verus!
