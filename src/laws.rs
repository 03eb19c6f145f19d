//! Facts about complexity counting and extraction, proved from the definitions.
use vstd::prelude::*;

use crate::complexity::{
    body_complexity, cfg_test, fn_units, item_units, items_units, lemma_methods_append,
    lemma_nodes_points_append, methods_units, node_points, nodes_points, qualified, type_label,
    Body, Decision, FnDecl, ImplBlock, Item, ModBlock, Node, TraitBlock, UnitView,
};

verus! {

/// A node that holds a decision point somewhere within it.
pub open spec fn node_branches(n: Node) -> bool
    decreases n,
{
    match n {
        Node::Point(_, _) => true,
        Node::Match(ch) => nodes_branch(ch@),
        Node::Closure(ch) => nodes_branch(ch@),
    }
}

pub open spec fn nodes_branch(s: Seq<Node>) -> bool
    decreases s,
{
    s.len() > 0 && (nodes_branch(s.drop_last()) || node_branches(s.last()))
}

/// The unit that a function with a body reports for itself.
pub open spec fn own_unit(f: FnDecl, owner: Option<Seq<char>>) -> UnitView
    recommends
        f.body is Some,
{
    UnitView {
        name: qualified(owner, f.name@),
        start_line: f.name_line as int,
        end_line: f.body->0.close_line as int,
        complexity: body_complexity(f.body->0),
    }
}

proof fn lemma_node_no_branch(n: Node)
    requires
        !node_branches(n),
    ensures
        node_points(n) == 0,
    decreases n,
{
    match n {
        Node::Point(_, _) => {},
        Node::Match(ch) => lemma_nodes_no_branch(ch@),
        Node::Closure(ch) => lemma_nodes_no_branch(ch@),
    }
}

proof fn lemma_nodes_no_branch(s: Seq<Node>)
    requires
        !nodes_branch(s),
    ensures
        nodes_points(s) == 0,
    decreases s,
{
    if s.len() > 0 {
        lemma_nodes_no_branch(s.drop_last());
        lemma_node_no_branch(s.last());
    }
}

proof fn lemma_points_one(x: Node)
    ensures
        nodes_points(seq![x]) == node_points(x),
{
    assert(seq![x].drop_last() =~= Seq::<Node>::empty());
    assert(nodes_points(Seq::<Node>::empty()) == 0);
    assert(seq![x].last() == x);
}

/// `n2` is `n1` with node `b` in place of node `a`, at `n1` itself or at any
/// depth inside it.
pub open spec fn node_swapped(n1: Node, n2: Node, a: Node, b: Node) -> bool
    decreases n1,
{
    (n1 == a && n2 == b) || match (n1, n2) {
        (Node::Point(d1, c1), Node::Point(d2, c2)) => d1 == d2 && nodes_swapped(c1@, c2@, a, b),
        (Node::Match(c1), Node::Match(c2)) => nodes_swapped(c1@, c2@, a, b),
        (Node::Closure(c1), Node::Closure(c2)) => nodes_swapped(c1@, c2@, a, b),
        _ => false,
    }
}

/// `s2` is `s1` with node `b` in place of node `a` inside exactly one of its
/// nodes, the others unchanged.
pub open spec fn nodes_swapped(s1: Seq<Node>, s2: Seq<Node>, a: Node, b: Node) -> bool
    decreases s1,
{
    s1.len() == s2.len() && exists|k: int|
        0 <= k < s1.len() && node_swapped(#[trigger] s1[k], s2[k], a, b) && forall|j: int|
            0 <= j < s1.len() && j != k ==> s1[j] == s2[j]
}

proof fn lemma_points_split(s: Seq<Node>, k: int)
    requires
        0 <= k < s.len(),
    ensures
        nodes_points(s) == nodes_points(s.take(k)) + node_points(s[k]) + nodes_points(
            s.skip(k + 1),
        ),
{
    lemma_nodes_points_append(s.take(k), seq![s[k]]);
    lemma_nodes_points_append(s.take(k) + seq![s[k]], s.skip(k + 1));
    lemma_points_one(s[k]);
    assert(s.take(k) + seq![s[k]] + s.skip(k + 1) =~= s);
}

proof fn lemma_node_swapped(n1: Node, n2: Node, a: Node, b: Node)
    requires
        node_swapped(n1, n2, a, b),
    ensures
        node_points(n2) as int == node_points(n1) - node_points(a) + node_points(b),
    decreases n1,
{
    if !(n1 == a && n2 == b) {
        match (n1, n2) {
            (Node::Point(_, c1), Node::Point(_, c2)) => lemma_nodes_swapped(c1@, c2@, a, b),
            (Node::Match(c1), Node::Match(c2)) => lemma_nodes_swapped(c1@, c2@, a, b),
            (Node::Closure(c1), Node::Closure(c2)) => lemma_nodes_swapped(c1@, c2@, a, b),
            _ => {},
        }
    }
}

proof fn lemma_nodes_swapped(s1: Seq<Node>, s2: Seq<Node>, a: Node, b: Node)
    requires
        nodes_swapped(s1, s2, a, b),
    ensures
        nodes_points(s2) as int == nodes_points(s1) - node_points(a) + node_points(b),
    decreases s1,
{
    let k = choose|k: int|
        0 <= k < s1.len() && node_swapped(#[trigger] s1[k], s2[k], a, b) && forall|j: int|
            0 <= j < s1.len() && j != k ==> s1[j] == s2[j];
    lemma_node_swapped(s1[k], s2[k], a, b);
    lemma_points_split(s1, k);
    lemma_points_split(s2, k);
    assert(s1.take(k) =~= s2.take(k));
    assert(s1.skip(k + 1) =~= s2.skip(k + 1));
}

/// In any body, putting one more arm without decision points into a `match`,
/// wherever that `match` stands, raises the complexity by exactly one.
pub proof fn law_match_arm_in_body(b1: Body, b2: Body, m1: Node, m2: Node, k: int, arm: Node)
    requires
        m1 is Match,
        m2 is Match,
        0 <= k <= m1->Match_0@.len(),
        m2->Match_0@ == m1->Match_0@.insert(k, arm),
        arm matches Node::Point(Decision::Arm, w) && !nodes_branch(w@),
        nodes_swapped(b1.nodes@, b2.nodes@, m1, m2),
    ensures
        body_complexity(b2) == body_complexity(b1) + 1,
{
    law_match_arm_adds_one(m1, m2, k, arm);
    lemma_nodes_swapped(b1.nodes@, b2.nodes@, m1, m2);
}

/// In any body, an `if`, `&&` or `||` wherever it stands adds exactly one to
/// what its condition, branches or operands count: a body with it has
/// complexity one more than the body with those nodes left in its place.
pub proof fn law_branch_adds_one_in_body(b1: Body, b2: Body, d: Decision, ch: Vec<Node>)
    requires
        d == Decision::If || d == Decision::And || d == Decision::Or,
        nodes_swapped(b1.nodes@, b2.nodes@, Node::Closure(ch), Node::Point(d, ch)),
    ensures
        body_complexity(b2) == body_complexity(b1) + 1,
{
    lemma_nodes_swapped(b1.nodes@, b2.nodes@, Node::Closure(ch), Node::Point(d, ch));
}

/// An `if` with condition `c`, then-branch `t` and else-branch `e` counts
/// one more than the three together; the `else` adds nothing.
pub proof fn law_if_else_parts(n: Node, c: Seq<Node>, t: Seq<Node>, e: Seq<Node>)
    requires
        n matches Node::Point(Decision::If, ch) && ch@ == c + t + e,
    ensures
        node_points(n) == 1 + nodes_points(c) + nodes_points(t) + nodes_points(e),
{
    lemma_nodes_points_append(c, t);
    lemma_nodes_points_append(c + t, e);
}

/// A function that is no test and has a body reports itself first.
pub proof fn lemma_own_unit_first(f: FnDecl, owner: Option<Seq<char>>)
    requires
        f.body is Some,
        !f.is_test,
    ensures
        fn_units(f, owner).len() >= 1,
        fn_units(f, owner)[0] == own_unit(f, owner),
        fn_units(f, owner) == seq![own_unit(f, owner)] + items_units(f.body->0.items@),
{
    let b = f.body->0;
    assert(fn_units(f, owner) == seq![own_unit(f, owner)] + items_units(b.items@));
}

/// A function whose body holds no decision point has complexity 1.
pub proof fn law_straight_line_is_one(f: FnDecl, owner: Option<Seq<char>>)
    requires
        f.body is Some,
        !f.is_test,
        !nodes_branch(f.body->0.nodes@),
    ensures
        fn_units(f, owner)[0].complexity == 1,
{
    lemma_own_unit_first(f, owner);
    lemma_nodes_no_branch(f.body->0.nodes@);
}

/// Inserting one arm without decision points into a `match`, anywhere among
/// its arms, raises the count by exactly one.
pub proof fn law_match_arm_adds_one(m1: Node, m2: Node, k: int, arm: Node)
    requires
        m1 is Match,
        m2 is Match,
        0 <= k <= m1->Match_0@.len(),
        m2->Match_0@ == m1->Match_0@.insert(k, arm),
        arm matches Node::Point(Decision::Arm, w) && !nodes_branch(w@),
    ensures
        node_points(m2) == node_points(m1) + 1,
{
    let s = m1->Match_0@;
    if let Node::Point(_, w) = arm {
        lemma_nodes_no_branch(w@);
    }
    lemma_points_one(arm);
    lemma_nodes_points_append(s.subrange(0, k), seq![arm]);
    lemma_nodes_points_append(s.subrange(0, k) + seq![arm], s.subrange(k, s.len() as int));
    lemma_nodes_points_append(s.subrange(0, k), s.subrange(k, s.len() as int));
    assert(s.subrange(0, k) + seq![arm] + s.subrange(k, s.len() as int) =~= s.insert(k, arm));
    assert(s.subrange(0, k) + s.subrange(k, s.len() as int) =~= s);
}

/// An `if` counts once, whatever its branches hold beside it; with no decision
/// point in condition and branches it counts exactly one.
pub proof fn law_if_counts_once(n: Node)
    requires
        n matches Node::Point(Decision::If, _),
    ensures
        node_points(n) == 1 + nodes_points(n->Point_1@),
        !nodes_branch(n->Point_1@) ==> node_points(n) == 1,
{
    if !nodes_branch(n->Point_1@) {
        lemma_nodes_no_branch(n->Point_1@);
    }
}

/// Each `&&` and each `||` counts one; an `if` whose condition is one `&&`
/// of operands without decision points counts two.
pub proof fn law_logical_ops(op: Node, outer: Node)
    requires
        op matches Node::Point(d, _) && (d == Decision::And || d == Decision::Or),
        outer matches Node::Point(Decision::If, v) && v@ == seq![op],
        !nodes_branch(op->Point_1@),
    ensures
        node_points(op) == 1,
        node_points(outer) == 2,
{
    lemma_nodes_no_branch(op->Point_1@);
    lemma_points_one(op);
}

/// A named function declared in another's body is a unit of its own, whose
/// complexity comes from its own body alone.
pub proof fn law_nested_fn_is_separate(outer: FnDecl, inner: FnDecl)
    requires
        !outer.is_test,
        !inner.is_test,
        outer.body is Some,
        inner.body is Some,
        outer.body->0.items@ == seq![Item::Fn(inner)],
        inner.body->0.items@.len() == 0,
    ensures
        fn_units(outer, None).len() == 2,
        fn_units(outer, None)[0] == own_unit(outer, None),
        fn_units(outer, None)[1] == own_unit(inner, None),
        fn_units(outer, None)[0].complexity == 1 + nodes_points(outer.body->0.nodes@),
        fn_units(outer, None)[1].complexity == 1 + nodes_points(inner.body->0.nodes@),
{
    let items = outer.body->0.items@;
    lemma_own_unit_first(outer, None);
    lemma_own_unit_first(inner, None);
    assert(items.drop_last() =~= Seq::<Item>::empty());
    assert(items_units(inner.body->0.items@) =~= Seq::<UnitView>::empty());
    assert(items_units(items) =~= seq![own_unit(inner, None)]);
}

/// A closure reports no unit: its decision points count toward the function
/// that holds it.
pub proof fn law_closure_folds_in(f: FnDecl, closure: Node)
    requires
        !f.is_test,
        f.body is Some,
        closure is Closure,
        f.body->0.nodes@ == seq![closure],
        f.body->0.items@.len() == 0,
    ensures
        fn_units(f, None).len() == 1,
        fn_units(f, None)[0].complexity == 1 + nodes_points(closure->Closure_0@),
{
    lemma_own_unit_first(f, None);
    lemma_points_one(closure);
    assert(items_units(f.body->0.items@) =~= Seq::<UnitView>::empty());
}

/// A `#[test]` function reports nothing of its own, and a `#[cfg(test)]`
/// module reports nothing at all.
pub proof fn law_tests_are_absent(f: FnDecl, owner: Option<Seq<char>>, m: ModBlock)
    requires
        f.is_test,
        cfg_test(m.attrs@),
    ensures
        f.body is Some ==> fn_units(f, owner) == items_units(f.body->0.items@),
        f.body is None ==> fn_units(f, owner).len() == 0,
        item_units(Item::Mod(m)).len() == 0,
{
    if f.body is Some {
        assert(fn_units(f, owner) =~= items_units(f.body->0.items@));
    }
}

/// The units of method `k` stand among those of its block, in place.
proof fn lemma_method_in_place(s: Seq<FnDecl>, o: Option<Seq<char>>, k: int)
    requires
        0 <= k < s.len(),
    ensures
        ({
            let at = methods_units(s.subrange(0, k), o).len() as int;
            let mine = fn_units(s[k], o);
            at + mine.len() <= methods_units(s, o).len() && methods_units(s, o).subrange(
                at,
                at + mine.len(),
            ) == mine
        }),
{
    let pre = s.subrange(0, k);
    let one = seq![s[k]];
    let post = s.subrange(k + 1, s.len() as int);
    lemma_methods_append(pre, one, o);
    lemma_methods_append(pre + one, post, o);
    assert(pre + one + post =~= s);
    assert(one.drop_last() =~= Seq::<FnDecl>::empty());
    assert(methods_units(Seq::<FnDecl>::empty(), o) + fn_units(s[k], o) =~= fn_units(s[k], o));
    let a = methods_units(pre, o);
    let m = fn_units(s[k], o);
    let c = methods_units(post, o);
    assert((a + m + c).subrange(a.len() as int, (a.len() + m.len()) as int) =~= m);
}

/// A method of `impl T` is reported as `T::name`; a method with a default
/// body in a trait, and a free function, under their bare names.
pub proof fn law_method_names(
    blk: ImplBlock,
    tr: TraitBlock,
    k: int,
    j: int,
    free: FnDecl,
)
    requires
        0 <= k < blk.methods@.len(),
        blk.methods@[k].body is Some,
        !blk.methods@[k].is_test,
        0 <= j < tr.methods@.len(),
        tr.methods@[j].body is Some,
        !tr.methods@[j].is_test,
        free.body is Some,
        !free.is_test,
    ensures
        exists|i: int|
            0 <= i < item_units(Item::Impl(blk)).len() && #[trigger] item_units(Item::Impl(blk))[i].name
                == type_label(blk.self_ty) + seq![':', ':'] + blk.methods@[k].name@,
        exists|i: int|
            0 <= i < item_units(Item::Trait(tr)).len() && #[trigger] item_units(Item::Trait(tr))[i].name
                == tr.methods@[j].name@,
        item_units(Item::Fn(free))[0].name == free.name@,
{
    let o = Some(type_label(blk.self_ty));
    lemma_method_in_place(blk.methods@, o, k);
    lemma_own_unit_first(blk.methods@[k], o);
    let at = methods_units(blk.methods@.subrange(0, k), o).len() as int;
    let all = methods_units(blk.methods@, o);
    assert(all.subrange(at, at + fn_units(blk.methods@[k], o).len())[0] == all[at]);
    assert(item_units(Item::Impl(blk))[at].name == type_label(blk.self_ty) + seq![':', ':']
        + blk.methods@[k].name@);

    lemma_method_in_place(tr.methods@, None, j);
    lemma_own_unit_first(tr.methods@[j], None);
    let at2 = methods_units(tr.methods@.subrange(0, j), None).len() as int;
    let all2 = methods_units(tr.methods@, None);
    assert(all2.subrange(at2, at2 + fn_units(tr.methods@[j], None).len())[0] == all2[at2]);
    assert(item_units(Item::Trait(tr))[at2].name == tr.methods@[j].name@);

    lemma_own_unit_first(free, None);
}

} // verus!
