use vstd::prelude::*;

use crate::text::{chars_of, starts_with_chars};

verus! {

/// The kinds of syntax that are a decision point of their own.
pub enum Decision {
    /// `if` and `if let`; an `else` adds nothing, an `else if` is an `If` of its own.
    If,
    /// `while` and `while let`.
    While,
    /// `for` over an iterator.
    For,
    /// `loop`.
    Loop,
    /// One arm of a `match`.
    Arm,
    /// Short-circuit `&&`.
    And,
    /// Short-circuit `||`.
    Or,
    /// The `?` operator.
    Try,
}

/// The part of a function body that complexity counting reads.
///
/// Syntax that is neither a decision point, a `match` nor a closure is not kept:
/// the nodes found inside it stand in its place.
pub enum Node {
    /// A decision point, with the nodes nested in it (condition, branches,
    /// guard, operands, loop body).
    Point(Decision, Vec<Node>),
    /// A `match`: the nodes of its scrutinee and one `Point(Decision::Arm, ..)` per arm.
    Match(Vec<Node>),
    /// A closure's body: its decision points belong to the enclosing function.
    Closure(Vec<Node>),
}

/// A function body.
pub struct Body {
    /// Line of the closing brace.
    pub close_line: usize,
    /// What the body holds for counting. Named functions declared inside it are not here.
    pub nodes: Vec<Node>,
    /// Declarations that stand as statements of the body.
    pub items: Vec<Item>,
}

/// A free function, a method, or a method declared in a trait.
pub struct FnDecl {
    pub name: String,
    /// Marked `#[test]`.
    pub is_test: bool,
    /// Line of the function's name.
    pub name_line: usize,
    /// `None` for a trait method without a default body.
    pub body: Option<Body>,
}

/// The target type of an `impl` block.
pub enum TypeName {
    /// A plain path, by its segments.
    Path(Vec<String>),
    /// Any other type expression.
    Other,
}

pub struct ImplBlock {
    pub self_ty: TypeName,
    pub methods: Vec<FnDecl>,
}

pub struct TraitBlock {
    pub methods: Vec<FnDecl>,
}

/// An attribute, as far as extraction reads it.
pub struct Attr {
    /// The segments of the attribute's path: `cfg` is `["cfg"]`.
    pub path: Vec<String>,
    /// The paths that head the items of its parenthesised list, in order, up
    /// to and including the first that is not a plain path: `cfg(test)` has
    /// `[["test"]]`, `cfg(all(test, x))` has `[["all"]]`.
    pub nested: Vec<Vec<String>>,
}

pub struct ModBlock {
    pub attrs: Vec<Attr>,
    pub items: Vec<Item>,
}

/// A path of one segment, `name`.
pub open spec fn is_ident(path: Seq<String>, name: Seq<char>) -> bool {
    path.len() == 1 && path[0]@ == name
}

/// Marked `#[cfg(..)]` with `test` among the items of its list: compiled only for tests.
pub open spec fn cfg_test(attrs: Seq<Attr>) -> bool {
    exists|i: int|
        0 <= i < attrs.len() && is_ident(#[trigger] attrs[i].path@, seq!['c', 'f', 'g']) && exists|
            j: int,
        |
            0 <= j < attrs[i].nested@.len() && is_ident(
                #[trigger] attrs[i].nested@[j]@,
                seq!['t', 'e', 's', 't'],
            )
}

fn ident_is(path: &Vec<String>, name: &Vec<char>) -> (r: bool)
    ensures
        r == is_ident(path@, name@),
{
    if path.len() != 1 {
        return false;
    }
    let seg = chars_of(path[0].as_str());
    if seg.len() != name.len() {
        return false;
    }
    let r = starts_with_chars(&seg, name);
    assert(seg@.take(name@.len() as int) =~= seg@);
    r
}

/// Whether the attributes mark a module as compiled only for tests.
pub fn is_cfg_test(attrs: &Vec<Attr>) -> (r: bool)
    ensures
        r == cfg_test(attrs@),
{
    let cfg = vec!['c', 'f', 'g'];
    let test = vec!['t', 'e', 's', 't'];
    assert(cfg@ =~= seq!['c', 'f', 'g']);
    assert(test@ =~= seq!['t', 'e', 's', 't']);
    let mut i: usize = 0;
    while i < attrs.len()
        invariant
            0 <= i <= attrs@.len(),
            cfg@ == seq!['c', 'f', 'g'],
            test@ == seq!['t', 'e', 's', 't'],
            forall|k: int|
                0 <= k < i ==> !(is_ident(#[trigger] attrs@[k].path@, cfg@) && exists|j: int|
                    0 <= j < attrs@[k].nested@.len() && is_ident(
                        #[trigger] attrs@[k].nested@[j]@,
                        test@,
                    )),
        decreases attrs.len() - i,
    {
        if ident_is(&attrs[i].path, &cfg) {
            let nested = &attrs[i].nested;
            let mut j: usize = 0;
            while j < nested.len()
                invariant
                    0 <= j <= nested@.len(),
                    0 <= i < attrs@.len(),
                    cfg@ == seq!['c', 'f', 'g'],
                    is_ident(attrs@[i as int].path@, cfg@),
                    nested@ == attrs@[i as int].nested@,
                    test@ == seq!['t', 'e', 's', 't'],
                    forall|m: int| 0 <= m < j ==> !is_ident(#[trigger] nested@[m]@, test@),
                decreases nested.len() - j,
            {
                if ident_is(&nested[j], &test) {
                    assert(is_ident(attrs@[i as int].nested@[j as int]@, test@));
                    assert(is_ident(attrs@[i as int].path@, seq!['c', 'f', 'g']));
                    return true;
                }
                j += 1;
            }
        }
        i += 1;
    }
    false
}

/// The declarations that extraction visits.
pub enum Item {
    Fn(FnDecl),
    Impl(ImplBlock),
    Trait(TraitBlock),
    Mod(ModBlock),
}

/// One source file.
pub struct SourceFile {
    pub items: Vec<Item>,
}

/// A function found in a source file, with its cyclomatic complexity.
pub struct FunctionInfo {
    pub name: String,
    pub start_line: usize,
    pub end_line: usize,
    pub complexity: u32,
}

/// What a `FunctionInfo` says, in mathematical terms.
pub struct UnitView {
    pub name: Seq<char>,
    pub start_line: int,
    pub end_line: int,
    pub complexity: int,
}

impl View for FunctionInfo {
    type V = UnitView;

    open spec fn view(&self) -> UnitView {
        UnitView {
            name: self.name@,
            start_line: self.start_line as int,
            end_line: self.end_line as int,
            complexity: self.complexity as int,
        }
    }
}

pub open spec fn infos_view(v: Seq<FunctionInfo>) -> Seq<UnitView> {
    v.map_values(|f: FunctionInfo| f@)
}

// ---------------------------------------------------------------- counting

/// The decision points in a node and everything nested in it.
pub open spec fn node_points(n: Node) -> nat
    decreases n,
{
    match n {
        Node::Point(_, ch) => 1 + nodes_points(ch@),
        Node::Match(ch) => nodes_points(ch@),
        Node::Closure(ch) => nodes_points(ch@),
    }
}

/// The decision points in a run of nodes.
pub open spec fn nodes_points(s: Seq<Node>) -> nat
    decreases s,
{
    if s.len() == 0 {
        0
    } else {
        nodes_points(s.drop_last()) + node_points(s.last())
    }
}

/// Cyclomatic complexity: one path, plus one for each decision point.
pub open spec fn body_complexity(b: Body) -> int {
    1 + nodes_points(b.nodes@) as int
}

/// `acc + points` where it can be held in a `u32`.
pub open spec fn sum_fits(acc: int, points: nat) -> Option<u32> {
    if acc + points <= u32::MAX {
        Some((acc + points) as u32)
    } else {
        None
    }
}

pub proof fn lemma_nodes_points_append(a: Seq<Node>, b: Seq<Node>)
    ensures
        nodes_points(a + b) == nodes_points(a) + nodes_points(b),
    decreases b.len(),
{
    if b.len() == 0 {
        assert(a + b =~= a);
    } else {
        lemma_nodes_points_append(a, b.drop_last());
        assert((a + b).drop_last() =~= a + b.drop_last());
    }
}

proof fn lemma_prefix_step(s: Seq<Node>, i: int)
    requires
        0 <= i < s.len(),
    ensures
        nodes_points(s.subrange(0, i + 1)) == nodes_points(s.subrange(0, i)) + node_points(s[i]),
{
    assert(s.subrange(0, i + 1).drop_last() =~= s.subrange(0, i));
}

proof fn lemma_prefix_le(s: Seq<Node>, i: int)
    requires
        0 <= i <= s.len(),
    ensures
        nodes_points(s.subrange(0, i)) <= nodes_points(s),
{
    lemma_nodes_points_append(s.subrange(0, i), s.subrange(i, s.len() as int));
    assert(s.subrange(0, i) + s.subrange(i, s.len() as int) =~= s);
}

/// Adds the decision points of `n` to `acc`.
fn add_node(n: &Node, acc: u32) -> (r: Option<u32>)
    ensures
        r == sum_fits(acc as int, node_points(*n)),
    decreases n,
{
    match n {
        Node::Point(_, ch) => {
            if acc == u32::MAX {
                None
            } else {
                add_nodes(ch, acc + 1)
            }
        },
        Node::Match(ch) => add_nodes(ch, acc),
        Node::Closure(ch) => add_nodes(ch, acc),
    }
}

/// Adds the decision points of `nodes` to `acc`.
fn add_nodes(nodes: &Vec<Node>, acc: u32) -> (r: Option<u32>)
    ensures
        r == sum_fits(acc as int, nodes_points(nodes@)),
    decreases nodes,
{
    let mut total: u32 = acc;
    let mut i: usize = 0;
    assert(nodes@.subrange(0, 0) =~= Seq::<Node>::empty());
    while i < nodes.len()
        invariant
            0 <= i <= nodes.len(),
            total == acc + nodes_points(nodes@.subrange(0, i as int)),
        decreases nodes.len() - i,
    {
        proof {
            lemma_prefix_step(nodes@, i as int);
        }
        match add_node(&nodes[i], total) {
            Some(t) => {
                total = t;
            },
            None => {
                proof {
                    lemma_prefix_le(nodes@, i + 1);
                }
                return None;
            },
        }
        i += 1;
    }
    assert(nodes@.subrange(0, nodes.len() as int) =~= nodes@);
    Some(total)
}

/// The cyclomatic complexity of a body, or `None` where it exceeds `u32::MAX`.
pub fn compute_complexity(body: &Body) -> (r: Option<u32>)
    ensures
        r == sum_fits(1, nodes_points(body.nodes@)),
        r matches Some(c) ==> c == body_complexity(*body) && c >= 1,
{
    add_nodes(&body.nodes, 1)
}


// ---------------------------------------------------------------- naming

pub open spec fn join_path(segs: Seq<Seq<char>>) -> Seq<char>
    decreases segs.len(),
{
    if segs.len() == 0 {
        Seq::empty()
    } else if segs.len() == 1 {
        segs[0]
    } else {
        join_path(segs.drop_last()) + seq![':', ':'] + segs.last()
    }
}

/// The name under which the methods of an `impl` block are reported.
pub open spec fn type_label(t: TypeName) -> Seq<char> {
    match t {
        TypeName::Path(segs) => join_path(segs@.map_values(|s: String| s@)),
        TypeName::Other => seq!['<', 'i', 'm', 'p', 'l', '>'],
    }
}

pub open spec fn qualified(owner: Option<Seq<char>>, name: Seq<char>) -> Seq<char> {
    match owner {
        Some(t) => t + seq![':', ':'] + name,
        None => name,
    }
}

pub open spec fn opt_view(o: Option<String>) -> Option<Seq<char>> {
    match o {
        Some(s) => Some(s@),
        None => None,
    }
}

/// The display name of an `impl` block's target type.
pub fn display_type_name(t: &TypeName) -> (r: String)
    ensures
        r@ == type_label(*t),
{
    match t {
        TypeName::Path(segs) => {
            let ghost views = segs@.map_values(|s: String| s@);
            let mut r = String::new();
            let mut i: usize = 0;
            while i < segs.len()
                invariant
                    0 <= i <= segs.len(),
                    views == segs@.map_values(|s: String| s@),
                    r@ == join_path(views.subrange(0, i as int)),
                decreases segs.len() - i,
            {
                assert(views.subrange(0, i + 1).drop_last() =~= views.subrange(0, i as int));
                assert(views[i as int] == segs@[i as int]@);
                proof {
                    reveal_strlit("::");
                }
                assert("::"@ =~= seq![':', ':']);
                if i > 0 {
                    r.append("::");
                }
                r.append(segs[i].as_str());
                i += 1;
            }
            assert(views.subrange(0, segs.len() as int) =~= views);
            r
        },
        TypeName::Other => {
            proof {
                reveal_strlit("<impl>");
            }
            String::from_str("<impl>")
        },
    }
}

fn qualified_name(owner: &Option<String>, name: &String) -> (r: String)
    ensures
        r@ == qualified(opt_view(*owner), name@),
{
    match owner {
        Some(t) => {
            proof {
                reveal_strlit("::");
            }
            let mut r = t.clone();
            assert("::"@ =~= seq![':', ':']);
            r.append("::");
            r.append(name.as_str());
            r
        },
        None => name.clone(),
    }
}

// ---------------------------------------------------------------- extraction

/// The units of a function: itself, unless it is a test, then those declared
/// in its body. `owner` is the type of the `impl` block it is a method of.
pub open spec fn fn_units(f: FnDecl, owner: Option<Seq<char>>) -> Seq<UnitView>
    decreases f,
{
    match f.body {
        None => Seq::empty(),
        Some(b) => {
            let own = if f.is_test {
                Seq::empty()
            } else {
                seq![
                    UnitView {
                        name: qualified(owner, f.name@),
                        start_line: f.name_line as int,
                        end_line: b.close_line as int,
                        complexity: body_complexity(b),
                    },
                ]
            };
            own + items_units(b.items@)
        },
    }
}

pub open spec fn methods_units(s: Seq<FnDecl>, owner: Option<Seq<char>>) -> Seq<UnitView>
    decreases s,
{
    if s.len() == 0 {
        Seq::empty()
    } else {
        methods_units(s.drop_last(), owner) + fn_units(s.last(), owner)
    }
}

pub open spec fn item_units(it: Item) -> Seq<UnitView>
    decreases it,
{
    match it {
        Item::Fn(f) => fn_units(f, None),
        Item::Impl(b) => methods_units(b.methods@, Some(type_label(b.self_ty))),
        Item::Trait(t) => methods_units(t.methods@, None),
        Item::Mod(m) => if cfg_test(m.attrs@) {
            Seq::empty()
        } else {
            items_units(m.items@)
        },
    }
}

pub open spec fn items_units(s: Seq<Item>) -> Seq<UnitView>
    decreases s,
{
    if s.len() == 0 {
        Seq::empty()
    } else {
        items_units(s.drop_last()) + item_units(s.last())
    }
}

/// The units of a source file, in document order.
pub open spec fn file_units(f: SourceFile) -> Seq<UnitView> {
    items_units(f.items@)
}

/// Every complexity can be held in a `u32`.
pub open spec fn fits(units: Seq<UnitView>) -> bool {
    forall|i: int| 0 <= i < units.len() ==> #[trigger] units[i].complexity <= u32::MAX
}

proof fn lemma_fits_append(a: Seq<UnitView>, b: Seq<UnitView>)
    ensures
        fits(a + b) <==> fits(a) && fits(b),
{
    if fits(a + b) {
        assert forall|i: int| 0 <= i < a.len() implies #[trigger] a[i].complexity <= u32::MAX by {
            assert((a + b)[i] == a[i]);
        }
        assert forall|i: int| 0 <= i < b.len() implies #[trigger] b[i].complexity <= u32::MAX by {
            assert((a + b)[a.len() + i] == b[i]);
        }
    }
    if fits(a) && fits(b) {
        assert forall|i: int| 0 <= i < (a + b).len() implies #[trigger] (a + b)[i].complexity
            <= u32::MAX by {
            if i >= a.len() {
                assert((a + b)[i] == b[i - a.len()]);
            }
        }
    }
}

proof fn lemma_view_push(v: Seq<FunctionInfo>, f: FunctionInfo)
    ensures
        infos_view(v.push(f)) == infos_view(v).push(f@),
{
    assert(infos_view(v.push(f)) =~= infos_view(v).push(f@));
}

/// Appends the units of `f` to `out`; `false` where one of them does not fit.
fn extract_fn(f: &FnDecl, owner: &Option<String>, out: &mut Vec<FunctionInfo>) -> (ok: bool)
    ensures
        ok == fits(fn_units(*f, opt_view(*owner))),
        ok ==> infos_view(final(out)@) == infos_view(old(out)@) + fn_units(*f, opt_view(*owner)),
    decreases f,
{
    match &f.body {
        None => {
            assert(infos_view(out@) + Seq::<UnitView>::empty() =~= infos_view(out@));
            true
        },
        Some(b) => {
            let ghost start = infos_view(out@);
            let ghost own: Seq<UnitView> = if f.is_test {
                Seq::empty()
            } else {
                seq![
                    UnitView {
                        name: qualified(opt_view(*owner), f.name@),
                        start_line: f.name_line as int,
                        end_line: b.close_line as int,
                        complexity: body_complexity(*b),
                    },
                ]
            };
            if !f.is_test {
                match compute_complexity(b) {
                    Some(c) => {
                        let info = FunctionInfo {
                            name: qualified_name(owner, &f.name),
                            start_line: f.name_line,
                            end_line: b.close_line,
                            complexity: c,
                        };
                        proof {
                            lemma_view_push(out@, info);
                        }
                        out.push(info);
                        assert(infos_view(out@) =~= start + own);
                    },
                    None => {
                        proof {
                            lemma_fits_append(own, items_units(b.items@));
                            assert(own[0].complexity > u32::MAX);
                        }
                        return false;
                    },
                }
            } else {
                assert(infos_view(out@) =~= start + own);
            }
            let ok = extract_items(&b.items, out);
            proof {
                lemma_fits_append(own, items_units(b.items@));
                assert(own.len() > 0 ==> own[0].complexity <= u32::MAX);
                if ok {
                    assert(start + own + items_units(b.items@) =~= start + (own + items_units(b.items@)));
                }
            }
            ok
        },
    }
}

fn extract_methods(methods: &Vec<FnDecl>, owner: &Option<String>, out: &mut Vec<FunctionInfo>) -> (ok: bool)
    ensures
        ok == fits(methods_units(methods@, opt_view(*owner))),
        ok ==> infos_view(final(out)@) == infos_view(old(out)@) + methods_units(methods@, opt_view(*owner)),
    decreases methods,
{
    let ghost start = infos_view(out@);
    let ghost o = opt_view(*owner);
    let mut i: usize = 0;
    assert(methods@.subrange(0, 0) =~= Seq::<FnDecl>::empty());
    assert(start + Seq::<UnitView>::empty() =~= start);
    while i < methods.len()
        invariant
            0 <= i <= methods.len(),
            o == opt_view(*owner),
            fits(methods_units(methods@.subrange(0, i as int), o)),
            infos_view(out@) == start + methods_units(methods@.subrange(0, i as int), o),
        decreases methods.len() - i,
    {
        let ghost prefix = methods@.subrange(0, i as int);
        assert(methods@.subrange(0, i + 1).drop_last() =~= prefix);
        let ok = extract_fn(&methods[i], owner, out);
        proof {
            lemma_fits_append(methods_units(prefix, o), fn_units(methods@[i as int], o));
        }
        if !ok {
            proof {
                lemma_methods_prefix(methods@, o, i + 1);
                lemma_fits_append(
                    methods_units(methods@.subrange(0, i + 1), o),
                    methods_units(methods@.subrange(i + 1, methods@.len() as int), o),
                );
            }
            return false;
        }
        assert(start + methods_units(prefix, o) + fn_units(methods@[i as int], o) =~= start
            + (methods_units(prefix, o) + fn_units(methods@[i as int], o)));
        i += 1;
    }
    assert(methods@.subrange(0, methods.len() as int) =~= methods@);
    true
}

pub proof fn lemma_methods_append(a: Seq<FnDecl>, b: Seq<FnDecl>, o: Option<Seq<char>>)
    ensures
        methods_units(a + b, o) == methods_units(a, o) + methods_units(b, o),
    decreases b.len(),
{
    if b.len() == 0 {
        assert(a + b =~= a);
        assert(methods_units(a, o) + Seq::<UnitView>::empty() =~= methods_units(a, o));
    } else {
        lemma_methods_append(a, b.drop_last(), o);
        assert((a + b).drop_last() =~= a + b.drop_last());
        assert(methods_units(a, o) + methods_units(b.drop_last(), o) + fn_units(b.last(), o)
            =~= methods_units(a, o) + (methods_units(b.drop_last(), o) + fn_units(b.last(), o)));
    }
}

proof fn lemma_methods_prefix(s: Seq<FnDecl>, o: Option<Seq<char>>, i: int)
    requires
        0 <= i <= s.len(),
    ensures
        methods_units(s, o) == methods_units(s.subrange(0, i), o) + methods_units(
            s.subrange(i, s.len() as int),
            o,
        ),
{
    lemma_methods_append(s.subrange(0, i), s.subrange(i, s.len() as int), o);
    assert(s.subrange(0, i) + s.subrange(i, s.len() as int) =~= s);
}

proof fn lemma_items_append(a: Seq<Item>, b: Seq<Item>)
    ensures
        items_units(a + b) == items_units(a) + items_units(b),
    decreases b.len(),
{
    if b.len() == 0 {
        assert(a + b =~= a);
        assert(items_units(a) + Seq::<UnitView>::empty() =~= items_units(a));
    } else {
        lemma_items_append(a, b.drop_last());
        assert((a + b).drop_last() =~= a + b.drop_last());
        assert(items_units(a) + items_units(b.drop_last()) + item_units(b.last()) =~= items_units(a)
            + (items_units(b.drop_last()) + item_units(b.last())));
    }
}

proof fn lemma_items_prefix(s: Seq<Item>, i: int)
    requires
        0 <= i <= s.len(),
    ensures
        items_units(s) == items_units(s.subrange(0, i)) + items_units(s.subrange(i, s.len() as int)),
{
    lemma_items_append(s.subrange(0, i), s.subrange(i, s.len() as int));
    assert(s.subrange(0, i) + s.subrange(i, s.len() as int) =~= s);
}

fn extract_item(item: &Item, out: &mut Vec<FunctionInfo>) -> (ok: bool)
    ensures
        ok == fits(item_units(*item)),
        ok ==> infos_view(final(out)@) == infos_view(old(out)@) + item_units(*item),
    decreases item,
{
    match item {
        Item::Fn(f) => extract_fn(f, &None, out),
        Item::Impl(b) => {
            let owner = Some(display_type_name(&b.self_ty));
            extract_methods(&b.methods, &owner, out)
        },
        Item::Trait(t) => extract_methods(&t.methods, &None, out),
        Item::Mod(m) => {
            if is_cfg_test(&m.attrs) {
                assert(infos_view(out@) + Seq::<UnitView>::empty() =~= infos_view(out@));
                true
            } else {
                extract_items(&m.items, out)
            }
        },
    }
}

fn extract_items(items: &Vec<Item>, out: &mut Vec<FunctionInfo>) -> (ok: bool)
    ensures
        ok == fits(items_units(items@)),
        ok ==> infos_view(final(out)@) == infos_view(old(out)@) + items_units(items@),
    decreases items,
{
    let ghost start = infos_view(out@);
    let mut i: usize = 0;
    assert(items@.subrange(0, 0) =~= Seq::<Item>::empty());
    assert(start + Seq::<UnitView>::empty() =~= start);
    while i < items.len()
        invariant
            0 <= i <= items.len(),
            fits(items_units(items@.subrange(0, i as int))),
            infos_view(out@) == start + items_units(items@.subrange(0, i as int)),
        decreases items.len() - i,
    {
        let ghost prefix = items@.subrange(0, i as int);
        assert(items@.subrange(0, i + 1).drop_last() =~= prefix);
        let ok = extract_item(&items[i], out);
        proof {
            lemma_fits_append(items_units(prefix), item_units(items@[i as int]));
        }
        if !ok {
            proof {
                lemma_items_prefix(items@, i + 1);
                lemma_fits_append(
                    items_units(items@.subrange(0, i + 1)),
                    items_units(items@.subrange(i + 1, items@.len() as int)),
                );
            }
            return false;
        }
        assert(start + items_units(prefix) + item_units(items@[i as int]) =~= start + (items_units(
            prefix,
        ) + item_units(items@[i as int])));
        i += 1;
    }
    assert(items@.subrange(0, items.len() as int) =~= items@);
    true
}

/// Every unit counts at least one path.
pub open spec fn all_counted(units: Seq<UnitView>) -> bool {
    forall|i: int| 0 <= i < units.len() ==> #[trigger] units[i].complexity >= 1
}

proof fn lemma_counted_append(a: Seq<UnitView>, b: Seq<UnitView>)
    requires
        all_counted(a),
        all_counted(b),
    ensures
        all_counted(a + b),
{
    assert forall|i: int| 0 <= i < (a + b).len() implies #[trigger] (a + b)[i].complexity >= 1 by {
        if i >= a.len() {
            assert((a + b)[i] == b[i - a.len()]);
        }
    }
}

proof fn lemma_fn_counted(f: FnDecl, owner: Option<Seq<char>>)
    ensures
        all_counted(fn_units(f, owner)),
    decreases f,
{
    if let Some(b) = f.body {
        lemma_items_counted(b.items@);
        let own: Seq<UnitView> = if f.is_test {
            Seq::empty()
        } else {
            seq![
                UnitView {
                    name: qualified(owner, f.name@),
                    start_line: f.name_line as int,
                    end_line: b.close_line as int,
                    complexity: body_complexity(b),
                },
            ]
        };
        lemma_counted_append(own, items_units(b.items@));
    }
}

proof fn lemma_methods_counted(s: Seq<FnDecl>, owner: Option<Seq<char>>)
    ensures
        all_counted(methods_units(s, owner)),
    decreases s,
{
    if s.len() > 0 {
        lemma_methods_counted(s.drop_last(), owner);
        lemma_fn_counted(s.last(), owner);
        lemma_counted_append(methods_units(s.drop_last(), owner), fn_units(s.last(), owner));
    }
}

proof fn lemma_item_counted(it: Item)
    ensures
        all_counted(item_units(it)),
    decreases it,
{
    match it {
        Item::Fn(f) => lemma_fn_counted(f, None),
        Item::Impl(b) => lemma_methods_counted(b.methods@, Some(type_label(b.self_ty))),
        Item::Trait(t) => lemma_methods_counted(t.methods@, None),
        Item::Mod(m) => lemma_items_counted(m.items@),
    }
}

proof fn lemma_items_counted(s: Seq<Item>)
    ensures
        all_counted(items_units(s)),
    decreases s,
{
    if s.len() > 0 {
        lemma_items_counted(s.drop_last());
        lemma_item_counted(s.last());
        lemma_counted_append(items_units(s.drop_last()), item_units(s.last()));
    }
}

/// Every function of a source file with its complexity, in document order, or
/// `None` where a complexity exceeds `u32::MAX`.
pub fn extract_functions(file: &SourceFile) -> (r: Option<Vec<FunctionInfo>>)
    ensures
        match r {
            Some(v) => fits(file_units(*file)) && infos_view(v@) == file_units(*file),
            None => !fits(file_units(*file)),
        },
        r matches Some(v) ==> forall|i: int| 0 <= i < v@.len() ==> #[trigger] v@[i].complexity >= 1,
{
    let mut out: Vec<FunctionInfo> = Vec::new();
    let ok = extract_items(&file.items, &mut out);
    assert(infos_view(Seq::<FunctionInfo>::empty()) =~= Seq::<UnitView>::empty());
    if ok {
        assert(Seq::<UnitView>::empty() + items_units(file.items@) =~= items_units(file.items@));
        proof {
            lemma_items_counted(file.items@);
            assert forall|i: int| 0 <= i < out@.len() implies #[trigger] out@[i].complexity >= 1 by {
                let units = items_units(file.items@);
                assert(infos_view(out@).len() == out@.len());
                assert(infos_view(out@)[i] == out@[i]@);
                assert(units[i].complexity >= 1);
            }
        }
        Some(out)
    } else {
        None
    }
}

} // verus!
