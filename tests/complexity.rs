use craprs::complexity::{
    compute_complexity, extract_functions, is_cfg_test, Attr, Body, Decision, FnDecl, FunctionInfo, ImplBlock, Item,
    ModBlock, Node, SourceFile, TraitBlock, TypeName,
};

fn point(d: Decision, ch: Vec<Node>) -> Node {
    Node::Point(d, ch)
}

fn decl(name: &str, name_line: usize, close_line: usize, nodes: Vec<Node>, items: Vec<Item>) -> FnDecl {
    FnDecl {
        name: name.to_string(),
        is_test: false,
        name_line,
        body: Some(Body { close_line, nodes, items }),
    }
}

fn free_fn(name: &str, name_line: usize, close_line: usize, nodes: Vec<Node>) -> Item {
    Item::Fn(decl(name, name_line, close_line, nodes, vec![]))
}

fn test_fn(name: &str, name_line: usize, close_line: usize) -> Item {
    let mut f = decl(name, name_line, close_line, vec![], vec![]);
    f.is_test = true;
    Item::Fn(f)
}

fn attr(path: &[&str], nested: &[&[&str]]) -> Attr {
    let segs = |p: &[&str]| p.iter().map(|s| s.to_string()).collect::<Vec<String>>();
    Attr { path: segs(path), nested: nested.iter().map(|p| segs(p)).collect() }
}

fn extract(items: Vec<Item>) -> Vec<FunctionInfo> {
    extract_functions(&SourceFile { items }).expect("complexity fits in u32")
}

/// The complexity of a file that holds one function `foo` on one line.
fn cc(nodes: Vec<Node>) -> u32 {
    let fns = extract(vec![free_fn("foo", 1, 1, nodes)]);
    assert_eq!(fns.len(), 1);
    fns[0].complexity
}

// fn foo() {}
#[test]
fn empty_function() {
    assert_eq!(cc(vec![]), 1);
}

// fn foo(x: i32) -> i32 { x + 1 }
#[test]
fn no_branches() {
    assert_eq!(cc(vec![]), 1);
}

// fn foo(x: bool) -> i32 { if x { 1 } else { 0 } }
#[test]
fn single_if() {
    assert_eq!(cc(vec![point(Decision::If, vec![])]), 2);
}

// fn foo(x: Option<i32>) -> i32 { if let Some(v) = x { v } else { 0 } }
#[test]
fn if_let() {
    assert_eq!(cc(vec![point(Decision::If, vec![])]), 2);
}

// fn foo() { let mut i = 0; while i < 10 { i += 1; } }
#[test]
fn while_loop() {
    assert_eq!(cc(vec![point(Decision::While, vec![])]), 2);
}

// fn foo(mut v: Vec<i32>) { while let Some(_) = v.pop() {} }
#[test]
fn while_let() {
    assert_eq!(cc(vec![point(Decision::While, vec![])]), 2);
}

// fn foo() { for _i in 0..10 {} }
#[test]
fn for_loop() {
    assert_eq!(cc(vec![point(Decision::For, vec![])]), 2);
}

// fn foo() { loop { break; } }
#[test]
fn loop_expr() {
    assert_eq!(cc(vec![point(Decision::Loop, vec![])]), 2);
}

// fn foo(x: i32) -> &'static str { match x { 0 => "zero", _ => "other" } }
#[test]
fn match_arms() {
    let arms = vec![point(Decision::Arm, vec![]), point(Decision::Arm, vec![])];
    assert_eq!(cc(vec![Node::Match(arms)]), 3);
}

// fn foo(x: i32) -> i32 { match x { 1 => 10, 2 => 20, _ => 0 } }
#[test]
fn match_three_arms() {
    let arms = vec![
        point(Decision::Arm, vec![]),
        point(Decision::Arm, vec![]),
        point(Decision::Arm, vec![]),
    ];
    assert_eq!(cc(vec![Node::Match(arms)]), 4);
}

// fn foo(a: bool, b: bool) -> bool { a && b }
#[test]
fn logical_and() {
    assert_eq!(cc(vec![point(Decision::And, vec![])]), 2);
}

// fn foo(a: bool, b: bool) -> bool { a || b }
#[test]
fn logical_or() {
    assert_eq!(cc(vec![point(Decision::Or, vec![])]), 2);
}

// fn foo() -> Result<i32, ()> { let x = Err(())?; Ok(x) }
#[test]
fn try_operator() {
    assert_eq!(cc(vec![point(Decision::Try, vec![])]), 2);
}

// fn foo(x: bool, y: bool) -> i32 {
//     if x { if x && y { 1 } else { 2 } } else { 0 }
// }
#[test]
fn combined_decision_points() {
    let inner = point(Decision::If, vec![point(Decision::And, vec![])]);
    assert_eq!(cc(vec![point(Decision::If, vec![inner])]), 4);
}

// fn foo(items: Vec<i32>) -> Vec<i32> {
//     items.into_iter().filter(|x| if *x > 0 { true } else { false }).collect()
// }
#[test]
fn closure_contributes_to_parent() {
    assert_eq!(cc(vec![Node::Closure(vec![point(Decision::If, vec![])])]), 2);
}

// fn outer() {
//     fn inner(x: bool) -> i32 {
//         if x { 1 } else { 0 }
//     }
// }
#[test]
fn nested_fn_extracted_separately() {
    let inner = free_fn("inner", 3, 5, vec![point(Decision::If, vec![])]);
    let outer = Item::Fn(decl("outer", 2, 6, vec![], vec![inner]));
    let fns = extract(vec![outer]);
    assert_eq!(fns.len(), 2);
    let outer = fns.iter().find(|f| f.name == "outer").unwrap();
    let inner = fns.iter().find(|f| f.name == "inner").unwrap();
    assert_eq!(outer.complexity, 1);
    assert_eq!(inner.complexity, 2);
}

// struct Foo;
// impl Foo {
//     fn bar(&self) -> i32 { 42 }
//     fn baz(&self, x: bool) -> i32 { if x { 1 } else { 0 } }
// }
#[test]
fn impl_methods() {
    let block = ImplBlock {
        self_ty: TypeName::Path(vec!["Foo".to_string()]),
        methods: vec![
            decl("bar", 4, 4, vec![], vec![]),
            decl("baz", 5, 5, vec![point(Decision::If, vec![])], vec![]),
        ],
    };
    let fns = extract(vec![Item::Impl(block)]);
    assert_eq!(fns.len(), 2);
    let bar = fns.iter().find(|f| f.name == "Foo::bar").unwrap();
    let baz = fns.iter().find(|f| f.name == "Foo::baz").unwrap();
    assert_eq!(bar.complexity, 1);
    assert_eq!(baz.complexity, 2);
}

// fn real_fn() -> i32 { 42 }
//
// #[test]
// fn test_fn() {
//     assert_eq!(real_fn(), 42);
// }
#[test]
fn skips_test_functions() {
    let fns = extract(vec![free_fn("real_fn", 2, 2, vec![]), test_fn("test_fn", 5, 7)]);
    assert_eq!(fns.len(), 1);
    assert_eq!(fns[0].name, "real_fn");
}

// fn real_fn() -> i32 { 42 }
//
// #[cfg(test)]
// mod tests {
//     fn helper() -> i32 { 1 }
//
//     #[test]
//     fn test_fn() {
//         assert_eq!(super::real_fn(), 42);
//     }
// }
#[test]
fn skips_cfg_test_modules() {
    let module = ModBlock {
        attrs: vec![attr(&["cfg"], &[&["test"]])],
        items: vec![free_fn("helper", 6, 6, vec![]), test_fn("test_fn", 9, 11)],
    };
    let fns = extract(vec![free_fn("real_fn", 2, 2, vec![]), Item::Mod(module)]);
    assert_eq!(fns.len(), 1);
    assert_eq!(fns[0].name, "real_fn");
}

// trait MyTrait {
//     fn required(&self) -> i32;
//     fn default_method(&self) -> i32 {
//         if true { 1 } else { 0 }
//     }
// }
#[test]
fn trait_default_methods() {
    let required = FnDecl { name: "required".to_string(), is_test: false, name_line: 3, body: None };
    let default_method = decl("default_method", 4, 6, vec![point(Decision::If, vec![])], vec![]);
    let fns = extract(vec![Item::Trait(TraitBlock { methods: vec![required, default_method] })]);
    assert_eq!(fns.len(), 1);
    assert_eq!(fns[0].name, "default_method");
    assert_eq!(fns[0].complexity, 2);
}

//
// fn first() -> i32 {
//     42
// }
//
// fn second(x: bool) -> i32 {
//     if x { 1 } else { 0 }
// }
#[test]
fn function_line_numbers() {
    let fns = extract(vec![
        free_fn("first", 2, 4, vec![]),
        free_fn("second", 6, 8, vec![point(Decision::If, vec![])]),
    ]);
    assert_eq!(fns.len(), 2);
    assert_eq!(fns[0].name, "first");
    assert_eq!(fns[0].start_line, 2);
    assert_eq!(fns[0].end_line, 4);
    assert_eq!(fns[1].name, "second");
    assert_eq!(fns[1].start_line, 6);
    assert_eq!(fns[1].end_line, 8);
}

// // empty file
#[test]
fn empty_source_produces_no_entries() {
    let fns = extract(vec![]);
    assert!(fns.is_empty());
}

#[test]
fn body_of_literal_is_one() {
    // { 42 }
    let body = Body { close_line: 1, nodes: vec![], items: vec![] };
    assert_eq!(compute_complexity(&body), Some(1));
}

#[test]
fn match_with_one_more_arm_counts_one_more() {
    let two = Body {
        close_line: 1,
        nodes: vec![Node::Match(vec![point(Decision::Arm, vec![]), point(Decision::Arm, vec![])])],
        items: vec![],
    };
    let three = Body {
        close_line: 1,
        nodes: vec![Node::Match(vec![
            point(Decision::Arm, vec![point(Decision::If, vec![])]),
            point(Decision::Arm, vec![]),
            point(Decision::Arm, vec![]),
        ])],
        items: vec![],
    };
    assert_eq!(compute_complexity(&two), Some(3));
    assert_eq!(compute_complexity(&three), Some(5));
}

#[test]
fn if_with_nested_else_if_counts_each() {
    // if a { } else if b { } else { }
    let nodes = vec![point(Decision::If, vec![point(Decision::If, vec![])])];
    assert_eq!(cc(nodes), 3);
}

#[test]
fn logical_chain_counts_each_operator() {
    // a && b || c && d
    let nodes = vec![point(
        Decision::Or,
        vec![point(Decision::And, vec![]), point(Decision::And, vec![])],
    )];
    assert_eq!(cc(nodes), 4);
}

#[test]
fn nested_fn_ignores_outer_branching() {
    let inner = free_fn("inner", 3, 3, vec![]);
    let outer_nodes = vec![point(Decision::If, vec![]), point(Decision::Loop, vec![])];
    let fns = extract(vec![Item::Fn(decl("outer", 2, 6, outer_nodes, vec![inner]))]);
    assert_eq!(fns.len(), 2);
    assert_eq!(fns[0].name, "outer");
    assert_eq!(fns[0].complexity, 3);
    assert_eq!(fns[1].name, "inner");
    assert_eq!(fns[1].complexity, 1);
}

#[test]
fn nested_fn_inside_test_fn_is_kept() {
    let inner = free_fn("helper", 3, 3, vec![]);
    let mut outer = decl("check", 2, 4, vec![point(Decision::If, vec![])], vec![inner]);
    outer.is_test = true;
    let fns = extract(vec![Item::Fn(outer)]);
    assert_eq!(fns.len(), 1);
    assert_eq!(fns[0].name, "helper");
}

#[test]
fn test_method_is_skipped() {
    let mut t = decl("check", 3, 3, vec![], vec![]);
    t.is_test = true;
    let block = ImplBlock { self_ty: TypeName::Other, methods: vec![t, decl("run", 4, 4, vec![], vec![])] };
    let fns = extract(vec![Item::Impl(block)]);
    assert_eq!(fns.len(), 1);
    assert_eq!(fns[0].name, "<impl>::run");
}

#[test]
fn path_type_names_join_segments() {
    let block = ImplBlock {
        self_ty: TypeName::Path(vec!["outer".to_string(), "Inner".to_string()]),
        methods: vec![decl("go", 2, 2, vec![], vec![])],
    };
    let free = free_fn("after", 4, 4, vec![]);
    let fns = extract(vec![Item::Impl(block), free]);
    assert_eq!(fns[0].name, "outer::Inner::go");
    assert_eq!(fns[1].name, "after");
}

#[test]
fn plain_module_is_visited() {
    let module = ModBlock { attrs: vec![], items: vec![free_fn("inside", 2, 2, vec![])] };
    let fns = extract(vec![Item::Mod(module)]);
    assert_eq!(fns.len(), 1);
    assert_eq!(fns[0].name, "inside");
}

#[test]
fn method_body_declarations_are_units() {
    let inner = free_fn("local", 3, 3, vec![point(Decision::Try, vec![])]);
    let block = ImplBlock {
        self_ty: TypeName::Path(vec!["S".to_string()]),
        methods: vec![decl("m", 2, 4, vec![], vec![inner])],
    };
    let fns = extract(vec![Item::Impl(block)]);
    assert_eq!(fns.len(), 2);
    assert_eq!(fns[0].name, "S::m");
    assert_eq!(fns[1].name, "local");
    assert_eq!(fns[1].complexity, 2);
}

#[test]
fn cfg_test_attribute_forms() {
    assert!(is_cfg_test(&vec![attr(&["cfg"], &[&["test"]])]));
    assert!(is_cfg_test(&vec![attr(&["allow"], &[&["x"]]), attr(&["cfg"], &[&["feature"], &["test"]])]));
    assert!(!is_cfg_test(&vec![attr(&["cfg"], &[&["not"]])]));
    assert!(!is_cfg_test(&vec![attr(&["cfg"], &[&["all"]])]));
    assert!(!is_cfg_test(&vec![attr(&["test"], &[])]));
    assert!(!is_cfg_test(&vec![attr(&["std", "cfg"], &[&["test"]])]));
    assert!(!is_cfg_test(&vec![attr(&["cfg"], &[&["a", "test"]])]));
    assert!(!is_cfg_test(&vec![]));
}

#[test]
fn module_not_only_for_tests_is_visited() {
    let module = ModBlock {
        attrs: vec![attr(&["cfg"], &[&["not"]])],
        items: vec![free_fn("kept", 3, 3, vec![])],
    };
    let fns = extract(vec![Item::Mod(module)]);
    assert_eq!(fns.len(), 1);
    assert_eq!(fns[0].name, "kept");
}
