use jrsonnet_core::{
    val_eq, ConfigureState, EvalError, IStr, LazyBinding, MiscOpts, ObjArena, ObjMember, ObjValue,
    ObjectAssertion, Val, ValList, Visibility,
};

fn name(s: &str) -> IStr {
    IStr::from_bytes(s.as_bytes().to_vec())
}

fn lit_num(n: i64) -> LazyBinding {
    LazyBinding::Literal(Val::Num(n))
}

fn lit_str(s: &str) -> LazyBinding {
    LazyBinding::Literal(Val::Str(name(s)))
}

fn arr_val(nums: &[i64]) -> Val {
    let mut list = ValList::Nil;
    for n in nums.iter().rev() {
        list = ValList::Cons(Val::Num(*n), Box::new(list));
    }
    Val::Arr(Box::new(list))
}

fn lit_arr(nums: &[i64]) -> LazyBinding {
    LazyBinding::Literal(arr_val(nums))
}

fn self_field(k: &str) -> LazyBinding {
    LazyBinding::SelfField(name(k))
}

fn super_field(k: &str) -> LazyBinding {
    LazyBinding::SuperField(name(k))
}

fn plus(a: LazyBinding, b: LazyBinding) -> LazyBinding {
    LazyBinding::Plus(Box::new(a), Box::new(b))
}

fn equals(a: LazyBinding, b: LazyBinding) -> LazyBinding {
    LazyBinding::Equals(Box::new(a), Box::new(b))
}

fn member(visibility: Visibility, add: bool, invoke: LazyBinding) -> ObjMember {
    ObjMember { add, visibility, invoke, location: None }
}

fn normal(invoke: LazyBinding) -> ObjMember {
    member(Visibility::Normal, false, invoke)
}

fn additive(invoke: LazyBinding) -> ObjMember {
    member(Visibility::Normal, true, invoke)
}

fn obj(heap: &mut ObjArena, members: Vec<(&str, ObjMember)>) -> ObjValue {
    let entries = members.into_iter().map(|(k, m)| (name(k), m)).collect();
    ObjValue::new(heap, None, entries, Vec::new())
}

fn obj_with(
    heap: &mut ObjArena,
    parent: ObjValue,
    members: Vec<(&str, ObjMember)>,
) -> ObjValue {
    let entries = members.into_iter().map(|(k, m)| (name(k), m)).collect();
    ObjValue::new(heap, Some(parent), entries, Vec::new())
}

fn get_ok(heap: &mut ObjArena, o: ObjValue, k: &str) -> Val {
    match o.get(heap, &name(k)) {
        Ok(Some(v)) => v,
        Ok(None) => panic!("field {} absent", k),
        Err(e) => panic!("error on {}: {:?}", k, e),
    }
}

fn get_num(heap: &mut ObjArena, o: ObjValue, k: &str) -> i64 {
    match get_ok(heap, o, k) {
        Val::Num(n) => n,
        _ => panic!("field {} is not a number", k),
    }
}

fn field_names(heap: &ObjArena, o: ObjValue, include_hidden: bool) -> Vec<String> {
    o.fields_ex(heap, include_hidden)
        .iter()
        .map(|n| String::from_utf8(n.as_bytes().clone()).unwrap())
        .collect()
}

#[test]
fn late_bound_self_in_one_object() {
    // S1: obj = { a: 1, b: self.a + 1 }; obj.b == 2
    let mut heap = ObjArena::new_arena(200);
    let o = obj(&mut heap, vec![
        ("a", normal(lit_num(1))),
        ("b", normal(plus(self_field("a"), lit_num(1)))),
    ]);
    assert_eq!(get_num(&mut heap, o, "b"), 2);
}

#[test]
fn super_and_self_through_child() {
    // S2: p = { a: 1 }; c = p { a: super.a + 10, b: self.a }; c.b == 11
    let mut heap = ObjArena::new_arena(200);
    let p = obj(&mut heap, vec![("a", normal(lit_num(1)))]);
    let c = obj_with(&mut heap, p, vec![
        ("a", normal(plus(super_field("a"), lit_num(10)))),
        ("b", normal(self_field("a"))),
    ]);
    assert_eq!(get_num(&mut heap, c, "b"), 11);
    assert_eq!(get_num(&mut heap, c, "a"), 11);
}

#[test]
fn late_binding_of_self() {
    // parent = { x: self.y, y: 1 }; child = parent { y: 2 }; child.x == 2
    let mut heap = ObjArena::new_arena(200);
    let p = obj(&mut heap, vec![
        ("x", normal(self_field("y"))),
        ("y", normal(lit_num(1))),
    ]);
    let c = obj_with(&mut heap, p, vec![("y", normal(lit_num(2)))]);
    assert_eq!(get_num(&mut heap, c, "x"), 2);
    assert_eq!(get_num(&mut heap, p, "x"), 1);
}

#[test]
fn super_access() {
    // parent = { x: 1 }; child = parent { x: super.x + 10 }; child.x == 11
    let mut heap = ObjArena::new_arena(200);
    let p = obj(&mut heap, vec![("x", normal(lit_num(1)))]);
    let c = obj_with(&mut heap, p, vec![
        ("x", normal(plus(super_field("x"), lit_num(10)))),
    ]);
    assert_eq!(get_num(&mut heap, c, "x"), 11);
}

#[test]
fn field_addition_concatenates_with_parent() {
    // parent = { a: [1] }; child = parent { a+: [2] }; child.a == [1, 2]
    let mut heap = ObjArena::new_arena(200);
    let p = obj(&mut heap, vec![("a", normal(lit_arr(&[1])))]);
    let c = obj_with(&mut heap, p, vec![("a", additive(lit_arr(&[2])))]);
    let got = get_ok(&mut heap, c, "a");
    assert!(val_eq(&got, &arr_val(&[1, 2])));
}

#[test]
fn field_addition_without_parent_field() {
    // parent lacks `a`: child = parent { a+: [2] }; child.a == [2]
    let mut heap = ObjArena::new_arena(200);
    let p = obj(&mut heap, vec![("b", normal(lit_num(7)))]);
    let c = obj_with(&mut heap, p, vec![("a", additive(lit_arr(&[2])))]);
    let got = get_ok(&mut heap, c, "a");
    assert!(val_eq(&got, &arr_val(&[2])));
}

#[test]
fn additive_with_no_parent() {
    // { a+: [1] }.a == [1]
    let mut heap = ObjArena::new_arena(200);
    let o = obj(&mut heap, vec![("a", additive(lit_arr(&[1])))]);
    let got = get_ok(&mut heap, o, "a");
    assert!(val_eq(&got, &arr_val(&[1])));
}

#[test]
fn array_addition_chain() {
    // S3: p = { xs: [1] }; c = p { xs+: [2, 3] }; c.xs == [1, 2, 3]
    let mut heap = ObjArena::new_arena(200);
    let p = obj(&mut heap, vec![("xs", normal(lit_arr(&[1])))]);
    let c = obj_with(&mut heap, p, vec![("xs", additive(lit_arr(&[2, 3])))]);
    let got = get_ok(&mut heap, c, "xs");
    assert!(val_eq(&got, &arr_val(&[1, 2, 3])));
}

#[test]
fn string_addition() {
    // S6: base = { hello: "world" }; child = base { hello+: "!" }
    let mut heap = ObjArena::new_arena(200);
    let base = obj(&mut heap, vec![("hello", normal(lit_str("world")))]);
    let child = obj_with(&mut heap, base, vec![
        ("hello", member(Visibility::Normal, true, lit_str("!"))),
    ]);
    let got = get_ok(&mut heap, child, "hello");
    assert!(val_eq(&got, &Val::Str(name("world!"))));
}

#[test]
fn visibility_collapse() {
    // { x: 1 } + { x:: 2 }: hidden wins
    let mut heap = ObjArena::new_arena(200);
    let p = obj(&mut heap, vec![("x", normal(lit_num(1)))]);
    let c = obj_with(&mut heap, p, vec![
        ("x", member(Visibility::Hidden, false, lit_num(2))),
    ]);
    assert!(!c.has_field(&heap, &name("x")));
    assert!(c.has_field_ex(&heap, &name("x"), true));
}

#[test]
fn unhide_beats_hidden() {
    // { x:: 1 } + { x::: 2 }: visible again
    let mut heap = ObjArena::new_arena(200);
    let p = obj(&mut heap, vec![
        ("x", member(Visibility::Hidden, false, lit_num(1))),
    ]);
    let c = obj_with(&mut heap, p, vec![
        ("x", member(Visibility::Unhide, false, lit_num(2))),
    ]);
    assert!(c.has_field(&heap, &name("x")));
}

#[test]
fn normal_inherits_hidden() {
    // { x:: 1 } + { x: 2 }: child's Normal does not unhide
    let mut heap = ObjArena::new_arena(200);
    let p = obj(&mut heap, vec![
        ("x", member(Visibility::Hidden, false, lit_num(1))),
    ]);
    let c = obj_with(&mut heap, p, vec![("x", normal(lit_num(2)))]);
    assert!(!c.has_field(&heap, &name("x")));
    assert_eq!(c.field_visibility(&heap, &name("x")), Some(Visibility::Hidden));
}

#[test]
fn assertion_gates_every_field() {
    // S4: o = { assert self.x == 2, x: 2, y: 3 }
    let mut heap = ObjArena::new_arena(200);
    let entries = vec![
        (name("x"), normal(lit_num(2))),
        (name("y"), normal(lit_num(3))),
    ];
    let asserts = vec![ObjectAssertion { cond: equals(self_field("x"), lit_num(2)) }];
    let o = ObjValue::new(&mut heap, None, entries, asserts);
    assert_eq!(get_num(&mut heap, o, "y"), 3);

    let entries_bad = vec![
        (name("x"), normal(lit_num(1))),
        (name("y"), normal(lit_num(3))),
    ];
    let asserts_bad = vec![ObjectAssertion { cond: equals(self_field("x"), lit_num(2)) }];
    let bad = ObjValue::new(&mut heap, None, entries_bad, asserts_bad);
    assert_eq!(bad.get(&mut heap, &name("y")), Err(EvalError::AssertionFailed));
}

#[test]
fn hidden_field_still_resolves() {
    // S5: o = { x:: 1, y: self.x }
    let mut heap = ObjArena::new_arena(200);
    let o = obj(&mut heap, vec![
        ("x", member(Visibility::Hidden, false, lit_num(1))),
        ("y", normal(self_field("x"))),
    ]);
    assert_eq!(field_names(&heap, o, false), vec!["y".to_string()]);
    assert_eq!(get_num(&mut heap, o, "x"), 1);
    assert_eq!(get_num(&mut heap, o, "y"), 1);
}

#[test]
fn get_is_idempotent() {
    let mut heap = ObjArena::new_arena(200);
    let o = obj(&mut heap, vec![
        ("a", normal(lit_num(1))),
        ("b", normal(plus(self_field("a"), lit_num(1)))),
    ]);
    let first = get_num(&mut heap, o, "b");
    let nodes_after_first = heap.node_count();
    let second = get_num(&mut heap, o, "b");
    assert_eq!(first, second);
    assert_eq!(heap.node_count(), nodes_after_first);
}

#[test]
fn assertion_runs_once_per_composition() {
    let mut heap = ObjArena::new_arena(200);
    let entries = vec![(name("x"), normal(lit_num(1)))];
    let asserts = vec![ObjectAssertion { cond: LazyBinding::Literal(Val::Bool(true)) }];
    let o = ObjValue::new(&mut heap, None, entries, asserts);
    assert_eq!(heap.assertion_runs(), 0);
    for _ in 0..5 {
        assert_eq!(get_num(&mut heap, o, "x"), 1);
    }
    assert_eq!(heap.assertion_runs(), 1);
}

#[test]
fn failed_assertion_is_retried() {
    // The assertion needs fuel; with none it fails, the marker is undone,
    // and a later read with a budget re-runs it and resolves the field.
    let mut heap = ObjArena::new_arena(0);
    let entries = vec![(name("x"), normal(lit_num(2)))];
    let asserts = vec![ObjectAssertion { cond: equals(self_field("x"), lit_num(2)) }];
    let o = ObjValue::new(&mut heap, None, entries, asserts);
    assert_eq!(o.get(&mut heap, &name("x")), Err(EvalError::StackOverflow));
    assert_eq!(heap.assertion_runs(), 1);
    heap.set_max_stack(100);
    assert_eq!(get_num(&mut heap, o, "x"), 2);
    assert_eq!(heap.assertion_runs(), 2);
}

#[test]
fn enumeration_is_deterministic_and_sorted() {
    let mut heap = ObjArena::new_arena(200);
    let o = obj(&mut heap, vec![
        ("b", normal(lit_num(1))),
        ("a", normal(lit_num(2))),
        ("c", member(Visibility::Hidden, false, lit_num(3))),
    ]);
    let once = field_names(&heap, o, false);
    let again = field_names(&heap, o, false);
    assert_eq!(once, vec!["a".to_string(), "b".to_string()]);
    assert_eq!(once, again);
    assert_eq!(field_names(&heap, o, true), vec![
        "a".to_string(),
        "b".to_string(),
        "c".to_string(),
    ]);
}

#[test]
fn identity_of_handles() {
    let mut heap = ObjArena::new_arena(200);
    let o = obj(&mut heap, vec![("x", normal(lit_num(1)))]);
    assert!(ObjValue::ptr_eq(&o, &o));
    let alias = o.with_this(&mut heap, o);
    assert!(!ObjValue::ptr_eq(&o, &alias));
}

#[test]
fn with_this_pins_the_effective_self() {
    let mut heap = ObjArena::new_arena(200);
    let base = obj(&mut heap, vec![("v", normal(self_field("x")))]);
    let host = obj(&mut heap, vec![
        ("x", normal(lit_num(5))),
        ("v", normal(lit_num(0))),
    ]);
    let alias = base.with_this(&mut heap, host);
    assert_eq!(get_num(&mut heap, alias, "v"), 5);
}

#[test]
fn extend_puts_the_parent_at_the_bottom() {
    // a.extend_from(b).extend_from(c): c becomes the deepest ancestor.
    let mut heap = ObjArena::new_arena(200);
    let a = obj(&mut heap, vec![("x", additive(lit_arr(&[3])))]);
    let b = obj(&mut heap, vec![("x", additive(lit_arr(&[2])))]);
    let c = obj(&mut heap, vec![("x", normal(lit_arr(&[1])))]);
    let ab = a.extend_from(&mut heap, b);
    let abc = ab.extend_from(&mut heap, c);
    let got = get_ok(&mut heap, abc, "x");
    assert!(val_eq(&got, &arr_val(&[1, 2, 3])));
}

#[test]
fn extend_with_field_overrides() {
    let mut heap = ObjArena::new_arena(200);
    let o = obj(&mut heap, vec![("x", normal(lit_num(1)))]);
    let o2 = o.extend_with_field(&mut heap, name("y"), normal(self_field("x")));
    assert_eq!(get_num(&mut heap, o2, "y"), 1);
    assert_eq!(get_num(&mut heap, o2, "x"), 1);
}

#[test]
fn object_addition_composes() {
    let mut heap = ObjArena::new_arena(200);
    let p = obj(&mut heap, vec![("x", normal(lit_num(1)))]);
    let c = obj(&mut heap, vec![("y", normal(self_field("x")))]);
    let sum = match jrsonnet_core::evaluate_add_op(&mut heap, &Val::Obj(p), &Val::Obj(c)) {
        Ok(Val::Obj(o)) => o,
        other => panic!("unexpected: {:?}", other.map(|_| ())),
    };
    assert_eq!(get_num(&mut heap, sum, "y"), 1);
}

#[test]
fn missing_field_error() {
    let mut heap = ObjArena::new_arena(200);
    let o = obj(&mut heap, vec![("y", normal(self_field("zz")))]);
    assert_eq!(o.get(&mut heap, &name("y")), Err(EvalError::NoSuchField));
    assert_eq!(o.get(&mut heap, &name("zz")), Ok(None));
}

#[test]
fn incompatible_addition_error() {
    let mut heap = ObjArena::new_arena(200);
    let p = obj(&mut heap, vec![("a", normal(lit_num(1)))]);
    let c = obj_with(&mut heap, p, vec![
        ("a", member(Visibility::Normal, true, lit_str("s"))),
    ]);
    assert_eq!(c.get(&mut heap, &name("a")), Err(EvalError::AddIncompatible));
}

#[test]
fn numeric_overflow_error() {
    let mut heap = ObjArena::new_arena(200);
    let p = obj(&mut heap, vec![("a", normal(lit_num(i64::MAX)))]);
    let c = obj_with(&mut heap, p, vec![
        ("a", member(Visibility::Normal, true, lit_num(1))),
    ]);
    assert_eq!(c.get(&mut heap, &name("a")), Err(EvalError::NumOverflow));
}

#[test]
fn self_reference_overflows_the_stack() {
    let mut heap = ObjArena::new_arena(50);
    let o = obj(&mut heap, vec![("a", normal(self_field("a")))]);
    assert_eq!(o.get(&mut heap, &name("a")), Err(EvalError::StackOverflow));
}

#[test]
fn errors_are_not_cached() {
    let mut heap = ObjArena::new_arena(0);
    let o = obj(&mut heap, vec![("a", normal(plus(self_field("b"), lit_num(1)))), ("b", normal(lit_num(1)))]);
    assert_eq!(o.get(&mut heap, &name("a")), Err(EvalError::StackOverflow));
    heap.set_max_stack(100);
    assert_eq!(get_num(&mut heap, o, "a"), 2);
}

#[test]
fn run_assertions_succeeds_quietly() {
    let mut heap = ObjArena::new_arena(200);
    let entries = vec![(name("x"), normal(lit_num(1)))];
    let asserts = vec![ObjectAssertion { cond: LazyBinding::Literal(Val::Bool(true)) }];
    let o = ObjValue::new(&mut heap, None, entries, asserts);
    assert_eq!(o.run_assertions(&mut heap), None);
    assert_eq!(o.run_assertions(&mut heap), None);
    assert_eq!(heap.assertion_runs(), 1);
}

#[test]
fn configure_sets_the_stack_budget() {
    let mut heap = ObjArena::new_arena(0);
    let opts = MiscOpts { no_stdlib: true, max_stack: 64, jpath: Vec::new() };
    assert!(opts.configure(&mut heap).is_ok());
    let o = obj(&mut heap, vec![
        ("a", normal(lit_num(1))),
        ("b", normal(self_field("a"))),
    ]);
    assert_eq!(get_num(&mut heap, o, "b"), 1);
}

#[test]
fn empty_object_has_nothing() {
    let mut heap = ObjArena::new_arena(200);
    let o = ObjValue::new_empty(&mut heap);
    assert_eq!(o.get(&mut heap, &name("x")), Ok(None));
    assert!(field_names(&heap, o, true).is_empty());
}

#[test]
fn debug_rendering_shows_the_chain() {
    let mut heap = ObjArena::new_arena(200);
    let p = obj(&mut heap, vec![("x", normal(lit_num(1)))]);
    let c = obj_with(&mut heap, p, vec![("y", normal(lit_num(2)))]);
    let text = String::from_utf8(c.debug_render(&heap)).unwrap();
    assert_eq!(text, "{ x } + { y }");
    assert_eq!(String::from_utf8(p.debug_render(&heap)).unwrap(), "{ x }");
}

#[test]
fn fields_visibility_collapses_by_level() {
    let mut heap = ObjArena::new_arena(200);
    let p = obj(&mut heap, vec![
        ("a", normal(lit_num(1))),
        ("h", member(Visibility::Hidden, false, lit_num(2))),
    ]);
    let c = obj_with(&mut heap, p, vec![
        ("a", member(Visibility::Hidden, false, lit_num(3))),
        ("h", normal(lit_num(4))),
    ]);
    let vis: Vec<(String, bool)> = c
        .fields_visibility(&heap)
        .iter()
        .map(|(k, v)| (String::from_utf8(k.as_bytes().clone()).unwrap(), *v))
        .collect();
    assert!(vis.contains(&("a".to_string(), false)));
    assert!(vis.contains(&("h".to_string(), false)));
}
