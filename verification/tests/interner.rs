use collapse_xdebug::{Call, CallStack, Folded, Interned};

fn id(interned: Interned<usize>) -> (usize, bool) {
    match interned {
        Interned::Old(id) => (id, false),
        Interned::New(id) => (id, true),
    }
}

#[test]
fn inclusion_names_are_known_from_the_start() {
    let mut calls = CallStack::new();
    assert!(calls.is_empty());
    assert_eq!(id(calls.intern_str("require")), (0, false));
    assert_eq!(id(calls.intern_str("require_once")), (1, false));
    assert_eq!(id(calls.intern_str("include")), (2, false));
    assert_eq!(id(calls.intern_str("include_once")), (3, false));
}

#[test]
fn a_string_is_new_once() {
    let mut calls = CallStack::new();
    assert_eq!(id(calls.intern_str("foo")), (4, true));
    assert_eq!(id(calls.intern_str("bar")), (5, true));
    assert_eq!(id(calls.intern_str("foo")), (4, false));
    assert_eq!(id(calls.intern_str("bar")), (5, false));
    assert_eq!(id(calls.intern_str("")), (6, true));
}

#[test]
fn a_frame_identity_has_one_id() {
    let mut calls = CallStack::new();
    let foo = id(calls.intern_str("foo")).0;
    let path = id(calls.intern_str("/a.php")).0;
    assert_eq!(calls.intern(Interned::Old(Call::WithoutPath(foo))), 0);
    assert_eq!(calls.intern(Interned::Old(Call::WithPath(2, path))), 1);
    assert_eq!(calls.intern(Interned::Old(Call::WithoutPath(foo))), 0);
    assert_eq!(calls.intern(Interned::Old(Call::WithPath(2, path))), 1);
    assert_eq!(calls.intern(Interned::Old(Call::WithoutPath(path))), 2);
}

#[test]
fn same_name_and_path_same_call_id() {
    let mut calls = CallStack::new();
    calls.call("foo", "/a.php");
    calls.call("include", "/b.php");
    calls.call("foo", "/a.php");
    calls.call("include", "/b.php");
    calls.call("include", "/c.php");
    calls.call("foo", "/other.php");
    assert_eq!(calls.current(), &[0, 1, 0, 1, 2, 0]);
}

#[test]
fn only_inclusion_calls_keep_their_path() {
    let mut calls = CallStack::new();
    calls.call("require", "/r.php");
    calls.call("require_once", "/ro.php");
    calls.call("include", "/i.php");
    calls.call("include_once", "/io.php");
    calls.call("main", "/m.php");
    calls.call("main", "/m.php");
    let stack = calls.current().to_vec();
    assert_eq!(
        calls.frames(&stack),
        "require(/r.php);require_once(/ro.php);include(/i.php);include_once(/io.php);main;main"
    );
}

#[test]
fn first_plain_name_never_gets_a_path() {
    let mut calls = CallStack::new();
    calls.call("{main}", "/m.php");
    calls.call("{main}", "/m.php");
    calls.call("{main}", "/n.php");
    assert_eq!(calls.current(), &[0, 0, 0]);
    assert_eq!(calls.frames(&[0, 0, 0]), "{main};{main};{main}");
}

#[test]
fn frames_of_no_stack_is_empty() {
    let calls = CallStack::new();
    assert_eq!(calls.frames(&[]), "");
}

#[test]
fn write_call_appends() {
    let mut calls = CallStack::new();
    let path = id(calls.intern_str("/a.php")).0;
    let mut buffer = String::from(">");
    calls.write_call(Call::WithPath(1, path), &mut buffer);
    calls.write_call(Call::WithoutPath(path), &mut buffer);
    assert_eq!(buffer, ">require_once(/a.php)/a.php");
}

#[test]
fn pop_closes_the_innermost_call() {
    let mut calls = CallStack::new();
    calls.call("a", "/p");
    calls.call("b", "/p");
    calls.pop();
    assert_eq!(calls.current(), &[0]);
    calls.pop();
    assert!(calls.is_empty());
    calls.pop();
    assert!(calls.is_empty());
    calls.call("b", "/p");
    assert_eq!(calls.current(), &[1]);
}

#[test]
fn a_stack_has_one_slot() {
    let mut folded = Folded::new();
    assert_eq!(folded.len(), 0);
    assert_eq!(folded.add(&[]).unwrap(), 0);
    assert_eq!(folded.add(&[0]).unwrap(), 1);
    assert_eq!(folded.add(&[0, 1]).unwrap(), 2);
    assert_eq!(folded.add(&[0]).unwrap(), 1);
    assert_eq!(folded.add(&[1, 0]).unwrap(), 3);
    assert_eq!(folded.add(&[0, 1]).unwrap(), 2);
    assert_eq!(folded.add(&[0]).unwrap(), 1);
    assert_eq!(folded.len(), 4);
    assert_eq!(folded.stack_at(2), &[0, 1]);
    assert_eq!(folded.count_at(0), 1);
    assert_eq!(folded.count_at(1), 3);
    assert_eq!(folded.count_at(2), 2);
    assert_eq!(folded.count_at(3), 1);
    assert_eq!(folded.find(&[1, 0]), Some(3));
    assert_eq!(folded.find(&[1]), None);
}

#[test]
fn a_call_is_filed_under_the_ids_of_its_strings() {
    let mut calls = CallStack::new();
    calls.call("include", "/b.php");
    let top = *calls.current().last().unwrap();
    assert_eq!(id(calls.intern_str("/b.php")), (4, false));
    assert_eq!(calls.intern(Interned::Old(Call::WithPath(2, 4))), top);
    calls.call("main", "/b.php");
    let top = *calls.current().last().unwrap();
    assert_eq!(id(calls.intern_str("main")), (5, false));
    assert_eq!(calls.intern(Interned::Old(Call::WithoutPath(5))), top);
    assert_eq!(calls.current(), &[0, 1]);
}
