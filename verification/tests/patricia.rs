use patricia_trie::{first_char_unwrap, longest_common_prefix, PatriciaTrie};

#[test]
fn patricia_trie() {
    let t: PatriciaTrie<usize> = PatriciaTrie::empty();
    let t2 = t
        .bind("test".to_string(), 0)
        .bind("slow".to_string(), 1)
        .bind("water".to_string(), 2)
        .bind("slower".to_string(), 3)
        .bind("tester".to_string(), 4)
        .bind("te".to_string(), 5)
        .bind("toast".to_string(), 6)
        .bind("toad".to_string(), 7);

    println!("{}", t2.render());
    assert_eq!(t2.lookup("test".to_string()), Some(&0));
    assert_eq!(t2.lookup("slow".to_string()), Some(&1));
    assert_eq!(t2.lookup("water".to_string()), Some(&2));
    assert_eq!(t2.lookup("slower".to_string()), Some(&3));
    assert_eq!(t2.lookup("tester".to_string()), Some(&4));
    assert_eq!(t2.lookup("te".to_string()), Some(&5));
    assert_eq!(t2.lookup("toast".to_string()), Some(&6));
    assert_eq!(t2.lookup("toad".to_string()), Some(&7));
}

#[test]
fn round_trip_any_order() {
    let keys = ["test", "slow", "water", "slower", "tester", "te", "toast", "toad", ""];
    let mut forward = PatriciaTrie::empty();
    for (i, k) in keys.iter().enumerate() {
        forward = forward.bind(k.to_string(), i);
    }
    let mut backward = PatriciaTrie::empty();
    for (i, k) in keys.iter().enumerate().rev() {
        backward = backward.bind(k.to_string(), i);
    }
    for (i, k) in keys.iter().enumerate() {
        assert_eq!(forward.lookup(k.to_string()), Some(&i));
        assert_eq!(backward.lookup(k.to_string()), Some(&i));
    }
}

#[test]
fn overwrite_same_key() {
    let base = PatriciaTrie::empty()
        .bind("test".to_string(), 10)
        .bind("tester".to_string(), 11);
    let twice = base.bind("te".to_string(), 1).bind("te".to_string(), 2);
    let once = base.bind("te".to_string(), 2);
    assert_eq!(twice.lookup("te".to_string()), Some(&2));
    assert_eq!(twice.lookup("test".to_string()), Some(&10));
    assert_eq!(twice.lookup("tester".to_string()), Some(&11));
    // same shape and same other keys as binding the key once
    assert_eq!(twice.render(), once.render());
}

#[test]
fn prefix_independence() {
    let t = PatriciaTrie::empty()
        .bind("test".to_string(), 1)
        .bind("tester".to_string(), 2)
        .bind("te".to_string(), 3);
    assert_eq!(t.lookup("test".to_string()), Some(&1));
    assert_eq!(t.lookup("tester".to_string()), Some(&2));
    assert_eq!(t.lookup("te".to_string()), Some(&3));
}

#[test]
fn sharing_unrelated_subtree() {
    let t1 = PatriciaTrie::empty()
        .bind("test".to_string(), 1)
        .bind("slow".to_string(), 2);
    let t2 = t1.bind("water".to_string(), 3);
    let c1 = match &t1 {
        PatriciaTrie::Node { children, .. } => children,
        PatriciaTrie::Tip => panic!("node expected"),
    };
    let c2 = match &t2 {
        PatriciaTrie::Node { children, .. } => children,
        PatriciaTrie::Tip => panic!("node expected"),
    };
    // every subtree of t1 is the identical shared object in t2
    for (c, rc1) in c1 {
        let rc2 = &c2.iter().find(|e| e.0 == *c).expect("child kept").1;
        assert!(std::rc::Rc::ptr_eq(rc1, rc2));
    }
    assert_eq!(t2.lookup("test".to_string()), Some(&1));
    assert_eq!(t2.lookup("slow".to_string()), Some(&2));
    assert_eq!(t2.lookup("water".to_string()), Some(&3));
    assert_eq!(t1.lookup("water".to_string()), None);
}

#[test]
fn lookup_not_found() {
    let nothing: PatriciaTrie<i32> = PatriciaTrie::empty();
    assert_eq!(nothing.lookup("anything".to_string()), None);
    let t = PatriciaTrie::empty()
        .bind("test".to_string(), 1)
        .bind("toast".to_string(), 2);
    // no common prefix with any stored key
    assert_eq!(t.lookup("slow".to_string()), None);
    // proper prefix of a stored key, never itself bound
    assert_eq!(t.lookup("te".to_string()), None);
    // the branch node for the shared prefix carries no value
    assert_eq!(t.lookup("t".to_string()), None);
    // extension of a stored key
    assert_eq!(t.lookup("tests".to_string()), None);
    assert_eq!(t.lookup("".to_string()), None);
}

#[test]
fn empty_key() {
    let t = PatriciaTrie::empty().bind("".to_string(), 42);
    assert_eq!(t.lookup("".to_string()), Some(&42));
    let t2 = PatriciaTrie::empty()
        .bind("test".to_string(), 1)
        .bind("".to_string(), 0);
    assert_eq!(t2.lookup("".to_string()), Some(&0));
    assert_eq!(t2.lookup("test".to_string()), Some(&1));
    let t3 = t.bind("a".to_string(), 5);
    assert_eq!(t3.lookup("".to_string()), Some(&42));
    assert_eq!(t3.lookup("a".to_string()), Some(&5));
}

#[test]
fn helper_functions() {
    assert_eq!(longest_common_prefix("slow", "slower"), 4);
    assert_eq!(longest_common_prefix("test", "toast"), 1);
    assert_eq!(longest_common_prefix("", "abc"), 0);
    assert_eq!(longest_common_prefix("abc", "abc"), 3);
    assert_eq!(longest_common_prefix("abc", "xyz"), 0);
    assert_eq!(first_char_unwrap(&"water".to_string()), 'w');
}

#[test]
fn unicode_keys() {
    assert_eq!(longest_common_prefix("gr\u{fc}n", "gr\u{fc}\u{df}"), 3);
    let t = PatriciaTrie::empty()
        .bind("gr\u{fc}n".to_string(), 1)
        .bind("gr\u{fc}\u{df}".to_string(), 2)
        .bind("gr\u{fc}".to_string(), 3);
    assert_eq!(t.lookup("gr\u{fc}n".to_string()), Some(&1));
    assert_eq!(t.lookup("gr\u{fc}\u{df}".to_string()), Some(&2));
    assert_eq!(t.lookup("gr\u{fc}".to_string()), Some(&3));
    assert_eq!(t.lookup("gr".to_string()), None);
}

#[test]
fn render_shapes() {
    let nothing: PatriciaTrie<u32> = PatriciaTrie::empty();
    assert_eq!(nothing.render(), "()\n");
    let one = nothing.bind("ab".to_string(), 7);
    assert_eq!(one.render(), "\\-ab => (7)\n");
    let two = one.bind("ax".to_string(), 8);
    assert_eq!(two.render(), "\\-a\n  |-b => (7)\n  \\-x => (8)\n");
}
