use postfix_eval::bindings::Bindings;

fn s(text: &str) -> String {
    text.to_string()
}

#[test]
fn new_table_binds_nothing() {
    let b = Bindings::new();
    assert_eq!(b.get(&s("x")), None);
    assert!(b.to_vec().is_empty());
}

#[test]
fn insert_binds_and_overwrites() {
    let mut b = Bindings::new();
    b.insert(s("x"), s("1"));
    b.insert(s("y"), s("2"));
    assert_eq!(b.get(&s("x")), Some(&s("1")));
    b.insert(s("x"), s("3"));
    assert_eq!(b.get(&s("x")), Some(&s("3")));
    assert_eq!(b.get(&s("y")), Some(&s("2")));
    assert_eq!(b.to_vec().len(), 2);
}

#[test]
fn merge_prefers_the_other_table() {
    let mut a = Bindings::new();
    a.insert(s("x"), s("1"));
    a.insert(s("y"), s("2"));
    let mut b = Bindings::new();
    b.insert(s("y"), s("20"));
    b.insert(s("z"), s("30"));
    a.merge(&b);
    let mut all = a.to_vec();
    all.sort();
    assert_eq!(all, vec![(s("x"), s("1")), (s("y"), s("20")), (s("z"), s("30"))]);
}

#[test]
fn duplicate_is_independent() {
    let mut a = Bindings::new();
    a.insert(s("x"), s("1"));
    let mut b = a.duplicate();
    b.insert(s("x"), s("2"));
    assert_eq!(a.get(&s("x")), Some(&s("1")));
    assert_eq!(b.get(&s("x")), Some(&s("2")));
}
