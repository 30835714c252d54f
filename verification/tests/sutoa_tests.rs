use tablestore::sutoa::Sutoa;

#[test]
fn test_sutoa_new() {
    let s: Sutoa<String> = Sutoa::new();
    assert_eq!(s.next, 0);

    let empty_vec: Vec<String> = vec![];
    assert_eq!(s.list, empty_vec);
}

#[test]
fn test_sutoa_set() {
    let mut s: Sutoa<String> = Sutoa::new();
    assert_eq!(s.next, 0);
    assert_eq!(s.list.len(), 0);

    s.set("my life".to_string());
    assert_eq!(s.next, 1);
    assert_eq!(s.list.len(), 1);

    s.set("your life".to_string());
    s.set("your life".to_string());
    assert_eq!(s.next, 2);
    assert_eq!(s.list.len(), 2);

    s.set("your life".to_string());
    s.set("my life".to_string());
    assert_eq!(s.next, 2);
    assert_eq!(s.list.len(), 2);
}

#[test]
fn test_sutoa_intern() {
    let mut s: Sutoa<String> = Sutoa::new();

    assert_eq!(s.intern("alpha".to_string()), 0);
    assert_eq!(s.intern("beta".to_string()), 1);
    assert_eq!(s.intern("alpha".to_string()), 0);
    assert_eq!(s.intern("beta".to_string()), 1);
    assert_eq!(s.intern("gamma".to_string()), 2);
    assert_eq!(s.len(), 3);
}

#[test]
fn test_sutoa_get() {
    let mut s: Sutoa<String> = Sutoa::new();

    s.set("my life".to_string());
    s.set("no life".to_string());
    s.set("no life".to_string());
    s.set("third life".to_string());
    s.set("no life".to_string());

    let val = s.get(0);
    assert_eq!(val, Some(&"my life".to_string()));

    let val = s.get(1);
    assert_eq!(val, Some(&"no life".to_string()));

    let val = s.get(2);
    assert_eq!(val, Some(&"third life".to_string()));

    let val = s.get(3);
    assert_eq!(val, None);
}

#[test]
fn test_sutoa_get_key() {
    let mut s: Sutoa<String> = Sutoa::new();

    s.set("my life".to_string());
    s.set("no life".to_string());
    s.set("no life".to_string());
    s.set("no life".to_string());
    s.set("third life".to_string());
    s.set("no life".to_string());

    let key = s.get_key("my life".to_string());
    assert_eq!(key, Some(0));

    let key = s.get_key("no life".to_string());
    assert_eq!(key, Some(1));

    let key = s.get_key("third life".to_string());
    assert_eq!(key, Some(2));

    let key = s.get_key("missing string".to_string());
    assert_eq!(key, None);
}
