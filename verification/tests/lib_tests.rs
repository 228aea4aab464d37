use abr::ABR;

#[test]
fn lib_new() {
    let a: ABR<u32, u32> = ABR::new();
    assert!(a.root.is_none());
}

#[test]
fn lib_insert() {
    let mut a = ABR::new();
    a.insert("Two", 2);
    assert_eq!(a.length, 1);
}

#[test]
fn lib_insert_multiple() {
    let mut a = ABR::new();
    a.insert("Two", 2);
    a.insert("Three", 3);
    a.insert("Four", 4);
    assert_eq!(a.length, 3);
}

#[test]
fn lib_insert_equal() {
    let mut a = ABR::new();
    a.insert("Two", 2);
    a.insert("Three", 3);
    a.insert("Three", 4);
    assert_eq!(a.length, 2);
}

#[test]
fn lib_contains_key() {
    let mut a = ABR::new();
    a.insert("Two", 2);
    a.insert("Three", 3);
    a.insert("Three", 4);
    assert!(a.contains_key("Three"));
}

#[test]
fn lib_contains_key_false() {
    let mut a = ABR::new();
    a.insert("Two", 2);
    a.insert("Three", 3);
    a.insert("Three", 4);
    assert!(!a.contains_key("Four"));
}

#[test]
fn lib_get() {
    let mut a = ABR::new();
    a.insert("Two", 2);
    a.insert("Three", 3);
    a.insert("Four", 4);
    assert_eq!(*a.get("Four").unwrap(), 4);
}

#[test]
fn lib_get_none() {
    let mut a = ABR::new();
    a.insert("Two", 2);
    a.insert("Three", 3);
    a.insert("Four", 4);
    assert!(a.get("Five").is_none());
}
