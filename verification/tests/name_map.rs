use deckliste_rs::NameMap;

#[test]
fn a_new_map_is_empty() {
    let m: NameMap<bool> = NameMap::new();
    assert_eq!(m.len(), 0);
    assert_eq!(m.get("standard"), None);
    assert_eq!(m.position("standard"), None);
}

#[test]
fn set_replaces_and_keeps_the_place() {
    let mut m: NameMap<u32> = NameMap::new();
    m.set(String::from("a"), 1);
    m.set(String::from("b"), 2);
    m.set(String::from("a"), 3);
    assert_eq!(m.len(), 2);
    assert_eq!(m.position("a"), Some(0));
    assert_eq!(m.position("b"), Some(1));
    assert_eq!(m.name_at(0), "a");
    assert_eq!(m.value_at(0), 3);
    assert_eq!(m.name_at(1), "b");
    assert_eq!(m.value_at(1), 2);
    assert_eq!(m.get("a"), Some(3));
    assert_eq!(m.get("b"), Some(2));
    assert_eq!(m.get("A"), None);
    assert_eq!(m.get(""), None);
}
