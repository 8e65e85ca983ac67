use relay_hub::registry::{ClientRegistry, SinkHandle};
use std::collections::HashMap;

fn h(id: u64) -> SinkHandle {
    SinkHandle { id }
}

#[test]
fn new_registry_knows_nobody() {
    let registry = ClientRegistry::new();
    assert_eq!(registry.lookup("Laptop"), None);
    assert!(registry.list_online().is_empty());
}

#[test]
fn registered_identity_is_found() {
    let mut registry = ClientRegistry::new();
    registry.register("Laptop".to_string(), h(1));
    registry.register("Phone".to_string(), h(2));
    assert_eq!(registry.lookup("Laptop"), Some(h(1)));
    assert_eq!(registry.lookup("Phone"), Some(h(2)));
    assert_eq!(registry.lookup("laptop"), None);
    assert_eq!(registry.lookup(""), None);
}

#[test]
fn later_registration_replaces_the_earlier() {
    let mut registry = ClientRegistry::new();
    registry.register("X".to_string(), h(1));
    registry.register("X".to_string(), h(2));
    assert_eq!(registry.lookup("X"), Some(h(2)));
    assert_eq!(registry.list_online(), vec!["X".to_string()]);
}

#[test]
fn unregister_removes_own_entry() {
    let mut registry = ClientRegistry::new();
    registry.register("X".to_string(), h(1));
    registry.register("Y".to_string(), h(2));
    assert!(registry.unregister("X", h(1)));
    assert_eq!(registry.lookup("X"), None);
    assert_eq!(registry.lookup("Y"), Some(h(2)));
}

#[test]
fn stale_unregister_does_not_evict_the_newer_session() {
    let mut registry = ClientRegistry::new();
    registry.register("X".to_string(), h(1));
    registry.register("X".to_string(), h(2));
    assert!(!registry.unregister("X", h(1)));
    assert_eq!(registry.lookup("X"), Some(h(2)));
    assert!(registry.unregister("X", h(2)));
    assert_eq!(registry.lookup("X"), None);
}

#[test]
fn unregister_twice_is_unregister_once() {
    let mut once = ClientRegistry::new();
    let mut twice = ClientRegistry::new();
    for r in [&mut once, &mut twice] {
        r.register("X".to_string(), h(1));
        r.register("Y".to_string(), h(2));
    }
    assert!(once.unregister("X", h(1)));
    assert!(twice.unregister("X", h(1)));
    assert!(!twice.unregister("X", h(1)));
    assert_eq!(once.lookup("X"), twice.lookup("X"));
    assert_eq!(once.lookup("Y"), twice.lookup("Y"));
    assert_eq!(once.list_online(), twice.list_online());
}

#[test]
fn unregister_of_an_unknown_identity_changes_nothing() {
    let mut registry = ClientRegistry::new();
    registry.register("X".to_string(), h(1));
    assert!(!registry.unregister("Z", h(1)));
    assert_eq!(registry.lookup("X"), Some(h(1)));
}

#[test]
fn empty_identity_is_an_identity() {
    let mut registry = ClientRegistry::new();
    registry.register(String::new(), h(4));
    assert_eq!(registry.lookup(""), Some(h(4)));
    assert_eq!(registry.list_online(), vec![String::new()]);
}

#[test]
fn list_names_everyone_once() {
    let mut registry = ClientRegistry::new();
    registry.register("a".to_string(), h(1));
    registry.register("b".to_string(), h(2));
    registry.register("a".to_string(), h(3));
    registry.register("c".to_string(), h(4));
    registry.unregister("b", h(2));
    let mut names = registry.list_online();
    names.sort();
    assert_eq!(names, vec!["a".to_string(), "c".to_string()]);
}

#[test]
fn lookup_follows_the_latest_standing_registration() {
    // (register?, identity, handle); a plain map plays the same steps.
    let steps: Vec<(bool, &str, u64)> = vec![
        (true, "X", 1),
        (true, "Y", 2),
        (false, "X", 9),
        (true, "X", 3),
        (false, "X", 1),
        (false, "Y", 2),
        (true, "Y", 2),
        (false, "X", 3),
        (false, "X", 3),
        (true, "Z", 7),
        (false, "Y", 2),
        (true, "X", 1),
    ];
    let mut registry = ClientRegistry::new();
    let mut model: HashMap<String, u64> = HashMap::new();
    for (register, identity, handle) in steps {
        if register {
            registry.register(identity.to_string(), h(handle));
            model.insert(identity.to_string(), handle);
        } else {
            let removed = registry.unregister(identity, h(handle));
            let expected = model.get(identity) == Some(&handle);
            if expected {
                model.remove(identity);
            }
            assert_eq!(removed, expected);
        }
        for name in ["X", "Y", "Z", "W"] {
            assert_eq!(registry.lookup(name), model.get(name).map(|id| h(*id)));
        }
    }
    assert_eq!(registry.lookup("X"), Some(h(1)));
    assert_eq!(registry.lookup("Y"), None);
    assert_eq!(registry.lookup("Z"), Some(h(7)));
}
