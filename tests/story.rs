use textadventure::story::{action_available, gain_items, has_item, Action, ActionDependencies};

fn names(items: &[&str]) -> Vec<String> {
    items.iter().map(|s| s.to_string()).collect()
}

#[test]
fn action_without_dependencies_is_offered() {
    let a = Action::default();
    assert!(action_available(&a.depends, &Vec::new()));
    assert!(a.transition.is_none() && a.music.is_none() && a.name.is_empty());
}

#[test]
fn needed_items_must_be_held() {
    let deps = ActionDependencies { not: Vec::new(), on: names(&["key", "lamp"]) };
    assert!(!action_available(&deps, &names(&["key"])));
    assert!(action_available(&deps, &names(&["lamp", "key", "coin"])));
}

#[test]
fn excluded_items_must_not_be_held() {
    let deps = ActionDependencies { not: names(&["ghost"]), on: names(&["key"]) };
    assert!(action_available(&deps, &names(&["key"])));
    assert!(!action_available(&deps, &names(&["key", "ghost"])));
}

#[test]
fn gained_items_are_held_once() {
    let mut inv = names(&["key"]);
    gain_items(&mut inv, &names(&["lamp", "key", "lamp", "coin"]));
    assert_eq!(inv, names(&["key", "lamp", "coin"]));
    assert!(has_item(&inv, &"lamp".to_string()));
    assert!(!has_item(&inv, &"rope".to_string()));
}
