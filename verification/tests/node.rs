use trie_map::node::{new_child_array, Node, FANOUT};

#[test]
fn fanout_is_256() {
    assert_eq!(FANOUT, 256);
}

#[test]
fn default_node_is_empty() {
    let n = Node::<i32>::default();
    assert!(n.value.is_none());
    assert!(n.children.is_none());
}

#[test]
fn new_child_array_has_a_free_slot_for_each_byte() {
    let slots = new_child_array::<i32>();
    assert_eq!(slots.len(), 256);
    assert!(slots.iter().all(|slot| slot.is_none()));
}

#[test]
fn get_child_of_a_leaf_is_none() {
    let n = Node::<i32>::default();
    assert!(n.get_child(0).is_none());
    assert!(n.get_child(114).is_none());
    assert!(n.get_child(255).is_none());
    assert!(n.children.is_none());
}

#[test]
fn get_or_add_child_makes_the_array_and_the_child() {
    let mut n = Node::<i32>::default();
    {
        let c = n.get_or_add_child(114);
        assert!(c.value.is_none());
        assert!(c.children.is_none());
    }
    let slots = n.children.as_ref().unwrap();
    assert_eq!(slots.len(), 256);
    for (i, slot) in slots.iter().enumerate() {
        assert_eq!(slot.is_some(), i == 114);
    }
    assert!(n.value.is_none());
    assert!(n.get_child(114).is_some());
    assert!(n.get_child(113).is_none());
    assert!(n.get_child(115).is_none());
}

#[test]
fn get_or_add_child_returns_the_child_that_is_there() {
    let mut n = Node::<i32>::default();
    n.get_or_add_child(7).value = Some(Box::new(70));
    n.get_or_add_child(0).value = Some(Box::new(1));
    n.get_or_add_child(255).value = Some(Box::new(2));

    assert_eq!(n.get_or_add_child(7).value, Some(Box::new(70)));
    assert_eq!(n.get_child(7).unwrap().value, Some(Box::new(70)));
    assert_eq!(n.get_child(0).unwrap().value, Some(Box::new(1)));
    assert_eq!(n.get_child(255).unwrap().value, Some(Box::new(2)));
    assert!(n.get_child(8).is_none());
}

#[test]
fn writing_through_a_child_changes_only_that_child() {
    let mut n = Node::<&str>::default();
    n.value = Some(Box::new("root"));
    n.get_or_add_child(1).value = Some(Box::new("one"));
    n.get_or_add_child(2).get_or_add_child(3).value = Some(Box::new("two-three"));

    assert_eq!(n.value, Some(Box::new("root")));
    assert_eq!(n.get_child(1).unwrap().value, Some(Box::new("one")));
    let two = n.get_child(2).unwrap();
    assert!(two.value.is_none());
    assert_eq!(two.get_child(3).unwrap().value, Some(Box::new("two-three")));
    assert!(two.get_child(1).is_none());
}
