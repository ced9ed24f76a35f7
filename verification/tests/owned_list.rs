use kitties::KittyLinkedItem;
use kitties::OwnedKitties;

#[test]
fn owned_kitties_can_append_values() {
    let mut owned = OwnedKitties::new();

    owned.append(0, 1);

    assert_eq!(owned.get(0, None), Some(KittyLinkedItem { prev: Some(1), next: Some(1) }));
    assert_eq!(owned.get(0, Some(1)), Some(KittyLinkedItem { prev: None, next: None }));

    owned.append(0, 2);

    assert_eq!(owned.get(0, None), Some(KittyLinkedItem { prev: Some(2), next: Some(1) }));
    assert_eq!(owned.get(0, Some(1)), Some(KittyLinkedItem { prev: None, next: Some(2) }));
    assert_eq!(owned.get(0, Some(2)), Some(KittyLinkedItem { prev: Some(1), next: None }));

    owned.append(0, 3);

    assert_eq!(owned.get(0, None), Some(KittyLinkedItem { prev: Some(3), next: Some(1) }));
    assert_eq!(owned.get(0, Some(1)), Some(KittyLinkedItem { prev: None, next: Some(2) }));
    assert_eq!(owned.get(0, Some(2)), Some(KittyLinkedItem { prev: Some(1), next: Some(3) }));
    assert_eq!(owned.get(0, Some(3)), Some(KittyLinkedItem { prev: Some(2), next: None }));
}

#[test]
fn owned_kitties_can_remove_values() {
    let mut owned = OwnedKitties::new();
    owned.append(0, 1);
    owned.append(0, 2);
    owned.append(0, 3);
    owned.append(0, 4);

    // Middle element: neighbours are reconnected both ways.
    owned.remove(0, 2);
    assert_eq!(owned.enumerate(0), vec![1, 3, 4]);
    assert_eq!(owned.get(0, None), Some(KittyLinkedItem { prev: Some(4), next: Some(1) }));
    assert_eq!(owned.get(0, Some(1)), Some(KittyLinkedItem { prev: None, next: Some(3) }));
    assert_eq!(owned.get(0, Some(3)), Some(KittyLinkedItem { prev: Some(1), next: Some(4) }));
    assert_eq!(owned.get(0, Some(2)), None);

    // Head element: the sentinel's forward pointer moves on.
    owned.remove(0, 1);
    assert_eq!(owned.enumerate(0), vec![3, 4]);
    assert_eq!(owned.get(0, None), Some(KittyLinkedItem { prev: Some(4), next: Some(3) }));
    assert_eq!(owned.get(0, Some(3)), Some(KittyLinkedItem { prev: None, next: Some(4) }));

    // Tail element: the sentinel's tail cursor moves back.
    owned.remove(0, 4);
    assert_eq!(owned.enumerate(0), vec![3]);
    assert_eq!(owned.get(0, None), Some(KittyLinkedItem { prev: Some(3), next: Some(3) }));
    assert_eq!(owned.get(0, Some(3)), Some(KittyLinkedItem { prev: None, next: None }));

    // Sole element: the sentinel returns to the empty default.
    owned.remove(0, 3);
    assert_eq!(owned.enumerate(0), Vec::<u32>::new());
    assert_eq!(owned.get(0, None), Some(KittyLinkedItem { prev: None, next: None }));
    assert_eq!(owned.get(0, Some(3)), None);

    // Removing an id that is not there is a no-op.
    owned.remove(0, 9);
    assert_eq!(owned.enumerate(0), Vec::<u32>::new());
}

#[test]
fn lists_of_different_owners_stay_apart() {
    let mut owned = OwnedKitties::new();
    owned.append(1, 10);
    owned.append(2, 20);
    owned.append(1, 11);

    assert_eq!(owned.enumerate(1), vec![10, 11]);
    assert_eq!(owned.enumerate(2), vec![20]);

    owned.remove(1, 10);
    assert_eq!(owned.enumerate(1), vec![11]);
    assert_eq!(owned.enumerate(2), vec![20]);
}

#[test]
fn enumerate_of_unknown_owner_is_empty() {
    let owned = OwnedKitties::new();
    assert_eq!(owned.enumerate(42), Vec::<u32>::new());
    assert_eq!(owned.get(42, None), None);
}
