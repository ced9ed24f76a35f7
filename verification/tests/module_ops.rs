use kitties::combine_dna;
use kitties::Error;
use kitties::Kitty;
use kitties::KittyLinkedItem;
use kitties::Module;

#[test]
fn combine_dna_selects_bits() {
    // Selector bit 1 takes the first parent's bit, 0 the second's.
    assert_eq!(combine_dna(0b1010_1010, 0b0101_0101, 0b1111_0000), 0b1010_0101);
    assert_eq!(combine_dna(0xAB, 0xCD, 0xFF), 0xAB);
    assert_eq!(combine_dna(0xAB, 0xCD, 0x00), 0xCD);
    assert_eq!(combine_dna(0xF0, 0x0F, 0x3C), 0b0011_0011);
}

#[test]
fn create_allocates_sequential_ids() {
    let caller = 5u64;
    let mut module = Module::new();
    assert_eq!(module.kitties_count(), 0);

    assert_eq!(module.create(caller, [1u8; 16]), Ok(()));
    assert_eq!(module.create(caller, [2u8; 16]), Ok(()));
    assert_eq!(module.create(caller, [3u8; 16]), Ok(()));

    assert_eq!(module.kitties_count(), 3);
    assert_eq!(module.owned_entities(caller), vec![0, 1, 2]);
    assert_eq!(module.kitties(0).unwrap().0, [1u8; 16]);
    assert_eq!(module.kitties(1).unwrap().0, [2u8; 16]);
    assert_eq!(module.kitties(2).unwrap().0, [3u8; 16]);
    assert!(module.kitties(3).is_none());

    // The caller's list is wired like any append sequence.
    assert_eq!(
        module.owned_kitties(caller, None),
        Some(KittyLinkedItem { prev: Some(2), next: Some(0) })
    );
    assert_eq!(
        module.owned_kitties(caller, Some(1)),
        Some(KittyLinkedItem { prev: Some(0), next: Some(2) })
    );
}

#[test]
fn breed_with_all_ones_selector_copies_first_parent() {
    let caller = 9u64;
    let mut module = Module::new();
    assert_eq!(module.create(caller, [0x11; 16]), Ok(()));
    assert_eq!(module.create(caller, [0x22; 16]), Ok(()));
    assert_eq!(module.create(caller, [0x33; 16]), Ok(()));
    assert_eq!(module.kitties_count(), 3);
    assert_eq!(module.owned_entities(caller), vec![0, 1, 2]);

    assert_eq!(module.do_breed(caller, 0, 1, [0xFF; 16]), Ok(()));

    assert_eq!(module.kitties_count(), 4);
    assert_eq!(module.kitties(3).unwrap().0, module.kitties(0).unwrap().0);
    assert_eq!(module.owned_entities(caller), vec![0, 1, 2, 3]);
}

#[test]
fn breed_combines_each_byte() {
    let caller = 1u64;
    let mut module = Module::new();
    let mut dna1 = [0u8; 16];
    let mut dna2 = [0u8; 16];
    let mut selector = [0u8; 16];
    for i in 0..16u8 {
        dna1[i as usize] = 0x10 + i;
        dna2[i as usize] = 0xA0 + i;
        selector[i as usize] = i.wrapping_mul(37);
    }
    assert_eq!(module.create(caller, dna1), Ok(()));
    assert_eq!(module.create(caller, dna2), Ok(()));
    assert_eq!(module.do_breed(caller, 0, 1, selector), Ok(()));

    let child = module.kitties(2).unwrap().0;
    for i in 0..16 {
        assert_eq!(child[i], combine_dna(dna1[i], dna2[i], selector[i]));
    }
}

#[test]
fn breed_rejects_missing_and_equal_parents() {
    let caller = 2u64;
    let mut module = Module::new();
    assert_eq!(module.do_breed(caller, 0, 1, [0u8; 16]), Err(Error::InvalidKittyId));

    assert_eq!(module.create(caller, [7u8; 16]), Ok(()));
    assert_eq!(module.do_breed(caller, 0, 1, [0u8; 16]), Err(Error::InvalidKittyId));
    assert_eq!(module.do_breed(caller, 3, 0, [0u8; 16]), Err(Error::InvalidKittyId));

    // Breeding a parent with itself fails and allocates no id.
    assert_eq!(module.do_breed(caller, 0, 0, [0u8; 16]), Err(Error::RequireDifferentParent));
    assert_eq!(module.kitties_count(), 1);
    assert_eq!(module.owned_entities(caller), vec![0]);
}

#[test]
fn create_overflows_at_max_id() {
    let caller = 3u64;
    let mut module = Module::new();
    module.insert_kitty(caller, u32::MAX - 1, Kitty([4u8; 16]));
    assert_eq!(module.kitties_count(), u32::MAX);
    assert_eq!(module.owned_entities(caller), vec![u32::MAX - 1]);

    assert_eq!(module.create(caller, [5u8; 16]), Err(Error::KittiesCountOverflow));

    // The counter, the entity map and the owner's list are untouched.
    assert_eq!(module.kitties_count(), u32::MAX);
    assert!(module.kitties(u32::MAX).is_none());
    assert_eq!(module.owned_entities(caller), vec![u32::MAX - 1]);
}

#[test]
fn breed_overflows_at_max_id() {
    let caller = 4u64;
    let mut module = Module::new();
    assert_eq!(module.create(caller, [1u8; 16]), Ok(()));
    assert_eq!(module.create(caller, [2u8; 16]), Ok(()));
    module.insert_kitty(caller, u32::MAX - 1, Kitty([9u8; 16]));
    assert_eq!(module.kitties_count(), u32::MAX);

    assert_eq!(module.do_breed(caller, 0, 1, [0u8; 16]), Err(Error::KittiesCountOverflow));
    assert_eq!(module.kitties_count(), u32::MAX);
    assert!(module.kitties(u32::MAX).is_none());
    assert_eq!(module.owned_entities(caller), vec![0, 1, u32::MAX - 1]);
}

#[test]
fn next_kitty_id_reports_the_counter() {
    let mut module = Module::new();
    assert_eq!(module.next_kitty_id(), Ok(0));
    assert_eq!(module.create(8, [0u8; 16]), Ok(()));
    assert_eq!(module.next_kitty_id(), Ok(1));

    module.insert_kitty(8, u32::MAX - 1, Kitty([0u8; 16]));
    assert_eq!(module.next_kitty_id(), Err(Error::KittiesCountOverflow));
}
