use pumpkin_core::inventory::{
    can_change, can_click, can_combine, combine_stacks, handle_item_change, handle_item_take,
    handle_slot_click, ContainerStruct, InventoryError, ItemStack, MouseClick,
};

fn stack(item_id: u16, item_count: u8) -> Option<ItemStack> {
    Some(ItemStack { item_count, item_id })
}

#[test]
fn taking_from_an_empty_slot_changes_nothing() {
    let mut carried = stack(3, 4);
    let mut slot = None;
    handle_item_take(&mut carried, &mut slot, MouseClick::Left);
    assert_eq!(carried, stack(3, 4));
    assert_eq!(slot, None);
    handle_item_take(&mut carried, &mut slot, MouseClick::Right);
    assert_eq!(carried, stack(3, 4));
    assert_eq!(slot, None);
}

#[test]
fn left_click_takes_the_whole_stack() {
    let mut carried = None;
    let mut slot = stack(7, 33);
    handle_item_take(&mut carried, &mut slot, MouseClick::Left);
    assert_eq!(carried, stack(7, 33));
    assert_eq!(slot, None);
}

#[test]
fn right_click_takes_half_rounded_down() {
    let mut carried = None;
    let mut slot = stack(7, 33);
    handle_item_take(&mut carried, &mut slot, MouseClick::Right);
    assert_eq!(carried, stack(7, 16));
    assert_eq!(slot, stack(7, 17));

    let mut slot = stack(7, 64);
    handle_item_take(&mut carried, &mut slot, MouseClick::Right);
    assert_eq!(carried, stack(7, 32));
    assert_eq!(slot, stack(7, 32));
}

#[test]
fn right_click_on_a_single_item_leaves_it_there() {
    let mut carried = None;
    let mut slot = stack(7, 1);
    handle_item_take(&mut carried, &mut slot, MouseClick::Right);
    assert_eq!(carried, stack(7, 0));
    assert_eq!(slot, stack(7, 1));
}

#[test]
fn taking_replaces_what_was_carried() {
    let mut carried = stack(1, 60);
    let mut slot = stack(2, 10);
    handle_item_take(&mut carried, &mut slot, MouseClick::Left);
    assert_eq!(carried, stack(2, 10));
    assert_eq!(slot, None);
}

#[test]
fn combining_with_nothing_carried_changes_nothing() {
    let mut carried = None;
    let mut slot = ItemStack { item_count: 5, item_id: 1 };
    combine_stacks(&mut carried, &mut slot, MouseClick::Left);
    assert_eq!(carried, None);
    assert_eq!(slot, ItemStack { item_count: 5, item_id: 1 });
}

#[test]
fn left_click_puts_the_whole_carried_stack_down() {
    let mut carried = stack(1, 20);
    let mut slot = ItemStack { item_count: 30, item_id: 1 };
    combine_stacks(&mut carried, &mut slot, MouseClick::Left);
    assert_eq!(carried, None);
    assert_eq!(slot, ItemStack { item_count: 50, item_id: 1 });
}

#[test]
fn left_click_fills_the_slot_to_exactly_sixty_four() {
    let mut carried = stack(1, 34);
    let mut slot = ItemStack { item_count: 30, item_id: 1 };
    combine_stacks(&mut carried, &mut slot, MouseClick::Left);
    assert_eq!(carried, None);
    assert_eq!(slot, ItemStack { item_count: 64, item_id: 1 });
}

#[test]
fn left_click_keeps_what_does_not_fit() {
    let mut carried = stack(1, 40);
    let mut slot = ItemStack { item_count: 30, item_id: 1 };
    combine_stacks(&mut carried, &mut slot, MouseClick::Left);
    assert_eq!(carried, stack(1, 6));
    assert_eq!(slot, ItemStack { item_count: 64, item_id: 1 });
}

#[test]
fn right_click_puts_one_item_down() {
    let mut carried = stack(1, 40);
    let mut slot = ItemStack { item_count: 30, item_id: 1 };
    combine_stacks(&mut carried, &mut slot, MouseClick::Right);
    assert_eq!(carried, stack(1, 39));
    assert_eq!(slot, ItemStack { item_count: 31, item_id: 1 });

    let mut carried = stack(1, 1);
    combine_stacks(&mut carried, &mut slot, MouseClick::Right);
    assert_eq!(carried, None);
    assert_eq!(slot, ItemStack { item_count: 32, item_id: 1 });
}

#[test]
fn right_click_on_a_full_slot_leaves_one_carried() {
    let mut carried = stack(1, 40);
    let mut slot = ItemStack { item_count: 64, item_id: 1 };
    combine_stacks(&mut carried, &mut slot, MouseClick::Right);
    assert_eq!(carried, stack(1, 1));
    assert_eq!(slot, ItemStack { item_count: 64, item_id: 1 });
}

#[test]
fn combining_keeps_the_kinds() {
    let mut carried = stack(9, 3);
    let mut slot = ItemStack { item_count: 63, item_id: 4 };
    combine_stacks(&mut carried, &mut slot, MouseClick::Left);
    assert_eq!(carried, stack(9, 2));
    assert_eq!(slot, ItemStack { item_count: 64, item_id: 4 });
}

#[test]
fn click_combines_stacks_of_one_kind() {
    let mut carried = stack(5, 10);
    let mut slot = stack(5, 60);
    handle_item_change(&mut carried, &mut slot, MouseClick::Left);
    assert_eq!(carried, stack(5, 6));
    assert_eq!(slot, stack(5, 64));

    handle_item_change(&mut carried, &mut slot, MouseClick::Right);
    assert_eq!(carried, stack(5, 1));
    assert_eq!(slot, stack(5, 64));
}

#[test]
fn left_click_swaps_stacks_of_different_kinds() {
    let mut carried = stack(5, 10);
    let mut slot = stack(6, 60);
    handle_item_change(&mut carried, &mut slot, MouseClick::Left);
    assert_eq!(carried, stack(6, 60));
    assert_eq!(slot, stack(5, 10));
}

#[test]
fn right_click_leaves_stacks_of_different_kinds() {
    let mut carried = stack(5, 10);
    let mut slot = stack(6, 60);
    handle_item_change(&mut carried, &mut slot, MouseClick::Right);
    assert_eq!(carried, stack(5, 10));
    assert_eq!(slot, stack(6, 60));
}

#[test]
fn left_click_puts_the_carried_stack_into_an_empty_slot() {
    let mut carried = stack(5, 10);
    let mut slot = None;
    handle_item_change(&mut carried, &mut slot, MouseClick::Left);
    assert_eq!(carried, None);
    assert_eq!(slot, stack(5, 10));
}

#[test]
fn right_click_puts_one_item_into_an_empty_slot() {
    let mut carried = stack(5, 10);
    let mut slot = None;
    handle_item_change(&mut carried, &mut slot, MouseClick::Right);
    assert_eq!(carried, stack(5, 9));
    assert_eq!(slot, stack(5, 1));

    let mut carried = stack(5, 1);
    let mut slot = None;
    handle_item_change(&mut carried, &mut slot, MouseClick::Right);
    assert_eq!(carried, stack(5, 0));
    assert_eq!(slot, stack(5, 1));
}

#[test]
fn click_with_nothing_carried_takes_from_the_slot() {
    let mut carried = None;
    let mut slot = stack(5, 9);
    handle_item_change(&mut carried, &mut slot, MouseClick::Right);
    assert_eq!(carried, stack(5, 4));
    assert_eq!(slot, stack(5, 5));
    let mut carried = None;
    handle_item_change(&mut carried, &mut slot, MouseClick::Left);
    assert_eq!(carried, stack(5, 5));
    assert_eq!(slot, None);
}

#[test]
fn click_with_nothing_anywhere_changes_nothing() {
    let mut carried = None;
    let mut slot = None;
    handle_item_change(&mut carried, &mut slot, MouseClick::Left);
    assert_eq!(carried, None);
    assert_eq!(slot, None);
}

#[test]
fn container_refuses_a_slot_past_its_end() {
    let mut container = ContainerStruct([stack(1, 1), None, stack(2, 2)]);
    let mut carried = stack(4, 4);
    let handled = container.handle_item_change(&mut carried, 4, MouseClick::Left, false);
    assert_eq!(handled, Err(InventoryError::InvalidSlot));
    assert_eq!(container.0, [stack(1, 1), None, stack(2, 2)]);
    assert_eq!(carried, stack(4, 4));
}

#[test]
fn container_click_changes_one_slot() {
    let mut container = ContainerStruct([stack(1, 1), None, stack(2, 2)]);
    let mut carried = stack(2, 5);
    assert_eq!(container.handle_item_change(&mut carried, 2, MouseClick::Left, false), Ok(()));
    assert_eq!(container.0, [stack(1, 1), None, stack(2, 7)]);
    assert_eq!(carried, None);

    let mut carried = stack(9, 9);
    assert_eq!(container.handle_item_change(&mut carried, 1, MouseClick::Right, false), Ok(()));
    assert_eq!(container.0, [stack(1, 1), stack(9, 1), stack(2, 7)]);
    assert_eq!(carried, stack(9, 8));
}

#[test]
fn taking_a_crafted_stack_moves_it_to_the_cursor() {
    let mut container = ContainerStruct([stack(3, 4), None]);
    let mut carried = None;
    assert_eq!(container.handle_item_change(&mut carried, 0, MouseClick::Left, true), Ok(()));
    assert_eq!(container.0, [None, None]);
    assert_eq!(carried, stack(3, 4));

    // Onto a carried stack of the same kind.
    let mut container = ContainerStruct([stack(3, 4), None]);
    let mut carried = stack(3, 10);
    assert_eq!(container.handle_item_change(&mut carried, 0, MouseClick::Left, true), Ok(()));
    assert_eq!(container.0, [None, None]);
    assert_eq!(carried, stack(3, 14));
}

#[test]
fn taking_a_crafted_stack_never_puts_anything_down() {
    // A carried stack of another kind stays.
    let mut container = ContainerStruct([stack(3, 4), None]);
    let mut carried = stack(8, 10);
    assert_eq!(container.handle_item_change(&mut carried, 0, MouseClick::Left, true), Ok(()));
    assert_eq!(container.0, [stack(3, 4), None]);
    assert_eq!(carried, stack(8, 10));

    // An empty slot gives nothing and takes nothing.
    assert_eq!(container.handle_item_change(&mut carried, 1, MouseClick::Left, true), Ok(()));
    assert_eq!(container.0, [stack(3, 4), None]);
    assert_eq!(carried, stack(8, 10));
    let mut carried = None;
    assert_eq!(container.handle_item_change(&mut carried, 1, MouseClick::Right, true), Ok(()));
    assert_eq!(container.0, [stack(3, 4), None]);
    assert_eq!(carried, None);
}

#[test]
fn clearing_empties_every_slot() {
    let mut container = ContainerStruct([stack(1, 1), None, stack(2, 2), stack(3, 64)]);
    container.clear_all_slots();
    assert_eq!(container.0, [None, None, None, None]);
    let mut none = ContainerStruct::<0>([]);
    none.clear_all_slots();
    assert_eq!(none.0, []);
}

#[test]
fn combining_fits_while_the_counts_do() {
    let slot = |count| ItemStack { item_count: count, item_id: 1 };
    assert!(can_combine(&None, &slot(255), MouseClick::Left));
    assert!(can_combine(&stack(1, 64), &slot(64), MouseClick::Left));
    assert!(can_combine(&stack(1, 55), &slot(200), MouseClick::Left));
    assert!(!can_combine(&stack(1, 56), &slot(200), MouseClick::Left));
    assert!(can_combine(&stack(1, 9), &slot(254), MouseClick::Right));
    assert!(!can_combine(&stack(1, 9), &slot(255), MouseClick::Right));
    // One item cannot be put down from a stack of none.
    assert!(!can_combine(&stack(1, 0), &slot(10), MouseClick::Right));
    assert!(!can_combine(&stack(1, 0), &slot(63), MouseClick::Right));
    assert!(can_combine(&stack(1, 0), &slot(64), MouseClick::Right));
    assert!(can_combine(&stack(1, 0), &slot(10), MouseClick::Left));
}

#[test]
fn a_click_fits_while_the_counts_do() {
    assert!(can_change(&None, &None, MouseClick::Right));
    assert!(can_change(&None, &stack(1, 0), MouseClick::Right));
    assert!(can_change(&stack(1, 0), &None, MouseClick::Left));
    assert!(!can_change(&stack(1, 0), &None, MouseClick::Right));
    assert!(can_change(&stack(1, 1), &None, MouseClick::Right));
    assert!(can_change(&stack(1, 200), &stack(2, 200), MouseClick::Left));
    assert!(!can_change(&stack(1, 200), &stack(1, 200), MouseClick::Left));
    assert!(can_change(&stack(1, 20), &stack(1, 200), MouseClick::Left));

    // Taking a crafted stack puts the slot in the place of the carried stack.
    assert!(!can_click(&None, &stack(1, 0), MouseClick::Right, true));
    assert!(can_click(&None, &stack(1, 0), MouseClick::Right, false));
    assert!(can_click(&stack(1, 0), &None, MouseClick::Right, true));
    assert!(!can_click(&stack(1, 0), &None, MouseClick::Right, false));
}

#[test]
fn slot_click_follows_the_kind_of_click() {
    let mut carried = stack(3, 10);
    let mut there = stack(3, 4);
    handle_slot_click(&mut carried, &mut there, MouseClick::Right, false);
    assert_eq!(carried, stack(3, 9));
    assert_eq!(there, stack(3, 5));

    handle_slot_click(&mut carried, &mut there, MouseClick::Right, true);
    assert_eq!(carried, stack(3, 10));
    assert_eq!(there, stack(3, 4));

    handle_slot_click(&mut carried, &mut there, MouseClick::Left, true);
    assert_eq!(carried, stack(3, 14));
    assert_eq!(there, None);

    let mut there = stack(3, 60);
    handle_slot_click(&mut carried, &mut there, MouseClick::Left, true);
    assert_eq!(carried, stack(3, 64));
    assert_eq!(there, stack(3, 10));
}
