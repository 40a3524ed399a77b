//! Moving item stacks between the slots of a container and the stack that
//! the player carries on the cursor.

use vstd::prelude::*;

verus! {

/// A stack of items of one kind.
#[derive(Clone, Copy, Debug, PartialEq, Eq, Structural)]
pub struct ItemStack {
    pub item_count: u8,
    pub item_id: u16,
}

/// The mouse button of a click on a slot.
#[derive(Clone, Copy, Debug, PartialEq, Eq, Structural)]
pub enum MouseClick {
    Left,
    Right,
}

/// Why a click was refused.
#[derive(Clone, Copy, Debug, PartialEq, Eq, Structural)]
pub enum InventoryError {
    /// The container has no such slot.
    InvalidSlot,
}

/// The carried stack and the stack of a slot, before or after a click.
pub struct Exchange {
    pub carried: Option<ItemStack>,
    pub slot: Option<ItemStack>,
}

impl ItemStack {
    /// The same items, `count` of them.
    pub open spec fn with_count(self, count: int) -> ItemStack {
        ItemStack { item_count: count as u8, item_id: self.item_id }
    }
}

/// Taking from a slot. An empty slot gives nothing and keeps what is
/// carried. A left click takes the whole stack. A right click takes half
/// of it, rounded down, and leaves the rest. What was carried before is
/// replaced.
pub open spec fn take(carried: Option<ItemStack>, slot: Option<ItemStack>, click: MouseClick)
    -> Exchange {
    match slot {
        None => Exchange { carried, slot },
        Some(item) => match click {
            MouseClick::Left => Exchange { carried: Some(item), slot: None },
            MouseClick::Right => Exchange {
                carried: Some(item.with_count((item.item_count / 2) as int)),
                slot: Some(item.with_count(item.item_count - item.item_count / 2)),
            },
        },
    }
}

/// How many items a click moves from the carried stack onto a slot: all of
/// them with the left button, one with the right.
pub open spec fn moved(carried: ItemStack, click: MouseClick) -> int {
    match click {
        MouseClick::Left => carried.item_count as int,
        MouseClick::Right => 1,
    }
}

/// Whether the counts that putting `carried` onto `slot` computes fit: the
/// sum in a byte, and the items moved in what is carried.
pub open spec fn combine_fits(carried: Option<ItemStack>, slot: ItemStack, click: MouseClick)
    -> bool {
    carried is Some ==> {
        &&& slot.item_count + moved(carried->0, click) <= 255
        &&& slot.item_count + moved(carried->0, click) <= 64 ==> moved(carried->0, click)
            <= carried->0.item_count
    }
}

/// Putting the carried stack onto a slot that holds a stack. Up to 64
/// items the slot takes what is moved, and a carried stack that runs out
/// is gone. Beyond 64 the slot is filled, and what does not fit becomes
/// the count of the carried stack.
pub open spec fn combine(carried: Option<ItemStack>, slot: ItemStack, click: MouseClick)
    -> Exchange {
    match carried {
        None => Exchange { carried, slot: Some(slot) },
        Some(held) => {
            let sum = slot.item_count + moved(held, click);
            if sum <= 64 {
                Exchange {
                    carried: if held.item_count - moved(held, click) == 0 {
                        None
                    } else {
                        Some(held.with_count(held.item_count - moved(held, click)))
                    },
                    slot: Some(slot.with_count(sum)),
                }
            } else {
                Exchange {
                    carried: Some(held.with_count(sum - 64)),
                    slot: Some(slot.with_count(64)),
                }
            }
        },
    }
}

/// Whether the counts that a click computes fit.
pub open spec fn change_fits(
    carried: Option<ItemStack>,
    current: Option<ItemStack>,
    click: MouseClick,
) -> bool {
    match (current, carried) {
        (Some(there), Some(held)) => there.item_id == held.item_id ==> combine_fits(
            carried,
            there,
            click,
        ),
        (None, Some(held)) => click == MouseClick::Right ==> held.item_count >= 1,
        _ => true,
    }
}

/// A click on a slot. Two stacks of one kind are combined; two of
/// different kinds change places on a left click, and stay on a right
/// click. A carried stack goes into an empty slot whole on a left click,
/// one item of it on a right click. With nothing carried the click takes
/// from the slot.
pub open spec fn change(
    carried: Option<ItemStack>,
    current: Option<ItemStack>,
    click: MouseClick,
) -> Exchange {
    match (current, carried) {
        (Some(there), Some(held)) => {
            if there.item_id == held.item_id {
                combine(carried, there, click)
            } else if click == MouseClick::Left {
                Exchange { carried: current, slot: carried }
            } else {
                Exchange { carried, slot: current }
            }
        },
        (None, Some(held)) => match click {
            MouseClick::Left => Exchange { carried: None, slot: carried },
            MouseClick::Right => Exchange {
                carried: Some(held.with_count(held.item_count - 1)),
                slot: Some(held.with_count(1)),
            },
        },
        (Some(_), None) => take(carried, current, click),
        (None, None) => Exchange { carried, slot: current },
    }
}

/// How many items a stack holds; an empty slot holds none.
pub open spec fn count(stack: Option<ItemStack>) -> int {
    match stack {
        None => 0,
        Some(held) => held.item_count as int,
    }
}

/// Taking from a slot loses no item of the slot and makes none.
pub proof fn lemma_take_keeps_the_items(
    carried: Option<ItemStack>,
    slot: Option<ItemStack>,
    click: MouseClick,
)
    ensures
        slot is Some ==> count(take(carried, slot, click).carried) + count(
            take(carried, slot, click).slot,
        ) == count(slot),
{
}

/// Combining loses no item and makes none, but for a right click on a slot
/// that holds 64 items or more: there what is carried becomes what does
/// not fit, whatever was carried.
pub proof fn lemma_combine_keeps_the_items(
    carried: Option<ItemStack>,
    slot: ItemStack,
    click: MouseClick,
)
    requires
        combine_fits(carried, slot, click),
        !(carried is Some && click == MouseClick::Right && slot.item_count >= 64),
    ensures
        count(combine(carried, slot, click).carried) + count(combine(carried, slot, click).slot)
            == count(carried) + slot.item_count,
        count(combine(carried, slot, click).slot) <= 64 || count(
            combine(carried, slot, click).slot,
        ) == slot.item_count,
{
}

/// Whether `combine_stacks` may be called on these stacks.
pub fn can_combine(carried: &Option<ItemStack>, slot: &ItemStack, mouse_click: MouseClick) -> (fits:
    bool)
    ensures
        fits == combine_fits(*carried, *slot, mouse_click),
{
    match carried {
        None => true,
        Some(held) => {
            let change: u16 = match mouse_click {
                MouseClick::Left => held.item_count as u16,
                MouseClick::Right => 1,
            };
            let sum: u16 = slot.item_count as u16 + change;
            sum <= 255 && (sum > 64 || change <= held.item_count as u16)
        },
    }
}

/// Whether `handle_item_change` may be called on these stacks.
pub fn can_change(
    carried: &Option<ItemStack>,
    current: &Option<ItemStack>,
    mouse_click: MouseClick,
) -> (fits: bool)
    ensures
        fits == change_fits(*carried, *current, mouse_click),
{
    match (current, carried) {
        (Some(there), Some(held)) => there.item_id != held.item_id || can_combine(
            carried,
            there,
            mouse_click,
        ),
        (None, Some(held)) => mouse_click == MouseClick::Left || held.item_count >= 1,
        _ => true,
    }
}

/// Takes from `item_slot` into `carried_item`.
pub fn handle_item_take(
    carried_item: &mut Option<ItemStack>,
    item_slot: &mut Option<ItemStack>,
    mouse_click: MouseClick,
)
    ensures
        (Exchange { carried: *final(carried_item), slot: *final(item_slot) }) == take(
            *old(carried_item),
            *old(item_slot),
            mouse_click,
        ),
{
    match *item_slot {
        None => {},
        Some(item) => {
            let mut new_item = item;
            match mouse_click {
                MouseClick::Left => {
                    *item_slot = None;
                },
                MouseClick::Right => {
                    let half: u8 = item.item_count / 2;
                    *item_slot = Some(
                        ItemStack { item_count: item.item_count - half, item_id: item.item_id },
                    );
                    new_item.item_count = half;
                },
            }
            *carried_item = Some(new_item);
        },
    }
}

/// Handles a click on `current_slot` with `carried_slot` on the cursor.
pub fn handle_item_change(
    carried_slot: &mut Option<ItemStack>,
    current_slot: &mut Option<ItemStack>,
    mouse_click: MouseClick,
)
    requires
        change_fits(*old(carried_slot), *old(current_slot), mouse_click),
    ensures
        (Exchange { carried: *final(carried_slot), slot: *final(current_slot) }) == change(
            *old(carried_slot),
            *old(current_slot),
            mouse_click,
        ),
{
    match (*current_slot, *carried_slot) {
        (Some(current), Some(carried)) => {
            if current.item_id == carried.item_id {
                let mut slot = current;
                combine_stacks(carried_slot, &mut slot, mouse_click);
                *current_slot = Some(slot);
            } else if mouse_click == MouseClick::Left {
                *carried_slot = Some(current);
                *current_slot = Some(carried);
            }
        },
        (None, Some(carried)) => match mouse_click {
            MouseClick::Left => {
                *current_slot = Some(carried);
                *carried_slot = None;
            },
            MouseClick::Right => {
                *carried_slot = Some(
                    ItemStack { item_count: carried.item_count - 1, item_id: carried.item_id },
                );
                *current_slot = Some(ItemStack { item_count: 1, item_id: carried.item_id });
            },
        },
        (Some(_), None) => handle_item_take(carried_slot, current_slot, mouse_click),
        (None, None) => {},
    }
}

/// Puts the carried stack onto `slot`.
pub fn combine_stacks(
    carried_slot: &mut Option<ItemStack>,
    slot: &mut ItemStack,
    mouse_click: MouseClick,
)
    requires
        combine_fits(*old(carried_slot), *old(slot), mouse_click),
    ensures
        (Exchange { carried: *final(carried_slot), slot: Some(*final(slot)) }) == combine(
            *old(carried_slot),
            *old(slot),
            mouse_click,
        ),
{
    match *carried_slot {
        None => {},
        Some(carried_item) => {
            let carried_change: u8 = match mouse_click {
                MouseClick::Left => carried_item.item_count,
                MouseClick::Right => 1,
            };
            if slot.item_count + carried_change <= 64 {
                slot.item_count = slot.item_count + carried_change;
                let remaining: u8 = carried_item.item_count - carried_change;
                if remaining == 0 {
                    *carried_slot = None;
                } else {
                    *carried_slot = Some(
                        ItemStack { item_count: remaining, item_id: carried_item.item_id },
                    );
                }
            } else {
                let left_over: u8 = slot.item_count + carried_change - 64;
                slot.item_count = 64;
                *carried_slot = Some(
                    ItemStack { item_count: left_over, item_id: carried_item.item_id },
                );
            }
        },
    }
}

/// A container of `SLOTS` slots.
pub struct ContainerStruct<const SLOTS: usize>(pub [Option<ItemStack>; SLOTS]);

/// The container of a player who has opened none.
pub struct EmptyContainer;

/// Whether the counts that a click on a slot of a container computes fit.
pub open spec fn click_fits(
    carried: Option<ItemStack>,
    there: Option<ItemStack>,
    click: MouseClick,
    taking_crafted: bool,
) -> bool {
    if taking_crafted {
        change_fits(there, carried, click)
    } else {
        change_fits(carried, there, click)
    }
}

/// A click on a slot of a container. Taking a crafted stack moves it from
/// the slot to the cursor, the slot in the place of the carried stack: onto
/// a carried stack of the same kind, or into an empty cursor. Nothing goes
/// the other way. Any other click is a click on the slot.
pub open spec fn click(
    carried: Option<ItemStack>,
    there: Option<ItemStack>,
    click: MouseClick,
    taking_crafted: bool,
) -> Exchange {
    if taking_crafted {
        if there is Some && (carried is None || there->0.item_id == carried->0.item_id) {
            Exchange {
                carried: change(there, carried, click).slot,
                slot: change(there, carried, click).carried,
            }
        } else {
            Exchange { carried, slot: there }
        }
    } else {
        change(carried, there, click)
    }
}

/// Whether `handle_slot_click` may be called on these stacks.
pub fn can_click(
    carried: &Option<ItemStack>,
    there: &Option<ItemStack>,
    mouse_click: MouseClick,
    taking_crafted: bool,
) -> (fits: bool)
    ensures
        fits == click_fits(*carried, *there, mouse_click, taking_crafted),
{
    if taking_crafted {
        can_change(there, carried, mouse_click)
    } else {
        can_change(carried, there, mouse_click)
    }
}

/// Handles a click on the slot `there` of a container, with `carried_item`
/// on the cursor.
pub fn handle_slot_click(
    carried_item: &mut Option<ItemStack>,
    there: &mut Option<ItemStack>,
    mouse_click: MouseClick,
    taking_crafted: bool,
)
    requires
        click_fits(*old(carried_item), *old(there), mouse_click, taking_crafted),
    ensures
        (Exchange { carried: *final(carried_item), slot: *final(there) }) == click(
            *old(carried_item),
            *old(there),
            mouse_click,
            taking_crafted,
        ),
{
    if taking_crafted {
        match (*there, *carried_item) {
            (Some(s1), Some(s2)) => {
                if s1.item_id == s2.item_id {
                    handle_item_change(there, carried_item, mouse_click);
                }
            },
            (Some(_), None) => handle_item_change(there, carried_item, mouse_click),
            (None, None) | (None, Some(_)) => {},
        }
    } else {
        handle_item_change(carried_item, there, mouse_click);
    }
}

impl<const SLOTS: usize> ContainerStruct<SLOTS> {
    /// Handles a click on `slot` with `carried_item` on the cursor. A slot
    /// past the end of the container is refused, and nothing changes.
    pub fn handle_item_change(
        &mut self,
        carried_item: &mut Option<ItemStack>,
        slot: usize,
        mouse_click: MouseClick,
        taking_crafted: bool,
    ) -> (handled: Result<(), InventoryError>)
        requires
            slot != SLOTS,
            slot < SLOTS ==> click_fits(
                *old(carried_item),
                old(self).0@[slot as int],
                mouse_click,
                taking_crafted,
            ),
        ensures
            slot > SLOTS ==> handled == Err::<(), InventoryError>(InventoryError::InvalidSlot)
                && *final(self) == *old(self) && *final(carried_item) == *old(carried_item),
            slot < SLOTS ==> handled is Ok,
            slot < SLOTS ==> final(self).0@ == old(self).0@.update(
                slot as int,
                click(
                    *old(carried_item),
                    old(self).0@[slot as int],
                    mouse_click,
                    taking_crafted,
                ).slot,
            ),
            slot < SLOTS ==> *final(carried_item) == click(
                *old(carried_item),
                old(self).0@[slot as int],
                mouse_click,
                taking_crafted,
            ).carried,
    {
        if slot > SLOTS {
            return Err(InventoryError::InvalidSlot);
        }
        let mut there = self.0[slot];
        handle_slot_click(carried_item, &mut there, mouse_click, taking_crafted);
        self.0[slot] = there;
        Ok(())
    }

    /// Empties every slot.
    pub fn clear_all_slots(&mut self)
        ensures
            forall|i: int| 0 <= i < SLOTS ==> (#[trigger] final(self).0@[i]) is None,
    {
        let mut i: usize = 0;
        while i < SLOTS
            invariant
                i <= SLOTS,
                forall|j: int| 0 <= j < i ==> (#[trigger] self.0@[j]) is None,
            decreases SLOTS - i,
        {
            self.0[i] = None;
            i = i + 1;
        }
    }
}

} // verus!
