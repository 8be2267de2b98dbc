//! Items of containers out of packets.

use vstd::prelude::*;

use crate::continuum::container::ContainerItem;
use crate::packets::{AddItemToContainer, ContainerContent, LegacyContentItem, ModernContentItem};

verus! {

/// An item as older servers send it; there is no grid.
pub open spec fn legacy_item(i: LegacyContentItem) -> ContainerItem {
    ContainerItem {
        serial: i.serial,
        graphic: i.graphic,
        amount: i.amount,
        x: i.x,
        y: i.y,
        color: i.color,
        grid_index: None,
    }
}

/// An item as newer servers send it.
pub open spec fn modern_item(i: ModernContentItem) -> ContainerItem {
    ContainerItem {
        serial: i.serial,
        graphic: i.graphic,
        amount: i.amount,
        x: i.x,
        y: i.y,
        color: i.color,
        grid_index: Some(i.grid_index),
    }
}

/// The items of a container's content, in order.
pub open spec fn content_items(cc: ContainerContent) -> Seq<ContainerItem> {
    match cc {
        ContainerContent::Legacy(v) => v@.map_values(|i: LegacyContentItem| legacy_item(i)),
        ContainerContent::Modern(v) => v@.map_values(|i: ModernContentItem| modern_item(i)),
    }
}

/// The item that comes into a container.
pub open spec fn added_item(add: AddItemToContainer) -> ContainerItem {
    ContainerItem {
        serial: add.serial,
        graphic: add.graphic,
        amount: add.amount,
        x: add.x,
        y: add.y,
        color: add.color,
        grid_index: add.grid_index,
    }
}

/// The items of a container's content, in order.
pub fn container_items_from_content(cc: &ContainerContent) -> (r: Vec<ContainerItem>)
    ensures
        r@ == content_items(*cc),
{
    let mut r: Vec<ContainerItem> = Vec::new();
    let mut n: usize = 0;
    match cc {
        ContainerContent::Legacy(items) => {
            while n < items.len()
                invariant
                    n <= items@.len(),
                    r@.len() == n,
                    forall|j: int| 0 <= j < n ==> (#[trigger] r@[j]) == legacy_item(items@[j]),
                decreases items@.len() - n,
            {
                let i = items[n];
                r.push(
                    ContainerItem {
                        serial: i.serial,
                        graphic: i.graphic,
                        amount: i.amount,
                        x: i.x,
                        y: i.y,
                        color: i.color,
                        grid_index: None,
                    },
                );
                n += 1;
            }
        },
        ContainerContent::Modern(items) => {
            while n < items.len()
                invariant
                    n <= items@.len(),
                    r@.len() == n,
                    forall|j: int| 0 <= j < n ==> (#[trigger] r@[j]) == modern_item(items@[j]),
                decreases items@.len() - n,
            {
                let i = items[n];
                r.push(
                    ContainerItem {
                        serial: i.serial,
                        graphic: i.graphic,
                        amount: i.amount,
                        x: i.x,
                        y: i.y,
                        color: i.color,
                        grid_index: Some(i.grid_index),
                    },
                );
                n += 1;
            }
        },
    }
    assert(r@ =~= content_items(*cc));
    r
}

/// The item that comes into a container.
pub fn container_item_from_add(add: &AddItemToContainer) -> (r: ContainerItem)
    ensures
        r == added_item(*add),
{
    ContainerItem {
        serial: add.serial,
        graphic: add.graphic,
        amount: add.amount,
        x: add.x,
        y: add.y,
        color: add.color,
        grid_index: add.grid_index,
    }
}

} // verus!
