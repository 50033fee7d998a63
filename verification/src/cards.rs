//! The cards of the desktop: small windows that show a widget each.

use vstd::prelude::*;
use vstd::string::StringExecFns;

verus! {

/// A card on the desktop.
#[derive(Debug, PartialEq, Eq)]
pub struct DesktopCard {
    pub id: String,
    pub card_type: String,
    pub title: Option<String>,
    /// The settings of the card's widget, as JSON text.
    pub config: String,
    pub position_x: i32,
    pub position_y: i32,
    pub width: i32,
    pub height: i32,
    pub z_index: i32,
    pub is_visible: bool,
    pub created_at: String,
    pub updated_at: String,
}

/// What a caller gives to have a card made.
#[derive(Debug, PartialEq, Eq)]
pub struct CreateCardPayload {
    pub card_type: String,
    pub title: Option<String>,
    pub config: String,
    pub position_x: i32,
    pub position_y: i32,
    pub width: i32,
    pub height: i32,
}

/// The place of a card in the stack of cards: its place in the list, as far
/// as that can be counted in 32 bits.
pub open spec fn stacking_place(index: int) -> i32 {
    if index > i32::MAX {
        i32::MAX
    } else {
        index as i32
    }
}

impl DesktopCard {
    /// The card that a request creates: visible, and lowest in the stack.
    pub fn create(id: String, payload: CreateCardPayload, now: String) -> (card: Self)
        ensures
            card == (DesktopCard {
                id,
                card_type: payload.card_type,
                title: payload.title,
                config: payload.config,
                position_x: payload.position_x,
                position_y: payload.position_y,
                width: payload.width,
                height: payload.height,
                z_index: 0,
                is_visible: true,
                created_at: now,
                updated_at: now,
            }),
    {
        DesktopCard {
            id,
            card_type: payload.card_type,
            title: payload.title,
            config: payload.config,
            position_x: payload.position_x,
            position_y: payload.position_y,
            width: payload.width,
            height: payload.height,
            z_index: 0,
            is_visible: true,
            created_at: now.clone(),
            updated_at: now,
        }
    }
}

/// The label of the window that shows the card.
pub fn widget_label(id: &str) -> (label: String)
    ensures
        label@ == "widget_"@ + id@,
{
    String::from_str("widget_").concat(id)
}

/// The address that the window of the card loads.
pub fn widget_url(id: &str) -> (url: String)
    ensures
        url@ == "index.html#/widget/"@ + id@,
{
    String::from_str("index.html#/widget/").concat(id)
}

/// The places in the stack that a new order of the cards gives them: each
/// card with its place in the list.
pub fn stacking_order(ids: Vec<String>) -> (order: Vec<(String, i32)>)
    ensures
        order.len() == ids.len(),
        forall|i: int| 0 <= i < ids.len() ==> (#[trigger] order[i]).0 == ids[i] && order[i].1 == stacking_place(i),
{
    let mut order: Vec<(String, i32)> = Vec::new();
    let mut i: usize = 0;
    while i < ids.len()
        invariant
            i <= ids.len(),
            order.len() == i,
            forall|k: int| 0 <= k < i ==> (#[trigger] order[k]).0 == ids[k] && order[k].1 == stacking_place(k),
        decreases ids.len() - i,
    {
        let place: i32 = if i > i32::MAX as usize {
            i32::MAX
        } else {
            i as i32
        };
        order.push((ids[i].clone(), place));
        i = i + 1;
    }
    order
}

} // verus!
