use vstd::prelude::*;

verus! {

/// Which way a position is opened: bought (long) or sold short.
#[derive(Clone, Copy, Debug, PartialEq, Eq)]
pub enum Side {
    Long,
    Short,
}

/// An instruction to the exchange: open a position in an asset on one side,
/// or close whatever position is held in an asset. How much to trade is the
/// caller's to size.
#[derive(Debug)]
pub enum Order {
    Open((String, Side)),
    Close(String),
}

/// An order with its asset named by its characters.
pub enum OrderModel {
    Open(Seq<char>, Side),
    Close(Seq<char>),
}

impl View for Order {
    type V = OrderModel;

    open spec fn view(&self) -> OrderModel {
        match self {
            Order::Open((asset, side)) => OrderModel::Open(asset@, *side),
            Order::Close(asset) => OrderModel::Close(asset@),
        }
    }
}

/// The exchange's acknowledgement of an executed order.
pub struct Confirmation(pub Order);

} // verus!
