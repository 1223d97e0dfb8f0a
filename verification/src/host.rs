//! What the host hands to an operation, and what it gets back.
//!
//! The host keeps the time, knows who is calling and which funds came with
//! the call, and carries out the transfers that an operation orders.

use crate::state::{clone_coins, Coin, CoinView};
use vstd::prelude::*;

verus! {

/// The moment at which an operation runs.
#[derive(Debug, PartialEq, Eq, Clone, Copy)]
pub struct Env {
    /// The host's time, in seconds.
    pub time: u64,
}

/// Who calls, and the funds that come with the call.
#[derive(Debug, PartialEq, Eq)]
pub struct MessageInfo {
    pub sender: String,
    pub funds: Vec<Coin>,
}

impl Clone for MessageInfo {
    fn clone(&self) -> (res: Self)
        ensures
            res.sender@ == self.sender@,
            res.funds.deep_view() == self.funds.deep_view(),
    {
        MessageInfo { sender: self.sender.clone(), funds: clone_coins(&self.funds) }
    }
}

/// Model of an [`Attribute`].
pub struct AttributeView {
    pub key: Seq<char>,
    pub value: Seq<char>,
}

/// Model of a [`Transfer`].
pub struct TransferView {
    pub to_address: Seq<char>,
    pub amount: Seq<CoinView>,
}

/// Model of a [`Response`].
pub struct ResponseView {
    pub attributes: Seq<AttributeView>,
    pub messages: Seq<TransferView>,
}

impl ResponseView {
    /// The answer that carries one attribute and orders nothing.
    pub open spec fn note(key: Seq<char>, value: Seq<char>) -> ResponseView {
        ResponseView { attributes: seq![AttributeView { key, value }], messages: Seq::empty() }
    }
}

/// A remark that an operation leaves for the host's records.
#[derive(Debug, PartialEq, Eq)]
pub struct Attribute {
    pub key: String,
    pub value: String,
}

impl View for Attribute {
    type V = AttributeView;

    open spec fn view(&self) -> AttributeView {
        AttributeView { key: self.key@, value: self.value@ }
    }
}

impl DeepView for Attribute {
    type V = AttributeView;

    open spec fn deep_view(&self) -> AttributeView {
        self@
    }
}

/// An order to send coins out of custody.
#[derive(Debug, PartialEq, Eq)]
pub struct Transfer {
    pub to_address: String,
    pub amount: Vec<Coin>,
}

impl View for Transfer {
    type V = TransferView;

    open spec fn view(&self) -> TransferView {
        TransferView { to_address: self.to_address@, amount: self.amount.deep_view() }
    }
}

impl DeepView for Transfer {
    type V = TransferView;

    open spec fn deep_view(&self) -> TransferView {
        self@
    }
}

/// What an operation that went through hands back: remarks and orders.
#[derive(Debug, PartialEq, Eq)]
pub struct Response {
    pub attributes: Vec<Attribute>,
    pub messages: Vec<Transfer>,
}

impl View for Response {
    type V = ResponseView;

    open spec fn view(&self) -> ResponseView {
        ResponseView {
            attributes: self.attributes.deep_view(),
            messages: self.messages.deep_view(),
        }
    }
}

impl Response {
    /// The answer without remarks or orders.
    pub fn new() -> (res: Response)
        ensures
            res@ == (ResponseView { attributes: Seq::empty(), messages: Seq::empty() }),
    {
        let res = Response { attributes: Vec::new(), messages: Vec::new() };
        assert(res.attributes.deep_view() =~= Seq::<AttributeView>::empty());
        assert(res.messages.deep_view() =~= Seq::<TransferView>::empty());
        res
    }

    /// Adds a remark.
    pub fn add_attribute(self, key: &str, value: &str) -> (res: Response)
        ensures
            res@ == (ResponseView {
                attributes: self@.attributes.push(AttributeView { key: key@, value: value@ }),
                messages: self@.messages,
            }),
    {
        let mut res = self;
        res.attributes.push(
            Attribute { key: String::from_str(key), value: String::from_str(value) },
        );
        assert(res.attributes.deep_view() =~= self@.attributes.push(
            AttributeView { key: key@, value: value@ },
        ));
        res
    }

    /// Adds an order.
    pub fn add_message(self, message: Transfer) -> (res: Response)
        ensures
            res@ == (ResponseView {
                attributes: self@.attributes,
                messages: self@.messages.push(message@),
            }),
    {
        let mut res = self;
        res.messages.push(message);
        assert(res.messages.deep_view() =~= self@.messages.push(message@));
        res
    }

    /// Adds orders, in their order.
    pub fn add_messages(self, messages: Vec<Transfer>) -> (res: Response)
        ensures
            res@ == (ResponseView {
                attributes: self@.attributes,
                messages: self@.messages + messages.deep_view(),
            }),
    {
        let mut res = self;
        let mut messages = messages;
        let ghost added = messages.deep_view();
        res.messages.append(&mut messages);
        assert(res.messages.deep_view() =~= self@.messages + added);
        res
    }
}

} // verus!
