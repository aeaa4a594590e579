//! Requests that the marketplace accepts, with the payloads of incoming
//! transfer notices already decoded.
use vstd::prelude::*;

use crate::state::{Price, PriceView};

verus! {

/// Initialisation: the marketplace's display name, and a legacy count.
#[derive(Clone, Debug, PartialEq, Eq)]
pub struct InitMsg {
    pub count: i32,
    pub name: String,
}

/// Legacy initialisation message, holding a count only.
#[derive(Clone, Copy, Debug, PartialEq, Eq, Structural)]
pub struct InstantiateMsg {
    pub count: i32,
}

/// The payload of an asset deposit: the asking price.
#[derive(Clone, Debug, PartialEq, Eq)]
pub struct SellNft {
    pub list_price: Price,
}

/// The payload of a token payment: the listing being bought.
#[derive(Clone, Debug, PartialEq, Eq)]
pub struct BuyNft {
    pub offering_id: String,
}

/// Legacy counter operations.
#[derive(Clone, Copy, Debug, PartialEq, Eq, Structural)]
pub enum ExecuteMsg {
    Increment {},
    Reset { count: i32 },
}

/// Read-only requests.
#[derive(Clone, Copy, Debug, PartialEq, Eq, Structural)]
pub enum QueryMsg {
    /// The legacy counter.
    GetCount {},
    /// Every current listing.
    GetOfferings {},
}

/// The legacy counter's value.
#[derive(Clone, Copy, Debug, PartialEq, Eq, Structural)]
pub struct CountResponse {
    pub count: i32,
}

/// A notice from a fungible-token contract that `sender` sent it `amount`
/// tokens for the marketplace, with the decoded purchase request.
#[derive(Clone, Debug, PartialEq, Eq)]
pub struct TokenReceipt {
    pub sender: String,
    pub amount: u128,
    pub msg: BuyNft,
}

pub struct TokenReceiptView {
    pub sender: Seq<char>,
    pub amount: u128,
    pub offering_id: Seq<char>,
}

impl View for TokenReceipt {
    type V = TokenReceiptView;

    open spec fn view(&self) -> TokenReceiptView {
        TokenReceiptView {
            sender: self.sender@,
            amount: self.amount,
            offering_id: self.msg.offering_id@,
        }
    }
}

/// A notice from a non-fungible-asset contract that `sender` deposited the
/// asset `token_id` with the marketplace, with the decoded sale request.
#[derive(Clone, Debug, PartialEq, Eq)]
pub struct NftReceipt {
    pub sender: String,
    pub token_id: String,
    pub msg: SellNft,
}

pub struct NftReceiptView {
    pub sender: Seq<char>,
    pub token_id: Seq<char>,
    pub list_price: PriceView,
}

impl View for NftReceipt {
    type V = NftReceiptView;

    open spec fn view(&self) -> NftReceiptView {
        NftReceiptView {
            sender: self.sender@,
            token_id: self.token_id@,
            list_price: self.msg.list_price@,
        }
    }
}

/// State transitions.
#[derive(Clone, Debug, PartialEq, Eq)]
pub enum HandleMsg {
    /// Legacy: add one to the counter.
    Increment {},
    /// Legacy: set the counter back to zero.
    Reset {},
    /// Withdraw a listing and take the asset back.
    WithdrawNft { offering_id: String },
    /// Buy a listing with the tokens received.
    Receive(TokenReceipt),
    /// List the asset received.
    ReceiveNft(NftReceipt),
}

} // verus!
