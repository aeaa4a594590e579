//! Records that queries return.
use vstd::prelude::*;

use crate::state::{Price, PriceView};

verus! {

/// The marketplace's metadata: its display name.
#[derive(Clone, Debug, PartialEq, Eq)]
pub struct ContractInfoResponse {
    pub name: String,
}

/// A listing flattened for display.
#[derive(Clone, Debug, PartialEq, Eq)]
pub struct QueryOfferingResult {
    pub id: String,
    pub token_id: String,
    pub list_price: Price,
    pub contract_addr: String,
    pub seller: String,
    pub owner: String,
    pub extension: String,
}

pub struct QueryOfferingResultView {
    pub id: Seq<char>,
    pub token_id: Seq<char>,
    pub list_price: PriceView,
    pub contract_addr: Seq<char>,
    pub seller: Seq<char>,
    pub owner: Seq<char>,
    pub extension: Seq<char>,
}

impl View for QueryOfferingResult {
    type V = QueryOfferingResultView;

    open spec fn view(&self) -> QueryOfferingResultView {
        QueryOfferingResultView {
            id: self.id@,
            token_id: self.token_id@,
            list_price: self.list_price@,
            contract_addr: self.contract_addr@,
            seller: self.seller@,
            owner: self.owner@,
            extension: self.extension@,
        }
    }
}

/// Every current listing, flattened, in ascending order of ids.
#[derive(Clone, Debug, PartialEq, Eq)]
pub struct OfferingResponse {
    pub offerings: Vec<QueryOfferingResult>,
}

impl OfferingResponse {
    pub open spec fn results(&self) -> Seq<QueryOfferingResultView> {
        Seq::new(self.offerings@.len(), |i: int| self.offerings@[i]@)
    }
}

} // verus!
