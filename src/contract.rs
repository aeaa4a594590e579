//! The escrow engine: listing an asset deposited with the marketplace,
//! buying a listing with the tokens received, withdrawing a listing, and the
//! queries. Each transition either fails and changes nothing, or updates the
//! store and describes the transfers that the asset contracts are to carry
//! out.
use vstd::prelude::*;

use crate::error::ContractError;
use crate::msg::{
    CountResponse, HandleMsg, InitMsg, NftReceipt, NftReceiptView, QueryMsg, TokenReceipt,
    TokenReceiptView,
};
use crate::package::{ContractInfoResponse, OfferingResponse, QueryOfferingResult, QueryOfferingResultView};
use crate::state::{
    distinct_ids, entries_map, increment_offerings, key_index, lists_exactly, num_offerings,
    offerings, pairs_view, EntryView, Offering, OfferingStore, OfferingView, State,
};
use crate::text::{
    decimal, decimal_string, json_quote, json_string_of, lemma_decimal_injective, lex_lt,
    spells_number_upto, text,
};

verus! {

/// A key and value describing a transition, for audit.
#[derive(Clone, Debug, PartialEq, Eq)]
pub struct Attribute {
    pub key: String,
    pub value: String,
}

/// A transfer for an outside asset contract to carry out.
#[derive(Clone, Debug, PartialEq, Eq)]
pub enum TransferMsg {
    /// Move `amount` of the fungible token issued by `contract` to `recipient`.
    Cw20Transfer { contract: String, recipient: String, amount: u128 },
    /// Move the asset `token_id` issued by `contract` to `recipient`.
    Cw721Transfer { contract: String, recipient: String, token_id: String },
}

pub enum TransferView {
    Fungible { contract: Seq<char>, recipient: Seq<char>, amount: u128 },
    Asset { contract: Seq<char>, recipient: Seq<char>, token_id: Seq<char> },
}

impl View for TransferMsg {
    type V = TransferView;

    open spec fn view(&self) -> TransferView {
        match self {
            TransferMsg::Cw20Transfer { contract, recipient, amount } => TransferView::Fungible {
                contract: contract@,
                recipient: recipient@,
                amount: *amount,
            },
            TransferMsg::Cw721Transfer { contract, recipient, token_id } => TransferView::Asset {
                contract: contract@,
                recipient: recipient@,
                token_id: token_id@,
            },
        }
    }
}

/// The outcome of a transition: the transfers to carry out, in order, and
/// the audit attributes.
#[derive(Clone, Debug, PartialEq, Eq)]
pub struct Response {
    pub messages: Vec<TransferMsg>,
    pub attributes: Vec<Attribute>,
}

impl Response {
    pub open spec fn messages_view(&self) -> Seq<TransferView> {
        Seq::new(self.messages@.len(), |i: int| self.messages@[i]@)
    }

    pub open spec fn attributes_view(&self) -> Seq<(Seq<char>, Seq<char>)> {
        Seq::new(
            self.attributes@.len(),
            |i: int| (self.attributes@[i].key@, self.attributes@[i].value@),
        )
    }

    /// A response with no transfers and no attributes.
    pub fn new() -> (r: Response)
        ensures
            r.messages_view() == Seq::<TransferView>::empty(),
            r.attributes_view() == Seq::<(Seq<char>, Seq<char>)>::empty(),
    {
        let r = Response { messages: Vec::new(), attributes: Vec::new() };
        assert(r.messages_view() =~= Seq::<TransferView>::empty());
        assert(r.attributes_view() =~= Seq::<(Seq<char>, Seq<char>)>::empty());
        r
    }

    /// Appends an attribute.
    pub fn add_attribute(&mut self, key: &str, value: String)
        ensures
            final(self).attributes_view() == old(self).attributes_view().push((key@, value@)),
            final(self).messages_view() == old(self).messages_view(),
    {
        self.attributes.push(Attribute { key: text(key), value });
        assert(self.attributes_view() =~= old(self).attributes_view().push((key@, value@)));
        assert(self.messages_view() =~= old(self).messages_view());
    }

    /// Appends a transfer.
    pub fn add_submessage(&mut self, msg: TransferMsg)
        ensures
            final(self).messages_view() == old(self).messages_view().push(msg@),
            final(self).attributes_view() == old(self).attributes_view(),
    {
        let ghost v = msg@;
        self.messages.push(msg);
        assert(self.messages_view() =~= old(self).messages_view().push(v));
        assert(self.attributes_view() =~= old(self).attributes_view());
    }
}

/// Everything the marketplace keeps: its metadata, the legacy counter
/// record, and the listing store.
pub struct Marketplace {
    pub contract_info: Option<ContractInfoResponse>,
    pub state: Option<State>,
    pub offerings: OfferingStore,
}

/// The id that the next listing will be stored under.
pub open spec fn next_offering_id(s: &OfferingStore) -> Seq<char> {
    decimal(s.counter() + 1)
}

impl Marketplace {
    /// The listing store is well formed and every id in it was issued by
    /// the listing counter.
    pub open spec fn wf(&self) -> bool {
        self.offerings.wf() && self.ids_issued()
    }

    /// Every stored listing id spells a number from one up to the counter:
    /// each was issued by the counter.
    pub open spec fn ids_issued(&self) -> bool {
        forall|k: Seq<char>|
            #[trigger] self.offerings.listings().contains_key(k) ==> exists|n: nat|
                1 <= n <= self.offerings.counter() && k == #[trigger] decimal(n)
    }

    /// A marketplace before initialisation: no metadata, no legacy record,
    /// no listings, and the listing counter at zero.
    pub fn new() -> (r: Marketplace)
        ensures
            r.wf(),
            r.contract_info is None,
            r.state is None,
            r.offerings.counter() == 0,
            r.offerings.listings() == Map::<Seq<char>, OfferingView>::empty(),
    {
        Marketplace { contract_info: None, state: None, offerings: offerings() }
    }

    /// Rebuilds a marketplace from what it keeps: its metadata, the legacy
    /// record, the listing counter and the listings, given in any order.
    /// Refused with `DuplicateKey` when an id occurs twice, and otherwise
    /// with `InvalidId` when an id is not one that the counter issued.
    pub fn restore(
        contract_info: Option<ContractInfoResponse>,
        state: Option<State>,
        count: u64,
        entries: &Vec<(String, Offering)>,
    ) -> (r: Result<Marketplace, ContractError>)
        ensures
            !distinct_ids(pairs_view(entries@)) ==> r == Err::<Marketplace, ContractError>(
                ContractError::DuplicateKey,
            ),
            distinct_ids(pairs_view(entries@)) && !all_issued(pairs_view(entries@), count as nat)
                ==> r == Err::<Marketplace, ContractError>(ContractError::InvalidId),
            distinct_ids(pairs_view(entries@)) && all_issued(pairs_view(entries@), count as nat)
                ==> (r matches Ok(m) && m.wf() && m.contract_info == contract_info && m.state
                == state && m.offerings.counter() == count && m.offerings.listings()
                == entries_map(pairs_view(entries@))),
    {
        let ghost ev = pairs_view(entries@);
        let offerings = match crate::state::restore(count, entries) {
            Ok(s) => s,
            Err(e) => {
                return Err(e);
            },
        };
        let mut i: usize = 0;
        while i < entries.len()
            invariant
                ev == pairs_view(entries@),
                distinct_ids(ev),
                i <= entries@.len(),
                forall|j: int| 0 <= j < i ==> issued(#[trigger] ev[j].0, count as nat),
            decreases entries@.len() - i,
        {
            if !spells_number_upto(entries[i].0.as_str(), count) {
                assert(ev[i as int].0 == entries@[i as int].0@);
                return Err(ContractError::InvalidId);
            }
            assert(ev[i as int].0 == entries@[i as int].0@);
            i += 1;
        }
        assert(all_issued(ev, count as nat));
        proof {
            offerings.lemma_entries_exact();
            assert(offerings.listings() =~= entries_map(ev)) by {
                assert forall|k: Seq<char>| #[trigger] offerings.listings().contains_key(k)
                    implies entries_map(ev).contains_key(k) && offerings.listings()[k]
                    == entries_map(ev)[k] by {
                    let j = key_index(ev, k);
                    assert(entries@[j].0@ == ev[j].0);
                }
                assert forall|k: Seq<char>| #[trigger] entries_map(ev).contains_key(k)
                    implies offerings.listings().contains_key(k) by {
                }
            }
            let m = Marketplace { contract_info, state, offerings };
            assert forall|k: Seq<char>| #[trigger]
                m.offerings.listings().contains_key(k) implies exists|n: nat|
                1 <= n <= m.offerings.counter() && k == #[trigger] decimal(n) by {
                let j = key_index(ev, k);
                assert(ev[j].0 == k);
                assert(issued(ev[j].0, count as nat));
            }
        }
        Ok(Marketplace { contract_info, state, offerings })
    }
}

/// The id spells a number from one up to `count`.
pub open spec fn issued(id: Seq<char>, count: nat) -> bool {
    exists|n: nat| 1 <= n <= count && id == #[trigger] decimal(n)
}

/// Every id among the entries spells a number from one up to `count`.
pub open spec fn all_issued(e: Seq<EntryView>, count: nat) -> bool {
    forall|j: int| 0 <= j < e.len() ==> issued(#[trigger] e[j].0, count)
}

/// Ids are fresh: every stored id spells a number below that of the id the
/// next listing gets, so that id names no stored listing.
pub proof fn lemma_next_id_fresh(m: &Marketplace, k: Seq<char>)
    requires
        m.ids_issued(),
        m.offerings.listings().contains_key(k),
    ensures
        exists|n: nat| n < m.offerings.counter() + 1 && k == #[trigger] decimal(n),
        k != next_offering_id(&m.offerings),
{
    let n = choose|n: nat| 1 <= n <= m.offerings.counter() && k == #[trigger] decimal(n);
    if k == next_offering_id(&m.offerings) {
        lemma_decimal_injective(n, m.offerings.counter() + 1);
    }
}

/// Records the marketplace's display name. The legacy record and the
/// listings are left alone.
pub fn instantiate(deps: &mut Marketplace, msg: InitMsg) -> (r: Response)
    ensures
        (final(deps).contract_info == Some(ContractInfoResponse { name: msg.name })),
        final(deps).state == old(deps).state,
        final(deps).offerings == old(deps).offerings,
        r.messages_view() == Seq::<TransferView>::empty(),
        r.attributes_view() == Seq::<(Seq<char>, Seq<char>)>::empty(),
{
    deps.contract_info = Some(ContractInfoResponse { name: msg.name });
    Response::new()
}

/// The price text of the audit attributes: the amount in decimal, a space,
/// and the token contract.
pub open spec fn price_text(amount: u128, token: Seq<char>) -> Seq<char> {
    decimal(amount as nat) + " "@ + token
}

fn price_string(amount: u128, token: &String) -> (r: String)
    ensures
        r@ == price_text(amount, token@),
{
    let mut r = decimal_string(amount);
    r.append(" ");
    r.append(token.as_str());
    r
}

/// The offering that a deposit notice from `contract` lists: owned and
/// sold by the depositor, at the asking price of the notice.
pub open spec fn listed_offering(contract: Seq<char>, rcv: NftReceiptView) -> OfferingView {
    OfferingView {
        owner: rcv.sender,
        token_id: rcv.token_id,
        contract_addr: contract,
        seller: rcv.sender,
        list_price: rcv.list_price,
        extension: "Offer "@ + rcv.token_id + " from "@ + rcv.sender,
    }
}

pub open spec fn list_attributes(contract: Seq<char>, rcv: NftReceiptView) -> Seq<
    (Seq<char>, Seq<char>),
> {
    seq![
        ("action"@, "list"@),
        ("seller"@, rcv.sender),
        ("asset_contract"@, contract),
        ("asset_id"@, rcv.token_id),
        ("price"@, price_text(rcv.list_price.amount, rcv.list_price.address)),
    ]
}

/// What a List does: with the counter exhausted it fails with `Overflow`
/// and changes nothing; otherwise it advances the counter and stores the
/// listed offering under the new id, transferring nothing.
pub open spec fn list_post(
    before: Marketplace,
    after: Marketplace,
    contract: Seq<char>,
    rcv: NftReceiptView,
    r: Result<Response, ContractError>,
) -> bool {
    if before.offerings.counter() >= u64::MAX {
        r == Err::<Response, ContractError>(ContractError::Overflow) && after == before
    } else {
        &&& r is Ok
        &&& after.contract_info == before.contract_info
        &&& after.state == before.state
        &&& after.offerings.counter() == before.offerings.counter() + 1
        &&& after.offerings.listings() == before.offerings.listings().insert(
            next_offering_id(&before.offerings),
            listed_offering(contract, rcv),
        )
        &&& r->Ok_0.messages_view() == Seq::<TransferView>::empty()
        &&& r->Ok_0.attributes_view() == list_attributes(contract, rcv)
    }
}

/// List: the asset named in the notice from the asset contract `sender`
/// has been deposited; store a listing for it under a fresh id.
pub fn try_receive_nft(deps: &mut Marketplace, sender: String, rcv_msg: NftReceipt) -> (r: Result<
    Response,
    ContractError,
>)
    requires
        old(deps).wf(),
    ensures
        final(deps).wf(),
        list_post(*old(deps), *final(deps), sender@, rcv_msg@, r),
{
    let count = num_offerings(&deps.offerings);
    if count == u64::MAX {
        return Err(ContractError::Overflow);
    }
    let id = decimal_string((count + 1) as u128);
    let ghost before = *deps;
    proof {
        if before.offerings.listings().contains_key(id@) {
            lemma_next_id_fresh(&before, id@);
        }
    }
    if increment_offerings(&mut deps.offerings).is_err() {
        return Err(ContractError::Overflow);
    }
    let mut extension = text("Offer ");
    extension.append(rcv_msg.token_id.as_str());
    extension.append(" from ");
    extension.append(rcv_msg.sender.as_str());
    let off = Offering {
        owner: rcv_msg.sender.clone(),
        token_id: rcv_msg.token_id.clone(),
        contract_addr: sender.clone(),
        seller: rcv_msg.sender.clone(),
        list_price: rcv_msg.msg.list_price.duplicate(),
        extension,
    };
    let created = deps.offerings.create(id, off);
    if created.is_err() {
        return Err(ContractError::DuplicateKey);
    }
    proof {
        let s = &deps.offerings;
        assert forall|k: Seq<char>| #[trigger] s.listings().contains_key(k) implies exists|n: nat|
            1 <= n <= s.counter() && k == #[trigger] decimal(n) by {
            if k != next_offering_id(&before.offerings) {
                assert(before.offerings.listings().contains_key(k));
                let n = choose|n: nat|
                    1 <= n <= before.offerings.counter() && k == #[trigger] decimal(n);
                assert(1 <= n <= s.counter());
            } else {
                assert(1 <= s.counter() <= s.counter() && k == decimal(s.counter()));
            }
        }
    }
    let mut resp = Response::new();
    resp.add_attribute("action", text("list"));
    resp.add_attribute("seller", rcv_msg.sender.clone());
    resp.add_attribute("asset_contract", sender);
    resp.add_attribute("asset_id", rcv_msg.token_id.clone());
    resp.add_attribute(
        "price",
        price_string(rcv_msg.msg.list_price.amount, &rcv_msg.msg.list_price.address),
    );
    assert(resp.attributes_view() =~= list_attributes(sender@, rcv_msg@));
    Ok(resp)
}

pub open spec fn buy_transfers(token: Seq<char>, rcv: TokenReceiptView, o: OfferingView) -> Seq<
    TransferView,
> {
    seq![
        TransferView::Fungible { contract: token, recipient: o.seller, amount: rcv.amount },
        TransferView::Asset { contract: o.contract_addr, recipient: rcv.sender, token_id: o.token_id },
    ]
}

pub open spec fn buy_attributes(token: Seq<char>, rcv: TokenReceiptView, o: OfferingView) -> Seq<
    (Seq<char>, Seq<char>),
> {
    seq![
        ("action"@, "buy"@),
        ("buyer"@, rcv.sender),
        ("seller"@, o.seller),
        ("paid_price"@, price_text(rcv.amount, token)),
        ("asset_id"@, o.token_id),
        ("asset_contract"@, o.contract_addr),
    ]
}

/// What a Buy does: `NotFound` for an unknown id and `InsufficientFunds`
/// when the tender is below the asking price, changing nothing; otherwise
/// it removes the listing, passes the whole tender to the seller and the
/// asset to the buyer.
pub open spec fn buy_post(
    before: Marketplace,
    after: Marketplace,
    token: Seq<char>,
    rcv: TokenReceiptView,
    r: Result<Response, ContractError>,
) -> bool {
    let l = before.offerings.listings();
    if !l.contains_key(rcv.offering_id) {
        r == Err::<Response, ContractError>(ContractError::NotFound) && after == before
    } else if rcv.amount < l[rcv.offering_id].list_price.amount {
        r == Err::<Response, ContractError>(ContractError::InsufficientFunds) && after == before
    } else {
        &&& r is Ok
        &&& after.contract_info == before.contract_info
        &&& after.state == before.state
        &&& after.offerings.counter() == before.offerings.counter()
        &&& after.offerings.listings() == l.remove(rcv.offering_id)
        &&& r->Ok_0.messages_view() == buy_transfers(token, rcv, l[rcv.offering_id])
        &&& r->Ok_0.attributes_view() == buy_attributes(token, rcv, l[rcv.offering_id])
    }
}

/// Buy: the fungible-token contract `sender` reports a payment to the
/// marketplace for the listing named in the notice.
pub fn try_receive(deps: &mut Marketplace, sender: String, rcv_msg: TokenReceipt) -> (r: Result<
    Response,
    ContractError,
>)
    requires
        old(deps).wf(),
    ensures
        final(deps).wf(),
        buy_post(*old(deps), *final(deps), sender@, rcv_msg@, r),
{
    let off = match deps.offerings.get(&rcv_msg.msg.offering_id) {
        Ok(o) => o,
        Err(e) => {
            return Err(e);
        },
    };
    if rcv_msg.amount < off.list_price.amount {
        return Err(ContractError::InsufficientFunds);
    }
    let transfer_cw20 = TransferMsg::Cw20Transfer {
        contract: sender.clone(),
        recipient: off.seller.clone(),
        amount: rcv_msg.amount,
    };
    let transfer_cw721 = TransferMsg::Cw721Transfer {
        contract: off.contract_addr.clone(),
        recipient: rcv_msg.sender.clone(),
        token_id: off.token_id.clone(),
    };
    deps.offerings.remove(&rcv_msg.msg.offering_id);
    let mut resp = Response::new();
    resp.add_attribute("action", text("buy"));
    resp.add_attribute("buyer", rcv_msg.sender.clone());
    resp.add_attribute("seller", off.seller.clone());
    resp.add_attribute("paid_price", price_string(rcv_msg.amount, &sender));
    resp.add_attribute("asset_id", off.token_id.clone());
    resp.add_attribute("asset_contract", off.contract_addr.clone());
    resp.add_submessage(transfer_cw20);
    resp.add_submessage(transfer_cw721);
    assert(resp.messages_view() =~= buy_transfers(sender@, rcv_msg@, off@));
    assert(resp.attributes_view() =~= buy_attributes(sender@, rcv_msg@, off@));
    Ok(resp)
}

/// What a Withdraw does: `NotFound` for an unknown id and `Unauthorized`
/// for anyone but the seller, changing nothing; otherwise it removes the
/// listing and returns the asset to the seller.
pub open spec fn withdraw_post(
    before: Marketplace,
    after: Marketplace,
    requester: Seq<char>,
    id: Seq<char>,
    r: Result<Response, ContractError>,
) -> bool {
    let l = before.offerings.listings();
    if !l.contains_key(id) {
        r == Err::<Response, ContractError>(ContractError::NotFound) && after == before
    } else if l[id].seller != requester {
        r == Err::<Response, ContractError>(ContractError::Unauthorized) && after == before
    } else {
        &&& r is Ok
        &&& after.contract_info == before.contract_info
        &&& after.state == before.state
        &&& after.offerings.counter() == before.offerings.counter()
        &&& after.offerings.listings() == l.remove(id)
        &&& r->Ok_0.messages_view() == seq![
            TransferView::Asset {
                contract: l[id].contract_addr,
                recipient: l[id].seller,
                token_id: l[id].token_id,
            },
        ]
        &&& r->Ok_0.attributes_view() == seq![
            ("action"@, "withdraw"@),
            ("seller"@, requester),
            ("offering_id"@, id),
        ]
    }
}

/// Withdraw: the seller `sender` takes back the asset of a listing.
pub fn try_withdraw(deps: &mut Marketplace, sender: String, offering_id: String) -> (r: Result<
    Response,
    ContractError,
>)
    requires
        old(deps).wf(),
    ensures
        final(deps).wf(),
        withdraw_post(*old(deps), *final(deps), sender@, offering_id@, r),
{
    let off = match deps.offerings.get(&offering_id) {
        Ok(o) => o,
        Err(e) => {
            return Err(e);
        },
    };
    if off.seller != sender {
        return Err(ContractError::Unauthorized);
    }
    let transfer_cw721 = TransferMsg::Cw721Transfer {
        contract: off.contract_addr.clone(),
        recipient: off.seller.clone(),
        token_id: off.token_id.clone(),
    };
    deps.offerings.remove(&offering_id);
    let mut resp = Response::new();
    resp.add_attribute("action", text("withdraw"));
    resp.add_attribute("seller", sender);
    resp.add_attribute("offering_id", offering_id);
    resp.add_submessage(transfer_cw721);
    assert(resp.attributes_view() =~= seq![
        ("action"@, "withdraw"@),
        ("seller"@, sender@),
        ("offering_id"@, offering_id@),
    ]);
    Ok(resp)
}


/// A List stores its offering under the id that spells the counter before
/// it plus one: a number above that of every id issued earlier, so no
/// listing held before is overwritten, and the counter strictly grows. The
/// offering is found under that id at once, with owner and seller both the
/// depositor.
pub proof fn lemma_list_issues_fresh_id(
    before: Marketplace,
    after: Marketplace,
    contract: Seq<char>,
    rcv: NftReceiptView,
    r: Result<Response, ContractError>,
)
    requires
        before.ids_issued(),
        before.offerings.counter() < u64::MAX,
        list_post(before, after, contract, rcv, r),
    ensures
        r is Ok,
        next_offering_id(&before.offerings) == decimal(before.offerings.counter() + 1),
        after.offerings.counter() == before.offerings.counter() + 1,
        forall|k: Seq<char>| #[trigger]
            before.offerings.listings().contains_key(k) ==> k != next_offering_id(
                &before.offerings,
            ) && exists|n: nat| n < before.offerings.counter() + 1 && k == #[trigger] decimal(n),
        after.offerings.listings().contains_key(next_offering_id(&before.offerings)),
        after.offerings.listings()[next_offering_id(&before.offerings)].owner == rcv.sender,
        after.offerings.listings()[next_offering_id(&before.offerings)].seller == rcv.sender,
{
    assert forall|k: Seq<char>| #[trigger]
        before.offerings.listings().contains_key(k) implies k != next_offering_id(
            &before.offerings,
        ) && exists|n: nat| n < before.offerings.counter() + 1 && k == #[trigger] decimal(n) by {
        lemma_next_id_fresh(&before, k);
    }
}

/// Listing an asset and at once withdrawing it as its seller succeeds and
/// leaves the listings exactly as they were before the List; only the
/// counter has moved, and it does not move back.
pub proof fn lemma_list_then_withdraw(
    m0: Marketplace,
    m1: Marketplace,
    m2: Marketplace,
    contract: Seq<char>,
    rcv: NftReceiptView,
    r1: Result<Response, ContractError>,
    r2: Result<Response, ContractError>,
)
    requires
        m0.ids_issued(),
        m0.offerings.counter() < u64::MAX,
        list_post(m0, m1, contract, rcv, r1),
        withdraw_post(m1, m2, rcv.sender, next_offering_id(&m0.offerings), r2),
    ensures
        r2 is Ok,
        m2.offerings.listings() == m0.offerings.listings(),
        m2.offerings.counter() == m0.offerings.counter() + 1,
{
    let id = next_offering_id(&m0.offerings);
    if m0.offerings.listings().contains_key(id) {
        lemma_next_id_fresh(&m0, id);
    }
    assert(m1.offerings.listings().remove(id) =~= m0.offerings.listings());
}

/// What the legacy increment does: `NotFound` without a legacy record and
/// `Overflow` at the largest count, changing nothing; otherwise it adds one
/// to the count.
pub open spec fn increment_post(
    before: Marketplace,
    after: Marketplace,
    r: Result<Response, ContractError>,
) -> bool {
    match before.state {
        None => r == Err::<Response, ContractError>(ContractError::NotFound) && after == before,
        Some(s) => if s.count == i32::MAX {
            r == Err::<Response, ContractError>(ContractError::Overflow) && after == before
        } else {
            &&& r is Ok
            &&& after.state == Some(State { count: (s.count + 1) as i32, owner: s.owner })
            &&& after.contract_info == before.contract_info
            &&& after.offerings == before.offerings
            &&& r->Ok_0.messages_view() == Seq::<TransferView>::empty()
            &&& r->Ok_0.attributes_view() == seq![("method"@, "try_increment"@)]
        },
    }
}

/// Legacy: adds one to the counter record.
pub fn try_increment(deps: &mut Marketplace) -> (r: Result<Response, ContractError>)
    ensures
        increment_post(*old(deps), *final(deps), r),
{
    let (count, owner) = match &deps.state {
        None => {
            return Err(ContractError::NotFound);
        },
        Some(s) => (s.count, s.owner.clone()),
    };
    if count == i32::MAX {
        return Err(ContractError::Overflow);
    }
    deps.state = Some(State { count: count + 1, owner });
    let mut resp = Response::new();
    resp.add_attribute("method", text("try_increment"));
    assert(resp.attributes_view() =~= seq![("method"@, "try_increment"@)]);
    Ok(resp)
}

/// What the legacy reset does: `NotFound` without a legacy record and
/// `Unauthorized` for anyone but the record's owner, changing nothing;
/// otherwise it sets the count.
pub open spec fn reset_post(
    before: Marketplace,
    after: Marketplace,
    sender: Seq<char>,
    count: i32,
    r: Result<Response, ContractError>,
) -> bool {
    match before.state {
        None => r == Err::<Response, ContractError>(ContractError::NotFound) && after == before,
        Some(s) => if s.owner@ != sender {
            r == Err::<Response, ContractError>(ContractError::Unauthorized) && after == before
        } else {
            &&& r is Ok
            &&& after.state == Some(State { count: count, owner: s.owner })
            &&& after.contract_info == before.contract_info
            &&& after.offerings == before.offerings
            &&& r->Ok_0.messages_view() == Seq::<TransferView>::empty()
            &&& r->Ok_0.attributes_view() == seq![("method"@, "reset"@)]
        },
    }
}

/// Legacy: the record's owner sets the counter record to `count`.
pub fn try_reset(deps: &mut Marketplace, sender: String, count: i32) -> (r: Result<
    Response,
    ContractError,
>)
    ensures
        reset_post(*old(deps), *final(deps), sender@, count, r),
{
    let owner = match &deps.state {
        None => {
            return Err(ContractError::NotFound);
        },
        Some(s) => s.owner.clone(),
    };
    if owner != sender {
        return Err(ContractError::Unauthorized);
    }
    deps.state = Some(State { count, owner });
    let mut resp = Response::new();
    resp.add_attribute("method", text("reset"));
    assert(resp.attributes_view() =~= seq![("method"@, "reset"@)]);
    Ok(resp)
}

/// What a request does, by its kind.
pub open spec fn execute_post(
    before: Marketplace,
    after: Marketplace,
    sender: Seq<char>,
    msg: HandleMsg,
    r: Result<Response, ContractError>,
) -> bool {
    match msg {
        HandleMsg::Increment {  } => increment_post(before, after, r),
        HandleMsg::Reset {  } => reset_post(before, after, sender, 0, r),
        HandleMsg::WithdrawNft { offering_id } => withdraw_post(
            before,
            after,
            sender,
            offering_id@,
            r,
        ),
        HandleMsg::Receive(rcv) => buy_post(before, after, sender, rcv@, r),
        HandleMsg::ReceiveNft(rcv) => list_post(before, after, sender, rcv@, r),
    }
}

/// Carries out a request from `sender`: for a transfer notice, `sender` is
/// the asset or token contract that sent it; otherwise the caller.
pub fn execute(deps: &mut Marketplace, sender: String, msg: HandleMsg) -> (r: Result<
    Response,
    ContractError,
>)
    requires
        old(deps).wf(),
    ensures
        final(deps).wf(),
        execute_post(*old(deps), *final(deps), sender@, msg, r),
{
    match msg {
        HandleMsg::Increment {  } => try_increment(deps),
        HandleMsg::Reset {  } => try_reset(deps, sender, 0),
        HandleMsg::WithdrawNft { offering_id } => try_withdraw(deps, sender, offering_id),
        HandleMsg::Receive(rcv_msg) => try_receive(deps, sender, rcv_msg),
        HandleMsg::ReceiveNft(rcv_msg) => try_receive_nft(deps, sender, rcv_msg),
    }
}

/// The display record of a listing, given the JSON text of its extension.
pub open spec fn flattened(id: Seq<char>, o: OfferingView, extension: Seq<char>) -> QueryOfferingResultView {
    QueryOfferingResultView {
        id: id,
        token_id: o.token_id,
        list_price: o.list_price,
        contract_addr: o.contract_addr,
        seller: o.seller,
        owner: o.owner,
        extension: extension,
    }
}

/// The display record of a listing as the query returns it, its extension
/// written as a JSON string.
pub open spec fn query_record(e: EntryView) -> QueryOfferingResultView {
    flattened(e.0, e.1, json_string_of(e.1.extension))
}

/// Flattens a listing, given the JSON text of its extension.
pub fn query_result(k: String, offering: Offering, extension: String) -> (r: QueryOfferingResult)
    ensures
        r@ == flattened(k@, offering@, extension@),
{
    QueryOfferingResult {
        id: k,
        token_id: offering.token_id,
        list_price: offering.list_price,
        contract_addr: offering.contract_addr,
        seller: offering.seller,
        owner: offering.owner,
        extension,
    }
}

/// Flattens a listing, writing its extension as a JSON string.
pub fn parse_offering(k: String, offering: Offering) -> (r: QueryOfferingResult)
    ensures
        r@ == query_record((k@, offering@)),
{
    let extension = json_quote(&offering.extension);
    query_result(k, offering, extension)
}

/// `rs` holds the display record of every listing of `m`, each once, in
/// strictly ascending lexicographic order of ids.
pub open spec fn records_exactly(
    rs: Seq<QueryOfferingResultView>,
    m: Map<Seq<char>, OfferingView>,
) -> bool {
    &&& forall|i: int, j: int|
        0 <= i < j < rs.len() ==> lex_lt(#[trigger] rs[i].id, #[trigger] rs[j].id)
    &&& rs.len() == m.dom().len()
    &&& forall|i: int|
        0 <= i < rs.len() ==> m.contains_key(#[trigger] rs[i].id) && rs[i] == query_record(
            (rs[i].id, m[rs[i].id]),
        )
}

proof fn lemma_records_exactly(e: Seq<EntryView>, m: Map<Seq<char>, OfferingView>)
    requires
        lists_exactly(e, m),
    ensures
        records_exactly(e.map_values(|x: EntryView| query_record(x)), m),
{
    let rs = e.map_values(|x: EntryView| query_record(x));
    assert forall|i: int, j: int| 0 <= i < j < rs.len() implies lex_lt(
        #[trigger] rs[i].id,
        #[trigger] rs[j].id,
    ) by {
        assert(rs[i].id == e[i].0 && rs[j].id == e[j].0);
    }
    assert forall|i: int| 0 <= i < rs.len() implies m.contains_key(#[trigger] rs[i].id) && rs[i]
        == query_record((rs[i].id, m[rs[i].id])) by {
        assert(rs[i].id == e[i].0);
    }
}

/// Every current listing, flattened, in ascending lexicographic order of
/// ids.
pub fn query_offerings(deps: &Marketplace) -> (r: OfferingResponse)
    requires
        deps.wf(),
    ensures
        r.results() == deps.offerings.entries().map_values(|e: EntryView| query_record(e)),
        records_exactly(r.results(), deps.offerings.listings()),
{
    proof {
        deps.offerings.lemma_entries_exact();
        lemma_records_exactly(deps.offerings.entries(), deps.offerings.listings());
    }
    let all = deps.offerings.list_all();
    let ghost e = deps.offerings.entries();
    let mut res: Vec<QueryOfferingResult> = Vec::new();
    let mut i: usize = 0;
    while i < all.len()
        invariant
            all@.len() == e.len(),
            forall|j: int| 0 <= j < e.len() ==> (#[trigger] all@[j]).0@ == e[j].0 && all@[j].1@ == e[j].1,
            i <= all@.len(),
            res@.len() == i,
            forall|j: int| 0 <= j < i ==> (#[trigger] res@[j])@ == query_record(e[j]),
        decreases all@.len() - i,
    {
        let (k, o) = (all[i].0.clone(), all[i].1.duplicate());
        res.push(parse_offering(k, o));
        i += 1;
    }
    let r = OfferingResponse { offerings: res };
    assert(r.results() =~= e.map_values(|e: EntryView| query_record(e)));
    r
}

/// The legacy counter record's count.
pub fn query_count(deps: &Marketplace) -> (r: Result<CountResponse, ContractError>)
    ensures
        deps.state is None ==> r == Err::<CountResponse, ContractError>(ContractError::NotFound),
        deps.state matches Some(s) ==> r == Ok::<CountResponse, ContractError>(
            CountResponse { count: s.count },
        ),
{
    match &deps.state {
        None => Err(ContractError::NotFound),
        Some(s) => Ok(CountResponse { count: s.count }),
    }
}

/// The answer to a query.
#[derive(Clone, Debug, PartialEq, Eq)]
pub enum QueryResponse {
    Count(CountResponse),
    Offerings(OfferingResponse),
}

/// What a query answers: the legacy count, or `NotFound` without a legacy
/// record; or every current listing, flattened, each once, in ascending
/// lexicographic order of ids.
pub open spec fn query_post(deps: Marketplace, msg: QueryMsg, r: Result<QueryResponse, ContractError>) -> bool {
    match msg {
        QueryMsg::GetCount {  } => match deps.state {
            None => r == Err::<QueryResponse, ContractError>(ContractError::NotFound),
            Some(s) => r == Ok::<QueryResponse, ContractError>(
                QueryResponse::Count(CountResponse { count: s.count }),
            ),
        },
        QueryMsg::GetOfferings {  } => {
            &&& r matches Ok(QueryResponse::Offerings(o))
            &&& r->Ok_0->Offerings_0.results() == deps.offerings.entries().map_values(
                |e: EntryView| query_record(e),
            )
            &&& records_exactly(r->Ok_0->Offerings_0.results(), deps.offerings.listings())
        },
    }
}

/// Answers a read-only request.
pub fn query(deps: &Marketplace, msg: QueryMsg) -> (r: Result<QueryResponse, ContractError>)
    requires
        deps.wf(),
    ensures
        query_post(*deps, msg, r),
{
    match msg {
        QueryMsg::GetCount {  } => match query_count(deps) {
            Ok(c) => Ok(QueryResponse::Count(c)),
            Err(e) => Err(e),
        },
        QueryMsg::GetOfferings {  } => Ok(QueryResponse::Offerings(query_offerings(deps))),
    }
}

} // verus!
