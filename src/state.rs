//! The listing store: the listing counter, the primary map from listing id
//! to offering, and the three secondary indexes by owner, seller and asset
//! contract, kept consistent with the primary map by every operation.
use vstd::prelude::*;

use crate::error::ContractError;
use crate::text::{lemma_lex_irreflexive, lemma_lex_total, lemma_lex_transitive, lex_lt, str_lt};

verus! {

/// An amount of a fungible token together with the contract that issues it.
#[derive(Clone, Debug, PartialEq, Eq)]
pub struct Price {
    pub address: String,
    pub amount: u128,
}

pub struct PriceView {
    pub address: Seq<char>,
    pub amount: u128,
}

impl View for Price {
    type V = PriceView;

    open spec fn view(&self) -> PriceView {
        PriceView { address: self.address@, amount: self.amount }
    }
}

impl Price {
    /// A copy of this price.
    pub fn duplicate(&self) -> (r: Price)
        ensures
            r@ == self@,
    {
        Price { address: self.address.clone(), amount: self.amount }
    }
}

/// A non-fungible asset offered for sale: who holds title to it, who gets
/// paid and may withdraw it, which contract issued it, and its asking price.
#[derive(Clone, Debug, PartialEq, Eq)]
pub struct Offering {
    pub owner: String,
    pub token_id: String,
    pub contract_addr: String,
    pub seller: String,
    pub list_price: Price,
    pub extension: String,
}

pub struct OfferingView {
    pub owner: Seq<char>,
    pub token_id: Seq<char>,
    pub contract_addr: Seq<char>,
    pub seller: Seq<char>,
    pub list_price: PriceView,
    pub extension: Seq<char>,
}

impl View for Offering {
    type V = OfferingView;

    open spec fn view(&self) -> OfferingView {
        OfferingView {
            owner: self.owner@,
            token_id: self.token_id@,
            contract_addr: self.contract_addr@,
            seller: self.seller@,
            list_price: self.list_price@,
            extension: self.extension@,
        }
    }
}

impl Offering {
    /// A copy of this offering.
    pub fn duplicate(&self) -> (r: Offering)
        ensures
            r@ == self@,
    {
        Offering {
            owner: self.owner.clone(),
            token_id: self.token_id.clone(),
            contract_addr: self.contract_addr.clone(),
            seller: self.seller.clone(),
            list_price: self.list_price.duplicate(),
            extension: self.extension.clone(),
        }
    }
}

/// The legacy counter record, unrelated to the marketplace.
#[derive(Clone, Debug, PartialEq, Eq)]
pub struct State {
    pub count: i32,
    pub owner: String,
}

/// The secondary indexes of the store.
#[derive(Clone, Copy, Debug, PartialEq, Eq, Structural)]
pub enum IndexKind {
    Owner,
    Seller,
    Contract,
}

/// The field of an offering that an index is keyed by.
pub open spec fn index_key(kind: IndexKind, o: OfferingView) -> Seq<char> {
    match kind {
        IndexKind::Owner => o.owner,
        IndexKind::Seller => o.seller,
        IndexKind::Contract => o.contract_addr,
    }
}

/// The owner index key of an offering.
pub fn offering_owner_idx(d: &Offering) -> (r: String)
    ensures
        r@ == d.owner@,
{
    d.owner.clone()
}

/// The id of a listing paired with its offering.
pub type EntryView = (Seq<char>, OfferingView);

/// Entries whose ids strictly ascend in lexicographic order; their ids are
/// therefore distinct.
pub open spec fn sorted_keys(e: Seq<EntryView>) -> bool {
    forall|i: int, j: int| 0 <= i < j < e.len() ==> lex_lt(#[trigger] e[i].0, #[trigger] e[j].0)
}

pub open spec fn has_key(e: Seq<EntryView>, k: Seq<char>) -> bool {
    exists|i: int| 0 <= i < e.len() && #[trigger] e[i].0 == k
}

/// A position at which `k` occurs as an id, if there is one.
pub open spec fn key_index(e: Seq<EntryView>, k: Seq<char>) -> int {
    choose|i: int| 0 <= i < e.len() && #[trigger] e[i].0 == k
}

/// The map from id to offering that a sequence of entries describes.
pub open spec fn entries_map(e: Seq<EntryView>) -> Map<Seq<char>, OfferingView> {
    Map::new(|k: Seq<char>| has_key(e, k), |k: Seq<char>| e[key_index(e, k)].1)
}

/// The entries, in order, whose offering has `key` in the field that `kind`
/// indexes.
pub open spec fn select(e: Seq<EntryView>, kind: IndexKind, key: Seq<char>) -> Seq<EntryView>
    decreases e.len(),
{
    if e.len() == 0 {
        Seq::empty()
    } else {
        let rest = select(e.drop_last(), kind, key);
        if index_key(kind, e.last().1) == key {
            rest.push(e.last())
        } else {
            rest
        }
    }
}

/// The views of a vector of id and offering pairs.
pub open spec fn pairs_view(v: Seq<(String, Offering)>) -> Seq<EntryView> {
    Seq::new(v.len(), |i: int| (v[i].0@, v[i].1@))
}

pub proof fn lemma_entries_map_at(e: Seq<EntryView>, i: int)
    requires
        sorted_keys(e),
        0 <= i < e.len(),
    ensures
        entries_map(e).contains_key(e[i].0),
        entries_map(e)[e[i].0] == e[i].1,
{
    let k = e[i].0;
    assert(has_key(e, k));
    let j = key_index(e, k);
    assert(entries_map(e)[k] == e[j].1);
    if j < i {
        assert(lex_lt(e[j].0, e[i].0));
        lemma_lex_irreflexive(k);
    } else if i < j {
        assert(lex_lt(e[i].0, e[j].0));
        lemma_lex_irreflexive(k);
    }
}

proof fn lemma_map_insert(e: Seq<EntryView>, p: int, x: EntryView)
    requires
        sorted_keys(e),
        sorted_keys(e.insert(p, x)),
        0 <= p <= e.len(),
    ensures
        entries_map(e.insert(p, x)) =~= entries_map(e).insert(x.0, x.1),
{
    let f = e.insert(p, x);
    assert forall|k: Seq<char>| has_key(f, k) <==> (has_key(e, k) || k == x.0) by {
        if has_key(f, k) {
            let i = choose|i: int| 0 <= i < f.len() && #[trigger] f[i].0 == k;
            if i < p {
                assert(e[i].0 == k);
            } else if i > p {
                assert(e[i - 1].0 == k);
            }
        }
        if has_key(e, k) {
            let i = choose|i: int| 0 <= i < e.len() && #[trigger] e[i].0 == k;
            if i < p {
                assert(f[i].0 == k);
            } else {
                assert(f[i + 1].0 == k);
            }
        }
        if k == x.0 {
            assert(f[p].0 == k);
        }
    }
    assert forall|k: Seq<char>| #[trigger] entries_map(f).contains_key(k) implies entries_map(f)[k]
        == entries_map(e).insert(x.0, x.1)[k] by {
        let i = choose|i: int| 0 <= i < f.len() && #[trigger] f[i].0 == k;
        lemma_entries_map_at(f, i);
        lemma_lex_irreflexive(k);
        if i < p {
            assert(lex_lt(f[i].0, f[p].0));
            lemma_entries_map_at(e, i);
        } else if i > p {
            assert(lex_lt(f[p].0, f[i].0));
            lemma_entries_map_at(e, i - 1);
        }
    }
}

proof fn lemma_map_remove(e: Seq<EntryView>, p: int)
    requires
        sorted_keys(e),
        0 <= p < e.len(),
    ensures
        sorted_keys(e.remove(p)),
        entries_map(e.remove(p)) =~= entries_map(e).remove(e[p].0),
{
    let f = e.remove(p);
    assert forall|i: int, j: int| 0 <= i < j < f.len() implies lex_lt(#[trigger] f[i].0, #[trigger] f[j].0) by {
        if i < p && j >= p {
            assert(f[j] == e[j + 1]);
        } else if i >= p {
            assert(f[i] == e[i + 1] && f[j] == e[j + 1]);
        }
    }
    assert forall|k: Seq<char>| has_key(f, k) <==> (has_key(e, k) && k != e[p].0) by {
        if has_key(f, k) {
            let i = choose|i: int| 0 <= i < f.len() && #[trigger] f[i].0 == k;
            if i < p {
                assert(e[i].0 == k);
                assert(lex_lt(e[i].0, e[p].0));
                lemma_lex_irreflexive(k);
            } else {
                assert(e[i + 1].0 == k);
                assert(lex_lt(e[p].0, e[i + 1].0));
                lemma_lex_irreflexive(k);
            }
        }
        if has_key(e, k) && k != e[p].0 {
            let i = choose|i: int| 0 <= i < e.len() && #[trigger] e[i].0 == k;
            if i < p {
                assert(f[i].0 == k);
            } else {
                assert(f[i - 1].0 == k);
            }
        }
    }
    assert forall|k: Seq<char>| #[trigger] entries_map(f).contains_key(k) implies entries_map(f)[k]
        == entries_map(e)[k] by {
        let i = choose|i: int| 0 <= i < f.len() && #[trigger] f[i].0 == k;
        lemma_entries_map_at(f, i);
        if i < p {
            lemma_entries_map_at(e, i);
        } else {
            lemma_entries_map_at(e, i + 1);
        }
    }
}

/// Where the scan for `id` stops in sorted entries: every entry before `p`
/// sorts below `id`, and the entry at `p`, if any, does not. If that entry's
/// id differs from `id`, then `id` is absent and sorts below every entry
/// from `p` on.
proof fn lemma_position(e: Seq<EntryView>, p: int, id: Seq<char>)
    requires
        sorted_keys(e),
        0 <= p <= e.len(),
        forall|k: int| 0 <= k < p ==> lex_lt(#[trigger] e[k].0, id),
        p < e.len() ==> !lex_lt(e[p].0, id) && e[p].0 != id,
    ensures
        !has_key(e, id),
        forall|k: int| p <= k < e.len() ==> lex_lt(id, #[trigger] e[k].0),
{
    assert forall|k: int| p <= k < e.len() implies lex_lt(id, #[trigger] e[k].0) by {
        lemma_lex_total(e[p].0, id);
        if k > p {
            lemma_lex_transitive(id, e[p].0, e[k].0);
        }
    }
    if has_key(e, id) {
        let i = choose|i: int| 0 <= i < e.len() && #[trigger] e[i].0 == id;
        lemma_lex_irreflexive(id);
        if i < p {
            assert(lex_lt(e[i].0, id));
        } else {
            assert(lex_lt(id, e[i].0));
        }
    }
}

proof fn lemma_select_contains(e: Seq<EntryView>, kind: IndexKind, key: Seq<char>, x: EntryView)
    ensures
        select(e, kind, key).contains(x) <==> (e.contains(x) && index_key(kind, x.1) == key),
    decreases e.len(),
{
    if e.len() > 0 {
        let d = e.drop_last();
        lemma_select_contains(d, kind, key, x);
        assert(e =~= d.push(e.last()));
        if e.contains(x) && x != e.last() {
            let i = choose|i: int| 0 <= i < e.len() && e[i] == x;
            assert(d[i] == x);
        }
        if d.contains(x) {
            let i = choose|i: int| 0 <= i < d.len() && d[i] == x;
            assert(e[i] == x);
        }
        let rest = select(d, kind, key);
        if index_key(kind, e.last().1) == key {
            if rest.push(e.last()).contains(x) && x != e.last() {
                let i = choose|i: int| 0 <= i < rest.len() + 1 && rest.push(e.last())[i] == x;
                assert(rest[i] == x);
            }
            if rest.contains(x) {
                let i = choose|i: int| 0 <= i < rest.len() && rest[i] == x;
                assert(rest.push(e.last())[i] == x);
            }
            assert(rest.push(e.last())[rest.len() as int] == e.last());
        }
        assert(e[e.len() - 1] == e.last());
    }
}

/// `e` lists the map `m` exactly: ids strictly ascending in lexicographic
/// order, hence each once; every entry is in the map; and every id of the
/// map occurs, so there are as many entries as ids.
pub open spec fn lists_exactly(e: Seq<EntryView>, m: Map<Seq<char>, OfferingView>) -> bool {
    &&& sorted_keys(e)
    &&& m.dom().finite()
    &&& e.len() == m.dom().len()
    &&& forall|i: int|
        0 <= i < e.len() ==> m.contains_key(#[trigger] e[i].0) && m[e[i].0] == e[i].1
    &&& forall|k: Seq<char>| #[trigger] m.contains_key(k) ==> has_key(e, k)
}

/// `e` lists, in strictly ascending order of ids, exactly those entries of
/// the map `m` whose field of the given kind is `key`.
pub open spec fn selects_exactly(
    e: Seq<EntryView>,
    m: Map<Seq<char>, OfferingView>,
    kind: IndexKind,
    key: Seq<char>,
) -> bool {
    &&& sorted_keys(e)
    &&& forall|i: int|
        0 <= i < e.len() ==> m.contains_key(#[trigger] e[i].0) && m[e[i].0] == e[i].1
            && index_key(kind, e[i].1) == key
    &&& forall|k: Seq<char>|
        #[trigger] m.contains_key(k) && index_key(kind, m[k]) == key ==> has_key(e, k)
}

/// Sorted entries list the map they describe exactly.
pub proof fn lemma_sorted_lists_exactly(e: Seq<EntryView>)
    requires
        sorted_keys(e),
    ensures
        lists_exactly(e, entries_map(e)),
    decreases e.len(),
{
    let m = entries_map(e);
    if e.len() == 0 {
        assert(m.dom() =~= Set::<Seq<char>>::empty());
    } else {
        let d = e.drop_last();
        let x = e.last();
        assert(e =~= d.insert(d.len() as int, x));
        lemma_sorted_lists_exactly(d);
        lemma_map_insert(d, d.len() as int, x);
        if entries_map(d).contains_key(x.0) {
            let j = key_index(d, x.0);
            assert(lex_lt(e[j].0, e[e.len() - 1].0));
            lemma_lex_irreflexive(x.0);
        }
        assert(m.dom() =~= entries_map(d).dom().insert(x.0));
    }
    assert forall|i: int| 0 <= i < e.len() implies m.contains_key(#[trigger] e[i].0) && m[e[i].0]
        == e[i].1 by {
        lemma_entries_map_at(e, i);
    }
}

/// What an index scan returns, read against the map: a sub-sequence of
/// sorted entries keeps their order, and holds exactly the entries whose
/// indexed field is `key`.
proof fn lemma_select_exactly(e: Seq<EntryView>, kind: IndexKind, key: Seq<char>)
    requires
        sorted_keys(e),
    ensures
        selects_exactly(select(e, kind, key), entries_map(e), kind, key),
    decreases e.len(),
{
    let r = select(e, kind, key);
    let m = entries_map(e);
    if e.len() > 0 {
        let d = e.drop_last();
        lemma_select_exactly(d, kind, key);
        let rd = select(d, kind, key);
        if index_key(kind, e.last().1) == key {
            assert forall|i: int, j: int| 0 <= i < j < r.len() implies lex_lt(
                #[trigger] r[i].0,
                #[trigger] r[j].0,
            ) by {
                if j == rd.len() {
                    assert(rd.contains(rd[i]));
                    lemma_select_contains(d, kind, key, rd[i]);
                    let a = choose|a: int| 0 <= a < d.len() && d[a] == rd[i];
                    assert(e[a] == d[a]);
                    assert(lex_lt(e[a].0, e[e.len() - 1].0));
                } else {
                    assert(r[i] == rd[i] && r[j] == rd[j]);
                }
            }
        }
    }
    assert forall|i: int| 0 <= i < r.len() implies m.contains_key(#[trigger] r[i].0) && m[r[i].0]
        == r[i].1 && index_key(kind, r[i].1) == key by {
        assert(r.contains(r[i]));
        lemma_select_contains(e, kind, key, r[i]);
        let a = choose|a: int| 0 <= a < e.len() && e[a] == r[i];
        lemma_entries_map_at(e, a);
    }
    assert forall|k: Seq<char>| #[trigger] m.contains_key(k) && index_key(kind, m[k]) == key
        implies has_key(r, k) by {
        let a = key_index(e, k);
        lemma_entries_map_at(e, a);
        assert(e.contains(e[a]));
        lemma_select_contains(e, kind, key, e[a]);
        let b = choose|b: int| 0 <= b < r.len() && r[b] == e[a];
        assert(r[b].0 == k);
    }
}

/// An index entry: the indexed field of an offering and the offering's id.
#[derive(Clone, Debug, PartialEq, Eq)]
pub struct IndexEntry {
    pub key: String,
    pub pk: String,
}

/// The three secondary indexes. Entry `i` of each belongs to listing `i` of
/// the store, in id order.
pub struct OfferingIndexes {
    owner: Vec<IndexEntry>,
    seller: Vec<IndexEntry>,
    contract: Vec<IndexEntry>,
}

impl OfferingIndexes {
    closed spec fn of_kind(&self, kind: IndexKind) -> Seq<IndexEntry> {
        match kind {
            IndexKind::Owner => self.owner@,
            IndexKind::Seller => self.seller@,
            IndexKind::Contract => self.contract@,
        }
    }

    /// The index of the given kind.
    fn get_index(&self, kind: IndexKind) -> (r: &Vec<IndexEntry>)
        ensures
            r@ == self.of_kind(kind),
    {
        match kind {
            IndexKind::Owner => &self.owner,
            IndexKind::Seller => &self.seller,
            IndexKind::Contract => &self.contract,
        }
    }
}

/// The listing store: the listing counter, the listings ordered by id, and
/// their secondary indexes.
pub struct OfferingStore {
    count: u64,
    pks: Vec<String>,
    values: Vec<Offering>,
    idx: OfferingIndexes,
}

impl OfferingStore {
    /// The listing counter: the number of ids issued so far.
    pub closed spec fn counter(&self) -> nat {
        self.count as nat
    }

    /// The listings, by ascending id.
    pub closed spec fn entries(&self) -> Seq<EntryView> {
        Seq::new(self.pks@.len(), |i: int| (self.pks@[i]@, self.values@[i]@))
    }

    /// The listings, by id.
    pub open spec fn listings(&self) -> Map<Seq<char>, OfferingView> {
        entries_map(self.entries())
    }

    /// Entry `i` of each index holds the indexed field and the id of
    /// listing `i`.
    pub closed spec fn indexes_match(&self) -> bool {
        &&& self.idx.owner@.len() == self.pks@.len()
        &&& self.idx.seller@.len() == self.pks@.len()
        &&& self.idx.contract@.len() == self.pks@.len()
        &&& forall|kind: IndexKind, i: int|
            0 <= i < self.pks@.len() ==> (#[trigger] self.idx.of_kind(kind)[i]).key@ == index_key(
                kind,
                self.values@[i]@,
            ) && self.idx.of_kind(kind)[i].pk@ == self.pks@[i]@
    }

    /// Well-formedness: ids ascend strictly, and every index has exactly one
    /// entry for each listing.
    pub closed spec fn wf(&self) -> bool {
        &&& self.values@.len() == self.pks@.len()
        &&& sorted_keys(self.entries())
        &&& self.indexes_match()
    }
}

impl OfferingStore {
    /// The ordered listings of a well-formed store list its map exactly:
    /// ascending ids, each once, as many as the map holds.
    pub proof fn lemma_entries_exact(&self)
        requires
            self.wf(),
        ensures
            lists_exactly(self.entries(), self.listings()),
    {
        lemma_sorted_lists_exactly(self.entries());
    }
}

/// An empty store whose counter stands at zero.
pub fn offerings() -> (r: OfferingStore)
    ensures
        r.wf(),
        r.counter() == 0,
        r.entries() == Seq::<EntryView>::empty(),
        r.listings() == Map::<Seq<char>, OfferingView>::empty(),
{
    let r = OfferingStore {
        count: 0,
        pks: Vec::new(),
        values: Vec::new(),
        idx: OfferingIndexes { owner: Vec::new(), seller: Vec::new(), contract: Vec::new() },
    };
    assert(r.entries() =~= Seq::<EntryView>::empty());
    assert(r.listings() =~= Map::<Seq<char>, OfferingView>::empty());
    r
}


impl OfferingStore {
    /// The first position whose id does not sort below `id`.
    fn position(&self, id: &String) -> (p: usize)
        requires
            self.wf(),
        ensures
            p <= self.pks@.len(),
            forall|k: int| 0 <= k < p ==> lex_lt(#[trigger] self.entries()[k].0, id@),
            p < self.pks@.len() ==> !lex_lt(self.entries()[p as int].0, id@),
    {
        let mut i: usize = 0;
        while i < self.pks.len()
            invariant
                self.wf(),
                i <= self.pks@.len(),
                forall|k: int| 0 <= k < i ==> lex_lt(#[trigger] self.entries()[k].0, id@),
            decreases self.pks@.len() - i,
        {
            if !str_lt(self.pks[i].as_str(), id.as_str()) {
                return i;
            }
            i += 1;
        }
        i
    }

    /// Finds the position of `id`, if it is stored.
    fn find(&self, id: &String) -> (r: Option<usize>)
        requires
            self.wf(),
        ensures
            r is Some <==> self.listings().contains_key(id@),
            r matches Some(p) ==> (p < self.pks@.len() && self.entries()[p as int].0 == id@
                && self.listings()[id@] == self.entries()[p as int].1),
            r is None ==> !has_key(self.entries(), id@),
    {
        let p = self.position(id);
        if p < self.pks.len() && self.pks[p] == *id {
            proof {
                lemma_entries_map_at(self.entries(), p as int);
            }
            Some(p)
        } else {
            proof {
                lemma_position(self.entries(), p as int, id@);
            }
            None
        }
    }

    /// The offering stored under `id`.
    pub fn get(&self, id: &String) -> (r: Result<Offering, ContractError>)
        requires
            self.wf(),
        ensures
            self.listings().contains_key(id@) ==> (r matches Ok(o) && o@ == self.listings()[id@]),
            !self.listings().contains_key(id@) ==> r == Err::<Offering, ContractError>(
                ContractError::NotFound,
            ),
    {
        match self.find(id) {
            Some(p) => Ok(self.values[p].duplicate()),
            None => Err(ContractError::NotFound),
        }
    }

    /// Whether a listing is stored under `id`.
    pub fn has(&self, id: &String) -> (r: bool)
        requires
            self.wf(),
        ensures
            r == self.listings().contains_key(id@),
    {
        self.find(id).is_some()
    }

    /// Stores `offering` under `id`, in the primary map and in every index
    /// together. Refused with `DuplicateKey` if `id` is taken.
    pub fn create(&mut self, id: String, offering: Offering) -> (r: Result<(), ContractError>)
        requires
            old(self).wf(),
        ensures
            final(self).wf(),
            final(self).counter() == old(self).counter(),
            old(self).listings().contains_key(id@) ==> r == Err::<(), ContractError>(
                ContractError::DuplicateKey,
            ) && final(self).entries() == old(self).entries(),
            !old(self).listings().contains_key(id@) ==> r is Ok && final(self).listings()
                == old(self).listings().insert(id@, offering@),
    {
        let p = self.position(&id);
        if p < self.pks.len() && self.pks[p] == id {
            proof {
                lemma_entries_map_at(self.entries(), p as int);
            }
            return Err(ContractError::DuplicateKey);
        }
        proof {
            lemma_position(self.entries(), p as int, id@);
        }
        let ghost e0 = self.entries();
        let ghost x: EntryView = (id@, offering@);
        self.idx.owner.insert(p, IndexEntry { key: offering.owner.clone(), pk: id.clone() });
        self.idx.seller.insert(p, IndexEntry { key: offering.seller.clone(), pk: id.clone() });
        self.idx.contract.insert(
            p,
            IndexEntry { key: offering.contract_addr.clone(), pk: id.clone() },
        );
        self.pks.insert(p, id);
        self.values.insert(p, offering);
        proof {
            let e1 = self.entries();
            assert(e1 =~= e0.insert(p as int, x));
            assert(sorted_keys(e1)) by {
                assert forall|i: int, j: int| 0 <= i < j < e1.len() implies lex_lt(
                    #[trigger] e1[i].0,
                    #[trigger] e1[j].0,
                ) by {
                    if j < p {
                    } else if j == p {
                    } else if i < p {
                        assert(e1[j] == e0[j - 1]);
                        assert(lex_lt(e0[i].0, x.0));
                        lemma_lex_transitive(e0[i].0, x.0, e0[j - 1].0);
                    } else if i == p {
                        assert(e1[j] == e0[j - 1]);
                    } else {
                        assert(e1[i] == e0[i - 1] && e1[j] == e0[j - 1]);
                    }
                }
            }
            assert forall|kind: IndexKind, i: int| 0 <= i < self.pks@.len() implies (
            #[trigger] self.idx.of_kind(kind)[i]).key@ == index_key(kind, self.values@[i]@)
                && self.idx.of_kind(kind)[i].pk@ == self.pks@[i]@ by {
                if i < p {
                    assert(self.idx.of_kind(kind)[i] == old(self).idx.of_kind(kind)[i]);
                } else if i > p {
                    assert(self.idx.of_kind(kind)[i] == old(self).idx.of_kind(kind)[i - 1]);
                }
            }
            lemma_map_insert(e0, p as int, x);
        }
        Ok(())
    }

    /// Removes the listing stored under `id` from the primary map and from
    /// every index together; does nothing if there is none.
    pub fn remove(&mut self, id: &String)
        requires
            old(self).wf(),
        ensures
            final(self).wf(),
            final(self).counter() == old(self).counter(),
            final(self).listings() == old(self).listings().remove(id@),
    {
        match self.find(id) {
            Some(p) => {
                let ghost e0 = self.entries();
                self.idx.owner.remove(p);
                self.idx.seller.remove(p);
                self.idx.contract.remove(p);
                self.pks.remove(p);
                self.values.remove(p);
                proof {
                    assert(self.entries() =~= e0.remove(p as int));
                    lemma_map_remove(e0, p as int);
                    assert forall|kind: IndexKind, i: int| 0 <= i < self.pks@.len() implies (
                    #[trigger] self.idx.of_kind(kind)[i]).key@ == index_key(
                        kind,
                        self.values@[i]@,
                    ) && self.idx.of_kind(kind)[i].pk@ == self.pks@[i]@ by {
                        if i < p {
                            assert(self.idx.of_kind(kind)[i] == old(self).idx.of_kind(kind)[i]);
                        } else {
                            assert(self.idx.of_kind(kind)[i] == old(self).idx.of_kind(kind)[i
                                + 1]);
                        }
                    }
                }
            },
            None => {
                assert(self.listings() =~= self.listings().remove(id@));
            },
        }
    }

    /// Every listing with its id, in ascending lexicographic order of ids.
    pub fn list_all(&self) -> (r: Vec<(String, Offering)>)
        requires
            self.wf(),
        ensures
            pairs_view(r@) == self.entries(),
            lists_exactly(pairs_view(r@), self.listings()),
    {
        proof {
            self.lemma_entries_exact();
        }
        let mut r: Vec<(String, Offering)> = Vec::new();
        let mut i: usize = 0;
        while i < self.pks.len()
            invariant
                self.wf(),
                i <= self.pks@.len(),
                pairs_view(r@) =~= self.entries().take(i as int),
            decreases self.pks@.len() - i,
        {
            let ghost before = r@;
            r.push((self.pks[i].clone(), self.values[i].duplicate()));
            assert(pairs_view(r@) =~= pairs_view(before).push(self.entries()[i as int]));
            assert(self.entries().take(i + 1) =~= self.entries().take(i as int).push(
                self.entries()[i as int],
            ));
            i += 1;
        }
        assert(self.entries().take(i as int) =~= self.entries());
        r
    }

    /// The listings whose field of the given kind equals `key`, in ascending
    /// order of ids, found through that secondary index.
    pub fn find_by(&self, kind: IndexKind, key: &String) -> (r: Vec<(String, Offering)>)
        requires
            self.wf(),
        ensures
            pairs_view(r@) == select(self.entries(), kind, key@),
            selects_exactly(pairs_view(r@), self.listings(), kind, key@),
    {
        proof {
            lemma_select_exactly(self.entries(), kind, key@);
        }
        let index = self.idx.get_index(kind);
        let mut r: Vec<(String, Offering)> = Vec::new();
        let mut i: usize = 0;
        while i < index.len()
            invariant
                self.wf(),
                index@ == self.idx.of_kind(kind),
                index@.len() == self.pks@.len(),
                i <= self.pks@.len(),
                pairs_view(r@) =~= select(self.entries().take(i as int), kind, key@),
            decreases self.pks@.len() - i,
        {
            let ghost before = r@;
            let entry = &index[i];
            assert(self.entries().take(i + 1).drop_last() =~= self.entries().take(i as int));
            if entry.key == *key {
                r.push((entry.pk.clone(), self.values[i].duplicate()));
                assert(pairs_view(r@) =~= pairs_view(before).push(self.entries()[i as int]));
            }
            i += 1;
        }
        assert(self.entries().take(i as int) =~= self.entries());
        r
    }

    /// The listings owned by `addr`, in ascending order of ids.
    pub fn find_by_owner(&self, addr: &String) -> (r: Vec<(String, Offering)>)
        requires
            self.wf(),
        ensures
            pairs_view(r@) == select(self.entries(), IndexKind::Owner, addr@),
            selects_exactly(pairs_view(r@), self.listings(), IndexKind::Owner, addr@),
    {
        self.find_by(IndexKind::Owner, addr)
    }

    /// The listings sold by `addr`, in ascending order of ids.
    pub fn find_by_seller(&self, addr: &String) -> (r: Vec<(String, Offering)>)
        requires
            self.wf(),
        ensures
            pairs_view(r@) == select(self.entries(), IndexKind::Seller, addr@),
            selects_exactly(pairs_view(r@), self.listings(), IndexKind::Seller, addr@),
    {
        self.find_by(IndexKind::Seller, addr)
    }

    /// The listings of assets issued by the contract `addr`, in ascending
    /// order of ids.
    pub fn find_by_contract(&self, addr: &String) -> (r: Vec<(String, Offering)>)
        requires
            self.wf(),
        ensures
            pairs_view(r@) == select(self.entries(), IndexKind::Contract, addr@),
            selects_exactly(pairs_view(r@), self.listings(), IndexKind::Contract, addr@),
    {
        self.find_by(IndexKind::Contract, addr)
    }
}

/// The listing counter.
pub fn num_offerings(store: &OfferingStore) -> (r: u64)
    ensures
        r == store.counter(),
{
    store.count
}

/// Advances the listing counter by one and returns its new value, the next
/// listing id. Refused with `Overflow`, changing nothing, once the counter
/// holds the largest `u64`.
pub fn increment_offerings(store: &mut OfferingStore) -> (r: Result<u64, ContractError>)
    requires
        old(store).wf(),
    ensures
        final(store).wf(),
        old(store).counter() < u64::MAX ==> (r matches Ok(n) && n == old(store).counter() + 1
            && final(store).counter() == n && final(store).entries() == old(store).entries()),
        old(store).counter() >= u64::MAX ==> r == Err::<u64, ContractError>(ContractError::Overflow)
            && *final(store) == *old(store),
{
    if store.count == u64::MAX {
        return Err(ContractError::Overflow);
    }
    store.count = store.count + 1;
    Ok(store.count)
}


/// Index consistency: a secondary index yields an id and an offering under
/// `key` exactly when the primary map holds that offering under that id and
/// the offering's indexed field is `key`. Every store operation keeps the
/// store well formed, so this holds after any sequence of them.
pub proof fn lemma_index_consistent(
    store: &OfferingStore,
    kind: IndexKind,
    key: Seq<char>,
    id: Seq<char>,
    o: OfferingView,
)
    requires
        store.wf(),
    ensures
        select(store.entries(), kind, key).contains((id, o)) <==> (store.listings().contains_key(id)
            && store.listings()[id] == o && index_key(kind, o) == key),
{
    let e = store.entries();
    lemma_select_contains(e, kind, key, (id, o));
    if e.contains((id, o)) {
        let i = choose|i: int| 0 <= i < e.len() && e[i] == (id, o);
        lemma_entries_map_at(e, i);
    }
    if store.listings().contains_key(id) {
        let i = key_index(e, id);
        lemma_entries_map_at(e, i);
        if store.listings()[id] == o {
            assert(e[i] == (id, o));
        }
    }
}


/// No id occurs twice.
pub open spec fn distinct_ids(e: Seq<EntryView>) -> bool {
    forall|i: int, j: int| 0 <= i < j < e.len() ==> #[trigger] e[i].0 != #[trigger] e[j].0
}

/// Rebuilds a store from its counter and its listings, given in any order.
/// Refused with `DuplicateKey` when an id occurs twice.
pub fn restore(count: u64, entries: &Vec<(String, Offering)>) -> (r: Result<OfferingStore, ContractError>)
    ensures
        r is Ok <==> distinct_ids(pairs_view(entries@)),
        r is Err ==> r == Err::<OfferingStore, ContractError>(ContractError::DuplicateKey),
        r matches Ok(s) ==> (s.wf() && s.counter() == count),
        r matches Ok(s) ==> (forall|k: Seq<char>|
            s.listings().contains_key(k) <==> has_key(pairs_view(entries@), k)),
        r matches Ok(s) ==> (forall|j: int|
            0 <= j < entries@.len() ==> s.listings()[#[trigger] entries@[j].0@] == entries@[j].1@),
{
    let ghost ev = pairs_view(entries@);
    let mut s = offerings();
    s.count = count;
    let mut i: usize = 0;
    while i < entries.len()
        invariant
            ev == pairs_view(entries@),
            s.wf(),
            s.counter() == count,
            i <= entries@.len(),
            distinct_ids(ev.take(i as int)),
            forall|k: Seq<char>| s.listings().contains_key(k) <==> has_key(ev.take(i as int), k),
            forall|j: int| 0 <= j < i ==> s.listings()[#[trigger] ev[j].0] == ev[j].1,
        decreases entries@.len() - i,
    {
        let ghost before = s.listings();
        let ghost t = ev.take(i as int);
        let ghost t1 = ev.take(i + 1);
        assert(t1 =~= t.push(ev[i as int]));
        let created = s.create(entries[i].0.clone(), entries[i].1.duplicate());
        if created.is_err() {
            proof {
                let j = choose|j: int| 0 <= j < t.len() && #[trigger] t[j].0 == ev[i as int].0;
                assert(ev[j].0 == ev[i as int].0);
            }
            return Err(ContractError::DuplicateKey);
        }
        proof {
            assert forall|k: Seq<char>| s.listings().contains_key(k) <==> has_key(t1, k) by {
                if has_key(t, k) {
                    let j = choose|j: int| 0 <= j < t.len() && #[trigger] t[j].0 == k;
                    assert(t1[j].0 == k);
                }
                if has_key(t1, k) && k != ev[i as int].0 {
                    let j = choose|j: int| 0 <= j < t1.len() && #[trigger] t1[j].0 == k;
                    assert(t[j].0 == k);
                }
                if k == ev[i as int].0 {
                    assert(t1[i as int].0 == k);
                }
            }
            assert forall|a: int, b: int| 0 <= a < b < t1.len() implies #[trigger] t1[a].0
                != #[trigger] t1[b].0 by {
                if b == i {
                    assert(has_key(t, t1[a].0));
                }
            }
            assert forall|j: int| 0 <= j < i + 1 implies s.listings()[#[trigger] ev[j].0]
                == ev[j].1 by {
                if j < i {
                    assert(t[j].0 == ev[j].0);
                    assert(has_key(t, ev[j].0));
                }
            }
        }
        i += 1;
    }
    assert(ev.take(i as int) =~= ev);
    assert forall|j: int| 0 <= j < entries@.len() implies s.listings()[#[trigger] entries@[j].0@]
        == entries@[j].1@ by {
        assert(ev[j].0 == entries@[j].0@);
    }
    Ok(s)
}

} // verus!
