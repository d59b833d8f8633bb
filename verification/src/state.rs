//! The ledger: balances per identity and asset, markets per asset, and the
//! invariant-preserving mutation primitives.
use vstd::prelude::*;

use crate::book::{market_wf, Market, MarketV};

verus! {

/// The whole persisted state of the order book: the settlement currency's
/// name, one market per traded asset, and every identity's balances.
///
/// Markets and balances are association lists with pairwise-distinct keys
/// (see [`state_wf`]); a missing identity or asset reads as a zero balance.
#[derive(Debug, PartialEq)]
pub struct OrderBookState {
    pub base_asset: String,
    pub markets: Vec<(String, Market)>,
    pub balances: Vec<(String, Vec<(String, u128)>)>,
}

/// The mathematical value of an [`OrderBookState`].
#[verifier::ext_equal]
pub ghost struct StateV {
    pub base: Seq<char>,
    pub markets: Seq<(Seq<char>, MarketV)>,
    pub balances: Seq<(Seq<char>, Seq<(Seq<char>, u128)>)>,
}

impl View for OrderBookState {
    type V = StateV;

    open spec fn view(&self) -> StateV {
        StateV {
            base: self.base_asset@,
            markets: self.markets.deep_view(),
            balances: self.balances.deep_view(),
        }
    }
}

/// The index of the first entry under key `k`, or the length when none is.
pub open spec fn key_ix<T>(s: Seq<(Seq<char>, T)>, k: Seq<char>) -> int
    decreases s.len(),
{
    if s.len() == 0 {
        0
    } else if s[0].0 == k {
        0
    } else {
        1 + key_ix(s.drop_first(), k)
    }
}

/// Whether an entry under key `k` exists.
pub open spec fn has_key<T>(s: Seq<(Seq<char>, T)>, k: Seq<char>) -> bool {
    key_ix(s, k) < s.len()
}

/// `key_ix` is the first index holding `k`: no earlier entry holds it, and it
/// is in range exactly when some entry does.
pub proof fn lemma_key_ix<T>(s: Seq<(Seq<char>, T)>, k: Seq<char>)
    ensures
        0 <= key_ix(s, k) <= s.len(),
        key_ix(s, k) < s.len() ==> s[key_ix(s, k)].0 == k,
        forall|j: int| 0 <= j < key_ix(s, k) ==> s[j].0 != k,
    decreases s.len(),
{
    if s.len() > 0 && s[0].0 != k {
        lemma_key_ix(s.drop_first(), k);
        assert forall|j: int| 0 <= j < key_ix(s, k) implies s[j].0 != k by {
            if j > 0 {
                assert(s[j] == s.drop_first()[j - 1]);
            }
        }
    }
}

/// An index with `k` nowhere before it and `k` at it (or past the end with
/// `k` nowhere) is `key_ix`.
pub proof fn lemma_key_ix_unique<T>(s: Seq<(Seq<char>, T)>, k: Seq<char>, ix: int)
    requires
        0 <= ix <= s.len(),
        forall|j: int| 0 <= j < ix ==> s[j].0 != k,
        ix < s.len() ==> s[ix].0 == k,
    ensures
        ix == key_ix(s, k),
{
    lemma_key_ix(s, k);
}

/// Keys are pairwise distinct.
pub open spec fn keys_unique<T>(s: Seq<(Seq<char>, T)>) -> bool {
    forall|i: int, j: int| 0 <= i < j < s.len() ==> s[i].0 != s[j].0
}

/// The balance recorded for an asset in one identity's entry list, zero when
/// absent.
pub open spec fn asset_amount(assets: Seq<(Seq<char>, u128)>, asset: Seq<char>) -> u128 {
    if has_key(assets, asset) {
        assets[key_ix(assets, asset)].1
    } else {
        0
    }
}

/// An association list after its entry for `k` becomes `v`: updated in place
/// when present, appended when absent.
pub open spec fn assoc_set<T>(s: Seq<(Seq<char>, T)>, k: Seq<char>, v: T) -> Seq<(Seq<char>, T)> {
    if has_key(s, k) {
        s.update(key_ix(s, k), (k, v))
    } else {
        s.push((k, v))
    }
}

/// One identity's entry list after its balance for `asset` becomes `v`.
pub open spec fn set_amount(
    assets: Seq<(Seq<char>, u128)>,
    asset: Seq<char>,
    v: u128,
) -> Seq<(Seq<char>, u128)> {
    assoc_set(assets, asset, v)
}

/// An identity's balance for an asset; a missing identity or asset reads as
/// zero, never as an error.
pub open spec fn balance_of(st: StateV, id: Seq<char>, asset: Seq<char>) -> u128 {
    if has_key(st.balances, id) {
        asset_amount(st.balances[key_ix(st.balances, id)].1, asset)
    } else {
        0
    }
}

/// The state after one identity's balance for one asset becomes `v`.
pub open spec fn set_balance(st: StateV, id: Seq<char>, asset: Seq<char>, v: u128) -> StateV {
    let inner = if has_key(st.balances, id) {
        st.balances[key_ix(st.balances, id)].1
    } else {
        Seq::empty()
    };
    let inner2 = set_amount(inner, asset, v);
    StateV {
        base: st.base,
        markets: st.markets,
        balances: assoc_set(st.balances, id, inner2),
    }
}

/// The market for an asset, empty when none has been created yet.
pub open spec fn market_of(st: StateV, name: Seq<char>) -> MarketV {
    if has_key(st.markets, name) {
        st.markets[key_ix(st.markets, name)].1
    } else {
        MarketV { asks: Seq::empty(), bids: Seq::empty() }
    }
}

/// The state after the market for `name` becomes `m`.
pub open spec fn set_market(st: StateV, name: Seq<char>, m: MarketV) -> StateV {
    StateV {
        base: st.base,
        markets: assoc_set(st.markets, name, m),
        balances: st.balances,
    }
}

/// Well-formedness of the whole state: distinct market and identity keys,
/// distinct asset keys within each identity, and every market well formed.
pub open spec fn state_wf(st: StateV) -> bool {
    &&& keys_unique(st.markets)
    &&& keys_unique(st.balances)
    &&& forall|i: int| 0 <= i < st.markets.len() ==> market_wf(#[trigger] st.markets[i].1)
    &&& forall|i: int| 0 <= i < st.balances.len() ==> keys_unique(#[trigger] st.balances[i].1)
}

/// After `set_balance` the written pair reads back `v`, every other pair
/// reads as before, and nothing else about the state changes.
pub proof fn lemma_set_balance(st: StateV, id: Seq<char>, asset: Seq<char>, v: u128)
    ensures
        state_wf(st) ==> state_wf(set_balance(st, id, asset, v)),
        balance_of(set_balance(st, id, asset, v), id, asset) == v,
        forall|id2: Seq<char>, a2: Seq<char>|
            id2 != id || a2 != asset ==> balance_of(set_balance(st, id, asset, v), id2, a2)
                == balance_of(st, id2, a2),
        set_balance(st, id, asset, v).markets == st.markets,
        set_balance(st, id, asset, v).base == st.base,
{
    let st2 = set_balance(st, id, asset, v);
    let inner = if has_key(st.balances, id) {
        st.balances[key_ix(st.balances, id)].1
    } else {
        Seq::empty()
    };
    lemma_assoc_set(st.balances, id, set_amount(inner, asset, v));
    lemma_assoc_set(inner, asset, v);
    lemma_key_ix(st.balances, id);
    let inner2 = set_amount(inner, asset, v);
    assert forall|id2: Seq<char>, a2: Seq<char>| id2 != id || a2 != asset implies balance_of(
        st2,
        id2,
        a2,
    ) == balance_of(st, id2, a2) by {
        lemma_key_ix(st.balances, id);
        lemma_key_ix(st.balances, id2);
        if id2 == id {
            lemma_key_ix(inner, asset);
            lemma_key_ix(inner, a2);
            assert(st2.balances[key_ix(st2.balances, id)].1 == inner2);
            if has_key(inner, a2) {
                assert(inner2[key_ix(inner, a2)] == inner[key_ix(inner, a2)]);
            } else {
                assert(!has_key(inner2, a2));
            }
        } else {
            if has_key(st.balances, id2) {
                assert(st2.balances[key_ix(st.balances, id2)] == st.balances[key_ix(
                    st.balances,
                    id2,
                )]);
            } else {
                assert(!has_key(st2.balances, id2));
            }
        }
    }
    if state_wf(st) {
        assert(state_wf(st2)) by {
            assert forall|i: int| 0 <= i < st2.balances.len() implies keys_unique(
                #[trigger] st2.balances[i].1,
            ) by {
                lemma_key_ix(st.balances, id);
            }
        }
    }
}

/// How `key_ix` behaves after an association list's entry for `k` is set:
/// every present key keeps its index, every other absent key stays absent,
/// and a freshly pushed key lands at the old end.
pub proof fn lemma_assoc_set<T>(s: Seq<(Seq<char>, T)>, k: Seq<char>, v: T)
    ensures
        ({
            let s2 = assoc_set(s, k, v);
            &&& (forall|k2: Seq<char>|
                has_key(s, k2) ==> #[trigger] key_ix(s2, k2) == key_ix(s, k2))
            &&& (forall|k2: Seq<char>|
                !has_key(s, k2) && k2 != k ==> !(#[trigger] has_key(s2, k2)))
            &&& has_key(s2, k)
            &&& key_ix(s2, k) == (if has_key(s, k) {
                key_ix(s, k)
            } else {
                s.len() as int
            })
            &&& s2[key_ix(s2, k)].1 == v
            &&& (forall|j: int|
                0 <= j < s2.len() && j != key_ix(s2, k) ==> #[trigger] s2[j] == s[j])
            &&& (keys_unique(s) ==> keys_unique(s2))
        }),
{
    lemma_key_ix(s, k);
    let ki = key_ix(s, k);
    let s2 = assoc_set(s, k, v);
    assert forall|j: int| 0 <= j < s2.len() implies #[trigger] s2[j].0 == (if j == (if has_key(
        s,
        k,
    ) {
        ki
    } else {
        s.len() as int
    }) {
        k
    } else {
        s[j].0
    }) by {}
    assert forall|k2: Seq<char>| has_key(s, k2) implies #[trigger] key_ix(s2, k2) == key_ix(
        s,
        k2,
    ) by {
        lemma_key_ix(s, k2);
        lemma_key_ix_unique(s2, k2, key_ix(s, k2));
    }
    assert forall|k2: Seq<char>| !has_key(s, k2) && k2 != k implies !(#[trigger] has_key(
        s2,
        k2,
    )) by {
        lemma_key_ix(s, k2);
        lemma_key_ix_unique(s2, k2, s2.len() as int);
    }
    if has_key(s, k) {
        lemma_key_ix_unique(s2, k, ki);
    } else {
        lemma_key_ix_unique(s2, k, s.len() as int);
    }
}

/// After `set_market` the written market reads back, every other market
/// reads as before, and balances are untouched.
pub proof fn lemma_set_market(st: StateV, name: Seq<char>, m: MarketV)
    requires
        state_wf(st),
        market_wf(m),
    ensures
        state_wf(set_market(st, name, m)),
        market_of(set_market(st, name, m), name) == m,
        forall|n2: Seq<char>|
            n2 != name ==> market_of(set_market(st, name, m), n2) == market_of(st, n2),
        set_market(st, name, m).balances == st.balances,
        set_market(st, name, m).base == st.base,
{
    let st2 = set_market(st, name, m);
    lemma_assoc_set(st.markets, name, m);
    assert forall|n2: Seq<char>| n2 != name implies market_of(st2, n2) == market_of(st, n2) by {
        lemma_key_ix(st.markets, name);
        lemma_key_ix(st.markets, n2);
        if has_key(st.markets, n2) {
            assert(st2.markets[key_ix(st.markets, n2)] == st.markets[key_ix(st.markets, n2)]);
        } else {
            assert(!has_key(st2.markets, n2));
        }
    }
    assert(state_wf(st2)) by {
        assert forall|i: int| 0 <= i < st2.markets.len() implies market_wf(
            #[trigger] st2.markets[i].1,
        ) by {
            lemma_key_ix(st.markets, name);
        }
    }
}

impl OrderBookState {
    /// A freshly registered book: the base asset fixed, no markets, no
    /// balances.
    pub fn new(base: String) -> (r: OrderBookState)
        ensures
            r@ == (StateV { base: base@, markets: Seq::empty(), balances: Seq::empty() }),
            state_wf(r@),
    {
        let r = OrderBookState { base_asset: base, markets: Vec::new(), balances: Vec::new() };
        proof {
            assert(r@.markets =~= Seq::<(Seq<char>, MarketV)>::empty());
            assert(r@.balances =~= Seq::<(Seq<char>, Seq<(Seq<char>, u128)>)>::empty());
            assert(r@ =~= (StateV {
                base: r.base_asset@,
                markets: Seq::empty(),
                balances: Seq::empty(),
            }));
        }
        r
    }
}

/// Finds the first entry under key `k`, or the length when none exists.
pub fn find_key<T: DeepView>(v: &Vec<(String, T)>, k: &String) -> (r: usize)
    ensures
        r as int == key_ix(v.deep_view(), k@),
{
    let ghost s = v.deep_view();
    let n = v.len();
    let mut i: usize = 0;
    while i < n
        invariant
            n == v.len(),
            s == v.deep_view(),
            i <= n,
            forall|j: int| 0 <= j < i ==> s[j].0 != k@,
        decreases n - i,
    {
        proof {
            assert(s[i as int].0 == v@[i as int].0@);
        }
        if v[i].0.eq(k) {
            proof {
                lemma_key_ix_unique(s, k@, i as int);
            }
            return i;
        }
        i = i + 1;
    }
    proof {
        lemma_key_ix_unique(s, k@, n as int);
    }
    n
}

impl OrderBookState {
    /// Reads an identity's balance for an asset; a pair never credited reads
    /// as zero.
    pub fn balance(&self, id: &String, asset: &String) -> (r: u128)
        ensures
            r == balance_of(self@, id@, asset@),
    {
        let i = find_key(&self.balances, id);
        proof {
            lemma_key_ix(self@.balances, id@);
        }
        if i == self.balances.len() {
            return 0;
        }
        proof {
            assert(i < self.balances.len());
            assert(self@.balances[i as int].1 == self.balances@[i as int].1.deep_view());
            lemma_key_ix(self@.balances[i as int].1, asset@);
        }
        let j = find_key(&self.balances[i].1, asset);
        if j == self.balances[i].1.len() {
            0
        } else {
            proof {
                assert(self@.balances[i as int].1[j as int].1 == self.balances@[i as int].1@[
                    j as int].1);
            }
            self.balances[i].1[j].1
        }
    }

    /// Adds `amount` to an identity's balance for an asset, creating the
    /// entry when absent; never fails.
    pub fn credit(&mut self, id: &String, asset: &String, amount: u128)
        requires
            state_wf(old(self)@),
            balance_of(old(self)@, id@, asset@) + amount <= u128::MAX,
        ensures
            final(self)@ == set_balance(
                old(self)@,
                id@,
                asset@,
                (balance_of(old(self)@, id@, asset@) + amount) as u128,
            ),
            state_wf(final(self)@),
    {
        let b = self.balance(id, asset);
        self.write_balance(id, asset, b + amount);
        proof {
            lemma_set_balance(old(self)@, id@, asset@, (b + amount) as u128);
        }
    }

    /// Subtracts `amount` from an identity's balance for an asset. Callers
    /// verify sufficiency first: the primitive itself demands it, so a
    /// balance can never go below zero.
    pub fn debit(&mut self, id: &String, asset: &String, amount: u128)
        requires
            state_wf(old(self)@),
            amount <= balance_of(old(self)@, id@, asset@),
        ensures
            final(self)@ == set_balance(
                old(self)@,
                id@,
                asset@,
                (balance_of(old(self)@, id@, asset@) - amount) as u128,
            ),
            state_wf(final(self)@),
    {
        let b = self.balance(id, asset);
        self.write_balance(id, asset, b - amount);
        proof {
            lemma_set_balance(old(self)@, id@, asset@, (b - amount) as u128);
        }
    }

    /// Writes an identity's balance for an asset, creating entries as
    /// needed.
    fn write_balance(&mut self, id: &String, asset: &String, v: u128)
        ensures
            final(self)@ == set_balance(old(self)@, id@, asset@, v),
    {
        let ghost st0 = self@;
        let i = find_key(&self.balances, id);
        if i == self.balances.len() {
            let mut inner: Vec<(String, u128)> = Vec::new();
            inner.push((asset.clone(), v));
            proof {
                assert(inner.deep_view() =~~= set_amount(Seq::empty(), asset@, v));
            }
            self.balances.push((id.clone(), inner));
            proof {
                assert(self@.balances =~~= assoc_set(
                    st0.balances,
                    id@,
                    set_amount(Seq::empty(), asset@, v),
                ));
                assert(self@ =~~= set_balance(st0, id@, asset@, v));
            }
        } else {
            proof {
                lemma_key_ix(st0.balances, id@);
            }
            let mut entry = self.balances.remove(i);
            let ghost inner0 = entry.1.deep_view();
            proof {
                assert(inner0 == st0.balances[i as int].1);
            }
            let j = find_key(&entry.1, asset);
            proof {
                lemma_key_ix(inner0, asset@);
            }
            if j == entry.1.len() {
                entry.1.push((asset.clone(), v));
            } else {
                entry.1.remove(j);
                entry.1.insert(j, (asset.clone(), v));
            }
            proof {
                assert(entry.1.deep_view() =~~= set_amount(inner0, asset@, v));
            }
            self.balances.insert(i, entry);
            proof {
                assert(self@.balances =~~= assoc_set(
                    st0.balances,
                    id@,
                    set_amount(inner0, asset@, v),
                ));
                assert(self@ =~~= set_balance(st0, id@, asset@, v));
            }
        }
    }
}


/// Whether an association list's keys are pairwise distinct.
pub fn keys_distinct<T: DeepView>(v: &Vec<(String, T)>) -> (r: bool)
    ensures
        r == keys_unique(v.deep_view()),
{
    let ghost s = v.deep_view();
    let n = v.len();
    let mut i: usize = 0;
    while i < n
        invariant
            n == v.len(),
            s == v.deep_view(),
            i <= n,
            forall|x: int, y: int| 0 <= x < y < n && x < i ==> s[x].0 != s[y].0,
        decreases n - i,
    {
        let mut j: usize = i + 1;
        while j < n
            invariant
                n == v.len(),
                s == v.deep_view(),
                i < n,
                i + 1 <= j <= n,
                forall|y: int| i < y < j ==> s[i as int].0 != s[y].0,
            decreases n - j,
        {
            proof {
                assert(s[i as int].0 == v@[i as int].0@);
                assert(s[j as int].0 == v@[j as int].0@);
            }
            if v[i].0.eq(&v[j].0) {
                proof {
                    assert(s[i as int].0 == s[j as int].0);
                }
                return false;
            }
            j = j + 1;
        }
        i = i + 1;
    }
    true
}

impl OrderBookState {
    /// Whether the state satisfies its structural invariant: distinct market
    /// and identity keys, distinct asset keys within each identity, and every
    /// market's books sorted with positive quantities. A caller holding a
    /// state of unknown provenance can test this before applying an action.
    pub fn well_formed(&self) -> (r: bool)
        ensures
            r == state_wf(self@),
    {
        if !keys_distinct(&self.markets) {
            return false;
        }
        if !keys_distinct(&self.balances) {
            return false;
        }
        let ghost st = self@;
        let n = self.markets.len();
        let mut i: usize = 0;
        while i < n
            invariant
                n == self.markets.len(),
                st == self@,
                i <= n,
                forall|k: int| 0 <= k < i ==> market_wf(#[trigger] st.markets[k].1),
            decreases n - i,
        {
            proof {
                assert(st.markets[i as int].1 == self.markets@[i as int].1@);
            }
            if !self.markets[i].1.well_formed() {
                return false;
            }
            i = i + 1;
        }
        let m = self.balances.len();
        let mut j: usize = 0;
        while j < m
            invariant
                m == self.balances.len(),
                st == self@,
                j <= m,
                forall|k: int| 0 <= k < j ==> keys_unique(#[trigger] st.balances[k].1),
            decreases m - j,
        {
            proof {
                assert(st.balances[j as int].1 == self.balances@[j as int].1.deep_view());
            }
            if !keys_distinct(&self.balances[j].1) {
                return false;
            }
            j = j + 1;
        }
        true
    }
}

} // verus!
