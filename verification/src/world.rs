//! The world state: domains, the accounts they own, and the assets those
//! accounts hold. Entities are stored in vectors with pairwise-distinct
//! identifiers; the mathematical view of each collection is the map (or set)
//! of those entries, so that insertion order is invisible to the contracts.

use vstd::prelude::*;

use crate::asset::Asset;
use crate::isi::{Id, IdV};

verus! {

// ---------------------------------------------------------------------------
// Association sequences viewed as maps and sets
// ---------------------------------------------------------------------------

/// The set of keys of the entries of `s`, under the key projection `key`.
pub open spec fn set_of<A, K>(s: Seq<A>, key: spec_fn(A) -> K) -> Set<K>
    decreases s.len(),
{
    if s.len() == 0 {
        Set::empty()
    } else {
        set_of(s.drop_last(), key).insert(key(s.last()))
    }
}

/// The map from each entry's key to its value, later entries winning.
pub open spec fn map_of<A, K, V>(s: Seq<A>, key: spec_fn(A) -> K, val: spec_fn(A) -> V) -> Map<
    K,
    V,
>
    decreases s.len(),
{
    if s.len() == 0 {
        Map::empty()
    } else {
        map_of(s.drop_last(), key, val).insert(key(s.last()), val(s.last()))
    }
}

/// No two entries of `s` share a key.
pub open spec fn distinct_keys<A, K>(s: Seq<A>, key: spec_fn(A) -> K) -> bool {
    forall|i: int, j: int|
        0 <= i < j < s.len() ==> #[trigger] key(s[i]) != #[trigger] key(s[j])
}

pub proof fn lemma_set_of_contains<A, K>(s: Seq<A>, key: spec_fn(A) -> K, k: K)
    ensures
        set_of(s, key).contains(k) <==> (exists|i: int|
            0 <= i < s.len() && #[trigger] key(s[i]) == k),
    decreases s.len(),
{
    if s.len() > 0 {
        let d = s.drop_last();
        lemma_set_of_contains(d, key, k);
        assert(forall|i: int| 0 <= i < d.len() ==> #[trigger] d[i] == s[i]);
        if key(s.last()) == k {
            assert(key(s[s.len() - 1]) == k);
        }
        if exists|i: int| 0 <= i < s.len() && #[trigger] key(s[i]) == k {
            let i = choose|i: int| 0 <= i < s.len() && #[trigger] key(s[i]) == k;
            if i < s.len() - 1 {
                assert(key(d[i]) == k);
            }
        }
    }
}

pub proof fn lemma_map_of_contains<A, K, V>(
    s: Seq<A>,
    key: spec_fn(A) -> K,
    val: spec_fn(A) -> V,
    k: K,
)
    ensures
        map_of(s, key, val).contains_key(k) <==> (exists|i: int|
            0 <= i < s.len() && #[trigger] key(s[i]) == k),
    decreases s.len(),
{
    if s.len() > 0 {
        let d = s.drop_last();
        lemma_map_of_contains(d, key, val, k);
        assert(forall|i: int| 0 <= i < d.len() ==> #[trigger] d[i] == s[i]);
        if key(s.last()) == k {
            assert(key(s[s.len() - 1]) == k);
        }
        if exists|i: int| 0 <= i < s.len() && #[trigger] key(s[i]) == k {
            let i = choose|i: int| 0 <= i < s.len() && #[trigger] key(s[i]) == k;
            if i < s.len() - 1 {
                assert(key(d[i]) == k);
            }
        }
    }
}

pub proof fn lemma_map_of_get<A, K, V>(
    s: Seq<A>,
    key: spec_fn(A) -> K,
    val: spec_fn(A) -> V,
    i: int,
)
    requires
        0 <= i < s.len(),
        distinct_keys(s, key),
    ensures
        map_of(s, key, val).contains_key(key(s[i])),
        map_of(s, key, val)[key(s[i])] == val(s[i]),
    decreases s.len(),
{
    let d = s.drop_last();
    assert(forall|j: int| 0 <= j < d.len() ==> #[trigger] d[j] == s[j]);
    if i == s.len() - 1 {
    } else {
        lemma_map_of_get(d, key, val, i);
        assert(key(s[i]) != key(s[s.len() - 1]));
    }
}

pub proof fn lemma_map_of_update<A, K, V>(
    s: Seq<A>,
    key: spec_fn(A) -> K,
    val: spec_fn(A) -> V,
    i: int,
    a: A,
)
    requires
        0 <= i < s.len(),
        distinct_keys(s, key),
        key(a) == key(s[i]),
    ensures
        map_of(s.update(i, a), key, val) == map_of(s, key, val).insert(key(a), val(a)),
    decreases s.len(),
{
    let t = s.update(i, a);
    let d = s.drop_last();
    assert(forall|j: int| 0 <= j < d.len() ==> #[trigger] d[j] == s[j]);
    if i == s.len() - 1 {
        assert(t.drop_last() =~= d);
        assert(t.last() == a);
        assert(map_of(t, key, val) =~= map_of(s, key, val).insert(key(a), val(a)));
    } else {
        assert(t.drop_last() =~= d.update(i, a));
        assert(t.last() == s.last());
        lemma_map_of_update(d, key, val, i, a);
        assert(key(a) != key(s.last()));
        assert(map_of(t, key, val) =~= map_of(s, key, val).insert(key(a), val(a)));
    }
}

pub proof fn lemma_map_of_push<A, K, V>(
    s: Seq<A>,
    key: spec_fn(A) -> K,
    val: spec_fn(A) -> V,
    a: A,
)
    ensures
        map_of(s.push(a), key, val) == map_of(s, key, val).insert(key(a), val(a)),
{
    assert(s.push(a).drop_last() =~= s);
    assert(s.push(a).last() == a);
}

pub proof fn lemma_set_of_update<A, K>(s: Seq<A>, key: spec_fn(A) -> K, i: int, a: A)
    requires
        0 <= i < s.len(),
        key(a) == key(s[i]),
    ensures
        set_of(s.update(i, a), key) == set_of(s, key),
    decreases s.len(),
{
    let t = s.update(i, a);
    let d = s.drop_last();
    assert(forall|j: int| 0 <= j < d.len() ==> #[trigger] d[j] == s[j]);
    if i == s.len() - 1 {
        assert(t.drop_last() =~= d);
        assert(set_of(t, key) =~= set_of(s, key));
    } else {
        assert(t.drop_last() =~= d.update(i, a));
        assert(t.last() == s.last());
        lemma_set_of_update(d, key, i, a);
        assert(set_of(t, key) =~= set_of(s, key));
    }
}

pub proof fn lemma_set_of_push<A, K>(s: Seq<A>, key: spec_fn(A) -> K, a: A)
    ensures
        set_of(s.push(a), key) == set_of(s, key).insert(key(a)),
{
    assert(s.push(a).drop_last() =~= s);
    assert(s.push(a).last() == a);
}

pub proof fn lemma_set_of_remove<A, K>(s: Seq<A>, key: spec_fn(A) -> K, i: int)
    requires
        0 <= i < s.len(),
        distinct_keys(s, key),
    ensures
        set_of(s.remove(i), key) == set_of(s, key).remove(key(s[i])),
    decreases s.len(),
{
    let t = s.remove(i);
    let d = s.drop_last();
    assert(forall|j: int| 0 <= j < d.len() ==> #[trigger] d[j] == s[j]);
    if i == s.len() - 1 {
        assert(t =~= d);
        lemma_set_of_contains(d, key, key(s[i]));
        assert(!set_of(d, key).contains(key(s[i])));
        assert(set_of(t, key) =~= set_of(s, key).remove(key(s[i])));
    } else {
        assert(t.drop_last() =~= d.remove(i));
        assert(t.last() == s.last());
        lemma_set_of_remove(d, key, i);
        assert(key(s[i]) != key(s.last()));
        assert(set_of(t, key) =~= set_of(s, key).remove(key(s[i])));
    }
}

// ---------------------------------------------------------------------------
// Entities
// ---------------------------------------------------------------------------

/// An account: identified by an [`Id`], holding a collection of assets keyed
/// by their identifiers.
#[derive(Clone, Debug, PartialEq)]
pub struct Account {
    pub id: Id,
    pub assets: Vec<Asset>,
}

/// Mathematical value of an [`Account`]: its identifier and the set of
/// identifiers of the assets it holds.
#[verifier::ext_equal]
pub ghost struct AccountV {
    pub id: IdV,
    pub assets: Set<IdV>,
}

/// Key projection for asset entries.
pub open spec fn asset_key() -> spec_fn(Asset) -> IdV {
    |a: Asset| a.id@
}

impl View for Account {
    type V = AccountV;

    open spec fn view(&self) -> AccountV {
        AccountV { id: self.id@, assets: set_of(self.assets@, asset_key()) }
    }
}

/// The declared shape of an asset kind within a domain.
#[derive(Clone, Debug, PartialEq)]
pub struct AssetDefinition {
    pub name: String,
    pub decimals: u8,
}

/// Key and value projections for asset-definition entries.
pub open spec fn definition_key() -> spec_fn(AssetDefinition) -> Seq<char> {
    |d: AssetDefinition| d.name@
}

pub open spec fn definition_val() -> spec_fn(AssetDefinition) -> u8 {
    |d: AssetDefinition| d.decimals
}

/// A named namespace owning accounts and asset definitions.
#[derive(Clone, Debug, PartialEq)]
pub struct Domain {
    pub name: String,
    pub accounts: Vec<Account>,
    pub definitions: Vec<AssetDefinition>,
}

/// Mathematical value of a [`Domain`].
#[verifier::ext_equal]
pub ghost struct DomainV {
    pub name: Seq<char>,
    pub accounts: Map<IdV, Set<IdV>>,
    pub definitions: Map<Seq<char>, u8>,
}

/// Key and value projections for account entries.
pub open spec fn account_key() -> spec_fn(Account) -> IdV {
    |a: Account| a.id@
}

pub open spec fn account_val() -> spec_fn(Account) -> Set<IdV> {
    |a: Account| set_of(a.assets@, asset_key())
}

impl View for Domain {
    type V = DomainV;

    open spec fn view(&self) -> DomainV {
        DomainV {
            name: self.name@,
            accounts: map_of(self.accounts@, account_key(), account_val()),
            definitions: map_of(self.definitions@, definition_key(), definition_val()),
        }
    }
}

/// Key and value projections for domain entries.
pub open spec fn domain_key() -> spec_fn(Domain) -> Seq<char> {
    |d: Domain| d.name@
}

pub open spec fn domain_val() -> spec_fn(Domain) -> DomainV {
    |d: Domain| d@
}

/// The aggregate of all domains of one ledger instance.
#[derive(Clone, Debug, PartialEq)]
pub struct World {
    pub domains: Vec<Domain>,
}

/// Mathematical value of the world: domains by name, each a [`DomainV`].
#[verifier::ext_equal]
pub ghost struct WorldV {
    pub domains: Map<Seq<char>, DomainV>,
}

impl View for World {
    type V = WorldV;

    open spec fn view(&self) -> WorldV {
        WorldV { domains: map_of(self.domains@, domain_key(), domain_val()) }
    }
}

/// The single mutable aggregate every instruction executes against.
#[derive(Clone, Debug, PartialEq)]
pub struct WorldStateView {
    pub world: World,
}

impl View for WorldStateView {
    type V = WorldV;

    open spec fn view(&self) -> WorldV {
        self.world@
    }
}

// ---------------------------------------------------------------------------
// Well-formedness: identifiers are unique within their collection
// ---------------------------------------------------------------------------

impl Account {
    pub open spec fn wf(&self) -> bool {
        distinct_keys(self.assets@, asset_key())
    }
}

impl Domain {
    pub open spec fn wf(&self) -> bool {
        &&& distinct_keys(self.accounts@, account_key())
        &&& distinct_keys(self.definitions@, definition_key())
        &&& forall|i: int| 0 <= i < self.accounts@.len() ==> (#[trigger] self.accounts@[i]).wf()
    }
}

impl World {
    pub open spec fn wf(&self) -> bool {
        &&& distinct_keys(self.domains@, domain_key())
        &&& forall|i: int| 0 <= i < self.domains@.len() ==> (#[trigger] self.domains@[i]).wf()
    }
}

impl WorldStateView {
    pub open spec fn wf(&self) -> bool {
        self.world.wf()
    }
}

// ---------------------------------------------------------------------------
// Queries and updates of the mathematical world
// ---------------------------------------------------------------------------

impl WorldV {
    /// Whether a domain of this name exists.
    pub open spec fn has_domain(self, name: Seq<char>) -> bool {
        self.domains.contains_key(name)
    }

    /// Whether the identified account exists (in the domain its identifier names).
    pub open spec fn has_account(self, id: IdV) -> bool {
        self.has_domain(id.domain) && self.domains[id.domain].accounts.contains_key(id)
    }

    /// Whether the identified account exists and holds the identified asset.
    pub open spec fn holds_asset(self, account: IdV, asset: IdV) -> bool {
        self.has_account(account) && self.domains[account.domain].accounts[account].contains(
            asset,
        )
    }

    /// The world with a fresh, empty domain of this name; unchanged when the
    /// name is already taken.
    pub open spec fn with_domain(self, name: Seq<char>) -> WorldV {
        if self.has_domain(name) {
            self
        } else {
            WorldV {
                domains: self.domains.insert(
                    name,
                    DomainV { name, accounts: Map::empty(), definitions: Map::empty() },
                ),
            }
        }
    }

    /// The world with a fresh, empty account of this identifier; unchanged
    /// when the domain is missing or the account already exists.
    pub open spec fn with_account(self, id: IdV) -> WorldV {
        if !self.has_domain(id.domain) || self.has_account(id) {
            self
        } else {
            let d = self.domains[id.domain];
            WorldV {
                domains: self.domains.insert(
                    id.domain,
                    DomainV { accounts: d.accounts.insert(id, Set::empty()), ..d },
                ),
            }
        }
    }

    /// The world in which the identified account also holds `asset`;
    /// unchanged when the account is missing.
    pub open spec fn with_asset(self, account: IdV, asset: IdV) -> WorldV {
        if !self.has_account(account) {
            self
        } else {
            let d = self.domains[account.domain];
            WorldV {
                domains: self.domains.insert(
                    account.domain,
                    DomainV {
                        accounts: d.accounts.insert(account, d.accounts[account].insert(asset)),
                        ..d
                    },
                ),
            }
        }
    }

    /// The world in which the identified account no longer holds `asset`;
    /// unchanged when the account is missing.
    pub open spec fn without_asset(self, account: IdV, asset: IdV) -> WorldV {
        if !self.has_account(account) {
            self
        } else {
            let d = self.domains[account.domain];
            WorldV {
                domains: self.domains.insert(
                    account.domain,
                    DomainV {
                        accounts: d.accounts.insert(account, d.accounts[account].remove(asset)),
                        ..d
                    },
                ),
            }
        }
    }

    /// The world in which `domain` carries an asset definition `name` with
    /// the given decimals; unchanged when the domain is missing.
    pub open spec fn with_definition(self, domain: Seq<char>, name: Seq<char>, decimals: u8) -> WorldV {
        if !self.has_domain(domain) {
            self
        } else {
            let d = self.domains[domain];
            WorldV {
                domains: self.domains.insert(
                    domain,
                    DomainV { definitions: d.definitions.insert(name, decimals), ..d },
                ),
            }
        }
    }
}

// ---------------------------------------------------------------------------
// Frame lemmas: how the spec updates touch queries
// ---------------------------------------------------------------------------

/// Adding an asset changes exactly one holding; removing one likewise.
pub proof fn lemma_with_asset_holdings(w: WorldV, account: IdV, asset: IdV, a: IdV, g: IdV)
    requires
        w.has_account(account),
    ensures
        w.with_asset(account, asset).holds_asset(a, g) == (w.holds_asset(a, g) || (a == account
            && g == asset)),
        w.with_asset(account, asset).has_account(a) == w.has_account(a),
        w.with_asset(account, asset).has_domain(a.domain) == w.has_domain(a.domain),
{
}

pub proof fn lemma_without_asset_holdings(w: WorldV, account: IdV, asset: IdV, a: IdV, g: IdV)
    requires
        w.has_account(account),
    ensures
        w.without_asset(account, asset).holds_asset(a, g) == (w.holds_asset(a, g) && !(a
            == account && g == asset)),
        w.without_asset(account, asset).has_account(a) == w.has_account(a),
        w.without_asset(account, asset).has_domain(a.domain) == w.has_domain(a.domain),
{
}

// ---------------------------------------------------------------------------
// Executable operations
// ---------------------------------------------------------------------------

impl Account {
    /// Position of the asset with this identifier, if the account holds it.
    fn index_of_asset(&self, asset_id: &Id) -> (r: Option<usize>)
        ensures
            match r {
                Some(i) => i < self.assets@.len() && self.assets@[i as int].id@ == asset_id@,
                None => forall|i: int|
                    0 <= i < self.assets@.len() ==> (#[trigger] self.assets@[i]).id@ != asset_id@,
            },
    {
        let mut i: usize = 0;
        while i < self.assets.len()
            invariant
                i <= self.assets@.len(),
                forall|j: int| 0 <= j < i ==> (#[trigger] self.assets@[j]).id@ != asset_id@,
            decreases self.assets@.len() - i,
        {
            if self.assets[i].id == *asset_id {
                return Some(i);
            }
            i = i + 1;
        }
        None
    }

    /// Whether the account holds the identified asset.
    pub fn holds(&self, asset_id: &Id) -> (r: bool)
        ensures
            r == self@.assets.contains(asset_id@),
    {
        proof {
            lemma_set_of_contains(self.assets@, asset_key(), asset_id@);
        }
        match self.index_of_asset(asset_id) {
            Some(i) => {
                proof {
                    assert(asset_key()(self.assets@[i as int]) == asset_id@);
                }
                true
            },
            None => {
                proof {
                    assert forall|i: int|
                        0 <= i < self.assets@.len() implies #[trigger] asset_key()(
                        self.assets@[i],
                    ) != asset_id@ by {
                        assert(self.assets@[i].id@ != asset_id@);
                    }
                }
                false
            },
        }
    }

    /// Inserts the asset, replacing any entry with the same identifier.
    pub fn put_asset(&mut self, asset: Asset)
        requires
            old(self).wf(),
        ensures
            final(self).wf(),
            final(self).id == old(self).id,
            final(self)@ == (AccountV {
                id: old(self)@.id,
                assets: old(self)@.assets.insert(asset.id@),
            }),
    {
        let ghost s0 = self.assets@;
        match self.index_of_asset(&asset.id) {
            Some(i) => {
                proof {
                    lemma_set_of_update(s0, asset_key(), i as int, asset);
                    lemma_set_of_contains(s0, asset_key(), asset.id@);
                    assert(asset_key()(s0[i as int]) == asset.id@);
                    assert(set_of(s0, asset_key()).contains(asset.id@));
                    assert(set_of(s0, asset_key()).insert(asset.id@) =~= set_of(s0, asset_key()));
                }
                let slot = &mut self.assets[i];
                *slot = asset;
                proof {
                    assert forall|p: int, q: int|
                        0 <= p < q < self.assets@.len() implies #[trigger] self.assets@[p].id@
                        != #[trigger] self.assets@[q].id@ by {
                        assert(asset_key()(s0[p]) != asset_key()(s0[q]));
                    }
                    assert(final(self)@ =~= (AccountV {
                        id: old(self)@.id,
                        assets: old(self)@.assets.insert(asset.id@),
                    }));
                }
            },
            None => {
                proof {
                    lemma_set_of_push(s0, asset_key(), asset);
                }
                self.assets.push(asset);
                proof {
                    assert forall|p: int, q: int|
                        0 <= p < q < self.assets@.len() implies #[trigger] self.assets@[p].id@
                        != #[trigger] self.assets@[q].id@ by {
                        if q < s0.len() {
                            assert(asset_key()(s0[p]) != asset_key()(s0[q]));
                        }
                    }
                }
            },
        }
    }

    /// Removes and returns the identified asset, when held.
    pub fn take_asset(&mut self, asset_id: &Id) -> (r: Option<Asset>)
        requires
            old(self).wf(),
        ensures
            final(self).wf(),
            final(self).id == old(self).id,
            match r {
                Some(a) => {
                    &&& a.id@ == asset_id@
                    &&& old(self)@.assets.contains(asset_id@)
                    &&& final(self)@ == (AccountV {
                        id: old(self)@.id,
                        assets: old(self)@.assets.remove(asset_id@),
                    })
                },
                None => {
                    &&& !old(self)@.assets.contains(asset_id@)
                    &&& *final(self) == *old(self)
                },
            },
    {
        let ghost s0 = self.assets@;
        proof {
            lemma_set_of_contains(s0, asset_key(), asset_id@);
        }
        match self.index_of_asset(asset_id) {
            Some(i) => {
                proof {
                    lemma_set_of_remove(s0, asset_key(), i as int);
                }
                let a = self.assets.remove(i);
                proof {
                    assert forall|p: int, q: int|
                        0 <= p < q < self.assets@.len() implies #[trigger] self.assets@[p].id@
                        != #[trigger] self.assets@[q].id@ by {
                        let sp = if p < i as int { p } else { p + 1 };
                        let sq = if q < i as int { q } else { q + 1 };
                        assert(asset_key()(s0[sp]) != asset_key()(s0[sq]));
                    }
                    assert(final(self)@ =~= (AccountV {
                        id: old(self)@.id,
                        assets: old(self)@.assets.remove(asset_id@),
                    }));
                }
                Some(a)
            },
            None => None,
        }
    }
}

impl World {
    /// An empty world, without any domain.
    pub fn new() -> (r: Self)
        ensures
            r.wf(),
            r@.domains == Map::<Seq<char>, DomainV>::empty(),
    {
        World { domains: Vec::new() }
    }

    /// Position of the domain with this name, if it exists.
    fn index_of_domain(&self, name: &String) -> (r: Option<usize>)
        ensures
            match r {
                Some(i) => i < self.domains@.len() && self.domains@[i as int].name@ == name@,
                None => forall|i: int|
                    0 <= i < self.domains@.len() ==> (#[trigger] self.domains@[i]).name@ != name@,
            },
    {
        let mut i: usize = 0;
        while i < self.domains.len()
            invariant
                i <= self.domains@.len(),
                forall|j: int| 0 <= j < i ==> (#[trigger] self.domains@[j]).name@ != name@,
            decreases self.domains@.len() - i,
        {
            if self.domains[i].name == *name {
                return Some(i);
            }
            i = i + 1;
        }
        None
    }
}

impl Domain {
    /// Position of the account with this identifier, if it exists.
    fn index_of_account(&self, id: &Id) -> (r: Option<usize>)
        ensures
            match r {
                Some(i) => i < self.accounts@.len() && self.accounts@[i as int].id@ == id@,
                None => forall|i: int|
                    0 <= i < self.accounts@.len() ==> (#[trigger] self.accounts@[i]).id@ != id@,
            },
    {
        let mut i: usize = 0;
        while i < self.accounts.len()
            invariant
                i <= self.accounts@.len(),
                forall|j: int| 0 <= j < i ==> (#[trigger] self.accounts@[j]).id@ != id@,
            decreases self.accounts@.len() - i,
        {
            if self.accounts[i].id == *id {
                return Some(i);
            }
            i = i + 1;
        }
        None
    }

    /// Appends a fresh account; the caller ensures the identifier is new.
    fn push_account(&mut self, id: Id)
        requires
            old(self).wf(),
            forall|i: int|
                0 <= i < old(self).accounts@.len() ==> (#[trigger] old(
                    self,
                ).accounts@[i]).id@ != id@,
        ensures
            final(self).wf(),
            final(self).name == old(self).name,
            final(self).definitions == old(self).definitions,
            final(self)@ == (DomainV {
                accounts: old(self)@.accounts.insert(id@, Set::empty()),
                ..old(self)@
            }),
    {
        let ghost s0 = self.accounts@;
        let account = Account { id, assets: Vec::new() };
        proof {
            lemma_map_of_push(s0, account_key(), account_val(), account);
            assert(set_of(account.assets@, asset_key()) =~= Set::<IdV>::empty());
        }
        self.accounts.push(account);
        proof {
            assert forall|p: int, q: int|
                0 <= p < q < self.accounts@.len() implies #[trigger] self.accounts@[p].id@
                != #[trigger] self.accounts@[q].id@ by {
                if q < s0.len() {
                    assert(account_key()(s0[p]) != account_key()(s0[q]));
                }
            }
            assert(final(self)@ =~= (DomainV {
                accounts: old(self)@.accounts.insert(id@, Set::empty()),
                ..old(self)@
            }));
        }
    }

    /// Position of the asset definition with this name, if it exists.
    fn index_of_definition(&self, name: &String) -> (r: Option<usize>)
        ensures
            match r {
                Some(i) => i < self.definitions@.len() && self.definitions@[i as int].name@
                    == name@,
                None => forall|i: int|
                    0 <= i < self.definitions@.len() ==> (#[trigger] self.definitions@[i]).name@
                        != name@,
            },
    {
        let mut i: usize = 0;
        while i < self.definitions.len()
            invariant
                i <= self.definitions@.len(),
                forall|j: int| 0 <= j < i ==> (#[trigger] self.definitions@[j]).name@ != name@,
            decreases self.definitions@.len() - i,
        {
            if self.definitions[i].name == *name {
                return Some(i);
            }
            i = i + 1;
        }
        None
    }
}

// ---------------------------------------------------------------------------
// Bridges between the stored sequences and the map views
// ---------------------------------------------------------------------------

pub proof fn lemma_domains_view_contains(s: Seq<Domain>, name: Seq<char>)
    ensures
        map_of(s, domain_key(), domain_val()).contains_key(name) <==> (exists|i: int|
            0 <= i < s.len() && (#[trigger] s[i]).name@ == name),
{
    lemma_map_of_contains(s, domain_key(), domain_val(), name);
    if exists|i: int| 0 <= i < s.len() && #[trigger] domain_key()(s[i]) == name {
        let i = choose|i: int| 0 <= i < s.len() && #[trigger] domain_key()(s[i]) == name;
        assert(s[i].name@ == name);
    }
    if exists|i: int| 0 <= i < s.len() && (#[trigger] s[i]).name@ == name {
        let i = choose|i: int| 0 <= i < s.len() && (#[trigger] s[i]).name@ == name;
        assert(domain_key()(s[i]) == name);
    }
}

pub proof fn lemma_accounts_view_contains(s: Seq<Account>, id: IdV)
    ensures
        map_of(s, account_key(), account_val()).contains_key(id) <==> (exists|i: int|
            0 <= i < s.len() && (#[trigger] s[i]).id@ == id),
{
    lemma_map_of_contains(s, account_key(), account_val(), id);
    if exists|i: int| 0 <= i < s.len() && #[trigger] account_key()(s[i]) == id {
        let i = choose|i: int| 0 <= i < s.len() && #[trigger] account_key()(s[i]) == id;
        assert(s[i].id@ == id);
    }
    if exists|i: int| 0 <= i < s.len() && (#[trigger] s[i]).id@ == id {
        let i = choose|i: int| 0 <= i < s.len() && (#[trigger] s[i]).id@ == id;
        assert(account_key()(s[i]) == id);
    }
}

// ---------------------------------------------------------------------------
// The world state view: the aggregate the instructions execute against
// ---------------------------------------------------------------------------

impl WorldStateView {
    /// A world state without any domain.
    pub fn new() -> (r: Self)
        ensures
            r.wf(),
            r@.domains == Map::<Seq<char>, DomainV>::empty(),
    {
        WorldStateView { world: World::new() }
    }

    /// Whether a domain of this name exists.
    pub fn domain_exists(&self, name: &String) -> (r: bool)
        ensures
            r == self@.has_domain(name@),
    {
        proof {
            lemma_domains_view_contains(self.world.domains@, name@);
        }
        self.world.index_of_domain(name).is_some()
    }

    /// Whether the identified account exists.
    pub fn account_exists(&self, id: &Id) -> (r: bool)
        requires
            self.wf(),
        ensures
            r == self@.has_account(id@),
    {
        proof {
            lemma_domains_view_contains(self.world.domains@, id@.domain);
        }
        match self.world.index_of_domain(&id.1) {
            None => false,
            Some(di) => {
                proof {
                    lemma_map_of_get(self.world.domains@, domain_key(), domain_val(), di as int);
                    assert(domain_key()(self.world.domains@[di as int]) == id@.domain);
                    lemma_accounts_view_contains(self.world.domains@[di as int].accounts@, id@);
                }
                self.world.domains[di].index_of_account(id).is_some()
            },
        }
    }

    /// Whether the identified account exists and holds the identified asset.
    pub fn account_holds(&self, account_id: &Id, asset_id: &Id) -> (r: bool)
        requires
            self.wf(),
        ensures
            r == self@.holds_asset(account_id@, asset_id@),
    {
        proof {
            lemma_domains_view_contains(self.world.domains@, account_id@.domain);
        }
        match self.world.index_of_domain(&account_id.1) {
            None => false,
            Some(di) => {
                proof {
                    lemma_map_of_get(self.world.domains@, domain_key(), domain_val(), di as int);
                    assert(domain_key()(self.world.domains@[di as int]) == account_id@.domain);
                    lemma_accounts_view_contains(
                        self.world.domains@[di as int].accounts@,
                        account_id@,
                    );
                }
                match self.world.domains[di].index_of_account(account_id) {
                    None => false,
                    Some(ai) => {
                        proof {
                            lemma_map_of_get(
                                self.world.domains@[di as int].accounts@,
                                account_key(),
                                account_val(),
                                ai as int,
                            );
                            assert(account_key()(
                                self.world.domains@[di as int].accounts@[ai as int],
                            ) == account_id@);
                        }
                        self.world.domains[di].accounts[ai].holds(asset_id)
                    },
                }
            },
        }
    }

    /// Registers an empty domain of this name; no effect when it exists.
    pub fn add_domain(&mut self, name: &String)
        requires
            old(self).wf(),
        ensures
            final(self).wf(),
            final(self)@ == old(self)@.with_domain(name@),
            old(self)@.has_domain(name@) ==> *final(self) == *old(self),
    {
        let ghost w0 = self.world.domains@;
        proof {
            lemma_domains_view_contains(w0, name@);
        }
        match self.world.index_of_domain(name) {
            Some(_) => {
            },
            None => {
                let d = Domain {
                    name: name.clone(),
                    accounts: Vec::new(),
                    definitions: Vec::new(),
                };
                proof {
                    lemma_map_of_push(w0, domain_key(), domain_val(), d);
                    assert(map_of(d.accounts@, account_key(), account_val()) =~= Map::<
                        IdV,
                        Set<IdV>,
                    >::empty());
                    assert(map_of(d.definitions@, definition_key(), definition_val()) =~= Map::<
                        Seq<char>,
                        u8,
                    >::empty());
                }
                self.world.domains.push(d);
                proof {
                    assert forall|p: int, q: int|
                        0 <= p < q < self.world.domains@.len() implies #[trigger] self.world
                        .domains@[p].name@ != #[trigger] self.world.domains@[q].name@ by {
                        if q < w0.len() {
                            assert(domain_key()(w0[p]) != domain_key()(w0[q]));
                        }
                    }
                    assert(final(self)@ =~~= old(self)@.with_domain(name@));
                }
            },
        }
    }

    /// Registers an empty account under its domain. Returns whether the
    /// domain exists; without it nothing changes. An identifier already in
    /// use leaves the world unchanged (and still returns true).
    pub fn create_account(&mut self, id: &Id) -> (r: bool)
        requires
            old(self).wf(),
        ensures
            final(self).wf(),
            r == old(self)@.has_domain(id@.domain),
            final(self)@ == old(self)@.with_account(id@),
            !r ==> *final(self) == *old(self),
            old(self)@.has_account(id@) ==> *final(self) == *old(self),
    {
        let ghost w0 = self.world.domains@;
        proof {
            lemma_domains_view_contains(w0, id@.domain);
        }
        match self.world.index_of_domain(&id.1) {
            None => false,
            Some(di) => {
                let ghost d0 = w0[di as int];
                proof {
                    lemma_map_of_get(w0, domain_key(), domain_val(), di as int);
                    assert(domain_key()(d0) == id@.domain);
                    lemma_accounts_view_contains(d0.accounts@, id@);
                }
                match self.world.domains[di].index_of_account(id) {
                    Some(_) => true,
                    None => {
                        let fresh = Id(id.0.clone(), id.1.clone());
                        let d = &mut self.world.domains[di];
                        d.push_account(fresh);
                        proof {
                            let w1 = self.world.domains@;
                            assert(w1 == w0.update(di as int, w1[di as int]));
                            lemma_map_of_update(
                                w0,
                                domain_key(),
                                domain_val(),
                                di as int,
                                w1[di as int],
                            );
                            assert forall|p: int|
                                0 <= p < w1.len() implies (#[trigger] w1[p]).wf() by {
                                if p != di as int {
                                    assert(w1[p] == w0[p]);
                                }
                            }
                            assert(final(self)@ =~~= old(self)@.with_account(id@));
                        }
                        true
                    },
                }
            },
        }
    }

    /// Inserts an asset entry into the identified account. Returns whether
    /// the account exists; without it nothing changes.
    pub fn put_asset(&mut self, account_id: &Id, asset: Asset) -> (r: bool)
        requires
            old(self).wf(),
        ensures
            final(self).wf(),
            r == old(self)@.has_account(account_id@),
            final(self)@ == old(self)@.with_asset(account_id@, asset.id@),
            !r ==> *final(self) == *old(self),
    {
        let ghost w0 = self.world.domains@;
        proof {
            lemma_domains_view_contains(w0, account_id@.domain);
        }
        match self.world.index_of_domain(&account_id.1) {
            None => false,
            Some(di) => {
                let ghost d0 = w0[di as int];
                proof {
                    lemma_map_of_get(w0, domain_key(), domain_val(), di as int);
                    assert(domain_key()(d0) == account_id@.domain);
                    lemma_accounts_view_contains(d0.accounts@, account_id@);
                }
                match self.world.domains[di].index_of_account(account_id) {
                    None => false,
                    Some(ai) => {
                        let ghost acc0 = d0.accounts@[ai as int];
                        proof {
                            lemma_map_of_get(d0.accounts@, account_key(), account_val(), ai as int);
                            assert(account_key()(acc0) == account_id@);
                        }
                        let d = &mut self.world.domains[di];
                        let a = &mut d.accounts[ai];
                        a.put_asset(asset);
                        proof {
                            let w1 = self.world.domains@;
                            let d1 = w1[di as int];
                            assert(w1 == w0.update(di as int, d1));
                            assert(d1.accounts@ == d0.accounts@.update(
                                ai as int,
                                d1.accounts@[ai as int],
                            ));
                            lemma_map_of_update(
                                d0.accounts@,
                                account_key(),
                                account_val(),
                                ai as int,
                                d1.accounts@[ai as int],
                            );
                            lemma_map_of_update(w0, domain_key(), domain_val(), di as int, d1);
                            assert forall|p: int, q: int|
                                0 <= p < q < d1.accounts@.len() implies #[trigger] d1.accounts@[p].id@
                                != #[trigger] d1.accounts@[q].id@ by {
                                assert(account_key()(d0.accounts@[p]) != account_key()(
                                    d0.accounts@[q],
                                ));
                            }
                            assert forall|p: int|
                                0 <= p < d1.accounts@.len() implies (
                            #[trigger] d1.accounts@[p]).wf() by {
                                if p != ai as int {
                                    assert(d1.accounts@[p] == d0.accounts@[p]);
                                }
                            }
                            assert forall|p: int|
                                0 <= p < w1.len() implies (#[trigger] w1[p]).wf() by {
                                if p != di as int {
                                    assert(w1[p] == w0[p]);
                                }
                            }
                            assert(final(self)@ =~~= old(self)@.with_asset(
                                account_id@,
                                asset.id@,
                            ));
                        }
                        true
                    },
                }
            },
        }
    }

    /// Removes and returns the identified asset from the identified account.
    pub fn take_asset(&mut self, account_id: &Id, asset_id: &Id) -> (r: Option<Asset>)
        requires
            old(self).wf(),
        ensures
            final(self).wf(),
            match r {
                Some(a) => {
                    &&& a.id@ == asset_id@
                    &&& old(self)@.holds_asset(account_id@, asset_id@)
                    &&& final(self)@ == old(self)@.without_asset(account_id@, asset_id@)
                },
                None => {
                    &&& !old(self)@.holds_asset(account_id@, asset_id@)
                    &&& *final(self) == *old(self)
                },
            },
    {
        let ghost w0 = self.world.domains@;
        proof {
            lemma_domains_view_contains(w0, account_id@.domain);
        }
        match self.world.index_of_domain(&account_id.1) {
            None => None,
            Some(di) => {
                let ghost d0 = w0[di as int];
                proof {
                    lemma_map_of_get(w0, domain_key(), domain_val(), di as int);
                    assert(domain_key()(d0) == account_id@.domain);
                    lemma_accounts_view_contains(d0.accounts@, account_id@);
                }
                match self.world.domains[di].index_of_account(account_id) {
                    None => None,
                    Some(ai) => {
                        let ghost acc0 = d0.accounts@[ai as int];
                        proof {
                            lemma_map_of_get(d0.accounts@, account_key(), account_val(), ai as int);
                            assert(account_key()(acc0) == account_id@);
                        }
                        if !self.world.domains[di].accounts[ai].holds(asset_id) {
                            return None;
                        }
                        let d = &mut self.world.domains[di];
                        let a = &mut d.accounts[ai];
                        let taken = a.take_asset(asset_id);
                        proof {
                            let w1 = self.world.domains@;
                            let d1 = w1[di as int];
                            assert(w1 == w0.update(di as int, d1));
                            assert(d1.accounts@ == d0.accounts@.update(
                                ai as int,
                                d1.accounts@[ai as int],
                            ));
                            lemma_map_of_update(
                                d0.accounts@,
                                account_key(),
                                account_val(),
                                ai as int,
                                d1.accounts@[ai as int],
                            );
                            lemma_map_of_update(w0, domain_key(), domain_val(), di as int, d1);
                            assert forall|p: int, q: int|
                                0 <= p < q < d1.accounts@.len() implies #[trigger] d1.accounts@[p].id@
                                != #[trigger] d1.accounts@[q].id@ by {
                                assert(account_key()(d0.accounts@[p]) != account_key()(
                                    d0.accounts@[q],
                                ));
                            }
                            assert forall|p: int|
                                0 <= p < d1.accounts@.len() implies (
                            #[trigger] d1.accounts@[p]).wf() by {
                                if p != ai as int {
                                    assert(d1.accounts@[p] == d0.accounts@[p]);
                                }
                            }
                            assert forall|p: int|
                                0 <= p < w1.len() implies (#[trigger] w1[p]).wf() by {
                                if p != di as int {
                                    assert(w1[p] == w0[p]);
                                }
                            }
                            assert(final(self)@ =~~= old(self)@.without_asset(
                                account_id@,
                                asset_id@,
                            ));
                        }
                        taken
                    },
                }
            },
        }
    }

    /// Registers an asset definition under the named domain, replacing any
    /// definition of the same name. Returns whether the domain exists;
    /// without it nothing changes.
    pub fn add_definition(&mut self, domain_name: &String, definition: AssetDefinition) -> (r:
        bool)
        requires
            old(self).wf(),
        ensures
            final(self).wf(),
            r == old(self)@.has_domain(domain_name@),
            final(self)@ == old(self)@.with_definition(
                domain_name@,
                definition.name@,
                definition.decimals,
            ),
            !r ==> *final(self) == *old(self),
    {
        let ghost w0 = self.world.domains@;
        proof {
            lemma_domains_view_contains(w0, domain_name@);
        }
        match self.world.index_of_domain(domain_name) {
            None => false,
            Some(di) => {
                let ghost d0 = w0[di as int];
                proof {
                    lemma_map_of_get(w0, domain_key(), domain_val(), di as int);
                    assert(domain_key()(d0) == domain_name@);
                }
                let ghost k0 = d0.definitions@;
                let slot_opt = self.world.domains[di].index_of_definition(&definition.name);
                let d = &mut self.world.domains[di];
                match slot_opt {
                    Some(i) => {
                        proof {
                            lemma_map_of_update(
                                k0,
                                definition_key(),
                                definition_val(),
                                i as int,
                                definition,
                            );
                        }
                        let slot = &mut d.definitions[i];
                        *slot = definition;
                    },
                    None => {
                        proof {
                            lemma_map_of_push(k0, definition_key(), definition_val(), definition);
                        }
                        d.definitions.push(definition);
                    },
                }
                proof {
                    let w1 = self.world.domains@;
                    let d1 = w1[di as int];
                    assert(w1 == w0.update(di as int, d1));
                    lemma_map_of_update(w0, domain_key(), domain_val(), di as int, d1);
                    assert forall|p: int, q: int|
                        0 <= p < q < d1.definitions@.len() implies #[trigger] d1.definitions@[p].name@
                        != #[trigger] d1.definitions@[q].name@ by {
                        if q < k0.len() {
                            assert(definition_key()(k0[p]) != definition_key()(k0[q]));
                        } else {
                            if p < k0.len() {
                                assert(definition_key()(k0[p]) == k0[p].name@);
                            }
                        }
                    }
                    assert forall|p: int| 0 <= p < w1.len() implies (#[trigger] w1[p]).wf() by {
                        if p != di as int {
                            assert(w1[p] == w0[p]);
                        }
                    }
                    assert(final(self)@ =~~= old(self)@.with_definition(
                        domain_name@,
                        definition.name@,
                        definition.decimals,
                    ));
                }
                true
            },
        }
    }
}

} // verus!

