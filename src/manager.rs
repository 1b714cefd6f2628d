//! The registry: accounts keyed by their address.

use vstd::prelude::*;
use crate::account::{AccountView, EmailAccount, fresh_account};
use crate::keyed::{KeyedVec, lists_exactly};

verus! {

/// The views of a sequence of accounts.
pub open spec fn views(s: Seq<EmailAccount>) -> Seq<AccountView> {
    s.map_values(|a: EmailAccount| a@)
}

/// The views of a map of accounts.
pub open spec fn views_of(m: Map<Seq<char>, EmailAccount>) -> Map<Seq<char>, AccountView> {
    m.map_values(|a: EmailAccount| a@)
}

/// The accounts of `m` under the keys `ks`, in that order.
pub open spec fn accounts_at(ks: Seq<Seq<char>>, m: Map<Seq<char>, AccountView>) -> Seq<
    AccountView,
> {
    ks.map_values(|k: Seq<char>| m[k])
}

/// The accounts of `m` under the keys `ks`, in that order, that lack `service`.
pub open spec fn lacking(
    ks: Seq<Seq<char>>,
    m: Map<Seq<char>, AccountView>,
    service: Seq<char>,
) -> Seq<AccountView>
    decreases ks.len(),
{
    if ks.len() == 0 {
        Seq::empty()
    } else {
        let rest = lacking(ks.drop_last(), m, service);
        if m[ks.last()].services.contains_key(service) {
            rest
        } else {
            rest.push(m[ks.last()])
        }
    }
}

/// Every key of `m` is the address of the account stored under it.
pub open spec fn keyed_by_email(m: Map<Seq<char>, AccountView>) -> bool {
    forall|k: Seq<char>| #[trigger] m.contains_key(k) ==> m[k].email == k
}

/// The map that storing each account of `s` under its address, in order, builds.
pub open spec fn by_email(s: Seq<AccountView>) -> Map<Seq<char>, AccountView>
    decreases s.len(),
{
    if s.len() == 0 {
        Map::empty()
    } else {
        by_email(s.drop_last()).insert(s.last().email, s.last())
    }
}

proof fn lemma_views_of_insert(m: Map<Seq<char>, EmailAccount>, k: Seq<char>)
    ensures
        forall|a: EmailAccount| #[trigger]
            views_of(m.insert(k, a)) == views_of(m).insert(k, a@),
{
    assert forall|a: EmailAccount| #[trigger]
        views_of(m.insert(k, a)) == views_of(m).insert(k, a@) by {
        assert(views_of(m.insert(k, a)) =~= views_of(m).insert(k, a@));
    }
}

proof fn lemma_lacking_contains(
    ks: Seq<Seq<char>>,
    m: Map<Seq<char>, AccountView>,
    service: Seq<char>,
    a: AccountView,
)
    ensures
        lacking(ks, m, service).contains(a) <==> exists|i: int|
            0 <= i < ks.len() && #[trigger] m[ks[i]] == a && !a.services.contains_key(service),
    decreases ks.len(),
{
    if ks.len() > 0 {
        let p = ks.drop_last();
        let rest = lacking(p, m, service);
        let last = m[ks.last()];
        lemma_lacking_contains(p, m, service, a);
        let here = last == a && !a.services.contains_key(service);
        let found_before = exists|i: int|
            0 <= i < p.len() && #[trigger] m[p[i]] == a && !a.services.contains_key(service);
        let found = exists|i: int|
            0 <= i < ks.len() && #[trigger] m[ks[i]] == a && !a.services.contains_key(service);
        if found_before {
            let i = choose|i: int|
                0 <= i < p.len() && #[trigger] m[p[i]] == a && !a.services.contains_key(service);
            assert(ks[i] == p[i]);
        }
        if here {
            assert(m[ks[ks.len() - 1]] == a);
        }
        if found {
            let i = choose|i: int|
                0 <= i < ks.len() && #[trigger] m[ks[i]] == a && !a.services.contains_key(service);
            if i < ks.len() - 1 {
                assert(p[i] == ks[i]);
            }
        }
        assert(found <==> found_before || here);
        if !last.services.contains_key(service) {
            assert(rest.push(last).contains(a) <==> rest.contains(a) || last == a) by {
                if rest.push(last).contains(a) {
                    let j = choose|j: int| 0 <= j < rest.len() + 1 && rest.push(last)[j] == a;
                    if j < rest.len() {
                        assert(rest[j] == a);
                    }
                }
                if rest.contains(a) {
                    let j = choose|j: int| 0 <= j < rest.len() && rest[j] == a;
                    assert(rest.push(last)[j] == a);
                }
                if last == a {
                    assert(rest.push(last)[rest.len() as int] == a);
                }
            }
        }
    }
}

proof fn lemma_by_email_prefix(ks: Seq<Seq<char>>, m: Map<Seq<char>, AccountView>)
    requires
        keyed_by_email(m),
        forall|i: int| 0 <= i < ks.len() ==> m.contains_key(#[trigger] ks[i]),
    ensures
        by_email(accounts_at(ks, m)) == Map::new(|k: Seq<char>| ks.contains(k), |k: Seq<char>| m[k]),
    decreases ks.len(),
{
    let target = Map::new(|k: Seq<char>| ks.contains(k), |k: Seq<char>| m[k]);
    if ks.len() == 0 {
        assert(by_email(accounts_at(ks, m)) =~= target);
    } else {
        let p = ks.drop_last();
        assert forall|i: int| 0 <= i < p.len() implies m.contains_key(#[trigger] p[i]) by {
            assert(p[i] == ks[i]);
        }
        lemma_by_email_prefix(p, m);
        let x = ks.last();
        assert(m.contains_key(x));
        assert(accounts_at(ks, m).drop_last() =~= accounts_at(p, m));
        assert(accounts_at(ks, m).last() == m[x]);
        assert forall|k: Seq<char>| ks.contains(k) <==> p.contains(k) || k == x by {
            if ks.contains(k) {
                let i = choose|i: int| 0 <= i < ks.len() && ks[i] == k;
                if i < ks.len() - 1 {
                    assert(p[i] == k);
                }
            }
            if p.contains(k) {
                let i = choose|i: int| 0 <= i < p.len() && p[i] == k;
                assert(ks[i] == k);
            }
            if k == x {
                assert(ks[ks.len() - 1] == k);
            }
        }
        assert(by_email(accounts_at(ks, m)) =~= target);
    }
}

/// Storing, under its address, each account of a registry whose keys are the
/// addresses of their accounts, listed once per key, rebuilds that registry.
pub proof fn lemma_rebuild_from_listing(m: Map<Seq<char>, AccountView>, ks: Seq<Seq<char>>)
    requires
        keyed_by_email(m),
        lists_exactly(ks, m.dom()),
    ensures
        by_email(accounts_at(ks, m)) == m,
{
    assert forall|i: int| 0 <= i < ks.len() implies m.contains_key(#[trigger] ks[i]) by {
        assert(ks.contains(ks[i]));
    }
    lemma_by_email_prefix(ks, m);
    assert(by_email(accounts_at(ks, m)) =~= m);
}

/// Adding an account under an address that is taken replaces the old account
/// whole: the new one has the given password and no services.
pub proof fn lemma_add_account_replaces(
    m: Map<Seq<char>, AccountView>,
    email: Seq<char>,
    password: Seq<char>,
)
    ensures
        m.insert(email, fresh_account(email, password))[email].password == password,
        m.insert(email, fresh_account(email, password))[email].services == Map::<
            Seq<char>,
            bool,
        >::empty(),
        m.insert(email, fresh_account(email, password)).dom() == m.dom().insert(email),
{
}

/// The registry of accounts, keyed by address.
pub struct EmailManager {
    accounts: KeyedVec<EmailAccount>,
}

impl View for EmailManager {
    type V = Map<Seq<char>, AccountView>;

    closed spec fn view(&self) -> Map<Seq<char>, AccountView> {
        views_of(self.accounts@)
    }
}

impl EmailManager {
    /// No two entries share a key.
    pub closed spec fn wf(&self) -> bool {
        self.accounts.wf()
    }

    /// The keys in the order in which the accounts are held.
    pub closed spec fn key_list(&self) -> Seq<Seq<char>> {
        self.accounts.key_list()
    }

    /// The key list holds each key exactly once.
    pub proof fn lemma_key_list(&self)
        requires
            self.wf(),
        ensures
            lists_exactly(self.key_list(), self@.dom()),
            self.key_list().len() == self@.dom().len(),
    {
        self.accounts.lemma_key_list();
        let ks = self.key_list();
        assert(ks.to_set() =~= self@.dom());
        ks.unique_seq_to_set();
    }

    /// An empty registry.
    pub fn new() -> (r: EmailManager)
        ensures
            r.wf(),
            r@ == Map::<Seq<char>, AccountView>::empty(),
            keyed_by_email(r@),
    {
        let r = EmailManager { accounts: KeyedVec::new() };
        assert(r@ =~= Map::<Seq<char>, AccountView>::empty());
        r
    }

    /// Stores a new account, with no services, under `email`; an account held
    /// there before is replaced whole.
    pub fn add_account(&mut self, email: String, password: String)
        requires
            old(self).wf(),
        ensures
            final(self).wf(),
            final(self)@ == old(self)@.insert(email@, fresh_account(email@, password@)),
            keyed_by_email(old(self)@) ==> keyed_by_email(final(self)@),
    {
        let key = email.clone();
        let account = EmailAccount::new(email, password);
        proof {
            lemma_views_of_insert(self.accounts@, key@);
        }
        self.accounts.insert(key, account);
    }

    /// Stores `account` under its address; an account held there before is replaced.
    pub fn put_account(&mut self, account: EmailAccount)
        requires
            old(self).wf(),
        ensures
            final(self).wf(),
            final(self)@ == old(self)@.insert(account@.email, account@),
            keyed_by_email(old(self)@) ==> keyed_by_email(final(self)@),
    {
        let key = account.get_email();
        proof {
            lemma_views_of_insert(self.accounts@, key@);
        }
        self.accounts.insert(key, account);
    }

    /// Takes out the account under `email`; nothing happens if there is none.
    pub fn remove_account(&mut self, email: String)
        requires
            old(self).wf(),
        ensures
            final(self).wf(),
            final(self)@ == old(self)@.remove(email@),
            keyed_by_email(old(self)@) ==> keyed_by_email(final(self)@),
    {
        self.accounts.remove(&email);
        assert(self@ =~= old(self)@.remove(email@));
    }

    /// A handle on the account under `email`, through which it can be changed in place.
    pub fn get_account(&mut self, email: String) -> (r: Option<&mut EmailAccount>)
        requires
            old(self).wf(),
        ensures
            match r {
                Some(a) => {
                    &&& old(self)@.contains_key(email@)
                    &&& a@ == old(self)@[email@]
                    &&& final(self).wf()
                    &&& final(self).key_list() == old(self).key_list()
                    &&& final(self)@ == old(self)@.insert(email@, final(a)@)
                },
                None => !old(self)@.contains_key(email@) && *final(self) == *old(self),
            },
    {
        proof {
            lemma_views_of_insert(self.accounts@, email@);
        }
        self.accounts.get_mut(&email)
    }

    /// Copies of all accounts, in the order in which they are held.
    pub fn get_accounts(&self) -> (r: Vec<EmailAccount>)
        requires
            self.wf(),
        ensures
            views(r@) == accounts_at(self.key_list(), self@),
            r@.len() == self@.dom().len(),
    {
        proof {
            self.lemma_key_list();
        }
        let ghost ks = self.key_list();
        let mut r: Vec<EmailAccount> = Vec::new();
        let n = self.accounts.len();
        let mut i: usize = 0;
        while i < n
            invariant
                self.accounts.wf(),
                ks == self.key_list(),
                n == ks.len(),
                i <= n,
                views(r@) == accounts_at(ks.take(i as int), self@),
            decreases n - i,
        {
            let (k, a) = self.accounts.entry(i);
            let ghost before = r@;
            r.push(a.snapshot());
            proof {
                assert(self@[k@] == a@);
                assert(views(r@) =~= views(before).push(a@));
                assert(ks.take(i + 1) =~= ks.take(i as int).push(k@));
                assert(accounts_at(ks.take(i + 1), self@) =~= accounts_at(ks.take(i as int), self@).push(a@));
                assert(views(r@) =~= accounts_at(ks.take(i + 1), self@));
            }
            i = i + 1;
        }
        proof {
            assert(ks.take(n as int) =~= ks);
        }
        r
    }

    /// Copies of the accounts that lack `service`, in the order in which they
    /// are held: an account of the registry is among them exactly when
    /// `service` is not one of its services.
    pub fn get_email_without_service(&self, service: String) -> (r: Vec<EmailAccount>)
        requires
            self.wf(),
        ensures
            views(r@) == lacking(self.key_list(), self@, service@),
            forall|k: Seq<char>| #[trigger]
                self@.contains_key(k) ==> (views(r@).contains(self@[k])
                    <==> !self@[k].services.contains_key(service@)),
            forall|a: AccountView| #[trigger]
                views(r@).contains(a) ==> !a.services.contains_key(service@) && exists|
                    k: Seq<char>,
                | self@.contains_key(k) && self@[k] == a,
    {
        proof {
            self.lemma_key_list();
        }
        let ghost ks = self.key_list();
        let mut r: Vec<EmailAccount> = Vec::new();
        let n = self.accounts.len();
        let mut i: usize = 0;
        while i < n
            invariant
                self.accounts.wf(),
                ks == self.key_list(),
                n == ks.len(),
                i <= n,
                views(r@) == lacking(ks.take(i as int), self@, service@),
            decreases n - i,
        {
            let (k, a) = self.accounts.entry(i);
            let enrolled = a.has_service(&service);
            if !enrolled {
                r.push(a.snapshot());
            }
            proof {
                assert(self@[k@] == a@);
                assert(ks.take(i + 1).drop_last() =~= ks.take(i as int));
                assert(views(r@) =~= lacking(ks.take(i + 1), self@, service@));
            }
            i = i + 1;
        }
        proof {
            assert(ks.take(n as int) =~= ks);
            let m = self@;
            assert forall|k: Seq<char>| #[trigger]
                m.contains_key(k) implies (views(r@).contains(m[k])
                <==> !m[k].services.contains_key(service@)) by {
                lemma_lacking_contains(ks, m, service@, m[k]);
                let i = choose|i: int| 0 <= i < ks.len() && ks[i] == k;
                assert(m[ks[i]] == m[k]);
            }
            assert forall|a: AccountView| #[trigger]
                views(r@).contains(a) implies !a.services.contains_key(service@) && exists|
                    k: Seq<char>,
                | m.contains_key(k) && m[k] == a by {
                lemma_lacking_contains(ks, m, service@, a);
                let i = choose|i: int|
                    0 <= i < ks.len() && #[trigger] m[ks[i]] == a && !a.services.contains_key(
                        service@,
                    );
                assert(ks.contains(ks[i]));
            }
        }
        r
    }
    /// A registry holding each account of `accounts` under its address; where
    /// two share an address, the later one stays.
    pub fn from_accounts(accounts: Vec<EmailAccount>) -> (r: EmailManager)
        ensures
            r.wf(),
            r@ == by_email(views(accounts@)),
            keyed_by_email(r@),
    {
        let mut r = EmailManager::new();
        let mut i: usize = 0;
        while i < accounts.len()
            invariant
                r.wf(),
                i <= accounts@.len(),
                r@ == by_email(views(accounts@.take(i as int))),
                keyed_by_email(r@),
            decreases accounts@.len() - i,
        {
            let account = accounts[i].snapshot();
            r.put_account(account);
            proof {
                let s = accounts@.take(i + 1);
                assert(s.drop_last() =~= accounts@.take(i as int));
                assert(views(s).drop_last() =~= views(accounts@.take(i as int)));
                assert(views(s).last() == account@);
            }
            i = i + 1;
        }
        proof {
            assert(accounts@.take(i as int) =~= accounts@);
        }
        r
    }

    /// The registry that stored accounts give: empty where nothing was stored,
    /// else the accounts, each under its address.
    pub fn from_stored(stored: Option<Vec<EmailAccount>>) -> (r: EmailManager)
        ensures
            r.wf(),
            r@ == match stored {
                Some(accounts) => by_email(views(accounts@)),
                None => Map::<Seq<char>, AccountView>::empty(),
            },
    {
        match stored {
            Some(accounts) => EmailManager::from_accounts(accounts),
            None => EmailManager::new(),
        }
    }
}

} // verus!
