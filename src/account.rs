//! One account: its address, its password, and the services it is enrolled in.

use vstd::prelude::*;
use crate::keyed::{KeyedVec, lists_exactly};

verus! {

/// What an account holds, as mathematical values.
pub struct AccountView {
    pub email: Seq<char>,
    pub password: Seq<char>,
    pub services: Map<Seq<char>, bool>,
}

/// A new account: the given address and password, and no services.
pub open spec fn fresh_account(email: Seq<char>, password: Seq<char>) -> AccountView {
    AccountView { email, password, services: Map::empty() }
}

/// The account with `service` set to `enabled`, everything else kept.
pub open spec fn with_service(a: AccountView, service: Seq<char>, enabled: bool) -> AccountView {
    AccountView { services: a.services.insert(service, enabled), ..a }
}

/// The account with `service` enabled.
pub open spec fn enable(a: AccountView, service: Seq<char>) -> AccountView {
    with_service(a, service, true)
}

/// The account without `service`.
pub open spec fn disable(a: AccountView, service: Seq<char>) -> AccountView {
    AccountView { services: a.services.remove(service), ..a }
}

/// An email account and the services enabled on it.
pub struct EmailAccount {
    email: String,
    password: String,
    services: KeyedVec<bool>,
}

impl View for EmailAccount {
    type V = AccountView;

    closed spec fn view(&self) -> AccountView {
        AccountView { email: self.email@, password: self.password@, services: self.services@ }
    }
}

impl EmailAccount {
    #[verifier::type_invariant]
    spec fn inv(&self) -> bool {
        self.services.wf()
    }

    /// An account with the given address and password and no services.
    pub fn new(email: String, password: String) -> (r: EmailAccount)
        ensures
            r@ == fresh_account(email@, password@),
    {
        EmailAccount { email, password, services: KeyedVec::new() }
    }

    /// Sets the flag of `service` to `enabled`, adding the service if it was absent.
    pub fn set_service(&mut self, service: String, enabled: bool)
        ensures
            final(self)@ == with_service(old(self)@, service@, enabled),
    {
        proof {
            use_type_invariant(&*self);
        }
        let mut services = KeyedVec::new();
        std::mem::swap(&mut services, &mut self.services);
        services.insert(service, enabled);
        self.services = services;
    }

    /// Enables `service` on this account.
    pub fn add_service(&mut self, service: String)
        ensures
            final(self)@ == enable(old(self)@, service@),
    {
        self.set_service(service, true);
    }

    /// Removes `service` from this account; nothing happens if it is absent.
    pub fn remove_service(&mut self, service: String)
        ensures
            final(self)@ == disable(old(self)@, service@),
    {
        proof {
            use_type_invariant(&*self);
        }
        let mut services = KeyedVec::new();
        std::mem::swap(&mut services, &mut self.services);
        services.remove(&service);
        self.services = services;
    }

    /// The flag of `service`, if the account has it.
    pub fn get_service(&self, service: &String) -> (r: Option<bool>)
        ensures
            r == (if self@.services.contains_key(service@) {
                Some(self@.services[service@])
            } else {
                None
            }),
    {
        proof {
            use_type_invariant(self);
        }
        match self.services.get(service) {
            Some(b) => Some(*b),
            None => None,
        }
    }

    /// Whether the account has `service`.
    pub fn has_service(&self, service: &String) -> (r: bool)
        ensures
            r == self@.services.contains_key(service@),
    {
        proof {
            use_type_invariant(self);
        }
        self.services.contains_key(service)
    }

    /// The names of the account's services, each once, in no particular order.
    pub fn get_services(&self) -> (r: Vec<String>)
        ensures
            lists_exactly(r@.map_values(|s: String| s@), self@.services.dom()),
    {
        proof {
            use_type_invariant(self);
            self.services.lemma_key_list();
        }
        let mut r: Vec<String> = Vec::new();
        let n = self.services.len();
        let mut i: usize = 0;
        while i < n
            invariant
                self.services.wf(),
                n == self.services.key_list().len(),
                i <= n,
                r@.map_values(|s: String| s@) == self.services.key_list().take(i as int),
            decreases n - i,
        {
            let (k, _) = self.services.entry(i);
            r.push(k.clone());
            proof {
                assert(self.services.key_list().take(i + 1) =~= self.services.key_list().take(
                    i as int,
                ).push(k@));
                assert(r@.map_values(|s: String| s@) =~= self.services.key_list().take(i + 1));
            }
            i = i + 1;
        }
        proof {
            assert(self.services.key_list().take(n as int) =~= self.services.key_list());
        }
        r
    }

    /// The account's address.
    pub fn get_email(&self) -> (r: String)
        ensures
            r@ == self@.email,
    {
        self.email.clone()
    }

    /// The account's password.
    pub fn get_password(&self) -> (r: String)
        ensures
            r@ == self@.password,
    {
        self.password.clone()
    }

    /// A copy of the account, taken apart from the live one.
    pub fn snapshot(&self) -> (r: EmailAccount)
        ensures
            r@ == self@,
    {
        proof {
            use_type_invariant(self);
            self.services.lemma_key_list();
        }
        let mut services: KeyedVec<bool> = KeyedVec::new();
        let n = self.services.len();
        let mut i: usize = 0;
        while i < n
            invariant
                self.services.wf(),
                services.wf(),
                n == self.services.key_list().len(),
                i <= n,
                lists_exactly(self.services.key_list(), self.services@.dom()),
                services.key_list() == self.services.key_list().take(i as int),
                forall|x: Seq<char>|
                    #[trigger] services@.contains_key(x) <==> services.key_list().contains(x),
                forall|x: Seq<char>| #[trigger]
                    services@.contains_key(x) ==> self.services@.contains_key(x)
                        && services@[x] == self.services@[x],
            decreases n - i,
        {
            let (k, v) = self.services.entry(i);
            proof {
                let ks = self.services.key_list();
                assert(!ks.take(i as int).contains(k@)) by {
                    if ks.take(i as int).contains(k@) {
                        let j = choose|j: int| 0 <= j < i && ks.take(i as int)[j] == k@;
                        assert(ks[j] == ks[i as int]);
                    }
                }
                assert(!services@.contains_key(k@));
            }
            services.insert(k.clone(), *v);
            proof {
                let ks = self.services.key_list();
                assert(ks.take(i + 1) =~= ks.take(i as int).push(k@));
                assert forall|x: Seq<char>| #[trigger]
                    services@.contains_key(x) <==> services.key_list().contains(x) by {
                    if x != k@ && services.key_list().contains(x) {
                        let j = choose|j: int|
                            0 <= j < services.key_list().len() && services.key_list()[j] == x;
                        assert(j < i);
                        assert(ks.take(i as int)[j] == x);
                    }
                    if x == k@ {
                        assert(services.key_list()[i as int] == x);
                    }
                }
            }
            i = i + 1;
        }
        proof {
            let ks = self.services.key_list();
            assert(ks.take(n as int) =~= ks);
            assert(services@ =~= self.services@);
        }
        EmailAccount { email: self.email.clone(), password: self.password.clone(), services }
    }
}

/// Enabling a service a second time changes nothing: the service stays, enabled.
pub proof fn lemma_add_service_idempotent(a: AccountView, service: Seq<char>)
    ensures
        enable(enable(a, service), service) == enable(a, service),
        enable(a, service).services.contains_key(service),
        enable(a, service).services[service] == true,
{
    assert(enable(enable(a, service), service).services =~= enable(a, service).services);
}

/// Removing a service the account does not have leaves its services as they were.
pub proof fn lemma_remove_absent_service(a: AccountView, service: Seq<char>)
    requires
        !a.services.contains_key(service),
    ensures
        disable(a, service) == a,
        disable(a, service).services == a.services,
{
    assert(disable(a, service).services =~= a.services);
}

} // verus!
