//! Per-user balances: plain records kept alongside the user store, with the
//! same uniqueness discipline for their ids. Creating a balance defaults a
//! missing opening amount to zero; listing returns exactly the caller's
//! balances, in insertion order.

use crate::errors::ErrorKind;
use crate::user::User;
use vstd::prelude::*;

verus! {

/// The kind of a balance.
#[derive(Clone, Copy, PartialEq, Eq, Structural, Debug)]
pub enum BType {
    Cash,
    Card,
}

/// A stored balance record.
#[derive(Debug)]
pub struct Balance {
    pub id: i32,
    pub uid: i32,
    pub balance_type: BType,
    pub name: String,
    pub iban: Option<String>,
    pub balance: i32,
}

/// What balance creation submits; a missing amount means zero.
#[derive(Debug)]
pub struct NewBalance {
    pub balance_type: BType,
    pub name: String,
    pub iban: Option<String>,
    pub balance: Option<i32>,
}

/// Copy an optional string by value.
fn clone_opt(o: &Option<String>) -> (r: Option<String>)
    ensures
        r == *o,
{
    match o {
        Some(s) => Some(s.clone()),
        None => None,
    }
}

/// The in-memory balance store: unique ids below a counter.
pub struct BalanceStore {
    balances: Vec<Balance>,
    next_id: i32,
}

impl BalanceStore {
    /// The stored records, in insertion order.
    pub closed spec fn rows(&self) -> Seq<Balance> {
        self.balances@
    }

    /// The id the next record receives.
    pub closed spec fn spec_next_id(&self) -> int {
        self.next_id as int
    }

    /// Unique ids, assigned from the counter.
    pub open spec fn wf(&self) -> bool {
        &&& forall|i: int, j: int|
            0 <= i < self.rows().len() && 0 <= j < self.rows().len() && i != j ==> (
            #[trigger] self.rows()[i].id != #[trigger] self.rows()[j].id)
        &&& forall|i: int|
            0 <= i < self.rows().len() ==> 1 <= #[trigger] self.rows()[i].id
                && self.rows()[i].id < self.spec_next_id()
        &&& 1 <= self.spec_next_id()
    }

    /// An empty store.
    pub fn new() -> (s: BalanceStore)
        ensures
            s.wf(),
            s.rows().len() == 0,
    {
        BalanceStore { balances: Vec::new(), next_id: 1 }
    }
}

/// The balance handlers.
pub struct BalanceHandler;

impl BalanceHandler {
    /// Store a new balance for `user` under a fresh id, the opening amount
    /// defaulted to zero when absent, and return the stored record.
    pub fn crate_balance_for_user(
        store: &mut BalanceStore,
        user: &User,
        new_balance: NewBalance,
    ) -> (r: Result<Balance, ErrorKind>)
        requires
            old(store).wf(),
        ensures
            final(store).wf(),
            match r {
                Ok(b) => {
                    &&& b.id as int == old(store).spec_next_id()
                    &&& b.uid == user.id
                    &&& b.balance_type == new_balance.balance_type
                    &&& b.name@ == new_balance.name@
                    &&& b.iban == new_balance.iban
                    &&& b.balance == (match new_balance.balance {
                        Some(v) => v,
                        None => 0,
                    })
                    &&& final(store).rows() == old(store).rows().push(b)
                },
                Err(e) => {
                    &&& e == ErrorKind::StoreUnavailable
                    &&& old(store).spec_next_id() == i32::MAX
                    &&& *final(store) == *old(store)
                },
            },
    {
        if store.next_id == i32::MAX {
            return Err(ErrorKind::StoreUnavailable);
        }
        let id = store.next_id;
        let amount: i32 = match new_balance.balance {
            Some(v) => v,
            None => 0,
        };
        let row = Balance {
            id,
            uid: user.id,
            balance_type: new_balance.balance_type,
            name: new_balance.name,
            iban: new_balance.iban,
            balance: amount,
        };
        let out = Balance {
            id,
            uid: user.id,
            balance_type: row.balance_type,
            name: row.name.clone(),
            iban: clone_opt(&row.iban),
            balance: amount,
        };
        proof {
            assert(out == row);
        }
        store.balances.push(row);
        store.next_id = id + 1;
        proof {
            let rs = store.rows();
            let os = old(store).rows();
            assert(rs =~= os.push(rs.last()));
            assert forall|i: int, j: int|
                0 <= i < rs.len() && 0 <= j < rs.len() && i != j implies (#[trigger] rs[i].id
                != #[trigger] rs[j].id) by {
                if i < os.len() && j < os.len() {
                    assert(rs[i] == os[i] && rs[j] == os[j]);
                } else if i < os.len() {
                    assert(rs[i] == os[i] && rs[j] == rs.last());
                } else if j < os.len() {
                    assert(rs[j] == os[j] && rs[i] == rs.last());
                }
            }
            assert forall|i: int| 0 <= i < rs.len() implies 1 <= (#[trigger] rs[i].id)
                && rs[i].id < store.spec_next_id() by {
                if i < os.len() {
                    assert(rs[i] == os[i]);
                } else {
                    assert(rs[i] == rs.last());
                }
            }
        }
        Ok(out)
    }

    /// Exactly the balances whose owner is `user`, in insertion order.
    pub fn get_user_balances(store: &BalanceStore, user: &User) -> (r: Vec<Balance>)
        ensures
            r@ == store.rows().filter(|b: Balance| b.uid == user.id),
    {
        let ghost pred = |b: Balance| b.uid == user.id;
        let n = store.balances.len();
        let mut out: Vec<Balance> = Vec::new();
        let mut k: usize = 0;
        proof {
            reveal(Seq::filter);
            assert(store.rows().take(0) =~= Seq::<Balance>::empty());
            assert(Seq::<Balance>::empty().filter(pred) =~= Seq::<Balance>::empty());
        }
        while k < n
            invariant
                k <= n,
                n == store.rows().len(),
                out@ == store.rows().take(k as int).filter(
                    |b: Balance| b.uid == user.id,
                ),
            decreases n - k,
        {
            let row = &store.balances[k];
            proof {
                reveal(Seq::filter);
                let p = |b: Balance| b.uid == user.id;
                let prefix = store.rows().take(k as int);
                let single = seq![store.rows()[k as int]];
                assert(store.rows().take(k as int + 1) =~= prefix + single);

                Seq::<Balance>::filter_distributes_over_add(prefix, single, p);
                assert(single.drop_last() =~= Seq::<Balance>::empty());
                assert(Seq::<Balance>::empty().filter(p) =~= Seq::<Balance>::empty());
                if p(single.last()) {
                    assert(single.filter(p) =~= Seq::<Balance>::empty().push(single.last()));
                } else {
                    assert(single.filter(p) =~= Seq::<Balance>::empty());
                }
            }
            if row.uid == user.id {
                let copy = Balance {
                    id: row.id,
                    uid: row.uid,
                    balance_type: row.balance_type,
                    name: row.name.clone(),
                    iban: clone_opt(&row.iban),
                    balance: row.balance,
                };
                proof {
                    assert(copy == store.rows()[k as int]);
                }
                out.push(copy);
            }
            k += 1;
        }
        proof {
            assert(store.rows().take(n as int) =~= store.rows());
        }
        out
    }
}

} // verus!
