use vstd::prelude::*;
use vstd::string::StringExecFns;
use crate::account::{principal_text, Account};
use crate::decimal::{decimal, push_decimal};

verus! {

/// A balance entry: an account and what it holds.
pub type Entry = (Account, u64);

/// What the account of bytes `a` holds in `s`: the value of its last entry, or 0.
pub open spec fn balance_in(s: Seq<Entry>, a: Seq<u8>) -> nat
    decreases s.len(),
{
    if s.len() == 0 {
        0
    } else if s.last().0@ == a {
        s.last().1 as nat
    } else {
        balance_in(s.drop_last(), a)
    }
}

/// The sum of all the balances in `s`.
pub open spec fn sum_of(s: Seq<Entry>) -> nat
    decreases s.len(),
{
    if s.len() == 0 {
        0
    } else {
        sum_of(s.drop_last()) + s.last().1 as nat
    }
}

/// No account has two entries in `s`.
pub open spec fn keys_unique(s: Seq<Entry>) -> bool {
    forall|i: int, j: int| 0 <= i < j < s.len() ==> s[i].0@ != s[j].0@
}

/// The entries of `s` whose balance is above zero, in the order of `s`.
pub open spec fn positive_entries(s: Seq<Entry>) -> Seq<(Seq<u8>, u64)>
    decreases s.len(),
{
    if s.len() == 0 {
        seq![]
    } else if s.last().1 > 0 {
        positive_entries(s.drop_last()).push((s.last().0@, s.last().1))
    } else {
        positive_entries(s.drop_last())
    }
}

/// The accounts and balances of a list of entries.
pub open spec fn entries_view(r: Seq<Entry>) -> Seq<(Seq<u8>, u64)> {
    r.map_values(|e: Entry| (e.0@, e.1))
}

proof fn lemma_absent(s: Seq<Entry>, a: Seq<u8>)
    requires
        forall|i: int| 0 <= i < s.len() ==> s[i].0@ != a,
    ensures
        balance_in(s, a) == 0,
    decreases s.len(),
{
    if s.len() > 0 {
        lemma_absent(s.drop_last(), a);
    }
}

proof fn lemma_at(s: Seq<Entry>, i: int)
    requires
        keys_unique(s),
        0 <= i < s.len(),
    ensures
        balance_in(s, s[i].0@) == s[i].1,
    decreases s.len(),
{
    if i < s.len() - 1 {
        lemma_at(s.drop_last(), i);
    }
}

proof fn lemma_two_balances(s: Seq<Entry>, a: Seq<u8>, b: Seq<u8>)
    requires
        keys_unique(s),
        a != b,
    ensures
        balance_in(s, a) + balance_in(s, b) <= sum_of(s),
    decreases s.len(),
{
    if s.len() > 0 {
        lemma_two_balances(s.drop_last(), a, b);
        if s.last().0@ == a || s.last().0@ == b {
            let k = s.last().0@;
            let other = if k == a { b } else { a };
            assert forall|i: int| 0 <= i < s.drop_last().len() implies s.drop_last()[i].0@ != k by {
                assert(s[i].0@ != s[s.len() - 1].0@);
            }
            lemma_absent(s.drop_last(), k);
            lemma_balance_le_sum(s.drop_last(), other);
        }
    }
}

proof fn lemma_balance_le_sum(s: Seq<Entry>, a: Seq<u8>)
    ensures
        balance_in(s, a) <= sum_of(s),
    decreases s.len(),
{
    if s.len() > 0 {
        lemma_balance_le_sum(s.drop_last(), a);
    }
}

proof fn lemma_set(s: Seq<Entry>, i: int, k: Account, v: u64)
    requires
        keys_unique(s),
        0 <= i < s.len(),
        k@ == s[i].0@,
    ensures
        keys_unique(s.update(i, (k, v))),
        sum_of(s.update(i, (k, v))) + s[i].1 == sum_of(s) + v,
        forall|a: Seq<u8>|
            #[trigger] balance_in(s.update(i, (k, v)), a) == if a == s[i].0@ {
                v as nat
            } else {
                balance_in(s, a)
            },
    decreases s.len(),
{
    let t = s.update(i, (k, v));
    let n = s.len() - 1;
    assert(t.drop_last() =~= if i == n {
        s.drop_last()
    } else {
        s.drop_last().update(i, (k, v))
    });
    if i == n {
        assert forall|a: Seq<u8>| #[trigger]
            balance_in(t, a) == if a == s[i].0@ {
                v as nat
            } else {
                balance_in(s, a)
            } by {}
    } else {
        lemma_set(s.drop_last(), i, k, v);
        assert forall|a: Seq<u8>| #[trigger]
            balance_in(t, a) == if a == s[i].0@ {
                v as nat
            } else {
                balance_in(s, a)
            } by {
            assert(t.last() == s.last());
            assert(s[i].0@ != s[n].0@);
            assert(balance_in(t.drop_last(), a) == if a == s[i].0@ {
                v as nat
            } else {
                balance_in(s.drop_last(), a)
            });
        }
    }
}

proof fn lemma_push(s: Seq<Entry>, e: Entry)
    requires
        keys_unique(s),
        forall|i: int| 0 <= i < s.len() ==> s[i].0@ != e.0@,
    ensures
        keys_unique(s.push(e)),
        sum_of(s.push(e)) == sum_of(s) + e.1,
        forall|a: Seq<u8>|
            #[trigger] balance_in(s.push(e), a) == if a == e.0@ {
                e.1 as nat
            } else {
                balance_in(s, a)
            },
{
    assert(s.push(e).drop_last() =~= s);
}

/// What a transfer of `amount` from `caller` to `to` does: it moves the amount
/// when it is positive, the accounts differ and the caller holds enough, and
/// otherwise refuses with the first of these conditions that fails and changes
/// nothing.
pub open spec fn transfer_outcome(
    before: Ledger,
    after: Ledger,
    caller: Seq<u8>,
    to: Seq<u8>,
    amount: u64,
    r: Result<String, TokenError>,
) -> bool {
    &&& r == Err::<String, TokenError>(TokenError::InvalidAmount) <==> amount == 0
    &&& r == Err::<String, TokenError>(TokenError::SelfTransfer) <==> amount > 0 && caller == to
    &&& r == Err::<String, TokenError>(TokenError::InsufficientBalance) <==> amount > 0 && caller
        != to && before.balance(caller) < amount
    &&& r is Ok <==> amount > 0 && caller != to && amount <= before.balance(caller)
    &&& r is Err ==> after == before
    &&& r matches Ok(m) ==> {
        &&& m@ == transfer_message(amount, caller, to)
        &&& after.same_metadata(&before)
        &&& after.total_supply() == before.total_supply()
        &&& forall|a: Seq<u8>| #[trigger]
            after.balance(a) == if a == caller {
                before.balance(a) - amount
            } else if a == to {
                before.balance(a) + amount
            } else {
                before.balance(a) as int
            }
    }
}

/// The sum of the balances in a listing of accounts and balances.
pub open spec fn listed_sum(h: Seq<(Seq<u8>, u64)>) -> nat
    decreases h.len(),
{
    if h.len() == 0 {
        0
    } else {
        listed_sum(h.drop_last()) + h.last().1 as nat
    }
}

proof fn lemma_positive(s: Seq<Entry>)
    requires
        keys_unique(s),
    ensures
        listed_sum(positive_entries(s)) == sum_of(s),
        forall|i: int|
            0 <= i < positive_entries(s).len() ==> {
                &&& positive_entries(s)[i].1 > 0
                &&& balance_in(s, #[trigger] positive_entries(s)[i].0) == positive_entries(s)[i].1
            },
        forall|i: int, j: int|
            0 <= i < j < positive_entries(s).len() ==> positive_entries(s)[i].0
                != positive_entries(s)[j].0,
        forall|a: Seq<u8>|
            #[trigger] balance_in(s, a) > 0 ==> exists|i: int|
                0 <= i < positive_entries(s).len() && positive_entries(s)[i].0 == a,
    decreases s.len(),
{
    if s.len() > 0 {
        let t = s.drop_last();
        let k = s.last().0@;
        assert(keys_unique(t));
        lemma_positive(t);
        assert forall|i: int| 0 <= i < t.len() implies t[i].0@ != k by {
            assert(s[i].0@ != s[s.len() - 1].0@);
        }
        lemma_absent(t, k);
        let p = positive_entries(t);
        assert(p.push((k, s.last().1)).drop_last() =~= p);
        assert forall|i: int| 0 <= i < p.len() implies p[i].0 != k by {
            assert(balance_in(t, p[i].0) == p[i].1);
        }
        assert forall|a: Seq<u8>| #[trigger] balance_in(s, a) > 0 implies exists|i: int|
            0 <= i < positive_entries(s).len() && positive_entries(s)[i].0 == a by {
            if a == k {
                assert(positive_entries(s)[positive_entries(s).len() - 1].0 == a);
            } else {
                assert(balance_in(t, a) > 0);
                let i = choose|i: int| 0 <= i < p.len() && p[i].0 == a;
                assert(positive_entries(s)[i] == p[i]);
            }
        }
    }
}

/// In a well-formed ledger (every operation keeps the ledger well-formed) the
/// total supply is the sum of the balances of all accounts: `holders` lists
/// every account that holds something exactly once, with its balance, and the
/// balances listed add up to the total supply.
pub proof fn lemma_supply_is_sum_of_balances(l: &Ledger)
    requires
        l.wf(),
    ensures
        l.total_supply() == listed_sum(l.holders()),
        forall|i: int|
            0 <= i < l.holders().len() ==> {
                &&& l.holders()[i].1 > 0
                &&& l.balance(#[trigger] l.holders()[i].0) == l.holders()[i].1
            },
        forall|i: int, j: int|
            0 <= i < j < l.holders().len() ==> l.holders()[i].0 != l.holders()[j].0,
        forall|a: Seq<u8>|
            #[trigger] l.balance(a) > 0 ==> exists|i: int|
                0 <= i < l.holders().len() && l.holders()[i].0 == a,
{
    lemma_positive(l.balances@);
    let h = l.holders();
    assert forall|i: int| 0 <= i < h.len() implies {
        &&& h[i].1 > 0
        &&& l.balance(#[trigger] h[i].0) == h[i].1
    } by {
        assert(balance_in(l.balances@, h[i].0) == h[i].1);
    }
    assert forall|a: Seq<u8>| #[trigger] l.balance(a) > 0 implies exists|i: int|
        0 <= i < h.len() && h[i].0 == a by {
        assert(balance_in(l.balances@, a) > 0);
    }
}

/// Transfers are not idempotent: when a transfer has succeeded, the same
/// transfer again either moves the amount a second time or is refused for want
/// of balance.
pub proof fn lemma_transfer_not_idempotent(
    l0: Ledger,
    l1: Ledger,
    l2: Ledger,
    caller: Seq<u8>,
    to: Seq<u8>,
    amount: u64,
    r1: Result<String, TokenError>,
    r2: Result<String, TokenError>,
)
    requires
        transfer_outcome(l0, l1, caller, to, amount, r1),
        transfer_outcome(l1, l2, caller, to, amount, r2),
        r1 is Ok,
    ensures
        r2 is Ok ==> l2.balance(caller) == l0.balance(caller) - 2 * amount && l2.balance(to)
            == l0.balance(to) + 2 * amount && l2.balance(caller) < l1.balance(caller),
        r2 is Err ==> r2 == Err::<String, TokenError>(TokenError::InsufficientBalance) && l2
            == l1 && l1.balance(caller) < amount,
{
    assert(l1.balance(caller) == l0.balance(caller) - amount);
    assert(l1.balance(to) == l0.balance(to) + amount);
    if r2 is Ok {
        assert(l2.balance(caller) == l1.balance(caller) - amount);
        assert(l2.balance(to) == l1.balance(to) + amount);
    }
}

/// Why an operation was refused. A refused operation changes nothing.
#[derive(Debug, Clone, Copy, PartialEq, Eq, Structural)]
pub enum TokenError {
    /// Only the owner may mint.
    Unauthorized,
    /// The amount is zero.
    InvalidAmount,
    /// The source and the target of a transfer are the same account.
    SelfTransfer,
    /// The amount exceeds what the account holds.
    InsufficientBalance,
}

impl TokenError {
    /// A sentence that describes the error.
    pub fn message(&self) -> (r: String)
        ensures
            r@ == error_message(*self),
    {
        match self {
            TokenError::Unauthorized => String::from_str("Only the owner can mint tokens"),
            TokenError::InvalidAmount => String::from_str("Amount must be greater than 0"),
            TokenError::SelfTransfer => String::from_str("Cannot transfer to yourself"),
            TokenError::InsufficientBalance => String::from_str("Insufficient balance"),
        }
    }
}

/// The sentence that describes an error.
pub open spec fn error_message(e: TokenError) -> Seq<char> {
    match e {
        TokenError::Unauthorized => "Only the owner can mint tokens"@,
        TokenError::InvalidAmount => "Amount must be greater than 0"@,
        TokenError::SelfTransfer => "Cannot transfer to yourself"@,
        TokenError::InsufficientBalance => "Insufficient balance"@,
    }
}

/// The message of a successful mint.
pub open spec fn mint_message(amount: u64, to: Seq<u8>) -> Seq<char> {
    "Successfully minted "@ + decimal(amount as nat) + " tokens to "@ + principal_text(to)
}

/// The message of a successful transfer.
pub open spec fn transfer_message(amount: u64, from: Seq<u8>, to: Seq<u8>) -> Seq<char> {
    "Transferred "@ + decimal(amount as nat) + " tokens from "@ + principal_text(from) + " to "@
        + principal_text(to)
}

/// The message of a successful burn.
pub open spec fn burn_message(amount: u64) -> Seq<char> {
    "Successfully burned "@ + decimal(amount as nat) + " tokens"@
}

/// The token's metadata.
pub struct TokenInfo {
    pub name: String,
    pub symbol: String,
    /// Informational only: amounts are never scaled by it.
    pub decimals: u8,
    pub total_supply: u64,
}

/// The ledger: an owner, the token's metadata and a balance for each account.
pub struct Ledger {
    owner: Option<Account>,
    info: TokenInfo,
    balances: Vec<Entry>,
}

impl Ledger {
    /// No account has two entries, and the total supply is the sum of all balances.
    pub closed spec fn wf(&self) -> bool {
        &&& keys_unique(self.balances@)
        &&& self.info.total_supply == sum_of(self.balances@)
    }

    /// What the account of bytes `a` holds; 0 for an account never credited.
    pub closed spec fn balance(&self, a: Seq<u8>) -> nat {
        balance_in(self.balances@, a)
    }

    /// The sum of the balances of all accounts, each counted once.
    pub closed spec fn sum_of_balances(&self) -> nat {
        sum_of(self.balances@)
    }

    /// The accounts that hold something, with their balances, in the order of
    /// the ledger's storage.
    pub closed spec fn holders(&self) -> Seq<(Seq<u8>, u64)> {
        positive_entries(self.balances@)
    }

    pub closed spec fn total_supply(&self) -> nat {
        self.info.total_supply as nat
    }

    pub closed spec fn owner(&self) -> Option<Seq<u8>> {
        match self.owner {
            Some(o) => Some(o@),
            None => None,
        }
    }

    pub closed spec fn name(&self) -> Seq<char> {
        self.info.name@
    }

    pub closed spec fn symbol(&self) -> Seq<char> {
        self.info.symbol@
    }

    pub closed spec fn decimals(&self) -> u8 {
        self.info.decimals
    }

    /// Whether the account of bytes `a` is the owner.
    pub open spec fn is_owner(&self, a: Seq<u8>) -> bool {
        self.owner() == Some(a)
    }

    /// The owner and the name, symbol and decimals of `self` and `other` agree.
    pub open spec fn same_metadata(&self, other: &Ledger) -> bool {
        &&& self.owner() == other.owner()
        &&& self.name() == other.name()
        &&& self.symbol() == other.symbol()
        &&& self.decimals() == other.decimals()
    }

    /// A ledger created by `creator`, who becomes its owner, with the default
    /// metadata and no balances.
    pub fn new(creator: Account) -> (r: Ledger)
        ensures
            r.wf(),
            r.owner() == Some(creator@),
            r.name() == "Simple Token"@,
            r.symbol() == "STK"@,
            r.decimals() == 8,
            r.total_supply() == 0,
            forall|a: Seq<u8>| #[trigger] r.balance(a) == 0,
            r.holders() == Seq::<(Seq<u8>, u64)>::empty(),
    {
        Ledger {
            owner: Some(creator),
            info: TokenInfo {
                name: String::from_str("Simple Token"),
                symbol: String::from_str("STK"),
                decimals: 8,
                total_supply: 0,
            },
            balances: Vec::new(),
        }
    }

    /// The index of the entry of `a`, if it has one.
    fn find(&self, a: &Account) -> (r: Option<usize>)
        ensures
            r matches Some(i) ==> i < self.balances@.len() && self.balances@[i as int].0@ == a@,
            r is None ==> forall|i: int|
                0 <= i < self.balances@.len() ==> self.balances@[i].0@ != a@,
    {
        let mut i: usize = 0;
        while i < self.balances.len()
            invariant
                i <= self.balances@.len(),
                forall|k: int| 0 <= k < i ==> self.balances@[k].0@ != a@,
            decreases self.balances@.len() - i,
        {
            if self.balances[i].0.same(a) {
                return Some(i);
            }
            i = i + 1;
        }
        None
    }

    /// What `a` holds, with the index of its entry if it has one.
    fn lookup(&self, a: &Account) -> (r: (Option<usize>, u64))
        requires
            keys_unique(self.balances@),
        ensures
            r.1 == self.balance(a@),
            r.0 matches Some(i) ==> i < self.balances@.len() && self.balances@[i as int].0@ == a@,
            r.0 is None ==> forall|i: int|
                0 <= i < self.balances@.len() ==> self.balances@[i].0@ != a@,
    {
        match self.find(a) {
            Some(i) => {
                proof {
                    lemma_at(self.balances@, i as int);
                }
                (Some(i), self.balances[i].1)
            },
            None => {
                proof {
                    lemma_absent(self.balances@, a@);
                }
                (None, 0)
            },
        }
    }

    /// Sets what `a` holds to `v`, creating its entry if it has none.
    fn store(&mut self, slot: Option<usize>, a: &Account, v: u64)
        requires
            keys_unique(old(self).balances@),
            slot matches Some(i) ==> i < old(self).balances@.len() && old(self).balances@[i as int].0@
                == a@,
            slot is None ==> forall|i: int|
                0 <= i < old(self).balances@.len() ==> old(self).balances@[i].0@ != a@,
        ensures
            keys_unique(final(self).balances@),
            final(self).owner == old(self).owner,
            final(self).info == old(self).info,
            sum_of(final(self).balances@) + old(self).balance(a@) == sum_of(old(self).balances@) + v,
            forall|b: Seq<u8>| #[trigger]
                final(self).balance(b) == if b == a@ {
                    v as nat
                } else {
                    old(self).balance(b)
                },
    {
        let k = a.clone();
        match slot {
            Some(i) => {
                proof {
                    lemma_at(self.balances@, i as int);
                    lemma_set(self.balances@, i as int, k, v);
                }
                self.balances.set(i, (k, v));
            },
            None => {
                proof {
                    lemma_absent(self.balances@, a@);
                    lemma_push(self.balances@, (k, v));
                }
                self.balances.push((k, v));
            },
        }
    }
    /// Mints `amount` new tokens to `to`, where `caller` is the owner.
    pub fn mint(&mut self, caller: &Account, to: &Account, amount: u64) -> (r: Result<
        String,
        TokenError,
    >)
        requires
            old(self).wf(),
            old(self).is_owner(caller@) && amount > 0 ==> old(self).total_supply() + amount
                <= u64::MAX,
        ensures
            final(self).wf(),
            r == Err::<String, TokenError>(TokenError::Unauthorized) <==> !old(self).is_owner(
                caller@,
            ),
            r == Err::<String, TokenError>(TokenError::InvalidAmount) <==> old(self).is_owner(
                caller@,
            ) && amount == 0,
            r is Ok <==> old(self).is_owner(caller@) && amount > 0,
            r is Err ==> *final(self) == *old(self),
            r matches Ok(m) ==> {
                &&& m@ == mint_message(amount, to@)
                &&& final(self).same_metadata(old(self))
                &&& final(self).total_supply() == old(self).total_supply() + amount
                &&& forall|a: Seq<u8>| #[trigger]
                    final(self).balance(a) == if a == to@ {
                        old(self).balance(a) + amount
                    } else {
                        old(self).balance(a) as int
                    }
            },
    {
        let authorized = match &self.owner {
            Some(o) => o.same(caller),
            None => false,
        };
        if !authorized {
            return Err(TokenError::Unauthorized);
        }
        if amount == 0 {
            return Err(TokenError::InvalidAmount);
        }
        let (slot, current) = self.lookup(to);
        proof {
            lemma_balance_le_sum(self.balances@, to@);
        }
        self.info.total_supply = self.info.total_supply + amount;
        self.store(slot, to, current + amount);
        let mut m = String::from_str("Successfully minted ");
        push_decimal(&mut m, amount);
        m.append(" tokens to ");
        m.append(to.to_text().as_str());
        assert(m@ =~= mint_message(amount, to@));
        Ok(m)
    }

    /// Moves `amount` tokens from `caller` to `to`.
    pub fn transfer(&mut self, caller: &Account, to: &Account, amount: u64) -> (r: Result<
        String,
        TokenError,
    >)
        requires
            old(self).wf(),
        ensures
            final(self).wf(),
            transfer_outcome(*old(self), *final(self), caller@, to@, amount, r),
    {
        if amount == 0 {
            return Err(TokenError::InvalidAmount);
        }
        if caller.same(to) {
            return Err(TokenError::SelfTransfer);
        }
        let (from_slot, from_balance) = self.lookup(caller);
        if from_balance < amount {
            return Err(TokenError::InsufficientBalance);
        }
        proof {
            lemma_two_balances(self.balances@, caller@, to@);
        }
        self.store(from_slot, caller, from_balance - amount);
        let (to_slot, to_balance) = self.lookup(to);
        self.store(to_slot, to, to_balance + amount);
        let mut m = String::from_str("Transferred ");
        push_decimal(&mut m, amount);
        m.append(" tokens from ");
        m.append(caller.to_text().as_str());
        m.append(" to ");
        m.append(to.to_text().as_str());
        assert(m@ =~= transfer_message(amount, caller@, to@));
        Ok(m)
    }

    /// Destroys `amount` of the tokens that `caller` holds.
    pub fn burn(&mut self, caller: &Account, amount: u64) -> (r: Result<String, TokenError>)
        requires
            old(self).wf(),
        ensures
            final(self).wf(),
            r == Err::<String, TokenError>(TokenError::InvalidAmount) <==> amount == 0,
            r == Err::<String, TokenError>(TokenError::InsufficientBalance) <==> amount > 0
                && old(self).balance(caller@) < amount,
            r is Ok <==> amount > 0 && amount <= old(self).balance(caller@),
            r is Err ==> *final(self) == *old(self),
            r matches Ok(m) ==> {
                &&& m@ == burn_message(amount)
                &&& final(self).same_metadata(old(self))
                &&& final(self).total_supply() == old(self).total_supply() - amount
                &&& forall|a: Seq<u8>| #[trigger]
                    final(self).balance(a) == if a == caller@ {
                        old(self).balance(a) - amount
                    } else {
                        old(self).balance(a) as int
                    }
            },
    {
        if amount == 0 {
            return Err(TokenError::InvalidAmount);
        }
        let (slot, current) = self.lookup(caller);
        if current < amount {
            return Err(TokenError::InsufficientBalance);
        }
        proof {
            lemma_balance_le_sum(self.balances@, caller@);
        }
        self.info.total_supply = self.info.total_supply - amount;
        self.store(slot, caller, current - amount);
        let mut m = String::from_str("Successfully burned ");
        push_decimal(&mut m, amount);
        m.append(" tokens");
        assert(m@ =~= burn_message(amount));
        Ok(m)
    }
    /// What `account` holds; 0 for an account never credited.
    pub fn balance_of(&self, account: &Account) -> (r: u64)
        requires
            self.wf(),
        ensures
            r == self.balance(account@),
    {
        self.lookup(account).1
    }

    /// What `caller` holds.
    pub fn my_balance(&self, caller: &Account) -> (r: u64)
        requires
            self.wf(),
        ensures
            r == self.balance(caller@),
    {
        self.balance_of(caller)
    }

    /// A copy of the token's metadata.
    pub fn get_token_info(&self) -> (r: TokenInfo)
        ensures
            r.name@ == self.name(),
            r.symbol@ == self.symbol(),
            r.decimals == self.decimals(),
            r.total_supply == self.total_supply(),
    {
        TokenInfo {
            name: self.info.name.clone(),
            symbol: self.info.symbol.clone(),
            decimals: self.info.decimals,
            total_supply: self.info.total_supply,
        }
    }

    /// The owner of the ledger.
    pub fn get_owner(&self) -> (r: Option<Account>)
        ensures
            r matches Some(o) ==> self.owner() == Some(o@),
            r is None ==> self.owner() is None,
    {
        match &self.owner {
            Some(o) => Some(o.clone()),
            None => None,
        }
    }

    /// Every account that holds something, with its balance, in the order of
    /// the ledger's storage.
    pub fn get_all_balances(&self) -> (r: Vec<(Account, u64)>)
        ensures
            entries_view(r@) == self.holders(),
    {
        let mut r: Vec<(Account, u64)> = Vec::new();
        let mut i: usize = 0;
        while i < self.balances.len()
            invariant
                i <= self.balances@.len(),
                entries_view(r@) == positive_entries(self.balances@.take(i as int)),
            decreases self.balances@.len() - i,
        {
            let ghost before = r@;
            let v = self.balances[i].1;
            if v > 0 {
                r.push((self.balances[i].0.clone(), v));
            }
            proof {
                let s = self.balances@;
                assert(s.take(i + 1).drop_last() =~= s.take(i as int));
                if v > 0 {
                    assert(entries_view(r@) =~= entries_view(before).push((s[i as int].0@, v)));
                }
            }
            i = i + 1;
        }
        assert(self.balances@.take(self.balances@.len() as int) =~= self.balances@);
        r
    }
}

} // verus!
