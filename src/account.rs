use vstd::prelude::*;

verus! {

/// The largest number of bytes that an account identity may hold.
pub const MAX_ACCOUNT_BYTES: usize = 29;

/// What `candid::Principal::to_text` returns for the principal of these bytes.
pub uninterp spec fn principal_text(bytes: Seq<u8>) -> Seq<char>;

/// An opaque account identity: the significant bytes of a principal.
pub struct Account {
    bytes: Vec<u8>,
}

impl View for Account {
    type V = Seq<u8>;

    closed spec fn view(&self) -> Seq<u8> {
        self.bytes@
    }
}

impl Account {
    #[verifier::type_invariant]
    closed spec fn fits(self) -> bool {
        self.bytes@.len() <= MAX_ACCOUNT_BYTES
    }

    /// The account of these bytes, or `None` where there are too many of them.
    pub fn from_bytes(bytes: Vec<u8>) -> (r: Option<Account>)
        ensures
            r is Some <==> bytes@.len() <= MAX_ACCOUNT_BYTES,
            r matches Some(a) ==> a@ == bytes@,
    {
        if bytes.len() <= MAX_ACCOUNT_BYTES {
            Some(Account { bytes })
        } else {
            None
        }
    }

    /// The bytes of the account.
    pub fn as_bytes(&self) -> (r: &[u8])
        ensures
            r@ == self@,
    {
        self.bytes.as_slice()
    }

    /// Whether two accounts are the same identity.
    pub fn same(&self, other: &Account) -> (r: bool)
        ensures
            r == (self@ == other@),
    {
        let n = self.bytes.len();
        if n != other.bytes.len() {
            return false;
        }
        let mut i: usize = 0;
        while i < n
            invariant
                n == self.bytes@.len(),
                n == other.bytes@.len(),
                i <= n,
                forall|k: int| 0 <= k < i ==> self.bytes@[k] == other.bytes@[k],
            decreases n - i,
        {
            if self.bytes[i] != other.bytes[i] {
                return false;
            }
            i = i + 1;
        }
        assert(self.bytes@ =~= other.bytes@);
        true
    }

    /// The textual form of the account, as principals are written.
    pub fn to_text(&self) -> (r: String)
        ensures
            r@ == principal_text(self@),
    {
        proof {
            use_type_invariant(self);
        }
        principal_text_of(self.bytes.as_slice())
    }
}

impl Clone for Account {
    fn clone(&self) -> (r: Account)
        ensures
            r@ == self@,
    {
        proof {
            use_type_invariant(self);
        }
        Account { bytes: self.bytes.clone() }
    }
}

impl PartialEq for Account {
    fn eq(&self, other: &Account) -> (r: bool) {
        self.same(other)
    }
}

impl vstd::std_specs::cmp::PartialEqSpecImpl for Account {
    open spec fn obeys_eq_spec() -> bool {
        true
    }

    open spec fn eq_spec(&self, other: &Account) -> bool {
        self@ == other@
    }
}

impl Eq for Account {
}

/// Relies on `candid::Principal::from_slice`, which panics only on more than
/// 29 bytes, and on `Principal::to_text`, whose result depends on the bytes alone.
#[verifier::external_body]
fn principal_text_of(bytes: &[u8]) -> (r: String)
    requires
        bytes@.len() <= MAX_ACCOUNT_BYTES,
    ensures
        r@ == principal_text(bytes@),
{
    candid::Principal::from_slice(bytes).to_text()
}

} // verus!
