//! Callers and the websites they own.
use vstd::prelude::*;

verus! {

/// An opaque caller identity: the byte form of a principal.
#[derive(Clone, Debug, PartialEq, Eq, Hash)]
pub struct Identity {
    pub bytes: Vec<u8>,
}

impl View for Identity {
    type V = Seq<u8>;

    open spec fn view(&self) -> Seq<u8> {
        self.bytes@
    }
}

/// A stakeable listing: its owner and its link.
#[derive(Clone, Debug, PartialEq, Eq, Hash)]
pub struct Website {
    pub owner: Identity,
    pub link: String,
}

impl View for Website {
    type V = (Seq<u8>, Seq<char>);

    open spec fn view(&self) -> (Seq<u8>, Seq<char>) {
        (self.owner@, self.link@)
    }
}

/// Errors that abort a request; no state changes when one is returned.
#[derive(Clone, Debug, PartialEq, Eq)]
pub enum SearchError {
    AnonymousNotAllowed,
    NotOwner,
    InsufficientStake(String),
    InsufficientUnstakedBalance,
    InsufficientAvailableCredits(String),
    InvalidPageSize,
}

/// The byte form of the anonymous principal.
pub open spec fn anonymous_bytes() -> Seq<u8> {
    seq![4u8]
}

/// What the textual form of a principal decodes to, if it is valid.
pub uninterp spec fn principal_from_text(text: Seq<char>) -> Option<Seq<u8>>;

/// Relies on `candid::Principal::anonymous` and `Principal::as_slice`: the
/// anonymous principal is the single tag byte 4.
#[verifier::external_body]
fn anonymous_identity() -> (r: Identity)
    ensures
        r@ == anonymous_bytes(),
{
    Identity { bytes: candid::Principal::anonymous().as_slice().to_vec() }
}

/// Relies on `candid::Principal::from_text`: decodes the textual form
/// (base32 with a CRC-32 check), at most 29 bytes on success.
#[verifier::external_body]
fn principal_text_to_identity(text: &str) -> (r: Option<Identity>)
    ensures
        match r {
            Some(id) => principal_from_text(text@) == Some(id@) && id@.len() <= 29,
            None => principal_from_text(text@) is None,
        },
{
    match candid::Principal::from_text(text) {
        Ok(p) => Some(Identity { bytes: p.as_slice().to_vec() }),
        Err(_) => None,
    }
}

/// Parses the textual form of a principal into an identity.
pub fn parse_identity(text: &str) -> (r: Option<Identity>)
    ensures
        match r {
            Some(id) => principal_from_text(text@) == Some(id@),
            None => principal_from_text(text@) is None,
        },
{
    principal_text_to_identity(text)
}

pub fn same_bytes(a: &Vec<u8>, b: &Vec<u8>) -> (r: bool)
    ensures
        r == (a@ == b@),
{
    if a.len() != b.len() {
        return false;
    }
    let mut i: usize = 0;
    while i < a.len()
        invariant
            a.len() == b.len(),
            i <= a.len(),
            forall|j: int| 0 <= j < i ==> a@[j] == b@[j],
        decreases a.len() - i,
    {
        if a[i] != b[i] {
            return false;
        }
        i = i + 1;
    }
    assert(a@ =~= b@);
    true
}

impl Identity {
    pub fn same(&self, other: &Identity) -> (r: bool)
        ensures
            r == (self@ == other@),
    {
        same_bytes(&self.bytes, &other.bytes)
    }

    /// A copy with the same bytes.
    pub fn copy(&self) -> (r: Identity)
        ensures
            r@ == self@,
    {
        let mut bytes: Vec<u8> = Vec::new();
        let mut i: usize = 0;
        while i < self.bytes.len()
            invariant
                i <= self.bytes.len(),
                bytes@ =~= self.bytes@.take(i as int),
            decreases self.bytes.len() - i,
        {
            bytes.push(self.bytes[i]);
            i = i + 1;
        }
        assert(bytes@ =~= self.bytes@);
        Identity { bytes }
    }

    /// Whether this is the anonymous principal.
    pub fn is_anonymous(&self) -> (r: bool)
        ensures
            r == (self@ == anonymous_bytes()),
    {
        let anon = anonymous_identity();
        self.same(&anon)
    }
}

impl Website {
    pub fn same(&self, other: &Website) -> (r: bool)
        ensures
            r == (self@ == other@),
    {
        self.owner.same(&other.owner) && self.link == other.link
    }

    pub fn copy(&self) -> (r: Website)
        ensures
            r@ == self@,
    {
        Website { owner: self.owner.copy(), link: self.link.clone() }
    }
}

/// Resolves the caller of a request: the anonymous principal may neither
/// change state nor read a balance.
pub fn resolve_caller(caller: &Identity) -> (r: Result<Identity, SearchError>)
    ensures
        caller@ == anonymous_bytes() ==> r == Err::<Identity, SearchError>(
            SearchError::AnonymousNotAllowed,
        ),
        caller@ != anonymous_bytes() ==> r is Ok && r->Ok_0@ == caller@,
{
    if caller.is_anonymous() {
        Err(SearchError::AnonymousNotAllowed)
    } else {
        Ok(caller.copy())
    }
}

/// The link under which a canister, given by its principal's text, is served.
pub fn principal_to_link(principal: &str) -> (r: String)
    ensures
        r@ == "https://"@ + principal@ + ".ic0.app"@,
{
    let s = String::from_str("https://");
    let s = s.concat(principal);
    s.concat(".ic0.app")
}

} // verus!
