//! Results of handled requests: audit attributes on success, and the typed
//! error taxonomy on failure, each error with a deterministic text message.

use vstd::prelude::*;

use crate::values::{spec_kind_of, Addr, VarKind, Variable, VariableView};

verus! {

use vstd::string::StringExecFns;

/// One audit attribute: a key/value pair of strings.
#[derive(Debug, PartialEq, Eq)]
pub struct Attribute {
    pub key: String,
    pub value: String,
}

impl View for Attribute {
    type V = (Seq<char>, Seq<char>);

    open spec fn view(&self) -> (Seq<char>, Seq<char>) {
        (self.key@, self.value@)
    }
}

impl Clone for Attribute {
    fn clone(&self) -> (r: Self)
        ensures
            r@ == self@,
    {
        Attribute { key: self.key.clone(), value: self.value.clone() }
    }
}

/// Builds one attribute from a literal key and an owned value.
pub fn attr(key: &str, value: String) -> (r: Attribute)
    ensures
        r@ == (key@, value@),
{
    Attribute { key: String::from_str(key), value }
}

/// The observable outcome of a successful mutating request: an ordered list
/// of audit attributes.
#[derive(Debug, PartialEq, Eq)]
pub struct Response {
    pub attributes: Vec<Attribute>,
}

/// The attribute pairs of an attribute sequence.
pub open spec fn attrs_view(s: Seq<Attribute>) -> Seq<(Seq<char>, Seq<char>)> {
    Seq::new(s.len(), |i: int| s[i]@)
}

impl View for Response {
    type V = Seq<(Seq<char>, Seq<char>)>;

    open spec fn view(&self) -> Seq<(Seq<char>, Seq<char>)> {
        attrs_view(self.attributes@)
    }
}

impl Response {
    pub fn new() -> (r: Response)
        ensures
            r@ == Seq::<(Seq<char>, Seq<char>)>::empty(),
    {
        let r = Response { attributes: Vec::new() };
        proof {
            assert(r@ =~= Seq::<(Seq<char>, Seq<char>)>::empty());
        }
        r
    }

    pub fn add_attribute(self, key: &str, value: String) -> (r: Response)
        ensures
            r@ == self@.push((key@, value@)),
    {
        let ghost pre = self@;
        let mut attributes = self.attributes;
        attributes.push(Attribute { key: String::from_str(key), value });
        let r = Response { attributes };
        proof {
            assert(r@ =~= pre.push((key@, value@)));
        }
        r
    }

    pub fn add_attributes(self, attrs: Vec<Attribute>) -> (r: Response)
        ensures
            r@ == self@ + attrs_view(attrs@),
    {
        let ghost pre = self@;
        let ghost extra = attrs_view(attrs@);
        let mut attributes = self.attributes;
        let mut i: usize = 0;
        let attrs = attrs;
        proof {
            assert(attrs_view(attributes@) =~= pre + extra.subrange(0, 0));
        }
        while i < attrs.len()
            invariant
                0 <= i <= attrs@.len(),
                extra == attrs_view(attrs@),
                attrs_view(attributes@) == pre + extra.subrange(0, i as int),
            decreases attrs@.len() - i,
        {
            let ghost snap = attributes@;
            let a = Attribute { key: attrs[i].key.clone(), value: attrs[i].value.clone() };
            proof {
                assert(a@ == attrs@[i as int]@);
            }
            attributes.push(a);
            i = i + 1;
            proof {
                let whole = pre + extra.subrange(0, i as int);
                assert(attrs_view(attributes@).len() == attributes@.len());
                assert(attrs_view(snap).len() == snap.len());
                assert(snap.len() == pre.len() + (i - 1));
                assert(whole.len() == pre.len() + i);
                assert forall|j: int| 0 <= j < attributes@.len() implies #[trigger] attrs_view(
                    attributes@,
                )[j] == whole[j] by {
                    let prior = pre + extra.subrange(0, i as int - 1);
                    assert(extra.len() == attrs@.len());
                    assert(attrs_view(snap).len() == snap.len());
                    assert(attrs_view(attributes@).len() == attributes@.len());
                    assert(extra.subrange(0, i as int).len() == i as int);
                    assert(snap.len() == pre.len() + (i - 1));
                    assert(whole.len() == pre.len() + i);
                    assert(attrs_view(attributes@)[j] == attributes@[j]@);
                    if j < snap.len() {
                        assert(attributes@[j] == snap[j]);
                        assert(attrs_view(snap)[j] == snap[j]@);
                        assert(attrs_view(snap)[j] == prior[j]);
                        if j < pre.len() {
                            assert(whole[j] == pre[j]);
                            assert(prior[j] == pre[j]);
                        } else {
                            assert(whole[j] == extra.subrange(0, i as int)[j - pre.len() as int]);
                            assert(whole[j] == extra[j - pre.len() as int]);
                            assert(prior[j] == extra[j - pre.len() as int]);
                        }
                    } else {
                        assert(j == snap.len());
                        assert(attributes@[j]@ == extra[i - 1]);
                        assert(whole[j] == extra.subrange(0, i as int)[j - pre.len() as int]);
                        assert(j - pre.len() == i - 1);
                        assert(whole[j] == extra[i - 1]);
                    }
                }
                assert(attrs_view(attributes@) =~= whole);
            }
        }
        let r = Response { attributes };
        proof {
            assert(extra.subrange(0, extra.len() as int) =~= extra);
            assert(r@ =~~= pre + extra);
        }
        r
    }
}

/// The mathematical value of a [`ContractError`].
pub enum ErrorView {
    Unauthorized(Seq<char>),
    KeyAlreadyRegistered(Seq<char>, VariableView),
    KeyNotFound(Seq<char>),
    InvalidUpdateOwnerMsg,
    IsAlreadyOwner(Seq<char>),
    IsNotOwner(Seq<char>),
    EmptyOwnerSet,
    InvalidAddress(Seq<char>),
    TypeMismatch(VarKind, VarKind),
    Decode,
}

/// Every failure a request can surface. Each aborts the whole request; no
/// partial mutation is kept.
#[derive(Debug)]
pub enum ContractError {
    /// The caller of a mutating request is not an owner.
    Unauthorized { addr: Addr },
    /// A registration named a key that is already present; carries the value
    /// stored under it.
    KeyAlreadyRegistered { key: String, value: Variable },
    /// An update, removal or lookup named an absent key.
    KeyNotFound { key: String },
    /// An owner update carried neither additions nor removals.
    InvalidUpdateOwnerMsg,
    /// An owner addition named an address that is already an owner.
    IsAlreadyOwner { addr: Addr },
    /// An owner removal named an address that is not an owner.
    IsNotOwner { addr: Addr },
    /// An owner update would leave no owner at all.
    EmptyOwnerSet,
    /// The host's validator rejected an address string.
    InvalidAddress { raw: String },
    /// A typed accessor was called on a value of another kind.
    TypeMismatch { expected: VarKind, actual: VarKind },
    /// A serialized value did not decode.
    Decode,
}

impl View for ContractError {
    type V = ErrorView;

    open spec fn view(&self) -> ErrorView {
        match self {
            ContractError::Unauthorized { addr } => ErrorView::Unauthorized(addr@),
            ContractError::KeyAlreadyRegistered { key, value } => ErrorView::KeyAlreadyRegistered(
                key@,
                value@,
            ),
            ContractError::KeyNotFound { key } => ErrorView::KeyNotFound(key@),
            ContractError::InvalidUpdateOwnerMsg => ErrorView::InvalidUpdateOwnerMsg,
            ContractError::IsAlreadyOwner { addr } => ErrorView::IsAlreadyOwner(addr@),
            ContractError::IsNotOwner { addr } => ErrorView::IsNotOwner(addr@),
            ContractError::EmptyOwnerSet => ErrorView::EmptyOwnerSet,
            ContractError::InvalidAddress { raw } => ErrorView::InvalidAddress(raw@),
            ContractError::TypeMismatch { expected, actual } => ErrorView::TypeMismatch(
                *expected,
                *actual,
            ),
            ContractError::Decode => ErrorView::Decode,
        }
    }
}

/// The text label of a kind, as error messages spell it.
pub open spec fn spec_kind_label(k: VarKind) -> Seq<char> {
    match k {
        VarKind::Str => "String"@,
        VarKind::Address => "Addr"@,
        VarKind::Uint128 => "Uint128"@,
        VarKind::U64 => "u64"@,
        VarKind::Decimal => "Decimal"@,
        VarKind::Binary => "Binary"@,
    }
}

/// The text message of an error.
pub open spec fn spec_message(e: ErrorView) -> Seq<char> {
    match e {
        ErrorView::Unauthorized(a) => a + " is not an owner"@,
        ErrorView::KeyAlreadyRegistered(k, _) => "Key "@ + k + " already registered"@,
        ErrorView::KeyNotFound(k) => "Key not found: "@ + k,
        ErrorView::InvalidUpdateOwnerMsg => "Empty update owner msg"@,
        ErrorView::IsAlreadyOwner(a) => "Address is alredy a owner: "@ + a,
        ErrorView::IsNotOwner(a) => "Address is not a owner: "@ + a,
        ErrorView::EmptyOwnerSet => "Invalid 0 owners. Needed at least 1"@,
        ErrorView::InvalidAddress(r) => "Invalid address: "@ + r,
        ErrorView::TypeMismatch(expected, _) => "Variable is not "@ + spec_kind_label(expected),
        ErrorView::Decode => "Invalid binary encoding"@,
    }
}

impl VarKind {
    /// The text label of this kind.
    pub fn label(&self) -> (r: &'static str)
        ensures
            r@ == spec_kind_label(*self),
    {
        match self {
            VarKind::Str => "String",
            VarKind::Address => "Addr",
            VarKind::Uint128 => "Uint128",
            VarKind::U64 => "u64",
            VarKind::Decimal => "Decimal",
            VarKind::Binary => "Binary",
        }
    }
}

impl ContractError {
    /// The deterministic text of this error, as the host surfaces it.
    pub fn message(&self) -> (r: String)
        ensures
            r@ == spec_message(self@),
    {
        match self {
            ContractError::Unauthorized { addr } => addr.as_str().to_owned().concat(
                " is not an owner",
            ),
            ContractError::KeyAlreadyRegistered { key, value: _ } => String::from_str(
                "Key ",
            ).concat(key.as_str()).concat(" already registered"),
            ContractError::KeyNotFound { key } => String::from_str("Key not found: ").concat(
                key.as_str(),
            ),
            ContractError::InvalidUpdateOwnerMsg => String::from_str("Empty update owner msg"),
            ContractError::IsAlreadyOwner { addr } => String::from_str(
                "Address is alredy a owner: ",
            ).concat(addr.as_str()),
            ContractError::IsNotOwner { addr } => String::from_str(
                "Address is not a owner: ",
            ).concat(addr.as_str()),
            ContractError::EmptyOwnerSet => String::from_str(
                "Invalid 0 owners. Needed at least 1",
            ),
            ContractError::InvalidAddress { raw } => String::from_str("Invalid address: ").concat(
                raw.as_str(),
            ),
            ContractError::TypeMismatch { expected, actual: _ } => String::from_str(
                "Variable is not ",
            ).concat(expected.label()),
            ContractError::Decode => String::from_str("Invalid binary encoding"),
        }
    }
}

/// A handled mutating request: attributes, or the error that aborted it.
pub type ContractResponse = Result<Response, ContractError>;

/// A handled step: a value, or the error that aborted the request.
pub type ContractResult<T> = Result<T, ContractError>;

} // verus!
