//! The stored value type: a closed union of primitive kinds, with per-kind
//! unwrap accessors, host-checked address validation, and a deterministic
//! text rendering used in audit attributes.

use vstd::prelude::*;

use crate::response::ContractError;
use crate::strings::{dec_digits, dec_digits_padded, digit_char};

verus! {

/// A host address: a bech32-style identity string whose format only the host
/// can check. The library treats it as an opaque, already-resolved identity.
#[derive(Debug, PartialEq, Eq)]
pub struct Addr {
    text: String,
}

impl View for Addr {
    type V = Seq<char>;

    closed spec fn view(&self) -> Seq<char> {
        self.text@
    }
}

impl Addr {
    /// Wraps an identity string the host has resolved (or a raw string a
    /// test supplies).
    pub fn new(text: String) -> (r: Addr)
        ensures
            r@ == text@,
    {
        Addr { text }
    }

    pub fn as_str(&self) -> (r: &str)
        ensures
            r@ == self@,
    {
        self.text.as_str()
    }

    pub fn into_string(self) -> (r: String)
        ensures
            r@ == self@,
    {
        self.text
    }

    /// Equality of the underlying identity strings.
    pub fn same_as(&self, other: &Addr) -> (r: bool)
        ensures
            r == (self@ == other@),
    {
        self.text.eq(&other.text)
    }
}

impl Clone for Addr {
    fn clone(&self) -> (r: Self)
        ensures
            r == *self,
    {
        Addr { text: self.text.clone() }
    }
}

/// Number of atomic units per whole unit of a fixed-point decimal.
pub const DECIMAL_FRACTIONAL: u128 = 1_000_000_000_000_000_000;

/// A fixed-point decimal with eighteen fractional digits, counted in atomic
/// units.
#[derive(Debug, PartialEq, Eq)]
pub struct Decimal {
    atomics: u128,
}

impl View for Decimal {
    type V = u128;

    closed spec fn view(&self) -> u128 {
        self.atomics
    }
}

impl Decimal {
    pub fn new(atomics: u128) -> (r: Decimal)
        ensures
            r@ == atomics,
    {
        Decimal { atomics }
    }

    pub fn atomics(&self) -> (r: u128)
        ensures
            r == self@,
    {
        self.atomics
    }
}

impl Clone for Decimal {
    fn clone(&self) -> (r: Self)
        ensures
            r == *self,
    {
        Decimal { atomics: self.atomics }
    }
}

/// The kind tag of a stored value.
#[derive(Clone, Copy, PartialEq, Eq, Structural, Debug)]
pub enum VarKind {
    Str,
    Address,
    Uint128,
    U64,
    Decimal,
    Binary,
}

/// The mathematical value of a [`Variable`].
pub enum VariableView {
    StringValue(Seq<char>),
    AddressValue(Seq<char>),
    UnsignedInt128(u128),
    UnsignedInt64(u64),
    DecimalValue(u128),
    BinaryValue(Seq<u8>),
}

/// A stored value: one of six primitive kinds.
#[derive(Debug, PartialEq, Eq)]
pub enum Variable {
    StringValue(String),
    AddressValue(Addr),
    UnsignedInt128(u128),
    UnsignedInt64(u64),
    DecimalValue(Decimal),
    BinaryValue(Vec<u8>),
}

impl View for Variable {
    type V = VariableView;

    open spec fn view(&self) -> VariableView {
        match self {
            Variable::StringValue(s) => VariableView::StringValue(s@),
            Variable::AddressValue(a) => VariableView::AddressValue(a@),
            Variable::UnsignedInt128(x) => VariableView::UnsignedInt128(*x),
            Variable::UnsignedInt64(x) => VariableView::UnsignedInt64(*x),
            Variable::DecimalValue(d) => VariableView::DecimalValue(d@),
            Variable::BinaryValue(b) => VariableView::BinaryValue(b@),
        }
    }
}

/// The kind tag of a value.
pub open spec fn spec_kind_of(v: VariableView) -> VarKind {
    match v {
        VariableView::StringValue(_) => VarKind::Str,
        VariableView::AddressValue(_) => VarKind::Address,
        VariableView::UnsignedInt128(_) => VarKind::Uint128,
        VariableView::UnsignedInt64(_) => VarKind::U64,
        VariableView::DecimalValue(_) => VarKind::Decimal,
        VariableView::BinaryValue(_) => VarKind::Binary,
    }
}

/// The hexadecimal digit character for a value below sixteen.
pub open spec fn hex_digit(d: int) -> char
    recommends
        0 <= d < 16,
{
    if d < 10 {
        digit_char(d)
    } else {
        ((d + 0x57) as u8) as char
    }
}

/// Lowercase hexadecimal rendering of a byte sequence, two digits per byte.
pub open spec fn hex_of(b: Seq<u8>) -> Seq<char>
    decreases b.len(),
{
    if b.len() == 0 {
        Seq::empty()
    } else {
        hex_of(b.drop_last()) + seq![
            hex_digit(b.last() as int / 16),
            hex_digit(b.last() as int % 16),
        ]
    }
}

/// Decimal digits of a fixed-point value: the whole part, then, when the
/// fractional part is not zero, a point and the fractional digits with
/// trailing zeros removed.
pub open spec fn spec_render_decimal(atomics: u128) -> Seq<char> {
    let whole = atomics as nat / (DECIMAL_FRACTIONAL as nat);
    let frac = atomics as nat % (DECIMAL_FRACTIONAL as nat);
    if frac == 0 {
        dec_digits(whole)
    } else {
        dec_digits(whole) + seq!['.'] + trim_trailing_zeros(dec_digits_padded(frac, 18))
    }
}

/// Removes every trailing `'0'`.
pub open spec fn trim_trailing_zeros(s: Seq<char>) -> Seq<char>
    decreases s.len(),
{
    if s.len() == 0 {
        s
    } else if s.last() == '0' {
        trim_trailing_zeros(s.drop_last())
    } else {
        s
    }
}

/// The deterministic text rendering of a value, as it appears in audit
/// attributes.
pub open spec fn spec_render(v: VariableView) -> Seq<char> {
    match v {
        VariableView::StringValue(s) => s,
        VariableView::AddressValue(a) => a,
        VariableView::UnsignedInt128(x) => dec_digits(x as nat),
        VariableView::UnsignedInt64(x) => dec_digits(x as nat),
        VariableView::DecimalValue(a) => spec_render_decimal(a),
        VariableView::BinaryValue(b) => hex_of(b),
    }
}

impl Clone for Variable {
    fn clone(&self) -> (r: Self)
        ensures
            r@ == self@,
    {
        match self {
            Variable::StringValue(s) => Variable::StringValue(s.clone()),
            Variable::AddressValue(a) => Variable::AddressValue(a.clone()),
            Variable::UnsignedInt128(x) => Variable::UnsignedInt128(*x),
            Variable::UnsignedInt64(x) => Variable::UnsignedInt64(*x),
            Variable::DecimalValue(d) => Variable::DecimalValue(d.clone()),
            Variable::BinaryValue(b) => Variable::BinaryValue(clone_bytes(b)),
        }
    }
}

/// Copies a byte vector element by element.
pub fn clone_bytes(v: &Vec<u8>) -> (r: Vec<u8>)
    ensures
        r@ == v@,
{
    let mut r: Vec<u8> = Vec::new();
    let mut i: usize = 0;
    while i < v.len()
        invariant
            0 <= i <= v@.len(),
            r@ == v@.subrange(0, i as int),
        decreases v@.len() - i,
    {
        r.push(v[i]);
        i = i + 1;
        proof {
            assert(r@ =~= v@.subrange(0, i as int));
        }
    }
    proof {
        assert(r@ =~= v@);
    }
    r
}

impl Variable {
    /// The kind tag of this value.
    pub fn kind(&self) -> (r: VarKind)
        ensures
            r == spec_kind_of(self@),
    {
        match self {
            Variable::StringValue(_) => VarKind::Str,
            Variable::AddressValue(_) => VarKind::Address,
            Variable::UnsignedInt128(_) => VarKind::Uint128,
            Variable::UnsignedInt64(_) => VarKind::U64,
            Variable::DecimalValue(_) => VarKind::Decimal,
            Variable::BinaryValue(_) => VarKind::Binary,
        }
    }

    /// Validates this value against the host's address-format verdict.
    ///
    /// Only an address payload is constrained; `addr_format_ok` is the host
    /// validator's answer for that payload (it is ignored for every other
    /// kind, whose values are structurally valid by construction).
    pub fn validate(self, addr_format_ok: bool) -> (r: Result<Variable, ContractError>)
        ensures
            match self@ {
                VariableView::AddressValue(a) => if addr_format_ok {
                    r matches Ok(v) && v@ == self@
                } else {
                    r matches Err(e) && e@ == crate::response::ErrorView::InvalidAddress(a)
                },
                _ => r matches Ok(v) && v@ == self@,
            },
    {
        if let Variable::AddressValue(a) = &self {
            if !addr_format_ok {
                return Err(ContractError::InvalidAddress { raw: a.as_str().to_owned() });
            }
        }
        Ok(self)
    }

    pub fn unwrap_string(&self) -> (r: Result<String, ContractError>)
        ensures
            match self@ {
                VariableView::StringValue(s) => r matches Ok(v) && v@ == s,
                _ => r == Err::<String, ContractError>(
                    ContractError::TypeMismatch { expected: VarKind::Str, actual: spec_kind_of(self@) },
                ),
            },
    {
        if let Variable::StringValue(s) = self {
            Ok(s.clone())
        } else {
            Err(ContractError::TypeMismatch { expected: VarKind::Str, actual: self.kind() })
        }
    }

    pub fn unwrap_addr(&self) -> (r: Result<Addr, ContractError>)
        ensures
            match self@ {
                VariableView::AddressValue(a) => r matches Ok(v) && v@ == a,
                _ => r == Err::<Addr, ContractError>(
                    ContractError::TypeMismatch { expected: VarKind::Address, actual: spec_kind_of(self@) },
                ),
            },
    {
        if let Variable::AddressValue(a) = self {
            Ok(a.clone())
        } else {
            Err(ContractError::TypeMismatch { expected: VarKind::Address, actual: self.kind() })
        }
    }

    pub fn unwrap_uint128(&self) -> (r: Result<u128, ContractError>)
        ensures
            match self@ {
                VariableView::UnsignedInt128(x) => r == Ok::<u128, ContractError>(x),
                _ => r == Err::<u128, ContractError>(
                    ContractError::TypeMismatch { expected: VarKind::Uint128, actual: spec_kind_of(self@) },
                ),
            },
    {
        if let Variable::UnsignedInt128(x) = self {
            Ok(*x)
        } else {
            Err(ContractError::TypeMismatch { expected: VarKind::Uint128, actual: self.kind() })
        }
    }

    pub fn unwrap_u64(&self) -> (r: Result<u64, ContractError>)
        ensures
            match self@ {
                VariableView::UnsignedInt64(x) => r == Ok::<u64, ContractError>(x),
                _ => r == Err::<u64, ContractError>(
                    ContractError::TypeMismatch { expected: VarKind::U64, actual: spec_kind_of(self@) },
                ),
            },
    {
        if let Variable::UnsignedInt64(x) = self {
            Ok(*x)
        } else {
            Err(ContractError::TypeMismatch { expected: VarKind::U64, actual: self.kind() })
        }
    }

    pub fn unwrap_decimal(&self) -> (r: Result<Decimal, ContractError>)
        ensures
            match self@ {
                VariableView::DecimalValue(a) => r matches Ok(v) && v@ == a,
                _ => r == Err::<Decimal, ContractError>(
                    ContractError::TypeMismatch { expected: VarKind::Decimal, actual: spec_kind_of(self@) },
                ),
            },
    {
        if let Variable::DecimalValue(d) = self {
            Ok(d.clone())
        } else {
            Err(ContractError::TypeMismatch { expected: VarKind::Decimal, actual: self.kind() })
        }
    }

    /// The raw bytes of a binary value. Decoding them into a structured type
    /// is the caller's concern (the host's codec performs it).
    pub fn unwrap_binary(&self) -> (r: Result<Vec<u8>, ContractError>)
        ensures
            match self@ {
                VariableView::BinaryValue(b) => r matches Ok(v) && v@ == b,
                _ => r == Err::<Vec<u8>, ContractError>(
                    ContractError::TypeMismatch { expected: VarKind::Binary, actual: spec_kind_of(self@) },
                ),
            },
    {
        if let Variable::BinaryValue(b) = self {
            Ok(clone_bytes(b))
        } else {
            Err(ContractError::TypeMismatch { expected: VarKind::Binary, actual: self.kind() })
        }
    }

    /// Renders this value as the deterministic text used in attributes.
    pub fn render(&self) -> (r: String)
        ensures
            r@ == spec_render(self@),
    {
        match self {
            Variable::StringValue(s) => s.clone(),
            Variable::AddressValue(a) => a.as_str().to_owned(),
            Variable::UnsignedInt128(x) => crate::strings::u128_to_dec_string(*x),
            Variable::UnsignedInt64(x) => crate::strings::u128_to_dec_string(*x as u128),
            Variable::DecimalValue(d) => render_decimal(d.atomics()),
            Variable::BinaryValue(b) => render_hex(b),
        }
    }
}

/// Renders a byte sequence as lowercase hexadecimal text.
pub fn render_hex(b: &Vec<u8>) -> (r: String)
    ensures
        r@ == hex_of(b@),
{
    let mut out: String = String::new();
    let mut i: usize = 0;
    while i < b.len()
        invariant
            0 <= i <= b@.len(),
            out@ == hex_of(b@.subrange(0, i as int)),
        decreases b@.len() - i,
    {
        let byte = b[i];
        let hi: u8 = byte / 16;
        let lo: u8 = byte % 16;
        let ch: char = (if hi < 10 {
            hi + 0x30
        } else {
            hi + 0x57
        }) as char;
        let cl: char = (if lo < 10 {
            lo + 0x30
        } else {
            lo + 0x57
        }) as char;
        out.push(ch);
        out.push(cl);
        i = i + 1;
        proof {
            let pre = b@.subrange(0, i as int);
            assert(pre.drop_last() =~= b@.subrange(0, i as int - 1));
            assert(pre.last() == b@[i as int - 1]);
            assert(out@ =~= hex_of(pre));
        }
    }
    proof {
        assert(b@.subrange(0, b@.len() as int) =~= b@);
    }
    out
}

/// Renders a fixed-point decimal: whole part, and the nonzero fractional
/// digits after a point.
pub fn render_decimal(atomics: u128) -> (r: String)
    ensures
        r@ == spec_render_decimal(atomics),
{
    let whole: u128 = atomics / DECIMAL_FRACTIONAL;
    let frac: u128 = atomics % DECIMAL_FRACTIONAL;
    let mut out = crate::strings::u128_to_dec_string(whole);
    if frac == 0 {
        return out;
    }
    let mut digits: Vec<char> = crate::strings::u128_to_dec_chars_padded(frac, 18);
    loop
        invariant_except_break
            trim_trailing_zeros(dec_digits_padded(frac as nat, 18)) == trim_trailing_zeros(
                digits@,
            ),
        ensures
            trim_trailing_zeros(dec_digits_padded(frac as nat, 18)) == digits@,
        decreases digits@.len(),
    {
        if digits.len() == 0 {
            proof {
                assert(trim_trailing_zeros(digits@) == digits@);
            }
            break ;
        }
        let last = digits[digits.len() - 1];
        if last as u32 == 0x30 {
            proof {
                vstd::utf8::char_u32_cast(last, last as u32);
                vstd::utf8::char_u32_cast('0', '0' as u32);
                assert(last == '0');
                assert(trim_trailing_zeros(digits@) == trim_trailing_zeros(digits@.drop_last()));
            }
            let _ = digits.pop();
        } else {
            proof {
                assert(last != '0') by {
                    vstd::utf8::char_u32_cast(last, last as u32);
                }
                assert(trim_trailing_zeros(digits@) == digits@);
            }
            break ;
        }
    }
    out.push('.');
    let mut i: usize = 0;
    while i < digits.len()
        invariant
            0 <= i <= digits@.len(),
            out@ == dec_digits((atomics / DECIMAL_FRACTIONAL) as nat) + seq!['.'] + digits@.subrange(
                0,
                i as int,
            ),
        decreases digits@.len() - i,
    {
        out.push(digits[i]);
        i = i + 1;
        proof {
            assert(dec_digits((atomics / DECIMAL_FRACTIONAL) as nat) + seq!['.'] + digits@.subrange(
                0,
                i as int,
            ) =~= (dec_digits((atomics / DECIMAL_FRACTIONAL) as nat) + seq!['.'] + digits@.subrange(
                0,
                i as int - 1,
            )).push(digits@[i as int - 1]));
        }
    }
    proof {
        assert(digits@.subrange(0, digits@.len() as int) =~= digits@);
        assert(out@ =~= spec_render_decimal(atomics));
    }
    out
}

} // verus!
