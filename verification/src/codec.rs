//! A byte codec for stored values: a kind tag, then a fixed or
//! length-prefixed payload, little-endian throughout. Deserialization
//! accepts exactly the encodings serialization produces, and the round trip
//! is proved: decoding an encoding yields the encoded value.

use vstd::prelude::*;

use crate::response::{ContractError, ErrorView};
use crate::values::{Addr, Variable, VariableView};

verus! {

use vstd::bytes::{
    lemma_auto_spec_u128_to_from_le_bytes, lemma_auto_spec_u32_to_from_le_bytes,
    lemma_auto_spec_u64_to_from_le_bytes, spec_u128_from_le_bytes, spec_u128_to_le_bytes,
    spec_u32_from_le_bytes, spec_u32_to_le_bytes, spec_u64_from_le_bytes, spec_u64_to_le_bytes,
    u128_from_le_bytes, u128_to_le_bytes, u32_from_le_bytes, u32_to_le_bytes, u64_from_le_bytes,
    u64_to_le_bytes,
};
use vstd::slice::slice_subrange;
use vstd::string::StrSliceExecFns;
use vstd::utf8::is_scalar;

/// Relies on `core::char::from_u32`: a code point converts exactly when it
/// is a Unicode scalar value (below the surrogate range or between it and
/// the maximum), and converts to the character with that code point.
pub assume_specification [ char::from_u32 ](i: u32) -> (r: Option<char>)
    ensures
        r is Some <==> is_scalar(i),
        r matches Some(c) ==> c as u32 == i,
;

/// Each character as its code point, four little-endian bytes apiece.
pub open spec fn enc_chars(s: Seq<char>) -> Seq<u8>
    decreases s.len(),
{
    if s.len() == 0 {
        Seq::empty()
    } else {
        enc_chars(s.drop_last()) + spec_u32_to_le_bytes(s.last() as u32)
    }
}

/// `enc_chars` spends four bytes per character.
pub proof fn lemma_enc_chars_len(s: Seq<char>)
    ensures
        enc_chars(s).len() == 4 * s.len(),
    decreases s.len(),
{
    lemma_auto_spec_u32_to_from_le_bytes();
    if s.len() > 0 {
        lemma_enc_chars_len(s.drop_last());
    }
}

/// `enc_chars` also unfolds from the front.
pub proof fn lemma_enc_chars_front(s: Seq<char>)
    requires
        s.len() > 0,
    ensures
        enc_chars(s) == spec_u32_to_le_bytes(s[0] as u32) + enc_chars(s.drop_first()),
    decreases s.len(),
{
    if s.len() == 1 {
        assert(s.drop_last() =~= Seq::<char>::empty());
        assert(s.drop_first() =~= Seq::<char>::empty());
        assert(s.last() == s[0]);
        assert(enc_chars(s) =~= spec_u32_to_le_bytes(s[0] as u32) + enc_chars(s.drop_first()));
    } else {
        let head = s.drop_last();
        lemma_enc_chars_front(head);
        assert(head.drop_first() =~= s.drop_first().drop_last());
        assert(s.drop_first().last() == s.last());
        assert(enc_chars(s.drop_first()) == enc_chars(s.drop_first().drop_last())
            + spec_u32_to_le_bytes(s.drop_first().last() as u32));
        assert(enc_chars(s) =~= spec_u32_to_le_bytes(s[0] as u32) + enc_chars(s.drop_first()));
    }
}

/// A character-count prefix, then the characters.
pub open spec fn enc_str(s: Seq<char>) -> Seq<u8> {
    spec_u64_to_le_bytes(s.len() as u64) + enc_chars(s)
}

/// The encoding of a value: its tag byte, then its payload.
pub open spec fn spec_serialize(v: VariableView) -> Seq<u8> {
    match v {
        VariableView::StringValue(s) => seq![0u8] + enc_str(s),
        VariableView::AddressValue(a) => seq![1u8] + enc_str(a),
        VariableView::UnsignedInt128(x) => seq![2u8] + spec_u128_to_le_bytes(x),
        VariableView::UnsignedInt64(x) => seq![3u8] + spec_u64_to_le_bytes(x),
        VariableView::DecimalValue(d) => seq![4u8] + spec_u128_to_le_bytes(d),
        VariableView::BinaryValue(b) => seq![5u8] + spec_u64_to_le_bytes(b.len() as u64) + b,
    }
}

/// Decodes `n` characters from `b`, which must hold exactly their bytes.
pub open spec fn dec_chars(b: Seq<u8>, n: nat) -> Option<Seq<char>>
    decreases n,
{
    if n == 0 {
        if b.len() == 0 {
            Some(Seq::empty())
        } else {
            None
        }
    } else if b.len() < 4 {
        None
    } else {
        let u = spec_u32_from_le_bytes(b.subrange(0, 4));
        if is_scalar(u) {
            match dec_chars(b.skip(4), (n - 1) as nat) {
                Some(cs) => Some(seq![u as char] + cs),
                None => None,
            }
        } else {
            None
        }
    }
}

/// Decodes a length-prefixed character sequence that fills `b` exactly.
pub open spec fn dec_str(b: Seq<u8>) -> Option<Seq<char>> {
    if b.len() < 8 {
        None
    } else {
        let n = spec_u64_from_le_bytes(b.subrange(0, 8));
        let body = b.skip(8);
        if body.len() == 4 * n {
            dec_chars(body, n as nat)
        } else {
            None
        }
    }
}

/// The value a byte sequence encodes, when it is exactly one encoding.
pub open spec fn spec_deserialize(b: Seq<u8>) -> Option<VariableView> {
    if b.len() < 1 {
        None
    } else {
        let rest = b.drop_first();
        if b[0] == 0u8 {
            match dec_str(rest) {
                Some(s) => Some(VariableView::StringValue(s)),
                None => None,
            }
        } else if b[0] == 1u8 {
            match dec_str(rest) {
                Some(s) => Some(VariableView::AddressValue(s)),
                None => None,
            }
        } else if b[0] == 2u8 {
            if rest.len() == 16 {
                Some(VariableView::UnsignedInt128(spec_u128_from_le_bytes(rest)))
            } else {
                None
            }
        } else if b[0] == 3u8 {
            if rest.len() == 8 {
                Some(VariableView::UnsignedInt64(spec_u64_from_le_bytes(rest)))
            } else {
                None
            }
        } else if b[0] == 4u8 {
            if rest.len() == 16 {
                Some(VariableView::DecimalValue(spec_u128_from_le_bytes(rest)))
            } else {
                None
            }
        } else if b[0] == 5u8 {
            if rest.len() < 8 {
                None
            } else {
                let n = spec_u64_from_le_bytes(rest.subrange(0, 8));
                let body = rest.skip(8);
                if body.len() == n {
                    Some(VariableView::BinaryValue(body))
                } else {
                    None
                }
            }
        } else {
            None
        }
    }
}

/// The value's payload lengths fit the length prefixes of the encoding.
pub open spec fn view_fits(v: VariableView) -> bool {
    match v {
        VariableView::StringValue(s) => s.len() < 0x1_0000_0000_0000_0000,
        VariableView::AddressValue(a) => a.len() < 0x1_0000_0000_0000_0000,
        VariableView::BinaryValue(b) => b.len() < 0x1_0000_0000_0000_0000,
        _ => true,
    }
}

/// Decoding the encoding of `n` characters yields them back.
pub proof fn lemma_chars_round_trip(s: Seq<char>)
    ensures
        dec_chars(enc_chars(s), s.len()) == Some(s),
    decreases s.len(),
{
    lemma_auto_spec_u32_to_from_le_bytes();
    lemma_enc_chars_len(s);
    if s.len() > 0 {
        let e = enc_chars(s);
        lemma_enc_chars_front(s);
        let four = spec_u32_to_le_bytes(s[0] as u32);
        assert(e.subrange(0, 4) =~= four);
        assert(e.skip(4) =~= enc_chars(s.drop_first()));
        assert(spec_u32_from_le_bytes(e.subrange(0, 4)) == s[0] as u32);
        vstd::utf8::char_is_scalar(s[0]);
        vstd::utf8::char_u32_cast(s[0], s[0] as u32);
        lemma_chars_round_trip(s.drop_first());
        assert(seq![s[0]] + s.drop_first() =~= s);
    }
}

/// Decoding the encoding of a length-prefixed string yields it back.
proof fn lemma_str_round_trip(s: Seq<char>)
    requires
        s.len() < 0x1_0000_0000_0000_0000,
    ensures
        dec_str(enc_str(s)) == Some(s),
{
    lemma_auto_spec_u64_to_from_le_bytes();
    lemma_enc_chars_len(s);
    let e = enc_str(s);
    let eight = spec_u64_to_le_bytes(s.len() as u64);
    assert(e.subrange(0, 8) =~= eight);
    assert(e.skip(8) =~= enc_chars(s));
    assert(spec_u64_from_le_bytes(e.subrange(0, 8)) == s.len() as u64);
    lemma_chars_round_trip(s);
}

/// Law: deserialization inverts serialization, for every kind of value.
pub proof fn lemma_round_trip(v: VariableView)
    requires
        view_fits(v),
    ensures
        spec_deserialize(spec_serialize(v)) == Some(v),
{
    lemma_auto_spec_u64_to_from_le_bytes();
    lemma_auto_spec_u128_to_from_le_bytes();
    let e = spec_serialize(v);
    match v {
        VariableView::StringValue(s) => {
            assert(e[0] == 0u8);
            assert(e.drop_first() =~= enc_str(s));
            lemma_str_round_trip(s);
        },
        VariableView::AddressValue(a) => {
            assert(e[0] == 1u8);
            assert(e.drop_first() =~= enc_str(a));
            lemma_str_round_trip(a);
        },
        VariableView::UnsignedInt128(x) => {
            assert(e[0] == 2u8);
            assert(e.drop_first() =~= spec_u128_to_le_bytes(x));
        },
        VariableView::UnsignedInt64(x) => {
            assert(e[0] == 3u8);
            assert(e.drop_first() =~= spec_u64_to_le_bytes(x));
        },
        VariableView::DecimalValue(d) => {
            assert(e[0] == 4u8);
            assert(e.drop_first() =~= spec_u128_to_le_bytes(d));
        },
        VariableView::BinaryValue(b) => {
            assert(e[0] == 5u8);
            let rest = e.drop_first();
            assert(rest =~= spec_u64_to_le_bytes(b.len() as u64) + b);
            assert(rest.subrange(0, 8) =~= spec_u64_to_le_bytes(b.len() as u64));
            assert(rest.skip(8) =~= b);
        },
    }
}

/// Appends the little-endian bytes of `x`.
fn write_u64(out: &mut Vec<u8>, x: u64)
    ensures
        final (out)@ == old(out)@ + spec_u64_to_le_bytes(x),
{
    let bytes = u64_to_le_bytes(x);
    write_bytes(out, &bytes);
}

/// Appends the little-endian bytes of `x`.
fn write_u128(out: &mut Vec<u8>, x: u128)
    ensures
        final (out)@ == old(out)@ + spec_u128_to_le_bytes(x),
{
    let bytes = u128_to_le_bytes(x);
    proof {
        lemma_auto_spec_u128_to_from_le_bytes();
    }
    write_bytes(out, &bytes);
}

/// Appends every byte of `b`.
fn write_bytes(out: &mut Vec<u8>, b: &Vec<u8>)
    ensures
        final (out)@ == old(out)@ + b@,
{
    let mut i: usize = 0;
    while i < b.len()
        invariant
            0 <= i <= b@.len(),
            out@ == old(out)@ + b@.subrange(0, i as int),
        decreases b@.len() - i,
    {
        out.push(b[i]);
        i = i + 1;
        proof {
            assert(out@ =~= old(out)@ + b@.subrange(0, i as int));
        }
    }
    proof {
        assert(out@ =~= old(out)@ + b@);
    }
}

/// Appends a character-count prefix and each character's code point.
fn write_str(out: &mut Vec<u8>, s: &str)
    ensures
        final (out)@ == old(out)@ + enc_str(s@),
{
    let n = s.unicode_len();
    write_u64(out, n as u64);
    let ghost mid = out@;
    let mut i: usize = 0;
    while i < n
        invariant
            n == s@.len(),
            0 <= i <= n,
            out@ == mid + enc_chars(s@.subrange(0, i as int)),
            mid == old(out)@ + spec_u64_to_le_bytes(s@.len() as u64),
        decreases n - i,
    {
        let c = s.get_char(i);
        let bytes = u32_to_le_bytes(c as u32);
        write_bytes(out, &bytes);
        i = i + 1;
        proof {
            let pre = s@.subrange(0, i as int);
            assert(pre.drop_last() =~= s@.subrange(0, i as int - 1));
            assert(pre.last() == s@[i as int - 1]);
            assert(out@ =~= mid + enc_chars(pre));
        }
    }
    proof {
        assert(s@.subrange(0, n as int) =~= s@);
        assert(out@ =~= old(out)@ + enc_str(s@));
    }
}

/// Serializes a value into its byte encoding.
pub fn serialize(v: &Variable) -> (r: Vec<u8>)
    ensures
        r@ == spec_serialize(v@),
{
    let mut out: Vec<u8> = Vec::new();
    match v {
        Variable::StringValue(s) => {
            out.push(0u8);
            proof {
                assert(out@ =~= Seq::<u8>::empty() + seq![0u8]);
            }
            write_str(&mut out, s.as_str());
            proof {
                assert(out@ =~= seq![0u8] + enc_str(s@));
            }
        },
        Variable::AddressValue(a) => {
            out.push(1u8);
            write_str(&mut out, a.as_str());
            proof {
                assert(out@ =~= seq![1u8] + enc_str(a@));
            }
        },
        Variable::UnsignedInt128(x) => {
            out.push(2u8);
            write_u128(&mut out, *x);
            proof {
                assert(out@ =~= seq![2u8] + spec_u128_to_le_bytes(*x));
            }
        },
        Variable::UnsignedInt64(x) => {
            out.push(3u8);
            write_u64(&mut out, *x);
            proof {
                assert(out@ =~= seq![3u8] + spec_u64_to_le_bytes(*x));
            }
        },
        Variable::DecimalValue(d) => {
            out.push(4u8);
            write_u128(&mut out, d.atomics());
            proof {
                assert(out@ =~= seq![4u8] + spec_u128_to_le_bytes(d@));
            }
        },
        Variable::BinaryValue(b) => {
            out.push(5u8);
            write_u64(&mut out, b.len() as u64);
            write_bytes(&mut out, b);
            proof {
                assert(out@ =~= seq![5u8] + spec_u64_to_le_bytes(b@.len() as u64) + b@);
            }
        },
    }
    out
}

/// Decodes the characters of a length-prefixed string payload.
fn read_str(bytes: &Vec<u8>, from: usize) -> (r: Result<String, ContractError>)
    requires
        from <= bytes@.len(),
    ensures
        match r {
            Ok(s) => dec_str(bytes@.skip(from as int)) == Some(s@),
            Err(e) => dec_str(bytes@.skip(from as int)) is None && e@ == ErrorView::Decode,
        },
{
    let ghost whole = bytes@.skip(from as int);
    let len = bytes.len();
    if len - from < 8 {
        return Err(ContractError::Decode);
    }
    let prefix = slice_subrange(bytes.as_slice(), from, from + 8);
    let n64 = u64_from_le_bytes(prefix);
    proof {
        assert(prefix@ =~= whole.subrange(0, 8));
    }
    let body_len = len - (from + 8);
    let ghost body = whole.skip(8);
    proof {
        assert(body.len() == body_len);
    }
    if body_len % 4 != 0 {
        proof {
            if body.len() == 4 * n64 {
                assert(body_len % 4 == 0) by (nonlinear_arith)
                    requires
                        body_len == 4 * n64,
                ;
            }
        }
        return Err(ContractError::Decode);
    }
    let count = body_len / 4;
    if (count as u64) != n64 {
        proof {
            assert(body_len == 4 * count) by (nonlinear_arith)
                requires
                    body_len % 4 == 0,
                    count == body_len / 4,
            ;
            if body.len() == 4 * n64 {
                assert(count == n64) by (nonlinear_arith)
                    requires
                        4 * count == 4 * n64,
                ;
            }
        }
        return Err(ContractError::Decode);
    }
    proof {
        assert(body_len == 4 * count) by (nonlinear_arith)
            requires
                body_len % 4 == 0,
                count == body_len / 4,
        ;
        assert(body.len() == 4 * n64);
    }
    let mut acc = String::new();
    let mut k: usize = 0;
    let mut off: usize = from + 8;
    proof {
        assert(body.skip(0) =~= body);
        assert(from + 8 + body.len() == bytes@.len());
        match dec_chars(body, n64 as nat) {
            Some(cs) => {
                assert(acc@ + cs =~= cs);
            },
            None => {},
        }
    }
    while k < count
        invariant
            0 <= k <= count,
            count == n64,
            body == whole.skip(8),
            body.len() == 4 * count,
            off == from + 8 + 4 * (k as int),
            from + 8 + 4 * (count as int) == bytes@.len(),
            len == bytes@.len(),
            whole == bytes@.skip(from as int),
            dec_chars(body, n64 as nat) == match dec_chars(
                body.skip(4 * k as int),
                (n64 - k) as nat,
            ) {
                Some(cs) => Some(acc@ + cs),
                None => None::<Seq<char>>,
            },
        decreases count - k,
    {
        let ghost sfx = body.skip(4 * k as int);
        proof {
            assert(4 * (k as int) + 4 <= 4 * (count as int)) by (nonlinear_arith)
                requires
                    k < count,
            ;
            assert((off as int) + 4 <= len as int);
        }
        let chunk = slice_subrange(bytes.as_slice(), off, off + 4);
        let u = u32_from_le_bytes(chunk);
        proof {
            assert(chunk@ =~= sfx.subrange(0, 4));
            assert(sfx.len() == 4 * (count - k)) by (nonlinear_arith)
                requires
                    sfx.len() == body.len() - 4 * k,
                    body.len() == 4 * count,
            ;
        }
        match char::from_u32(u) {
            Some(c) => {
                let ghost acc_pre = acc@;
                acc.push(c);
                k = k + 1;
                off = off + 4;
                proof {
                    vstd::utf8::char_u32_cast(c, u);
                    assert(sfx.skip(4) =~= body.skip(4 * k as int));
                    assert(dec_chars(sfx, (n64 - (k - 1)) as nat) == match dec_chars(
                        body.skip(4 * k as int),
                        (n64 - k) as nat,
                    ) {
                        Some(cs) => Some(seq![c] + cs),
                        None => None::<Seq<char>>,
                    });
                    match dec_chars(body.skip(4 * k as int), (n64 - k) as nat) {
                        Some(cs) => {
                            assert(acc_pre + (seq![c] + cs) =~= acc@ + cs);
                        },
                        None => {},
                    }
                }
            },
            None => {
                proof {
                    assert(dec_chars(sfx, (n64 - k) as nat) is None);
                }
                return Err(ContractError::Decode);
            },
        }
    }
    proof {
        assert(body.skip(4 * k as int) =~= Seq::<u8>::empty());
        assert(dec_chars(body.skip(4 * k as int), 0) == Some(Seq::<char>::empty()));
        assert(acc@ + Seq::<char>::empty() =~= acc@);
        assert(dec_chars(body, n64 as nat) == Some(acc@));
    }
    Ok(acc)
}

/// Deserializes a byte encoding back into a value; bytes that are not
/// exactly one encoding fail with `Decode`.
pub fn deserialize(bytes: &Vec<u8>) -> (r: Result<Variable, ContractError>)
    ensures
        match r {
            Ok(v) => spec_deserialize(bytes@) == Some(v@),
            Err(e) => spec_deserialize(bytes@) is None && e@ == ErrorView::Decode,
        },
{
    let len = bytes.len();
    if len < 1 {
        return Err(ContractError::Decode);
    }
    let tag = bytes[0];
    let ghost rest = bytes@.drop_first();
    proof {
        assert(rest =~= bytes@.skip(1));
    }
    if tag == 0 {
        match read_str(bytes, 1) {
            Ok(s) => Ok(Variable::StringValue(s)),
            Err(e) => Err(e),
        }
    } else if tag == 1 {
        match read_str(bytes, 1) {
            Ok(s) => Ok(Variable::AddressValue(Addr::new(s))),
            Err(e) => Err(e),
        }
    } else if tag == 2 {
        if len - 1 != 16 {
            return Err(ContractError::Decode);
        }
        let payload = slice_subrange(bytes.as_slice(), 1, 17);
        proof {
            assert(payload@ =~= rest);
        }
        Ok(Variable::UnsignedInt128(u128_from_le_bytes(payload)))
    } else if tag == 3 {
        if len - 1 != 8 {
            return Err(ContractError::Decode);
        }
        let payload = slice_subrange(bytes.as_slice(), 1, 9);
        proof {
            assert(payload@ =~= rest);
        }
        Ok(Variable::UnsignedInt64(u64_from_le_bytes(payload)))
    } else if tag == 4 {
        if len - 1 != 16 {
            return Err(ContractError::Decode);
        }
        let payload = slice_subrange(bytes.as_slice(), 1, 17);
        proof {
            assert(payload@ =~= rest);
        }
        Ok(Variable::DecimalValue(crate::values::Decimal::new(u128_from_le_bytes(payload))))
    } else if tag == 5 {
        if len - 1 < 8 {
            return Err(ContractError::Decode);
        }
        let prefix = slice_subrange(bytes.as_slice(), 1, 9);
        let n64 = u64_from_le_bytes(prefix);
        proof {
            assert(prefix@ =~= rest.subrange(0, 8));
        }
        let body_len = len - 9;
        let ghost body = rest.skip(8);
        proof {
            assert(body.len() == body_len);
        }
        if (body_len as u64) != n64 {
            return Err(ContractError::Decode);
        }
        let mut out: Vec<u8> = Vec::new();
        let mut k: usize = 0;
        while k < body_len
            invariant
                0 <= k <= body_len,
                body_len + 9 == bytes@.len(),
                len == bytes@.len(),
                body == bytes@.drop_first().skip(8),
                body.len() == body_len,
                out@ == body.subrange(0, k as int),
            decreases body_len - k,
        {
            proof {
                assert(9 + (k as int) < len as int);
            }
            out.push(bytes[9 + k]);
            k = k + 1;
            proof {
                assert(out@ =~= body.subrange(0, k as int));
            }
        }
        proof {
            assert(out@ =~= body);
        }
        Ok(Variable::BinaryValue(out))
    } else {
        Err(ContractError::Decode)
    }
}

} // verus!
