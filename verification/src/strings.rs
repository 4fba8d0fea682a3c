//! Lexicographic order on strings, with a verified comparison routine,
//! and decimal rendering of unsigned integers.
//!
//! Keys of the variable store are ordered by the lexicographic order of
//! their character sequences (code-point order), which is the order the
//! paginated listing walks.

use vstd::prelude::*;

verus! {

use vstd::string::StrSliceExecFns;

broadcast use vstd::utf8::char_u32_cast;

/// `true` when `a` is strictly below `b` in lexicographic order, comparing
/// from position `i` on (the first `i` characters are assumed equal).
pub open spec fn lex_lt_from(a: Seq<char>, b: Seq<char>, i: int) -> bool
    decreases b.len() - i,
{
    if i < 0 || i >= b.len() {
        false
    } else if i >= a.len() {
        true
    } else if a[i] as u32 != b[i] as u32 {
        (a[i] as u32) < (b[i] as u32)
    } else {
        lex_lt_from(a, b, i + 1)
    }
}

/// Strict lexicographic order on character sequences, by code point.
pub open spec fn lex_lt(a: Seq<char>, b: Seq<char>) -> bool {
    lex_lt_from(a, b, 0)
}

/// The order is irreflexive.
pub proof fn lemma_lex_irrefl(a: Seq<char>)
    ensures
        !lex_lt(a, a),
{
    lemma_lex_irrefl_from(a, 0);
}

proof fn lemma_lex_irrefl_from(a: Seq<char>, i: int)
    ensures
        !lex_lt_from(a, a, i),
    decreases a.len() - i,
{
    if 0 <= i && i < a.len() {
        lemma_lex_irrefl_from(a, i + 1);
    }
}

/// The order is asymmetric.
pub proof fn lemma_lex_asym(a: Seq<char>, b: Seq<char>)
    ensures
        !(lex_lt(a, b) && lex_lt(b, a)),
{
    lemma_lex_asym_from(a, b, 0);
}

proof fn lemma_lex_asym_from(a: Seq<char>, b: Seq<char>, i: int)
    ensures
        !(lex_lt_from(a, b, i) && lex_lt_from(b, a, i)),
    decreases b.len() - i,
{
    if 0 <= i && i < a.len() && i < b.len() && a[i] as u32 == b[i] as u32 {
        lemma_lex_asym_from(a, b, i + 1);
    }
}

/// The order is transitive.
pub proof fn lemma_lex_trans(a: Seq<char>, b: Seq<char>, c: Seq<char>)
    requires
        lex_lt(a, b),
        lex_lt(b, c),
    ensures
        lex_lt(a, c),
{
    lemma_lex_trans_from(a, b, c, 0);
}

proof fn lemma_lex_trans_from(a: Seq<char>, b: Seq<char>, c: Seq<char>, i: int)
    requires
        lex_lt_from(a, b, i),
        lex_lt_from(b, c, i),
    ensures
        lex_lt_from(a, c, i),
    decreases c.len() - i,
{
    if 0 <= i && i < a.len() && i < b.len() && i < c.len() && a[i] as u32 == b[i] as u32 && b[i]
        as u32 == c[i] as u32 {
        lemma_lex_trans_from(a, b, c, i + 1);
    }
}

/// The order is total: two mutually incomparable sequences are equal.
pub proof fn lemma_lex_total(a: Seq<char>, b: Seq<char>)
    requires
        !lex_lt(a, b),
        !lex_lt(b, a),
    ensures
        a == b,
{
    lemma_lex_total_from(a, b, 0);
    assert(a =~= b);
}

proof fn lemma_lex_total_from(a: Seq<char>, b: Seq<char>, i: int)
    requires
        0 <= i <= a.len(),
        0 <= i <= b.len(),
        !lex_lt_from(a, b, i),
        !lex_lt_from(b, a, i),
    ensures
        a.len() == b.len(),
        forall|j: int| i <= j < a.len() ==> a[j] == b[j],
    decreases a.len() - i,
{
    if i < a.len() && i < b.len() {
        if a[i] as u32 == b[i] as u32 {
            vstd::utf8::char_u32_cast(a[i], a[i] as u32);
            vstd::utf8::char_u32_cast(b[i], b[i] as u32);
            assert(a[i] == b[i]);
            lemma_lex_total_from(a, b, i + 1);
        }
    }
}

/// Compares two strings in lexicographic (code-point) order.
pub fn str_lt(a: &str, b: &str) -> (r: bool)
    ensures
        r == lex_lt(a@, b@),
{
    let a_len = a.unicode_len();
    let b_len = b.unicode_len();
    let mut i: usize = 0;
    loop
        invariant
            a_len == a@.len(),
            b_len == b@.len(),
            0 <= i <= a_len,
            0 <= i <= b_len,
            lex_lt(a@, b@) == lex_lt_from(a@, b@, i as int),
        decreases b_len - i,
    {
        if i >= b_len {
            return false;
        }
        if i >= a_len {
            return true;
        }
        let ca = a.get_char(i) as u32;
        let cb = b.get_char(i) as u32;
        if ca != cb {
            return ca < cb;
        }
        i = i + 1;
    }
}

/// The decimal digit character for a value below ten.
pub open spec fn digit_char(d: int) -> char
    recommends
        0 <= d < 10,
{
    ((d + 0x30) as u8) as char
}

/// The decimal digits of `n`, most significant first, with no leading zero
/// (a single `'0'` for zero).
pub open spec fn dec_digits(n: nat) -> Seq<char>
    decreases n,
{
    if n < 10 {
        seq![digit_char(n as int)]
    } else {
        dec_digits(n / 10).push(digit_char((n % 10) as int))
    }
}

/// Exactly `k` decimal digits of `n`, most significant first, padded with
/// leading zeros (the low `k` digits of `n`).
pub open spec fn dec_digits_padded(n: nat, k: nat) -> Seq<char>
    decreases k,
{
    if k == 0 {
        Seq::empty()
    } else {
        dec_digits_padded(n / 10, (k - 1) as nat).push(digit_char((n % 10) as int))
    }
}

/// Relies on `alloc::string::String::push`: appends one character at the end.
pub assume_specification [ String::push ](s: &mut String, c: char)
    ensures
        final (s)@ == old(s)@.push(c),
;

/// Renders `n` in decimal, without padding.
pub fn u128_to_dec_string(n: u128) -> (r: String)
    ensures
        r@ == dec_digits(n as nat),
{
    let mut rev: Vec<char> = Vec::new();
    let mut m: u128 = n;
    loop
        invariant_except_break
            dec_digits(n as nat) == dec_digits(m as nat) + rev@.reverse(),
        ensures
            dec_digits(n as nat) == rev@.reverse(),
        decreases m,
    {
        let d: u128 = m % 10;
        let next: u128 = m / 10;
        let c: char = (d as u8 + 0x30) as char;
        proof {
            assert(c == digit_char(m as int % 10));
            assert(rev@.push(c).reverse() =~= seq![c] + rev@.reverse());
        }
        rev.push(c);
        if next == 0 {
            proof {
                assert(m < 10) by (nonlinear_arith)
                    requires
                        m / 10 == 0,
                ;
                assert(dec_digits(m as nat) == seq![digit_char(m as int % 10)]);
                assert(dec_digits(n as nat) =~= rev@.reverse());
            }
            break ;
        }
        proof {
            assert(m >= 10) by (nonlinear_arith)
                requires
                    m / 10 != 0,
            ;
            assert(dec_digits(m as nat) == dec_digits(next as nat).push(digit_char(m as int % 10)));
            assert(dec_digits(next as nat).push(c) + rev@.drop_last().reverse() =~= dec_digits(
                next as nat,
            ) + rev@.reverse());
        }
        m = next;
    }
    rev_chars_to_string(rev)
}

/// Builds a string from a character vector read back to front.
fn rev_chars_to_string(rev: Vec<char>) -> (out: String)
    ensures
        out@ == rev@.reverse(),
{
    let mut out: String = String::new();
    let mut i: usize = rev.len();
    loop
        invariant
            0 <= i <= rev@.len(),
            out@ == rev@.subrange(i as int, rev@.len() as int).reverse(),
        ensures
            out@ == rev@.reverse(),
        decreases i,
    {
        if i == 0 {
            proof {
                assert(rev@.subrange(0, rev@.len() as int) =~= rev@);
            }
            break ;
        }
        i = i - 1;
        let c = rev[i];
        out.push(c);
        proof {
            assert(rev@.subrange(i as int, rev@.len() as int).reverse() =~= rev@.subrange(
                i as int + 1,
                rev@.len() as int,
            ).reverse().push(rev@[i as int]));
        }
    }
    out
}

/// Reverses a character vector.
pub fn rev_chars(rev: Vec<char>) -> (out: Vec<char>)
    ensures
        out@ == rev@.reverse(),
{
    let mut out: Vec<char> = Vec::new();
    let mut i: usize = rev.len();
    loop
        invariant
            0 <= i <= rev@.len(),
            out@ == rev@.subrange(i as int, rev@.len() as int).reverse(),
        ensures
            out@ == rev@.reverse(),
        decreases i,
    {
        if i == 0 {
            proof {
                assert(rev@.subrange(0, rev@.len() as int) =~= rev@);
            }
            break ;
        }
        i = i - 1;
        let c = rev[i];
        out.push(c);
        proof {
            assert(rev@.subrange(i as int, rev@.len() as int).reverse() =~= rev@.subrange(
                i as int + 1,
                rev@.len() as int,
            ).reverse().push(rev@[i as int]));
        }
    }
    out
}

/// Exactly the `k` low decimal digits of `n`, most significant first, padded
/// with leading zeros.
pub fn u128_to_dec_chars_padded(n: u128, k: usize) -> (r: Vec<char>)
    ensures
        r@ == dec_digits_padded(n as nat, k as nat),
{
    let mut rev: Vec<char> = Vec::new();
    let mut m: u128 = n;
    let mut j: usize = 0;
    while j < k
        invariant
            0 <= j <= k,
            rev@.len() == j,
            dec_digits_padded(n as nat, k as nat) == dec_digits_padded(
                m as nat,
                (k - j) as nat,
            ) + rev@.reverse(),
        decreases k - j,
    {
        let d: u128 = m % 10;
        let c: char = (d as u8 + 0x30) as char;
        proof {
            assert(c == digit_char(m as int % 10));
            assert(rev@.push(c).reverse() =~= seq![c] + rev@.reverse());
            assert(dec_digits_padded(m as nat, (k - j) as nat) == dec_digits_padded(
                (m / 10) as nat,
                (k - j - 1) as nat,
            ).push(digit_char(m as int % 10)));
            assert(dec_digits_padded((m / 10) as nat, (k - j - 1) as nat) + seq![c] + rev@.reverse()
                =~= dec_digits_padded(m as nat, (k - j) as nat) + rev@.reverse());
        }
        rev.push(c);
        m = m / 10;
        j = j + 1;
    }
    rev_chars(rev)
}

} // verus!
