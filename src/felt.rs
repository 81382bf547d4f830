//! Field elements of the Stark prime field, held as 32 big-endian bytes.
use starknet_crypto::pedersen_hash;
use starknet_crypto::Felt;
use vstd::prelude::*;

verus! {

/// The modulus of the field: 2^251 + 17 * 2^192 + 1.
pub open spec fn stark_prime() -> nat {
    0x800000000000011000000000000000000000000000000000000000000000001nat
}

/// 256 to the power `n`.
pub open spec fn pow256(n: nat) -> nat
    decreases n,
{
    if n == 0 {
        1
    } else {
        256 * pow256((n - 1) as nat)
    }
}

/// Big-endian integer value of a byte string.
pub open spec fn be_value(s: Seq<u8>) -> nat
    decreases s.len(),
{
    if s.len() == 0 {
        0
    } else {
        be_value(s.drop_last()) * 256 + s.last() as nat
    }
}

/// The digits `0`-`9`, `a`-`f`, `A`-`F`.
pub open spec fn is_hex_char(c: char) -> bool {
    ('0' <= c && c <= '9') || ('a' <= c && c <= 'f') || ('A' <= c && c <= 'F')
}

/// The value of one hexadecimal digit.
pub open spec fn hex_char_value(c: char) -> nat {
    if '0' <= c && c <= '9' {
        (c as int - '0' as int) as nat
    } else if 'a' <= c && c <= 'f' {
        (c as int - 'a' as int + 10) as nat
    } else {
        (c as int - 'A' as int + 10) as nat
    }
}

/// The digits of a hexadecimal literal: a leading `0x` is dropped when digits follow it.
pub open spec fn hex_body(s: Seq<char>) -> Seq<char> {
    if s.len() > 2 && s[0] == '0' && s[1] == 'x' {
        s.subrange(2, s.len() as int)
    } else {
        s
    }
}

/// The number that a string of hexadecimal digits denotes.
pub open spec fn hex_digits_value(d: Seq<char>) -> nat
    decreases d.len(),
{
    if d.len() == 0 {
        0
    } else {
        hex_digits_value(d.drop_last()) * 16 + hex_char_value(d.last())
    }
}

/// A string that parses as a field element: one to 64 hexadecimal digits, after an optional
/// `0x`, denoting a number no larger than the modulus.
pub open spec fn parses_as_felt(s: Seq<char>) -> bool {
    let d = hex_body(s);
    &&& 0 < d.len() <= 64
    &&& forall|i: int| 0 <= i < d.len() ==> #[trigger] is_hex_char(d[i])
    &&& hex_digits_value(d) <= stark_prime()
}

/// The field element that a hexadecimal string denotes.
pub open spec fn felt_of_hex(s: Seq<char>) -> nat {
    hex_digits_value(hex_body(s)) % stark_prime()
}

/// The lowercase hexadecimal digit for `n < 16`.
pub open spec fn lower_hex_digit(n: nat) -> char {
    seq!['0', '1', '2', '3', '4', '5', '6', '7', '8', '9', 'a', 'b', 'c', 'd', 'e', 'f'][n as int]
}

/// The lowercase hexadecimal digits of `n`, without leading zeros (`0` for zero).
pub open spec fn hex_digits(n: nat) -> Seq<char>
    decreases n,
{
    if n < 16 {
        seq![lower_hex_digit(n)]
    } else {
        hex_digits(n / 16).push(lower_hex_digit(n % 16))
    }
}

/// `n` written as a `0x`-prefixed lowercase hexadecimal string.
pub open spec fn prefixed_hex(n: nat) -> Seq<char> {
    seq!['0', 'x'] + hex_digits(n)
}

/// The Pedersen hash of two field elements.
pub uninterp spec fn pedersen_of(x: nat, y: nat) -> nat;

/// The error of `Felt::from_hex`, which parsing hands on and nothing inspects.
#[verifier::external_type_specification]
#[verifier::external_body]
pub struct ExFromStrError(starknet::core::types::FromStrError);

/// An element of the Stark prime field, stored as its canonical big-endian bytes.
#[derive(Clone, Copy, Debug, PartialEq, Eq, Hash)]
pub struct FieldElement {
    bytes: [u8; 32],
}

impl FieldElement {
    /// The integer in `[0, p)` that this element stands for.
    pub closed spec fn value(&self) -> nat {
        be_value(self.bytes@)
    }

    #[verifier::type_invariant]
    spec fn canonical(&self) -> bool {
        self.value() < stark_prime()
    }

    /// Numeric order of the two elements.
    pub fn lt(&self, other: &Self) -> (r: bool)
        ensures
            r == (self.value() < other.value()),
    {
        let mut i: usize = 0;
        while i < 32
            invariant
                0 <= i <= 32,
                forall|j: int| 0 <= j < i ==> self.bytes@[j] == other.bytes@[j],
            decreases 32 - i,
        {
            if self.bytes[i] != other.bytes[i] {
                proof {
                    lemma_first_difference(self.bytes@, other.bytes@, i as int);
                }
                return self.bytes[i] < other.bytes[i];
            }
            i += 1;
        }
        assert(self.bytes@ =~= other.bytes@);
        false
    }

    /// Whether the element is zero.
    pub fn is_zero(&self) -> (r: bool)
        ensures
            r == (self.value() == 0),
    {
        let zero = u64_to_felt(0);
        !self.lt(&zero) && !zero.lt(self)
    }

    /// The canonical 32-byte big-endian encoding.
    pub fn to_bytes_be(&self) -> (r: [u8; 32])
        ensures
            be_value(r@) == self.value(),
    {
        self.bytes
    }

    /// The element as a `0x`-prefixed lowercase hexadecimal string without leading zeros.
    pub fn to_hex(&self) -> (r: String)
        ensures
            r@ == prefixed_hex(self.value()),
    {
        format_felt_hex(self)
    }
}

/// The element holding a 64-bit integer: its bytes are zero but for the last eight.
pub fn u64_to_felt(v: u64) -> (r: FieldElement)
    ensures
        r.value() == v as nat,
{
    let mut bytes = [0u8; 32];
    let mut rest: u64 = v;
    let mut i: usize = 32;
    assert(bytes@.subrange(32, 32) =~= Seq::<u8>::empty());
    assert(be_value(Seq::<u8>::empty()) == 0);
    assert(pow256((32 - i) as nat) == 1);
    while i > 24
        invariant
            24 <= i <= 32,
            forall|j: int| 0 <= j < i ==> bytes@[j] == 0,
            be_value(bytes@.subrange(i as int, 32)) + rest * pow256((32 - i) as nat) == v,
        decreases i,
    {
        let ghost old_tail = bytes@.subrange(i as int, 32);
        let ghost old_rest = rest;
        i -= 1;
        bytes[i] = (rest % 256) as u8;
        rest = rest / 256;
        proof {
            let tail = bytes@.subrange(i as int, 32);
            assert(tail =~= seq![bytes@[i as int]] + old_tail);
            lemma_be_value_append(seq![bytes@[i as int]], old_tail);
            assert(be_value(seq![bytes@[i as int]]) == bytes@[i as int]) by {
                let one = seq![bytes@[i as int]];
                assert(one.drop_last() =~= Seq::<u8>::empty());
                assert(be_value(one.drop_last()) == 0);
                assert(one.last() == bytes@[i as int]);
            }
            let k = (32 - i - 1) as nat;
            assert(pow256((32 - i) as nat) == 256 * pow256(k));
            let b = bytes@[i as int] as nat;
            let p = pow256(k);
            assert(b == old_rest % 256);
            assert(rest == old_rest / 256);
            assert(old_rest == 256 * rest + b);
            assert(b * p + be_value(old_tail) + rest * (256 * p) == be_value(old_tail)
                + old_rest * p) by (nonlinear_arith)
                requires
                    old_rest == 256 * rest + b,
            ;
        }
    }
    proof {
        let head = bytes@.subrange(0, 24);
        let tail = bytes@.subrange(24, 32);
        assert(bytes@ =~= head + tail);
        lemma_be_value_append(head, tail);
        lemma_be_value_zero(head);
        reveal_with_fuel(pow256, 9);
        assert(pow256(8) == 0x1_0000_0000_0000_0000);
        assert(rest == 0) by (nonlinear_arith)
            requires
                be_value(tail) + rest * 0x1_0000_0000_0000_0000nat == v,
                v < 0x1_0000_0000_0000_0000nat,
        ;
        assert(be_value(bytes@) == v);
    }
    FieldElement { bytes }
}

/// Relies on `Felt::from_hex` of starknet-types-core (through `lambdaworks_math`): after an
/// optional `0x` (dropped only when digits follow), the string must be 1 to 64 hexadecimal
/// digits of either case denoting a number at most the modulus, else it is refused; the number
/// is taken modulo the prime. Relies on `Felt::to_bytes_be` for the canonical big-endian bytes,
/// which lie below the prime.
#[verifier::external_body]
pub(crate) fn parse_felt_hex(s: &str) -> (r: Result<FieldElement, starknet::core::types::FromStrError>)
    ensures
        r is Ok <==> parses_as_felt(s@),
        r matches Ok(f) ==> f.value() == felt_of_hex(s@),
{
    Felt::from_hex(s).map(|f| FieldElement { bytes: f.to_bytes_be() })
}

/// Relies on `starknet_crypto::pedersen_hash`, a function of the two elements alone, and on
/// `Felt::from_bytes_be` / `Felt::to_bytes_be` to move between canonical bytes and `Felt`
/// (the bytes given are below the prime, so nothing is reduced; those returned are canonical).
#[verifier::external_body]
pub(crate) fn pedersen(x: &FieldElement, y: &FieldElement) -> (r: FieldElement)
    ensures
        r.value() == pedersen_of(x.value(), y.value()),
{
    let h = pedersen_hash(&Felt::from_bytes_be(&x.bytes), &Felt::from_bytes_be(&y.bytes));
    FieldElement { bytes: h.to_bytes_be() }
}

/// Relies on `Felt`'s `LowerHex` with the alternate flag: `0x` followed by the lowercase
/// digits of the canonical representative with no leading zeros (`0x0` for zero). The bytes
/// given are below the prime, so `Felt::from_bytes_be` keeps their value.
#[verifier::external_body]
fn format_felt_hex(f: &FieldElement) -> (r: String)
    ensures
        r@ == prefixed_hex(f.value()),
{
    format!("{:#x}", Felt::from_bytes_be(&f.bytes))
}

/// The value of a concatenation splits at the join.
pub proof fn lemma_be_value_append(s: Seq<u8>, t: Seq<u8>)
    ensures
        be_value(s + t) == be_value(s) * pow256(t.len()) + be_value(t),
    decreases t.len(),
{
    if t.len() == 0 {
        assert(s + t =~= s);
        assert(be_value(t) == 0);
        assert(pow256(0) == 1);
    } else {
        let t0 = t.drop_last();
        assert((s + t).drop_last() =~= s + t0);
        assert((s + t).last() == t.last());
        lemma_be_value_append(s, t0);
        let a = be_value(s);
        let p = pow256(t0.len());
        let b = be_value(t0);
        assert(pow256(t.len()) == 256 * p);
        assert(be_value(t) == b * 256 + t.last() as nat);
        assert(be_value(s + t) == be_value(s + t0) * 256 + t.last() as nat);
        assert((a * p + b) * 256 + t.last() as nat == a * (256 * p) + (b * 256 + t.last() as nat))
            by (nonlinear_arith);
    }
}

/// A byte string of `n` bytes is worth less than `256^n`.
pub proof fn lemma_be_value_bound(s: Seq<u8>)
    ensures
        be_value(s) < pow256(s.len()),
    decreases s.len(),
{
    if s.len() > 0 {
        let s0 = s.drop_last();
        lemma_be_value_bound(s0);
        let a = be_value(s0);
        let p = pow256(s0.len());
        assert(a * 256 + (s.last() as nat) < 256 * p) by (nonlinear_arith)
            requires
                a < p,
                s.last() < 256,
        ;
    }
}

/// Zero bytes are worth zero.
pub proof fn lemma_be_value_zero(s: Seq<u8>)
    requires
        forall|i: int| 0 <= i < s.len() ==> s[i] == 0,
    ensures
        be_value(s) == 0,
    decreases s.len(),
{
    if s.len() > 0 {
        lemma_be_value_zero(s.drop_last());
    }
}

proof fn lemma_lex_lt(a: nat, b: nat, x: nat, y: nat, m: nat)
    requires
        a < b,
        x < m,
    ensures
        a * m + x < b * m + y,
{
    assert(a * m + m <= b * m) by (nonlinear_arith)
        requires
            a < b,
    ;
}

/// Two byte strings of one length that agree before index `i` and differ at `i` are ordered as
/// their bytes at `i` are.
proof fn lemma_first_difference(s: Seq<u8>, t: Seq<u8>, i: int)
    requires
        s.len() == t.len(),
        0 <= i < s.len(),
        forall|j: int| 0 <= j < i ==> s[j] == t[j],
        s[i] != t[i],
    ensures
        (be_value(s) < be_value(t)) == (s[i] < t[i]),
{
    let n = s.len() as int;
    let ps = s.subrange(0, i + 1);
    let pt = t.subrange(0, i + 1);
    let rs = s.subrange(i + 1, n);
    let rt = t.subrange(i + 1, n);
    assert(s =~= ps + rs);
    assert(t =~= pt + rt);
    lemma_be_value_append(ps, rs);
    lemma_be_value_append(pt, rt);
    lemma_be_value_bound(rs);
    lemma_be_value_bound(rt);
    assert(ps.drop_last() =~= pt.drop_last());
    let m = pow256(rs.len());
    if s[i] < t[i] {
        lemma_lex_lt(be_value(ps), be_value(pt), be_value(rs), be_value(rt), m);
    } else {
        lemma_lex_lt(be_value(pt), be_value(ps), be_value(rt), be_value(rs), m);
    }
}

} // verus!
