use vstd::prelude::*;
use vstd::arithmetic::power::{pow, lemma_pow_positive};
use vstd::arithmetic::div_mod::{lemma_basic_div, lemma_div_denominator, lemma_fundamental_div_mod};

verus! {

/// Byte `i` (0 = most significant) of a 128-bit id.
pub open spec fn id_byte(id: u128, i: int) -> nat {
    ((id as int / pow(256, (15 - i) as nat)) % 256) as nat
}

/// A lower-case hexadecimal digit.
pub open spec fn hex_digit(n: nat) -> char {
    if n < 10 { (48 + n) as char } else { (87 + n) as char }
}

/// Lower-case hex of bytes `from..to` of an id.
pub open spec fn hex_bytes(id: u128, from: int, to: int) -> Seq<char> {
    Seq::new((2 * (to - from)) as nat, |j: int| {
        let b = id_byte(id, from + j / 2);
        if j % 2 == 0 { hex_digit(b / 16) } else { hex_digit(b % 16) }
    })
}

/// The hyphenated lower-case form of an id: 8-4-4-4-12 hex digits.
pub open spec fn hyphenated(id: u128) -> Seq<char> {
    hex_bytes(id, 0, 4) + seq!['-'] + hex_bytes(id, 4, 6) + seq!['-'] + hex_bytes(id, 6, 8) + seq!['-']
        + hex_bytes(id, 8, 10) + seq!['-'] + hex_bytes(id, 10, 16)
}

/// Renders an id in hyphenated lower-case form.
///
/// Calls `uuid::Uuid::from_u128` and `Hyphenated::encode_lower`; trusted to
/// produce the 8-4-4-4-12 lower-case hex rendering of the big-endian bytes,
/// as the uuid documentation states.
#[verifier::external_body]
pub(crate) fn uuid_hyphenated(id: u128) -> (s: String)
    ensures
        s@ == hyphenated(id),
{
    let mut buf = [0u8; 36];
    uuid::Uuid::from_u128(id).hyphenated().encode_lower(&mut buf).to_string()
}

/// Big-endian bytes of a 128-bit value.
pub open spec fn be_bytes(v: int) -> Seq<u8> {
    Seq::new(16, |i: int| ((v / pow(256, (15 - i) as nat)) % 256) as u8)
}

/// Builds a UUID from a 128-bit value and returns its bytes.
///
/// Calls `uuid::Uuid::from_u128` and `Uuid::into_bytes`; trusted to return the
/// value's big-endian bytes, as the uuid documentation states.
#[verifier::external_body]
pub(crate) fn uuid_bytes_from_u128(v: u128) -> (b: [u8; 16])
    ensures
        b@ == be_bytes(v as int),
{
    uuid::Uuid::from_u128(v).into_bytes()
}

/// The 128-bit value of big-endian id bytes.
pub open spec fn id_from_bytes(b: Seq<u8>) -> int
    decreases b.len(),
{
    if b.len() == 0 { 0 } else { id_from_bytes(b.drop_last()) * 256 + b.last() }
}

/// Reads an id from its 16 big-endian bytes.
///
/// Calls `uuid::Uuid::from_bytes` and `Uuid::as_u128`; trusted to return the
/// big-endian value of the bytes, as the uuid documentation states.
#[verifier::external_body]
pub(crate) fn id_from_be_bytes(b: &[u8; 16]) -> (id: u128)
    ensures
        id as int == id_from_bytes(b@),
{
    uuid::Uuid::from_bytes(*b).as_u128()
}

/// The id of the first 16 bytes of `bytes`.
pub fn uuid_of(bytes: &Vec<u8>) -> (id: u128)
    requires
        bytes@.len() >= 16,
    ensures
        id as int == id_from_bytes(bytes@.take(16)),
{
    let mut b = [0u8; 16];
    let mut i: usize = 0;
    while i < 16
        invariant
            i <= 16,
            bytes@.len() >= 16,
            forall|j: int| 0 <= j < i ==> b@[j] == bytes@[j],
        decreases 16 - i,
    {
        b[i] = bytes[i];
        i = i + 1;
    }
    assert(b@ =~= bytes@.take(16));
    id_from_be_bytes(&b)
}


proof fn lemma_be_prefix(v: int, k: nat)
    requires
        0 <= v < pow(256, 16),
        k <= 16,
    ensures
        id_from_bytes(be_bytes(v).take(k as int)) == v / pow(256, (16 - k) as nat),
    decreases k,
{
    let b = be_bytes(v);
    if k == 0 {
        assert(b.take(0) =~= Seq::<u8>::empty());
        lemma_basic_div(v, pow(256, 16));
    } else {
        lemma_be_prefix(v, (k - 1) as nat);
        let s = b.take(k as int);
        assert(s.drop_last() =~= b.take(k - 1));
        let e = (16 - k) as nat;
        let p = pow(256, e);
        lemma_pow_positive(256, e);
        assert(pow(256, (e + 1) as nat) == 256 * p) by {
            reveal(pow);
        }
        assert((16 - (k - 1)) as nat == e + 1);
        let q = v / p;
        assert(q >= 0) by (nonlinear_arith)
            requires
                v >= 0,
                p > 0,
                q == v / p,
        ;
        lemma_div_denominator(v, p, 256);
        assert(p * 256 == 256 * p) by (nonlinear_arith);
        assert(v / pow(256, (e + 1) as nat) == q / 256);
        lemma_fundamental_div_mod(q, 256);
        assert(s.last() == b[k - 1]);
        assert((15 - (k - 1)) as nat == e);
        assert(b[k - 1] as int == q % 256);
        assert(id_from_bytes(s) == id_from_bytes(s.drop_last()) * 256 + s.last());
        assert(id_from_bytes(s) == (q / 256) * 256 + q % 256);
        assert((q / 256) * 256 == 256 * (q / 256)) by (nonlinear_arith);
    }
}

/// Reading back the big-endian bytes of an id gives the id.
pub proof fn lemma_be_roundtrip(v: u128)
    ensures
        id_from_bytes(be_bytes(v as int)) == v,
{
    assert(pow(256, 16) == 0x1_0000_0000_0000_0000_0000_0000_0000_0000) by {
        reveal_with_fuel(pow, 17);
    }
    lemma_be_prefix(v as int, 16);
    assert(be_bytes(v as int).take(16) =~= be_bytes(v as int));
    assert(pow(256, 0) == 1) by {
        reveal(pow);
    }
}

/// Distinct hex digits are distinct characters.
proof fn lemma_hex_digit_injective(x: nat, y: nat)
    requires
        x < 16,
        y < 16,
        hex_digit(x) == hex_digit(y),
    ensures
        x == y,
{
    let cx = hex_digit(x);
    let cy = hex_digit(y);
    assert(cx as int == if x < 10 { 48 + x } else { 87 + x });
    assert(cy as int == if y < 10 { 48 + y } else { 87 + y });
}

/// Equal hex renderings of bytes `from..to` come from equal bytes.
proof fn lemma_hex_bytes_injective(a: u128, b: u128, from: int, to: int)
    requires
        0 <= from <= to <= 16,
        hex_bytes(a, from, to) == hex_bytes(b, from, to),
    ensures
        forall|i: int| from <= i < to ==> #[trigger] id_byte(a, i) == id_byte(b, i),
{
    assert forall|i: int| from <= i < to implies #[trigger] id_byte(a, i) == id_byte(b, i) by {
        let j = 2 * (i - from);
        let x = id_byte(a, i);
        let y = id_byte(b, i);
        assert(hex_bytes(a, from, to)[j] == hex_bytes(b, from, to)[j]);
        assert(hex_bytes(a, from, to)[j + 1] == hex_bytes(b, from, to)[j + 1]);
        assert(j / 2 == i - from && j % 2 == 0 && (j + 1) / 2 == i - from && (j + 1) % 2 == 1);
        assert(0 <= j && j + 1 < 2 * (to - from));
        assert(hex_bytes(a, from, to)[j] == hex_digit(id_byte(a, from + j / 2) / 16));
        assert(hex_bytes(b, from, to)[j] == hex_digit(id_byte(b, from + j / 2) / 16));
        assert(hex_bytes(a, from, to)[j + 1] == hex_digit(id_byte(a, from + (j + 1) / 2) % 16));
        assert(hex_bytes(b, from, to)[j + 1] == hex_digit(id_byte(b, from + (j + 1) / 2) % 16));
        assert(x < 256 && y < 256);
        assert(x / 16 < 16 && y / 16 < 16);
        lemma_hex_digit_injective(x / 16, y / 16);
        lemma_hex_digit_injective(x % 16, y % 16);
        assert(x == 16 * (x / 16) + x % 16);
        assert(y == 16 * (y / 16) + y % 16);
    }
}

/// The hyphenated form names one id: two ids with the same rendering are
/// the same id.
pub proof fn lemma_hyphenated_injective(a: u128, b: u128)
    requires
        hyphenated(a) == hyphenated(b),
    ensures
        a == b,
{
    let ha = hyphenated(a);
    let hb = hyphenated(b);
    assert(ha.subrange(0, 8) =~= hex_bytes(a, 0, 4));
    assert(hb.subrange(0, 8) =~= hex_bytes(b, 0, 4));
    assert(ha.subrange(9, 13) =~= hex_bytes(a, 4, 6));
    assert(hb.subrange(9, 13) =~= hex_bytes(b, 4, 6));
    assert(ha.subrange(14, 18) =~= hex_bytes(a, 6, 8));
    assert(hb.subrange(14, 18) =~= hex_bytes(b, 6, 8));
    assert(ha.subrange(19, 23) =~= hex_bytes(a, 8, 10));
    assert(hb.subrange(19, 23) =~= hex_bytes(b, 8, 10));
    assert(ha.subrange(24, 36) =~= hex_bytes(a, 10, 16));
    assert(hb.subrange(24, 36) =~= hex_bytes(b, 10, 16));
    lemma_hex_bytes_injective(a, b, 0, 4);
    lemma_hex_bytes_injective(a, b, 4, 6);
    lemma_hex_bytes_injective(a, b, 6, 8);
    lemma_hex_bytes_injective(a, b, 8, 10);
    lemma_hex_bytes_injective(a, b, 10, 16);
    assert forall|i: int| 0 <= i < 16 implies #[trigger] be_bytes(a as int)[i] == be_bytes(b as int)[i] by {
        assert(id_byte(a, i) == id_byte(b, i));
    }
    assert(be_bytes(a as int) =~= be_bytes(b as int));
    lemma_be_roundtrip(a);
    lemma_be_roundtrip(b);
}

} // verus!
