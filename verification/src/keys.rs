use vstd::prelude::*;
use crate::text::{decimal, push_decimal};
use crate::ids::{hyphenated, uuid_hyphenated};

verus! {

/// The four little-endian bytes of `x`.
pub open spec fn le32(x: nat) -> Seq<u8> {
    seq![(x % 256) as u8, ((x / 256) % 256) as u8, ((x / 65536) % 256) as u8, ((x / 16777216) % 256) as u8]
}

/// A write-set key: each part prefixed by its length (modulo 2^32) as four
/// little-endian bytes, concatenated.
pub open spec fn ws_key_spec(parts: Seq<Seq<u8>>) -> Seq<u8>
    decreases parts.len(),
{
    if parts.len() == 0 {
        Seq::empty()
    } else {
        ws_key_spec(parts.drop_last()) + le32(parts.last().len() % 0x1_0000_0000) + parts.last()
    }
}

/// Builds the conflict key of a transaction's write from its parts.
pub fn ws_key(parts: &Vec<Vec<u8>>) -> (k: Vec<u8>)
    ensures
        k@ == ws_key_spec(Seq::new(parts@.len(), |i: int| parts@[i]@)),
{
    let mut k: Vec<u8> = Vec::new();
    let mut i: usize = 0;
    while i < parts.len()
        invariant
            i <= parts@.len(),
            k@ == ws_key_spec(Seq::new(i as nat, |j: int| parts@[j]@)),
        decreases parts@.len() - i,
    {
        let p = &parts[i];
        let n: u64 = (p.len() as u64) % 0x1_0000_0000;
        k.push((n % 256) as u8);
        k.push(((n / 256) % 256) as u8);
        k.push(((n / 65536) % 256) as u8);
        k.push(((n / 16777216) % 256) as u8);
        let mut j: usize = 0;
        let ghost base = k@;
        while j < p.len()
            invariant
                j <= p@.len(),
                k@ == base + p@.take(j as int),
            decreases p@.len() - j,
        {
            k.push(p[j]);
            j = j + 1;
            assert(k@ =~= base + p@.take(j as int));
        }
        proof {
            let s = Seq::new((i + 1) as nat, |j: int| parts@[j]@);
            assert(s.drop_last() =~= Seq::new(i as nat, |j: int| parts@[j]@));
            assert(p@.take(p@.len() as int) =~= p@);
            assert(k@ =~= ws_key_spec(s));
        }
        i = i + 1;
    }
    k
}

/// The total length of a write-set key: each part plus its four length bytes.
pub open spec fn ws_key_len(parts: Seq<Seq<u8>>) -> nat
    decreases parts.len(),
{
    if parts.len() == 0 {
        0
    } else {
        ws_key_len(parts.drop_last()) + parts.last().len() + 4
    }
}

/// Every part is shorter than 2^32 bytes, so its length prefix is exact.
pub open spec fn parts_fit(parts: Seq<Seq<u8>>) -> bool {
    forall|i: int| 0 <= i < parts.len() ==> (#[trigger] parts[i]).len() < 0x1_0000_0000
}

/// Four little-endian bytes name one number below 2^32.
proof fn lemma_le32_injective(x: nat, y: nat)
    requires
        x < 0x1_0000_0000,
        y < 0x1_0000_0000,
        le32(x) == le32(y),
    ensures
        x == y,
{
    let xu = x as u32;
    let yu = y as u32;
    assert(le32(x)[0] == le32(y)[0] && le32(x)[1] == le32(y)[1] && le32(x)[2] == le32(y)[2] && le32(x)[3] == le32(y)[3]);
    assert(xu % 256 == yu % 256);
    assert((xu / 256) % 256 == (yu / 256) % 256);
    assert((xu / 65536) % 256 == (yu / 65536) % 256);
    assert((xu / 16777216) % 256 == (yu / 16777216) % 256);
    assert(xu == yu) by (bit_vector)
        requires
            xu % 256 == yu % 256,
            (xu / 256) % 256 == (yu / 256) % 256,
            (xu / 65536) % 256 == (yu / 65536) % 256,
            (xu / 16777216) % 256 == (yu / 16777216) % 256,
    ;
}

/// A write-set key read from the front: the first part's length bytes, the
/// first part, then the key of the other parts.
proof fn lemma_ws_key_front(parts: Seq<Seq<u8>>)
    requires
        parts.len() > 0,
    ensures
        ws_key_spec(parts) == le32(parts[0].len() % 0x1_0000_0000) + parts[0] + ws_key_spec(parts.drop_first()),
    decreases parts.len(),
{
    if parts.len() == 1 {
        assert(parts.drop_last() =~= Seq::<Seq<u8>>::empty());
        assert(parts.drop_first() =~= Seq::<Seq<u8>>::empty());
        assert(ws_key_spec(parts) =~= le32(parts[0].len() % 0x1_0000_0000) + parts[0] + ws_key_spec(parts.drop_first()));
    } else {
        lemma_ws_key_front(parts.drop_last());
        assert(parts.drop_last().drop_first() =~= parts.drop_first().drop_last());
        assert(parts.drop_first().last() == parts.last());
        assert(parts.drop_last()[0] == parts[0]);
        assert(ws_key_spec(parts) =~= le32(parts[0].len() % 0x1_0000_0000) + parts[0] + ws_key_spec(parts.drop_first()));
    }
}

/// A write-set key is as long as its parts plus four bytes for each.
pub proof fn lemma_ws_key_len(parts: Seq<Seq<u8>>)
    ensures
        ws_key_spec(parts).len() == ws_key_len(parts),
    decreases parts.len(),
{
    if parts.len() > 0 {
        lemma_ws_key_len(parts.drop_last());
    }
}

/// What the front of a write-set key holds: the first part's length bytes,
/// the first part, and after them the key of the other parts.
proof fn lemma_ws_key_split(a: Seq<Seq<u8>>)
    requires
        a.len() > 0,
        parts_fit(a),
    ensures
        ws_key_spec(a).len() >= 4 + a[0].len(),
        ws_key_spec(a).take(4) == le32(a[0].len()),
        ws_key_spec(a).subrange(4, 4 + a[0].len() as int) == a[0],
        ws_key_spec(a).skip(4 + a[0].len() as int) == ws_key_spec(a.drop_first()),
        parts_fit(a.drop_first()),
        a == seq![a[0]] + a.drop_first(),
{
    lemma_ws_key_front(a);
    let k = ws_key_spec(a);
    let la = a[0].len();
    assert(la < 0x1_0000_0000);
    assert(la % 0x1_0000_0000 == la);
    assert(k.take(4) =~= le32(la));
    assert(k.subrange(4, 4 + la as int) =~= a[0]);
    assert(k.skip(4 + la as int) =~= ws_key_spec(a.drop_first()));
    assert forall|i: int| 0 <= i < a.drop_first().len() implies (#[trigger] a.drop_first()[i]).len() < 0x1_0000_0000 by {
        assert(a.drop_first()[i] == a[i + 1]);
    }
    assert(a =~= seq![a[0]] + a.drop_first());
}

/// Write-set keys tell their parts apart: for parts shorter than 2^32
/// bytes, equal keys come only from equal lists of parts (`["ab", "c"]` and
/// `["a", "bc"]` give different keys), so two writes conflict exactly when
/// they name the same thing.
pub proof fn lemma_ws_key_injective(a: Seq<Seq<u8>>, b: Seq<Seq<u8>>)
    requires
        parts_fit(a),
        parts_fit(b),
        ws_key_spec(a) == ws_key_spec(b),
    ensures
        a == b,
    decreases a.len(),
{
    if a.len() == 0 {
        if b.len() > 0 {
            lemma_ws_key_split(b);
        }
        assert(a =~= b);
    } else if b.len() == 0 {
        lemma_ws_key_split(a);
    } else {
        lemma_ws_key_split(a);
        lemma_ws_key_split(b);
        lemma_le32_injective(a[0].len(), b[0].len());
        assert(a[0] == b[0]);
        lemma_ws_key_injective(a.drop_first(), b.drop_first());
    }
}

/// The index key of a string value.
pub open spec fn str_key_spec(v: Seq<char>) -> Seq<char> {
    seq!['\u{1}'] + v
}

/// The index key of an unsigned value.
pub open spec fn u64_key_spec(v: u64) -> Seq<char> {
    seq!['\u{2}'] + decimal(v as nat)
}

/// The index key of an id value.
pub open spec fn id_key_spec(v: u128) -> Seq<char> {
    seq!['\u{1}'] + hyphenated(v)
}

pub fn str_key(v: &str) -> (k: String)
    ensures
        k@ == str_key_spec(v@),
{
    proof {
        reveal_strlit("\u{1}");
    }
    let mut k = String::from_str("\u{1}");
    k.append(v);
    k
}

pub fn u64_key(v: u64) -> (k: String)
    ensures
        k@ == u64_key_spec(v),
{
    proof {
        reveal_strlit("\u{2}");
    }
    let mut k = String::from_str("\u{2}");
    push_decimal(&mut k, v);
    k
}

pub fn id_key(v: u128) -> (k: String)
    ensures
        k@ == id_key_spec(v),
{
    proof {
        reveal_strlit("\u{1}");
    }
    let mut k = String::from_str("\u{1}");
    let h = uuid_hyphenated(v);
    k.append(h.as_str());
    k
}

} // verus!
