//! The canonical byte encoding of the store's map: each entry is three
//! length-prefixed fields (name, nonce, sealed value), one after another,
//! with 8-byte little-endian length prefixes. Decoding is proved to invert
//! encoding exactly.

use vstd::prelude::*;
use vstd::slice::{slice_subrange, slice_to_vec};
use vstd::utf8::{decode_utf8, encode_utf8, valid_utf8};

verus! {

/// The mathematical content of one stored entry: the name's characters and
/// the record's nonce and sealed bytes.
pub type EntryView = (Seq<char>, (Seq<u8>, Seq<u8>));

/// 256 to the power `k`.
pub open spec fn pow256(k: nat) -> nat
    decreases k,
{
    if k == 0 {
        1
    } else {
        256 * pow256((k - 1) as nat)
    }
}

pub proof fn lemma_pow256_values()
    ensures
        pow256(0) == 1,
        pow256(1) == 0x100,
        pow256(2) == 0x10000,
        pow256(3) == 0x1000000,
        pow256(4) == 0x100000000,
        pow256(5) == 0x10000000000,
        pow256(6) == 0x1000000000000,
        pow256(7) == 0x100000000000000,
        pow256(8) == 0x10000000000000000,
{
    reveal_with_fuel(pow256, 10);
}

/// The `k` little-endian bytes of `n`.
pub open spec fn le_bytes(n: nat, k: nat) -> Seq<u8>
    decreases k,
{
    if k == 0 {
        Seq::empty()
    } else {
        seq![(n % 256) as u8] + le_bytes(n / 256, (k - 1) as nat)
    }
}

/// The number a little-endian byte string encodes.
pub open spec fn le_val(s: Seq<u8>) -> nat
    decreases s.len(),
{
    if s.len() == 0 {
        0
    } else {
        (s[0] as nat) + 256 * le_val(s.drop_first())
    }
}

/// Law: reading back the `k` little-endian bytes of `n` yields `n` again.
pub proof fn lemma_le_round_trip(n: nat, k: nat)
    requires
        n < pow256(k),
    ensures
        le_bytes(n, k).len() == k,
        le_val(le_bytes(n, k)) == n,
    decreases k,
{
    if k == 0 {
    } else {
        assert(le_bytes(n, k).drop_first() =~= le_bytes(n / 256, (k - 1) as nat));
        vstd::arithmetic::div_mod::lemma_fundamental_div_mod(n as int, 256);
        assert(n / 256 < pow256((k - 1) as nat)) by {
            if n / 256 >= pow256((k - 1) as nat) {
                vstd::arithmetic::mul::lemma_mul_inequality(
                    pow256((k - 1) as nat) as int,
                    (n / 256) as int,
                    256,
                );
            }
        }
        lemma_le_round_trip(n / 256, (k - 1) as nat);
    }
}

/// The encoding of one length-prefixed field: 8 length bytes, then the data.
pub open spec fn field_bytes(data: Seq<u8>) -> Seq<u8> {
    le_bytes(data.len(), 8) + data
}

/// Splits one length-prefixed field off the front of `bytes`, or refuses
/// bytes too short for their own length prefix.
pub open spec fn parse_field(bytes: Seq<u8>) -> Option<(Seq<u8>, Seq<u8>)> {
    if bytes.len() < 8 {
        None
    } else {
        let l = le_val(bytes.take(8)) as int;
        if bytes.len() < 8 + l {
            None
        } else {
            Some((bytes.subrange(8, 8 + l), bytes.skip(8 + l)))
        }
    }
}

/// Law: a field followed by anything parses back to exactly that field,
/// with the rest untouched.
pub proof fn lemma_field_round_trip(data: Seq<u8>, tail: Seq<u8>)
    requires
        data.len() < pow256(8),
    ensures
        parse_field(field_bytes(data) + tail) == Some((data, tail)),
{
    let enc = field_bytes(data) + tail;
    lemma_le_round_trip(data.len(), 8);
    assert(enc.take(8) =~= le_bytes(data.len(), 8));
    assert(enc.len() >= 8 + data.len());
    assert(enc.subrange(8, 8 + data.len() as int) =~= data);
    assert(enc.skip(8 + data.len() as int) =~= tail);
}

/// The encoding of one entry: name bytes (UTF-8), nonce and sealed value,
/// each as a length-prefixed field.
pub open spec fn entry_bytes(e: EntryView) -> Seq<u8> {
    field_bytes(encode_utf8(e.0)) + field_bytes(e.1.0) + field_bytes(e.1.1)
}

/// Splits one entry off the front of `bytes`; the name field must be valid
/// UTF-8.
pub open spec fn parse_entry(bytes: Seq<u8>) -> Option<(EntryView, Seq<u8>)> {
    match parse_field(bytes) {
        Option::None => None,
        Option::Some((nb, r1)) => if !valid_utf8(nb) {
            None
        } else {
            match parse_field(r1) {
                Option::None => None,
                Option::Some((iv, r2)) => match parse_field(r2) {
                    Option::None => None,
                    Option::Some((value, rest)) => Some(
                        ((decode_utf8(nb), (iv, value)), rest),
                    ),
                },
            }
        },
    }
}

/// The encoding of a whole store: its entries, one after another.
pub open spec fn store_bytes(vs: Seq<EntryView>) -> Seq<u8>
    decreases vs.len(),
{
    if vs.len() == 0 {
        Seq::empty()
    } else {
        entry_bytes(vs[0]) + store_bytes(vs.drop_first())
    }
}

/// Parses a whole store: entries until the bytes run out, refusing any
/// leftover or malformed bytes.
pub open spec fn parse_store(bytes: Seq<u8>) -> Option<Seq<EntryView>>
    decreases bytes.len(),
{
    if bytes.len() == 0 {
        Some(Seq::empty())
    } else {
        match parse_entry(bytes) {
            Option::None => None,
            Option::Some((e, rest)) => if rest.len() < bytes.len() {
                match parse_store(rest) {
                    Option::None => None,
                    Option::Some(es) => Some(seq![e] + es),
                }
            } else {
                None
            },
        }
    }
}

/// Law: one encoded entry followed by anything parses back to exactly that
/// entry, with the rest untouched.
#[verifier::spinoff_prover]
#[verifier::rlimit(100)]
pub proof fn lemma_entry_round_trip(e: EntryView, tail: Seq<u8>)
    requires
        encode_utf8(e.0).len() < pow256(8),
        e.1.0.len() < pow256(8),
        e.1.1.len() < pow256(8),
    ensures
        parse_entry(entry_bytes(e) + tail) == Some((e, tail)),
{
    let nb = encode_utf8(e.0);
    let iv = e.1.0;
    let value = e.1.1;
    let buf = entry_bytes(e) + tail;
    let rest2 = field_bytes(value) + tail;
    let rest1 = field_bytes(iv) + rest2;
    assert(buf =~= field_bytes(nb) + rest1);
    lemma_field_round_trip(nb, rest1);
    assert(parse_field(buf) == Some((nb, rest1)));
    vstd::utf8::encode_utf8_valid_utf8(e.0);
    assert(valid_utf8(nb));
    lemma_field_round_trip(iv, rest2);
    assert(parse_field(rest1) == Some((iv, rest2)));
    lemma_field_round_trip(value, tail);
    assert(parse_field(rest2) == Some((value, tail)));
    vstd::utf8::encode_utf8_decode_utf8(e.0);
    assert(decode_utf8(nb) == e.0);
    assert(parse_entry(buf) == Some(((decode_utf8(nb), (iv, value)), tail)));
    assert((decode_utf8(nb), (iv, value)) == e);
}

/// Every entry's fields fit their 8-byte length prefixes.
pub open spec fn bounded_entries(vs: Seq<EntryView>) -> bool {
    forall|i: int|
        0 <= i < vs.len() ==> encode_utf8((#[trigger] vs[i]).0).len() < pow256(8) && vs[i].1.0.len()
            < pow256(8) && vs[i].1.1.len() < pow256(8)
}

/// Law: the store encoding round-trips — parsing the encoded entries yields
/// exactly the entries again.
pub proof fn lemma_store_round_trip(vs: Seq<EntryView>)
    requires
        bounded_entries(vs),
    ensures
        parse_store(store_bytes(vs)) == Some(vs),
    decreases vs.len(),
{
    if vs.len() == 0 {
        assert(store_bytes(vs).len() == 0);
        assert(parse_store(store_bytes(vs)) == Some(vs));
    } else {
        let rest = store_bytes(vs.drop_first());
        lemma_entry_round_trip(vs[0], rest);
        lemma_le_round_trip(encode_utf8(vs[0].0).len(), 8);
        lemma_le_round_trip(vs[0].1.0.len(), 8);
        lemma_le_round_trip(vs[0].1.1.len(), 8);
        assert(entry_bytes(vs[0]).len() >= 24);
        assert(bounded_entries(vs.drop_first())) by {
            assert(forall|i: int|
                0 <= i < vs.drop_first().len() ==> vs.drop_first()[i] == vs[i + 1]);
        }
        lemma_store_round_trip(vs.drop_first());
        assert(seq![vs[0]] + vs.drop_first() =~= vs);
    }
}

/// Appending an entry appends its encoding.
pub proof fn lemma_store_bytes_snoc(vs: Seq<EntryView>, e: EntryView)
    ensures
        store_bytes(vs.push(e)) == store_bytes(vs) + entry_bytes(e),
    decreases vs.len(),
{
    if vs.len() == 0 {
        assert(vs.push(e)[0] == e);
        assert(vs.push(e).drop_first() =~= Seq::<EntryView>::empty());
        assert(store_bytes(vs.push(e)) == entry_bytes(e) + store_bytes(
            Seq::<EntryView>::empty(),
        ));
        assert(entry_bytes(e) + Seq::<u8>::empty() =~= entry_bytes(e));
        assert(store_bytes(vs) + entry_bytes(e) =~= entry_bytes(e));
    } else {
        assert(vs.push(e).drop_first() =~= vs.drop_first().push(e));
        lemma_store_bytes_snoc(vs.drop_first(), e);
        assert(vs.push(e)[0] == vs[0]);
        assert(entry_bytes(vs[0]) + (store_bytes(vs.drop_first()) + entry_bytes(e)) =~= (
        entry_bytes(vs[0]) + store_bytes(vs.drop_first())) + entry_bytes(e));
    }
}

/// The decoder's loop relation: what the whole buffer parses to is what the
/// finished entries plus whatever the remaining bytes parse to.
pub open spec fn parse_rel(whole: Seq<u8>, rest: Seq<u8>, done: Seq<EntryView>) -> bool {
    parse_store(whole) == match parse_store(rest) {
        Option::None => None::<Seq<EntryView>>,
        Option::Some(es) => Some(done + es),
    }
}

/// Reads the 8-byte little-endian number at `pos`.
pub(crate) fn read_le64(bytes: &[u8], pos: usize) -> (r: u64)
    requires
        pos + 8 <= bytes@.len(),
    ensures
        r as nat == le_val(bytes@.subrange(pos as int, pos as int + 8)),
{
    proof {
        lemma_pow256_values();
    }
    let n = bytes.len();
    let mut r: u64 = 0;
    let mut k: usize = 8;
    while k > 0
        invariant
            n == bytes@.len(),
            pos + 8 <= n,
            0 <= k <= 8,
            r as nat == le_val(bytes@.subrange(pos as int + k, pos as int + 8)),
            (r as nat) < pow256((8 - k) as nat),
        decreases k,
    {
        proof {
            lemma_pow256_values();
            assert(pow256((8 - k) as nat) <= pow256(7)) by {
                reveal_with_fuel(pow256, 10);
            }
        }
        k = k - 1;
        let b = bytes[pos + k];
        proof {
            let s = bytes@.subrange(pos as int + k, pos as int + 8);
            assert(s[0] == bytes@[pos as int + k]);
            assert(s.drop_first() =~= bytes@.subrange(pos as int + k + 1, pos as int + 8));
        }
        r = r * 256 + (b as u64);
    }
    proof {
        assert(bytes@.subrange(pos as int, pos as int + 8) == bytes@.subrange(
            pos as int + 0,
            pos as int + 8,
        ));
    }
    r
}

/// Appends the 8-byte little-endian encoding of `n`.
pub(crate) fn push_le64(out: &mut Vec<u8>, n: u64)
    ensures
        final(out)@ == old(out)@ + le_bytes(n as nat, 8),
{
    let mut m = n;
    let mut k: usize = 8;
    while k > 0
        invariant
            out@ + le_bytes(m as nat, k as nat) == old(out)@ + le_bytes(n as nat, 8),
        decreases k,
    {
        let b = (m % 256) as u8;
        proof {
            assert(le_bytes(m as nat, k as nat) =~= seq![(m as nat % 256) as u8] + le_bytes(
                m as nat / 256,
                (k - 1) as nat,
            ));
            assert(out@.push(b) + le_bytes(m as nat / 256, (k - 1) as nat) =~= out@ + le_bytes(
                m as nat,
                k as nat,
            ));
        }
        out.push(b);
        m = m / 256;
        k = k - 1;
    }
    assert(out@ =~= out@ + le_bytes(m as nat, 0));
}

/// Appends a copy of `src`.
pub(crate) fn push_slice(out: &mut Vec<u8>, src: &[u8])
    ensures
        final(out)@ == old(out)@ + src@,
{
    let mut i: usize = 0;
    while i < src.len()
        invariant
            0 <= i <= src@.len(),
            out@ == old(out)@ + src@.take(i as int),
        decreases src@.len() - i,
    {
        out.push(src[i]);
        proof {
            assert(old(out)@ + src@.take(i as int) + seq![src@[i as int]] =~= old(out)@
                + src@.take(i as int + 1));
        }
        i = i + 1;
    }
    assert(old(out)@ + src@.take(src@.len() as int) =~= old(out)@ + src@);
}

/// Reads one length-prefixed field starting at `pos`, returning the data and
/// the position after it, or nothing where the bytes are too short.
pub(crate) fn read_field(bytes: &[u8], pos: usize) -> (r: Option<(Vec<u8>, usize)>)
    requires
        pos <= bytes@.len(),
    ensures
        match r {
            Option::Some(p) => {
                &&& parse_field(bytes@.skip(pos as int)) == Some((p.0@, bytes@.skip(p.1 as int)))
                &&& pos + 8 <= p.1 <= bytes@.len()
                &&& p.1 == pos + 8 + p.0@.len()
            },
            Option::None => parse_field(bytes@.skip(pos as int)) is None,
        },
{
    let n = bytes.len();
    if n - pos < 8 {
        proof {
            assert(bytes@.skip(pos as int).len() < 8);
        }
        return None;
    }
    let l = read_le64(bytes, pos);
    proof {
        assert(bytes@.skip(pos as int).take(8) =~= bytes@.subrange(pos as int, pos as int + 8));
    }
    if l > (n - pos - 8) as u64 {
        proof {
            assert(bytes@.skip(pos as int).len() < 8 + l);
        }
        return None;
    }
    let lu = l as usize;
    let data = slice_to_vec(slice_subrange(bytes, pos + 8, pos + 8 + lu));
    proof {
        assert(data@ =~= bytes@.skip(pos as int).subrange(8, 8 + l as int));
        assert(bytes@.skip((pos + 8 + lu) as int) =~= bytes@.skip(pos as int).skip(8 + l as int));
    }
    Some((data, pos + 8 + lu))
}

} // verus!
