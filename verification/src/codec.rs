//! The persistence codec: the whole registry state as one byte blob.
//!
//! The format is length-prefixed and little-endian throughout: integers are
//! fixed-width, byte strings and lists carry a 64-bit count, strings are
//! their UTF-8 bytes, and sums carry a one-byte tag.  Every `enc_…` spec
//! function states the exact bytes of a value; each decoder ensures that on
//! any buffer that starts with the encoding of a value it returns that very
//! value and consumes exactly its encoding.

use vstd::bytes::{
    spec_u128_to_le_bytes, spec_u16_to_le_bytes, spec_u32_to_le_bytes, spec_u64_to_le_bytes,
    u128_from_le_bytes, u128_to_le_bytes, u16_from_le_bytes, u16_to_le_bytes, u32_from_le_bytes,
    u32_to_le_bytes, u64_from_le_bytes, u64_to_le_bytes,
};
use vstd::prelude::*;
use vstd::slice::{slice_subrange, slice_to_vec};
use vstd::utf8::{encode_utf8, encode_utf8_valid_utf8, encode_utf8_decode_utf8, valid_utf8};

use crate::ident::Principal;
use crate::model::{Collection, CollectionEntry, CollectionV, Logo, LogoExtension, LogoV, MetadataEntry, MetadataPart, MetadataPartV, MetadataPurpose, MetadataValue, MetadataValueV, Nft, NftV, OperatorEntry, PrincipalSet, State, StateV};

verus! {

/// A buffer holds the given bytes starting at the given position.
pub open spec fn starts_with(buf: Seq<u8>, pos: int, pat: Seq<u8>) -> bool {
    &&& 0 <= pos
    &&& pos + pat.len() <= buf.len()
    &&& buf.subrange(pos, pos + pat.len()) == pat
}

/// A buffer that starts with a concatenation starts with its first part,
/// and with its second part right after the first.
pub proof fn lemma_starts_with_split(buf: Seq<u8>, pos: int, a: Seq<u8>, b: Seq<u8>)
    requires
        starts_with(buf, pos, a + b),
    ensures
        starts_with(buf, pos, a),
        starts_with(buf, pos + a.len(), b),
{
    assert(buf.subrange(pos, pos + a.len()) =~= a) by {
        assert forall|i: int| 0 <= i < a.len() implies buf.subrange(pos, pos + a.len())[i] == a[i] by {
            assert(buf.subrange(pos, pos + (a + b).len())[i] == (a + b)[i]);
        }
    }
    assert(buf.subrange(pos + a.len(), pos + a.len() + b.len()) =~= b) by {
        assert forall|i: int|
            0 <= i < b.len() implies buf.subrange(pos + a.len(), pos + a.len() + b.len())[i]
            == b[i] by {
            assert(buf.subrange(pos, pos + (a + b).len())[a.len() + i] == (a + b)[a.len() + i]);
        }
    }
}

/// The encoding of a single byte.
pub open spec fn enc_u8(v: u8) -> Seq<u8> {
    seq![v]
}

/// The encoding of a 16-bit integer.
pub open spec fn enc_u16(v: u16) -> Seq<u8> {
    spec_u16_to_le_bytes(v)
}

/// The encoding of a 32-bit integer.
pub open spec fn enc_u32(v: u32) -> Seq<u8> {
    spec_u32_to_le_bytes(v)
}

/// The encoding of a 64-bit integer.
pub open spec fn enc_u64(v: u64) -> Seq<u8> {
    spec_u64_to_le_bytes(v)
}

/// The encoding of a 128-bit integer.
pub open spec fn enc_u128(v: u128) -> Seq<u8> {
    spec_u128_to_le_bytes(v)
}

/// The encoding of a byte string: its length, then its bytes.
pub open spec fn enc_bytes(s: Seq<u8>) -> Seq<u8> {
    enc_u64(s.len() as u64) + s
}

/// The encoding of a character string: its UTF-8 bytes as a byte string.
pub open spec fn enc_str(s: Seq<char>) -> Seq<u8> {
    enc_bytes(encode_utf8(s))
}

/// Appends bytes to the output buffer.
fn push_bytes(out: &mut Vec<u8>, s: &[u8])
    ensures
        final(out)@ == old(out)@ + s@,
{
    let n = s.len();
    let mut i: usize = 0;
    while i < n
        invariant
            n == s@.len(),
            i <= n,
            out@ =~= old(out)@ + s@.take(i as int),
        decreases n - i,
    {
        let b = *vstd::slice::slice_index_get(s, i);
        out.push(b);
        proof {
            assert(out@ =~= old(out)@ + s@.take(i + 1));
        }
        i += 1;
    }
    proof {
        assert(s@.take(n as int) =~= s@);
    }
}

/// Appends the encoding of a 64-bit integer.
fn push_u64(out: &mut Vec<u8>, v: u64)
    ensures
        final(out)@ == old(out)@ + enc_u64(v),
{
    let b = u64_to_le_bytes(v);
    push_bytes(out, b.as_slice());
}

/// Appends the encoding of a byte string.
fn push_len_bytes(out: &mut Vec<u8>, s: &[u8])
    ensures
        final(out)@ == old(out)@ + enc_bytes(s@),
{
    push_u64(out, s.len() as u64);
    push_bytes(out, s);
    proof {
        assert(out@ =~= old(out)@ + enc_bytes(s@));
    }
}

/// Reads one byte.
fn dec_u8(buf: &[u8], pos: &mut usize) -> (r: Option<u8>)
    requires
        *old(pos) <= buf@.len(),
    ensures
        *old(pos) <= *final(pos) <= buf@.len(),
        r matches Some(x) ==> *final(pos) == *old(pos) + 1 && buf@.subrange(
            *old(pos) as int,
            *final(pos) as int,
        ) == enc_u8(x),
        r is None ==> *final(pos) == *old(pos),
        forall|x: u8| starts_with(buf@, *old(pos) as int, enc_u8(x)) ==> r == Some(x),
    {
    let ghost p0 = *pos as int;
    let blen = buf.len();
    if blen - *pos < 1 {
        return None;
    }
    let b = *vstd::slice::slice_index_get(buf, *pos);
    *pos = *pos + 1;
    proof {
        assert(buf@.subrange(p0, *pos as int) =~= enc_u8(b));
        assert forall|x: u8| starts_with(buf@, p0, enc_u8(x)) implies Some(b) == Some(x) by {
            assert(buf@.subrange(p0, p0 + 1)[0] == x);
        }
    }
    Some(b)
}

/// Reads a 16-bit integer.
fn dec_u16(buf: &[u8], pos: &mut usize) -> (r: Option<u16>)
    requires
        *old(pos) <= buf@.len(),
    ensures
        *old(pos) <= *final(pos) <= buf@.len(),
        r matches Some(x) ==> *final(pos) == *old(pos) + 2 && buf@.subrange(
            *old(pos) as int,
            *final(pos) as int,
        ) == enc_u16(x),
        r is None ==> *final(pos) == *old(pos),
        forall|x: u16| starts_with(buf@, *old(pos) as int, enc_u16(x)) ==> r == Some(x),
    {
    proof {
        vstd::bytes::lemma_auto_spec_u16_to_from_le_bytes();
    }
    let ghost p0 = *pos as int;
    let blen = buf.len();
    if blen - *pos < 2 {
        return None;
    }
    let s = slice_subrange(buf, *pos, *pos + 2);
    let v = u16_from_le_bytes(s);
    *pos = *pos + 2;
    proof {
        assert(spec_u16_to_le_bytes(v) =~= s@);
        assert forall|x: u16| starts_with(buf@, p0, enc_u16(x)) implies Some(v) == Some(x) by {
            assert(s@ =~= buf@.subrange(p0, p0 + 2));
        }
    }
    Some(v)
}

/// Reads a 32-bit integer.
fn dec_u32(buf: &[u8], pos: &mut usize) -> (r: Option<u32>)
    requires
        *old(pos) <= buf@.len(),
    ensures
        *old(pos) <= *final(pos) <= buf@.len(),
        r matches Some(x) ==> *final(pos) == *old(pos) + 4 && buf@.subrange(
            *old(pos) as int,
            *final(pos) as int,
        ) == enc_u32(x),
        r is None ==> *final(pos) == *old(pos),
        forall|x: u32| starts_with(buf@, *old(pos) as int, enc_u32(x)) ==> r == Some(x),
    {
    proof {
        vstd::bytes::lemma_auto_spec_u32_to_from_le_bytes();
    }
    let ghost p0 = *pos as int;
    let blen = buf.len();
    if blen - *pos < 4 {
        return None;
    }
    let s = slice_subrange(buf, *pos, *pos + 4);
    let v = u32_from_le_bytes(s);
    *pos = *pos + 4;
    proof {
        assert(spec_u32_to_le_bytes(v) =~= s@);
        assert forall|x: u32| starts_with(buf@, p0, enc_u32(x)) implies Some(v) == Some(x) by {
            assert(s@ =~= buf@.subrange(p0, p0 + 4));
        }
    }
    Some(v)
}

/// Reads a 64-bit integer.
fn dec_u64(buf: &[u8], pos: &mut usize) -> (r: Option<u64>)
    requires
        *old(pos) <= buf@.len(),
    ensures
        *old(pos) <= *final(pos) <= buf@.len(),
        r matches Some(x) ==> *final(pos) == *old(pos) + 8 && buf@.subrange(
            *old(pos) as int,
            *final(pos) as int,
        ) == enc_u64(x),
        r is None ==> *final(pos) == *old(pos),
        forall|x: u64| starts_with(buf@, *old(pos) as int, enc_u64(x)) ==> r == Some(x),
    {
    proof {
        vstd::bytes::lemma_auto_spec_u64_to_from_le_bytes();
    }
    let ghost p0 = *pos as int;
    let blen = buf.len();
    if blen - *pos < 8 {
        return None;
    }
    let s = slice_subrange(buf, *pos, *pos + 8);
    let v = u64_from_le_bytes(s);
    *pos = *pos + 8;
    proof {
        assert(spec_u64_to_le_bytes(v) =~= s@);
        assert forall|x: u64| starts_with(buf@, p0, enc_u64(x)) implies Some(v) == Some(x) by {
            assert(s@ =~= buf@.subrange(p0, p0 + 8));
        }
    }
    Some(v)
}

/// Reads a 128-bit integer.
fn dec_u128(buf: &[u8], pos: &mut usize) -> (r: Option<u128>)
    requires
        *old(pos) <= buf@.len(),
    ensures
        *old(pos) <= *final(pos) <= buf@.len(),
        r matches Some(x) ==> *final(pos) == *old(pos) + 16 && buf@.subrange(
            *old(pos) as int,
            *final(pos) as int,
        ) == enc_u128(x),
        r is None ==> *final(pos) == *old(pos),
        forall|x: u128| starts_with(buf@, *old(pos) as int, enc_u128(x)) ==> r == Some(x),
    {
    proof {
        vstd::bytes::lemma_auto_spec_u128_to_from_le_bytes();
    }
    let ghost p0 = *pos as int;
    let blen = buf.len();
    if blen - *pos < 16 {
        return None;
    }
    let s = slice_subrange(buf, *pos, *pos + 16);
    let v = u128_from_le_bytes(s);
    *pos = *pos + 16;
    proof {
        assert(spec_u128_to_le_bytes(v) =~= s@);
        assert forall|x: u128| starts_with(buf@, p0, enc_u128(x)) implies Some(v) == Some(x) by {
            assert(s@ =~= buf@.subrange(p0, p0 + 16));
        }
    }
    Some(v)
}

/// Reads a byte string.
fn dec_bytes(buf: &[u8], pos: &mut usize) -> (r: Option<Vec<u8>>)
    requires
        *old(pos) <= buf@.len(),
    ensures
        *old(pos) <= *final(pos) <= buf@.len(),
        r matches Some(v) ==> *final(pos) == *old(pos) + enc_bytes(v@).len() && buf@.subrange(
            *old(pos) as int,
            *final(pos) as int,
        ) == enc_bytes(v@),
        r is None ==> *final(pos) == *old(pos),
        forall|x: Seq<u8>|
            starts_with(buf@, *old(pos) as int, enc_bytes(x)) ==> (r matches Some(v) && v@ == x
                && *final(pos) == *old(pos) + enc_bytes(x).len()),
    {
    let start = *pos;
    let ghost p0 = *pos as int;
    let blen = buf.len();
    let l = match dec_u64(buf, pos) {
        Some(l) => l,
        None => {
            proof {
                assert forall|x: Seq<u8>| !starts_with(buf@, p0, enc_bytes(x)) by {
                    if starts_with(buf@, p0, enc_bytes(x)) {
                        lemma_starts_with_split(buf@, p0, enc_u64(x.len() as u64), x);
                    }
                }
            }
            return None;
        },
    };
    if ((blen - *pos) as u64) < l {
        proof {
            let p1 = *pos as int;
            assert(usize::MAX <= u64::MAX);
            assert forall|x: Seq<u8>| !starts_with(buf@, p0, enc_bytes(x)) by {
                if starts_with(buf@, p0, enc_bytes(x)) {
                    lemma_starts_with_split(buf@, p0, enc_u64(x.len() as u64), x);
                    assert(x.len() <= buf@.len() - p1);
                    assert(x.len() as u64 == l);
                }
            }
        }
        *pos = start;
        return None;
    }
    let lu: usize = l as usize;
    let s = slice_subrange(buf, *pos, *pos + lu);
    let v = slice_to_vec(s);
    *pos = *pos + lu;
    proof {
        assert(buf@.subrange(p0, *pos as int) =~= enc_u64(l) + v@);
        assert(v@.len() as u64 == l);
        assert(buf@.subrange(p0, *pos as int) == enc_bytes(v@));
        assert(usize::MAX <= u64::MAX);
        assert forall|x: Seq<u8>| starts_with(buf@, p0, enc_bytes(x)) implies v@ == x by {
            lemma_starts_with_split(buf@, p0, enc_u64(x.len() as u64), x);
            assert(x.len() <= buf@.len() - p0 - 8);
            assert(x.len() as u64 == l);
            assert(x.len() == lu);
            assert(x =~= v@);
        }
    }
    Some(v)
}


/// Concatenation of the encodings of a sequence of items.
pub open spec fn enc_items<T>(s: Seq<T>, f: spec_fn(T) -> Seq<u8>) -> Seq<u8>
    decreases s.len(),
{
    if s.len() == 0 {
        Seq::empty()
    } else {
        f(s[0]) + enc_items(s.drop_first(), f)
    }
}

/// The encoding of a list: its count, then its items.
pub open spec fn enc_list<T>(s: Seq<T>, f: spec_fn(T) -> Seq<u8>) -> Seq<u8> {
    enc_u64(s.len() as u64) + enc_items(s, f)
}

/// The item encodings split at any index.
pub proof fn lemma_enc_items_split<T>(s: Seq<T>, f: spec_fn(T) -> Seq<u8>, i: int)
    requires
        0 <= i <= s.len(),
    ensures
        enc_items(s, f) == enc_items(s.take(i), f) + enc_items(s.skip(i), f),
    decreases i,
{
    if i == 0 {
        assert(s.take(0) =~= Seq::<T>::empty());
        assert(s.skip(0) =~= s);
        assert(enc_items(s.take(0), f) + enc_items(s.skip(0), f) =~= enc_items(s, f));
    } else {
        let d = s.drop_first();
        lemma_enc_items_split(d, f, i - 1);
        assert(d.take(i - 1) =~= s.take(i).drop_first());
        assert(d.skip(i - 1) =~= s.skip(i));
        assert(s.take(i)[0] == s[0]);
        assert(enc_items(s.take(i), f) == f(s[0]) + enc_items(d.take(i - 1), f));
        assert(f(s[0]) + (enc_items(d.take(i - 1), f) + enc_items(d.skip(i - 1), f)) =~= (f(s[0])
            + enc_items(d.take(i - 1), f)) + enc_items(d.skip(i - 1), f));
    }
}

/// One more item appends its encoding.
pub proof fn lemma_enc_items_snoc<T>(s: Seq<T>, f: spec_fn(T) -> Seq<u8>, i: int)
    requires
        0 <= i < s.len(),
    ensures
        enc_items(s.take(i + 1), f) == enc_items(s.take(i), f) + f(s[i]),
        enc_items(s.skip(i), f) == f(s[i]) + enc_items(s.skip(i + 1), f),
{
    let t = s.take(i + 1);
    lemma_enc_items_split(t, f, i);
    assert(t.take(i) =~= s.take(i));
    assert(t.skip(i) =~= seq![s[i]]);
    assert(seq![s[i]].drop_first() =~= Seq::<T>::empty());
    assert(seq![s[i]][0] == s[i]);
    assert(enc_items(Seq::<T>::empty(), f) =~= Seq::<u8>::empty());
    assert(enc_items(seq![s[i]], f) == f(s[i]) + enc_items(seq![s[i]].drop_first(), f));
    assert(f(s[i]) + Seq::<u8>::empty() =~= f(s[i]));
    assert(enc_items(seq![s[i]], f) =~= f(s[i]));
    let k = s.skip(i);
    assert(k[0] == s[i]);
    assert(k.drop_first() =~= s.skip(i + 1));
}

/// Every item encoding is non-empty, so a list of items is at least as
/// long as its count.
pub proof fn lemma_enc_items_len<T>(s: Seq<T>, f: spec_fn(T) -> Seq<u8>)
    requires
        forall|t: T| (#[trigger] f(t)).len() >= 1,
    ensures
        enc_items(s, f).len() >= s.len(),
    decreases s.len(),
{
    if s.len() > 0 {
        lemma_enc_items_len(s.drop_first(), f);
    }
}

/// Relies on core::str::from_utf8: it accepts exactly the valid UTF-8 byte
/// strings, and returns the string whose UTF-8 encoding they are.
#[verifier::external_body]
fn utf8_to_string(bytes: &[u8]) -> (r: Option<String>)
    ensures
        r matches Some(s) ==> encode_utf8(s@) == bytes@,
        valid_utf8(bytes@) ==> r is Some,
{
    match core::str::from_utf8(bytes) {
        Ok(s) => Some(s.to_owned()),
        Err(_) => None,
    }
}

/// Appends the encoding of a character string.
fn push_str(out: &mut Vec<u8>, s: &str)
    ensures
        final(out)@ == old(out)@ + enc_str(s@),
{
    let b = s.as_bytes();
    push_len_bytes(out, b);
}

/// Reads a character string.
fn dec_str(buf: &[u8], pos: &mut usize) -> (r: Option<String>)
    requires
        *old(pos) <= buf@.len(),
    ensures
        *old(pos) <= *final(pos) <= buf@.len(),
        r matches Some(v) ==> *final(pos) == *old(pos) + enc_str(v@).len() && buf@.subrange(
            *old(pos) as int,
            *final(pos) as int,
        ) == enc_str(v@),
        r is None ==> *final(pos) == *old(pos),
        forall|x: Seq<char>|
            starts_with(buf@, *old(pos) as int, enc_str(x)) ==> (r matches Some(v) && v@ == x
                && *final(pos) == *old(pos) + enc_str(x).len()),
{
    let start = *pos;
    let ghost p0 = *pos as int;
    let bs = match dec_bytes(buf, pos) {
        Some(b) => b,
        None => {
            return None;
        },
    };
    match utf8_to_string(bs.as_slice()) {
        Some(st) => {
            proof {
                assert(encode_utf8(st@) == bs@);
                assert(buf@.subrange(p0, *pos as int) == enc_str(st@));
                assert forall|x: Seq<char>| starts_with(buf@, p0, enc_str(x)) implies st@ == x by {
                    assert(bs@ == encode_utf8(x));
                    vstd::utf8::encode_utf8_decode_utf8(st@);
                    vstd::utf8::encode_utf8_decode_utf8(x);
                }
            }
            Some(st)
        },
        None => {
            *pos = start;
            proof {
                assert forall|x: Seq<char>| !starts_with(buf@, p0, enc_str(x)) by {
                    if starts_with(buf@, p0, enc_str(x)) {
                        assert(bs@ == encode_utf8(x));
                        encode_utf8_valid_utf8(x);
                    }
                }
            }
            None
        },
    }
}


/// The view of each identity in a vector of identities.
pub open spec fn pviews(s: Seq<Principal>) -> Seq<Seq<u8>> {
    s.map_values(|p: Principal| p@)
}

/// The item encoder of a byte string, for lists of identities.
pub open spec fn enc_bytes_fn() -> spec_fn(Seq<u8>) -> Seq<u8> {
    |b: Seq<u8>| enc_bytes(b)
}

/// The encoding of a set of identities.
pub open spec fn enc_pset(s: Seq<Seq<u8>>) -> Seq<u8> {
    enc_list(s, enc_bytes_fn())
}

/// Every encoded byte string is non-empty.
pub proof fn lemma_enc_bytes_fn_pos()
    ensures
        forall|t: Seq<u8>| (#[trigger] enc_bytes_fn()(t)).len() >= 1,
{
    vstd::bytes::lemma_auto_spec_u64_to_from_le_bytes();
    assert forall|t: Seq<u8>| (#[trigger] enc_bytes_fn()(t)).len() >= 1 by {
        assert(enc_bytes_fn()(t) == enc_bytes(t));
        assert(enc_bytes(t).len() == 8 + t.len());
    }
}

/// Appends the encoding of an identity.
fn push_principal(out: &mut Vec<u8>, p: &Principal)
    ensures
        final(out)@ == old(out)@ + enc_bytes(p@),
{
    push_len_bytes(out, p.as_bytes());
}

/// Reads an identity.
fn dec_principal(buf: &[u8], pos: &mut usize) -> (r: Option<Principal>)
    requires
        *old(pos) <= buf@.len(),
    ensures
        *old(pos) <= *final(pos) <= buf@.len(),
        r is None ==> *final(pos) == *old(pos),
        r matches Some(v) ==> *final(pos) == *old(pos) + enc_bytes(v@).len() && buf@.subrange(
            *old(pos) as int,
            *final(pos) as int,
        ) == enc_bytes(v@),
        forall|x: Seq<u8>|
            starts_with(buf@, *old(pos) as int, enc_bytes(x)) ==> (r matches Some(v) && v@ == x
                && *final(pos) == *old(pos) + enc_bytes(x).len()),
{
    match dec_bytes(buf, pos) {
        Some(b) => Some(Principal::from_bytes(b)),
        None => None,
    }
}

/// Appends the encoding of a set of identities.
fn push_pset(out: &mut Vec<u8>, s: &PrincipalSet)
    ensures
        final(out)@ == old(out)@ + enc_pset(s@),
{
    let n = s.items.len();
    push_u64(out, n as u64);
    let mut i: usize = 0;
    while i < n
        invariant
            n == s.items@.len(),
            i <= n,
            out@ =~= old(out)@ + enc_u64(n as u64) + enc_items(s@.take(i as int), enc_bytes_fn()),
        decreases n - i,
    {
        let ghost pre = out@;
        push_principal(out, &s.items[i]);
        proof {
            lemma_enc_items_snoc(s@, enc_bytes_fn(), i as int);
            assert(enc_bytes_fn()(s@[i as int]) == enc_bytes(s@[i as int]));
            assert(s@[i as int] == s.items@[i as int]@);
            assert(out@ =~= old(out)@ + enc_u64(n as u64) + enc_items(
                s@.take(i + 1),
                enc_bytes_fn(),
            ));
        }
        i += 1;
    }
    proof {
        assert(s@.take(n as int) =~= s@);
        assert(out@ =~= old(out)@ + enc_pset(s@));
    }
}

/// Reads a set of identities.
fn dec_pset(buf: &[u8], pos: &mut usize) -> (r: Option<PrincipalSet>)
    requires
        *old(pos) <= buf@.len(),
    ensures
        *old(pos) <= *final(pos) <= buf@.len(),
        r is None ==> *final(pos) == *old(pos),
        r matches Some(v) ==> *final(pos) == *old(pos) + enc_pset(v@).len() && buf@.subrange(
            *old(pos) as int,
            *final(pos) as int,
        ) == enc_pset(v@),
        forall|x: Seq<Seq<u8>>|
            starts_with(buf@, *old(pos) as int, enc_pset(x)) ==> (r matches Some(v) && v@ == x
                && *final(pos) == *old(pos) + enc_pset(x).len()),
{
    proof {
        lemma_enc_bytes_fn_pos();
    }
    let blen = buf.len();
    let start = *pos;
    let ghost p0 = *pos as int;
    let cnt = match dec_u64(buf, pos) {
        Some(c) => c,
        None => {
            proof {
                assert forall|x: Seq<Seq<u8>>| !starts_with(buf@, p0, enc_pset(x)) by {
                    if starts_with(buf@, p0, enc_pset(x)) {
                        lemma_starts_with_split(
                            buf@,
                            p0,
                            enc_u64(x.len() as u64),
                            enc_items(x, enc_bytes_fn()),
                        );
                    }
                }
            }
            return None;
        },
    };
    if cnt > (usize::MAX as u64) {
        proof {
            lemma_enc_bytes_fn_pos();
            vstd::bytes::lemma_auto_spec_u64_to_from_le_bytes();
            assert(blen == buf@.len());
            assert forall|x: Seq<Seq<u8>>| !starts_with(buf@, p0, enc_pset(x)) by {
                if starts_with(buf@, p0, enc_pset(x)) {
                    lemma_starts_with_split(
                        buf@,
                        p0,
                        enc_u64(x.len() as u64),
                        enc_items(x, enc_bytes_fn()),
                    );
                    lemma_enc_items_len(x, enc_bytes_fn());
                    assert(x.len() <= buf@.len());
                    assert(x.len() as u64 == cnt);
                }
            }
        }
        *pos = start;
        return None;
    }
    let nu = cnt as usize;
    let ghost p1 = *pos as int;
    let mut items: Vec<Principal> = Vec::new();
    let mut k: usize = 0;
    while k < nu
        invariant
            *old(pos) <= buf@.len(),
            buf@.len() <= usize::MAX,
            k <= nu,
            nu == cnt,
            start == *old(pos),
            forall|y: u64| starts_with(buf@, p0, enc_u64(y)) ==> y == cnt,
            p1 == p0 + 8,
            p0 == *old(pos),
            p1 <= *pos <= buf@.len(),
            buf@.subrange(p1, *pos as int) == enc_items(pviews(items@), enc_bytes_fn()),
            items@.len() == k,
            forall|x: Seq<Seq<u8>>|
                (x.len() == nu && starts_with(buf@, p1, enc_items(x, enc_bytes_fn()))) ==> (pviews(
                    items@,
                ) =~= x.take(k as int) && *pos == p1 + enc_items(
                    x.take(k as int),
                    enc_bytes_fn(),
                ).len()),
        decreases nu - k,
    {
        let ghost pk = *pos as int;
        let ghost pre_items = items@;
        match dec_principal(buf, pos) {
            Some(pr) => {
                items.push(pr);
                proof {
                    assert(buf@.subrange(p1, *pos as int) =~= buf@.subrange(p1, pk) + buf@.subrange(
                        pk,
                        *pos as int,
                    ));
                    assert(pviews(items@) =~= pviews(pre_items).push(pr@));
                    lemma_enc_items_snoc(pviews(items@), enc_bytes_fn(), k as int);
                    assert(pviews(items@).take(k as int) =~= pviews(pre_items));
                    assert(pviews(items@).take(k + 1) =~= pviews(items@));
                    assert(enc_bytes_fn()(pr@) == enc_bytes(pr@));
                    assert(buf@.subrange(p1, *pos as int) == enc_items(
                        pviews(items@),
                        enc_bytes_fn(),
                    ));
                    assert forall|x: Seq<Seq<u8>>|
                        (x.len() == nu && starts_with(
                            buf@,
                            p1,
                            enc_items(x, enc_bytes_fn()),
                        )) implies (pviews(items@) =~= x.take(k + 1) && *pos == p1 + enc_items(
                        x.take(k + 1),
                        enc_bytes_fn(),
                    ).len()) by {
                        lemma_enc_items_split(x, enc_bytes_fn(), k as int);
                        lemma_starts_with_split(
                            buf@,
                            p1,
                            enc_items(x.take(k as int), enc_bytes_fn()),
                            enc_items(x.skip(k as int), enc_bytes_fn()),
                        );
                        lemma_enc_items_snoc(x, enc_bytes_fn(), k as int);
                        lemma_starts_with_split(
                            buf@,
                            pk,
                            enc_bytes_fn()(x[k as int]),
                            enc_items(x.skip(k + 1), enc_bytes_fn()),
                        );
                        assert(enc_bytes_fn()(x[k as int]) == enc_bytes(x[k as int]));
                        assert(starts_with(buf@, pk, enc_bytes(x[k as int])));
                        assert(pr@ == x[k as int]);
                        assert(pviews(items@) =~= x.take(k + 1));
                    }
                }
            },
            None => {
                proof {
                    lemma_enc_bytes_fn_pos();
                    vstd::bytes::lemma_auto_spec_u64_to_from_le_bytes();
                    assert forall|x: Seq<Seq<u8>>| !starts_with(buf@, p0, enc_pset(x)) by {
                        if starts_with(buf@, p0, enc_pset(x)) {
                            lemma_starts_with_split(
                                buf@,
                                p0,
                                enc_u64(x.len() as u64),
                                enc_items(x, enc_bytes_fn()),
                            );
                            lemma_enc_items_len(x, enc_bytes_fn());
                            assert(x.len() as u64 == cnt);
                            assert(x.len() == nu);
                            lemma_enc_items_split(x, enc_bytes_fn(), k as int);
                            lemma_starts_with_split(
                                buf@,
                                p1,
                                enc_items(x.take(k as int), enc_bytes_fn()),
                                enc_items(x.skip(k as int), enc_bytes_fn()),
                            );
                            lemma_enc_items_snoc(x, enc_bytes_fn(), k as int);
                            lemma_starts_with_split(
                                buf@,
                                pk,
                                enc_bytes_fn()(x[k as int]),
                                enc_items(x.skip(k + 1), enc_bytes_fn()),
                            );
                            assert(enc_bytes_fn()(x[k as int]) == enc_bytes(x[k as int]));
                            assert(starts_with(buf@, pk, enc_bytes(x[k as int])));
                        }
                    }
                }
                *pos = start;
                return None;
            },
        }
        k += 1;
    }
    let res = PrincipalSet { items };
    proof {
        lemma_enc_bytes_fn_pos();
        vstd::bytes::lemma_auto_spec_u64_to_from_le_bytes();
        assert(blen == buf@.len());
        assert(res@ =~= pviews(res.items@));
        assert(buf@.subrange(p1, *pos as int) == enc_items(res@, enc_bytes_fn())) by {
            assert(pviews(res.items@) =~= res@);
        }
        assert(buf@.subrange(p0, *pos as int) =~= enc_u64(cnt) + buf@.subrange(p1, *pos as int));
        assert(res@.len() == nu);
        assert(res@.len() as u64 == cnt);
        assert(buf@.subrange(p0, *pos as int) == enc_pset(res@));
        assert forall|x: Seq<Seq<u8>>| starts_with(buf@, p0, enc_pset(x)) implies (res@ == x
            && *pos == p0 + enc_pset(x).len()) by {
            lemma_starts_with_split(buf@, p0, enc_u64(x.len() as u64), enc_items(x, enc_bytes_fn()));
            lemma_enc_items_len(x, enc_bytes_fn());
            assert(x.len() as u64 == cnt);
            assert(x.len() == nu);
            assert(pviews(res.items@) =~= x.take(nu as int));
            assert(x.take(nu as int) =~= x);
            assert(res@ =~= x);
        }
    }
    Some(res)
}


/// The tag byte of a logo's image format.
pub open spec fn ext_tag(e: LogoExtension) -> u8 {
    match e {
        LogoExtension::Png => 0,
        LogoExtension::Jpg => 1,
        LogoExtension::Jpeg => 2,
    }
}

/// The encoding of a logo: its format tag, then its payload.
pub open spec fn enc_logo(l: LogoV) -> Seq<u8> {
    enc_u8(ext_tag(l.extension)) + enc_bytes(l.data)
}

/// Appends the encoding of a logo.
fn push_logo(out: &mut Vec<u8>, l: &Logo)
    ensures
        final(out)@ == old(out)@ + enc_logo(l@),
{
    let tag: u8 = match l.extension {
        LogoExtension::Png => 0,
        LogoExtension::Jpg => 1,
        LogoExtension::Jpeg => 2,
    };
    out.push(tag);
    push_len_bytes(out, l.data.as_slice());
    proof {
        assert(out@ =~= old(out)@ + enc_logo(l@));
    }
}

/// Reads a logo.
fn dec_logo(buf: &[u8], pos: &mut usize) -> (r: Option<Logo>)
    requires
        *old(pos) <= buf@.len(),
    ensures
        *old(pos) <= *final(pos) <= buf@.len(),
        r is None ==> *final(pos) == *old(pos),
        r matches Some(v) ==> *final(pos) == *old(pos) + enc_logo(v@).len() && buf@.subrange(
            *old(pos) as int,
            *final(pos) as int,
        ) == enc_logo(v@),
        forall|x: LogoV|
            starts_with(buf@, *old(pos) as int, enc_logo(x)) ==> (r matches Some(v) && v@ == x
                && *final(pos) == *old(pos) + enc_logo(x).len()),
{
    let start = *pos;
    let ghost p0 = *pos as int;
    let tag = match dec_u8(buf, pos) {
        Some(t) => t,
        None => {
            proof {
                assert forall|x: LogoV| !starts_with(buf@, p0, enc_logo(x)) by {
                    if starts_with(buf@, p0, enc_logo(x)) {
                        lemma_starts_with_split(buf@, p0, enc_u8(ext_tag(x.extension)), enc_bytes(x.data));
                    }
                }
            }
            return None;
        },
    };
    let extension = if tag == 0 {
        LogoExtension::Png
    } else if tag == 1 {
        LogoExtension::Jpg
    } else if tag == 2 {
        LogoExtension::Jpeg
    } else {
        proof {
            assert forall|x: LogoV| !starts_with(buf@, p0, enc_logo(x)) by {
                if starts_with(buf@, p0, enc_logo(x)) {
                    lemma_starts_with_split(buf@, p0, enc_u8(ext_tag(x.extension)), enc_bytes(x.data));
                }
            }
        }
        *pos = start;
        return None;
    };
    let data = match dec_bytes(buf, pos) {
        Some(d) => d,
        None => {
            proof {
                assert forall|x: LogoV| !starts_with(buf@, p0, enc_logo(x)) by {
                    if starts_with(buf@, p0, enc_logo(x)) {
                        lemma_starts_with_split(buf@, p0, enc_u8(ext_tag(x.extension)), enc_bytes(x.data));
                    }
                }
            }
            *pos = start;
            return None;
        },
    };
    let l = Logo { extension, data };
    proof {
        assert(buf@.subrange(p0, *pos as int) =~= enc_u8(tag) + enc_bytes(l.data@));
        assert(ext_tag(l@.extension) == tag);
        assert(buf@.subrange(p0, *pos as int) == enc_logo(l@));
        assert forall|x: LogoV| starts_with(buf@, p0, enc_logo(x)) implies (l@ == x && *pos == p0
            + enc_logo(x).len()) by {
            lemma_starts_with_split(buf@, p0, enc_u8(ext_tag(x.extension)), enc_bytes(x.data));
            assert(tag == ext_tag(x.extension));
            assert(l.data@ == x.data);
            assert(l@ =~= x);
        }
    }
    Some(l)
}

/// The tag byte of a metadata purpose.
pub open spec fn purpose_tag(e: MetadataPurpose) -> u8 {
    match e {
        MetadataPurpose::Preview => 0,
        MetadataPurpose::Rendered => 1,
    }
}

/// The encoding of a metadata value: a variant tag, then the value.
pub open spec fn enc_mvalue(v: MetadataValueV) -> Seq<u8> {
    match v {
        MetadataValueV::Text(s) => enc_u8(0) + enc_str(s),
        MetadataValueV::Blob(b) => enc_u8(1) + enc_bytes(b),
        MetadataValueV::Nat8(x) => enc_u8(2) + enc_u8(x),
        MetadataValueV::Nat16(x) => enc_u8(3) + enc_u16(x),
        MetadataValueV::Nat32(x) => enc_u8(4) + enc_u32(x),
        MetadataValueV::Nat64(x) => enc_u8(5) + enc_u64(x),
        MetadataValueV::Nat(x) => enc_u8(6) + enc_u128(x),
    }
}

/// Appends the encoding of a metadata value.
fn push_mvalue(out: &mut Vec<u8>, v: &MetadataValue)
    ensures
        final(out)@ == old(out)@ + enc_mvalue(v@),
{
    match v {
        MetadataValue::Text(t) => {
            out.push(0);
            push_str(out, t.as_str());
        },
        MetadataValue::Blob(b) => {
            out.push(1);
            push_len_bytes(out, b.as_slice());
        },
        MetadataValue::Nat8(x) => {
            out.push(2);
            out.push(*x);
        },
        MetadataValue::Nat16(x) => {
            out.push(3);
            let b = u16_to_le_bytes(*x);
            push_bytes(out, b.as_slice());
        },
        MetadataValue::Nat32(x) => {
            out.push(4);
            let b = u32_to_le_bytes(*x);
            push_bytes(out, b.as_slice());
        },
        MetadataValue::Nat64(x) => {
            out.push(5);
            let b = u64_to_le_bytes(*x);
            push_bytes(out, b.as_slice());
        },
        MetadataValue::Nat(x) => {
            out.push(6);
            let b = u128_to_le_bytes(*x);
            push_bytes(out, b.as_slice());
        },
    }
    proof {
        assert(out@ =~= old(out)@ + enc_mvalue(v@));
    }
}

/// Reads a metadata value.
fn dec_mvalue(buf: &[u8], pos: &mut usize) -> (r: Option<MetadataValue>)
    requires
        *old(pos) <= buf@.len(),
    ensures
        *old(pos) <= *final(pos) <= buf@.len(),
        r is None ==> *final(pos) == *old(pos),
        r matches Some(v) ==> *final(pos) == *old(pos) + enc_mvalue(v@).len() && buf@.subrange(
            *old(pos) as int,
            *final(pos) as int,
        ) == enc_mvalue(v@),
        forall|x: MetadataValueV|
            starts_with(buf@, *old(pos) as int, enc_mvalue(x)) ==> (r matches Some(v) && v@ == x
                && *final(pos) == *old(pos) + enc_mvalue(x).len()),
{
    let start = *pos;
    let ghost p0 = *pos as int;
    proof {
        assert forall|x: MetadataValueV|
            starts_with(buf@, p0, enc_mvalue(x)) implies starts_with(
            buf@,
            p0,
            enc_u8(mvalue_tag(x)),
        ) && starts_with(buf@, p0 + 1, mvalue_payload(x)) by {
            assert(enc_mvalue(x) == enc_u8(mvalue_tag(x)) + mvalue_payload(x));
            lemma_starts_with_split(buf@, p0, enc_u8(mvalue_tag(x)), mvalue_payload(x));
        }
    }
    let tag = match dec_u8(buf, pos) {
        Some(t) => t,
        None => {
            return None;
        },
    };
    let out = if tag == 0 {
        match dec_str(buf, pos) {
            Some(t) => Some(MetadataValue::Text(t)),
            None => None,
        }
    } else if tag == 1 {
        match dec_bytes(buf, pos) {
            Some(b) => Some(MetadataValue::Blob(b)),
            None => None,
        }
    } else if tag == 2 {
        match dec_u8(buf, pos) {
            Some(x) => Some(MetadataValue::Nat8(x)),
            None => None,
        }
    } else if tag == 3 {
        match dec_u16(buf, pos) {
            Some(x) => Some(MetadataValue::Nat16(x)),
            None => None,
        }
    } else if tag == 4 {
        match dec_u32(buf, pos) {
            Some(x) => Some(MetadataValue::Nat32(x)),
            None => None,
        }
    } else if tag == 5 {
        match dec_u64(buf, pos) {
            Some(x) => Some(MetadataValue::Nat64(x)),
            None => None,
        }
    } else if tag == 6 {
        match dec_u128(buf, pos) {
            Some(x) => Some(MetadataValue::Nat(x)),
            None => None,
        }
    } else {
        None
    };
    match out {
        Some(v) => {
            proof {
                assert(buf@.subrange(p0, *pos as int) =~= enc_u8(tag) + buf@.subrange(
                    p0 + 1,
                    *pos as int,
                ));
                assert(mvalue_tag(v@) == tag);
                assert(buf@.subrange(p0 + 1, *pos as int) == mvalue_payload(v@));
                assert(enc_mvalue(v@) == enc_u8(mvalue_tag(v@)) + mvalue_payload(v@));
                assert(buf@.subrange(p0, *pos as int) == enc_mvalue(v@));
                assert forall|x: MetadataValueV| starts_with(buf@, p0, enc_mvalue(x)) implies (v@
                    == x && *pos == p0 + enc_mvalue(x).len()) by {
                    assert(tag == mvalue_tag(x));
                    assert(v@ =~= x);
                }
            }
            Some(v)
        },
        None => {
            *pos = start;
            proof {
                assert forall|x: MetadataValueV| !starts_with(buf@, p0, enc_mvalue(x)) by {
                    if starts_with(buf@, p0, enc_mvalue(x)) {
                        assert(tag == mvalue_tag(x));
                    }
                }
            }
            None
        },
    }
}

/// The variant tag of a metadata value.
pub open spec fn mvalue_tag(v: MetadataValueV) -> u8 {
    match v {
        MetadataValueV::Text(_) => 0,
        MetadataValueV::Blob(_) => 1,
        MetadataValueV::Nat8(_) => 2,
        MetadataValueV::Nat16(_) => 3,
        MetadataValueV::Nat32(_) => 4,
        MetadataValueV::Nat64(_) => 5,
        MetadataValueV::Nat(_) => 6,
    }
}

/// The bytes of a metadata value after its tag.
pub open spec fn mvalue_payload(v: MetadataValueV) -> Seq<u8> {
    match v {
        MetadataValueV::Text(s) => enc_str(s),
        MetadataValueV::Blob(b) => enc_bytes(b),
        MetadataValueV::Nat8(x) => enc_u8(x),
        MetadataValueV::Nat16(x) => enc_u16(x),
        MetadataValueV::Nat32(x) => enc_u32(x),
        MetadataValueV::Nat64(x) => enc_u64(x),
        MetadataValueV::Nat(x) => enc_u128(x),
    }
}


/// The encoding of a metadata key and its value.
pub open spec fn enc_mentry(e: (Seq<char>, MetadataValueV)) -> Seq<u8> {
    enc_str(e.0) + enc_mvalue(e.1)
}

/// Appends the encoding of a metadata entry.
fn push_mentry(out: &mut Vec<u8>, e: &MetadataEntry)
    ensures
        final(out)@ == old(out)@ + enc_mentry(e@),
{
    push_str(out, e.key.as_str());
    push_mvalue(out, &e.value);
    proof {
        assert(out@ =~= old(out)@ + enc_mentry(e@));
    }
}

/// Reads a metadata entry.
fn dec_mentry_item(buf: &[u8], pos: &mut usize) -> (r: Option<MetadataEntry>)
    requires
        *old(pos) <= buf@.len(),
    ensures
        *old(pos) <= *final(pos) <= buf@.len(),
        r is None ==> *final(pos) == *old(pos),
        r matches Some(v) ==> *final(pos) == *old(pos) + enc_mentry(v@).len() && buf@.subrange(
            *old(pos) as int,
            *final(pos) as int,
        ) == enc_mentry(v@),
        forall|x: (Seq<char>, MetadataValueV)|
            starts_with(buf@, *old(pos) as int, enc_mentry(x)) ==> (r matches Some(v) && v@ == x
                && *final(pos) == *old(pos) + enc_mentry(x).len()),
{
    let start = *pos;
    let ghost p0 = *pos as int;
    proof {
        assert forall|x: (Seq<char>, MetadataValueV)|
            starts_with(buf@, p0, enc_mentry(x)) implies starts_with(buf@, p0, enc_str(x.0))
            && starts_with(buf@, p0 + enc_str(x.0).len(), enc_mvalue(x.1)) by {
            lemma_starts_with_split(buf@, p0, enc_str(x.0), enc_mvalue(x.1));
        }
    }
    let key = match dec_str(buf, pos) {
        Some(k) => k,
        None => {
            return None;
        },
    };
    let value = match dec_mvalue(buf, pos) {
        Some(v) => v,
        None => {
            *pos = start;
            return None;
        },
    };
    let e = MetadataEntry { key, value };
    proof {
        assert(buf@.subrange(p0, *pos as int) =~= enc_str(e.key@) + enc_mvalue(e.value@));
        assert forall|x: (Seq<char>, MetadataValueV)| starts_with(buf@, p0, enc_mentry(x)) implies (
        e@ == x && *pos == p0 + enc_mentry(x).len()) by {
            assert(e.key@ == x.0);
            assert(e.value@ == x.1);
        }
    }
    Some(e)
}


/// The item encoder of metadata entry items.
pub open spec fn enc_mentry_fn() -> spec_fn((Seq<char>, MetadataValueV)) -> Seq<u8> {
    |t: (Seq<char>, MetadataValueV)| enc_mentry(t)
}

/// Every encoded metadata entry is non-empty.
pub proof fn lemma_enc_mentry_fn_pos()
    ensures
        forall|t: (Seq<char>, MetadataValueV)| (#[trigger] enc_mentry_fn()(t)).len() >= 1,
{
    vstd::bytes::lemma_auto_spec_u64_to_from_le_bytes();
    assert forall|t: (Seq<char>, MetadataValueV)| (#[trigger] enc_mentry_fn()(t)).len() >= 1 by {
        assert(enc_mentry_fn()(t) == enc_mentry(t));
        assert(enc_mentry(t) == enc_str(t.0) + enc_mvalue(t.1));
    }
}

/// The view of each element of a vector of metadata entries.
pub open spec fn mentry_views(s: Seq<MetadataEntry>) -> Seq<(Seq<char>, MetadataValueV)> {
    s.map_values(|e: MetadataEntry| e@)
}

/// Appends the encoding of a list of metadata entries.
fn push_mentry_list(out: &mut Vec<u8>, s: &Vec<MetadataEntry>)
    ensures
        final(out)@ == old(out)@ + enc_list(mentry_views(s@), enc_mentry_fn()),
{
    let n = s.len();
    push_u64(out, n as u64);
    let mut i: usize = 0;
    while i < n
        invariant
            n == s@.len(),
            i <= n,
            out@ =~= old(out)@ + enc_u64(n as u64) + enc_items(
                mentry_views(s@).take(i as int),
                enc_mentry_fn(),
            ),
        decreases n - i,
    {
        push_mentry(out, &s[i]);
        proof {
            lemma_enc_items_snoc(mentry_views(s@), enc_mentry_fn(), i as int);
            assert(enc_mentry_fn()(mentry_views(s@)[i as int]) == enc_mentry(mentry_views(s@)[i as int]));
            assert(mentry_views(s@)[i as int] == s@[i as int]@);
            assert(out@ =~= old(out)@ + enc_u64(n as u64) + enc_items(
                mentry_views(s@).take(i + 1),
                enc_mentry_fn(),
            ));
        }
        i += 1;
    }
    proof {
        assert(mentry_views(s@).take(n as int) =~= mentry_views(s@));
    }
}

/// Reads a list of metadata entries.
fn dec_mentry_list(buf: &[u8], pos: &mut usize) -> (r: Option<Vec<MetadataEntry>>)
    requires
        *old(pos) <= buf@.len(),
    ensures
        *old(pos) <= *final(pos) <= buf@.len(),
        r is None ==> *final(pos) == *old(pos),
        r matches Some(v) ==> *final(pos) == *old(pos) + enc_list(mentry_views(v@), enc_mentry_fn()).len()
            && buf@.subrange(*old(pos) as int, *final(pos) as int) == enc_list(
            mentry_views(v@),
            enc_mentry_fn(),
        ),
        forall|x: Seq<(Seq<char>, MetadataValueV)>|
            starts_with(buf@, *old(pos) as int, enc_list(x, enc_mentry_fn())) ==> (r matches Some(v)
                && mentry_views(v@) == x && *final(pos) == *old(pos) + enc_list(
                x,
                enc_mentry_fn(),
            ).len()),
{
    proof {
        lemma_enc_mentry_fn_pos();
    }
    let blen = buf.len();
    let start = *pos;
    let ghost p0 = *pos as int;
    let cnt = match dec_u64(buf, pos) {
        Some(c) => c,
        None => {
            proof {
                assert forall|x: Seq<(Seq<char>, MetadataValueV)>| !starts_with(buf@, p0, enc_list(x, enc_mentry_fn())) by {
                    if starts_with(buf@, p0, enc_list(x, enc_mentry_fn())) {
                        lemma_starts_with_split(
                            buf@,
                            p0,
                            enc_u64(x.len() as u64),
                            enc_items(x, enc_mentry_fn()),
                        );
                    }
                }
            }
            return None;
        },
    };
    if cnt > (usize::MAX as u64) {
        proof {
            lemma_enc_mentry_fn_pos();
            vstd::bytes::lemma_auto_spec_u64_to_from_le_bytes();
            assert(blen == buf@.len());
            assert forall|x: Seq<(Seq<char>, MetadataValueV)>| !starts_with(buf@, p0, enc_list(x, enc_mentry_fn())) by {
                if starts_with(buf@, p0, enc_list(x, enc_mentry_fn())) {
                    lemma_starts_with_split(
                        buf@,
                        p0,
                        enc_u64(x.len() as u64),
                        enc_items(x, enc_mentry_fn()),
                    );
                    lemma_enc_items_len(x, enc_mentry_fn());
                    assert(x.len() <= buf@.len());
                    assert(x.len() as u64 == cnt);
                }
            }
        }
        *pos = start;
        return None;
    }
    let nu = cnt as usize;
    let ghost p1 = *pos as int;
    let mut items: Vec<MetadataEntry> = Vec::new();
    let mut k: usize = 0;
    while k < nu
        invariant
            *old(pos) <= buf@.len(),
            buf@.len() <= usize::MAX,
            k <= nu,
            nu == cnt,
            start == *old(pos),
            forall|y: u64| starts_with(buf@, p0, enc_u64(y)) ==> y == cnt,
            p1 == p0 + 8,
            p0 == *old(pos),
            p1 <= *pos <= buf@.len(),
            buf@.subrange(p1, *pos as int) == enc_items(mentry_views(items@), enc_mentry_fn()),
            items@.len() == k,
            forall|x: Seq<(Seq<char>, MetadataValueV)>|
                (x.len() == nu && starts_with(buf@, p1, enc_items(x, enc_mentry_fn()))) ==> (mentry_views(
                    items@,
                ) =~= x.take(k as int) && *pos == p1 + enc_items(
                    x.take(k as int),
                    enc_mentry_fn(),
                ).len()),
        decreases nu - k,
    {
        let ghost pk = *pos as int;
        let ghost pre_items = items@;
        match dec_mentry_item(buf, pos) {
            Some(pr) => {
                items.push(pr);
                proof {
                    assert(buf@.subrange(p1, *pos as int) =~= buf@.subrange(p1, pk) + buf@.subrange(
                        pk,
                        *pos as int,
                    ));
                    assert(mentry_views(items@) =~= mentry_views(pre_items).push(pr@));
                    lemma_enc_items_snoc(mentry_views(items@), enc_mentry_fn(), k as int);
                    assert(mentry_views(items@).take(k as int) =~= mentry_views(pre_items));
                    assert(mentry_views(items@).take(k + 1) =~= mentry_views(items@));
                    assert(enc_mentry_fn()(pr@) == enc_mentry(pr@));
                    assert(buf@.subrange(p1, *pos as int) == enc_items(
                        mentry_views(items@),
                        enc_mentry_fn(),
                    ));
                    assert forall|x: Seq<(Seq<char>, MetadataValueV)>|
                        (x.len() == nu && starts_with(
                            buf@,
                            p1,
                            enc_items(x, enc_mentry_fn()),
                        )) implies (mentry_views(items@) =~= x.take(k + 1) && *pos == p1 + enc_items(
                        x.take(k + 1),
                        enc_mentry_fn(),
                    ).len()) by {
                        lemma_enc_items_split(x, enc_mentry_fn(), k as int);
                        lemma_starts_with_split(
                            buf@,
                            p1,
                            enc_items(x.take(k as int), enc_mentry_fn()),
                            enc_items(x.skip(k as int), enc_mentry_fn()),
                        );
                        lemma_enc_items_snoc(x, enc_mentry_fn(), k as int);
                        lemma_starts_with_split(
                            buf@,
                            pk,
                            enc_mentry_fn()(x[k as int]),
                            enc_items(x.skip(k + 1), enc_mentry_fn()),
                        );
                        assert(enc_mentry_fn()(x[k as int]) == enc_mentry(x[k as int]));
                        assert(starts_with(buf@, pk, enc_mentry(x[k as int])));
                        assert(pr@ == x[k as int]);
                        assert(mentry_views(items@) =~= x.take(k + 1));
                    }
                }
            },
            None => {
                proof {
                    lemma_enc_mentry_fn_pos();
                    vstd::bytes::lemma_auto_spec_u64_to_from_le_bytes();
                    assert forall|x: Seq<(Seq<char>, MetadataValueV)>| !starts_with(buf@, p0, enc_list(x, enc_mentry_fn())) by {
                        if starts_with(buf@, p0, enc_list(x, enc_mentry_fn())) {
                            lemma_starts_with_split(
                                buf@,
                                p0,
                                enc_u64(x.len() as u64),
                                enc_items(x, enc_mentry_fn()),
                            );
                            lemma_enc_items_len(x, enc_mentry_fn());
                            assert(x.len() as u64 == cnt);
                            assert(x.len() == nu);
                            lemma_enc_items_split(x, enc_mentry_fn(), k as int);
                            lemma_starts_with_split(
                                buf@,
                                p1,
                                enc_items(x.take(k as int), enc_mentry_fn()),
                                enc_items(x.skip(k as int), enc_mentry_fn()),
                            );
                            lemma_enc_items_snoc(x, enc_mentry_fn(), k as int);
                            lemma_starts_with_split(
                                buf@,
                                pk,
                                enc_mentry_fn()(x[k as int]),
                                enc_items(x.skip(k + 1), enc_mentry_fn()),
                            );
                            assert(enc_mentry_fn()(x[k as int]) == enc_mentry(x[k as int]));
                            assert(starts_with(buf@, pk, enc_mentry(x[k as int])));
                        }
                    }
                }
                *pos = start;
                return None;
            },
        }
        k += 1;
    }
    proof {
        lemma_enc_mentry_fn_pos();
        vstd::bytes::lemma_auto_spec_u64_to_from_le_bytes();
        assert(blen == buf@.len());
        assert(buf@.subrange(p0, *pos as int) =~= enc_u64(cnt) + buf@.subrange(p1, *pos as int));
        assert(mentry_views(items@).len() == nu);
        assert(mentry_views(items@).len() as u64 == cnt);
        assert(buf@.subrange(p0, *pos as int) == enc_list(mentry_views(items@), enc_mentry_fn()));
        assert forall|x: Seq<(Seq<char>, MetadataValueV)>|
            starts_with(buf@, p0, enc_list(x, enc_mentry_fn())) implies (mentry_views(items@) == x
            && *pos == p0 + enc_list(x, enc_mentry_fn()).len()) by {
            lemma_starts_with_split(buf@, p0, enc_u64(x.len() as u64), enc_items(x, enc_mentry_fn()));
            lemma_enc_items_len(x, enc_mentry_fn());
            assert(x.len() as u64 == cnt);
            assert(x.len() == nu);
            assert(mentry_views(items@) =~= x.take(nu as int));
            assert(x.take(nu as int) =~= x);
            assert(mentry_views(items@) =~= x);
        }
    }
    Some(items)
}


/// The encoding of a metadata part: its purpose, its keyed values, and its
/// payload.
pub open spec fn enc_mpart(m: MetadataPartV) -> Seq<u8> {
    enc_u8(purpose_tag(m.purpose)) + (enc_list(m.key_val_data, enc_mentry_fn()) + enc_bytes(
        m.data,
    ))
}

/// Appends the encoding of a metadata part.
fn push_mpart(out: &mut Vec<u8>, m: &MetadataPart)
    ensures
        final(out)@ == old(out)@ + enc_mpart(m@),
{
    let tag: u8 = match m.purpose {
        MetadataPurpose::Preview => 0,
        MetadataPurpose::Rendered => 1,
    };
    out.push(tag);
    push_mentry_list(out, &m.key_val_data);
    push_len_bytes(out, m.data.as_slice());
    proof {
        assert(mentry_views(m.key_val_data@) =~= m@.key_val_data);
        assert(out@ =~= old(out)@ + enc_mpart(m@));
    }
}

/// Reads a metadata part.
fn dec_mpart_item(buf: &[u8], pos: &mut usize) -> (r: Option<MetadataPart>)
    requires
        *old(pos) <= buf@.len(),
    ensures
        *old(pos) <= *final(pos) <= buf@.len(),
        r is None ==> *final(pos) == *old(pos),
        r matches Some(v) ==> *final(pos) == *old(pos) + enc_mpart(v@).len() && buf@.subrange(
            *old(pos) as int,
            *final(pos) as int,
        ) == enc_mpart(v@),
        forall|x: MetadataPartV|
            starts_with(buf@, *old(pos) as int, enc_mpart(x)) ==> (r matches Some(v) && v@ == x
                && *final(pos) == *old(pos) + enc_mpart(x).len()),
{
    let start = *pos;
    let ghost p0 = *pos as int;
    proof {
        assert forall|x: MetadataPartV|
            starts_with(buf@, p0, enc_mpart(x)) implies starts_with(
            buf@,
            p0,
            enc_u8(purpose_tag(x.purpose)),
        ) && starts_with(buf@, p0 + 1, enc_list(x.key_val_data, enc_mentry_fn())) && starts_with(
            buf@,
            p0 + 1 + enc_list(x.key_val_data, enc_mentry_fn()).len(),
            enc_bytes(x.data),
        ) by {
            lemma_starts_with_split(
                buf@,
                p0,
                enc_u8(purpose_tag(x.purpose)),
                enc_list(x.key_val_data, enc_mentry_fn()) + enc_bytes(x.data),
            );
            lemma_starts_with_split(
                buf@,
                p0 + 1,
                enc_list(x.key_val_data, enc_mentry_fn()),
                enc_bytes(x.data),
            );
        }
    }
    let tag = match dec_u8(buf, pos) {
        Some(t) => t,
        None => {
            return None;
        },
    };
    let purpose = if tag == 0 {
        MetadataPurpose::Preview
    } else if tag == 1 {
        MetadataPurpose::Rendered
    } else {
        proof {
            assert forall|x: MetadataPartV| !starts_with(buf@, p0, enc_mpart(x)) by {
                if starts_with(buf@, p0, enc_mpart(x)) {
                    assert(tag == purpose_tag(x.purpose));
                }
            }
        }
        *pos = start;
        return None;
    };
    let key_val_data = match dec_mentry_list(buf, pos) {
        Some(k) => k,
        None => {
            *pos = start;
            return None;
        },
    };
    let data = match dec_bytes(buf, pos) {
        Some(d) => d,
        None => {
            *pos = start;
            return None;
        },
    };
    let m = MetadataPart { purpose, key_val_data, data };
    proof {
        assert(mentry_views(m.key_val_data@) =~= m@.key_val_data);
        assert(buf@.subrange(p0, *pos as int) =~= enc_u8(tag) + (enc_list(
            m@.key_val_data,
            enc_mentry_fn(),
        ) + enc_bytes(m@.data)));
        assert(purpose_tag(m@.purpose) == tag);
        assert(buf@.subrange(p0, *pos as int) == enc_mpart(m@));
        assert forall|x: MetadataPartV| starts_with(buf@, p0, enc_mpart(x)) implies (m@ == x
            && *pos == p0 + enc_mpart(x).len()) by {
            assert(tag == purpose_tag(x.purpose));
            assert(m@.key_val_data == x.key_val_data);
            assert(m@.data == x.data);
            assert(m@ =~= x);
        }
    }
    Some(m)
}


/// The item encoder of metadata part items.
pub open spec fn enc_mpart_fn() -> spec_fn(MetadataPartV) -> Seq<u8> {
    |t: MetadataPartV| enc_mpart(t)
}

/// Every encoded metadata part is non-empty.
pub proof fn lemma_enc_mpart_fn_pos()
    ensures
        forall|t: MetadataPartV| (#[trigger] enc_mpart_fn()(t)).len() >= 1,
{
    vstd::bytes::lemma_auto_spec_u64_to_from_le_bytes();
    assert forall|t: MetadataPartV| (#[trigger] enc_mpart_fn()(t)).len() >= 1 by {
        assert(enc_mpart_fn()(t) == enc_mpart(t));
        assert(enc_mpart(t) == enc_u8(purpose_tag(t.purpose)) + (enc_list(t.key_val_data, enc_mentry_fn()) + enc_bytes(t.data)));
    }
}

/// The view of each element of a vector of metadata parts.
pub open spec fn mpart_views(s: Seq<MetadataPart>) -> Seq<MetadataPartV> {
    s.map_values(|e: MetadataPart| e@)
}

/// Appends the encoding of a list of metadata parts.
fn push_mpart_list(out: &mut Vec<u8>, s: &Vec<MetadataPart>)
    ensures
        final(out)@ == old(out)@ + enc_list(mpart_views(s@), enc_mpart_fn()),
{
    let n = s.len();
    push_u64(out, n as u64);
    let mut i: usize = 0;
    while i < n
        invariant
            n == s@.len(),
            i <= n,
            out@ =~= old(out)@ + enc_u64(n as u64) + enc_items(
                mpart_views(s@).take(i as int),
                enc_mpart_fn(),
            ),
        decreases n - i,
    {
        push_mpart(out, &s[i]);
        proof {
            lemma_enc_items_snoc(mpart_views(s@), enc_mpart_fn(), i as int);
            assert(enc_mpart_fn()(mpart_views(s@)[i as int]) == enc_mpart(mpart_views(s@)[i as int]));
            assert(mpart_views(s@)[i as int] == s@[i as int]@);
            assert(out@ =~= old(out)@ + enc_u64(n as u64) + enc_items(
                mpart_views(s@).take(i + 1),
                enc_mpart_fn(),
            ));
        }
        i += 1;
    }
    proof {
        assert(mpart_views(s@).take(n as int) =~= mpart_views(s@));
    }
}

/// Reads a list of metadata parts.
fn dec_mpart_list(buf: &[u8], pos: &mut usize) -> (r: Option<Vec<MetadataPart>>)
    requires
        *old(pos) <= buf@.len(),
    ensures
        *old(pos) <= *final(pos) <= buf@.len(),
        r is None ==> *final(pos) == *old(pos),
        r matches Some(v) ==> *final(pos) == *old(pos) + enc_list(mpart_views(v@), enc_mpart_fn()).len()
            && buf@.subrange(*old(pos) as int, *final(pos) as int) == enc_list(
            mpart_views(v@),
            enc_mpart_fn(),
        ),
        forall|x: Seq<MetadataPartV>|
            starts_with(buf@, *old(pos) as int, enc_list(x, enc_mpart_fn())) ==> (r matches Some(v)
                && mpart_views(v@) == x && *final(pos) == *old(pos) + enc_list(
                x,
                enc_mpart_fn(),
            ).len()),
{
    proof {
        lemma_enc_mpart_fn_pos();
    }
    let blen = buf.len();
    let start = *pos;
    let ghost p0 = *pos as int;
    let cnt = match dec_u64(buf, pos) {
        Some(c) => c,
        None => {
            proof {
                assert forall|x: Seq<MetadataPartV>| !starts_with(buf@, p0, enc_list(x, enc_mpart_fn())) by {
                    if starts_with(buf@, p0, enc_list(x, enc_mpart_fn())) {
                        lemma_starts_with_split(
                            buf@,
                            p0,
                            enc_u64(x.len() as u64),
                            enc_items(x, enc_mpart_fn()),
                        );
                    }
                }
            }
            return None;
        },
    };
    if cnt > (usize::MAX as u64) {
        proof {
            lemma_enc_mpart_fn_pos();
            vstd::bytes::lemma_auto_spec_u64_to_from_le_bytes();
            assert(blen == buf@.len());
            assert forall|x: Seq<MetadataPartV>| !starts_with(buf@, p0, enc_list(x, enc_mpart_fn())) by {
                if starts_with(buf@, p0, enc_list(x, enc_mpart_fn())) {
                    lemma_starts_with_split(
                        buf@,
                        p0,
                        enc_u64(x.len() as u64),
                        enc_items(x, enc_mpart_fn()),
                    );
                    lemma_enc_items_len(x, enc_mpart_fn());
                    assert(x.len() <= buf@.len());
                    assert(x.len() as u64 == cnt);
                }
            }
        }
        *pos = start;
        return None;
    }
    let nu = cnt as usize;
    let ghost p1 = *pos as int;
    let mut items: Vec<MetadataPart> = Vec::new();
    let mut k: usize = 0;
    while k < nu
        invariant
            *old(pos) <= buf@.len(),
            buf@.len() <= usize::MAX,
            k <= nu,
            nu == cnt,
            start == *old(pos),
            forall|y: u64| starts_with(buf@, p0, enc_u64(y)) ==> y == cnt,
            p1 == p0 + 8,
            p0 == *old(pos),
            p1 <= *pos <= buf@.len(),
            buf@.subrange(p1, *pos as int) == enc_items(mpart_views(items@), enc_mpart_fn()),
            items@.len() == k,
            forall|x: Seq<MetadataPartV>|
                (x.len() == nu && starts_with(buf@, p1, enc_items(x, enc_mpart_fn()))) ==> (mpart_views(
                    items@,
                ) =~= x.take(k as int) && *pos == p1 + enc_items(
                    x.take(k as int),
                    enc_mpart_fn(),
                ).len()),
        decreases nu - k,
    {
        let ghost pk = *pos as int;
        let ghost pre_items = items@;
        match dec_mpart_item(buf, pos) {
            Some(pr) => {
                items.push(pr);
                proof {
                    assert(buf@.subrange(p1, *pos as int) =~= buf@.subrange(p1, pk) + buf@.subrange(
                        pk,
                        *pos as int,
                    ));
                    assert(mpart_views(items@) =~= mpart_views(pre_items).push(pr@));
                    lemma_enc_items_snoc(mpart_views(items@), enc_mpart_fn(), k as int);
                    assert(mpart_views(items@).take(k as int) =~= mpart_views(pre_items));
                    assert(mpart_views(items@).take(k + 1) =~= mpart_views(items@));
                    assert(enc_mpart_fn()(pr@) == enc_mpart(pr@));
                    assert(buf@.subrange(p1, *pos as int) == enc_items(
                        mpart_views(items@),
                        enc_mpart_fn(),
                    ));
                    assert forall|x: Seq<MetadataPartV>|
                        (x.len() == nu && starts_with(
                            buf@,
                            p1,
                            enc_items(x, enc_mpart_fn()),
                        )) implies (mpart_views(items@) =~= x.take(k + 1) && *pos == p1 + enc_items(
                        x.take(k + 1),
                        enc_mpart_fn(),
                    ).len()) by {
                        lemma_enc_items_split(x, enc_mpart_fn(), k as int);
                        lemma_starts_with_split(
                            buf@,
                            p1,
                            enc_items(x.take(k as int), enc_mpart_fn()),
                            enc_items(x.skip(k as int), enc_mpart_fn()),
                        );
                        lemma_enc_items_snoc(x, enc_mpart_fn(), k as int);
                        lemma_starts_with_split(
                            buf@,
                            pk,
                            enc_mpart_fn()(x[k as int]),
                            enc_items(x.skip(k + 1), enc_mpart_fn()),
                        );
                        assert(enc_mpart_fn()(x[k as int]) == enc_mpart(x[k as int]));
                        assert(starts_with(buf@, pk, enc_mpart(x[k as int])));
                        assert(pr@ == x[k as int]);
                        assert(mpart_views(items@) =~= x.take(k + 1));
                    }
                }
            },
            None => {
                proof {
                    lemma_enc_mpart_fn_pos();
                    vstd::bytes::lemma_auto_spec_u64_to_from_le_bytes();
                    assert forall|x: Seq<MetadataPartV>| !starts_with(buf@, p0, enc_list(x, enc_mpart_fn())) by {
                        if starts_with(buf@, p0, enc_list(x, enc_mpart_fn())) {
                            lemma_starts_with_split(
                                buf@,
                                p0,
                                enc_u64(x.len() as u64),
                                enc_items(x, enc_mpart_fn()),
                            );
                            lemma_enc_items_len(x, enc_mpart_fn());
                            assert(x.len() as u64 == cnt);
                            assert(x.len() == nu);
                            lemma_enc_items_split(x, enc_mpart_fn(), k as int);
                            lemma_starts_with_split(
                                buf@,
                                p1,
                                enc_items(x.take(k as int), enc_mpart_fn()),
                                enc_items(x.skip(k as int), enc_mpart_fn()),
                            );
                            lemma_enc_items_snoc(x, enc_mpart_fn(), k as int);
                            lemma_starts_with_split(
                                buf@,
                                pk,
                                enc_mpart_fn()(x[k as int]),
                                enc_items(x.skip(k + 1), enc_mpart_fn()),
                            );
                            assert(enc_mpart_fn()(x[k as int]) == enc_mpart(x[k as int]));
                            assert(starts_with(buf@, pk, enc_mpart(x[k as int])));
                        }
                    }
                }
                *pos = start;
                return None;
            },
        }
        k += 1;
    }
    proof {
        lemma_enc_mpart_fn_pos();
        vstd::bytes::lemma_auto_spec_u64_to_from_le_bytes();
        assert(blen == buf@.len());
        assert(buf@.subrange(p0, *pos as int) =~= enc_u64(cnt) + buf@.subrange(p1, *pos as int));
        assert(mpart_views(items@).len() == nu);
        assert(mpart_views(items@).len() as u64 == cnt);
        assert(buf@.subrange(p0, *pos as int) == enc_list(mpart_views(items@), enc_mpart_fn()));
        assert forall|x: Seq<MetadataPartV>|
            starts_with(buf@, p0, enc_list(x, enc_mpart_fn())) implies (mpart_views(items@) == x
            && *pos == p0 + enc_list(x, enc_mpart_fn()).len()) by {
            lemma_starts_with_split(buf@, p0, enc_u64(x.len() as u64), enc_items(x, enc_mpart_fn()));
            lemma_enc_items_len(x, enc_mpart_fn());
            assert(x.len() as u64 == cnt);
            assert(x.len() == nu);
            assert(mpart_views(items@) =~= x.take(nu as int));
            assert(x.take(nu as int) =~= x);
            assert(mpart_views(items@) =~= x);
        }
    }
    Some(items)
}


/// The encoding of an optional approved spender.
pub open spec fn enc_opt(o: Option<Seq<u8>>) -> Seq<u8> {
    match o {
        None => enc_u8(0),
        Some(b) => enc_u8(1) + enc_bytes(b),
    }
}

/// Appends the encoding of an optional approved spender.
fn push_opt(out: &mut Vec<u8>, o: &Option<Principal>)
    ensures
        final(out)@ == old(out)@ + enc_opt(match *o {
            Some(p) => Some(p@),
            None => None,
        }),
{
    match o {
        None => {
            out.push(0);
            proof {
                assert(out@ =~= old(out)@ + enc_u8(0));
            }
        },
        Some(p) => {
            out.push(1);
            push_principal(out, p);
            proof {
                assert(out@ =~= old(out)@ + (enc_u8(1) + enc_bytes(p@)));
            }
        },
    }
}

/// Reads an optional approved spender.
fn dec_opt(buf: &[u8], pos: &mut usize) -> (r: Option<Option<Principal>>)
    requires
        *old(pos) <= buf@.len(),
    ensures
        *old(pos) <= *final(pos) <= buf@.len(),
        r is None ==> *final(pos) == *old(pos),
        r matches Some(v) ==> ({
            let vv = match v {
                Some(p) => Some(p@),
                None => None,
            };
            *final(pos) == *old(pos) + enc_opt(vv).len() && buf@.subrange(
                *old(pos) as int,
                *final(pos) as int,
            ) == enc_opt(vv)
        }),
        forall|x: Option<Seq<u8>>|
            starts_with(buf@, *old(pos) as int, enc_opt(x)) ==> (r matches Some(v) && (match v {
                Some(p) => Some(p@),
                None => None,
            }) == x && *final(pos) == *old(pos) + enc_opt(x).len()),
{
    let start = *pos;
    let ghost p0 = *pos as int;
    proof {
        assert forall|x: Option<Seq<u8>>|
            starts_with(buf@, p0, enc_opt(x)) implies starts_with(buf@, p0, enc_u8(opt_tag(x)))
            && (x matches Some(b) ==> starts_with(buf@, p0 + 1, enc_bytes(b))) by {
            match x {
                None => {},
                Some(b) => {
                    lemma_starts_with_split(buf@, p0, enc_u8(1), enc_bytes(b));
                },
            }
        }
    }
    let tag = match dec_u8(buf, pos) {
        Some(t) => t,
        None => {
            return None;
        },
    };
    if tag == 0 {
        proof {
            assert forall|x: Option<Seq<u8>>|
                starts_with(buf@, p0, enc_opt(x)) implies x is None by {
                assert(opt_tag(x) == 0);
            }
        }
        Some(None)
    } else if tag == 1 {
        match dec_principal(buf, pos) {
            Some(p) => {
                proof {
                    assert(buf@.subrange(p0, *pos as int) =~= enc_u8(1) + enc_bytes(p@));
                    assert forall|x: Option<Seq<u8>>|
                        starts_with(buf@, p0, enc_opt(x)) implies (x matches Some(b) && b == p@) by {
                        assert(opt_tag(x) == 1);
                    }
                }
                Some(Some(p))
            },
            None => {
                *pos = start;
                proof {
                    assert forall|x: Option<Seq<u8>>| !starts_with(buf@, p0, enc_opt(x)) by {
                        if starts_with(buf@, p0, enc_opt(x)) {
                            assert(opt_tag(x) == 1);
                        }
                    }
                }
                None
            },
        }
    } else {
        *pos = start;
        proof {
            assert forall|x: Option<Seq<u8>>| !starts_with(buf@, p0, enc_opt(x)) by {
                if starts_with(buf@, p0, enc_opt(x)) {
                    assert(opt_tag(x) == tag);
                }
            }
        }
        None
    }
}

/// The tag byte of an optional value.
pub open spec fn opt_tag(o: Option<Seq<u8>>) -> u8 {
    match o {
        None => 0,
        Some(_) => 1,
    }
}

/// The encoding of a token record.
pub open spec fn enc_nft(n: NftV) -> Seq<u8> {
    enc_u64(n.id) + (enc_bytes(n.owner) + (enc_opt(n.approved) + (enc_list(
        n.metadata,
        enc_mpart_fn(),
    ) + enc_bytes(n.content))))
}

/// Appends the encoding of a token record.
fn push_nft(out: &mut Vec<u8>, n: &Nft)
    ensures
        final(out)@ == old(out)@ + enc_nft(n@),
{
    push_u64(out, n.id);
    push_principal(out, &n.owner);
    push_opt(out, &n.approved);
    push_mpart_list(out, &n.metadata);
    push_len_bytes(out, n.content.as_slice());
    proof {
        assert(mpart_views(n.metadata@) =~= n@.metadata);
        assert(out@ =~= old(out)@ + enc_nft(n@));
    }
}

/// Reads a token record.
fn dec_nft_item(buf: &[u8], pos: &mut usize) -> (r: Option<Nft>)
    requires
        *old(pos) <= buf@.len(),
    ensures
        *old(pos) <= *final(pos) <= buf@.len(),
        r is None ==> *final(pos) == *old(pos),
        r matches Some(v) ==> *final(pos) == *old(pos) + enc_nft(v@).len() && buf@.subrange(
            *old(pos) as int,
            *final(pos) as int,
        ) == enc_nft(v@),
        forall|x: NftV|
            starts_with(buf@, *old(pos) as int, enc_nft(x)) ==> (r matches Some(v) && v@ == x
                && *final(pos) == *old(pos) + enc_nft(x).len()),
{
    let start = *pos;
    let ghost p0 = *pos as int;
    proof {
        assert forall|x: NftV|
            starts_with(buf@, p0, enc_nft(x)) implies ({
            let q1 = p0 + enc_u64(x.id).len();
            let q2 = q1 + enc_bytes(x.owner).len();
            let q3 = q2 + enc_opt(x.approved).len();
            let q4 = q3 + enc_list(x.metadata, enc_mpart_fn()).len();
            &&& starts_with(buf@, p0, enc_u64(x.id))
            &&& starts_with(buf@, q1, enc_bytes(x.owner))
            &&& starts_with(buf@, q2, enc_opt(x.approved))
            &&& starts_with(buf@, q3, enc_list(x.metadata, enc_mpart_fn()))
            &&& starts_with(buf@, q4, enc_bytes(x.content))
        }) by {
            lemma_starts_with_split(
                buf@,
                p0,
                enc_u64(x.id),
                enc_bytes(x.owner) + (enc_opt(x.approved) + (enc_list(x.metadata, enc_mpart_fn())
                    + enc_bytes(x.content))),
            );
            lemma_starts_with_split(
                buf@,
                p0 + enc_u64(x.id).len(),
                enc_bytes(x.owner),
                enc_opt(x.approved) + (enc_list(x.metadata, enc_mpart_fn()) + enc_bytes(x.content)),
            );
            lemma_starts_with_split(
                buf@,
                p0 + enc_u64(x.id).len() + enc_bytes(x.owner).len(),
                enc_opt(x.approved),
                enc_list(x.metadata, enc_mpart_fn()) + enc_bytes(x.content),
            );
            lemma_starts_with_split(
                buf@,
                p0 + enc_u64(x.id).len() + enc_bytes(x.owner).len() + enc_opt(x.approved).len(),
                enc_list(x.metadata, enc_mpart_fn()),
                enc_bytes(x.content),
            );
        }
    }
    let id = match dec_u64(buf, pos) {
        Some(v) => v,
        None => {
            return None;
        },
    };
    let owner = match dec_principal(buf, pos) {
        Some(v) => v,
        None => {
            *pos = start;
            return None;
        },
    };
    let approved = match dec_opt(buf, pos) {
        Some(v) => v,
        None => {
            *pos = start;
            return None;
        },
    };
    let metadata = match dec_mpart_list(buf, pos) {
        Some(v) => v,
        None => {
            *pos = start;
            return None;
        },
    };
    let content = match dec_bytes(buf, pos) {
        Some(v) => v,
        None => {
            *pos = start;
            return None;
        },
    };
    let n = Nft { id, owner, approved, metadata, content };
    proof {
        assert(mpart_views(n.metadata@) =~= n@.metadata);
        assert(buf@.subrange(p0, *pos as int) =~= enc_u64(n@.id) + (enc_bytes(n@.owner) + (enc_opt(
            n@.approved,
        ) + (enc_list(n@.metadata, enc_mpart_fn()) + enc_bytes(n@.content)))));
        assert forall|x: NftV| starts_with(buf@, p0, enc_nft(x)) implies (n@ == x && *pos == p0
            + enc_nft(x).len()) by {
            assert(n@.id == x.id);
            assert(n@.owner == x.owner);
            assert(n@.approved == x.approved);
            assert(n@.metadata == x.metadata);
            assert(n@.content == x.content);
            assert(n@ =~= x);
        }
    }
    Some(n)
}


/// The item encoder of token record items.
pub open spec fn enc_nft_fn() -> spec_fn(NftV) -> Seq<u8> {
    |t: NftV| enc_nft(t)
}

/// Every encoded token record is non-empty.
pub proof fn lemma_enc_nft_fn_pos()
    ensures
        forall|t: NftV| (#[trigger] enc_nft_fn()(t)).len() >= 1,
{
    vstd::bytes::lemma_auto_spec_u64_to_from_le_bytes();
    assert forall|t: NftV| (#[trigger] enc_nft_fn()(t)).len() >= 1 by {
        assert(enc_nft_fn()(t) == enc_nft(t));
        assert(enc_nft(t) == enc_u64(t.id) + (enc_bytes(t.owner) + (enc_opt(t.approved) + (enc_list(t.metadata, enc_mpart_fn()) + enc_bytes(t.content)))));
    }
}

/// The view of each element of a vector of token records.
pub open spec fn nft_views(s: Seq<Nft>) -> Seq<NftV> {
    s.map_values(|e: Nft| e@)
}

/// Appends the encoding of a list of token records.
fn push_nft_list(out: &mut Vec<u8>, s: &Vec<Nft>)
    ensures
        final(out)@ == old(out)@ + enc_list(nft_views(s@), enc_nft_fn()),
{
    let n = s.len();
    push_u64(out, n as u64);
    let mut i: usize = 0;
    while i < n
        invariant
            n == s@.len(),
            i <= n,
            out@ =~= old(out)@ + enc_u64(n as u64) + enc_items(
                nft_views(s@).take(i as int),
                enc_nft_fn(),
            ),
        decreases n - i,
    {
        push_nft(out, &s[i]);
        proof {
            lemma_enc_items_snoc(nft_views(s@), enc_nft_fn(), i as int);
            assert(enc_nft_fn()(nft_views(s@)[i as int]) == enc_nft(nft_views(s@)[i as int]));
            assert(nft_views(s@)[i as int] == s@[i as int]@);
            assert(out@ =~= old(out)@ + enc_u64(n as u64) + enc_items(
                nft_views(s@).take(i + 1),
                enc_nft_fn(),
            ));
        }
        i += 1;
    }
    proof {
        assert(nft_views(s@).take(n as int) =~= nft_views(s@));
    }
}

/// Reads a list of token records.
fn dec_nft_list(buf: &[u8], pos: &mut usize) -> (r: Option<Vec<Nft>>)
    requires
        *old(pos) <= buf@.len(),
    ensures
        *old(pos) <= *final(pos) <= buf@.len(),
        r is None ==> *final(pos) == *old(pos),
        r matches Some(v) ==> *final(pos) == *old(pos) + enc_list(nft_views(v@), enc_nft_fn()).len()
            && buf@.subrange(*old(pos) as int, *final(pos) as int) == enc_list(
            nft_views(v@),
            enc_nft_fn(),
        ),
        forall|x: Seq<NftV>|
            starts_with(buf@, *old(pos) as int, enc_list(x, enc_nft_fn())) ==> (r matches Some(v)
                && nft_views(v@) == x && *final(pos) == *old(pos) + enc_list(
                x,
                enc_nft_fn(),
            ).len()),
{
    proof {
        lemma_enc_nft_fn_pos();
    }
    let blen = buf.len();
    let start = *pos;
    let ghost p0 = *pos as int;
    let cnt = match dec_u64(buf, pos) {
        Some(c) => c,
        None => {
            proof {
                assert forall|x: Seq<NftV>| !starts_with(buf@, p0, enc_list(x, enc_nft_fn())) by {
                    if starts_with(buf@, p0, enc_list(x, enc_nft_fn())) {
                        lemma_starts_with_split(
                            buf@,
                            p0,
                            enc_u64(x.len() as u64),
                            enc_items(x, enc_nft_fn()),
                        );
                    }
                }
            }
            return None;
        },
    };
    if cnt > (usize::MAX as u64) {
        proof {
            lemma_enc_nft_fn_pos();
            vstd::bytes::lemma_auto_spec_u64_to_from_le_bytes();
            assert(blen == buf@.len());
            assert forall|x: Seq<NftV>| !starts_with(buf@, p0, enc_list(x, enc_nft_fn())) by {
                if starts_with(buf@, p0, enc_list(x, enc_nft_fn())) {
                    lemma_starts_with_split(
                        buf@,
                        p0,
                        enc_u64(x.len() as u64),
                        enc_items(x, enc_nft_fn()),
                    );
                    lemma_enc_items_len(x, enc_nft_fn());
                    assert(x.len() <= buf@.len());
                    assert(x.len() as u64 == cnt);
                }
            }
        }
        *pos = start;
        return None;
    }
    let nu = cnt as usize;
    let ghost p1 = *pos as int;
    let mut items: Vec<Nft> = Vec::new();
    let mut k: usize = 0;
    while k < nu
        invariant
            *old(pos) <= buf@.len(),
            buf@.len() <= usize::MAX,
            k <= nu,
            nu == cnt,
            start == *old(pos),
            forall|y: u64| starts_with(buf@, p0, enc_u64(y)) ==> y == cnt,
            p1 == p0 + 8,
            p0 == *old(pos),
            p1 <= *pos <= buf@.len(),
            buf@.subrange(p1, *pos as int) == enc_items(nft_views(items@), enc_nft_fn()),
            items@.len() == k,
            forall|x: Seq<NftV>|
                (x.len() == nu && starts_with(buf@, p1, enc_items(x, enc_nft_fn()))) ==> (nft_views(
                    items@,
                ) =~= x.take(k as int) && *pos == p1 + enc_items(
                    x.take(k as int),
                    enc_nft_fn(),
                ).len()),
        decreases nu - k,
    {
        let ghost pk = *pos as int;
        let ghost pre_items = items@;
        match dec_nft_item(buf, pos) {
            Some(pr) => {
                items.push(pr);
                proof {
                    assert(buf@.subrange(p1, *pos as int) =~= buf@.subrange(p1, pk) + buf@.subrange(
                        pk,
                        *pos as int,
                    ));
                    assert(nft_views(items@) =~= nft_views(pre_items).push(pr@));
                    lemma_enc_items_snoc(nft_views(items@), enc_nft_fn(), k as int);
                    assert(nft_views(items@).take(k as int) =~= nft_views(pre_items));
                    assert(nft_views(items@).take(k + 1) =~= nft_views(items@));
                    assert(enc_nft_fn()(pr@) == enc_nft(pr@));
                    assert(buf@.subrange(p1, *pos as int) == enc_items(
                        nft_views(items@),
                        enc_nft_fn(),
                    ));
                    assert forall|x: Seq<NftV>|
                        (x.len() == nu && starts_with(
                            buf@,
                            p1,
                            enc_items(x, enc_nft_fn()),
                        )) implies (nft_views(items@) =~= x.take(k + 1) && *pos == p1 + enc_items(
                        x.take(k + 1),
                        enc_nft_fn(),
                    ).len()) by {
                        lemma_enc_items_split(x, enc_nft_fn(), k as int);
                        lemma_starts_with_split(
                            buf@,
                            p1,
                            enc_items(x.take(k as int), enc_nft_fn()),
                            enc_items(x.skip(k as int), enc_nft_fn()),
                        );
                        lemma_enc_items_snoc(x, enc_nft_fn(), k as int);
                        lemma_starts_with_split(
                            buf@,
                            pk,
                            enc_nft_fn()(x[k as int]),
                            enc_items(x.skip(k + 1), enc_nft_fn()),
                        );
                        assert(enc_nft_fn()(x[k as int]) == enc_nft(x[k as int]));
                        assert(starts_with(buf@, pk, enc_nft(x[k as int])));
                        assert(pr@ == x[k as int]);
                        assert(nft_views(items@) =~= x.take(k + 1));
                    }
                }
            },
            None => {
                proof {
                    lemma_enc_nft_fn_pos();
                    vstd::bytes::lemma_auto_spec_u64_to_from_le_bytes();
                    assert forall|x: Seq<NftV>| !starts_with(buf@, p0, enc_list(x, enc_nft_fn())) by {
                        if starts_with(buf@, p0, enc_list(x, enc_nft_fn())) {
                            lemma_starts_with_split(
                                buf@,
                                p0,
                                enc_u64(x.len() as u64),
                                enc_items(x, enc_nft_fn()),
                            );
                            lemma_enc_items_len(x, enc_nft_fn());
                            assert(x.len() as u64 == cnt);
                            assert(x.len() == nu);
                            lemma_enc_items_split(x, enc_nft_fn(), k as int);
                            lemma_starts_with_split(
                                buf@,
                                p1,
                                enc_items(x.take(k as int), enc_nft_fn()),
                                enc_items(x.skip(k as int), enc_nft_fn()),
                            );
                            lemma_enc_items_snoc(x, enc_nft_fn(), k as int);
                            lemma_starts_with_split(
                                buf@,
                                pk,
                                enc_nft_fn()(x[k as int]),
                                enc_items(x.skip(k + 1), enc_nft_fn()),
                            );
                            assert(enc_nft_fn()(x[k as int]) == enc_nft(x[k as int]));
                            assert(starts_with(buf@, pk, enc_nft(x[k as int])));
                        }
                    }
                }
                *pos = start;
                return None;
            },
        }
        k += 1;
    }
    proof {
        lemma_enc_nft_fn_pos();
        vstd::bytes::lemma_auto_spec_u64_to_from_le_bytes();
        assert(blen == buf@.len());
        assert(buf@.subrange(p0, *pos as int) =~= enc_u64(cnt) + buf@.subrange(p1, *pos as int));
        assert(nft_views(items@).len() == nu);
        assert(nft_views(items@).len() as u64 == cnt);
        assert(buf@.subrange(p0, *pos as int) == enc_list(nft_views(items@), enc_nft_fn()));
        assert forall|x: Seq<NftV>|
            starts_with(buf@, p0, enc_list(x, enc_nft_fn())) implies (nft_views(items@) == x
            && *pos == p0 + enc_list(x, enc_nft_fn()).len()) by {
            lemma_starts_with_split(buf@, p0, enc_u64(x.len() as u64), enc_items(x, enc_nft_fn()));
            lemma_enc_items_len(x, enc_nft_fn());
            assert(x.len() as u64 == cnt);
            assert(x.len() == nu);
            assert(nft_views(items@) =~= x.take(nu as int));
            assert(x.take(nu as int) =~= x);
            assert(nft_views(items@) =~= x);
        }
    }
    Some(items)
}


/// The encoding of one owner's operator entry.
pub open spec fn enc_oentry(e: (Seq<u8>, Seq<Seq<u8>>)) -> Seq<u8> {
    enc_bytes(e.0) + enc_pset(e.1)
}

/// Appends the encoding of an operator entry.
fn push_oentry(out: &mut Vec<u8>, e: &OperatorEntry)
    ensures
        final(out)@ == old(out)@ + enc_oentry(e@),
{
    push_principal(out, &e.owner);
    push_pset(out, &e.operators);
    proof {
        assert(out@ =~= old(out)@ + enc_oentry(e@));
    }
}

/// Reads an operator entry.
fn dec_oentry_item(buf: &[u8], pos: &mut usize) -> (r: Option<OperatorEntry>)
    requires
        *old(pos) <= buf@.len(),
    ensures
        *old(pos) <= *final(pos) <= buf@.len(),
        r is None ==> *final(pos) == *old(pos),
        r matches Some(v) ==> *final(pos) == *old(pos) + enc_oentry(v@).len() && buf@.subrange(
            *old(pos) as int,
            *final(pos) as int,
        ) == enc_oentry(v@),
        forall|x: (Seq<u8>, Seq<Seq<u8>>)|
            starts_with(buf@, *old(pos) as int, enc_oentry(x)) ==> (r matches Some(v) && v@ == x
                && *final(pos) == *old(pos) + enc_oentry(x).len()),
{
    let start = *pos;
    let ghost p0 = *pos as int;
    proof {
        assert forall|x: (Seq<u8>, Seq<Seq<u8>>)|
            starts_with(buf@, p0, enc_oentry(x)) implies starts_with(buf@, p0, enc_bytes(x.0))
            && starts_with(buf@, p0 + enc_bytes(x.0).len(), enc_pset(x.1)) by {
            lemma_starts_with_split(buf@, p0, enc_bytes(x.0), enc_pset(x.1));
        }
    }
    let owner = match dec_principal(buf, pos) {
        Some(v) => v,
        None => {
            return None;
        },
    };
    let operators = match dec_pset(buf, pos) {
        Some(v) => v,
        None => {
            *pos = start;
            return None;
        },
    };
    let e = OperatorEntry { owner, operators };
    proof {
        assert(buf@.subrange(p0, *pos as int) =~= enc_bytes(e@.0) + enc_pset(e@.1));
        assert forall|x: (Seq<u8>, Seq<Seq<u8>>)| starts_with(buf@, p0, enc_oentry(x)) implies (e@
            == x && *pos == p0 + enc_oentry(x).len()) by {
            assert(e@.0 == x.0);
            assert(e@.1 == x.1);
        }
    }
    Some(e)
}


/// The item encoder of operator entry items.
pub open spec fn enc_oentry_fn() -> spec_fn((Seq<u8>, Seq<Seq<u8>>)) -> Seq<u8> {
    |t: (Seq<u8>, Seq<Seq<u8>>)| enc_oentry(t)
}

/// Every encoded operator entry is non-empty.
pub proof fn lemma_enc_oentry_fn_pos()
    ensures
        forall|t: (Seq<u8>, Seq<Seq<u8>>)| (#[trigger] enc_oentry_fn()(t)).len() >= 1,
{
    vstd::bytes::lemma_auto_spec_u64_to_from_le_bytes();
    assert forall|t: (Seq<u8>, Seq<Seq<u8>>)| (#[trigger] enc_oentry_fn()(t)).len() >= 1 by {
        assert(enc_oentry_fn()(t) == enc_oentry(t));
        assert(enc_oentry(t) == enc_bytes(t.0) + enc_pset(t.1));
    }
}

/// The view of each element of a vector of operator entries.
pub open spec fn oentry_views(s: Seq<OperatorEntry>) -> Seq<(Seq<u8>, Seq<Seq<u8>>)> {
    s.map_values(|e: OperatorEntry| e@)
}

/// Appends the encoding of a list of operator entries.
fn push_oentry_list(out: &mut Vec<u8>, s: &Vec<OperatorEntry>)
    ensures
        final(out)@ == old(out)@ + enc_list(oentry_views(s@), enc_oentry_fn()),
{
    let n = s.len();
    push_u64(out, n as u64);
    let mut i: usize = 0;
    while i < n
        invariant
            n == s@.len(),
            i <= n,
            out@ =~= old(out)@ + enc_u64(n as u64) + enc_items(
                oentry_views(s@).take(i as int),
                enc_oentry_fn(),
            ),
        decreases n - i,
    {
        push_oentry(out, &s[i]);
        proof {
            lemma_enc_items_snoc(oentry_views(s@), enc_oentry_fn(), i as int);
            assert(enc_oentry_fn()(oentry_views(s@)[i as int]) == enc_oentry(oentry_views(s@)[i as int]));
            assert(oentry_views(s@)[i as int] == s@[i as int]@);
            assert(out@ =~= old(out)@ + enc_u64(n as u64) + enc_items(
                oentry_views(s@).take(i + 1),
                enc_oentry_fn(),
            ));
        }
        i += 1;
    }
    proof {
        assert(oentry_views(s@).take(n as int) =~= oentry_views(s@));
    }
}

/// Reads a list of operator entries.
fn dec_oentry_list(buf: &[u8], pos: &mut usize) -> (r: Option<Vec<OperatorEntry>>)
    requires
        *old(pos) <= buf@.len(),
    ensures
        *old(pos) <= *final(pos) <= buf@.len(),
        r is None ==> *final(pos) == *old(pos),
        r matches Some(v) ==> *final(pos) == *old(pos) + enc_list(oentry_views(v@), enc_oentry_fn()).len()
            && buf@.subrange(*old(pos) as int, *final(pos) as int) == enc_list(
            oentry_views(v@),
            enc_oentry_fn(),
        ),
        forall|x: Seq<(Seq<u8>, Seq<Seq<u8>>)>|
            starts_with(buf@, *old(pos) as int, enc_list(x, enc_oentry_fn())) ==> (r matches Some(v)
                && oentry_views(v@) == x && *final(pos) == *old(pos) + enc_list(
                x,
                enc_oentry_fn(),
            ).len()),
{
    proof {
        lemma_enc_oentry_fn_pos();
    }
    let blen = buf.len();
    let start = *pos;
    let ghost p0 = *pos as int;
    let cnt = match dec_u64(buf, pos) {
        Some(c) => c,
        None => {
            proof {
                assert forall|x: Seq<(Seq<u8>, Seq<Seq<u8>>)>| !starts_with(buf@, p0, enc_list(x, enc_oentry_fn())) by {
                    if starts_with(buf@, p0, enc_list(x, enc_oentry_fn())) {
                        lemma_starts_with_split(
                            buf@,
                            p0,
                            enc_u64(x.len() as u64),
                            enc_items(x, enc_oentry_fn()),
                        );
                    }
                }
            }
            return None;
        },
    };
    if cnt > (usize::MAX as u64) {
        proof {
            lemma_enc_oentry_fn_pos();
            vstd::bytes::lemma_auto_spec_u64_to_from_le_bytes();
            assert(blen == buf@.len());
            assert forall|x: Seq<(Seq<u8>, Seq<Seq<u8>>)>| !starts_with(buf@, p0, enc_list(x, enc_oentry_fn())) by {
                if starts_with(buf@, p0, enc_list(x, enc_oentry_fn())) {
                    lemma_starts_with_split(
                        buf@,
                        p0,
                        enc_u64(x.len() as u64),
                        enc_items(x, enc_oentry_fn()),
                    );
                    lemma_enc_items_len(x, enc_oentry_fn());
                    assert(x.len() <= buf@.len());
                    assert(x.len() as u64 == cnt);
                }
            }
        }
        *pos = start;
        return None;
    }
    let nu = cnt as usize;
    let ghost p1 = *pos as int;
    let mut items: Vec<OperatorEntry> = Vec::new();
    let mut k: usize = 0;
    while k < nu
        invariant
            *old(pos) <= buf@.len(),
            buf@.len() <= usize::MAX,
            k <= nu,
            nu == cnt,
            start == *old(pos),
            forall|y: u64| starts_with(buf@, p0, enc_u64(y)) ==> y == cnt,
            p1 == p0 + 8,
            p0 == *old(pos),
            p1 <= *pos <= buf@.len(),
            buf@.subrange(p1, *pos as int) == enc_items(oentry_views(items@), enc_oentry_fn()),
            items@.len() == k,
            forall|x: Seq<(Seq<u8>, Seq<Seq<u8>>)>|
                (x.len() == nu && starts_with(buf@, p1, enc_items(x, enc_oentry_fn()))) ==> (oentry_views(
                    items@,
                ) =~= x.take(k as int) && *pos == p1 + enc_items(
                    x.take(k as int),
                    enc_oentry_fn(),
                ).len()),
        decreases nu - k,
    {
        let ghost pk = *pos as int;
        let ghost pre_items = items@;
        match dec_oentry_item(buf, pos) {
            Some(pr) => {
                items.push(pr);
                proof {
                    assert(buf@.subrange(p1, *pos as int) =~= buf@.subrange(p1, pk) + buf@.subrange(
                        pk,
                        *pos as int,
                    ));
                    assert(oentry_views(items@) =~= oentry_views(pre_items).push(pr@));
                    lemma_enc_items_snoc(oentry_views(items@), enc_oentry_fn(), k as int);
                    assert(oentry_views(items@).take(k as int) =~= oentry_views(pre_items));
                    assert(oentry_views(items@).take(k + 1) =~= oentry_views(items@));
                    assert(enc_oentry_fn()(pr@) == enc_oentry(pr@));
                    assert(buf@.subrange(p1, *pos as int) == enc_items(
                        oentry_views(items@),
                        enc_oentry_fn(),
                    ));
                    assert forall|x: Seq<(Seq<u8>, Seq<Seq<u8>>)>|
                        (x.len() == nu && starts_with(
                            buf@,
                            p1,
                            enc_items(x, enc_oentry_fn()),
                        )) implies (oentry_views(items@) =~= x.take(k + 1) && *pos == p1 + enc_items(
                        x.take(k + 1),
                        enc_oentry_fn(),
                    ).len()) by {
                        lemma_enc_items_split(x, enc_oentry_fn(), k as int);
                        lemma_starts_with_split(
                            buf@,
                            p1,
                            enc_items(x.take(k as int), enc_oentry_fn()),
                            enc_items(x.skip(k as int), enc_oentry_fn()),
                        );
                        lemma_enc_items_snoc(x, enc_oentry_fn(), k as int);
                        lemma_starts_with_split(
                            buf@,
                            pk,
                            enc_oentry_fn()(x[k as int]),
                            enc_items(x.skip(k + 1), enc_oentry_fn()),
                        );
                        assert(enc_oentry_fn()(x[k as int]) == enc_oentry(x[k as int]));
                        assert(starts_with(buf@, pk, enc_oentry(x[k as int])));
                        assert(pr@ == x[k as int]);
                        assert(oentry_views(items@) =~= x.take(k + 1));
                    }
                }
            },
            None => {
                proof {
                    lemma_enc_oentry_fn_pos();
                    vstd::bytes::lemma_auto_spec_u64_to_from_le_bytes();
                    assert forall|x: Seq<(Seq<u8>, Seq<Seq<u8>>)>| !starts_with(buf@, p0, enc_list(x, enc_oentry_fn())) by {
                        if starts_with(buf@, p0, enc_list(x, enc_oentry_fn())) {
                            lemma_starts_with_split(
                                buf@,
                                p0,
                                enc_u64(x.len() as u64),
                                enc_items(x, enc_oentry_fn()),
                            );
                            lemma_enc_items_len(x, enc_oentry_fn());
                            assert(x.len() as u64 == cnt);
                            assert(x.len() == nu);
                            lemma_enc_items_split(x, enc_oentry_fn(), k as int);
                            lemma_starts_with_split(
                                buf@,
                                p1,
                                enc_items(x.take(k as int), enc_oentry_fn()),
                                enc_items(x.skip(k as int), enc_oentry_fn()),
                            );
                            lemma_enc_items_snoc(x, enc_oentry_fn(), k as int);
                            lemma_starts_with_split(
                                buf@,
                                pk,
                                enc_oentry_fn()(x[k as int]),
                                enc_items(x.skip(k + 1), enc_oentry_fn()),
                            );
                            assert(enc_oentry_fn()(x[k as int]) == enc_oentry(x[k as int]));
                            assert(starts_with(buf@, pk, enc_oentry(x[k as int])));
                        }
                    }
                }
                *pos = start;
                return None;
            },
        }
        k += 1;
    }
    proof {
        lemma_enc_oentry_fn_pos();
        vstd::bytes::lemma_auto_spec_u64_to_from_le_bytes();
        assert(blen == buf@.len());
        assert(buf@.subrange(p0, *pos as int) =~= enc_u64(cnt) + buf@.subrange(p1, *pos as int));
        assert(oentry_views(items@).len() == nu);
        assert(oentry_views(items@).len() as u64 == cnt);
        assert(buf@.subrange(p0, *pos as int) == enc_list(oentry_views(items@), enc_oentry_fn()));
        assert forall|x: Seq<(Seq<u8>, Seq<Seq<u8>>)>|
            starts_with(buf@, p0, enc_list(x, enc_oentry_fn())) implies (oentry_views(items@) == x
            && *pos == p0 + enc_list(x, enc_oentry_fn()).len()) by {
            lemma_starts_with_split(buf@, p0, enc_u64(x.len() as u64), enc_items(x, enc_oentry_fn()));
            lemma_enc_items_len(x, enc_oentry_fn());
            assert(x.len() as u64 == cnt);
            assert(x.len() == nu);
            assert(oentry_views(items@) =~= x.take(nu as int));
            assert(x.take(nu as int) =~= x);
            assert(oentry_views(items@) =~= x);
        }
    }
    Some(items)
}



/// The encoding of a collection.
pub open spec fn enc_collection(c: CollectionV) -> Seq<u8> {
    enc_str(c.name) + (enc_logo(c.logo) + (enc_str(c.symbol) + (enc_list(c.nfts, enc_nft_fn()) + (
    enc_pset(c.custodians) + enc_list(c.operators, enc_oentry_fn())))))
}

/// Appends the encoding of a collection.
fn push_collection(out: &mut Vec<u8>, c: &Collection)
    ensures
        final(out)@ == old(out)@ + enc_collection(c@),
{
    push_str(out, c.name.as_str());
    push_logo(out, &c.logo);
    push_str(out, c.symbol.as_str());
    push_nft_list(out, &c.nfts);
    push_pset(out, &c.custodians);
    push_oentry_list(out, &c.operators);
    proof {
        assert(nft_views(c.nfts@) =~= c@.nfts);
        assert(oentry_views(c.operators@) =~= c@.operators);
        assert(out@ =~= old(out)@ + enc_collection(c@));
    }
}

/// Reads a collection.
fn dec_collection(buf: &[u8], pos: &mut usize) -> (r: Option<Collection>)
    requires
        *old(pos) <= buf@.len(),
    ensures
        *old(pos) <= *final(pos) <= buf@.len(),
        r is None ==> *final(pos) == *old(pos),
        r matches Some(v) ==> *final(pos) == *old(pos) + enc_collection(v@).len() && buf@.subrange(
            *old(pos) as int,
            *final(pos) as int,
        ) == enc_collection(v@),
        forall|x: CollectionV|
            starts_with(buf@, *old(pos) as int, enc_collection(x)) ==> (r matches Some(v) && v@ == x
                && *final(pos) == *old(pos) + enc_collection(x).len()),
{
    let start = *pos;
    let ghost p0 = *pos as int;
    proof {
        assert forall|x: CollectionV|
            starts_with(buf@, p0, enc_collection(x)) implies ({
            let q1 = p0 + enc_str(x.name).len();
            let q2 = q1 + enc_logo(x.logo).len();
            let q3 = q2 + enc_str(x.symbol).len();
            let q4 = q3 + enc_list(x.nfts, enc_nft_fn()).len();
            let q5 = q4 + enc_pset(x.custodians).len();
            &&& starts_with(buf@, p0, enc_str(x.name))
            &&& starts_with(buf@, q1, enc_logo(x.logo))
            &&& starts_with(buf@, q2, enc_str(x.symbol))
            &&& starts_with(buf@, q3, enc_list(x.nfts, enc_nft_fn()))
            &&& starts_with(buf@, q4, enc_pset(x.custodians))
            &&& starts_with(buf@, q5, enc_list(x.operators, enc_oentry_fn()))
        }) by {
            lemma_starts_with_split(
                buf@,
                p0,
                enc_str(x.name),
                enc_logo(x.logo) + (enc_str(x.symbol) + (enc_list(x.nfts, enc_nft_fn()) + (
                enc_pset(x.custodians) + enc_list(x.operators, enc_oentry_fn())))),
            );
            lemma_starts_with_split(
                buf@,
                p0 + enc_str(x.name).len(),
                enc_logo(x.logo),
                enc_str(x.symbol) + (enc_list(x.nfts, enc_nft_fn()) + (enc_pset(x.custodians)
                    + enc_list(x.operators, enc_oentry_fn()))),
            );
            lemma_starts_with_split(
                buf@,
                p0 + enc_str(x.name).len() + enc_logo(x.logo).len(),
                enc_str(x.symbol),
                enc_list(x.nfts, enc_nft_fn()) + (enc_pset(x.custodians) + enc_list(
                    x.operators,
                    enc_oentry_fn(),
                )),
            );
            lemma_starts_with_split(
                buf@,
                p0 + enc_str(x.name).len() + enc_logo(x.logo).len() + enc_str(x.symbol).len(),
                enc_list(x.nfts, enc_nft_fn()),
                enc_pset(x.custodians) + enc_list(x.operators, enc_oentry_fn()),
            );
            lemma_starts_with_split(
                buf@,
                p0 + enc_str(x.name).len() + enc_logo(x.logo).len() + enc_str(x.symbol).len()
                    + enc_list(x.nfts, enc_nft_fn()).len(),
                enc_pset(x.custodians),
                enc_list(x.operators, enc_oentry_fn()),
            );
        }
    }
    let name = match dec_str(buf, pos) {
        Some(v) => v,
        None => {
            return None;
        },
    };
    let logo = match dec_logo(buf, pos) {
        Some(v) => v,
        None => {
            *pos = start;
            return None;
        },
    };
    let symbol = match dec_str(buf, pos) {
        Some(v) => v,
        None => {
            *pos = start;
            return None;
        },
    };
    let nfts = match dec_nft_list(buf, pos) {
        Some(v) => v,
        None => {
            *pos = start;
            return None;
        },
    };
    let custodians = match dec_pset(buf, pos) {
        Some(v) => v,
        None => {
            *pos = start;
            return None;
        },
    };
    let operators = match dec_oentry_list(buf, pos) {
        Some(v) => v,
        None => {
            *pos = start;
            return None;
        },
    };
    let c = Collection { name, logo, symbol, nfts, custodians, operators };
    proof {
        assert(nft_views(c.nfts@) =~= c@.nfts);
        assert(oentry_views(c.operators@) =~= c@.operators);
        assert(buf@.subrange(p0, *pos as int) =~= enc_str(c@.name) + (enc_logo(c@.logo) + (enc_str(
            c@.symbol,
        ) + (enc_list(c@.nfts, enc_nft_fn()) + (enc_pset(c@.custodians) + enc_list(
            c@.operators,
            enc_oentry_fn(),
        ))))));
        assert forall|x: CollectionV| starts_with(buf@, p0, enc_collection(x)) implies (c@ == x
            && *pos == p0 + enc_collection(x).len()) by {
            assert(c@.name == x.name);
            assert(c@.logo == x.logo);
            assert(c@.symbol == x.symbol);
            assert(c@.nfts == x.nfts);
            assert(c@.custodians == x.custodians);
            assert(c@.operators == x.operators);
            assert(c@ =~= x);
        }
    }
    Some(c)
}

/// The encoding of a collection under its id.
pub open spec fn enc_centry(e: (usize, CollectionV)) -> Seq<u8> {
    enc_u64(e.0 as u64) + enc_collection(e.1)
}

/// Appends the encoding of a collection entry.
fn push_centry(out: &mut Vec<u8>, e: &CollectionEntry)
    ensures
        final(out)@ == old(out)@ + enc_centry(e@),
{
    push_u64(out, e.id as u64);
    push_collection(out, &e.collection);
    proof {
        assert(out@ =~= old(out)@ + enc_centry(e@));
    }
}

/// Reads a collection entry.
fn dec_centry_item(buf: &[u8], pos: &mut usize) -> (r: Option<CollectionEntry>)
    requires
        *old(pos) <= buf@.len(),
    ensures
        *old(pos) <= *final(pos) <= buf@.len(),
        r is None ==> *final(pos) == *old(pos),
        r matches Some(v) ==> *final(pos) == *old(pos) + enc_centry(v@).len() && buf@.subrange(
            *old(pos) as int,
            *final(pos) as int,
        ) == enc_centry(v@),
        forall|x: (usize, CollectionV)|
            starts_with(buf@, *old(pos) as int, enc_centry(x)) ==> (r matches Some(v) && v@ == x
                && *final(pos) == *old(pos) + enc_centry(x).len()),
{
    let start = *pos;
    let ghost p0 = *pos as int;
    proof {
        assert forall|x: (usize, CollectionV)|
            starts_with(buf@, p0, enc_centry(x)) implies starts_with(buf@, p0, enc_u64(x.0 as u64))
            && starts_with(buf@, p0 + 8, enc_collection(x.1)) by {
            vstd::bytes::lemma_auto_spec_u64_to_from_le_bytes();
            lemma_starts_with_split(buf@, p0, enc_u64(x.0 as u64), enc_collection(x.1));
        }
    }
    let idv = match dec_u64(buf, pos) {
        Some(v) => v,
        None => {
            return None;
        },
    };
    if idv > (usize::MAX as u64) {
        proof {
            assert forall|x: (usize, CollectionV)| !starts_with(buf@, p0, enc_centry(x)) by {
                if starts_with(buf@, p0, enc_centry(x)) {
                    assert(idv == x.0 as u64);
                    assert(x.0 as u64 <= usize::MAX as u64);
                }
            }
        }
        *pos = start;
        return None;
    }
    let id: usize = idv as usize;
    let collection = match dec_collection(buf, pos) {
        Some(v) => v,
        None => {
            *pos = start;
            return None;
        },
    };
    let e = CollectionEntry { id, collection };
    proof {
        vstd::bytes::lemma_auto_spec_u64_to_from_le_bytes();
        assert(id as u64 == idv);
        assert(buf@.subrange(p0, *pos as int) =~= enc_u64(id as u64) + enc_collection(
            e.collection@,
        ));
        assert forall|x: (usize, CollectionV)| starts_with(buf@, p0, enc_centry(x)) implies (e@
            == x && *pos == p0 + enc_centry(x).len()) by {
            assert(idv == x.0 as u64);
            assert(x.0 as u64 as usize == x.0);
            assert(e@.0 == x.0);
            assert(e@.1 == x.1);
        }
    }
    Some(e)
}

/// The item encoder of collection entry items.
pub open spec fn enc_centry_fn() -> spec_fn((usize, CollectionV)) -> Seq<u8> {
    |t: (usize, CollectionV)| enc_centry(t)
}

/// Every encoded collection entry is non-empty.
pub proof fn lemma_enc_centry_fn_pos()
    ensures
        forall|t: (usize, CollectionV)| (#[trigger] enc_centry_fn()(t)).len() >= 1,
{
    vstd::bytes::lemma_auto_spec_u64_to_from_le_bytes();
    assert forall|t: (usize, CollectionV)| (#[trigger] enc_centry_fn()(t)).len() >= 1 by {
        assert(enc_centry_fn()(t) == enc_centry(t));
        assert(enc_centry(t) == enc_u64(t.0 as u64) + enc_collection(t.1));
    }
}

/// The view of each element of a vector of collection entries.
pub open spec fn centry_views(s: Seq<CollectionEntry>) -> Seq<(usize, CollectionV)> {
    s.map_values(|e: CollectionEntry| e@)
}

/// Appends the encoding of a list of collection entries.
fn push_centry_list(out: &mut Vec<u8>, s: &Vec<CollectionEntry>)
    ensures
        final(out)@ == old(out)@ + enc_list(centry_views(s@), enc_centry_fn()),
{
    let n = s.len();
    push_u64(out, n as u64);
    let mut i: usize = 0;
    while i < n
        invariant
            n == s@.len(),
            i <= n,
            out@ =~= old(out)@ + enc_u64(n as u64) + enc_items(
                centry_views(s@).take(i as int),
                enc_centry_fn(),
            ),
        decreases n - i,
    {
        push_centry(out, &s[i]);
        proof {
            lemma_enc_items_snoc(centry_views(s@), enc_centry_fn(), i as int);
            assert(enc_centry_fn()(centry_views(s@)[i as int]) == enc_centry(centry_views(s@)[i as int]));
            assert(centry_views(s@)[i as int] == s@[i as int]@);
            assert(out@ =~= old(out)@ + enc_u64(n as u64) + enc_items(
                centry_views(s@).take(i + 1),
                enc_centry_fn(),
            ));
        }
        i += 1;
    }
    proof {
        assert(centry_views(s@).take(n as int) =~= centry_views(s@));
    }
}

/// Reads a list of collection entries.
#[verifier::rlimit(50)]
fn dec_centry_list(buf: &[u8], pos: &mut usize) -> (r: Option<Vec<CollectionEntry>>)
    requires
        *old(pos) <= buf@.len(),
    ensures
        *old(pos) <= *final(pos) <= buf@.len(),
        r is None ==> *final(pos) == *old(pos),
        r matches Some(v) ==> *final(pos) == *old(pos) + enc_list(centry_views(v@), enc_centry_fn()).len()
            && buf@.subrange(*old(pos) as int, *final(pos) as int) == enc_list(
            centry_views(v@),
            enc_centry_fn(),
        ),
        forall|x: Seq<(usize, CollectionV)>|
            starts_with(buf@, *old(pos) as int, enc_list(x, enc_centry_fn())) ==> (r matches Some(v)
                && centry_views(v@) == x && *final(pos) == *old(pos) + enc_list(
                x,
                enc_centry_fn(),
            ).len()),
{
    proof {
        lemma_enc_centry_fn_pos();
    }
    let blen = buf.len();
    let start = *pos;
    let ghost p0 = *pos as int;
    let cnt = match dec_u64(buf, pos) {
        Some(c) => c,
        None => {
            proof {
                assert forall|x: Seq<(usize, CollectionV)>| !starts_with(buf@, p0, enc_list(x, enc_centry_fn())) by {
                    if starts_with(buf@, p0, enc_list(x, enc_centry_fn())) {
                        lemma_starts_with_split(
                            buf@,
                            p0,
                            enc_u64(x.len() as u64),
                            enc_items(x, enc_centry_fn()),
                        );
                    }
                }
            }
            return None;
        },
    };
    if cnt > (usize::MAX as u64) {
        proof {
            lemma_enc_centry_fn_pos();
            vstd::bytes::lemma_auto_spec_u64_to_from_le_bytes();
            assert(blen == buf@.len());
            assert forall|x: Seq<(usize, CollectionV)>| !starts_with(buf@, p0, enc_list(x, enc_centry_fn())) by {
                if starts_with(buf@, p0, enc_list(x, enc_centry_fn())) {
                    lemma_starts_with_split(
                        buf@,
                        p0,
                        enc_u64(x.len() as u64),
                        enc_items(x, enc_centry_fn()),
                    );
                    lemma_enc_items_len(x, enc_centry_fn());
                    assert(x.len() <= buf@.len());
                    assert(x.len() as u64 == cnt);
                }
            }
        }
        *pos = start;
        return None;
    }
    let nu = cnt as usize;
    let ghost p1 = *pos as int;
    let mut items: Vec<CollectionEntry> = Vec::new();
    let mut k: usize = 0;
    while k < nu
        invariant
            *old(pos) <= buf@.len(),
            buf@.len() <= usize::MAX,
            k <= nu,
            nu == cnt,
            start == *old(pos),
            forall|y: u64| starts_with(buf@, p0, enc_u64(y)) ==> y == cnt,
            p1 == p0 + 8,
            p0 == *old(pos),
            p1 <= *pos <= buf@.len(),
            buf@.subrange(p1, *pos as int) == enc_items(centry_views(items@), enc_centry_fn()),
            items@.len() == k,
            forall|x: Seq<(usize, CollectionV)>|
                (x.len() == nu && starts_with(buf@, p1, enc_items(x, enc_centry_fn()))) ==> (centry_views(
                    items@,
                ) =~= x.take(k as int) && *pos == p1 + enc_items(
                    x.take(k as int),
                    enc_centry_fn(),
                ).len()),
        decreases nu - k,
    {
        let ghost pk = *pos as int;
        let ghost pre_items = items@;
        match dec_centry_item(buf, pos) {
            Some(pr) => {
                items.push(pr);
                proof {
                    assert(buf@.subrange(p1, *pos as int) =~= buf@.subrange(p1, pk) + buf@.subrange(
                        pk,
                        *pos as int,
                    ));
                    assert(centry_views(items@) =~= centry_views(pre_items).push(pr@));
                    lemma_enc_items_snoc(centry_views(items@), enc_centry_fn(), k as int);
                    assert(centry_views(items@).take(k as int) =~= centry_views(pre_items));
                    assert(centry_views(items@).take(k + 1) =~= centry_views(items@));
                    assert(enc_centry_fn()(pr@) == enc_centry(pr@));
                    assert(buf@.subrange(p1, *pos as int) == enc_items(
                        centry_views(items@),
                        enc_centry_fn(),
                    ));
                    assert forall|x: Seq<(usize, CollectionV)>|
                        (x.len() == nu && starts_with(
                            buf@,
                            p1,
                            enc_items(x, enc_centry_fn()),
                        )) implies (centry_views(items@) =~= x.take(k + 1) && *pos == p1 + enc_items(
                        x.take(k + 1),
                        enc_centry_fn(),
                    ).len()) by {
                        lemma_enc_items_split(x, enc_centry_fn(), k as int);
                        lemma_starts_with_split(
                            buf@,
                            p1,
                            enc_items(x.take(k as int), enc_centry_fn()),
                            enc_items(x.skip(k as int), enc_centry_fn()),
                        );
                        lemma_enc_items_snoc(x, enc_centry_fn(), k as int);
                        lemma_starts_with_split(
                            buf@,
                            pk,
                            enc_centry_fn()(x[k as int]),
                            enc_items(x.skip(k + 1), enc_centry_fn()),
                        );
                        assert(enc_centry_fn()(x[k as int]) == enc_centry(x[k as int]));
                        assert(starts_with(buf@, pk, enc_centry(x[k as int])));
                        assert(pr@ == x[k as int]);
                        assert(centry_views(items@) =~= x.take(k + 1));
                    }
                }
            },
            None => {
                proof {
                    lemma_enc_centry_fn_pos();
                    vstd::bytes::lemma_auto_spec_u64_to_from_le_bytes();
                    assert forall|x: Seq<(usize, CollectionV)>| !starts_with(buf@, p0, enc_list(x, enc_centry_fn())) by {
                        if starts_with(buf@, p0, enc_list(x, enc_centry_fn())) {
                            lemma_starts_with_split(
                                buf@,
                                p0,
                                enc_u64(x.len() as u64),
                                enc_items(x, enc_centry_fn()),
                            );
                            lemma_enc_items_len(x, enc_centry_fn());
                            assert(x.len() as u64 == cnt);
                            assert(x.len() == nu);
                            lemma_enc_items_split(x, enc_centry_fn(), k as int);
                            lemma_starts_with_split(
                                buf@,
                                p1,
                                enc_items(x.take(k as int), enc_centry_fn()),
                                enc_items(x.skip(k as int), enc_centry_fn()),
                            );
                            lemma_enc_items_snoc(x, enc_centry_fn(), k as int);
                            lemma_starts_with_split(
                                buf@,
                                pk,
                                enc_centry_fn()(x[k as int]),
                                enc_items(x.skip(k + 1), enc_centry_fn()),
                            );
                            assert(enc_centry_fn()(x[k as int]) == enc_centry(x[k as int]));
                            assert(starts_with(buf@, pk, enc_centry(x[k as int])));
                        }
                    }
                }
                *pos = start;
                return None;
            },
        }
        k += 1;
    }
    proof {
        lemma_enc_centry_fn_pos();
        vstd::bytes::lemma_auto_spec_u64_to_from_le_bytes();
        assert(blen == buf@.len());
        assert(buf@.subrange(p0, *pos as int) =~= enc_u64(cnt) + buf@.subrange(p1, *pos as int));
        assert(centry_views(items@).len() == nu);
        assert(centry_views(items@).len() as u64 == cnt);
        assert(buf@.subrange(p0, *pos as int) == enc_list(centry_views(items@), enc_centry_fn()));
        assert forall|x: Seq<(usize, CollectionV)>|
            starts_with(buf@, p0, enc_list(x, enc_centry_fn())) implies (centry_views(items@) == x
            && *pos == p0 + enc_list(x, enc_centry_fn()).len()) by {
            lemma_starts_with_split(buf@, p0, enc_u64(x.len() as u64), enc_items(x, enc_centry_fn()));
            lemma_enc_items_len(x, enc_centry_fn());
            assert(x.len() as u64 == cnt);
            assert(x.len() == nu);
            assert(centry_views(items@) =~= x.take(nu as int));
            assert(x.take(nu as int) =~= x);
            assert(centry_views(items@) =~= x);
        }
    }
    Some(items)
}




/// The encoding of the whole registry: the transaction counter, then every
/// collection under its id.
pub open spec fn enc_state(sv: StateV) -> Seq<u8> {
    enc_u128(sv.txid) + enc_list(sv.collections, enc_centry_fn())
}

/// Encodes the whole registry into one byte blob.
pub fn encode_state(s: &State) -> (r: Vec<u8>)
    ensures
        r@ == enc_state(s@),
{
    let mut out: Vec<u8> = Vec::new();
    let b = u128_to_le_bytes(s.txid);
    push_bytes(&mut out, b.as_slice());
    push_centry_list(&mut out, &s.collections);
    proof {
        assert(centry_views(s.collections@) =~= s@.collections);
        assert(out@ =~= enc_state(s@));
    }
    out
}

/// Decodes a byte blob back into a registry.  It accepts exactly the blobs
/// that `encode_state` produces from well-formed registries, and returns
/// the very registry that was encoded.
pub fn decode_state(bytes: &[u8]) -> (r: Option<State>)
    ensures
        r matches Some(t) ==> t.wf() && bytes@ == enc_state(t@),
        forall|v: StateV|
            #![trigger enc_state(v)]
            v.wf() && bytes@ == enc_state(v) ==> (r matches Some(t) && t@ == v),
{
    let mut pos: usize = 0;
    proof {
        assert forall|v: StateV|
            bytes@ == enc_state(v) implies starts_with(bytes@, 0, enc_u128(v.txid)) && starts_with(
            bytes@,
            16,
            enc_list(v.collections, enc_centry_fn()),
        ) by {
            vstd::bytes::lemma_auto_spec_u128_to_from_le_bytes();
            assert(bytes@.subrange(0, bytes@.len() as int) =~= bytes@);
            assert(starts_with(bytes@, 0, enc_state(v)));
            lemma_starts_with_split(
                bytes@,
                0,
                enc_u128(v.txid),
                enc_list(v.collections, enc_centry_fn()),
            );
        }
    }
    let txid = match dec_u128(bytes, &mut pos) {
        Some(v) => v,
        None => {
            return None;
        },
    };
    let collections = match dec_centry_list(bytes, &mut pos) {
        Some(v) => v,
        None => {
            return None;
        },
    };
    if pos != bytes.len() {
        proof {
            vstd::bytes::lemma_auto_spec_u128_to_from_le_bytes();
            assert forall|v: StateV| bytes@ != enc_state(v) by {
                if bytes@ == enc_state(v) {
                    assert(centry_views(collections@) == v.collections);
                    assert(pos == 16 + enc_list(v.collections, enc_centry_fn()).len());
                    assert(pos == bytes@.len());
                }
            }
        }
        return None;
    }
    let st = State { collections, txid };
    if !st.check_wf() {
        proof {
            assert forall|v: StateV| !(v.wf() && bytes@ == enc_state(v)) by {
                if v.wf() && bytes@ == enc_state(v) {
                    assert(centry_views(st.collections@) =~= st@.collections);
                    assert(st@ =~= v);
                }
            }
        }
        return None;
    }
    proof {
        assert(centry_views(st.collections@) =~= st@.collections);
        assert(bytes@.subrange(0, pos as int) =~= bytes@);
        assert(bytes@.subrange(0, pos as int) =~= enc_u128(st@.txid) + enc_list(
            st@.collections,
            enc_centry_fn(),
        ));
        assert(bytes@ == enc_state(st@));
        assert forall|v: StateV| v.wf() && bytes@ == enc_state(v) implies st@ == v by {
            assert(st@.txid == v.txid);
            assert(centry_views(st.collections@) == v.collections);
            assert(st@ =~= v);
        }
    }
    Some(st)
}

/// Round trip of the persistence cycle: encoding a well-formed registry and
/// decoding the blob back yields a registry whose collections, tokens,
/// permissions and transaction counter are the very same.
pub fn codec_round_trip(s: &State) -> (r: Option<State>)
    requires
        s.wf(),
    ensures
        r matches Some(t) && t@ == s@ && t.wf(),
{
    let bytes = encode_state(s);
    decode_state(bytes.as_slice())
}

} // verus!
