//! The binary layout of transcripts: fixed-width integers in little-endian
//! order, byte strings and lists prefixed by their length as a `u64`, and
//! enum variants by a `u32` tag followed by their fields.
//!
//! Every encoding is prefix-free, so a list of encoded values can be read
//! back one value after the other.

use vstd::prelude::*;
use vstd::bytes::{
    lemma_auto_spec_u128_to_from_le_bytes, lemma_auto_spec_u32_to_from_le_bytes,
    lemma_auto_spec_u64_to_from_le_bytes, spec_u128_from_le_bytes, spec_u128_to_le_bytes,
    spec_u32_from_le_bytes, spec_u32_to_le_bytes, spec_u64_from_le_bytes, spec_u64_to_le_bytes,
    u128_from_le_bytes, u128_to_le_bytes, u32_from_le_bytes, u32_to_le_bytes, u64_from_le_bytes,
    u64_to_le_bytes,
};
use vstd::slice::slice_subrange;
use vstd::utf8::{encode_utf8, encode_utf8_valid_utf8, valid_utf8};

use crate::bytes::{copy_bytes, extend_bytes};
use crate::field::{Field, FieldElement};

verus! {

/// `e` occurs in `s` starting at position `pos`.
pub open spec fn fits_at(e: Seq<u8>, s: Seq<u8>, pos: int) -> bool {
    0 <= pos && pos + e.len() <= s.len() && s.subrange(pos, pos + e.len()) == e
}

/// A value with a prefix-free binary encoding.
pub trait Encode: Sized {
    /// The bytes that encode this value.
    spec fn encoding(&self) -> Seq<u8>;

    /// Two encodings that start at the same position of a byte string
    /// are the same.
    proof fn lemma_prefix_free(a: Self, b: Self, s: Seq<u8>, pos: int)
        requires
            s.len() <= usize::MAX,
            fits_at(a.encoding(), s, pos),
            fits_at(b.encoding(), s, pos),
        ensures
            a.encoding() == b.encoding(),
    ;

    /// No encoding is empty.
    proof fn lemma_nonempty(a: Self)
        ensures
            a.encoding().len() > 0,
    ;

    /// Appends the encoding of `self` to `out`.
    fn encode(&self, out: &mut Vec<u8>)
        ensures
            final(out)@ == old(out)@ + self.encoding(),
    ;

    /// Reads one value starting at `pos`; returns it with the position
    /// just after it, or `None` when no encoding starts there.
    fn decode(bytes: &[u8], pos: usize) -> (r: Option<(Self, usize)>)
        requires
            pos <= bytes@.len(),
        ensures
            r matches Some((v, end)) ==> pos <= end <= bytes@.len() && bytes@.subrange(
                pos as int,
                end as int,
            ) == v.encoding(),
            r is None ==> forall|w: Self| !fits_at(#[trigger] w.encoding(), bytes@, pos as int),
    ;
}

/// Two fixed-width encodings found at the same position coincide.
pub proof fn lemma_same_width(a: Seq<u8>, b: Seq<u8>, s: Seq<u8>, pos: int)
    requires
        a.len() == b.len(),
        fits_at(a, s, pos),
        fits_at(b, s, pos),
    ensures
        a == b,
{
}

/// Reads eight bytes at `pos` as a little-endian `u64`.
fn read_u64(bytes: &[u8], pos: usize) -> (r: Option<u64>)
    requires
        pos <= bytes@.len(),
    ensures
        r matches Some(v) ==> pos + 8 <= bytes@.len() && bytes@.subrange(pos as int, pos + 8)
            == spec_u64_to_le_bytes(v),
        r is None ==> pos + 8 > bytes@.len(),
{
    if bytes.len() - pos < 8 {
        return None;
    }
    let v = u64_from_le_bytes(slice_subrange(bytes, pos, pos + 8));
    proof {
        lemma_auto_spec_u64_to_from_le_bytes();
        let s = bytes@.subrange(pos as int, pos + 8);
        assert(spec_u64_to_le_bytes(spec_u64_from_le_bytes(s)) == s);
    }
    Some(v)
}

/// Equal little-endian encodings come from equal numbers.
proof fn lemma_u64_le_injective(a: u64, b: u64)
    requires
        spec_u64_to_le_bytes(a) == spec_u64_to_le_bytes(b),
    ensures
        a == b,
{
    lemma_auto_spec_u64_to_from_le_bytes();
    assert(spec_u64_from_le_bytes(spec_u64_to_le_bytes(a)) == a);
    assert(spec_u64_from_le_bytes(spec_u64_to_le_bytes(b)) == b);
}

impl Encode for u64 {
    open spec fn encoding(&self) -> Seq<u8> {
        spec_u64_to_le_bytes(*self)
    }

    proof fn lemma_prefix_free(a: u64, b: u64, s: Seq<u8>, pos: int) {
        lemma_auto_spec_u64_to_from_le_bytes();
        lemma_same_width(a.encoding(), b.encoding(), s, pos);
    }

    proof fn lemma_nonempty(a: u64) {
        lemma_auto_spec_u64_to_from_le_bytes();
    }

    fn encode(&self, out: &mut Vec<u8>) {
        let b = u64_to_le_bytes(*self);
        extend_bytes(out, b.as_slice());
    }

    fn decode(bytes: &[u8], pos: usize) -> (r: Option<(u64, usize)>) {
        proof {
            lemma_auto_spec_u64_to_from_le_bytes();
        }
        let total = bytes.len();
        match read_u64(bytes, pos) {
            Some(v) => Some((v, pos + 8)),
            None => {
                proof {
                    assert forall|w: u64| !fits_at(#[trigger] w.encoding(), bytes@, pos as int) by {
                        assert(w.encoding().len() == 8);
                    }
                }
                None
            },
        }
    }
}

/// The concatenated encodings of a sequence of values.
pub open spec fn concat_encodings<T: Encode>(s: Seq<T>) -> Seq<u8>
    decreases s.len(),
{
    if s.len() == 0 {
        Seq::empty()
    } else {
        concat_encodings(s.drop_last()) + s.last().encoding()
    }
}

/// A list: its length as a `u64`, then its elements.
pub open spec fn list_encoding<T: Encode>(s: Seq<T>) -> Seq<u8> {
    spec_u64_to_le_bytes(s.len() as u64) + concat_encodings(s)
}

/// The encodings of a prefix followed by the encoding of the next element.
proof fn lemma_concat_take<T: Encode>(s: Seq<T>, k: int)
    requires
        0 <= k < s.len(),
    ensures
        concat_encodings(s.take(k + 1)) == concat_encodings(s.take(k)) + s[k].encoding(),
{
    assert(s.take(k + 1).drop_last() =~= s.take(k));
}

/// The encodings of a prefix are a prefix of the encodings of the whole.
proof fn lemma_concat_prefix<T: Encode>(s: Seq<T>, k: int)
    requires
        0 <= k <= s.len(),
    ensures
        concat_encodings(s.take(k)).len() <= concat_encodings(s).len(),
        concat_encodings(s) == concat_encodings(s.take(k)) + concat_encodings(s).subrange(
            concat_encodings(s.take(k)).len() as int,
            concat_encodings(s).len() as int,
        ),
        k < s.len() ==> concat_encodings(s.take(k)).len() + s[k].encoding().len() <= concat_encodings(
            s,
        ).len(),
        k < s.len() ==> concat_encodings(s).subrange(
            concat_encodings(s.take(k)).len() as int,
            (concat_encodings(s.take(k)).len() + s[k].encoding().len()) as int,
        ) == s[k].encoding(),
    decreases s.len() - k,
{
    if k == s.len() {
        assert(s.take(k) =~= s);
        assert(concat_encodings(s) =~= concat_encodings(s) + Seq::<u8>::empty());
    } else {
        lemma_concat_prefix(s, k + 1);
        lemma_concat_take(s, k);
        let a = concat_encodings(s.take(k));
        let e = s[k].encoding();
        let all = concat_encodings(s);
        let rest = all.subrange((a.len() + e.len()) as int, all.len() as int);
        assert(all == a + e + rest);
        assert(all =~= a + all.subrange(a.len() as int, all.len() as int));
        assert(all.subrange(a.len() as int, (a.len() + e.len()) as int) =~= e);
    }
}

/// Every element adds at least one byte.
proof fn lemma_concat_len<T: Encode>(s: Seq<T>)
    ensures
        concat_encodings(s).len() >= s.len(),
    decreases s.len(),
{
    if s.len() > 0 {
        lemma_concat_len(s.drop_last());
        T::lemma_nonempty(s.last());
    }
}

/// Two sequences with the same number of elements whose encodings both
/// start at the same position have the same encodings.
proof fn lemma_concat_prefix_free<T: Encode>(a: Seq<T>, b: Seq<T>, s: Seq<u8>, pos: int, k: nat)
    requires
        s.len() <= usize::MAX,
        a.len() == b.len(),
        k <= a.len(),
        fits_at(concat_encodings(a), s, pos),
        fits_at(concat_encodings(b), s, pos),
    ensures
        concat_encodings(a.take(k as int)) == concat_encodings(b.take(k as int)),
    decreases k,
{
    if k > 0 {
        let j = (k - 1) as int;
        lemma_concat_prefix_free(a, b, s, pos, (k - 1) as nat);
        lemma_concat_prefix(a, j);
        lemma_concat_prefix(b, j);
        lemma_concat_take(a, j);
        lemma_concat_take(b, j);
        let start = pos + concat_encodings(a.take(j)).len();
        let ca = concat_encodings(a);
        let cb = concat_encodings(b);
        let off = concat_encodings(a.take(j)).len() as int;
        assert(s.subrange(start, start + a[j].encoding().len()) =~= ca.subrange(off, off + a[j].encoding().len()));
        assert(s.subrange(start, start + b[j].encoding().len()) =~= cb.subrange(off, off + b[j].encoding().len()));
        T::lemma_prefix_free(a[j], b[j], s, start);
    }
}

/// Lists whose encodings start at the same position coincide.
pub proof fn lemma_list_prefix_free<T: Encode>(a: Seq<T>, b: Seq<T>, s: Seq<u8>, pos: int)
    requires
        s.len() <= usize::MAX,
        fits_at(list_encoding(a), s, pos),
        fits_at(list_encoding(b), s, pos),
    ensures
        list_encoding(a) == list_encoding(b),
{
    lemma_auto_spec_u64_to_from_le_bytes();
    let la = spec_u64_to_le_bytes(a.len() as u64);
    let lb = spec_u64_to_le_bytes(b.len() as u64);
    assert(s.subrange(pos, pos + 8) =~= list_encoding(a).subrange(0, 8));
    assert(s.subrange(pos, pos + 8) =~= list_encoding(b).subrange(0, 8));
    assert(list_encoding(a).subrange(0, 8) =~= la);
    assert(list_encoding(b).subrange(0, 8) =~= lb);
    lemma_u64_le_injective(a.len() as u64, b.len() as u64);
    lemma_concat_len(a);
    lemma_concat_len(b);
    let ca = concat_encodings(a);
    let cb = concat_encodings(b);
    let ea = list_encoding(a);
    let eb = list_encoding(b);
    assert(s.subrange(pos + 8, pos + 8 + ca.len()) =~= ea.subrange(8, ea.len() as int));
    assert(ea.subrange(8, ea.len() as int) =~= ca);
    assert(s.subrange(pos + 8, pos + 8 + cb.len()) =~= eb.subrange(8, eb.len() as int));
    assert(eb.subrange(8, eb.len() as int) =~= cb);
    lemma_concat_prefix_free(a, b, s, pos + 8, a.len());
    assert(a.take(a.len() as int) =~= a);
    assert(b.take(b.len() as int) =~= b);
}

/// A list read back from where another list's encoding was written has
/// as many elements, each with the same encoding as the written one, and
/// each of its prefixes encodes as the written list's prefix of the same
/// length.
pub proof fn lemma_decoded_list_agrees<T: Encode>(written: Seq<T>, decoded: Seq<T>, k: int)
    requires
        list_encoding(written).len() <= usize::MAX,
        fits_at(list_encoding(decoded), list_encoding(written), 0),
        0 <= k <= written.len(),
    ensures
        decoded.len() == written.len(),
        forall|i: int| 0 <= i < written.len() ==> (#[trigger] decoded[i]).encoding() == written[i].encoding(),
        list_encoding(decoded.take(k)) == list_encoding(written.take(k)),
{
    let s = list_encoding(written);
    assert(fits_at(s, s, 0)) by {
        assert(s.subrange(0, s.len() as int) =~= s);
    }
    lemma_list_prefix_free(decoded, written, s, 0);
    lemma_auto_spec_u64_to_from_le_bytes();
    lemma_concat_len(decoded);
    lemma_concat_len(written);
    let ed = list_encoding(decoded);
    assert(ed.subrange(0, 8) =~= spec_u64_to_le_bytes(decoded.len() as u64));
    assert(s.subrange(0, 8) =~= spec_u64_to_le_bytes(written.len() as u64));
    lemma_u64_le_injective(decoded.len() as u64, written.len() as u64);
    let cd = concat_encodings(decoded);
    let cw = concat_encodings(written);
    assert(fits_at(cd, s, 8)) by {
        assert(s.subrange(8, 8 + cd.len() as int) =~= ed.subrange(8, ed.len() as int));
        assert(ed.subrange(8, ed.len() as int) =~= cd);
    }
    assert(fits_at(cw, s, 8)) by {
        assert(s.subrange(8, 8 + cw.len() as int) =~= cw);
    }
    assert forall|i: int| 0 <= i < written.len() implies (#[trigger] decoded[i]).encoding() == written[i].encoding() by {
        lemma_concat_prefix_free(decoded, written, s, 8, i as nat);
        lemma_concat_prefix_free(decoded, written, s, 8, (i + 1) as nat);
        lemma_concat_take(decoded, i);
        lemma_concat_take(written, i);
        let x = concat_encodings(decoded.take(i));
        let a = concat_encodings(decoded.take(i + 1));
        assert(a.subrange(x.len() as int, a.len() as int) =~= decoded[i].encoding());
        assert(a.subrange(x.len() as int, a.len() as int) =~= written[i].encoding());
    }
    lemma_concat_prefix_free(decoded, written, s, 8, k as nat);
    assert(decoded.take(k).len() == written.take(k).len());
}

/// Appends the list encoding of `items`.
pub fn encode_list<T: Encode>(items: &[T], out: &mut Vec<u8>)
    ensures
        final(out)@ == old(out)@ + list_encoding(items@),
{
    let ghost start = out@;
    let n = items.len() as u64;
    n.encode(out);
    let mut i: usize = 0;
    proof {
        assert(items@.take(0) =~= Seq::<T>::empty());
    }
    while i < items.len()
        invariant
            i <= items@.len(),
            n == items@.len() as u64,
            out@ == start + spec_u64_to_le_bytes(n) + concat_encodings(items@.take(i as int)),
        decreases items@.len() - i,
    {
        items[i].encode(out);
        proof {
            lemma_concat_take(items@, i as int);
        }
        i = i + 1;
    }
    proof {
        assert(items@.take(items@.len() as int) =~= items@);
    }
}

/// Reads a list of values starting at `pos`; returns the values with the
/// position just after them, or `None` when no list encoding starts there.
pub fn decode_list<T: Encode>(bytes: &[u8], pos: usize) -> (r: Option<(Vec<T>, usize)>)
    requires
        pos <= bytes@.len(),
    ensures
        r matches Some((v, end)) ==> pos <= end <= bytes@.len() && bytes@.subrange(pos as int, end as int)
            == list_encoding(v@),
        r is None ==> forall|w: Seq<T>| !fits_at(#[trigger] list_encoding(w), bytes@, pos as int),
{
    proof {
        lemma_auto_spec_u64_to_from_le_bytes();
    }
    let total = bytes.len();
    let n = match read_u64(bytes, pos) {
        Some(n) => n,
        None => {
            proof {
                assert forall|w: Seq<T>| !fits_at(#[trigger] list_encoding(w), bytes@, pos as int) by {
                    assert(list_encoding(w).len() >= 8);
                }
            }
            return None;
        },
    };
    let start = pos + 8;
    let ghost s = bytes@;
    // every candidate list has exactly `n` elements, each at least one byte long
    proof {
        assert forall|w: Seq<T>| fits_at(#[trigger] list_encoding(w), s, pos as int) implies w.len() == n
            && start + concat_encodings(w).len() <= s.len() && s.subrange(
            start as int,
            start + concat_encodings(w).len(),
        ) == concat_encodings(w) by {
            let le = list_encoding(w);
            assert(s.subrange(pos as int, pos + 8) =~= le.subrange(0, 8));
            assert(le.subrange(0, 8) =~= spec_u64_to_le_bytes(w.len() as u64));
            lemma_u64_le_injective(n, w.len() as u64);
            assert(s.subrange(start as int, start + concat_encodings(w).len()) =~= le.subrange(
                8,
                le.len() as int,
            ));
            lemma_concat_len(w);
        }
    }
    if n > (bytes.len() - start) as u64 {
        proof {
            assert forall|w: Seq<T>| !fits_at(#[trigger] list_encoding(w), s, pos as int) by {
                if fits_at(list_encoding(w), s, pos as int) {
                    lemma_concat_len(w);
                }
            }
        }
        return None;
    }
    let mut items: Vec<T> = Vec::new();
    let mut cur = start;
    let mut k: u64 = 0;
    proof {
        assert(items@ =~= Seq::<T>::empty());
    }
    while k < n
        invariant
            s == bytes@,
            s.len() <= usize::MAX,
            pos <= start,
            start == pos + 8,
            start <= cur <= s.len(),
            k <= n,
            items@.len() == k,
            s.subrange(pos as int, start as int) == spec_u64_to_le_bytes(n),
            cur == start + concat_encodings(items@).len(),
            s.subrange(start as int, cur as int) == concat_encodings(items@),
            forall|w: Seq<T>| fits_at(#[trigger] list_encoding(w), s, pos as int) ==> w.len() == n && start
                + concat_encodings(w).len() <= s.len() && s.subrange(start as int, start + concat_encodings(w).len())
                == concat_encodings(w),
            forall|w: Seq<T>| fits_at(#[trigger] list_encoding(w), s, pos as int) ==> concat_encodings(
                w.take(k as int),
            ) == concat_encodings(items@),
        decreases n - k,
    {
        match T::decode(bytes, cur) {
            Some((v, end)) => {
                let ghost before = items@;
                items.push(v);
                proof {
                    assert(items@.drop_last() =~= before);
                    assert(s.subrange(start as int, end as int) =~= s.subrange(start as int, cur as int)
                        + s.subrange(cur as int, end as int));
                    assert forall|w: Seq<T>| fits_at(#[trigger] list_encoding(w), s, pos as int) implies concat_encodings(
                        w.take(k + 1),
                    ) == concat_encodings(items@) by {
                        let cw = concat_encodings(w);
                        lemma_concat_prefix(w, k as int);
                        lemma_concat_take(w, k as int);
                        let off = concat_encodings(w.take(k as int)).len() as int;
                        let ek = w[k as int].encoding();
                        assert(s.subrange(cur as int, cur + ek.len()) =~= cw.subrange(off, off + ek.len()));
                        T::lemma_prefix_free(w[k as int], v, s, cur as int);
                    }
                }
                cur = end;
            },
            None => {
                proof {
                    assert forall|w: Seq<T>| !fits_at(#[trigger] list_encoding(w), s, pos as int) by {
                        if fits_at(list_encoding(w), s, pos as int) {
                            let cw = concat_encodings(w);
                            lemma_concat_prefix(w, k as int);
                            let off = concat_encodings(w.take(k as int)).len() as int;
                            let ek = w[k as int].encoding();
                            assert(s.subrange(cur as int, cur + ek.len()) =~= cw.subrange(off, off + ek.len()));
                            assert(fits_at(ek, s, cur as int));
                        }
                    }
                }
                return None;
            },
        }
        k = k + 1;
    }
    proof {
        let v = items@;
        assert(v.len() as u64 == n);
        assert(s.subrange(pos as int, cur as int) =~= s.subrange(pos as int, start as int) + s.subrange(
            start as int,
            cur as int,
        ));
    }
    Some((items, cur))
}

/// Reads four bytes at `pos` as a little-endian `u32`.
pub fn read_u32(bytes: &[u8], pos: usize) -> (r: Option<u32>)
    requires
        pos <= bytes@.len(),
    ensures
        r matches Some(v) ==> pos + 4 <= bytes@.len() && bytes@.subrange(pos as int, pos + 4)
            == spec_u32_to_le_bytes(v),
        r is None ==> pos + 4 > bytes@.len(),
{
    if bytes.len() - pos < 4 {
        return None;
    }
    let v = u32_from_le_bytes(slice_subrange(bytes, pos, pos + 4));
    proof {
        lemma_auto_spec_u32_to_from_le_bytes();
        let s = bytes@.subrange(pos as int, pos + 4);
        assert(spec_u32_to_le_bytes(spec_u32_from_le_bytes(s)) == s);
    }
    Some(v)
}

/// Appends a variant tag.
pub fn encode_tag(tag: u32, out: &mut Vec<u8>)
    ensures
        final(out)@ == old(out)@ + spec_u32_to_le_bytes(tag),
{
    let b = u32_to_le_bytes(tag);
    extend_bytes(out, b.as_slice());
}

/// A tag found where another tag's encoding fits is that tag.
pub proof fn lemma_tag_at(t: u32, u: u32, rest: Seq<u8>, s: Seq<u8>, pos: int)
    requires
        0 <= pos,
        pos + 4 <= s.len(),
        s.subrange(pos, pos + 4) == spec_u32_to_le_bytes(t),
        fits_at(spec_u32_to_le_bytes(u) + rest, s, pos),
    ensures
        t == u,
        fits_at(rest, s, pos + 4),
{
    lemma_auto_spec_u32_to_from_le_bytes();
    let e = spec_u32_to_le_bytes(u) + rest;
    assert(s.subrange(pos, pos + 4) =~= e.subrange(0, 4));
    assert(e.subrange(0, 4) =~= spec_u32_to_le_bytes(u));
    assert(spec_u32_from_le_bytes(spec_u32_to_le_bytes(t)) == t);
    assert(spec_u32_from_le_bytes(spec_u32_to_le_bytes(u)) == u);
    assert(s.subrange(pos + 4, pos + 4 + rest.len()) =~= e.subrange(4, e.len() as int));
    assert(e.subrange(4, e.len() as int) =~= rest);
}

/// Two tagged encodings at the same position with the same tag have
/// bodies at the same position.
pub proof fn lemma_tagged_body(t: u32, a: Seq<u8>, b: Seq<u8>, s: Seq<u8>, pos: int)
    requires
        fits_at(spec_u32_to_le_bytes(t) + a, s, pos),
        fits_at(spec_u32_to_le_bytes(t) + b, s, pos),
    ensures
        fits_at(a, s, pos + 4),
        fits_at(b, s, pos + 4),
{
    lemma_auto_spec_u32_to_from_le_bytes();
    let ea = spec_u32_to_le_bytes(t) + a;
    let eb = spec_u32_to_le_bytes(t) + b;
    assert(s.subrange(pos + 4, pos + 4 + a.len()) =~= ea.subrange(4, ea.len() as int));
    assert(ea.subrange(4, ea.len() as int) =~= a);
    assert(s.subrange(pos + 4, pos + 4 + b.len()) =~= eb.subrange(4, eb.len() as int));
    assert(eb.subrange(4, eb.len() as int) =~= b);
}

/// Two tagged encodings at the same position carry the same tag.
pub proof fn lemma_tags_agree(t: u32, u: u32, a: Seq<u8>, b: Seq<u8>, s: Seq<u8>, pos: int)
    requires
        fits_at(spec_u32_to_le_bytes(t) + a, s, pos),
        fits_at(spec_u32_to_le_bytes(u) + b, s, pos),
    ensures
        t == u,
{
    lemma_auto_spec_u32_to_from_le_bytes();
    let ea = spec_u32_to_le_bytes(t) + a;
    let eb = spec_u32_to_le_bytes(u) + b;
    assert(s.subrange(pos, pos + 4) =~= ea.subrange(0, 4));
    assert(s.subrange(pos, pos + 4) =~= eb.subrange(0, 4));
    assert(ea.subrange(0, 4) =~= spec_u32_to_le_bytes(t));
    assert(eb.subrange(0, 4) =~= spec_u32_to_le_bytes(u));
    assert(spec_u32_from_le_bytes(spec_u32_to_le_bytes(t)) == t);
    assert(spec_u32_from_le_bytes(spec_u32_to_le_bytes(u)) == u);
}

/// A byte string: its length as a `u64`, then its bytes.
pub open spec fn blob_encoding(b: Seq<u8>) -> Seq<u8> {
    spec_u64_to_le_bytes(b.len() as u64) + b
}

/// Byte strings whose encodings start at the same position coincide.
pub proof fn lemma_blob_prefix_free(a: Seq<u8>, b: Seq<u8>, s: Seq<u8>, pos: int)
    requires
        s.len() <= usize::MAX,
        fits_at(blob_encoding(a), s, pos),
        fits_at(blob_encoding(b), s, pos),
    ensures
        blob_encoding(a) == blob_encoding(b),
{
    lemma_auto_spec_u64_to_from_le_bytes();
    let ea = blob_encoding(a);
    let eb = blob_encoding(b);
    assert(s.subrange(pos, pos + 8) =~= ea.subrange(0, 8));
    assert(s.subrange(pos, pos + 8) =~= eb.subrange(0, 8));
    assert(ea.subrange(0, 8) =~= spec_u64_to_le_bytes(a.len() as u64));
    assert(eb.subrange(0, 8) =~= spec_u64_to_le_bytes(b.len() as u64));
    lemma_u64_le_injective(a.len() as u64, b.len() as u64);
}

/// Reads a byte string of `n` bytes announced at `pos` (the length field
/// already read): the bytes themselves, when they are all present.
fn read_blob(bytes: &[u8], pos: usize, n: u64) -> (r: Option<Vec<u8>>)
    requires
        pos + 8 <= bytes@.len(),
        bytes@.subrange(pos as int, pos + 8) == spec_u64_to_le_bytes(n),
    ensures
        r matches Some(v) ==> pos + 8 + v@.len() <= bytes@.len() && bytes@.subrange(
            pos as int,
            pos + 8 + v@.len(),
        ) == blob_encoding(v@),
        r is None ==> forall|w: Seq<u8>| !fits_at(#[trigger] blob_encoding(w), bytes@, pos as int),
{
    proof {
        lemma_auto_spec_u64_to_from_le_bytes();
    }
    let total = bytes.len();
    let start = pos + 8;
    if n > (total - start) as u64 {
        proof {
            assert forall|w: Seq<u8>| !fits_at(#[trigger] blob_encoding(w), bytes@, pos as int) by {
                if fits_at(blob_encoding(w), bytes@, pos as int) {
                    let e = blob_encoding(w);
                    assert(bytes@.subrange(pos as int, pos + 8) =~= e.subrange(0, 8));
                    assert(e.subrange(0, 8) =~= spec_u64_to_le_bytes(w.len() as u64));
                    lemma_u64_le_injective(n, w.len() as u64);
                }
            }
        }
        return None;
    }
    let end = start + n as usize;
    let v = copy_bytes(slice_subrange(bytes, start, end));
    proof {
        assert(bytes@.subrange(pos as int, end as int) =~= bytes@.subrange(pos as int, start as int)
            + bytes@.subrange(start as int, end as int));
    }
    Some(v)
}

impl Encode for Vec<u8> {
    open spec fn encoding(&self) -> Seq<u8> {
        blob_encoding(self@)
    }

    proof fn lemma_prefix_free(a: Vec<u8>, b: Vec<u8>, s: Seq<u8>, pos: int) {
        lemma_blob_prefix_free(a@, b@, s, pos);
    }

    proof fn lemma_nonempty(a: Vec<u8>) {
        lemma_auto_spec_u64_to_from_le_bytes();
    }

    fn encode(&self, out: &mut Vec<u8>) {
        let n = self.len() as u64;
        n.encode(out);
        extend_bytes(out, self.as_slice());
        proof {
            assert(out@ =~= old(out)@ + blob_encoding(self@));
        }
    }

    fn decode(bytes: &[u8], pos: usize) -> (r: Option<(Vec<u8>, usize)>) {
        proof {
            lemma_auto_spec_u64_to_from_le_bytes();
        }
        let total = bytes.len();
        let n = match read_u64(bytes, pos) {
            Some(n) => n,
            None => {
                proof {
                    assert forall|w: Vec<u8>| !fits_at(#[trigger] w.encoding(), bytes@, pos as int) by {
                        assert(w.encoding().len() >= 8);
                    }
                }
                return None;
            },
        };
        match read_blob(bytes, pos, n) {
            Some(v) => {
                let end = pos + 8 + v.len();
                Some((v, end))
            },
            None => {
                proof {
                    assert forall|w: Vec<u8>| !fits_at(#[trigger] w.encoding(), bytes@, pos as int) by {
                        assert(w.encoding() == blob_encoding(w@));
                    }
                }
                None
            },
        }
    }
}

/// Wraps `String::from_utf8`, which accepts the bytes exactly when they are
/// valid UTF-8 and then keeps them as the string's contents.
#[verifier::external_body]
pub(crate) fn string_from_utf8(bytes: Vec<u8>) -> (r: Option<String>)
    ensures
        r is Some <==> valid_utf8(bytes@),
        r matches Some(s) ==> encode_utf8(s@) == bytes@,
{
    match String::from_utf8(bytes) {
        Ok(s) => Some(s),
        Err(_) => None,
    }
}

impl Encode for String {
    open spec fn encoding(&self) -> Seq<u8> {
        blob_encoding(encode_utf8(self@))
    }

    proof fn lemma_prefix_free(a: String, b: String, s: Seq<u8>, pos: int) {
        lemma_blob_prefix_free(encode_utf8(a@), encode_utf8(b@), s, pos);
    }

    proof fn lemma_nonempty(a: String) {
        lemma_auto_spec_u64_to_from_le_bytes();
    }

    fn encode(&self, out: &mut Vec<u8>) {
        let b = self.as_str().as_bytes();
        let n = b.len() as u64;
        n.encode(out);
        extend_bytes(out, b);
        proof {
            assert(out@ =~= old(out)@ + blob_encoding(encode_utf8(self@)));
        }
    }

    fn decode(bytes: &[u8], pos: usize) -> (r: Option<(String, usize)>) {
        proof {
            lemma_auto_spec_u64_to_from_le_bytes();
        }
        let total = bytes.len();
        let n = match read_u64(bytes, pos) {
            Some(n) => n,
            None => {
                proof {
                    assert forall|w: String| !fits_at(#[trigger] w.encoding(), bytes@, pos as int) by {
                        assert(w.encoding().len() >= 8);
                    }
                }
                return None;
            },
        };
        match read_blob(bytes, pos, n) {
            Some(v) => {
                let len = v.len();
                let ghost raw = v@;
                match string_from_utf8(v) {
                    Some(text) => Some((text, pos + 8 + len)),
                    None => {
                        proof {
                            assert forall|w: String| !fits_at(#[trigger] w.encoding(), bytes@, pos as int) by {
                                if fits_at(w.encoding(), bytes@, pos as int) {
                                    lemma_blob_prefix_free(encode_utf8(w@), raw, bytes@, pos as int);
                                    assert(blob_encoding(encode_utf8(w@)).subrange(8, (8 + raw.len()) as int) =~= encode_utf8(w@));
                                    assert(blob_encoding(raw).subrange(8, (8 + raw.len()) as int) =~= raw);
                                    encode_utf8_valid_utf8(w@);
                                }
                            }
                        }
                        None
                    },
                }
            },
            None => None,
        }
    }
}

/// A field element: its residue, then its modulus, both as `u128`.
pub open spec fn element_encoding(e: FieldElement) -> Seq<u8> {
    spec_u128_to_le_bytes(e.value) + spec_u128_to_le_bytes(e.field.p)
}

impl Encode for FieldElement {
    open spec fn encoding(&self) -> Seq<u8> {
        element_encoding(*self)
    }

    proof fn lemma_prefix_free(a: FieldElement, b: FieldElement, s: Seq<u8>, pos: int) {
        lemma_auto_spec_u128_to_from_le_bytes();
        lemma_same_width(a.encoding(), b.encoding(), s, pos);
    }

    proof fn lemma_nonempty(a: FieldElement) {
        lemma_auto_spec_u128_to_from_le_bytes();
    }

    fn encode(&self, out: &mut Vec<u8>) {
        let v = u128_to_le_bytes(self.value);
        let p = u128_to_le_bytes(self.field.p);
        extend_bytes(out, v.as_slice());
        extend_bytes(out, p.as_slice());
        proof {
            assert(out@ =~= old(out)@ + element_encoding(*self));
        }
    }

    fn decode(bytes: &[u8], pos: usize) -> (r: Option<(FieldElement, usize)>)
        ensures
            r is Some <==> pos + 32 <= bytes@.len(),
            r matches Some((v, end)) ==> end == pos + 32,
    {
        proof {
            lemma_auto_spec_u128_to_from_le_bytes();
        }
        let total = bytes.len();
        if total - pos < 32 {
            proof {
                assert forall|w: FieldElement| !fits_at(#[trigger] w.encoding(), bytes@, pos as int) by {
                    assert(w.encoding().len() == 32);
                }
            }
            return None;
        }
        let value = u128_from_le_bytes(slice_subrange(bytes, pos, pos + 16));
        let p = u128_from_le_bytes(slice_subrange(bytes, pos + 16, pos + 32));
        let e = FieldElement { value, field: Field::new(p) };
        proof {
            let s1 = bytes@.subrange(pos as int, pos + 16);
            let s2 = bytes@.subrange(pos + 16, pos + 32);
            assert(spec_u128_to_le_bytes(spec_u128_from_le_bytes(s1)) == s1);
            assert(spec_u128_to_le_bytes(spec_u128_from_le_bytes(s2)) == s2);
            assert(bytes@.subrange(pos as int, pos + 32) =~= s1 + s2);
        }
        Some((e, pos + 32))
    }
}

} // verus!
