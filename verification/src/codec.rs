//! A byte encoding of an item list, for a host that persists values as
//! raw bytes: an eight-byte little-endian item count, then for each item
//! an eight-byte little-endian text byte length, the text's UTF-8 bytes,
//! and one flag byte.

use crate::items::item_views;
use vstd::bytes::{
    lemma_auto_spec_u64_to_from_le_bytes, spec_u64_from_le_bytes, spec_u64_to_le_bytes,
    u64_from_le_bytes, u64_to_le_bytes,
};
use vstd::prelude::*;
use vstd::slice::{slice_subrange, slice_to_vec};
use vstd::string::StrSliceExecFns;
use vstd::utf8::{encode_utf8, encode_utf8_decode_utf8, encode_utf8_valid_utf8, valid_utf8};

verus! {

/// The byte stored for a completion flag.
pub open spec fn flag_byte(f: bool) -> u8 {
    if f {
        1u8
    } else {
        0u8
    }
}

/// One encoded item: the byte length of the text's UTF-8 form, little
/// endian in eight bytes, then those bytes, then the flag byte.
pub open spec fn encoded_item(it: (Seq<char>, bool)) -> Seq<u8> {
    spec_u64_to_le_bytes(encode_utf8(it.0).len() as u64) + encode_utf8(it.0) + seq![
        flag_byte(it.1),
    ]
}

/// The items of a list, encoded one after another.
pub open spec fn encoded_tail(l: Seq<(Seq<char>, bool)>) -> Seq<u8>
    decreases l.len(),
{
    if l.len() == 0 {
        Seq::empty()
    } else {
        encoded_item(l.first()) + encoded_tail(l.drop_first())
    }
}

/// A whole encoded list: the item count, little endian in eight bytes,
/// then the encoded items.
pub open spec fn encoded_list(l: Seq<(Seq<char>, bool)>) -> Seq<u8> {
    spec_u64_to_le_bytes(l.len() as u64) + encoded_tail(l)
}

/// Whether an item's text length fits the eight-byte length field.
pub open spec fn fits_item(it: (Seq<char>, bool)) -> bool {
    encode_utf8(it.0).len() <= u64::MAX
}

/// Whether a list and each of its items fit the encoding's length fields.
pub open spec fn fits_list(l: Seq<(Seq<char>, bool)>) -> bool {
    l.len() <= u64::MAX && (forall|i: int| 0 <= i < l.len() ==> fits_item(l[i]))
}

proof fn lemma_encoded_tail_concat(a: Seq<(Seq<char>, bool)>, b: Seq<(Seq<char>, bool)>)
    ensures
        encoded_tail(a + b) == encoded_tail(a) + encoded_tail(b),
    decreases a.len(),
{
    if a.len() == 0 {
        assert(a + b =~= b);
        assert(encoded_tail(a) + encoded_tail(b) =~= encoded_tail(b));
    } else {
        assert((a + b).len() > 0);
        assert((a + b).first() == a.first());
        assert((a + b).drop_first() =~= a.drop_first() + b);
        lemma_encoded_tail_concat(a.drop_first(), b);
        assert(encoded_item(a.first()) + (encoded_tail(a.drop_first()) + encoded_tail(b)) =~= (
        encoded_item(a.first()) + encoded_tail(a.drop_first())) + encoded_tail(b));
    }
}

proof fn lemma_encoded_tail_snoc(l: Seq<(Seq<char>, bool)>, it: (Seq<char>, bool))
    ensures
        encoded_tail(l.push(it)) == encoded_tail(l) + encoded_item(it),
{
    let single = seq![it];
    assert(single.len() == 1);
    assert(single.first() == it);
    assert(single.drop_first() =~= Seq::<(Seq<char>, bool)>::empty());
    assert(encoded_tail(Seq::<(Seq<char>, bool)>::empty()) == Seq::<u8>::empty());
    assert(encoded_item(it) + Seq::<u8>::empty() =~= encoded_item(it));
    assert(encoded_tail(single) == encoded_item(it));
    assert(l.push(it) =~= l + single);
    lemma_encoded_tail_concat(l, single);
}

/// Encode a list of items into bytes. The result is exactly the
/// mathematical encoding of the list's views.
pub fn encode_items(items: &Vec<(String, bool)>) -> (r: Vec<u8>)
    ensures
        fits_list(item_views(items@)),
        r@ == encoded_list(item_views(items@)),
{
    let ghost l = item_views(items@);
    let n = items.len();
    let mut out: Vec<u8> = Vec::new();
    let mut count_bytes = u64_to_le_bytes(n as u64);
    out.append(&mut count_bytes);
    let mut i: usize = 0;
    while i < n
        invariant
            i <= n,
            n == items@.len(),
            l == item_views(items@),
            forall|j: int| 0 <= j < i ==> fits_item(l[j]),
            out@ == spec_u64_to_le_bytes(n as u64) + encoded_tail(l.take(i as int)),
        decreases n - i,
    {
        let ghost out0 = out@;
        let mut text_bytes = items[i].0.as_str().as_bytes_vec();
        let ghost tb = text_bytes@;
        let tlen = text_bytes.len();
        let mut len_bytes = u64_to_le_bytes(tlen as u64);
        out.append(&mut len_bytes);
        out.append(&mut text_bytes);
        let flag = if items[i].1 {
            1u8
        } else {
            0u8
        };
        out.push(flag);
        proof {
            assert(l[i as int] == (items@[i as int].0@, items@[i as int].1));
            assert(tb == encode_utf8(l[i as int].0));
            assert(fits_item(l[i as int]));
            assert((tlen as u64) as nat == encode_utf8(l[i as int].0).len());
            assert(out@ =~= out0 + encoded_item(l[i as int]));
            lemma_encoded_tail_snoc(l.take(i as int), l[i as int]);
            assert(l.take(i + 1) =~= l.take(i as int).push(l[i as int]));
            assert(out@ =~= spec_u64_to_le_bytes(n as u64) + encoded_tail(l.take(i + 1)));
        }
        i += 1;
    }
    proof {
        assert(l.take(n as int) =~= l);
    }
    out
}

/// Relies on `String::from_utf8`: it returns `Ok` exactly when the bytes
/// are valid UTF-8, and the returned string then holds exactly those
/// bytes as its UTF-8 form.
#[verifier::external_body]
fn string_from_utf8(bytes: Vec<u8>) -> (r: Option<String>)
    ensures
        r matches Some(s) ==> bytes@ == encode_utf8(s@),
        valid_utf8(bytes@) ==> r is Some,
{
    String::from_utf8(bytes).ok()
}

proof fn lemma_count_field(bytes: Seq<u8>, l: Seq<(Seq<char>, bool)>)
    requires
        fits_list(l),
        bytes == encoded_list(l),
    ensures
        bytes.len() >= 8,
        spec_u64_from_le_bytes(bytes.subrange(0, 8)) == l.len() as u64,
        bytes.subrange(8, bytes.len() as int) == encoded_tail(l),
{
    lemma_auto_spec_u64_to_from_le_bytes();
    assert(spec_u64_to_le_bytes(l.len() as u64).len() == 8);
    assert(bytes.subrange(0, 8) =~= spec_u64_to_le_bytes(l.len() as u64));
    assert(bytes.subrange(8, bytes.len() as int) =~= encoded_tail(l));
}

proof fn lemma_step(
    bytes: Seq<u8>,
    l: Seq<(Seq<char>, bool)>,
    k: int,
    pos: int,
    n64: u64,
    parsed: Seq<(Seq<char>, bool)>,
)
    requires
        fits_list(l),
        bytes == encoded_list(l),
        0 <= k <= l.len(),
        8 <= pos <= bytes.len(),
        parsed == l.take(k),
        bytes.subrange(0, pos) == spec_u64_to_le_bytes(n64) + encoded_tail(parsed),
        k < n64,
        n64 == spec_u64_from_le_bytes(bytes.subrange(0, 8)),
    ensures
        n64 == l.len() as u64,
        k < l.len(),
        pos + 8 + encode_utf8(l[k].0).len() + 1 <= bytes.len(),
        bytes.subrange(pos, pos + 8) == spec_u64_to_le_bytes(encode_utf8(l[k].0).len() as u64),
        bytes.subrange(pos + 8, pos + 8 + encode_utf8(l[k].0).len()) == encode_utf8(l[k].0),
        bytes[pos + 8 + encode_utf8(l[k].0).len()] == flag_byte(l[k].1),
{
    lemma_auto_spec_u64_to_from_le_bytes();
    lemma_count_field(bytes, l);
    assert(n64 == l.len() as u64);
    assert(k < l.len());
    assert(l =~= l.take(k) + l.skip(k));
    lemma_encoded_tail_concat(l.take(k), l.skip(k));
    let lk = l[k];
    let rest = l.skip(k);
    assert(rest.len() > 0);
    assert(rest.first() == lk);
    assert(rest.drop_first() =~= l.skip(k + 1));
    let ei = encoded_item(lk);
    let txt = encode_utf8(lk.0);
    assert(fits_item(lk));
    assert(spec_u64_to_le_bytes(txt.len() as u64).len() == 8);
    assert(ei.len() == 8 + txt.len() + 1);
    assert(encoded_tail(rest) == ei + encoded_tail(l.skip(k + 1)));
    assert(bytes =~= bytes.subrange(0, pos) + ei + encoded_tail(l.skip(k + 1)));
    assert(pos + ei.len() <= bytes.len());
    assert(bytes.subrange(pos, pos + 8) =~= spec_u64_to_le_bytes(txt.len() as u64));
    assert(bytes.subrange(pos + 8, pos + 8 + txt.len()) =~= txt);
    assert(bytes[pos + 8 + txt.len()] == flag_byte(lk.1));
}

/// Decode bytes into a list of items. The result is `Some` exactly on the
/// byte strings that encode some list, and then holds that list.
pub fn decode_items(bytes: &Vec<u8>) -> (r: Option<Vec<(String, bool)>>)
    ensures
        r matches Some(v) ==> fits_list(item_views(v@)) && bytes@ == encoded_list(item_views(v@)),
        forall|l: Seq<(Seq<char>, bool)>| fits_list(l) && bytes@ == encoded_list(l) ==> r is Some,
{
    if bytes.len() < 8 {
        proof {
            assert forall|l: Seq<(Seq<char>, bool)>|
                !(fits_list(l) && bytes@ == encoded_list(l)) by {
                if fits_list(l) && bytes@ == encoded_list(l) {
                    lemma_count_field(bytes@, l);
                }
            }
        }
        return None;
    }
    let count_slice = slice_subrange(bytes.as_slice(), 0, 8);
    let n64 = u64_from_le_bytes(count_slice);
    let mut items: Vec<(String, bool)> = Vec::new();
    let mut pos: usize = 8;
    let mut k: u64 = 0;
    proof {
        assert(item_views(items@) =~= Seq::<(Seq<char>, bool)>::empty());
        assert(encoded_tail(item_views(items@)) =~= Seq::<u8>::empty());
        lemma_auto_spec_u64_to_from_le_bytes();
        assert(bytes@.subrange(0, 8) =~= spec_u64_to_le_bytes(n64));
        assert(bytes@.subrange(0, 8) =~= spec_u64_to_le_bytes(n64) + encoded_tail(
            item_views(items@),
        ));
        assert forall|l: Seq<(Seq<char>, bool)>|
            fits_list(l) && bytes@ == encoded_list(l) implies 0 <= l.len()
            && item_views(items@) == l.take(0) by {
            assert(item_views(items@) =~= l.take(0));
        }
    }
    while k < n64
        invariant
            8 <= pos <= bytes@.len(),
            k <= n64,
            k as int == items@.len(),
            n64 == spec_u64_from_le_bytes(bytes@.subrange(0, 8)),
            fits_list(item_views(items@)),
            bytes@.subrange(0, pos as int) == spec_u64_to_le_bytes(n64) + encoded_tail(
                item_views(items@),
            ),
            forall|l: Seq<(Seq<char>, bool)>|
                fits_list(l) && bytes@ == encoded_list(l) ==> k as int <= l.len() && item_views(
                    items@,
                ) == l.take(k as int),
        decreases n64 - k,
    {
        let ghost parsed = item_views(items@);
        if bytes.len() - pos < 8 {
            proof {
                assert forall|l: Seq<(Seq<char>, bool)>|
                    !(fits_list(l) && bytes@ == encoded_list(l)) by {
                    if fits_list(l) && bytes@ == encoded_list(l) {
                        lemma_step(bytes@, l, k as int, pos as int, n64, parsed);
                    }
                }
            }
            return None;
        }
        let len_slice = slice_subrange(bytes.as_slice(), pos, pos + 8);
        let tlen64 = u64_from_le_bytes(len_slice);
        let rem = bytes.len() - (pos + 8);
        if tlen64 >= rem as u64 {
            proof {
                lemma_auto_spec_u64_to_from_le_bytes();
                assert forall|l: Seq<(Seq<char>, bool)>|
                    !(fits_list(l) && bytes@ == encoded_list(l)) by {
                    if fits_list(l) && bytes@ == encoded_list(l) {
                        lemma_step(bytes@, l, k as int, pos as int, n64, parsed);
                        assert(tlen64 == encode_utf8(l[k as int].0).len() as u64);
                        assert(encode_utf8(l[k as int].0).len() < rem);
                    }
                }
            }
            return None;
        }
        let tlen = tlen64 as usize;
        let text_slice = slice_subrange(bytes.as_slice(), pos + 8, pos + 8 + tlen);
        let text_vec = slice_to_vec(text_slice);
        let ghost tb = text_vec@;
        let s_opt = string_from_utf8(text_vec);
        let s = match s_opt {
            Some(s) => s,
            None => {
                proof {
                    lemma_auto_spec_u64_to_from_le_bytes();
                    assert forall|l: Seq<(Seq<char>, bool)>|
                        !(fits_list(l) && bytes@ == encoded_list(l)) by {
                        if fits_list(l) && bytes@ == encoded_list(l) {
                            lemma_step(bytes@, l, k as int, pos as int, n64, parsed);
                            assert(tlen64 == encode_utf8(l[k as int].0).len() as u64);
                            assert(tb =~= encode_utf8(l[k as int].0));
                            encode_utf8_valid_utf8(l[k as int].0);
                        }
                    }
                }
                return None;
            },
        };
        let flag_pos = pos + 8 + tlen;
        let fb = bytes[flag_pos];
        let flag = if fb == 1 {
            true
        } else if fb == 0 {
            false
        } else {
            proof {
                lemma_auto_spec_u64_to_from_le_bytes();
                assert forall|l: Seq<(Seq<char>, bool)>|
                    !(fits_list(l) && bytes@ == encoded_list(l)) by {
                    if fits_list(l) && bytes@ == encoded_list(l) {
                        lemma_step(bytes@, l, k as int, pos as int, n64, parsed);
                        assert(tlen64 == encode_utf8(l[k as int].0).len() as u64);
                        assert(fb == flag_byte(l[k as int].1));
                    }
                }
            }
            return None;
        };
        let ghost item = (s@, flag);
        items.push((s, flag));
        proof {
            lemma_auto_spec_u64_to_from_le_bytes();
            assert(item_views(items@) =~= parsed.push(item));
            assert(tb == encode_utf8(s@));
            assert(tb.len() == tlen);
            assert(fits_item(item));
            assert(fits_list(item_views(items@)));
            // The bytes consumed this round are exactly the encoding of the
            // parsed item.
            assert(bytes@.subrange(pos as int, pos + 8) =~= spec_u64_to_le_bytes(tlen64));
            assert((tlen as u64) == tlen64);
            assert(spec_u64_to_le_bytes(encode_utf8(item.0).len() as u64) == spec_u64_to_le_bytes(
                tlen64,
            ));
            assert(bytes@.subrange(pos + 8, pos + 8 + tlen) =~= tb);
            assert(bytes@.subrange(flag_pos as int, flag_pos + 1) =~= seq![flag_byte(flag)]);
            assert(encoded_item(item) == spec_u64_to_le_bytes(tlen64) + tb + seq![
                flag_byte(flag),
            ]);
            assert(bytes@.subrange(0, flag_pos + 1) =~= bytes@.subrange(0, pos as int)
                + bytes@.subrange(pos as int, pos + 8) + bytes@.subrange(pos + 8, pos + 8 + tlen)
                + bytes@.subrange(flag_pos as int, flag_pos + 1));
            lemma_encoded_tail_snoc(parsed, item);
            assert(bytes@.subrange(0, flag_pos + 1) == spec_u64_to_le_bytes(n64) + encoded_tail(
                item_views(items@),
            ));
            assert forall|l: Seq<(Seq<char>, bool)>|
                fits_list(l) && bytes@ == encoded_list(l) implies k + 1 <= l.len() && item_views(
                items@,
            ) == l.take(k + 1) by {
                lemma_step(bytes@, l, k as int, pos as int, n64, parsed);
                assert(tlen64 == encode_utf8(l[k as int].0).len() as u64);
                assert(tb =~= encode_utf8(l[k as int].0));
                encode_utf8_decode_utf8(s@);
                encode_utf8_decode_utf8(l[k as int].0);
                assert(s@ == l[k as int].0);
                assert(fb == flag_byte(l[k as int].1));
                assert(flag == l[k as int].1);
                assert(item == l[k as int]);
                assert(item_views(items@) =~= l.take(k + 1));
            }
        }
        pos = flag_pos + 1;
        k = k + 1;
    }
    if pos != bytes.len() {
        proof {
            assert forall|l: Seq<(Seq<char>, bool)>|
                !(fits_list(l) && bytes@ == encoded_list(l)) by {
                if fits_list(l) && bytes@ == encoded_list(l) {
                    lemma_count_field(bytes@, l);
                    assert(k as int == l.len());
                    assert(item_views(items@) =~= l);
                    assert(bytes@.subrange(0, pos as int) =~= bytes@);
                }
            }
        }
        return None;
    }
    proof {
        assert(bytes@.subrange(0, pos as int) =~= bytes@);
        assert((item_views(items@).len() as u64) == n64);
        assert(bytes@ == encoded_list(item_views(items@)));
    }
    Some(items)
}

/// The encoding is unambiguous: two lists whose encodings are the same
/// byte string are the same list.
pub proof fn lemma_encoding_unambiguous(l1: Seq<(Seq<char>, bool)>, l2: Seq<(Seq<char>, bool)>)
    requires
        fits_list(l1),
        fits_list(l2),
        encoded_list(l1) == encoded_list(l2),
    ensures
        l1 == l2,
{
    let bytes = encoded_list(l1);
    lemma_auto_spec_u64_to_from_le_bytes();
    lemma_count_field(bytes, l1);
    lemma_count_field(bytes, l2);
    assert(l1.len() as u64 == l2.len() as u64);
    assert(l1.len() == l2.len());
    lemma_tail_unambiguous(l1, l2);
}

proof fn lemma_tail_unambiguous(l1: Seq<(Seq<char>, bool)>, l2: Seq<(Seq<char>, bool)>)
    requires
        forall|i: int| 0 <= i < l1.len() ==> fits_item(l1[i]),
        forall|i: int| 0 <= i < l2.len() ==> fits_item(l2[i]),
        l1.len() == l2.len(),
        encoded_tail(l1) == encoded_tail(l2),
    ensures
        l1 == l2,
    decreases l1.len(),
{
    if l1.len() == 0 {
        assert(l1 =~= l2);
    } else {
        lemma_auto_spec_u64_to_from_le_bytes();
        let a = l1.first();
        let b = l2.first();
        assert(fits_item(a));
        assert(fits_item(b));
        let ta = encode_utf8(a.0);
        let tb = encode_utf8(b.0);
        let bs = encoded_tail(l1);
        assert(spec_u64_to_le_bytes(ta.len() as u64).len() == 8);
        assert(spec_u64_to_le_bytes(tb.len() as u64).len() == 8);
        assert(bs.subrange(0, 8) =~= spec_u64_to_le_bytes(ta.len() as u64));
        assert(bs.subrange(0, 8) =~= spec_u64_to_le_bytes(tb.len() as u64));
        assert(ta.len() as u64 == tb.len() as u64);
        assert(ta.len() == tb.len());
        assert(bs.subrange(8, 8 + ta.len() as int) =~= ta);
        assert(bs.subrange(8, 8 + tb.len() as int) =~= tb);
        encode_utf8_decode_utf8(a.0);
        encode_utf8_decode_utf8(b.0);
        assert(a.0 == b.0);
        assert(bs[8 + ta.len() as int] == flag_byte(a.1));
        assert(bs[8 + tb.len() as int] == flag_byte(b.1));
        assert(a.1 == b.1);
        assert(encoded_item(a).len() == encoded_item(b).len());
        assert(encoded_tail(l1.drop_first()) =~= encoded_tail(l2.drop_first())) by {
            assert(encoded_tail(l1.drop_first()) =~= bs.subrange(
                encoded_item(a).len() as int,
                bs.len() as int,
            ));
            assert(encoded_tail(l2.drop_first()) =~= bs.subrange(
                encoded_item(b).len() as int,
                bs.len() as int,
            ));
        }
        lemma_tail_unambiguous(l1.drop_first(), l2.drop_first());
        assert(a == b);
        assert forall|i: int| 0 <= i < l1.len() implies l1[i] == l2[i] by {
            if i == 0 {
                assert(l1[0] == a);
                assert(l2[0] == b);
            } else {
                assert(l1.drop_first()[i - 1] == l1[i]);
                assert(l2.drop_first()[i - 1] == l2[i]);
            }
        }
        assert(l1 =~= l2);
    }
}

} // verus!
