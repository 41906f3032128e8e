//! The codec's laws: decoding is sound (whatever it accepts re-encodes to
//! the very bytes consumed), complete (every well-formed frame's encoding
//! decodes back to it), and the expected-length computation agrees with
//! what decoding consumes.
use vstd::prelude::*;

use crate::model::{
    all_digits, canonical_digits, crlf, dec_digits, digits_val, encode_frame, encode_items,
    expect_spec, find_crlf, frame_ok, lemma_digits_val_bounds, lemma_pow10_mono, null_arr,
    null_bulk, pow10, scan_frame, scan_header, scan_items, CrlfScan, FrameModel, HeaderOut,
    ItemsOut, ScanOut, LEN_MAX,
};
use crate::RespError;

verus! {

proof fn lemma_dec_digits_props(v: nat)
    ensures
        all_digits(dec_digits(v)),
        dec_digits(v).len() >= 1,
        digits_val(dec_digits(v)) == v,
        v >= 1 ==> dec_digits(v)[0] != 48,
        v == 0 ==> dec_digits(v) == seq![48u8],
        v < pow10(dec_digits(v).len()),
        dec_digits(v).len() > 1 ==> v >= pow10((dec_digits(v).len() - 1) as nat),
    decreases v,
{
    if v < 10 {
        reveal_with_fuel(pow10, 3);
        reveal_with_fuel(digits_val, 2);
        let dd = dec_digits(v);
        assert(dd =~= seq![(48 + v) as u8]);
        assert(dd.drop_last() =~= Seq::<u8>::empty());
        assert(pow10(1) == 10);
    } else {
        lemma_dec_digits_props(v / 10);
        let dl = dec_digits(v / 10);
        let dd = dec_digits(v);
        assert(dd == dl.push((48 + v % 10) as u8));
        assert(dd.drop_last() =~= dl);
        assert(forall|i: int| 0 <= i < dd.len() ==> dd[i] == (if i < dl.len() {
            dl[i]
        } else {
            (48 + v % 10) as u8
        }));
        assert(digits_val(dd) == digits_val(dl) * 10 + ((48 + v % 10) - 48));
        assert(digits_val(dd) == (v / 10) * 10 + v % 10);
        assert(v >= 1 ==> dd[0] != 48);
        assert(pow10(dd.len()) == 10 * pow10(dl.len()));
        assert(v < pow10(dd.len()));
        if dl.len() > 1 {
            assert(v / 10 >= pow10((dl.len() - 1) as nat));
            assert(v >= 10 * (v / 10));
            assert(v >= pow10((dd.len() - 1) as nat));
        } else {
            assert(v / 10 >= 1);
            assert(v >= 10);
            assert(pow10((dd.len() - 1) as nat) == pow10(1));
        }
    }
}

proof fn lemma_dec_digits_canonical(v: nat)
    requires
        v <= LEN_MAX,
    ensures
        canonical_digits(dec_digits(v)),
        dec_digits(v).len() <= 10,
        digits_val(dec_digits(v)) == v,
{
    lemma_dec_digits_props(v);
    let dd = dec_digits(v);
    if dd.len() > 10 {
        lemma_pow10_mono(10, (dd.len() - 1) as nat);
        assert(pow10(10) == 10000000000) by {
            reveal_with_fuel(pow10, 11);
        }
        assert(v >= 10000000000);
        assert(false);
    }
}

proof fn lemma_digits_val_lower(d: Seq<u8>)
    requires
        all_digits(d),
        d.len() >= 1,
        d.len() > 1 ==> d[0] != 48,
    ensures
        d.len() > 1 ==> digits_val(d) >= pow10((d.len() - 1) as nat),
        d.len() == 1 ==> digits_val(d) == d[0] - 48,
    decreases d.len(),
{
    lemma_digits_val_bounds(d);
    if d.len() == 1 {
        reveal_with_fuel(digits_val, 2);
        assert(d.drop_last() =~= Seq::<u8>::empty());
    } else {
        let dl = d.drop_last();
        assert(all_digits(dl));
        assert(dl[0] == d[0]);
        lemma_digits_val_lower(dl);
        lemma_digits_val_bounds(dl);
        if dl.len() == 1 {
            assert(digits_val(dl) >= 1);
            assert(digits_val(d) >= 10);
            assert(pow10(1) == 10);
        } else {
            assert(digits_val(dl) >= pow10((dl.len() - 1) as nat));
            assert(digits_val(d) >= 10 * digits_val(dl));
            assert(pow10((d.len() - 1) as nat) == 10 * pow10((dl.len() - 1) as nat));
        }
    }
}

/// A digit string in canonical form is the canonical rendering of its
/// own value: the decimal encoding is injective.
proof fn lemma_digits_unique(d: Seq<u8>)
    requires
        all_digits(d),
        d.len() >= 1,
        d.len() > 1 ==> d[0] != 48,
    ensures
        dec_digits(digits_val(d) as nat) == d,
    decreases d.len(),
{
    let v = digits_val(d);
    lemma_digits_val_bounds(d);
    if d.len() == 1 {
        reveal_with_fuel(digits_val, 2);
        assert(d.drop_last() =~= Seq::<u8>::empty());
        assert(v == d[0] - 48);
        assert(v < 10);
        assert(dec_digits(v as nat) =~= seq![(48 + v) as u8]);
        assert(dec_digits(v as nat) =~= d);
    } else {
        let dl = d.drop_last();
        assert(all_digits(dl));
        assert(dl[0] == d[0]);
        lemma_digits_val_lower(d);
        lemma_pow10_mono(1, (d.len() - 1) as nat);
        assert(v >= 10);
        lemma_digits_unique(dl);
        lemma_digits_val_bounds(dl);
        assert(v == digits_val(dl) * 10 + (d.last() - 48));
        assert(v as nat / 10 == digits_val(dl) && v as nat % 10 == d.last() - 48) by (
        nonlinear_arith)
            requires
                v == digits_val(dl) * 10 + (d.last() - 48),
                0 <= d.last() - 48 < 10,
                digits_val(dl) >= 0,
                v >= 10,
        ;
        assert(dec_digits(v as nat) == dec_digits((v as nat) / 10).push(
            (48 + (v as nat) % 10) as u8,
        ));
        assert((48 + (v as nat) % 10) as u8 == d.last());
        assert(dl.push(d.last()) =~= d);
    }
}

proof fn lemma_find_crlf_at(s: Seq<u8>, i: int, e: int)
    requires
        1 <= i <= e <= 16,
        e + 1 < s.len(),
        s[e] == 13,
        s[e + 1] == 10,
        forall|j: int| i <= j < e ==> #[trigger] s[j] != 13,
    ensures
        find_crlf(s, i) == CrlfScan::FoundAt(e),
    decreases e - i,
{
    if i < e {
        assert(s[i] != 13);
        lemma_find_crlf_at(s, i + 1, e);
    }
}

/// A frame header built from canonical digits parses back to its value:
/// `scan_header` on `x · dd · CRLF · tail` finds the terminator right
/// after the digits and reads off their value.
proof fn lemma_scan_header_enc(x: u8, dd: Seq<u8>, tail: Seq<u8>)
    requires
        canonical_digits(dd),
    ensures
        scan_header(seq![x] + dd + crlf() + tail) == HeaderOut::HFound(
            1 + dd.len() as int,
            digits_val(dd),
        ),
{
    let s = seq![x] + dd + crlf() + tail;
    let e = 1 + dd.len() as int;
    assert(s.len() == 3 + dd.len() + tail.len());
    assert(forall|j: int| 1 <= j < e ==> s[j] == dd[j - 1]);
    assert(s[e] == 13);
    assert(s[e + 1] == 10);
    assert(forall|j: int| 1 <= j < e ==> #[trigger] s[j] != 13) by {
        assert(forall|j: int| 1 <= j < e ==> crate::model::is_digit(#[trigger] dd[j - 1]));
    }
    lemma_find_crlf_at(s, 1, e);
    assert(s.subrange(1, e) =~= dd);
}

/// Completeness of decoding: the encoding of any well-formed frame,
/// whatever bytes follow it, scans to exactly that frame with exactly
/// the encoding's length consumed.
pub proof fn lemma_encode_decode_roundtrip(f: FrameModel, rest: Seq<u8>)
    requires
        frame_ok(f),
    ensures
        scan_frame(encode_frame(f) + rest) == ScanOut::Done(f, encode_frame(f).len() as int),
    decreases f, 0int,
{
    let enc = encode_frame(f);
    let s = enc + rest;
    match f {
        FrameModel::Bulk(None) => {
            assert(null_bulk().is_prefix_of(s)) by {
                assert(s.subrange(0, 5) =~= null_bulk());
            }
            assert(s[0] == 36);
        },
        FrameModel::Bulk(Some(d)) => {
            let dd = dec_digits(d.len());
            lemma_dec_digits_canonical(d.len());
            let e = 1 + dd.len() as int;
            let total = e + 2 + d.len() as int + 2;
            assert(s =~= seq![36u8] + dd + crlf() + (d + crlf() + rest));
            lemma_scan_header_enc(36, dd, d + crlf() + rest);
            assert(scan_header(s) == HeaderOut::HFound(e, d.len() as int));
            assert(s[0] == 36);
            assert(!null_bulk().is_prefix_of(s)) by {
                assert(s[1] == dd[0]);
                assert(crate::model::is_digit(dd[0]));
                assert(null_bulk()[1] == 45);
            }
            assert(enc.len() == total);
            assert(s.len() >= total);
            assert(s[total - 2] == 13 && s[total - 1] == 10) by {
                assert(forall|j: int| 0 <= j < 2 ==> s[e + 2 + d.len() + j] == crlf()[j]);
            }
            assert(s.subrange(e + 2, e + 2 + d.len() as int) =~= d);
            assert(scan_frame(s) == ScanOut::Done(FrameModel::Bulk(Some(d)), total));
        },
        FrameModel::Arr(None) => {
            assert(null_arr().is_prefix_of(s)) by {
                assert(s.subrange(0, 5) =~= null_arr());
            }
            assert(s[0] == 42);
        },
        FrameModel::Arr(Some(items)) => {
            let dd = dec_digits(items.len());
            lemma_dec_digits_canonical(items.len());
            let e = 1 + dd.len() as int;
            let body = encode_items(items);
            assert(s =~= seq![42u8] + dd + crlf() + (body + rest));
            lemma_scan_header_enc(42, dd, body + rest);
            assert(scan_header(s) == HeaderOut::HFound(e, items.len() as int));
            assert(s[0] == 42);
            assert(!null_arr().is_prefix_of(s)) by {
                assert(s[1] == dd[0]);
                assert(crate::model::is_digit(dd[0]));
                assert(null_arr()[1] == 45);
            }
            assert(e + 2 <= s.len());
            assert(decreases_to!(f => f->Arr_0));
            assert(decreases_to!(f->Arr_0 => f->Arr_0->0));
            assert(f->Arr_0->0 == items);
            lemma_items_decode(items, items.len() as int, rest);
            assert(s.skip(e + 2) =~= body + rest);
            assert(scan_items(s.skip(e + 2), items.len() as int) == ItemsOut::IDone(
                items,
                body.len() as int,
            ));
            assert(enc.len() == e + 2 + body.len());
            assert(scan_frame(s) == ScanOut::Done(f, enc.len() as int));
        },
    }
}

proof fn lemma_items_decode(items: Seq<FrameModel>, k: int, rest: Seq<u8>)
    requires
        k == items.len(),
        forall|i: int| 0 <= i < items.len() ==> frame_ok(#[trigger] items[i]),
    ensures
        scan_items(encode_items(items) + rest, k) == ItemsOut::IDone(
            items,
            encode_items(items).len() as int,
        ),
    decreases items, 1int,
{
    let s = encode_items(items) + rest;
    if items.len() == 0 {
        assert(scan_items(s, 0) == ItemsOut::IDone(Seq::<FrameModel>::empty(), 0));
        assert(items =~= Seq::<FrameModel>::empty());
    } else {
        let f0 = items.first();
        let tl = items.drop_first();
        let enc0 = encode_frame(f0);
        assert(decreases_to!(items => items[0]));
        assert(items[0] == f0);
        lemma_encode_decode_roundtrip(f0, encode_items(tl) + rest);
        assert(s =~= enc0 + (encode_items(tl) + rest));
        assert(scan_frame(s) == ScanOut::Done(f0, enc0.len() as int));
        crate::model::lemma_scan_bounds(s);
        assert(1 <= enc0.len() <= s.len());
        assert(s.skip(enc0.len() as int) =~= encode_items(tl) + rest);
        assert(forall|i: int| 0 <= i < tl.len() ==> tl[i] == items[i + 1]);
        lemma_items_decode(tl, tl.len() as int, rest);
        assert(scan_items(s, k) == ItemsOut::IDone(
            seq![f0] + tl,
            enc0.len() + encode_items(tl).len() as int,
        ));
        assert(seq![f0] + tl =~= items);
        assert(encode_items(items).len() == enc0.len() + encode_items(tl).len());
    }
}

/// Soundness of decoding (the round-trip law): whenever a scan accepts a
/// complete frame, the consumed prefix is byte-for-byte the canonical
/// encoding of that frame — so re-encoding a decoded frame reproduces
/// the input exactly.
pub proof fn lemma_decode_encode_roundtrip(s: Seq<u8>, f: FrameModel, n: int)
    requires
        scan_frame(s) == ScanOut::Done(f, n),
    ensures
        frame_ok(f),
        n == encode_frame(f).len(),
        s.subrange(0, n) == encode_frame(f),
    decreases s.len(), 1int, 0int,
{
    crate::model::lemma_scan_bounds(s);
    assert(s.len() > 0);
    if s[0] == 36 {
        if null_bulk().is_prefix_of(s) {
            assert(s.subrange(0, 5) =~= null_bulk());
        } else {
            match scan_header(s) {
                HeaderOut::HFound(e, v) => {
                    crate::model::lemma_find_crlf(s, 1);
                    let d = s.subrange(1, e);
                    assert(canonical_digits(d));
                    lemma_digits_unique(d);
                    lemma_digits_val_bounds(d);
                    let payload = s.subrange(e + 2, e + 2 + v);
                    assert(f == FrameModel::Bulk(Some(payload)));
                    assert(payload.len() == v);
                    assert(dec_digits(payload.len()) == d);
                    let enc = encode_frame(f);
                    assert(enc == seq![36u8] + d + crlf() + payload + crlf());
                    assert(n == e + 2 + v + 2);
                    assert(s.subrange(0, n) =~= enc);
                },
                _ => {
                    assert(false);
                },
            }
        }
    } else {
        assert(s[0] == 42);
        if null_arr().is_prefix_of(s) {
            assert(s.subrange(0, 5) =~= null_arr());
        } else {
            match scan_header(s) {
                HeaderOut::HFound(e, v) => {
                    crate::model::lemma_find_crlf(s, 1);
                    let d = s.subrange(1, e);
                    assert(canonical_digits(d));
                    lemma_digits_unique(d);
                    lemma_digits_val_bounds(d);
                    match scan_items(s.skip(e + 2), v) {
                        ItemsOut::IDone(fs, t) => {
                            lemma_items_encode(s.skip(e + 2), v);
                            crate::model::lemma_items_bounds(s.skip(e + 2), v);
                            assert(fs.len() == v);
                            assert(dec_digits(fs.len()) == d);
                            assert(f == FrameModel::Arr(Some(fs)));
                            let enc = encode_frame(f);
                            assert(enc == seq![42u8] + d + crlf() + encode_items(fs));
                            assert(s.skip(e + 2).subrange(0, t) =~= s.subrange(e + 2, e + 2 + t));
                            assert(n == e + 2 + t);
                            assert(s.subrange(0, n) =~= enc);
                        },
                        _ => {
                            assert(false);
                        },
                    }
                },
                _ => {
                    assert(false);
                },
            }
        }
    }
}

proof fn lemma_items_encode(s: Seq<u8>, k: int)
    requires
        scan_items(s, k) matches ItemsOut::IDone(fs, t),
    ensures
        ({
            let out = scan_items(s, k);
            let fs = out->IDone_0;
            let t = out->IDone_1;
            &&& (forall|i: int| 0 <= i < fs.len() ==> frame_ok(#[trigger] fs[i]))
            &&& s.subrange(0, t) == encode_items(fs)
            &&& t == encode_items(fs).len()
        }),
    decreases s.len(), 2int, k,
{
    let out = scan_items(s, k);
    let fs = out->IDone_0;
    let t = out->IDone_1;
    if k <= 0 {
        assert(s.subrange(0, 0) =~= Seq::<u8>::empty());
        assert(encode_items(fs) =~= Seq::<u8>::empty());
    } else {
        match scan_frame(s) {
            ScanOut::Done(f0, m) => {
                crate::model::lemma_scan_bounds(s);
                assert(0 < m <= s.len());
                lemma_decode_encode_roundtrip(s, f0, m);
                lemma_items_encode(s.skip(m), k - 1);
                crate::model::lemma_items_bounds(s.skip(m), k - 1);
                crate::model::lemma_items_bounds(s, k);
                let out2 = scan_items(s.skip(m), k - 1);
                match out2 {
                    ItemsOut::IDone(fs2, t2) => {
                        assert(fs == seq![f0] + fs2);
                        assert(t == m + t2);
                        assert(forall|i: int|
                            0 <= i < fs.len() ==> fs[i] == (if i == 0 {
                                f0
                            } else {
                                fs2[i - 1]
                            }));
                        assert(fs.first() == f0);
                        assert(fs.drop_first() =~= fs2);
                        assert(encode_items(fs) == encode_frame(f0) + encode_items(fs2));
                        assert(s.skip(m).subrange(0, t2) =~= s.subrange(m, m + t2));
                        assert(s.subrange(0, t) =~= s.subrange(0, m) + s.subrange(m, t));
                        assert(s.subrange(0, m) =~= s.subrange(0, m));
                        assert(s.subrange(m, m + t2) == encode_items(fs2));
                        assert(s.subrange(0, m) == encode_frame(f0));
                        assert(s.subrange(0, t) =~= encode_frame(f0) + encode_items(fs2));
                    },
                    _ => {
                        assert(false);
                    },
                }
            },
            _ => {
                assert(false);
            },
        }
    }
}

proof fn lemma_find_crlf_short(s: Seq<u8>, i: int)
    requires
        1 <= i <= 16,
        s.len() <= 17,
        forall|j: int| i <= j && j + 1 < s.len() ==> !(#[trigger] s[j] == 13 && s[j + 1] == 10),
    ensures
        find_crlf(s, i) == CrlfScan::Short,
    decreases 17 - i,
{
    if i <= 16 && i + 1 < s.len() {
        lemma_find_crlf_short(s, i + 1);
    }
}

/// Any strict prefix of a well-formed frame's encoding scans as
/// incomplete: never as a frame, never as a malformed stream.
proof fn lemma_encode_prefix_incomplete(f: FrameModel, m: int)
    requires
        frame_ok(f),
        0 <= m < encode_frame(f).len(),
    ensures
        scan_frame(encode_frame(f).take(m)) matches ScanOut::Needs(_) || scan_frame(
            encode_frame(f).take(m),
        ) == ScanOut::Partial,
    decreases f, 0int,
{
    let enc = encode_frame(f);
    let p = enc.take(m);
    if m == 0 {
        assert(p.len() == 0);
    } else {
        match f {
            FrameModel::Bulk(None) => {
                assert(p[0] == 36);
                assert(!null_bulk().is_prefix_of(p));
                lemma_find_crlf_short(p, 1);
            },
            FrameModel::Arr(None) => {
                assert(p[0] == 42);
                assert(!null_arr().is_prefix_of(p));
                lemma_find_crlf_short(p, 1);
            },
            FrameModel::Bulk(Some(d)) => {
                let dd = dec_digits(d.len());
                lemma_dec_digits_canonical(d.len());
                lemma_dec_digits_props(d.len());
                let hdr = 1 + dd.len() as int + 2;
                assert(enc =~= seq![36u8] + dd + crlf() + (d + crlf()));
                assert(p[0] == 36);
                assert(!null_bulk().is_prefix_of(p)) by {
                    if p.len() >= 2 {
                        assert(p[1] == dd[0]);
                        assert(crate::model::is_digit(dd[0]));
                    }
                }
                if m < hdr {
                    assert(forall|j: int|
                        1 <= j && j + 1 < p.len() ==> !(#[trigger] p[j] == 13 && p[j + 1] == 10))
                        by {
                        assert(forall|j: int| 1 <= j && j + 1 < p.len() ==> p[j] == dd[j - 1]);
                    }
                    lemma_find_crlf_short(p, 1);
                } else {
                    let tail = (d + crlf()).take(m - hdr);
                    assert(p =~= seq![36u8] + dd + crlf() + tail);
                    lemma_scan_header_enc(36, dd, tail);
                    assert(scan_header(p) == HeaderOut::HFound(1 + dd.len() as int, d.len() as int));
                    assert(p.len() < 1 + dd.len() + 2 + d.len() + 2);
                }
            },
            FrameModel::Arr(Some(items)) => {
                let dd = dec_digits(items.len());
                lemma_dec_digits_canonical(items.len());
                lemma_dec_digits_props(items.len());
                let hdr = 1 + dd.len() as int + 2;
                let body = encode_items(items);
                assert(enc =~= seq![42u8] + dd + crlf() + body);
                assert(p[0] == 42);
                assert(!null_arr().is_prefix_of(p)) by {
                    if p.len() >= 2 {
                        assert(p[1] == dd[0]);
                        assert(crate::model::is_digit(dd[0]));
                    }
                }
                if m < hdr {
                    assert(forall|j: int|
                        1 <= j && j + 1 < p.len() ==> !(#[trigger] p[j] == 13 && p[j + 1] == 10))
                        by {
                        assert(forall|j: int| 1 <= j && j + 1 < p.len() ==> p[j] == dd[j - 1]);
                    }
                    lemma_find_crlf_short(p, 1);
                } else {
                    let tail = body.take(m - hdr);
                    assert(p =~= seq![42u8] + dd + crlf() + tail);
                    lemma_scan_header_enc(42, dd, tail);
                    assert(scan_header(p) == HeaderOut::HFound(
                        1 + dd.len() as int,
                        items.len() as int,
                    ));
                    assert(hdr <= p.len());
                    assert(p.skip(hdr) =~= tail);
                    assert(decreases_to!(f => f->Arr_0));
                    assert(decreases_to!(f->Arr_0 => f->Arr_0->0));
                    assert(f->Arr_0->0 == items);
                    lemma_items_prefix(items, m - hdr);
                    assert(scan_items(tail, items.len() as int) matches ItemsOut::INeeds(_)
                        || scan_items(tail, items.len() as int) == ItemsOut::IPartial);
                }
            },
        }
    }
}

proof fn lemma_items_prefix(items: Seq<FrameModel>, m: int)
    requires
        forall|i: int| 0 <= i < items.len() ==> frame_ok(#[trigger] items[i]),
        0 <= m < encode_items(items).len(),
    ensures
        scan_items(encode_items(items).take(m), items.len() as int) matches ItemsOut::INeeds(_)
            || scan_items(encode_items(items).take(m), items.len() as int) == ItemsOut::IPartial,
    decreases items, 1int,
{
    let body = encode_items(items);
    let p = body.take(m);
    let k = items.len() as int;
    if items.len() == 0 {
        assert(encode_items(items).len() == 0);
    } else {
        let f0 = items.first();
        let tl = items.drop_first();
        let enc0 = encode_frame(f0);
        assert(decreases_to!(items => items[0]));
        assert(items[0] == f0);
        assert(body == enc0 + encode_items(tl));
        assert(forall|i: int| 0 <= i < tl.len() ==> tl[i] == items[i + 1]);
        if m < enc0.len() {
            assert(p =~= enc0.take(m));
            lemma_encode_prefix_incomplete(f0, m);
            match scan_frame(p) {
                ScanOut::Needs(n) => {
                    if k == 1 {
                        assert(scan_items(p, k) == ItemsOut::INeeds(n));
                    } else {
                        assert(scan_items(p, k) == ItemsOut::IPartial);
                    }
                },
                ScanOut::Partial => {
                    assert(scan_items(p, k) == ItemsOut::IPartial);
                },
                _ => {
                    assert(false);
                },
            }
        } else {
            let m2 = m - enc0.len();
            let rest = encode_items(tl).take(m2);
            assert(p =~= enc0 + rest);
            lemma_encode_decode_roundtrip(f0, rest);
            assert(scan_frame(p) == ScanOut::Done(f0, enc0.len() as int));
            crate::model::lemma_scan_bounds(p);
            assert(p.skip(enc0.len() as int) =~= rest);
            if tl.len() == 0 {
                assert(encode_items(tl) =~= Seq::<u8>::empty());
                assert(false);
            }
            if m2 == encode_items(tl).len() {
                assert(m == body.len());
                assert(false);
            }
            lemma_items_prefix(tl, m2);
            assert(scan_items(rest, tl.len() as int) matches ItemsOut::INeeds(_) || scan_items(
                rest,
                tl.len() as int,
            ) == ItemsOut::IPartial);
        }
    }
}

/// Progressive-feed equivalence: while only a strict prefix of a
/// complete frame's bytes has arrived, a scan reports that more bytes
/// are needed — never a decoded frame and never a malformed stream; and
/// once exactly the frame's bytes are present, the scan agrees with
/// scanning the longer buffer.
pub proof fn lemma_progressive_feed(s: Seq<u8>, m: int)
    requires
        scan_frame(s) matches ScanOut::Done(f, n),
        0 <= m < scan_frame(s)->Done_1,
    ensures
        scan_frame(s.take(m)) matches ScanOut::Needs(_) || scan_frame(s.take(m))
            == ScanOut::Partial,
        scan_frame(s.take(scan_frame(s)->Done_1)) == scan_frame(s),
{
    let f = scan_frame(s)->Done_0;
    let n = scan_frame(s)->Done_1;
    crate::model::lemma_scan_bounds(s);
    lemma_decode_encode_roundtrip(s, f, n);
    assert(s.take(n) == encode_frame(f));
    assert(s.take(m) =~= encode_frame(f).take(m));
    lemma_encode_prefix_incomplete(f, m);
    lemma_encode_decode_roundtrip(f, Seq::empty());
    assert(encode_frame(f) + Seq::<u8>::empty() =~= encode_frame(f));
}

/// Progressive feed, specialised to the bulk-string decoder. A buffer
/// holding a complete bulk-string frame starts with `$`, and so does
/// every non-empty prefix of it; while only a strict prefix has
/// arrived the scan is incomplete and maps to `NotComplete` — so by
/// `BulkString::decode`'s contract each retry reports `NotComplete`
/// and leaves the buffer untouched — and on exactly the frame's bytes
/// the scan, hence the decoded frame and the count consumed, is the
/// same as for the whole buffer at once.
pub proof fn lemma_progressive_feed_bulk(s: Seq<u8>, m: int)
    requires
        scan_frame(s) matches ScanOut::Done(f, n) && f matches FrameModel::Bulk(_),
        0 <= m < scan_frame(s)->Done_1,
    ensures
        !(scan_frame(s.take(m)) matches ScanOut::Done(_, _)),
        crate::model::scan_err(scan_frame(s.take(m))) == RespError::NotComplete,
        s[0] == 36 && (m >= 1 ==> s.take(m)[0] == 36),
        scan_frame(s.take(scan_frame(s)->Done_1)) == scan_frame(s),
{
    lemma_progressive_feed(s, m);
    crate::model::lemma_scan_bounds(s);
    assert(s.len() > 0);
    if s[0] == 42 {
        assert(!(scan_frame(s) matches ScanOut::Done(f, n) && f matches FrameModel::Bulk(_)));
        assert(false);
    }
    assert(s[0] == 36);
}

/// Progressive feed, specialised to the array decoder, nested elements
/// included. A buffer holding a complete array frame starts with `*`,
/// and so does every non-empty prefix of it; while only a strict
/// prefix has arrived the scan is incomplete and maps to `NotComplete`
/// — so by `RespArray::decode`'s contract each retry reports
/// `NotComplete` and leaves the buffer untouched — and on exactly the
/// frame's bytes the scan, hence the decoded frame and the count
/// consumed, is the same as for the whole buffer at once.
pub proof fn lemma_progressive_feed_array(s: Seq<u8>, m: int)
    requires
        scan_frame(s) matches ScanOut::Done(f, n) && f matches FrameModel::Arr(_),
        0 <= m < scan_frame(s)->Done_1,
    ensures
        !(scan_frame(s.take(m)) matches ScanOut::Done(_, _)),
        crate::model::scan_err(scan_frame(s.take(m))) == RespError::NotComplete,
        s[0] == 42 && (m >= 1 ==> s.take(m)[0] == 42),
        scan_frame(s.take(scan_frame(s)->Done_1)) == scan_frame(s),
{
    lemma_progressive_feed(s, m);
    crate::model::lemma_scan_bounds(s);
    assert(s.len() > 0);
    if s[0] == 36 {
        assert(!(scan_frame(s) matches ScanOut::Done(f, n) && f matches FrameModel::Arr(_)));
        assert(false);
    }
    assert(s[0] == 42);
}

/// The expected-length computation agrees with decoding: on any buffer
/// holding a complete frame, the reported length is exactly the number
/// of bytes the decode consumes.
pub proof fn lemma_expect_matches_decode(s: Seq<u8>)
    ensures
        scan_frame(s) matches ScanOut::Done(f, n) ==> expect_spec(s) == Ok::<int, RespError>(n),
{
}

} // verus!
