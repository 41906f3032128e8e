//! The executable codec: decoding frames out of a `bytes::BytesMut`
//! stream buffer and computing a frame's expected length, both specified
//! against `model::scan_frame`.
use vstd::prelude::*;

use crate::frame::{frames_view, frame_view, BulkString, RespArray, RespFrame};
use crate::model::{
    canonical_digits, digits_val, find_crlf, items_prepend, lemma_items_bounds,
    lemma_scan_bounds, pow10, scan_err, scan_frame, scan_header, scan_items, CrlfScan,
    FrameModel, HeaderOut, ItemsOut, ScanOut, HEADER_END_MAX, LEN_MAX,
};
use crate::RespError;

verus! {

#[verifier::external_type_specification]
#[verifier::external_body]
pub struct ExBytesMut(bytes::BytesMut);

/// The bytes a stream buffer currently holds, oldest first.
pub uninterp spec fn bytes_model(b: bytes::BytesMut) -> Seq<u8>;

/// Relies on the `AsRef<[u8]>` impl of `bytes::BytesMut`: a borrowed view
/// of the buffer's bytes.
#[verifier::external_body]
fn buf_as_slice(b: &bytes::BytesMut) -> (r: &[u8])
    ensures
        r@ == bytes_model(*b),
{
    b.as_ref()
}

/// Relies on `bytes::Buf::advance` for `BytesMut`: discards the first
/// `n` bytes of the buffer. It panics when `n` exceeds the length, so
/// that case is excluded here.
#[verifier::external_body]
fn buf_advance(b: &mut bytes::BytesMut, n: usize)
    requires
        n <= bytes_model(*old(b)).len(),
    ensures
        bytes_model(*final(b)) == bytes_model(*old(b)).skip(n as int),
{
    bytes::Buf::advance(b, n)
}

/// One byte of a slice.
fn byte_at(buf: &[u8], i: usize) -> (r: u8)
    requires
        i < buf@.len(),
    ensures
        r == buf@[i as int],
{
    *vstd::slice::slice_index_get(buf, i)
}

/// Whether the five-byte null encoding with the given type byte sits at
/// `pos`.
fn is_null_at(buf: &[u8], pos: usize, c0: u8) -> (r: bool)
    requires
        pos <= buf@.len(),
    ensures
        r == seq![c0, 45u8, 49u8, 13u8, 10u8].is_prefix_of(buf@.skip(pos as int)),
{
    let ghost s = buf@.skip(pos as int);
    let ghost p = seq![c0, 45u8, 49u8, 13u8, 10u8];
    if buf.len() - pos < 5 {
        proof {
            assert(!p.is_prefix_of(s));
        }
        false
    } else {
        let r = byte_at(buf, pos) == c0 && byte_at(buf, pos + 1) == 45 && byte_at(buf, pos + 2)
            == 49 && byte_at(buf, pos + 3) == 13 && byte_at(buf, pos + 4) == 10;
        proof {
            assert(forall|j: int| 0 <= j < s.len() ==> s[j] == buf@[pos + j]);
            if r {
                assert(p =~= s.subrange(0, 5));
            } else {
                assert(!(p =~= s.subrange(0, 5)));
                assert(p.is_prefix_of(s) ==> p =~= s.subrange(0, 5));
            }
        }
        r
    }
}

/// Parses the length header of the frame starting at `pos` (whose type
/// byte has already been checked): the '\r' offset and the value.
fn scan_header_at(buf: &[u8], pos: usize) -> (r: Result<(usize, u32), RespError>)
    requires
        pos < buf@.len(),
    ensures
        ({
            let s = buf@.skip(pos as int);
            match r {
                Ok((end, v)) => {
                    &&& scan_header(s) == HeaderOut::HFound(end as int, v as int)
                    &&& 1 <= end <= HEADER_END_MAX
                    &&& pos + end + 1 < buf@.len()
                    &&& v <= LEN_MAX
                },
                Err(RespError::NotComplete) => scan_header(s) == HeaderOut::HShort,
                Err(RespError::InvalidFrameLength) => scan_header(s) == HeaderOut::HBad,
                Err(e) => false,
            }
        }),
{
    let ghost s = buf@.skip(pos as int);
    let blen: usize = buf.len();
    proof {
        assert(buf@.len() == blen);
        assert(forall|j: int| 0 <= j < s.len() ==> s[j] == buf@[pos + j]);
    }
    let mut i: usize = 1;
    let mut end: usize = 0;
    let mut found = false;
    while i <= 16 && !found
        invariant
            1 <= i <= 17,
            pos < buf@.len(),
            s == buf@.skip(pos as int),
            forall|j: int| 0 <= j < s.len() ==> s[j] == buf@[pos + j],
            found ==> find_crlf(s, 1) == CrlfScan::FoundAt(end as int) && 1 <= end <= 16 && pos
                + end + 1 < buf@.len(),
            !found ==> find_crlf(s, 1) == find_crlf(s, i as int),
            !found ==> end == 0,
        decreases 17 - i + (if found { 0int } else { 1int }),
    {
        if i + 1 >= buf.len() - pos {
            proof {
                assert(find_crlf(s, i as int) == CrlfScan::Short);
            }
            return Err(RespError::NotComplete);
        }
        let b1 = byte_at(buf, pos + i);
        let b2 = byte_at(buf, pos + i + 1);
        if b1 == 13 && b2 == 10 {
            end = i;
            found = true;
            proof {
                assert(find_crlf(s, i as int) == CrlfScan::FoundAt(i as int));
            }
        } else {
            proof {
                assert(find_crlf(s, i as int) == find_crlf(s, i + 1));
            }
            i += 1;
        }
    }
    if !found {
        proof {
            assert(find_crlf(s, 17) == CrlfScan::TooFar);
        }
        return Err(RespError::InvalidFrameLength);
    }
    // digits region: s[1 .. end]
    let ghost d = s.subrange(1, end as int);
    let dcount = end - 1;
    if dcount < 1 || dcount > 10 {
        proof {
            assert(!canonical_digits(d));
        }
        return Err(RespError::InvalidFrameLength);
    }
    let mut val: u64 = 0;
    let mut j: usize = 1;
    while j < end
        invariant
            1 <= j <= end,
            2 <= end <= 11,
            pos + end + 1 < buf@.len(),
            buf@.len() <= usize::MAX,
            find_crlf(s, 1) == CrlfScan::FoundAt(end as int),
            s == buf@.skip(pos as int),
            d == s.subrange(1, end as int),
            forall|q: int| 0 <= q < s.len() ==> s[q] == buf@[pos + q],
            crate::model::all_digits(s.subrange(1, j as int)),
            j > 1 && end > 2 ==> s[1] != 48,
            val == digits_val(s.subrange(1, j as int)),
            0 <= val < pow10((j - 1) as nat),
        decreases end - j,
    {
        let b = byte_at(buf, pos + j);
        proof {
            assert(s[j as int] == b);
        }
        if b < 48 || b > 57 {
            proof {
                assert(d[j - 1] == s[j as int]);
                assert(!crate::model::all_digits(d));
                assert(!canonical_digits(d));
            }
            return Err(RespError::InvalidFrameLength);
        }
        if j == 1 && b == 48 && end > 2 {
            proof {
                assert(d[0] == s[1]);
                assert(d.len() > 1);
                assert(!canonical_digits(d));
            }
            return Err(RespError::InvalidFrameLength);
        }
        proof {
            assert(pow10((j - 1) as nat) <= pow10(9)) by {
                crate::model::lemma_pow10_mono((j - 1) as nat, 9);
            }
            assert(pow10(9) == 1000000000) by {
                reveal_with_fuel(pow10, 11);
            }
            assert(s.subrange(1, j + 1) =~= s.subrange(1, j as int).push(s[j as int]));
            assert(s.subrange(1, j + 1).drop_last() =~= s.subrange(1, j as int));
        }
        val = val * 10 + ((b - 48) as u64);
        proof {
            assert(val == digits_val(s.subrange(1, j + 1)));
            assert(val < pow10(j as nat));
        }
        j += 1;
    }
    proof {
        assert(s.subrange(1, j as int) =~= d);
    }
    if val > 0x7fff_ffff {
        proof {
            assert(!canonical_digits(d));
        }
        return Err(RespError::InvalidFrameLength);
    }
    proof {
        assert(canonical_digits(d));
        assert(scan_header(s) == HeaderOut::HFound(end as int, digits_val(d)));
    }
    Ok((end, val as u32))
}

/// Parses one complete frame starting at `pos`, without consuming
/// anything: the frame and the number of bytes it occupies. Fails with
/// `NotComplete` exactly when the scan is short of bytes, and with the
/// matching fatal error on a malformed type byte or length header.
fn parse_at(buf: &[u8], pos: usize) -> (r: Result<(RespFrame, usize), RespError>)
    requires
        pos <= buf@.len(),
    ensures
        ({
            let sc = scan_frame(buf@.skip(pos as int));
            &&& (r matches Ok(p) ==> sc == ScanOut::Done(frame_view(p.0), p.1 as int) && pos + p.1
                <= buf@.len() && 1 <= p.1)
            &&& (r matches Err(e) ==> !(sc matches ScanOut::Done(_, _)) && e == scan_err(sc))
        }),
    decreases buf@.len() - pos,
{
    let blen: usize = buf.len();
    let ghost s = buf@.skip(pos as int);
    proof {
        assert(buf@.len() == blen);
        assert(forall|q: int| 0 <= q < s.len() ==> s[q] == buf@[pos + q]);
    }
    if pos == blen {
        proof {
            assert(s.len() == 0);
        }
        return Err(RespError::NotComplete);
    }
    let b0 = byte_at(buf, pos);
    proof {
        assert(s[0] == b0);
    }
    if b0 == 36 {
        if is_null_at(buf, pos, 36) {
            proof {
                assert(seq![36u8, 45u8, 49u8, 13u8, 10u8] =~= crate::model::null_bulk());
                assert(s.len() >= 5);
            }
            return Ok((RespFrame::BulkString(BulkString { data: None }), 5));
        }
        proof {
            assert(seq![36u8, 45u8, 49u8, 13u8, 10u8] =~= crate::model::null_bulk());
        }
        match scan_header_at(buf, pos) {
            Err(e) => {
                proof {
                    match scan_header(s) {
                        HeaderOut::HShort => assert(scan_frame(s) == ScanOut::Partial),
                        HeaderOut::HBad => assert(scan_frame(s) == ScanOut::BadLen),
                        HeaderOut::HFound(end, v) => assert(false),
                    }
                }
                return Err(e);
            },
            Ok((end, v)) => {
                let vl = v as usize;
                let p0 = pos + end + 2;
                proof {
                    assert(p0 <= blen);
                }
                if blen - p0 < 2 || blen - p0 - 2 < vl {
                    proof {
                        assert(s.len() < end + 2 + v + 2);
                        assert(scan_frame(s) == ScanOut::Needs(end + 2 + v + 2));
                    }
                    return Err(RespError::NotComplete);
                }
                let t0 = byte_at(buf, p0 + vl);
                let t1 = byte_at(buf, p0 + vl + 1);
                proof {
                    assert(s.len() >= end + 2 + v + 2);
                    assert(s[end + 2 + v] == t0);
                    assert(s[end + 2 + v + 1] == t1);
                }
                if !(t0 == 13 && t1 == 10) {
                    proof {
                        assert(scan_frame(s) == ScanOut::BadLen);
                    }
                    return Err(RespError::InvalidFrameLength);
                }
                let mut data: Vec<u8> = Vec::new();
                let mut i2: usize = 0;
                while i2 < vl
                    invariant
                        i2 <= vl,
                        buf@.len() == blen,
                        p0 + vl + 2 <= buf@.len(),
                        data@ == buf@.subrange(p0 as int, p0 + i2),
                    decreases vl - i2,
                {
                    data.push(byte_at(buf, p0 + i2));
                    proof {
                        assert(buf@.subrange(p0 as int, p0 + i2 + 1) =~= buf@.subrange(
                            p0 as int,
                            p0 + i2,
                        ).push(buf@[p0 + i2]));
                    }
                    i2 += 1;
                }
                let f = RespFrame::BulkString(BulkString { data: Some(data) });
                proof {
                    assert(data@ =~= s.subrange(end + 2, end + 2 + v));
                    assert(scan_frame(s) == ScanOut::Done(
                        FrameModel::Bulk(Some(s.subrange(end + 2, end + 2 + v))),
                        end + 2 + v + 2,
                    ));
                }
                return Ok((f, end + 2 + vl + 2));
            },
        }
    } else if b0 == 42 {
        if is_null_at(buf, pos, 42) {
            proof {
                assert(seq![42u8, 45u8, 49u8, 13u8, 10u8] =~= crate::model::null_arr());
                assert(s.len() >= 5);
            }
            return Ok((RespFrame::Array(RespArray { items: None }), 5));
        }
        proof {
            assert(seq![42u8, 45u8, 49u8, 13u8, 10u8] =~= crate::model::null_arr());
        }
        match scan_header_at(buf, pos) {
            Err(e) => {
                proof {
                    match scan_header(s) {
                        HeaderOut::HShort => assert(scan_frame(s) == ScanOut::Partial),
                        HeaderOut::HBad => assert(scan_frame(s) == ScanOut::BadLen),
                        HeaderOut::HFound(end, v) => assert(false),
                    }
                }
                return Err(e);
            },
            Ok((end, k)) => {
                let base = pos + end + 2;
                let ghost s_it = buf@.skip(base as int);
                proof {
                    assert(s_it =~= s.skip(end + 2));
                    assert(base <= blen);
                    assert(scan_items(s_it, k as int) == items_prepend(
                        frames_view(Seq::empty()),
                        0,
                        scan_items(buf@.skip(base as int), k as int),
                    ));
                }
                let mut frames: Vec<RespFrame> = Vec::new();
                let mut cur: usize = base;
                let mut j: u32 = 0;
                while j < k
                    invariant
                        pos < buf@.len(),
                        buf@.len() == blen,
                        s == buf@.skip(pos as int),
                        s.len() > 0,
                        s[0] == 42,
                        base == pos + end + 2,
                        base <= cur <= blen,
                        1 <= end <= 16,
                        pos + end + 1 < blen,
                        j <= k,
                        frames@.len() == j,
                        s_it == s.skip(end + 2),
                        s_it == buf@.skip(base as int),
                        scan_header(s) == HeaderOut::HFound(end as int, k as int),
                        !crate::model::null_arr().is_prefix_of(s),
                        scan_items(s_it, k as int) == items_prepend(
                            frames_view(frames@),
                            cur - base,
                            scan_items(buf@.skip(cur as int), k - j),
                        ),
                    decreases k - j,
                {
                    let ghost sub_sc = scan_frame(buf@.skip(cur as int));
                    match parse_at(buf, cur) {
                        Err(e) => {
                            proof {
                                assert(k - j >= 1);
                                match sub_sc {
                                    ScanOut::Needs(n) => {
                                        if k - j == 1 {
                                            assert(scan_items(buf@.skip(cur as int), k - j)
                                                == ItemsOut::INeeds(n));
                                            assert(scan_frame(s) == ScanOut::Needs(
                                                end + 2 + (cur - base) + n,
                                            ));
                                        } else {
                                            assert(scan_frame(s) == ScanOut::Partial);
                                        }
                                    },
                                    ScanOut::Partial => {
                                        assert(scan_frame(s) == ScanOut::Partial);
                                    },
                                    ScanOut::BadType => {
                                        assert(scan_frame(s) == ScanOut::BadType);
                                    },
                                    ScanOut::BadLen => {
                                        assert(scan_frame(s) == ScanOut::BadLen);
                                    },
                                    ScanOut::Done(ff, mm) => {
                                        assert(false);
                                    },
                                }
                            }
                            return Err(e);
                        },
                        Ok((f, m)) => {
                            proof {
                                assert(sub_sc == ScanOut::Done(frame_view(f), m as int));
                                assert(m <= blen - cur);
                                assert(buf@.skip(cur as int).len() == blen - cur);
                                assert(buf@.skip(cur as int).skip(m as int) =~= buf@.skip(
                                    (cur + m) as int,
                                ));
                                assert(scan_items(buf@.skip(cur as int), k - j) == items_prepend(
                                    seq![frame_view(f)],
                                    m as int,
                                    scan_items(buf@.skip((cur + m) as int), k - j - 1),
                                ));
                                crate::model::lemma_items_prepend_compose(
                                    frames_view(frames@),
                                    cur - base,
                                    seq![frame_view(f)],
                                    m as int,
                                    scan_items(buf@.skip((cur + m) as int), k - j - 1),
                                );
                                crate::frame::lemma_frames_view_push(frames@, f);
                            }
                            frames.push(f);
                            cur = cur + m;
                            j = j + 1;
                        },
                    }
                }
                proof {
                    assert(scan_items(buf@.skip(cur as int), 0) == ItemsOut::IDone(
                        Seq::empty(),
                        0,
                    ));
                    assert(frames_view(frames@) + Seq::<FrameModel>::empty() =~= frames_view(
                        frames@,
                    ));
                    assert(scan_items(s_it, k as int) == ItemsOut::IDone(
                        frames_view(frames@),
                        cur - base,
                    ));
                    assert(end + 2 <= s.len());
                    assert(scan_frame(s) == ScanOut::Done(
                        FrameModel::Arr(Some(frames_view(frames@))),
                        end + 2 + (cur - base),
                    ));
                }
                return Ok((RespFrame::Array(RespArray { items: Some(frames) }), cur - pos));
            },
        }
    } else {
        return Err(RespError::InvalidFrameType);
    }
}

/// Computes how many bytes the frame starting at `pos` will occupy once
/// complete, from its headers alone, without decoding or consuming.
fn len_at(buf: &[u8], pos: usize) -> (r: Result<usize, RespError>)
    requires
        pos <= buf@.len(),
    ensures
        ({
            let es = crate::model::expect_spec(buf@.skip(pos as int));
            &&& (r matches Ok(n) ==> es == Ok::<int, RespError>(n as int))
            &&& (r matches Err(e) ==> es == Err::<int, RespError>(e))
        }),
    decreases buf@.len() - pos,
{
    let blen: usize = buf.len();
    let ghost s = buf@.skip(pos as int);
    proof {
        assert(buf@.len() == blen);
        assert(forall|q: int| 0 <= q < s.len() ==> s[q] == buf@[pos + q]);
    }
    if pos == blen {
        proof {
            assert(s.len() == 0);
        }
        return Err(RespError::NotComplete);
    }
    let b0 = byte_at(buf, pos);
    proof {
        assert(s[0] == b0);
    }
    if b0 == 36 {
        if is_null_at(buf, pos, 36) {
            proof {
                assert(seq![36u8, 45u8, 49u8, 13u8, 10u8] =~= crate::model::null_bulk());
                assert(s.len() >= 5);
            }
            return Ok(5);
        }
        proof {
            assert(seq![36u8, 45u8, 49u8, 13u8, 10u8] =~= crate::model::null_bulk());
        }
        match scan_header_at(buf, pos) {
            Err(e) => {
                proof {
                    match scan_header(s) {
                        HeaderOut::HShort => assert(scan_frame(s) == ScanOut::Partial),
                        HeaderOut::HBad => assert(scan_frame(s) == ScanOut::BadLen),
                        HeaderOut::HFound(end, v) => assert(false),
                    }
                }
                return Err(e);
            },
            Ok((end, v)) => {
                let vl = v as usize;
                let p0 = pos + end + 2;
                let total = end + 2 + vl + 2;
                proof {
                    assert(p0 <= blen);
                }
                if blen - p0 < 2 || blen - p0 - 2 < vl {
                    proof {
                        assert(s.len() < end + 2 + v + 2);
                        assert(scan_frame(s) == ScanOut::Needs(end + 2 + v + 2));
                    }
                    return Ok(total);
                }
                let t0 = byte_at(buf, p0 + vl);
                let t1 = byte_at(buf, p0 + vl + 1);
                proof {
                    assert(s.len() >= end + 2 + v + 2);
                    assert(s[end + 2 + v] == t0);
                    assert(s[end + 2 + v + 1] == t1);
                }
                if !(t0 == 13 && t1 == 10) {
                    proof {
                        assert(scan_frame(s) == ScanOut::BadLen);
                    }
                    return Err(RespError::InvalidFrameLength);
                }
                proof {
                    assert(scan_frame(s) matches ScanOut::Done(f, n) && n == end + 2 + v + 2);
                }
                return Ok(total);
            },
        }
    } else if b0 == 42 {
        if is_null_at(buf, pos, 42) {
            proof {
                assert(seq![42u8, 45u8, 49u8, 13u8, 10u8] =~= crate::model::null_arr());
                assert(s.len() >= 5);
            }
            return Ok(5);
        }
        proof {
            assert(seq![42u8, 45u8, 49u8, 13u8, 10u8] =~= crate::model::null_arr());
        }
        match scan_header_at(buf, pos) {
            Err(e) => {
                proof {
                    match scan_header(s) {
                        HeaderOut::HShort => assert(scan_frame(s) == ScanOut::Partial),
                        HeaderOut::HBad => assert(scan_frame(s) == ScanOut::BadLen),
                        HeaderOut::HFound(end, v) => assert(false),
                    }
                }
                return Err(e);
            },
            Ok((end, k)) => {
                let base = pos + end + 2;
                let ghost s_it = buf@.skip(base as int);
                let ghost mut fs_acc: Seq<FrameModel> = Seq::empty();
                proof {
                    assert(s_it =~= s.skip(end + 2));
                    assert(base <= blen);
                    assert(scan_items(s_it, k as int) == items_prepend(
                        fs_acc,
                        0,
                        scan_items(buf@.skip(base as int), k as int),
                    ));
                }
                let mut cur: usize = base;
                let mut j: u32 = 0;
                while j < k
                    invariant
                        pos < buf@.len(),
                        buf@.len() == blen,
                        s == buf@.skip(pos as int),
                        s.len() > 0,
                        s[0] == 42,
                        base == pos + end + 2,
                        base <= cur <= blen,
                        1 <= end <= 16,
                        pos + end + 1 < blen,
                        j <= k,
                        s_it == s.skip(end + 2),
                        s_it == buf@.skip(base as int),
                        scan_header(s) == HeaderOut::HFound(end as int, k as int),
                        !crate::model::null_arr().is_prefix_of(s),
                        scan_items(s_it, k as int) == items_prepend(
                            fs_acc,
                            cur - base,
                            scan_items(buf@.skip(cur as int), k - j),
                        ),
                    decreases k - j,
                {
                    let ghost sub_sc = scan_frame(buf@.skip(cur as int));
                    proof {
                        lemma_scan_bounds(buf@.skip(cur as int));
                        assert(buf@.skip(cur as int).len() == blen - cur);
                    }
                    match len_at(buf, cur) {
                        Err(e) => {
                            proof {
                                assert(k - j >= 1);
                                match sub_sc {
                                    ScanOut::Needs(n) => {
                                        assert(e == RespError::NotComplete);
                                        assert(n > usize::MAX);
                                        if k - j == 1 {
                                            assert(scan_items(buf@.skip(cur as int), k - j)
                                                == ItemsOut::INeeds(n));
                                            assert(scan_frame(s) == ScanOut::Needs(
                                                end + 2 + (cur - base) + n,
                                            ));
                                            assert(end + 2 + (cur - base) + n > usize::MAX);
                                        } else {
                                            assert(scan_frame(s) == ScanOut::Partial);
                                        }
                                    },
                                    ScanOut::Partial => {
                                        assert(scan_frame(s) == ScanOut::Partial);
                                    },
                                    ScanOut::BadType => {
                                        assert(scan_frame(s) == ScanOut::BadType);
                                    },
                                    ScanOut::BadLen => {
                                        assert(scan_frame(s) == ScanOut::BadLen);
                                    },
                                    ScanOut::Done(ff, mm) => {
                                        assert(false);
                                    },
                                }
                            }
                            return Err(e);
                        },
                        Ok(m) => {
                            if m <= blen - cur {
                                proof {
                                    assert(sub_sc matches ScanOut::Done(ff, mm) && mm == m as int)
                                        by {
                                        match sub_sc {
                                            ScanOut::Done(ff, mm) => {},
                                            ScanOut::Needs(n) => {
                                                assert(n > blen - cur);
                                            },
                                            _ => {},
                                        }
                                    }
                                    let ff = sub_sc->Done_0;
                                    assert(buf@.skip(cur as int).skip(m as int) =~= buf@.skip(
                                        (cur + m) as int,
                                    ));
                                    assert(scan_items(buf@.skip(cur as int), k - j)
                                        == items_prepend(
                                        seq![ff],
                                        m as int,
                                        scan_items(buf@.skip((cur + m) as int), k - j - 1),
                                    ));
                                    crate::model::lemma_items_prepend_compose(
                                        fs_acc,
                                        cur - base,
                                        seq![ff],
                                        m as int,
                                        scan_items(buf@.skip((cur + m) as int), k - j - 1),
                                    );
                                    fs_acc = fs_acc + seq![ff];
                                }
                                cur = cur + m;
                                j = j + 1;
                            } else {
                                proof {
                                    assert(sub_sc == ScanOut::Needs(m as int)) by {
                                        match sub_sc {
                                            ScanOut::Done(ff, mm) => {
                                                assert(mm <= blen - cur);
                                            },
                                            _ => {},
                                        }
                                    }
                                }
                                if j + 1 == k {
                                    let tot: u128 = (cur - pos) as u128 + m as u128;
                                    proof {
                                        assert(scan_items(buf@.skip(cur as int), 1)
                                            == ItemsOut::INeeds(m as int));
                                        assert(scan_frame(s) == ScanOut::Needs(
                                            end + 2 + (cur - base) + m,
                                        ));
                                        assert(end + 2 + (cur - base) == cur - pos);
                                    }
                                    if tot > usize::MAX as u128 {
                                        return Err(RespError::NotComplete);
                                    } else {
                                        return Ok(tot as usize);
                                    }
                                } else {
                                    proof {
                                        assert(k - j > 1);
                                        assert(scan_items(buf@.skip(cur as int), k - j)
                                            == ItemsOut::IPartial);
                                        assert(scan_frame(s) == ScanOut::Partial);
                                    }
                                    return Err(RespError::NotComplete);
                                }
                            }
                        },
                    }
                }
                proof {
                    assert(scan_items(buf@.skip(cur as int), 0) == ItemsOut::IDone(
                        Seq::empty(),
                        0,
                    ));
                    assert(fs_acc + Seq::<FrameModel>::empty() =~= fs_acc);
                    assert(scan_items(s_it, k as int) == ItemsOut::IDone(fs_acc, cur - base));
                    assert(end + 2 <= s.len());
                    assert(scan_frame(s) == ScanOut::Done(
                        FrameModel::Arr(Some(fs_acc)),
                        end + 2 + (cur - base),
                    ));
                }
                return Ok(cur - pos);
            },
        }
    } else {
        return Err(RespError::InvalidFrameType);
    }
}

impl RespFrame {
    /// Decodes one frame from the front of the stream buffer, dispatching
    /// on the leading type byte. On success exactly the frame's bytes are
    /// consumed; on any failure — `NotComplete` included — the buffer is
    /// left untouched, so the call can be retried once more bytes arrive.
    pub fn decode(buf: &mut bytes::BytesMut) -> (r: Result<RespFrame, RespError>)
        ensures
            ({
                let s = bytes_model(*old(buf));
                let sc = scan_frame(s);
                &&& (r matches Ok(f) ==> sc == ScanOut::Done(frame_view(f), sc->Done_1)
                    && bytes_model(*final(buf)) == s.skip(sc->Done_1))
                &&& (r matches Err(e) ==> bytes_model(*final(buf)) == s && !(sc matches ScanOut::Done(
                    _,
                    _,
                )) && e == scan_err(sc))
            }),
    {
        let parsed = {
            let sl = buf_as_slice(buf);
            proof {
                assert(sl@.skip(0) =~= sl@);
            }
            parse_at(sl, 0)
        };
        match parsed {
            Ok((f, n)) => {
                buf_advance(buf, n);
                Ok(f)
            },
            Err(e) => Err(e),
        }
    }

    /// Reports how many bytes the frame at the front of `buf` will occupy
    /// once fully received, from its headers alone; agrees exactly with
    /// what `decode` consumes whenever a complete frame is present.
    pub fn expect_length(buf: &[u8]) -> (r: Result<usize, RespError>)
        ensures
            ({
                let es = crate::model::expect_spec(buf@);
                &&& (r matches Ok(n) ==> es == Ok::<int, RespError>(n as int))
                &&& (r matches Err(e) ==> es == Err::<int, RespError>(e))
            }),
    {
        proof {
            assert(buf@.skip(0) =~= buf@);
        }
        len_at(buf, 0)
    }
}

impl BulkString {
    /// Decodes a bulk string frame from the front of the stream buffer;
    /// a leading byte other than `$` is `InvalidFrameType`. The buffer is
    /// consumed only on success.
    pub fn decode(buf: &mut bytes::BytesMut) -> (r: Result<BulkString, RespError>)
        ensures
            ({
                let s = bytes_model(*old(buf));
                let sc = scan_frame(s);
                &&& (r matches Ok(b) ==> sc == ScanOut::Done(
                    FrameModel::Bulk(crate::frame::bulk_view(b)),
                    sc->Done_1,
                ) && bytes_model(*final(buf)) == s.skip(sc->Done_1))
                &&& (r matches Err(e) ==> bytes_model(*final(buf)) == s && (if s.len() > 0 && s[0]
                    != 36 {
                    e == RespError::InvalidFrameType
                } else {
                    !(sc matches ScanOut::Done(_, _)) && e == scan_err(sc)
                }))
            }),
    {
        let parsed = {
            let sl = buf_as_slice(buf);
            proof {
                assert(sl@.skip(0) =~= sl@);
            }
            if sl.len() > 0 && byte_at(sl, 0) != 36 {
                Err(RespError::InvalidFrameType)
            } else {
                parse_at(sl, 0)
            }
        };
        match parsed {
            Ok((f, n)) => {
                buf_advance(buf, n);
                match f {
                    RespFrame::BulkString(b) => Ok(b),
                    RespFrame::Array(a) => {
                        proof {
                            assert(false);
                        }
                        Err(RespError::InvalidFrameType)
                    },
                }
            },
            Err(e) => Err(e),
        }
    }

    /// The expected total length of the bulk string frame at the front of
    /// `buf`; a leading byte other than `$` is `InvalidFrameType`.
    pub fn expect_length(buf: &[u8]) -> (r: Result<usize, RespError>)
        ensures
            ({
                let es = crate::model::expect_spec(buf@);
                &&& (buf@.len() > 0 && buf@[0] != 36 ==> r == Err::<usize, RespError>(
                    RespError::InvalidFrameType,
                ))
                &&& (!(buf@.len() > 0 && buf@[0] != 36) ==> {
                    &&& (r matches Ok(n) ==> es == Ok::<int, RespError>(n as int))
                    &&& (r matches Err(e) ==> es == Err::<int, RespError>(e))
                })
            }),
    {
        proof {
            assert(buf@.skip(0) =~= buf@);
        }
        if buf.len() > 0 && byte_at(buf, 0) != 36 {
            Err(RespError::InvalidFrameType)
        } else {
            len_at(buf, 0)
        }
    }
}

impl RespArray {
    /// Decodes an array frame from the front of the stream buffer; a
    /// leading byte other than `*` is `InvalidFrameType`. The buffer is
    /// consumed only on success.
    pub fn decode(buf: &mut bytes::BytesMut) -> (r: Result<RespArray, RespError>)
        ensures
            ({
                let s = bytes_model(*old(buf));
                let sc = scan_frame(s);
                &&& (r matches Ok(a) ==> sc == ScanOut::Done(
                    FrameModel::Arr(crate::frame::arr_view(a)),
                    sc->Done_1,
                ) && bytes_model(*final(buf)) == s.skip(sc->Done_1))
                &&& (r matches Err(e) ==> bytes_model(*final(buf)) == s && (if s.len() > 0 && s[0]
                    != 42 {
                    e == RespError::InvalidFrameType
                } else {
                    !(sc matches ScanOut::Done(_, _)) && e == scan_err(sc)
                }))
            }),
    {
        let parsed = {
            let sl = buf_as_slice(buf);
            proof {
                assert(sl@.skip(0) =~= sl@);
            }
            if sl.len() > 0 && byte_at(sl, 0) != 42 {
                Err(RespError::InvalidFrameType)
            } else {
                parse_at(sl, 0)
            }
        };
        match parsed {
            Ok((f, n)) => {
                buf_advance(buf, n);
                match f {
                    RespFrame::Array(a) => Ok(a),
                    RespFrame::BulkString(b) => {
                        proof {
                            assert(false);
                        }
                        Err(RespError::InvalidFrameType)
                    },
                }
            },
            Err(e) => Err(e),
        }
    }

    /// The expected total length of the array frame at the front of
    /// `buf`; a leading byte other than `*` is `InvalidFrameType`.
    pub fn expect_length(buf: &[u8]) -> (r: Result<usize, RespError>)
        ensures
            ({
                let es = crate::model::expect_spec(buf@);
                &&& (buf@.len() > 0 && buf@[0] != 42 ==> r == Err::<usize, RespError>(
                    RespError::InvalidFrameType,
                ))
                &&& (!(buf@.len() > 0 && buf@[0] != 42) ==> {
                    &&& (r matches Ok(n) ==> es == Ok::<int, RespError>(n as int))
                    &&& (r matches Err(e) ==> es == Err::<int, RespError>(e))
                })
            }),
    {
        proof {
            assert(buf@.skip(0) =~= buf@);
        }
        if buf.len() > 0 && byte_at(buf, 0) != 42 {
            Err(RespError::InvalidFrameType)
        } else {
            len_at(buf, 0)
        }
    }
}

} // verus!
