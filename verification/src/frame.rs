//! The frame types held at run time — bulk strings, arrays, and the frame
//! sum type — with their views into the model and the encoder.
use vstd::prelude::*;

use crate::model::{
    crlf, dec_digits, encode_frame, encode_items, null_arr, null_bulk, FrameModel,
};

verus! {

/// A bulk string: an owned byte payload, or the distinguished null state.
/// Null-ness is an explicit tag, never inferred from the payload bytes.
#[derive(Debug, PartialEq, Eq)]
pub struct BulkString {
    pub data: Option<Vec<u8>>,
}

/// An array of frames, or the distinguished null state; a null array
/// holds no elements.
#[derive(Debug, PartialEq, Eq)]
pub struct RespArray {
    pub items: Option<Vec<RespFrame>>,
}

/// One protocol value.
#[derive(Debug, PartialEq, Eq)]
pub enum RespFrame {
    BulkString(BulkString),
    Array(RespArray),
}

pub open spec fn bulk_view(b: BulkString) -> Option<Seq<u8>> {
    match b.data {
        Some(v) => Some(v@),
        None => None,
    }
}

/// The model of a run-time frame.
pub open spec fn frame_view(f: RespFrame) -> FrameModel
    decreases f,
{
    match f {
        RespFrame::BulkString(b) => FrameModel::Bulk(bulk_view(b)),
        RespFrame::Array(a) => match a.items {
            None => FrameModel::Arr(None),
            Some(v) => FrameModel::Arr(Some(frames_view(v@))),
        },
    }
}

pub open spec fn frames_view(s: Seq<RespFrame>) -> Seq<FrameModel>
    decreases s,
{
    if s.len() == 0 {
        Seq::empty()
    } else {
        seq![frame_view(s.first())] + frames_view(s.drop_first())
    }
}

pub open spec fn arr_view(a: RespArray) -> Option<Seq<FrameModel>> {
    match a.items {
        None => None,
        Some(v) => Some(frames_view(v@)),
    }
}

pub proof fn lemma_frames_view(s: Seq<RespFrame>)
    ensures
        frames_view(s).len() == s.len(),
        forall|i: int| 0 <= i < s.len() ==> frames_view(s)[i] == frame_view(#[trigger] s[i]),
    decreases s.len(),
{
    if s.len() > 0 {
        lemma_frames_view(s.drop_first());
        assert forall|i: int| 0 <= i < s.len() implies frames_view(s)[i] == frame_view(
            #[trigger] s[i],
        ) by {
            if i == 0 {
                assert(s.first() == s[0]);
            } else {
                assert(s.drop_first()[i - 1] == s[i]);
                assert(frames_view(s)[i] == frames_view(s.drop_first())[i - 1]);
            }
        }
    }
}

pub proof fn lemma_frames_view_push(s: Seq<RespFrame>, f: RespFrame)
    ensures
        frames_view(s.push(f)) == frames_view(s) + seq![frame_view(f)],
{
    lemma_frames_view(s.push(f));
    lemma_frames_view(s);
    assert forall|i: int| 0 <= i < s.len() + 1 implies frames_view(s.push(f))[i] == (frames_view(s)
        + seq![frame_view(f)])[i] by {
        assert(s.push(f)[i] == (if i < s.len() {
            s[i]
        } else {
            f
        }));
    }
    assert(frames_view(s.push(f)) =~= frames_view(s) + seq![frame_view(f)]);
}

/// Concatenating runs of frames concatenates their encodings.
pub proof fn lemma_encode_items_concat(s1: Seq<FrameModel>, s2: Seq<FrameModel>)
    ensures
        encode_items(s1 + s2) == encode_items(s1) + encode_items(s2),
    decreases s1.len(),
{
    if s1.len() == 0 {
        assert(s1 + s2 =~= s2);
        assert(encode_items(s1) + encode_items(s2) =~= encode_items(s2));
    } else {
        assert((s1 + s2).drop_first() =~= s1.drop_first() + s2);
        lemma_encode_items_concat(s1.drop_first(), s2);
        assert(encode_items(s1 + s2) =~= encode_items(s1) + encode_items(s2));
    }
}

pub proof fn lemma_encode_items_snoc(fs: Seq<FrameModel>, i: int)
    requires
        0 <= i < fs.len(),
    ensures
        encode_items(fs.take(i + 1)) == encode_items(fs.take(i)) + encode_frame(fs[i]),
{
    let one = seq![fs[i]];
    assert(fs.take(i + 1) =~= fs.take(i) + one);
    lemma_encode_items_concat(fs.take(i), one);
    assert(one.drop_first() =~= Seq::<FrameModel>::empty());
    assert(one.first() == fs[i]);
    assert(encode_items(one) == encode_frame(fs[i]) + encode_items(Seq::<FrameModel>::empty()));
    assert(encode_frame(fs[i]) + Seq::<u8>::empty() =~= encode_frame(fs[i]));
}

/// Appends the canonical decimal digits of `v`.
fn push_decimal(out: &mut Vec<u8>, v: u64)
    ensures
        final(out)@ == old(out)@ + dec_digits(v as nat),
    decreases v,
{
    if v < 10 {
        out.push(48 + v as u8);
        proof {
            assert(out@ =~= old(out)@ + dec_digits(v as nat));
        }
    } else {
        push_decimal(out, v / 10);
        out.push(48 + (v % 10) as u8);
        proof {
            assert((48 + (v % 10) as u8) as u8 == (48 + (v as nat) % 10) as u8);
            assert(out@ =~= old(out)@ + dec_digits(v as nat));
        }
    }
}

/// Appends the bytes of a slice.
fn push_slice(out: &mut Vec<u8>, d: &[u8])
    ensures
        final(out)@ == old(out)@ + d@,
{
    let mut i: usize = 0;
    while i < d.len()
        invariant
            i <= d@.len(),
            out@ == old(out)@ + d@.take(i as int),
        decreases d@.len() - i,
    {
        out.push(*vstd::slice::slice_index_get(d, i));
        proof {
            assert(d@.take(i + 1) =~= d@.take(i as int).push(d@[i as int]));
            assert(out@ =~= old(out)@ + d@.take(i + 1));
        }
        i += 1;
    }
    proof {
        assert(d@.take(d@.len() as int) =~= d@);
    }
}

/// Copies a byte vector.
pub fn copy_bytes(v: &Vec<u8>) -> (r: Vec<u8>)
    ensures
        r@ == v@,
{
    let mut out: Vec<u8> = Vec::new();
    push_slice(&mut out, v.as_slice());
    proof {
        assert(out@ =~= v@);
    }
    out
}

impl BulkString {
    /// A bulk string holding the given payload.
    pub fn new(data: Vec<u8>) -> (r: BulkString)
        ensures
            bulk_view(r) == Some(data@),
    {
        BulkString { data: Some(data) }
    }

    /// The null bulk string.
    pub fn null() -> (r: BulkString)
        ensures
            bulk_view(r) == None::<Seq<u8>>,
    {
        BulkString { data: None }
    }

    /// Encodes this bulk string: `$<len>\r\n<payload>\r\n`, or `$-1\r\n`
    /// for the null state. Total: every frame has exactly one encoding.
    pub fn encode(&self) -> (r: Vec<u8>)
        ensures
            r@ == encode_frame(FrameModel::Bulk(bulk_view(*self))),
    {
        let mut out: Vec<u8> = Vec::new();
        match &self.data {
            None => {
                out.push(36);
                out.push(45);
                out.push(49);
                out.push(13);
                out.push(10);
                proof {
                    assert(out@ =~= null_bulk());
                }
            },
            Some(d) => {
                out.push(36);
                push_decimal(&mut out, d.len() as u64);
                out.push(13);
                out.push(10);
                push_slice(&mut out, d.as_slice());
                out.push(13);
                out.push(10);
                proof {
                    assert(out@ =~= seq![36u8] + dec_digits(d@.len()) + crlf() + d@ + crlf());
                }
            },
        }
        out
    }
}

impl RespArray {
    /// An array of the given elements, or the null array when `is_null`
    /// is set; a null array holds no elements, whatever was passed.
    pub fn new(items: Vec<RespFrame>, is_null: bool) -> (r: RespArray)
        ensures
            is_null ==> arr_view(r) == None::<Seq<FrameModel>>,
            !is_null ==> arr_view(r) == Some(frames_view(items@)),
    {
        if is_null {
            RespArray { items: None }
        } else {
            RespArray { items: Some(items) }
        }
    }

    /// Encodes this array: `*<count>\r\n` followed by each element's own
    /// encoding in order, or `*-1\r\n` for the null state.
    pub fn encode(&self) -> (r: Vec<u8>)
        ensures
            r@ == encode_frame(FrameModel::Arr(arr_view(*self))),
        decreases FrameModel::Arr(arr_view(*self)), 0int,
    {
        let mut out: Vec<u8> = Vec::new();
        match &self.items {
            None => {
                out.push(42);
                out.push(45);
                out.push(49);
                out.push(13);
                out.push(10);
                proof {
                    assert(out@ =~= null_arr());
                }
            },
            Some(items) => {
                out.push(42);
                push_decimal(&mut out, items.len() as u64);
                out.push(13);
                out.push(10);
                let ghost fs = frames_view(items@);
                let ghost hdr = out@;
                proof {
                    lemma_frames_view(items@);
                    assert(hdr + encode_items(fs.take(0)) =~= hdr);
                }
                let mut i: usize = 0;
                while i < items.len()
                    invariant
                        i <= items@.len(),
                        fs == frames_view(items@),
                        fs.len() == items@.len(),
                        forall|j: int| 0 <= j < items@.len() ==> fs[j] == frame_view(
                            #[trigger] items@[j],
                        ),
                        hdr == seq![42u8] + dec_digits(items@.len()) + crlf(),
                        out@ == hdr + encode_items(fs.take(i as int)),
                        arr_view(*self) == Some(fs),
                    decreases items@.len() - i,
                {
                    let el = &items[i];
                    proof {
                        assert(fs[i as int] == frame_view(*el));
                        let m = FrameModel::Arr(arr_view(*self));
                        assert(decreases_to!(m => m->Arr_0));
                        assert(decreases_to!(m->Arr_0 => m->Arr_0->0));
                        assert(m->Arr_0->0 == fs);
                        assert(decreases_to!(fs => fs[i as int]));
                        assert(decreases_to!(m => frame_view(*el)));
                    }
                    let mut enc = el.encode();
                    out.append(&mut enc);
                    proof {
                        lemma_encode_items_snoc(fs, i as int);
                        assert(out@ =~= hdr + encode_items(fs.take(i + 1)));
                    }
                    i += 1;
                }
                proof {
                    assert(fs.take(fs.len() as int) =~= fs);
                }
            },
        }
        out
    }
}

impl RespFrame {
    /// Encodes this frame by dispatching on its variant.
    pub fn encode(&self) -> (r: Vec<u8>)
        ensures
            r@ == encode_frame(frame_view(*self)),
        decreases frame_view(*self), 1int,
    {
        match self {
            RespFrame::BulkString(b) => b.encode(),
            RespFrame::Array(a) => a.encode(),
        }
    }

    /// A structurally equal copy of this frame.
    pub fn duplicate(&self) -> (r: RespFrame)
        ensures
            frame_view(r) == frame_view(*self),
        decreases frame_view(*self), 1int,
    {
        match self {
            RespFrame::BulkString(b) => RespFrame::BulkString(
                match &b.data {
                    None => BulkString { data: None },
                    Some(d) => BulkString { data: Some(copy_bytes(d)) },
                },
            ),
            RespFrame::Array(a) => RespFrame::Array(a.duplicate()),
        }
    }
}

impl RespArray {
    /// A structurally equal copy of this array.
    pub fn duplicate(&self) -> (r: RespArray)
        ensures
            arr_view(r) == arr_view(*self),
        decreases FrameModel::Arr(arr_view(*self)), 0int,
    {
        match &self.items {
            None => RespArray { items: None },
            Some(items) => {
                let ghost fs = frames_view(items@);
                proof {
                    lemma_frames_view(items@);
                }
                let mut acc: Vec<RespFrame> = Vec::new();
                let mut i: usize = 0;
                while i < items.len()
                    invariant
                        i <= items@.len(),
                        fs == frames_view(items@),
                        fs.len() == items@.len(),
                        forall|j: int| 0 <= j < items@.len() ==> fs[j] == frame_view(
                            #[trigger] items@[j],
                        ),
                        acc@.len() == i,
                        forall|j: int| 0 <= j < i ==> frame_view(#[trigger] acc@[j]) == fs[j],
                        arr_view(*self) == Some(fs),
                    decreases items@.len() - i,
                {
                    let el = &items[i];
                    proof {
                        assert(fs[i as int] == frame_view(*el));
                        let m = FrameModel::Arr(arr_view(*self));
                        assert(decreases_to!(m => m->Arr_0));
                        assert(decreases_to!(m->Arr_0 => m->Arr_0->0));
                        assert(m->Arr_0->0 == fs);
                        assert(decreases_to!(fs => fs[i as int]));
                        assert(decreases_to!(m => frame_view(*el)));
                    }
                    let copy = el.duplicate();
                    acc.push(copy);
                    i += 1;
                }
                proof {
                    lemma_frames_view(acc@);
                    assert forall|j: int| 0 <= j < fs.len() implies frames_view(acc@)[j] == fs[j] by {
                        assert(frame_view(acc@[j]) == fs[j]);
                    }
                    assert(frames_view(acc@) =~= fs);
                }
                RespArray { items: Some(acc) }
            },
        }
    }
}

} // verus!
