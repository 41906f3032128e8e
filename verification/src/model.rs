//! The mathematical model of the wire format: what a frame is, what bytes
//! encode it, and what a scan of a byte prefix yields.
//!
//! `encode_frame` is the one canonical encoding of a frame. `scan_frame`
//! is the decoding relation: given the bytes from a frame's first byte
//! onward, it says whether a complete frame is present (and which one, and
//! how many bytes it occupies), whether more bytes are needed (with the
//! exact total when the headers already determine it), or whether the
//! stream is malformed. The executable codec is specified against these
//! two functions alone.
use vstd::prelude::*;

verus! {

/// Declared lengths and element counts are capped: a header whose value
/// exceeds this bound is rejected as malformed rather than buffered for.
pub const LEN_MAX: u32 = 0x7fff_ffff;

/// A header's CRLF terminator must sit within this bounded lookahead
/// (byte index of the '\r'), which is ample for any capped length.
pub const HEADER_END_MAX: u32 = 16;

/// A protocol value: a bulk string or an array, each with a distinguished
/// null state carried as an explicit tag, never inferred from payload bytes.
pub enum FrameModel {
    Bulk(Option<Seq<u8>>),
    Arr(Option<Seq<FrameModel>>),
}

/// Outcome of scanning for one frame at the start of a byte sequence.
pub enum ScanOut {
    /// A complete frame, occupying exactly the given prefix length.
    Done(FrameModel, int),
    /// Incomplete, but the headers seen so far fix the total length.
    Needs(int),
    /// Incomplete, and the total length is not yet determined.
    Partial,
    /// The leading byte is not a known frame type.
    BadType,
    /// The length header is malformed.
    BadLen,
}

/// Outcome of scanning a run of consecutive frames (array elements).
pub enum ItemsOut {
    IDone(Seq<FrameModel>, int),
    INeeds(int),
    IPartial,
    IBadType,
    IBadLen,
}

/// Outcome of locating a header's CRLF terminator.
pub enum CrlfScan {
    FoundAt(int),
    Short,
    TooFar,
}

/// Outcome of parsing a complete length header.
pub enum HeaderOut {
    /// Index of the '\r' and the parsed non-negative value.
    HFound(int, int),
    HShort,
    HBad,
}

pub open spec fn crlf() -> Seq<u8> {
    seq![13u8, 10u8]
}

/// The canonical null bulk string encoding `$-1\r\n`.
pub open spec fn null_bulk() -> Seq<u8> {
    seq![36u8, 45u8, 49u8, 13u8, 10u8]
}

/// The canonical null array encoding `*-1\r\n`.
pub open spec fn null_arr() -> Seq<u8> {
    seq![42u8, 45u8, 49u8, 13u8, 10u8]
}

pub open spec fn is_digit(b: u8) -> bool {
    48 <= b <= 57
}

pub open spec fn all_digits(d: Seq<u8>) -> bool {
    forall|i: int| 0 <= i < d.len() ==> is_digit(#[trigger] d[i])
}

/// The value of a digit string, most significant digit first.
pub open spec fn digits_val(d: Seq<u8>) -> int
    decreases d.len(),
{
    if d.len() == 0 {
        0
    } else {
        digits_val(d.drop_last()) * 10 + (d.last() - 48)
    }
}

/// A canonical decimal length field: digits only, no leading zero, and a
/// value within the accepted bound.
pub open spec fn canonical_digits(d: Seq<u8>) -> bool {
    &&& 1 <= d.len() <= 10
    &&& all_digits(d)
    &&& (d.len() > 1 ==> d[0] != 48)
    &&& digits_val(d) <= LEN_MAX
}

/// The canonical decimal digits of a non-negative value.
pub open spec fn dec_digits(v: nat) -> Seq<u8>
    decreases v,
{
    if v < 10 {
        seq![(48 + v) as u8]
    } else {
        dec_digits(v / 10).push((48 + v % 10) as u8)
    }
}

/// Looks for the first CRLF whose '\r' lies at index `i` or later, within
/// the bounded lookahead.
pub open spec fn find_crlf(s: Seq<u8>, i: int) -> CrlfScan
    decreases HEADER_END_MAX + 1 - i when 1 <= i <= HEADER_END_MAX + 1
{
    if i > HEADER_END_MAX {
        CrlfScan::TooFar
    } else if i + 1 >= s.len() {
        CrlfScan::Short
    } else if s[i] == 13 && s[i + 1] == 10 {
        CrlfScan::FoundAt(i)
    } else {
        find_crlf(s, i + 1)
    }
}

/// Parses the length header of a frame whose type byte sits at index 0:
/// the terminator position and the decimal value between them.
pub open spec fn scan_header(s: Seq<u8>) -> HeaderOut {
    match find_crlf(s, 1) {
        CrlfScan::Short => HeaderOut::HShort,
        CrlfScan::TooFar => HeaderOut::HBad,
        CrlfScan::FoundAt(end) => {
            let d = s.subrange(1, end);
            if canonical_digits(d) {
                HeaderOut::HFound(end, digits_val(d))
            } else {
                HeaderOut::HBad
            }
        },
    }
}

/// Scans for one frame at the start of `s`; `s` may hold trailing bytes
/// beyond the frame, which are never examined.
pub open spec fn scan_frame(s: Seq<u8>) -> ScanOut
    decreases s.len(), 2int, 0int,
{
    if s.len() == 0 {
        ScanOut::Partial
    } else if s[0] == 36 {
        scan_bulk(s)
    } else if s[0] == 42 {
        scan_arr(s)
    } else {
        ScanOut::BadType
    }
}

/// Scans a bulk string frame (`s[0]` is `$`).
pub open spec fn scan_bulk(s: Seq<u8>) -> ScanOut
    decreases s.len(), 1int, 0int,
{
    if null_bulk().is_prefix_of(s) {
        ScanOut::Done(FrameModel::Bulk(None), 5)
    } else {
        match scan_header(s) {
            HeaderOut::HShort => ScanOut::Partial,
            HeaderOut::HBad => ScanOut::BadLen,
            HeaderOut::HFound(end, v) => {
                let total = end + 2 + v + 2;
                if s.len() < total {
                    ScanOut::Needs(total)
                } else if s[total - 2] == 13 && s[total - 1] == 10 {
                    ScanOut::Done(FrameModel::Bulk(Some(s.subrange(end + 2, end + 2 + v))), total)
                } else {
                    ScanOut::BadLen
                }
            },
        }
    }
}

/// Scans an array frame (`s[0]` is `*`).
pub open spec fn scan_arr(s: Seq<u8>) -> ScanOut
    decreases s.len(), 1int, 0int,
{
    if null_arr().is_prefix_of(s) {
        ScanOut::Done(FrameModel::Arr(None), 5)
    } else {
        match scan_header(s) {
            HeaderOut::HShort => ScanOut::Partial,
            HeaderOut::HBad => ScanOut::BadLen,
            HeaderOut::HFound(end, k) => {
                if 1 <= end && end + 2 <= s.len() {
                    match scan_items(s.skip(end + 2), k) {
                        ItemsOut::IDone(items, t) => ScanOut::Done(
                            FrameModel::Arr(Some(items)),
                            end + 2 + t,
                        ),
                        ItemsOut::INeeds(t) => ScanOut::Needs(end + 2 + t),
                        ItemsOut::IPartial => ScanOut::Partial,
                        ItemsOut::IBadType => ScanOut::BadType,
                        ItemsOut::IBadLen => ScanOut::BadLen,
                    }
                } else {
                    // never reached: a found terminator lies within the buffer
                    ScanOut::BadLen
                }
            },
        }
    }
}

/// Scans `k` consecutive frames at the start of `s`. The total is known
/// exactly when every element but possibly the last is complete.
pub open spec fn scan_items(s: Seq<u8>, k: int) -> ItemsOut
    decreases s.len(), 2int, k,
{
    if k <= 0 {
        ItemsOut::IDone(Seq::empty(), 0)
    } else {
        match scan_frame(s) {
            ScanOut::Done(f, m) => {
                if 0 < m <= s.len() {
                    match scan_items(s.skip(m), k - 1) {
                        ItemsOut::IDone(fs, t) => ItemsOut::IDone(seq![f] + fs, m + t),
                        ItemsOut::INeeds(t) => ItemsOut::INeeds(m + t),
                        other => other,
                    }
                } else {
                    // never reached: a complete frame fits in the buffer
                    ItemsOut::IBadLen
                }
            },
            ScanOut::Needs(n) => if k == 1 {
                ItemsOut::INeeds(n)
            } else {
                ItemsOut::IPartial
            },
            ScanOut::Partial => ItemsOut::IPartial,
            ScanOut::BadType => ItemsOut::IBadType,
            ScanOut::BadLen => ItemsOut::IBadLen,
        }
    }
}

/// The canonical encoding of a frame.
pub open spec fn encode_frame(f: FrameModel) -> Seq<u8>
    decreases f,
{
    match f {
        FrameModel::Bulk(None) => null_bulk(),
        FrameModel::Bulk(Some(d)) => seq![36u8] + dec_digits(d.len()) + crlf() + d + crlf(),
        FrameModel::Arr(None) => null_arr(),
        FrameModel::Arr(Some(items)) => seq![42u8] + dec_digits(items.len()) + crlf()
            + encode_items(items),
    }
}

/// The concatenation of the encodings of a run of frames.
pub open spec fn encode_items(items: Seq<FrameModel>) -> Seq<u8>
    decreases items,
{
    if items.len() == 0 {
        Seq::empty()
    } else {
        encode_frame(items.first()) + encode_items(items.drop_first())
    }
}

/// A frame whose lengths and element counts all lie within the accepted
/// bound; every frame the codec can decode or hold satisfies this.
pub open spec fn frame_ok(f: FrameModel) -> bool
    decreases f,
{
    match f {
        FrameModel::Bulk(None) => true,
        FrameModel::Bulk(Some(d)) => d.len() <= LEN_MAX,
        FrameModel::Arr(None) => true,
        FrameModel::Arr(Some(items)) => items.len() <= LEN_MAX && (forall|i: int|
            0 <= i < items.len() ==> frame_ok(#[trigger] items[i])),
    }
}

/// Joins a run of already-scanned elements (their models and total byte
/// count) onto the outcome of scanning the remaining elements.
pub open spec fn items_prepend(fs: Seq<FrameModel>, c: int, out: ItemsOut) -> ItemsOut {
    match out {
        ItemsOut::IDone(fs2, t) => ItemsOut::IDone(fs + fs2, c + t),
        ItemsOut::INeeds(t) => ItemsOut::INeeds(c + t),
        other => other,
    }
}

pub proof fn lemma_items_prepend_compose(
    a: Seq<FrameModel>,
    c: int,
    b: Seq<FrameModel>,
    d: int,
    out: ItemsOut,
)
    ensures
        items_prepend(a, c, items_prepend(b, d, out)) == items_prepend(a + b, c + d, out),
{
    match out {
        ItemsOut::IDone(fs, t) => {
            assert(a + (b + fs) =~= (a + b) + fs);
        },
        _ => {},
    }
}

/// The error a decode attempt reports for a scan that found no complete
/// frame.
pub open spec fn scan_err(sc: ScanOut) -> crate::RespError {
    match sc {
        ScanOut::Needs(n) => crate::RespError::NotComplete,
        ScanOut::Partial => crate::RespError::NotComplete,
        ScanOut::BadType => crate::RespError::InvalidFrameType,
        ScanOut::BadLen => crate::RespError::InvalidFrameLength,
        ScanOut::Done(f, n) => crate::RespError::NotComplete,
    }
}

pub open spec fn pow10(n: nat) -> int
    decreases n,
{
    if n == 0 {
        1
    } else {
        10 * pow10((n - 1) as nat)
    }
}

pub proof fn lemma_pow10_mono(a: nat, b: nat)
    requires
        a <= b,
    ensures
        pow10(a) <= pow10(b),
        pow10(a) >= 1,
    decreases b,
{
    if b > 0 {
        if a == b {
            lemma_pow10_mono((a - 1) as nat, (b - 1) as nat);
        } else {
            lemma_pow10_mono(a, (b - 1) as nat);
        }
    }
}

pub proof fn lemma_digits_val_bounds(d: Seq<u8>)
    requires
        all_digits(d),
    ensures
        0 <= digits_val(d) < pow10(d.len()),
    decreases d.len(),
{
    if d.len() > 0 {
        assert(all_digits(d.drop_last()));
        lemma_digits_val_bounds(d.drop_last());
        assert(is_digit(d.last()));
    }
}

/// What `find_crlf` reports is faithful: a found terminator really is
/// there, within bounds, and is the first one.
pub proof fn lemma_find_crlf(s: Seq<u8>, i: int)
    requires
        1 <= i <= HEADER_END_MAX + 1,
    ensures
        match find_crlf(s, i) {
            CrlfScan::FoundAt(e) => {
                &&& i <= e <= HEADER_END_MAX
                &&& e + 1 < s.len()
                &&& s[e] == 13 && s[e + 1] == 10
                &&& forall|j: int| i <= j < e ==> !(#[trigger] s[j] == 13 && s[j + 1] == 10)
            },
            CrlfScan::Short => s.len() <= HEADER_END_MAX + 2,
            CrlfScan::TooFar => true,
        },
    decreases HEADER_END_MAX + 1 - i,
{
    if i <= HEADER_END_MAX && i + 1 < s.len() && !(s[i] == 13 && s[i + 1] == 10) {
        lemma_find_crlf(s, i + 1);
    }
}

/// A complete frame occupies at least one byte and fits in the buffer; a
/// length-determined incomplete frame extends past the buffer.
pub proof fn lemma_scan_bounds(s: Seq<u8>)
    ensures
        match scan_frame(s) {
            ScanOut::Done(f, n) => 1 <= n <= s.len(),
            ScanOut::Needs(n) => n > s.len(),
            _ => true,
        },
    decreases s.len(), 1int, 0int,
{
    if s.len() > 0 && (s[0] == 36 || s[0] == 42) {
        match scan_header(s) {
            HeaderOut::HFound(end, v) => {
                lemma_find_crlf(s, 1);
                let d = s.subrange(1, end);
                if canonical_digits(d) {
                    lemma_digits_val_bounds(d);
                    if s[0] == 42 && !null_arr().is_prefix_of(s) && 1 <= end && end + 2
                        <= s.len() {
                        lemma_items_bounds(s.skip(end + 2), v);
                    }
                }
            },
            _ => {},
        }
    }
}

pub proof fn lemma_items_bounds(s: Seq<u8>, k: int)
    ensures
        match scan_items(s, k) {
            ItemsOut::IDone(fs, t) => 0 <= t <= s.len() && (k >= 0 ==> fs.len() == k),
            ItemsOut::INeeds(t) => t > s.len(),
            _ => true,
        },
    decreases s.len(), 2int, k,
{
    if k > 0 {
        lemma_scan_bounds(s);
        match scan_frame(s) {
            ScanOut::Done(f, m) => {
                if 0 < m <= s.len() {
                    lemma_items_bounds(s.skip(m), k - 1);
                }
            },
            _ => {},
        }
    }
}

/// What `expect_length` reports for a buffer, as a function of the scan:
/// the exact total of a complete or length-determined frame, or the
/// distinguished incomplete and malformed outcomes.
pub open spec fn expect_spec(s: Seq<u8>) -> Result<int, crate::RespError> {
    match scan_frame(s) {
        ScanOut::Done(f, n) => Ok(n),
        ScanOut::Needs(n) => if n <= usize::MAX {
            Ok(n)
        } else {
            Err(crate::RespError::NotComplete)
        },
        ScanOut::Partial => Err(crate::RespError::NotComplete),
        ScanOut::BadType => Err(crate::RespError::InvalidFrameType),
        ScanOut::BadLen => Err(crate::RespError::InvalidFrameLength),
    }
}

} // verus!
