//! The command layer: validating a decoded array frame into a typed
//! command and executing it against the backend store.
use vstd::prelude::*;

use crate::backend::Backend;
use crate::frame::{
    arr_view, copy_bytes, frames_view, frame_view, lemma_frames_view, BulkString, RespArray,
    RespFrame,
};
use crate::model::FrameModel;

verus! {

/// Why a request array could not be turned into a command. These are
/// per-request failures: the connection survives them.
#[derive(Debug, Clone, Copy, PartialEq, Eq)]
pub enum CommandError {
    WrongCommand,
    WrongNumberOfArguments,
    InvalidArgument,
}

/// Echoes its message back, touching nothing.
#[derive(Debug, PartialEq, Eq)]
pub struct Echo {
    pub msg: Vec<u8>,
}

/// Adds members to the set held under a key.
#[derive(Debug, PartialEq, Eq)]
pub struct SAdd {
    pub key: Vec<u8>,
    pub members: Vec<RespFrame>,
}

/// Asks whether a member belongs to the set held under a key.
#[derive(Debug, PartialEq, Eq)]
pub struct Sismember {
    pub key: Vec<u8>,
    pub value: Vec<u8>,
}

/// Relies on `core::str::from_utf8`: it returns `Ok` exactly on byte
/// strings that are valid UTF-8, the property `vstd::utf8` formalises.
#[verifier::external_body]
fn utf8_check(v: &[u8]) -> (r: bool)
    ensures
        r == vstd::utf8::valid_utf8(v@),
{
    core::str::from_utf8(v).is_ok()
}

pub open spec fn lower(b: u8) -> u8 {
    if 65 <= b <= 90 {
        (b + 32) as u8
    } else {
        b
    }
}

/// ASCII-lowercased bytes: command names match case-insensitively.
pub open spec fn lower_seq(s: Seq<u8>) -> Seq<u8> {
    s.map_values(|b: u8| lower(b))
}

fn eq_ignore_ascii_case(a: &[u8], b: &[u8]) -> (r: bool)
    ensures
        r == (lower_seq(a@) == lower_seq(b@)),
{
    if a.len() != b.len() {
        proof {
            assert(lower_seq(a@).len() != lower_seq(b@).len());
        }
        return false;
    }
    let mut i: usize = 0;
    while i < a.len()
        invariant
            i <= a@.len(),
            a@.len() == b@.len(),
            forall|j: int| 0 <= j < i ==> lower(a@[j]) == lower(b@[j]),
        decreases a@.len() - i,
    {
        let mut x = *vstd::slice::slice_index_get(a, i);
        let mut y = *vstd::slice::slice_index_get(b, i);
        if 65 <= x && x <= 90 {
            x = x + 32;
        }
        if 65 <= y && y <= 90 {
            y = y + 32;
        }
        if x != y {
            proof {
                assert(lower_seq(a@)[i as int] != lower_seq(b@)[i as int]);
            }
            return false;
        }
        i += 1;
    }
    proof {
        assert(lower_seq(a@) =~= lower_seq(b@));
    }
    true
}

pub open spec fn echo_name() -> Seq<u8> {
    seq![101u8, 99u8, 104u8, 111u8]
}

pub open spec fn sadd_name() -> Seq<u8> {
    seq![115u8, 97u8, 100u8, 100u8]
}

pub open spec fn sismember_name() -> Seq<u8> {
    seq![115u8, 105u8, 115u8, 109u8, 101u8, 109u8, 98u8, 101u8, 114u8]
}

fn echo_name_vec() -> (r: Vec<u8>)
    ensures
        r@ == echo_name(),
{
    let mut v: Vec<u8> = Vec::new();
    v.push(101);
    v.push(99);
    v.push(104);
    v.push(111);
    proof {
        assert(v@ =~= echo_name());
    }
    v
}

fn sadd_name_vec() -> (r: Vec<u8>)
    ensures
        r@ == sadd_name(),
{
    let mut v: Vec<u8> = Vec::new();
    v.push(115);
    v.push(97);
    v.push(100);
    v.push(100);
    proof {
        assert(v@ =~= sadd_name());
    }
    v
}

fn sismember_name_vec() -> (r: Vec<u8>)
    ensures
        r@ == sismember_name(),
{
    let mut v: Vec<u8> = Vec::new();
    v.push(115);
    v.push(105);
    v.push(115);
    v.push(109);
    v.push(101);
    v.push(109);
    v.push(98);
    v.push(101);
    v.push(114);
    proof {
        assert(v@ =~= sismember_name());
    }
    v
}

/// Whether the array's first element is a non-null bulk string whose
/// lowercase text is the given command name.
pub open spec fn is_cmd(av: Option<Seq<FrameModel>>, name: Seq<u8>) -> bool {
    &&& av matches Some(items)
    &&& av->0.len() >= 1
    &&& av->0[0] matches FrameModel::Bulk(Some(d)) && lower_seq(d) == lower_seq(name)
}

/// What validation of a request array against a command name and a
/// minimum argument count yields.
pub open spec fn validate_spec(
    av: Option<Seq<FrameModel>>,
    name: Seq<u8>,
    n_args: int,
) -> Result<(), CommandError> {
    if !is_cmd(av, name) {
        Err(CommandError::WrongCommand)
    } else if av->0.len() < n_args + 1 {
        Err(CommandError::WrongNumberOfArguments)
    } else {
        Ok(())
    }
}

/// Checks that the array names the given command, case-insensitively,
/// and carries at least `n_args` arguments after the name.
pub fn validate_command(value: &RespArray, name: &[u8], n_args: usize) -> (r: Result<
    (),
    CommandError,
>)
    ensures
        r == validate_spec(arr_view(*value), name@, n_args as int),
{
    match &value.items {
        None => Err(CommandError::WrongCommand),
        Some(items) => {
            proof {
                lemma_frames_view(items@);
            }
            if items.len() == 0 {
                return Err(CommandError::WrongCommand);
            }
            match &items[0] {
                RespFrame::BulkString(b) => match &b.data {
                    Some(d) => {
                        if !eq_ignore_ascii_case(d.as_slice(), name) {
                            Err(CommandError::WrongCommand)
                        } else if items.len() - 1 < n_args {
                            Err(CommandError::WrongNumberOfArguments)
                        } else {
                            Ok(())
                        }
                    },
                    None => Err(CommandError::WrongCommand),
                },
                _ => Err(CommandError::WrongCommand),
            }
        },
    }
}

/// The elements of a request array after the first `skip_count`, owned;
/// a null array, or one too short, has no arguments to extract.
pub fn extract_args(value: RespArray, skip_count: usize) -> (r: Result<Vec<RespFrame>, CommandError>)
    ensures
        ({
            match arr_view(value) {
                Some(items) => if skip_count <= items.len() {
                    r matches Ok(v) && frames_view(v@) == items.skip(skip_count as int)
                } else {
                    r == Err::<Vec<RespFrame>, CommandError>(CommandError::WrongNumberOfArguments)
                },
                None => r == Err::<Vec<RespFrame>, CommandError>(CommandError::InvalidArgument),
            }
        }),
{
    match value.items {
        None => Err(CommandError::InvalidArgument),
        Some(items) => {
            proof {
                lemma_frames_view(items@);
            }
            if skip_count > items.len() {
                return Err(CommandError::WrongNumberOfArguments);
            }
            let ghost fs = frames_view(items@);
            let mut out: Vec<RespFrame> = Vec::new();
            let mut i: usize = skip_count;
            while i < items.len()
                invariant
                    skip_count <= i <= items@.len(),
                    fs == frames_view(items@),
                    fs.len() == items@.len(),
                    forall|j: int| 0 <= j < items@.len() ==> fs[j] == frame_view(
                        #[trigger] items@[j],
                    ),
                    out@.len() == i - skip_count,
                    forall|j: int| 0 <= j < out@.len() ==> frame_view(#[trigger] out@[j]) == fs[
                        skip_count + j
                    ],
                decreases items@.len() - i,
            {
                let el = &items[i];
                out.push(el.duplicate());
                i += 1;
            }
            proof {
                lemma_frames_view(out@);
                assert forall|j: int| 0 <= j < out@.len() implies frames_view(out@)[j] == fs.skip(
                    skip_count as int,
                )[j] by {
                    assert(frame_view(out@[j]) == fs[skip_count + j]);
                }
                assert(frames_view(out@) =~= fs.skip(skip_count as int));
            }
            Ok(out)
        },
    }
}

/// What parsing an `echo` request yields: the message of
/// `["echo", message]`, or the exact error.
pub open spec fn echo_parse(av: Option<Seq<FrameModel>>) -> Result<Seq<u8>, CommandError> {
    if !is_cmd(av, echo_name()) {
        Err(CommandError::WrongCommand)
    } else {
        let items = av->0;
        if items.len() != 2 {
            Err(CommandError::WrongNumberOfArguments)
        } else {
            match items[1] {
                FrameModel::Bulk(Some(d)) => Ok(d),
                _ => Err(CommandError::InvalidArgument),
            }
        }
    }
}

impl Echo {
    /// Builds an `Echo` from a request array `["echo", message]`: the
    /// message must be one non-null bulk string, taken verbatim.
    pub fn try_from(value: RespArray) -> (r: Result<Echo, CommandError>)
        ensures
            (echo_parse(arr_view(value)) matches Ok(d) ==> r matches Ok(e) && e.msg@ == d),
            (echo_parse(arr_view(value)) matches Err(er) ==> r == Err::<Echo, CommandError>(er)),
    {
        let name = echo_name_vec();
        match validate_command(&value, name.as_slice(), 1) {
            Err(e) => Err(e),
            Ok(()) => match &value.items {
                None => {
                    proof {
                        assert(false);
                    }
                    Err(CommandError::WrongCommand)
                },
                Some(items) => {
                    proof {
                        lemma_frames_view(items@);
                    }
                    if items.len() != 2 {
                        return Err(CommandError::WrongNumberOfArguments);
                    }
                    match &items[1] {
                        RespFrame::BulkString(b) => match &b.data {
                            Some(d) => Ok(Echo { msg: copy_bytes(d) }),
                            None => Err(CommandError::InvalidArgument),
                        },
                        _ => Err(CommandError::InvalidArgument),
                    }
                },
            },
        }
    }

    /// Replies with the message unchanged, as a bulk string; the backend
    /// is untouched.
    pub fn execute(self, _backend: &Backend) -> (r: RespFrame)
        ensures
            frame_view(r) == FrameModel::Bulk(Some(self.msg@)),
    {
        RespFrame::BulkString(BulkString { data: Some(self.msg) })
    }
}

/// What parsing an `sadd` request yields: the UTF-8 key and the member
/// frames of `["sadd", key, member...]`, or the exact error. A missing
/// key, or a key with no member after it, is a construction failure,
/// `InvalidArgument` — not an arity error.
pub open spec fn sadd_parse(av: Option<Seq<FrameModel>>) -> Result<
    (Seq<u8>, Seq<FrameModel>),
    CommandError,
> {
    if !is_cmd(av, sadd_name()) {
        Err(CommandError::WrongCommand)
    } else {
        let items = av->0;
        if items.len() < 3 {
            Err(CommandError::InvalidArgument)
        } else {
            match items[1] {
                FrameModel::Bulk(Some(kd)) => if vstd::utf8::valid_utf8(kd) {
                    Ok((kd, items.skip(2)))
                } else {
                    Err(CommandError::InvalidArgument)
                },
                _ => Err(CommandError::InvalidArgument),
            }
        }
    }
}

impl SAdd {
    /// Builds an `SAdd` from a request array `["sadd", key, member...]`:
    /// the key must be a non-null bulk string holding UTF-8 text, and at
    /// least one member must follow; members are kept as opaque frames.
    pub fn try_from(value: RespArray) -> (r: Result<SAdd, CommandError>)
        ensures
            (sadd_parse(arr_view(value)) matches Ok(p) ==> r matches Ok(c) && c.key@ == p.0
                && frames_view(c.members@) == p.1),
            (sadd_parse(arr_view(value)) matches Err(er) ==> r == Err::<SAdd, CommandError>(er)),
    {
        let name = sadd_name_vec();
        match validate_command(&value, name.as_slice(), 0) {
            Err(e) => Err(e),
            Ok(()) => match &value.items {
                None => {
                    proof {
                        assert(false);
                    }
                    Err(CommandError::WrongCommand)
                },
                Some(items) => {
                    proof {
                        lemma_frames_view(items@);
                    }
                    if items.len() < 3 {
                        return Err(CommandError::InvalidArgument);
                    }
                    let key = match &items[1] {
                        RespFrame::BulkString(b) => match &b.data {
                            Some(kd) => {
                                if !utf8_check(kd.as_slice()) {
                                    return Err(CommandError::InvalidArgument);
                                }
                                copy_bytes(kd)
                            },
                            None => {
                                return Err(CommandError::InvalidArgument);
                            },
                        },
                        _ => {
                            return Err(CommandError::InvalidArgument);
                        },
                    };
                    let ghost fs = frames_view(items@);
                    let mut members: Vec<RespFrame> = Vec::new();
                    let mut i: usize = 2;
                    while i < items.len()
                        invariant
                            2 <= i <= items@.len(),
                            fs == frames_view(items@),
                            fs.len() == items@.len(),
                            forall|j: int| 0 <= j < items@.len() ==> fs[j] == frame_view(
                                #[trigger] items@[j],
                            ),
                            members@.len() == i - 2,
                            forall|j: int| 0 <= j < members@.len() ==> frame_view(
                                #[trigger] members@[j],
                            ) == fs[2 + j],
                        decreases items@.len() - i,
                    {
                        let el = &items[i];
                        members.push(el.duplicate());
                        i += 1;
                    }
                    proof {
                        lemma_frames_view(members@);
                        assert forall|j: int| 0 <= j < members@.len() implies frames_view(
                            members@,
                        )[j] == fs.skip(2)[j] by {
                            assert(frame_view(members@[j]) == fs[2 + j]);
                        }
                        assert(frames_view(members@) =~= fs.skip(2));
                    }
                    Ok(SAdd { key, members })
                },
            },
        }
    }
}

/// What storing one member does: a non-null bulk string holding UTF-8
/// text becomes a field under the key; anything else is skipped, a
/// permissive behaviour kept for wire compatibility.
pub open spec fn member_step(
    m: Map<(Seq<u8>, Seq<u8>), FrameModel>,
    key: Seq<u8>,
    f: FrameModel,
) -> Map<(Seq<u8>, Seq<u8>), FrameModel> {
    match f {
        FrameModel::Bulk(Some(d)) => if vstd::utf8::valid_utf8(d) {
            m.insert((key, d), f)
        } else {
            m
        },
        _ => m,
    }
}

/// The store after adding a run of members under a key, left to right.
pub open spec fn sadd_apply(
    m: Map<(Seq<u8>, Seq<u8>), FrameModel>,
    key: Seq<u8>,
    members: Seq<FrameModel>,
) -> Map<(Seq<u8>, Seq<u8>), FrameModel>
    decreases members.len(),
{
    if members.len() == 0 {
        m
    } else {
        sadd_apply(member_step(m, key, members.first()), key, members.drop_first())
    }
}

proof fn lemma_sadd_apply_snoc(
    m: Map<(Seq<u8>, Seq<u8>), FrameModel>,
    key: Seq<u8>,
    ms: Seq<FrameModel>,
    f: FrameModel,
)
    ensures
        sadd_apply(m, key, ms.push(f)) == member_step(sadd_apply(m, key, ms), key, f),
    decreases ms.len(),
{
    if ms.len() == 0 {
        assert(ms.push(f).first() == f);
        assert(ms.push(f).drop_first() =~= Seq::<FrameModel>::empty());
        assert(sadd_apply(member_step(m, key, f), key, Seq::<FrameModel>::empty())
            == member_step(m, key, f));
        assert(sadd_apply(m, key, ms) == m);
    } else {
        assert(ms.push(f).first() == ms.first());
        assert(ms.push(f).drop_first() =~= ms.drop_first().push(f));
        lemma_sadd_apply_snoc(member_step(m, key, ms.first()), key, ms.drop_first(), f);
    }
}

impl SAdd {
    /// Stores every member that is a non-null, UTF-8 bulk string under
    /// the key, keyed by its own text; other members are skipped. The
    /// reply is the fixed success bulk string `OK`, however many members
    /// were new.
    pub fn execute(self, backend: &mut Backend) -> (r: RespFrame)
        ensures
            final(backend).model() == sadd_apply(
                old(backend).model(),
                self.key@,
                frames_view(self.members@),
            ),
            frame_view(r) == FrameModel::Bulk(Some(seq![79u8, 75u8])),
    {
        let ghost ms = frames_view(self.members@);
        let ghost m0 = backend.model();
        proof {
            lemma_frames_view(self.members@);
            assert(ms.take(0) =~= Seq::<FrameModel>::empty());
        }
        let mut i: usize = 0;
        while i < self.members.len()
            invariant
                i <= self.members@.len(),
                ms == frames_view(self.members@),
                ms.len() == self.members@.len(),
                forall|j: int| 0 <= j < self.members@.len() ==> ms[j] == frame_view(
                    #[trigger] self.members@[j],
                ),
                backend.model() == sadd_apply(m0, self.key@, ms.take(i as int)),
            decreases self.members@.len() - i,
        {
            let mb = &self.members[i];
            match mb {
                RespFrame::BulkString(b) => match &b.data {
                    Some(d) => {
                        if utf8_check(d.as_slice()) {
                            backend.hset(copy_bytes(&self.key), copy_bytes(d), mb.duplicate());
                        }
                    },
                    None => {},
                },
                _ => {},
            }
            proof {
                assert(ms.take(i + 1) =~= ms.take(i as int).push(ms[i as int]));
                lemma_sadd_apply_snoc(m0, self.key@, ms.take(i as int), ms[i as int]);
            }
            i += 1;
        }
        proof {
            assert(ms.take(ms.len() as int) =~= ms);
        }
        let mut ok: Vec<u8> = Vec::new();
        ok.push(79);
        ok.push(75);
        proof {
            assert(ok@ =~= seq![79u8, 75u8]);
        }
        RespFrame::BulkString(BulkString { data: Some(ok) })
    }
}

/// What parsing a `sismember` request yields: the UTF-8 key and member
/// of `["sismember", key, member]`, or the exact error.
pub open spec fn sismember_parse(av: Option<Seq<FrameModel>>) -> Result<
    (Seq<u8>, Seq<u8>),
    CommandError,
> {
    if !is_cmd(av, sismember_name()) {
        Err(CommandError::WrongCommand)
    } else {
        let items = av->0;
        if items.len() != 3 {
            Err(CommandError::WrongNumberOfArguments)
        } else {
            match (items[1], items[2]) {
                (FrameModel::Bulk(Some(kd)), FrameModel::Bulk(Some(md))) => if vstd::utf8::valid_utf8(
                    kd,
                ) && vstd::utf8::valid_utf8(md) {
                    Ok((kd, md))
                } else {
                    Err(CommandError::InvalidArgument)
                },
                _ => Err(CommandError::InvalidArgument),
            }
        }
    }
}

impl Sismember {
    /// Builds a `Sismember` from a request array
    /// `["sismember", key, member]`: both arguments must be non-null
    /// bulk strings holding UTF-8 text.
    pub fn try_from(value: RespArray) -> (r: Result<Sismember, CommandError>)
        ensures
            (sismember_parse(arr_view(value)) matches Ok(p) ==> r matches Ok(c) && c.key@ == p.0
                && c.value@ == p.1),
            (sismember_parse(arr_view(value)) matches Err(er) ==> r == Err::<
                Sismember,
                CommandError,
            >(er)),
    {
        let name = sismember_name_vec();
        match validate_command(&value, name.as_slice(), 2) {
            Err(e) => Err(e),
            Ok(()) => match &value.items {
                None => {
                    proof {
                        assert(false);
                    }
                    Err(CommandError::WrongCommand)
                },
                Some(items) => {
                    proof {
                        lemma_frames_view(items@);
                    }
                    if items.len() != 3 {
                        return Err(CommandError::WrongNumberOfArguments);
                    }
                    let kd = match &items[1] {
                        RespFrame::BulkString(b) => match &b.data {
                            Some(kd) => kd,
                            None => {
                                return Err(CommandError::InvalidArgument);
                            },
                        },
                        _ => {
                            return Err(CommandError::InvalidArgument);
                        },
                    };
                    let md = match &items[2] {
                        RespFrame::BulkString(b) => match &b.data {
                            Some(md) => md,
                            None => {
                                return Err(CommandError::InvalidArgument);
                            },
                        },
                        _ => {
                            return Err(CommandError::InvalidArgument);
                        },
                    };
                    if !utf8_check(kd.as_slice()) || !utf8_check(md.as_slice()) {
                        return Err(CommandError::InvalidArgument);
                    }
                    Ok(Sismember { key: copy_bytes(kd), value: copy_bytes(md) })
                },
            },
        }
    }

    /// Replies with the bulk string `"1"` when the member is present
    /// under the key and `"0"` otherwise — a bulk string, not a number,
    /// as the wire format of this reply is fixed by compatibility. Reads
    /// only; repeating the call cannot change the answer.
    pub fn execute(self, backend: &Backend) -> (r: RespFrame)
        ensures
            frame_view(r) == FrameModel::Bulk(
                Some(
                    if backend.model().contains_key((self.key@, self.value@)) {
                        seq![49u8]
                    } else {
                        seq![48u8]
                    },
                ),
            ),
    {
        let mut b: Vec<u8> = Vec::new();
        match backend.hget(self.key.as_slice(), self.value.as_slice()) {
            Some(_) => {
                b.push(49);
                proof {
                    assert(b@ =~= seq![49u8]);
                }
            },
            None => {
                b.push(48);
                proof {
                    assert(b@ =~= seq![48u8]);
                }
            },
        }
        RespFrame::BulkString(BulkString { data: Some(b) })
    }
}

/// Whether every UTF-8 bulk-string member is already stored under the
/// key with its own frame as value.
pub open spec fn member_stored(
    m: Map<(Seq<u8>, Seq<u8>), FrameModel>,
    key: Seq<u8>,
    f: FrameModel,
) -> bool {
    match f {
        FrameModel::Bulk(Some(d)) => vstd::utf8::valid_utf8(d) ==> m.contains_key((key, d)) && m[
            (key, d)
        ] == FrameModel::Bulk(Some(d)),
        _ => true,
    }
}

pub open spec fn sadd_covered(
    m: Map<(Seq<u8>, Seq<u8>), FrameModel>,
    key: Seq<u8>,
    ms: Seq<FrameModel>,
) -> bool {
    forall|i: int| 0 <= i < ms.len() ==> member_stored(m, key, #[trigger] ms[i])
}

proof fn lemma_sadd_keeps_stored(
    m: Map<(Seq<u8>, Seq<u8>), FrameModel>,
    key: Seq<u8>,
    ms: Seq<FrameModel>,
    f: FrameModel,
)
    requires
        member_stored(m, key, f),
    ensures
        member_stored(sadd_apply(m, key, ms), key, f),
    decreases ms.len(),
{
    if ms.len() > 0 {
        assert(member_stored(member_step(m, key, ms.first()), key, f));
        lemma_sadd_keeps_stored(member_step(m, key, ms.first()), key, ms.drop_first(), f);
    }
}

proof fn lemma_sadd_covers(
    m: Map<(Seq<u8>, Seq<u8>), FrameModel>,
    key: Seq<u8>,
    ms: Seq<FrameModel>,
)
    ensures
        sadd_covered(sadd_apply(m, key, ms), key, ms),
    decreases ms.len(),
{
    if ms.len() > 0 {
        let m1 = member_step(m, key, ms.first());
        lemma_sadd_covers(m1, key, ms.drop_first());
        assert(member_stored(m1, key, ms.first()));
        lemma_sadd_keeps_stored(m1, key, ms.drop_first(), ms.first());
        assert forall|i: int| 0 <= i < ms.len() implies member_stored(
            sadd_apply(m, key, ms),
            key,
            #[trigger] ms[i],
        ) by {
            if i > 0 {
                assert(ms.drop_first()[i - 1] == ms[i]);
            }
        }
    }
}

proof fn lemma_sadd_noop(
    m: Map<(Seq<u8>, Seq<u8>), FrameModel>,
    key: Seq<u8>,
    ms: Seq<FrameModel>,
)
    requires
        sadd_covered(m, key, ms),
    ensures
        sadd_apply(m, key, ms) == m,
    decreases ms.len(),
{
    if ms.len() > 0 {
        assert(member_stored(m, key, ms[0]));
        let m1 = member_step(m, key, ms.first());
        assert(m1 =~= m);
        assert forall|i: int| 0 <= i < ms.drop_first().len() implies member_stored(
            m1,
            key,
            #[trigger] ms.drop_first()[i],
        ) by {
            assert(ms.drop_first()[i] == ms[i + 1]);
        }
        lemma_sadd_noop(m1, key, ms.drop_first());
    }
}

/// A repeated member adds nothing: when a member already occurs in the
/// run, appending it again leaves the resulting store — and with it
/// every membership answer — exactly as it was.
pub proof fn lemma_sadd_repeated_member(
    m: Map<(Seq<u8>, Seq<u8>), FrameModel>,
    key: Seq<u8>,
    ms: Seq<FrameModel>,
    f: FrameModel,
)
    requires
        exists|i: int| 0 <= i < ms.len() && ms[i] == f,
    ensures
        sadd_apply(m, key, ms.push(f)) == sadd_apply(m, key, ms),
{
    lemma_sadd_apply_snoc(m, key, ms, f);
    lemma_sadd_covers(m, key, ms);
    let i = choose|i: int| 0 <= i < ms.len() && ms[i] == f;
    assert(member_stored(sadd_apply(m, key, ms), key, ms[i]));
    match f {
        FrameModel::Bulk(Some(d)) => {
            if vstd::utf8::valid_utf8(d) {
                assert(member_step(sadd_apply(m, key, ms), key, f) =~= sadd_apply(m, key, ms));
            }
        },
        _ => {},
    }
}

/// Set-add is idempotent on the store: adding the same members under
/// the same key a second time leaves the store, and with it every
/// membership answer, unchanged.
pub proof fn lemma_sadd_idempotent(
    m: Map<(Seq<u8>, Seq<u8>), FrameModel>,
    key: Seq<u8>,
    ms: Seq<FrameModel>,
)
    ensures
        sadd_apply(sadd_apply(m, key, ms), key, ms) == sadd_apply(m, key, ms),
{
    lemma_sadd_covers(m, key, ms);
    lemma_sadd_noop(sadd_apply(m, key, ms), key, ms);
}

} // verus!
