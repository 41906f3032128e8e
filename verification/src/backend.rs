//! The key/field store that command execution runs against, modelled as
//! a map from (key, field) pairs to stored frames.
use vstd::prelude::*;

use crate::frame::{frame_view, RespFrame};
use crate::model::FrameModel;

verus! {

/// An in-memory key → (field → value) store. Its model is the map from
/// (key, field) byte-string pairs to the frame most recently stored
/// under them.
pub struct Backend {
    entries: Vec<(Vec<u8>, Vec<u8>, RespFrame)>,
}

/// The map a run of entries denotes: later entries win.
spec fn store_view(s: Seq<(Vec<u8>, Vec<u8>, RespFrame)>) -> Map<
    (Seq<u8>, Seq<u8>),
    FrameModel,
>
    decreases s.len(),
{
    if s.len() == 0 {
        Map::empty()
    } else {
        store_view(s.drop_last()).insert(
            (s.last().0@, s.last().1@),
            frame_view(s.last().2),
        )
    }
}

/// Whether two byte strings hold the same bytes.
pub fn bytes_eq(a: &[u8], b: &[u8]) -> (r: bool)
    ensures
        r == (a@ == b@),
{
    if a.len() != b.len() {
        proof {
            assert(a@ != b@);
        }
        return false;
    }
    let mut i: usize = 0;
    while i < a.len()
        invariant
            i <= a@.len(),
            a@.len() == b@.len(),
            forall|j: int| 0 <= j < i ==> a@[j] == b@[j],
        decreases a@.len() - i,
    {
        if *vstd::slice::slice_index_get(a, i) != *vstd::slice::slice_index_get(b, i) {
            proof {
                assert(a@[i as int] != b@[i as int]);
            }
            return false;
        }
        i += 1;
    }
    proof {
        assert(a@ =~= b@);
    }
    true
}

impl Backend {
    pub closed spec fn model(&self) -> Map<(Seq<u8>, Seq<u8>), FrameModel> {
        store_view(self.entries@)
    }

    /// An empty store.
    pub fn new() -> (r: Backend)
        ensures
            r.model() == Map::<(Seq<u8>, Seq<u8>), FrameModel>::empty(),
    {
        Backend { entries: Vec::new() }
    }

    /// Stores `value` under `(key, field)`, replacing whatever was there.
    pub fn hset(&mut self, key: Vec<u8>, field: Vec<u8>, value: RespFrame)
        ensures
            final(self).model() == old(self).model().insert(
                (key@, field@),
                frame_view(value),
            ),
    {
        let ghost pre = self.entries@;
        let ghost kv = key@;
        let ghost fv = field@;
        let ghost vv = frame_view(value);
        self.entries.push((key, field, value));
        proof {
            assert(self.entries@.drop_last() =~= pre);
            assert(self.entries@.last().0@ == kv);
            assert(self.entries@.last().1@ == fv);
            assert(frame_view(self.entries@.last().2) == vv);
        }
    }

    /// Looks up the value stored under `(key, field)`, if any.
    pub fn hget(&self, key: &[u8], field: &[u8]) -> (r: Option<&RespFrame>)
        ensures
            r is Some <==> self.model().contains_key((key@, field@)),
            r matches Some(v) ==> self.model()[(key@, field@)] == frame_view(*v),
    {
        let ghost target = (key@, field@);
        proof {
            assert(self.entries@.take(self.entries@.len() as int) =~= self.entries@);
        }
        let mut i: usize = self.entries.len();
        while i > 0
            invariant
                i <= self.entries@.len(),
                target == (key@, field@),
                self.model().contains_key(target) == store_view(
                    self.entries@.take(i as int),
                ).contains_key(target),
                self.model().contains_key(target) ==> self.model()[target] == store_view(
                    self.entries@.take(i as int),
                )[target],
            decreases i,
        {
            i = i - 1;
            let e = &self.entries[i];
            let ghost cur = self.entries@.take(i + 1);
            proof {
                assert(cur.drop_last() =~= self.entries@.take(i as int));
                assert(cur.last() == self.entries@[i as int]);
            }
            if bytes_eq(e.0.as_slice(), key) && bytes_eq(e.1.as_slice(), field) {
                proof {
                    assert(*e == self.entries@[i as int]);
                    assert((cur.last().0@, cur.last().1@) == target);
                    assert(store_view(cur).contains_key(target));
                    assert(store_view(cur)[target] == frame_view(self.entries@[i as int].2));
                }
                return Some(&e.2);
            }
            proof {
                assert(*e == self.entries@[i as int]);
                assert((self.entries@[i as int].0@, self.entries@[i as int].1@) != target);
                assert(store_view(cur).contains_key(target) == store_view(
                    self.entries@.take(i as int),
                ).contains_key(target));
                assert(store_view(cur).contains_key(target) ==> store_view(cur)[target]
                    == store_view(self.entries@.take(i as int))[target]);
            }
        }
        proof {
            assert(self.entries@.take(0) =~= Seq::<(Vec<u8>, Vec<u8>, RespFrame)>::empty());
            assert(!store_view(self.entries@.take(0)).contains_key(target));
        }
        None
    }
}

} // verus!

