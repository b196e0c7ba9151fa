use vstd::prelude::*;

verus! {

use crate::codec::{decode_link, encode_link, spec_decode, spec_encode};
use crate::error::Error;
use crate::link::MessageLink;

/// The Link Store: the mapping from the identifier of a message copy
/// delivered into the operator conversation to the encoded origin descriptor
/// of the message it was copied from.
///
/// Entries are written once when a message is forwarded and read when the
/// operator replies; nothing deletes them. The store is viewed as a map from
/// key to stored bytes; if a key were ever written twice, the last write
/// would win.
pub struct LinkStore {
    entries: Vec<(i32, Vec<u8>)>,
}

/// The mapping a sequence of entries denotes: later entries shadow earlier
/// ones with the same key.
pub open spec fn entries_map(s: Seq<(i32, Vec<u8>)>) -> Map<int, Seq<u8>>
    decreases s.len(),
{
    if s.len() == 0 {
        Map::empty()
    } else {
        entries_map(s.drop_last()).insert(s.last().0 as int, s.last().1@)
    }
}

/// Copies a byte vector.
fn copy_bytes(v: &Vec<u8>) -> (r: Vec<u8>)
    ensures
        r@ == v@,
{
    let mut out: Vec<u8> = Vec::new();
    let n = v.len();
    let mut i: usize = 0;
    while i < n
        invariant
            i <= n,
            n == v@.len(),
            out@ == v@.subrange(0, i as int),
        decreases n - i,
    {
        out.push(v[i]);
        proof {
            assert(out@ =~= v@.subrange(0, i + 1));
        }
        i += 1;
    }
    proof {
        assert(out@ =~= v@);
    }
    out
}

impl LinkStore {
    /// The store's contents as a map from copy id to stored bytes.
    pub closed spec fn view(&self) -> Map<int, Seq<u8>> {
        entries_map(self.entries@)
    }

    /// An empty store.
    pub fn new() -> (r: LinkStore)
        ensures
            r@ == Map::<int, Seq<u8>>::empty(),
    {
        LinkStore { entries: Vec::new() }
    }

    /// Writes `value` under `key`.
    pub fn put(&mut self, key: i32, value: Vec<u8>)
        ensures
            final(self)@ == old(self)@.insert(key as int, value@),
    {
        let ghost before = self.entries@;
        self.entries.push((key, value));
        proof {
            assert(self.entries@.drop_last() =~= before);
            assert(self.entries@.last() == (key, value));
        }
    }

    /// Serializes a descriptor and writes it under `key`.
    ///
    /// Encoding a descriptor never fails, so neither does this write.
    pub fn put_link(&mut self, key: i32, link: &MessageLink)
        ensures
            final(self)@ == old(self)@.insert(key as int, spec_encode(*link)),
    {
        let bytes = encode_link(link);
        self.put(key, bytes);
    }

    /// Reads the descriptor stored under `key`.
    ///
    /// A missing key and an empty stored value both mean "no mapping" — a
    /// deliberate tolerance, not an error. A non-empty value that does not
    /// decode is malformed and surfaces a deserialization failure rather
    /// than being dropped silently.
    pub fn get_link(&self, key: i32) -> (r: Result<Option<MessageLink>, Error>)
        ensures
            match r {
                Ok(Some(l)) => self@.contains_key(key as int) && self@[key as int].len() > 0
                    && spec_decode(self@[key as int]) == Some(l),
                Ok(None) => !self@.contains_key(key as int) || self@[key as int].len() == 0,
                Err(e) => e == Error::DeserializationError && self@.contains_key(key as int)
                    && self@[key as int].len() > 0 && spec_decode(self@[key as int])
                    == None::<MessageLink>,
            },
    {
        match self.get(key) {
            None => Ok(None),
            Some(v) => {
                if v.len() == 0 {
                    Ok(None)
                } else {
                    match decode_link(&v) {
                        Ok(l) => Ok(Some(l)),
                        Err(e) => Err(e),
                    }
                }
            },
        }
    }

    /// Reads the raw bytes stored under `key`, if any.
    ///
    /// The result is a function of the store's contents and the key alone,
    /// and the store is untouched, so reading the same key twice without an
    /// intervening write returns the same value both times.
    pub fn get(&self, key: i32) -> (r: Option<Vec<u8>>)
        ensures
            match r {
                Some(v) => self@.contains_key(key as int) && v@ == self@[key as int],
                None => !self@.contains_key(key as int),
            },
    {
        let n = self.entries.len();
        let mut i: usize = n;
        proof {
            assert(self.entries@.subrange(0, n as int) =~= self.entries@);
        }
        while i > 0
            invariant
                i <= n,
                n == self.entries@.len(),
                self@ == entries_map(self.entries@),
                entries_map(self.entries@).contains_key(key as int) == entries_map(
                    self.entries@.subrange(0, i as int),
                ).contains_key(key as int),
                entries_map(self.entries@).contains_key(key as int) ==> entries_map(
                    self.entries@.subrange(0, i as int),
                )[key as int] == entries_map(self.entries@)[key as int],
            decreases i,
        {
            i -= 1;
            let e = &self.entries[i];
            proof {
                let pre = self.entries@.subrange(0, i as int);
                let cur = self.entries@.subrange(0, i + 1);
                assert(cur.drop_last() =~= pre);
                assert(cur.last() == self.entries@[i as int]);
                assert(entries_map(cur) == entries_map(pre).insert(
                    self.entries@[i as int].0 as int,
                    self.entries@[i as int].1@,
                ));
            }
            if e.0 == key {
                let out = copy_bytes(&e.1);
                return Some(out);
            }
        }
        proof {
            assert(self.entries@.subrange(0, 0) =~= Seq::<(i32, Vec<u8>)>::empty());
            assert(!entries_map(Seq::<(i32, Vec<u8>)>::empty()).contains_key(key as int));
        }
        None
    }
}

} // verus!
