//! The init ramdisk: a sequence of files, each stored as the little-endian
//! 64-bit length of its name, the name, the little-endian 64-bit length of its
//! data, and the data.
use crate::bytes::{le_at, lemma_u64_le_value, read_le, str_from_utf8, u64_le};
use vstd::prelude::*;
use vstd::string::StringSliceAdditionalSpecFns;

verus! {

/// A file of the ramdisk: its name and its contents.
pub struct SimpleFile<'a> {
    pub name: &'a str,
    pub data: &'a [u8],
}

/// The ramdisk's bytes.
pub struct SimpleInitFs<'a> {
    raw: &'a [u8],
}

/// Walks the files of a ramdisk, in order.
pub struct SimpleInitFsIter<'a> {
    remaining: &'a [u8],
}

/// Where the first file record of `r` lies: `(name_start, name_end, data_start,
/// data_end)`, or `None` when `r` is too short to hold a whole record.
pub open spec fn record_bounds(r: Seq<u8>) -> Option<(int, int, int, int)> {
    if r.len() < 8 {
        None
    } else {
        let name_len = le_at(r, 0, 8) as int;
        if r.len() < 8 + name_len + 8 {
            None
        } else {
            let data_len = le_at(r, 8 + name_len, 8) as int;
            let data_start = 8 + name_len + 8;
            if r.len() < data_start + data_len {
                None
            } else {
                Some((8, 8 + name_len, data_start, data_start + data_len))
            }
        }
    }
}

impl<'a> SimpleInitFs<'a> {
    /// The ramdisk's bytes.
    pub closed spec fn raw_spec(&self) -> Seq<u8> {
        self.raw@
    }

    /// The ramdisk whose bytes are `raw`.
    pub fn new(raw: &'a [u8]) -> (fs: Self)
        ensures
            fs.raw_spec() == raw@,
    {
        Self { raw }
    }

    /// Walks the files from the first on.
    pub fn iter(&self) -> (it: SimpleInitFsIter<'a>)
        ensures
            it.remaining_spec() == self.raw_spec(),
    {
        SimpleInitFsIter { remaining: self.raw }
    }
}

impl<'a> SimpleInitFsIter<'a> {
    /// The bytes not walked yet.
    pub closed spec fn remaining_spec(&self) -> Seq<u8> {
        self.remaining@
    }

    /// The next file, or `None` when what remains cannot hold a whole record (and
    /// then what remains is kept). A name that is not valid UTF-8 reads as
    /// `<invalid>`.
    pub fn next(&mut self) -> (f: Option<SimpleFile<'a>>)
        ensures
            ({
                let r = old(self).remaining_spec();
                match record_bounds(r) {
                    None => f is None && final(self).remaining_spec() == r,
                    Some((ns, ne, ds, de)) => {
                        &&& f is Some
                        &&& f->0.data@ == r.subrange(ds, de)
                        &&& vstd::utf8::valid_utf8(r.subrange(ns, ne)) ==> f->0.name.spec_bytes()
                            == r.subrange(ns, ne)
                        &&& !vstd::utf8::valid_utf8(r.subrange(ns, ne)) ==> f->0.name@
                            == "<invalid>"@
                        &&& final(self).remaining_spec() == r.subrange(de, r.len() as int)
                    },
                }
            }),
    {
        let len = self.remaining.len();
        if len < 8 {
            return None;
        }
        let name_len = read_le(self.remaining, 0, 8);
        if (len as u128) < 16 + (name_len as u128) {
            return None;
        }
        let name_start: usize = 8;
        let name_end = name_start + name_len as usize;
        let name_bytes = &self.remaining[name_start..name_end];
        let data_len_offset = name_end;
        let data_len = read_le(self.remaining, data_len_offset, 8);
        if (len as u128) < 16 + (name_len as u128) + (data_len as u128) {
            return None;
        }
        let data_start = data_len_offset + 8;
        let data_end = data_start + data_len as usize;
        let name = match str_from_utf8(name_bytes) {
            Some(s) => s,
            None => "<invalid>",
        };
        let data = &self.remaining[data_start..data_end];
        self.remaining = &self.remaining[data_end..len];
        Some(SimpleFile { name, data })
    }
}

/// The record of a file named `name` holding `data`: the 64-bit length of the
/// name, the name, the 64-bit length of the data, and the data.
pub open spec fn record(name: Seq<u8>, data: Seq<u8>) -> Seq<u8> {
    u64_le(name.len() as u64) + name + u64_le(data.len() as u64) + data
}

/// The ramdisk that holds `files`, (name, data) pairs, in order.
pub open spec fn encoded(files: Seq<(Seq<u8>, Seq<u8>)>) -> Seq<u8>
    decreases files.len(),
{
    if files.len() == 0 {
        Seq::empty()
    } else {
        record(files[0].0, files[0].1) + encoded(files.drop_first())
    }
}

/// Law: walking a ramdisk built from files gives the files back one by one:
/// the first record holds the first file's name and data, and what follows it
/// is the ramdisk of the other files; an empty ramdisk holds no record.
pub proof fn law_walk_encoded(files: Seq<(Seq<u8>, Seq<u8>)>)
    requires
        forall|i: int|
            0 <= i < files.len() ==> (#[trigger] files[i]).0.len() <= u64::MAX && files[i].1.len()
                <= u64::MAX,
    ensures
        files.len() == 0 ==> record_bounds(encoded(files)) is None,
        files.len() > 0 ==> {
            let r = encoded(files);
            let n = files[0].0.len() as int;
            let d = files[0].1.len() as int;
            &&& record_bounds(r) == Some((8int, 8 + n, 16 + n, 16 + n + d))
            &&& r.subrange(8, 8 + n) == files[0].0
            &&& r.subrange(16 + n, 16 + n + d) == files[0].1
            &&& r.subrange(16 + n + d, r.len() as int) == encoded(files.drop_first())
        },
{
    if files.len() > 0 {
        let name = files[0].0;
        let data = files[0].1;
        let n = name.len() as int;
        let d = data.len() as int;
        let rest = encoded(files.drop_first());
        let r = encoded(files);
        assert(r == record(name, data) + rest);
        lemma_u64_le_value(name.len() as u64);
        lemma_u64_le_value(data.len() as u64);
        assert(r.subrange(0, 8) =~= u64_le(name.len() as u64));
        assert(r.subrange(8 + n, 8 + n + 8) =~= u64_le(data.len() as u64));
        assert(le_at(r, 0, 8) == n);
        assert(le_at(r, 8 + n, 8) == d);
        assert(r.subrange(8, 8 + n) =~= name);
        assert(r.subrange(16 + n, 16 + n + d) =~= data);
        assert(r.subrange(16 + n + d, r.len() as int) =~= rest);
    }
}

} // verus!
