//! The directory tree: entry names from the name table, and the lookup of a
//! path from the root entry down.
//!
//! A name in the name table is its length followed by its bytes. A length
//! below 0x80 takes one byte; a longer one takes two, the first with its top
//! bit set and the low seven bits of the length, the second with the rest.
use vstd::prelude::*;

use crate::archive::{entry_bytes, ZArchive};
use crate::big_endian::be32;
use crate::entry::Record;
use crate::footer::{FooterView, SectionName};
use crate::path::{canonical, components, eq_folded, fold, lemma_canonical_same_components, views, Path};

verus! {

/// The name that starts at offset `off` of the name table of the archive
/// `b`; `None` where it does not lie within the name table and `b`.
pub open spec fn name_at(b: Seq<u8>, f: FooterView, off: int) -> Option<Seq<u8>> {
    let table = f.section(SectionName::Names);
    let end = table.0 + table.1;
    let p = table.0 + off;
    if !(0 <= off && p < end && p < b.len()) {
        None
    } else if b[p] < 0x80 {
        let start = p + 1;
        let len = b[p] as int;
        if start + len <= end && start + len <= b.len() {
            Some(b.subrange(start, start + len))
        } else {
            None
        }
    } else if p + 1 < end && p + 1 < b.len() {
        let start = p + 2;
        let len = (b[p] - 0x80) + b[p + 1] * 0x80;
        if start + len <= end && start + len <= b.len() {
            Some(b.subrange(start, start + len))
        } else {
            None
        }
    } else {
        None
    }
}

/// The name offset of the entry encoded by the sixteen bytes `eb`.
pub open spec fn entry_name_offset(eb: Seq<u8>) -> int {
    be32(eb.subrange(0, 4)) % 0x8000_0000
}

/// Whether the entry encoded by `eb` is a directory.
pub open spec fn entry_is_dir(eb: Seq<u8>) -> bool {
    be32(eb.subrange(0, 4)) < 0x8000_0000
}

/// Whether entry `i` of the archive `b` can be read and its name equals
/// `name` with ASCII letters folded to lower case.
pub open spec fn child_matches(b: Seq<u8>, f: FooterView, i: int, name: Seq<u8>) -> bool {
    match entry_bytes(b, f, i) {
        Some(eb) => match name_at(b, f, entry_name_offset(eb)) {
            Some(n) => fold(n) == fold(name),
            None => false,
        },
        None => false,
    }
}

/// The first entry from `lo` up to `hi` whose name matches `name`.
pub open spec fn find_child(b: Seq<u8>, f: FooterView, lo: int, hi: int, name: Seq<u8>) -> Option<
    int,
>
    decreases hi - lo,
{
    if lo >= hi {
        None
    } else if child_matches(b, f, lo, name) {
        Some(lo)
    } else {
        find_child(b, f, lo + 1, hi, name)
    }
}

/// The entry reached from entry `node` by following the names `names`, each
/// looked up among the children of the directory reached so far.
pub open spec fn resolve(b: Seq<u8>, f: FooterView, node: int, names: Seq<Seq<u8>>) -> Option<int>
    decreases names.len(),
{
    if names.len() == 0 {
        Some(node)
    } else {
        match entry_bytes(b, f, node) {
            Some(eb) => if entry_is_dir(eb) {
                let start = be32(eb.subrange(4, 8));
                let count = be32(eb.subrange(8, 12));
                match find_child(b, f, start, start + count, names[0]) {
                    Some(child) => resolve(b, f, child, names.drop_first()),
                    None => None,
                }
            } else {
                None
            },
            None => None,
        }
    }
}

/// The entry that path `p` leads to from the root, entry 0.
pub open spec fn spec_lookup(b: Seq<u8>, f: FooterView, p: Seq<u8>) -> Option<int> {
    if entry_bytes(b, f, 0) is Some {
        resolve(b, f, 0, components(p))
    } else {
        None
    }
}

/// A path and its canonical form lead to the same entry.
pub proof fn lemma_canonical_same_entry(b: Seq<u8>, f: FooterView, p: Seq<u8>)
    ensures
        spec_lookup(b, f, canonical(p)) == spec_lookup(b, f, p),
{
    lemma_canonical_same_components(p);
}

impl<'a> ZArchive<&'a [u8]> {
    /// The name at offset `offset` of the name table, as bytes of the
    /// archive; `None` where it does not lie within the name table.
    pub fn name(&self, offset: u32) -> (r: Option<&'a [u8]>)
        ensures
            match r {
                Some(n) => name_at(self.spec_inner()@, self.spec_footer(), offset as int) == Some(
                    n@,
                ),
                None => name_at(self.spec_inner()@, self.spec_footer(), offset as int) is None,
            },
    {
        let b = self.as_bytes();
        let table = self.footer().sections().get(SectionName::Names);
        let end = table.offset() as u128 + table.size() as u128;
        let p = table.offset() as u128 + offset as u128;
        let len = b.len() as u128;
        if !(p < end && p < len) {
            return None;
        }
        let first = b[p as usize];
        let (start, n) = if first < 0x80 {
            (p + 1, first as u128)
        } else if p + 1 < end && p + 1 < len {
            (p + 2, (first - 0x80) as u128 + b[p as usize + 1] as u128 * 0x80)
        } else {
            return None;
        };
        if start + n <= end && start + n <= len {
            Some(vstd::slice::slice_subrange(b, start as usize, (start + n) as usize))
        } else {
            None
        }
    }

    /// The first entry from `lo` up to `hi` whose name matches `name` with
    /// ASCII letters folded to lower case.
    fn find_child(&self, lo: u64, hi: u64, name: &Vec<u8>) -> (r: Option<u64>)
        ensures
            match r {
                Some(c) => find_child(
                    self.spec_inner()@,
                    self.spec_footer(),
                    lo as int,
                    hi as int,
                    name@,
                ) == Some(c as int),
                None => find_child(
                    self.spec_inner()@,
                    self.spec_footer(),
                    lo as int,
                    hi as int,
                    name@,
                ) is None,
            },
    {
        let ghost b = self.spec_inner()@;
        let ghost f = self.spec_footer();
        let mut i = lo;
        while i < hi
            invariant
                lo <= hi ==> lo <= i <= hi,
                lo > hi ==> i == lo,
                b == self.spec_inner()@,
                f == self.spec_footer(),
                find_child(b, f, lo as int, hi as int, name@) == find_child(
                    b,
                    f,
                    i as int,
                    hi as int,
                    name@,
                ),
            decreases hi - i,
        {
            let mut found = false;
            match self.entry(i) {
                Some(Ok(e)) => {
                    let ghost eb = entry_bytes(b, f, i as int)->Some_0;
                    match self.name(e.offset()) {
                        Some(n) => {
                            found = eq_folded(n, name.as_slice());
                        },
                        None => {},
                    }
                    assert(found == child_matches(b, f, i as int, name@));
                },
                _ => {
                    assert(!child_matches(b, f, i as int, name@));
                },
            }
            if found {
                return Some(i);
            }
            i += 1;
        }
        None
    }

    /// The entry that `path` leads to from the root entry: each name of the
    /// path, with redundant separators and relative pieces resolved, is
    /// looked up among the children of the directory reached so far, with
    /// ASCII letters folded to lower case. `None` where a name is missing,
    /// an entry on the way is not a directory, or the data runs out.
    pub fn lookup(&self, path: &Path) -> (r: Option<u64>)
        ensures
            match r {
                Some(i) => spec_lookup(self.spec_inner()@, self.spec_footer(), path@) == Some(
                    i as int,
                ),
                None => spec_lookup(self.spec_inner()@, self.spec_footer(), path@) is None,
            },
    {
        let ghost b = self.spec_inner()@;
        let ghost f = self.spec_footer();
        match self.entry(0) {
            Some(Ok(_)) => {},
            _ => {
                return None;
            },
        }
        let names = path.components();
        let ghost ns = views(names@);
        let mut node: u64 = 0;
        let mut k: usize = 0;
        assert(ns.skip(0) =~= ns);
        while k < names.len()
            invariant
                k <= names@.len(),
                b == self.spec_inner()@,
                f == self.spec_footer(),
                ns == views(names@),
                spec_lookup(b, f, path@) == resolve(b, f, node as int, ns.skip(k as int)),
            decreases names@.len() - k,
        {
            let ghost rest = ns.skip(k as int);
            assert(rest[0] == names@[k as int]@);
            assert(rest.drop_first() =~= ns.skip(k + 1));
            let e = match self.entry(node) {
                Some(Ok(e)) => e,
                _ => {
                    return None;
                },
            };
            let ghost eb = entry_bytes(b, f, node as int)->Some_0;
            assert(eb.subrange(4, 16).subrange(0, 4) =~= eb.subrange(4, 8));
            assert(eb.subrange(4, 16).subrange(4, 8) =~= eb.subrange(8, 12));
            let d = match e.record() {
                Record::Dir(d) => d,
                Record::File(_) => {
                    return None;
                },
            };
            let start = d.node_start_ind.get() as u64;
            let count = d.count.get() as u64;
            match self.find_child(start, start + count, &names[k]) {
                Some(c) => {
                    node = c;
                },
                None => {
                    return None;
                },
            }
            k += 1;
        }
        Some(node)
    }
}

} // verus!
