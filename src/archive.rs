//! The archive handle: a byte source together with its validated footer.
use vstd::prelude::*;

use crate::entry::ArchiveEntry;
use crate::error::Invalid;
use crate::footer::{footer_of, Footer, FooterView, SectionName};
use crate::index::{run_of, CompressionOffsetRecord};

verus! {

/// The last 144 bytes of `b`, where the footer lies.
pub open spec fn footer_bytes(b: Seq<u8>) -> Seq<u8> {
    b.subrange(b.len() - 144, b.len() as int)
}

/// What opening an archive of bytes `b` gives: its footer, or why it is
/// rejected. A too short archive is rejected before any field is read.
pub open spec fn spec_open(b: Seq<u8>) -> Result<FooterView, Invalid> {
    if b.len() < 144 {
        Err(Invalid::TooShort(b.len() as u64))
    } else {
        match footer_of(footer_bytes(b)).check() {
            Ok(()) => Ok(footer_of(footer_bytes(b))),
            Err(e) => Err(e),
        }
    }
}

/// Opening an archive shorter than the footer fails with `TooShort` and its
/// length; opening one whose last 144 bytes are a valid footer succeeds with
/// that footer; and one whose footer has a wrong magic number fails with
/// `Magic` and the number found.
pub proof fn lemma_open_outcomes(b: Seq<u8>)
    ensures
        b.len() < 144 ==> spec_open(b) == Err::<FooterView, Invalid>(
            Invalid::TooShort(b.len() as u64),
        ),
        b.len() >= 144 && footer_of(footer_bytes(b)).check() is Ok ==> spec_open(b) == Ok::<
            FooterView,
            Invalid,
        >(footer_of(footer_bytes(b))),
        b.len() >= 144 && footer_of(footer_bytes(b)).magic != Footer::MAGIC ==> spec_open(b)
            == Err::<FooterView, Invalid>(Invalid::Magic(footer_of(footer_bytes(b)).magic)),
{
}

/// Where the footer starts in an archive of `archive_len` bytes.
pub fn footer_position(archive_len: u64) -> (r: Result<u64, Invalid>)
    ensures
        archive_len < 144 ==> r == Err::<u64, Invalid>(Invalid::TooShort(archive_len)),
        archive_len >= 144 ==> r == Ok::<u64, Invalid>((archive_len - 144) as u64),
{
    match archive_len.checked_sub(Footer::LEN as u64) {
        Some(pos) => Ok(pos),
        None => Err(Invalid::TooShort(archive_len)),
    }
}

/// Decodes the footer at the end of an archive held in memory.
pub fn get_footer_mem(archive: &[u8]) -> (r: Result<Footer, Invalid>)
    ensures
        archive@.len() < 144 ==> r == Err::<Footer, Invalid>(
            Invalid::TooShort(archive@.len() as u64),
        ),
        archive@.len() >= 144 ==> r is Ok && r->Ok_0@ == footer_of(footer_bytes(archive@)),
{
    let len = archive.len();
    if len < Footer::LEN {
        Err(Invalid::TooShort(len as u64))
    } else {
        Ok(Footer::read(archive, len - Footer::LEN))
    }
}

/// An open archive: the byte source it was made from and its footer, which
/// has passed validation.
pub struct ZArchive<A> {
    inner: A,
    footer: Footer,
}

impl<A> ZArchive<A> {
    /// No handle exists whose footer failed validation.
    #[verifier::type_invariant]
    spec fn footer_is_valid(self) -> bool {
        self.footer@.check() is Ok
    }

    /// The byte source.
    pub closed spec fn spec_inner(self) -> A {
        self.inner
    }

    /// The footer.
    pub closed spec fn spec_footer(self) -> FooterView {
        self.footer@
    }

    /// Opens an archive whose footer was read from the end of `inner`;
    /// fails with the validation error where the footer is not valid.
    pub fn with_footer(inner: A, footer: Footer) -> (r: Result<ZArchive<A>, Invalid>)
        ensures
            match r {
                Ok(z) => footer@.check() is Ok && z.spec_inner() == inner && z.spec_footer()
                    == footer@,
                Err(e) => footer@.check() == Err::<(), Invalid>(e),
            },
    {
        match footer.check() {
            Ok(()) => Ok(ZArchive { inner, footer }),
            Err(e) => Err(e),
        }
    }

    /// Gives back the byte source.
    pub fn into_inner(self) -> (r: A)
        ensures
            r == self.spec_inner(),
    {
        self.inner
    }

    /// The validated footer.
    pub fn footer(&self) -> (r: &Footer)
        ensures
            r@ == self.spec_footer(),
            r@.check() is Ok,
    {
        proof {
            use_type_invariant(self);
        }
        &self.footer
    }
}

/// The number of entries of the file tree.
pub open spec fn entry_count(f: FooterView) -> int {
    f.section(SectionName::FileTree).1 as int / 16
}

/// The sixteen bytes of entry `i` of the file tree, where they lie within `b`.
pub open spec fn entry_bytes(b: Seq<u8>, f: FooterView, i: int) -> Option<Seq<u8>> {
    let pos = f.section(SectionName::FileTree).0 + 16 * i;
    if 0 <= i < entry_count(f) && pos + 16 <= b.len() {
        Some(b.subrange(pos, pos + 16))
    } else {
        None
    }
}

/// The number of runs of the compression index.
pub open spec fn run_count(f: FooterView) -> int {
    f.section(SectionName::OffsetRecords).1 as int / 40
}

/// The forty bytes of run `i` of the compression index, where they lie
/// within `b`.
pub open spec fn run_bytes(b: Seq<u8>, f: FooterView, i: int) -> Option<Seq<u8>> {
    let pos = f.section(SectionName::OffsetRecords).0 + 40 * i;
    if 0 <= i < run_count(f) && pos + 40 <= b.len() {
        Some(b.subrange(pos, pos + 40))
    } else {
        None
    }
}

/// Where block `block_index` lies in the compressed stream of the archive
/// `b`; `None` where its run is beyond the index or outside `b`, or its
/// offset does not fit in 64 bits.
pub open spec fn spec_locate_in(b: Seq<u8>, f: FooterView, block_index: u64) -> Option<(u64, u32)> {
    match run_bytes(b, f, (block_index / 16) as int) {
        Some(rb) => run_of(rb).locate((block_index % 16) as int),
        None => None,
    }
}

impl<'a> ZArchive<&'a [u8]> {
    /// Opens an archive held in memory: rejects one shorter than the footer,
    /// then validates the footer.
    pub fn new(archive: &'a [u8]) -> (r: Result<ZArchive<&'a [u8]>, Invalid>)
        ensures
            match r {
                Ok(z) => spec_open(archive@) == Ok::<FooterView, Invalid>(z.spec_footer())
                    && z.spec_inner() == archive,
                Err(e) => spec_open(archive@) == Err::<FooterView, Invalid>(e),
            },
    {
        let footer = get_footer_mem(archive)?;
        ZArchive::with_footer(archive, footer)
    }

    /// The archive's bytes.
    pub fn as_bytes(&self) -> (r: &'a [u8])
        ensures
            r == self.spec_inner(),
    {
        self.inner
    }

    /// The entries of the file tree, in table order, from the first.
    pub fn entries(&self) -> (r: Entries<'a>)
        ensures
            r.spec_bytes() == self.spec_inner()@,
            r.spec_footer() == self.spec_footer(),
            r.spec_index() == 0,
    {
        Entries { bytes: self.inner, footer: self.footer, index: 0 }
    }

    /// Entry `index` of the file tree: `None` past the last entry, and
    /// `Err(Section(FileTree))` where the entry lies beyond the bytes held.
    pub fn entry(&self, index: u64) -> (r: Option<Result<ArchiveEntry, Invalid>>)
        ensures
            index >= entry_count(self.spec_footer()) ==> r is None,
            index < entry_count(self.spec_footer()) ==> r is Some && match r->Some_0 {
                Ok(e) => entry_bytes(self.spec_inner()@, self.spec_footer(), index as int) matches Some(eb)
                    && e.decodes(eb),
                Err(err) => entry_bytes(self.spec_inner()@, self.spec_footer(), index as int) is None
                    && err == Invalid::Section(SectionName::FileTree),
            },
    {
        read_entry(self.inner, &self.footer, index)
    }

    /// Where block `block_index` of the decompressed content lies in the
    /// compressed stream, and its compressed length: the run
    /// `block_index / 16` of the compression index gives the offset of its
    /// first block, and the block's offset adds the lengths of the blocks
    /// before it in the run.
    pub fn locate_block(&self, block_index: u64) -> (r: Option<(u64, u32)>)
        ensures
            r == spec_locate_in(self.spec_inner()@, self.spec_footer(), block_index),
    {
        let bytes = self.inner;
        let info = self.footer.sections().get(SectionName::OffsetRecords);
        let run = block_index / 16;
        if run >= info.size() / 40 {
            return None;
        }
        let pos = info.offset() as u128 + 40 * run as u128;
        if pos + 40 > bytes.len() as u128 {
            return None;
        }
        let record = CompressionOffsetRecord::read(bytes, pos as usize);
        record.locate((block_index % 16) as usize)
    }
}

/// Reads entry `index` of the file tree that `footer` describes from `bytes`.
fn read_entry(bytes: &[u8], footer: &Footer, index: u64) -> (r: Option<Result<ArchiveEntry, Invalid>>)
    ensures
        index >= entry_count(footer@) ==> r is None,
        index < entry_count(footer@) ==> r is Some && match r->Some_0 {
            Ok(e) => entry_bytes(bytes@, footer@, index as int) matches Some(eb) && e.decodes(eb),
            Err(err) => entry_bytes(bytes@, footer@, index as int) is None && err
                == Invalid::Section(SectionName::FileTree),
        },
{
    let info = footer.sections().get(SectionName::FileTree);
    if index >= info.size() / 16 {
        return None;
    }
    let pos = info.offset() as u128 + 16 * index as u128;
    if pos + 16 > bytes.len() as u128 {
        return Some(Err(Invalid::Section(SectionName::FileTree)));
    }
    Some(Ok(ArchiveEntry::read(bytes, pos as usize)))
}

/// The entries of an archive's file tree, in table order. Each call of
/// `next` gives the following entry, so the sequence is finite; a fresh
/// `Entries` from `ZArchive::entries` starts again at the first.
pub struct Entries<'a> {
    bytes: &'a [u8],
    footer: Footer,
    index: u64,
}

impl<'a> Entries<'a> {
    /// The archive's bytes.
    pub closed spec fn spec_bytes(self) -> Seq<u8> {
        self.bytes@
    }

    /// The archive's footer.
    pub closed spec fn spec_footer(self) -> FooterView {
        self.footer@
    }

    /// The index of the entry that `next` gives.
    pub closed spec fn spec_index(self) -> u64 {
        self.index
    }

    /// The next entry, or `None` after the last one. An entry that lies
    /// beyond the bytes held gives `Err(Section(FileTree))`, and the
    /// entries after it can still be read.
    pub fn next(&mut self) -> (r: Option<Result<ArchiveEntry, Invalid>>)
        ensures
            final(self).spec_bytes() == old(self).spec_bytes(),
            final(self).spec_footer() == old(self).spec_footer(),
            old(self).spec_index() >= entry_count(old(self).spec_footer()) ==> r is None
                && final(self).spec_index() == old(self).spec_index(),
            old(self).spec_index() < entry_count(old(self).spec_footer()) ==> r is Some
                && final(self).spec_index() == old(self).spec_index() + 1 && match r->Some_0 {
                Ok(e) => entry_bytes(
                    old(self).spec_bytes(),
                    old(self).spec_footer(),
                    old(self).spec_index() as int,
                ) matches Some(eb) && e.decodes(eb),
                Err(err) => entry_bytes(
                    old(self).spec_bytes(),
                    old(self).spec_footer(),
                    old(self).spec_index() as int,
                ) is None && err == Invalid::Section(SectionName::FileTree),
            },
    {
        let r = read_entry(self.bytes, &self.footer, self.index);
        if r.is_some() {
            self.index = self.index + 1;
        }
        r
    }
}

} // verus!
