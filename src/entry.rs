//! The records of a mapping listing and the collection that holds them.
use vstd::prelude::*;

verus! {

/// Relies on std::io::Error as an opaque value: the cause of a failure to open the listing.
#[verifier::external_type_specification]
#[verifier::external_body]
pub struct ExIoError(std::io::Error);

/// Why a listing could not be parsed.
#[derive(Debug)]
pub enum Error {
    /// The listing for the requested process does not exist.
    MapsFileDoesNotExist,
    /// The listing exists but could not be opened.
    FileOpenError(std::io::Error),
    /// A numeric field holds something other than a number of its base and width.
    IntParseError,
    /// A field does not have the shape of its kind: a pair without exactly one separator, an
    /// address that is not hexadecimal, permission letters shorter than three characters.
    FormatError,
}

/// The read, write and execute flags of a mapping.
#[derive(Clone, Copy, Debug, PartialEq, Eq, Structural)]
pub struct Permissions {
    pub read: bool,
    pub write: bool,
    pub execute: bool,
}

/// One mapped region of a process's address space.
#[derive(Clone, Debug)]
pub struct Entry {
    pub start_addr: u64,
    pub end_addr: u64,
    pub perms: Permissions,
    pub offset: u64,
    pub dev_maj: u32,
    pub dev_min: u32,
    pub inode: u32,
    pub path: Option<String>,
}

/// An [`Entry`] with its path as a character sequence.
pub struct EntryView {
    pub start_addr: u64,
    pub end_addr: u64,
    pub perms: Permissions,
    pub offset: u64,
    pub dev_maj: u32,
    pub dev_min: u32,
    pub inode: u32,
    pub path: Option<Seq<char>>,
}

impl View for Entry {
    type V = EntryView;

    open spec fn view(&self) -> EntryView {
        EntryView {
            start_addr: self.start_addr,
            end_addr: self.end_addr,
            perms: self.perms,
            offset: self.offset,
            dev_maj: self.dev_maj,
            dev_min: self.dev_min,
            inode: self.inode,
            path: match self.path {
                Some(p) => Some(p@),
                None => None,
            },
        }
    }
}

impl Entry {
    pub fn is_readable(&self) -> (r: bool)
        ensures
            r == self.perms.read,
    {
        self.perms.read
    }

    pub fn is_writable(&self) -> (r: bool)
        ensures
            r == self.perms.write,
    {
        self.perms.write
    }

    pub fn is_executable(&self) -> (r: bool)
        ensures
            r == self.perms.execute,
    {
        self.perms.execute
    }
}

/// The views of `es`, in order.
pub open spec fn views_of(es: Seq<Entry>) -> Seq<EntryView> {
    es.map_values(|e: Entry| e@)
}

/// The entries of `es` whose path is exactly `path`, in their order in `es`.
pub open spec fn with_path(es: Seq<EntryView>, path: Seq<char>) -> Seq<EntryView> {
    es.filter(|e: EntryView| e.path == Some(path))
}

/// The records of one listing, in the order of their lines.
#[derive(Debug)]
pub struct Entries {
    entries: Vec<Entry>,
}

impl View for Entries {
    type V = Seq<EntryView>;

    closed spec fn view(&self) -> Seq<EntryView> {
        views_of(self.entries@)
    }
}

impl Entries {
    /// The collection holding `entries`, in their order.
    pub fn new(entries: Vec<Entry>) -> (r: Entries)
        ensures
            r@ == views_of(entries@),
    {
        Entries { entries }
    }

    pub fn len(&self) -> (r: usize)
        ensures
            r == self@.len(),
    {
        self.entries.len()
    }

    /// The records, in order.
    pub fn entries(&self) -> (r: &Vec<Entry>)
        ensures
            views_of(r@) == self@,
    {
        &self.entries
    }

    /// The records whose path is exactly `value`, in the collection's order. Records without a
    /// path never match.
    pub fn filter_by_pathname(&self, value: &str) -> (r: Vec<&Entry>)
        ensures
            r@.map_values(|e: &Entry| e@) == with_path(self@, value@),
    {
        let target = value.to_owned();
        let mut r: Vec<&Entry> = Vec::new();
        let mut i: usize = 0;
        let ghost all = views_of(self.entries@);
        while i < self.entries.len()
            invariant
                i <= self.entries@.len(),
                target@ == value@,
                all == views_of(self.entries@),
                r@.map_values(|e: &Entry| e@) == with_path(all.subrange(0, i as int), value@),
            decreases self.entries@.len() - i,
        {
            let e = &self.entries[i];
            let keep = match &e.path {
                Some(p) => p.eq(&target),
                None => false,
            };
            proof {
                let pre = all.subrange(0, i as int);
                let next = all.subrange(0, i + 1);
                assert(next.drop_last() =~= pre);
                assert(next.last() == e@);
                reveal(Seq::filter);
            }
            if keep {
                r.push(e);
            }
            i = i + 1;
            assert(r@.map_values(|e: &Entry| e@) =~= with_path(all.subrange(0, i as int), value@));
        }
        assert(all.subrange(0, i as int) =~= all);
        r
    }
}

} // verus!
