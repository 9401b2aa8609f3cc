use vstd::prelude::*;

verus! {

/// The mathematical value of a captured directory entry.
pub struct Listing {
    pub name: Seq<char>,
    pub is_dir: bool,
    pub entries: Option<Seq<Listing>>,
}

/// One entry of a directory as it was found on disk, with what was found
/// below it.
#[derive(Debug)]
pub struct FsEntry {
    /// The bare name of the entry.
    pub name: String,
    /// Whether the entry is a directory.
    pub is_dir: bool,
    /// For a directory that could be read: its entries, in any order.
    /// `None` for a directory that could not be read, and for a file.
    pub entries: Option<Vec<FsEntry>>,
}

impl View for FsEntry {
    type V = Listing;

    open spec fn view(&self) -> Listing {
        listing_of(*self)
    }
}

/// The value of a captured entry.
pub open spec fn listing_of(entry: FsEntry) -> Listing
    decreases entry, 0nat,
{
    Listing {
        name: entry.name@,
        is_dir: entry.is_dir,
        entries: match entry.entries {
            Some(list) => Some(listings_of(list@, list@.len())),
            None => None,
        },
    }
}

/// The values of the first `n` of the captured entries `list`, in their order.
pub open spec fn listings_of(list: Seq<FsEntry>, n: nat) -> Seq<Listing>
    decreases list, n,
{
    if n == 0 || n > list.len() {
        Seq::empty()
    } else {
        listings_of(list, (n - 1) as nat).push(listing_of(list[n - 1]))
    }
}

/// `listings_of` keeps the length and the order.
pub proof fn lemma_listings_of(list: Seq<FsEntry>, n: nat)
    requires
        n <= list.len(),
    ensures
        listings_of(list, n).len() == n,
        forall|i: int| 0 <= i < n ==> #[trigger] listings_of(list, n)[i] == listing_of(list[i]),
    decreases n,
{
    if n > 0 {
        lemma_listings_of(list, (n - 1) as nat);
    }
}

/// The names of a list of entries, in their order.
pub open spec fn names_of(entries: Seq<Listing>) -> Seq<Seq<char>> {
    entries.map_values(|e: Listing| e.name)
}

impl FsEntry {
    /// The value of an entry, field by field.
    pub proof fn lemma_view(&self)
        ensures
            self@.name == self.name@,
            self@.is_dir == self.is_dir,
            self.entries is None <==> self@.entries is None,
            self.entries matches Some(list) ==> {
                &&& self@.entries->0.len() == list@.len()
                &&& forall|i: int|
                    0 <= i < list@.len() ==> #[trigger] self@.entries->0[i] == list@[i]@
            },
    {
        match self.entries {
            Some(list) => lemma_listings_of(list@, list@.len()),
            None => {},
        }
    }

    /// A file.
    pub fn file(name: String) -> (entry: FsEntry)
        ensures
            entry@ == (Listing { name: name@, is_dir: false, entries: None }),
    {
        FsEntry { name, is_dir: false, entries: None }
    }

    /// A directory; `entries` is `None` where it could not be read.
    pub fn directory(name: String, entries: Option<Vec<FsEntry>>) -> (entry: FsEntry)
        ensures
            entry.name == name,
            entry.is_dir,
            entry.entries == entries,
    {
        FsEntry { name, is_dir: true, entries }
    }
}

} // verus!
