//! The data model of a scanned directory tree.
//!
//! `RawEntry` is a filesystem entry exactly as a directory listing reports
//! it, classified once into a regular file, a directory with its own
//! listing, or a special entry (anything that is neither, such as a
//! symbolic link or a socket). `Entry` is the filtered model: only
//! qualifying files and non-empty directories survive, and a directory's
//! children hold its subdirectories first, sorted by name, followed by its
//! files in listing order.

use vstd::prelude::*;

verus! {

/// One entry of a directory listing, before any filtering.
#[derive(Debug)]
pub enum RawEntry {
    /// A regular file.
    File { name: String },
    /// A directory, together with its own listing.
    Dir { name: String, entries: Vec<RawEntry> },
    /// An entry that is neither a regular file nor a directory.
    Special { name: String },
}

/// The mathematical model of a `RawEntry`, over sequences of characters.
pub ghost enum RawEntryV {
    File { name: Seq<char> },
    Dir { name: Seq<char>, entries: Seq<RawEntryV> },
    Special { name: Seq<char> },
}

/// A filtered entry: a qualifying file, or a directory with at least one
/// surviving child.
#[derive(Debug)]
pub enum Entry {
    /// A qualifying source file.
    File { name: String },
    /// A directory: subdirectories first, sorted by name, then files in
    /// listing order.
    Dir { name: String, children: Vec<Entry> },
}

/// The mathematical model of an `Entry`.
pub ghost enum EntryV {
    File { name: Seq<char> },
    Dir { name: Seq<char>, children: Seq<EntryV> },
}

impl View for RawEntry {
    type V = RawEntryV;

    open spec fn view(&self) -> RawEntryV
        decreases self,
    {
        match self {
            RawEntry::File { name } => RawEntryV::File { name: name@ },
            RawEntry::Dir { name, entries } => RawEntryV::Dir {
                name: name@,
                entries: view_raw_seq(entries@),
            },
            RawEntry::Special { name } => RawEntryV::Special { name: name@ },
        }
    }
}

/// The model of a listing: each raw entry replaced by its model.
pub open spec fn view_raw_seq(s: Seq<RawEntry>) -> Seq<RawEntryV>
    decreases s,
{
    if s.len() == 0 {
        Seq::empty()
    } else {
        view_raw_seq(s.drop_last()).push(s.last()@)
    }
}

impl View for Entry {
    type V = EntryV;

    open spec fn view(&self) -> EntryV
        decreases self,
    {
        match self {
            Entry::File { name } => EntryV::File { name: name@ },
            Entry::Dir { name, children } => EntryV::Dir {
                name: name@,
                children: view_entry_seq(children@),
            },
        }
    }
}

/// The model of a sequence of filtered entries.
pub open spec fn view_entry_seq(s: Seq<Entry>) -> Seq<EntryV>
    decreases s,
{
    if s.len() == 0 {
        Seq::empty()
    } else {
        view_entry_seq(s.drop_last()).push(s.last()@)
    }
}

/// The name a filtered entry carries, whichever variant it is.
pub open spec fn entry_name(e: EntryV) -> Seq<char> {
    match e {
        EntryV::File { name } => name,
        EntryV::Dir { name, .. } => name,
    }
}

pub broadcast proof fn lemma_view_raw_seq_len(s: Seq<RawEntry>)
    ensures
        (#[trigger] view_raw_seq(s)).len() == s.len(),
    decreases s,
{
    if s.len() > 0 {
        lemma_view_raw_seq_len(s.drop_last());
        assert(view_raw_seq(s) == view_raw_seq(s.drop_last()).push(s.last()@));
    } else {
        assert(view_raw_seq(s) == Seq::<RawEntryV>::empty());
    }
}

pub broadcast proof fn lemma_view_raw_seq_index(s: Seq<RawEntry>, i: int)
    requires
        0 <= i < s.len(),
    ensures
        #[trigger] view_raw_seq(s)[i] == s[i]@,
    decreases s,
{
    lemma_view_raw_seq_len(s.drop_last());
    assert(view_raw_seq(s) == view_raw_seq(s.drop_last()).push(s.last()@));
    if i < s.len() - 1 {
        lemma_view_raw_seq_index(s.drop_last(), i);
    } else {
        assert(view_raw_seq(s)[i] == s.last()@);
    }
}

pub broadcast proof fn lemma_view_entry_seq_len(s: Seq<Entry>)
    ensures
        (#[trigger] view_entry_seq(s)).len() == s.len(),
    decreases s,
{
    if s.len() > 0 {
        lemma_view_entry_seq_len(s.drop_last());
        assert(view_entry_seq(s) == view_entry_seq(s.drop_last()).push(s.last()@));
    } else {
        assert(view_entry_seq(s) == Seq::<EntryV>::empty());
    }
}

pub broadcast proof fn lemma_view_entry_seq_index(s: Seq<Entry>, i: int)
    requires
        0 <= i < s.len(),
    ensures
        #[trigger] view_entry_seq(s)[i] == s[i]@,
    decreases s,
{
    lemma_view_entry_seq_len(s.drop_last());
    assert(view_entry_seq(s) == view_entry_seq(s.drop_last()).push(s.last()@));
    if i < s.len() - 1 {
        lemma_view_entry_seq_index(s.drop_last(), i);
    } else {
        assert(view_entry_seq(s)[i] == s.last()@);
    }
}

impl Entry {
    /// The on-disk name of this entry.
    pub fn name(&self) -> (r: &String)
        ensures
            r@ == entry_name(self@),
    {
        match self {
            Entry::File { name } => name,
            Entry::Dir { name, .. } => name,
        }
    }
}

} // verus!
