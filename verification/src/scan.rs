//! The directory walker's decision core: filtering, ordering and pruning.
//!
//! `scan_entries` consumes the raw listing of one directory (with the
//! listings of nested directories already attached) and produces the
//! filtered children of that directory: qualifying files in listing
//! order, preceded by the surviving subdirectories in sorted order.
//! A directory whose entire recursive content is filtered out is pruned
//! (no entry at all), and any entry that is neither a regular file nor a
//! directory makes the whole scan fail.

use vstd::prelude::*;

use crate::entry::{
    Entry, EntryV, RawEntry, RawEntryV, entry_name, lemma_view_entry_seq_index,
    lemma_view_entry_seq_len, lemma_view_raw_seq_index, lemma_view_raw_seq_len, view_entry_seq,
    view_raw_seq,
};
use crate::sanitize::source_suffix;

verus! {

/// The one failure the filtering rules themselves can produce: an entry
/// that is neither a regular file nor a directory, with its name.
#[derive(Debug)]
pub enum ScanError {
    UnsupportedEntry { name: String },
}

/// True when a file name ends with the recognized source suffix and has a
/// non-empty stem in front of it.
pub open spec fn is_source_name(name: Seq<char>) -> bool {
    name.len() >= 4 && name.subrange(name.len() - 3, name.len() as int) == source_suffix()
}

/// True when the name is the directory-module marker, the legacy
/// convention that is explicitly unsupported.
pub open spec fn is_marker_name(name: Seq<char>) -> bool {
    name == "mod.rs"@
}

/// True when the name is one of the two reserved entry-point file names
/// that denote the compiled unit's own root.
pub open spec fn is_reserved_root_name(name: Seq<char>) -> bool {
    name == "lib.rs"@ || name == "main.rs"@
}

/// True when a file survives filtering: a source file that is neither the
/// directory-module marker nor a reserved root file.
pub open spec fn file_qualifies(name: Seq<char>) -> bool {
    is_source_name(name) && !is_marker_name(name) && !is_reserved_root_name(name)
}

/// True when the raw entry, or anything below it, is neither a regular
/// file nor a directory.
pub open spec fn has_special(e: RawEntryV) -> bool
    decreases e,
{
    match e {
        RawEntryV::File { .. } => false,
        RawEntryV::Dir { entries, .. } => seq_has_special(entries),
        RawEntryV::Special { .. } => true,
    }
}

/// True when some entry of the listing, at any depth, is special.
pub open spec fn seq_has_special(s: Seq<RawEntryV>) -> bool
    decreases s,
{
    if s.len() == 0 {
        false
    } else {
        seq_has_special(s.drop_last()) || has_special(s.last())
    }
}

/// The name of the first special entry below `e`, in depth-first listing
/// order. Meaningful only when `has_special(e)`.
pub open spec fn entry_first_special(e: RawEntryV) -> Seq<char>
    decreases e,
{
    match e {
        RawEntryV::File { name } => name,
        RawEntryV::Dir { entries, .. } => first_special(entries),
        RawEntryV::Special { name } => name,
    }
}

/// The name of the first special entry in the listing, in depth-first
/// order. Meaningful only when `seq_has_special(s)`.
pub open spec fn first_special(s: Seq<RawEntryV>) -> Seq<char>
    decreases s,
{
    if s.len() == 0 {
        Seq::empty()
    } else if has_special(s.first()) {
        entry_first_special(s.first())
    } else {
        first_special(s.drop_first())
    }
}

/// Strict lexicographic order on character sequences, by code point; this
/// is the order in which subdirectory names are kept.
pub open spec fn lex_lt(a: Seq<char>, b: Seq<char>) -> bool
    decreases a,
{
    if b.len() == 0 {
        false
    } else if a.len() == 0 {
        true
    } else if a.first() != b.first() {
        (a.first() as u32) < (b.first() as u32)
    } else {
        lex_lt(a.drop_first(), b.drop_first())
    }
}

/// Insertion of a directory entry into a name-sorted sequence of
/// directory entries; an entry of the same name is replaced, as a keyed
/// mapping would.
pub open spec fn insert_dir(d: EntryV, s: Seq<EntryV>) -> Seq<EntryV>
    decreases s,
{
    if s.len() == 0 {
        seq![d]
    } else if lex_lt(entry_name(d), entry_name(s.first())) {
        seq![d] + s
    } else if entry_name(d) == entry_name(s.first()) {
        seq![d] + s.drop_first()
    } else {
        seq![s.first()] + insert_dir(d, s.drop_first())
    }
}

/// The filtered state after one directory's listing: the surviving
/// subdirectories, sorted by name, and the qualifying files, in listing
/// order.
pub open spec fn scan_fold(s: Seq<RawEntryV>) -> (Seq<EntryV>, Seq<EntryV>)
    decreases s, 0int,
{
    if s.len() == 0 {
        (Seq::empty(), Seq::empty())
    } else {
        let acc = scan_fold(s.drop_last());
        match s.last() {
            RawEntryV::File { name } => if file_qualifies(name) {
                (acc.0, acc.1.push(EntryV::File { name }))
            } else {
                acc
            },
            RawEntryV::Dir { name, entries } => {
                let children = scan_children(entries);
                if children.len() > 0 {
                    (insert_dir(EntryV::Dir { name, children }, acc.0), acc.1)
                } else {
                    acc
                }
            },
            RawEntryV::Special { .. } => acc,
        }
    }
}

/// The filtered children of one directory: subdirectories first, sorted
/// by name, then files in listing order.
pub open spec fn scan_children(s: Seq<RawEntryV>) -> Seq<EntryV>
    decreases s, 1int,
{
    scan_fold(s).0 + scan_fold(s).1
}

/// A listing has a special entry exactly when one of its elements has
/// one.
pub proof fn lemma_seq_has_special_iff(s: Seq<RawEntryV>)
    ensures
        seq_has_special(s) <==> (exists|j: int| 0 <= j < s.len() && has_special(s[j])),
    decreases s,
{
    if s.len() > 0 {
        lemma_seq_has_special_iff(s.drop_last());
        if seq_has_special(s.drop_last()) {
            let j = choose|j: int| 0 <= j < s.drop_last().len() && has_special(s.drop_last()[j]);
            assert(s[j] == s.drop_last()[j]);
        }
        if exists|j: int| 0 <= j < s.len() && has_special(s[j]) {
            let j = choose|j: int| 0 <= j < s.len() && has_special(s[j]);
            if j < s.len() - 1 {
                assert(s.drop_last()[j] == s[j]);
            }
        }
    }
}

/// Lexicographic order is decided after a common prefix.
pub proof fn lemma_lex_lt_common_prefix(a: Seq<char>, b: Seq<char>, i: int)
    requires
        0 <= i <= a.len(),
        i <= b.len(),
        forall|j: int| 0 <= j < i ==> a[j] == b[j],
    ensures
        lex_lt(a, b) == lex_lt(a.skip(i), b.skip(i)),
    decreases i,
{
    if i == 0 {
        assert(a.skip(0) =~= a);
        assert(b.skip(0) =~= b);
    } else {
        assert(a.first() == b.first());
        assert(forall|j: int|
            0 <= j < i - 1 ==> #[trigger] a.drop_first()[j] == b.drop_first()[j]);
        lemma_lex_lt_common_prefix(a.drop_first(), b.drop_first(), i - 1);
        assert(a.drop_first().skip(i - 1) =~= a.skip(i));
        assert(b.drop_first().skip(i - 1) =~= b.skip(i));
    }
}

/// Whether a file name survives filtering.
pub fn qualifies(name: &String) -> (r: bool)
    ensures
        r == file_qualifies(name@),
{
    let len = name.as_str().unicode_len();
    if len < 4 {
        return false;
    }
    let c0 = name.as_str().get_char(len - 3);
    let c1 = name.as_str().get_char(len - 2);
    let c2 = name.as_str().get_char(len - 1);
    if !(c0 == '.' && c1 == 'r' && c2 == 's') {
        proof {
            let tail = name@.subrange(len - 3, len as int);
            assert(tail[0] == name@[len - 3]);
            assert(tail[1] == name@[len - 2]);
            assert(tail[2] == name@[len - 1]);
        }
        return false;
    }
    proof {
        assert(name@.subrange(len - 3, len as int) =~= source_suffix());
    }
    let marker = "mod.rs".to_owned();
    if *name == marker {
        return false;
    }
    let lib_root = "lib.rs".to_owned();
    if *name == lib_root {
        return false;
    }
    let main_root = "main.rs".to_owned();
    if *name == main_root {
        return false;
    }
    true
}

/// Strict lexicographic comparison of two names, by code point.
pub fn str_lex_lt(a: &str, b: &str) -> (r: bool)
    ensures
        r == lex_lt(a@, b@),
{
    let alen = a.unicode_len();
    let blen = b.unicode_len();
    let end = if alen < blen {
        alen
    } else {
        blen
    };
    let mut i: usize = 0;
    while i < end
        invariant
            0 <= i <= end,
            alen == a@.len(),
            blen == b@.len(),
            end == if alen < blen {
                alen
            } else {
                blen
            },
            forall|j: int| 0 <= j < i ==> a@[j] == b@[j],
        decreases end - i,
    {
        let ca = a.get_char(i);
        let cb = b.get_char(i);
        if ca != cb {
            proof {
                lemma_lex_lt_common_prefix(a@, b@, i as int);
                assert(a@.skip(i as int).first() == a@[i as int]);
                assert(b@.skip(i as int).first() == b@[i as int]);
            }
            return (ca as u32) < (cb as u32);
        }
        i += 1;
    }
    proof {
        lemma_lex_lt_common_prefix(a@, b@, end as int);
        assert(a@.skip(end as int).len() == alen - end);
        assert(b@.skip(end as int).len() == blen - end);
    }
    alen < blen
}

/// Inserts a surviving directory entry at its place in the name-sorted
/// sequence of directory entries, replacing an entry of the same name.
fn insert_dir_entry(dirs: &mut Vec<Entry>, d: Entry)
    ensures
        view_entry_seq(final(dirs)@) == insert_dir(d@, view_entry_seq(old(dirs)@)),
{
    broadcast use lemma_view_entry_seq_len, lemma_view_entry_seq_index;

    let ghost vs = view_entry_seq(dirs@);
    let ghost dv = d@;
    let n = dirs.len();
    proof {
        lemma_view_entry_seq_len(dirs@);
        assert(vs.skip(0) =~= vs);
        assert(vs.take(0) + insert_dir(dv, vs.skip(0)) =~= insert_dir(dv, vs));
    }
    let mut j: usize = 0;
    while j < n
        invariant
            0 <= j <= n,
            n == dirs@.len(),
            dirs@ == old(dirs)@,
            vs == view_entry_seq(dirs@),
            dv == d@,
            insert_dir(dv, vs) == vs.take(j as int) + insert_dir(dv, vs.skip(j as int)),
        decreases n - j,
    {
        proof {
            lemma_view_entry_seq_len(dirs@);
            lemma_view_entry_seq_index(dirs@, j as int);
            assert(vs.skip(j as int).len() == n - j);
            assert forall|k: int| 0 <= k < n implies #[trigger] vs[k] == dirs@[k]@ by {
                lemma_view_entry_seq_index(dirs@, k);
            }
        }
        let cur_name = dirs[j].name().clone();
        if str_lex_lt(d.name().as_str(), cur_name.as_str()) {
            proof {
                assert(vs.skip(j as int).first() == vs[j as int]);
                assert(insert_dir(dv, vs.skip(j as int)) == seq![dv] + vs.skip(j as int));
            }
            dirs.insert(j, d);
            proof {
                lemma_view_entry_seq_len(dirs@);
                assert forall|k: int| 0 <= k < dirs@.len() implies #[trigger] view_entry_seq(
                    dirs@,
                )[k] == dirs@[k]@ by {
                    lemma_view_entry_seq_index(dirs@, k);
                }
                assert(view_entry_seq(dirs@) =~= vs.take(j as int) + (seq![dv] + vs.skip(
                    j as int,
                )));
            }
            return ;
        }
        if *d.name() == cur_name {
            proof {
                assert(vs.skip(j as int).first() == vs[j as int]);
                assert(insert_dir(dv, vs.skip(j as int)) == seq![dv] + vs.skip(j as int).drop_first());
                assert(vs.skip(j as int).drop_first() =~= vs.skip(j as int + 1));
            }
            dirs.set(j, d);
            proof {
                lemma_view_entry_seq_len(dirs@);
                assert forall|k: int| 0 <= k < dirs@.len() implies #[trigger] view_entry_seq(
                    dirs@,
                )[k] == dirs@[k]@ by {
                    lemma_view_entry_seq_index(dirs@, k);
                }
                assert(view_entry_seq(dirs@) =~= vs.take(j as int) + (seq![dv] + vs.skip(
                    j as int + 1,
                )));
            }
            return ;
        }
        proof {
            assert(vs.skip(j as int).first() == vs[j as int]);
            assert(insert_dir(dv, vs.skip(j as int)) == seq![vs[j as int]] + insert_dir(
                dv,
                vs.skip(j as int).drop_first(),
            ));
            assert(vs.skip(j as int).drop_first() =~= vs.skip(j as int + 1));
            assert(vs.take(j as int) + (seq![vs[j as int]] + insert_dir(dv, vs.skip(j as int + 1)))
                =~= vs.take(j as int + 1) + insert_dir(dv, vs.skip(j as int + 1)));
        }
        j += 1;
    }
    proof {
        assert(vs.skip(n as int).len() == 0);
        assert(insert_dir(dv, vs.skip(n as int)) == seq![dv]);
    }
    dirs.push(d);
    proof {
        lemma_view_entry_seq_len(dirs@);
        assert forall|k: int| 0 <= k < dirs@.len() implies #[trigger] view_entry_seq(dirs@)[k]
            == dirs@[k]@ by {
            lemma_view_entry_seq_index(dirs@, k);
        }
        assert(view_entry_seq(dirs@) =~= vs.take(n as int) + seq![dv]);
    }
}

/// The first special entry of a listing is found below the first
/// element that has one.
pub proof fn lemma_first_special_at(s: Seq<RawEntryV>, i: int)
    requires
        0 <= i < s.len(),
        forall|j: int| 0 <= j < i ==> !has_special(#[trigger] s[j]),
        has_special(s[i]),
    ensures
        seq_has_special(s),
        first_special(s) == entry_first_special(s[i]),
    decreases i,
{
    lemma_seq_has_special_iff(s);
    if i == 0 {
        assert(s.first() == s[0]);
    } else {
        assert(!has_special(s.first()));
        assert(forall|j: int|
            0 <= j < i - 1 ==> !has_special(#[trigger] s.drop_first()[j]));
        lemma_first_special_at(s.drop_first(), i - 1);
        assert(s.drop_first()[i - 1] == s[i]);
    }
}

/// Scans the raw listing of one directory and produces its filtered
/// children: the surviving subdirectories first, sorted by name, then the
/// qualifying files in listing order. The scan fails, reporting the name
/// of the first offender in depth-first listing order, exactly when some
/// entry at any depth is neither a regular file nor a directory.
pub fn scan_entries(entries: &Vec<RawEntry>) -> (r: Result<Vec<Entry>, ScanError>)
    ensures
        r is Ok <==> !seq_has_special(view_raw_seq(entries@)),
        r matches Ok(es) ==> view_entry_seq(es@) == scan_children(view_raw_seq(entries@)),
        r matches Err(err) ==> err->name@ == first_special(view_raw_seq(entries@)),
    decreases entries@,
{
    broadcast use lemma_view_raw_seq_len;

    let ghost vr = view_raw_seq(entries@);
    let mut dirs: Vec<Entry> = Vec::new();
    let mut files: Vec<Entry> = Vec::new();
    let n = entries.len();
    proof {
        assert(vr.take(0) =~= Seq::<RawEntryV>::empty());
        assert(view_entry_seq(dirs@) =~= Seq::<EntryV>::empty());
        assert(view_entry_seq(files@) =~= Seq::<EntryV>::empty());
    }
    let mut i: usize = 0;
    while i < n
        invariant
            0 <= i <= n,
            n == entries@.len(),
            vr == view_raw_seq(entries@),
            vr.len() == n,
            forall|j: int| 0 <= j < i ==> !has_special(#[trigger] vr[j]),
            scan_fold(vr.take(i as int)).0 == view_entry_seq(dirs@),
            scan_fold(vr.take(i as int)).1 == view_entry_seq(files@),
        decreases n - i,
    {
        proof {
            lemma_view_raw_seq_index(entries@, i as int);
            assert(vr.take(i as int + 1).drop_last() =~= vr.take(i as int));
            assert(vr.take(i as int + 1).last() == vr[i as int]);
        }
        match &entries[i] {
            RawEntry::File { name } => {
                proof {
                    assert(entries@[i as int] == RawEntry::File { name: *name });
                    assert(vr[i as int] == RawEntryV::File { name: name@ });
                }
                if qualifies(name) {
                    let ghost files_pre = files@;
                    files.push(Entry::File { name: name.clone() });
                    proof {
                        assert(files@.drop_last() =~= files_pre);
                        assert(view_entry_seq(files@) == view_entry_seq(files_pre).push(
                            files@.last()@,
                        ));
                        assert(files@.last()@ == EntryV::File { name: name@ });
                    }
                }
            },
            RawEntry::Dir { name, entries: sub } => {
                proof {
                    assert(entries@[i as int] == RawEntry::Dir { name: *name, entries: *sub });
                    assert(vr[i as int] == RawEntryV::Dir {
                        name: name@,
                        entries: view_raw_seq(sub@),
                    });
                    assert(decreases_to!(entries@ => entries@[i as int]));
                    assert(decreases_to!(entries@[i as int] => *sub));
                    assert(decreases_to!(*sub => sub@));
                }
                let sub_scanned = match scan_entries(sub) {
                    Ok(v) => v,
                    Err(err) => {
                        proof {
                            lemma_first_special_at(vr, i as int);
                        }
                        return Err(err);
                    },
                };
                let ghost sub_view = view_entry_seq(sub_scanned@);
                if sub_scanned.len() > 0 {
                    proof {
                        lemma_view_entry_seq_len(sub_scanned@);
                    }
                    let ghost dirs_pre = view_entry_seq(dirs@);
                    let d = Entry::Dir { name: name.clone(), children: sub_scanned };
                    proof {
                        assert(d@ == EntryV::Dir {
                            name: name@,
                            children: scan_children(view_raw_seq(sub@)),
                        });
                    }
                    insert_dir_entry(&mut dirs, d);
                } else {
                    proof {
                        lemma_view_entry_seq_len(sub_scanned@);
                        assert(scan_children(view_raw_seq(sub@)).len() == 0);
                    }
                }
            },
            RawEntry::Special { name } => {
                proof {
                    assert(entries@[i as int] == RawEntry::Special { name: *name });
                    assert(vr[i as int] == RawEntryV::Special { name: name@ });
                    lemma_first_special_at(vr, i as int);
                }
                return Err(ScanError::UnsupportedEntry { name: name.clone() });
            },
        }
        i += 1;
    }
    proof {
        assert(vr.take(n as int) =~= vr);
        lemma_seq_has_special_iff(vr);
        lemma_view_entry_seq_len(dirs@);
        lemma_view_entry_seq_len(files@);
        assert forall|k: int| 0 <= k < dirs@.len() implies #[trigger] view_entry_seq(dirs@)[k]
            == dirs@[k]@ by {
            lemma_view_entry_seq_index(dirs@, k);
        }
        assert forall|k: int| 0 <= k < files@.len() implies #[trigger] view_entry_seq(files@)[k]
            == files@[k]@ by {
            lemma_view_entry_seq_index(files@, k);
        }
    }
    let ghost dirs_v = view_entry_seq(dirs@);
    let ghost files_v = view_entry_seq(files@);
    let ghost dirs_seq = dirs@;
    let ghost files_seq = files@;
    let mut out = dirs;
    out.append(&mut files);
    proof {
        lemma_view_entry_seq_len(out@);
        assert forall|k: int| 0 <= k < out@.len() implies #[trigger] view_entry_seq(out@)[k]
            == out@[k]@ by {
            lemma_view_entry_seq_index(out@, k);
        }
        assert(out@ == dirs_seq + files_seq);
        assert(view_entry_seq(out@) =~= dirs_v + files_v);
    }
    Ok(out)
}

} // verus!
