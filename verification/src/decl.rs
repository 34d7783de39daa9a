//! The declaration tree: the builder's output.
//!
//! A `DeclNode` mirrors a filtered `Entry` one for one, but carries two
//! names: the sanitized identifier under which the unit or namespace is
//! declared, and the original on-disk name that binds the declaration to
//! the physical file or directory it stands for.

use vstd::prelude::*;

use crate::entry::{
    Entry, EntryV, lemma_view_entry_seq_index, lemma_view_entry_seq_len, view_entry_seq,
};
use crate::sanitize::{sanitize, spec_sanitize};

verus! {

/// One declaration: a leaf unit for a file, or a namespace block for a
/// directory.
#[derive(Debug)]
pub enum DeclNode {
    /// A leaf unit declaration, for one source file.
    Leaf { ident: String, binding: String },
    /// A namespace declaration owning the declarations of a directory's
    /// children.
    Namespace { ident: String, binding: String, children: Vec<DeclNode> },
}

/// The mathematical model of a `DeclNode`.
pub ghost enum DeclNodeV {
    Leaf { ident: Seq<char>, binding: Seq<char> },
    Namespace { ident: Seq<char>, binding: Seq<char>, children: Seq<DeclNodeV> },
}

impl View for DeclNode {
    type V = DeclNodeV;

    open spec fn view(&self) -> DeclNodeV
        decreases self,
    {
        match self {
            DeclNode::Leaf { ident, binding } => DeclNodeV::Leaf {
                ident: ident@,
                binding: binding@,
            },
            DeclNode::Namespace { ident, binding, children } => DeclNodeV::Namespace {
                ident: ident@,
                binding: binding@,
                children: view_decl_seq(children@),
            },
        }
    }
}

/// The model of a sequence of declarations.
pub open spec fn view_decl_seq(s: Seq<DeclNode>) -> Seq<DeclNodeV>
    decreases s,
{
    if s.len() == 0 {
        Seq::empty()
    } else {
        view_decl_seq(s.drop_last()).push(s.last()@)
    }
}

pub broadcast proof fn lemma_view_decl_seq_len(s: Seq<DeclNode>)
    ensures
        (#[trigger] view_decl_seq(s)).len() == s.len(),
    decreases s,
{
    if s.len() > 0 {
        lemma_view_decl_seq_len(s.drop_last());
        assert(view_decl_seq(s) == view_decl_seq(s.drop_last()).push(s.last()@));
    } else {
        assert(view_decl_seq(s) == Seq::<DeclNodeV>::empty());
    }
}

pub broadcast proof fn lemma_view_decl_seq_index(s: Seq<DeclNode>, i: int)
    requires
        0 <= i < s.len(),
    ensures
        #[trigger] view_decl_seq(s)[i] == s[i]@,
    decreases s,
{
    lemma_view_decl_seq_len(s.drop_last());
    assert(view_decl_seq(s) == view_decl_seq(s.drop_last()).push(s.last()@));
    if i < s.len() - 1 {
        lemma_view_decl_seq_index(s.drop_last(), i);
    } else {
        assert(view_decl_seq(s)[i] == s.last()@);
    }
}

/// The declaration a filtered entry turns into: a leaf for a file, with
/// the suffix-stripped sanitized identifier; a namespace for a directory,
/// with the suffix-keeping sanitized identifier and the built children in
/// unchanged order. The binding is the original name in both cases.
pub open spec fn spec_build(e: EntryV) -> DeclNodeV
    decreases e,
{
    match e {
        EntryV::File { name } => DeclNodeV::Leaf {
            ident: spec_sanitize(name, true),
            binding: name,
        },
        EntryV::Dir { name, children } => DeclNodeV::Namespace {
            ident: spec_sanitize(name, false),
            binding: name,
            children: spec_build_seq(children),
        },
    }
}

/// `spec_build` applied to each entry, in order.
pub open spec fn spec_build_seq(s: Seq<EntryV>) -> Seq<DeclNodeV>
    decreases s,
{
    if s.len() == 0 {
        Seq::empty()
    } else {
        spec_build_seq(s.drop_last()).push(spec_build(s.last()))
    }
}

/// Builds the declaration for one filtered entry.
pub fn build(e: &Entry) -> (r: DeclNode)
    ensures
        r@ == spec_build(e@),
    decreases e,
{
    match e {
        Entry::File { name } => DeclNode::Leaf {
            ident: sanitize(name.clone(), true),
            binding: name.clone(),
        },
        Entry::Dir { name, children } => {
            let ghost cv = view_entry_seq(children@);
            let mut out: Vec<DeclNode> = Vec::new();
            proof {
                lemma_view_entry_seq_len(children@);
                assert(cv.take(0) =~= Seq::<EntryV>::empty());
                assert(view_decl_seq(out@) == Seq::<DeclNodeV>::empty());
            }
            let n = children.len();
            let mut i: usize = 0;
            while i < n
                invariant
                    0 <= i <= n,
                    n == children@.len(),
                    cv == view_entry_seq(children@),
                    cv.len() == n,
                    *e == (Entry::Dir { name: *name, children: *children }),
                    view_decl_seq(out@) == spec_build_seq(cv.take(i as int)),
                decreases n - i,
            {
                proof {
                    lemma_view_entry_seq_index(children@, i as int);
                    assert(decreases_to!(*e => e->Dir_children));
                    assert(e->Dir_children == *children);
                    assert(decreases_to!(*children => children@));
                    assert(decreases_to!(children@ => children@[i as int]));
                }
                let child = build(&children[i]);
                let ghost out_pre = out@;
                out.push(child);
                proof {
                    assert(out@.drop_last() =~= out_pre);
                    assert(view_decl_seq(out@) == view_decl_seq(out_pre).push(out@.last()@));
                    assert(cv.take(i as int + 1).drop_last() =~= cv.take(i as int));
                    assert(cv.take(i as int + 1).last() == cv[i as int]);
                }
                i += 1;
            }
            proof {
                assert(cv.take(n as int) =~= cv);
            }
            DeclNode::Namespace {
                ident: sanitize(name.clone(), false),
                binding: name.clone(),
                children: out,
            }
        },
    }
}

/// Builds the declarations for the filtered children of the scanned
/// root, in order.
pub fn build_entries(entries: &Vec<Entry>) -> (r: Vec<DeclNode>)
    ensures
        view_decl_seq(r@) == spec_build_seq(view_entry_seq(entries@)),
{
    let ghost ev = view_entry_seq(entries@);
    let mut out: Vec<DeclNode> = Vec::new();
    proof {
        lemma_view_entry_seq_len(entries@);
        assert(ev.take(0) =~= Seq::<EntryV>::empty());
        assert(view_decl_seq(out@) == Seq::<DeclNodeV>::empty());
    }
    let n = entries.len();
    let mut i: usize = 0;
    while i < n
        invariant
            0 <= i <= n,
            n == entries@.len(),
            ev == view_entry_seq(entries@),
            ev.len() == n,
            view_decl_seq(out@) == spec_build_seq(ev.take(i as int)),
        decreases n - i,
    {
        proof {
            lemma_view_entry_seq_index(entries@, i as int);
        }
        let node = build(&entries[i]);
        let ghost out_pre = out@;
        out.push(node);
        proof {
            assert(out@.drop_last() =~= out_pre);
            assert(view_decl_seq(out@) == view_decl_seq(out_pre).push(out@.last()@));
            assert(ev.take(i as int + 1).drop_last() =~= ev.take(i as int));
            assert(ev.take(i as int + 1).last() == ev[i as int]);
        }
        i += 1;
    }
    proof {
        assert(ev.take(n as int) =~= ev);
    }
    out
}

} // verus!
