//! The properties the generator keeps, stated and proved over the
//! specification functions of the pipeline.

use vstd::prelude::*;
use vstd::multiset::Multiset;

use crate::decl::{DeclNodeV, spec_build, spec_build_seq};
use crate::entry::{EntryV, RawEntryV, entry_name};
use crate::scan::{
    file_qualifies, insert_dir, lex_lt, scan_children, scan_fold,
};
use crate::spec_generate;

verus! {

/// A filtered entry is sound when every file in it qualifies and every
/// directory in it, itself included, has at least one child.
pub open spec fn entry_filtered(e: EntryV) -> bool
    decreases e,
{
    match e {
        EntryV::File { name } => file_qualifies(name),
        EntryV::Dir { name, children } => children.len() > 0 && entries_filtered(children),
    }
}

/// All entries of the sequence are sound filtered entries.
pub open spec fn entries_filtered(s: Seq<EntryV>) -> bool
    decreases s,
{
    if s.len() == 0 {
        true
    } else {
        entries_filtered(s.drop_last()) && entry_filtered(s.last())
    }
}

/// Every leaf of the declaration carries a qualifying source name as its
/// binding.
pub open spec fn decl_bindings_qualify(d: DeclNodeV) -> bool
    decreases d,
{
    match d {
        DeclNodeV::Leaf { binding, .. } => file_qualifies(binding),
        DeclNodeV::Namespace { children, .. } => decls_bindings_qualify(children),
    }
}

/// `decl_bindings_qualify` over every declaration of the sequence.
pub open spec fn decls_bindings_qualify(s: Seq<DeclNodeV>) -> bool
    decreases s,
{
    if s.len() == 0 {
        true
    } else {
        decls_bindings_qualify(s.drop_last()) && decl_bindings_qualify(s.last())
    }
}

/// No namespace declaration below this one, itself included, is empty.
pub open spec fn decl_no_empty_namespace(d: DeclNodeV) -> bool
    decreases d,
{
    match d {
        DeclNodeV::Leaf { .. } => true,
        DeclNodeV::Namespace { children, .. } => children.len() > 0
            && decls_no_empty_namespace(children),
    }
}

/// `decl_no_empty_namespace` over every declaration of the sequence.
pub open spec fn decls_no_empty_namespace(s: Seq<DeclNodeV>) -> bool
    decreases s,
{
    if s.len() == 0 {
        true
    } else {
        decls_no_empty_namespace(s.drop_last()) && decl_no_empty_namespace(s.last())
    }
}

/// Soundness of a sequence of filtered entries is the same as the
/// soundness of each of its elements.
pub proof fn lemma_entries_filtered_iff(s: Seq<EntryV>)
    ensures
        entries_filtered(s) <==> (forall|j: int|
            0 <= j < s.len() ==> entry_filtered(#[trigger] s[j])),
    decreases s,
{
    if s.len() > 0 {
        lemma_entries_filtered_iff(s.drop_last());
        assert(forall|j: int|
            0 <= j < s.len() - 1 ==> s.drop_last()[j] == #[trigger] s[j]);
        if entries_filtered(s) {
            assert forall|j: int| 0 <= j < s.len() implies entry_filtered(#[trigger] s[j]) by {
                if j < s.len() - 1 {
                    assert(s[j] == s.drop_last()[j]);
                } else {
                    assert(s[j] == s.last());
                }
            }
        }
    }
}

/// Sorted insertion keeps a sequence of sound filtered entries sound.
pub proof fn lemma_insert_dir_filtered(d: EntryV, s: Seq<EntryV>)
    requires
        entry_filtered(d),
        entries_filtered(s),
    ensures
        entries_filtered(insert_dir(d, s)),
    decreases s,
{
    lemma_entries_filtered_iff(s);
    if s.len() == 0 {
        lemma_entries_filtered_iff(insert_dir(d, s));
        assert(insert_dir(d, s) == seq![d]);
    } else if lex_lt(entry_name(d), entry_name(s.first())) {
        lemma_entries_filtered_iff(insert_dir(d, s));
        assert(insert_dir(d, s) == seq![d] + s);
        assert(forall|j: int|
            1 <= j < s.len() + 1 ==> (seq![d] + s)[j] == #[trigger] s[j - 1]);
    } else if entry_name(d) == entry_name(s.first()) {
        lemma_entries_filtered_iff(insert_dir(d, s));
        assert(insert_dir(d, s) == seq![d] + s.drop_first());
        assert(forall|j: int|
            1 <= j < s.len() ==> (seq![d] + s.drop_first())[j] == #[trigger] s[j]);
    } else {
        lemma_entries_filtered_iff(s.drop_first());
        assert(forall|j: int|
            0 <= j < s.len() - 1 ==> s.drop_first()[j] == #[trigger] s[j + 1]);
        lemma_insert_dir_filtered(d, s.drop_first());
        let t = insert_dir(d, s.drop_first());
        lemma_entries_filtered_iff(t);
        assert(insert_dir(d, s) == seq![s.first()] + t);
        lemma_entries_filtered_iff(insert_dir(d, s));
        assert(forall|j: int|
            1 <= j < t.len() + 1 ==> (seq![s.first()] + t)[j] == #[trigger] t[j - 1]);
    }
}

/// Both halves of the filtered state of one listing are sound.
pub proof fn lemma_scan_fold_filtered(s: Seq<RawEntryV>)
    ensures
        entries_filtered(scan_fold(s).0),
        entries_filtered(scan_fold(s).1),
    decreases s, 0int,
{
    if s.len() > 0 {
        lemma_scan_fold_filtered(s.drop_last());
        let acc = scan_fold(s.drop_last());
        match s.last() {
            RawEntryV::File { name } => {
                if file_qualifies(name) {
                    assert(scan_fold(s).0 == acc.0);
                    assert(scan_fold(s).1 == acc.1.push(EntryV::File { name }));
                    assert(acc.1.push(EntryV::File { name }).drop_last() =~= acc.1);
                    assert(entry_filtered(acc.1.push(EntryV::File { name }).last()));
                } else {
                    assert(scan_fold(s) == acc);
                }
            },
            RawEntryV::Dir { name, entries } => {
                let children = scan_children(entries);
                if children.len() > 0 {
                    lemma_scan_children_filtered(entries);
                    lemma_insert_dir_filtered(EntryV::Dir { name, children }, acc.0);
                    assert(scan_fold(s).0 == insert_dir(EntryV::Dir { name, children }, acc.0));
                    assert(scan_fold(s).1 == acc.1);
                } else {
                    assert(scan_fold(s) == acc);
                }
            },
            RawEntryV::Special { .. } => {
                assert(scan_fold(s) == acc);
            },
        }
    }
}

/// The scanned children of any listing are sound filtered entries: every
/// file qualifies and every directory, at any depth, is non-empty.
pub proof fn lemma_scan_children_filtered(s: Seq<RawEntryV>)
    ensures
        entries_filtered(scan_children(s)),
    decreases s, 1int,
{
    lemma_scan_fold_filtered(s);
    lemma_entries_filtered_iff(scan_fold(s).0);
    lemma_entries_filtered_iff(scan_fold(s).1);
    lemma_entries_filtered_iff(scan_children(s));
    let a = scan_fold(s).0;
    let b = scan_fold(s).1;
    assert(forall|j: int| 0 <= j < a.len() ==> (a + b)[j] == #[trigger] a[j]);
    assert(forall|j: int|
        a.len() <= j < a.len() + b.len() ==> (a + b)[j] == #[trigger] b[j - a.len()]);
}

/// Building the declaration of a sound filtered entry yields only
/// qualifying leaf bindings and no empty namespace.
pub proof fn lemma_build_filtered(e: EntryV)
    requires
        entry_filtered(e),
    ensures
        decl_bindings_qualify(spec_build(e)),
        decl_no_empty_namespace(spec_build(e)),
    decreases e,
{
    match e {
        EntryV::File { name } => {},
        EntryV::Dir { name, children } => {
            lemma_build_seq_len(children);
            lemma_build_seq_filtered(children);
        },
    }
}

/// Building declarations keeps the number of entries.
pub proof fn lemma_build_seq_len(s: Seq<EntryV>)
    ensures
        spec_build_seq(s).len() == s.len(),
    decreases s,
{
    if s.len() > 0 {
        lemma_build_seq_len(s.drop_last());
    }
}

/// `lemma_build_filtered` over a sequence of sound filtered entries.
pub proof fn lemma_build_seq_filtered(s: Seq<EntryV>)
    requires
        entries_filtered(s),
    ensures
        decls_bindings_qualify(spec_build_seq(s)),
        decls_no_empty_namespace(spec_build_seq(s)),
    decreases s,
{
    if s.len() > 0 {
        lemma_build_seq_filtered(s.drop_last());
        lemma_build_filtered(s.last());
        assert(spec_build_seq(s).drop_last() =~= spec_build_seq(s.drop_last()));
        assert(spec_build_seq(s).last() == spec_build(s.last()));
    }
}

/// Exclusion: in the declarations generated from any listing, the
/// binding of every leaf, at any depth, is a qualifying source name —
/// a name that is neither a non-source file, nor the directory-module
/// marker, nor one of the reserved root file names.
pub proof fn lemma_exclusion(s: Seq<RawEntryV>)
    ensures
        decls_bindings_qualify(spec_build_seq(scan_children(s))),
{
    lemma_scan_children_filtered(s);
    lemma_build_seq_filtered(scan_children(s));
}

/// Pruning: no namespace declaration generated from any listing is
/// empty, at any depth — a directory whose entire recursive content is
/// excluded produces no declaration at all.
pub proof fn lemma_pruning(s: Seq<RawEntryV>)
    ensures
        decls_no_empty_namespace(spec_build_seq(scan_children(s))),
{
    lemma_scan_children_filtered(s);
    lemma_build_seq_filtered(scan_children(s));
}

/// The bare parent-child structure of a tree, with all names erased.
pub ghost enum TreeShape {
    Leaf,
    Node { children: Seq<TreeShape> },
}

/// The shape of a filtered entry.
pub open spec fn entry_shape(e: EntryV) -> TreeShape
    decreases e,
{
    match e {
        EntryV::File { .. } => TreeShape::Leaf,
        EntryV::Dir { children, .. } => TreeShape::Node { children: entry_shapes(children) },
    }
}

/// The shapes of a sequence of filtered entries, in order.
pub open spec fn entry_shapes(s: Seq<EntryV>) -> Seq<TreeShape>
    decreases s,
{
    if s.len() == 0 {
        Seq::empty()
    } else {
        entry_shapes(s.drop_last()).push(entry_shape(s.last()))
    }
}

/// The shape of a declaration.
pub open spec fn decl_shape(d: DeclNodeV) -> TreeShape
    decreases d,
{
    match d {
        DeclNodeV::Leaf { .. } => TreeShape::Leaf,
        DeclNodeV::Namespace { children, .. } => TreeShape::Node {
            children: decl_shapes(children),
        },
    }
}

/// The shapes of a sequence of declarations, in order.
pub open spec fn decl_shapes(s: Seq<DeclNodeV>) -> Seq<TreeShape>
    decreases s,
{
    if s.len() == 0 {
        Seq::empty()
    } else {
        decl_shapes(s.drop_last()).push(decl_shape(s.last()))
    }
}

/// Structural fidelity: building declarations preserves the tree's
/// shape exactly — the nesting depth and the parent-child relationships
/// of the declarations match those of the filtered entries, child for
/// child and in the same order.
pub proof fn lemma_structural_fidelity(s: Seq<EntryV>)
    ensures
        decl_shapes(spec_build_seq(s)) == entry_shapes(s),
    decreases s, 1int,
{
    if s.len() == 0 {
        assert(decl_shapes(spec_build_seq(s)) =~= entry_shapes(s));
    } else {
        lemma_structural_fidelity(s.drop_last());
        lemma_entry_structural_fidelity(s.last());
        assert(spec_build_seq(s).drop_last() =~= spec_build_seq(s.drop_last()));
        assert(spec_build_seq(s).last() == spec_build(s.last()));
    }
}

/// Structural fidelity for one entry.
pub proof fn lemma_entry_structural_fidelity(e: EntryV)
    ensures
        decl_shape(spec_build(e)) == entry_shape(e),
    decreases e, 0int,
{
    match e {
        EntryV::File { .. } => {},
        EntryV::Dir { name, children } => {
            lemma_structural_fidelity(children);
        },
    }
}

/// Idempotence under fixed listing order: the generated text is a
/// function of the listing alone, so two generation passes over an
/// unmodified tree, listed in the same order, produce identical text.
pub proof fn lemma_generation_idempotent(first_pass: Seq<RawEntryV>, second_pass: Seq<RawEntryV>)
    requires
        first_pass == second_pass,
    ensures
        spec_generate(first_pass) == spec_generate(second_pass),
{
}

/// Lexicographic order on names is transitive.
pub proof fn lemma_lex_lt_trans(a: Seq<char>, b: Seq<char>, c: Seq<char>)
    requires
        lex_lt(a, b),
        lex_lt(b, c),
    ensures
        lex_lt(a, c),
    decreases a,
{
    if a.len() > 0 {
        if a.first() == b.first() && b.first() == c.first() {
            lemma_lex_lt_trans(a.drop_first(), b.drop_first(), c.drop_first());
        }
    }
}

/// Any two names are lexicographically comparable or equal.
pub proof fn lemma_lex_lt_connected(a: Seq<char>, b: Seq<char>)
    ensures
        lex_lt(a, b) || lex_lt(b, a) || a == b,
    decreases a,
{
    if a.len() == 0 && b.len() == 0 {
        assert(a =~= b);
    } else if a.len() > 0 && b.len() > 0 && a.first() == b.first() {
        lemma_lex_lt_connected(a.drop_first(), b.drop_first());
        if a.drop_first() == b.drop_first() {
            assert(a =~= seq![a.first()] + a.drop_first());
            assert(b =~= seq![b.first()] + b.drop_first());
            assert(a == b);
        }
    } else if a.len() > 0 && b.len() > 0 {
        assert(a.first() != b.first());
        vstd::utf8::char_u32_cast(a.first(), a.first() as u32);
        vstd::utf8::char_u32_cast(b.first(), b.first() as u32);
        assert((a.first() as u32) != (b.first() as u32));
    }
}

/// Lexicographic order on names is asymmetric.
pub proof fn lemma_lex_lt_asym(a: Seq<char>, b: Seq<char>)
    requires
        lex_lt(a, b),
    ensures
        !lex_lt(b, a),
    decreases a,
{
    if a.len() > 0 && b.len() > 0 && a.first() == b.first() {
        lemma_lex_lt_asym(a.drop_first(), b.drop_first());
    }
}

/// Sorted insertions of two entries with different names land in the
/// same sequence in either order.
pub proof fn lemma_insert_dir_commute(a: EntryV, b: EntryV, s: Seq<EntryV>)
    requires
        entry_name(a) != entry_name(b),
    ensures
        insert_dir(a, insert_dir(b, s)) == insert_dir(b, insert_dir(a, s)),
{
    lemma_lex_lt_connected(entry_name(a), entry_name(b));
    if lex_lt(entry_name(a), entry_name(b)) {
        lemma_insert_dir_commute_lt(a, b, s);
    } else {
        lemma_insert_dir_commute_lt(b, a, s);
    }
}

proof fn lemma_insert_dir_commute_lt(a: EntryV, b: EntryV, s: Seq<EntryV>)
    requires
        lex_lt(entry_name(a), entry_name(b)),
    ensures
        insert_dir(a, insert_dir(b, s)) == insert_dir(b, insert_dir(a, s)),
    decreases s,
{
    let na = entry_name(a);
    let nb = entry_name(b);
    lemma_lex_lt_asym(na, nb);
    if s.len() == 0 {
        assert(insert_dir(b, s) == seq![b]);
        assert(insert_dir(a, seq![b]) == seq![a] + seq![b]);
        assert(insert_dir(a, s) == seq![a]);
        assert(seq![a].first() == a);
        assert(seq![a].drop_first() =~= Seq::<EntryV>::empty());
        assert(insert_dir(b, seq![a]) == seq![a] + insert_dir(b, Seq::<EntryV>::empty()));
        assert(insert_dir(a, insert_dir(b, s)) =~= insert_dir(b, insert_dir(a, s)));
    } else {
        let c = s.first();
        let nc = entry_name(c);
        let sdf = s.drop_first();
        if lex_lt(nb, nc) {
            lemma_lex_lt_trans(na, nb, nc);
            assert(insert_dir(b, s) == seq![b] + s);
            assert((seq![b] + s).first() == b);
            assert(insert_dir(a, seq![b] + s) == seq![a] + (seq![b] + s));
            assert(insert_dir(a, s) == seq![a] + s);
            assert((seq![a] + s).first() == a);
            assert((seq![a] + s).drop_first() =~= s);
            assert(insert_dir(b, seq![a] + s) == seq![(seq![a] + s).first()] + insert_dir(b, s));
            assert(insert_dir(a, insert_dir(b, s)) =~= insert_dir(b, insert_dir(a, s)));
        } else if nb == nc {
            assert(insert_dir(b, s) == seq![b] + sdf);
            assert((seq![b] + sdf).first() == b);
            assert(insert_dir(a, seq![b] + sdf) == seq![a] + (seq![b] + sdf));
            assert(lex_lt(na, nc));
            assert(insert_dir(a, s) == seq![a] + s);
            assert((seq![a] + s).first() == a);
            assert((seq![a] + s).drop_first() =~= s);
            assert(insert_dir(b, seq![a] + s) == seq![a] + insert_dir(b, s));
            assert(insert_dir(a, insert_dir(b, s)) =~= insert_dir(b, insert_dir(a, s)));
        } else {
            lemma_lex_lt_connected(nb, nc);
            assert(lex_lt(nc, nb));
            lemma_lex_lt_asym(nc, nb);
            assert(insert_dir(b, s) == seq![c] + insert_dir(b, sdf));
            assert((seq![c] + insert_dir(b, sdf)).first() == c);
            assert((seq![c] + insert_dir(b, sdf)).drop_first() =~= insert_dir(b, sdf));
            if lex_lt(na, nc) {
                assert(insert_dir(a, seq![c] + insert_dir(b, sdf)) == seq![a] + (seq![c]
                    + insert_dir(b, sdf)));
                assert(insert_dir(a, s) == seq![a] + s);
                assert((seq![a] + s).first() == a);
                assert((seq![a] + s).drop_first() =~= s);
                assert(insert_dir(b, seq![a] + s) == seq![a] + insert_dir(b, s));
                assert(insert_dir(a, insert_dir(b, s)) =~= insert_dir(b, insert_dir(a, s)));
            } else if na == nc {
                lemma_lex_lt_asym(na, nb);
                assert(insert_dir(a, seq![c] + insert_dir(b, sdf)) == seq![a] + insert_dir(
                    b,
                    sdf,
                ));
                assert(insert_dir(a, s) == seq![a] + sdf);
                assert((seq![a] + sdf).first() == a);
                assert((seq![a] + sdf).drop_first() =~= sdf);
                assert(insert_dir(b, seq![a] + sdf) == seq![a] + insert_dir(b, sdf));
            } else {
                lemma_lex_lt_connected(na, nc);
                assert(lex_lt(nc, na));
                lemma_lex_lt_asym(nc, na);
                lemma_insert_dir_commute_lt(a, b, sdf);
                assert(insert_dir(a, seq![c] + insert_dir(b, sdf)) == seq![c] + insert_dir(
                    a,
                    insert_dir(b, sdf),
                ));
                assert(insert_dir(a, s) == seq![c] + insert_dir(a, sdf));
                assert((seq![c] + insert_dir(a, sdf)).first() == c);
                assert((seq![c] + insert_dir(a, sdf)).drop_first() =~= insert_dir(a, sdf));
                assert(insert_dir(b, seq![c] + insert_dir(a, sdf)) == seq![c] + insert_dir(
                    b,
                    insert_dir(a, sdf),
                ));
            }
        }
    }
}

/// Listings whose filtered states agree still agree after scanning any
/// further entries.
pub proof fn lemma_scan_fold_congruence(p: Seq<RawEntryV>, q: Seq<RawEntryV>, u: Seq<RawEntryV>)
    requires
        scan_fold(p) == scan_fold(q),
    ensures
        scan_fold(p + u) == scan_fold(q + u),
    decreases u,
{
    if u.len() == 0 {
        assert(p + u =~= p);
        assert(q + u =~= q);
    } else {
        lemma_scan_fold_congruence(p, q, u.drop_last());
        assert((p + u).drop_last() =~= p + u.drop_last());
        assert((q + u).drop_last() =~= q + u.drop_last());
        assert((p + u).last() == u.last());
        assert((q + u).last() == u.last());
    }
}

/// Scanning two adjacent entries, not both files, in either order leads
/// to the same filtered state.
pub proof fn lemma_scan_fold_swap(p: Seq<RawEntryV>, x: RawEntryV, y: RawEntryV)
    requires
        !(x is File && y is File),
        x is Dir && y is Dir ==> raw_name(x) != raw_name(y),
    ensures
        scan_fold(p.push(x).push(y)) == scan_fold(p.push(y).push(x)),
{
    reveal_with_fuel(scan_fold, 3);
    assert(p.push(x).push(y).drop_last() =~= p.push(x));
    assert(p.push(x).push(y).last() == y);
    assert(p.push(x).drop_last() =~= p);
    assert(p.push(x).last() == x);
    assert(p.push(y).push(x).drop_last() =~= p.push(y));
    assert(p.push(y).push(x).last() == x);
    assert(p.push(y).drop_last() =~= p);
    assert(p.push(y).last() == y);
    let acc = scan_fold(p);
    match x {
        RawEntryV::Dir { name: nx, entries: ex } => {
            let cx = scan_children(ex);
            let dx = EntryV::Dir { name: nx, children: cx };
            match y {
                RawEntryV::Dir { name: ny, entries: ey } => {
                    let cy = scan_children(ey);
                    let dy = EntryV::Dir { name: ny, children: cy };
                    if cx.len() > 0 && cy.len() > 0 {
                        lemma_insert_dir_commute(dx, dy, acc.0);
                        assert(scan_fold(p.push(x).push(y)) == (
                            insert_dir(dy, insert_dir(dx, acc.0)),
                            acc.1,
                        ));
                        assert(scan_fold(p.push(y).push(x)) == (
                            insert_dir(dx, insert_dir(dy, acc.0)),
                            acc.1,
                        ));
                    }
                },
                RawEntryV::File { name: ny } => {
                    if cx.len() > 0 && file_qualifies(ny) {
                        assert(scan_fold(p.push(x).push(y)) == (
                            insert_dir(dx, acc.0),
                            acc.1.push(EntryV::File { name: ny }),
                        ));
                        assert(scan_fold(p.push(y).push(x)) == (
                            insert_dir(dx, acc.0),
                            acc.1.push(EntryV::File { name: ny }),
                        ));
                    }
                },
                RawEntryV::Special { .. } => {},
            }
        },
        RawEntryV::File { name: nx } => {
            match y {
                RawEntryV::Dir { name: ny, entries: ey } => {
                    let cy = scan_children(ey);
                    let dy = EntryV::Dir { name: ny, children: cy };
                    if cy.len() > 0 && file_qualifies(nx) {
                        assert(scan_fold(p.push(x).push(y)) == (
                            insert_dir(dy, acc.0),
                            acc.1.push(EntryV::File { name: nx }),
                        ));
                        assert(scan_fold(p.push(y).push(x)) == (
                            insert_dir(dy, acc.0),
                            acc.1.push(EntryV::File { name: nx }),
                        ));
                    }
                },
                _ => {},
            }
        },
        RawEntryV::Special { .. } => {},
    }
}

/// The position at which a listing reports a subdirectory does not
/// affect the filtered children: swapping a directory entry with an
/// adjacent entry (unless both are files, whose mutual order is kept)
/// changes nothing — a subdirectory finds its place by name, not by
/// listing position.
pub proof fn lemma_dir_listing_order_irrelevant(s: Seq<RawEntryV>, i: int)
    requires
        0 <= i < s.len() - 1,
        !((s[i]) is File && (s[i + 1]) is File),
        (s[i]) is Dir && (s[i + 1]) is Dir ==> raw_name(s[i]) != raw_name(s[i + 1]),
    ensures
        scan_children(s.update(i, s[i + 1]).update(i + 1, s[i])) == scan_children(s),
{
    let s2 = s.update(i, s[i + 1]).update(i + 1, s[i]);
    let front = s.take(i).push(s[i]).push(s[i + 1]);
    let front2 = s.take(i).push(s[i + 1]).push(s[i]);
    assert(s =~= front + s.skip(i + 2));
    assert(s2 =~= front2 + s.skip(i + 2));
    lemma_scan_fold_swap(s.take(i), s[i], s[i + 1]);
    lemma_scan_fold_congruence(front, front2, s.skip(i + 2));
}

/// An element of a sorted insertion is the inserted entry or one of the
/// original entries.
pub proof fn lemma_insert_dir_elem(d: EntryV, s: Seq<EntryV>, j: int)
    requires
        0 <= j < insert_dir(d, s).len(),
    ensures
        insert_dir(d, s)[j] == d || exists|k: int| 0 <= k < s.len() && insert_dir(d, s)[j]
            == s[k],
    decreases s,
{
    let t = insert_dir(d, s);
    if s.len() == 0 {
        assert(t == seq![d]);
    } else if lex_lt(entry_name(d), entry_name(s.first())) {
        assert(t == seq![d] + s);
        if j > 0 {
            assert(t[j] == s[j - 1]);
        }
    } else if entry_name(d) == entry_name(s.first()) {
        assert(t == seq![d] + s.drop_first());
        if j > 0 {
            assert(t[j] == s.drop_first()[j - 1]);
            assert(s.drop_first()[j - 1] == s[j]);
        }
    } else {
        assert(t == seq![s.first()] + insert_dir(d, s.drop_first()));
        if j == 0 {
            assert(t[0] == s[0]);
        } else {
            assert(t[j] == insert_dir(d, s.drop_first())[j - 1]);
            lemma_insert_dir_elem(d, s.drop_first(), j - 1);
            if insert_dir(d, s.drop_first())[j - 1] != d {
                let k = choose|k: int|
                    0 <= k < s.drop_first().len() && insert_dir(d, s.drop_first())[j - 1]
                        == s.drop_first()[k];
                assert(s.drop_first()[k] == s[k + 1]);
            }
        }
    }
}

/// The names of the entries appear in strictly increasing lexicographic
/// order.
pub open spec fn dir_names_sorted(s: Seq<EntryV>) -> bool {
    forall|j: int, k: int|
        0 <= j < k < s.len() ==> lex_lt(
            entry_name(#[trigger] s[j]),
            entry_name(#[trigger] s[k]),
        )
}

/// Sorted insertion keeps the names strictly sorted.
pub proof fn lemma_insert_dir_sorted(d: EntryV, s: Seq<EntryV>)
    requires
        dir_names_sorted(s),
    ensures
        dir_names_sorted(insert_dir(d, s)),
    decreases s,
{
    let t = insert_dir(d, s);
    if s.len() == 0 {
        assert(t == seq![d]);
    } else if lex_lt(entry_name(d), entry_name(s.first())) {
        assert(t == seq![d] + s);
        assert forall|j: int, k: int| 0 <= j < k < t.len() implies lex_lt(
            entry_name(#[trigger] t[j]),
            entry_name(#[trigger] t[k]),
        ) by {
            if j == 0 {
                assert(t[k] == s[k - 1]);
                if k - 1 > 0 {
                    assert(lex_lt(entry_name(s[0]), entry_name(s[k - 1])));
                    lemma_lex_lt_trans(entry_name(d), entry_name(s[0]), entry_name(s[k - 1]));
                }
            } else {
                assert(t[j] == s[j - 1]);
                assert(t[k] == s[k - 1]);
            }
        }
    } else if entry_name(d) == entry_name(s.first()) {
        assert(t == seq![d] + s.drop_first());
        assert forall|j: int, k: int| 0 <= j < k < t.len() implies lex_lt(
            entry_name(#[trigger] t[j]),
            entry_name(#[trigger] t[k]),
        ) by {
            if j == 0 {
                assert(t[k] == s.drop_first()[k - 1]);
                assert(s.drop_first()[k - 1] == s[k]);
                assert(lex_lt(entry_name(s[0]), entry_name(s[k])));
            } else {
                assert(t[j] == s[j]);
                assert(t[k] == s[k]);
            }
        }
    } else {
        lemma_lex_lt_connected(entry_name(d), entry_name(s.first()));
        assert(lex_lt(entry_name(s.first()), entry_name(d)));
        assert(forall|j: int|
            0 <= j < s.len() - 1 ==> #[trigger] s.drop_first()[j] == s[j + 1]);
        lemma_insert_dir_sorted(d, s.drop_first());
        let ti = insert_dir(d, s.drop_first());
        assert(t == seq![s.first()] + ti);
        assert forall|j: int, k: int| 0 <= j < k < t.len() implies lex_lt(
            entry_name(#[trigger] t[j]),
            entry_name(#[trigger] t[k]),
        ) by {
            if j == 0 {
                assert(t[k] == ti[k - 1]);
                lemma_insert_dir_elem(d, s.drop_first(), k - 1);
                if ti[k - 1] == d {
                    assert(lex_lt(entry_name(s[0]), entry_name(d)));
                } else {
                    let m = choose|m: int|
                        0 <= m < s.drop_first().len() && ti[k - 1] == s.drop_first()[m];
                    assert(ti[k - 1] == s[m + 1]);
                    assert(lex_lt(entry_name(s[0]), entry_name(s[m + 1])));
                }
            } else {
                assert(t[j] == ti[j - 1]);
                assert(t[k] == ti[k - 1]);
            }
        }
    }
}

pub proof fn lemma_fold_dirs_sorted(s: Seq<RawEntryV>)
    ensures
        dir_names_sorted(scan_fold(s).0),
        forall|j: int| 0 <= j < scan_fold(s).0.len() ==> (#[trigger] scan_fold(s).0[j]) is Dir,
        forall|j: int| 0 <= j < scan_fold(s).1.len() ==> (#[trigger] scan_fold(s).1[j]) is File,
    decreases s,
{
    if s.len() > 0 {
        lemma_fold_dirs_sorted(s.drop_last());
        let acc = scan_fold(s.drop_last());
        match s.last() {
            RawEntryV::File { name } => {
                if file_qualifies(name) {
                    assert(scan_fold(s).1 == acc.1.push(EntryV::File { name }));
                    assert(forall|j: int|
                        0 <= j < acc.1.len() ==> acc.1.push(EntryV::File { name })[j]
                            == #[trigger] acc.1[j]);
                } else {
                    assert(scan_fold(s) == acc);
                }
            },
            RawEntryV::Dir { name, entries } => {
                let children = scan_children(entries);
                if children.len() > 0 {
                    let d = EntryV::Dir { name, children };
                    lemma_insert_dir_sorted(d, acc.0);
                    assert(scan_fold(s).0 == insert_dir(d, acc.0));
                    assert forall|j: int| 0 <= j < scan_fold(s).0.len() implies (
                    #[trigger] scan_fold(s).0[j]) is Dir by {
                        lemma_insert_dir_elem(d, acc.0, j);
                    }
                } else {
                    assert(scan_fold(s) == acc);
                }
            },
            RawEntryV::Special { .. } => {
                assert(scan_fold(s) == acc);
            },
        }
    }
}

/// At one level, the filtered children are well ordered: every
/// subdirectory stands before every file, and the subdirectories come in
/// strictly increasing name order.
pub open spec fn children_well_ordered(s: Seq<EntryV>) -> bool {
    (forall|j: int, k: int|
        0 <= j < k < s.len() && (#[trigger] s[j]) is File ==> (#[trigger] s[k]) is File)
        && (forall|j: int, k: int|
        0 <= j < k < s.len() && (#[trigger] s[j]) is Dir && (#[trigger] s[k]) is Dir ==> lex_lt(
            entry_name(s[j]),
            entry_name(s[k]),
        ))
}

/// Ordering invariant: among the filtered children of any directory, the
/// surviving subdirectories stand first, in strictly increasing name
/// order, and the files after them; this holds of the scanned root's
/// children and, through the recursion of the scan, at every depth.
pub proof fn lemma_children_well_ordered(s: Seq<RawEntryV>)
    ensures
        children_well_ordered(scan_children(s)),
{
    lemma_fold_dirs_sorted(s);
    let a = scan_fold(s).0;
    let b = scan_fold(s).1;
    assert(forall|j: int| 0 <= j < a.len() ==> (a + b)[j] == #[trigger] a[j]);
    assert(forall|j: int|
        a.len() <= j < a.len() + b.len() ==> (a + b)[j] == #[trigger] b[j - a.len()]);
}

/// The separator between the segments of a relative path.
pub open spec fn path_sep() -> Seq<char> {
    seq!['/']
}

/// The name a raw entry carries, whichever variant it is.
pub open spec fn raw_name(e: RawEntryV) -> Seq<char> {
    match e {
        RawEntryV::File { name } => name,
        RawEntryV::Dir { name, .. } => name,
        RawEntryV::Special { name } => name,
    }
}

/// The relative paths of all qualifying files below a listing, each
/// prefixed with `prefix`, as a multiset.
pub open spec fn raw_qualifying_paths(s: Seq<RawEntryV>, prefix: Seq<char>) -> Multiset<Seq<char>>
    decreases s,
{
    if s.len() == 0 {
        Multiset::empty()
    } else {
        let rest = raw_qualifying_paths(s.drop_last(), prefix);
        match s.last() {
            RawEntryV::File { name } => if file_qualifies(name) {
                rest.insert(prefix + name)
            } else {
                rest
            },
            RawEntryV::Dir { name, entries } => rest.add(
                raw_qualifying_paths(entries, prefix + name + path_sep()),
            ),
            RawEntryV::Special { .. } => rest,
        }
    }
}

/// The relative paths of all files below a sequence of filtered entries,
/// each prefixed with `prefix`, as a multiset.
pub open spec fn entry_file_paths(s: Seq<EntryV>, prefix: Seq<char>) -> Multiset<Seq<char>>
    decreases s,
{
    if s.len() == 0 {
        Multiset::empty()
    } else {
        let rest = entry_file_paths(s.drop_last(), prefix);
        match s.last() {
            EntryV::File { name } => rest.insert(prefix + name),
            EntryV::Dir { name, children } => rest.add(
                entry_file_paths(children, prefix + name + path_sep()),
            ),
        }
    }
}

/// The relative paths the leaves of a declaration sequence are bound to,
/// each prefixed with `prefix`, as a multiset; a namespace extends the
/// prefix with its own binding.
pub open spec fn decl_leaf_paths(s: Seq<DeclNodeV>, prefix: Seq<char>) -> Multiset<Seq<char>>
    decreases s,
{
    if s.len() == 0 {
        Multiset::empty()
    } else {
        let rest = decl_leaf_paths(s.drop_last(), prefix);
        match s.last() {
            DeclNodeV::Leaf { binding, .. } => rest.insert(prefix + binding),
            DeclNodeV::Namespace { binding, children, .. } => rest.add(
                decl_leaf_paths(children, prefix + binding + path_sep()),
            ),
        }
    }
}

/// The paths one filtered entry contributes.
pub open spec fn one_entry_paths(e: EntryV, prefix: Seq<char>) -> Multiset<Seq<char>> {
    match e {
        EntryV::File { name } => Multiset::empty().insert(prefix + name),
        EntryV::Dir { name, children } => entry_file_paths(children, prefix + name + path_sep()),
    }
}

/// True when some entry of the sequence carries the given name.
pub open spec fn has_entry_named(s: Seq<EntryV>, nm: Seq<char>) -> bool {
    exists|j: int| 0 <= j < s.len() && entry_name(#[trigger] s[j]) == nm
}

/// True when some directory of the raw listing carries the given name.
pub open spec fn raw_has_dir_named(s: Seq<RawEntryV>, nm: Seq<char>) -> bool {
    exists|j: int| 0 <= j < s.len() && (#[trigger] s[j]) is Dir && raw_name(s[j]) == nm
}

/// No two sibling directories of the listing share a name, at any depth.
pub open spec fn raw_wf(s: Seq<RawEntryV>) -> bool
    decreases s, 1int,
{
    (forall|j: int, k: int|
        0 <= j < k < s.len() && (#[trigger] s[j]) is Dir && (#[trigger] s[k]) is Dir
            ==> raw_name(s[j]) != raw_name(s[k])) && raw_all_wf(s)
}

pub open spec fn raw_all_wf(s: Seq<RawEntryV>) -> bool
    decreases s, 0int,
{
    if s.len() == 0 {
        true
    } else {
        raw_all_wf(s.drop_last()) && raw_entry_wf(s.last())
    }
}

pub open spec fn raw_entry_wf(e: RawEntryV) -> bool
    decreases e, 2int,
{
    match e {
        RawEntryV::Dir { entries, .. } => raw_wf(entries),
        _ => true,
    }
}

/// Building declarations keeps every leaf bound to the same relative
/// path its file had among the filtered entries.
pub proof fn lemma_build_paths(s: Seq<EntryV>, prefix: Seq<char>)
    ensures
        decl_leaf_paths(spec_build_seq(s), prefix) == entry_file_paths(s, prefix),
    decreases s,
{
    if s.len() > 0 {
        lemma_build_paths(s.drop_last(), prefix);
        assert(spec_build_seq(s).drop_last() =~= spec_build_seq(s.drop_last()));
        assert(spec_build_seq(s).last() == spec_build(s.last()));
        match s.last() {
            EntryV::File { name } => {},
            EntryV::Dir { name, children } => {
                lemma_build_paths(children, prefix + name + path_sep());
            },
        }
    }
}

/// File paths distribute over concatenation of entry sequences.
pub proof fn lemma_entry_file_paths_concat(a: Seq<EntryV>, b: Seq<EntryV>, prefix: Seq<char>)
    ensures
        entry_file_paths(a + b, prefix) == entry_file_paths(a, prefix).add(
            entry_file_paths(b, prefix),
        ),
    decreases b,
{
    broadcast use vstd::multiset::group_multiset_axioms;

    if b.len() == 0 {
        assert(a + b =~= a);
        assert(entry_file_paths(a, prefix).add(entry_file_paths(b, prefix)) =~= entry_file_paths(
            a,
            prefix,
        ));
    } else {
        lemma_entry_file_paths_concat(a, b.drop_last(), prefix);
        assert((a + b).drop_last() =~= a + b.drop_last());
        assert((a + b).last() == b.last());
        match b.last() {
            EntryV::File { name } => {
                assert(entry_file_paths(a + b, prefix) =~= entry_file_paths(a, prefix).add(
                    entry_file_paths(b, prefix),
                ));
            },
            EntryV::Dir { name, children } => {
                assert(entry_file_paths(a + b, prefix) =~= entry_file_paths(a, prefix).add(
                    entry_file_paths(b, prefix),
                ));
            },
        }
    }
}

/// A name found after sorted insertion was the inserted name or was
/// already present.
pub proof fn lemma_insert_dir_names(d: EntryV, s: Seq<EntryV>, nm: Seq<char>)
    requires
        has_entry_named(insert_dir(d, s), nm),
    ensures
        nm == entry_name(d) || has_entry_named(s, nm),
    decreases s,
{
    let t = insert_dir(d, s);
    let j = choose|j: int| 0 <= j < t.len() && entry_name(#[trigger] t[j]) == nm;
    if s.len() == 0 {
        assert(t == seq![d]);
        assert(t[j] == d);
    } else if lex_lt(entry_name(d), entry_name(s.first())) {
        assert(t == seq![d] + s);
        if j > 0 {
            assert(t[j] == s[j - 1]);
        }
    } else if entry_name(d) == entry_name(s.first()) {
        assert(t == seq![d] + s.drop_first());
        if j > 0 {
            assert(t[j] == s.drop_first()[j - 1]);
            assert(s.drop_first()[j - 1] == s[j]);
        }
    } else {
        assert(t == seq![s.first()] + insert_dir(d, s.drop_first()));
        if j == 0 {
            assert(t[0] == s.first());
            assert(entry_name(s[0]) == nm);
        } else {
            assert(t[j] == insert_dir(d, s.drop_first())[j - 1]);
            assert(has_entry_named(insert_dir(d, s.drop_first()), nm));
            lemma_insert_dir_names(d, s.drop_first(), nm);
            if has_entry_named(s.drop_first(), nm) {
                let k = choose|k: int|
                    0 <= k < s.drop_first().len() && entry_name(#[trigger] s.drop_first()[k]) == nm;
                assert(s.drop_first()[k] == s[k + 1]);
            }
        }
    }
}

/// Every name among the filtered subdirectories of a listing is the
/// name of a directory of that listing.
pub proof fn lemma_fold_dir_names(s: Seq<RawEntryV>, nm: Seq<char>)
    requires
        has_entry_named(scan_fold(s).0, nm),
    ensures
        raw_has_dir_named(s, nm),
    decreases s,
{
    if s.len() > 0 {
        let acc = scan_fold(s.drop_last());
        let step_back: bool = match s.last() {
            RawEntryV::Dir { name, entries } => {
                let children = scan_children(entries);
                if children.len() > 0 {
                    assert(scan_fold(s).0 == insert_dir(
                        EntryV::Dir { name, children },
                        acc.0,
                    ));
                    lemma_insert_dir_names(EntryV::Dir { name, children }, acc.0, nm);
                    if nm == name {
                        assert(s[s.len() - 1] is Dir && raw_name(s[s.len() - 1]) == nm);
                        false
                    } else {
                        true
                    }
                } else {
                    assert(scan_fold(s).0 == acc.0);
                    true
                }
            },
            _ => {
                assert(scan_fold(s).0 == acc.0);
                true
            },
        };
        if step_back {
            lemma_fold_dir_names(s.drop_last(), nm);
            let j = choose|j: int|
                0 <= j < s.drop_last().len() && (#[trigger] s.drop_last()[j]) is Dir && raw_name(
                    s.drop_last()[j],
                ) == nm;
            assert(s[j] == s.drop_last()[j]);
        }
    }
}

/// The paths of a one-entry sequence are the paths of its entry.
pub proof fn lemma_singleton_paths(d: EntryV, prefix: Seq<char>)
    ensures
        entry_file_paths(seq![d], prefix) == one_entry_paths(d, prefix),
{
    broadcast use vstd::multiset::group_multiset_axioms;

    assert(seq![d].drop_last() =~= Seq::<EntryV>::empty());
    assert(seq![d].last() == d);
    assert(entry_file_paths(Seq::<EntryV>::empty(), prefix) == Multiset::<Seq<char>>::empty());
    match d {
        EntryV::File { name } => {
            assert(entry_file_paths(seq![d], prefix) =~= Multiset::empty().insert(prefix + name));
        },
        EntryV::Dir { name, children } => {
            assert(entry_file_paths(seq![d], prefix) =~= entry_file_paths(
                children,
                prefix + name + path_sep(),
            ));
        },
    }
}

/// Sorted insertion of a fresh-named directory adds exactly its own
/// paths.
pub proof fn lemma_insert_dir_paths(d: EntryV, s: Seq<EntryV>, prefix: Seq<char>)
    requires
        !has_entry_named(s, entry_name(d)),
    ensures
        entry_file_paths(insert_dir(d, s), prefix) == entry_file_paths(s, prefix).add(
            one_entry_paths(d, prefix),
        ),
    decreases s,
{
    broadcast use vstd::multiset::group_multiset_axioms;

    lemma_singleton_paths(d, prefix);
    if s.len() == 0 {
        assert(insert_dir(d, s) == seq![d]);
        assert(entry_file_paths(seq![d], prefix) =~= entry_file_paths(s, prefix).add(
            one_entry_paths(d, prefix),
        ));
    } else if lex_lt(entry_name(d), entry_name(s.first())) {
        assert(insert_dir(d, s) == seq![d] + s);
        lemma_entry_file_paths_concat(seq![d], s, prefix);
        assert(entry_file_paths(seq![d] + s, prefix) =~= entry_file_paths(s, prefix).add(
            one_entry_paths(d, prefix),
        ));
    } else if entry_name(d) == entry_name(s.first()) {
        assert(entry_name(s[0]) == entry_name(d));
        assert(false);
    } else {
        assert(insert_dir(d, s) == seq![s.first()] + insert_dir(d, s.drop_first()));
        assert(forall|k: int|
            0 <= k < s.drop_first().len() ==> #[trigger] s.drop_first()[k] == s[k + 1]);
        lemma_insert_dir_paths(d, s.drop_first(), prefix);
        lemma_entry_file_paths_concat(seq![s.first()], insert_dir(d, s.drop_first()), prefix);
        lemma_entry_file_paths_concat(seq![s.first()], s.drop_first(), prefix);
        assert(seq![s.first()] + s.drop_first() =~= s);
        assert(entry_file_paths(insert_dir(d, s), prefix) =~= entry_file_paths(s, prefix).add(
            one_entry_paths(d, prefix),
        ));
    }
}

/// The filtered state of one listing carries exactly the qualifying
/// paths of the listing, when no two sibling directories share a name.
pub proof fn lemma_scan_fold_paths(s: Seq<RawEntryV>, prefix: Seq<char>)
    requires
        raw_wf(s),
    ensures
        entry_file_paths(scan_fold(s).0, prefix).add(entry_file_paths(scan_fold(s).1, prefix))
            == raw_qualifying_paths(s, prefix),
    decreases s,
{
    broadcast use vstd::multiset::group_multiset_axioms;

    if s.len() > 0 {
        assert(forall|j: int|
            0 <= j < s.len() - 1 ==> #[trigger] s.drop_last()[j] == s[j]);
        assert(raw_wf(s.drop_last()));
        lemma_scan_fold_paths(s.drop_last(), prefix);
        let acc = scan_fold(s.drop_last());
        match s.last() {
            RawEntryV::File { name } => {
                if file_qualifies(name) {
                    assert(scan_fold(s).0 == acc.0);
                    assert(scan_fold(s).1 == acc.1.push(EntryV::File { name }));
                    assert(acc.1.push(EntryV::File { name }).drop_last() =~= acc.1);
                    assert(entry_file_paths(scan_fold(s).1, prefix) == entry_file_paths(
                        acc.1,
                        prefix,
                    ).insert(prefix + name));
                    assert(entry_file_paths(scan_fold(s).0, prefix).add(
                        entry_file_paths(scan_fold(s).1, prefix),
                    ) =~= raw_qualifying_paths(s, prefix));
                } else {
                    assert(scan_fold(s) == acc);
                }
            },
            RawEntryV::Dir { name, entries } => {
                assert(raw_entry_wf(s.last()));
                let sub_prefix = prefix + name + path_sep();
                lemma_scan_fold_paths(entries, sub_prefix);
                let infold = scan_fold(entries);
                lemma_entry_file_paths_concat(infold.0, infold.1, sub_prefix);
                let children = scan_children(entries);
                assert(entry_file_paths(children, sub_prefix) == raw_qualifying_paths(
                    entries,
                    sub_prefix,
                ));
                if children.len() > 0 {
                    assert(scan_fold(s).0 == insert_dir(EntryV::Dir { name, children }, acc.0));
                    assert(scan_fold(s).1 == acc.1);
                    assert(!has_entry_named(acc.0, name)) by {
                        if has_entry_named(acc.0, name) {
                            lemma_fold_dir_names(s.drop_last(), name);
                            let j = choose|j: int|
                                0 <= j < s.drop_last().len() && (#[trigger] s.drop_last()[j]) is Dir
                                    && raw_name(s.drop_last()[j]) == name;
                            assert(s[j] is Dir && raw_name(s[j]) == name);
                            assert(s[s.len() - 1] is Dir && raw_name(s[s.len() - 1]) == name);
                        }
                    }
                    lemma_insert_dir_paths(EntryV::Dir { name, children }, acc.0, prefix);
                    assert(one_entry_paths(EntryV::Dir { name, children }, prefix)
                        == raw_qualifying_paths(entries, sub_prefix));
                    assert(entry_file_paths(scan_fold(s).0, prefix).add(
                        entry_file_paths(scan_fold(s).1, prefix),
                    ) =~= raw_qualifying_paths(s, prefix));
                } else {
                    assert(scan_fold(s) == acc);
                    assert(infold.0 + infold.1 =~= Seq::<EntryV>::empty());
                    assert(infold.0 =~= Seq::<EntryV>::empty());
                    assert(infold.1 =~= Seq::<EntryV>::empty());
                    assert(raw_qualifying_paths(entries, sub_prefix) =~= Multiset::<
                        Seq<char>,
                    >::empty());
                    assert(entry_file_paths(scan_fold(s).0, prefix).add(
                        entry_file_paths(scan_fold(s).1, prefix),
                    ) =~= raw_qualifying_paths(s, prefix));
                }
            },
            RawEntryV::Special { .. } => {
                assert(scan_fold(s) == acc);
            },
        }
    }
}

/// Completeness and exclusion together, counted exactly: for any listing
/// in which no two sibling directories share a name, the multiset of
/// relative paths the generated leaves are bound to equals the multiset
/// of relative paths of the qualifying files of the scanned tree — every
/// qualifying file appears exactly as often as it occurs, under its
/// original relative path, and nothing else appears.
pub proof fn lemma_completeness(s: Seq<RawEntryV>, prefix: Seq<char>)
    requires
        raw_wf(s),
    ensures
        decl_leaf_paths(spec_build_seq(scan_children(s)), prefix) == raw_qualifying_paths(
            s,
            prefix,
        ),
{
    lemma_build_paths(scan_children(s), prefix);
    lemma_scan_fold_paths(s, prefix);
    lemma_entry_file_paths_concat(scan_fold(s).0, scan_fold(s).1, prefix);
}

} // verus!
