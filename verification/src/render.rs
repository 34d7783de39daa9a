//! Rendering a declaration tree as text.
//!
//! The concrete declaration syntax a host compiler expects is its own
//! affair; this renderer produces a fixed, deterministic textual form of
//! the tree, one declaration per construct: `unit IDENT [BINDING];` for a
//! leaf, and `namespace IDENT [BINDING] { ... }` for a namespace block.

use vstd::prelude::*;

use crate::decl::{
    DeclNode, DeclNodeV, lemma_view_decl_seq_index, lemma_view_decl_seq_len, view_decl_seq,
};

verus! {

/// The text of one declaration.
pub open spec fn spec_render(n: DeclNodeV) -> Seq<char>
    decreases n,
{
    match n {
        DeclNodeV::Leaf { ident, binding } => "unit "@ + ident + " ["@ + binding + "];\n"@,
        DeclNodeV::Namespace { ident, binding, children } => "namespace "@ + ident + " ["@
            + binding + "] {\n"@ + spec_render_seq(children) + "}\n"@,
    }
}

/// The text of a sequence of declarations, in order.
pub open spec fn spec_render_seq(s: Seq<DeclNodeV>) -> Seq<char>
    decreases s,
{
    if s.len() == 0 {
        Seq::empty()
    } else {
        spec_render_seq(s.drop_last()) + spec_render(s.last())
    }
}

/// Renders one declaration as text.
pub fn render(n: &DeclNode) -> (r: String)
    ensures
        r@ == spec_render(n@),
    decreases n,
{
    let mut out = String::new();
    match n {
        DeclNode::Leaf { ident, binding } => {
            out.append("unit ");
            out.append(ident.as_str());
            out.append(" [");
            out.append(binding.as_str());
            out.append("];\n");
            proof {
                assert(out@ =~= "unit "@ + ident@ + " ["@ + binding@ + "];\n"@);
            }
        },
        DeclNode::Namespace { ident, binding, children } => {
            out.append("namespace ");
            out.append(ident.as_str());
            out.append(" [");
            out.append(binding.as_str());
            out.append("] {\n");
            let ghost header = out@;
            proof {
                assert(header =~= "namespace "@ + ident@ + " ["@ + binding@ + "] {\n"@);
            }
            let ghost dv = view_decl_seq(children@);
            proof {
                lemma_view_decl_seq_len(children@);
                assert(dv.take(0) =~= Seq::<DeclNodeV>::empty());
                assert(out@ =~= header + spec_render_seq(dv.take(0)));
            }
            let count = children.len();
            let mut i: usize = 0;
            while i < count
                invariant
                    0 <= i <= count,
                    count == children@.len(),
                    dv == view_decl_seq(children@),
                    dv.len() == count,
                    header == ("namespace "@ + ident@ + " ["@ + binding@ + "] {\n"@),
                    *n == (DeclNode::Namespace {
                        ident: *ident,
                        binding: *binding,
                        children: *children,
                    }),
                    out@ == header + spec_render_seq(dv.take(i as int)),
                decreases count - i,
            {
                proof {
                    lemma_view_decl_seq_index(children@, i as int);
                    assert(decreases_to!(*n => n->Namespace_children));
                    assert(n->Namespace_children == *children);
                    assert(decreases_to!(*children => children@));
                    assert(decreases_to!(children@ => children@[i as int]));
                }
                let piece = render(&children[i]);
                out.append(piece.as_str());
                proof {
                    assert(dv.take(i as int + 1).drop_last() =~= dv.take(i as int));
                    assert(dv.take(i as int + 1).last() == dv[i as int]);
                    assert(out@ =~= header + spec_render_seq(dv.take(i as int + 1)));
                }
                i += 1;
            }
            proof {
                assert(dv.take(count as int) =~= dv);
            }
            out.append("}\n");
            proof {
                assert(out@ =~= "namespace "@ + ident@ + " ["@ + binding@ + "] {\n"@
                    + spec_render_seq(dv) + "}\n"@);
            }
        },
    }
    out
}

/// Renders a sequence of declarations, in order.
pub fn render_decls(decls: &Vec<DeclNode>) -> (r: String)
    ensures
        r@ == spec_render_seq(view_decl_seq(decls@)),
{
    let ghost dv = view_decl_seq(decls@);
    let mut out = String::new();
    proof {
        lemma_view_decl_seq_len(decls@);
        assert(dv.take(0) =~= Seq::<DeclNodeV>::empty());
        assert(out@ =~= spec_render_seq(dv.take(0)));
    }
    let count = decls.len();
    let mut i: usize = 0;
    while i < count
        invariant
            0 <= i <= count,
            count == decls@.len(),
            dv == view_decl_seq(decls@),
            dv.len() == count,
            out@ == spec_render_seq(dv.take(i as int)),
        decreases count - i,
    {
        proof {
            lemma_view_decl_seq_index(decls@, i as int);
        }
        let piece = render(&decls[i]);
        out.append(piece.as_str());
        proof {
            assert(dv.take(i as int + 1).drop_last() =~= dv.take(i as int));
            assert(dv.take(i as int + 1).last() == dv[i as int]);
            assert(out@ =~= spec_render_seq(dv.take(i as int + 1)));
        }
        i += 1;
    }
    proof {
        assert(dv.take(count as int) =~= dv);
    }
    out
}

} // verus!
