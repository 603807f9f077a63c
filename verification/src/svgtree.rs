//! Owned vector-document trees.
//!
//! A document is modelled as an owned tree of nodes; cloning a subtree is a
//! full value copy, so a clone shares no mutable state with its source.

use vstd::prelude::*;

verus! {

use crate::color::Color;
use crate::geom::ViewBox;

broadcast use vstd::std_specs::vec::group_vec_axioms, vstd::seq::group_seq_axioms;

/// Kinds of non-element content nodes.
#[derive(Clone, Copy, PartialEq, Eq, Structural, Debug)]
pub enum ContentKind {
    Text,
    Comment,
    Cdata,
    Declaration,
}

/// An attribute value: either verbatim text, or one of the typed values the
/// composition engine writes itself.
#[derive(Debug)]
pub enum AttrValue {
    /// Verbatim attribute text.
    Raw(String),
    /// A length in ticks, rendered with a pixel unit.
    Px(i64),
    /// A plain number in ticks.
    Num(i64),
    /// A color value.
    Rgb(Color),
    /// A view-box rectangle.
    Vb(ViewBox),
    /// A `url(#...)` reference to an element id.
    FuncLink(String),
}

#[derive(Debug)]
pub struct Attr {
    pub name: String,
    pub value: AttrValue,
}

/// A node of a vector document.  Root/document nodes are not values of this
/// type: a document is the `SvgNode` standing at its root, so a root can
/// never be handed to `clone_subtree`.
#[derive(Debug)]
pub enum SvgNode {
    Element { tag: String, attrs: Vec<Attr>, children: Vec<SvgNode> },
    Content { kind: ContentKind, text: String },
}

#[verifier::ext_equal]
pub ghost enum AttrValueV {
    Raw(Seq<char>),
    Px(int),
    Num(int),
    Rgb(Color),
    Vb(ViewBox),
    FuncLink(Seq<char>),
}

#[verifier::ext_equal]
pub ghost struct AttrV {
    pub name: Seq<char>,
    pub value: AttrValueV,
}

#[verifier::ext_equal]
pub ghost enum NodeV {
    Element { tag: Seq<char>, attrs: Seq<AttrV>, children: Seq<NodeV> },
    Content { kind: ContentKind, text: Seq<char> },
}

impl DeepView for AttrValue {
    type V = AttrValueV;

    open spec fn deep_view(&self) -> AttrValueV {
        match self {
            AttrValue::Raw(s) => AttrValueV::Raw(s@),
            AttrValue::Px(v) => AttrValueV::Px(*v as int),
            AttrValue::Num(v) => AttrValueV::Num(*v as int),
            AttrValue::Rgb(c) => AttrValueV::Rgb(*c),
            AttrValue::Vb(vb) => AttrValueV::Vb(*vb),
            AttrValue::FuncLink(s) => AttrValueV::FuncLink(s@),
        }
    }
}

impl DeepView for Attr {
    type V = AttrV;

    open spec fn deep_view(&self) -> AttrV {
        AttrV { name: self.name@, value: self.value.deep_view() }
    }
}

/// The abstract tree a node stands for.
pub open spec fn node_view(n: SvgNode) -> NodeV
    decreases n,
    via node_view_dec
{
    match n {
        SvgNode::Element { tag, attrs, children } => NodeV::Element {
            tag: tag@,
            attrs: attrs.deep_view(),
            children: nodes_view(children@),
        },
        SvgNode::Content { kind, text } => NodeV::Content { kind, text: text@ },
    }
}

/// The abstract trees of a list of nodes, in order.
pub open spec fn nodes_view(ns: Seq<SvgNode>) -> Seq<NodeV>
    decreases ns,
    via nodes_view_dec
{
    if ns.len() == 0 {
        Seq::empty()
    } else {
        nodes_view(ns.drop_last()).push(node_view(ns.last()))
    }
}

#[via_fn]
proof fn node_view_dec(n: SvgNode) {
    if n is Element {
        assert(decreases_to!(n => n->Element_children));
        assert(decreases_to!(n->Element_children => n->Element_children@));
    }
}

#[via_fn]
proof fn nodes_view_dec(ns: Seq<SvgNode>) {
    if ns.len() > 0 {
        assert(decreases_to!(ns => ns.subrange(0, ns.len() - 1)));
        assert(ns.drop_last() =~= ns.subrange(0, ns.len() - 1));
        assert(decreases_to!(ns => ns[ns.len() - 1]));
        assert(ns.last() == ns[ns.len() - 1]);
    }
}

/// `nodes_view` is the element-wise `node_view`.
pub proof fn lemma_nodes_view(ns: Seq<SvgNode>)
    ensures
        nodes_view(ns).len() == ns.len(),
        forall|i: int| 0 <= i < ns.len() ==> nodes_view(ns)[i] == node_view(ns[i]),
    decreases ns.len(),
{
    if ns.len() > 0 {
        lemma_nodes_view(ns.drop_last());
        assert(forall|i: int| 0 <= i < ns.len() - 1 ==> ns.drop_last()[i] == ns[i]);
    }
}

impl DeepView for SvgNode {
    type V = NodeV;

    open spec fn deep_view(&self) -> NodeV {
        node_view(*self)
    }
}

impl NodeV {
    /// The children of an element; a content node has none.
    pub open spec fn children_of(self) -> Seq<NodeV> {
        match self {
            NodeV::Element { children, .. } => children,
            NodeV::Content { .. } => Seq::empty(),
        }
    }

    /// The attributes of an element; a content node has none.
    pub open spec fn attrs_of(self) -> Seq<AttrV> {
        match self {
            NodeV::Element { attrs, .. } => attrs,
            NodeV::Content { .. } => Seq::empty(),
        }
    }
}

/// Clones one attribute by value.
pub(crate) fn clone_attr(a: &Attr) -> (r: Attr)
    ensures
        r.deep_view() == a.deep_view(),
{
    let value = match &a.value {
        AttrValue::Raw(s) => AttrValue::Raw(s.clone()),
        AttrValue::Px(v) => AttrValue::Px(*v),
        AttrValue::Num(v) => AttrValue::Num(*v),
        AttrValue::Rgb(c) => AttrValue::Rgb(*c),
        AttrValue::Vb(vb) => AttrValue::Vb(*vb),
        AttrValue::FuncLink(s) => AttrValue::FuncLink(s.clone()),
    };
    Attr { name: a.name.clone(), value }
}

/// Deep-copies a subtree: the clone is structurally identical to the source
/// (same tag or content, same attributes by value, same children in order)
/// and, being an owned value, shares no mutable state with it.
#[verifier::loop_isolation(false)]
pub fn clone_subtree(node: &SvgNode) -> (r: SvgNode)
    ensures
        r.deep_view() == node.deep_view(),
    decreases node,
{
    match node {
        SvgNode::Element { tag, attrs, children } => {
            let mut new_attrs: Vec<Attr> = Vec::new();
            let mut i: usize = 0;
            while i < attrs.len()
                invariant
                    i <= attrs@.len(),
                    new_attrs@.len() == i,
                    forall|j: int|
                        0 <= j < i ==> new_attrs@[j].deep_view() == attrs@[j].deep_view(),
                decreases attrs@.len() - i,
            {
                new_attrs.push(clone_attr(&attrs[i]));
                i = i + 1;
            }
            let mut new_children: Vec<SvgNode> = Vec::new();
            let mut c: usize = 0;
            while c < children.len()
                invariant
                    c <= children@.len(),
                    new_children@.len() == c,
                    forall|j: int|
                        0 <= j < c ==> new_children@[j].deep_view() == children@[j].deep_view(),
                decreases children@.len() - c,
            {
                proof {
                    assert(decreases_to!(*node => node->Element_children));
                    assert(decreases_to!(node->Element_children => node->Element_children@));
                    assert(decreases_to!(node->Element_children@ => node->Element_children@[c as int]));
                }
                let child = clone_subtree(&children[c]);
                new_children.push(child);
                c = c + 1;
            }
            let r = SvgNode::Element { tag: tag.clone(), attrs: new_attrs, children: new_children };
            proof {
                lemma_nodes_view(r->Element_children@);
                lemma_nodes_view(children@);
                assert(r->Element_attrs.deep_view() =~= attrs.deep_view());
                assert(nodes_view(r->Element_children@) =~= nodes_view(children@));
                assert(r.deep_view() =~~= node.deep_view());
            }
            r
        },
        SvgNode::Content { kind, text } => SvgNode::Content { kind: *kind, text: text.clone() },
    }
}

} // verus!
