//! Band layout and document composition.
//!
//! The band layout turns an ordered palette into concrete rectangle
//! geometry: non-positive weights are dropped, and the remaining weights
//! divide the view-box height proportionally.  Rectangle tops are computed
//! as exact rational cuts of the height, so the advance heights sum to the
//! view-box height exactly; each drawn rectangle is one unit taller than
//! its advance to suppress anti-aliasing seams, unless that would push its
//! bottom edge past the view-box.

use vstd::prelude::*;

verus! {

use vstd::arithmetic::div_mod::{lemma_div_is_ordered, lemma_div_multiples_vanish};
use crate::color::Color;
use crate::config::{BorderInformation, ClipInformation, LineCap, LineJoin};
use crate::geom::ViewBox;
use crate::numparse::{MAX_SCALED, SCALE};
use crate::svgtree::{
    clone_attr, clone_subtree, lemma_nodes_view, node_view, nodes_view, Attr, AttrV, AttrValue,
    AttrValueV, NodeV, SvgNode,
};

/// Largest number of palette entries the layout arithmetic admits.
pub const MAX_BANDS: usize = 100_000;

/// The palette entries that produce bands: those of positive weight, in
/// declared order.
pub open spec fn pos_filter(s: Seq<(Color, i64)>) -> Seq<(Color, i64)>
    decreases s.len(),
{
    if s.len() == 0 {
        Seq::empty()
    } else {
        let rest = pos_filter(s.drop_last());
        if s.last().1 > 0 {
            rest.push(s.last())
        } else {
            rest
        }
    }
}

pub open spec fn total_weight(s: Seq<(Color, i64)>) -> int
    decreases s.len(),
{
    if s.len() == 0 {
        0
    } else {
        total_weight(s.drop_last()) + s.last().1
    }
}

/// Every weight lies in the tick range and the palette is small enough for
/// the layout arithmetic.
pub open spec fn wf_palette(s: Seq<(Color, i64)>) -> bool {
    &&& s.len() <= MAX_BANDS
    &&& forall|i: int| 0 <= i < s.len() ==> -MAX_SCALED <= (#[trigger] s[i]).1 <= MAX_SCALED
}

pub open spec fn has_positive_weight(s: Seq<(Color, i64)>) -> bool {
    exists|i: int| 0 <= i < s.len() && (#[trigger] s[i]).1 > 0
}

/// One colored band rectangle, in ticks.
#[derive(Clone, Copy, PartialEq, Eq, Structural, Debug)]
pub struct Band {
    pub color: Color,
    pub x: i64,
    pub y: i64,
    pub width: i64,
    pub height: i64,
}

/// The top edge of band `k` relative to the view-box top: the exact
/// proportional cut `height * (weight of the first k bands) / total`.
pub open spec fn band_y(height: int, fs: Seq<(Color, i64)>, k: int) -> int {
    height * total_weight(fs.take(k)) / total_weight(fs)
}

/// How far the layout cursor advances over band `k`.
pub open spec fn band_advance(height: int, fs: Seq<(Color, i64)>, k: int) -> int {
    band_y(height, fs, k + 1) - band_y(height, fs, k)
}

/// Band `k` of the filtered palette `fs` within `vb`: full width, advanced
/// top, and a drawn height padded by one unit unless the padded bottom
/// would pass the view-box bottom.
pub open spec fn spec_band(vb: ViewBox, fs: Seq<(Color, i64)>, k: int) -> Band {
    let y0 = band_y(vb.height as int, fs, k);
    let y1 = band_y(vb.height as int, fs, k + 1);
    let ideal = y1 - y0;
    let drawn = if y1 + SCALE > vb.height {
        ideal
    } else {
        ideal + SCALE
    };
    Band {
        color: fs[k].0,
        x: vb.x,
        y: (vb.y + y0) as i64,
        width: vb.width,
        height: drawn as i64,
    }
}

/// The full layout of a palette within a view-box, in declared order.
pub open spec fn spec_bands(vb: ViewBox, palette: Seq<(Color, i64)>) -> Seq<Band> {
    let fs = pos_filter(palette);
    Seq::new(fs.len(), |i: int| spec_band(vb, fs, i))
}

/// Filtered entries all carry positive weights in range, and there are no
/// more of them than palette entries.
pub proof fn lemma_pos_filter_wf(s: Seq<(Color, i64)>)
    requires
        wf_palette(s),
    ensures
        pos_filter(s).len() <= s.len(),
        forall|i: int| 0 <= i < pos_filter(s).len() ==> 0 < (#[trigger] pos_filter(s)[i]).1
            <= MAX_SCALED,
    decreases s.len(),
{
    if s.len() > 0 {
        assert(wf_palette(s.drop_last())) by {
            assert(forall|i: int| 0 <= i < s.len() - 1 ==> s.drop_last()[i] == s[i]);
        }
        lemma_pos_filter_wf(s.drop_last());
    }
}

/// A palette with some positive weight filters to a non-empty band list.
pub proof fn lemma_pos_filter_nonempty(s: Seq<(Color, i64)>)
    requires
        has_positive_weight(s),
    ensures
        pos_filter(s).len() >= 1,
    decreases s.len(),
{
    let i = choose|i: int| 0 <= i < s.len() && (#[trigger] s[i]).1 > 0;
    if s.last().1 > 0 {
    } else {
        assert(s.drop_last()[i] == s[i]);
        lemma_pos_filter_nonempty(s.drop_last());
    }
}

/// Total weight of an all-positive band list: at least one tick per band,
/// at most the tick cap per band.
pub proof fn lemma_total_weight_bounds(fs: Seq<(Color, i64)>)
    requires
        forall|i: int| 0 <= i < fs.len() ==> 0 < (#[trigger] fs[i]).1 <= MAX_SCALED,
    ensures
        fs.len() <= total_weight(fs) <= fs.len() * MAX_SCALED,
    decreases fs.len(),
{
    if fs.len() > 0 {
        assert(forall|i: int| 0 <= i < fs.len() - 1 ==> fs.drop_last()[i] == fs[i]);
        lemma_total_weight_bounds(fs.drop_last());
        assert((fs.len() - 1) * MAX_SCALED + MAX_SCALED == fs.len() * MAX_SCALED) by (nonlinear_arith);
    }
}

proof fn lemma_total_take_step(fs: Seq<(Color, i64)>, k: int)
    requires
        0 <= k < fs.len(),
    ensures
        total_weight(fs.take(k + 1)) == total_weight(fs.take(k)) + fs[k].1,
{
    assert(fs.take(k + 1).drop_last() =~= fs.take(k));
    assert(fs.take(k + 1).last() == fs[k]);
}

/// Cumulative weights grow along an all-positive band list and stay within
/// the total.
pub proof fn lemma_cum_bounds(fs: Seq<(Color, i64)>, k: int)
    requires
        forall|i: int| 0 <= i < fs.len() ==> 0 < (#[trigger] fs[i]).1 <= MAX_SCALED,
        0 <= k <= fs.len(),
    ensures
        0 <= total_weight(fs.take(k)) <= total_weight(fs),
    decreases fs.len() - k,
{
    if k == fs.len() {
        assert(fs.take(k) =~= fs);
        assert(forall|i: int| 0 <= i < fs.take(k).len() ==> fs.take(k)[i] == fs[i]);
        lemma_total_weight_bounds(fs.take(k));
    } else {
        lemma_total_take_step(fs, k);
        lemma_cum_bounds(fs, k + 1);
        assert(forall|i: int| 0 <= i < k ==> fs.take(k)[i] == fs[i]);
        lemma_total_weight_bounds(fs.take(k));
    }
}

/// Computes the band layout of a palette within a view-box.
#[verifier::loop_isolation(false)]
pub fn layout_bands(vb: &ViewBox, palette: &Vec<(Color, i64)>) -> (r: Vec<Band>)
    requires
        vb.wf(),
        wf_palette(palette@),
        has_positive_weight(palette@),
    ensures
        r@ == spec_bands(*vb, palette@),
{
    let ghost fsv = pos_filter(palette@);
    // Remove all the non-positive weight bands.
    let mut fs: Vec<(Color, i64)> = Vec::new();
    let mut i: usize = 0;
    proof {
        assert(palette@.take(0) =~= Seq::<(Color, i64)>::empty());
        assert(fs@ =~= pos_filter(palette@.take(0)));
    }
    while i < palette.len()
        invariant
            i <= palette@.len(),
            fs@ == pos_filter(palette@.take(i as int)),
        decreases palette@.len() - i,
    {
        proof {
            assert(palette@.take(i + 1).drop_last() =~= palette@.take(i as int));
            assert(palette@.take(i + 1).last() == palette@[i as int]);
        }
        let entry = palette[i];
        if entry.1 > 0 {
            fs.push(entry);
        }
        i = i + 1;
    }
    proof {
        assert(palette@.take(palette@.len() as int) =~= palette@);
        assert(fs@ == fsv);
        lemma_pos_filter_wf(palette@);
        lemma_pos_filter_nonempty(palette@);
        lemma_total_weight_bounds(fsv);
    }
    // Total weight of the retained bands.
    let mut total: i64 = 0;
    let mut t: usize = 0;
    proof {
        assert(fsv.take(0) =~= Seq::<(Color, i64)>::empty());
    }
    while t < fs.len()
        invariant
            t <= fsv.len(),
            total == total_weight(fsv.take(t as int)),
        decreases fsv.len() - t,
    {
        proof {
            lemma_total_take_step(fsv, t as int);
            lemma_cum_bounds(fsv, t as int);
            lemma_cum_bounds(fsv, t + 1);
            lemma_total_weight_bounds(fsv);
            assert(fsv.len() * MAX_SCALED <= 100_000 * MAX_SCALED) by (nonlinear_arith)
                requires
                    fsv.len() <= 100_000,
                    MAX_SCALED == 1_000_000_000_000,
            ;
        }
        total = total + fs[t].1;
        t = t + 1;
    }
    proof {
        assert(fsv.take(fsv.len() as int) =~= fsv);
        lemma_total_weight_bounds(fsv);
        assert(fsv.len() * MAX_SCALED <= 100_000 * MAX_SCALED) by (nonlinear_arith)
            requires
                fsv.len() <= 100_000,
                MAX_SCALED == 1_000_000_000_000,
        ;
        assert(total >= 1);
    }
    // Lay the bands out, top to bottom.
    let mut bands: Vec<Band> = Vec::new();
    let mut k: usize = 0;
    let mut cum: i64 = 0;
    let mut prev_y: i64 = 0;
    let h: i64 = vb.height;
    proof {
        assert(fsv.take(0) =~= Seq::<(Color, i64)>::empty());
        assert(band_y(h as int, fsv, 0) == 0) by {
            assert(total_weight(fsv.take(0)) == 0);
        }
    }
    while k < fs.len()
        invariant
            k <= fsv.len(),
            cum == total_weight(fsv.take(k as int)),
            0 <= cum <= total,
            prev_y == band_y(h as int, fsv, k as int),
            0 <= prev_y <= h,
            bands@.len() == k,
            forall|j: int| 0 <= j < k ==> bands@[j] == spec_band(*vb, fsv, j),
        decreases fsv.len() - k,
    {
        proof {
            lemma_total_take_step(fsv, k as int);
            lemma_cum_bounds(fsv, k + 1);
        }
        let cum_next: i64 = cum + fs[k].1;
        proof {
            assert((h as int) * (cum_next as int) <= MAX_SCALED * (100_000 * MAX_SCALED))
                by (nonlinear_arith)
                requires
                    0 < h as int <= MAX_SCALED,
                    0 <= cum_next as int <= 100_000 * MAX_SCALED,
                    MAX_SCALED == 1_000_000_000_000,
            ;
            assert((h as int) * (cum_next as int) >= 0) by (nonlinear_arith)
                requires
                    h as int >= 0,
                    cum_next as int >= 0,
            ;
        }
        let y_next_wide: u128 = (h as u128) * (cum_next as u128) / (total as u128);
        proof {
            assert((h as u128) == h as int);
            assert((cum_next as u128) == cum_next as int);
            assert((h as int) * (cum_next as int) <= (h as int) * (total as int))
                by (nonlinear_arith)
                requires
                    0 <= cum_next as int <= total as int,
                    h as int >= 0,
            ;
            assert((h as int) * (cum as int) <= (h as int) * (cum_next as int))
                by (nonlinear_arith)
                requires
                    0 <= cum as int <= cum_next as int,
                    h as int >= 0,
            ;
            lemma_div_is_ordered((h as int) * (cum_next as int), (h as int) * (total as int), total as int);
            lemma_div_multiples_vanish(h as int, total as int);
            lemma_div_is_ordered((h as int) * (cum as int), (h as int) * (cum_next as int), total as int);
            assert(y_next_wide as int == band_y(h as int, fsv, k + 1));
        }
        let y_next: i64 = y_next_wide as i64;
        let ideal: i64 = y_next - prev_y;
        let drawn: i64 = if y_next + SCALE > h {
            ideal
        } else {
            ideal + SCALE
        };
        let band = Band {
            color: fs[k].0,
            x: vb.x,
            y: vb.y + prev_y,
            width: vb.width,
            height: drawn,
        };
        proof {
            assert(band == spec_band(*vb, fsv, k as int));
        }
        bands.push(band);
        cum = cum_next;
        prev_y = y_next;
        k = k + 1;
    }
    proof {
        assert(bands@ =~= spec_bands(*vb, palette@));
    }
    bands
}

/// The rectangle element a band is rendered as.
pub open spec fn rect_view(b: Band) -> NodeV {
    NodeV::Element {
        tag: "rect"@,
        attrs: seq![
            AttrV { name: "fill"@, value: AttrValueV::Rgb(b.color) },
            AttrV { name: "width"@, value: AttrValueV::Px(b.width as int) },
            AttrV { name: "height"@, value: AttrValueV::Px(b.height as int) },
            AttrV { name: "x"@, value: AttrValueV::Px(b.x as int) },
            AttrV { name: "y"@, value: AttrValueV::Px(b.y as int) },
        ],
        children: Seq::empty(),
    }
}

/// The band layer: one rectangle per positive-weight palette entry, in
/// declared order.
pub open spec fn spec_flag_graphic(vb: ViewBox, palette: Seq<(Color, i64)>) -> NodeV {
    NodeV::Element {
        tag: "g"@,
        attrs: Seq::empty(),
        children: Seq::new(spec_bands(vb, palette).len(), |i: int| rect_view(spec_bands(vb, palette)[i])),
    }
}

fn push_attr(attrs: &mut Vec<Attr>, name: &str, value: AttrValue)
    ensures
        final(attrs)@.len() == old(attrs)@.len() + 1,
        final(attrs).deep_view() == old(attrs).deep_view().push(
            AttrV { name: name@, value: value.deep_view() },
        ),
{
    let a = Attr { name: name.to_owned(), value };
    attrs.push(a);
    proof {
        assert(final(attrs).deep_view() =~= old(attrs).deep_view().push(
            AttrV { name: name@, value: value.deep_view() },
        ));
    }
}

/// Builds the band layer of a palette within a view-box.
#[verifier::loop_isolation(false)]
pub fn create_flag_graphic(view_box: &ViewBox, raw_colors: &Vec<(Color, i64)>) -> (r: SvgNode)
    requires
        view_box.wf(),
        wf_palette(raw_colors@),
        has_positive_weight(raw_colors@),
    ensures
        r.deep_view() == spec_flag_graphic(*view_box, raw_colors@),
{
    let bands = layout_bands(view_box, raw_colors);
    let mut rects: Vec<SvgNode> = Vec::new();
    let mut i: usize = 0;
    while i < bands.len()
        invariant
            i <= bands@.len(),
            bands@ == spec_bands(*view_box, raw_colors@),
            rects@.len() == i,
            forall|j: int| 0 <= j < i ==> rects@[j].deep_view() == rect_view(bands@[j]),
        decreases bands@.len() - i,
    {
        let b = bands[i];
        let mut attrs: Vec<Attr> = Vec::new();
        push_attr(&mut attrs, "fill", AttrValue::Rgb(b.color));
        push_attr(&mut attrs, "width", AttrValue::Px(b.width));
        push_attr(&mut attrs, "height", AttrValue::Px(b.height));
        push_attr(&mut attrs, "x", AttrValue::Px(b.x));
        push_attr(&mut attrs, "y", AttrValue::Px(b.y));
        let rect = SvgNode::Element { tag: "rect".to_owned(), attrs, children: Vec::new() };
        proof {
            lemma_nodes_view(rect->Element_children@);
            assert(rect.deep_view() =~~= rect_view(b));
        }
        rects.push(rect);
        i = i + 1;
    }
    let ghost rv = rects@;
    let layer = SvgNode::Element { tag: "g".to_owned(), attrs: Vec::new(), children: rects };
    proof {
        let fg = spec_flag_graphic(*view_box, raw_colors@);
        lemma_nodes_view(rv);
        assert forall|j: int| 0 <= j < rv.len() implies nodes_view(rv)[j] == fg.children_of()[j] by {
            assert(nodes_view(rv)[j] == node_view(rv[j]));
            assert(rv[j].deep_view() == rect_view(spec_bands(*view_box, raw_colors@)[j]));
        }
        assert(nodes_view(rv) =~= fg.children_of());
        assert(layer.deep_view() =~~= fg);
    }
    layer
}

/// Attribute names the border overlay must not carry: the fill attributes
/// and the animation, graphical and document event-handler attributes.
pub open spec fn is_stripped_attr_name(name: Seq<char>) -> bool {
    ||| name == "fill"@
    ||| name == "fill-opacity"@
    ||| name == "fill-rule"@
    ||| name == "onbegin"@
    ||| name == "onend"@
    ||| name == "onload"@
    ||| name == "onrepeat"@
    ||| name == "onactivate"@
    ||| name == "onclick"@
    ||| name == "onfocusin"@
    ||| name == "onfocusout"@
    ||| name == "onmousedown"@
    ||| name == "onmousemove"@
    ||| name == "onmouseout"@
    ||| name == "onmouseover"@
    ||| name == "onmouseup"@
    ||| name == "onabort"@
    ||| name == "onerror"@
    ||| name == "onresize"@
    ||| name == "onscroll"@
    ||| name == "onunload"@
    ||| name == "onzoom"@
}

/// The attributes that survive the overlay strip, in order.
pub open spec fn keep_attrs(attrs: Seq<AttrV>) -> Seq<AttrV>
    decreases attrs.len(),
{
    if attrs.len() == 0 {
        Seq::empty()
    } else {
        let rest = keep_attrs(attrs.drop_last());
        if is_stripped_attr_name(attrs.last().name) {
            rest
        } else {
            rest.push(attrs.last())
        }
    }
}

/// A border-overlay clone: the node with its own fill and event-handler
/// attributes removed; children are carried over as they are.
pub open spec fn strip_node(n: NodeV) -> NodeV {
    match n {
        NodeV::Element { tag, attrs, children } => NodeV::Element {
            tag,
            attrs: keep_attrs(attrs),
            children,
        },
        NodeV::Content { .. } => n,
    }
}

fn is_stripped_name(s: &String) -> (r: bool)
    ensures
        r == is_stripped_attr_name(s@),
{
    s.eq(&"fill".to_owned()) || s.eq(&"fill-opacity".to_owned()) || s.eq(&"fill-rule".to_owned())
        || s.eq(&"onbegin".to_owned()) || s.eq(&"onend".to_owned()) || s.eq(&"onload".to_owned())
        || s.eq(&"onrepeat".to_owned()) || s.eq(&"onactivate".to_owned()) || s.eq(
        &"onclick".to_owned(),
    ) || s.eq(&"onfocusin".to_owned()) || s.eq(&"onfocusout".to_owned()) || s.eq(
        &"onmousedown".to_owned(),
    ) || s.eq(&"onmousemove".to_owned()) || s.eq(&"onmouseout".to_owned()) || s.eq(
        &"onmouseover".to_owned(),
    ) || s.eq(&"onmouseup".to_owned()) || s.eq(&"onabort".to_owned()) || s.eq(
        &"onerror".to_owned(),
    ) || s.eq(&"onresize".to_owned()) || s.eq(&"onscroll".to_owned()) || s.eq(
        &"onunload".to_owned(),
    ) || s.eq(&"onzoom".to_owned())
}

/// Clones a node for the border overlay, dropping its stripped attributes.
#[verifier::loop_isolation(false)]
fn strip_clone(node: &SvgNode) -> (r: SvgNode)
    ensures
        r.deep_view() == strip_node(node.deep_view()),
{
    match node {
        SvgNode::Element { tag, attrs, children } => {
            let ghost av = attrs.deep_view();
            let mut new_attrs: Vec<Attr> = Vec::new();
            let mut i: usize = 0;
            proof {
                assert(av.take(0) =~= Seq::<AttrV>::empty());
                assert(new_attrs.deep_view() =~= keep_attrs(av.take(0)));
            }
            while i < attrs.len()
                invariant
                    i <= attrs@.len(),
                    new_attrs.deep_view() == keep_attrs(av.take(i as int)),
                decreases attrs@.len() - i,
            {
                proof {
                    assert(av.take(i + 1).drop_last() =~= av.take(i as int));
                    assert(av.take(i + 1).last() == av[i as int]);
                }
                let a = &attrs[i];
                if !is_stripped_name(&a.name) {
                    new_attrs.push(clone_attr(a));
                    proof {
                        assert(new_attrs.deep_view() =~= keep_attrs(av.take(i + 1)));
                    }
                }
                i = i + 1;
            }
            proof {
                assert(av.take(av.len() as int) =~= av);
            }
            let mut new_children: Vec<SvgNode> = Vec::new();
            let mut c: usize = 0;
            while c < children.len()
                invariant
                    c <= children@.len(),
                    new_children@.len() == c,
                    forall|j: int|
                        0 <= j < c ==> new_children@[j].deep_view() == children@[j].deep_view(),
                decreases children@.len() - c,
            {
                let child = clone_subtree(&children[c]);
                new_children.push(child);
                c = c + 1;
            }
            let r = SvgNode::Element { tag: tag.clone(), attrs: new_attrs, children: new_children };
            proof {
                lemma_nodes_view(r->Element_children@);
                lemma_nodes_view(children@);
                assert(nodes_view(r->Element_children@) =~= nodes_view(children@));
                assert(r.deep_view() =~~= strip_node(node.deep_view()));
            }
            r
        },
        SvgNode::Content { kind, text } => SvgNode::Content { kind: *kind, text: text.clone() },
    }
}

pub open spec fn linecap_keyword(l: LineCap) -> Seq<char> {
    match l {
        LineCap::Butt => "butt"@,
        LineCap::Round => "round"@,
        LineCap::Square => "square"@,
        LineCap::Inherit => "inherit"@,
    }
}

pub open spec fn linejoin_keyword(l: LineJoin) -> Seq<char> {
    match l {
        LineJoin::Miter => "miter"@,
        LineJoin::Round => "round"@,
        LineJoin::Bevel => "bevel"@,
        LineJoin::Inherit => "inherit"@,
        LineJoin::Stroke => "stroke"@,
    }
}

fn linecap_keyword_exec(l: LineCap) -> (r: String)
    ensures
        r@ == linecap_keyword(l),
{
    match l {
        LineCap::Butt => "butt".to_owned(),
        LineCap::Round => "round".to_owned(),
        LineCap::Square => "square".to_owned(),
        LineCap::Inherit => "inherit".to_owned(),
    }
}

fn linejoin_keyword_exec(l: LineJoin) -> (r: String)
    ensures
        r@ == linejoin_keyword(l),
{
    match l {
        LineJoin::Miter => "miter".to_owned(),
        LineJoin::Round => "round".to_owned(),
        LineJoin::Bevel => "bevel".to_owned(),
        LineJoin::Inherit => "inherit".to_owned(),
        LineJoin::Stroke => "stroke".to_owned(),
    }
}

/// The border overlay: a group stroke-styled from the resolved border,
/// holding a stripped clone of every child of the silhouette.
pub open spec fn spec_border_group(border: BorderInformation, shape: NodeV) -> NodeV {
    NodeV::Element {
        tag: "g"@,
        attrs: seq![
            AttrV { name: "stroke"@, value: AttrValueV::Rgb(border.spec_color()) },
            AttrV {
                name: "stroke-linecap"@,
                value: AttrValueV::Raw(linecap_keyword(border.spec_linecap())),
            },
            AttrV {
                name: "stroke-linejoin"@,
                value: AttrValueV::Raw(linejoin_keyword(border.spec_linejoin())),
            },
            AttrV { name: "stroke-width"@, value: AttrValueV::Num(2 * border.spec_width()) },
        ],
        children: Seq::new(
            shape.children_of().len(),
            |i: int| strip_node(shape.children_of()[i]),
        ),
    }
}

/// The generated clip-path element: it carries the transplanted children
/// of the silhouette under a fixed generated id.
pub open spec fn spec_clip_path(shape: NodeV) -> NodeV {
    NodeV::Element {
        tag: "clipPath"@,
        attrs: seq![AttrV { name: "id"@, value: AttrValueV::Raw("queer_clip_001"@) }],
        children: shape.children_of(),
    }
}

pub open spec fn spec_defs(shape: NodeV) -> NodeV {
    NodeV::Element { tag: "defs"@, attrs: Seq::empty(), children: seq![spec_clip_path(shape)] }
}

/// The band layer wired to the generated clip path.
pub open spec fn spec_band_layer(vb: ViewBox, palette: Seq<(Color, i64)>) -> NodeV {
    NodeV::Element {
        tag: "g"@,
        attrs: seq![AttrV { name: "clip-path"@, value: AttrValueV::FuncLink("queer_clip_001"@) }],
        children: spec_flag_graphic(vb, palette).children_of(),
    }
}

/// The composed document for one (flag, clip) pair: the root element holds
/// the definitions, then the border overlay exactly when the resolved
/// border width is positive, then the clipped band layer; the view-box is
/// padded by the border width exactly when the overlay is present.
pub open spec fn spec_pride_flag(
    border: BorderInformation,
    palette: Seq<(Color, i64)>,
    shape: NodeV,
    vb: ViewBox,
) -> NodeV {
    let has_border = border.spec_width() > 0;
    let vb_attr = if has_border {
        vb.spec_pad(border.spec_width())
    } else {
        vb
    };
    NodeV::Element {
        tag: "svg"@,
        attrs: seq![AttrV { name: "viewBox"@, value: AttrValueV::Vb(vb_attr) }],
        children: if has_border {
            seq![spec_defs(shape), spec_border_group(border, shape), spec_band_layer(vb, palette)]
        } else {
            seq![spec_defs(shape), spec_band_layer(vb, palette)]
        },
    }
}

/// Composes the document for one (flag, clip) pair.
#[verifier::loop_isolation(false)]
pub fn create_pride_flag(
    clip_info: &ClipInformation,
    colors: &Vec<(Color, i64)>,
    clip_svg: &SvgNode,
    view_box: &ViewBox,
) -> (r: SvgNode)
    requires
        view_box.wf(),
        wf_palette(colors@),
        has_positive_weight(colors@),
        clip_info.border.wf(),
    ensures
        r.deep_view() == spec_pride_flag(clip_info.border, colors@, clip_svg.deep_view(), *view_box),
{
    let ghost shape = clip_svg.deep_view();
    let cloned = clone_subtree(clip_svg);
    let width = clip_info.border.width();

    // The definitions, holding the clip path with the transplanted shape.
    let clip_children: Vec<SvgNode> = match cloned {
        SvgNode::Element { children, .. } => children,
        SvgNode::Content { .. } => Vec::new(),
    };
    proof {
        lemma_nodes_view(clip_children@);
        assert(nodes_view(clip_children@) =~= shape.children_of());
    }
    let mut clip_path_attrs: Vec<Attr> = Vec::new();
    push_attr(&mut clip_path_attrs, "id", AttrValue::Raw("queer_clip_001".to_owned()));
    let clip_path = SvgNode::Element {
        tag: "clipPath".to_owned(),
        attrs: clip_path_attrs,
        children: clip_children,
    };
    proof {
        assert(clip_path.deep_view() =~~= spec_clip_path(shape));
    }
    let mut defs_children: Vec<SvgNode> = Vec::new();
    defs_children.push(clip_path);
    let ghost dcv = defs_children@;
    let defs = SvgNode::Element {
        tag: "defs".to_owned(),
        attrs: Vec::new(),
        children: defs_children,
    };
    proof {
        lemma_nodes_view(dcv);
        assert(nodes_view(dcv)[0] == node_view(dcv[0]));
        assert(nodes_view(dcv) =~= seq![spec_clip_path(shape)]);
        assert(defs.deep_view() =~~= spec_defs(shape));
    }

    let mut svg_children: Vec<SvgNode> = Vec::new();
    svg_children.push(defs);

    // The border overlay, present exactly when the resolved width is positive.
    if width > 0 {
        let mut border_attrs: Vec<Attr> = Vec::new();
        push_attr(&mut border_attrs, "stroke", AttrValue::Rgb(clip_info.border.color()));
        push_attr(
            &mut border_attrs,
            "stroke-linecap",
            AttrValue::Raw(linecap_keyword_exec(clip_info.border.linecap())),
        );
        push_attr(
            &mut border_attrs,
            "stroke-linejoin",
            AttrValue::Raw(linejoin_keyword_exec(clip_info.border.linejoin())),
        );
        push_attr(&mut border_attrs, "stroke-width", AttrValue::Num(2 * width));
        let mut overlay: Vec<SvgNode> = Vec::new();
        match clip_svg {
            SvgNode::Element { children, .. } => {
                let mut c: usize = 0;
                while c < children.len()
                    invariant
                        c <= children@.len(),
                        overlay@.len() == c,
                        forall|j: int|
                            0 <= j < c ==> overlay@[j].deep_view() == strip_node(
                                children@[j].deep_view(),
                            ),
                    decreases children@.len() - c,
                {
                    let child = strip_clone(&children[c]);
                    overlay.push(child);
                    c = c + 1;
                }
                proof {
                    lemma_nodes_view(children@);
                    lemma_nodes_view(overlay@);
                    assert(shape.children_of() == nodes_view(children@));
                    assert forall|j: int|
                        0 <= j < overlay@.len() implies nodes_view(overlay@)[j] == strip_node(
                        shape.children_of()[j],
                    ) by {
                        assert(nodes_view(overlay@)[j] == node_view(overlay@[j]));
                        assert(shape.children_of()[j] == node_view(children@[j]));
                    }
                    assert(nodes_view(overlay@) =~= Seq::new(
                        shape.children_of().len(),
                        |i: int| strip_node(shape.children_of()[i]),
                    ));
                }
            },
            SvgNode::Content { .. } => {
                proof {
                    assert(shape.children_of() =~= Seq::<NodeV>::empty());
                    assert(nodes_view(overlay@) =~= Seq::new(
                        shape.children_of().len(),
                        |i: int| strip_node(shape.children_of()[i]),
                    ));
                }
            },
        }
        let border_g = SvgNode::Element {
            tag: "g".to_owned(),
            attrs: border_attrs,
            children: overlay,
        };
        proof {
            assert(border_g.deep_view() =~~= spec_border_group(clip_info.border, shape));
        }
        svg_children.push(border_g);
    }

    // The clipped band layer.
    let graphic = create_flag_graphic(view_box, colors);
    let rects: Vec<SvgNode> = match graphic {
        SvgNode::Element { children, .. } => children,
        SvgNode::Content { .. } => Vec::new(),
    };
    proof {
        assert(nodes_view(rects@) =~= spec_flag_graphic(*view_box, colors@).children_of());
    }
    let mut layer_attrs: Vec<Attr> = Vec::new();
    push_attr(&mut layer_attrs, "clip-path", AttrValue::FuncLink("queer_clip_001".to_owned()));
    let band_layer = SvgNode::Element { tag: "g".to_owned(), attrs: layer_attrs, children: rects };
    proof {
        assert(band_layer.deep_view() =~~= spec_band_layer(*view_box, colors@));
    }
    svg_children.push(band_layer);

    let ghost scv = svg_children@;
    let mut svg_attrs: Vec<Attr> = Vec::new();
    let vb_attr = if width > 0 {
        view_box.pad(width)
    } else {
        *view_box
    };
    push_attr(&mut svg_attrs, "viewBox", AttrValue::Vb(vb_attr));
    let svg = SvgNode::Element { tag: "svg".to_owned(), attrs: svg_attrs, children: svg_children };
    proof {
        let doc = spec_pride_flag(clip_info.border, colors@, clip_svg.deep_view(), *view_box);
        lemma_nodes_view(scv);
        assert forall|j: int| 0 <= j < scv.len() implies nodes_view(scv)[j] == node_view(
            scv[j],
        ) by {}
        assert(nodes_view(scv) =~= doc.children_of());
        assert(svg.deep_view() =~~= doc);
    }
    svg
}

/// Failures of reading a view-box out of a shape document.
#[derive(Clone, Copy, PartialEq, Eq, Structural, Debug)]
pub enum ShapeError {
    /// The root element carries no view-box attribute.
    MissingViewBox,
    /// The view-box attribute does not hold exactly four numbers.
    UnsupportedViewBox,
}

/// The value of the first attribute under the given name.
pub open spec fn spec_attr_lookup(attrs: Seq<AttrV>, name: Seq<char>) -> Option<AttrValueV>
    decreases attrs.len(),
{
    if attrs.len() == 0 {
        None
    } else if attrs[0].name == name {
        Some(attrs[0].value)
    } else {
        spec_attr_lookup(attrs.drop_first(), name)
    }
}

/// List separators of a view-box attribute: whitespace and commas.
pub open spec fn is_sep(c: char) -> bool {
    c == ' ' || c == ',' || c == '\t' || c == '\n' || c == '\r'
}

/// Length of the number token starting the text.
pub open spec fn token_end(s: Seq<char>) -> int
    decreases s.len(),
{
    if s.len() == 0 || is_sep(s[0]) {
        0
    } else {
        1 + token_end(s.drop_first())
    }
}

/// The numbers of a separator-delimited list, in ticks; `None` when any
/// token fails to parse.
pub proof fn lemma_token_end_bounds(s: Seq<char>)
    ensures
        0 <= token_end(s) <= s.len(),
    decreases s.len(),
{
    if s.len() > 0 && !is_sep(s[0]) {
        lemma_token_end_bounds(s.drop_first());
    }
}

pub open spec fn spec_numbers(s: Seq<char>) -> Option<Seq<int>>
    decreases s.len(),
    via spec_numbers_dec
{
    if s.len() == 0 {
        Some(Seq::empty())
    } else if is_sep(s[0]) {
        spec_numbers(s.drop_first())
    } else {
        let e = token_end(s);
        match crate::numparse::spec_parse_scaled(s.take(e)) {
            None => None,
            Some(v) => match spec_numbers(s.skip(e)) {
                None => None,
                Some(rest) => Some(seq![v].add(rest)),
            },
        }
    }
}

#[via_fn]
proof fn spec_numbers_dec(s: Seq<char>) {
    if s.len() > 0 && !is_sep(s[0]) {
        lemma_token_end_bounds(s);
    }
}

pub open spec fn int_seq(s: Seq<i64>) -> Seq<int> {
    Seq::new(s.len(), |k: int| s[k] as int)
}

fn is_sep_char(c: char) -> (r: bool)
    ensures
        r == is_sep(c),
{
    c == ' ' || c == ',' || c == '\t' || c == '\n' || c == '\r'
}

/// Parses the separator-delimited numbers of `s` from position `i` on.
#[verifier::loop_isolation(false)]
fn parse_numbers_from(s: &str, i: usize) -> (r: Option<Vec<i64>>)
    requires
        i <= s@.len(),
    ensures
        match r {
            Some(ns) => spec_numbers(s@.skip(i as int)) == Some(int_seq(ns@)),
            None => spec_numbers(s@.skip(i as int)) is None,
        },
    decreases s@.len() - i,
{
    let n = s.unicode_len();
    if i == n {
        let ns: Vec<i64> = Vec::new();
        proof {
            assert(s@.skip(i as int) =~= Seq::<char>::empty());
            assert(int_seq(ns@) =~= Seq::<int>::empty());
        }
        return Some(ns);
    }
    let c = s.get_char(i);
    if is_sep_char(c) {
        proof {
            assert(s@.skip(i as int).drop_first() =~= s@.skip(i + 1));
        }
        return parse_numbers_from(s, i + 1);
    }
    // Find the end of the token.
    let mut j: usize = i;
    while j < n && !is_sep_char(s.get_char(j))
        invariant
            i <= j <= n,
            token_end(s@.skip(i as int)) == (j - i) + token_end(s@.skip(j as int)),
        decreases n - j,
    {
        proof {
            assert(s@.skip(j as int).drop_first() =~= s@.skip(j + 1));
            assert(s@.skip(j as int)[0] == s@[j as int]);
        }
        j = j + 1;
    }
    proof {
        if j < n {
            assert(s@.skip(j as int)[0] == s@[j as int]);
        } else {
            assert(s@.skip(j as int) =~= Seq::<char>::empty());
        }
        assert(token_end(s@.skip(i as int)) == j - i);
        assert(s@.skip(i as int).take(j - i) =~= s@.subrange(i as int, j as int));
    }
    let tok = s.substring_char(i, j);
    let v = match crate::numparse::parse_scaled(tok) {
        Some(v) => v,
        None => {
            return None;
        },
    };
    proof {
        assert(s@.skip(i as int).skip(j - i) =~= s@.skip(j as int));
    }
    let mut rest = match parse_numbers_from(s, j) {
        Some(rest) => rest,
        None => {
            return None;
        },
    };
    let ghost before = rest@;
    rest.insert(0, v);
    proof {
        assert(rest@.subrange(1, rest@.len() as int) =~= before);
        assert(int_seq(rest@) =~= seq![v as int].add(int_seq(before)));
    }
    Some(rest)
}

/// What the view-box of a shape root is: its `viewBox` attribute must hold
/// exactly four numbers (or a typed view-box value).
pub open spec fn spec_find_view_box(n: NodeV) -> Result<ViewBox, ShapeError> {
    match n {
        NodeV::Content { .. } => Err(ShapeError::MissingViewBox),
        NodeV::Element { attrs, .. } => match spec_attr_lookup(attrs, "viewBox"@) {
            None => Err(ShapeError::MissingViewBox),
            Some(v) => match v {
                AttrValueV::Vb(vb) => Ok(vb),
                AttrValueV::Raw(s) => match spec_numbers(s) {
                    Some(ns) => if ns.len() == 4 {
                        Ok(
                            ViewBox {
                                x: ns[0] as i64,
                                y: ns[1] as i64,
                                width: ns[2] as i64,
                                height: ns[3] as i64,
                            },
                        )
                    } else {
                        Err(ShapeError::UnsupportedViewBox)
                    },
                    None => Err(ShapeError::UnsupportedViewBox),
                },
                _ => Err(ShapeError::UnsupportedViewBox),
            },
        },
    }
}

/// Reads the view-box out of a shape document's root element.
#[verifier::loop_isolation(false)]
pub fn find_view_box(clip_svg: &SvgNode) -> (r: Result<ViewBox, ShapeError>)
    ensures
        spec_find_view_box(clip_svg.deep_view()) == r,
{
    match clip_svg {
        SvgNode::Content { .. } => Err(ShapeError::MissingViewBox),
        SvgNode::Element { attrs, .. } => {
            let ghost av = attrs.deep_view();
            let name = "viewBox".to_owned();
            let mut i: usize = 0;
            proof {
                assert(av.skip(0) =~= av);
            }
            while i < attrs.len()
                invariant
                    i <= attrs@.len(),
                    spec_attr_lookup(av, "viewBox"@) == spec_attr_lookup(
                        av.skip(i as int),
                        "viewBox"@,
                    ),
                decreases attrs@.len() - i,
            {
                proof {
                    assert(av.skip(i as int).drop_first() =~= av.skip(i + 1));
                    assert(av.skip(i as int)[0] == av[i as int]);
                }
                if attrs[i].name.eq(&name) {
                    return match &attrs[i].value {
                        AttrValue::Vb(vb) => Ok(*vb),
                        AttrValue::Raw(s) => {
                            proof {
                                assert(s@.skip(0) =~= s@);
                            }
                            match parse_numbers_from(s.as_str(), 0) {
                                Some(ns) => {
                                    if ns.len() == 4 {
                                        Ok(ViewBox::new(ns[0], ns[1], ns[2], ns[3]))
                                    } else {
                                        Err(ShapeError::UnsupportedViewBox)
                                    }
                                },
                                None => Err(ShapeError::UnsupportedViewBox),
                            }
                        },
                        _ => Err(ShapeError::UnsupportedViewBox),
                    };
                }
                i = i + 1;
            }
            proof {
                assert(av.skip(i as int) =~= Seq::<AttrV>::empty());
            }
            Err(ShapeError::MissingViewBox)
        },
    }
}

} // verus!
