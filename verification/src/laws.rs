//! Laws of the layout and composition engines, stated and proved over the
//! same spec functions the executable contracts use.

use vstd::prelude::*;

verus! {

use vstd::arithmetic::div_mod::{lemma_div_is_ordered, lemma_div_multiples_vanish, lemma_div_of0};
use crate::color::Color;
use crate::compose::{
    band_advance, band_y, has_positive_weight, is_stripped_attr_name, keep_attrs,
    lemma_cum_bounds, lemma_pos_filter_nonempty, lemma_pos_filter_wf, lemma_total_weight_bounds,
    pos_filter, spec_band, spec_band_layer, spec_bands, spec_border_group, spec_defs,
    spec_pride_flag, strip_node, total_weight, wf_palette,
};
use crate::config::BorderInformation;
use crate::geom::ViewBox;
use crate::numparse::MAX_SCALED;
use crate::svgtree::{AttrV, AttrValueV, NodeV};

/// Total cursor advance over the first `k` bands.
pub open spec fn advance_sum(height: int, fs: Seq<(Color, i64)>, k: int) -> int
    decreases k,
{
    if k <= 0 {
        0
    } else {
        advance_sum(height, fs, k - 1) + band_advance(height, fs, k - 1)
    }
}

proof fn lemma_band_y_zero(height: int, fs: Seq<(Color, i64)>)
    requires
        total_weight(fs) > 0,
    ensures
        band_y(height, fs, 0) == 0,
{
    assert(fs.take(0) =~= Seq::<(Color, i64)>::empty());
    lemma_div_of0(total_weight(fs));
}

/// The advances telescope: after `k` bands the cursor stands at the `k`-th
/// proportional cut.
proof fn lemma_advance_sum_telescopes(height: int, fs: Seq<(Color, i64)>, k: int)
    requires
        k >= 0,
        total_weight(fs) > 0,
    ensures
        advance_sum(height, fs, k) == band_y(height, fs, k),
    decreases k,
{
    if k == 0 {
        lemma_band_y_zero(height, fs);
    } else {
        lemma_advance_sum_telescopes(height, fs, k - 1);
    }
}

proof fn lemma_band_y_at_most_height(vb: ViewBox, fs: Seq<(Color, i64)>, k: int)
    requires
        vb.wf(),
        0 <= k <= fs.len(),
        forall|i: int| 0 <= i < fs.len() ==> 0 < (#[trigger] fs[i]).1 <= MAX_SCALED,
        fs.len() >= 1,
    ensures
        0 <= band_y(vb.height as int, fs, k) <= vb.height,
{
    let h = vb.height as int;
    let w = total_weight(fs);
    lemma_total_weight_bounds(fs);
    lemma_cum_bounds(fs, k);
    let cum = total_weight(fs.take(k));
    assert(h * cum <= h * w) by (nonlinear_arith)
        requires
            0 <= cum <= w,
            h >= 0,
    ;
    assert(h * cum >= 0) by (nonlinear_arith)
        requires
            h >= 0,
            cum >= 0,
    ;
    lemma_div_is_ordered(0, h * cum, w);
    lemma_div_is_ordered(h * cum, h * w, w);
    lemma_div_multiples_vanish(h, w);
}

/// For every palette with a positive-weight entry, the cursor advances sum
/// to exactly the view-box height, and no band's drawn extent passes the
/// view-box bottom edge.
pub proof fn lemma_layout_fills_exactly(vb: ViewBox, palette: Seq<(Color, i64)>)
    requires
        vb.wf(),
        wf_palette(palette),
        has_positive_weight(palette),
    ensures
        advance_sum(vb.height as int, pos_filter(palette), pos_filter(palette).len() as int)
            == vb.height,
        forall|k: int|
            0 <= k < spec_bands(vb, palette).len() ==> (#[trigger] spec_bands(vb, palette)[k]).y
                + spec_bands(vb, palette)[k].height <= vb.y + vb.height,
{
    let fs = pos_filter(palette);
    let h = vb.height as int;
    lemma_pos_filter_wf(palette);
    lemma_pos_filter_nonempty(palette);
    lemma_total_weight_bounds(fs);
    let w = total_weight(fs);
    lemma_advance_sum_telescopes(h, fs, fs.len() as int);
    assert(fs.take(fs.len() as int) =~= fs);
    lemma_div_multiples_vanish(h, w);
    assert(band_y(h, fs, fs.len() as int) == h * w / w);
    assert(h * w / w == h) by {
        lemma_div_multiples_vanish(h, w);
    }
    assert forall|k: int|
        0 <= k < spec_bands(vb, palette).len() implies (#[trigger] spec_bands(vb, palette)[k]).y
        + spec_bands(vb, palette)[k].height <= vb.y + vb.height by {
        let b = spec_band(vb, fs, k);
        lemma_band_y_at_most_height(vb, fs, k);
        lemma_band_y_at_most_height(vb, fs, k + 1);
        let y0 = band_y(h, fs, k);
        let y1 = band_y(h, fs, k + 1);
        assert(b.y == vb.y + y0);
        if y1 + crate::numparse::SCALE > vb.height {
            assert(b.height == y1 - y0);
        } else {
            assert(b.height == y1 - y0 + crate::numparse::SCALE);
        }
    }
}

/// Bands come out in declared palette order: one band per positive-weight
/// entry, carrying its color; entries of non-positive weight produce none,
/// and a palette of only positive weights maps to its bands one for one.
pub proof fn lemma_band_order(vb: ViewBox, palette: Seq<(Color, i64)>)
    requires
        vb.wf(),
        wf_palette(palette),
        has_positive_weight(palette),
    ensures
        spec_bands(vb, palette).len() == pos_filter(palette).len(),
        forall|k: int|
            0 <= k < spec_bands(vb, palette).len() ==> (#[trigger] spec_bands(vb, palette)[k]).color
                == pos_filter(palette)[k].0,
        forall|k: int|
            0 <= k < pos_filter(palette).len() ==> (#[trigger] pos_filter(palette)[k]).1 > 0,
        (forall|i: int| 0 <= i < palette.len() ==> (#[trigger] palette[i]).1 > 0) ==> pos_filter(
            palette,
        ) == palette,
{
    lemma_pos_filter_wf(palette);
    if forall|i: int| 0 <= i < palette.len() ==> (#[trigger] palette[i]).1 > 0 {
        lemma_pos_filter_identity(palette);
    }
}

/// The palette position the `k`-th band stems from: the index of the
/// `k`-th positive-weight entry.
pub open spec fn pos_index(s: Seq<(Color, i64)>, k: int) -> int
    decreases s.len(),
{
    if s.len() == 0 {
        -1
    } else if s.last().1 > 0 && k == pos_filter(s).len() - 1 {
        s.len() - 1
    } else {
        pos_index(s.drop_last(), k)
    }
}

proof fn lemma_pos_index_maps(s: Seq<(Color, i64)>, k: int)
    requires
        0 <= k < pos_filter(s).len(),
    ensures
        0 <= pos_index(s, k) < s.len(),
        s[pos_index(s, k)] == pos_filter(s)[k],
    decreases s.len(),
{
    if s.len() > 0 {
        if s.last().1 > 0 && k == pos_filter(s).len() - 1 {
        } else {
            lemma_pos_index_maps(s.drop_last(), k);
        }
    }
}

proof fn lemma_pos_index_mono(s: Seq<(Color, i64)>, k1: int, k2: int)
    requires
        0 <= k1 < k2 < pos_filter(s).len(),
    ensures
        pos_index(s, k1) < pos_index(s, k2),
    decreases s.len(),
{
    if s.len() > 0 {
        if s.last().1 > 0 && k2 == pos_filter(s).len() - 1 {
            lemma_pos_index_maps(s.drop_last(), k1);
        } else {
            lemma_pos_index_mono(s.drop_last(), k1, k2);
        }
    }
}

/// Band order is declared palette order: the `k`-th band stems from the
/// `k`-th positive-weight palette entry, and those source positions
/// strictly increase with `k`.
pub proof fn lemma_bands_follow_declared_order(palette: Seq<(Color, i64)>)
    ensures
        forall|k: int|
            #![trigger pos_index(palette, k)]
            0 <= k < pos_filter(palette).len() ==> 0 <= pos_index(palette, k) < palette.len()
                && palette[pos_index(palette, k)] == pos_filter(palette)[k],
        forall|k1: int, k2: int|
            #![trigger pos_index(palette, k1), pos_index(palette, k2)]
            0 <= k1 < k2 < pos_filter(palette).len() ==> pos_index(palette, k1) < pos_index(
                palette,
                k2,
            ),
{
    assert forall|k: int|
        #![trigger pos_index(palette, k)]
        0 <= k < pos_filter(palette).len() implies 0 <= pos_index(palette, k) < palette.len()
        && palette[pos_index(palette, k)] == pos_filter(palette)[k] by {
        lemma_pos_index_maps(palette, k);
    }
    assert forall|k1: int, k2: int|
        #![trigger pos_index(palette, k1), pos_index(palette, k2)]
        0 <= k1 < k2 < pos_filter(palette).len() implies pos_index(palette, k1) < pos_index(
        palette,
        k2,
    ) by {
        lemma_pos_index_mono(palette, k1, k2);
    }
}

proof fn lemma_pos_filter_identity(palette: Seq<(Color, i64)>)
    requires
        forall|i: int| 0 <= i < palette.len() ==> (#[trigger] palette[i]).1 > 0,
    ensures
        pos_filter(palette) == palette,
    decreases palette.len(),
{
    if palette.len() > 0 {
        assert(forall|i: int|
            0 <= i < palette.len() - 1 ==> palette.drop_last()[i] == palette[i]);
        lemma_pos_filter_identity(palette.drop_last());
        assert(pos_filter(palette) =~= palette);
    } else {
        assert(pos_filter(palette) =~= palette);
    }
}

/// The border branch is taken exactly when the resolved border width is
/// positive: then the document's view-box is the padded one and the overlay
/// group stands between the definitions and the band layer; otherwise the
/// view-box is unpadded and no overlay group exists.
pub proof fn lemma_border_branch(
    border: BorderInformation,
    palette: Seq<(Color, i64)>,
    shape: NodeV,
    vb: ViewBox,
)
    ensures
        border.spec_width() > 0 ==> spec_pride_flag(border, palette, shape, vb).attrs_of()
            == seq![
            AttrV { name: "viewBox"@, value: AttrValueV::Vb(vb.spec_pad(border.spec_width())) },
        ] && spec_pride_flag(border, palette, shape, vb).children_of() == seq![
            spec_defs(shape),
            spec_border_group(border, shape),
            spec_band_layer(vb, palette),
        ],
        border.spec_width() <= 0 ==> spec_pride_flag(border, palette, shape, vb).attrs_of()
            == seq![AttrV { name: "viewBox"@, value: AttrValueV::Vb(vb) }] && spec_pride_flag(
            border,
            palette,
            shape,
            vb,
        ).children_of() == seq![spec_defs(shape), spec_band_layer(vb, palette)],
{
}

proof fn lemma_keep_attrs_stripped(s: Seq<AttrV>)
    ensures
        forall|a: int|
            0 <= a < keep_attrs(s).len() ==> !is_stripped_attr_name(
                (#[trigger] keep_attrs(s)[a]).name,
            ),
    decreases s.len(),
{
    if s.len() > 0 {
        lemma_keep_attrs_stripped(s.drop_last());
    }
}

/// Border-overlay clones never carry a fill attribute or any event-handler
/// attribute, whatever the source shape carried.
pub proof fn lemma_overlay_never_fills(border: BorderInformation, shape: NodeV)
    ensures
        forall|j: int, a: int|
            0 <= j < spec_border_group(border, shape).children_of().len() && 0 <= a
                < spec_border_group(border, shape).children_of()[j].attrs_of().len()
                ==> !is_stripped_attr_name(
                (#[trigger] spec_border_group(border, shape).children_of()[j].attrs_of()[a]).name,
            ),
{
    assert forall|j: int, a: int|
        0 <= j < spec_border_group(border, shape).children_of().len() && 0 <= a
            < spec_border_group(border, shape).children_of()[j].attrs_of().len()
            implies !is_stripped_attr_name(
        (#[trigger] spec_border_group(border, shape).children_of()[j].attrs_of()[a]).name,
    ) by {
        let child = spec_border_group(border, shape).children_of()[j];
        assert(child == strip_node(shape.children_of()[j]));
        match shape.children_of()[j] {
            NodeV::Element { tag, attrs, children } => {
                lemma_keep_attrs_stripped(attrs);
            },
            NodeV::Content { .. } => {},
        }
    }
}

/// Composition is a function of its inputs: two compositions of identical
/// inputs are identical documents.
pub proof fn lemma_compose_deterministic(
    r1: NodeV,
    r2: NodeV,
    border: BorderInformation,
    palette: Seq<(Color, i64)>,
    shape: NodeV,
    vb: ViewBox,
)
    requires
        r1 == spec_pride_flag(border, palette, shape, vb),
        r2 == spec_pride_flag(border, palette, shape, vb),
    ensures
        r1 == r2,
{
}

} // verus!

