use rainbow_svg_mask::color::Color;
use rainbow_svg_mask::compose::{
    create_pride_flag, find_view_box, layout_bands, Band, ShapeError,
};
use rainbow_svg_mask::config::{
    parse_flag_yaml, yaml_to_color, yaml_weight, BorderInformation, ClipInformation, ConfigEntry,
    ConfigError, ConfigValue, LineCap, LineJoin,
};
use rainbow_svg_mask::geom::ViewBox;
use rainbow_svg_mask::numparse::parse_scaled;
use rainbow_svg_mask::svgtree::{clone_subtree, Attr, AttrValue, SvgNode};

const S: i64 = 1_000_000;

fn rgb(r: u8, g: u8, b: u8) -> Color {
    Color { red: r, green: g, blue: b }
}

fn entry(key: &str, value: ConfigValue) -> ConfigEntry {
    ConfigEntry { key: ConfigValue::Str(key.to_string()), value }
}

fn circle_shape() -> SvgNode {
    SvgNode::Element {
        tag: "svg".to_string(),
        attrs: vec![Attr {
            name: "viewBox".to_string(),
            value: AttrValue::Raw("0 0 100 100".to_string()),
        }],
        children: vec![SvgNode::Element {
            tag: "circle".to_string(),
            attrs: vec![
                Attr { name: "cx".to_string(), value: AttrValue::Raw("50".to_string()) },
                Attr { name: "cy".to_string(), value: AttrValue::Raw("50".to_string()) },
                Attr { name: "r".to_string(), value: AttrValue::Raw("48".to_string()) },
                Attr { name: "fill".to_string(), value: AttrValue::Raw("black".to_string()) },
                Attr { name: "onclick".to_string(), value: AttrValue::Raw("alert()".to_string()) },
                Attr { name: "stroke".to_string(), value: AttrValue::Raw("none".to_string()) },
            ],
            children: vec![],
        }],
    }
}

fn default_border_clip() -> ClipInformation {
    ClipInformation {
        name: "circle".to_string(),
        filename: "circle.svg".to_string(),
        border: BorderInformation::new(None, None, None, None),
    }
}

fn element_parts(node: &SvgNode) -> (&String, &Vec<Attr>, &Vec<SvgNode>) {
    match node {
        SvgNode::Element { tag, attrs, children } => (tag, attrs, children),
        SvgNode::Content { .. } => panic!("expected an element"),
    }
}

#[test]
fn test_parse_scaled_decimals() {
    assert_eq!(parse_scaled("2.5"), Some(2_500_000));
    assert_eq!(parse_scaled("-0.25"), Some(-250_000));
    assert_eq!(parse_scaled(".5"), Some(500_000));
    assert_eq!(parse_scaled("3."), Some(3_000_000));
    assert_eq!(parse_scaled("+7"), Some(7_000_000));
    assert_eq!(parse_scaled("100"), Some(100_000_000));
    assert_eq!(parse_scaled("0.1234567"), Some(123_456));
    assert_eq!(parse_scaled("abc"), None);
    assert_eq!(parse_scaled("1.2.3"), None);
    assert_eq!(parse_scaled(""), None);
    assert_eq!(parse_scaled("-"), None);
    assert_eq!(parse_scaled("10000000"), None);
}

#[test]
fn test_color_token_without_hash_matches_hash_form() {
    let bare = yaml_to_color("FF0000").expect("bare hex triplet parses");
    let hashed = yaml_to_color("#FF0000").expect("hash form parses");
    assert_eq!(bare, rgb(255, 0, 0));
    assert_eq!(bare, hashed);
}

#[test]
fn test_color_named_and_invalid() {
    assert_eq!(yaml_to_color("red").unwrap(), rgb(255, 0, 0));
    assert_eq!(yaml_to_color("green").unwrap(), rgb(0, 128, 0));
    assert_eq!(yaml_to_color("blue").unwrap(), rgb(0, 0, 255));
    assert!(matches!(yaml_to_color("no-such-color"), Err(ConfigError::InvalidColor)));
}

#[test]
fn test_weight_coercion() {
    assert_eq!(yaml_weight(&ConfigValue::Int(2)).unwrap(), 2 * S);
    assert_eq!(yaml_weight(&ConfigValue::Real("2.5".to_string())).unwrap(), 2_500_000);
    assert_eq!(yaml_weight(&ConfigValue::Str("0.5".to_string())).unwrap(), 500_000);
    assert_eq!(yaml_weight(&ConfigValue::Bool(true)).unwrap(), S);
    assert_eq!(yaml_weight(&ConfigValue::Bool(false)).unwrap(), 0);
    assert!(matches!(
        yaml_weight(&ConfigValue::Real("abc".to_string())),
        Err(ConfigError::InvalidNumber)
    ));
    assert!(matches!(
        yaml_weight(&ConfigValue::Other),
        Err(ConfigError::InvalidNumberValue)
    ));
}

#[test]
fn test_layout_three_equal_bands() {
    let vb = ViewBox::new(0, 0, 100 * S, 100 * S);
    let palette = vec![(rgb(255, 0, 0), S), (rgb(0, 128, 0), S), (rgb(0, 0, 255), S)];
    let bands = layout_bands(&vb, &palette);
    assert_eq!(bands.len(), 3);
    assert_eq!(
        bands[0],
        Band { color: rgb(255, 0, 0), x: 0, y: 0, width: 100 * S, height: 34_333_333 }
    );
    assert_eq!(
        bands[1],
        Band { color: rgb(0, 128, 0), x: 0, y: 33_333_333, width: 100 * S, height: 34_333_333 }
    );
    assert_eq!(
        bands[2],
        Band { color: rgb(0, 0, 255), x: 0, y: 66_666_666, width: 100 * S, height: 33_333_334 }
    );
    // The last band completes the height exactly.
    assert_eq!(bands[2].y + bands[2].height, 100 * S);
    for b in &bands {
        assert!(b.y + b.height <= 100 * S);
    }
}

#[test]
fn test_layout_skips_nonpositive_weights() {
    let vb = ViewBox::new(0, 0, 10 * S, 100 * S);
    let palette = vec![
        (rgb(1, 1, 1), 2 * S),
        (rgb(2, 2, 2), 0),
        (rgb(3, 3, 3), -S),
        (rgb(4, 4, 4), 2 * S),
    ];
    let bands = layout_bands(&vb, &palette);
    assert_eq!(bands.len(), 2);
    assert_eq!(bands[0].color, rgb(1, 1, 1));
    assert_eq!(bands[1].color, rgb(4, 4, 4));
    assert_eq!(bands[1].y, 50 * S);
}

#[test]
fn test_layout_single_band_fills_whole_height() {
    let vb = ViewBox::new(5 * S, 7 * S, 10 * S, 42 * S);
    let palette = vec![(rgb(9, 9, 9), 3 * S)];
    let bands = layout_bands(&vb, &palette);
    assert_eq!(bands.len(), 1);
    assert_eq!(
        bands[0],
        Band { color: rgb(9, 9, 9), x: 5 * S, y: 7 * S, width: 10 * S, height: 42 * S }
    );
}

#[test]
fn test_clone_subtree_is_isomorphic_and_independent() {
    let original = circle_shape();
    let mut copy = clone_subtree(&original);
    assert_eq!(format!("{:?}", original), format!("{:?}", copy));
    // Mutating the clone leaves the source untouched.
    match &mut copy {
        SvgNode::Element { children, .. } => children.clear(),
        SvgNode::Content { .. } => panic!("expected an element"),
    }
    let (_, _, children) = element_parts(&original);
    assert_eq!(children.len(), 1);
}

#[test]
fn test_find_view_box_parses_four_numbers() {
    let vb = find_view_box(&circle_shape()).unwrap();
    assert_eq!(vb, ViewBox::new(0, 0, 100 * S, 100 * S));

    let commas = SvgNode::Element {
        tag: "svg".to_string(),
        attrs: vec![Attr {
            name: "viewBox".to_string(),
            value: AttrValue::Raw("-1,2,3.5,4".to_string()),
        }],
        children: vec![],
    };
    assert_eq!(find_view_box(&commas).unwrap(), ViewBox::new(-S, 2 * S, 3_500_000, 4 * S));
}

#[test]
fn test_find_view_box_errors() {
    let no_attr = SvgNode::Element {
        tag: "svg".to_string(),
        attrs: vec![],
        children: vec![],
    };
    assert_eq!(find_view_box(&no_attr), Err(ShapeError::MissingViewBox));

    let three = SvgNode::Element {
        tag: "svg".to_string(),
        attrs: vec![Attr {
            name: "viewBox".to_string(),
            value: AttrValue::Raw("0 0 100".to_string()),
        }],
        children: vec![],
    };
    assert_eq!(find_view_box(&three), Err(ShapeError::UnsupportedViewBox));

    let junk = SvgNode::Element {
        tag: "svg".to_string(),
        attrs: vec![Attr {
            name: "viewBox".to_string(),
            value: AttrValue::Raw("0 0 ten 100".to_string()),
        }],
        children: vec![],
    };
    assert_eq!(find_view_box(&junk), Err(ShapeError::UnsupportedViewBox));
}

#[test]
fn test_border_defaults() {
    let border = BorderInformation::new(None, None, None, None);
    assert_eq!(border.color(), rgb(0xee, 0xee, 0xee));
    assert_eq!(border.linecap(), LineCap::Round);
    assert_eq!(border.linejoin(), LineJoin::Stroke);
    assert_eq!(border.width(), 5 * S);
}

#[test]
fn test_compose_with_default_border_has_overlay() {
    let shape = circle_shape();
    let vb = find_view_box(&shape).unwrap();
    let palette = vec![(rgb(255, 0, 0), S)];
    let doc = create_pride_flag(&default_border_clip(), &palette, &shape, &vb);
    let (tag, attrs, children) = element_parts(&doc);
    assert_eq!(tag.as_str(), "svg");
    // View-box padded by the default border width of five units on all sides.
    assert_eq!(attrs.len(), 1);
    assert_eq!(attrs[0].name.as_str(), "viewBox");
    match &attrs[0].value {
        AttrValue::Vb(padded) => {
            assert_eq!(*padded, ViewBox::new(-5 * S, -5 * S, 110 * S, 110 * S));
        }
        other => panic!("expected a view-box value, got {:?}", other),
    }
    // Children: defs, border overlay, band layer.
    assert_eq!(children.len(), 3);
    let (defs_tag, _, defs_children) = element_parts(&children[0]);
    assert_eq!(defs_tag.as_str(), "defs");
    let (cp_tag, cp_attrs, cp_children) = element_parts(&defs_children[0]);
    assert_eq!(cp_tag.as_str(), "clipPath");
    assert_eq!(cp_attrs[0].name.as_str(), "id");
    assert!(matches!(&cp_attrs[0].value, AttrValue::Raw(s) if s == "queer_clip_001"));
    assert_eq!(cp_children.len(), 1);
    let (circle_tag, _, _) = element_parts(&cp_children[0]);
    assert_eq!(circle_tag.as_str(), "circle");

    let (border_tag, border_attrs, border_children) = element_parts(&children[1]);
    assert_eq!(border_tag.as_str(), "g");
    assert_eq!(border_attrs.len(), 4);
    assert_eq!(border_attrs[0].name.as_str(), "stroke");
    assert!(matches!(&border_attrs[0].value, AttrValue::Rgb(c) if *c == rgb(0xee, 0xee, 0xee)));
    assert_eq!(border_attrs[1].name.as_str(), "stroke-linecap");
    assert!(matches!(&border_attrs[1].value, AttrValue::Raw(s) if s == "round"));
    assert_eq!(border_attrs[2].name.as_str(), "stroke-linejoin");
    assert!(matches!(&border_attrs[2].value, AttrValue::Raw(s) if s == "stroke"));
    assert_eq!(border_attrs[3].name.as_str(), "stroke-width");
    assert!(matches!(&border_attrs[3].value, AttrValue::Num(w) if *w == 10 * S));
    assert_eq!(border_children.len(), 1);

    let (layer_tag, layer_attrs, _) = element_parts(&children[2]);
    assert_eq!(layer_tag.as_str(), "g");
    assert_eq!(layer_attrs[0].name.as_str(), "clip-path");
    assert!(matches!(&layer_attrs[0].value, AttrValue::FuncLink(s) if s == "queer_clip_001"));
}

#[test]
fn test_overlay_clones_carry_no_fill_or_event_attributes() {
    let shape = circle_shape();
    let vb = find_view_box(&shape).unwrap();
    let palette = vec![(rgb(255, 0, 0), S)];
    let doc = create_pride_flag(&default_border_clip(), &palette, &shape, &vb);
    let (_, _, children) = element_parts(&doc);
    let (_, _, overlay_children) = element_parts(&children[1]);
    let (_, clone_attrs, _) = element_parts(&overlay_children[0]);
    let names: Vec<&str> = clone_attrs.iter().map(|a| a.name.as_str()).collect();
    assert_eq!(names, vec!["cx", "cy", "r", "stroke"]);
    assert!(!names.contains(&"fill"));
    assert!(!names.contains(&"onclick"));
}

#[test]
fn test_compose_zero_width_has_no_overlay() {
    let shape = circle_shape();
    let vb = find_view_box(&shape).unwrap();
    let palette = vec![(rgb(255, 0, 0), S), (rgb(0, 128, 0), S), (rgb(0, 0, 255), S)];
    let clip = ClipInformation {
        name: "circle".to_string(),
        filename: "circle.svg".to_string(),
        border: BorderInformation::new(None, None, None, Some(0)),
    };
    let doc = create_pride_flag(&clip, &palette, &shape, &vb);
    let (_, attrs, children) = element_parts(&doc);
    // Unpadded view-box, and only defs + band layer.
    assert!(matches!(&attrs[0].value, AttrValue::Vb(b) if *b == vb));
    assert_eq!(children.len(), 2);
    let (layer_tag, _, rects) = element_parts(&children[1]);
    assert_eq!(layer_tag.as_str(), "g");
    // Three band rectangles, roughly a third of the height each, the last
    // one completing the height exactly.
    assert_eq!(rects.len(), 3);
    let mut last_bottom = 0;
    for (i, rect) in rects.iter().enumerate() {
        let (rtag, rattrs, _) = element_parts(rect);
        assert_eq!(rtag.as_str(), "rect");
        assert_eq!(rattrs[0].name.as_str(), "fill");
        let height = match &rattrs[2].value {
            AttrValue::Px(h) => *h,
            other => panic!("expected a length, got {:?}", other),
        };
        let y = match &rattrs[4].value {
            AttrValue::Px(y) => *y,
            other => panic!("expected a length, got {:?}", other),
        };
        if i == 2 {
            last_bottom = y + height;
        }
        assert!(height >= 33_333_333 && height <= 34_333_333);
    }
    assert_eq!(last_bottom, 100 * S);
}

#[test]
fn test_compose_is_deterministic() {
    let shape = circle_shape();
    let vb = find_view_box(&shape).unwrap();
    let palette = vec![(rgb(255, 0, 0), S), (rgb(0, 0, 255), 2 * S)];
    let clip = default_border_clip();
    let a = create_pride_flag(&clip, &palette, &shape, &vb);
    let b = create_pride_flag(&clip, &palette, &shape, &vb);
    assert_eq!(format!("{:?}", a), format!("{:?}", b));
}

#[test]
fn test_parse_rejects_non_mapping_document() {
    let doc = ConfigValue::Str("flags".to_string());
    assert!(matches!(parse_flag_yaml(&doc), Err(ConfigError::NotAMapping)));
}

#[test]
fn test_parse_requires_clips_mapping() {
    let doc = ConfigValue::Hash(vec![]);
    assert!(matches!(parse_flag_yaml(&doc), Err(ConfigError::ClipsMissing)));

    let doc = ConfigValue::Hash(vec![entry("_clips", ConfigValue::Str("nope".to_string()))]);
    assert!(matches!(parse_flag_yaml(&doc), Err(ConfigError::ClipsNotAMapping)));
}

#[test]
fn test_parse_clip_missing_src_fails() {
    let clip_dfn = ConfigValue::Hash(vec![entry("color", ConfigValue::Str("red".to_string()))]);
    let doc = ConfigValue::Hash(vec![entry(
        "_clips",
        ConfigValue::Hash(vec![entry("circle", clip_dfn)]),
    )]);
    match parse_flag_yaml(&doc) {
        Err(ConfigError::MissingSrc(name)) => assert_eq!(name, "circle"),
        other => panic!("expected a missing-src failure, got {:?}", other),
    }
}

#[test]
fn test_parse_clip_src_must_be_string() {
    let clip_dfn = ConfigValue::Hash(vec![entry("src", ConfigValue::Int(3))]);
    let doc = ConfigValue::Hash(vec![entry(
        "_clips",
        ConfigValue::Hash(vec![entry("circle", clip_dfn)]),
    )]);
    assert!(matches!(parse_flag_yaml(&doc), Err(ConfigError::ValueNotString)));
}

#[test]
fn test_parse_clip_name_must_be_string() {
    let clips = ConfigValue::Hash(vec![ConfigEntry {
        key: ConfigValue::Int(7),
        value: ConfigValue::Str("circle.svg".to_string()),
    }]);
    let doc = ConfigValue::Hash(vec![entry("_clips", clips)]);
    assert!(matches!(parse_flag_yaml(&doc), Err(ConfigError::ClipNameNotString)));
}

#[test]
fn test_parse_clip_definition_must_be_string_or_mapping() {
    let clips = ConfigValue::Hash(vec![entry("circle", ConfigValue::Int(3))]);
    let doc = ConfigValue::Hash(vec![entry("_clips", clips)]);
    match parse_flag_yaml(&doc) {
        Err(ConfigError::InvalidClipDefinition(name)) => assert_eq!(name, "circle"),
        other => panic!("expected an invalid-clip failure, got {:?}", other),
    }
}

#[test]
fn test_weight_out_of_range_is_rejected() {
    assert!(matches!(
        yaml_weight(&ConfigValue::Int(10_000_000)),
        Err(ConfigError::InvalidNumber)
    ));
    assert!(matches!(
        yaml_weight(&ConfigValue::Str("10000000".to_string())),
        Err(ConfigError::InvalidNumber)
    ));
}

#[test]
fn test_duplicate_names_keep_last_definition() {
    let clips = ConfigValue::Hash(vec![
        entry("circle", ConfigValue::Str("one.svg".to_string())),
        entry("circle", ConfigValue::Str("two.svg".to_string())),
    ]);
    let doc = ConfigValue::Hash(vec![entry("_clips", clips)]);
    let (_, clips) = parse_flag_yaml(&doc).unwrap();
    assert_eq!(clips.len(), 1);
    assert_eq!(clips[0].filename, "two.svg");
}

#[test]
fn test_parse_underscore_flags_are_skipped() {
    let clips = ConfigValue::Hash(vec![entry("circle", ConfigValue::Str("circle.svg".to_string()))]);
    let doc = ConfigValue::Hash(vec![
        entry("_clips", clips),
        entry(
            "_template",
            ConfigValue::Array(vec![ConfigValue::Str("red".to_string())]),
        ),
        entry(
            "rainbow",
            ConfigValue::Array(vec![
                ConfigValue::Str("red".to_string()),
                ConfigValue::Str("green".to_string()),
                ConfigValue::Str("blue".to_string()),
            ]),
        ),
    ]);
    let (flags, clips) = parse_flag_yaml(&doc).unwrap();
    assert_eq!(flags.len(), 1);
    assert_eq!(flags[0].name, "rainbow");
    assert_eq!(
        flags[0].colors,
        vec![(rgb(255, 0, 0), S), (rgb(0, 128, 0), S), (rgb(0, 0, 255), S)]
    );
    assert_eq!(clips.len(), 1);
    assert_eq!(clips[0].name, "circle");
    assert_eq!(clips[0].filename, "circle.svg");
}

#[test]
fn test_parse_full_clip_definition() {
    let clip_dfn = ConfigValue::Hash(vec![
        entry("src", ConfigValue::Str("star.svg".to_string())),
        entry("color", ConfigValue::Str("00FF00".to_string())),
        entry("linecap", ConfigValue::Str("butt".to_string())),
        entry("linejoin", ConfigValue::Str("bevel".to_string())),
        entry("width", ConfigValue::Real("2.5".to_string())),
    ]);
    let doc = ConfigValue::Hash(vec![entry(
        "_clips",
        ConfigValue::Hash(vec![entry("star", clip_dfn)]),
    )]);
    let (_, clips) = parse_flag_yaml(&doc).unwrap();
    assert_eq!(clips.len(), 1);
    let border = &clips[0].border;
    assert_eq!(border.color(), rgb(0, 255, 0));
    assert_eq!(border.linecap(), LineCap::Butt);
    assert_eq!(border.linejoin(), LineJoin::Bevel);
    assert_eq!(border.width(), 2_500_000);
}

#[test]
fn test_parse_invalid_linecap_keyword() {
    let clip_dfn = ConfigValue::Hash(vec![
        entry("src", ConfigValue::Str("star.svg".to_string())),
        entry("linecap", ConfigValue::Str("zigzag".to_string())),
    ]);
    let doc = ConfigValue::Hash(vec![entry(
        "_clips",
        ConfigValue::Hash(vec![entry("star", clip_dfn)]),
    )]);
    assert!(matches!(parse_flag_yaml(&doc), Err(ConfigError::InvalidKeyword)));
}

#[test]
fn test_parse_weighted_flag_mapping_preserves_order() {
    let clips = ConfigValue::Hash(vec![entry("circle", ConfigValue::Str("circle.svg".to_string()))]);
    let doc = ConfigValue::Hash(vec![
        entry("_clips", clips),
        entry(
            "bi",
            ConfigValue::Hash(vec![
                entry("FF0000", ConfigValue::Int(2)),
                entry("0000FF", ConfigValue::Real("1.5".to_string())),
                entry("00FF00", ConfigValue::Bool(true)),
            ]),
        ),
    ]);
    let (flags, _) = parse_flag_yaml(&doc).unwrap();
    assert_eq!(
        flags[0].colors,
        vec![
            (rgb(255, 0, 0), 2 * S),
            (rgb(0, 0, 255), 1_500_000),
            (rgb(0, 255, 0), S),
        ]
    );
}

#[test]
fn test_parse_invalid_flag_shapes() {
    let clips = ConfigValue::Hash(vec![entry("circle", ConfigValue::Str("circle.svg".to_string()))]);
    let doc = ConfigValue::Hash(vec![
        entry("_clips", clips),
        entry("broken", ConfigValue::Int(3)),
    ]);
    assert!(matches!(parse_flag_yaml(&doc), Err(ConfigError::InvalidFlagDefinition)));

    let clips = ConfigValue::Hash(vec![entry("circle", ConfigValue::Str("circle.svg".to_string()))]);
    let doc = ConfigValue::Hash(vec![
        entry("_clips", clips),
        entry("broken", ConfigValue::Array(vec![ConfigValue::Int(3)])),
    ]);
    assert!(matches!(parse_flag_yaml(&doc), Err(ConfigError::InvalidFlagItem)));
}

#[test]
fn test_end_to_end_rainbow_circle() {
    // One clip `circle` and one flag `rainbow` with three unit-weight bands.
    let clips = ConfigValue::Hash(vec![entry(
        "circle",
        ConfigValue::Hash(vec![entry("src", ConfigValue::Str("circle.svg".to_string()))]),
    )]);
    let doc = ConfigValue::Hash(vec![
        entry("_clips", clips),
        entry(
            "rainbow",
            ConfigValue::Array(vec![
                ConfigValue::Str("red".to_string()),
                ConfigValue::Str("green".to_string()),
                ConfigValue::Str("blue".to_string()),
            ]),
        ),
    ]);
    let (flags, clips) = parse_flag_yaml(&doc).unwrap();
    let shape = circle_shape();
    let vb = find_view_box(&shape).unwrap();
    let composed = create_pride_flag(&clips[0], &flags[0].colors, &shape, &vb);
    let (_, attrs, children) = element_parts(&composed);
    // The default border width is five units, so the overlay is present and
    // the view-box is padded.
    assert_eq!(children.len(), 3);
    assert!(matches!(&attrs[0].value,
        AttrValue::Vb(b) if *b == ViewBox::new(-5 * S, -5 * S, 110 * S, 110 * S)));
    // The clip path holds the transplanted circle.
    let (_, _, defs_children) = element_parts(&children[0]);
    let (_, cp_attrs, cp_children) = element_parts(&defs_children[0]);
    assert!(matches!(&cp_attrs[0].value, AttrValue::Raw(s) if s == "queer_clip_001"));
    let (cp_child_tag, _, _) = element_parts(&cp_children[0]);
    assert_eq!(cp_child_tag.as_str(), "circle");
    // Exactly three band rectangles, each roughly a third of the height,
    // the last one completing the height exactly.
    let (_, _, rects) = element_parts(&children[2]);
    assert_eq!(rects.len(), 3);
    let heights: Vec<i64> = rects
        .iter()
        .map(|r| {
            let (_, rattrs, _) = element_parts(r);
            match &rattrs[2].value {
                AttrValue::Px(h) => *h,
                other => panic!("expected a length, got {:?}", other),
            }
        })
        .collect();
    assert_eq!(heights, vec![34_333_333, 34_333_333, 33_333_334]);
    let (_, last_attrs, _) = element_parts(&rects[2]);
    let last_y = match &last_attrs[4].value {
        AttrValue::Px(y) => *y,
        other => panic!("expected a length, got {:?}", other),
    };
    assert_eq!(last_y + heights[2], 100 * S);

    // The same pair with an explicit zero border width has no overlay group.
    let clips = ConfigValue::Hash(vec![entry(
        "circle",
        ConfigValue::Hash(vec![
            entry("src", ConfigValue::Str("circle.svg".to_string())),
            entry("width", ConfigValue::Int(0)),
        ]),
    )]);
    let doc = ConfigValue::Hash(vec![
        entry("_clips", clips),
        entry(
            "rainbow",
            ConfigValue::Array(vec![
                ConfigValue::Str("red".to_string()),
                ConfigValue::Str("green".to_string()),
                ConfigValue::Str("blue".to_string()),
            ]),
        ),
    ]);
    let (flags, clips) = parse_flag_yaml(&doc).unwrap();
    let composed = create_pride_flag(&clips[0], &flags[0].colors, &shape, &vb);
    let (_, attrs, children) = element_parts(&composed);
    assert_eq!(children.len(), 2);
    assert!(matches!(&attrs[0].value, AttrValue::Vb(b) if *b == vb));
}

#[test]
fn test_viewbox_pad_expands_all_edges() {
    let vb = ViewBox::new(0, 0, 100 * S, 50 * S);
    let padded = vb.pad(5 * S);
    assert_eq!(padded, ViewBox::new(-5 * S, -5 * S, 110 * S, 60 * S));
}

#[test]
fn test_viewbox_from_vec_requires_four() {
    assert!(ViewBox::from_vec(&vec![1, 2, 3]).is_none());
    assert_eq!(ViewBox::from_vec(&vec![1, 2, 3, 4]), Some(ViewBox::new(1, 2, 3, 4)));
}
