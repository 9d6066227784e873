//! Profiles, pens and pictures in thousandths.
use aspectwrite::bits::{instance_bits, mix64, redraw, unit_interval, unit_signed};
use aspectwrite::canvas::{blank_page, encode_page, report_encoding};
use aspectwrite::distance::{ink_is_too_close, vary_parenthesis};
use aspectwrite::entry::add_entry_tail;
use aspectwrite::ink::InkWeight;
use aspectwrite::milli::Milli;
use aspectwrite::node::{is_delimiter, Node};
use aspectwrite::pen::Layout;
use aspectwrite::picture::{png, png_with_seed, png_with_seed_scaled, Picture};
use aspectwrite::profile::{
    check_file_size, Bounds, Glyph, Handwriting, Point, RenderError, StrokeFile, Variant,
};
use aspectwrite::scalar::Scalar;
use aspectwrite::strokes::{Box2, Mark};
use aspectwrite::traces::{draw, enlarge, Trace};
use aspectwrite::variation::hand_drawn_line;

const M: fn(i64) -> Milli = Milli;

fn px(n: i64) -> Milli {
    Milli(n * 1000)
}

fn at(x: i64, y: i64) -> Point<Milli> {
    Point { x: px(x), y: px(y), p: None }
}

fn pressed(x: i64, y: i64, p: i64) -> Point<Milli> {
    Point { x: px(x), y: px(y), p: Some(M(p)) }
}

fn bounds(min_x: i64, max_x: i64, min_y: i64, max_y: i64) -> Option<Bounds<Milli>> {
    Some(Bounds { min_x: px(min_x), min_y: px(min_y), max_x: px(max_x), max_y: px(max_y) })
}

fn sampled(
    key: &str,
    bbox: Option<Bounds<Milli>>,
    strokes: Vec<Vec<Point<Milli>>>,
) -> Glyph<Milli> {
    Glyph { key: key.to_string(), status: "complete".to_string(), bbox, strokes, variants: vec![] }
}

fn simple(key: &str) -> Glyph<Milli> {
    sampled(key, bounds(0, 50, 0, 100), vec![vec![at(0, 100), at(50, 0)]])
}

fn slanted(width: i64) -> Variant<Milli> {
    Variant {
        baseline: M(0),
        bbox: bounds(0, width, 0, 100),
        strokes: vec![vec![at(0, 100), at(width, 0)]],
    }
}

fn file(glyphs: Vec<Glyph<Milli>>) -> StrokeFile<Milli> {
    StrokeFile {
        schema: "aspectwrite.handwriting".to_string(),
        version: 2,
        ink_width: None,
        glyphs,
    }
}

fn accepted<T>(result: Result<T, RenderError>) -> T {
    match result {
        Ok(value) => value,
        Err(e) => panic!("{}", e.0),
    }
}

fn refusal<T>(result: Result<T, RenderError>) -> String {
    match result {
        Ok(_) => panic!("accepted"),
        Err(e) => e.0,
    }
}

fn hand(glyphs: Vec<Glyph<Milli>>) -> Handwriting<Milli> {
    accepted(Handwriting::load(file(glyphs)))
}

fn g(key: &str) -> Node<Milli> {
    Node::Glyph(key.to_string())
}

fn group(left: &str, body: Node<Milli>, right: &str) -> Node<Milli> {
    Node::Delimited(left.to_string(), Box::new(body), right.to_string())
}

fn points(b: &Box2<Milli>) -> Vec<Vec<(Milli, Milli)>> {
    b.marks.iter().map(|m| m.points.clone()).collect()
}

// Numbers.

#[test]
fn thousandths_add_and_stop_at_the_ends_of_their_range() {
    assert_eq!(M(1_500).plus(M(-250)), M(1_250));
    assert_eq!(M(1_500).minus(M(2_000)), M(-500));
    assert_eq!(M(i64::MAX).plus(M(1)), M(i64::MAX));
    assert_eq!(M(i64::MIN).minus(M(1)), M(i64::MIN));
    assert_eq!(M(i64::MIN).negated(), M(i64::MAX));
    assert!(M(0).is_finite());
    assert!(!M(i64::MAX).is_finite());
    assert!(!M(i64::MIN).is_finite());
}

#[test]
fn thousandths_multiply_and_divide_towards_zero() {
    assert_eq!(M(1_500).times(M(-2_001)), M(-3_001));
    assert_eq!(M(7_000).over(M(2_000)), M(3_500));
    assert_eq!(M(-1_000).over(M(3_000)), M(-333));
    assert_eq!(M(1).over(M(0)), M(i64::MAX));
    assert_eq!(M(-1).over(M(0)), M(i64::MIN));
    assert_eq!(M(0).over(M(0)), M(0));
}

#[test]
fn thousandths_have_lengths_angles_and_whole_parts() {
    assert_eq!(px(3).hypot(px(-4)), px(5));
    assert_eq!(M(0).sin(), M(0));
    assert_eq!(M(1_571).sin(), M(1_000));
    assert_eq!(M(-1_571).sin(), M(-1_000));
    assert_eq!(M(0).cos(), M(1_000));
    assert_eq!(M(1_001).ceil(), px(2));
    assert_eq!(M(-1_001).ceil(), px(-1));
    assert_eq!(M(2_000).ceil(), px(2));
    assert_eq!(M(1_500).round(), px(2));
    assert_eq!(M(-1_500).round(), px(-2));
    assert_eq!(M(1_499).round(), px(1));
    assert_eq!(M(3_999).to_count(), 3);
    assert_eq!(M(-3_999).to_count(), 0);
    assert_eq!(M(5).clamp(M(7), M(9)), M(7));
    assert_eq!(Milli::whole(12), px(12));
    assert_eq!(Milli::from_key(M(-5).to_key()), M(-5));
}

#[test]
fn thousandths_are_written_with_three_decimals() {
    assert_eq!(M(0).to_text(), "0.000");
    assert_eq!(M(1_250).to_text(), "1.250");
    assert_eq!(M(-1_000_007).to_text(), "-1000.007");
}

// Bits.

#[test]
fn instance_bits_are_fixed() {
    assert_eq!(mix64(0), 0);
    assert_eq!(mix64(1), 6238072747940578789);
    assert_eq!(mix64(0xdead_beef), 0x4e06_2702_ec92_9eea);
    assert_eq!(instance_bits(0, "x", 0), 13158401943718146591);
    assert_eq!(instance_bits(7, "\\frac-width", 3), 14713005285060171048);
    assert_eq!(redraw(12345, 17), 3187623390579168459);
}

#[test]
fn instance_bits_tell_seeds_and_occurrences_apart() {
    let mut seen = Vec::new();
    for seed in 0..20 {
        for index in 0..20 {
            seen.push(instance_bits(seed, "x", index));
        }
    }
    seen.sort();
    seen.dedup();
    assert_eq!(seen.len(), 400);
}

#[test]
fn draws_lie_between_their_bounds() {
    assert_eq!(unit_interval::<Milli>(0), M(0));
    assert_eq!(unit_interval::<Milli>(u64::MAX), M(999));
    assert_eq!(unit_interval::<Milli>(1 << 63), M(500));
    assert_eq!(unit_signed::<Milli>(0), M(-1_000));
    assert_eq!(unit_signed::<Milli>(1 << 63), M(0));
}

// Profiles.

#[test]
fn large_stroke_files_are_refused() {
    assert!(check_file_size(50_000_000).is_ok());
    assert_eq!(refusal(check_file_size(50_000_001)), "stroke file exceeds 50 MB");
}

#[test]
fn stroke_files_of_another_kind_or_version_are_refused() {
    let message = "expected aspectwrite.handwriting stroke file version 1 or 2";
    let mut other = file(vec![]);
    other.schema = "aspectwrite".to_string();
    assert_eq!(refusal(Handwriting::load(other)), message);
    for version in [0, 3] {
        let mut other = file(vec![]);
        other.version = version;
        assert_eq!(refusal(Handwriting::load(other)), message);
    }
    for version in [1, 2] {
        let mut understood = file(vec![]);
        understood.version = version;
        assert!(Handwriting::load(understood).is_ok());
    }
}

#[test]
fn ink_widths_that_cannot_be_drawn_are_refused() {
    for (width, text) in [(0, "0.000"), (-1, "-0.001"), (i64::MAX, "9223372036854775.807")] {
        let mut other = file(vec![]);
        other.ink_width = Some(M(width));
        assert_eq!(
            refusal(Handwriting::load(other)),
            format!("inkWidth must be a positive number of pixels, got {text}")
        );
    }
}

#[test]
fn duplicate_glyphs_are_refused() {
    assert_eq!(
        refusal(Handwriting::load(file(vec![simple("a"), simple("b"), simple("a")]))),
        "duplicate glyph key"
    );
}

#[test]
fn loaded_glyphs_are_found_under_their_key() {
    let hand = hand(vec![simple("a"), simple("\\rightarrow"), simple("*"), simple("'")]);
    assert_eq!(accepted(hand.lookup("a")).key, "a");
    for key in ["\\rightarrow", "\\to", "\\longrightarrow", "\\xrightarrow"] {
        assert_eq!(accepted(hand.lookup(key)).key, "\\rightarrow");
    }
    assert_eq!(accepted(hand.lookup("\\ast")).key, "*");
    assert_eq!(accepted(hand.lookup("\\prime")).key, "'");
    assert_eq!(
        refusal(hand.lookup("b")),
        "missing handwriting glyph b; collect it or choose an expression not using it"
    );
}

#[test]
fn incomplete_glyphs_are_refused() {
    let mut skipped = simple("a");
    skipped.status = "skipped".to_string();
    let unboxed = sampled("b", None, vec![vec![at(0, 0)]]);
    let empty = sampled("c", bounds(0, 1, 0, 1), vec![]);
    let hand = hand(vec![skipped, unboxed, empty]);
    for key in ["a", "b", "c"] {
        assert_eq!(
            refusal(hand.lookup(key)),
            format!("handwriting glyph {key} has no complete stroke sample")
        );
    }
}

#[test]
fn the_widest_collected_parenthesis_counts() {
    let mut opening = simple("(");
    opening.variants = vec![slanted(40), slanted(70)];
    let hand = hand(vec![opening, simple("a")]);
    assert_eq!(hand.recorded_parenthesis_width("("), Some(M(33_600)));
    assert_eq!(hand.recorded_parenthesis_width(")"), None);
    assert_eq!(hand.recorded_parenthesis_width("a"), None);
}

#[test]
fn ink_meets_its_anchors_and_follows_the_pen() {
    let base = M(2_300);
    let light: Vec<Milli> = (0..=100).map(|i| M(50 + 3 * i)).collect();
    let heavy: Vec<Milli> = (0..=100).map(|i| M(450 + 3 * i)).collect();
    let light = InkWeight::new(&light, base);
    let heavy = InkWeight::new(&heavy, base);
    assert_eq!((light.low, light.mid, light.high), (M(80), M(200), M(320)));
    assert_eq!(light.width(M(80)), M(1_380));
    assert_eq!(light.width(M(200)), M(2_300));
    assert_eq!(light.width(M(320)), M(3_220));
    assert_eq!(light.width(M(0)), M(1_380));
    assert_eq!(light.width(M(1_000)), M(3_220));
    for p in 0..400 {
        assert_eq!(light.width(M(p)), heavy.width(M(p + 400)));
        assert!(light.width(M(p)).le(light.width(M(p + 1))));
    }
}

// The pen.

fn widths_in_turn(hand: &Handwriting<Milli>, seed: u64, times: usize) -> Vec<Milli> {
    let mut layout = Layout::new(hand, seed, false);
    (0..times).map(|_| accepted(layout.glyph("a")).width).collect()
}

#[test]
fn repeated_glyphs_go_through_their_variants() {
    let mut glyph = simple("a");
    glyph.variants = vec![slanted(20), slanted(40), slanted(60)];
    let hand = hand(vec![glyph]);
    let (a, b, c) = (M(14_100), M(23_700), M(33_300));
    assert_eq!(widths_in_turn(&hand, 0, 5), vec![a, b, c, a, b]);
    assert_eq!(widths_in_turn(&hand, 1, 4), vec![b, c, a, b]);
    assert_eq!(widths_in_turn(&hand, 5, 3), vec![c, a, b]);
}

#[test]
fn other_keys_do_not_turn_the_variants() {
    let turning = |key: &str| {
        let mut glyph = simple(key);
        glyph.variants = vec![slanted(20), slanted(40)];
        glyph
    };
    let hand = hand(vec![turning("a"), turning("2"), turning(".")]);
    let (narrow, wide) = (M(14_100), M(23_700));
    for (seed, turns) in [(0, [narrow, wide, narrow]), (1, [wide, narrow, wide])] {
        let mut layout = Layout::new(&hand, seed, false);
        let first = accepted(layout.glyph("a"));
        assert_eq!(first.width, turns[0]);
        assert_eq!(accepted(layout.glyph("2")).width, turns[0]);
        // Neither a bracket that is drawn to measure nor a missing glyph counts.
        assert!(layout.glyph("(").is_ok());
        assert!(layout.glyph("b").is_err());
        assert_eq!(accepted(layout.glyph("a")).width, turns[1]);
        assert_eq!(accepted(layout.glyph("2")).width, turns[1]);
        assert_eq!(accepted(layout.glyph("2")).width, turns[2]);
        let third = accepted(layout.glyph("a"));
        assert_eq!(third.width, turns[2]);
        assert_eq!(points(&third), points(&first));
        // Three dots count one full stop.
        accepted(layout.glyph("\\ldots"));
        assert_eq!(accepted(layout.glyph(".")).width, turns[1]);
    }
}

#[test]
fn only_a_varied_l_has_an_entry() {
    let stem = |key: &str| {
        sampled(
            key,
            bounds(0, 45, 0, 120),
            vec![vec![
                pressed(5, 120, 600),
                pressed(4, 90, 700),
                pressed(8, 10, 800),
                pressed(45, 0, 500),
            ]],
        )
    };
    let hand = hand(vec![stem("L"), stem("l"), stem("."), stem("\\int"), stem("(")]);
    let mut entries = 0;
    for seed in 0..40 {
        for key in ["l", ".", "\\int", "(", "[", "\\ldots", "\\cdots", "\\iint", "\\iiint"] {
            let b = accepted(Layout::new(&hand, seed, true).glyph(key));
            assert!(b.marks.iter().all(|m| m.entry_tail_points == 0));
        }
        let plain = accepted(Layout::new(&hand, seed, false).glyph("L"));
        assert!(plain.marks.iter().all(|m| m.entry_tail_points == 0 && m.points.len() == 4));
        let node = Node::Row(vec![
            g("L"),
            Node::Fraction(Box::new(g("L")), Box::new(Node::Text("L".to_string()))),
            group("(", g("L"), "]"),
        ]);
        let formula = accepted(Layout::new(&hand, seed, false).layout(&node));
        assert!(formula.marks.iter().all(|m| m.entry_tail_points == 0));
        let varied = accepted(Layout::new(&hand, seed, true).glyph("L"));
        let mark = &varied.marks[0];
        if mark.entry_tail_points > 0 {
            entries += 1;
            assert_eq!((mark.entry_tail_points, mark.points.len()), (4, 8));
            let pressures = mark.pressures.as_ref().unwrap();
            assert!(pressures[..4].iter().all(|p| *p == pressures[4]));
            let reach = mark.points[4].0 .0 - mark.points[0].0 .0;
            assert!(4_200 <= reach && reach <= 5_500);
        } else {
            assert_eq!(mark.points.len(), 4);
        }
        // The box is as wide as its ink, with an entry or without.
        let xs: Vec<i64> = mark.points.iter().map(|p| p.0 .0).collect();
        let (left, right) = (xs.iter().min().unwrap(), xs.iter().max().unwrap());
        assert_eq!(varied.width.0, right - left + 4_500);
    }
    assert!(0 < entries && entries < 40);
}

#[test]
fn unvaried_layouts_do_not_depend_on_what_came_before() {
    let hand = hand(vec![simple("a"), simple("=")]);
    let node = Node::Fraction(
        Box::new(Node::Root(None, Box::new(g("a")))),
        Box::new(Node::Text("a a".to_string())),
    );
    let mut layout = Layout::new(&hand, 3, false);
    let first = points(&accepted(layout.layout(&node)));
    let _ = layout.layout(&g("a"));
    assert_eq!(points(&accepted(layout.layout(&node))), first);
}

#[test]
fn laying_out_counts_glyphs_and_lines() {
    let hand = hand(vec![simple("a")]);
    let mut layout = Layout::new(&hand, 0, true);
    let node = Node::Fraction(Box::new(g("a")), Box::new(g("a")));
    accepted(layout.layout(&node));
    assert_eq!(layout.placed, 3);
    assert_eq!(layout.seed, 0);
    assert!(layout.variation);
    let mut unvaried = Layout::new(&hand, 0, false);
    accepted(unvaried.layout(&node));
    assert_eq!(unvaried.placed, 2);
}

#[test]
fn collected_delimiters_do_not_vary() {
    let hand = hand(vec![simple("("), simple("["), simple("a")]);
    for key in ["(", "["] {
        let varied = accepted(Layout::new(&hand, 9, true).sample(key));
        let unvaried = accepted(Layout::new(&hand, 9, false).sample(key));
        assert_eq!(points(&varied), points(&unvaried));
    }
    let varied = accepted(Layout::new(&hand, 9, true).sample("a"));
    let unvaried = accepted(Layout::new(&hand, 9, false).sample("a"));
    assert_ne!(points(&varied), points(&unvaried));
}

#[test]
fn delimiters_are_five_symbols() {
    for key in ["(", ")", "[", "]", "|"] {
        assert!(is_delimiter(key));
    }
    for key in ["", "<", "((", "\\langle", "{"] {
        assert!(!is_delimiter(key));
    }
}

#[test]
fn samples_that_cannot_be_drawn_are_named() {
    let mut unboxed = simple("a");
    unboxed.bbox = None;
    unboxed.variants = vec![Variant { baseline: M(0), bbox: None, strokes: vec![vec![at(0, 0)]] }];
    let mut lifted = simple("b");
    lifted.variants = vec![slanted(10)];
    lifted.variants[0].baseline = M(1);
    let mut strokeless = simple("c");
    strokeless.variants = vec![slanted(10)];
    strokeless.variants[0].strokes = vec![];
    let inverted = sampled("d", bounds(10, 0, 0, 1), vec![vec![at(0, 0)]]);
    let hand = hand(vec![unboxed, lifted, strokeless, inverted]);
    let told = |key: &str| refusal(Layout::new(&hand, 0, false).sample(key));
    assert_eq!(told("a"), "missing bounding box for glyph a");
    assert_eq!(told("b"), "invalid variant for glyph b");
    assert_eq!(told("c"), "invalid variant for glyph c");
    assert_eq!(told("d"), "invalid bounding box for glyph d");
}

#[test]
fn flat_parentheses_cannot_be_stretched() {
    let flat = sampled("(", bounds(0, 10, 0, 0), vec![vec![at(0, 0), at(10, 0)]]);
    let hand = hand(vec![flat, simple("a")]);
    assert_eq!(
        refusal(Layout::new(&hand, 0, false).layout(&group("(", g("a"), ")"))),
        "parenthesis ( needs a stroke with vertical height"
    );
}

#[test]
fn a_row_ends_with_its_first_error() {
    let hand = hand(vec![simple("a")]);
    let mut layout = Layout::new(&hand, 0, true);
    let node = Node::Row(vec![g("a"), g("b"), g("c")]);
    assert_eq!(
        refusal(layout.layout(&node)),
        "missing handwriting glyph b; collect it or choose an expression not using it"
    );
    assert_eq!(layout.placed, 1);
    assert_eq!(
        refusal(png(&node, &hand)),
        "missing handwriting glyph b; collect it or choose an expression not using it"
    );
}

// Boxes.

#[test]
fn a_glyph_is_measured_by_its_ink() {
    let hand = hand(vec![sampled(
        "a",
        bounds(0, 50, 0, 10),
        vec![vec![at(0, 100), at(50, -25)]],
    )]);
    let b = accepted(Layout::new(&hand, 0, false).glyph("a"));
    assert_eq!(b.width, M(24_000 + 4_500));
    assert_eq!(b.above, M(48_000));
    assert_eq!(b.below, M(12_000));
    assert_eq!(points(&b), vec![vec![(M(0), M(-48_000)), (M(24_000), M(12_000))]]);
}

#[test]
fn a_row_pads_its_relations() {
    let hand = hand(vec![simple("a"), simple("=")]);
    let row = accepted(
        Layout::new(&hand, 0, false).layout(&Node::Row(vec![g("a"), g("="), g("a")])),
    );
    assert_eq!(row.width, M(3 * 28_500 + 2 * 16_000));
    assert_eq!(row.marks[1].points[0].0, M(28_500 + 16_000));
    assert_eq!(row.marks[2].points[0].0, M(2 * 28_500 + 32_000));
}

#[test]
fn a_fraction_stands_on_the_math_axis() {
    let hand = hand(vec![simple("a")]);
    let node = Node::Fraction(Box::new(g("a")), Box::new(g("a")));
    let b = accepted(Layout::new(&hand, 0, false).layout(&node));
    assert_eq!(b.width, M(15_675 + 30_000));
    let bar = &b.marks[2];
    assert_eq!(bar.points, vec![(M(2_000), M(-34_000)), (M(43_675), M(-34_000))]);
    // The numerator's baseline lies a gap above the bar.
    assert_eq!(b.marks[0].points[1].1, M(-34_000 - 3_450));
    // The denominator hangs a wider gap below it.
    assert_eq!(b.marks[1].points[0].1, M(-34_000 + 5_450));
}

#[test]
fn a_root_covers_its_body_and_holds_its_index() {
    let hand = hand(vec![simple("a")]);
    let plain = accepted(
        Layout::new(&hand, 0, false).layout(&Node::Root(None, Box::new(g("a")))),
    );
    let cap = 56_000 + 9_000;
    assert_eq!(plain.width, M(28_500 + 30_000));
    assert_eq!(plain.above, M(cap + 4_000));
    assert_eq!(
        plain.marks[1].points,
        vec![
            (M(1_000), M(-29_250)),
            (M(9_000), M(-16_250)),
            (M(15_000), M(10_000)),
            (M(27_000), M(-cap)),
            (M(55_500), M(-cap)),
        ]
    );
    let cubic = accepted(
        Layout::new(&hand, 0, false)
            .layout(&Node::Root(Some(Box::new(g("a"))), Box::new(g("a")))),
    );
    assert_eq!(cubic.marks.len(), 3);
    assert_eq!(cubic.above, M(cap + 23_040 + 4_000));
    assert_eq!(cubic.marks[2].points[1].1, M(-48_750));
}

#[test]
fn accents_are_drawn_over_and_under_a_body() {
    let hand = hand(vec![simple("a")]);
    let accented = |name: &str| {
        accepted(
            Layout::new(&hand, 0, false).layout(&Node::Accent(name.to_string(), Box::new(g("a")))),
        )
    };
    let y = -48_000 - 7_000;
    assert_eq!(
        accented("hat").marks[1].points,
        vec![(M(3_000), M(y)), (M(14_250), M(y - 10_000)), (M(25_500), M(y))]
    );
    assert_eq!(points(&accented("hat")), points(&accented("widehat")));
    assert_eq!(accented("tilde").marks[1].points.len(), 4);
    assert_eq!(accented("vec").marks.len(), 3);
    assert_eq!(accented("dot").marks[1].points, vec![(M(14_250), M(y - 4_000))]);
    assert_eq!(accented("ddot").marks.len(), 3);
    assert_eq!(
        accented("underline").marks[1].points,
        vec![(M(2_000), M(6_000)), (M(26_500), M(6_000))]
    );
    assert_eq!(accented("underline").below, M(9_000));
    assert_eq!(
        accented("bar").marks[1].points,
        vec![(M(2_000), M(y - 4_000)), (M(26_500), M(y - 4_000))]
    );
    assert_eq!(accented("bar").above, M(48_000 + 19_000));
}

#[test]
fn arrows_carry_their_label() {
    let hand = hand(vec![simple("a"), simple("\\rightarrow"), simple("\\leftarrow")]);
    let arrow = |key: &str| {
        Layout::new(&hand, 0, false).layout(&Node::Arrow(key.to_string(), Box::new(g("a"))))
    };
    let right = accepted(arrow("\\xrightarrow"));
    assert_eq!(right.width, M(17_100 + 14_000));
    assert_eq!(right.marks.len(), 2);
    assert_eq!(right.above, M(48_000 + 8_000 + 28_800));
    assert!(arrow("\\xleftarrow").is_ok());
    assert!(refusal(arrow("\\xleftrightarrow")).contains("\\leftrightarrow"));
}

#[test]
fn groups_reach_round_their_body() {
    let hand = hand(vec![simple("a")]);
    let b = accepted(Layout::new(&hand, 0, false).layout(&group("[", g("a"), ".")));
    assert_eq!(b.width, M(28_500 + 40_000));
    assert_eq!(b.above, M(53_000));
    assert_eq!(b.below, M(21_000));
    assert_eq!(
        points(&b),
        vec![
            vec![(M(20_000), M(-48_000)), (M(44_000), M(0))],
            vec![
                (M(14_000), M(-53_000)),
                (M(7_000), M(-53_000)),
                (M(7_000), M(21_000)),
                (M(14_000), M(21_000)),
            ],
        ]
    );
}

#[test]
fn symbols_are_made_of_others() {
    let hand = hand(vec![simple("."), simple("\\int")]);
    let mut layout = Layout::new(&hand, 0, false);
    assert_eq!(accepted(layout.glyph("\\ldots")).marks.len(), 3);
    assert_eq!(accepted(layout.glyph("\\cdots")).above, M(31_000));
    let double = accepted(layout.glyph("\\iint"));
    assert_eq!(double.marks.len(), 2);
    assert!(double.large);
    assert_eq!(accepted(layout.glyph("\\iiint")).marks.len(), 3);
}

#[test]
fn resizing_a_box_keeps_its_ink() {
    let hand = hand(vec![sampled(
        "a",
        bounds(0, 50, 0, 100),
        vec![vec![pressed(0, 100, 300), pressed(50, 0, 700)]],
    )]);
    let b = accepted(Layout::new(&hand, 0, false).glyph("a"));
    let pressures = Some(vec![M(300), M(700)]);
    assert_eq!(b.marks[0].pressures, pressures);
    let small = b.scaled(M(500)).scaled_vertically(M(500)).translated(px(1), px(2));
    assert_eq!(small.marks[0].pressures, pressures);
    assert_eq!(
        small.marks[0].points,
        vec![(px(1), M(-12_000 + 2_000)), (M(13_000), px(2))]
    );
}

#[test]
fn limits_stand_clear_of_their_symbol() {
    let hand = hand(vec![simple("a"), simple("\\sum")]);
    let node = Node::Script {
        base: Box::new(g("\\sum")),
        sub: Some(Box::new(g("a"))),
        sup: Some(Box::new(g("a"))),
    };
    let b = accepted(Layout::new(&hand, 0, false).layout(&node));
    assert_eq!(b.marks.len(), 3);
    assert_eq!(b.width, M(28_500 + 6_000));
    // The upper limit rests ten pixels above the symbol, the lower one hangs as far below.
    assert_eq!(b.marks[1].points[1].1, M(-48_000 - 10_000));
    assert_eq!(b.marks[2].points[0].1, M(10_000));
    assert_eq!(b.above, M(58_000 + 22_440));
    assert_eq!(b.below, M(10_000 + 19_680));
}

#[test]
fn scripts_stand_beside_a_letter() {
    let hand = hand(vec![simple("a")]);
    let node = Node::Script {
        base: Box::new(g("a")),
        sub: Some(Box::new(g("a"))),
        sup: Some(Box::new(g("a"))),
    };
    let b = accepted(Layout::new(&hand, 0, false).layout(&node));
    // The superscript tucks in behind the base, the subscript keeps clear of its ink.
    assert_eq!(b.marks[1].points[0].0, M(26_500));
    assert_eq!(b.marks[2].points[0].0, M(24_000 + 7_000));
    assert_eq!(b.marks[1].points[1].1, M(-38_000));
    assert_eq!(b.marks[2].points[1].1, M(14_000));
    assert_eq!(b.script_drop, M(14_000));
}

#[test]
fn letters_of_a_word_stand_clear() {
    let hand = hand(vec![simple("a")]);
    for seed in 0..20 {
        let word = accepted(Layout::new(&hand, seed, true).text("aaa"));
        for i in 0..3 {
            for j in i + 1..3 {
                let (a, b) = (vec![word.marks[i].clone()], vec![word.marks[j].clone()]);
                assert!(!ink_is_too_close(&a, &b, M(0), M(6_499)));
            }
        }
    }
}

#[test]
fn bent_parentheses_keep_their_ends() {
    let mut out: Box2<Milli> = Box2::empty();
    out.parenthesis((0..=20).map(|i| (px(i), px(3 * i))).collect());
    out.line(vec![(M(1), M(2)), (M(3), M(4)), (M(5), M(6))]);
    let (mut round, mut straight) = (out.marks[0].clone(), out.marks[1].clone());
    vary_parenthesis(&mut round);
    vary_parenthesis(&mut straight);
    assert_eq!(round.points[0], out.marks[0].points[0]);
    assert_eq!(round.points[20], out.marks[0].points[20]);
    assert_ne!(round.points, out.marks[0].points);
    assert_eq!(round.pressures, out.marks[0].pressures);
    assert_eq!(straight.points, out.marks[1].points);
}

#[test]
fn hand_drawn_bars_stray_little() {
    for seed in 0..50 {
        let line = hand_drawn_line(seed, 3, "\\fracbar", (px(2), px(-34)), (px(90), px(-34)));
        assert_eq!(line.len(), 9);
        assert_eq!((line[0], line[8]), ((px(2), px(-34)), (px(90), px(-34))));
        for point in &line {
            assert!(point.1.plus(px(34)).abs().le(M(1_800)));
        }
    }
}

#[test]
fn lines_of_every_kind_span_their_two_points_and_stay_near() {
    for seed in 0..50 {
        for key in ["\\sqrt-down", "\\fracbar"] {
            let (from, to) = ((px(9), px(-16)), (px(17), px(8)));
            let line = hand_drawn_line(seed, 3, key, from, to);
            assert_eq!((line[0], line[8]), (from, to));
            for (i, point) in line.iter().enumerate() {
                let (x, y) = (9_000 + 1_000 * i as i64, -16_000 + 3_000 * i as i64);
                assert!((point.0 .0 - x).abs() <= 1_800 && (point.1 .0 - y).abs() <= 1_800);
            }
        }
    }
}

#[test]
fn radicals_clear_their_body_and_start_smoothly() {
    let hand = hand(vec![simple("a")]);
    let mut lengths = Vec::new();
    for seed in 0..30 {
        let b = accepted(
            Layout::new(&hand, seed, true).layout(&Node::Root(None, Box::new(g("a")))),
        );
        let (body, root) = (&b.marks[0].points, &b.marks[1].points);
        lengths.push(root.len());
        let top = body.iter().map(|p| p.1 .0).min().unwrap();
        assert!(root[root.len() - 8..].iter().all(|p| p.1 .0 + 7_200 <= top));
        let (hook, foot) = (root[0], root[8]);
        for (i, p) in root[..9].iter().enumerate() {
            let x = hook.0 .0 + (foot.0 .0 - hook.0 .0) * i as i64 / 8;
            let y = hook.1 .0 + (foot.1 .0 - hook.1 .0) * i as i64 / 8;
            assert!((p.0 .0 - x).abs() <= 810 && (p.1 .0 - y).abs() <= 810);
        }
    }
    assert!(lengths.iter().all(|&n| n == 33 || n == 39));
    assert!(lengths.contains(&33) && lengths.contains(&39));
}

#[test]
fn fractions_drawn_by_hand_keep_their_distances() {
    let hand = hand(vec![simple("a")]);
    for seed in 0..30 {
        let node = Node::Fraction(Box::new(g("a")), Box::new(g("a")));
        let b = accepted(Layout::new(&hand, seed, true).layout(&node));
        let bar = &b.marks[2].points;
        for mark in &b.marks[..2] {
            for p in &mark.points {
                assert!(bar[0].0 .0 + 5_000 <= p.0 .0 && p.0 .0 + 5_000 <= bar[8].0 .0);
            }
        }
        let lowest = bar.iter().map(|p| p.1 .0).max().unwrap();
        assert!(b.marks[1].points.iter().all(|p| lowest + 1_150 + 2_500 <= p.1 .0));
        assert!(bar[8].0 .0 <= b.width.0);
    }
}

#[test]
fn instances_stay_near_their_sample() {
    let hand = hand(vec![sampled(
        "a",
        bounds(0, 60, 0, 90),
        vec![vec![pressed(0, 90, 500), pressed(30, -20, 500), pressed(60, 0, 500)]],
    )]);
    let recorded = accepted(Layout::new(&hand, 0, false).glyph("a"));
    for seed in 0..60 {
        let b = accepted(Layout::new(&hand, seed, true).glyph("a"));
        for (p, q) in recorded.marks[0].points.iter().zip(&b.marks[0].points) {
            assert!((p.0 .0 - q.0 .0).abs() <= 5_000 && (p.1 .0 - q.1 .0).abs() <= 10_000);
        }
        for p in b.marks[0].pressures.as_ref().unwrap() {
            assert!(390 <= p.0 && p.0 <= 640);
        }
        // The box holds the ink, however it came out.
        for p in &b.marks[0].points {
            assert!(-b.above.0 <= p.1 .0 && p.1 .0 <= b.below.0);
        }
    }
}

#[test]
fn entries_start_left_of_their_join() {
    for bits in 0..40u64 {
        for (one, low, high) in [(false, 4_200, 5_500), (true, 2_800, 3_900)] {
            let mut mark = plain_mark(vec![(px(5), px(0)), (px(5), px(30)), (px(5), px(60))], None);
            assert!(add_entry_tail(&mut mark, mix64(bits), px(0), px(60), one));
            let reach = mark.points[4].0 .0 - mark.points[0].0 .0;
            assert!(low <= reach && reach <= high);
            assert_eq!(mark.points[4], (px(5), px(0)));
        }
    }
}

#[test]
fn bending_a_parenthesis_is_subtle() {
    let mut out: Box2<Milli> = Box2::empty();
    for x in 0..40 {
        out.parenthesis((0..=20).map(|i| (px(x), px(3 * i - x))).collect());
    }
    for mark in &out.marks {
        let mut bent = mark.clone();
        vary_parenthesis(&mut bent);
        for (p, q) in mark.points.iter().zip(&bent.points) {
            assert!((p.0 .0 - q.0 .0).abs() <= 2_200 && (p.1 .0 - q.1 .0).abs() <= 650);
        }
    }
}

#[test]
fn collected_parentheses_keep_off_their_contents() {
    let curve = || vec![vec![at(40, 100), at(0, 40), at(40, -20)]];
    let hand = hand(vec![
        simple("a"),
        sampled("(", bounds(0, 40, -20, 100), curve()),
        sampled(")", bounds(0, 40, -20, 100), curve()),
    ]);
    for seed in 0..60 {
        let b = accepted(Layout::new(&hand, seed, true).layout(&group("(", g("a"), ")")));
        let slot = (19_200 + 6_000 + 3_500).max(20_000);
        let reach = 90 * 19_200 / 1_000 + 3_604;
        for p in &b.marks[1].points {
            assert!(p.0 .0 <= slot - 6_000 + reach);
        }
        for p in &b.marks[2].points {
            assert!(p.0 .0 >= b.width.0 - slot + 6_000 - reach);
        }
    }
}

#[test]
fn collected_parentheses_span_their_group() {
    let curve = || vec![vec![at(40, 90), at(0, 100), at(10, 40), at(40, -20), at(35, -13)]];
    let hand = hand(vec![
        simple("a"),
        sampled("(", bounds(0, 40, -20, 100), curve()),
        sampled(")", bounds(0, 40, -20, 100), curve()),
    ]);
    let tall = || Node::Fraction(Box::new(g("a")), Box::new(g("a")));
    for seed in 0..20 {
        for varied in [false, true] {
            for body in [g("a"), tall()] {
                let node = group("(", body, ")");
                let b = accepted(Layout::new(&hand, seed, varied).layout(&node));
                let n = b.marks.len();
                for mark in &b.marks[n - 2..] {
                    let ys = || mark.points.iter().map(|p| p.1);
                    assert_eq!(ys().min_by_key(|y| y.0), Some(b.above.negated()));
                    assert_eq!(ys().max_by_key(|y| y.0), Some(b.below));
                }
            }
        }
    }
}

#[test]
fn strokes_are_close_from_either_side_alike() {
    let left = vec![plain_mark(vec![(px(0), px(0)), (px(5), px(20))], None)];
    let right = vec![plain_mark(vec![(px(2), px(30)), (px(9), px(1))], None)];
    let mut answers = Vec::new();
    for offset in -30..30 {
        let there = ink_is_too_close(&left, &right, px(offset), M(6_500));
        let back = ink_is_too_close(&right, &left, px(-offset), M(6_500));
        assert_eq!(there, back);
        answers.push(there);
    }
    assert!(answers.contains(&true) && answers.contains(&false));
}

#[test]
fn calibration_ignores_the_order_and_scales_with_the_base() {
    let pressures: Vec<Milli> = (0..50).map(|i| M(i * 37 % 97)).collect();
    let mut turned = pressures.clone();
    turned.reverse();
    let (a, b) = (InkWeight::new(&pressures, M(2_300)), InkWeight::new(&turned, M(2_300)));
    assert_eq!((a.low, a.mid, a.high), (b.low, b.mid, b.high));
    assert!(a.low.le(a.mid) && a.mid.le(a.high));
    let wide = InkWeight::new(&pressures, M(6_900));
    for p in 0..120 {
        let (narrow, wide) = (a.width(M(p)).0, wide.width(M(p)).0);
        assert!(3 * narrow <= wide && wide < 3 * narrow + 3);
    }
}

#[test]
fn depth_is_zero_without_subscripts() {
    let hand = hand(vec![simple("a"), simple("\\rightarrow")]);
    let tall = Node::Fraction(
        Box::new(Node::Script { base: Box::new(g("a")), sub: None, sup: Some(Box::new(g("a"))) }),
        Box::new(group("(", Node::Root(Some(Box::new(g("a"))), Box::new(g("a"))), ")")),
    );
    let node = Node::Aligned(vec![
        (tall, Some(Node::Arrow("\\xrightarrow".to_string(), Box::new(g("a"))))),
        (Node::Accent("hat".to_string(), Box::new(g("a"))), None),
    ]);
    assert_eq!(accepted(Layout::new(&hand, 3, true).layout(&node)).script_drop, M(0));
}

#[test]
fn parts_keep_the_depth_of_their_subscripts() {
    let hand = hand(vec![simple("a"), simple("\\sum"), simple("\\int"), simple("\\rightarrow")]);
    let a_a = || Node::Script { base: Box::new(g("a")), sub: Some(Box::new(g("a"))), sup: None };
    let depth =
        |node: Node<Milli>| accepted(Layout::new(&hand, 0, false).layout(&node)).script_drop;
    assert_eq!(depth(a_a()), M(14_000));
    assert_eq!(depth(Node::Row(vec![g("a"), a_a()])), M(14_000));
    assert_eq!(depth(Node::Accent("hat".to_string(), Box::new(a_a()))), M(14_000));
    // The index of a root stands three quarters up, so its subscripts lie above the line.
    assert_eq!(depth(Node::Root(None, Box::new(a_a()))), M(14_000));
    assert_eq!(depth(Node::Root(Some(Box::new(a_a())), Box::new(g("a")))), M(0));
    // The label of an arrow stands above it.
    let arrow = |label| Node::Arrow("\\xrightarrow".to_string(), Box::new(label));
    assert_eq!(depth(arrow(a_a())), M(0));
    // The second row has its baseline 48 + 36 + 48 pixels down.
    let rows = |first, second| Node::Aligned(vec![(first, None), (g("a"), Some(second))]);
    assert_eq!(depth(rows(a_a(), g("a"))), M(48_000 + 14_000));
    assert_eq!(depth(rows(g("a"), a_a())), M(48_000 + 36_000 + 48_000 + 14_000));
}

#[test]
fn a_lower_limit_is_no_subscript() {
    let hand = hand(vec![simple("a"), simple("\\sum"), simple("\\int")]);
    let with_sub = |base: &str, sub: Node<Milli>| Node::Script {
        base: Box::new(g(base)),
        sub: Some(Box::new(sub)),
        sup: Some(Box::new(g("a"))),
    };
    let laid = |node: Node<Milli>| accepted(Layout::new(&hand, 0, false).layout(&node));
    for base in ["\\sum", "\\int", "\\iint", "\\iiint"] {
        assert_eq!(laid(with_sub(base, g("a"))).script_drop, M(0));
        assert!(laid(g(base)).large);
    }
    // A subscript in it counts where it stands: 14 pixels, half the size, 82 % as high,
    // below a line that starts ten pixels under the sum.
    let above = laid(g("a")).above.times(M(500)).times(M(820));
    let limit = M(10_000).plus(above).plus(M(14_000).times(M(500)).times(M(820)));
    let nested = with_sub("\\sum", Node::Script {
        base: Box::new(g("a")),
        sub: Some(Box::new(g("a"))),
        sup: None,
    });
    assert_eq!(laid(nested).script_drop, limit);
    // A row of a large symbol is not large: its subscript stands beside it.
    let row = Node::Script {
        base: Box::new(Node::Row(vec![g("\\sum")])),
        sub: Some(Box::new(g("a"))),
        sup: None,
    };
    assert_eq!(laid(row).script_drop, M(14_000));
}

// Pictures.

fn plain_mark(points: Vec<(Milli, Milli)>, pressures: Option<Vec<Milli>>) -> Mark<Milli> {
    Mark {
        points,
        pressures,
        parenthesis: false,
        entry_tail_points: 0,
        entry_taper_length: M(0),
    }
}

fn ordinary_ink() -> InkWeight<Milli> {
    InkWeight { low: M(100), mid: M(500), high: M(900), base: M(2_000) }
}

#[test]
fn strokes_become_dots_lines_and_curves() {
    let traces = draw(
        vec![
            plain_mark(vec![], None),
            plain_mark(vec![(px(1), px(2))], None),
            plain_mark(vec![(px(1), px(2))], Some(vec![M(900)])),
            plain_mark(vec![(px(0), px(0)), (px(3), px(4))], Some(vec![M(100), M(900)])),
            plain_mark(vec![(px(0), px(0)), (px(3), px(4))], None),
        ],
        ordinary_ink(),
        px(30),
    );
    assert_eq!(traces.len(), 4);
    assert!(matches!(traces[0],
        Trace::Dot { at: (Milli(23_000), Milli(32_000)), width: Milli(2_000) }));
    assert!(matches!(traces[1], Trace::Dot { width: Milli(2_800), .. }));
    assert!(matches!(traces[2],
        Trace::Line {
            from: (Milli(22_000), Milli(30_000)),
            to: (Milli(25_000), Milli(34_000)),
            width: Milli(2_000),
        }));
    match &traces[3] {
        Trace::Curve { points, width } => {
            assert_eq!(points, &vec![(px(22), px(30)), (px(25), px(34))]);
            assert_eq!(*width, M(2_000));
        }
        _ => panic!("not a curve"),
    }
}

#[test]
fn an_entry_is_thin_at_its_tip_and_grows_into_the_stroke() {
    let mut mark = plain_mark(
        vec![
            (px(-4), px(0)),
            (px(-2), px(-1)),
            (px(0), px(0)),
            (px(0), px(10)),
            (px(0), px(60)),
        ],
        Some(vec![M(500); 5]),
    );
    mark.entry_tail_points = 2;
    mark.entry_taper_length = px(9);
    let traces = draw(vec![mark], ordinary_ink(), px(22));
    let widths: Vec<i64> = traces
        .iter()
        .map(|t| match t {
            Trace::Line { width, .. } => width.0,
            _ => panic!("not a line"),
        })
        .collect();
    // The tip, the join, the short piece that the split leaves, and then sections that
    // climb to the full width.
    assert_eq!(&widths[..3], &[620, 940, 940]);
    assert!(widths.windows(2).all(|pair| pair[0] <= pair[1]));
    assert_eq!(*widths.last().unwrap(), 2_000);
    match &traces[2] {
        Trace::Line { from, to, .. } => {
            assert_eq!(*from, (px(22), px(22)));
            assert_eq!(*to, (px(22), px(23)));
        }
        _ => panic!("not a line"),
    }
}

#[test]
fn traces_grow_with_the_page() {
    let grown = enlarge(
        vec![
            Trace::Dot { at: (px(1), px(2)), width: px(3) },
            Trace::Line { from: (px(1), px(2)), to: (px(3), px(4)), width: px(5) },
            Trace::Curve { points: vec![(px(1), px(2))], width: px(3) },
        ],
        px(2),
    );
    assert!(matches!(grown[0], Trace::Dot { at: (Milli(2_000), Milli(4_000)), width: Milli(6_000) }));
    assert!(matches!(grown[1], Trace::Line { to: (Milli(6_000), Milli(8_000)), width: Milli(10_000), .. }));
    match &grown[2] {
        Trace::Curve { points, width } => {
            assert_eq!(points, &vec![(px(2), px(4))]);
            assert_eq!(*width, px(6));
        }
        _ => panic!("not a curve"),
    }
}

fn endpoints(picture: &Picture<Milli>) -> Vec<(Milli, Milli)> {
    let mut out = Vec::new();
    for trace in &picture.traces {
        match trace {
            Trace::Dot { at, .. } => out.push(*at),
            Trace::Line { from, to, .. } => {
                out.push(*from);
                out.push(*to);
            }
            Trace::Curve { points, .. } => out.extend(points.iter().copied()),
        }
    }
    out
}

#[test]
fn every_scale_draws_the_same_strokes() {
    let hand = hand(vec![simple("a")]);
    let node = Node::Row(vec![g("a"), g("a")]);
    let small = accepted(png_with_seed_scaled(&node, &hand, 4, 1));
    let large = accepted(png_with_seed_scaled(&node, &hand, 4, 3));
    assert_eq!(small.traces.len(), large.traces.len());
    for (a, b) in endpoints(&small).iter().zip(endpoints(&large)) {
        assert_eq!((a.0.times(px(3)), a.1.times(px(3))), b);
    }
    assert_eq!(
        endpoints(&accepted(png_with_seed(&node, &hand, 4))),
        endpoints(&small)
    );
    assert_eq!(
        endpoints(&accepted(png(&node, &hand))),
        endpoints(&accepted(png_with_seed(&node, &hand, 0)))
    );
    assert_ne!(endpoints(&accepted(png(&node, &hand))), endpoints(&small));
}

#[test]
fn a_page_has_a_border_and_a_limit() {
    let hand = hand(vec![simple("a")]);
    let nothing = accepted(png(&Node::Row(vec![]), &hand));
    assert_eq!((nothing.width, nothing.height), (44, 44));
    let space = |w: i64| png_with_seed_scaled(&Node::Space(px(w)), &hand, 0, 2);
    let wide = accepted(space(7_956));
    assert_eq!((wide.width, wide.height), (16_000, 88));
    let message = "image dimensions exceed safe limit";
    assert_eq!(refusal(space(7_957)), message);
    assert_eq!(refusal(space(i64::MAX / 1000)), message);
    let tall = Node::Aligned((0..40).map(|_| (Node::Space(px(15_000)), None)).collect());
    assert!(png(&tall, &hand).is_ok());
    let huge = Node::Aligned((0..80).map(|_| (Node::Space(px(15_000)), None)).collect());
    assert_eq!(refusal(png(&huge, &hand)), message);
}

#[test]
fn pages_grow_with_their_scale() {
    let hand = hand(vec![simple("a")]);
    for width in [0, 1, 250, 999, 1_000, 12_345] {
        let side = |scale: u32| {
            accepted(png_with_seed_scaled(&Node::Space(M(width)), &hand, 0, scale)).width
        };
        for scale in 1..=16 {
            assert!(scale * (side(1) - 1) < side(scale) && side(scale) <= scale * side(1));
        }
    }
}

#[test]
fn scales_outside_one_to_sixteen_are_refused() {
    let hand = hand(vec![simple("a")]);
    let message = "output scale must be between 1 and 16";
    for scale in [0, 17, u32::MAX] {
        assert_eq!(refusal(png_with_seed_scaled(&g("a"), &hand, 0, scale)), message);
        // The scale is looked at before the formula.
        assert_eq!(refusal(png_with_seed_scaled(&g("b"), &hand, 0, scale)), message);
    }
    for scale in [1, 16] {
        assert!(png_with_seed_scaled(&g("a"), &hand, 0, scale).is_ok());
    }
}

fn empty_picture(width: u32, height: u32) -> Picture<Milli> {
    Picture { width, height, traces: vec![] }
}

#[test]
fn pages_are_white_and_become_png_files_of_their_size() {
    let page = accepted(blank_page(&empty_picture(300, 7)));
    assert_eq!((page.width(), page.height()), (300, 7));
    assert_eq!(page.data().len(), 4 * 300 * 7);
    assert!(page.data().iter().all(|&byte| byte == 255));
    let bytes = accepted(encode_page(&page));
    assert!(bytes.starts_with(&[137, 80, 78, 71, 13, 10, 26, 10]));
    assert_eq!(&bytes[16..24], &[0, 0, 1, 44, 0, 0, 0, 7]);
    let decoded = tiny_skia::Pixmap::decode_png(&bytes).unwrap();
    assert_eq!(decoded.data(), page.data());
}

#[test]
fn pages_without_pixels_cannot_be_made() {
    assert_eq!(refusal(blank_page(&empty_picture(0, 7))), "failed to create image");
    assert_eq!(refusal(blank_page(&empty_picture(7, 0))), "failed to create image");
}

#[test]
fn encoding_errors_are_reported() {
    assert_eq!(accepted(report_encoding(Ok(vec![1, 2]))), vec![1, 2]);
    assert_eq!(
        refusal(report_encoding(Err("no room".to_string()))),
        "PNG encoding failed: no room"
    );
}
