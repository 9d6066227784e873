//! Layouts and pictures in single precision.
use aspectwrite::bits::{mix64, unit_interval, unit_signed};
use aspectwrite::canvas::{blank_page, encode_page};
use aspectwrite::compose::{ALIGNED_ROW_GAP, SUBSCRIPT_INK_GAP};
use aspectwrite::distance::{
    point_segment_distance_squared, segment_distance_squared, vary_parenthesis,
};
use aspectwrite::entry::{
    add_entry_tail, adjust_entry_for_previous_stroke, ONE_ENTRY_STROKE_TAPER_LENGTH,
};
use aspectwrite::ink::{InkWeight, INK_WIDTH, MAX_WEIGHT_FACTOR, MIN_WEIGHT_FACTOR};
use aspectwrite::node::{operator_padding, Node, DECIMAL_POINT_GAP, DIGIT_GAP};
use aspectwrite::pen::Layout;
use aspectwrite::picture::{png, png_with_seed, png_with_seed_scaled, Picture};
use aspectwrite::profile::{
    Bounds, Glyph, Handwriting, Point, RenderError, StrokeFile, Variant, UNIT,
};
use aspectwrite::prose::TEXT_GAP;
use aspectwrite::strokes::{Box2, Mark};
use aspectwrite::traces::Trace;
use aspectwrite::variation::{
    hand_drawn_line, HAND_DRAWN_LINE_SEGMENTS, MAX_INSTANCE_PRESSURE, MAX_LINE_WAVE, MIN_INSTANCE_PRESSURE,
};
use aspectwrite::scalar::Scalar;

/// Single-precision numbers.
#[derive(Clone, Copy, Debug, PartialEq)]
struct F(f32);

impl Scalar for F {
    fn plus(self, other: Self) -> Self {
        F(self.0 + other.0)
    }
    fn minus(self, other: Self) -> Self {
        F(self.0 - other.0)
    }
    fn times(self, other: Self) -> Self {
        F(self.0 * other.0)
    }
    fn over(self, other: Self) -> Self {
        F(self.0 / other.0)
    }
    fn negated(self) -> Self {
        F(-self.0)
    }
    fn lt(self, other: Self) -> bool {
        self.0 < other.0
    }
    fn le(self, other: Self) -> bool {
        self.0 <= other.0
    }
    fn is_same(self, other: Self) -> bool {
        self.0 == other.0
    }
    fn max(self, other: Self) -> Self {
        F(self.0.max(other.0))
    }
    fn min(self, other: Self) -> Self {
        F(self.0.min(other.0))
    }
    fn clamp(self, low: Self, high: Self) -> Self {
        F(self.0.clamp(low.0, high.0))
    }
    fn abs(self) -> Self {
        F(self.0.abs())
    }
    fn sin(self) -> Self {
        F(self.0.sin())
    }
    fn cos(self) -> Self {
        F(self.0.cos())
    }
    fn hypot(self, other: Self) -> Self {
        F(self.0.hypot(other.0))
    }
    fn ceil(self) -> Self {
        F(self.0.ceil())
    }
    fn round(self) -> Self {
        F(self.0.round())
    }
    fn is_finite(self) -> bool {
        self.0.is_finite()
    }
    fn to_key(self) -> i64 {
        let bits = self.0.to_bits() as i32;
        i64::from(bits ^ ((bits >> 31) as u32 >> 1) as i32)
    }
    fn from_key(key: i64) -> Self {
        let bits = key as i32;
        F(f32::from_bits((bits ^ ((bits >> 31) as u32 >> 1) as i32) as u32))
    }
    fn milli(n: i32) -> Self {
        F(n as f32 / 1000.0)
    }
    fn whole(n: usize) -> Self {
        F(n as f32)
    }
    fn pi() -> Self {
        F(std::f32::consts::PI)
    }
    fn infinity() -> Self {
        F(f32::INFINITY)
    }
    fn neg_infinity() -> Self {
        F(f32::NEG_INFINITY)
    }
    fn to_count(self) -> usize {
        self.0 as usize
    }
    fn to_text(self) -> String {
        self.0.to_string()
    }
}

type Stroke = Vec<Point<F>>;

/// A constant of the library, which counts thousandths.
fn m(n: i32) -> f32 {
    n as f32 / 1000.0
}

fn at(x: f32, y: f32) -> Point<F> {
    Point { x: F(x), y: F(y), p: None }
}

fn pressed(x: f32, y: f32, p: f32) -> Point<F> {
    Point { x: F(x), y: F(y), p: Some(F(p)) }
}

fn bounds(min_x: f32, max_x: f32, min_y: f32, max_y: f32) -> Option<Bounds<F>> {
    Some(Bounds { min_x: F(min_x), min_y: F(min_y), max_x: F(max_x), max_y: F(max_y) })
}

fn sampled(key: &str, bbox: Option<Bounds<F>>, strokes: Vec<Stroke>) -> Glyph<F> {
    Glyph { key: key.to_string(), status: "complete".to_string(), bbox, strokes, variants: vec![] }
}

fn with_variants(key: &str, variants: Vec<Variant<F>>) -> Glyph<F> {
    Glyph {
        key: key.to_string(),
        status: "complete".to_string(),
        bbox: None,
        strokes: vec![],
        variants,
    }
}

fn file(version: u32, ink_width: Option<f32>, glyphs: Vec<Glyph<F>>) -> StrokeFile<F> {
    StrokeFile {
        schema: "aspectwrite.handwriting".to_string(),
        version,
        ink_width: ink_width.map(F),
        glyphs,
    }
}

fn loaded(file: StrokeFile<F>) -> Handwriting<F> {
    match Handwriting::load(file) {
        Ok(hand) => hand,
        Err(e) => panic!("{}", e.0),
    }
}

fn fixture() -> Handwriting<F> {
    let sample = |key: &str, max_y: f32, min_y: f32| {
        sampled(
            key,
            bounds(0.0, 45.0, min_y, max_y),
            vec![vec![at(0.0, max_y), at(45.0, min_y)]],
        )
    };
    loaded(file(
        1,
        None,
        vec![
            sample("=", 87.0, 55.0),
            sample("x", 65.0, 0.0),
            sample("1", 120.0, 0.0),
            sample("T", 125.0, 0.0),
            sample("\\int", 130.0, -5.0),
        ],
    ))
}

fn collect(hand: &mut Handwriting<F>, glyph: Glyph<F>) {
    hand.glyphs.insert(glyph.key.clone(), glyph);
}

fn plain(hand: &Handwriting<F>, seed: u64) -> Layout<'_, F> {
    Layout::new(hand, seed, false)
}

fn varied(hand: &Handwriting<F>, seed: u64) -> Layout<'_, F> {
    Layout::new(hand, seed, true)
}

fn lay(layout: &mut Layout<'_, F>, node: &Node<F>) -> Box2<F> {
    match layout.layout(node) {
        Ok(b) => b,
        Err(e) => panic!("{}", e.0),
    }
}

fn glyph(layout: &mut Layout<'_, F>, key: &str) -> Box2<F> {
    match layout.glyph(key) {
        Ok(b) => b,
        Err(e) => panic!("{}", e.0),
    }
}

fn text(layout: &mut Layout<'_, F>, words: &str) -> Box2<F> {
    match layout.text(words) {
        Ok(b) => b,
        Err(e) => panic!("{}", e.0),
    }
}

fn g(key: &str) -> Node<F> {
    Node::Glyph(key.to_string())
}

fn row(nodes: Vec<Node<F>>) -> Node<F> {
    Node::Row(nodes)
}

fn frac(a: Node<F>, b: Node<F>) -> Node<F> {
    Node::Fraction(Box::new(a), Box::new(b))
}

fn script(base: Node<F>, sub: Option<Node<F>>, sup: Option<Node<F>>) -> Node<F> {
    Node::Script { base: Box::new(base), sub: sub.map(Box::new), sup: sup.map(Box::new) }
}

fn group(left: &str, body: Node<F>, right: &str) -> Node<F> {
    Node::Delimited(left.to_string(), Box::new(body), right.to_string())
}

fn xs(mark: &Mark<F>) -> Vec<f32> {
    mark.points.iter().map(|p| p.0 .0).collect()
}

fn ys(mark: &Mark<F>) -> Vec<f32> {
    mark.points.iter().map(|p| p.1 .0).collect()
}

fn least(values: &[f32]) -> f32 {
    values.iter().copied().fold(f32::INFINITY, f32::min)
}

fn greatest(values: &[f32]) -> f32 {
    values.iter().copied().fold(f32::NEG_INFINITY, f32::max)
}

/// Draws a picture and encodes it.
fn drawn_png(picture: &Picture<F>) -> Vec<u8> {
    let mut page = match blank_page(picture) {
        Ok(page) => page,
        Err(e) => panic!("{}", e.0),
    };
    let mut paint = tiny_skia::Paint::default();
    paint.set_color(tiny_skia::Color::BLACK);
    paint.anti_alias = true;
    for trace in &picture.traces {
        let mut builder = tiny_skia::PathBuilder::new();
        let mut width = 0.0;
        match trace {
            Trace::Dot { at, width } => {
                builder.push_circle(at.0 .0, at.1 .0, width.0 / 2.0);
            }
            Trace::Line { from, to, width: w } => {
                builder.move_to(from.0 .0, from.1 .0);
                builder.line_to(to.0 .0, to.1 .0);
                width = w.0;
            }
            Trace::Curve { points, width: w } => {
                builder.move_to(points[0].0 .0, points[0].1 .0);
                for p in &points[1..] {
                    builder.line_to(p.0 .0, p.1 .0);
                }
                width = w.0;
            }
        }
        if let Some(path) = builder.finish() {
            if matches!(trace, Trace::Dot { .. }) {
                page.fill_path(
                    &path,
                    &paint,
                    tiny_skia::FillRule::Winding,
                    tiny_skia::Transform::identity(),
                    None,
                );
            } else {
                let stroke = tiny_skia::Stroke {
                    width,
                    line_cap: tiny_skia::LineCap::Round,
                    line_join: tiny_skia::LineJoin::Round,
                    ..tiny_skia::Stroke::default()
                };
                page.stroke_path(
                    &path,
                    &paint,
                    &stroke,
                    tiny_skia::Transform::identity(),
                    None,
                );
            }
        }
    }
    match encode_page(&page) {
        Ok(bytes) => bytes,
        Err(e) => panic!("{}", e.0),
    }
}

fn picture(result: Result<Picture<F>, RenderError>) -> Picture<F> {
    match result {
        Ok(picture) => picture,
        Err(e) => panic!("{}", e.0),
    }
}

fn refusal<T>(result: Result<T, RenderError>) -> String {
    match result {
        Ok(_) => panic!("accepted"),
        Err(e) => e.0,
    }
}

#[test]
fn fraction_bar_tracks_equal_sign_math_axis() {
    let hand = fixture();
    let mut layout = plain(&hand, 0);
    let fraction = lay(&mut layout, &frac(g("x"), g("x")));
    let bar = fraction
        .marks
        .iter()
        .find(|m| m.points.first().is_some_and(|p| p.0 .0 == 2.0))
        .unwrap();
    let equals = glyph(&mut layout, "=");
    let equals_center = (equals.marks[0].points[0].1 .0 + equals.marks[0].points[1].1 .0) / 2.0;
    assert!((bar.points[0].1 .0 - equals_center).abs() < 0.1);
    let full_digit = glyph(&mut layout, "1");
    let small_fraction = lay(&mut layout, &frac(g("1"), g("1")));
    let ratio = (small_fraction.above.0 + small_fraction.below.0)
        / (full_digit.above.0 + full_digit.below.0);
    assert!((1.0..1.4).contains(&ratio), "fraction/full digit height: {ratio}");
    // Without variation the bar is a plain two-point line.
    assert_eq!(bar.points.len(), 2);
}

#[test]
fn fraction_bars_are_hand_drawn_when_variation_is_on() {
    let hand = fixture();
    let bar = |seed| {
        let mut layout = varied(&hand, seed);
        let fraction = lay(&mut layout, &frac(g("1"), g("1")));
        fraction
            .marks
            .iter()
            .find(|mark| mark.points.len() == HAND_DRAWN_LINE_SEGMENTS + 1)
            .map(|mark| mark.points.clone())
            .expect("a wavy fraction bar")
    };
    let first = bar(0);
    assert_eq!(first, bar(0), "the bar must be reproducible per seed");
    assert_ne!(first, bar(1), "the bar must differ between seeds");

    let (from, to) = (first[0], first[first.len() - 1]);
    assert!((from.0 .0 - 2.0).abs() < 0.01, "the bar must start at 2.0");
    let mut largest = 0.0f32;
    for (index, point) in first.iter().enumerate() {
        let t = index as f32 / (first.len() - 1) as f32;
        let chord = from.1 .0 + (to.1 .0 - from.1 .0) * t;
        largest = largest.max((point.1 .0 - chord).abs());
    }
    assert!(largest > 0.2, "the bar is still straight: {largest}");
    assert!(largest <= m(MAX_LINE_WAVE) * 1.5, "the bar waves too much: {largest}");
}

fn bare_mark(points: &[(f32, f32)]) -> Mark<F> {
    Mark {
        points: points.iter().map(|p| (F(p.0), F(p.1))).collect(),
        pressures: None,
        parenthesis: false,
        entry_tail_points: 0,
        entry_taper_length: F(0.0),
    }
}

#[test]
fn captured_l_entry_tails_are_occasional_tapered_and_repeatable() {
    let mut hand = fixture();
    collect(
        &mut hand,
        sampled(
            "L",
            bounds(0.0, 45.0, 0.0, 120.0),
            vec![vec![
                pressed(5.0, 120.0, 0.6),
                pressed(4.0, 90.0, 0.7),
                pressed(8.0, 10.0, 0.8),
                pressed(45.0, 0.0, 0.5),
            ]],
        ),
    );
    let expression = row((0..8).map(|_| g("L")).collect());
    let bare = lay(&mut plain(&hand, 7), &expression);
    assert!(bare.marks.iter().all(|mark| mark.points.len() == 4));
    let drawn = lay(&mut varied(&hand, 7), &expression);
    let repeated = lay(&mut varied(&hand, 7), &expression);
    let mut tail_count = 0;
    let mut tip_drops = Vec::new();
    for (mark, again) in drawn.marks.iter().zip(&repeated.marks) {
        assert_eq!(mark.points, again.points);
        assert_eq!(mark.pressures, again.pressures);
        if mark.points.len() == 8 {
            tail_count += 1;
            let pressures = mark.pressures.as_ref().unwrap();
            assert!(pressures[..5].windows(2).all(|pair| (pair[0].0 - pair[1].0).abs() < 0.001));
            assert!(mark.points[0].0 .0 < mark.points[4].0 .0);
            assert!((4.2..5.6).contains(&(mark.points[4].0 .0 - mark.points[0].0 .0)));
            assert!(mark.points[3].1 .0 < mark.points[4].1 .0);
            assert_eq!(mark.entry_tail_points, 4);
            tip_drops.push(mark.points[0].1 .0 - mark.points[4].1 .0);
        } else {
            assert_eq!(mark.points.len(), 4);
        }
    }
    assert!((1..drawn.marks.len()).contains(&tail_count));
    assert!(tip_drops.iter().any(|&drop| drop < -0.1));
    assert!(tip_drops.iter().any(|&drop| drop > 1.5));
    // A stroke that starts well below its top is not a free stem end.
    let mut low_start = bare_mark(&[(4.0, 12.0), (3.0, 8.0), (4.0, 20.0), (30.0, 60.0)]);
    assert!(!add_entry_tail(&mut low_start, 0, F(0.0), F(60.0), false));
    assert_eq!(low_start.points.len(), 4);
    let mut curled_start = bare_mark(&[
        (0.0, 0.0),
        (-0.3, -1.0),
        (-0.7, -1.0),
        (-1.0, -0.3),
        (-1.0, 2.6),
        (-1.3, 8.8),
        (-2.0, 28.0),
        (30.0, 60.0),
    ]);
    assert!(add_entry_tail(&mut curled_start, 0, F(-1.0), F(61.0), false));
    assert!((curled_start.points[4].1 .0 - 2.6).abs() < 0.01);
    assert!(curled_start.points[5].1 .0 > curled_start.points[4].1 .0);
    assert_eq!(curled_start.pressures.unwrap().len(), curled_start.points.len());
    // A profile whose letter already begins with a long written lead-in must
    // keep it: adding or replacing part of it would double the entry.
    let mut long_lead_in = bare_mark(&[
        (0.0, -1.0),
        (2.0, -1.5),
        (5.0, -1.0),
        (8.0, 0.0),
        (10.0, 6.0),
        (10.0, 60.0),
    ]);
    let original = long_lead_in.points.clone();
    assert!(!add_entry_tail(&mut long_lead_in, 0, F(-1.5), F(61.0), false));
    assert_eq!(long_lead_in.points, original);
}

#[test]
fn adjacent_entry_points_downward_without_extending_to_previous_stroke() {
    let mut mark = bare_mark(&[
        (-5.0, -59.0),
        (-4.0, -61.0),
        (-2.0, -62.0),
        (-1.0, -61.0),
        (0.0, -60.0),
        (0.0, -57.0),
        (0.0, 0.0),
    ]);
    mark.entry_tail_points = 4;
    mark.entry_taper_length = F(m(ONE_ENTRY_STROKE_TAPER_LENGTH));
    let mut box2 = Box2 {
        width: F(20.0),
        above: F(60.0),
        below: F(0.0),
        script_drop: F(0.0),
        marks: vec![mark],
        large: false,
    };
    let join = box2.marks[0].points[4];
    adjust_entry_for_previous_stroke(&mut box2, (F(0.0), F(0.0)), F(10.0));
    let tip_drop = box2.marks[0].points[0].1 .0 - join.1 .0;
    assert!((10.0..20.0).contains(&tip_drop));
    assert_eq!(box2.marks[0].points[4], join);
    assert!(box2.marks[0].points[1].1 .0 + 61.0 < box2.marks[0].points[0].1 .0 + 59.0);
}

#[test]
fn root_bends_and_overlines_vary_without_reaching_the_body() {
    let hand = fixture();
    let expression = Node::Root(None, Box::new(g("x")));
    let mut bends = Vec::new();
    let mut rounded_count = 0;
    for seed in 0..24 {
        let drawn = lay(&mut varied(&hand, seed), &expression);
        let repeated = lay(&mut varied(&hand, seed), &expression);
        assert_eq!(drawn.marks[1].points, repeated.marks[1].points);
        let root = &drawn.marks[1].points;
        assert!(root.len() > 5);
        rounded_count += usize::from(root.len() > 33);
        bends.push(root[16].0 .0);
        let entry_deviation = root[..=HAND_DRAWN_LINE_SEGMENTS]
            .iter()
            .map(|&p| {
                point_segment_distance_squared(p, root[0], root[HAND_DRAWN_LINE_SEGMENTS]).0.sqrt()
            })
            .fold(0.0, f32::max);
        assert!(entry_deviation < 0.8, "seed {seed}: root entry is jagged");
        let body_top = least(&ys(&drawn.marks[0]));
        let root_ys = ys(&drawn.marks[1]);
        let overline_bottom = greatest(&root_ys[root_ys.len() - HAND_DRAWN_LINE_SEGMENTS..]);
        assert!(body_top - overline_bottom > 4.0);
    }
    let range = greatest(&bends) - least(&bends);
    assert!(range > 2.0, "root bends hardly vary: {range}");
    assert!((1..24).contains(&rounded_count), "root corners are always the same shape");
}

#[test]
fn fraction_overhang_varies_but_clears_its_contents() {
    let hand = fixture();
    let mut widths = Vec::new();
    for seed in 0..32 {
        let fraction = lay(&mut varied(&hand, seed), &frac(g("1"), g("1")));
        let bar = fraction.marks.last().unwrap();
        let bar_left = bar.points.first().unwrap().0 .0;
        let bar_right = bar.points.last().unwrap().0 .0;
        let content: Vec<f32> =
            fraction.marks[..fraction.marks.len() - 1].iter().flat_map(xs).collect();
        let content_left = least(&content);
        let content_right = greatest(&content);
        assert!(content_left - bar_left >= 5.0, "seed {seed}: left bar too short");
        assert!(bar_right - content_right >= 5.0, "seed {seed}: right bar too short");
        assert!(bar_right <= fraction.width.0, "seed {seed}: bar exceeds box");
        widths.push(bar_right - bar_left);
    }
    let width_range = greatest(&widths) - least(&widths);
    assert!(width_range > 3.0, "fraction bars all have the same length");
}

#[test]
fn aligned_rows_have_room_between_full_height_digits() {
    let hand = fixture();
    let mut layout = plain(&hand, 0);
    let digit = glyph(&mut layout, "1");
    let rows = lay(
        &mut layout,
        &Node::Aligned(vec![(row(vec![]), Some(g("1"))), (row(vec![]), Some(g("1")))]),
    );
    let first_y = rows.marks[0].points[0].1 .0;
    let second_y = rows.marks[1].points[0].1 .0;
    assert!(
        (second_y - first_y - digit.above.0 - digit.below.0 - m(ALIGNED_ROW_GAP)).abs() < 0.01
    );
}

#[test]
fn fraction_bar_is_the_numerator_writing_line() {
    let mut hand = fixture();
    collect(
        &mut hand,
        sampled(
            "g",
            bounds(0.0, 45.0, -55.0, 65.0),
            vec![vec![at(0.0, 65.0), at(45.0, -55.0)]],
        ),
    );

    // A subscript sits on the bar; a letter descender crosses it.
    let cases = [
        (frac(script(g("x"), Some(g("1")), None), g("1")), 2, false),
        (frac(g("g"), g("1")), 1, true),
    ];
    for (expression, numerator_mark_count, crosses) in cases {
        for seed in 0..32 {
            let mut layout = varied(&hand, seed);
            let fraction = lay(&mut layout, &expression);
            let bar_index = fraction
                .marks
                .iter()
                .position(|mark| mark.points.len() == HAND_DRAWN_LINE_SEGMENTS + 1)
                .expect("hand-drawn fraction bar");
            let numerator: Vec<f32> =
                fraction.marks[..numerator_mark_count].iter().flat_map(ys).collect();
            let numerator_bottom = greatest(&numerator);
            let bar = ys(&fraction.marks[bar_index]);
            let bar_top = least(&bar);
            let bar_centre = bar.iter().sum::<f32>() / bar.len() as f32;
            // White space between the numerator ink and the bar ink, both
            // measured at the bar's own worst-case wobble.
            let visible_gap = bar_top - numerator_bottom - m(INK_WIDTH) / 2.0;
            if crosses {
                assert!(
                    numerator_bottom > bar_centre,
                    "seed {seed}: the descender stops {:.2}px short of the bar",
                    bar_centre - numerator_bottom
                );
            } else {
                assert!(
                    visible_gap > 0.0,
                    "seed {seed}: the bar slices the subscript, gap = {visible_gap}"
                );
                assert!(
                    visible_gap < 2.5,
                    "seed {seed}: subscript floats {visible_gap}px above the bar"
                );
            }
            // The denominator is placed by its ink top, so it keeps more
            // air under the bar than the numerator's writing line does.
            let denominator: Vec<f32> =
                fraction.marks[numerator_mark_count..bar_index].iter().flat_map(ys).collect();
            let denominator_top = least(&denominator);
            let bar_bottom = greatest(&bar);
            let denominator_gap = denominator_top - bar_bottom - m(INK_WIDTH) / 2.0;
            assert!(
                denominator_gap > 2.0,
                "seed {seed}: denominator is cramped, gap = {denominator_gap}"
            );
        }
    }
}

#[test]
fn consecutive_digits_have_extra_spacing_without_changing_letters() {
    let hand = fixture();
    let mut layout = plain(&hand, 0);
    let digit_width = glyph(&mut layout, "1").width.0;
    let letter_width = glyph(&mut layout, "x").width.0;
    let digits = lay(&mut layout, &row(vec![g("1"), g("1")])).width.0;
    assert!((digits - 2.0 * digit_width - m(DIGIT_GAP)).abs() < 0.01);
    let letters = lay(&mut layout, &row(vec![g("x"), g("x")])).width.0;
    assert!((letters - 2.0 * letter_width).abs() < 0.01);
}

#[test]
fn decimal_points_have_extra_space_only_inside_numbers() {
    let mut hand = fixture();
    collect(
        &mut hand,
        sampled(".", bounds(0.0, 5.0, 0.0, 5.0), vec![vec![at(0.0, 5.0), at(5.0, 0.0)]]),
    );
    let mut layout = plain(&hand, 0);
    let digit_width = glyph(&mut layout, "1").width.0;
    let letter_width = glyph(&mut layout, "x").width.0;
    let period_width = glyph(&mut layout, ".").width.0;
    let number_width = 2.0 * digit_width + period_width + 2.0 * m(DECIMAL_POINT_GAP);
    let number = lay(&mut layout, &row(vec![g("1"), g("."), g("1")])).width.0;
    assert!((number - number_width).abs() < 0.01);
    assert!((text(&mut layout, "1.1").width.0 - number_width).abs() < 0.01);
    // A prose period between letters is not a decimal point.
    let prose = text(&mut layout, "x.x").width.0;
    assert!((prose - (2.0 * letter_width + period_width)).abs() < 0.01);
}

#[test]
fn both_scripts_are_small_and_subscripts_are_tucked_under_the_base() {
    let hand = fixture();
    let mut layout = plain(&hand, 0);
    let scripts = lay(&mut layout, &script(g("x"), Some(g("1")), Some(g("1"))));
    // Both scripts use the same digit sample. Subscripts should be
    // slightly smaller than superscripts and near the base.
    let widths: Vec<f32> = scripts.marks[1..]
        .iter()
        .map(|m| (m.points[1].0 .0 - m.points[0].0 .0).abs())
        .collect();
    let heights: Vec<f32> = scripts.marks[1..]
        .iter()
        .map(|m| (m.points[1].1 .0 - m.points[0].1 .0).abs())
        .collect();
    let (sup, sub) =
        if scripts.marks[1].points[0].1 .0 < scripts.marks[2].points[0].1 .0 { (0, 1) } else { (1, 0) };
    assert!(widths[sub] < widths[sup]);
    assert!(heights[sub] < heights[sup]);
    assert!(heights[sub] / widths[sub] < heights[sup] / widths[sup]);
    let subscript_baseline = scripts.marks[sub + 1].points[1].1 .0;
    assert!((10.0..18.0).contains(&subscript_baseline));
}

#[test]
fn subscript_ink_clears_the_base_across_variants() {
    let hand = fixture();
    for seed in 0..32 {
        let drawn = lay(&mut varied(&hand, seed), &script(g("x"), Some(g("1")), Some(g("1"))));
        let base_right = greatest(&xs(&drawn.marks[0]));
        let sub_left = least(&xs(&drawn.marks[2]));
        assert!(
            sub_left - base_right >= m(SUBSCRIPT_INK_GAP) - 0.01,
            "seed {seed}: subscript is too close to its base"
        );
    }
}

#[test]
fn relation_and_reaction_spacing() {
    assert_eq!(operator_padding(&g("="), None), F(16.0));
    assert_eq!(operator_padding(&g("\\rightarrow"), None), F(16.0));
    assert_eq!(
        operator_padding(&Node::Arrow("\\xrightarrow".to_string(), Box::new(row(vec![]))), None),
        F(19.0)
    );
}

#[test]
fn neighboring_parentheses_have_visible_ink_gap() {
    let hand = fixture();
    let mut layout = plain(&hand, 0);
    for expression in [
        row(vec![group("(", g("x"), ")"), group("(", g("x"), ")")]),
        row(vec![g(")"), g("(")]),
    ] {
        let result = lay(&mut layout, &expression);
        let curves: Vec<&Mark<F>> = result.marks.iter().filter(|m| m.points.len() == 21).collect();
        assert!(curves.len() >= 2);
        // For scalable groups: left, right, left, right. For literal
        // delimiters: right, left. In either case, compare the inner pair.
        let (right, left) =
            if curves.len() == 4 { (curves[1], curves[2]) } else { (curves[0], curves[1]) };
        let max_right = greatest(&xs(right));
        let min_left = least(&xs(left));
        assert!(min_left - max_right >= 18.0, "gap = {}", min_left - max_right);
    }
}

#[test]
fn neighboring_square_brackets_have_visible_ink_gap() {
    let hand = fixture();
    let mut layout = plain(&hand, 0);
    for (expression, groups) in [
        (row(vec![group("[", g("x"), "]"), group("[", g("x"), "]")]), true),
        (row(vec![g("]"), g("[")]), false),
    ] {
        let result = lay(&mut layout, &expression);
        let brackets: Vec<&Mark<F>> =
            result.marks.iter().filter(|mark| mark.points.len() == 4).collect();
        let (right, left) = if groups {
            assert_eq!(brackets.len(), 4);
            (brackets[1], brackets[2])
        } else {
            assert_eq!(brackets.len(), 2);
            (brackets[0], brackets[1])
        };
        let max_right = greatest(&xs(right));
        let min_left = least(&xs(left));
        assert!(min_left - max_right >= 18.0, "gap = {}", min_left - max_right);
    }
}

#[test]
fn parenthesis_variation_is_subtle_distinct_and_repeatable() {
    let hand = fixture();
    let result = lay(
        &mut plain(&hand, 0),
        &row(vec![group("(", g("x"), ")"), group("(", g("x"), ")")]),
    );
    let mut curves = result.marks.iter().filter(|m| m.parenthesis);
    let mut first = curves.next().unwrap().clone();
    curves.next(); // closing parenthesis
    let mut second = curves.next().unwrap().clone();
    let original = first.clone();
    let second_original = second.clone();
    let mut repeat = first.clone();
    vary_parenthesis(&mut first);
    vary_parenthesis(&mut second);
    vary_parenthesis(&mut repeat);
    assert_eq!(first.points, repeat.points);
    assert_eq!(first.points[0], original.points[0]);
    assert_eq!(first.points.last(), original.points.last());
    let middle = first.points.len() / 2;
    let first_shift = first.points[middle].0 .0 - original.points[middle].0 .0;
    let second_shift = second.points[middle].0 .0 - second_original.points[middle].0 .0;
    assert!((first_shift - second_shift).abs() > 0.01);
    assert!(first_shift.abs() <= 2.2);
    assert!(second_shift.abs() <= 2.2);
}

fn ordinary_ink() -> InkWeight<F> {
    InkWeight { low: F(0.1), mid: F(0.5), high: F(0.9), base: F(m(INK_WIDTH)) }
}

#[test]
fn taller_parentheses_curve_more_and_have_tapered_ends() {
    let hand = fixture();
    let mut layout = plain(&hand, 0);
    let normal = lay(&mut layout, &group("(", g("1"), ")"));
    let fraction = lay(&mut layout, &group("(", frac(g("1"), g("1")), ")"));
    let small = normal.marks.iter().find(|m| m.parenthesis).unwrap();
    let large = fraction.marks.iter().find(|m| m.parenthesis).unwrap();
    assert!(large.points[0].1 .0 < small.points[0].1 .0);
    assert!(
        large.points[0].0 .0 - large.points[10].0 .0 > small.points[0].0 .0 - small.points[10].0 .0
    );
    let widths = large.pressures.as_ref().unwrap();
    let ink = ordinary_ink();
    assert!(ink.width(widths[0]).0 < ink.width(widths[10]).0);
    assert!(ink.width(widths[20]).0 < ink.width(widths[10]).0);
}

fn collect_parentheses(hand: &mut Handwriting<F>, stroke: fn() -> Stroke) {
    for key in ["(", ")"] {
        collect(
            hand,
            with_variants(
                key,
                vec![Variant {
                    baseline: F(0.0),
                    bbox: bounds(10.0, 50.0, -20.0, 100.0),
                    strokes: vec![stroke()],
                }],
            ),
        );
    }
}

#[test]
fn collected_parentheses_keep_their_horizontal_shape_at_different_heights() {
    let mut hand = fixture();
    collect_parentheses(&mut hand, || {
        vec![pressed(50.0, 100.0, 0.1), pressed(10.0, 40.0, 0.7), pressed(50.0, -20.0, 0.1)]
    });
    let mut layout = plain(&hand, 0);
    let normal = lay(&mut layout, &group("(", g("1"), ")"));
    let tall = lay(&mut layout, &group("(", frac(g("1"), g("1")), ")"));
    let opening = |marks: &Vec<Mark<F>>| -> Mark<F> {
        marks
            .iter()
            .find(|m| m.pressures.as_ref().is_some_and(|p| p[1] == F(0.7)))
            .unwrap()
            .clone()
    };
    let normal_mark = opening(&normal.marks);
    let tall_mark = opening(&tall.marks);
    assert_eq!(normal_mark.points.len(), 3);
    assert!(!normal_mark.parenthesis);
    assert!(
        (normal_mark.points[0].0 .0
            - normal_mark.points[1].0 .0
            - (tall_mark.points[0].0 .0 - tall_mark.points[1].0 .0))
            .abs()
            < 0.01
    );
    assert!(
        tall_mark.points[2].1 .0 - tall_mark.points[0].1 .0
            > normal_mark.points[2].1 .0 - normal_mark.points[0].1 .0
    );
    assert_eq!(normal_mark.pressures.as_ref().unwrap(), &[F(0.1), F(0.7), F(0.1)]);
    assert_eq!(glyph(&mut layout, "(").marks[0].points.len(), 3);
}

#[test]
fn collected_parentheses_span_their_group_up_to_rounding() {
    let mut hand = fixture();
    collect_parentheses(&mut hand, || {
        vec![pressed(50.0, 100.0, 0.1), pressed(10.0, 40.0, 0.7), pressed(50.0, -20.0, 0.1)]
    });
    for seed in 0..32 {
        for body in [g("1"), frac(g("1"), g("1"))] {
            let b = lay(&mut varied(&hand, seed), &group("(", body, ")"));
            for mark in &b.marks[b.marks.len() - 2..] {
                assert!((least(&ys(mark)) + b.above.0).abs() < 0.004);
                assert!((greatest(&ys(mark)) - b.below.0).abs() < 0.004);
            }
        }
    }
}

#[test]
fn single_precision_rounds_to_less_than_a_thousandth() {
    let exact = |a: F| f64::from(a.0);
    let close = |a: F, b: f64| (exact(a) - b).abs() <= 0.001;
    let numbers: Vec<F> = (0..60)
        .map(|i| F((i as f32 * 1.37).sin() * 10f32.powi(i % 7 - 3)))
        .chain([F(0.0), F(1.0), F(-7_999.9), F(8_000.1)])
        .collect();
    for n in [-100_000, -31_000, -500, 0, 45, 900, 7_000, 65_000, 100_000] {
        assert!(close(F::milli(n), f64::from(n) / 1000.0));
    }
    for n in 0..=8 {
        let share = F::whole(n).over(F::whole(8));
        assert!(close(share, n as f64 / 8.0) && F(0.0).le(share) && share.le(F(1.0)));
        assert!(-0.001 <= exact(F::pi().times(share).sin()));
    }
    for a in &numbers {
        assert_eq!(a.minus(*a), F(0.0));
        assert!(a.sin().abs().le(F(1.0)));
        assert_eq!(F::infinity().min(*a), *a);
        for b in &numbers {
            assert!(close(a.plus(*b), exact(*a) + exact(*b)));
            assert!(close(a.minus(*b), exact(*a) - exact(*b)));
            let length = a.hypot(*b);
            assert!(exact(*a).abs() <= exact(length) + 0.001);
            if (exact(*a) * exact(*b)).abs() <= 16_000.0 {
                assert!(close(a.times(*b), exact(*a) * exact(*b)));
            }
            if 0.5 <= b.0 && (exact(*a) / exact(*b)).abs() <= 16_000.0 {
                assert!(close(a.over(*b), exact(*a) / exact(*b)));
            }
        }
    }
}

#[test]
fn single_precision_stays_in_its_ranges() {
    for draw in 0..2000u64 {
        let bits = mix64(draw);
        assert!(unit_signed::<F>(bits).abs().le(F(1.0)));
        let share = unit_interval::<F>(bits);
        assert!(F(0.0).le(share) && share.le(F(1.0)));
    }
    for n in -30..=30 {
        let angle = F::milli(n);
        assert!(angle.sin().abs().le(F(0.030)));
        assert!(F(0.999).le(angle.cos()) && angle.cos().le(F(1.0)));
    }
    for m in 0..1000usize {
        let (whole, above) = (F::whole(m), F((m as f32).next_up()));
        assert_eq!(whole.to_count(), m);
        assert_eq!(above.ceil(), F::whole(m + 1));
        assert_eq!(whole.ceil(), whole);
        for k in 1..=16 {
            assert_eq!(whole.times(F::whole(k)), F::whole(m * k));
            assert!(F::whole(m * k).lt(above.times(F::whole(k))));
        }
    }
}

#[test]
fn integral_limits_clear_ink_and_prose_has_word_gaps() {
    let hand = fixture();
    let mut layout = plain(&hand, 0);
    let integral = glyph(&mut layout, "\\int");
    let bound = || script(g("T"), Some(g("1")), None);
    let limits = lay(&mut layout, &script(g("\\int"), Some(bound()), Some(bound())));
    assert!(limits.above.0 > integral.above.0 + 10.0);
    assert!(limits.below.0 > integral.below.0 + 10.0);
    let simple_limits = lay(&mut layout, &script(g("\\int"), Some(g("T")), Some(g("T"))));
    let full_t = glyph(&mut layout, "T").marks[0].points[1].0 .0;
    for bound in &simple_limits.marks[1..] {
        let bound_width = bound.points[1].0 .0 - bound.points[0].0 .0;
        assert!(bound_width < full_t * 0.45, "integral bound too large: {bound_width}");
    }
    let one_word = text(&mut layout, "xx");
    let two_words = text(&mut layout, "x x");
    assert!(two_words.width.0 > one_word.width.0 + 10.0);
}

#[test]
fn text_spacing_ignores_descender_overhang_without_touching_ink() {
    let mut hand = fixture();
    for (key, strokes) in [
        ("a", vec![vec![at(0.0, 50.0), at(20.0, 40.0)], vec![at(50.0, -60.0)]]),
        ("b", vec![vec![at(0.0, 140.0)], vec![at(30.0, 40.0), at(50.0, 50.0)]]),
    ] {
        collect(&mut hand, sampled(key, bounds(0.0, 50.0, -60.0, 140.0), strokes));
    }
    let mut layout = plain(&hand, 0);
    let words = text(&mut layout, "ab");
    let first = words.marks[0].points[1].0 .0;
    let second = words.marks[3].points[0].0 .0;
    // These body points are 20 source pixels apart within each glyph;
    // distant ascenders/descenders must not leave a huge word gap.
    assert!((second - first - m(TEXT_GAP)).abs() < 0.6);
}

#[test]
fn crossing_strokes_are_detected_between_sampled_points() {
    let a = (F(0.0), F(0.0));
    let b = (F(10.0), F(10.0));
    let c = (F(0.0), F(10.0));
    let d = (F(10.0), F(0.0));
    assert_eq!(segment_distance_squared(a, b, c, d), F(0.0));
    assert!(segment_distance_squared(a, b, (F(20.0), F(0.0)), (F(30.0), F(0.0))).0 > 0.0);
}

#[test]
fn pressure_is_preserved_for_ink_and_optional_for_old_profiles() {
    let mut hand = fixture();
    collect(
        &mut hand,
        sampled(
            "x",
            bounds(0.0, 45.0, 0.0, 65.0),
            vec![vec![pressed(0.0, 65.0, 0.1), pressed(45.0, 0.0, 0.9)]],
        ),
    );
    let mut layout = plain(&hand, 0);
    assert_eq!(glyph(&mut layout, "x").marks[0].pressures, Some(vec![F(0.1), F(0.9)]));
    let ink = ordinary_ink();
    let width = |p: f32| ink.width(F(p)).0;
    assert!((width(0.1) - m(INK_WIDTH) * m(MIN_WEIGHT_FACTOR)).abs() < 0.001);
    assert!((width(0.5) - m(INK_WIDTH)).abs() < 0.001);
    assert!((width(0.9) - m(INK_WIDTH) * m(MAX_WEIGHT_FACTOR)).abs() < 0.001);
    assert!(width(0.9) > width(0.5));
    assert!(width(0.5) > width(0.1));
    // Pressures outside the profile's own range clamp to the band edges.
    assert!((width(0.0) - width(0.1)).abs() < 0.001);
    assert!((width(1.0) - width(0.9)).abs() < 0.001);
    assert_eq!(glyph(&mut layout, "T").marks[0].pressures, None);
}

#[test]
fn ink_weight_is_calibrated_to_each_profile() {
    // The same relative spread reported on two different pressure scales
    // must produce the same widths. This is the whole point of the
    // calibration: one profile's ordinary pressure can sit below another's
    // lightest, and an absolute curve cannot serve both.
    let ramp = |start: f32| -> Vec<F> {
        (0..=100).map(|i| F(start + 0.30 * i as f32 / 100.0)).collect()
    };
    let base = m(INK_WIDTH);
    let light = InkWeight::new(&ramp(0.05), F(base));
    let heavy = InkWeight::new(&ramp(0.45), F(base));
    let l = |p: f32| light.width(F(p)).0;
    let h = |p: f32| heavy.width(F(p)).0;
    // Light, ordinary, and heavy pressure agree across both scales.
    assert!((l(0.08) - h(0.48)).abs() < 0.001);
    assert!((l(0.20) - h(0.60)).abs() < 0.001);
    assert!((l(0.32) - h(0.72)).abs() < 0.001);
    // Ordinary pressure lands exactly on the base weight for both.
    assert!((l(0.20) - base).abs() < 0.001);
    assert!((h(0.60) - base).abs() < 0.001);
    // And each profile still spans the full band.
    assert!((l(0.08) - base * m(MIN_WEIGHT_FACTOR)).abs() < 0.001);
    assert!((h(0.72) - base * m(MAX_WEIGHT_FACTOR)).abs() < 0.001);

    // A profile with no pressure spread has nothing to calibrate against.
    let flat = InkWeight::new(&[F(0.5); 200], F(base));
    assert!((flat.width(F(0.1)).0 - base).abs() < 0.001);
    assert!((flat.width(F(0.9)).0 - base).abs() < 0.001);

    // A profile with no pressures at all matches a flat one.
    let none = InkWeight::new(&[], F(base));
    assert!((none.width(F(0.0)).0 - base).abs() < 0.001);

    // The base weight scales the whole band.
    let doubled = InkWeight::new(&ramp(0.05), F(base * 2.0));
    assert!((doubled.width(F(0.2)).0 - 2.0 * l(0.2)).abs() < 0.001);
}

#[test]
fn ink_width_field_sets_the_base_weight_and_is_validated() {
    let with_width = |ink_width: Option<f32>| {
        Handwriting::load(file(
            2,
            ink_width,
            vec![sampled(
                "a",
                bounds(0.0, 40.0, 0.0, 90.0),
                vec![vec![pressed(0.0, 90.0, 0.2), pressed(40.0, 0.0, 0.8)]],
            )],
        ))
    };
    let hand = match with_width(None) {
        Ok(hand) => hand,
        Err(e) => panic!("{}", e.0),
    };
    assert!((hand.ink.base.0 - m(INK_WIDTH)).abs() < 0.001);

    let hand = match with_width(Some(4.0)) {
        Ok(hand) => hand,
        Err(e) => panic!("{}", e.0),
    };
    assert!((hand.ink.base.0 - 4.0).abs() < 0.001);
    assert!((hand.ink.width(F(0.2)).0 - 4.0 * m(MIN_WEIGHT_FACTOR)).abs() < 0.001);

    assert!(with_width(Some(-1.0)).is_err());
    assert_eq!(
        refusal(with_width(Some(-1.0))),
        "inkWidth must be a positive number of pixels, got -1"
    );
    assert_eq!(
        refusal(with_width(Some(f32::NAN))),
        "inkWidth must be a positive number of pixels, got NaN"
    );
}

#[test]
fn instance_variation_is_reproducible_and_distinct_per_occurrence() {
    let hand = fixture();
    let points = |seed| glyph(&mut varied(&hand, seed), "x").marks[0].points.clone();
    // A fixed seed must reproduce exactly; a different seed must not.
    assert_eq!(points(0), points(0));
    assert_ne!(points(0), points(1));
    // Repeating a glyph inside one expression must vary it.
    let mut layout = varied(&hand, 0);
    let first = glyph(&mut layout, "x").marks[0].points.clone();
    let second = glyph(&mut layout, "x").marks[0].points.clone();
    assert_ne!(first, second);
    // With variation off the two occurrences are identical.
    let mut layout = plain(&hand, 0);
    let first = glyph(&mut layout, "x").marks[0].points.clone();
    let second = glyph(&mut layout, "x").marks[0].points.clone();
    assert_eq!(first, second);
}

#[test]
fn instance_variation_stays_subtle() {
    let hand = fixture();
    let base = glyph(&mut plain(&hand, 0), "x").marks[0].points.clone();
    let mut moved = 0;
    let mut largest = 0.0f32;
    for seed in 0..64 {
        let varied_points = glyph(&mut varied(&hand, seed), "x").marks[0].points.clone();
        for (before, after) in base.iter().zip(&varied_points) {
            let (dx, dy) = ((after.0 .0 - before.0 .0).abs(), (after.1 .0 - before.1 .0).abs());
            assert!(dx <= 5.0, "horizontal jitter {dx} is too large");
            assert!(dy <= 10.0, "vertical jitter {dy} is too large");
            if dx > 0.01 || dy > 0.01 {
                moved += 1;
            }
            largest = largest.max(dx).max(dy);
        }
    }
    assert!(moved > 0, "variation never moved any point");
    // A jitter this small is invisible on a real glyph.
    assert!(largest >= 1.5, "variation is too small to notice: largest displacement {largest}");
}

#[test]
fn collected_parentheses_vary_without_touching_their_contents() {
    let mut hand = fixture();
    collect_parentheses(&mut hand, || {
        vec![at(50.0, 100.0), at(10.0, 40.0), at(50.0, -20.0)]
    });
    let recorded = [100.0, 40.0, -20.0];
    let mut widths = Vec::new();
    for seed in 0..32 {
        let drawn = lay(&mut varied(&hand, seed), &group("(", g("1"), ")"));
        let body = xs(&drawn.marks[0]);
        let opening = xs(&drawn.marks[1]);
        let closing = xs(&drawn.marks[2]);
        assert!(
            least(&body) - greatest(&opening) >= 2.0,
            "seed {seed}: opening touches content"
        );
        assert!(
            least(&closing) - greatest(&body) >= 2.0,
            "seed {seed}: closing touches content"
        );
        widths.push(greatest(&opening) - least(&opening));

        // Vertical stretching is still uniform; the new variation is
        // horizontal only and keeps the recorded gesture recognizable.
        let mut stretch: Option<f32> = None;
        for (pair, original) in ys(&drawn.marks[1]).windows(2).zip(recorded.windows(2)) {
            let dy = pair[1] - pair[0];
            let original_dy = -(original[1] - original[0]) * m(UNIT);
            if original_dy.abs() > 0.01 {
                let ratio = dy / original_dy;
                if let Some(previous) = stretch {
                    assert!((ratio - previous).abs() < 0.01);
                }
                stretch = Some(ratio);
            }
        }
        assert!(stretch.is_some());
    }
    let span = greatest(&widths) - least(&widths);
    assert!(span > 2.0, "collected parentheses barely vary: width range {span}");
}

#[test]
fn pressure_scaling_varies_weight_between_occurrences() {
    let mut hand = fixture();
    collect(
        &mut hand,
        sampled(
            "p",
            bounds(0.0, 45.0, 0.0, 65.0),
            vec![vec![pressed(0.0, 65.0, 0.5), pressed(45.0, 0.0, 0.5)]],
        ),
    );

    let mut layout = varied(&hand, 5);
    let first = glyph(&mut layout, "p").marks[0].pressures.clone().unwrap();
    let second = glyph(&mut layout, "p").marks[0].pressures.clone().unwrap();
    assert_ne!(first, second, "weight should vary between occurrences");
    for value in first.iter().chain(second.iter()) {
        let factor = value.0 / 0.5;
        assert!(
            (m(MIN_INSTANCE_PRESSURE) - 0.001..=m(MAX_INSTANCE_PRESSURE) + 0.001).contains(&factor),
            "pressure factor {factor} is outside the declared range"
        );
    }

    let mut layout = plain(&hand, 5);
    assert_eq!(glyph(&mut layout, "p").marks[0].pressures, Some(vec![F(0.5), F(0.5)]));
}

#[test]
fn render_small_stroke_fixture_and_report_missing_glyph() {
    let hand = loaded(file(
        1,
        None,
        vec![
            sampled(
                "x",
                bounds(0.0, 50.0, -10.0, 90.0),
                vec![vec![at(0.0, 90.0), at(50.0, -10.0)]],
            ),
            sampled(
                "2",
                bounds(0.0, 40.0, 0.0, 80.0),
                vec![vec![at(0.0, 80.0), at(40.0, 0.0)]],
            ),
        ],
    ));
    let expression = frac(script(g("x"), None, Some(g("2"))), g("x"));
    let small = drawn_png(&picture(png(&expression, &hand)));
    assert!(small.starts_with(b"\x89PNG\r\n\x1a\n"));
    let image = tiny_skia::Pixmap::decode_png(&small).unwrap();
    assert!(image.width() > 60 && image.height() > 80);
    assert!(image.pixels().iter().any(|px| px.red() < 100));
    let large = drawn_png(&picture(png_with_seed_scaled(&expression, &hand, 0, 3)));
    let large_image = tiny_skia::Pixmap::decode_png(&large).unwrap();
    assert!((large_image.width() as i32 - 3 * image.width() as i32).abs() <= 2);
    assert!((large_image.height() as i32 - 3 * image.height() as i32).abs() <= 2);
    assert!(large_image.pixels().iter().any(|px| px.red() < 100));
    assert!(png_with_seed_scaled(&g("x"), &hand, 0, 0).is_err());
    let x = g("x");
    let largest = drawn_png(&picture(png_with_seed_scaled(&x, &hand, 0, 16)));
    assert!(tiny_skia::Pixmap::decode_png(&largest).unwrap().width() > 900);
    assert!(png_with_seed_scaled(&x, &hand, 0, 17).is_err());
    let error = refusal(png(&row(vec![g("x"), g("\\mathbb{R}")]), &hand));
    assert!(error.contains("\\mathbb{R}"));
}

#[test]
fn variants_rotate_and_seed_is_reproducible() {
    let sample = |x: f32| Variant {
        baseline: F(0.0),
        bbox: bounds(0.0, x, 0.0, 90.0),
        strokes: vec![vec![at(0.0, 90.0), at(x, 0.0)]],
    };
    let hand = loaded(file(
        2,
        None,
        vec![
            with_variants("a", vec![sample(20.0), sample(40.0)]),
            with_variants("2", vec![sample(20.0), sample(40.0)]),
        ],
    ));
    for key in ["a", "2"] {
        let expression = row(vec![g(key), g(key)]);
        let once = drawn_png(&picture(png_with_seed(&expression, &hand, 0)));
        assert_eq!(once, drawn_png(&picture(png_with_seed(&expression, &hand, 0))));
        let swapped = drawn_png(&picture(png_with_seed(&expression, &hand, 1)));
        assert_ne!(once, swapped);
    }
}

#[test]
fn points_that_are_no_place_are_refused() {
    let mut hand = fixture();
    for x in [f32::INFINITY, f32::NAN] {
        collect(
            &mut hand,
            sampled("y", bounds(0.0, 45.0, 0.0, 65.0), vec![vec![at(0.0, 65.0), at(x, 0.0)]]),
        );
        assert_eq!(refusal(plain(&hand, 0).glyph("y")), "invalid stroke point in y");
    }
    collect(
        &mut hand,
        sampled("y", bounds(0.0, f32::NAN, 0.0, 65.0), vec![vec![at(0.0, 65.0)]]),
    );
    assert_eq!(refusal(plain(&hand, 0).glyph("y")), "invalid bounding box for glyph y");
}

#[test]
fn endless_formulas_have_no_picture() {
    let hand = fixture();
    let message = "image dimensions exceed safe limit";
    for width in [f32::INFINITY, 16_000.0] {
        assert_eq!(refusal(png(&Node::Space(F(width)), &hand)), message);
    }
    let widest = picture(png(&Node::Space(F(15_956.0)), &hand));
    assert_eq!((widest.width, widest.height), (16_000, 44));
}

#[test]
fn boxes_know_how_deep_their_subscripts_lie() {
    let hand = fixture();
    let depth = |node: &Node<F>| lay(&mut plain(&hand, 0), node).script_drop.0;
    let x_1 = || script(g("x"), Some(g("1")), None);
    assert!((depth(&x_1()) - 14.0).abs() < 0.01);
    assert_eq!(depth(&g("x")), 0.0);
    // A group in delimiters is as deep as its body.
    assert!((depth(&group("(", x_1(), ")")) - 14.0).abs() < 0.01);
    assert_eq!(depth(&group("(", g("x"), ")")), 0.0);
    // A denominator's subscript lies where the denominator hangs.
    let one = 120.0 * 0.48 * 0.55;
    let by = -34.08 + 3.45 + 2.0 + 65.0 * 0.48 * 0.55;
    assert!((depth(&frac(g("1"), x_1())) - 0.0).abs() < 0.01);
    let deep = frac(g("1"), script(g("1"), Some(g("1")), None));
    let by_one = by - 65.0 * 0.48 * 0.55 + one;
    assert!((depth(&deep) - (by_one + 14.0 * 0.55)).abs() < 0.01);
    assert_eq!(depth(&frac(g("1"), g("1"))), 0.0);
    // The second of two aligned rows lies a row lower.
    let rows = Node::Aligned(vec![(g("1"), None), (x_1(), None)]);
    let second = 57.6 + 36.0 + 31.2;
    assert!((depth(&rows) - (second + 14.0)).abs() < 0.01);
    // So does the lower limit of a large symbol.
    let limits = script(g("\\int"), Some(x_1()), None);
    let uy = 2.4 + 10.0 + 31.2 * 0.40 * 0.82;
    assert!((depth(&limits) - (uy + 14.0 * 0.40 * 0.82)).abs() < 0.01);
    assert_eq!(depth(&script(g("\\int"), Some(g("x")), None)), 0.0);
}

#[test]
fn a_group_in_a_numerator_rests_on_the_bar() {
    let hand = fixture();
    for seed in 0..32 {
        let node = frac(group("[", script(g("x"), Some(g("1")), None), "]"), g("1"));
        let fraction = lay(&mut varied(&hand, seed), &node);
        let bar_top = least(&ys(fraction.marks.last().unwrap()));
        // The second stroke is the subscript.
        let subscript = greatest(&ys(&fraction.marks[1]));
        assert!(bar_top - subscript - m(INK_WIDTH) / 2.0 > 0.0, "seed {seed}");
    }
}

#[test]
fn hand_drawn_lines_span_their_two_points() {
    for seed in 0..64 {
        for key in ["\\fracbar", "\\sqrtbar", "\\sqrt-up", ""] {
            let (from, to) = ((F(0.0), F(0.0)), (F(10.0 + seed as f32), F(-3.0)));
            let line = hand_drawn_line(seed, 2, key, from, to);
            for (drawn, asked) in [(line[0], from), (line[line.len() - 1], to)] {
                assert!((drawn.0 .0 - asked.0 .0).abs() < 0.001);
                assert!((drawn.1 .0 - asked.1 .0).abs() < 0.001);
            }
        }
    }
}
