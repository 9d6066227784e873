//! The small differences between one written instance and the next.
//!
//! Per-instance variation is derived only from the seed, the glyph key and the
//! occurrence count, so a fixed seed always draws the same picture.
use crate::bits;
use crate::bits::{instance_bits, redraw, unit_interval, unit_signed};
use crate::scalar::Scalar;
use crate::words;
use vstd::prelude::*;

verus! {

/// The most that an instance is scaled, in thousandths.
pub const MAX_INSTANCE_SCALE: i32 = 45;

/// The most that an instance is moved off the baseline, in thousandths of a pixel.
pub const MAX_INSTANCE_BASELINE_OFFSET: i32 = 3_000;

/// The band in which the pressure of an instance is scaled, in thousandths.
pub const MIN_INSTANCE_PRESSURE: i32 = 780;

pub const MAX_INSTANCE_PRESSURE: i32 = 1_280;

/// How many straight pieces a hand-drawn line consists of.
pub const HAND_DRAWN_LINE_SEGMENTS: usize = 8;

/// The most that a hand-drawn line waves and tilts, in thousandths of a pixel.
pub const MAX_LINE_WAVE: i32 = 900;

pub const MAX_LINE_TILT: i32 = 900;

/// How one instance of a glyph differs from its sample.
pub struct InstanceVariation<S> {
    pub scale_x: S,
    pub scale_y: S,
    pub rotation: S,
    pub baseline_offset: S,
    pub pressure_scale: S,
}

/// The most that an instance is turned: 1.6 degrees.
pub open spec fn max_rotation<S: Scalar>() -> S {
    S::mil(1_600) * S::half_turn() / S::mil(180_000)
}

/// The variation of one instance.
pub open spec fn variation_of<S: Scalar>(
    seed: u64,
    key: Seq<char>,
    index: usize,
) -> InstanceVariation<S> {
    let b = bits::bits_of_instance(seed, key, index);
    let scale = S::mil(MAX_INSTANCE_SCALE as int);
    let light = S::mil(MIN_INSTANCE_PRESSURE as int);
    let heavy = S::mil(MAX_INSTANCE_PRESSURE as int);
    InstanceVariation {
        scale_x: S::mil(1_000) + scale * bits::signed_unit_of::<S>(bits::redrawn(b, 17)),
        scale_y: S::mil(1_000) + scale * S::mil(1_200) * bits::signed_unit_of::<S>(
            bits::redrawn(b, 29),
        ),
        rotation: max_rotation::<S>() * bits::signed_unit_of::<S>(bits::redrawn(b, 41)),
        baseline_offset: S::mil(MAX_INSTANCE_BASELINE_OFFSET as int) * bits::signed_unit_of::<S>(
            bits::redrawn(b, 53),
        ),
        pressure_scale: light + (heavy - light) * bits::unit_of::<S>(bits::redrawn(b, 7)),
    }
}

/// A point of a sample as this instance draws it: turned and scaled about the
/// baseline below the anchor, then moved off the baseline.
pub open spec fn varied_point<S: Scalar>(
    v: InstanceVariation<S>,
    point: (S, S),
    anchor_x: S,
    drift: S,
) -> (S, S) {
    let x = point.0 - anchor_x;
    let y = point.1;
    let turned_x = x * v.rotation.cosine() - y * v.rotation.sine();
    let turned_y = x * v.rotation.sine() + y * v.rotation.cosine();
    (turned_x * v.scale_x + anchor_x, turned_y * v.scale_y + v.baseline_offset + drift)
}

/// A slow wobble of the baseline along the line.
pub open spec fn drift_of<S: Scalar>(seed: u64, placed: usize) -> S {
    let phase = S::counted((seed % 997) as int) * S::mil(17);
    let index = S::counted(placed as int);
    S::mil(1_800) * (index * S::mil(230) + phase).sine() + S::mil(900) * (index * S::mil(410)
        + phase * S::mil(1_700)).sine()
}

/// A straight line as a hand draws it.
pub struct Sway<S> {
    pub phase_a: S,
    pub phase_b: S,
    pub tilt: S,
    /// For a piece of a radical the size of its wobble; none for a bar.
    pub joined: Option<S>,
}

/// How the line with this key and count sways.
#[verifier::opaque]
pub open spec fn sway_of<S: Scalar>(
    seed: u64,
    placed: usize,
    key: Seq<char>,
    length: S,
) -> Sway<S> {
    let b = bits::bits_of_instance(seed, key, placed);
    let turn = S::mil(2_000) * S::half_turn();
    Sway {
        phase_a: bits::unit_of::<S>(b) * turn,
        phase_b: bits::unit_of::<S>(bits::redrawn(b, 23)) * turn,
        tilt: S::mil(MAX_LINE_TILT as int) * bits::signed_unit_of::<S>(bits::redrawn(b, 37)),
        joined: if words::begins_with(key, "\\sqrt"@) {
            Some((length / S::mil(65_000)).held(S::mil(150), S::mil(1_000)))
        } else {
            None
        },
    }
}

/// How far the line deviates at `t`, from its start at zero to its end at one. Wave and
/// tilt fade to nothing at both ends: the wave gradually, and the tilt of a bar within a
/// piece of the line. A short piece of a radical wobbles less.
#[verifier::opaque]
pub open spec fn deviation_at<S: Scalar>(sway: Sway<S>, t: S) -> S {
    let wave_size = S::mil(MAX_LINE_WAVE as int);
    let envelope = (S::half_turn() * t).sine();
    let wave = wave_size * (t * S::mil(5_300) + sway.phase_a).sine() + S::mil(500) * wave_size * (t
        * S::mil(9_100) + sway.phase_b).sine();
    let slope = (t - S::mil(500)) * sway.tilt;
    match sway.joined {
        Some(scale) => envelope * (wave + slope) * scale,
        None => envelope * wave + slope * (S::mil(4_000) * envelope).smaller(S::mil(1_000)),
    }
}

/// The length of a line, at least one pixel.
pub open spec fn line_length<S: Scalar>(from: (S, S), to: (S, S)) -> S {
    (to.0 - from.0).hypotenuse(to.1 - from.1).larger(S::mil(1_000))
}

/// The point of a hand-drawn line after `i` of its pieces.
pub open spec fn line_point<S: Scalar>(sway: Sway<S>, from: (S, S), to: (S, S), i: int) -> (S, S) {
    let (dx, dy) = (to.0 - from.0, to.1 - from.1);
    let length = line_length(from, to);
    let t = S::counted(i) / S::counted(HAND_DRAWN_LINE_SEGMENTS as int);
    let deviation = deviation_at(sway, t);
    (
        from.0 + dx * t + (-dy) / length * deviation,
        from.1 + dy * t + dx / length * deviation,
    )
}

/// The points of a hand-drawn line.
#[verifier::opaque]
pub open spec fn drawn_line<S: Scalar>(
    seed: u64,
    placed: usize,
    key: Seq<char>,
    from: (S, S),
    to: (S, S),
) -> Seq<(S, S)> {
    let sway = sway_of(seed, placed, key, line_length(from, to));
    Seq::new((HAND_DRAWN_LINE_SEGMENTS + 1) as nat, |i: int| line_point(sway, from, to, i))
}

/// A slow wobble so a line of glyphs does not sit on a perfect baseline.
pub fn baseline_drift<S: Scalar>(seed: u64, placed: usize) -> (r: S)
    ensures
        r == drift_of::<S>(seed, placed),
{
    let phase = S::whole((seed % 997) as usize).times(S::milli(17));
    let index = S::whole(placed);
    S::milli(1_800).times(index.times(S::milli(230)).plus(phase).sin()).plus(
        S::milli(900).times(index.times(S::milli(410)).plus(phase.times(S::milli(1_700))).sin()),
    )
}

impl<S: Scalar> InstanceVariation<S> {
    /// The variation of one instance of a key.
    pub fn for_instance(seed: u64, key: &str, index: usize) -> (r: Self)
        ensures
            r == variation_of::<S>(seed, key@, index),
    {
        let b = instance_bits(seed, key, index);
        let scale = S::milli(MAX_INSTANCE_SCALE);
        let light = S::milli(MIN_INSTANCE_PRESSURE);
        let heavy = S::milli(MAX_INSTANCE_PRESSURE);
        let rotation = S::milli(1_600).times(S::pi()).over(S::milli(180_000));
        InstanceVariation {
            scale_x: S::milli(1_000).plus(scale.times(unit_signed::<S>(redraw(b, 17)))),
            scale_y: S::milli(1_000).plus(
                scale.times(S::milli(1_200)).times(unit_signed::<S>(redraw(b, 29))),
            ),
            rotation: rotation.times(unit_signed::<S>(redraw(b, 41))),
            baseline_offset: S::milli(MAX_INSTANCE_BASELINE_OFFSET).times(
                unit_signed::<S>(redraw(b, 53)),
            ),
            pressure_scale: light.plus(heavy.minus(light).times(unit_interval::<S>(redraw(b, 7)))),
        }
    }

    /// Rotate and scale about the glyph's baseline midpoint so it pivots like a
    /// written letter rather than a stamped one.
    pub fn point(&self, point: (S, S), anchor_x: S, drift: S) -> (r: (S, S))
        ensures
            r == varied_point(*self, point, anchor_x, drift),
    {
        let x = point.0.minus(anchor_x);
        let y = point.1;
        let sin_r = self.rotation.sin();
        let cos_r = self.rotation.cos();
        let turned_x = x.times(cos_r).minus(y.times(sin_r));
        let turned_y = x.times(sin_r).plus(y.times(cos_r));
        (
            turned_x.times(self.scale_x).plus(anchor_x),
            turned_y.times(self.scale_y).plus(self.baseline_offset).plus(drift),
        )
    }
}

/// A hand-drawn straight line: a slight wave and tilt that fade to nothing at
/// the endpoints, so the line still spans exactly the same two points.
pub fn hand_drawn_line<S: Scalar>(
    seed: u64,
    placed: usize,
    key: &str,
    from: (S, S),
    to: (S, S),
) -> (r: Vec<(S, S)>)
    ensures
        r@ == drawn_line(seed, placed, key@, from, to),
        r.len() == HAND_DRAWN_LINE_SEGMENTS + 1,
{
    let b = instance_bits(seed, key, placed);
    let dx = to.0.minus(from.0);
    let dy = to.1.minus(from.1);
    let length = dx.hypot(dy).max(S::milli(1_000));
    let normal = (dy.negated().over(length), dx.over(length));
    let turn = S::milli(2_000).times(S::pi());
    let phase_a = unit_interval::<S>(b).times(turn);
    let phase_b = unit_interval::<S>(redraw(b, 23)).times(turn);
    let tilt = S::milli(MAX_LINE_TILT).times(unit_signed::<S>(redraw(b, 37)));
    let joined = if words::starts_with(key, "\\sqrt") {
        Some(length.over(S::milli(65_000)).clamp(S::milli(150), S::milli(1_000)))
    } else {
        None
    };
    let ghost sway = Sway { phase_a, phase_b, tilt, joined };
    let wave_size = S::milli(MAX_LINE_WAVE);
    let mut points: Vec<(S, S)> = Vec::new();
    let mut i: usize = 0;
    while i <= HAND_DRAWN_LINE_SEGMENTS
        invariant
            i <= HAND_DRAWN_LINE_SEGMENTS + 1,
            points.len() == i,
            sway == (Sway { phase_a, phase_b, tilt, joined }),
            dx == to.0 - from.0,
            dy == to.1 - from.1,
            length == line_length(from, to),
            normal == ((-dy) / length, dx / length),
            wave_size == S::mil(MAX_LINE_WAVE as int),
            forall|k: int| 0 <= k < i ==> points@[k] == line_point(sway, from, to, k),
        decreases HAND_DRAWN_LINE_SEGMENTS + 1 - i,
    {
        proof {
            reveal(deviation_at);
        }
        let t = S::whole(i).over(S::whole(HAND_DRAWN_LINE_SEGMENTS));
        let envelope = S::pi().times(t).sin();
        let wave = wave_size.times(t.times(S::milli(5_300)).plus(phase_a).sin()).plus(
            S::milli(500).times(wave_size).times(t.times(S::milli(9_100)).plus(phase_b).sin()),
        );
        // Short radical segments should not have the same-sized wobble as
        // an overline.
        let slope = t.minus(S::milli(500)).times(tilt);
        let deviation = match joined {
            Some(scale) => envelope.times(wave.plus(slope)).times(scale),
            None => {
                let fade = S::milli(4_000).times(envelope).min(S::milli(1_000));
                envelope.times(wave).plus(slope.times(fade))
            },
        };
        points.push(
            (
                from.0.plus(dx.times(t)).plus(normal.0.times(deviation)),
                from.1.plus(dy.times(t)).plus(normal.1.times(deviation)),
            ),
        );
        i += 1;
    }
    proof {
        reveal(sway_of);
        reveal(drawn_line);
        assert(points@ =~= drawn_line(seed, placed, key@, from, to));
    }
    points
}

} // verus!
