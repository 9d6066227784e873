//! How a hand varies what it writes.
use crate::bits;
use crate::distance;
use crate::entry;
use crate::layout;
use crate::profile::Glyph;
use crate::scalar::Scalar;
use crate::strokes;
use crate::strokes::{Axis, BoxView, MarkView};
use crate::variation;
use vstd::prelude::*;

verus! {

/// The math axis lies at half the height of the equals sign as it was recorded, at 0.48 of
/// its size, and between sixteen and sixty pixels above the baseline; thirty-four where
/// there is none.
pub proof fn law_the_axis_goes_through_the_equals_sign<S: Scalar>(
    glyphs: Map<Seq<char>, Glyph<S>>,
)
    ensures
        layout::axis_height(glyphs) == if glyphs.contains_key("="@) && glyphs["="@].bbox is Some {
            let b = glyphs["="@].bbox->0;
            ((b.min_y + b.max_y) * S::mil(500) * S::mil(480)).held(S::mil(16_000), S::mil(60_000))
        } else {
            S::mil(34_000)
        },
{
}

/// By how much one instance differs from its sample: scaled by up to 0.045 across and a
/// fifth more upwards, turned by up to 1.6 degrees, up to three pixels off the baseline,
/// and with its pressure between 0.78 and 1.28 of what it was. Each draw is one of its own.
pub proof fn law_instances_differ_by_their_own_draws<S: Scalar>(
    seed: u64,
    key: Seq<char>,
    index: usize,
)
    ensures
        ({
            let v = variation::variation_of::<S>(seed, key, index);
            let b = bits::bits_of_instance(seed, key, index);
            let draw = |n: u64| bits::signed_unit_of::<S>(bits::redrawn(b, n));
            let turn = S::mil(1_600) * S::half_turn() / S::mil(180_000);
            &&& v.scale_x == S::mil(1_000) + S::mil(45) * draw(17)
            &&& v.scale_y == S::mil(1_000) + S::mil(45) * S::mil(1_200) * draw(29)
            &&& v.rotation == turn * draw(41)
            &&& v.baseline_offset == S::mil(3_000) * draw(53)
            &&& v.pressure_scale == S::mil(780) + (S::mil(1_280) - S::mil(780)) * bits::unit_of::<
                S,
            >(bits::redrawn(b, 7))
        }),
{
}

/// The baseline drifts along two slow waves, which begin where the seed says and go on with
/// every glyph that is placed.
pub proof fn law_the_baseline_drifts_along_two_waves<S: Scalar>(seed: u64, placed: usize)
    ensures
        ({
            let phase = S::counted((seed % 997) as int) * S::mil(17);
            let index = S::counted(placed as int);
            variation::drift_of::<S>(seed, placed) == S::mil(1_800) * (index * S::mil(230)
                + phase).sine() + S::mil(900) * (index * S::mil(410) + phase * S::mil(
                1_700,
            )).sine()
        }),
{
}

/// A draw uses the upper twenty-four bits: it is their share of all that twenty-four bits
/// can be, and a signed one twice that less one.
pub proof fn law_draws_use_the_upper_bits<S: Scalar>(draw: u64)
    ensures
        bits::unit_of::<S>(draw) == S::counted((draw >> 40) as int) / S::counted(16_777_216),
        bits::signed_unit_of::<S>(draw) == bits::unit_of::<S>(draw) * S::mil(2_000) - S::mil(1_000),
{
}

/// The bits of an instance come from all bytes of its key, one after the other, from the
/// seed and from the count, mixed.
pub proof fn law_bits_come_from_key_seed_and_count(seed: u64, key: Seq<char>, index: usize)
    ensures
        bits::bits_of_instance(seed, key, index) == bits::mixed(
            bits::key_digest(vstd::utf8::encode_utf8(key)) ^ seed.wrapping_mul(
                0x9e37_79b9_7f4a_7c15,
            ) ^ (index as u64).wrapping_add(1).wrapping_mul(0x2545_f491_4f6c_dd1d),
        ),
{
}

/// Every byte of a key is folded into its digest, in order.
pub proof fn law_every_byte_of_a_key_counts(bytes: Seq<u8>, byte: u8)
    ensures
        bits::key_digest(Seq::empty()) == 0xcbf2_9ce4_8422_2325u64,
        bits::key_digest(bytes.push(byte)) == (bits::key_digest(bytes) ^ (
        byte as u64)).wrapping_mul(0x0000_0100_0000_01b3),
{
    assert(bytes.push(byte).drop_last() =~= bytes);
}

/// Mixing folds the upper bits into the lower ones three times, with a multiplication after
/// the first and the second.
pub proof fn law_mixing_folds_the_upper_bits_in(b: u64)
    ensures
        ({
            let x = (b ^ (b >> 30)).wrapping_mul(0xbf58_476d_1ce4_e5b9);
            let y = (x ^ (x >> 27)).wrapping_mul(0x94d0_49bb_1331_11eb);
            bits::mixed(b) == y ^ (y >> 31)
        }),
{
}

/// A further draw from the same bits is those bits turned to the left and mixed again.
pub proof fn law_further_draws_turn_the_bits(b: u64, amount: u64)
    requires
        0 < amount < 64,
    ensures
        bits::redrawn(b, amount) == bits::mixed(
            (b << amount) | (b >> ((64 - amount) as u64)),
        ),
{
}

/// Turning bits loses none of them: turning on by the rest of a full turn gives them back.
pub proof fn law_turning_loses_no_bit(b: u64, amount: u64)
    requires
        0 < amount < 64,
    ensures
        bits::turned(bits::turned(b, amount), (64 - amount) as u64) == b,
{
    let rest = (64 - amount) as u64;
    let once = (b << amount) | (b >> rest);
    assert(((once << rest) | (once >> amount)) == b) by (bit_vector)
        requires
            0 < amount < 64,
            rest == 64 - amount,
            once == (b << amount) | (b >> rest),
    ;
}

/// Where a line drawn by hand is after `i` of its eight pieces: on the straight one, moved
/// off it at right angles by two waves and a tilt that fade to nothing at both ends. A piece
/// of a radical strays the less the shorter it is.
pub proof fn law_lines_are_drawn_by_hand<S: Scalar>(
    seed: u64,
    placed: usize,
    key: Seq<char>,
    from: (S, S),
    to: (S, S),
    i: int,
)
    requires
        0 <= i <= 8,
    ensures
        ({
            let line = variation::drawn_line(seed, placed, key, from, to);
            let b = bits::bits_of_instance(seed, key, placed);
            let (dx, dy) = (to.0 - from.0, to.1 - from.1);
            let length = dx.hypotenuse(dy).larger(S::mil(1_000));
            let turn = S::mil(2_000) * S::half_turn();
            let t = S::counted(i) / S::counted(8);
            let fade = (S::half_turn() * t).sine();
            let wave = S::mil(900) * (t * S::mil(5_300) + bits::unit_of::<S>(b) * turn).sine()
                + S::mil(500) * S::mil(900) * (t * S::mil(9_100) + bits::unit_of::<S>(
                bits::redrawn(b, 23),
            ) * turn).sine();
            let slope = (t - S::mil(500)) * (S::mil(900) * bits::signed_unit_of::<S>(
                bits::redrawn(b, 37),
            ));
            let off = if 5 <= key.len() && key.take(5) == "\\sqrt"@ {
                fade * (wave + slope) * (length / S::mil(65_000)).held(S::mil(150), S::mil(1_000))
            } else {
                fade * wave + slope * (S::mil(4_000) * fade).smaller(S::mil(1_000))
            };
            &&& line.len() == 9
            &&& line[i] == (
                from.0 + dx * t + (-dy) / length * off,
                from.1 + dy * t + dx / length * off,
            )
        }),
{
    reveal(variation::drawn_line);
    reveal(variation::sway_of);
    reveal(variation::deviation_at);
    reveal_strlit("\\sqrt");
    if 5 <= key.len() {
        assert(key.take(5) =~= key.subrange(0, 5));
    }
}

/// A parenthesis is bent a little when it is drawn, by where it begins: its belly, its skew
/// and its rise fade to nothing at both ends. A shorter stroke and any other one stays.
pub proof fn law_parentheses_bend_by_where_they_begin<S: Scalar>(mark: MarkView<S>, i: int)
    requires
        0 <= i < mark.points.len(),
    ensures
        ({
            let bent = distance::parenthesis_varied(mark);
            let (x, y) = mark.points[0];
            let belly = S::mil(1_250) * (x * S::mil(129) + y * S::mil(217)).sine();
            let skew = S::mil(950) * (x * S::mil(71) + y * S::mil(170)).cosine();
            let rise = S::mil(650) * ((x + y) * S::mil(90)).sine();
            let t = S::counted(i) / S::counted(mark.points.len() - 1);
            let fade = (S::half_turn() * t).sine();
            let p = mark.points[i];
            &&& bent.points.len() == mark.points.len()
            &&& bent.pressures == mark.pressures
            &&& bent.points[i] == if mark.parenthesis && mark.points.len() >= 3 {
                (
                    p.0 + fade * (belly + skew * (S::mil(2_000) * t - S::mil(1_000))),
                    p.1 + fade * rise,
                )
            } else {
                p
            }
        }),
{
}

// Entries.

/// The first point from index `from` on that lies at least `depth` below height `y`.
pub open spec fn is_first_below<S: Scalar>(
    points: Seq<(S, S)>,
    from: int,
    y: S,
    depth: S,
    r: Option<int>,
) -> bool {
    match r {
        Some(k) => {
            &&& from <= k < points.len()
            &&& depth <= points[k].1 - y
            &&& forall|i: int| from <= i < k ==> !(depth <= (#[trigger] points[i]).1 - y)
        },
        None => forall|i: int|
            from <= i < points.len() ==> !(depth <= (#[trigger] points[i]).1 - y),
    }
}

proof fn lemma_first_below<S: Scalar>(points: Seq<(S, S)>, from: int, y: S, depth: S)
    requires
        0 <= from,
    ensures
        is_first_below(points, from, y, depth, entry::first_below(points, from, y, depth)),
    decreases points.len() - from,
{
    if from < points.len() && !(depth <= points[from].1 - y) {
        lemma_first_below(points, from + 1, y, depth);
    }
}

/// The highest of the first `n` points, where a later one also counts when it is at most
/// 0.15 pixels lower than the one before it that counted.
pub open spec fn curl<S: Scalar>(points: Seq<(S, S)>, n: int) -> (int, S)
    decreases n,
{
    if n <= 0 {
        (0, S::topmost())
    } else {
        let (k, y) = curl(points, n - 1);
        if points[n - 1].1 <= y + S::mil(150) {
            (n - 1, points[n - 1].1)
        } else {
            (k, y)
        }
    }
}

proof fn lemma_curl<S: Scalar>(points: Seq<(S, S)>, n: int)
    ensures
        entry::peak_among(points, n) == curl(points, n),
    decreases n,
{
    if n > 0 {
        lemma_curl(points, n - 1);
    }
}

/// Which stroke is a free stem end, and where an entry joins it: the glyph is at least
/// thirty-five pixels high and the stroke six tenths of that, it starts no more than ten
/// below the top and goes down by three. A tiny curl at its start is passed over, down to
/// two pixels below its peak. It must not lead further than four pixels across, and the
/// stroke must go on down by three.
pub proof fn law_entries_join_free_stem_ends<S: Scalar>(
    points: Seq<(S, S)>,
    top: S,
    height: S,
) -> (r: (Option<int>, Option<int>, Option<int>))
    ensures
        ({
            let (down, settled, further) = r;
            let stem = points.len() > 0 && !(height < S::mil(35_000)) && !(strokes::highest(
                points,
                Axis::Y,
            ) - strokes::lowest(points, Axis::Y) < height * S::mil(600)) && !(S::mil(10_000)
                < points[0].1 - top);
            let peak = curl(points, down->0 + 1).0;
            let join = if peak == 0 {
                0
            } else {
                match settled {
                    Some(k) => k,
                    None => peak,
                }
            };
            &&& stem ==> is_first_below(points, 0, points[0].1, S::mil(3_000), down)
            &&& stem && down is Some && 0 < peak ==> is_first_below(
                points,
                peak,
                points[peak].1,
                S::mil(2_000),
                settled,
            )
            &&& stem && down is Some ==> is_first_below(
                points,
                join + 1,
                points[join].1,
                S::mil(3_000),
                further,
            )
            &&& entry::join_of(points, top, height) == if stem && down is Some && !(S::mil(4_000)
                < (points[join].0 - points[0].0).magnitude()) && further is Some {
                Some(join)
            } else {
                None
            }
        }),
{
    let down = entry::first_below(points, 0, points[0].1, S::mil(3_000));
    lemma_first_below(points, 0, points[0].1, S::mil(3_000));
    lemma_curl(points, down->0 + 1);
    let peak = curl(points, down->0 + 1).0;
    let settled = entry::first_below(points, peak, points[peak].1, S::mil(2_000));
    if down is Some {
        lemma_curl_is_among(points, down->0 + 1);
        lemma_first_below(points, peak, points[peak].1, S::mil(2_000));
    }
    let join = if peak == 0 {
        0
    } else {
        match settled {
            Some(k) => k,
            None => peak,
        }
    };
    if down is Some {
        lemma_first_below(points, join + 1, points[join].1, S::mil(3_000));
    }
    let further = entry::first_below(points, join + 1, points[join].1, S::mil(3_000));
    (down, settled, further)
}

proof fn lemma_curl_is_among<S: Scalar>(points: Seq<(S, S)>, n: int)
    ensures
        0 <= curl(points, n).0,
    decreases n,
{
    if n > 0 {
        lemma_curl_is_among(points, n - 1);
    }
}

/// An entry is a curve of four points from a tip on the left to the join, which it meets in
/// the direction of the downstroke; the captured stroke goes on from there. It has the
/// pressure of the join, or an ordinary one where the stroke has none, and it is tapered
/// over nine pixels, for a one over twenty-five.
pub proof fn law_entries_curve_into_the_downstroke<S: Scalar>(
    mark: MarkView<S>,
    draw: u64,
    top: S,
    height: S,
    one: bool,
    i: int,
)
    requires
        strokes::mark_is_sound(mark),
        entry::join_of(mark.points, top, height) is Some,
        0 <= i < 4,
    ensures
        entry::entry_added(mark, draw, top, height, one) is Some,
        ({
            let m = entry::entry_added(mark, draw, top, height, one)->0;
            let join = entry::join_of(mark.points, top, height)->0;
            let start = mark.points[join];
            let down = mark.points[entry::first_below(
                mark.points,
                join + 1,
                start.1,
                S::mil(3_000),
            )->0];
            let length = S::mil(if one { 2_800 } else { 4_200 }) + S::mil(
                if one { 1_100 } else { 1_300 },
            ) * bits::unit_of::<S>(bits::redrawn(draw, 29));
            let drop = S::mil(if one { -200 } else { -1_000 }) + S::mil(
                if one { 3_200 } else { 4_000 },
            ) * bits::unit_of::<S>(bits::redrawn(draw, 13));
            let tip = (start.0 - length, start.1 + drop);
            let (dx, dy) = (down.0 - start.0, down.1 - start.1);
            let distance = dx.hypotenuse(dy);
            let a = (
                tip.0 + length * S::mil(450),
                tip.1 - S::mil(800) - drop.larger(S::mil(0)) * S::mil(650),
            );
            let b = (
                start.0 - S::mil(2_000) * dx / distance,
                start.1 - S::mil(2_000) * dy / distance,
            );
            let t = S::counted(i) / S::mil(4_000);
            let u = S::mil(1_000) - t;
            let three = S::mil(3_000);
            let curve = |p: S, q: S, r: S, s: S|
                u * u * u * p + three * u * u * t * q + three * u * t * t * r + t * t * t * s;
            let pressures = match mark.pressures {
                Some(p) => p,
                None => Seq::new(mark.points.len(), |k: int| S::mil(500)),
            };
            &&& 0 <= join < mark.points.len()
            &&& m.points.len() == 4 + mark.points.len() - join
            &&& m.points[i] == (
                curve(tip.0, a.0, b.0, start.0),
                curve(tip.1, a.1, b.1, start.1),
            )
            &&& m.points.skip(4) == mark.points.skip(join)
            &&& m.pressures is Some && m.pressures->0.len() == m.points.len()
            &&& m.pressures->0[i] == pressures[join]
            &&& m.pressures->0.skip(4) == pressures.skip(join)
            &&& m.entry_tail_points == 4
            &&& m.entry_taper_length == S::mil(
                if one {
                    25_000
                } else {
                    9_000
                },
            )
            &&& m.parenthesis == mark.parenthesis
        }),
{
    entry::lemma_join_range(mark.points, top, height);
    let m = entry::entry_added(mark, draw, top, height, one)->0;
    let join = entry::join_of(mark.points, top, height)->0;
    let pressures = entry::pressures_or_ordinary(mark);
    assert(m.points.skip(4) =~= mark.points.skip(join));
    assert(m.pressures->0.skip(4) =~= pressures.skip(join));
    if mark.pressures is None {
        assert(pressures =~= Seq::new(mark.points.len(), |k: int| S::mil(500)));
    }
}

proof fn lemma_first_entry<S>(marks: Seq<MarkView<S>>, from: int)
    requires
        0 <= from,
    ensures
        match entry::first_entry(marks, from) {
            Some(k) => from <= k < marks.len() && marks[k].entry_tail_points > 0 && forall|i: int|
                from <= i < k ==> (#[trigger] marks[i]).entry_tail_points == 0,
            None => forall|i: int|
                from <= i < marks.len() ==> (#[trigger] marks[i]).entry_tail_points == 0,
        },
    decreases marks.len() - from,
{
    if from < marks.len() && marks[from].entry_tail_points == 0 {
        lemma_first_entry(marks, from + 1);
    }
}

/// An entry leans towards where the stroke before it ended when that lies up to thirty-two
/// pixels to the left and ten to a hundred below the join: its tip drops by 0.235 of that,
/// and by four to sixteen pixels, and the other points of it the less the nearer they are
/// to the join. Only the first entry of a box does, and nothing else changes but the
/// heights of the box.
pub proof fn law_entries_lean_towards_the_stroke_before<S: Scalar>(
    b: BoxView<S>,
    end: (S, S),
    x: S,
    k: int,
    i: int,
)
    requires
        strokes::marks_are_sound(b.marks),
        0 <= k < b.marks.len(),
        0 <= i < b.marks[k].points.len(),
    ensures
        ({
            let o = entry::entry_adjusted(b, end, x);
            let m = b.marks[k];
            let n = m.entry_tail_points as int;
            let join = m.points[n];
            let (across, down) = (x + join.0 - end.0, end.1 - join.1);
            let first = n > 0 && forall|j: int|
                0 <= j < k ==> (#[trigger] b.marks[j]).entry_tail_points == 0;
            let near = S::mil(0) <= across && across <= S::mil(32_000) && S::mil(10_000) <= down
                && down <= S::mil(100_000);
            let more = (down * S::mil(235)).held(S::mil(4_000), S::mil(16_000)) - (m.points[0].1
                - join.1);
            let left = S::mil(1_000) - S::counted(i) / S::counted(n);
            &&& o.marks.len() == b.marks.len()
            &&& o.marks[k].points.len() == m.points.len()
            &&& o.marks[k].pressures == m.pressures
            &&& o.width == b.width
            &&& o.marks[k].points[i] == if first && near && i < n {
                (m.points[i].0, m.points[i].1 + more * left * left)
            } else {
                m.points[i]
            }
        }),
{
    lemma_first_entry(b.marks, 0);
    assert(strokes::mark_is_sound(b.marks[k]));
}

/// Where an entry leaned, the heights of the box are measured anew; else the box is as it
/// was.
pub proof fn law_leaning_boxes_are_measured_anew<S: Scalar>(b: BoxView<S>, end: (S, S), x: S)
    ensures
        ({
            let o = entry::entry_adjusted(b, end, x);
            o == b || match strokes::extent(o.marks, Axis::Y) {
                Some((top, bottom)) => o.above == (-top).larger(S::mil(0)) && o.below
                    == bottom.larger(S::mil(0)),
                None => o.above == b.above && o.below == b.below,
            }
        }),
{
}

} // verus!
