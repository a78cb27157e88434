use vstd::prelude::*;

verus! {

/// Altitude of terrain or of an entity, in meters above sea level.
#[derive(Copy, Clone, Debug, PartialEq, Eq, Structural)]
pub struct Altitude(pub i8);

/// Terrain data is offset by this many units so that the stratum representing sea level
/// is slightly above zero.
pub const DATA_OFFSET: u8 = 6;

/// Altitude of sand (sea level).
pub const SAND_LEVEL: i8 = 0;
/// Altitude above which land is grass.
pub const GRASS_LEVEL: i8 = 16;

/// The non-linear table from terrain strata to altitudes (allowing both shallow and deep areas).
pub open spec fn lut(i: int) -> int {
    if i <= 0 { -128 }
    else if i == 1 { -115 }
    else if i == 2 { -100 }
    else if i == 3 { -50 }
    else if i == 4 { -20 }
    else if i == 5 { -5 }
    else if i == 6 { -2 }
    else if i == 7 { -1 }
    else if i == 8 { 0 }
    else if i == 9 { 1 }
    else if i == 10 { 2 }
    else if i == 11 { 5 }
    else if i == 12 { 20 }
    else if i == 13 { 50 }
    else if i == 14 { 100 }
    else if i == 15 { 115 }
    else { 127 }
}

/// Terrain data with the offset added, saturating at 255.
pub open spec fn offset_data(data: u8) -> int {
    if data as int + DATA_OFFSET as int > 255 { 255 } else { data as int + DATA_OFFSET as int }
}

/// Altitude of raw terrain data: linear interpolation between two adjacent table entries.
pub open spec fn lookup_altitude_spec(data: u8) -> int {
    let d = offset_data(data);
    let hi = d / 16;
    lut(hi) + (lut(hi + 1) - lut(hi)) * (d % 16) / 16
}

/// The largest table index `j <= i` whose entry does not exceed `a` (zero if none does).
pub open spec fn floor_index(a: int, i: int) -> int
    decreases i,
{
    if i <= 0 {
        0
    } else if lut(i) <= a {
        i
    } else {
        floor_index(a, i - 1)
    }
}

/// Terrain data for an altitude: the coarsest stratum whose table entry does not exceed it,
/// times sixteen, saturating at 255.
pub open spec fn reverse_lookup_altitude_spec(a: int) -> int {
    let i = floor_index(a, 16);
    if 16 * i > 255 { 255 } else { 16 * i }
}

fn altitude_lut(i: usize) -> (r: i8)
    requires
        i <= 16,
    ensures
        r as int == lut(i as int),
{
    match i {
        0 => -128,
        1 => -115,
        2 => -100,
        3 => -50,
        4 => -20,
        5 => -5,
        6 => -2,
        7 => -1,
        8 => 0,
        9 => 1,
        10 => 2,
        11 => 5,
        12 => 20,
        13 => 50,
        14 => 100,
        15 => 115,
        _ => 127,
    }
}

/// Converts terrain data into an [`Altitude`].
pub fn lookup_altitude(data: u8) -> (r: Altitude)
    ensures
        r.0 as int == lookup_altitude_spec(data),
{
    let d: u8 = data.saturating_add(DATA_OFFSET);
    let hi: usize = (d / 16) as usize;
    let frac: u16 = (d % 16) as u16;
    let low = altitude_lut(hi);
    let high = altitude_lut(hi + 1);
    assert(lut(hi as int) < lut(hi as int + 1));
    let gap: u16 = (high as i16 - low as i16) as u16;
    assert(gap * frac <= 255 * 15) by (nonlinear_arith)
        requires
            gap <= 255,
            frac <= 15,
    ;
    let step: u16 = gap * frac / 16;
    assert(step < gap) by (nonlinear_arith)
        requires
            step == gap * frac / 16,
            frac < 16,
            gap > 0,
    ;
    Altitude((low as i16 + step as i16) as i8)
}

/// Converts an [`Altitude`] into terrain data. Does not interpolate: the result is always a
/// multiple of sixteen, or 255 for the highest altitude.
pub fn reverse_lookup_altitude(altitude: Altitude) -> (r: u8)
    ensures
        r as int == reverse_lookup_altitude_spec(altitude.0 as int),
{
    let a = altitude.0;
    let mut i: usize = 16;
    while i > 0 && altitude_lut(i) > a
        invariant
            i <= 16,
            floor_index(a as int, 16) == floor_index(a as int, i as int),
        decreases i,
    {
        i -= 1;
    }
    if i == 16 {
        255
    } else {
        (i * 16) as u8
    }
}


proof fn lemma_lut_strictly_increasing(j: int, k: int)
    requires
        0 <= j < k <= 16,
    ensures
        lut(j) < lut(k),
{
}

/// What `floor_index` picks: an entry not above `a`, whose successor (if considered) is above it.
proof fn lemma_floor_index(a: int, k: int)
    requires
        -128 <= a,
        0 <= k <= 16,
    ensures
        0 <= floor_index(a, k) <= k,
        lut(floor_index(a, k)) <= a,
        floor_index(a, k) < k ==> a < lut(floor_index(a, k) + 1),
    decreases k,
{
    if k > 0 && lut(k) > a {
        lemma_floor_index(a, k - 1);
    }
}

/// `floor_index` finds the stratum `i` whenever `a` lies between its entry and the next.
proof fn lemma_floor_index_of(a: int, i: int, k: int)
    requires
        0 <= i < 16,
        i <= k <= 16,
        lut(i) <= a < lut(i + 1),
    ensures
        floor_index(a, k) == i,
    decreases k,
{
    if k > i {
        if k > i + 1 {
            lemma_lut_strictly_increasing(i + 1, k);
        }
        lemma_floor_index_of(a, i, k - 1);
    }
}

/// Looking up raw data, then converting back, keeps the stratum of the offset data.
pub proof fn lemma_lookup_then_reverse(r: u8)
    ensures
        reverse_lookup_altitude_spec(lookup_altitude_spec(r)) / 16 == offset_data(r) / 16,
{
    let d = offset_data(r);
    let hi = d / 16;
    let gap = lut(hi + 1) - lut(hi);
    let frac = d % 16;
    lemma_lut_strictly_increasing(hi, hi + 1);
    assert(0 <= gap * frac / 16 < gap) by (nonlinear_arith)
        requires
            0 <= frac < 16,
            gap > 0,
    ;
    lemma_floor_index_of(lookup_altitude_spec(r), hi, 16);
}

/// Converting an altitude to raw data and back stays close to it: within 20 meters near sea
/// level (below 10 meters in magnitude) and within 50 meters elsewhere.
pub proof fn lemma_reverse_then_lookup(a: i8)
    ensures
        ({
            let back = lookup_altitude_spec(reverse_lookup_altitude_spec(a as int) as u8);
            let diff = if back >= a { back - a } else { a - back };
            diff < if -10 < a < 10 { 20int } else { 50int }
        }),
{
    lemma_floor_index(a as int, 16);
    let i = floor_index(a as int, 16);
    if i < 16 {
        let gap = lut(i + 1) - lut(i);
        lemma_lut_strictly_increasing(i, i + 1);
        assert(offset_data((16 * i) as u8) == 16 * i + 6);
        assert((16 * i + 6) / 16 == i);
        assert((16 * i + 6) % 16 == 6);
        assert(0 <= gap * 6 / 16 < gap) by (nonlinear_arith)
            requires
                gap > 0,
        ;
        assert(lookup_altitude_spec((16 * i) as u8) == lut(i) + gap * 6 / 16);
        if -10 < a < 10 {
            if i < 4 {
                lemma_lut_strictly_increasing(i + 1, 4);
            }
            if i > 11 {
                lemma_lut_strictly_increasing(12, i);
            }
            assert(gap <= 15);
        } else {
            assert(gap <= 50);
        }
    } else {
        assert(a == 127);
        assert(reverse_lookup_altitude_spec(a as int) == 255);
        assert(offset_data(255) == 255);
        assert(255int / 16 == 15 && 255int % 16 == 15 && 180int / 16 == 11);
        assert(lookup_altitude_spec(255) == 126);
    }
}

} // verus!
