//! Colors for power readings: a reading is placed between the display's
//! lower and upper dB bounds and colored from the Inferno palette.
use vstd::prelude::*;

verus! {

#[derive(Debug, Clone, Copy, PartialEq, Eq, Structural)]
pub struct Rgb {
    pub r: u8,
    pub g: u8,
    pub b: u8,
}

/// The Inferno palette's color at position `i / (n - 1)` (at its end when `n` is 1).
pub uninterp spec fn inferno(i: nat, n: nat) -> (u8, u8, u8);

/// Relies on colorous::Gradient::eval_rational on colorous::INFERNO, which
/// samples the palette at `i / (n - 1)` (at its end when `n` is 1) from `i`
/// and `n` alone, and panics when `n` is zero.
#[verifier::external_body]
fn inferno_rational(i: usize, n: usize) -> (r: Rgb)
    requires
        n > 0,
    ensures
        (r.r, r.g, r.b) == inferno(i as nat, n as nat),
{
    let c = colorous::INFERNO.eval_rational(i, n);
    Rgb { r: c.r, g: c.g, b: c.b }
}

pub open spec fn rgb_of(t: (u8, u8, u8)) -> Rgb {
    Rgb { r: t.0, g: t.1, b: t.2 }
}

/// The palette's color at `num / den`, where fractions above one count as one.
pub open spec fn fraction_color(num: nat, den: nat) -> Rgb {
    rgb_of(inferno(if num <= den { num } else { den }, den + 1))
}

/// Colors the fraction `num / den` of the palette; past `den` it stays at the
/// palette's end.
pub fn color_map(num: usize, den: usize) -> (r: Rgb)
    requires
        0 < den < usize::MAX,
    ensures
        r == fraction_color(num as nat, den as nat),
{
    let i = if num <= den {
        num
    } else {
        den
    };
    inferno_rational(i, den + 1)
}

/// The distance between the two bounds.
pub open spec fn db_span(min_db: i64, max_db: i64) -> nat {
    if max_db >= min_db {
        (max_db - min_db) as nat
    } else {
        (min_db - max_db) as nat
    }
}

/// Where `db` lies from `min_db` (0) to `max_db` (1), clamped to that range,
/// as a fraction `(num, den)`; equal bounds place every reading halfway.
pub open spec fn db_fraction(db: i64, min_db: i64, max_db: i64) -> (nat, nat) {
    if max_db == min_db {
        (1, 2)
    } else {
        let d = if max_db > min_db {
            db - min_db
        } else {
            min_db - db
        };
        let s = db_span(min_db, max_db);
        (
            if d <= 0 {
                0
            } else if d >= s {
                s
            } else {
                d as nat
            },
            s,
        )
    }
}

pub open spec fn db_color(db: i64, min_db: i64, max_db: i64) -> Rgb {
    fraction_color(db_fraction(db, min_db, max_db).0, db_fraction(db, min_db, max_db).1)
}

/// The position of `db` between the bounds, as `db_fraction` gives it.
pub fn normalize_db(db: i64, min_db: i64, max_db: i64) -> (r: (usize, usize))
    requires
        db_span(min_db, max_db) < usize::MAX,
    ensures
        r.0 as nat == db_fraction(db, min_db, max_db).0,
        r.1 as nat == db_fraction(db, min_db, max_db).1,
        0 < r.1 < usize::MAX,
{
    if max_db == min_db {
        return (1, 2);
    }
    let s: i128 = if max_db > min_db {
        max_db as i128 - min_db as i128
    } else {
        min_db as i128 - max_db as i128
    };
    let d: i128 = if max_db > min_db {
        db as i128 - min_db as i128
    } else {
        min_db as i128 - db as i128
    };
    let num: i128 = if d <= 0 {
        0
    } else if d >= s {
        s
    } else {
        d
    };
    (num as usize, s as usize)
}

/// The color of a reading of `db` on a display from `min_db` to `max_db`.
pub fn color_of_db(db: i64, min_db: i64, max_db: i64) -> (r: Rgb)
    requires
        db_span(min_db, max_db) < usize::MAX,
    ensures
        r == db_color(db, min_db, max_db),
{
    let (num, den) = normalize_db(db, min_db, max_db);
    color_map(num, den)
}

/// The level of blue in the red-to-blue scale: 255 times the position of
/// `db` from `min_db` to `max_db`, rounded toward zero and held within
/// 0..=255; equal bounds give the middle level.
pub open spec fn red_blue_level(db: i64, max_db: i64, min_db: i64) -> u8 {
    if max_db == min_db {
        127
    } else {
        let num = 255 * (db - min_db);
        let den = max_db - min_db;
        if (num > 0 && den > 0) || (num < 0 && den < 0) {
            let q = if num > 0 {
                num / den
            } else {
                (-num) / (-den)
            };
            if q > 255 {
                255
            } else {
                q as u8
            }
        } else {
            0
        }
    }
}

/// A two-color scale from red (at `min_db`) to blue (at `max_db`).
pub fn red_blue_color_map(db: i64, max_db: i64, min_db: i64) -> (r: (u8, u8, u8))
    ensures
        r.0 == 255 - red_blue_level(db, max_db, min_db),
        r.1 == 0,
        r.2 == red_blue_level(db, max_db, min_db),
{
    let level: u8 = if max_db == min_db {
        127
    } else {
        let num: i128 = 255 * (db as i128 - min_db as i128);
        let den: i128 = max_db as i128 - min_db as i128;
        if (num > 0 && den > 0) || (num < 0 && den < 0) {
            let q: u128 = if num > 0 {
                (num as u128) / (den as u128)
            } else {
                ((-num) as u128) / ((-den) as u128)
            };
            if q > 255 {
                255
            } else {
                q as u8
            }
        } else {
            0
        }
    };
    (255 - level, 0, level)
}


/// Readings at or beyond a bound take the palette's color at that end:
/// position 0 at or below `min_db`, position 1 at or above `max_db`.
pub proof fn lemma_bounds_clamp(db: i64, min_db: i64, max_db: i64)
    requires
        min_db != max_db,
    ensures
        (if max_db > min_db { db <= min_db } else { db >= min_db }) ==> db_color(db, min_db, max_db)
            == rgb_of(inferno(0, db_span(min_db, max_db) + 1)),
        (if max_db > min_db { db >= max_db } else { db <= max_db }) ==> db_color(db, min_db, max_db)
            == rgb_of(inferno(db_span(min_db, max_db), db_span(min_db, max_db) + 1)),
{
}

} // verus!
