//! The search area, radius and mode of a duplicate-stash search, and the
//! parsing of an area written as text.
use vstd::prelude::*;
use vstd::string::StringExecFns;

use crate::bounds::Bounds;

verus! {

/// A search, as given on the command line.
pub struct SearchDupeStashes {
    /// An area of chunks.
    pub area: Option<Area>,
    /// The radius of chunks to be searched around each container.
    pub radius: u32,
    pub mode: Option<SearchDupeStashesMode>,
}

/// How a search judges a cluster.
pub enum SearchDupeStashesMode {
    /// A warning for every group that has more items than the threshold in
    /// an area.
    Absolute,
    /// A warning for every group whose growth rate exceeds the threshold in
    /// an area. Declared, not implemented.
    GrothRate(GrothRate),
}

impl Default for SearchDupeStashesMode {
    fn default() -> (r: Self)
        ensures
            r is Absolute,
    {
        SearchDupeStashesMode::Absolute
    }
}

/// The settings of the growth-rate mode.
pub struct GrothRate {
    pub file_location: Option<String>,
}

/// A rectangle of chunks given by two corners.
#[derive(Clone, Copy, Debug, PartialEq, Eq, Structural)]
pub struct Area {
    /// X value of the first point.
    pub x1: i64,
    /// Z value of the first point.
    pub z1: i64,
    /// X value of the second point.
    pub x2: i64,
    /// Z value of the second point.
    pub z2: i64,
}

pub open spec fn min_of(a: int, b: int) -> int {
    if a <= b { a } else { b }
}

pub open spec fn max_of(a: int, b: int) -> int {
    if a <= b { b } else { a }
}

impl Area {
    /// The region from the smaller to the larger corner, both included.
    pub open spec fn spec_bounds(self) -> Bounds {
        Bounds {
            x: min_of(self.x1 as int, self.x2 as int) as i64,
            y: min_of(self.z1 as int, self.z2 as int) as i64,
            width: (max_of(self.x1 as int, self.x2 as int) - min_of(self.x1 as int, self.x2 as int) + 1) as i64,
            height: (max_of(self.z1 as int, self.z2 as int) - min_of(self.z1 as int, self.z2 as int) + 1) as i64,
        }
    }

    /// The region fits in `i64`: its far edges lie at most at `i64::MAX`.
    pub open spec fn fits(self) -> bool {
        &&& max_of(self.x1 as int, self.x2 as int) < i64::MAX
        &&& max_of(self.z1 as int, self.z2 as int) < i64::MAX
        &&& max_of(self.x1 as int, self.x2 as int) - min_of(self.x1 as int, self.x2 as int) + 1 <= i64::MAX
        &&& max_of(self.z1 as int, self.z2 as int) - min_of(self.z1 as int, self.z2 as int) + 1 <= i64::MAX
    }

    /// Returns the region of the area, with both corners included, or
    /// `None` where it does not fit in `i64`.
    pub fn to_bounds(&self) -> (r: Option<Bounds>)
        ensures
            self.fits() ==> r == Some(self.spec_bounds()) && self.spec_bounds().wf(),
            !self.fits() ==> r is None,
    {
        let (lx, hx) = if self.x1 <= self.x2 { (self.x1, self.x2) } else { (self.x2, self.x1) };
        let (lz, hz) = if self.z1 <= self.z2 { (self.z1, self.z2) } else { (self.z2, self.z1) };
        if hx == i64::MAX || hz == i64::MAX {
            return None;
        }
        let w = hx as i128 - lx as i128 + 1;
        let h = hz as i128 - lz as i128 + 1;
        if w > i64::MAX as i128 || h > i64::MAX as i128 {
            return None;
        }
        Some(Bounds { x: lx, y: lz, width: w as i64, height: h as i64 })
    }
}

/// `s` split at the first `sep`: what comes before it and what comes after.
pub open spec fn split_first(s: Seq<char>, sep: char) -> Option<(Seq<char>, Seq<char>)>
    decreases s.len(),
{
    if s.len() == 0 {
        None
    } else if s[0] == sep {
        Some((Seq::empty(), s.drop_first()))
    } else {
        match split_first(s.drop_first(), sep) {
            Some(p) => Some((seq![s[0]] + p.0, p.1)),
            None => None,
        }
    }
}

pub open spec fn is_digit(c: char) -> bool {
    '0' <= c && c <= '9'
}

/// The value of a string of decimal digits.
pub open spec fn digits_value(s: Seq<char>) -> int
    decreases s.len(),
{
    if s.len() == 0 {
        0
    } else {
        digits_value(s.drop_last()) * 10 + (s.last() as int - '0' as int)
    }
}

/// What reading `s` as an `i64` gives: an optional `+` or `-`, then one
/// or more decimal digits, whose value fits in `i64`.
pub open spec fn decimal_i64(s: Seq<char>) -> Option<i64> {
    let neg = s.len() > 0 && s[0] == '-';
    let digits = if s.len() > 0 && (s[0] == '-' || s[0] == '+') { s.drop_first() } else { s };
    let v = if neg { -digits_value(digits) } else { digits_value(digits) };
    if digits.len() > 0 && (forall|i: int| 0 <= i < digits.len() ==> is_digit(#[trigger] digits[i]))
        && i64::MIN <= v <= i64::MAX {
        Some(v as i64)
    } else {
        None
    }
}

/// What `parse_point` gives for `s`: two integers separated by the first
/// comma.
pub open spec fn point_of(s: Seq<char>) -> Option<(i64, i64)> {
    match split_first(s, ',') {
        Some(p) => match (decimal_i64(p.0), decimal_i64(p.1)) {
            (Some(x), Some(z)) => Some((x, z)),
            _ => None,
        },
        None => None,
    }
}

/// What `parse_area` gives for `s`: two points separated by the first
/// semicolon.
pub open spec fn area_of(s: Seq<char>) -> Option<Area> {
    match split_first(s, ';') {
        Some(p) => match (point_of(p.0), point_of(p.1)) {
            (Some(a), Some(b)) => Some(Area { x1: a.0, z1: a.1, x2: b.0, z2: b.1 }),
            _ => None,
        },
        None => None,
    }
}

/// Relies on `str::split_once`: splits at the first occurrence of `sep`,
/// or gives `None` where there is none.
#[verifier::external_body]
fn split_once_at(s: &str, sep: char) -> (r: Option<(&str, &str)>)
    ensures
        match r {
            Some(p) => split_first(s@, sep) == Some((p.0@, p.1@)),
            None => split_first(s@, sep) is None,
        },
{
    s.split_once(sep)
}

/// Relies on `i64`'s `FromStr`: an optional sign, then decimal digits whose
/// value fits; anything else, whitespace included, is an error.
#[verifier::external_body]
fn parse_i64(s: &str) -> (r: Option<i64>)
    ensures
        r == decimal_i64(s@),
{
    s.parse::<i64>().ok()
}

/// Parses a point written `<x>,<z>`.
pub fn parse_point(value: &str) -> (r: Option<(i64, i64)>)
    ensures
        r == point_of(value@),
{
    match split_once_at(value, ',') {
        Some((x, z)) => match (parse_i64(x), parse_i64(z)) {
            (Some(x), Some(z)) => Some((x, z)),
            _ => None,
        },
        None => None,
    }
}

/// The message for an area that cannot be parsed.
pub const AREA_FORMAT_ERROR: &'static str = "Can not parse provided area. Area must be give as followed: \"<x1>,<z1>;<x2>,<z2>\". Make sure that you have no spaces and all numbers are valid integers.";

/// Parses an area written `<x1>,<z1>;<x2>,<z2>`.
pub fn parse_area(value: &str) -> (r: Result<Area, String>)
    ensures
        area_of(value@) matches Some(a) ==> r == Ok::<Area, String>(a),
        area_of(value@) is None ==> (r matches Err(m) && m@ == AREA_FORMAT_ERROR@),
{
    let points = match split_once_at(value, ';') {
        Some((pos1, pos2)) => match (parse_point(pos1), parse_point(pos2)) {
            (Some(a), Some(b)) => Some((a, b)),
            _ => None,
        },
        None => None,
    };
    match points {
        Some(((x1, z1), (x2, z2))) => Ok(Area { x1, z1, x2, z2 }),
        None => Err(String::from_str(AREA_FORMAT_ERROR)),
    }
}

} // verus!
