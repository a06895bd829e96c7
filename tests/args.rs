use mc_map_tools::args::{parse_area, parse_point, Area, SearchDupeStashesMode};
use mc_map_tools::bounds::Bounds;

#[test]
fn point_parsed() {
    assert_eq!(parse_point("12,-7"), Some((12, -7)));
    assert_eq!(parse_point("+3,0"), Some((3, 0)));
    assert_eq!(parse_point("12"), None);
    assert_eq!(parse_point("1,2,3"), None);
    assert_eq!(parse_point(" 1,2"), None);
    assert_eq!(parse_point("9223372036854775808,0"), None);
}

#[test]
fn area_parsed() {
    assert_eq!(parse_area("1,2;-3,4"), Ok(Area { x1: 1, z1: 2, x2: -3, z2: 4 }));
}

#[test]
fn area_rejected() {
    for bad in ["1,2", "1,2;3", "a,2;3,4", "1,2;3,4;5,6", ""] {
        let e = parse_area(bad).unwrap_err();
        assert!(e.starts_with("Can not parse provided area."));
    }
}

#[test]
fn area_bounds() {
    let a = Area { x1: 10, z1: -2, x2: 3, z2: 5 };
    assert_eq!(a.to_bounds(), Some(Bounds { x: 3, y: -2, width: 8, height: 8 }));
    let huge = Area { x1: i64::MIN, z1: 0, x2: i64::MAX - 1, z2: 0 };
    assert_eq!(huge.to_bounds(), None);
}

#[test]
fn default_mode_is_absolute() {
    assert!(matches!(SearchDupeStashesMode::default(), SearchDupeStashesMode::Absolute));
}
