use flexpolyline::{Error, Polyline, Precision, Type3d};

/// Fixed-point image of a coordinate axis at the given precision, rounding
/// to the nearest integer (ties away from zero, as `f64::round` does).
fn to_fixed(value: f64, precision: u32) -> i64 {
    let scale = 10_u64.pow(precision) as f64;
    (value * scale).round() as i64
}

fn fixed_2d(coords: &[(f64, f64)], precision2d: u32) -> Vec<(i64, i64)> {
    coords
        .iter()
        .map(|c| (to_fixed(c.0, precision2d), to_fixed(c.1, precision2d)))
        .collect()
}

fn fixed_3d(coords: &[(f64, f64, f64)], precision2d: u32, precision3d: u32) -> Vec<(i64, i64, i64)> {
    coords
        .iter()
        .map(|c| {
            (
                to_fixed(c.0, precision2d),
                to_fixed(c.1, precision2d),
                to_fixed(c.2, precision3d),
            )
        })
        .collect()
}

/// The human-readable textual form of a 2D polyline, coordinates shown with
/// `prec` digits.
fn format_2d(digits2d: u32, coords: &[(f64, f64)], prec: usize) -> String {
    let mut out = format!("{{({}); [", digits2d);
    for coord in coords {
        out.push_str(&format!("({:.*}, {:.*}), ", prec, coord.0, prec, coord.1));
    }
    out.push_str("]}");
    out
}

/// The human-readable textual form of a 3D polyline.
fn format_3d(digits2d: u32, digits3d: u32, tag: u32, coords: &[(f64, f64, f64)], prec: usize) -> String {
    let mut out = format!("{{({}, {}, {}); [", digits2d, digits3d, tag);
    for coord in coords {
        out.push_str(&format!(
            "({:.*}, {:.*}, {:.*}), ",
            prec, coord.0, prec, coord.1, prec, coord.2
        ));
    }
    out.push_str("]}");
    out
}

/// Renders a decoded polyline at the given display precision, dividing the
/// fixed-point coordinates back out by their stored precisions.
fn render(polyline: &Polyline, prec: usize) -> String {
    match polyline {
        Polyline::Data2d { coordinates, precision2d } => {
            let scale = 10_u64.pow(precision2d.to_u32()) as f64;
            let coords: Vec<(f64, f64)> = coordinates
                .iter()
                .map(|c| (c.0 as f64 / scale, c.1 as f64 / scale))
                .collect();
            format_2d(precision2d.to_u32(), &coords, prec)
        }
        Polyline::Data3d {
            coordinates,
            precision2d,
            precision3d,
            type3d,
        } => {
            let scale2d = 10_u64.pow(precision2d.to_u32()) as f64;
            let scale3d = 10_u64.pow(precision3d.to_u32()) as f64;
            let coords: Vec<(f64, f64, f64)> = coordinates
                .iter()
                .map(|c| (c.0 as f64 / scale2d, c.1 as f64 / scale2d, c.2 as f64 / scale3d))
                .collect();
            format_3d(
                precision2d.to_u32(),
                precision3d.to_u32(),
                type3d.to_u32(),
                &coords,
                prec,
            )
        }
    }
}

#[test]
fn test_encode_2d_example_1() {
    let coordinates = vec![
        (50.1022829, 8.6982122),
        (50.1020076, 8.6956695),
        (50.1006313, 8.6914960),
        (50.0987800, 8.6875156),
    ];

    let expected = "BFoz5xJ67i1B1B7PzIhaxL7Y";
    assert_eq!(
        &Polyline::Data2d {
            coordinates: fixed_2d(&coordinates, 5),
            precision2d: Precision::Digits5
        }
        .encode()
        .unwrap(),
        expected
    );
}

#[test]
fn test_encode_2d_example_2() {
    let coordinates = vec![
        (52.5199356, 13.3866272),
        (52.5100899, 13.2816896),
        (52.4351807, 13.1935196),
        (52.4107285, 13.1964502),
        (52.3887100, 13.1557798),
        (52.3727798, 13.1491003),
        (52.3737488, 13.1154604),
        (52.3875198, 13.0872202),
        (52.4029388, 13.0706196),
        (52.4105797, 13.0755529),
    ];

    let expected = "BF05xgKuy2xCx9B7vUl0OhnR54EqSzpEl-HxjD3pBiGnyGi2CvwFsgD3nD4vB6e";
    assert_eq!(
        &Polyline::Data2d {
            coordinates: fixed_2d(&coordinates, 5),
            precision2d: Precision::Digits5
        }
        .encode()
        .unwrap(),
        expected
    );
}

#[test]
fn test_encode_3d_example_1() {
    let coordinates = vec![
        (50.1022829, 8.6982122, 10.0),
        (50.1020076, 8.6956695, 20.0),
        (50.1006313, 8.6914960, 30.0),
        (50.0987800, 8.6875156, 40.0),
    ];

    let expected = "BVoz5xJ67i1BU1B7PUzIhaUxL7YU";
    assert_eq!(
        &Polyline::Data3d {
            coordinates: fixed_3d(&coordinates, 5, 0),
            precision2d: Precision::Digits5,
            precision3d: Precision::Digits0,
            type3d: Type3d::Level
        }
        .encode()
        .unwrap(),
        expected
    );
}

#[test]
fn test_decode_2d_example_1() -> Result<(), Error> {
    let polyline = Polyline::decode("BFoz5xJ67i1B1B7PzIhaxL7Y")?;
    let expected = "{(5); [\
                    (50.102280, 8.698210), \
                    (50.102010, 8.695670), \
                    (50.100630, 8.691500), \
                    (50.098780, 8.687520), \
                    ]}";
    let result = render(&polyline, 6);
    assert_eq!(expected, result);
    Ok(())
}

#[test]
fn test_decode_2d_example_2() -> Result<(), Error> {
    let polyline =
        Polyline::decode("BF05xgKuy2xCx9B7vUl0OhnR54EqSzpEl-HxjD3pBiGnyGi2CvwFsgD3nD4vB6e")?;
    let expected = "{(5); [\
                    (52.519940, 13.386630), \
                    (52.510090, 13.281690), \
                    (52.435180, 13.193520), \
                    (52.410730, 13.196450), \
                    (52.388710, 13.155780), \
                    (52.372780, 13.149100), \
                    (52.373750, 13.115460), \
                    (52.387520, 13.087220), \
                    (52.402940, 13.070620), \
                    (52.410580, 13.075550), \
                    ]}";

    let result = render(&polyline, 6);
    assert_eq!(expected, result);
    Ok(())
}

#[test]
fn test_decode_3d_example_1() -> Result<(), Error> {
    let polyline = Polyline::decode("BVoz5xJ67i1BU1B7PUzIhaUxL7YU")?;
    let expected = "{(5, 0, 1); [\
                    (50.102280, 8.698210, 10.000000), \
                    (50.102010, 8.695670, 20.000000), \
                    (50.100630, 8.691500, 30.000000), \
                    (50.098780, 8.687520, 40.000000), \
                    ]}";

    let result = render(&polyline, 6);
    assert_eq!(expected, result);
    Ok(())
}

#[test]
#[allow(clippy::zero_prefixed_literal)]
fn test_encode_decode_2d() -> Result<(), Error> {
    let coordinate_values: Vec<(u64, u64)> = vec![
        (96821474666297905, 78334196549606266),
        (29405294060895017, 70361389340728572),
        (16173544634348013, 17673855782924183),
        (22448654820449524, 13005139703027850),
        (73351231936757857, 78298027377720633),
        (78008331957098324, 04847613123220218),
        (62755680515396509, 49165433608990700),
        (93297154866561429, 52373802822465027),
        (89973844644540399, 75975762025877533),
        (48555821719956867, 31591090068957813),
    ];

    for precision2d in 0..=15 {
        let to_f64 = |value: &(u64, u64)| {
            (
                value.0 as f64 / 10_u64.pow(15) as f64,
                value.1 as f64 / 10_u64.pow(15) as f64,
            )
        };

        let to_rounded_f64 = |value: &(u64, u64)| {
            let value = to_f64(value);
            let scale = 10_u64.pow(precision2d) as f64;
            (
                (value.0 * scale).round() / scale,
                (value.1 * scale).round() / scale,
            )
        };

        let rounded: Vec<(f64, f64)> = coordinate_values.iter().map(to_rounded_f64).collect();
        let expected = format_2d(precision2d, &rounded, precision2d as usize + 1);

        let floats: Vec<(f64, f64)> = coordinate_values.iter().map(to_f64).collect();
        let encoded = Polyline::Data2d {
            coordinates: fixed_2d(&floats, precision2d),
            precision2d: Precision::from_u32(precision2d).unwrap(),
        }
        .encode()?;

        let polyline = Polyline::decode(&encoded)?;
        let result = render(&polyline, precision2d as usize + 1);
        assert_eq!(expected, result);
    }

    Ok(())
}

#[test]
#[allow(clippy::zero_prefixed_literal)]
fn test_encode_decode_3d() -> Result<(), Error> {
    let coordinate_values: Vec<(u64, u64, u64)> = vec![
        (96821474666297905, 78334196549606266, 23131023979661380),
        (29405294060895017, 70361389340728572, 81917934930416924),
        (16173544634348013, 17673855782924183, 86188502094968953),
        (22448654820449524, 13005139703027850, 68774670569614983),
        (73351231936757857, 78298027377720633, 52078352171243855),
        (78008331957098324, 04847613123220218, 06550838806837986),
        (62755680515396509, 49165433608990700, 39041897671300539),
        (93297154866561429, 52373802822465027, 67310807938230681),
        (89973844644540399, 75975762025877533, 66789448009436096),
        (48555821719956867, 31591090068957813, 49203621966471323),
    ];

    let precision2d = 5;
    for precision3d in 0..=15 {
        for type3d in &[
            Type3d::Level,
            Type3d::Altitude,
            Type3d::Elevation,
            Type3d::Reserved1,
            Type3d::Reserved2,
            Type3d::Custom1,
            Type3d::Custom2,
        ] {
            let to_f64 = |value: &(u64, u64, u64)| {
                (
                    value.0 as f64 / 10_u64.pow(15) as f64,
                    value.1 as f64 / 10_u64.pow(15) as f64,
                    value.2 as f64 / 10_u64.pow(15) as f64,
                )
            };

            let to_rounded_f64 = |value: &(u64, u64, u64)| {
                let value = to_f64(value);
                let scale2d = 10_u64.pow(precision2d) as f64;
                let scale3d = 10_u64.pow(precision3d) as f64;
                (
                    (value.0 * scale2d).round() / scale2d,
                    (value.1 * scale2d).round() / scale2d,
                    (value.2 * scale3d).round() / scale3d,
                )
            };

            let rounded: Vec<(f64, f64, f64)> =
                coordinate_values.iter().map(to_rounded_f64).collect();
            let expected = format_3d(
                precision2d,
                precision3d,
                type3d.to_u32(),
                &rounded,
                precision2d.max(precision3d) as usize + 1,
            );

            let floats: Vec<(f64, f64, f64)> = coordinate_values.iter().map(to_f64).collect();
            let encoded = Polyline::Data3d {
                coordinates: fixed_3d(&floats, precision2d, precision3d),
                precision2d: Precision::from_u32(precision2d).unwrap(),
                precision3d: Precision::from_u32(precision3d).unwrap(),
                type3d: *type3d,
            }
            .encode()?;

            let polyline = Polyline::decode(&encoded)?;
            let result = render(&polyline, precision2d.max(precision3d) as usize + 1);
            assert_eq!(expected, result);
        }
    }

    Ok(())
}
