use sherlog::duration::format_duration;
use sherlog::duration::parse_duration;
use sherlog::duration::Duration;

#[test]
fn parses_full_shape() {
    assert_eq!(
        parse_duration("+1D 02:03:04.500").millis,
        (((24 + 2) * 60 + 3) * 60 + 4) * 1000 + 500
    );
}

#[test]
fn parses_zero() {
    assert_eq!(parse_duration("+0D 00:00:00.000").millis, 0);
}

#[test]
fn sign_and_defaults() {
    assert_eq!(parse_duration("-5").millis, -5000);
    assert_eq!(parse_duration("5").millis, 5000);
    assert_eq!(parse_duration(" 12:34 ").millis, (12 * 3600 + 34) * 1000);
}

#[test]
fn single_colon_group_is_hours() {
    // With one NN: group present it binds to hours, not minutes.
    assert_eq!(parse_duration("1:02").millis, (3600 + 2) * 1000);
}

#[test]
fn fraction_pads_on_the_right() {
    assert_eq!(parse_duration("0.5").millis, 500);
    assert_eq!(parse_duration("0.05").millis, 50);
    assert_eq!(parse_duration("0.050").millis, 50);
}

#[test]
fn invalid_shapes_parse_as_zero() {
    assert_eq!(parse_duration("").millis, 0);
    assert_eq!(parse_duration("abc").millis, 0);
    assert_eq!(parse_duration("123:4").millis, 0);
    assert_eq!(parse_duration("5D").millis, 0);
    assert_eq!(parse_duration("1.2345").millis, 0);
}

#[test]
fn formats_canonically() {
    assert_eq!(format_duration(Duration { millis: 0 }), "+0D 00:00:00.000");
    assert_eq!(
        format_duration(Duration {
            millis: (((24 + 2) * 60 + 3) * 60 + 4) * 1000 + 500
        }),
        "+1D 02:03:04.500"
    );
    assert_eq!(format_duration(Duration { millis: -5000 }), "-0D 00:00:05.000");
}

#[test]
fn format_of_parse_round_trips_shape() {
    let d = parse_duration("-3D 04:05:06.007");
    assert_eq!(format_duration(d), "-3D 04:05:06.007");
}
