use chrono::{TimeZone, Utc};
use currentcost::plan::parse_and_filter_log;
use currentcost::reading::{write_log_line, CurrentCostReading};
use currentcost::record::{parse_line, CurrentcostLine};

#[test]
#[allow(deprecated)]
fn convert_reading_to_log_line() {
    let temperature: f32 = 24.8;
    let reading = CurrentCostReading {
        timestamp: Utc.ymd(2019, 8, 20).and_hms(15, 40, 42).timestamp(),
        device: String::from("CC128-v1.29"),
        sensor: 0,
        temperature: String::from("24.8"),
        power: 3000,
    };

    let log_line = "20/08/2019 15:40:42, 1566315642, Sensor 0, 24.80°C, 3000W\n";
    assert_eq!(reading.to_log(&format!("{:.2}", temperature)).unwrap(), log_line);
}

fn reading(timestamp: i64, sensor: i32, power: i32) -> CurrentCostReading {
    CurrentCostReading {
        timestamp,
        device: String::from("CC128-v1.29"),
        sensor,
        temperature: String::from("21.4"),
        power,
    }
}

#[test]
fn log_line_is_read_back() {
    let cases = [
        (0i64, 0, 0),
        (1566315642, 3, 479),
        (-1, 9, 1),
        (2147483647, 2147483647, 2147483647),
        (-2147483648, 10, 100),
    ];
    for (timestamp, sensor, power) in cases {
        for degrees in [21.4f32, -0.004, 1e10, f32::INFINITY, f32::NEG_INFINITY, f32::NAN] {
            let line = reading(timestamp, sensor, power).to_log(&format!("{:.2}", degrees)).unwrap();
            assert_eq!(
                parse_line(&line),
                Ok(CurrentcostLine { timestamp: timestamp as i32, sensor, power })
            );
        }
    }
}

#[test]
fn negative_sensor_and_power_are_written_with_their_sign() {
    let line = reading(-62, -3, -40).to_log("-5.25").unwrap();
    assert_eq!(line, "31/12/1969 23:58:58, -62, Sensor -3, -5.25°C, -40W\n");
    assert_eq!(parse_line(&line), Ok(CurrentcostLine { timestamp: -62, sensor: 3, power: 40 }));
}

#[test]
fn capture_instant_beyond_a_record_is_not_read_back() {
    let line = reading(4102444800, 1, 2).to_log("0.00").unwrap();
    assert_eq!(line, "01/01/2100 00:00:00, 4102444800, Sensor 1, 0.00°C, 2W\n");
    assert!(parse_line(&line).is_err());
}

#[test]
fn no_line_without_a_rendering_with_two_decimals() {
    let r = reading(1566315642, 0, 3000);
    for degrees in ["", "24.8", "24.800", "24", ".80", "2,4.80", "+24.80", "24.8o", "Inf", "nan", " 24.80", "-", "-.00"] {
        assert!(r.to_log(degrees).is_none());
    }
    for degrees in ["24.80", "-24.80", "0.00", "-0.00", "inf", "-inf", "NaN", "123456789012345678901234567890.12"] {
        assert!(r.to_log(degrees).is_some());
    }
}

#[test]
fn no_line_for_an_instant_without_a_date() {
    assert!(reading(i64::MAX, 0, 0).to_log("0.00").is_none());
    assert!(reading(i64::MIN, 0, 0).to_log("0.00").is_none());
}

#[test]
fn years_beyond_four_digits_are_written_with_a_sign() {
    let line = reading(253402300800, 0, 0).to_log("0.00").unwrap();
    assert_eq!(line, "01/01/+10000 00:00:00, 253402300800, Sensor 0, 0.00°C, 0W\n");
}

#[test]
fn a_written_line_has_five_fields_and_one_line_feed() {
    for (timestamp, sensor, power) in [(0i64, 0, 0), (-62, -3, -40), (253402300800, 7, 1)] {
        for degrees in ["21.40", "-0.00", "inf", "-inf", "NaN"] {
            let line = reading(timestamp, sensor, power).to_log(degrees).unwrap();
            assert_eq!(line.split(',').count(), 5);
            assert!(line.ends_with('\n'));
            assert_eq!(line.matches('\n').count(), 1);
        }
    }
}

#[test]
fn the_device_plays_no_part_in_the_line() {
    let mut one = reading(1566315642, 0, 3000);
    let mut other = reading(1566315642, 0, 3000);
    one.device = String::from("CC128-v1.29");
    other.device = String::from("another, device\n");
    other.temperature = String::from("99");
    assert_eq!(one.to_log("24.80"), other.to_log("24.80"));
}

#[test]
fn a_line_is_written_from_its_parts() {
    assert_eq!(
        write_log_line("20/08/2019 15:40:42", 1566315642, 0, "24.80", 3000),
        "20/08/2019 15:40:42, 1566315642, Sensor 0, 24.80°C, 3000W\n"
    );
    assert_eq!(write_log_line("", -1, -2, "", -3), ", -1, Sensor -2, °C, -3W\n");
}

#[test]
fn a_log_of_written_lines_is_read_back() {
    let readings = [
        reading(1566315642, 0, 3000),
        reading(0, 1, 0),
        reading(-5, 2, 17),
        reading(2147483647, 2147483647, 2147483647),
        reading(1566315642, 9, 1),
    ];
    let mut contents = String::new();
    let mut expected = Vec::new();
    for r in &readings {
        contents.push_str(&r.to_log("21.40").unwrap());
        expected.push(CurrentcostLine { timestamp: r.timestamp as i32, sensor: r.sensor, power: r.power });
    }
    assert_eq!(parse_and_filter_log(&contents, 0), expected);
    assert_eq!(parse_and_filter_log("", 0), vec![]);
}
