use currentcost::message::{
    get_element_from_xmldoc, parse_line_from_device, reading_from_nodes, ParseError, XmlNode,
};

#[test]
fn connect_line_gets_parsed() {
    let sample_text = " <msg><src>CC128-v1.29</src><dsb>02353</dsb><time>10:27:59</time><tmpr>21.4</tmpr><sensor>0</sensor><id>04066</id><type>1</type><ch1><watts>00479</watts></ch1></msg>";
    let parsed = parse_line_from_device(sample_text).unwrap();

    assert_eq!("CC128-v1.29", parsed.device);
    assert_eq!(0, parsed.sensor);
    assert_eq!(479, parsed.power);
    assert_eq!(21.4, parsed.temperature.parse::<f32>().unwrap());
}

#[test]
fn invalid_lines_return_errors() {
    let mut sample_text = "<msg><src>CC128-v1.29</src><dsb>02353</dsb><time>10:27:59</time><tmpr>21.4</tmpr><sensor>0</sensor><id>04066</id><type>1</type><ch1><watts>p</watts></ch1></msg>";
    let parse_result = parse_line_from_device(sample_text);

    assert!(parse_result.is_err());

    sample_text = "<msg><src>CC128-v1.29</src><dsb>02353</dsb><time>10:27:59</time><tmpr>2a.4</tmpr><sensor>0</sensor><id>04066</id><type>1</type><ch1><watts>00479</watts></ch1></msg>";
    let parse_result = parse_line_from_device(sample_text);
    assert!(parse_result.is_err());

    sample_text = "<msg><src>CC128-v1.29</src><dsb>02353</dsb><time>10:27:59</time><tmpr>20.4</tmpr><sensor>p</sensor><id>04066</id><type>1</type><ch1><watts>00479</watts></ch1></msg>";
    let parse_result = parse_line_from_device(sample_text);
    assert!(parse_result.is_err());
}

#[test]
fn history_line_gets_ignored() {
    let sample_text = "<msg><src>CC128-v1.29</src><dsb>02371</dsb><time>09:23:30</time><hist><dsw>02373</dsw><type>1</type><units>kwhr</units><data><sensor>0</sensor><m003>597.250</m003><m002>681.250</m002><m001>613.250</m001></data><data><sensor>1</sensor><m003>4.750</m003><m002>2.250</m002><m001>2.000</m001></data><data><sensor>2</sensor><m003>0.000</m003><m002>0.000</m002><m001>0.000</m001></data><data><sensor>3</sensor><m003>0.000</m003><m002>0.000</m002><m001>0.000</m001></data><data><sensor>4</sensor><m003>0.000</m003><m002>0.000</m002><m001>0.000</m001></data><data><sensor>5</sensor><m003>0.000</m003><m002>0.000</m002><m001>0.000</m001></data><data><sensor>6</sensor><m003>0.000</m003><m002>0.000</m002><m001>0.000</m001></data><data><sensor>7</sensor><m003>0.000</m003><m002>0.000</m002><m001>0.000</m001></data><data><sensor>8</sensor><m003>0.000</m003><m002>0.000</m002><m001>0.000</m001></data><data><sensor>9</sensor><m003>0.000</m003><m002>0.000</m002><m001>0.000</m001></data></hist></msg>";
    let parse_result = parse_line_from_device(sample_text);
    assert!(parse_result.is_err());
}

#[test]
fn history_line_gets_ignored_again() {
    let sample_text = "<msg><src>CC128-v1.29</src><dsb>02371</dsb><time>23:01:20</time><hist><dsw>02373</dsw><type>1</type><units>kwhr</units><data><sensor>0</sensor><h730>1.799</h730><h728>1.553</h728><h726>2.986</h726><h724>1.125</h724></data><data><sensor>1</sensor><h730>0.000</h730><h728>0.000</h728><h726>0.023</h726><h724>0.000</h724></data><data><sensor>2</sensor><h730>0.000</h730><h728>0.000</h728><h726>0.000</h726><h724>0.000</h724></data><data><sensor>3</sensor><h730>0.000</h730><h728>0.000</h728><h726>0.000</h726><h724>0.000</h724></data><data><sensor>4</sensor><h730>0.000</h730><h728>0.000</h728><h726>0.000</h726><h724>0.000</h724></data><data><sensor>5</sensor><h730>0.000</h730><h728>0.000</h728><h726>0.000</h726><h724>0.000</h724></data><data><sensor>6</sensor><h730>0.000</h730><h728>0.000</h728><h726>0.000</h726><h724>0.000</h724></data><data><sensor>7</sensor><h730>0.000</h730><h728>0.000</h728><h726>0.000</h726><h724>0.000</h724></data><data><sensor>8</sensor><h730>0.000</h730><h728>0.000</h728><h726>0.000</h726><h724>0.000</h724></data><data><sensor>9</sensor><h730>0.000</h730><h728>0.000</h728><h726>0.000</h726><h724>0.000</h724></data></hist></msg>\n<msg>";
    let parse_result = parse_line_from_device(sample_text);
    assert!(parse_result.is_err());
}

fn error_of(text: &str) -> ParseError {
    parse_line_from_device(text).unwrap_err()
}

#[test]
fn errors_come_in_the_order_of_the_fields() {
    assert_eq!(error_of("<msg>"), ParseError::Malformed);
    assert_eq!(error_of(""), ParseError::Malformed);
    assert_eq!(error_of("<msg><watts>p</watts></msg>"), ParseError::MissingDevice);
    assert_eq!(error_of("<msg><src>a</src><tmpr>x</tmpr></msg>"), ParseError::MissingPower);
    assert_eq!(
        error_of("<msg><src>a</src><watts>p</watts><tmpr>x</tmpr></msg>"),
        ParseError::InvalidPower
    );
    assert_eq!(
        error_of("<msg><src>a</src><watts>1</watts><sensor>p</sensor></msg>"),
        ParseError::MissingTemperature
    );
    assert_eq!(
        error_of("<msg><src>a</src><watts>1</watts><tmpr>2a.4</tmpr></msg>"),
        ParseError::InvalidTemperature
    );
    assert_eq!(
        error_of("<msg><src>a</src><watts>1</watts><tmpr>2.4</tmpr></msg>"),
        ParseError::MissingSensor
    );
    assert_eq!(
        error_of("<msg><src>a</src><watts>1</watts><tmpr>2.4</tmpr><sensor>p</sensor></msg>"),
        ParseError::InvalidSensor
    );
}

#[test]
fn a_tag_that_occurs_twice_counts_as_missing() {
    assert_eq!(
        error_of("<msg><src>a</src><src>b</src><watts>1</watts><tmpr>2</tmpr><sensor>0</sensor></msg>"),
        ParseError::MissingDevice
    );
    assert_eq!(
        error_of("<msg><src>a</src><ch1><watts>1</watts></ch1><ch2><watts>2</watts></ch2><tmpr>2</tmpr><sensor>0</sensor></msg>"),
        ParseError::MissingPower
    );
    assert_eq!(
        error_of("<msg><src>a</src><watts>1</watts><tmpr>2</tmpr><sensor>0</sensor><d><sensor>1</sensor></d></msg>"),
        ParseError::MissingSensor
    );
}

#[test]
fn a_tag_without_text_is_there_with_an_empty_text() {
    assert_eq!(
        error_of("<msg><src>A</src><tmpr>21.4</tmpr><sensor>0</sensor><ch1><watts></watts></ch1></msg>"),
        ParseError::InvalidPower
    );
    assert_eq!(
        error_of("<msg><src>a</src><watts/><tmpr>2</tmpr><sensor>0</sensor></msg>"),
        ParseError::InvalidPower
    );
    assert_eq!(
        error_of("<msg><src>a</src><watts><w>1</w></watts><tmpr>2</tmpr><sensor>0</sensor></msg>"),
        ParseError::InvalidPower
    );
    assert_eq!(
        error_of("<msg><src>a</src><watts>1</watts><tmpr/><sensor>0</sensor></msg>"),
        ParseError::InvalidTemperature
    );
    assert_eq!(
        error_of("<msg><src>a</src><watts>1</watts><tmpr>2</tmpr><sensor></sensor></msg>"),
        ParseError::InvalidSensor
    );
}

#[test]
fn an_empty_device_name_is_taken_as_it_stands() {
    let reading = parse_line_from_device(
        "<msg><src></src><watts>1</watts><tmpr>2</tmpr><sensor>0</sensor></msg>",
    )
    .unwrap();
    assert_eq!(reading.device, "");
    assert_eq!(reading.power, 1);
    let reading =
        parse_line_from_device("<msg><src/><watts>1</watts><tmpr>2</tmpr><sensor>0</sensor></msg>")
            .unwrap();
    assert_eq!(reading.device, "");
}

#[test]
fn a_history_message_with_an_empty_device_misses_its_power() {
    assert_eq!(
        error_of("<msg><src></src><hist><data><sensor>0</sensor><m001>1.5</m001></data><data><sensor>1</sensor><m001>2.5</m001></data></hist></msg>"),
        ParseError::MissingPower
    );
    assert_eq!(
        error_of("<msg><src>CC128-v1.29</src><hist><data><sensor>0</sensor><m001>1.5</m001></data><data><sensor>1</sensor><m001>2.5</m001></data></hist></msg>"),
        ParseError::MissingPower
    );
}

#[test]
fn numbers_are_taken_as_the_tags_hold_them() {
    let reading = parse_line_from_device(
        "<msg><sensor>+7</sensor><tmpr>-1.5e1</tmpr><watts>-00012</watts><src>x y</src></msg>",
    )
    .unwrap();
    assert_eq!(reading.device, "x y");
    assert_eq!(reading.sensor, 7);
    assert_eq!(reading.power, -12);
    assert_eq!(reading.temperature, "-1.5e1");
    assert_eq!(reading.temperature.parse::<f32>().unwrap(), -15.0);
    assert_eq!(
        error_of("<msg><sensor>7</sensor><tmpr>1</tmpr><watts> 12</watts><src>x</src></msg>"),
        ParseError::InvalidPower
    );
    assert_eq!(
        error_of("<msg><sensor>7</sensor><tmpr>1</tmpr><watts>2147483648</watts><src>x</src></msg>"),
        ParseError::InvalidPower
    );
}

#[test]
fn a_reading_is_stamped_with_the_present_instant() {
    let before = std::time::SystemTime::now()
        .duration_since(std::time::UNIX_EPOCH)
        .unwrap()
        .as_secs() as i64;
    let reading = parse_line_from_device(
        "<msg><src>a</src><watts>1</watts><tmpr>2</tmpr><sensor>0</sensor></msg>",
    )
    .unwrap();
    assert!(reading.timestamp >= before);
    assert!(reading.timestamp <= before + 60);
}

fn element(name: &str, text: Option<&str>) -> XmlNode {
    XmlNode { element: true, name: String::from(name), text: text.map(String::from) }
}

fn other(text: &str) -> XmlNode {
    XmlNode { element: false, name: String::new(), text: Some(String::from(text)) }
}

#[test]
fn element_text_needs_the_expected_count() {
    let nodes = vec![
        other("root"),
        element("msg", None),
        element("a", Some("one")),
        other("one"),
        element("b", Some("two")),
        element("b", Some("three")),
        element("c", None),
        XmlNode { element: false, name: String::from("d"), text: Some(String::from("no")) },
    ];
    assert_eq!(get_element_from_xmldoc(&nodes, "a", 1), Some(String::from("one")));
    assert_eq!(get_element_from_xmldoc(&nodes, "a", 2), None);
    assert_eq!(get_element_from_xmldoc(&nodes, "b", 1), None);
    assert_eq!(get_element_from_xmldoc(&nodes, "b", 2), Some(String::from("two")));
    assert_eq!(get_element_from_xmldoc(&nodes, "c", 1), Some(String::new()));
    assert_eq!(get_element_from_xmldoc(&nodes, "d", 1), None);
    assert_eq!(get_element_from_xmldoc(&nodes, "e", 0), None);
    assert_eq!(get_element_from_xmldoc(&nodes, "e", 1), None);
    assert_eq!(get_element_from_xmldoc(&nodes, "", 1), None);
}

#[test]
fn reading_from_given_nodes() {
    let nodes = vec![
        element("msg", None),
        element("src", Some("CC128-v1.29")),
        element("tmpr", Some("21.4")),
        element("sensor", Some("0")),
        element("ch1", None),
        element("watts", Some("00479")),
    ];
    let reading = reading_from_nodes(&nodes, 1555188288).unwrap();
    assert_eq!(reading.timestamp, 1555188288);
    assert_eq!(reading.device, "CC128-v1.29");
    assert_eq!(reading.sensor, 0);
    assert_eq!(reading.temperature, "21.4");
    assert_eq!(reading.power, 479);
    assert_eq!(reading_from_nodes(&vec![], 5).unwrap_err(), ParseError::MissingDevice);
    let nodes = vec![
        element("src", None),
        element("tmpr", Some("21.4")),
        element("sensor", Some("0")),
        element("watts", None),
    ];
    assert_eq!(reading_from_nodes(&nodes, 5).unwrap_err(), ParseError::InvalidPower);
}

#[test]
fn parse_error_messages() {
    assert_eq!(ParseError::Malformed.message(), "Error parsing XML");
    assert_eq!(ParseError::MissingDevice.message(), "No device found in data");
    assert_eq!(ParseError::MissingPower.message(), "No power value found in data");
    assert_eq!(
        ParseError::InvalidPower.message(),
        "Invalid power value - couldn't parse an an integer"
    );
    assert_eq!(ParseError::MissingTemperature.message(), "No temperature value found in data");
    assert_eq!(
        ParseError::InvalidTemperature.message(),
        "Invalid temperature value - couldn't parse a float"
    );
    assert_eq!(ParseError::MissingSensor.message(), "No sensor value found in data");
    assert_eq!(
        ParseError::InvalidSensor.message(),
        "Invalid sensor ID - couldn't parse as an integer"
    );
}
