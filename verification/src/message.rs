//! The parser of the device's messages.
//!
//! A message is a small document of nested tags. A reading is taken from it
//! only where each of the four tags `src`, `watts`, `tmpr` and `sensor`
//! occurs exactly once, anywhere in the document; a message with a history
//! block, in which these tags occur many times or not at all, gives none.

use crate::clock::now_seconds;
use crate::decimal::{i32_value, parse_integer};
use crate::number_text::{is_number_chars, is_number_text};
use crate::reading::{CurrentCostReading, ReadingView};
use crate::text::{chars_of, same_text};
use vstd::prelude::*;

verus! {

/// One node of a parsed document, with what the parser reads of it.
#[derive(Clone, Debug)]
pub struct XmlNode {
    /// Whether the node is an element, and not text, a comment, a
    /// processing instruction or the root.
    pub element: bool,
    /// The local name of the element's tag; empty for other nodes.
    pub name: String,
    /// The node's text: for an element that of its first child, where that
    /// child is text.
    pub text: Option<String>,
}

/// What a node holds.
pub struct XmlNodeView {
    pub element: bool,
    pub name: Seq<char>,
    pub text: Option<Seq<char>>,
}

impl View for XmlNode {
    type V = XmlNodeView;

    open spec fn view(&self) -> XmlNodeView {
        XmlNodeView {
            element: self.element,
            name: self.name@,
            text: match self.text {
                Some(text) => Some(text@),
                None => None,
            },
        }
    }
}

/// What a vector of nodes holds.
pub open spec fn nodes_of(nodes: Seq<XmlNode>) -> Seq<XmlNodeView> {
    Seq::new(nodes.len(), |i: int| nodes[i]@)
}

/// The nodes of the document that `text` is, the root first and then in the
/// order of the document; `None` where `text` is not a well-formed document.
pub uninterp spec fn document_nodes(text: Seq<char>) -> Option<Seq<XmlNodeView>>;

/// The error of `roxmltree`.
#[verifier::external_type_specification]
#[verifier::external_body]
pub struct ExXmlError(roxmltree::Error);

/// Parses a document with `roxmltree::Document::parse` and hands out each
/// node that `Document::descendants` yields, in its order, as what
/// `Node::is_element`, `Node::tag_name` and `Node::text` say of it. The
/// result is named: the nodes of the text, or an error where the text has
/// none.
#[verifier::external_body]
fn read_document(text: &str) -> (result: Result<Vec<XmlNode>, roxmltree::Error>)
    ensures
        match result {
            Ok(nodes) => document_nodes(text@) == Some(nodes_of(nodes@)),
            Err(_) => document_nodes(text@) is None,
        },
{
    let document = roxmltree::Document::parse(text)?;
    Ok(
        document.descendants().map(
            |node|
                XmlNode {
                    element: node.is_element(),
                    name: String::from(node.tag_name().name()),
                    text: node.text().map(String::from),
                },
        ).collect(),
    )
}

/// Why a message gave no reading.
#[derive(Clone, Copy, Debug, PartialEq, Eq, Structural)]
pub enum ParseError {
    /// The message is not a well-formed document.
    Malformed,
    /// There is not exactly one `src` tag.
    MissingDevice,
    /// There is not exactly one `watts` tag.
    MissingPower,
    /// The text of the `watts` tag is not an integer.
    InvalidPower,
    /// There is not exactly one `tmpr` tag.
    MissingTemperature,
    /// The text of the `tmpr` tag is not a number.
    InvalidTemperature,
    /// There is not exactly one `sensor` tag.
    MissingSensor,
    /// The text of the `sensor` tag is not an integer.
    InvalidSensor,
}

impl ParseError {
    /// A field was not found.
    pub open spec fn is_missing(self) -> bool {
        self == ParseError::MissingDevice || self == ParseError::MissingPower || self
            == ParseError::MissingTemperature || self == ParseError::MissingSensor
    }

    /// A field was found and its text is not a number of its kind.
    pub open spec fn is_invalid(self) -> bool {
        self == ParseError::InvalidPower || self == ParseError::InvalidTemperature || self
            == ParseError::InvalidSensor
    }

    /// The text of the error.
    pub open spec fn message_spec(self) -> Seq<char> {
        match self {
            ParseError::Malformed => "Error parsing XML"@,
            ParseError::MissingDevice => "No device found in data"@,
            ParseError::MissingPower => "No power value found in data"@,
            ParseError::InvalidPower => "Invalid power value - couldn't parse an an integer"@,
            ParseError::MissingTemperature => "No temperature value found in data"@,
            ParseError::InvalidTemperature => "Invalid temperature value - couldn't parse a float"@,
            ParseError::MissingSensor => "No sensor value found in data"@,
            ParseError::InvalidSensor => "Invalid sensor ID - couldn't parse as an integer"@,
        }
    }

    /// The text of the error, for a report.
    pub fn message(&self) -> (text: &'static str)
        ensures
            text@ == self.message_spec(),
    {
        match self {
            ParseError::Malformed => "Error parsing XML",
            ParseError::MissingDevice => "No device found in data",
            ParseError::MissingPower => "No power value found in data",
            ParseError::InvalidPower => "Invalid power value - couldn't parse an an integer",
            ParseError::MissingTemperature => "No temperature value found in data",
            ParseError::InvalidTemperature => "Invalid temperature value - couldn't parse a float",
            ParseError::MissingSensor => "No sensor value found in data",
            ParseError::InvalidSensor => "Invalid sensor ID - couldn't parse as an integer",
        }
    }
}

/// The test for an element with a tag name, as a value that `Seq::filter`
/// takes.
pub open spec fn has_tag(name: Seq<char>) -> spec_fn(XmlNodeView) -> bool {
    |node: XmlNodeView| node.element && node.name == name
}

/// The elements with the tag name `name`, in the order of the document.
pub open spec fn tagged(nodes: Seq<XmlNodeView>, name: Seq<char>) -> Seq<XmlNodeView> {
    nodes.filter(has_tag(name))
}

/// The text of a node, which is empty where the node has none.
pub open spec fn node_text(node: XmlNodeView) -> Seq<char> {
    match node.text {
        Some(text) => text,
        None => Seq::empty(),
    }
}

/// The text of the first element with the tag name `name`, where there are
/// exactly `expected_count` such elements, and at least one; `None` where
/// their number is another. An element without text has the empty text.
pub open spec fn element_text(nodes: Seq<XmlNodeView>, name: Seq<char>, expected_count: int) -> Option<
    Seq<char>,
> {
    let found = tagged(nodes, name);
    if found.len() == expected_count && found.len() > 0 {
        Some(node_text(found[0]))
    } else {
        None
    }
}

/// The reading that a document's nodes give at the capture instant
/// `timestamp`, or the first error in the order device, power, temperature,
/// sensor. A field is missing where its tag does not occur exactly once,
/// whatever its text; it is invalid where the tag occurs once and its text,
/// which may be empty, is not a number of its kind. The device's name is
/// taken as it stands, also where it is empty.
pub open spec fn reading_spec(nodes: Seq<XmlNodeView>, timestamp: i64) -> Result<
    ReadingView,
    ParseError,
> {
    let device = element_text(nodes, "src"@, 1);
    let power = element_text(nodes, "watts"@, 1);
    let temperature = element_text(nodes, "tmpr"@, 1);
    let sensor = element_text(nodes, "sensor"@, 1);
    if device is None {
        Err(ParseError::MissingDevice)
    } else if power is None {
        Err(ParseError::MissingPower)
    } else if i32_value(power->0) is None {
        Err(ParseError::InvalidPower)
    } else if temperature is None {
        Err(ParseError::MissingTemperature)
    } else if !is_number_text(temperature->0) {
        Err(ParseError::InvalidTemperature)
    } else if sensor is None {
        Err(ParseError::MissingSensor)
    } else if i32_value(sensor->0) is None {
        Err(ParseError::InvalidSensor)
    } else {
        Ok(
            ReadingView {
                timestamp: timestamp as int,
                device: device->0,
                sensor: i32_value(sensor->0)->0 as int,
                temperature: temperature->0,
                power: i32_value(power->0)->0 as int,
            },
        )
    }
}

/// What a message gives at the capture instant `timestamp`.
pub open spec fn message_spec(line: Seq<char>, timestamp: i64) -> Result<ReadingView, ParseError> {
    match document_nodes(line) {
        Some(nodes) => reading_spec(nodes, timestamp),
        None => Err(ParseError::Malformed),
    }
}

/// A result by what it holds.
pub open spec fn result_view(result: Result<CurrentCostReading, ParseError>) -> Result<
    ReadingView,
    ParseError,
> {
    match result {
        Ok(reading) => Ok(reading@),
        Err(error) => Err(error),
    }
}

/// The capture instant of a reading, and zero where there is none.
pub open spec fn instant_of(result: Result<CurrentCostReading, ParseError>) -> i64 {
    match result {
        Ok(reading) => reading.timestamp,
        Err(_) => 0,
    }
}

/// Each of the four tags occurs exactly once, and the four texts are those
/// of its elements.
pub open spec fn single_reading(
    nodes: Seq<XmlNodeView>,
    device: Seq<char>,
    power: Seq<char>,
    temperature: Seq<char>,
    sensor: Seq<char>,
) -> bool {
    &&& tagged(nodes, "src"@).len() == 1 && node_text(tagged(nodes, "src"@)[0]) == device
    &&& tagged(nodes, "watts"@).len() == 1 && node_text(tagged(nodes, "watts"@)[0]) == power
    &&& tagged(nodes, "tmpr"@).len() == 1 && node_text(tagged(nodes, "tmpr"@)[0]) == temperature
    &&& tagged(nodes, "sensor"@).len() == 1 && node_text(tagged(nodes, "sensor"@)[0]) == sensor
}

/// A document with exactly one each of the four tags, whose texts are a
/// name, an integer, a number and an integer, gives a reading with exactly
/// these: the name and the temperature as they stand, the integers by their
/// value.
pub proof fn lemma_single_reading_is_accepted(
    nodes: Seq<XmlNodeView>,
    timestamp: i64,
    device: Seq<char>,
    power: Seq<char>,
    temperature: Seq<char>,
    sensor: Seq<char>,
)
    requires
        single_reading(nodes, device, power, temperature, sensor),
        i32_value(power) is Some,
        is_number_text(temperature),
        i32_value(sensor) is Some,
    ensures
        reading_spec(nodes, timestamp) matches Ok(reading) && reading == (ReadingView {
            timestamp: timestamp as int,
            device,
            sensor: i32_value(sensor)->0 as int,
            temperature,
            power: i32_value(power)->0 as int,
        }),
{
}

/// A document in which one of the four tags does not occur exactly once
/// gives no reading, whatever else it holds. The first such tag in the order
/// device, power, temperature, sensor is reported as missing, unless a field
/// before it is invalid: a history block with one `src` tag, many `sensor`
/// tags and no `watts` tag misses its power.
pub proof fn lemma_repeated_or_absent_tag_is_rejected(
    nodes: Seq<XmlNodeView>,
    timestamp: i64,
)
    requires
        tagged(nodes, "src"@).len() != 1 || tagged(nodes, "watts"@).len() != 1 || tagged(
            nodes,
            "tmpr"@,
        ).len() != 1 || tagged(nodes, "sensor"@).len() != 1,
    ensures
        reading_spec(nodes, timestamp) is Err,
        tagged(nodes, "src"@).len() != 1 ==> reading_spec(nodes, timestamp)->Err_0
            == ParseError::MissingDevice,
        tagged(nodes, "src"@).len() == 1 && tagged(nodes, "watts"@).len() != 1 ==> reading_spec(
            nodes,
            timestamp,
        )->Err_0 == ParseError::MissingPower,
        tagged(nodes, "src"@).len() == 1 && i32_value(element_text(nodes, "watts"@, 1)->0) is Some
            && tagged(nodes, "tmpr"@).len() != 1 && tagged(nodes, "watts"@).len() == 1
            ==> reading_spec(nodes, timestamp)->Err_0 == ParseError::MissingTemperature,
        tagged(nodes, "src"@).len() == 1 && tagged(nodes, "watts"@).len() == 1 && i32_value(
            element_text(nodes, "watts"@, 1)->0,
        ) is Some && tagged(nodes, "tmpr"@).len() == 1 && is_number_text(
            element_text(nodes, "tmpr"@, 1)->0,
        ) ==> reading_spec(nodes, timestamp)->Err_0 == ParseError::MissingSensor,
{
}

/// A document with exactly one each of the four tags, of which one that is
/// to be a number has a text that is none, be it empty, is rejected as
/// invalid, and not as missing a field.
pub proof fn lemma_non_numeric_field_is_invalid(
    nodes: Seq<XmlNodeView>,
    timestamp: i64,
    device: Seq<char>,
    power: Seq<char>,
    temperature: Seq<char>,
    sensor: Seq<char>,
)
    requires
        single_reading(nodes, device, power, temperature, sensor),
        i32_value(power) is None || !is_number_text(temperature) || i32_value(sensor) is None,
    ensures
        reading_spec(nodes, timestamp) is Err,
        reading_spec(nodes, timestamp)->Err_0.is_invalid(),
        !reading_spec(nodes, timestamp)->Err_0.is_missing(),
        i32_value(power) is None ==> reading_spec(nodes, timestamp)->Err_0
            == ParseError::InvalidPower,
        power.len() == 0 ==> reading_spec(nodes, timestamp)->Err_0 == ParseError::InvalidPower,
{
}

/// The text of the first element with the tag name `element_name`, where
/// there are exactly `expected_count` such elements among `nodes`, and at
/// least one; `None` where their number is another. An element without text
/// has the empty text.
pub fn get_element_from_xmldoc(nodes: &Vec<XmlNode>, element_name: &str, expected_count: usize) -> (text:
    Option<String>)
    ensures
        match text {
            Some(found) => element_text(nodes_of(nodes@), element_name@, expected_count as int)
                == Some(found@),
            None => element_text(nodes_of(nodes@), element_name@, expected_count as int) is None,
        },
{
    let ghost all = nodes_of(nodes@);
    let ghost test = has_tag(element_name@);
    let mut count: usize = 0;
    let mut first: usize = 0;
    let mut i: usize = 0;
    proof {
        reveal(Seq::filter);
        assert(all.take(0) == Seq::<XmlNodeView>::empty());
    }
    while i < nodes.len()
        invariant
            i <= nodes.len(),
            all == nodes_of(nodes@),
            test == has_tag(element_name@),
            count == all.take(i as int).filter(test).len(),
            count <= i,
            count > 0 ==> first < i && all.take(i as int).filter(test)[0] == all[first as int],
        decreases nodes.len() - i,
    {
        proof {
            reveal(Seq::filter);
            assert(all.take(i + 1).drop_last() == all.take(i as int));
            assert(all.take(i + 1).last() == nodes[i as int]@);
        }
        if nodes[i].element && same_text(nodes[i].name.as_str(), element_name) {
            if count == 0 {
                first = i;
            }
            count += 1;
        }
        i += 1;
    }
    assert(all.take(i as int) == all);
    if count != expected_count || count == 0 {
        return None;
    }
    match &nodes[first].text {
        Some(text) => Some(text.clone()),
        None => Some(String::new()),
    }
}

/// The reading that a document's nodes give at the capture instant
/// `timestamp`, or why they give none.
pub fn reading_from_nodes(nodes: &Vec<XmlNode>, timestamp: i64) -> (result: Result<
    CurrentCostReading,
    ParseError,
>)
    ensures
        result_view(result) == reading_spec(nodes_of(nodes@), timestamp),
{
    let device = match get_element_from_xmldoc(nodes, "src", 1) {
        Some(text) => text,
        None => {
            return Err(ParseError::MissingDevice);
        },
    };
    let watts = match get_element_from_xmldoc(nodes, "watts", 1) {
        Some(text) => text,
        None => {
            return Err(ParseError::MissingPower);
        },
    };
    let power = match parse_integer(&chars_of(watts.as_str())) {
        Some(value) => value,
        None => {
            return Err(ParseError::InvalidPower);
        },
    };
    let temperature = match get_element_from_xmldoc(nodes, "tmpr", 1) {
        Some(text) => text,
        None => {
            return Err(ParseError::MissingTemperature);
        },
    };
    if !is_number_chars(&chars_of(temperature.as_str())) {
        return Err(ParseError::InvalidTemperature);
    }
    let sens = match get_element_from_xmldoc(nodes, "sensor", 1) {
        Some(text) => text,
        None => {
            return Err(ParseError::MissingSensor);
        },
    };
    let sensor = match parse_integer(&chars_of(sens.as_str())) {
        Some(value) => value,
        None => {
            return Err(ParseError::InvalidSensor);
        },
    };
    Ok(CurrentCostReading { timestamp, device, sensor, temperature, power })
}

/// Parses one message of the device. A reading gets the present instant as
/// its capture instant; everything else is decided by the message alone.
pub fn parse_line_from_device(line: &str) -> (result: Result<CurrentCostReading, ParseError>)
    ensures
        result_view(result) == message_spec(line@, instant_of(result)),
{
    let nodes = match read_document(line) {
        Ok(nodes) => nodes,
        Err(_) => {
            return Err(ParseError::Malformed);
        },
    };
    reading_from_nodes(&nodes, now_seconds())
}

} // verus!
