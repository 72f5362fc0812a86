//! The framer of the serial stream.
//!
//! The caller reads from the device and hands each outcome to the framer,
//! which says what to do next. Decoded text is gathered in a buffer. A read
//! whose own text holds a line feed completes a candidate: the whole buffer
//! is handed out as one message, and the buffer starts anew. What follows
//! the line feed in that read goes out with the candidate and is not kept
//! for the next one.

use crate::text::contains_char;
use vstd::prelude::*;
use vstd::string::{StringExecFns, StringSliceAdditionalSpecFns};
use vstd::utf8::{decode_utf8, encode_utf8_decode_utf8, valid_utf8};

verus! {

/// The error of `core::str::from_utf8`.
#[verifier::external_type_specification]
#[verifier::external_body]
pub struct ExUtf8Error(core::str::Utf8Error);

/// `core::str::from_utf8` succeeds exactly on well-formed UTF-8, and the
/// string slice that it gives has the bytes that it was given.
pub assume_specification[ core::str::from_utf8 ](bytes: &[u8]) -> (result: Result<
    &str,
    core::str::Utf8Error,
>)
    ensures
        match result {
            Ok(text) => valid_utf8(bytes@) && text.spec_bytes() == bytes@,
            Err(_) => !valid_utf8(bytes@),
        },
;

/// The text that received bytes contribute: their decoding, and nothing
/// where they are not well-formed UTF-8.
pub open spec fn received_text(bytes: Seq<u8>) -> Seq<char> {
    if valid_utf8(bytes) {
        decode_utf8(bytes)
    } else {
        Seq::empty()
    }
}

/// Decodes received bytes as text. Bytes that are not well-formed UTF-8
/// contribute the empty text.
pub fn received_bytes_to_string(bytes: &[u8]) -> (text: &str)
    ensures
        text@ == received_text(bytes@),
{
    match core::str::from_utf8(bytes) {
        Ok(text) => {
            proof {
                encode_utf8_decode_utf8(text@);
            }
            text
        },
        Err(_) => {
            let nothing = "";
            proof {
                reveal_strlit("");
            }
            assert(nothing@ =~= Seq::<char>::empty());
            nothing
        },
    }
}

/// Well-formed bytes, unless there are none, decode to some text.
proof fn lemma_text_of_bytes(bytes: Seq<u8>)
    requires
        valid_utf8(bytes),
        bytes.len() > 0,
    ensures
        decode_utf8(bytes).len() > 0,
{
}

/// How a read from the device ended.
pub enum ReadOutcome<'a> {
    /// These bytes were read.
    Data(&'a [u8]),
    /// Nothing came before the timeout.
    TimedOut,
    /// The read failed in another way.
    Failed,
}

/// What the caller is to do after a read.
#[derive(Debug)]
pub enum FramerAction {
    /// Read again; there is nothing to report.
    ReadAgain,
    /// Report the failed read, and read again.
    ReportFailure,
    /// Report that the bytes are no text, and read again.
    ReportUndecodable,
    /// Hand this candidate to the message parser, and read again.
    Candidate(String),
}

/// A read by what it holds.
pub enum OutcomeView {
    Data(Seq<u8>),
    TimedOut,
    Failed,
}

/// An action by what it holds.
pub enum ActionView {
    ReadAgain,
    ReportFailure,
    ReportUndecodable,
    Candidate(Seq<char>),
}

impl<'a> View for ReadOutcome<'a> {
    type V = OutcomeView;

    open spec fn view(&self) -> OutcomeView {
        match self {
            ReadOutcome::Data(bytes) => OutcomeView::Data(bytes@),
            ReadOutcome::TimedOut => OutcomeView::TimedOut,
            ReadOutcome::Failed => OutcomeView::Failed,
        }
    }
}

impl View for FramerAction {
    type V = ActionView;

    open spec fn view(&self) -> ActionView {
        match self {
            FramerAction::ReadAgain => ActionView::ReadAgain,
            FramerAction::ReportFailure => ActionView::ReportFailure,
            FramerAction::ReportUndecodable => ActionView::ReportUndecodable,
            FramerAction::Candidate(text) => ActionView::Candidate(text@),
        }
    }
}

/// The buffer after a read, and what the caller is to do.
///
/// A timeout and a failed read leave the buffer as it is. Bytes that are no
/// text are reported and leave it as it is. Text is appended; where the text
/// of this read holds a line feed, the whole buffer is the candidate and the
/// buffer is emptied.
pub open spec fn step_spec(buffer: Seq<char>, outcome: OutcomeView) -> (Seq<char>, ActionView) {
    match outcome {
        OutcomeView::TimedOut => (buffer, ActionView::ReadAgain),
        OutcomeView::Failed => (buffer, ActionView::ReportFailure),
        OutcomeView::Data(bytes) => if !valid_utf8(bytes) {
            (buffer, ActionView::ReportUndecodable)
        } else if decode_utf8(bytes).contains('\n') {
            (Seq::empty(), ActionView::Candidate(buffer + decode_utf8(bytes)))
        } else {
            (buffer + decode_utf8(bytes), ActionView::ReadAgain)
        },
    }
}

/// The buffer and the candidates after a sequence of reads, in their order.
pub open spec fn run_spec(buffer: Seq<char>, outcomes: Seq<OutcomeView>) -> (
    Seq<char>,
    Seq<Seq<char>>,
)
    decreases outcomes.len(),
{
    if outcomes.len() == 0 {
        (buffer, Seq::empty())
    } else {
        let (before, candidates) = run_spec(buffer, outcomes.drop_last());
        let (after, action) = step_spec(before, outcomes.last());
        match action {
            ActionView::Candidate(text) => (after, candidates.push(text)),
            _ => (after, candidates),
        }
    }
}

/// All the text of a sequence of reads, in their order.
pub open spec fn all_text(outcomes: Seq<OutcomeView>) -> Seq<char>
    decreases outcomes.len(),
{
    if outcomes.len() == 0 {
        Seq::empty()
    } else {
        let before = all_text(outcomes.drop_last());
        match outcomes.last() {
            OutcomeView::Data(bytes) => before + received_text(bytes),
            _ => before,
        }
    }
}

/// The texts one after another.
pub open spec fn concat_all(texts: Seq<Seq<char>>) -> Seq<char>
    decreases texts.len(),
{
    if texts.len() == 0 {
        Seq::empty()
    } else {
        concat_all(texts.drop_last()) + texts.last()
    }
}

/// No text is lost or repeated: what was in the buffer and all the text
/// read since is the candidates handed out, one after another, and what is
/// in the buffer now. Every candidate holds a line feed, and the buffer holds
/// none that was read into it.
pub proof fn lemma_framer_keeps_text(buffer: Seq<char>, outcomes: Seq<OutcomeView>)
    ensures
        buffer + all_text(outcomes) == concat_all(run_spec(buffer, outcomes).1) + run_spec(
            buffer,
            outcomes,
        ).0,
        forall|k: int|
            0 <= k < run_spec(buffer, outcomes).1.len() ==> (#[trigger] run_spec(
                buffer,
                outcomes,
            ).1[k]).contains('\n'),
    decreases outcomes.len(),
{
    if outcomes.len() == 0 {
        assert(buffer + Seq::<char>::empty() == Seq::<char>::empty() + buffer);
    } else {
        let shorter = outcomes.drop_last();
        lemma_framer_keeps_text(buffer, shorter);
        let (before, candidates) = run_spec(buffer, shorter);
        let (after, action) = step_spec(before, outcomes.last());
        let read = all_text(shorter);
        match outcomes.last() {
            OutcomeView::Data(bytes) => {
                let text = received_text(bytes);
                assert(buffer + (read + text) == (buffer + read) + text);
                assert((concat_all(candidates) + before) + text == concat_all(candidates) + (before
                    + text));
                if valid_utf8(bytes) && text.contains('\n') {
                    let grown = candidates.push(before + text);
                    assert(grown.drop_last() == candidates);
                    assert(concat_all(grown) + Seq::<char>::empty() == concat_all(grown));
                    assert((before + text).contains('\n')) by {
                        let i = choose|i: int| 0 <= i < text.len() && text[i] == '\n';
                        assert((before + text)[before.len() + i] == '\n');
                    }
                } else if !valid_utf8(bytes) {
                    assert(before + text == before);
                }
            },
            _ => {},
        }
    }
}

/// The framer: the text gathered since the last candidate.
pub struct StreamFramer {
    buffer: String,
}

impl View for StreamFramer {
    type V = Seq<char>;

    closed spec fn view(&self) -> Seq<char> {
        self.buffer@
    }
}

impl StreamFramer {
    /// A framer with an empty buffer.
    pub fn new() -> (framer: StreamFramer)
        ensures
            framer@ == Seq::<char>::empty(),
    {
        StreamFramer { buffer: String::new() }
    }

    /// Takes in the outcome of one read and says what to do next.
    pub fn step(&mut self, outcome: &ReadOutcome) -> (action: FramerAction)
        ensures
            (final(self)@, action@) == step_spec(old(self)@, outcome@),
    {
        match outcome {
            ReadOutcome::TimedOut => FramerAction::ReadAgain,
            ReadOutcome::Failed => FramerAction::ReportFailure,
            ReadOutcome::Data(bytes) => {
                let text = received_bytes_to_string(bytes);
                if text.is_empty() && bytes.len() > 0 {
                    proof {
                        if valid_utf8(bytes@) {
                            lemma_text_of_bytes(bytes@);
                        }
                    }
                    return FramerAction::ReportUndecodable;
                }
                self.buffer.append(text);
                if contains_char(text, '\n') {
                    let mut candidate = String::new();
                    core::mem::swap(&mut self.buffer, &mut candidate);
                    FramerAction::Candidate(candidate)
                } else {
                    FramerAction::ReadAgain
                }
            },
        }
    }
}

} // verus!
