//! Deserialize the debug rendering of `std::backtrace::Backtrace` into a
//! structured list of stack frames.
use vstd::prelude::*;

pub mod deser;
pub mod laws;
pub mod text;

verus! {

/// A backtrace frame, as a mathematical value: the function name, with the
/// optional source file and line number.
#[verifier::ext_equal]
pub ghost struct FrameView {
    pub function: Seq<char>,
    pub file: Option<Seq<char>>,
    pub line: Option<int>,
}

/// A backtrace frame.
#[derive(Debug, PartialEq)]
pub struct Frame {
    pub function: String,
    pub file: Option<String>,
    pub line: Option<usize>,
}

impl View for Frame {
    type V = FrameView;

    open spec fn view(&self) -> FrameView {
        FrameView {
            function: self.function@,
            file: match self.file {
                Some(f) => Some(f@),
                None => None,
            },
            line: match self.line {
                Some(n) => Some(n as int),
                None => None,
            },
        }
    }
}

/// A deserialized backtrace: the frames in their textual order, outermost
/// call first.
#[derive(Debug)]
pub struct Backtrace {
    pub frames: Vec<Frame>,
}

impl View for Backtrace {
    type V = Seq<FrameView>;

    open spec fn view(&self) -> Seq<FrameView> {
        self.frames@.map_values(|f: Frame| f@)
    }
}

/// The reason a parse failed, as a mathematical value.
pub ghost enum KindView {
    Disabled,
    Unsupported,
    UnexpectedInput(Seq<char>),
    InvalidInput { expected: Seq<char>, found: Seq<char> },
    LineParse(Seq<char>, LineParseError),
}

/// The reason a parse failed.
#[derive(Debug)]
pub enum Kind {
    /// Capture was turned off when the backtrace was taken.
    Disabled,
    /// Capture is not supported on the running platform.
    Unsupported,
    /// The input matched no recognized shape, or text was left over after
    /// the closing bracket.
    UnexpectedInput(String),
    /// A literal token was expected but a different prefix was found.
    InvalidInput { expected: String, found: String },
    /// The line-number field's text did not parse as a non-negative integer.
    LineParse(String, LineParseError),
}

impl View for Kind {
    type V = KindView;

    open spec fn view(&self) -> KindView {
        match self {
            Kind::Disabled => KindView::Disabled,
            Kind::Unsupported => KindView::Unsupported,
            Kind::UnexpectedInput(s) => KindView::UnexpectedInput(s@),
            Kind::InvalidInput { expected, found } => KindView::InvalidInput {
                expected: expected@,
                found: found@,
            },
            Kind::LineParse(s, e) => KindView::LineParse(s@, *e),
        }
    }
}

/// An error that prevented a backtrace from being deserialized.
#[derive(Debug)]
pub struct Error {
    pub kind: Kind,
}

impl View for Error {
    type V = KindView;

    open spec fn view(&self) -> KindView {
        self.kind@
    }
}

impl From<Kind> for Error {
    fn from(kind: Kind) -> (r: Error) {
        Error { kind }
    }
}

impl vstd::std_specs::convert::FromSpecImpl<Kind> for Error {
    open spec fn obeys_from_spec() -> bool {
        true
    }

    open spec fn from_spec(kind: Kind) -> Error {
        Error { kind }
    }
}

/// Decode frame records from the front of `s` until no list separator
/// follows: the remainder after the last record and separator, and the
/// decoded frames in textual order.
pub open spec fn spec_frames(s: Seq<char>) -> Result<(Seq<char>, Seq<FrameView>), KindView>
    decreases s.len(),
    via spec_frames_dec
{
    match deser::spec_frame(s) {
        Err(k) => Err(k),
        Ok((rest, f)) => {
            let (rest2, comma) = deser::spec_trailing_comma(rest);
            if comma {
                match spec_frames(rest2) {
                    Err(k) => Err(k),
                    Ok((rest3, fs)) => Ok((rest3, seq![f] + fs)),
                }
            } else {
                Ok((rest2, seq![f]))
            }
        },
    }
}

#[via_fn]
proof fn spec_frames_dec(s: Seq<char>) {
    deser::lemma_frame_consumes(s);
    reveal_strlit(", ");
    if deser::spec_frame(s) is Ok {
        let rest = deser::spec_frame(s)->Ok_0.0;
        if text::starts_with(rest, ", "@) {
            assert(rest.skip(2).len() < rest.len());
        }
    }
}

/// Deserialize the full wire text: the header, one or more frame records
/// separated by commas, the closing bracket, and nothing after it.
pub open spec fn spec_deserialize(s: Seq<char>) -> Result<Seq<FrameView>, KindView> {
    match deser::spec_header(s) {
        Err(k) => Err(k),
        Ok(r1) => match spec_frames(r1) {
            Err(k) => Err(k),
            Ok((r2, frames)) => match deser::spec_start(r2, "]"@) {
                Err(k) => Err(k),
                Ok(r3) => if r3.len() == 0 {
                    Ok(frames)
                } else {
                    Err(KindView::UnexpectedInput(r3))
                },
            },
        },
    }
}

/// The parse outcome as a mathematical value: the frames on success, the
/// failure's reason otherwise.
pub open spec fn result_view(r: Result<Backtrace, Error>) -> Result<Seq<FrameView>, KindView> {
    match r {
        Ok(b) => Ok(b@),
        Err(e) => Err(e@),
    }
}

/// Accumulator form of `spec_frames`: decoding the frames of `whole` is
/// decoding `acc` first and the frames of `cur` after it.
spec fn frames_so_far(whole: Seq<char>, acc: Seq<FrameView>, cur: Seq<char>) -> bool {
    match spec_frames(cur) {
        Ok((rf, fs)) => spec_frames(whole) == Ok::<(Seq<char>, Seq<FrameView>), KindView>(
            (rf, acc + fs),
        ),
        Err(k) => spec_frames(whole) == Err::<(Seq<char>, Seq<FrameView>), KindView>(k),
    }
}

/// Deserialize a backtrace from its debug-format text.
pub fn deserialize_str(bt: &str) -> (r: Result<Backtrace, Error>)
    ensures
        result_view(r) == spec_deserialize(bt@),
{
    let mut frames: Vec<Frame> = Vec::new();
    let mut cur: &str = match deser::header(bt) {
        Ok(rest) => rest,
        Err(e) => return Err(e),
    };
    let ghost whole: Seq<char> = cur@;
    proof {
        assert(frames@.map_values(|f: Frame| f@) + spec_frames(whole)->Ok_0.1 =~= spec_frames(
            whole,
        )->Ok_0.1);
    }
    loop
        invariant_except_break
            deser::spec_header(bt@) == Ok::<Seq<char>, KindView>(whole),
            frames_so_far(whole, frames@.map_values(|f: Frame| f@), cur@),
        ensures
            deser::spec_header(bt@) == Ok::<Seq<char>, KindView>(whole),
            spec_frames(whole) == Ok::<(Seq<char>, Seq<FrameView>), KindView>(
                (cur@, frames@.map_values(|f: Frame| f@)),
            ),
        decreases cur@.len(),
    {
        let ghost prev = cur@;
        let ghost acc = frames@.map_values(|f: Frame| f@);
        let (next, f) = match deser::frame(cur) {
            Ok(p) => p,
            Err(e) => return Err(e),
        };
        frames.push(f);
        proof {
            assert(frames@.map_values(|g: Frame| g@) =~= acc.push(f@));
        }
        let (next2, had_comma) = deser::trailing_comma(next);
        cur = next2;
        proof {
            deser::lemma_frame_consumes(prev);
            reveal_strlit(", ");
            if had_comma {
                if spec_frames(next2@) is Ok {
                    let rf = spec_frames(next2@)->Ok_0.0;
                    let fs = spec_frames(next2@)->Ok_0.1;
                    assert(spec_frames(prev) == Ok::<(Seq<char>, Seq<FrameView>), KindView>(
                        (rf, seq![f@] + fs),
                    ));
                    assert(acc + (seq![f@] + fs) =~= acc.push(f@) + fs);
                }
            } else {
                assert(spec_frames(prev) == Ok::<(Seq<char>, Seq<FrameView>), KindView>(
                    (next2@, seq![f@]),
                ));
                assert(acc + seq![f@] =~= acc.push(f@));
            }
        }
        if !had_comma {
            break ;
        }
    }
    let rest = match deser::close_bracket(cur) {
        Ok(rest) => rest,
        Err(e) => return Err(e),
    };
    if !rest.is_empty() {
        return Err(Error { kind: Kind::UnexpectedInput(rest.to_owned()) });
    }
    Ok(Backtrace { frames })
}

/// Relies on the `Debug` implementation of `std::backtrace::Backtrace` to
/// render the capture as text; nothing is assumed of the resulting text.
#[verifier::external_body]
fn render_debug(bt: &std::backtrace::Backtrace) -> String {
    format!("{:?}", bt)
}

/// Declares `std::backtrace::Backtrace` to the verifier so that signatures
/// may carry it; a value of it stays opaque and is only rendered to text.
#[verifier::external_type_specification]
#[verifier::external_body]
pub struct ExBacktrace(std::backtrace::Backtrace);

/// Render an already-captured backtrace to its debug text and deserialize
/// that text: the outcome is the parse of some rendering of the capture.
pub fn deserialize(bt: &std::backtrace::Backtrace) -> (r: Result<Backtrace, Error>)
    ensures
        exists|t: Seq<char>| #[trigger] spec_deserialize(t) == result_view(r),
{
    let text = render_debug(bt);
    let r = deserialize_str(text.as_str());
    proof {
        assert(spec_deserialize(text@) == result_view(r));
    }
    r
}

/// Why a line-number field failed to parse as a non-negative integer.
#[derive(Debug, Clone, Copy, PartialEq, Eq, Structural)]
pub enum LineParseError {
    /// The field's text was empty.
    Empty,
    /// A character of the field was not a decimal digit.
    InvalidDigit,
    /// The value does not fit in `usize`.
    Overflow,
}

} // verus!
