//! The deserialization steps: literal-token consumption, balanced-delimiter
//! extraction, header recognition, and single-frame decoding. Each step has
//! a spec model over `Seq<char>` and a verified executable counterpart.
use vstd::prelude::*;
use vstd::string::*;

use crate::text::{
    find_at, find_sub, parse_num, parse_usize, str_eq, str_starts_with, starts_with,
    strip_outer_quotes, strip_quotes, trim, trimmed,
};
use crate::{Error, Frame, FrameView, Kind, KindView};

verus! {

/// The prefix of `s` that is reported as `found` when the token `p` was
/// expected: the first `|p|` characters, or all of `s` if it is shorter.
pub open spec fn found_prefix(s: Seq<char>, p: Seq<char>) -> Seq<char> {
    if p.len() <= s.len() {
        s.take(p.len() as int)
    } else {
        s
    }
}

/// Consume the literal token `p` at the front of `s`: the rest on success,
/// or what was expected and found on mismatch.
pub open spec fn spec_start(s: Seq<char>, p: Seq<char>) -> Result<Seq<char>, KindView> {
    if starts_with(s, p) {
        Ok(s.skip(p.len() as int))
    } else {
        Err(KindView::InvalidInput { expected: p, found: found_prefix(s, p) })
    }
}

/// Consume the literal token `expected` at the front of `bt`.
pub fn start<'a>(bt: &'a str, expected: &str) -> (r: Result<&'a str, Error>)
    ensures
        match r {
            Ok(rest) => spec_start(bt@, expected@) == Ok::<Seq<char>, KindView>(rest@),
            Err(e) => spec_start(bt@, expected@) == Err::<Seq<char>, KindView>(e@),
        },
{
    let len = bt.unicode_len();
    let plen = expected.unicode_len();
    if str_starts_with(bt, expected) {
        let rest = bt.substring_char(plen, len);
        assert(rest@ =~= bt@.skip(plen as int));
        Ok(rest)
    } else {
        let upto = if plen <= len {
            plen
        } else {
            len
        };
        let found = bt.substring_char(0, upto).to_owned();
        proof {
            if plen <= len {
                assert(found@ =~= found_prefix(bt@, expected@));
            } else {
                assert(bt@.subrange(0, len as int) =~= bt@);
            }
        }
        Err(Error { kind: Kind::InvalidInput { expected: expected.to_owned(), found } })
    }
}

/// Consume the list separator at the front of `s`, and report whether one
/// stood there; without one, `s` is returned unchanged.
pub open spec fn spec_trailing_comma(s: Seq<char>) -> (Seq<char>, bool) {
    if starts_with(s, ", "@) {
        (s.skip(2), true)
    } else {
        (s, false)
    }
}

/// Consume the list separator between two frame records, if present.
pub fn trailing_comma(bt: &str) -> (r: (&str, bool))
    ensures
        spec_trailing_comma(bt@) == (r.0@, r.1),
{
    proof {
        reveal_strlit(", ");
    }
    match start(bt, ", ") {
        Ok(rest) => (rest, true),
        Err(_) => (bt, false),
    }
}

/// The first position `j >= i` at which the running delimiter depth reaches
/// zero: an occurrence of `open` raises the depth, an occurrence of `close`
/// lowers it, any other character leaves it unchanged.
pub open spec fn find_close(
    s: Seq<char>,
    open: Seq<char>,
    close: Seq<char>,
    i: int,
    depth: int,
) -> Option<int>
    decreases s.len() - i,
{
    if i < 0 || i >= s.len() {
        None
    } else {
        let d = if starts_with(s.skip(i), open) {
            depth + 1
        } else if starts_with(s.skip(i), close) {
            depth - 1
        } else {
            depth
        };
        if d == 0 {
            Some(i)
        } else {
            find_close(s, open, close, i + 1, d)
        }
    }
}

/// Starting at a positive depth, the position found by `find_close` lies
/// within `s`, at or past the start, and carries the closing token.
pub proof fn lemma_find_close_bounds(
    s: Seq<char>,
    open: Seq<char>,
    close: Seq<char>,
    i: int,
    depth: int,
)
    requires
        depth >= 1,
        find_close(s, open, close, i, depth) matches Some(j),
    ensures
        find_close(s, open, close, i, depth) matches Some(j) ==> i <= j < s.len() && j
            + close.len() <= s.len() && starts_with(s.skip(j), close),
    decreases s.len() - i,
{
    let j = find_close(s, open, close, i, depth)->Some_0;
    let d = if starts_with(s.skip(i), open) {
        depth + 1
    } else if starts_with(s.skip(i), close) {
        depth - 1
    } else {
        depth
    };
    if d == 0 {
        assert(starts_with(s.skip(i), close));
        assert(s.skip(i).len() == s.len() - i);
    } else {
        lemma_find_close_bounds(s, open, close, i + 1, d);
    }
}

/// Extract the text strictly between the outermost balanced pair of
/// delimiters at the front of `s`: the remainder after the closing token,
/// and the trimmed inner text. An unterminated run is reported as
/// unexpected input rather than aborting.
pub open spec fn spec_delimited(s: Seq<char>, open: Seq<char>, close: Seq<char>) -> Result<
    (Seq<char>, Seq<char>),
    KindView,
> {
    if !starts_with(s, open) {
        Err(KindView::InvalidInput { expected: open, found: found_prefix(s, open) })
    } else {
        match find_close(s, open, close, open.len() as int, 1) {
            Some(end) => Ok(
                (s.skip(end + close.len()), trimmed(s.subrange(open.len() as int, end))),
            ),
            None => Err(KindView::UnexpectedInput(s)),
        }
    }
}

/// Extract the text between the outermost balanced `open`/`close` pair at
/// the front of `bt`, skipping nested pairs by depth counting, and return
/// the remainder after the closing token together with the trimmed inner
/// text.
pub fn delimited<'a>(bt: &'a str, open: &str, close: &str) -> (r: Result<(&'a str, &'a str), Error>)
    ensures
        match r {
            Ok((rest, inner)) => spec_delimited(bt@, open@, close@) == Ok::<
                (Seq<char>, Seq<char>),
                KindView,
            >((rest@, inner@)),
            Err(e) => spec_delimited(bt@, open@, close@) == Err::<(Seq<char>, Seq<char>), KindView>(
                e@,
            ),
        },
{
    let len = bt.unicode_len();
    let olen = open.unicode_len();
    let clen = close.unicode_len();
    if !str_starts_with(bt, open) {
        let upto = if olen <= len {
            olen
        } else {
            len
        };
        let found = bt.substring_char(0, upto).to_owned();
        proof {
            if olen <= len {
                assert(found@ =~= found_prefix(bt@, open@));
            } else {
                assert(bt@.subrange(0, len as int) =~= bt@);
            }
        }
        return Err(Error { kind: Kind::InvalidInput { expected: open.to_owned(), found } });
    }
    let mut i: usize = olen;
    let mut depth: u128 = 1;
    let mut end: usize = 0;
    loop
        invariant
            len == bt@.len(),
            olen == open@.len(),
            clen == close@.len(),
            starts_with(bt@, open@),
            olen <= i <= len,
            1 <= depth <= 1 + i - olen,
            find_close(bt@, open@, close@, olen as int, 1) == find_close(
                bt@,
                open@,
                close@,
                i as int,
                depth as int,
            ),
        ensures
            find_close(bt@, open@, close@, olen as int, 1) == Some(end as int),
            olen <= end && end + clen <= len,
        decreases len - i,
    {
        if i >= len {
            assert(find_close(bt@, open@, close@, i as int, depth as int) is None);
            assert(find_close(bt@, open@, close@, olen as int, 1) is None);
            return Err(Error { kind: Kind::UnexpectedInput(bt.to_owned()) });
        }
        let at = bt.substring_char(i, len);
        assert(at@ =~= bt@.skip(i as int));
        let d: u128 = if str_starts_with(at, open) {
            depth + 1
        } else if str_starts_with(at, close) {
            depth - 1
        } else {
            depth
        };
        if d == 0 {
            proof {
                lemma_find_close_bounds(bt@, open@, close@, olen as int, 1);
            }
            end = i;
            break ;
        }
        depth = d;
        i = i + 1;
    }
    let rest = bt.substring_char(end + clen, len);
    let inner = trim(bt.substring_char(olen, end));
    proof {
        assert(rest@ =~= bt@.skip(end + clen));
    }
    Ok((rest, inner))
}

/// Decode one frame record: the brace-balanced body must begin with the
/// function-name marker; the file and line fields are located by substring
/// search for their markers, either, neither, or both of which may be
/// present. The function name runs to the file marker when one is found,
/// else to the line marker, else to the body's end; outer quotes are
/// stripped from the function name and the file as a matched pair. The line
/// field's text must parse as a non-negative integer.
pub open spec fn spec_frame(s: Seq<char>) -> Result<(Seq<char>, FrameView), KindView> {
    match spec_delimited(s, "{"@, "}"@) {
        Err(k) => Err(k),
        Ok((rest, body0)) => match spec_start(body0, "fn: "@) {
            Err(k) => Err(k),
            Ok(body) => {
                let fstart = find_at(body, ", file: "@);
                let lstart = find_at(body, ", line: "@);
                let fn_end = if fstart is Some {
                    fstart->Some_0
                } else if lstart is Some {
                    lstart->Some_0
                } else {
                    body.len() as int
                };
                let function = strip_quotes(body.take(fn_end));
                let file = if fstart is Some {
                    let vstart = fstart->Some_0 + ", file: "@.len();
                    let vend = if lstart is Some && lstart->Some_0 >= vstart {
                        lstart->Some_0
                    } else {
                        body.len() as int
                    };
                    Some(strip_quotes(body.subrange(vstart, vend)))
                } else {
                    None
                };
                if lstart is Some {
                    let ltext = body.skip(lstart->Some_0 + ", line: "@.len());
                    match parse_num(ltext) {
                        Ok(n) => Ok((rest, FrameView { function, file, line: Some(n) })),
                        Err(e) => Err(KindView::LineParse(ltext, e)),
                    }
                } else {
                    Ok((rest, FrameView { function, file, line: None }))
                }
            },
        },
    }
}

/// Decode one frame record from the front of `bt`, returning the remainder
/// after the record's closing brace and the assembled frame.
pub fn frame(bt: &str) -> (r: Result<(&str, Frame), Error>)
    ensures
        match r {
            Ok(p) => spec_frame(bt@) == Ok::<(Seq<char>, FrameView), KindView>((p.0@, p.1@)),
            Err(e) => spec_frame(bt@) == Err::<(Seq<char>, FrameView), KindView>(e@),
        },
{
    let (rest, body0) = match delimited(bt, "{", "}") {
        Ok(p) => p,
        Err(e) => return Err(e),
    };
    let body = match start(body0, "fn: ") {
        Ok(b) => b,
        Err(e) => return Err(e),
    };
    let blen = body.unicode_len();
    let file_match = ", file: ";
    let fstart = find_sub(body, file_match);
    let line_match = ", line: ";
    let lstart = find_sub(body, line_match);
    let fn_end: usize = match fstart {
        Some(i) => i,
        None => match lstart {
            Some(i) => i,
            None => blen,
        },
    };
    proof {
        assert(body@.subrange(0, fn_end as int) =~= body@.take(fn_end as int));
    }
    let function = strip_outer_quotes(body.substring_char(0, fn_end)).to_owned();
    let file: Option<String> = match fstart {
        Some(fs) => {
            let vstart = fs + file_match.unicode_len();
            let vend: usize = match lstart {
                Some(ls) => if ls >= vstart {
                    ls
                } else {
                    blen
                },
                None => blen,
            };
            Some(strip_outer_quotes(body.substring_char(vstart, vend)).to_owned())
        },
        None => None,
    };
    let line: Option<usize> = match lstart {
        Some(ls) => {
            let lt = body.substring_char(ls + line_match.unicode_len(), blen);
            proof {
                assert(lt@ =~= body@.skip(ls + line_match@.len()));
            }
            match parse_usize(lt) {
                Ok(n) => Some(n),
                Err(e) => return Err(Error { kind: Kind::LineParse(lt.to_owned(), e) }),
            }
        },
        None => None,
    };
    Ok((rest, Frame { function, file, line }))
}

/// A successfully decoded frame consumes at least the two delimiter
/// characters: the remainder is strictly shorter than the input.
pub proof fn lemma_frame_consumes(s: Seq<char>)
    ensures
        spec_frame(s) matches Ok(p) ==> p.0.len() < s.len(),
{
    reveal_strlit("{");
    reveal_strlit("}");
    if spec_frame(s) is Ok {
        lemma_find_close_bounds(s, "{"@, "}"@, 1, 1);
    }
}

/// Recognize the header: the text before the first `[` must be the literal
/// header label, which yields the text after the `[`; the sentinel texts for
/// disabled or unsupported capture yield their own failures, and anything
/// else is unexpected input carrying that prefix. Without any `[`, the whole
/// input is judged the same way, and the header label alone is unexpected.
pub open spec fn spec_header(s: Seq<char>) -> Result<Seq<char>, KindView> {
    match find_at(s, "["@) {
        Some(i) => {
            let prefix = s.take(i);
            if prefix == "Backtrace "@ {
                Ok(s.skip(i + 1))
            } else if prefix == "<disabled>"@ || prefix == "disabled backtrace"@ {
                Err(KindView::Disabled)
            } else if prefix == "unsupported backtrace"@ {
                Err(KindView::Unsupported)
            } else {
                Err(KindView::UnexpectedInput(prefix))
            }
        },
        None => {
            if s == "<disabled>"@ || s == "disabled backtrace"@ {
                Err(KindView::Disabled)
            } else if s == "unsupported backtrace"@ {
                Err(KindView::Unsupported)
            } else {
                Err(KindView::UnexpectedInput(s))
            }
        },
    }
}

/// Recognize the header token in front of the frame list, or one of the
/// sentinel texts for disabled or unsupported capture.
pub fn header(bt: &str) -> (r: Result<&str, Error>)
    ensures
        match r {
            Ok(rest) => spec_header(bt@) == Ok::<Seq<char>, KindView>(rest@),
            Err(e) => spec_header(bt@) == Err::<Seq<char>, KindView>(e@),
        },
{
    let len = bt.unicode_len();
    let (prefix, rest): (&str, Option<&str>) = match find_sub(bt, "[") {
        Some(i) => {
            proof {
                reveal_strlit("[");
                crate::text::lemma_find_at(bt@, "["@);
                assert(bt@.subrange(i + 1, len as int) =~= bt@.skip(i + 1));
                assert(bt@.subrange(0, i as int) =~= bt@.take(i as int));
            }
            (bt.substring_char(0, i), Some(bt.substring_char(i + 1, len)))
        },
        None => (bt, None),
    };
    proof {
        if find_at(bt@, "["@) is None {
            assert(bt@.take(len as int) =~= bt@);
        }
    }
    if str_eq(prefix, "Backtrace ") {
        match rest {
            Some(rest) => Ok(rest),
            None => {
                proof {
                    reveal_strlit("Backtrace ");
                    reveal_strlit("<disabled>");
                    reveal_strlit("disabled backtrace");
                    reveal_strlit("unsupported backtrace");
                    assert("Backtrace "@[0] != "<disabled>"@[0]);
                }
                Err(Error { kind: Kind::UnexpectedInput(prefix.to_owned()) })
            },
        }
    } else if str_eq(prefix, "<disabled>") || str_eq(prefix, "disabled backtrace") {
        Err(Error { kind: Kind::Disabled })
    } else if str_eq(prefix, "unsupported backtrace") {
        Err(Error { kind: Kind::Unsupported })
    } else {
        Err(Error { kind: Kind::UnexpectedInput(prefix.to_owned()) })
    }
}

/// Consume the closing bracket that ends the frame list.
pub fn close_bracket(bt: &str) -> (r: Result<&str, Error>)
    ensures
        match r {
            Ok(rest) => spec_start(bt@, "]"@) == Ok::<Seq<char>, KindView>(rest@),
            Err(e) => spec_start(bt@, "]"@) == Err::<Seq<char>, KindView>(e@),
        },
{
    start(bt, "]")
}

} // verus!
