//! The laws the parser obeys, stated and proved over the spec model: header
//! recognition, rejection of trailing text, balanced-delimiter extraction
//! over nested pairs, and the round trip from rendered wire format back to
//! the frames it was rendered from.
use vstd::prelude::*;

use crate::deser::{
    find_close, spec_delimited, spec_frame, spec_header, spec_start, spec_trailing_comma,
};
use crate::text::{
    digit, find_at, is_digit, is_space, lemma_find_at, lemma_find_at_from, lemma_trim_identity,
    parse_num, scan_digits, starts_with, strip_quotes, trimmed,
};
use crate::{
    spec_deserialize, spec_frames, FrameView, KindView, LineParseError,
};

verus! {

/// Header recognition: the literal header label before the first `[` yields
/// the rest of the text; the exact sentinel texts for disabled or
/// unsupported capture yield their own failures; any other bracketless text
/// is unexpected input carrying exactly that text.
pub proof fn lemma_header_recognition(s: Seq<char>)
    ensures
        starts_with(s, "Backtrace ["@) ==> spec_header(s) == Ok::<Seq<char>, KindView>(s.skip(11)),
        s == "<disabled>"@ || s == "disabled backtrace"@ ==> spec_header(s) == Err::<
            Seq<char>,
            KindView,
        >(KindView::Disabled),
        s == "unsupported backtrace"@ ==> spec_header(s) == Err::<Seq<char>, KindView>(
            KindView::Unsupported,
        ),
        find_at(s, "["@) is None && s != "<disabled>"@ && s != "disabled backtrace"@ && s
            != "unsupported backtrace"@ ==> spec_header(s) == Err::<Seq<char>, KindView>(
            KindView::UnexpectedInput(s),
        ),
{
    reveal_strlit("Backtrace [");
    reveal_strlit("Backtrace ");
    reveal_strlit("[");
    reveal_strlit("<disabled>");
    reveal_strlit("disabled backtrace");
    reveal_strlit("unsupported backtrace");
    if starts_with(s, "Backtrace ["@) {
        assert forall|j: int| 0 <= j < 10 implies !starts_with(s.skip(j), "["@) by {
            assert(s[j] == "Backtrace ["@[j]);
            assert(s.skip(j)[0] == s[j]);
            if starts_with(s.skip(j), "["@) {
                assert(s.skip(j).take(1)[0] == '[');
            }
        }
        assert(starts_with(s.skip(10), "["@)) by {
            assert(s.take(11)[10] == s[10]);
            assert(s[10] == '[');
            assert(s.skip(10).take(1) =~= "["@);
        }
        lemma_find_at_from(s, "["@, 10);
        assert(s.take(10) =~= "Backtrace "@);
    }
    if s == "<disabled>"@ || s == "disabled backtrace"@ || s == "unsupported backtrace"@ {
        lemma_find_at(s, "["@);
        if find_at(s, "["@) is Some {
            let i = find_at(s, "["@)->Some_0;
            assert(starts_with(s.skip(i), "["@));
            assert(s.skip(i).take(1)[0] == '[');
            assert(s[i] == '[');
        }
        assert(find_at(s, "["@) is None);
    }
}

/// Trailing text after the closing bracket is rejected: when the header,
/// the frame list, and the bracket are all consumed and text remains, the
/// whole parse fails with unexpected input carrying exactly that text.
pub proof fn lemma_trailing_text_rejected(s: Seq<char>, r1: Seq<char>, r2: Seq<char>, frames: Seq<FrameView>, r3: Seq<char>)
    requires
        spec_header(s) == Ok::<Seq<char>, KindView>(r1),
        spec_frames(r1) == Ok::<(Seq<char>, Seq<FrameView>), KindView>((r2, frames)),
        spec_start(r2, "]"@) == Ok::<Seq<char>, KindView>(r3),
        r3.len() > 0,
    ensures
        spec_deserialize(s) == Err::<Seq<FrameView>, KindView>(KindView::UnexpectedInput(r3)),
{
}

/// The running brace depth over `s`: opening braces raise it, closing
/// braces lower it.
pub open spec fn brace_depth(s: Seq<char>) -> int
    decreases s.len(),
{
    if s.len() == 0 {
        0
    } else {
        brace_depth(s.take(s.len() - 1)) + (if s[s.len() - 1] == '{' {
            1
        } else if s[s.len() - 1] == '}' {
            -1
        } else {
            0
        })
    }
}

/// The braces of `s` are balanced: as many closing as opening braces in
/// all, and no prefix closes more than it has opened.
pub open spec fn braces_balanced(s: Seq<char>) -> bool {
    brace_depth(s) == 0 && forall|k: int| 0 <= k <= s.len() ==> brace_depth(#[trigger] s.take(k))
        >= 0
}

/// Depth counting finds the closing brace that matches the opening one,
/// skipping the balanced pairs inside `inner`.
proof fn lemma_find_close_balanced(s: Seq<char>, inner: Seq<char>, i: int)
    requires
        s.len() >= 2 + inner.len(),
        forall|k: int| 0 <= k < inner.len() ==> s[1 + k] == inner[k],
        s[1 + inner.len() as int] == '}',
        braces_balanced(inner),
        1 <= i <= 1 + inner.len(),
    ensures
        find_close(s, "{"@, "}"@, i, 1 + brace_depth(inner.take(i - 1))) == Some(
            1 + inner.len() as int,
        ),
    decreases 1 + inner.len() - i,
{
    reveal_strlit("{");
    reveal_strlit("}");
    let depth = 1 + brace_depth(inner.take(i - 1));
    assert(starts_with(s.skip(i), "{"@) <==> s[i] == '{') by {
        assert(s.skip(i)[0] == s[i]);
        if s[i] == '{' {
            assert(s.skip(i).take(1) =~= "{"@);
        } else if starts_with(s.skip(i), "{"@) {
            assert(s.skip(i).take(1)[0] == s[i]);
        }
    }
    assert(starts_with(s.skip(i), "}"@) <==> s[i] == '}') by {
        assert(s.skip(i)[0] == s[i]);
        if s[i] == '}' {
            assert(s.skip(i).take(1) =~= "}"@);
        } else if starts_with(s.skip(i), "}"@) {
            assert(s.skip(i).take(1)[0] == s[i]);
        }
    }
    if i == 1 + inner.len() {
        assert(inner.take(i - 1) =~= inner);
        assert(depth == 1);
        assert(s[i] == '}');
    } else {
        assert(s[i] == inner[i - 1]);
        let d = if s[i] == '{' {
            depth + 1
        } else if s[i] == '}' {
            depth - 1
        } else {
            depth
        };
        assert(inner.take(i).take(i - 1) =~= inner.take(i - 1));
        assert(inner.take(i)[i - 1] == inner[i - 1]);
        assert(d == 1 + brace_depth(inner.take(i)));
        assert(brace_depth(inner.take(i)) >= 0);
        lemma_find_close_balanced(s, inner, i + 1);
    }
}

/// Delimiter matching over content with nested balanced braces locates the
/// outer boundary: the inner text comes back trimmed, and the remainder
/// starts right after the matching closing brace.
pub proof fn lemma_delimited_nested(inner: Seq<char>, rest: Seq<char>)
    requires
        braces_balanced(inner),
    ensures
        spec_delimited(seq!['{'] + inner + seq!['}'] + rest, "{"@, "}"@) == Ok::<
            (Seq<char>, Seq<char>),
            KindView,
        >((rest, trimmed(inner))),
{
    reveal_strlit("{");
    reveal_strlit("}");
    let s = seq!['{'] + inner + seq!['}'] + rest;
    assert(starts_with(s, "{"@)) by {
        assert(s.take(1) =~= "{"@);
    }
    assert(inner.take(0) =~= Seq::<char>::empty());
    assert(brace_depth(inner.take(0)) == 0);
    lemma_find_close_balanced(s, inner, 1);
    assert(find_close(s, "{"@, "}"@, 1, 1) == Some(1 + inner.len() as int));
    assert(s.skip(2 + inner.len() as int) =~= rest);
    assert(s.subrange(1, 1 + inner.len() as int) =~= inner);
}

/// The character of one decimal digit.
pub open spec fn digit_char(d: int) -> char {
    if d == 0 {
        '0'
    } else if d == 1 {
        '1'
    } else if d == 2 {
        '2'
    } else if d == 3 {
        '3'
    } else if d == 4 {
        '4'
    } else if d == 5 {
        '5'
    } else if d == 6 {
        '6'
    } else if d == 7 {
        '7'
    } else if d == 8 {
        '8'
    } else {
        '9'
    }
}

/// The canonical decimal rendering of a non-negative integer, most
/// significant digit first, without sign or leading zeros.
pub open spec fn render_digits(n: int) -> Seq<char>
    decreases n,
{
    if n < 10 {
        seq![digit_char(n)]
    } else {
        render_digits(n / 10).push(digit_char(n % 10))
    }
}

/// Scanning one more digit multiplies the accumulated value by ten and adds
/// the digit, within the range of `usize`.
proof fn lemma_scan_push(a: Seq<char>, c: char, acc: int)
    requires
        is_digit(c),
        0 <= acc,
        scan_digits(a, acc) is Ok,
    ensures
        scan_digits(a.push(c), acc) == (if scan_digits(a, acc)->Ok_0 * 10 + digit(c)
            <= usize::MAX as int {
            Ok::<int, LineParseError>(scan_digits(a, acc)->Ok_0 * 10 + digit(c))
        } else {
            Err::<int, LineParseError>(LineParseError::Overflow)
        }),
    decreases a.len(),
{
    let p = a.push(c);
    if a.len() == 0 {
        assert(p[0] == c);
        assert(p.skip(1) =~= Seq::<char>::empty());
        assert(scan_digits(a, acc) == Ok::<int, LineParseError>(acc));
        if acc * 10 + digit(c) <= usize::MAX as int {
            assert(scan_digits(p, acc) == scan_digits(p.skip(1), acc * 10 + digit(c)));
            assert(scan_digits(p.skip(1), acc * 10 + digit(c)) == Ok::<int, LineParseError>(
                acc * 10 + digit(c),
            ));
        } else {
            assert(scan_digits(p, acc) == Err::<int, LineParseError>(LineParseError::Overflow));
        }
    } else {
        assert(p[0] == a[0]);
        assert(p.skip(1) =~= a.skip(1).push(c));
        assert(is_digit(a[0]) && acc * 10 + digit(a[0]) <= usize::MAX as int && scan_digits(
            a.skip(1),
            acc * 10 + digit(a[0]),
        ) == scan_digits(a, acc));
        lemma_scan_push(a.skip(1), c, acc * 10 + digit(a[0]));
        assert(scan_digits(p, acc) == scan_digits(a.skip(1).push(c), acc * 10 + digit(a[0])));
    }
}

/// The rendering of `n` scans back to `n`; it is non-empty and starts with
/// a digit.
proof fn lemma_scan_render(n: int)
    requires
        0 <= n <= usize::MAX,
    ensures
        scan_digits(render_digits(n), 0) == Ok::<int, LineParseError>(n),
        render_digits(n).len() > 0,
        forall|i: int| 0 <= i < render_digits(n).len() ==> is_digit(#[trigger] render_digits(n)[i]),
    decreases n,
{
    if n < 10 {
        assert(is_digit(digit_char(n)));
        assert(seq![digit_char(n)].skip(1) =~= Seq::<char>::empty());
        assert(digit(digit_char(n)) == n);
        assert(scan_digits(render_digits(n), 0) == scan_digits(seq![digit_char(n)].skip(1), n));
    } else {
        lemma_scan_render(n / 10);
        lemma_scan_push(render_digits(n / 10), digit_char(n % 10), 0);
        vstd::arithmetic::div_mod::lemma_fundamental_div_mod(n, 10);
        assert(is_digit(digit_char(n % 10)));
        assert(digit(digit_char(n % 10)) == n % 10);
        assert((n / 10) * 10 + n % 10 == n);
        assert(render_digits(n) == render_digits(n / 10).push(digit_char(n % 10)));
        let r = render_digits(n);
        let q = render_digits(n / 10);
        assert forall|i: int| 0 <= i < r.len() implies is_digit(#[trigger] r[i]) by {
            if i < q.len() {
                assert(r[i] == q[i]);
            } else {
                assert(r[i] == digit_char(n % 10));
            }
        }
    }
}

/// Parsing recovers the rendered number: the decimal text of any value in
/// the range of `usize` parses back to that value.
pub proof fn lemma_parse_render_digits(n: int)
    requires
        0 <= n <= usize::MAX,
    ensures
        parse_num(render_digits(n)) == Ok::<int, LineParseError>(n),
{
    lemma_scan_render(n);
    assert(render_digits(n)[0] != '+');
}

/// Text that carries no comma and no brace: such text never contains a
/// field marker and never disturbs delimiter matching.
pub open spec fn plain_text(s: Seq<char>) -> bool {
    forall|i: int| 0 <= i < s.len() ==> s[i] != ',' && s[i] != '{' && s[i] != '}'
}

/// A frame whose canonical rendering decodes back to itself: the function
/// name and the file hold no comma and no brace, and the line number fits
/// in `usize`.
pub open spec fn frame_clean(f: FrameView) -> bool {
    &&& plain_text(f.function)
    &&& (f.file matches Some(p) ==> plain_text(p))
    &&& (f.line matches Some(n) ==> 0 <= n <= usize::MAX)
}

/// `s` wrapped in one pair of double quotes.
pub open spec fn quoted(s: Seq<char>) -> Seq<char> {
    seq!['"'] + s + seq!['"']
}

/// The canonical wire rendering of one frame's body, between its braces.
pub open spec fn render_frame_body(f: FrameView) -> Seq<char> {
    "fn: "@ + quoted(f.function) + (match f.file {
        Some(p) => ", file: "@ + quoted(p),
        None => Seq::<char>::empty(),
    }) + (match f.line {
        Some(n) => ", line: "@ + render_digits(n),
        None => Seq::<char>::empty(),
    })
}

/// The canonical wire rendering of one frame record.
pub open spec fn render_frame(f: FrameView) -> Seq<char> {
    seq!['{'] + render_frame_body(f) + seq!['}']
}

/// Without braces every prefix depth is zero.
proof fn lemma_no_braces_depth(s: Seq<char>, k: int)
    requires
        forall|i: int| 0 <= i < s.len() ==> s[i] != '{' && s[i] != '}',
        0 <= k <= s.len(),
    ensures
        brace_depth(s.take(k)) == 0,
    decreases k,
{
    if k > 0 {
        lemma_no_braces_depth(s, k - 1);
        assert(s.take(k).take(k - 1) =~= s.take(k - 1));
        assert(s.take(k)[k - 1] == s[k - 1]);
    }
}

/// Text without braces is trivially balanced.
proof fn lemma_no_braces_balanced(s: Seq<char>)
    requires
        forall|i: int| 0 <= i < s.len() ==> s[i] != '{' && s[i] != '}',
    ensures
        braces_balanced(s),
{
    assert forall|k: int| 0 <= k <= s.len() implies brace_depth(#[trigger] s.take(k)) >= 0 by {
        lemma_no_braces_depth(s, k);
    }
    lemma_no_braces_depth(s, s.len() as int);
    assert(s.take(s.len() as int) =~= s);
}

/// Stripping the quotes recovers the quoted text.
proof fn lemma_strip_quoted(s: Seq<char>)
    ensures
        strip_quotes(quoted(s)) == s,
{
    let q = quoted(s);
    assert(q[0] == '"');
    assert(q[q.len() - 1] == '"');
    assert(q.subrange(1, q.len() - 1) =~= s);
}

/// A marker beginning with a comma is first found exactly where it was
/// placed, when no comma stands before that place.
proof fn lemma_comma_find(s: Seq<char>, m: Seq<char>, pos: int)
    requires
        m.len() >= 1,
        m[0] == ',',
        0 <= pos <= s.len(),
        starts_with(s.skip(pos), m),
        forall|j: int| 0 <= j < pos ==> s[j] != ',',
    ensures
        find_at(s, m) == Some(pos),
{
    assert forall|j: int| 0 <= j < pos implies !starts_with(s.skip(j), m) by {
        if starts_with(s.skip(j), m) {
            assert(s.skip(j).take(m.len() as int)[0] == m[0]);
            assert(s.skip(j)[0] == s[j]);
        }
    }
    lemma_find_at_from(s, m, pos);
}

/// A marker beginning with a comma is never found when no comma stands
/// anywhere, nor when the only comma begins a different marker.
proof fn lemma_comma_find_none(s: Seq<char>, m: Seq<char>, except: Option<int>)
    requires
        m.len() >= 3,
        m[0] == ',',
        forall|j: int| 0 <= j < s.len() && s[j] == ',' ==> except == Some(j),
        except matches Some(p) ==> 0 <= p && p + 2 < s.len() && s[p + 2] != m[2],
    ensures
        find_at(s, m) is None,
{
    lemma_find_at(s, m);
    if find_at(s, m) is Some {
        let i = find_at(s, m)->Some_0;
        assert(starts_with(s.skip(i), m));
        assert(s.skip(i).take(m.len() as int)[0] == m[0]);
        assert(s.skip(i)[0] == s[i]);
        assert(s[i] == ',');
        assert(except == Some(i));
        assert(s.skip(i).take(m.len() as int)[2] == m[2]);
        assert(s.skip(i)[2] == s[i + 2]);
    }
}

/// Decoding one rendered frame recovers exactly the fields present — for
/// every combination of a present or absent file and line — and leaves
/// exactly the following text, whatever it is.
pub proof fn lemma_frame_round_trip(f: FrameView, tail: Seq<char>)
    requires
        frame_clean(f),
    ensures
        spec_frame(render_frame(f) + tail) == Ok::<(Seq<char>, FrameView), KindView>((tail, f)),
{
    reveal_strlit("fn: ");
    reveal_strlit(", file: ");
    reveal_strlit(", line: ");
    reveal_strlit("{");
    reveal_strlit("}");
    let body = render_frame_body(f);
    let s = render_frame(f) + tail;
    let fm = ", file: "@;
    let lm = ", line: "@;
    let qf = quoted(f.function);
    if f.line is Some {
        lemma_scan_render(f.line->Some_0);
    }
    // Every character of the body, by region; no braces anywhere, and a
    // comma only at the start of a field marker.
    let fplen: int = match f.file {
        Some(p) => 8 + p.len() as int + 2,
        None => 0,
    };
    let fpos: int = qf.len() as int;
    let lpos: int = qf.len() + fplen;
    let blen = body.len() as int;
    assert forall|i: int| 0 <= i < blen implies body[i] != '{' && body[i] != '}' && (body[i] == ','
        ==> (f.file is Some && i == 4 + fpos) || (f.line is Some && i == 4 + lpos)) by {
        if f.line is Some && 4 + lpos + 8 <= i {
            let n = f.line->Some_0;
            assert(is_digit(render_digits(n)[i - (4 + lpos + 8)]));
        }
    }
    assert(body.len() >= 6);
    assert(body[0] == 'f');
    assert(!is_space('f'));
    assert(body[blen - 1] != ',' && body[blen - 1] != '{' && body[blen - 1] != '}');
    assert(!is_space(body[blen - 1])) by {
        if f.line is Some {
            let n = f.line->Some_0;
            assert(is_digit(render_digits(n)[render_digits(n).len() - 1]));
            assert(body[blen - 1] == render_digits(n)[render_digits(n).len() - 1]);
        } else {
            assert(body[blen - 1] == '"');
        }
    }
    lemma_no_braces_balanced(body);
    lemma_delimited_nested(body, tail);
    assert(seq!['{'] + body + seq!['}'] + tail =~= s);
    lemma_trim_identity(body);
    assert(spec_delimited(s, "{"@, "}"@) == Ok::<(Seq<char>, Seq<char>), KindView>((tail, body)));
    // The body starts with the function-name marker.
    assert(starts_with(body, "fn: "@)) by {
        assert(body.take(4) =~= "fn: "@);
    }
    let rest1 = body.skip(4);
    assert(spec_start(body, "fn: "@) == Ok::<Seq<char>, KindView>(rest1));
    assert forall|j: int| 0 <= j < rest1.len() implies rest1[j] == body[4 + j] by {}
    // Where the field markers are found.
    if f.file is Some {
        assert(starts_with(rest1.skip(fpos), fm)) by {
            assert(rest1.skip(fpos).take(8) =~= fm);
        }
        lemma_comma_find(rest1, fm, fpos);
    } else {
        if f.line is Some {
            lemma_comma_find_none(rest1, fm, Some(lpos));
            assert(rest1[lpos + 2] == 'l');
        } else {
            lemma_comma_find_none(rest1, fm, None);
        }
    }
    if f.line is Some {
        assert(starts_with(rest1.skip(lpos), lm)) by {
            assert(rest1.skip(lpos).take(8) =~= lm);
        }
        if f.file is Some {
            assert forall|j: int| 0 <= j < lpos implies rest1[j] != ',' || j == fpos by {}
            assert forall|j: int| 0 <= j < lpos implies !starts_with(rest1.skip(j), lm) by {
                if starts_with(rest1.skip(j), lm) {
                    assert(rest1.skip(j).take(8)[0] == lm[0]);
                    assert(rest1.skip(j)[0] == rest1[j]);
                    assert(j == fpos);
                    assert(rest1.skip(j).take(8)[2] == lm[2]);
                    assert(rest1.skip(j)[2] == rest1[j + 2]);
                    assert(rest1[fpos + 2] == 'f');
                }
            }
            lemma_find_at_from(rest1, lm, lpos);
        } else {
            lemma_comma_find(rest1, lm, lpos);
        }
    } else {
        if f.file is Some {
            lemma_comma_find_none(rest1, lm, Some(fpos));
            assert(rest1[fpos + 2] == 'f');
        } else {
            lemma_comma_find_none(rest1, lm, None);
        }
    }
    // The function name.
    let fn_end: int = match f.file {
        Some(_) => fpos,
        None => match f.line {
            Some(_) => lpos,
            None => rest1.len() as int,
        },
    };
    assert(rest1.take(fn_end) =~= qf);
    lemma_strip_quoted(f.function);
    // The file value.
    if f.file is Some {
        let p = f.file->Some_0;
        let vend: int = match f.line {
            Some(_) => lpos,
            None => rest1.len() as int,
        };
        assert(rest1.subrange(fpos + 8, vend) =~= quoted(p));
        lemma_strip_quoted(p);
    }
    // The line value.
    if f.line is Some {
        let n = f.line->Some_0;
        assert(rest1.skip(lpos + 8) =~= render_digits(n));
        lemma_parse_render_digits(n);
    }
    match spec_frame(s) {
        Ok((rest, g)) => {
            assert(rest == tail);
            assert(g =~= f);
        },
        Err(_) => {
            assert(false);
        },
    }
}

/// The canonical wire rendering of a frame list: the records separated by
/// commas.
pub open spec fn render_frames(fs: Seq<FrameView>) -> Seq<char>
    decreases fs.len(),
{
    if fs.len() == 0 {
        Seq::<char>::empty()
    } else if fs.len() == 1 {
        render_frame(fs[0])
    } else {
        render_frame(fs[0]) + ", "@ + render_frames(fs.skip(1))
    }
}

/// The canonical wire rendering of a whole backtrace.
pub open spec fn render_backtrace(fs: Seq<FrameView>) -> Seq<char> {
    "Backtrace ["@ + render_frames(fs) + seq![']']
}

/// Decoding a rendered frame list recovers the frames and leaves the tail,
/// provided the tail does not begin like one more separator.
proof fn lemma_frames_render(fs: Seq<FrameView>, tail: Seq<char>)
    requires
        fs.len() > 0,
        forall|i: int| 0 <= i < fs.len() ==> frame_clean(#[trigger] fs[i]),
        !starts_with(tail, ", "@),
    ensures
        spec_frames(render_frames(fs) + tail) == Ok::<(Seq<char>, Seq<FrameView>), KindView>(
            (tail, fs),
        ),
    decreases fs.len(),
{
    reveal_strlit(", ");
    if fs.len() == 1 {
        lemma_frame_round_trip(fs[0], tail);
        assert(render_frames(fs) + tail =~= render_frame(fs[0]) + tail);
        assert(spec_trailing_comma(tail) == (tail, false));
        assert(seq![fs[0]] =~= fs);
    } else {
        let rft = render_frames(fs.skip(1)) + tail;
        let tail1 = ", "@ + rft;
        lemma_frame_round_trip(fs[0], tail1);
        assert(render_frames(fs) + tail =~= render_frame(fs[0]) + tail1);
        assert(starts_with(tail1, ", "@)) by {
            assert(tail1.take(2) =~= ", "@);
        }
        assert(tail1.skip(2) =~= rft);
        assert(spec_trailing_comma(tail1) == (rft, true));
        assert forall|i: int| 0 <= i < fs.skip(1).len() implies frame_clean(
            #[trigger] fs.skip(1)[i],
        ) by {
            assert(fs.skip(1)[i] == fs[i + 1]);
        }
        lemma_frames_render(fs.skip(1), tail);
        assert(seq![fs[0]] + fs.skip(1) =~= fs);
    }
}

/// Round trip: any non-empty list of clean frames, rendered into canonical
/// wire format, deserializes to exactly those frames, field for field, in
/// the same order.
pub proof fn lemma_render_round_trip(fs: Seq<FrameView>)
    requires
        fs.len() > 0,
        forall|i: int| 0 <= i < fs.len() ==> frame_clean(#[trigger] fs[i]),
    ensures
        spec_deserialize(render_backtrace(fs)) == Ok::<Seq<FrameView>, KindView>(fs),
{
    reveal_strlit("Backtrace [");
    reveal_strlit(", ");
    reveal_strlit("]");
    let s = render_backtrace(fs);
    lemma_header_recognition(s);
    assert(starts_with(s, "Backtrace ["@)) by {
        assert(s.take(11) =~= "Backtrace ["@);
    }
    let r1 = s.skip(11);
    assert(r1 =~= render_frames(fs) + seq![']']);
    assert(!starts_with(seq![']'], ", "@)) by {
        if starts_with(seq![']'], ", "@) {
            assert(seq![']'].take(2)[0] == ',');
        }
    }
    lemma_frames_render(fs, seq![']']);
    assert(starts_with(seq![']'], "]"@)) by {
        assert(seq![']'].take(1) =~= "]"@);
    }
    assert(spec_start(seq![']'], "]"@) == Ok::<Seq<char>, KindView>(seq![']'].skip(1)));
    assert(seq![']'].skip(1).len() == 0);
}

} // verus!
