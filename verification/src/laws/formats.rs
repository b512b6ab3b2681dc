//! What format strings are made of and what they resolve to.

use vstd::prelude::*;

use crate::assoc::lookup;
use crate::display::display_text;
use crate::error::ErrorView;
use crate::format_string::{
    drop_blanks, find_pair, fits_name, format_parts, interpolated, is_dotted_name, parsed, resolved,
    resolved_text, skip_blanks, FormatFault, SegmentView,
};
use crate::text::decimal;
use crate::value::ValueView;

verus! {

/// Whether a character is an ASCII letter or an underscore.
pub open spec fn is_letter(c: char) -> bool {
    let code = c as int;
    65 <= code <= 90 || 97 <= code <= 122 || code == 95
}

/// Whether a text is made of names between dots: of letters, digits,
/// underscores and dots, with a letter or an underscore at its start and after
/// each dot, and no dot at its end.
pub open spec fn is_name(text: Seq<char>) -> bool {
    &&& text.len() > 0
    &&& is_letter(text[0])
    &&& text.last() != '.'
    &&& forall|i: int|
        0 <= i < text.len() ==> is_letter(#[trigger] text[i]) || 48 <= text[i] as int <= 57 || text[i] == '.'
    &&& forall|i: int| 0 <= i < text.len() - 1 && #[trigger] text[i] == '.' ==> is_letter(text[i + 1])
}

proof fn lemma_letter(c: char)
    ensures
        is_letter(c) == crate::format_string::starts_name(c),
        (is_letter(c) || 48 <= c as int <= 57) == crate::format_string::continues_name(c),
        is_letter(c) ==> c != '.',
{
}

/// A symbol is named by names between dots, and by nothing else.
pub proof fn references_are_names(text: Seq<char>)
    ensures
        is_dotted_name(text) <==> is_name(text),
{
    assert forall|i: int| 0 <= i < text.len() implies {
        &&& is_letter(#[trigger] text[i]) == crate::format_string::starts_name(text[i])
        &&& (is_letter(text[i]) || 48 <= text[i] as int <= 57) == crate::format_string::continues_name(text[i])
        &&& is_letter(text[i]) ==> text[i] != '.'
    } by {
        lemma_letter(text[i]);
    }
    if is_dotted_name(text) {
        assert(fits_name(text, 0));
        assert(fits_name(text, text.len() - 1));
        assert forall|i: int| 0 <= i < text.len() implies is_letter(#[trigger] text[i]) || 48
            <= text[i] as int <= 57 || text[i] == '.' by {
            assert(fits_name(text, i));
        }
        assert forall|i: int| 0 <= i < text.len() - 1 && #[trigger] text[i] == '.' implies is_letter(
            text[i + 1],
        ) by {
            assert(fits_name(text, i + 1));
            lemma_letter(text[i + 1]);
        }
    }
    if is_name(text) {
        assert forall|i: int| 0 <= i < text.len() implies #[trigger] fits_name(text, i) by {
            lemma_letter(text[i]);
            if i > 0 && text[i - 1] == '.' {
                assert(is_letter(text[i - 1 + 1]));
            }
            assert(is_letter(text[i]) || 48 <= text[i] as int <= 57 || text[i] == '.');
        }
    }
}

/// Between braces, the names of null and of the truth values are those values,
/// the digits of an integer of 64 bits are that integer, and any other name is
/// a reference to its symbol.
pub proof fn braces_hold_constants_and_references(text: Seq<char>, n: nat)
    ensures
        interpolated("null"@) == Some(SegmentView::Constant(ValueView::Null)),
        interpolated("true"@) == Some(SegmentView::Constant(ValueView::Bool(true))),
        interpolated("false"@) == Some(SegmentView::Constant(ValueView::Bool(false))),
        n <= i64::MAX ==> interpolated(decimal(n)) == Some(SegmentView::Constant(ValueView::Int(n as int))),
        is_name(text) && text != "null"@ && text != "true"@ && text != "false"@ ==> interpolated(text)
            == Some(SegmentView::Reference(text)),
        interpolated(text) == Some(SegmentView::Reference(text)) || interpolated(text) is None
            || interpolated(text) matches Some(SegmentView::Constant(_)),
        interpolated(text) matches Some(SegmentView::Reference(_)) ==> is_name(text),
{
    reveal_strlit("null");
    reveal_strlit("true");
    reveal_strlit("false");
    assert("null"@[0] == 'n' && "true"@[0] == 't' && "false"@[0] == 'f');
    references_are_names(text);
    crate::laws::texts::spelled_numbers_read_back(n);
    crate::laws::texts::signs_are_read(decimal(n));
    crate::text::lemma_decimal_reads_back(n);
    let d = decimal(n);
    assert(d != "null"@ && d != "true"@ && d != "false"@) by {
        assert(48 <= d[0] as int <= 57);
    }
    if is_name(text) {
        assert(!('0' <= text[0] <= '9'));
    }
}

/// The first pair of a character.
proof fn lemma_pair(text: Seq<char>, c: char, from: int, at: int)
    requires
        0 <= from <= at,
        at + 1 < text.len(),
        text[at] == c,
        text[at + 1] == c,
        forall|i: int| from <= i < at ==> !(#[trigger] text[i] == c && text[i + 1] == c),
    ensures
        find_pair(text, c, from) == at,
    decreases at - from,
{
    if from < at {
        assert(!(text[from] == c && text[from + 1] == c));
        lemma_pair(text, c, from + 1, at);
    }
}

proof fn lemma_pair_shifted(a: Seq<char>, q: Seq<char>, c: char, from: int)
    requires
        0 <= from,
        from <= q.len(),
    ensures
        find_pair(a + q, c, a.len() + from) == a.len() + find_pair(q, c, from),
        from <= find_pair(q, c, from) <= q.len(),
        find_pair(q, c, from) < q.len() ==> find_pair(q, c, from) + 2 <= q.len(),
    decreases q.len() - from,
{
    if from + 1 < q.len() {
        assert((a + q)[a.len() + from] == q[from] && (a + q)[a.len() + from + 1] == q[from + 1]);
        lemma_pair_shifted(a, q, c, from + 1);
    }
}

proof fn lemma_skip_shifted(a: Seq<char>, q: Seq<char>, from: int, to: int)
    requires
        0 <= from <= to <= q.len(),
    ensures
        skip_blanks(a + q, a.len() + from, a.len() + to) == a.len() + skip_blanks(q, from, to),
        from <= skip_blanks(q, from, to) <= to,
    decreases to - from,
{
    if from < to {
        assert((a + q)[a.len() + from] == q[from]);
        if q[from] == ' ' {
            lemma_skip_shifted(a, q, from + 1, to);
        }
    }
}

proof fn lemma_drop_shifted(a: Seq<char>, q: Seq<char>, from: int, to: int)
    requires
        0 <= from <= to <= q.len(),
    ensures
        drop_blanks(a + q, a.len() + from, a.len() + to) == a.len() + drop_blanks(q, from, to),
        from <= drop_blanks(q, from, to) <= to,
    decreases to - from,
{
    if from < to {
        assert((a + q)[a.len() + to - 1] == q[to - 1]);
        if q[to - 1] == ' ' {
            lemma_drop_shifted(a, q, from, to - 1);
        }
    }
}

/// What was read before does not matter for the rest.
proof fn lemma_parsed_shifted(a: Seq<char>, q: Seq<char>, from: int, left: nat)
    requires
        0 <= from <= q.len(),
    ensures
        parsed(a + q, a.len() + from, left) == parsed(q, from, left),
    decreases q.len() - from,
{
    let text = a + q;
    let n = a.len() as int;
    lemma_pair_shifted(a, q, '{', from);
    let open = find_pair(q, '{', from);
    assert(text.subrange(n + from, n + open) =~= q.subrange(from, open));
    if open + 2 <= q.len() && left > 0 {
        lemma_pair_shifted(a, q, '}', open + 2);
        let close = find_pair(q, '}', open + 2);
        lemma_skip_shifted(a, q, open + 2, close);
        let start = skip_blanks(q, open + 2, close);
        lemma_drop_shifted(a, q, start, close);
        let end = drop_blanks(q, start, close);
        assert(text.subrange(n + start, n + end) =~= q.subrange(start, end));
        if close + 2 <= q.len() {
            lemma_parsed_shifted(a, q, close + 2, (left - 1) as nat);
        }
    }
}

proof fn lemma_skip(text: Seq<char>, from: int, at: int, to: int)
    requires
        0 <= from <= at < to <= text.len(),
        forall|i: int| from <= i < at ==> #[trigger] text[i] == ' ',
        text[at] != ' ',
    ensures
        skip_blanks(text, from, to) == at,
    decreases at - from,
{
    if from < at {
        assert(text[from] == ' ');
        lemma_skip(text, from + 1, at, to);
    }
}

proof fn lemma_drop(text: Seq<char>, from: int, at: int, to: int)
    requires
        0 <= from < at <= to <= text.len(),
        forall|i: int| at <= i < to ==> #[trigger] text[i] == ' ',
        text[at - 1] != ' ',
    ensures
        drop_blanks(text, from, to) == at,
    decreases to - at,
{
    if at < to {
        assert(text[to - 1] == ' ');
        lemma_drop(text, from, at, to - 1);
    }
}

/// Whether a text holds no pair of opening braces, nor one brace at its end.
pub open spec fn is_plain(text: Seq<char>) -> bool {
    &&& forall|i: int| 0 <= i < text.len() - 1 ==> !(#[trigger] text[i] == '{' && text[i + 1] == '{')
    &&& text.len() > 0 ==> text.last() != '{'
}

/// As many blanks.
pub open spec fn blanks(n: nat) -> Seq<char> {
    Seq::new(n, |i: int| ' ')
}

/// A format string is cut at its double braces: what stands before the first is
/// a literal, what stands between them, without the blanks around it, a
/// constant or a reference, and what follows them is cut in the same way.
pub proof fn double_braces_cut_format_strings(
    before: Seq<char>,
    lead: nat,
    inner: Seq<char>,
    trail: nat,
    after: Seq<char>,
    left: nat,
)
    requires
        is_plain(before),
        inner.len() > 0,
        forall|i: int| 0 <= i < inner.len() ==> #[trigger] inner[i] != '}' && inner[i] != ' ',
        left > 0,
    ensures
        ({
            let text = before + seq!['{', '{'] + blanks(lead) + inner + blanks(trail) + seq!['}', '}']
                + after;
            let literal = if before.len() > 0 {
                seq![SegmentView::Literal(before)]
            } else {
                seq![]
            };
            parsed(text, 0, left) == match interpolated(inner) {
                None => Err::<Seq<SegmentView>, FormatFault>(FormatFault::Unsupported(inner)),
                Some(segment) => match parsed(after, 0, (left - 1) as nat) {
                    Ok(rest) => Ok(literal + seq![segment] + rest),
                    Err(fault) => Err(fault),
                },
            }
        }),
{
    let head = before + seq!['{', '{'] + blanks(lead) + inner + blanks(trail) + seq!['}', '}'];
    let text = head + after;
    let open = before.len() as int;
    let start = open + 2 + lead;
    let end = start + inner.len();
    let close = end + trail;
    assert(head.len() == close + 2);
    assert forall|i: int| 0 <= i < open implies #[trigger] text[i] == before[i] by {}
    assert(text[open] == '{' && text[open + 1] == '{');
    assert forall|i: int| 0 <= i < open implies !(#[trigger] text[i] == '{' && text[i + 1] == '{') by {
        assert(text[i] == before[i]);
        if i + 1 < open {
            assert(text[i + 1] == before[i + 1]);
            assert(!(before[i] == '{' && before[i + 1] == '{'));
        } else {
            assert(before.last() == before[i]);
        }
    }
    lemma_pair(text, '{', 0, open);
    assert forall|i: int| open + 2 <= i < start implies #[trigger] text[i] == ' ' by {}
    assert forall|i: int| start <= i < end implies #[trigger] text[i] == inner[i - start] by {}
    assert forall|i: int| end <= i < close implies #[trigger] text[i] == ' ' by {}
    assert(text[close] == '}' && text[close + 1] == '}');
    assert forall|i: int| open + 2 <= i < close implies !(#[trigger] text[i] == '}' && text[i + 1] == '}') by {
        if start <= i < end {
            assert(inner[i - start] != '}');
        }
    }
    lemma_pair(text, '}', open + 2, close);
    assert(text[start] == inner[0] && text[end - 1] == inner[inner.len() - 1]);
    lemma_skip(text, open + 2, start, close);
    lemma_drop(text, start, end, close);
    assert(text.subrange(start, end) =~= inner);
    assert(text.subrange(0, open) =~= before);
    lemma_parsed_shifted(head, after, 0, (left - 1) as nat);
    assert(head.len() + 0 == close + 2);
}

/// Double braces that are opened and not closed are refused.
pub proof fn open_braces_are_refused(before: Seq<char>, rest: Seq<char>, left: nat)
    requires
        is_plain(before),
        forall|i: int| 0 <= i < rest.len() - 1 ==> !(#[trigger] rest[i] == '}' && rest[i + 1] == '}'),
        left > 0,
    ensures
        parsed(before + seq!['{', '{'] + rest, 0, left) == Err::<Seq<SegmentView>, FormatFault>(
            FormatFault::Unclosed,
        ),
{
    let text = before + seq!['{', '{'] + rest;
    let open = before.len() as int;
    assert(text[open] == '{' && text[open + 1] == '{');
    assert forall|i: int| 0 <= i < open implies !(#[trigger] text[i] == '{' && text[i + 1] == '{') by {
        assert(text[i] == before[i]);
        if i + 1 < open {
            assert(text[i + 1] == before[i + 1]);
            assert(!(before[i] == '{' && before[i + 1] == '{'));
        } else {
            assert(before.last() == before[i]);
        }
    }
    lemma_pair(text, '{', 0, open);
    assert forall|i: int| open + 2 <= i < text.len() - 1 implies !(#[trigger] text[i] == '}' && text[i + 1]
        == '}') by {
        assert(text[i] == rest[i - open - 2] && text[i + 1] == rest[i + 1 - open - 2]);
        assert(!(rest[i - open - 2] == '}' && rest[i - open - 2 + 1] == '}'));
    }
    lemma_no_pair(text, '}', open + 2);
}

/// A format string without double braces is its text.
pub proof fn plain_format_strings_are_literals(text: Seq<char>, left: nat)
    requires
        forall|i: int| 0 <= i < text.len() - 1 ==> !(#[trigger] text[i] == '{' && text[i + 1] == '{'),
    ensures
        parsed(text, 0, left) == Ok::<Seq<SegmentView>, FormatFault>(
            if text.len() > 0 {
                seq![SegmentView::Literal(text)]
            } else {
                seq![]
            },
        ),
{
    lemma_no_pair(text, '{', 0);
    assert(text.subrange(0, text.len() as int) =~= text);
}

proof fn lemma_no_pair(text: Seq<char>, c: char, from: int)
    requires
        0 <= from <= text.len(),
        forall|i: int| from <= i < text.len() - 1 ==> !(#[trigger] text[i] == c && text[i + 1] == c),
    ensures
        find_pair(text, c, from) == text.len(),
    decreases text.len() - from,
{
    if from + 1 < text.len() {
        assert(!(text[from] == c && text[from + 1] == c));
        lemma_no_pair(text, c, from + 1);
    }
}

/// A format string of more than 1048576 bytes is refused, and any other is cut
/// at as many as 1000 double braces.
pub proof fn format_strings_are_limited(text: Seq<char>)
    ensures
        vstd::utf8::encode_utf8(text).len() > 1_048_576 ==> format_parts(text) == Err::<
            Seq<SegmentView>,
            FormatFault,
        >(FormatFault::TooLong),
        vstd::utf8::encode_utf8(text).len() <= 1_048_576 ==> format_parts(text) == parsed(text, 0, 1000),
{
}

/// A format string that is a single reference or constant keeps the type of its
/// value. Any other resolves to a text.
pub proof fn single_references_keep_their_type(
    segments: Seq<SegmentView>,
    symbols: Seq<(Seq<char>, ValueView)>,
)
    ensures
        segments.len() == 1 ==> match segments[0] {
            SegmentView::Reference(name) => match lookup(symbols, name) {
                Some(v) => resolved(segments, symbols) == Ok::<ValueView, ErrorView>(v),
                None => resolved(segments, symbols) == Err::<ValueView, ErrorView>(
                    ErrorView::UndefinedVariable(name),
                ),
            },
            SegmentView::Constant(v) => resolved(segments, symbols) == Ok::<ValueView, ErrorView>(v),
            SegmentView::Literal(text) => resolved(segments, symbols) == Ok::<ValueView, ErrorView>(
                ValueView::Text(text),
            ),
        },
        segments.len() != 1 ==> match resolved_text(segments, symbols) {
            Ok(text) => resolved(segments, symbols) == Ok::<ValueView, ErrorView>(ValueView::Text(text)),
            Err(e) => resolved(segments, symbols) == Err::<ValueView, ErrorView>(e),
        },
{
    if segments.len() == 1 {
        reveal_with_fuel(resolved_text, 2);
        assert(segments.drop_last() =~= seq![]);
        if let SegmentView::Literal(text) = segments[0] {
            assert(Seq::<char>::empty() + text =~= text);
        }
    }
}

/// The text of a format string is made of its literals as they are and of the
/// shown values of its references and constants, in order. The first reference
/// to a symbol without a value is its error.
pub proof fn segments_are_shown_in_order(
    segments: Seq<SegmentView>,
    symbols: Seq<(Seq<char>, ValueView)>,
    next: SegmentView,
)
    ensures
        resolved_text(Seq::<SegmentView>::empty(), symbols) == Ok::<Seq<char>, ErrorView>(
            Seq::<char>::empty(),
        ),
        match (resolved_text(segments, symbols), next) {
            (Err(e), _) => resolved_text(segments.push(next), symbols) == Err::<Seq<char>, ErrorView>(e),
            (Ok(text), SegmentView::Literal(literal)) => resolved_text(segments.push(next), symbols)
                == Ok::<Seq<char>, ErrorView>(text + literal),
            (Ok(text), SegmentView::Constant(v)) => resolved_text(segments.push(next), symbols) == Ok::<
                Seq<char>,
                ErrorView,
            >(text + display_text(v)),
            (Ok(text), SegmentView::Reference(name)) => match lookup(symbols, name) {
                Some(v) => resolved_text(segments.push(next), symbols) == Ok::<Seq<char>, ErrorView>(
                    text + display_text(v),
                ),
                None => resolved_text(segments.push(next), symbols) == Err::<Seq<char>, ErrorView>(
                    ErrorView::UndefinedVariable(name),
                ),
            },
        },
{
    assert(segments.push(next).drop_last() =~= segments);
    assert(segments.push(next).last() == next);
}

} // verus!
