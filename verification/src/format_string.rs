//! Format strings: texts with symbols and constants in double braces.

use vstd::prelude::*;

use crate::assoc::lookup;
use crate::display::display_text;
use crate::error::{ErrorView, ExpressionError, ExpressionErrorKind};
use crate::symbol_table::SymbolTable;
use crate::text::{chars_of, integer_value, parse_i64, text_of};
use crate::value::{byte_len, outcome, str_len, ExprValue, ValueView};

verus! {

/// The largest number of bytes of a format string.
pub const MAX_FORMAT_STRING_LEN: usize = 1_048_576;

/// The largest number of double braces in a format string.
pub const MAX_INTERPOLATIONS: usize = 1_000;

/// A part of a format string.
#[derive(Debug)]
pub enum Segment {
    Literal(String),
    /// A reference to a symbol by its dotted name.
    Reference(String),
    /// An integer, a boolean or null between braces.
    Constant(ExprValue),
}

/// The model of a part of a format string.
#[verifier::ext_equal]
pub enum SegmentView {
    Literal(Seq<char>),
    Reference(Seq<char>),
    Constant(ValueView),
}

impl View for Segment {
    type V = SegmentView;

    open spec fn view(&self) -> SegmentView {
        match self {
            Segment::Literal(text) => SegmentView::Literal(text@),
            Segment::Reference(name) => SegmentView::Reference(name@),
            Segment::Constant(value) => SegmentView::Constant(value@),
        }
    }
}

pub open spec fn segment_views(segments: Seq<Segment>) -> Seq<SegmentView> {
    Seq::new(segments.len(), |i: int| segments[i]@)
}

/// Why a text is no format string.
#[derive(Debug)]
pub enum FormatStringError {
    /// It has more than `MAX_FORMAT_STRING_LEN` bytes.
    TooLong,
    /// It has more than `MAX_INTERPOLATIONS` double braces.
    TooManySegments,
    /// Braces are opened and not closed.
    Unclosed,
    /// What stands between braces is neither a dotted name nor a constant.
    Unsupported(String),
}

/// The model of a format string error.
#[verifier::ext_equal]
pub enum FormatFault {
    TooLong,
    TooManySegments,
    Unclosed,
    Unsupported(Seq<char>),
}

impl View for FormatStringError {
    type V = FormatFault;

    open spec fn view(&self) -> FormatFault {
        match self {
            FormatStringError::TooLong => FormatFault::TooLong,
            FormatStringError::TooManySegments => FormatFault::TooManySegments,
            FormatStringError::Unclosed => FormatFault::Unclosed,
            FormatStringError::Unsupported(text) => FormatFault::Unsupported(text@),
        }
    }
}

/// The text of a format string error.
pub open spec fn fault_message(fault: FormatFault) -> Seq<char> {
    match fault {
        FormatFault::TooLong => "format string exceeds the maximum length of 1048576 bytes"@,
        FormatFault::TooManySegments => "format string has more than 1000 interpolation segments"@,
        FormatFault::Unclosed => "format string has braces that are not closed"@,
        FormatFault::Unsupported(text) => "unsupported expression: '"@ + text + "'"@,
    }
}

impl FormatStringError {
    pub fn message(&self) -> (r: String)
        ensures
            r@ == fault_message(self@),
    {
        match self {
            FormatStringError::TooLong => {
                "format string exceeds the maximum length of 1048576 bytes".to_owned()
            },
            FormatStringError::TooManySegments => {
                "format string has more than 1000 interpolation segments".to_owned()
            },
            FormatStringError::Unclosed => "format string has braces that are not closed".to_owned(),
            FormatStringError::Unsupported(text) => "unsupported expression: '".to_owned().concat(
                text.as_str(),
            ).concat("'"),
        }
    }
}

/// The first place from `from` on where a character stands twice, or the end.
pub open spec fn find_pair(text: Seq<char>, c: char, from: int) -> int
    decreases text.len() - from,
{
    if from + 1 >= text.len() {
        text.len() as int
    } else if text[from] == c && text[from + 1] == c {
        from
    } else {
        find_pair(text, c, from + 1)
    }
}

/// Where the text goes on after blanks.
pub open spec fn skip_blanks(text: Seq<char>, from: int, to: int) -> int
    decreases to - from,
{
    if from < to && text[from] == ' ' {
        skip_blanks(text, from + 1, to)
    } else {
        from
    }
}

/// Where the text ends before blanks.
pub open spec fn drop_blanks(text: Seq<char>, from: int, to: int) -> int
    decreases to - from,
{
    if from < to && text[to - 1] == ' ' {
        drop_blanks(text, from, to - 1)
    } else {
        to
    }
}

pub open spec fn starts_name(c: char) -> bool {
    'a' <= c <= 'z' || 'A' <= c <= 'Z' || c == '_'
}

pub open spec fn continues_name(c: char) -> bool {
    starts_name(c) || '0' <= c <= '9'
}

/// Whether the character at a place fits a dotted name: a component starts at
/// the beginning and after each dot.
pub open spec fn fits_name(name: Seq<char>, i: int) -> bool {
    if i == 0 || name[i - 1] == '.' {
        starts_name(name[i])
    } else {
        continues_name(name[i]) || (name[i] == '.' && i + 1 < name.len())
    }
}

/// Whether a text is a dotted name.
pub open spec fn is_dotted_name(name: Seq<char>) -> bool {
    name.len() > 0 && forall|i: int| 0 <= i < name.len() ==> #[trigger] fits_name(name, i)
}

/// The value of a constant: null, a boolean, or a decimal integer of 64 bits
/// without a leading zero.
pub open spec fn constant_value(text: Seq<char>) -> Option<ValueView> {
    if text == "null"@ {
        Some(ValueView::Null)
    } else if text == "true"@ {
        Some(ValueView::Bool(true))
    } else if text == "false"@ {
        Some(ValueView::Bool(false))
    } else if text.len() > 0 && '0' <= text[0] <= '9' && (text.len() == 1 || text[0] != '0') {
        match integer_value(text) {
            Some(n) if n <= i64::MAX => Some(ValueView::Int(n)),
            _ => None,
        }
    } else {
        None
    }
}

/// What a text between braces stands for.
pub open spec fn interpolated(text: Seq<char>) -> Option<SegmentView> {
    match constant_value(text) {
        Some(v) => Some(SegmentView::Constant(v)),
        None => if is_dotted_name(text) {
            Some(SegmentView::Reference(text))
        } else {
            None
        },
    }
}

/// The parts of the text from `from` on, with at most `left` double braces.
pub open spec fn parsed(text: Seq<char>, from: int, left: nat) -> Result<Seq<SegmentView>, FormatFault>
    decreases text.len() - from,
{
    let open = find_pair(text, '{', from);
    let before = if open > from {
        seq![SegmentView::Literal(text.subrange(from, open))]
    } else {
        seq![]
    };
    if !(0 <= from <= open <= open + 2 <= text.len()) {
        Ok(before)
    } else if left == 0 {
        Err(FormatFault::TooManySegments)
    } else {
        let close = find_pair(text, '}', open + 2);
        let start = skip_blanks(text, open + 2, close);
        let end = drop_blanks(text, start, close);
        let inner = text.subrange(start, end);
        if !(open + 2 <= close <= close + 2 <= text.len()) {
            Err(FormatFault::Unclosed)
        } else {
            match interpolated(inner) {
                None => Err(FormatFault::Unsupported(inner)),
                Some(segment) => match parsed(text, close + 2, (left - 1) as nat) {
                    Ok(rest) => Ok(before + seq![segment] + rest),
                    Err(fault) => Err(fault),
                },
            }
        }
    }
}

/// The parts of a format string.
pub open spec fn format_parts(text: Seq<char>) -> Result<Seq<SegmentView>, FormatFault> {
    if byte_len(text) > MAX_FORMAT_STRING_LEN {
        Err(FormatFault::TooLong)
    } else {
        parsed(text, 0, MAX_INTERPOLATIONS as nat)
    }
}

fn find_twice(text: &Vec<char>, c: char, from: usize) -> (r: usize)
    requires
        from <= text@.len(),
    ensures
        r == find_pair(text@, c, from as int),
        from <= r <= text@.len(),
        r < text@.len() ==> r + 2 <= text@.len(),
{
    let mut i: usize = from;
    while i < text.len() && text.len() - i >= 2
        invariant
            from <= i <= text@.len(),
            find_pair(text@, c, from as int) == find_pair(text@, c, i as int),
        decreases text@.len() - i,
    {
        if text[i] == c && text[i + 1] == c {
            return i;
        }
        i = i + 1;
    }
    text.len()
}

fn name_start(c: char) -> (r: bool)
    ensures
        r == starts_name(c),
{
    ('a' <= c && c <= 'z') || ('A' <= c && c <= 'Z') || c == '_'
}

fn name_continues(c: char) -> (r: bool)
    ensures
        r == continues_name(c),
{
    name_start(c) || ('0' <= c && c <= '9')
}

fn dotted_name(text: &Vec<char>, start: usize, end: usize) -> (r: bool)
    requires
        start <= end <= text@.len(),
    ensures
        r == is_dotted_name(text@.subrange(start as int, end as int)),
{
    let ghost name = text@.subrange(start as int, end as int);
    if start == end {
        return false;
    }
    let mut i: usize = start;
    while i < end
        invariant
            start <= i <= end <= text@.len(),
            name == text@.subrange(start as int, end as int),
            forall|j: int| 0 <= j < i - start ==> #[trigger] fits_name(name, j),
        decreases end - i,
    {
        let c = text[i];
        let fits = if i == start || text[i - 1] == '.' {
            name_start(c)
        } else {
            name_continues(c) || (c == '.' && i + 1 < end)
        };
        proof {
            assert(name[i - start] == c);
            if i > start {
                assert(name[i - start - 1] == text@[i - 1]);
            }
            assert(fits == fits_name(name, i - start));
        }
        if !fits {
            return false;
        }
        i = i + 1;
    }
    true
}

fn constant(text: &Vec<char>, start: usize, end: usize) -> (r: Option<ExprValue>)
    requires
        start <= end <= text@.len(),
    ensures
        match r {
            Some(v) => constant_value(text@.subrange(start as int, end as int)) == Some(v@),
            None => constant_value(text@.subrange(start as int, end as int)) is None,
        },
{
    let inner = text_of(text, start, end);
    if inner.eq(&"null".to_owned()) {
        return Some(ExprValue::Null);
    }
    if inner.eq(&"true".to_owned()) {
        return Some(ExprValue::Bool(true));
    }
    if inner.eq(&"false".to_owned()) {
        return Some(ExprValue::Bool(false));
    }
    if start == end || text[start] < '0' || text[start] > '9' {
        return None;
    }
    if end - start > 1 && text[start] == '0' {
        return None;
    }
    match parse_i64(inner.as_str()) {
        Some(n) => Some(ExprValue::Int(n)),
        None => None,
    }
}

fn interpolate(text: &Vec<char>, start: usize, end: usize) -> (r: Option<Segment>)
    requires
        start <= end <= text@.len(),
    ensures
        match r {
            Some(segment) => interpolated(text@.subrange(start as int, end as int)) == Some(segment@),
            None => interpolated(text@.subrange(start as int, end as int)) is None,
        },
{
    match constant(text, start, end) {
        Some(v) => Some(Segment::Constant(v)),
        None => if dotted_name(text, start, end) {
            Some(Segment::Reference(text_of(text, start, end)))
        } else {
            None
        },
    }
}

/// The parts of a text from a place on.
fn parse_from(text: &Vec<char>, from: usize, left: usize) -> (r: Result<Vec<Segment>, FormatStringError>)
    requires
        from <= text@.len(),
    ensures
        match r {
            Ok(segments) => parsed(text@, from as int, left as nat) == Ok::<_, FormatFault>(
                segment_views(segments@),
            ),
            Err(e) => parsed(text@, from as int, left as nat) == Err::<Seq<SegmentView>, _>(e@),
        },
    decreases text@.len() - from,
{
    let mut out: Vec<Segment> = Vec::new();
    let open: usize = find_twice(text, '{', from);
    if open > from {
        out.push(Segment::Literal(text_of(text, from, open)));
    }
    let ghost before = if open > from {
        seq![SegmentView::Literal(text@.subrange(from as int, open as int))]
    } else {
        seq![]
    };
    assert(segment_views(out@) =~= before);
    if open == text.len() {
        return Ok(out);
    }
    if left == 0 {
        return Err(FormatStringError::TooManySegments);
    }
    let close: usize = find_twice(text, '}', open + 2);
    if close == text.len() {
        return Err(FormatStringError::Unclosed);
    }
    let mut start: usize = open + 2;
    while start < close && text[start] == ' '
        invariant
            open + 2 <= start <= close <= text@.len(),
            skip_blanks(text@, open + 2, close as int) == skip_blanks(text@, start as int, close as int),
        decreases close - start,
    {
        start = start + 1;
    }
    let mut end: usize = close;
    while end > start && text[end - 1] == ' '
        invariant
            start <= end <= close <= text@.len(),
            drop_blanks(text@, start as int, close as int) == drop_blanks(text@, start as int, end as int),
        decreases end,
    {
        end = end - 1;
    }
    let segment = match interpolate(text, start, end) {
        Some(segment) => segment,
        None => return Err(FormatStringError::Unsupported(text_of(text, start, end))),
    };
    let mut rest = match parse_from(text, close + 2, left - 1) {
        Ok(rest) => rest,
        Err(e) => return Err(e),
    };
    let ghost tail = segment_views(rest@);
    out.push(segment);
    out.append(&mut rest);
    assert(segment_views(out@) =~= before + seq![segment@] + tail);
    Ok(out)
}

/// A text with symbols and constants.
#[derive(Debug)]
pub struct FormatString {
    text: String,
    segments: Vec<Segment>,
}

impl View for FormatString {
    type V = Seq<SegmentView>;

    closed spec fn view(&self) -> Seq<SegmentView> {
        segment_views(self.segments@)
    }
}

/// The value of a reference.
pub open spec fn referenced(symbols: Seq<(Seq<char>, ValueView)>, name: Seq<char>) -> Result<
    ValueView,
    ErrorView,
> {
    match lookup(symbols, name) {
        Some(v) => Ok(v),
        None => Err(ErrorView::UndefinedVariable(name)),
    }
}

/// The text of parts, with the values of references in their place.
pub open spec fn resolved_text(
    segments: Seq<SegmentView>,
    symbols: Seq<(Seq<char>, ValueView)>,
) -> Result<Seq<char>, ErrorView>
    decreases segments.len(),
{
    if segments.len() == 0 {
        Ok(seq![])
    } else {
        match resolved_text(segments.drop_last(), symbols) {
            Err(e) => Err(e),
            Ok(text) => match segments.last() {
                SegmentView::Literal(literal) => Ok(text + literal),
                SegmentView::Reference(name) => match referenced(symbols, name) {
                    Ok(v) => Ok(text + display_text(v)),
                    Err(e) => Err(e),
                },
                SegmentView::Constant(v) => Ok(text + display_text(v)),
            },
        }
    }
}

/// The value of a format string: that of the symbol or the constant it
/// consists of, or a text.
pub open spec fn resolved(segments: Seq<SegmentView>, symbols: Seq<(Seq<char>, ValueView)>) -> Result<
    ValueView,
    ErrorView,
> {
    if segments.len() == 1 && segments[0] is Reference {
        referenced(symbols, segments[0]->Reference_0)
    } else if segments.len() == 1 && segments[0] is Constant {
        Ok(segments[0]->Constant_0)
    } else {
        match resolved_text(segments, symbols) {
            Ok(text) => Ok(ValueView::Text(text)),
            Err(e) => Err(e),
        }
    }
}

/// A text without double braces resolves to itself.
pub proof fn plain_texts_resolve_to_themselves(
    text: Seq<char>,
    symbols: Seq<(Seq<char>, ValueView)>,
)
    requires
        byte_len(text) <= MAX_FORMAT_STRING_LEN,
        forall|i: int| 0 <= i < text.len() - 1 ==> !(#[trigger] text[i] == '{' && text[i + 1] == '{'),
    ensures
        format_parts(text) matches Ok(segments) && resolved(segments, symbols) == Ok::<_, ErrorView>(
            ValueView::Text(text),
        ),
{
    lemma_no_pair(text, '{', 0);
    let literal = SegmentView::Literal(text.subrange(0, text.len() as int));
    reveal_with_fuel(resolved_text, 2);
    assert(text.subrange(0, text.len() as int) =~= text);
    if text.len() > 0 {
        assert(seq![literal].drop_last() =~= seq![]);
        assert(Seq::<char>::empty() + text =~= text);
    } else {
        assert(text =~= seq![]);
    }
}

proof fn lemma_no_pair(text: Seq<char>, c: char, from: int)
    requires
        0 <= from,
        forall|i: int| from <= i < text.len() - 1 ==> !(#[trigger] text[i] == c && text[i + 1] == c),
    ensures
        find_pair(text, c, from) == text.len(),
    decreases text.len() - from,
{
    if from + 1 < text.len() {
        assert(!(text[from] == c && text[from + 1] == c));
        lemma_no_pair(text, c, from + 1);
    }
}

/// A text or an error, in the model.
pub open spec fn text_outcome(r: Result<String, ExpressionError>) -> Result<Seq<char>, ErrorView> {
    match r {
        Ok(text) => Ok(text@),
        Err(e) => Err(e@),
    }
}

/// An unresolved reference leaves the text unresolved.
proof fn lemma_unresolved_stays(
    segments: Seq<SegmentView>,
    i: int,
    symbols: Seq<(Seq<char>, ValueView)>,
)
    requires
        0 <= i <= segments.len(),
        resolved_text(segments.take(i), symbols) is Err,
    ensures
        resolved_text(segments, symbols) == resolved_text(segments.take(i), symbols),
    decreases segments.len() - i,
{
    if i == segments.len() {
        assert(segments.take(i) =~= segments);
    } else {
        assert(segments.take(i + 1).drop_last() =~= segments.take(i));
        lemma_unresolved_stays(segments, i + 1, symbols);
    }
}

fn reference<'a>(symtab: &'a SymbolTable, name: &String) -> (r: Result<&'a ExprValue, ExpressionError>)
    ensures
        match r {
            Ok(v) => referenced(symtab@, name@) == Ok::<_, ErrorView>(v@),
            Err(e) => referenced(symtab@, name@) == Err::<ValueView, _>(e@),
        },
{
    match symtab.get(name.as_str()) {
        Some(v) => Ok(v),
        None => Err(
            ExpressionError { kind: ExpressionErrorKind::UndefinedVariable { name: name.clone() } },
        ),
    }
}

impl FormatString {
    /// The text as it was written.
    pub closed spec fn text(self) -> Seq<char> {
        self.text@
    }

    /// The text as it was written.
    pub fn raw(&self) -> (r: &str)
        ensures
            r@ == self.text(),
    {
        self.text.as_str()
    }

    /// Parses a format string.
    pub fn new(text: &str) -> (r: Result<FormatString, FormatStringError>)
        ensures
            match r {
                Ok(f) => format_parts(text@) == Ok::<_, FormatFault>(f@) && f.text() == text@,
                Err(e) => format_parts(text@) == Err::<Seq<SegmentView>, _>(e@),
            },
    {
        if str_len(text) > MAX_FORMAT_STRING_LEN {
            return Err(FormatStringError::TooLong);
        }
        match parse_from(&chars_of(text), 0, MAX_INTERPOLATIONS) {
            Ok(segments) => Ok(FormatString { text: text.to_owned(), segments }),
            Err(e) => Err(e),
        }
    }

    /// The text of the format string.
    pub fn resolve_string_with(&self, symtab: &SymbolTable) -> (r: Result<String, ExpressionError>)
        ensures
            text_outcome(r) == resolved_text(self@, symtab@),
    {
        let mut out = String::new();
        let mut i: usize = 0;
        proof {
            assert(self@.take(0) =~= seq![]);
        }
        while i < self.segments.len()
            invariant
                i <= self.segments@.len(),
                self@ == segment_views(self.segments@),
                resolved_text(self@.take(i as int), symtab@) == Ok::<_, ErrorView>(out@),
            decreases self.segments@.len() - i,
        {
            proof {
                assert(self@.take(i + 1).drop_last() =~= self@.take(i as int));
                if resolved_text(self@.take(i + 1), symtab@) is Err {
                    lemma_unresolved_stays(self@, i + 1, symtab@);
                }
            }
            match &self.segments[i] {
                Segment::Literal(text) => out.append(text.as_str()),
                Segment::Reference(name) => match reference(symtab, name) {
                    Ok(v) => v.push_display(&mut out),
                    Err(e) => return Err(e),
                },
                Segment::Constant(v) => v.push_display(&mut out),
            }
            i = i + 1;
        }
        proof {
            assert(self@.take(i as int) =~= self@);
        }
        Ok(out)
    }

    /// The value of the format string: one that is a symbol or a constant and
    /// nothing else keeps its type.
    pub fn resolve_with(&self, symtab: &SymbolTable) -> (r: Result<ExprValue, ExpressionError>)
        ensures
            outcome(r) == resolved(self@, symtab@),
    {
        if self.segments.len() == 1 {
            match &self.segments[0] {
                Segment::Reference(name) => {
                    return match reference(symtab, name) {
                        Ok(v) => Ok(v.clone()),
                        Err(e) => Err(e),
                    };
                },
                Segment::Constant(v) => return Ok(v.clone()),
                _ => {},
            }
        }
        match self.resolve_string_with(symtab) {
            Ok(text) => Ok(ExprValue::String(text)),
            Err(e) => Err(e),
        }
    }
}

} // verus!
