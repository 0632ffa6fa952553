//! Scanning of JSX source without executing it: attribute expressions, event
//! handlers, comments and rendered expressions. Positions count bytes.
use crate::text::{
    chars_of, contains, contains_str, eq_str, find, find_from, find_str, find_str_from, join,
    join_words, lemma_find_from, lemma_same_words, push_all, push_str, slice, split_words,
    text_of, texts, trim, trimmed, without, words,
};
use vstd::prelude::*;
use vstd::string::*;
use vstd::utf8::*;

verus! {

pub open spec fn is_quote(b: u8) -> bool {
    b == 0x27 || b == 0x22
}

pub open spec fn is_name_start(b: u8) -> bool {
    ||| 0x41 <= b <= 0x5a
    ||| 0x61 <= b <= 0x7a
    ||| b == 0x5f
    ||| b == 0x3a
}

pub open spec fn is_name_byte(b: u8) -> bool {
    is_name_start(b) || 0x30 <= b <= 0x39 || b == 0x2d
}

/// ASCII white space: space, tab, line feed, form feed and carriage return.
pub open spec fn is_ascii_space(b: u8) -> bool {
    b == 0x20 || b == 0x09 || b == 0x0a || b == 0x0c || b == 0x0d
}

/// The position of the `}` that closes the braces counted by `depth`, reading
/// from `i`. Braces between quotes (`'`, `"` or a back-tick) do not count, and
/// inside quotes a backslash hides the byte after it.
pub open spec fn braced_end(b: Seq<u8>, i: int, depth: nat, quote: Option<u8>) -> Option<int>
    decreases b.len() + 1 - i,
{
    if i < 0 || i >= b.len() {
        None
    } else if quote is Some {
        if b[i] == 0x5c {
            braced_end(b, i + 2, depth, quote)
        } else if b[i] == quote->0 {
            braced_end(b, i + 1, depth, None)
        } else {
            braced_end(b, i + 1, depth, quote)
        }
    } else if is_quote(b[i]) || b[i] == 0x60 {
        braced_end(b, i + 1, depth, Some(b[i]))
    } else if b[i] == 0x7b {
        braced_end(b, i + 1, depth + 1, None)
    } else if b[i] == 0x7d {
        if depth == 0 {
            None
        } else if depth == 1 {
            Some(i)
        } else {
            braced_end(b, i + 1, (depth - 1) as nat, None)
        }
    } else {
        braced_end(b, i + 1, depth, None)
    }
}

pub proof fn lemma_braced_end(b: Seq<u8>, i: int, depth: nat, quote: Option<u8>)
    ensures
        braced_end(b, i, depth, quote) matches Some(e) ==> i <= e < b.len() && b[e] == 0x7d,
    decreases b.len() + 1 - i,
{
    if i < 0 || i >= b.len() {
    } else if quote is Some {
        if b[i] == 0x5c {
            lemma_braced_end(b, i + 2, depth, quote);
        } else if b[i] == quote->0 {
            lemma_braced_end(b, i + 1, depth, None);
        } else {
            lemma_braced_end(b, i + 1, depth, quote);
        }
    } else if is_quote(b[i]) || b[i] == 0x60 {
        lemma_braced_end(b, i + 1, depth, Some(b[i]));
    } else if b[i] == 0x7b {
        lemma_braced_end(b, i + 1, depth + 1, None);
    } else if b[i] == 0x7d {
        if depth > 1 {
            lemma_braced_end(b, i + 1, (depth - 1) as nat, None);
        }
    } else {
        lemma_braced_end(b, i + 1, depth, None);
    }
}

/// The first position at or after `i` that is not part of a name.
pub open spec fn name_end(b: Seq<u8>, i: int) -> int
    decreases b.len() - i,
{
    if 0 <= i < b.len() && is_name_byte(b[i]) {
        name_end(b, i + 1)
    } else {
        i
    }
}

/// The first position at or after `i` that is not ASCII white space.
pub open spec fn space_end(b: Seq<u8>, i: int) -> int
    decreases b.len() - i,
{
    if 0 <= i < b.len() && is_ascii_space(b[i]) {
        space_end(b, i + 1)
    } else {
        i
    }
}

/// One `name={expression}` attribute: where the name starts and ends, where the
/// brace opens, and the position just behind the expression. An attribute whose
/// brace is never closed reaches to the end of the source.
pub struct AttributeSpan {
    pub start: int,
    pub name_end: int,
    pub open: int,
    pub close: Option<int>,
}

/// The braced attribute whose name starts at `start`, if there is one.
pub open spec fn attribute_at(b: Seq<u8>, start: int) -> Option<AttributeSpan> {
    let n = name_end(b, start + 1);
    let e = space_end(b, n);
    let v = space_end(b, e + 1);
    if e < b.len() && b[e] == 0x3d && v < b.len() && b[v] == 0x7b {
        Some(
            AttributeSpan {
                start,
                name_end: n,
                open: v,
                close: braced_end(b, v, 0, None),
            },
        )
    } else {
        None
    }
}

pub proof fn lemma_name_end(b: Seq<u8>, i: int)
    requires
        0 <= i <= b.len(),
    ensures
        i <= name_end(b, i) <= b.len(),
        forall|k: int| i <= k < name_end(b, i) ==> is_name_byte(#[trigger] b[k]),
    decreases b.len() - i,
{
    if 0 <= i < b.len() && is_name_byte(b[i]) {
        lemma_name_end(b, i + 1);
    }
}

pub proof fn lemma_space_end(b: Seq<u8>, i: int)
    requires
        0 <= i,
    ensures
        i <= space_end(b, i),
        i <= b.len() ==> space_end(b, i) <= b.len(),
    decreases b.len() - i,
{
    if 0 <= i < b.len() && is_ascii_space(b[i]) {
        lemma_space_end(b, i + 1);
    }
}

/// The braced attributes of the tags of `b`, reading from `i`, inside a tag or
/// not. A tag reaches from `<` to the next `>` outside a braced value; text
/// between tags is passed over. An attribute that is never closed is the last.
pub open spec fn attributes(b: Seq<u8>, i: int, in_tag: bool) -> Seq<AttributeSpan>
    decreases b.len() - i,
{
    if i < 0 || i >= b.len() {
        Seq::empty()
    } else if !in_tag {
        attributes(b, i + 1, b[i] == 0x3c)
    } else if b[i] == 0x3e {
        attributes(b, i + 1, false)
    } else if !is_name_start(b[i]) {
        attributes(b, i + 1, true)
    } else {
        proof {
            lemma_attribute_at(b, i);
        }
        match attribute_at(b, i) {
            None => attributes(b, name_end(b, i + 1), true),
            Some(span) => match span.close {
                None => seq![span],
                Some(c) => seq![span] + attributes(b, c + 1, true),
            },
        }
    }
}

pub proof fn lemma_attribute_at(b: Seq<u8>, i: int)
    requires
        0 <= i < b.len(),
        is_name_start(b[i]),
    ensures
        i < name_end(b, i + 1) <= b.len(),
        forall|k: int| i <= k < name_end(b, i + 1) ==> is_name_byte(#[trigger] b[k]),
        attribute_at(b, i) matches Some(span) ==> {
            &&& span.start == i
            &&& i < span.name_end < span.open < b.len()
            &&& span.name_end == name_end(b, i + 1)
            &&& b[span.open] == 0x7b
            &&& span.close matches Some(c) ==> span.open < c < b.len() && b[c] == 0x7d
        },
{
    lemma_name_end(b, i + 1);
    let n = name_end(b, i + 1);
    lemma_space_end(b, n);
    let e = space_end(b, n);
    lemma_space_end(b, e + 1);
    let v = space_end(b, e + 1);
    lemma_braced_end(b, v, 0, None);
}

/// All braced attributes of a source text.
pub open spec fn source_attributes(b: Seq<u8>) -> Seq<AttributeSpan> {
    attributes(b, 0, false)
}

/// Every span lies in the source, and the spans follow one another.
pub open spec fn spans_ordered(b: Seq<u8>, spans: Seq<AttributeSpan>, from: int) -> bool {
    &&& forall|k: int|
        0 <= k < spans.len() ==> {
            let s = #[trigger] spans[k];
            &&& from <= s.start < s.name_end < s.open < span_end(b, s) <= b.len()
            &&& b[s.open] == 0x7b
            &&& forall|m: int| s.start <= m < s.name_end ==> is_name_byte(#[trigger] b[m])
            &&& s.close matches Some(c) ==> b[c] == 0x7d && s.open < c
        }
    &&& forall|k: int, l: int|
        0 <= k < l < spans.len() ==> span_end(b, #[trigger] spans[k]) <= (#[trigger] spans[l]).start
}

/// The position just behind an attribute.
pub open spec fn span_end(b: Seq<u8>, s: AttributeSpan) -> int {
    match s.close {
        Some(c) => c + 1,
        None => b.len() as int,
    }
}

pub proof fn lemma_attributes_ordered(b: Seq<u8>, i: int, in_tag: bool)
    requires
        0 <= i,
    ensures
        spans_ordered(b, attributes(b, i, in_tag), i),
    decreases b.len() - i,
{
    if i >= b.len() {
    } else if !in_tag {
        lemma_attributes_ordered(b, i + 1, b[i] == 0x3c);
    } else if b[i] == 0x3e {
        lemma_attributes_ordered(b, i + 1, false);
    } else if !is_name_start(b[i]) {
        lemma_attributes_ordered(b, i + 1, true);
    } else {
        lemma_attribute_at(b, i);
        match attribute_at(b, i) {
            None => {
                lemma_attributes_ordered(b, name_end(b, i + 1), true);
            },
            Some(span) => {
                if let Some(c) = span.close {
                    let rest = attributes(b, c + 1, true);
                    lemma_attributes_ordered(b, c + 1, true);
                    let all = seq![span] + rest;
                    assert forall|k: int| 0 <= k < all.len() implies {
                        let s = #[trigger] all[k];
                        &&& i <= s.start < s.name_end < s.open < span_end(b, s) <= b.len()
                        &&& b[s.open] == 0x7b
                        &&& forall|m: int|
                            s.start <= m < s.name_end ==> is_name_byte(#[trigger] b[m])
                        &&& s.close matches Some(c) ==> b[c] == 0x7d && s.open < c
                    } by {
                        if k > 0 {
                            assert(all[k] == rest[k - 1]);
                        }
                    }
                    assert forall|k: int, l: int| 0 <= k < l < all.len() implies span_end(
                        b,
                        #[trigger] all[k],
                    ) <= (#[trigger] all[l]).start by {
                        assert(all[l] == rest[l - 1]);
                        if k > 0 {
                            assert(all[k] == rest[k - 1]);
                        }
                    }
                }
            },
        }
    }
}

/// The text between two positions of a source.
pub open spec fn text_between(b: Seq<u8>, from: int, to: int) -> Seq<char> {
    decode_utf8(b.subrange(from, to))
}

/// The name of an attribute.
pub open spec fn span_name(b: Seq<u8>, s: AttributeSpan) -> Seq<char> {
    text_between(b, s.start, s.name_end)
}

/// The expression of an attribute: what stands inside its braces, trimmed.
pub open spec fn span_expression(b: Seq<u8>, s: AttributeSpan) -> Seq<char> {
    trim(
        text_between(
            b,
            s.open + 1,
            match s.close {
                Some(c) => c,
                None => b.len() as int,
            },
        ),
    )
}

/// Both sides of an ASCII byte of a text are character boundaries.
pub proof fn lemma_ascii_boundary(b: Seq<u8>, i: int)
    requires
        valid_utf8(b),
        0 <= i < b.len(),
        b[i] < 0x80,
    ensures
        is_char_boundary(b, i),
        is_char_boundary(b, i + 1),
    decreases b.len(),
{
    is_char_boundary_iff_not_is_continuation_byte(b, i);
    if i == 0 {
        reveal_with_fuel(is_char_boundary, 2);
    } else {
        let n = length_of_first_scalar(b);
        let tail = pop_first_scalar(b);
        if i < n {
            assert(is_continuation_byte(b[i]));
        } else {
            assert(tail[i - n] == b[i]);
            lemma_ascii_boundary(tail, i - n);
        }
    }
}

pub proof fn lemma_boundary_suffix(b: Seq<u8>, from: int, to: int)
    requires
        valid_utf8(b),
        is_char_boundary(b, from),
        is_char_boundary(b, to),
        0 <= from <= to <= b.len(),
    ensures
        valid_utf8(b.subrange(from, b.len() as int)),
        is_char_boundary(b.subrange(from, b.len() as int), to - from),
{
    valid_utf8_split(b, from);
    let s = b.subrange(from, b.len() as int);
    if to == b.len() {
        is_char_boundary_start_end_of_seq(s);
    } else {
        is_char_boundary_iff_not_is_continuation_byte(b, to);
        assert(s[to - from] == b[to]);
        is_char_boundary_iff_not_is_continuation_byte(s, to - from);
    }
}

/// The text between two byte positions that are character boundaries.
pub fn byte_slice<'a>(source: &'a str, from: usize, to: usize) -> (r: &'a str)
    requires
        is_char_boundary(source.spec_bytes(), from as int),
        is_char_boundary(source.spec_bytes(), to as int),
        from <= to <= source.spec_bytes().len(),
    ensures
        r@ == text_between(source.spec_bytes(), from as int, to as int),
        r.spec_bytes() == source.spec_bytes().subrange(from as int, to as int),
{
    broadcast use encode_utf8_valid_utf8;

    let ghost b = source.spec_bytes();
    proof {
        lemma_boundary_suffix(b, from as int, to as int);
    }
    let tail = source.split_at(from).1;
    let head = tail.split_at(to - from).0;
    proof {
        assert(b.subrange(from as int, b.len() as int).subrange(0, to - from) =~= b.subrange(
            from as int,
            to as int,
        ));
        encode_utf8_decode_utf8(head@);
    }
    head
}

/// The position of the brace that closes the one at `start`.
pub fn scan_braced_expression(source: &str, start: usize) -> (r: Option<usize>)
    ensures
        match r {
            Some(e) => braced_end(source.spec_bytes(), start as int, 0, None) == Some(e as int)
                && start <= e < source.spec_bytes().len() && source.spec_bytes()[e as int] == 0x7d,
            None => braced_end(source.spec_bytes(), start as int, 0, None) is None,
        },
{
    let bytes = source.as_bytes();
    let ghost goal = braced_end(bytes@, start as int, 0, None);
    let mut depth: usize = 0;
    let mut quote: Option<u8> = None;
    let mut i: usize = start;
    while i < bytes.len()
        invariant
            bytes@ == source.spec_bytes(),
            goal == braced_end(bytes@, start as int, 0, None),
            start <= i,
            depth <= i,
            goal == braced_end(bytes@, i as int, depth as nat, quote),
        decreases bytes.len() + 1 - i,
    {
        let byte: u8 = bytes[i];
        if let Some(delimiter) = quote {
            if byte == 0x5c {
                if i >= bytes.len() - 1 {
                    assert(braced_end(bytes@, i + 2, depth as nat, quote) is None);
                    return None;
                }
                i += 2;
            } else {
                if byte == delimiter {
                    quote = None;
                }
                i += 1;
            }
            continue;
        }
        if byte == 0x27 || byte == 0x22 || byte == 0x60 {
            quote = Some(byte);
        } else if byte == 0x7b {
            depth += 1;
        } else if byte == 0x7d {
            if depth == 0 {
                return None;
            }
            depth -= 1;
            if depth == 0 {
                return Some(i);
            }
        }
        i += 1;
    }
    None
}

/// A `name={expression}` attribute found in a tag: the name, the byte range of
/// the whole attribute, and the trimmed expression.
#[derive(Debug)]
pub struct JsxAttributeExpression {
    pub name: String,
    pub start: usize,
    pub end: usize,
    pub expression: String,
}

impl JsxAttributeExpression {
    /// This is the attribute at `span` of the source `b`.
    pub open spec fn reads(self, b: Seq<u8>, span: AttributeSpan) -> bool {
        &&& self.name@ == span_name(b, span)
        &&& self.start == span.start
        &&& self.end == span_end(b, span)
        &&& self.expression@ == span_expression(b, span)
    }
}

/// These are the attributes at `spans` of the source `b`, in order.
pub open spec fn reads_all(
    found: Seq<JsxAttributeExpression>,
    b: Seq<u8>,
    spans: Seq<AttributeSpan>,
) -> bool {
    &&& found.len() == spans.len()
    &&& forall|k: int| 0 <= k < found.len() ==> (#[trigger] found[k]).reads(b, spans[k])
}

fn name_end_of(bytes: &[u8], from: usize) -> (r: usize)
    requires
        from <= bytes@.len(),
    ensures
        r == name_end(bytes@, from as int),
        from <= r <= bytes@.len(),
{
    let mut i: usize = from;
    while i < bytes.len() && ((0x41 <= bytes[i] && bytes[i] <= 0x5a) || (0x61 <= bytes[i]
        && bytes[i] <= 0x7a) || bytes[i] == 0x5f || bytes[i] == 0x3a || (0x30 <= bytes[i]
        && bytes[i] <= 0x39) || bytes[i] == 0x2d)
        invariant
            from <= i <= bytes@.len(),
            name_end(bytes@, from as int) == name_end(bytes@, i as int),
        decreases bytes@.len() - i,
    {
        i += 1;
    }
    i
}

fn space_end_of(bytes: &[u8], from: usize) -> (r: usize)
    requires
        from <= bytes@.len(),
    ensures
        r == space_end(bytes@, from as int),
        from <= r <= bytes@.len(),
{
    let mut i: usize = from;
    while i < bytes.len() && (bytes[i] == 0x20 || bytes[i] == 0x09 || bytes[i] == 0x0a || bytes[i]
        == 0x0c || bytes[i] == 0x0d)
        invariant
            from <= i <= bytes@.len(),
            space_end(bytes@, from as int) == space_end(bytes@, i as int),
        decreases bytes@.len() - i,
    {
        i += 1;
    }
    i
}

/// The trimmed text between two byte positions.
fn trimmed_between(source: &str, from: usize, to: usize) -> (r: String)
    requires
        is_char_boundary(source.spec_bytes(), from as int),
        is_char_boundary(source.spec_bytes(), to as int),
        from <= to <= source.spec_bytes().len(),
    ensures
        r@ == trim(text_between(source.spec_bytes(), from as int, to as int)),
{
    let inner = chars_of(byte_slice(source, from, to));
    text_of(&trimmed(&inner))
}

/// The braced attributes of all tags of `source`, in order.
pub fn jsx_attribute_expressions(source: &str) -> (r: Vec<JsxAttributeExpression>)
    ensures
        reads_all(r@, source.spec_bytes(), source_attributes(source.spec_bytes())),
{
    broadcast use encode_utf8_valid_utf8;

    let bytes = source.as_bytes();
    let ghost all = source_attributes(bytes@);
    let mut out: Vec<JsxAttributeExpression> = Vec::new();
    let mut i: usize = 0;
    let mut in_tag: bool = false;
    while i < bytes.len()
        invariant
            bytes@ == source.spec_bytes(),
            all == source_attributes(bytes@),
            valid_utf8(bytes@),
            i <= bytes@.len(),
            out@.len() + attributes(bytes@, i as int, in_tag).len() == all.len(),
            forall|k: int| 0 <= k < out@.len() ==> (#[trigger] out@[k]).reads(bytes@, all[k]),
            forall|k: int|
                0 <= k < attributes(bytes@, i as int, in_tag).len() ==> #[trigger] attributes(
                    bytes@,
                    i as int,
                    in_tag,
                )[k] == all[out@.len() + k],
        decreases bytes@.len() - i,
    {
        let byte: u8 = bytes[i];
        if !in_tag {
            in_tag = byte == 0x3c;
            i += 1;
        } else if byte == 0x3e {
            in_tag = false;
            i += 1;
        } else if !((0x41 <= byte && byte <= 0x5a) || (0x61 <= byte && byte <= 0x7a) || byte == 0x5f
            || byte == 0x3a) {
            i += 1;
        } else {
            let start: usize = i;
            proof {
                lemma_attribute_at(bytes@, start as int);
            }
            let name_stop: usize = name_end_of(bytes, start + 1);
            let equals: usize = space_end_of(bytes, name_stop);
            if equals >= bytes.len() || bytes[equals] != 0x3d {
                i = name_stop;
                continue;
            }
            let open: usize = space_end_of(bytes, equals + 1);
            if open >= bytes.len() || bytes[open] != 0x7b {
                i = name_stop;
                continue;
            }
            proof {
                lemma_ascii_boundary(bytes@, start as int);
                assert(is_name_byte(bytes@[name_stop - 1]));
                lemma_ascii_boundary(bytes@, name_stop - 1);
                lemma_ascii_boundary(bytes@, open as int);
                is_char_boundary_start_end_of_seq(bytes@);
            }
            let name = byte_slice(source, start, name_stop).to_owned();
            let ghost span = attribute_at(bytes@, start as int)->0;
            let ghost here = attributes(bytes@, i as int, in_tag);
            assert(here[0] == span);
            match scan_braced_expression(source, open) {
                None => {
                    assert(here == seq![span]);
                    out.push(
                        JsxAttributeExpression {
                            name,
                            start,
                            end: bytes.len(),
                            expression: trimmed_between(source, open + 1, bytes.len()),
                        },
                    );
                    return out;
                },
                Some(close) => {
                    proof {
                        lemma_ascii_boundary(bytes@, close as int);
                        let rest = attributes(bytes@, close + 1, true);
                        assert(here == seq![span] + rest);
                        assert forall|k: int| 0 <= k < rest.len() implies #[trigger] rest[k]
                            == all[out@.len() + 1 + k] by {
                            assert(here[k + 1] == rest[k]);
                        }
                    }
                    out.push(
                        JsxAttributeExpression {
                            name,
                            start,
                            end: close + 1,
                            expression: trimmed_between(source, open + 1, close),
                        },
                    );
                    i = close + 1;
                },
            }
        }
    }
    out
}

/// An event handler attribute.
pub open spec fn is_handler(b: Seq<u8>, s: AttributeSpan) -> bool {
    span_name(b, s) == "onClick"@
}

/// The source texts of the event handlers among `spans`.
pub open spec fn handler_texts(b: Seq<u8>, spans: Seq<AttributeSpan>) -> Seq<Seq<char>>
    decreases spans.len(),
{
    if spans.len() == 0 {
        Seq::empty()
    } else if is_handler(b, spans.last()) {
        handler_texts(b, spans.drop_last()).push(
            text_between(b, spans.last().start, span_end(b, spans.last())),
        )
    } else {
        handler_texts(b, spans.drop_last())
    }
}

/// What is left of `b` behind `from` without the handlers among `spans`.
pub open spec fn cut_handlers(b: Seq<u8>, spans: Seq<AttributeSpan>, from: int) -> Seq<char>
    decreases spans.len(),
{
    if spans.len() == 0 {
        text_between(b, from, b.len() as int)
    } else if is_handler(b, spans[0]) {
        text_between(b, from, spans[0].start) + cut_handlers(
            b,
            spans.skip(1),
            span_end(b, spans[0]),
        )
    } else {
        cut_handlers(b, spans.skip(1), from)
    }
}

/// `s` without its event handlers.
pub open spec fn strip_handlers(s: Seq<char>) -> Seq<char> {
    cut_handlers(encode_utf8(s), source_attributes(encode_utf8(s)), 0)
}

/// Taking a found range out of a text leaves a shorter one.
pub proof fn lemma_range_shrinks(s: Seq<char>, open: Seq<char>, close: Seq<char>, gap: int)
    requires
        0 <= gap,
    ensures
        find(s, open) matches Some(start) ==> {
            &&& 0 <= start
            &&& start + open.len() <= s.len()
            &&& find_from(s, close, start + gap) matches Some(end) ==> start + gap <= end && end
                + close.len() <= s.len()
        },
        "{/*"@.len() == 3,
        "*/}"@.len() == 3,
        "/>"@.len() == 2,
{
    reveal_strlit("{/*");
    reveal_strlit("*/}");
    reveal_strlit("/>");
    lemma_find_from(s, open, 0);
    if let Some(start) = find(s, open) {
        lemma_find_from(s, close, start + gap);
    }
}

/// `s` without its JSX comments, taken away from the front until none is left
/// that is closed.
pub open spec fn strip_comments(s: Seq<char>) -> Seq<char>
    decreases s.len(),
{
    match find(s, "{/*"@) {
        None => s,
        Some(start) => match find_from(s, "*/}"@, start + 3) {
            None => s,
            Some(end) => {
                proof {
                    lemma_range_shrinks(s, "{/*"@, "*/}"@, 3);
                }
                strip_comments(s.take(start) + s.skip(end + 3))
            },
        },
    }
}

/// Both ends of an attribute span are character boundaries.
proof fn lemma_span_boundaries(b: Seq<u8>, spans: Seq<AttributeSpan>, k: int)
    requires
        valid_utf8(b),
        spans_ordered(b, spans, 0),
        0 <= k < spans.len(),
    ensures
        is_char_boundary(b, spans[k].start),
        is_char_boundary(b, span_end(b, spans[k])),
{
    let s = spans[k];
    assert(is_name_byte(b[s.start]));
    lemma_ascii_boundary(b, s.start);
    match s.close {
        Some(c) => {
            lemma_ascii_boundary(b, c);
        },
        None => {
            is_char_boundary_start_end_of_seq(b);
        },
    }
}

/// The event handlers of all tags of `source`, as they are written.
pub fn event_handlers(source: &str) -> (r: Vec<String>)
    ensures
        texts(r@) == handler_texts(source.spec_bytes(), source_attributes(source.spec_bytes())),
{
    broadcast use encode_utf8_valid_utf8;

    let found = jsx_attribute_expressions(source);
    let ghost b = source.spec_bytes();
    let ghost spans = source_attributes(b);
    proof {
        lemma_attributes_ordered(b, 0, false);
    }
    let mut out: Vec<String> = Vec::new();
    let mut i: usize = 0;
    while i < found.len()
        invariant
            b == source.spec_bytes(),
            valid_utf8(b),
            reads_all(found@, b, spans),
            spans_ordered(b, spans, 0),
            i <= found.len(),
            texts(out@) == handler_texts(b, spans.take(i as int)),
        decreases found.len() - i,
    {
        let e = &found[i];
        proof {
            assert(found@[i as int].reads(b, spans[i as int]));
            assert(spans.take(i + 1).drop_last() =~= spans.take(i as int));
            assert(spans.take(i + 1).last() == spans[i as int]);
            lemma_span_boundaries(b, spans, i as int);
        }
        if eq_str(&chars_of(e.name.as_str()), "onClick") {
            let handler = byte_slice(source, e.start, e.end).to_owned();
            proof {
                assert(texts(out@.push(handler)) =~= texts(out@).push(handler@));
            }
            out.push(handler);
        }
        i += 1;
    }
    assert(spans.take(spans.len() as int) =~= spans);
    out
}

fn without_comments(source: &Vec<char>) -> (r: Vec<char>)
    ensures
        r@ == strip_comments(source@),
{
    let mut result = slice(source, 0, source.len());
    assert(result@ =~= source@);
    proof {
        reveal_strlit("{/*");
        reveal_strlit("*/}");
    }
    loop
        invariant
            "{/*"@.len() == 3,
            "*/}"@.len() == 3,
            strip_comments(result@) == strip_comments(source@),
        decreases result.len(),
    {
        match find_str(&result, "{/*") {
            None => {
                return result;
            },
            Some(start) => {
                match find_str_from(&result, "*/}", start + 3) {
                    None => {
                        return result;
                    },
                    Some(end) => {
                        proof {
                            lemma_find_from(result@, "*/}"@, start + 3);
                        }
                        result = without(&result, start, end + 3);
                    },
                }
            },
        }
    }
}

/// `source` without its JSX comments and without its event handlers.
pub fn strip_jsx_comments_and_handlers(source: &str) -> (r: String)
    ensures
        r@ == strip_handlers(strip_comments(source@)),
{
    broadcast use encode_utf8_valid_utf8;

    let bare = text_of(&without_comments(&chars_of(source)));
    let bare_str = bare.as_str();
    let found = jsx_attribute_expressions(bare_str);
    let ghost b = bare_str.spec_bytes();
    let ghost spans = source_attributes(b);
    proof {
        lemma_attributes_ordered(b, 0, false);
        is_char_boundary_start_end_of_seq(b);
        assert(spans.skip(0) =~= spans);
    }
    let mut out: Vec<char> = Vec::new();
    let mut from: usize = 0;
    let mut i: usize = 0;
    assert(out@ + cut_handlers(b, spans, 0) =~= cut_handlers(b, spans, 0));
    while i < found.len()
        invariant
            b == bare_str.spec_bytes(),
            valid_utf8(b),
            reads_all(found@, b, spans),
            spans_ordered(b, spans, 0),
            i <= found.len(),
            from <= b.len(),
            is_char_boundary(b, from as int),
            forall|k: int| i <= k < spans.len() ==> from <= (#[trigger] spans[k]).start,
            out@ + cut_handlers(b, spans.skip(i as int), from as int) == cut_handlers(b, spans, 0),
        decreases found.len() - i,
    {
        let e = &found[i];
        proof {
            assert(found@[i as int].reads(b, spans[i as int]));
            assert(spans.skip(i as int)[0] == spans[i as int]);
            assert(spans.skip(i as int).skip(1) =~= spans.skip(i + 1));
            lemma_span_boundaries(b, spans, i as int);
        }
        if eq_str(&chars_of(e.name.as_str()), "onClick") {
            let ghost before = out@;
            let gap = chars_of(byte_slice(bare_str, from, e.start));
            push_all(&mut out, &gap);
            proof {
                let rest = cut_handlers(b, spans.skip(i + 1), e.end as int);
                assert(before + (gap@ + rest) =~= (before + gap@) + rest);
            }
            from = e.end;
        }
        i += 1;
    }
    let len: usize = bare_str.as_bytes().len();
    let tail = chars_of(byte_slice(bare_str, from, len));
    push_all(&mut out, &tail);
    text_of(&out)
}

/// The first braced expression of `b` from `i` on that is not `{false}`. A
/// brace that is never closed ends the search.
pub open spec fn first_unsupported(b: Seq<u8>, i: int) -> Option<Seq<char>>
    decreases b.len() - i,
{
    if i < 0 || i >= b.len() {
        None
    } else if b[i] != 0x7b {
        first_unsupported(b, i + 1)
    } else {
        match braced_end(b, i, 0, None) {
            None => None,
            Some(e) => {
                let token = text_between(b, i, e + 1);
                if trim(token) != "{false}"@ {
                    Some(token)
                } else {
                    proof {
                        lemma_braced_end(b, i, 0, None);
                    }
                    first_unsupported(b, e + 1)
                }
            },
        }
    }
}

/// The first rendered expression that a static snapshot cannot stand for.
pub fn first_unsupported_rendered_expression(source: &str) -> (r: Option<String>)
    ensures
        match r {
            Some(token) => first_unsupported(source.spec_bytes(), 0) == Some(token@),
            None => first_unsupported(source.spec_bytes(), 0) is None,
        },
{
    broadcast use encode_utf8_valid_utf8;

    let bytes = source.as_bytes();
    let mut i: usize = 0;
    while i < bytes.len()
        invariant
            bytes@ == source.spec_bytes(),
            valid_utf8(bytes@),
            i <= bytes@.len(),
            first_unsupported(bytes@, 0) == first_unsupported(bytes@, i as int),
        decreases bytes@.len() - i,
    {
        if bytes[i] != 0x7b {
            i += 1;
            continue;
        }
        match scan_braced_expression(source, i) {
            None => {
                return None;
            },
            Some(end) => {
                proof {
                    lemma_ascii_boundary(bytes@, i as int);
                    lemma_ascii_boundary(bytes@, end as int);
                }
                let token = byte_slice(source, i, end + 1);
                if !eq_str(&trimmed(&chars_of(token)), "{false}") {
                    return Some(token.to_owned());
                }
                i = end + 1;
            },
        }
    }
    None
}

/// The literal texts between a `>` and the next `<`: white space is folded into
/// single blanks, and texts that are empty or hold a brace are left out.
pub open spec fn jsx_texts(s: Seq<char>) -> Seq<Seq<char>>
    decreases s.len(),
{
    match find(s, ">"@) {
        None => Seq::empty(),
        Some(close) => {
            let behind = s.skip(close + 1);
            match find(behind, "<"@) {
                None => Seq::empty(),
                Some(open) => {
                    let value = join(words(behind.take(open)), " "@);
                    proof {
                        reveal_strlit(">");
                        reveal_strlit("<");
                        lemma_find_from(s, ">"@, 0);
                        lemma_find_from(behind, "<"@, 0);
                    }
                    let more = jsx_texts(behind.skip(open));
                    if value.len() == 0 || contains(value, "{"@) || contains(value, "}"@) {
                        more
                    } else {
                        seq![value] + more
                    }
                },
            }
        },
    }
}

/// The visible literal texts of a JSX tree, in order.
pub fn literal_jsx_text(source: &str) -> (r: Vec<String>)
    ensures
        texts(r@) == jsx_texts(source@),
{
    proof {
        reveal_strlit(">");
        reveal_strlit("<");
    }
    let mut out: Vec<String> = Vec::new();
    let mut rest = chars_of(source);
    assert(texts(out@) + jsx_texts(rest@) =~= jsx_texts(source@));
    loop
        invariant
            ">"@.len() == 1,
            "<"@.len() == 1,
            texts(out@) + jsx_texts(rest@) == jsx_texts(source@),
        decreases rest.len(),
    {
        let ghost done = texts(out@);
        let ghost here = rest@;
        match find_str(&rest, ">") {
            None => {
                assert(done + jsx_texts(here) =~= done);
                return out;
            },
            Some(close) => {
                let behind = slice(&rest, close + 1, rest.len());
                assert(behind@ =~= rest@.skip(close + 1));
                match find_str(&behind, "<") {
                    None => {
                        assert(done + jsx_texts(here) =~= done);
                        return out;
                    },
                    Some(open) => {
                        let segment = slice(&behind, 0, open);
                        assert(segment@ =~= behind@.take(open as int));
                        let parts = split_words(&segment);
                        proof {
                            lemma_same_words(parts@, words(segment@));
                        }
                        let value = join_words(&parts, " ");
                        let next = slice(&behind, open, behind.len());
                        assert(next@ =~= behind@.skip(open as int));
                        if value.len() > 0 && !contains_str(&value, "{") && !contains_str(
                            &value,
                            "}",
                        ) {
                            let text = text_of(&value);
                            proof {
                                assert(texts(out@.push(text)) =~= done.push(value@));
                                assert(done + (seq![value@] + jsx_texts(next@)) =~= done.push(
                                    value@,
                                ) + jsx_texts(next@));
                            }
                            out.push(text);
                        }
                        rest = next;
                    },
                }
            },
        }
    }
}

/// `s` without its `<EmptyState ... />` tags, taken away from the front.
pub open spec fn strip_empty_state(s: Seq<char>) -> Seq<char>
    decreases s.len(),
{
    match find(s, "<EmptyState"@) {
        None => s,
        Some(start) => match find_from(s, "/>"@, start) {
            None => s,
            Some(end) => {
                proof {
                    lemma_range_shrinks(s, "<EmptyState"@, "/>"@, 0);
                }
                strip_empty_state(s.take(start) + s.skip(end + 2))
            },
        },
    }
}

/// `source` without the branches that a loaded, non-empty catalog never shows.
pub fn strip_unreachable_branches(source: &str) -> (r: String)
    ensures
        r@ == strip_empty_state(source@),
{
    proof {
        reveal_strlit("<EmptyState");
        reveal_strlit("/>");
    }
    let mut out = chars_of(source);
    loop
        invariant
            "/>"@.len() == 2,
            strip_empty_state(out@) == strip_empty_state(source@),
        decreases out.len(),
    {
        match find_str(&out, "<EmptyState") {
            None => {
                return text_of(&out);
            },
            Some(start) => {
                match find_str_from(&out, "/>", start) {
                    None => {
                        return text_of(&out);
                    },
                    Some(end) => {
                        proof {
                            lemma_find_from(out@, "/>"@, start as int);
                        }
                        out = without(&out, start, end + 2);
                    },
                }
            },
        }
    }
}

/// The references that the catalog lowering consumes.
pub open spec fn is_catalog_reference(name: Seq<char>, expression: Seq<char>) -> bool {
    ||| name == "href"@ && expression == "app.url"@
    ||| name == "src"@ && expression == "app.icon"@
    ||| name == "key"@ && expression == "app.id"@
    ||| name == "app"@ && expression == "app"@
}

/// The first of `spans` that is no catalog reference, as `name={expression}`.
pub open spec fn first_foreign(b: Seq<u8>, spans: Seq<AttributeSpan>) -> Option<Seq<char>>
    decreases spans.len(),
{
    if spans.len() == 0 {
        None
    } else if is_catalog_reference(span_name(b, spans[0]), span_expression(b, spans[0])) {
        first_foreign(b, spans.skip(1))
    } else {
        Some(span_name(b, spans[0]) + "={"@ + span_expression(b, spans[0]) + "}"@)
    }
}

/// The first attribute expression that is no catalog reference.
pub fn unsupported_attribute_expression(source: &str) -> (r: Option<String>)
    ensures
        match r {
            Some(token) => first_foreign(
                source.spec_bytes(),
                source_attributes(source.spec_bytes()),
            ) == Some(token@),
            None => first_foreign(
                source.spec_bytes(),
                source_attributes(source.spec_bytes()),
            ) is None,
        },
{
    let found = jsx_attribute_expressions(source);
    let ghost b = source.spec_bytes();
    let ghost spans = source_attributes(b);
    assert(spans.skip(0) =~= spans);
    let mut i: usize = 0;
    while i < found.len()
        invariant
            b == source.spec_bytes(),
            spans == source_attributes(b),
            reads_all(found@, b, spans),
            i <= found.len(),
            first_foreign(b, spans.skip(i as int)) == first_foreign(b, spans),
        decreases found.len() - i,
    {
        proof {
            assert(found@[i as int].reads(b, spans[i as int]));
            assert(spans.skip(i as int)[0] == spans[i as int]);
            assert(spans.skip(i as int).skip(1) =~= spans.skip(i + 1));
        }
        let name = chars_of(found[i].name.as_str());
        let expression = chars_of(found[i].expression.as_str());
        let allowed = (eq_str(&name, "href") && eq_str(&expression, "app.url")) || (eq_str(
            &name,
            "src",
        ) && eq_str(&expression, "app.icon")) || (eq_str(&name, "key") && eq_str(
            &expression,
            "app.id",
        )) || (eq_str(&name, "app") && eq_str(&expression, "app"));
        if !allowed {
            let mut token = name;
            push_str(&mut token, "={");
            push_all(&mut token, &expression);
            push_str(&mut token, "}");
            return Some(text_of(&token));
        }
        i += 1;
    }
    None
}

} // verus!
