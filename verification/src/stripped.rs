//! The laws of stripped sources: when no event handler is left in them.
use crate::jsx::{
    attribute_at, attributes, braced_end, cut_handlers, handler_texts, is_ascii_space, is_handler,
    is_name_byte, is_name_start, is_quote, lemma_ascii_boundary, lemma_attribute_at,
    lemma_boundary_suffix, lemma_braced_end, lemma_space_end, name_end, source_attributes, space_end,
    span_end, strip_comments, strip_handlers, text_between, AttributeSpan,
};
use vstd::prelude::*;
use vstd::utf8::*;

verus! {

/// An attribute is not the value of another one, nor has it a second value: up to
/// white space, no `=` stands in front of it or behind it.
pub open spec fn stands_alone(b: Seq<u8>, s: AttributeSpan) -> bool {
    let behind = space_end(b, span_end(b, s));
    &&& behind < b.len() ==> b[behind] != 0x3d
    &&& forall|e: int|
        0 <= e < s.start && b[e] == 0x3d ==> #[trigger] space_end(b, e + 1) != s.start
}

/// Every event handler among the attributes stands alone.
pub open spec fn handlers_stand_alone(b: Seq<u8>, spans: Seq<AttributeSpan>) -> bool {
    forall|k: int|
        0 <= k < spans.len() && is_handler(b, #[trigger] spans[k]) ==> stands_alone(b, spans[k])
}

/// What is kept of `b` from `i` on: all bytes but those of event handlers.
pub open spec fn kept(b: Seq<u8>, i: int, in_tag: bool) -> Seq<u8>
    decreases b.len() - i,
{
    if i < 0 || i >= b.len() {
        Seq::empty()
    } else if !in_tag {
        seq![b[i]] + kept(b, i + 1, b[i] == 0x3c)
    } else if b[i] == 0x3e {
        seq![b[i]] + kept(b, i + 1, false)
    } else if !is_name_start(b[i]) {
        seq![b[i]] + kept(b, i + 1, true)
    } else {
        proof {
            lemma_attribute_at(b, i);
        }
        match attribute_at(b, i) {
            None => b.subrange(i, name_end(b, i + 1)) + kept(b, name_end(b, i + 1), true),
            Some(span) => if is_handler(b, span) {
                match span.close {
                    None => Seq::empty(),
                    Some(c) => kept(b, c + 1, true),
                }
            } else {
                match span.close {
                    None => b.subrange(i, b.len() as int),
                    Some(c) => b.subrange(i, c + 1) + kept(b, c + 1, true),
                }
            },
        }
    }
}

/// There is no event handler among the attributes of `b` from `i` on.
pub open spec fn is_free(b: Seq<u8>, i: int, in_tag: bool) -> bool
    decreases b.len() - i,
{
    if i < 0 || i >= b.len() {
        true
    } else if !in_tag {
        is_free(b, i + 1, b[i] == 0x3c)
    } else if b[i] == 0x3e {
        is_free(b, i + 1, false)
    } else if !is_name_start(b[i]) {
        is_free(b, i + 1, true)
    } else {
        proof {
            lemma_attribute_at(b, i);
        }
        match attribute_at(b, i) {
            None => is_free(b, name_end(b, i + 1), true),
            Some(span) => !is_handler(b, span) && match span.close {
                None => true,
                Some(c) => is_free(b, c + 1, true),
            },
        }
    }
}

/// Stripping the event handlers of `b` from `i` on leaves none. Another one can only
/// come of a name in a tag that has no braced value and gets one when what stands
/// between them is cut out: where that name is `onClick`, or where, with that value
/// read as a whole, an event handler stands behind it.
pub open spec fn leaves_none(b: Seq<u8>, i: int, in_tag: bool) -> bool
    decreases b.len() - i,
{
    if i < 0 || i >= b.len() {
        true
    } else if !in_tag {
        leaves_none(b, i + 1, b[i] == 0x3c)
    } else if b[i] == 0x3e {
        leaves_none(b, i + 1, false)
    } else if !is_name_start(b[i]) {
        leaves_none(b, i + 1, true)
    } else {
        proof {
            lemma_attribute_at(b, i);
        }
        match attribute_at(b, i) {
            Some(span) => match span.close {
                None => true,
                Some(c) => leaves_none(b, c + 1, true),
            },
            None => {
                let n = name_end(b, i + 1);
                let c = b.subrange(i, n) + kept(b, n, true);
                match attribute_at(c, 0) {
                    None => leaves_none(b, n, true),
                    Some(gained) => !is_handler(c, gained) && match gained.close {
                        None => true,
                        Some(e) => is_free(c, e + 1, true),
                    },
                }
            },
        }
    }
}

/// None of the attributes is an event handler.
spec fn has_none(b: Seq<u8>, spans: Seq<AttributeSpan>) -> bool {
    forall|k: int| 0 <= k < spans.len() ==> !is_handler(b, #[trigger] spans[k])
}

proof fn lemma_free_has_none(b: Seq<u8>, i: int, in_tag: bool)
    ensures
        is_free(b, i, in_tag) == has_none(b, attributes(b, i, in_tag)),
    decreases b.len() - i,
{
    if i < 0 || i >= b.len() {
    } else if !in_tag {
        lemma_free_has_none(b, i + 1, b[i] == 0x3c);
    } else if b[i] == 0x3e {
        lemma_free_has_none(b, i + 1, false);
    } else if !is_name_start(b[i]) {
        lemma_free_has_none(b, i + 1, true);
    } else {
        lemma_attribute_at(b, i);
        match attribute_at(b, i) {
            None => lemma_free_has_none(b, name_end(b, i + 1), true),
            Some(span) => {
                let all = attributes(b, i, in_tag);
                match span.close {
                    None => {
                        assert(all == seq![span]);
                        assert(all[0] == span);
                    },
                    Some(c) => {
                        lemma_free_has_none(b, c + 1, true);
                        let rest = attributes(b, c + 1, true);
                        assert(all == seq![span] + rest);
                        assert(all[0] == span);
                        assert(forall|k: int| 0 <= k < rest.len() ==> #[trigger] rest[k] == all[k + 1]);
                        assert(forall|k: int| 0 < k < all.len() ==> #[trigger] all[k] == rest[k - 1]);
                    },
                }
            },
        }
    }
}

proof fn lemma_no_texts(b: Seq<u8>, spans: Seq<AttributeSpan>)
    ensures
        (handler_texts(b, spans) == Seq::<Seq<char>>::empty()) == has_none(b, spans),
    decreases spans.len(),
{
    if spans.len() > 0 {
        let rest = spans.drop_last();
        lemma_no_texts(b, rest);
        assert(spans.last() == spans[spans.len() - 1]);
        assert(forall|k: int| 0 <= k < rest.len() ==> #[trigger] rest[k] == spans[k]);
        if is_handler(b, spans.last()) {
            assert(handler_texts(b, spans).len() > 0);
        } else {
            assert(forall|k: int|
                0 <= k < spans.len() - 1 ==> #[trigger] spans[k] == rest[k]);
        }
    }
}

// Reading on behind a prefix.

proof fn lemma_name_shift(p: Seq<u8>, q: Seq<u8>, j: int)
    requires
        0 <= j,
    ensures
        name_end(p + q, p.len() + j) == p.len() + name_end(q, j),
    decreases q.len() - j,
{
    if j < q.len() {
        assert((p + q)[p.len() + j] == q[j]);
        if is_name_byte(q[j]) {
            lemma_name_shift(p, q, j + 1);
        }
    }
}

proof fn lemma_space_shift(p: Seq<u8>, q: Seq<u8>, j: int)
    requires
        0 <= j,
    ensures
        space_end(p + q, p.len() + j) == p.len() + space_end(q, j),
    decreases q.len() - j,
{
    if j < q.len() {
        assert((p + q)[p.len() + j] == q[j]);
        if is_ascii_space(q[j]) {
            lemma_space_shift(p, q, j + 1);
        }
    }
}

/// A position moved by `n`.
spec fn moved(e: Option<int>, n: int) -> Option<int> {
    match e {
        Some(k) => Some(k + n),
        None => None,
    }
}

proof fn lemma_braced_shift(p: Seq<u8>, q: Seq<u8>, j: int, depth: nat, quote: Option<u8>)
    requires
        0 <= j,
    ensures
        braced_end(p + q, p.len() + j, depth, quote) == moved(
            braced_end(q, j, depth, quote),
            p.len() as int,
        ),
    decreases q.len() + 1 - j,
{
    if j < q.len() {
        let n = p.len();
        assert((p + q)[n + j] == q[j]);
        if quote is Some {
            if q[j] == 0x5c {
                lemma_braced_shift(p, q, j + 2, depth, quote);
            } else if q[j] == quote->0 {
                lemma_braced_shift(p, q, j + 1, depth, None);
            } else {
                lemma_braced_shift(p, q, j + 1, depth, quote);
            }
        } else if is_quote(q[j]) || q[j] == 0x60 {
            lemma_braced_shift(p, q, j + 1, depth, Some(q[j]));
        } else if q[j] == 0x7b {
            lemma_braced_shift(p, q, j + 1, depth + 1, None);
        } else if q[j] == 0x7d {
            if depth > 1 {
                lemma_braced_shift(p, q, j + 1, (depth - 1) as nat, None);
            }
        } else {
            lemma_braced_shift(p, q, j + 1, depth, None);
        }
    }
}

/// An attribute moved by `n`.
spec fn moved_span(s: AttributeSpan, n: int) -> AttributeSpan {
    AttributeSpan {
        start: s.start + n,
        name_end: s.name_end + n,
        open: s.open + n,
        close: moved(s.close, n),
    }
}

proof fn lemma_attribute_shift(p: Seq<u8>, q: Seq<u8>, j: int)
    requires
        0 <= j < q.len(),
        is_name_start(q[j]),
    ensures
        match attribute_at(q, j) {
            Some(s) => attribute_at(p + q, p.len() + j) == Some(moved_span(s, p.len() as int))
                && is_handler(p + q, moved_span(s, p.len() as int)) == is_handler(q, s),
            None => attribute_at(p + q, p.len() + j) is None,
        },
{
    let b = p + q;
    let l = p.len();
    lemma_attribute_at(q, j);
    lemma_name_shift(p, q, j + 1);
    let n = name_end(q, j + 1);
    lemma_space_shift(p, q, n);
    lemma_space_end(q, n);
    let e = space_end(q, n);
    lemma_space_shift(p, q, e + 1);
    lemma_space_end(q, e + 1);
    let v = space_end(q, e + 1);
    lemma_braced_shift(p, q, v, 0, None);
    if e < q.len() {
        assert(b[l + e] == q[e]);
    }
    if v < q.len() {
        assert(b[l + v] == q[v]);
    }
    assert(b.subrange(l + j, l + n) =~= q.subrange(j, n));
}

proof fn lemma_free_shift(p: Seq<u8>, q: Seq<u8>, j: int, in_tag: bool)
    requires
        0 <= j,
    ensures
        is_free(p + q, p.len() + j, in_tag) == is_free(q, j, in_tag),
    decreases q.len() - j,
{
    let b = p + q;
    let l = p.len();
    if j < q.len() {
        assert(b[l + j] == q[j]);
        if !in_tag {
            lemma_free_shift(p, q, j + 1, q[j] == 0x3c);
        } else if q[j] == 0x3e {
            lemma_free_shift(p, q, j + 1, false);
        } else if !is_name_start(q[j]) {
            lemma_free_shift(p, q, j + 1, true);
        } else {
            lemma_attribute_at(q, j);
            lemma_attribute_at(b, l + j);
            lemma_attribute_shift(p, q, j);
            match attribute_at(q, j) {
                None => {
                    lemma_name_shift(p, q, j + 1);
                    lemma_free_shift(p, q, name_end(q, j + 1), true);
                },
                Some(s) => {
                    if let Some(c) = s.close {
                        lemma_free_shift(p, q, c + 1, true);
                    }
                },
            }
        }
    }
}

// Reading what is the same up to some position.

/// The first `k` bytes are the same.
spec fn agree(z: Seq<u8>, c: Seq<u8>, k: int) -> bool {
    k <= z.len() && k <= c.len() && forall|m: int| 0 <= m < k ==> z[m] == #[trigger] c[m]
}

proof fn lemma_name_agrees(z: Seq<u8>, c: Seq<u8>, k: int, j: int)
    requires
        agree(z, c, k),
        0 <= j,
        name_end(z, j) < k,
    ensures
        name_end(c, j) == name_end(z, j),
    decreases z.len() - j,
{
    if j < k {
        assert(z[j] == c[j]);
        if is_name_byte(z[j]) {
            lemma_name_agrees(z, c, k, j + 1);
        }
    } else {
        lemma_name_end_above(z, j);
    }
}

proof fn lemma_name_end_above(b: Seq<u8>, i: int)
    ensures
        i <= name_end(b, i),
    decreases b.len() - i,
{
    if 0 <= i < b.len() && is_name_byte(b[i]) {
        lemma_name_end_above(b, i + 1);
    }
}

proof fn lemma_space_agrees(z: Seq<u8>, c: Seq<u8>, k: int, j: int)
    requires
        agree(z, c, k),
        0 <= j,
        space_end(z, j) < k,
    ensures
        space_end(c, j) == space_end(z, j),
    decreases z.len() - j,
{
    if j < k {
        assert(z[j] == c[j]);
        if is_ascii_space(z[j]) {
            lemma_space_agrees(z, c, k, j + 1);
        }
    } else {
        lemma_space_end(z, j);
    }
}

proof fn lemma_braced_agrees(
    z: Seq<u8>,
    c: Seq<u8>,
    k: int,
    j: int,
    depth: nat,
    quote: Option<u8>,
)
    requires
        agree(z, c, k),
        0 <= j,
        braced_end(z, j, depth, quote) matches Some(e) && e < k,
    ensures
        braced_end(c, j, depth, quote) == braced_end(z, j, depth, quote),
    decreases z.len() + 1 - j,
{
    lemma_braced_end(z, j, depth, quote);
    assert(z[j] == c[j]);
    if quote is Some {
        if z[j] == 0x5c {
            lemma_braced_agrees(z, c, k, j + 2, depth, quote);
        } else if z[j] == quote->0 {
            lemma_braced_agrees(z, c, k, j + 1, depth, None);
        } else {
            lemma_braced_agrees(z, c, k, j + 1, depth, quote);
        }
    } else if is_quote(z[j]) || z[j] == 0x60 {
        lemma_braced_agrees(z, c, k, j + 1, depth, Some(z[j]));
    } else if z[j] == 0x7b {
        lemma_braced_agrees(z, c, k, j + 1, depth + 1, None);
    } else if z[j] == 0x7d {
        if depth > 1 {
            lemma_braced_agrees(z, c, k, j + 1, (depth - 1) as nat, None);
        }
    } else {
        lemma_braced_agrees(z, c, k, j + 1, depth, None);
    }
}

/// A closed attribute at the start of a text is there whatever follows it.
proof fn lemma_attribute_agrees(z: Seq<u8>, c: Seq<u8>, k: int)
    requires
        z.len() > 0,
        is_name_start(z[0]),
        agree(z, c, k),
        attribute_at(z, 0) matches Some(s) && s.close matches Some(e) && e < k,
    ensures
        attribute_at(c, 0) == attribute_at(z, 0),
        is_handler(c, attribute_at(z, 0)->0) == is_handler(z, attribute_at(z, 0)->0),
{
    lemma_attribute_at(z, 0);
    let s = attribute_at(z, 0)->0;
    let n = name_end(z, 1);
    let e = space_end(z, n);
    let v = space_end(z, e + 1);
    lemma_space_end(z, n);
    lemma_space_end(z, e + 1);
    lemma_braced_end(z, v, 0, None);
    lemma_name_agrees(z, c, k, 1);
    lemma_space_agrees(z, c, k, n);
    lemma_space_agrees(z, c, k, e + 1);
    lemma_braced_agrees(z, c, k, v, 0, None);
    assert(z[e] == c[e] && z[v] == c[v]);
    assert(z.subrange(0, n) =~= c.subrange(0, n));
}

// What is kept.

/// White space in a tag is kept, and holds no attribute.
proof fn lemma_spaces_kept(b: Seq<u8>, n: int)
    requires
        0 <= n <= b.len(),
    ensures
        n <= space_end(b, n) <= b.len(),
        kept(b, n, true) == b.subrange(n, space_end(b, n)) + kept(b, space_end(b, n), true),
        attributes(b, n, true) == attributes(b, space_end(b, n), true),
        forall|m: int| n <= m < space_end(b, n) ==> is_ascii_space(#[trigger] b[m]),
        space_end(b, n) < b.len() ==> !is_ascii_space(b[space_end(b, n)]),
    decreases b.len() - n,
{
    if n < b.len() && is_ascii_space(b[n]) {
        lemma_spaces_kept(b, n + 1);
        let e = space_end(b, n + 1);
        assert(seq![b[n]] + b.subrange(n + 1, e) =~= b.subrange(n, e));
        assert(kept(b, n, true) =~= b.subrange(n, e) + kept(b, e, true));
    } else {
        assert(b.subrange(n, n) + kept(b, n, true) =~= kept(b, n, true));
    }
}

/// An event handler starts at `e`, where a tag is read.
spec fn handler_at(b: Seq<u8>, e: int) -> bool {
    0 <= e < b.len() && is_name_start(b[e]) && (attribute_at(b, e) matches Some(s) && is_handler(
        b,
        s,
    ))
}

/// Where no event handler starts, the next byte is kept.
proof fn lemma_first_kept(b: Seq<u8>, e: int)
    requires
        0 <= e < b.len(),
        !handler_at(b, e),
    ensures
        kept(b, e, true).len() > 0,
        kept(b, e, true)[0] == b[e],
{
    if b[e] != 0x3e && is_name_start(b[e]) {
        lemma_attribute_at(b, e);
    }
}

/// The spaces in front of a text.
proof fn lemma_leading(p: Seq<u8>, q: Seq<u8>)
    requires
        forall|m: int| 0 <= m < p.len() ==> is_ascii_space(#[trigger] p[m]),
    ensures
        space_end(p + q, 0) == p.len() + space_end(q, 0),
    decreases p.len(),
{
    if p.len() == 0 {
        assert(p + q =~= q);
    } else {
        let r = p.drop_last();
        let t = seq![p.last()] + q;
        assert(p + q =~= r + t);
        assert forall|m: int| 0 <= m < r.len() implies is_ascii_space(#[trigger] r[m]) by {
            assert(r[m] == p[m]);
        }
        lemma_leading(r, t);
        assert(is_ascii_space(p[p.len() - 1]));
        lemma_space_shift(seq![p.last()], q, 0);
        assert(t[0] == p.last());
        assert(space_end(t, 0) == space_end(t, 1));
    }
}

/// The first byte of what is kept that is no white space is not `=`, where the first
/// such byte of the source is not.
proof fn lemma_no_equals(b: Seq<u8>, j: int)
    requires
        0 <= j <= b.len(),
        space_end(b, j) < b.len() ==> b[space_end(b, j)] != 0x3d,
        handlers_stand_alone(b, attributes(b, j, true)),
    ensures
        ({
            let q = kept(b, j, true);
            let s = space_end(q, 0);
            s < q.len() ==> q[s] != 0x3d
        }),
    decreases b.len() - j,
{
    let k = space_end(b, j);
    lemma_spaces_kept(b, j);
    let q = kept(b, j, true);
    let p = b.subrange(j, k);
    let r = kept(b, k, true);
    assert forall|m: int| 0 <= m < p.len() implies is_ascii_space(#[trigger] p[m]) by {
        assert(p[m] == b[j + m]);
    }
    lemma_leading(p, r);
    if k < b.len() {
        if handler_at(b, k) {
            lemma_attribute_at(b, k);
            let span = attribute_at(b, k)->0;
            assert(b[k] != 0x3e);
            let all = attributes(b, k, true);
            assert(all[0] == span);
            assert(stands_alone(b, all[0]));
            match span.close {
                None => {},
                Some(c) => {
                    let rest = attributes(b, c + 1, true);
                    assert(all == seq![span] + rest);
                    assert forall|m: int|
                        0 <= m < rest.len() && is_handler(b, #[trigger] rest[m]) implies stands_alone(
                        b,
                        rest[m],
                    ) by {
                        assert(all[m + 1] == rest[m]);
                    }
                    lemma_no_equals(b, c + 1);
                },
            }
        } else {
            lemma_first_kept(b, k);
            assert(space_end(r, 0) == 0);
        }
        let s = space_end(r, 0);
        lemma_space_end(r, 0);
        if s < r.len() {
            assert(q[p.len() + s] == r[s]);
        }
    }
}

/// A name ends in what is kept where it ends in the source.
proof fn lemma_name_is_kept(b: Seq<u8>, i: int)
    requires
        0 <= i < b.len(),
        is_name_start(b[i]),
    ensures
        name_end(b.subrange(i, name_end(b, i + 1)) + kept(b, name_end(b, i + 1), true), 1)
            == name_end(b, i + 1) - i,
{
    lemma_attribute_at(b, i);
    let n = name_end(b, i + 1);
    let x = b.subrange(i, n);
    let q = kept(b, n, true);
    lemma_name_stops(b, i + 1);
    if n < b.len() {
        lemma_first_kept(b, n);
    }
    assert forall|m: int| 0 <= m < x.len() implies is_name_byte(#[trigger] x[m]) by {
        assert(x[m] == b[i + m]);
    }
    lemma_name_through(x, q, 1);
}

/// A name without a braced value has none in what is kept either.
proof fn lemma_bare_name(b: Seq<u8>, i: int)
    requires
        0 <= i < b.len(),
        is_name_start(b[i]),
        attribute_at(b, i) is None,
        handlers_stand_alone(b, attributes(b, name_end(b, i + 1), true)),
    ensures
        attribute_at(b.subrange(i, name_end(b, i + 1)) + kept(b, name_end(b, i + 1), true), 0) is None,
{
    lemma_attribute_at(b, i);
    let n = name_end(b, i + 1);
    let x = b.subrange(i, n);
    let q = kept(b, n, true);
    let c = x + q;
    lemma_name_is_kept(b, i);
    let m = n - i;
    let e = space_end(b, n);
    lemma_spaces_kept(b, n);
    lemma_space_shift(x, q, 0);
    let p = b.subrange(n, e);
    let r = kept(b, e, true);
    assert forall|k: int| 0 <= k < p.len() implies is_ascii_space(#[trigger] p[k]) by {
        assert(p[k] == b[n + k]);
    }
    lemma_leading(p, r);
    let s = space_end(q, 0);
    lemma_space_end(q, 0);
    assert(space_end(c, m) == m + s);
    if s < q.len() {
        assert(c[m + s] == q[s]);
    }
    if e >= b.len() || b[e] != 0x3d {
        lemma_no_equals(b, n);
    } else {
        lemma_first_kept(b, e);
        assert(r == seq![b[e]] + kept(b, e + 1, true));
        assert(space_end(r, 0) == 0);
        assert(s == p.len());
        let o = space_end(b, e + 1);
        lemma_spaces_kept(b, e + 1);
        let t = kept(b, e + 1, true);
        let w = b.subrange(e + 1, o);
        let u = kept(b, o, true);
        assert forall|k: int| 0 <= k < w.len() implies is_ascii_space(#[trigger] w[k]) by {
            assert(w[k] == b[e + 1 + k]);
        }
        lemma_leading(w, u);
        let front = x + p + seq![b[e]];
        assert(c =~= front + t);
        lemma_space_shift(front, t, 0);
        let v = space_end(c, m + s + 1);
        assert(v == front.len() + space_end(t, 0));
        if o < b.len() {
            assert(b[o] != 0x7b);
            if handler_at(b, o) {
                lemma_attribute_at(b, o);
                assert(b[o] != 0x3e);
                let all = attributes(b, o, true);
                assert(attributes(b, e, true) == attributes(b, e + 1, true));
                assert(all == attributes(b, n, true));
                assert(all[0] == attribute_at(b, o)->0);
                assert(stands_alone(b, all[0]));
                assert(space_end(b, e + 1) == o);
            } else {
                lemma_first_kept(b, o);
                assert(space_end(u, 0) == 0);
                assert(t[w.len() as int] == u[0]);
                assert(c[v] == t[w.len() as int]);
            }
        } else {
            assert(u.len() == 0);
            assert(space_end(u, 0) == 0);
        }
    }
}

proof fn lemma_name_stops(b: Seq<u8>, i: int)
    requires
        0 <= i <= b.len(),
    ensures
        name_end(b, i) < b.len() ==> !is_name_byte(b[name_end(b, i)]),
    decreases b.len() - i,
{
    if i < b.len() && is_name_byte(b[i]) {
        lemma_name_stops(b, i + 1);
    }
}

/// A name goes through to its end.
proof fn lemma_name_through(x: Seq<u8>, q: Seq<u8>, j: int)
    requires
        0 <= j <= x.len(),
        forall|m: int| 0 <= m < x.len() ==> is_name_byte(#[trigger] x[m]),
        q.len() > 0 ==> !is_name_byte(q[0]),
    ensures
        name_end(x + q, j) == x.len(),
    decreases x.len() - j,
{
    if j < x.len() {
        assert((x + q)[j] == x[j]);
        lemma_name_through(x, q, j + 1);
    } else if q.len() > 0 {
        assert((x + q)[j] == q[0]);
    }
}

/// Where what is kept holds no event handler.
proof fn lemma_kept_is_free(b: Seq<u8>, i: int, in_tag: bool)
    requires
        0 <= i,
    ensures
        is_free(kept(b, i, in_tag), 0, in_tag) == leaves_none(b, i, in_tag),
    decreases b.len() - i,
{
    if i < b.len() {
        let c = kept(b, i, in_tag);
        if !in_tag || b[i] == 0x3e || !is_name_start(b[i]) {
            let next = if !in_tag {
                b[i] == 0x3c
            } else {
                b[i] != 0x3e
            };
            lemma_kept_is_free(b, i + 1, next);
            let q = kept(b, i + 1, next);
            assert(c == seq![b[i]] + q);
            assert(c[0] == b[i]);
            lemma_free_shift(seq![b[i]], q, 0, next);
        } else {
            lemma_attribute_at(b, i);
            match attribute_at(b, i) {
                None => {
                    let n = name_end(b, i + 1);
                    let x = b.subrange(i, n);
                    let q = kept(b, n, true);
                    lemma_kept_is_free(b, n, true);
                    lemma_name_is_kept(b, i);
                    assert(c == x + q);
                    assert(c[0] == b[i]);
                    lemma_free_shift(x, q, 0, true);
                },
                Some(span) => {
                    if let Some(e) = span.close {
                        lemma_kept_is_free(b, e + 1, true);
                    }
                    if !is_handler(b, span) {
                        let p = b.subrange(0, i);
                        let z = b.subrange(i, b.len() as int);
                        assert(p + z =~= b);
                        assert(z[0] == b[i]);
                        lemma_attribute_shift(p, z, 0);
                        let own = attribute_at(z, 0)->0;
                        assert(moved_span(own, i) == span);
                        match span.close {
                            None => {
                                assert(own.close is None);
                                assert(c == z);
                            },
                            Some(e) => {
                                let x = b.subrange(i, e + 1);
                                let q = kept(b, e + 1, true);
                                assert(own.close == Some(e - i));
                                assert forall|m: int| 0 <= m < x.len() implies z[m]
                                    == #[trigger] c[m] by {
                                    assert(c[m] == x[m]);
                                }
                                lemma_attribute_agrees(z, c, x.len() as int);
                                assert(c[0] == b[i]);
                                lemma_free_shift(x, q, 0, true);
                            },
                        }
                    }
                },
            }
        }
    }
}

/// Where every event handler stands alone, none is left.
proof fn lemma_alone_leaves_none(b: Seq<u8>, i: int, in_tag: bool)
    requires
        0 <= i,
        handlers_stand_alone(b, attributes(b, i, in_tag)),
    ensures
        leaves_none(b, i, in_tag),
    decreases b.len() - i,
{
    if i < b.len() {
        if !in_tag || b[i] == 0x3e || !is_name_start(b[i]) {
            let next = if !in_tag {
                b[i] == 0x3c
            } else {
                b[i] != 0x3e
            };
            lemma_alone_leaves_none(b, i + 1, next);
        } else {
            lemma_attribute_at(b, i);
            match attribute_at(b, i) {
                None => {
                    lemma_alone_leaves_none(b, name_end(b, i + 1), true);
                    lemma_bare_name(b, i);
                },
                Some(span) => {
                    let all = attributes(b, i, true);
                    assert(all[0] == span);
                    if let Some(e) = span.close {
                        let rest = attributes(b, e + 1, true);
                        assert(all == seq![span] + rest);
                        assert forall|m: int|
                            0 <= m < rest.len() && is_handler(
                                b,
                                #[trigger] rest[m],
                            ) implies stands_alone(b, rest[m]) by {
                            assert(all[m + 1] == rest[m]);
                        }
                        lemma_alone_leaves_none(b, e + 1, true);
                    }
                },
            }
        }
    }
}

// From bytes to texts.

proof fn lemma_encode_concat(a: Seq<char>, b: Seq<char>)
    ensures
        encode_utf8(a + b) == encode_utf8(a) + encode_utf8(b),
    decreases a.len(),
{
    if a.len() == 0 {
        assert(a + b =~= b);
        assert(encode_utf8(a) + encode_utf8(b) =~= encode_utf8(b));
    } else {
        assert((a + b).drop_first() =~= a.drop_first() + b);
        assert((a + b)[0] == a[0]);
        lemma_encode_concat(a.drop_first(), b);
        assert(encode_utf8(a + b) =~= encode_utf8(a) + encode_utf8(b));
    }
}

proof fn lemma_encoded_between(b: Seq<u8>, from: int, to: int)
    requires
        valid_utf8(b),
        0 <= from <= to <= b.len(),
        is_char_boundary(b, from),
        is_char_boundary(b, to),
    ensures
        encode_utf8(text_between(b, from, to)) == b.subrange(from, to),
{
    lemma_boundary_suffix(b, from, to);
    let t = b.subrange(from, b.len() as int);
    valid_utf8_split(t, to - from);
    assert(t.subrange(0, to - from) =~= b.subrange(from, to));
    decode_utf8_encode_utf8(b.subrange(from, to));
}

/// A source without its event handlers consists of the bytes that are kept.
proof fn lemma_cut_is_kept(b: Seq<u8>, i: int, in_tag: bool, from: int)
    requires
        valid_utf8(b),
        0 <= from <= i <= b.len(),
        is_char_boundary(b, from),
    ensures
        encode_utf8(cut_handlers(b, attributes(b, i, in_tag), from)) == b.subrange(from, i) + kept(
            b,
            i,
            in_tag,
        ),
    decreases b.len() - i,
{
    is_char_boundary_start_end_of_seq(b);
    let len = b.len() as int;
    if i >= len {
        lemma_encoded_between(b, from, len);
        assert(b.subrange(from, i) + kept(b, i, in_tag) =~= b.subrange(from, len));
    } else if !in_tag || b[i] == 0x3e || !is_name_start(b[i]) {
        let next = if !in_tag {
            b[i] == 0x3c
        } else {
            b[i] != 0x3e
        };
        lemma_cut_is_kept(b, i + 1, next, from);
        assert(attributes(b, i, in_tag) == attributes(b, i + 1, next));
        assert(kept(b, i, in_tag) == seq![b[i]] + kept(b, i + 1, next));
        assert(b.subrange(from, i + 1) + kept(b, i + 1, next) =~= b.subrange(from, i) + (seq![
            b[i],
        ] + kept(b, i + 1, next)));
    } else {
        lemma_attribute_at(b, i);
        lemma_ascii_boundary(b, i);
        match attribute_at(b, i) {
            None => {
                let n = name_end(b, i + 1);
                lemma_cut_is_kept(b, n, true, from);
                assert(attributes(b, i, in_tag) == attributes(b, n, true));
                assert(kept(b, i, in_tag) == b.subrange(i, n) + kept(b, n, true));
                assert(b.subrange(from, n) + kept(b, n, true) =~= b.subrange(from, i) + (
                b.subrange(i, n) + kept(b, n, true)));
            },
            Some(span) => {
                let all = attributes(b, i, true);
                assert(all[0] == span);
                let end = span_end(b, span);
                let rest = match span.close {
                    Some(c) => attributes(b, c + 1, true),
                    None => Seq::empty(),
                };
                assert(all.skip(1) =~= rest);
                if let Some(c) = span.close {
                    lemma_ascii_boundary(b, c);
                }
                if is_handler(b, span) {
                    lemma_encoded_between(b, from, i);
                    lemma_encode_concat(text_between(b, from, i), cut_handlers(b, rest, end));
                    assert(cut_handlers(b, all, from) == text_between(b, from, i) + cut_handlers(
                        b,
                        rest,
                        end,
                    ));
                    match span.close {
                        Some(c) => {
                            lemma_cut_is_kept(b, c + 1, true, c + 1);
                            assert(b.subrange(c + 1, c + 1) + kept(b, c + 1, true) =~= kept(
                                b,
                                c + 1,
                                true,
                            ));
                        },
                        None => {
                            lemma_encoded_between(b, len, len);
                            assert(b.subrange(len, len) =~= Seq::<u8>::empty());
                            assert(cut_handlers(b, rest, end) == text_between(b, len, len));
                            assert(kept(b, i, in_tag) == Seq::<u8>::empty());
                        },
                    }
                } else {
                    assert(cut_handlers(b, all, from) == cut_handlers(b, rest, from));
                    match span.close {
                        Some(c) => {
                            lemma_cut_is_kept(b, c + 1, true, from);
                            assert(b.subrange(from, c + 1) + kept(b, c + 1, true) =~= b.subrange(
                                from,
                                i,
                            ) + (b.subrange(i, c + 1) + kept(b, c + 1, true)));
                        },
                        None => {
                            lemma_encoded_between(b, from, len);
                            assert(cut_handlers(b, rest, from) == text_between(b, from, len));
                            assert(b.subrange(from, len) =~= b.subrange(from, i) + b.subrange(
                                i,
                                len,
                            ));
                        },
                    }
                }
            },
        }
    }
}

/// No event handler is left in a source whose comments and event handlers were
/// stripped, but for the sources in which the cut gives a name in a tag a braced value
/// that makes another one: those are exactly the sources without [`leaves_none`].
pub proof fn law_no_handler_is_left(source: Seq<char>)
    ensures
        ({
            let b = encode_utf8(strip_handlers(strip_comments(source)));
            handler_texts(b, source_attributes(b)) == Seq::<Seq<char>>::empty()
        }) == leaves_none(encode_utf8(strip_comments(source)), 0, false),
{
    let b = encode_utf8(strip_comments(source));
    encode_utf8_valid_utf8(strip_comments(source));
    is_char_boundary_start_end_of_seq(b);
    lemma_cut_is_kept(b, 0, false, 0);
    let c = kept(b, 0, false);
    assert(b.subrange(0, 0) + c =~= c);
    lemma_kept_is_free(b, 0, false);
    lemma_free_has_none(c, 0, false);
    lemma_no_texts(c, source_attributes(c));
}

/// No event handler is left where each of them is an attribute of its own: up to white
/// space, no `=` stands in front of it or behind it, as in all attributes of the forms
/// `name`, `name="value"` and `name={value}`.
pub proof fn law_handlers_of_their_own_leave_none(source: Seq<char>)
    requires
        ({
            let b = encode_utf8(strip_comments(source));
            handlers_stand_alone(b, source_attributes(b))
        }),
    ensures
        ({
            let b = encode_utf8(strip_handlers(strip_comments(source)));
            handler_texts(b, source_attributes(b)) == Seq::<Seq<char>>::empty()
        }),
{
    lemma_alone_leaves_none(encode_utf8(strip_comments(source)), 0, false);
    law_no_handler_is_left(source);
}

} // verus!
