//! String literals, identifiers and class lists read out of JavaScript source by
//! the text around them. Nothing is evaluated: what is not a literal is an error.
use crate::diagnostic::{diag, diagnosed, str_result, string_result, Diagnostic, DiagnosticView};
use crate::text::{
    after, before, chars_of, contains, contains_str, find, find_from, find_str, find_str_from,
    is_white, is_white_char, lemma_find_from, lemma_trim_start, occurs_at, push_all, push_str,
    replace, replaced, rfind, rfind_str, slice, text_of, trim, trim_start, trimmed,
};
use vstd::prelude::*;
use vstd::string::*;

verus! {

/// What stands where a quoted literal is expected.
pub enum Quoted {
    /// The marker in front of it does not occur.
    Missing,
    /// Something that is not quoted.
    NotQuoted,
    /// A quote that is never closed.
    Unterminated,
    /// The text between the quotes.
    Value(Seq<char>),
}

pub open spec fn is_quote_char(c: char) -> bool {
    c == '\'' || c == '"'
}

/// The literal at the start of `s`: it reaches to the next quote of its kind.
pub open spec fn quoted(s: Seq<char>) -> Quoted {
    if s.len() == 0 || !is_quote_char(s[0]) {
        Quoted::NotQuoted
    } else {
        match find(s.skip(1), seq![s[0]]) {
            None => Quoted::Unterminated,
            Some(end) => Quoted::Value(s.subrange(1, end + 1)),
        }
    }
}

/// The literal behind the first `marker`, with white space between allowed.
pub open spec fn quoted_after(s: Seq<char>, marker: Seq<char>) -> Quoted {
    match after(s, marker) {
        None => Quoted::Missing,
        Some(rest) => quoted(trim_start(rest)),
    }
}

/// The literal's text, or the error for what stands in its place.
pub open spec fn quoted_result(
    q: Quoted,
    missing: DiagnosticView,
    not_quoted: DiagnosticView,
    unterminated: DiagnosticView,
) -> Result<Seq<char>, DiagnosticView> {
    match q {
        Quoted::Missing => Err(missing),
        Quoted::NotQuoted => Err(not_quoted),
        Quoted::Unterminated => Err(unterminated),
        Quoted::Value(text) => Ok(text),
    }
}

/// Where a quoted literal stands.
pub enum QuotedAt {
    Missing,
    NotQuoted,
    Unterminated,
    Value { from: usize, to: usize },
}

impl QuotedAt {
    /// What was found in `s`.
    pub open spec fn reads(self, s: Seq<char>, q: Quoted) -> bool {
        match self {
            QuotedAt::Missing => q is Missing,
            QuotedAt::NotQuoted => q is NotQuoted,
            QuotedAt::Unterminated => q is Unterminated,
            QuotedAt::Value { from, to } => from <= to <= s.len() && q == Quoted::Value(
                s.subrange(from as int, to as int),
            ),
        }
    }
}

/// Position of the first character at or after `from` that is not white space.
pub fn skip_white(v: &Vec<char>, from: usize) -> (r: usize)
    requires
        from <= v.len(),
    ensures
        from <= r <= v.len(),
        trim_start(v@.skip(from as int)) == v@.skip(r as int),
{
    let mut i: usize = from;
    while i < v.len() && is_white_char(v[i])
        invariant
            from <= i <= v.len(),
            trim_start(v@.skip(from as int)) == trim_start(v@.skip(i as int)),
        decreases v.len() - i,
    {
        assert(v@.skip(i as int).skip(1) =~= v@.skip(i + 1));
        i += 1;
    }
    i
}

/// Position of the first `c` at or after `from`.
pub fn find_char(v: &Vec<char>, c: char, from: usize) -> (r: Option<usize>)
    requires
        from <= v.len(),
    ensures
        match r {
            Some(at) => from <= at < v.len() && find(v@.skip(from as int), seq![c]) == Some(
                at - from,
            ),
            None => find(v@.skip(from as int), seq![c]) is None,
        },
{
    let ghost s = v@.skip(from as int);
    let mut i: usize = from;
    while i < v.len()
        invariant
            from <= i <= v.len(),
            s == v@.skip(from as int),
            find(s, seq![c]) == find_from(s, seq![c], i - from),
        decreases v.len() - i,
    {
        assert(s.subrange(i - from, i - from + 1) =~= seq![v@[i as int]]);
        if v[i] == c {
            return Some(i);
        }
        assert(seq![v@[i as int]][0] != seq![c][0]);
        i += 1;
    }
    None
}

/// Where the literal stands that starts at `at`.
pub fn quoted_at(v: &Vec<char>, at: usize) -> (r: QuotedAt)
    requires
        at <= v.len(),
    ensures
        r !is Missing,
        r.reads(v@, quoted(v@.skip(at as int))),
{
    if at == v.len() || (v[at] != '\'' && v[at] != '"') {
        return QuotedAt::NotQuoted;
    }
    assert(v@.skip(at as int).skip(1) =~= v@.skip(at + 1));
    match find_char(v, v[at], at + 1) {
        None => QuotedAt::Unterminated,
        Some(end) => {
            assert(v@.skip(at as int).subrange(1, end - at) =~= v@.subrange(at + 1, end as int));
            QuotedAt::Value { from: at + 1, to: end }
        },
    }
}

/// Where the literal behind the first `marker` stands.
pub fn find_quoted_after(v: &Vec<char>, marker: &str) -> (r: QuotedAt)
    ensures
        r.reads(v@, quoted_after(v@, marker@)),
{
    match find_str(v, marker) {
        None => QuotedAt::Missing,
        Some(at) => {
            let behind: usize = at + chars_of(marker).len();
            let start = skip_white(v, behind);
            quoted_at(v, start)
        },
    }
}

/// The string literal behind `marker`.
pub fn string_after<'a>(source: &'a str, marker: &str) -> (r: Result<&'a str, Diagnostic>)
    ensures
        str_result(r) == quoted_result(
            quoted_after(source@, marker@),
            diagnosed("SOURCE_UNSUPPORTED"@, "required literal is missing"@, marker@),
            diagnosed("SOURCE_UNSUPPORTED"@, "required value must be a string literal"@, marker@),
            diagnosed("SOURCE_UNSUPPORTED"@, "string literal is unterminated"@, marker@),
        ),
{
    match find_quoted_after(&chars_of(source), marker) {
        QuotedAt::Missing => Err(
            diag("SOURCE_UNSUPPORTED", "required literal is missing", marker),
        ),
        QuotedAt::NotQuoted => Err(
            diag("SOURCE_UNSUPPORTED", "required value must be a string literal", marker),
        ),
        QuotedAt::Unterminated => Err(
            diag("SOURCE_UNSUPPORTED", "string literal is unterminated", marker),
        ),
        QuotedAt::Value { from, to } => Ok(source.substring_char(from, to)),
    }
}

/// The string literal of the variant named by `marker`.
pub fn object_string<'a>(source: &'a str, marker: &str) -> (r: Result<&'a str, Diagnostic>)
    ensures
        str_result(r) == quoted_result(
            quoted_after(source@, marker@),
            diagnosed("SOURCE_UNSUPPORTED"@, "variant literal is missing"@, marker@),
            diagnosed("SOURCE_UNSUPPORTED"@, "variant must be a string literal"@, marker@),
            diagnosed("SOURCE_UNSUPPORTED"@, "variant literal is unterminated"@, marker@),
        ),
{
    match find_quoted_after(&chars_of(source), marker) {
        QuotedAt::Missing => Err(
            diag("SOURCE_UNSUPPORTED", "variant literal is missing", marker),
        ),
        QuotedAt::NotQuoted => Err(
            diag("SOURCE_UNSUPPORTED", "variant must be a string literal", marker),
        ),
        QuotedAt::Unterminated => Err(
            diag("SOURCE_UNSUPPORTED", "variant literal is unterminated", marker),
        ),
        QuotedAt::Value { from, to } => Ok(source.substring_char(from, to)),
    }
}

/// `field:`, as it stands in an object literal.
pub open spec fn field_marker(field: Seq<char>) -> Seq<char> {
    field + ":"@
}

/// `const name =`, as it stands in a declaration.
pub open spec fn const_marker(name: Seq<char>) -> Seq<char> {
    "const "@ + name + " ="@
}

fn field_marker_text(field: &str) -> (r: String)
    ensures
        r@ == field_marker(field@),
{
    let mut marker = chars_of(field);
    push_str(&mut marker, ":");
    text_of(&marker)
}

fn const_marker_text(name: &str) -> (r: String)
    ensures
        r@ == const_marker(name@),
{
    let mut marker = chars_of("const ");
    push_str(&mut marker, name);
    push_str(&mut marker, " =");
    text_of(&marker)
}

/// The string literal of a social link's field.
pub fn static_source_field(object: &str, field: &str) -> (r: Result<String, Diagnostic>)
    ensures
        string_result(r) == quoted_result(
            quoted_after(object@, field_marker(field@)),
            diagnosed("SOURCE_UNSUPPORTED"@, "literal social link field is missing"@, field@),
            diagnosed("SOURCE_DYNAMIC"@, "social link fields must be string literals"@, field@),
            diagnosed("SOURCE_UNSUPPORTED"@, "social link string literal is unterminated"@, field@),
        ),
{
    let marker = field_marker_text(field);
    match find_quoted_after(&chars_of(object), marker.as_str()) {
        QuotedAt::Missing => Err(
            diag("SOURCE_UNSUPPORTED", "literal social link field is missing", field),
        ),
        QuotedAt::NotQuoted => Err(
            diag("SOURCE_DYNAMIC", "social link fields must be string literals", field),
        ),
        QuotedAt::Unterminated => Err(
            diag("SOURCE_UNSUPPORTED", "social link string literal is unterminated", field),
        ),
        QuotedAt::Value { from, to } => Ok(object.substring_char(from, to).to_owned()),
    }
}

/// The string literal that the constant `name` is bound to.
pub fn literal_binding(source: &str, name: &str) -> (r: Result<String, Diagnostic>)
    ensures
        string_result(r) == quoted_result(
            quoted_after(source@, const_marker(name@)),
            diagnosed("CATALOG_UNSUPPORTED"@, "missing required literal binding"@, name@),
            diagnosed("CATALOG_DYNAMIC"@, "binding must be a string literal"@, name@),
            diagnosed("CATALOG_UNSUPPORTED"@, "unterminated binding literal"@, name@),
        ),
{
    let marker = const_marker_text(name);
    match find_quoted_after(&chars_of(source), marker.as_str()) {
        QuotedAt::Missing => Err(
            diag("CATALOG_UNSUPPORTED", "missing required literal binding", name),
        ),
        QuotedAt::NotQuoted => Err(
            diag("CATALOG_DYNAMIC", "binding must be a string literal", name),
        ),
        QuotedAt::Unterminated => Err(
            diag("CATALOG_UNSUPPORTED", "unterminated binding literal", name),
        ),
        QuotedAt::Value { from, to } => Ok(source.substring_char(from, to).to_owned()),
    }
}

/// The outcome of reading the literal `field` of a catalog entry.
pub open spec fn literal_field_result(object: Seq<char>, field: Seq<char>) -> Result<
    Seq<char>,
    DiagnosticView,
> {
    quoted_result(
        quoted_after(object, field_marker(field)),
        diagnosed("CATALOG_UNSUPPORTED"@, "missing required literal field"@, field),
        diagnosed("CATALOG_DYNAMIC"@, "catalog fields must be string literals"@, field),
        diagnosed("CATALOG_UNSUPPORTED"@, "unterminated string literal"@, field),
    )
}

/// The string literal of a catalog entry's field.
pub fn literal_field(object: &str, field: &str) -> (r: Result<String, Diagnostic>)
    ensures
        string_result(r) == literal_field_result(object@, field@),
{
    let marker = field_marker_text(field);
    match find_quoted_after(&chars_of(object), marker.as_str()) {
        QuotedAt::Missing => Err(
            diag("CATALOG_UNSUPPORTED", "missing required literal field", field),
        ),
        QuotedAt::NotQuoted => Err(
            diag("CATALOG_DYNAMIC", "catalog fields must be string literals", field),
        ),
        QuotedAt::Unterminated => Err(
            diag("CATALOG_UNSUPPORTED", "unterminated string literal", field),
        ),
        QuotedAt::Value { from, to } => Ok(object.substring_char(from, to).to_owned()),
    }
}

/// The JSX that `ModeSelector` returns: from behind `return (` up to the last `);`.
pub open spec fn returned_jsx(s: Seq<char>) -> Result<Seq<char>, DiagnosticView> {
    match find(s, "export function ModeSelector"@) {
        None => Err(
            diagnosed("EXPORT_UNSUPPORTED"@, "ModeSelector export is missing"@, "ModeSelector"@),
        ),
        Some(export) => match after(s.skip(export), "return ("@) {
            None => Err(
                diagnosed("SOURCE_UNSUPPORTED"@, "ModeSelector return is missing"@, "return ("@),
            ),
            Some(rendered) => match rfind(rendered, ");"@) {
                None => Err(
                    diagnosed("SOURCE_UNSUPPORTED"@, "ModeSelector return is unterminated"@, ");"@),
                ),
                Some(end) => Ok(rendered.take(end)),
            },
        },
    }
}

pub fn return_jsx<'a>(source: &'a str) -> (r: Result<&'a str, Diagnostic>)
    ensures
        str_result(r) == returned_jsx(source@),
{
    proof {
        reveal_strlit("return (");
    }
    let all = chars_of(source);
    match find_str(&all, "export function ModeSelector") {
        None => Err(
            diag("EXPORT_UNSUPPORTED", "ModeSelector export is missing", "ModeSelector"),
        ),
        Some(export) => {
            let body = slice(&all, export, all.len());
            assert(body@ =~= all@.skip(export as int));
            match find_str(&body, "return (") {
                None => Err(
                    diag("SOURCE_UNSUPPORTED", "ModeSelector return is missing", "return ("),
                ),
                Some(start) => {
                    let rendered = slice(&body, start + 8, body.len());
                    assert(rendered@ =~= body@.skip(start + 8));
                    match rfind_str(&rendered, ");") {
                        None => Err(
                            diag("SOURCE_UNSUPPORTED", "ModeSelector return is unterminated", ");"),
                        ),
                        Some(end) => {
                            let from: usize = export + start + 8;
                            assert(all@.subrange(from as int, from + end) =~= rendered@.take(
                                end as int,
                            ));
                            Ok(source.substring_char(from, from + end))
                        },
                    }
                },
            }
        },
    }
}

/// The last position of a quote in `s` up to `from`.
pub open spec fn last_quote(s: Seq<char>, from: int) -> Option<int>
    decreases from + 1,
{
    if from < 0 || from >= s.len() {
        None
    } else if is_quote_char(s[from]) {
        Some(from)
    } else {
        last_quote(s, from - 1)
    }
}

/// The quoted class list around the first `needle`: from the last quote in front
/// of it to the next quote of that kind.
pub open spec fn class_list_around(s: Seq<char>, needle: Seq<char>) -> Result<
    Seq<char>,
    DiagnosticView,
> {
    match find(s, needle) {
        None => Err(
            diagnosed("TAILWIND_UNSUPPORTED"@, "required literal class list is missing"@, needle),
        ),
        Some(at) => match last_quote(s, at - 1) {
            None => Err(diagnosed("TAILWIND_UNSUPPORTED"@, "class list is malformed"@, needle)),
            Some(quote) => match find(s.skip(quote + 1), seq![s[quote]]) {
                None => Err(
                    diagnosed("TAILWIND_UNSUPPORTED"@, "class list is unterminated"@, needle),
                ),
                Some(end) => Ok(s.skip(quote + 1).take(end)),
            },
        },
    }
}

pub fn literal_class_containing<'a>(source: &'a str, needle: &str) -> (r: Result<
    &'a str,
    Diagnostic,
>)
    ensures
        str_result(r) == class_list_around(source@, needle@),
{
    let all = chars_of(source);
    match find_str(&all, needle) {
        None => Err(
            diag("TAILWIND_UNSUPPORTED", "required literal class list is missing", needle),
        ),
        Some(at) => {
            let mut i: usize = at;
            while i > 0 && all[i - 1] != '\'' && all[i - 1] != '"'
                invariant
                    i <= at <= all.len(),
                    last_quote(all@, at - 1) == last_quote(all@, i - 1),
                decreases i,
            {
                i -= 1;
            }
            if i == 0 {
                return Err(diag("TAILWIND_UNSUPPORTED", "class list is malformed", needle));
            }
            match find_char(&all, all[i - 1], i) {
                None => Err(
                    diag("TAILWIND_UNSUPPORTED", "class list is unterminated", needle),
                ),
                Some(end) => {
                    assert(all@.skip(i as int).take(end - i) =~= all@.subrange(
                        i as int,
                        end as int,
                    ));
                    Ok(source.substring_char(i, end))
                },
            }
        },
    }
}

/// The base classes that the primitive `name` merges: the literal in the first
/// `className={cn("...` behind its declaration.
pub open spec fn primitive_class_list(s: Seq<char>, name: Seq<char>) -> Result<
    Seq<char>,
    DiagnosticView,
> {
    match find(s, const_marker(name)) {
        None => Err(
            diagnosed(
                "CARD_PRIMITIVE_UNSUPPORTED"@,
                "shared Card primitive declaration is missing"@,
                name,
            ),
        ),
        Some(start) => match after(s.skip(start), "className={cn(\""@) {
            None => Err(
                diagnosed(
                    "CARD_PRIMITIVE_UNSUPPORTED"@,
                    "primitive requires a literal base class merge"@,
                    name,
                ),
            ),
            Some(list) => match find(list, seq!['"']) {
                None => Err(
                    diagnosed(
                        "CARD_PRIMITIVE_UNSUPPORTED"@,
                        "primitive base class literal is unterminated"@,
                        name,
                    ),
                ),
                Some(end) => Ok(list.take(end)),
            },
        },
    }
}

pub fn primitive_classes<'a>(source: &'a str, primitive: &str) -> (r: Result<&'a str, Diagnostic>)
    ensures
        str_result(r) == primitive_class_list(source@, primitive@),
{
    proof {
        reveal_strlit("className={cn(\"");
    }
    let all = chars_of(source);
    let marker = const_marker_text(primitive);
    match find_str(&all, marker.as_str()) {
        None => Err(
            diag(
                "CARD_PRIMITIVE_UNSUPPORTED",
                "shared Card primitive declaration is missing",
                primitive,
            ),
        ),
        Some(start) => {
            let body = slice(&all, start, all.len());
            assert(body@ =~= all@.skip(start as int));
            match find_str(&body, "className={cn(\"") {
                None => Err(
                    diag(
                        "CARD_PRIMITIVE_UNSUPPORTED",
                        "primitive requires a literal base class merge",
                        primitive,
                    ),
                ),
                Some(at) => {
                    let from: usize = start + at + 15;
                    assert(all@.skip(from as int) =~= body@.skip(at + 15));
                    match find_char(&all, '"', from) {
                        None => Err(
                            diag(
                                "CARD_PRIMITIVE_UNSUPPORTED",
                                "primitive base class literal is unterminated",
                                primitive,
                            ),
                        ),
                        Some(end) => {
                            assert(all@.skip(from as int).take(end - from) =~= all@.subrange(
                                from as int,
                                end as int,
                            ));
                            Ok(source.substring_char(from, end))
                        },
                    }
                },
            }
        },
    }
}

pub open spec fn is_identifier_char(c: char) -> bool {
    ||| '0' <= c <= '9'
    ||| 'A' <= c <= 'Z'
    ||| 'a' <= c <= 'z'
    ||| c == '_'
}

/// The length of the identifier at the start of `s`.
pub open spec fn identifier_len(s: Seq<char>) -> nat
    decreases s.len(),
{
    if s.len() > 0 && is_identifier_char(s[0]) {
        1 + identifier_len(s.skip(1))
    } else {
        0
    }
}

/// The identifier that a field of an object literal is set to.
pub open spec fn identifier_after(s: Seq<char>, field: Seq<char>) -> Result<
    Seq<char>,
    DiagnosticView,
> {
    match after(s, field_marker(field)) {
        None => Err(
            diagnosed("SOURCE_UNSUPPORTED"@, "social link icon field is missing"@, field),
        ),
        Some(rest) => {
            let value = trim_start(rest);
            let n = identifier_len(value);
            if n == 0 {
                Err(
                    diagnosed(
                        "SOURCE_DYNAMIC"@,
                        "social link icon must be a static identifier"@,
                        field,
                    ),
                )
            } else {
                Ok(value.take(n as int))
            }
        },
    }
}

pub fn static_source_identifier(object: &str, field: &str) -> (r: Result<String, Diagnostic>)
    ensures
        string_result(r) == identifier_after(object@, field@),
{
    let all = chars_of(object);
    let marker = field_marker_text(field);
    match find_str(&all, marker.as_str()) {
        None => Err(diag("SOURCE_UNSUPPORTED", "social link icon field is missing", field)),
        Some(at) => {
            let behind: usize = at + chars_of(marker.as_str()).len();
            let from = skip_white(&all, behind);
            let ghost value = all@.skip(from as int);
            assert(value.skip(0) =~= value);
            let mut to: usize = from;
            while to < all.len() && (('0' <= all[to] && all[to] <= '9') || ('A' <= all[to]
                && all[to] <= 'Z') || ('a' <= all[to] && all[to] <= 'z') || all[to] == '_')
                invariant
                    from <= to <= all.len(),
                    value == all@.skip(from as int),
                    identifier_len(value) == (to - from) + identifier_len(value.skip(to - from)),
                decreases all.len() - to,
            {
                assert(value.skip(to - from).skip(1) =~= value.skip(to + 1 - from));
                to += 1;
            }
            if to == from {
                Err(
                    diag("SOURCE_DYNAMIC", "social link icon must be a static identifier", field),
                )
            } else {
                assert(value.take(to - from) =~= all@.subrange(from as int, to as int));
                Ok(object.substring_char(from, to).to_owned())
            }
        },
    }
}

/// The position behind the `n`-th further `marker` at or after `from`, where
/// occurrences do not overlap and the first is number 0.
pub open spec fn nth_end(s: Seq<char>, marker: Seq<char>, n: nat, from: int) -> Option<int>
    decreases n,
{
    match find_from(s, marker, from) {
        None => None,
        Some(at) => if n == 0 {
            Some(at + marker.len())
        } else {
            nth_end(s, marker, (n - 1) as nat, at + marker.len())
        },
    }
}

/// The literal page text behind the `n`-th `marker`, up to the next `</`.
pub open spec fn page_text_after(s: Seq<char>, marker: Seq<char>, n: nat) -> Result<
    Seq<char>,
    DiagnosticView,
> {
    match nth_end(s, marker, n, 0) {
        None => Err(diagnosed("SOURCE_UNSUPPORTED"@, "literal page text is missing"@, marker)),
        Some(start) => match find_from(s, "</"@, start) {
            None => Err(
                diagnosed("SOURCE_UNSUPPORTED"@, "literal page text is unterminated"@, marker),
            ),
            Some(end) => {
                let value = trim(s.subrange(start, end));
                if value.len() == 0 || contains(value, "<"@) || contains(value, "{"@) {
                    Err(diagnosed("SOURCE_DYNAMIC"@, "page text must be a non-empty literal"@, value))
                } else {
                    Ok(replace(replace(value, "&amp;"@, "&"@), "&apos;"@, "'"@))
                }
            },
        },
    }
}

pub fn static_source_field_after(source: &str, marker: &str) -> (r: Result<String, Diagnostic>)
    ensures
        string_result(r) == page_text_after(source@, marker@, 0),
{
    static_source_field_after_nth(source, marker, 0)
}

pub fn static_source_field_after_nth(source: &str, marker: &str, occurrence: usize) -> (r: Result<
    String,
    Diagnostic,
>)
    ensures
        string_result(r) == page_text_after(source@, marker@, occurrence as nat),
{
    let all = chars_of(source);
    let width: usize = chars_of(marker).len();
    let mut start: usize = 0;
    let mut left: usize = occurrence;
    loop
        invariant_except_break
            nth_end(all@, marker@, occurrence as nat, 0) == nth_end(
                all@,
                marker@,
                left as nat,
                start as int,
            ),
        invariant
            all@ == source@,
            width == marker@.len(),
            start <= all.len(),
        ensures
            nth_end(all@, marker@, occurrence as nat, 0) == Some(start as int),
        decreases left,
    {
        match find_str_from(&all, marker, start) {
            None => {
                return Err(diag("SOURCE_UNSUPPORTED", "literal page text is missing", marker));
            },
            Some(at) => {
                start = at + width;
            },
        }
        if left == 0 {
            break;
        }
        left -= 1;
    }
    match find_str_from(&all, "</", start) {
        None => Err(diag("SOURCE_UNSUPPORTED", "literal page text is unterminated", marker)),
        Some(end) => {
            proof {
                lemma_find_from(all@, "</"@, start as int);
                reveal_strlit("&amp;");
                reveal_strlit("&apos;");
            }
            let value = trimmed(&slice(&all, start, end));
            if value.len() == 0 || contains_str(&value, "<") || contains_str(&value, "{") {
                let shown = text_of(&value);
                return Err(
                    diag("SOURCE_DYNAMIC", "page text must be a non-empty literal", shown.as_str()),
                );
            }
            let plain = replaced(&replaced(&value, "&amp;", "&"), "&apos;", "'");
            Ok(text_of(&plain))
        },
    }
}

/// `s` without the `c` at its start.
pub open spec fn trim_start_char(s: Seq<char>, c: char) -> Seq<char>
    decreases s.len(),
{
    if s.len() > 0 && s[0] == c {
        trim_start_char(s.skip(1), c)
    } else {
        s
    }
}

/// `s` without the `c` at its end.
pub open spec fn trim_end_char(s: Seq<char>, c: char) -> Seq<char>
    decreases s.len(),
{
    if s.len() > 0 && s.last() == c {
        trim_end_char(s.drop_last(), c)
    } else {
        s
    }
}

pub fn trimmed_start_char(v: &Vec<char>, c: char) -> (r: Vec<char>)
    ensures
        r@ == trim_start_char(v@, c),
{
    let mut i: usize = 0;
    assert(v@.skip(0) =~= v@);
    while i < v.len() && v[i] == c
        invariant
            i <= v.len(),
            trim_start_char(v@, c) == trim_start_char(v@.skip(i as int), c),
        decreases v.len() - i,
    {
        assert(v@.skip(i as int).skip(1) =~= v@.skip(i + 1));
        i += 1;
    }
    assert(v@.skip(i as int) =~= v@.subrange(i as int, v@.len() as int));
    slice(v, i, v.len())
}

pub fn trimmed_end_char(v: &Vec<char>, c: char) -> (r: Vec<char>)
    ensures
        r@ == trim_end_char(v@, c),
{
    let mut out = slice(v, 0, v.len());
    assert(out@ =~= v@);
    while out.len() > 0 && out[out.len() - 1] == c
        invariant
            trim_end_char(v@, c) == trim_end_char(out@, c),
        decreases out.len(),
    {
        assert(out@.drop_last() =~= out@.take(out@.len() - 1));
        out.pop();
    }
    out
}

/// The URL of a catalog entry's icon: the origin and what follows the template's
/// `}/`, up to the closing back-tick.
pub open spec fn icon_url(object: Seq<char>, origin: Seq<char>) -> Result<
    Seq<char>,
    DiagnosticView,
> {
    match after(object, "icon:"@) {
        None => Err(diagnosed("CATALOG_UNSUPPORTED"@, "missing required icon field"@, "icon"@)),
        Some(rest) => match find(trim_start(rest), "}/"@) {
            None => Err(
                diagnosed(
                    "CATALOG_DYNAMIC"@,
                    "icon must use the bounded ICON_ORIGIN template"@,
                    "icon"@,
                ),
            ),
            Some(brace) => {
                let suffix = before(
                    trim_start_char(trim_start(rest).skip(brace + 1), '/'),
                    "`"@,
                );
                if suffix.len() == 0 {
                    Err(
                        diagnosed(
                            "CATALOG_DYNAMIC"@,
                            "icon template must have a literal suffix"@,
                            "icon"@,
                        ),
                    )
                } else {
                    Ok(trim_end_char(origin, '/') + "/"@ + suffix)
                }
            },
        },
    }
}

pub fn icon_field(object: &str, origin: &str) -> (r: Result<String, Diagnostic>)
    ensures
        string_result(r) == icon_url(object@, origin@),
{
    proof {
        reveal_strlit("icon:");
        reveal_strlit("}/");
    }
    let all = chars_of(object);
    match find_str(&all, "icon:") {
        None => Err(diag("CATALOG_UNSUPPORTED", "missing required icon field", "icon")),
        Some(at) => {
            let start = skip_white(&all, at + 5);
            let rest = slice(&all, start, all.len());
            assert(rest@ =~= all@.skip(start as int));
            match find_str(&rest, "}/") {
                None => Err(
                    diag(
                        "CATALOG_DYNAMIC",
                        "icon must use the bounded ICON_ORIGIN template",
                        "icon",
                    ),
                ),
                Some(brace) => {
                    let tail = slice(&rest, brace + 1, rest.len());
                    assert(tail@ =~= rest@.skip(brace + 1));
                    let path = trimmed_start_char(&tail, '/');
                    let suffix = match find_str(&path, "`") {
                        None => path,
                        Some(end) => {
                            let cut = slice(&path, 0, end);
                            assert(cut@ =~= path@.take(end as int));
                            cut
                        },
                    };
                    if suffix.len() == 0 {
                        return Err(
                            diag(
                                "CATALOG_DYNAMIC",
                                "icon template must have a literal suffix",
                                "icon",
                            ),
                        );
                    }
                    let mut url = trimmed_end_char(&chars_of(origin), '/');
                    push_str(&mut url, "/");
                    push_all(&mut url, &suffix);
                    Ok(text_of(&url))
                },
            }
        },
    }
}

/// The quoted value of the first `name` of a tag, where `=` and a quote follow it.
pub open spec fn attribute_value(token: Seq<char>, name: Seq<char>) -> Option<Seq<char>> {
    match after(token, name) {
        None => None,
        Some(rest) => {
            let eq = trim_start(rest);
            if eq.len() == 0 || eq[0] != '=' {
                None
            } else {
                match quoted(trim_start(eq.skip(1))) {
                    Quoted::Value(text) => Some(text),
                    _ => None,
                }
            }
        },
    }
}

pub fn attr(token: &str, name: &str) -> (r: Option<String>)
    ensures
        match r {
            Some(text) => attribute_value(token@, name@) == Some(text@),
            None => attribute_value(token@, name@) is None,
        },
{
    let all = chars_of(token);
    match find_str(&all, name) {
        None => None,
        Some(at) => {
            let behind: usize = at + chars_of(name).len();
            let eq = skip_white(&all, behind);
            if eq == all.len() || all[eq] != '=' {
                return None;
            }
            assert(all@.skip(eq as int).skip(1) =~= all@.skip(eq + 1));
            let value = skip_white(&all, eq + 1);
            match quoted_at(&all, value) {
                QuotedAt::Value { from, to } => Some(token.substring_char(from, to).to_owned()),
                _ => None,
            }
        },
    }
}


/// The field stands in the text with this value: its name and a colon at `at`, and behind
/// them, with nothing but white space between, the value in quotes.
pub open spec fn is_field_at(
    object: Seq<char>,
    field: Seq<char>,
    value: Seq<char>,
    at: int,
    quote: int,
) -> bool {
    &&& occurs_at(object, field + ":"@, at)
    &&& at + field.len() < quote
    &&& quote + 1 + value.len() < object.len()
    &&& forall|i: int|
        at + field.len() < i < quote ==> is_white(#[trigger] object[i])
    &&& is_quote_char(object[quote])
    &&& object.subrange(quote + 1, quote + 1 + value.len()) == value
    &&& object[quote + 1 + value.len()] == object[quote]
}

/// The text writes the field with this value.
pub open spec fn writes_field(object: Seq<char>, field: Seq<char>, value: Seq<char>) -> bool {
    exists|at: int, quote: int| #[trigger] is_field_at(object, field, value, at, quote)
}

/// What is read of a field is what is written for it.
pub proof fn law_fields_are_read_as_written(object: Seq<char>, field: Seq<char>)
    ensures
        quoted_after(object, field_marker(field)) matches Quoted::Value(v) ==> writes_field(
            object,
            field,
            v,
        ),
        literal_field_result(object, field) matches Ok(v) ==> writes_field(object, field, v),
{
    if quoted_after(object, field_marker(field)) is Value {
        let v = quoted_after(object, field_marker(field))->Value_0;
        let marker = field_marker(field);
        reveal_strlit(":");
        assert(":"@.len() == 1);
        lemma_find_from(object, marker, 0);
        let at = find(object, marker)->0;
        let rest = object.skip(at + marker.len());
        lemma_trim_start(rest);
        let t = trim_start(rest);
        let quote = at + marker.len() + (rest.len() - t.len());
        let one = seq![t[0]];
        lemma_find_from(t.skip(1), one, 0);
        let end = find(t.skip(1), one)->0;
        assert(occurs_at(t.skip(1), one, end));
        assert(t.skip(1).subrange(end, end + 1)[0] == t[0]) by {
            assert(t.skip(1).subrange(end, end + 1) == one);
        }
        assert(v == t.subrange(1, end + 1));
        assert forall|i: int| at + field.len() < i < quote implies is_white(
            #[trigger] object[i],
        ) by {
            assert(object[i] == rest[i - at - marker.len()]);
        }
        assert(object[quote] == t[0]);
        assert(object.subrange(quote + 1, quote + 1 + v.len()) =~= v) by {
            assert forall|i: int| 0 <= i < v.len() implies object.subrange(
                quote + 1,
                quote + 1 + v.len(),
            )[i] == v[i] by {
                assert(t[1 + i] == rest[rest.len() - t.len() + 1 + i]);
            }
        }
        assert(object[quote + 1 + v.len()] == t[end + 1]);
        assert(is_field_at(object, field, v, at, quote));
    }
}

} // verus!
