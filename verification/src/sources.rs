//! Bounded source files: what may be read, where a diagnostic points, and the
//! fingerprint of a set of files.
use crate::diagnostic::{diag, diagnosed, string_result, Diagnostic, DiagnosticView};
use crate::text::{chars_of, decimal_text, number_text, push_all, push_str, text_of};
use crate::theme::hex_digit;
use vstd::prelude::*;
use vstd::string::*;
use vstd::utf8::*;

verus! {

/// The most bytes of a source file that is parsed.
pub const MAX_SOURCE_FILE_BYTES: u64 = 2_097_152;

/// The most bytes of an SVG file that is parsed.
pub const MAX_SVG_FILE_BYTES: u64 = 524_288;

/// `String::from_utf8`: the text of these bytes, where they are UTF-8.
#[verifier::external_body]
fn utf8_text(bytes: Vec<u8>) -> (r: Option<String>)
    ensures
        match r {
            Some(s) => valid_utf8(bytes@) && s@ == decode_utf8(bytes@),
            None => !valid_utf8(bytes@),
        },
{
    String::from_utf8(bytes).ok()
}

/// The error for a file above the limit.
pub open spec fn limit_error(code: Seq<char>, limit: u64, path: Seq<char>) -> DiagnosticView {
    diagnosed(
        code + "_LIMIT"@,
        "source file exceeds the "@ + decimal_text(limit as nat) + "-byte parser limit"@,
        path,
    )
}

fn limit_diag(code: &str, limit: u64, path: &str) -> (d: Diagnostic)
    ensures
        d@ == limit_error(code@, limit, path@),
{
    let mut full = chars_of(code);
    push_str(&mut full, "_LIMIT");
    let mut message = chars_of("source file exceeds the ");
    push_all(&mut message, &number_text(limit));
    push_str(&mut message, "-byte parser limit");
    diag(text_of(&full).as_str(), text_of(&message).as_str(), path)
}

/// What is read of a file whose metadata gave `size` and whose content is
/// `bytes`; each is absent where it could not be had.
pub open spec fn bounded_bytes(
    path: Seq<char>,
    code: Seq<char>,
    limit: u64,
    size: Option<u64>,
    bytes: Option<Seq<u8>>,
) -> Result<Seq<u8>, DiagnosticView> {
    match size {
        None => Err(diagnosed(code, "source file metadata is unavailable"@, path)),
        Some(n) => if n > limit {
            Err(limit_error(code, limit, path))
        } else {
            match bytes {
                None => Err(diagnosed(code, "source file is not readable"@, path)),
                Some(b) => if b.len() > limit {
                    Err(limit_error(code, limit, path))
                } else {
                    Ok(b)
                },
            }
        },
    }
}

pub open spec fn option_bytes(o: Option<Vec<u8>>) -> Option<Seq<u8>> {
    match o {
        Some(b) => Some(b@),
        None => None,
    }
}

/// The bytes of a file, within the limit.
pub fn read_bounded_bytes(
    path: &str,
    code: &str,
    limit: u64,
    size: Option<u64>,
    bytes: Option<Vec<u8>>,
) -> (r: Result<Vec<u8>, Diagnostic>)
    ensures
        match r {
            Ok(b) => bounded_bytes(path@, code@, limit, size, option_bytes(bytes)) == Ok::<
                Seq<u8>,
                DiagnosticView,
            >(b@),
            Err(d) => bounded_bytes(path@, code@, limit, size, option_bytes(bytes)) == Err::<
                Seq<u8>,
                DiagnosticView,
            >(d@),
        },
{
    match size {
        None => Err(diag(code, "source file metadata is unavailable", path)),
        Some(n) => if n > limit {
            Err(limit_diag(code, limit, path))
        } else {
            match bytes {
                None => Err(diag(code, "source file is not readable", path)),
                Some(b) => if b.len() as u64 > limit {
                    Err(limit_diag(code, limit, path))
                } else {
                    Ok(b)
                },
            }
        },
    }
}

/// The text of a file, within the limit.
pub open spec fn bounded_text(
    path: Seq<char>,
    code: Seq<char>,
    limit: u64,
    size: Option<u64>,
    bytes: Option<Seq<u8>>,
) -> Result<Seq<char>, DiagnosticView> {
    match bounded_bytes(path, code, limit, size, bytes) {
        Err(d) => Err(d),
        Ok(b) => if valid_utf8(b) {
            Ok(decode_utf8(b))
        } else {
            Err(diagnosed(code, "source file is not readable UTF-8"@, path))
        },
    }
}

pub fn read_bounded_text(
    path: &str,
    code: &str,
    limit: u64,
    size: Option<u64>,
    bytes: Option<Vec<u8>>,
) -> (r: Result<String, Diagnostic>)
    ensures
        string_result(r) == bounded_text(path@, code@, limit, size, option_bytes(bytes)),
{
    match read_bounded_bytes(path, code, limit, size, bytes) {
        Err(d) => Err(d),
        Ok(b) => match utf8_text(b) {
            Some(s) => Ok(s),
            None => Err(diag(code, "source file is not readable UTF-8", path)),
        },
    }
}

/// `a` stands in `b` at `at`.
pub open spec fn bytes_at(b: Seq<u8>, a: Seq<u8>, at: int) -> bool {
    0 <= at && at + a.len() <= b.len() && b.subrange(at, at + a.len()) == a
}

/// The least position at or after `from` at which `a` stands in `b`.
pub open spec fn find_bytes(b: Seq<u8>, a: Seq<u8>, from: int) -> Option<int>
    decreases b.len() + 1 - from,
{
    if from < 0 || from + a.len() > b.len() {
        None
    } else if bytes_at(b, a, from) {
        Some(from)
    } else {
        find_bytes(b, a, from + 1)
    }
}

/// How many line feeds stand in the first `n` bytes.
pub open spec fn line_feeds(b: Seq<u8>, n: int) -> nat
    decreases n,
{
    if n <= 0 {
        0
    } else if b[n - 1] == 0x0a {
        line_feeds(b, n - 1) + 1
    } else {
        line_feeds(b, n - 1)
    }
}

/// The position behind the last line feed in the first `n` bytes.
pub open spec fn line_start(b: Seq<u8>, n: int) -> int
    decreases n,
{
    if n <= 0 {
        0
    } else if b[n - 1] == 0x0a {
        n
    } else {
        line_start(b, n - 1)
    }
}

/// Where a diagnostic starts: at the first occurrence of what it is about, or at
/// the start of the text.
pub open spec fn span_from(text: Seq<u8>, needle: Seq<u8>) -> int {
    if needle.len() == 0 {
        0
    } else {
        match find_bytes(text, needle, 0) {
            Some(at) => at,
            None => 0,
        }
    }
}

/// Where a diagnostic ends: behind what it is about, but at least one byte on,
/// and within the text.
pub open spec fn span_to(text: Seq<u8>, needle: Seq<u8>) -> int {
    let end = span_from(text, needle) + if needle.len() > 0 {
        needle.len() as int
    } else {
        1
    };
    if end <= text.len() {
        end
    } else {
        text.len() as int
    }
}

/// A range of a source text. Lines and columns count from 1; columns count bytes.
#[derive(Debug, Clone, Copy, PartialEq, Eq, Structural)]
pub struct Span {
    pub byte_start: usize,
    pub byte_end: usize,
    pub line_start: usize,
    pub column_start: usize,
    pub line_end: usize,
    pub column_end: usize,
}

fn find_in_bytes(b: &[u8], a: &[u8]) -> (r: Option<usize>)
    ensures
        match r {
            Some(at) => find_bytes(b@, a@, 0) == Some(at as int) && at + a@.len() <= b@.len(),
            None => find_bytes(b@, a@, 0) is None,
        },
{
    if a.len() > b.len() {
        return None;
    }
    let total: usize = b.len();
    let last: usize = total - a.len();
    let mut at: usize = 0;
    loop
        invariant
            a@.len() <= b@.len(),
            total == b@.len(),
            last == b@.len() - a@.len(),
            at <= last,
            find_bytes(b@, a@, 0) == find_bytes(b@, a@, at as int),
        decreases last - at,
    {
        let mut i: usize = 0;
        while i < a.len() && b[at + i] == a[i]
            invariant
                i <= a@.len(),
                total == b@.len(),
                at + a@.len() <= b@.len(),
                forall|j: int| 0 <= j < i ==> b@[at + j] == a@[j],
            decreases a@.len() - i,
        {
            i += 1;
        }
        if i == a.len() {
            assert(b@.subrange(at as int, at + a@.len()) =~= a@);
            return Some(at);
        }
        assert(b@.subrange(at as int, at + a@.len())[i as int] != a@[i as int]);
        if at == last {
            assert(find_bytes(b@, a@, at + 1) is None);
            return None;
        }
        at += 1;
    }
}

/// The line and the column of a position.
fn line_and_column(b: &[u8], offset: usize) -> (r: (usize, usize))
    requires
        offset <= b@.len(),
        b@.len() < usize::MAX,
    ensures
        r.0 == line_feeds(b@, offset as int) + 1,
        r.1 == offset - line_start(b@, offset as int) + 1,
{
    let mut line: usize = 1;
    let mut start: usize = 0;
    let mut i: usize = 0;
    while i < offset
        invariant
            i <= offset,
            offset <= b@.len(),
            b@.len() < usize::MAX,
            line == line_feeds(b@, i as int) + 1,
            line <= i + 1,
            start == line_start(b@, i as int),
            start <= i,
        decreases offset - i,
    {
        if b[i] == 0x0a {
            line += 1;
            start = i + 1;
        }
        i += 1;
    }
    (line, offset - start + 1)
}

/// Where a diagnostic about `needle` points in `text`. A text is at most as long
/// as the limit for source files.
pub fn actual_span(text: &str, needle: &str) -> (r: Span)
    requires
        text.spec_bytes().len() <= MAX_SOURCE_FILE_BYTES,
        is_char_boundary(
            text.spec_bytes(),
            span_to(text.spec_bytes(), needle.spec_bytes()),
        ),
    ensures
        r.byte_start == span_from(text.spec_bytes(), needle.spec_bytes()),
        r.byte_end == span_to(text.spec_bytes(), needle.spec_bytes()),
        r.line_start == line_feeds(text.spec_bytes(), r.byte_start as int) + 1,
        r.column_start == r.byte_start - line_start(text.spec_bytes(), r.byte_start as int) + 1,
        r.line_end == line_feeds(text.spec_bytes(), r.byte_end as int) + 1,
        r.column_end == r.byte_end - line_start(text.spec_bytes(), r.byte_end as int) + 1,
{
    let b = text.as_bytes();
    let a = needle.as_bytes();
    let start: usize = if a.len() == 0 {
        0
    } else {
        match find_in_bytes(b, a) {
            Some(at) => at,
            None => 0,
        }
    };
    let width: usize = if a.len() == 0 {
        1
    } else {
        a.len()
    };
    let end: usize = if width <= b.len() - start {
        start + width
    } else {
        b.len()
    };
    let (line_start_no, column_start) = line_and_column(b, start);
    let (line_end, column_end) = line_and_column(b, end);
    Span {
        byte_start: start,
        byte_end: end,
        line_start: line_start_no,
        column_start,
        line_end,
        column_end,
    }
}

/// The FNV-1a hash after a further byte.
pub open spec fn fnv_step(hash: u64, byte: u8) -> u64 {
    (((hash ^ (byte as u64)) as nat * 1099511628211) % 0x1_0000_0000_0000_0000) as u64
}

/// The FNV-1a hash after further bytes.
pub open spec fn fnv(hash: u64, bytes: Seq<u8>) -> u64
    decreases bytes.len(),
{
    if bytes.len() == 0 {
        hash
    } else {
        fnv_step(fnv(hash, bytes.drop_last()), bytes.last())
    }
}

/// A length as eight bytes, the lowest first.
pub open spec fn length_bytes(n: u64) -> Seq<u8> {
    seq![
        (n % 256) as u8,
        (n / 256 % 256) as u8,
        (n / 65536 % 256) as u8,
        (n / 16777216 % 256) as u8,
        (n / 4294967296 % 256) as u8,
        (n / 1099511627776 % 256) as u8,
        (n / 281474976710656 % 256) as u8,
        (n / 72057594037927936 % 256) as u8,
    ]
}

/// What is hashed of a list of files: each with its length in front.
pub open spec fn framed(files: Seq<Seq<u8>>) -> Seq<u8>
    decreases files.len(),
{
    if files.len() == 0 {
        Seq::empty()
    } else {
        framed(files.drop_last()) + length_bytes(files.last().len() as u64) + files.last()
    }
}

/// A hash as sixteen hex digits.
pub open spec fn hash_text(hash: u64) -> Seq<char> {
    seq![
        hex_digit((hash / 1152921504606846976 % 16) as nat),
        hex_digit((hash / 72057594037927936 % 16) as nat),
        hex_digit((hash / 4503599627370496 % 16) as nat),
        hex_digit((hash / 281474976710656 % 16) as nat),
        hex_digit((hash / 17592186044416 % 16) as nat),
        hex_digit((hash / 1099511627776 % 16) as nat),
        hex_digit((hash / 68719476736 % 16) as nat),
        hex_digit((hash / 4294967296 % 16) as nat),
        hex_digit((hash / 268435456 % 16) as nat),
        hex_digit((hash / 16777216 % 16) as nat),
        hex_digit((hash / 1048576 % 16) as nat),
        hex_digit((hash / 65536 % 16) as nat),
        hex_digit((hash / 4096 % 16) as nat),
        hex_digit((hash / 256 % 16) as nat),
        hex_digit((hash / 16 % 16) as nat),
        hex_digit((hash % 16) as nat),
    ]
}

fn step(hash: u64, byte: u8) -> (r: u64)
    ensures
        r == fnv_step(hash, byte),
{
    let mixed: u128 = ((hash ^ (byte as u64)) as u128) * 1099511628211;
    (mixed % 0x1_0000_0000_0000_0000) as u64
}

fn hash_bytes(hash: u64, bytes: &Vec<u8>) -> (r: u64)
    ensures
        r == fnv(hash, bytes@),
{
    let mut h: u64 = hash;
    let mut i: usize = 0;
    assert(bytes@.take(0) =~= Seq::<u8>::empty());
    while i < bytes.len()
        invariant
            i <= bytes.len(),
            h == fnv(hash, bytes@.take(i as int)),
        decreases bytes.len() - i,
    {
        assert(bytes@.take(i + 1).drop_last() =~= bytes@.take(i as int));
        assert(bytes@.take(i + 1).last() == bytes@[i as int]);
        h = step(h, bytes[i]);
        i += 1;
    }
    assert(bytes@.take(bytes@.len() as int) =~= bytes@);
    h
}

/// Hashing two runs of bytes is hashing the one and then the other.
pub proof fn lemma_fnv_concat(hash: u64, a: Seq<u8>, b: Seq<u8>)
    ensures
        fnv(hash, a + b) == fnv(fnv(hash, a), b),
    decreases b.len(),
{
    if b.len() == 0 {
        assert(a + b =~= a);
    } else {
        assert((a + b).drop_last() =~= a + b.drop_last());
        lemma_fnv_concat(hash, a, b.drop_last());
    }
}

fn hex_char(n: u64) -> (c: char)
    requires
        n < 16,
    ensures
        c == hex_digit(n as nat),
{
    if n < 10 {
        (48u8 + n as u8) as char
    } else {
        (87u8 + n as u8) as char
    }
}

/// The fingerprint of a list of files: the FNV-1a hash of their lengths and
/// contents, as sixteen hex digits.
pub fn source_fingerprint(files: &Vec<Vec<u8>>) -> (r: String)
    ensures
        r@ == hash_text(
            fnv(14695981039346656037, framed(files@.map_values(|f: Vec<u8>| f@))),
        ),
{
    let ghost contents = files@.map_values(|f: Vec<u8>| f@);
    let mut hash: u64 = 14695981039346656037;
    let mut i: usize = 0;
    assert(contents.take(0) =~= Seq::<Seq<u8>>::empty());
    while i < files.len()
        invariant
            i <= files.len(),
            contents == files@.map_values(|f: Vec<u8>| f@),
            hash == fnv(14695981039346656037, framed(contents.take(i as int))),
        decreases files.len() - i,
    {
        let n: u64 = files[i].len() as u64;
        let frame: Vec<u8> = vec![
            (n % 256) as u8,
            (n / 256 % 256) as u8,
            (n / 65536 % 256) as u8,
            (n / 16777216 % 256) as u8,
            (n / 4294967296 % 256) as u8,
            (n / 1099511627776 % 256) as u8,
            (n / 281474976710656 % 256) as u8,
            (n / 72057594037927936 % 256) as u8,
        ];
        proof {
            assert(frame@ =~= length_bytes(n));
            let so_far = framed(contents.take(i as int));
            assert(contents.take(i + 1).drop_last() =~= contents.take(i as int));
            assert(contents.take(i + 1).last() == files@[i as int]@);
            lemma_fnv_concat(14695981039346656037, so_far, frame@);
            lemma_fnv_concat(14695981039346656037, so_far + frame@, files@[i as int]@);
        }
        hash = hash_bytes(hash, &frame);
        hash = hash_bytes(hash, &files[i]);
        i += 1;
    }
    assert(contents.take(contents.len() as int) =~= contents);
    let digits: Vec<char> = vec![
        hex_char(hash / 1152921504606846976 % 16),
        hex_char(hash / 72057594037927936 % 16),
        hex_char(hash / 4503599627370496 % 16),
        hex_char(hash / 281474976710656 % 16),
        hex_char(hash / 17592186044416 % 16),
        hex_char(hash / 1099511627776 % 16),
        hex_char(hash / 68719476736 % 16),
        hex_char(hash / 4294967296 % 16),
        hex_char(hash / 268435456 % 16),
        hex_char(hash / 16777216 % 16),
        hex_char(hash / 1048576 % 16),
        hex_char(hash / 65536 % 16),
        hex_char(hash / 4096 % 16),
        hex_char(hash / 256 % 16),
        hex_char(hash / 16 % 16),
        hex_char(hash % 16),
    ];
    assert(digits@ =~= hash_text(hash));
    text_of(&digits)
}

/// The length that eight bytes write.
spec fn written_length(b: Seq<u8>) -> int {
    b[0] + 256 * b[1] + 65536 * b[2] + 16777216 * b[3] + 4294967296 * b[4] + 1099511627776 * b[5]
        + 281474976710656 * b[6] + 72057594037927936 * b[7]
}

proof fn lemma_written_length(n: u64)
    ensures
        written_length(length_bytes(n)) == n,
{
    assert(n == (n % 256) + 256 * (n / 256 % 256) + 65536 * (n / 65536 % 256) + 16777216 * (n
        / 16777216 % 256) + 4294967296 * (n / 4294967296 % 256) + 1099511627776 * (n
        / 1099511627776 % 256) + 281474976710656 * (n / 281474976710656 % 256)
        + 72057594037927936 * (n / 72057594037927936 % 256)) by (bit_vector);
}

proof fn lemma_framed_first(files: Seq<Seq<u8>>)
    requires
        files.len() > 0,
    ensures
        framed(files) == length_bytes(files[0].len() as u64) + files[0] + framed(files.skip(1)),
    decreases files.len(),
{
    let rest = files.skip(1);
    if files.len() == 1 {
        assert(files.drop_last() =~= Seq::<Seq<u8>>::empty());
        assert(framed(files.drop_last()) =~= Seq::<u8>::empty());
        assert(framed(rest) =~= Seq::<u8>::empty());
        assert(framed(files) =~= length_bytes(files[0].len() as u64) + files[0] + framed(rest));
    } else {
        lemma_framed_first(files.drop_last());
        assert(files.drop_last().skip(1) =~= rest.drop_last());
        assert(framed(files) =~= length_bytes(files[0].len() as u64) + files[0] + framed(rest));
    }
}

proof fn lemma_split(f: Seq<u8>, x: Seq<u8>, p: Seq<u8>, g: Seq<u8>, y: Seq<u8>, q: Seq<u8>)
    requires
        f.len() == 8,
        g.len() == 8,
        written_length(f) == x.len(),
        written_length(g) == y.len(),
        f + x + p == g + y + q,
    ensures
        x == y,
        p == q,
{
    let s = f + x + p;
    assert(s.take(8) =~= f);
    assert(s.take(8) =~= g);
    let n = 8 + x.len() as int;
    assert(s.subrange(8, n) =~= x);
    assert(s.subrange(8, n) =~= y);
    assert(s.skip(n) =~= p);
    assert(s.skip(n) =~= q);
}

/// What is hashed tells the files apart: two lists of files that are hashed alike,
/// byte for byte, are the same, in number, in order and in content.
pub proof fn law_framing_tells_files_apart(a: Seq<Seq<u8>>, b: Seq<Seq<u8>>)
    requires
        framed(a) == framed(b),
        forall|i: int| 0 <= i < a.len() ==> (#[trigger] a[i]).len() <= u64::MAX,
        forall|i: int| 0 <= i < b.len() ==> (#[trigger] b[i]).len() <= u64::MAX,
    ensures
        a == b,
    decreases a.len(),
{
    if a.len() == 0 {
        if b.len() > 0 {
            lemma_framed_first(b);
            assert(framed(a).len() == 0);
        }
        assert(a =~= b);
    } else if b.len() == 0 {
        lemma_framed_first(a);
        assert(framed(b).len() == 0);
    } else {
        lemma_framed_first(a);
        lemma_framed_first(b);
        let x = a[0];
        let y = b[0];
        let fx = length_bytes(x.len() as u64);
        let fy = length_bytes(y.len() as u64);
        lemma_written_length(x.len() as u64);
        lemma_written_length(y.len() as u64);
        lemma_split(fx, x, framed(a.skip(1)), fy, y, framed(b.skip(1)));
        law_framing_tells_files_apart(a.skip(1), b.skip(1));
        assert(a =~= seq![x] + a.skip(1));
        assert(b =~= seq![y] + b.skip(1));
    }
}


/// The bytes of a length give it back, the lowest first.
pub proof fn law_length_is_given_back(n: u64)
    ensures
        ({
            let b = length_bytes(n);
            &&& b.len() == 8
            &&& n == b[0] + 256 * (b[1] + 256 * (b[2] + 256 * (b[3] + 256 * (b[4] + 256 * (b[5]
                + 256 * (b[6] + 256 * b[7]))))))
        }),
{
    lemma_next_byte(n, 1, 256);
    lemma_next_byte(n, 256, 65536);
    lemma_next_byte(n, 65536, 16777216);
    lemma_next_byte(n, 16777216, 4294967296);
    lemma_next_byte(n, 4294967296, 1099511627776);
    lemma_next_byte(n, 1099511627776, 281474976710656);
    lemma_next_byte(n, 281474976710656, 72057594037927936);
    assert(n / 72057594037927936 < 256);
}

proof fn lemma_next_byte(n: u64, d: u64, e: u64)
    requires
        d > 0,
        e == 256 * d,
    ensures
        n / d == (n / d) % 256 + 256 * (n / e),
{
    vstd::arithmetic::div_mod::lemma_div_denominator(n as int, d as int, 256);
    assert(d * 256 == e);
}

/// Of the text of a hash the last digit is that of its lowest four bits, and without those
/// it is the text with the other digits one place to the right.
pub proof fn law_hash_digits_move_up(hash: u64, k: int)
    requires
        0 <= k < 15,
    ensures
        hash_text(hash).len() == 16,
        hash_text(hash)[15] == hex_digit((hash % 16) as nat),
        hash_text(hash / 16)[k + 1] == hash_text(hash)[k],
        hash_text(hash / 16)[0] == hex_digit(0),
{
    let h = hash as int;
    assert(hash / 16 / 1152921504606846976 == 0);
    if k == 0 {
        lemma_moved_digit(hash, 72057594037927936, 1152921504606846976);
    } else if k == 1 {
        lemma_moved_digit(hash, 4503599627370496, 72057594037927936);
    } else if k == 2 {
        lemma_moved_digit(hash, 281474976710656, 4503599627370496);
    } else if k == 3 {
        lemma_moved_digit(hash, 17592186044416, 281474976710656);
    } else if k == 4 {
        lemma_moved_digit(hash, 1099511627776, 17592186044416);
    } else if k == 5 {
        lemma_moved_digit(hash, 68719476736, 1099511627776);
    } else if k == 6 {
        lemma_moved_digit(hash, 4294967296, 68719476736);
    } else if k == 7 {
        lemma_moved_digit(hash, 268435456, 4294967296);
    } else if k == 8 {
        lemma_moved_digit(hash, 16777216, 268435456);
    } else if k == 9 {
        lemma_moved_digit(hash, 1048576, 16777216);
    } else if k == 10 {
        lemma_moved_digit(hash, 65536, 1048576);
    } else if k == 11 {
        lemma_moved_digit(hash, 4096, 65536);
    } else if k == 12 {
        lemma_moved_digit(hash, 256, 4096);
    } else if k == 13 {
        lemma_moved_digit(hash, 16, 256);
    } else if k == 14 {
        lemma_moved_digit(hash, 1, 16);
    }
}

proof fn lemma_moved_digit(hash: u64, d: u64, e: u64)
    requires
        d > 0,
        e == 16 * d,
    ensures
        hash / 16 / d == hash / e,
{
    vstd::arithmetic::div_mod::lemma_div_denominator(hash as int, 16, d as int);
}

} // verus!
