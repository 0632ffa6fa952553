//! Text as a sequence of characters: searching, trimming and splitting.
use vstd::prelude::*;

verus! {

/// `String::push` appends one character at the end.
pub assume_specification[ String::push ](s: &mut String, c: char)
    ensures
        final(s)@ == old(s)@.push(c),
;

/// Unicode's `White_Space` property.
pub open spec fn is_white(c: char) -> bool {
    ||| '\u{9}' <= c <= '\u{d}'
    ||| c == ' '
    ||| c == '\u{85}'
    ||| c == '\u{a0}'
    ||| c == '\u{1680}'
    ||| '\u{2000}' <= c <= '\u{200a}'
    ||| c == '\u{2028}'
    ||| c == '\u{2029}'
    ||| c == '\u{202f}'
    ||| c == '\u{205f}'
    ||| c == '\u{3000}'
}

/// `pat` stands in `s` at position `at`.
pub open spec fn occurs_at(s: Seq<char>, pat: Seq<char>, at: int) -> bool {
    0 <= at && at + pat.len() <= s.len() && s.subrange(at, at + pat.len()) == pat
}

/// `pat` stands somewhere in `s`.
pub open spec fn contains(s: Seq<char>, pat: Seq<char>) -> bool {
    exists|at: int| occurs_at(s, pat, at)
}

/// The least position, not before `from`, at which `pat` stands in `s`.
pub open spec fn find_from(s: Seq<char>, pat: Seq<char>, from: int) -> Option<int>
    decreases s.len() + 1 - from,
{
    if from < 0 || from + pat.len() > s.len() {
        None
    } else if occurs_at(s, pat, from) {
        Some(from)
    } else {
        find_from(s, pat, from + 1)
    }
}

/// The least position at which `pat` stands in `s`.
pub open spec fn find(s: Seq<char>, pat: Seq<char>) -> Option<int> {
    find_from(s, pat, 0)
}

/// The greatest position, not after `from`, at which `pat` stands in `s`.
pub open spec fn rfind_from(s: Seq<char>, pat: Seq<char>, from: int) -> Option<int>
    decreases from + 1,
{
    if from < 0 {
        None
    } else if occurs_at(s, pat, from) {
        Some(from)
    } else {
        rfind_from(s, pat, from - 1)
    }
}

/// The greatest position at which `pat` stands in `s`.
pub open spec fn rfind(s: Seq<char>, pat: Seq<char>) -> Option<int> {
    rfind_from(s, pat, s.len() - pat.len())
}

/// What follows the first `pat` in `s`.
pub open spec fn after(s: Seq<char>, pat: Seq<char>) -> Option<Seq<char>> {
    match find(s, pat) {
        Some(at) => Some(s.skip(at + pat.len())),
        None => None,
    }
}

/// What precedes the first `pat` in `s`, or the whole of `s`.
pub open spec fn before(s: Seq<char>, pat: Seq<char>) -> Seq<char> {
    match find(s, pat) {
        Some(at) => s.take(at),
        None => s,
    }
}

/// `s` without its leading white space.
pub open spec fn trim_start(s: Seq<char>) -> Seq<char>
    decreases s.len(),
{
    if s.len() > 0 && is_white(s[0]) {
        trim_start(s.skip(1))
    } else {
        s
    }
}

/// `s` without its trailing white space.
pub open spec fn trim_end(s: Seq<char>) -> Seq<char>
    decreases s.len(),
{
    if s.len() > 0 && is_white(s.last()) {
        trim_end(s.drop_last())
    } else {
        s
    }
}

/// `s` without leading and trailing white space.
pub open spec fn trim(s: Seq<char>) -> Seq<char> {
    trim_end(trim_start(s))
}

/// The length of the longest prefix of `s` that holds no white space.
pub open spec fn word_len(s: Seq<char>) -> nat
    decreases s.len(),
{
    if s.len() > 0 && !is_white(s[0]) {
        1 + word_len(s.skip(1))
    } else {
        0
    }
}

pub proof fn lemma_word_len(s: Seq<char>)
    ensures
        word_len(s) <= s.len(),
        forall|i: int| 0 <= i < word_len(s) ==> !is_white(#[trigger] s[i]),
        word_len(s) < s.len() ==> is_white(s[word_len(s) as int]),
        s.len() > 0 && !is_white(s[0]) ==> word_len(s) > 0,
    decreases s.len(),
{
    if s.len() > 0 && !is_white(s[0]) {
        lemma_word_len(s.skip(1));
        assert forall|i: int| 0 <= i < word_len(s) implies !is_white(#[trigger] s[i]) by {
            if i > 0 {
                assert(s.skip(1)[i - 1] == s[i]);
            }
        }
    }
}

/// The words of `s`: its maximal runs of characters that are not white space.
pub open spec fn words(s: Seq<char>) -> Seq<Seq<char>>
    decreases s.len(),
{
    let t = trim_start(s);
    if t.len() == 0 {
        Seq::empty()
    } else {
        proof {
            lemma_trim_start(s);
            lemma_word_len(t);
        }
        seq![t.take(word_len(t) as int)] + words(t.skip(word_len(t) as int))
    }
}

pub proof fn lemma_trim_start(s: Seq<char>)
    ensures
        trim_start(s).len() <= s.len(),
        trim_start(s) == s.skip(s.len() - trim_start(s).len()),
        forall|i: int| 0 <= i < s.len() - trim_start(s).len() ==> is_white(#[trigger] s[i]),
        trim_start(s).len() > 0 ==> !is_white(trim_start(s)[0]),
    decreases s.len(),
{
    if s.len() > 0 && is_white(s[0]) {
        let r = s.skip(1);
        lemma_trim_start(r);
        assert(trim_start(s) =~= s.skip(s.len() - trim_start(s).len()));
        assert forall|i: int| 0 <= i < s.len() - trim_start(s).len() implies is_white(
            #[trigger] s[i],
        ) by {
            if i > 0 {
                assert(r[i - 1] == s[i]);
            }
        }
    } else {
        assert(s.skip(0) =~= s);
    }
}

/// Where `find_from` points, the pattern stands, and it stands nowhere between
/// `from` and that position.
pub proof fn lemma_find_from(s: Seq<char>, pat: Seq<char>, from: int)
    requires
        0 <= from,
    ensures
        match find_from(s, pat, from) {
            Some(at) => {
                &&& from <= at
                &&& occurs_at(s, pat, at)
                &&& forall|i: int| from <= i < at ==> !#[trigger] occurs_at(s, pat, i)
            },
            None => forall|i: int| from <= i ==> !#[trigger] occurs_at(s, pat, i),
        },
    decreases s.len() + 1 - from,
{
    if from + pat.len() > s.len() {
    } else if occurs_at(s, pat, from) {
    } else {
        lemma_find_from(s, pat, from + 1);
    }
}

/// A text contains a pattern exactly where a search from its start finds it.
pub proof fn lemma_contains_find(s: Seq<char>, pat: Seq<char>)
    ensures
        contains(s, pat) <==> find(s, pat) is Some,
{
    lemma_find_from(s, pat, 0);
    if contains(s, pat) {
        let at = choose|at: int| occurs_at(s, pat, at);
        assert(occurs_at(s, pat, at));
        if find(s, pat) is None {
            assert(0 <= at);
        }
    }
    if find(s, pat) is Some {
        assert(occurs_at(s, pat, find(s, pat)->0));
    }
}

/// The characters of a string.
pub fn chars_of(s: &str) -> (r: Vec<char>)
    ensures
        r@ == s@,
{
    let mut out: Vec<char> = Vec::new();
    for c in it: s.chars()
        invariant
            it.seq() == s@,
            out@ == s@.take(it.index() as int),
    {
        assert(s@.take(it.index() + 1) =~= s@.take(it.index() as int).push(s@[it.index() as int]));
        out.push(c);
    }
    assert(s@.take(s@.len() as int) =~= s@);
    out
}

/// The string of these characters.
pub fn text_of(v: &Vec<char>) -> (r: String)
    ensures
        r@ == v@,
{
    let mut out = String::new();
    let mut i: usize = 0;
    while i < v.len()
        invariant
            i <= v.len(),
            out@ == v@.take(i as int),
        decreases v.len() - i,
    {
        assert(v@.take(i + 1) =~= v@.take(i as int).push(v@[i as int]));
        out.push(v[i]);
        i += 1;
    }
    assert(v@.take(v@.len() as int) =~= v@);
    out
}

/// The characters from `from` up to `to`.
pub fn slice(v: &Vec<char>, from: usize, to: usize) -> (r: Vec<char>)
    requires
        from <= to <= v.len(),
    ensures
        r@ == v@.subrange(from as int, to as int),
{
    let mut out: Vec<char> = Vec::new();
    let mut i: usize = from;
    while i < to
        invariant
            from <= i <= to <= v.len(),
            out@ == v@.subrange(from as int, i as int),
        decreases to - i,
    {
        assert(v@.subrange(from as int, i + 1) =~= v@.subrange(from as int, i as int).push(
            v@[i as int],
        ));
        out.push(v[i]);
        i += 1;
    }
    out
}

pub fn is_white_char(c: char) -> (r: bool)
    ensures
        r == is_white(c),
{
    ('\u{9}' <= c && c <= '\u{d}') || c == ' ' || c == '\u{85}' || c == '\u{a0}' || c == '\u{1680}'
        || ('\u{2000}' <= c && c <= '\u{200a}') || c == '\u{2028}' || c == '\u{2029}' || c
        == '\u{202f}' || c == '\u{205f}' || c == '\u{3000}'
}

/// Whether `pat` stands at `at`.
pub fn occurs(v: &Vec<char>, pat: &Vec<char>, at: usize) -> (r: bool)
    ensures
        r == occurs_at(v@, pat@, at as int),
{
    if at > v.len() || pat.len() > v.len() - at {
        return false;
    }
    let mut i: usize = 0;
    while i < pat.len()
        invariant
            i <= pat.len(),
            at + pat.len() <= v.len(),
            forall|j: int| 0 <= j < i ==> v@[at + j] == pat@[j],
        decreases pat.len() - i,
    {
        if v[at + i] != pat[i] {
            assert(v@.subrange(at as int, at + pat.len())[i as int] != pat@[i as int]);
            return false;
        }
        i += 1;
    }
    assert(v@.subrange(at as int, at + pat.len()) =~= pat@);
    true
}

/// Position of the first `pat` at or after `from`.
pub fn find_str_from(v: &Vec<char>, pat: &str, from: usize) -> (r: Option<usize>)
    ensures
        match r {
            Some(at) => find_from(v@, pat@, from as int) == Some(at as int) && at + pat@.len()
                <= v.len(),
            None => find_from(v@, pat@, from as int) is None,
        },
{
    let p = chars_of(pat);
    if from > v.len() || p.len() > v.len() - from {
        return None;
    }
    let last: usize = v.len() - p.len();
    let mut at: usize = from;
    while at <= last
        invariant
            p@ == pat@,
            p.len() <= v.len(),
            last == v.len() - p.len(),
            from <= at <= last + 1,
            find_from(v@, pat@, from as int) == find_from(v@, pat@, at as int),
        decreases last + 1 - at,
    {
        if occurs(v, &p, at) {
            return Some(at);
        }
        if at == last {
            assert(find_from(v@, pat@, at + 1) is None);
            return None;
        }
        at += 1;
    }
    None
}

/// Position of the first `pat`.
pub fn find_str(v: &Vec<char>, pat: &str) -> (r: Option<usize>)
    ensures
        match r {
            Some(at) => find(v@, pat@) == Some(at as int) && at + pat@.len() <= v.len(),
            None => find(v@, pat@) is None,
        },
{
    find_str_from(v, pat, 0)
}

/// Whether `pat` stands anywhere in `v`.
pub fn contains_str(v: &Vec<char>, pat: &str) -> (r: bool)
    ensures
        r == contains(v@, pat@),
{
    proof {
        lemma_contains_find(v@, pat@);
    }
    find_str(v, pat).is_some()
}

/// Position of the last `pat`.
pub fn rfind_str(v: &Vec<char>, pat: &str) -> (r: Option<usize>)
    ensures
        match r {
            Some(at) => rfind(v@, pat@) == Some(at as int) && at + pat@.len() <= v.len(),
            None => rfind(v@, pat@) is None,
        },
{
    let p = chars_of(pat);
    if p.len() > v.len() {
        return None;
    }
    let mut at: usize = v.len() - p.len();
    loop
        invariant
            p@ == pat@,
            p.len() <= v.len(),
            at <= v.len() - p.len(),
            rfind(v@, pat@) == rfind_from(v@, pat@, at as int),
        decreases at,
    {
        if occurs(v, &p, at) {
            return Some(at);
        }
        if at == 0 {
            assert(rfind_from(v@, pat@, -1) is None);
            return None;
        }
        at -= 1;
    }
}

/// `v` without leading white space.
pub fn trimmed_start(v: &Vec<char>) -> (r: Vec<char>)
    ensures
        r@ == trim_start(v@),
{
    let mut i: usize = 0;
    assert(v@.skip(0) =~= v@);
    while i < v.len() && is_white_char(v[i])
        invariant
            i <= v.len(),
            trim_start(v@) == trim_start(v@.skip(i as int)),
        decreases v.len() - i,
    {
        assert(v@.skip(i as int).skip(1) =~= v@.skip(i + 1));
        i += 1;
    }
    assert(v@.skip(i as int) =~= v@.subrange(i as int, v@.len() as int));
    slice(v, i, v.len())
}

/// `v` without leading and trailing white space.
pub fn trimmed(v: &Vec<char>) -> (r: Vec<char>)
    ensures
        r@ == trim(v@),
{
    let mut out = trimmed_start(v);
    while out.len() > 0 && is_white_char(out[out.len() - 1])
        invariant
            trim(v@) == trim_end(out@),
        decreases out.len(),
    {
        proof {
            assert(is_white(out@.last()));
            assert(out@.drop_last() =~= out@.take(out@.len() - 1));
        }
        out.pop();
    }
    out
}

/// The words of `v`, in order.
pub fn split_words(v: &Vec<char>) -> (r: Vec<Vec<char>>)
    ensures
        r@.len() == words(v@).len(),
        forall|i: int| 0 <= i < r@.len() ==> (#[trigger] r@[i])@ == words(v@)[i],
{
    let mut out: Vec<Vec<char>> = Vec::new();
    let mut i: usize = 0;
    let ghost all = words(v@);
    assert(v@.skip(0) =~= v@);
    loop
        invariant
            i <= v.len(),
            all == words(v@),
            out@.len() + words(v@.skip(i as int)).len() == all.len(),
            forall|k: int| 0 <= k < out@.len() ==> (#[trigger] out@[k])@ == all[k],
            forall|k: int|
                0 <= k < words(v@.skip(i as int)).len() ==> #[trigger] words(v@.skip(i as int))[k]
                    == all[out@.len() + k],
        decreases v.len() - i,
    {
        let ghost rest = v@.skip(i as int);
        let mut j: usize = i;
        while j < v.len() && is_white_char(v[j])
            invariant
                i <= j <= v.len(),
                trim_start(rest) == trim_start(v@.skip(j as int)),
            decreases v.len() - j,
        {
            assert(v@.skip(j as int).skip(1) =~= v@.skip(j + 1));
            j += 1;
        }
        let ghost t = v@.skip(j as int);
        assert(trim_start(rest) == t);
        if j == v.len() {
            assert(words(rest) == Seq::<Seq<char>>::empty());
            return out;
        }
        let mut k: usize = j;
        assert(t.skip(0) =~= t);
        while k < v.len() && !is_white_char(v[k])
            invariant
                j <= k <= v.len(),
                t == v@.skip(j as int),
                word_len(t) == (k - j) + word_len(t.skip(k - j)),
            decreases v.len() - k,
        {
            assert(t.skip(k - j).skip(1) =~= t.skip(k + 1 - j));
            k += 1;
        }
        proof {
            assert(word_len(t) == k - j);
            assert(t.skip(k - j) =~= v@.skip(k as int));
            assert(t.take(k - j) =~= v@.subrange(j as int, k as int));
            assert(words(rest) == seq![t.take(k - j)] + words(v@.skip(k as int)));
            assert(words(rest)[0] == t.take(k - j));
            lemma_word_len(t);
            assert forall|m: int| 0 <= m < words(v@.skip(k as int)).len() implies
                #[trigger] words(v@.skip(k as int))[m] == all[out@.len() + 1 + m] by {
                assert(words(rest)[m + 1] == words(v@.skip(k as int))[m]);
            }
        }
        out.push(slice(v, j, k));
        i = k;
    }
}

/// Whether the characters are those of `s`.
pub fn eq_str(v: &Vec<char>, s: &str) -> (r: bool)
    ensures
        r == (v@ == s@),
{
    let p = chars_of(s);
    if v.len() != p.len() {
        return false;
    }
    assert(v@.subrange(0, v@.len() as int) =~= v@);
    occurs(v, &p, 0)
}

/// The texts of a list of strings.
pub open spec fn texts(v: Seq<String>) -> Seq<Seq<char>> {
    v.map_values(|s: String| s@)
}

/// `parts` one behind the other with `sep` between them.
pub open spec fn join(parts: Seq<Seq<char>>, sep: Seq<char>) -> Seq<char>
    decreases parts.len(),
{
    if parts.len() == 0 {
        Seq::empty()
    } else if parts.len() == 1 {
        parts[0]
    } else {
        join(parts.drop_last(), sep) + sep + parts.last()
    }
}

/// Appends `more` to `out`.
pub fn push_all(out: &mut Vec<char>, more: &Vec<char>)
    ensures
        final(out)@ == old(out)@ + more@,
{
    let ghost start = out@;
    let mut i: usize = 0;
    while i < more.len()
        invariant
            i <= more.len(),
            out@ == start + more@.take(i as int),
        decreases more.len() - i,
    {
        assert(start + more@.take(i + 1) =~= (start + more@.take(i as int)).push(more@[i as int]));
        out.push(more[i]);
        i += 1;
    }
    assert(more@.take(more@.len() as int) =~= more@);
}

/// Appends the characters of `more` to `out`.
pub fn push_str(out: &mut Vec<char>, more: &str)
    ensures
        final(out)@ == old(out)@ + more@,
{
    push_all(out, &chars_of(more));
}

/// The words joined by `sep`.
pub fn join_words(parts: &Vec<Vec<char>>, sep: &str) -> (r: Vec<char>)
    ensures
        r@ == join(parts@.map_values(|w: Vec<char>| w@), sep@),
{
    let ghost whole = parts@.map_values(|w: Vec<char>| w@);
    let mut out: Vec<char> = Vec::new();
    let mut i: usize = 0;
    while i < parts.len()
        invariant
            i <= parts.len(),
            whole == parts@.map_values(|w: Vec<char>| w@),
            out@ == join(whole.take(i as int), sep@),
        decreases parts.len() - i,
    {
        if i > 0 {
            push_str(&mut out, sep);
        }
        push_all(&mut out, &parts[i]);
        proof {
            let next = whole.take(i + 1);
            assert(next.drop_last() =~= whole.take(i as int));
            assert(next.last() == parts@[i as int]@);
        }
        i += 1;
    }
    assert(whole.take(whole.len() as int) =~= whole);
    out
}

/// Two sequences of words are the same where all their words are.
pub proof fn lemma_same_words(v: Seq<Vec<char>>, w: Seq<Seq<char>>)
    requires
        v.len() == w.len(),
        forall|i: int| 0 <= i < v.len() ==> (#[trigger] v[i])@ == w[i],
    ensures
        v.map_values(|x: Vec<char>| x@) == w,
{
    assert(v.map_values(|x: Vec<char>| x@) =~= w);
}

/// `v` without the characters from `from` up to `to`.
pub fn without(v: &Vec<char>, from: usize, to: usize) -> (r: Vec<char>)
    requires
        from <= to <= v.len(),
    ensures
        r@ == v@.take(from as int) + v@.skip(to as int),
{
    let mut out = slice(v, 0, from);
    let tail = slice(v, to, v.len());
    push_all(&mut out, &tail);
    assert(out@ =~= v@.take(from as int) + v@.skip(to as int));
    out
}

/// `s` with every `pat`, taken from the left without overlap, replaced.
pub open spec fn replace(s: Seq<char>, pat: Seq<char>, with: Seq<char>) -> Seq<char>
    decreases s.len(),
{
    match find(s, pat) {
        Some(at) if pat.len() > 0 => {
            proof {
                lemma_find_from(s, pat, 0);
            }
            s.take(at) + with + replace(s.skip(at + pat.len()), pat, with)
        },
        _ => s,
    }
}

/// `v` with every `pat` replaced by `with`.
pub fn replaced(v: &Vec<char>, pat: &str, with: &str) -> (r: Vec<char>)
    requires
        pat@.len() > 0,
    ensures
        r@ == replace(v@, pat@, with@),
{
    let width: usize = chars_of(pat).len();
    let mut out: Vec<char> = Vec::new();
    let mut rest = slice(v, 0, v.len());
    assert(rest@ =~= v@);
    assert(out@ + replace(rest@, pat@, with@) =~= replace(v@, pat@, with@));
    loop
        invariant
            width == pat@.len(),
            width > 0,
            out@ + replace(rest@, pat@, with@) == replace(v@, pat@, with@),
        decreases rest.len(),
    {
        match find_str(&rest, pat) {
            None => {
                push_all(&mut out, &rest);
                return out;
            },
            Some(at) => {
                let ghost before = out@;
                let ghost here = rest@;
                let head = slice(&rest, 0, at);
                let tail = slice(&rest, at + width, rest.len());
                push_all(&mut out, &head);
                push_str(&mut out, with);
                proof {
                    assert(head@ =~= here.take(at as int));
                    assert(tail@ =~= here.skip(at + pat@.len()));
                    assert(before + (head@ + with@ + replace(tail@, pat@, with@)) =~= (before
                        + head@ + with@) + replace(tail@, pat@, with@));
                }
                rest = tail;
            },
        }
    }
}

pub open spec fn starts_with(s: Seq<char>, prefix: Seq<char>) -> bool {
    occurs_at(s, prefix, 0)
}

pub open spec fn ends_with(s: Seq<char>, suffix: Seq<char>) -> bool {
    occurs_at(s, suffix, s.len() - suffix.len())
}

pub fn starts_with_str(v: &Vec<char>, prefix: &str) -> (r: bool)
    ensures
        r == starts_with(v@, prefix@),
{
    occurs(v, &chars_of(prefix), 0)
}

pub fn ends_with_str(v: &Vec<char>, suffix: &str) -> (r: bool)
    ensures
        r == ends_with(v@, suffix@),
{
    let p = chars_of(suffix);
    if p.len() > v.len() {
        return false;
    }
    occurs(v, &p, v.len() - p.len())
}

/// Some word of `ws` is `w`.
pub open spec fn has_word(ws: Seq<Seq<char>>, w: Seq<char>) -> bool {
    exists|i: int| 0 <= i < ws.len() && #[trigger] ws[i] == w
}

/// What follows `prefix` in the first word that starts with it.
pub open spec fn first_suffix(ws: Seq<Seq<char>>, prefix: Seq<char>) -> Option<Seq<char>>
    decreases ws.len(),
{
    if ws.len() == 0 {
        None
    } else if starts_with(ws[0], prefix) {
        Some(ws[0].skip(prefix.len() as int))
    } else {
        first_suffix(ws.skip(1), prefix)
    }
}

/// Whether one of the words of `v` is `word`.
pub fn contains_word(v: &Vec<char>, word: &str) -> (r: bool)
    ensures
        r == has_word(words(v@), word@),
{
    let parts = split_words(v);
    let mut i: usize = 0;
    while i < parts.len()
        invariant
            i <= parts.len(),
            parts@.len() == words(v@).len(),
            forall|k: int| 0 <= k < parts@.len() ==> (#[trigger] parts@[k])@ == words(v@)[k],
            forall|k: int| 0 <= k < i ==> #[trigger] words(v@)[k] != word@,
        decreases parts.len() - i,
    {
        assert(parts@[i as int]@ == words(v@)[i as int]);
        if eq_str(&parts[i], word) {
            return true;
        }
        i += 1;
    }
    false
}

/// What follows `prefix` in the first of the words that starts with it.
pub fn word_suffix(parts: &Vec<Vec<char>>, prefix: &str) -> (r: Option<Vec<char>>)
    ensures
        match r {
            Some(t) => first_suffix(parts@.map_values(|w: Vec<char>| w@), prefix@) == Some(t@),
            None => first_suffix(parts@.map_values(|w: Vec<char>| w@), prefix@) is None,
        },
{
    let ghost ws = parts@.map_values(|w: Vec<char>| w@);
    let width: usize = chars_of(prefix).len();
    let mut i: usize = 0;
    assert(ws.skip(0) =~= ws);
    while i < parts.len()
        invariant
            i <= parts.len(),
            width == prefix@.len(),
            ws == parts@.map_values(|w: Vec<char>| w@),
            first_suffix(ws, prefix@) == first_suffix(ws.skip(i as int), prefix@),
        decreases parts.len() - i,
    {
        assert(ws.skip(i as int)[0] == parts@[i as int]@);
        assert(ws.skip(i as int).skip(1) =~= ws.skip(i + 1));
        if starts_with_str(&parts[i], prefix) {
            let tail = slice(&parts[i], width, parts[i].len());
            assert(tail@ =~= parts@[i as int]@.skip(width as int));
            return Some(tail);
        }
        i += 1;
    }
    None
}

/// The digit `d` as a character.
pub open spec fn digit_char(d: nat) -> char {
    (48 + d) as char
}

/// `n` in decimal.
pub open spec fn decimal_text(n: nat) -> Seq<char>
    decreases n,
{
    if n < 10 {
        seq![digit_char(n)]
    } else {
        decimal_text(n / 10).push(digit_char(n % 10))
    }
}

/// `n` in decimal.
pub fn number_text(n: u64) -> (r: Vec<char>)
    ensures
        r@ == decimal_text(n as nat),
    decreases n,
{
    let last: char = (48u8 + (n % 10) as u8) as char;
    if n < 10 {
        vec![last]
    } else {
        let mut out = number_text(n / 10);
        out.push(last);
        out
    }
}

/// The pieces of `s` between the occurrences of `pat`, which do not overlap.
pub open spec fn split_on(s: Seq<char>, pat: Seq<char>) -> Seq<Seq<char>>
    decreases s.len(),
{
    match find(s, pat) {
        Some(at) if pat.len() > 0 => {
            proof {
                lemma_find_from(s, pat, 0);
            }
            seq![s.take(at)] + split_on(s.skip(at + pat.len()), pat)
        },
        _ => seq![s],
    }
}

/// The pieces of `v` between the occurrences of `pat`.
pub fn split_str(v: &Vec<char>, pat: &str) -> (r: Vec<Vec<char>>)
    requires
        pat@.len() > 0,
    ensures
        r@.map_values(|w: Vec<char>| w@) == split_on(v@, pat@),
        r@.len() > 0,
{
    let width: usize = chars_of(pat).len();
    let mut out: Vec<Vec<char>> = Vec::new();
    let mut rest = slice(v, 0, v.len());
    assert(rest@ =~= v@);
    assert(out@.map_values(|w: Vec<char>| w@) + split_on(rest@, pat@) =~= split_on(v@, pat@));
    loop
        invariant
            width == pat@.len(),
            width > 0,
            out@.map_values(|w: Vec<char>| w@) + split_on(rest@, pat@) == split_on(v@, pat@),
        decreases rest.len(),
    {
        let ghost done = out@.map_values(|w: Vec<char>| w@);
        match find_str(&rest, pat) {
            None => {
                proof {
                    assert(out@.push(rest).map_values(|w: Vec<char>| w@) =~= done + seq![rest@]);
                }
                out.push(rest);
                return out;
            },
            Some(at) => {
                let head = slice(&rest, 0, at);
                let tail = slice(&rest, at + width, rest.len());
                proof {
                    assert(head@ =~= rest@.take(at as int));
                    assert(tail@ =~= rest@.skip(at + pat@.len()));
                    assert(out@.push(head).map_values(|w: Vec<char>| w@) =~= done.push(head@));
                    assert(done + (seq![head@] + split_on(tail@, pat@)) =~= done.push(head@)
                        + split_on(tail@, pat@));
                }
                out.push(head);
                rest = tail;
            },
        }
    }
}

/// What precedes the first `pat` in `v`, or the whole of `v`.
pub fn cut_before(v: &Vec<char>, pat: &str) -> (r: Vec<char>)
    ensures
        r@ == before(v@, pat@),
{
    match find_str(v, pat) {
        Some(at) => {
            let cut = slice(v, 0, at);
            assert(cut@ =~= v@.take(at as int));
            cut
        },
        None => {
            let all = slice(v, 0, v.len());
            assert(all@ =~= v@);
            all
        },
    }
}

/// `a` and `b` hold the same characters.
pub fn same_text(a: &str, b: &str) -> (r: bool)
    ensures
        r == (a@ == b@),
{
    eq_str(&chars_of(a), b)
}

/// What an optional string says.
pub open spec fn option_text(o: Option<String>) -> Option<Seq<char>> {
    match o {
        Some(s) => Some(s@),
        None => None,
    }
}

/// `a` and `b`, one behind the other.
pub fn joined(a: &str, b: &str) -> (r: String)
    ensures
        r@ == a@ + b@,
{
    let mut v = chars_of(a);
    push_str(&mut v, b);
    text_of(&v)
}

/// Appends a copy of `s`.
pub fn push_copy(out: &mut Vec<String>, s: &str)
    ensures
        texts(final(out)@) == texts(old(out)@).push(s@),
{
    let ghost before = out@;
    let copy = s.to_owned();
    proof {
        assert(texts(before.push(copy)) =~= texts(before).push(s@));
    }
    out.push(copy);
}

/// Whether one of `v` is `s`.
pub fn holds_text(v: &Vec<String>, s: &str) -> (r: bool)
    ensures
        r == texts(v@).contains(s@),
{
    let mut i: usize = 0;
    while i < v.len()
        invariant
            i <= v.len(),
            forall|k: int| 0 <= k < i ==> v@[k]@ != s@,
        decreases v.len() - i,
    {
        if same_text(v[i].as_str(), s) {
            proof {
                assert(texts(v@)[i as int] == s@);
            }
            return true;
        }
        i += 1;
    }
    false
}

} // verus!
