//! The bounded subset of Tailwind utilities: sizes read out of class lists, and
//! the CSS declarations that classes stand for.
use crate::diagnostic::{diag, diagnosed, Diagnostic, DiagnosticView};
use crate::double::{
    bounded_number, denotes, in_bounds, is_quadruple, lemma_denotes_unique, quadruple, Double,
};
use crate::float::{at_most, f_at_most};
use crate::text::{
    after, before, chars_of, contains_word, ends_with, ends_with_str, eq_str, find, find_str,
    first_suffix, has_word, is_white, is_white_char, join, join_words, lemma_same_words,
    lemma_trim_start, lemma_word_len, occurs_at, push_all, push_str, rfind, rfind_str, slice,
    split_words, starts_with, starts_with_str, text_of, trim_start, word_len, word_suffix, words,
};
use vstd::prelude::*;

verus! {

/// The bits of 96, the largest spacing step.
pub const MAX_SPACING: u64 = 0x4058_0000_0000_0000;

/// The bits of 4096, the largest arbitrary pixel size of a source file.
pub const MAX_SOURCE_PX: u64 = 0x40b0_0000_0000_0000;

/// The bits of 1 000 000, the largest arbitrary pixel size of a fragment.
pub const MAX_FRAGMENT_PX: u64 = 0x412e_8480_0000_0000;

/// `y` is the pixel size of the spacing step that `n` writes: four times as much.
pub open spec fn is_spacing_px(n: Seq<char>, y: Double) -> bool {
    exists|x: Double|
        #[trigger] denotes(n, x) && (Double { bits: 0 }).key() <= x.key() <= (Double { bits: MAX_SPACING }).key() && is_quadruple(x, y)
}

/// What is returned for the spacing step `n`: its pixels, or the error where it
/// is absent or no spacing step.
pub open spec fn spacing_result(
    n: Option<Seq<char>>,
    error: DiagnosticView,
    r: Result<Double, Diagnostic>,
) -> bool {
    match n {
        Some(t) => if in_bounds(t, (Double { bits: 0 }), (Double { bits: MAX_SPACING })) {
            r matches Ok(y) && is_spacing_px(t, y)
        } else {
            r matches Err(d) && d@ == error
        },
        None => r matches Err(d) && d@ == error,
    }
}

/// The pixels of the spacing step `n`.
fn spacing_px(n: &str) -> (r: Option<Double>)
    ensures
        match r {
            Some(y) => in_bounds(n@, (Double { bits: 0 }), (Double { bits: MAX_SPACING })) && is_spacing_px(n@, y),
            None => !in_bounds(n@, (Double { bits: 0 }), (Double { bits: MAX_SPACING })),
        },
{
    match bounded_number(n, (Double { bits: 0 }), (Double { bits: MAX_SPACING })) {
        None => None,
        Some(x) => {
            let y = quadruple(x);
            Some(y)
        },
    }
}

/// The spacing behind `prefix` in the first class that starts with it.
pub fn class_px(classes: &str, prefix: &str) -> (r: Result<Double, Diagnostic>)
    ensures
        spacing_result(
            first_suffix(words(classes@), prefix@),
            diagnosed("TAILWIND_UNSUPPORTED"@, "numeric spacing class is required"@, prefix@),
            r,
        ),
{
    let parts = split_words(&chars_of(classes));
    proof {
        lemma_same_words(parts@, words(classes@));
    }
    match word_suffix(&parts, prefix) {
        Some(n) => {
            let text = text_of(&n);
            match spacing_px(text.as_str()) {
                Some(y) => Ok(y),
                None => Err(
                    diag("TAILWIND_UNSUPPORTED", "numeric spacing class is required", prefix),
                ),
            }
        },
        None => Err(diag("TAILWIND_UNSUPPORTED", "numeric spacing class is required", prefix)),
    }
}

/// What follows the last `pat` in the first word that holds it.
pub open spec fn first_after_last(ws: Seq<Seq<char>>, pat: Seq<char>) -> Option<Seq<char>>
    decreases ws.len(),
{
    if ws.len() == 0 {
        None
    } else {
        match rfind(ws[0], pat) {
            Some(at) => Some(ws[0].skip(at + pat.len())),
            None => first_after_last(ws.skip(1), pat),
        }
    }
}

/// The size that a class list gives to descendants, as in `[&_svg]:size-4`.
pub fn descendant_size_px(classes: &str) -> (r: Result<Double, Diagnostic>)
    ensures
        spacing_result(
            first_after_last(words(classes@), ":size-"@),
            diagnosed(
                "TAILWIND_UNSUPPORTED"@,
                "descendant SVG size class is required"@,
                "[&_svg]:size-"@,
            ),
            r,
        ),
{
    let parts = split_words(&chars_of(classes));
    let ghost ws = words(classes@);
    let mut i: usize = 0;
    assert(ws.skip(0) =~= ws);
    proof {
        reveal_strlit(":size-");
    }
    while i < parts.len()
        invariant
            i <= parts.len(),
            parts@.len() == ws.len(),
            ws == words(classes@),
            ":size-"@.len() == 6,
            forall|k: int| 0 <= k < parts@.len() ==> (#[trigger] parts@[k])@ == ws[k],
            first_after_last(ws, ":size-"@) == first_after_last(ws.skip(i as int), ":size-"@),
        decreases parts.len() - i,
    {
        assert(ws.skip(i as int)[0] == parts@[i as int]@);
        assert(ws.skip(i as int).skip(1) =~= ws.skip(i + 1));
        match rfind_str(&parts[i], ":size-") {
            Some(at) => {
                let n = slice(&parts[i], at + 6, parts[i].len());
                assert(n@ =~= parts@[i as int]@.skip(at + 6));
                let text = text_of(&n);
                return match spacing_px(text.as_str()) {
                    Some(y) => Ok(y),
                    None => Err(
                        diag(
                            "TAILWIND_UNSUPPORTED",
                            "descendant SVG size class is required",
                            "[&_svg]:size-",
                        ),
                    ),
                };
            },
            None => {},
        }
        i += 1;
    }
    Err(
        diag("TAILWIND_UNSUPPORTED", "descendant SVG size class is required", "[&_svg]:size-"),
    )
}

/// The spacing step of a utility in a grid or a card.
pub fn tailwind_space(token: &str) -> (r: Result<Double, Diagnostic>)
    ensures
        spacing_result(
            Some(token@),
            diagnosed(
                "TAILWIND_UNSUPPORTED"@,
                "gap must be a bounded numeric Tailwind spacing token"@,
                token@,
            ),
            r,
        ),
{
    match spacing_px(token) {
        Some(y) => Ok(y),
        None => Err(
            diag(
                "TAILWIND_UNSUPPORTED",
                "gap must be a bounded numeric Tailwind spacing token",
                token,
            ),
        ),
    }
}

/// The pixel size behind `marker`: what stands in front of the next `px]`.
pub fn arbitrary_px(source: &str, marker: &str) -> (r: Result<Double, Diagnostic>)
    ensures
        match after(source@, marker@) {
            None => r matches Err(d) && d@ == diagnosed(
                "TAILWIND_UNSUPPORTED"@,
                "arbitrary pixel class is missing"@,
                marker@,
            ),
            Some(rest) => if in_bounds(before(rest, "px]"@), (Double { bits: 0 }), (Double { bits: MAX_SOURCE_PX })) {
                r matches Ok(x) && denotes(before(rest, "px]"@), x)
            } else {
                r matches Err(d) && d@ == diagnosed(
                    "TAILWIND_UNSUPPORTED"@,
                    "arbitrary size must use px"@,
                    marker@,
                )
            },
        },
{
    let all = chars_of(source);
    match find_str(&all, marker) {
        None => Err(diag("TAILWIND_UNSUPPORTED", "arbitrary pixel class is missing", marker)),
        Some(at) => {
            let start: usize = at + chars_of(marker).len();
            let rest = slice(&all, start, all.len());
            assert(rest@ =~= all@.skip(start as int));
            let size = match find_str(&rest, "px]") {
                Some(end) => {
                    let cut = slice(&rest, 0, end);
                    assert(cut@ =~= rest@.take(end as int));
                    cut
                },
                None => rest,
            };
            let text = text_of(&size);
            match bounded_number(text.as_str(), (Double { bits: 0 }), (Double { bits: MAX_SOURCE_PX })) {
                Some(x) => Ok(x),
                None => Err(diag("TAILWIND_UNSUPPORTED", "arbitrary size must use px", marker)),
            }
        },
    }
}

/// The radius, in pixels, of the first of `rounded-lg`, `rounded-xl` and
/// `rounded-2xl` that the class list holds.
pub open spec fn radius_result(classes: Seq<char>) -> Result<u32, DiagnosticView> {
    let ws = words(classes);
    if has_word(ws, "rounded-lg"@) {
        Ok(8)
    } else if has_word(ws, "rounded-xl"@) {
        Ok(12)
    } else if has_word(ws, "rounded-2xl"@) {
        Ok(16)
    } else {
        Err(diagnosed("TAILWIND_UNSUPPORTED"@, "bounded card radius is required"@, classes))
    }
}

/// What a reader of a pixel count returned.
pub open spec fn pixel_result(r: Result<u32, Diagnostic>) -> Result<u32, DiagnosticView> {
    match r {
        Ok(n) => Ok(n),
        Err(d) => Err(d@),
    }
}

pub fn radius_px(classes: &str) -> (r: Result<u32, Diagnostic>)
    ensures
        pixel_result(r) == radius_result(classes@),
{
    let list = chars_of(classes);
    if contains_word(&list, "rounded-lg") {
        Ok(8)
    } else if contains_word(&list, "rounded-xl") {
        Ok(12)
    } else if contains_word(&list, "rounded-2xl") {
        Ok(16)
    } else {
        Err(diag("TAILWIND_UNSUPPORTED", "bounded card radius is required", classes))
    }
}

/// A length that depends on the width of the viewport: the rules are ordered by
/// the least width from which they apply.
#[derive(Debug)]
pub struct ResponsivePx {
    pub base: Double,
    pub variants: Vec<(Double, Double)>,
}

/// The value of the last rule whose width is at most `width`, or `base`.
pub open spec fn resolved(variants: Seq<(Double, Double)>, base: Double, width: Double) -> Double
    decreases variants.len(),
{
    if variants.len() == 0 {
        base
    } else if f_at_most(variants.last().0, width) {
        variants.last().1
    } else {
        resolved(variants.drop_last(), base, width)
    }
}

impl ResponsivePx {
    pub fn resolve(&self, viewport_width: Double) -> (r: Double)
        ensures
            r == resolved(self.variants@, self.base, viewport_width),
    {
        let mut n: usize = self.variants.len();
        assert(self.variants@.take(n as int) =~= self.variants@);
        while n > 0
            invariant
                n <= self.variants.len(),
                resolved(self.variants@, self.base, viewport_width) == resolved(
                    self.variants@.take(n as int),
                    self.base,
                    viewport_width,
                ),
            decreases n,
        {
            let ghost here = self.variants@.take(n as int);
            assert(here.last() == self.variants@[n - 1]);
            assert(here.drop_last() =~= self.variants@.take(n - 1));
            if at_most(self.variants[n - 1].0, viewport_width) {
                return self.variants[n - 1].1;
            }
            n -= 1;
        }
        self.base
    }
}

/// The least viewport width of a Tailwind breakpoint, in the order of the widths.
pub open spec fn breakpoint_width(k: int) -> Double {
    if k == 0 {
        Double { bits: 0x4084_0000_0000_0000 }
    } else if k == 1 {
        Double { bits: 0x4088_0000_0000_0000 }
    } else if k == 2 {
        Double { bits: 0x4090_0000_0000_0000 }
    } else if k == 3 {
        Double { bits: 0x4094_0000_0000_0000 }
    } else {
        Double { bits: 0x4098_0000_0000_0000 }
    }
}

/// The name of a Tailwind breakpoint.
pub open spec fn breakpoint_name(k: int) -> Seq<char> {
    if k == 0 {
        "sm"@
    } else if k == 1 {
        "md"@
    } else if k == 2 {
        "lg"@
    } else if k == 3 {
        "xl"@
    } else {
        "2xl"@
    }
}

/// The horizontal padding step that the class `w` sets from the breakpoint named
/// `name` on, as in `md:px-10`.
pub open spec fn padding_step(w: Seq<char>, name: Seq<char>) -> Option<Seq<char>> {
    match find(w, ":"@) {
        Some(at) if w.take(at) == name && starts_with(w.skip(at + 1), "px-"@) && in_bounds(
            w.skip(at + 1).skip(3),
            (Double { bits: 0 }),
            (Double { bits: MAX_SPACING }),
        ) => Some(w.skip(at + 1).skip(3)),
        _ => None,
    }
}

/// The padding steps that `ws` set from a breakpoint on, in order.
pub open spec fn padding_steps(ws: Seq<Seq<char>>, name: Seq<char>) -> Seq<Seq<char>>
    decreases ws.len(),
{
    if ws.len() == 0 {
        Seq::empty()
    } else {
        match padding_step(ws.last(), name) {
            Some(n) => padding_steps(ws.drop_last(), name).push(n),
            None => padding_steps(ws.drop_last(), name),
        }
    }
}

/// The rules of the first `k` breakpoints: for each breakpoint in turn, those of
/// its classes in their order.
pub open spec fn rules_up_to(ws: Seq<Seq<char>>, k: int) -> Seq<(Double, Seq<char>)>
    decreases k,
{
    if k <= 0 {
        Seq::empty()
    } else {
        rules_up_to(ws, k - 1) + padding_steps(ws, breakpoint_name(k - 1)).map_values(
            |n: Seq<char>| (breakpoint_width(k - 1), n),
        )
    }
}

/// The rules `out` are `rules`, with the steps in pixels.
pub open spec fn rules_in_px(out: Seq<(Double, Double)>, rules: Seq<(Double, Seq<char>)>) -> bool {
    &&& out.len() == rules.len()
    &&& forall|i: int|
        0 <= i < out.len() ==> (#[trigger] out[i]).0 == rules[i].0 && is_spacing_px(
            rules[i].1,
            out[i].1,
        )
}

fn breakpoint(k: usize) -> (r: (&'static str, Double))
    requires
        k < 5,
    ensures
        r.0@ == breakpoint_name(k as int),
        r.1 == breakpoint_width(k as int),
{
    if k == 0 {
        ("sm", Double { bits: 0x4084_0000_0000_0000 })
    } else if k == 1 {
        ("md", Double { bits: 0x4088_0000_0000_0000 })
    } else if k == 2 {
        ("lg", Double { bits: 0x4090_0000_0000_0000 })
    } else if k == 3 {
        ("xl", Double { bits: 0x4094_0000_0000_0000 })
    } else {
        ("2xl", Double { bits: 0x4098_0000_0000_0000 })
    }
}

fn padding_px(class: &Vec<char>, name: &str) -> (r: Option<Double>)
    ensures
        match r {
            Some(y) => padding_step(class@, name@) matches Some(n) && is_spacing_px(n, y),
            None => padding_step(class@, name@) is None,
        },
{
    proof {
        reveal_strlit(":");
        reveal_strlit("px-");
    }
    match find_str(class, ":") {
        None => None,
        Some(at) => {
            let prefix = slice(class, 0, at);
            assert(prefix@ =~= class@.take(at as int));
            let utility = slice(class, at + 1, class.len());
            assert(utility@ =~= class@.skip(at + 1));
            if !eq_str(&prefix, name) || !starts_with_str(&utility, "px-") {
                return None;
            }
            let n = slice(&utility, 3, utility.len());
            assert(n@ =~= utility@.skip(3));
            let text = text_of(&n);
            spacing_px(text.as_str())
        },
    }
}

/// The responsive horizontal padding of a class list.
pub fn responsive_px_rules(classes: &str, base: Double) -> (r: ResponsivePx)
    ensures
        r.base == base,
        rules_in_px(r.variants@, rules_up_to(words(classes@), 5)),
{
    let parts = split_words(&chars_of(classes));
    let ghost ws = words(classes@);
    let mut variants: Vec<(Double, Double)> = Vec::new();
    let mut k: usize = 0;
    while k < 5
        invariant
            k <= 5,
            ws == words(classes@),
            parts@.len() == ws.len(),
            forall|i: int| 0 <= i < parts@.len() ==> (#[trigger] parts@[i])@ == ws[i],
            rules_in_px(variants@, rules_up_to(ws, k as int)),
        decreases 5 - k,
    {
        let (name, width) = breakpoint(k);
        let ghost done = rules_up_to(ws, k as int);
        let ghost wide = |n: Seq<char>| (breakpoint_width(k as int), n);
        let mut i: usize = 0;
        assert(ws.take(0) =~= Seq::<Seq<char>>::empty());
        assert(done + padding_steps(ws.take(0), name@).map_values(wide) =~= done);
        while i < parts.len()
            invariant
                i <= parts.len(),
                k < 5,
                name@ == breakpoint_name(k as int),
                width == breakpoint_width(k as int),
                wide == (|n: Seq<char>| (breakpoint_width(k as int), n)),
                parts@.len() == ws.len(),
                forall|j: int| 0 <= j < parts@.len() ==> (#[trigger] parts@[j])@ == ws[j],
                rules_in_px(
                    variants@,
                    done + padding_steps(ws.take(i as int), name@).map_values(wide),
                ),
            decreases parts.len() - i,
        {
            let ghost before = padding_steps(ws.take(i as int), name@);
            proof {
                assert(ws.take(i + 1).drop_last() =~= ws.take(i as int));
                assert(ws.take(i + 1).last() == ws[i as int]);
                assert(parts@[i as int]@ == ws[i as int]);
            }
            match padding_px(&parts[i], name) {
                Some(y) => {
                    proof {
                        let n = padding_step(ws[i as int], name@)->0;
                        assert(before.push(n).map_values(wide) =~= before.map_values(wide).push(
                            (width, n),
                        ));
                        assert(done + before.push(n).map_values(wide) =~= (done
                            + before.map_values(wide)).push((width, n)));
                    }
                    variants.push((width, y));
                },
                None => {},
            }
            i += 1;
        }
        proof {
            assert(ws.take(ws.len() as int) =~= ws);
            assert(rules_up_to(ws, k + 1) == done + padding_steps(
                ws,
                breakpoint_name(k as int),
            ).map_values(|n: Seq<char>| (breakpoint_width(k as int), n)));
        }
        k += 1;
    }
    ResponsivePx { base, variants }
}

/// A class list is read up to white space and quotes.
pub open spec fn separates(c: char) -> bool {
    is_white(c) || c == '"' || c == '\''
}

/// The classes of `s`: the pieces between separators, empty ones too.
pub open spec fn class_pieces(s: Seq<char>) -> Seq<Seq<char>>
    decreases s.len(),
{
    if s.len() == 0 {
        seq![Seq::empty()]
    } else {
        let front = class_pieces(s.drop_last());
        if separates(s.last()) {
            front.push(Seq::empty())
        } else {
            front.drop_last().push(front.last().push(s.last()))
        }
    }
}

/// `x` is the spacing step that the class `w` writes behind `prefix`.
pub open spec fn step_of(w: Seq<char>, prefix: Seq<char>, x: Double) -> bool {
    &&& starts_with(w, prefix)
    &&& denotes(w.skip(prefix.len() as int), x)
    &&& (Double { bits: 0 }).key() <= x.key() <= (Double { bits: MAX_SPACING }).key()
}

/// `x` is the largest of the spacing steps that the classes write behind `prefix`.
pub open spec fn largest_step(ws: Seq<Seq<char>>, prefix: Seq<char>, x: Double) -> bool {
    &&& exists|i: int| 0 <= i < ws.len() && step_of(#[trigger] ws[i], prefix, x)
    &&& forall|i: int, z: Double|
        #![trigger step_of(ws[i], prefix, z)]
        0 <= i < ws.len() && step_of(ws[i], prefix, z) ==> z.key() <= x.key()
}

/// The classes of `v`.
fn split_classes(v: &Vec<char>) -> (r: Vec<Vec<char>>)
    ensures
        r@.map_values(|w: Vec<char>| w@) == class_pieces(v@),
{
    let mut done: Vec<Vec<char>> = Vec::new();
    let mut piece: Vec<char> = Vec::new();
    let mut i: usize = 0;
    assert(v@.take(0) =~= Seq::<char>::empty());
    assert(done@.map_values(|w: Vec<char>| w@).push(piece@) =~= seq![Seq::<char>::empty()]);
    while i < v.len()
        invariant
            i <= v.len(),
            done@.map_values(|w: Vec<char>| w@).push(piece@) == class_pieces(v@.take(i as int)),
        decreases v.len() - i,
    {
        let c = v[i];
        let ghost ds = done@.map_values(|w: Vec<char>| w@);
        proof {
            assert(v@.take(i + 1).drop_last() =~= v@.take(i as int));
            assert(v@.take(i + 1).last() == c);
        }
        if is_white_char(c) || c == '"' || c == '\'' {
            let full = piece;
            proof {
                assert(done@.push(full).map_values(|w: Vec<char>| w@) =~= ds.push(full@));
            }
            done.push(full);
            piece = Vec::new();
        } else {
            proof {
                assert(ds.push(piece@).drop_last() =~= ds);
                assert(ds.push(piece@).last() == piece@);
            }
            piece.push(c);
        }
        i += 1;
    }
    assert(v@.take(v@.len() as int) =~= v@);
    assert(done@.push(piece).map_values(|w: Vec<char>| w@) =~= done@.map_values(
        |w: Vec<char>| w@,
    ).push(piece@));
    done.push(piece);
    done
}

/// The largest spacing behind `prefix` in the classes of a source text.
pub fn largest_space_class(source: &str, prefix: &str) -> (r: Result<Double, Diagnostic>)
    ensures
        match r {
            Ok(y) => exists|x: Double|
                #[trigger] largest_step(class_pieces(source@), prefix@, x) && is_quadruple(x, y),
            Err(d) => {
                &&& d@ == diagnosed(
                    "TAILWIND_UNSUPPORTED"@,
                    "required spacing class is missing"@,
                    prefix@,
                )
                &&& forall|i: int, z: Double|
                    #![trigger step_of(class_pieces(source@)[i], prefix@, z)]
                    0 <= i < class_pieces(source@).len() ==> !step_of(
                        class_pieces(source@)[i],
                        prefix@,
                        z,
                    )
            },
        },
{
    let parts = split_classes(&chars_of(source));
    let ghost ws = class_pieces(source@);
    let width: usize = chars_of(prefix).len();
    let mut best: Option<Double> = None;
    let mut i: usize = 0;
    while i < parts.len()
        invariant
            i <= parts.len(),
            width == prefix@.len(),
            ws == parts@.map_values(|w: Vec<char>| w@),
            match best {
                None => forall|k: int, z: Double|
                    #![trigger step_of(ws[k], prefix@, z)]
                    0 <= k < i ==> !step_of(ws[k], prefix@, z),
                Some(x) => {
                    &&& x.wf()
                    &&& x.key() <= (Double { bits: MAX_SPACING }).key()
                    &&& (Double { bits: 0 }).key() <= x.key()
                    &&& exists|k: int| 0 <= k < i && step_of(#[trigger] ws[k], prefix@, x)
                    &&& forall|k: int, z: Double|
                        #![trigger step_of(ws[k], prefix@, z)]
                        0 <= k < i && step_of(ws[k], prefix@, z) ==> z.key() <= x.key()
                },
            },
        decreases parts.len() - i,
    {
        assert(ws[i as int] == parts@[i as int]@);
        if starts_with_str(&parts[i], prefix) {
            let tail = slice(&parts[i], width, parts[i].len());
            assert(tail@ =~= ws[i as int].skip(width as int));
            let text = text_of(&tail);
            match bounded_number(text.as_str(), (Double { bits: 0 }), (Double { bits: MAX_SPACING })) {
                Some(x) => {
                    assert(step_of(ws[i as int], prefix@, x));
                    proof {
                        assert forall|z: Double| step_of(ws[i as int], prefix@, z) implies z == x by {
                            lemma_denotes_unique(tail@, x, z);
                        }
                    }
                    best = match best {
                        None => Some(x),
                        Some(b) => if x.at_most(b) {
                            Some(b)
                        } else {
                            Some(x)
                        },
                    };
                },
                None => {
                    proof {
                        assert forall|z: Double| !step_of(ws[i as int], prefix@, z) by {
                            if step_of(ws[i as int], prefix@, z) {
                                assert(denotes(tail@, z));
                            }
                        }
                    }
                },
            }
        }
        i += 1;
    }
    match best {
        None => Err(diag("TAILWIND_UNSUPPORTED", "required spacing class is missing", prefix)),
        Some(x) => {
            assert(largest_step(ws, prefix@, x));
            Ok(quadruple(x))
        },
    }
}

/// The declaration of a class with an arbitrary size, as in `w-[120px]`: a
/// number of pixels from 0 to 1 000 000.
pub open spec fn arbitrary_declaration(class: Seq<char>) -> Option<Seq<char>> {
    let wide = starts_with(class, "w-["@);
    let high = starts_with(class, "h-["@);
    let tail = class.skip(3);
    let value = tail.drop_last();
    if (wide || high) && ends_with(tail, "]"@) && ends_with(value, "px"@) && in_bounds(
        value.take(value.len() - 2),
        (Double { bits: 0 }),
        (Double { bits: MAX_FRAGMENT_PX }),
    ) {
        Some(
            (if wide {
                "width"@
            } else {
                "height"@
            }) + ":"@ + value,
        )
    } else {
        None
    }
}

fn arbitrary_size_of(class: &Vec<char>) -> (r: Option<Vec<char>>)
    ensures
        match r {
            Some(t) => arbitrary_declaration(class@) == Some(t@),
            None => arbitrary_declaration(class@) is None,
        },
{
    proof {
        reveal_strlit("w-[");
        reveal_strlit("h-[");
        reveal_strlit("]");
        reveal_strlit("px");
    }
    let wide = starts_with_str(class, "w-[");
    let high = starts_with_str(class, "h-[");
    if !wide && !high {
        return None;
    }
    let tail = slice(class, 3, class.len());
    assert(tail@ =~= class@.skip(3));
    if !ends_with_str(&tail, "]") {
        return None;
    }
    let value = slice(&tail, 0, tail.len() - 1);
    assert(value@ =~= tail@.drop_last());
    if !ends_with_str(&value, "px") {
        return None;
    }
    let number = slice(&value, 0, value.len() - 2);
    assert(number@ =~= value@.take(value@.len() - 2));
    let text = text_of(&number);
    match bounded_number(
        text.as_str(),
        (Double { bits: 0 }),
        (Double { bits: MAX_FRAGMENT_PX }),
    ) {
        None => None,
        Some(_) => {
            let mut out = chars_of(if wide {
                "width"
            } else {
                "height"
            });
            push_str(&mut out, ":");
            push_all(&mut out, &value);
            Some(out)
        },
    }
}

pub fn arbitrary_size(class: &str) -> (r: Option<String>)
    ensures
        match r {
            Some(t) => arbitrary_declaration(class@) == Some(t@),
            None => arbitrary_declaration(class@) is None,
        },
{
    match arbitrary_size_of(&chars_of(class)) {
        Some(out) => Some(text_of(&out)),
        None => None,
    }
}

/// The declaration that a named class stands for.
pub open spec fn named_declaration(class: Seq<char>) -> Option<Seq<char>> {
    if class == "w-full"@ {
        Some("width:100%"@)
    } else if class == "h-full"@ {
        Some("height:100%"@)
    } else if class == "rounded"@ {
        Some("border-radius:4px"@)
    } else if class == "rounded-md"@ {
        Some("border-radius:6px"@)
    } else if class == "rounded-lg"@ {
        Some("border-radius:8px"@)
    } else if class == "rounded-xl"@ {
        Some("border-radius:12px"@)
    } else if class == "rounded-full"@ {
        Some("border-radius:9999px"@)
    } else if class == "border"@ {
        Some("border:1px solid #000000"@)
    } else if class == "border-2"@ {
        Some("border:2px solid #000000"@)
    } else if class == "opacity-50"@ {
        Some("opacity:0.5"@)
    } else if class == "opacity-75"@ {
        Some("opacity:0.75"@)
    } else if class == "opacity-100"@ {
        Some("opacity:1"@)
    } else if class == "bg-white"@ {
        Some("background:#ffffff"@)
    } else if class == "bg-black"@ {
        Some("background:#000000"@)
    } else if class == "bg-slate-900"@ {
        Some("background:#0f172a"@)
    } else if class == "bg-slate-100"@ {
        Some("background:#f1f5f9"@)
    } else if class == "bg-blue-500"@ {
        Some("background:#3b82f6"@)
    } else if class == "bg-indigo-600"@ {
        Some("background:#4f46e5"@)
    } else if class == "bg-emerald-500"@ {
        Some("background:#10b981"@)
    } else if class == "bg-red-500"@ {
        Some("background:#ef4444"@)
    } else {
        None
    }
}

fn named_utility(class: &Vec<char>) -> (r: Option<&'static str>)
    ensures
        match r {
            Some(t) => named_declaration(class@) == Some(t@),
            None => named_declaration(class@) is None,
        },
{
    if eq_str(class, "w-full") {
        Some("width:100%")
    } else if eq_str(class, "h-full") {
        Some("height:100%")
    } else if eq_str(class, "rounded") {
        Some("border-radius:4px")
    } else if eq_str(class, "rounded-md") {
        Some("border-radius:6px")
    } else if eq_str(class, "rounded-lg") {
        Some("border-radius:8px")
    } else if eq_str(class, "rounded-xl") {
        Some("border-radius:12px")
    } else if eq_str(class, "rounded-full") {
        Some("border-radius:9999px")
    } else if eq_str(class, "border") {
        Some("border:1px solid #000000")
    } else if eq_str(class, "border-2") {
        Some("border:2px solid #000000")
    } else if eq_str(class, "opacity-50") {
        Some("opacity:0.5")
    } else if eq_str(class, "opacity-75") {
        Some("opacity:0.75")
    } else if eq_str(class, "opacity-100") {
        Some("opacity:1")
    } else if eq_str(class, "bg-white") {
        Some("background:#ffffff")
    } else if eq_str(class, "bg-black") {
        Some("background:#000000")
    } else if eq_str(class, "bg-slate-900") {
        Some("background:#0f172a")
    } else if eq_str(class, "bg-slate-100") {
        Some("background:#f1f5f9")
    } else if eq_str(class, "bg-blue-500") {
        Some("background:#3b82f6")
    } else if eq_str(class, "bg-indigo-600") {
        Some("background:#4f46e5")
    } else if eq_str(class, "bg-emerald-500") {
        Some("background:#10b981")
    } else if eq_str(class, "bg-red-500") {
        Some("background:#ef4444")
    } else {
        None
    }
}

/// The declaration that a class stands for.
pub open spec fn declaration(class: Seq<char>) -> Option<Seq<char>> {
    match named_declaration(class) {
        Some(d) => Some(d),
        None => arbitrary_declaration(class),
    }
}

/// The declarations of all classes, or the first class that has none.
pub open spec fn declarations(ws: Seq<Seq<char>>) -> Result<Seq<Seq<char>>, Seq<char>>
    decreases ws.len(),
{
    if ws.len() == 0 {
        Ok(Seq::empty())
    } else {
        match declarations(ws.drop_last()) {
            Err(w) => Err(w),
            Ok(ds) => match declaration(ws.last()) {
                None => Err(ws.last()),
                Some(d) => Ok(ds.push(d)),
            },
        }
    }
}

/// The declarations that every element has: the root fills its canvas, another
/// element fills its parent's width and is 40 pixels high.
pub open spec fn default_declarations(root: bool) -> Seq<Seq<char>> {
    seq![
        "width:100%"@,
        if root {
            "height:100%"@
        } else {
            "height:40px"@
        },
    ]
}

/// The style of an element with these classes.
pub open spec fn style_of(classes: Seq<char>, root: bool) -> Result<Seq<char>, DiagnosticView> {
    match declarations(words(classes)) {
        Ok(ds) => Ok(join(default_declarations(root) + ds, ";"@)),
        Err(class) => Err(
            diagnosed(
                "TAILWIND_UNSUPPORTED"@,
                "utility is outside the bounded Tailwind subset"@,
                class,
            ),
        ),
    }
}

/// What a converter returned: its text, or its one diagnostic.
pub open spec fn converted(r: Result<String, Vec<Diagnostic>>) -> Result<Seq<char>, DiagnosticView> {
    match r {
        Ok(s) => Ok(s@),
        Err(ds) => Err(ds@[0]@),
    }
}

/// An error holds one diagnostic.
pub open spec fn one_error(r: Result<String, Vec<Diagnostic>>) -> bool {
    r matches Err(ds) ==> ds@.len() == 1
}

proof fn lemma_declarations_take(ws: Seq<Seq<char>>, i: int)
    requires
        0 <= i <= ws.len(),
        declarations(ws.take(i)) is Err,
    ensures
        declarations(ws) == declarations(ws.take(i)),
    decreases ws.len() - i,
{
    if i == ws.len() {
        assert(ws.take(i) =~= ws);
    } else {
        assert(ws.take(i + 1).drop_last() =~= ws.take(i));
        lemma_declarations_take(ws, i + 1);
    }
}

/// The style of an element with these classes.
pub fn tailwind(classes: &str, root: bool) -> (r: Result<String, Vec<Diagnostic>>)
    ensures
        one_error(r),
        converted(r) == style_of(classes@, root),
{
    let mut out: Vec<Vec<char>> = Vec::new();
    out.push(chars_of("width:100%"));
    out.push(
        chars_of(
            if root {
                "height:100%"
            } else {
                "height:40px"
            },
        ),
    );
    let parts = split_words(&chars_of(classes));
    let ghost ws = words(classes@);
    let ghost base = default_declarations(root);
    let mut i: usize = 0;
    assert(ws.take(0) =~= Seq::<Seq<char>>::empty());
    assert(out@.map_values(|w: Vec<char>| w@) =~= base + Seq::<Seq<char>>::empty());
    while i < parts.len()
        invariant
            i <= parts.len(),
            ws == words(classes@),
            parts@.len() == ws.len(),
            forall|k: int| 0 <= k < parts@.len() ==> (#[trigger] parts@[k])@ == ws[k],
            base == default_declarations(root),
            declarations(ws.take(i as int)) matches Ok(ds) && out@.map_values(
                |w: Vec<char>| w@,
            ) == base + ds,
        decreases parts.len() - i,
    {
        let ghost ds = declarations(ws.take(i as int))->Ok_0;
        proof {
            assert(ws.take(i + 1).drop_last() =~= ws.take(i as int));
            assert(ws.take(i + 1).last() == ws[i as int]);
            assert(parts@[i as int]@ == ws[i as int]);
        }
        let mapped = match named_utility(&parts[i]) {
            Some(text) => Some(chars_of(text)),
            None => arbitrary_size_of(&parts[i]),
        };
        match mapped {
            Some(d) => {
                proof {
                    assert(out@.push(d).map_values(|w: Vec<char>| w@) =~= (base + ds).push(d@));
                    assert((base + ds).push(d@) =~= base + ds.push(d@));
                }
                out.push(d);
            },
            None => {
                proof {
                    lemma_declarations_take(ws, i + 1);
                }
                let class = text_of(&parts[i]);
                return Err(
                    vec![
                        diag(
                            "TAILWIND_UNSUPPORTED",
                            "utility is outside the bounded Tailwind subset",
                            class.as_str(),
                        ),
                    ],
                );
            },
        }
        i += 1;
    }
    assert(ws.take(ws.len() as int) =~= ws);
    Ok(text_of(&join_words(&out, ";")))
}

/// White space in front of a text holds no word.
proof fn lemma_words_behind_space(w: char, s: Seq<char>)
    requires
        is_white(w),
    ensures
        words(seq![w] + s) == words(s),
{
    let t = seq![w] + s;
    assert(t.skip(1) =~= s);
    assert(trim_start(t) == trim_start(s));
    lemma_trim_start(s);
    if trim_start(s).len() == 0 {
        assert(words(t) =~= words(s));
    }
}

/// The words of two texts with white space between them are those of each.
proof fn lemma_words_joined(a: Seq<char>, w: char, b: Seq<char>)
    requires
        is_white(w),
    ensures
        words(a + seq![w] + b) == words(a) + words(b),
    decreases a.len(),
{
    let all = a + seq![w] + b;
    if a.len() == 0 {
        assert(all =~= seq![w] + b);
        lemma_words_behind_space(w, b);
        assert(words(a) =~= Seq::<Seq<char>>::empty());
        assert(words(a) + words(b) =~= words(b));
    } else if is_white(a[0]) {
        let r = a.skip(1);
        assert(a =~= seq![a[0]] + r);
        assert(all =~= seq![a[0]] + (r + seq![w] + b));
        lemma_words_behind_space(a[0], r);
        lemma_words_behind_space(a[0], r + seq![w] + b);
        lemma_words_joined(r, w, b);
    } else {
        lemma_word_len(a);
        let n = word_len(a) as int;
        lemma_word_len_behind(a, seq![w] + b);
        assert(all =~= a + (seq![w] + b));
        assert(trim_start(a) == a);
        assert(all[0] == a[0]);
        assert(trim_start(all) == all);
        lemma_words_joined(a.skip(n), w, b);
        assert(all.take(n) =~= a.take(n));
        assert(all.skip(n) =~= a.skip(n) + seq![w] + b);
        assert(words(all) == seq![all.take(n)] + words(all.skip(n)));
        assert(words(a) == seq![a.take(n)] + words(a.skip(n)));
        assert(words(all) =~= words(a) + words(b));
    }
}

/// A word ends where it ends in front of white space.
proof fn lemma_word_len_behind(a: Seq<char>, t: Seq<char>)
    requires
        t.len() > 0,
        is_white(t[0]),
    ensures
        word_len(a + t) == word_len(a),
    decreases a.len(),
{
    let all = a + t;
    if a.len() == 0 {
        assert(all =~= t);
    } else {
        assert(all[0] == a[0]);
        if !is_white(a[0]) {
            lemma_word_len_behind(a.skip(1), t);
            assert(all.skip(1) =~= a.skip(1) + t);
        }
    }
}

proof fn lemma_declarations_joined(x: Seq<Seq<char>>, y: Seq<Seq<char>>)
    ensures
        declarations(x + y) == (match declarations(x) {
            Err(w) => Err(w),
            Ok(dx) => match declarations(y) {
                Err(w) => Err(w),
                Ok(dy) => Ok(dx + dy),
            },
        }),
    decreases y.len(),
{
    let all = x + y;
    if y.len() == 0 {
        assert(all =~= x);
        if let Ok(dx) = declarations(x) {
            assert(dx + Seq::<Seq<char>>::empty() =~= dx);
        }
    } else {
        assert(all.drop_last() =~= x + y.drop_last());
        assert(all.last() == y.last());
        lemma_declarations_joined(x, y.drop_last());
        if let Ok(dx) = declarations(x) {
            if let Ok(dy) = declarations(y.drop_last()) {
                if let Some(d) = declaration(y.last()) {
                    assert((dx + dy).push(d) =~= dx + dy.push(d));
                }
            }
        }
    }
}

/// Each of the parts behind a separator.
spec fn appended(parts: Seq<Seq<char>>, sep: Seq<char>) -> Seq<char>
    decreases parts.len(),
{
    if parts.len() == 0 {
        Seq::empty()
    } else {
        appended(parts.drop_last(), sep) + sep + parts.last()
    }
}

proof fn lemma_join_appended(x: Seq<Seq<char>>, y: Seq<Seq<char>>, sep: Seq<char>)
    requires
        x.len() > 0,
    ensures
        join(x + y, sep) == join(x, sep) + appended(y, sep),
    decreases y.len(),
{
    let all = x + y;
    if y.len() == 0 {
        assert(all =~= x);
        assert(join(x, sep) + appended(y, sep) =~= join(x, sep));
    } else {
        assert(all.drop_last() =~= x + y.drop_last());
        assert(all.last() == y.last());
        lemma_join_appended(x, y.drop_last(), sep);
        assert(join(all, sep) =~= join(x, sep) + appended(y, sep));
    }
}

/// The style of two lists of classes with white space between them is the style of the
/// first and what the second adds to the declarations that every element has. Where a
/// list holds a class that is not known, the first such class is the error.
pub proof fn law_joined_classes(a: Seq<char>, w: char, b: Seq<char>, root: bool)
    requires
        is_white(w),
    ensures
        ({
            let base = join(default_declarations(root), ";"@);
            match (style_of(a, root), style_of(b, root)) {
                (Err(e), _) => style_of(a + seq![w] + b, root) == Err::<Seq<char>, _>(e),
                (Ok(_), Err(e)) => style_of(a + seq![w] + b, root) == Err::<Seq<char>, _>(e),
                (Ok(x), Ok(y)) => {
                    &&& base.is_prefix_of(y)
                    &&& style_of(a + seq![w] + b, root) == Ok::<_, DiagnosticView>(
                        x + y.skip(base.len() as int),
                    )
                },
            }
        }),
{
    lemma_words_joined(a, w, b);
    lemma_declarations_joined(words(a), words(b));
    let first = default_declarations(root);
    let base = join(first, ";"@);
    if let Ok(dx) = declarations(words(a)) {
        if let Ok(dy) = declarations(words(b)) {
            lemma_join_appended(first, dy, ";"@);
            lemma_join_appended(first + dx, dy, ";"@);
            assert(first + dx + dy =~= first + (dx + dy));
            let y = join(first + dy, ";"@);
            assert(y.skip(base.len() as int) =~= appended(dy, ";"@));
        }
    }
}


/// A width that a class writes becomes a width, and a height a height, of just what stands
/// between the brackets.
pub proof fn law_written_sizes_keep_their_axis(class: Seq<char>)
    ensures
        arbitrary_declaration(class) matches Some(d) ==> exists|v: Seq<char>| {
            ||| class == #[trigger] ("w-["@ + v + "]"@) && d == "width"@ + ":"@ + v
            ||| class == ("h-["@ + v + "]"@) && d == "height"@ + ":"@ + v
        },
{
    if arbitrary_declaration(class) is Some {
        reveal_strlit("w-[");
        reveal_strlit("h-[");
        reveal_strlit("]");
        assert("w-["@.len() == 3 && "h-["@.len() == 3 && "]"@.len() == 1);
        let tail = class.skip(3);
        let v = tail.drop_last();
        assert(occurs_at(tail, "]"@, tail.len() - 1));
        if starts_with(class, "w-["@) {
            assert(class.subrange(0, 3) == "w-["@);
            assert(class =~= "w-["@ + v + "]"@);
        } else {
            assert(class.subrange(0, 3) == "h-["@);
            assert(class =~= "h-["@ + v + "]"@);
            let w = "w-["@ + v + "]"@;
            let d = arbitrary_declaration(class)->0;
            assert(d == "height"@ + ":"@ + v);
        }
    }
}

/// Of the sizes for wider and wider pages, the last one that the page is wide enough for
/// counts; where it is wide enough for none, the plain size does.
pub proof fn law_last_size_that_applies_counts(
    variants: Seq<(Double, Double)>,
    base: Double,
    width: Double,
    i: int,
)
    requires
        -1 <= i < variants.len(),
        i >= 0 ==> f_at_most(variants[i].0, width),
        forall|k: int| i < k < variants.len() ==> !f_at_most((#[trigger] variants[k]).0, width),
    ensures
        i >= 0 ==> resolved(variants, base, width) == variants[i].1,
        i == -1 ==> resolved(variants, base, width) == base,
    decreases variants.len(),
{
    if variants.len() > 0 && i < variants.len() - 1 {
        let less = variants.drop_last();
        assert(!f_at_most(variants[variants.len() - 1].0, width));
        assert forall|k: int| i < k < less.len() implies !f_at_most(
            (#[trigger] less[k]).0,
            width,
        ) by {
            assert(less[k] == variants[k]);
        }
        law_last_size_that_applies_counts(less, base, width, i);
    }
}


/// The named widths of pages grow in the order of their names.
pub proof fn law_named_widths_grow(k: int)
    requires
        0 <= k < 4,
    ensures
        breakpoint_width(k).key() < breakpoint_width(k + 1).key(),
{
}

} // verus!
