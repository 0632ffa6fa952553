//! A static JSX fragment of layout elements becomes one CSS rule per element.
use crate::diagnostic::{diag, diagnosed, Diagnostic, DiagnosticView};
use crate::literals::{attr, attribute_value, trim_end_char, trimmed_end_char};
use crate::tailwind::{converted, one_error, style_of, tailwind};
use crate::text::{
    chars_of, contains, contains_str, decimal_text, eq_str, find_from, find_str_from,
    is_white_char, join, join_words, lemma_find_from, number_text, push_all, push_str, slice,
    text_of, trim, trimmed, word_len,
};
use vstd::prelude::*;
use vstd::string::*;

verus! {

/// The most bytes that a fragment may have.
pub const MAX_JSX_BYTES: usize = 262_144;

/// The most elements that a fragment may have.
pub const MAX_ELEMENTS: usize = 512;

/// The most elements that may be open at once.
pub const MAX_NESTING: usize = 32;

/// The intrinsic elements that a fragment may be made of.
pub open spec fn is_layout_element(tag: Seq<char>) -> bool {
    ||| tag == "div"@
    ||| tag == "section"@
    ||| tag == "main"@
    ||| tag == "article"@
    ||| tag == "header"@
    ||| tag == "footer"@
    ||| tag == "button"@
    ||| tag == "span"@
    ||| tag == "p"@
    ||| tag == "h1"@
    ||| tag == "h2"@
    ||| tag == "h3"@
}

fn layout_element(tag: &Vec<char>) -> (r: bool)
    ensures
        r == is_layout_element(tag@),
{
    eq_str(tag, "div") || eq_str(tag, "section") || eq_str(tag, "main") || eq_str(tag, "article")
        || eq_str(tag, "header") || eq_str(tag, "footer") || eq_str(tag, "button") || eq_str(
        tag,
        "span",
    ) || eq_str(tag, "p") || eq_str(tag, "h1") || eq_str(tag, "h2") || eq_str(tag, "h3")
}

/// What has been read of a fragment: the open elements with their tags and
/// selectors, the rules so far, and the number of elements.
#[verifier::ext_equal]
pub struct TreeView {
    pub stack: Seq<(Seq<char>, Seq<char>)>,
    pub rules: Seq<Seq<char>>,
    pub elements: nat,
}

/// A tag without the slashes that close it.
pub open spec fn tag_body(token: Seq<char>) -> Seq<char> {
    trim(trim_end_char(token, '/'))
}

/// The name of a tag.
pub open spec fn tag_name(body: Seq<char>) -> Seq<char> {
    body.take(word_len(body) as int)
}

/// The class list of a tag.
pub open spec fn tag_classes(body: Seq<char>) -> Seq<char> {
    match attribute_value(body, "className"@) {
        Some(c) => c,
        None => match attribute_value(body, "class"@) {
            Some(c) => c,
            None => Seq::empty(),
        },
    }
}

/// The selector of a further element: a child of the innermost open one, or the
/// component itself.
pub open spec fn selector_of(tree: TreeView) -> Seq<char> {
    if tree.stack.len() > 0 {
        tree.stack.last().1 + " > .node-"@ + decimal_text(tree.elements + 1)
    } else {
        ".component"@
    }
}

/// What an opening tag does.
pub open spec fn open_tag(token: Seq<char>, tree: TreeView) -> Result<TreeView, DiagnosticView> {
    let body = tag_body(token);
    let tag = tag_name(body);
    let closed = token.len() > 0 && token.last() == '/';
    if !is_layout_element(tag) {
        Err(
            diagnosed(
                "JSX_UNSUPPORTED_ELEMENT"@,
                "only intrinsic layout elements are supported"@,
                tag,
            ),
        )
    } else if tree.elements + 1 > MAX_ELEMENTS {
        Err(diagnosed("JSX_LIMIT"@, "component contains more than 512 elements"@, tag))
    } else if tree.stack.len() >= MAX_NESTING {
        Err(diagnosed("JSX_LIMIT"@, "component nesting exceeds 32 levels"@, tag))
    } else if tree.stack.len() == 0 && tree.elements > 0 {
        Err(
            diagnosed(
                "JSX_MULTIPLE_ROOTS"@,
                "JSX fragment must have exactly one root element"@,
                tag,
            ),
        )
    } else {
        match style_of(tag_classes(body), tree.elements == 0) {
            Err(d) => Err(d),
            Ok(style) => Ok(
                TreeView {
                    stack: if closed {
                        tree.stack
                    } else {
                        tree.stack.push((tag, selector_of(tree)))
                    },
                    rules: tree.rules.push(selector_of(tree) + " { "@ + style + " }"@),
                    elements: tree.elements + 1,
                },
            ),
        }
    }
}

/// What a closing tag does: it must name the innermost open element.
pub open spec fn close_tag(name: Seq<char>, tree: TreeView) -> Result<TreeView, DiagnosticView> {
    if tree.stack.len() > 0 && tree.stack.last().0 == name {
        Ok(TreeView { stack: tree.stack.drop_last(), rules: tree.rules, elements: tree.elements })
    } else {
        Err(diagnosed("JSX_MALFORMED"@, "closing tag does not match an open tag"@, name))
    }
}

/// What the tag with this text does. Comments and doctypes do nothing.
pub open spec fn read_tag(token: Seq<char>, tree: TreeView) -> Result<TreeView, DiagnosticView> {
    if token.len() > 0 && token[0] == '!' {
        Ok(tree)
    } else if token.len() > 0 && token[0] == '/' {
        close_tag(trim(token.skip(1)), tree)
    } else {
        open_tag(token, tree)
    }
}

/// The end of the text at `i`: the next `<`, or the end.
pub open spec fn text_end(s: Seq<char>, i: int) -> int {
    match find_from(s, "<"@, i) {
        Some(at) => at,
        None => s.len() as int,
    }
}

/// What is read of `s` from `i` on.
pub open spec fn read_tree(s: Seq<char>, i: int, tree: TreeView) -> Result<TreeView, DiagnosticView>
    decreases s.len() - i,
{
    if i < 0 || i >= s.len() {
        Ok(tree)
    } else if s[i] != '<' {
        let gap = trim(s.subrange(i, text_end(s, i)));
        if gap.len() > 0 {
            Err(
                diagnosed(
                    "JSX_TEXT_UNSUPPORTED"@,
                    "text children are not yet vectorizable; use editable text nodes separately"@,
                    gap,
                ),
            )
        } else {
            proof {
                lemma_text_end(s, i);
            }
            read_tree(s, text_end(s, i), tree)
        }
    } else {
        match find_from(s, ">"@, i) {
            None => Err(diagnosed("JSX_MALFORMED"@, "unterminated JSX tag"@, ""@)),
            Some(end) => match read_tag(trim(s.subrange(i + 1, end)), tree) {
                Err(d) => Err(d),
                Ok(next) => {
                    proof {
                        reveal_strlit(">");
                        lemma_find_from(s, ">"@, i);
                    }
                    read_tree(s, end + 1, next)
                },
            },
        }
    }
}

pub proof fn lemma_text_end(s: Seq<char>, i: int)
    requires
        0 <= i < s.len(),
        s[i] != '<',
    ensures
        i < text_end(s, i) <= s.len(),
        text_end(s, i) < s.len() ==> s[text_end(s, i)] == '<',
{
    reveal_strlit("<");
    lemma_find_from(s, "<"@, i);
    if let Some(at) = find_from(s, "<"@, i) {
        assert(s.subrange(at, at + 1)[0] == "<"@[0]);
        assert(s[at] == '<');
    }
}

/// A tree with nothing in it.
pub open spec fn empty_tree() -> TreeView {
    TreeView { stack: Seq::empty(), rules: Seq::empty(), elements: 0 }
}

/// The rules of a tree that has been read to its end.
pub open spec fn tree_rules(tree: TreeView) -> Result<Seq<char>, DiagnosticView> {
    if tree.stack.len() > 0 {
        Err(diagnosed("JSX_MALFORMED"@, "unclosed JSX tag"@, ""@))
    } else if tree.rules.len() == 0 {
        Err(diagnosed("JSX_EMPTY"@, "JSX contains no elements"@, ""@))
    } else {
        Ok(join(tree.rules, "\n"@))
    }
}

/// A fragment holds something that would have to be evaluated.
pub open spec fn is_dynamic(s: Seq<char>) -> bool {
    contains(s, "{"@) || contains(s, "}"@) || contains(s, "import "@) || contains(s, "export "@)
}

/// The CSS of a fragment, given how many bytes it has.
pub open spec fn css_of(s: Seq<char>, bytes: int) -> Result<Seq<char>, DiagnosticView> {
    if bytes > MAX_JSX_BYTES {
        Err(diagnosed("JSX_LIMIT"@, "JSX input exceeds 256 KiB"@, ""@))
    } else if is_dynamic(s) {
        Err(diagnosed("JSX_DYNAMIC"@, "only a static JSX fragment is supported"@, ""@))
    } else {
        match read_tree(s, 0, empty_tree()) {
            Err(d) => Err(d),
            Ok(tree) => tree_rules(tree),
        }
    }
}

/// The executable counterpart of `TreeView`.
struct Tree {
    stack: Vec<(Vec<char>, Vec<char>)>,
    rules: Vec<Vec<char>>,
    elements: usize,
}

impl View for Tree {
    type V = TreeView;

    closed spec fn view(&self) -> TreeView {
        TreeView {
            stack: self.stack@.map_values(|e: (Vec<char>, Vec<char>)| (e.0@, e.1@)),
            rules: self.rules@.map_values(|w: Vec<char>| w@),
            elements: self.elements as nat,
        }
    }
}

impl Tree {
    fn open(&mut self, token: &Vec<char>) -> (r: Result<(), Vec<Diagnostic>>)
        requires
            old(self).elements <= MAX_ELEMENTS,
        ensures
            match r {
                Ok(()) => open_tag(token@, old(self)@) == Ok::<TreeView, DiagnosticView>(
                    final(self)@,
                ) && final(self).elements <= MAX_ELEMENTS,
                Err(ds) => ds@.len() == 1 && open_tag(token@, old(self)@) == Err::<
                    TreeView,
                    DiagnosticView,
                >(ds@[0]@),
            },
    {
        let ghost before = self@;
        let closed = token.len() > 0 && token[token.len() - 1] == '/';
        let body = trimmed(&trimmed_end_char(token, '/'));
        let mut tag_end: usize = 0;
        assert(body@.skip(0) =~= body@);
        while tag_end < body.len() && !is_white_char(body[tag_end])
            invariant
                tag_end <= body.len(),
                word_len(body@) == tag_end + word_len(body@.skip(tag_end as int)),
            decreases body.len() - tag_end,
        {
            assert(body@.skip(tag_end as int).skip(1) =~= body@.skip(tag_end + 1));
            tag_end += 1;
        }
        let tag = slice(&body, 0, tag_end);
        assert(tag@ =~= tag_name(body@));
        let tag_text = text_of(&tag);
        if !layout_element(&tag) {
            return Err(
                vec![
                    diag(
                        "JSX_UNSUPPORTED_ELEMENT",
                        "only intrinsic layout elements are supported",
                        tag_text.as_str(),
                    ),
                ],
            );
        }
        let index: usize = self.elements + 1;
        if index > MAX_ELEMENTS {
            return Err(
                vec![
                    diag(
                        "JSX_LIMIT",
                        "component contains more than 512 elements",
                        tag_text.as_str(),
                    ),
                ],
            );
        }
        if self.stack.len() >= MAX_NESTING {
            return Err(
                vec![
                    diag("JSX_LIMIT", "component nesting exceeds 32 levels", tag_text.as_str()),
                ],
            );
        }
        let mut selector: Vec<char> = Vec::new();
        if self.stack.len() > 0 {
            let parent = &self.stack[self.stack.len() - 1].1;
            assert(before.stack.last().1 == parent@);
            push_all(&mut selector, parent);
            assert(selector@ =~= parent@);
            push_str(&mut selector, " > .node-");
            push_all(&mut selector, &number_text(index as u64));
        } else {
            if index != 1 {
                return Err(
                    vec![
                        diag(
                            "JSX_MULTIPLE_ROOTS",
                            "JSX fragment must have exactly one root element",
                            tag_text.as_str(),
                        ),
                    ],
                );
            }
            push_str(&mut selector, ".component");
            assert(selector@ =~= ".component"@);
        }
        assert(selector@ == selector_of(before));
        let body_text = text_of(&body);
        let classes = match attr(body_text.as_str(), "className") {
            Some(c) => c,
            None => match attr(body_text.as_str(), "class") {
                Some(c) => c,
                None => String::new(),
            },
        };
        assert(classes@ == tag_classes(body@));
        match tailwind(classes.as_str(), index == 1) {
            Err(ds) => Err(ds),
            Ok(style) => {
                let mut rule = slice(&selector, 0, selector.len());
                assert(rule@ =~= selector@);
                push_str(&mut rule, " { ");
                push_str(&mut rule, style.as_str());
                push_str(&mut rule, " }");
                self.rules.push(rule);
                self.elements = index;
                if !closed {
                    self.stack.push((tag, selector));
                }
                proof {
                    assert(self@.rules =~= before.rules.push(rule@));
                    if closed {
                        assert(self@.stack =~= before.stack);
                    } else {
                        assert(self@.stack =~= before.stack.push((tag@, selector@)));
                    }
                    assert(open_tag(token@, before)->Ok_0 =~= self@);
                }
                Ok(())
            },
        }
    }

    fn close(&mut self, name: &Vec<char>) -> (r: Result<(), Vec<Diagnostic>>)
        requires
            old(self).elements <= MAX_ELEMENTS,
        ensures
            match r {
                Ok(()) => close_tag(name@, old(self)@) == Ok::<TreeView, DiagnosticView>(
                    final(self)@,
                ) && final(self).elements <= MAX_ELEMENTS,
                Err(ds) => ds@.len() == 1 && close_tag(name@, old(self)@) == Err::<
                    TreeView,
                    DiagnosticView,
                >(ds@[0]@),
            },
    {
        let ghost before = self@;
        let name_text = text_of(name);
        match self.stack.pop() {
            Some((tag, _)) => {
                proof {
                    assert(before.stack.last().0 == tag@);
                    assert(self@.stack =~= before.stack.drop_last());
                    assert(self@.rules =~= before.rules);
                }
                if eq_str(&tag, name_text.as_str()) {
                    assert(close_tag(name@, before)->Ok_0 =~= self@);
                    return Ok(());
                }
            },
            None => {},
        }
        Err(
            vec![
                diag("JSX_MALFORMED", "closing tag does not match an open tag", name_text.as_str()),
            ],
        )
    }

    fn read_tag(&mut self, token: &Vec<char>) -> (r: Result<(), Vec<Diagnostic>>)
        requires
            old(self).elements <= MAX_ELEMENTS,
        ensures
            match r {
                Ok(()) => read_tag(token@, old(self)@) == Ok::<TreeView, DiagnosticView>(
                    final(self)@,
                ) && final(self).elements <= MAX_ELEMENTS,
                Err(ds) => ds@.len() == 1 && read_tag(token@, old(self)@) == Err::<
                    TreeView,
                    DiagnosticView,
                >(ds@[0]@),
            },
    {
        if token.len() > 0 && token[0] == '!' {
            return Ok(());
        }
        if token.len() > 0 && token[0] == '/' {
            let rest = slice(token, 1, token.len());
            assert(rest@ =~= token@.skip(1));
            return self.close(&trimmed(&rest));
        }
        self.open(token)
    }
}

/// The CSS of a static JSX fragment: one rule per element, the root under
/// `.component`. Text, expressions and unknown elements or classes are errors.
pub fn jsx_to_css(jsx: &str) -> (r: Result<String, Vec<Diagnostic>>)
    ensures
        one_error(r),
        converted(r) == css_of(jsx@, jsx.spec_bytes().len() as int),
{
    proof {
        reveal_strlit("<");
        reveal_strlit(">");
    }
    if jsx.as_bytes().len() > MAX_JSX_BYTES {
        return Err(vec![diag("JSX_LIMIT", "JSX input exceeds 256 KiB", "")]);
    }
    let all = chars_of(jsx);
    if contains_str(&all, "{") || contains_str(&all, "}") || contains_str(&all, "import ")
        || contains_str(&all, "export ") {
        return Err(vec![diag("JSX_DYNAMIC", "only a static JSX fragment is supported", "")]);
    }
    let mut tree = Tree { stack: Vec::new(), rules: Vec::new(), elements: 0 };
    assert(tree@ =~= empty_tree());
    let mut i: usize = 0;
    while i < all.len()
        invariant
            all@ == jsx@,
            i <= all.len(),
            tree.elements <= MAX_ELEMENTS,
            "<"@.len() == 1,
            ">"@.len() == 1,
            jsx.spec_bytes().len() <= MAX_JSX_BYTES,
            !is_dynamic(jsx@),
            read_tree(jsx@, 0, empty_tree()) == read_tree(jsx@, i as int, tree@),
        decreases all.len() - i,
    {
        if all[i] != '<' {
            let next = match find_str_from(&all, "<", i) {
                Some(at) => at,
                None => all.len(),
            };
            proof {
                lemma_text_end(jsx@, i as int);
            }
            let gap = trimmed(&slice(&all, i, next));
            if gap.len() > 0 {
                let text = text_of(&gap);
                return Err(
                    vec![
                        diag(
                            "JSX_TEXT_UNSUPPORTED",
                            "text children are not yet vectorizable; use editable text nodes separately",
                            text.as_str(),
                        ),
                    ],
                );
            }
            i = next;
            continue;
        }
        match find_str_from(&all, ">", i) {
            None => {
                return Err(vec![diag("JSX_MALFORMED", "unterminated JSX tag", "")]);
            },
            Some(end) => {
                proof {
                    lemma_find_from(jsx@, ">"@, i as int);
                    assert(end != i) by {
                        reveal_strlit(">");
                        if end == i {
                            assert(jsx@.subrange(end as int, end + 1)[0] == ">"@[0]);
                        }
                    }
                }
                let token = trimmed(&slice(&all, i + 1, end));
                match tree.read_tag(&token) {
                    Err(ds) => {
                        return Err(ds);
                    },
                    Ok(()) => {},
                }
                i = end + 1;
            },
        }
    }
    if tree.stack.len() > 0 {
        return Err(vec![diag("JSX_MALFORMED", "unclosed JSX tag", "")]);
    }
    if tree.rules.len() == 0 {
        return Err(vec![diag("JSX_EMPTY", "JSX contains no elements", "")]);
    }
    Ok(text_of(&join_words(&tree.rules, "\n")))
}

/// The runs of text between the tags of `s`, from `i` on.
pub open spec fn text_runs(s: Seq<char>, i: int) -> Seq<Seq<char>>
    decreases s.len() - i,
{
    if i < 0 || i >= s.len() {
        Seq::empty()
    } else if s[i] != '<' {
        proof {
            lemma_text_end(s, i);
        }
        seq![s.subrange(i, text_end(s, i))] + text_runs(s, text_end(s, i))
    } else {
        match find_from(s, ">"@, i) {
            None => Seq::empty(),
            Some(end) => {
                proof {
                    reveal_strlit(">");
                    lemma_find_from(s, ">"@, i);
                }
                text_runs(s, end + 1)
            },
        }
    }
}

proof fn lemma_read_tree(s: Seq<char>, i: int, tree: TreeView)
    requires
        read_tree(s, i, tree) is Ok,
        tree.rules.len() == tree.elements <= MAX_ELEMENTS,
    ensures
        ({
            let end = read_tree(s, i, tree)->Ok_0;
            end.rules.len() == end.elements <= MAX_ELEMENTS
        }),
        forall|k: int|
            0 <= k < text_runs(s, i).len() ==> trim(#[trigger] text_runs(s, i)[k]).len() == 0,
    decreases s.len() - i,
{
    if i < 0 || i >= s.len() {
    } else if s[i] != '<' {
        lemma_text_end(s, i);
        let rest = text_runs(s, text_end(s, i));
        lemma_read_tree(s, text_end(s, i), tree);
        assert forall|k: int| 0 <= k < text_runs(s, i).len() implies trim(
            #[trigger] text_runs(s, i)[k],
        ).len() == 0 by {
            if k > 0 {
                assert(text_runs(s, i)[k] == rest[k - 1]);
            }
        }
    } else {
        reveal_strlit(">");
        lemma_find_from(s, ">"@, i);
        let end = find_from(s, ">"@, i)->0;
        lemma_read_tree(s, end + 1, read_tag(trim(s.subrange(i + 1, end)), tree)->Ok_0);
        assert(text_runs(s, i) == text_runs(s, end + 1));
    }
}

/// A fragment that becomes CSS has nothing that would have to be evaluated and no
/// text between its tags.
pub proof fn law_nothing_is_dropped(s: Seq<char>, bytes: int)
    requires
        css_of(s, bytes) is Ok,
    ensures
        !is_dynamic(s),
        forall|k: int|
            0 <= k < text_runs(s, 0).len() ==> trim(#[trigger] text_runs(s, 0)[k]).len() == 0,
{
    lemma_read_tree(s, 0, empty_tree());
}

/// A fragment that becomes CSS gives one rule for each of its elements, and they are
/// at least one and at most 512.
pub proof fn law_one_rule_for_each_element(s: Seq<char>, bytes: int)
    requires
        css_of(s, bytes) is Ok,
    ensures
        ({
            let tree = read_tree(s, 0, empty_tree())->Ok_0;
            &&& css_of(s, bytes) == Ok::<Seq<char>, DiagnosticView>(join(tree.rules, "\n"@))
            &&& 1 <= tree.elements <= MAX_ELEMENTS
            &&& tree.rules.len() == tree.elements
        }),
{
    lemma_read_tree(s, 0, empty_tree());
}

} // verus!
