//! Reading the check-in page from its source files.
use crate::checkin::{
    argument_error, button_error, button_literal, button_sizes, check_checkin_arguments,
    check_layout_index, color_value, css_color_value, css_hex_token, hex_token, index_error,
    layout_error, layout_sizes, metrics_error, mode_error, option_entries, policy_of,
    read_button, read_exit_text, read_layout_metrics, read_mode_selector, rendered_handlers,
    stripped_tree, ButtonMetrics, JsonFlag, LayoutMetrics, ModeContent,
};
use crate::diagnostic::{
    diag, diagnosed, diagnostic_views, string_result, warn, warned, Diagnostic, DiagnosticView,
};
use crate::jsx::jsx_texts;
use crate::literals::returned_jsx;
use crate::page_readers::{
    all_components, allowlisted_fault, components, copy_option, copy_path, fault, fingerprint,
    fingerprint_of, first, found_text, lemma_root_of, missing_root, read_found_text, referred,
    root_of, source_fault, FoundFile, SourcePlace,
};
use crate::paths::{
    bounded_file, choose_root, inside, is_inside, path_option, path_views, required_file,
    resolve_checkin_import, same_paths, sorted_files, strictly_sorted,
};
use crate::sources::MAX_SOURCE_FILE_BYTES;
use crate::text::{first_suffix, holds_text, option_text, push_copy, texts, words};
use vstd::prelude::*;

verus! {

/// What is asked of the files of the check-in page.
#[derive(Debug)]
pub struct CheckinInput {
    /// The dynamic content, where it is an object.
    pub dynamic_content: Option<Vec<(String, JsonFlag)>>,
    pub interaction_policy: Option<String>,
    pub place: SourcePlace,
    /// The directory of the app's sources.
    pub app_root: Option<Vec<String>>,
    pub layout_index: FoundFile,
    pub layout: FoundFile,
    pub button: FoundFile,
    pub card: FoundFile,
    pub css: FoundFile,
}

impl CheckinInput {
    /// The root that counts.
    pub open spec fn root(self) -> Seq<Seq<char>> {
        root_of(self.place.root_views(), self.place.resolved())
    }

    pub open spec fn mode_text(self) -> Seq<char> {
        found_text(self.place.source, "SOURCE_READ"@, MAX_SOURCE_FILE_BYTES)->Ok_0
    }

    pub open spec fn index_text(self) -> Seq<char> {
        found_text(self.layout_index, "IMPORT_READ"@, MAX_SOURCE_FILE_BYTES)->Ok_0
    }

    pub open spec fn layout_text(self) -> Seq<char> {
        found_text(self.layout, "IMPORT_READ"@, MAX_SOURCE_FILE_BYTES)->Ok_0
    }

    pub open spec fn button_text(self) -> Seq<char> {
        found_text(self.button, "BUTTON_PRIMITIVE_READ"@, MAX_SOURCE_FILE_BYTES)->Ok_0
    }

    pub open spec fn css_text(self) -> Seq<char> {
        found_text(self.css, "CSS_READ"@, MAX_SOURCE_FILE_BYTES)->Ok_0
    }

    /// The texts whose classes put icons into a row.
    pub open spec fn icon_text(self) -> Seq<char> {
        self.mode_text() + "\n"@ + self.layout_text()
    }

    /// The name of the token with the background of a button.
    pub open spec fn primary_token(self) -> Seq<char> {
        first_suffix(words(button_literal(self.button_text(), 1)->Ok_0), "bg-"@)->0
    }

    /// What the page renders.
    pub open spec fn rendered(self) -> Seq<char> {
        returned_jsx(self.mode_text())->Ok_0
    }
}

/// The fault of the request and of the page's own source.
pub open spec fn checkin_page_fault(input: CheckinInput) -> Option<DiagnosticView> {
    let place = input.place;
    let name = place.source_path->0@;
    first(
        argument_error(
            option_entries(input.dynamic_content),
            option_text(input.interaction_policy),
            place.source_path is Some,
        ),
        first(
            missing_root(place),
            if place.roots->0@.len() == 0 {
                Some(diagnosed("MODULE_ROOTS"@, "module_roots is required"@, "module_roots"@))
            } else {
                first(
                    source_fault(place, name),
                    first(
                        allowlisted_fault(
                            input.root(),
                            path_option(input.app_root),
                            "apps/checkin/src"@,
                            "CHECKIN_SOURCE_ROOT"@,
                        ),
                        if !inside(place.resolved(), texts(input.app_root->0@)) {
                            Some(
                                diagnosed(
                                    "SOURCE_UNSUPPORTED"@,
                                    "ModeSelector must resolve beneath apps/checkin/src"@,
                                    name,
                                ),
                            )
                        } else {
                            first(
                                fault(
                                    found_text(
                                        place.source,
                                        "SOURCE_READ"@,
                                        MAX_SOURCE_FILE_BYTES,
                                    ),
                                ),
                                mode_error(
                                    input.mode_text(),
                                    policy_of(option_text(input.interaction_policy)),
                                ),
                            )
                        },
                    ),
                )
            },
        ),
    )
}

/// The fault of an import that does not exist or lies outside the root.
pub open spec fn import_fault(root: Seq<Seq<char>>, f: FoundFile, relative: Seq<char>) -> Option<
    DiagnosticView,
> {
    required_file(
        root,
        path_option(f.path),
        diagnosed("IMPORT_UNRESOLVED"@, "required local import was not found"@, relative),
        diagnosed("IMPORT_OUTSIDE_ROOT"@, "resolved import is outside module_roots"@, relative),
    )
}

/// The fault of the five files that the page imports: all are looked for before one
/// is read.
pub open spec fn imports_fault(input: CheckinInput) -> Option<DiagnosticView> {
    let root = input.root();
    first(
        import_fault(
            root,
            input.layout_index,
            "apps/checkin/src/components/layout/index.js"@,
        ),
        first(
            import_fault(
                root,
                input.layout,
                "apps/checkin/src/components/layout/KioskLayout.jsx"@,
            ),
            first(
                import_fault(root, input.button, "apps/checkin/src/components/ui/button.jsx"@),
                first(
                    import_fault(root, input.card, "apps/checkin/src/components/ui/card.jsx"@),
                    import_fault(root, input.css, "apps/checkin/src/index.css"@),
                ),
            ),
        ),
    )
}

/// The fault of the layout, the button and the style sheet.
pub open spec fn checkin_module_fault(input: CheckinInput) -> Option<DiagnosticView> {
    first(
        fault(found_text(input.layout_index, "IMPORT_READ"@, MAX_SOURCE_FILE_BYTES)),
        first(
            index_error(input.index_text()),
            first(
                fault(found_text(input.layout, "IMPORT_READ"@, MAX_SOURCE_FILE_BYTES)),
                first(
                    layout_error(input.index_text(), input.layout_text()),
                    first(
                        fault(
                            found_text(
                                input.button,
                                "BUTTON_PRIMITIVE_READ"@,
                                MAX_SOURCE_FILE_BYTES,
                            ),
                        ),
                        first(
                            button_error(input.button_text(), input.icon_text()),
                            fault(found_text(input.css, "CSS_READ"@, MAX_SOURCE_FILE_BYTES)),
                        ),
                    ),
                ),
            ),
        ),
    )
}

/// Why the sources of the check-in page cannot be read.
pub open spec fn checkin_source_fault(input: CheckinInput) -> Option<DiagnosticView> {
    first(
        checkin_page_fault(input),
        first(imports_fault(input), checkin_module_fault(input)),
    )
}

/// What the sources of the check-in page say before its colours are looked at.
#[derive(Debug)]
pub struct CheckinSources {
    pub mode: String,
    pub content: ModeContent,
    pub exit_text: String,
    pub layout: String,
    pub button: ButtonMetrics,
    pub css: String,
}

/// `s` is what the sources of the check-in page say.
pub open spec fn are_sources(input: CheckinInput, s: CheckinSources) -> bool {
    &&& s.mode@ == input.mode_text()
    &&& texts(s.content.texts@) == jsx_texts(stripped_tree(input.rendered()))
    &&& texts(s.content.handlers@) == rendered_handlers(input.rendered())
    &&& s.exit_text@ == "Exit Kiosk"@
    &&& s.layout@ == input.layout_text()
    &&& button_sizes(input.button_text(), input.icon_text(), s.button)
    &&& s.css@ == input.css_text()
}

fn read_page(input: &CheckinInput) -> (r: Result<(String, ModeContent, usize), Diagnostic>)
    ensures
        match r {
            Err(d) => checkin_page_fault(*input) == Some(d@),
            Ok((mode, content, k)) => {
                &&& checkin_page_fault(*input) is None
                &&& mode@ == input.mode_text()
                &&& texts(content.texts@) == jsx_texts(stripped_tree(input.rendered()))
                &&& texts(content.handlers@) == rendered_handlers(input.rendered())
                &&& input.place.roots is Some
                &&& k < input.place.roots->0@.len()
                &&& input.root() == texts(input.place.roots->0@[k as int]@)
            },
        },
{
    match check_checkin_arguments(
        &input.dynamic_content,
        &input.interaction_policy,
        input.place.source_path.is_some(),
    ) {
        Err(d) => {
            return Err(d);
        },
        Ok(()) => {},
    }
    let name = match &input.place.source_path {
        None => {
            return Err(diag("SOURCE_PATH", "source_path is required", ""));
        },
        Some(p) => p,
    };
    let roots = match &input.place.roots {
        None => {
            return Err(diag("MODULE_ROOTS", "a module root does not exist", "module_roots"));
        },
        Some(roots) => roots,
    };
    if roots.len() == 0 {
        return Err(diag("MODULE_ROOTS", "module_roots is required", "module_roots"));
    }
    let source = &input.place.source;
    let path = match &source.path {
        None => {
            return Err(diag("SOURCE_NOT_FOUND", "source_path does not exist", name.as_str()));
        },
        Some(p) => p,
    };
    let k: usize = match choose_root(roots, path) {
        None => {
            return Err(
                diag(
                    "SOURCE_OUTSIDE_ROOT",
                    "source_path must be inside module_roots",
                    name.as_str(),
                ),
            );
        },
        Some(k) => k,
    };
    proof {
        lemma_root_of(path_views(roots@), texts(path@), k as int);
        assert(path_views(roots@)[k as int] == texts(roots@[k as int]@));
    }
    let app_root = match bounded_file(
        &roots[k],
        copy_option(&input.app_root),
        "apps/checkin/src",
        "CHECKIN_SOURCE_ROOT",
    ) {
        Err(d) => {
            return Err(d);
        },
        Ok(p) => p,
    };
    if !is_inside(path, &app_root) {
        return Err(
            diag(
                "SOURCE_UNSUPPORTED",
                "ModeSelector must resolve beneath apps/checkin/src",
                name.as_str(),
            ),
        );
    }
    let mode = match read_found_text(source, "SOURCE_READ", MAX_SOURCE_FILE_BYTES) {
        Err(d) => {
            return Err(d);
        },
        Ok(t) => t,
    };
    match read_mode_selector(mode.as_str(), &input.interaction_policy) {
        Err(d) => Err(d),
        Ok(content) => Ok((mode, content, k)),
    }
}

fn find_import(root: &Vec<String>, f: &FoundFile, relative: &str) -> (r: Result<(), Diagnostic>)
    ensures
        match r {
            Err(d) => import_fault(texts(root@), *f, relative@) == Some(d@),
            Ok(_) => import_fault(texts(root@), *f, relative@) is None,
        },
{
    match resolve_checkin_import(root, copy_option(&f.path), relative) {
        Err(d) => Err(d),
        Ok(_) => Ok(()),
    }
}

fn find_imports(input: &CheckinInput, root: &Vec<String>) -> (r: Result<(), Diagnostic>)
    requires
        texts(root@) == input.root(),
    ensures
        match r {
            Err(d) => imports_fault(*input) == Some(d@),
            Ok(_) => imports_fault(*input) is None,
        },
{
    match find_import(
        root,
        &input.layout_index,
        "apps/checkin/src/components/layout/index.js",
    ) {
        Err(d) => {
            return Err(d);
        },
        Ok(()) => {},
    }
    match find_import(
        root,
        &input.layout,
        "apps/checkin/src/components/layout/KioskLayout.jsx",
    ) {
        Err(d) => {
            return Err(d);
        },
        Ok(()) => {},
    }
    match find_import(root, &input.button, "apps/checkin/src/components/ui/button.jsx") {
        Err(d) => {
            return Err(d);
        },
        Ok(()) => {},
    }
    match find_import(root, &input.card, "apps/checkin/src/components/ui/card.jsx") {
        Err(d) => {
            return Err(d);
        },
        Ok(()) => {},
    }
    find_import(root, &input.css, "apps/checkin/src/index.css")
}

/// Reads what the sources of the check-in page say before its colours are looked at.
pub fn read_checkin_sources(input: &CheckinInput) -> (r: Result<CheckinSources, Diagnostic>)
    ensures
        match r {
            Err(d) => checkin_source_fault(*input) == Some(d@),
            Ok(s) => checkin_source_fault(*input) is None && are_sources(*input, s),
        },
{
    let (mode, content, k) = match read_page(input) {
        Err(d) => {
            return Err(d);
        },
        Ok((mode, content, k)) => (mode, content, k),
    };
    match &input.place.roots {
        None => {
            return Err(diag("MODULE_ROOTS", "a module root does not exist", "module_roots"));
        },
        Some(roots) => match find_imports(input, &roots[k]) {
            Err(d) => {
                return Err(d);
            },
            Ok(()) => {},
        },
    }
    let index = match read_found_text(
        &input.layout_index,
        "IMPORT_READ",
        MAX_SOURCE_FILE_BYTES,
    ) {
        Err(d) => {
            return Err(d);
        },
        Ok(t) => t,
    };
    match check_layout_index(index.as_str()) {
        Err(d) => {
            return Err(d);
        },
        Ok(()) => {},
    }
    let layout = match read_found_text(&input.layout, "IMPORT_READ", MAX_SOURCE_FILE_BYTES) {
        Err(d) => {
            return Err(d);
        },
        Ok(t) => t,
    };
    let exit_text = match read_exit_text(index.as_str(), layout.as_str()) {
        Err(d) => {
            return Err(d);
        },
        Ok(t) => t,
    };
    let button_text = match read_found_text(
        &input.button,
        "BUTTON_PRIMITIVE_READ",
        MAX_SOURCE_FILE_BYTES,
    ) {
        Err(d) => {
            return Err(d);
        },
        Ok(t) => t,
    };
    let button = match read_button(button_text.as_str(), mode.as_str(), layout.as_str()) {
        Err(d) => {
            return Err(d);
        },
        Ok(b) => b,
    };
    let css = match read_found_text(&input.css, "CSS_READ", MAX_SOURCE_FILE_BYTES) {
        Err(d) => {
            return Err(d);
        },
        Ok(t) => t,
    };
    Ok(CheckinSources { mode, content, exit_text, layout, button, css })
}

/// The values of the colour tokens that the page uses and the style sheet declares.
pub fn checkin_color_values(input: &CheckinInput) -> (r: Result<Vec<String>, Diagnostic>)
    ensures
        match r {
            Err(d) => checkin_source_fault(*input) == Some(d@),
            Ok(values) => {
                let css = input.css_text();
                &&& checkin_source_fault(*input) is None
                &&& texts(values@) == declared(color_value(css, "bgch-blue"@)) + declared(
                    color_value(css, "bgch-gold"@),
                ) + declared(color_value(css, input.primary_token()))
            },
        },
{
    let s = match read_checkin_sources(input) {
        Err(d) => {
            return Err(d);
        },
        Ok(s) => s,
    };
    let mut out: Vec<String> = Vec::new();
    push_declared(&mut out, css_color_value(s.css.as_str(), "bgch-blue"));
    push_declared(&mut out, css_color_value(s.css.as_str(), "bgch-gold"));
    push_declared(&mut out, css_color_value(s.css.as_str(), s.button.primary_token.as_str()));
    assert(texts(out@) =~= declared(color_value(s.css@, "bgch-blue"@)) + declared(
        color_value(s.css@, "bgch-gold"@),
    ) + declared(color_value(s.css@, input.primary_token())));
    Ok(out)
}

/// The value of a token that is declared, as a list.
pub open spec fn declared(r: Result<Seq<char>, DiagnosticView>) -> Seq<Seq<char>> {
    match r {
        Ok(v) => seq![v],
        Err(_) => Seq::empty(),
    }
}

fn push_declared(out: &mut Vec<String>, r: Result<String, Diagnostic>)
    ensures
        texts(final(out)@) == texts(old(out)@) + declared(string_result(r)),
{
    let ghost before = texts(out@);
    match r {
        Ok(v) => {
            push_copy(out, v.as_str());
            assert(texts(out@) =~= before + seq![v@]);
        },
        Err(_) => {
            assert(texts(out@) =~= before + Seq::<Seq<char>>::empty());
        },
    }
}

/// A colour of the style sheet. `hex` holds the values that are hex colours.
pub open spec fn css_color(css: Seq<char>, name: Seq<char>, hex: Seq<Seq<char>>) -> Result<
    Seq<char>,
    DiagnosticView,
> {
    match color_value(css, name) {
        Err(d) => Err(d),
        Ok(v) => hex_token(v, hex.contains(v)),
    }
}

fn read_css_color(css: &str, name: &str, hex: &Vec<String>) -> (r: Result<String, Diagnostic>)
    ensures
        string_result(r) == css_color(css@, name@, texts(hex@)),
{
    match css_color_value(css, name) {
        Err(d) => Err(d),
        Ok(v) => css_hex_token(v.as_str(), holds_text(hex, v.as_str())),
    }
}

/// The files that the page is read from.
pub open spec fn checkin_files(input: CheckinInput, icons: Seq<FoundFile>) -> Seq<FoundFile> {
    seq![
        input.place.source,
        input.layout_index,
        input.layout,
        input.button,
        input.card,
        input.css,
    ] + icons
}

/// The first file at a path, from the index `i` on.
pub open spec fn file_index(files: Seq<FoundFile>, path: Seq<Seq<char>>, i: int) -> int
    decreases files.len() - i,
{
    if i >= files.len() || components(files[i]) == path {
        i
    } else {
        file_index(files, path, i + 1)
    }
}

/// The files at paths, one for each.
pub open spec fn files_at(files: Seq<FoundFile>, order: Seq<Seq<Seq<char>>>) -> Seq<FoundFile> {
    order.map_values(|p: Seq<Seq<char>>| files[file_index(files, p, 0)])
}

/// `order` holds the paths of `files` in order, each once.
pub open spec fn is_file_order(files: Seq<FoundFile>, order: Seq<Seq<Seq<char>>>) -> bool {
    strictly_sorted(order) && same_paths(order, all_components(files))
}

/// Why the check-in page cannot be read, up to the fingerprint of its files.
pub open spec fn checkin_fault(
    input: CheckinInput,
    hex: Seq<Seq<char>>,
    icons: Result<Vec<FoundFile>, Diagnostic>,
) -> Option<DiagnosticView> {
    let css = input.css_text();
    first(
        checkin_source_fault(input),
        first(
            fault(css_color(css, "bgch-blue"@, hex)),
            first(
                fault(css_color(css, "bgch-gold"@, hex)),
                first(
                    fault(css_color(css, input.primary_token(), hex)),
                    first(
                        metrics_error(input.layout_text(), input.mode_text()),
                        match icons {
                            Err(d) => Some(d@),
                            Ok(_) => None,
                        },
                    ),
                ),
            ),
        ),
    )
}

/// The check-in page as it was read.
#[derive(Debug)]
pub struct CheckinPage {
    /// The exit label, and the visible texts of the page.
    pub texts: Vec<String>,
    /// The files that the page was read from, in order.
    pub source_files: Vec<Vec<String>>,
    pub fingerprint: String,
    pub blue: String,
    pub gold: String,
    pub primary_blue: String,
    pub layout: LayoutMetrics,
    pub button: ButtonMetrics,
    /// The handlers that were removed.
    pub interactions: Vec<String>,
    /// A warning for each of them.
    pub warnings: Vec<Diagnostic>,
}

/// The warning about a handler that was removed.
pub open spec fn stripped_warning(handler: Seq<char>) -> DiagnosticView {
    warned(
        "JSX_EVENT_STRIPPED"@,
        "event handler was removed; JavaScript was not executed"@,
        handler,
    )
}

/// A warning for each handler, in their order.
pub open spec fn stripped_warnings(handlers: Seq<Seq<char>>) -> Seq<DiagnosticView> {
    Seq::new(handlers.len(), |i: int| stripped_warning(handlers[i]))
}

/// The warnings about handlers that were removed.
pub fn warn_of_stripped(handlers: &Vec<String>) -> (r: Vec<Diagnostic>)
    ensures
        diagnostic_views(r@) == stripped_warnings(texts(handlers@)),
{
    let ghost goal = stripped_warnings(texts(handlers@));
    let mut out: Vec<Diagnostic> = Vec::new();
    let mut i: usize = 0;
    assert(diagnostic_views(out@) =~= goal.take(0));
    while i < handlers.len()
        invariant
            i <= handlers.len(),
            goal == stripped_warnings(texts(handlers@)),
            diagnostic_views(out@) == goal.take(i as int),
        decreases handlers.len() - i,
    {
        let ghost before = out@;
        out.push(
            warn(
                "JSX_EVENT_STRIPPED",
                "event handler was removed; JavaScript was not executed",
                handlers[i].as_str(),
            ),
        );
        i += 1;
        assert(diagnostic_views(out@) =~= diagnostic_views(before).push(goal[i - 1]));
        assert(goal.take(i as int) =~= goal.take(i - 1).push(goal[i - 1]));
    }
    assert(goal.take(goal.len() as int) =~= goal);
    out
}

/// `p` is what the check-in page is read as.
pub open spec fn is_checkin_page(
    input: CheckinInput,
    hex: Seq<Seq<char>>,
    icons: Seq<FoundFile>,
    p: CheckinPage,
) -> bool {
    let css = input.css_text();
    let files = checkin_files(input, icons);
    let order = path_views(p.source_files@);
    &&& texts(p.texts@) == seq!["Exit Kiosk"@] + jsx_texts(stripped_tree(input.rendered()))
    &&& is_file_order(files, order)
    &&& fingerprint_of(files_at(files, order)) == Ok::<Seq<char>, DiagnosticView>(p.fingerprint@)
    &&& css_color(css, "bgch-blue"@, hex) == Ok::<Seq<char>, DiagnosticView>(p.blue@)
    &&& css_color(css, "bgch-gold"@, hex) == Ok::<Seq<char>, DiagnosticView>(p.gold@)
    &&& css_color(css, input.primary_token(), hex) == Ok::<Seq<char>, DiagnosticView>(
        p.primary_blue@,
    )
    &&& layout_sizes(input.layout_text(), input.mode_text(), p.layout)
    &&& button_sizes(input.button_text(), input.icon_text(), p.button)
    &&& texts(p.interactions@) == rendered_handlers(input.rendered())
    &&& p.warnings@.len() == p.interactions@.len()
    &&& diagnostic_views(p.warnings@) == stripped_warnings(texts(p.interactions@))
}

fn path_of(f: &FoundFile) -> (r: Vec<String>)
    ensures
        texts(r@) == components(*f),
{
    match &f.path {
        Some(p) => copy_path(p),
        None => {
            let out: Vec<String> = Vec::new();
            assert(texts(out@) =~= Seq::<Seq<char>>::empty());
            out
        },
    }
}

proof fn lemma_file_index(files: Seq<FoundFile>, path: Seq<Seq<char>>, i: int)
    requires
        0 <= i <= files.len(),
    ensures
        i <= file_index(files, path, i) <= files.len(),
        file_index(files, path, i) < files.len() ==> components(
            files[file_index(files, path, i)],
        ) == path,
        (exists|j: int| i <= j < files.len() && components(#[trigger] files[j]) == path)
            ==> file_index(files, path, i) < files.len(),
    decreases files.len() - i,
{
    if i < files.len() && components(files[i]) != path {
        lemma_file_index(files, path, i + 1);
    }
}

fn find_file(files: &Vec<&FoundFile>, path: &Vec<String>) -> (r: usize)
    requires
        all_components(referred(files@)).contains(texts(path@)),
    ensures
        r < files.len(),
        r == file_index(referred(files@), texts(path@), 0),
{
    let ghost all = referred(files@);
    proof {
        lemma_file_index(all, texts(path@), 0);
        let j = choose|j: int|
            0 <= j < all.len() && all_components(all)[j] == texts(path@);
        assert(components(all[j]) == texts(path@));
    }
    let mut i: usize = 0;
    while i < files.len()
        invariant
            i <= files.len(),
            all == referred(files@),
            file_index(all, texts(path@), 0) == file_index(all, texts(path@), i as int),
            file_index(all, texts(path@), 0) < files.len(),
        decreases files.len() - i,
    {
        let own = path_of(files[i]);
        assert(all[i as int] == *files@[i as int]);
        if is_inside(&own, path) && own.len() == path.len() {
            assert(texts(own@) =~= texts(path@)) by {
                let a = texts(own@);
                let b = texts(path@);
                assert(a.take(b.len() as int) == b);
                assert(a.take(b.len() as int) =~= a);
            }
            return i;
        }
        proof {
            if texts(own@) == texts(path@) {
                assert(texts(own@).len() == own@.len());
                assert(texts(path@).len() == path@.len());
                assert(texts(own@).take(path@.len() as int) =~= texts(own@));
            }
        }
        i += 1;
    }
    0
}

/// The files in the order of their paths, each once, and their fingerprint.
fn hash_in_order(files: &Vec<&FoundFile>) -> (r: Result<(Vec<Vec<String>>, String), Diagnostic>)
    ensures
        match r {
            Err(d) => exists|order: Seq<Seq<Seq<char>>>|
                is_file_order(referred(files@), order) && #[trigger] fingerprint_of(
                    files_at(referred(files@), order),
                ) == Err::<Seq<char>, DiagnosticView>(d@),
            Ok((order, hash)) => is_file_order(referred(files@), path_views(order@))
                && fingerprint_of(files_at(referred(files@), path_views(order@))) == Ok::<
                Seq<char>,
                DiagnosticView,
            >(hash@),
        },
{
    let ghost all = referred(files@);
    let mut paths: Vec<Vec<String>> = Vec::new();
    let mut i: usize = 0;
    assert(path_views(paths@) =~= all_components(all).take(0));
    while i < files.len()
        invariant
            i <= files.len(),
            all == referred(files@),
            path_views(paths@) == all_components(all).take(i as int),
        decreases files.len() - i,
    {
        let ghost before = paths@;
        paths.push(path_of(files[i]));
        i += 1;
        assert(path_views(paths@) =~= path_views(before).push(all_components(all)[i - 1]));
        assert(all_components(all).take(i as int) =~= all_components(all).take(i - 1).push(
            all_components(all)[i - 1],
        ));
    }
    assert(all_components(all).take(files@.len() as int) =~= all_components(all));
    let order = sorted_files(paths);
    let ghost goal = files_at(all, path_views(order@));
    let mut chosen: Vec<&FoundFile> = Vec::new();
    let mut j: usize = 0;
    assert(referred(chosen@) =~= goal.take(0));
    while j < order.len()
        invariant
            j <= order.len(),
            all == referred(files@),
            goal == files_at(all, path_views(order@)),
            same_paths(path_views(order@), all_components(all)),
            referred(chosen@) == goal.take(j as int),
        decreases order.len() - j,
    {
        assert(path_views(order@)[j as int] == texts(order@[j as int]@));
        assert(path_views(order@).contains(texts(order@[j as int]@)));
        let k: usize = find_file(files, &order[j]);
        let ghost before = chosen@;
        chosen.push(files[k]);
        assert(all[k as int] == *files@[k as int]);
        j += 1;
        assert(referred(chosen@) =~= referred(before).push(goal[j - 1]));
        assert(goal.take(j as int) =~= goal.take(j - 1).push(goal[j - 1]));
    }
    assert(goal.take(order@.len() as int) =~= goal);
    assert(is_file_order(all, path_views(order@)));
    match fingerprint(&chosen) {
        Err(d) => {
            assert(fingerprint_of(files_at(all, path_views(order@))) == Err::<
                Seq<char>,
                DiagnosticView,
            >(d@));
            Err(d)
        },
        Ok(h) => Ok((order, h)),
    }
}

/// The colours of the page.
struct PageColors {
    blue: String,
    gold: String,
    primary_blue: String,
}

fn read_colors(css: &str, primary: &str, hex: &Vec<String>) -> (r: Result<PageColors, Diagnostic>)
    ensures
        match r {
            Err(d) => first(
                fault(css_color(css@, "bgch-blue"@, texts(hex@))),
                first(
                    fault(css_color(css@, "bgch-gold"@, texts(hex@))),
                    fault(css_color(css@, primary@, texts(hex@))),
                ),
            ) == Some(d@),
            Ok(c) => {
                &&& css_color(css@, "bgch-blue"@, texts(hex@)) == Ok::<Seq<char>, DiagnosticView>(
                    c.blue@,
                )
                &&& css_color(css@, "bgch-gold"@, texts(hex@)) == Ok::<Seq<char>, DiagnosticView>(
                    c.gold@,
                )
                &&& css_color(css@, primary@, texts(hex@)) == Ok::<Seq<char>, DiagnosticView>(
                    c.primary_blue@,
                )
            },
        },
{
    let blue = match read_css_color(css, "bgch-blue", hex) {
        Err(d) => {
            return Err(d);
        },
        Ok(c) => c,
    };
    let gold = match read_css_color(css, "bgch-gold", hex) {
        Err(d) => {
            return Err(d);
        },
        Ok(c) => c,
    };
    match read_css_color(css, primary, hex) {
        Err(d) => Err(d),
        Ok(primary_blue) => Ok(PageColors { blue, gold, primary_blue }),
    }
}

fn list_files<'a>(input: &'a CheckinInput, found: &'a Vec<FoundFile>) -> (r: Vec<&'a FoundFile>)
    ensures
        referred(r@) == checkin_files(*input, found@),
{
    let ghost goal = checkin_files(*input, found@);
    let mut files: Vec<&FoundFile> = Vec::new();
    files.push(&input.place.source);
    files.push(&input.layout_index);
    files.push(&input.layout);
    files.push(&input.button);
    files.push(&input.card);
    files.push(&input.css);
    assert(referred(files@) =~= goal.take(6));
    let mut i: usize = 0;
    while i < found.len()
        invariant
            i <= found.len(),
            goal.len() == found.len() + 6,
            forall|j: int| 0 <= j < found.len() ==> #[trigger] goal[j + 6] == found@[j],
            referred(files@) == goal.take(i + 6),
        decreases found.len() - i,
    {
        let ghost before = files@;
        files.push(&found[i]);
        assert(goal[i + 6] == found@[i as int]);
        i += 1;
        assert(referred(files@) =~= referred(before).push(goal[i + 5]));
        assert(goal.take(i + 6) =~= goal.take(i + 5).push(goal[i + 5]));
    }
    assert(goal.take(found.len() + 6) =~= goal);
    files
}

/// Reads the check-in page. `hex` holds those of the values that
/// [`checkin_color_values`] gives that are hex colours, `icons` the files of the icons
/// or why they could not be had.
pub fn read_checkin_mode_selector(
    input: &CheckinInput,
    hex: &Vec<String>,
    icons: Result<Vec<FoundFile>, Diagnostic>,
) -> (r: Result<CheckinPage, Diagnostic>)
    ensures
        match r {
            Err(d) => {
                ||| checkin_fault(*input, texts(hex@), icons) == Some(d@)
                ||| {
                    let files = checkin_files(*input, icons->Ok_0@);
                    &&& checkin_fault(*input, texts(hex@), icons) is None
                    &&& exists|order: Seq<Seq<Seq<char>>>|
                        is_file_order(files, order) && #[trigger] fingerprint_of(
                            files_at(files, order),
                        ) == Err::<Seq<char>, DiagnosticView>(d@)
                }
            },
            Ok(p) => {
                &&& checkin_fault(*input, texts(hex@), icons) is None
                &&& is_checkin_page(*input, texts(hex@), icons->Ok_0@, p)
            },
        },
{
    let s = match read_checkin_sources(input) {
        Err(d) => {
            return Err(d);
        },
        Ok(s) => s,
    };
    let colors = match read_colors(s.css.as_str(), s.button.primary_token.as_str(), hex) {
        Err(d) => {
            return Err(d);
        },
        Ok(c) => c,
    };
    let layout = match read_layout_metrics(s.layout.as_str(), s.mode.as_str()) {
        Err(d) => {
            return Err(d);
        },
        Ok(l) => l,
    };
    let found = match icons {
        Err(d) => {
            return Err(d);
        },
        Ok(found) => found,
    };
    let files = list_files(input, &found);
    let (source_files, hash) = match hash_in_order(&files) {
        Err(d) => {
            return Err(d);
        },
        Ok((order, hash)) => (order, hash),
    };
    let mut all_texts: Vec<String> = Vec::new();
    push_copy(&mut all_texts, s.exit_text.as_str());
    push_texts(&mut all_texts, &s.content.texts);
    assert(texts(all_texts@) =~= seq!["Exit Kiosk"@] + texts(s.content.texts@));
    let warnings = warn_of_stripped(&s.content.handlers);
    proof {
        assert(diagnostic_views(warnings@).len() == warnings@.len());
        assert(texts(s.content.handlers@).len() == s.content.handlers@.len());
    }
    Ok(
        CheckinPage {
            texts: all_texts,
            source_files,
            fingerprint: hash,
            blue: colors.blue,
            gold: colors.gold,
            primary_blue: colors.primary_blue,
            layout,
            button: s.button,
            interactions: s.content.handlers,
            warnings,
        },
    )
}

fn push_texts(out: &mut Vec<String>, more: &Vec<String>)
    ensures
        texts(final(out)@) == texts(old(out)@) + texts(more@),
{
    let ghost before = texts(out@);
    let mut i: usize = 0;
    assert(texts(out@) =~= before + texts(more@).take(0));
    while i < more.len()
        invariant
            i <= more.len(),
            texts(out@) == before + texts(more@).take(i as int),
        decreases more.len() - i,
    {
        push_copy(out, more[i].as_str());
        i += 1;
        assert(before + texts(more@).take(i as int) =~= (before + texts(more@).take(i - 1)).push(
            more@[i - 1]@,
        ));
    }
    assert(texts(more@).take(more@.len() as int) =~= texts(more@));
}

} // verus!
