//! Reading a page from its source files. What the file system said of every file is
//! given; the readers decide which files count, in which order they are asked, and
//! what is wrong with them.
use crate::app_directory::{
    card_primitive, check_app_directory, content_classes, grid_classes, grid_result,
    parse_grid_layout, parse_suite_apps, parse_tile_style, source_error, suite_apps,
    tile_result, ImportedTile, LayoutSpec, TileStyle, TileView,
};
use crate::checkin::JsonFlag;
use crate::connect_page::{
    connect_links, connect_texts, read_connect_links, read_connect_texts, ConnectTexts,
    ImportedSocialLink, LinkView, TextsView,
};
use crate::diagnostic::{diag, diagnosed, string_result, Diagnostic, DiagnosticView};
use crate::literals::primitive_class_list;
use crate::paths::{
    asset_file_error, bounded_file, check_asset_file, choose_root, inside, is_chosen_root,
    is_inside, path_option, path_views, required_file,
};
use crate::react_import::{
    check_directory_request, check_snapshot_props, directory_request_error, prop_entries,
    snapshot_props_error, str_option,
};
use crate::sources::{
    bounded_bytes, bounded_text, fnv, framed, hash_text, option_bytes, read_bounded_bytes,
    read_bounded_text, source_fingerprint, MAX_SOURCE_FILE_BYTES, MAX_SVG_FILE_BYTES,
};
use crate::svg::{basename_of, svg_asset_basename, svg_error, validate_svg_document, SvgDocument};
use crate::text::{joined, option_text, push_copy, texts};
use crate::theme::{first_token_error, is_token_color, parse_light_theme, root_block, Theme};
use vstd::prelude::*;

verus! {

/// What the file system said of a file: its path in the resolved form, how that path
/// is written, and its size and content. What could not be had is absent.
#[derive(Debug)]
pub struct FoundFile {
    pub path: Option<Vec<String>>,
    pub shown: String,
    pub size: Option<u64>,
    pub bytes: Option<Vec<u8>>,
}

/// The text of a file, or why it cannot be read.
pub open spec fn found_text(f: FoundFile, code: Seq<char>, limit: u64) -> Result<
    Seq<char>,
    DiagnosticView,
> {
    bounded_text(f.shown@, code, limit, f.size, option_bytes(f.bytes))
}

/// The content of a file, or why it cannot be read.
pub open spec fn found_bytes(f: FoundFile, code: Seq<char>, limit: u64) -> Result<
    Seq<u8>,
    DiagnosticView,
> {
    bounded_bytes(f.shown@, code, limit, f.size, option_bytes(f.bytes))
}

fn copy_bytes(bytes: &Option<Vec<u8>>) -> (r: Option<Vec<u8>>)
    ensures
        option_bytes(r) == option_bytes(*bytes),
{
    match bytes {
        None => None,
        Some(b) => {
            let c = b.clone();
            assert(c@ =~= b@);
            Some(c)
        },
    }
}

pub(crate) fn read_found_text(f: &FoundFile, code: &str, limit: u64) -> (r: Result<String, Diagnostic>)
    ensures
        string_result(r) == found_text(*f, code@, limit),
{
    read_bounded_text(f.shown.as_str(), code, limit, f.size, copy_bytes(&f.bytes))
}

pub(crate) fn copy_path(path: &Vec<String>) -> (r: Vec<String>)
    ensures
        texts(r@) == texts(path@),
{
    let mut out: Vec<String> = Vec::new();
    let mut i: usize = 0;
    assert(texts(out@) =~= texts(path@).take(0));
    while i < path.len()
        invariant
            i <= path.len(),
            texts(out@) == texts(path@).take(i as int),
        decreases path.len() - i,
    {
        push_copy(&mut out, path[i].as_str());
        i += 1;
        assert(texts(path@).take(i as int) =~= texts(path@).take(i - 1).push(path@[i - 1]@));
    }
    assert(texts(path@).take(path@.len() as int) =~= texts(path@));
    out
}

/// The first of two faults.
pub open spec fn first(a: Option<DiagnosticView>, b: Option<DiagnosticView>) -> Option<
    DiagnosticView,
> {
    match a {
        Some(d) => Some(d),
        None => b,
    }
}

/// The fault of an outcome.
pub open spec fn fault<T>(r: Result<T, DiagnosticView>) -> Option<DiagnosticView> {
    match r {
        Ok(_) => None,
        Err(d) => Some(d),
    }
}

/// The contents of the first `n` files, or the first fault.
pub open spec fn contents_of(files: Seq<FoundFile>, n: nat) -> Result<
    Seq<Seq<u8>>,
    DiagnosticView,
>
    decreases n,
{
    if n == 0 {
        Ok(Seq::empty())
    } else {
        match contents_of(files, (n - 1) as nat) {
            Err(d) => Err(d),
            Ok(v) => match found_bytes(files[n - 1], "FINGERPRINT_READ"@, MAX_SOURCE_FILE_BYTES) {
                Err(d) => Err(d),
                Ok(b) => Ok(v.push(b)),
            },
        }
    }
}

/// The fingerprint of files, or why one of them cannot be read.
pub open spec fn fingerprint_of(files: Seq<FoundFile>) -> Result<Seq<char>, DiagnosticView> {
    match contents_of(files, files.len()) {
        Err(d) => Err(d),
        Ok(v) => Ok(hash_text(fnv(14695981039346656037, framed(v)))),
    }
}

proof fn lemma_contents_fault(files: Seq<FoundFile>, m: nat, n: nat)
    requires
        m <= n,
        contents_of(files, m) is Err,
    ensures
        contents_of(files, n) == contents_of(files, m),
    decreases n,
{
    if m < n {
        lemma_contents_fault(files, m, (n - 1) as nat);
    }
}

/// The files behind references.
pub open spec fn referred(files: Seq<&FoundFile>) -> Seq<FoundFile> {
    files.map_values(|f: &FoundFile| *f)
}

pub(crate) fn fingerprint(files: &Vec<&FoundFile>) -> (r: Result<String, Diagnostic>)
    ensures
        string_result(r) == fingerprint_of(referred(files@)),
{
    let ghost all = referred(files@);
    let mut contents: Vec<Vec<u8>> = Vec::new();
    let mut i: usize = 0;
    assert(contents@.map_values(|b: Vec<u8>| b@) =~= Seq::<Seq<u8>>::empty());
    while i < files.len()
        invariant
            i <= files.len(),
            all == referred(files@),
            contents_of(all, i as nat) == Ok::<Seq<Seq<u8>>, DiagnosticView>(
                contents@.map_values(|b: Vec<u8>| b@),
            ),
        decreases files.len() - i,
    {
        let f = files[i];
        assert(all[i as int] == *f);
        match read_bounded_bytes(
            f.shown.as_str(),
            "FINGERPRINT_READ",
            MAX_SOURCE_FILE_BYTES,
            f.size,
            copy_bytes(&f.bytes),
        ) {
            Err(d) => {
                proof {
                    lemma_contents_fault(all, (i + 1) as nat, all.len());
                }
                return Err(d);
            },
            Ok(b) => {
                assert(contents@.push(b).map_values(|b: Vec<u8>| b@) =~= contents@.map_values(
                    |b: Vec<u8>| b@,
                ).push(b@));
                contents.push(b);
            },
        }
        i += 1;
    }
    Ok(source_fingerprint(&contents))
}

/// The components of the path of a file.
pub open spec fn components(f: FoundFile) -> Seq<Seq<char>> {
    match f.path {
        Some(p) => texts(p@),
        None => Seq::empty(),
    }
}

/// The paths of files.
pub open spec fn all_components(files: Seq<FoundFile>) -> Seq<Seq<Seq<char>>> {
    files.map_values(|f: FoundFile| components(f))
}

/// The roots contain a file.
pub open spec fn in_some_root(roots: Seq<Seq<Seq<char>>>, path: Seq<Seq<char>>) -> bool {
    exists|j: int| 0 <= j < roots.len() && inside(path, #[trigger] roots[j])
}

fn is_in_some_root(roots: &Vec<Vec<String>>, path: &Vec<String>) -> (r: bool)
    ensures
        r == in_some_root(path_views(roots@), texts(path@)),
{
    let k = choose_root(roots, path);
    match k {
        Some(k) => {
            assert(inside(texts(path@), path_views(roots@)[k as int]));
            true
        },
        None => false,
    }
}

/// Where the source file of a page lies.
#[derive(Debug)]
pub struct SourcePlace {
    /// How the caller writes the path of the source.
    pub source_path: Option<String>,
    /// The module roots in their resolved form; absent where one does not exist.
    pub roots: Option<Vec<Vec<String>>>,
    pub source: FoundFile,
}

impl SourcePlace {
    pub open spec fn root_views(self) -> Seq<Seq<Seq<char>>> {
        path_views(self.roots->0@)
    }

    /// The resolved path of the source.
    pub open spec fn resolved(self) -> Seq<Seq<char>> {
        texts(self.source.path->0@)
    }
}

/// The fault of roots that do not exist.
pub open spec fn missing_root(place: SourcePlace) -> Option<DiagnosticView> {
    if place.roots is None {
        Some(diagnosed("MODULE_ROOTS"@, "a module root does not exist"@, "module_roots"@))
    } else {
        None
    }
}

/// The fault of a source that does not exist, or that no root contains. `outside` is
/// how the source is written where no root contains it.
pub open spec fn source_fault(place: SourcePlace, outside: Seq<char>) -> Option<DiagnosticView> {
    if place.source.path is None {
        Some(
            diagnosed("SOURCE_NOT_FOUND"@, "source_path does not exist"@, place.source_path->0@),
        )
    } else if !in_some_root(place.root_views(), place.resolved()) {
        Some(
            diagnosed("SOURCE_OUTSIDE_ROOT"@, "source_path must be inside module_roots"@, outside),
        )
    } else {
        None
    }
}

/// What is asked of the files of a ConnectPage.
#[derive(Debug)]
pub struct ConnectInput {
    /// How many module roots are given.
    pub module_roots: usize,
    pub place: SourcePlace,
    pub has_props: bool,
}

/// Why the links of a ConnectPage cannot be read.
pub open spec fn connect_fault(input: ConnectInput) -> Option<DiagnosticView> {
    let place = input.place;
    let text = found_text(place.source, "SOURCE_READ"@, MAX_SOURCE_FILE_BYTES);
    if input.module_roots == 0 {
        Some(
            diagnosed(
                "MODULE_ROOTS"@,
                "module_roots is required for file-backed import"@,
                "module_roots"@,
            ),
        )
    } else if missing_root(place) is Some {
        missing_root(place)
    } else if place.source_path is None {
        Some(diagnosed("SOURCE_PATH"@, "source_path is required"@, ""@))
    } else {
        first(
            source_fault(place, place.source.shown@),
            first(fault(text), fault(connect_links(text->Ok_0, input.has_props))),
        )
    }
}

/// The text of the source of a ConnectPage.
pub open spec fn connect_source(input: ConnectInput) -> Seq<char> {
    found_text(input.place.source, "SOURCE_READ"@, MAX_SOURCE_FILE_BYTES)->Ok_0
}

fn read_links(input: &ConnectInput) -> (r: Result<(String, Vec<ImportedSocialLink>), Diagnostic>)
    ensures
        match r {
            Err(d) => connect_fault(*input) == Some(d@),
            Ok((text, links)) => {
                &&& connect_fault(*input) is None
                &&& text@ == connect_source(*input)
                &&& connect_links(text@, input.has_props) == Ok::<Seq<LinkView>, DiagnosticView>(
                    links@.map_values(|l: ImportedSocialLink| l@),
                )
            },
        },
{
    if input.module_roots == 0 {
        return Err(
            diag(
                "MODULE_ROOTS",
                "module_roots is required for file-backed import",
                "module_roots",
            ),
        );
    }
    let roots = match &input.place.roots {
        None => {
            return Err(diag("MODULE_ROOTS", "a module root does not exist", "module_roots"));
        },
        Some(roots) => roots,
    };
    let source_path = match &input.place.source_path {
        None => {
            return Err(diag("SOURCE_PATH", "source_path is required", ""));
        },
        Some(p) => p,
    };
    let source = &input.place.source;
    let path = match &source.path {
        None => {
            return Err(
                diag("SOURCE_NOT_FOUND", "source_path does not exist", source_path.as_str()),
            );
        },
        Some(p) => p,
    };
    if !is_in_some_root(roots, path) {
        return Err(
            diag(
                "SOURCE_OUTSIDE_ROOT",
                "source_path must be inside module_roots",
                source.shown.as_str(),
            ),
        );
    }
    let text = match read_found_text(source, "SOURCE_READ", MAX_SOURCE_FILE_BYTES) {
        Err(d) => {
            return Err(d);
        },
        Ok(t) => t,
    };
    match read_connect_links(text.as_str(), input.has_props) {
        Err(d) => Err(d),
        Ok(links) => Ok((text, links)),
    }
}

/// The names of the icons that a ConnectPage shows, one for every link.
pub fn connect_icon_names(input: &ConnectInput) -> (r: Result<Vec<String>, Diagnostic>)
    ensures
        match r {
            Err(d) => connect_fault(*input) == Some(d@),
            Ok(names) => connect_fault(*input) is None && texts(names@) == icons_of(
                connect_links(connect_source(*input), input.has_props)->Ok_0,
            ),
        },
{
    let links = match read_links(input) {
        Err(d) => {
            return Err(d);
        },
        Ok((_, links)) => links,
    };
    let ghost views = links@.map_values(|l: ImportedSocialLink| l@);
    let mut out: Vec<String> = Vec::new();
    let mut i: usize = 0;
    assert(texts(out@) =~= icons_of(views).take(0));
    while i < links.len()
        invariant
            i <= links.len(),
            views == links@.map_values(|l: ImportedSocialLink| l@),
            texts(out@) == icons_of(views).take(i as int),
        decreases links.len() - i,
    {
        push_copy(&mut out, links[i].icon.as_str());
        i += 1;
        assert(icons_of(views).take(i as int) =~= icons_of(views).take(i - 1).push(
            links@[i - 1].icon@,
        ));
    }
    assert(icons_of(views).take(links@.len() as int) =~= icons_of(views));
    Ok(out)
}

/// The icon names of links.
pub open spec fn icons_of(links: Seq<LinkView>) -> Seq<Seq<char>> {
    links.map_values(|l: LinkView| l.icon)
}

/// A ConnectPage as it was read.
#[derive(Debug)]
pub struct ConnectPageSnapshot {
    pub texts: ConnectTexts,
    pub links: Vec<ImportedSocialLink>,
    /// How the paths of the files are written that the page was read from.
    pub resolved_files: Vec<String>,
    pub fingerprint: String,
}

/// The files of a ConnectPage: its source, and the files of its icons.
pub open spec fn connect_files(source: FoundFile, icons: Seq<FoundFile>, links: nat) -> Seq<
    FoundFile,
> {
    seq![source] + icons.take(
        if icons.len() <= links {
            icons.len() as int
        } else {
            links as int
        },
    )
}

/// How the paths of files are written.
pub open spec fn shown_paths(files: Seq<FoundFile>) -> Seq<Seq<char>> {
    files.map_values(|f: FoundFile| f.shown@)
}

/// Why a ConnectPage cannot be read, with the files of its icons or why there are
/// none.
pub open spec fn connect_page_fault(
    input: ConnectInput,
    icons: Result<Vec<FoundFile>, Diagnostic>,
) -> Option<DiagnosticView> {
    let s = connect_source(input);
    let links = connect_links(s, input.has_props)->Ok_0.len();
    first(
        connect_fault(input),
        match icons {
            Err(d) => Some(d@),
            Ok(files) => first(
                fault(connect_texts(s)),
                fault(fingerprint_of(connect_files(input.place.source, files@, links))),
            ),
        },
    )
}

fn show_paths(files: &Vec<&FoundFile>) -> (r: Vec<String>)
    ensures
        texts(r@) == shown_paths(referred(files@)),
{
    let ghost goal = shown_paths(referred(files@));
    let mut out: Vec<String> = Vec::new();
    let mut i: usize = 0;
    assert(texts(out@) =~= goal.take(0));
    while i < files.len()
        invariant
            i <= files.len(),
            goal == shown_paths(referred(files@)),
            texts(out@) == goal.take(i as int),
        decreases files.len() - i,
    {
        push_copy(&mut out, files[i].shown.as_str());
        i += 1;
        assert(goal.take(i as int) =~= goal.take(i - 1).push(files@[i - 1].shown@));
    }
    assert(goal.take(files@.len() as int) =~= goal);
    out
}

/// Reads a ConnectPage. `icons` holds the files of the icons that
/// [`connect_icon_names`] names, or why they could not be had.
pub fn read_connect_page(input: &ConnectInput, icons: Result<Vec<FoundFile>, Diagnostic>) -> (r:
    Result<ConnectPageSnapshot, Diagnostic>)
    ensures
        match r {
            Err(d) => connect_page_fault(*input, icons) == Some(d@),
            Ok(p) => {
                let s = connect_source(*input);
                let links = connect_links(s, input.has_props)->Ok_0;
                let files = connect_files(input.place.source, icons->Ok_0@, links.len());
                &&& connect_page_fault(*input, icons) is None
                &&& connect_texts(s) == Ok::<TextsView, DiagnosticView>(p.texts@)
                &&& p.links@.map_values(|l: ImportedSocialLink| l@) == links
                &&& texts(p.resolved_files@) == shown_paths(files)
                &&& fingerprint_of(files) == Ok::<Seq<char>, DiagnosticView>(p.fingerprint@)
            },
        },
{
    let (text, links) = match read_links(input) {
        Err(d) => {
            return Err(d);
        },
        Ok((text, links)) => (text, links),
    };
    assert(links@.map_values(|l: ImportedSocialLink| l@).len() == links@.len());
    let found = match icons {
        Err(d) => {
            return Err(d);
        },
        Ok(found) => found,
    };
    let page_texts = match read_connect_texts(text.as_str()) {
        Err(d) => {
            return Err(d);
        },
        Ok(t) => t,
    };
    let ghost goal = connect_files(input.place.source, found@, links@.len());
    let mut files: Vec<&FoundFile> = Vec::new();
    files.push(&input.place.source);
    assert(referred(files@) =~= goal.take(1));
    let n: usize = if found.len() <= links.len() {
        found.len()
    } else {
        links.len()
    };
    let mut i: usize = 0;
    while i < n
        invariant
            i <= n <= found.len(),
            goal.len() == n + 1,
            forall|j: int| 0 <= j < n ==> #[trigger] goal[j + 1] == found@[j],
            referred(files@) == goal.take(i + 1),
        decreases n - i,
    {
        let ghost before = files@;
        files.push(&found[i]);
        assert(goal[i + 1] == found@[i as int]);
        i += 1;
        assert(referred(files@) =~= referred(before).push(goal[i as int]));
        assert(goal.take(i + 1) =~= goal.take(i as int).push(goal[i as int]));
    }
    assert(goal.take(n + 1) =~= goal);
    let hash = match fingerprint(&files) {
        Err(d) => {
            return Err(d);
        },
        Ok(h) => h,
    };
    let resolved_files = show_paths(&files);
    Ok(ConnectPageSnapshot { texts: page_texts, links, resolved_files, fingerprint: hash })
}

/// The innermost root that contains a path.
pub open spec fn root_of(roots: Seq<Seq<Seq<char>>>, path: Seq<Seq<char>>) -> Seq<Seq<char>> {
    roots[choose|k: int| is_chosen_root(roots, path, k)]
}

pub proof fn lemma_root_of(roots: Seq<Seq<Seq<char>>>, path: Seq<Seq<char>>, k: int)
    requires
        is_chosen_root(roots, path, k),
    ensures
        root_of(roots, path) == roots[k],
        in_some_root(roots, path),
{
    let j = choose|j: int| is_chosen_root(roots, path, j);
    assert(is_chosen_root(roots, path, j));
    assert(inside(path, roots[j]) && inside(path, roots[k]));
}

/// The file of an icon, and the document in it or why it cannot be imported.
#[derive(Debug)]
pub struct AssetFile {
    pub file: FoundFile,
    pub document: Result<SvgDocument, String>,
}

/// Why an icon cannot be imported. `asset` is absent where no file was looked for.
pub open spec fn asset_fault(
    icon: Seq<char>,
    root: Seq<Seq<char>>,
    asset: Option<AssetFile>,
) -> Option<DiagnosticView> {
    match basename_of(icon) {
        Err(d) => Some(d),
        Ok(name) => match asset {
            None => asset_file_error(root, None, name, ""@),
            Some(a) => first(
                asset_file_error(root, path_option(a.file.path), name, a.file.shown@),
                first(
                    fault(found_text(a.file, "ASSET_READ"@, MAX_SVG_FILE_BYTES)),
                    match a.document {
                        Err(e) => Some(
                            diagnosed(
                                "ASSET_SVG_INVALID"@,
                                "local SVG could not be imported: "@ + e@,
                                a.file.shown@,
                            ),
                        ),
                        Ok(doc) => svg_error(doc, a.file.shown@),
                    },
                ),
            ),
        },
    }
}

/// What an optional reference refers to.
pub open spec fn asset_option(a: Option<&AssetFile>) -> Option<AssetFile> {
    match a {
        Some(a) => Some(*a),
        None => None,
    }
}

/// Checks the icon of a tile.
pub fn resolve_svg_asset(icon_url: &str, root: &Vec<String>, asset: Option<&AssetFile>) -> (r:
    Result<(), Diagnostic>)
    ensures
        match r {
            Ok(_) => asset_fault(icon_url@, texts(root@), asset_option(asset)) is None,
            Err(d) => asset_fault(icon_url@, texts(root@), asset_option(asset)) == Some(d@),
        },
{
    let name = match svg_asset_basename(icon_url) {
        Err(d) => {
            return Err(d);
        },
        Ok(n) => n,
    };
    let a = match asset {
        None => {
            return check_asset_file(root, &None, name.as_str(), "");
        },
        Some(a) => a,
    };
    match check_asset_file(root, &a.file.path, name.as_str(), a.file.shown.as_str()) {
        Err(d) => {
            return Err(d);
        },
        Ok(()) => {},
    }
    match read_found_text(&a.file, "ASSET_READ", MAX_SVG_FILE_BYTES) {
        Err(d) => {
            return Err(d);
        },
        Ok(_) => {},
    }
    match &a.document {
        Err(e) => Err(
            diag(
                "ASSET_SVG_INVALID",
                joined("local SVG could not be imported: ", e.as_str()).as_str(),
                a.file.shown.as_str(),
            ),
        ),
        Ok(doc) => validate_svg_document(doc, a.file.shown.as_str()),
    }
}

/// The asset at an index.
pub open spec fn asset_at(assets: Seq<AssetFile>, i: int) -> Option<AssetFile> {
    if i < assets.len() {
        Some(assets[i])
    } else {
        None
    }
}

/// The first fault of the icons of the first `n` tiles.
pub open spec fn assets_fault(
    tiles: Seq<TileView>,
    root: Seq<Seq<char>>,
    assets: Seq<AssetFile>,
    n: nat,
) -> Option<DiagnosticView>
    decreases n,
{
    if n == 0 {
        None
    } else {
        first(
            assets_fault(tiles, root, assets, (n - 1) as nat),
            asset_fault(tiles[n - 1].icon, root, asset_at(assets, n - 1)),
        )
    }
}

proof fn lemma_assets_fault(
    tiles: Seq<TileView>,
    root: Seq<Seq<char>>,
    assets: Seq<AssetFile>,
    m: nat,
    n: nat,
)
    requires
        m <= n,
        assets_fault(tiles, root, assets, m) is Some,
    ensures
        assets_fault(tiles, root, assets, n) == assets_fault(tiles, root, assets, m),
    decreases n,
{
    if m < n {
        lemma_assets_fault(tiles, root, assets, m, (n - 1) as nat);
    }
}

proof fn lemma_assets_found(
    tiles: Seq<TileView>,
    root: Seq<Seq<char>>,
    assets: Seq<AssetFile>,
    n: nat,
)
    requires
        assets_fault(tiles, root, assets, n) is None,
    ensures
        n <= assets.len(),
    decreases n,
{
    if n > 0 {
        lemma_assets_found(tiles, root, assets, (n - 1) as nat);
    }
}

/// What is asked of the files of an AppDirectory.
#[derive(Debug)]
pub struct DirectoryInput {
    pub export_name: Option<String>,
    /// How many module roots are given.
    pub module_roots: usize,
    pub place: SourcePlace,
    /// The catalog of the apps, the card module and the theme, below the innermost
    /// root that contains the source.
    pub catalog: FoundFile,
    pub card: FoundFile,
    pub theme: FoundFile,
    /// Where the icons lie.
    pub asset_root: Option<Vec<String>>,
    pub asset_root_shown: String,
}

impl DirectoryInput {
    /// The root that counts.
    pub open spec fn root(self) -> Seq<Seq<char>> {
        root_of(self.place.root_views(), self.place.resolved())
    }

    pub open spec fn page_text(self) -> Seq<char> {
        found_text(self.place.source, "SOURCE_READ"@, MAX_SOURCE_FILE_BYTES)->Ok_0
    }

    pub open spec fn catalog_text(self) -> Seq<char> {
        found_text(self.catalog, "IMPORT_READ"@, MAX_SOURCE_FILE_BYTES)->Ok_0
    }

    pub open spec fn card_text(self) -> Seq<char> {
        found_text(self.card, "CARD_PRIMITIVE_READ"@, MAX_SOURCE_FILE_BYTES)->Ok_0
    }

    pub open spec fn theme_text(self) -> Seq<char> {
        found_text(self.theme, "THEME_TOKENS_READ"@, MAX_SOURCE_FILE_BYTES)->Ok_0
    }
}

/// The fault of an allowlisted file that does not exist or lies outside the root.
pub open spec fn allowlisted_fault(
    root: Seq<Seq<char>>,
    resolved: Option<Seq<Seq<char>>>,
    relative: Seq<char>,
    code: Seq<char>,
) -> Option<DiagnosticView> {
    required_file(
        root,
        resolved,
        diagnosed(
            code + "_NOT_FOUND"@,
            "required allowlisted source file was not found"@,
            relative,
        ),
        diagnosed(
            code + "_OUTSIDE_ROOT"@,
            "required source file resolves outside module_roots"@,
            relative,
        ),
    )
}

/// The fault of the request and of the page's own source.
pub open spec fn directory_page_fault(input: DirectoryInput) -> Option<DiagnosticView> {
    let place = input.place;
    let text = found_text(place.source, "SOURCE_READ"@, MAX_SOURCE_FILE_BYTES);
    first(
        directory_request_error(
            place.source_path is Some,
            option_text(input.export_name),
            input.module_roots as nat,
        ),
        first(
            missing_root(place),
            first(
                source_fault(place, place.source.shown@),
                first(fault(text), source_error(input.page_text())),
            ),
        ),
    )
}

/// The fault of the modules that the page imports.
pub open spec fn directory_module_fault(input: DirectoryInput) -> Option<DiagnosticView> {
    let root = input.root();
    first(
        required_file(
            root,
            path_option(input.catalog.path),
            diagnosed(
                "IMPORT_UNRESOLVED"@,
                "pinned @bgch/waffle suiteApps module was not found"@,
                "@bgch/waffle"@,
            ),
            diagnosed(
                "IMPORT_OUTSIDE_ROOT"@,
                "resolved import is outside module_roots"@,
                "@bgch/waffle"@,
            ),
        ),
        first(
            fault(found_text(input.catalog, "IMPORT_READ"@, MAX_SOURCE_FILE_BYTES)),
            first(
                allowlisted_fault(
                    root,
                    path_option(input.card.path),
                    "packages/ui/src/card.jsx"@,
                    "CARD_PRIMITIVE"@,
                ),
                first(
                    fault(found_text(input.card, "CARD_PRIMITIVE_READ"@, MAX_SOURCE_FILE_BYTES)),
                    first(
                        allowlisted_fault(
                            root,
                            path_option(input.theme.path),
                            "packages/theme/tokens.css"@,
                            "THEME_TOKENS"@,
                        ),
                        fault(
                            found_text(input.theme, "THEME_TOKENS_READ"@, MAX_SOURCE_FILE_BYTES),
                        ),
                    ),
                ),
            ),
        ),
    )
}

/// Why the sources of an AppDirectory cannot be read.
pub open spec fn directory_fault(input: DirectoryInput) -> Option<DiagnosticView> {
    first(directory_page_fault(input), directory_module_fault(input))
}

/// `r` is what the grid of a page is read as.
#[verifier::opaque]
pub open spec fn grid_read(text: Seq<char>, r: Result<LayoutSpec, Diagnostic>) -> bool {
    match grid_classes(text) {
        Err(e) => r matches Err(d) && d@ == e,
        Ok(classes) => grid_result(classes, r),
    }
}

/// `r` is what the style of the tiles is read as.
#[verifier::opaque]
pub open spec fn style_read(
    text: Seq<char>,
    card: Seq<char>,
    r: Result<TileStyle, Diagnostic>,
) -> bool {
    match content_classes(text) {
        Err(e) => r matches Err(d) && d@ == e,
        Ok(classes) => match primitive_class_list(card, "CardContent"@) {
            Err(e) => r matches Err(d) && d@ == e,
            Ok(base) => tile_result(text, classes, base, card_primitive(card), r),
        },
    }
}

/// `r` is what the theme is read as.
#[verifier::opaque]
pub open spec fn theme_read(text: Seq<char>, r: Result<Theme, Diagnostic>) -> bool {
    match root_block(text) {
        Err(e) => r matches Err(d) && d@ == e,
        Ok(block) => match first_token_error(block) {
            Some(e) => r matches Err(d) && d@ == e,
            None => r matches Ok(t) && is_token_color(block, "card"@, t.card@) && is_token_color(
                block,
                "foreground"@,
                t.foreground@,
            ) && is_token_color(block, "muted-foreground"@, t.muted@) && is_token_color(
                block,
                "border"@,
                t.border@,
            ),
        },
    }
}

pub open spec fn has_grid(text: Seq<char>) -> bool {
    exists|g: LayoutSpec| grid_read(text, Ok::<LayoutSpec, Diagnostic>(g))
}

pub open spec fn has_style(text: Seq<char>, card: Seq<char>) -> bool {
    exists|t: TileStyle| style_read(text, card, Ok::<TileStyle, Diagnostic>(t))
}

pub open spec fn has_theme(text: Seq<char>) -> bool {
    exists|t: Theme| theme_read(text, Ok::<Theme, Diagnostic>(t))
}

/// What the sources of an AppDirectory say.
#[derive(Debug)]
pub struct DirectoryContent {
    pub layout: LayoutSpec,
    pub tile_style: TileStyle,
    pub source_theme: Theme,
    pub tiles: Vec<ImportedTile>,
}

/// `r` is what the sources of an AppDirectory are read as. The grid is asked before
/// the style, the style before the theme, and the theme before the catalog.
pub open spec fn directory_read(
    input: DirectoryInput,
    r: Result<DirectoryContent, Diagnostic>,
) -> bool {
    let text = input.page_text();
    let card = input.card_text();
    let theme = input.theme_text();
    let tiles = suite_apps(input.catalog_text());
    match r {
        Err(d) => {
            ||| directory_fault(input) == Some(d@)
            ||| {
                &&& directory_fault(input) is None
                &&& {
                    ||| grid_read(text, Err::<LayoutSpec, Diagnostic>(d))
                    ||| has_grid(text) && style_read(text, card, Err::<TileStyle, Diagnostic>(d))
                    ||| has_grid(text) && has_style(text, card) && theme_read(
                        theme,
                        Err::<Theme, Diagnostic>(d),
                    )
                    ||| has_grid(text) && has_style(text, card) && has_theme(theme) && fault(tiles)
                        == Some(d@)
                }
            }
        },
        Ok(c) => {
            &&& directory_fault(input) is None
            &&& grid_read(text, Ok::<LayoutSpec, Diagnostic>(c.layout))
            &&& style_read(text, card, Ok::<TileStyle, Diagnostic>(c.tile_style))
            &&& theme_read(theme, Ok::<Theme, Diagnostic>(c.source_theme))
            &&& tiles == Ok::<Seq<TileView>, DiagnosticView>(
                c.tiles@.map_values(|t: ImportedTile| t@),
            )
        },
    }
}

/// The texts of the modules that a page imports.
struct ModuleTexts {
    catalog: String,
    card: String,
    theme: String,
}

fn str_of(o: &Option<String>) -> (r: Option<&str>)
    ensures
        str_option(r) == option_text(*o),
{
    match o {
        Some(s) => Some(s.as_str()),
        None => None,
    }
}

pub(crate) fn copy_option(path: &Option<Vec<String>>) -> (r: Option<Vec<String>>)
    ensures
        path_option(r) == path_option(*path),
{
    match path {
        Some(p) => Some(copy_path(p)),
        None => None,
    }
}

/// The page's own text, and the index of the root that counts.
fn read_directory_page(input: &DirectoryInput) -> (r: Result<(String, usize), Diagnostic>)
    ensures
        match r {
            Err(d) => directory_page_fault(*input) == Some(d@),
            Ok((text, k)) => {
                &&& directory_page_fault(*input) is None
                &&& text@ == input.page_text()
                &&& input.place.roots is Some
                &&& k < input.place.roots->0@.len()
                &&& input.root() == texts(input.place.roots->0@[k as int]@)
            },
        },
{
    let export_name = str_of(&input.export_name);
    match check_directory_request(
        str_of(&input.place.source_path),
        export_name,
        input.module_roots,
    ) {
        Err(d) => {
            return Err(d);
        },
        Ok(()) => {},
    }
    let source_path = match &input.place.source_path {
        None => {
            return Err(diag("SOURCE_PATH", "source_path is required", ""));
        },
        Some(p) => p,
    };
    let roots = match &input.place.roots {
        None => {
            return Err(diag("MODULE_ROOTS", "a module root does not exist", "module_roots"));
        },
        Some(roots) => roots,
    };
    let source = &input.place.source;
    let path = match &source.path {
        None => {
            return Err(
                diag("SOURCE_NOT_FOUND", "source_path does not exist", source_path.as_str()),
            );
        },
        Some(p) => p,
    };
    let k: usize = match choose_root(roots, path) {
        None => {
            return Err(
                diag(
                    "SOURCE_OUTSIDE_ROOT",
                    "source_path must be inside module_roots",
                    source.shown.as_str(),
                ),
            );
        },
        Some(k) => k,
    };
    proof {
        lemma_root_of(path_views(roots@), texts(path@), k as int);
        assert(path_views(roots@)[k as int] == texts(roots@[k as int]@));
    }
    let text = match read_found_text(source, "SOURCE_READ", MAX_SOURCE_FILE_BYTES) {
        Err(d) => {
            return Err(d);
        },
        Ok(t) => t,
    };
    match check_app_directory(text.as_str()) {
        Err(d) => Err(d),
        Ok(()) => Ok((text, k)),
    }
}

fn read_directory_modules(input: &DirectoryInput, root: &Vec<String>) -> (r: Result<
    ModuleTexts,
    Diagnostic,
>)
    requires
        texts(root@) == input.root(),
    ensures
        match r {
            Err(d) => directory_module_fault(*input) == Some(d@),
            Ok(t) => {
                &&& directory_module_fault(*input) is None
                &&& t.catalog@ == input.catalog_text()
                &&& t.card@ == input.card_text()
                &&& t.theme@ == input.theme_text()
            },
        },
{
    match &input.catalog.path {
        None => {
            return Err(
                diag(
                    "IMPORT_UNRESOLVED",
                    "pinned @bgch/waffle suiteApps module was not found",
                    "@bgch/waffle",
                ),
            );
        },
        Some(p) => if !is_inside(p, root) {
            return Err(
                diag(
                    "IMPORT_OUTSIDE_ROOT",
                    "resolved import is outside module_roots",
                    "@bgch/waffle",
                ),
            );
        },
    }
    let catalog = match read_found_text(&input.catalog, "IMPORT_READ", MAX_SOURCE_FILE_BYTES) {
        Err(d) => {
            return Err(d);
        },
        Ok(t) => t,
    };
    match bounded_file(
        root,
        copy_option(&input.card.path),
        "packages/ui/src/card.jsx",
        "CARD_PRIMITIVE",
    ) {
        Err(d) => {
            return Err(d);
        },
        Ok(_) => {},
    }
    let card = match read_found_text(&input.card, "CARD_PRIMITIVE_READ", MAX_SOURCE_FILE_BYTES) {
        Err(d) => {
            return Err(d);
        },
        Ok(t) => t,
    };
    match bounded_file(
        root,
        copy_option(&input.theme.path),
        "packages/theme/tokens.css",
        "THEME_TOKENS",
    ) {
        Err(d) => {
            return Err(d);
        },
        Ok(_) => {},
    }
    let theme = match read_found_text(&input.theme, "THEME_TOKENS_READ", MAX_SOURCE_FILE_BYTES) {
        Err(d) => {
            return Err(d);
        },
        Ok(t) => t,
    };
    Ok(ModuleTexts { catalog, card, theme })
}

fn read_grid(text: &str) -> (r: Result<LayoutSpec, Diagnostic>)
    ensures
        grid_read(text@, r),
{
    proof {
        reveal(grid_read);
    }
    parse_grid_layout(text)
}

fn read_style(text: &str, card: &str) -> (r: Result<TileStyle, Diagnostic>)
    ensures
        style_read(text@, card@, r),
{
    proof {
        reveal(style_read);
    }
    parse_tile_style(text, card)
}

fn read_theme(text: &str) -> (r: Result<Theme, Diagnostic>)
    ensures
        theme_read(text@, r),
{
    proof {
        reveal(theme_read);
    }
    parse_light_theme(text)
}

/// Reads what the sources of an AppDirectory say; the icons of its tiles are not
/// looked at.
pub fn read_directory_content(input: &DirectoryInput) -> (r: Result<DirectoryContent, Diagnostic>)
    ensures
        directory_read(*input, r),
{
    let (text, k) = match read_directory_page(input) {
        Err(d) => {
            return Err(d);
        },
        Ok((text, k)) => (text, k),
    };
    let modules = match &input.place.roots {
        None => {
            return Err(diag("MODULE_ROOTS", "a module root does not exist", "module_roots"));
        },
        Some(roots) => match read_directory_modules(input, &roots[k]) {
            Err(d) => {
                return Err(d);
            },
            Ok(m) => m,
        },
    };
    let layout = match read_grid(text.as_str()) {
        Err(d) => {
            assert(grid_read(input.page_text(), Err::<LayoutSpec, Diagnostic>(d)));
            return Err(d);
        },
        Ok(v) => v,
    };
    assert(grid_read(input.page_text(), Ok::<LayoutSpec, Diagnostic>(layout)));
    let tile_style = match read_style(text.as_str(), modules.card.as_str()) {
        Err(d) => {
            assert(style_read(
                input.page_text(),
                input.card_text(),
                Err::<TileStyle, Diagnostic>(d),
            ));
            return Err(d);
        },
        Ok(v) => v,
    };
    assert(style_read(
        input.page_text(),
        input.card_text(),
        Ok::<TileStyle, Diagnostic>(tile_style),
    ));
    let source_theme = match read_theme(modules.theme.as_str()) {
        Err(d) => {
            assert(theme_read(input.theme_text(), Err::<Theme, Diagnostic>(d)));
            return Err(d);
        },
        Ok(v) => v,
    };
    assert(theme_read(input.theme_text(), Ok::<Theme, Diagnostic>(source_theme)));
    match parse_suite_apps(modules.catalog.as_str()) {
        Err(d) => Err(d),
        Ok(tiles) => Ok(DirectoryContent { layout, tile_style, source_theme, tiles }),
    }
}

/// The sources of an AppDirectory can be read.
pub open spec fn directory_readable(input: DirectoryInput) -> bool {
    exists|c: DirectoryContent| directory_read(input, Ok::<DirectoryContent, Diagnostic>(c))
}

/// The files of an AppDirectory.
pub open spec fn directory_files(input: DirectoryInput, assets: Seq<AssetFile>, tiles: nat) -> Seq<
    FoundFile,
> {
    seq![input.place.source, input.catalog, input.card, input.theme] + assets.take(
        tiles as int,
    ).map_values(|a: AssetFile| a.file)
}

/// The fault of the icons of an AppDirectory, or of the fingerprint.
pub open spec fn directory_asset_fault(input: DirectoryInput, assets: Seq<AssetFile>) -> Option<
    DiagnosticView,
> {
    let tiles = suite_apps(input.catalog_text())->Ok_0;
    match input.asset_root {
        None => Some(
            diagnosed(
                "ASSET_ROOT_NOT_FOUND"@,
                "allowlisted SVG asset root apps/core/public was not found"@,
                "apps/core/public"@,
            ),
        ),
        Some(at) => if !inside(texts(at@), input.root()) {
            Some(
                diagnosed(
                    "ASSET_ROOT_OUTSIDE_ROOT"@,
                    "allowlisted SVG asset root resolves outside module_roots"@,
                    input.asset_root_shown@,
                ),
            )
        } else {
            first(
                assets_fault(tiles, texts(at@), assets, tiles.len()),
                fault(fingerprint_of(directory_files(input, assets, tiles.len()))),
            )
        },
    }
}

/// An AppDirectory as it was read.
#[derive(Debug)]
pub struct ParsedPage {
    pub content: DirectoryContent,
    /// How the paths of the files are written that the page was read from.
    pub resolved_files: Vec<String>,
    pub fingerprint: String,
}

/// Checks the icons of an AppDirectory, and hashes its files.
fn finish_directory(
    input: &DirectoryInput,
    root: &Vec<String>,
    tiles: &Vec<ImportedTile>,
    assets: &Vec<AssetFile>,
) -> (r: Result<(Vec<String>, String), Diagnostic>)
    requires
        texts(root@) == input.root(),
        suite_apps(input.catalog_text())->Ok_0 == tiles@.map_values(|t: ImportedTile| t@),
    ensures
        match r {
            Err(d) => directory_asset_fault(*input, assets@) == Some(d@),
            Ok((resolved, hash)) => {
                let files = directory_files(*input, assets@, tiles@.len());
                &&& directory_asset_fault(*input, assets@) is None
                &&& texts(resolved@) == shown_paths(files)
                &&& fingerprint_of(files) == Ok::<Seq<char>, DiagnosticView>(hash@)
            },
        },
{
    let ghost views = tiles@.map_values(|t: ImportedTile| t@);
    let at = match &input.asset_root {
        None => {
            return Err(
                diag(
                    "ASSET_ROOT_NOT_FOUND",
                    "allowlisted SVG asset root apps/core/public was not found",
                    "apps/core/public",
                ),
            );
        },
        Some(at) => at,
    };
    if !is_inside(at, root) {
        return Err(
            diag(
                "ASSET_ROOT_OUTSIDE_ROOT",
                "allowlisted SVG asset root resolves outside module_roots",
                input.asset_root_shown.as_str(),
            ),
        );
    }
    let n: usize = tiles.len();
    let mut i: usize = 0;
    while i < n
        invariant
            i <= n,
            n == tiles.len(),
            views == tiles@.map_values(|t: ImportedTile| t@),
            views == suite_apps(input.catalog_text())->Ok_0,
            input.asset_root == Some(*at),
            inside(texts(at@), input.root()),
            assets_fault(views, texts(at@), assets@, i as nat) is None,
        decreases n - i,
    {
        assert(views[i as int] == tiles@[i as int]@);
        let asset: Option<&AssetFile> = if i < assets.len() {
            Some(&assets[i])
        } else {
            None
        };
        assert(asset_option(asset) == asset_at(assets@, i as int));
        match resolve_svg_asset(tiles[i].icon.as_str(), at, asset) {
            Err(d) => {
                proof {
                    lemma_assets_fault(
                        views,
                        texts(at@),
                        assets@,
                        (i + 1) as nat,
                        views.len(),
                    );
                }
                return Err(d);
            },
            Ok(()) => {},
        }
        i += 1;
    }
    proof {
        lemma_assets_found(views, texts(at@), assets@, n as nat);
    }
    let ghost goal = directory_files(*input, assets@, n as nat);
    let mut files: Vec<&FoundFile> = Vec::new();
    files.push(&input.place.source);
    files.push(&input.catalog);
    files.push(&input.card);
    files.push(&input.theme);
    assert(referred(files@) =~= goal.take(4));
    let mut j: usize = 0;
    while j < n
        invariant
            j <= n <= assets.len(),
            goal.len() == n + 4,
            forall|m: int| 0 <= m < n ==> #[trigger] goal[m + 4] == assets@[m].file,
            referred(files@) == goal.take(j + 4),
        decreases n - j,
    {
        let ghost before = files@;
        files.push(&assets[j].file);
        assert(goal[j + 4] == assets@[j as int].file);
        j += 1;
        assert(referred(files@) =~= referred(before).push(goal[j + 3]));
        assert(goal.take(j + 4) =~= goal.take(j + 3).push(goal[j + 3]));
    }
    assert(goal.take(n + 4) =~= goal);
    let hash = match fingerprint(&files) {
        Err(d) => {
            return Err(d);
        },
        Ok(h) => h,
    };
    let resolved_files = show_paths(&files);
    Ok((resolved_files, hash))
}

/// Reads an AppDirectory. `assets` holds the files of the icons of the tiles that
/// [`read_directory_content`] gives, in their order.
pub fn read_app_directory(input: &DirectoryInput, assets: &Vec<AssetFile>) -> (r: Result<
    ParsedPage,
    Diagnostic,
>)
    ensures
        match r {
            Err(d) => {
                ||| directory_read(*input, Err::<DirectoryContent, Diagnostic>(d))
                ||| directory_readable(*input) && directory_asset_fault(*input, assets@) == Some(
                    d@,
                )
            },
            Ok(p) => {
                let files = directory_files(*input, assets@, p.content.tiles@.len());
                &&& directory_read(*input, Ok::<DirectoryContent, Diagnostic>(p.content))
                &&& directory_asset_fault(*input, assets@) is None
                &&& texts(p.resolved_files@) == shown_paths(files)
                &&& fingerprint_of(files) == Ok::<Seq<char>, DiagnosticView>(p.fingerprint@)
            },
        },
{
    let content = match read_directory_content(input) {
        Err(d) => {
            return Err(d);
        },
        Ok(c) => c,
    };
    assert(directory_read(*input, Ok::<DirectoryContent, Diagnostic>(content)));
    let k: usize = match read_directory_page(input) {
        Err(d) => {
            return Err(d);
        },
        Ok((_, k)) => k,
    };
    let root = match &input.place.roots {
        None => {
            return Err(diag("MODULE_ROOTS", "a module root does not exist", "module_roots"));
        },
        Some(roots) => &roots[k],
    };
    match finish_directory(input, root, &content.tiles, assets) {
        Err(d) => Err(d),
        Ok((resolved_files, hash)) => Ok(ParsedPage { content, resolved_files, fingerprint: hash }),
    }
}

/// Reads an AppDirectory for the snapshot that its props ask for. The page is read
/// before the props are looked at.
pub fn read_directory_snapshot(
    input: &DirectoryInput,
    assets: &Vec<AssetFile>,
    props: &Option<Vec<(String, JsonFlag)>>,
) -> (r: Result<ParsedPage, Diagnostic>)
    ensures
        match r {
            Err(d) => {
                ||| directory_read(*input, Err::<DirectoryContent, Diagnostic>(d))
                ||| directory_readable(*input) && first(
                    directory_asset_fault(*input, assets@),
                    snapshot_props_error(prop_entries(*props)),
                ) == Some(d@)
            },
            Ok(p) => {
                let files = directory_files(*input, assets@, p.content.tiles@.len());
                &&& directory_read(*input, Ok::<DirectoryContent, Diagnostic>(p.content))
                &&& directory_asset_fault(*input, assets@) is None
                &&& snapshot_props_error(prop_entries(*props)) is None
                &&& texts(p.resolved_files@) == shown_paths(files)
                &&& fingerprint_of(files) == Ok::<Seq<char>, DiagnosticView>(p.fingerprint@)
            },
        },
{
    let page = match read_app_directory(input, assets) {
        Err(d) => {
            return Err(d);
        },
        Ok(p) => p,
    };
    assert(directory_read(*input, Ok::<DirectoryContent, Diagnostic>(page.content)));
    match check_snapshot_props(props) {
        Err(d) => Err(d),
        Ok(()) => Ok(page),
    }
}

} // verus!
