//! What a React import request asks for, and which requests are refused before
//! any file is read.
use crate::checkin::{entries, find_flag, find_other_key, first_other_key, lookup, JsonFlag};
use crate::css_tree::{css_of, jsx_to_css};
use crate::diagnostic::{
    diag, diagnosed, diagnostic_views, warn, warned, Diagnostic, DiagnosticView,
};
use crate::directory_plan::{groups, TileGroup, TileGroupView};
use crate::double::Double;
use crate::float::{from_count, whole};
use crate::plan::{
    choose_destination, destination_of, items, Destination, DestinationRequest, ItemView, PlanItem,
};
use crate::scene::copy_ids;
use crate::text::same_text;
use vstd::prelude::*;

verus! {

/// The inputs of a request, of which one may be given.
#[derive(Debug)]
pub struct ReactInput {
    pub source_path: Option<String>,
    pub jsx: Option<String>,
    pub has_source: bool,
    pub has_snapshot: bool,
}

/// What is done with a request.
#[derive(Debug)]
pub enum ReactAction {
    /// The file that `source_path` names is imported.
    ImportFile,
    /// The style sheet of the fragment is drawn.
    Draw { css: String },
    /// Nothing is done.
    Reject { message: String, diagnostics: Vec<Diagnostic>, contract_version: Option<u32> },
}

/// A rejection that says `message` and gives one diagnostic.
pub open spec fn rejects_with(
    a: ReactAction,
    message: Seq<char>,
    d: DiagnosticView,
    version: u32,
) -> bool {
    a matches ReactAction::Reject { message: m, diagnostics: ds, contract_version: v } && m@
        == message && ds@.len() == 1 && ds@[0]@ == d && v == Some(version)
}

/// `action` is what the request asks for.
pub open spec fn decided(input: ReactInput, action: ReactAction) -> bool {
    let legacy = input.has_source || input.has_snapshot;
    if input.source_path is Some && (input.jsx is Some || legacy) {
        rejects_with(
            action,
            "React source import rejected"@,
            diagnosed(
                "INPUT_CONFLICT"@,
                "source_path cannot be combined with jsx, source, or snapshot"@,
                "source_path"@,
            ),
            2,
        )
    } else if input.source_path is Some {
        action is ImportFile
    } else if legacy {
        rejects_with(
            action,
            "React source import rejected"@,
            diagnosed(
                "SOURCE_PATH_REQUIRED"@,
                "static React snapshots must name a local source_path and module_roots; inline source/snapshot input is not executable"@,
                "source_path"@,
            ),
            2,
        )
    } else {
        match input.jsx {
            None => action matches ReactAction::Reject {
                message: m,
                diagnostics: ds,
                contract_version: v,
            } && m@ == "provide exactly one supported input: jsx or source_path"@ && ds@.len() == 0
                && v is None,
            Some(jsx) => match css_of(jsx@, vstd::utf8::encode_utf8(jsx@).len() as int) {
                Ok(css) => action matches ReactAction::Draw { css: c } && c@ == css,
                Err(d) => rejects_with(action, "React component conversion rejected"@, d, 1),
            },
        }
    }
}

fn rejected(message: &str, d: Diagnostic, version: u32) -> (a: ReactAction)
    ensures
        rejects_with(a, message@, d@, version),
{
    let mut diagnostics: Vec<Diagnostic> = Vec::new();
    diagnostics.push(d);
    ReactAction::Reject {
        message: message.to_owned(),
        diagnostics,
        contract_version: Some(version),
    }
}

/// Decides what is done with a request.
pub fn create_vectors_from_react(input: &ReactInput) -> (action: ReactAction)
    ensures
        decided(*input, action),
{
    let legacy = input.has_source || input.has_snapshot;
    if input.source_path.is_some() && (input.jsx.is_some() || legacy) {
        return rejected(
            "React source import rejected",
            diag(
                "INPUT_CONFLICT",
                "source_path cannot be combined with jsx, source, or snapshot",
                "source_path",
            ),
            2,
        );
    }
    if input.source_path.is_some() {
        return ReactAction::ImportFile;
    }
    if legacy {
        return rejected(
            "React source import rejected",
            diag(
                "SOURCE_PATH_REQUIRED",
                "static React snapshots must name a local source_path and module_roots; inline source/snapshot input is not executable",
                "source_path",
            ),
            2,
        );
    }
    match &input.jsx {
        None => ReactAction::Reject {
            message: "provide exactly one supported input: jsx or source_path".to_owned(),
            diagnostics: Vec::new(),
            contract_version: None,
        },
        Some(jsx) => {
            match jsx_to_css(jsx.as_str()) {
                Ok(css) => ReactAction::Draw { css },
                Err(diagnostics) => ReactAction::Reject {
                    message: "React component conversion rejected".to_owned(),
                    diagnostics,
                    contract_version: Some(1),
                },
            }
        },
    }
}

/// The pages that can be imported from a file.
#[derive(Debug, Clone, Copy, PartialEq, Eq, Structural)]
pub enum PageKind {
    ModeSelector,
    ConnectPage,
    AppDirectory,
}

/// The least width and height of a page of this kind.
pub open spec fn least_size(kind: PageKind) -> (Double, Double) {
    match kind {
        PageKind::ModeSelector => (whole(500), whole(600)),
        PageKind::ConnectPage => (whole(480), whole(420)),
        PageKind::AppDirectory => (whole(240), whole(180)),
    }
}

/// What is said where a page of this kind has too little room.
pub open spec fn size_refusal(kind: PageKind) -> Seq<char> {
    match kind {
        PageKind::ModeSelector => "ModeSelector viewport must be finite and at least 500 by 600"@,
        PageKind::ConnectPage => "viewport must be finite and at least 480 by 420"@,
        PageKind::AppDirectory => "viewport must be finite and at least 240 by 180"@,
    }
}

/// What is said where a page of this kind has no place.
pub open spec fn origin_refusal(kind: PageKind) -> Seq<char> {
    match kind {
        PageKind::ModeSelector => "ModeSelector origin must be finite"@,
        _ => "origin must be finite"@,
    }
}

/// Where a page of this kind goes, or why it goes nowhere.
pub open spec fn page_destination_of(kind: PageKind, q: DestinationRequest) -> Result<
    Destination,
    Seq<char>,
> {
    destination_of(
        q,
        least_size(kind).0,
        least_size(kind).1,
        size_refusal(kind),
        origin_refusal(kind),
    )
}

/// Chooses where a page of this kind goes.
pub fn page_destination(kind: PageKind, q: &DestinationRequest) -> (r: Result<Destination, String>)
    ensures
        match r {
            Ok(d) => page_destination_of(kind, *q) == Ok::<Destination, Seq<char>>(d) && d.x.wf()
                && d.y.wf() && d.width.wf() && d.height.wf(),
            Err(e) => page_destination_of(kind, *q) == Err::<Destination, Seq<char>>(e@),
        },
{
    match kind {
        PageKind::ModeSelector => choose_destination(
            q,
            from_count(500),
            from_count(600),
            "ModeSelector viewport must be finite and at least 500 by 600",
            "ModeSelector origin must be finite",
        ),
        PageKind::ConnectPage => choose_destination(
            q,
            from_count(480),
            from_count(420),
            "viewport must be finite and at least 480 by 420",
            "origin must be finite",
        ),
        PageKind::AppDirectory => choose_destination(
            q,
            from_count(240),
            from_count(180),
            "viewport must be finite and at least 240 by 180",
            "origin must be finite",
        ),
    }
}

/// The name of the group of a page of this kind.
pub open spec fn group_title(kind: PageKind) -> Seq<char> {
    match kind {
        PageKind::ModeSelector => "BGCH Check-In ModeSelector"@,
        PageKind::ConnectPage => "One Day Dance ConnectPage"@,
        PageKind::AppDirectory => "React source snapshot"@,
    }
}

/// The name of the group of a page: the one that is asked for, or that of its kind.
pub fn page_group_name(kind: PageKind, asked: &Option<String>) -> (r: String)
    ensures
        r@ == match *asked {
            Some(name) => name@,
            None => group_title(kind),
        },
{
    match asked {
        Some(name) => name.as_str().to_owned(),
        None => {
            let title = match kind {
                PageKind::ModeSelector => "BGCH Check-In ModeSelector",
                PageKind::ConnectPage => "One Day Dance ConnectPage",
                PageKind::AppDirectory => "React source snapshot",
            };
            title.to_owned()
        },
    }
}

/// What is to be known of every page of this kind: the components of a ConnectPage that
/// are not drawn as they are.
pub open spec fn kind_warnings(kind: PageKind) -> Seq<DiagnosticView> {
    match kind {
        PageKind::ConnectPage => seq![
            warned(
                "STATIC_COMPONENT_FALLBACK"@,
                "SlotImage has no pinned asset in this source snapshot; the bounded importer used the source fallback background"@,
                "SlotImage"@,
            ),
            warned(
                "STATIC_COMPONENT_FALLBACK"@,
                "NewsletterSignupWidget is interactive; the bounded importer emitted a non-interactive editable field/button preview"@,
                "NewsletterSignupWidget"@,
            ),
        ],
        _ => Seq::empty(),
    }
}

/// The warnings about every page of this kind.
pub fn page_warnings(kind: PageKind) -> (r: Vec<Diagnostic>)
    ensures
        diagnostic_views(r@) == kind_warnings(kind),
{
    let mut out: Vec<Diagnostic> = Vec::new();
    if kind == PageKind::ConnectPage {
        out.push(
            warn(
                "STATIC_COMPONENT_FALLBACK",
                "SlotImage has no pinned asset in this source snapshot; the bounded importer used the source fallback background",
                "SlotImage",
            ),
        );
        out.push(
            warn(
                "STATIC_COMPONENT_FALLBACK",
                "NewsletterSignupWidget is interactive; the bounded importer emitted a non-interactive editable field/button preview",
                "NewsletterSignupWidget",
            ),
        );
    }
    assert(diagnostic_views(out@) =~= kind_warnings(kind));
    out
}

/// The page that an export name asks for; every other name is left to the
/// AppDirectory reader, which refuses it.
pub open spec fn page_of(export_name: Option<Seq<char>>) -> PageKind {
    if export_name == Some("ModeSelector"@) {
        PageKind::ModeSelector
    } else if export_name == Some("ConnectPage"@) {
        PageKind::ConnectPage
    } else {
        PageKind::AppDirectory
    }
}

pub open spec fn str_option(o: Option<&str>) -> Option<Seq<char>> {
    match o {
        Some(s) => Some(s@),
        None => None,
    }
}

pub fn page_kind(export_name: Option<&str>) -> (r: PageKind)
    ensures
        r == page_of(str_option(export_name)),
{
    match export_name {
        Some(name) => if same_text(name, "ModeSelector") {
            PageKind::ModeSelector
        } else if same_text(name, "ConnectPage") {
            PageKind::ConnectPage
        } else {
            PageKind::AppDirectory
        },
        None => PageKind::AppDirectory,
    }
}

/// Why an AppDirectory request is refused before any file is read.
pub open spec fn directory_request_error(
    has_source: bool,
    export_name: Option<Seq<char>>,
    roots: nat,
) -> Option<DiagnosticView> {
    if !has_source {
        Some(diagnosed("SOURCE_PATH"@, "source_path is required"@, ""@))
    } else if export_name != Some("AppDirectory"@) {
        Some(
            diagnosed(
                "STATIC_BRANCH_REQUIRED"@,
                "this bounded importer supports the static AppDirectory branch only; application roots with hooks, auth, or Firebase require a separately supplied static component branch"@,
                match export_name {
                    Some(name) => name,
                    None => ""@,
                },
            ),
        )
    } else if roots == 0 {
        Some(
            diagnosed("MODULE_ROOTS"@, "module_roots is required for file-backed import"@, ""@),
        )
    } else {
        None
    }
}

pub fn check_directory_request(
    source_path: Option<&str>,
    export_name: Option<&str>,
    module_roots: usize,
) -> (r: Result<(), Diagnostic>)
    ensures
        match r {
            Ok(_) => directory_request_error(
                source_path is Some,
                str_option(export_name),
                module_roots as nat,
            ) is None,
            Err(d) => directory_request_error(
                source_path is Some,
                str_option(export_name),
                module_roots as nat,
            ) == Some(d@),
        },
{
    if source_path.is_none() {
        return Err(diag("SOURCE_PATH", "source_path is required", ""));
    }
    let name = match export_name {
        Some(name) => name,
        None => "",
    };
    if export_name.is_none() || !same_text(name, "AppDirectory") {
        return Err(
            diag(
                "STATIC_BRANCH_REQUIRED",
                "this bounded importer supports the static AppDirectory branch only; application roots with hooks, auth, or Firebase require a separately supplied static component branch",
                name,
            ),
        );
    }
    if module_roots == 0 {
        return Err(
            diag("MODULE_ROOTS", "module_roots is required for file-backed import", ""),
        );
    }
    Ok(())
}

/// Why the props of an AppDirectory request are refused: only the super-admin
/// snapshot that is not loading is modelled, and no other prop.
pub open spec fn snapshot_props_error(
    props: Option<Seq<(Seq<char>, JsonFlag)>>,
) -> Option<DiagnosticView> {
    let es = match props {
        Some(es) => es,
        None => Seq::empty(),
    };
    match first_other_key(es, "isSuperAdmin"@, "loading"@) {
        Some(key) => Some(
            diagnosed(
                "SNAPSHOT_PROPS_UNSUPPORTED"@,
                "this bounded AppDirectory branch does not silently ignore props that change its visible tree"@,
                key,
            ),
        ),
        None => if lookup(es, "isSuperAdmin"@) != Some(JsonFlag::True) || lookup(es, "loading"@)
            != Some(JsonFlag::False) {
            Some(
                diagnosed(
                    "SNAPSHOT_PROPS"@,
                    "only the pinned AppDirectory super-admin non-loading snapshot is supported"@,
                    "props"@,
                ),
            )
        } else {
            None
        },
    }
}

/// The entries of an optional object.
pub open spec fn prop_entries(props: Option<Vec<(String, JsonFlag)>>) -> Option<
    Seq<(Seq<char>, JsonFlag)>,
> {
    match props {
        Some(v) => Some(entries(v@)),
        None => None,
    }
}

/// Checks the props of an AppDirectory request; `None` stands for props that are
/// absent or no object.
pub fn check_snapshot_props(props: &Option<Vec<(String, JsonFlag)>>) -> (r: Result<(), Diagnostic>)
    ensures
        match r {
            Ok(_) => snapshot_props_error(prop_entries(*props)) is None,
            Err(d) => snapshot_props_error(prop_entries(*props)) == Some(d@),
        },
{
    let refused = diag(
        "SNAPSHOT_PROPS",
        "only the pinned AppDirectory super-admin non-loading snapshot is supported",
        "props",
    );
    match props {
        None => Err(refused),
        Some(es) => {
            if let Some(key) = find_other_key(es, "isSuperAdmin", "loading") {
                return Err(
                    diag(
                        "SNAPSHOT_PROPS_UNSUPPORTED",
                        "this bounded AppDirectory branch does not silently ignore props that change its visible tree",
                        key.as_str(),
                    ),
                );
            }
            let admin = match find_flag(es, "isSuperAdmin") {
                Some(JsonFlag::True) => true,
                _ => false,
            };
            let loaded = match find_flag(es, "loading") {
                Some(JsonFlag::False) => true,
                _ => false,
            };
            if admin && loaded {
                Ok(())
            } else {
                Err(refused)
            }
        },
    }
}

/// A request that names a file and something else is refused whatever else it
/// says.
pub proof fn law_conflict_is_refused(input: ReactInput, action: ReactAction)
    requires
        decided(input, action),
        input.source_path is Some,
        input.jsx is Some || input.has_source || input.has_snapshot,
    ensures
        action is Reject,
{
}

/// A fragment is drawn only where it is the only input.
pub proof fn law_drawn_only_from_a_fragment(input: ReactInput, action: ReactAction)
    requires
        decided(input, action),
        action is Draw,
    ensures
        input.source_path is None,
        input.jsx is Some,
        !input.has_source,
        !input.has_snapshot,
{
}

/// A page as it is planned: as a list of items, or as tiles with a note below them.
#[derive(Debug)]
pub enum PagePlan {
    Items(Vec<PlanItem>),
    Tiles { tiles: Vec<TileGroup>, note: PlanItem },
}

/// An icon of the icon set: its name, and how many outlines it has.
#[derive(Debug)]
pub struct IconParts {
    pub name: String,
    pub outlines: usize,
}

/// How many outlines the first of the icons with this name has.
pub open spec fn outlines_of(icons: Seq<IconParts>, name: Seq<char>) -> nat
    decreases icons.len(),
{
    if icons.len() == 0 {
        0
    } else if icons[0].name@ == name {
        icons[0].outlines as nat
    } else {
        outlines_of(icons.skip(1), name)
    }
}

/// How many nodes an item becomes. An icon has a node for each of its outlines, a
/// picture one for each of its parts, and both a group round them; everything else
/// is one node.
pub open spec fn item_nodes(item: ItemView, icons: Seq<IconParts>, pictures: Seq<usize>) -> nat {
    match item {
        ItemView::Icon { name, x, y, size, color } => outlines_of(icons, name) + 1,
        ItemView::Image { index, x, y, size } => if index < pictures.len() {
            pictures[index as int] as nat + 1
        } else {
            1
        },
        _ => 1,
    }
}

/// How many nodes items become.
pub open spec fn items_nodes(
    all: Seq<ItemView>,
    icons: Seq<IconParts>,
    pictures: Seq<usize>,
) -> nat
    decreases all.len(),
{
    if all.len() == 0 {
        0
    } else {
        items_nodes(all.drop_last(), icons, pictures) + item_nodes(all.last(), icons, pictures)
    }
}

/// How many nodes tiles become: those of their items, and a group round each.
pub open spec fn tiles_nodes(
    tiles: Seq<TileGroupView>,
    icons: Seq<IconParts>,
    pictures: Seq<usize>,
) -> nat
    decreases tiles.len(),
{
    if tiles.len() == 0 {
        0
    } else {
        tiles_nodes(tiles.drop_last(), icons, pictures) + items_nodes(
            tiles.last().items,
            icons,
            pictures,
        ) + 1
    }
}

/// How many nodes a page becomes: those of its content, and the group of the page.
pub open spec fn planned_nodes(
    plan: PagePlan,
    icons: Seq<IconParts>,
    pictures: Seq<usize>,
) -> nat {
    match plan {
        PagePlan::Items(v) => items_nodes(items(v@), icons, pictures) + 1,
        PagePlan::Tiles { tiles, note } => tiles_nodes(groups(tiles@), icons, pictures)
            + item_nodes(note@, icons, pictures) + 1,
    }
}

/// What the sum of two counts is where it can be held, and else the greatest count.
fn count_more(a: usize, b: usize) -> (r: usize)
    ensures
        r == if a + b <= usize::MAX {
            a + b
        } else {
            usize::MAX as int
        },
{
    if a <= usize::MAX - b {
        a + b
    } else {
        usize::MAX
    }
}

/// A count, or the greatest one where it is more than can be held.
pub open spec fn held(n: nat) -> usize {
    if n <= usize::MAX {
        n as usize
    } else {
        usize::MAX
    }
}

fn count_outlines(icons: &Vec<IconParts>, name: &str) -> (r: usize)
    ensures
        r == outlines_of(icons@, name@),
{
    let mut i: usize = 0;
    assert(icons@.skip(0) =~= icons@);
    while i < icons.len()
        invariant
            i <= icons.len(),
            outlines_of(icons@, name@) == outlines_of(icons@.skip(i as int), name@),
        decreases icons.len() - i,
    {
        assert(icons@.skip(i as int)[0] == icons@[i as int]);
        assert(icons@.skip(i as int).skip(1) =~= icons@.skip(i + 1));
        if same_text(icons[i].name.as_str(), name) {
            return icons[i].outlines;
        }
        i += 1;
    }
    0
}

fn count_item(item: &PlanItem, icons: &Vec<IconParts>, pictures: &Vec<usize>) -> (r: usize)
    ensures
        r == held(item_nodes(item@, icons@, pictures@)),
{
    match item {
        PlanItem::Icon { name, x, y, size, color } => count_more(
            count_outlines(icons, name.as_str()),
            1,
        ),
        PlanItem::Image { index, x, y, size } => if *index < pictures.len() {
            count_more(pictures[*index], 1)
        } else {
            1
        },
        _ => 1,
    }
}

fn count_items(all: &Vec<PlanItem>, icons: &Vec<IconParts>, pictures: &Vec<usize>) -> (r: usize)
    ensures
        r == held(items_nodes(items(all@), icons@, pictures@)),
{
    let ghost views = items(all@);
    let mut n: usize = 0;
    let mut i: usize = 0;
    assert(views.take(0) =~= Seq::<ItemView>::empty());
    while i < all.len()
        invariant
            i <= all.len(),
            views == items(all@),
            n == held(items_nodes(views.take(i as int), icons@, pictures@)),
        decreases all.len() - i,
    {
        proof {
            assert(views.take(i + 1).drop_last() =~= views.take(i as int));
            assert(views.take(i + 1).last() == all@[i as int]@);
        }
        n = count_more(n, count_item(&all[i], icons, pictures));
        i += 1;
    }
    assert(views.take(views.len() as int) =~= views);
    n
}

fn count_tiles(tiles: &Vec<TileGroup>, icons: &Vec<IconParts>, pictures: &Vec<usize>) -> (r: usize)
    ensures
        r == held(tiles_nodes(groups(tiles@), icons@, pictures@)),
{
    let ghost views = groups(tiles@);
    let mut n: usize = 0;
    let mut i: usize = 0;
    assert(views.take(0) =~= Seq::<TileGroupView>::empty());
    while i < tiles.len()
        invariant
            i <= tiles.len(),
            views == groups(tiles@),
            n == held(tiles_nodes(views.take(i as int), icons@, pictures@)),
        decreases tiles.len() - i,
    {
        proof {
            assert(views.take(i + 1).drop_last() =~= views.take(i as int));
            assert(views.take(i + 1).last() == tiles@[i as int]@);
        }
        n = count_more(n, count_more(count_items(&tiles[i].items, icons, pictures), 1));
        i += 1;
    }
    assert(views.take(views.len() as int) =~= views);
    n
}

/// How many nodes a page becomes. `icons` tells how many outlines each icon has, and
/// `pictures` how many parts each picture has.
pub fn count_planned(plan: &PagePlan, icons: &Vec<IconParts>, pictures: &Vec<usize>) -> (r: usize)
    ensures
        r == held(planned_nodes(*plan, icons@, pictures@)),
        r > 0,
{
    match plan {
        PagePlan::Items(v) => count_more(count_items(v, icons, pictures), 1),
        PagePlan::Tiles { tiles, note } => count_more(
            count_more(count_tiles(tiles, icons, pictures), count_item(note, icons, pictures)),
            1,
        ),
    }
}

/// What is reported of an import.
#[derive(Debug)]
pub struct ImportReport {
    pub root_node_ids: Vec<u128>,
    pub created_node_ids: Vec<u128>,
    pub planned_node_count: usize,
    /// The nodes are added to the document.
    pub apply: bool,
    /// How many entries this adds to the history.
    pub entries: usize,
    pub message: String,
}

/// `r` is what is reported of the import of a page that becomes `planned` nodes.
pub open spec fn is_report(
    kind: PageKind,
    dry_run: bool,
    planned: nat,
    root: u128,
    ids: Seq<u128>,
    r: ImportReport,
) -> bool {
    &&& r.planned_node_count == held(planned)
    &&& r.apply == !dry_run
    &&& if dry_run {
        &&& r.root_node_ids@ == Seq::<u128>::empty()
        &&& r.created_node_ids@ == Seq::<u128>::empty()
        &&& r.entries == 0
        &&& r.message@ == "React source import plan"@
    } else {
        &&& r.root_node_ids@ == seq![root]
        &&& r.created_node_ids@ == ids
        &&& r.entries == 1
        &&& r.message@ == match kind {
            PageKind::AppDirectory => "Created editable vectors and text from React source snapshot"@,
            PageKind::ModeSelector => "Created editable Check-In vectors and text from React sources"@,
            PageKind::ConnectPage => "Created editable One Day Dance ConnectPage vectors from React sources"@,
        }
    }
}

/// Reports the import of a planned page whose nodes have the given ids. A dry run
/// tells how many nodes are planned and names none.
pub fn report_import(
    kind: PageKind,
    dry_run: bool,
    plan: &PagePlan,
    icons: &Vec<IconParts>,
    pictures: &Vec<usize>,
    root: u128,
    ids: &Vec<u128>,
) -> (r: ImportReport)
    ensures
        is_report(kind, dry_run, planned_nodes(*plan, icons@, pictures@), root, ids@, r),
        r.planned_node_count > 0,
{
    let planned_node_count: usize = count_planned(plan, icons, pictures);
    if dry_run {
        return ImportReport {
            root_node_ids: Vec::new(),
            created_node_ids: Vec::new(),
            planned_node_count,
            apply: false,
            entries: 0,
            message: "React source import plan".to_owned(),
        };
    }
    let message = match kind {
        PageKind::AppDirectory => "Created editable vectors and text from React source snapshot",
        PageKind::ModeSelector => "Created editable Check-In vectors and text from React sources",
        PageKind::ConnectPage => "Created editable One Day Dance ConnectPage vectors from React sources",
    };
    let mut roots: Vec<u128> = Vec::new();
    roots.push(root);
    ImportReport {
        root_node_ids: roots,
        created_node_ids: copy_ids(ids),
        planned_node_count,
        apply: true,
        entries: 1,
        message: message.to_owned(),
    }
}

/// A dry run adds nothing, not even to the history, and names no node. It plans at
/// least one node, and as many as the run that it stands for creates.
pub proof fn law_dry_run_makes_nothing(
    kind: PageKind,
    plan: PagePlan,
    icons: Seq<IconParts>,
    pictures: Seq<usize>,
    root: u128,
    ids: Seq<u128>,
    dry: ImportReport,
    run: ImportReport,
)
    requires
        ids.len() == planned_nodes(plan, icons, pictures) <= usize::MAX,
        is_report(kind, true, planned_nodes(plan, icons, pictures), root, ids, dry),
        is_report(kind, false, planned_nodes(plan, icons, pictures), root, ids, run),
    ensures
        !dry.apply,
        dry.entries == 0,
        dry.root_node_ids@.len() == 0,
        dry.created_node_ids@.len() == 0,
        dry.planned_node_count > 0,
        dry.planned_node_count == run.created_node_ids@.len(),
        run.entries == 1,
{
}

} // verus!
