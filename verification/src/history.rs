//! The history of a document: what an import does to the canvas, and how it is taken
//! back.
use crate::connect_plan::{Artboard, Growth};
use crate::double::Double;
use vstd::prelude::*;

verus! {

/// One step of an entry of the history. Each holds what it takes to undo it.
#[derive(Debug)]
pub enum Command {
    ResizeCanvas { from: (Double, Double), to: (Double, Double) },
    SetArtboards { was: Vec<Artboard>, becomes: Vec<Artboard> },
    /// New nodes on a layer, by their ids; all hang on the root.
    AddSubtree { layer: u128, root: u128, nodes: Vec<u128> },
}

#[verifier::ext_equal]
pub enum CommandView {
    ResizeCanvas { from: (Double, Double), to: (Double, Double) },
    SetArtboards { was: Seq<Artboard>, becomes: Seq<Artboard> },
    AddSubtree { layer: u128, root: u128, nodes: Seq<u128> },
}

impl View for Command {
    type V = CommandView;

    open spec fn view(&self) -> CommandView {
        match *self {
            Command::ResizeCanvas { from, to } => CommandView::ResizeCanvas { from, to },
            Command::SetArtboards { was, becomes } => CommandView::SetArtboards {
                was: was@,
                becomes: becomes@,
            },
            Command::AddSubtree { layer, root, nodes } => CommandView::AddSubtree {
                layer,
                root,
                nodes: nodes@,
            },
        }
    }
}

pub open spec fn command_views(v: Seq<Command>) -> Seq<CommandView> {
    v.map_values(|c: Command| c@)
}

/// What an import can change of a document: its size, its artboards and its nodes, in
/// the order in which they were added.
#[verifier::ext_equal]
pub struct CanvasView {
    pub size: (Double, Double),
    pub boards: Seq<Artboard>,
    pub nodes: Seq<u128>,
}

/// The nodes without the last `n`, which were added last.
pub open spec fn without_last(nodes: Seq<u128>, n: nat) -> Seq<u128> {
    if nodes.len() <= n {
        Seq::empty()
    } else {
        nodes.take(nodes.len() - n)
    }
}

/// The canvas after a step.
pub open spec fn after_command(c: CommandView, x: CanvasView) -> CanvasView {
    match c {
        CommandView::ResizeCanvas { from, to } => CanvasView { size: to, ..x },
        CommandView::SetArtboards { was, becomes } => CanvasView { boards: becomes, ..x },
        CommandView::AddSubtree { layer, root, nodes } => CanvasView { nodes: x.nodes + nodes, ..x },
    }
}

/// The canvas after a step is taken back.
pub open spec fn before_command(c: CommandView, x: CanvasView) -> CanvasView {
    match c {
        CommandView::ResizeCanvas { from, to } => CanvasView { size: from, ..x },
        CommandView::SetArtboards { was, becomes } => CanvasView { boards: was, ..x },
        CommandView::AddSubtree { layer, root, nodes } => CanvasView {
            nodes: without_last(x.nodes, nodes.len()),
            ..x
        },
    }
}

/// The canvas after all steps, in their order.
pub open spec fn after_all(cs: Seq<CommandView>, x: CanvasView) -> CanvasView
    decreases cs.len(),
{
    if cs.len() == 0 {
        x
    } else {
        after_command(cs.last(), after_all(cs.drop_last(), x))
    }
}

/// The canvas after all steps are taken back, the last one first.
pub open spec fn before_all(cs: Seq<CommandView>, x: CanvasView) -> CanvasView
    decreases cs.len(),
{
    if cs.len() == 0 {
        x
    } else {
        before_all(cs.drop_last(), before_command(cs.last(), x))
    }
}

/// A canvas with the entries of its history.
#[derive(Debug)]
pub struct Document {
    pub size: (Double, Double),
    pub boards: Vec<Artboard>,
    pub nodes: Vec<u128>,
    pub entries: Vec<Vec<Command>>,
}

#[verifier::ext_equal]
pub struct DocumentView {
    pub canvas: CanvasView,
    pub entries: Seq<Seq<CommandView>>,
}

pub open spec fn entry_views(v: Seq<Vec<Command>>) -> Seq<Seq<CommandView>> {
    v.map_values(|e: Vec<Command>| command_views(e@))
}

impl View for Document {
    type V = DocumentView;

    open spec fn view(&self) -> DocumentView {
        DocumentView {
            canvas: CanvasView { size: self.size, boards: self.boards@, nodes: self.nodes@ },
            entries: entry_views(self.entries@),
        }
    }
}

/// The document after steps that are made as one entry of the history.
pub open spec fn executed(x: DocumentView, cs: Seq<CommandView>) -> DocumentView {
    DocumentView { canvas: after_all(cs, x.canvas), entries: x.entries.push(cs) }
}

/// The document after the last entry of the history is taken back.
pub open spec fn undone(x: DocumentView) -> DocumentView {
    if x.entries.len() == 0 {
        x
    } else {
        DocumentView {
            canvas: before_all(x.entries.last(), x.canvas),
            entries: x.entries.drop_last(),
        }
    }
}

fn copy_boards(boards: &Vec<Artboard>) -> (r: Vec<Artboard>)
    ensures
        r@ == boards@,
{
    let mut out: Vec<Artboard> = Vec::new();
    let mut i: usize = 0;
    while i < boards.len()
        invariant
            i <= boards.len(),
            out@ == boards@.take(i as int),
        decreases boards.len() - i,
    {
        out.push(boards[i]);
        i += 1;
        assert(out@ =~= boards@.take(i as int));
    }
    assert(out@ =~= boards@);
    out
}

fn push_ids(out: &mut Vec<u128>, ids: &Vec<u128>)
    ensures
        final(out)@ == old(out)@ + ids@,
{
    let ghost start = out@;
    let mut i: usize = 0;
    assert(out@ =~= start + ids@.take(0));
    while i < ids.len()
        invariant
            i <= ids.len(),
            out@ == start + ids@.take(i as int),
        decreases ids.len() - i,
    {
        out.push(ids[i]);
        i += 1;
        assert(out@ =~= start + ids@.take(i as int));
    }
    assert(ids@.take(ids@.len() as int) =~= ids@);
}

impl Document {
    /// Makes the steps as one entry of the history.
    pub fn execute(&mut self, commands: Vec<Command>)
        ensures
            final(self)@ == executed(old(self)@, command_views(commands@)),
    {
        let ghost all = command_views(commands@);
        let ghost start = self@.canvas;
        let mut i: usize = 0;
        assert(all.take(0) =~= Seq::<CommandView>::empty());
        while i < commands.len()
            invariant
                i <= commands.len(),
                all == command_views(commands@),
                self@.canvas == after_all(all.take(i as int), start),
                self.entries == old(self).entries,
            decreases commands.len() - i,
        {
            proof {
                assert(all.take(i + 1).drop_last() =~= all.take(i as int));
                assert(all.take(i + 1).last() == commands@[i as int]@);
            }
            match &commands[i] {
                Command::ResizeCanvas { from, to } => {
                    self.size = *to;
                },
                Command::SetArtboards { was, becomes } => {
                    self.boards = copy_boards(becomes);
                },
                Command::AddSubtree { layer, root, nodes } => {
                    push_ids(&mut self.nodes, nodes);
                },
            }
            i += 1;
        }
        assert(all.take(all.len() as int) =~= all);
        let ghost before = self.entries@;
        self.entries.push(commands);
        assert(entry_views(self.entries@) =~= entry_views(before).push(all));
    }

    /// Takes the last entry of the history back, where there is one.
    pub fn undo(&mut self) -> (r: bool)
        ensures
            r == (old(self)@.entries.len() > 0),
            final(self)@ == undone(old(self)@),
    {
        let ghost before = self.entries@;
        match self.entries.pop() {
            None => {
                assert(entry_views(before).len() == before.len());
                false
            },
            Some(commands) => {
                let ghost all = command_views(commands@);
                let ghost start = self@.canvas;
                proof {
                    assert(entry_views(self.entries@) =~= entry_views(before).drop_last());
                    assert(entry_views(before).last() == all);
                }
                let ghost rest = self.entries;
                let mut n: usize = commands.len();
                assert(all.take(all.len() as int) =~= all);
                while n > 0
                    invariant
                        n <= commands.len(),
                        all == command_views(commands@),
                        before_all(all.take(n as int), self@.canvas) == before_all(all, start),
                        self.entries == rest,
                    decreases n,
                {
                    n -= 1;
                    proof {
                        assert(all.take(n + 1).drop_last() =~= all.take(n as int));
                        assert(all.take(n + 1).last() == commands@[n as int]@);
                    }
                    match &commands[n] {
                        Command::ResizeCanvas { from, to } => {
                            self.size = *from;
                        },
                        Command::SetArtboards { was, becomes } => {
                            self.boards = copy_boards(was);
                        },
                        Command::AddSubtree { layer, root, nodes } => {
                            let keep: usize = if self.nodes.len() <= nodes.len() {
                                0
                            } else {
                                self.nodes.len() - nodes.len()
                            };
                            let ghost all_nodes = self.nodes@;
                            self.nodes.truncate(keep);
                            assert(self.nodes@ =~= without_last(all_nodes, nodes@.len()));
                        },
                    }
                }
                true
            },
        }
    }
}

/// The steps of an import: the canvas is resized where it has to grow, then the
/// artboards are set where one has to, then the nodes are added.
pub open spec fn import_steps(
    size: (Double, Double),
    boards: Seq<Artboard>,
    growth: Option<Growth>,
    layer: u128,
    root: u128,
    nodes: Seq<u128>,
) -> Seq<CommandView> {
    let resized = match growth {
        Some(g) => if g.resize {
            seq![CommandView::ResizeCanvas { from: size, to: (g.width, g.height) }]
        } else {
            Seq::empty()
        },
        None => Seq::empty(),
    };
    let set = match growth {
        Some(g) => if g.set_boards {
            resized.push(CommandView::SetArtboards { was: boards, becomes: g.boards@ })
        } else {
            resized
        },
        None => resized,
    };
    set.push(CommandView::AddSubtree { layer, root, nodes })
}

/// The steps of an import, which are made as one entry of the history. Only a page
/// that does not fit makes the document grow.
pub fn import_commands(
    document: &Document,
    growth: &Option<Growth>,
    layer: u128,
    root: u128,
    ids: &Vec<u128>,
) -> (r: Vec<Command>)
    ensures
        command_views(r@) == import_steps(
            document.size,
            document.boards@,
            *growth,
            layer,
            root,
            ids@,
        ),
{
    let mut out: Vec<Command> = Vec::new();
    if let Some(g) = growth {
        if g.resize {
            out.push(Command::ResizeCanvas { from: document.size, to: (g.width, g.height) });
        }
        if g.set_boards {
            out.push(
                Command::SetArtboards {
                    was: copy_boards(&document.boards),
                    becomes: copy_boards(&g.boards),
                },
            );
        }
    }
    let mut nodes: Vec<u128> = Vec::new();
    push_ids(&mut nodes, ids);
    assert(nodes@ =~= ids@);
    out.push(Command::AddSubtree { layer, root, nodes });
    assert(command_views(out@) =~= import_steps(
        document.size,
        document.boards@,
        *growth,
        layer,
        root,
        ids@,
    ));
    out
}

/// An import is one entry of the history, and undoing that one entry gives back the
/// size, the artboards and the nodes of the document, and the history before it,
/// whatever they were.
pub proof fn law_import_is_undone_at_once(
    x: DocumentView,
    growth: Option<Growth>,
    layer: u128,
    root: u128,
    ids: Seq<u128>,
)
    ensures
        ({
            let steps = import_steps(x.canvas.size, x.canvas.boards, growth, layer, root, ids);
            &&& executed(x, steps).entries.len() == x.entries.len() + 1
            &&& undone(executed(x, steps)) == x
        }),
{
    let steps = import_steps(x.canvas.size, x.canvas.boards, growth, layer, root, ids);
    let done = executed(x, steps);
    reveal_with_fuel(after_all, 4);
    reveal_with_fuel(before_all, 4);
    assert(without_last(x.canvas.nodes + ids, ids.len()) =~= x.canvas.nodes);
    assert(done.entries.last() == steps);
    assert(done.entries.drop_last() =~= x.entries);
    assert(before_all(steps, done.canvas) =~= x.canvas);
}

} // verus!
