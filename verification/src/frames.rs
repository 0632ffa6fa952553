//! Chains of text frames: the text that overflows one frame goes on in the next.
use crate::scene::{
    around_text, find_node, has_node, named_id, position_of, resolve_node_id, Node, NodeKind,
};
use crate::typography::{find_text, quoted_name, quoted_text, target, text_error};
use vstd::prelude::*;

verus! {

/// The frames before and behind a frame.
#[derive(Debug, Clone, Copy, PartialEq, Eq, Structural)]
pub struct FrameLinks {
    pub prev: Option<u128>,
    pub next: Option<u128>,
}

/// A frame whose links are set.
#[derive(Debug, Clone, Copy, PartialEq, Eq, Structural)]
pub struct FrameEdit {
    pub position: usize,
    pub links: FrameLinks,
}

/// The links of a node.
pub open spec fn links_of(node: Node) -> FrameLinks {
    FrameLinks { prev: node.text.prev_frame, next: node.text.next_frame }
}

fn node_links(node: &Node) -> (r: FrameLinks)
    ensures
        r == links_of(*node),
{
    FrameLinks { prev: node.text.prev_frame, next: node.text.next_frame }
}

/// The links of all nodes.
pub open spec fn all_links(nodes: Seq<Node>) -> Seq<FrameLinks> {
    nodes.map_values(|n: Node| links_of(n))
}

/// The links after one edit after the other.
pub open spec fn edited(links: Seq<FrameLinks>, edits: Seq<FrameEdit>) -> Seq<FrameLinks>
    decreases edits.len(),
{
    if edits.len() == 0 {
        links
    } else {
        edited(links, edits.drop_last()).update(
            edits.last().position as int,
            edits.last().links,
        )
    }
}

/// Why two frames are not linked.
pub open spec fn link_error(nodes: Seq<Node>, from: Seq<char>, to: Seq<char>) -> Option<Seq<char>> {
    if named_id(nodes, from) is None {
        Some(quoted_name("Node"@, from, " not found."@))
    } else if named_id(nodes, to) is None {
        Some(quoted_name("Node"@, to, " not found."@))
    } else if named_id(nodes, from) == named_id(nodes, to) {
        Some("A text frame cannot be linked to itself."@)
    } else {
        match text_error(nodes, "Node"@, from) {
            Some(e) => Some(e),
            None => text_error(nodes, "Node"@, to),
        }
    }
}

/// The edits that link frame `t` behind frame `f`.
pub open spec fn link_edits(nodes: Seq<Node>, f: int, t: int) -> Seq<FrameEdit> {
    seq![
        FrameEdit {
            position: f as usize,
            links: FrameLinks { prev: links_of(nodes[f]).prev, next: Some(nodes[t].id) },
        },
        FrameEdit {
            position: t as usize,
            links: FrameLinks { prev: Some(nodes[f].id), next: links_of(nodes[t]).next },
        },
    ]
}

/// Links a text behind another one.
pub fn link_text_frames(nodes: &Vec<Node>, from: &str, to: &str) -> (r: Result<
    (Vec<FrameEdit>, String),
    String,
>)
    ensures
        match r {
            Err(e) => link_error(nodes@, from@, to@) == Some(e@),
            Ok((edits, m)) => link_error(nodes@, from@, to@) is None && edits@ == link_edits(
                nodes@,
                target(nodes@, from@),
                target(nodes@, to@),
            ) && m@ == quoted_name("Linked text frames:"@, from@, " → '"@) + to@ + "'."@,
        },
{
    let from_id = match resolve_node_id(nodes, from) {
        None => {
            return Err(quoted_text("Node", from, " not found."));
        },
        Some(id) => id,
    };
    let to_id = match resolve_node_id(nodes, to) {
        None => {
            return Err(quoted_text("Node", to, " not found."));
        },
        Some(id) => id,
    };
    if from_id == to_id {
        return Err("A text frame cannot be linked to itself.".to_owned());
    }
    let f: usize = match find_text(nodes, "Node", from) {
        Err(e) => {
            return Err(e);
        },
        Ok(k) => k,
    };
    let t: usize = match find_text(nodes, "Node", to) {
        Err(e) => {
            return Err(e);
        },
        Ok(k) => k,
    };
    let mut edits: Vec<FrameEdit> = Vec::new();
    edits.push(
        FrameEdit {
            position: f,
            links: FrameLinks { prev: nodes[f].text.prev_frame, next: Some(nodes[t].id) },
        },
    );
    edits.push(
        FrameEdit {
            position: t,
            links: FrameLinks { prev: Some(nodes[f].id), next: nodes[t].text.next_frame },
        },
    );
    assert(edits@ =~= link_edits(nodes@, f as int, t as int));
    let head = quoted_text("Linked text frames:", from, " → '");
    Ok((edits, around_text(head.as_str(), to, "'.")))
}

/// Why a frame is not unlinked.
pub open spec fn unlink_error(nodes: Seq<Node>, name: Seq<char>) -> Option<Seq<char>> {
    match text_error(nodes, "Node"@, name) {
        Some(e) => Some(e),
        None => {
            let links = links_of(nodes[target(nodes, name)]);
            if links.prev is None && links.next is None {
                Some(quoted_name("Node"@, name, " is not part of a text thread."@))
            } else {
                None
            }
        },
    }
}

/// What becomes of the frame before: nothing follows it. A node that is no text
/// stays as it is.
pub open spec fn ended(node: Node) -> FrameLinks {
    if node.kind == NodeKind::Text {
        FrameLinks { prev: links_of(node).prev, next: None }
    } else {
        links_of(node)
    }
}

/// What becomes of the frame behind: nothing precedes it. A node that is no text
/// stays as it is.
pub open spec fn begun(node: Node) -> FrameLinks {
    if node.kind == NodeKind::Text {
        FrameLinks { prev: None, next: links_of(node).next }
    } else {
        links_of(node)
    }
}

/// The edits that take frame `k` out of its chain: its own links, and those of
/// its neighbours as far as they exist. Every edit starts from the links as they
/// were.
pub open spec fn unlink_edits(nodes: Seq<Node>, k: int) -> Seq<FrameEdit> {
    let links = links_of(nodes[k]);
    let own = seq![
        FrameEdit { position: k as usize, links: FrameLinks { prev: None, next: None } },
    ];
    let before = match links.prev {
        Some(id) => if has_node(nodes, id) {
            own.push(
                FrameEdit {
                    position: position_of(nodes, id) as usize,
                    links: ended(nodes[position_of(nodes, id)]),
                },
            )
        } else {
            own
        },
        None => own,
    };
    match links.next {
        Some(id) => if has_node(nodes, id) {
            before.push(
                FrameEdit {
                    position: position_of(nodes, id) as usize,
                    links: begun(nodes[position_of(nodes, id)]),
                },
            )
        } else {
            before
        },
        None => before,
    }
}

/// Takes a text out of its chain.
pub fn unlink_text_frames(nodes: &Vec<Node>, name: &str) -> (r: Result<
    (Vec<FrameEdit>, String),
    String,
>)
    ensures
        match r {
            Err(e) => unlink_error(nodes@, name@) == Some(e@),
            Ok((edits, m)) => unlink_error(nodes@, name@) is None && edits@ == unlink_edits(
                nodes@,
                target(nodes@, name@),
            ) && m@ == quoted_name("Unlinked text frame"@, name@, "."@),
        },
{
    let k: usize = match find_text(nodes, "Node", name) {
        Err(e) => {
            return Err(e);
        },
        Ok(k) => k,
    };
    let links = node_links(&nodes[k]);
    if links.prev.is_none() && links.next.is_none() {
        return Err(quoted_text("Node", name, " is not part of a text thread."));
    }
    let mut edits: Vec<FrameEdit> = Vec::new();
    edits.push(FrameEdit { position: k, links: FrameLinks { prev: None, next: None } });
    if let Some(id) = links.prev {
        if let Some(p) = find_node(nodes, id) {
            let old = node_links(&nodes[p]);
            let new = if nodes[p].kind == NodeKind::Text {
                FrameLinks { prev: old.prev, next: None }
            } else {
                old
            };
            edits.push(FrameEdit { position: p, links: new });
        }
    }
    if let Some(id) = links.next {
        if let Some(n) = find_node(nodes, id) {
            let old = node_links(&nodes[n]);
            let new = if nodes[n].kind == NodeKind::Text {
                FrameLinks { prev: None, next: old.next }
            } else {
                old
            };
            edits.push(FrameEdit { position: n, links: new });
        }
    }
    assert(edits@ =~= unlink_edits(nodes@, k as int));
    Ok((edits, quoted_text("Unlinked text frame", name, ".")))
}

/// Linking two frames makes each the neighbour of the other, keeps their other
/// neighbours, and touches no other frame.
pub proof fn law_link_is_mutual(nodes: Seq<Node>, f: int, t: int)
    requires
        0 <= f < nodes.len(),
        0 <= t < nodes.len(),
        f != t,
        nodes.len() <= usize::MAX,
    ensures
        ({
            let after = edited(all_links(nodes), link_edits(nodes, f, t));
            &&& after.len() == nodes.len()
            &&& after[f] == (FrameLinks { prev: links_of(nodes[f]).prev, next: Some(nodes[t].id) })
            &&& after[t] == (FrameLinks { prev: Some(nodes[f].id), next: links_of(nodes[t]).next })
            &&& forall|i: int|
                0 <= i < nodes.len() && i != f && i != t ==> #[trigger] after[i] == links_of(
                    nodes[i],
                )
        }),
{
    let edits = link_edits(nodes, f, t);
    let links = all_links(nodes);
    assert(edits.drop_last().drop_last() =~= Seq::<FrameEdit>::empty());
    assert(edits.drop_last().last() == edits[0]);
    assert(edited(links, edits.drop_last().drop_last()) == links);
    assert(edited(links, edits.drop_last()) == links.update(f, edits[0].links));
}

/// A frame that is taken out of a chain of different frames has no neighbour any
/// more, and neither neighbour points to it.
pub proof fn law_unlinked_frame_is_free(nodes: Seq<Node>, k: int, p: int, n: int)
    requires
        0 <= k < nodes.len() <= usize::MAX,
        0 <= p < nodes.len(),
        0 <= n < nodes.len(),
        p != k,
        n != k,
        p != n,
        links_of(nodes[k]).prev == Some(nodes[p].id),
        links_of(nodes[k]).next == Some(nodes[n].id),
        position_of(nodes, nodes[p].id) == p,
        position_of(nodes, nodes[n].id) == n,
        nodes[p].kind == NodeKind::Text,
        nodes[n].kind == NodeKind::Text,
    ensures
        ({
            let after = edited(all_links(nodes), unlink_edits(nodes, k));
            &&& after[k] == (FrameLinks { prev: None, next: None })
            &&& after[p] == (FrameLinks { prev: links_of(nodes[p]).prev, next: None })
            &&& after[n] == (FrameLinks { prev: None, next: links_of(nodes[n]).next })
        }),
{
    let edits = unlink_edits(nodes, k);
    let links = all_links(nodes);
    assert(has_node(nodes, nodes[p].id));
    assert(has_node(nodes, nodes[n].id));
    assert(edits.len() == 3);
    let e2 = edits.drop_last();
    let e1 = e2.drop_last();
    assert(e1.drop_last() =~= Seq::<FrameEdit>::empty());
    assert(e1.last() == edits[0]);
    assert(e2.last() == edits[1]);
    assert(edited(links, e1.drop_last()) == links);
    assert(edited(links, e1) == links.update(k, edits[0].links));
    assert(edited(links, e2) == links.update(k, edits[0].links).update(p, edits[1].links));
}

} // verus!
