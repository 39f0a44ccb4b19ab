//! Resolution of a root work item's descendants, level by level, with one
//! bulk request per level. The requests themselves are made by the caller:
//! a `TreeResolver` says which identifiers to fetch next and takes in what
//! came back.
use vstd::prelude::*;

use crate::error::ClientError;
use crate::models::{ItemModel, RelationModel, WorkItem, item_models};
use crate::text::{last_path_segment, last_segment, parse_u32, parse_u32_spec, text_eq};

verus! {

/// Whether a relation links to a child.
pub open spec fn is_child(r: RelationModel) -> bool {
    r.relation_type == "Child"@
}

/// The identifier at the end of a relation's URL.
pub open spec fn relation_target(r: RelationModel) -> Option<u32> {
    parse_u32_spec(last_segment(r.url))
}

/// The identifiers that the child relations link to, in order; none where
/// the URL of a child relation does not end in an identifier.
pub open spec fn child_ids_spec(rels: Seq<RelationModel>) -> Option<Seq<u32>>
    decreases rels.len(),
{
    if rels.len() == 0 {
        Some(Seq::empty())
    } else {
        match child_ids_spec(rels.drop_last()) {
            None => None,
            Some(ids) => if is_child(rels.last()) {
                match relation_target(rels.last()) {
                    Some(id) => Some(ids.push(id)),
                    None => None,
                }
            } else {
                Some(ids)
            },
        }
    }
}

proof fn lemma_child_ids_prefix(rels: Seq<RelationModel>, k: int)
    requires
        0 <= k <= rels.len(),
        child_ids_spec(rels.subrange(0, k)) is None,
    ensures
        child_ids_spec(rels) is None,
    decreases rels.len() - k,
{
    if k < rels.len() {
        assert(rels.subrange(0, k + 1).drop_last() =~= rels.subrange(0, k));
        lemma_child_ids_prefix(rels, k + 1);
    } else {
        assert(rels.subrange(0, k) =~= rels);
    }
}

/// Whether some child relation of `rels` links to `id`.
pub open spec fn from_child_relation(rels: Seq<RelationModel>, id: u32) -> bool {
    exists|i: int| 0 <= i < rels.len() && is_child(#[trigger] rels[i]) && relation_target(rels[i]) == Some(id)
}

proof fn lemma_child_id_source(rels: Seq<RelationModel>, j: int)
    requires
        child_ids_spec(rels) is Some,
        0 <= j < child_ids_spec(rels).unwrap().len(),
    ensures
        exists|i: int|
            0 <= i < rels.len() && is_child(#[trigger] rels[i]) && relation_target(rels[i])
                == Some(child_ids_spec(rels).unwrap()[j]),
    decreases rels.len(),
{
    let init = rels.drop_last();
    let prev = child_ids_spec(init).unwrap();
    let ids = child_ids_spec(rels).unwrap();
    let last = rels.len() - 1;
    assert(rels.last() == rels[last]);
    if j < prev.len() {
        lemma_child_id_source(init, j);
        assert(ids[j] == prev[j]);
        let i = choose|i: int|
            0 <= i < init.len() && is_child(#[trigger] init[i]) && relation_target(init[i]) == Some(
                prev[j],
            );
        assert(rels[i] == init[i]);
    } else {
        assert(is_child(rels[last]));
        assert(relation_target(rels[last]) == Some(ids[j]));
    }
}

proof fn lemma_child_target_kept(rels: Seq<RelationModel>, i: int)
    requires
        child_ids_spec(rels) is Some,
        0 <= i < rels.len(),
        is_child(rels[i]),
    ensures
        relation_target(rels[i]) is Some,
        child_ids_spec(rels).unwrap().contains(relation_target(rels[i]).unwrap()),
    decreases rels.len(),
{
    let init = rels.drop_last();
    let prev = child_ids_spec(init).unwrap();
    let ids = child_ids_spec(rels).unwrap();
    let last = rels.len() - 1;
    assert(rels.last() == rels[last]);
    if i < last {
        assert(rels[i] == init[i]);
        lemma_child_target_kept(init, i);
        let k = choose|k: int| 0 <= k < prev.len() && prev[k] == relation_target(init[i]).unwrap();
        assert(ids[k] == prev[k]);
    } else {
        assert(ids[ids.len() - 1] == relation_target(rels[i]).unwrap());
    }
}

/// Resolving children keeps exactly the child relations: every identifier
/// comes from a relation of type `Child`, so no relation of another type
/// contributes one, and every child relation contributes its target.
pub proof fn lemma_child_ids_only_from_children(rels: Seq<RelationModel>)
    requires
        child_ids_spec(rels) is Some,
    ensures
        forall|j: int|
            0 <= j < child_ids_spec(rels).unwrap().len() ==> from_child_relation(
                rels,
                #[trigger] child_ids_spec(rels).unwrap()[j],
            ),
        forall|i: int|
            0 <= i < rels.len() && is_child(#[trigger] rels[i]) ==> child_ids_spec(
                rels,
            ).unwrap().contains(relation_target(rels[i]).unwrap()),
{
    assert forall|j: int| 0 <= j < child_ids_spec(rels).unwrap().len() implies from_child_relation(
        rels,
        #[trigger] child_ids_spec(rels).unwrap()[j],
    ) by {
        lemma_child_id_source(rels, j);
    }
    assert forall|i: int| 0 <= i < rels.len() && is_child(#[trigger] rels[i]) implies child_ids_spec(
        rels,
    ).unwrap().contains(relation_target(rels[i]).unwrap()) by {
        lemma_child_target_kept(rels, i);
    }
}

/// The identifiers of the children of `item`, in the order of its
/// relations. Relations of any other type are passed over; a child relation
/// whose URL does not end in an identifier is an integrity error.
pub fn child_ids(item: &WorkItem) -> (r: Result<Vec<u32>, ClientError>)
    ensures
        match child_ids_spec(item@.relations) {
            Some(ids) => r matches Ok(v) && v@ == ids,
            None => r matches Err(ClientError::DataIntegrity(u)) && exists|i: int|
                0 <= i < item@.relations.len() && is_child(#[trigger] item@.relations[i])
                    && relation_target(item@.relations[i]) is None && u@
                    == item@.relations[i].url,
        },
{
    let ghost rels = item@.relations;
    let mut ids: Vec<u32> = Vec::new();
    let mut i: usize = 0;
    while i < item.relations.len()
        invariant
            rels == item@.relations,
            i <= rels.len(),
            child_ids_spec(rels.subrange(0, i as int)) == Some(ids@),
        decreases rels.len() - i,
    {
        let rel = &item.relations[i];
        assert(rels[i as int] == rel@);
        assert(rels.subrange(0, i as int + 1).drop_last() =~= rels.subrange(0, i as int));
        assert(rels.subrange(0, i as int + 1).last() == rel@);
        if text_eq(rel.attributes.relation_type.as_str(), "Child") {
            match parse_u32(last_path_segment(rel.url.as_str())) {
                Some(id) => {
                    ids.push(id);
                },
                None => {
                    proof {
                        lemma_child_ids_prefix(rels, i as int + 1);
                    }
                    return Err(ClientError::DataIntegrity(rel.url.clone()));
                },
            }
        }
        i = i + 1;
    }
    assert(rels.subrange(0, i as int) =~= rels);
    Ok(ids)
}

/// Whether `item` is a feature, the kind of item that a diagram starts from.
pub fn is_feature(item: &WorkItem) -> (r: bool)
    ensures
        r == (item@.work_item_type == "Feature"@),
{
    text_eq(item.fields.work_item_type.as_str(), "Feature")
}

/// A node of a resolved tree: a work item and the identifier of its parent,
/// none for the root.
#[derive(Debug, Clone, PartialEq, Eq)]
pub struct TreeNode {
    pub item: WorkItem,
    pub parent: Option<u32>,
}

/// A node as plain values.
pub struct NodeModel {
    pub item: ItemModel,
    pub parent: Option<u32>,
}

impl View for TreeNode {
    type V = NodeModel;

    open spec fn view(&self) -> NodeModel {
        NodeModel { item: self.item@, parent: self.parent }
    }
}

/// The models of a sequence of nodes.
pub open spec fn node_models(s: Seq<TreeNode>) -> Seq<NodeModel> {
    s.map_values(|n: TreeNode| n@)
}

/// The item identifiers of a sequence of nodes, in order.
pub open spec fn node_ids(s: Seq<NodeModel>) -> Seq<u32> {
    s.map_values(|n: NodeModel| n.item.id)
}

/// The identifiers of pending `(identifier, parent)` entries.
pub open spec fn pending_ids(p: Seq<(u32, u32)>) -> Seq<u32> {
    p.map_values(|e: (u32, u32)| e.0)
}

/// The identifiers of the nodes whose parent is `parent`, in order.
pub open spec fn children_spec(nodes: Seq<NodeModel>, parent: u32) -> Seq<u32>
    decreases nodes.len(),
{
    if nodes.len() == 0 {
        Seq::empty()
    } else if nodes.last().parent == Some(parent) {
        children_spec(nodes.drop_last(), parent).push(nodes.last().item.id)
    } else {
        children_spec(nodes.drop_last(), parent)
    }
}

/// A tree laid out flat, parents first: the root comes first and has no
/// parent, no identifier occurs twice, and every other node's parent is an
/// earlier node.
pub open spec fn tree_wf(nodes: Seq<NodeModel>) -> bool {
    &&& nodes.len() >= 1
    &&& nodes[0].parent is None
    &&& node_ids(nodes).no_duplicates()
    &&& forall|i: int|
        1 <= i < nodes.len() ==> (#[trigger] nodes[i]).parent is Some && exists|j: int|
            0 <= j < i && nodes[j].item.id == nodes[i].parent.unwrap()
}

/// Whether a node of `nodes` with the identifier `parent` has a child
/// relation that links to `id`.
pub open spec fn linked_child(nodes: Seq<NodeModel>, parent: u32, id: u32) -> bool {
    exists|j: int|
        0 <= j < nodes.len() && (#[trigger] nodes[j]).item.id == parent && child_ids_spec(
            nodes[j].item.relations,
        ) is Some && child_ids_spec(nodes[j].item.relations).unwrap().contains(id)
}

/// Every node but the root is reached through a child relation of its
/// parent.
pub open spec fn tree_linked(nodes: Seq<NodeModel>) -> bool {
    forall|i: int|
        1 <= i < nodes.len() ==> linked_child(nodes, nodes[i].parent.unwrap(), (#[trigger] nodes[i]).item.id)
}

/// Every pending entry is a child, through a child relation, of its parent
/// node.
pub open spec fn pending_linked(nodes: Seq<NodeModel>, p: Seq<(u32, u32)>) -> bool {
    forall|k: int| 0 <= k < p.len() ==> linked_child(nodes, (#[trigger] p[k]).1, p[k].0)
}

/// The parent recorded for `id` among the pending entries.
pub open spec fn pending_parent(p: Seq<(u32, u32)>, id: u32) -> Option<u32>
    decreases p.len(),
{
    if p.len() == 0 {
        None
    } else {
        match pending_parent(p.drop_last(), id) {
            Some(x) => Some(x),
            None => if p.last().0 == id {
                Some(p.last().1)
            } else {
                None
            },
        }
    }
}

/// The nodes after the fetched `items` are taken in, in order: an item is
/// added where it was pending and is not in the tree yet.
pub open spec fn admitted(
    nodes: Seq<NodeModel>,
    pending: Seq<(u32, u32)>,
    items: Seq<ItemModel>,
) -> Seq<NodeModel>
    decreases items.len(),
{
    if items.len() == 0 {
        nodes
    } else {
        let prev = admitted(nodes, pending, items.drop_last());
        let w = items.last();
        match pending_parent(pending, w.id) {
            Some(p) => if node_ids(prev).contains(w.id) {
                prev
            } else {
                prev.push(NodeModel { item: w, parent: Some(p) })
            },
            None => prev,
        }
    }
}

/// `acc` with the children `cs` of `parent` that are neither `known` nor
/// already in `acc`.
pub open spec fn add_children(
    acc: Seq<(u32, u32)>,
    known: Seq<u32>,
    parent: u32,
    cs: Seq<u32>,
) -> Seq<(u32, u32)>
    decreases cs.len(),
{
    if cs.len() == 0 {
        acc
    } else {
        let a = add_children(acc, known, parent, cs.drop_last());
        let c = cs.last();
        if known.contains(c) || pending_ids(a).contains(c) {
            a
        } else {
            a.push((c, parent))
        }
    }
}

/// The entries to fetch after the nodes `fresh` came in, where `known` are
/// the identifiers in the tree; none where a child URL is broken.
pub open spec fn level_pending(known: Seq<u32>, fresh: Seq<NodeModel>) -> Option<
    Seq<(u32, u32)>,
>
    decreases fresh.len(),
{
    if fresh.len() == 0 {
        Some(Seq::empty())
    } else {
        match (
            level_pending(known, fresh.drop_last()),
            child_ids_spec(fresh.last().item.relations),
        ) {
            (Some(a), Some(cs)) => Some(add_children(a, known, fresh.last().item.id, cs)),
            _ => None,
        }
    }
}

/// A resolver's state as plain values.
pub struct ResolverModel {
    pub nodes: Seq<NodeModel>,
    pub pending: Seq<(u32, u32)>,
    pub depth: u32,
    pub max_depth: u32,
}

/// Pending entries name distinct items outside the tree, each with a parent
/// in it.
pub open spec fn pending_wf(p: Seq<(u32, u32)>, known: Seq<u32>) -> bool {
    &&& pending_ids(p).no_duplicates()
    &&& forall|k: int|
        0 <= k < p.len() ==> !known.contains((#[trigger] p[k]).0) && known.contains(p[k].1)
}

/// A well-formed resolution state: a well-formed tree whose nodes were all
/// reached through child relations, a level within the limit, and
/// well-formed pending entries, each named by a child relation.
pub open spec fn resolver_wf(m: ResolverModel) -> bool {
    &&& tree_wf(m.nodes)
    &&& tree_linked(m.nodes)
    &&& m.depth <= m.max_depth
    &&& pending_wf(m.pending, node_ids(m.nodes))
    &&& pending_linked(m.nodes, m.pending)
}

/// The state after one level's bulk response `items` is taken in; none
/// where a new item has a broken child URL.
pub open spec fn absorb_spec(m: ResolverModel, items: Seq<ItemModel>) -> Option<ResolverModel> {
    let nodes = admitted(m.nodes, m.pending, items);
    match level_pending(node_ids(nodes), nodes.subrange(m.nodes.len() as int, nodes.len() as int)) {
        Some(p) => Some(
            ResolverModel { nodes, pending: p, depth: (m.depth + 1) as u32, max_depth: m.max_depth },
        ),
        None => None,
    }
}

/// The state right after the root came in.
pub open spec fn start_spec(root: ItemModel, max_depth: u32) -> Option<ResolverModel> {
    let nodes = seq![NodeModel { item: root, parent: None }];
    match level_pending(node_ids(nodes), nodes) {
        Some(p) => Some(ResolverModel { nodes, pending: p, depth: 0, max_depth }),
        None => None,
    }
}

proof fn lemma_pending_parent_found(p: Seq<(u32, u32)>, id: u32)
    requires
        pending_parent(p, id) is Some,
    ensures
        exists|k: int| 0 <= k < p.len() && p[k] == (id, pending_parent(p, id).unwrap()),
    decreases p.len(),
{
    if pending_parent(p.drop_last(), id) is Some {
        lemma_pending_parent_found(p.drop_last(), id);
        let k = choose|k: int|
            0 <= k < p.drop_last().len() && p.drop_last()[k] == (
                id,
                pending_parent(p.drop_last(), id).unwrap(),
            );
        assert(p[k] == p.drop_last()[k]);
    } else {
        assert(p[p.len() - 1] == p.last());
    }
}

proof fn lemma_admitted(nodes: Seq<NodeModel>, pending: Seq<(u32, u32)>, items: Seq<ItemModel>)
    requires
        tree_wf(nodes),
        forall|k: int| 0 <= k < pending.len() ==> node_ids(nodes).contains((#[trigger] pending[k]).1),
    ensures
        admitted(nodes, pending, items).len() >= nodes.len(),
        admitted(nodes, pending, items).subrange(0, nodes.len() as int) == nodes,
        tree_wf(admitted(nodes, pending, items)),
    decreases items.len(),
{
    if items.len() > 0 {
        let prev = admitted(nodes, pending, items.drop_last());
        lemma_admitted(nodes, pending, items.drop_last());
        let w = items.last();
        if let Some(p) = pending_parent(pending, w.id) {
            if !node_ids(prev).contains(w.id) {
                let n = NodeModel { item: w, parent: Some(p) };
                let next = prev.push(n);
                lemma_pending_parent_found(pending, w.id);
                let k = choose|k: int| 0 <= k < pending.len() && pending[k] == (w.id, p);
                assert(node_ids(nodes).contains(pending[k].1));
                let j = choose|j: int| 0 <= j < node_ids(nodes).len() && node_ids(nodes)[j] == p;
                assert(prev[j] == prev.subrange(0, nodes.len() as int)[j]);
                assert(next[j].item.id == p);
                assert(node_ids(next) =~= node_ids(prev).push(w.id));
                assert forall|i: int| 1 <= i < next.len() implies (#[trigger] next[i]).parent is Some
                    && exists|j: int| 0 <= j < i && next[j].item.id == next[i].parent.unwrap() by {
                    if i < prev.len() {
                        assert(prev[i] == next[i]);
                        let jj = choose|jj: int| 0 <= jj < i && prev[jj].item.id == prev[i].parent.unwrap();
                        assert(next[jj] == prev[jj]);
                    } else {
                        assert(next[j].item.id == next[i].parent.unwrap());
                    }
                }
                assert(next.subrange(0, nodes.len() as int) =~= prev.subrange(0, nodes.len() as int));
                assert(next[0] == prev[0]);
            }
        }
    }
}

proof fn lemma_add_children(acc: Seq<(u32, u32)>, known: Seq<u32>, parent: u32, cs: Seq<u32>)
    requires
        pending_wf(acc, known),
        known.contains(parent),
    ensures
        pending_wf(add_children(acc, known, parent, cs), known),
    decreases cs.len(),
{
    if cs.len() > 0 {
        lemma_add_children(acc, known, parent, cs.drop_last());
        let a = add_children(acc, known, parent, cs.drop_last());
        let c = cs.last();
        if !(known.contains(c) || pending_ids(a).contains(c)) {
            let next = a.push((c, parent));
            assert(pending_ids(next) =~= pending_ids(a).push(c));
            assert forall|k: int| 0 <= k < next.len() implies !known.contains((#[trigger] next[k]).0)
                && known.contains(next[k].1) by {
                if k < a.len() {
                    assert(next[k] == a[k]);
                }
            }
        }
    }
}

proof fn lemma_level_pending(known: Seq<u32>, fresh: Seq<NodeModel>)
    requires
        forall|i: int| 0 <= i < fresh.len() ==> known.contains((#[trigger] fresh[i]).item.id),
    ensures
        level_pending(known, fresh) matches Some(p) ==> pending_wf(p, known),
    decreases fresh.len(),
{
    if fresh.len() == 0 {
        assert(pending_ids(Seq::<(u32, u32)>::empty()) =~= Seq::<u32>::empty());
    } else {
        let init = fresh.drop_last();
        assert forall|i: int| 0 <= i < init.len() implies known.contains((#[trigger] init[i]).item.id) by {
            assert(init[i] == fresh[i]);
        }
        lemma_level_pending(known, init);
        assert(known.contains(fresh[fresh.len() - 1].item.id));
        if let (Some(a), Some(cs)) = (level_pending(known, init), child_ids_spec(fresh.last().item.relations)) {
            lemma_add_children(a, known, fresh.last().item.id, cs);
        }
    }
}

proof fn lemma_linked_extend(a: Seq<NodeModel>, b: Seq<NodeModel>, parent: u32, id: u32)
    requires
        a.len() <= b.len(),
        b.subrange(0, a.len() as int) == a,
        linked_child(a, parent, id),
    ensures
        linked_child(b, parent, id),
{
    let j = choose|j: int|
        0 <= j < a.len() && (#[trigger] a[j]).item.id == parent && child_ids_spec(a[j].item.relations)
            is Some && child_ids_spec(a[j].item.relations).unwrap().contains(id);
    assert(b[j] == b.subrange(0, a.len() as int)[j]);
}

proof fn lemma_admitted_linked(nodes: Seq<NodeModel>, pending: Seq<(u32, u32)>, items: Seq<ItemModel>)
    requires
        tree_wf(nodes),
        tree_linked(nodes),
        pending_linked(nodes, pending),
        forall|k: int| 0 <= k < pending.len() ==> node_ids(nodes).contains((#[trigger] pending[k]).1),
    ensures
        tree_linked(admitted(nodes, pending, items)),
    decreases items.len(),
{
    if items.len() > 0 {
        let prev = admitted(nodes, pending, items.drop_last());
        lemma_admitted(nodes, pending, items.drop_last());
        lemma_admitted_linked(nodes, pending, items.drop_last());
        let w = items.last();
        if let Some(p) = pending_parent(pending, w.id) {
            if !node_ids(prev).contains(w.id) {
                let n = NodeModel { item: w, parent: Some(p) };
                let next = prev.push(n);
                assert(next.subrange(0, prev.len() as int) =~= prev);
                lemma_pending_parent_found(pending, w.id);
                let k = choose|k: int| 0 <= k < pending.len() && pending[k] == (w.id, p);
                assert(linked_child(nodes, pending[k].1, pending[k].0));
                lemma_linked_extend(nodes, prev, p, w.id);
                assert forall|i: int| 1 <= i < next.len() implies linked_child(
                    next,
                    next[i].parent.unwrap(),
                    (#[trigger] next[i]).item.id,
                ) by {
                    if i < prev.len() {
                        assert(next[i] == prev[i]);
                        assert(linked_child(prev, prev[i].parent.unwrap(), prev[i].item.id));
                    }
                    lemma_linked_extend(prev, next, next[i].parent.unwrap(), next[i].item.id);
                }
            }
        }
    }
}

proof fn lemma_add_children_linked(
    acc: Seq<(u32, u32)>,
    known: Seq<u32>,
    parent: u32,
    cs: Seq<u32>,
    nodes: Seq<NodeModel>,
)
    requires
        pending_linked(nodes, acc),
        forall|i: int| 0 <= i < cs.len() ==> linked_child(nodes, parent, #[trigger] cs[i]),
    ensures
        pending_linked(nodes, add_children(acc, known, parent, cs)),
    decreases cs.len(),
{
    if cs.len() > 0 {
        let init = cs.drop_last();
        assert forall|i: int| 0 <= i < init.len() implies linked_child(nodes, parent, #[trigger] init[i]) by {
            assert(init[i] == cs[i]);
        }
        lemma_add_children_linked(acc, known, parent, init, nodes);
        let a = add_children(acc, known, parent, init);
        let c = cs.last();
        assert(linked_child(nodes, parent, cs[cs.len() - 1]));
        if !(known.contains(c) || pending_ids(a).contains(c)) {
            let next = a.push((c, parent));
            assert forall|k: int| 0 <= k < next.len() implies linked_child(nodes, (#[trigger] next[k]).1, next[k].0) by {
                if k < a.len() {
                    assert(next[k] == a[k]);
                }
            }
        }
    }
}

proof fn lemma_level_pending_linked(known: Seq<u32>, fresh: Seq<NodeModel>, nodes: Seq<NodeModel>)
    requires
        forall|i: int|
            0 <= i < fresh.len() ==> exists|j: int| 0 <= j < nodes.len() && nodes[j] == #[trigger] fresh[i],
    ensures
        level_pending(known, fresh) matches Some(p) ==> pending_linked(nodes, p),
    decreases fresh.len(),
{
    if fresh.len() > 0 {
        let init = fresh.drop_last();
        assert forall|i: int| 0 <= i < init.len() implies exists|j: int|
            0 <= j < nodes.len() && nodes[j] == #[trigger] init[i] by {
            assert(init[i] == fresh[i]);
        }
        lemma_level_pending_linked(known, init, nodes);
        let last = fresh.last();
        assert(last == fresh[fresh.len() - 1]);
        if let (Some(a), Some(cs)) = (level_pending(known, init), child_ids_spec(last.item.relations)) {
            let j = choose|j: int| 0 <= j < nodes.len() && nodes[j] == fresh[fresh.len() - 1];
            assert forall|i: int| 0 <= i < cs.len() implies linked_child(nodes, last.item.id, #[trigger] cs[i]) by {
                assert(cs.contains(cs[i]));
                assert(nodes[j].item.id == last.item.id);
            }
            lemma_add_children_linked(a, known, last.item.id, cs, nodes);
        }
    }
}

/// Each step of the resolution keeps the tree well formed, with every
/// identifier at most once, and comes one level nearer to the depth limit,
/// so that a resolution over cyclic relations still ends.
pub proof fn lemma_absorb_preserves_wf(m: ResolverModel, items: Seq<ItemModel>)
    requires
        resolver_wf(m),
        m.depth < m.max_depth,
    ensures
        absorb_spec(m, items) matches Some(n) ==> resolver_wf(n) && n.max_depth == m.max_depth
            && n.max_depth - n.depth < m.max_depth - m.depth,
{
    assert forall|k: int| 0 <= k < m.pending.len() implies node_ids(m.nodes).contains((#[trigger] m.pending[k]).1) by {}
    lemma_admitted(m.nodes, m.pending, items);
    let nodes = admitted(m.nodes, m.pending, items);
    let fresh = nodes.subrange(m.nodes.len() as int, nodes.len() as int);
    assert forall|i: int| 0 <= i < fresh.len() implies node_ids(nodes).contains((#[trigger] fresh[i]).item.id) by {
        assert(node_ids(nodes)[m.nodes.len() + i] == fresh[i].item.id);
    }
    lemma_level_pending(node_ids(nodes), fresh);
    lemma_admitted_linked(m.nodes, m.pending, items);
    assert forall|i: int| 0 <= i < fresh.len() implies exists|j: int|
        0 <= j < nodes.len() && nodes[j] == #[trigger] fresh[i] by {
        assert(nodes[m.nodes.len() + i] == fresh[i]);
    }
    lemma_level_pending_linked(node_ids(nodes), fresh, nodes);
}

/// The state that resolution starts from is well formed.
pub proof fn lemma_start_wf(root: ItemModel, max_depth: u32)
    ensures
        start_spec(root, max_depth) matches Some(m) ==> resolver_wf(m),
{
    let nodes = seq![NodeModel { item: root, parent: None }];
    assert(node_ids(nodes) =~= seq![root.id]);
    assert(node_ids(nodes)[0] == nodes[0].item.id);
    assert(node_ids(nodes).contains(nodes[0].item.id));
    lemma_level_pending(node_ids(nodes), nodes);
    assert forall|i: int| 0 <= i < nodes.len() implies exists|j: int|
        0 <= j < nodes.len() && nodes[j] == #[trigger] nodes[i] by {}
    lemma_level_pending_linked(node_ids(nodes), nodes, nodes);
}

/// Whether a node of `nodes` holds the item `id`.
fn tree_contains(nodes: &Vec<TreeNode>, id: u32) -> (r: bool)
    ensures
        r == node_ids(node_models(nodes@)).contains(id),
{
    let ghost ids = node_ids(node_models(nodes@));
    let mut i: usize = 0;
    while i < nodes.len()
        invariant
            i <= nodes@.len(),
            ids == node_ids(node_models(nodes@)),
            forall|j: int| 0 <= j < i ==> ids[j] != id,
        decreases nodes@.len() - i,
    {
        assert(ids[i as int] == nodes@[i as int].item.id);
        if nodes[i].item.id == id {
            return true;
        }
        i = i + 1;
    }
    false
}

/// Whether an entry of `p` is pending for `id`.
fn pending_contains(p: &Vec<(u32, u32)>, id: u32) -> (r: bool)
    ensures
        r == pending_ids(p@).contains(id),
{
    let ghost ids = pending_ids(p@);
    let mut i: usize = 0;
    while i < p.len()
        invariant
            i <= p@.len(),
            ids == pending_ids(p@),
            forall|j: int| 0 <= j < i ==> ids[j] != id,
        decreases p@.len() - i,
    {
        assert(ids[i as int] == p@[i as int].0);
        if p[i].0 == id {
            return true;
        }
        i = i + 1;
    }
    false
}

/// The parent recorded for `id` among the pending entries `p`.
fn find_pending_parent(p: &Vec<(u32, u32)>, id: u32) -> (r: Option<u32>)
    ensures
        r == pending_parent(p@, id),
{
    let mut i: usize = 0;
    while i < p.len()
        invariant
            i <= p@.len(),
            pending_parent(p@.subrange(0, i as int), id) is None,
        decreases p@.len() - i,
    {
        let ghost pre = p@.subrange(0, i as int + 1);
        assert(pre.drop_last() =~= p@.subrange(0, i as int));
        assert(pre.last() == p@[i as int]);
        if p[i].0 == id {
            proof {
                lemma_pending_parent_prefix(p@, i as int + 1, id);
            }
            return Some(p[i].1);
        }
        i = i + 1;
    }
    assert(p@.subrange(0, i as int) =~= p@);
    None
}

proof fn lemma_pending_parent_prefix(p: Seq<(u32, u32)>, k: int, id: u32)
    requires
        0 <= k <= p.len(),
        pending_parent(p.subrange(0, k), id) is Some,
    ensures
        pending_parent(p, id) == pending_parent(p.subrange(0, k), id),
    decreases p.len() - k,
{
    if k < p.len() {
        assert(p.subrange(0, k + 1).drop_last() =~= p.subrange(0, k));
        lemma_pending_parent_prefix(p, k + 1, id);
    } else {
        assert(p.subrange(0, k) =~= p);
    }
}

/// Adds to `next` the children `cs` of `parent` that are neither in the
/// tree `nodes` nor pending already.
fn push_children(next: &mut Vec<(u32, u32)>, nodes: &Vec<TreeNode>, parent: u32, cs: &Vec<u32>)
    ensures
        final(next)@ == add_children(old(next)@, node_ids(node_models(nodes@)), parent, cs@),
{
    let ghost known = node_ids(node_models(nodes@));
    let ghost start = next@;
    let mut i: usize = 0;
    while i < cs.len()
        invariant
            i <= cs@.len(),
            known == node_ids(node_models(nodes@)),
            next@ == add_children(start, known, parent, cs@.subrange(0, i as int)),
        decreases cs@.len() - i,
    {
        let ghost pre = cs@.subrange(0, i as int + 1);
        assert(pre.drop_last() =~= cs@.subrange(0, i as int));
        assert(pre.last() == cs@[i as int]);
        let c = cs[i];
        if !tree_contains(nodes, c) && !pending_contains(next, c) {
            next.push((c, parent));
        }
        i = i + 1;
    }
    assert(cs@.subrange(0, i as int) =~= cs@);
}

proof fn lemma_level_pending_prefix(known: Seq<u32>, fresh: Seq<NodeModel>, k: int)
    requires
        0 <= k <= fresh.len(),
        level_pending(known, fresh.subrange(0, k)) is None,
    ensures
        level_pending(known, fresh) is None,
    decreases fresh.len() - k,
{
    if k < fresh.len() {
        assert(fresh.subrange(0, k + 1).drop_last() =~= fresh.subrange(0, k));
        lemma_level_pending_prefix(known, fresh, k + 1);
    } else {
        assert(fresh.subrange(0, k) =~= fresh);
    }
}

/// The entries to fetch after the nodes from `from` on came in.
fn level_pending_exec(nodes: &Vec<TreeNode>, from: usize) -> (r: Result<Vec<(u32, u32)>, ClientError>)
    requires
        from <= nodes@.len(),
    ensures
        match level_pending(
            node_ids(node_models(nodes@)),
            node_models(nodes@).subrange(from as int, nodes@.len() as int),
        ) {
            Some(p) => r matches Ok(v) && v@ == p,
            None => r matches Err(ClientError::DataIntegrity(_)),
        },
{
    let ghost known = node_ids(node_models(nodes@));
    let ghost fresh = node_models(nodes@).subrange(from as int, nodes@.len() as int);
    let mut next: Vec<(u32, u32)> = Vec::new();
    let mut k: usize = from;
    while k < nodes.len()
        invariant
            from <= k <= nodes@.len(),
            known == node_ids(node_models(nodes@)),
            fresh == node_models(nodes@).subrange(from as int, nodes@.len() as int),
            level_pending(known, fresh.subrange(0, k - from)) == Some(next@),
        decreases nodes@.len() - k,
    {
        let ghost pre = fresh.subrange(0, k - from + 1);
        assert(pre.drop_last() =~= fresh.subrange(0, k - from));
        assert(pre.last() == nodes@[k as int]@);
        match child_ids(&nodes[k].item) {
            Ok(cs) => {
                push_children(&mut next, nodes, nodes[k].item.id, &cs);
            },
            Err(e) => {
                proof {
                    lemma_level_pending_prefix(known, fresh, k - from + 1);
                }
                return Err(e);
            },
        }
        k = k + 1;
    }
    assert(fresh.subrange(0, k - from) =~= fresh);
    Ok(next)
}

/// A resolved tree of work items, laid out flat with parents first: the root
/// comes first, and each other node names its parent.
#[derive(Debug, Clone, PartialEq, Eq)]
pub struct WorkItemTree {
    nodes: Vec<TreeNode>,
}

impl View for WorkItemTree {
    type V = Seq<NodeModel>;

    closed spec fn view(&self) -> Seq<NodeModel> {
        node_models(self.nodes@)
    }
}

impl WorkItemTree {
    pub open spec fn wf(&self) -> bool {
        tree_wf(self@) && tree_linked(self@)
    }

    /// The root item.
    pub fn root(&self) -> (r: &WorkItem)
        requires
            self.wf(),
        ensures
            r@ == self@[0].item,
    {
        &self.nodes[0].item
    }

    /// The nodes, parents first.
    pub fn nodes(&self) -> (r: &Vec<TreeNode>)
        ensures
            node_models(r@) == self@,
    {
        &self.nodes
    }
    /// The identifiers of the direct children of the node `parent`, in the
    /// order in which they were resolved.
    pub fn children_of(&self, parent: u32) -> (r: Vec<u32>)
        ensures
            r@ == children_spec(self@, parent),
    {
        let ghost all = node_models(self.nodes@);
        let mut out: Vec<u32> = Vec::new();
        let mut i: usize = 0;
        while i < self.nodes.len()
            invariant
                i <= self.nodes@.len(),
                all == node_models(self.nodes@),
                out@ == children_spec(all.subrange(0, i as int), parent),
            decreases self.nodes@.len() - i,
        {
            let ghost pre = all.subrange(0, i as int + 1);
            assert(pre.drop_last() =~= all.subrange(0, i as int));
            assert(pre.last() == self.nodes@[i as int]@);
            if self.nodes[i].parent == Some(parent) {
                out.push(self.nodes[i].item.id);
            }
            i = i + 1;
        }
        assert(all.subrange(0, i as int) =~= all);
        out
    }
}

/// In a resolved tree every item but the root is the target of a relation
/// of type `Child` of its parent's item, so an item that is only linked by
/// a relation of another type never enters the tree.
pub proof fn lemma_tree_holds_only_children(t: WorkItemTree, i: int)
    requires
        t.wf(),
        1 <= i < t@.len(),
    ensures
        exists|j: int|
            0 <= j < t@.len() && (#[trigger] t@[j]).item.id == t@[i].parent.unwrap()
                && from_child_relation(t@[j].item.relations, t@[i].item.id),
{
    let nodes = t@;
    assert(linked_child(nodes, nodes[i].parent.unwrap(), nodes[i].item.id));
    let j = choose|j: int|
        0 <= j < nodes.len() && (#[trigger] nodes[j]).item.id == nodes[i].parent.unwrap()
            && child_ids_spec(nodes[j].item.relations) is Some && child_ids_spec(
            nodes[j].item.relations,
        ).unwrap().contains(nodes[i].item.id);
    let rels = nodes[j].item.relations;
    let cs = child_ids_spec(rels).unwrap();
    let k = choose|k: int| 0 <= k < cs.len() && cs[k] == nodes[i].item.id;
    lemma_child_ids_only_from_children(rels);
    assert(from_child_relation(rels, cs[k]));
}

/// The state of a breadth-first resolution: the tree so far, the items of
/// the next level with their parents, and the level reached.
#[derive(Debug)]
pub struct TreeResolver {
    nodes: Vec<TreeNode>,
    pending: Vec<(u32, u32)>,
    depth: u32,
    max_depth: u32,
}

impl View for TreeResolver {
    type V = ResolverModel;

    closed spec fn view(&self) -> ResolverModel {
        ResolverModel {
            nodes: node_models(self.nodes@),
            pending: self.pending@,
            depth: self.depth,
            max_depth: self.max_depth,
        }
    }
}

impl TreeResolver {
    pub open spec fn wf(&self) -> bool {
        resolver_wf(self@)
    }

    /// Starts a resolution at `root`, which was fetched already, going at
    /// most `max_depth` levels below it.
    pub fn start(root: WorkItem, max_depth: u32) -> (r: Result<TreeResolver, ClientError>)
        ensures
            match start_spec(root@, max_depth) {
                Some(m) => r matches Ok(t) && t@ == m && t.wf(),
                None => r matches Err(ClientError::DataIntegrity(_)),
            },
    {
        let ghost root_model = root@;
        let mut nodes: Vec<TreeNode> = Vec::new();
        nodes.push(TreeNode { item: root, parent: None });
        assert(node_models(nodes@) =~= seq![NodeModel { item: root_model, parent: None }]);
        assert(node_models(nodes@).subrange(0, 1) =~= node_models(nodes@));
        proof {
            lemma_start_wf(root_model, max_depth);
        }
        match level_pending_exec(&nodes, 0) {
            Ok(pending) => Ok(TreeResolver { nodes, pending, depth: 0, max_depth }),
            Err(e) => Err(e),
        }
    }

    /// The identifiers to fetch in one bulk request next; none once the
    /// resolution is complete or has reached its depth limit.
    pub fn next_request(&self) -> (r: Option<Vec<u32>>)
        ensures
            r is None <==> (self@.pending.len() == 0 || self@.depth >= self@.max_depth),
            r matches Some(ids) ==> ids@ == pending_ids(self@.pending),
    {
        if self.pending.len() == 0 || self.depth >= self.max_depth {
            return None;
        }
        let mut ids: Vec<u32> = Vec::new();
        let mut i: usize = 0;
        while i < self.pending.len()
            invariant
                i <= self.pending@.len(),
                ids@ == pending_ids(self.pending@.subrange(0, i as int)),
            decreases self.pending@.len() - i,
        {
            ids.push(self.pending[i].0);
            assert(pending_ids(self.pending@.subrange(0, i as int + 1)) =~= pending_ids(
                self.pending@.subrange(0, i as int),
            ).push(self.pending@[i as int].0));
            i = i + 1;
        }
        assert(self.pending@.subrange(0, i as int) =~= self.pending@);
        Some(ids)
    }

    /// Takes in the items that the last bulk request returned and prepares
    /// the next level.
    pub fn absorb(self, items: Vec<WorkItem>) -> (r: Result<TreeResolver, ClientError>)
        requires
            self.wf(),
            self@.depth < self@.max_depth,
        ensures
            match absorb_spec(self@, item_models(items@)) {
                Some(m) => r matches Ok(t) && t@ == m && t.wf(),
                None => r matches Err(ClientError::DataIntegrity(_)),
            },
    {
        let ghost m = self@;
        let ghost models = item_models(items@);
        let ghost all = items@;
        let mut nodes = self.nodes;
        let pending = self.pending;
        let start: usize = nodes.len();
        let mut rest = items;
        let n: usize = rest.len();
        let mut i: usize = 0;
        while i < n
            invariant
                i <= n,
                n == all.len(),
                models == item_models(all),
                rest@ == all.subrange(i as int, n as int),
                pending@ == m.pending,
                node_models(nodes@) == admitted(m.nodes, m.pending, models.subrange(0, i as int)),
            decreases n - i,
        {
            let ghost pre = models.subrange(0, i as int + 1);
            assert(pre.drop_last() =~= models.subrange(0, i as int));
            assert(rest@[0] == all[i as int]);
            let w = rest.remove(0);
            assert(pre.last() == w@);
            assert(rest@ =~= all.subrange(i as int + 1, n as int));
            let ghost before = nodes@;
            match find_pending_parent(&pending, w.id) {
                Some(p) => {
                    if !tree_contains(&nodes, w.id) {
                        nodes.push(TreeNode { item: w, parent: Some(p) });
                        assert(node_models(nodes@) =~= node_models(before).push(nodes@.last()@));
                    }
                },
                None => {},
            }
            i = i + 1;
        }
        assert(models.subrange(0, n as int) =~= models);
        proof {
            lemma_admitted(m.nodes, m.pending, models);
            lemma_absorb_preserves_wf(m, models);
        }
        match level_pending_exec(&nodes, start) {
            Ok(next) => Ok(TreeResolver { nodes, pending: next, depth: self.depth + 1, max_depth: self.max_depth }),
            Err(e) => Err(e),
        }
    }

    /// The tree resolved so far.
    pub fn finish(self) -> (r: WorkItemTree)
        requires
            self.wf(),
        ensures
            r@ == self@.nodes,
            r.wf(),
    {
        WorkItemTree { nodes: self.nodes }
    }
}

} // verus!
