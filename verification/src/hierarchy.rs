use vstd::prelude::*;
use crate::record::Info;
use crate::tree::{
    branch, forest_of, holds_id, lemma_push_to_set, lemma_unvisited_shrinks, lemma_view_unfold,
    nodes, unvisited, Dept, Node,
};

verus! {

/// The rows of a forest in depth-first order: each node's row, then the rows
/// under it, then its next sibling.
pub open spec fn flatten(forest: Seq<Node>) -> Seq<Info>
    decreases forest,
{
    if forest.len() == 0 {
        Seq::empty()
    } else {
        flatten(forest.drop_last()) + seq![forest.last().info] + flatten(forest.last().children)
    }
}

/// The scope after walking `forest` depth-first: a node whose `parent_id` is
/// in the scope when the walk reaches it has its `id` appended, and the walk
/// then goes on into its children with the scope as it then stands.
pub open spec fn gather(forest: Seq<Node>, scope: Seq<i32>) -> Seq<i32>
    decreases forest,
{
    if forest.len() == 0 {
        scope
    } else {
        let before = gather(forest.drop_last(), scope);
        let node = forest.last();
        let at_node = if before.contains(node.info.parent_id) {
            before.push(node.info.id)
        } else {
            before
        };
        gather(node.children, at_node)
    }
}

/// The rows that `get_children_dept` keeps: all of them without an ancestor,
/// and with one the rows of the forest rooted at it, depth-first.
pub open spec fn scoped(records: Seq<Info>, dept_id: Option<i32>) -> Seq<Info> {
    match dept_id {
        None => records,
        Some(id) => flatten(forest_of(records, id)),
    }
}

/// Flattening a forest with one more node at its end appends that node's row
/// and then the rows under it.
pub proof fn lemma_flatten_push(forest: Seq<Node>, node: Node)
    ensures
        flatten(forest.push(node)) == flatten(forest) + seq![node.info] + flatten(node.children),
{
    assert(forest.push(node).drop_last() =~= forest);
}

/// Walks `tree` depth-first and grows the scope in place.
fn walk_ids(tree: &Vec<Dept>, parent_dept_ids: &mut Vec<i32>)
    ensures
        final(parent_dept_ids)@ == gather(nodes(tree@), old(parent_dept_ids)@),
    decreases tree,
{
    let ghost start = parent_dept_ids@;
    let mut i: usize = 0;
    assert(nodes(tree@).take(0) =~= Seq::<Node>::empty());
    while i < tree.len()
        invariant
            i <= tree.len(),
            parent_dept_ids@ == gather(nodes(tree@).take(i as int), start),
        decreases tree.len() - i,
    {
        let dept = &tree[i];
        if holds_id(parent_dept_ids, dept.info.parent_id) {
            parent_dept_ids.push(dept.info.id);
        }
        let ghost at_node = parent_dept_ids@;
        if !dept.children.is_empty() {
            walk_ids(&dept.children, parent_dept_ids);
        }
        proof {
            let upto = nodes(tree@).take(i + 1);
            assert(upto.drop_last() =~= nodes(tree@).take(i as int));
            assert(upto.last() == dept@);
            lemma_view_unfold(*dept);
            assert(parent_dept_ids@ == gather(dept@.children, at_node));
        }
        i += 1;
    }
    assert(nodes(tree@).take(tree@.len() as int) =~= nodes(tree@));
}

/// Expands a scope of ids over a forest. The forest is walked depth-first;
/// whenever a node's `parent_id` is already in the scope, the node's `id` is
/// appended to it, so that the node's own children are caught in turn. The
/// ids given at the start stay in front, in their order. The scope is grown
/// in place, and the reference handed back is the one that was passed in.
pub fn get_children_ids<'a>(tree: Vec<Dept>, parent_dept_ids: &'a mut Vec<i32>) -> (ids: &'a mut Vec<
    i32,
>)
    ensures
        final(ids)@ == final(parent_dept_ids)@,
        ids@ == gather(nodes(tree@), old(parent_dept_ids)@),
{
    walk_ids(&tree, parent_dept_ids);
    parent_dept_ids
}

/// Appends to `out` the rows under `parent` in depth-first order, with `path`
/// holding the ids of the branch above.
fn list_branch(records: &Vec<Info>, parent: i32, path: &mut Vec<i32>, out: &mut Vec<Info>)
    ensures
        final(path)@ == old(path)@,
        final(out)@ == old(out)@ + flatten(
            branch(records@, parent, old(path)@.to_set(), records@.len() as nat),
        ),
    decreases unvisited(records@, old(path)@.to_set()),
{
    let ghost above = path@;
    let ghost start = out@;
    let mut i: usize = 0;
    assert(out@ =~= start + flatten(branch(records@, parent, above.to_set(), 0)));
    while i < records.len()
        invariant
            i <= records.len(),
            path@ == above,
            above == old(path)@,
            out@ == start + flatten(branch(records@, parent, above.to_set(), i as nat)),
        decreases records.len() - i,
    {
        let id = records[i].id;
        if records[i].parent_id == parent && !holds_id(path, id) {
            out.push(records[i].clone());
            path.push(id);
            proof {
                lemma_push_to_set(above, id);
                lemma_unvisited_shrinks(records@, above.to_set(), i as int);
            }
            list_branch(records, id, path, out);
            path.pop();
            proof {
                assert(path@ =~= above);
                let rest = branch(records@, parent, above.to_set(), i as nat);
                let under = branch(records@, id, above.to_set().insert(id), records@.len() as nat);
                lemma_flatten_push(rest, Node { info: records@[i as int], children: under });
                assert(out@ =~= start + (flatten(rest) + seq![records@[i as int]] + flatten(under)));
            }
        }
        i += 1;
    }
}

/// Narrows flat rows to those under an ancestor. Without an ancestor every
/// row is returned, unchanged and in order. With one, the result holds each
/// row whose `parent_id` is the ancestor, each followed at once by the rows
/// under it, and so on down: the rows of the forest rooted at the ancestor,
/// listed depth-first. A row that is reached more than once is listed each
/// time it is reached.
pub fn get_children_dept(depts: Vec<Info>, dept_id: Option<i32>) -> (kept: Vec<Info>)
    ensures
        kept@ == scoped(depts@, dept_id),
        dept_id is None ==> kept@ == depts@,
{
    match dept_id {
        None => depts,
        Some(id) => {
            let mut path: Vec<i32> = Vec::new();
            let mut kept: Vec<Info> = Vec::new();
            assert(path@.to_set() =~= Set::<i32>::empty());
            list_branch(&depts, id, &mut path, &mut kept);
            assert(kept@ =~= flatten(forest_of(depts@, id)));
            kept
        },
    }
}

} // verus!
