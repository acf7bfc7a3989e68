use vstd::prelude::*;
use crate::forest_laws::{
    distinct_ids, lemma_forest_parents_first, lemma_forest_rows_are_records, parents_first,
};
use crate::hierarchy::{flatten, gather};
use crate::record::Info;
use crate::tree::{forest_of, Node};

verus! {

/// The scope after passing over `rows` from first to last: a row whose
/// `parent_id` is in the scope when its turn comes has its `id` appended.
pub open spec fn sweep(rows: Seq<Info>, scope: Seq<i32>) -> Seq<i32>
    decreases rows.len(),
{
    if rows.len() == 0 {
        scope
    } else {
        let before = sweep(rows.drop_last(), scope);
        if before.contains(rows.last().parent_id) {
            before.push(rows.last().id)
        } else {
            before
        }
    }
}

/// Passing over `a` and then `b` is passing over `a + b`.
pub proof fn lemma_sweep_concat(a: Seq<Info>, b: Seq<Info>, scope: Seq<i32>)
    ensures
        sweep(a + b, scope) == sweep(b, sweep(a, scope)),
    decreases b.len(),
{
    if b.len() == 0 {
        assert(a + b =~= a);
    } else {
        lemma_sweep_concat(a, b.drop_last(), scope);
        assert((a + b).drop_last() =~= a + b.drop_last());
    }
}

/// Walking a forest depth-first is passing over its rows in depth-first
/// order: only the order of the rows matters to the scope.
pub proof fn lemma_gather_is_sweep(forest: Seq<Node>, scope: Seq<i32>)
    ensures
        gather(forest, scope) == sweep(flatten(forest), scope),
    decreases forest,
{
    if forest.len() > 0 {
        let node = forest.last();
        let head = flatten(forest.drop_last());
        let before = gather(forest.drop_last(), scope);
        lemma_gather_is_sweep(forest.drop_last(), scope);
        let at_node = if before.contains(node.info.parent_id) {
            before.push(node.info.id)
        } else {
            before
        };
        lemma_gather_is_sweep(node.children, at_node);
        lemma_sweep_concat(head, seq![node.info], scope);
        assert(seq![node.info].drop_last() =~= Seq::<Info>::empty());
        assert(sweep(Seq::<Info>::empty(), before) == before);
        assert(seq![node.info].last() == node.info);
        assert(sweep(seq![node.info], before) == at_node);
        lemma_sweep_concat(head + seq![node.info], flatten(node.children), scope);
    }
}

/// A pass only appends: what the scope held stays in front, in its order.
pub proof fn lemma_sweep_extends(rows: Seq<Info>, scope: Seq<i32>)
    ensures
        scope.is_prefix_of(sweep(rows, scope)),
    decreases rows.len(),
{
    if rows.len() > 0 {
        lemma_sweep_extends(rows.drop_last(), scope);
    }
}

/// A longer pass holds whatever a shorter pass over the same rows holds.
pub proof fn lemma_sweep_grows(rows: Seq<Info>, scope: Seq<i32>, a: int, b: int, id: i32)
    requires
        0 <= a <= b <= rows.len(),
        sweep(rows.take(a), scope).contains(id),
    ensures
        sweep(rows.take(b), scope).contains(id),
    decreases b - a,
{
    if a < b {
        lemma_sweep_grows(rows, scope, a, b - 1, id);
        assert(rows.take(b).drop_last() =~= rows.take(b - 1));
        let before = sweep(rows.take(b - 1), scope);
        let at = choose|at: int| 0 <= at < before.len() && before[at] == id;
        if before.contains(rows.take(b).last().parent_id) {
            assert(before.push(rows.take(b).last().id)[at] == id);
        }
    }
}

/// Whatever a pass appended is the id of one of the rows, and that row's
/// `parent_id` is in the scope in the end.
pub proof fn lemma_sweep_sound(rows: Seq<Info>, scope: Seq<i32>, id: i32)
    requires
        sweep(rows, scope).contains(id),
    ensures
        scope.contains(id) || exists|a: int|
            0 <= a < rows.len() && #[trigger] rows[a].id == id && sweep(rows, scope).contains(
                rows[a].parent_id,
            ),
    decreases rows.len(),
{
    if rows.len() > 0 {
        let shorter = rows.drop_last();
        let before = sweep(shorter, scope);
        let last = rows.last();
        assert(rows.take(rows.len() as int) =~= rows);
        assert(rows.take(rows.len() - 1) =~= shorter);
        if before.contains(id) {
            lemma_sweep_sound(shorter, scope, id);
            if !scope.contains(id) {
                let a = choose|a: int|
                    0 <= a < shorter.len() && #[trigger] shorter[a].id == id && before.contains(
                        shorter[a].parent_id,
                    );
                lemma_sweep_grows(rows, scope, rows.len() - 1, rows.len() as int, rows[a].parent_id);
                assert(rows[a].id == id);
            }
        } else {
            let out = sweep(rows, scope);
            let at = choose|at: int| 0 <= at < out.len() && out[at] == id;
            assert(before.contains(last.parent_id));
            assert(at == before.len());
            lemma_sweep_grows(rows, scope, rows.len() - 1, rows.len() as int, last.parent_id);
            assert(rows[rows.len() - 1].id == id);
        }
    }
}

/// Rows that carry the same id name the same parent.
pub open spec fn one_parent_per_id(rows: Seq<Info>) -> bool {
    forall|a: int, b: int|
        0 <= a < rows.len() && 0 <= b < rows.len() && #[trigger] rows[a].id == #[trigger] rows[b].id
            ==> rows[a].parent_id == rows[b].parent_id
}

/// Among rows listed parents first, an id that a row names and that is in the
/// scope at some later point was in the scope already when that row's turn
/// came.
proof fn lemma_parent_known_early(rows: Seq<Info>, root: i32, scope: Seq<i32>, a: int, t: int)
    requires
        parents_first(rows, root),
        one_parent_per_id(rows),
        forall|x: int| 0 <= x < rows.len() ==> #[trigger] rows[x].id != root,
        0 <= a <= t <= rows.len(),
        a < rows.len(),
        sweep(rows.take(t), scope).contains(rows[a].parent_id),
    ensures
        sweep(rows.take(a), scope).contains(rows[a].parent_id),
    decreases a, t,
{
    let wanted = rows[a].parent_id;
    if t > a {
        let before = sweep(rows.take(t - 1), scope);
        assert(rows.take(t).drop_last() =~= rows.take(t - 1));
        assert(rows.take(t).last() == rows[t - 1]);
        if before.contains(wanted) {
            lemma_parent_known_early(rows, root, scope, a, t - 1);
        } else {
            let out = sweep(rows.take(t), scope);
            let at = choose|at: int| 0 <= at < out.len() && out[at] == wanted;
            assert(before.contains(rows[t - 1].parent_id));
            assert(at == before.len());
            assert(rows[t - 1].id == wanted);
            let b = choose|b: int| 0 <= b < a && #[trigger] rows[b].id == rows[a].parent_id;
            assert(rows[b].id == rows[t - 1].id);
            assert(rows[b].parent_id == rows[t - 1].parent_id);
            lemma_parent_known_early(rows, root, scope, b, t - 1);
            assert(rows.take(b + 1).drop_last() =~= rows.take(b));
            assert(rows.take(b + 1).last() == rows[b]);
            let then = sweep(rows.take(b), scope);
            assert(then.push(rows[b].id)[then.len() as int] == wanted);
            assert(sweep(rows.take(b + 1), scope).contains(wanted));
            lemma_sweep_grows(rows, scope, b + 1, a, wanted);
        }
    }
}

/// Among rows listed parents first, a pass leaves the scope closed: a row
/// whose `parent_id` is in the scope in the end has its `id` there too.
pub proof fn lemma_sweep_closed(rows: Seq<Info>, root: i32, scope: Seq<i32>, a: int)
    requires
        parents_first(rows, root),
        one_parent_per_id(rows),
        forall|x: int| 0 <= x < rows.len() ==> #[trigger] rows[x].id != root,
        0 <= a < rows.len(),
        sweep(rows, scope).contains(rows[a].parent_id),
    ensures
        sweep(rows, scope).contains(rows[a].id),
{
    assert(rows.take(rows.len() as int) =~= rows);
    lemma_parent_known_early(rows, root, scope, a, rows.len() as int);
    assert(rows.take(a + 1).drop_last() =~= rows.take(a));
    assert(rows.take(a + 1).last() == rows[a]);
    let then = sweep(rows.take(a), scope);
    assert(then.push(rows[a].id)[then.len() as int] == rows[a].id);
    lemma_sweep_grows(rows, scope, a + 1, rows.len() as int, rows[a].id);
}

/// The ids given at the start stay in front of the expanded scope.
pub proof fn lemma_scope_extends(forest: Seq<Node>, scope: Seq<i32>)
    ensures
        scope.is_prefix_of(gather(forest, scope)),
{
    lemma_gather_is_sweep(forest, scope);
    lemma_sweep_extends(flatten(forest), scope);
}

/// An id of the expanded scope was given at the start, or it is the id of a
/// row of the forest whose `parent_id` is in the expanded scope.
pub proof fn lemma_scope_sound(forest: Seq<Node>, scope: Seq<i32>, id: i32)
    requires
        gather(forest, scope).contains(id),
    ensures
        scope.contains(id) || exists|a: int|
            0 <= a < flatten(forest).len() && #[trigger] flatten(forest)[a].id == id && gather(
                forest,
                scope,
            ).contains(flatten(forest)[a].parent_id),
{
    lemma_gather_is_sweep(forest, scope);
    lemma_sweep_sound(flatten(forest), scope, id);
}

/// Over the forest of rows with distinct ids, none of them the root marker,
/// the expanded scope is closed under descent: whenever it holds the
/// `parent_id` of a row of the forest, it holds that row's `id`. With
/// `lemma_scope_sound` this makes it the given ids together with the ids of
/// all rows of the forest below them.
pub proof fn lemma_scope_closed_over_forest(records: Seq<Info>, root: i32, scope: Seq<i32>)
    requires
        distinct_ids(records),
        forall|i: int| 0 <= i < records.len() ==> #[trigger] records[i].id != root,
    ensures
        forall|row: Info| #[trigger]
            flatten(forest_of(records, root)).contains(row) && gather(
                forest_of(records, root),
                scope,
            ).contains(row.parent_id) ==> gather(forest_of(records, root), scope).contains(row.id),
{
    let forest = forest_of(records, root);
    let rows = flatten(forest);
    lemma_gather_is_sweep(forest, scope);
    lemma_forest_parents_first(records, root);
    lemma_forest_rows_are_records(records, root);
    assert forall|x: int| 0 <= x < rows.len() implies #[trigger] rows[x].id != root by {
        assert(rows.contains(rows[x]));
        let i = choose|i: int| 0 <= i < records.len() && records[i] == rows[x];
        assert(records[i].id != root);
    }
    assert forall|a: int, b: int|
        0 <= a < rows.len() && 0 <= b < rows.len() && #[trigger] rows[a].id
            == #[trigger] rows[b].id implies rows[a].parent_id == rows[b].parent_id by {
        assert(rows.contains(rows[a]));
        assert(rows.contains(rows[b]));
        let i = choose|i: int| 0 <= i < records.len() && records[i] == rows[a];
        let j = choose|j: int| 0 <= j < records.len() && records[j] == rows[b];
        assert(records[i].id == records[j].id);
        assert(i == j);
    }
    assert forall|row: Info| #[trigger]
        rows.contains(row) && sweep(rows, scope).contains(row.parent_id) implies sweep(
        rows,
        scope,
    ).contains(row.id) by {
        let a = choose|a: int| 0 <= a < rows.len() && rows[a] == row;
        lemma_sweep_closed(rows, root, scope, a);
    }
}

} // verus!
