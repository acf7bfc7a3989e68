use vstd::prelude::*;
use crate::hierarchy::{flatten, lemma_flatten_push};
use crate::record::Info;
use crate::tree::{branch, forest_of, Node};

verus! {

/// The rows of the top-level nodes of a forest, in order.
pub open spec fn top_rows(forest: Seq<Node>) -> Seq<Info> {
    Seq::new(forest.len(), |i: int| forest[i].info)
}

/// Siblings keep the order of the input: the nodes under one parent carry, in
/// the order of `records`, exactly the rows that name that parent and whose
/// id is not on the branch above. This holds of the first `k` rows for every
/// `k`, and so of all of them.
pub proof fn lemma_siblings_in_input_order(
    records: Seq<Info>,
    parent: i32,
    path: Set<i32>,
    k: nat,
)
    requires
        k <= records.len(),
    ensures
        top_rows(branch(records, parent, path, k)) == records.take(k as int).filter(
            |r: Info| r.parent_id == parent && !path.contains(r.id),
        ),
    decreases k,
{
    let keep = |r: Info| r.parent_id == parent && !path.contains(r.id);
    if k == 0 {
        assert(records.take(0) =~= Seq::<Info>::empty());
        reveal(Seq::filter);
        assert(top_rows(branch(records, parent, path, 0)) =~= records.take(0).filter(keep));
    } else {
        let before = (k - 1) as nat;
        lemma_siblings_in_input_order(records, parent, path, before);
        let r = records[k - 1];
        assert(records.take(k as int) =~= records.take(before as int).push(r));
        records.take(before as int).lemma_filter_push(r, keep);
        let rest = branch(records, parent, path, before);
        if keep(r) {
            let node = Node {
                info: r,
                children: branch(records, r.id, path.insert(r.id), records.len()),
            };
            assert(top_rows(rest.push(node)) =~= top_rows(rest).push(r));
        }
    }
}

/// The roots of a forest are the rows that carry the root marker, in the
/// order in which `records` lists them.
pub proof fn lemma_roots_in_input_order(records: Seq<Info>, root: i32)
    ensures
        top_rows(forest_of(records, root)) == records.filter(|r: Info| r.parent_id == root),
{
    let path = Set::<i32>::empty();
    lemma_siblings_in_input_order(records, root, path, records.len());
    assert(records.take(records.len() as int) =~= records);
    let guarded = |r: Info| r.parent_id == root && !path.contains(r.id);
    let plain = |r: Info| r.parent_id == root;
    assert(guarded =~= plain);
}

/// What can be said of each row listed under `parent`: it is one of
/// `records`, its id is not on the branch above, and its parent is `parent`
/// or the id of one of `records`.
pub open spec fn hangs_under(records: Seq<Info>, parent: i32, path: Set<i32>, row: Info) -> bool {
    &&& records.contains(row)
    &&& !path.contains(row.id)
    &&& row.parent_id == parent || exists|j: int|
        0 <= j < records.len() && #[trigger] records[j].id == row.parent_id
}

/// Every row in the nodes under `parent` hangs under it in this sense.
pub proof fn lemma_listed_rows_hang(records: Seq<Info>, parent: i32, path: Set<i32>, k: nat)
    requires
        k <= records.len(),
    ensures
        forall|row: Info| #[trigger]
            flatten(branch(records, parent, path, k)).contains(row) ==> hangs_under(
                records,
                parent,
                path,
                row,
            ),
    decreases crate::tree::unvisited(records, path), k,
{
    if k > 0 {
        let before = (k - 1) as nat;
        let r = records[k - 1];
        let rest = branch(records, parent, path, before);
        lemma_listed_rows_hang(records, parent, path, before);
        if r.parent_id == parent && !path.contains(r.id) {
            let longer = path.insert(r.id);
            let under = branch(records, r.id, longer, records.len());
            crate::tree::lemma_unvisited_shrinks(records, path, k - 1);
            lemma_listed_rows_hang(records, r.id, longer, records.len());
            lemma_flatten_push(rest, Node { info: r, children: under });
            assert forall|row: Info| #[trigger]
                flatten(branch(records, parent, path, k)).contains(row) implies hangs_under(
                records,
                parent,
                path,
                row,
            ) by {
                let all = flatten(rest) + seq![r] + flatten(under);
                let at = choose|at: int| 0 <= at < all.len() && all[at] == row;
                if at < flatten(rest).len() {
                    assert(flatten(rest)[at] == row);
                    assert(flatten(rest).contains(row));
                } else if at == flatten(rest).len() {
                    assert(row == r);
                    assert(records[k - 1] == row);
                } else {
                    assert(flatten(under)[at - flatten(rest).len() - 1] == row);
                    assert(flatten(under).contains(row));
                    assert(hangs_under(records, r.id, longer, row));
                    assert(records[k - 1].id == r.id);
                }
            }
        }
    }
}

/// A row whose parent is neither the root marker nor the id of any row is
/// nowhere in the forest.
pub proof fn lemma_dangling_row_dropped(records: Seq<Info>, root: i32, i: int)
    requires
        0 <= i < records.len(),
        records[i].parent_id != root,
        forall|j: int| 0 <= j < records.len() ==> records[j].id != records[i].parent_id,
    ensures
        !flatten(forest_of(records, root)).contains(records[i]),
{
    lemma_listed_rows_hang(records, root, Set::empty(), records.len());
}

/// The forest invents nothing: every row in it is one of `records`.
pub proof fn lemma_forest_rows_are_records(records: Seq<Info>, root: i32)
    ensures
        forall|row: Info| #[trigger]
            flatten(forest_of(records, root)).contains(row) ==> records.contains(row),
{
    lemma_listed_rows_hang(records, root, Set::empty(), records.len());
}

/// In `rows`, every row either names `parent` or comes after a row that
/// carries the id it names.
pub open spec fn parents_first(rows: Seq<Info>, parent: i32) -> bool {
    forall|a: int|
        0 <= a < rows.len() ==> #[trigger] rows[a].parent_id == parent || exists|b: int|
            0 <= b < a && #[trigger] rows[b].id == rows[a].parent_id
}

/// The rows under `parent` are listed parents first.
pub proof fn lemma_listed_parents_first(records: Seq<Info>, parent: i32, path: Set<i32>, k: nat)
    requires
        k <= records.len(),
    ensures
        parents_first(flatten(branch(records, parent, path, k)), parent),
    decreases crate::tree::unvisited(records, path), k,
{
    if k > 0 {
        let before = (k - 1) as nat;
        let r = records[k - 1];
        let rest = branch(records, parent, path, before);
        lemma_listed_parents_first(records, parent, path, before);
        if r.parent_id == parent && !path.contains(r.id) {
            let longer = path.insert(r.id);
            let under = branch(records, r.id, longer, records.len());
            crate::tree::lemma_unvisited_shrinks(records, path, k - 1);
            lemma_listed_parents_first(records, r.id, longer, records.len());
            lemma_flatten_push(rest, Node { info: r, children: under });
            let head = flatten(rest);
            let tail = flatten(under);
            let all = head + seq![r] + tail;
            assert forall|a: int| 0 <= a < all.len() implies #[trigger] all[a].parent_id
                == parent || exists|b: int|
                0 <= b < a && #[trigger] all[b].id == all[a].parent_id by {
                if a < head.len() {
                    assert(all[a] == head[a]);
                    if head[a].parent_id != parent {
                        let b = choose|b: int|
                            0 <= b < a && #[trigger] head[b].id == head[a].parent_id;
                        assert(all[b].id == all[a].parent_id);
                    }
                } else if a > head.len() {
                    let inner = a - head.len() - 1;
                    assert(all[a] == tail[inner]);
                    if tail[inner].parent_id == r.id {
                        assert(all[head.len() as int].id == all[a].parent_id);
                    } else {
                        let b = choose|b: int|
                            0 <= b < inner && #[trigger] tail[b].id == tail[inner].parent_id;
                        assert(all[head.len() + 1 + b] == tail[b]);
                        assert(all[head.len() + 1 + b].id == all[a].parent_id);
                    }
                }
            }
        }
    }
}

/// No two rows share an id.
pub open spec fn distinct_ids(records: Seq<Info>) -> bool {
    forall|i: int, j: int|
        0 <= i < j < records.len() ==> #[trigger] records[i].id != #[trigger] records[j].id
}

/// `rank` numbers the rows so that every row either carries the root marker or
/// names as parent a row with a smaller number.
pub open spec fn ranked(records: Seq<Info>, root: i32, rank: Seq<nat>) -> bool {
    &&& rank.len() == records.len()
    &&& forall|i: int|
        0 <= i < records.len() ==> #[trigger] records[i].parent_id == root || exists|j: int|
            0 <= j < records.len() && #[trigger] records[j].id == records[i].parent_id && rank[j]
                < rank[i]
}

/// Rows that form a proper forest below `root`: ids are distinct, `root` is no
/// row's id, and the parent links lead from every row to the root marker
/// without running in a circle.
pub open spec fn well_formed(records: Seq<Info>, root: i32) -> bool {
    &&& distinct_ids(records)
    &&& forall|i: int| 0 <= i < records.len() ==> #[trigger] records[i].id != root
    &&& exists|rank: Seq<nat>| ranked(records, root, rank)
}

/// Whether some row carries `id`.
spec fn has_row(records: Seq<Info>, id: i32) -> bool {
    exists|j: int| 0 <= j < records.len() && #[trigger] records[j].id == id
}

/// The index of a row that carries `id`, where there is one.
spec fn row_of(records: Seq<Info>, id: i32) -> int {
    choose|j: int| 0 <= j < records.len() && #[trigger] records[j].id == id
}

/// How often `row` occurs among the rows listed under `parent`.
spec fn listed(records: Seq<Info>, parent: i32, path: Set<i32>, k: nat, row: Info) -> nat {
    flatten(branch(records, parent, path, k)).to_multiset().count(row)
}

/// Each of the first `k` rows that names `parent` is listed under it, unless
/// its id is on `path`.
pub proof fn lemma_children_listed(records: Seq<Info>, parent: i32, path: Set<i32>, k: nat)
    requires
        k <= records.len(),
    ensures
        forall|i: int|
            0 <= i < k && #[trigger] records[i].parent_id == parent && !path.contains(
                records[i].id,
            ) ==> flatten(branch(records, parent, path, k)).contains(records[i]),
    decreases k,
{
    if k > 0 {
        let before = (k - 1) as nat;
        let r = records[k - 1];
        let rest = branch(records, parent, path, before);
        let head = flatten(rest);
        lemma_children_listed(records, parent, path, before);
        if r.parent_id == parent && !path.contains(r.id) {
            let under = branch(records, r.id, path.insert(r.id), records.len());
            lemma_flatten_push(rest, Node { info: r, children: under });
            let all = head + seq![r] + flatten(under);
            assert(all[head.len() as int] == r);
            assert forall|i: int|
                0 <= i < k && #[trigger] records[i].parent_id == parent && !path.contains(
                    records[i].id,
                ) implies all.contains(records[i]) by {
                if i < k - 1 {
                    let a = choose|a: int| 0 <= a < head.len() && head[a] == records[i];
                    assert(all[a] == records[i]);
                }
            }
        }
    }
}

/// With distinct ids, the rows under `parent` are closed downwards as far as
/// `path` allows: each row that names a listed row is listed too, unless its
/// id is on `path`.
pub proof fn lemma_listed_closed(records: Seq<Info>, parent: i32, path: Set<i32>, k: nat)
    requires
        distinct_ids(records),
        k <= records.len(),
    ensures
        forall|i: int, row: Info|
            0 <= i < records.len() && #[trigger] flatten(
                branch(records, parent, path, k),
            ).contains(row) && #[trigger] records[i].parent_id == row.id ==> flatten(
                branch(records, parent, path, k),
            ).contains(records[i]) || path.contains(records[i].id),
    decreases crate::tree::unvisited(records, path), k,
{
    if k > 0 {
        let before = (k - 1) as nat;
        let r = records[k - 1];
        let rest = branch(records, parent, path, before);
        let head = flatten(rest);
        lemma_listed_closed(records, parent, path, before);
        if r.parent_id == parent && !path.contains(r.id) {
            let longer = path.insert(r.id);
            let under = branch(records, r.id, longer, records.len());
            crate::tree::lemma_unvisited_shrinks(records, path, k - 1);
            lemma_listed_closed(records, r.id, longer, records.len());
            lemma_children_listed(records, r.id, longer, records.len());
            lemma_flatten_push(rest, Node { info: r, children: under });
            let tail = flatten(under);
            let all = head + seq![r] + tail;
            assert(all[head.len() as int] == r);
            assert forall|row: Info| head.contains(row) implies all.contains(row) by {
                let a = choose|a: int| 0 <= a < head.len() && head[a] == row;
                assert(all[a] == row);
            }
            assert forall|row: Info| tail.contains(row) implies all.contains(row) by {
                let a = choose|a: int| 0 <= a < tail.len() && tail[a] == row;
                assert(all[head.len() + 1 + a] == row);
            }
            assert forall|i: int, row: Info|
                0 <= i < records.len() && #[trigger] all.contains(row)
                    && #[trigger] records[i].parent_id == row.id implies all.contains(records[i])
                || path.contains(records[i].id) by {
                let a = choose|a: int| 0 <= a < all.len() && all[a] == row;
                if a < head.len() {
                    assert(head[a] == row);
                    assert(head.contains(row));
                } else {
                    if a > head.len() {
                        assert(tail[a - head.len() - 1] == row);
                        assert(tail.contains(row));
                    }
                    if !tail.contains(records[i]) && !path.contains(records[i].id) {
                        assert(records[i].id == r.id);
                        assert(records[k - 1].id == r.id);
                        assert(i == k - 1);
                    }
                }
            }
        }
    }
}

/// Every row that names `root` is in the forest below `root`.
pub proof fn lemma_forest_holds_children(records: Seq<Info>, root: i32)
    ensures
        forall|i: int|
            0 <= i < records.len() && #[trigger] records[i].parent_id == root ==> flatten(
                forest_of(records, root),
            ).contains(records[i]),
{
    lemma_children_listed(records, root, Set::empty(), records.len());
}

/// With distinct ids the forest takes in whole lines of descent: a row that
/// names a row of the forest as parent is in the forest too.
pub proof fn lemma_forest_is_transitive(records: Seq<Info>, root: i32)
    requires
        distinct_ids(records),
    ensures
        forall|i: int, row: Info|
            0 <= i < records.len() && #[trigger] flatten(forest_of(records, root)).contains(row)
                && #[trigger] records[i].parent_id == row.id ==> flatten(
                forest_of(records, root),
            ).contains(records[i]),
{
    lemma_listed_closed(records, root, Set::empty(), records.len());
}

/// The forest lists parents first: each of its rows names `root` or a row
/// listed before it.
pub proof fn lemma_forest_parents_first(records: Seq<Info>, root: i32)
    ensures
        parents_first(flatten(forest_of(records, root)), root),
{
    lemma_listed_parents_first(records, root, Set::empty(), records.len());
}

/// How often a row occurs in `a`, then `r`, then `b`.
proof fn lemma_count_around(a: Seq<Info>, r: Info, b: Seq<Info>, row: Info)
    ensures
        (a + seq![r] + b).to_multiset().count(row) == a.to_multiset().count(row) + (if r == row {
            1nat
        } else {
            0nat
        }) + b.to_multiset().count(row),
{
    broadcast use vstd::multiset::group_multiset_axioms;

    assert(a + seq![r] =~= a.push(r));
    vstd::seq_lib::to_multiset_build(a, r);
    vstd::seq_lib::lemma_multiset_commutative(a.push(r), b);
}

/// Where nothing on `path` can block a row below `parent`, a row is listed
/// under `parent` once if it names `parent` itself, and once more for each
/// time that the row it names as parent is listed there.
proof fn lemma_listed_step(
    records: Seq<Info>,
    root: i32,
    rank: Seq<nat>,
    parent: i32,
    path: Set<i32>,
    bound: nat,
    k: nat,
    i: int,
)
    requires
        distinct_ids(records),
        forall|m: int| 0 <= m < records.len() ==> #[trigger] records[m].id != root,
        ranked(records, root, rank),
        0 <= i < records.len(),
        k <= records.len(),
        forall|m: int|
            0 <= m < records.len() && path.contains(#[trigger] records[m].id) ==> rank[m] < bound,
        forall|m: int|
            0 <= m < records.len() && #[trigger] records[m].parent_id == parent ==> rank[m]
                >= bound,
    ensures
        listed(records, parent, path, k, records[i]) == (if i < k && records[i].parent_id
            == parent {
            1nat
        } else {
            0nat
        }) + (if has_row(records, records[i].parent_id) {
            listed(records, parent, path, k, records[row_of(records, records[i].parent_id)])
        } else {
            0nat
        }),
    decreases crate::tree::unvisited(records, path), k,
{
    let row = records[i];
    let up = has_row(records, row.parent_id);
    let j = row_of(records, row.parent_id);
    if k == 0 {
        let none = flatten(branch(records, parent, path, 0));
        assert(none =~= Seq::<Info>::empty());
        vstd::seq_lib::to_multiset_contains(none, row);
        if up {
            vstd::seq_lib::to_multiset_contains(none, records[j]);
        }
    } else {
        let m = k - 1;
        let before = (k - 1) as nat;
        let r = records[m];
        let rest = branch(records, parent, path, before);
        lemma_listed_step(records, root, rank, parent, path, bound, before, i);
        if r.parent_id == parent {
            assert(!path.contains(r.id));
            let longer = path.insert(r.id);
            let under = branch(records, r.id, longer, records.len());
            crate::tree::lemma_unvisited_shrinks(records, path, m);
            let deeper = (rank[m] + 1) as nat;
            assert forall|x: int|
                0 <= x < records.len() && longer.contains(
                    #[trigger] records[x].id,
                ) implies rank[x] < deeper by {
                if records[x].id == r.id {
                    assert(x == m);
                }
            }
            assert forall|x: int|
                0 <= x < records.len() && #[trigger] records[x].parent_id
                    == r.id implies rank[x] >= deeper by {
                let y = choose|y: int|
                    0 <= y < records.len() && #[trigger] records[y].id == records[x].parent_id
                        && rank[y] < rank[x];
                assert(y == m);
            }
            lemma_listed_step(records, root, rank, r.id, longer, deeper, records.len(), i);
            lemma_flatten_push(rest, Node { info: r, children: under });
            let all = flatten(rest) + seq![r] + flatten(under);
            assert(flatten(branch(records, parent, path, k)) == all);
            lemma_count_around(flatten(rest), r, flatten(under), row);
            assert((r == row) == (m == i));
            if up {
                let above = records[j];
                lemma_count_around(flatten(rest), r, flatten(under), above);
                assert((r == above) == (m == j));
                assert((row.parent_id == r.id) == (m == j));
            } else {
                assert(row.parent_id != r.id);
            }
        }
    }
}

/// On well-formed rows every row is listed exactly once below the root.
proof fn lemma_listed_once(records: Seq<Info>, root: i32, rank: Seq<nat>, i: int)
    requires
        distinct_ids(records),
        forall|m: int| 0 <= m < records.len() ==> #[trigger] records[m].id != root,
        ranked(records, root, rank),
        0 <= i < records.len(),
    ensures
        listed(records, root, Set::empty(), records.len(), records[i]) == 1,
    decreases rank[i],
{
    lemma_listed_step(records, root, rank, root, Set::empty(), 0, records.len(), i);
    if records[i].parent_id != root {
        let j = choose|j: int|
            0 <= j < records.len() && #[trigger] records[j].id == records[i].parent_id && rank[j]
                < rank[i];
        let above = row_of(records, records[i].parent_id);
        assert(above == j);
        lemma_listed_once(records, root, rank, j);
    }
}

/// Among the first `k` rows with distinct ids, each row occurs once if it is
/// one of them and not at all if it is not.
proof fn lemma_distinct_rows_counted(records: Seq<Info>, k: nat, i: int)
    requires
        distinct_ids(records),
        k <= records.len(),
        0 <= i < records.len(),
    ensures
        records.take(k as int).to_multiset().count(records[i]) == (if i < k {
            1nat
        } else {
            0nat
        }),
    decreases k,
{
    broadcast use vstd::multiset::group_multiset_axioms;

    if k == 0 {
        vstd::seq_lib::to_multiset_contains(records.take(0), records[i]);
    } else {
        lemma_distinct_rows_counted(records, (k - 1) as nat, i);
        assert(records.take(k as int) =~= records.take(k - 1).push(records[k - 1]));
        vstd::seq_lib::to_multiset_build(records.take(k - 1), records[k - 1]);
        if records[k - 1] == records[i] {
            assert(records[k - 1].id == records[i].id);
            assert(k - 1 == i);
        }
    }
}

/// On well-formed rows nothing is lost and nothing is doubled: the forest
/// below `root` holds every row exactly once.
pub proof fn lemma_forest_holds_every_row_once(records: Seq<Info>, root: i32)
    requires
        well_formed(records, root),
    ensures
        flatten(forest_of(records, root)).to_multiset() == records.to_multiset(),
        flatten(forest_of(records, root)).len() == records.len(),
{
    let rank = choose|rank: Seq<nat>| ranked(records, root, rank);
    let listing = flatten(forest_of(records, root));
    lemma_forest_rows_are_records(records, root);
    assert(records.take(records.len() as int) =~= records);
    assert forall|row: Info|
        listing.to_multiset().count(row) == records.to_multiset().count(row) by {
        vstd::seq_lib::to_multiset_contains(listing, row);
        vstd::seq_lib::to_multiset_contains(records, row);
        if records.contains(row) {
            let i = choose|i: int| 0 <= i < records.len() && records[i] == row;
            lemma_listed_once(records, root, rank, i);
            lemma_distinct_rows_counted(records, records.len(), i);
        }
    }
    assert(listing.to_multiset() =~= records.to_multiset());
    vstd::seq_lib::to_multiset_len(listing);
    vstd::seq_lib::to_multiset_len(records);
}

} // verus!
