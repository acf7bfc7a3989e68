use vstd::prelude::*;
use crate::record::Info;

verus! {

/// The mathematical shape of a tree node: a row and its ordered children.
pub ghost struct Node {
    pub info: Info,
    pub children: Seq<Node>,
}

/// A row together with the rows that hang under it.
#[derive(Debug)]
pub struct Dept {
    pub info: Info,
    pub children: Vec<Dept>,
}

impl Dept {
    /// The node's mathematical shape.
    pub open spec fn model(self) -> Node
        decreases self,
    {
        Node {
            info: self.info,
            children: Seq::new(
                self.children@.len(),
                |i: int|
                    if 0 <= i < self.children@.len() {
                        self.children@[i].model()
                    } else {
                        arbitrary()
                    },
            ),
        }
    }

    /// Replaces the nodes under this one; the row stays.
    pub fn set_child(&mut self, data: Vec<Dept>)
        ensures
            final(self).info == old(self).info,
            final(self).children == data,
    {
        self.children = data;
    }
}

impl From<Info> for Dept {
    /// A node with no children yet.
    fn from(value: Info) -> (node: Dept)
        ensures
            node@ == (Node { info: value, children: Seq::empty() }),
    {
        let node = Dept { info: value, children: Vec::new() };
        proof {
            lemma_view_unfold(node);
            assert(nodes(node.children@) =~= Seq::empty());
        }
        node
    }
}

/// An empty `Vec` has no value in specifications, so the result of `from` is
/// stated on `from` itself, through its model.
impl vstd::std_specs::convert::FromSpecImpl<Info> for Dept {
    open spec fn obeys_from_spec() -> bool {
        false
    }

    open spec fn from_spec(v: Info) -> Dept {
        arbitrary()
    }
}

impl View for Dept {
    type V = Node;

    open spec fn view(&self) -> Node {
        self.model()
    }
}

/// The models of a sequence of nodes, in order.
pub open spec fn nodes(v: Seq<Dept>) -> Seq<Node> {
    Seq::new(v.len(), |i: int| v[i]@)
}

/// A node's model holds its row and the models of its children.
pub proof fn lemma_view_unfold(d: Dept)
    ensures
        d@.info == d.info,
        d@.children == nodes(d.children@),
{
    assert(d@.children.len() == d.children@.len());
    assert forall|i: int| 0 <= i < d.children@.len() implies d@.children[i] == nodes(
        d.children@,
    )[i] by {}
    assert(d@.children =~= nodes(d.children@));
}

/// How many rows have an id that is not on `path`.
pub open spec fn unvisited(records: Seq<Info>, path: Set<i32>) -> nat
    decreases records.len(),
{
    if records.len() == 0 {
        0
    } else {
        let rest = unvisited(records.drop_last(), path);
        if path.contains(records.last().id) {
            rest
        } else {
            rest + 1
        }
    }
}

/// Putting the id of some row on the path leaves fewer rows off it.
pub proof fn lemma_unvisited_shrinks(records: Seq<Info>, path: Set<i32>, i: int)
    requires
        0 <= i < records.len(),
        !path.contains(records[i].id),
    ensures
        unvisited(records, path.insert(records[i].id)) < unvisited(records, path),
    decreases records.len(),
{
    lemma_unvisited_monotone(records.drop_last(), path, records[i].id);
    if i < records.len() - 1 {
        lemma_unvisited_shrinks(records.drop_last(), path, i);
    }
}

/// A longer path never leaves more rows off it.
pub proof fn lemma_unvisited_monotone(records: Seq<Info>, path: Set<i32>, id: i32)
    ensures
        unvisited(records, path.insert(id)) <= unvisited(records, path),
    decreases records.len(),
{
    if records.len() > 0 {
        lemma_unvisited_monotone(records.drop_last(), path, id);
    }
}

/// The nodes that hang under `parent`, drawn from the first `k` rows in their
/// given order. `path` holds the ids already on the branch above; a row whose
/// id is on it is left out with everything that would hang under it.
pub open spec fn branch(records: Seq<Info>, parent: i32, path: Set<i32>, k: nat) -> Seq<Node>
    decreases unvisited(records, path), k,
    via branch_decreases
{
    if k == 0 || k > records.len() {
        Seq::empty()
    } else {
        let r = records[k - 1];
        let rest = branch(records, parent, path, (k - 1) as nat);
        if r.parent_id == parent && !path.contains(r.id) {
            rest.push(
                Node { info: r, children: branch(records, r.id, path.insert(r.id), records.len()) },
            )
        } else {
            rest
        }
    }
}

#[via_fn]
proof fn branch_decreases(records: Seq<Info>, parent: i32, path: Set<i32>, k: nat) {
    if !(k == 0 || k > records.len()) {
        let r = records[k - 1];
        if r.parent_id == parent && !path.contains(r.id) {
            lemma_unvisited_shrinks(records, path, k - 1);
        }
    }
}

/// The forest of `records` whose top-level nodes carry `root` as `parent_id`.
pub open spec fn forest_of(records: Seq<Info>, root: i32) -> Seq<Node> {
    branch(records, root, Set::empty(), records.len())
}

/// The ids of a path with one more id at its end are those of the path and
/// that id.
pub proof fn lemma_push_to_set(path: Seq<i32>, id: i32)
    ensures
        path.push(id).to_set() == path.to_set().insert(id),
{
    let longer = path.push(id);
    assert forall|x: i32| longer.to_set().contains(x) implies path.to_set().insert(id).contains(
        x,
    ) by {
        let j = choose|j: int| 0 <= j < longer.len() && longer[j] == x;
        if j < path.len() {
            assert(path[j] == x);
        }
    }
    assert forall|x: i32| path.to_set().insert(id).contains(x) implies longer.to_set().contains(
        x,
    ) by {
        if x == id {
            assert(longer[path.len() as int] == x);
        } else {
            let j = choose|j: int| 0 <= j < path.len() && path[j] == x;
            assert(longer[j] == x);
        }
    }
    assert(longer.to_set() =~= path.to_set().insert(id));
}

/// Whether `id` occurs in `ids`.
pub(crate) fn holds_id(ids: &Vec<i32>, id: i32) -> (found: bool)
    ensures
        found == ids@.contains(id),
{
    let mut i: usize = 0;
    while i < ids.len()
        invariant
            i <= ids.len(),
            forall|j: int| 0 <= j < i ==> ids@[j] != id,
        decreases ids.len() - i,
    {
        if ids[i] == id {
            return true;
        }
        i += 1;
    }
    false
}

/// Builds the nodes under `parent`, with `path` holding the ids of the branch
/// above. `path` is extended while a child is built and restored afterwards.
fn build_branch(records: &Vec<Info>, parent: i32, path: &mut Vec<i32>) -> (out: Vec<Dept>)
    ensures
        final(path)@ == old(path)@,
        nodes(out@) == branch(records@, parent, old(path)@.to_set(), records@.len() as nat),
    decreases unvisited(records@, old(path)@.to_set()),
{
    let ghost above = path@;
    let mut out: Vec<Dept> = Vec::new();
    let mut i: usize = 0;
    assert(nodes(out@) =~= branch(records@, parent, above.to_set(), 0));
    while i < records.len()
        invariant
            i <= records.len(),
            path@ == above,
            above == old(path)@,
            nodes(out@) == branch(records@, parent, above.to_set(), i as nat),
        decreases records.len() - i,
    {
        let id = records[i].id;
        if records[i].parent_id == parent && !holds_id(path, id) {
            path.push(id);
            proof {
                lemma_push_to_set(above, id);
                lemma_unvisited_shrinks(records@, above.to_set(), i as int);
            }
            let children = build_branch(records, id, path);
            path.pop();
            assert(path@ =~= above);
            let node = Dept { info: records[i].clone(), children };
            proof {
                lemma_view_unfold(node);
                assert(nodes(out@.push(node)) =~= nodes(out@).push(node@));
            }
            out.push(node);
        }
        i += 1;
    }
    out
}

/// Turns flat rows into a forest. The rows whose `parent_id` is
/// `root_parent_id` become the top-level nodes, in their given order; under
/// each node hang the rows that name it as parent, again in their given order.
/// A row whose parent is neither the root marker nor any row's id appears
/// nowhere. A row whose id is already on the branch above it is left out, so
/// rows that name each other in a circle cannot make the build run on.
pub fn build_forest(records: &Vec<Info>, root_parent_id: i32) -> (forest: Vec<Dept>)
    ensures
        nodes(forest@) == forest_of(records@, root_parent_id),
{
    let mut path: Vec<i32> = Vec::new();
    assert(path@.to_set() =~= Set::<i32>::empty());
    build_branch(records, root_parent_id, &mut path)
}

} // verus!
