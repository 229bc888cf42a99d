//! The task-category codificator: a tree of at most five levels whose ids are
//! unique across the whole tree, and the change log written when it is saved.
use vstd::prelude::*;
use crate::text::{str_eq, trim, trim_str, nat_decimal, concat2, concat3, u64_to_decimal};

verus! {

/// One node of the task-category tree.
pub struct TaskCategoryNode {
    pub id: String,
    pub label: String,
    pub children: Option<Vec<TaskCategoryNode>>,
}

/// The children of a node as a sequence (none when absent).
pub open spec fn node_children(node: TaskCategoryNode) -> Seq<TaskCategoryNode> {
    match node.children {
        Some(c) => c@,
        None => Seq::empty(),
    }
}

/// Pre-order listing of every node of a forest.
pub open spec fn flatten(nodes: Seq<TaskCategoryNode>) -> Seq<TaskCategoryNode>
    decreases nodes,
{
    if nodes.len() == 0 {
        Seq::empty()
    } else {
        let first = nodes[0];
        let below = match first.children {
            Some(c) => flatten(c@),
            None => Seq::empty(),
        };
        seq![first] + below + flatten(nodes.drop_first())
    }
}

/// Whether some node of the forest carries this id.
pub open spec fn forest_has_id(nodes: Seq<TaskCategoryNode>, id: Seq<char>) -> bool {
    exists|k: int| 0 <= k < flatten(nodes).len() && (#[trigger] flatten(nodes)[k]).id@ == id
}

pub proof fn lemma_flatten_cons(nodes: Seq<TaskCategoryNode>)
    requires
        nodes.len() > 0,
    ensures
        flatten(nodes) == seq![nodes[0]] + flatten(node_children(nodes[0])) + flatten(
            nodes.drop_first(),
        ),
{
    match nodes[0].children {
        Some(c) => {},
        None => {
            assert(flatten(Seq::<TaskCategoryNode>::empty()) =~= Seq::<TaskCategoryNode>::empty());
        },
    }
}

/// Whether `target_id` names a node anywhere in the forest.
pub fn category_tree_contains_id(tree: &Vec<TaskCategoryNode>, target_id: &str) -> (r: bool)
    ensures
        r == forest_has_id(tree@, target_id@),
    decreases tree@,
{
    let mut i: usize = 0;
    while i < tree.len()
        invariant
            0 <= i <= tree@.len(),
            forall|k: int|
                0 <= k < flatten(tree@.take(i as int)).len() ==> (#[trigger] flatten(
                    tree@.take(i as int),
                )[k]).id@ != target_id@,
        decreases tree@.len() - i,
    {
        let node = &tree[i];
        proof {
            lemma_flatten_split(tree@, i as int);
        }
        if str_eq(node.id.as_str(), target_id) {
            proof {
                lemma_flatten_split(tree@, i as int);
                let pre = flatten(tree@.take(i as int));
                assert(flatten(tree@)[pre.len() as int] == tree@[i as int]);
            }
            return true;
        }
        match &node.children {
            Some(children) => {
                proof {
                    assert(decreases_to!(tree@ => tree@[i as int]));
                }
                if category_tree_contains_id(children, target_id) {
                    proof {
                        lemma_flatten_split(tree@, i as int);
                        let pre = flatten(tree@.take(i as int));
                        let k = choose|k: int|
                            0 <= k < flatten(children@).len() && (#[trigger] flatten(
                                children@,
                            )[k]).id@ == target_id@;
                        assert(flatten(tree@)[pre.len() + 1 + k] == flatten(children@)[k]);
                    }
                    return true;
                }
            },
            None => {},
        }
        proof {
            lemma_flatten_split(tree@, i as int);
            lemma_flatten_take_step(tree@, i as int);
        }
        i = i + 1;
    }
    proof {
        assert(tree@.take(i as int) =~= tree@);
    }
    false
}

/// Flattening distributes over splitting the forest.
pub proof fn lemma_flatten_append(a: Seq<TaskCategoryNode>, b: Seq<TaskCategoryNode>)
    ensures
        flatten(a + b) == flatten(a) + flatten(b),
    decreases a.len(),
{
    if a.len() == 0 {
        assert(a + b =~= b);
        assert(flatten(a) =~= Seq::<TaskCategoryNode>::empty());
        assert(flatten(a) + flatten(b) =~= flatten(b));
    } else {
        lemma_flatten_cons(a + b);
        lemma_flatten_cons(a);
        assert((a + b).drop_first() =~= a.drop_first() + b);
        lemma_flatten_append(a.drop_first(), b);
        assert((a + b)[0] == a[0]);
        assert(flatten(a + b) =~= flatten(a) + flatten(b));
    }
}

/// The flattening of the first `i + 1` trees is that of the first `i`, the
/// `i`-th node, then its descendants.
pub proof fn lemma_flatten_take_step(nodes: Seq<TaskCategoryNode>, i: int)
    requires
        0 <= i < nodes.len(),
    ensures
        flatten(nodes.take(i + 1)) == flatten(nodes.take(i)) + seq![nodes[i]] + flatten(
            node_children(nodes[i]),
        ),
{
    assert(nodes.take(i + 1) =~= nodes.take(i) + seq![nodes[i]]);
    lemma_flatten_append(nodes.take(i), seq![nodes[i]]);
    lemma_flatten_cons(seq![nodes[i]]);
    assert(seq![nodes[i]].drop_first() =~= Seq::<TaskCategoryNode>::empty());
    assert(flatten(Seq::<TaskCategoryNode>::empty()) =~= Seq::<TaskCategoryNode>::empty());
    assert(flatten(seq![nodes[i]]) =~= seq![nodes[i]] + flatten(node_children(nodes[i])));
    assert(flatten(nodes.take(i + 1)) =~= flatten(nodes.take(i)) + seq![nodes[i]] + flatten(
        node_children(nodes[i]),
    ));
}

/// The whole flattening is the prefix's, the `i`-th node, its descendants,
/// then the rest.
pub proof fn lemma_flatten_split(nodes: Seq<TaskCategoryNode>, i: int)
    requires
        0 <= i < nodes.len(),
    ensures
        flatten(nodes) == flatten(nodes.take(i)) + seq![nodes[i]] + flatten(
            node_children(nodes[i]),
        ) + flatten(nodes.skip(i + 1)),
{
    assert(nodes =~= nodes.take(i + 1) + nodes.skip(i + 1));
    lemma_flatten_append(nodes.take(i + 1), nodes.skip(i + 1));
    lemma_flatten_take_step(nodes, i);
}

/// One step of the pre-order walk that normalisation makes: the node, its
/// depth (roots are at depth 1) and its location text such as
/// `root[0].children[2]`.
pub struct NodeVisit {
    pub node: TaskCategoryNode,
    pub depth: int,
    pub location: Seq<char>,
}

pub open spec fn indexed_location(prefix: Seq<char>, index: nat) -> Seq<char> {
    prefix + "["@ + nat_decimal(index) + "]"@
}

pub open spec fn child_prefix(location: Seq<char>) -> Seq<char> {
    location + ".children"@
}

/// The visits of a node and of its whole subtree, in pre-order.
pub open spec fn node_visits(node: TaskCategoryNode, depth: int, location: Seq<char>) -> Seq<
    NodeVisit,
>
    decreases node, 1int,
{
    let below = match node.children {
        Some(c) => forest_visits(c@, depth + 1, child_prefix(location), 0),
        None => Seq::empty(),
    };
    seq![NodeVisit { node, depth, location }] + below
}

/// The visits of the descendants of a node.
pub open spec fn child_visits(node: TaskCategoryNode, depth: int, location: Seq<char>) -> Seq<NodeVisit> {
    match node.children {
        Some(c) => forest_visits(c@, depth + 1, child_prefix(location), 0),
        None => Seq::empty(),
    }
}

/// The visits of a forest whose first tree has index `offset` under `prefix`.
pub open spec fn forest_visits(
    nodes: Seq<TaskCategoryNode>,
    depth: int,
    prefix: Seq<char>,
    offset: nat,
) -> Seq<NodeVisit>
    decreases nodes, 0int,
{
    if nodes.len() == 0 {
        Seq::empty()
    } else {
        node_visits(nodes[0], depth, indexed_location(prefix, offset)) + forest_visits(
            nodes.drop_first(),
            depth,
            prefix,
            offset + 1,
        )
    }
}

/// What is wrong with a visited node given the ids already taken, checked in
/// the order depth, id, label, uniqueness.
pub open spec fn visit_problem(v: NodeVisit, known: Set<Seq<char>>) -> Option<Seq<char>> {
    if v.depth > 5 {
        Some("category depth exceeds 5 at "@ + v.location)
    } else if trim(v.node.id@).len() == 0 {
        Some("category id cannot be empty at "@ + v.location)
    } else if trim(v.node.label@).len() == 0 {
        Some("category label cannot be empty at "@ + v.location)
    } else if known.contains(trim(v.node.id@)) {
        Some("duplicate category id '"@ + trim(v.node.id@) + "'"@)
    } else {
        None
    }
}

/// The first problem met along the visits, each accepted node taking its id.
pub open spec fn first_visit_problem(vs: Seq<NodeVisit>, known: Set<Seq<char>>) -> Option<
    Seq<char>,
>
    decreases vs.len(),
{
    if vs.len() == 0 {
        None
    } else {
        match visit_problem(vs[0], known) {
            Some(m) => Some(m),
            None => first_visit_problem(vs.drop_first(), known.insert(trim(vs[0].node.id@))),
        }
    }
}

/// The trimmed ids of the visited nodes.
pub open spec fn visit_ids(vs: Seq<NodeVisit>) -> Set<Seq<char>> {
    vs.map_values(|v: NodeVisit| trim(v.node.id@)).to_set()
}

pub open spec fn known_ids(known: Seq<String>) -> Set<Seq<char>> {
    known.map_values(|s: String| s@).to_set()
}

/// `out` is `inp` with ids and labels trimmed and empty child lists dropped.
pub open spec fn normalized_forest(out: Seq<TaskCategoryNode>, inp: Seq<TaskCategoryNode>) -> bool
    decreases inp,
{
    if inp.len() == 0 {
        out.len() == 0
    } else {
        &&& out.len() == inp.len()
        &&& out[0].id@ == trim(inp[0].id@)
        &&& out[0].label@ == trim(inp[0].label@)
        &&& match inp[0].children {
            Some(c) => if c@.len() > 0 {
                match out[0].children {
                    Some(oc) => normalized_forest(oc@, c@),
                    None => false,
                }
            } else {
                out[0].children is None
            },
            None => out[0].children is None,
        }
        &&& normalized_forest(out.drop_first(), inp.drop_first())
    }
}

/// `normalize_category_tree`: the first problem of the pre-order walk, or
/// the trimmed tree.
pub open spec fn tree_normalizes(tree: Seq<TaskCategoryNode>) -> bool {
    first_visit_problem(forest_visits(tree, 1, "root"@, 0), Set::empty()) is None
}

pub proof fn lemma_first_problem_append(a: Seq<NodeVisit>, b: Seq<NodeVisit>, known: Set<Seq<char>>)
    ensures
        first_visit_problem(a + b, known) == match first_visit_problem(a, known) {
            Some(m) => Some(m),
            None => first_visit_problem(b, known + visit_ids(a)),
        },
    decreases a.len(),
{
    if a.len() == 0 {
        assert(a + b =~= b);
        assert(visit_ids(a) =~= Set::empty());
        assert(known + visit_ids(a) =~= known);
    } else {
        assert((a + b).drop_first() =~= a.drop_first() + b);
        assert((a + b)[0] == a[0]);
        let k2 = known.insert(trim(a[0].node.id@));
        lemma_first_problem_append(a.drop_first(), b, k2);
        assert(k2 + visit_ids(a.drop_first()) =~= known + visit_ids(a)) by {
            assert forall|x| (k2 + visit_ids(a.drop_first())).contains(x) <==> (known + visit_ids(
                a,
            )).contains(x) by {
                let f = |v: NodeVisit| trim(v.node.id@);
                if visit_ids(a).contains(x) {
                    let j = choose|j: int|
                        0 <= j < a.len() && #[trigger] a.map_values(f)[j] == x;
                    if j > 0 {
                        assert(a.drop_first().map_values(f)[j - 1] == x);
                    }
                }
                if visit_ids(a.drop_first()).contains(x) {
                    let j = choose|j: int|
                        0 <= j < a.drop_first().len() && #[trigger] a.drop_first().map_values(
                            f,
                        )[j] == x;
                    assert(a.map_values(f)[j + 1] == x);
                }
                if x == trim(a[0].node.id@) {
                    assert(a.map_values(f)[0] == x);
                }
            }
        }
    }
}

pub proof fn lemma_forest_visits_append(
    a: Seq<TaskCategoryNode>,
    b: Seq<TaskCategoryNode>,
    depth: int,
    prefix: Seq<char>,
    offset: nat,
)
    ensures
        forest_visits(a + b, depth, prefix, offset) == forest_visits(a, depth, prefix, offset)
            + forest_visits(b, depth, prefix, offset + a.len()),
    decreases a.len(),
{
    if a.len() == 0 {
        assert(a + b =~= b);
        assert(forest_visits(a, depth, prefix, offset) =~= Seq::<NodeVisit>::empty());
        assert(forest_visits(a, depth, prefix, offset) + forest_visits(b, depth, prefix, offset)
            =~= forest_visits(b, depth, prefix, offset));
    } else {
        assert((a + b).drop_first() =~= a.drop_first() + b);
        assert((a + b)[0] == a[0]);
        lemma_forest_visits_append(a.drop_first(), b, depth, prefix, offset + 1);
        assert(forest_visits(a + b, depth, prefix, offset) =~= forest_visits(
            a,
            depth,
            prefix,
            offset,
        ) + forest_visits(b, depth, prefix, offset + a.len()));
    }
}

proof fn lemma_forest_visits_single(n: TaskCategoryNode, depth: int, prefix: Seq<char>, offset: nat)
    ensures
        forest_visits(seq![n], depth, prefix, offset) == node_visits(
            n,
            depth,
            indexed_location(prefix, offset),
        ),
{
    assert(seq![n].drop_first() =~= Seq::<TaskCategoryNode>::empty());
    assert(seq![n][0] == n);
    assert(forest_visits(Seq::<TaskCategoryNode>::empty(), depth, prefix, offset + 1) =~= Seq::<NodeVisit>::empty());
    assert(forest_visits(seq![n], depth, prefix, offset) =~= node_visits(
        n,
        depth,
        indexed_location(prefix, offset),
    ) + Seq::<NodeVisit>::empty());
}

proof fn lemma_normalized_forest_push(
    out: Seq<TaskCategoryNode>,
    inp: Seq<TaskCategoryNode>,
    x: TaskCategoryNode,
    y: TaskCategoryNode,
)
    requires
        normalized_forest(out, inp),
        normalized_forest(seq![x], seq![y]),
    ensures
        normalized_forest(out.push(x), inp.push(y)),
    decreases inp.len(),
{
    if inp.len() == 0 {
        assert(out.push(x) =~= seq![x]);
        assert(inp.push(y) =~= seq![y]);
    } else {
        assert(out.push(x).drop_first() =~= out.drop_first().push(x));
        assert(inp.push(y).drop_first() =~= inp.drop_first().push(y));
        lemma_normalized_forest_push(out.drop_first(), inp.drop_first(), x, y);
    }
}

proof fn lemma_known_push(known: Seq<String>, s: String)
    ensures
        known_ids(known.push(s)) == known_ids(known).insert(s@),
{
    let f = |t: String| t@;
    assert(known.push(s).map_values(f) =~= known.map_values(f).push(s@));
    assert(known.map_values(f).push(s@).to_set() =~= known.map_values(f).to_set().insert(s@)) by {
        assert forall|x| known.map_values(f).push(s@).to_set().contains(x) <==> known.map_values(
            f,
        ).to_set().insert(s@).contains(x) by {
            if known.map_values(f).push(s@).to_set().contains(x) {
                let j = choose|j: int|
                    0 <= j < known.map_values(f).push(s@).len() && known.map_values(f).push(
                        s@,
                    )[j] == x;
                if j < known.len() {
                    assert(known.map_values(f)[j] == x);
                }
            }
            if known.map_values(f).to_set().contains(x) {
                let j = choose|j: int|
                    0 <= j < known.map_values(f).len() && known.map_values(f)[j] == x;
                assert(known.map_values(f).push(s@)[j] == x);
            }
            if x == s@ {
                assert(known.map_values(f).push(s@)[known.len() as int] == x);
            }
        }
    }
}

proof fn lemma_visit_ids_single(v: NodeVisit)
    ensures
        visit_ids(seq![v]) == Set::<Seq<char>>::empty().insert(trim(v.node.id@)),
{
    let f = |w: NodeVisit| trim(w.node.id@);
    assert(seq![v].map_values(f) =~= seq![trim(v.node.id@)]);
    assert(seq![trim(v.node.id@)].to_set() =~= Set::<Seq<char>>::empty().insert(trim(v.node.id@)))
        by {
        assert forall|x| seq![trim(v.node.id@)].to_set().contains(x) <==> x == trim(v.node.id@) by {
            if x == trim(v.node.id@) {
                assert(seq![trim(v.node.id@)][0] == x);
            }
        }
    }
}

fn known_contains(known: &Vec<String>, id: &str) -> (r: bool)
    ensures
        r == known_ids(known@).contains(id@),
{
    let mut j: usize = 0;
    while j < known.len()
        invariant
            0 <= j <= known@.len(),
            forall|k: int| 0 <= k < j ==> known@[k]@ != id@,
        decreases known@.len() - j,
    {
        if str_eq(known[j].as_str(), id) {
            proof {
                let f = |t: String| t@;
                assert(known@.map_values(f)[j as int] == id@);
            }
            return true;
        }
        j = j + 1;
    }
    proof {
        let f = |t: String| t@;
        if known_ids(known@).contains(id@) {
            let k = choose|k: int| 0 <= k < known@.map_values(f).len() && known@.map_values(f)[k] == id@;
            assert(known@[k]@ == id@);
        }
    }
    false
}

fn indexed_location_text(prefix: &str, index: usize) -> (r: String)
    ensures
        r@ == indexed_location(prefix@, index as nat),
{
    let digits = u64_to_decimal(index as u64);
    let a = concat3(prefix, "[", digits.as_str());
    concat2(a.as_str(), "]")
}

/// Normalises one node at `depth` and `location`, recording its id in `known`.
fn normalize_category_node(
    node: &TaskCategoryNode,
    depth: usize,
    known: &mut Vec<String>,
    location: &str,
) -> (r: Result<TaskCategoryNode, String>)
    requires
        1 <= depth,
    ensures
        match r {
            Err(m) => first_visit_problem(
                node_visits(*node, depth as int, location@),
                known_ids(old(known)@),
            ) == Some(m@),
            Ok(out) => {
                &&& first_visit_problem(
                    node_visits(*node, depth as int, location@),
                    known_ids(old(known)@),
                ) is None
                &&& known_ids(final(known)@) == known_ids(old(known)@) + visit_ids(
                    node_visits(*node, depth as int, location@),
                )
                &&& normalized_forest(seq![out], seq![*node])
            },
        },
    decreases *node, 1int,
{
    let ghost k0 = known_ids(known@);
    let ghost visit = NodeVisit { node: *node, depth: depth as int, location: location@ };
    let ghost below = child_visits(*node, depth as int, location@);
    proof {
        assert(node_visits(*node, depth as int, location@) == seq![visit] + below);
        assert((seq![visit] + below)[0] == visit);
        assert((seq![visit] + below).drop_first() =~= below);
        assert(first_visit_problem(seq![visit] + below, k0) == match visit_problem(visit, k0) {
            Some(m) => Some(m),
            None => first_visit_problem(below, k0.insert(trim(node.id@))),
        });
        lemma_visit_ids_single(visit);
    }
    if depth > 5 {
        let m = concat2("category depth exceeds 5 at ", location);
        return Err(m);
    }
    let normalized_id = trim_str(node.id.as_str());
    let normalized_label = trim_str(node.label.as_str());
    if normalized_id.unicode_len() == 0 {
        let m = concat2("category id cannot be empty at ", location);
        return Err(m);
    }
    if normalized_label.unicode_len() == 0 {
        let m = concat2("category label cannot be empty at ", location);
        return Err(m);
    }
    if known_contains(known, normalized_id.as_str()) {
        let m = concat3("duplicate category id '", normalized_id.as_str(), "'");
        return Err(m);
    }
    let id_copy = normalized_id.clone();
    known.push(id_copy);
    proof {
        lemma_known_push(old(known)@, normalized_id);
        assert(k0.insert(trim(node.id@)) =~= k0 + visit_ids(seq![visit]));
    }
    let ghost k1 = known_ids(known@);
    let normalized_children: Option<Vec<TaskCategoryNode>> = match &node.children {
        Some(children) => {
            if children.len() > 0 {
                let child_location = concat2(location, ".children");
                let result = normalize_category_children(children, depth + 1, known, child_location.as_str());
                proof {
                    assert(below == forest_visits(children@, depth + 1, child_prefix(location@), 0));
                    assert(k1 == k0.insert(trim(node.id@)));
                }
                match result {
                    Ok(c) => Some(c),
                    Err(e) => {
                        proof {
                            assert(first_visit_problem(below, k1) == Some(e@));
                        }
                        return Err(e);
                    },
                }
            } else {
                proof {
                    assert(below =~= Seq::<NodeVisit>::empty());
                }
                None
            }
        },
        None => None,
    };
    proof {
        assert(visit_ids(seq![visit] + below) =~= visit_ids(seq![visit]) + visit_ids(below)) by {
            let f = |v: NodeVisit| trim(v.node.id@);
            assert((seq![visit] + below).map_values(f) =~= seq![visit].map_values(f) + below.map_values(f));
            vstd::seq_lib::lemma_seq_union_to_multiset_commutative(seq![visit].map_values(f), below.map_values(f));
            assert forall|x| (seq![visit].map_values(f) + below.map_values(f)).to_set().contains(x) <==> (seq![visit].map_values(f).to_set() + below.map_values(f).to_set()).contains(x) by {
                let s1 = seq![visit].map_values(f);
                let s2 = below.map_values(f);
                if (s1 + s2).to_set().contains(x) {
                    let j = choose|j: int| 0 <= j < (s1 + s2).len() && (s1 + s2)[j] == x;
                    if j < s1.len() { assert(s1[j] == x); } else { assert(s2[j - s1.len()] == x); }
                }
                if s1.to_set().contains(x) {
                    let j = choose|j: int| 0 <= j < s1.len() && s1[j] == x;
                    assert((s1 + s2)[j] == x);
                }
                if s2.to_set().contains(x) {
                    let j = choose|j: int| 0 <= j < s2.len() && s2[j] == x;
                    assert((s1 + s2)[j + s1.len()] == x);
                }
            }
        }
        if below.len() == 0 {
            assert(visit_ids(below) =~= Set::empty());
        }
    }
    let out = TaskCategoryNode { id: normalized_id, label: normalized_label, children: normalized_children };
    proof {
        assert(normalized_forest(Seq::<TaskCategoryNode>::empty(), Seq::<TaskCategoryNode>::empty()));
        assert(seq![out].drop_first() =~= Seq::<TaskCategoryNode>::empty());
        assert(seq![*node].drop_first() =~= Seq::<TaskCategoryNode>::empty());
    }
    Ok(out)
}

/// Normalises the children of a node; `prefix` is the node's location
/// followed by `.children`.
fn normalize_category_children(
    nodes: &Vec<TaskCategoryNode>,
    depth: usize,
    known: &mut Vec<String>,
    prefix: &str,
) -> (r: Result<Vec<TaskCategoryNode>, String>)
    requires
        1 <= depth,
    ensures
        match r {
            Err(m) => first_visit_problem(
                forest_visits(nodes@, depth as int, prefix@, 0),
                known_ids(old(known)@),
            ) == Some(m@),
            Ok(out) => {
                &&& first_visit_problem(
                    forest_visits(nodes@, depth as int, prefix@, 0),
                    known_ids(old(known)@),
                ) is None
                &&& known_ids(final(known)@) == known_ids(old(known)@) + visit_ids(
                    forest_visits(nodes@, depth as int, prefix@, 0),
                )
                &&& normalized_forest(out@, nodes@)
            },
        },
    decreases nodes@, 0int,
{
    let ghost k0 = known_ids(known@);
    let mut out: Vec<TaskCategoryNode> = Vec::new();
    let mut i: usize = 0;
    proof {
        assert(nodes@.take(0) =~= Seq::<TaskCategoryNode>::empty());
        assert(visit_ids(Seq::<NodeVisit>::empty()) =~= Set::empty());
        assert(k0 + Set::empty() =~= k0);
    }
    while i < nodes.len()
        invariant
            0 <= i <= nodes@.len(),
            1 <= depth,
            k0 == known_ids(old(known)@),
            first_visit_problem(forest_visits(nodes@.take(i as int), depth as int, prefix@, 0), k0)
                is None,
            known_ids(known@) == k0 + visit_ids(
                forest_visits(nodes@.take(i as int), depth as int, prefix@, 0),
            ),
            normalized_forest(out@, nodes@.take(i as int)),
        decreases nodes@.len() - i,
    {
        let ghost pre = forest_visits(nodes@.take(i as int), depth as int, prefix@, 0);
        let ghost here = node_visits(nodes@[i as int], depth as int, indexed_location(prefix@, i as nat));
        proof {
            assert(nodes@.take(i + 1) =~= nodes@.take(i as int) + seq![nodes@[i as int]]);
            lemma_forest_visits_append(nodes@.take(i as int), seq![nodes@[i as int]], depth as int, prefix@, 0);
            lemma_forest_visits_single(nodes@[i as int], depth as int, prefix@, i as nat);
            lemma_first_problem_append(pre, here, k0);
            assert(forest_visits(nodes@.take(i + 1), depth as int, prefix@, 0) == pre + here);
        }
        let location = indexed_location_text(prefix, i);
        proof {
            assert(decreases_to!(nodes@ => nodes@[i as int]));
        }
        match normalize_category_node(&nodes[i], depth, known, location.as_str()) {
            Ok(n) => {
                proof {
                    lemma_normalized_forest_push(out@, nodes@.take(i as int), n, nodes@[i as int]);
                    assert(nodes@.take(i as int).push(nodes@[i as int]) =~= nodes@.take(i + 1));
                    assert(visit_ids(pre + here) =~= visit_ids(pre) + visit_ids(here)) by {
                        lemma_visit_ids_append(pre, here);
                    }
                    assert(k0 + visit_ids(pre) + visit_ids(here) =~= k0 + visit_ids(pre + here));
                }
                out.push(n);
            },
            Err(e) => {
                proof {
                    assert(first_visit_problem(here, k0 + visit_ids(pre)) == Some(e@));
                    assert(first_visit_problem(pre + here, k0) == Some(e@));
                    lemma_first_problem_prefix_none_then(nodes@, i as int, depth as int, prefix@, k0);
                    assert(forest_visits(nodes@.take(i + 1), depth as int, prefix@, 0) == pre + here);
                    assert(first_visit_problem(forest_visits(nodes@.take(i + 1), depth as int, prefix@, 0), k0) == Some(e@));
                    assert(first_visit_problem(forest_visits(nodes@, depth as int, prefix@, 0), k0) == Some(e@));
                }
                return Err(e);
            },
        }
        i = i + 1;
    }
    proof {
        assert(nodes@.take(i as int) =~= nodes@);
    }
    Ok(out)
}

proof fn lemma_visit_ids_append(a: Seq<NodeVisit>, b: Seq<NodeVisit>)
    ensures
        visit_ids(a + b) == visit_ids(a) + visit_ids(b),
{
    let f = |v: NodeVisit| trim(v.node.id@);
    let s1 = a.map_values(f);
    let s2 = b.map_values(f);
    assert((a + b).map_values(f) =~= s1 + s2);
    assert forall|x| (s1 + s2).to_set().contains(x) <==> (s1.to_set() + s2.to_set()).contains(x) by {
        if (s1 + s2).to_set().contains(x) {
            let j = choose|j: int| 0 <= j < (s1 + s2).len() && (s1 + s2)[j] == x;
            if j < s1.len() {
                assert(s1[j] == x);
            } else {
                assert(s2[j - s1.len()] == x);
            }
        }
        if s1.to_set().contains(x) {
            let j = choose|j: int| 0 <= j < s1.len() && s1[j] == x;
            assert((s1 + s2)[j] == x);
        }
        if s2.to_set().contains(x) {
            let j = choose|j: int| 0 <= j < s2.len() && s2[j] == x;
            assert((s1 + s2)[j + s1.len()] == x);
        }
    }
    assert((s1 + s2).to_set() =~= s1.to_set() + s2.to_set());
}

proof fn lemma_first_problem_prefix_none_then(
    nodes: Seq<TaskCategoryNode>,
    i: int,
    depth: int,
    prefix: Seq<char>,
    k0: Set<Seq<char>>,
)
    requires
        0 <= i < nodes.len(),
        first_visit_problem(forest_visits(nodes.take(i), depth, prefix, 0), k0) is None,
    ensures
        first_visit_problem(forest_visits(nodes, depth, prefix, 0), k0) == first_visit_problem(
            forest_visits(nodes.take(i + 1), depth, prefix, 0),
            k0,
        ) || first_visit_problem(forest_visits(nodes.take(i + 1), depth, prefix, 0), k0) is None,
{
    assert(nodes =~= nodes.take(i + 1) + nodes.skip(i + 1));
    lemma_forest_visits_append(nodes.take(i + 1), nodes.skip(i + 1), depth, prefix, 0);
    lemma_first_problem_append(
        forest_visits(nodes.take(i + 1), depth, prefix, 0),
        forest_visits(nodes.skip(i + 1), depth, prefix, (i + 1) as nat),
        k0,
    );
}

/// Trims ids and labels, drops empty child lists, and refuses a tree deeper
/// than five levels, with an empty id or label, or with an id used twice;
/// the error names the first such node in pre-order.
pub fn normalize_category_tree(tree: &Vec<TaskCategoryNode>) -> (r: Result<
    Vec<TaskCategoryNode>,
    String,
>)
    ensures
        match r {
            Err(m) => first_visit_problem(forest_visits(tree@, 1, "root"@, 0), Set::empty())
                == Some(m@),
            Ok(out) => tree_normalizes(tree@) && normalized_forest(out@, tree@),
        },
{
    let mut known: Vec<String> = Vec::new();
    proof {
        assert(known_ids(known@) =~= Set::<Seq<char>>::empty());
    }
    normalize_category_children(tree, 1, &mut known, "root")
}

proof fn lemma_no_problem_facts(vs: Seq<NodeVisit>, known: Set<Seq<char>>)
    requires
        first_visit_problem(vs, known) is None,
    ensures
        forall|k: int|
            0 <= k < vs.len() ==> {
                &&& (#[trigger] vs[k]).depth <= 5
                &&& trim(vs[k].node.id@).len() > 0
                &&& trim(vs[k].node.label@).len() > 0
                &&& !known.contains(trim(vs[k].node.id@))
            },
        forall|j: int, k: int|
            0 <= j < k < vs.len() ==> trim((#[trigger] vs[j]).node.id@) != trim(
                (#[trigger] vs[k]).node.id@,
            ),
    decreases vs.len(),
{
    if vs.len() > 0 {
        let k2 = known.insert(trim(vs[0].node.id@));
        lemma_no_problem_facts(vs.drop_first(), k2);
        assert forall|k: int| 0 <= k < vs.len() implies {
            &&& (#[trigger] vs[k]).depth <= 5
            &&& trim(vs[k].node.id@).len() > 0
            &&& trim(vs[k].node.label@).len() > 0
            &&& !known.contains(trim(vs[k].node.id@))
        } by {
            if k > 0 {
                assert(vs[k] == vs.drop_first()[k - 1]);
            }
        }
        assert forall|j: int, k: int| 0 <= j < k < vs.len() implies trim(
            (#[trigger] vs[j]).node.id@,
        ) != trim((#[trigger] vs[k]).node.id@) by {
            assert(vs[k] == vs.drop_first()[k - 1]);
            if j > 0 {
                assert(vs[j] == vs.drop_first()[j - 1]);
            }
        }
    }
}

/// The walk visits exactly the nodes of the forest, in pre-order.
pub proof fn lemma_visits_are_flatten(
    nodes: Seq<TaskCategoryNode>,
    depth: int,
    prefix: Seq<char>,
    offset: nat,
)
    ensures
        forest_visits(nodes, depth, prefix, offset).len() == flatten(nodes).len(),
        forall|k: int|
            0 <= k < flatten(nodes).len() ==> (#[trigger] forest_visits(
                nodes,
                depth,
                prefix,
                offset,
            )[k]).node == flatten(nodes)[k],
    decreases nodes,
{
    if nodes.len() > 0 {
        let n = nodes[0];
        let loc = indexed_location(prefix, offset);
        lemma_flatten_cons(nodes);
        let cv = child_visits(n, depth, loc);
        let rest = forest_visits(nodes.drop_first(), depth, prefix, offset + 1);
        assert(node_visits(n, depth, loc) == seq![NodeVisit { node: n, depth, location: loc }]
            + cv);
        match n.children {
            Some(c) => {
                assert(decreases_to!(nodes => nodes[0]));
                lemma_visits_are_flatten(c@, depth + 1, child_prefix(loc), 0);
            },
            None => {
                assert(flatten(node_children(n)) =~= Seq::<TaskCategoryNode>::empty());
            },
        }
        lemma_visits_are_flatten(nodes.drop_first(), depth, prefix, offset + 1);
        let vs = forest_visits(nodes, depth, prefix, offset);
        assert(vs == seq![NodeVisit { node: n, depth, location: loc }] + cv + rest);
        let fl = flatten(nodes);
        let fc = flatten(node_children(n));
        assert forall|k: int| 0 <= k < fl.len() implies (#[trigger] vs[k]).node == fl[k] by {
            if k == 0 {
            } else if k < 1 + fc.len() {
                assert(vs[k] == cv[k - 1]);
                assert(fl[k] == fc[k - 1]);
            } else {
                assert(vs[k] == rest[k - 1 - cv.len()]);
                assert(fl[k] == flatten(nodes.drop_first())[k - 1 - fc.len()]);
            }
        }
    }
}

/// A tree that normalises has, over all its nodes: depth at most five,
/// non-blank ids and labels, and trimmed ids that are pairwise distinct.
pub proof fn law_normalized_tree_is_well_formed(tree: Seq<TaskCategoryNode>)
    requires
        tree_normalizes(tree),
    ensures
        forall|k: int|
            0 <= k < flatten(tree).len() ==> {
                &&& trim((#[trigger] flatten(tree)[k]).id@).len() > 0
                &&& trim(flatten(tree)[k].label@).len() > 0
            },
        forall|j: int, k: int|
            0 <= j < k < flatten(tree).len() ==> trim((#[trigger] flatten(tree)[j]).id@) != trim(
                (#[trigger] flatten(tree)[k]).id@,
            ),
        forall|k: int|
            0 <= k < flatten(tree).len() ==> (#[trigger] forest_visits(tree, 1, "root"@, 0)[k]).depth
                <= 5,
{
    let vs = forest_visits(tree, 1, "root"@, 0);
    lemma_no_problem_facts(vs, Set::empty());
    lemma_visits_are_flatten(tree, 1, "root"@, 0);
    assert forall|j: int, k: int| 0 <= j < k < flatten(tree).len() implies trim(
        (#[trigger] flatten(tree)[j]).id@,
    ) != trim((#[trigger] flatten(tree)[k]).id@) by {
        assert(vs[j].node == flatten(tree)[j]);
        assert(vs[k].node == flatten(tree)[k]);
    }
    assert forall|k: int| 0 <= k < flatten(tree).len() implies {
        &&& trim((#[trigger] flatten(tree)[k]).id@).len() > 0
        &&& trim(flatten(tree)[k].label@).len() > 0
    } by {
        assert(vs[k].node == flatten(tree)[k]);
    }
}

/// Two walks that agree on depth, location and trimmed id and label at
/// every step.
pub open spec fn visits_match(a: Seq<NodeVisit>, b: Seq<NodeVisit>) -> bool {
    &&& a.len() == b.len()
    &&& forall|k: int|
        0 <= k < a.len() ==> {
            &&& (#[trigger] a[k]).depth == b[k].depth
            &&& a[k].location == b[k].location
            &&& trim(a[k].node.id@) == trim(b[k].node.id@)
            &&& trim(a[k].node.label@) == trim(b[k].node.label@)
        }
}

proof fn lemma_visits_match_concat(a1: Seq<NodeVisit>, a2: Seq<NodeVisit>, b1: Seq<NodeVisit>, b2: Seq<NodeVisit>)
    requires
        visits_match(a1, a2),
        visits_match(b1, b2),
    ensures
        visits_match(a1 + b1, a2 + b2),
{
    let x = a1 + b1;
    let y = a2 + b2;
    assert forall|k: int| 0 <= k < x.len() implies {
        &&& (#[trigger] x[k]).depth == y[k].depth
        &&& x[k].location == y[k].location
        &&& trim(x[k].node.id@) == trim(y[k].node.id@)
        &&& trim(x[k].node.label@) == trim(y[k].node.label@)
    } by {
        if k < a1.len() {
            assert(x[k] == a1[k] && y[k] == a2[k]);
        } else {
            assert(x[k] == b1[k - a1.len()] && y[k] == b2[k - a1.len()]);
        }
    }
}

/// Walks that agree step by step meet the same first problem.
proof fn lemma_first_problem_match(a: Seq<NodeVisit>, b: Seq<NodeVisit>, known: Set<Seq<char>>)
    requires
        visits_match(a, b),
    ensures
        first_visit_problem(a, known) == first_visit_problem(b, known),
    decreases a.len(),
{
    if a.len() > 0 {
        assert(a[0].depth == b[0].depth);
        assert(visit_problem(a[0], known) == visit_problem(b[0], known));
        let da = a.drop_first();
        let db = b.drop_first();
        assert forall|k: int| 0 <= k < da.len() implies {
            &&& (#[trigger] da[k]).depth == db[k].depth
            &&& da[k].location == db[k].location
            &&& trim(da[k].node.id@) == trim(db[k].node.id@)
            &&& trim(da[k].node.label@) == trim(db[k].node.label@)
        } by {
            assert(da[k] == a[k + 1] && db[k] == b[k + 1]);
        }
        lemma_first_problem_match(da, db, known.insert(trim(a[0].node.id@)));
    }
}

/// A normalised forest is walked as its source is: same depths and
/// locations, and the same ids and labels once trimmed.
proof fn lemma_normalized_visits_match(
    n: Seq<TaskCategoryNode>,
    t: Seq<TaskCategoryNode>,
    depth: int,
    prefix: Seq<char>,
    offset: nat,
)
    requires
        normalized_forest(n, t),
    ensures
        visits_match(forest_visits(n, depth, prefix, offset), forest_visits(t, depth, prefix, offset)),
    decreases t,
{
    if t.len() > 0 {
        let loc = indexed_location(prefix, offset);
        let cn = child_visits(n[0], depth, loc);
        let ct = child_visits(t[0], depth, loc);
        match t[0].children {
            Some(c) => {
                if c@.len() > 0 {
                    match n[0].children {
                        Some(oc) => {
                            assert(decreases_to!(t => t[0]));
                            lemma_normalized_visits_match(oc@, c@, depth + 1, child_prefix(loc), 0);
                        },
                        None => {},
                    }
                } else {
                    assert(ct =~= Seq::<NodeVisit>::empty());
                }
            },
            None => {},
        }
        assert(visits_match(cn, ct));
        crate::text::lemma_trim_idempotent(t[0].id@);
        crate::text::lemma_trim_idempotent(t[0].label@);
        let hn = seq![NodeVisit { node: n[0], depth, location: loc }];
        let ht = seq![NodeVisit { node: t[0], depth, location: loc }];
        assert(visits_match(hn, ht));
        lemma_visits_match_concat(hn, ht, cn, ct);
        assert(node_visits(n[0], depth, loc) == hn + cn);
        assert(node_visits(t[0], depth, loc) == ht + ct);
        lemma_normalized_visits_match(n.drop_first(), t.drop_first(), depth, prefix, offset + 1);
        lemma_visits_match_concat(
            node_visits(n[0], depth, loc),
            node_visits(t[0], depth, loc),
            forest_visits(n.drop_first(), depth, prefix, offset + 1),
            forest_visits(t.drop_first(), depth, prefix, offset + 1),
        );
    }
}

/// A normalised forest is its own normalisation.
proof fn lemma_normalized_self(n: Seq<TaskCategoryNode>, t: Seq<TaskCategoryNode>)
    requires
        normalized_forest(n, t),
    ensures
        normalized_forest(n, n),
    decreases t,
{
    if t.len() > 0 {
        crate::text::lemma_trim_idempotent(t[0].id@);
        crate::text::lemma_trim_idempotent(t[0].label@);
        match t[0].children {
            Some(c) => {
                if c@.len() > 0 {
                    match n[0].children {
                        Some(oc) => {
                            assert(decreases_to!(t => t[0]));
                            assert(normalized_forest(oc@, c@));
                            lemma_normalized_self(oc@, c@);
                            assert(oc@.len() == c@.len());
                            assert(n[0].children == Some(oc));
                        },
                        None => {},
                    }
                }
            },
            None => {},
        }
        lemma_normalized_self(n.drop_first(), t.drop_first());
        assert(n.len() == t.len() && n.len() > 0);
        assert(n[0].id@ == trim(n[0].id@));
        assert(n[0].label@ == trim(n[0].label@));
    } else {
        assert(n.len() == 0);
    }
}

/// Normalising a tree that has just been normalised accepts it and gives it
/// back unchanged: what a reload after a save reads is what was saved.
pub proof fn law_normalize_category_tree_idempotent(t: Seq<TaskCategoryNode>, n: Seq<TaskCategoryNode>)
    requires
        tree_normalizes(t),
        normalized_forest(n, t),
    ensures
        tree_normalizes(n),
        normalized_forest(n, n),
{
    lemma_normalized_visits_match(n, t, 1, "root"@, 0);
    lemma_first_problem_match(forest_visits(n, 1, "root"@, 0), forest_visits(t, 1, "root"@, 0), Set::empty());
    lemma_normalized_self(n, t);
}

} // verus!
