//! The tree renderer: builds the filtered selection into a sorted tree and
//! renders it as an indented ASCII-art string, one line per entry, with
//! box-drawing connectors and a `/` suffix on directory names.

use vstd::prelude::*;

use crate::collect::CollectedEntry;
use crate::collect::path_starts_with;
use crate::collect::starts_with_components;
use crate::text::lex_lt;
use crate::text::lemma_lex_connected;
use crate::text::lemma_lex_not_refl;
use crate::text::lemma_lex_transitive;
use crate::text::str_lt;

verus! {

/// One rendered tree node: a file, or a directory with its children.
pub struct Node {
    pub name: String,
    pub is_dir: bool,
    pub children: Vec<Node>,
}

/// The order of siblings in a rendered directory: directories before files,
/// then lexicographically by name.
pub open spec fn node_lt(a: Node, b: Node) -> bool {
    (a.is_dir && !b.is_dir) || (a.is_dir == b.is_dir && lex_lt(a.name@, b.name@))
}

/// Whether a sibling list is strictly sorted in rendering order.
pub open spec fn sorted_children(cs: Seq<Node>) -> bool {
    forall|i: int, j: int| 0 <= i < j < cs.len() ==> node_lt(cs[i], cs[j])
}

/// Whether no two siblings share a name.
pub open spec fn distinct_names(cs: Seq<Node>) -> bool {
    forall|i: int, j: int| 0 <= i < j < cs.len() ==> cs[i].name@ != cs[j].name@
}

/// Well-formedness of a sibling list: ordered, unambiguous, and every
/// member well-formed.
pub open spec fn forest_wf(cs: Seq<Node>) -> bool
    decreases cs,
{
    &&& sorted_children(cs)
    &&& distinct_names(cs)
    &&& forall|i: int| 0 <= i < cs.len() ==> (#[trigger] cs[i]).wf()
}

impl Node {
    /// A file holds no children; a directory is only ever materialized for
    /// at least one file below it.
    pub open spec fn wf(self) -> bool
        decreases self,
    {
        &&& (!self.is_dir ==> self.children@.len() == 0)
        &&& (self.is_dir ==> self.children@.len() >= 1)
        &&& forest_wf(self.children@)
    }
}

/// Whether the forest holds a file at this relative path.
pub open spec fn forest_has_file(cs: Seq<Node>, path: Seq<Seq<char>>) -> bool
    decreases cs,
{
    exists|i: int| 0 <= i < cs.len() && (#[trigger] cs[i]).has_file(path)
}

impl Node {
    /// Whether this node's subtree holds a file at this relative path,
    /// whose first component is the node's own name.
    pub open spec fn has_file(self, path: Seq<Seq<char>>) -> bool
        decreases self,
    {
        &&& path.len() >= 1
        &&& self.name@ == path[0]
        &&& if path.len() == 1 {
            !self.is_dir
        } else {
            self.is_dir && forest_has_file(self.children@, path.drop_first())
        }
    }
}

/// The rendering of a sibling list, each line carrying `prefix`, the last
/// sibling taking the terminal connector.
pub open spec fn spec_render_forest(cs: Seq<Node>, prefix: Seq<char>) -> Seq<char>
    decreases cs,
{
    if cs.len() == 0 {
        Seq::empty()
    } else {
        spec_render_node(cs[0], prefix, cs.len() == 1) + spec_render_forest(
            cs.drop_first(),
            prefix,
        )
    }
}

/// The rendering of one node: its own line, then its children indented by
/// four more columns, with a vertical continuation unless the node was the
/// last of its siblings.
pub open spec fn spec_render_node(n: Node, prefix: Seq<char>, is_last: bool) -> Seq<char>
    decreases n,
{
    let connector = if is_last {
        "└── "@
    } else {
        "├── "@
    };
    let suffix = if n.is_dir {
        "/"@
    } else {
        Seq::<char>::empty()
    };
    let child_prefix = prefix + if is_last {
        "    "@
    } else {
        "│   "@
    };
    prefix + connector + n.name@ + suffix + "\n"@ + spec_render_forest(n.children@, child_prefix)
}

/// Renders one node and its subtree, as `spec_render_node` lays it out.
pub fn render_node(n: &Node, prefix: &str, is_last: bool) -> (r: String)
    ensures
        r@ == spec_render_node(*n, prefix@, is_last),
    decreases *n,
{
    let mut line = String::from_str(prefix);
    if is_last {
        line.append("└── ");
    } else {
        line.append("├── ");
    }
    line.append(n.name.as_str());
    if n.is_dir {
        line.append("/");
    }
    line.append("\n");
    let mut child_prefix = String::from_str(prefix);
    if is_last {
        child_prefix.append("    ");
    } else {
        child_prefix.append("│   ");
    }
    let ghost header = line@;
    let ghost cs = n.children@;
    let mut i: usize = 0;
    proof {
        assert(cs.skip(0) =~= cs);
    }
    while i < n.children.len()
        invariant
            0 <= i <= n.children.len(),
            cs == n.children@,
            cs.len() == n.children.len(),
            line@ + spec_render_forest(cs.skip(i as int), child_prefix@) == header
                + spec_render_forest(cs, child_prefix@),
        decreases n.children.len() - i,
    {
        proof {
            let rest = cs.skip(i as int);
            assert(rest.len() == cs.len() - i);
            assert(rest[0] == cs[i as int]);
            assert(rest.drop_first() =~= cs.skip(i + 1 as int));
            assert(decreases_to!(*n => n.children@[i as int]));
        }
        let sub = render_node(&n.children[i], child_prefix.as_str(), i == n.children.len() - 1);
        line.append(sub.as_str());
        i = i + 1;
    }
    proof {
        assert(cs.skip(cs.len() as int) =~= Seq::<Node>::empty());
    }
    line
}

/// Compares two nodes in rendering order.
fn node_lt_exec(a: &Node, b: &Node) -> (r: bool)
    ensures
        r == node_lt(*a, *b),
{
    (a.is_dir && !b.is_dir) || (a.is_dir == b.is_dir && str_lt(a.name.as_str(), b.name.as_str()))
}

/// Nodes with different names are ordered one way or the other.
proof fn lemma_node_lt_connected(a: Node, b: Node)
    requires
        a.name@ != b.name@,
    ensures
        node_lt(a, b) || node_lt(b, a),
{
    lemma_lex_connected(a.name@, b.name@);
}

/// Rendering order is transitive.
proof fn lemma_node_lt_transitive(a: Node, b: Node, c: Node)
    requires
        node_lt(a, b),
        node_lt(b, c),
    ensures
        node_lt(a, c),
{
    if a.is_dir == b.is_dir && b.is_dir == c.is_dir {
        lemma_lex_transitive(a.name@, b.name@, c.name@);
    }
}

/// Builds the single chain of directories from `path[depth]` down to a file
/// leaf named by the last component.
fn make_chain(path: &Vec<String>, depth: usize) -> (r: Node)
    requires
        depth < path@.len(),
    ensures
        r.wf(),
        r.name@ == path.deep_view()[depth as int],
        forall|q: Seq<Seq<char>>| r.has_file(q) <==> q == path.deep_view().skip(depth as int),
    decreases path@.len() - depth,
{
    let ghost sfx = path.deep_view().skip(depth as int);
    proof {
        assert(path.deep_view().len() == path@.len());
        assert(sfx.len() == path@.len() - depth);
        assert(sfx[0] == path.deep_view()[depth as int]);
        assert(path.deep_view()[depth as int] == path@[depth as int]@);
    }
    let name = path[depth].clone();
    if depth == path.len() - 1 {
        let r = Node { name, is_dir: false, children: Vec::new() };
        proof {
            assert(r.children@.len() == 0);
            assert forall|q: Seq<Seq<char>>| r.has_file(q) implies q == sfx by {
                assert(q.len() >= 1 && q[0] == r.name@);
                if q.len() == 1 {
                    assert(q =~= sfx);
                } else {
                    assert(r.is_dir);
                }
            }
            assert(r.has_file(sfx));
        }
        r
    } else {
        let child = make_chain(path, depth + 1);
        let ghost sfx1 = path.deep_view().skip(depth + 1 as int);
        let mut v: Vec<Node> = Vec::new();
        v.push(child);
        let r = Node { name, is_dir: true, children: v };
        proof {
            assert(r.children@.len() == 1);
            assert(r.children@[0] == child);
            assert(forest_wf(r.children@));
            assert(sfx.drop_first() =~= sfx1);
            assert forall|q: Seq<Seq<char>>| r.has_file(q) implies q == sfx by {
                assert(q.len() >= 1 && q[0] == r.name@);
                assert(q.len() >= 2);
                assert(forest_has_file(r.children@, q.drop_first()));
                let i = choose|i: int|
                    0 <= i < r.children@.len() && (#[trigger] r.children@[i]).has_file(
                        q.drop_first(),
                    );
                assert(i == 0);
                assert(child.has_file(q.drop_first()));
                assert(q.drop_first() == sfx1);
                assert(q.len() == sfx.len());
                assert forall|k: int| 0 <= k < q.len() implies q[k] == sfx[k] by {
                    if k >= 1 {
                        assert(q[k] == q.drop_first()[k - 1]);
                        assert(sfx[k] == sfx.drop_first()[k - 1]);
                    }
                }
                assert(q =~= sfx);
            }
            assert(r.has_file(sfx)) by {
                assert(child.has_file(sfx1));
                assert(r.children@[0].has_file(sfx.drop_first()));
                assert(forest_has_file(r.children@, sfx.drop_first()));
            }
        }
        r
    }
}

/// Whether the path suffix can be grafted onto the forest without turning a
/// file into a directory or a directory into a file: wherever a child
/// already carries the next component's name, its kind agrees with the
/// suffix, down the whole chain.
pub open spec fn can_insert(cs: Seq<Node>, suffix: Seq<Seq<char>>) -> bool
    decreases suffix.len(),
{
    &&& suffix.len() >= 1
    &&& forall|i: int|
        0 <= i < cs.len() && (#[trigger] cs[i]).name@ == suffix[0] ==> {
            if suffix.len() == 1 {
                !cs[i].is_dir
            } else {
                cs[i].is_dir && can_insert(cs[i].children@, suffix.drop_first())
            }
        }
}

/// Finds the child that carries `name`, if one exists.
fn find_child(forest: &Vec<Node>, name: &String) -> (r: Option<usize>)
    ensures
        match r {
            Some(j) => j < forest@.len() && forest@[j as int].name@ == name@,
            None => forall|k: int|
                0 <= k < forest@.len() ==> (#[trigger] forest@[k]).name@ != name@,
        },
{
    let mut j: usize = 0;
    while j < forest.len()
        invariant
            0 <= j <= forest@.len(),
            forall|k: int| 0 <= k < j ==> (#[trigger] forest@[k]).name@ != name@,
        decreases forest@.len() - j,
    {
        if forest[j].name == *name {
            return Some(j);
        }
        j = j + 1;
    }
    None
}

/// Finds where a new child belongs in rendering order.
fn find_position(forest: &Vec<Node>, node: &Node) -> (p: usize)
    ensures
        p <= forest@.len(),
        forall|k: int| 0 <= k < p ==> node_lt(#[trigger] forest@[k], *node),
        p < forest@.len() ==> !node_lt(forest@[p as int], *node),
{
    let mut p: usize = 0;
    while p < forest.len()
        invariant
            0 <= p <= forest@.len(),
            forall|k: int| 0 <= k < p ==> node_lt(#[trigger] forest@[k], *node),
        decreases forest@.len() - p,
    {
        if !node_lt_exec(&forest[p], node) {
            return p;
        }
        p = p + 1;
    }
    p
}

/// Inserting a node into a sibling list adds exactly its files.
proof fn lemma_forest_insert_membership(cs: Seq<Node>, p: int, x: Node)
    requires
        0 <= p <= cs.len(),
    ensures
        forall|q: Seq<Seq<char>>|
            forest_has_file(#[trigger] cs.insert(p, x), q) <==> (forest_has_file(cs, q)
                || x.has_file(q)),
{
    let cs1 = cs.insert(p, x);
    cs.insert_ensures(p, x);
    assert forall|q: Seq<Seq<char>>|
        forest_has_file(cs1, q) <==> (forest_has_file(cs, q) || x.has_file(q)) by {
        if forest_has_file(cs1, q) {
            let i = choose|i: int| 0 <= i < cs1.len() && (#[trigger] cs1[i]).has_file(q);
            if i == p {
                assert(x.has_file(q));
            } else if i < p {
                assert(cs[i].has_file(q));
                assert(forest_has_file(cs, q));
            } else {
                assert(cs1[i] == cs[i - 1]);
                assert(cs[i - 1].has_file(q));
                assert(forest_has_file(cs, q));
            }
        }
        if forest_has_file(cs, q) {
            let i = choose|i: int| 0 <= i < cs.len() && (#[trigger] cs[i]).has_file(q);
            if i < p {
                assert(cs1[i].has_file(q));
            } else {
                assert(cs1[i + 1] == cs[i]);
                assert(cs1[i + 1].has_file(q));
            }
            assert(forest_has_file(cs1, q));
        }
        if x.has_file(q) {
            assert(cs1[p].has_file(q));
            assert(forest_has_file(cs1, q));
        }
    }
}

/// Grafts `path[depth..]` onto the forest, keeping it well-formed and
/// adding exactly that one file path.
fn insert_path(forest: &mut Vec<Node>, path: &Vec<String>, depth: usize)
    requires
        depth < path@.len(),
        forest_wf(old(forest)@),
        can_insert(old(forest)@, path.deep_view().skip(depth as int)),
    ensures
        forest_wf(final(forest)@),
        forall|q: Seq<Seq<char>>|
            forest_has_file(final(forest)@, q) <==> (forest_has_file(old(forest)@, q) || q
                == path.deep_view().skip(depth as int)),
    decreases path@.len() - depth,
{
    let ghost sfx = path.deep_view().skip(depth as int);
    let ghost cs0 = forest@;
    proof {
        assert(path.deep_view().len() == path@.len());
        assert(sfx.len() == path@.len() - depth);
        assert(sfx[0] == path.deep_view()[depth as int]);
        assert(path.deep_view()[depth as int] == path@[depth as int]@);
    }
    match find_child(forest, &path[depth]) {
        Some(j) => {
            if depth == path.len() - 1 {
                proof {
                    assert(sfx.len() == 1);
                    assert(!cs0[j as int].is_dir);
                    assert(cs0[j as int].has_file(sfx));
                    assert(forest_has_file(cs0, sfx));
                    assert(forest@ == cs0);
                    assert forall|q: Seq<Seq<char>>|
                        forest_has_file(forest@, q) <==> (forest_has_file(cs0, q) || q
                            == sfx) by {
                        if q == sfx {
                            assert(forest_has_file(cs0, q));
                        }
                    }
                }
            } else {
                let ghost sfx1 = path.deep_view().skip(depth + 1 as int);
                proof {
                    assert(sfx.drop_first() =~= sfx1);
                    assert(cs0[j as int].is_dir);
                    assert(can_insert(cs0[j as int].children@, sfx1));
                    assert(cs0[j as int].wf());
                }
                let mut node = forest.remove(j);
                let ghost ch0 = node.children@;
                insert_path(&mut node.children, path, depth + 1);
                proof {
                    assert(node.is_dir);
                    assert(forest_has_file(node.children@, sfx1));
                    assert(node.children@.len() >= 1);
                    assert(node.wf());
                }
                forest.insert(j, node);
                proof {
                    let cs1 = forest@;
                    cs0.remove_ensures(j as int);
                    cs0.remove(j as int).insert_ensures(j as int, node);
                    assert(cs1 == cs0.remove(j as int).insert(j as int, node));
                    assert(cs1.len() == cs0.len());
                    assert forall|i: int| 0 <= i < cs1.len() && i != j implies cs1[i] == cs0[i] by {
                        if i < j {
                            assert(cs0.remove(j as int)[i] == cs0[i]);
                        } else {
                            assert(cs0.remove(j as int)[i - 1] == cs0[i]);
                        }
                    }
                    assert(cs1[j as int] == node);
                    // order and distinctness are untouched: every slot keeps
                    // its name and kind
                    assert forall|i: int| 0 <= i < cs1.len() implies cs1[i].name@ == cs0[i].name@
                        && cs1[i].is_dir == cs0[i].is_dir && cs1[i].wf() by {}
                    assert(sorted_children(cs1)) by {
                        assert forall|a: int, b: int| 0 <= a < b < cs1.len() implies node_lt(
                            cs1[a],
                            cs1[b],
                        ) by {
                            assert(node_lt(cs0[a], cs0[b]));
                        }
                    }
                    assert(distinct_names(cs1));
                    assert(forest_wf(cs1));
                    // membership: only the slot named like the suffix changed
                    assert forall|q: Seq<Seq<char>>|
                        forest_has_file(cs1, q) <==> (forest_has_file(cs0, q) || q == sfx) by {
                        if forest_has_file(cs1, q) {
                            let i = choose|i: int|
                                0 <= i < cs1.len() && (#[trigger] cs1[i]).has_file(q);
                            if i == j {
                                assert(node.has_file(q));
                                assert(q.len() >= 1 && q[0] == node.name@);
                                assert(q.len() >= 2);
                                assert(forest_has_file(node.children@, q.drop_first()));
                                if forest_has_file(ch0, q.drop_first()) {
                                    assert(cs0[j as int].has_file(q));
                                    assert(forest_has_file(cs0, q));
                                } else {
                                    assert(q.drop_first() == sfx1);
                                    assert(q.len() == sfx.len());
                                    assert forall|k: int| 0 <= k < q.len() implies q[k] == sfx[k] by {
                                        if k >= 1 {
                                            assert(q[k] == q.drop_first()[k - 1]);
                                            assert(sfx[k] == sfx.drop_first()[k - 1]);
                                        }
                                    }
                                    assert(q =~= sfx);
                                }
                            } else {
                                assert(cs1[i] == cs0[i]);
                                assert(forest_has_file(cs0, q));
                            }
                        }
                        if forest_has_file(cs0, q) {
                            let i = choose|i: int|
                                0 <= i < cs0.len() && (#[trigger] cs0[i]).has_file(q);
                            if i == j {
                                assert(cs0[j as int].has_file(q));
                                assert(q.len() >= 2);
                                assert(forest_has_file(ch0, q.drop_first()));
                                assert(forest_has_file(node.children@, q.drop_first()));
                                assert(node.has_file(q));
                                assert(cs1[j as int].has_file(q));
                            } else {
                                assert(cs1[i] == cs0[i]);
                                assert(cs1[i].has_file(q));
                            }
                            assert(forest_has_file(cs1, q));
                        }
                        if q == sfx {
                            assert(forest_has_file(node.children@, sfx1));
                            assert(sfx.drop_first() == sfx1);
                            assert(node.has_file(sfx));
                            assert(cs1[j as int].has_file(q));
                            assert(forest_has_file(cs1, q));
                        }
                    }
                }
            }
        },
        None => {
            let node = make_chain(path, depth);
            let p = find_position(forest, &node);
            proof {
                // the new name is fresh, so strict order can be restored
                assert(node.name@ == sfx[0]);
                if p < cs0.len() {
                    assert(cs0[p as int].name@ != node.name@);
                    lemma_node_lt_connected(cs0[p as int], node);
                    assert(node_lt(node, cs0[p as int]));
                }
            }
            forest.insert(p, node);
            proof {
                let cs1 = forest@;
                cs0.insert_ensures(p as int, node);
                assert(cs1 == cs0.insert(p as int, node));
                assert(sorted_children(cs1)) by {
                    assert forall|a: int, b: int| 0 <= a < b < cs1.len() implies node_lt(
                        cs1[a],
                        cs1[b],
                    ) by {
                        if a < p && b < p {
                            assert(cs1[a] == cs0[a] && cs1[b] == cs0[b]);
                        } else if a < p && b == p {
                            assert(cs1[a] == cs0[a]);
                        } else if a < p && b > p {
                            assert(cs1[a] == cs0[a] && cs1[b] == cs0[b - 1]);
                        } else if a == p && b > p {
                            assert(cs1[b] == cs0[b - 1]);
                            if p < cs0.len() && b - 1 > p {
                                lemma_node_lt_transitive(node, cs0[p as int], cs0[b - 1]);
                            }
                        } else {
                            assert(cs1[a] == cs0[a - 1] && cs1[b] == cs0[b - 1]);
                        }
                    }
                }
                assert(distinct_names(cs1)) by {
                    assert forall|a: int, b: int| 0 <= a < b < cs1.len() implies cs1[a].name@
                        != cs1[b].name@ by {
                        if a == p || b == p {
                            assert(forall|k: int|
                                0 <= k < cs0.len() ==> (#[trigger] cs0[k]).name@ != node.name@);
                        }
                    }
                }
                assert(forall|i: int| 0 <= i < cs1.len() && i != p ==> cs1[i].wf());
                assert(cs1[p as int].wf());
                assert(forest_wf(cs1));
                lemma_forest_insert_membership(cs0, p as int, node);
                assert(forall|q: Seq<Seq<char>>| node.has_file(q) <==> q == sfx);
                assert forall|q: Seq<Seq<char>>|
                    forest_has_file(cs1, q) <==> (forest_has_file(cs0, q) || q == sfx) by {
                    assert(forest_has_file(cs0.insert(p as int, node), q) <==> (forest_has_file(
                        cs0,
                        q,
                    ) || node.has_file(q)));
                    assert(forest_has_file(cs1, q) == forest_has_file(
                        cs0.insert(p as int, node),
                        q,
                    ));
                }
            }
        },
    }
}

/// The paths of a collected list, in order.
pub open spec fn path_seq_of(entries: Seq<crate::collect::CollectedModel>) -> Seq<Seq<Seq<char>>> {
    Seq::new(entries.len(), |i: int| entries[i].components)
}

/// Every path names at least one component.
pub open spec fn paths_wf(ps: Seq<Seq<Seq<char>>>) -> bool {
    forall|i: int| 0 <= i < ps.len() ==> (#[trigger] ps[i]).len() >= 1
}

/// Whether `a` is a strict ancestor prefix of `b`.
pub open spec fn is_proper_prefix(a: Seq<Seq<char>>, b: Seq<Seq<char>>) -> bool {
    a.len() < b.len() && starts_with_components(b, a)
}

/// No path in the set is a strict ancestor of another: what a filesystem
/// traversal guarantees, since no file is also a directory.
pub open spec fn prefix_free(ps: Seq<Seq<Seq<char>>>) -> bool {
    forall|i: int, j: int|
        0 <= i < ps.len() && 0 <= j < ps.len() ==> !is_proper_prefix(
            #[trigger] ps[i],
            #[trigger] ps[j],
        )
}

/// A well-formed node holds at least one file path, which starts with its
/// own name and descends below it when the node is a directory.
proof fn lemma_node_has_some_file(n: Node)
    requires
        n.wf(),
    ensures
        exists|q: Seq<Seq<char>>|
            n.has_file(q) && #[trigger] q.len() >= 1 && q[0] == n.name@ && (n.is_dir ==> q.len()
                >= 2),
    decreases n,
{
    if !n.is_dir {
        let q = seq![n.name@];
        assert(n.has_file(q) && q.len() >= 1 && q[0] == n.name@);
    } else {
        let c = n.children@[0];
        assert(c.wf());
        lemma_node_has_some_file(c);
        let q0 = choose|q0: Seq<Seq<char>>|
            c.has_file(q0) && #[trigger] q0.len() >= 1 && q0[0] == c.name@ && (c.is_dir ==> q0.len()
                >= 2);
        let q = seq![n.name@] + q0;
        assert(q.drop_first() =~= q0);
        assert(forest_has_file(n.children@, q0));
        assert(n.has_file(q) && q.len() >= 1 && q[0] == n.name@ && q.len() >= 2);
    }
}

/// A suffix that is in no ancestor conflict with any file already in the
/// forest can be grafted onto it.
proof fn lemma_no_conflict_can_insert(cs: Seq<Node>, sfx: Seq<Seq<char>>)
    requires
        forest_wf(cs),
        sfx.len() >= 1,
        forall|q: Seq<Seq<char>>|
            #[trigger] forest_has_file(cs, q) ==> !is_proper_prefix(q, sfx) && !is_proper_prefix(
                sfx,
                q,
            ),
    ensures
        can_insert(cs, sfx),
    decreases sfx.len(),
{
    assert forall|i: int|
        0 <= i < cs.len() && (#[trigger] cs[i]).name@ == sfx[0] implies (if sfx.len() == 1 {
        !cs[i].is_dir
    } else {
        cs[i].is_dir && can_insert(cs[i].children@, sfx.drop_first())
    }) by {
        let c = cs[i];
        assert(c.wf());
        if sfx.len() == 1 {
            if c.is_dir {
                lemma_node_has_some_file(c);
                let q = choose|q: Seq<Seq<char>>|
                    c.has_file(q) && #[trigger] q.len() >= 1 && q[0] == c.name@ && (c.is_dir
                        ==> q.len() >= 2);
                assert(forest_has_file(cs, q));
                assert(is_proper_prefix(sfx, q)) by {
                    assert(q.subrange(0, 1) =~= sfx);
                }
                assert(false);
            }
        } else {
            if !c.is_dir {
                let q = seq![c.name@];
                assert(c.has_file(q));
                assert(forest_has_file(cs, q));
                assert(is_proper_prefix(q, sfx)) by {
                    assert(sfx.subrange(0, 1) =~= q);
                }
                assert(false);
            } else {
                let sfx1 = sfx.drop_first();
                assert forall|q1: Seq<Seq<char>>|
                    #[trigger] forest_has_file(c.children@, q1) implies !is_proper_prefix(q1, sfx1)
                    && !is_proper_prefix(sfx1, q1) by {
                    let w = choose|w: int|
                        0 <= w < c.children@.len() && (#[trigger] c.children@[w]).has_file(q1);
                    assert(q1.len() >= 1);
                    let q = seq![c.name@] + q1;
                    assert(q.drop_first() =~= q1);
                    assert(c.has_file(q));
                    assert(forest_has_file(cs, q));
                    if is_proper_prefix(q1, sfx1) {
                        assert(is_proper_prefix(q, sfx)) by {
                            assert forall|k: int| 0 <= k < q.len() implies sfx.subrange(
                                0,
                                q.len() as int,
                            )[k] == q[k] by {
                                if k >= 1 {
                                    assert(sfx[k] == sfx1[k - 1]);
                                    assert(sfx1.subrange(0, q1.len() as int)[k - 1] == q1[k - 1]);
                                }
                            }
                            assert(sfx.subrange(0, q.len() as int) =~= q);
                        }
                        assert(false);
                    }
                    if is_proper_prefix(sfx1, q1) {
                        assert(is_proper_prefix(sfx, q)) by {
                            assert forall|k: int| 0 <= k < sfx.len() implies q.subrange(
                                0,
                                sfx.len() as int,
                            )[k] == sfx[k] by {
                                if k >= 1 {
                                    assert(q[k] == q1[k - 1]);
                                    assert(q1.subrange(0, sfx1.len() as int)[k - 1] == sfx1[k - 1]);
                                }
                            }
                            assert(q.subrange(0, sfx.len() as int) =~= sfx);
                        }
                        assert(false);
                    }
                }
                lemma_no_conflict_can_insert(c.children@, sfx1);
            }
        }
    }
}

/// Builds the sorted, pruned tree of a prefix-free path set: its files are
/// exactly the given paths.
pub fn build_forest(paths: &Vec<CollectedEntry>) -> (r: Vec<Node>)
    requires
        paths_wf(path_seq_of(paths.deep_view())),
        prefix_free(path_seq_of(paths.deep_view())),
    ensures
        forest_wf(r@),
        forall|q: Seq<Seq<char>>|
            forest_has_file(r@, q) <==> exists|i: int|
                0 <= i < paths@.len() && path_seq_of(paths.deep_view())[i] == q,
{
    let ghost ps = path_seq_of(paths.deep_view());
    let mut forest: Vec<Node> = Vec::new();
    let mut i: usize = 0;
    proof {
        assert(paths.deep_view().len() == paths@.len());
        assert(ps.len() == paths@.len());
    }
    while i < paths.len()
        invariant
            0 <= i <= paths.len(),
            ps == path_seq_of(paths.deep_view()),
            ps.len() == paths.len(),
            paths_wf(ps),
            prefix_free(ps),
            forest_wf(forest@),
            forall|q: Seq<Seq<char>>|
                forest_has_file(forest@, q) <==> exists|j: int| 0 <= j < i && ps[j] == q,
        decreases paths.len() - i,
    {
        let ghost cs_before = forest@;
        proof {
            assert(ps[i as int] == paths.deep_view()[i as int].components);
            assert(paths.deep_view()[i as int] == paths@[i as int].deep_view());
            assert(ps[i as int].len() >= 1);
            assert forall|q: Seq<Seq<char>>|
                #[trigger] forest_has_file(cs_before, q) implies !is_proper_prefix(
                q,
                ps[i as int],
            ) && !is_proper_prefix(ps[i as int], q) by {
                let j = choose|j: int| 0 <= j < i && ps[j] == q;
                assert(!is_proper_prefix(ps[j], ps[i as int]));
                assert(!is_proper_prefix(ps[i as int], ps[j]));
            }
            lemma_no_conflict_can_insert(cs_before, ps[i as int]);
        }
        let comps = &paths[i].components;
        proof {
            assert(comps.deep_view() == ps[i as int]);
            assert(comps.deep_view().len() == comps@.len());
            assert(comps.deep_view().skip(0) =~= comps.deep_view());
        }
        insert_path(&mut forest, comps, 0);
        proof {
            assert forall|q: Seq<Seq<char>>|
                forest_has_file(forest@, q) <==> exists|j: int| 0 <= j < i + 1 && ps[j] == q by {
                if forest_has_file(forest@, q) {
                    if forest_has_file(cs_before, q) {
                        let j = choose|j: int| 0 <= j < i && ps[j] == q;
                        assert(0 <= j < i + 1 && ps[j] == q);
                    } else {
                        assert(q == ps[i as int]);
                        assert(0 <= i < i + 1 && ps[i as int] == q);
                    }
                }
                if exists|j: int| 0 <= j < i + 1 && ps[j] == q {
                    let j = choose|j: int| 0 <= j < i + 1 && ps[j] == q;
                    if j < i {
                        assert(forest_has_file(cs_before, q));
                    } else {
                        assert(q == comps.deep_view().skip(0));
                    }
                    assert(forest_has_file(forest@, q));
                }
            }
        }
        i = i + 1;
    }
    forest
}

/// Checks that a collected list can be built into a tree: every path has a
/// component, and no path is a strict ancestor of another.
pub fn check_tree_paths(paths: &Vec<CollectedEntry>) -> (r: bool)
    ensures
        r == (paths_wf(path_seq_of(paths.deep_view())) && prefix_free(
            path_seq_of(paths.deep_view()),
        )),
{
    let ghost ps = path_seq_of(paths.deep_view());
    proof {
        assert(paths.deep_view().len() == paths@.len());
        assert(ps.len() == paths@.len());
    }
    let mut i: usize = 0;
    while i < paths.len()
        invariant
            0 <= i <= paths.len(),
            ps == path_seq_of(paths.deep_view()),
            ps.len() == paths.len(),
            forall|k: int| 0 <= k < i ==> (#[trigger] ps[k]).len() >= 1,
        decreases paths.len() - i,
    {
        proof {
            assert(ps[i as int] == paths.deep_view()[i as int].components);
            assert(paths.deep_view()[i as int] == paths@[i as int].deep_view());
        }
        if paths[i].components.len() == 0 {
            return false;
        }
        i = i + 1;
    }
    let mut a: usize = 0;
    while a < paths.len()
        invariant
            0 <= a <= paths.len(),
            ps == path_seq_of(paths.deep_view()),
            ps.len() == paths.len(),
            paths_wf(ps),
            forall|x: int, y: int|
                0 <= x < a && 0 <= y < ps.len() ==> !is_proper_prefix(
                    #[trigger] ps[x],
                    #[trigger] ps[y],
                ),
        decreases paths.len() - a,
    {
        let mut b: usize = 0;
        while b < paths.len()
            invariant
                0 <= a < paths.len(),
                0 <= b <= paths.len(),
                ps == path_seq_of(paths.deep_view()),
                ps.len() == paths.len(),
                paths_wf(ps),
                forall|x: int, y: int|
                    0 <= x < a && 0 <= y < ps.len() ==> !is_proper_prefix(
                        #[trigger] ps[x],
                        #[trigger] ps[y],
                    ),
                forall|y: int| 0 <= y < b ==> !is_proper_prefix(ps[a as int], #[trigger] ps[y]),
            decreases paths.len() - b,
        {
            proof {
                assert(ps[a as int] == paths.deep_view()[a as int].components);
                assert(paths.deep_view()[a as int] == paths@[a as int].deep_view());
                assert(ps[b as int] == paths.deep_view()[b as int].components);
                assert(paths.deep_view()[b as int] == paths@[b as int].deep_view());
            }
            if paths[a].components.len() < paths[b].components.len() && path_starts_with(
                &paths[b].components,
                &paths[a].components,
            ) {
                proof {
                    assert(is_proper_prefix(ps[a as int], ps[b as int]));
                }
                return false;
            }
            b = b + 1;
        }
        a = a + 1;
    }
    true
}

/// Dropping the first sibling keeps a list well-formed.
proof fn lemma_forest_wf_drop_first(cs: Seq<Node>)
    requires
        forest_wf(cs),
        cs.len() >= 1,
    ensures
        forest_wf(cs.drop_first()),
{
    let rest = cs.drop_first();
    assert(forall|i: int| 0 <= i < rest.len() ==> rest[i] == cs[i + 1]);
    assert forall|i: int, j: int| 0 <= i < j < rest.len() implies node_lt(rest[i], rest[j])
        && rest[i].name@ != rest[j].name@ by {
        assert(node_lt(cs[i + 1], cs[j + 1]));
    }
    assert forall|i: int| 0 <= i < rest.len() implies (#[trigger] rest[i]).wf() by {
        assert(cs[i + 1].wf());
    }
}

/// Rendering order never holds of a node and itself.
proof fn lemma_node_lt_not_refl(a: Node, b: Node)
    requires
        a.name@ == b.name@,
        a.is_dir == b.is_dir,
    ensures
        !node_lt(a, b),
{
    lemma_lex_not_refl(a.name@);
}

/// The tree of a selection is determined: two well-formed forests holding
/// the same files have the same shape line for line, so what `render_tree`
/// prints depends on the selected paths alone.
pub proof fn lemma_render_determined(f1: Seq<Node>, f2: Seq<Node>, prefix: Seq<char>)
    requires
        forest_wf(f1),
        forest_wf(f2),
        forall|q: Seq<Seq<char>>| forest_has_file(f1, q) <==> forest_has_file(f2, q),
    ensures
        f1.len() == f2.len(),
        spec_render_forest(f1, prefix) == spec_render_forest(f2, prefix),
    decreases f1, f2,
{
    if f1.len() == 0 || f2.len() == 0 {
        if f1.len() == 0 && f2.len() > 0 {
            assert(f2[0].wf());
            lemma_node_has_some_file(f2[0]);
            let q = choose|q: Seq<Seq<char>>|
                f2[0].has_file(q) && #[trigger] q.len() >= 1 && q[0] == f2[0].name@ && (f2[0].is_dir
                    ==> q.len() >= 2);
            assert(forest_has_file(f2, q));
            assert(forest_has_file(f1, q));
            assert(false);
        }
        if f2.len() == 0 && f1.len() > 0 {
            assert(f1[0].wf());
            lemma_node_has_some_file(f1[0]);
            let q = choose|q: Seq<Seq<char>>|
                f1[0].has_file(q) && #[trigger] q.len() >= 1 && q[0] == f1[0].name@ && (f1[0].is_dir
                    ==> q.len() >= 2);
            assert(forest_has_file(f1, q));
            assert(forest_has_file(f2, q));
            assert(false);
        }
    } else {
        let c1 = f1[0];
        let c2 = f2[0];
        assert(c1.wf() && c2.wf());
        // the head of each list has a mate of the same name in the other
        lemma_node_has_some_file(c1);
        let q1 = choose|q: Seq<Seq<char>>|
            c1.has_file(q) && #[trigger] q.len() >= 1 && q[0] == c1.name@ && (c1.is_dir ==> q.len()
                >= 2);
        assert(forest_has_file(f1, q1));
        assert(forest_has_file(f2, q1));
        let j = choose|j: int| 0 <= j < f2.len() && (#[trigger] f2[j]).has_file(q1);
        assert(f2[j].name@ == c1.name@);
        lemma_node_has_some_file(c2);
        let q2 = choose|q: Seq<Seq<char>>|
            c2.has_file(q) && #[trigger] q.len() >= 1 && q[0] == c2.name@ && (c2.is_dir ==> q.len()
                >= 2);
        assert(forest_has_file(f2, q2));
        assert(forest_has_file(f1, q2));
        let i = choose|i: int| 0 <= i < f1.len() && (#[trigger] f1[i]).has_file(q2);
        assert(f1[i].name@ == c2.name@);
        // the two heads are mates: anything else breaks the strict order
        assert(j == 0) by {
            if j > 0 {
                if i > 0 {
                    assert(node_lt(f2[0], f2[j]));
                    assert(node_lt(f1[0], f1[i]));
                    assert(node_lt(f2[0], f2[j]) == node_lt(f2[0], f1[0]));
                    assert(node_lt(f1[0], f1[i]) == node_lt(f1[0], f2[0]));
                    lemma_node_lt_transitive(f2[0], f1[0], f2[0]);
                    lemma_node_lt_not_refl(f2[0], f2[0]);
                } else {
                    assert(f2[0].name@ == f1[0].name@);
                    assert(f2[j].name@ == f1[0].name@);
                    assert(f2[0].name@ == f2[j].name@);
                }
            }
        }
        assert(c2.name@ == c1.name@);
        assert(c2.is_dir == c1.is_dir) by {
            if c1.is_dir {
                assert(q1.len() >= 2);
                assert(f2[0].has_file(q1));
            } else {
                assert(q1.len() == 1);
                assert(f2[0].has_file(q1));
            }
        }
        // the mates hold the same files below themselves
        assert forall|q: Seq<Seq<char>>|
            forest_has_file(c1.children@, q) <==> forest_has_file(c2.children@, q) by {
            if forest_has_file(c1.children@, q) {
                let w = choose|w: int|
                    0 <= w < c1.children@.len() && (#[trigger] c1.children@[w]).has_file(q);
                assert(q.len() >= 1);
                let full = seq![c1.name@] + q;
                assert(full.drop_first() =~= q);
                assert(c1.has_file(full));
                assert(forest_has_file(f1, full));
                assert(forest_has_file(f2, full));
                let k = choose|k: int| 0 <= k < f2.len() && (#[trigger] f2[k]).has_file(full);
                assert(f2[k].name@ == c2.name@);
                assert(k == 0);
                assert(forest_has_file(c2.children@, full.drop_first()));
            }
            if forest_has_file(c2.children@, q) {
                let w = choose|w: int|
                    0 <= w < c2.children@.len() && (#[trigger] c2.children@[w]).has_file(q);
                assert(q.len() >= 1);
                let full = seq![c2.name@] + q;
                assert(full.drop_first() =~= q);
                assert(c2.has_file(full));
                assert(forest_has_file(f2, full));
                assert(forest_has_file(f1, full));
                let k = choose|k: int| 0 <= k < f1.len() && (#[trigger] f1[k]).has_file(full);
                assert(f1[k].name@ == c1.name@);
                assert(k == 0);
                assert(forest_has_file(c1.children@, full.drop_first()));
            }
        }
        lemma_render_determined(
            c1.children@,
            c2.children@,
            prefix + if f1.len() == 1 {
                "    "@
            } else {
                "│   "@
            },
        );
        // the rest of each list holds exactly the files of the other names
        let r1 = f1.drop_first();
        let r2 = f2.drop_first();
        lemma_forest_wf_drop_first(f1);
        lemma_forest_wf_drop_first(f2);
        assert forall|q: Seq<Seq<char>>|
            forest_has_file(r1, q) <==> forest_has_file(r2, q) by {
            if forest_has_file(r1, q) {
                let w = choose|w: int| 0 <= w < r1.len() && (#[trigger] r1[w]).has_file(q);
                assert(r1[w] == f1[w + 1]);
                assert(f1[w + 1].name@ != c1.name@);
                assert(q[0] == f1[w + 1].name@);
                assert(forest_has_file(f1, q));
                assert(forest_has_file(f2, q));
                let k = choose|k: int| 0 <= k < f2.len() && (#[trigger] f2[k]).has_file(q);
                assert(f2[k].name@ == q[0]);
                assert(k >= 1);
                assert(r2[k - 1] == f2[k]);
                assert(forest_has_file(r2, q));
            }
            if forest_has_file(r2, q) {
                let w = choose|w: int| 0 <= w < r2.len() && (#[trigger] r2[w]).has_file(q);
                assert(r2[w] == f2[w + 1]);
                assert(f2[w + 1].name@ != c2.name@);
                assert(q[0] == f2[w + 1].name@);
                assert(forest_has_file(f2, q));
                assert(forest_has_file(f1, q));
                let k = choose|k: int| 0 <= k < f1.len() && (#[trigger] f1[k]).has_file(q);
                assert(f1[k].name@ == q[0]);
                assert(k >= 1);
                assert(r1[k - 1] == f1[k]);
                assert(forest_has_file(r1, q));
            }
        }
        lemma_render_determined(r1, r2, prefix);
        assert(f1.len() == f2.len());
        assert(spec_render_node(c1, prefix, f1.len() == 1) == spec_render_node(
            c2,
            prefix,
            f2.len() == 1,
        ));
    }
}

/// Renders a collected list as the tree of its paths, or nothing when the
/// list is not the image of a filesystem traversal (a path without
/// components, or one path a strict ancestor of another).
pub fn render_collected(collected: &Vec<CollectedEntry>) -> (r: Option<String>)
    ensures
        match r {
            Some(s) => {
                &&& (exists|f: Seq<Node>|
                    {
                        &&& #[trigger] forest_wf(f)
                        &&& (forall|q: Seq<Seq<char>>|
                            forest_has_file(f, q) <==> exists|i: int|
                                0 <= i < collected@.len() && path_seq_of(collected.deep_view())[i]
                                    == q)
                        &&& s@ == ".\n"@ + spec_render_forest(f, Seq::<char>::empty())
                    })
                &&& (forall|f: Seq<Node>|
                    (#[trigger] forest_wf(f) && (forall|q: Seq<Seq<char>>|
                        forest_has_file(f, q) <==> exists|i: int|
                            0 <= i < collected@.len() && path_seq_of(collected.deep_view())[i]
                                == q)) ==> s@ == ".\n"@ + spec_render_forest(
                        f,
                        Seq::<char>::empty(),
                    ))
            },
            None => !(paths_wf(path_seq_of(collected.deep_view())) && prefix_free(
                path_seq_of(collected.deep_view()),
            )),
        },
{
    if !check_tree_paths(collected) {
        return None;
    }
    let forest = build_forest(collected);
    let s = render_tree(&forest);
    proof {
        let built = forest@;
        assert(forest_wf(built) && (forall|q: Seq<Seq<char>>|
            forest_has_file(built, q) <==> exists|i: int|
                0 <= i < collected@.len() && path_seq_of(collected.deep_view())[i] == q) && s@
            == ".\n"@ + spec_render_forest(built, Seq::<char>::empty()));
        assert forall|f: Seq<Node>|
            forest_wf(f) && (forall|q: Seq<Seq<char>>|
                forest_has_file(f, q) <==> exists|i: int|
                    0 <= i < collected@.len() && path_seq_of(collected.deep_view())[i]
                        == q) implies s@ == ".\n"@ + spec_render_forest(
            f,
            Seq::<char>::empty(),
        ) by {
            assert forall|q: Seq<Seq<char>>|
                forest_has_file(built, q) <==> forest_has_file(f, q) by {}
            lemma_render_determined(built, f, Seq::<char>::empty());
        }
    }
    Some(s)
}

/// Renders the selection as a tree: a `.` line for the root, then the
/// sorted forest below it.
pub fn render_tree(forest: &Vec<Node>) -> (r: String)
    ensures
        r@ == ".\n"@ + spec_render_forest(forest@, Seq::<char>::empty()),
{
    let mut out = String::from_str(".\n");
    let empty = String::new();
    let ghost cs = forest@;
    let mut i: usize = 0;
    proof {
        assert(cs.skip(0) =~= cs);
    }
    while i < forest.len()
        invariant
            0 <= i <= forest.len(),
            cs == forest@,
            cs.len() == forest.len(),
            out@ + spec_render_forest(cs.skip(i as int), Seq::<char>::empty()) == ".\n"@
                + spec_render_forest(cs, Seq::<char>::empty()),
            empty@ == Seq::<char>::empty(),
        decreases forest.len() - i,
    {
        proof {
            let rest = cs.skip(i as int);
            assert(rest.len() == cs.len() - i);
            assert(rest[0] == cs[i as int]);
            assert(rest.drop_first() =~= cs.skip(i + 1 as int));
        }
        let sub = render_node(&forest[i], empty.as_str(), i == forest.len() - 1);
        out.append(sub.as_str());
        i = i + 1;
    }
    proof {
        assert(cs.skip(cs.len() as int) =~= Seq::<Node>::empty());
    }
    out
}

} // verus!
