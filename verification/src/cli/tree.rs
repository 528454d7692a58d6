//! Showing the tree of dependencies: what to ask for.

use crate::cli::plan::{as_ids, seed_without, seeded};
use crate::package::retriever::{PackageId, PackageIdView};
use crate::solver::graph::{
    graph_neighbors, graph_node, graph_node_count, graph_nodes, graph_simple_paths,
    graph_successors, positions, simple_path_nodes, Solution,
};
use crate::solver::summary::Summary;
use vstd::string::*;
use crate::cli::solve::only_if;
use crate::cli::upgrade::lemma_without_none;
use crate::package::name::{Name, NameView};
use crate::package::retriever::{root_needs, Retriever};
use crate::project::application::{pin_views, ranged, Application, Pin};
use crate::project::reconstruct::name_views;
use crate::semver::range::{Range, Strictness};
use crate::semver::version::Version;
use vstd::prelude::*;

verus! {

/// Tells the source of packages what the tree of an application consists
/// of: the direct dependencies at their exact versions, and with `test` the
/// direct test-dependencies too. The versions of the indirect dependencies
/// are to be preferred.
pub fn seed_application(info: &Application, test: bool, retriever: &mut Retriever)
    ensures
        seeded(
            old(retriever),
            final(retriever),
            root_needs(ranged(pin_views(info.dependencies.direct@), Strictness::Exact))
                + root_needs(
                only_if(test, ranged(pin_views(info.test_dependencies.direct@), Strictness::Exact)),
            ),
            as_ids(pin_views(info.dependencies.indirect@)) + as_ids(
                only_if(test, pin_views(info.test_dependencies.indirect@)),
            ),
        ),
{
    let strictness = Strictness::Exact;
    let none: Vec<Name> = Vec::new();
    let deps = info.dependencies(&strictness);
    let test_deps: Vec<(Name, Range)> = if test {
        info.test_dependencies(&strictness)
    } else {
        Vec::new()
    };
    let no_pins: Vec<Pin> = Vec::new();
    let pins = &info.dependencies.indirect;
    let more_pins = if test {
        &info.test_dependencies.indirect
    } else {
        &no_pins
    };
    proof {
        assert(name_views(none@) =~= Seq::<NameView>::empty());
        lemma_without_none(pin_views(deps@));
        lemma_without_none(pin_views(test_deps@));
        lemma_without_none(pin_views(pins@));
        lemma_without_none(pin_views(more_pins@));
        if !test {
            assert(pin_views(test_deps@) =~= Seq::<(NameView, Range)>::empty());
            assert(pin_views(more_pins@) =~= Seq::<(NameView, Version)>::empty());
        }
    }
    seed_without(retriever, none.as_slice(), pins, more_pins, &deps, &test_deps);
}

/// One line of the tree: a package below the node that depends on it.
#[derive(Debug)]
pub struct TreeLine {
    /// What stands before the branch: the rails of the levels above.
    pub prefix: String,
    /// Whether this is the last package below its parent.
    pub last: bool,
    pub name: Name,
    pub version: Version,
    /// Whether the package was shown before, so that what it depends on is
    /// left out here.
    pub repeated: bool,
}

/// What a line of the tree says.
pub struct LineView {
    pub prefix: Seq<char>,
    pub last: bool,
    pub name: NameView,
    pub version: Version,
    pub repeated: bool,
}

/// The branch that leads to a package: a corner for the last package below
/// its parent, a tee for the others.
pub open spec fn branch(last: bool) -> Seq<char> {
    if last {
        seq!['\u{2514}', '\u{2500}', '\u{2500}']
    } else {
        seq!['\u{251c}', '\u{2500}', '\u{2500}']
    }
}

/// What a level adds to the prefix of the lines below it: a rail if more
/// packages follow on that level, else blanks.
pub open spec fn rail(last: bool) -> Seq<char> {
    if last {
        seq![' ', ' ', ' ', ' ']
    } else {
        seq!['\u{2502}', ' ', ' ', ' ']
    }
}

impl LineView {
    /// The line as it is printed; a star marks a package that was shown
    /// before.
    pub open spec fn text(self) -> Seq<char> {
        self.prefix + branch(self.last) + seq![' '] + self.name.text() + seq![' ', '@', ' ']
            + self.version.text() + (if self.repeated {
            seq![' ', '*']
        } else {
            Seq::<char>::empty()
        })
    }
}

impl View for TreeLine {
    type V = LineView;

    open spec fn view(&self) -> LineView {
        LineView {
            prefix: self.prefix@,
            last: self.last,
            name: self.name@,
            version: self.version,
            repeated: self.repeated,
        }
    }
}

impl TreeLine {
    /// Writes the line.
    pub fn to_string(&self) -> (s: String)
        ensures
            s@ == self@.text(),
    {
        let mut s = self.prefix.clone();
        proof {
            reveal_strlit("\u{2514}\u{2500}\u{2500}");
            reveal_strlit("\u{251c}\u{2500}\u{2500}");
            reveal_strlit(" ");
            reveal_strlit(" @ ");
            reveal_strlit(" *");
        }
        if self.last {
            s.append("\u{2514}\u{2500}\u{2500}");
        } else {
            s.append("\u{251c}\u{2500}\u{2500}");
        }
        s.append(" ");
        s.append(self.name.to_string().as_str());
        s.append(" @ ");
        s.append(self.version.to_string().as_str());
        if self.repeated {
            s.append(" *");
        }
        proof {
            assert(s@ =~= self@.text());
        }
        s
    }
}

/// What the lines say, in order.
pub open spec fn line_views(lines: Seq<TreeLine>) -> Seq<LineView> {
    lines.map_values(|l: TreeLine| l@)
}

/// The list with the node `x` put in after the nodes whose packages do not
/// come after its package.
pub open spec fn put_in(nodes: Seq<Summary<PackageId>>, sorted: Seq<int>, x: int) -> Seq<int>
    decreases sorted.len(),
{
    if sorted.len() == 0 {
        seq![x]
    } else if nodes[x].id@.less(nodes[sorted.last()].id@) {
        put_in(nodes, sorted.drop_last(), x).push(sorted.last())
    } else {
        sorted.push(x)
    }
}

/// The published packages among the nodes of `list` that are in `keep`, in
/// the order of packages; nodes of one package keep their order.
pub open spec fn children_in_order(
    nodes: Seq<Summary<PackageId>>,
    keep: Set<int>,
    list: Seq<int>,
) -> Seq<int>
    decreases list.len(),
{
    if list.len() == 0 {
        Seq::empty()
    } else {
        let before = children_in_order(nodes, keep, list.drop_last());
        if nodes[list.last()].id@ is Pkg && keep.contains(list.last()) {
            put_in(nodes, before, list.last())
        } else {
            before
        }
    }
}

/// Some node of `list` is in `keep`.
pub open spec fn leads_on(keep: Set<int>, list: Seq<int>) -> bool {
    exists|k: int| 0 <= k < list.len() && keep.contains(#[trigger] list[k])
}

/// The nodes that are marked.
pub open spec fn marked(marks: Seq<bool>) -> Set<int> {
    Set::new(|i: int| 0 <= i < marks.len() && marks[i])
}

/// The children are nodes of the graph and published packages.
pub open spec fn are_packages(nodes: Seq<Summary<PackageId>>, children: Seq<int>) -> bool {
    forall|k: int|
        0 <= k < children.len() ==> 0 <= #[trigger] children[k] < nodes.len()
            && nodes[children[k]].id@ is Pkg
}

proof fn lemma_put_in(nodes: Seq<Summary<PackageId>>, sorted: Seq<int>, x: int)
    requires
        are_packages(nodes, sorted),
        0 <= x < nodes.len(),
        nodes[x].id@ is Pkg,
    ensures
        are_packages(nodes, put_in(nodes, sorted, x)),
        put_in(nodes, sorted, x).len() == sorted.len() + 1,
    decreases sorted.len(),
{
    if sorted.len() > 0 && nodes[x].id@.less(nodes[sorted.last()].id@) {
        let rest = sorted.drop_last();
        assert forall|k: int| 0 <= k < rest.len() implies 0 <= #[trigger] rest[k] < nodes.len()
            && nodes[rest[k]].id@ is Pkg by {
            assert(rest[k] == sorted[k]);
        }
        lemma_put_in(nodes, rest, x);
        let placed = put_in(nodes, rest, x);
        let all = placed.push(sorted.last());
        assert forall|k: int| 0 <= k < all.len() implies 0 <= #[trigger] all[k] < nodes.len()
            && nodes[all[k]].id@ is Pkg by {
            if k < placed.len() {
                assert(all[k] == placed[k]);
            } else {
                assert(all[k] == sorted[sorted.len() - 1]);
            }
        }
    } else {
        let all = sorted.push(x);
        assert forall|k: int| 0 <= k < all.len() implies 0 <= #[trigger] all[k] < nodes.len()
            && nodes[all[k]].id@ is Pkg by {
            if k < sorted.len() {
                assert(all[k] == sorted[k]);
            }
        }
    }
}

/// The published packages among the marked nodes that the node `at` has
/// edges to, in the order of packages.
pub fn sorted_children(g: &Solution, at: usize, keep: &Vec<bool>) -> (r: Vec<usize>)
    requires
        at < graph_nodes(*g).len(),
        keep@.len() == graph_nodes(*g).len(),
    ensures
        positions(r@) == children_in_order(
            graph_nodes(*g),
            marked(keep@),
            graph_successors(*g)[at as int],
        ),
        are_packages(graph_nodes(*g), positions(r@)),
{
    let ghost nodes = graph_nodes(*g);
    let list = graph_neighbors(g, at);
    let ghost all = positions(list@);
    let mut r: Vec<usize> = Vec::new();
    let n = list.len();
    let mut i: usize = 0;
    proof {
        assert(all.take(0) =~= Seq::<int>::empty());
        assert(positions(r@) =~= Seq::<int>::empty());
    }
    while i < n
        invariant
            i <= n,
            n == list@.len(),
            nodes == graph_nodes(*g),
            all == positions(list@),
            forall|k: int| 0 <= k < list@.len() ==> #[trigger] list@[k] < nodes.len(),
            positions(r@) == children_in_order(nodes, marked(keep@), all.take(i as int)),
            are_packages(nodes, positions(r@)),
            keep@.len() == nodes.len(),
        decreases n - i,
    {
        let x = list[i];
        proof {
            assert(all.take(i + 1).drop_last() =~= all.take(i as int));
            assert(all.take(i + 1).last() == x as int);
        }
        let is_package = match &graph_node(g, x).id {
            PackageId::Pkg(_) => true,
            _ => false,
        };
        if is_package && keep[x] {
            let ghost before = positions(r@);
            let mut k: usize = r.len();
            proof {
                assert(before.take(k as int) =~= before);
                assert(before.skip(k as int) =~= Seq::<int>::empty());
            }
            while k > 0 && graph_node(g, x).id.precedes(&graph_node(g, r[k - 1]).id)
                invariant
                    k <= r@.len(),
                    before == positions(r@),
                    are_packages(nodes, before),
                    nodes == graph_nodes(*g),
                    x < nodes.len(),
                    put_in(nodes, before, x as int) == put_in(nodes, before.take(k as int), x as int)
                        + before.skip(k as int),
                decreases k,
            {
                proof {
                    let head = before.take(k as int);
                    assert(head.last() == r@[k - 1] as int);
                    assert(head.drop_last() =~= before.take(k - 1));
                    assert(put_in(nodes, head, x as int) == put_in(
                        nodes,
                        before.take(k - 1),
                        x as int,
                    ).push(head.last()));
                    assert(seq![head.last()] + before.skip(k as int) =~= before.skip(k - 1));
                    assert(put_in(nodes, before.take(k - 1), x as int).push(head.last())
                        + before.skip(k as int) =~= put_in(nodes, before.take(k - 1), x as int)
                        + before.skip(k - 1));
                }
                k = k - 1;
            }
            proof {
                let head = before.take(k as int);
                if k > 0 {
                    assert(head.last() == r@[k - 1] as int);
                }
                assert(put_in(nodes, head, x as int) =~= head.push(x as int));
                lemma_put_in(nodes, before, x as int);
            }
            r.insert(k, x);
            proof {
                assert(positions(r@) =~= before.take(k as int).push(x as int) + before.skip(
                    k as int,
                ));
            }
        }
        i += 1;
    }
    proof {
        assert(all.take(n as int) =~= all);
    }
    r
}

/// Whether the node `at` has an edge to a marked node.
pub fn has_kept_edge(g: &Solution, at: usize, keep: &Vec<bool>) -> (r: bool)
    requires
        at < graph_nodes(*g).len(),
        keep@.len() == graph_nodes(*g).len(),
    ensures
        r == leads_on(marked(keep@), graph_successors(*g)[at as int]),
{
    let _ = graph_node_count(g);
    let list = graph_neighbors(g, at);
    let ghost all = positions(list@);
    let n = list.len();
    let mut i: usize = 0;
    while i < n
        invariant
            i <= n,
            n == list@.len(),
            all == positions(list@),
            all == graph_successors(*g)[at as int],
            keep@.len() == graph_nodes(*g).len(),
            forall|k: int| 0 <= k < list@.len() ==> #[trigger] list@[k] < graph_nodes(*g).len(),
            forall|k: int| 0 <= k < i ==> !marked(keep@).contains(#[trigger] all[k]),
        decreases n - i,
    {
        if keep[list[i]] {
            proof {
                assert(marked(keep@).contains(all[i as int]));
            }
            return true;
        }
        i += 1;
    }
    false
}

/// What is drawn, and the nodes that were shown.
pub struct Drawn {
    pub lines: Seq<LineView>,
    pub seen: Set<int>,
}

/// Draws the children from the place `from` on, each followed by what it
/// depends on among the nodes of `keep`, level by level. A package that was
/// shown before and that depends on something is marked and not gone into
/// again. No more than `depth` levels are drawn.
pub open spec fn draw(
    nodes: Seq<Summary<PackageId>>,
    successors: Seq<Seq<int>>,
    keep: Set<int>,
    seen: Set<int>,
    prefix: Seq<char>,
    children: Seq<int>,
    from: int,
    depth: nat,
) -> Drawn
    decreases depth, children.len() - from,
{
    if from < 0 || from >= children.len() {
        Drawn { lines: Seq::empty(), seen }
    } else {
        let idx = children[from];
        let last = from + 1 == children.len();
        let repeated = seen.contains(idx) && leads_on(keep, successors[idx]);
        let line = LineView {
            prefix,
            last,
            name: nodes[idx].id@->Pkg_0,
            version: nodes[idx].version,
            repeated,
        };
        let below = if !repeated && depth > 0 {
            draw(
                nodes,
                successors,
                keep,
                seen.insert(idx),
                prefix + rail(last),
                children_in_order(nodes, keep, successors[idx]),
                0,
                (depth - 1) as nat,
            )
        } else {
            Drawn { lines: Seq::empty(), seen: seen.insert(idx) }
        };
        let rest = draw(nodes, successors, keep, below.seen, prefix, children, from + 1, depth);
        Drawn { lines: seq![line] + below.lines + rest.lines, seen: rest.seen }
    }
}

/// Draws the children from the place `from` on below a node, and what they
/// depend on.
fn visit_children(
    g: &Solution,
    keep: &Vec<bool>,
    prefix: &str,
    children: &Vec<usize>,
    from: usize,
    depth: usize,
    visited: &mut Vec<bool>,
    out: &mut Vec<TreeLine>,
)
    requires
        old(visited)@.len() == graph_nodes(*g).len(),
        keep@.len() == graph_nodes(*g).len(),
        graph_successors(*g).len() == graph_nodes(*g).len(),
        are_packages(graph_nodes(*g), positions(children@)),
    ensures
        final(visited)@.len() == graph_nodes(*g).len(),
        ({
            let drawn = draw(
                graph_nodes(*g),
                graph_successors(*g),
                marked(keep@),
                marked(old(visited)@),
                prefix@,
                positions(children@),
                from as int,
                depth as nat,
            );
            &&& marked(final(visited)@) == drawn.seen
            &&& line_views(final(out)@) == line_views(old(out)@) + drawn.lines
        }),
    decreases depth, children@.len() - from,
{
    let ghost nodes = graph_nodes(*g);
    let ghost successors = graph_successors(*g);
    let ghost kids = positions(children@);
    let ghost start = line_views(out@);
    if from >= children.len() {
        proof {
            assert(line_views(out@) =~= start + Seq::<LineView>::empty());
        }
        return ;
    }
    let idx = children[from];
    proof {
        assert(kids[from as int] == idx as int);
        assert(0 <= kids[from as int] < nodes.len() && nodes[kids[from as int]].id@ is Pkg);
    }
    let last = from + 1 == children.len();
    let below_list = sorted_children(g, idx, keep);
    let has_edges = has_kept_edge(g, idx, keep);
    let repeated = visited[idx] && has_edges;
    let ghost seen = marked(visited@);
    visited.set(idx, true);
    proof {
        assert(marked(visited@) =~= seen.insert(idx as int));
    }
    let item = graph_node(g, idx);
    match &item.id {
        PackageId::Pkg(name) => {
            let line = TreeLine {
                prefix: prefix.to_owned(),
                last,
                name: name.clone(),
                version: item.version,
                repeated,
            };
            let ghost view = line@;
            out.push(line);
            proof {
                assert(line_views(out@) =~= start.push(view));
            }
            let ghost after_line = line_views(out@);
            if !repeated && depth > 0 {
                let mut deeper = prefix.to_owned();
                proof {
                    reveal_strlit("    ");
                    reveal_strlit("\u{2502}   ");
                }
                if last {
                    deeper.append("    ");
                } else {
                    deeper.append("\u{2502}   ");
                }
                proof {
                    assert(deeper@ =~= prefix@ + rail(last));
                }
                visit_children(g, keep, deeper.as_str(), &below_list, 0, depth - 1, visited, out);
            }
            let ghost after_below = line_views(out@);
            visit_children(g, keep, prefix, children, from + 1, depth, visited, out);
            proof {
                let below = if !repeated && depth > 0 {
                    draw(
                        nodes,
                        successors,
                        marked(keep@),
                        seen.insert(idx as int),
                        prefix@ + rail(last),
                        children_in_order(nodes, marked(keep@), successors[idx as int]),
                        0,
                        (depth - 1) as nat,
                    )
                } else {
                    Drawn { lines: Seq::empty(), seen: seen.insert(idx as int) }
                };
                let rest = draw(
                    nodes,
                    successors,
                    marked(keep@),
                    below.seen,
                    prefix@,
                    kids,
                    from + 1,
                    depth as nat,
                );
                assert(after_below =~= after_line + below.lines);
                assert(line_views(out@) =~= start + (seq![view] + below.lines + rest.lines));
            }
        },
        _ => {
            assert(false);
        },
    }
}

/// All nodes of a graph with `n` nodes.
pub open spec fn all_nodes(n: nat) -> Set<int> {
    Set::new(|i: int| 0 <= i < n)
}

/// The tree below the root for the nodes of `keep`.
pub open spec fn tree_of(
    nodes: Seq<Summary<PackageId>>,
    successors: Seq<Seq<int>>,
    keep: Set<int>,
) -> Seq<LineView> {
    draw(
        nodes,
        successors,
        keep,
        Set::<int>::empty(),
        Seq::<char>::empty(),
        children_in_order(nodes, keep, successors[0]),
        0,
        nodes.len(),
    ).lines
}

fn marks(n: usize, value: bool) -> (r: Vec<bool>)
    ensures
        r@.len() == n,
        forall|i: int| 0 <= i < n ==> #[trigger] r@[i] == value,
{
    let mut r: Vec<bool> = Vec::new();
    let mut k: usize = 0;
    while k < n
        invariant
            k <= n,
            r@.len() == k,
            forall|i: int| 0 <= i < k ==> #[trigger] r@[i] == value,
        decreases n - k,
    {
        r.push(value);
        k += 1;
    }
    r
}

/// The marks, one for each of `n` nodes, of the nodes that `on` lists.
pub fn kept_nodes(n: usize, on: &Vec<usize>) -> (keep: Vec<bool>)
    requires
        forall|k: int| 0 <= k < on@.len() ==> #[trigger] on@[k] < n,
    ensures
        keep@.len() == n,
        marked(keep@) == positions(on@).to_set(),
{
    let mut keep = marks(n, false);
    let m = on.len();
    let mut i: usize = 0;
    while i < m
        invariant
            i <= m,
            m == on@.len(),
            keep@.len() == n,
            forall|k: int| 0 <= k < on@.len() ==> #[trigger] on@[k] < n,
            forall|x: int|
                0 <= x < n ==> (#[trigger] keep@[x] <==> exists|k: int| 0 <= k < i && on@[k] == x),
        decreases m - i,
    {
        let ghost before = keep@;
        keep.set(on[i], true);
        proof {
            assert forall|x: int| 0 <= x < n implies (#[trigger] keep@[x] <==> exists|k: int|
                0 <= k < i + 1 && on@[k] == x) by {
                if x == on@[i as int] {
                    assert(on@[i as int] == x);
                } else {
                    assert(keep@[x] == before[x]);
                    if before[x] {
                        let k = choose|k: int| 0 <= k < i && on@[k] == x;
                        assert(on@[k] == x);
                    }
                    if exists|k: int| 0 <= k < i + 1 && on@[k] == x {
                        let k = choose|k: int| 0 <= k < i + 1 && on@[k] == x;
                        assert(k < i);
                    }
                }
            }
        }
        i += 1;
    }
    proof {
        let wanted = positions(on@).to_set();
        assert(marked(keep@) =~= wanted) by {
            assert forall|x: int| marked(keep@).contains(x) <==> wanted.contains(x) by {
                if marked(keep@).contains(x) {
                    let k = choose|k: int| 0 <= k < m && on@[k] == x;
                    assert(positions(on@)[k] == x);
                }
                if wanted.contains(x) {
                    let k = choose|k: int| 0 <= k < positions(on@).len() && positions(on@)[k] == x;
                    assert(on@[k] == x);
                }
            }
        }
    }
    keep
}

/// The tree of the graph `g` with the nodes that `keep` marks: the lines
/// for the marked nodes below the root, each with the marked nodes below
/// it.
pub fn tree_within(g: &Solution, keep: &Vec<bool>) -> (r: Vec<TreeLine>)
    requires
        graph_nodes(*g).len() > 0,
        keep@.len() == graph_nodes(*g).len(),
    ensures
        line_views(r@) == tree_of(graph_nodes(*g), graph_successors(*g), marked(keep@)),
{
    let n = graph_node_count(g);
    let mut visited = marks(n, false);
    let children = sorted_children(g, 0, keep);
    let mut out: Vec<TreeLine> = Vec::new();
    proof {
        assert(marked(visited@) =~= Set::<int>::empty());
        assert(line_views(out@) =~= Seq::<LineView>::empty());
    }
    let prefix = String::new();
    visit_children(g, keep, prefix.as_str(), &children, 0, n, &mut visited, &mut out);
    proof {
        assert(line_views(out@) =~= tree_of(
            graph_nodes(*g),
            graph_successors(*g),
            marked(keep@),
        ));
    }
    out
}

/// The tree of the graph `g` of chosen versions, whose first node is the
/// root: one line for every published package below the root, then below
/// each of those, and so on; the packages below one node are in the order
/// of packages.
pub fn tree_lines(g: &Solution) -> (r: Vec<TreeLine>)
    requires
        graph_nodes(*g).len() > 0,
    ensures
        line_views(r@) == tree_of(
            graph_nodes(*g),
            graph_successors(*g),
            all_nodes(graph_nodes(*g).len()),
        ),
{
    let keep = marks(graph_node_count(g), true);
    proof {
        assert(marked(keep@) =~= all_nodes(graph_nodes(*g).len()));
    }
    tree_within(g, &keep)
}

/// The first node that is the package `name`, if there is one.
pub open spec fn node_of(nodes: Seq<Summary<PackageId>>, name: NameView, at: int) -> bool {
    &&& 0 <= at < nodes.len()
    &&& nodes[at].id@ == PackageIdView::Pkg(name)
    &&& forall|k: int| 0 <= k < at ==> (#[trigger] nodes[k]).id@ != PackageIdView::Pkg(name)
}

/// The tree of the graph `g` cut down to the ways that lead from the root to
/// the package `target`: only the nodes on paths without repetitions from
/// the root to it are drawn. Nothing if the graph does not hold the package.
pub fn tree_lines_to(g: &Solution, target: &Name) -> (r: Option<Vec<TreeLine>>)
    requires
        graph_nodes(*g).len() > 0,
    ensures
        r is None <==> forall|k: int|
            0 <= k < graph_nodes(*g).len() ==> (#[trigger] graph_nodes(*g)[k]).id@
                != PackageIdView::Pkg(target@),
        r is Some ==> exists|at: int|
            #[trigger] node_of(graph_nodes(*g), target@, at) && line_views(r->0@) == tree_of(
                graph_nodes(*g),
                graph_successors(*g),
                simple_path_nodes(graph_successors(*g), 0, at).to_set(),
            ),
{
    let n = graph_node_count(g);
    let mut at: usize = 0;
    while at < n
        invariant
            at <= n,
            n == graph_nodes(*g).len(),
            forall|k: int|
                0 <= k < at ==> (#[trigger] graph_nodes(*g)[k]).id@ != PackageIdView::Pkg(target@),
        decreases n - at,
    {
        if graph_node(g, at).id.is(target) {
            let on = graph_simple_paths(g, 0, at);
            let keep = kept_nodes(n, &on);
            proof {
                assert(node_of(graph_nodes(*g), target@, at as int));
            }
            return Some(tree_within(g, &keep));
        }
        at += 1;
    }
    None
}

} // verus!
