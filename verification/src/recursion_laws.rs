//! What holds of every expression tree, every evaluation and every abduction.
use vstd::prelude::*;
use crate::recursion_dl::{
    abducted, applied, assigned, deepest_from, first_values, flat_depths, flat_lens, flat_nodes, flat_value, fold_kids,
    frontier, greatest, height, kids_from, labelled, level_cuts, links_ok, parse_advances, parse_from, placed, size,
    small_numbers, sorted_distinct, target_from, tree_value, Flat, Node, Outcome,
};
use crate::cut_search::{first_is_first, is_first};
use crate::text::i64_value;

verus! {

/// The cut values by node.
pub open spec fn cut_map(cuts: Seq<(usize, i64, bool)>) -> Map<usize, i64>
    decreases cuts.len(),
{
    if cuts.len() == 0 {
        Map::empty()
    } else {
        cut_map(cuts.drop_last()).insert(cuts.last().0, cuts.last().1)
    }
}

/// In the flat representation every child follows its parent, within the tree that it belongs to.
pub proof fn flat_children(n: Node, base: int)
    requires
        0 <= base,
        base + size(n) <= usize::MAX,
    ensures
        forall|i: int|
            0 <= i < size(n) ==> (#[trigger] flat_nodes(n, base)[i] matches Flat::Op(_, a, c) ==> base + i < a < c
                < base + size(n)),
    decreases n,
{
    flat_lens(n, base, 0);
    match n {
        Node::Leaf(_) => {},
        Node::Op(_, a, b, _, _) => {
            let left = flat_nodes(*a, base + 1);
            flat_lens(*a, base + 1, 0);
            flat_lens(*b, base + 1 + left.len(), 0);
            flat_children(*a, base + 1);
            flat_children(*b, base + 1 + left.len());
            assert forall|i: int| 0 <= i < size(n) implies (#[trigger] flat_nodes(n, base)[i] matches Flat::Op(_, x, y)
                ==> base + i < x < y < base + size(n)) by {
                if i == 0 {
                } else if i < 1 + left.len() {
                    assert(flat_nodes(n, base)[i] == left[i - 1]);
                } else {
                    assert(flat_nodes(n, base)[i] == flat_nodes(*b, base + 1 + left.len())[i - 1 - left.len()]);
                }
            }
        },
    }
}

/// The flat representation of a tree that fits in memory has no dangling links.
pub proof fn flat_links(n: Node)
    requires
        flat_nodes(n, 0).len() <= usize::MAX,
    ensures
        links_ok(flat_nodes(n, 0)),
{
    flat_lens(n, 0, 0);
    flat_children(n, 0);
}

/// What is abduced reproduces the answer: the evaluation under the found budget, with the found cut values, gives
/// exactly that answer.
pub proof fn abduction_reproduces(nodes: Seq<Flat>, depth: Seq<usize>, answer: i64, literals: Seq<i64>)
    ensures
        abducted(nodes, depth, answer, literals) matches Some((d, cuts)) ==> flat_value(
            nodes,
            0,
            d,
            cut_map(cuts),
        ) == Outcome::Value(answer),
{
    deepest_reproduces(nodes, depth, (greatest(depth) as i64) as int, answer, literals);
}

proof fn deepest_reproduces(nodes: Seq<Flat>, depth: Seq<usize>, d: int, answer: i64, literals: Seq<i64>)
    ensures
        deepest_from(nodes, depth, d, answer, literals) matches Some((k, cuts)) ==> 0 <= k <= d && flat_value(
            nodes,
            0,
            k,
            cut_map(cuts),
        ) == Outcome::Value(answer),
    decreases d + 1,
{
    if d >= 0 {
        level_reproduces(nodes, depth, d, answer, literals);
        deepest_reproduces(nodes, depth, d - 1, answer, literals);
    }
}

proof fn level_reproduces(nodes: Seq<Flat>, depth: Seq<usize>, d: int, answer: i64, literals: Seq<i64>)
    ensures
        level_cuts(nodes, depth, d, answer, literals) matches Some(cuts) ==> flat_value(
            nodes,
            0,
            d,
            cut_map(cuts),
        ) == Outcome::Value(answer),
{
    level_search(nodes, depth, d, answer, literals);
    if let Some(cuts) = level_cuts(nodes, depth, d, answer, literals) {
        let cut = frontier(nodes, depth, d, nodes.len() as int);
        match first_values(nodes, d, answer, cut, sorted_distinct(literals)) {
            Some(vals) => labelled_are_assigned(cut, vals, true),
            None => labelled_are_assigned(
                cut,
                first_values(nodes, d, answer, cut, small_numbers())->0,
                false,
            ),
        }
    }
}

/// What the two searches of a level come to.
proof fn level_search(nodes: Seq<Flat>, depth: Seq<usize>, d: int, answer: i64, literals: Seq<i64>)
    ensures
        ({
            let cut = frontier(nodes, depth, d, nodes.len() as int);
            let lits = sorted_distinct(literals);
            &&& is_first(nodes, d, answer, cut, lits, first_values(nodes, d, answer, cut, lits))
            &&& is_first(nodes, d, answer, cut, small_numbers(), first_values(nodes, d, answer, cut, small_numbers()))
        }),
{
    let cut = frontier(nodes, depth, d, nodes.len() as int);
    pool_is_sorted(literals);
    first_is_first(nodes, d, answer, cut, sorted_distinct(literals));
    first_is_first(nodes, d, answer, cut, small_numbers());
}

/// The map of labelled cuts is that of their values.
proof fn labelled_are_assigned(cut: Seq<usize>, vals: Seq<i64>, src: bool)
    ensures
        cut_map(labelled(cut, vals, src)) == assigned(cut, vals),
    decreases vals.len(),
{
    if vals.len() > 0 {
        assert(labelled(cut, vals, src).drop_last() =~= labelled(cut, vals.drop_last(), src));
        labelled_are_assigned(cut, vals.drop_last(), src);
    }
}

/// A number put at its place keeps an increasing sequence increasing, and adds that number alone.
proof fn placed_is_sorted(s: Seq<i64>, v: i64)
    requires
        increasing(s),
    ensures
        increasing(placed(s, v)),
        forall|x: i64| #[trigger] placed(s, v).contains(x) <==> s.contains(x) || x == v,
    decreases s.len(),
{
    let t = placed(s, v);
    if s.len() == 0 || s.last() < v {
        assert forall|x: i64| t.contains(x) <==> s.contains(x) || x == v by {
            if s.contains(x) {
                let k = choose|k: int| 0 <= k < s.len() && s[k] == x;
                assert(t[k] == x);
            }
            assert(t[s.len() as int] == v);
        }
    } else if s.last() == v {
        assert(s[s.len() - 1] == v);
    } else {
        let head = s.drop_last();
        placed_is_sorted(head, v);
        let u = placed(head, v);
        assert forall|i: int, j: int| 0 <= i < j < t.len() implies t[i] < t[j] by {
            if j == t.len() - 1 {
                assert(u.contains(u[i]));
                if head.contains(u[i]) {
                    let k = choose|k: int| 0 <= k < head.len() && head[k] == u[i];
                    assert(s[k] < s[s.len() - 1]);
                }
            }
        }
        assert forall|x: i64| t.contains(x) <==> s.contains(x) || x == v by {
            if t.contains(x) {
                let k = choose|k: int| 0 <= k < t.len() && t[k] == x;
                if k < u.len() {
                    assert(u[k] == x);
                    assert(u.contains(x));
                    if head.contains(x) {
                        let m = choose|m: int| 0 <= m < head.len() && head[m] == x;
                        assert(s[m] == x);
                    }
                } else {
                    assert(s[s.len() - 1] == x);
                }
            }
            if s.contains(x) {
                let k = choose|k: int| 0 <= k < s.len() && s[k] == x;
                if k < s.len() - 1 {
                    assert(head[k] == x);
                    assert(u.contains(x));
                    let m = choose|m: int| 0 <= m < u.len() && u[m] == x;
                    assert(t[m] == x);
                } else {
                    assert(t[t.len() - 1] == x);
                }
            }
            if x == v {
                assert(u.contains(v));
                let m = choose|m: int| 0 <= m < u.len() && u[m] == v;
                assert(t[m] == v);
            }
        }
    }
}

pub open spec fn increasing(s: Seq<i64>) -> bool {
    forall|i: int, j: int| 0 <= i < j < s.len() ==> s[i] < s[j]
}

/// The pool of context values is increasing, so without repetition, and holds the literals and nothing else.
pub proof fn pool_is_sorted(s: Seq<i64>)
    ensures
        increasing(sorted_distinct(s)),
        forall|x: i64| #[trigger] sorted_distinct(s).contains(x) <==> s.contains(x),
    decreases s.len(),
{
    if s.len() > 0 {
        pool_is_sorted(s.drop_last());
        placed_is_sorted(sorted_distinct(s.drop_last()), s.last());
        assert forall|x: i64| sorted_distinct(s).contains(x) <==> s.contains(x) by {
            if s.contains(x) {
                let k = choose|k: int| 0 <= k < s.len() && s[k] == x;
                if k < s.len() - 1 {
                    assert(s.drop_last()[k] == x);
                }
            }
            if s.drop_last().contains(x) {
                let k = choose|k: int| 0 <= k < s.len() - 1 && s.drop_last()[k] == x;
                assert(s[k] == x);
            }
            assert(s[s.len() - 1] == s.last());
        }
    }
}

/// The values are drawn from the given ones.
pub open spec fn drawn_from(vals: Seq<i64>, pool: Seq<i64>) -> bool {
    forall|i: int| 0 <= i < vals.len() ==> pool.contains(#[trigger] vals[i])
}

/// The values that may stand at a cut: all from the context, or all small.
pub open spec fn admissible(vals: Seq<i64>, literals: Seq<i64>) -> bool {
    drawn_from(vals, literals) || drawn_from(vals, small_numbers())
}

proof fn level_fails(
    nodes: Seq<Flat>,
    depth: Seq<usize>,
    d: int,
    answer: i64,
    literals: Seq<i64>,
    vals: Seq<i64>,
    src: bool,
)
    requires
        level_cuts(nodes, depth, d, answer, literals) is None,
        vals.len() == frontier(nodes, depth, d, nodes.len() as int).len(),
        admissible(vals, literals),
    ensures
        flat_value(nodes, 0, d, cut_map(labelled(frontier(nodes, depth, d, nodes.len() as int), vals, src)))
            != Outcome::Value(answer),
{
    let cut = frontier(nodes, depth, d, nodes.len() as int);
    level_search(nodes, depth, d, answer, literals);
    labelled_are_assigned(cut, vals, src);
    pool_is_sorted(literals);
    if drawn_from(vals, literals) {
        assert(drawn_from(vals, sorted_distinct(literals)));
    } else {
        assert(drawn_from(vals, small_numbers()));
    }
}

/// Abduction finds the deepest budget: at a deeper one, up to the greatest depth, no admissible choice of values for
/// the operators to cut gives the answer.
pub proof fn abduction_is_deepest(
    nodes: Seq<Flat>,
    depth: Seq<usize>,
    answer: i64,
    literals: Seq<i64>,
    k: int,
    vals: Seq<i64>,
)
    requires
        abducted(nodes, depth, answer, literals) matches Some((d, _)) && d < k,
        k <= greatest(depth) as i64,
        vals.len() == frontier(nodes, depth, k, nodes.len() as int).len(),
        admissible(vals, literals),
    ensures
        flat_value(nodes, 0, k, cut_map(labelled(frontier(nodes, depth, k, nodes.len() as int), vals, true)))
            != Outcome::Value(answer),
{
    deepest_reproduces(nodes, depth, (greatest(depth) as i64) as int, answer, literals);
    deeper_levels_fail(nodes, depth, (greatest(depth) as i64) as int, answer, literals, k);
    level_fails(nodes, depth, k, answer, literals, vals, true);
}

proof fn deeper_levels_fail(nodes: Seq<Flat>, depth: Seq<usize>, d: int, answer: i64, literals: Seq<i64>, k: int)
    requires
        0 <= k <= d,
        match deepest_from(nodes, depth, d, answer, literals) {
            Some((m, _)) => m < k,
            None => true,
        },
    ensures
        level_cuts(nodes, depth, k, answer, literals) is None,
    decreases d,
{
    if k < d {
        deeper_levels_fail(nodes, depth, d - 1, answer, literals, k);
    }
}

/// When nothing is abduced, no budget works: none from 0 to the greatest depth gives the answer with admissible
/// values.
pub proof fn nothing_abduced_nothing_works(
    nodes: Seq<Flat>,
    depth: Seq<usize>,
    answer: i64,
    literals: Seq<i64>,
    k: int,
    vals: Seq<i64>,
)
    requires
        abducted(nodes, depth, answer, literals) is None,
        0 <= k <= greatest(depth) as i64,
        vals.len() == frontier(nodes, depth, k, nodes.len() as int).len(),
        admissible(vals, literals),
    ensures
        flat_value(nodes, 0, k, cut_map(labelled(frontier(nodes, depth, k, nodes.len() as int), vals, true)))
            != Outcome::Value(answer),
{
    deeper_levels_fail(nodes, depth, (greatest(depth) as i64) as int, answer, literals, k);
    level_fails(nodes, depth, k, answer, literals, vals, true);
}

/// The frontier is made of the operators at the given depth, each once, in order.
pub proof fn frontier_is_operators(nodes: Seq<Flat>, depth: Seq<usize>, d: int, k: int)
    requires
        0 <= k <= nodes.len(),
        nodes.len() <= usize::MAX,
    ensures
        forall|i: int|
            0 <= i < frontier(nodes, depth, d, k).len() ==> (#[trigger] frontier(nodes, depth, d, k)[i]) < k
                && nodes[frontier(nodes, depth, d, k)[i] as int] is Op && (depth[frontier(
                nodes,
                depth,
                d,
                k,
            )[i] as int] as i64) == d,
        forall|i: int, j: int|
            0 <= i < j < frontier(nodes, depth, d, k).len() ==> frontier(nodes, depth, d, k)[i] < frontier(
                nodes,
                depth,
                d,
                k,
            )[j],
        forall|i: int|
            0 <= i < k && nodes[i] is Op && (depth[i] as i64) == d ==> #[trigger] frontier(nodes, depth, d, k).contains(
                i as usize,
            ),
    decreases k,
{
    if k > 0 {
        frontier_is_operators(nodes, depth, d, k - 1);
        let rest = frontier(nodes, depth, d, k - 1);
        let all = frontier(nodes, depth, d, k);
        assert forall|i: int| 0 <= i < k && nodes[i] is Op && (depth[i] as i64) == d implies #[trigger] all.contains(
            i as usize,
        ) by {
            if i < k - 1 {
                assert(rest.contains(i as usize));
                let m = choose|m: int| 0 <= m < rest.len() && rest[m] == i as usize;
                assert(all[m] == i as usize);
            } else {
                assert(all[all.len() - 1] == i as usize);
            }
        }
    }
}

/// The cuts of an abduction are the operators at its budget. Their values come from the context, and are marked so,
/// whenever some choice of context values gives the answer there; else they are small numbers.
pub proof fn cuts_prefer_the_context(nodes: Seq<Flat>, depth: Seq<usize>, answer: i64, literals: Seq<i64>)
    ensures
        abducted(nodes, depth, answer, literals) matches Some((d, cuts)) ==> {
            let cut = frontier(nodes, depth, d, nodes.len() as int);
            &&& cuts.len() == cut.len()
            &&& forall|i: int| 0 <= i < cuts.len() ==> (#[trigger] cuts[i]).0 == cut[i]
            &&& (forall|i: int| 0 <= i < cuts.len() ==> (#[trigger] cuts[i]).2 && literals.contains(cuts[i].1)) || (
            forall|i: int| 0 <= i < cuts.len() ==> !(#[trigger] cuts[i]).2 && 0 <= cuts[i].1 <= 50)
            &&& cuts.len() > 0 && !cuts[0].2 ==> forall|vals: Seq<i64>|
                vals.len() == cut.len() && #[trigger] drawn_from(vals, literals) ==> flat_value(
                    nodes,
                    0,
                    d,
                    cut_map(labelled(cut, vals, true)),
                ) != Outcome::Value(answer)
        },
{
    found_at_level(nodes, depth, (greatest(depth) as i64) as int, answer, literals);
    if let Some((d, cuts)) = abducted(nodes, depth, answer, literals) {
        let cut = frontier(nodes, depth, d, nodes.len() as int);
        pool_is_sorted(literals);
        level_search(nodes, depth, d, answer, literals);
        match first_values(nodes, d, answer, cut, sorted_distinct(literals)) {
            Some(v) => {
                assert forall|i: int| 0 <= i < cuts.len() implies (#[trigger] cuts[i]).2 && literals.contains(
                    cuts[i].1,
                ) by {
                    assert(sorted_distinct(literals).contains(v[i]));
                }
            },
            None => {
                let v = first_values(nodes, d, answer, cut, small_numbers())->0;
                assert forall|i: int| 0 <= i < cuts.len() implies !(#[trigger] cuts[i]).2 && 0 <= cuts[i].1
                    <= 50 by {
                    assert(small_numbers().contains(v[i]));
                }
                assert forall|vals: Seq<i64>|
                    vals.len() == cut.len() && #[trigger] drawn_from(vals, literals) implies flat_value(
                    nodes,
                    0,
                    d,
                    cut_map(labelled(cut, vals, true)),
                ) != Outcome::Value(answer) by {
                    assert(drawn_from(vals, sorted_distinct(literals)));
                    labelled_are_assigned(cut, vals, true);
                }
            },
        }
    }
}

proof fn found_at_level(nodes: Seq<Flat>, depth: Seq<usize>, d: int, answer: i64, literals: Seq<i64>)
    ensures
        deepest_from(nodes, depth, d, answer, literals) matches Some((k, cuts)) ==> level_cuts(
            nodes,
            depth,
            k,
            answer,
            literals,
        ) == Some(cuts),
    decreases d + 1,
{
    if d >= 0 {
        found_at_level(nodes, depth, d - 1, answer, literals);
    }
}

/// Evaluation in the flat representation agrees with the value of the tree, once the budget covers its height.
pub proof fn enough_budget_is_exact(nodes: Seq<Flat>, n: Node, base: int, b: int, cuts: Map<usize, i64>)
    requires
        0 <= base,
        base + size(n) <= nodes.len() <= usize::MAX,
        nodes.subrange(base, base + size(n)) == flat_nodes(n, base),
        b >= height(n),
    ensures
        flat_value(nodes, base, b, cuts) == tree_value(n),
    decreases n,
{
    flat_lens(n, base, 0);
    assert(nodes[base] == nodes.subrange(base, base + size(n))[0]);
    match n {
        Node::Leaf(_) => {},
        Node::Op(op, a, c, _, _) => {
            let left = flat_nodes(*a, base + 1);
            let mid = base + 1 + left.len();
            flat_lens(*a, base + 1, 0);
            flat_lens(*c, mid, 0);
            let all = flat_nodes(n, base);
            assert(nodes.subrange(base + 1, base + 1 + size(*a)) =~= left) by {
                assert forall|i: int| 0 <= i < left.len() implies nodes[base + 1 + i] == left[i] by {
                    assert(nodes.subrange(base, base + size(n))[1 + i] == all[1 + i]);
                }
            }
            assert(nodes.subrange(mid, mid + size(*c)) =~= flat_nodes(*c, mid)) by {
                assert forall|i: int| 0 <= i < size(*c) implies nodes[mid + i] == flat_nodes(*c, mid)[i] by {
                    assert(nodes.subrange(base, base + size(n))[1 + left.len() + i] == all[1 + left.len() + i]);
                }
            }
            enough_budget_is_exact(nodes, *a, base + 1, b - 1, cuts);
            enough_budget_is_exact(nodes, *c, mid, b - 1, cuts);
        },
    }
}

/// The depths of a tree reach from the depth of its root over its height; operators stay above the deepest level.
proof fn depths_of_tree(n: Node, base: int, d: int)
    requires
        0 <= d,
        d + height(n) <= usize::MAX,
    ensures
        forall|i: int|
            0 <= i < size(n) ==> d <= #[trigger] flat_depths(n, d)[i] <= d + height(n) && (flat_nodes(n, base)[i] is Op
                ==> flat_depths(n, d)[i] < d + height(n)),
        exists|i: int| 0 <= i < size(n) && #[trigger] flat_depths(n, d)[i] == d + height(n),
    decreases n,
{
    flat_lens(n, base, d);
    match n {
        Node::Leaf(_) => {
            assert(flat_depths(n, d)[0] == d);
        },
        Node::Op(_, a, b, _, _) => {
            let left = flat_nodes(*a, base + 1);
            flat_lens(*a, base + 1, d + 1);
            flat_lens(*b, base + 1 + left.len(), d + 1);
            depths_of_tree(*a, base + 1, d + 1);
            depths_of_tree(*b, base + 1 + left.len(), d + 1);
            let all = flat_depths(n, d);
            let la = flat_depths(*a, d + 1);
            let lb = flat_depths(*b, d + 1);
            assert forall|i: int| 0 <= i < size(n) implies d <= #[trigger] all[i] <= d + height(n) && (flat_nodes(
                n,
                base,
            )[i] is Op ==> all[i] < d + height(n)) by {
                if i == 0 {
                } else if i < 1 + la.len() {
                    assert(all[i] == la[i - 1]);
                    assert(flat_nodes(n, base)[i] == left[i - 1]);
                } else {
                    assert(all[i] == lb[i - 1 - la.len()]);
                    assert(flat_nodes(n, base)[i] == flat_nodes(*b, base + 1 + left.len())[i - 1 - la.len()]);
                }
            }
            if height(*a) >= height(*b) {
                let i = choose|i: int| 0 <= i < size(*a) && #[trigger] la[i] == d + 1 + height(*a);
                assert(all[i + 1] == la[i]);
            } else {
                let i = choose|i: int| 0 <= i < size(*b) && #[trigger] lb[i] == d + 1 + height(*b);
                assert(all[i + 1 + la.len()] == lb[i]);
            }
        },
    }
}

proof fn greatest_is_bound(s: Seq<usize>, m: usize)
    requires
        forall|i: int| 0 <= i < s.len() ==> #[trigger] s[i] <= m,
        exists|i: int| 0 <= i < s.len() && #[trigger] s[i] == m,
    ensures
        greatest(s) == m,
{
    greatest_bounds(s);
    let i = choose|i: int| 0 <= i < s.len() && #[trigger] s[i] == m;
    assert(s[i] <= greatest(s));
}

proof fn greatest_bounds(s: Seq<usize>)
    ensures
        forall|i: int| 0 <= i < s.len() ==> #[trigger] s[i] <= greatest(s),
        s.len() > 0 ==> exists|i: int| 0 <= i < s.len() && #[trigger] s[i] == greatest(s),
    decreases s.len(),
{
    if s.len() > 0 {
        let t = s.drop_last();
        greatest_bounds(t);
        assert forall|i: int| 0 <= i < s.len() implies #[trigger] s[i] <= greatest(s) by {
            if i < s.len() - 1 {
                assert(t[i] == s[i]);
            }
        }
        if s.last() >= greatest(t) {
            assert(s[s.len() - 1] == greatest(s));
        } else {
            let i = choose|i: int| 0 <= i < t.len() && #[trigger] t[i] == greatest(t);
            assert(s[i] == greatest(s));
        }
    }
}

proof fn no_frontier(nodes: Seq<Flat>, depth: Seq<usize>, d: int, k: int)
    requires
        0 <= k <= nodes.len(),
        forall|i: int| 0 <= i < k && #[trigger] nodes[i] is Op ==> (depth[i] as i64) != d,
    ensures
        frontier(nodes, depth, d, k) == Seq::<usize>::empty(),
    decreases k,
{
    if k > 0 {
        no_frontier(nodes, depth, d, k - 1);
        if nodes[k - 1] is Op {
            assert((depth[k - 1] as i64) != d);
        }
    }
}

/// A right answer needs no cut: for the true value of a tree, abduction recurses all the way down.
pub proof fn right_answers_need_no_cut(n: Node, answer: i64, literals: Seq<i64>)
    requires
        size(n) <= usize::MAX,
        height(n) <= i64::MAX,
        tree_value(n) == Outcome::Value(answer),
    ensures
        abducted(flat_nodes(n, 0), flat_depths(n, 0), answer, literals) == Some(
            (height(n) as int, Seq::<(usize, i64, bool)>::empty()),
        ),
{
    let nodes = flat_nodes(n, 0);
    let depth = flat_depths(n, 0);
    let h = height(n) as int;
    flat_lens(n, 0, 0);
    height_under_size(n);
    depths_of_tree(n, 0, 0);
    assert forall|i: int| 0 <= i < depth.len() implies #[trigger] depth[i] <= h as usize by {}
    greatest_is_bound(depth, h as usize);
    assert forall|i: int| 0 <= i < nodes.len() && #[trigger] nodes[i] is Op implies (depth[i] as i64) != h by {
        assert(depth[i] < h);
    }
    no_frontier(nodes, depth, h, nodes.len() as int);
    assert(nodes.subrange(0, nodes.len() as int) =~= nodes);
    enough_budget_is_exact(nodes, n, 0, h, Map::empty());
    let none = Seq::<i64>::empty();
    assert(first_values(nodes, h, answer, Seq::empty(), sorted_distinct(literals)) == Some(none));
    assert(labelled(Seq::empty(), none, true) =~= Seq::empty());
}

/// A tree is less high than it has nodes.
pub proof fn height_under_size(n: Node)
    ensures
        height(n) < size(n),
    decreases n,
{
    match n {
        Node::Leaf(_) => {},
        Node::Op(_, a, b, _, _) => {
            height_under_size(*a);
            height_under_size(*b);
        },
    }
}

/// The greatest depth of a node is the height of the tree.
pub proof fn greatest_depth_is_height(n: Node)
    requires
        height(n) <= usize::MAX,
    ensures
        greatest(flat_depths(n, 0)) == height(n),
{
    let depth = flat_depths(n, 0);
    flat_lens(n, 0, 0);
    depths_of_tree(n, 0, 0);
    assert forall|i: int| 0 <= i < depth.len() implies #[trigger] depth[i] <= height(n) as usize by {}
    greatest_is_bound(depth, height(n) as usize);
}

/// The budget of an abduction lies between zero and the greatest depth.
pub proof fn abduction_lies_in_range(nodes: Seq<Flat>, depth: Seq<usize>, answer: i64, literals: Seq<i64>)
    ensures
        abducted(nodes, depth, answer, literals) matches Some((d, _)) ==> 0 <= d <= (greatest(depth) as i64),
{
    deepest_reproduces(nodes, depth, (greatest(depth) as i64) as int, answer, literals);
}

/// The budgets of the written program when it runs at `run`: that number, and from each above zero the next below.
pub open spec fn is_budget(run: int, b: int) -> bool {
    b == run || 0 <= b < run
}

/// The rules of the written program derive the value `v` for a node under the budget `b`: it is retrieved where the
/// budget is used up, it is the value of a leaf, or it is made of derived values of the two operands.
pub open spec fn derives(nodes: Seq<Flat>, cuts: Map<usize, i64>, run: int, idx: int, v: i64, b: int) -> bool
    decreases b,
{
    is_budget(run, b) && (derives_cut(cuts, idx, v, b) || nodes[idx] == Flat::Leaf(v) || (b > 0 && (
    nodes[idx] matches Flat::Op(op, a, c) && exists|x: i64, y: i64|
        #![trigger applied(op, x, y)]
        derives(nodes, cuts, run, a as int, x, b - 1) && derives(nodes, cuts, run, c as int, y, b - 1) && applied(
            op,
            x,
            y,
        ) == Outcome::Value(v))))
}

pub open spec fn derives_cut(cuts: Map<usize, i64>, idx: int, v: i64, b: int) -> bool {
    b <= 0 && cuts.contains_key(idx as usize) && cuts[idx as usize] == v
}

/// Only operators are cut.
pub open spec fn cuts_operators(nodes: Seq<Flat>, cuts: Map<usize, i64>) -> bool {
    forall|i: usize| #[trigger] cuts.contains_key(i) ==> i < nodes.len() && nodes[i as int] is Op
}

/// The rules derive for a node its value, and no other.
proof fn rules_follow_evaluation(nodes: Seq<Flat>, cuts: Map<usize, i64>, run: int, idx: int, v: i64, b: int)
    requires
        nodes.len() <= usize::MAX,
        links_ok(nodes),
        cuts_operators(nodes, cuts),
        0 <= idx < nodes.len(),
        0 <= b <= run,
    ensures
        derives(nodes, cuts, run, idx, v, b) == (flat_value(nodes, idx, b, cuts) == Outcome::Value(v)),
    decreases b,
{
    match nodes[idx] {
        Flat::Leaf(u) => {
            assert(!cuts.contains_key(idx as usize));
        },
        Flat::Op(op, a, c) => if b > 0 {
            assert forall|x: i64| #[trigger] derives(nodes, cuts, run, a as int, x, b - 1) == (flat_value(
                nodes,
                a as int,
                b - 1,
                cuts,
            ) == Outcome::Value(x)) by {
                rules_follow_evaluation(nodes, cuts, run, a as int, x, b - 1);
            }
            assert forall|y: i64| #[trigger] derives(nodes, cuts, run, c as int, y, b - 1) == (flat_value(
                nodes,
                c as int,
                b - 1,
                cuts,
            ) == Outcome::Value(y)) by {
                rules_follow_evaluation(nodes, cuts, run, c as int, y, b - 1);
            }
            match (flat_value(nodes, a as int, b - 1, cuts), flat_value(nodes, c as int, b - 1, cuts)) {
                (Outcome::Value(x), Outcome::Value(y)) => {
                    assert(derives(nodes, cuts, run, a as int, x, b - 1));
                    assert(derives(nodes, cuts, run, c as int, y, b - 1));
                    assert(applied(op, x, y) == flat_value(nodes, idx, b, cuts));
                },
                _ => {},
            }
            if derives(nodes, cuts, run, idx, v, b) {
                let (x, y) = choose|x: i64, y: i64|
                    #![trigger applied(op, x, y)]
                    derives(nodes, cuts, run, a as int, x, b - 1) && derives(nodes, cuts, run, c as int, y, b - 1)
                        && applied(op, x, y) == Outcome::Value(v);
                assert(derives(nodes, cuts, run, a as int, x, b - 1));
                assert(derives(nodes, cuts, run, c as int, y, b - 1));
            }
        } else {
            assert(derives(nodes, cuts, run, idx, v, b) == derives_cut(cuts, idx, v, b));
        },
    }
}

proof fn assigned_are_cut(cut: Seq<usize>, vals: Seq<i64>, i: usize)
    requires
        vals.len() <= cut.len(),
        assigned(cut, vals).contains_key(i),
    ensures
        cut.contains(i),
    decreases vals.len(),
{
    if vals.len() > 0 {
        assert(cut.contains(cut[vals.len() - 1]));
        if i != cut[vals.len() - 1] {
            assigned_are_cut(cut, vals.drop_last(), i);
        }
    }
}

/// What is cut are operators.
proof fn deepest_cuts_operators(nodes: Seq<Flat>, depth: Seq<usize>, d: int, answer: i64, literals: Seq<i64>)
    requires
        nodes.len() <= usize::MAX,
    ensures
        deepest_from(nodes, depth, d, answer, literals) matches Some((_, cuts)) ==> cuts_operators(
            nodes,
            cut_map(cuts),
        ),
    decreases d + 1,
{
    if d >= 0 {
        deepest_cuts_operators(nodes, depth, d - 1, answer, literals);
        if let Some(cuts) = level_cuts(nodes, depth, d, answer, literals) {
            let cut = frontier(nodes, depth, d, nodes.len() as int);
            frontier_is_operators(nodes, depth, d, nodes.len() as int);
            level_search(nodes, depth, d, answer, literals);
            let (vals, src) = match first_values(nodes, d, answer, cut, sorted_distinct(literals)) {
                Some(vals) => (vals, true),
                None => (first_values(nodes, d, answer, cut, small_numbers())->0, false),
            };
            labelled_are_assigned(cut, vals, src);
            assert forall|i: usize| #[trigger] cut_map(cuts).contains_key(i) implies i < nodes.len()
                && nodes[i as int] is Op by {
                assigned_are_cut(cut, vals, i);
                let k = choose|k: int| 0 <= k < cut.len() && cut[k] == i;
                assert(cut[k] < nodes.len());
            }
        }
    }
}

/// The rules of the written program, run at the found budget with the found cuts, derive the model's answer, right or
/// wrong, and nothing else.
pub proof fn rules_derive_the_answer(n: Node, answer: i64, literals: Seq<i64>, v: i64)
    requires
        size(n) <= usize::MAX,
    ensures
        abducted(flat_nodes(n, 0), flat_depths(n, 0), answer, literals) matches Some((d, cuts)) ==> derives(
            flat_nodes(n, 0),
            cut_map(cuts),
            d,
            0,
            v,
            d,
        ) == (v == answer),
{
    let nodes = flat_nodes(n, 0);
    let depth = flat_depths(n, 0);
    abduction_reproduces(nodes, depth, answer, literals);
    abduction_lies_in_range(nodes, depth, answer, literals);
    flat_lens(n, 0, 0);
    flat_links(n);
    deepest_cuts_operators(nodes, depth, (greatest(depth) as i64) as int, answer, literals);
    if let Some((d, cuts)) = abducted(nodes, depth, answer, literals) {
        rules_follow_evaluation(nodes, cut_map(cuts), d, 0, v, d);
    }
}

/// How many atoms an expression is written with.
pub open spec fn atom_count(n: Node) -> nat
    decreases n,
{
    match n {
        Node::Leaf(_) => 1,
        Node::Op(_, a, b, _, _) => 3 + atom_count(*a) + atom_count(*b),
    }
}

/// The atoms from position `p` on write the expression: a leaf is a numeral, an operator node is its bracket, its
/// operator, its two operands and its closing bracket, at the token positions that the node keeps.
pub open spec fn written(atoms: Seq<(String, usize)>, p: int, n: Node) -> bool
    decreases n,
{
    match n {
        Node::Leaf(v) => 0 <= p < atoms.len() && i64_value(atoms[p].0@) == Some(v),
        Node::Op(op, a, b, open, close) => {
            let mid = p + 2 + atom_count(*a);
            let end = mid + atom_count(*b);
            &&& 0 <= p && end < atoms.len()
            &&& atoms[p].0@ == seq!['('] && atoms[p].1 == open
            &&& atoms[p + 1].0@.len() > 0 && atoms[p + 1].0@[0] == op
            &&& written(atoms, p + 2, *a)
            &&& written(atoms, mid, *b)
            &&& atoms[end].0@ == seq![')'] && atoms[end].1 == close
        },
    }
}

proof fn brackets_are_no_numerals()
    ensures
        i64_value(seq!['(']) is None,
        i64_value(seq![')']) is None,
{
    assert(!crate::text::is_digit(seq!['('][0]));
    assert(!crate::text::is_digit(seq![')'][0]));
}

/// What is written is read back: the expression itself, up to the end of its atoms.
pub proof fn written_is_read_back(atoms: Seq<(String, usize)>, p: int, n: Node)
    requires
        written(atoms, p, n),
    ensures
        parse_from(atoms, p) == (Some(n), p + atom_count(n)),
    decreases n,
{
    brackets_are_no_numerals();
    match n {
        Node::Leaf(v) => {},
        Node::Op(op, a, b, open, close) => {
            let mid = p + 2 + atom_count(*a);
            let end = mid + atom_count(*b);
            written_is_read_back(atoms, p + 2, *a);
            written_is_read_back(atoms, mid, *b);
            starts_no_bracket(atoms, p + 2, *a);
            starts_no_bracket(atoms, mid, *b);
            assert(kids_from(atoms, end) == (Some(Seq::<Node>::empty()), end));
            assert(kids_from(atoms, mid) == (Some(seq![*b] + Seq::<Node>::empty()), end));
            let kids = seq![*a] + (seq![*b] + Seq::<Node>::empty());
            assert(kids_from(atoms, p + 2) == (Some(kids), end));
            assert(kids.drop_last() =~= seq![*a]);
            assert(fold_kids(op, kids.drop_last(), open, close) == *a);
            assert(fold_kids(op, kids, open, close) == n);
        },
    }
}

pub(crate) proof fn starts_no_bracket(atoms: Seq<(String, usize)>, p: int, n: Node)
    requires
        written(atoms, p, n),
    ensures
        0 <= p < atoms.len(),
        atoms[p].0@ != seq![')'],
        atom_count(n) > 0,
{
    brackets_are_no_numerals();
    match n {
        Node::Leaf(_) => {},
        Node::Op(_, _, _, _, _) => {
            assert(seq!['('][0] != seq![')'][0]);
        },
    }
}

/// The target is an operator expression, if there is one.
pub proof fn target_is_operator(atoms: Seq<(String, usize)>, p: int, last: Option<Node>)
    requires
        last matches Some(n) ==> n is Op,
    ensures
        target_from(atoms, p, last) matches Some(n) ==> n is Op,
    decreases atoms.len() - p,
{
    if 0 <= p < atoms.len() {
        target_is_operator(atoms, p + 1, last);
        match parse_from(atoms, p) {
            (Some(Node::Op(op, a, b, open, close)), q) => {
                if p < q <= atoms.len() {
                    target_is_operator(atoms, q, Some(Node::Op(op, a, b, open, close)));
                }
            },
            _ => {},
        }
    }
}

/// The expression written last is the target: nothing that opens a bracket may follow it.
pub proof fn last_written_is_the_target(atoms: Seq<(String, usize)>, p: int, n: Node, last: Option<Node>)
    requires
        written(atoms, p, n),
        n is Op,
        forall|i: int| p + atom_count(n) <= i < atoms.len() ==> (#[trigger] atoms[i]).0@ != seq!['('],
    ensures
        target_from(atoms, p, last) == Some(n),
{
    written_is_read_back(atoms, p, n);
    starts_no_bracket(atoms, p, n);
    parse_advances(atoms, p);
    no_more_targets(atoms, p + atom_count(n), Some(n));
}

proof fn no_more_targets(atoms: Seq<(String, usize)>, p: int, last: Option<Node>)
    requires
        forall|i: int| p <= i < atoms.len() ==> (#[trigger] atoms[i]).0@ != seq!['('],
    ensures
        target_from(atoms, p, last) == last,
    decreases atoms.len() - p,
{
    if 0 <= p < atoms.len() {
        no_more_targets(atoms, p + 1, last);
    }
}

} // verus!
