//! The value-flow sweep: two-level expressions are drawn and asked for, and it is counted what the late layers hold
//! near the closing brackets, apart for right and for wrong answers.
use vstd::prelude::*;
use crate::measure::{family_maxv, two_level_family, two_level_ops, two_level_prime};
use crate::recursion_dl::{parse_target, target_from, Node, Outcome};
use crate::recursion_probe::{
    atom_view, atomize_ids, atoms_of, collect_leaves, gen_depth2, leaves_of, ops_of, true_value,
    try_true_eval, two_level_tree,
};
use crate::value_flow::{
    answered_right, bracket_span, classify, closes, collected_are_operators, increasing, is_near, is_read_near, kind_of, read_near,
    reading_positions, subexpressions, Cnt, ReadKind, Reading,
};

verus! {

/// A question as the model sees it: its tokens, what each of them decodes to, and the number that the model answers.
pub struct Opened {
    pub ids: Vec<i64>,
    pub pieces: Vec<String>,
    pub answer: Option<i64>,
}

/// Where a question is to be read: the last expression in it, with its brackets, and the positions near them.
pub struct ReadingPlan {
    pub tree: Node,
    pub closes: Vec<usize>,
    pub positions: Vec<usize>,
}

/// The last expression among the decoded tokens.
pub open spec fn is_target(pieces: Seq<String>, n: Option<Node>) -> bool {
    exists|atoms: Seq<(String, usize)>|
        #[trigger] atom_view(atoms) == atoms_of(pieces, false) && n == target_from(atoms, 0, None)
}

/// The closing brackets of the root and its two operands.
pub open spec fn three_closes(tree: Node) -> Seq<usize> {
    ops_of(&tree).take(3).map_values(|n: &Node| bracket_span(*n).1)
}

/// A plan fits a tree.
pub open spec fn is_plan_of(p: ReadingPlan, tree: Node) -> bool {
    &&& p.tree == tree
    &&& p.closes@ == three_closes(tree)
    &&& increasing(p.positions@)
    &&& forall|q: usize| #[trigger] p.positions@.contains(q) == is_near(p.closes@, q)
}

/// Plans the reading of a question; there is no plan when it holds no expression with three operators.
pub fn plan_reading(pieces: &[String]) -> (r: Option<ReadingPlan>)
    ensures
        match r {
            Some(p) => is_target(pieces@, Some(p.tree)) && ops_of(&p.tree).len() >= 3 && is_plan_of(p, p.tree),
            None => exists|n: Option<Node>|
                #[trigger] is_target(pieces@, n) && (n is None || ops_of(&n->0).len() < 3),
        },
{
    let atoms = atomize_ids(pieces);
    let target = parse_target(atoms.as_slice());
    assert(is_target(pieces@, target));
    match target {
        Some(tree) => {
            let (ends, positions) = match subexpressions(&tree) {
                Some(ops) => {
                    proof {
                        collected_are_operators(&tree);
                        assert forall|i: int| 0 <= i < ops@.len() implies *(#[trigger] ops@[i]) is Op by {
                            assert(ops@[i] == ops_of(&tree)[i]);
                        }
                    }
                    let ends = closes(ops.as_slice());
                    let positions = reading_positions(ends.as_slice());
                    (ends, positions)
                },
                None => {
                    return None;
                },
            };
            Some(ReadingPlan { tree, closes: ends, positions })
        },
        None => None,
    }
}

/// The true value of a tree, as it is compared: none where it has none.
pub open spec fn truth_of(n: Node) -> Option<i64> {
    match true_value(n) {
        Outcome::Value(v) => Some(v),
        _ => None,
    }
}

/// A reading near the closing bracket of an operator is of a kind.
pub open spec fn is_kind_at(p: ReadingPlan, reads: Seq<Vec<Reading>>, ids: Seq<i64>, answer: Option<i64>, i: int, k: ReadKind) -> bool {
    let node = *ops_of(&p.tree)[i];
    exists|r: Option<(i64, usize, usize)>|
        #[trigger] is_read_near(p.positions@, reads, ids, p.closes@[i], r) && k == kind_of(
            match r {
                Some((v, _, _)) => Some(v),
                None => None,
            },
            truth_of(node),
            leaves_of(node),
            answer,
        )
}

/// What was read of a question: whether it was answered right, and the kind of the reading near each bracket.
pub struct Profile {
    pub right: bool,
    pub kinds: Vec<ReadKind>,
}

/// No partial result of the first operators leaves the 64-bit range.
pub open spec fn stays_in_range(tree: Node) -> bool {
    &&& !(true_value(tree) is OutOfRange)
    &&& forall|i: int| 0 <= i < 3 ==> !(true_value(*#[trigger] ops_of(&tree)[i]) is OutOfRange)
}

/// Tells what was read of a question; there is no profile when a true value leaves the 64-bit range.
pub fn profile(p: &ReadingPlan, reads: &[Vec<Reading>], ids: &[i64], answer: Option<i64>) -> (r: Option<Profile>)
    requires
        ops_of(&p.tree).len() >= 3,
        is_plan_of(*p, p.tree),
        reads@.len() == p.positions@.len(),
    ensures
        match r {
            Some(f) => {
                &&& stays_in_range(p.tree)
                &&& f.right == (answer is Some && answer == truth_of(p.tree))
                &&& f.kinds@.len() == 3
                &&& forall|i: int| 0 <= i < 3 ==> is_kind_at(*p, reads@, ids@, answer, i, #[trigger] f.kinds@[i])
            },
            None => !stays_in_range(p.tree),
        },
{
    let truth: Option<i64> = match try_true_eval(&p.tree) {
        Outcome::Value(v) => Some(v),
        Outcome::Undefined => None,
        Outcome::OutOfRange => {
            return None;
        },
    };
    let ops = match subexpressions(&p.tree) {
        Some(ops) => ops,
        None => {
            return None;
        },
    };
    let mut kinds: Vec<ReadKind> = Vec::new();
    for i in 0..3usize
        invariant
            ops_of(&p.tree).len() >= 3,
            ops@ == ops_of(&p.tree).take(3),
            is_plan_of(*p, p.tree),
            reads@.len() == p.positions@.len(),
            !(true_value(p.tree) is OutOfRange),
            kinds@.len() == i,
            forall|j: int| 0 <= j < i ==> !(true_value(*#[trigger] ops_of(&p.tree)[j]) is OutOfRange),
            forall|j: int| 0 <= j < i ==> is_kind_at(*p, reads@, ids@, answer, j, #[trigger] kinds@[j]),
    {
        let node: &Node = ops[i];
        assert(node == ops_of(&p.tree)[i as int]);
        let value: Option<i64> = match try_true_eval(node) {
            Outcome::Value(v) => Some(v),
            Outcome::Undefined => None,
            Outcome::OutOfRange => {
                assert(true_value(*ops_of(&p.tree)[i as int]) is OutOfRange);
                return None;
            },
        };
        let mut leaves: Vec<i64> = Vec::new();
        collect_leaves(node, &mut leaves);
        assert(leaves@ =~= leaves_of(*node));
        let near = read_near(p.positions.as_slice(), reads, ids, p.closes[i]);
        let read: Option<i64> = match near {
            Some((v, _off, _hits)) => Some(v),
            None => None,
        };
        let k = classify(read, value, leaves.as_slice(), answer);
        assert(is_kind_at(*p, reads@, ids@, answer, i as int, k));
        let ghost was = kinds@;
        kinds.push(k);
        assert forall|j: int| 0 <= j < i + 1 implies is_kind_at(*p, reads@, ids@, answer, j, #[trigger] kinds@[j]) by {
            if j < i {
                assert(kinds@[j] == was[j]);
            }
        }
    }
    Some(Profile { right: answered_right(answer, truth), kinds })
}

/// The counts of a value-flow sweep: the questions, those answered right, and the kinds of the readings at the root and
/// the two operands, for right and for wrong answers.
pub struct FlowCounts {
    pub total: usize,
    pub correct: usize,
    pub right: Vec<Cnt>,
    pub wrong: Vec<Cnt>,
}

/// Counts as values.
pub struct FlowModel {
    pub total: usize,
    pub correct: usize,
    pub right: Seq<Cnt>,
    pub wrong: Seq<Cnt>,
}

impl View for FlowCounts {
    type V = FlowModel;

    open spec fn view(&self) -> FlowModel {
        FlowModel { total: self.total, correct: self.correct, right: self.right@, wrong: self.wrong@ }
    }
}

/// Three counts, each of which adds up and has at most `most` readings.
pub open spec fn three_counts(v: Seq<Cnt>, most: usize) -> bool {
    v.len() == 3 && forall|i: int| 0 <= i < 3 ==> (#[trigger] v[i]).adds_up() && v[i].n <= most
}

/// A count with one reading more of a kind.
pub open spec fn counts_one(before: Cnt, after: Cnt, k: ReadKind) -> bool {
    after.n == before.n + 1 && forall|j: ReadKind|
        #[trigger] after.of(j) == before.of(j) + if j == k { 1int } else { 0 }
}

/// Each count has one reading more, of the kind that belongs to it.
pub open spec fn each_counts(before: Seq<Cnt>, after: Seq<Cnt>, kinds: Seq<ReadKind>) -> bool {
    &&& after.len() == before.len()
    &&& forall|i: int| 0 <= i < before.len() ==> counts_one(before[i], #[trigger] after[i], kinds[i])
}

impl FlowModel {
    pub open spec fn adds_up(self) -> bool {
        self.correct <= self.total && three_counts(self.right, self.total) && three_counts(self.wrong, self.total)
    }

    pub open spec fn is_empty(self) -> bool {
        self.total == 0 && self.adds_up()
    }

    /// One profile more is counted.
    pub open spec fn counts(self, after: FlowModel, right: bool, kinds: Seq<ReadKind>) -> bool {
        &&& after.total == self.total + 1
        &&& after.correct == self.correct + if right { 1int } else { 0 }
        &&& if right {
            each_counts(self.right, after.right, kinds) && after.wrong == self.wrong
        } else {
            each_counts(self.wrong, after.wrong, kinds) && after.right == self.right
        }
    }
}

fn count_each(v: &mut Vec<Cnt>, kinds: &[ReadKind], Ghost(most): Ghost<usize>)
    requires
        three_counts(old(v)@, most),
        most < usize::MAX,
        kinds@.len() == 3,
    ensures
        each_counts(old(v)@, final(v)@, kinds@),
        three_counts(final(v)@, (most + 1) as usize),
{
    let ghost before = v@;
    for i in 0..3usize
        invariant
            three_counts(before, most),
            most < usize::MAX,
            kinds@.len() == 3,
            v@.len() == 3,
            forall|j: int| i <= j < 3 ==> v@[j] == before[j],
            forall|j: int| 0 <= j < i ==> (#[trigger] v@[j]).adds_up(),
            forall|j: int| 0 <= j < i ==> counts_one(before[j], #[trigger] v@[j], kinds@[j]),
    {
        let mut c: Cnt = v[i];
        assert(before[i as int].adds_up() && before[i as int].n <= most);
        c.record(kinds[i]);
        assert(counts_one(before[i as int], c, kinds@[i as int]));
        v.set(i, c);
    }
    assert forall|j: int| 0 <= j < 3 implies (#[trigger] v@[j]).adds_up() && v@[j].n <= (most + 1) as usize by {
        assert(before[j].n <= most);
        assert(counts_one(before[j], v@[j], kinds@[j]));
    }
}

impl FlowCounts {
    pub fn new() -> (c: FlowCounts)
        ensures
            c@.is_empty(),
    {
        let z = Cnt::new();
        FlowCounts { total: 0, correct: 0, right: vec![z, z, z], wrong: vec![z, z, z] }
    }

    /// Counts a profile.
    pub fn record(&mut self, f: &Profile)
        requires
            old(self)@.adds_up(),
            old(self).total < usize::MAX,
            f.kinds@.len() == 3,
        ensures
            old(self)@.counts(final(self)@, f.right, f.kinds@),
            final(self)@.adds_up(),
    {
        let ghost most = self.total;
        if f.right {
            self.correct = self.correct + 1;
            count_each(&mut self.right, f.kinds.as_slice(), Ghost(most));
            assert forall|i: int| 0 <= i < 3 implies (#[trigger] self.wrong@[i]).n <= most + 1 by {}
        } else {
            count_each(&mut self.wrong, f.kinds.as_slice(), Ghost(most));
            assert forall|i: int| 0 <= i < 3 implies (#[trigger] self.right@[i]).n <= most + 1 by {}
        }
        self.total = self.total + 1;
    }
}

/// The state of the stream when `i` two-level expressions were drawn.
pub open spec fn two_level_seed(ops: Seq<char>, maxv: i64, seed: u64, i: nat) -> u64
    decreases i,
{
    if i == 0 {
        seed
    } else {
        two_level_tree(ops, maxv, two_level_seed(ops, maxv, seed, (i - 1) as nat), 500).1
    }
}

/// The two-level expression with the number `i`, if it could be drawn.
pub open spec fn two_level_at(ops: Seq<char>, maxv: i64, seed: u64, i: nat) -> Option<Node> {
    two_level_tree(ops, maxv, two_level_seed(ops, maxv, seed, i), 500).0
}

/// The model may open a question so.
pub open spec fn may_open<F: Fn(String) -> Opened>(open: F, question: Seq<char>, o: Opened) -> bool {
    exists|q: String| q@ == question && #[trigger] call_ensures(open, (q,), o)
}

/// What reading a question adds: a question without a plan, or that could not be read at its positions, adds nothing.
pub open spec fn is_read<G: Fn(&Opened, &Vec<usize>) -> Option<Vec<Vec<Reading>>>>(
    lens: G,
    o: Opened,
    plan: Option<ReadingPlan>,
    reads: Option<Vec<Vec<Reading>>>,
    done: bool,
    before: FlowModel,
    after: FlowModel,
) -> bool {
    match plan {
        Some(p) => {
            &&& is_target(o.pieces@, Some(p.tree)) && ops_of(&p.tree).len() >= 3 && is_plan_of(p, p.tree)
            &&& call_ensures(lens, (&o, &p.positions), reads)
            &&& if reads is Some && (reads->0)@.len() == p.positions@.len() {
                if stays_in_range(p.tree) {
                    done && exists|f: Profile| #[trigger] is_profile(f, p, (reads->0)@, o) && before.counts(
                        after,
                        f.right,
                        f.kinds@,
                    )
                } else {
                    !done && after == before
                }
            } else {
                done && after == before
            }
        },
        None => {
            &&& exists|n: Option<Node>| #[trigger] is_target(o.pieces@, n) && (n is None || ops_of(&n->0).len() < 3)
            &&& done && after == before
        },
    }
}

/// A profile of a question.
pub open spec fn is_profile(f: Profile, p: ReadingPlan, reads: Seq<Vec<Reading>>, o: Opened) -> bool {
    &&& f.right == (o.answer is Some && o.answer == truth_of(p.tree))
    &&& f.kinds@.len() == 3
    &&& forall|i: int| 0 <= i < 3 ==> is_kind_at(p, reads, o.ids@, o.answer, i, #[trigger] f.kinds@[i])
}

/// One expression is drawn, opened and read; what could not be drawn adds nothing.
pub open spec fn is_flow_counted<F: Fn(String) -> Opened, G: Fn(&Opened, &Vec<usize>) -> Option<Vec<Vec<Reading>>>>(
    open: F,
    lens: G,
    prime: Seq<char>,
    drawn: Option<Node>,
    o: Opened,
    plan: Option<ReadingPlan>,
    reads: Option<Vec<Vec<Reading>>>,
    done: bool,
    before: FlowModel,
    after: FlowModel,
) -> bool {
    match drawn {
        Some(n) => may_open(open, crate::sweeps::value_question(prime, n), o) && is_read(
            lens,
            o,
            plan,
            reads,
            done,
            before,
            after,
        ),
        None => done && after == before,
    }
}

/// Draws one expression, opens the question for it, reads it and counts; says whether all true values stay in range.
fn flow_one<F: Fn(String) -> Opened, G: Fn(&Opened, &Vec<usize>) -> Option<Vec<Vec<Reading>>>>(
    open: &F,
    lens: &G,
    ops: &[char],
    prime: &str,
    maxv: i64,
    r: &mut u64,
    c: &mut FlowCounts,
) -> (done: bool)
    requires
        forall|q: String| call_requires(*open, (q,)),
        forall|o: &Opened, v: &Vec<usize>| call_requires(*lens, (o, v)),
        0 <= maxv,
        ops@.len() > 0,
        old(c)@.adds_up(),
        old(c).total < usize::MAX,
    ensures
        *final(r) == two_level_tree(ops@, maxv, *old(r), 500).1,
        final(c)@.adds_up(),
        final(c).total <= old(c).total + 1,
        exists|o: Opened, plan: Option<ReadingPlan>, reads: Option<Vec<Vec<Reading>>>|
            #[trigger] is_flow_counted(
                *open,
                *lens,
                prime@,
                two_level_tree(ops@, maxv, *old(r), 500).0,
                o,
                plan,
                reads,
                done,
                old(c)@,
                final(c)@,
            ),
{
    let ghost drawn = two_level_tree(ops@, maxv, *r, 500).0;
    let ghost before = c@;
    let expr = match gen_depth2(ops, maxv, r) {
        Some(e) => e,
        None => {
            let ghost o = arbitrary::<Opened>();
            assert(is_flow_counted(*open, *lens, prime@, drawn, o, None, None, true, before, before));
            return true;
        },
    };
    let ghost n = drawn->0;
    let mut q = String::from_str(prime);
    q.append(expr.as_str());
    q.append(" =");
    assert(q@ =~= crate::sweeps::value_question(prime@, n));
    let ghost asked = q;
    let o = open(q);
    assert(may_open(*open, crate::sweeps::value_question(prime@, n), o)) by {
        assert(call_ensures(*open, (asked,), o));
    }
    let plan = match plan_reading(o.pieces.as_slice()) {
        Some(p) => p,
        None => {
            assert(is_read(*lens, o, None, None, true, before, before));
            assert(is_flow_counted(*open, *lens, prime@, drawn, o, None, None, true, before, before));
            return true;
        },
    };
    let reads = lens(&o, &plan.positions);
    let ghost got = reads;
    let mut done = true;
    if let Some(v) = &reads {
        if v.len() == plan.positions.len() {
            match profile(&plan, v.as_slice(), o.ids.as_slice(), o.answer) {
                Some(f) => {
                    assert(is_profile(f, plan, v@, o));
                    c.record(&f);
                },
                None => {
                    done = false;
                },
            }
        }
    }
    assert(is_read(*lens, o, Some(plan), got, done, before, c@));
    assert(is_flow_counted(*open, *lens, prime@, drawn, o, Some(plan), got, done, before, c@));
    done
}

/// What happened to one drawn expression.
pub struct FlowStep {
    pub opened: Opened,
    pub plan: Option<ReadingPlan>,
    pub reads: Option<Vec<Vec<Reading>>>,
}

/// A family of two-level expressions, with the stream that they are drawn from.
pub struct FlowSource {
    pub ops: Seq<char>,
    pub prime: Seq<char>,
    pub maxv: i64,
    pub seed: u64,
}

/// A run over drawn expressions, with what happened to each and the counts between.
pub open spec fn is_flow_run<F: Fn(String) -> Opened, G: Fn(&Opened, &Vec<usize>) -> Option<Vec<Vec<Reading>>>>(
    open: F,
    lens: G,
    m: FlowSource,
    steps: Seq<FlowStep>,
    counts: Seq<FlowModel>,
) -> bool {
    &&& counts.len() == steps.len() + 1
    &&& counts[0].is_empty()
    &&& forall|i: int|
        0 <= i < steps.len() ==> is_flow_counted(
            open,
            lens,
            m.prime,
            two_level_at(m.ops, m.maxv, m.seed, i as nat),
            (#[trigger] steps[i]).opened,
            steps[i].plan,
            steps[i].reads,
            true,
            counts[i],
            counts[i + 1],
        )
}

/// The counts of `n` drawn expressions.
pub open spec fn is_flow<F: Fn(String) -> Opened, G: Fn(&Opened, &Vec<usize>) -> Option<Vec<Vec<Reading>>>>(
    open: F,
    lens: G,
    m: FlowSource,
    n: nat,
    c: FlowModel,
) -> bool {
    exists|steps: Seq<FlowStep>, counts: Seq<FlowModel>|
        #[trigger] is_flow_run(open, lens, m, steps, counts) && steps.len() == n && counts.last() == c
}

/// A true value of one of the first `n` expressions that can be read leaves the 64-bit range.
pub open spec fn flow_overflows<F: Fn(String) -> Opened, G: Fn(&Opened, &Vec<usize>) -> Option<Vec<Vec<Reading>>>>(
    open: F,
    lens: G,
    m: FlowSource,
    n: nat,
) -> bool {
    exists|i: nat, s: FlowStep, at: FlowModel|
        i < n && #[trigger] is_flow_counted(
            open,
            lens,
            m.prime,
            two_level_at(m.ops, m.maxv, m.seed, i),
            s.opened,
            s.plan,
            s.reads,
            false,
            at,
            at,
        )
}

/// The source of a family.
pub open spec fn flow_source(family: Seq<char>, maxv: i64, seed: u64) -> FlowSource {
    FlowSource {
        ops: two_level_ops(family),
        prime: two_level_prime(family),
        maxv: family_maxv(family, maxv),
        seed,
    }
}

/// Sweeps over `n` two-level expressions of a family: `open` asks the model a question, and `lens` reads its late layers
/// at some positions of it, if it can. There are no counts when a true value leaves the 64-bit range.
pub fn flow_sweep<F: Fn(String) -> Opened, G: Fn(&Opened, &Vec<usize>) -> Option<Vec<Vec<Reading>>>>(
    open: F,
    lens: G,
    family: &str,
    maxv: i64,
    n: usize,
    seed: u64,
) -> (r: Option<FlowCounts>)
    requires
        forall|q: String| call_requires(open, (q,)),
        forall|o: &Opened, v: &Vec<usize>| call_requires(lens, (o, v)),
        0 <= maxv,
    ensures
        match r {
            Some(c) => is_flow(open, lens, flow_source(family@, maxv, seed), n as nat, c@) && c@.adds_up(),
            None => flow_overflows(open, lens, flow_source(family@, maxv, seed), n as nat),
        },
{
    let (ops, prime, limit) = two_level_family(family, maxv);
    let ghost m = flow_source(family@, maxv, seed);
    let mut r: u64 = seed;
    let mut c = FlowCounts::new();
    let ghost mut steps: Seq<FlowStep> = Seq::empty();
    let ghost mut counts: Seq<FlowModel> = seq![c@];
    for k in 0..n
        invariant
            forall|q: String| call_requires(open, (q,)),
            forall|o: &Opened, v: &Vec<usize>| call_requires(lens, (o, v)),
            m == flow_source(family@, maxv, seed),
            0 <= limit,
            ops@.len() > 0,
            ops@ == m.ops,
            prime@ == m.prime,
            limit == m.maxv,
            r == two_level_seed(m.ops, m.maxv, m.seed, k as nat),
            steps.len() == k,
            is_flow_run(open, lens, m, steps, counts),
            counts.last() == c@,
            c@.adds_up(),
            c.total <= k,
    {
        let ghost before = c@;
        let ghost drawn = two_level_at(m.ops, m.maxv, m.seed, k as nat);
        let done = flow_one(&open, &lens, ops.as_slice(), prime, limit, &mut r, &mut c);
        let ghost got = choose|o: Opened, plan: Option<ReadingPlan>, reads: Option<Vec<Vec<Reading>>>|
            #[trigger] is_flow_counted(open, lens, m.prime, drawn, o, plan, reads, done, before, c@);
        let ghost step = FlowStep { opened: got.0, plan: got.1, reads: got.2 };
        if !done {
            assert(is_flow_counted(
                open,
                lens,
                m.prime,
                drawn,
                step.opened,
                step.plan,
                step.reads,
                false,
                before,
                before,
            ));
            return None;
        }
        proof {
            let was_steps = steps;
            let was_counts = counts;
            steps = steps.push(step);
            counts = counts.push(c@);
            assert forall|i: int| 0 <= i < steps.len() implies is_flow_counted(
                open,
                lens,
                m.prime,
                two_level_at(m.ops, m.maxv, m.seed, i as nat),
                (#[trigger] steps[i]).opened,
                steps[i].plan,
                steps[i].reads,
                true,
                counts[i],
                counts[i + 1],
            ) by {
                if i < k {
                    assert(steps[i] == was_steps[i]);
                    assert(counts[i] == was_counts[i] && counts[i + 1] == was_counts[i + 1]);
                }
            }
        }
    }
    assert(is_flow_run(open, lens, m, steps, counts) && steps.len() == n);
    Some(c)
}

} // verus!
