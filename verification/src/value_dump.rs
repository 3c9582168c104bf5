//! The value-probe sweep: two-level expressions are drawn and asked for, and what every layer holds at the closing
//! brackets is gathered together with the value that it should hold.
use vstd::prelude::*;
use crate::flow_sweep::{
    flow_source, is_plan_of, is_target, may_open, plan_reading, stays_in_range, truth_of, two_level_at, two_level_seed,
    FlowSource, Opened, ReadingPlan,
};
use crate::measure::two_level_family;
use crate::patching::{laid_out, lay_out, widest, widest_of};
use crate::recursion_dl::{Node, Outcome};
use crate::recursion_probe::{gen_depth2, ops_of, true_value, try_true_eval, two_level_tree};
use crate::value_flow::{answered_right, subexpressions};

verus! {

/// What was found at one closing bracket: the value that belongs there, whose bracket it is (0 for the root, 1 and 2
/// for its operands), whether the whole question was answered right, and all layers one behind the other.
pub struct Sample<T> {
    pub value: i64,
    pub role: u8,
    pub right: bool,
    pub flat: Vec<T>,
}

/// A sample as a value.
pub struct SampleModel<T> {
    pub value: i64,
    pub role: u8,
    pub right: bool,
    pub flat: Seq<T>,
}

impl<T> View for Sample<T> {
    type V = SampleModel<T>;

    open spec fn view(&self) -> SampleModel<T> {
        SampleModel { value: self.value, role: self.role, right: self.right, flat: self.flat@ }
    }
}

/// The samples of a sweep, with the number of layers and the width that the first of them has.
pub struct Dump<T> {
    pub layers: usize,
    pub width: usize,
    pub samples: Vec<Sample<T>>,
}

/// A dump as a value.
#[verifier::ext_equal]
pub struct DumpModel<T> {
    pub layers: nat,
    pub width: nat,
    pub samples: Seq<SampleModel<T>>,
}

impl<T> View for Dump<T> {
    type V = DumpModel<T>;

    open spec fn view(&self) -> DumpModel<T> {
        DumpModel {
            layers: self.layers as nat,
            width: self.width as nat,
            samples: self.samples@.map_values(|s: Sample<T>| s@),
        }
    }
}

/// A dump that holds nothing yet.
pub open spec fn no_samples<T>() -> DumpModel<T> {
    DumpModel { layers: 0, width: 0, samples: Seq::empty() }
}

impl<T> DumpModel<T> {
    /// The size is that of the first position that has layers.
    pub open spec fn sized(self, layers: Seq<Vec<T>>) -> DumpModel<T> {
        if self.layers == 0 {
            DumpModel { layers: layers.len(), width: widest_of(layers, layers.len()), samples: self.samples }
        } else {
            self
        }
    }

    /// One position more. One whose expression has no value adds nothing, and neither does one while no layer has a
    /// width.
    pub open spec fn with(self, node: Node, role: u8, right: bool, layers: Seq<Vec<T>>, zero: T) -> DumpModel<T> {
        match truth_of(node) {
            Some(value) => {
                let d = self.sized(layers);
                if d.width == 0 {
                    d
                } else {
                    let flat = laid_out(layers, d.width, zero, layers.len());
                    DumpModel { samples: d.samples.push(SampleModel { value, role, right, flat }), ..d }
                }
            },
            None => self,
        }
    }

    /// The first `k` operators of an expression more.
    pub open spec fn with_first(self, tree: Node, right: bool, found: Seq<Vec<Vec<T>>>, zero: T, k: nat) -> DumpModel<T>
        decreases k,
    {
        if k == 0 {
            self
        } else {
            self.with_first(tree, right, found, zero, (k - 1) as nat).with(
                *ops_of(&tree)[k - 1],
                (k - 1) as u8,
                right,
                found[k - 1]@,
                zero,
            )
        }
    }
}

impl<T: Copy> Dump<T> {
    pub fn new() -> (d: Dump<T>)
        ensures
            d@ == no_samples::<T>(),
    {
        let d: Dump<T> = Dump { layers: 0, width: 0, samples: Vec::new() };
        assert(d@ =~= no_samples::<T>());
        d
    }

    /// Adds one position; says whether the value of its expression stays in the 64-bit range, without which nothing is
    /// added.
    pub fn record(&mut self, node: &Node, role: u8, right: bool, layers: &[Vec<T>], zero: T) -> (in_range: bool)
        ensures
            in_range == !(true_value(*node) is OutOfRange),
            in_range ==> final(self)@ == old(self)@.with(*node, role, right, layers@, zero),
            !in_range ==> final(self)@ == old(self)@,
    {
        let value: i64 = match try_true_eval(node) {
            Outcome::Value(v) => v,
            Outcome::Undefined => {
                return true;
            },
            Outcome::OutOfRange => {
                return false;
            },
        };
        if self.layers == 0 {
            self.layers = layers.len();
            self.width = widest(layers);
        }
        if self.width > 0 {
            let flat = lay_out(layers, self.width, zero);
            let ghost before = self@;
            let s = Sample { value, role, right, flat };
            let ghost got = s@;
            self.samples.push(s);
            assert(self@.samples =~= before.samples.push(got));
        }
        true
    }
}

/// What came of one question, or of a whole sweep.
#[derive(Clone, Copy, PartialEq, Eq, Structural)]
pub enum Sampling {
    Done,
    /// A true value leaves the 64-bit range.
    OutOfRange,
    /// The model does not show its layers.
    Hidden,
}

/// The layers were shown at each of some positions.
pub open spec fn is_shown<T>(found: Option<Vec<Vec<Vec<T>>>>, positions: nat) -> bool {
    found matches Some(v) && v@.len() == positions
}

/// What looking at a question adds: one without three operators adds nothing.
pub open spec fn is_looked_at<T, G: Fn(&Opened, &Vec<usize>) -> Option<Vec<Vec<Vec<T>>>>>(
    residuals: G,
    zero: T,
    o: Opened,
    plan: Option<ReadingPlan>,
    found: Option<Vec<Vec<Vec<T>>>>,
    s: Sampling,
    before: DumpModel<T>,
    after: DumpModel<T>,
) -> bool {
    match plan {
        Some(p) => {
            let right = o.answer is Some && o.answer == truth_of(p.tree);
            &&& is_target(o.pieces@, Some(p.tree)) && ops_of(&p.tree).len() >= 3 && is_plan_of(p, p.tree)
            &&& if true_value(p.tree) is OutOfRange {
                s == Sampling::OutOfRange
            } else {
                &&& call_ensures(residuals, (&o, &p.closes), found)
                &&& if !is_shown(found, 3) {
                    s == Sampling::Hidden
                } else if stays_in_range(p.tree) {
                    s == Sampling::Done && after == before.with_first(p.tree, right, (found->0)@, zero, 3)
                } else {
                    s == Sampling::OutOfRange
                }
            }
        },
        None => {
            &&& exists|n: Option<Node>| #[trigger] is_target(o.pieces@, n) && (n is None || ops_of(&n->0).len() < 3)
            &&& s == Sampling::Done && after == before
        },
    }
}

/// One expression is drawn, opened and looked at; what could not be drawn adds nothing.
pub open spec fn is_sampled<T, F: Fn(String) -> Opened, G: Fn(&Opened, &Vec<usize>) -> Option<Vec<Vec<Vec<T>>>>>(
    open: F,
    residuals: G,
    zero: T,
    prime: Seq<char>,
    drawn: Option<Node>,
    o: Opened,
    plan: Option<ReadingPlan>,
    found: Option<Vec<Vec<Vec<T>>>>,
    s: Sampling,
    before: DumpModel<T>,
    after: DumpModel<T>,
) -> bool {
    match drawn {
        Some(n) => may_open(open, crate::sweeps::value_question(prime, n), o) && is_looked_at(
            residuals,
            zero,
            o,
            plan,
            found,
            s,
            before,
            after,
        ),
        None => s == Sampling::Done && after == before,
    }
}

/// Adds the three positions of a question.
fn record_three<T: Copy>(d: &mut Dump<T>, tree: &Node, right: bool, found: &[Vec<Vec<T>>], zero: T) -> (in_range: bool)
    requires
        ops_of(tree).len() >= 3,
        found@.len() == 3,
        !(true_value(*tree) is OutOfRange),
    ensures
        in_range == stays_in_range(*tree),
        in_range ==> final(d)@ == old(d)@.with_first(*tree, right, found@, zero, 3),
{
    let ghost before = d@;
    let ops = match subexpressions(tree) {
        Some(ops) => ops,
        None => {
            return false;
        },
    };
    for i in 0..3usize
        invariant
            ops_of(tree).len() >= 3,
            ops@ == ops_of(tree).take(3),
            found@.len() == 3,
            !(true_value(*tree) is OutOfRange),
            d@ == before.with_first(*tree, right, found@, zero, i as nat),
            forall|j: int| 0 <= j < i ==> !(true_value(*#[trigger] ops_of(tree)[j]) is OutOfRange),
    {
        assert(ops@[i as int] == ops_of(tree)[i as int]);
        let in_range = d.record(ops[i], i as u8, right, found[i].as_slice(), zero);
        if !in_range {
            assert(true_value(*ops_of(tree)[i as int]) is OutOfRange);
            return false;
        }
    }
    true
}

/// Draws one expression, opens the question for it and looks at it.
fn sample_one<T: Copy, F: Fn(String) -> Opened, G: Fn(&Opened, &Vec<usize>) -> Option<Vec<Vec<Vec<T>>>>>(
    open: &F,
    residuals: &G,
    zero: T,
    ops: &[char],
    prime: &str,
    maxv: i64,
    r: &mut u64,
    d: &mut Dump<T>,
) -> (s: Sampling)
    requires
        forall|q: String| call_requires(*open, (q,)),
        forall|o: &Opened, v: &Vec<usize>| call_requires(*residuals, (o, v)),
        0 <= maxv,
        ops@.len() > 0,
    ensures
        *final(r) == two_level_tree(ops@, maxv, *old(r), 500).1,
        exists|o: Opened, plan: Option<ReadingPlan>, found: Option<Vec<Vec<Vec<T>>>>|
            #[trigger] is_sampled(
                *open,
                *residuals,
                zero,
                prime@,
                two_level_tree(ops@, maxv, *old(r), 500).0,
                o,
                plan,
                found,
                s,
                old(d)@,
                final(d)@,
            ),
{
    let ghost drawn = two_level_tree(ops@, maxv, *r, 500).0;
    let ghost before = d@;
    let expr = match gen_depth2(ops, maxv, r) {
        Some(e) => e,
        None => {
            let ghost o = arbitrary::<Opened>();
            assert(is_sampled(*open, *residuals, zero, prime@, drawn, o, None, None, Sampling::Done, before, before));
            return Sampling::Done;
        },
    };
    let ghost n = drawn->0;
    let mut q = String::from_str(prime);
    q.append(expr.as_str());
    q.append(" =");
    assert(q@ =~= crate::sweeps::value_question(prime@, n));
    let ghost asked = q;
    let o = open(q);
    assert(may_open(*open, crate::sweeps::value_question(prime@, n), o)) by {
        assert(call_ensures(*open, (asked,), o));
    }
    let plan = match plan_reading(o.pieces.as_slice()) {
        Some(p) => p,
        None => {
            assert(is_looked_at(*residuals, zero, o, None, None, Sampling::Done, before, before));
            assert(is_sampled(*open, *residuals, zero, prime@, drawn, o, None, None, Sampling::Done, before, before));
            return Sampling::Done;
        },
    };
    let truth: Option<i64> = match try_true_eval(&plan.tree) {
        Outcome::Value(v) => Some(v),
        Outcome::Undefined => None,
        Outcome::OutOfRange => {
            let s = Sampling::OutOfRange;
            assert(is_looked_at(*residuals, zero, o, Some(plan), None, s, before, before));
            assert(is_sampled(*open, *residuals, zero, prime@, drawn, o, Some(plan), None, s, before, before));
            return s;
        },
    };
    let right = answered_right(o.answer, truth);
    let found = residuals(&o, &plan.closes);
    let mut s = Sampling::Hidden;
    if let Some(v) = &found {
        if v.len() == 3 {
            s = if record_three(d, &plan.tree, right, v.as_slice(), zero) {
                Sampling::Done
            } else {
                Sampling::OutOfRange
            };
        }
    }
    assert(is_looked_at(*residuals, zero, o, Some(plan), found, s, before, d@));
    assert(is_sampled(*open, *residuals, zero, prime@, drawn, o, Some(plan), found, s, before, d@));
    s
}

/// What happened to one drawn expression.
pub struct SampleStep<T> {
    pub opened: Opened,
    pub plan: Option<ReadingPlan>,
    pub found: Option<Vec<Vec<Vec<T>>>>,
}

/// The expression with the number `i` came to something.
pub open spec fn step_comes_to<T, F: Fn(String) -> Opened, G: Fn(&Opened, &Vec<usize>) -> Option<Vec<Vec<Vec<T>>>>>(
    open: F,
    residuals: G,
    zero: T,
    m: FlowSource,
    i: nat,
    step: SampleStep<T>,
    s: Sampling,
    before: DumpModel<T>,
    after: DumpModel<T>,
) -> bool {
    is_sampled(
        open,
        residuals,
        zero,
        m.prime,
        two_level_at(m.ops, m.maxv, m.seed, i),
        step.opened,
        step.plan,
        step.found,
        s,
        before,
        after,
    )
}

/// A run over drawn expressions, with what happened to each and the dumps between.
pub open spec fn is_dump_run<T, F: Fn(String) -> Opened, G: Fn(&Opened, &Vec<usize>) -> Option<Vec<Vec<Vec<T>>>>>(
    open: F,
    residuals: G,
    zero: T,
    m: FlowSource,
    steps: Seq<SampleStep<T>>,
    dumps: Seq<DumpModel<T>>,
) -> bool {
    &&& dumps.len() == steps.len() + 1
    &&& dumps[0] == no_samples::<T>()
    &&& forall|i: int|
        0 <= i < steps.len() ==> step_comes_to(
            open,
            residuals,
            zero,
            m,
            i as nat,
            #[trigger] steps[i],
            Sampling::Done,
            dumps[i],
            dumps[i + 1],
        )
}

/// The sweep over `n` expressions comes to its end with these samples.
pub open spec fn is_dump<T, F: Fn(String) -> Opened, G: Fn(&Opened, &Vec<usize>) -> Option<Vec<Vec<Vec<T>>>>>(
    open: F,
    residuals: G,
    zero: T,
    m: FlowSource,
    n: nat,
    d: DumpModel<T>,
) -> bool {
    exists|steps: Seq<SampleStep<T>>, dumps: Seq<DumpModel<T>>|
        #[trigger] is_dump_run(open, residuals, zero, m, steps, dumps) && steps.len() == n && dumps.last() == d
}

/// The sweep over `n` expressions stops early: all before some expression were looked at, and that one came to `s`.
pub open spec fn stops_at<T, F: Fn(String) -> Opened, G: Fn(&Opened, &Vec<usize>) -> Option<Vec<Vec<Vec<T>>>>>(
    open: F,
    residuals: G,
    zero: T,
    m: FlowSource,
    n: nat,
    s: Sampling,
) -> bool {
    exists|steps: Seq<SampleStep<T>>, dumps: Seq<DumpModel<T>>, last: SampleStep<T>, after: DumpModel<T>|
        #[trigger] is_dump_run(open, residuals, zero, m, steps, dumps) && steps.len() < n && #[trigger] step_comes_to(
            open,
            residuals,
            zero,
            m,
            steps.len(),
            last,
            s,
            dumps.last(),
            after,
        )
}

/// Sweeps over `n` two-level expressions of a family: `open` asks the model a question, and `residuals` tells what each
/// layer holds at some positions of it, if the model shows that. The sweep stops at a true value out of the 64-bit
/// range, and at a model that shows nothing.
pub fn sample_values<T: Copy, F: Fn(String) -> Opened, G: Fn(&Opened, &Vec<usize>) -> Option<Vec<Vec<Vec<T>>>>>(
    open: F,
    residuals: G,
    zero: T,
    family: &str,
    maxv: i64,
    n: usize,
    seed: u64,
) -> (r: Result<Dump<T>, Sampling>)
    requires
        forall|q: String| call_requires(open, (q,)),
        forall|o: &Opened, v: &Vec<usize>| call_requires(residuals, (o, v)),
        0 <= maxv,
    ensures
        match r {
            Ok(d) => is_dump(open, residuals, zero, flow_source(family@, maxv, seed), n as nat, d@),
            Err(s) => s != Sampling::Done && stops_at(
                open,
                residuals,
                zero,
                flow_source(family@, maxv, seed),
                n as nat,
                s,
            ),
        },
{
    let (ops, prime, limit) = two_level_family(family, maxv);
    let ghost m = flow_source(family@, maxv, seed);
    let mut r: u64 = seed;
    let mut d: Dump<T> = Dump::new();
    let ghost mut steps: Seq<SampleStep<T>> = Seq::empty();
    let ghost mut dumps: Seq<DumpModel<T>> = seq![d@];
    for k in 0..n
        invariant
            forall|q: String| call_requires(open, (q,)),
            forall|o: &Opened, v: &Vec<usize>| call_requires(residuals, (o, v)),
            m == flow_source(family@, maxv, seed),
            0 <= limit,
            ops@.len() > 0,
            ops@ == m.ops,
            prime@ == m.prime,
            limit == m.maxv,
            r == two_level_seed(m.ops, m.maxv, m.seed, k as nat),
            steps.len() == k,
            is_dump_run(open, residuals, zero, m, steps, dumps),
            dumps.last() == d@,
    {
        let ghost before = d@;
        let ghost drawn = two_level_at(m.ops, m.maxv, m.seed, k as nat);
        let s = sample_one(&open, &residuals, zero, ops.as_slice(), prime, limit, &mut r, &mut d);
        let ghost got = choose|o: Opened, plan: Option<ReadingPlan>, found: Option<Vec<Vec<Vec<T>>>>|
            #[trigger] is_sampled(open, residuals, zero, m.prime, drawn, o, plan, found, s, before, d@);
        let ghost step = SampleStep { opened: got.0, plan: got.1, found: got.2 };
        assert(step_comes_to(open, residuals, zero, m, steps.len(), step, s, before, d@));
        match s {
            Sampling::Done => {},
            _ => {
                return Err(s);
            },
        }
        proof {
            let was_steps = steps;
            let was_dumps = dumps;
            steps = steps.push(step);
            dumps = dumps.push(d@);
            assert forall|i: int| 0 <= i < steps.len() implies step_comes_to(
                open,
                residuals,
                zero,
                m,
                i as nat,
                #[trigger] steps[i],
                Sampling::Done,
                dumps[i],
                dumps[i + 1],
            ) by {
                if i < k {
                    assert(steps[i] == was_steps[i]);
                    assert(dumps[i] == was_dumps[i] && dumps[i + 1] == was_dumps[i + 1]);
                }
            }
        }
    }
    assert(is_dump_run(open, residuals, zero, m, steps, dumps) && steps.len() == n);
    Ok(d)
}

} // verus!
