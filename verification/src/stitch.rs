//! Programs of single decisions merged into one: the facts of each are taken over under the number of its step, so
//! that the sums of different steps never mix.
use vstd::prelude::*;
use crate::text::{chars_of, dec, position, push_usize, spells, string_of, trim_start, white_prefix};
use crate::words::{ends_with, find_char, has_prefix, has_suffix, lines, lines_of, piece, spelled, starts_with};

verus! {

/// An input of a merge: a program, or the prefix of the names of several.
pub enum Input {
    File(String),
    Prefix(String),
}

/// The inputs among the arguments, from `i` on: what is no flag; the place for the output is passed over.
pub open spec fn inputs_from(args: Seq<String>, i: nat) -> Seq<(bool, Seq<char>)>
    decreases args.len() + 1 - i,
{
    if i >= args.len() {
        Seq::empty()
    } else {
        let a = args[i as int]@;
        if a == "-o"@ || a == "--out"@ {
            inputs_from(args, i + 2)
        } else if has_prefix(a, "-"@) {
            inputs_from(args, i + 1)
        } else {
            seq![(has_suffix(a, ".dl"@), a)] + inputs_from(args, i + 1)
        }
    }
}

/// An input by whether it is a program, and its text.
pub open spec fn input_view(x: Input) -> (bool, Seq<char>) {
    match x {
        Input::File(s) => (true, s@),
        Input::Prefix(s) => (false, s@),
    }
}

pub open spec fn inputs_view(v: Seq<Input>) -> Seq<(bool, Seq<char>)> {
    v.map_values(|x: Input| input_view(x))
}

/// The inputs of a merge: the arguments behind the command that are no flags.
pub fn stitch_inputs(args: &[String]) -> (v: Vec<Input>)
    ensures
        inputs_view(v@) == inputs_from(args@, 2),
{
    let n: usize = args.len();
    let mut v: Vec<Input> = Vec::new();
    let mut i: usize = 2;
    assert(inputs_view(v@) + inputs_from(args@, 2) =~= inputs_from(args@, 2));
    while i < n
        invariant
            n == args@.len(),
            inputs_view(v@) + inputs_from(args@, i as nat) == inputs_from(args@, 2),
        decreases n - i,
    {
        let ghost was = inputs_view(v@);
        let a = chars_of(args[i].as_str());
        if spells(a.as_slice(), "-o") || spells(a.as_slice(), "--out") {
            if i + 1 >= n {
                proof {
                    assert(inputs_from(args@, (i + 2) as nat) =~= Seq::empty());
                    assert(was + Seq::<(bool, Seq<char>)>::empty() =~= was);
                }
                return v;
            }
            i += 2;
        } else if starts_with(a.as_slice(), "-") {
            i += 1;
        } else {
            let name = string_of(a.as_slice());
            let x = if ends_with(a.as_slice(), ".dl") { Input::File(name) } else { Input::Prefix(name) };
            let ghost w = input_view(x);
            v.push(x);
            proof {
                let rest = inputs_from(args@, (i + 1) as nat);
                assert(inputs_view(v@) =~= was.push(w));
                assert(was + (seq![w] + rest) =~= inputs_view(v@) + rest);
            }
            i += 1;
        }
    }
    assert(inputs_view(v@) + Seq::<(bool, Seq<char>)>::empty() =~= inputs_view(v@));
    v
}

/// Whether a file belongs to a prefix: its name starts with it, and it is a program.
pub fn belongs_to(name: &str, base: &str) -> (r: bool)
    ensures
        r == (has_prefix(name@, base@) && has_suffix(name@, ".dl"@)),
{
    let s = chars_of(name);
    starts_with(s.as_slice(), base) && ends_with(s.as_slice(), ".dl")
}

/// A fact of a program: its head, what stands between the brackets, and what follows them.
pub struct FactParts {
    pub head: Vec<char>,
    pub inner: Vec<char>,
    pub after: Vec<char>,
}

/// The parts of a fact, if a line is one; only candidates and contributions are facts.
pub open spec fn fact_parts(line: Seq<char>) -> Option<(Seq<char>, Seq<char>, Seq<char>)> {
    let t = trim_start(line);
    match position(t, '(') {
        Some(open) => {
            let head = t.take(open);
            if head != "candidate"@ && head != "contrib"@ {
                None
            } else {
                match position(t, ')') {
                    Some(close) => Some((head, t.subrange(open + 1, close), t.skip(close + 1))),
                    None => None,
                }
            }
        },
        None => None,
    }
}

/// The head of a fact has no bracket in it.
proof fn heads_have_no_bracket(head: Seq<char>)
    requires
        head == "candidate"@ || head == "contrib"@,
    ensures
        !head.contains(')'),
{
    reveal_strlit("candidate");
    reveal_strlit("contrib");
    assert forall|i: int| 0 <= i < head.len() implies head[i] != ')' by {}
}

/// Takes a fact apart.
pub fn split_fact(line: &[char]) -> (r: Option<FactParts>)
    ensures
        match r {
            Some(f) => fact_parts(line@) == Some((f.head@, f.inner@, f.after@)),
            None => fact_parts(line@) is None,
        },
{
    let from: usize = white_prefix(line);
    let t = vstd::slice::slice_subrange(line, from, line.len());
    assert(t@ =~= trim_start(line@));
    let open: usize = match find_char(t, '(') {
        Some(i) => i,
        None => {
            return None;
        },
    };
    let head = piece(t, 0, open);
    assert(head@ =~= t@.take(open as int));
    if !spells(head.as_slice(), "candidate") && !spells(head.as_slice(), "contrib") {
        return None;
    }
    let close: usize = match find_char(t, ')') {
        Some(i) => i,
        None => {
            return None;
        },
    };
    proof {
        heads_have_no_bracket(head@);
        if close < open {
            assert(head@[close as int] == ')');
        }
        assert(close != open);
    }
    let inner = piece(t, open + 1, close);
    let after = piece(t, close + 1, t.len());
    assert(after@ =~= t@.skip(close + 1));
    Some(FactParts { head, inner, after })
}

/// A fact under the number of its step.
pub open spec fn indexed_fact(k: nat, head: Seq<char>, inner: Seq<char>, after: Seq<char>) -> Seq<char> {
    head + "("@ + dec(k) + ", "@ + inner + ")"@ + after + "\n"@
}

/// The facts among the first `n` lines, under the number of their step; and how many there are.
pub open spec fn indexed_facts(k: nat, ls: Seq<Seq<char>>, n: nat) -> (Seq<char>, nat)
    decreases n,
{
    if n == 0 {
        (Seq::empty(), 0)
    } else {
        let (text, count) = indexed_facts(k, ls, (n - 1) as nat);
        match fact_parts(ls[n - 1]) {
            Some((head, inner, after)) => (text + indexed_fact(k, head, inner, after), count + 1),
            None => (text, count),
        }
    }
}

/// The remark on what was predicted: the first line, from `i` on, that is one, without the mark of a remark.
pub open spec fn prediction_from(ls: Seq<Seq<char>>, i: nat) -> Seq<char>
    decreases ls.len() - i,
{
    if i >= ls.len() {
        Seq::empty()
    } else if has_prefix(trim_start(ls[i as int]), "// model predicts:"@) {
        trim_start(ls[i as int]).skip(3)
    } else {
        prediction_from(ls, i + 1)
    }
}

/// A number of at least three digits.
pub open spec fn three_digits(k: nat) -> Seq<char> {
    if k < 10 {
        "00"@ + dec(k)
    } else if k < 100 {
        "0"@ + dec(k)
    } else {
        dec(k)
    }
}

/// The line that opens a step.
pub open spec fn step_header(k: nat, name: Seq<char>, prediction: Seq<char>) -> Seq<char> {
    "\n// ---- step "@ + three_digits(k) + "  ("@ + name + ")  "@ + prediction + " ----\n"@
}

/// One step of a merged program.
pub open spec fn step_text(k: nat, name: Seq<char>, program: Seq<char>) -> Seq<char> {
    let ls = lines_of(program);
    step_header(k, name, prediction_from(ls, 0)) + indexed_facts(k, ls, ls.len()).0
}

/// The number of facts of a program.
pub open spec fn fact_count(program: Seq<char>) -> nat {
    indexed_facts(0, lines_of(program), lines_of(program).len()).1
}

/// The number of facts does not depend on the number of the step.
proof fn count_is_the_same(k: nat, j: nat, ls: Seq<Seq<char>>, n: nat)
    ensures
        indexed_facts(k, ls, n).1 == indexed_facts(j, ls, n).1,
        indexed_facts(k, ls, n).1 <= n,
    decreases n,
{
    if n > 0 {
        count_is_the_same(k, j, ls, (n - 1) as nat);
    }
}

fn push_chars(out: &mut String, s: &[char])
    ensures
        final(out)@ == old(out)@ + s@,
{
    for i in 0..s.len()
        invariant
            out@ == old(out)@ + s@.take(i as int),
    {
        out.push(s[i]);
        assert(out@ =~= old(out)@ + s@.take(i + 1));
    }
    assert(s@.take(s.len() as int) =~= s@);
}

fn prediction(ls: &[Vec<char>]) -> (v: Vec<char>)
    ensures
        v@ == prediction_from(spelled(ls@), 0),
{
    let n: usize = ls.len();
    let mut i: usize = 0;
    while i < n
        invariant
            n == ls@.len(),
            i <= n,
            prediction_from(spelled(ls@), 0) == prediction_from(spelled(ls@), i as nat),
        decreases n - i,
    {
        let line = ls[i].as_slice();
        assert(spelled(ls@)[i as int] == line@);
        let from: usize = white_prefix(line);
        let t = vstd::slice::slice_subrange(line, from, line.len());
        assert(t@ =~= trim_start(line@));
        if starts_with(t, "// model predicts:") {
            proof {
                reveal_strlit("// model predicts:");
            }
            let v = piece(t, 3, t.len());
            assert(v@ =~= t@.skip(3));
            return v;
        }
        i += 1;
    }
    Vec::new()
}

fn push_three_digits(out: &mut String, k: usize)
    ensures
        final(out)@ == old(out)@ + three_digits(k as nat),
{
    if k < 10 {
        out.append("00");
    } else if k < 100 {
        out.append("0");
    }
    push_usize(out, k);
    assert(out@ =~= old(out)@ + three_digits(k as nat));
}

/// Writes one step of a merged program; gives the number of its facts.
pub fn stitch_step(out: &mut String, k: usize, name: &str, program: &str) -> (facts: usize)
    ensures
        final(out)@ == old(out)@ + step_text(k as nat, name@, program@),
        facts == fact_count(program@),
{
    let ls = lines(program);
    let n: usize = ls.len();
    let ghost texts = spelled(ls@);
    let pred = prediction(ls.as_slice());
    out.append("\n// ---- step ");
    push_three_digits(out, k);
    out.append("  (");
    out.append(name);
    out.append(")  ");
    push_chars(out, pred.as_slice());
    out.append(" ----\n");
    let ghost head = step_header(k as nat, name@, pred@);
    assert(out@ =~= old(out)@ + head);
    let mut facts: usize = 0;
    assert(out@ =~= old(out)@ + head + indexed_facts(k as nat, texts, 0).0);
    for i in 0..n
        invariant
            n == ls@.len(),
            texts == spelled(ls@),
            out@ == old(out)@ + head + indexed_facts(k as nat, texts, i as nat).0,
            facts == indexed_facts(k as nat, texts, i as nat).1,
            facts <= i,
    {
        let ghost before = indexed_facts(k as nat, texts, i as nat).0;
        assert(texts[i as int] == ls@[i as int]@);
        if let Some(f) = split_fact(ls[i].as_slice()) {
            push_chars(out, f.head.as_slice());
            out.append("(");
            push_usize(out, k);
            out.append(", ");
            push_chars(out, f.inner.as_slice());
            out.append(")");
            push_chars(out, f.after.as_slice());
            out.append("\n");
            facts += 1;
            assert(out@ =~= old(out)@ + head + (before + indexed_fact(k as nat, f.head@, f.inner@, f.after@)));
        }
    }
    proof {
        count_is_the_same(k as nat, 0, texts, n as nat);
        assert(out@ =~= old(out)@ + step_text(k as nat, name@, program@));
    }
    facts
}

/// The steps of a merged program, for the first `n` inputs.
pub open spec fn steps_text(names: Seq<String>, programs: Seq<String>, n: nat) -> Seq<char>
    decreases n,
{
    if n == 0 {
        Seq::empty()
    } else {
        steps_text(names, programs, (n - 1) as nat) + step_text((n - 1) as nat, names[n - 1]@, programs[n - 1]@)
    }
}

/// How many of the first `n` inputs have facts.
pub open spec fn step_count(programs: Seq<String>, n: nat) -> nat
    decreases n,
{
    if n == 0 {
        0
    } else {
        step_count(programs, (n - 1) as nat) + if fact_count(programs[n - 1]@) > 0 { 1nat } else { 0 }
    }
}

/// The opening of a merged program.
pub open spec fn stitch_header(steps: nat) -> Seq<char> {
    "// ============================================================\n"@
        + "// fieldrun logic STITCH — N per-step decode programs merged into ONE step-indexed semiring-Datalog program.\n"@
        + "// Each input was ONE next-token decision; step S here indexes the decode trajectory. decide(S,T) = token at step S.\n"@
        + "// A single runnable file for the WHOLE query's decode — but a TRACE of THIS query, NOT the context-free\n"@
        + "// whole-model program (it does not answer new queries; that is LOGIC_EXPORT LO3a, open).\n"@
        + "// "@ + dec(steps) + " steps. Run: souffle <this>.dl -D -   |   fieldrun eval <this>.dl --semiring max|log\n"@
        + "// ============================================================\n\n"@
        + ".decl candidate(step:number, t:number)\n"@
        + ".decl contrib(step:number, block:symbol, t:number, w:float)\n"@
        + ".decl logit(step:number, t:number, s:float)\n"@
        + ".decl decide(step:number, t:number)\n\n"@
        + "logit(Step, T, S) :- candidate(Step, T), S = sum W : { contrib(Step, _, T, W) }.   // ⊗ over blocks, scoped per step\n"@
        + "decide(Step, T)   :- logit(Step, T, S), S = max S2 : { logit(Step, _, S2) }.        // ⊕ = max within each step\n"@
        + ".output decide\n"@
}

fn push_stitch_header(out: &mut String, steps: usize)
    ensures
        final(out)@ == old(out)@ + stitch_header(steps as nat),
{
    out.append("// ============================================================\n");
    out.append("// fieldrun logic STITCH — N per-step decode programs merged into ONE step-indexed semiring-Datalog program.\n");
    out.append("// Each input was ONE next-token decision; step S here indexes the decode trajectory. decide(S,T) = token at step S.\n");
    out.append("// A single runnable file for the WHOLE query's decode — but a TRACE of THIS query, NOT the context-free\n");
    out.append("// whole-model program (it does not answer new queries; that is LOGIC_EXPORT LO3a, open).\n");
    out.append("// ");
    push_usize(out, steps);
    out.append(" steps. Run: souffle <this>.dl -D -   |   fieldrun eval <this>.dl --semiring max|log\n");
    out.append("// ============================================================\n\n");
    out.append(".decl candidate(step:number, t:number)\n");
    out.append(".decl contrib(step:number, block:symbol, t:number, w:float)\n");
    out.append(".decl logit(step:number, t:number, s:float)\n");
    out.append(".decl decide(step:number, t:number)\n\n");
    out.append("logit(Step, T, S) :- candidate(Step, T), S = sum W : { contrib(Step, _, T, W) }.   // ⊗ over blocks, scoped per step\n");
    out.append("decide(Step, T)   :- logit(Step, T, S), S = max S2 : { logit(Step, _, S2) }.        // ⊕ = max within each step\n");
    out.append(".output decide\n");
    assert(out@ =~= old(out)@ + stitch_header(steps as nat));
}

/// A merged program, and for each input the number of facts it gave.
pub struct Stitched {
    pub program: String,
    pub facts: Vec<usize>,
    pub steps: usize,
}

/// Merges programs of single decisions into one program of a whole trajectory, in the order of the inputs.
pub fn stitch(names: &[String], programs: &[String]) -> (r: Stitched)
    requires
        names@.len() == programs@.len(),
    ensures
        r.steps == step_count(programs@, programs@.len()),
        r.facts@.len() == programs@.len(),
        forall|i: int| 0 <= i < programs@.len() ==> #[trigger] r.facts@[i] == fact_count(programs@[i]@),
        r.program@ == stitch_header(r.steps as nat) + steps_text(names@, programs@, programs@.len()),
{
    let n: usize = programs.len();
    let mut body = String::new();
    let mut facts: Vec<usize> = Vec::new();
    let mut steps: usize = 0;
    for k in 0..n
        invariant
            n == programs@.len() == names@.len(),
            body@ == steps_text(names@, programs@, k as nat),
            steps == step_count(programs@, k as nat),
            steps <= k,
            facts@.len() == k,
            forall|i: int| 0 <= i < k ==> #[trigger] facts@[i] == fact_count(programs@[i]@),
    {
        let count: usize = stitch_step(&mut body, k, names[k].as_str(), programs[k].as_str());
        facts.push(count);
        if count > 0 {
            steps += 1;
        }
    }
    let mut program = String::new();
    push_stitch_header(&mut program, steps);
    program.append(body.as_str());
    assert(program@ =~= stitch_header(steps as nat) + steps_text(names@, programs@, n as nat));
    Stitched { program, facts, steps }
}

} // verus!
