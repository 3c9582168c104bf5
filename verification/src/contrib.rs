//! The program of a composition: for every step the candidate tokens, what each block of circuits contributes to
//! them, and a rest, so that the contributions add up to the scores.
//!
//! Weights come as text: what is written down is what was rounded for it.
use vstd::prelude::*;
use crate::facts::{fact_of, FactKey, FactModel};
use crate::probe_laws::{integer_is_read_back, numeral_is_read_back};
use crate::stitch_laws::{position_behind, position_of_none};
use crate::text::{
    dec, int_text, is_digit, is_white, position, push_i64, push_usize, trim, trim_end, trim_start,
};
use crate::words::{fields_of, has_prefix};

verus! {

/// The name of a block: the circuits of an expert, or those of none.
pub open spec fn block_text(e: nat, experts: nat) -> Seq<char> {
    if e == experts { "residual"@ } else { "e"@ + dec(e) }
}

fn push_block(out: &mut String, e: usize, experts: usize)
    ensures
        final(out)@ == old(out)@ + block_text(e as nat, experts as nat),
{
    if e == experts {
        out.append("residual");
    } else {
        out.append("e");
        push_usize(out, e);
        assert(out@ =~= old(out)@ + block_text(e as nat, experts as nat));
    }
}

/// One step: the labels of the decided token and of the runner-up, the margin between them, the candidates with
/// their labels, for each block what it contributes to each candidate, nothing where it is next to nothing, and
/// the rest for each candidate.
pub struct ContribStep {
    pub predicted: String,
    pub margin: String,
    pub runner: String,
    pub cands: Vec<(i64, String)>,
    pub blocks: Vec<Vec<Option<String>>>,
    pub rest: Vec<String>,
}

impl ContribStep {
    /// There is a block for each expert and one for the circuits of none, with an entry for each candidate.
    pub open spec fn fits(self, experts: nat) -> bool {
        &&& self.blocks@.len() == experts + 1
        &&& self.rest@.len() == self.cands@.len()
        &&& forall|b: int| 0 <= b < self.blocks@.len() ==> (#[trigger] self.blocks@[b])@.len() == self.cands@.len()
    }
}

pub open spec fn candidate_line(k: nat, token: i64, label: Seq<char>) -> Seq<char> {
    "candidate("@ + dec(k) + ","@ + int_text(token as int) + ").   // "@ + label + "\n"@
}

pub open spec fn contrib_line(k: nat, block: Seq<char>, token: i64, weight: Seq<char>) -> Seq<char> {
    "contrib("@ + dec(k) + ",\""@ + block + "\","@ + int_text(token as int) + ","@ + weight + ").\n"@
}

pub open spec fn candidate_lines(k: nat, cands: Seq<(i64, String)>, n: nat) -> Seq<char>
    decreases n,
{
    if n == 0 {
        Seq::empty()
    } else {
        candidate_lines(k, cands, (n - 1) as nat) + candidate_line(k, cands[n - 1].0, cands[n - 1].1@)
    }
}

/// The contributions of a block to the first `n` candidates.
pub open spec fn block_lines(k: nat, block: Seq<char>, cands: Seq<(i64, String)>, ws: Seq<Option<String>>, n: nat) -> Seq<char>
    decreases n,
{
    if n == 0 {
        Seq::empty()
    } else {
        block_lines(k, block, cands, ws, (n - 1) as nat) + (match ws[n - 1] {
            Some(w) => contrib_line(k, block, cands[n - 1].0, w@),
            None => Seq::empty(),
        })
    }
}

/// The contributions of the first `n` blocks.
pub open spec fn blocks_lines(k: nat, s: ContribStep, experts: nat, n: nat) -> Seq<char>
    decreases n,
{
    if n == 0 {
        Seq::empty()
    } else {
        blocks_lines(k, s, experts, (n - 1) as nat) + block_lines(
            k,
            block_text((n - 1) as nat, experts),
            s.cands@,
            s.blocks@[n - 1]@,
            s.cands@.len(),
        )
    }
}

pub open spec fn rest_lines(k: nat, cands: Seq<(i64, String)>, rest: Seq<String>, n: nat) -> Seq<char>
    decreases n,
{
    if n == 0 {
        Seq::empty()
    } else {
        rest_lines(k, cands, rest, (n - 1) as nat) + contrib_line(k, "rest"@, cands[n - 1].0, rest[n - 1]@)
    }
}

/// The text of a step.
pub open spec fn contrib_step_text(k: nat, s: ContribStep, experts: nat) -> Seq<char> {
    "// step "@ + dec(k) + ": decode "@ + s.predicted@ + " (margin "@ + s.margin@ + " vs "@ + s.runner@ + ")\n"@
        + candidate_lines(k, s.cands@, s.cands@.len()) + blocks_lines(k, s, experts, experts + 1) + rest_lines(
        k,
        s.cands@,
        s.rest@,
        s.cands@.len(),
    )
}

fn push_contrib(out: &mut String, k: usize, block: &str, token: i64, weight: &str)
    ensures
        final(out)@ == old(out)@ + contrib_line(k as nat, block@, token, weight@),
{
    out.append("contrib(");
    push_usize(out, k);
    out.append(",\"");
    out.append(block);
    out.append("\",");
    push_i64(out, token);
    out.append(",");
    out.append(weight);
    out.append(").\n");
    assert(out@ =~= old(out)@ + contrib_line(k as nat, block@, token, weight@));
}

fn push_candidates(out: &mut String, k: usize, cands: &[(i64, String)])
    ensures
        final(out)@ == old(out)@ + candidate_lines(k as nat, cands@, cands@.len()),
{
    assert(out@ =~= old(out)@ + candidate_lines(k as nat, cands@, 0));
    for i in 0..cands.len()
        invariant
            out@ == old(out)@ + candidate_lines(k as nat, cands@, i as nat),
    {
        out.append("candidate(");
        push_usize(out, k);
        out.append(",");
        push_i64(out, cands[i].0);
        out.append(").   // ");
        out.append(cands[i].1.as_str());
        out.append("\n");
        assert(out@ =~= old(out)@ + candidate_lines(k as nat, cands@, (i + 1) as nat));
    }
}

fn push_block_lines(out: &mut String, k: usize, block: &str, cands: &[(i64, String)], ws: &[Option<String>])
    requires
        ws@.len() == cands@.len(),
    ensures
        final(out)@ == old(out)@ + block_lines(k as nat, block@, cands@, ws@, cands@.len()),
{
    assert(out@ =~= old(out)@ + block_lines(k as nat, block@, cands@, ws@, 0));
    for i in 0..cands.len()
        invariant
            ws@.len() == cands@.len(),
            out@ == old(out)@ + block_lines(k as nat, block@, cands@, ws@, i as nat),
    {
        let ghost before = block_lines(k as nat, block@, cands@, ws@, i as nat);
        match &ws[i] {
            Some(w) => {
                push_contrib(out, k, block, cands[i].0, w.as_str());
                assert(out@ =~= old(out)@ + (before + contrib_line(k as nat, block@, cands@[i as int].0, w@)));
            },
            None => {
                assert(before + Seq::<char>::empty() =~= before);
            },
        }
    }
}

/// Writes a step.
pub fn push_step(out: &mut String, k: usize, s: &ContribStep, experts: usize)
    requires
        s.fits(experts as nat),
        experts < usize::MAX,
    ensures
        final(out)@ == old(out)@ + contrib_step_text(k as nat, *s, experts as nat),
{
    out.append("// step ");
    push_usize(out, k);
    out.append(": decode ");
    out.append(s.predicted.as_str());
    out.append(" (margin ");
    out.append(s.margin.as_str());
    out.append(" vs ");
    out.append(s.runner.as_str());
    out.append(")\n");
    push_candidates(out, k, s.cands.as_slice());
    let ghost head = out@;
    assert(out@ =~= head + blocks_lines(k as nat, *s, experts as nat, 0));
    for b in 0..experts + 1
        invariant
            s.fits(experts as nat),
            experts < usize::MAX,
            out@ == head + blocks_lines(k as nat, *s, experts as nat, b as nat),
    {
        let ghost before = out@;
        let mut name = String::new();
        push_block(&mut name, b, experts);
        assert(name@ =~= block_text(b as nat, experts as nat));
        assert(s.blocks@[b as int]@.len() == s.cands@.len());
        push_block_lines(out, k, name.as_str(), s.cands.as_slice(), s.blocks[b].as_slice());
        assert(out@ =~= head + blocks_lines(k as nat, *s, experts as nat, (b + 1) as nat));
    }
    let ghost mid = out@;
    assert(out@ =~= mid + rest_lines(k as nat, s.cands@, s.rest@, 0));
    for i in 0..s.cands.len()
        invariant
            s.fits(experts as nat),
            out@ == mid + rest_lines(k as nat, s.cands@, s.rest@, i as nat),
    {
        push_contrib(out, k, "rest", s.cands[i].0, s.rest[i].as_str());
        assert(out@ =~= mid + rest_lines(k as nat, s.cands@, s.rest@, (i + 1) as nat));
    }
    assert(out@ =~= old(out)@ + contrib_step_text(k as nat, *s, experts as nat));
}

pub open spec fn contrib_steps(steps: Seq<ContribStep>, experts: nat, n: nat) -> Seq<char>
    decreases n,
{
    if n == 0 {
        Seq::empty()
    } else {
        contrib_steps(steps, experts, (n - 1) as nat) + contrib_step_text((n - 1) as nat, steps[n - 1], experts)
    }
}

/// A name, filled up with spaces to nine characters.
pub open spec fn padded(name: Seq<char>) -> Seq<char> {
    if name.len() < 9 { name + Seq::new((9 - name.len()) as nat, |i: int| ' ') } else { name }
}

/// The shares of the blocks in the margin: for each its amount and its percentage, the rest last.
pub open spec fn share_line(name: Seq<char>, share: (String, String)) -> Seq<char> {
    "//   "@ + padded(name) + " "@ + share.0@ + "  ("@ + share.1@ + "% of margin)"@
}

pub open spec fn share_lines(shares: Seq<(String, String)>, experts: nat, n: nat) -> Seq<char>
    decreases n,
{
    if n == 0 {
        Seq::empty()
    } else {
        share_lines(shares, experts, (n - 1) as nat) + share_line(block_text((n - 1) as nat, experts), shares[n - 1]) + "\n"@
    }
}

pub open spec fn shares_text(shares: Option<Vec<(String, String)>>, experts: nat) -> Seq<char> {
    match shares {
        Some(v) => "// per-expert share of the winning margin (t vs runner-up), summed over steps — the compactness meter:\n"@
            + share_lines(v@, experts, experts + 1) + share_line("rest"@, v@[(experts + 1) as int])
            + "  ← catchall: forge-tax / non-compact remainder\n"@,
        None => Seq::empty(),
    }
}

/// The opening of the program; `faithful` of the steps decode to the model's own token, which is `percent` of them.
pub open spec fn contrib_header(steps: nat, faithful: nat, percent: Seq<char>) -> Seq<char> {
    "// fieldrun EXPERTS-DL-CONTRIB — composition decode over the partition (NOT a lookup).\n"@
        + "// Each step: per-expert Σ contrib to the candidate tokens + a catchall \"rest\" so Σ == logit;\n"@
        + "// decode(step) = argmax_token Σ contrib = the model's own token (faithful). Run:\n"@
        + "//   fieldrun eval <this>.dl --semiring max   (argmax decode)   |   --semiring log   (softmax dist)\n"@
        + "//\n"@ + "// "@ + dec(steps) + " steps · faithful decode "@ + dec(faithful) + "/"@ + dec(steps) + " ("@ + percent
        + "%)\n"@
}

pub open spec fn contrib_decls() -> Seq<char> {
    "\n.decl candidate(step:number, t:number)\n.decl contrib(step:number, block:symbol, t:number, w:float)\n"@
}

fn push_padded(out: &mut String, name: &str)
    ensures
        final(out)@ == old(out)@ + padded(name@),
{
    let n: usize = crate::text::chars_of(name).len();
    out.append(name);
    let ghost start = out@;
    let mut i: usize = n;
    while i < 9
        invariant
            n == name@.len(),
            n <= i,
            i <= 9 || i == n,
            out@ == start + Seq::new((i - n) as nat, |j: int| ' '),
        decreases 9 - i,
    {
        out.push(' ');
        i += 1;
        assert(out@ =~= start + Seq::new((i - n) as nat, |j: int| ' '));
    }
    assert(out@ =~= old(out)@ + padded(name@));
}

fn push_share(out: &mut String, name: &str, share: &(String, String))
    ensures
        final(out)@ == old(out)@ + share_line(name@, *share),
{
    out.append("//   ");
    push_padded(out, name);
    out.append(" ");
    out.append(share.0.as_str());
    out.append("  (");
    out.append(share.1.as_str());
    out.append("% of margin)");
    assert(out@ =~= old(out)@ + share_line(name@, *share));
}

fn push_shares(out: &mut String, shares: &[(String, String)], experts: usize)
    requires
        shares@.len() == experts + 2,
        experts < usize::MAX - 1,
    ensures
        final(out)@ == old(out)@ + share_lines(shares@, experts as nat, (experts + 1) as nat),
{
    assert(out@ =~= old(out)@ + share_lines(shares@, experts as nat, 0));
    for b in 0..experts + 1
        invariant
            shares@.len() == experts + 2,
            experts < usize::MAX - 1,
            out@ == old(out)@ + share_lines(shares@, experts as nat, b as nat),
    {
        let mut name = String::new();
        push_block(&mut name, b, experts);
        assert(name@ =~= block_text(b as nat, experts as nat));
        push_share(out, name.as_str(), &shares[b]);
        out.append("\n");
        assert(out@ =~= old(out)@ + share_lines(shares@, experts as nat, (b + 1) as nat));
    }
}

/// Writes the program of a composition.
pub fn contrib_program(
    steps: &[ContribStep],
    experts: usize,
    faithful: usize,
    percent: &str,
    shares: &Option<Vec<(String, String)>>,
) -> (out: String)
    requires
        experts < usize::MAX - 1,
        forall|k: int| 0 <= k < steps@.len() ==> (#[trigger] steps@[k]).fits(experts as nat),
        shares matches Some(v) ==> v@.len() == experts + 2,
    ensures
        out@ == contrib_header(steps@.len(), faithful as nat, percent@) + shares_text(*shares, experts as nat)
            + contrib_decls() + contrib_steps(steps@, experts as nat, steps@.len()),
{
    let n: usize = steps.len();
    let mut out = String::new();
    out.append("// fieldrun EXPERTS-DL-CONTRIB — composition decode over the partition (NOT a lookup).\n");
    out.append("// Each step: per-expert Σ contrib to the candidate tokens + a catchall \"rest\" so Σ == logit;\n");
    out.append("// decode(step) = argmax_token Σ contrib = the model's own token (faithful). Run:\n");
    out.append("//   fieldrun eval <this>.dl --semiring max   (argmax decode)   |   --semiring log   (softmax dist)\n");
    out.append("//\n");
    out.append("// ");
    push_usize(&mut out, n);
    out.append(" steps · faithful decode ");
    push_usize(&mut out, faithful);
    out.append("/");
    push_usize(&mut out, n);
    out.append(" (");
    out.append(percent);
    out.append("%)\n");
    assert(out@ =~= contrib_header(n as nat, faithful as nat, percent@));
    let ghost head = out@;
    match shares {
        Some(v) => {
            out.append(
                "// per-expert share of the winning margin (t vs runner-up), summed over steps — the compactness meter:\n",
            );
            push_shares(&mut out, v.as_slice(), experts);
            push_share(&mut out, "rest", &v[experts + 1]);
            out.append("  ← catchall: forge-tax / non-compact remainder\n");
            assert(out@ =~= head + shares_text(*shares, experts as nat));
        },
        None => {
            assert(out@ =~= head + shares_text(*shares, experts as nat));
        },
    }
    out.append("\n.decl candidate(step:number, t:number)\n.decl contrib(step:number, block:symbol, t:number, w:float)\n");
    let ghost mid = out@;
    assert(out@ =~= mid + contrib_steps(steps@, experts as nat, 0));
    for k in 0..n
        invariant
            n == steps@.len(),
            experts < usize::MAX - 1,
            forall|k: int| 0 <= k < steps@.len() ==> (#[trigger] steps@[k]).fits(experts as nat),
            out@ == mid + contrib_steps(steps@, experts as nat, k as nat),
    {
        assert(steps@[k as int].fits(experts as nat));
        push_step(&mut out, k, &steps[k], experts);
        assert(out@ =~= mid + contrib_steps(steps@, experts as nat, (k + 1) as nat));
    }
    assert(out@ =~= contrib_header(n as nat, faithful as nat, percent@) + shares_text(*shares, experts as nat)
        + contrib_decls() + contrib_steps(steps@, experts as nat, n as nat));
    out
}

/// The candidates of a step: the decided token, then its competitors.
pub fn step_candidates(decided: i64, competitors: &[i64]) -> (v: Vec<i64>)
    ensures
        v@ == seq![decided] + competitors@,
{
    let mut v: Vec<i64> = Vec::new();
    v.push(decided);
    for i in 0..competitors.len()
        invariant
            v@ == seq![decided] + competitors@.take(i as int),
    {
        v.push(competitors[i]);
        assert(v@ =~= seq![decided] + competitors@.take(i + 1));
    }
    assert(v@ =~= seq![decided] + competitors@);
    v
}

/// The runner-up: the competitor with the smallest margin, the first of them where several have it. Margins come as
/// keys that order them.
pub fn runner_up(margins: &[i64]) -> (i: usize)
    requires
        margins@.len() > 0,
    ensures
        i < margins@.len(),
        forall|j: int| 0 <= j < margins@.len() ==> margins@[i as int] <= #[trigger] margins@[j],
        forall|j: int| 0 <= j < i ==> margins@[i as int] < #[trigger] margins@[j],
{
    let mut best: usize = 0;
    for i in 1..margins.len()
        invariant
            best < i <= margins@.len(),
            forall|j: int| 0 <= j < i ==> margins@[best as int] <= #[trigger] margins@[j],
            forall|j: int| 0 <= j < best ==> margins@[best as int] < #[trigger] margins@[j],
    {
        if margins[i] < margins[best] {
            best = i;
        }
    }
    best
}

/// A text that can be an argument of a fact: no comma, no bracket, and no white space around it.
pub open spec fn is_argument(s: Seq<char>) -> bool {
    &&& !s.contains(',')
    &&& !s.contains(')')
    &&& trim(s) == s
}

proof fn integers_are_arguments(v: i64)
    ensures
        is_argument(int_text(v as int)),
        int_text(v as int).len() > 0,
{
    let s = int_text(v as int);
    let d = dec(if v < 0 { (-v) as nat } else { v as nat });
    numeral_is_read_back(if v < 0 { (-v) as nat } else { v as nat });
    assert forall|i: int| 0 <= i < s.len() implies s[i] != ',' && s[i] != ')' && !is_white(s[i]) by {
        if v < 0 {
            if i > 0 {
                assert(s[i] == d[i - 1]);
                assert(is_digit(d[i - 1]));
            }
        } else {
            assert(is_digit(d[i]));
        }
    }
    assert(trim_start(s) == s);
    assert(trim_end(s) == s);
}

proof fn quoted_name_is_argument(name: Seq<char>)
    requires
        !name.contains(','),
        !name.contains(')'),
    ensures
        is_argument(seq!['"'] + name + seq!['"']),
{
    let s = seq!['"'] + name + seq!['"'];
    assert forall|i: int| 0 <= i < s.len() implies s[i] != ',' && s[i] != ')' by {
        if 0 < i < s.len() - 1 {
            assert(s[i] == name[i - 1]);
            assert(name.contains(name[i - 1]));
        }
    }
    assert(s.last() == '"');
    assert(trim_start(s) == s);
    assert(trim_end(s) == s);
}

proof fn first_field(a: Seq<char>, rest: Seq<char>)
    requires
        !a.contains(','),
    ensures
        fields_of(a + seq![','] + rest, ',') == seq![a] + fields_of(rest, ','),
{
    let all = a + seq![','] + rest;
    let tail = seq![','] + rest;
    assert(all =~= a + tail);
    position_behind(a, tail, ',');
    assert(position(tail, ',') == Some(0int));
    assert(all.take(a.len() as int) =~= a);
    assert(all.skip((a.len() + 1) as int) =~= rest);
}

/// What is written is what is evaluated: the line of a contribution is read back as the fact it states, with its
/// step, its block, its token and the text of its weight.
#[verifier::spinoff_prover]
#[verifier::rlimit(40)]
pub proof fn contribution_is_read_back(k: nat, block: Seq<char>, token: i64, weight: Seq<char>, line: Seq<char>)
    requires
        k <= i64::MAX,
        !block.contains(','),
        !block.contains(')'),
        !block.contains('"'),
        is_argument(weight),
        line + "\n"@ == contrib_line(k, block, token, weight),
    ensures
        fact_of(line) == Some(
            FactModel {
                key: FactKey { step: k as i64, token: Some(token), indexed: true },
                weight: Some((block, weight)),
            },
        ),
{
    reveal_strlit("\n");
    reveal_strlit("contrib(");
    reveal_strlit("candidate(");
    reveal_strlit(",\"");
    reveal_strlit("\",");
    reveal_strlit(",");
    reveal_strlit(").\n");
    let num = dec(k);
    let quoted = seq!['"'] + block + seq!['"'];
    let tok = int_text(token as int);
    let comma = seq![','];
    let inner = num + comma + (quoted + comma + (tok + comma + weight));
    let full = contrib_line(k, block, token, weight);
    crate::stitch_laws::numerals_are_plain(k);
    integers_are_arguments(token);
    quoted_name_is_argument(block);
    assert(line =~= "contrib("@ + inner + seq![')', '.']) by {
        assert(full =~= "contrib("@ + inner + seq![')', '.', '\n']);
        assert(full.len() == line.len() + 1);
        assert(line =~= full.take(line.len() as int));
    }
    assert(line[0] == 'c' && line[1] == 'o');
    assert(line.last() == '.');
    assert(trim_start(line) == line);
    assert(trim_end(line) == line);
    assert(trim(line) == line);
    assert(!has_prefix(line, "candidate("@)) by {
        if has_prefix(line, "candidate("@) {
            assert(line.take(10)[1] == line[1]);
        }
    }
    assert(line.take(8) =~= "contrib("@);
    let rest = line.skip(8);
    let end = seq![')', '.'];
    assert(rest =~= inner + end);
    assert(!inner.contains(')')) by {
        assert forall|i: int| 0 <= i < inner.len() implies inner[i] != ')' by {
            let (a, b, c) = (num.len() as int, quoted.len() as int, tok.len() as int);
            if i < a {
                assert(inner[i] == num[i]);
                assert(num.contains(num[i]));
            } else if i == a {
            } else if i < a + 1 + b {
                assert(inner[i] == quoted[i - a - 1]);
                assert(quoted.contains(quoted[i - a - 1]));
            } else if i == a + 1 + b {
            } else if i < a + 2 + b + c {
                assert(inner[i] == tok[i - a - 2 - b]);
                assert(tok.contains(tok[i - a - 2 - b]));
            } else if i == a + 2 + b + c {
            } else {
                assert(inner[i] == weight[i - a - 3 - b - c]);
                assert(weight.contains(weight[i - a - 3 - b - c]));
            }
        }
    }
    position_behind(inner, end, ')');
    assert(position(end, ')') == Some(0int));
    assert(rest.take(inner.len() as int) =~= inner);
    first_field(num, quoted + comma + (tok + comma + weight));
    first_field(quoted, tok + comma + weight);
    first_field(tok, weight);
    position_of_none(weight, ',');
    let cut = |f: Seq<char>| trim(f);
    let parts = fields_of(inner, ',');
    assert(parts =~= seq![num, quoted, tok, weight]);
    assert(parts.map_values(cut) =~= seq![num, quoted, tok, weight]);
    let args = crate::facts::arguments(rest);
    assert(args == seq![num, quoted, tok, weight]);
    integer_is_read_back(k as i64);
    assert(int_text(k as int) == num);
    integer_is_read_back(token);
    unquoted_is_read(block);
}

proof fn unquoted_is_read(block: Seq<char>)
    requires
        !block.contains('"'),
    ensures
        crate::facts::unquoted(seq!['"'] + block + seq!['"']) == block,
{
    let q = seq!['"'] + block + seq!['"'];
    let t = block + seq!['"'];
    assert(q.skip(1) =~= t);
    if block.len() == 0 {
        assert(t.skip(1) =~= Seq::empty());
        reveal_with_fuel(crate::facts::quotes_before, 3);
        assert(block =~= Seq::empty());
    } else {
        assert(t[0] == block[0]);
        assert(block.contains(block[0]));
        assert(crate::facts::quotes_before(t) == t);
        assert(t.drop_last() =~= block);
        assert(block.contains(block[block.len() - 1]));
        assert(crate::facts::quotes_behind(block) == block);
    }
}

} // verus!
