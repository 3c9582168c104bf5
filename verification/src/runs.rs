//! What a run does: the mode that the arguments ask for, the positions that are scored, and what is written of them.
use vstd::prelude::*;
use crate::cli::{flag, flag_from, flag_value, has_flag};
use crate::model::common_prefix;
use crate::text::{chars_of, int_text, parse_usize, push_i64, push_usize, spells, string_of, usize_value};
use crate::words::{ends_with, has_suffix, piece};

verus! {

/// The modes of a run over a bundle.
#[derive(Clone, Copy, PartialEq, Eq, Structural)]
pub enum Mode {
    AblateEval,
    CaptureStore,
    PruneHead,
    Attribute,
    Recursion,
    Probe,
    ProbeMargin,
    ProbeDla,
    ProbeDecompose,
    QueryDecompose,
    VerifyCache,
    ProbeShortcircuit,
    BenchShortcircuit,
    GenShortcircuit,
    ProbeKvQuant,
    ProbeCompute,
    BenchDecode,
    VerifyTernary,
    CorpusDecompose,
    ProbeFacet,
    ProbeTropical,
    ProbeDistortion,
    ProbeResidual,
    ExportWhole,
    ExportLogic,
    ExportTrace,
    ProbeQuant,
    ProbeReconstruct,
    ProbeAblate,
    Chat,
    Serve(u16),
    Explain,
    GateCheck(usize),
    Generate(usize),
    GenPrefix(usize),
    Score,
}

pub open spec fn given(args: Seq<String>, name: Seq<char>) -> bool {
    flag_from(args, name, 0) is Some
}

/// A number that a flag gives.
pub open spec fn number_flag(args: Seq<String>, name: Seq<char>) -> Option<usize> {
    match flag_value(args, name) {
        Some(v) => usize_value(v),
        None => None,
    }
}

/// The port to serve on; two spellings of the flag are taken.
pub open spec fn port_of(args: Seq<String>) -> Option<u16> {
    let v = match flag_value(args, "--serve"@) {
        Some(v) => Some(v),
        None => flag_value(args, "--server"@),
    };
    match v {
        Some(s) => match usize_value(s) {
            Some(n) => if n <= 65535 { Some(n as u16) } else { None },
            None => None,
        },
        None => None,
    }
}

/// Chat is asked for, or nothing else is and there are no tokens to work on.
pub open spec fn wants_chat(args: Seq<String>, no_ids: bool) -> bool {
    given(args, "--chat"@) || (no_ids && port_of(args) is None && flag_value(args, "--generate"@) is None)
}

/// The modes that measure or export, in the order in which they are looked for.
pub open spec fn measuring_mode(args: Seq<String>) -> Option<Mode> {
    if flag_value(args, "--ablate-eval"@) is Some {
        Some(Mode::AblateEval)
    } else if flag_value(args, "--capture-store"@) is Some {
        Some(Mode::CaptureStore)
    } else if given(args, "--prune-head"@) {
        Some(Mode::PruneHead)
    } else if given(args, "--attribute"@) {
        Some(Mode::Attribute)
    } else if given(args, "--recursion-explain"@) {
        Some(Mode::Recursion)
    } else if given(args, "--probe"@) {
        Some(Mode::Probe)
    } else if given(args, "--probe-margin"@) {
        Some(Mode::ProbeMargin)
    } else if given(args, "--probe-dla"@) {
        Some(Mode::ProbeDla)
    } else if given(args, "--probe-decompose"@) {
        Some(Mode::ProbeDecompose)
    } else if given(args, "--query-decompose"@) {
        Some(Mode::QueryDecompose)
    } else if given(args, "--verify-cache"@) {
        Some(Mode::VerifyCache)
    } else if given(args, "--probe-shortcircuit"@) {
        Some(Mode::ProbeShortcircuit)
    } else if given(args, "--bench-shortcircuit"@) {
        Some(Mode::BenchShortcircuit)
    } else if given(args, "--gen-shortcircuit"@) {
        Some(Mode::GenShortcircuit)
    } else if given(args, "--probe-kv-quant"@) {
        Some(Mode::ProbeKvQuant)
    } else if given(args, "--probe-compute"@) {
        Some(Mode::ProbeCompute)
    } else if given(args, "--bench-decode"@) {
        Some(Mode::BenchDecode)
    } else if given(args, "--verify-ternary"@) {
        Some(Mode::VerifyTernary)
    } else if given(args, "--corpus-decompose"@) {
        Some(Mode::CorpusDecompose)
    } else if given(args, "--probe-facet"@) {
        Some(Mode::ProbeFacet)
    } else if given(args, "--probe-tropical"@) {
        Some(Mode::ProbeTropical)
    } else if given(args, "--probe-distortion"@) {
        Some(Mode::ProbeDistortion)
    } else if given(args, "--probe-residual"@) {
        Some(Mode::ProbeResidual)
    } else if given(args, "export"@) && given(args, "--logic-whole"@) {
        Some(Mode::ExportWhole)
    } else if given(args, "export"@) && given(args, "--logic"@) {
        Some(Mode::ExportLogic)
    } else if flag_value(args, "--export-logic"@) is Some {
        Some(Mode::ExportTrace)
    } else if given(args, "--probe-quant"@) {
        Some(Mode::ProbeQuant)
    } else if given(args, "--probe-reconstruct"@) {
        Some(Mode::ProbeReconstruct)
    } else if given(args, "--probe-ablate"@) {
        Some(Mode::ProbeAblate)
    } else {
        None
    }
}

/// The modes that generate; without any of them, positions are scored.
pub open spec fn generating_mode(args: Seq<String>) -> Mode {
    if number_flag(args, "--gate-check"@) is Some {
        Mode::GateCheck(number_flag(args, "--gate-check"@)->0)
    } else if number_flag(args, "--generate"@) is Some {
        Mode::Generate(number_flag(args, "--generate"@)->0)
    } else if number_flag(args, "--gen-prefix"@) is Some {
        Mode::GenPrefix(number_flag(args, "--gen-prefix"@)->0)
    } else {
        Mode::Score
    }
}

/// The mode of a run; `no_ids` says that there are no tokens to work on.
pub open spec fn mode_of(args: Seq<String>, no_ids: bool) -> Mode {
    match measuring_mode(args) {
        Some(m) => m,
        None => if wants_chat(args, no_ids) {
            Mode::Chat
        } else if port_of(args) is Some {
            Mode::Serve(port_of(args)->0)
        } else if given(args, "--explain"@) {
            Mode::Explain
        } else {
            generating_mode(args)
        },
    }
}

fn number(args: &[String], name: &str) -> (r: Option<usize>)
    ensures
        r == number_flag(args@, name@),
{
    match flag(args, name) {
        Some(v) => parse_usize(v),
        None => None,
    }
}

/// The port to serve on, if one is given.
pub fn serve_port(args: &[String]) -> (r: Option<u16>)
    ensures
        r == port_of(args@),
{
    let v = match flag(args, "--serve") {
        Some(v) => Some(v),
        None => flag(args, "--server"),
    };
    match v {
        Some(s) => match parse_usize(s) {
            Some(n) => if n <= 65535 { Some(n as u16) } else { None },
            None => None,
        },
        None => None,
    }
}

fn measuring(args: &[String]) -> (r: Option<Mode>)
    ensures
        r == measuring_mode(args@),
{
    if flag(args, "--ablate-eval").is_some() {
        Some(Mode::AblateEval)
    } else if flag(args, "--capture-store").is_some() {
        Some(Mode::CaptureStore)
    } else if has_flag(args, "--prune-head") {
        Some(Mode::PruneHead)
    } else if has_flag(args, "--attribute") {
        Some(Mode::Attribute)
    } else if has_flag(args, "--recursion-explain") {
        Some(Mode::Recursion)
    } else if has_flag(args, "--probe") {
        Some(Mode::Probe)
    } else if has_flag(args, "--probe-margin") {
        Some(Mode::ProbeMargin)
    } else if has_flag(args, "--probe-dla") {
        Some(Mode::ProbeDla)
    } else if has_flag(args, "--probe-decompose") {
        Some(Mode::ProbeDecompose)
    } else if has_flag(args, "--query-decompose") {
        Some(Mode::QueryDecompose)
    } else if has_flag(args, "--verify-cache") {
        Some(Mode::VerifyCache)
    } else if has_flag(args, "--probe-shortcircuit") {
        Some(Mode::ProbeShortcircuit)
    } else if has_flag(args, "--bench-shortcircuit") {
        Some(Mode::BenchShortcircuit)
    } else if has_flag(args, "--gen-shortcircuit") {
        Some(Mode::GenShortcircuit)
    } else if has_flag(args, "--probe-kv-quant") {
        Some(Mode::ProbeKvQuant)
    } else if has_flag(args, "--probe-compute") {
        Some(Mode::ProbeCompute)
    } else if has_flag(args, "--bench-decode") {
        Some(Mode::BenchDecode)
    } else if has_flag(args, "--verify-ternary") {
        Some(Mode::VerifyTernary)
    } else if has_flag(args, "--corpus-decompose") {
        Some(Mode::CorpusDecompose)
    } else if has_flag(args, "--probe-facet") {
        Some(Mode::ProbeFacet)
    } else if has_flag(args, "--probe-tropical") {
        Some(Mode::ProbeTropical)
    } else if has_flag(args, "--probe-distortion") {
        Some(Mode::ProbeDistortion)
    } else if has_flag(args, "--probe-residual") {
        Some(Mode::ProbeResidual)
    } else if has_flag(args, "export") && has_flag(args, "--logic-whole") {
        Some(Mode::ExportWhole)
    } else if has_flag(args, "export") && has_flag(args, "--logic") {
        Some(Mode::ExportLogic)
    } else if flag(args, "--export-logic").is_some() {
        Some(Mode::ExportTrace)
    } else if has_flag(args, "--probe-quant") {
        Some(Mode::ProbeQuant)
    } else if has_flag(args, "--probe-reconstruct") {
        Some(Mode::ProbeReconstruct)
    } else if has_flag(args, "--probe-ablate") {
        Some(Mode::ProbeAblate)
    } else {
        None
    }
}

/// Tells the mode of a run.
pub fn run_mode(args: &[String], no_ids: bool) -> (m: Mode)
    ensures
        m == mode_of(args@, no_ids),
{
    if let Some(m) = measuring(args) {
        return m;
    }
    let port = serve_port(args);
    if has_flag(args, "--chat") || (no_ids && port.is_none() && flag(args, "--generate").is_none()) {
        return Mode::Chat;
    }
    if let Some(p) = port {
        return Mode::Serve(p);
    }
    if has_flag(args, "--explain") {
        return Mode::Explain;
    }
    if let Some(n) = number(args, "--gate-check") {
        Mode::GateCheck(n)
    } else if let Some(n) = number(args, "--generate") {
        Mode::Generate(n)
    } else if let Some(n) = number(args, "--gen-prefix") {
        Mode::GenPrefix(n)
    } else {
        Mode::Score
    }
}

/// The experiments on recursion.
#[derive(Clone, Copy, PartialEq, Eq, Structural)]
pub enum Experiment {
    Measure,
    ValueProbeDump,
    ValuePatch,
    HoldSweep,
    BindPatch,
    ListMeasure,
    ListAttribute,
    ListDump,
    TreeDump,
    ScopeDump,
    DumpUnembed,
    SourcePrDump,
    NaturalPrDump,
    RingDump,
    Discover,
    InduceSweep,
    InduceOne,
    Datalog,
    Spectrum,
}

pub open spec fn experiment_of(args: Seq<String>) -> Experiment {
    if given(args, "--measure"@) {
        Experiment::Measure
    } else if given(args, "--value-probe-dump"@) {
        Experiment::ValueProbeDump
    } else if given(args, "--value-patch"@) {
        Experiment::ValuePatch
    } else if given(args, "--hold-sweep"@) {
        Experiment::HoldSweep
    } else if given(args, "--bind-patch"@) {
        Experiment::BindPatch
    } else if given(args, "--list-measure"@) {
        Experiment::ListMeasure
    } else if given(args, "--list-attribute"@) {
        Experiment::ListAttribute
    } else if given(args, "--list-dump"@) {
        Experiment::ListDump
    } else if given(args, "--tree-dump"@) {
        Experiment::TreeDump
    } else if given(args, "--scope-dump"@) {
        Experiment::ScopeDump
    } else if given(args, "--dump-unembed"@) {
        Experiment::DumpUnembed
    } else if given(args, "--source-pr-dump"@) {
        Experiment::SourcePrDump
    } else if given(args, "--natural-pr-dump"@) {
        Experiment::NaturalPrDump
    } else if given(args, "--ring-dump"@) {
        Experiment::RingDump
    } else if given(args, "--discover"@) {
        Experiment::Discover
    } else if given(args, "--induce"@) && flag_value(args, "--text"@) is None && flag_value(args, "--ids"@) is None {
        Experiment::InduceSweep
    } else if given(args, "--induce"@) {
        Experiment::InduceOne
    } else if given(args, "--datalog"@) {
        Experiment::Datalog
    } else {
        Experiment::Spectrum
    }
}

/// Tells which experiment on recursion is asked for.
pub fn experiment(args: &[String]) -> (e: Experiment)
    ensures
        e == experiment_of(args@),
{
    if has_flag(args, "--measure") {
        Experiment::Measure
    } else if has_flag(args, "--value-probe-dump") {
        Experiment::ValueProbeDump
    } else if has_flag(args, "--value-patch") {
        Experiment::ValuePatch
    } else if has_flag(args, "--hold-sweep") {
        Experiment::HoldSweep
    } else if has_flag(args, "--bind-patch") {
        Experiment::BindPatch
    } else if has_flag(args, "--list-measure") {
        Experiment::ListMeasure
    } else if has_flag(args, "--list-attribute") {
        Experiment::ListAttribute
    } else if has_flag(args, "--list-dump") {
        Experiment::ListDump
    } else if has_flag(args, "--tree-dump") {
        Experiment::TreeDump
    } else if has_flag(args, "--scope-dump") {
        Experiment::ScopeDump
    } else if has_flag(args, "--dump-unembed") {
        Experiment::DumpUnembed
    } else if has_flag(args, "--source-pr-dump") {
        Experiment::SourcePrDump
    } else if has_flag(args, "--natural-pr-dump") {
        Experiment::NaturalPrDump
    } else if has_flag(args, "--ring-dump") {
        Experiment::RingDump
    } else if has_flag(args, "--discover") {
        Experiment::Discover
    } else if has_flag(args, "--induce") && flag(args, "--text").is_none() && flag(args, "--ids").is_none() {
        Experiment::InduceSweep
    } else if has_flag(args, "--induce") {
        Experiment::InduceOne
    } else if has_flag(args, "--datalog") {
        Experiment::Datalog
    } else {
        Experiment::Spectrum
    }
}

/// How many of the first `n` predictions are the tokens that follow.
pub open spec fn hits(preds: Seq<i64>, ids: Seq<i64>, start: nat, n: nat) -> nat
    decreases n,
{
    if n == 0 {
        0
    } else {
        hits(preds, ids, start, (n - 1) as nat) + if preds[n - 1] == ids[start + n - 1] { 1nat } else { 0 }
    }
}

/// Scores predictions for the positions from `start` on.
pub fn correct_count(preds: &[i64], ids: &[i64], start: usize) -> (n: usize)
    requires
        start + preds@.len() <= ids@.len(),
    ensures
        n == hits(preds@, ids@, start as nat, preds@.len()),
        n <= preds@.len(),
{
    let len: usize = ids.len();
    let mut n: usize = 0;
    for i in 0..preds.len()
        invariant
            start + preds@.len() <= len == ids@.len(),
            n == hits(preds@, ids@, start as nat, i as nat),
            n <= i,
    {
        if preds[i] == ids[start + i] {
            n += 1;
        }
    }
    n
}

/// Predictions, one on each line.
pub open spec fn dump_of(preds: Seq<i64>, n: nat) -> Seq<char>
    decreases n,
{
    if n == 0 {
        Seq::empty()
    } else {
        dump_of(preds, (n - 1) as nat) + int_text(preds[n - 1] as int) + "\n"@
    }
}

pub fn dump_text(preds: &[i64]) -> (s: String)
    ensures
        s@ == dump_of(preds@, preds@.len()),
{
    let mut s = String::new();
    for i in 0..preds.len()
        invariant
            s@ == dump_of(preds@, i as nat),
    {
        push_i64(&mut s, preds[i]);
        s.append("\n");
    }
    s
}

/// Where the prompts of a check start: spread evenly over what is left behind a window.
pub fn prompt_offsets(len: usize, window: usize, prompts: usize) -> (v: Vec<usize>)
    requires
        window <= len,
    ensures
        v@.len() == prompts,
        forall|i: int|
            0 <= i < prompts ==> (#[trigger] v@[i]) == ((len - window) * i) / prompts as int && v@[i] + window <= len,
{
    let span: usize = len - window;
    let mut v: Vec<usize> = Vec::new();
    for i in 0..prompts
        invariant
            window <= len,
            span == len - window,
            v@.len() == i,
            forall|k: int|
                0 <= k < i ==> (#[trigger] v@[k]) == ((len - window) * k) / prompts as int && v@[k] + window <= len,
    {
        proof {
            let (s, k, p) = (span as int, i as int, prompts as int);
            assert(0 <= s * k <= 0xffff_ffff_ffff_ffff * 0xffff_ffff_ffff_ffff) by (nonlinear_arith)
                requires
                    0 <= s <= 0xffff_ffff_ffff_ffff,
                    0 <= k <= 0xffff_ffff_ffff_ffff,
            ;
            assert(0 <= (s * k) / p <= s) by (nonlinear_arith)
                requires
                    0 <= s,
                    0 <= k < p,
            ;
        }
        let at: u128 = (span as u128) * (i as u128) / (prompts as u128);
        v.push(at as usize);
    }
    v
}

/// How far two texts of tokens are the same from the start.
pub fn identical_prefix(a: &[i64], b: &[i64]) -> (l: usize)
    ensures
        l == common_prefix(a@, b@),
{
    let mut l: usize = 0;
    assert(a@.skip(0) =~= a@ && b@.skip(0) =~= b@);
    while l < a.len() && l < b.len() && a[l] == b[l]
        invariant
            l <= a@.len(),
            l <= b@.len(),
            common_prefix(a@, b@) == l + common_prefix(a@.skip(l as int), b@.skip(l as int)),
        decreases a.len() - l,
    {
        assert(a@.skip(l as int).skip(1) =~= a@.skip(l + 1));
        assert(b@.skip(l as int).skip(1) =~= b@.skip(l + 1));
        l += 1;
    }
    l
}

/// How often a tag stands among the first `n`.
pub open spec fn tagged(tags: Seq<String>, tag: Seq<char>, n: nat) -> nat
    decreases n,
{
    if n == 0 {
        0
    } else {
        tagged(tags, tag, (n - 1) as nat) + if tags[n - 1]@ == tag { 1nat } else { 0 }
    }
}

/// Every tag once with how often it stands, the most frequent first.
pub open spec fn is_tag_count(rows: Seq<(String, usize)>, tags: Seq<String>) -> bool {
    &&& forall|i: int, j: int| 0 <= i < j < rows.len() ==> (#[trigger] rows[i]).1 >= (#[trigger] rows[j]).1
    &&& forall|i: int, j: int| 0 <= i < j < rows.len() ==> (#[trigger] rows[i]).0@ != (#[trigger] rows[j]).0@
    &&& forall|i: int|
        0 <= i < rows.len() ==> (#[trigger] rows[i]).1 == tagged(tags, rows[i].0@, tags.len()) && rows[i].1 > 0
    &&& forall|k: int| 0 <= k < tags.len() ==> has_row(rows, (#[trigger] tags[k])@)
}

pub open spec fn has_row(rows: Seq<(String, usize)>, tag: Seq<char>) -> bool {
    exists|i: int| 0 <= i < rows.len() && (#[trigger] rows[i]).0@ == tag
}

fn count_tag(tags: &[String], tag: &str) -> (n: usize)
    ensures
        n == tagged(tags@, tag@, tags@.len()),
{
    let mut n: usize = 0;
    for i in 0..tags.len()
        invariant
            n == tagged(tags@, tag@, i as nat),
            n <= i,
    {
        let t = chars_of(tags[i].as_str());
        if spells(t.as_slice(), tag) {
            n += 1;
        }
    }
    n
}

fn find_row(rows: &[(String, usize)], tag: &str) -> (r: bool)
    ensures
        r == has_row(rows@, tag@),
{
    for i in 0..rows.len()
        invariant
            forall|k: int| 0 <= k < i ==> (#[trigger] rows@[k]).0@ != tag@,
    {
        let t = chars_of(rows[i].0.as_str());
        if spells(t.as_slice(), tag) {
            assert(rows@[i as int].0@ == tag@);
            return true;
        }
    }
    false
}

proof fn present_is_tagged(tags: Seq<String>, k: int, n: nat)
    requires
        0 <= k < n <= tags.len(),
    ensures
        tagged(tags, tags[k]@, n) > 0,
    decreases n,
{
    if k < n - 1 {
        present_is_tagged(tags, k, (n - 1) as nat);
    }
}

/// Counts which idioms made the predictions.
pub fn idiom_counts(tags: &[String]) -> (rows: Vec<(String, usize)>)
    ensures
        is_tag_count(rows@, tags@),
{
    let mut rows: Vec<(String, usize)> = Vec::new();
    for k in 0..tags.len()
        invariant
            forall|i: int, j: int| 0 <= i < j < rows@.len() ==> (#[trigger] rows@[i]).1 >= (#[trigger] rows@[j]).1,
            forall|i: int, j: int| 0 <= i < j < rows@.len() ==> (#[trigger] rows@[i]).0@ != (#[trigger] rows@[j]).0@,
            forall|i: int|
                0 <= i < rows@.len() ==> (#[trigger] rows@[i]).1 == tagged(tags@, rows@[i].0@, tags@.len()) && rows@[i].1
                    > 0,
            forall|i: int| 0 <= i < k ==> has_row(rows@, (#[trigger] tags@[i])@),
    {
        let tag = tags[k].as_str();
        if !find_row(rows.as_slice(), tag) {
            let n: usize = count_tag(tags, tag);
            proof {
                present_is_tagged(tags@, k as int, tags@.len());
            }
            let len: usize = rows.len();
            let mut at: usize = len;
            while at > 0 && rows[at - 1].1 < n
                invariant
                    at <= len == rows@.len(),
                    forall|i: int| at <= i < len ==> (#[trigger] rows@[i]).1 < n,
                decreases at,
            {
                at -= 1;
            }
            let ghost was = rows@;
            let name = String::from_str(tag);
            rows.insert(at, (name, n));
            proof {
                let row = rows@[at as int];
                assert(rows@ =~= was.insert(at as int, row));
                assert(row.0@ == tag@ && row.1 == n);
                assert forall|i: int, j: int| 0 <= i < j < rows@.len() implies (#[trigger] rows@[i]).1 >= (
                #[trigger] rows@[j]).1 && rows@[i].0@ != rows@[j].0@ by {
                    let bi = if i < at { i } else { i - 1 };
                    let bj = if j < at { j } else { j - 1 };
                    if i != at {
                        assert(rows@[i] == was[bi]);
                    }
                    if j != at {
                        assert(rows@[j] == was[bj]);
                    }
                    if i != at && j != at {
                        assert(was[bi].0@ != was[bj].0@);
                        assert(was[bi].1 >= was[bj].1);
                    } else if j == at {
                        assert(was[bi].0@ != tag@);
                        if i < at - 1 {
                            assert(was[i].1 >= was[at - 1].1);
                        }
                    } else {
                        assert(was[bj].0@ != tag@);
                    }
                }
                assert forall|i: int| 0 <= i < rows@.len() implies (#[trigger] rows@[i]).1 == tagged(
                    tags@,
                    rows@[i].0@,
                    tags@.len(),
                ) && rows@[i].1 > 0 by {
                    if i < at {
                        assert(rows@[i] == was[i]);
                    } else if i > at {
                        assert(rows@[i] == was[i - 1]);
                    }
                }
                assert forall|i: int| 0 <= i < k + 1 implies has_row(rows@, (#[trigger] tags@[i])@) by {
                    if i == k {
                        assert(rows@[at as int].0@ == tags@[i]@);
                    } else {
                        assert(has_row(was, tags@[i]@));
                        let m = choose|m: int| 0 <= m < was.len() && (#[trigger] was[m]).0@ == tags@[i]@;
                        assert(rows@[if m < at { m } else { m + 1 }] == was[m]);
                    }
                }
            }
        }
    }
    rows
}

/// The key of the last tokens of a context: the last token, or several of them folded into one number.
pub open spec fn folded(ctx: Seq<i64>, n: nat) -> i64
    decreases n,
{
    if n == 0 {
        0
    } else {
        let s = folded(ctx, (n - 1) as nat);
        let t = ctx[ctx.len() - n] + 1;
        wrapped(wrapped(s * 0x10_0000) + t)
    }
}

/// A number brought into the 64-bit range by wrapping around.
pub open spec fn wrapped(x: int) -> i64 {
    let m = x % 0x1_0000_0000_0000_0000;
    if m < 0x8000_0000_0000_0000 { m as i64 } else { (m - 0x1_0000_0000_0000_0000) as i64 }
}

pub open spec fn signature_of(ctx: Seq<i64>, order: nat) -> i64 {
    if order <= 1 {
        if ctx.len() > 0 { ctx.last() } else { (-1) as i64 }
    } else {
        folded(ctx, if order < ctx.len() { order } else { ctx.len() })
    }
}

fn wrap(x: i128) -> (r: i64)
    ensures
        r == wrapped(x as int),
{
    let m: i128 = x % 0x1_0000_0000_0000_0000;
    let m: i128 = if m < 0 { m + 0x1_0000_0000_0000_0000 } else { m };
    proof {
        assert(m == x as int % 0x1_0000_0000_0000_0000);
    }
    if m < 0x8000_0000_0000_0000 { m as i64 } else { (m - 0x1_0000_0000_0000_0000) as i64 }
}

/// Makes the key under which a decision is looked up.
pub fn signature(ctx: &[i64], order: usize) -> (s: i64)
    requires
        forall|i: int| 0 <= i < ctx@.len() ==> (#[trigger] ctx@[i]) < i64::MAX,
    ensures
        s == signature_of(ctx@, order as nat),
{
    let len: usize = ctx.len();
    if order <= 1 {
        return if len > 0 { ctx[len - 1] } else { -1 };
    }
    let n: usize = if order < len { order } else { len };
    let mut s: i64 = 0;
    for i in 0..n
        invariant
            n <= len == ctx@.len(),
            s == folded(ctx@, i as nat),
    {
        let t: i64 = ctx[len - 1 - i];
        s = wrap(wrap(s as i128 * 0x10_0000) as i128 + t as i128 + 1);
    }
    s
}

/// Whether the compact form of a step is written: always, where its margin is wide, or never.
pub fn compact_form(strategy: &str, wide_margin: bool) -> (r: bool)
    ensures
        r == (strategy@ == "edb"@ || (strategy@ == "margin"@ && wide_margin)),
{
    let s = chars_of(strategy);
    spells(s.as_slice(), "edb") || (spells(s.as_slice(), "margin") && wide_margin)
}

/// A prefix without the ending of a program.
pub open spec fn without_ending(p: Seq<char>) -> Seq<char> {
    if has_suffix(p, ".dl"@) { p.take(p.len() - 3) } else { p }
}

/// The name of the program of a step.
pub open spec fn step_path_text(prefix: Seq<char>, step: nat) -> Seq<char> {
    without_ending(prefix) + "."@ + crate::stitch::three_digits(step) + ".dl"@
}

pub fn step_path(prefix: &str, step: usize) -> (s: String)
    ensures
        s@ == step_path_text(prefix@, step as nat),
{
    let p = chars_of(prefix);
    proof {
        reveal_strlit(".dl");
    }
    let n: usize = if ends_with(p.as_slice(), ".dl") { p.len() - 3 } else { p.len() };
    let stem = piece(p.as_slice(), 0, n);
    assert(stem@ =~= without_ending(prefix@));
    let mut s = string_of(stem.as_slice());
    s.append(".");
    if step < 10 {
        s.append("00");
    } else if step < 100 {
        s.append("0");
    }
    push_usize(&mut s, step);
    s.append(".dl");
    assert(s@ =~= step_path_text(prefix@, step as nat));
    s
}

/// How much of a token stream is the context of an export: a window, or all but the last token.
pub fn export_context_len(len: usize, window: usize) -> (n: usize)
    requires
        len > 0,
    ensures
        n == (if len > window { window as int } else { len - 1 }),
        n < len,
{
    if len > window { window } else { len - 1 }
}

/// A token as it is shown: the marks for a space and for a line end in their places.
pub open spec fn shown(s: Seq<char>) -> Seq<char> {
    s.map_values(|c: char| if c == '\u{120}' { ' ' } else if c == '\u{10a}' { '\n' } else { c })
}

pub fn readable_token(s: &str) -> (r: String)
    ensures
        r@ == shown(s@),
{
    let b = chars_of(s);
    let mut r = String::new();
    for i in 0..b.len()
        invariant
            b@ == s@,
            r@ == shown(s@).take(i as int),
    {
        let c = b[i];
        r.push(if c == '\u{120}' { ' ' } else if c == '\u{10a}' { '\n' } else { c });
        assert(r@ =~= shown(s@).take(i + 1));
    }
    assert(r@ =~= shown(s@));
    r
}

} // verus!
