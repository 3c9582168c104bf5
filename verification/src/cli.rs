//! The command line: flags, the plan of a conversion, and where bundles lie.
use vstd::prelude::*;
use crate::text::{chars_of, parse_usize, position, string_of, usize_value, u64_value, parse_u64};
use crate::words::{find_char, piece};

verus! {

/// The first argument from `i` on that spells `name`.
pub open spec fn flag_from(args: Seq<String>, name: Seq<char>, i: nat) -> Option<nat>
    decreases args.len() - i,
{
    if i >= args.len() {
        None
    } else if args[i as int]@ == name {
        Some(i)
    } else {
        flag_from(args, name, i + 1)
    }
}

/// The value of a flag: the argument behind its first occurrence.
pub open spec fn flag_value(args: Seq<String>, name: Seq<char>) -> Option<Seq<char>> {
    match flag_from(args, name, 0) {
        Some(i) => if i + 1 < args.len() { Some(args[(i + 1) as int]@) } else { None },
        None => None,
    }
}

fn same_text(a: &str, b: &str) -> (r: bool)
    ensures
        r == (a@ == b@),
{
    let v = chars_of(a);
    crate::text::spells(v.as_slice(), b)
}

fn find_flag(args: &[String], name: &str) -> (r: Option<usize>)
    ensures
        match r {
            Some(i) => flag_from(args@, name@, 0) == Some(i as nat) && i < args@.len(),
            None => flag_from(args@, name@, 0) is None,
        },
{
    let mut i: usize = 0;
    while i < args.len()
        invariant
            i <= args@.len(),
            flag_from(args@, name@, 0) == flag_from(args@, name@, i as nat),
        decreases args.len() - i,
    {
        if same_text(args[i].as_str(), name) {
            return Some(i);
        }
        i += 1;
    }
    None
}

/// The value of a flag, if it is given and has one.
pub fn flag<'a>(args: &'a [String], name: &str) -> (r: Option<&'a str>)
    ensures
        match r {
            Some(v) => flag_value(args@, name@) == Some(v@),
            None => flag_value(args@, name@) is None,
        },
{
    let n: usize = args.len();
    match find_flag(args, name) {
        Some(i) => if i + 1 < n { Some(args[i + 1].as_str()) } else { None },
        None => None,
    }
}

/// Whether a flag is given.
pub fn has_flag(args: &[String], name: &str) -> (r: bool)
    ensures
        r == (flag_from(args@, name@, 0) is Some),
{
    find_flag(args, name).is_some()
}

/// A number given by a flag, or a default where it is missing or is no number.
pub fn usize_flag(args: &[String], name: &str, default: usize) -> (n: usize)
    ensures
        n == (match flag_value(args@, name@) {
            Some(v) => match usize_value(v) {
                Some(k) => k,
                None => default,
            },
            None => default,
        }),
{
    match flag(args, name) {
        Some(v) => match parse_usize(v) {
            Some(k) => k,
            None => default,
        },
        None => default,
    }
}

/// A 64-bit number given by a flag, or a default where it is missing or is no number.
pub fn u64_flag(args: &[String], name: &str, default: u64) -> (n: u64)
    ensures
        n == (match flag_value(args@, name@) {
            Some(v) => match u64_value(v) {
                Some(k) => k,
                None => default,
            },
            None => default,
        }),
{
    match flag(args, name) {
        Some(v) => match parse_u64(v) {
            Some(k) => k,
            None => default,
        },
        None => default,
    }
}

/// Help is asked for, or nothing is.
pub fn wants_help(args: &[String]) -> (r: bool)
    ensures
        r == (args@.len() == 1 || flag_from(args@, "--help"@, 0) is Some || flag_from(args@, "-h"@, 0) is Some),
{
    args.len() == 1 || has_flag(args, "--help") || has_flag(args, "-h")
}

/// What the first argument asks for.
#[derive(Clone, Copy, PartialEq, Eq, Structural)]
pub enum Command {
    Convert,
    Eval,
    Stitch,
    Run,
}

pub open spec fn command_of(args: Seq<String>) -> Command {
    if args.len() < 2 {
        Command::Run
    } else if args[1]@ == "convert"@ || args[1]@ == "--convert"@ {
        Command::Convert
    } else if args[1]@ == "eval"@ {
        Command::Eval
    } else if args[1]@ == "stitch"@ {
        Command::Stitch
    } else {
        Command::Run
    }
}

pub fn subcommand(args: &[String]) -> (c: Command)
    ensures
        c == command_of(args@),
{
    if args.len() < 2 {
        return Command::Run;
    }
    let a = args[1].as_str();
    if same_text(a, "convert") || same_text(a, "--convert") {
        Command::Convert
    } else if same_text(a, "eval") {
        Command::Eval
    } else if same_text(a, "stitch") {
        Command::Stitch
    } else {
        Command::Run
    }
}

/// What stands behind the last slash.
pub open spec fn last_segment(s: Seq<char>) -> Seq<char>
    decreases s.len(),
{
    match position(s, '/') {
        Some(i) => if 0 <= i < s.len() { last_segment(s.skip(i + 1)) } else { s },
        None => s,
    }
}

/// The name of a model: the last segment of its path, without a revision.
pub open spec fn model_name(raw: Seq<char>) -> Seq<char> {
    let s = last_segment(raw);
    match position(s, '@') {
        Some(i) => s.take(i),
        None => s,
    }
}

pub fn base_name(raw: &str) -> (s: String)
    ensures
        s@ == model_name(raw@),
{
    let b = chars_of(raw);
    let n: usize = b.len();
    let mut at: usize = 0;
    assert(b@.skip(0) =~= b@);
    let mut more = true;
    while more
        invariant
            n == b@.len(),
            at <= n,
            last_segment(b@) == last_segment(b@.skip(at as int)),
            !more ==> position(b@.skip(at as int), '/') is None,
        decreases n - at, if more { 1int } else { 0 },
    {
        let tail = vstd::slice::slice_subrange(b.as_slice(), at, n);
        assert(tail@ =~= b@.skip(at as int));
        match find_char(tail, '/') {
            Some(i) => {
                assert(b@.skip(at as int).skip(i + 1) =~= b@.skip(at + i + 1));
                at = at + i + 1;
            },
            None => {
                more = false;
            },
        }
    }
    let tail = vstd::slice::slice_subrange(b.as_slice(), at, n);
    assert(tail@ =~= b@.skip(at as int));
    match find_char(tail, '@') {
        Some(i) => {
            let v = piece(tail, 0, i);
            assert(v@ =~= tail@.take(i as int));
            string_of(v.as_slice())
        },
        None => string_of(tail),
    }
}

/// Where a bundle lies under a directory: in one of its own name.
pub open spec fn stem_text(root: Seq<char>, name: Seq<char>) -> Seq<char> {
    root + "/"@ + name + "/"@ + name
}

pub fn bundle_stem(root: &str, name: &str) -> (s: String)
    ensures
        s@ == stem_text(root@, name@),
{
    let mut s = String::from_str(root);
    s.append("/");
    s.append(name);
    s.append("/");
    s.append(name);
    s
}

/// The places where a bundle is looked for, in order: the path as it was given, then under the cache and under a
/// directory `bundles`, first by what was given and then by the name of the model.
pub open spec fn stems_of(raw: Seq<char>, cache: Seq<char>) -> Seq<Seq<char>> {
    let name = model_name(raw);
    seq![
        raw,
        stem_text(cache, raw),
        stem_text("bundles"@, raw),
        stem_text(cache, name),
        stem_text("bundles"@, name),
    ]
}

/// What strings spell.
pub open spec fn texts(v: Seq<String>) -> Seq<Seq<char>> {
    v.map_values(|s: String| s@)
}

pub fn stems(raw: &str, cache: &str) -> (v: Vec<String>)
    ensures
        texts(v@) == stems_of(raw@, cache@),
{
    let name = base_name(raw);
    let mut v: Vec<String> = Vec::new();
    v.push(String::from_str(raw));
    v.push(bundle_stem(cache, raw));
    v.push(bundle_stem("bundles", raw));
    v.push(bundle_stem(cache, name.as_str()));
    v.push(bundle_stem("bundles", name.as_str()));
    assert(texts(v@) =~= stems_of(raw@, cache@));
    v
}

/// The first of the places, from `i` on, where a bundle is present.
pub open spec fn first_present(present: Seq<bool>, i: nat) -> Option<nat>
    decreases present.len() - i,
{
    if i >= present.len() {
        None
    } else if present[i as int] {
        Some(i)
    } else {
        first_present(present, i + 1)
    }
}

/// The stem of a bundle: the first place where one is present, or what was given where none is.
pub fn resolve_bundle(raw: &str, cache: &str, present: &[bool]) -> (s: String)
    requires
        present@.len() == 5,
    ensures
        s@ == (match first_present(present@, 0) {
            Some(i) => stems_of(raw@, cache@)[i as int],
            None => raw@,
        }),
{
    let v = stems(raw, cache);
    assert(v@.len() == 5) by {
        assert(texts(v@).len() == stems_of(raw@, cache@).len());
    }
    let mut i: usize = 0;
    while i < present.len()
        invariant
            i <= present@.len(),
            present@.len() == 5,
            v@.len() == 5,
            texts(v@) == stems_of(raw@, cache@),
            first_present(present@, 0) == first_present(present@, i as nat),
        decreases present.len() - i,
    {
        if present[i] {
            assert(texts(v@)[i as int] == v@[i as int]@);
            return String::from_str(v[i].as_str());
        }
        i += 1;
    }
    String::from_str(raw)
}

/// The directory of bundles: the one that was set, unless it is empty, else one under the home directory.
pub open spec fn bundles_text(set: Option<Seq<char>>, home: Option<Seq<char>>) -> Seq<char> {
    match set {
        Some(d) => if d.len() > 0 {
            d
        } else {
            home_text(home) + "/.cache/fieldrun/bundles"@
        },
        None => home_text(home) + "/.cache/fieldrun/bundles"@,
    }
}

pub open spec fn home_text(home: Option<Seq<char>>) -> Seq<char> {
    match home {
        Some(h) => h,
        None => "."@,
    }
}

pub open spec fn text_of(s: Option<&str>) -> Option<Seq<char>> {
    match s {
        Some(t) => Some(t@),
        None => None,
    }
}

pub fn bundles_dir(set: Option<&str>, home: Option<&str>) -> (s: String)
    ensures
        s@ == bundles_text(text_of(set), text_of(home)),
{
    if let Some(d) = set {
        if chars_of(d).len() > 0 {
            return String::from_str(d);
        }
    }
    let mut s = match home {
        Some(h) => String::from_str(h),
        None => String::from_str("."),
    };
    s.append("/.cache/fieldrun/bundles");
    s
}

/// What is to be converted, and how.
pub struct ConvertPlan {
    pub model: String,
    pub arch: String,
    pub dtype: String,
    pub embed_dtype: String,
    pub out: String,
}

/// Why a conversion cannot be done; the text is the value that is not known.
pub enum ConvertError {
    NoModel,
    UnknownArch(String),
    UnknownDtype(String),
    UnknownEmbedDtype(String),
}

/// The architectures that can be converted.
pub open spec fn is_arch(a: Seq<char>) -> bool {
    a == "gpt2"@ || a == "neox"@ || a == "rope"@ || a == "gemma"@ || a == "gemma3"@ || a == "gemma4"@ || a == "qwen3moe"@
        || a == "mla"@ || a == "minimax"@ || a == "dsv4"@
}

pub fn known_arch(a: &str) -> (r: bool)
    ensures
        r == is_arch(a@),
{
    same_text(a, "gpt2") || same_text(a, "neox") || same_text(a, "rope") || same_text(a, "gemma") || same_text(a, "gemma3")
        || same_text(a, "gemma4") || same_text(a, "qwen3moe") || same_text(a, "mla") || same_text(a, "minimax") || same_text(
        a,
        "dsv4",
    )
}

/// The number types with few bits.
pub open spec fn is_quantised(d: Seq<char>) -> bool {
    d == "int8"@ || d == "int4"@ || d == "q4a"@
}

pub open spec fn is_dtype(d: Seq<char>) -> bool {
    is_quantised(d) || d == "f16"@ || d == "f32"@
}

pub open spec fn is_embed_dtype(d: Seq<char>) -> bool {
    d == "f16"@ || d == "int8"@
}

fn quantised(d: &str) -> (r: bool)
    ensures
        r == is_quantised(d@),
{
    same_text(d, "int8") || same_text(d, "int4") || same_text(d, "q4a")
}

pub open spec fn given_or(v: Option<Seq<char>>, default: Seq<char>) -> Seq<char> {
    match v {
        Some(s) => s,
        None => default,
    }
}

/// The type of the embedding: the one asked for, else eight bits where the other numbers have few, else half.
pub open spec fn embed_choice(asked: Option<Seq<char>>, dtype: Seq<char>) -> Seq<char> {
    given_or(asked, if is_quantised(dtype) { "int8"@ } else { "f16"@ })
}

/// Where the bundle goes: where it was asked to, else to the cache, under the name of the model.
pub open spec fn out_choice(o: Option<Seq<char>>, out: Option<Seq<char>>, model: Seq<char>, cache: Seq<char>) -> Seq<char> {
    match o {
        Some(s) => s,
        None => given_or(out, stem_text(cache, model_name(model))),
    }
}

fn text_or(v: Option<&str>, default: &str) -> (s: String)
    ensures
        s@ == given_or(text_of(v), default@),
{
    match v {
        Some(t) => String::from_str(t),
        None => String::from_str(default),
    }
}

/// The outcome of planning a conversion: what is wrong first is what is reported.
pub open spec fn is_plan(r: Result<ConvertPlan, ConvertError>, args: Seq<String>, cache: Seq<char>) -> bool {
    let model = flag_value(args, "--model"@);
    let arch = given_or(flag_value(args, "--arch"@), "rope"@);
    let dtype = given_or(flag_value(args, "--dtype"@), "int8"@);
    let embed = embed_choice(flag_value(args, "--embed-dtype"@), dtype);
    match r {
        Ok(p) => {
            &&& model == Some(p.model@)
            &&& is_arch(arch) && p.arch@ == arch
            &&& is_dtype(dtype) && p.dtype@ == dtype
            &&& is_embed_dtype(embed) && p.embed_dtype@ == embed
            &&& p.out@ == out_choice(flag_value(args, "-o"@), flag_value(args, "--out"@), p.model@, cache)
        },
        Err(ConvertError::NoModel) => model is None,
        Err(ConvertError::UnknownArch(a)) => model is Some && !is_arch(arch) && a@ == arch,
        Err(ConvertError::UnknownDtype(d)) => model is Some && is_arch(arch) && !is_dtype(dtype) && d@ == dtype,
        Err(ConvertError::UnknownEmbedDtype(e)) => {
            model is Some && is_arch(arch) && is_dtype(dtype) && !is_embed_dtype(embed) && e@ == embed
        },
    }
}

/// Plans a conversion from the arguments; `cache` is the directory of bundles.
pub fn plan_convert(args: &[String], cache: &str) -> (r: Result<ConvertPlan, ConvertError>)
    ensures
        is_plan(r, args@, cache@),
{
    let model = match flag(args, "--model") {
        Some(m) => m,
        None => {
            return Err(ConvertError::NoModel);
        },
    };
    let arch = text_or(flag(args, "--arch"), "rope");
    let dtype = text_or(flag(args, "--dtype"), "int8");
    if !known_arch(arch.as_str()) {
        return Err(ConvertError::UnknownArch(arch));
    }
    let few = quantised(dtype.as_str());
    if !few && !same_text(dtype.as_str(), "f16") && !same_text(dtype.as_str(), "f32") {
        return Err(ConvertError::UnknownDtype(dtype));
    }
    let embed_dtype = text_or(flag(args, "--embed-dtype"), if few { "int8" } else { "f16" });
    if !same_text(embed_dtype.as_str(), "f16") && !same_text(embed_dtype.as_str(), "int8") {
        return Err(ConvertError::UnknownEmbedDtype(embed_dtype));
    }
    let out = match flag(args, "-o") {
        Some(o) => String::from_str(o),
        None => match flag(args, "--out") {
            Some(o) => String::from_str(o),
            None => {
                let name = base_name(model);
                bundle_stem(cache, name.as_str())
            },
        },
    };
    Ok(ConvertPlan { model: String::from_str(model), arch, dtype, embed_dtype, out })
}

/// The positions to score: behind a first window, as many as asked for, as far as there are tokens.
pub fn eval_range(window: usize, n_eval: usize, len: usize) -> (r: (usize, usize))
    requires
        window + n_eval <= usize::MAX,
    ensures
        r.0 == window,
        r.1 == (if window + n_eval < len { window + n_eval } else { len as int }),
{
    let end: usize = window + n_eval;
    (window, if end < len { end } else { len })
}

/// Where the context of a position starts: at most `window` tokens before it.
pub fn context_start(i: usize, window: usize) -> (s: usize)
    ensures
        s == (if i > window { i - window } else { 0 }),
        s <= i,
{
    if i > window { i - window } else { 0 }
}

/// A conversion that is planned without a place for the bundle puts it where the bundle is looked for by name: the
/// place is among those that the model's name is resolved to.
pub proof fn converted_bundles_are_found(model: Seq<char>, cache: Seq<char>)
    ensures
        stems_of(model, cache)[3] == out_choice(None, None, model, cache),
        stems_of(model_name(model), cache)[1] == out_choice(None, None, model, cache),
{
}

} // verus!
