use fieldrun::cli::{
    base_name, bundle_stem, bundles_dir, context_start, eval_range, flag, has_flag, known_arch, plan_convert,
    resolve_bundle, stems, subcommand, u64_flag, usize_flag, wants_help, Command, ConvertError,
};
use fieldrun::runs::{
    compact_form, correct_count, dump_text, experiment, export_context_len, identical_prefix, idiom_counts,
    prompt_offsets, readable_token, run_mode, serve_port, signature, step_path, Experiment, Mode,
};

fn args(s: &[&str]) -> Vec<String> {
    s.iter().map(|a| a.to_string()).collect()
}

#[test]
fn flag_parsing() {
    let a: Vec<String> = ["fr", "--arch", "rope", "--chat"].iter().map(|s| s.to_string()).collect();
    assert_eq!(flag(&a, "--arch"), Some("rope"));
    assert_eq!(flag(&a, "--missing"), None);
    assert!(has_flag(&a, "--chat"));
    assert!(!has_flag(&a, "--nope"));
}

#[test]
fn resolve_bundle_explicit_cache_and_repo_id() {
    let dir = "/tmp/fr_rb";
    let st = format!("{dir}/x");
    assert_eq!(resolve_bundle(&st, dir, &[true, false, false, false, false]), st);
    let bstem = format!("{dir}/Qwen2.5-0.5B-Instruct/Qwen2.5-0.5B-Instruct");
    for raw in ["Qwen2.5-0.5B-Instruct", "Qwen/Qwen2.5-0.5B-Instruct"] {
        let present: Vec<bool> = stems(raw, dir).iter().map(|s| *s == bstem).collect();
        assert_eq!(resolve_bundle(raw, dir, &present), bstem);
    }
    assert_eq!(resolve_bundle("does-not-exist", dir, &[false; 5]), "does-not-exist");
}

#[test]
fn a_flag_at_the_end_has_no_value() {
    let a = args(&["fr", "--arch"]);
    assert_eq!(flag(&a, "--arch"), None);
    assert!(has_flag(&a, "--arch"));
}

#[test]
fn numbers_of_flags() {
    let a = args(&["fr", "--n", "12", "--seed", "18446744073709551615", "--bad", "x"]);
    assert_eq!(usize_flag(&a, "--n", 3), 12);
    assert_eq!(usize_flag(&a, "--bad", 3), 3);
    assert_eq!(usize_flag(&a, "--none", 3), 3);
    assert_eq!(u64_flag(&a, "--seed", 1), u64::MAX);
    assert_eq!(u64_flag(&a, "--n", 1), 12);
}

#[test]
fn help_and_subcommands() {
    assert!(wants_help(&args(&["fr"])));
    assert!(wants_help(&args(&["fr", "x", "-h"])));
    assert!(!wants_help(&args(&["fr", "x"])));
    assert!(subcommand(&args(&["fr", "convert"])) == Command::Convert);
    assert!(subcommand(&args(&["fr", "--convert"])) == Command::Convert);
    assert!(subcommand(&args(&["fr", "eval"])) == Command::Eval);
    assert!(subcommand(&args(&["fr", "stitch"])) == Command::Stitch);
    assert!(subcommand(&args(&["fr", "--bundle"])) == Command::Run);
    assert!(subcommand(&args(&["fr"])) == Command::Run);
}

#[test]
fn names_and_places() {
    assert_eq!(base_name("org/sub/Model-1B@main"), "Model-1B");
    assert_eq!(base_name("Model"), "Model");
    assert_eq!(bundle_stem("/c", "m"), "/c/m/m");
    assert_eq!(stems("o/m", "/c"), vec!["o/m", "/c/o/m/o/m", "bundles/o/m/o/m", "/c/m/m", "bundles/m/m"]);
    assert_eq!(bundles_dir(Some("/b"), Some("/h")), "/b");
    assert_eq!(bundles_dir(Some(""), Some("/h")), "/h/.cache/fieldrun/bundles");
    assert_eq!(bundles_dir(None, None), "./.cache/fieldrun/bundles");
}

#[test]
fn a_conversion_is_planned() {
    let p = plan_convert(&args(&["fr", "convert", "--model", "o/m@r"]), "/c").ok().unwrap();
    assert_eq!((p.arch.as_str(), p.dtype.as_str(), p.embed_dtype.as_str()), ("rope", "int8", "int8"));
    assert_eq!((p.model.as_str(), p.out.as_str()), ("o/m@r", "/c/m/m"));
    let p = plan_convert(&args(&["fr", "convert", "--model", "m", "--dtype", "f32", "-o", "here"]), "/c").ok().unwrap();
    assert_eq!((p.dtype.as_str(), p.embed_dtype.as_str(), p.out.as_str()), ("f32", "f16", "here"));
}

#[test]
fn a_converted_bundle_is_found() {
    let p = plan_convert(&args(&["fr", "convert", "--model", "o/m"]), "/c").ok().unwrap();
    let present: Vec<bool> = stems("o/m", "/c").iter().map(|s| *s == p.out).collect();
    assert_eq!(resolve_bundle("o/m", "/c", &present), p.out);
}

#[test]
fn what_is_wrong_with_a_conversion() {
    let wrong = |a: &[&str]| plan_convert(&args(a), "/c").err().unwrap();
    assert!(matches!(wrong(&["fr", "convert"]), ConvertError::NoModel));
    assert!(matches!(wrong(&["fr", "convert", "--model", "m", "--arch", "x"]), ConvertError::UnknownArch(a) if a == "x"));
    assert!(matches!(wrong(&["fr", "convert", "--model", "m", "--dtype", "q2"]), ConvertError::UnknownDtype(d) if d == "q2"));
    assert!(matches!(
        wrong(&["fr", "convert", "--model", "m", "--embed-dtype", "int4"]),
        ConvertError::UnknownEmbedDtype(d) if d == "int4"
    ));
    assert!(known_arch("mla"));
    assert!(!known_arch("llama"));
}

#[test]
fn positions_to_score() {
    assert_eq!(eval_range(4, 10, 8), (4, 8));
    assert_eq!(eval_range(4, 2, 8), (4, 6));
    assert_eq!(context_start(3, 8), 0);
    assert_eq!(context_start(20, 8), 12);
}

#[test]
fn modes_of_a_run() {
    let mode = |a: &[&str], no_ids: bool| run_mode(&args(a), no_ids);
    assert!(mode(&["fr"], true) == Mode::Chat);
    assert!(mode(&["fr"], false) == Mode::Score);
    assert!(mode(&["fr", "--chat"], false) == Mode::Chat);
    assert!(mode(&["fr", "--serve", "8080"], true) == Mode::Serve(8080));
    assert!(mode(&["fr", "--server", "80"], false) == Mode::Serve(80));
    assert!(mode(&["fr", "--explain"], false) == Mode::Explain);
    assert!(mode(&["fr", "--generate", "7"], true) == Mode::Generate(7));
    assert!(mode(&["fr", "--gate-check", "3", "--generate", "7"], false) == Mode::GateCheck(3));
    assert!(mode(&["fr", "--gen-prefix", "9"], false) == Mode::GenPrefix(9));
    assert!(mode(&["fr", "--probe-dla", "--probe"], false) == Mode::Probe);
    assert!(mode(&["fr", "export", "--logic"], false) == Mode::ExportLogic);
    assert!(mode(&["fr", "export", "--logic", "--logic-whole"], false) == Mode::ExportWhole);
    assert!(mode(&["fr", "--capture-store"], false) == Mode::Score);
    assert_eq!(serve_port(&args(&["fr", "--serve", "70000"])), None);
}

#[test]
fn experiments_on_recursion() {
    assert!(experiment(&args(&["fr"])) == Experiment::Spectrum);
    assert!(experiment(&args(&["fr", "--datalog", "--measure"])) == Experiment::Measure);
    assert!(experiment(&args(&["fr", "--induce"])) == Experiment::InduceSweep);
    assert!(experiment(&args(&["fr", "--induce", "--text", "(+ 1 2)"])) == Experiment::InduceOne);
}

#[test]
fn predictions_are_scored_and_dumped() {
    assert_eq!(correct_count(&[5, 6, 7], &[0, 5, 9, 7], 1), 2);
    assert_eq!(dump_text(&[5, -6]), "5\n-6\n");
}

#[test]
fn prompts_are_spread() {
    assert_eq!(prompt_offsets(100, 40, 3), vec![0, 20, 40]);
    assert_eq!(prompt_offsets(40, 40, 2), vec![0, 0]);
    assert_eq!(identical_prefix(&[1, 2, 3], &[1, 2, 4]), 2);
    assert_eq!(identical_prefix(&[], &[1]), 0);
}

#[test]
fn idioms_are_counted() {
    assert_eq!(
        idiom_counts(&args(&["bigram", "unigram", "bigram"])),
        vec![("bigram".to_string(), 2), ("unigram".to_string(), 1)]
    );
}

#[test]
fn signatures_of_contexts() {
    assert_eq!(signature(&[3, 5], 1), 5);
    assert_eq!(signature(&[], 1), -1);
    assert_eq!(signature(&[3, 5], 2), 6 * 0x10_0000 + 4);
    assert_eq!(signature(&[5], 2), 6);
}

#[test]
fn parts_of_an_export() {
    assert!(compact_form("edb", false));
    assert!(compact_form("margin", true));
    assert!(!compact_form("margin", false));
    assert!(!compact_form("full", true));
    assert_eq!(step_path("out/run.dl", 7), "out/run.007.dl");
    assert_eq!(step_path("run", 123), "run.123.dl");
    assert_eq!(export_context_len(10, 4), 4);
    assert_eq!(export_context_len(3, 4), 2);
    assert_eq!(readable_token("\u{120}a\u{10a}"), " a\n");
}
