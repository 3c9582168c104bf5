//! The verified core of `fieldrun`.
pub mod asking;
pub mod attribution;
pub mod battery;
pub mod capture;
pub mod certificate;
pub mod cli;
pub mod contrib;
pub mod count_laws;
pub mod cut_search;
pub mod datalog;
pub mod datalog_derivation;
pub mod datalog_laws;
pub mod datalog_program;
pub mod datalog_reading;
pub mod datalog_spelling;
pub mod datalog_text;
pub mod datalog_tokens;
pub mod discover;
pub mod draw_laws;
pub mod facts;
pub mod flow_sweep;
pub mod group_laws;
pub mod kernel;
pub mod knockout;
pub mod line_laws;
pub mod list_laws;
pub mod list_sweeps;
pub mod manifest;
pub mod markdown_laws;
pub mod mask_file;
pub mod mdfmt;
pub mod measure;
pub mod model;
pub mod operand_laws;
pub mod pair_laws;
pub mod patch_sweeps;
pub mod patching;
pub mod prefix_decode;
pub mod prefix_laws;
pub mod probe_laws;
pub mod reading_laws;
pub mod recursion_dl;
pub mod recursion_laws;
pub mod recursion_probe;
pub mod retrieval;
pub mod retrieval_laws;
pub mod routing;
pub mod runs;
pub mod script_laws;
pub mod shortcircuit;
pub mod specialty;
pub mod stitch;
pub mod stitch_laws;
pub mod store_file;
pub mod sweeps;
pub mod symbols;
pub mod text;
pub mod text_laws;
pub mod value_dump;
pub mod value_flow;
pub mod vocabulary;
pub mod words;
pub mod working_set;
