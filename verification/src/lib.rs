//! A small regular-expression engine: patterns are parsed into an
//! abstract syntax tree, compiled into a linear bytecode program, and
//! executed by several engines that must agree on match results and
//! captured submatches while differing in search strategy.

mod backtrack;
mod compile;
mod lex;
mod parse;
mod pike;
mod recursive;
mod regexp;
mod semantics;
mod thompson;

pub use backtrack::MAX_STEPS;
pub use backtrack::MAX_THREADS;
pub use compile::emit;
pub use compile::groups_ok;
pub use compile::inst_count;
pub use compile::lemma_compile_deterministic;
pub use compile::lemma_compile_nsub;
pub use compile::lemma_emit_len;
pub use compile::lemma_emit_wf;
pub use compile::spec_compile;
pub use compile::tree_nsub;
pub use lex::Lexer;
pub use lex::Token;
pub use lex::token_of;
pub use parse::all_unnumbered;
pub use parse::ParseError;
pub use parse::spec_parse;
pub use parse::spec_parse_alt;
pub use parse::spec_parse_concat;
pub use parse::spec_parse_repeat;
pub use parse::spec_parse_single;
pub use parse::spec_tokens;
pub use parse::starts_single_token;
pub use parse::resume_at;
pub use parse::parse_result_matches;
pub use recursive::MAX_DEPTH;
pub use recursive::Outcome;
pub use regexp::init_caps;
pub use regexp::Inst;
pub use regexp::inst_ok;
pub use regexp::lemma_nsub_bounds;
pub use regexp::lemma_number_next;
pub use regexp::Prog;
pub use regexp::prog_wf;
pub use regexp::Regexp;
pub use regexp::saves_bounded;
pub use regexp::spec_nsub;
pub use regexp::spec_number;
pub use regexp::Sub;
pub use regexp::unnumbered;
pub use regexp::VM;
pub use semantics::accepts;
pub use semantics::accepts_with_caps;
pub use semantics::caps_of_path;
pub use semantics::caps_step;
pub use semantics::reaches_with_caps;
pub use semantics::bt_stack_run;
pub use semantics::lemma_bt_stack_run_sound;
pub use semantics::bt;
pub use semantics::bt_reaches;
pub use semantics::BtOut;
pub use semantics::lemma_accepts_not_refused;
pub use semantics::lemma_bt_deterministic;
pub use semantics::lemma_bt_found_accepts;
pub use semantics::lemma_refusal_is_final;
pub use semantics::lemma_bt_mono;
pub use semantics::lemma_distinct_pcs_bound;
pub use semantics::lemma_search_agreement;
pub use semantics::path_ok;
pub use semantics::reaches_state;
pub use semantics::start_offset;
pub use semantics::step_ok;
pub use pike::no_marks;
pub use pike::pike_close;
pub use pike::pike_run;
pub use pike::pike_scan;
pub use pike::pike_spec;
pub use thompson::no_marks_t;
pub use thompson::thompson_base;
pub use thompson::thompson_close;
pub use thompson::thompson_result;
pub use thompson::thompson_run;
pub use thompson::thompson_scan;
pub use thompson::thompson_span;
