//! MIDL, the interface language of motherboard services: its syntax tree, tokenizer, parser
//! and the argument handling of its command-line compiler.
pub mod ast;
pub mod parser;
pub mod parser_laws;
pub mod tokenizer;

use vstd::prelude::*;
use crate::midl::ast::{Diagnostic, DiagnosticModel, Document, DocumentModel};
use crate::midl::parser::{eof_ahead, parse_model, parse_tokens};
use crate::midl::tokenizer::{TokenKindModel, TokenModel, tokenize, tokenize_model, tokens_model};
use crate::text::{concat, same_text, string_of};

verus! {

/// What parsing MIDL source text gives: its tokens parsed, or the first diagnostic.
pub open spec fn parse_document_model(source: Seq<char>) -> Result<DocumentModel, DiagnosticModel> {
    match tokenize_model(source) {
        Err(d) => Err(d),
        Ok(tokens) => parse_model(tokens),
    }
}

/// Tokenizes and parses MIDL source text.
pub fn parse_document(source: &str) -> (r: Result<Document, Diagnostic>)
    requires
        source@.len() < usize::MAX,
    ensures
        match parse_document_model(source@) {
            Ok(doc) => r matches Ok(x) && x.model() == doc,
            Err(e) => r matches Err(d) && d.model() == e,
        },
{
    let tokens = match tokenize(source) {
        Ok(tokens) => tokens,
        Err(d) => return Err(d),
    };
    proof {
        let s = tokens_model(tokens@);
        assert(s[s.len() - 1].kind == TokenKindModel::Eof);
        assert(eof_ahead(s, 0));
    }
    parse_tokens(tokens)
}

/// Which side of the bindings the compiler emits.
#[derive(Clone, Copy, Debug, PartialEq, Eq, Structural)]
pub enum RustMode {
    Client,
    Server,
    Both,
}

/// What the compiler was asked to do.
#[derive(Clone, Debug, PartialEq, Eq)]
pub struct CliOptions {
    pub input: String,
    pub rust_out: Option<String>,
    pub mode: RustMode,
}

/// The usage line appended to every argument error.
pub open spec fn usage_line() -> Seq<char> {
    "\nusage: midl <input.midl> [--mode client|server|both] [--rust-out <bindings.rs>]"@
}

/// An argument error: `message` followed by the usage line.
pub fn usage(message: &str) -> (r: String)
    ensures
        r@ == message@ + usage_line(),
{
    concat(message, "\nusage: midl <input.midl> [--mode client|server|both] [--rust-out <bindings.rs>]")
}

/// The mode named `mode`, if any.
pub open spec fn mode_named(mode: Seq<char>) -> Option<RustMode> {
    if mode == "client"@ {
        Some(RustMode::Client)
    } else if mode == "server"@ {
        Some(RustMode::Server)
    } else if mode == "both"@ {
        Some(RustMode::Both)
    } else {
        None
    }
}

/// The message for an unknown mode.
pub open spec fn unknown_mode_message(mode: Seq<char>) -> Seq<char> {
    "unknown mode `"@ + mode + "`"@ + usage_line()
}

pub fn parse_mode(mode: &str) -> (r: Result<RustMode, String>)
    ensures
        match mode_named(mode@) {
            Some(m) => r == Ok::<RustMode, String>(m),
            None => r matches Err(e) && e@ == unknown_mode_message(mode@),
        },
{
    if same_text(mode, "client") {
        Ok(RustMode::Client)
    } else if same_text(mode, "server") {
        Ok(RustMode::Server)
    } else if same_text(mode, "both") {
        Ok(RustMode::Both)
    } else {
        let message = concat(concat("unknown mode `", mode).as_str(), "`");
        let r = usage(message.as_str());
        assert(r@ =~= unknown_mode_message(mode@));
        Err(r)
    }
}

/// The options after the input file: `--rust-out <path>` and `--mode <mode>`, in any order and
/// number, the last one of each kind winning.
pub open spec fn cli_flags_model(
    args: Seq<Seq<char>>,
    rust_out: Option<Seq<char>>,
    mode: RustMode,
) -> Result<(Option<Seq<char>>, RustMode), Seq<char>>
    decreases args.len(),
{
    if args.len() == 0 {
        Ok((rust_out, mode))
    } else if args[0] == "--rust-out"@ {
        if args.len() < 2 {
            Err("missing path after --rust-out"@ + usage_line())
        } else {
            cli_flags_model(args.skip(2), Some(args[1]), mode)
        }
    } else if args[0] == "--mode"@ {
        if args.len() < 2 {
            Err("missing value after --mode"@ + usage_line())
        } else {
            match mode_named(args[1]) {
                Some(m) => cli_flags_model(args.skip(2), rust_out, m),
                None => Err(unknown_mode_message(args[1])),
            }
        }
    } else {
        Err("unknown argument `"@ + args[0] + "`"@ + usage_line())
    }
}

/// What the command line (without the program name) asks for.
pub open spec fn cli_model(args: Seq<Seq<char>>) -> Result<(Seq<char>, Option<Seq<char>>, RustMode), Seq<char>> {
    if args.len() == 0 {
        Err("missing input file"@ + usage_line())
    } else {
        match cli_flags_model(args.skip(1), None, RustMode::Both) {
            Ok((rust_out, mode)) => Ok((args[0], rust_out, mode)),
            Err(e) => Err(e),
        }
    }
}

/// Reads the compiler's command line (without the program name).
pub fn parse_cli_args(args: &Vec<String>) -> (r: Result<CliOptions, String>)
    ensures
        match cli_model(crate::midl::ast::texts(args@)) {
            Ok((input, rust_out, mode)) => r matches Ok(o) && o.input@ == input && o.mode == mode && match o.rust_out {
                Some(p) => rust_out == Some(p@),
                None => rust_out is None,
            },
            Err(e) => r matches Err(m) && m@ == e,
        },
{
    let ghost a = crate::midl::ast::texts(args@);
    if args.len() == 0 {
        return Err(usage("missing input file"));
    }
    let input = args[0].clone();
    let mut rust_out: Option<String> = None;
    let mut mode = RustMode::Both;
    let mut k: usize = 1;
    while k < args.len()
        invariant
            1 <= k <= args.len(),
            a == crate::midl::ast::texts(args@),
            a.len() == args.len(),
            cli_flags_model(a.skip(1), None, RustMode::Both) == cli_flags_model(
                a.skip(k as int),
                match rust_out {
                    Some(p) => Some(p@),
                    None => None,
                },
                mode,
            ),
        decreases args.len() + 1 - k,
    {
        let arg = args[k].as_str();
        assert(a.skip(k as int)[0] == arg@);
        if same_text(arg, "--rust-out") {
            if k + 1 >= args.len() {
                return Err(usage("missing path after --rust-out"));
            }
            assert(a.skip(k as int).skip(2) =~= a.skip(k + 2));
            rust_out = Some(args[k + 1].clone());
            k = k + 2;
        } else if same_text(arg, "--mode") {
            if k + 1 >= args.len() {
                return Err(usage("missing value after --mode"));
            }
            assert(a.skip(k as int).skip(2) =~= a.skip(k + 2));
            mode = match parse_mode(args[k + 1].as_str()) {
                Ok(m) => m,
                Err(e) => return Err(e),
            };
            k = k + 2;
        } else {
            let message = concat(concat("unknown argument `", arg).as_str(), "`");
            return Err(usage(message.as_str()));
        }
    }
    assert(a.skip(k as int).len() == 0);
    Ok(CliOptions { input, rust_out, mode })
}


/// Flags after the input file, each written as the flag and its value.
pub open spec fn flag_args(pairs: Seq<(Seq<char>, Seq<char>)>) -> Seq<Seq<char>>
    decreases pairs.len(),
{
    if pairs.len() == 0 {
        Seq::empty()
    } else {
        seq![pairs[0].0, pairs[0].1] + flag_args(pairs.drop_first())
    }
}

/// A flag the compiler takes: `--rust-out` with any path, or `--mode` with a known mode.
pub open spec fn flag_ok(p: (Seq<char>, Seq<char>)) -> bool {
    p.0 == "--rust-out"@ || (p.0 == "--mode"@ && mode_named(p.1) is Some)
}

/// `j` is the last of `pairs` with the flag `flag`.
pub open spec fn last_flag(pairs: Seq<(Seq<char>, Seq<char>)>, flag: Seq<char>, j: int) -> bool {
    &&& 0 <= j < pairs.len()
    &&& pairs[j].0 == flag
    &&& forall|k: int| j < k < pairs.len() ==> (#[trigger] pairs[k]).0 != flag
}

/// No flag of `pairs` is `flag`.
pub open spec fn no_flag(pairs: Seq<(Seq<char>, Seq<char>)>, flag: Seq<char>) -> bool {
    forall|k: int| 0 <= k < pairs.len() ==> (#[trigger] pairs[k]).0 != flag
}

proof fn lemma_flag_words()
    ensures
        "--rust-out"@ != "--mode"@,
{
    reveal_strlit("--rust-out");
    reveal_strlit("--mode");
    assert("--rust-out"@.len() != "--mode"@.len());
}

/// Reading the flags `pairs` starting from `rust_out` and `mode`: the last `--mode` gives the
/// mode and the last `--rust-out` the output path, each whatever the other flags are; without
/// one, its starting value stays.
pub proof fn lemma_flags_last_wins(pairs: Seq<(Seq<char>, Seq<char>)>, rust_out: Option<Seq<char>>, mode: RustMode)
    requires
        forall|k: int| 0 <= k < pairs.len() ==> flag_ok(#[trigger] pairs[k]),
    ensures
        cli_flags_model(flag_args(pairs), rust_out, mode) matches Ok((out, md)) && {
            &&& no_flag(pairs, "--mode"@) ==> md == mode
            &&& forall|j: int| last_flag(pairs, "--mode"@, j) ==> Some(md) == mode_named(pairs[j].1)
            &&& no_flag(pairs, "--rust-out"@) ==> out == rust_out
            &&& forall|j: int| last_flag(pairs, "--rust-out"@, j) ==> out == Some(pairs[j].1)
        },
    decreases pairs.len(),
{
    lemma_flag_words();
    if pairs.len() > 0 {
        let p = pairs[0];
        let rest = pairs.drop_first();
        let args = flag_args(pairs);
        assert(args[0] == p.0);
        assert(args[1] == p.1);
        assert(args.skip(2) =~= flag_args(rest));
        assert forall|k: int| 0 <= k < rest.len() implies flag_ok(#[trigger] rest[k]) by {
            assert(rest[k] == pairs[k + 1]);
        }
        assert(flag_ok(pairs[0]));
        let (out0, md0) = if p.0 == "--rust-out"@ {
            (Some(p.1), mode)
        } else {
            (rust_out, mode_named(p.1)->0)
        };
        lemma_flags_last_wins(rest, out0, md0);
        assert(cli_flags_model(args, rust_out, mode) == cli_flags_model(flag_args(rest), out0, md0));
        let (out, md) = cli_flags_model(flag_args(rest), out0, md0)->Ok_0;
        assert forall|f: Seq<char>, j: int| #[trigger] last_flag(pairs, f, j) && j > 0 implies last_flag(rest, f, j - 1) by {
            assert(rest[j - 1] == pairs[j]);
            assert forall|k: int| j - 1 < k < rest.len() implies (#[trigger] rest[k]).0 != f by {
                assert(rest[k] == pairs[k + 1]);
            }
        }
        assert forall|f: Seq<char>| #[trigger] no_flag(pairs, f) implies no_flag(rest, f) by {
            assert forall|k: int| 0 <= k < rest.len() implies (#[trigger] rest[k]).0 != f by {
                assert(rest[k] == pairs[k + 1]);
            }
        }
        assert forall|f: Seq<char>| #[trigger] last_flag(pairs, f, 0) implies no_flag(rest, f) by {
            assert forall|k: int| 0 <= k < rest.len() implies (#[trigger] rest[k]).0 != f by {
                assert(rest[k] == pairs[k + 1]);
            }
        }
        assert(forall|j: int| last_flag(pairs, "--mode"@, j) ==> Some(md) == mode_named(pairs[j].1)) by {
            assert forall|j: int| last_flag(pairs, "--mode"@, j) implies Some(md) == mode_named(pairs[j].1) by {
                if j > 0 {
                    assert(last_flag(rest, "--mode"@, j - 1));
                } else {
                    assert(no_flag(rest, "--mode"@));
                }
            }
        }
        assert(forall|j: int| last_flag(pairs, "--rust-out"@, j) ==> out == Some(pairs[j].1)) by {
            assert forall|j: int| last_flag(pairs, "--rust-out"@, j) implies out == Some(pairs[j].1) by {
                if j > 0 {
                    assert(last_flag(rest, "--rust-out"@, j - 1));
                } else {
                    assert(no_flag(rest, "--rust-out"@));
                }
            }
        }
        assert(no_flag(pairs, "--mode"@) ==> md == mode) by {
            if no_flag(pairs, "--mode"@) {
                assert(pairs[0].0 != "--mode"@);
                assert(no_flag(rest, "--mode"@));
            }
        }
        assert(no_flag(pairs, "--rust-out"@) ==> out == rust_out) by {
            if no_flag(pairs, "--rust-out"@) {
                assert(pairs[0].0 != "--rust-out"@);
                assert(no_flag(rest, "--rust-out"@));
            }
        }
    }
}

/// On a command line of an input file and well-formed flags, the input file is the first
/// argument, the mode is that of the last `--mode` (`both` without one) and the output path
/// that of the last `--rust-out` (none without one): neither kind of flag disturbs the other.
pub proof fn law_last_flag_wins(input: Seq<char>, pairs: Seq<(Seq<char>, Seq<char>)>)
    requires
        forall|k: int| 0 <= k < pairs.len() ==> flag_ok(#[trigger] pairs[k]),
    ensures
        cli_model(seq![input] + flag_args(pairs)) matches Ok((inp, out, md)) && {
            &&& inp == input
            &&& no_flag(pairs, "--mode"@) ==> md == RustMode::Both
            &&& forall|j: int| last_flag(pairs, "--mode"@, j) ==> Some(md) == mode_named(pairs[j].1)
            &&& no_flag(pairs, "--rust-out"@) ==> out is None
            &&& forall|j: int| last_flag(pairs, "--rust-out"@, j) ==> out == Some(pairs[j].1)
        },
{
    let args = seq![input] + flag_args(pairs);
    assert(args.skip(1) =~= flag_args(pairs));
    lemma_flags_last_wins(pairs, None, RustMode::Both);
}

} // verus!
