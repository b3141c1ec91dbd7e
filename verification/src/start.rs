use crate::bfparser::assembler::{AsmState, X64Assembler};
use crate::bfparser::codegen::{assemble, gen_code, lemma_bounded_encodable, program, HostCalls};
use crate::bfparser::folding::lemma_lowering_bounded;
use crate::bfparser::ir::{lower, nested, open_depth, transfer_to_ir};
use crate::bfparser::labels::resolvable;
use crate::bfparser::parser::{
    balanced, depth, lemma_token_prefix, lex_fault, parse, token_of, tokens_of, TOKEN,
};
use crate::bftype::bfcate::VMArchType;
use crate::bftype::bferror::{CompileError, RuntimeError, RuntimeErrorKind};
use crate::bftype::bfwarn::{RuntimeWarn, RuntimeWarnKind};
use vstd::prelude::*;

verus! {

/// The name that stands for standard input.
pub const STDIN: &'static str = "STDIN";

/// The name that stands for standard output.
pub const STDOUT: &'static str = "STDOUT";

/// What a run is started with: the source text, the architecture, and the
/// names of the input and the output, which may be files or the standard
/// streams.
pub struct StartArgs {
    pub vm_arch_type: VMArchType,
    pub input: String,
    pub output: String,
    pub str: String,
}

/// Why a source text did not become code.
#[derive(Clone, Copy, Debug, PartialEq, Eq, Structural)]
pub enum StartError {
    /// The brackets of the text do not pair up.
    Compile(CompileError),
    /// Code could not be generated.
    Runtime(RuntimeError),
}

/// The tokens of a text hold as many more `[` than `]` as the text.
pub proof fn lemma_tokens_keep_depth(s: Seq<char>)
    ensures
        open_depth(tokens_of(s)) == depth(s),
    decreases s.len(),
{
    if s.len() > 0 {
        lemma_tokens_keep_depth(s.drop_last());
        match token_of(s.last()) {
            Some(t) => {
                assert(tokens_of(s).drop_last() =~= tokens_of(s.drop_last()));
            },
            None => {},
        }
    }
}

/// Where the brackets of a text pair up, the brackets of its tokens do.
pub proof fn lemma_lexed_is_nested(s: Seq<char>)
    requires
        balanced(s),
    ensures
        nested(tokens_of(s)),
{
    let t = tokens_of(s);
    lemma_tokens_keep_depth(s);
    assert(t.take(t.len() as int) =~= t);
    assert(t.take(0) =~= Seq::<TOKEN>::empty());
    assert forall|k: int| 0 <= k <= t.len() implies open_depth(#[trigger] t.take(k)) >= open_depth(
        t.take(0),
    ) by {
        let m = lemma_token_prefix(s, k);
        lemma_tokens_keep_depth(s.take(m));
        assert(depth(s.take(m)) >= 0);
    }
}

/// Whether a stream name asks for a file: any name but the one that stands
/// for the standard stream.
pub fn names_file(name: &str, standard: &str) -> (r: bool)
    ensures
        r == (name@ != standard@),
{
    let a = name.to_owned();
    let b = standard.to_owned();
    !(a == b)
}

/// What to do about a stream: a file that was asked for and could not be
/// opened is replaced by the standard stream, with a warning.
pub fn stream_fallback(asked_for_file: bool, opened: bool, kind: RuntimeWarnKind) -> (r: Option<
    RuntimeWarn,
>)
    ensures
        r == if asked_for_file && !opened {
            Some(RuntimeWarn { kind })
        } else {
            None::<RuntimeWarn>
        },
{
    if asked_for_file && !opened {
        Some(RuntimeWarn { kind })
    } else {
        None
    }
}

/// The error for a source file that could not be read.
pub fn source_unreadable() -> (r: RuntimeError)
    ensures
        r == (RuntimeError { index: 1, kind: RuntimeErrorKind::IO }),
{
    RuntimeError { index: 1, kind: RuntimeErrorKind::IO }
}

/// The exit code for how a start ended: zero for success, one for a source
/// text that was refused, two for any other error.
pub fn exit_code(error: Option<StartError>) -> (r: i32)
    ensures
        r == match error {
            None => 0i32,
            Some(StartError::Compile(_)) => 1i32,
            Some(StartError::Runtime(_)) => 2i32,
        },
{
    match error {
        None => 0,
        Some(StartError::Compile(_)) => 1,
        Some(StartError::Runtime(_)) => 2,
    }
}

/// Turns a source text into code that is ready to be committed: the text is
/// read into tokens, the tokens are lowered, and code is generated for the
/// architecture.
///
/// A text whose brackets do not pair up is refused with the lexer's error,
/// whatever the architecture. Otherwise an architecture other than x86-64 is
/// refused as unknown, and for x86-64 the program's listing is assembled,
/// unless the system had no executable memory to give.
pub fn compile(source: &str, vm_arch_type: VMArchType, host: HostCalls) -> (r: Result<
    X64Assembler,
    StartError,
>)
    ensures
        match r {
            Ok(ops) => {
                &&& balanced(source@)
                &&& vm_arch_type.supported()
                &&& ops@ == assemble(AsmState::empty(), program(lower(tokens_of(source@)), host))
                &&& resolvable(ops@)
            },
            Err(StartError::Compile(e)) => !balanced(source@) && lex_fault(source@, e),
            Err(StartError::Runtime(e)) => balanced(source@) && e.index == 1 && e.kind
                == if vm_arch_type.supported() {
                RuntimeErrorKind::Memory
            } else {
                RuntimeErrorKind::Unknown
            },
        },
{
    let tokens = match parse(source) {
        Ok(tokens) => tokens,
        Err(e) => {
            return Err(StartError::Compile(e));
        },
    };
    proof {
        lemma_lexed_is_nested(source@);
    }
    let irs = match transfer_to_ir(&tokens) {
        Ok(irs) => irs,
        Err(e) => {
            return Err(StartError::Runtime(e));
        },
    };
    proof {
        lemma_lowering_bounded(tokens@);
        lemma_bounded_encodable(lower(tokens@));
    }
    match gen_code(&irs, vm_arch_type, host) {
        Ok(ops) => Ok(ops),
        Err(e) => Err(StartError::Runtime(e)),
    }
}

/// Turns the source text that a run is started with into code for the
/// architecture it is started for, as [`compile`] does.
pub fn compile_start(args: &StartArgs, host: HostCalls) -> (r: Result<X64Assembler, StartError>)
    ensures
        match r {
            Ok(ops) => {
                &&& balanced(args.str@)
                &&& args.vm_arch_type.supported()
                &&& ops@ == assemble(AsmState::empty(), program(lower(tokens_of(args.str@)), host))
                &&& resolvable(ops@)
            },
            Err(StartError::Compile(e)) => !balanced(args.str@) && lex_fault(args.str@, e),
            Err(StartError::Runtime(e)) => balanced(args.str@) && e.index == 1 && e.kind
                == if args.vm_arch_type.supported() {
                RuntimeErrorKind::Memory
            } else {
                RuntimeErrorKind::Unknown
            },
        },
{
    compile(args.str.as_str(), args.vm_arch_type, host)
}

} // verus!
