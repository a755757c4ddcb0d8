//! The whole chain behind one handle: read, parse, compile, run.
use vstd::prelude::*;
use vstd::string::*;
use crate::ast::{Ast, AstNode};
use crate::bytecode::{Instr, Instruction, code_view};
use crate::compiler::Compiler;
use crate::grammar::{tokenize, tokenize_spec};
use crate::lowering::compile_spec;
use crate::machine::{Machine, initial_machine, steps_spec};
use crate::parser::{ParseError, ParseFault, parse_to_ast, program_spec};
use crate::shape::lemma_read_text_parses;
use crate::syntax::program_g;
use crate::unparse::{lemma_program_reads_back, program_tree};
use crate::value::{Value, fields_view};
use crate::vm::{Request, Vm, reply_view};

verus! {

/// A machine together with the program it runs.
pub struct Interpreter {
    vm: Vm,
    code: Vec<Instruction>,
}

/// What a source text is as a program: its syntax tree, or why it has none.
pub open spec fn source_spec(source: Seq<char>) -> Result<Ast, ParseFault> {
    match tokenize_spec(source) {
        Ok(trees) => program_spec(trees),
        Err(e) => Err(e),
    }
}

/// The message of a parse failure.
pub open spec fn fault_message(e: ParseFault) -> Seq<char> {
    match e {
        ParseFault::Syntax { offset, message } => message,
        ParseFault::Shape { expected, message } => "AST construction failed: "@ + message,
    }
}

/// A source text fails to parse only where the grammar cannot read it: the
/// tree of a text that the grammar reads always has the shape that the
/// parser asks for.
pub proof fn lemma_only_syntax_errors(source: Seq<char>)
    ensures
        source_spec(source) matches Err(e) ==> e is Syntax,
{
    if program_g(source) is Ok {
        lemma_read_text_parses(source);
    }
}

/// Parsing loses nothing: the syntax tree of a source text, written back as
/// a parse tree, parses to the same syntax tree again.
pub proof fn lemma_parsed_program_reads_back(source: Seq<char>)
    ensures
        source_spec(source) matches Ok(program) ==> program_spec(seq![program_tree(program)])
            == Ok::<Ast, ParseFault>(program),
{
    if program_g(source) is Ok {
        lemma_read_text_parses(source);
        match source_spec(source) {
            Ok(Ast::Program(body)) => {
                lemma_program_reads_back(body);
            },
            _ => {},
        }
    }
}

/// Reads and parses a source text. It fails only with a syntax error.
pub fn parse_source(source: &str) -> (r: Result<AstNode, ParseError>)
    ensures
        match r {
            Ok(ast) => source_spec(source@) == Ok::<Ast, ParseFault>(ast@),
            Err(e) => source_spec(source@) == Err::<Ast, ParseFault>(e@) && e@ is Syntax,
        },
{
    proof {
        lemma_only_syntax_errors(source@);
    }
    match tokenize(source) {
        Ok(pairs) => parse_to_ast(pairs),
        Err(e) => Err(e),
    }
}

impl Interpreter {
    /// The program that is loaded.
    pub closed spec fn program(&self) -> Seq<Instr> {
        code_view(self.code@)
    }

    /// The state of the machine.
    pub closed spec fn machine(&self) -> Machine {
        self.vm@
    }

    /// An interpreter with no program and no modules.
    pub fn new() -> (r: Interpreter)
        ensures
            r.program() == Seq::<Instr>::empty(),
            r.machine() == initial_machine(Seq::empty()),
    {
        let registry: Vec<(String, Value)> = Vec::new();
        assert(fields_view(registry) =~= Seq::empty());
        let r = Interpreter { vm: Vm::new(registry), code: Vec::new() };
        assert(r.program() =~= Seq::<Instr>::empty());
        r
    }

    /// An interpreter with no program and the modules that `import` can
    /// bring in.
    pub fn with_modules(registry: Vec<(String, Value)>) -> (r: Interpreter)
        ensures
            r.program() == Seq::<Instr>::empty(),
            r.machine() == initial_machine(fields_view(registry)),
    {
        let r = Interpreter { vm: Vm::new(registry), code: Vec::new() };
        assert(r.program() =~= Seq::<Instr>::empty());
        r
    }

    /// Compiles a tree, sets the machine to the start of the program with
    /// its globals kept, and runs it for up to `budget` steps.
    pub fn run_ast(&mut self, ast: &AstNode, budget: usize) -> (r: Request)
        ensures
            final(self).program() == compile_spec(ast@),
            (final(self).machine(), r@) == steps_spec(
                Machine {
                    globals: old(self).machine().globals,
                    ..initial_machine(old(self).machine().registry)
                },
                compile_spec(ast@),
                None,
                budget as nat,
            ),
    {
        self.code = Compiler::compile(ast);
        self.vm.restart();
        self.vm.execute(&self.code, None, budget)
    }

    /// Goes on with the loaded program for up to `budget` steps, handing in
    /// the host's reply to the last request.
    pub fn resume(&mut self, reply: Option<Value>, budget: usize) -> (r: Request)
        ensures
            final(self).program() == old(self).program(),
            (final(self).machine(), r@) == steps_spec(
                old(self).machine(),
                old(self).program(),
                reply_view(reply),
                budget as nat,
            ),
    {
        self.vm.execute(&self.code, reply, budget)
    }

    /// A copy of the global bindings.
    pub fn globals(&self) -> (r: Vec<(String, Value)>)
        ensures
            fields_view(r) == self.machine().globals,
    {
        self.vm.globals()
    }

    /// Forgets every global.
    pub fn clear_globals(&mut self)
        ensures
            final(self).program() == old(self).program(),
            final(self).machine() == (Machine { globals: Seq::empty(), ..old(self).machine() }),
    {
        self.vm.clear_globals();
    }
}

/// Reads, parses and compiles an input and runs it for up to `budget` steps;
/// an input that does not parse gives the message of the failure and leaves
/// the interpreter as it was.
pub fn execute_input(interpreter: &mut Interpreter, input: &str, budget: usize) -> (r: Result<
    Request,
    String,
>)
    ensures
        match r {
            Ok(request) => source_spec(input@) is Ok && final(interpreter).program()
                == compile_spec(source_spec(input@)->Ok_0) && (
                final(interpreter).machine(),
                request@,
            ) == steps_spec(
                Machine {
                    globals: old(interpreter).machine().globals,
                    ..initial_machine(old(interpreter).machine().registry)
                },
                compile_spec(source_spec(input@)->Ok_0),
                None,
                budget as nat,
            ),
            Err(message) => source_spec(input@) is Err && message@ == fault_message(
                source_spec(input@)->Err_0,
            ) && final(interpreter).program() == old(interpreter).program()
                && final(interpreter).machine() == old(interpreter).machine(),
        },
{
    match parse_source(input) {
        Ok(ast) => Ok(interpreter.run_ast(&ast, budget)),
        Err(e) => Err(e.message()),
    }
}

} // verus!
