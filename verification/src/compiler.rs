//! The compiler: from the syntax tree to bytecode.
use vstd::prelude::*;
use vstd::string::*;
use crate::ast::{Ast, AstNode, ast_list_view, ast_entries_view, ast_clauses_view, names_view};
pub use crate::bytecode::Instruction;
pub use crate::value::Value;
pub use crate::vm::Vm;
use crate::bytecode::{Instr, code_view};
use crate::lowering::{
    Scoping, Zone, block_code, branches_code, captures, closure_code, compile_spec,
    counting_scope, declare, declared_below, for_loop_code, for_setup_code, enter, entries_code,
    expr_code, exprs_code, free_in, free_in_any, free_in_block, free_in_clauses, free_in_entries,
    free_in_function, initial_scoping, is_declared, is_native_call, is_statement, item_code,
    leave_code, load_instr, members_code, operator_code, program_code, branch_count, resolve,
    resolve_instr, scoped_code, select_free, stmt_code, stmt_scoping, store_back, store_instr,
    unwind_code,
};
use crate::targets::{lemma_compiled_code_is_well_formed, well_formed};
use crate::text::{copy_names, has_name, same_text};

verus! {

// ---------------------------------------------------------------------------
// Free variables
// ---------------------------------------------------------------------------

/// Whether a name occurs free in a node.
pub fn is_free(node: &AstNode, name: &str) -> (r: bool)
    ensures
        r == free_in(node@, name@),
    decreases node, 0nat,
{
    match node {
        AstNode::Program(body) => is_free_in_block(body, name),
        AstNode::Identifier(n) => same_text(n.as_str(), name),
        AstNode::Assignment(target, value) => is_free(target, name) || is_free(value, name),
        AstNode::LocalAssignment(n, value) => is_free(value, name),
        AstNode::BinaryOp(left, op, right) => is_free(left, name) || is_free(right, name),
        AstNode::Not(x) => is_free(x, name),
        AstNode::FunctionCall(n, args) => same_text(n.as_str(), name) || is_free_in_any(
            args,
            name,
        ),
        AstNode::MethodCall(receiver, chain, args) => is_free(receiver, name) || is_free_in_any(
            args,
            name,
        ),
        AstNode::Print(x) => is_free(x, name),
        AstNode::Table(elements) => is_free_in_any(elements, name),
        AstNode::Dictionary(entries) => is_free_in_entries(entries, name),
        AstNode::Index(b, k) => is_free(b, name) || is_free(k, name),
        AstNode::MemberAccess(b, chain) => is_free(b, name),
        AstNode::If(cond, then_body, clauses, else_body) => {
            if is_free(cond, name) || is_free_in_block(then_body, name) || is_free_in_clauses(
                clauses,
                name,
            ) {
                true
            } else {
                match else_body {
                    Some(body) => is_free_in_block(body, name),
                    None => false,
                }
            }
        },
        AstNode::While(cond, body) => is_free(cond, name) || is_free_in_block(body, name),
        AstNode::For(var, start, end, step, body) => {
            if is_free(start, name) || is_free(end, name) {
                return true;
            }
            let in_step = match step {
                Some(s) => is_free(s, name),
                None => false,
            };
            in_step || (!same_text(var.as_str(), name) && is_free_in_block(body, name))
        },
        AstNode::FunctionDef(n, params, body) => same_text(n.as_str(), name) || (!has_name(
            params,
            name,
        ) && is_free_in_block(body, name)),
        AstNode::Lambda(params, body) => !has_name(params, name) && is_free_in_block(body, name),
        AstNode::Return(value) => match value {
            Some(x) => is_free(x, name),
            None => false,
        },
        AstNode::TryCatch(try_body, var, catch_body) => {
            if is_free_in_block(try_body, name) {
                return true;
            }
            let hidden = match var {
                Some(v) => same_text(v.as_str(), name),
                None => false,
            };
            !hidden && is_free_in_block(catch_body, name)
        },
        AstNode::Throw(x) => is_free(x, name),
        AstNode::Block(body) => is_free_in_block(body, name),
        _ => false,
    }
}

fn is_free_in_any(nodes: &Vec<AstNode>, name: &str) -> (r: bool)
    ensures
        r == free_in_any(ast_list_view(*nodes), 0, name@),
    decreases nodes, 1nat,
{
    let mut i: usize = 0;
    while i < nodes.len()
        invariant
            i <= nodes.len(),
            free_in_any(ast_list_view(*nodes), 0, name@) == free_in_any(
                ast_list_view(*nodes),
                i as int,
                name@,
            ),
        decreases nodes.len() - i,
    {
        if is_free(&nodes[i], name) {
            return true;
        }
        i += 1;
    }
    false
}

fn is_free_in_block(nodes: &Vec<AstNode>, name: &str) -> (r: bool)
    ensures
        r == free_in_block(ast_list_view(*nodes), 0, name@),
    decreases nodes, 1nat,
{
    let mut i: usize = 0;
    while i < nodes.len()
        invariant
            i <= nodes.len(),
            free_in_block(ast_list_view(*nodes), 0, name@) == free_in_block(
                ast_list_view(*nodes),
                i as int,
                name@,
            ),
        decreases nodes.len() - i,
    {
        if is_free(&nodes[i], name) {
            return true;
        }
        let hides = match &nodes[i] {
            AstNode::LocalAssignment(n, _) => same_text(n.as_str(), name),
            _ => false,
        };
        if hides {
            return false;
        }
        i += 1;
    }
    false
}

fn is_free_in_entries(entries: &Vec<(String, AstNode)>, name: &str) -> (r: bool)
    ensures
        r == free_in_entries(ast_entries_view(*entries), 0, name@),
    decreases entries, 1nat,
{
    let mut i: usize = 0;
    while i < entries.len()
        invariant
            i <= entries.len(),
            free_in_entries(ast_entries_view(*entries), 0, name@) == free_in_entries(
                ast_entries_view(*entries),
                i as int,
                name@,
            ),
        decreases entries.len() - i,
    {
        if is_free(&entries[i].1, name) {
            return true;
        }
        i += 1;
    }
    false
}

fn is_free_in_clauses(clauses: &Vec<(AstNode, Vec<AstNode>)>, name: &str) -> (r: bool)
    ensures
        r == free_in_clauses(ast_clauses_view(*clauses), 0, name@),
    decreases clauses, 1nat,
{
    let mut i: usize = 0;
    while i < clauses.len()
        invariant
            i <= clauses.len(),
            free_in_clauses(ast_clauses_view(*clauses), 0, name@) == free_in_clauses(
                ast_clauses_view(*clauses),
                i as int,
                name@,
            ),
        decreases clauses.len() - i,
    {
        if is_free(&clauses[i].0, name) || is_free_in_block(&clauses[i].1, name) {
            return true;
        }
        i += 1;
    }
    false
}

/// Whether a name occurs free in a function with these parameters and body.
pub fn is_free_in_function(params: &Vec<String>, body: &Vec<AstNode>, name: &str) -> (r: bool)
    ensures
        r == free_in_function(names_view(params@), ast_list_view(*body), name@),
{
    !has_name(params, name) && is_free_in_block(body, name)
}


// ---------------------------------------------------------------------------
// The compiler's state
// ---------------------------------------------------------------------------

/// One region that encloses the point being compiled.
#[derive(Debug)]
pub enum Region {
    /// A lexical scope and the names declared in it so far.
    Scope(Vec<String>),
    /// A try body whose handler is active.
    Handler,
    /// The start of a loop.
    Loop,
    /// The start of a function body.
    Function,
}

impl View for Region {
    type V = Zone;

    open spec fn view(&self) -> Zone {
        match self {
            Region::Scope(names) => Zone::Scope(names_view(names@)),
            Region::Handler => Zone::Handler,
            Region::Loop => Zone::Loop,
            Region::Function => Zone::Function,
        }
    }
}

/// The regions that a list of regions stands for.
pub open spec fn zones_view(regions: Seq<Region>) -> Seq<Zone> {
    Seq::new(regions.len(), |i: int| regions[i]@)
}

/// A statement changes only the innermost region and adds to the imports.
pub open spec fn extends(before: Scoping, after: Scoping) -> bool {
    &&& after.zones.len() == before.zones.len()
    &&& after.zones.drop_last() == before.zones.drop_last()
    &&& before.imports.len() <= after.imports.len()
    &&& after.imports.subrange(0, before.imports.len() as int) == before.imports
}

proof fn lemma_stmt_extends(s: Ast, cx: Scoping)
    ensures
        extends(cx, stmt_scoping(s, cx)),
{
    let after = stmt_scoping(s, cx);
    assert(after.zones.drop_last() =~= cx.zones.drop_last());
    assert(after.imports.subrange(0, cx.imports.len() as int) =~= cx.imports);
}

proof fn lemma_extends_chain(a: Scoping, b: Scoping, c: Scoping)
    requires
        extends(a, b),
        extends(b, c),
    ensures
        extends(a, c),
{
    assert(c.imports.subrange(0, a.imports.len() as int) =~= b.imports.subrange(
        0,
        a.imports.len() as int,
    ));
}

/// The compiler: the code emitted so far and what is known at this point.
pub struct Compiler {
    code: Vec<Instruction>,
    regions: Vec<Region>,
    imports: Vec<String>,
}

impl Compiler {
    /// The instructions emitted so far.
    pub closed spec fn emitted(&self) -> Seq<Instr> {
        code_view(self.code@)
    }

    /// What is known at the point being compiled.
    pub closed spec fn scoping(&self) -> Scoping {
        Scoping { zones: zones_view(self.regions@), imports: names_view(self.imports@) }
    }

    /// A compiler at the start of a program.
    pub fn new() -> (r: Compiler)
        ensures
            r.emitted() == Seq::<Instr>::empty(),
            r.scoping() == initial_scoping(),
    {
        let mut regions: Vec<Region> = Vec::new();
        regions.push(Region::Scope(Vec::new()));
        let r = Compiler { code: Vec::new(), regions, imports: Vec::new() };
        assert(r.emitted() =~= Seq::<Instr>::empty());
        assert(names_view(Seq::<String>::empty()) =~= Seq::<Seq<char>>::empty());
        assert(r.scoping().zones =~= initial_scoping().zones);
        assert(r.scoping().imports =~= initial_scoping().imports);
        r
    }

    /// Compiles a tree to bytecode. The code is well formed: every jump in it
    /// lands in the code or at its end.
    pub fn compile(ast: &AstNode) -> (code: Vec<Instruction>)
        ensures
            code_view(code@) == compile_spec(ast@),
            well_formed(code_view(code@)),
    {
        proof {
            lemma_compiled_code_is_well_formed(ast@);
        }
        let mut compiler = Compiler::new();
        match ast {
            AstNode::Program(body) => compiler.compile_program(body),
            _ => compiler.compile_item(ast),
        }
        assert(Seq::<Instr>::empty() + compile_spec(ast@) =~= compile_spec(ast@));
        compiler.code
    }

    fn emit(&mut self, ins: Instruction)
        ensures
            final(self).emitted() == old(self).emitted().push(ins@),
            final(self).scoping() == old(self).scoping(),
            final(self).code.len() == old(self).code.len() + 1,
    {
        self.code.push(ins);
        assert(self.emitted() =~= old(self).emitted().push(ins@));
    }

    fn patch(&mut self, at: usize, ins: Instruction)
        requires
            at < old(self).code.len(),
        ensures
            final(self).emitted() == old(self).emitted().update(at as int, ins@),
            final(self).scoping() == old(self).scoping(),
            final(self).code.len() == old(self).code.len(),
    {
        self.code.set(at, ins);
        assert(self.emitted() =~= old(self).emitted().update(at as int, ins@));
    }

    fn position(&self) -> (r: usize)
        ensures
            r == self.emitted().len(),
            r == self.code.len(),
    {
        self.code.len()
    }

    fn open_region(&mut self, region: Region)
        ensures
            final(self).scoping() == enter(old(self).scoping(), region@),
            final(self).emitted() == old(self).emitted(),
            final(self).code.len() == old(self).code.len(),
            final(self).regions.len() == old(self).regions.len() + 1,
            final(self).imports.len() == old(self).imports.len(),
    {
        self.regions.push(region);
        assert(self.scoping().zones =~= old(self).scoping().zones.push(region@));
    }

    /// Forgets the regions above `depth` and the imports after the first
    /// `imports`.
    fn close_regions(&mut self, depth: usize, imports: usize)
        requires
            depth <= old(self).regions.len(),
            imports <= old(self).imports.len(),
        ensures
            final(self).scoping().zones == old(self).scoping().zones.subrange(0, depth as int),
            final(self).scoping().imports == old(self).scoping().imports.subrange(
                0,
                imports as int,
            ),
            final(self).emitted() == old(self).emitted(),
            final(self).code.len() == old(self).code.len(),
            final(self).regions.len() == depth,
            final(self).imports.len() == imports,
    {
        self.regions.truncate(depth);
        self.imports.truncate(imports);
        assert(self.scoping().zones =~= old(self).scoping().zones.subrange(0, depth as int));
        assert(self.scoping().imports =~= old(self).scoping().imports.subrange(
            0,
            imports as int,
        ));
    }

    fn depth(&self) -> (r: usize)
        ensures
            r == self.regions.len(),
            r == self.scoping().zones.len(),
    {
        self.regions.len()
    }

    fn import_count(&self) -> (r: usize)
        ensures
            r == self.imports.len(),
            r == self.scoping().imports.len(),
    {
        self.imports.len()
    }

    /// Adds a name to the innermost scope.
    fn declare_local(&mut self, name: &str)
        ensures
            final(self).scoping() == declare(old(self).scoping(), name@),
            final(self).emitted() == old(self).emitted(),
            final(self).code.len() == old(self).code.len(),
            final(self).regions.len() == old(self).regions.len(),
            final(self).imports.len() == old(self).imports.len(),
    {
        let ghost before = self.scoping();
        match self.regions.pop() {
            Some(Region::Scope(mut names)) => {
                let ghost held = names_view(names@);
                names.push(String::from_str(name));
                assert(names_view(names@) =~= held.push(name@));
                self.regions.push(Region::Scope(names));
                assert(self.scoping().zones =~= declare(before, name@).zones);
            },
            Some(other) => {
                self.regions.push(other);
                assert(self.scoping().zones =~= before.zones);
            },
            None => {
                assert(self.scoping().zones =~= before.zones);
            },
        }
    }

    fn add_import(&mut self, module: &str)
        ensures
            final(self).scoping() == (Scoping {
                zones: old(self).scoping().zones,
                imports: old(self).scoping().imports.push(module@),
            }),
            final(self).emitted() == old(self).emitted(),
            final(self).code.len() == old(self).code.len(),
    {
        self.imports.push(String::from_str(module));
        assert(self.scoping().imports =~= old(self).scoping().imports.push(module@));
    }

    /// Whether a name is declared in an enclosing scope.
    fn is_local(&self, name: &str) -> (r: bool)
        ensures
            r == is_declared(self.scoping(), name@),
    {
        let ghost zones = self.scoping().zones;
        let mut i: usize = 0;
        while i < self.regions.len()
            invariant
                i <= self.regions.len(),
                zones == self.scoping().zones,
                !declared_below(zones, i as int, name@),
            decreases self.regions.len() - i,
        {
            let found = match &self.regions[i] {
                Region::Scope(names) => has_name(names, name),
                _ => false,
            };
            if found {
                proof {
                    lemma_declared_above(zones, i + 1, zones.len() as int, name@);
                }
                return true;
            }
            i += 1;
        }
        false
    }

    fn load(&self, name: &str) -> (r: Instruction)
        ensures
            r@ == load_instr(self.scoping(), name@),
    {
        if self.is_local(name) {
            Instruction::LoadLocal(String::from_str(name))
        } else {
            Instruction::LoadGlobal(String::from_str(name))
        }
    }

    fn store(&self, name: &str) -> (r: Instruction)
        ensures
            r@ == store_instr(self.scoping(), name@),
    {
        if self.is_local(name) {
            Instruction::StoreLocal(String::from_str(name))
        } else {
            Instruction::StoreGlobal(String::from_str(name))
        }
    }

    fn emit_operator(&mut self, op: &str)
        ensures
            final(self).emitted() == old(self).emitted() + operator_code(op@),
            final(self).scoping() == old(self).scoping(),
    {
        let ins = if same_text(op, "+") {
            Instruction::Add
        } else if same_text(op, "-") {
            Instruction::Sub
        } else if same_text(op, "*") {
            Instruction::Mul
        } else if same_text(op, "/") {
            Instruction::Div
        } else if same_text(op, "%") {
            Instruction::Mod
        } else if same_text(op, "..") {
            Instruction::Concat
        } else if same_text(op, "==") {
            Instruction::Equal
        } else if same_text(op, "~=") {
            Instruction::NotEqual
        } else if same_text(op, "<") {
            Instruction::Less
        } else if same_text(op, ">") {
            Instruction::Greater
        } else if same_text(op, "<=") {
            Instruction::LessEqual
        } else if same_text(op, ">=") {
            Instruction::GreaterEqual
        } else if same_text(op, "and") {
            Instruction::And
        } else if same_text(op, "or") {
            Instruction::Or
        } else {
            self.emit(Instruction::Pop);
            self.emit(Instruction::Pop);
            self.emit(Instruction::PushNil);
            assert(self.emitted() =~= old(self).emitted() + operator_code(op@));
            return ;
        };
        self.emit(ins);
        assert(self.emitted() =~= old(self).emitted() + operator_code(op@));
    }

    /// Emits a member load for each of the first `count` names of a chain.
    fn emit_members(&mut self, chain: &Vec<String>, count: usize)
        requires
            count <= chain.len(),
        ensures
            final(self).emitted() == old(self).emitted() + members_code(
                names_view(chain@).subrange(0, count as int),
            ),
            final(self).scoping() == old(self).scoping(),
    {
        let ghost start = self.emitted();
        let mut i: usize = 0;
        assert(self.emitted() =~= start + members_code(names_view(chain@).subrange(0, 0)));
        while i < count
            invariant
                i <= count <= chain.len(),
                self.scoping() == old(self).scoping(),
                self.emitted() == start + members_code(names_view(chain@).subrange(0, i as int)),
            decreases count - i,
        {
            self.emit(Instruction::LoadMember(chain[i].clone()));
            i += 1;
            assert(self.emitted() =~= start + members_code(
                names_view(chain@).subrange(0, i as int),
            ));
        }
    }

    /// The names that a function with these parameters and body captures.
    fn collect_captures(&self, params: &Vec<String>, body: &Vec<AstNode>) -> (r: Vec<String>)
        ensures
            names_view(r@) == captures(
                self.scoping().zones,
                self.scoping().zones.len() as int,
                names_view(params@),
                ast_list_view(*body),
            ),
    {
        let ghost zones = self.scoping().zones;
        let ghost ps = names_view(params@);
        let ghost bs = ast_list_view(*body);
        let mut out: Vec<String> = Vec::new();
        let mut i: usize = 0;
        assert(names_view(out@) =~= Seq::empty());
        while i < self.regions.len()
            invariant
                i <= self.regions.len(),
                zones == self.scoping().zones,
                ps == names_view(params@),
                bs == ast_list_view(*body),
                names_view(out@) == captures(zones, i as int, ps, bs),
            decreases self.regions.len() - i,
        {
            match &self.regions[i] {
                Region::Scope(names) => {
                    let ghost before = names_view(out@);
                    let mut j: usize = 0;
                    assert(names_view(out@) =~= before + select_free(names_view(names@), 0, ps, bs));
                    while j < names.len()
                        invariant
                            j <= names.len(),
                            ps == names_view(params@),
                            bs == ast_list_view(*body),
                            names_view(out@) == before + select_free(
                                names_view(names@),
                                j as int,
                                ps,
                                bs,
                            ),
                        decreases names.len() - j,
                    {
                        if is_free_in_function(params, body, names[j].as_str()) {
                            let ghost held = names_view(out@);
                            out.push(names[j].clone());
                            assert(names_view(out@) =~= held.push(names[j as int]@));
                        }
                        j += 1;
                        assert(names_view(out@) =~= before + select_free(
                            names_view(names@),
                            j as int,
                            ps,
                            bs,
                        ));
                    }
                },
                _ => {},
            }
            i += 1;
        }
        out
    }
}

proof fn lemma_declared_above(zones: Seq<Zone>, mid: int, hi: int, name: Seq<char>)
    requires
        0 <= mid <= hi,
        declared_below(zones, mid, name),
    ensures
        declared_below(zones, hi, name),
    decreases hi - mid,
{
    if mid < hi {
        lemma_declared_above(zones, mid, hi - 1, name);
    }
}


fn statement_node(node: &AstNode) -> (r: bool)
    ensures
        r == is_statement(node@),
{
    match node {
        AstNode::Assignment(_, _) => true,
        AstNode::LocalAssignment(_, _) => true,
        AstNode::Print(_) => true,
        AstNode::Import(_) => true,
        AstNode::If(_, _, _, _) => true,
        AstNode::While(_, _) => true,
        AstNode::For(_, _, _, _, _) => true,
        AstNode::FunctionDef(_, _, _) => true,
        AstNode::Return(_) => true,
        AstNode::Break => true,
        AstNode::Continue => true,
        AstNode::TryCatch(_, _, _) => true,
        AstNode::Throw(_) => true,
        AstNode::Block(_) => true,
        _ => false,
    }
}

impl Compiler {
    /// Emits the code of an expression.
    fn compile_expr(&mut self, node: &AstNode)
        ensures
            final(self).emitted() == old(self).emitted() + expr_code(
                node@,
                old(self).emitted().len() as int,
                old(self).scoping(),
            ),
            final(self).scoping() == old(self).scoping(),
        decreases node, 0nat,
    {
        let ghost start = self.emitted();
        let ghost base = self.emitted().len() as int;
        let ghost cx = self.scoping();
        match node {
            AstNode::Number(text) => {
                self.emit(Instruction::PushNumber(text.clone()));
                assert(self.emitted() =~= start + expr_code(node@, base, cx));
            },
            AstNode::String(text) => {
                self.emit(Instruction::PushString(text.clone()));
                assert(self.emitted() =~= start + expr_code(node@, base, cx));
            },
            AstNode::Boolean(b) => {
                self.emit(Instruction::PushBoolean(*b));
                assert(self.emitted() =~= start + expr_code(node@, base, cx));
            },
            AstNode::Nil => {
                self.emit(Instruction::PushNil);
                assert(self.emitted() =~= start + expr_code(node@, base, cx));
            },
            AstNode::Identifier(name) => {
                let ins = self.load(name.as_str());
                self.emit(ins);
                assert(self.emitted() =~= start + expr_code(node@, base, cx));
            },
            AstNode::BinaryOp(left, op, right) => {
                self.compile_expr(left);
                self.compile_expr(right);
                self.emit_operator(op.as_str());
                assert(self.emitted() =~= start + expr_code(node@, base, cx));
            },
            AstNode::Not(x) => {
                self.compile_expr(x);
                self.emit(Instruction::Not);
                assert(self.emitted() =~= start + expr_code(node@, base, cx));
            },
            AstNode::FunctionCall(name, args) => {
                let ins = self.load(name.as_str());
                self.emit(ins);
                self.compile_exprs(args);
                self.emit(Instruction::Call(args.len()));
                assert(self.emitted() =~= start + expr_code(node@, base, cx));
            },
            AstNode::MethodCall(receiver, chain, args) => {
                let native = match &**receiver {
                    AstNode::Identifier(module) => chain.len() == 1 && has_name(
                        &self.imports,
                        module.as_str(),
                    ) && !self.is_local(module.as_str()),
                    _ => false,
                };
                assert(native == is_native_call(receiver@, names_view(chain@), cx));
                if native {
                    self.compile_exprs(args);
                    match &**receiver {
                        AstNode::Identifier(module) => {
                            self.emit(
                                Instruction::NativeCall(
                                    module.clone(),
                                    chain[0].clone(),
                                    args.len(),
                                ),
                            );
                        },
                        _ => {},
                    }
                    assert(self.emitted() =~= start + expr_code(node@, base, cx));
                } else {
                    self.compile_expr(receiver);
                    self.emit_members(chain, chain.len());
                    assert(names_view(chain@).subrange(0, chain.len() as int) =~= names_view(
                        chain@,
                    ));
                    self.compile_exprs(args);
                    self.emit(Instruction::Call(args.len()));
                    assert(self.emitted() =~= start + expr_code(node@, base, cx));
                }
            },
            AstNode::Print(x) => {
                self.compile_expr(x);
                self.emit(Instruction::Print);
                self.emit(Instruction::PushNil);
                assert(self.emitted() =~= start + expr_code(node@, base, cx));
            },
            AstNode::Table(elements) => {
                self.compile_exprs(elements);
                self.emit(Instruction::MakeTable(elements.len()));
                assert(self.emitted() =~= start + expr_code(node@, base, cx));
            },
            AstNode::Dictionary(entries) => {
                self.compile_entries(entries);
                self.emit(Instruction::MakeDictionary(entries.len()));
                assert(self.emitted() =~= start + expr_code(node@, base, cx));
            },
            AstNode::Index(b, k) => {
                self.compile_expr(b);
                self.compile_expr(k);
                self.emit(Instruction::LoadIndex);
                assert(self.emitted() =~= start + expr_code(node@, base, cx));
            },
            AstNode::MemberAccess(b, chain) => {
                self.compile_expr(b);
                self.emit_members(chain, chain.len());
                assert(names_view(chain@).subrange(0, chain.len() as int) =~= names_view(chain@));
                assert(self.emitted() =~= start + expr_code(node@, base, cx));
            },
            AstNode::Lambda(params, body) => {
                self.compile_closure(params, body);
            },
            _ => {
                self.emit(Instruction::PushNil);
                assert(self.emitted() =~= start + expr_code(node@, base, cx));
            },
        }
    }

    /// Emits the code of a list of expressions, one after the other.
    fn compile_exprs(&mut self, nodes: &Vec<AstNode>)
        ensures
            final(self).emitted() == old(self).emitted() + exprs_code(
                ast_list_view(*nodes),
                0,
                old(self).emitted().len() as int,
                old(self).scoping(),
            ),
            final(self).scoping() == old(self).scoping(),
        decreases nodes, 1nat,
    {
        let ghost start = self.emitted();
        let ghost cx = self.scoping();
        let ghost list = ast_list_view(*nodes);
        let ghost whole = start + exprs_code(list, 0, start.len() as int, cx);
        let mut i: usize = 0;
        while i < nodes.len()
            invariant
                i <= nodes.len(),
                list == ast_list_view(*nodes),
                self.scoping() == cx,
                whole == self.emitted() + exprs_code(
                    list,
                    i as int,
                    self.emitted().len() as int,
                    cx,
                ),
            decreases nodes.len() - i,
        {
            let ghost before = self.emitted();
            self.compile_expr(&nodes[i]);
            proof {
                let first = expr_code(list[i as int], before.len() as int, cx);
                let rest = exprs_code(list, i + 1, (before.len() + first.len()) as int, cx);
                assert(before + (first + rest) =~= (before + first) + rest);
            }
            i += 1;
        }
        assert(self.emitted() + Seq::<Instr>::empty() =~= self.emitted());
    }

    /// Emits the code of the entries of a dictionary literal.
    fn compile_entries(&mut self, entries: &Vec<(String, AstNode)>)
        ensures
            final(self).emitted() == old(self).emitted() + entries_code(
                ast_entries_view(*entries),
                0,
                old(self).emitted().len() as int,
                old(self).scoping(),
            ),
            final(self).scoping() == old(self).scoping(),
        decreases entries, 1nat,
    {
        let ghost start = self.emitted();
        let ghost cx = self.scoping();
        let ghost list = ast_entries_view(*entries);
        let ghost whole = start + entries_code(list, 0, start.len() as int, cx);
        let mut i: usize = 0;
        while i < entries.len()
            invariant
                i <= entries.len(),
                list == ast_entries_view(*entries),
                self.scoping() == cx,
                whole == self.emitted() + entries_code(
                    list,
                    i as int,
                    self.emitted().len() as int,
                    cx,
                ),
            decreases entries.len() - i,
        {
            let ghost before = self.emitted();
            self.emit(Instruction::PushString(entries[i].0.clone()));
            self.compile_expr(&entries[i].1);
            proof {
                let first = seq![Instr::PushString(list[i as int].0)] + expr_code(
                    list[i as int].1,
                    (before.len() + 1) as int,
                    cx,
                );
                let rest = entries_code(list, i + 1, (before.len() + first.len()) as int, cx);
                assert(self.emitted() =~= before + first);
                assert(before + (first + rest) =~= (before + first) + rest);
            }
            i += 1;
        }
        assert(self.emitted() + Seq::<Instr>::empty() =~= self.emitted());
    }

    /// Emits a function value: a jump over the body, the body, and the
    /// closure over it.
    fn compile_closure(&mut self, params: &Vec<String>, body: &Vec<AstNode>)
        ensures
            final(self).emitted() == old(self).emitted() + closure_code(
                names_view(params@),
                ast_list_view(*body),
                old(self).emitted().len() as int,
                old(self).scoping(),
            ),
            final(self).scoping() == old(self).scoping(),
        decreases body, 1nat,
    {
        let ghost start = self.emitted();
        let ghost base = self.emitted().len() as int;
        let ghost cx = self.scoping();
        let captured = self.collect_captures(params, body);
        let depth = self.depth();
        let imports = self.import_count();
        let jump_at = self.position();
        self.emit(Instruction::Jump(0));
        let entry = self.position();
        self.open_region(Region::Function);
        self.open_region(Region::Scope(copy_names(params)));
        let ghost inner = self.scoping();
        assert(inner == enter(enter(cx, Zone::Function), Zone::Scope(names_view(params@))));
        self.compile_block(body);
        self.emit(Instruction::PushNil);
        self.emit(Instruction::Return);
        let end = self.position();
        self.patch(jump_at, Instruction::Jump(end));
        self.emit(Instruction::MakeClosure(copy_names(params), entry, captured));
        proof {
            assert(self.scoping().zones.subrange(0, depth as int) =~= cx.zones);
            assert(self.scoping().imports.subrange(0, imports as int) =~= cx.imports);
        }
        self.close_regions(depth, imports);
        assert(self.emitted() =~= start + closure_code(
            names_view(params@),
            ast_list_view(*body),
            base,
            cx,
        ));
    }

    /// Emits the code of a statement list.
    fn compile_block(&mut self, stmts: &Vec<AstNode>)
        ensures
            final(self).emitted() == old(self).emitted() + block_code(
                ast_list_view(*stmts),
                0,
                old(self).emitted().len() as int,
                old(self).scoping(),
            ),
            extends(old(self).scoping(), final(self).scoping()),
        decreases stmts, 0nat,
    {
        let ghost start = self.emitted();
        let ghost cx = self.scoping();
        let ghost list = ast_list_view(*stmts);
        let ghost whole = start + block_code(list, 0, start.len() as int, cx);
        let mut i: usize = 0;
        assert(cx.imports.subrange(0, cx.imports.len() as int) =~= cx.imports);
        while i < stmts.len()
            invariant
                i <= stmts.len(),
                list == ast_list_view(*stmts),
                extends(cx, self.scoping()),
                whole == self.emitted() + block_code(
                    list,
                    i as int,
                    self.emitted().len() as int,
                    self.scoping(),
                ),
            decreases stmts.len() - i,
        {
            let ghost before = self.emitted();
            let ghost here = self.scoping();
            self.compile_node(&stmts[i]);
            proof {
                let first = stmt_code(list[i as int], before.len() as int, here);
                let rest = block_code(
                    list,
                    i + 1,
                    (before.len() + first.len()) as int,
                    stmt_scoping(list[i as int], here),
                );
                assert(before + (first + rest) =~= (before + first) + rest);
                lemma_stmt_extends(list[i as int], here);
                lemma_extends_chain(cx, here, self.scoping());
            }
            i += 1;
        }
        assert(self.emitted() + Seq::<Instr>::empty() =~= self.emitted());
    }

    /// Emits the code of the top-level statements.
    fn compile_program(&mut self, stmts: &Vec<AstNode>)
        ensures
            final(self).emitted() == old(self).emitted() + program_code(
                ast_list_view(*stmts),
                0,
                old(self).emitted().len() as int,
                old(self).scoping(),
            ),
        decreases stmts, 0nat,
    {
        let ghost start = self.emitted();
        let ghost cx = self.scoping();
        let ghost list = ast_list_view(*stmts);
        let ghost whole = start + program_code(list, 0, start.len() as int, cx);
        let mut i: usize = 0;
        while i < stmts.len()
            invariant
                i <= stmts.len(),
                list == ast_list_view(*stmts),
                whole == self.emitted() + program_code(
                    list,
                    i as int,
                    self.emitted().len() as int,
                    self.scoping(),
                ),
            decreases stmts.len() - i,
        {
            let ghost before = self.emitted();
            let ghost here = self.scoping();
            self.compile_item(&stmts[i]);
            proof {
                let first = item_code(list[i as int], before.len() as int, here);
                let rest = program_code(
                    list,
                    i + 1,
                    (before.len() + first.len()) as int,
                    stmt_scoping(list[i as int], here),
                );
                assert(before + (first + rest) =~= (before + first) + rest);
            }
            i += 1;
        }
        assert(self.emitted() + Seq::<Instr>::empty() =~= self.emitted());
    }

    /// Emits a statement list in a scope of its own.
    fn compile_scoped(&mut self, body: &Vec<AstNode>)
        ensures
            final(self).emitted() == old(self).emitted() + scoped_code(
                ast_list_view(*body),
                old(self).emitted().len() as int,
                old(self).scoping(),
            ),
            final(self).scoping() == old(self).scoping(),
        decreases body, 1nat,
    {
        let ghost start = self.emitted();
        let ghost base = self.emitted().len() as int;
        let ghost cx = self.scoping();
        let depth = self.depth();
        let imports = self.import_count();
        self.emit(Instruction::EnterScope);
        let names: Vec<String> = Vec::new();
        assert(names_view(names@) =~= Seq::empty());
        self.open_region(Region::Scope(names));
        self.compile_block(body);
        self.emit(Instruction::ExitScope);
        proof {
            assert(self.scoping().zones.subrange(0, depth as int) =~= cx.zones);
            assert(self.scoping().imports.subrange(0, imports as int) =~= cx.imports);
        }
        self.close_regions(depth, imports);
        assert(self.emitted() =~= start + scoped_code(ast_list_view(*body), base, cx));
    }

    /// Emits a top-level node: a statement as a statement, an expression so
    /// that its value stays on the stack.
    fn compile_item(&mut self, node: &AstNode)
        ensures
            final(self).emitted() == old(self).emitted() + item_code(
                node@,
                old(self).emitted().len() as int,
                old(self).scoping(),
            ),
            final(self).scoping() == stmt_scoping(node@, old(self).scoping()),
        decreases node, branch_count(node@) + 3,
    {
        if statement_node(node) {
            self.compile_node(node);
        } else {
            self.compile_expr(node);
        }
    }

    /// Emits the code of a statement.
    fn compile_node(&mut self, node: &AstNode)
        ensures
            final(self).emitted() == old(self).emitted() + stmt_code(
                node@,
                old(self).emitted().len() as int,
                old(self).scoping(),
            ),
            final(self).scoping() == stmt_scoping(node@, old(self).scoping()),
        decreases node, branch_count(node@) + 2,
    {
        let ghost start = self.emitted();
        let ghost base = self.emitted().len() as int;
        let ghost cx = self.scoping();
        match node {
            AstNode::Assignment(_, _) => {
                self.compile_assignment(node);
            },
            AstNode::LocalAssignment(name, value) => {
                self.declare_local(name.as_str());
                self.compile_expr(value);
                self.emit(Instruction::DeclareLocal(name.clone()));
                assert(self.emitted() =~= start + stmt_code(node@, base, cx));
            },
            AstNode::Print(x) => {
                self.compile_expr(x);
                self.emit(Instruction::Print);
                assert(self.emitted() =~= start + stmt_code(node@, base, cx));
            },
            AstNode::Import(module) => {
                self.emit(Instruction::Import(module.clone()));
                self.add_import(module.as_str());
                assert(self.emitted() =~= start + stmt_code(node@, base, cx));
            },
            AstNode::If(_, _, _, _) => {
                self.compile_branches(node, true, 0);
            },
            AstNode::While(_, _) => {
                self.compile_while(node);
            },
            AstNode::For(_, _, _, _, _) => {
                self.compile_for(node);
            },
            AstNode::FunctionDef(name, params, body) => {
                self.compile_closure(params, body);
                let ins = self.store(name.as_str());
                self.emit(ins);
                assert(self.emitted() =~= start + stmt_code(node@, base, cx));
            },
            AstNode::Return(value) => {
                match value {
                    Some(x) => {
                        self.compile_expr(x);
                    },
                    None => {
                        self.emit(Instruction::PushNil);
                    },
                }
                self.emit(Instruction::Return);
                assert(self.emitted() =~= start + stmt_code(node@, base, cx));
            },
            AstNode::Break => {
                self.emit_leave(Instruction::Break);
            },
            AstNode::Continue => {
                self.emit_leave(Instruction::Continue);
            },
            AstNode::TryCatch(_, _, _) => {
                self.compile_try(node);
            },
            AstNode::Throw(x) => {
                self.compile_expr(x);
                self.emit(Instruction::Throw);
                assert(self.emitted() =~= start + stmt_code(node@, base, cx));
            },
            AstNode::Block(body) => {
                self.compile_scoped(body);
            },
            _ => {
                self.compile_expr(node);
                self.emit(Instruction::Pop);
                assert(self.emitted() =~= start + stmt_code(node@, base, cx));
            },
        }
    }

    /// Emits what `break` or `continue` needs: the code that leaves the
    /// regions inside the loop, then the pending jump; outside a loop, a
    /// no-op.
    fn emit_leave(&mut self, pending: Instruction)
        requires
            pending@ == Instr::Break || pending@ == Instr::Continue,
        ensures
            final(self).emitted() == old(self).emitted() + leave_code(
                old(self).scoping(),
                pending@,
            ),
            final(self).scoping() == old(self).scoping(),
    {
        let ghost start = self.emitted();
        let ghost cx = self.scoping();
        let ghost zones = cx.zones;
        let ghost mut acc: Seq<Instr> = Seq::empty();
        let begin = self.position();
        let mut i: usize = self.regions.len();
        let mut found = false;
        let mut open = true;
        assert(start + acc =~= start);
        while open && i > 0
            invariant
                i <= self.regions.len(),
                self.scoping() == cx,
                zones == cx.zones,
                self.emitted() == start + acc,
                begin == start.len(),
                unwind_code(zones, zones.len() as int) == match unwind_code(zones, i as int) {
                    Some(rest) => Some(acc + rest),
                    None => None::<Seq<Instr>>,
                },
                !open ==> i > 0 && (found <==> zones[i - 1] is Loop) && (zones[i - 1] is Loop
                    || zones[i - 1] is Function),
                open ==> !found,
            decreases i, open as int,
        {
            let ghost before = acc;
            match &self.regions[i - 1] {
                Region::Loop => {
                    found = true;
                    open = false;
                },
                Region::Function => {
                    open = false;
                },
                Region::Scope(_) => {
                    self.emit(Instruction::ExitScope);
                    proof {
                        acc = acc.push(Instr::ExitScope);
                        assert(self.emitted() =~= start + acc);
                        match unwind_code(zones, i - 1) {
                            Some(rest) => {
                                assert(before + (seq![Instr::ExitScope] + rest) =~= acc + rest);
                            },
                            None => {},
                        }
                    }
                    i -= 1;
                },
                Region::Handler => {
                    self.emit(Instruction::PopHandler);
                    proof {
                        acc = acc.push(Instr::PopHandler);
                        assert(self.emitted() =~= start + acc);
                        match unwind_code(zones, i - 1) {
                            Some(rest) => {
                                assert(before + (seq![Instr::PopHandler] + rest) =~= acc + rest);
                            },
                            None => {},
                        }
                    }
                    i -= 1;
                },
            }
        }
        if found {
            assert(acc + Seq::<Instr>::empty() =~= acc);
            self.emit(pending);
            assert(self.emitted() =~= start + leave_code(cx, pending@));
        } else {
            let ghost held = self.code@;
            self.code.truncate(begin);
            assert forall|j: int| 0 <= j < begin implies self.emitted()[j] == start[j] by {
                assert(code_view(held)[j] == held[j]@);
                assert((start + acc)[j] == start[j]);
            }
            assert(self.emitted() =~= start);
            self.emit(Instruction::Nop);
            assert(self.emitted() =~= start + leave_code(cx, pending@));
        }
    }

    /// Gives the pending jumps in `lo..hi` their targets.
    fn resolve_range(&mut self, lo: usize, hi: usize, break_to: usize, continue_to: usize)
        requires
            lo <= hi <= old(self).code.len(),
        ensures
            final(self).emitted() == old(self).emitted().subrange(0, lo as int) + resolve(
                old(self).emitted().subrange(lo as int, hi as int),
                break_to as int,
                continue_to as int,
            ) + old(self).emitted().subrange(hi as int, old(self).emitted().len() as int),
            final(self).scoping() == old(self).scoping(),
            final(self).code.len() == old(self).code.len(),
    {
        let ghost start = self.emitted();
        let mut i: usize = lo;
        while i < hi
            invariant
                lo <= i <= hi <= self.code.len(),
                self.code.len() == old(self).code.len(),
                self.scoping() == old(self).scoping(),
                self.emitted().len() == start.len(),
                start == old(self).emitted(),
                forall|j: int|
                    0 <= j < start.len() ==> #[trigger] self.emitted()[j] == if lo <= j < i {
                        resolve_instr(start[j], break_to as int, continue_to as int)
                    } else {
                        start[j]
                    },
            decreases hi - i,
        {
            let ghost before = self.emitted();
            assert(before[i as int] == start[i as int]);
            assert(before[i as int] == self.code[i as int]@);
            match &self.code[i] {
                Instruction::Break => {
                    self.patch(i, Instruction::Jump(break_to));
                },
                Instruction::Continue => {
                    self.patch(i, Instruction::Jump(continue_to));
                },
                _ => {},
            }
            i += 1;
        }
        assert(self.emitted() =~= start.subrange(0, lo as int) + resolve(
            start.subrange(lo as int, hi as int),
            break_to as int,
            continue_to as int,
        ) + start.subrange(hi as int, start.len() as int));
    }
}


impl Compiler {
    fn store_back_instr(&self, container: &AstNode) -> (r: Instruction)
        ensures
            r@ == store_back(container@, self.scoping()),
    {
        match container {
            AstNode::Identifier(name) => self.store(name.as_str()),
            _ => Instruction::Pop,
        }
    }

    /// Emits an assignment: to a variable, to an index of a container, or to
    /// a member of one.
    fn compile_assignment(&mut self, node: &AstNode)
        requires
            node@ is Assignment,
        ensures
            final(self).emitted() == old(self).emitted() + stmt_code(
                node@,
                old(self).emitted().len() as int,
                old(self).scoping(),
            ),
            final(self).scoping() == old(self).scoping(),
        decreases node, 1nat,
    {
        let ghost start = self.emitted();
        let ghost base = self.emitted().len() as int;
        let ghost cx = self.scoping();
        match node {
            AstNode::Assignment(target, value) => {
                match &**target {
                    AstNode::Identifier(name) => {
                        assert(target@ == Ast::Identifier(name@));
                        self.compile_expr(value);
                        let ins = self.store(name.as_str());
                        self.emit(ins);
                        assert(self.emitted() =~= start + stmt_code(node@, base, cx));
                    },
                    AstNode::Index(container, key) => {
                        assert(target@ == Ast::Index(Box::new(container@), Box::new(key@)));
                        self.compile_expr(container);
                        self.compile_expr(key);
                        self.compile_expr(value);
                        self.emit(Instruction::StoreIndex);
                        let ins = self.store_back_instr(container);
                        self.emit(ins);
                        assert(self.emitted() =~= start + stmt_code(node@, base, cx));
                    },
                    AstNode::MemberAccess(container, chain) => {
                        assert(target@ == Ast::MemberAccess(
                            Box::new(container@),
                            names_view(chain@),
                        ));
                        if chain.len() == 0 {
                            self.compile_expr(value);
                            self.emit(Instruction::Pop);
                            assert(names_view(chain@).len() == 0);
                            assert(self.emitted() =~= start + stmt_code(node@, base, cx));
                        } else {
                            let last = chain.len() - 1;
                            self.compile_expr(container);
                            self.emit_members(chain, last);
                            assert(names_view(chain@).subrange(0, last as int) =~= names_view(
                                chain@,
                            ).drop_last());
                            self.compile_expr(value);
                            self.emit(Instruction::StoreMember(chain[last].clone()));
                            if chain.len() == 1 {
                                let ins = self.store_back_instr(container);
                                self.emit(ins);
                            } else {
                                self.emit(Instruction::Pop);
                            }
                            assert(self.emitted() =~= start + stmt_code(node@, base, cx));
                        }
                    },
                    _ => {
                        assert(!(target@ is Identifier) && !(target@ is Index) && !(target@
                            is MemberAccess));
                        self.compile_expr(value);
                        self.emit(Instruction::Pop);
                        assert(self.emitted() =~= start + stmt_code(node@, base, cx));
                    },
                }
            },
            _ => {},
        }
    }

    /// Emits the branches of an `if`: the `if` itself where `first` holds,
    /// else from elseif clause `clause` on, and the else-body after the last
    /// clause. The jumps of a branch are emitted without their targets and
    /// patched once the targets are known.
    fn compile_branches(&mut self, node: &AstNode, first: bool, clause: usize)
        requires
            node@ is If,
            clause <= node@->If_2.len(),
            first ==> clause == 0,
        ensures
            final(self).emitted() == old(self).emitted() + branches_code(
                node@,
                if first {
                    0
                } else {
                    clause + 1
                },
                old(self).emitted().len() as int,
                old(self).scoping(),
            ),
            final(self).scoping() == old(self).scoping(),
        decreases node,
            (branch_count(node@) - (if first {
                0
            } else {
                clause + 1
            })) as nat,
    {
        let ghost start = self.emitted();
        let ghost base = self.emitted().len() as int;
        let ghost cx = self.scoping();
        let ghost i: int = if first {
            0
        } else {
            clause + 1
        };
        match node {
            AstNode::If(cond, then_body, clauses, else_body) => {
                assert(node@->If_2 == ast_clauses_view(*clauses));
                assert(ast_clauses_view(*clauses).len() == clauses.len());
                assert(clause < clauses.len() ==> ast_clauses_view(*clauses)[clause as int] == (
                    clauses[clause as int].0@,
                    ast_list_view(clauses[clause as int].1),
                ));
                if !first && clause == clauses.len() {
                    match else_body {
                        Some(body) => {
                            assert(node@->If_3 == Some(ast_list_view(*body)));
                            self.compile_scoped(body);
                        },
                        None => {
                            assert(node@->If_3 is None);
                            assert(branches_code(node@, i, base, cx) =~= Seq::<Instr>::empty());
                            assert(self.emitted() =~= start + branches_code(node@, i, base, cx));
                        },
                    }
                } else {
                    if first {
                        self.compile_expr(cond);
                    } else {
                        self.compile_expr(&clauses[clause].0);
                    }
                    let jif_at = self.position();
                    self.emit(Instruction::JumpIfFalse(0));
                    if first {
                        self.compile_scoped(then_body);
                    } else {
                        self.compile_scoped(&clauses[clause].1);
                    }
                    let jump_at = self.position();
                    self.emit(Instruction::Jump(0));
                    let next = self.position();
                    self.patch(jif_at, Instruction::JumpIfFalse(next));
                    if first {
                        self.compile_branches(node, false, 0);
                    } else {
                        self.compile_branches(node, false, clause + 1);
                    }
                    let end = self.position();
                    self.patch(jump_at, Instruction::Jump(end));
                    assert(self.emitted() =~= start + branches_code(node@, i, base, cx));
                }
            },
            _ => {},
        }
    }

    /// Emits a `while` loop. The pending jumps of the body are given their
    /// targets once the loop is laid out: `break` to its end, `continue` to
    /// its condition.
    fn compile_while(&mut self, node: &AstNode)
        requires
            node@ is While,
        ensures
            final(self).emitted() == old(self).emitted() + stmt_code(
                node@,
                old(self).emitted().len() as int,
                old(self).scoping(),
            ),
            final(self).scoping() == old(self).scoping(),
        decreases node, 1nat,
    {
        let ghost start = self.emitted();
        let ghost base = self.emitted().len() as int;
        let ghost cx = self.scoping();
        match node {
            AstNode::While(cond, body) => {
                let depth = self.depth();
                let imports = self.import_count();
                let test_at = self.position();
                self.compile_expr(cond);
                let jif_at = self.position();
                self.emit(Instruction::JumpIfFalse(0));
                self.emit(Instruction::EnterScope);
                self.open_region(Region::Loop);
                let names: Vec<String> = Vec::new();
                assert(names_view(names@) =~= Seq::empty());
                self.open_region(Region::Scope(names));
                let body_at = self.position();
                let ghost head = self.emitted();
                self.compile_block(body);
                let body_end = self.position();
                let ghost code = self.emitted().subrange(body_at as int, body_end as int);
                assert(code =~= block_code(
                    ast_list_view(*body),
                    0,
                    body_at as int,
                    enter(enter(cx, Zone::Loop), Zone::Scope(Seq::empty())),
                ));
                self.emit(Instruction::ExitScope);
                self.emit(Instruction::Jump(test_at));
                let end = self.position();
                self.resolve_range(body_at, body_end, end, test_at);
                self.patch(jif_at, Instruction::JumpIfFalse(end));
                proof {
                    assert(self.scoping().zones.subrange(0, depth as int) =~= cx.zones);
                    assert(self.scoping().imports.subrange(0, imports as int) =~= cx.imports);
                }
                self.close_regions(depth, imports);
                assert(self.emitted() =~= start + stmt_code(node@, base, cx));
            },
            _ => {},
        }
    }

    /// Emits the start of a counting loop: opens its scope and binds the
    /// variable, the bound and the step.
    fn compile_for_setup(&mut self, node: &AstNode)
        requires
            node@ is For,
        ensures
            final(self).emitted() == old(self).emitted() + for_setup_code(
                node@,
                old(self).emitted().len() as int,
                old(self).scoping(),
            ),
            final(self).scoping() == counting_scope(old(self).scoping(), node@->For_0),
        decreases node, 0nat,
    {
        let ghost start = self.emitted();
        let ghost base = self.emitted().len() as int;
        let ghost cx = self.scoping();
        match node {
            AstNode::For(var, from, to, step, body) => {
                self.emit(Instruction::EnterScope);
                let outer_names: Vec<String> = Vec::new();
                assert(names_view(outer_names@) =~= Seq::empty());
                self.open_region(Region::Scope(outer_names));
                self.compile_expr(from);
                self.emit(Instruction::DeclareLocal(var.clone()));
                self.declare_local(var.as_str());
                self.compile_expr(to);
                self.emit(Instruction::DeclareLocal(String::from_str("(end)")));
                match step {
                    Some(x) => {
                        self.compile_expr(x);
                    },
                    None => {
                        self.emit(Instruction::PushNumber(String::from_str("1")));
                    },
                }
                self.emit(Instruction::DeclareLocal(String::from_str("(step)")));
                assert(self.emitted() =~= start + for_setup_code(node@, base, cx));
            },
            _ => {},
        }
    }

    /// Emits the loop of a counting loop. The pending jumps of the body are
    /// given their targets once the loop is laid out: `break` to its end,
    /// `continue` to the increment.
    fn compile_for_loop(&mut self, node: &AstNode)
        requires
            node@ is For,
        ensures
            final(self).emitted() == old(self).emitted() + for_loop_code(
                node@,
                old(self).emitted().len() as int,
                old(self).scoping(),
            ),
            final(self).scoping() == old(self).scoping(),
        decreases node, 0nat,
    {
        let ghost start = self.emitted();
        let ghost base = self.emitted().len() as int;
        let ghost cx = self.scoping();
        match node {
            AstNode::For(var, from, to, step, body) => {
                let depth = self.depth();
                let imports = self.import_count();
                let test_at = self.position();
                self.emit(Instruction::LoadLocal(var.clone()));
                self.emit(Instruction::LoadLocal(String::from_str("(end)")));
                self.emit(Instruction::LessEqual);
                let jif_at = self.position();
                self.emit(Instruction::JumpIfFalse(0));
                self.emit(Instruction::EnterScope);
                self.open_region(Region::Loop);
                let names: Vec<String> = Vec::new();
                assert(names_view(names@) =~= Seq::empty());
                self.open_region(Region::Scope(names));
                let body_at = self.position();
                self.compile_block(body);
                let body_end = self.position();
                let ghost code = self.emitted().subrange(body_at as int, body_end as int);
                assert(code =~= block_code(
                    ast_list_view(*body),
                    0,
                    body_at as int,
                    enter(enter(cx, Zone::Loop), Zone::Scope(Seq::empty())),
                ));
                self.emit(Instruction::ExitScope);
                let next = self.position();
                self.emit(Instruction::LoadLocal(var.clone()));
                self.emit(Instruction::LoadLocal(String::from_str("(step)")));
                self.emit(Instruction::Add);
                self.emit(Instruction::StoreLocal(var.clone()));
                self.emit(Instruction::Jump(test_at));
                let done = self.position();
                self.resolve_range(body_at, body_end, done, next);
                self.patch(jif_at, Instruction::JumpIfFalse(done));
                proof {
                    assert(self.scoping().zones.subrange(0, depth as int) =~= cx.zones);
                    assert(self.scoping().imports.subrange(0, imports as int) =~= cx.imports);
                }
                self.close_regions(depth, imports);
                assert(self.emitted() =~= start + for_loop_code(node@, base, cx));
            },
            _ => {},
        }
    }

    /// Emits a counting loop: the variable, the bound and the step live in a
    /// scope around the loop.
    fn compile_for(&mut self, node: &AstNode)
        requires
            node@ is For,
        ensures
            final(self).emitted() == old(self).emitted() + stmt_code(
                node@,
                old(self).emitted().len() as int,
                old(self).scoping(),
            ),
            final(self).scoping() == old(self).scoping(),
        decreases node, 1nat,
    {
        let ghost start = self.emitted();
        let ghost base = self.emitted().len() as int;
        let ghost cx = self.scoping();
        let depth = self.depth();
        let imports = self.import_count();
        self.compile_for_setup(node);
        self.compile_for_loop(node);
        self.emit(Instruction::ExitScope);
        proof {
            assert(self.regions.len() == self.scoping().zones.len());
            assert(self.imports.len() == self.scoping().imports.len());
            assert(self.scoping().zones.subrange(0, depth as int) =~= cx.zones);
            assert(self.scoping().imports.subrange(0, imports as int) =~= cx.imports);
        }
        self.close_regions(depth, imports);
        assert(self.emitted() =~= start + stmt_code(node@, base, cx));
    }

    /// Emits a try region and its handler.
    fn compile_try(&mut self, node: &AstNode)
        requires
            node@ is TryCatch,
        ensures
            final(self).emitted() == old(self).emitted() + stmt_code(
                node@,
                old(self).emitted().len() as int,
                old(self).scoping(),
            ),
            final(self).scoping() == old(self).scoping(),
        decreases node, 1nat,
    {
        let ghost start = self.emitted();
        let ghost base = self.emitted().len() as int;
        let ghost cx = self.scoping();
        match node {
            AstNode::TryCatch(try_body, var, catch_body) => {
                let depth = self.depth();
                let imports = self.import_count();
                let push_at = self.position();
                self.emit(Instruction::PushHandler(0));
                self.emit(Instruction::EnterScope);
                self.open_region(Region::Handler);
                let names: Vec<String> = Vec::new();
                assert(names_view(names@) =~= Seq::empty());
                self.open_region(Region::Scope(names));
                self.compile_block(try_body);
                self.emit(Instruction::ExitScope);
                self.emit(Instruction::PopHandler);
                let jump_at = self.position();
                self.emit(Instruction::Jump(0));
                proof {
                    assert(self.scoping().zones.subrange(0, depth as int) =~= cx.zones);
                    assert(self.scoping().imports.subrange(0, imports as int) =~= cx.imports);
                }
                self.close_regions(depth, imports);
                let handler = self.position();
                self.patch(push_at, Instruction::PushHandler(handler));
                self.emit(Instruction::EnterScope);
                let mut bound: Vec<String> = Vec::new();
                match var {
                    Some(name) => {
                        self.emit(Instruction::DeclareLocal(name.clone()));
                        bound.push(name.clone());
                        assert(names_view(bound@) =~= seq![name@]);
                    },
                    None => {
                        self.emit(Instruction::Pop);
                        assert(names_view(bound@) =~= Seq::empty());
                    },
                }
                self.open_region(Region::Scope(bound));
                self.compile_block(catch_body);
                self.emit(Instruction::ExitScope);
                let end = self.position();
                self.patch(jump_at, Instruction::Jump(end));
                proof {
                    assert(self.scoping().zones.subrange(0, depth as int) =~= cx.zones);
                    assert(self.scoping().imports.subrange(0, imports as int) =~= cx.imports);
                }
                self.close_regions(depth, imports);
                assert(self.emitted() =~= start + stmt_code(node@, base, cx));
            },
            _ => {},
        }
    }
}

} // verus!
