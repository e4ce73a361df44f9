use vstd::prelude::*;
use std::rc::Rc;
use crate::compiler::Ast;
use crate::compiler::ast_value;
use crate::value::{Env, Value, list_of, vec2cons};
use crate::primitive::{err_view, out_after, prim_result, apply_prim};

verus! {

/// Where a variable stands in its frame: one slot, or the slots from `k` on as a list.
#[derive(Clone, Copy, PartialEq, Eq, Structural)]
pub enum Position {
    Index(usize),
    Rest(usize),
}

/// One instruction. A code sequence runs from its last element down to its first.
pub enum CodeOp {
    Ld(usize, Position),
    Ldc(Ast),
    Ldg(String),
    Ldf(Rc<Vec<CodeOp>>),
    App(usize),
    Rtn,
    Sel(Rc<Vec<CodeOp>>, Rc<Vec<CodeOp>>),
    Join,
    Def(String),
    Defm(String),
    Pop,
}

pub type Code = Vec<CodeOp>;

/// The global table: definitions in the order they were made; a later one
/// hides an earlier one of the same name.
pub struct Global {
    pub entries: Vec<(String, Value)>,
}

/// The value that the latest of `entries` named `name` holds.
pub open spec fn lookup(entries: Seq<(String, Value)>, name: Seq<char>) -> Option<Value>
    decreases entries.len(),
{
    if entries.len() == 0 {
        None
    } else if entries.last().0@ == name {
        Some(entries.last().1)
    } else {
        lookup(entries.drop_last(), name)
    }
}

impl Global {
    /// The value bound to `name`.
    pub open spec fn lookup(&self, name: Seq<char>) -> Option<Value> {
        lookup(self.entries@, name)
    }

    /// An empty table.
    pub fn new() -> (g: Global)
        ensures
            g.entries@ == Seq::<(String, Value)>::empty(),
    {
        Global { entries: Vec::new() }
    }

    /// The value bound to `name`, if any.
    pub fn get(&self, name: &String) -> (r: Option<Value>)
        ensures
            r == self.lookup(name@),
    {
        let mut i: usize = self.entries.len();
        assert(self.entries@.subrange(0, i as int) =~= self.entries@);
        while i > 0
            invariant
                i <= self.entries@.len(),
                lookup(self.entries@, name@) == lookup(self.entries@.subrange(0, i as int), name@),
            decreases i,
        {
            let ghost prefix = self.entries@.subrange(0, i as int);
            assert(prefix.drop_last() =~= self.entries@.subrange(0, i - 1));
            if self.entries[i - 1].0 == *name {
                return Some(self.entries[i - 1].1.dup());
            }
            i = i - 1;
        }
        None
    }

    /// Binds `name` to `v`, hiding any earlier binding.
    pub fn insert(&mut self, name: String, v: Value)
        ensures
            final(self).entries@ == old(self).entries@.push((name, v)),
            forall|n: Seq<char>| #[trigger] final(self).lookup(n)
                == if n == name@ { Some(v) } else { old(self).lookup(n) },
    {
        let ghost before = self.entries@;
        self.entries.push((name, v));
        assert(self.entries@.drop_last() =~= before);
    }

    /// A copy of the table.
    pub fn dup(&self) -> (r: Global)
        ensures
            r.entries@ == self.entries@,
    {
        let mut entries: Vec<(String, Value)> = Vec::new();
        let mut i: usize = 0;
        while i < self.entries.len()
            invariant
                i <= self.entries@.len(),
                entries@ == self.entries@.subrange(0, i as int),
            decreases self.entries@.len() - i,
        {
            entries.push((self.entries[i].0.clone(), self.entries[i].1.dup()));
            assert(entries@ =~= self.entries@.subrange(0, i + 1));
            i = i + 1;
        }
        assert(entries@ =~= self.entries@);
        Global { entries }
    }
}

/// A saved context on the dump.
pub enum DumpOp {
    /// The caller's stack, environment, code and position.
    DumpApp(Vec<Value>, Env, Rc<Vec<CodeOp>>, usize),
    /// The code and position to go on with after a branch.
    DumpSel(Rc<Vec<CodeOp>>, usize),
}

/// What a dump entry holds.
pub enum Saved {
    App(Seq<Value>, Env, Seq<CodeOp>, nat),
    Sel(Seq<CodeOp>, nat),
}

/// The whole state of a run: the four registers, the global table and the
/// lines printed so far. `pc` counts the instructions of `code` left to run,
/// taken from the end.
pub struct State {
    pub stack: Seq<Value>,
    pub env: Env,
    pub code: Seq<CodeOp>,
    pub pc: nat,
    pub dump: Seq<Saved>,
    pub global: Seq<(String, Value)>,
    pub out: Seq<Seq<char>>,
}

/// The text of each line.
pub open spec fn lines(out: Seq<String>) -> Seq<Seq<char>> {
    out.map_values(|l: String| l@)
}

pub open spec fn saved_view(d: DumpOp) -> Saved {
    match d {
        DumpOp::DumpApp(s, e, c, pc) => Saved::App(s@, e, c@, pc as nat),
        DumpOp::DumpSel(c, pc) => Saved::Sel(c@, pc as nat),
    }
}

/// Every position stays within its code.
pub open spec fn state_wf(s: State) -> bool {
    &&& s.pc <= s.code.len()
    &&& forall|k: int| 0 <= k < s.dump.len() ==> match #[trigger] s.dump[k] {
        Saved::App(_, _, c, pc) => pc <= c.len(),
        Saved::Sel(c, pc) => pc <= c.len(),
    }
}

/// The frame `i` steps out from the innermost one.
pub open spec fn frame_at(env: Env, i: nat) -> Option<Value>
    decreases env,
{
    match env {
        Env::Empty => None,
        Env::Frame(f) => if i == 0 { Some(f.0) } else { frame_at(f.1, (i - 1) as nat) },
    }
}

/// What is left of a list after its first `k` cells.
pub open spec fn tail_at(v: Value, k: nat) -> Option<Value>
    decreases k,
{
    if k == 0 {
        Some(v)
    } else {
        match v {
            Value::Cell(c) => tail_at(c.1, (k - 1) as nat),
            _ => None,
        }
    }
}

/// The value at a lexical address.
pub open spec fn var_at(env: Env, i: nat, p: Position) -> Option<Value> {
    match frame_at(env, i) {
        None => None,
        Some(f) => match p {
            Position::Index(k) => match tail_at(f, k as nat) {
                Some(Value::Cell(c)) => Some(c.0),
                _ => None,
            },
            Position::Rest(k) => tail_at(f, k as nat),
        },
    }
}

/// The state after the instruction at `pc - 1` has run, or the error it stops with.
pub open spec fn step(s: State) -> Result<State, Seq<char>> {
    let op = s.code[s.pc - 1];
    let t = State { pc: (s.pc - 1) as nat, ..s };
    let n = s.stack.len();
    match op {
        CodeOp::Ld(i, p) => match var_at(s.env, i as nat, p) {
            Some(v) => Ok(State { stack: s.stack.push(v), ..t }),
            None => Err("Runtime error: Ld"@),
        },
        CodeOp::Ldc(a) => Ok(State { stack: s.stack.push(ast_value(a)), ..t }),
        CodeOp::Ldg(name) => match lookup(s.global, name@) {
            Some(v) => Ok(State { stack: s.stack.push(v), ..t }),
            None => Err("unbound variable: "@ + name@),
        },
        CodeOp::Ldf(c) => Ok(State { stack: s.stack.push(Value::Closure(c, s.env)), ..t }),
        CodeOp::App(k) => if n < k + 1 {
            Err("Runtime error: App"@)
        } else {
            let args = s.stack.subrange(n - 1 - k, n - 1);
            let rest = s.stack.subrange(0, n - 1 - k);
            match s.stack[n - 1] {
                Value::Closure(c, e) => Ok(State {
                    stack: Seq::empty(),
                    env: Env::Frame(Rc::new((list_of(args, Value::Nil), e))),
                    code: c@,
                    pc: c@.len(),
                    dump: s.dump.push(Saved::App(rest, s.env, s.code, t.pc)),
                    ..s
                }),
                Value::Primitive(p) => match prim_result(p, args) {
                    Ok(v) => Ok(State { stack: rest.push(v), out: out_after(p, args, s.out), ..t }),
                    Err(e) => Err(e),
                },
                _ => Err("Runtime error: App"@),
            }
        },
        CodeOp::Rtn => if n > 0 && s.dump.len() > 0 && s.dump.last() is App {
            match s.dump.last() {
                Saved::App(st, e, c, pc) => Ok(State {
                    stack: st.push(s.stack.last()),
                    env: e,
                    code: c,
                    pc: pc,
                    dump: s.dump.drop_last(),
                    ..s
                }),
                _ => Err("Runtime error: Rtn"@),
            }
        } else {
            Err("Runtime error: Rtn"@)
        },
        CodeOp::Sel(c, a) => if n == 0 {
            Err("Runtime error: Sel"@)
        } else {
            let chosen = if s.stack.last() == Value::Boolean(false) { a } else { c };
            Ok(State {
                stack: s.stack.drop_last(),
                code: chosen@,
                pc: chosen@.len(),
                dump: s.dump.push(Saved::Sel(s.code, t.pc)),
                ..s
            })
        },
        CodeOp::Join => if s.dump.len() > 0 && s.dump.last() is Sel {
            match s.dump.last() {
                Saved::Sel(c, pc) => Ok(State { code: c, pc: pc, dump: s.dump.drop_last(), ..s }),
                _ => Err("Runtime error: Join"@),
            }
        } else {
            Err("Runtime error: Join"@)
        },
        CodeOp::Def(name) => if n == 0 {
            Err("Runtime error: Def"@)
        } else {
            Ok(State { stack: s.stack.drop_last(), global: s.global.push((name, s.stack.last())), ..t })
        },
        CodeOp::Defm(name) => if n == 0 {
            Err("Runtime error: Defm"@)
        } else {
            match s.stack.last() {
                Value::Closure(c, e) => Ok(State {
                    stack: s.stack.drop_last(),
                    global: s.global.push((name, Value::Macro(c, e))),
                    ..t
                }),
                _ => Err("Runtime error: Defm"@),
            }
        },
        CodeOp::Pop => Ok(State { stack: if n == 0 { s.stack } else { s.stack.drop_last() }, ..t }),
    }
}

/// The value a run halts with: the top of the stack, or `Undefined`.
pub open spec fn halt_value(s: State) -> Value {
    if s.stack.len() == 0 { Value::Undefined } else { s.stack.last() }
}

/// The outcome of running from `s` for at most `fuel` instructions, with the
/// state it ends in (for an error, the state before the failing instruction).
pub open spec fn run_from(s: State, fuel: nat) -> (Result<Value, Seq<char>>, State)
    decreases fuel,
{
    if s.pc == 0 {
        (Ok(halt_value(s)), s)
    } else if fuel == 0 {
        (Err("Runtime error: step limit"@), s)
    } else {
        match step(s) {
            Ok(t) => run_from(t, (fuel - 1) as nat),
            Err(e) => (Err(e), s),
        }
    }
}

/// How many instructions a run may take.
pub const STEP_LIMIT: u64 = 0xffff_ffff_ffff_ffff;

/// The state in which a run of `code` starts.
pub open spec fn start(env: Env, code: Seq<CodeOp>, global: Seq<(String, Value)>, out: Seq<Seq<char>>) -> State {
    State { stack: Seq::empty(), env, code, pc: code.len(), dump: Seq::empty(), global, out }
}

/// The four registers of the machine.
pub struct Machine {
    stack: Vec<Value>,
    env: Env,
    code: Rc<Vec<CodeOp>>,
    pc: usize,
    dump: Vec<DumpOp>,
}

impl Machine {
    /// The machine's registers, with a global table and output, as a `State`.
    pub closed spec fn state(&self, g: Global, out: Seq<String>) -> State {
        State {
            stack: self.stack@,
            env: self.env,
            code: self.code@,
            pc: self.pc as nat,
            dump: self.dump@.map_values(|d: DumpOp| saved_view(d)),
            global: g.entries@,
            out: lines(out),
        }
    }

    /// Runs `code` in `env` until its instructions are used up, and returns the
    /// value left on top of the stack.
    pub fn run(env: Env, code: Vec<CodeOp>, global: &mut Global, out: &mut Vec<String>) -> (r: Result<Value, String>)
        ensures
            ({
                let (res, s) = run_from(start(env, code@, old(global).entries@, lines(old(out)@)), STEP_LIMIT as nat);
                &&& err_view(r) == res
                &&& final(global).entries@ == s.global
                &&& lines(final(out)@) == s.out
            }),
    {
        let n = code.len();
        let mut m = Machine { stack: Vec::new(), env, code: Rc::new(code), pc: n, dump: Vec::new() };
        let mut fuel: u64 = STEP_LIMIT;
        assert(m.dump@.map_values(|d: DumpOp| saved_view(d)) =~= Seq::<Saved>::empty());
        while m.pc > 0
            invariant
                state_wf(m.state(*global, out@)),
                run_from(m.state(*global, out@), fuel as nat)
                    == run_from(start(env, code@, old(global).entries@, lines(old(out)@)), STEP_LIMIT as nat),
            decreases fuel,
        {
            if fuel == 0 {
                return Err("Runtime error: step limit".to_owned());
            }
            let r = m.tick(global, out);
            match r {
                Err(e) => {
                    return Err(e);
                },
                Ok(()) => {},
            }
            fuel = fuel - 1;
        }
        match m.stack.pop() {
            Some(v) => Ok(v),
            None => Ok(Value::Undefined),
        }
    }

    /// Runs the instruction at `pc - 1`.
    fn tick(&mut self, global: &mut Global, out: &mut Vec<String>) -> (r: Result<(), String>)
        requires
            old(self).pc > 0,
            state_wf(old(self).state(*old(global), old(out)@)),
        ensures
            match step(old(self).state(*old(global), old(out)@)) {
                Ok(t) => r is Ok && final(self).state(*final(global), final(out)@) == t
                    && state_wf(t),
                Err(e) => r is Err && r->Err_0@ == e && *final(global) == *old(global)
                    && lines(final(out)@) == lines(old(out)@),
            },
    {
        let ghost s0 = old(self).state(*old(global), old(out)@);
        let code = Rc::clone(&self.code);
        let op = &code[self.pc - 1];
        self.pc = self.pc - 1;
        let ghost dv = self.dump@.map_values(|d: DumpOp| saved_view(d));
        match op {
            CodeOp::Ld(i, p) => match get_var(&self.env, *i, p) {
                Some(v) => {
                    self.stack.push(v);
                    Ok(())
                },
                None => Err("Runtime error: Ld".to_owned()),
            },
            CodeOp::Ldc(a) => {
                self.stack.push(a.to_value());
                Ok(())
            },
            CodeOp::Ldg(name) => match global.get(name) {
                Some(v) => {
                    self.stack.push(v);
                    Ok(())
                },
                None => {
                    let mut e = "unbound variable: ".to_owned();
                    e.append(name.as_str());
                    Err(e)
                },
            },
            CodeOp::Ldf(c) => {
                self.stack.push(Value::Closure(Rc::clone(c), self.env.dup()));
                Ok(())
            },
            CodeOp::App(k) => {
                let n = self.stack.len();
                if n <= *k {
                    return Err("Runtime error: App".to_owned());
                }
                let f = self.stack.pop().unwrap();
                let args = self.stack.split_off(n - 1 - *k);
                proof {
                    assert(args@ =~= s0.stack.subrange(n - 1 - *k, n - 1));
                    assert(self.stack@ =~= s0.stack.subrange(0, n - 1 - *k));
                }
                match f {
                    Value::Closure(c, e) => {
                        let frame = vec2cons(args.as_slice(), Value::Nil);
                        let mut st: Vec<Value> = Vec::new();
                        std::mem::swap(&mut self.stack, &mut st);
                        let mut env = Env::Frame(Rc::new((frame, e)));
                        std::mem::swap(&mut self.env, &mut env);
                        let mut code2 = c;
                        std::mem::swap(&mut self.code, &mut code2);
                        let pc = self.pc;
                        self.pc = self.code.len();
                        self.dump.push(DumpOp::DumpApp(st, env, code2, pc));
                        proof {
                            assert(self.dump@.map_values(|d: DumpOp| saved_view(d)) =~= dv.push(saved_view(DumpOp::DumpApp(st, env, code2, pc))));
                        }
                        Ok(())
                    },
                    Value::Primitive(p) => match apply_prim(&p, args, out) {
                        Ok(v) => {
                            self.stack.push(v);
                            Ok(())
                        },
                        Err(e) => Err(e),
                    },
                    _ => Err("Runtime error: App".to_owned()),
                }
            },
            CodeOp::Rtn => {
                if self.stack.len() == 0 || self.dump.len() == 0 {
                    return Err("Runtime error: Rtn".to_owned());
                }
                let v = self.stack.pop().unwrap();
                match self.dump.pop().unwrap() {
                    DumpOp::DumpApp(st, e, c, pc) => {
                        proof {
                            assert(self.dump@.map_values(|d: DumpOp| saved_view(d)) =~= dv.drop_last());
                        }
                        self.stack = st;
                        self.stack.push(v);
                        self.env = e;
                        self.code = c;
                        self.pc = pc;
                        Ok(())
                    },
                    _ => Err("Runtime error: Rtn".to_owned()),
                }
            },
            CodeOp::Sel(c, a) => {
                if self.stack.len() == 0 {
                    return Err("Runtime error: Sel".to_owned());
                }
                let v = self.stack.pop().unwrap();
                let mut chosen = if matches!(v, Value::Boolean(false)) { Rc::clone(a) } else { Rc::clone(c) };
                std::mem::swap(&mut self.code, &mut chosen);
                let pc = self.pc;
                self.pc = self.code.len();
                self.dump.push(DumpOp::DumpSel(chosen, pc));
                proof {
                    assert(self.dump@.map_values(|d: DumpOp| saved_view(d)) =~= dv.push(saved_view(DumpOp::DumpSel(chosen, pc))));
                }
                Ok(())
            },
            CodeOp::Join => {
                if self.dump.len() == 0 {
                    return Err("Runtime error: Join".to_owned());
                }
                match self.dump.pop().unwrap() {
                    DumpOp::DumpSel(c, pc) => {
                        proof {
                            assert(self.dump@.map_values(|d: DumpOp| saved_view(d)) =~= dv.drop_last());
                        }
                        self.code = c;
                        self.pc = pc;
                        Ok(())
                    },
                    _ => Err("Runtime error: Join".to_owned()),
                }
            },
            CodeOp::Def(name) => match self.stack.pop() {
                Some(v) => {
                    global.insert(name.clone(), v);
                    Ok(())
                },
                None => Err("Runtime error: Def".to_owned()),
            },
            CodeOp::Defm(name) => match self.stack.pop() {
                Some(Value::Closure(c, e)) => {
                    global.insert(name.clone(), Value::Macro(c, e));
                    Ok(())
                },
                _ => Err("Runtime error: Defm".to_owned()),
            },
            CodeOp::Pop => {
                self.stack.pop();
                Ok(())
            },
        }
    }
}

/// The value at a lexical address.
fn get_var(env: &Env, i: usize, p: &Position) -> (r: Option<Value>)
    ensures
        r == var_at(*env, i as nat, *p),
{
    let mut cur: &Env = env;
    let mut k: usize = i;
    while k > 0
        invariant
            frame_at(*env, i as nat) == frame_at(*cur, k as nat),
        decreases k,
    {
        match cur {
            Env::Empty => {
                assert(frame_at(*cur, k as nat) is None);
                assert(var_at(*env, i as nat, *p) is None);
                return None;
            },
            Env::Frame(f) => {
                cur = &f.1;
                k = k - 1;
            },
        }
    }
    let frame: &Value = match cur {
        Env::Empty => {
            assert(frame_at(*env, i as nat) is None);
            assert(var_at(*env, i as nat, *p) is None);
            return None;
        },
        Env::Frame(f) => &f.0,
    };
    let j: usize = match p {
        Position::Index(j) => *j,
        Position::Rest(j) => *j,
    };
    let mut v: &Value = frame;
    let mut m: usize = j;
    while m > 0
        invariant
            frame_at(*env, i as nat) == Some(*frame),
            j == match *p {
                Position::Index(x) => x,
                Position::Rest(x) => x,
            },
            tail_at(*frame, j as nat) == tail_at(*v, m as nat),
        decreases m,
    {
        match v {
            Value::Cell(c) => {
                v = &c.1;
                m = m - 1;
            },
            _ => {
                assert(tail_at(*v, m as nat) is None);
                assert(var_at(*env, i as nat, *p) is None);
                return None;
            },
        }
    }
    assert(tail_at(*frame, j as nat) == Some(*v));
    match p {
        Position::Rest(_) => Some(v.dup()),
        Position::Index(_) => match v {
            Value::Cell(c) => Some(c.0.dup()),
            _ => {
                assert(var_at(*env, i as nat, *p) is None);
                None
            },
        },
    }
}

/// Running the same code from the same state twice gives the same outcome:
/// where a run changes neither the global table nor the output, a second run
/// of that code gives the value of the first.
pub proof fn lemma_rerun_same(env: Env, code: Seq<CodeOp>, g: Seq<(String, Value)>, out: Seq<Seq<char>>, fuel: nat)
    requires
        run_from(start(env, code, g, out), fuel).1.global == g,
        run_from(start(env, code, g, out), fuel).1.out == out,
    ensures
        ({
            let s1 = run_from(start(env, code, g, out), fuel).1;
            run_from(start(env, code, s1.global, s1.out), fuel).0 == run_from(start(env, code, g, out), fuel).0
        }),
{
}

/// A call's frame holds its arguments: slot `k` is the `k`-th argument, and
/// the rest from `k` on is the list of the arguments after the first `k`.
pub proof fn lemma_frame_slots(args: Seq<Value>, outer: Env, k: nat)
    requires
        k <= args.len(),
        k < usize::MAX,
    ensures
        var_at(Env::Frame(Rc::new((list_of(args, Value::Nil), outer))), 0, Position::Rest(k as usize))
            == Some(list_of(args.subrange(k as int, args.len() as int), Value::Nil)),
        k < args.len() ==> var_at(Env::Frame(Rc::new((list_of(args, Value::Nil), outer))), 0, Position::Index(k as usize))
            == Some(args[k as int]),
{
    lemma_tail_at_list(args, k);
    if k < args.len() {
        let rest = args.subrange(k as int, args.len() as int);
        assert(rest[0] == args[k as int]);
    }
}

proof fn lemma_tail_at_list(args: Seq<Value>, k: nat)
    requires
        k <= args.len(),
    ensures
        tail_at(list_of(args, Value::Nil), k) == Some(list_of(args.subrange(k as int, args.len() as int), Value::Nil)),
    decreases k,
{
    if k == 0 {
        assert(args.subrange(0, args.len() as int) =~= args);
    } else {
        let rest = args.subrange(1, args.len() as int);
        lemma_tail_at_list(rest, (k - 1) as nat);
        assert(rest.subrange(k - 1, rest.len() as int) =~= args.subrange(k as int, args.len() as int));
    }
}

/// A variable is read from the frame it names, whatever the frames around it
/// bind: the innermost frame is frame 0.
pub proof fn lemma_innermost_frame(frame: Value, outer: Env, p: Position)
    ensures
        var_at(Env::Frame(Rc::new((frame, outer))), 0, p) == var_at(Env::Frame(Rc::new((frame, Env::Empty))), 0, p),
{
}

} // verus!
