//! The execution engine: a register bank, a program counter and the
//! step-by-step execution of a parsed program.

use crate::parser::{initial_parser, lines_effect, lines_view, Parser};
use crate::primitives::{
    dec_value, Error, ErrorV, Instruction, InstructionV, Register, Unsigned,
};
use crate::tables::LabelTable;
use vstd::prelude::*;

verus! {

/// The value a register bank yields for a register: the stored value, or
/// zero for a register never written.
pub open spec fn reg_read(m: Map<Register, usize>, r: Register) -> usize {
    if m.contains_key(r) {
        m[r]
    } else {
        0
    }
}

/// Law: a register never written reads as zero, never as an error or an
/// arbitrary value.
pub proof fn lemma_absent_register_reads_zero(m: Map<Register, usize>, r: Register)
    requires
        !m.contains_key(r),
    ensures
        reg_read(m, r) == 0,
{
}

/// The mapping that a sequence of bank entries denotes.
pub open spec fn bank_map(s: Seq<(Register, Unsigned)>) -> Map<Register, usize>
    decreases s.len(),
{
    if s.len() == 0 {
        Map::empty()
    } else {
        bank_map(s.drop_last()).insert(s.last().0, s.last().1.0)
    }
}

/// No two bank entries name the same register.
pub open spec fn distinct_registers(s: Seq<(Register, Unsigned)>) -> bool {
    forall|i: int, j: int| 0 <= i < j < s.len() ==> s[i].0 != s[j].0
}

/// The denoted bank contains a register exactly when some entry names it.
pub proof fn lemma_bank_contains(s: Seq<(Register, Unsigned)>, r: Register)
    ensures
        bank_map(s).contains_key(r) <==> (exists|i: int| 0 <= i < s.len() && s[i].0 == r),
    decreases s.len(),
{
    if s.len() > 0 {
        lemma_bank_contains(s.drop_last(), r);
        if s.last().0 == r {
            assert(s[s.len() - 1].0 == r);
        } else {
            assert(forall|i: int| 0 <= i < s.len() - 1 ==> s.drop_last()[i] == s[i]);
            if exists|i: int| 0 <= i < s.len() && s[i].0 == r {
                let i = choose|i: int| 0 <= i < s.len() && s[i].0 == r;
                assert(s.drop_last()[i] == s[i]);
            }
        }
    }
}

/// In a bank with distinct registers, the entry that names a register gives
/// the denoted map's value there.
pub proof fn lemma_bank_value(s: Seq<(Register, Unsigned)>, i: int)
    requires
        distinct_registers(s),
        0 <= i < s.len(),
    ensures
        bank_map(s).contains_key(s[i].0),
        bank_map(s)[s[i].0] == s[i].1.0,
    decreases s.len(),
{
    if i < s.len() - 1 {
        assert(forall|j: int| 0 <= j < s.len() - 1 ==> s.drop_last()[j] == s[j]);
        lemma_bank_value(s.drop_last(), i);
        assert(s.last().0 != s[i].0);
    }
}

/// Removing the entry that names a register removes exactly that register
/// from the denoted map.
pub proof fn lemma_bank_remove(s: Seq<(Register, Unsigned)>, i: int)
    requires
        distinct_registers(s),
        0 <= i < s.len(),
    ensures
        distinct_registers(s.remove(i)),
        bank_map(s.remove(i)) == bank_map(s).remove(s[i].0),
    decreases s.len(),
{
    let k = s[i].0;
    lemma_bank_contains(s.drop_last(), k);
    if i == s.len() - 1 {
        assert(s.remove(i) =~= s.drop_last());
        assert(!bank_map(s.drop_last()).contains_key(k));
        assert(bank_map(s.drop_last()).insert(k, s.last().1.0).remove(k) =~= bank_map(
            s.drop_last(),
        ));
    } else {
        assert(s.remove(i).drop_last() =~= s.drop_last().remove(i));
        assert(s.remove(i).last() == s.last());
        lemma_bank_remove(s.drop_last(), i);
        assert(s.drop_last()[i] == s[i]);
        assert(s.last().0 != k);
        assert(bank_map(s.drop_last()).remove(k).insert(s.last().0, s.last().1.0) =~= bank_map(
            s.drop_last(),
        ).insert(s.last().0, s.last().1.0).remove(k));
        assert(bank_map(s.remove(i)) == bank_map(s.remove(i).drop_last()).insert(
            s.remove(i).last().0,
            s.remove(i).last().1.0,
        ));
    }
}

/// The machine's register state, sparse: a register never written is absent
/// from the bank and reads as zero.
pub struct RegisterBank(pub Vec<(Register, Unsigned)>);

impl View for RegisterBank {
    type V = Map<Register, usize>;

    open spec fn view(&self) -> Map<Register, usize> {
        bank_map(self.0@)
    }
}

impl RegisterBank {
    /// The bank's entries name pairwise distinct registers.
    pub open spec fn wf(&self) -> bool {
        distinct_registers(self.0@)
    }

    /// An empty bank: every register reads as zero.
    pub fn new() -> (r: Self)
        ensures
            r.wf(),
            r@ == Map::<Register, usize>::empty(),
    {
        RegisterBank(Vec::new())
    }

    /// The position of the entry that names the given register, if any.
    fn find(&self, r: &Register) -> (pos: Option<usize>)
        ensures
            match pos {
                Some(i) => i < self.0@.len() && self.0@[i as int].0 == *r,
                None => forall|j: int| 0 <= j < self.0@.len() ==> self.0@[j].0 != *r,
            },
    {
        let mut i: usize = 0;
        #[verifier::loop_isolation(false)]
        while i < self.0.len()
            invariant
                i <= self.0.len(),
                forall|j: int| 0 <= j < i ==> self.0@[j].0 != *r,
            decreases self.0.len() - i,
        {
            if self.0[i].0 == *r {
                return Some(i);
            }
            i = i + 1;
        }
        None
    }

    /// The value the bank yields for a register: the stored value, or zero
    /// for a register never written.
    pub fn read(&self, r: &Register) -> (v: usize)
        requires
            self.wf(),
        ensures
            v == reg_read(self@, *r),
    {
        proof {
            lemma_bank_contains(self.0@, *r);
        }
        match self.find(r) {
            Some(i) => {
                proof {
                    lemma_bank_value(self.0@, i as int);
                }
                self.0[i].1.0
            },
            None => 0,
        }
    }

    /// Stores a value for a register, replacing any value stored there
    /// before. The register is present in the bank afterwards.
    pub fn set(&mut self, r: Register, v: Unsigned)
        requires
            old(self).wf(),
        ensures
            final(self).wf(),
            final(self)@ == old(self)@.insert(r, v.0),
    {
        proof {
            lemma_bank_contains(self.0@, r);
        }
        let ghost s0 = self.0@;
        match self.find(&r) {
            Some(i) => {
                proof {
                    lemma_bank_remove(s0, i as int);
                }
                let _ = self.0.remove(i);
                proof {
                    lemma_bank_contains(self.0@, r);
                    assert(forall|j: int|
                        0 <= j < self.0@.len() ==> #[trigger] self.0@[j] == s0.remove(i as int)[j]);
                }
                self.0.push((r, v));
                proof {
                    assert(self.0@.drop_last() =~= s0.remove(i as int));
                    assert(bank_map(s0).remove(s0[i as int].0).insert(r, v.0) =~= bank_map(
                        s0,
                    ).insert(r, v.0));
                }
            },
            None => {
                self.0.push((r, v));
                proof {
                    assert(self.0@.drop_last() =~= s0);
                }
            },
        }
    }
}

/// One point of an execution: the program counter, the register state and
/// whether the machine is still running.
#[verifier::ext_equal]
pub ghost struct Config {
    /// The position of the current instruction.
    pub pc: nat,
    /// The register state.
    pub regs: Map<Register, usize>,
    /// False once the machine has halted.
    pub running: bool,
}

/// What one execution step does: increments and decrements write the bank
/// and move to the next instruction, a conditional jump reads its register,
/// jumps follow the label table, `Stop` or running off the end halts the
/// machine. A jump to an undefined label, or an increment past the machine
/// word, is an error. A halted machine does not move.
pub open spec fn spec_step(
    prog: Seq<InstructionV>,
    jt: Map<Seq<u8>, usize>,
    c: Config,
) -> Result<Config, ErrorV> {
    if !c.running {
        Ok(c)
    } else if c.pc >= prog.len() {
        Ok(Config { running: false, ..c })
    } else {
        match prog[c.pc as int] {
            InstructionV::Increment(r) => {
                let v = reg_read(c.regs, r);
                if v == usize::MAX {
                    Err(ErrorV::CounterOverflow)
                } else {
                    Ok(
                        Config {
                            pc: c.pc + 1,
                            regs: c.regs.insert(r, (v + 1) as usize),
                            ..c
                        },
                    )
                }
            },
            InstructionV::Decrement(r) => Ok(
                Config {
                    pc: c.pc + 1,
                    regs: c.regs.insert(r, dec_value(reg_read(c.regs, r))),
                    ..c
                },
            ),
            InstructionV::Conditional(r, l) => {
                if reg_read(c.regs, r) != 0 {
                    if jt.contains_key(l) {
                        Ok(Config { pc: jt[l] as nat, ..c })
                    } else {
                        Err(ErrorV::UnresolvedLabel(l))
                    }
                } else {
                    Ok(Config { pc: c.pc + 1, ..c })
                }
            },
            InstructionV::Goto(l) => {
                if jt.contains_key(l) {
                    Ok(Config { pc: jt[l] as nat, ..c })
                } else {
                    Err(ErrorV::UnresolvedLabel(l))
                }
            },
            InstructionV::Stop => Ok(Config { running: false, ..c }),
        }
    }
}

/// The configuration after `n` execution steps, or the error that cut the
/// run short.
pub open spec fn run_n(
    prog: Seq<InstructionV>,
    jt: Map<Seq<u8>, usize>,
    c: Config,
    n: nat,
) -> Result<Config, ErrorV>
    decreases n,
{
    if n == 0 {
        Ok(c)
    } else {
        match run_n(prog, jt, c, (n - 1) as nat) {
            Ok(c1) => spec_step(prog, jt, c1),
            Err(e) => Err(e),
        }
    }
}

/// Peeling a step off the front: when one step from `c` yields `c1`, `n`
/// further steps from `c1` are `n + 1` steps from `c`; when the step
/// fails, so does any longer run.
pub proof fn lemma_run_n_peel(prog: Seq<InstructionV>, jt: Map<Seq<u8>, usize>, c: Config, n: nat)
    ensures
        match spec_step(prog, jt, c) {
            Ok(c1) => run_n(prog, jt, c, (n + 1) as nat) == run_n(prog, jt, c1, n),
            Err(e) => run_n(prog, jt, c, (n + 1) as nat) == Err::<Config, ErrorV>(e),
        },
    decreases n,
{
    if n == 0 {
        assert(run_n(prog, jt, c, 0) == Ok::<Config, ErrorV>(c));
        assert(run_n(prog, jt, c, 1) == (match run_n(prog, jt, c, 0) {
            Ok(c0) => spec_step(prog, jt, c0),
            Err(e) => Err(e),
        }));
    } else {
        lemma_run_n_peel(prog, jt, c, (n - 1) as nat);
        assert(run_n(prog, jt, c, (n + 1) as nat) == (match run_n(prog, jt, c, n) {
            Ok(cn) => spec_step(prog, jt, cn),
            Err(e) => Err(e),
        }));
        match spec_step(prog, jt, c) {
            Ok(c1) => {
                assert(run_n(prog, jt, c, n) == run_n(prog, jt, c1, (n - 1) as nat));
                assert(run_n(prog, jt, c1, n) == (match run_n(prog, jt, c1, (n - 1) as nat) {
                    Ok(cm) => spec_step(prog, jt, cm),
                    Err(e) => Err(e),
                }));
            },
            Err(e) => {
                assert(run_n(prog, jt, c, n) == Err::<Config, ErrorV>(e));
            },
        }
    }
}

/// The program has no jump instruction at all.
pub open spec fn straight_line(prog: Seq<InstructionV>) -> bool {
    forall|i: int|
        0 <= i < prog.len() ==> match #[trigger] prog[i] {
            InstructionV::Conditional(_, _) => false,
            InstructionV::Goto(_) => false,
            _ => true,
        }
}

/// Every jump the program can take leads strictly forward: the label table
/// sends each conditional or goto instruction past its own position. Such
/// a program has no cycle at all.
pub open spec fn forward_jumping(prog: Seq<InstructionV>, jt: Map<Seq<u8>, usize>) -> bool {
    forall|i: int|
        0 <= i < prog.len() ==> match #[trigger] prog[i] {
            InstructionV::Conditional(_, l) => jt.contains_key(l) ==> jt[l] > i,
            InstructionV::Goto(l) => jt.contains_key(l) ==> jt[l] > i,
            _ => true,
        }
}

/// How many steps a cycle-free program can still take from a
/// configuration before it must halt or fail.
pub open spec fn halt_bound(prog: Seq<InstructionV>, c: Config) -> int {
    if !c.running {
        0
    } else if c.pc <= prog.len() {
        prog.len() - c.pc + 2
    } else {
        1
    }
}

/// Law (the provable half of termination): a program whose jumps all lead
/// strictly forward has no reachable cycle, so execution cannot loop —
/// within `halt_bound` steps it reaches a halted configuration or reports
/// an error. A program with a backward jump may run forever, which the
/// step bound of [`MachineState::run`] cuts off.
pub proof fn lemma_forward_jumps_halt(
    prog: Seq<InstructionV>,
    jt: Map<Seq<u8>, usize>,
    c: Config,
)
    requires
        forward_jumping(prog, jt),
    ensures
        exists|n: int|
            {
                &&& 0 <= n <= halt_bound(prog, c)
                &&& match #[trigger] run_n(prog, jt, c, n as nat) {
                    Ok(c2) => !c2.running,
                    Err(e) => true,
                }
            },
    decreases halt_bound(prog, c),
{
    if !c.running {
        assert(run_n(prog, jt, c, 0) == Ok::<Config, ErrorV>(c));
        assert({
            let n = 0int;
            &&& 0 <= n <= halt_bound(prog, c)
            &&& match run_n(prog, jt, c, n as nat) {
                Ok(c2) => !c2.running,
                Err(e) => true,
            }
        });
    } else if c.pc >= prog.len() {
        assert(run_n(prog, jt, c, 1) == spec_step(prog, jt, c));
        assert({
            let n = 1int;
            &&& 0 <= n <= halt_bound(prog, c)
            &&& match run_n(prog, jt, c, n as nat) {
                Ok(c2) => !c2.running,
                Err(e) => true,
            }
        });
    } else {
        match spec_step(prog, jt, c) {
            Ok(c1) => {
                if !c1.running {
                    assert(run_n(prog, jt, c, 1) == spec_step(prog, jt, c));
                    assert({
                        let n = 1int;
                        &&& 0 <= n <= halt_bound(prog, c)
                        &&& match run_n(prog, jt, c, n as nat) {
                            Ok(c2) => !c2.running,
                            Err(e) => true,
                        }
                    });
                } else {
                    // Every successful step from a running configuration
                    // moves the counter strictly forward.
                    assert(c1.pc > c.pc);
                    lemma_forward_jumps_halt(prog, jt, c1);
                    let n1 = choose|n1: int|
                        {
                            &&& 0 <= n1 <= halt_bound(prog, c1)
                            &&& match #[trigger] run_n(prog, jt, c1, n1 as nat) {
                                Ok(c2) => !c2.running,
                                Err(e) => true,
                            }
                        };
                    lemma_run_n_peel(prog, jt, c, n1 as nat);
                    assert({
                        let n = n1 + 1;
                        &&& 0 <= n <= halt_bound(prog, c)
                        &&& match run_n(prog, jt, c, n as nat) {
                            Ok(c2) => !c2.running,
                            Err(e) => true,
                        }
                    });
                }
            },
            Err(e) => {
                lemma_run_n_peel(prog, jt, c, 0);
                assert({
                    let n = 1int;
                    &&& 0 <= n <= halt_bound(prog, c)
                    &&& match run_n(prog, jt, c, n as nat) {
                        Ok(c2) => !c2.running,
                        Err(e2) => true,
                    }
                });
            },
        }
    }
}

/// Law (a special case): a program without conditional or goto
/// instructions halts or fails within `halt_bound` steps.
pub proof fn lemma_straight_line_halts(
    prog: Seq<InstructionV>,
    jt: Map<Seq<u8>, usize>,
    c: Config,
)
    requires
        straight_line(prog),
    ensures
        exists|n: int|
            {
                &&& 0 <= n <= halt_bound(prog, c)
                &&& match #[trigger] run_n(prog, jt, c, n as nat) {
                    Ok(c2) => !c2.running,
                    Err(e) => true,
                }
            },
{
    lemma_forward_jumps_halt(prog, jt, c);
}

/// The machine: a program, its label table, the register bank and the
/// current position.
pub struct MachineState {
    /// The position of the current instruction.
    pub program_counter: usize,
    /// The register state.
    pub register_values: RegisterBank,
    /// The program being run.
    pub instructions: Vec<Instruction>,
    /// Maps each defined label to an instruction position.
    pub jump_table: LabelTable<usize>,
    /// False once the machine has halted.
    pub running: bool,
}

impl MachineState {
    /// The program as a sequence of instruction shapes.
    pub open spec fn prog(&self) -> Seq<InstructionV> {
        self.instructions@.map(|i: int, ins: Instruction| ins@)
    }

    /// The label table as a map.
    pub open spec fn table(&self) -> Map<Seq<u8>, usize> {
        self.jump_table@
    }

    /// The machine's current configuration.
    pub open spec fn cfg(&self) -> Config {
        Config {
            pc: self.program_counter as nat,
            regs: self.register_values@,
            running: self.running,
        }
    }

    /// The machine is well formed.
    pub open spec fn wf(&self) -> bool {
        &&& self.register_values.wf()
        &&& self.jump_table.wf()
    }

    /// A machine ready to run: the cursor at the first instruction, the
    /// `i`-th input value in input register `X<i>`, every other register
    /// reading as zero.
    pub fn new(inputs: Vec<usize>, instructions: Vec<Instruction>, jump_table: LabelTable<usize>) -> (r:
        Self)
        requires
            jump_table.wf(),
        ensures
            r.wf(),
            r.prog() == instructions@.map(|i: int, ins: Instruction| ins@),
            r.table() == jump_table@,
            r.cfg() == (Config { pc: 0nat, regs: input_map(inputs@), running: true }),
    {
        let mut register_values = RegisterBank::new();
        let mut index: usize = 0;
        #[verifier::loop_isolation(false)]
        while index < inputs.len()
            invariant
                index <= inputs.len(),
                register_values.wf(),
                register_values@ == input_map(inputs@.take(index as int)),
            decreases inputs.len() - index,
        {
            register_values.set(Register::X(Unsigned(index)), Unsigned(inputs[index]));
            proof {
                assert(inputs@.take(index + 1).drop_last() =~= inputs@.take(index as int));
            }
            index = index + 1;
        }
        proof {
            assert(inputs@.take(inputs@.len() as int) =~= inputs@);
        }
        let r = Self {
            program_counter: 0,
            register_values,
            instructions,
            jump_table,
            running: true,
        };
        proof {
            assert(r.cfg() =~~= (Config { pc: 0nat, regs: input_map(inputs@), running: true }));
        }
        r
    }

    /// The machine's output: the value of the output register, zero if it
    /// was never written.
    pub fn get_y(&self) -> (r: Unsigned)
        requires
            self.wf(),
        ensures
            r.0 == reg_read(self.cfg().regs, Register::Y),
    {
        Unsigned(self.register_values.read(&Register::Y))
    }

    /// Performs one execution step on the given instruction, which is the
    /// current one. On an error the machine is left as it stands.
    fn execute(&mut self, instruction: &Instruction) -> (r: Result<(), Error>)
        requires
            old(self).wf(),
            old(self).running,
            old(self).program_counter < old(self).instructions@.len(),
            instruction@ == old(self).prog()[old(self).program_counter as int],
        ensures
            final(self).wf(),
            final(self).prog() == old(self).prog(),
            final(self).table() == old(self).table(),
            match r {
                Ok(()) => spec_step(old(self).prog(), old(self).table(), old(self).cfg())
                    == Ok::<Config, ErrorV>(final(self).cfg()),
                Err(e) => spec_step(old(self).prog(), old(self).table(), old(self).cfg())
                    == Err::<Config, ErrorV>(e@) && final(self).cfg() == old(self).cfg(),
            },
    {
        proof {
            vstd::std_specs::vec::axiom_spec_len(&self.instructions);
        }
        match instruction {
            Instruction::Increment(reg) => {
                let v = self.register_values.read(reg);
                if v == usize::MAX {
                    return Err(Error::CounterOverflow);
                }
                self.register_values.set(*reg, Unsigned(v + 1));
                self.program_counter = self.program_counter + 1;
                proof {
                    assert(spec_step(old(self).prog(), old(self).table(), old(self).cfg())
                        == Ok::<Config, ErrorV>(self.cfg()));
                }
                Ok(())
            },
            Instruction::Decrement(reg) => {
                let v = self.register_values.read(reg);
                let w = if v > 0 {
                    v - 1
                } else {
                    0
                };
                self.register_values.set(*reg, Unsigned(w));
                self.program_counter = self.program_counter + 1;
                proof {
                    assert(spec_step(old(self).prog(), old(self).table(), old(self).cfg())
                        == Ok::<Config, ErrorV>(self.cfg()));
                }
                Ok(())
            },
            Instruction::Conditional(reg, l) => {
                let v = self.register_values.read(reg);
                if v != 0 {
                    match self.jump_table.get(l) {
                        Some(t) => {
                            self.program_counter = *t;
                            proof {
                                assert(spec_step(
                                    old(self).prog(),
                                    old(self).table(),
                                    old(self).cfg(),
                                ) == Ok::<Config, ErrorV>(self.cfg()));
                            }
                            Ok(())
                        },
                        None => Err(Error::UnresolvedLabel(l.duplicate())),
                    }
                } else {
                    self.program_counter = self.program_counter + 1;
                    proof {
                        assert(spec_step(old(self).prog(), old(self).table(), old(self).cfg())
                            == Ok::<Config, ErrorV>(self.cfg()));
                    }
                    Ok(())
                }
            },
            Instruction::Goto(l) => {
                match self.jump_table.get(l) {
                    Some(t) => {
                        self.program_counter = *t;
                        proof {
                            assert(spec_step(old(self).prog(), old(self).table(), old(self).cfg())
                                == Ok::<Config, ErrorV>(self.cfg()));
                        }
                        Ok(())
                    },
                    None => Err(Error::UnresolvedLabel(l.duplicate())),
                }
            },
            Instruction::Stop => {
                self.running = false;
                proof {
                    assert(spec_step(old(self).prog(), old(self).table(), old(self).cfg())
                        == Ok::<Config, ErrorV>(self.cfg()));
                }
                Ok(())
            },
        }
    }

    /// Runs the machine for at most `max_steps` execution steps. `Ok(true)`
    /// means the machine halted; `Ok(false)` means the step bound cut the
    /// run short while the machine was still running — the language admits
    /// programs that loop forever, so a caller bounds each call and may
    /// simply call again. An error reports the step that could not be
    /// taken; the machine is left at the point just before it.
    pub fn run(&mut self, max_steps: usize) -> (r: Result<bool, Error>)
        requires
            old(self).wf(),
        ensures
            final(self).wf(),
            final(self).prog() == old(self).prog(),
            final(self).table() == old(self).table(),
            match r {
                Ok(halted) => {
                    &&& halted == !final(self).cfg().running
                    &&& if halted {
                        exists|n: int|
                            0 <= n <= max_steps && #[trigger] run_n(
                                old(self).prog(),
                                old(self).table(),
                                old(self).cfg(),
                                n as nat,
                            ) == Ok::<Config, ErrorV>(final(self).cfg())
                    } else {
                        run_n(
                            old(self).prog(),
                            old(self).table(),
                            old(self).cfg(),
                            max_steps as nat,
                        ) == Ok::<Config, ErrorV>(final(self).cfg())
                    }
                },
                Err(e) => exists|n: int|
                    0 <= n < max_steps && #[trigger] run_n(
                        old(self).prog(),
                        old(self).table(),
                        old(self).cfg(),
                        n as nat,
                    ) == Ok::<Config, ErrorV>(final(self).cfg()) && spec_step(
                        old(self).prog(),
                        old(self).table(),
                        final(self).cfg(),
                    ) == Err::<Config, ErrorV>(e@),
            },
    {
        let ghost p = self.prog();
        let ghost t = self.table();
        let ghost c0 = self.cfg();
        let mut steps: usize = 0;
        #[verifier::loop_isolation(false)]
        while self.running && steps < max_steps
            invariant
                self.wf(),
                self.prog() == p,
                self.table() == t,
                steps <= max_steps,
                run_n(p, t, c0, steps as nat) == Ok::<Config, ErrorV>(self.cfg()),
            decreases max_steps - steps,
        {
            let ghost cprev = self.cfg();
            proof {
                assert(run_n(p, t, c0, (steps + 1) as nat) == spec_step(p, t, cprev));
            }
            if self.program_counter < self.instructions.len() {
                let instruction = self.instructions[self.program_counter].duplicate();
                match self.execute(&instruction) {
                    Ok(()) => {},
                    Err(e) => {
                        proof {
                            let n = steps as int;
                            assert(0 <= n < max_steps);
                            assert(run_n(p, t, c0, n as nat) == Ok::<Config, ErrorV>(
                                self.cfg(),
                            ));
                            assert(spec_step(p, t, self.cfg()) == Err::<Config, ErrorV>(e@));
                        }
                        return Err(e);
                    },
                }
            } else {
                self.running = false;
                proof {
                    assert(spec_step(p, t, cprev) == Ok::<Config, ErrorV>(self.cfg())) by {
                        assert((Config { running: false, ..cprev }) =~~= self.cfg());
                    }
                }
            }
            steps = steps + 1;
        }
        proof {
            if self.running {
                assert(steps == max_steps);
            } else {
                let n = steps as int;
                assert(0 <= n <= max_steps && run_n(p, t, c0, n as nat) == Ok::<Config, ErrorV>(
                    self.cfg(),
                ));
            }
        }
        Ok(!self.running)
    }
}

/// The register state a list of input values sets up: the `i`-th value in
/// input register `X<i>`, nothing else present.
pub open spec fn input_map(s: Seq<usize>) -> Map<Register, usize>
    decreases s.len(),
{
    if s.len() == 0 {
        Map::empty()
    } else {
        input_map(s.drop_last()).insert(
            Register::X(Unsigned((s.len() - 1) as usize)),
            s.last(),
        )
    }
}

/// The configuration a run starts from: the counter at the first
/// instruction, the inputs in their registers, the machine running.
pub open spec fn initial_config(inputs: Seq<usize>) -> Config {
    Config { pc: 0, regs: input_map(inputs), running: true }
}

/// Parses a program and runs it on the given inputs, for at most
/// `max_steps` execution steps: the whole pipeline in one call.
/// `Ok(Some(y))` is the output register of the halted machine;
/// `Ok(None)` means the step bound cut the run short; an error is the
/// first syntax error or the first step that could not be taken.
pub fn interpret(lines: &Vec<&str>, inputs: Vec<usize>, max_steps: usize) -> (r: Result<
    Option<usize>,
    Error,
>)
    ensures
        ({
            let pr = lines_effect(initial_parser(), lines_view(lines@), lines@.len() as int);
            match pr {
                Err(t) => r matches Err(e) && e@ == ErrorV::SyntaxError(t),
                Ok(p) => {
                    let c0 = initial_config(inputs@);
                    match r {
                        Ok(Some(y)) => exists|n: int|
                            0 <= n <= max_steps && ((#[trigger] run_n(
                                p.instructions,
                                p.jump_table,
                                c0,
                                n as nat,
                            )) matches Ok(c2) && !c2.running && y == reg_read(
                                c2.regs,
                                Register::Y,
                            )),
                        Ok(None) => run_n(
                            p.instructions,
                            p.jump_table,
                            c0,
                            max_steps as nat,
                        ) matches Ok(c2) && c2.running,
                        Err(e) => exists|n: int|
                            0 <= n < max_steps && ((#[trigger] run_n(
                                p.instructions,
                                p.jump_table,
                                c0,
                                n as nat,
                            )) matches Ok(c2) && spec_step(p.instructions, p.jump_table, c2)
                                == Err::<Config, ErrorV>(e@)),
                    }
                },
            }
        }),
{
    let mut parser = Parser::new();
    match parser.parse_lines(lines) {
        Ok(()) => {},
        Err(e) => {
            return Err(e);
        },
    }
    let ghost p = parser@;
    let mut machine = MachineState::new(inputs, parser.instructions, parser.jump_table);
    proof {
        assert(machine.prog() == p.instructions);
        assert(machine.table() == p.jump_table);
        assert(machine.cfg() == initial_config(inputs@));
    }
    match machine.run(max_steps) {
        Ok(true) => Ok(Some(machine.get_y().0)),
        Ok(false) => Ok(None),
        Err(e) => Err(e),
    }
}

} // verus!
