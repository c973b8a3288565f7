//! The stepping interpreter over a parsed instruction tree.
//!
//! Execution is pull-based: each call of [`Interpreter::next`] performs
//! exactly one instruction effect or one loop-control transition and reports
//! it as an [`InterpretLogEntry`]. Nested loops run through an explicit stack
//! of execution frames instead of native recursion, so a caller may pause,
//! resume, or abandon execution between any two steps.

use vstd::prelude::*;

use crate::parser::{Ast, Instr, Token, lemma_tokens_view_index, lemma_tokens_view_len, tokens_view};

verus! {

/// One observable unit of interpreter progress.
#[derive(Debug, Clone, Copy, PartialEq, Eq, Structural)]
pub enum InterpretLogEntry {
    Next,
    Previous,
    Incr,
    Decr,
    Input(u8),
    Output(u8),
    JumpBack,
    JumpAhead,
    WalkIntoLoop,
    WalkOutOfLoop,
}

/// Why a step could not run: a byte collaborator failed.
#[derive(Debug, Clone, Copy, PartialEq, Eq, Structural)]
pub enum IoFault {
    /// The input source was exhausted on a read instruction.
    ReadFailed,
    /// The output sink rejected a byte on a write instruction. With the
    /// in-memory sink this library uses, writes cannot fail, so no step ever
    /// returns this fault ([`lemma_only_exhausted_read_faults`] proves it);
    /// the variant names the write-fault half of the fault taxonomy that a
    /// host wiring in a fallible sink would report.
    WriteFailed,
}

/// Why [`Interpreter::interpret_all`] stopped short of termination.
#[derive(Debug, Clone, Copy, PartialEq, Eq, Structural)]
pub enum RunStop {
    /// A byte collaborator failed; the step stream is aborted.
    Fault(IoFault),
    /// The driver's step budget ran out with the program still running.
    OutOfSteps,
}

/// One execution frame: a loop body being run, and the program counter to
/// resume at in the parent body once this loop exits. The bottom frame is the
/// program root; its resume position is an unused sentinel.
#[verifier::ext_equal]
pub struct Frame {
    pub ret: nat,
    pub body: Seq<Instr>,
}

/// The mathematical state of the machine: tape, data pointer, remaining
/// input, output written so far, the loop stack, and the program counter
/// into the body at the top of the stack.
#[verifier::ext_equal]
pub struct State {
    pub mem: Seq<u8>,
    pub idx: nat,
    pub input: Seq<u8>,
    pub output: Seq<u8>,
    pub stack: Seq<Frame>,
    pub pc: nat,
}

impl State {
    /// The machine shape every reachable state keeps: the root frame is
    /// always present and the data pointer never runs past the tape.
    pub open spec fn wf(self) -> bool {
        self.stack.len() >= 1 && self.idx <= self.mem.len()
    }
}

/// The state a freshly constructed interpreter is in: a ten-cell zero tape,
/// pointer at zero, the whole program as the root frame.
pub open spec fn init_state(prog: Seq<Instr>, input: Seq<u8>, output: Seq<u8>) -> State {
    State {
        mem: Seq::new(10, |j: int| 0u8),
        idx: 0,
        input,
        output,
        stack: seq![Frame { ret: 0, body: prog }],
        pc: 0,
    }
}

/// Increment with byte wraparound.
pub open spec fn wrap_inc(b: u8) -> u8 {
    if b == 255 {
        0
    } else {
        (b + 1) as u8
    }
}

/// Decrement with byte wraparound.
pub open spec fn wrap_dec(b: u8) -> u8 {
    if b == 0 {
        255
    } else {
        (b - 1) as u8
    }
}

/// The tape after making the pointed-at cell addressable: whenever the
/// pointer is past the end, the tape grows by ten-cell chunks of zeros —
/// exactly up to the pointer plus ten. The tape never shrinks.
pub open spec fn grow_to_cover(mem: Seq<u8>, idx: nat) -> Seq<u8> {
    if idx >= mem.len() {
        mem + Seq::new((idx + 10 - mem.len()) as nat, |j: int| 0u8)
    } else {
        mem
    }
}

/// Tape auto-extension never fails and never loses a cell: making the
/// pointed-at cell addressable leaves the pointer inside the tape, keeps
/// every existing cell's value, and every freshly added cell reads zero.
pub proof fn lemma_grow_keeps_cells(mem: Seq<u8>, idx: nat)
    ensures
        idx < grow_to_cover(mem, idx).len(),
        mem.len() <= grow_to_cover(mem, idx).len(),
        forall|j: int| 0 <= j < mem.len() ==> grow_to_cover(mem, idx)[j] == mem[j],
        forall|j: int|
            mem.len() <= j < grow_to_cover(mem, idx).len() ==> grow_to_cover(mem, idx)[j] == 0u8,
{
}

/// What handling one instruction does, before the program counter moves.
pub enum HandleOutcome {
    Handled { post: State, event: InterpretLogEntry },
    Fault { post: State, fault: IoFault },
}

/// The effect of one instruction on the machine state. The pointed-at cell
/// is made addressable first, so the tape may grow on any instruction; the
/// program counter is untouched here (stepping adjusts it afterwards).
pub open spec fn handle_spec(s: State, ins: Instr) -> HandleOutcome {
    let mem2 = grow_to_cover(s.mem, s.idx);
    let cell = mem2[s.idx as int];
    match ins {
        Instr::Next => HandleOutcome::Handled {
            post: State { mem: mem2, idx: s.idx + 1, ..s },
            event: InterpretLogEntry::Next,
        },
        Instr::Previous => HandleOutcome::Handled {
            post: State {
                mem: mem2,
                idx: if s.idx == 0 {
                    0
                } else {
                    (s.idx - 1) as nat
                },
                ..s
            },
            event: InterpretLogEntry::Previous,
        },
        Instr::Incr => HandleOutcome::Handled {
            post: State { mem: mem2.update(s.idx as int, wrap_inc(cell)), ..s },
            event: InterpretLogEntry::Incr,
        },
        Instr::Decr => HandleOutcome::Handled {
            post: State { mem: mem2.update(s.idx as int, wrap_dec(cell)), ..s },
            event: InterpretLogEntry::Decr,
        },
        Instr::Input => if s.input.len() == 0 {
            HandleOutcome::Fault {
                post: State { mem: mem2, ..s },
                fault: IoFault::ReadFailed,
            }
        } else {
            HandleOutcome::Handled {
                post: State {
                    mem: mem2.update(s.idx as int, s.input[0]),
                    input: s.input.drop_first(),
                    ..s
                },
                event: InterpretLogEntry::Input(s.input[0]),
            }
        },
        Instr::Output => HandleOutcome::Handled {
            post: State { mem: mem2, output: s.output.push(cell), ..s },
            event: InterpretLogEntry::Output(cell),
        },
        Instr::Loop(body) => if cell != 0 {
            HandleOutcome::Handled {
                post: State { mem: mem2, stack: s.stack.push(Frame { ret: s.pc, body }), ..s },
                event: InterpretLogEntry::WalkIntoLoop,
            }
        } else {
            HandleOutcome::Handled {
                post: State { mem: mem2, ..s },
                event: InterpretLogEntry::JumpAhead,
            }
        },
    }
}

/// What one pull of the interpreter does.
pub enum StepOutcome {
    /// The root body is exhausted: execution has terminated.
    Finished,
    /// An input or output collaborator failed; `post` is the state the
    /// machine is left in (the step had no other effect).
    Fault { post: State, fault: IoFault },
    /// One instruction effect or loop-control transition happened.
    Step { post: State, event: InterpretLogEntry },
}

/// The single-step transition of the machine.
///
/// In a body: the instruction at the program counter runs, then the counter
/// advances — except that entering a loop pushes a frame recording the
/// loop's own position and restarts the counter at the top of its body.
/// At the end of a body: the root frame finishing ends execution; otherwise
/// a zero cell pops the frame and resumes at the recorded position (where
/// the loop instruction itself is retested), and a nonzero cell restarts
/// the same body.
pub open spec fn step_spec(s: State) -> StepOutcome {
    if s.stack.len() == 0 {
        StepOutcome::Finished
    } else {
        let frame = s.stack.last();
        if s.pc >= frame.body.len() {
            if s.stack.len() == 1 {
                StepOutcome::Finished
            } else {
                let mem2 = grow_to_cover(s.mem, s.idx);
                let cell = mem2[s.idx as int];
                if cell == 0 {
                    StepOutcome::Step {
                        post: State { mem: mem2, stack: s.stack.drop_last(), pc: frame.ret, ..s },
                        event: InterpretLogEntry::WalkOutOfLoop,
                    }
                } else {
                    StepOutcome::Step {
                        post: State { mem: mem2, pc: 0, ..s },
                        event: InterpretLogEntry::JumpBack,
                    }
                }
            }
        } else {
            match handle_spec(s, frame.body[s.pc as int]) {
                HandleOutcome::Handled { post, event } => StepOutcome::Step {
                    post: State {
                        pc: if event is WalkIntoLoop {
                            0
                        } else {
                            s.pc + 1
                        },
                        ..post
                    },
                    event,
                },
                HandleOutcome::Fault { post, fault } => StepOutcome::Fault { post, fault },
            }
        }
    }
}

/// The machine runs from `s1` to `s2` producing exactly the events `t`.
pub open spec fn runs_to(s1: State, s2: State, t: Seq<InterpretLogEntry>) -> bool
    decreases t.len(),
{
    if t.len() == 0 {
        s1 == s2
    } else {
        match step_spec(s1) {
            StepOutcome::Step { post, event } => event == t[0] && runs_to(post, s2, t.drop_first()),
            _ => false,
        }
    }
}

/// A run can be extended by one more step at its end.
pub proof fn lemma_runs_to_snoc(s1: State, s2: State, s3: State, t: Seq<InterpretLogEntry>, e: InterpretLogEntry)
    requires
        runs_to(s1, s2, t),
        step_spec(s2) == (StepOutcome::Step { post: s3, event: e }),
    ensures
        runs_to(s1, s3, t.push(e)),
    decreases t.len(),
{
    assert(t.push(e)[0] == if t.len() == 0 {
        e
    } else {
        t[0]
    });
    if t.len() == 0 {
        assert(t.push(e).drop_first() =~= Seq::<InterpretLogEntry>::empty());
        assert(runs_to(s3, s3, Seq::<InterpretLogEntry>::empty()));
    } else {
        let post = step_spec(s1)->Step_post;
        assert(t.push(e).drop_first() =~= t.drop_first().push(e));
        lemma_runs_to_snoc(post, s2, s3, t.drop_first(), e);
    }
}

/// Every step preserves the machine shape.
pub proof fn lemma_step_preserves_wf(s: State)
    requires
        s.wf(),
    ensures
        step_spec(s) matches StepOutcome::Step { post, .. } ==> post.wf(),
        step_spec(s) matches StepOutcome::Fault { post, .. } ==> post.wf(),
{
}

/// Output already written is never disturbed: a step only ever appends to
/// the output, and a faulting or finishing step leaves it exactly as it was.
/// Stopping mid-stream therefore loses nothing that was already emitted.
pub proof fn lemma_step_output_monotone(s: State)
    ensures
        step_spec(s) matches StepOutcome::Step { post, .. } ==> s.output.is_prefix_of(post.output),
        step_spec(s) matches StepOutcome::Fault { post, .. } ==> post.output == s.output,
{
    match step_spec(s) {
        StepOutcome::Step { post, .. } => {
            assert(s.output.is_prefix_of(post.output)) by {
                assert(post.output.take(s.output.len() as int) =~= s.output);
            }
        },
        _ => {},
    }
}

/// The tape never shrinks: whatever a step does, the tape afterwards is at
/// least as long as before.
pub proof fn lemma_tape_never_shrinks(s: State)
    ensures
        step_spec(s) matches StepOutcome::Step { post, .. } ==> post.mem.len() >= s.mem.len(),
        step_spec(s) matches StepOutcome::Fault { post, .. } ==> post.mem.len() >= s.mem.len(),
{
    lemma_grow_keeps_cells(s.mem, s.idx);
}

/// Over a whole run of any length, the output only ever grows: abandoning
/// the machine after any number of pulled steps leaves the output holding
/// exactly the bytes written so far, never corrupted by the stop.
pub proof fn lemma_run_output_monotone(s1: State, s2: State, t: Seq<InterpretLogEntry>)
    requires
        runs_to(s1, s2, t),
    ensures
        s1.output.is_prefix_of(s2.output),
    decreases t.len(),
{
    if t.len() == 0 {
        assert(s1.output.take(s1.output.len() as int) =~= s1.output);
    } else {
        let post = step_spec(s1)->Step_post;
        lemma_step_output_monotone(s1);
        lemma_run_output_monotone(post, s2, t.drop_first());
        assert(s2.output.take(s1.output.len() as int) =~= s1.output);
    }
}

/// Only a read instruction on exhausted input can fault: pointer moves,
/// arithmetic, loop control and writes to the byte sink always succeed.
pub proof fn lemma_only_exhausted_read_faults(s: State)
    ensures
        step_spec(s) matches StepOutcome::Fault { fault, .. } ==> {
            &&& fault == IoFault::ReadFailed
            &&& s.stack.len() >= 1
            &&& s.pc < s.stack.last().body.len()
            &&& s.stack.last().body[s.pc as int] is Input
            &&& s.input.len() == 0
        },
{
}

/// Increment and decrement wrap modulo 256 and never fault: the pointed-at
/// cell (made addressable first) becomes its old value plus or minus one
/// with byte wraparound — 255 increments to 0, 0 decrements to 255 — and
/// the pointer, program counter, stack, input, output, and every other cell
/// are unchanged.
pub proof fn lemma_wrap_laws(s: State)
    ensures
        wrap_inc(255) == 0 && wrap_dec(0) == 255,
        forall|b: u8| #[trigger] wrap_inc(b) == ((b + 1) % 256) as u8,
        forall|b: u8| #[trigger] wrap_dec(b) == ((b + 255) % 256) as u8,
        handle_spec(s, Instr::Incr) is Handled,
        handle_spec(s, Instr::Decr) is Handled,
        handle_spec(s, Instr::Incr) matches HandleOutcome::Handled { post, event } ==> {
            &&& event == InterpretLogEntry::Incr
            &&& post.mem[s.idx as int] == wrap_inc(grow_to_cover(s.mem, s.idx)[s.idx as int])
            &&& post.mem.len() == grow_to_cover(s.mem, s.idx).len()
            &&& forall|j: int|
                0 <= j < post.mem.len() && j != s.idx ==> post.mem[j] == grow_to_cover(
                    s.mem,
                    s.idx,
                )[j]
            &&& post.idx == s.idx && post.pc == s.pc && post.stack == s.stack
            &&& post.input == s.input && post.output == s.output
        },
        handle_spec(s, Instr::Decr) matches HandleOutcome::Handled { post, event } ==> {
            &&& event == InterpretLogEntry::Decr
            &&& post.mem[s.idx as int] == wrap_dec(grow_to_cover(s.mem, s.idx)[s.idx as int])
            &&& post.mem.len() == grow_to_cover(s.mem, s.idx).len()
            &&& forall|j: int|
                0 <= j < post.mem.len() && j != s.idx ==> post.mem[j] == grow_to_cover(
                    s.mem,
                    s.idx,
                )[j]
            &&& post.idx == s.idx && post.pc == s.pc && post.stack == s.stack
            &&& post.input == s.input && post.output == s.output
        },
{
    lemma_grow_keeps_cells(s.mem, s.idx);
}

/// Moving right never faults: handling `>` grows the tape only as
/// `grow_to_cover` says, moves the pointer one right, and changes nothing
/// else; and wherever the pointer thereby leaves the tape the machine had,
/// the cell it reaches reads zero once made addressable.
pub proof fn lemma_move_right_extends(s: State)
    ensures
        handle_spec(s, Instr::Next) is Handled,
        handle_spec(s, Instr::Next) matches HandleOutcome::Handled { post, event } ==> {
            &&& event == InterpretLogEntry::Next
            &&& post.idx == s.idx + 1
            &&& post.mem == grow_to_cover(s.mem, s.idx)
            &&& post.pc == s.pc && post.stack == s.stack
            &&& post.input == s.input && post.output == s.output
            &&& (post.idx >= s.mem.len() ==> grow_to_cover(post.mem, post.idx)[post.idx as int]
                == 0)
        },
{
    lemma_grow_keeps_cells(s.mem, s.idx);
    lemma_grow_keeps_cells(grow_to_cover(s.mem, s.idx), (s.idx + 1) as nat);
}

/// The payloads of the output events of a trace, in order.
pub open spec fn output_bytes(t: Seq<InterpretLogEntry>) -> Seq<u8>
    decreases t.len(),
{
    if t.len() == 0 {
        Seq::empty()
    } else {
        (match t[0] {
            InterpretLogEntry::Output(b) => seq![b],
            _ => Seq::empty(),
        }) + output_bytes(t.drop_first())
    }
}

/// One step appends to the output exactly the payload of an output event,
/// and nothing otherwise.
pub proof fn lemma_step_output_event(s: State)
    ensures
        step_spec(s) matches StepOutcome::Step { post, event } ==> post.output == s.output
            + (match event {
            InterpretLogEntry::Output(b) => seq![b],
            _ => Seq::<u8>::empty(),
        }),
{
    match step_spec(s) {
        StepOutcome::Step { post, event } => {
            match event {
                InterpretLogEntry::Output(b) => {
                    assert(post.output =~= s.output + seq![b]);
                },
                _ => {
                    assert(post.output =~= s.output + Seq::<u8>::empty());
                },
            }
        },
        _ => {},
    }
}

/// Over a whole run, the output is exactly what it started as followed by
/// the payload of every output event, in order: stopping at any point
/// leaves the sink holding precisely the bytes written so far.
pub proof fn lemma_run_output_bytes(s1: State, s2: State, t: Seq<InterpretLogEntry>)
    requires
        runs_to(s1, s2, t),
    ensures
        s2.output == s1.output + output_bytes(t),
    decreases t.len(),
{
    if t.len() == 0 {
        assert(s2.output =~= s1.output + output_bytes(t));
    } else {
        let post = step_spec(s1)->Step_post;
        lemma_step_output_event(s1);
        lemma_run_output_bytes(post, s2, t.drop_first());
        assert(s2.output =~= s1.output + output_bytes(t));
    }
}

/// The nested-loop regression fixture. The program `++[>+++[>+<-]<-]`
/// terminates: from a fresh machine with no input its step stream is finite
/// — exactly 52 steps, walked here one transition at a time — and the final
/// state is deterministic: terminated, pointer back on cell zero, cell two
/// holding six, the other cells zero, and nothing written to the output.
#[verifier::rlimit(100)]
#[verifier::spinoff_prover]
pub proof fn lemma_nested_loop_fixture() {
    let b2 = seq![Instr::Next, Instr::Incr, Instr::Previous, Instr::Decr];
    let b1 = seq![
        Instr::Next,
        Instr::Incr,
        Instr::Incr,
        Instr::Incr,
        Instr::Loop(b2),
        Instr::Previous,
        Instr::Decr,
    ];
    let prog = seq![Instr::Incr, Instr::Incr, Instr::Loop(b1)];
    let s0 = init_state(prog, Seq::empty(), Seq::empty());
    assert(step_spec(s0) is Step);
    let s1 = step_spec(s0)->Step_post;
    assert(step_spec(s1) is Step);
    let s2 = step_spec(s1)->Step_post;
    assert(step_spec(s2) is Step);
    let s3 = step_spec(s2)->Step_post;
    assert(step_spec(s3) is Step);
    let s4 = step_spec(s3)->Step_post;
    assert(step_spec(s4) is Step);
    let s5 = step_spec(s4)->Step_post;
    assert(step_spec(s5) is Step);
    let s6 = step_spec(s5)->Step_post;
    assert(step_spec(s6) is Step);
    let s7 = step_spec(s6)->Step_post;
    assert(step_spec(s7) is Step);
    let s8 = step_spec(s7)->Step_post;
    assert(step_spec(s8) is Step);
    let s9 = step_spec(s8)->Step_post;
    assert(step_spec(s9) is Step);
    let s10 = step_spec(s9)->Step_post;
    assert(step_spec(s10) is Step);
    let s11 = step_spec(s10)->Step_post;
    assert(step_spec(s11) is Step);
    let s12 = step_spec(s11)->Step_post;
    assert(step_spec(s12) is Step);
    let s13 = step_spec(s12)->Step_post;
    assert(step_spec(s13) is Step);
    let s14 = step_spec(s13)->Step_post;
    assert(step_spec(s14) is Step);
    let s15 = step_spec(s14)->Step_post;
    assert(step_spec(s15) is Step);
    let s16 = step_spec(s15)->Step_post;
    assert(step_spec(s16) is Step);
    let s17 = step_spec(s16)->Step_post;
    assert(step_spec(s17) is Step);
    let s18 = step_spec(s17)->Step_post;
    assert(step_spec(s18) is Step);
    let s19 = step_spec(s18)->Step_post;
    assert(step_spec(s19) is Step);
    let s20 = step_spec(s19)->Step_post;
    assert(step_spec(s20) is Step);
    let s21 = step_spec(s20)->Step_post;
    assert(step_spec(s21) is Step);
    let s22 = step_spec(s21)->Step_post;
    assert(step_spec(s22) is Step);
    let s23 = step_spec(s22)->Step_post;
    assert(step_spec(s23) is Step);
    let s24 = step_spec(s23)->Step_post;
    assert(step_spec(s24) is Step);
    let s25 = step_spec(s24)->Step_post;
    assert(step_spec(s25) is Step);
    let s26 = step_spec(s25)->Step_post;
    assert(step_spec(s26) is Step);
    let s27 = step_spec(s26)->Step_post;
    assert(step_spec(s27) is Step);
    let s28 = step_spec(s27)->Step_post;
    assert(step_spec(s28) is Step);
    let s29 = step_spec(s28)->Step_post;
    assert(step_spec(s29) is Step);
    let s30 = step_spec(s29)->Step_post;
    assert(step_spec(s30) is Step);
    let s31 = step_spec(s30)->Step_post;
    assert(step_spec(s31) is Step);
    let s32 = step_spec(s31)->Step_post;
    assert(step_spec(s32) is Step);
    let s33 = step_spec(s32)->Step_post;
    assert(step_spec(s33) is Step);
    let s34 = step_spec(s33)->Step_post;
    assert(step_spec(s34) is Step);
    let s35 = step_spec(s34)->Step_post;
    assert(step_spec(s35) is Step);
    let s36 = step_spec(s35)->Step_post;
    assert(step_spec(s36) is Step);
    let s37 = step_spec(s36)->Step_post;
    assert(step_spec(s37) is Step);
    let s38 = step_spec(s37)->Step_post;
    assert(step_spec(s38) is Step);
    let s39 = step_spec(s38)->Step_post;
    assert(step_spec(s39) is Step);
    let s40 = step_spec(s39)->Step_post;
    assert(step_spec(s40) is Step);
    let s41 = step_spec(s40)->Step_post;
    assert(step_spec(s41) is Step);
    let s42 = step_spec(s41)->Step_post;
    assert(step_spec(s42) is Step);
    let s43 = step_spec(s42)->Step_post;
    assert(step_spec(s43) is Step);
    let s44 = step_spec(s43)->Step_post;
    assert(step_spec(s44) is Step);
    let s45 = step_spec(s44)->Step_post;
    assert(step_spec(s45) is Step);
    let s46 = step_spec(s45)->Step_post;
    assert(step_spec(s46) is Step);
    let s47 = step_spec(s46)->Step_post;
    assert(step_spec(s47) is Step);
    let s48 = step_spec(s47)->Step_post;
    assert(step_spec(s48) is Step);
    let s49 = step_spec(s48)->Step_post;
    assert(step_spec(s49) is Step);
    let s50 = step_spec(s49)->Step_post;
    assert(step_spec(s50) is Step);
    let s51 = step_spec(s50)->Step_post;
    assert(step_spec(s51) is Step);
    let s52 = step_spec(s51)->Step_post;
    assert(step_spec(s52) is Finished);
    assert(s52.mem.len() == 10);
    assert(s52.mem[0] == 0 && s52.mem[1] == 0 && s52.mem[2] == 6);
    assert(forall|j: int| 3 <= j < 10 ==> s52.mem[j] == 0);
    assert(s52.idx == 0);
    assert(s52.output.len() == 0);
}

/// The stepping state machine. It borrows the instruction tree (execution
/// frames hold read-only views into loop bodies), owns a growable byte tape
/// and data pointer, consumes bytes from an in-memory input source, and
/// appends bytes to an in-memory output sink.
pub struct Interpreter<'a> {
    mem: Vec<u8>,
    idx: usize,
    input: Vec<u8>,
    in_pos: usize,
    output: Vec<u8>,
    stack: Vec<(usize, &'a [Token])>,
    pc: usize,
}

impl<'a> View for Interpreter<'a> {
    type V = State;

    closed spec fn view(&self) -> State {
        State {
            mem: self.mem@,
            idx: self.idx as nat,
            input: self.input@.skip(self.in_pos as int),
            output: self.output@,
            stack: Seq::new(
                self.stack@.len(),
                |i: int| Frame { ret: self.stack@[i].0 as nat, body: tokens_view(self.stack@[i].1@) },
            ),
            pc: self.pc as nat,
        }
    }
}

impl<'a> Interpreter<'a> {
    /// The representation invariant: the root frame is present, the data
    /// pointer never runs past the tape, and the input cursor never runs
    /// past the input.
    pub closed spec fn inv(&self) -> bool {
        &&& self.stack@.len() >= 1
        &&& self.idx <= self.mem@.len()
        &&& self.in_pos <= self.input@.len()
    }

    /// Build an interpreter over a borrowed program, an input source and an
    /// output sink (both plain byte buffers). The tape starts as ten zero
    /// cells with the pointer on the first.
    pub fn new(ast: &'a Ast, input: Vec<u8>, output: Vec<u8>) -> (r: Interpreter<'a>)
        ensures
            r.inv(),
            r@ == init_state(ast@, input@, output@),
    {
        let mem: Vec<u8> = vec![0u8; 10];
        let mut stack: Vec<(usize, &'a [Token])> = Vec::new();
        stack.push((0, ast.root.as_slice()));
        let r = Interpreter { mem, idx: 0, input, in_pos: 0, output, stack, pc: 0 };
        proof {
            assert(r@.mem =~= init_state(ast@, input@, output@).mem);
            assert(r@.input =~= input@);
            assert(r@.stack =~= init_state(ast@, input@, output@).stack);
            assert(r@ =~= init_state(ast@, input@, output@));
        }
        r
    }

    /// Grow the tape, by the fixed chunk, until the pointed-at cell exists.
    fn ensure_cell(&mut self)
        requires
            old(self).inv(),
        ensures
            final(self).inv(),
            final(self)@ == (State { mem: grow_to_cover(old(self)@.mem, old(self)@.idx), ..old(self)@ }),
            final(self)@.idx < final(self)@.mem.len(),
    {
        let ghost s0 = *self;
        if self.idx >= self.mem.len() {
            while self.mem.len() <= self.idx
                invariant
                    s0.mem@.len() <= self.mem@.len() <= self.idx + 1,
                    self.idx == s0.idx,
                    self.input == s0.input,
                    self.in_pos == s0.in_pos,
                    self.output == s0.output,
                    self.stack == s0.stack,
                    self.pc == s0.pc,
                    forall|j: int| 0 <= j < s0.mem@.len() ==> self.mem@[j] == s0.mem@[j],
                    forall|j: int| s0.mem@.len() <= j < self.mem@.len() ==> self.mem@[j] == 0u8,
                decreases self.idx + 1 - self.mem@.len(),
            {
                self.mem.push(0);
            }
            let mut k: usize = 0;
            while k < 9
                invariant
                    k <= 9,
                    s0.idx >= s0.mem@.len(),
                    self.mem@.len() == self.idx + 1 + k,
                    self.idx == s0.idx,
                    self.input == s0.input,
                    self.in_pos == s0.in_pos,
                    self.output == s0.output,
                    self.stack == s0.stack,
                    self.pc == s0.pc,
                    forall|j: int| 0 <= j < s0.mem@.len() ==> self.mem@[j] == s0.mem@[j],
                    forall|j: int| s0.mem@.len() <= j < self.mem@.len() ==> self.mem@[j] == 0u8,
                decreases 9 - k,
            {
                self.mem.push(0);
                k = k + 1;
            }
            proof {
                assert(self.mem@ =~= grow_to_cover(s0.mem@, s0.idx as nat));
            }
        }
        proof {
            assert(self@ =~= (State { mem: grow_to_cover(s0@.mem, s0@.idx), ..s0@ }));
        }
    }

    /// Run one instruction against the tape, input and output; the program
    /// counter is left alone (stepping adjusts it afterwards).
    fn handle_token(&mut self, t: &'a Token) -> (r: Result<InterpretLogEntry, IoFault>)
        requires
            old(self).inv(),
        ensures
            final(self).inv(),
            match handle_spec(old(self)@, t@) {
                HandleOutcome::Handled { post, event } => r == Ok::<InterpretLogEntry, IoFault>(
                    event,
                ) && final(self)@ == post,
                HandleOutcome::Fault { post, fault } => r == Err::<InterpretLogEntry, IoFault>(
                    fault,
                ) && final(self)@ == post,
            },
    {
        let ghost s0 = self@;
        self.ensure_cell();
        let ghost s1 = self@;
        match t {
            Token::Next => {
                // reading the length pins the tape (and so the pointer) under usize::MAX
                let bound = self.mem.len();
                proof {
                    assert(self.idx < bound);
                }
                self.idx = self.idx + 1;
                proof {
                    assert(self@ =~= handle_spec(s0, t@)->Handled_post);
                }
                Ok(InterpretLogEntry::Next)
            },
            Token::Previous => {
                if self.idx > 0 {
                    self.idx = self.idx - 1;
                }
                proof {
                    assert(self@ =~= handle_spec(s0, t@)->Handled_post);
                }
                Ok(InterpretLogEntry::Previous)
            },
            Token::Incr => {
                let v = self.mem[self.idx];
                let nv: u8 = if v == 255 {
                    0
                } else {
                    v + 1
                };
                self.mem[self.idx] = nv;
                proof {
                    assert(self@ =~= handle_spec(s0, t@)->Handled_post);
                }
                Ok(InterpretLogEntry::Incr)
            },
            Token::Decr => {
                let v = self.mem[self.idx];
                let nv: u8 = if v == 0 {
                    255
                } else {
                    v - 1
                };
                self.mem[self.idx] = nv;
                proof {
                    assert(self@ =~= handle_spec(s0, t@)->Handled_post);
                }
                Ok(InterpretLogEntry::Decr)
            },
            Token::Input => {
                if self.in_pos >= self.input.len() {
                    proof {
                        assert(s1.input.len() == 0);
                        assert(self@ =~= handle_spec(s0, t@)->Fault_post);
                    }
                    return Err(IoFault::ReadFailed);
                }
                let b = self.input[self.in_pos];
                self.in_pos = self.in_pos + 1;
                self.mem[self.idx] = b;
                proof {
                    assert(s1.input[0] == b);
                    assert(self@.input =~= s1.input.drop_first());
                    assert(self@ =~= handle_spec(s0, t@)->Handled_post);
                }
                Ok(InterpretLogEntry::Input(b))
            },
            Token::Output => {
                let v = self.mem[self.idx];
                self.output.push(v);
                proof {
                    assert(self@ =~= handle_spec(s0, t@)->Handled_post);
                }
                Ok(InterpretLogEntry::Output(v))
            },
            Token::Loop(subtree) => {
                let v = self.mem[self.idx];
                if v > 0 {
                    self.stack.push((self.pc, subtree.as_slice()));
                    proof {
                        assert(self@.stack =~= s1.stack.push(
                            Frame { ret: s0.pc, body: tokens_view(subtree@) },
                        ));
                        assert(self@ =~= handle_spec(s0, t@)->Handled_post);
                    }
                    Ok(InterpretLogEntry::WalkIntoLoop)
                } else {
                    proof {
                        assert(self@ =~= handle_spec(s0, t@)->Handled_post);
                    }
                    Ok(InterpretLogEntry::JumpAhead)
                }
            },
        }
    }

    /// Pull one step of execution.
    ///
    /// Returns `Ok(Some(event))` after performing exactly one instruction
    /// effect or loop-control transition, `Ok(None)` once the root body is
    /// exhausted (termination; the machine is left unchanged), and
    /// `Err(fault)` when a byte collaborator fails, aborting the stream.
    pub fn next(&mut self) -> (r: Result<Option<InterpretLogEntry>, IoFault>)
        requires
            old(self).inv(),
        ensures
            final(self).inv(),
            match step_spec(old(self)@) {
                StepOutcome::Finished => r == Ok::<Option<InterpretLogEntry>, IoFault>(None)
                    && final(self)@ == old(self)@,
                StepOutcome::Fault { post, fault } => r == Err::<
                    Option<InterpretLogEntry>,
                    IoFault,
                >(fault) && final(self)@ == post,
                StepOutcome::Step { post, event } => r == Ok::<
                    Option<InterpretLogEntry>,
                    IoFault,
                >(Some(event)) && final(self)@ == post,
            },
    {
        let ghost s0 = self@;
        let slen = self.stack.len();
        let (ret_addr, stack_top): (usize, &'a [Token]) = self.stack[slen - 1];
        proof {
            assert(s0.stack.last().body == tokens_view(stack_top@));
            assert(s0.stack.last().ret == ret_addr as nat);
        }
        if self.pc >= stack_top.len() {
            proof {
                assert(tokens_view(stack_top@).len() == stack_top@.len()) by {
                    lemma_tokens_view_len(stack_top@);
                }
            }
            if slen == 1 {
                return Ok(None);
            }
            self.ensure_cell();
            let cur = self.mem[self.idx];
            if cur == 0 {
                let ghost pre_pop = self@;
                let _popped = self.stack.pop();
                self.pc = ret_addr;
                proof {
                    assert(self@.stack =~= pre_pop.stack.drop_last());
                    assert(self@ =~= step_spec(s0)->Step_post);
                }
                Ok(Some(InterpretLogEntry::WalkOutOfLoop))
            } else {
                self.pc = 0;
                proof {
                    assert(self@ =~= step_spec(s0)->Step_post);
                }
                Ok(Some(InterpretLogEntry::JumpBack))
            }
        } else {
            proof {
                assert(tokens_view(stack_top@).len() == stack_top@.len()) by {
                    lemma_tokens_view_len(stack_top@);
                }
                lemma_tokens_view_index(stack_top@, self.pc as int);
            }
            let pc = self.pc;
            let t: &'a Token = &stack_top[pc];
            proof {
                assert(t@ == s0.stack.last().body[s0.pc as int]);
            }
            match self.handle_token(t) {
                Ok(e) => {
                    if matches!(e, InterpretLogEntry::WalkIntoLoop) {
                        self.pc = 0;
                    } else {
                        self.pc = pc + 1;
                    }
                    proof {
                        assert(self@ =~= step_spec(s0)->Step_post);
                    }
                    Ok(Some(e))
                },
                Err(f) => {
                    proof {
                        assert(self@ =~= step_spec(s0)->Fault_post);
                    }
                    Err(f)
                },
            }
        }
    }

    /// Run until the program terminates or a collaborator faults, pulling
    /// steps one after another and discarding the events. `Ok(())` means the
    /// machine terminated: the root body is exhausted and every further pull
    /// returns `Ok(None)`. On a fault the machine is left exactly as the
    /// faulting step left it. In every case the final state is reached from
    /// the starting one by some finite event stream.
    ///
    /// The driver itself is total: it pulls at most `u64::MAX` steps — a
    /// bound centuries of machine time cannot reach — and reports
    /// [`RunStop::OutOfSteps`] if the program is still running then, rather
    /// than passing that state off as termination.
    pub fn interpret_all(&mut self) -> (r: Result<(), RunStop>)
        requires
            old(self).inv(),
        ensures
            final(self).inv(),
            match r {
                Ok(()) => step_spec(final(self)@) is Finished && exists|
                    t: Seq<InterpretLogEntry>,
                |
                    #[trigger] runs_to(old(self)@, final(self)@, t),
                Err(RunStop::Fault(f)) => exists|t: Seq<InterpretLogEntry>, pre: State|
                    #[trigger] runs_to(old(self)@, pre, t) && step_spec(pre) == (StepOutcome::Fault {
                        post: final(self)@,
                        fault: f,
                    }),
                Err(RunStop::OutOfSteps) => exists|t: Seq<InterpretLogEntry>|
                    #[trigger] runs_to(old(self)@, final(self)@, t) && t.len() == u64::MAX,
            },
    {
        let ghost start = self@;
        let ghost mut trace: Seq<InterpretLogEntry> = Seq::empty();
        let mut steps: u64 = 0;
        while steps < u64::MAX
            invariant
                start == old(self)@,
                self.inv(),
                runs_to(start, self@, trace),
                trace.len() == steps,
            decreases u64::MAX - steps,
        {
            let ghost pre = self@;
            match self.next() {
                Ok(Some(_)) => {
                    proof {
                        let ev = step_spec(pre)->Step_event;
                        lemma_runs_to_snoc(start, pre, self@, trace, ev);
                        trace = trace.push(ev);
                    }
                },
                Ok(None) => {
                    proof {
                        assert(step_spec(self@) is Finished);
                        assert(exists|t: Seq<InterpretLogEntry>|
                            #[trigger] runs_to(start, self@, t)) by {
                            assert(runs_to(start, self@, trace));
                        }
                    }
                    return Ok(());
                },
                Err(f) => {
                    proof {
                        assert(exists|t: Seq<InterpretLogEntry>, pre2: State|
                            #[trigger] runs_to(start, pre2, t) && step_spec(pre2)
                                == (StepOutcome::Fault { post: self@, fault: f })) by {
                            assert(runs_to(start, pre, trace));
                            assert(step_spec(pre) == (StepOutcome::Fault {
                                post: self@,
                                fault: f,
                            }));
                        }
                    }
                    return Err(RunStop::Fault(f));
                },
            }
            steps = steps + 1;
        }
        proof {
            assert(exists|t: Seq<InterpretLogEntry>|
                #[trigger] runs_to(start, self@, t) && t.len() == u64::MAX) by {
                assert(runs_to(start, self@, trace) && trace.len() == u64::MAX);
            }
        }
        Err(RunStop::OutOfSteps)
    }

    /// The bytes written to the output sink so far.
    pub fn output(&self) -> (r: &Vec<u8>)
        ensures
            r@ == self@.output,
    {
        &self.output
    }

    /// The tape as it stands.
    pub fn tape(&self) -> (r: &Vec<u8>)
        ensures
            r@ == self@.mem,
    {
        &self.mem
    }

    /// The current data pointer.
    pub fn pointer(&self) -> (r: usize)
        ensures
            r == self@.idx,
    {
        self.idx
    }
}

} // verus!

