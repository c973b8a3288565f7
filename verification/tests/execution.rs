use bf::interpreter::{InterpretLogEntry, Interpreter, IoFault, RunStop};
use bf::parser::Ast;

fn run_to_end(src: &str, input: Vec<u8>) -> (Vec<u8>, Vec<u8>, usize) {
    let ast = Ast::parse(src).unwrap();
    let mut machine = Interpreter::new(&ast, input, Vec::new());
    machine.interpret_all().unwrap();
    (
        machine.output().clone(),
        machine.tape().clone(),
        machine.pointer(),
    )
}

#[test]
fn decrement_wraps_to_255() {
    let (output, _, _) = run_to_end("-.", vec![]);
    assert_eq!(output, vec![255]);
}

#[test]
fn increment_wraps_to_zero() {
    let mut src = "+".repeat(256);
    src.push('.');
    let (output, _, _) = run_to_end(&src, vec![]);
    assert_eq!(output, vec![0]);
}

#[test]
fn tape_extends_past_ten_cells() {
    let (output, tape, pointer) = run_to_end(">>>>>>>>>>.", vec![]);
    assert_eq!(output, vec![0]);
    assert_eq!(pointer, 10);
    assert_eq!(tape.len(), 20);
    assert!(tape.iter().all(|&c| c == 0));
}

#[test]
fn move_left_at_zero_stays_at_zero() {
    let (output, _, pointer) = run_to_end("<+.", vec![]);
    assert_eq!(output, vec![1]);
    assert_eq!(pointer, 0);
}

#[test]
fn loop_event_stream() {
    let ast = Ast::parse("+++[-]").unwrap();
    let mut machine = Interpreter::new(&ast, vec![], Vec::new());
    let mut events = Vec::new();
    while let Some(e) = machine.next().unwrap() {
        events.push(e);
    }
    assert_eq!(
        events,
        vec![
            InterpretLogEntry::Incr,
            InterpretLogEntry::Incr,
            InterpretLogEntry::Incr,
            InterpretLogEntry::WalkIntoLoop,
            InterpretLogEntry::Decr,
            InterpretLogEntry::JumpBack,
            InterpretLogEntry::Decr,
            InterpretLogEntry::JumpBack,
            InterpretLogEntry::Decr,
            InterpretLogEntry::WalkOutOfLoop,
            InterpretLogEntry::JumpAhead,
        ]
    );
    assert_eq!(machine.tape()[0], 0);
}

#[test]
fn round_trip_byte_increment() {
    let (output, _, _) = run_to_end(",+.", vec![65]);
    assert_eq!(output, vec![66]);
}

#[test]
fn nested_loops_terminate_deterministically() {
    let (output, tape, pointer) = run_to_end("++[>+++[>+<-]<-]", vec![]);
    assert_eq!(output, vec![]);
    assert_eq!(tape, vec![0, 0, 6, 0, 0, 0, 0, 0, 0, 0]);
    assert_eq!(pointer, 0);
}

#[test]
fn abandoning_the_stream_keeps_output_intact() {
    // Looks nonterminating when pulled only a few steps; the output holds
    // exactly the bytes written so far, and dropping the machine needs no
    // cleanup.
    let ast = Ast::parse("+[.]").unwrap();
    let mut machine = Interpreter::new(&ast, vec![], Vec::new());
    let mut pulled = Vec::new();
    for _ in 0..8 {
        pulled.push(machine.next().unwrap().unwrap());
    }
    assert_eq!(
        pulled,
        vec![
            InterpretLogEntry::Incr,
            InterpretLogEntry::WalkIntoLoop,
            InterpretLogEntry::Output(1),
            InterpretLogEntry::JumpBack,
            InterpretLogEntry::Output(1),
            InterpretLogEntry::JumpBack,
            InterpretLogEntry::Output(1),
            InterpretLogEntry::JumpBack,
        ]
    );
    assert_eq!(machine.output().clone(), vec![1, 1, 1]);
    drop(machine);
}

#[test]
fn exhausted_input_faults() {
    let ast = Ast::parse(",").unwrap();
    let mut machine = Interpreter::new(&ast, vec![], Vec::new());
    assert_eq!(machine.next(), Err(IoFault::ReadFailed));
    assert_eq!(machine.interpret_all(), Err(RunStop::Fault(IoFault::ReadFailed)));
}

#[test]
fn reads_consume_input_in_order() {
    let (output, _, _) = run_to_end(",>,>,.<.<.", vec![7, 8, 9]);
    assert_eq!(output, vec![9, 8, 7]);
}

#[test]
fn demo_program_prints_two_characters() {
    let (output, _, _) = run_to_end("+++++++[>+++++++++>+++++++<<-]>---.>++.", vec![1, 2, 3]);
    assert_eq!(String::from_utf8(output).unwrap(), "<3");
}

#[test]
fn skipped_loop_emits_jump_ahead() {
    let ast = Ast::parse("[-]").unwrap();
    let mut machine = Interpreter::new(&ast, vec![], Vec::new());
    assert_eq!(machine.next(), Ok(Some(InterpretLogEntry::JumpAhead)));
    assert_eq!(machine.next(), Ok(None));
    assert_eq!(machine.next(), Ok(None));
}

#[test]
fn initial_output_sink_contents_are_kept() {
    let ast = Ast::parse("+.").unwrap();
    let mut machine = Interpreter::new(&ast, vec![], vec![42]);
    machine.interpret_all().unwrap();
    assert_eq!(machine.output().clone(), vec![42, 1]);
    // interpret_all returning Ok means the machine really terminated
    assert_eq!(machine.next(), Ok(None));
}
