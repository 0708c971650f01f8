use band_interpreter::console::Console;
use band_interpreter::engine::Fault;
use band_interpreter::program::instructions;
use band_interpreter::tape::Band;

const LIMIT: u64 = 1_000_000;

fn run_main(code: &str, input: &[u8]) -> (Band, Console, Result<(), Fault>) {
    let program = instructions(code);
    let mut band = Band::new();
    let mut console = Console::new(input.to_vec());
    let result = band.exec_loop(&program, true, &mut console, LIMIT);
    (band, console, result)
}

#[test]
fn three_increments_then_output() {
    let (band, console, result) = run_main("+++.", &[]);
    assert_eq!(result, Ok(()));
    assert_eq!(console.output(), &vec![0x03u8]);
    assert_eq!(*band.get(), 3);
}

#[test]
fn echo_one_byte() {
    let (band, console, result) = run_main(",.", &[0x41]);
    assert_eq!(result, Ok(()));
    assert_eq!(console.output(), &vec![0x41u8]);
    assert_eq!(console.pending(), 0);
    assert_eq!(*band.get(), 0x41);
}

#[test]
fn clear_loop_from_five() {
    let program = instructions("+[-]");
    let mut band = Band::new();
    band.set(5);
    let mut console = Console::new(Vec::new());
    let result = band.exec_loop(&program, true, &mut console, LIMIT);
    assert_eq!(result, Ok(()));
    assert_eq!(*band.get(), 0);
    assert!(console.output().is_empty());
}

#[test]
fn copy_idiom_leaves_the_digit_one_cell_right_of_the_output() {
    for digit in b'0'..=b'9' {
        let (mut band, console, result) = run_main(">,[>+>+<<-]>>[<<+>>-]<<<.", &[digit]);
        assert_eq!(result, Ok(()));
        // The last three moves end on the origin, which the program never
        // writes, so that is the byte that is printed.
        assert_eq!(console.output(), &vec![0u8]);
        band.move_right();
        assert_eq!(*band.get(), digit);
        band.move_right();
        assert_eq!(*band.get(), digit);
        band.move_right();
        assert_eq!(*band.get(), 0);
    }
}

#[test]
fn copy_idiom_that_ends_on_the_first_copy_echoes_the_digit() {
    for digit in b'0'..=b'9' {
        let (_, console, result) = run_main(">,[>+>+<<-]>>[<<+>>-]<<.", &[digit]);
        assert_eq!(result, Ok(()));
        assert_eq!(console.output(), &vec![digit]);
    }
}

#[test]
fn unmatched_open_fails_before_any_output() {
    let (band, console, result) = run_main("[+", &[]);
    assert_eq!(result, Err(Fault::UnmatchedBracket));
    assert!(console.output().is_empty());
    assert_eq!(*band.get(), 0);
}

#[test]
fn unmatched_open_is_found_only_when_reached() {
    let (band, console, result) = run_main("++.[+", &[]);
    assert_eq!(result, Err(Fault::UnmatchedBracket));
    assert_eq!(console.output(), &vec![2u8]);
    assert_eq!(*band.get(), 2);
}

#[test]
fn input_exhausted_stops_the_run() {
    let (band, console, result) = run_main("+.,+.", &[]);
    assert_eq!(result, Err(Fault::InputExhausted));
    assert_eq!(console.output(), &vec![1u8]);
    assert_eq!(*band.get(), 1);
}

#[test]
fn input_exhausted_inside_a_loop() {
    let (_, console, result) = run_main(",[.,]", &[7, 8, 9]);
    assert_eq!(result, Err(Fault::InputExhausted));
    assert_eq!(console.output(), &vec![7u8, 8, 9]);
    assert_eq!(console.pending(), 0);
}

#[test]
fn pass_limit_stops_an_endless_loop() {
    let program = instructions("+[]");
    let mut band = Band::new();
    let mut console = Console::new(Vec::new());
    let result = band.exec_loop(&program, true, &mut console, 1000);
    assert_eq!(result, Err(Fault::PassLimit));
    assert_eq!(*band.get(), 1);
}

#[test]
fn pass_limit_counts_passes_of_one_loop() {
    // The loop needs five passes.
    for (limit, expected, cell, passes) in
        [(4u64, Err(Fault::PassLimit), 1u8, 4u8), (5, Ok(()), 0, 5), (6, Ok(()), 0, 5)]
    {
        let program = instructions("+++++[->+<]");
        let mut band = Band::new();
        let mut console = Console::new(Vec::new());
        assert_eq!(band.exec_loop(&program, true, &mut console, limit), expected);
        assert_eq!(*band.get(), cell);
        band.move_right();
        assert_eq!(*band.get(), passes);
    }
}

#[test]
fn pass_limit_zero_allows_no_loop() {
    let program = instructions("+.[-]");
    let mut band = Band::new();
    let mut console = Console::new(Vec::new());
    assert_eq!(band.exec_loop(&program, true, &mut console, 0), Err(Fault::PassLimit));
    assert_eq!(console.output(), &vec![1u8]);
    assert_eq!(*band.get(), 1);
}

#[test]
fn higher_limit_gives_the_same_run() {
    let code = "++++[>+++[>++<-]<-]>>.";
    let mut outputs = Vec::new();
    for limit in [4u64, 5, 100, u64::MAX] {
        let program = instructions(code);
        let mut band = Band::new();
        let mut console = Console::new(Vec::new());
        assert_eq!(band.exec_loop(&program, true, &mut console, limit), Ok(()));
        outputs.push((console.output().clone(), *band.get()));
    }
    assert!(outputs.iter().all(|o| *o == (vec![24u8], 24)));
}

#[test]
fn countdown_loop_makes_as_many_passes_as_the_cell_holds() {
    for start in [1u8, 2, 7, 100, 255] {
        let body = instructions("->+<");
        let mut band = Band::new();
        band.set(start);
        let mut console = Console::new(Vec::new());
        assert_eq!(band.exec_loop(&body, false, &mut console, LIMIT), Ok(()));
        assert_eq!(*band.get(), 0);
        band.move_right();
        assert_eq!(*band.get(), start);
    }
}

#[test]
fn loop_body_runs_once_on_a_zero_cell() {
    let (band, console, result) = run_main("[.]", &[]);
    assert_eq!(result, Ok(()));
    assert_eq!(console.output(), &vec![0u8]);
    assert_eq!(*band.get(), 0);
}

#[test]
fn countdown_from_zero_goes_the_whole_way_round() {
    let body = instructions("->+<");
    let mut band = Band::new();
    let mut console = Console::new(Vec::new());
    assert_eq!(band.exec_loop(&body, false, &mut console, LIMIT), Ok(()));
    assert_eq!(*band.get(), 0);
    band.move_right();
    // 256 passes, counted modulo 256
    assert_eq!(*band.get(), 0);
}

#[test]
fn main_body_is_scanned_once() {
    let program = instructions("+.");
    let mut band = Band::new();
    let mut console = Console::new(Vec::new());
    assert_eq!(band.exec_loop(&program, true, &mut console, LIMIT), Ok(()));
    assert_eq!(console.output(), &vec![1u8]);
    assert_eq!(*band.get(), 1);
}

#[test]
fn nested_body_repeats_until_zero() {
    let body = instructions("+.");
    let mut band = Band::new();
    band.set(253);
    let mut console = Console::new(Vec::new());
    assert_eq!(band.exec_loop(&body, false, &mut console, LIMIT), Ok(()));
    assert_eq!(console.output(), &vec![254u8, 255, 0]);
}

#[test]
fn stray_close_is_skipped() {
    let (_, console, result) = run_main("]+.]+.", &[]);
    assert_eq!(result, Ok(()));
    assert_eq!(console.output(), &vec![1u8, 2]);
}

#[test]
fn scan_goes_on_behind_the_loop() {
    let (band, console, result) = run_main("++[->+++<]>.+.", &[]);
    assert_eq!(result, Ok(()));
    assert_eq!(console.output(), &vec![6u8, 7]);
    assert_eq!(*band.get(), 7);
}

#[test]
fn nested_loops_multiply() {
    let (_, console, result) = run_main("++++[>+++[>++<-]<-]>>.", &[]);
    assert_eq!(result, Ok(()));
    assert_eq!(console.output(), &vec![24u8]);
}

#[test]
fn bytes_are_read_and_written_in_order() {
    let (_, console, result) = run_main(",.>,.<.>.,.", &[10, 20, 30, 40]);
    assert_eq!(result, Ok(()));
    assert_eq!(console.output(), &vec![10u8, 20, 10, 20, 30]);
    assert_eq!(console.pending(), 1);
}

#[test]
fn pointer_moves_left_of_the_origin() {
    let (mut band, console, result) = run_main("<<+++.>-.>.", &[]);
    assert_eq!(result, Ok(()));
    assert_eq!(console.output(), &vec![3u8, 255, 0]);
    band.move_left();
    assert_eq!(*band.get(), 255);
    band.move_left();
    assert_eq!(*band.get(), 3);
}

#[test]
fn empty_program_does_nothing() {
    let (band, console, result) = run_main("", &[1]);
    assert_eq!(result, Ok(()));
    assert!(console.output().is_empty());
    assert_eq!(console.pending(), 1);
    assert_eq!(*band.get(), 0);
}

#[test]
fn prints_a_greeting() {
    let code = "++++++++[>++++[>++>+++>+++>+<<<<-]>+>+>->>+[<]<-]>>.>---.+++++++..+++.>>.<-.<.+++.------.--------.>>+.>++.";
    let (_, console, result) = run_main(code, &[]);
    assert_eq!(result, Ok(()));
    assert_eq!(console.output().as_slice(), b"Hello World!\n");
}

#[test]
fn moves_in_a_program_grow_the_band_as_single_moves_do() {
    let (band, _, result) = run_main(">><", &[]);
    assert_eq!(result, Ok(()));
    assert_eq!(band.extent(), (1, 2));
    let (band, _, result) = run_main("<<>>>", &[]);
    assert_eq!(result, Ok(()));
    assert_eq!(band.extent(), (2, 1));
    let (band, _, result) = run_main("+++[>+<-]", &[]);
    assert_eq!(result, Ok(()));
    // Each pass moves right to position 1 and back to the origin.
    assert_eq!(band.extent(), (0, 1));
}
