//! The execution engine: what a run of a program means, and the band
//! operations that carry it out.
use vstd::prelude::*;
use crate::console::Console;
use crate::console::Streams;
use crate::program::is_program;
use crate::program::balances_at;
use crate::program::closes;
use crate::program::first_balance;
use crate::program::matching_bracket;
use crate::program::opens;
use crate::run_laws::lemma_run_extends;
use crate::tape::Band;
use crate::tape::Tape;

verus! {

/// Why a run stopped before the end of its program.
#[derive(Clone, Copy, Debug, PartialEq, Eq, Structural)]
pub enum Fault {
    /// A `[` was reached that no `]` in the rest of the program balances.
    UnmatchedBracket,
    /// A `,` was reached when no input byte was left.
    InputExhausted,
    /// A loop was still not finished after the allowed number of passes.
    PassLimit,
}

/// Everything a run acts on: the tape and the two streams.
pub struct State {
    pub tape: Tape,
    pub io: Streams,
}

/// How a run, or a part of one, ended: the state it left behind, and the
/// fault that stopped it, if one did.
pub struct Run {
    pub state: State,
    pub fault: Option<Fault>,
}

impl Run {
    /// A part of a run that reached its end in state `s`.
    pub open spec fn done(s: State) -> Run {
        Run { state: s, fault: None }
    }

    /// A run stopped by fault `f` in state `s`.
    pub open spec fn stopped(s: State, f: Fault) -> Run {
        Run { state: s, fault: Some(f) }
    }

    /// The result the engine reports for this run.
    pub open spec fn outcome(self) -> Result<(), Fault> {
        match self.fault {
            None => Ok(()),
            Some(f) => Err(f),
        }
    }
}

/// The effect of the single instruction `c`, other than `[`, on state `s`.
/// A `]` met outside a loop has no effect.
pub open spec fn step(c: char, s: State) -> Run {
    if c == '+' {
        Run::done(State { tape: s.tape.inc(), ..s })
    } else if c == '-' {
        Run::done(State { tape: s.tape.dec(), ..s })
    } else if c == '<' {
        Run::done(State { tape: s.tape.move_left(), ..s })
    } else if c == '>' {
        Run::done(State { tape: s.tape.move_right(), ..s })
    } else if c == '.' {
        Run::done(State { io: s.io.write(s.tape.current()), ..s })
    } else if c == ',' {
        if s.io.pending.len() == 0 {
            Run::stopped(s, Fault::InputExhausted)
        } else {
            Run::done(State { tape: s.tape.write(s.io.pending[0]), io: s.io.read() })
        }
    } else {
        Run::done(s)
    }
}

/// One scan of `code` from index `from` to its end, starting in state `s`.
///
/// Instructions are carried out from left to right. At a `[` the matching
/// `]` is looked for in the rest of `code`; the symbols between the two are
/// run as a loop, and the scan goes on behind the `]`. No loop may make
/// more than `cap` passes.
pub open spec fn scan(code: Seq<char>, from: int, s: State, cap: nat) -> Run
    decreases code.len(), 0nat, code.len() - from,
{
    if from < 0 || from >= code.len() {
        Run::done(s)
    } else if code[from] == '[' {
        match matching_bracket(code.skip(from)) {
            None => Run::stopped(s, Fault::UnmatchedBracket),
            Some(m) => {
                proof {
                    assert(first_balance(code.skip(from), m));
                    assert(code.skip(from)[0] == '[');
                }
                let r = repeat(code.subrange(from + 1, from + m), s, cap, cap);
                if r.fault is Some {
                    r
                } else {
                    scan(code, from + m + 1, r.state, cap)
                }
            },
        }
    } else {
        let r = step(code[from], s);
        if r.fault is Some {
            r
        } else {
            scan(code, from + 1, r.state, cap)
        }
    }
}

/// A loop over `body` that may still make `passes` passes: `body` is
/// scanned once, and again for as long as the cell under the pointer is
/// not zero after a scan.
pub open spec fn repeat(body: Seq<char>, s: State, cap: nat, passes: nat) -> Run
    decreases body.len(), passes, 0nat,
{
    if passes == 0 {
        Run::stopped(s, Fault::PassLimit)
    } else {
        let r = scan(body, 0, s, cap);
        if r.fault is Some || r.state.tape.current() == 0 {
            r
        } else {
            repeat(body, r.state, cap, (passes - 1) as nat)
        }
    }
}

/// The run of `code` from state `s`: a single scan for the top-level
/// program, a loop for a loop body.
pub open spec fn run(code: Seq<char>, is_main: bool, s: State, cap: nat) -> Run {
    if is_main {
        scan(code, 0, s, cap)
    } else {
        repeat(code, s, cap, cap)
    }
}

/// `after` carries on from `before`: its tape is well formed and has given
/// up no cell, its output is that of `before` with bytes added at the end,
/// and its pending input is that of `before` with bytes taken from the
/// front.
pub open spec fn extends(before: State, after: State) -> bool {
    &&& after.tape.wf()
    &&& before.tape.within(after.tape)
    &&& before.io.output.len() <= after.io.output.len()
    &&& after.io.output.take(before.io.output.len() as int) == before.io.output
    &&& after.io.pending.len() <= before.io.pending.len()
    &&& before.io.pending.skip(before.io.pending.len() - after.io.pending.len())
        == after.io.pending
}

/// The state that `band` and `console` stand for together.
pub open spec fn state_of(band: &Band, console: &Console) -> State {
    State { tape: band@, io: console@ }
}

impl Band {
    /// Writes the cell under the pointer to the output.
    pub fn output(&self, console: &mut Console)
        ensures
            final(console)@ == old(console)@.write(self@.current()),
    {
        let value = *self.get();
        console.write(value);
    }

    /// Reads the next input byte into the cell under the pointer. When the
    /// input is exhausted nothing changes and the fault is reported.
    pub fn input(&mut self, console: &mut Console) -> (res: Result<(), Fault>)
        ensures
            state_of(final(self), final(console)) == step(
                ',',
                state_of(old(self), old(console)),
            ).state,
            res == step(',', state_of(old(self), old(console))).outcome(),
            final(self)@.wf(),
    {
        match console.read() {
            Some(byte) => {
                self.set(byte);
                Ok(())
            },
            None => {
                proof {
                    use_type_invariant(&*self);
                    self.lemma_inv_wf();
                }
                Err(Fault::InputExhausted)
            },
        }
    }

    /// Finds the `]` that closes the `[` at the head of `code`: the first
    /// `]` up to and including which `code` holds as many `]` as `[`.
    pub fn get_pos_of_matching_bracket(&self, code: &[char]) -> (pos: Option<usize>)
        ensures
            match pos {
                Some(i) => matching_bracket(code@) == Some(i as int),
                None => matching_bracket(code@) is None,
            },
    {
        let mut open_count: usize = 0;
        let mut close_count: usize = 0;
        let mut i: usize = 0;
        while i < code.len()
            invariant
                i <= code.len(),
                open_count == opens(code@, i as int),
                close_count == closes(code@, i as int),
                open_count <= i,
                close_count <= i,
                forall|j: int| 0 <= j < i ==> !balances_at(code@, j),
            decreases code.len() - i,
        {
            match code[i] {
                '[' => open_count += 1,
                ']' => {
                    close_count += 1;
                    if open_count == close_count {
                        assert(first_balance(code@, i as int));
                        return Some(i);
                    }
                },
                _ => (),
            }
            i += 1;
        }
        None
    }

    /// Runs `input` on this band: once from left to right when `is_main`
    /// holds, as a loop body otherwise. Bytes are read from and written to
    /// `console`. No loop makes more than `max_passes` passes each time it
    /// is entered; one that would is stopped with `Fault::PassLimit`.
    ///
    /// The run stops at the first fault; band and console then hold what
    /// the run had done up to there.
    pub fn exec_loop(
        &mut self,
        input: &[char],
        is_main: bool,
        console: &mut Console,
        max_passes: u64,
    ) -> (res: Result<(), Fault>)
        requires
            is_program(input@),
        ensures
            state_of(final(self), final(console)) == run(
                input@,
                is_main,
                state_of(old(self), old(console)),
                max_passes as nat,
            ).state,
            res == run(
                input@,
                is_main,
                state_of(old(self), old(console)),
                max_passes as nat,
            ).outcome(),
            extends(state_of(old(self), old(console)), state_of(final(self), final(console))),
        decreases input@.len(),
    {
        proof {
            use_type_invariant(&*self);
            self.lemma_inv_wf();
            lemma_run_extends(input@, is_main, state_of(self, console), max_passes as nat);
        }
        let ghost cap = max_passes as nat;
        let ghost whole = run(input@, is_main, state_of(self, console), cap);
        let mut passes: u64 = max_passes;
        loop
            invariant
                is_program(input@),
                cap == max_passes as nat,
                passes <= max_passes,
                whole == run(input@, is_main, state_of(old(self), old(console)), cap),
                extends(state_of(old(self), old(console)), whole.state),
                is_main ==> whole == scan(input@, 0, state_of(self, console), cap),
                !is_main ==> whole == repeat(input@, state_of(self, console), cap, passes as nat),
            decreases passes,
        {
            if !is_main {
                if passes == 0 {
                    return Err(Fault::PassLimit);
                }
                passes = passes - 1;
            }
            let ghost pass = scan(input@, 0, state_of(self, console), cap);
            let mut i: usize = 0;
            while i < input.len()
                invariant
                    is_program(input@),
                    cap == max_passes as nat,
                    i <= input.len(),
                    pass == scan(input@, i as int, state_of(self, console), cap),
                    whole == run(input@, is_main, state_of(old(self), old(console)), cap),
                    extends(state_of(old(self), old(console)), whole.state),
                    whole == if is_main || pass.fault is Some || pass.state.tape.current() == 0 {
                        pass
                    } else {
                        repeat(input@, pass.state, cap, passes as nat)
                    },
                decreases input.len() - i,
            {
                match input[i] {
                    '+' => self.inc(),
                    '-' => self.dec(),
                    '<' => self.move_left(),
                    '>' => self.move_right(),
                    '.' => self.output(console),
                    ',' => {
                        if let Err(fault) = self.input(console) {
                            return Err(fault);
                        }
                    },
                    '[' => {
                        let rest = &input[i..input.len()];
                        assert(rest@ == input@.skip(i as int));
                        match self.get_pos_of_matching_bracket(rest) {
                            None => {
                                return Err(Fault::UnmatchedBracket);
                            },
                            Some(matching_pos) => {
                                assert(first_balance(rest@, matching_pos as int));
                                assert(rest@[0] == '[');
                                let body = &input[i + 1..i + matching_pos];
                                assert(body@ == input@.subrange(i + 1, i + matching_pos));
                                assert(is_program(body@));
                                if let Err(fault) = self.exec_loop(
                                    body,
                                    false,
                                    console,
                                    max_passes,
                                ) {
                                    return Err(fault);
                                }
                                i = i + matching_pos;
                            },
                        }
                    },
                    _ => {},
                }
                i = i + 1;
            }
            if is_main || *self.get() == 0 {
                return Ok(());
            }
        }
    }
}

} // verus!
