//! What holds of every run.
use vstd::prelude::*;
use crate::bracket_laws::lemma_matched_body_nested;
use crate::bracket_laws::lemma_nested_behind_loop;
use crate::bracket_laws::lemma_nested_behind_symbol;
use crate::bracket_laws::lemma_nested_has_match;
use crate::bracket_laws::nested;
use crate::engine::Fault;
use crate::engine::Run;
use crate::engine::State;
use crate::engine::extends;
use crate::engine::repeat;
use crate::engine::run;
use crate::engine::scan;
use crate::engine::step;
use crate::program::first_balance;
use crate::program::matching_bracket;
use crate::tape::pred;
use crate::tape_laws::lemma_move;
use crate::tape_laws::lemma_write;

verus! {

/// The outcome of `k` passes over `body`, one after the other, or of as
/// many of them as there were up to the first fault.
pub open spec fn after_passes(body: Seq<char>, s: State, cap: nat, k: nat) -> Run
    decreases k,
{
    if k == 0 {
        Run::done(s)
    } else {
        let r = scan(body, 0, s, cap);
        if r.fault is Some {
            r
        } else {
            after_passes(body, r.state, cap, (k - 1) as nat)
        }
    }
}

/// The pass over `body` that follows `j` passes from `s` ends without a
/// fault on a cell that holds one less, modulo 256, than the cell on which
/// it began.
pub open spec fn counts_down(body: Seq<char>, s: State, cap: nat, j: nat) -> bool {
    let before = after_passes(body, s, cap, j);
    let after = after_passes(body, s, cap, j + 1);
    before.fault is None ==> after.fault is None && after.state.tape.current() == pred(
        before.state.tape.current(),
    )
}

/// Every well-formed state carries on from itself.
pub proof fn lemma_extends_self(s: State)
    requires
        s.tape.wf(),
    ensures
        extends(s, s),
{
    assert(s.io.output.take(s.io.output.len() as int) =~= s.io.output);
    assert(s.io.pending.skip(0) =~= s.io.pending);
}

/// Carrying on is transitive.
pub proof fn lemma_extends_chain(a: State, b: State, c: State)
    requires
        extends(a, b),
        extends(b, c),
    ensures
        extends(a, c),
{
    assert(c.io.output.take(a.io.output.len() as int) =~= c.io.output.take(
        b.io.output.len() as int,
    ).take(a.io.output.len() as int));
    assert(a.io.pending.skip(a.io.pending.len() - c.io.pending.len()) =~= a.io.pending.skip(
        a.io.pending.len() - b.io.pending.len(),
    ).skip(b.io.pending.len() - c.io.pending.len()));
}

/// The state after a single instruction carries on from the state before
/// it.
pub proof fn lemma_step_extends(c: char, s: State)
    requires
        s.tape.wf(),
    ensures
        extends(s, step(c, s).state),
{
    let t = step(c, s).state;
    lemma_move(s.tape);
    lemma_write(s.tape, crate::tape::succ(s.tape.current()));
    lemma_write(s.tape, pred(s.tape.current()));
    if s.io.pending.len() > 0 {
        lemma_write(s.tape, s.io.pending[0]);
    }
    assert(t.io.output.take(s.io.output.len() as int) =~= s.io.output);
    assert(s.io.pending.skip(s.io.pending.len() - t.io.pending.len()) =~= t.io.pending);
}

/// A scan never shrinks the tape, never takes back output and never
/// returns input, whether it ends with a fault or without.
pub proof fn lemma_scan_extends(code: Seq<char>, from: int, s: State, cap: nat)
    requires
        s.tape.wf(),
    ensures
        extends(s, scan(code, from, s, cap).state),
    decreases code.len(), 0nat, code.len() - from,
{
    lemma_extends_self(s);
    if from < 0 || from >= code.len() {
    } else if code[from] == '[' {
        match matching_bracket(code.skip(from)) {
            None => {},
            Some(m) => {
                assert(first_balance(code.skip(from), m));
                assert(code.skip(from)[0] == '[');
                let body = code.subrange(from + 1, from + m);
                let r = repeat(body, s, cap, cap);
                lemma_repeat_extends(body, s, cap, cap);
                if r.fault is None {
                    lemma_scan_extends(code, from + m + 1, r.state, cap);
                    lemma_extends_chain(s, r.state, scan(code, from + m + 1, r.state, cap).state);
                }
            },
        }
    } else {
        let r = step(code[from], s);
        lemma_step_extends(code[from], s);
        if r.fault is None {
            lemma_scan_extends(code, from + 1, r.state, cap);
            lemma_extends_chain(s, r.state, scan(code, from + 1, r.state, cap).state);
        }
    }
}

/// A loop never shrinks the tape, never takes back output and never
/// returns input, whether it ends with a fault or without.
pub proof fn lemma_repeat_extends(body: Seq<char>, s: State, cap: nat, passes: nat)
    requires
        s.tape.wf(),
    ensures
        extends(s, repeat(body, s, cap, passes).state),
    decreases body.len(), passes, 0nat,
{
    lemma_extends_self(s);
    if passes > 0 {
        let r = scan(body, 0, s, cap);
        lemma_scan_extends(body, 0, s, cap);
        if !(r.fault is Some || r.state.tape.current() == 0) {
            lemma_repeat_extends(body, r.state, cap, (passes - 1) as nat);
            lemma_extends_chain(s, r.state, repeat(body, r.state, cap, (passes - 1) as nat).state);
        }
    }
}

/// Passes over a loop body never shrink the tape, never take back output
/// and never return input.
pub proof fn lemma_after_passes_extends(body: Seq<char>, s: State, cap: nat, k: nat)
    requires
        s.tape.wf(),
    ensures
        extends(s, after_passes(body, s, cap, k).state),
    decreases k,
{
    lemma_extends_self(s);
    if k > 0 {
        let r = scan(body, 0, s, cap);
        lemma_scan_extends(body, 0, s, cap);
        if r.fault is None {
            lemma_after_passes_extends(body, r.state, cap, (k - 1) as nat);
            lemma_extends_chain(s, r.state, after_passes(body, r.state, cap, (k - 1) as nat).state);
        }
    }
}

/// A run never shrinks the tape, never takes back output and never
/// returns input, whether it ends with a fault or without.
pub proof fn lemma_run_extends(code: Seq<char>, is_main: bool, s: State, cap: nat)
    requires
        s.tape.wf(),
    ensures
        extends(s, run(code, is_main, s, cap).state),
{
    if is_main {
        lemma_scan_extends(code, 0, s, cap);
    } else {
        lemma_repeat_extends(code, s, cap, cap);
    }
}

/// A loop goes through its passes one by one: when none of the first `k`
/// passes ends with a fault or on a zero cell, the loop is what is left of
/// it after those passes.
pub proof fn lemma_repeat_after_passes(body: Seq<char>, s: State, cap: nat, passes: nat, k: nat)
    requires
        k <= passes,
        forall|j: nat|
            1 <= j <= k ==> (#[trigger] after_passes(body, s, cap, j)).fault is None
                && after_passes(body, s, cap, j).state.tape.current() != 0,
    ensures
        repeat(body, s, cap, passes) == repeat(
            body,
            after_passes(body, s, cap, k).state,
            cap,
            (passes - k) as nat,
        ),
    decreases k,
{
    if k > 0 {
        let r = scan(body, 0, s, cap);
        assert(after_passes(body, s, cap, 1) == r) by {
            reveal_with_fuel(after_passes, 2);
        }
        assert forall|j: nat| 1 <= j <= k - 1 implies (#[trigger] after_passes(
            body,
            r.state,
            cap,
            j,
        )).fault is None && after_passes(body, r.state, cap, j).state.tape.current() != 0 by {
            assert(after_passes(body, s, cap, j + 1) == after_passes(body, r.state, cap, j));
        }
        lemma_repeat_after_passes(body, r.state, cap, (passes - 1) as nat, (k - 1) as nat);
    }
}

/// One pass more is one scan from where the passes before it ended.
pub proof fn lemma_after_passes_next(body: Seq<char>, s: State, cap: nat, k: nat)
    ensures
        after_passes(body, s, cap, k + 1) == if after_passes(body, s, cap, k).fault is Some {
            after_passes(body, s, cap, k)
        } else {
            scan(body, 0, after_passes(body, s, cap, k).state, cap)
        },
    decreases k,
{
    let r = scan(body, 0, s, cap);
    if k == 0 {
        reveal_with_fuel(after_passes, 2);
    } else if r.fault is None {
        lemma_after_passes_next(body, r.state, cap, (k - 1) as nat);
    }
}

/// A loop that lowers the cell under the pointer by one in each pass, and
/// starts on a cell that holds `v > 0`, makes exactly `v` passes: after
/// fewer the cell is not zero yet, after the `v`-th it is, and there the
/// loop ends without a fault. Where `v` passes are more than it may make,
/// it is stopped after as many as it may make.
pub proof fn lemma_countdown_loop(body: Seq<char>, s: State, cap: nat, passes: nat)
    requires
        s.tape.current() > 0,
        forall|j: nat| j < s.tape.current() ==> counts_down(body, s, cap, j),
    ensures
        forall|j: nat|
            j <= s.tape.current() ==> (#[trigger] after_passes(body, s, cap, j)).fault is None
                && after_passes(body, s, cap, j).state.tape.current() == s.tape.current() - j,
        s.tape.current() <= passes ==> repeat(body, s, cap, passes) == after_passes(
            body,
            s,
            cap,
            s.tape.current() as nat,
        ),
        passes < s.tape.current() ==> repeat(body, s, cap, passes) == Run::stopped(
            after_passes(body, s, cap, passes).state,
            Fault::PassLimit,
        ),
{
    let v = s.tape.current() as nat;
    assert forall|j: nat| j <= v implies (#[trigger] after_passes(body, s, cap, j)).fault is None
        && after_passes(body, s, cap, j).state.tape.current() == v - j by {
        lemma_countdown(body, s, cap, j);
    }
    if v <= passes {
        let k = (v - 1) as nat;
        lemma_repeat_after_passes(body, s, cap, passes, k);
        lemma_after_passes_next(body, s, cap, k);
        assert(after_passes(body, s, cap, (k + 1) as nat) == after_passes(body, s, cap, v));
    } else {
        lemma_repeat_after_passes(body, s, cap, passes, passes);
    }
}

/// Under the conditions of `lemma_countdown_loop`, the cell holds `j` less
/// after `j` passes.
proof fn lemma_countdown(body: Seq<char>, s: State, cap: nat, j: nat)
    requires
        forall|i: nat| i < s.tape.current() ==> counts_down(body, s, cap, i),
        j <= s.tape.current(),
    ensures
        after_passes(body, s, cap, j).fault is None,
        after_passes(body, s, cap, j).state.tape.current() == s.tape.current() - j,
    decreases j,
{
    if j > 0 {
        let i = (j - 1) as nat;
        lemma_countdown(body, s, cap, i);
        assert(counts_down(body, s, cap, i));
        assert(after_passes(body, s, cap, (i + 1) as nat) == after_passes(body, s, cap, j));
    }
}

/// The pass over `body` that follows `j` passes from `s` ends without a
/// fault, with the pointer where it was when the pass began, and with one
/// less, modulo 256, in the cell under it.
pub open spec fn counts_down_in_place(body: Seq<char>, s: State, cap: nat, j: nat) -> bool {
    let before = after_passes(body, s, cap, j);
    let after = after_passes(body, s, cap, j + 1);
    before.fault is None ==> after.fault is None && after.state.tape.pointer
        == before.state.tape.pointer && after.state.tape.current() == pred(
        before.state.tape.current(),
    )
}

/// A loop whose body, in each pass, lowers the cell under the pointer by
/// one and brings the pointer back to that cell, and which starts on a
/// cell that holds `v > 0`, ends after exactly `v` passes, without a fault,
/// with the pointer on the cell on which it started and 0 in that cell,
/// under every limit of at least `v` passes. After `j <= v` passes the cell
/// holds `v - j`.
pub proof fn lemma_countdown_loop_in_place(body: Seq<char>, s: State, cap: nat, passes: nat)
    requires
        s.tape.current() > 0,
        s.tape.current() <= passes,
        forall|j: nat| j < s.tape.current() ==> counts_down_in_place(body, s, cap, j),
    ensures
        forall|j: nat|
            j <= s.tape.current() ==> (#[trigger] after_passes(body, s, cap, j)).fault is None
                && after_passes(body, s, cap, j).state.tape.pointer == s.tape.pointer
                && after_passes(body, s, cap, j).state.tape.cell(s.tape.pointer)
                == s.tape.current() - j,
        repeat(body, s, cap, passes) == after_passes(body, s, cap, s.tape.current() as nat),
        repeat(body, s, cap, passes).fault is None,
        repeat(body, s, cap, passes).state.tape.pointer == s.tape.pointer,
        repeat(body, s, cap, passes).state.tape.cell(s.tape.pointer) == 0,
{
    assert forall|j: nat| j < s.tape.current() implies counts_down(body, s, cap, j) by {
        assert(counts_down_in_place(body, s, cap, j));
    }
    lemma_countdown_loop(body, s, cap, passes);
    assert forall|j: nat| j <= s.tape.current() implies (#[trigger] after_passes(
        body,
        s,
        cap,
        j,
    )).state.tape.pointer == s.tape.pointer by {
        lemma_pointer_in_place(body, s, cap, j);
    }
}

/// Under the conditions of `lemma_countdown_loop_in_place`, the pointer is
/// where it started after each of the passes.
proof fn lemma_pointer_in_place(body: Seq<char>, s: State, cap: nat, j: nat)
    requires
        s.tape.current() > 0,
        forall|i: nat| i < s.tape.current() ==> counts_down_in_place(body, s, cap, i),
        j <= s.tape.current(),
    ensures
        after_passes(body, s, cap, j).fault is None,
        after_passes(body, s, cap, j).state.tape.pointer == s.tape.pointer,
    decreases j,
{
    if j > 0 {
        let i = (j - 1) as nat;
        lemma_pointer_in_place(body, s, cap, i);
        assert(counts_down_in_place(body, s, cap, i));
        assert(after_passes(body, s, cap, (i + 1) as nat) == after_passes(body, s, cap, j));
    }
}

/// The loop whose body is a single `-` clears the cell under the pointer
/// and changes nothing else, in as many passes as the cell held.
pub proof fn lemma_clear_loop(s: State, cap: nat)
    requires
        s.tape.wf(),
        0 < s.tape.current() <= cap,
    ensures
        repeat(seq!['-'], s, cap, cap) == Run::done(State { tape: s.tape.write(0), ..s }),
        repeat(seq!['-'], s, cap, cap) == after_passes(
            seq!['-'],
            s,
            cap,
            s.tape.current() as nat,
        ),
{
    let body = seq!['-'];
    let v = s.tape.current() as nat;
    assert forall|j: nat| j <= v implies #[trigger] after_passes(body, s, cap, j) == Run::done(
        State { tape: s.tape.write((v - j) as u8), ..s },
    ) by {
        lemma_clear_passes(s, cap, j);
    }
    assert forall|j: nat| j < v implies counts_down(body, s, cap, j) by {
        lemma_write(s.tape, (v - j) as u8);
        lemma_write(s.tape, (v - (j + 1)) as u8);
    }
    lemma_countdown_loop(body, s, cap, cap);
}

/// `j` passes over the body `-` lower the cell under the pointer by `j`.
proof fn lemma_clear_passes(s: State, cap: nat, j: nat)
    requires
        s.tape.wf(),
        j <= s.tape.current(),
    ensures
        after_passes(seq!['-'], s, cap, j) == Run::done(
            State { tape: s.tape.write((s.tape.current() - j) as u8), ..s },
        ),
    decreases j,
{
    let body = seq!['-'];
    lemma_write(s.tape, s.tape.current());
    if j > 0 {
        let i = (j - 1) as nat;
        lemma_clear_passes(s, cap, i);
        lemma_after_passes_next(body, s, cap, i);
        let before = s.tape.write((s.tape.current() - i) as u8);
        lemma_write(s.tape, (s.tape.current() - i) as u8);
        lemma_write(s.tape, (s.tape.current() - j) as u8);
        assert(before.dec() == s.tape.write((s.tape.current() - j) as u8));
        assert(scan(body, 0, State { tape: before, ..s }, cap) == Run::done(
            State { tape: before.dec(), ..s },
        )) by {
            reveal_with_fuel(scan, 3);
        }
        assert(after_passes(body, s, cap, (i + 1) as nat) == after_passes(body, s, cap, j));
    }
}

/// The limit on passes does not change what a scan does: a scan that ends
/// within its limit ends in the same way under any higher limit.
pub proof fn lemma_scan_cap(code: Seq<char>, from: int, s: State, cap: nat, higher: nat)
    requires
        cap <= higher,
        scan(code, from, s, cap).fault != Some(Fault::PassLimit),
    ensures
        scan(code, from, s, higher) == scan(code, from, s, cap),
    decreases code.len(), 0nat, code.len() - from,
{
    if from < 0 || from >= code.len() {
    } else if code[from] == '[' {
        match matching_bracket(code.skip(from)) {
            None => {},
            Some(m) => {
                assert(first_balance(code.skip(from), m));
                assert(code.skip(from)[0] == '[');
                let body = code.subrange(from + 1, from + m);
                let r = repeat(body, s, cap, cap);
                lemma_repeat_cap(body, s, cap, higher, cap, higher);
                if r.fault is None {
                    lemma_scan_cap(code, from + m + 1, r.state, cap, higher);
                }
            },
        }
    } else {
        let r = step(code[from], s);
        if r.fault is None {
            lemma_scan_cap(code, from + 1, r.state, cap, higher);
        }
    }
}

/// The limit on passes does not change what a loop does: a loop that ends
/// within its limit ends in the same way under any higher limit and with
/// any higher number of passes left.
pub proof fn lemma_repeat_cap(
    body: Seq<char>,
    s: State,
    cap: nat,
    higher: nat,
    passes: nat,
    more: nat,
)
    requires
        cap <= higher,
        passes <= more,
        repeat(body, s, cap, passes).fault != Some(Fault::PassLimit),
    ensures
        repeat(body, s, higher, more) == repeat(body, s, cap, passes),
    decreases body.len(), passes, 0nat,
{
    if passes > 0 {
        let r = scan(body, 0, s, cap);
        lemma_scan_cap(body, 0, s, cap, higher);
        if !(r.fault is Some || r.state.tape.current() == 0) {
            lemma_repeat_cap(body, r.state, cap, higher, (passes - 1) as nat, (more - 1) as nat);
        }
    }
}

/// The limit on passes does not change what a run does: a run that ends
/// within its limit ends in the same way under any higher limit.
pub proof fn lemma_run_cap(code: Seq<char>, is_main: bool, s: State, cap: nat, higher: nat)
    requires
        cap <= higher,
        run(code, is_main, s, cap).fault != Some(Fault::PassLimit),
    ensures
        run(code, is_main, s, higher) == run(code, is_main, s, cap),
{
    if is_main {
        lemma_scan_cap(code, 0, s, cap, higher);
    } else {
        lemma_repeat_cap(code, s, cap, higher, cap, higher);
    }
}

/// In properly nested code every `[` that a scan reaches has its `]`: the
/// scan does not stop at an unmatched bracket.
pub proof fn lemma_nested_scan(code: Seq<char>, from: int, s: State, cap: nat)
    requires
        0 <= from <= code.len(),
        nested(code.skip(from)),
    ensures
        scan(code, from, s, cap).fault != Some(Fault::UnmatchedBracket),
    decreases code.len(), 0nat, code.len() - from,
{
    let rest = code.skip(from);
    if from >= code.len() {
    } else if code[from] == '[' {
        lemma_nested_has_match(rest);
        let m = matching_bracket(rest)->0;
        lemma_matched_body_nested(rest, m);
        lemma_nested_behind_loop(rest, m);
        let body = code.subrange(from + 1, from + m);
        assert(body == rest.subrange(1, m));
        assert(code.skip(from + m + 1) == rest.skip(m + 1));
        let r = repeat(body, s, cap, cap);
        lemma_nested_repeat(body, s, cap, cap);
        if r.fault is None {
            lemma_nested_scan(code, from + m + 1, r.state, cap);
        }
    } else {
        lemma_nested_behind_symbol(rest);
        assert(code.skip(from + 1) == rest.skip(1));
        let r = step(code[from], s);
        if r.fault is None {
            lemma_nested_scan(code, from + 1, r.state, cap);
        }
    }
}

/// A loop over a properly nested body does not stop at an unmatched
/// bracket.
pub proof fn lemma_nested_repeat(body: Seq<char>, s: State, cap: nat, passes: nat)
    requires
        nested(body),
    ensures
        repeat(body, s, cap, passes).fault != Some(Fault::UnmatchedBracket),
    decreases body.len(), passes, 0nat,
{
    if passes > 0 {
        assert(body.skip(0) == body);
        let r = scan(body, 0, s, cap);
        lemma_nested_scan(body, 0, s, cap);
        if !(r.fault is Some || r.state.tape.current() == 0) {
            lemma_nested_repeat(body, r.state, cap, (passes - 1) as nat);
        }
    }
}

/// A loop never stops at an unmatched bracket, whatever its body: the
/// matcher cuts out properly nested bodies only. In a run of the top-level
/// program such a fault therefore comes from a `[` of the top level.
pub proof fn lemma_loop_has_no_unmatched(code: Seq<char>, from: int, s: State, cap: nat)
    requires
        0 <= from < code.len(),
        code[from] == '[',
        matching_bracket(code.skip(from)) is Some,
    ensures
        repeat(
            code.subrange(from + 1, from + matching_bracket(code.skip(from))->0),
            s,
            cap,
            cap,
        ).fault != Some(Fault::UnmatchedBracket),
{
    let rest = code.skip(from);
    let m = matching_bracket(rest)->0;
    lemma_matched_body_nested(rest, m);
    assert(code.subrange(from + 1, from + m) == rest.subrange(1, m));
    lemma_nested_repeat(code.subrange(from + 1, from + m), s, cap, cap);
}

} // verus!
