//! The instruction alphabet and the pairing of loop brackets.
use vstd::prelude::*;

verus! {

/// `c` is one of the eight instruction symbols.
pub open spec fn spec_is_instruction(c: char) -> bool {
    c == '+' || c == '-' || c == '<' || c == '>' || c == '.' || c == ',' || c == '[' || c == ']'
}

/// Every symbol of `code` is an instruction symbol.
pub open spec fn is_program(code: Seq<char>) -> bool {
    forall|i: int| 0 <= i < code.len() ==> spec_is_instruction(#[trigger] code[i])
}

/// Tells whether `c` is one of the eight instruction symbols.
#[verifier::when_used_as_spec(spec_is_instruction)]
pub fn is_instruction(c: char) -> (yes: bool)
    ensures
        yes == spec_is_instruction(c),
{
    c == '+' || c == '-' || c == '<' || c == '>' || c == '.' || c == ',' || c == '[' || c == ']'
}

/// The instruction symbols of `text`, in the order in which they occur.
/// Every other character is a comment and is dropped.
pub fn instructions(text: &str) -> (code: Vec<char>)
    ensures
        code@ == text@.filter(|c: char| spec_is_instruction(c)),
        is_program(code@),
{
    let mut code: Vec<char> = Vec::new();
    for c in it: text.chars()
        invariant
            it.seq() == text@,
            code@ == text@.take(it.index() as int).filter(|c: char| spec_is_instruction(c)),
            is_program(code@),
    {
        proof {
            assert(text@.take(it.index() + 1).drop_last() == text@.take(it.index() as int));
            reveal(Seq::filter);
        }
        if is_instruction(c) {
            code.push(c);
        }
    }
    proof {
        assert(text@.take(text@.len() as int) == text@);
    }
    code
}

/// How many of the first `n` symbols of `code` are `c`.
pub open spec fn count(code: Seq<char>, c: char, n: int) -> int
    decreases n,
{
    if n <= 0 || n > code.len() {
        0
    } else {
        count(code, c, n - 1) + if code[n - 1] == c { 1int } else { 0int }
    }
}

/// How many of the first `n` symbols of `code` open a loop.
pub open spec fn opens(code: Seq<char>, n: int) -> int {
    count(code, '[', n)
}

/// How many of the first `n` symbols of `code` close a loop.
pub open spec fn closes(code: Seq<char>, n: int) -> int {
    count(code, ']', n)
}

/// Index `i` holds a `]`, and up to and including it `code` holds as many
/// `]` as `[`.
pub open spec fn balances_at(code: Seq<char>, i: int) -> bool {
    &&& 0 <= i < code.len()
    &&& code[i] == ']'
    &&& opens(code, i + 1) == closes(code, i + 1)
}

/// `i` is the first index at which `code` balances.
pub open spec fn first_balance(code: Seq<char>, i: int) -> bool {
    &&& balances_at(code, i)
    &&& forall|j: int| 0 <= j < i ==> !balances_at(code, j)
}

/// The index of the `]` that closes the `[` at the head of `code`: the
/// first index at which `code` balances, if there is one.
pub open spec fn matching_bracket(code: Seq<char>) -> Option<int> {
    if exists|i: int| first_balance(code, i) {
        Some(choose|i: int| first_balance(code, i))
    } else {
        None
    }
}

} // verus!
