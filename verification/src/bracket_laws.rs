//! What holds of the pairing of brackets.
use vstd::prelude::*;
use crate::program::balances_at;
use crate::program::closes;
use crate::program::count;
use crate::program::first_balance;
use crate::program::matching_bracket;
use crate::program::opens;

verus! {

/// `body` is properly nested: no prefix of it holds more `]` than `[`, and
/// the whole holds as many of the one as of the other.
pub open spec fn nested(body: Seq<char>) -> bool {
    &&& forall|n: int| 0 <= n <= body.len() ==> #[trigger] closes(body, n) <= opens(body, n)
    &&& closes(body, body.len() as int) == opens(body, body.len() as int)
}

/// `depth` times `[`, then `depth` times `]`.
pub open spec fn nest(depth: nat) -> Seq<char> {
    Seq::new(depth, |i: int| '[') + Seq::new(depth, |i: int| ']')
}

/// A count over a prefix depends on that prefix alone.
pub proof fn lemma_count_prefix(a: Seq<char>, b: Seq<char>, c: char, n: int)
    requires
        n <= a.len(),
        n <= b.len(),
        forall|i: int| 0 <= i < n ==> a[i] == b[i],
    ensures
        count(a, c, n) == count(b, c, n),
    decreases n,
{
    if 0 < n {
        lemma_count_prefix(a, b, c, n - 1);
    }
}

/// Counting in `head + tail` beyond `head` adds the count in `tail` to the
/// count in the whole of `head`.
pub proof fn lemma_count_concat(head: Seq<char>, tail: Seq<char>, c: char, n: int)
    requires
        0 <= n <= tail.len(),
    ensures
        count(head + tail, c, head.len() + n) == count(head, c, head.len() as int) + count(
            tail,
            c,
            n,
        ),
    decreases n,
{
    if n == 0 {
        lemma_count_prefix(head + tail, head, c, head.len() as int);
    } else {
        lemma_count_concat(head, tail, c, n - 1);
        assert((head + tail)[head.len() + n - 1] == tail[n - 1]);
    }
}

/// The position that the matcher returns is the first at which the code
/// balances, and it returns one whenever the code balances anywhere.
pub proof fn lemma_matching_bracket(code: Seq<char>)
    ensures
        match matching_bracket(code) {
            Some(m) => first_balance(code, m),
            None => forall|i: int| !balances_at(code, i),
        },
        forall|i: int| first_balance(code, i) ==> matching_bracket(code) == Some(i),
{
    if matching_bracket(code) is None {
        assert forall|i: int| !balances_at(code, i) by {
            if balances_at(code, i) {
                lemma_least_balance(code, i);
            }
        }
    }
}

/// Where the code balances somewhere, there is a first such place.
proof fn lemma_least_balance(code: Seq<char>, i: int)
    requires
        balances_at(code, i),
    ensures
        exists|k: int| first_balance(code, k),
    decreases i,
{
    if exists|j: int| 0 <= j < i && balances_at(code, j) {
        let j = choose|j: int| 0 <= j < i && balances_at(code, j);
        lemma_least_balance(code, j);
    } else {
        assert(first_balance(code, i));
    }
}

/// Behind a `[`, a properly nested body and its `]`, the matcher finds
/// that `]` and none of those inside the body, whatever follows.
pub proof fn lemma_match_skips_nested(body: Seq<char>, rest: Seq<char>)
    requires
        nested(body),
    ensures
        matching_bracket(seq!['['] + body + seq![']'] + rest) == Some(body.len() as int + 1),
{
    let head = seq!['['];
    let code = head + body + seq![']'] + rest;
    let tail = body + seq![']'] + rest;
    let close = body.len() as int + 1;
    assert(code =~= head + tail);
    assert(count(head, '[', 1) == 1 && count(head, ']', 1) == 0) by {
        reveal_with_fuel(count, 2);
    }
    assert forall|n: int| 0 <= n <= body.len() implies opens(code, 1 + n) == 1 + opens(body, n)
        && closes(code, 1 + n) == closes(body, n) by {
        lemma_count_concat(head, tail, '[', n);
        lemma_count_concat(head, tail, ']', n);
        lemma_count_prefix(tail, body, '[', n);
        lemma_count_prefix(tail, body, ']', n);
    }
    assert forall|j: int| 0 <= j < close implies !balances_at(code, j) by {
        if j > 0 && code[j] == ']' {
            assert(code[j] == body[j - 1]);
            assert(closes(body, j) <= opens(body, j));
            assert(closes(code, j + 1) == closes(code, j) + 1);
            assert(opens(code, j + 1) == opens(code, j));
            assert(closes(body, j - 1) <= opens(body, j - 1));
            assert(closes(body, j) == closes(body, j - 1) + 1);
            assert(opens(body, j) == opens(body, j - 1));
        }
    }
    assert(code[close] == ']');
    assert(opens(code, close + 1) == opens(code, close));
    assert(closes(code, close + 1) == closes(code, close) + 1);
    assert(first_balance(code, close));
    lemma_matching_bracket(code);
}

/// The body that the matcher cuts out behind a `[` is properly nested.
pub proof fn lemma_matched_body_nested(code: Seq<char>, m: int)
    requires
        code.len() > 0,
        code[0] == '[',
        matching_bracket(code) == Some(m),
    ensures
        0 < m < code.len(),
        nested(code.subrange(1, m)),
{
    lemma_matching_bracket(code);
    let head = seq!['['];
    let body = code.subrange(1, m);
    let tail = code.skip(1);
    assert(code =~= head + tail);
    assert(count(head, '[', 1) == 1 && count(head, ']', 1) == 0) by {
        reveal_with_fuel(count, 2);
    }
    assert forall|n: int| 0 <= n <= body.len() implies opens(code, 1 + n) == 1 + opens(body, n)
        && closes(code, 1 + n) == closes(body, n) by {
        lemma_count_concat(head, tail, '[', n);
        lemma_count_concat(head, tail, ']', n);
        lemma_count_prefix(tail, body, '[', n);
        lemma_count_prefix(tail, body, ']', n);
    }
    lemma_gap_positive(code, m, m);
    assert forall|n: int| 0 <= n <= body.len() implies #[trigger] closes(body, n) <= opens(
        body,
        n,
    ) by {
        lemma_gap_positive(code, m, 1 + n);
    }
    assert(opens(code, m + 1) == opens(code, m));
    assert(closes(code, m + 1) == closes(code, m) + 1);
}

/// Before the first place at which it balances, code that starts with a
/// `[` holds more `[` than `]` in every prefix.
proof fn lemma_gap_positive(code: Seq<char>, m: int, n: int)
    requires
        code.len() > 0,
        code[0] == '[',
        first_balance(code, m),
        1 <= n <= m,
    ensures
        closes(code, n) < opens(code, n),
    decreases n,
{
    if n == 1 {
        reveal_with_fuel(count, 2);
    } else {
        lemma_gap_positive(code, m, n - 1);
        if code[n - 1] == ']' {
            assert(!balances_at(code, n - 1));
        }
    }
}

/// Nesting `depth` loops inside one another gives a properly nested body.
pub proof fn lemma_nest_nested(depth: nat)
    ensures
        nested(nest(depth)),
{
    let body = nest(depth);
    assert forall|n: int| 0 <= n <= body.len() implies opens(body, n) == (if n <= depth {
        n
    } else {
        depth as int
    }) && closes(body, n) == (if n <= depth {
        0
    } else {
        n - depth
    }) by {
        lemma_nest_counts(depth, n);
    }
}

/// Behind a `[`, `depth` loops nested inside one another and a `]`, the
/// matcher finds that last `]`, at index `2 * depth + 1`.
pub proof fn lemma_match_outer_close(depth: nat, rest: Seq<char>)
    ensures
        matching_bracket(seq!['['] + nest(depth) + seq![']'] + rest) == Some(2 * depth as int + 1),
{
    lemma_nest_nested(depth);
    lemma_match_skips_nested(nest(depth), rest);
}

/// The counts of the two brackets in a prefix of `nest(depth)`.
proof fn lemma_nest_counts(depth: nat, n: int)
    requires
        0 <= n <= 2 * depth,
    ensures
        opens(nest(depth), n) == if n <= depth { n } else { depth as int },
        closes(nest(depth), n) == if n <= depth { 0 } else { n - depth },
    decreases n,
{
    if n > 0 {
        lemma_nest_counts(depth, n - 1);
    }
}

/// A count in what is left of `code` behind its first `a` symbols is the
/// difference of two counts in `code`.
pub proof fn lemma_count_skip(code: Seq<char>, a: int, c: char, n: int)
    requires
        0 <= a,
        0 <= n,
        a + n <= code.len(),
    ensures
        count(code.skip(a), c, n) == count(code, c, a + n) - count(code, c, a),
    decreases n,
{
    if n > 0 {
        lemma_count_skip(code, a, c, n - 1);
    }
}

/// Properly nested code that starts with a `[` holds the `]` that closes it.
pub proof fn lemma_nested_has_match(code: Seq<char>)
    requires
        code.len() > 0,
        code[0] == '[',
        nested(code),
    ensures
        matching_bracket(code) is Some,
{
    assert(closes(code, 1) < opens(code, 1)) by {
        reveal_with_fuel(count, 2);
    }
    lemma_balance_exists(code, 1);
    let i = choose|i: int| balances_at(code, i);
    lemma_least_balance(code, i);
    lemma_matching_bracket(code);
}

/// Properly nested code that holds more `[` than `]` in each of its first
/// `n` prefixes balances somewhere.
proof fn lemma_balance_exists(code: Seq<char>, n: int)
    requires
        nested(code),
        1 <= n <= code.len(),
        forall|k: int| 1 <= k <= n ==> closes(code, k) < opens(code, k),
    ensures
        exists|i: int| balances_at(code, i),
    decreases code.len() - n,
{
    assert(n < code.len());
    assert(closes(code, n + 1) <= opens(code, n + 1));
    if closes(code, n + 1) == opens(code, n + 1) {
        assert(closes(code, n) < opens(code, n));
        assert(closes(code, n + 1) == closes(code, n) + if code[n] == ']' { 1int } else { 0int });
        assert(opens(code, n + 1) == opens(code, n) + if code[n] == '[' { 1int } else { 0int });
        assert(balances_at(code, n));
    } else {
        lemma_balance_exists(code, n + 1);
    }
}

/// What follows a loop in properly nested code is properly nested.
pub proof fn lemma_nested_behind_loop(code: Seq<char>, m: int)
    requires
        code.len() > 0,
        code[0] == '[',
        nested(code),
        matching_bracket(code) == Some(m),
    ensures
        nested(code.skip(m + 1)),
{
    lemma_matching_bracket(code);
    let rest = code.skip(m + 1);
    assert forall|n: int| 0 <= n <= rest.len() implies opens(rest, n) == opens(code, m + 1 + n)
        - opens(code, m + 1) && closes(rest, n) == closes(code, m + 1 + n) - closes(code, m + 1) by {
        lemma_count_skip(code, m + 1, '[', n);
        lemma_count_skip(code, m + 1, ']', n);
    }
    assert forall|n: int| 0 <= n <= rest.len() implies #[trigger] closes(rest, n) <= opens(
        rest,
        n,
    ) by {
        assert(closes(code, m + 1 + n) <= opens(code, m + 1 + n));
    }
}

/// Properly nested code does not start with a `]`, and what follows a
/// symbol that is no bracket in it is properly nested.
pub proof fn lemma_nested_behind_symbol(code: Seq<char>)
    requires
        code.len() > 0,
        code[0] != '[',
        nested(code),
    ensures
        code[0] != ']',
        nested(code.skip(1)),
{
    assert(closes(code, 1) <= opens(code, 1));
    assert(opens(code, 1) == 0 && (code[0] == ']' ==> closes(code, 1) == 1)) by {
        reveal_with_fuel(count, 2);
    }
    let rest = code.skip(1);
    assert forall|n: int| 0 <= n <= rest.len() implies opens(rest, n) == opens(code, 1 + n)
        && closes(rest, n) == closes(code, 1 + n) by {
        lemma_count_skip(code, 1, '[', n);
        lemma_count_skip(code, 1, ']', n);
        reveal_with_fuel(count, 2);
    }
    assert forall|n: int| 0 <= n <= rest.len() implies #[trigger] closes(rest, n) <= opens(
        rest,
        n,
    ) by {
        assert(closes(code, 1 + n) <= opens(code, 1 + n));
    }
}

} // verus!
