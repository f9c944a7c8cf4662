//! The tokenizer: from program text to the operations that it writes.
//!
//! A program is read code point by code point. Six symbols name the six
//! kinds of operation. What follows a symbol, up to the next code point that
//! is neither a decimal digit nor part of a symbol, is the operation's
//! argument. Everything else is commentary.

use crate::operation::{argument_of, kind_of, operation_of, Kind, Operation};
use crate::output::digits_of;
use vstd::prelude::*;

verus! {

/// The symbol of `Push`: 🥺.
pub const PUSH: char = '\u{1F97A}';

/// The symbol of `Pop`: 💖.
pub const POP: char = '\u{1F496}';

/// The first code point of the symbol of `Swap`, 👉👈.
pub const SWAP_LEFT: char = '\u{1F449}';

/// The second code point of the symbol of `Swap`, 👉👈.
pub const SWAP_RIGHT: char = '\u{1F448}';

/// The symbol of `Combine`: 💓.
pub const COMBINE: char = '\u{1F493}';

/// The symbol of `Duplicate`: ✨.
pub const DUPLICATE: char = '\u{2728}';

/// The symbol of `JumpIfNonzero`: 🫂.
pub const JUMP: char = '\u{1FAC2}';

/// Whether `c` is one of the decimal digits `0` to `9`.
pub open spec fn is_digit(c: char) -> bool {
    '0' <= c && c <= '9'
}

/// Whether `c` is one of the seven code points that the symbols are made of.
pub open spec fn is_symbol_point(c: char) -> bool {
    c == PUSH || c == POP || c == SWAP_LEFT || c == SWAP_RIGHT || c == COMBINE || c == DUPLICATE
        || c == JUMP
}

/// Whether `c` can stand in an argument: a digit, or a code point of a
/// symbol. Any other code point ends an argument.
pub open spec fn continues_argument(c: char) -> bool {
    is_digit(c) || is_symbol_point(c)
}

/// The code points of the symbol that names `kind`.
pub open spec fn symbol_of(kind: Kind) -> Seq<char> {
    match kind {
        Kind::Push => seq![PUSH],
        Kind::Pop => seq![POP],
        Kind::Swap => seq![SWAP_LEFT, SWAP_RIGHT],
        Kind::Combine => seq![COMBINE],
        Kind::Duplicate => seq![DUPLICATE],
        Kind::JumpIfNonzero => seq![JUMP],
    }
}

/// The symbol that begins at position `at` of `text`, as the kind that it
/// names and the number of code points that it takes; `None` where no
/// symbol begins there.
pub open spec fn symbol_at(text: Seq<char>, at: int) -> Option<(Kind, int)> {
    if at < 0 || at >= text.len() {
        None
    } else if text[at] == PUSH {
        Some((Kind::Push, 1))
    } else if text[at] == POP {
        Some((Kind::Pop, 1))
    } else if text[at] == SWAP_LEFT && at + 1 < text.len() && text[at + 1] == SWAP_RIGHT {
        Some((Kind::Swap, 2))
    } else if text[at] == COMBINE {
        Some((Kind::Combine, 1))
    } else if text[at] == DUPLICATE {
        Some((Kind::Duplicate, 1))
    } else if text[at] == JUMP {
        Some((Kind::JumpIfNonzero, 1))
    } else {
        None
    }
}

/// Where the argument that starts at position `from` ends: the first
/// position from there on that holds a code point which cannot stand in an
/// argument, or the end of the text.
pub open spec fn argument_end(text: Seq<char>, from: int) -> int
    decreases text.len() - from,
{
    if 0 <= from < text.len() && continues_argument(text[from]) {
        argument_end(text, from + 1)
    } else {
        from
    }
}

/// Whether `word` writes a number: one digit or more, and nothing else.
pub open spec fn is_decimal(word: Seq<char>) -> bool {
    word.len() > 0 && forall|i: int| 0 <= i < word.len() ==> is_digit(#[trigger] word[i])
}

/// The number that the digits of `word` write in base ten.
pub open spec fn decimal_value(word: Seq<char>) -> nat
    decreases word.len(),
{
    if word.len() == 0 {
        0
    } else {
        (10 * decimal_value(word.drop_last()) + (word.last() as int - '0' as int)) as nat
    }
}

/// The argument that `word` stands for: the number that it writes, where it
/// writes one that an `i64` holds; else the number of its code points
/// (reduced to an `i64` the way an `as` cast does).
pub open spec fn argument_value(word: Seq<char>) -> i64 {
    if is_decimal(word) && decimal_value(word) <= i64::MAX {
        decimal_value(word) as i64
    } else {
        word.len() as i64
    }
}

/// The operations that `text` writes from position `at` on, where no
/// argument is under way at `at`.
pub open spec fn tokens_from(text: Seq<char>, at: int) -> Seq<Operation>
    decreases text.len() - at,
{
    if at < 0 || at >= text.len() {
        Seq::empty()
    } else {
        match symbol_at(text, at) {
            Some((kind, width)) => {
                let start = at + width;
                let end = argument_end(text, start);
                proof {
                    lemma_argument_end_bounds(text, start);
                }
                seq![operation_of(kind, argument_value(text.subrange(start, end)))] + tokens_from(
                    text,
                    end,
                )
            },
            None => tokens_from(text, at + 1),
        }
    }
}

/// The operations that the program `text` writes, in their order.
pub open spec fn tokens(text: Seq<char>) -> Seq<Operation> {
    tokens_from(text, 0)
}

/// An argument ends at or after its start and within the text, every code
/// point of it can stand in an argument, and the code point after it, if
/// there is one, cannot.
pub proof fn lemma_argument_end_bounds(text: Seq<char>, from: int)
    requires
        0 <= from <= text.len(),
    ensures
        from <= argument_end(text, from) <= text.len(),
        forall|i: int| from <= i < argument_end(text, from) ==> continues_argument(#[trigger] text[i]),
        argument_end(text, from) < text.len() ==> !continues_argument(
            text[argument_end(text, from)],
        ),
    decreases text.len() - from,
{
    if from < text.len() && continues_argument(text[from]) {
        lemma_argument_end_bounds(text, from + 1);
    }
}

/// Behind a text `before`, a text `after` is read as it is read alone:
/// arguments end at the same places of it.
proof fn lemma_argument_end_shifts(before: Seq<char>, after: Seq<char>, from: int)
    requires
        0 <= from <= after.len(),
    ensures
        argument_end(before + after, before.len() + from) == before.len() + argument_end(
            after,
            from,
        ),
    decreases after.len() - from,
{
    let whole = before + after;
    if from < after.len() {
        assert(whole[before.len() + from] == after[from]);
        if continues_argument(after[from]) {
            lemma_argument_end_shifts(before, after, from + 1);
        }
    }
}

/// Behind a text `before`, a text `after` writes from each of its positions
/// the operations that it writes from there alone.
proof fn lemma_tokens_shift(before: Seq<char>, after: Seq<char>, at: int)
    requires
        0 <= at <= after.len(),
    ensures
        tokens_from(before + after, before.len() + at) == tokens_from(after, at),
    decreases after.len() - at,
{
    let whole = before + after;
    let there = before.len() + at;
    if at < after.len() {
        assert(whole[there] == after[at]);
        if at + 1 < after.len() {
            assert(whole[there + 1] == after[at + 1]);
        }
        match symbol_at(after, at) {
            Some((kind, width)) => {
                assert(symbol_at(whole, there) == Some((kind, width)));
                let start = at + width;
                let end = argument_end(after, start);
                lemma_argument_end_bounds(after, start);
                lemma_argument_end_shifts(before, after, start);
                assert(whole.subrange(before.len() + start, before.len() + end)
                    =~= after.subrange(start, end));
                lemma_tokens_shift(before, after, end);
            },
            None => {
                assert(symbol_at(whole, there) is None);
                lemma_tokens_shift(before, after, at + 1);
            },
        }
    }
}

/// Before a text `after`, a text `before` that does not end within an
/// argument writes from each of its positions what it writes from there
/// alone, and then what `after` writes.
proof fn lemma_tokens_extend(before: Seq<char>, after: Seq<char>, at: int)
    requires
        0 <= at <= before.len(),
        before.len() == 0 || !continues_argument(before.last()),
    ensures
        tokens_from(before + after, at) == tokens_from(before, at) + tokens(after),
    decreases before.len() - at,
{
    let whole = before + after;
    if at == before.len() {
        lemma_tokens_shift(before, after, 0);
        assert(tokens_from(before, at) + tokens(after) =~= tokens(after));
    } else {
        assert(whole[at] == before[at]);
        if at + 1 < before.len() {
            assert(whole[at + 1] == before[at + 1]);
        }
        match symbol_at(before, at) {
            Some((kind, width)) => {
                assert(symbol_at(whole, at) == Some((kind, width)));
                let start = at + width;
                assert(start < before.len());
                lemma_argument_end_bounds(before, start);
                lemma_argument_end_within(before, after, start);
                let end = argument_end(before, start);
                assert(whole.subrange(start, end) =~= before.subrange(start, end));
                lemma_tokens_extend(before, after, end);
                let head = seq![operation_of(kind, argument_value(before.subrange(start, end)))];
                assert(head + (tokens_from(before, end) + tokens(after)) =~= (head + tokens_from(
                    before,
                    end,
                )) + tokens(after));
            },
            None => {
                assert(symbol_at(whole, at) is None);
                lemma_tokens_extend(before, after, at + 1);
            },
        }
    }
}

/// An argument that starts within a text which ends in a code point that
/// cannot stand in an argument ends within that text, whatever follows it.
proof fn lemma_argument_end_within(before: Seq<char>, after: Seq<char>, from: int)
    requires
        0 <= from < before.len(),
        !continues_argument(before.last()),
    ensures
        argument_end(before + after, from) == argument_end(before, from),
        argument_end(before, from) < before.len(),
    decreases before.len() - from,
{
    let whole = before + after;
    assert(whole[from] == before[from]);
    if continues_argument(before[from]) {
        lemma_argument_end_within(before, after, from + 1);
    }
}

/// Programs can be put together at any place that lies in no argument:
/// where `first` is empty or ends in a code point that cannot stand in an
/// argument, `first` followed by `second` writes the operations of `first`
/// and then those of `second`.
pub proof fn lemma_tokens_concatenate(first: Seq<char>, second: Seq<char>)
    requires
        first.len() == 0 || !continues_argument(first.last()),
    ensures
        tokens(first + second) == tokens(first) + tokens(second),
{
    lemma_tokens_extend(first, second, 0);
}

/// A number written in decimal is read back as itself: its digits are a
/// word that writes a number, that number is the one written, and where an
/// `i64` holds it, it is the argument that the word stands for.
pub proof fn lemma_reads_what_is_written(n: nat)
    ensures
        is_decimal(digits_of(n)),
        decimal_value(digits_of(n)) == n,
        n <= i64::MAX ==> argument_value(digits_of(n)) == n,
    decreases n,
{
    let word = digits_of(n);
    if n < 10 {
        assert(word.drop_last() =~= Seq::<char>::empty());
        assert(decimal_value(Seq::<char>::empty()) == 0);
        assert(word.last() as int - '0' as int == n);
        assert(decimal_value(word) == n);
    } else {
        let shorter = digits_of(n / 10);
        lemma_reads_what_is_written(n / 10);
        assert(word.drop_last() =~= shorter);
        assert(word.last() as int - '0' as int == n % 10);
        assert(decimal_value(word) == 10 * (n / 10) + n % 10);
        assert forall|i: int| 0 <= i < word.len() implies is_digit(#[trigger] word[i]) by {
            if i < shorter.len() {
                assert(word[i] == shorter[i]);
            }
        }
    }
}

/// An argument ends where its code points stop being ones that can stand
/// in an argument.
proof fn lemma_argument_stops(text: Seq<char>, from: int, to: int)
    requires
        0 <= from <= to <= text.len(),
        forall|i: int| from <= i < to ==> continues_argument(#[trigger] text[i]),
        to == text.len() || !continues_argument(text[to]),
    ensures
        argument_end(text, from) == to,
    decreases to - from,
{
    if from < to {
        lemma_argument_stops(text, from + 1, to);
    }
}

/// An operation written as its symbol and the decimal digits of its
/// argument is read as that operation, whatever follows it, so long as
/// what follows does not go on with the argument; and what follows is read
/// as it is read alone.
pub proof fn lemma_reads_written_operation(kind: Kind, argument: i64, rest: Seq<char>)
    requires
        argument >= 0,
        rest.len() == 0 || !continues_argument(rest[0]),
    ensures
        tokens(symbol_of(kind) + digits_of(argument as nat) + rest) == seq![
            operation_of(kind, argument),
        ] + tokens(rest),
{
    let symbol = symbol_of(kind);
    let word = digits_of(argument as nat);
    let written = symbol + word;
    let text = written + rest;
    let start = symbol.len() as int;
    let end = written.len() as int;
    lemma_reads_what_is_written(argument as nat);
    assert(text[0] == symbol[0]);
    if kind == Kind::Swap {
        assert(text[1] == symbol[1]);
    }
    assert(symbol_at(text, 0) == Some((kind, start)));
    assert forall|i: int| start <= i < end implies continues_argument(#[trigger] text[i]) by {
        assert(text[i] == word[i - start]);
    }
    if rest.len() > 0 {
        assert(text[end] == rest[0]);
    }
    lemma_argument_stops(text, start, end);
    assert(text.subrange(start, end) =~= word);
    lemma_tokens_shift(written, rest, 0);
}

/// The text that writes `operation`: its symbol, then the decimal digits of
/// its argument.
pub open spec fn written(operation: Operation) -> Seq<char> {
    symbol_of(kind_of(operation)) + digits_of(argument_of(operation) as nat)
}

/// The text that writes the operations of `program`, each on a line of its
/// own.
pub open spec fn written_lines(program: Seq<Operation>) -> Seq<char>
    decreases program.len(),
{
    if program.len() == 0 {
        Seq::empty()
    } else {
        written(program[0]) + seq!['\n'] + written_lines(program.drop_first())
    }
}

/// Whether `operation` can be written in decimal and read back: its
/// argument is not negative and an `i64` holds it.
pub open spec fn is_writable(operation: Operation) -> bool {
    0 <= argument_of(operation) <= i64::MAX
}

/// Tokenizing undoes writing: a program of operations that can be written,
/// written line by line, is read back as itself.
pub proof fn lemma_reads_written_program(program: Seq<Operation>)
    requires
        forall|i: int| 0 <= i < program.len() ==> is_writable(#[trigger] program[i]),
    ensures
        tokens(written_lines(program)) == program,
    decreases program.len(),
{
    if program.len() == 0 {
        assert(tokens(Seq::<char>::empty()) =~= program);
    } else {
        let first = program[0];
        let others = program.drop_first();
        let below = written_lines(others);
        let rest = seq!['\n'] + below;
        lemma_reads_written_program(others);
        assert(is_writable(first));
        let argument = argument_of(first) as i64;
        assert(operation_of(kind_of(first), argument) == first);
        lemma_reads_written_operation(kind_of(first), argument, rest);
        assert(rest[0] == '\n');
        assert(symbol_at(rest, 0) is None);
        lemma_tokens_shift(seq!['\n'], below, 0);
        assert(tokens(rest) == tokens(below));
        assert(written(first) + rest =~= written_lines(program));
        assert(seq![first] + others =~= program);
    }
}

/// The code points of `text`, in their order.
fn code_points(text: &str) -> (points: Vec<char>)
    ensures
        points@ == text@,
{
    let mut points: Vec<char> = Vec::new();
    for c in it: text.chars()
        invariant
            it.seq() == text@,
            points@ == text@.take(it.index()),
    {
        points.push(c);
        assert(points@ =~= text@.take(it.index() + 1));
    }
    assert(points@ =~= text@);
    points
}

/// Tells whether `c` can stand in an argument.
fn stands_in_argument(c: char) -> (stands: bool)
    ensures
        stands == continues_argument(c),
{
    (c >= '0' && c <= '9') || c == PUSH || c == POP || c == SWAP_LEFT || c == SWAP_RIGHT || c
        == COMBINE || c == DUPLICATE || c == JUMP
}

/// Finds the symbol that begins at position `at`.
fn find_symbol(text: &Vec<char>, at: usize) -> (found: Option<(Kind, usize)>)
    requires
        at < text.len(),
    ensures
        symbol_at(text@, at as int) matches Some((kind, width)) ==> found == Some((kind, width as usize))
            && at + width <= text.len(),
        symbol_at(text@, at as int) is None ==> found is None,
{
    let c = text[at];
    if c == PUSH {
        Some((Kind::Push, 1))
    } else if c == POP {
        Some((Kind::Pop, 1))
    } else if c == SWAP_LEFT && at + 1 < text.len() && text[at + 1] == SWAP_RIGHT {
        Some((Kind::Swap, 2))
    } else if c == COMBINE {
        Some((Kind::Combine, 1))
    } else if c == DUPLICATE {
        Some((Kind::Duplicate, 1))
    } else if c == JUMP {
        Some((Kind::JumpIfNonzero, 1))
    } else {
        None
    }
}

/// Finds where the argument that starts at position `from` ends.
fn find_argument_end(text: &Vec<char>, from: usize) -> (end: usize)
    requires
        from <= text.len(),
    ensures
        end == argument_end(text@, from as int),
        from <= end <= text.len(),
{
    let mut end = from;
    while end < text.len() && stands_in_argument(text[end])
        invariant
            from <= end <= text.len(),
            argument_end(text@, from as int) == argument_end(text@, end as int),
        decreases text.len() - end,
    {
        end += 1;
    }
    end
}

/// Reads the number that the code points from `start` to `end` write, if
/// they write one that an `i64` holds.
fn read_decimal(text: &Vec<char>, start: usize, end: usize) -> (number: Option<i64>)
    requires
        start <= end <= text.len(),
    ensures
        ({
            let word = text@.subrange(start as int, end as int);
            number == if is_decimal(word) && decimal_value(word) <= i64::MAX {
                Some(decimal_value(word) as i64)
            } else {
                None::<i64>
            }
        }),
{
    if start == end {
        return None;
    }
    let ghost word = text@.subrange(start as int, end as int);
    let mut value: i64 = 0;
    let mut fits = true;
    let mut at = start;
    while at < end
        invariant
            start <= at <= end <= text.len(),
            word == text@.subrange(start as int, end as int),
            forall|i: int| 0 <= i < at - start ==> is_digit(#[trigger] word[i]),
            fits ==> value == decimal_value(word.take(at - start)),
            !fits ==> decimal_value(word.take(at - start)) > i64::MAX,
            0 <= value,
        decreases end - at,
    {
        let c = text[at];
        if !(c >= '0' && c <= '9') {
            assert(!is_digit(word[at - start]));
            return None;
        }
        let digit = (c as u32 - '0' as u32) as i64;
        proof {
            let longer = word.take(at - start + 1);
            assert(longer.drop_last() =~= word.take(at - start));
            assert(longer.last() == c);
            assert(decimal_value(longer) == 10 * decimal_value(word.take(at - start)) + digit);
        }
        if fits {
            match value.checked_mul(10) {
                Some(tenfold) => match tenfold.checked_add(digit) {
                    Some(next) => {
                        value = next;
                    },
                    None => {
                        fits = false;
                    },
                },
                None => {
                    fits = false;
                },
            }
        }
        at += 1;
    }
    assert(word.take(end - start) =~= word);
    if fits {
        Some(value)
    } else {
        None
    }
}

/// Reads the argument that the code points from `start` to `end` stand for.
fn read_argument(text: &Vec<char>, start: usize, end: usize) -> (argument: i64)
    requires
        start <= end <= text.len(),
    ensures
        argument == argument_value(text@.subrange(start as int, end as int)),
{
    match read_decimal(text, start, end) {
        Some(number) => number,
        None => {
            let count = end - start;
            #[verifier::truncate]
            (count as i64)
        },
    }
}

/// Tokenizes a program: returns the operations that `source` writes, in
/// their order. Every text is a program; code points that belong to no
/// operation are passed over.
pub fn parse(source: &str) -> (operations: Vec<Operation>)
    ensures
        operations@ == tokens(source@),
{
    let text = code_points(source);
    let mut operations: Vec<Operation> = Vec::new();
    let mut at: usize = 0;
    while at < text.len()
        invariant
            at <= text.len(),
            operations@ + tokens_from(text@, at as int) == tokens(text@),
        decreases text.len() - at,
    {
        match find_symbol(&text, at) {
            Some((kind, width)) => {
                let start = at + width;
                let end = find_argument_end(&text, start);
                let argument = read_argument(&text, start, end);
                let ghost before = operations@;
                operations.push(Operation::new(kind, argument));
                assert(operations@ + tokens_from(text@, end as int) =~= before + tokens_from(
                    text@,
                    at as int,
                ));
                at = end;
            },
            None => {
                at += 1;
            },
        }
    }
    assert(operations@ + tokens_from(text@, at as int) =~= operations@);
    operations
}

} // verus!
