use pleading::Operation::{Combine, Duplicate, JumpIfNonzero, Pop, Push, Swap};
use pleading::{parse, Kind, Operation};

#[test]
fn empty_text_has_no_operations() {
    assert_eq!(parse(""), Vec::<Operation>::new());
}

#[test]
fn text_without_symbols_has_no_operations() {
    assert_eq!(parse("hello, world\n123 456"), Vec::<Operation>::new());
}

#[test]
fn push_push_combine() {
    assert_eq!(parse("🥺3 🥺4 💓0"), vec![Push(3), Push(4), Combine(0)]);
}

#[test]
fn push_push_jump() {
    assert_eq!(parse("🥺0\n🥺5\n🫂2"), vec![Push(0), Push(5), JumpIfNonzero(2)]);
}

#[test]
fn every_symbol_names_its_kind() {
    assert_eq!(
        parse("🥺1 💖2 👉👈3 💓4 ✨5 🫂6"),
        vec![Push(1), Pop(2), Swap(3), Combine(4), Duplicate(5), JumpIfNonzero(6)]
    );
}

#[test]
fn symbols_inside_an_argument_count_as_filler() {
    assert_eq!(parse("🥺🥺🥺"), vec![Push(2)]);
    assert_eq!(parse("🥺👉👈"), vec![Push(2)]);
    assert_eq!(parse("💖👈"), vec![Pop(1)]);
    assert_eq!(parse("✨💓🫂✨💖 "), vec![Duplicate(4)]);
}

#[test]
fn digits_mixed_with_symbols_count_by_length() {
    assert_eq!(parse("🥺3🥺4💓0"), vec![Push(5)]);
    assert_eq!(parse("🥺1🥺"), vec![Push(2)]);
    assert_eq!(parse("🫂🥺12"), vec![JumpIfNonzero(3)]);
}

#[test]
fn empty_argument_is_zero() {
    assert_eq!(parse("🥺 "), vec![Push(0)]);
    assert_eq!(parse("🥺"), vec![Push(0)]);
    assert_eq!(parse("👉👈"), vec![Swap(0)]);
    assert_eq!(parse("🥺 💖"), vec![Push(0), Pop(0)]);
}

#[test]
fn argument_ends_at_the_first_other_character() {
    assert_eq!(parse("🥺12x34"), vec![Push(12)]);
    assert_eq!(parse("🥺-5"), vec![Push(0)]);
    assert_eq!(parse("🥺+5"), vec![Push(0)]);
    assert_eq!(parse("🥺1 2"), vec![Push(1)]);
    assert_eq!(parse("🥺1\t🥺2\r\n🥺3"), vec![Push(1), Push(2), Push(3)]);
}

#[test]
fn only_ascii_digits_are_digits() {
    assert_eq!(parse("🥺٣"), vec![Push(0)]);
    assert_eq!(parse("🥺４２"), vec![Push(0)]);
}

#[test]
fn leading_zeros_are_read() {
    assert_eq!(parse("🥺007"), vec![Push(7)]);
    assert_eq!(parse("🥺0000000000000000000000001"), vec![Push(1)]);
    assert_eq!(parse("🥺000"), vec![Push(0)]);
}

#[test]
fn numbers_up_to_the_largest_are_read() {
    assert_eq!(parse("🥺9223372036854775807"), vec![Push(i64::MAX)]);
    assert_eq!(parse("💖9223372036854775806"), vec![Pop(i64::MAX - 1)]);
}

#[test]
fn numbers_too_large_count_by_length() {
    assert_eq!(parse("🥺9223372036854775808"), vec![Push(19)]);
    assert_eq!(parse("🥺99999999999999999999"), vec![Push(20)]);
    assert_eq!(parse("👉👈10000000000000000000000"), vec![Swap(23)]);
}

#[test]
fn characters_outside_operations_are_passed_over() {
    assert_eq!(parse("hello 🥺5 world"), vec![Push(5)]);
    assert_eq!(parse("12 🥺5"), vec![Push(5)]);
    assert_eq!(parse("3🥺4"), vec![Push(4)]);
    assert_eq!(parse("x🥺1y💖2z"), vec![Push(1), Pop(2)]);
}

#[test]
fn swap_symbol_needs_both_halves_in_order() {
    assert_eq!(parse("👉 5"), Vec::<Operation>::new());
    assert_eq!(parse("👈5"), Vec::<Operation>::new());
    assert_eq!(parse("👉x👈"), Vec::<Operation>::new());
    assert_eq!(parse("👈👉"), Vec::<Operation>::new());
    assert_eq!(parse("👉"), Vec::<Operation>::new());
    assert_eq!(parse("👉👉👈7"), vec![Swap(7)]);
    assert_eq!(parse("👈👉👈7"), vec![Swap(7)]);
    assert_eq!(parse("👉🥺7"), vec![Push(7)]);
}

#[test]
fn operations_keep_their_order() {
    let program = "🥺10\n🥺20\n👉👈1\n💖5\n✨1\n💓0\n🫂9\n";
    assert_eq!(
        parse(program),
        vec![Push(10), Push(20), Swap(1), Pop(5), Duplicate(1), Combine(0), JumpIfNonzero(9)]
    );
}

#[test]
fn operation_from_kind_and_argument() {
    assert_eq!(Operation::new(Kind::Push, -3), Push(-3));
    assert_eq!(Operation::new(Kind::Pop, i64::MIN), Pop(i64::MIN));
    assert_eq!(Operation::new(Kind::Swap, 5), Swap(5));
    assert_eq!(Operation::new(Kind::Combine, 0), Combine(0));
    assert_eq!(Operation::new(Kind::Duplicate, 77), Duplicate(77));
    assert_eq!(Operation::new(Kind::JumpIfNonzero, 2), JumpIfNonzero(2));
}

#[test]
fn negative_argument_wraps_into_a_count() {
    assert_eq!(Operation::new(Kind::Combine, -1), Combine(usize::MAX));
    assert_eq!(Operation::new(Kind::Swap, -2), Swap(usize::MAX - 1));
}

fn symbol(operation: &Operation) -> (&'static str, String) {
    match operation {
        Push(value) => ("🥺", format!("{}", value)),
        Pop(divisor) => ("💖", format!("{}", divisor)),
        Swap(depth) => ("👉👈", format!("{}", depth)),
        Combine(discarded) => ("💓", format!("{}", discarded)),
        Duplicate(count) => ("✨", format!("{}", count)),
        JumpIfNonzero(distance) => ("🫂", format!("{}", distance)),
    }
}

#[test]
fn written_program_is_read_back() {
    let program = vec![
        Push(0),
        Push(i64::MAX),
        Pop(17),
        Swap(3),
        Combine(0),
        Duplicate(12),
        JumpIfNonzero(2),
        Swap(i64::MAX as usize),
    ];
    let mut text = String::new();
    for operation in &program {
        let (name, argument) = symbol(operation);
        text.push_str(name);
        text.push_str(&argument);
        text.push('\n');
    }
    assert_eq!(parse(&text), program);
}

#[test]
fn programs_join_at_a_delimiter() {
    let parts = ["", "🥺1 ", "comment\n", "💖🥺🥺\t", "👉👈4 🫂", "✨9d"];
    for first in parts {
        if first.ends_with('🫂') {
            continue;
        }
        for second in parts {
            let mut joined = parse(first);
            joined.extend(parse(second));
            assert_eq!(parse(&format!("{}{}", first, second)), joined);
        }
    }
}

#[test]
fn programs_do_not_join_inside_an_argument() {
    assert_eq!(parse("🥺1"), vec![Push(1)]);
    assert_eq!(parse("2 "), Vec::<Operation>::new());
    assert_eq!(parse("🥺12 "), vec![Push(12)]);
    assert_eq!(parse("🥺1🥺2 "), vec![Push(3)]);
}
