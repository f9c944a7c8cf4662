//! The execution engine: one unstack and a program counter, driven by the
//! operations of a program.
//!
//! The meaning of a program is given by two spec functions. `step` says what
//! one operation makes of a state, and `run` follows the counter through a
//! program for a bounded number of steps. A program may loop for ever, so
//! every executable run takes a bound on its steps, and can be resumed.

use crate::error::{ExecError, Fault};
use crate::operation::Operation;
use crate::unstack::{duplicated, pushed, swapped, Unstack};
use vstd::prelude::*;

verus! {

/// The state of a run as contracts see it.
pub struct State {
    /// The values of the unstack by depth, the bottom first.
    pub stack: Seq<i64>,
    /// The index of the operation to execute next.
    pub counter: int,
}

/// How a bounded run ends.
pub enum Outcome {
    /// The counter left the program: the run is complete.
    Halted(State),
    /// An operation failed. The state is the one in which it was tried, so
    /// its counter is the index of that operation.
    Faulted(Fault, State),
    /// The steps ran out before the counter left the program.
    Suspended(State),
}

/// The state in which every run begins: an empty unstack, the counter at
/// the first operation.
pub open spec fn initial() -> State {
    State { stack: Seq::empty(), counter: 0 }
}

/// Whether `n` can be held in an `i64`.
pub open spec fn fits_i64(n: int) -> bool {
    i64::MIN <= n <= i64::MAX
}

/// The quotient of `dividend` by `divisor`, rounded toward zero.
pub open spec fn quotient(dividend: int, divisor: int) -> int
    recommends
        divisor != 0,
{
    if dividend >= 0 {
        if divisor > 0 {
            dividend / divisor
        } else {
            -(dividend / (-divisor))
        }
    } else {
        if divisor > 0 {
            -((-dividend) / divisor)
        } else {
            (-dividend) / (-divisor)
        }
    }
}

/// What `operation` makes of `state`: the state that follows, or the fault
/// that stops the run.
pub open spec fn step(operation: Operation, state: State) -> Result<State, Fault> {
    let stack = state.stack;
    let onward = state.counter + 1;
    match operation {
        Operation::Push(value) => Ok(State { stack: pushed(stack, value), counter: onward }),
        Operation::Pop(divisor) => if stack.len() == 0 {
            Err(Fault::EmptyUnstack)
        } else if divisor == 0 {
            Err(Fault::DivisionByZero)
        } else if !fits_i64(quotient(stack[0] as int, divisor as int)) {
            Err(Fault::Overflow)
        } else {
            Ok(
                State {
                    stack: pushed(
                        stack.drop_first(),
                        quotient(stack[0] as int, divisor as int) as i64,
                    ),
                    counter: onward,
                },
            )
        },
        Operation::Swap(depth) => if depth >= stack.len() {
            Err(Fault::Underflow)
        } else {
            Ok(State { stack: swapped(stack, depth as int), counter: onward })
        },
        Operation::Combine(discarded) => if stack.len() < discarded + 2 {
            Err(Fault::Underflow)
        } else if !fits_i64(stack[0] * stack[1]) {
            Err(Fault::Overflow)
        } else {
            Ok(
                State {
                    stack: pushed(stack.skip(discarded + 2), (stack[0] * stack[1]) as i64),
                    counter: onward,
                },
            )
        },
        Operation::Duplicate(count) => if count > stack.len() {
            Err(Fault::Underflow)
        } else {
            Ok(State { stack: duplicated(stack, count as int), counter: onward })
        },
        Operation::JumpIfNonzero(distance) => if stack.len() == 0 {
            Err(Fault::EmptyUnstack)
        } else if stack[0] == 0 {
            Ok(State { stack: stack.drop_first(), counter: onward })
        } else if distance == 0 || distance - 1 > state.counter {
            Err(Fault::CounterOutOfRange)
        } else {
            Ok(State { stack: stack.drop_first(), counter: state.counter - (distance - 1) + 1 })
        },
    }
}

/// Where a run of `program` from `state` stands after at most `steps`
/// operations.
pub open spec fn run(program: Seq<Operation>, state: State, steps: nat) -> Outcome
    decreases steps,
{
    if state.counter < 0 || state.counter >= program.len() {
        Outcome::Halted(state)
    } else if steps == 0 {
        Outcome::Suspended(state)
    } else {
        match step(program[state.counter], state) {
            Err(fault) => Outcome::Faulted(fault, state),
            Ok(next) => run(program, next, (steps - 1) as nat),
        }
    }
}

/// An unstack together with a program counter.
#[derive(Debug)]
pub struct Machine {
    unstack: Unstack,
    counter: usize,
}

impl View for Machine {
    type V = State;

    closed spec fn view(&self) -> State {
        State { stack: self.unstack@, counter: self.counter as int }
    }
}

impl Machine {
    /// Creates a machine in the initial state.
    pub fn new() -> (machine: Machine)
        ensures
            machine@ == initial(),
    {
        Machine { unstack: Unstack::new(), counter: 0 }
    }

    /// The index of the operation to execute next.
    pub fn counter(&self) -> (counter: usize)
        ensures
            counter == self@.counter,
    {
        self.counter
    }

    /// The machine's unstack.
    pub fn unstack(&self) -> (unstack: &Unstack)
        ensures
            unstack@ == self@.stack,
    {
        &self.unstack
    }

    /// Executes one operation: the state becomes what `step` says. Where the
    /// operation fails, the fault is returned and the state is left as it
    /// was.
    pub fn execute(&mut self, operation: Operation) -> (done: Result<(), Fault>)
        requires
            old(self)@.counter < usize::MAX,
        ensures
            match step(operation, old(self)@) {
                Ok(next) => done == Ok::<(), Fault>(()) && final(self)@ == next,
                Err(fault) => done == Err::<(), Fault>(fault) && final(self)@ == old(self)@,
            },
    {
        let mut onward = self.counter + 1;
        match operation {
            Operation::Push(value) => {
                self.unstack.push(value);
            },
            Operation::Pop(divisor) => {
                let dividend = match self.unstack.peek_bottom() {
                    Ok(value) => value,
                    Err(fault) => {
                        return Err(fault);
                    },
                };
                if divisor == 0 {
                    return Err(Fault::DivisionByZero);
                }
                match dividend.checked_div(divisor) {
                    Some(result) => {
                        let _ = self.unstack.pop();
                        self.unstack.push(result);
                    },
                    None => {
                        return Err(Fault::Overflow);
                    },
                }
            },
            Operation::Swap(depth) => {
                match self.unstack.swap_first(depth) {
                    Ok(()) => {},
                    Err(fault) => {
                        return Err(fault);
                    },
                }
            },
            Operation::Combine(discarded) => {
                let len = self.unstack.len();
                if len < 2 || len - 2 < discarded {
                    return Err(Fault::Underflow);
                }
                let ghost before = self.unstack@;
                let first = self.unstack.pop();
                let second = self.unstack.peek_bottom();
                match (first, second) {
                    (Ok(a), Ok(b)) => match a.checked_mul(b) {
                        Some(product) => {
                            let _ = self.unstack.discard(discarded + 1);
                            self.unstack.push(product);
                            assert(self.unstack@ =~= seq![product] + before.skip(discarded + 2));
                        },
                        None => {
                            self.unstack.push(a);
                            assert(self.unstack@ =~= before);
                            return Err(Fault::Overflow);
                        },
                    },
                    _ => {
                        return Err(Fault::Underflow);
                    },
                }
            },
            Operation::Duplicate(count) => {
                match self.unstack.duplicate_near_bottom(count) {
                    Ok(()) => {},
                    Err(fault) => {
                        return Err(fault);
                    },
                }
            },
            Operation::JumpIfNonzero(distance) => {
                let value = match self.unstack.peek_bottom() {
                    Ok(value) => value,
                    Err(fault) => {
                        return Err(fault);
                    },
                };
                if value != 0 {
                    if distance == 0 || distance - 1 > self.counter {
                        return Err(Fault::CounterOutOfRange);
                    }
                    onward = self.counter - (distance - 1) + 1;
                }
                let _ = self.unstack.pop();
            },
        }
        self.counter = onward;
        Ok(())
    }

    /// Runs `program` from the present state until the counter leaves the
    /// program, an operation fails, or `max_steps` operations have been
    /// executed, whichever comes first. Returns whether the run is complete;
    /// a run that is not can be resumed by another call. A fault is returned
    /// with the index of the operation that failed, and leaves the state as
    /// it was when that operation was tried.
    pub fn run(&mut self, program: &Vec<Operation>, max_steps: u64) -> (halted: Result<
        bool,
        ExecError,
    >)
        ensures
            match run(program@, old(self)@, max_steps as nat) {
                Outcome::Halted(state) => halted == Ok::<bool, ExecError>(true)
                    && final(self)@ == state,
                Outcome::Suspended(state) => halted == Ok::<bool, ExecError>(false)
                    && final(self)@ == state,
                Outcome::Faulted(fault, state) => halted == Err::<bool, ExecError>(
                    ExecError { fault, at: state.counter as usize },
                ) && final(self)@ == state,
            },
    {
        let mut left = max_steps;
        while self.counter < program.len() && left > 0
            invariant
                run(program@, self@, left as nat) == run(program@, old(self)@, max_steps as nat),
            decreases left,
        {
            let at = self.counter;
            match self.execute(program[at]) {
                Ok(()) => {},
                Err(fault) => {
                    return Err(ExecError { fault, at });
                },
            }
            left -= 1;
        }
        Ok(self.counter >= program.len())
    }

    /// Ends the run: pops every value and returns them in the order in which
    /// they leave, the bottom first.
    pub fn into_output(self) -> (output: Vec<i64>)
        ensures
            output@ == self@.stack,
    {
        let mut unstack = self.unstack;
        unstack.drain()
    }
}

/// Runs the program `tokens` from the initial state for at most `max_steps`
/// operations. A run that completes gives `Some` of the values left on the
/// unstack, the bottom first; one that does not gives `None`. A fault is
/// returned with the index of the operation that failed.
pub fn interpret(tokens: Vec<Operation>, max_steps: u64) -> (output: Result<
    Option<Vec<i64>>,
    ExecError,
>)
    ensures
        match run(tokens@, initial(), max_steps as nat) {
            Outcome::Halted(state) => output matches Ok(Some(values)) && values@ == state.stack,
            Outcome::Suspended(_) => output matches Ok(None),
            Outcome::Faulted(fault, state) => output matches Err(error) && error == (ExecError {
                fault,
                at: state.counter as usize,
            }),
        },
{
    let mut machine = Machine::new();
    match machine.run(&tokens, max_steps) {
        Ok(true) => Ok(Some(machine.into_output())),
        Ok(false) => Ok(None),
        Err(error) => Err(error),
    }
}

/// `quotient` rounds toward zero: what is left of the dividend beyond
/// `quotient * divisor` is smaller in magnitude than the divisor and is
/// never of the sign opposite to the dividend's.
pub proof fn lemma_quotient_rounds_toward_zero(dividend: int, divisor: int)
    requires
        divisor != 0,
    ensures
        ({
            let rest = dividend - quotient(dividend, divisor) * divisor;
            &&& dividend >= 0 ==> 0 <= rest
            &&& dividend <= 0 ==> rest <= 0
            &&& divisor > 0 ==> -divisor < rest < divisor
            &&& divisor < 0 ==> divisor < rest < -divisor
        }),
{
    let n = if dividend >= 0 {
        dividend
    } else {
        -dividend
    };
    let d = if divisor > 0 {
        divisor
    } else {
        -divisor
    };
    vstd::arithmetic::div_mod::lemma_fundamental_div_mod(n, d);
    vstd::arithmetic::div_mod::lemma_mod_bound(n, d);
    let q = n / d;
    assert(n == d * q + n % d);
    assert((-q) * d == -(d * q)) by (nonlinear_arith);
    assert(q * (-d) == -(d * q)) by (nonlinear_arith);
    assert((-q) * (-d) == d * q) by (nonlinear_arith);
    assert(q * d == d * q) by (nonlinear_arith);
}

/// Of two `i64` values, only the least one divided by -1 has a quotient
/// that no `i64` holds.
pub proof fn lemma_quotient_fits(dividend: i64, divisor: i64)
    requires
        divisor != 0,
    ensures
        fits_i64(quotient(dividend as int, divisor as int)) <==> !(dividend == i64::MIN && divisor
            == -1),
{
    let n: int = if dividend >= 0 {
        dividend as int
    } else {
        -(dividend as int)
    };
    let d: int = if divisor > 0 {
        divisor as int
    } else {
        -(divisor as int)
    };
    vstd::arithmetic::div_mod::lemma_fundamental_div_mod(n, d);
    vstd::arithmetic::div_mod::lemma_mod_bound(n, d);
    let q = n / d;
    assert(0 <= q <= n) by (nonlinear_arith)
        requires
            n == d * q + n % d,
            0 <= n % d < d,
            d >= 1,
            n >= 0,
    ;
    if d == 1 {
        assert(q == n) by (nonlinear_arith)
            requires
                n == d * q + n % d,
                0 <= n % d < d,
                d == 1,
        ;
    } else {
        assert(2 * q <= n) by (nonlinear_arith)
            requires
                n == d * q + n % d,
                0 <= n % d < d,
                d >= 2,
                q >= 0,
        ;
    }
}

/// `Combine` with nothing to discard, on an unstack of two values `a` and
/// `b`, the bottom `b`: both are popped, and their product alone is left.
pub proof fn lemma_combine_two(a: i64, b: i64, counter: int)
    requires
        fits_i64(a * b),
    ensures
        step(Operation::Combine(0), State { stack: seq![b, a], counter }) == Ok::<State, Fault>(
            State { stack: seq![(a * b) as i64], counter: counter + 1 },
        ),
{
    let stack = seq![b, a];
    assert(b * a == a * b) by (nonlinear_arith);
    assert(seq![(b * a) as i64] + stack.skip(2) =~= seq![(a * b) as i64]);
}

/// `Pop` with the divisor 0 on an unstack that holds a value fails with
/// `DivisionByZero`, whatever the value.
pub proof fn lemma_pop_by_zero(state: State)
    requires
        state.stack.len() > 0,
    ensures
        step(Operation::Pop(0), state) == Err::<State, Fault>(Fault::DivisionByZero),
{
}

/// A run that comes to a `Pop` with the divisor 0 while the unstack holds a
/// value, with a step left to take, ends there with `DivisionByZero`: no
/// further operation is executed, and the state is the one in which the
/// division was tried.
pub proof fn lemma_division_by_zero_stops(program: Seq<Operation>, state: State, steps: nat)
    requires
        0 <= state.counter < program.len(),
        program[state.counter] == Operation::Pop(0),
        state.stack.len() > 0,
        steps > 0,
    ensures
        run(program, state, steps) == Outcome::Faulted(Fault::DivisionByZero, state),
{
}

/// A run can be taken in two parts: what `first + second` steps reach is
/// what `second` steps reach from where `first` steps were suspended, and
/// a run that ended within `first` steps ends the same with more.
pub proof fn lemma_run_resumes(program: Seq<Operation>, state: State, first: nat, second: nat)
    ensures
        run(program, state, first + second) == match run(program, state, first) {
            Outcome::Suspended(reached) => run(program, reached, second),
            ended => ended,
        },
    decreases first,
{
    if state.counter < 0 || state.counter >= program.len() {
    } else if first == 0 {
    } else {
        match step(program[state.counter], state) {
            Err(_) => {},
            Ok(next) => {
                lemma_run_resumes(program, next, (first - 1) as nat, second);
            },
        }
    }
}

} // verus!
