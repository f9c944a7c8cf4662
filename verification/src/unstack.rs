//! The unstack: a sequence of `i64` values that is pushed to and popped from
//! at one end only, the bottom.
//!
//! Contracts speak of an unstack through its view, a `Seq<i64>` indexed by
//! depth: index 0 is the bottom, the value pushed last.

use crate::error::Fault;
use crate::output::{append_decimal, listed};
use vstd::prelude::*;
use vstd::string::StringExecFns;

verus! {

/// `contents` with `value` pushed: it is the new bottom, and every other
/// value lies one deeper.
pub open spec fn pushed(contents: Seq<i64>, value: i64) -> Seq<i64> {
    seq![value] + contents
}

/// `contents` with the bottom and the value at `depth` exchanged.
pub open spec fn swapped(contents: Seq<i64>, depth: int) -> Seq<i64> {
    contents.update(0, contents[depth]).update(depth, contents[0])
}

/// `contents` with each of the `count` values nearest the bottom doubled in
/// place: depths `2 * i` and `2 * i + 1` hold what depth `i` held, and every
/// value from depth `count` on lies `count` deeper.
pub open spec fn duplicated(contents: Seq<i64>, count: int) -> Seq<i64> {
    Seq::new(
        (contents.len() + count) as nat,
        |depth: int|
            if depth < 2 * count {
                contents[depth / 2]
            } else {
                contents[depth - count]
            },
    )
}

/// The text that shows `contents`: `[]` where there are none; else the
/// values in decimal between `[ ` and ` ] `, separated by `, `, the deepest
/// first and the bottom last.
pub open spec fn rendering(contents: Seq<i64>) -> Seq<char> {
    if contents.len() == 0 {
        seq!['[', ']']
    } else {
        seq!['[', ' '] + listed(contents.reverse()) + seq![' ', ']', ' ']
    }
}

/// A sequence of integers with one active end, the bottom.
///
/// ```
/// use pleading::Unstack;
///
/// let mut unstack = Unstack::new();
/// unstack.push(10);
/// unstack.push(42);
/// assert_eq!(unstack.pop(), Ok(42));
/// assert_eq!(unstack.pop(), Ok(10));
/// assert!(unstack.is_empty());
/// ```
#[derive(Debug)]
pub struct Unstack {
    /// The values, the bottom last.
    items: Vec<i64>,
}

impl View for Unstack {
    type V = Seq<i64>;

    /// The values by depth: `self@[0]` is the bottom.
    closed spec fn view(&self) -> Seq<i64> {
        Seq::new(self.items@.len(), |depth: int| self.items@[self.items@.len() - 1 - depth])
    }
}

impl Unstack {
    /// Creates an empty unstack.
    pub fn new() -> (unstack: Unstack)
        ensures
            unstack@ == Seq::<i64>::empty(),
    {
        let unstack = Unstack { items: Vec::new() };
        assert(unstack@ =~= Seq::<i64>::empty());
        unstack
    }

    /// The number of values held.
    pub fn len(&self) -> (len: usize)
        ensures
            len == self@.len(),
    {
        self.items.len()
    }

    /// Whether no value is held.
    pub fn is_empty(&self) -> (empty: bool)
        ensures
            empty == (self@.len() == 0),
    {
        self.items.len() == 0
    }

    /// Makes `value` the new bottom; every value held before lies one deeper.
    pub fn push(&mut self, value: i64)
        ensures
            final(self)@ == pushed(old(self)@, value),
    {
        self.items.push(value);
        assert(self@ =~= pushed(old(self)@, value));
    }

    /// Removes the bottom and returns it; every other value rises by one.
    /// An empty unstack is left as it is and reported as `EmptyUnstack`.
    pub fn pop(&mut self) -> (popped: Result<i64, Fault>)
        ensures
            old(self)@.len() == 0 ==> popped == Err::<i64, Fault>(Fault::EmptyUnstack),
            old(self)@.len() == 0 ==> final(self)@ == old(self)@,
            old(self)@.len() > 0 ==> popped == Ok::<i64, Fault>(old(self)@[0]),
            old(self)@.len() > 0 ==> final(self)@ == old(self)@.drop_first(),
    {
        match self.items.pop() {
            Some(value) => {
                assert(self@ =~= old(self)@.drop_first());
                Ok(value)
            },
            None => Err(Fault::EmptyUnstack),
        }
    }

    /// Reads the bottom without removing it; `EmptyUnstack` if there is none.
    pub fn peek_bottom(&self) -> (bottom: Result<i64, Fault>)
        ensures
            self@.len() == 0 ==> bottom == Err::<i64, Fault>(Fault::EmptyUnstack),
            self@.len() > 0 ==> bottom == Ok::<i64, Fault>(self@[0]),
    {
        let len = self.items.len();
        if len == 0 {
            Err(Fault::EmptyUnstack)
        } else {
            Ok(self.items[len - 1])
        }
    }

    /// Exchanges the bottom with the value `steps` deeper and leaves every
    /// other value where it is; with `steps == 0` nothing changes. An unstack
    /// that holds no value at that depth is left as it is and reported as
    /// `Underflow`.
    pub fn swap_first(&mut self, steps: usize) -> (done: Result<(), Fault>)
        ensures
            steps >= old(self)@.len() ==> done == Err::<(), Fault>(Fault::Underflow),
            steps >= old(self)@.len() ==> final(self)@ == old(self)@,
            steps < old(self)@.len() ==> done == Ok::<(), Fault>(()),
            steps < old(self)@.len() ==> final(self)@ == swapped(old(self)@, steps as int),
    {
        let len = self.items.len();
        if steps >= len {
            return Err(Fault::Underflow);
        }
        let low = len - 1;
        let high = low - steps;
        let bottom = self.items[low];
        let other = self.items[high];
        self.items.set(low, other);
        self.items.set(high, bottom);
        assert(self@ =~= swapped(old(self)@, steps as int));
        Ok(())
    }

    /// Doubles each of the `count` values nearest the bottom in place, so
    /// that the bottom `2 * count` values are those values as adjacent pairs
    /// in their old order, and every other value lies `count` deeper. An
    /// unstack that holds fewer than `count` values is left as it is and
    /// reported as `Underflow`.
    pub fn duplicate_near_bottom(&mut self, count: usize) -> (done: Result<(), Fault>)
        ensures
            count > old(self)@.len() ==> done == Err::<(), Fault>(Fault::Underflow),
            count > old(self)@.len() ==> final(self)@ == old(self)@,
            count <= old(self)@.len() ==> done == Ok::<(), Fault>(()),
            count <= old(self)@.len() ==> final(self)@ == duplicated(old(self)@, count as int),
    {
        let len = self.items.len();
        if count > len {
            return Err(Fault::Underflow);
        }
        let start = len - count;
        let tail = self.items.split_off(start);
        let mut i: usize = 0;
        while i < count
            invariant
                i <= count,
                count == tail@.len(),
                start + count == old(self).items@.len(),
                tail@ == old(self).items@.subrange(start as int, start + count),
                self.items@.len() == start + 2 * i,
                forall|k: int| 0 <= k < start ==> self.items@[k] == old(self).items@[k],
                forall|k: int|
                    start <= k < start + 2 * i ==> #[trigger] self.items@[k] == tail@[(k - start) / 2],
            decreases count - i,
        {
            let value = tail[i];
            self.items.push(value);
            self.items.push(value);
            i += 1;
        }
        assert(self@ =~= duplicated(old(self)@, count as int));
        Ok(())
    }

    /// Removes the `count` values nearest the bottom. An unstack that holds
    /// fewer is left as it is and reported as `Underflow`.
    pub fn discard(&mut self, count: usize) -> (done: Result<(), Fault>)
        ensures
            count > old(self)@.len() ==> done == Err::<(), Fault>(Fault::Underflow),
            count > old(self)@.len() ==> final(self)@ == old(self)@,
            count <= old(self)@.len() ==> done == Ok::<(), Fault>(()),
            count <= old(self)@.len() ==> final(self)@ == old(self)@.skip(count as int),
    {
        let len = self.items.len();
        if count > len {
            return Err(Fault::Underflow);
        }
        self.items.truncate(len - count);
        assert(self@ =~= old(self)@.skip(count as int));
        Ok(())
    }

    /// Shows the values as text, the deepest first and the bottom last.
    pub fn render(&self) -> (text: String)
        ensures
            text@ == rendering(self@),
    {
        let len = self.items.len();
        if len == 0 {
            proof {
                reveal_strlit("[]");
            }
            let text = String::from_str("[]");
            assert(text@ =~= rendering(self@));
            return text;
        }
        proof {
            reveal_strlit("[ ");
            reveal_strlit(" ] ");
        }
        let mut text = String::from_str("[ ");
        let mut at: usize = 0;
        while at < len
            invariant
                at <= len,
                len == self.items@.len(),
                text@ == seq!['[', ' '] + listed(self.items@.take(at as int)),
            decreases len - at,
        {
            let ghost shown = self.items@.take(at as int);
            let ghost longer = self.items@.take(at + 1);
            assert(longer.drop_last() =~= shown);
            assert(longer.last() == self.items@[at as int]);
            if at > 0 {
                proof {
                    reveal_strlit(", ");
                }
                text.append(", ");
            }
            append_decimal(&mut text, self.items[at]);
            assert(text@ =~= seq!['[', ' '] + listed(longer));
            at += 1;
        }
        text.append(" ] ");
        assert(self.items@.take(len as int) =~= self.items@);
        assert(self@.reverse() =~= self.items@);
        assert(text@ =~= rendering(self@));
        text
    }

    /// Pops every value: the result lists them in the order in which they
    /// leave, the bottom first, and the unstack is empty afterwards.
    pub fn drain(&mut self) -> (values: Vec<i64>)
        ensures
            values@ == old(self)@,
            final(self)@ == Seq::<i64>::empty(),
    {
        let mut values: Vec<i64> = Vec::new();
        while self.items.len() > 0
            invariant
                values@ + self@ == old(self)@,
            decreases self.items@.len(),
        {
            let ghost before = self@;
            let popped = self.items.pop();
            assert(self@ =~= before.drop_first());
            let ghost head = values@;
            values.push(popped.unwrap());
            assert(values@ + self@ =~= head + before);
        }
        assert(self@ =~= Seq::<i64>::empty());
        assert(values@ =~= values@ + self@);
        values
    }
}

/// The contents after the values of `values` have been pushed one after
/// another, `values[0]` first.
pub open spec fn pushed_all(contents: Seq<i64>, values: Seq<i64>) -> Seq<i64>
    decreases values.len(),
{
    if values.len() == 0 {
        contents
    } else {
        pushed_all(pushed(contents, values[0]), values.drop_first())
    }
}

/// What `count` pops in a row return, in the order of the pops, and the
/// contents that they leave.
pub open spec fn popped_all(contents: Seq<i64>, count: nat) -> (Seq<i64>, Seq<i64>)
    decreases count,
{
    if count == 0 {
        (Seq::empty(), contents)
    } else {
        let (values, rest) = popped_all(contents.drop_first(), (count - 1) as nat);
        (seq![contents[0]] + values, rest)
    }
}

/// Pushing `values` one after another puts them below `contents` in reverse
/// order: the value pushed last is the bottom.
pub proof fn lemma_pushed_all(contents: Seq<i64>, values: Seq<i64>)
    ensures
        pushed_all(contents, values) == values.reverse() + contents,
    decreases values.len(),
{
    if values.len() == 0 {
        assert(values.reverse() + contents =~= contents);
    } else {
        let rest = values.drop_first();
        lemma_pushed_all(pushed(contents, values[0]), rest);
        assert(rest.reverse() + pushed(contents, values[0]) =~= values.reverse() + contents);
    }
}

/// `count` pops return the `count` values nearest the bottom, the bottom
/// first, and leave the others.
pub proof fn lemma_popped_all(contents: Seq<i64>, count: nat)
    requires
        count <= contents.len(),
    ensures
        popped_all(contents, count) == (contents.take(count as int), contents.skip(count as int)),
    decreases count,
{
    if count == 0 {
        assert(contents.take(0) =~= Seq::<i64>::empty());
        assert(contents.skip(0) =~= contents);
    } else {
        let below = contents.drop_first();
        let fewer = (count - 1) as nat;
        lemma_popped_all(below, fewer);
        assert(seq![contents[0]] + below.take(fewer as int) =~= contents.take(count as int));
        assert(below.skip(fewer as int) =~= contents.skip(count as int));
    }
}

/// The unstack is last in, first out: after any number of pushes, as many
/// pops return the pushed values in reverse order and leave the contents as
/// they were before the pushes.
pub proof fn lemma_pops_return_pushes_reversed(contents: Seq<i64>, values: Seq<i64>)
    ensures
        popped_all(pushed_all(contents, values), values.len()) == (values.reverse(), contents),
{
    let filled = pushed_all(contents, values);
    lemma_pushed_all(contents, values);
    lemma_popped_all(filled, values.len());
    assert(filled.take(values.len() as int) =~= values.reverse());
    assert(filled.skip(values.len() as int) =~= contents);
}

/// Exchanging the bottom with itself changes nothing.
pub proof fn lemma_swap_at_depth_zero(contents: Seq<i64>)
    requires
        contents.len() > 0,
    ensures
        swapped(contents, 0) == contents,
{
    assert(swapped(contents, 0) =~= contents);
}

/// An exchange moves two values and no other: the old bottom lies at
/// `depth`, the value that lay there is the bottom, and every other depth
/// holds what it held.
pub proof fn lemma_swap_moves_two(contents: Seq<i64>, depth: int)
    requires
        0 < depth < contents.len(),
    ensures
        swapped(contents, depth).len() == contents.len(),
        swapped(contents, depth)[0] == contents[depth],
        swapped(contents, depth)[depth] == contents[0],
        forall|i: int|
            0 < i < contents.len() && i != depth ==> swapped(contents, depth)[i] == contents[i],
{
}

/// The same exchange made twice restores the contents.
pub proof fn lemma_swap_twice(contents: Seq<i64>, depth: int)
    requires
        0 <= depth < contents.len(),
    ensures
        swapped(swapped(contents, depth), depth) == contents,
{
    assert(swapped(swapped(contents, depth), depth) =~= contents);
}

/// Doubling the `count` values nearest the bottom adds `count` values; the
/// bottom `2 * count` values are adjacent equal pairs, the pair at depths
/// `2 * i` and `2 * i + 1` holding what depth `i` held; and every value from
/// depth `count` on lies `count` deeper, unchanged.
pub proof fn lemma_duplicate_pairs(contents: Seq<i64>, count: int)
    requires
        0 <= count <= contents.len(),
    ensures
        duplicated(contents, count).len() == contents.len() + count,
        forall|i: int|
            0 <= i < count ==> duplicated(contents, count)[2 * i] == #[trigger] contents[i]
                && duplicated(contents, count)[2 * i + 1] == contents[i],
        forall|i: int|
            count <= i < contents.len() ==> duplicated(contents, count)[i + count]
                == #[trigger] contents[i],
{
}

} // verus!
