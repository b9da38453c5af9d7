//! What a walk over a ring hands out, stated over plain sequences.
//!
//! A ring of `len` cells is walked from a cursor, a place `0 <= p < len`, or
//! from no place at all when the ring is empty or the walk is over. A walk
//! either stops after the last cell or goes on for ever.

use vstd::prelude::*;
use vstd::arithmetic::div_mod::lemma_fundamental_div_mod;
use vstd::arithmetic::div_mod::lemma_fundamental_div_mod_converse_mod;
use vstd::arithmetic::div_mod::lemma_mod_pos_bound;

verus! {

/// The place that follows place `i` in a ring of `len` cells: the next one,
/// and after the last one the first.
pub open spec fn following(i: int, len: nat) -> int {
    if i + 1 == len {
        0
    } else {
        i + 1
    }
}

/// Whether `cursor` is a place of a ring of `len` cells, or no place.
pub open spec fn in_ring(len: nat, cursor: Option<int>) -> bool {
    match cursor {
        None => true,
        Some(p) => 0 <= p < len,
    }
}

/// Where a walk begins: at the head, and nowhere in an empty ring.
pub open spec fn start(len: nat) -> Option<int> {
    if len == 0 {
        None
    } else {
        Some(0)
    }
}

/// The place of the tail: the last one, and none in an empty ring.
pub open spec fn end(len: nat) -> Option<int> {
    if len == 0 {
        None
    } else {
        Some(len - 1)
    }
}

/// Where a walk stands once it has handed out the cell under `cursor`. A
/// walk that stops ends behind the last cell; any other moves to the cell
/// that follows.
pub open spec fn step(len: nat, cursor: Option<int>, stops: bool) -> Option<int> {
    match cursor {
        None => None,
        Some(p) => if stops && p + 1 == len {
            None
        } else {
            Some(following(p, len))
        },
    }
}

/// Where a walk stands after `k` steps.
pub open spec fn cursor_after(len: nat, cursor: Option<int>, stops: bool, k: nat) -> Option<int> {
    match cursor {
        None => None,
        Some(p) => if !stops {
            Some((p + k) % (len as int))
        } else if p + k < len {
            Some(p + k)
        } else {
            None
        },
    }
}

/// The values that the first `k` steps of a walk hand out: fewer than `k`
/// where the walk ends before.
pub open spec fn yields<T>(ring: Seq<T>, cursor: Option<int>, stops: bool, k: nat) -> Seq<T> {
    match cursor {
        None => Seq::empty(),
        Some(p) => if !stops {
            Seq::new(k, |j: int| ring[(p + j) % (ring.len() as int)])
        } else if p + k < ring.len() {
            ring.subrange(p, p + k)
        } else {
            ring.subrange(p, ring.len() as int)
        },
    }
}

/// `ring` written `times` times in a row.
pub open spec fn repeated<T>(ring: Seq<T>, times: nat) -> Seq<T>
    decreases times,
{
    if times == 0 {
        Seq::empty()
    } else {
        repeated(ring, (times - 1) as nat) + ring
    }
}

proof fn lemma_mod_successor(a: int, n: nat)
    requires
        0 <= a,
        0 < n,
    ensures
        0 <= a % (n as int) < n,
        (a + 1) % (n as int) == following(a % (n as int), n),
{
    let d = n as int;
    lemma_mod_pos_bound(a, d);
    lemma_fundamental_div_mod(a, d);
    let q = a / d;
    let r = a % d;
    if r + 1 == d {
        assert((q + 1) * d + 0 == d * q + r + 1) by (nonlinear_arith)
            requires
                r + 1 == d,
        ;
        lemma_fundamental_div_mod_converse_mod(a + 1, d, q + 1, 0);
    } else {
        assert(q * d + (r + 1) == d * q + r + 1) by (nonlinear_arith);
        lemma_fundamental_div_mod_converse_mod(a + 1, d, q, r + 1);
    }
}

proof fn lemma_mod_of_offset(q: int, r: int, n: nat)
    requires
        0 <= r < n,
    ensures
        (q * n + r) % (n as int) == r,
{
    lemma_fundamental_div_mod_converse_mod(q * n + r, n as int, q, r);
}

/// Before its first step a walk stands where it began and has handed out
/// nothing.
pub proof fn lemma_walk_begins<T>(ring: Seq<T>, cursor: Option<int>, stops: bool)
    requires
        in_ring(ring.len(), cursor),
    ensures
        cursor_after(ring.len(), cursor, stops, 0) == cursor,
        yields(ring, cursor, stops, 0) == Seq::<T>::empty(),
{
    match cursor {
        None => {},
        Some(p) => {
            lemma_mod_of_offset(0, p, ring.len());
            assert(yields(ring, cursor, stops, 0) =~= Seq::<T>::empty());
        },
    }
}

/// One more step of a walk hands out the cell under the cursor that the
/// steps before it led to, and moves on from there; a walk that has ended
/// hands out nothing more.
pub proof fn lemma_walk_extends<T>(ring: Seq<T>, cursor: Option<int>, stops: bool, k: nat)
    requires
        in_ring(ring.len(), cursor),
    ensures
        in_ring(ring.len(), cursor_after(ring.len(), cursor, stops, k)),
        cursor_after(ring.len(), cursor, stops, k + 1) == step(
            ring.len(),
            cursor_after(ring.len(), cursor, stops, k),
            stops,
        ),
        yields(ring, cursor, stops, k + 1) == match cursor_after(ring.len(), cursor, stops, k) {
            Some(q) => yields(ring, cursor, stops, k).push(ring[q]),
            None => yields(ring, cursor, stops, k),
        },
{
    let len = ring.len();
    match cursor {
        None => {},
        Some(p) => {
            if !stops {
                lemma_mod_successor(p + k, len);
                let q = (p + k) % (len as int);
                assert(yields(ring, cursor, stops, k + 1) =~= yields(ring, cursor, stops, k).push(
                    ring[q],
                ));
            } else if p + k < len {
                assert(yields(ring, cursor, stops, k + 1) =~= yields(ring, cursor, stops, k).push(
                    ring[p + k],
                ));
            }
        },
    }
}

/// A walk that has ended stays ended: more steps hand out nothing more.
pub proof fn lemma_walk_ended<T>(ring: Seq<T>, cursor: Option<int>, stops: bool, k: nat, more: nat)
    requires
        in_ring(ring.len(), cursor),
        cursor_after(ring.len(), cursor, stops, k) is None,
        k <= more,
    ensures
        cursor_after(ring.len(), cursor, stops, more) is None,
        yields(ring, cursor, stops, more) == yields(ring, cursor, stops, k),
{
}

/// A walk once around, from the head, hands out the ring's values in order,
/// each once, and has ended after as many steps as the ring has cells.
pub proof fn lemma_once_around<T>(ring: Seq<T>, k: nat)
    ensures
        k >= ring.len() ==> yields(ring, start(ring.len()), true, k) == ring,
        k <= ring.len() ==> yields(ring, start(ring.len()), true, k) == ring.take(k as int),
        cursor_after(ring.len(), start(ring.len()), true, k) is None <==> k >= ring.len(),
{
    if ring.len() > 0 {
        if k >= ring.len() {
            assert(ring.subrange(0, ring.len() as int) =~= ring);
        }
    } else {
        assert(ring =~= Seq::empty());
        assert(ring.take(0) =~= Seq::empty());
    }
}

/// The values of a ring written several times in a row: as many as the
/// ring has, times the number of copies, and at each place the value that
/// the ring has at that place modulo its length.
pub proof fn lemma_repeated<T>(ring: Seq<T>, times: nat)
    ensures
        repeated(ring, times).len() == times * ring.len(),
        forall|j: int|
            0 <= j < times * ring.len() ==> #[trigger] repeated(ring, times)[j] == ring[j % (
            ring.len() as int)],
    decreases times,
{
    let n = ring.len();
    if times > 0 {
        let before = (times - 1) as nat;
        lemma_repeated(ring, before);
        assert(times * n == before * n + n) by (nonlinear_arith)
            requires
                times == before + 1,
        ;
        assert forall|j: int| 0 <= j < times * n implies #[trigger] repeated(ring, times)[j]
            == ring[j % (n as int)] by {
            if j >= before * n {
                lemma_mod_of_offset(before as int, j - before * n, n);
            }
        }
    } else {
        assert(times * n == 0) by (nonlinear_arith)
            requires
                times == 0,
        ;
    }
}

/// A walk without end over a ring that is not empty, from the head, hands
/// out the ring's values again and again: `rounds * len + rest` steps give
/// the ring `rounds` times and then its first `rest` values, and the walk
/// then stands at place `rest`.
pub proof fn lemma_cycles<T>(ring: Seq<T>, rounds: nat, rest: nat)
    requires
        ring.len() > 0,
        rest < ring.len(),
    ensures
        yields(ring, start(ring.len()), false, rounds * ring.len() + rest) == repeated(
            ring,
            rounds,
        ) + ring.take(rest as int),
        cursor_after(ring.len(), start(ring.len()), false, rounds * ring.len() + rest) == Some(
            rest as int,
        ),
{
    let n = ring.len();
    let k = rounds * n + rest;
    lemma_repeated(ring, rounds);
    lemma_mod_of_offset(rounds as int, rest as int, n);
    let walked = yields(ring, start(n), false, k);
    let written = repeated(ring, rounds) + ring.take(rest as int);
    assert(walked.len() == written.len());
    assert forall|j: int| 0 <= j < walked.len() implies walked[j] == written[j] by {
        if j >= rounds * n {
            lemma_mod_of_offset(rounds as int, j - rounds * n, n);
        }
    }
    assert(walked =~= written);
}

/// The ring closes: a walk without end is back at the cell it left after as
/// many steps as the ring has cells, and not before; from the head it
/// reaches the tail in one step less.
pub proof fn lemma_ring_closes(len: nat, p: int, k: nat)
    requires
        0 <= p < len,
        0 < k <= len,
    ensures
        cursor_after(len, Some(p), false, k) == Some(p) <==> k == len,
        cursor_after(len, start(len), false, (len - 1) as nat) == Some(len - 1),
{
    lemma_mod_of_offset(0, len - 1, len);
    if p + k < len {
        lemma_mod_of_offset(0, p + k, len);
    } else {
        lemma_mod_of_offset(1, p + k - len, len);
    }
}

/// No walk over an empty ring hands out anything.
pub proof fn lemma_empty_ring<T>(ring: Seq<T>, stops: bool, k: nat)
    requires
        ring.len() == 0,
    ensures
        yields(ring, start(ring.len()), stops, k) == Seq::<T>::empty(),
        cursor_after(ring.len(), start(ring.len()), stops, k) is None,
{
}

/// The values of `ring` after each of `values` has been pushed onto it,
/// the first one first.
pub open spec fn pushed_onto<T>(ring: Seq<T>, values: Seq<T>) -> Seq<T>
    decreases values.len(),
{
    if values.len() == 0 {
        ring
    } else {
        pushed_onto(ring.push(values[0]), values.drop_first())
    }
}

/// Pushing values one after another appends them in the order of the
/// pushes.
pub proof fn lemma_pushes_append<T>(ring: Seq<T>, values: Seq<T>)
    ensures
        pushed_onto(ring, values) == ring + values,
        pushed_onto(ring, values).len() == ring.len() + values.len(),
    decreases values.len(),
{
    if values.len() == 0 {
        assert(ring + values =~= ring);
    } else {
        lemma_pushes_append(ring.push(values[0]), values.drop_first());
        assert(ring.push(values[0]) + values.drop_first() =~= ring + values);
    }
}

/// Onto an empty ring, `n` pushes give a ring of exactly those `n` values,
/// in the order of the pushes, whatever the type of the values; it is empty
/// only when nothing was pushed.
pub proof fn lemma_pushes_onto_empty<T>(values: Seq<T>)
    ensures
        pushed_onto(Seq::<T>::empty(), values) == values,
        pushed_onto(Seq::<T>::empty(), values).len() == values.len(),
        (pushed_onto(Seq::<T>::empty(), values).len() == 0) == (values.len() == 0),
{
    lemma_pushes_append(Seq::<T>::empty(), values);
    assert(Seq::<T>::empty() + values =~= values);
}

} // verus!
