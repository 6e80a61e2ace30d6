//! Records of events: what it means that one record carries another on.

use vstd::prelude::*;

verus! {

/// The events that `after` holds beyond the first `before.len()`.
pub open spec fn events_since<E>(before: Seq<E>, after: Seq<E>) -> Seq<E> {
    after.skip(before.len() as int)
}

/// `after` is `before` with further events behind it: nothing that was
/// recorded is ever changed or dropped.
pub open spec fn extends<E>(before: Seq<E>, after: Seq<E>) -> bool {
    before.len() <= after.len() && after.take(before.len() as int) == before
}

/// Appending events extends a record by exactly those events.
pub proof fn lemma_extends_by<E>(before: Seq<E>, more: Seq<E>)
    ensures
        extends(before, before + more),
        events_since(before, before + more) == more,
{
    assert((before + more).take(before.len() as int) =~= before);
    assert((before + more).skip(before.len() as int) =~= more);
}

/// One more event extends a record by that event.
pub proof fn lemma_extends_push<E>(before: Seq<E>, after: Seq<E>, event: E)
    requires
        extends(before, after),
    ensures
        extends(before, after.push(event)),
        events_since(before, after.push(event)) == events_since(before, after).push(event),
{
    assert(after.push(event).take(before.len() as int) =~= after.take(before.len() as int));
    assert(events_since(before, after.push(event)) =~= events_since(before, after).push(event));
}

/// A record extends itself, by nothing.
pub proof fn lemma_extends_self<E>(record: Seq<E>)
    ensures
        extends(record, record),
        events_since(record, record) == Seq::<E>::empty(),
{
    assert(record.take(record.len() as int) =~= record);
    assert(events_since(record, record) =~= Seq::<E>::empty());
}

/// A record that extends another is that other one and the events since.
pub proof fn lemma_extends_split<E>(before: Seq<E>, after: Seq<E>)
    requires
        extends(before, after),
    ensures
        after == before + events_since(before, after),
{
    assert(after =~= after.take(before.len() as int) + after.skip(before.len() as int));
}

/// Extending twice extends once, by the two runs of events one after the
/// other.
pub proof fn lemma_extends_twice<E>(a: Seq<E>, b: Seq<E>, c: Seq<E>)
    requires
        extends(a, b),
        extends(b, c),
    ensures
        extends(a, c),
        events_since(a, c) == events_since(a, b) + events_since(b, c),
{
    lemma_extends_split(a, b);
    lemma_extends_split(b, c);
    let ab = events_since(a, b);
    let bc = events_since(b, c);
    assert(c =~= a + (ab + bc));
    lemma_extends_by(a, ab + bc);
}

} // verus!
