//! Reports: the events that a pass over a hash table produces.
//!
//! A hash table is walked in an order that nobody knows beforehand. What a pass reports is
//! therefore pinned down only up to that order: each key gives its own events, in one piece, and
//! each key is visited once.
use vstd::prelude::*;

verus! {

/// What a pass over the keys in `order` reports, where the key `k` gives `events_of(k)`.
pub open spec fn pass<E>(order: Seq<u64>, events_of: spec_fn(u64) -> Seq<E>) -> Seq<E>
    decreases order.len(),
{
    if order.len() == 0 {
        Seq::empty()
    } else {
        pass(order.drop_last(), events_of) + events_of(order.last())
    }
}

/// Whether `order` names each of `keys` once, and nothing else.
pub open spec fn visits(order: Seq<u64>, keys: Set<u64>) -> bool {
    &&& order.no_duplicates()
    &&& order.to_set() == keys
}

/// Whether `events` is what a pass over `keys` can report: for some order of the keys, the events
/// of each key one after the other.
pub open spec fn reports<E>(
    events: Seq<E>,
    keys: Set<u64>,
    events_of: spec_fn(u64) -> Seq<E>,
) -> bool {
    exists|order: Seq<u64>| visits(order, keys) && events == #[trigger] pass(order, events_of)
}

/// The keys of the first `n` steps of a walk over a hash table.
pub open spec fn keys_of<V>(walk: Seq<(&u64, &V)>, n: int) -> Seq<u64> {
    Seq::new(n as nat, |i: int| *walk[i].0)
}

/// One more step of a walk adds the events of one more key.
pub proof fn lemma_walk_step<V, E>(
    walk: Seq<(&u64, &V)>,
    n: int,
    events_of: spec_fn(u64) -> Seq<E>,
)
    requires
        0 <= n < walk.len(),
    ensures
        pass(keys_of(walk, n + 1), events_of) == pass(keys_of(walk, n), events_of) + events_of(
            *walk[n].0,
        ),
{
    assert(keys_of(walk, n + 1).drop_last() =~= keys_of(walk, n));
}

/// The keys of a whole walk over a hash table visit its domain.
pub proof fn lemma_walk_visits<V>(walk: Seq<(&u64, &V)>, table: Map<u64, V>)
    requires
        walk.no_duplicates(),
        forall|i: int|
            #![trigger walk[i]]
            0 <= i < walk.len() ==> table.contains_key(*walk[i].0) && table[*walk[i].0]
                == *walk[i].1,
        forall|k: u64| #[trigger] table.contains_key(k) ==> walk.contains((&k, &table[k])),
    ensures
        visits(keys_of(walk, walk.len() as int), table.dom()),
{
    let order = keys_of(walk, walk.len() as int);
    assert(order.no_duplicates()) by {
        assert forall|i: int, j: int|
            0 <= i < order.len() && 0 <= j < order.len() && i != j implies order[i] != order[j] by {
            if order[i] == order[j] {
                assert(walk[i] == walk[j]);
            }
        }
    }
    assert forall|k: u64| #[trigger] table.dom().contains(k) implies order.contains(k) by {
        assert(table.contains_key(k));
        let i = choose|i: int| 0 <= i < walk.len() && walk[i] == (&k, &table[k]);
        assert(order[i] == k);
    }
    assert forall|k: u64| #[trigger] order.contains(k) implies table.dom().contains(k) by {
        let i = choose|i: int| 0 <= i < order.len() && order[i] == k;
        assert(table.contains_key(*walk[i].0));
    }
    assert(order.to_set() =~= table.dom());
}

proof fn lemma_pass_silent<E>(order: Seq<u64>, events_of: spec_fn(u64) -> Seq<E>)
    requires
        forall|k: u64| #[trigger] order.contains(k) ==> events_of(k).len() == 0,
    ensures
        pass(order, events_of).len() == 0,
    decreases order.len(),
{
    if order.len() > 0 {
        let rest = order.drop_last();
        assert forall|k: u64| #[trigger] rest.contains(k) implies events_of(k).len() == 0 by {
            let i = choose|i: int| 0 <= i < rest.len() && rest[i] == k;
            assert(order[i] == k);
            assert(order.contains(k));
        }
        lemma_pass_silent(rest, events_of);
        assert(order.contains(order.last()));
    }
}

proof fn lemma_pass_only<E>(order: Seq<u64>, events_of: spec_fn(u64) -> Seq<E>, key: u64)
    requires
        order.no_duplicates(),
        order.contains(key),
        forall|k: u64| k != key && #[trigger] order.contains(k) ==> events_of(k).len() == 0,
    ensures
        pass(order, events_of) == events_of(key),
    decreases order.len(),
{
    let rest = order.drop_last();
    assert forall|k: u64| #[trigger] rest.contains(k) implies order.contains(k) && k
        != order.last() by {
        let i = choose|i: int| 0 <= i < rest.len() && rest[i] == k;
        assert(order[i] == k);
    }
    assert(order.contains(order.last()));
    if order.last() == key {
        lemma_pass_silent(rest, events_of);
    } else {
        let i = choose|i: int| 0 <= i < order.len() && order[i] == key;
        assert(rest[i] == key);
        lemma_pass_only(rest, events_of, key);
    }
    assert(pass(order, events_of) =~= events_of(key));
}

proof fn lemma_pass_member<E>(order: Seq<u64>, events_of: spec_fn(u64) -> Seq<E>, event: E)
    ensures
        pass(order, events_of).contains(event) <==> exists|k: u64| #[trigger]
            order.contains(k) && events_of(k).contains(event),
    decreases order.len(),
{
    if order.len() > 0 {
        let rest = order.drop_last();
        let head = pass(rest, events_of);
        let tail = events_of(order.last());
        lemma_pass_member(rest, events_of, event);
        assert(order.contains(order.last()));
        if pass(order, events_of).contains(event) {
            let i = choose|i: int| 0 <= i < (head + tail).len() && (head + tail)[i] == event;
            if i < head.len() {
                assert(head[i] == event);
                let k = choose|k: u64| #[trigger] rest.contains(k) && events_of(k).contains(event);
                let j = choose|j: int| 0 <= j < rest.len() && rest[j] == k;
                assert(order[j] == k);
                assert(order.contains(k));
            } else {
                assert(tail[i - head.len()] == event);
            }
        }
        if exists|k: u64| #[trigger] order.contains(k) && events_of(k).contains(event) {
            let k = choose|k: u64| #[trigger] order.contains(k) && events_of(k).contains(event);
            let j = choose|j: int| 0 <= j < order.len() && order[j] == k;
            if j < rest.len() {
                assert(rest[j] == k);
                assert(rest.contains(k));
                let i = choose|i: int| 0 <= i < head.len() && head[i] == event;
                assert((head + tail)[i] == event);
            } else {
                let i = choose|i: int| 0 <= i < tail.len() && tail[i] == event;
                assert((head + tail)[head.len() + i] == event);
            }
        }
    }
}

/// A pass over keys none of which has an event reports nothing.
pub proof fn law_silent<E>(events: Seq<E>, keys: Set<u64>, events_of: spec_fn(u64) -> Seq<E>)
    requires
        reports(events, keys, events_of),
        forall|k: u64| #[trigger] keys.contains(k) ==> events_of(k).len() == 0,
    ensures
        events.len() == 0,
{
    let order = choose|order: Seq<u64>|
        visits(order, keys) && events == #[trigger] pass(order, events_of);
    assert forall|k: u64| #[trigger] order.contains(k) implies events_of(k).len() == 0 by {
        assert(order.to_set().contains(k));
        assert(keys.contains(k));
    }
    lemma_pass_silent(order, events_of);
}

/// Where one key alone has events, a pass reports exactly these.
pub proof fn law_only<E>(
    events: Seq<E>,
    keys: Set<u64>,
    events_of: spec_fn(u64) -> Seq<E>,
    key: u64,
)
    requires
        reports(events, keys, events_of),
        keys.contains(key),
        forall|k: u64| k != key && #[trigger] keys.contains(k) ==> events_of(k).len() == 0,
    ensures
        events == events_of(key),
{
    let order = choose|order: Seq<u64>|
        visits(order, keys) && events == #[trigger] pass(order, events_of);
    assert(order.to_set().contains(key));
    assert forall|k: u64| k != key && #[trigger] order.contains(k) implies events_of(k).len()
        == 0 by {
        assert(order.to_set().contains(k));
        assert(keys.contains(k));
    }
    lemma_pass_only(order, events_of, key);
}

/// A pass reports an event just when one of the keys has it.
pub proof fn law_member<E>(
    events: Seq<E>,
    keys: Set<u64>,
    events_of: spec_fn(u64) -> Seq<E>,
    event: E,
)
    requires
        reports(events, keys, events_of),
    ensures
        events.contains(event) <==> exists|k: u64| #[trigger]
            keys.contains(k) && events_of(k).contains(event),
{
    let order = choose|order: Seq<u64>|
        visits(order, keys) && events == #[trigger] pass(order, events_of);
    lemma_pass_member(order, events_of, event);
    assert forall|k: u64| order.contains(k) <==> #[trigger] keys.contains(k) by {
        assert(order.to_set().contains(k) <==> keys.contains(k));
    }
    assert forall|k: u64| #[trigger] order.contains(k) <==> keys.contains(k) by {
        assert(order.to_set().contains(k) <==> keys.contains(k));
    }
}

/// Whether two lists have no event in common.
pub open spec fn apart<E>(a: Seq<E>, b: Seq<E>) -> bool {
    forall|i: int, j: int|
        0 <= i < a.len() && 0 <= j < b.len() ==> #[trigger] a[i] != #[trigger] b[j]
}

proof fn lemma_pass_distinct<E>(order: Seq<u64>, events_of: spec_fn(u64) -> Seq<E>)
    requires
        order.no_duplicates(),
        forall|k: u64| #[trigger] order.contains(k) ==> events_of(k).no_duplicates(),
        forall|k: u64, l: u64| #[trigger]
            order.contains(k) && #[trigger] order.contains(l) && k != l ==> apart(
                events_of(k),
                events_of(l),
            ),
    ensures
        pass(order, events_of).no_duplicates(),
    decreases order.len(),
{
    if order.len() > 0 {
        let rest = order.drop_last();
        let last = order.last();
        let head = pass(rest, events_of);
        let tail = events_of(last);
        assert(order.contains(last));
        assert forall|k: u64| #[trigger] rest.contains(k) implies order.contains(k) && k != last by {
            let i = choose|i: int| 0 <= i < rest.len() && rest[i] == k;
            assert(order[i] == k);
        }
        lemma_pass_distinct(rest, events_of);
        assert forall|i: int, j: int| 0 <= i < head.len() && 0 <= j < tail.len() implies head[i]
            != tail[j] by {
            lemma_pass_member(rest, events_of, head[i]);
            assert(head.contains(head[i]));
            let k = choose|k: u64| #[trigger] rest.contains(k) && events_of(k).contains(head[i]);
            let own = events_of(k);
            let m = choose|m: int| 0 <= m < own.len() && own[m] == head[i];
            assert(order.contains(k));
            assert(apart(own, tail));
        }
        assert((head + tail).no_duplicates()) by {
            assert forall|i: int, j: int|
                0 <= i < (head + tail).len() && 0 <= j < (head + tail).len() && i != j implies (head
                + tail)[i] != (head + tail)[j] by {
            }
        }
    }
}

/// Where no key has an event twice and no two keys have one in common, a pass reports no event
/// twice.
pub proof fn law_distinct<E>(events: Seq<E>, keys: Set<u64>, events_of: spec_fn(u64) -> Seq<E>)
    requires
        reports(events, keys, events_of),
        forall|k: u64| #[trigger] keys.contains(k) ==> events_of(k).no_duplicates(),
        forall|k: u64, l: u64| #[trigger]
            keys.contains(k) && #[trigger] keys.contains(l) && k != l ==> apart(
                events_of(k),
                events_of(l),
            ),
    ensures
        events.no_duplicates(),
{
    let order = choose|order: Seq<u64>|
        visits(order, keys) && events == #[trigger] pass(order, events_of);
    assert forall|k: u64| #[trigger] order.contains(k) implies keys.contains(k) by {
        assert(order.to_set().contains(k));
    }
    lemma_pass_distinct(order, events_of);
}

proof fn lemma_pass_count<E>(order: Seq<u64>, events_of: spec_fn(u64) -> Seq<E>, some: Set<u64>)
    requires
        order.no_duplicates(),
        forall|k: u64| #[trigger]
            order.contains(k) ==> events_of(k).len() == if some.contains(k) {
                1nat
            } else {
                0
            },
    ensures
        order.to_set().intersect(some).finite(),
        pass(order, events_of).len() == order.to_set().intersect(some).len(),
    decreases order.len(),
{
    let chosen = order.to_set().intersect(some);
    if order.len() == 0 {
        assert(chosen =~= Set::empty());
    } else {
        let rest = order.drop_last();
        let last = order.last();
        assert(order.contains(last));
        assert forall|k: u64| #[trigger] rest.contains(k) implies order.contains(k) && k != last by {
            let i = choose|i: int| 0 <= i < rest.len() && rest[i] == k;
            assert(order[i] == k);
        }
        lemma_pass_count(rest, events_of, some);
        let fewer = rest.to_set().intersect(some);
        assert(!rest.contains(last));
        rest.lemma_push_to_set_commute(last);
        assert(rest.push(last) =~= order);
        if some.contains(last) {
            assert(chosen =~= fewer.insert(last));
        } else {
            assert(chosen =~= fewer);
        }
    }
}

/// Where some of the keys have one event each and the others none, a pass reports as many events
/// as there are such keys.
pub proof fn law_count<E>(
    events: Seq<E>,
    keys: Set<u64>,
    events_of: spec_fn(u64) -> Seq<E>,
    some: Set<u64>,
)
    requires
        reports(events, keys, events_of),
        some <= keys,
        forall|k: u64| #[trigger]
            keys.contains(k) ==> events_of(k).len() == if some.contains(k) {
                1nat
            } else {
                0
            },
    ensures
        some.finite(),
        events.len() == some.len(),
{
    let order = choose|order: Seq<u64>|
        visits(order, keys) && events == #[trigger] pass(order, events_of);
    assert forall|k: u64| #[trigger] order.contains(k) implies keys.contains(k) by {
        assert(order.to_set().contains(k));
    }
    lemma_pass_count(order, events_of, some);
    assert(order.to_set().intersect(some) =~= some);
}

/// The events of each key stand together, in their order.
pub proof fn law_piece<E>(
    events: Seq<E>,
    keys: Set<u64>,
    events_of: spec_fn(u64) -> Seq<E>,
    key: u64,
) -> (at: int)
    requires
        reports(events, keys, events_of),
        keys.contains(key),
    ensures
        0 <= at <= at + events_of(key).len() <= events.len(),
        events.subrange(at, at + events_of(key).len()) == events_of(key),
{
    let order = choose|order: Seq<u64>|
        visits(order, keys) && events == #[trigger] pass(order, events_of);
    assert(order.to_set().contains(key));
    lemma_pass_piece(order, events_of, key)
}

proof fn lemma_pass_piece<E>(order: Seq<u64>, events_of: spec_fn(u64) -> Seq<E>, key: u64) -> (at:
    int)
    requires
        order.contains(key),
    ensures
        0 <= at <= at + events_of(key).len() <= pass(order, events_of).len(),
        pass(order, events_of).subrange(at, at + events_of(key).len()) == events_of(key),
    decreases order.len(),
{
    let rest = order.drop_last();
    let head = pass(rest, events_of);
    let whole = pass(order, events_of);
    if order.last() == key {
        assert(whole.subrange(head.len() as int, head.len() as int + events_of(key).len())
            =~= events_of(key));
        head.len() as int
    } else {
        let i = choose|i: int| 0 <= i < order.len() && order[i] == key;
        assert(rest[i] == key);
        let at = lemma_pass_piece(rest, events_of, key);
        assert(whole.subrange(at, at + events_of(key).len()) =~= head.subrange(
            at,
            at + events_of(key).len(),
        ));
        at
    }
}

} // verus!
