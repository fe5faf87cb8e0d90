//! Handing events to a handler that may stop the work.
//!
//! The parsers of this crate report what they find to a handler supplied by
//! the caller.  A handler returns `Ok` to go on and an error to stop; the
//! error is handed back to the caller of the parser.  To the verifier a
//! handler is a relation between what it is given and what it returns, and
//! the contracts of the parsers say which events the handler was given and
//! what it returned for them.

use vstd::prelude::*;

verus! {

/// `handler` took each of `events` and returned `Ok`.
pub open spec fn accepts<A, E, H>(handler: H, events: Seq<A>) -> bool where
    H: FnMut(A) -> Result<(), E>,
 {
    forall|i: int|
        0 <= i < events.len() ==> call_ensures(handler, (#[trigger] events[i],), Ok::<(), E>(()))
}

/// `handler` took `events` in order, returned `Ok` each time until it
/// returned the error `error` for one of them, and was handed nothing after
/// that.
pub open spec fn stops<A, E, H>(handler: H, events: Seq<A>, error: E) -> bool where
    H: FnMut(A) -> Result<(), E>,
 {
    exists|i: int|
        0 <= i < events.len() && accepts(handler, events.take(i)) && call_ensures(
            handler,
            (#[trigger] events[i],),
            Err::<(), E>(error),
        )
}

/// A handler that accepts two runs of events accepts the one after the
/// other.
pub proof fn lemma_accepts_concat<A, E, H>(handler: H, a: Seq<A>, b: Seq<A>) where
    H: FnMut(A) -> Result<(), E>,

    requires
        accepts(handler, a),
        accepts(handler, b),
    ensures
        accepts(handler, a + b),
{
    assert forall|i: int| 0 <= i < (a + b).len() implies call_ensures(
        handler,
        (#[trigger] (a + b)[i],),
        Ok::<(), E>(()),
    ) by {
        if i < a.len() {
            assert((a + b)[i] == a[i]);
        } else {
            assert((a + b)[i] == b[i - a.len()]);
        }
    }
}

/// A handler that accepts `a` and stops in `b` stops in `a` followed by
/// `b`.
pub proof fn lemma_stops_after<A, E, H>(handler: H, a: Seq<A>, b: Seq<A>, error: E) where
    H: FnMut(A) -> Result<(), E>,

    requires
        accepts(handler, a),
        stops(handler, b, error),
    ensures
        stops(handler, a + b, error),
{
    let i = choose|i: int|
        0 <= i < b.len() && accepts(handler, b.take(i)) && call_ensures(
            handler,
            (#[trigger] b[i],),
            Err::<(), E>(error),
        );
    let k = a.len() + i;
    assert((a + b)[k] == b[i]);
    assert((a + b).take(k) =~= a + b.take(i));
    lemma_accepts_concat(handler, a, b.take(i));
}

/// A handler that stops in `a` stops in `a` followed by anything.
pub proof fn lemma_stops_extend<A, E, H>(handler: H, a: Seq<A>, b: Seq<A>, error: E) where
    H: FnMut(A) -> Result<(), E>,

    requires
        stops(handler, a, error),
    ensures
        stops(handler, a + b, error),
{
    let i = choose|i: int|
        0 <= i < a.len() && accepts(handler, a.take(i)) && call_ensures(
            handler,
            (#[trigger] a[i],),
            Err::<(), E>(error),
        );
    assert((a + b)[i] == a[i]);
    assert((a + b).take(i) =~= a.take(i));
}

/// Hands `events` to `handler`, in order, up to the first for which it
/// returns an error.
pub fn hand_over<A, E, H>(events: &Vec<A>, handler: &mut H) -> (r: Result<(), E>) where
    A: Copy,
    H: FnMut(A) -> Result<(), E>,

    requires
        forall|a: A| call_requires(*old(handler), (a,)),
    ensures
        *final(handler) == *old(handler),
        match r {
            Ok(_) => accepts(*old(handler), events@),
            Err(e) => stops(*old(handler), events@, e),
        },
{
    let mut i: usize = 0;
    while i < events.len()
        invariant
            i <= events@.len(),
            *handler == *old(handler),
            forall|a: A| call_requires(*handler, (a,)),
            accepts(*old(handler), events@.take(i as int)),
        decreases events@.len() - i,
    {
        let event = events[i];
        let r = handler(event);
        match r {
            Ok(u) => {
                assert(u == ());
            },
            Err(e) => {
                return Err(e);
            },
        }
        proof {
            let next = events@.take(i + 1);
            assert forall|k: int| 0 <= k < next.len() implies call_ensures(
                *old(handler),
                (#[trigger] next[k],),
                Ok::<(), E>(()),
            ) by {
                if k < i {
                    assert(next[k] == events@.take(i as int)[k]);
                }
            }
        }
        i = i + 1;
    }
    assert(events@.take(i as int) =~= events@);
    Ok(())
}

} // verus!
