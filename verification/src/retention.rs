//! How long the stores keep what they hold.

use std::collections::HashMap;
use vstd::prelude::*;

verus! {

broadcast use vstd::std_specs::hash::group_hash_axioms;

/// How many nanoseconds a second has.
pub const NANOS_PER_SEC: i128 = 1_000_000_000;

/// What was made at `created` is still fresh at `now`: it is no older than
/// `retention`, and `now` is not before `created`. Points in time are given in
/// nanoseconds from one common point.
pub open spec fn is_fresh(created: i128, now: i128, retention: i128) -> bool {
    created <= now && now - created <= retention
}

/// Whether what was made at `created` is still fresh at `now`.
pub fn fresh(created: i128, now: i128, retention: i128) -> (out: bool)
    ensures
        out == is_fresh(created, now, retention),
{
    if now < created {
        return false;
    }
    match now.checked_sub(created) {
        Some(age) => age <= retention,
        None => false,
    }
}

/// Something that a store holds on to for some time.
pub trait Aging {
    /// A sweep at `now` leaves it where it is.
    spec fn is_kept(&self, now: i128, retention: i128) -> bool;

    /// Whether a sweep at `now` leaves it where it is.
    fn kept(&self, now: i128, retention: i128) -> (out: bool)
        ensures
            out == self.is_kept(now, retention),
    ;
}

/// The entries that a sweep leaves, each as it was.
pub open spec fn kept_entries<V: Aging>(m: Map<u128, V>, now: i128, retention: i128) -> Map<
    u128,
    V,
> {
    Map::new(|id: u128| m.contains_key(id) && m[id].is_kept(now, retention), |id: u128| m[id])
}

/// The ids under which a map holds something, each once.
pub(crate) fn ids_in<V>(m: &HashMap<u128, V>) -> (out: Vec<u128>)
    ensures
        out@.no_duplicates(),
        forall|id: u128| #[trigger] out@.contains(id) <==> m@.contains_key(id),
{
    let mut out: Vec<u128> = Vec::new();
    let keys = m.keys();
    let ghost ids = vstd::std_specs::iter::IteratorSpec::remaining(&keys).unref();
    assert(ids.to_set() == m@.dom());
    assert(ids.no_duplicates());
    for id in it: keys
        invariant
            it.seq().unref() == ids,
            out@ == ids.take(it.index() as int),
    {
        out.push(*id);
        assert(ids.take(it.index() as int).push(*id) =~= ids.take(it.index() as int + 1));
    }
    assert(out@ =~= ids);
    assert forall|id: u128| #[trigger] out@.contains(id) <==> m@.contains_key(id) by {
        assert(ids.to_set().contains(id) == ids.contains(id));
    }
    out
}

/// Drops the entries that have been kept long enough.
pub(crate) fn sweep_entries<V: Aging>(m: &mut HashMap<u128, V>, now: i128, retention: i128)
    ensures
        final(m)@ == kept_entries(old(m)@, now, retention),
{
    let ids = ids_in(m);
    let ghost whole = m@;
    let mut i: usize = 0;
    while i < ids.len()
        invariant
            i <= ids@.len(),
            ids@.no_duplicates(),
            forall|id: u128| #[trigger] ids@.contains(id) <==> whole.contains_key(id),
            forall|id: u128| #[trigger]
                m@.contains_key(id) <==> whole.contains_key(id) && (whole[id].is_kept(
                    now,
                    retention,
                ) || !ids@.take(i as int).contains(id)),
            forall|id: u128| #[trigger] m@.contains_key(id) ==> m@[id] == whole[id],
        decreases ids@.len() - i,
    {
        let id: u128 = ids[i];
        let ghost before = m@;
        let ghost done = ids@.take(i as int);
        let ghost next = ids@.take(i as int + 1);
        proof {
            assert(ids@.contains(id));
            assert forall|x: u128| #[trigger] next.contains(x) <==> done.contains(x) || x == id by {
                assert(next =~= done.push(id));
                if x == id {
                    assert(next[i as int] == x);
                }
                if done.contains(x) {
                    let k = choose|k: int| 0 <= k < done.len() && done[k] == x;
                    assert(next[k] == x);
                }
            }
            if done.contains(id) {
                let k = choose|k: int| 0 <= k < done.len() && done[k] == id;
                assert(ids@[k] == ids@[i as int]);
            }
            assert(m@.contains_key(id));
        }
        let kept = match m.get(&id) {
            Some(entry) => entry.kept(now, retention),
            None => true,
        };
        if !kept {
            m.remove(&id);
        }
        assert forall|x: u128| #[trigger]
            m@.contains_key(x) <==> whole.contains_key(x) && (whole[x].is_kept(now, retention)
                || !next.contains(x)) by {
            assert(next.contains(x) <==> done.contains(x) || x == id);
            assert(before.contains_key(x) <==> whole.contains_key(x) && (whole[x].is_kept(
                now,
                retention,
            ) || !done.contains(x)));
        }
        i += 1;
    }
    assert(ids@.take(i as int) =~= ids@);
    assert(m@ =~= kept_entries(whole, now, retention)) by {
        assert forall|id: u128| m@.contains_key(id) == kept_entries(
            whole,
            now,
            retention,
        ).contains_key(id) by {
            assert(ids@.contains(id) <==> whole.contains_key(id));
        }
    }
}

/// Something is fresh from the moment that it was made until its age is more
/// than the retention window.
pub proof fn law_fresh_for_the_retention(created: i128, now: i128, retention: i128, yes: bool)
    requires
        call_ensures(fresh, (created, now, retention), yes),
    ensures
        yes <==> 0 <= now - created <= retention,
{
}

} // verus!
