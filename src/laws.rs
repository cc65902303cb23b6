//! Laws of the store, stated over its view.
//!
//! `KeyValueStore::set` turns the view `m` into `m.insert(k, v)`, and
//! `KeyValueStore::delete` turns it into `m.remove(k)`; `get` reads `m[k]`
//! where `m.contains_key(k)`, and `len` is `m.len()`. A run of the store from
//! `KeyValueStore::new` is thus a sequence of commands replayed from the
//! empty map.
use vstd::prelude::*;

verus! {

/// A mutating call on the store, with keys and values as text.
pub enum Command {
    Upsert(Seq<char>, Seq<char>),
    Remove(Seq<char>),
}

/// The key that a command acts on.
pub open spec fn command_key(c: Command) -> Seq<char> {
    match c {
        Command::Upsert(k, _) => k,
        Command::Remove(k) => k,
    }
}

/// The view of the store after one command.
pub open spec fn apply(m: Map<Seq<char>, Seq<char>>, c: Command) -> Map<Seq<char>, Seq<char>> {
    match c {
        Command::Upsert(k, v) => m.insert(k, v),
        Command::Remove(k) => m.remove(k),
    }
}

/// The view of a new store after the commands `cs`, in order.
pub open spec fn replay(cs: Seq<Command>) -> Map<Seq<char>, Seq<char>>
    decreases cs.len(),
{
    if cs.len() == 0 {
        Map::empty()
    } else {
        apply(replay(cs.drop_last()), cs.last())
    }
}

/// Whether the last command on `k` in `cs` is an upsert.
pub open spec fn live(cs: Seq<Command>, k: Seq<char>) -> bool
    decreases cs.len(),
{
    if cs.len() == 0 {
        false
    } else if command_key(cs.last()) == k {
        cs.last() is Upsert
    } else {
        live(cs.drop_last(), k)
    }
}

/// Whether some command in `cs` upserts `k`.
pub open spec fn ever_upserted(cs: Seq<Command>, k: Seq<char>) -> bool {
    exists|i: int| 0 <= i < cs.len() && #[trigger] cs[i] is Upsert && command_key(cs[i]) == k
}

/// A key that no command ever upserted is absent.
pub proof fn lemma_never_inserted_is_absent(cs: Seq<Command>, k: Seq<char>)
    requires
        !ever_upserted(cs, k),
    ensures
        !replay(cs).contains_key(k),
    decreases cs.len(),
{
    if cs.len() > 0 {
        let t = cs.drop_last();
        assert(!ever_upserted(t, k)) by {
            if ever_upserted(t, k) {
                let i = choose|i: int| 0 <= i < t.len() && #[trigger] t[i] is Upsert && command_key(t[i]) == k;
                assert(cs[i] == t[i]);
            }
        }
        lemma_never_inserted_is_absent(t, k);
        assert(cs[cs.len() - 1] == cs.last());
    }
}

/// After an upsert of `v` under `k`, a lookup of `k` yields `v`.
pub proof fn lemma_lookup_after_upsert(m: Map<Seq<char>, Seq<char>>, k: Seq<char>, v: Seq<char>)
    ensures
        m.insert(k, v).contains_key(k),
        m.insert(k, v)[k] == v,
{
}

/// Upserting the same pair twice in a row leaves the store as one upsert did.
pub proof fn lemma_upsert_twice(m: Map<Seq<char>, Seq<char>>, k: Seq<char>, v: Seq<char>)
    ensures
        m.insert(k, v).insert(k, v) == m.insert(k, v),
        m.insert(k, v).insert(k, v).len() == m.insert(k, v).len(),
{
    assert(m.insert(k, v).insert(k, v) =~= m.insert(k, v));
}

/// Upserting a new value under a present key replaces the value and keeps
/// the size.
pub proof fn lemma_overwrite(
    m: Map<Seq<char>, Seq<char>>,
    k: Seq<char>,
    v1: Seq<char>,
    v2: Seq<char>,
)
    requires
        v1 != v2,
    ensures
        m.insert(k, v1).insert(k, v2)[k] == v2,
        m.insert(k, v1).insert(k, v2).len() == m.insert(k, v1).len(),
{
    assert(m.insert(k, v1).insert(k, v2).dom() =~= m.insert(k, v1).dom());
}

/// Removing a key just upserted hands back its value and leaves it absent.
pub proof fn lemma_remove_after_upsert(m: Map<Seq<char>, Seq<char>>, k: Seq<char>, v: Seq<char>)
    ensures
        m.insert(k, v).contains_key(k),
        m.insert(k, v)[k] == v,
        !m.insert(k, v).remove(k).contains_key(k),
{
}

/// Removing a key that is not live finds nothing and changes nothing.
pub proof fn lemma_remove_absent(cs: Seq<Command>, k: Seq<char>)
    requires
        !live(cs, k),
    ensures
        !replay(cs).contains_key(k),
        replay(cs.push(Command::Remove(k))) == replay(cs),
        replay(cs.push(Command::Remove(k))).len() == replay(cs).len(),
{
    lemma_live_keys(cs);
    assert(cs.push(Command::Remove(k)).drop_last() == cs);
    assert(replay(cs).remove(k) =~= replay(cs));
}

proof fn lemma_live_keys(cs: Seq<Command>)
    ensures
        replay(cs).dom().finite(),
        forall|k: Seq<char>| #[trigger] replay(cs).contains_key(k) <==> live(cs, k),
    decreases cs.len(),
{
    if cs.len() > 0 {
        lemma_live_keys(cs.drop_last());
    }
}

/// The size of the store is the number of keys whose last command was an
/// upsert.
pub proof fn lemma_size_counts_live_keys(cs: Seq<Command>)
    ensures
        replay(cs).dom() == Set::new(|k: Seq<char>| live(cs, k)),
        replay(cs).len() == Set::new(|k: Seq<char>| live(cs, k)).len(),
{
    lemma_live_keys(cs);
    assert(replay(cs).dom() =~= Set::new(|k: Seq<char>| live(cs, k)));
}

} // verus!
