//! Maps as values: what a run of insertions and removals makes of a map. The hash map's
//! functions are stated over these operations on its view.

use vstd::prelude::*;

verus! {

/// One change of a map: an insertion, or the removal of a key.
pub enum MapOp<Id, V> {
    Insert(Id, V),
    Remove(Id),
}

/// The map after the changes were made to `m`, first to last.
pub open spec fn after_ops<Id, V>(m: Map<Id, V>, ops: Seq<MapOp<Id, V>>) -> Map<Id, V>
    decreases ops.len(),
{
    if ops.len() == 0 {
        m
    } else {
        match ops.last() {
            MapOp::Insert(id, value) => after_ops(m, ops.drop_last()).insert(id, value),
            MapOp::Remove(id) => after_ops(m, ops.drop_last()).remove(id),
        }
    }
}

/// What the last change that names `id` did: `Some(Some(v))` if it inserted `v`,
/// `Some(None)` if it removed the key, `None` if no change names `id`.
pub open spec fn last_write<Id, V>(ops: Seq<MapOp<Id, V>>, id: Id) -> Option<Option<V>>
    decreases ops.len(),
{
    if ops.len() == 0 {
        None
    } else {
        match ops.last() {
            MapOp::Insert(other, value) => if other == id {
                Some(Some(value))
            } else {
                last_write(ops.drop_last(), id)
            },
            MapOp::Remove(other) => if other == id {
                Some(None)
            } else {
                last_write(ops.drop_last(), id)
            },
        }
    }
}

/// After any run of insertions and removals, a key has the value that was inserted for
/// it last, unless it was removed since; a key that no change names is as it was.
pub proof fn lemma_lookup_is_last_write<Id, V>(m: Map<Id, V>, ops: Seq<MapOp<Id, V>>, id: Id)
    ensures
        last_write(ops, id) is None ==> after_ops(m, ops).contains_key(id) == m.contains_key(id)
            && (m.contains_key(id) ==> after_ops(m, ops)[id] == m[id]),
        last_write(ops, id) == Some(None::<V>) ==> !after_ops(m, ops).contains_key(id),
        last_write(ops, id) matches Some(Some(value)) ==> after_ops(m, ops).contains_key(id)
            && after_ops(m, ops)[id] == value,
    decreases ops.len(),
{
    if ops.len() > 0 {
        lemma_lookup_is_last_write(m, ops.drop_last(), id);
    }
}

/// The insertions of `keys[i]` with `values[i]`, in order.
pub open spec fn inserts_of<Id, V>(keys: Seq<Id>, values: Seq<V>) -> Seq<MapOp<Id, V>> {
    Seq::new(keys.len(), |i: int| MapOp::Insert(keys[i], values[i]))
}

/// The removals of `keys[i]`, in order.
pub open spec fn removes_of<Id, V>(keys: Seq<Id>) -> Seq<MapOp<Id, V>> {
    Seq::new(keys.len(), |i: int| MapOp::Remove(keys[i]))
}

/// Insertions of other keys do not name `id`.
proof fn lemma_last_write_of_inserts<Id, V>(keys: Seq<Id>, values: Seq<V>, id: Id)
    requires
        keys.len() == values.len(),
        !keys.contains(id),
    ensures
        last_write(inserts_of(keys, values), id) is None,
    decreases keys.len(),
{
    if keys.len() > 0 {
        assert(keys.last() == keys[keys.len() - 1]);
        assert forall|i: int| 0 <= i < keys.len() - 1 implies keys.drop_last()[i] != id by {
            assert(keys[i] != id);
        }
        lemma_last_write_of_inserts(keys.drop_last(), values.drop_last(), id);
        assert(inserts_of(keys, values).drop_last() =~= inserts_of(
            keys.drop_last(),
            values.drop_last(),
        ));
    }
}

/// After the removal of `keys`, the last change of a key among them is a removal; for
/// any other key it is what it was in `front`.
proof fn lemma_last_write_after_removes<Id, V>(front: Seq<MapOp<Id, V>>, keys: Seq<Id>, id: Id)
    ensures
        last_write(front + removes_of::<Id, V>(keys), id) == (if keys.contains(id) {
            Some(None::<V>)
        } else {
            last_write(front, id)
        }),
    decreases keys.len(),
{
    let all = front + removes_of::<Id, V>(keys);
    if keys.len() == 0 {
        assert(all =~= front);
    } else {
        lemma_last_write_after_removes::<Id, V>(front, keys.drop_last(), id);
        assert(all.drop_last() =~= front + removes_of::<Id, V>(keys.drop_last()));
        assert(all.last() == MapOp::<Id, V>::Remove(keys.last()));
        if keys.drop_last().contains(id) {
            let i = choose|i: int| 0 <= i < keys.drop_last().len() && keys.drop_last()[i] == id;
            assert(keys[i] == id);
        }
        if keys.contains(id) && keys.last() != id {
            let i = choose|i: int| 0 <= i < keys.len() && keys[i] == id;
            assert(keys.drop_last()[i] == id);
        }
    }
}

/// Inserting keys into an empty map and then removing every one of them leaves the map
/// empty.
pub proof fn lemma_round_trip<Id, V>(keys: Seq<Id>, values: Seq<V>)
    requires
        keys.len() == values.len(),
    ensures
        after_ops(Map::<Id, V>::empty(), inserts_of(keys, values) + removes_of::<Id, V>(keys))
            == Map::<Id, V>::empty(),
{
    let ops = inserts_of(keys, values) + removes_of::<Id, V>(keys);
    let end = after_ops(Map::<Id, V>::empty(), ops);
    assert forall|id: Id| !end.contains_key(id) by {
        lemma_last_write_after_removes::<Id, V>(inserts_of(keys, values), keys, id);
        if !keys.contains(id) {
            lemma_last_write_of_inserts(keys, values, id);
        }
        lemma_lookup_is_last_write(Map::<Id, V>::empty(), ops, id);
    }
    assert(end =~= Map::<Id, V>::empty());
}

} // verus!
