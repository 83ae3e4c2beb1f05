//! One step of the merge resolver on a table of fruits: the fruits that
//! touched settle, the pairs that merge leave, and the fruits they become
//! join the table.

use vstd::prelude::*;
use crate::body::{at_most_one_unsettled, ids_ascending, Contact, FruitBody, Merge};
use crate::merge::{
    consumed, count_set, entry_sound, lemma_count_take, pair_up, resolves, settled, touched_flags,
};

verus! {

/// Whether some merge of the list created the fruit.
pub open spec fn created_by(merges: Seq<Merge>, fruit: FruitBody) -> bool {
    exists|k: int| 0 <= k < merges.len() && (#[trigger] merges[k]).created == fruit
}

/// What the table is after the merges: the fruits of the table before that
/// no merge used up, and the fruits that the merges created, by ascending
/// identity and each once. Every merge takes two fruits and gives one, so
/// the table is shorter by one fruit for each merge.
pub open spec fn table_after(
    before: Seq<FruitBody>,
    merges: Seq<Merge>,
    after: Seq<FruitBody>,
) -> bool {
    &&& ids_ascending(after)
    &&& after.len() + merges.len() == before.len()
    &&& forall|f: FruitBody| #[trigger]
        after.contains(f) <==> ((before.contains(f) && !consumed(merges, f.id)) || created_by(
            merges,
            f,
        ))
}

/// All identities of the table lie below `bound`.
pub open spec fn ids_below(fruits: Seq<FruitBody>, bound: int) -> bool {
    forall|k: int| 0 <= k < fruits.len() ==> (#[trigger] fruits[k]).id < bound
}

/// Whether the fruit is one of the first `upto` of the table and was not
/// used up.
spec fn kept_upto(table: Seq<FruitBody>, used: Seq<bool>, upto: int, f: FruitBody) -> bool {
    exists|x: int| 0 <= x < upto && x < table.len() && #[trigger] table[x] == f && !used[x]
}

/// Whether one of the first `upto` merges created the fruit.
spec fn created_upto(merges: Seq<Merge>, upto: int, f: FruitBody) -> bool {
    exists|y: int| 0 <= y < upto && y < merges.len() && (#[trigger] merges[y]).created == f
}

/// What a table holds after one more fruit has been added at its end.
pub proof fn lemma_push_contains(table: Seq<FruitBody>, added: FruitBody, f: FruitBody)
    ensures
        table.push(added).contains(f) <==> (table.contains(f) || f == added),
{
    let longer = table.push(added);
    if longer.contains(f) {
        let k = choose|k: int| 0 <= k < longer.len() && longer[k] == f;
        if k < table.len() {
            assert(table[k] == f);
        }
    }
    if table.contains(f) {
        let k = choose|k: int| 0 <= k < table.len() && table[k] == f;
        assert(longer[k] == f);
    }
    if f == added {
        assert(longer[table.len() as int] == f);
    }
}

/// The table with each fruit settled whose flag says that it touched
/// another body.
spec fn having_felt(fruits: Seq<FruitBody>, felt: Seq<bool>) -> Seq<FruitBody> {
    Seq::new(
        fruits.len(),
        |k: int| FruitBody { unsettled: fruits[k].unsettled && !felt[k], ..fruits[k] },
    )
}

/// The fruits of the table that were not used up, in their order, each
/// settled if it touched another body.
fn survivors(fruits: &Vec<FruitBody>, felt: &Vec<bool>, used: &Vec<bool>) -> (kept: Vec<FruitBody>)
    requires
        ids_ascending(fruits@),
        felt.len() == fruits.len(),
        used.len() == fruits.len(),
    ensures
        ids_ascending(kept@),
        forall|y: int|
            0 <= y < kept.len() ==> exists|x: int|
                0 <= x < fruits.len() && (#[trigger] kept[y]).id == fruits[x].id,
        forall|f: FruitBody| #[trigger]
            kept@.contains(f) <==> kept_upto(
                having_felt(fruits@, felt@),
                used@,
                fruits.len() as int,
                f,
            ),
        kept.len() + count_set(used@) == fruits.len(),
{
    let ghost table = having_felt(fruits@, felt@);
    let mut kept: Vec<FruitBody> = Vec::new();
    let mut i: usize = 0;
    while i < fruits.len()
        invariant
            ids_ascending(fruits@),
            felt.len() == fruits.len(),
            used.len() == fruits.len(),
            table == having_felt(fruits@, felt@),
            0 <= i <= fruits.len(),
            ids_ascending(kept@),
            forall|y: int|
                0 <= y < kept.len() ==> exists|x: int|
                    0 <= x < i && (#[trigger] kept[y]).id == fruits[x].id,
            forall|f: FruitBody| #[trigger] kept@.contains(f) <==> kept_upto(table, used@, i as int, f),
            kept.len() + count_set(used@.take(i as int)) == i,
        decreases fruits.len() - i,
    {
        let ghost before = kept@;
        let fruit: FruitBody = fruits[i];
        let stays: bool = !used[i];
        let now = FruitBody { unsettled: fruit.unsettled && !felt[i], ..fruit };
        if stays {
            kept.push(now);
        }
        proof {
            lemma_count_take(used@, i as int);
            assert(table[i as int] == now);
            assert forall|f: FruitBody| #[trigger]
                kept@.contains(f) <==> kept_upto(table, used@, i + 1, f) by {
                if stays {
                    lemma_push_contains(before, now, f);
                }
                if kept_upto(table, used@, i + 1, f) {
                    let x = choose|x: int|
                        0 <= x < i + 1 && x < table.len() && #[trigger] table[x] == f && !used[x];
                    if x < i {
                        assert(kept_upto(table, used@, i as int, f));
                    }
                }
                if kept_upto(table, used@, i as int, f) {
                    let x = choose|x: int|
                        0 <= x < i && x < table.len() && #[trigger] table[x] == f && !used[x];
                    assert(table[x] == f);
                }
                if stays && f == now {
                    assert(table[i as int] == f);
                }
            }
            assert forall|y: int| 0 <= y < kept.len() implies exists|x: int|
                0 <= x < i + 1 && (#[trigger] kept[y]).id == fruits[x].id by {
                if y < before.len() {
                    assert(kept[y] == before[y]);
                    let x = choose|x: int| 0 <= x < i && before[y].id == fruits[x].id;
                    assert(kept[y].id == fruits[x].id);
                } else {
                    assert(kept[y].id == fruits[i as int].id);
                }
            }
            assert forall|a: int, b: int| 0 <= a < b < kept.len() implies (#[trigger] kept[a]).id < (
            #[trigger] kept[b]).id by {
                if b < before.len() {
                    assert(kept[a] == before[a] && kept[b] == before[b]);
                } else {
                    assert(kept[a] == before[a]);
                    let x = choose|x: int| 0 <= x < i && before[a].id == fruits[x].id;
                    assert(fruits[x].id < fruits[i as int].id);
                }
            }
        }
        i += 1;
    }
    proof {
        assert(used@.take(i as int) =~= used@);
    }
    kept
}

/// Resolves the contacts of one simulation step on a table of fruits.
///
/// Every fruit that touched another body settles. Then the pairs of touching
/// fruits are gone through in the order of processing (see
/// [`crate::merge::claims`]): a pair of one tier that has a successor merges
/// if both its fruits are still there. The two fruits leave the table, and a
/// settled fruit of the next tier joins it, halfway between them. Returns the
/// table after the step and the merges in the order in which they were made.
pub fn resolve_contacts(fruits: &Vec<FruitBody>, batch: &Vec<Contact>, next_id: u64) -> (out: (
    Vec<FruitBody>,
    Vec<Merge>,
))
    requires
        ids_ascending(fruits@),
        ids_below(fruits@, next_id as int),
        next_id + fruits.len() <= u64::MAX,
    ensures
        resolves(fruits@, batch@, next_id as nat, out.1@),
        table_after(settled(fruits@, batch@), out.1@, out.0@),
        ids_below(out.0@, next_id + out.1.len()),
        out.0.len() + out.1.len() == fruits.len(),
{
    let felt: Vec<bool> = touched_flags(fruits, batch);
    let (merges, used) = pair_up(fruits, batch, next_id);
    let ghost table = settled(fruits@, batch@);
    proof {
        assert(having_felt(fruits@, felt@) =~= table);
    }
    let mut after: Vec<FruitBody> = survivors(fruits, &felt, &used);
    let ghost n = fruits.len() as int;
    proof {
        assert forall|y: int| 0 <= y < after.len() implies (#[trigger] after[y]).id < next_id by {
            let x = choose|x: int| 0 <= x < fruits.len() && after[y].id == fruits[x].id;
            assert(fruits[x].id < next_id);
        }
    }
    let mut k: usize = 0;
    while k < merges.len()
        invariant
            0 <= k <= merges.len(),
            2 * merges.len() <= fruits.len(),
            after.len() + 2 * merges.len() == fruits.len() + k,
            next_id + fruits.len() <= u64::MAX,
            n == fruits.len(),
            resolves(fruits@, batch@, next_id as nat, merges@),
            ids_ascending(after@),
            ids_below(after@, next_id + k),
            forall|f: FruitBody| #[trigger]
                after@.contains(f) <==> (kept_upto(table, used@, n, f) || created_upto(
                    merges@,
                    k as int,
                    f,
                )),
        decreases merges.len() - k,
    {
        let ghost before = after@;
        let fruit: FruitBody = merges[k].created;
        after.push(fruit);
        proof {
            assert(entry_sound(fruits@, batch@, next_id as nat, merges@, k as int));
            assert(merges[k as int].created.id == next_id + k);
            assert forall|f: FruitBody| #[trigger]
                after@.contains(f) <==> (kept_upto(table, used@, n, f) || created_upto(
                    merges@,
                    k + 1,
                    f,
                )) by {
                lemma_push_contains(before, fruit, f);
                if created_upto(merges@, k + 1, f) {
                    let y = choose|y: int|
                        0 <= y < k + 1 && y < merges.len() && (#[trigger] merges[y]).created == f;
                    if y < k {
                        assert(created_upto(merges@, k as int, f));
                    }
                }
                if created_upto(merges@, k as int, f) {
                    let y = choose|y: int|
                        0 <= y < k && y < merges.len() && (#[trigger] merges[y]).created == f;
                    assert(merges[y].created == f);
                }
                if f == fruit {
                    assert(merges[k as int].created == f);
                }
            }
            assert forall|a: int, b: int| 0 <= a < b < after.len() implies (#[trigger] after[a]).id
                < (#[trigger] after[b]).id by {
                if b < before.len() {
                    assert(after[a] == before[a] && after[b] == before[b]);
                } else {
                    assert(after[a] == before[a]);
                }
            }
            assert forall|y: int| 0 <= y < after.len() implies (#[trigger] after[y]).id < next_id
                + k + 1 by {
                if y < before.len() {
                    assert(after[y] == before[y]);
                }
            }
        }
        k += 1;
    }
    proof {
        assert forall|f: FruitBody| #[trigger]
            after@.contains(f) <==> ((table.contains(f) && !consumed(merges@, f.id)) || created_by(
                merges@,
                f,
            )) by {
            if kept_upto(table, used@, n, f) {
                let x = choose|x: int|
                    0 <= x < n && x < table.len() && #[trigger] table[x] == f && !used[x];
                assert(table[x] == f);
                assert(f.id == fruits[x].id);
            }
            if table.contains(f) && !consumed(merges@, f.id) {
                let x = choose|x: int| 0 <= x < table.len() && table[x] == f;
                assert(f.id == fruits[x].id);
                assert(!used[x]);
                assert(kept_upto(table, used@, n, f));
            }
            if created_upto(merges@, k as int, f) {
                let y = choose|y: int|
                    0 <= y < k && y < merges.len() && (#[trigger] merges[y]).created == f;
                assert(merges[y].created == f);
            }
            if created_by(merges@, f) {
                let y = choose|y: int| 0 <= y < merges.len() && (#[trigger] merges[y]).created == f;
                assert(created_upto(merges@, k as int, f));
            }
        }
    }
    (after, merges)
}

/// Merging sets no fruit falling: where at most one fruit was unsettled
/// before the step, at most one is after it.
pub proof fn lemma_step_keeps_one_unsettled(
    fruits: Seq<FruitBody>,
    batch: Seq<Contact>,
    next_id: nat,
    merges: Seq<Merge>,
    after: Seq<FruitBody>,
)
    requires
        at_most_one_unsettled(fruits),
        resolves(fruits, batch, next_id, merges),
        table_after(settled(fruits, batch), merges, after),
    ensures
        at_most_one_unsettled(after),
{
    let table = settled(fruits, batch);
    assert forall|i: int, j: int|
        0 <= i < after.len() && 0 <= j < after.len() && (#[trigger] after[i]).unsettled && (
        #[trigger] after[j]).unsettled implies i == j by {
        lemma_unsettled_fruit_was_unsettled(fruits, batch, next_id, merges, after, i);
        lemma_unsettled_fruit_was_unsettled(fruits, batch, next_id, merges, after, j);
        let x = choose|x: int| 0 <= x < fruits.len() && fruits[x].unsettled && table[x] == after[i];
        let y = choose|y: int| 0 <= y < fruits.len() && fruits[y].unsettled && table[y] == after[j];
        assert(fruits[x].unsettled && fruits[y].unsettled);
        assert(x == y);
        if i < j {
            assert(after[i].id < after[j].id);
        }
        if j < i {
            assert(after[j].id < after[i].id);
        }
    }
}

/// A fruit that is unsettled after the step was in the table before it, and
/// unsettled there.
proof fn lemma_unsettled_fruit_was_unsettled(
    fruits: Seq<FruitBody>,
    batch: Seq<Contact>,
    next_id: nat,
    merges: Seq<Merge>,
    after: Seq<FruitBody>,
    i: int,
)
    requires
        resolves(fruits, batch, next_id, merges),
        table_after(settled(fruits, batch), merges, after),
        0 <= i < after.len(),
        after[i].unsettled,
    ensures
        exists|x: int|
            0 <= x < fruits.len() && fruits[x].unsettled && settled(fruits, batch)[x] == after[i],
{
    let table = settled(fruits, batch);
    let f = after[i];
    assert(after.contains(f));
    if created_by(merges, f) {
        let c = choose|c: int| 0 <= c < merges.len() && (#[trigger] merges[c]).created == f;
        assert(entry_sound(fruits, batch, next_id, merges, c));
        assert(false);
    }
    let x = choose|x: int| 0 <= x < table.len() && table[x] == f;
    assert(fruits[x].unsettled && table[x] == after[i]);
}

} // verus!
