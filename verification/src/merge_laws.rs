//! What follows from the resolver's contract: the laws of merging, each
//! proved from what [`resolves`] and [`table_after`] state.

use vstd::prelude::*;
use crate::body::{
    fruit_of, ids_ascending, lemma_live_slot, lemma_slot_of, live, slot, Contact, FruitBody, Merge,
};
use crate::merge::{
    claims, consumed, covered, entry_sound, in_contact, joins, mergeable, resolves, settled,
    touched, uses,
};
use crate::resolve::{created_by, ids_below, table_after};
use crate::tier::Fruit;

verus! {

/// A merge takes two fruits of one tier and gives one fruit of the next
/// tier, settled, halfway between the two: at the midpoint where that is a
/// whole position, else half a unit below it. The fruit gets the next free
/// identity.
pub proof fn lemma_merge_gives_successor_at_midpoint(
    fruits: Seq<FruitBody>,
    batch: Seq<Contact>,
    next_id: nat,
    merges: Seq<Merge>,
    k: int,
)
    requires
        resolves(fruits, batch, next_id, merges),
        next_id + merges.len() <= u64::MAX,
        0 <= k < merges.len(),
    ensures
        ({
            let a = fruit_of(fruits, merges[k].first);
            let b = fruit_of(fruits, merges[k].second);
            let made = merges[k].created;
            &&& made.id == next_id + k
            &&& a.id == merges[k].first
            &&& b.id == merges[k].second
            &&& a.id < b.id
            &&& a.tier == b.tier
            &&& a.tier.has_successor()
            &&& made.tier == a.tier.successor()
            &&& made.tier.ordinal() == a.tier.ordinal() + 1
            &&& 2 * made.x <= a.x + b.x <= 2 * made.x + 1
            &&& 2 * made.y <= a.y + b.y <= 2 * made.y + 1
            &&& !made.unsettled
        }),
{
    assert(entry_sound(fruits, batch, next_id, merges, k));
    lemma_live_slot(fruits, merges[k].first);
    lemma_live_slot(fruits, merges[k].second);
}

/// After the step the two fruits of a merge are gone from the table, and
/// the fruit that the merge created is in it.
pub proof fn lemma_merge_replaces_its_pair(
    fruits: Seq<FruitBody>,
    batch: Seq<Contact>,
    next_id: nat,
    merges: Seq<Merge>,
    after: Seq<FruitBody>,
    k: int,
)
    requires
        ids_below(fruits, next_id as int),
        next_id + merges.len() <= u64::MAX,
        resolves(fruits, batch, next_id, merges),
        table_after(settled(fruits, batch), merges, after),
        0 <= k < merges.len(),
    ensures
        after.contains(merges[k].created),
        !live(after, merges[k].first),
        !live(after, merges[k].second),
        after.len() + merges.len() == fruits.len(),
{
    let merge = merges[k];
    assert(created_by(merges, merge.created));
    assert(entry_sound(fruits, batch, next_id, merges, k));
    lemma_live_slot(fruits, merge.first);
    lemma_live_slot(fruits, merge.second);
    assert(uses(merge, merge.first) && uses(merge, merge.second));
    assert forall|id: u64| uses(merge, id) implies !live(after, id) by {
        if live(after, id) {
            let n = choose|n: int| 0 <= n < after.len() && (#[trigger] after[n]).id == id;
            let f = after[n];
            assert(after.contains(f));
            assert(consumed(merges, id));
            assert(created_by(merges, f));
            let c = choose|c: int| 0 <= c < merges.len() && (#[trigger] merges[c]).created == f;
            assert(entry_sound(fruits, batch, next_id, merges, c));
            assert(f.id == next_id + c);
            assert(false);
        }
    }
}

/// A fruit that no merge used up is in the table after the step, where it
/// was and of the tier it had, settled if it was settled before or touched
/// another body in this step.
pub proof fn lemma_unmerged_fruit_stays(
    fruits: Seq<FruitBody>,
    batch: Seq<Contact>,
    merges: Seq<Merge>,
    after: Seq<FruitBody>,
    id: u64,
)
    requires
        ids_ascending(fruits),
        table_after(settled(fruits, batch), merges, after),
        live(fruits, id),
        !consumed(merges, id),
    ensures
        live(after, id),
        fruit_of(after, id) == (FruitBody {
            unsettled: fruit_of(fruits, id).unsettled && !touched(fruits, batch, id),
            ..fruit_of(fruits, id)
        }),
{
    lemma_live_slot(fruits, id);
    let table = settled(fruits, batch);
    let s = slot(fruits, id);
    let f = table[s];
    assert(table.contains(f));
    assert(after.contains(f));
    let n = choose|n: int| 0 <= n < after.len() && after[n] == f;
    lemma_slot_of(after, n);
}

/// The largest tier never merges: a fruit of that tier is used up by no
/// merge, so two such fruits that touch are both in the table after the
/// step.
pub proof fn lemma_largest_tier_never_merges(
    fruits: Seq<FruitBody>,
    batch: Seq<Contact>,
    next_id: nat,
    merges: Seq<Merge>,
    id: u64,
)
    requires
        ids_ascending(fruits),
        resolves(fruits, batch, next_id, merges),
        live(fruits, id),
        fruit_of(fruits, id).tier == Fruit::Watermelon,
    ensures
        !consumed(merges, id),
{
    if consumed(merges, id) {
        let k = choose|k: int| 0 <= k < merges.len() && uses(#[trigger] merges[k], id);
        assert(entry_sound(fruits, batch, next_id, merges, k));
        lemma_live_slot(fruits, merges[k].first);
        lemma_live_slot(fruits, merges[k].second);
        lemma_live_slot(fruits, id);
    }
}

/// No fruit is used up by two merges of one step.
pub proof fn lemma_one_merge_per_fruit(
    fruits: Seq<FruitBody>,
    batch: Seq<Contact>,
    next_id: nat,
    merges: Seq<Merge>,
    k: int,
    l: int,
    id: u64,
)
    requires
        resolves(fruits, batch, next_id, merges),
        0 <= k < merges.len(),
        0 <= l < merges.len(),
        uses(merges[k], id),
        uses(merges[l], id),
    ensures
        k == l,
{
    if k < l {
        assert(!uses(merges[l], merges[k].first));
        assert(!uses(merges[l], merges[k].second));
    }
    if l < k {
        assert(!uses(merges[k], merges[l].first));
        assert(!uses(merges[k], merges[l].second));
    }
}

/// Where the batch holds one contact, and it is between two fruits that may
/// merge, exactly that merge is made.
pub proof fn lemma_lone_pair_merges(
    fruits: Seq<FruitBody>,
    batch: Seq<Contact>,
    next_id: nat,
    merges: Seq<Merge>,
    lo: u64,
    hi: u64,
)
    requires
        resolves(fruits, batch, next_id, merges),
        batch.len() == 1,
        mergeable(fruits, batch, lo, hi),
    ensures
        merges.len() == 1,
        merges[0].first == lo,
        merges[0].second == hi,
{
    assert forall|k: int| 0 <= k < merges.len() implies (#[trigger] merges[k]).first == lo
        && merges[k].second == hi by {
        assert(entry_sound(fruits, batch, next_id, merges, k));
        let n = choose|n: int|
            0 <= n < batch.len() && joins(#[trigger] batch[n], merges[k].first, merges[k].second);
        let m = choose|m: int| 0 <= m < batch.len() && joins(#[trigger] batch[m], lo, hi);
        assert(n == 0 && m == 0);
    }
    assert(covered(merges, lo, hi));
    if merges.len() > 1 {
        assert(merges[0].first < merges[1].first);
    }
}

/// Three fruits of one tier that all touch one another, alone in the pit,
/// make one merge: the two with the smaller identities merge, and the third
/// is left as it was.
pub proof fn lemma_three_way_contact_makes_one_merge(
    fruits: Seq<FruitBody>,
    batch: Seq<Contact>,
    next_id: nat,
    merges: Seq<Merge>,
)
    requires
        ids_ascending(fruits),
        resolves(fruits, batch, next_id, merges),
        fruits.len() == 3,
        fruits[0].tier == fruits[1].tier,
        fruits[1].tier == fruits[2].tier,
        fruits[0].tier.has_successor(),
        in_contact(batch, fruits[0].id, fruits[1].id),
        in_contact(batch, fruits[0].id, fruits[2].id),
        in_contact(batch, fruits[1].id, fruits[2].id),
    ensures
        merges.len() == 1,
        merges[0].first == fruits[0].id,
        merges[0].second == fruits[1].id,
        !consumed(merges, fruits[2].id),
{
    lemma_slot_of(fruits, 0);
    lemma_slot_of(fruits, 1);
    lemma_slot_of(fruits, 2);
    let (a, b, c) = (fruits[0].id, fruits[1].id, fruits[2].id);
    assert(a < b && b < c);
    assert(mergeable(fruits, batch, a, b));
    assert(covered(merges, a, b));
    let k = choose|k: int| 0 <= k < merges.len() && claims(#[trigger] merges[k], a, b);
    assert forall|n: int| 0 <= n < merges.len() implies {
        let m = #[trigger] merges[n];
        (m.first == a || m.first == b || m.first == c) && (m.second == a || m.second == b
            || m.second == c) && m.first < m.second
    } by {
        let m = merges[n];
        assert(entry_sound(fruits, batch, next_id, merges, n));
        lemma_live_slot(fruits, m.first);
        lemma_live_slot(fruits, m.second);
    }
    assert(merges[k].first == a && merges[k].second == b);
    assert forall|n: int| 0 <= n < merges.len() implies #[trigger] merges[n] == merges[k] && n
        == k by {
        let m = merges[n];
        if n < k {
            assert(!uses(merges[k], m.first));
            assert(!uses(merges[k], m.second));
        }
        if k < n {
            assert(!uses(m, merges[k].first));
            assert(!uses(m, merges[k].second));
        }
    }
    assert(merges[0] == merges[k]);
    if merges.len() > 1 {
        assert(merges[1] == merges[k]);
    }
    if consumed(merges, c) {
        let n = choose|n: int| 0 <= n < merges.len() && uses(#[trigger] merges[n], c);
        assert(merges[n] == merges[k]);
    }
}

/// The list of merges is fixed by the table and the batch: two lists that
/// both meet [`resolves`] are the same list.
pub proof fn lemma_merges_are_determined(
    fruits: Seq<FruitBody>,
    batch: Seq<Contact>,
    next_id: nat,
    one: Seq<Merge>,
    two: Seq<Merge>,
)
    requires
        resolves(fruits, batch, next_id, one),
        resolves(fruits, batch, next_id, two),
    ensures
        one == two,
{
    lemma_same_prefix(fruits, batch, next_id, one, two, one.len() as int);
    lemma_same_prefix(fruits, batch, next_id, two, one, two.len() as int);
    assert(one =~= two);
}

/// Two lists that both meet [`resolves`] agree on their first `n` merges,
/// and the second is at least as long as `n` where the first is.
proof fn lemma_same_prefix(
    fruits: Seq<FruitBody>,
    batch: Seq<Contact>,
    next_id: nat,
    one: Seq<Merge>,
    two: Seq<Merge>,
    n: int,
)
    requires
        resolves(fruits, batch, next_id, one),
        resolves(fruits, batch, next_id, two),
        0 <= n <= one.len(),
    ensures
        n <= two.len(),
        forall|k: int| 0 <= k < n ==> #[trigger] one[k] == #[trigger] two[k],
    decreases n,
{
    if n > 0 {
        lemma_same_prefix(fruits, batch, next_id, one, two, n - 1);
        let m = one[n - 1];
        assert(entry_sound(fruits, batch, next_id, one, n - 1));
        assert(covered(two, m.first, m.second));
        let j = choose|j: int| 0 <= j < two.len() && claims(#[trigger] two[j], m.first, m.second);
        let t = two[j];
        if j < n - 1 {
            assert(two[j] == one[j]);
            assert(!uses(m, one[j].first));
            assert(!uses(m, one[j].second));
            assert(false);
        }
        assert(j >= n - 1);
        assert(n <= two.len());
        let u = two[n - 1];
        assert(entry_sound(fruits, batch, next_id, two, n - 1));
        assert(covered(one, u.first, u.second));
        let i = choose|i: int| 0 <= i < one.len() && claims(#[trigger] one[i], u.first, u.second);
        if i < n - 1 {
            assert(one[i] == two[i]);
            assert(!uses(u, two[i].first));
            assert(!uses(u, two[i].second));
            assert(false);
        }
        if j > n - 1 {
            assert(u.first < t.first);
        }
        if i > n - 1 {
            assert(m.first < one[i].first);
        }
        assert(m.first == u.first && m.second == u.second);
        assert(m.created == u.created);
        assert(m == u);
    }
}

/// Two tables with ascending identities that hold the same fruits are the
/// same table.
pub proof fn lemma_ascending_tables_agree(one: Seq<FruitBody>, two: Seq<FruitBody>)
    requires
        ids_ascending(one),
        ids_ascending(two),
        one.len() == two.len(),
        forall|f: FruitBody| one.contains(f) <==> two.contains(f),
    ensures
        one == two,
    decreases one.len(),
{
    if one.len() > 0 {
        let n = one.len() - 1;
        let a = one[n];
        let b = two[n];
        assert(one.contains(a));
        assert(two.contains(b));
        let j = choose|j: int| 0 <= j < two.len() && two[j] == a;
        let i = choose|i: int| 0 <= i < one.len() && one[i] == b;
        if j < n {
            assert(two[j].id < two[n].id);
            if i < n {
                assert(one[i].id < one[n].id);
            }
        }
        assert(a == b);
        let first = one.drop_last();
        let second = two.drop_last();
        assert forall|f: FruitBody| first.contains(f) <==> second.contains(f) by {
            if first.contains(f) {
                let k = choose|k: int| 0 <= k < first.len() && first[k] == f;
                assert(one[k] == f);
                assert(one.contains(f));
                let m = choose|m: int| 0 <= m < two.len() && two[m] == f;
                if m == n {
                    assert(one[k].id < one[n].id);
                }
                assert(second[m] == f);
            }
            if second.contains(f) {
                let k = choose|k: int| 0 <= k < second.len() && second[k] == f;
                assert(two[k] == f);
                assert(two.contains(f));
                let m = choose|m: int| 0 <= m < one.len() && one[m] == f;
                if m == n {
                    assert(two[k].id < two[n].id);
                }
                assert(first[m] == f);
            }
        }
        lemma_ascending_tables_agree(first, second);
        assert(one =~= first.push(a));
        assert(two =~= second.push(b));
    } else {
        assert(one =~= two);
    }
}

/// The table after a step is fixed by the table before it and the merges.
pub proof fn lemma_table_is_determined(
    before: Seq<FruitBody>,
    merges: Seq<Merge>,
    one: Seq<FruitBody>,
    two: Seq<FruitBody>,
)
    requires
        table_after(before, merges, one),
        table_after(before, merges, two),
    ensures
        one == two,
{
    assert forall|f: FruitBody| one.contains(f) <==> two.contains(f) by {
        assert(one.contains(f) <==> ((before.contains(f) && !consumed(merges, f.id)) || created_by(
            merges,
            f,
        )));
        assert(two.contains(f) <==> ((before.contains(f) && !consumed(merges, f.id)) || created_by(
            merges,
            f,
        )));
    }
    lemma_ascending_tables_agree(one, two);
}

} // verus!
