//! The merge resolver: from the contacts of one simulation step to the
//! fruits that settle, the pairs that merge and the table of fruits that is
//! left.

use vstd::prelude::*;
use crate::body::{
    fruit_of, halfway, ids_ascending, lemma_live_slot, lemma_slot_of, live, midpoint, slot, Body,
    Contact, FruitBody, Merge,
};

verus! {

/// Whether one end of a contact is there to be touched: a fixture always is,
/// a fruit only while it is in the table.
pub open spec fn present(fruits: Seq<FruitBody>, body: Body) -> bool {
    match body {
        Body::Fixture => true,
        Body::Fruit(id) => live(fruits, id),
    }
}

/// Whether a contact is taken into account: its two ends are different
/// bodies, and both are present. A contact that names a fruit which is no
/// longer in the table is stale and counts for nothing.
pub open spec fn counts(fruits: Seq<FruitBody>, contact: Contact) -> bool {
    contact.a != contact.b && present(fruits, contact.a) && present(fruits, contact.b)
}

/// Whether the fruit `id` is one end of the contact.
pub open spec fn involves(contact: Contact, id: u64) -> bool {
    contact.a == Body::Fruit(id) || contact.b == Body::Fruit(id)
}

/// Whether the fruit `id` touched another body in this batch.
pub open spec fn touched(fruits: Seq<FruitBody>, batch: Seq<Contact>, id: u64) -> bool {
    exists|k: int|
        0 <= k < batch.len() && counts(fruits, batch[k]) && involves(#[trigger] batch[k], id)
}

/// The table after the contacts have been felt: a fruit that touched another
/// body is unsettled no more; nothing else changes.
pub open spec fn settled(fruits: Seq<FruitBody>, batch: Seq<Contact>) -> Seq<FruitBody> {
    Seq::new(
        fruits.len(),
        |k: int|
            FruitBody {
                unsettled: fruits[k].unsettled && !touched(fruits, batch, fruits[k].id),
                ..fruits[k]
            },
    )
}

/// Whether the contact is between the fruits `lo` and `hi`, in either order.
pub open spec fn joins(contact: Contact, lo: u64, hi: u64) -> bool {
    (contact.a == Body::Fruit(lo) && contact.b == Body::Fruit(hi)) || (contact.a == Body::Fruit(hi)
        && contact.b == Body::Fruit(lo))
}

/// Whether the batch reports the fruits `lo` and `hi` as touching.
pub open spec fn in_contact(batch: Seq<Contact>, lo: u64, hi: u64) -> bool {
    exists|k: int| 0 <= k < batch.len() && joins(#[trigger] batch[k], lo, hi)
}

/// Whether `lo` and `hi` are a pair that may merge: two different live
/// fruits, named smaller identity first, that touch, are of one tier, and
/// that tier has a successor.
pub open spec fn mergeable(fruits: Seq<FruitBody>, batch: Seq<Contact>, lo: u64, hi: u64) -> bool {
    &&& lo < hi
    &&& live(fruits, lo)
    &&& live(fruits, hi)
    &&& fruit_of(fruits, lo).tier == fruit_of(fruits, hi).tier
    &&& fruit_of(fruits, lo).tier.has_successor()
    &&& in_contact(batch, lo, hi)
}

/// Place in the table of the fruit with identity `id`, or `None` where the
/// table has no such fruit.
pub fn find_slot(fruits: &Vec<FruitBody>, id: u64) -> (found: Option<usize>)
    requires
        ids_ascending(fruits@),
    ensures
        found.is_some() == live(fruits@, id),
        found.is_some() ==> found.unwrap() < fruits.len() && fruits[found.unwrap() as int].id == id
            && found.unwrap() == slot(fruits@, id),
{
    let mut low: usize = 0;
    let mut high: usize = fruits.len();
    while low < high
        invariant
            ids_ascending(fruits@),
            0 <= low <= high <= fruits.len(),
            forall|k: int| 0 <= k < low ==> (#[trigger] fruits[k]).id < id,
            forall|k: int| high <= k < fruits.len() ==> (#[trigger] fruits[k]).id > id,
        decreases high - low,
    {
        let mid: usize = low + (high - low) / 2;
        let here: u64 = fruits[mid].id;
        if here == id {
            proof {
                lemma_slot_of(fruits@, mid as int);
            }
            return Some(mid);
        } else if here < id {
            low = mid + 1;
        } else {
            high = mid;
        }
    }
    None
}

/// Whether the batch reports the fruits `lo` and `hi` as touching.
pub fn contact_between(batch: &Vec<Contact>, lo: u64, hi: u64) -> (found: bool)
    ensures
        found == in_contact(batch@, lo, hi),
{
    let mut k: usize = 0;
    while k < batch.len()
        invariant
            0 <= k <= batch.len(),
            forall|n: int| 0 <= n < k ==> !joins(#[trigger] batch[n], lo, hi),
        decreases batch.len() - k,
    {
        let contact: Contact = batch[k];
        let forward: bool = contact.a == Body::Fruit(lo) && contact.b == Body::Fruit(hi);
        let backward: bool = contact.a == Body::Fruit(hi) && contact.b == Body::Fruit(lo);
        if forward || backward {
            return true;
        }
        k += 1;
    }
    false
}

/// Whether the fruit `id` touched another body in the first `upto` contacts
/// of the batch.
spec fn touched_within(
    fruits: Seq<FruitBody>,
    batch: Seq<Contact>,
    upto: int,
    id: u64,
) -> bool {
    exists|k: int|
        0 <= k < upto && k < batch.len() && counts(fruits, batch[k]) && involves(
            #[trigger] batch[k],
            id,
        )
}

/// How many of the flags are set.
pub open spec fn count_set(flags: Seq<bool>) -> nat
    decreases flags.len(),
{
    if flags.len() == 0 {
        0
    } else {
        count_set(flags.drop_last()) + if flags.last() {
            1nat
        } else {
            0nat
        }
    }
}

/// No more flags are set than there are.
pub proof fn lemma_count_bound(flags: Seq<bool>)
    ensures
        count_set(flags) <= flags.len(),
    decreases flags.len(),
{
    if flags.len() > 0 {
        lemma_count_bound(flags.drop_last());
    }
}

/// Where no flag is set, the count is zero.
pub proof fn lemma_count_none(flags: Seq<bool>)
    requires
        forall|i: int| 0 <= i < flags.len() ==> !(#[trigger] flags[i]),
    ensures
        count_set(flags) == 0,
    decreases flags.len(),
{
    if flags.len() > 0 {
        lemma_count_none(flags.drop_last());
    }
}

/// Setting a flag that was not set raises the count by one.
pub proof fn lemma_count_set_one(flags: Seq<bool>, i: int)
    requires
        0 <= i < flags.len(),
        !flags[i],
    ensures
        count_set(flags.update(i, true)) == count_set(flags) + 1,
    decreases flags.len(),
{
    let marked = flags.update(i, true);
    if i == flags.len() - 1 {
        assert(marked.drop_last() =~= flags.drop_last());
    } else {
        assert(marked.drop_last() =~= flags.drop_last().update(i, true));
        lemma_count_set_one(flags.drop_last(), i);
    }
}

/// The count over one flag more is the count so far, and one more if that
/// flag is set.
pub proof fn lemma_count_take(flags: Seq<bool>, i: int)
    requires
        0 <= i < flags.len(),
    ensures
        count_set(flags.take(i + 1)) == count_set(flags.take(i)) + if flags[i] {
            1nat
        } else {
            0nat
        },
{
    assert(flags.take(i + 1).drop_last() =~= flags.take(i));
}

/// A table of `n` flags, none of them set.
pub fn cleared_flags(n: usize) -> (flags: Vec<bool>)
    ensures
        flags.len() == n,
        forall|i: int| 0 <= i < n ==> !(#[trigger] flags[i]),
        count_set(flags@) == 0,
{
    let mut flags: Vec<bool> = Vec::new();
    while flags.len() < n
        invariant
            flags.len() <= n,
            forall|i: int| 0 <= i < flags.len() ==> !(#[trigger] flags[i]),
        decreases n - flags.len(),
    {
        flags.push(false);
    }
    proof {
        lemma_count_none(flags@);
    }
    flags
}

/// Whether `body` is present, and its place in the table where it is a fruit
/// that is.
fn locate(fruits: &Vec<FruitBody>, body: Body) -> (found: (bool, Option<usize>))
    requires
        ids_ascending(fruits@),
    ensures
        found.0 == present(fruits@, body),
        found.1.is_some() <==> (body != Body::Fixture && found.0),
        forall|i: int|
            0 <= i < fruits.len() ==> (found.1 == Some(i as usize) <==> body == Body::Fruit(
                (#[trigger] fruits[i]).id,
            )),
{
    match body {
        Body::Fixture => (true, None),
        Body::Fruit(id) => {
            let place: Option<usize> = find_slot(fruits, id);
            proof {
                assert forall|i: int| 0 <= i < fruits.len() implies (place == Some(i as usize)
                    <==> body == Body::Fruit((#[trigger] fruits[i]).id)) by {
                    lemma_slot_of(fruits@, i);
                }
            }
            (place.is_some(), place)
        },
    }
}

/// For each fruit of the table, whether it touched another body in this
/// batch.
pub fn touched_flags(fruits: &Vec<FruitBody>, batch: &Vec<Contact>) -> (flags: Vec<bool>)
    requires
        ids_ascending(fruits@),
    ensures
        flags.len() == fruits.len(),
        forall|i: int|
            0 <= i < fruits.len() ==> #[trigger] flags[i] == touched(fruits@, batch@, fruits[i].id),
{
    let mut flags: Vec<bool> = cleared_flags(fruits.len());
    let mut k: usize = 0;
    while k < batch.len()
        invariant
            ids_ascending(fruits@),
            0 <= k <= batch.len(),
            flags.len() == fruits.len(),
            forall|i: int|
                0 <= i < fruits.len() ==> #[trigger] flags[i] == touched_within(
                    fruits@,
                    batch@,
                    k as int,
                    fruits[i].id,
                ),
        decreases batch.len() - k,
    {
        let contact: Contact = batch[k];
        let ghost before = flags@;
        if contact.a != contact.b {
            let (a_present, a_slot) = locate(fruits, contact.a);
            let (b_present, b_slot) = locate(fruits, contact.b);
            if a_present && b_present {
                if let Some(i) = a_slot {
                    flags.set(i, true);
                }
                if let Some(j) = b_slot {
                    flags.set(j, true);
                }
            }
        }
        proof {
            assert forall|i: int| 0 <= i < fruits.len() implies #[trigger] flags[i]
                == touched_within(fruits@, batch@, k + 1, fruits[i].id) by {
                let id = fruits[i].id;
                let hit = counts(fruits@, batch[k as int]) && involves(batch[k as int], id);
                assert(flags[i] == (before[i] || hit));
                if touched_within(fruits@, batch@, k + 1, id) {
                    let n = choose|n: int|
                        0 <= n < k + 1 && n < batch.len() && counts(fruits@, batch[n]) && involves(
                            #[trigger] batch[n],
                            id,
                        );
                    if n < k {
                        assert(touched_within(fruits@, batch@, k as int, id));
                    }
                }
                if before[i] {
                    assert(touched_within(fruits@, batch@, k as int, id));
                    let n = choose|n: int|
                        0 <= n < k && n < batch.len() && counts(fruits@, batch[n]) && involves(
                            #[trigger] batch[n],
                            id,
                        );
                    assert(involves(batch[n], id));
                }
                if hit {
                    assert(involves(batch[k as int], id));
                }
            }
        }
        k += 1;
    }
    proof {
        assert forall|i: int| 0 <= i < fruits.len() implies #[trigger] flags[i] == touched(
            fruits@,
            batch@,
            fruits[i].id,
        ) by {
            let id = fruits[i].id;
            if touched(fruits@, batch@, id) {
                let n = choose|n: int|
                    0 <= n < batch.len() && counts(fruits@, batch[n]) && involves(
                        #[trigger] batch[n],
                        id,
                    );
                assert(involves(batch[n], id));
            }
            if touched_within(fruits@, batch@, k as int, id) {
                let n = choose|n: int|
                    0 <= n < k && n < batch.len() && counts(fruits@, batch[n]) && involves(
                        #[trigger] batch[n],
                        id,
                    );
                assert(involves(batch[n], id));
            }
        }
    }
    flags
}

/// The fruit that two merged fruits become: one rung up, halfway between
/// them, settled from the start.
pub open spec fn merged_fruit(a: FruitBody, b: FruitBody, id: u64) -> FruitBody {
    FruitBody {
        id,
        tier: a.tier.successor(),
        x: midpoint(a.x as int, b.x as int) as i32,
        y: midpoint(a.y as int, b.y as int) as i32,
        unsettled: false,
    }
}

/// Whether the fruit `id` is one of the two that the merge used up.
pub open spec fn uses(merge: Merge, id: u64) -> bool {
    merge.first == id || merge.second == id
}

/// Whether some merge of the list used up the fruit `id`.
pub open spec fn consumed(merges: Seq<Merge>, id: u64) -> bool {
    exists|k: int| 0 <= k < merges.len() && uses(#[trigger] merges[k], id)
}

/// Whether the merge settles what becomes of the pair `lo`, `hi`: it is that
/// pair, or it comes before that pair in the order of processing and uses up
/// one of its two fruits. Pairs are processed by ascending smaller identity,
/// and by ascending larger identity among pairs with the same smaller one.
pub open spec fn claims(merge: Merge, lo: u64, hi: u64) -> bool {
    (merge.first < lo || (merge.first == lo && merge.second <= hi)) && (uses(merge, lo) || uses(
        merge,
        hi,
    ))
}

/// Whether some merge of the list claims the pair `lo`, `hi`.
pub open spec fn covered(merges: Seq<Merge>, lo: u64, hi: u64) -> bool {
    exists|k: int| 0 <= k < merges.len() && claims(#[trigger] merges[k], lo, hi)
}

/// The `k`-th merge of the list is of a pair that may merge, and creates
/// the fruit that this pair becomes, with the `k`-th free identity.
pub open spec fn entry_sound(
    fruits: Seq<FruitBody>,
    batch: Seq<Contact>,
    next_id: nat,
    merges: Seq<Merge>,
    k: int,
) -> bool {
    &&& mergeable(fruits, batch, merges[k].first, merges[k].second)
    &&& merges[k].created == merged_fruit(
        fruit_of(fruits, merges[k].first),
        fruit_of(fruits, merges[k].second),
        (next_id + k) as u64,
    )
}

/// The merges stand in the order of processing, and no fruit is used up by
/// two of them.
pub open spec fn entries_apart(merges: Seq<Merge>) -> bool {
    forall|k: int, l: int|
        0 <= k < l < merges.len() ==> {
            &&& (#[trigger] merges[k]).first < (#[trigger] merges[l]).first
            &&& !uses(merges[l], merges[k].first)
            &&& !uses(merges[l], merges[k].second)
        }
}

/// What the list of merges of one step must be, given the table of fruits
/// at the start of the step, the batch of contacts and the first identity
/// that is free:
/// - every merge is of a pair that may merge, and creates the fruit that
///   this pair becomes, with the next free identity;
/// - the merges stand in the order of processing, and no fruit is used up
///   by two of them;
/// - every pair that may merge did merge, unless an earlier merge had used
///   up one of its fruits.
/// Together these fix the list: it is what comes of going through the pairs
/// in order and merging each pair whose two fruits are both still there.
pub open spec fn resolves(
    fruits: Seq<FruitBody>,
    batch: Seq<Contact>,
    next_id: nat,
    merges: Seq<Merge>,
) -> bool {
    &&& forall|k: int|
        0 <= k < merges.len() ==> #[trigger] entry_sound(fruits, batch, next_id, merges, k)
    &&& entries_apart(merges)
    &&& forall|lo: u64, hi: u64| #[trigger]
        mergeable(fruits, batch, lo, hi) ==> covered(merges, lo, hi)
}

/// A pair that is claimed stays claimed when a merge joins the list.
pub proof fn lemma_covered_push(merges: Seq<Merge>, merge: Merge, lo: u64, hi: u64)
    requires
        covered(merges, lo, hi),
    ensures
        covered(merges.push(merge), lo, hi),
{
    let k = choose|k: int| 0 <= k < merges.len() && claims(#[trigger] merges[k], lo, hi);
    assert(merges.push(merge)[k] == merges[k]);
}

/// After a merge has joined the list, the fruits used up are those used up
/// before and the two of that merge.
pub proof fn lemma_consumed_push(merges: Seq<Merge>, merge: Merge, id: u64)
    ensures
        consumed(merges.push(merge), id) <==> (consumed(merges, id) || uses(merge, id)),
{
    let longer = merges.push(merge);
    if consumed(longer, id) {
        let k = choose|k: int| 0 <= k < longer.len() && uses(#[trigger] longer[k], id);
        if k < merges.len() {
            assert(longer[k] == merges[k]);
        } else {
            assert(longer[k] == merge);
        }
    }
    if consumed(merges, id) {
        let k = choose|k: int| 0 <= k < merges.len() && uses(#[trigger] merges[k], id);
        assert(longer[k] == merges[k]);
    }
    if uses(merge, id) {
        assert(longer[merges.len() as int] == merge);
    }
}

/// Whether the fruit at place `j` can merge with the one at place `i`: it is
/// not used up, is of the same tier, and touches it.
spec fn partner(
    fruits: Seq<FruitBody>,
    batch: Seq<Contact>,
    used: Seq<bool>,
    i: int,
    j: int,
) -> bool {
    !used[j] && fruits[j].tier == fruits[i].tier && in_contact(batch, fruits[i].id, fruits[j].id)
}

/// The first place after `i` whose fruit can merge with the one at `i`.
fn find_partner(fruits: &Vec<FruitBody>, batch: &Vec<Contact>, used: &Vec<bool>, i: usize) -> (found:
    Option<usize>)
    requires
        i < fruits.len(),
        used.len() == fruits.len(),
    ensures
        match found {
            Some(j) => i < j < fruits.len() && partner(fruits@, batch@, used@, i as int, j as int)
                && forall|h: int| i < h < j ==> !partner(fruits@, batch@, used@, i as int, h),
            None => forall|h: int|
                i < h < fruits.len() ==> !partner(fruits@, batch@, used@, i as int, h),
        },
{
    let mine: FruitBody = fruits[i];
    let mut j: usize = i + 1;
    while j < fruits.len()
        invariant
            i < j <= fruits.len(),
            used.len() == fruits.len(),
            mine == fruits[i as int],
            forall|h: int| i < h < j ==> !partner(fruits@, batch@, used@, i as int, h),
        decreases fruits.len() - j,
    {
        let other: FruitBody = fruits[j];
        if !used[j] && other.tier == mine.tier && contact_between(batch, mine.id, other.id) {
            return Some(j);
        }
        j += 1;
    }
    None
}

/// Every merge of the list is of a pair that may merge, creates the fruit
/// that this pair becomes, and began at a place before `upto`.
spec fn entries_sound(
    fruits: Seq<FruitBody>,
    batch: Seq<Contact>,
    next_id: nat,
    merges: Seq<Merge>,
    upto: int,
) -> bool {
    forall|k: int|
        0 <= k < merges.len() ==> (#[trigger] entry_sound(fruits, batch, next_id, merges, k))
            && slot(fruits, merges[k].first) < upto
}

/// Every pair that may merge and whose smaller fruit stands before place
/// `upto` is claimed by a merge of the list.
spec fn pairs_covered(
    fruits: Seq<FruitBody>,
    batch: Seq<Contact>,
    merges: Seq<Merge>,
    upto: int,
) -> bool {
    forall|lo: u64, hi: u64|
        (#[trigger] mergeable(fruits, batch, lo, hi) && slot(fruits, lo) < upto) ==> covered(
            merges,
            lo,
            hi,
        )
}

/// The flags say of each place whether its fruit has been used up.
pub open spec fn flags_match(fruits: Seq<FruitBody>, merges: Seq<Merge>, used: Seq<bool>) -> bool {
    &&& used.len() == fruits.len()
    &&& forall|j: int| 0 <= j < fruits.len() ==> #[trigger] used[j] == consumed(merges, fruits[j].id)
}

/// A merge in the list began at a place before `upto`, so its smaller fruit
/// has a smaller identity than the fruit at `upto`.
proof fn lemma_earlier_first(
    fruits: Seq<FruitBody>,
    batch: Seq<Contact>,
    next_id: nat,
    merges: Seq<Merge>,
    upto: int,
    k: int,
)
    requires
        ids_ascending(fruits),
        entries_sound(fruits, batch, next_id, merges, upto),
        0 <= upto < fruits.len(),
        0 <= k < merges.len(),
    ensures
        merges[k].first < fruits[upto].id,
        merges[k].first < merges[k].second,
{
    let first = merges[k].first;
    assert(entry_sound(fruits, batch, next_id, merges, k));
    lemma_live_slot(fruits, first);
    let a = slot(fruits, first);
    assert(fruits[a].id == first);
    assert(a < upto);
}

/// A pair that may merge and whose smaller fruit stands at place `i` has its
/// larger fruit at a later place, of the same tier and touching it.
proof fn lemma_pair_places(
    fruits: Seq<FruitBody>,
    batch: Seq<Contact>,
    i: int,
    lo: u64,
    hi: u64,
)
    requires
        ids_ascending(fruits),
        0 <= i < fruits.len(),
        mergeable(fruits, batch, lo, hi),
        slot(fruits, lo) == i,
    ensures
        fruits[i].id == lo,
        i < slot(fruits, hi) < fruits.len(),
        fruits[slot(fruits, hi)].id == hi,
        fruits[slot(fruits, hi)].tier == fruits[i].tier,
        fruits[i].tier.has_successor(),
        in_contact(batch, fruits[i].id, fruits[slot(fruits, hi)].id),
{
    lemma_live_slot(fruits, lo);
    lemma_live_slot(fruits, hi);
    let h = slot(fruits, hi);
    if h < i {
        assert(fruits[h].id < fruits[i].id);
    }
}

/// A fruit that was used up before place `i` was reached, and that is the
/// larger one of a pair whose smaller one stands at `i` or is one end of a
/// pair that does, has that pair claimed.
proof fn lemma_claimed_by_earlier(
    fruits: Seq<FruitBody>,
    batch: Seq<Contact>,
    next_id: nat,
    merges: Seq<Merge>,
    i: int,
    lo: u64,
    hi: u64,
    gone: u64,
)
    requires
        ids_ascending(fruits),
        0 <= i < fruits.len(),
        entries_sound(fruits, batch, next_id, merges, i),
        fruits[i].id == lo,
        lo < hi,
        gone == lo || gone == hi,
        consumed(merges, gone),
    ensures
        covered(merges, lo, hi),
{
    let k = choose|k: int| 0 <= k < merges.len() && uses(#[trigger] merges[k], gone);
    lemma_earlier_first(fruits, batch, next_id, merges, i, k);
    assert(claims(merges[k], lo, hi));
}

/// Going past a place whose fruit cannot start a merge: it is used up, or
/// its tier is the last, or no fruit after it can merge with it.
proof fn lemma_pass_by(
    fruits: Seq<FruitBody>,
    batch: Seq<Contact>,
    next_id: nat,
    merges: Seq<Merge>,
    used: Seq<bool>,
    i: int,
)
    requires
        ids_ascending(fruits),
        0 <= i < fruits.len(),
        entries_sound(fruits, batch, next_id, merges, i),
        pairs_covered(fruits, batch, merges, i),
        flags_match(fruits, merges, used),
        used[i] || !fruits[i].tier.has_successor() || forall|h: int|
            i < h < fruits.len() ==> !partner(fruits, batch, used, i, h),
    ensures
        entries_sound(fruits, batch, next_id, merges, i + 1),
        pairs_covered(fruits, batch, merges, i + 1),
{
    assert forall|lo: u64, hi: u64|
        (#[trigger] mergeable(fruits, batch, lo, hi) && slot(fruits, lo) < i + 1) implies covered(
        merges,
        lo,
        hi,
    ) by {
        if slot(fruits, lo) == i {
            lemma_pair_places(fruits, batch, i, lo, hi);
            let h = slot(fruits, hi);
            if used[i] {
                lemma_claimed_by_earlier(fruits, batch, next_id, merges, i, lo, hi, lo);
            } else {
                assert(!partner(fruits, batch, used, i, h));
                assert(used[h]);
                lemma_claimed_by_earlier(fruits, batch, next_id, merges, i, lo, hi, hi);
            }
        }
    }
}

/// What is known when the fruit at place `i` merges with its first partner,
/// at place `j`.
spec fn merge_step(
    fruits: Seq<FruitBody>,
    batch: Seq<Contact>,
    next_id: nat,
    merges: Seq<Merge>,
    used: Seq<bool>,
    i: int,
    j: int,
    merge: Merge,
) -> bool {
    &&& ids_ascending(fruits)
    &&& 0 <= i < j < fruits.len()
    &&& entries_sound(fruits, batch, next_id, merges, i)
    &&& entries_apart(merges)
    &&& pairs_covered(fruits, batch, merges, i)
    &&& flags_match(fruits, merges, used)
    &&& !used[i]
    &&& fruits[i].tier.has_successor()
    &&& partner(fruits, batch, used, i, j)
    &&& forall|h: int| i < h < j ==> !partner(fruits, batch, used, i, h)
    &&& merge.first == fruits[i].id
    &&& merge.second == fruits[j].id
    &&& merge.created == merged_fruit(fruits[i], fruits[j], (next_id + merges.len()) as u64)
}

/// The new merge is sound, and so are the earlier ones still.
proof fn lemma_merge_step_sound(
    fruits: Seq<FruitBody>,
    batch: Seq<Contact>,
    next_id: nat,
    merges: Seq<Merge>,
    used: Seq<bool>,
    i: int,
    j: int,
    merge: Merge,
)
    requires
        merge_step(fruits, batch, next_id, merges, used, i, j, merge),
    ensures
        entries_sound(fruits, batch, next_id, merges.push(merge), i + 1),
{
    let longer = merges.push(merge);
    lemma_slot_of(fruits, i);
    lemma_slot_of(fruits, j);
    assert(fruits[i].id < fruits[j].id);
    assert(mergeable(fruits, batch, merge.first, merge.second));
    assert forall|k: int| 0 <= k < longer.len() implies (#[trigger] entry_sound(
        fruits,
        batch,
        next_id,
        longer,
        k,
    )) && slot(fruits, longer[k].first) < i + 1 by {
        if k < merges.len() {
            assert(longer[k] == merges[k]);
            assert(entry_sound(fruits, batch, next_id, merges, k));
        } else {
            assert(longer[k] == merge);
        }
    }
}

/// The new merge uses up no fruit that an earlier one used up, and stands
/// after them all.
proof fn lemma_merge_step_apart(
    fruits: Seq<FruitBody>,
    batch: Seq<Contact>,
    next_id: nat,
    merges: Seq<Merge>,
    used: Seq<bool>,
    i: int,
    j: int,
    merge: Merge,
)
    requires
        merge_step(fruits, batch, next_id, merges, used, i, j, merge),
    ensures
        entries_apart(merges.push(merge)),
{
    let longer = merges.push(merge);
    assert(!consumed(merges, fruits[i].id));
    assert(!consumed(merges, fruits[j].id));
    assert forall|k: int, l: int| 0 <= k < l < longer.len() implies {
        &&& (#[trigger] longer[k]).first < (#[trigger] longer[l]).first
        &&& !uses(longer[l], longer[k].first)
        &&& !uses(longer[l], longer[k].second)
    } by {
        assert(longer[k] == merges[k]);
        if l < merges.len() {
            assert(longer[l] == merges[l]);
        } else {
            assert(longer[l] == merge);
            lemma_earlier_first(fruits, batch, next_id, merges, i, k);
            assert(uses(merges[k], merges[k].first));
            assert(uses(merges[k], merges[k].second));
            assert(!uses(merges[k], fruits[i].id));
            assert(!uses(merges[k], fruits[j].id));
        }
    }
}

/// Every pair whose smaller fruit stands at or before place `i` is claimed
/// once the new merge has joined the list.
proof fn lemma_merge_step_covers(
    fruits: Seq<FruitBody>,
    batch: Seq<Contact>,
    next_id: nat,
    merges: Seq<Merge>,
    used: Seq<bool>,
    i: int,
    j: int,
    merge: Merge,
)
    requires
        merge_step(fruits, batch, next_id, merges, used, i, j, merge),
    ensures
        pairs_covered(fruits, batch, merges.push(merge), i + 1),
{
    let longer = merges.push(merge);
    assert(longer[merges.len() as int] == merge);
    assert forall|lo: u64, hi: u64|
        (#[trigger] mergeable(fruits, batch, lo, hi) && slot(fruits, lo) < i + 1) implies covered(
        longer,
        lo,
        hi,
    ) by {
        if slot(fruits, lo) < i {
            lemma_covered_push(merges, merge, lo, hi);
        } else {
            lemma_pair_places(fruits, batch, i, lo, hi);
            let h = slot(fruits, hi);
            if h < j {
                assert(!partner(fruits, batch, used, i, h));
                assert(used[h]);
                lemma_claimed_by_earlier(fruits, batch, next_id, merges, i, lo, hi, hi);
                lemma_covered_push(merges, merge, lo, hi);
            } else {
                if h > j {
                    assert(fruits[j].id < fruits[h].id);
                }
                assert(claims(merge, lo, hi));
            }
        }
    }
}

/// The flags, with the two places of the new merge set, say again which
/// fruits have been used up.
proof fn lemma_merge_step_flags(
    fruits: Seq<FruitBody>,
    batch: Seq<Contact>,
    next_id: nat,
    merges: Seq<Merge>,
    used: Seq<bool>,
    i: int,
    j: int,
    merge: Merge,
)
    requires
        merge_step(fruits, batch, next_id, merges, used, i, j, merge),
    ensures
        flags_match(fruits, merges.push(merge), used.update(i, true).update(j, true)),
        count_set(used.update(i, true).update(j, true)) == count_set(used) + 2,
{
    let longer = merges.push(merge);
    let marked = used.update(i, true).update(j, true);
    lemma_count_set_one(used, i);
    lemma_count_set_one(used.update(i, true), j);
    assert forall|x: int| 0 <= x < fruits.len() implies #[trigger] marked[x] == consumed(
        longer,
        fruits[x].id,
    ) by {
        lemma_consumed_push(merges, merge, fruits[x].id);
        if x < i {
            assert(fruits[x].id < fruits[i].id);
        }
        if i < x {
            assert(fruits[i].id < fruits[x].id);
        }
        if x < j {
            assert(fruits[x].id < fruits[j].id);
        }
        if j < x {
            assert(fruits[j].id < fruits[x].id);
        }
    }
}

/// Goes through the pairs of touching fruits in the order of processing and
/// merges each pair that may merge and whose two fruits are both still
/// there. Returns the merges in that order and, for each place of the table,
/// whether its fruit was used up. The fruit that the `k`-th merge creates
/// gets the identity `next_id + k`.
pub fn pair_up(fruits: &Vec<FruitBody>, batch: &Vec<Contact>, next_id: u64) -> (out: (
    Vec<Merge>,
    Vec<bool>,
))
    requires
        ids_ascending(fruits@),
        next_id + fruits.len() <= u64::MAX,
    ensures
        resolves(fruits@, batch@, next_id as nat, out.0@),
        flags_match(fruits@, out.0@, out.1@),
        count_set(out.1@) == 2 * out.0.len(),
        2 * out.0.len() <= fruits.len(),
{
    let n: usize = fruits.len();
    let mut merges: Vec<Merge> = Vec::new();
    let mut used: Vec<bool> = cleared_flags(n);
    let mut i: usize = 0;
    while i < n
        invariant
            ids_ascending(fruits@),
            n == fruits.len(),
            next_id + n <= u64::MAX,
            0 <= i <= n,
            merges.len() <= i,
            entries_sound(fruits@, batch@, next_id as nat, merges@, i as int),
            entries_apart(merges@),
            pairs_covered(fruits@, batch@, merges@, i as int),
            flags_match(fruits@, merges@, used@),
            count_set(used@) == 2 * merges.len(),
        decreases n - i,
    {
        let mine: FruitBody = fruits[i];
        let mut joined: bool = false;
        if !used[i] {
            if let Some(up) = mine.tier.next() {
                if let Some(j) = find_partner(fruits, batch, &used, i) {
                    let other: FruitBody = fruits[j];
                    let merge = Merge {
                        first: mine.id,
                        second: other.id,
                        created: FruitBody {
                            id: next_id + merges.len() as u64,
                            tier: up,
                            x: halfway(mine.x, other.x),
                            y: halfway(mine.y, other.y),
                            unsettled: false,
                        },
                    };
                    proof {
                        let ghost id = next_id as nat;
                        let ghost (a, b) = (i as int, j as int);
                        assert(merge_step(fruits@, batch@, id, merges@, used@, a, b, merge));
                        lemma_merge_step_sound(fruits@, batch@, id, merges@, used@, a, b, merge);
                        lemma_merge_step_apart(fruits@, batch@, id, merges@, used@, a, b, merge);
                        lemma_merge_step_covers(fruits@, batch@, id, merges@, used@, a, b, merge);
                        lemma_merge_step_flags(fruits@, batch@, id, merges@, used@, a, b, merge);
                    }
                    merges.push(merge);
                    used.set(i, true);
                    used.set(j, true);
                    joined = true;
                }
            }
        }
        proof {
            if !joined {
                lemma_pass_by(fruits@, batch@, next_id as nat, merges@, used@, i as int);
            }
        }
        i += 1;
    }
    proof {
        assert forall|lo: u64, hi: u64| #[trigger]
            mergeable(fruits@, batch@, lo, hi) implies covered(merges@, lo, hi) by {
            lemma_live_slot(fruits@, lo);
        }
        lemma_count_bound(used@);
    }
    (merges, used)
}

} // verus!
