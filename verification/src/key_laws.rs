//! What the order of keys, ranges of keys, hashes and byte orders are, byte by byte.
use crate::bucket_item::BucketItem;
use crate::bucket_model::in_range;
use crate::byte_order::ByteOrder;
use crate::index_entry::{data_bucket, home, key_uid, lemma_fits, IndexEntry};
use crate::pubkey::{key_before, KeyBound, KeyRange, Pubkey};
use std::collections::hash_map::DefaultHasher;
use vstd::arithmetic::power2::pow2;
use vstd::prelude::*;
use vstd::std_specs::cmp::PartialEqSpec;
use vstd::std_specs::hash::DefaultHasherAdditionalSpecFns;

verus! {

/// A key is its 32 bytes, all of them: keys are the same where each byte is, and only there.
pub proof fn law_key_is_its_bytes(a: Pubkey, b: Pubkey)
    ensures
        a@.len() == 32,
        forall|i: int| 0 <= i < 32 ==> #[trigger] a@[i] == a.bytes@[i],
        a@ == b@ <==> forall|i: int| 0 <= i < 32 ==> #[trigger] a.bytes@[i] == b.bytes@[i],
{
    if forall|i: int| 0 <= i < 32 ==> #[trigger] a.bytes@[i] == b.bytes@[i] {
        assert(a@ =~= b@);
    }
}

/// Comparing two keys says whether they have the same bytes.
pub proof fn law_keys_compare_by_bytes(a: Pubkey, b: Pubkey)
    ensures
        Pubkey::obeys_eq_spec(),
        a.eq_spec(&b) <==> forall|i: int|
            0 <= i < 32 ==> #[trigger] a.bytes@[i] == b.bytes@[i],
{
    law_key_is_its_bytes(a, b);
}

/// The first byte in which two keys differ decides which comes first, whatever the other bytes.
pub proof fn law_first_difference_decides(a: Seq<u8>, b: Seq<u8>, i: int)
    requires
        0 <= i < a.len(),
        i < b.len(),
        forall|j: int| 0 <= j < i ==> #[trigger] a[j] == b[j],
        a[i] != b[i],
    ensures
        key_before(a, b) <==> a[i] < b[i],
        key_before(b, a) <==> b[i] < a[i],
{
    assert(a.take(i) =~= b.take(i));
    if key_before(a, b) {
        let k = choose|k: int|
            #![trigger a[k]]
            0 <= k < a.len() && k < b.len() && a[k] < b[k] && a.take(k) == b.take(k);
        if k > i {
            assert(a.take(k)[i] == b.take(k)[i]);
        }
    }
    if key_before(b, a) {
        let k = choose|k: int|
            #![trigger b[k]]
            0 <= k < b.len() && k < a.len() && b[k] < a[k] && b.take(k) == a.take(k);
        if k > i {
            assert(b.take(k)[i] == a.take(k)[i]);
        }
    }
}

/// No key comes before itself.
pub proof fn law_no_key_before_itself(a: Seq<u8>)
    ensures
        !key_before(a, a),
{
}

/// Where two keys of one length differ first.
proof fn lemma_first_difference(a: Seq<u8>, b: Seq<u8>, from: int) -> (at: int)
    requires
        a.len() == b.len(),
        a != b,
        0 <= from <= a.len(),
        forall|j: int| 0 <= j < from ==> #[trigger] a[j] == b[j],
    ensures
        0 <= at < a.len(),
        a[at] != b[at],
        forall|j: int| 0 <= j < at ==> #[trigger] a[j] == b[j],
    decreases a.len() - from,
{
    if from == a.len() {
        assert(a =~= b);
        from
    } else if a[from] != b[from] {
        from
    } else {
        lemma_first_difference(a, b, from + 1)
    }
}

/// Of two different keys, one comes before the other.
pub proof fn law_one_key_comes_first(a: Seq<u8>, b: Seq<u8>)
    requires
        a.len() == b.len(),
        a != b,
    ensures
        key_before(a, b) != key_before(b, a),
{
    let i = lemma_first_difference(a, b, 0);
    law_first_difference_decides(a, b, i);
}

/// What comes before a key that comes before another comes before that one.
pub proof fn law_key_order_chains(a: Seq<u8>, b: Seq<u8>, c: Seq<u8>)
    requires
        a.len() == b.len(),
        b.len() == c.len(),
        key_before(a, b),
        key_before(b, c),
    ensures
        key_before(a, c),
{
    let i = lemma_first_difference(a, b, 0);
    let j = lemma_first_difference(b, c, 0);
    law_first_difference_decides(a, b, i);
    law_first_difference_decides(b, c, j);
    let k = if i < j {
        i
    } else {
        j
    };
    assert(a[k] < c[k]);
    law_first_difference_decides(a, c, k);
}

/// A key before an included start, or not after an excluded one, is in no range, whatever the end.
pub proof fn law_start_keeps_out(range: KeyRange, key: Seq<u8>)
    ensures
        range.start matches KeyBound::Included(start) ==> key_before(key, start@)
            ==> !range.holds(key),
        range.start matches KeyBound::Excluded(start) ==> !key_before(start@, key)
            ==> !range.holds(key),
{
}

/// A key after an included end, or not before an excluded one, is in no range, whatever the start.
pub proof fn law_end_keeps_out(range: KeyRange, key: Seq<u8>)
    ensures
        range.end matches KeyBound::Included(end) ==> key_before(end@, key) ==> !range.holds(key),
        range.end matches KeyBound::Excluded(end) ==> !key_before(key, end@) ==> !range.holds(key),
{
}

/// A key that neither end keeps out is in the range.
pub proof fn law_range_holds_the_rest(range: KeyRange, key: Seq<u8>)
    requires
        range.start matches KeyBound::Included(start) ==> !key_before(key, start@),
        range.start matches KeyBound::Excluded(start) ==> key_before(start@, key),
        range.end matches KeyBound::Included(end) ==> !key_before(end@, key),
        range.end matches KeyBound::Excluded(end) ==> key_before(key, end@),
    ensures
        range.holds(key),
{
}

/// The two ends of a range are independent: a range holds what both of its halves hold.
pub proof fn law_range_is_its_halves(range: KeyRange, key: Seq<u8>)
    ensures
        range.holds(key) <==> (KeyRange { start: range.start, end: KeyBound::Unbounded }).holds(key)
            && (KeyRange { start: KeyBound::Unbounded, end: range.end }).holds(key),
        (KeyRange { start: KeyBound::Unbounded, end: KeyBound::Unbounded }).holds(key),
{
}

/// An end that is included is in the range, if the other end does not keep it out, and one that is
/// excluded is not.
pub proof fn law_ends_in_or_out(start: Pubkey, end: Pubkey)
    ensures
        (KeyRange { start: KeyBound::Included(start), end: KeyBound::Unbounded }).holds(start@),
        !(KeyRange { start: KeyBound::Excluded(start), end: KeyBound::Unbounded }).holds(start@),
        (KeyRange { start: KeyBound::Unbounded, end: KeyBound::Included(end) }).holds(end@),
        !(KeyRange { start: KeyBound::Unbounded, end: KeyBound::Excluded(end) }).holds(end@),
{
}

/// Without a range every key is listed; with one, those that it holds.
pub proof fn law_no_range_is_all_keys(range: KeyRange, key: Seq<u8>)
    ensures
        in_range(None, key),
        in_range(Some(range), key) <==> range.holds(key),
{
}

/// The owner of a key's cells is the hash of its bytes, in one write, but never zero.
pub proof fn law_owner_is_hash_of_key(key: Seq<u8>)
    ensures
        ({
            let hash = <DefaultHasher as DefaultHasherAdditionalSpecFns>::spec_finish(seq![key]);
            &&& hash != 0 ==> key_uid(key) == hash
            &&& hash == 0 ==> key_uid(key) == 1
            &&& key_uid(key) != 0
        }),
{
}

/// A search starts at the hash of the owner and of the random offset, taken modulo the size of the
/// index.
pub proof fn law_search_starts_at_hash(key: Seq<u8>, random: u64, order: ByteOrder, capacity: int)
    requires
        0 < capacity,
    ensures
        home(key, random, order, capacity) == <
            DefaultHasher as DefaultHasherAdditionalSpecFns
        >::spec_finish(seq![order.bytes(key_uid(key)), order.bytes(random)]) as int % capacity,
        0 <= home(key, random, order, capacity) < capacity,
{
}

/// The bytes of a number: eight, the least significant first or last.
pub proof fn law_bytes_of_numbers(number: u64)
    ensures
        ByteOrder::Little.bytes(number) == vstd::bytes::spec_u64_to_le_bytes(number),
        ByteOrder::Little.bytes(number).len() == 8,
        ByteOrder::Big.bytes(number).len() == 8,
        ByteOrder::Little.bytes(number)[0] == number % 256,
        forall|i: int|
            0 <= i < 8 ==> #[trigger] ByteOrder::Big.bytes(number)[i] == ByteOrder::Little.bytes(
                number,
            )[7 - i],
{
    vstd::bytes::spec_u64_to_le_bytes_to_open(number);
    assert((number & 0xff) as u8 == number % 256) by (bit_vector);
}

/// The data bucket for lists of a length is the first that is large enough.
pub proof fn law_data_bucket_is_the_smallest(num_slots: int)
    ensures
        num_slots <= pow2(data_bucket(num_slots)),
        forall|smaller: nat|
            smaller < data_bucket(num_slots) ==> #[trigger] pow2(smaller) < num_slots,
{
    lemma_fits(num_slots);
    let bucket = data_bucket(num_slots);
    assert forall|smaller: nat| smaller < bucket implies #[trigger] pow2(smaller) < num_slots by {
        if smaller < bucket - 1 {
            vstd::arithmetic::power2::lemma_pow2_strictly_increases(
                smaller,
                (bucket - 1) as nat,
            );
        }
    }
}

/// An entry names the data bucket for the length of its list, and a cell of it that moves away from
/// the first by the factor by which the bucket has grown since.
pub proof fn law_entry_names_a_cell(entry: IndexEntry, capacity_pow2: u8)
    ensures
        entry.bucket() == data_bucket(entry.num_slots as int),
        entry.located(capacity_pow2) <==> entry.storage_capacity_when_created_pow2
            <= capacity_pow2 && entry.storage_offset < pow2(
            entry.storage_capacity_when_created_pow2 as nat,
        ),
        entry.located(entry.storage_capacity_when_created_pow2) ==> entry.loc(
            entry.storage_capacity_when_created_pow2,
        ) == entry.storage_offset,
        entry.storage_capacity_when_created_pow2 <= capacity_pow2 < u8::MAX ==> entry.loc(
            (capacity_pow2 + 1) as u8,
        ) == 2 * entry.loc(capacity_pow2),
{
    let created = entry.storage_capacity_when_created_pow2;
    vstd::arithmetic::power2::lemma_pow2(0);
    vstd::arithmetic::power::lemma_pow0(2);
    assert(entry.storage_offset * pow2(0) == entry.storage_offset) by (nonlinear_arith)
        requires
            pow2(0) == 1,
    ;
    if created <= capacity_pow2 < u8::MAX {
        let by = (capacity_pow2 - created) as nat;
        vstd::arithmetic::power2::lemma_pow2_unfold(by + 1);
        let offset = entry.storage_offset as int;
        let (one, two) = (pow2(by) as int, pow2(by + 1) as int);
        assert(offset * two == 2 * (offset * one)) by (nonlinear_arith)
            requires
                two == 2 * one,
        ;
    }
}

/// An item shows its key, its number of references and its list.
pub proof fn law_item_shows_all<T>(item: BucketItem<T>)
    ensures
        item@.pubkey == item.pubkey,
        item@.ref_count == item.ref_count,
        item@.slot_list == item.slot_list@,
{
}

} // verus!
