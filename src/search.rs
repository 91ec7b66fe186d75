use std::collections::{HashMap, HashSet};
use vstd::prelude::*;
use crate::digits::{build_digits, decimal, DigitTable};
use crate::lookup2::{lookup2, lookup2_spec};

verus! {

broadcast use vstd::std_specs::hash::group_hash_axioms;

/// The length of the identifier prefix.
pub const PREFIX_LEN: usize = 12;

/// The seed with which identifiers are hashed.
pub const SEED: u32 = 0;

/// The bytes of the identifier prefix, `Global.Text.`.
pub open spec fn prefix() -> Seq<u8> {
    seq![71u8, 108u8, 111u8, 98u8, 97u8, 108u8, 46u8, 84u8, 101u8, 120u8, 116u8, 46u8]
}

/// The identifier of candidate `id`: the prefix, then the decimal digits of `id`.
pub open spec fn key_of(id: int) -> Seq<u8> {
    prefix() + decimal(id as nat)
}

/// The digest of the identifier of candidate `id`.
pub open spec fn digest_of(id: int) -> u32 {
    lookup2_spec(key_of(id), SEED)
}

/// Whether some candidate in `[start, end)` has digest `h`.
pub open spec fn seen(start: int, end: int, h: u32) -> bool {
    exists|j: int| start <= j < end && #[trigger] digest_of(j) == h
}

/// The digests of the candidates in `[start, end)`.
pub open spec fn digests_between(start: int, end: int) -> Set<u32> {
    Set::new(|h: u32| seen(start, end, h))
}

/// The results of a search of `[start, end)` in `table`: each key of `table`
/// paired with its text and with the first candidate of the range whose digest
/// it is, in ascending order of candidate. A key that no candidate hits gives
/// nothing.
pub open spec fn first_matches(table: Map<u32, String>, start: int, end: int) -> Seq<
    (u32, String),
>
    decreases end - start,
{
    if end <= start {
        seq![]
    } else {
        let prev = first_matches(table, start, end - 1);
        let h = digest_of(end - 1);
        if table.contains_key(h) && !seen(start, end - 1, h) {
            prev.push(((end - 1) as u32, table[h]))
        } else {
            prev
        }
    }
}

/// A reusable buffer that holds the identifier of one candidate at a time.
pub struct KeyBuilder {
    key: [u8; 32],
    digits: [u8; 16],
    table: DigitTable,
}

impl KeyBuilder {
    /// The buffer starts with the prefix, and the digit table is complete.
    pub closed spec fn wf(&self) -> bool {
        &&& self.table.wf()
        &&& self.key@.subrange(0, PREFIX_LEN as int) == prefix()
    }

    /// The bytes of the key buffer.
    pub closed spec fn bytes(&self) -> Seq<u8> {
        self.key@
    }

    /// A builder whose buffer holds the prefix.
    pub fn new() -> (kb: KeyBuilder)
        ensures
            kb.wf(),
    {
        let key: [u8; 32] = [
            71u8,
            108u8,
            111u8,
            98u8,
            97u8,
            108u8,
            46u8,
            84u8,
            101u8,
            120u8,
            116u8,
            46u8,
            0u8,
            0u8,
            0u8,
            0u8,
            0u8,
            0u8,
            0u8,
            0u8,
            0u8,
            0u8,
            0u8,
            0u8,
            0u8,
            0u8,
            0u8,
            0u8,
            0u8,
            0u8,
            0u8,
            0u8,
        ];
        let kb = KeyBuilder { key, digits: [0u8; 16], table: DigitTable::new() };
        assert(kb.key@.subrange(0, PREFIX_LEN as int) =~= prefix());
        kb
    }

    /// Writes the identifier of `id` to the buffer and returns its length.
    pub fn build(&mut self, id: u32) -> (n: usize)
        requires
            old(self).wf(),
        ensures
            final(self).wf(),
            n == key_of(id as int).len(),
            PREFIX_LEN < n <= 32,
            final(self).bytes().subrange(0, n as int) == key_of(id as int),
    {
        let count = build_digits(&self.table, &mut self.digits, id);
        let ghost before = self.key@;
        let mut i: usize = 0;
        while i < count
            invariant
                1 <= count <= 10,
                count == decimal(id as nat).len(),
                self.digits@.subrange(0, count as int) == decimal(id as nat),
                self.table.wf(),
                i <= count,
                before.subrange(0, PREFIX_LEN as int) == prefix(),
                forall|j: int| 0 <= j < PREFIX_LEN ==> self.key@[j] == before[j],
                forall|j: int| 0 <= j < i ==> self.key@[PREFIX_LEN + j] == self.digits@[j],
            decreases count - i,
        {
            self.key[PREFIX_LEN + i] = self.digits[i];
            i = i + 1;
        }
        let n = PREFIX_LEN + count;
        assert(self.key@.subrange(0, PREFIX_LEN as int) =~= prefix());
        assert(self.key@.subrange(0, n as int) =~= key_of(id as int));
        n
    }

    /// The digest of the identifier of `id`.
    pub fn digest(&mut self, id: u32) -> (r: u32)
        requires
            old(self).wf(),
        ensures
            final(self).wf(),
            r == digest_of(id as int),
    {
        let n = self.build(id);
        let key = vstd::slice::slice_subrange(self.key.as_slice(), 0, n);
        lookup2(key, SEED)
    }

    /// The key buffer, of which `build` makes the first bytes meaningful.
    pub fn key(&self) -> (r: &[u8])
        ensures
            r@ == self.bytes(),
    {
        self.key.as_slice()
    }
}

/// One more candidate adds its digest to those of the range.
proof fn lemma_digests_next(start: int, id: int)
    requires
        start <= id,
    ensures
        digests_between(start, id + 1) =~= digests_between(start, id).insert(digest_of(id)),
{
    assert forall|h: u32| #[trigger]
        digests_between(start, id + 1).contains(h) <==> digests_between(start, id).contains(h)
            || h == digest_of(id) by {
        if seen(start, id + 1, h) && h != digest_of(id) {
            let j = choose|j: int| start <= j < id + 1 && #[trigger] digest_of(j) == h;
            assert(start <= j < id);
        }
        if h == digest_of(id) {
            assert(seen(start, id + 1, h));
        }
        if seen(start, id, h) {
            let j = choose|j: int| start <= j < id && #[trigger] digest_of(j) == h;
            assert(start <= j < id + 1);
        }
    }
}

/// Every key of `table` hit by a candidate of `[range_start, range_end)`,
/// paired with its text and with the first candidate that hits it, in
/// ascending order of candidate. The table is only read; the keys already
/// matched are kept in a set of their own, and the whole range is scanned.
pub fn brute_force(table: &HashMap<u32, String>, range_start: u32, range_end: u32) -> (r: Vec<
    (u32, String),
>)
    ensures
        r@ == first_matches(table@, range_start as int, range_end as int),
{
    let mut results: Vec<(u32, String)> = Vec::new();
    let mut builder = KeyBuilder::new();
    if range_end <= range_start {
        return results;
    }
    let mut found: HashSet<u32> = HashSet::new();
    let mut id: u32 = range_start;
    assert(found@ =~= table@.dom().intersect(
        digests_between(range_start as int, range_start as int),
    ));
    while id < range_end
        invariant
            builder.wf(),
            range_start <= id <= range_end,
            found@ == table@.dom().intersect(digests_between(range_start as int, id as int)),
            results@ == first_matches(table@, range_start as int, id as int),
        decreases range_end - id,
    {
        let h = builder.digest(id);
        proof {
            lemma_digests_next(range_start as int, id as int);
        }
        match table.get(&h) {
            Some(text) => {
                if !found.contains(&h) {
                    results.push((id, text.clone()));
                }
                found.insert(h);
            },
            None => {},
        }
        assert(found@ =~= table@.dom().intersect(
            digests_between(range_start as int, id as int + 1),
        ));
        id = id + 1;
    }
    results
}

/// Removing the digest of one more candidate from the table's keys.
proof fn lemma_remove_next(orig: Map<u32, String>, start: int, id: int)
    requires
        start <= id,
    ensures
        orig.remove_keys(digests_between(start, id)).remove(digest_of(id)) =~= orig.remove_keys(
            digests_between(start, id + 1),
        ),
{
    lemma_digests_next(start, id);
}

/// Once every key of the table has been hit, later candidates add nothing to
/// the results: stopping there finds what the whole scan finds.
pub proof fn lemma_first_matches_saturated(table: Map<u32, String>, start: int, mid: int, end: int)
    requires
        start <= mid <= end,
        forall|h: u32| table.contains_key(h) ==> seen(start, mid, h),
    ensures
        first_matches(table, start, end) == first_matches(table, start, mid),
    decreases end - mid,
{
    if end > mid {
        lemma_first_matches_saturated(table, start, mid, end - 1);
        let h = digest_of(end - 1);
        if table.contains_key(h) {
            let j = choose|j: int| start <= j < mid && #[trigger] digest_of(j) == h;
            assert(start <= j < end - 1);
        }
    }
}

/// The same results as `brute_force`, found by consuming the table: a matched
/// entry leaves it, and the scan stops as soon as it is empty.
pub fn brute_force_until_found(table: HashMap<u32, String>, range_start: u32, range_end: u32) -> (r:
    Vec<(u32, String)>)
    ensures
        r@ == first_matches(table@, range_start as int, range_end as int),
{
    let ghost orig = table@;
    let mut unmatched = table;
    let mut results: Vec<(u32, String)> = Vec::new();
    let mut builder = KeyBuilder::new();
    if range_end <= range_start {
        return results;
    }
    let mut id: u32 = range_start;
    assert(orig.remove_keys(digests_between(range_start as int, range_start as int)) =~= orig);
    while id < range_end
        invariant
            builder.wf(),
            table@ == orig,
            range_start <= id <= range_end,
            unmatched@ == orig.remove_keys(digests_between(range_start as int, id as int)),
            results@ == first_matches(orig, range_start as int, id as int),
        decreases range_end - id,
    {
        if unmatched.is_empty() {
            proof {
                assert forall|h: u32| orig.contains_key(h) implies seen(
                    range_start as int,
                    id as int,
                    h,
                ) by {
                    assert(!unmatched@.contains_key(h));
                }
                lemma_first_matches_saturated(
                    orig,
                    range_start as int,
                    id as int,
                    range_end as int,
                );
            }
            return results;
        }
        let h = builder.digest(id);
        proof {
            lemma_remove_next(orig, range_start as int, id as int);
        }
        match unmatched.remove(&h) {
            Some(text) => {
                results.push((id, text));
            },
            None => {
                assert(unmatched@ =~= orig.remove_keys(
                    digests_between(range_start as int, id as int + 1),
                ));
            },
        }
        id = id + 1;
    }
    results
}


/// Round trip: a candidate of the range whose digest is a key of the table,
/// and the first of the range to have that digest, is reported with the key's
/// text.
pub proof fn lemma_round_trip(table: Map<u32, String>, start: int, end: int, i: int)
    requires
        start <= i < end,
        table.contains_key(digest_of(i)),
        !seen(start, i, digest_of(i)),
    ensures
        first_matches(table, start, end).contains((i as u32, table[digest_of(i)])),
    decreases end - i,
{
    let f = first_matches(table, start, end);
    if i == end - 1 {
        assert(f[f.len() - 1] == (i as u32, table[digest_of(i)]));
    } else {
        lemma_round_trip(table, start, end - 1, i);
        let pf = first_matches(table, start, end - 1);
        let k = choose|k: int| 0 <= k < pf.len() && pf[k] == (i as u32, table[digest_of(i)]);
        assert(f[k] == pf[k]);
    }
}

/// Each key of the table gives at most one result: no two results share a
/// digest.
pub proof fn lemma_one_result_per_key(table: Map<u32, String>, start: int, end: int)
    requires
        0 <= start,
        end <= u32::MAX as int + 1,
    ensures
        forall|a: int, b: int|
            0 <= a < b < first_matches(table, start, end).len() ==> digest_of(
                (#[trigger] first_matches(table, start, end)[a]).0 as int,
            ) != digest_of((#[trigger] first_matches(table, start, end)[b]).0 as int),
    decreases end - start,
{
    if end > start {
        lemma_one_result_per_key(table, start, end - 1);
        lemma_ascending(table, start, end - 1);
        assert(((end - 1) as u32) as int == end - 1);
        let f = first_matches(table, start, end);
        let pf = first_matches(table, start, end - 1);
        assert forall|a: int, b: int| 0 <= a < b < f.len() implies digest_of(
            (#[trigger] f[a]).0 as int,
        ) != digest_of((#[trigger] f[b]).0 as int) by {
            assert(f[a] == pf[a]);
            if b < pf.len() {
                assert(f[b] == pf[b]);
            } else {
                let j = pf[a].0 as int;
                assert(start <= j < end - 1);
                if digest_of(j) == digest_of(end - 1) {
                    assert(seen(start, end - 1, digest_of(end - 1)));
                }
            }
        }
    }
}

/// The results list candidates of the range only, strictly ascending, so no
/// candidate twice.
pub proof fn lemma_ascending(table: Map<u32, String>, start: int, end: int)
    requires
        0 <= start,
        end <= u32::MAX as int + 1,
    ensures
        forall|a: int, b: int|
            0 <= a < b < first_matches(table, start, end).len() ==> (#[trigger] first_matches(
                table,
                start,
                end,
            )[a]).0 < (#[trigger] first_matches(table, start, end)[b]).0,
        forall|a: int|
            0 <= a < first_matches(table, start, end).len() ==> start <= (
            #[trigger] first_matches(table, start, end)[a]).0 < end,
    decreases end - start,
{
    if end > start {
        lemma_ascending(table, start, end - 1);
        assert(((end - 1) as u32) as int == end - 1);
        let f = first_matches(table, start, end);
        let pf = first_matches(table, start, end - 1);
        assert forall|a: int| 0 <= a < pf.len() implies #[trigger] f[a] == pf[a] by {}
        assert forall|a: int| 0 <= a < f.len() implies start <= (#[trigger] f[a]).0 < end by {
            if a < pf.len() {
                assert(f[a] == pf[a]);
            }
        }
        assert forall|a: int, b: int| 0 <= a < b < f.len() implies (#[trigger] f[a]).0 < (
        #[trigger] f[b]).0 by {
            assert(f[a] == pf[a]);
            if b < pf.len() {
                assert(f[b] == pf[b]);
            }
        }
    }
}

/// An empty table, or an empty range, gives no result.
pub proof fn lemma_empty_input(table: Map<u32, String>, start: int, end: int)
    requires
        table.is_empty() || end <= start,
    ensures
        first_matches(table, start, end) == Seq::<(u32, String)>::empty(),
    decreases end - start,
{
    if end > start {
        lemma_empty_input(table, start, end - 1);
        assert(!table.contains_key(digest_of(end - 1)));
    }
}

} // verus!
