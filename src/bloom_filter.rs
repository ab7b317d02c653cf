//! The filter: sizing, the two keyed hashes, and the double-hashing scheme
//! that turns them into one bit index per hash round.
use crate::bitvec::{byte_count, lemma_set_commute, lemma_set_idempotent, lemma_set_then_get, table_bit, table_set, BitVec};
use siphasher::sip::SipHasher24;
use std::hash::{Hash, Hasher};
use vstd::prelude::*;

verus! {

/// Base of the key material of the two hashers.
pub const KEY: u64 = 42;

/// What SipHash-2-4 keyed with `(k0, k1)` gives for the text `s`, fed as its
/// UTF-8 bytes followed by the byte `0xff` (the way `str` feeds a hasher).
pub uninterp spec fn sip24_str(k0: u64, k1: u64, s: Seq<char>) -> u64;

/// Relies on siphasher's `SipHasher24::new_with_keys` and its `Hasher` impl,
/// fed through `str`'s `Hash` impl (the UTF-8 bytes, then `0xff`): the result
/// depends on the keys and the text alone.
#[verifier::external_body]
fn sip_hash(k0: u64, k1: u64, key: &str) -> (r: u64)
    ensures
        r == sip24_str(k0, k1, key@),
{
    let mut hasher = SipHasher24::new_with_keys(k0, k1);
    key.hash(&mut hasher);
    hasher.finish()
}

/// Raw index of round `i`: the first hash, the second hash, then
/// `h1 + i * h2` (wrapping) reduced modulo the table length.
pub open spec fn derive_index_spec(h1: u64, h2: u64, i: u32, table_len: u64) -> u64 {
    if i == 0 {
        h1
    } else if i == 1 {
        h2
    } else {
        h1.wrapping_add((i as u64).wrapping_mul(h2)) % table_len
    }
}

/// Raw index of round `i` from the two base hashes (double hashing).
pub fn derive_index(h1: u64, h2: u64, i: u32, table_len: u64) -> (r: u64)
    requires
        table_len > 0,
    ensures
        r == derive_index_spec(h1, h2, i, table_len),
{
    if i == 0 {
        h1
    } else if i == 1 {
        h2
    } else {
        h1.wrapping_add((i as u64).wrapping_mul(h2)) % table_len
    }
}

/// The table after each index of `s` is set in turn.
pub open spec fn insert_all(t: Seq<u8>, s: Seq<int>) -> Seq<u8>
    decreases s.len(),
{
    if s.len() == 0 {
        t
    } else {
        table_set(insert_all(t, s.drop_last()), s.last())
    }
}

/// Every index of `s` is set in `t`.
pub open spec fn all_set(t: Seq<u8>, s: Seq<int>) -> bool {
    forall|k: int| 0 <= k < s.len() ==> table_bit(t, #[trigger] s[k])
}

/// Every index of `s` lies in a table of `t.len()` bytes.
pub open spec fn in_table(t: Seq<u8>, s: Seq<int>) -> bool {
    forall|k: int| 0 <= k < s.len() ==> 0 <= #[trigger] s[k] < 8 * t.len()
}

/// What a lookup does next: read one more bit, or answer.
#[derive(Debug, Clone, Copy, PartialEq, Eq, Structural)]
pub enum Lookup {
    /// Read bit `index`, stored in the byte at offset `byte`.
    Read { index: usize, byte: u64 },
    /// Whether the key may be in the set.
    Answer(bool),
}

pub struct BloomFilter {
    bitarray: BitVec,
    n_hashes: u8,
    n_items: usize,
    mem_size: usize,
    keys: [u64; 4],
}

impl BloomFilter {
    /// Number of bits in the table.
    pub closed spec fn table_len(&self) -> nat {
        self.bitarray.size()
    }

    /// Number of hash rounds per key.
    pub closed spec fn hash_count(&self) -> nat {
        self.n_hashes as nat
    }

    /// Key material of the two hashers.
    pub closed spec fn key_material(&self) -> Seq<u64> {
        self.keys@
    }

    /// Capacity the table was sized for.
    pub closed spec fn items_spec(&self) -> nat {
        self.n_items as nat
    }

    /// Bits per item.
    pub closed spec fn mem_size_spec(&self) -> nat {
        self.mem_size as nat
    }

    pub closed spec fn wf(&self) -> bool {
        &&& self.bitarray.size() > 0
        &&& self.bitarray.size() <= usize::MAX
        &&& self.bitarray.size() == self.mem_size * self.n_items
        &&& self.n_hashes >= 1
    }

    /// First base hash of `key`.
    pub open spec fn hash1(&self, key: Seq<char>) -> u64 {
        sip24_str(self.key_material()[0], self.key_material()[1], key)
    }

    /// Second base hash of `key`.
    pub open spec fn hash2(&self, key: Seq<char>) -> u64 {
        sip24_str(self.key_material()[2], self.key_material()[3], key)
    }

    /// Raw index of round `i` for `key`.
    pub open spec fn raw_index(&self, key: Seq<char>, i: u32) -> u64 {
        derive_index_spec(self.hash1(key), self.hash2(key), i, self.table_len() as u64)
    }

    /// Bit that round `i` sets for `key`.
    pub open spec fn slot(&self, key: Seq<char>, i: int) -> int {
        ((self.raw_index(key, i as u32) as usize) % (self.table_len() as usize)) as int
    }

    /// The bits that `add` sets for `key` and `contains` reads, in order.
    pub open spec fn slot_seq(&self, key: Seq<char>) -> Seq<int> {
        Seq::new(self.hash_count(), |i: int| self.slot(key, i))
    }

    /// A filter over a table of `mem_size * n_items` bits, with `n_hashes`
    /// rounds per key and the fixed key material `KEY + 1 ..= KEY + 4`.
    pub fn new(n_items: usize, n_hashes: u8, mem_size: usize) -> (r: BloomFilter)
        requires
            n_items >= 1,
            mem_size >= 1,
            n_hashes >= 1,
            n_items * mem_size <= usize::MAX,
        ensures
            r.wf(),
            r.table_len() == mem_size * n_items,
            r.hash_count() == n_hashes,
            r.key_material() == seq![(KEY + 1) as u64, (KEY + 2) as u64, (KEY + 3) as u64, (KEY + 4) as u64],
            r.items_spec() == n_items,
            r.mem_size_spec() == mem_size,
    {
        proof {
            vstd::arithmetic::mul::lemma_mul_increases(mem_size as int, n_items as int);
        }
        let bitarray = BitVec::new(mem_size * n_items);
        let keys: [u64; 4] = [KEY + 1, KEY + 2, KEY + 3, KEY + 4];
        let r = BloomFilter { bitarray, n_hashes, n_items, mem_size, keys };
        assert(r.keys@ =~= seq![(KEY + 1) as u64, (KEY + 2) as u64, (KEY + 3) as u64, (KEY + 4) as u64]);
        r
    }

    pub fn n_hashes(&self) -> (r: u8)
        ensures
            r == self.hash_count(),
    {
        self.n_hashes
    }

    pub fn n_items(&self) -> (r: usize)
        ensures
            r == self.items_spec(),
    {
        self.n_items
    }

    pub fn mem_size(&self) -> (r: usize)
        ensures
            r == self.mem_size_spec(),
    {
        self.mem_size
    }

    /// The bit table's shape.
    pub fn bitarray(&self) -> (r: &BitVec)
        ensures
            r.size() == self.table_len(),
    {
        &self.bitarray
    }

    /// Raw index of round `i` for `key`; `add` and `contains` reduce it
    /// modulo the table length.
    pub fn get_hash(&self, key: &str, i: u32) -> (r: usize)
        requires
            self.wf(),
        ensures
            r == self.raw_index(key@, i) as usize,
            i >= 2 ==> r < self.table_len(),
            i >= 2 ==> r as u64 == self.raw_index(key@, i),
    {
        let h1 = sip_hash(self.keys[0], self.keys[1], key);
        let h2 = sip_hash(self.keys[2], self.keys[3], key);
        derive_index(h1, h2, i, self.bitarray.len() as u64) as usize
    }

    /// The bits that adding `key` sets, and that `contains` reads, one per
    /// round and in round order.
    pub fn slots(&self, key: &str) -> (r: Vec<usize>)
        requires
            self.wf(),
        ensures
            r@.len() == self.hash_count(),
            forall|k: int| 0 <= k < r.len() ==> r[k] == self.slot(key@, k),
            forall|k: int| 0 <= k < r.len() ==> #[trigger] r[k] < self.table_len(),
    {
        let len = self.bitarray.len();
        let h1 = sip_hash(self.keys[0], self.keys[1], key);
        let h2 = sip_hash(self.keys[2], self.keys[3], key);
        let mut r: Vec<usize> = Vec::new();
        let mut i: u8 = 0;
        while i < self.n_hashes
            invariant
                self.wf(),
                len == self.table_len(),
                h1 == self.hash1(key@),
                h2 == self.hash2(key@),
                i <= self.n_hashes,
                r@.len() == i,
                forall|k: int| 0 <= k < r.len() ==> r[k] == self.slot(key@, k),
                forall|k: int| 0 <= k < r.len() ==> #[trigger] r[k] < self.table_len(),
            decreases self.n_hashes - i,
        {
            let raw = derive_index(h1, h2, i as u32, len as u64) as usize;
            r.push(raw % len);
            i = i + 1;
        }
        r
    }

    /// One step of a membership test for `key`. `seen` holds the bits read
    /// so far, one per round in round order. The answer is `false` as soon as
    /// one of them is unset, `true` once every round's bit has been read
    /// set; until then the next round's bit is to be read.
    pub fn contains(&self, key: &str, seen: &Vec<bool>) -> (r: Lookup)
        requires
            self.wf(),
        ensures
            (exists|k: int| 0 <= k < seen.len() && !#[trigger] seen[k]) ==> r == Lookup::Answer(false),
            (forall|k: int| 0 <= k < seen.len() ==> #[trigger] seen[k]) ==> (if seen.len()
                >= self.hash_count() {
                r == Lookup::Answer(true)
            } else {
                r == (Lookup::Read {
                    index: self.slot(key@, seen.len() as int) as usize,
                    byte: (self.slot(key@, seen.len() as int) / 8) as u64,
                })
            }),
    {
        let mut k: usize = 0;
        while k < seen.len()
            invariant
                k <= seen.len(),
                forall|j: int| 0 <= j < k ==> #[trigger] seen[j],
            decreases seen.len() - k,
        {
            if !seen[k] {
                return Lookup::Answer(false);
            }
            k = k + 1;
        }
        if seen.len() >= self.n_hashes as usize {
            return Lookup::Answer(true);
        }
        let round = seen.len() as u32;
        let index = self.get_hash(key, round) % self.bitarray.len();
        Lookup::Read { index, byte: (index / 8) as u64 }
    }

    /// Two filters with the same table length and key material derive the
    /// same raw index for every key and round.
    pub proof fn lemma_deterministic_indexing(a: &BloomFilter, b: &BloomFilter, key: Seq<char>, i: u32)
        requires
            a.table_len() == b.table_len(),
            a.key_material() == b.key_material(),
        ensures
            a.raw_index(key, i) == b.raw_index(key, i),
            a.slot(key, i as int) == b.slot(key, i as int),
    {
    }

    /// Every bit that `add` touches lies inside the table.
    pub proof fn lemma_slots_in_table(&self, key: Seq<char>, t: Seq<u8>)
        requires
            self.wf(),
            t.len() == byte_count(self.table_len()),
        ensures
            in_table(t, self.slot_seq(key)),
    {
        assert forall|k: int| 0 <= k < self.slot_seq(key).len() implies 0 <= #[trigger] self.slot_seq(key)[k] < 8 * t.len() by {
            assert(self.slot_seq(key)[k] == self.slot(key, k));
        }
    }

    /// No false negatives: once every bit that adding `key` sets has been
    /// set, in a table of the filter's size, all of them read as set, also
    /// after any further bits are set.
    pub proof fn lemma_no_false_negatives(&self, key: Seq<char>, t: Seq<u8>, later: Seq<int>)
        requires
            self.wf(),
            t.len() == byte_count(self.table_len()),
            in_table(t, later),
        ensures
            all_set(insert_all(insert_all(t, self.slot_seq(key)), later), self.slot_seq(key)),
    {
        self.lemma_slots_in_table(key, t);
        lemma_insert_sets(t, self.slot_seq(key));
        let u = insert_all(t, self.slot_seq(key));
        lemma_insert_len(t, self.slot_seq(key));
        lemma_insert_keeps(u, later, self.slot_seq(key));
    }

    /// A lookup for `key` fed the bits of a table in which `key` was added,
    /// whatever was set afterwards, sees only set bits: `contains` then never
    /// answers `false`.
    pub proof fn lemma_lookup_after_add(&self, key: Seq<char>, t: Seq<u8>, later: Seq<int>, seen: Seq<bool>)
        requires
            self.wf(),
            t.len() == byte_count(self.table_len()),
            in_table(t, later),
            seen.len() <= self.hash_count(),
            forall|k: int|
                0 <= k < seen.len() ==> #[trigger] seen[k] == table_bit(
                    insert_all(insert_all(t, self.slot_seq(key)), later),
                    self.slot(key, k),
                ),
        ensures
            forall|k: int| 0 <= k < seen.len() ==> #[trigger] seen[k],
    {
        self.lemma_no_false_negatives(key, t, later);
        assert forall|k: int| 0 <= k < seen.len() implies #[trigger] seen[k] by {
            assert(self.slot_seq(key)[k] == self.slot(key, k));
        }
    }

    /// Adding two keys leaves the same table whichever is added first.
    pub proof fn lemma_add_order(&self, a: Seq<char>, b: Seq<char>, t: Seq<u8>)
        requires
            self.wf(),
            t.len() == byte_count(self.table_len()),
        ensures
            insert_all(insert_all(t, self.slot_seq(a)), self.slot_seq(b)) == insert_all(
                insert_all(t, self.slot_seq(b)),
                self.slot_seq(a),
            ),
    {
        self.lemma_slots_in_table(a, t);
        self.lemma_slots_in_table(b, t);
        lemma_insert_commute(t, self.slot_seq(a), self.slot_seq(b));
    }

    /// Adding a key twice leaves the table as adding it once does.
    pub proof fn lemma_add_idempotent(&self, key: Seq<char>, t: Seq<u8>)
        requires
            self.wf(),
            t.len() == byte_count(self.table_len()),
        ensures
            insert_all(insert_all(t, self.slot_seq(key)), self.slot_seq(key)) == insert_all(t, self.slot_seq(key)),
    {
        self.lemma_slots_in_table(key, t);
        lemma_insert_sets(t, self.slot_seq(key));
        lemma_insert_len(t, self.slot_seq(key));
        lemma_insert_set_noop(insert_all(t, self.slot_seq(key)), self.slot_seq(key));
    }
}

/// Setting bits keeps the table's length.
pub proof fn lemma_insert_len(t: Seq<u8>, s: Seq<int>)
    requires
        in_table(t, s),
    ensures
        insert_all(t, s).len() == t.len(),
    decreases s.len(),
{
    if s.len() > 0 {
        assert(in_table(t, s.drop_last()));
        lemma_insert_len(t, s.drop_last());
    }
}

/// Setting bits never clears one: what was set in `t`, and every bit of `s`,
/// reads as set afterwards.
pub proof fn lemma_insert_keeps(t: Seq<u8>, s: Seq<int>, kept: Seq<int>)
    requires
        in_table(t, s),
        in_table(t, kept),
        all_set(t, kept),
    ensures
        all_set(insert_all(t, s), kept),
    decreases s.len(),
{
    if s.len() > 0 {
        assert(in_table(t, s.drop_last()));
        lemma_insert_keeps(t, s.drop_last(), kept);
        lemma_insert_len(t, s.drop_last());
        let u = insert_all(t, s.drop_last());
        assert forall|k: int| 0 <= k < kept.len() implies table_bit(insert_all(t, s), #[trigger] kept[k]) by {
            lemma_set_then_get(u, s.last(), kept[k]);
        }
    }
}

/// Setting bit `i` before or after the bits of `s` gives the same table.
pub proof fn lemma_insert_commute_one(t: Seq<u8>, i: int, s: Seq<int>)
    requires
        0 <= i < 8 * t.len(),
        in_table(t, s),
    ensures
        insert_all(table_set(t, i), s) == table_set(insert_all(t, s), i),
    decreases s.len(),
{
    if s.len() > 0 {
        let p = s.drop_last();
        assert(in_table(t, p));
        assert(in_table(table_set(t, i), p));
        lemma_insert_commute_one(t, i, p);
        lemma_insert_len(t, p);
        lemma_set_commute(insert_all(t, p), i, s.last());
    }
}

/// Setting the bits of `s1` and those of `s2` gives the same table in either
/// order.
pub proof fn lemma_insert_commute(t: Seq<u8>, s1: Seq<int>, s2: Seq<int>)
    requires
        in_table(t, s1),
        in_table(t, s2),
    ensures
        insert_all(insert_all(t, s1), s2) == insert_all(insert_all(t, s2), s1),
    decreases s2.len(),
{
    if s2.len() > 0 {
        let p = s2.drop_last();
        assert(in_table(t, p));
        lemma_insert_commute(t, s1, p);
        lemma_insert_len(t, p);
        lemma_insert_commute_one(insert_all(t, p), s2.last(), s1);
    }
}

/// After the bits of `s` are set, each of them reads as set.
pub proof fn lemma_insert_sets(t: Seq<u8>, s: Seq<int>)
    requires
        in_table(t, s),
    ensures
        all_set(insert_all(t, s), s),
    decreases s.len(),
{
    if s.len() > 0 {
        let p = s.drop_last();
        assert(in_table(t, p));
        lemma_insert_sets(t, p);
        lemma_insert_len(t, p);
        let u = insert_all(t, p);
        assert forall|k: int| 0 <= k < s.len() implies table_bit(insert_all(t, s), #[trigger] s[k]) by {
            lemma_set_then_get(u, s.last(), s[k]);
            if k < s.len() - 1 {
                assert(p[k] == s[k]);
            }
        }
    }
}

/// Setting bits that are all set already changes nothing.
pub proof fn lemma_insert_set_noop(t: Seq<u8>, s: Seq<int>)
    requires
        in_table(t, s),
        all_set(t, s),
    ensures
        insert_all(t, s) == t,
    decreases s.len(),
{
    if s.len() > 0 {
        let p = s.drop_last();
        assert(in_table(t, p));
        assert(all_set(t, p)) by {
            assert forall|k: int| 0 <= k < p.len() implies table_bit(t, #[trigger] p[k]) by {
                assert(p[k] == s[k]);
            }
        }
        lemma_insert_set_noop(t, p);
        assert(table_bit(t, s[s.len() - 1]));
        lemma_set_idempotent(t, s.last());
    }
}

} // verus!
