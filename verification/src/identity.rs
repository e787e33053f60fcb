use vstd::prelude::*;
use std::marker::PhantomData;

verus! {

/// Number of distinct flags a key can hold.
pub const ID_BIT_LENGTH: u64 = 64;

/// Is bit `i` of `x` set?
pub open spec fn bit_set(x: u64, i: int) -> bool {
    0 <= i < 64 && (x >> (i as u64)) & 1u64 == 1u64
}

/// The single-bit mask of flag `i`.
pub open spec fn flag_mask(i: int) -> u64 {
    1u64 << (i as u64)
}

/// The indices of the bits set in `x` below `n`, in ascending order.
pub open spec fn indices_below(x: u64, n: nat) -> Seq<nat>
    decreases n,
{
    if n == 0 {
        Seq::empty()
    } else {
        let prev = indices_below(x, (n - 1) as nat);
        if bit_set(x, n - 1) {
            prev.push((n - 1) as nat)
        } else {
            prev
        }
    }
}

/// The indices of all the bits set in `x`, in ascending order.
pub open spec fn indices_of(x: u64) -> Seq<nat> {
    indices_below(x, 64)
}

pub proof fn lemma_bit_or(a: u64, b: u64, i: int)
    ensures
        bit_set(a | b, i) <==> (bit_set(a, i) || bit_set(b, i)),
{
    if 0 <= i < 64 {
        let s = i as u64;
        assert(((a | b) >> s) & 1u64 == 1u64 <==> ((a >> s) & 1u64 == 1u64 || (b >> s) & 1u64
            == 1u64)) by (bit_vector);
    }
}

pub proof fn lemma_bit_and_not(a: u64, b: u64, i: int)
    ensures
        bit_set(a & !b, i) <==> (bit_set(a, i) && !bit_set(b, i)),
{
    if 0 <= i < 64 {
        let s = i as u64;
        assert(((a & !b) >> s) & 1u64 == 1u64 <==> ((a >> s) & 1u64 == 1u64 && (b >> s) & 1u64
            != 1u64)) by (bit_vector);
    }
}

pub proof fn lemma_bit_and(a: u64, b: u64, i: int)
    ensures
        bit_set(a & b, i) <==> (bit_set(a, i) && bit_set(b, i)),
{
    if 0 <= i < 64 {
        let s = i as u64;
        assert(((a & b) >> s) & 1u64 == 1u64 <==> ((a >> s) & 1u64 == 1u64 && (b >> s) & 1u64
            == 1u64)) by (bit_vector);
    }
}

pub proof fn lemma_flag_bits(k: int, i: int)
    requires
        0 <= k < 64,
    ensures
        bit_set(flag_mask(k), i) <==> i == k,
{
    if 0 <= i < 64 {
        let s = i as u64;
        let t = k as u64;
        assert(t < 64 ==> (((1u64 << t) >> s) & 1u64 == 1u64 <==> s == t)) by (bit_vector);
    }
}

pub proof fn lemma_zero_bits(i: int)
    ensures
        !bit_set(0u64, i),
{
    if 0 <= i < 64 {
        let s = i as u64;
        assert((0u64 >> s) & 1u64 != 1u64) by (bit_vector);
    }
}

/// Two words with the same bits are equal.
pub proof fn lemma_bits_ext(a: u64, b: u64)
    requires
        forall|i: int| 0 <= i < 64 ==> (bit_set(a, i) <==> bit_set(b, i)),
    ensures
        a == b,
{
    if a != b {
        let d = a ^ b;
        assert(d != 0) by (bit_vector)
            requires
                a != b,
                d == a ^ b,
        ;
        vstd::std_specs::bits::axiom_u64_trailing_zeros(d);
        let t = vstd::std_specs::bits::u64_trailing_zeros(d) as u64;
        assert(t < 64);
        assert((d >> t) & 1u64 == 1u64);
        assert(((a >> t) & 1u64 == 1u64) != ((b >> t) & 1u64 == 1u64)) by (bit_vector)
            requires
                d == a ^ b,
                (d >> t) & 1u64 == 1u64,
        ;
        assert(bit_set(a, t as int) != bit_set(b, t as int));
    }
}

pub proof fn lemma_indices_below_contains(x: u64, n: nat, i: nat)
    requires
        n <= 64,
    ensures
        indices_below(x, n).contains(i) <==> (i < n && bit_set(x, i as int)),
    decreases n,
{
    if n > 0 {
        lemma_indices_below_contains(x, (n - 1) as nat, i);
        let prev = indices_below(x, (n - 1) as nat);
        if bit_set(x, n - 1) {
            assert(prev.push((n - 1) as nat)[prev.len() as int] == (n - 1) as nat);
            if prev.push((n - 1) as nat).contains(i) && i != n - 1 {
                let k = choose|k: int|
                    0 <= k < prev.len() + 1 && #[trigger] prev.push((n - 1) as nat)[k] == i;
                assert(prev[k] == i);
            }
            if prev.contains(i) {
                let k = choose|k: int| 0 <= k < prev.len() && #[trigger] prev[k] == i;
                assert(prev.push((n - 1) as nat)[k] == i);
            }
        }
    }
}

pub proof fn lemma_indices_below_bounded(x: u64, n: nat)
    requires
        n <= 64,
    ensures
        indices_below(x, n).len() <= n,
        forall|k: int|
            0 <= k < indices_below(x, n).len() ==> #[trigger] indices_below(x, n)[k] < n,
        forall|k: int, l: int|
            0 <= k < l < indices_below(x, n).len() ==> indices_below(x, n)[k] < indices_below(
                x,
                n,
            )[l],
    decreases n,
{
    if n > 0 {
        lemma_indices_below_bounded(x, (n - 1) as nat);
    }
}

/// The bits of `union_of(ids)` are exactly the positions listed in `ids`.
pub proof fn lemma_union_of_bits(ids: Seq<nat>, i: int)
    requires
        forall|k: int| 0 <= k < ids.len() ==> #[trigger] ids[k] < 64,
    ensures
        bit_set(union_of(ids), i) <==> (0 <= i && ids.contains(i as nat)),
    decreases ids.len(),
{
    if ids.len() == 0 {
        lemma_zero_bits(i);
    } else {
        let prev = ids.drop_last();
        assert forall|k: int| 0 <= k < prev.len() implies #[trigger] prev[k] < 64 by {
            assert(prev[k] == ids[k]);
        }
        lemma_union_of_bits(prev, i);
        lemma_bit_or(union_of(prev), flag_mask(ids.last() as int), i);
        lemma_flag_bits(ids.last() as int, i);
        assert(ids =~= prev.push(ids.last()));
        if 0 <= i && prev.contains(i as nat) {
            let k = choose|k: int| 0 <= k < prev.len() && #[trigger] prev[k] == i as nat;
            assert(ids[k] == i as nat);
        }
        if 0 <= i && ids.contains(i as nat) && i != ids.last() {
            let k = choose|k: int| 0 <= k < ids.len() && #[trigger] ids[k] == i as nat;
            assert(k != ids.len() - 1);
            assert(prev[k] == i as nat);
        }
    }
}

/// Identifier of an entity.
#[derive(Clone, Copy, Debug, PartialEq, Eq, Structural, Hash, PartialOrd, Ord)]
pub struct EntityId(pub u32);

impl EntityId {
    /// The identifier as a dense index.
    pub fn index(&self) -> (i: usize)
        ensures
            i == self.0,
    {
        self.0 as usize
    }

    /// The raw identifier value.
    pub fn value(&self) -> (v: u32)
        ensures
            v == self.0,
    {
        self.0
    }

    /// The identifier with the bits of a signed value (the bit pattern is kept).
    pub fn from_i32(id: i32) -> (e: EntityId)
        ensures
            e.0 == id as u32,
    {
        EntityId(id as u32)
    }

    /// The identifier's bits read as a signed value.
    pub fn to_i32(&self) -> (v: i32)
        ensures
            v == self.0 as i32,
    {
        self.0 as i32
    }
}

impl From<u32> for EntityId {
    fn from(id: u32) -> (e: EntityId) {
        EntityId(id)
    }
}

impl vstd::std_specs::convert::FromSpecImpl<u32> for EntityId {
    open spec fn obeys_from_spec() -> bool {
        true
    }

    open spec fn from_spec(id: u32) -> EntityId {
        EntityId(id)
    }
}

/// Kinds of flag identifiers: each kind has its own id space.
pub struct ComponentKind;

pub struct SystemKind;

pub struct TopicKind;

/// A unique identifier distinguished by a single bit. There is a limit of `ID_BIT_LENGTH`
/// identifiers per kind, which enables efficient set operations and membership tests on groups
/// of ids.
pub struct FlagId<K> {
    index: u8,
    kind: PhantomData<K>,
}

pub type ComponentId = FlagId<ComponentKind>;

pub type SystemId = FlagId<SystemKind>;

pub type TopicId = FlagId<TopicKind>;

impl<K> View for FlagId<K> {
    type V = nat;

    /// The position of the flag bit.
    closed spec fn view(&self) -> nat {
        self.index as nat
    }
}

impl<K> FlagId<K> {
    #[verifier::type_invariant]
    closed spec fn wf(self) -> bool {
        self.index < 64
    }

    /// Creates the identifier for the `cur_count`-th registered type. Distinct counts give
    /// distinct bits, so there can be at most `ID_BIT_LENGTH` identifiers of one kind.
    pub fn new(cur_count: usize) -> (id: Self)
        requires
            cur_count < ID_BIT_LENGTH,
        ensures
            id@ == cur_count,
    {
        FlagId { index: cur_count as u8, kind: PhantomData }
    }

    /// The bitmask of the identifier.
    pub fn id(&self) -> (mask: u64)
        ensures
            mask == flag_mask(self@ as int),
            self@ < 64,
    {
        proof {
            use_type_invariant(self);
        }
        1u64 << self.index
    }

    /// The position of the identifier's bit, usable as a dense index.
    pub fn indexer(&self) -> (index: usize)
        ensures
            index == self@,
            index < 64,
    {
        proof {
            use_type_invariant(self);
        }
        self.index as usize
    }

    /// Identifiers are equal when their bits are.
    pub fn equals(&self, other: &Self) -> (eq: bool)
        ensures
            eq == (self@ == other@),
    {
        self.index == other.index
    }
}

impl<K> Clone for FlagId<K> {
    fn clone(&self) -> (c: Self)
        ensures
            c@ == self@,
    {
        proof {
            use_type_invariant(self);
        }
        FlagId { index: self.index, kind: PhantomData }
    }
}

impl<K> Copy for FlagId<K> {

}

/// A set of identifiers of one kind, stored as the union of their bits.
pub struct FlagSet<K> {
    bits: u64,
    kind: PhantomData<K>,
}

/// Key of a shard: the set of components its entities have.
pub type ShardKey = FlagSet<ComponentKind>;

/// A set of systems.
pub type BundleKey = FlagSet<SystemKind>;

/// A set of message topics.
pub type TopicBundle = FlagSet<TopicKind>;

/// The union of the bits of the given flag positions.
pub open spec fn union_of(ids: Seq<nat>) -> u64
    decreases ids.len(),
{
    if ids.len() == 0 {
        0u64
    } else {
        union_of(ids.drop_last()) | flag_mask(ids.last() as int)
    }
}

impl<K> View for FlagSet<K> {
    type V = u64;

    closed spec fn view(&self) -> u64 {
        self.bits
    }
}

impl<K> FlagSet<K> {
    /// Does the set hold the flag at position `i`?
    pub open spec fn has(&self, i: int) -> bool {
        bit_set(self@, i)
    }

    /// The flag positions in the set, ascending.
    pub open spec fn members(&self) -> Seq<nat> {
        indices_of(self@)
    }

    /// The empty set.
    pub fn empty() -> (s: Self)
        ensures
            s@ == 0,
            forall|i: int| !s.has(i),
    {
        proof {
            assert forall|i: int| !bit_set(0u64, i) by {
                lemma_zero_bits(i);
            }
        }
        FlagSet { bits: 0, kind: PhantomData }
    }

    /// The set with the given bitmask.
    pub closed spec fn spec_from_bits(bits: u64) -> Self {
        FlagSet { bits, kind: PhantomData }
    }

    /// A set is determined by its bits.
    pub proof fn lemma_from_bits(bits: u64)
        ensures
            Self::spec_from_bits(bits)@ == bits,
            forall|s: Self| s@ == bits ==> s == Self::spec_from_bits(bits),
    {
        assert forall|s: Self| s@ == bits implies s == Self::spec_from_bits(bits) by {
            assert(s.kind == PhantomData::<K>);
        }
    }

    /// The set with the given bitmask.
    pub fn from_bits(bits: u64) -> (s: Self)
        ensures
            s@ == bits,
            s == Self::spec_from_bits(bits),
    {
        FlagSet { bits, kind: PhantomData }
    }

    /// The raw bitmask of the set.
    pub fn bits(&self) -> (b: u64)
        ensures
            b == self@,
    {
        self.bits
    }

    /// Builds the set holding exactly the supplied identifiers.
    pub fn new(keys: &[FlagId<K>]) -> (s: Self)
        ensures
            s@ == union_of(keys@.map_values(|k: FlagId<K>| k@)),
            forall|i: int|
                #![trigger s.has(i)]
                s.has(i) <==> exists|j: int| 0 <= j < keys@.len() && keys@[j]@ == i,
    {
        let ghost ids = keys@.map_values(|k: FlagId<K>| k@);
        let mut acc: u64 = 0;
        let mut j: usize = 0;
        proof {
            assert(ids.take(0) =~= Seq::<nat>::empty());
            assert forall|i: int| !bit_set(0u64, i) by {
                lemma_zero_bits(i);
            }
        }
        while j < keys.len()
            invariant
                j <= keys@.len(),
                ids == keys@.map_values(|k: FlagId<K>| k@),
                acc == union_of(ids.take(j as int)),
                forall|i: int|
                    #![trigger bit_set(acc, i)]
                    bit_set(acc, i) <==> exists|l: int| 0 <= l < j && keys@[l]@ == i,
            decreases keys@.len() - j,
        {
            let m = keys[j].id();
            let ghost prev = acc;
            acc = acc | m;
            proof {
                assert(ids.take(j + 1).drop_last() =~= ids.take(j as int));
                assert(ids.take(j + 1).last() == keys@[j as int]@);
                assert forall|i: int| #![trigger bit_set(acc, i)]
                    bit_set(acc, i) <==> exists|l: int| 0 <= l < j + 1 && keys@[l]@ == i by {
                    lemma_bit_or(prev, m, i);
                    lemma_flag_bits(keys@[j as int]@ as int, i);
                    if bit_set(prev, i) {
                        let l = choose|l: int| 0 <= l < j && keys@[l]@ == i;
                        assert(0 <= l < j + 1 && keys@[l]@ == i);
                    }
                    if exists|l: int| 0 <= l < j + 1 && keys@[l]@ == i {
                        let l = choose|l: int| 0 <= l < j + 1 && keys@[l]@ == i;
                        if l < j {
                            assert(bit_set(prev, i));
                        }
                    }
                }
            }
            j = j + 1;
        }
        proof {
            assert(ids.take(keys@.len() as int) =~= ids);
        }
        FlagSet { bits: acc, kind: PhantomData }
    }

    /// Number of identifiers in the set.
    pub fn key_count(&self) -> (count: u32)
        ensures
            count == self.members().len(),
    {
        let mut count: u32 = 0;
        let mut i: u64 = 0;
        while i < 64
            invariant
                i <= 64,
                count == indices_below(self.bits, i as nat).len(),
                count <= i,
            decreases 64 - i,
        {
            proof {
                lemma_indices_below_bounded(self.bits, (i + 1) as nat);
            }
            if (self.bits >> i) & 1 == 1 {
                count = count + 1;
            }
            i = i + 1;
        }
        count
    }

    /// The identifiers in the set, in ascending order of their bits.
    pub fn decompose(&self) -> (ids: Vec<FlagId<K>>)
        ensures
            ids@.map_values(|k: FlagId<K>| k@) == self.members(),
    {
        let mut out: Vec<FlagId<K>> = Vec::new();
        let mut i: u64 = 0;
        while i < 64
            invariant
                i <= 64,
                out@.map_values(|k: FlagId<K>| k@) == indices_below(self.bits, i as nat),
            decreases 64 - i,
        {
            if (self.bits >> i) & 1 == 1 {
                let ghost prev = out@;
                out.push(FlagId { index: i as u8, kind: PhantomData });
                proof {
                    assert(out@.map_values(|k: FlagId<K>| k@) =~= prev.map_values(
                        |k: FlagId<K>| k@,
                    ).push(i as nat));
                }
            }
            i = i + 1;
        }
        out
    }

    /// Does the set hold `id`?
    pub fn contains(&self, id: &FlagId<K>) -> (b: bool)
        ensures
            b == self.has(id@ as int),
    {
        let m = id.id();
        proof {
            let k = id@ as u64;
            let x = self.bits;
            assert(k < 64 ==> ((x & (1u64 << k)) != 0 <==> (x >> k) & 1u64 == 1u64)) by (bit_vector);
        }
        self.bits & m != 0
    }

    /// The set with `id` added.
    pub fn with(&self, id: &FlagId<K>) -> (s: Self)
        ensures
            s@ == self@ | flag_mask(id@ as int),
            forall|i: int| #![trigger s.has(i)] s.has(i) <==> (self.has(i) || i == id@),
    {
        let m = id.id();
        proof {
            assert forall|i: int| #![trigger bit_set(self.bits | m, i)]
                bit_set(self.bits | m, i) <==> (bit_set(self.bits, i) || i == id@) by {
                lemma_bit_or(self.bits, m, i);
                lemma_flag_bits(id@ as int, i);
            }
        }
        FlagSet { bits: self.bits | m, kind: PhantomData }
    }

    /// The set with `id` removed.
    pub fn without(&self, id: &FlagId<K>) -> (s: Self)
        ensures
            s@ == self@ & !flag_mask(id@ as int),
            forall|i: int| #![trigger s.has(i)] s.has(i) <==> (self.has(i) && i != id@),
    {
        let m = id.id();
        proof {
            assert forall|i: int| #![trigger bit_set(self.bits & !m, i)]
                bit_set(self.bits & !m, i) <==> (bit_set(self.bits, i) && i != id@) by {
                lemma_bit_and_not(self.bits, m, i);
                lemma_flag_bits(id@ as int, i);
            }
        }
        FlagSet { bits: self.bits & !m, kind: PhantomData }
    }

    /// Adds `id` to the set in place.
    pub fn insert(&mut self, id: &FlagId<K>)
        ensures
            final(self)@ == old(self)@ | flag_mask(id@ as int),
            forall|i: int|
                #![trigger final(self).has(i)]
                final(self).has(i) <==> (old(self).has(i) || i == id@),
    {
        *self = self.with(id);
    }

    /// Removes `id` from the set in place.
    pub fn remove(&mut self, id: &FlagId<K>)
        ensures
            final(self)@ == old(self)@ & !flag_mask(id@ as int),
            forall|i: int|
                #![trigger final(self).has(i)]
                final(self).has(i) <==> (old(self).has(i) && i != id@),
    {
        *self = self.without(id);
    }

    /// The union of two sets.
    pub fn union(&self, other: &Self) -> (s: Self)
        ensures
            s@ == self@ | other@,
            forall|i: int| #![trigger s.has(i)] s.has(i) <==> (self.has(i) || other.has(i)),
    {
        proof {
            assert forall|i: int| #![trigger bit_set(self.bits | other.bits, i)]
                bit_set(self.bits | other.bits, i) <==> (bit_set(self.bits, i) || bit_set(other.bits, i)) by {
                lemma_bit_or(self.bits, other.bits, i);
            }
        }
        FlagSet { bits: self.bits | other.bits, kind: PhantomData }
    }

    /// Is every identifier of `self` also in `other`?
    pub fn is_subset_of(&self, other: &Self) -> (b: bool)
        ensures
            b == (forall|i: int| #![trigger self.has(i)] self.has(i) ==> other.has(i)),
    {
        proof {
            assert forall|i: int| #![trigger bit_set(self.bits & other.bits, i)]
                bit_set(self.bits & other.bits, i) <==> (bit_set(self.bits, i) && bit_set(other.bits, i)) by {
                lemma_bit_and(self.bits, other.bits, i);
            }
            if forall|i: int| #![trigger self.has(i)] self.has(i) ==> other.has(i) {
                assert forall|i: int| 0 <= i < 64 implies (bit_set(self.bits & other.bits, i)
                    <==> bit_set(self.bits, i)) by {
                    assert(self.has(i) ==> other.has(i));
                }
                lemma_bits_ext(self.bits & other.bits, self.bits);
            }
        }
        self.bits & other.bits == self.bits
    }

    /// Sets are equal when their bits are.
    pub fn equals(&self, other: &Self) -> (eq: bool)
        ensures
            eq == (self@ == other@),
    {
        self.bits == other.bits
    }
}

/// Decomposing a key into its identifiers and rebuilding a key from them gives the key back.
pub proof fn law_decompose_then_rebuild<K>(key: FlagSet<K>)
    ensures
        union_of(key.members()) == key@,
{
    let ids = key.members();
    lemma_indices_below_bounded(key@, 64);
    assert forall|i: int| 0 <= i < 64 implies (bit_set(union_of(ids), i) <==> bit_set(key@, i)) by {
        lemma_union_of_bits(ids, i);
        lemma_indices_below_contains(key@, 64, i as nat);
    }
    lemma_bits_ext(union_of(ids), key@);
}

/// Removing an identifier after adding it leaves exactly the identifiers that were there
/// before, less that one; adding one that is present changes nothing.
pub proof fn law_insert_remove<K>(key: FlagSet<K>, id: FlagId<K>)
    ensures
        (key@ | flag_mask(id@ as int)) & !flag_mask(id@ as int) == key@ & !flag_mask(id@ as int),
        key.has(id@ as int) ==> (key@ | flag_mask(id@ as int)) == key@,
{
    let a = key@;
    let m = flag_mask(id@ as int);
    assert((a | m) & !m == a & !m) by (bit_vector);
    if key.has(id@ as int) {
        assert forall|i: int| 0 <= i < 64 implies (bit_set(a | m, i) <==> bit_set(a, i)) by {
            lemma_bit_or(a, m, i);
            if id@ < 64 {
                lemma_flag_bits(id@ as int, i);
            } else {
                assert(flag_mask(id@ as int) == 0u64) by {
                    let s = id@ as u64;
                    assert(s >= 64 ==> 1u64 << s == 0u64) by (bit_vector);
                }
                lemma_zero_bits(i);
            }
        }
        lemma_bits_ext(a | m, a);
    }
}

impl<K> Clone for FlagSet<K> {
    fn clone(&self) -> (c: Self)
        ensures
            c@ == self@,
    {
        FlagSet { bits: self.bits, kind: PhantomData }
    }
}

impl<K> Copy for FlagSet<K> {

}

} // verus!
