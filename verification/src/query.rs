//! Queries over the blocks around a cell, and how long their answers stay good.

use crate::block::BlockType;
use crate::relative_pos::RelativePos;
use crate::unique_descrip::UniqueDescrip;
use std::collections::hash_map::DefaultHasher;
use std::hash::Hasher;
use vstd::prelude::*;
use vstd::std_specs::hash::DefaultHasherAdditionalSpecFns;

mod get_block_type;
pub use get_block_type::GetBlockType;

verus! {

/// What a query learns about one cell.
#[derive(Clone, Copy, Debug, PartialEq, Eq, Structural)]
pub struct BlockInfo {
    pub block_type: BlockType,
}

impl BlockInfo {
    pub fn block_type(&self) -> (block_type: BlockType)
        ensures
            block_type == self.block_type,
    {
        self.block_type
    }
}

/// Something that can say what block lies at each offset from the cell that is being
/// evaluated.
pub trait Context {
    fn get_block(&self, pos: RelativePos) -> BlockInfo;
}

/// What every query has, whatever the type of its answer.
pub trait GenericQuery: UniqueDescrip {
    /// When an answer of the query may be used again: which writes can change it.
    fn cacheability(&self) -> Cacheability;
}

/// A computation over the blocks that a context of type `C` shows, with an answer of
/// type `T`.
pub trait Query<T, C: Context>: GenericQuery + Clone {
    /// The answer at the offset `pos` in the context `n`.
    fn eval(&self, n: &C, pos: RelativePos) -> T;
}

/// A property of a cell that a query's answer can depend on.
#[derive(Copy, Clone, Debug, Hash, PartialOrd, Ord, PartialEq, Eq, Structural)]
pub enum CacheableField {
    CacheableBlockType,
}

/// Every field, in the order in which field lists are kept.
pub open spec fn all_fields() -> Seq<CacheableField> {
    seq![CacheableField::CacheableBlockType]
}

/// The fields among the first `n` of `all_fields()` that `keep` holds, in that order.
pub open spec fn kept_fields(keep: Set<CacheableField>, n: nat) -> Seq<CacheableField>
    decreases n,
{
    if n == 0 {
        Seq::empty()
    } else {
        let before = kept_fields(keep, (n - 1) as nat);
        let field = all_fields()[n - 1];
        if keep.contains(field) {
            before.push(field)
        } else {
            before
        }
    }
}

/// The fields that occur in `a` or in `b`: each once, in the order of `all_fields()`.
pub open spec fn merge_fields(a: Seq<CacheableField>, b: Seq<CacheableField>) -> Seq<
    CacheableField,
> {
    kept_fields(a.to_set().union(b.to_set()), all_fields().len())
}

/// The ranks of `fields`, one byte for each.
pub open spec fn rank_bytes(fields: Seq<CacheableField>) -> Seq<u8> {
    fields.map_values(|f: CacheableField| f.rank() as u8)
}

/// Whether `fields` holds each of its fields once, in the order of `all_fields()`.
pub open spec fn in_field_order(fields: Seq<CacheableField>) -> bool {
    forall|i: int, j: int|
        0 <= i < j < fields.len() ==> (#[trigger] fields[i]).rank() < (#[trigger] fields[j]).rank()
}

impl CacheableField {
    /// The place of the field in `all_fields()`.
    pub open spec fn rank(self) -> int {
        match self {
            CacheableField::CacheableBlockType => 0,
        }
    }

    /// The place of the field in `all_fields()`.
    pub fn ordinal(self) -> (place: usize)
        ensures
            place == self.rank(),
        no_unwind
    {
        match self {
            CacheableField::CacheableBlockType => 0,
        }
    }

    /// Every field, in the order in which field lists are kept.
    pub fn all() -> (fields: Vec<CacheableField>)
        ensures
            fields@ == all_fields(),
    {
        let mut fields: Vec<CacheableField> = Vec::new();
        fields.push(CacheableField::CacheableBlockType);
        assert(fields@ =~= all_fields());
        fields
    }

    /// Whether `field` occurs in `fields`.
    pub fn occurs_in(self, fields: &[CacheableField]) -> (found: bool)
        ensures
            found == fields@.contains(self),
    {
        let mut i: usize = 0;
        while i < fields.len()
            invariant
                i <= fields.len(),
                forall|j: int| 0 <= j < i ==> fields@[j] != self,
            decreases fields.len() - i,
        {
            if fields[i] == self {
                return true;
            }
            i += 1;
        }
        false
    }

    /// The fields that occur in `a` or in `b`, each once and in a fixed order.
    pub fn merge(a: &[CacheableField], b: &[CacheableField]) -> (merged: Vec<CacheableField>)
        ensures
            merged@ == merge_fields(a@, b@),
    {
        let all = CacheableField::all();
        let ghost keep = a@.to_set().union(b@.to_set());
        let mut merged: Vec<CacheableField> = Vec::new();
        let mut i: usize = 0;
        while i < all.len()
            invariant
                i <= all.len(),
                all@ == all_fields(),
                keep == a@.to_set().union(b@.to_set()),
                merged@ == kept_fields(keep, i as nat),
            decreases all.len() - i,
        {
            let field = all[i];
            if field.occurs_in(a) || field.occurs_in(b) {
                merged.push(field);
            }
            i += 1;
        }
        merged
    }
}

/// Every field has its place in `all_fields()`.
pub proof fn lemma_all_fields_complete(field: CacheableField)
    ensures
        0 <= field.rank() < all_fields().len(),
        all_fields()[field.rank()] == field,
{
}

/// What `kept_fields` holds: the fields of `keep` among the first `n`, each once and in
/// order.
pub proof fn lemma_kept_fields(keep: Set<CacheableField>, n: nat)
    requires
        n <= all_fields().len(),
    ensures
        forall|f: CacheableField| #[trigger]
            kept_fields(keep, n).contains(f) <==> keep.contains(f) && f.rank() < n,
        in_field_order(kept_fields(keep, n)),
        kept_fields(keep, n).no_duplicates(),
    decreases n,
{
    if n > 0 {
        let before = kept_fields(keep, (n - 1) as nat);
        let field = all_fields()[n - 1];
        lemma_kept_fields(keep, (n - 1) as nat);
        assert(field.rank() == n - 1);
        assert forall|f: CacheableField| #[trigger]
            kept_fields(keep, n).contains(f) <==> keep.contains(f) && f.rank() < n by {
            lemma_all_fields_complete(f);
            if keep.contains(field) {
                assert(before.push(field).last() == field);
                if before.push(field).contains(f) {
                    let i = choose|i: int| 0 <= i < before.len() + 1 && before.push(field)[i] == f;
                    if i < before.len() {
                        assert(before[i] == f);
                    }
                }
                if before.contains(f) {
                    let i = choose|i: int| 0 <= i < before.len() && before[i] == f;
                    assert(before.push(field)[i] == f);
                }
                if f == field {
                    assert(before.push(field)[before.len() as int] == f);
                }
            }
        }
        if keep.contains(field) {
            assert forall|i: int| 0 <= i < before.len() implies (#[trigger] before[i]).rank() < n
                - 1 by {
                assert(before.contains(before[i]));
            }
        }
    }
}

/// Merging two field lists gives their union: the result holds a field exactly if one of
/// the lists does, holds none twice, and does not depend on the order of the two lists nor
/// on the order or the repetitions within them.
pub proof fn lemma_merge_fields_is_union(a: Seq<CacheableField>, b: Seq<CacheableField>)
    ensures
        merge_fields(a, b).to_set() == a.to_set().union(b.to_set()),
        merge_fields(a, b).no_duplicates(),
        in_field_order(merge_fields(a, b)),
        merge_fields(a, b) == merge_fields(b, a),
        forall|a2: Seq<CacheableField>, b2: Seq<CacheableField>|
            a2.to_set() == a.to_set() && b2.to_set() == b.to_set() ==> #[trigger] merge_fields(
                a2,
                b2,
            ) == merge_fields(a, b),
{
    let keep = a.to_set().union(b.to_set());
    lemma_kept_fields(keep, all_fields().len());
    assert forall|f: CacheableField| merge_fields(a, b).to_set().contains(f) <==> keep.contains(
        f,
    ) by {
        lemma_all_fields_complete(f);
    }
    assert(merge_fields(a, b).to_set() =~= keep);
    assert(a.to_set().union(b.to_set()) =~= b.to_set().union(a.to_set()));
}

/// When a value computed for a cell may be used again without computing it anew.
#[derive(Debug, PartialEq, Eq, Hash)]
pub enum Cacheability {
    /// Never: the value is computed again at every step.
    DontCache,
    /// Always: the value never changes.
    Forever,
    /// Until one of `fields` is written in the cell itself.
    UntilChangeInSelf { fields: Vec<CacheableField> },
    /// Until one of `fields` is written in a cell at most `distance` away along every axis.
    UntilChangeInChebyshevNeighborhood { fields: Vec<CacheableField>, distance: u8 },
}

/// A `Cacheability` as a mathematical value.
#[verifier::ext_equal]
pub enum Policy {
    DontCache,
    Forever,
    UntilChangeInSelf { fields: Seq<CacheableField> },
    UntilChangeInChebyshevNeighborhood { fields: Seq<CacheableField>, distance: u8 },
}

impl View for Cacheability {
    type V = Policy;

    open spec fn view(&self) -> Policy {
        match self {
            Cacheability::DontCache => Policy::DontCache,
            Cacheability::Forever => Policy::Forever,
            Cacheability::UntilChangeInSelf { fields } => Policy::UntilChangeInSelf {
                fields: fields@,
            },
            Cacheability::UntilChangeInChebyshevNeighborhood { fields, distance } => {
                Policy::UntilChangeInChebyshevNeighborhood { fields: fields@, distance: *distance }
            },
        }
    }
}

impl Policy {
    /// How far away a write can be and still make the value stale.
    pub open spec fn distance(self) -> u8 {
        match self {
            Policy::UntilChangeInChebyshevNeighborhood { distance, .. } => distance,
            _ => 0,
        }
    }

    /// The fields whose writes make the value stale.
    pub open spec fn fields(self) -> Seq<CacheableField> {
        match self {
            Policy::DontCache => all_fields(),
            Policy::Forever => Seq::empty(),
            Policy::UntilChangeInSelf { fields } => fields,
            Policy::UntilChangeInChebyshevNeighborhood { fields, .. } => fields,
        }
    }

    /// The policy of a value that is computed from two values, one with each policy.
    pub open spec fn merge(self, other: Policy) -> Policy {
        match (self, other) {
            (Policy::DontCache, _) => Policy::DontCache,
            (_, Policy::DontCache) => Policy::DontCache,
            (Policy::Forever, _) => other,
            (_, Policy::Forever) => self,
            (
                Policy::UntilChangeInSelf { fields: fields_a },
                Policy::UntilChangeInSelf { fields: fields_b },
            ) => Policy::UntilChangeInSelf { fields: merge_fields(fields_a, fields_b) },
            (_, _) => Policy::UntilChangeInChebyshevNeighborhood {
                fields: merge_fields(self.fields(), other.fields()),
                distance: if self.distance() >= other.distance() {
                    self.distance()
                } else {
                    other.distance()
                },
            },
        }
    }

    /// The byte that stands for the variant of the policy where it is hashed.
    pub open spec fn variant_byte(self) -> u8 {
        match self {
            Policy::DontCache => 0,
            Policy::Forever => 1,
            Policy::UntilChangeInSelf { .. } => 2,
            Policy::UntilChangeInChebyshevNeighborhood { .. } => 3,
        }
    }

    /// The fields that the policy lists.
    pub open spec fn listed_fields(self) -> Seq<CacheableField> {
        match self {
            Policy::UntilChangeInSelf { fields } => fields,
            Policy::UntilChangeInChebyshevNeighborhood { fields, .. } => fields,
            _ => Seq::empty(),
        }
    }

    /// The bytes that stand for the policy where it is hashed: the variant, the distance,
    /// then the rank of each field that it lists.
    pub open spec fn encoding(self) -> Seq<u8> {
        seq![self.variant_byte(), self.distance()] + rank_bytes(self.listed_fields())
    }

    /// The hash of the policy.
    pub open spec fn hashcode(self) -> u64 {
        DefaultHasher::spec_finish(seq![self.encoding()])
    }
}

impl Clone for Cacheability {
    fn clone(&self) -> (copy: Cacheability)
        ensures
            copy@ == self@,
    {
        match self {
            Cacheability::DontCache => Cacheability::DontCache,
            Cacheability::Forever => Cacheability::Forever,
            Cacheability::UntilChangeInSelf { fields } => Cacheability::UntilChangeInSelf {
                fields: copy_fields(fields),
            },
            Cacheability::UntilChangeInChebyshevNeighborhood {
                fields,
                distance,
            } => Cacheability::UntilChangeInChebyshevNeighborhood {
                fields: copy_fields(fields),
                distance: *distance,
            },
        }
    }
}

/// Whether `field` occurs in `fields`.
fn listed(fields: &Vec<CacheableField>, field: CacheableField) -> (found: bool)
    ensures
        found == fields@.contains(field),
    no_unwind
{
    let place: usize = field.ordinal();
    let mut i: usize = 0;
    while i < fields.len()
        invariant
            i <= fields.len(),
            place == field.rank(),
            forall|j: int| 0 <= j < i ==> fields@[j] != field,
        decreases fields.len() - i,
    {
        if fields[i].ordinal() == place {
            return true;
        }
        i += 1;
    }
    false
}

fn copy_fields(fields: &Vec<CacheableField>) -> (copy: Vec<CacheableField>)
    ensures
        copy@ == fields@,
{
    let mut copy: Vec<CacheableField> = Vec::new();
    let mut i: usize = 0;
    while i < fields.len()
        invariant
            i <= fields.len(),
            copy@ == fields@.take(i as int),
        decreases fields.len() - i,
    {
        copy.push(fields[i]);
        assert(fields@.take(i + 1) =~= fields@.take(i as int).push(fields@[i as int]));
        i += 1;
    }
    assert(fields@.take(fields.len() as int) =~= fields@);
    copy
}

fn same_fields(a: &Vec<CacheableField>, b: &Vec<CacheableField>) -> (same: bool)
    ensures
        same == (a@ == b@),
{
    if a.len() != b.len() {
        return false;
    }
    let mut i: usize = 0;
    while i < a.len()
        invariant
            i <= a.len(),
            a.len() == b.len(),
            forall|j: int| 0 <= j < i ==> a@[j] == b@[j],
        decreases a.len() - i,
    {
        if a[i] != b[i] {
            return false;
        }
        i += 1;
    }
    assert(a@ =~= b@);
    true
}

impl Cacheability {
    /// The policy of a value that is computed from two values, one with each policy.
    pub fn merge(a: &Cacheability, b: &Cacheability) -> (merged: Cacheability)
        ensures
            merged@ == a@.merge(b@),
    {
        match (a, b) {
            (Cacheability::DontCache, _) => Cacheability::DontCache,
            (_, Cacheability::DontCache) => Cacheability::DontCache,
            (Cacheability::Forever, _) => b.clone(),
            (_, Cacheability::Forever) => a.clone(),
            (
                Cacheability::UntilChangeInSelf { fields: fields_a },
                Cacheability::UntilChangeInSelf { fields: fields_b },
            ) => Cacheability::UntilChangeInSelf {
                fields: CacheableField::merge(fields_a.as_slice(), fields_b.as_slice()),
            },
            (_, _) => {
                let distance_a: u8 = a.distance();
                let distance_b: u8 = b.distance();
                let fields_a = a.fields();
                let fields_b = b.fields();
                Cacheability::UntilChangeInChebyshevNeighborhood {
                    fields: CacheableField::merge(fields_a.as_slice(), fields_b.as_slice()),
                    distance: if distance_a >= distance_b {
                        distance_a
                    } else {
                        distance_b
                    },
                }
            },
        }
    }

    /// How far away a write can be and still make the value stale.
    pub fn distance(&self) -> (distance: u8)
        ensures
            distance == self@.distance(),
        no_unwind
    {
        match self {
            Cacheability::UntilChangeInChebyshevNeighborhood { distance, .. } => *distance,
            _ => 0,
        }
    }

    /// The fields whose writes make the value stale.
    pub fn fields(&self) -> (fields: Vec<CacheableField>)
        ensures
            fields@ == self@.fields(),
    {
        match self {
            Cacheability::DontCache => CacheableField::all(),
            Cacheability::Forever => Vec::new(),
            Cacheability::UntilChangeInSelf { fields } => copy_fields(fields),
            Cacheability::UntilChangeInChebyshevNeighborhood { fields, .. } => copy_fields(fields),
        }
    }

    /// Whether a write of `field` can make the value stale.
    pub fn depends_on(&self, field: CacheableField) -> (depends: bool)
        ensures
            depends == self@.fields().contains(field),
        no_unwind
    {
        match self {
            Cacheability::DontCache => {
                proof {
                    lemma_all_fields_complete(field);
                }
                true
            },
            Cacheability::Forever => false,
            Cacheability::UntilChangeInSelf { fields } => listed(fields, field),
            Cacheability::UntilChangeInChebyshevNeighborhood { fields, .. } => {
                listed(fields, field)
            },
        }
    }

    /// Whether the two policies are the same.
    pub fn same_as(&self, other: &Cacheability) -> (same: bool)
        ensures
            same == (self@ == other@),
    {
        match (self, other) {
            (Cacheability::DontCache, Cacheability::DontCache) => true,
            (Cacheability::Forever, Cacheability::Forever) => true,
            (
                Cacheability::UntilChangeInSelf { fields: fields_a },
                Cacheability::UntilChangeInSelf { fields: fields_b },
            ) => same_fields(fields_a, fields_b),
            (
                Cacheability::UntilChangeInChebyshevNeighborhood {
                    fields: fields_a,
                    distance: distance_a,
                },
                Cacheability::UntilChangeInChebyshevNeighborhood {
                    fields: fields_b,
                    distance: distance_b,
                },
            ) => *distance_a == *distance_b && same_fields(fields_a, fields_b),
            (_, _) => false,
        }
    }

    /// A hash of the policy: policies that are the same have the same hash.
    pub fn hashcode(&self) -> (hash: u64)
        ensures
            hash == self@.hashcode(),
    {
        let mut bytes: Vec<u8> = Vec::new();
        match self {
            Cacheability::DontCache => {
                bytes.push(0);
                bytes.push(0);
            },
            Cacheability::Forever => {
                bytes.push(1);
                bytes.push(0);
            },
            Cacheability::UntilChangeInSelf { fields } => {
                bytes.push(2);
                bytes.push(0);
                push_ranks(&mut bytes, fields);
            },
            Cacheability::UntilChangeInChebyshevNeighborhood { fields, distance } => {
                bytes.push(3);
                bytes.push(*distance);
                push_ranks(&mut bytes, fields);
            },
        }
        assert(bytes@ =~= self@.encoding());
        let mut hasher = DefaultHasher::new();
        hasher.write(bytes.as_slice());
        assert(hasher@ =~= seq![self@.encoding()]);
        hasher.finish()
    }
}

fn push_ranks(bytes: &mut Vec<u8>, fields: &Vec<CacheableField>)
    ensures
        final(bytes)@ == old(bytes)@ + rank_bytes(fields@),
{
    let ghost ranks = rank_bytes(fields@);
    let mut i: usize = 0;
    while i < fields.len()
        invariant
            i <= fields.len(),
            ranks == rank_bytes(fields@),
            bytes@ == old(bytes)@ + ranks.take(i as int),
        decreases fields.len() - i,
    {
        let rank: u8 = match fields[i] {
            CacheableField::CacheableBlockType => 0,
        };
        bytes.push(rank);
        assert(ranks.take(i + 1) =~= ranks.take(i as int).push(ranks[i as int]));
        assert(bytes@ =~= old(bytes)@ + ranks.take(i + 1));
        i += 1;
    }
    assert(ranks.take(fields.len() as int) =~= ranks);
}

/// Two policies with the same encoding are the same policy: where two hashes agree, that
/// is for the policies or for the hasher, never for the encoding.
pub proof fn lemma_encoding_injective(a: Policy, b: Policy)
    requires
        a.encoding() == b.encoding(),
    ensures
        a == b,
{
    let head_a = seq![a.variant_byte(), a.distance()];
    let head_b = seq![b.variant_byte(), b.distance()];
    assert(a.encoding()[0] == head_a[0]);
    assert(a.encoding()[1] == head_a[1]);
    assert(b.encoding()[0] == head_b[0]);
    assert(b.encoding()[1] == head_b[1]);
    lemma_rank_bytes_injective(head_a, a.listed_fields(), head_b, b.listed_fields());
}

/// Two field lists whose ranks make the same bytes, after heads of the same length, are
/// the same list.
proof fn lemma_rank_bytes_injective(
    head_a: Seq<u8>,
    fields_a: Seq<CacheableField>,
    head_b: Seq<u8>,
    fields_b: Seq<CacheableField>,
)
    requires
        head_a.len() == head_b.len(),
        head_a + rank_bytes(fields_a) == head_b + rank_bytes(fields_b),
    ensures
        fields_a == fields_b,
{
    let bytes_a = head_a + rank_bytes(fields_a);
    let bytes_b = head_b + rank_bytes(fields_b);
    assert(bytes_a.len() == head_a.len() + fields_a.len());
    assert(bytes_b.len() == head_b.len() + fields_b.len());
    assert forall|i: int| 0 <= i < fields_a.len() implies fields_a[i] == fields_b[i] by {
        assert(bytes_a[head_a.len() + i] == rank_bytes(fields_a)[i]);
        assert(bytes_b[head_b.len() + i] == rank_bytes(fields_b)[i]);
    }
    assert(fields_a =~= fields_b);
}

/// Merging does not depend on the order of the two policies.
pub proof fn lemma_merge_commutative(a: Policy, b: Policy)
    ensures
        a.merge(b) == b.merge(a),
{
    lemma_merge_fields_is_union(a.fields(), b.fields());
}

/// Merging three policies does not depend on which two are merged first.
pub proof fn lemma_merge_associative(a: Policy, b: Policy, c: Policy)
    ensures
        a.merge(b).merge(c) == a.merge(b.merge(c)),
{
    lemma_merge_fields_is_union(a.fields(), b.fields());
    lemma_merge_fields_is_union(b.fields(), c.fields());
    lemma_merge_fields_is_union(merge_fields(a.fields(), b.fields()), c.fields());
    lemma_merge_fields_is_union(a.fields(), merge_fields(b.fields(), c.fields()));
    assert(a.fields().to_set().union(b.fields().to_set()).union(c.fields().to_set())
        =~= a.fields().to_set().union(b.fields().to_set().union(c.fields().to_set())));
}

/// `Forever` changes nothing when merged with a policy, on either side.
pub proof fn lemma_merge_forever(a: Policy)
    ensures
        a.merge(Policy::Forever) == a,
        Policy::Forever.merge(a) == a,
{
}

/// `DontCache` is what comes of merging it with any policy, on either side.
pub proof fn lemma_merge_dont_cache(a: Policy)
    ensures
        a.merge(Policy::DontCache) == Policy::DontCache,
        Policy::DontCache.merge(a) == Policy::DontCache,
{
}

} // verus!
