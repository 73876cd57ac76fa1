//! Which cells have to be looked at again, for each policy in use.
//!
//! The tracker records every write since its last reset. From the writes and a policy
//! follows at which cells a value with that policy may have changed. For each policy
//! that the tracker was last reset with it keeps those cells in a set, to which it adds,
//! as a write is recorded, the cells within the distance of the policy. A policy that the
//! tracker was not reset with has every cell considered, since nothing is known of it.
//!
//! A step reads the sets, then resets the tracker, then writes. So the writes of a step
//! are what the next step reads, and no rule is evaluated for what its own step writes.

use crate::chunk::{CHUNK_WIDTH, CHUNK_WIDTH_E3};
use crate::chunk_pos::ChunkPos;
use crate::point::{decode, is_index, lemma_encode_decode, Point};
use crate::query::{all_fields, Cacheability, CacheableField, Policy};
use vstd::prelude::*;

verus! {

/// Whether the cells with the indices `p` and `q` are at most `r` apart along every axis.
pub open spec fn within(p: int, q: int, r: int) -> bool {
    let (px, py, pz) = decode(p);
    let (qx, qy, qz) = decode(q);
    &&& -r <= px - qx <= r
    &&& -r <= py - qy <= r
    &&& -r <= pz - qz <= r
}

/// Whether the writes `written` may have changed a value with the policy `policy` that
/// was computed for the cell `p`: whether one of the policy's fields was written in a cell
/// at most the policy's distance away from `p`.
pub open spec fn stale(written: Set<(int, CacheableField)>, policy: Policy, p: int) -> bool {
    exists|q: int, f: CacheableField|
        is_index(q) && within(p, q, policy.distance() as int) && policy.fields().contains(f)
            && #[trigger] written.contains((q, f))
}

/// What a tracker knows: the writes since it was last reset, and the policies that it was
/// last reset with.
#[verifier::ext_equal]
pub struct TrackerView {
    /// The index of the cell and the field of each write since the last reset.
    pub written: Set<(int, CacheableField)>,
    /// The policies that the tracker was last reset with.
    pub policies: Set<Policy>,
}

impl TrackerView {
    /// Whether a value with the policy `policy` that was computed for the cell `p` may
    /// have changed since the last reset.
    pub open spec fn stale(self, policy: Policy, p: int) -> bool {
        stale(self.written, policy, p)
    }

    /// Whether a rule with the policy `policy` has to be evaluated at the cell `p`. That is
    /// so where the policy never caches, where the tracker was not reset with the policy
    /// (nothing is known of it yet), and where the value may have changed.
    pub open spec fn considerable(self, policy: Policy, p: int) -> bool {
        policy is DontCache || !self.policies.contains(policy) || self.stale(policy, p)
    }

    /// The tracker after a write of `field` in the cell `p`.
    pub open spec fn mark(self, p: int, field: CacheableField) -> TrackerView {
        TrackerView { written: self.written.insert((p, field)), policies: self.policies }
    }

    /// The tracker after a reset with `policies`.
    pub open spec fn reset(self, policies: Set<Policy>) -> TrackerView {
        TrackerView { written: Set::empty(), policies: policies }
    }

    /// The considerable cells among the first `n`, in the order of their indices.
    pub open spec fn considerable_cells(self, policy: Policy, n: nat) -> Seq<int>
        decreases n,
    {
        if n == 0 {
            Seq::empty()
        } else {
            let before = self.considerable_cells(policy, (n - 1) as nat);
            if self.considerable(policy, n - 1) {
                before.push(n - 1)
            } else {
                before
            }
        }
    }
}

/// What each kind of policy makes of the writes. A policy that never caches has every cell
/// considered. Of the policies that the tracker was reset with: one that caches for ever
/// has no cell considered; one that holds until the cell itself changes has a cell
/// considered exactly if one of its fields was written in that cell; one that holds until
/// the neighborhood changes has a cell considered exactly if one of its fields was written
/// at most its distance away.
pub proof fn lemma_considerable_by_policy(tracker: TrackerView, policy: Policy, p: int)
    requires
        is_index(p),
    ensures
        policy is DontCache ==> tracker.considerable(policy, p),
        !tracker.policies.contains(policy) ==> tracker.considerable(policy, p),
        tracker.policies.contains(policy) && policy is Forever ==> !tracker.considerable(policy, p),
        tracker.policies.contains(policy) && policy is UntilChangeInSelf ==> (tracker.considerable(
            policy,
            p,
        ) <==> exists|f: CacheableField|
            policy.fields().contains(f) && #[trigger] tracker.written.contains((p, f))),
        tracker.policies.contains(policy) && policy is UntilChangeInChebyshevNeighborhood ==> (
        tracker.considerable(policy, p) <==> exists|q: int, f: CacheableField|
            is_index(q) && within(p, q, policy.distance() as int) && policy.fields().contains(f)
                && #[trigger] tracker.written.contains((q, f))),
{
    if policy is UntilChangeInSelf {
        if tracker.stale(policy, p) {
            let (q, f) = choose|q: int, f: CacheableField|
                is_index(q) && within(p, q, 0) && policy.fields().contains(f)
                    && #[trigger] tracker.written.contains((q, f));
            lemma_encode_decode(p);
            lemma_encode_decode(q);
            assert(q == p);
        }
        if exists|f: CacheableField|
            policy.fields().contains(f) && #[trigger] tracker.written.contains((p, f)) {
            let f = choose|f: CacheableField|
                policy.fields().contains(f) && #[trigger] tracker.written.contains((p, f));
            assert(within(p, p, 0));
            assert(tracker.written.contains((p, f)));
        }
    }
}

/// The policies that `list` holds.
pub open spec fn policy_set(list: Seq<Cacheability>) -> Set<Policy> {
    Set::new(
        |policy: Policy| exists|i: int| 0 <= i < list.len() && (#[trigger] list[i])@ == policy,
    )
}

/// The indices of the cells in `cells`.
pub open spec fn indices(cells: Seq<ChunkPos>) -> Seq<int> {
    cells.map_values(|pos: ChunkPos| pos.index())
}

/// What `considerable_cells` holds: the considerable cells among the first `n`, each
/// once, in increasing order.
pub proof fn lemma_considerable_cells(tracker: TrackerView, policy: Policy, n: nat)
    ensures
        forall|p: int| #[trigger]
            tracker.considerable_cells(policy, n).contains(p) <==> 0 <= p < n
                && tracker.considerable(policy, p),
        forall|i: int, j: int|
            0 <= i < j < tracker.considerable_cells(policy, n).len()
                ==> #[trigger] tracker.considerable_cells(policy, n)[i]
                < #[trigger] tracker.considerable_cells(policy, n)[j],
        forall|i: int|
            0 <= i < tracker.considerable_cells(policy, n).len() ==> 0
                <= #[trigger] tracker.considerable_cells(policy, n)[i] < n,
    decreases n,
{
    if n > 0 {
        let before = tracker.considerable_cells(policy, (n - 1) as nat);
        let cells = tracker.considerable_cells(policy, n);
        lemma_considerable_cells(tracker, policy, (n - 1) as nat);
        assert forall|p: int| #[trigger] cells.contains(p) <==> 0 <= p < n && tracker.considerable(
            policy,
            p,
        ) by {
            if tracker.considerable(policy, n - 1) {
                if cells.contains(p) {
                    let i = choose|i: int| 0 <= i < cells.len() && cells[i] == p;
                    if i < before.len() {
                        assert(before[i] == p);
                        assert(before.contains(p));
                    }
                }
                if before.contains(p) {
                    let i = choose|i: int| 0 <= i < before.len() && before[i] == p;
                    assert(cells[i] == p);
                }
                if p == n - 1 {
                    assert(cells[before.len() as int] == p);
                }
            }
        }
    }
}

/// The cells that one policy has to look at again.
struct DirtySet {
    policy: Cacheability,
    cells: [bool; CHUNK_WIDTH_E3],
}

/// Keeps, for each policy in use, the cells at which a rule with that policy has to be
/// evaluated again.
pub struct DirtinessTracker {
    /// For each field, by its rank: the cells in which it was written since the last reset.
    written: Vec<[bool; CHUNK_WIDTH_E3]>,
    /// For each policy of the last reset: the cells that the writes since then have made
    /// stale.
    dirty: Vec<DirtySet>,
}

/// The writes that `written` records.
spec fn written_set(written: Seq<[bool; CHUNK_WIDTH_E3]>) -> Set<(int, CacheableField)> {
    Set::new(|w: (int, CacheableField)| is_index(w.0) && written[w.1.rank()]@[w.0])
}

/// The policies of `dirty`.
spec fn policies_of(dirty: Seq<DirtySet>) -> Set<Policy> {
    Set::new(
        |policy: Policy|
            exists|i: int| 0 <= i < dirty.len() && (#[trigger] dirty[i]).policy@ == policy,
    )
}

/// What `written` and `dirty` say together.
spec fn view_of(written: Seq<[bool; CHUNK_WIDTH_E3]>, dirty: Seq<DirtySet>) -> TrackerView {
    TrackerView { written: written_set(written), policies: policies_of(dirty) }
}

/// Whether each dirty set holds the cells that the recorded writes have made stale for
/// its policy. No set is kept up for a policy that never caches.
spec fn consistent(written: Seq<[bool; CHUNK_WIDTH_E3]>, dirty: Seq<DirtySet>) -> bool {
    &&& written.len() == all_fields().len()
    &&& forall|i: int, p: int|
        0 <= i < dirty.len() && is_index(p) && !(dirty[i].policy@ is DontCache)
            ==> #[trigger] dirty[i].cells@[p] == stale(written_set(written), dirty[i].policy@, p)
}

/// Whether `p` is within `r` of `c` and comes before the cell `(x, y, z)` where the cells
/// are taken layer by layer and row by row.
spec fn reached(p: int, c: int, r: int, x: int, y: int, z: int) -> bool {
    let (px, py, pz) = decode(p);
    within(p, c, r) && (px < x || (px == x && (py < y || (py == y && pz < z))))
}

/// Whether `lo..hi` are the coordinates of the chunk that are at most `r` away from `c`.
spec fn spans(c: int, r: int, lo: int, hi: int) -> bool {
    &&& 0 <= c < CHUNK_WIDTH
    &&& lo == if c - r >= 0 { c - r } else { 0 }
    &&& hi == if c + r < CHUNK_WIDTH { c + r + 1 } else { CHUNK_WIDTH as int }
}

/// The coordinates of the chunk that are at most `r` away from `c`: the lowest one, and
/// one more than the highest.
fn span(c: u8, r: u8) -> (ends: (u8, u8))
    requires
        c < CHUNK_WIDTH,
    ensures
        spans(c as int, r as int, ends.0 as int, ends.1 as int),
    no_unwind
{
    let lo: u8 = if c >= r { c - r } else { 0 };
    let hi: u8 = if r < CHUNK_WIDTH - c { c + r + 1 } else { CHUNK_WIDTH };
    (lo, hi)
}

/// Marks every cell that is at most `r` away from `center` along every axis.
fn mark_around(cells: &mut [bool; CHUNK_WIDTH_E3], center: ChunkPos, r: u8)
    ensures
        forall|p: int|
            is_index(p) ==> #[trigger] final(cells)@[p] == (old(cells)@[p]
                || within(p, center.index(), r as int)),
    no_unwind
{
    let ghost c = center.index();
    let cx: u8 = center.x();
    let cy: u8 = center.y();
    let cz: u8 = center.z();
    let (x_lo, x_hi): (u8, u8) = span(cx, r);
    let (y_lo, y_hi): (u8, u8) = span(cy, r);
    let (z_lo, z_hi): (u8, u8) = span(cz, r);
    let mut x: u8 = x_lo;
    while x < x_hi
        invariant
            decode(c) == (cx as int, cy as int, cz as int),
            spans(cx as int, r as int, x_lo as int, x_hi as int),
            spans(cy as int, r as int, y_lo as int, y_hi as int),
            spans(cz as int, r as int, z_lo as int, z_hi as int),
            x_lo <= x <= x_hi,
            forall|p: int|
                is_index(p) ==> #[trigger] cells@[p] == (old(cells)@[p]
                    || reached(p, c, r as int, x as int, 0, 0)),
        decreases x_hi - x,
    {
        let mut y: u8 = y_lo;
        while y < y_hi
            invariant
                decode(c) == (cx as int, cy as int, cz as int),
                spans(cx as int, r as int, x_lo as int, x_hi as int),
                spans(cy as int, r as int, y_lo as int, y_hi as int),
                spans(cz as int, r as int, z_lo as int, z_hi as int),
                x_lo <= x < x_hi,
                y_lo <= y <= y_hi,
                forall|p: int|
                    is_index(p) ==> #[trigger] cells@[p] == (old(cells)@[p]
                        || reached(p, c, r as int, x as int, y as int, 0)),
            decreases y_hi - y,
        {
            let mut z: u8 = z_lo;
            while z < z_hi
                invariant
                    decode(c) == (cx as int, cy as int, cz as int),
                    spans(cx as int, r as int, x_lo as int, x_hi as int),
                    spans(cy as int, r as int, y_lo as int, y_hi as int),
                    spans(cz as int, r as int, z_lo as int, z_hi as int),
                    x_lo <= x < x_hi,
                    y_lo <= y < y_hi,
                    z_lo <= z <= z_hi,
                    forall|p: int|
                        is_index(p) ==> #[trigger] cells@[p] == (old(cells)@[p]
                            || reached(p, c, r as int, x as int, y as int, z as int)),
                decreases z_hi - z,
            {
                let ghost before = cells@;
                let index: usize = ChunkPos::new(x, y, z).raw_n() as usize;
                cells[index] = true;
                assert forall|p: int| is_index(p) implies #[trigger] cells@[p] == (old(cells)@[p]
                    || reached(p, c, r as int, x as int, y as int, z + 1)) by {
                    lemma_encode_decode(p);
                    if p != index {
                        assert(cells@[p] == before[p]);
                    }
                }
                z += 1;
            }
            assert forall|p: int| is_index(p) implies #[trigger] cells@[p] == (old(cells)@[p]
                || reached(p, c, r as int, x as int, y + 1, 0)) by {
                lemma_encode_decode(p);
            }
            y += 1;
        }
        assert forall|p: int| is_index(p) implies #[trigger] cells@[p] == (old(cells)@[p]
            || reached(p, c, r as int, x + 1, 0, 0)) by {
            lemma_encode_decode(p);
        }
        x += 1;
    }
    assert forall|p: int| is_index(p) implies #[trigger] cells@[p] == (old(cells)@[p]
        || within(p, c, r as int)) by {
        lemma_encode_decode(p);
    }
}

/// A write adds to the stale cells of a policy those within its distance of the written
/// cell, if the policy depends on the written field.
proof fn lemma_stale_after_write(
    written: Set<(int, CacheableField)>,
    q: int,
    field: CacheableField,
    policy: Policy,
    p: int,
)
    requires
        is_index(q),
    ensures
        stale(written.insert((q, field)), policy, p) <==> stale(written, policy, p) || (
        policy.fields().contains(field) && within(p, q, policy.distance() as int)),
{
    let after = written.insert((q, field));
    if stale(written, policy, p) {
        let (q1, f1) = choose|q1: int, f1: CacheableField|
            is_index(q1) && within(p, q1, policy.distance() as int) && policy.fields().contains(f1)
                && #[trigger] written.contains((q1, f1));
        assert(after.contains((q1, f1)));
    }
    if policy.fields().contains(field) && within(p, q, policy.distance() as int) {
        assert(after.contains((q, field)));
    }
}

/// Records the write in `written` and in each dirty set whose policy depends on `field`.
fn record(
    written: &mut Vec<[bool; CHUNK_WIDTH_E3]>,
    dirty: &mut Vec<DirtySet>,
    pos: ChunkPos,
    field: CacheableField,
)
    requires
        consistent(old(written)@, old(dirty)@),
    ensures
        consistent(final(written)@, final(dirty)@),
        view_of(final(written)@, final(dirty)@) == view_of(old(written)@, old(dirty)@).mark(
            pos.index(),
            field,
        ),
    no_unwind
{
    let index: usize = pos.raw_n() as usize;
    let rank: usize = field.ordinal();
    written[rank][index] = true;
    let ghost before = written_set(old(written)@);
    let ghost after = written_set(written@);
    assert(after =~= before.insert((pos.index(), field)));
    let mut i: usize = 0;
    while i < dirty.len()
        invariant
            i <= dirty.len(),
            dirty.len() == old(dirty).len(),
            index == pos.index(),
            is_index(pos.index()),
            written@.len() == all_fields().len(),
            before == written_set(old(written)@),
            after == written_set(written@),
            after == before.insert((pos.index(), field)),
            forall|j: int|
                0 <= j < dirty.len() ==> (#[trigger] dirty[j]).policy == old(dirty)[j].policy,
            forall|j: int, p: int|
                0 <= j < i && is_index(p) && !(dirty[j].policy@ is DontCache)
                    ==> #[trigger] dirty[j].cells@[p] == stale(after, dirty[j].policy@, p),
            forall|j: int, p: int|
                i <= j < dirty.len() && is_index(p) && !(dirty[j].policy@ is DontCache)
                    ==> #[trigger] dirty[j].cells@[p] == stale(before, dirty[j].policy@, p),
        decreases dirty.len() - i,
    {
        let ghost policy = dirty[i as int].policy@;
        let ghost cells_before = dirty[i as int].cells@;
        let kept_up = match &dirty[i].policy {
            Cacheability::DontCache => false,
            policy => policy.depends_on(field),
        };
        if kept_up {
            let distance: u8 = dirty[i].policy.distance();
            mark_around(&mut dirty[i].cells, pos, distance);
        }
        let ghost cells_now = dirty[i as int].cells@;
        assert forall|p: int| is_index(p) && !(policy is DontCache) implies #[trigger] cells_now[p]
            == stale(after, policy, p) by {
            lemma_stale_after_write(before, pos.index(), field, policy, p);
            assert(cells_before[p] == stale(before, policy, p));
        }
        i += 1;
    }
    assert(policies_of(dirty@) =~= policies_of(old(dirty)@)) by {
        assert forall|policy: Policy| policies_of(dirty@).contains(policy) <==> policies_of(
            old(dirty)@,
        ).contains(policy) by {
            if policies_of(dirty@).contains(policy) {
                let j = choose|j: int|
                    0 <= j < dirty.len() && (#[trigger] dirty[j]).policy@ == policy;
                assert(old(dirty)[j].policy@ == policy);
            }
            if policies_of(old(dirty)@).contains(policy) {
                let j = choose|j: int|
                    0 <= j < old(dirty).len() && (#[trigger] old(dirty)[j]).policy@ == policy;
                assert(dirty[j].policy@ == policy);
            }
        }
    }
}

/// A log in which no write is recorded: one row of cells for each field.
fn empty_log() -> (written: Vec<[bool; CHUNK_WIDTH_E3]>)
    ensures
        written@.len() == all_fields().len(),
        written_set(written@) == Set::<(int, CacheableField)>::empty(),
{
    let fields = CacheableField::all();
    let mut written: Vec<[bool; CHUNK_WIDTH_E3]> = Vec::new();
    let mut i: usize = 0;
    while i < fields.len()
        invariant
            i <= fields.len(),
            fields@ == all_fields(),
            written@.len() == i,
            forall|j: int, p: int| 0 <= j < i && is_index(p) ==> !(#[trigger] written@[j]@[p]),
        decreases fields.len() - i,
    {
        written.push([false; CHUNK_WIDTH_E3]);
        i += 1;
    }
    assert(written_set(written@) =~= Set::<(int, CacheableField)>::empty());
    written
}

impl View for DirtinessTracker {
    type V = TrackerView;

    closed spec fn view(&self) -> TrackerView {
        view_of(self.written@, self.dirty@)
    }
}

impl DirtinessTracker {
    #[verifier::type_invariant]
    spec fn kept_up(&self) -> bool {
        consistent(self.written@, self.dirty@)
    }

    /// A tracker that has seen no write and knows no policy: every cell is considerable
    /// for every policy.
    pub fn new() -> (tracker: DirtinessTracker)
        ensures
            tracker@ == (TrackerView { written: Set::empty(), policies: Set::empty() }),
    {
        let tracker = DirtinessTracker { written: empty_log(), dirty: Vec::new() };
        assert(policies_of(tracker.dirty@) =~= Set::<Policy>::empty());
        tracker
    }

    /// Records that `field` was written in the cell at `pos`.
    pub fn mark_written(&mut self, pos: ChunkPos, field: CacheableField)
        ensures
            final(self)@ == old(self)@.mark(pos.index(), field),
    {
        proof {
            use_type_invariant(&*self);
        }
        record(&mut self.written, &mut self.dirty, pos, field);
    }

    /// Forgets every write, and starts to keep a dirty set for each of `policies`.
    pub fn reset(&mut self, policies: &[Cacheability])
        ensures
            final(self)@ == old(self)@.reset(policy_set(policies@)),
    {
        let mut dirty: Vec<DirtySet> = Vec::new();
        let mut i: usize = 0;
        while i < policies.len()
            invariant
                i <= policies.len(),
                dirty@.len() == i,
                forall|j: int| 0 <= j < i ==> (#[trigger] dirty@[j]).policy@ == policies@[j]@,
                forall|j: int, p: int|
                    0 <= j < i && is_index(p) ==> !(#[trigger] dirty@[j].cells@[p]),
            decreases policies.len() - i,
        {
            dirty.push(DirtySet { policy: policies[i].clone(), cells: [false; CHUNK_WIDTH_E3] });
            i += 1;
        }
        let written = empty_log();
        proof {
            assert(policies_of(dirty@) =~= policy_set(policies@)) by {
                assert forall|policy: Policy| policies_of(dirty@).contains(policy) <==> policy_set(
                    policies@,
                ).contains(policy) by {
                    if policies_of(dirty@).contains(policy) {
                        let j = choose|j: int|
                            0 <= j < dirty.len() && (#[trigger] dirty[j]).policy@ == policy;
                        assert(policies@[j]@ == policy);
                    }
                    if policy_set(policies@).contains(policy) {
                        let j = choose|j: int|
                            0 <= j < policies@.len() && (#[trigger] policies@[j])@ == policy;
                        assert(dirty[j].policy@ == policy);
                    }
                }
            }
        }
        *self = DirtinessTracker { written, dirty };
    }

    /// The place of the dirty set that is kept for `policy`, if there is one.
    fn find(&self, policy: &Cacheability) -> (place: Option<usize>)
        ensures
            match place {
                Some(i) => i < self.dirty@.len() && self.dirty@[i as int].policy@ == policy@,
                None => !self@.policies.contains(policy@),
            },
    {
        let mut i: usize = 0;
        while i < self.dirty.len()
            invariant
                i <= self.dirty.len(),
                forall|j: int| 0 <= j < i ==> (#[trigger] self.dirty@[j]).policy@ != policy@,
            decreases self.dirty.len() - i,
        {
            if self.dirty[i].policy.same_as(policy) {
                return Some(i);
            }
            i += 1;
        }
        None
    }

    /// Whether a rule with the policy `policy` has to be evaluated at the cell at `pos`.
    pub fn is_considerable(&self, policy: &Cacheability, pos: ChunkPos) -> (considerable: bool)
        ensures
            considerable == self@.considerable(policy@, pos.index()),
    {
        proof {
            use_type_invariant(self);
        }
        match policy {
            Cacheability::DontCache => true,
            _ => match self.find(policy) {
                Some(i) => {
                    assert(self@.policies.contains(policy@));
                    self.dirty[i].cells[pos.raw_n() as usize]
                },
                None => true,
            },
        }
    }

    /// The cells at which a rule with the policy `policy` has to be evaluated, in the
    /// order of their indices.
    pub fn considerable_positions(&self, policy: &Cacheability) -> (cells: Vec<ChunkPos>)
        ensures
            indices(cells@) == self@.considerable_cells(policy@, CHUNK_WIDTH_E3 as nat),
    {
        proof {
            use_type_invariant(self);
        }
        let place = match policy {
            Cacheability::DontCache => None,
            _ => self.find(policy),
        };
        let mut cells: Vec<ChunkPos> = Vec::new();
        let mut point = Point::new(0, 0, 0);
        let mut more = true;
        assert(indices(cells@) =~= self@.considerable_cells(policy@, 0));
        while more
            invariant
                is_index(point.index()),
                match place {
                    Some(i) => i < self.dirty@.len() && self.dirty@[i as int].policy@ == policy@
                        && !(policy@ is DontCache),
                    None => policy@ is DontCache || !self@.policies.contains(policy@),
                },
                consistent(self.written@, self.dirty@),
                more ==> indices(cells@) == self@.considerable_cells(
                    policy@,
                    point.index() as nat,
                ),
                !more ==> indices(cells@) == self@.considerable_cells(
                    policy@,
                    CHUNK_WIDTH_E3 as nat,
                ),
            decreases (if more { CHUNK_WIDTH_E3 - point.index() } else { 0 }),
        {
            let ghost n = point.index();
            let ghost before = cells@;
            let dirty = match place {
                Some(i) => {
                    assert(self@.policies.contains(policy@));
                    self.dirty[i].cells[point.raw_n() as usize]
                },
                None => true,
            };
            assert(dirty == self@.considerable(policy@, n));
            if dirty {
                cells.push(ChunkPos::from_point(point));
                assert(indices(cells@) =~= indices(before).push(n));
            }
            more = point.increment();
        }
        cells
    }
}

} // verus!
