//! The simulator: rules that rewrite blocks, and the step that applies them.
//!
//! A step has three phases. It first evaluates the rules, each at the cells that the
//! tracker of the loaded chunk has it look at, and collects what they ask for. It then
//! resets the tracker. Only then does it write what was collected. So every rule sees the
//! chunk as it was before the step, and what a step writes is what the next step looks at.
//!
//! Rules and queries are the user's code. What they give is not known here, so the
//! contracts of this module say what is handed to them, and what is done with whatever
//! they give.

use crate::block::{unknown, BlockType};
use crate::chunk::{Chunk, CHUNK_WIDTH_E3};
use crate::chunk_pos::{offset_index, ChunkPos};
use crate::dirtiness::{lemma_considerable_cells, policy_set, within};
use crate::loaded_chunk::{
    cell_indices, last_written, lemma_apply, lemma_last_written_of_none,
    lemma_last_written_of_some, LoadedChunk, LoadedChunkView,
};
use crate::point::is_index;
use crate::query::{
    BlockInfo, Cacheability, CacheableField, Context, GenericQuery, Policy, Query,
};
use crate::relative_pos::RelativePos;
use crate::unique_descrip::UniqueDescrip;
use std::collections::hash_map::DefaultHasher;
use std::hash::Hasher;
use std::marker::PhantomData;
use vstd::prelude::*;
use vstd::std_specs::hash::DefaultHasherAdditionalSpecFns;
use vstd::string::StringExecFns;

verus! {

/// What a context shows at the offset `delta` from the cell `origin` of a chunk with the
/// blocks `blocks`: the cell that lies there, or an unknown block where that is outside
/// the chunk.
pub open spec fn shown_block(blocks: Seq<BlockType>, origin: int, delta: RelativePos) -> BlockInfo {
    match offset_index(origin, delta) {
        Some(p) => BlockInfo { block_type: blocks[p] },
        None => BlockInfo { block_type: unknown() },
    }
}

/// The blocks of a chunk as they are seen from one of its cells.
pub struct UpdaterContext<'a> {
    chunk: &'a Chunk,
    chunk_pos: ChunkPos,
}

impl<'a> UpdaterContext<'a> {
    /// The chunk that the context shows.
    pub closed spec fn chunk(&self) -> Chunk {
        *self.chunk
    }

    /// The cell from which the context looks.
    pub closed spec fn chunk_pos(&self) -> ChunkPos {
        self.chunk_pos
    }
}

impl<'a> Context for UpdaterContext<'a> {
    /// The block at the offset `rel_pos` from the cell of the context, or an unknown block
    /// where that is outside the chunk.
    fn get_block(&self, rel_pos: RelativePos) -> (info: BlockInfo)
        ensures
            info == shown_block(self.chunk()@, self.chunk_pos().index(), rel_pos),
    {
        match self.chunk_pos.offset(rel_pos) {
            Some(pos) => self.chunk.get_block(pos),
            None => BlockInfo { block_type: unknown() },
        }
    }
}

/// The hash that stands for a query with the description `descrip`.
pub open spec fn descrip_hash(descrip: Seq<char>) -> u64 {
    DefaultHasher::spec_finish(seq![vstd::utf8::encode_utf8(descrip)])
}

/// The hash that stands for a query with the description `descrip`. It depends on the
/// description alone.
pub fn hash_descrip(descrip: &str) -> (hash: u64)
    ensures
        hash == descrip_hash(descrip@),
{
    let mut hasher = DefaultHasher::new();
    hasher.write(descrip.as_bytes());
    assert(hasher@ =~= seq![vstd::utf8::encode_utf8(descrip@)]);
    hasher.finish()
}

/// A query that was prepared for a rule: a copy of the query, with the hash that stands for
/// it.
pub struct PreparedQuery<Q, T> {
    query: Q,
    hashcode: u64,
    _phantom: PhantomData<T>,
}

impl<Q, T> PreparedQuery<Q, T> {
    /// The copy of the query.
    pub closed spec fn query(&self) -> Q {
        self.query
    }

    /// The hash that stands for the query.
    pub closed spec fn identity(&self) -> u64 {
        self.hashcode
    }

    /// Prepares a copy of `query`. The hash is that of the description that the query
    /// gives of itself, so that two queries with the same description get the same hash.
    pub fn new(query: &Q) -> (prepared: PreparedQuery<Q, T>) where Q: GenericQuery + Clone
        ensures
            cloned(*query, prepared.query()),
            exists|descrip: String|
                call_ensures(Q::unique_descrip, (query,), descrip) && prepared.identity()
                    == descrip_hash(descrip@),
    {
        let descrip = query.unique_descrip();
        PreparedQuery {
            query: query.clone(),
            hashcode: hash_descrip(descrip.as_str()),
            _phantom: PhantomData,
        }
    }

    /// The hash that stands for the query.
    pub fn hashcode(&self) -> (hash: u64)
        ensures
            hash == self.identity(),
    {
        self.hashcode
    }

    /// A text that names the prepared query by the description of its query.
    pub fn describe(&self) -> (text: String) where Q: UniqueDescrip
        ensures
            exists|descrip: String|
                call_ensures(Q::unique_descrip, (&self.query(),), descrip) && text@
                    == "PreparedQuery:"@ + descrip@,
    {
        let descrip = self.query.unique_descrip();
        let text = "PreparedQuery:".to_owned();
        text.concat(descrip.as_str())
    }
}

/// What a rule is handed to look at the chunk: the blocks as seen from the cell at which
/// the rule is evaluated.
pub struct UpdaterHandle<'a> {
    context: UpdaterContext<'a>,
}

impl<'a> UpdaterHandle<'a> {
    /// The context through which the handle looks.
    pub closed spec fn context(&self) -> UpdaterContext<'a> {
        self.context
    }

    /// The handle that looks at `chunk` from the cell at `pos`.
    pub closed spec fn bound_to(chunk: &'a Chunk, pos: ChunkPos) -> UpdaterHandle<'a> {
        UpdaterHandle { context: UpdaterContext { chunk, chunk_pos: pos } }
    }

    /// What the handle that looks at `chunk` from `pos` looks through.
    pub proof fn lemma_bound_to(chunk: &'a Chunk, pos: ChunkPos)
        ensures
            Self::bound_to(chunk, pos).context().chunk() == *chunk,
            Self::bound_to(chunk, pos).context().chunk_pos() == pos,
    {
    }

    /// The answer of the prepared query at the cell of the handle: what the query gives
    /// for the context of the handle at the offset of the cell from itself.
    pub fn query<Q, T>(&self, linked_query: &PreparedQuery<Q, T>) -> (answer: T) where
        Q: Query<T, UpdaterContext<'a>>,

        ensures
            call_ensures(
                Q::eval,
                (&linked_query.query(), &self.context(), RelativePos { x: 0, y: 0, z: 0 }),
                answer,
            ),
    {
        linked_query.query.eval(&self.context, RelativePos::here())
    }
}

/// A rule: what a block of the rule's target type turns into.
///
/// A simulator holds rules of one type. A function is a rule by way of `FnRule`; rules of
/// several kinds are the variants of one type that implements `Rule`.
pub trait Rule {
    /// The block type that the cell of `handle` gets, or `None` where it stays as it is.
    fn apply(&self, handle: &UpdaterHandle<'_>) -> Option<BlockType>;
}

/// A rule that is a function: it gives what the function gives.
pub struct FnRule<F> where F: for<'a, 'b> Fn(&'a UpdaterHandle<'b>) -> Option<BlockType> {
    updater_fn: F,
}

impl<F> FnRule<F> where F: for<'a, 'b> Fn(&'a UpdaterHandle<'b>) -> Option<BlockType> {
    #[verifier::type_invariant]
    spec fn callable(&self) -> bool {
        forall|handle: &UpdaterHandle<'_>| call_requires(self.updater_fn, (handle,))
    }

    /// The function of the rule.
    pub closed spec fn updater_fn(&self) -> F {
        self.updater_fn
    }

    /// The rule that gives what `updater_fn` gives. The function has to accept every
    /// handle.
    pub fn new(updater_fn: F) -> (rule: FnRule<F>)
        requires
            forall|handle: &UpdaterHandle<'_>| call_requires(updater_fn, (handle,)),
        ensures
            rule.updater_fn() == updater_fn,
    {
        FnRule { updater_fn }
    }
}

impl<F> Rule for FnRule<F> where F: for<'a, 'b> Fn(&'a UpdaterHandle<'b>) -> Option<BlockType> {
    fn apply(&self, handle: &UpdaterHandle<'_>) -> (outcome: Option<BlockType>)
        ensures
            call_ensures(self.updater_fn(), (handle,), outcome),
    {
        proof {
            use_type_invariant(self);
        }
        (self.updater_fn)(handle)
    }
}

/// Stands in an updater for the rule that it has not been given yet.
pub struct NoRule {}

/// A rule with the policy that says when it has to be evaluated again. It is built in
/// two steps: queries are prepared on an updater without a rule, then `implement` or
/// `implement_rule` gives it its rule.
pub struct Updater<R> {
    rule: R,
    cacheability: Cacheability,
}

impl<R> Updater<R> {
    /// The rule of the updater.
    pub closed spec fn rule(&self) -> R {
        self.rule
    }

    /// The policy of the updater: that of all the queries that were prepared on it, merged.
    pub closed spec fn policy(&self) -> Policy {
        self.cacheability@
    }

    /// The policy of the updater.
    pub fn cacheability(&self) -> (cacheability: &Cacheability)
        ensures
            cacheability@ == self.policy(),
    {
        &self.cacheability
    }
}

impl Updater<NoRule> {
    /// The updater that `new` gives.
    pub closed spec fn fresh() -> Updater<NoRule> {
        Updater { rule: NoRule {  }, cacheability: Cacheability::Forever }
    }

    /// An updater without a rule, on which no query was prepared yet.
    pub fn new() -> (updater: Updater<NoRule>)
        ensures
            updater == Self::fresh(),
            updater.policy() == Policy::Forever,
    {
        Updater { rule: NoRule {  }, cacheability: Cacheability::Forever }
    }

    /// Merges `cacheability` into the policy of the updater.
    pub fn absorb(&mut self, cacheability: &Cacheability)
        ensures
            final(self).policy() == old(self).policy().merge(cacheability@),
    {
        self.cacheability = Cacheability::merge(&self.cacheability, cacheability);
    }

    /// Prepares `query` for the rule of this updater: merges the policy that the query
    /// gives for itself into that of the updater, and hands back a copy of the query with
    /// the hash that stands for it.
    pub fn prepare_query<Q, T>(&mut self, query: &Q) -> (prepared: PreparedQuery<Q, T>) where
        Q: GenericQuery + Clone,

        ensures
            exists|cacheability: Cacheability|
                call_ensures(Q::cacheability, (query,), cacheability) && final(self).policy()
                    == old(self).policy().merge(cacheability@),
            cloned(*query, prepared.query()),
            exists|descrip: String|
                call_ensures(Q::unique_descrip, (query,), descrip) && prepared.identity()
                    == descrip_hash(descrip@),
    {
        let cacheability = query.cacheability();
        self.absorb(&cacheability);
        PreparedQuery::new(query)
    }

    /// Gives the updater its rule: the function `updater_fn`, which has to accept every
    /// handle.
    pub fn implement<F>(self, updater_fn: F) -> (updater: Updater<FnRule<F>>) where
        F: for<'a, 'b> Fn(&'a UpdaterHandle<'b>) -> Option<BlockType>,

        requires
            forall|handle: &UpdaterHandle<'_>| call_requires(updater_fn, (handle,)),
        ensures
            updater.rule().updater_fn() == updater_fn,
            updater.policy() == self.policy(),
    {
        self.implement_rule(FnRule::new(updater_fn))
    }

    /// Gives the updater its rule.
    pub fn implement_rule<R: Rule>(self, rule: R) -> (updater: Updater<R>)
        ensures
            updater.rule() == rule,
            updater.policy() == self.policy(),
    {
        Updater { rule, cacheability: self.cacheability }
    }
}

impl<R: Rule> Updater<R> {
    /// Whether `outcome` is what the rule can give when it is handed the chunk `chunk`
    /// at the cell `pos`.
    pub open spec fn yields(
        &self,
        chunk: &Chunk,
        pos: ChunkPos,
        outcome: Option<BlockType>,
    ) -> bool {
        call_ensures(R::apply, (&self.rule(), &UpdaterHandle::bound_to(chunk, pos)), outcome)
    }

    /// Evaluates the rule at the cell at `pos` of `chunk`.
    pub fn run(&self, chunk: &Chunk, pos: ChunkPos) -> (outcome: Option<BlockType>)
        ensures
            self.yields(chunk, pos, outcome),
    {
        let handle = UpdaterHandle { context: UpdaterContext { chunk, chunk_pos: pos } };
        self.rule.apply(&handle)
    }
}

/// A block type to put in a cell.
#[derive(Clone, Copy, Debug)]
pub struct BlockTypeUpdate {
    pub pos: ChunkPos,
    pub block_type: BlockType,
}

/// The updates as pairs of the index of the cell and the block type to put in it.
pub open spec fn update_pairs(updates: Seq<BlockTypeUpdate>) -> Seq<(int, BlockType)> {
    updates.map_values(|update: BlockTypeUpdate| (update.pos.index(), update.block_type))
}

/// What the rules gave in a step: for the updater at the place `k` in the simulator and
/// the cell with the index `p`, what the rule of the updater gave at the cell.
pub type Outcomes = spec_fn(int, int) -> Option<BlockType>;

/// The updates that the updater at the place `k`, with the target `target`, asks for at
/// the first `n` of the cells `cells`: at each cell that holds the target, in the order of
/// `cells`, what the rule gave there, unless it gave `None`.
pub open spec fn cell_updates(
    target: BlockType,
    cells: Seq<int>,
    blocks: Seq<BlockType>,
    outcomes: Outcomes,
    k: int,
    n: nat,
) -> Seq<(int, BlockType)>
    decreases n,
{
    if n == 0 {
        Seq::empty()
    } else {
        let before = cell_updates(target, cells, blocks, outcomes, k, (n - 1) as nat);
        let p = cells[n - 1];
        if blocks[p] == target {
            match outcomes(k, p) {
                Some(block_type) => before.push((p, block_type)),
                None => before,
            }
        } else {
            before
        }
    }
}

/// `cell_updates` looks at no outcomes but those of the updater at the first `n` cells.
pub proof fn lemma_cell_updates_frame(
    target: BlockType,
    cells: Seq<int>,
    blocks: Seq<BlockType>,
    outcomes: Outcomes,
    others: Outcomes,
    k: int,
    n: nat,
)
    requires
        n <= cells.len(),
        forall|i: int| 0 <= i < n ==> outcomes(k, #[trigger] cells[i]) == others(k, cells[i]),
    ensures
        cell_updates(target, cells, blocks, outcomes, k, n)
            == cell_updates(target, cells, blocks, others, k, n),
    decreases n,
{
    if n > 0 {
        lemma_cell_updates_frame(target, cells, blocks, outcomes, others, k, (n - 1) as nat);
        assert(outcomes(k, cells[n - 1]) == others(k, cells[n - 1]));
    }
}

/// What `cell_updates` holds: a block type for a cell exactly where the cell is among the
/// first `n`, holds the target, and the rule gave that block type there.
pub proof fn lemma_cell_updates(
    target: BlockType,
    cells: Seq<int>,
    blocks: Seq<BlockType>,
    outcomes: Outcomes,
    k: int,
    n: nat,
)
    requires
        n <= cells.len(),
    ensures
        forall|update: (int, BlockType)| #[trigger]
            cell_updates(target, cells, blocks, outcomes, k, n).contains(update) <==> {
                &&& exists|a: int| 0 <= a < n && #[trigger] cells[a] == update.0
                &&& blocks[update.0] == target
                &&& outcomes(k, update.0) == Some(update.1)
            },
    decreases n,
{
    if n > 0 {
        let before = cell_updates(target, cells, blocks, outcomes, k, (n - 1) as nat);
        let all = cell_updates(target, cells, blocks, outcomes, k, n);
        let p = cells[n - 1];
        lemma_cell_updates(target, cells, blocks, outcomes, k, (n - 1) as nat);
        assert forall|update: (int, BlockType)| #[trigger] all.contains(update) <==> {
            &&& exists|a: int| 0 <= a < n && #[trigger] cells[a] == update.0
            &&& blocks[update.0] == target
            &&& outcomes(k, update.0) == Some(update.1)
        } by {
            if all.contains(update) {
                let i = choose|i: int| 0 <= i < all.len() && all[i] == update;
                if i < before.len() {
                    assert(before[i] == update);
                    assert(before.contains(update));
                    let a = choose|a: int| 0 <= a < n - 1 && #[trigger] cells[a] == update.0;
                    assert(cells[a] == update.0);
                } else {
                    assert(cells[n - 1] == update.0);
                }
            }
            if (exists|a: int| 0 <= a < n && #[trigger] cells[a] == update.0) && blocks[update.0]
                == target && outcomes(k, update.0) == Some(update.1) {
                let a = choose|a: int| 0 <= a < n && #[trigger] cells[a] == update.0;
                if update.0 == p {
                    assert(all[before.len() as int] == update);
                } else {
                    assert(cells[a] == update.0);
                    assert(before.contains(update));
                    let i = choose|i: int| 0 <= i < before.len() && before[i] == update;
                    assert(all[i] == update);
                }
            }
        }
    }
}

/// Rules, each for the blocks of one type, and the policies that they are evaluated by.
pub struct Simulator<R> {
    updaters: Vec<(BlockType, Updater<R>)>,
    cacheabilities: Vec<Cacheability>,
}

/// Whether `cacheabilities` holds the policy of each of `updaters`, each once, and no
/// other.
spec fn lists_policies<R>(
    updaters: Seq<(BlockType, Updater<R>)>,
    cacheabilities: Seq<Cacheability>,
) -> bool {
    &&& forall|k: int|
        0 <= k < updaters.len() ==> policy_set(cacheabilities).contains(
            (#[trigger] updaters[k]).1.policy(),
        )
    &&& forall|i: int|
        0 <= i < cacheabilities.len() ==> exists|k: int|
            0 <= k < updaters.len() && (#[trigger] updaters[k]).1.policy()
                == (#[trigger] cacheabilities[i])@
    &&& forall|i: int, j: int|
        0 <= i < j < cacheabilities.len() ==> (#[trigger] cacheabilities[i])@
            != (#[trigger] cacheabilities[j])@
}

/// Whether `cacheability` is in `cacheabilities`.
fn lists(cacheabilities: &Vec<Cacheability>, cacheability: &Cacheability) -> (found: bool)
    ensures
        found == policy_set(cacheabilities@).contains(cacheability@),
{
    let mut i: usize = 0;
    while i < cacheabilities.len()
        invariant
            i <= cacheabilities.len(),
            forall|j: int| 0 <= j < i ==> (#[trigger] cacheabilities@[j])@ != cacheability@,
        decreases cacheabilities.len() - i,
    {
        if cacheabilities[i].same_as(cacheability) {
            return true;
        }
        i += 1;
    }
    false
}

impl<R> Simulator<R> {
    #[verifier::type_invariant]
    spec fn policies_listed(&self) -> bool {
        lists_policies(self.updaters@, self.cacheabilities@)
    }
}

impl<R: Rule> Simulator<R> {
    /// The updaters with their targets, in the order in which they were registered.
    pub closed spec fn updaters(&self) -> Seq<(BlockType, Updater<R>)> {
        self.updaters@
    }

    /// The policies of the updaters.
    pub open spec fn policies(&self) -> Set<Policy> {
        Set::new(
            |policy: Policy|
                exists|k: int|
                    0 <= k < self.updaters().len() && (#[trigger] self.updaters()[k]).1.policy()
                        == policy,
        )
    }

    /// Whether a step on `before` evaluates the rule of the updater at the place `k` at
    /// the cell `p`: whether the cell is considerable for the policy of the updater and
    /// holds its target.
    pub open spec fn evaluates(&self, before: LoadedChunkView, k: int, p: int) -> bool {
        &&& 0 <= k < self.updaters().len()
        &&& is_index(p)
        &&& before.tracker.considerable(self.updaters()[k].1.policy(), p)
        &&& before.blocks[p] == self.updaters()[k].0
    }

    /// Whether `outcomes` holds, for each rule and cell that a step on `loaded_chunk`
    /// evaluates, something that the rule can give when it is handed the chunk as it is
    /// before the step.
    pub open spec fn explains(&self, loaded_chunk: &LoadedChunk, outcomes: Outcomes) -> bool {
        forall|k: int, p: int| #[trigger]
            self.evaluates(loaded_chunk@, k, p) ==> self.updaters()[k].1.yields(
                &loaded_chunk.chunk(),
                ChunkPos::at(p),
                outcomes(k, p),
            )
    }

    /// The updates that the first `k` updaters ask for in a step on `before`, where
    /// `outcomes` holds what the rules gave: those of each updater in turn, at the cells
    /// that are considerable for its policy.
    pub open spec fn collected(&self, before: LoadedChunkView, outcomes: Outcomes, k: nat) -> Seq<
        (int, BlockType),
    >
        decreases k,
    {
        if k == 0 {
            Seq::empty()
        } else {
            let (target, updater) = self.updaters()[k - 1];
            let cells = before.tracker.considerable_cells(updater.policy(), CHUNK_WIDTH_E3 as nat);
            self.collected(before, outcomes, (k - 1) as nat) + cell_updates(
                target,
                cells,
                before.blocks,
                outcomes,
                k - 1,
                cells.len(),
            )
        }
    }

    /// The updates that all the updaters ask for in a step on `before`.
    pub open spec fn step_updates(&self, before: LoadedChunkView, outcomes: Outcomes) -> Seq<
        (int, BlockType),
    > {
        self.collected(before, outcomes, self.updaters().len())
    }

    /// What a step makes of `before`, where `outcomes` holds what the rules gave: the
    /// tracker is reset with the policies of the simulator, then the updates are written.
    pub open spec fn after_step(
        &self,
        before: LoadedChunkView,
        outcomes: Outcomes,
    ) -> LoadedChunkView {
        before.reset(self.policies()).apply(self.step_updates(before, outcomes))
    }

    /// `collected` looks at no outcomes but those of the first `k` updaters.
    pub proof fn lemma_collected_frame(
        &self,
        before: LoadedChunkView,
        outcomes: Outcomes,
        others: Outcomes,
        k: nat,
    )
        requires
            forall|j: int, p: int| 0 <= j < k ==> #[trigger] outcomes(j, p) == others(j, p),
        ensures
            self.collected(before, outcomes, k) == self.collected(before, others, k),
        decreases k,
    {
        if k > 0 {
            self.lemma_collected_frame(before, outcomes, others, (k - 1) as nat);
            let (target, updater) = self.updaters()[k - 1];
            let cells = before.tracker.considerable_cells(updater.policy(), CHUNK_WIDTH_E3 as nat);
            assert forall|i: int| 0 <= i < cells.len() implies outcomes(k - 1, #[trigger] cells[i])
                == others(k - 1, cells[i]) by {
                assert(outcomes(k - 1, cells[i]) == others(k - 1, cells[i]));
            }
            lemma_cell_updates_frame(
                target,
                cells,
                before.blocks,
                outcomes,
                others,
                k - 1,
                cells.len(),
            );
        }
    }

    /// What the first `k` updaters ask for: a block type for a cell exactly where the
    /// rule of one of them is evaluated at the cell and gave that block type. They ask
    /// for cells of the chunk only.
    pub proof fn lemma_collected(&self, before: LoadedChunkView, outcomes: Outcomes, k: nat)
        requires
            k <= self.updaters().len(),
        ensures
            forall|update: (int, BlockType)| #[trigger]
                self.collected(before, outcomes, k).contains(update) <==> exists|j: int|
                    j < k && #[trigger] self.evaluates(before, j, update.0) && outcomes(j, update.0)
                        == Some(update.1),
            forall|i: int|
                0 <= i < self.collected(before, outcomes, k).len() ==> is_index(
                    (#[trigger] self.collected(before, outcomes, k)[i]).0,
                ),
        decreases k,
    {
        if k > 0 {
            let earlier = self.collected(before, outcomes, (k - 1) as nat);
            let all = self.collected(before, outcomes, k);
            let (target, updater) = self.updaters()[k - 1];
            let cells = before.tracker.considerable_cells(updater.policy(), CHUNK_WIDTH_E3 as nat);
            let here = cell_updates(target, cells, before.blocks, outcomes, k - 1, cells.len());
            self.lemma_collected(before, outcomes, (k - 1) as nat);
            lemma_cell_updates(target, cells, before.blocks, outcomes, k - 1, cells.len());
            lemma_considerable_cells(before.tracker, updater.policy(), CHUNK_WIDTH_E3 as nat);
            assert forall|update: (int, BlockType)| #[trigger]
                all.contains(update) <==> exists|j: int|
                    j < k && #[trigger] self.evaluates(before, j, update.0) && outcomes(j, update.0)
                        == Some(update.1) by {
                if all.contains(update) {
                    let i = choose|i: int| 0 <= i < all.len() && all[i] == update;
                    if i < earlier.len() {
                        assert(earlier[i] == update);
                        assert(earlier.contains(update));
                    } else {
                        assert(here[i - earlier.len()] == update);
                        assert(here.contains(update));
                        assert(cells.contains(update.0));
                        assert(self.evaluates(before, k - 1, update.0));
                    }
                }
                if exists|j: int|
                    j < k && #[trigger] self.evaluates(before, j, update.0) && outcomes(j, update.0)
                        == Some(update.1) {
                    let j = choose|j: int|
                        j < k && #[trigger] self.evaluates(before, j, update.0) && outcomes(
                            j,
                            update.0,
                        ) == Some(update.1);
                    if j < k - 1 {
                        assert(earlier.contains(update));
                        let i = choose|i: int| 0 <= i < earlier.len() && earlier[i] == update;
                        assert(all[i] == update);
                    } else {
                        assert(cells.contains(update.0));
                        let a = choose|a: int| 0 <= a < cells.len() && cells[a] == update.0;
                        assert(cells[a] == update.0);
                        assert(here.contains(update));
                        let i = choose|i: int| 0 <= i < here.len() && here[i] == update;
                        assert(all[earlier.len() + i] == update);
                    }
                }
            }
            assert forall|i: int| 0 <= i < all.len() implies is_index((#[trigger] all[i]).0) by {
                assert(all.contains(all[i]));
            }
        }
    }

    /// Within a step, no rule sees what the step writes. Each block type that the step
    /// writes to a cell is what a rule gave that was handed the chunk as it is before the
    /// step, at a cell that held the target of the rule before the step; and the chunk
    /// that a rule is handed holds the blocks from before the step.
    pub proof fn lemma_rules_see_the_chunk_before_the_step(
        &self,
        loaded_chunk: &LoadedChunk,
        outcomes: Outcomes,
        i: int,
    )
        requires
            self.explains(loaded_chunk, outcomes),
            0 <= i < self.step_updates(loaded_chunk@, outcomes).len(),
        ensures
            ({
                let (p, block_type) = self.step_updates(loaded_chunk@, outcomes)[i];
                exists|k: int|
                    0 <= k < self.updaters().len() && loaded_chunk@.blocks[p]
                        == (#[trigger] self.updaters()[k]).0 && self.updaters()[k].1.yields(
                        &loaded_chunk.chunk(),
                        ChunkPos::at(p),
                        Some(block_type),
                    )
            }),
            forall|pos: ChunkPos| #[trigger]
                UpdaterHandle::bound_to(&loaded_chunk.chunk(), pos).context().chunk()@
                    == loaded_chunk@.blocks,
    {
        let all = self.step_updates(loaded_chunk@, outcomes);
        let (p, block_type) = all[i];
        self.lemma_collected(loaded_chunk@, outcomes, self.updaters().len());
        assert(all.contains(all[i]));
        let k = choose|k: int|
            k < self.updaters().len() && #[trigger] self.evaluates(loaded_chunk@, k, p) && outcomes(
                k,
                p,
            ) == Some(block_type);
        assert(loaded_chunk@.blocks[p] == self.updaters()[k].0);
        assert forall|pos: ChunkPos| #[trigger]
            UpdaterHandle::bound_to(&loaded_chunk.chunk(), pos).context().chunk()@
                == loaded_chunk@.blocks by {
            UpdaterHandle::lemma_bound_to(&loaded_chunk.chunk(), pos);
            loaded_chunk.lemma_chunk();
        }
    }

    /// A step changes blocks only where a rule asked for it: a cell at which no rule was
    /// evaluated, or at which every rule that was evaluated gave `None`, holds after the
    /// step what it held before.
    pub proof fn lemma_other_cells_stay(
        &self,
        before: LoadedChunkView,
        outcomes: Outcomes,
        p: int,
    )
        requires
            before.blocks.len() == CHUNK_WIDTH_E3,
            is_index(p),
            forall|k: int| #[trigger] self.evaluates(before, k, p) ==> outcomes(k, p) is None,
        ensures
            self.after_step(before, outcomes).blocks[p] == before.blocks[p],
    {
        let updates = self.step_updates(before, outcomes);
        self.lemma_collected(before, outcomes, self.updaters().len());
        lemma_apply(before.reset(self.policies()), updates);
        assert forall|i: int| 0 <= i < updates.len() implies (#[trigger] updates[i]).0 != p by {
            assert(updates.contains(updates[i]));
        }
        lemma_last_written_of_none(updates, p, before.blocks[p]);
    }

    /// A cell for which a rule asked holds what a rule asked for. Where a rule that was
    /// evaluated at the cell gave a block type, the cell holds after the step a block type
    /// that a rule gave that was evaluated at the cell: the one that was collected last.
    pub proof fn lemma_changed_cells(&self, before: LoadedChunkView, outcomes: Outcomes, p: int)
        requires
            before.blocks.len() == CHUNK_WIDTH_E3,
            is_index(p),
            exists|k: int| #[trigger] self.evaluates(before, k, p) && outcomes(k, p) is Some,
        ensures
            self.after_step(before, outcomes).blocks[p] == last_written(
                self.step_updates(before, outcomes),
                p,
                before.blocks[p],
            ),
            exists|k: int| #[trigger]
                self.evaluates(before, k, p) && outcomes(k, p) == Some(
                    self.after_step(before, outcomes).blocks[p],
                ),
    {
        let updates = self.step_updates(before, outcomes);
        let after = self.after_step(before, outcomes);
        self.lemma_collected(before, outcomes, self.updaters().len());
        lemma_apply(before.reset(self.policies()), updates);
        let k = choose|k: int| #[trigger] self.evaluates(before, k, p) && outcomes(k, p) is Some;
        assert(updates.contains((p, outcomes(k, p)->0)));
        let i = choose|i: int| 0 <= i < updates.len() && updates[i] == (p, outcomes(k, p)->0);
        assert(updates[i].0 == p);
        lemma_last_written_of_some(updates, p, before.blocks[p]);
        assert(updates.contains((p, after.blocks[p])));
    }

    /// A write shows one step later. Let a step write the block type of the cell `a`, and
    /// let the cell `b` be no farther from `a` than the distance of `policy`, a policy of
    /// the simulator that depends on the block type. In the step itself the rules with
    /// that policy are evaluated at `b` only if `b` was considerable before the step. After
    /// the step `b` is considerable for the policy.
    pub proof fn lemma_one_step_lag(
        &self,
        before: LoadedChunkView,
        outcomes: Outcomes,
        policy: Policy,
        a: int,
        b: int,
    )
        requires
            before.blocks.len() == CHUNK_WIDTH_E3,
            self.policies().contains(policy),
            policy.fields().contains(CacheableField::CacheableBlockType),
            is_index(b),
            within(b, a, policy.distance() as int),
            exists|i: int|
                0 <= i < self.step_updates(before, outcomes).len() && (#[trigger] self.step_updates(
                    before,
                    outcomes,
                )[i]).0 == a,
        ensures
            forall|k: int|
                0 <= k < self.updaters().len() && (#[trigger] self.updaters()[k]).1.policy()
                    == policy && !before.tracker.considerable(policy, b) ==> !self.evaluates(
                    before,
                    k,
                    b,
                ),
            self.after_step(before, outcomes).tracker.considerable(policy, b),
    {
        let updates = self.step_updates(before, outcomes);
        let after = self.after_step(before, outcomes);
        self.lemma_collected(before, outcomes, self.updaters().len());
        lemma_apply(before.reset(self.policies()), updates);
        let i = choose|i: int| 0 <= i < updates.len() && (#[trigger] updates[i]).0 == a;
        assert(is_index(updates[i].0));
        assert(after.tracker.written.contains((a, CacheableField::CacheableBlockType)));
    }

    /// A simulator without rules.
    pub fn new() -> (simulator: Simulator<R>)
        ensures
            simulator.updaters() == Seq::<(BlockType, Updater<R>)>::empty(),
    {
        Simulator { updaters: Vec::new(), cacheabilities: Vec::new() }
    }

    /// The policies of the updaters, each once.
    pub fn cacheabilities(&self) -> (cacheabilities: &Vec<Cacheability>)
        ensures
            policy_set(cacheabilities@) == self.policies(),
            forall|i: int, j: int|
                0 <= i < j < cacheabilities@.len() ==> (#[trigger] cacheabilities@[i])@
                    != (#[trigger] cacheabilities@[j])@,
    {
        proof {
            use_type_invariant(self);
            assert(policy_set(self.cacheabilities@) =~= self.policies());
        }
        &self.cacheabilities
    }

    /// Adds `updater` as the last of the rules, for the blocks of type `target`.
    pub fn register(&mut self, target: BlockType, updater: Updater<R>)
        ensures
            final(self).updaters() == old(self).updaters().push((target, updater)),
    {
        proof {
            use_type_invariant(&*self);
        }
        let mut taken: Simulator<R> = Simulator::new();
        std::mem::swap(self, &mut taken);
        let Simulator { mut updaters, mut cacheabilities } = taken;
        let ghost listed = cacheabilities@;
        let ghost before = updaters@;
        if !lists(&cacheabilities, &updater.cacheability) {
            cacheabilities.push(updater.cacheability.clone());
            assert forall|policy: Policy| policy_set(listed).contains(policy) implies policy_set(
                cacheabilities@,
            ).contains(policy) by {
                let i = choose|i: int| 0 <= i < listed.len() && (#[trigger] listed[i])@ == policy;
                assert(cacheabilities@[i]@ == policy);
            }
            assert(cacheabilities@[listed.len() as int]@ == updater.policy());
        }
        updaters.push((target, updater));
        proof {
            assert forall|i: int| 0 <= i < cacheabilities@.len() implies exists|k: int|
                0 <= k < updaters@.len() && (#[trigger] updaters@[k]).1.policy()
                    == (#[trigger] cacheabilities@[i])@ by {
                if i < listed.len() {
                    let k = choose|k: int|
                        0 <= k < before.len() && (#[trigger] before[k]).1.policy() == listed[i]@;
                    assert(updaters@[k].1.policy() == cacheabilities@[i]@);
                } else {
                    assert(updaters@[before.len() as int].1.policy() == cacheabilities@[i]@);
                }
            }
            assert forall|k: int| 0 <= k < updaters@.len() implies policy_set(
                cacheabilities@,
            ).contains((#[trigger] updaters@[k]).1.policy()) by {
                if k < before.len() {
                    assert(policy_set(listed).contains(before[k].1.policy()));
                }
            }
        }
        *self = Simulator { updaters, cacheabilities };
    }

    /// Adds a rule for the blocks of type `target`: hands `setup_fn` a new updater, on
    /// which it prepares the queries of the rule and which it hands back with its rule,
    /// and registers what comes back.
    pub fn add_updater<F>(&mut self, target: BlockType, setup_fn: F) where
        F: FnOnce(Updater<NoRule>) -> Updater<R>,

        requires
            call_requires(setup_fn, (Updater::fresh(),)),
        ensures
            exists|updater: Updater<R>|
                call_ensures(setup_fn, (Updater::fresh(),), updater) && final(self).updaters()
                    == old(self).updaters().push((target, updater)),
    {
        let updater = setup_fn(Updater::new());
        self.register(target, updater);
    }

    /// The first phase of a step: evaluates each rule, in the order in which the rules
    /// were registered, at each cell that is considerable for its policy and holds its
    /// target, and hands back what the rules ask for. Every rule is handed the chunk as it
    /// is; nothing is written.
    pub fn collect(&self, loaded_chunk: &LoadedChunk) -> (updates: Vec<BlockTypeUpdate>)
        ensures
            exists|outcomes: Outcomes|
                self.explains(loaded_chunk, outcomes) && update_pairs(updates@)
                    == self.step_updates(loaded_chunk@, outcomes),
    {
        let mut updates: Vec<BlockTypeUpdate> = Vec::new();
        let ghost mut outcomes: Outcomes = |j: int, p: int| None::<BlockType>;
        let ghost before = loaded_chunk@;
        let chunk = loaded_chunk.get();
        let mut k: usize = 0;
        assert(update_pairs(updates@) =~= self.collected(before, outcomes, 0));
        while k < self.updaters.len()
            invariant
                k <= self.updaters.len(),
                before == loaded_chunk@,
                *chunk == loaded_chunk.chunk(),
                update_pairs(updates@) == self.collected(before, outcomes, k as nat),
                forall|j: int, p: int|
                    j < k && #[trigger] self.evaluates(before, j, p)
                        ==> self.updaters()[j].1.yields(chunk, ChunkPos::at(p), outcomes(j, p)),
            decreases self.updaters.len() - k,
        {
            let target = self.updaters[k].0;
            let updater = &self.updaters[k].1;
            let cells = loaded_chunk.considerable_blocks_iter(&updater.cacheability);
            let ghost places = cell_indices(cells@);
            proof {
                lemma_considerable_cells(before.tracker, updater.policy(), CHUNK_WIDTH_E3 as nat);
            }
            let mut i: usize = 0;
            assert(update_pairs(updates@) =~= self.collected(before, outcomes, k as nat)
                + cell_updates(target, places, before.blocks, outcomes, k as int, 0));
            while i < cells.len()
                invariant
                    i <= cells.len(),
                    k < self.updaters.len(),
                    target == self.updaters()[k as int].0,
                    *updater == self.updaters()[k as int].1,
                    before == loaded_chunk@,
                    *chunk == loaded_chunk.chunk(),
                    places == cell_indices(cells@),
                    places.len() == cells@.len(),
                    forall|a: int, b: int|
                        0 <= a < b < places.len() ==> #[trigger] places[a] < #[trigger] places[b],
                    forall|a: int|
                        0 <= a < cells@.len() ==> (#[trigger] cells@[a]).1 == (BlockInfo {
                            block_type: before.blocks[cells@[a].0.index()],
                        }),
                    update_pairs(updates@) == self.collected(before, outcomes, k as nat)
                        + cell_updates(target, places, before.blocks, outcomes, k as int, i as nat),
                    forall|j: int, p: int|
                        j < k && #[trigger] self.evaluates(before, j, p)
                            ==> self.updaters()[j].1.yields(chunk, ChunkPos::at(p), outcomes(j, p)),
                    forall|a: int|
                        0 <= a < i && before.blocks[#[trigger] places[a]] == target
                            ==> updater.yields(
                            chunk,
                            ChunkPos::at(places[a]),
                            outcomes(k as int, places[a]),
                        ),
                decreases cells.len() - i,
            {
                let pos = cells[i].0;
                let block = cells[i].1;
                let ghost p = pos.index();
                let ghost earlier = outcomes;
                let ghost pairs = update_pairs(updates@);
                let ghost done = self.collected(before, outcomes, k as nat);
                let ghost here = cell_updates(
                    target,
                    places,
                    before.blocks,
                    outcomes,
                    k as int,
                    i as nat,
                );
                assert(p == places[i as int]);
                if target == block.block_type {
                    let outcome = updater.run(chunk, pos);
                    proof {
                        pos.lemma_at(p);
                        outcomes =
                        |j: int, q: int|
                            if j == k && q == p {
                                outcome
                            } else {
                                earlier(j, q)
                            };
                        self.lemma_collected_frame(before, earlier, outcomes, k as nat);
                        lemma_cell_updates_frame(
                            target,
                            places,
                            before.blocks,
                            earlier,
                            outcomes,
                            k as int,
                            i as nat,
                        );
                    }
                    if let Some(block_type) = outcome {
                        updates.push(BlockTypeUpdate { pos, block_type });
                        assert(update_pairs(updates@) =~= pairs.push((p, block_type)));
                        assert(done + here.push((p, block_type)) =~= (done + here).push(
                            (p, block_type),
                        ));
                    }
                }
                i += 1;
            }
            proof {
                assert forall|p: int| #[trigger]
                    self.evaluates(before, k as int, p) implies self.updaters()[k as int].1.yields(
                    chunk,
                    ChunkPos::at(p),
                    outcomes(k as int, p),
                ) by {
                    assert(places.contains(p));
                    let a = choose|a: int| 0 <= a < places.len() && places[a] == p;
                    assert(before.blocks[places[a]] == target);
                }
            }
            k += 1;
        }
        assert(self.explains(loaded_chunk, outcomes));
        updates
    }

    /// The second and third phase of a step: resets the tracker, which from then on keeps
    /// track for the policies of the simulator, and writes `updates` to the chunk, the
    /// first one first. The writes are what the next step has to look at.
    pub fn reset_and_commit(&self, loaded_chunk: &mut LoadedChunk, updates: &Vec<BlockTypeUpdate>)
        ensures
            final(loaded_chunk)@ == old(loaded_chunk)@.reset(self.policies()).apply(
                update_pairs(updates@),
            ),
    {
        proof {
            use_type_invariant(self);
        }
        loaded_chunk.reset_cache_busters(self.cacheabilities.as_slice());
        let ghost start = loaded_chunk@;
        let ghost pairs = update_pairs(updates@);
        assert(policy_set(self.cacheabilities@) =~= self.policies());
        assert(pairs.take(0) =~= Seq::empty());
        let mut i: usize = 0;
        while i < updates.len()
            invariant
                i <= updates.len(),
                pairs == update_pairs(updates@),
                loaded_chunk@ == start.apply(pairs.take(i as int)),
            decreases updates.len() - i,
        {
            let update = updates[i];
            loaded_chunk.set_block_type(update.pos, update.block_type);
            assert(pairs.take(i + 1).drop_last() =~= pairs.take(i as int));
            i += 1;
        }
        assert(pairs.take(updates.len() as int) =~= pairs);
    }

    /// One step of the simulation on `loaded_chunk`. Every rule is evaluated on the chunk
    /// as it is before the step; what the rules ask for is written after the last rule was
    /// evaluated, the tracker having been reset in between.
    pub fn step(&self, loaded_chunk: &mut LoadedChunk)
        ensures
            exists|outcomes: Outcomes|
                self.explains(old(loaded_chunk), outcomes) && final(loaded_chunk)@
                    == self.after_step(old(loaded_chunk)@, outcomes),
    {
        let updates = self.collect(loaded_chunk);
        self.reset_and_commit(loaded_chunk, &updates);
    }
}

} // verus!
