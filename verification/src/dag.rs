//! Bookkeeping of the block DAG: blocks by hash, the children of each block,
//! the current tips, blue scores and summary statistics.

use vstd::prelude::*;

use crate::collections::{distinct, index_of, lemma_text_set_len, text_set, texts, StrMap, StrSet};
use crate::types::{Block, KaspaError};

verus! {

/// The hash under which a block is held: the hash the node reported for it.
pub open spec fn block_hash(b: Block) -> Option<Seq<char>> {
    match b.verbose_data {
        Some(v) => Some(v.hash@),
        None => None,
    }
}

/// The hashes of the parents of a block, in the order the header lists them.
pub open spec fn parent_hashes(b: Block) -> Seq<Seq<char>> {
    texts(b.header.parents@)
}

/// The child lists after block `h` is recorded as a child of each of `parents`,
/// one parent after the other (a parent listed twice gets `h` twice).
pub open spec fn link_children(
    children: Map<Seq<char>, Seq<Seq<char>>>,
    parents: Seq<Seq<char>>,
    h: Seq<char>,
) -> Map<Seq<char>, Seq<Seq<char>>>
    decreases parents.len(),
{
    if parents.len() == 0 {
        children
    } else {
        let before = link_children(children, parents.drop_last(), h);
        let p = parents.last();
        let list = if before.contains_key(p) {
            before[p]
        } else {
            Seq::empty()
        };
        before.insert(p, list.push(h))
    }
}

/// The tips after a block `h` with the given parents is added: its parents stop
/// being tips and it becomes one.
pub open spec fn next_tips(tips: Set<Seq<char>>, parents: Seq<Seq<char>>, h: Seq<char>) -> Set<
    Seq<char>,
> {
    Set::new(|k: Seq<char>| tips.contains(k) && !parents.contains(k)).insert(h)
}

/// Whether a tip has children: the state that the DAG reports as inconsistent.
pub open spec fn tip_has_children(
    tips: Set<Seq<char>>,
    children: Map<Seq<char>, Seq<Seq<char>>>,
    t: Seq<char>,
) -> bool {
    tips.contains(t) && children.contains_key(t) && children[t].len() > 0
}

/// The message of the error that names a tip with children.
pub open spec fn tip_error_message(t: Seq<char>) -> Seq<char> {
    "Tip "@ + t + " has children, inconsistent state"@
}

/// The larger of two naturals.
pub open spec fn max_nat(a: nat, b: nat) -> nat {
    if a >= b {
        a
    } else {
        b
    }
}

/// The blue score of `h`, counting chains of ancestors of at most `depth` blocks:
/// 0 for a hash that is not held, else one more than the highest score of its parents.
pub open spec fn blue_score_within(blocks: Map<Seq<char>, Block>, h: Seq<char>, depth: nat) -> nat
    decreases depth, 0nat,
{
    if depth == 0 || !blocks.contains_key(h) {
        0
    } else {
        1 + max_parent_score(blocks, parent_hashes(blocks[h]), (depth - 1) as nat)
    }
}

/// The highest score, within `depth`, among the hashes `ps` (0 when there are none).
pub open spec fn max_parent_score(blocks: Map<Seq<char>, Block>, ps: Seq<Seq<char>>, depth: nat) -> nat
    decreases depth, ps.len() + 1,
{
    if ps.len() == 0 {
        0
    } else {
        max_nat(
            max_parent_score(blocks, ps.drop_last(), depth),
            blue_score_within(blocks, ps.last(), depth),
        )
    }
}

/// The blue score of `h`: the number of blocks on the longest chain of held
/// ancestors that ends at `h`, chains counted up to the number of blocks held
/// (a bound that every chain of an acyclic DAG meets).
pub open spec fn blue_score(blocks: Map<Seq<char>, Block>, h: Seq<char>) -> nat {
    blue_score_within(blocks, h, blocks.dom().len())
}

/// A score within `depth` never exceeds `depth`.
pub proof fn lemma_blue_score_bounded(blocks: Map<Seq<char>, Block>, h: Seq<char>, depth: nat)
    ensures
        blue_score_within(blocks, h, depth) <= depth,
    decreases depth, 0nat,
{
    if depth > 0 && blocks.contains_key(h) {
        lemma_max_parent_score_bounded(blocks, parent_hashes(blocks[h]), (depth - 1) as nat);
    }
}

/// The highest parent score within `depth` never exceeds `depth`.
pub proof fn lemma_max_parent_score_bounded(blocks: Map<Seq<char>, Block>, ps: Seq<Seq<char>>, depth: nat)
    ensures
        max_parent_score(blocks, ps, depth) <= depth,
    decreases depth, ps.len() + 1,
{
    if ps.len() > 0 {
        lemma_max_parent_score_bounded(blocks, ps.drop_last(), depth);
        lemma_blue_score_bounded(blocks, ps.last(), depth);
    }
}

/// Scores one level deeper depend only on the scores of the held blocks.
proof fn lemma_max_parent_score_congruent(
    blocks: Map<Seq<char>, Block>,
    ps: Seq<Seq<char>>,
    d1: nat,
    d2: nat,
)
    requires
        forall|k: Seq<char>| #[trigger] blocks.contains_key(k) ==> blue_score_within(blocks, k, d1)
            == blue_score_within(blocks, k, d2),
    ensures
        max_parent_score(blocks, ps, d1) == max_parent_score(blocks, ps, d2),
    decreases ps.len(),
{
    if ps.len() > 0 {
        lemma_max_parent_score_congruent(blocks, ps.drop_last(), d1, d2);
        if !blocks.contains_key(ps.last()) {
            assert(blue_score_within(blocks, ps.last(), d1) == 0);
            assert(blue_score_within(blocks, ps.last(), d2) == 0);
        }
    }
}

/// Once one more level changes no held block's score, no further level does.
proof fn lemma_blue_score_stable(blocks: Map<Seq<char>, Block>, r: nat, j: nat)
    requires
        forall|k: Seq<char>| #[trigger] blocks.contains_key(k) ==> blue_score_within(blocks, k, r + 1)
            == blue_score_within(blocks, k, r),
    ensures
        forall|k: Seq<char>| #[trigger] blocks.contains_key(k) ==> blue_score_within(blocks, k, r + j)
            == blue_score_within(blocks, k, r),
    decreases j,
{
    if j > 0 {
        lemma_blue_score_stable(blocks, r, (j - 1) as nat);
        assert forall|k: Seq<char>| #[trigger] blocks.contains_key(k) implies blue_score_within(
            blocks,
            k,
            r + j,
        ) == blue_score_within(blocks, k, r) by {
            let d1 = (r + j - 1) as nat;
            lemma_max_parent_score_congruent(blocks, parent_hashes(blocks[k]), d1, r);
            assert(blue_score_within(blocks, k, d1 + 1) == blue_score_within(blocks, k, r + 1));
        }
    }
}

/// Summary statistics of the DAG.
pub struct DAGAnalysis {
    pub total_blocks: usize,
    pub max_parents: usize,
    pub total_blue_score: u64,
    pub average_blue_score: u64,
    pub tips_count: usize,
}

impl DAGAnalysis {
    /// All statistics zero.
    pub fn new() -> (a: Self)
        ensures
            a.total_blocks == 0,
            a.max_parents == 0,
            a.total_blue_score == 0,
            a.average_blue_score == 0,
            a.tips_count == 0,
    {
        DAGAnalysis {
            total_blocks: 0,
            max_parents: 0,
            total_blue_score: 0,
            average_blue_score: 0,
            tips_count: 0,
        }
    }
}

/// The blue score a block reports for itself, 0 when it reports none.
pub open spec fn reported_blue_score(b: Block) -> nat {
    match b.verbose_data {
        Some(v) => v.blue_score as nat,
        None => 0,
    }
}

/// The sum of the reported blue scores of `bs`.
pub open spec fn sum_reported_blue_scores(bs: Seq<Block>) -> nat
    decreases bs.len(),
{
    if bs.len() == 0 {
        0
    } else {
        sum_reported_blue_scores(bs.drop_last()) + reported_blue_score(bs.last())
    }
}

/// The largest number of parents among `bs`.
pub open spec fn max_parent_count(bs: Seq<Block>) -> nat
    decreases bs.len(),
{
    if bs.len() == 0 {
        0
    } else {
        max_nat(max_parent_count(bs.drop_last()), bs.last().header.parents@.len())
    }
}

/// The block DAG as seen so far: blocks by hash, the children of each hash, and
/// the tips (blocks that no later block has named as a parent).
pub struct DAGHandler {
    blocks: StrMap<Block>,
    children: StrMap<Vec<String>>,
    tips: StrSet,
}

impl DAGHandler {
    #[verifier::type_invariant]
    spec fn inv(self) -> bool {
        &&& forall|k: Seq<char>| #[trigger] self.tips.view().contains(k) ==> self.blocks.view().contains_key(k)
        &&& forall|k: Seq<char>| #[trigger] self.blocks.view().contains_key(k) ==> block_hash(
            self.blocks.view()[k],
        ) == Some(k)
    }

    /// The blocks held, by hash.
    pub closed spec fn blocks_view(self) -> Map<Seq<char>, Block> {
        self.blocks.view()
    }

    /// The blocks held, in the order they were first added.
    pub closed spec fn block_list(self) -> Seq<Block> {
        self.blocks.values()
    }

    /// For each hash that some block named as a parent, the hashes of those
    /// children, in the order they were added.
    pub closed spec fn children_view(self) -> Map<Seq<char>, Seq<Seq<char>>> {
        self.children.view().map_values(|v: Vec<String>| texts(v@))
    }

    /// The current tips.
    pub closed spec fn tips_view(self) -> Set<Seq<char>> {
        self.tips.view()
    }

    /// The position in `block_list` of the block held under `h`.
    pub closed spec fn block_position(self, h: Seq<char>) -> int {
        index_of(self.blocks.keys(), h)
    }

    /// Whether the list of blocks matches the blocks held: as many, finitely many,
    /// each one held under its own hash, and the block of each hash at its position.
    pub open spec fn listing_matches(self) -> bool {
        &&& self.blocks_view().dom().finite()
        &&& self.block_list().len() == self.blocks_view().dom().len()
        &&& forall|i: int| 0 <= i < self.block_list().len() ==> (#[trigger] block_hash(self.block_list()[i]) matches Some(
            k,
        ) && self.blocks_view().contains_key(k) && self.blocks_view()[k] == self.block_list()[i])
        &&& forall|k: Seq<char>| #[trigger] self.blocks_view().contains_key(k) ==> 0 <= self.block_position(k)
            < self.block_list().len() && self.block_list()[self.block_position(k)] == self.blocks_view()[k]
    }

    /// An empty DAG.
    pub fn new() -> (d: Self)
        ensures
            d.blocks_view() == Map::<Seq<char>, Block>::empty(),
            d.children_view() == Map::<Seq<char>, Seq<Seq<char>>>::empty(),
            d.tips_view() == Set::<Seq<char>>::empty(),
            d.block_list().len() == 0,
            d.listing_matches(),
    {
        let d = DAGHandler { blocks: StrMap::new(), children: StrMap::new(), tips: StrSet::new() };
        assert(d.children_view() =~= Map::<Seq<char>, Seq<Seq<char>>>::empty());
        proof {
            assert(text_set(d.blocks.keys()) =~= Set::<Seq<char>>::empty());
            lemma_text_set_len(d.blocks.keys());
        }
        d
    }

    /// Adds a block: records it as a child of each of its parents, makes it a tip in
    /// place of its parents, stores it under its hash, then checks that no tip has
    /// children. A block without a reported hash is refused and changes nothing; a
    /// failed check is reported after the block has been added.
    pub fn add_block(&mut self, block: Block) -> (r: Result<(), KaspaError>)
        ensures
            match block_hash(block) {
                None => {
                    &&& r matches Err(KaspaError::Custom(m)) && m@ == "Block missing hash"@
                    &&& final(self).blocks_view() == old(self).blocks_view()
                    &&& final(self).children_view() == old(self).children_view()
                    &&& final(self).tips_view() == old(self).tips_view()
                },
                Some(h) => {
                    &&& final(self).blocks_view() == old(self).blocks_view().insert(h, block)
                    &&& !old(self).blocks_view().contains_key(h) ==> final(self).block_list() == old(
                        self,
                    ).block_list().push(block)
                    &&& old(self).blocks_view().contains_key(h) ==> final(self).block_list() == old(
                        self,
                    ).block_list().update(old(self).block_position(h), block)
                    &&& final(self).children_view() == link_children(
                        old(self).children_view(),
                        parent_hashes(block),
                        h,
                    )
                    &&& final(self).tips_view() == next_tips(old(self).tips_view(), parent_hashes(block), h)
                    &&& (r is Ok <==> !exists|t: Seq<char>| tip_has_children(
                        final(self).tips_view(),
                        final(self).children_view(),
                        t,
                    ))
                    &&& (r matches Err(e) ==> exists|t: Seq<char>| #[trigger] tip_has_children(
                        final(self).tips_view(),
                        final(self).children_view(),
                        t,
                    ) && (e matches KaspaError::Custom(m) && m@ == tip_error_message(t)))
                },
            },
            final(self).listing_matches(),
            block_hash(block) is None ==> final(self).block_list() == old(self).block_list(),
            forall|k: Seq<char>| #[trigger] final(self).tips_view().contains(k) ==> final(self).blocks_view().contains_key(k),
            forall|k: Seq<char>| #[trigger] final(self).blocks_view().contains_key(k) ==> block_hash(
                final(self).blocks_view()[k],
            ) == Some(k),
    {
        proof { use_type_invariant(&*self); }
        // The map's length call states the shape of its keys and values, which the
        // listing proof needs.
        let _ = self.blocks.len();
        proof { lemma_listing(*self); }
        let hash: String = match &block.verbose_data {
            Some(v) => v.hash.clone(),
            None => {
                return Err(KaspaError::Custom(String::from_str("Block missing hash")));
            },
        };
        let mut taken = DAGHandler::new();
        std::mem::swap(&mut taken, self);
        let DAGHandler { blocks: mut blocks, children: mut children, tips: mut tips } = taken;
        link_children_of(&mut children, &block.header.parents, &hash);
        update_tips(&mut tips, &block.header.parents, &hash);
        blocks.insert(hash.as_str(), block);
        assert forall|k: Seq<char>| #[trigger] tips.view().contains(k) implies blocks.view().contains_key(k) by {
            if k != hash@ {
                assert(old(self).tips.view().contains(k));
            }
        }
        *self = DAGHandler { blocks, children, tips };
        proof { use_type_invariant(&*self); }
        let _ = self.blocks.len();
        proof { lemma_listing(*self); }
        assert(self.children_view() == link_children(old(self).children_view(), parent_hashes(block), hash@));
        assert(self.tips_view() == next_tips(old(self).tips_view(), parent_hashes(block), hash@));
        assert(self.blocks_view() == old(self).blocks_view().insert(hash@, block));
        validate_consistency(&self.tips, &self.children)
    }

    /// Whether a block is held and every one of its parents is held too.
    pub fn is_block_no_longer_orphan(&self, block_hash: &str) -> (r: bool)
        ensures
            r == (self.blocks_view().contains_key(block_hash@) && forall|i: int|
                0 <= i < parent_hashes(self.blocks_view()[block_hash@]).len()
                    ==> self.blocks_view().contains_key(
                    #[trigger] parent_hashes(self.blocks_view()[block_hash@])[i],
                )),
    {
        match self.blocks.get(block_hash) {
            None => false,
            Some(block) => {
                let parents = &block.header.parents;
                let mut i: usize = 0;
                while i < parents.len()
                    invariant
                        i <= parents@.len(),
                        self.blocks_view().contains_key(block_hash@),
                        *block == self.blocks_view()[block_hash@],
                        *parents == block.header.parents,
                        forall|j: int| 0 <= j < i ==> self.blocks_view().contains_key(
                            #[trigger] parent_hashes(*block)[j],
                        ),
                    decreases parents@.len() - i,
                {
                    if !self.blocks.contains_key(parents[i].as_str()) {
                        assert(parent_hashes(*block)[i as int] == parents@[i as int]@);
                        return false;
                    }
                    i = i + 1;
                }
                true
            },
        }
    }
    /// The blue score of every held block, in the order of `blocks`.
    fn all_blue_scores(&self) -> (scores: Vec<u64>)
        ensures
            scores@.len() == self.blocks.keys().len(),
            forall|i: int| 0 <= i < scores@.len() ==> scores@[i] == blue_score(
                self.blocks_view(),
                #[trigger] self.blocks.keys()[i]@,
            ),
    {
        let n = self.blocks.len();
        let ghost blocks = self.blocks_view();
        let ghost keys = self.blocks.keys();
        proof { lemma_text_set_len(keys); }
        // For each block, the position of each of its parents among the blocks.
        let mut parent_idx: Vec<Vec<Option<usize>>> = Vec::new();
        let mut i: usize = 0;
        while i < n
            invariant
                n == keys.len(),
                keys == self.blocks.keys(),
                blocks == self.blocks_view(),
                blocks.dom() == text_set(keys),
                forall|a: int| 0 <= a < n ==> #[trigger] blocks[keys[a]@] == self.blocks.values()[a],
                i <= n,
                parent_idx@.len() == i,
                forall|a: int| #![trigger parent_idx@[a]] 0 <= a < i ==> parent_idx@[a]@.len() == parent_hashes(
                    self.blocks.values()[a],
                ).len() && forall|b: int| 0 <= b < parent_idx@[a]@.len() ==> match #[trigger] parent_idx@[a]@[b] {
                    Some(x) => x < n && keys[x as int]@ == parent_hashes(self.blocks.values()[a])[b],
                    None => !blocks.contains_key(parent_hashes(self.blocks.values()[a])[b]),
                },
            decreases n - i,
        {
            let block = self.blocks.value_at(i);
            let parents = &block.header.parents;
            let mut row: Vec<Option<usize>> = Vec::new();
            let mut j: usize = 0;
            while j < parents.len()
                invariant
                    n == keys.len(),
                    keys == self.blocks.keys(),
                    blocks == self.blocks_view(),
                    *block == self.blocks.values()[i as int],
                    *parents == block.header.parents,
                    j <= parents@.len(),
                    row@.len() == j,
                    forall|b: int| 0 <= b < j ==> match #[trigger] row@[b] {
                        Some(x) => x < n && keys[x as int]@ == parent_hashes(*block)[b],
                        None => !blocks.contains_key(parent_hashes(*block)[b]),
                    },
                decreases parents@.len() - j,
            {
                let found = self.blocks.find(parents[j].as_str());
                proof {
                    assert(parent_hashes(*block)[j as int] == parents@[j as int]@);
                }
                row.push(found);
                j = j + 1;
            }
            parent_idx.push(row);
            i = i + 1;
        }
        // Level by level: after `round` rounds, `scores` holds the scores within `round`.
        let mut scores: Vec<u64> = Vec::new();
        let mut i: usize = 0;
        while i < n
            invariant
                i <= n,
                scores@.len() == i,
                forall|a: int| 0 <= a < i ==> scores@[a] == 0,
            decreases n - i,
        {
            scores.push(0);
            i = i + 1;
        }
        let mut round: usize = 0;
        let mut stable = false;
        while round < n && !stable
            invariant
                n == keys.len(),
                keys == self.blocks.keys(),
                blocks == self.blocks_view(),
                blocks.dom() == text_set(keys),
                blocks.dom().len() == n,
                forall|a: int| 0 <= a < n ==> #[trigger] blocks[keys[a]@] == self.blocks.values()[a],
                parent_idx@.len() == n,
                forall|a: int| #![trigger parent_idx@[a]] 0 <= a < n ==> parent_idx@[a]@.len() == parent_hashes(
                    self.blocks.values()[a],
                ).len() && forall|b: int| 0 <= b < parent_idx@[a]@.len() ==> match #[trigger] parent_idx@[a]@[b] {
                    Some(x) => x < n && keys[x as int]@ == parent_hashes(self.blocks.values()[a])[b],
                    None => !blocks.contains_key(parent_hashes(self.blocks.values()[a])[b]),
                },
                round <= n,
                scores@.len() == n,
                forall|a: int| 0 <= a < n ==> scores@[a] == blue_score_within(blocks, #[trigger] keys[a]@, round as nat),
                stable ==> forall|k: Seq<char>| #[trigger] blocks.contains_key(k) ==> blue_score_within(
                    blocks,
                    k,
                    round as nat + 1,
                ) == blue_score_within(blocks, k, round as nat),
            decreases n - round, if stable { 0int } else { 1int },
        {
            let mut next: Vec<u64> = Vec::new();
            let mut i: usize = 0;
            while i < n
                invariant
                    n == keys.len(),
                    keys == self.blocks.keys(),
                    blocks.dom() == text_set(keys),
                    forall|a: int| 0 <= a < n ==> #[trigger] blocks[keys[a]@] == self.blocks.values()[a],
                    parent_idx@.len() == n,
                    forall|a: int| #![trigger parent_idx@[a]] 0 <= a < n ==> parent_idx@[a]@.len()
                        == parent_hashes(self.blocks.values()[a]).len() && forall|b: int|
                        0 <= b < parent_idx@[a]@.len() ==> match #[trigger] parent_idx@[a]@[b] {
                        Some(x) => x < n && keys[x as int]@ == parent_hashes(self.blocks.values()[a])[b],
                        None => !blocks.contains_key(parent_hashes(self.blocks.values()[a])[b]),
                    },
                    round < n,
                    scores@.len() == n,
                    forall|a: int| 0 <= a < n ==> scores@[a] == blue_score_within(
                        blocks,
                        #[trigger] keys[a]@,
                        round as nat,
                    ),
                    i <= n,
                    next@.len() == i,
                    forall|a: int| 0 <= a < i ==> next@[a] == blue_score_within(
                        blocks,
                        #[trigger] keys[a]@,
                        round as nat + 1,
                    ),
                decreases n - i,
            {
                let row = &parent_idx[i];
                let ghost ps = parent_hashes(self.blocks.values()[i as int]);
                let mut best: u64 = 0;
                let mut j: usize = 0;
                while j < row.len()
                    invariant
                        n == keys.len(),
                        blocks.dom() == text_set(keys),
                        round < n,
                        scores@.len() == n,
                        forall|a: int| 0 <= a < n ==> scores@[a] == blue_score_within(
                            blocks,
                            #[trigger] keys[a]@,
                            round as nat,
                        ),
                        row@.len() == ps.len(),
                        forall|b: int| 0 <= b < row@.len() ==> match #[trigger] row@[b] {
                            Some(x) => x < n && keys[x as int]@ == ps[b],
                            None => !blocks.contains_key(ps[b]),
                        },
                        j <= row@.len(),
                        best == max_parent_score(blocks, ps.take(j as int), round as nat),
                    decreases row@.len() - j,
                {
                    let s: u64 = match row[j] {
                        Some(x) => scores[x],
                        None => 0,
                    };
                    proof {
                        assert(ps.take(j + 1).drop_last() =~= ps.take(j as int));
                        assert(ps.take(j + 1).last() == ps[j as int]);
                        assert(s == blue_score_within(blocks, ps[j as int], round as nat));
                    }
                    if s > best {
                        best = s;
                    }
                    j = j + 1;
                }
                proof {
                    assert(ps.take(ps.len() as int) =~= ps);
                    lemma_max_parent_score_bounded(blocks, ps, round as nat);
                    assert(blocks.contains_key(keys[i as int]@));
                }
                next.push(best + 1);
                i = i + 1;
            }
            // Compare the two levels.
            let mut same = true;
            let mut i: usize = 0;
            while i < n
                invariant
                    i <= n,
                    scores@.len() == n,
                    next@.len() == n,
                    same == forall|a: int| 0 <= a < i ==> scores@[a] == next@[a],
                decreases n - i,
            {
                if scores[i] != next[i] {
                    same = false;
                }
                i = i + 1;
            }
            if same {
                stable = true;
                proof {
                    assert forall|k: Seq<char>| #[trigger] blocks.contains_key(k) implies blue_score_within(
                        blocks,
                        k,
                        round as nat + 1,
                    ) == blue_score_within(blocks, k, round as nat) by {
                        let a = choose|a: int| 0 <= a < keys.len() && keys[a]@ == k;
                        assert(scores@[a] == next@[a]);
                    }
                }
            } else {
                scores = next;
                round = round + 1;
            }
        }
        proof {
            if stable {
                lemma_blue_score_stable(blocks, round as nat, (n - round) as nat);
            }
        }
        scores
    }

    /// The blue score of a block: the number of blocks on the longest chain of held
    /// ancestors ending at it (itself included); 0 for a hash that is not held.
    pub fn calculate_blue_score(&self, block_hash: &str) -> (r: u64)
        ensures
            r == blue_score(self.blocks_view(), block_hash@),
    {
        let scores = self.all_blue_scores();
        match self.blocks.find(block_hash) {
            Some(i) => scores[i],
            None => 0,
        }
    }

    /// A tip of the highest blue score (the virtual block's selected parent), or
    /// `None` when there are no tips.
    pub fn get_virtual_block(&self) -> (r: Option<&Block>)
        ensures
            match r {
                None => self.tips_view() == Set::<Seq<char>>::empty(),
                Some(b) => exists|t: Seq<char>| {
                    &&& #[trigger] self.tips_view().contains(t)
                    &&& self.blocks_view().contains_key(t)
                    &&& *b == self.blocks_view()[t]
                    &&& forall|u: Seq<char>| #[trigger] self.tips_view().contains(u) ==> blue_score(
                        self.blocks_view(),
                        u,
                    ) <= blue_score(self.blocks_view(), t)
                },
            },
    {
        proof { use_type_invariant(self); }
        let scores = self.all_blue_scores();
        let n = self.blocks.len();
        let count = self.tips.len();
        let mut best: Option<usize> = None;
        let mut best_score: u64 = 0;
        let mut i: usize = 0;
        while i < count
            invariant
                count == self.tips.items().len(),
                n == self.blocks.keys().len(),
                scores@.len() == n,
                forall|a: int| 0 <= a < n ==> scores@[a] == blue_score(
                    self.blocks_view(),
                    #[trigger] self.blocks.keys()[a]@,
                ),
                forall|k: Seq<char>| #[trigger] self.tips_view().contains(k) ==> self.blocks_view().contains_key(k),
                self.blocks_view().dom() == text_set(self.blocks.keys()),
                i <= count,
                i == 0 <==> best is None,
                match best {
                    Some(x) => x < n && self.tips_view().contains(self.blocks.keys()[x as int]@) && best_score
                        == scores@[x as int],
                    None => true,
                },
                forall|a: int| 0 <= a < i ==> blue_score(self.blocks_view(), #[trigger] self.tips.items()[a]@)
                    <= best_score,
            decreases count - i,
        {
            let tip = self.tips.item_at(i);
            proof {
                assert(self.tips_view().contains(tip@));
            }
            match self.blocks.find(tip.as_str()) {
                Some(x) => {
                    if best.is_none() || scores[x] >= best_score {
                        best = Some(x);
                        best_score = scores[x];
                    }
                },
                None => {},
            }
            i = i + 1;
        }
        match best {
            None => {
                assert(self.tips_view() =~= Set::<Seq<char>>::empty());
                None
            },
            Some(x) => {
                let b = self.blocks.value_at(x);
                proof {
                    let t = self.blocks.keys()[x as int]@;
                    assert forall|u: Seq<char>| #[trigger] self.tips_view().contains(u) implies blue_score(
                        self.blocks_view(),
                        u,
                    ) <= blue_score(self.blocks_view(), t) by {
                        let a = choose|a: int| 0 <= a < self.tips.items().len() && self.tips.items()[a]@ == u;
                    }
                    assert(self.tips_view().contains(t));
                }
                Some(b)
            },
        }
    }

    /// Counts of blocks and parents and the sum and mean of the reported blue
    /// scores. The count of tips is left at 0.
    pub fn analyze_structure(&self) -> (a: DAGAnalysis)
        requires
            sum_reported_blue_scores(self.block_list()) <= u64::MAX,
        ensures
            a.total_blocks == self.blocks_view().dom().len(),
            a.total_blocks == self.block_list().len(),
            a.max_parents == max_parent_count(self.block_list()),
            a.total_blue_score == sum_reported_blue_scores(self.block_list()),
            a.average_blue_score == sum_reported_blue_scores(self.block_list()) / max_nat(
                self.block_list().len(),
                1,
            ),
            a.tips_count == 0,
    {
        let mut analysis = DAGAnalysis::new();
        let n = self.blocks.len();
        proof { lemma_text_set_len(self.blocks.keys()); }
        let ghost bs = self.block_list();
        let mut i: usize = 0;
        while i < n
            invariant
                n == bs.len(),
                n == self.blocks.keys().len(),
                bs == self.block_list(),
                sum_reported_blue_scores(bs) <= u64::MAX,
                i <= n,
                analysis.total_blocks == i,
                analysis.max_parents == max_parent_count(bs.take(i as int)),
                analysis.total_blue_score == sum_reported_blue_scores(bs.take(i as int)),
                analysis.average_blue_score == 0,
                analysis.tips_count == 0,
            decreases n - i,
        {
            let block = self.blocks.value_at(i);
            proof {
                assert(bs.take(i + 1).drop_last() =~= bs.take(i as int));
                lemma_sum_prefix_bounded(bs, i + 1);
            }
            analysis.total_blocks = analysis.total_blocks + 1;
            if block.header.parents.len() > analysis.max_parents {
                analysis.max_parents = block.header.parents.len();
            }
            match &block.verbose_data {
                Some(v) => {
                    analysis.total_blue_score = analysis.total_blue_score + v.blue_score;
                },
                None => {},
            }
            i = i + 1;
        }
        assert(bs.take(n as int) =~= bs);
        let divisor: u64 = if analysis.total_blocks > 1 { analysis.total_blocks as u64 } else { 1 };
        analysis.average_blue_score = analysis.total_blue_score / divisor;
        analysis
    }
}

/// A block held in a finite map of blocks has a blue score of at least 1.
pub proof fn lemma_held_block_scores(blocks: Map<Seq<char>, Block>, h: Seq<char>)
    requires
        blocks.dom().finite(),
        blocks.contains_key(h),
    ensures
        blue_score(blocks, h) >= 1,
{
    assert(blocks.dom().remove(h).len() + 1 == blocks.dom().len());
}

/// The list of blocks matches the map of blocks when the keys are distinct and
/// line up with the values, and each block is held under its own hash.
proof fn lemma_listing(d: DAGHandler)
    requires
        distinct(d.blocks.keys()),
        d.blocks.keys().len() == d.blocks.values().len(),
        d.blocks.view().dom() == text_set(d.blocks.keys()),
        forall|i: int| 0 <= i < d.blocks.keys().len() ==> #[trigger] d.blocks.view()[d.blocks.keys()[i]@]
            == d.blocks.values()[i],
        forall|k: Seq<char>| #[trigger] d.blocks.view().contains_key(k) ==> block_hash(d.blocks.view()[k]) == Some(k),
    ensures
        d.listing_matches(),
{
    lemma_text_set_len(d.blocks.keys());
    let keys = d.blocks.keys();
    assert forall|i: int| 0 <= i < d.block_list().len() implies (#[trigger] block_hash(d.block_list()[i]) matches Some(
        k,
    ) && d.blocks_view().contains_key(k) && d.blocks_view()[k] == d.block_list()[i]) by {
        assert(text_set(keys).contains(keys[i]@));
        assert(d.blocks.view()[keys[i]@] == d.blocks.values()[i]);
    }
    assert forall|k: Seq<char>| #[trigger] d.blocks_view().contains_key(k) implies 0 <= d.block_position(k)
        < d.block_list().len() && d.block_list()[d.block_position(k)] == d.blocks_view()[k] by {
        assert(text_set(keys).contains(k));
        let j = index_of(keys, k);
        assert(0 <= j < keys.len() && keys[j]@ == k);
        assert(d.blocks.view()[keys[j]@] == d.blocks.values()[j]);
    }
}

/// The sum over a prefix never exceeds the sum over the whole.
proof fn lemma_sum_prefix_bounded(bs: Seq<Block>, i: int)
    requires
        0 <= i <= bs.len(),
    ensures
        sum_reported_blue_scores(bs.take(i)) <= sum_reported_blue_scores(bs),
    decreases bs.len() - i,
{
    if i < bs.len() {
        lemma_sum_prefix_bounded(bs, i + 1);
        assert(bs.take(i + 1).drop_last() =~= bs.take(i));
    } else {
        assert(bs.take(i) =~= bs);
    }
}

/// The child lists seen through the texts of their strings.
pub open spec fn child_texts(m: Map<Seq<char>, Vec<String>>) -> Map<Seq<char>, Seq<Seq<char>>> {
    m.map_values(|v: Vec<String>| texts(v@))
}

fn link_children_of(children: &mut StrMap<Vec<String>>, parents: &Vec<String>, h: &String)
    ensures
        child_texts(final(children).view()) == link_children(
            child_texts(old(children).view()),
            texts(parents@),
            h@,
        ),
{
    let mut i: usize = 0;
    while i < parents.len()
        invariant
            i <= parents@.len(),
            child_texts(children.view()) == link_children(
                child_texts(old(children).view()),
                texts(parents@).take(i as int),
                h@,
            ),
        decreases parents@.len() - i,
    {
        let ghost before = child_texts(children.view());
        let p = &parents[i];
        let mut list: Vec<String> = match children.get(p.as_str()) {
            Some(v) => v.clone(),
            None => Vec::new(),
        };
        assert(texts(list@) == (if before.contains_key(p@) { before[p@] } else { Seq::empty() }));
        list.push(h.clone());
        assert(texts(list@) =~= (if before.contains_key(p@) { before[p@] } else { Seq::empty() }).push(h@));
        children.insert(p.as_str(), list);
        proof {
            let ps = texts(parents@);
            assert(ps.take(i + 1).drop_last() =~= ps.take(i as int));
            assert(ps.take(i + 1).last() == p@);
            assert(child_texts(children.view()) =~= before.insert(p@, texts(list@)));
        }
        i = i + 1;
    }
    assert(texts(parents@).take(parents@.len() as int) =~= texts(parents@));
}

fn update_tips(tips: &mut StrSet, parents: &Vec<String>, h: &String)
    ensures
        final(tips).view() == next_tips(old(tips).view(), texts(parents@), h@),
{
    let mut i: usize = 0;
    while i < parents.len()
        invariant
            i <= parents@.len(),
            tips.view() == Set::new(
                |k: Seq<char>| old(tips).view().contains(k) && !texts(parents@).take(i as int).contains(k),
            ),
        decreases parents@.len() - i,
    {
        let ghost before = tips.view();
        tips.remove(parents[i].as_str());
        proof {
            let ps = texts(parents@);
            assert forall|k: Seq<char>| ps.take(i + 1).contains(k) <==> (ps.take(i as int).contains(k) || k
                == ps[i as int]) by {
                if ps.take(i + 1).contains(k) {
                    let j = choose|j: int| 0 <= j < i + 1 && #[trigger] ps.take(i + 1)[j] == k;
                    if j < i {
                        assert(ps.take(i as int)[j] == k);
                    }
                }
                if ps.take(i as int).contains(k) {
                    let j = choose|j: int| 0 <= j < i && #[trigger] ps.take(i as int)[j] == k;
                    assert(ps.take(i + 1)[j] == k);
                }
                if k == ps[i as int] {
                    assert(ps.take(i + 1)[i as int] == k);
                }
            }
            assert(tips.view() =~= Set::new(
                |k: Seq<char>| old(tips).view().contains(k) && !ps.take(i + 1).contains(k),
            ));
        }
        i = i + 1;
    }
    assert(texts(parents@).take(parents@.len() as int) =~= texts(parents@));
    tips.insert(h.as_str());
}

fn validate_consistency(tips: &StrSet, children: &StrMap<Vec<String>>) -> (r: Result<(), KaspaError>)
    ensures
        (r is Ok <==> !exists|t: Seq<char>| tip_has_children(tips.view(), child_texts(children.view()), t)),
        (r matches Err(e) ==> exists|t: Seq<char>| #[trigger] tip_has_children(
            tips.view(),
            child_texts(children.view()),
            t,
        ) && (e matches KaspaError::Custom(m) && m@ == tip_error_message(t))),
{
    let n = tips.len();
    let mut i: usize = 0;
    while i < n
        invariant
            i <= n,
            n == tips.items().len(),
            forall|j: int| 0 <= j < i ==> !tip_has_children(
                tips.view(),
                child_texts(children.view()),
                #[trigger] tips.items()[j]@,
            ),
        decreases n - i,
    {
        let tip = tips.item_at(i);
        match children.get(tip.as_str()) {
            Some(list) => {
                if list.len() > 0 {
                    let mut m = String::from_str("Tip ");
                    m.append(tip.as_str());
                    m.append(" has children, inconsistent state");
                    proof {
                        assert(tips.view().contains(tip@));
                        assert(tip_has_children(tips.view(), child_texts(children.view()), tip@));
                    }
                    return Err(KaspaError::Custom(m));
                }
            },
            None => {},
        }
        i = i + 1;
    }
    assert forall|t: Seq<char>| !tip_has_children(tips.view(), child_texts(children.view()), t) by {
        if tips.view().contains(t) {
            let j = choose|j: int| 0 <= j < tips.items().len() && tips.items()[j]@ == t;
            assert(!tip_has_children(tips.view(), child_texts(children.view()), tips.items()[j]@));
        }
    }
    Ok(())
}


/// Adding a block records it as a child of every parent it names: the child list of
/// each hash `p` grows by the new hash once for each time `p` occurs among the
/// parents, and a hash gets a child list exactly when it had one or is a parent.
pub proof fn lemma_children_of_every_parent(
    children: Map<Seq<char>, Seq<Seq<char>>>,
    parents: Seq<Seq<char>>,
    h: Seq<char>,
    p: Seq<char>,
)
    ensures
        ({
            let after = link_children(children, parents, h);
            let before = if children.contains_key(p) { children[p] } else { Seq::<Seq<char>>::empty() };
            let n = parents.to_multiset().count(p);
            &&& after.contains_key(p) <==> (children.contains_key(p) || n > 0)
            &&& after.contains_key(p) ==> after[p] == before + Seq::new(n, |i: int| h)
        }),
    decreases parents.len(),
{
    broadcast use vstd::seq_lib::group_to_multiset_ensures;
    broadcast use vstd::multiset::group_multiset_axioms;

    if parents.len() == 0 {
        assert(parents.to_multiset() =~= vstd::multiset::Multiset::<Seq<char>>::empty());
        let before = if children.contains_key(p) { children[p] } else { Seq::<Seq<char>>::empty() };
        assert(before + Seq::new(0, |i: int| h) =~= before);
    } else {
        let rest = parents.drop_last();
        let q = parents.last();
        lemma_children_of_every_parent(children, rest, h, p);
        assert(parents =~= rest.push(q));
        let before = if children.contains_key(p) { children[p] } else { Seq::<Seq<char>>::empty() };
        let m = rest.to_multiset().count(p);
        assert(parents.to_multiset() =~= rest.to_multiset().insert(q));
        if q == p {
            assert(parents.to_multiset().count(p) == m + 1);
            assert(before + Seq::new(m + 1, |i: int| h) =~= (before + Seq::new(m, |i: int| h)).push(h));
        } else {
            assert(parents.to_multiset().count(p) == m);
        }
    }
}

} // verus!
