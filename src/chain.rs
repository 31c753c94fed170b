//! The wallet's best-known chain of block identifiers.
use vstd::prelude::*;

verus! {

/// A 32-byte digest: a block hash or a transaction id.
pub type Hash32 = [u8; 32];

/// Whether two digests hold the same bytes.
pub fn digest_eq(a: &Hash32, b: &Hash32) -> (r: bool)
    ensures
        r == (*a == *b),
{
    let mut i: usize = 0;
    while i < 32
        invariant
            i <= 32,
            forall|k: int| 0 <= k < i ==> a[k] == b[k],
        decreases 32 - i,
    {
        if a[i] != b[i] {
            return false;
        }
        i = i + 1;
    }
    assert(*a =~= *b);
    true
}

/// Whether `a` comes before `b` in lexicographic byte order.
pub open spec fn digest_lt(a: Hash32, b: Hash32) -> bool {
    exists|k: int|
        #![trigger a[k], b[k]]
        0 <= k < 32 && a[k] < b[k] && (forall|m: int| 0 <= m < k ==> a[m] == b[m])
}

/// Lexicographic comparison of two digests.
pub fn digest_less(a: &Hash32, b: &Hash32) -> (r: bool)
    ensures
        r == digest_lt(*a, *b),
{
    let mut i: usize = 0;
    while i < 32
        invariant
            i <= 32,
            forall|k: int| 0 <= k < i ==> a[k] == b[k],
        decreases 32 - i,
    {
        if a[i] != b[i] {
            if a[i] < b[i] {
                return true;
            } else {
                assert forall|k: int|
                    0 <= k < 32 && #[trigger] a[k] < b[k] implies !(forall|m: int|
                    0 <= m < k ==> a[m] == b[m]) by {
                    if k > i {
                        assert(a[i as int] != b[i as int]);
                    }
                }
                return false;
            }
        }
        i = i + 1;
    }
    false
}

/// A block: its height and its hash.
#[derive(Clone, Copy, Debug, PartialEq, Eq)]
pub struct BlockId {
    pub height: u32,
    pub hash: Hash32,
}

/// Whether two block identifiers are the same.
pub fn same_block(a: &BlockId, b: &BlockId) -> (r: bool)
    ensures
        r == (*a == *b),
{
    a.height == b.height && digest_eq(&a.hash, &b.hash)
}

/// Heights rise strictly along `s`.
pub open spec fn ascending(s: Seq<BlockId>) -> bool {
    forall|i: int, j: int| 0 <= i < j < s.len() ==> s[i].height < s[j].height
}

/// A chain runs from a block at height 0 with heights strictly rising.
pub open spec fn chain_wf(c: Seq<BlockId>) -> bool {
    &&& c.len() > 0
    &&& c[0].height == 0
    &&& ascending(c)
}

pub open spec fn has_block(c: Seq<BlockId>, b: BlockId) -> bool {
    exists|i: int| 0 <= i < c.len() && c[i] == b
}

pub open spec fn has_height(c: Seq<BlockId>, h: u32) -> bool {
    exists|i: int| 0 <= i < c.len() && c[i].height == h
}

/// The index of the first block of `s`, from `i` on, that `c` lacks; `s.len()` if none.
pub open spec fn first_new_from(c: Seq<BlockId>, s: Seq<BlockId>, i: int) -> int
    decreases s.len() - i,
{
    if i < 0 || i >= s.len() {
        s.len() as int
    } else if !has_block(c, s[i]) {
        i
    } else {
        first_new_from(c, s, i + 1)
    }
}

pub open spec fn first_new(c: Seq<BlockId>, s: Seq<BlockId>) -> int {
    first_new_from(c, s, 0)
}

/// `k` splits `c` into the blocks below height `h` and those at or above it.
pub open spec fn splits(c: Seq<BlockId>, h: u32, k: int) -> bool {
    &&& 0 <= k <= c.len()
    &&& forall|m: int| 0 <= m < k ==> c[m].height < h
    &&& forall|m: int| k <= m < c.len() ==> c[m].height >= h
}

/// The number of blocks of `c` below height `h`.
pub open spec fn count_below(c: Seq<BlockId>, h: u32) -> int {
    choose|k: int| splits(c, h, k)
}

/// A suffix connects when it is non-empty, ascending, and its first height is
/// already in the chain or right above the tip.
pub open spec fn connects(c: Seq<BlockId>, s: Seq<BlockId>) -> bool {
    &&& s.len() > 0
    &&& ascending(s)
    &&& (has_height(c, s[0].height) || s[0].height == c.last().height + 1)
}

/// The chain after a connecting suffix is applied: everything from the first
/// block of the suffix that the chain lacks upward is replaced by the rest of
/// the suffix; with no such block the chain stays as it is.
pub open spec fn chain_after(c: Seq<BlockId>, s: Seq<BlockId>) -> Seq<BlockId> {
    let i = first_new(c, s);
    if i >= s.len() {
        c
    } else {
        c.take(count_below(c, s[i].height)) + s.skip(i)
    }
}

/// The height from which a suffix replaces blocks of the chain, if it does.
pub open spec fn divergence(c: Seq<BlockId>, s: Seq<BlockId>) -> Option<u32> {
    let i = first_new(c, s);
    if i >= s.len() {
        None
    } else {
        Some(s[i].height)
    }
}

/// A suffix reorganises the chain when it replaces a block that was there.
pub open spec fn reorgs(c: Seq<BlockId>, s: Seq<BlockId>) -> bool {
    match divergence(c, s) {
        Some(h) => h <= c.last().height,
        None => false,
    }
}

pub proof fn lemma_splits_unique(c: Seq<BlockId>, h: u32, k1: int, k2: int)
    requires
        splits(c, h, k1),
        splits(c, h, k2),
    ensures
        k1 == k2,
{
    if k1 < k2 {
        assert(c[k1].height < h);
    } else if k2 < k1 {
        assert(c[k2].height < h);
    }
}

pub proof fn lemma_first_new_range(c: Seq<BlockId>, s: Seq<BlockId>, i: int)
    requires
        0 <= i <= s.len(),
    ensures
        i <= first_new_from(c, s, i) <= s.len(),
        first_new_from(c, s, i) < s.len() ==> !has_block(c, s[first_new_from(c, s, i)]),
        forall|m: int| i <= m < first_new_from(c, s, i) ==> has_block(c, #[trigger] s[m]),
    decreases s.len() - i,
{
    if i < s.len() && has_block(c, s[i]) {
        lemma_first_new_range(c, s, i + 1);
    }
}

proof fn lemma_split_from(c: Seq<BlockId>, h: u32, w: int)
    requires
        ascending(c),
        0 <= w <= c.len(),
        forall|m: int| 0 <= m < w ==> c[m].height < h,
    ensures
        splits(c, h, count_below(c, h)),
    decreases c.len() - w,
{
    if w == c.len() || c[w].height >= h {
        assert(splits(c, h, w));
    } else {
        lemma_split_from(c, h, w + 1);
    }
}

/// Applying a connecting suffix keeps a chain well formed.
pub proof fn lemma_chain_after_wf(c: Seq<BlockId>, s: Seq<BlockId>)
    requires
        chain_wf(c),
        connects(c, s),
    ensures
        chain_wf(chain_after(c, s)),
{
    lemma_first_new_range(c, s, 0);
    let i = first_new(c, s);
    if i < s.len() {
        let h = s[i].height;
        let k = count_below(c, h);
        lemma_split_from(c, h, 0);
        assert(splits(c, h, k));
        let r = c.take(k) + s.skip(i);
        assert(forall|m: int| k <= m < r.len() ==> r[m] == s[m - k + i]);
        if k == 0 {
            if i > 0 {
                assert(s[0].height < s[i].height);
                assert(c[0].height < h);
            }
        }
        assert(chain_wf(r));
    }
}

proof fn lemma_all_known(c: Seq<BlockId>, s: Seq<BlockId>, j: int)
    requires
        0 <= j <= s.len(),
        forall|m: int| 0 <= m < s.len() ==> has_block(c, #[trigger] s[m]),
    ensures
        first_new_from(c, s, j) == s.len(),
    decreases s.len() - j,
{
    if j < s.len() {
        lemma_all_known(c, s, j + 1);
    }
}

/// Applying the same connecting suffix a second time changes nothing.
pub proof fn lemma_chain_after_idempotent(c: Seq<BlockId>, s: Seq<BlockId>)
    requires
        chain_wf(c),
        connects(c, s),
    ensures
        connects(chain_after(c, s), s),
        chain_after(chain_after(c, s), s) == chain_after(c, s),
        divergence(chain_after(c, s), s) is None,
{
    lemma_first_new_range(c, s, 0);
    let i = first_new(c, s);
    let c1 = chain_after(c, s);
    if i < s.len() {
        let h = s[i].height;
        let k = count_below(c, h);
        lemma_split_from(c, h, 0);
        assert forall|m: int| 0 <= m < s.len() implies has_block(c1, #[trigger] s[m]) by {
            if m < i {
                let x = choose|x: int| 0 <= x < c.len() && c[x] == s[m];
                assert(s[m].height < h);
                assert(x < k);
                assert(c1[x] == s[m]);
            } else {
                assert(c1[k + m - i] == s[m]);
            }
        }
    } else {
        assert forall|m: int| 0 <= m < s.len() implies has_block(c1, #[trigger] s[m]) by {}
    }
    lemma_all_known(c1, s, 0);
    assert(has_block(c1, s[0]));
}

/// Why a chain suffix was refused.
#[derive(Clone, Copy, Debug, PartialEq, Eq)]
pub enum ChainError {
    /// The suffix is empty, out of order, or its first height is neither in
    /// the chain nor right above the tip.
    Disconnected,
}

/// The wallet's chain: block identifiers from genesis to tip.
pub struct LocalChain {
    blocks: Vec<BlockId>,
}

impl LocalChain {
    pub closed spec fn view(&self) -> Seq<BlockId> {
        self.blocks@
    }

    pub open spec fn wf(&self) -> bool {
        chain_wf(self@)
    }

    /// A chain of the genesis block alone.
    pub fn new(genesis_hash: Hash32) -> (r: LocalChain)
        ensures
            r@ == seq![BlockId { height: 0, hash: genesis_hash }],
            r.wf(),
    {
        let r = LocalChain { blocks: vec![BlockId { height: 0, hash: genesis_hash }] };
        assert(r@ =~= seq![BlockId { height: 0, hash: genesis_hash }]);
        r
    }

    /// The blocks from genesis to tip.
    pub fn blocks(&self) -> (r: &Vec<BlockId>)
        ensures
            r@ == self@,
    {
        &self.blocks
    }

    /// The highest block.
    pub fn tip(&self) -> (r: BlockId)
        requires
            self.wf(),
        ensures
            r == self@.last(),
    {
        self.blocks[self.blocks.len() - 1]
    }

    /// The hash of the block at height 0.
    pub fn genesis_hash(&self) -> (r: Hash32)
        requires
            self.wf(),
        ensures
            r == self@[0].hash,
    {
        self.blocks[0].hash
    }

    /// Whether the chain holds `b`.
    pub fn contains(&self, b: &BlockId) -> (r: bool)
        ensures
            r == has_block(self@, *b),
    {
        seq_has_block(&self.blocks, b)
    }

    /// The blocks that applying `suffix` would give, or why it does not connect.
    pub fn chain_after_suffix(&self, suffix: &Vec<BlockId>) -> (r: Result<Vec<BlockId>, ChainError>)
        requires
            self.wf(),
        ensures
            match r {
                Ok(v) => connects(self@, suffix@) && v@ == chain_after(self@, suffix@),
                Err(e) => !connects(self@, suffix@) && e == ChainError::Disconnected,
            },
    {
        let c = &self.blocks;
        if suffix.len() == 0 {
            return Err(ChainError::Disconnected);
        }
        let mut j: usize = 1;
        while j < suffix.len()
            invariant
                1 <= j <= suffix.len(),
                forall|a: int, b: int| 0 <= a < b < j ==> suffix[a].height < suffix[b].height,
            decreases suffix.len() - j,
        {
            if suffix[j - 1].height >= suffix[j].height {
                return Err(ChainError::Disconnected);
            }
            j = j + 1;
        }
        let h0 = suffix[0].height;
        let mut p: usize = 0;
        while p < c.len() && c[p].height != h0
            invariant
                p <= c.len(),
                forall|m: int| 0 <= m < p ==> c[m].height != h0,
            decreases c.len() - p,
        {
            p = p + 1;
        }
        if p == c.len() {
            let tip = c[c.len() - 1].height;
            if tip == u32::MAX || h0 != tip + 1 {
                return Err(ChainError::Disconnected);
            }
        }
        proof {
            lemma_first_new_range(self@, suffix@, 0);
        }
        let mut i: usize = 0;
        while i < suffix.len() && seq_has_block(&self.blocks, &suffix[i])
            invariant
                i <= suffix.len(),
                first_new_from(self@, suffix@, i as int) == first_new(self@, suffix@),
            decreases suffix.len() - i,
        {
            assert(has_block(self@, suffix@[i as int]));
            assert(first_new_from(self@, suffix@, i as int) == first_new_from(self@, suffix@, i as int + 1));
            i = i + 1;
        }
        if i == suffix.len() {
            return Ok(copy_blocks(c, c.len()));
        }
        let h = suffix[i].height;
        let mut k: usize = 0;
        while k < c.len() && c[k].height < h
            invariant
                k <= c.len(),
                forall|m: int| 0 <= m < k ==> c[m].height < h,
            decreases c.len() - k,
        {
            k = k + 1;
        }
        proof {
            assert(splits(self@, h, k as int));
            lemma_splits_unique(self@, h, k as int, count_below(self@, h));
        }
        let mut out = copy_blocks(c, k);
        let ghost base = out@;
        let mut t: usize = i;
        while t < suffix.len()
            invariant
                i <= t <= suffix.len(),
                out@ == base + suffix@.subrange(i as int, t as int),
            decreases suffix.len() - t,
        {
            out.push(suffix[t]);
            t = t + 1;
            assert(out@ =~= base + suffix@.subrange(i as int, t as int));
        }
        assert(first_new(self@, suffix@) == i as int);
        assert(suffix@.subrange(i as int, suffix@.len() as int) =~= suffix@.skip(i as int));
        assert(out@ =~= chain_after(self@, suffix@));
        Ok(out)
    }

    /// The height from which `suffix` would replace blocks of the chain, if any.
    pub fn divergence_height(&self, suffix: &Vec<BlockId>) -> (r: Option<u32>)
        ensures
            r == divergence(self@, suffix@),
    {
        let mut i: usize = 0;
        while i < suffix.len() && seq_has_block(&self.blocks, &suffix[i])
            invariant
                i <= suffix.len(),
                first_new_from(self@, suffix@, i as int) == first_new(self@, suffix@),
            decreases suffix.len() - i,
        {
            i = i + 1;
        }
        if i == suffix.len() {
            None
        } else {
            Some(suffix[i].height)
        }
    }

    /// Applies a chain suffix; tells whether the chain changed. On an error the
    /// chain is left as it was.
    pub fn apply(&mut self, suffix: &Vec<BlockId>) -> (r: Result<bool, ChainError>)
        requires
            old(self).wf(),
        ensures
            final(self).wf(),
            match r {
                Ok(changed) => {
                    &&& connects(old(self)@, suffix@)
                    &&& final(self)@ == chain_after(old(self)@, suffix@)
                    &&& changed == (final(self)@ != old(self)@)
                },
                Err(e) => !connects(old(self)@, suffix@) && e == ChainError::Disconnected
                    && final(self)@ == old(self)@,
            },
    {
        match self.chain_after_suffix(suffix) {
            Ok(v) => {
                proof {
                    lemma_chain_after_wf(self@, suffix@);
                    lemma_first_new_range(self@, suffix@, 0);
                    let i = first_new(self@, suffix@);
                    if i < suffix@.len() {
                        if v@ == self@ {
                            let k = count_below(self@, suffix@[i].height);
                            lemma_split_from(self@, suffix@[i].height, 0);
                            assert(v@[k] == suffix@.skip(i)[0]);
                            assert(v@[k] == suffix@[i]);
                            assert(has_block(self@, suffix@[i]));
                        }
                    }
                }
                let changed = !same_seq(&v, &self.blocks);
                self.blocks = v;
                Ok(changed)
            },
            Err(e) => Err(e),
        }
    }
}

/// Whether `c` holds `b`.
pub fn seq_has_block(c: &Vec<BlockId>, b: &BlockId) -> (r: bool)
    ensures
        r == has_block(c@, *b),
{
    let mut i: usize = 0;
    while i < c.len()
        invariant
            i <= c.len(),
            forall|m: int| 0 <= m < i ==> c[m] != *b,
        decreases c.len() - i,
    {
        if same_block(&c[i], b) {
            return true;
        }
        i = i + 1;
    }
    false
}

/// Whether two block sequences are equal.
fn same_seq(a: &Vec<BlockId>, b: &Vec<BlockId>) -> (r: bool)
    ensures
        r == (a@ == b@),
{
    if a.len() != b.len() {
        return false;
    }
    let mut i: usize = 0;
    while i < a.len()
        invariant
            i <= a.len(),
            a.len() == b.len(),
            forall|m: int| 0 <= m < i ==> a[m] == b[m],
        decreases a.len() - i,
    {
        if !same_block(&a[i], &b[i]) {
            return false;
        }
        i = i + 1;
    }
    assert(a@ =~= b@);
    true
}

/// The first `n` blocks of `c`.
fn copy_blocks(c: &Vec<BlockId>, n: usize) -> (r: Vec<BlockId>)
    requires
        n <= c.len(),
    ensures
        r@ == c@.take(n as int),
{
    let mut r: Vec<BlockId> = Vec::new();
    let mut i: usize = 0;
    while i < n
        invariant
            i <= n <= c.len(),
            r@ == c@.take(i as int),
        decreases n - i,
    {
        r.push(c[i]);
        i = i + 1;
        assert(r@ =~= c@.take(i as int));
    }
    r
}

} // verus!
