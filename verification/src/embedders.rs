//! Embedding cache with true least-recently-used eviction, and the
//! order-preserving batch protocol around an external embedding provider.
//!
//! The provider itself is asynchronous I/O and lives with the host; the
//! cache-side logic is split into two verified halves.  `miss_texts` names
//! the deduplicated texts the provider must embed, in first-occurrence
//! order; `integrate` then stores the provider's answers and reassembles one
//! embedding per input text, in the exact input order.

use vstd::prelude::*;

verus! {

/// Model of one cache slot: a normalized text and its embedding.  Slots are
/// ordered by recency, least recently used first.
#[verifier::ext_equal]
pub ghost struct CacheEntryModel {
    pub key: Seq<char>,
    pub val: Seq<i64>,
}

/// Index of the entry with key `k`, or -1.
pub open spec fn key_index(es: Seq<CacheEntryModel>, k: Seq<char>) -> int
    decreases es.len(),
{
    if es.len() == 0 {
        -1
    } else if es[0].key == k {
        0
    } else {
        let r = key_index(es.drop_first(), k);
        if r < 0 {
            -1
        } else {
            r + 1
        }
    }
}

pub proof fn lemma_key_index(es: Seq<CacheEntryModel>, k: Seq<char>)
    ensures
        -1 <= key_index(es, k) < es.len(),
        key_index(es, k) >= 0 ==> es[key_index(es, k)].key == k && forall|j: int|
            0 <= j < key_index(es, k) ==> (#[trigger] es[j]).key != k,
        key_index(es, k) < 0 ==> forall|j: int| 0 <= j < es.len()
            ==> (#[trigger] es[j]).key != k,
    decreases es.len(),
{
    if es.len() > 0 && es[0].key != k {
        lemma_key_index(es.drop_first(), k);
        let r = key_index(es.drop_first(), k);
        assert forall|j: int| 1 <= j < es.len() implies es.drop_first()[j - 1]
            == #[trigger] es[j] by {}
        if r >= 0 {
            assert(es[r + 1].key == k);
        }
    }
}

/// With unique keys, any matching index is the index.
pub proof fn lemma_key_index_is(es: Seq<CacheEntryModel>, k: Seq<char>, i: int)
    requires
        cache_keys_unique(es),
        0 <= i < es.len(),
        es[i].key == k,
    ensures
        key_index(es, k) == i,
{
    lemma_key_index(es, k);
    let r = key_index(es, k);
    if r < i {
        assert(es[r].key == k);
    }
    if r > i {
        assert(es[i].key != k);
    }
}

/// No two slots share a key.
pub open spec fn cache_keys_unique(es: Seq<CacheEntryModel>) -> bool {
    forall|i: int, j: int| 0 <= i < j < es.len()
        ==> (#[trigger] es[i]).key != (#[trigger] es[j]).key
}

/// The cache holds `k`.
pub open spec fn cache_has(es: Seq<CacheEntryModel>, k: Seq<char>) -> bool {
    key_index(es, k) >= 0
}

/// The embedding cached under `k`.
pub open spec fn cache_val(es: Seq<CacheEntryModel>, k: Seq<char>) -> Seq<i64> {
    es[key_index(es, k)].val
}

/// The cache after a lookup of `k`: a hit moves the entry to the
/// most-recently-used end, a miss changes nothing.
pub open spec fn cache_refresh(es: Seq<CacheEntryModel>, k: Seq<char>) -> Seq<CacheEntryModel> {
    let i = key_index(es, k);
    if i < 0 {
        es
    } else {
        es.remove(i).push(es[i])
    }
}

/// The cache after inserting `k -> v` with capacity `cap`: an existing key
/// is re-valued and moved to the most-recently-used end; otherwise, with the
/// cache full, the least-recently-used entry is evicted first.  A capacity
/// of zero caches nothing.
pub open spec fn cache_insert(
    es: Seq<CacheEntryModel>,
    k: Seq<char>,
    v: Seq<i64>,
    cap: int,
) -> Seq<CacheEntryModel> {
    let i = key_index(es, k);
    if i >= 0 {
        es.remove(i).push(CacheEntryModel { key: k, val: v })
    } else if cap <= 0 {
        es
    } else if es.len() >= cap {
        es.drop_first().push(CacheEntryModel { key: k, val: v })
    } else {
        es.push(CacheEntryModel { key: k, val: v })
    }
}

/// A refresh never changes which keys are cached or what they map to.
pub proof fn lemma_refresh_preserves(es: Seq<CacheEntryModel>, k: Seq<char>, k2: Seq<char>)
    requires
        cache_keys_unique(es),
    ensures
        cache_keys_unique(cache_refresh(es, k)),
        cache_refresh(es, k).len() == es.len(),
        cache_has(cache_refresh(es, k), k2) == cache_has(es, k2),
        cache_has(es, k2) ==> cache_val(cache_refresh(es, k), k2) == cache_val(es, k2),
{
    let i = key_index(es, k);
    lemma_key_index(es, k);
    if i >= 0 {
        let es2 = cache_refresh(es, k);
        assert(es2 == es.remove(i).push(es[i]));
        assert forall|a: int| 0 <= a < es.len() - 1 implies #[trigger] es.remove(i)[a] == (
            if a < i {
                es[a]
            } else {
                es[a + 1]
            }
        ) by {}
        assert forall|a: int, b: int| 0 <= a < b < es2.len() implies (#[trigger] es2[a]).key
            != (#[trigger] es2[b]).key by {
            let a0: int = if a < i { a } else { a + 1 };
            assert(es2[a] == es[a0]);
            if b == es2.len() - 1 {
                assert(es2[b] == es[i]);
            } else {
                let b0: int = if b < i { b } else { b + 1 };
                assert(es2[b] == es[b0]);
            }
        }
        lemma_key_index(es, k2);
        let j = key_index(es, k2);
        if j >= 0 {
            if j == i {
                lemma_key_index_is(es2, k2, es2.len() - 1);
            } else {
                let j2: int = if j < i { j } else { j - 1 };
                assert(es2[j2] == es[j]);
                lemma_key_index_is(es2, k2, j2);
            }
        } else {
            lemma_key_index(es2, k2);
            if key_index(es2, k2) >= 0 {
                let w = key_index(es2, k2);
                let w0: int = if w == es2.len() - 1 {
                    i
                } else if w < i {
                    w
                } else {
                    w + 1
                };
                assert(es2[w] == es[w0]);
            }
        }
    }
}

/// The cache after looking up each text of `texts` in order.
pub open spec fn refresh_all(
    es: Seq<CacheEntryModel>,
    texts: Seq<String>,
    i: int,
) -> Seq<CacheEntryModel>
    decreases texts.len() - i,
{
    if i < 0 || i >= texts.len() {
        es
    } else {
        refresh_all(cache_refresh(es, texts[i]@), texts, i + 1)
    }
}

/// Looking up any number of texts changes no cached key or value.
pub proof fn lemma_refresh_all_preserves(es: Seq<CacheEntryModel>, texts: Seq<String>, i: int, k2: Seq<char>)
    requires
        cache_keys_unique(es),
        0 <= i <= texts.len(),
    ensures
        cache_keys_unique(refresh_all(es, texts, i)),
        refresh_all(es, texts, i).len() == es.len(),
        cache_has(refresh_all(es, texts, i), k2) == cache_has(es, k2),
        cache_has(es, k2) ==> cache_val(refresh_all(es, texts, i), k2) == cache_val(es, k2),
    decreases texts.len() - i,
{
    if i < texts.len() {
        lemma_refresh_preserves(es, texts[i]@, k2);
        lemma_refresh_preserves(es, texts[i]@, texts[i]@);
        lemma_refresh_all_preserves(cache_refresh(es, texts[i]@), texts, i + 1, k2);
    }
}

/// The texts the provider must embed: those not in the cache, first
/// occurrence only, in input order.
pub open spec fn spec_misses(
    es: Seq<CacheEntryModel>,
    texts: Seq<String>,
    i: int,
) -> Seq<Seq<char>>
    decreases texts.len() - i,
{
    if i < 0 || i >= texts.len() {
        Seq::empty()
    } else if !cache_has(es, texts[i]@) && (forall|j: int| 0 <= j < i
        ==> (#[trigger] texts[j])@ != texts[i]@) {
        seq![texts[i]@] + spec_misses(es, texts, i + 1)
    } else {
        spec_misses(es, texts, i + 1)
    }
}

/// The cache after inserting each fetched embedding under its miss text.
pub open spec fn insert_all(
    es: Seq<CacheEntryModel>,
    ms: Seq<Seq<char>>,
    vs: Seq<Vec<i64>>,
    cap: int,
    i: int,
) -> Seq<CacheEntryModel>
    decreases ms.len() - i,
{
    if i < 0 || i >= ms.len() || i >= vs.len() {
        es
    } else {
        insert_all(cache_insert(es, ms[i], vs[i]@, cap), ms, vs, cap, i + 1)
    }
}

/// Position of `k` in the miss list, or -1.
pub open spec fn miss_index(ms: Seq<Seq<char>>, k: Seq<char>) -> int
    decreases ms.len(),
{
    if ms.len() == 0 {
        -1
    } else if ms[0] == k {
        0
    } else {
        let r = miss_index(ms.drop_first(), k);
        if r < 0 {
            -1
        } else {
            r + 1
        }
    }
}

pub proof fn lemma_miss_index(ms: Seq<Seq<char>>, k: Seq<char>)
    ensures
        -1 <= miss_index(ms, k) < ms.len(),
        miss_index(ms, k) >= 0 ==> ms[miss_index(ms, k)] == k && forall|j: int|
            0 <= j < miss_index(ms, k) ==> ms[j] != k,
        miss_index(ms, k) < 0 ==> forall|j: int| 0 <= j < ms.len() ==> ms[j] != k,
    decreases ms.len(),
{
    if ms.len() > 0 && ms[0] != k {
        lemma_miss_index(ms.drop_first(), k);
        let r = miss_index(ms.drop_first(), k);
        assert forall|j: int| 1 <= j < ms.len() implies ms.drop_first()[j - 1]
            == ms[j] by {}
        if r >= 0 {
            assert(ms[r + 1] == k);
        }
    }
}

/// What one input text's embedding must be: the initially cached value for a
/// hit, the provider's answer at the text's miss position otherwise.
pub open spec fn expected_embedding(
    es: Seq<CacheEntryModel>,
    texts: Seq<String>,
    fetched: Seq<Vec<i64>>,
    i: int,
) -> Seq<i64> {
    if cache_has(es, texts[i]@) {
        cache_val(es, texts[i]@)
    } else {
        fetched[miss_index(spec_misses(es, texts, 0), texts[i]@)]@
    }
}

/// Bounded cache from normalized text to embedding, with least-recently-used
/// eviction.  Both lookups and inserts refresh an entry's recency.
pub struct EmbeddingCache {
    keys: Vec<String>,
    vals: Vec<Vec<i64>>,
    max_size: usize,
}

impl EmbeddingCache {
    /// The cached entries, least recently used first.
    pub closed spec fn entries(&self) -> Seq<CacheEntryModel> {
        Seq::new(
            self.keys@.len() as nat,
            |i: int| CacheEntryModel { key: self.keys@[i]@, val: self.vals@[i]@ },
        )
    }

    /// The capacity this cache was created with.
    pub closed spec fn capacity(&self) -> int {
        self.max_size as int
    }

    /// Internal consistency: parallel slots, unique keys, within capacity.
    pub closed spec fn wf(&self) -> bool {
        &&& self.keys@.len() == self.vals@.len()
        &&& self.keys@.len() <= self.max_size
        &&& cache_keys_unique(self.entries())
    }

    /// Creates an empty cache holding at most `max_size` entries.
    pub fn new(max_size: usize) -> (r: Self)
        ensures
            r.wf(),
            r.entries() == Seq::<CacheEntryModel>::empty(),
            r.capacity() == max_size,
    {
        let r = EmbeddingCache { keys: Vec::new(), vals: Vec::new(), max_size };
        proof {
            assert(r.entries() =~= Seq::<CacheEntryModel>::empty());
        }
        r
    }

    /// Index of `key` in the recency list, mirroring `key_index`.
    fn find(&self, key: &String) -> (r: Option<usize>)
        requires
            self.wf(),
        ensures
            match r {
                Some(i) => key_index(self.entries(), key@) == i,
                None => key_index(self.entries(), key@) == -1,
            },
    {
        proof {
            lemma_key_index(self.entries(), key@);
        }
        let n = self.keys.len();
        let mut i: usize = 0;
        while i < n
            invariant
                0 <= i <= n,
                n == self.keys@.len(),
                n == self.entries().len(),
                forall|j: int| 0 <= j < n
                    ==> (#[trigger] self.entries()[j]).key == self.keys@[j]@,
                forall|j: int| 0 <= j < i ==> (#[trigger] self.entries()[j]).key != key@,
            decreases n - i,
        {
            if self.keys[i] == *key {
                proof {
                    lemma_key_index(self.entries(), key@);
                    assert(self.entries()[i as int].key == key@);
                    let idx = key_index(self.entries(), key@);
                    if 0 <= idx < i {
                        assert(self.entries()[idx].key != key@);
                    }
                }
                return Some(i);
            }
            i = i + 1;
        }
        proof {
            lemma_key_index(self.entries(), key@);
        }
        None
    }

    /// Looks `text` up.  A hit returns a copy of the cached embedding and
    /// refreshes the entry's recency; a miss returns nothing and changes
    /// nothing.
    pub fn get(&mut self, text: &str) -> (r: Option<Vec<i64>>)
        requires
            old(self).wf(),
        ensures
            final(self).wf(),
            final(self).capacity() == old(self).capacity(),
            final(self).entries() == cache_refresh(old(self).entries(), text@),
            cache_has(old(self).entries(), text@) ==> (r matches Some(v) && v@ == cache_val(
                old(self).entries(),
                text@,
            )),
            !cache_has(old(self).entries(), text@) ==> r is None,
    {
        let ghost es0 = self.entries();
        let key: String = text.to_owned();
        match self.find(&key) {
            None => None,
            Some(i) => {
                proof {
                    lemma_key_index(es0, key@);
                }
                let k = self.keys.remove(i);
                let v = self.vals.remove(i);
                let out = v.clone();
                self.keys.push(k);
                self.vals.push(v);
                proof {
                    assert(self.entries() =~= es0.remove(i as int).push(es0[i as int]));
                    lemma_refresh_preserves(es0, text@, text@);
                }
                Some(out)
            },
        }
    }

    /// Inserts `text -> embedding`.  An existing entry is re-valued and made
    /// most recent; at capacity, the least-recently-used entry is evicted.
    pub fn insert(&mut self, text: String, embedding: Vec<i64>)
        requires
            old(self).wf(),
        ensures
            final(self).wf(),
            final(self).capacity() == old(self).capacity(),
            final(self).entries() == cache_insert(
                old(self).entries(),
                text@,
                embedding@,
                old(self).capacity(),
            ),
    {
        let ghost es0 = self.entries();
        let ghost k = text@;
        let ghost v = embedding@;
        match self.find(&text) {
            Some(i) => {
                proof {
                    lemma_key_index(es0, k);
                }
                self.keys.remove(i);
                self.vals.remove(i);
                self.keys.push(text);
                self.vals.push(embedding);
                proof {
                    assert(self.entries() =~= es0.remove(i as int).push(
                        CacheEntryModel { key: k, val: v },
                    ));
                    assert(cache_insert(es0, k, v, self.max_size as int) == es0.remove(
                        i as int,
                    ).push(CacheEntryModel { key: k, val: v }));
                    lemma_wf_after_replace(es0, i as int, k, v);
                }
            },
            None => {
                if self.max_size == 0 {
                    return ;
                }
                if self.keys.len() >= self.max_size {
                    proof {
                        lemma_key_index(es0, k);
                    }
                    self.keys.remove(0);
                    self.vals.remove(0);
                    self.keys.push(text);
                    self.vals.push(embedding);
                    proof {
                        assert(self.entries() =~= es0.drop_first().push(
                            CacheEntryModel { key: k, val: v },
                        ));
                        lemma_wf_after_evict(es0, k, v);
                    }
                } else {
                    self.keys.push(text);
                    self.vals.push(embedding);
                    proof {
                        lemma_key_index(es0, k);
                        assert(self.entries() =~= es0.push(CacheEntryModel { key: k, val: v }));
                        assert forall|a: int, b: int| 0 <= a < b < self.entries().len() implies
                            (#[trigger] self.entries()[a]).key
                                != (#[trigger] self.entries()[b]).key by {
                            if b == self.entries().len() - 1 {
                                assert(self.entries()[a] == es0[a]);
                            } else {
                                assert(self.entries()[a] == es0[a]);
                                assert(self.entries()[b] == es0[b]);
                            }
                        }
                    }
                }
            },
        }
    }

    /// Drops every entry; clearing an empty cache is a successful no-op.
    pub fn clear(&mut self)
        ensures
            final(self).wf(),
            final(self).capacity() == old(self).capacity(),
            final(self).entries() == Seq::<CacheEntryModel>::empty(),
    {
        self.keys = Vec::new();
        self.vals = Vec::new();
        proof {
            assert(self.entries() =~= Seq::<CacheEntryModel>::empty());
        }
    }
}

/// First position in `texts` whose view is `k`, or -1.
pub open spec fn text_index(texts: Seq<String>, k: Seq<char>) -> int
    decreases texts.len(),
{
    if texts.len() == 0 {
        -1
    } else if texts[0]@ == k {
        0
    } else {
        let r = text_index(texts.drop_first(), k);
        if r < 0 {
            -1
        } else {
            r + 1
        }
    }
}

proof fn lemma_text_index(texts: Seq<String>, k: Seq<char>)
    ensures
        -1 <= text_index(texts, k) < texts.len(),
        text_index(texts, k) >= 0 ==> texts[text_index(texts, k)]@ == k && forall|j: int|
            0 <= j < text_index(texts, k) ==> (#[trigger] texts[j])@ != k,
        text_index(texts, k) < 0 ==> forall|j: int| 0 <= j < texts.len()
            ==> (#[trigger] texts[j])@ != k,
    decreases texts.len(),
{
    if texts.len() > 0 && texts[0]@ != k {
        lemma_text_index(texts.drop_first(), k);
        let r = text_index(texts.drop_first(), k);
        assert forall|j: int| 1 <= j < texts.len() implies texts.drop_first()[j - 1]
            == #[trigger] texts[j] by {}
        if r >= 0 {
            assert(texts[r + 1]@ == k);
        }
    }
}

/// Every uncached input text appears in the miss list.
proof fn lemma_misses_contains(es: Seq<CacheEntryModel>, texts: Seq<String>, k: int, i: int)
    requires
        0 <= k <= i < texts.len(),
        !cache_has(es, texts[i]@),
        text_index(texts, texts[i]@) == i,
    ensures
        spec_misses(es, texts, k).contains(texts[i]@),
    decreases i - k,
{
    lemma_text_index(texts, texts[i]@);
    if k == i {
        assert(spec_misses(es, texts, i) == seq![texts[i]@] + spec_misses(es, texts, i + 1));
        assert(spec_misses(es, texts, i)[0] == texts[i]@);
    } else {
        lemma_misses_contains(es, texts, k + 1, i);
        let rest = spec_misses(es, texts, k + 1);
        let w = choose|w: int| 0 <= w < rest.len() && rest[w] == texts[i]@;
        if spec_misses(es, texts, k) == seq![texts[k]@] + rest {
            assert(spec_misses(es, texts, k)[w + 1] == texts[i]@);
        } else {
            assert(spec_misses(es, texts, k) == rest);
        }
    }
}

impl EmbeddingCache {
    /// The deduplicated texts of `texts` that the cache cannot answer, in
    /// first-occurrence order: exactly the batch the provider must embed.
    pub fn miss_texts(&self, texts: &Vec<String>) -> (r: Vec<String>)
        requires
            self.wf(),
        ensures
            r@.len() == spec_misses(self.entries(), texts@, 0).len(),
            forall|k: int| 0 <= k < r@.len() ==> (#[trigger] r@[k])@ == spec_misses(
                self.entries(),
                texts@,
                0,
            )[k],
    {
        let ghost es = self.entries();
        let ghost ms = spec_misses(es, texts@, 0);
        let n = texts.len();
        let mut r: Vec<String> = Vec::new();
        let mut i: usize = 0;
        while i < n
            invariant
                0 <= i <= n,
                n == texts@.len(),
                self.wf(),
                es == self.entries(),
                ms == spec_misses(es, texts@, 0),
                r@.len() <= ms.len(),
                ms.skip(r@.len() as int) =~= spec_misses(es, texts@, i as int),
                forall|k: int| 0 <= k < r@.len() ==> (#[trigger] r@[k])@ == ms[k],
            decreases n - i,
        {
            let mut dup = false;
            let mut j: usize = 0;
            while j < i
                invariant
                    0 <= j <= i < n,
                    n == texts@.len(),
                    dup ==> exists|u: int| 0 <= u < i && (#[trigger] texts@[u])@
                        == texts@[i as int]@,
                    !dup ==> forall|u: int| 0 <= u < j ==> (#[trigger] texts@[u])@
                        != texts@[i as int]@,
                decreases i - j,
            {
                if texts[j] == texts[i] {
                    dup = true;
                    proof {
                        assert(texts@[j as int]@ == texts@[i as int]@);
                    }
                }
                j = j + 1;
            }
            let hit = match self.find(&texts[i]) {
                Some(_) => true,
                None => false,
            };
            proof {
                lemma_key_index(es, texts@[i as int]@);
            }
            if !hit && !dup {
                r.push(texts[i].clone());
                proof {
                    assert(spec_misses(es, texts@, i as int) == seq![texts@[i as int]@]
                        + spec_misses(es, texts@, i as int + 1));
                    assert(ms.skip(r@.len() - 1)[0] == texts@[i as int]@);
                    assert(ms[r@.len() - 1] == texts@[i as int]@);
                    assert(ms.skip(r@.len() as int) =~= ms.skip(r@.len() - 1).drop_first());
                    assert(ms.skip(r@.len() - 1).drop_first() =~= spec_misses(
                        es,
                        texts@,
                        i as int + 1,
                    ));
                }
            } else {
                proof {
                    assert(spec_misses(es, texts@, i as int) == spec_misses(
                        es,
                        texts@,
                        i as int + 1,
                    ));
                }
            }
            i = i + 1;
        }
        proof {
            assert(spec_misses(es, texts@, n as int) =~= Seq::<Seq<char>>::empty());
            assert(r@.len() == ms.len());
        }
        r
    }

    /// Finishes a batch: caches each fetched embedding under its miss text
    /// (refreshing hit recency along the way) and reassembles one embedding
    /// per input text, in the exact input order and length.  Duplicate
    /// inputs receive identical embeddings.
    pub fn integrate(&mut self, texts: &Vec<String>, fetched: &Vec<Vec<i64>>) -> (r: Vec<
        Vec<i64>,
    >)
        requires
            old(self).wf(),
            fetched@.len() == spec_misses(old(self).entries(), texts@, 0).len(),
        ensures
            final(self).wf(),
            final(self).capacity() == old(self).capacity(),
            final(self).entries() == insert_all(
                refresh_all(old(self).entries(), texts@, 0),
                spec_misses(old(self).entries(), texts@, 0),
                fetched@,
                old(self).capacity(),
                0,
            ),
            r@.len() == texts@.len(),
            forall|i: int| 0 <= i < texts@.len() ==> (#[trigger] r@[i])@ == expected_embedding(
                old(self).entries(),
                texts@,
                fetched@,
                i,
            ),
    {
        let ghost es0 = self.entries();
        let ghost ms = spec_misses(es0, texts@, 0);
        let ghost cap = self.capacity();
        let misses = self.miss_texts(texts);
        let n = texts.len();

        // Look every input up, refreshing hits and remembering their values.
        let mut hits: Vec<Option<Vec<i64>>> = Vec::new();
        let mut i: usize = 0;
        while i < n
            invariant
                0 <= i <= n,
                n == texts@.len(),
                self.wf(),
                self.capacity() == cap,
                cache_keys_unique(es0),
                refresh_all(es0, texts@, 0) == refresh_all(self.entries(), texts@, i as int),
                forall|k2: Seq<char>| #[trigger] cache_has(self.entries(), k2) == cache_has(
                    es0,
                    k2,
                ) && (cache_has(es0, k2) ==> cache_val(self.entries(), k2) == cache_val(es0, k2)),
                hits@.len() == i,
                forall|j: int| 0 <= j < i ==> match #[trigger] hits@[j] {
                    Some(v) => cache_has(es0, texts@[j]@) && v@ == cache_val(es0, texts@[j]@),
                    None => !cache_has(es0, texts@[j]@),
                },
            decreases n - i,
        {
            let ghost esc = self.entries();
            let h = self.get(texts[i].as_str());
            proof {
                lemma_refresh_preserves(esc, texts@[i as int]@, texts@[i as int]@);
                assert forall|k2: Seq<char>| #[trigger] cache_has(self.entries(), k2)
                    == cache_has(es0, k2) && (cache_has(es0, k2) ==> cache_val(
                    self.entries(),
                    k2,
                ) == cache_val(es0, k2)) by {
                    lemma_refresh_preserves(esc, texts@[i as int]@, k2);
                }
            }
            hits.push(h);
            i = i + 1;
        }
        let ghost es_a = self.entries();
        proof {
            assert(refresh_all(es0, texts@, 0) == es_a);
        }

        // Store the provider's answers, in miss order.
        let m = misses.len();
        let mut j: usize = 0;
        while j < m
            invariant
                0 <= j <= m,
                m == misses@.len(),
                m == ms.len(),
                m == fetched@.len(),
                self.wf(),
                self.capacity() == cap,
                forall|k: int| 0 <= k < m ==> (#[trigger] misses@[k])@ == ms[k],
                insert_all(es_a, ms, fetched@, cap, 0) == insert_all(
                    self.entries(),
                    ms,
                    fetched@,
                    cap,
                    j as int,
                ),
            decreases m - j,
        {
            self.insert(misses[j].clone(), fetched[j].clone());
            j = j + 1;
        }

        // Reassemble, one embedding per input, in input order.
        let mut out: Vec<Vec<i64>> = Vec::new();
        let mut t: usize = 0;
        while t < n
            invariant
                0 <= t <= n,
                n == texts@.len(),
                m == misses@.len(),
                m == ms.len(),
                m == fetched@.len(),
                ms == spec_misses(es0, texts@, 0),
                cache_keys_unique(es0),
                forall|k: int| 0 <= k < m ==> (#[trigger] misses@[k])@ == ms[k],
                hits@.len() == n,
                forall|jj: int| 0 <= jj < n ==> match #[trigger] hits@[jj] {
                    Some(v) => cache_has(es0, texts@[jj]@) && v@ == cache_val(es0, texts@[jj]@),
                    None => !cache_has(es0, texts@[jj]@),
                },
                out@.len() == t,
                forall|ii: int| 0 <= ii < t ==> (#[trigger] out@[ii])@ == expected_embedding(
                    es0,
                    texts@,
                    fetched@,
                    ii,
                ),
            decreases n - t,
        {
            let h = &hits[t];
            match h {
                Some(v) => {
                    out.push(v.clone());
                },
                None => {
                    // The text is uncached, so it has a miss position.
                    proof {
                        lemma_text_index(texts@, texts@[t as int]@);
                        let f = text_index(texts@, texts@[t as int]@);
                        assert(0 <= f <= t);
                        assert(texts@[f]@ == texts@[t as int]@);
                        lemma_misses_contains(es0, texts@, 0, f);
                        lemma_miss_index(ms, texts@[t as int]@);
                        let w = choose|w: int| 0 <= w < ms.len() && ms[w] == texts@[t as int]@;
                        assert(miss_index(ms, texts@[t as int]@) >= 0);
                    }
                    let mut k: usize = 0;
                    let mut found: usize = 0;
                    let mut have: bool = false;
                    while k < m
                        invariant
                            0 <= k <= m,
                            m == misses@.len(),
                            m == ms.len(),
                            m == fetched@.len(),
                            t < n,
                            n == texts@.len(),
                            forall|kk: int| 0 <= kk < m ==> (#[trigger] misses@[kk])@ == ms[kk],
                            have ==> 0 <= found < k && ms[found as int] == texts@[t as int]@
                                && forall|kk: int| 0 <= kk < found ==> ms[kk]
                                    != texts@[t as int]@,
                            !have ==> forall|kk: int| 0 <= kk < k ==> ms[kk]
                                != texts@[t as int]@,
                        decreases m - k,
                    {
                        if !have && misses[k] == texts[t] {
                            found = k;
                            have = true;
                            proof {
                                assert(ms[k as int] == texts@[t as int]@);
                            }
                        }
                        k = k + 1;
                    }
                    proof {
                        lemma_miss_index(ms, texts@[t as int]@);
                        let mi = miss_index(ms, texts@[t as int]@);
                        assert(mi >= 0);
                        assert(have);
                        if mi < found {
                            assert(ms[mi] == texts@[t as int]@);
                        }
                        if mi > found {
                            assert(ms[found as int] != texts@[t as int]@);
                        }
                        assert(found == mi);
                    }
                    out.push(fetched[found].clone());
                },
            }
            t = t + 1;
        }
        out
    }
}

proof fn lemma_wf_after_replace(es: Seq<CacheEntryModel>, i: int, k: Seq<char>, v: Seq<i64>)
    requires
        cache_keys_unique(es),
        0 <= i < es.len(),
        es[i].key == k,
    ensures
        cache_keys_unique(es.remove(i).push(CacheEntryModel { key: k, val: v })),
{
    let es2 = es.remove(i).push(CacheEntryModel { key: k, val: v });
    assert forall|a: int, b: int| 0 <= a < b < es2.len() implies (#[trigger] es2[a]).key
        != (#[trigger] es2[b]).key by {
        let a0: int = if a < i { a } else { a + 1 };
        assert(es2[a] == es[a0]);
        if b < es2.len() - 1 {
            let b0: int = if b < i { b } else { b + 1 };
            assert(es2[b] == es[b0]);
        }
    }
}

proof fn lemma_wf_after_evict(es: Seq<CacheEntryModel>, k: Seq<char>, v: Seq<i64>)
    requires
        cache_keys_unique(es),
        es.len() >= 1,
        key_index(es, k) < 0,
    ensures
        cache_keys_unique(es.drop_first().push(CacheEntryModel { key: k, val: v })),
{
    lemma_key_index(es, k);
    let es2 = es.drop_first().push(CacheEntryModel { key: k, val: v });
    assert forall|a: int, b: int| 0 <= a < b < es2.len() implies (#[trigger] es2[a]).key
        != (#[trigger] es2[b]).key by {
        assert(es2[a] == es[a + 1]);
        if b < es2.len() - 1 {
            assert(es2[b] == es[b + 1]);
        }
    }
}

} // verus!
