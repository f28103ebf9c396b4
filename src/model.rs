//! The n-gram model: a vocabulary of interned tokens and a table from
//! contexts (recent token ids) to weighted candidate next ids.
use vstd::prelude::*;
use vstd::hash_map::StringHashMap;
use crate::lemmas::weight_of;
use rand::distr::weighted::WeightedIndex;
use rand::distr::Distribution;
use rand::rngs::ThreadRng;
use rand::Rng;

verus! {

/// Table entries: a context and its (candidate id, cumulative weight) list.
pub type TableView = Seq<(Seq<u32>, Seq<(u32, u32)>)>;

/// What a model holds, as mathematical values.
pub ghost struct MarkovModel {
    pub degree: nat,
    pub words: Seq<Seq<char>>,
    pub table: TableView,
}

/// Position of the entry whose context is `ctx`, or `t.len()` when there is none.
pub open spec fn key_pos(t: TableView, ctx: Seq<u32>) -> int {
    if exists|k: int| 0 <= k < t.len() && #[trigger] t[k].0 == ctx {
        choose|k: int| 0 <= k < t.len() && #[trigger] t[k].0 == ctx
    } else {
        t.len() as int
    }
}

/// Position of candidate `id` in `c`, or `c.len()` when it is absent.
pub open spec fn cand_pos(c: Seq<(u32, u32)>, id: u32) -> int {
    if exists|j: int| 0 <= j < c.len() && #[trigger] c[j].0 == id {
        choose|j: int| 0 <= j < c.len() && #[trigger] c[j].0 == id
    } else {
        c.len() as int
    }
}

/// Adds `w` to the weight of candidate `id`, appending it when new.
pub open spec fn bump(c: Seq<(u32, u32)>, id: u32, w: u32) -> Seq<(u32, u32)> {
    let j = cand_pos(c, id);
    if j < c.len() {
        c.update(j, (id, (c[j].1 + w) as u32))
    } else {
        c.push((id, w))
    }
}

/// Records one observation of `id` after `ctx` with weight `w`.
pub open spec fn observe(t: TableView, ctx: Seq<u32>, id: u32, w: u32) -> TableView {
    let k = key_pos(t, ctx);
    if k < t.len() {
        t.update(k, (ctx, bump(t[k].1, id, w)))
    } else {
        t.push((ctx, seq![(id, w)]))
    }
}

/// The context before position `i` of an id stream: its last `degree - 1` ids.
pub open spec fn window(ids: Seq<u32>, i: int, degree: nat) -> Seq<u32> {
    let lo = if i >= degree - 1 {
        i - (degree - 1)
    } else {
        0
    };
    ids.subrange(lo, i)
}

/// The vocabulary after meeting `w`.
pub open spec fn intern(words: Seq<Seq<char>>, w: Seq<char>) -> Seq<Seq<char>> {
    if words.contains(w) {
        words
    } else {
        words.push(w)
    }
}

/// The vocabulary after meeting every token of `corpus`, in order.
pub open spec fn vocab_after(words: Seq<Seq<char>>, corpus: Seq<Seq<char>>) -> Seq<Seq<char>>
    decreases corpus.len(),
{
    if corpus.len() == 0 {
        words
    } else {
        intern(vocab_after(words, corpus.drop_last()), corpus.last())
    }
}

/// The id given to each token of `corpus` when it is met.
pub open spec fn ids_of(words: Seq<Seq<char>>, corpus: Seq<Seq<char>>) -> Seq<u32>
    decreases corpus.len(),
{
    if corpus.len() == 0 {
        Seq::empty()
    } else {
        ids_of(words, corpus.drop_last()).push(
            vocab_after(words, corpus).index_of(corpus.last()) as u32,
        )
    }
}

/// The table after streaming the id sequence `ids` through it.
pub open spec fn table_after(t: TableView, ids: Seq<u32>, degree: nat, w: u32) -> TableView
    decreases ids.len(),
{
    if ids.len() == 0 {
        t
    } else {
        let prev = table_after(t, ids.drop_last(), degree, w);
        if ids.len() > 1 {
            observe(prev, window(ids, ids.len() - 1, degree), ids.last(), w)
        } else {
            prev
        }
    }
}

/// The model after training on `corpus` with weight `w`.
pub open spec fn trained(m: MarkovModel, corpus: Seq<Seq<char>>, w: u32) -> MarkovModel {
    MarkovModel {
        degree: m.degree,
        words: vocab_after(m.words, corpus),
        table: table_after(m.table, ids_of(m.words, corpus), m.degree, w),
    }
}

pub open spec fn unique_words(words: Seq<Seq<char>>) -> bool {
    forall|i: int, j: int| 0 <= i < j < words.len() ==> words[i] != words[j]
}

pub open spec fn unique_cands(c: Seq<(u32, u32)>) -> bool {
    forall|i: int, j: int| 0 <= i < j < c.len() ==> c[i].0 != c[j].0
}

/// Distinct contexts; within an entry, distinct candidates with positive
/// weights; every id below `n`.
pub open spec fn table_wf(t: TableView, n: nat) -> bool {
    &&& forall|i: int, j: int| 0 <= i < j < t.len() ==> t[i].0 != t[j].0
    &&& forall|k: int|
        0 <= k < t.len() ==> {
            &&& unique_cands(#[trigger] t[k].1)
            &&& t[k].1.len() > 0
            &&& forall|j: int| 0 <= j < t[k].1.len() ==> t[k].1[j].1 > 0 && t[k].1[j].0 < n
            &&& forall|j: int| 0 <= j < t[k].0.len() ==> t[k].0[j] < n
        }
}

pub open spec fn model_wf(m: MarkovModel) -> bool {
    &&& m.degree >= 2
    &&& unique_words(m.words)
    &&& m.words.len() <= u32::MAX
    &&& table_wf(m.table, m.words.len())
}

/// Every weight of the table can still grow by `extra`.
pub open spec fn weights_below(t: TableView, extra: int) -> bool {
    forall|k: int, j: int|
        0 <= k < t.len() && 0 <= j < t[k].1.len() ==> #[trigger] t[k].1[j].1 + extra <= u32::MAX
}


/// Where `ctx` sits in a table of distinct contexts.
proof fn lemma_key_pos(t: TableView, ctx: Seq<u32>, k: int)
    requires
        forall|i: int, j: int| 0 <= i < j < t.len() ==> t[i].0 != t[j].0,
        0 <= k <= t.len(),
        k < t.len() ==> t[k].0 == ctx,
        forall|j: int| 0 <= j < k ==> t[j].0 != ctx,
    ensures
        key_pos(t, ctx) == k,
{
    if k < t.len() {
        assert(t[k].0 == ctx);
        let c = choose|c: int| 0 <= c < t.len() && #[trigger] t[c].0 == ctx;
        assert(c == k) by {
            if c < k {
            } else if c > k {
                assert(t[k].0 != t[c].0);
            }
        }
    } else {
        assert(!exists|c: int| 0 <= c < t.len() && #[trigger] t[c].0 == ctx);
    }
}

/// Where `id` sits in a list of distinct candidates.
proof fn lemma_cand_pos(c: Seq<(u32, u32)>, id: u32, k: int)
    requires
        unique_cands(c),
        0 <= k <= c.len(),
        k < c.len() ==> c[k].0 == id,
        forall|j: int| 0 <= j < k ==> c[j].0 != id,
    ensures
        cand_pos(c, id) == k,
{
    if k < c.len() {
        assert(c[k].0 == id);
        let x = choose|x: int| 0 <= x < c.len() && #[trigger] c[x].0 == id;
        assert(x == k) by {
            if x < k {
            } else if x > k {
                assert(c[k].0 != c[x].0);
            }
        }
    } else {
        assert(!exists|x: int| 0 <= x < c.len() && #[trigger] c[x].0 == id);
    }
}

/// In a sequence without repeats, `index_of` finds the one occurrence.
pub proof fn lemma_index_of_unique(words: Seq<Seq<char>>, i: int)
    requires
        unique_words(words),
        0 <= i < words.len(),
    ensures
        words.index_of(words[i]) == i,
{
    assert(words.contains(words[i]));
    let j = words.index_of(words[i]);
    assert(words[j] == words[i]);
    if j < i {
        assert(words[j] != words[i]);
    } else if j > i {
        assert(words[i] != words[j]);
    }
}


/// Observing with weight `w` keeps every weight within `extra` of the limit
/// when all were within `extra + w` of it.
pub proof fn lemma_observe_weights(t: TableView, ctx: Seq<u32>, id: u32, w: u32, extra: int)
    requires
        extra >= 0,
        w + extra <= u32::MAX,
        weights_below(t, extra + w),
    ensures
        weights_below(observe(t, ctx, id, w), extra),
{
    let r = observe(t, ctx, id, w);
    let k = key_pos(t, ctx);
    if k < t.len() {
        assert(t[k].0 == ctx);
        let c = t[k].1;
        let jp = cand_pos(c, id);
        if jp < c.len() {
            assert(c[jp].0 == id);
        }
        assert forall|a: int, b: int|
            0 <= a < r.len() && 0 <= b < r[a].1.len() implies #[trigger] r[a].1[b].1 + extra
            <= u32::MAX by {
            if a == k {
                if b < c.len() {
                    assert(t[k].1[b].1 + extra + w <= u32::MAX);
                }
            } else {
                assert(t[a].1[b].1 + extra + w <= u32::MAX);
            }
        }
    } else {
        assert forall|a: int, b: int|
            0 <= a < r.len() && 0 <= b < r[a].1.len() implies #[trigger] r[a].1[b].1 + extra
            <= u32::MAX by {
            if a < t.len() {
                assert(t[a].1[b].1 + extra + w <= u32::MAX);
            }
        }
    }
}


/// Observing keeps the table well formed.
proof fn lemma_observe_wf(t: TableView, n: nat, ctx: Seq<u32>, id: u32, w: u32)
    requires
        table_wf(t, n),
        ctx.len() > 0,
        forall|j: int| 0 <= j < ctx.len() ==> ctx[j] < n,
        id < n,
        w >= 1,
        weights_below(t, w as int),
    ensures
        table_wf(observe(t, ctx, id, w), n),
{
    let r = observe(t, ctx, id, w);
    let k = key_pos(t, ctx);
    if k < t.len() {
        assert(t[k].0 == ctx);
        let c = t[k].1;
        let jp = cand_pos(c, id);
        if jp < c.len() {
            assert(c[jp].0 == id);
            assert(c[jp].1 + w <= u32::MAX);
        } else {
            assert(forall|x: int| 0 <= x < c.len() ==> #[trigger] c[x].0 != id);
        }
        let nc = bump(c, id, w);
        assert(unique_cands(nc));
        assert forall|a: int, b: int| 0 <= a < b < r.len() implies r[a].0 != r[b].0 by {
            assert(t[a].0 != t[b].0);
        }
        assert forall|a: int| 0 <= a < r.len() implies {
            &&& unique_cands(#[trigger] r[a].1)
            &&& r[a].1.len() > 0
            &&& forall|j: int| 0 <= j < r[a].1.len() ==> r[a].1[j].1 > 0 && r[a].1[j].0 < n
            &&& forall|j: int| 0 <= j < r[a].0.len() ==> r[a].0[j] < n
        } by {
            if a == k {
                assert forall|j: int| 0 <= j < nc.len() implies nc[j].1 > 0 && nc[j].0 < n by {
                    if j < c.len() {
                        assert(c[j].1 > 0);
                    }
                }
            } else {
                assert(r[a] == t[a]);
                assert(unique_cands(t[a].1));
            }
        }
    } else {
        assert(forall|x: int| 0 <= x < t.len() ==> #[trigger] t[x].0 != ctx);
        assert forall|a: int, b: int| 0 <= a < b < r.len() implies r[a].0 != r[b].0 by {
            if b < t.len() {
                assert(t[a].0 != t[b].0);
            }
        }
        assert forall|a: int| 0 <= a < r.len() implies {
            &&& unique_cands(#[trigger] r[a].1)
            &&& r[a].1.len() > 0
            &&& forall|j: int| 0 <= j < r[a].1.len() ==> r[a].1[j].1 > 0 && r[a].1[j].0 < n
            &&& forall|j: int| 0 <= j < r[a].0.len() ==> r[a].0[j] < n
        } by {
            if a < t.len() {
                assert(r[a] == t[a]);
                assert(unique_cands(t[a].1));
            }
        }
    }
}

fn same_ids(a: &Vec<u32>, b: &Vec<u32>) -> (r: bool)
    ensures
        r == (a@ == b@),
{
    if a.len() != b.len() {
        return false;
    }
    let mut i: usize = 0;
    while i < a.len()
        invariant
            a@.len() == b@.len(),
            i <= a@.len(),
            forall|j: int| 0 <= j < i ==> a@[j] == b@[j],
        decreases a.len() - i,
    {
        if a[i] != b[i] {
            return false;
        }
        i = i + 1;
    }
    assert(a@ =~= b@);
    true
}

fn copy_ids(a: &Vec<u32>) -> (r: Vec<u32>)
    ensures
        r@ == a@,
{
    let mut r: Vec<u32> = Vec::new();
    let mut i: usize = 0;
    while i < a.len()
        invariant
            i <= a@.len(),
            r@ == a@.take(i as int),
        decreases a.len() - i,
    {
        r.push(a[i]);
        i = i + 1;
        assert(r@ =~= a@.take(i as int));
    }
    assert(a@.take(a@.len() as int) =~= a@);
    r
}

/// Adds `w` to candidate `id` of `c`, appending it when new.
fn bump_candidates(c: &mut Vec<(u32, u32)>, id: u32, w: u32)
    requires
        unique_cands(old(c)@),
        forall|j: int| 0 <= j < old(c)@.len() ==> #[trigger] old(c)@[j].1 + w <= u32::MAX,
    ensures
        final(c)@ == bump(old(c)@, id, w),
{
    let mut j: usize = 0;
    while j < c.len()
        invariant
            c@ == old(c)@,
            unique_cands(c@),
            forall|x: int| 0 <= x < c@.len() ==> #[trigger] c@[x].1 + w <= u32::MAX,
            j <= c@.len(),
            forall|x: int| 0 <= x < j ==> c@[x].0 != id,
        decreases c.len() - j,
    {
        if c[j].0 == id {
            proof {
                lemma_cand_pos(c@, id, j as int);
            }
            let n = c[j].1 + w;
            c.set(j, (id, n));
            return;
        }
        j = j + 1;
    }
    proof {
        lemma_cand_pos(c@, id, c@.len() as int);
    }
    c.push((id, w));
}

/// Slides the context window forward over `id`.
fn advance(prev: &mut Vec<u32>, id: u32, degree: u8)
    requires
        degree >= 2,
        old(prev)@.len() <= degree - 1,
    ensures
        final(prev)@ == if old(prev)@.len() + 1 >= degree {
            old(prev)@.push(id).drop_first()
        } else {
            old(prev)@.push(id)
        },
        final(prev)@.len() <= degree - 1,
{
    prev.push(id);
    if prev.len() >= degree as usize {
        prev.remove(0);
        assert(prev@ =~= old(prev)@.push(id).drop_first());
    }
}


/// A stored context and a trial context agree where they overlap, both
/// read from their most recent id backwards.
pub open spec fn suffix_match(key: Seq<u32>, trial: Seq<u32>) -> bool {
    forall|j: int|
        0 <= j < key.len() && j < trial.len() ==> #[trigger] key[key.len() - 1 - j]
            == trial[trial.len() - 1 - j]
}

/// Entry `k` is what the back-off search settles on, after dropping the
/// `m` oldest ids of `ctx`: no entry matched a longer trial, and no earlier
/// entry matches this one.
pub open spec fn hit(t: TableView, ctx: Seq<u32>, m: int, k: int) -> bool {
    &&& 0 <= m <= ctx.len()
    &&& 0 <= k < t.len()
    &&& suffix_match(t[k].0, ctx.subrange(m, ctx.len() as int))
    &&& forall|j: int| 0 <= j < k ==> !suffix_match(t[j].0, ctx.subrange(m, ctx.len() as int))
    &&& forall|m2: int, j: int|
        0 <= m2 < m && 0 <= j < t.len() ==> !suffix_match(t[j].0, ctx.subrange(m2, ctx.len() as int))
}

/// The back-off search for `ctx` settles on entry `k`.
pub open spec fn settles_on(t: TableView, ctx: Seq<u32>, k: int) -> bool {
    exists|m: int| hit(t, ctx, m, k)
}

/// The sum of the weights of a candidate list.
pub open spec fn entry_total(c: Seq<(u32, u32)>) -> int
    decreases c.len(),
{
    if c.len() == 0 {
        0
    } else {
        entry_total(c.drop_last()) + c.last().1
    }
}

/// `id` may follow `ctx` in generated text: it is a known id, and where the
/// back-off search finds an entry whose weights can be summed, one of its
/// candidates.
pub open spec fn step_ok(m: MarkovModel, ctx: Seq<u32>, id: u32) -> bool {
    &&& id < m.words.len()
    &&& forall|k: int, b: int|
        #![trigger hit(m.table, ctx, b, k)]
        hit(m.table, ctx, b, k) && entry_total(m.table[k].1) <= u32::MAX ==> exists|j: int|
            0 <= j < m.table[k].1.len() && #[trigger] m.table[k].1[j].0 == id
}

/// `ids` is a sequence that generation may produce: a known start id, then
/// each id admitted after the window before it.
pub open spec fn generated(m: MarkovModel, ids: Seq<u32>) -> bool {
    &&& ids.len() > 0
    &&& ids[0] < m.words.len()
    &&& forall|i: int| 1 <= i < ids.len() ==> #[trigger] step_ok(m, window(ids, i, m.degree), ids[i])
}


/// The back-off search settles on one entry at most.
proof fn lemma_hit_unique(t: TableView, ctx: Seq<u32>, b1: int, k1: int, b2: int, k2: int)
    requires
        hit(t, ctx, b1, k1),
        hit(t, ctx, b2, k2),
    ensures
        b1 == b2,
        k1 == k2,
{
    if b1 < b2 {
        assert(!suffix_match(t[k1].0, ctx.subrange(b1, ctx.len() as int)));
    } else if b2 < b1 {
        assert(!suffix_match(t[k2].0, ctx.subrange(b2, ctx.len() as int)));
    }
}

/// A non-empty list of positive weights has a positive total.
proof fn lemma_total_pos(c: Seq<(u32, u32)>)
    requires
        c.len() > 0,
        forall|j: int| 0 <= j < c.len() ==> c[j].1 > 0,
    ensures
        entry_total(c) > 0,
    decreases c.len(),
{
    lemma_total_nonneg(c.drop_last());
    assert(c.last().1 > 0);
}

proof fn lemma_total_nonneg(c: Seq<(u32, u32)>)
    ensures
        entry_total(c) >= 0,
    decreases c.len(),
{
    if c.len() > 0 {
        lemma_total_nonneg(c.drop_last());
    }
}

/// The thread-local random generator of `rand`, carried through opaquely.
#[verifier::external_type_specification]
#[verifier::external_body]
pub struct ExThreadRng(ThreadRng);

/// Relies on `rand::rng`: a handle to the thread-local generator.
#[verifier::external_body]
fn fresh_rng() -> ThreadRng {
    rand::rng()
}

/// Relies on `Rng::random_range`: a value of the half-open range `0..n`.
#[verifier::external_body]
fn random_below(r: &mut ThreadRng, n: usize) -> (i: usize)
    requires
        n > 0,
    ensures
        i < n,
{
    r.random_range(0..n)
}

/// Relies on `WeightedIndex::new` and its `sample`: an index drawn in
/// proportion to the weights, or an error when the list is empty, its total
/// is zero or the total overflows `u32`.
#[verifier::external_body]
fn weighted_choice(r: &mut ThreadRng, c: &Vec<(u32, u32)>) -> (i: Option<usize>)
    ensures
        match i {
            Some(j) => j < c@.len() && c@[j as int].1 > 0,
            None => c@.len() == 0 || entry_total(c@) == 0 || entry_total(c@) > u32::MAX,
        },
{
    match WeightedIndex::new(c.iter().map(|x| x.1)) {
        Ok(d) => Some(d.sample(r)),
        Err(_) => None,
    }
}

/// Whether `key` and the trial `ctx[m..]` agree where they overlap.
fn key_matches(key: &Vec<u32>, ctx: &Vec<u32>, m: usize) -> (r: bool)
    requires
        m <= ctx@.len(),
    ensures
        r == suffix_match(key@, ctx@.subrange(m as int, ctx@.len() as int)),
{
    let ghost trial = ctx@.subrange(m as int, ctx@.len() as int);
    let tl = ctx.len() - m;
    let kl = key.len();
    let mut j: usize = 0;
    while j < kl && j < tl
        invariant
            tl == trial.len(),
            kl == key@.len(),
            trial == ctx@.subrange(m as int, ctx@.len() as int),
            m <= ctx@.len(),
            j <= kl,
            j <= tl,
            forall|x: int| 0 <= x < j ==> #[trigger] key@[kl - 1 - x] == trial[tl - 1 - x],
        decreases kl - j,
    {
        if key[kl - 1 - j] != ctx[ctx.len() - 1 - j] {
            assert(trial[tl - 1 - j] == ctx@[ctx@.len() - 1 - j]);
            return false;
        }
        j = j + 1;
    }
    true
}

/// One entry of the transition table.
pub struct Transition {
    pub context: Vec<u32>,
    pub candidates: Vec<(u32, u32)>,
}

/// A Markov chain over words.
pub struct Markov {
    degree: u8,
    words: Vec<String>,
    index: StringHashMap<u32>,
    mappings: Vec<Transition>,
}

pub open spec fn entry_view(e: Transition) -> (Seq<u32>, Seq<(u32, u32)>) {
    (e.context@, e.candidates@)
}

impl View for Markov {
    type V = MarkovModel;

    closed spec fn view(&self) -> MarkovModel {
        MarkovModel {
            degree: self.degree as nat,
            words: self.words@.map_values(|s: String| s@),
            table: self.mappings@.map_values(|e: Transition| entry_view(e)),
        }
    }
}

impl Markov {
    /// The model is consistent and its word index agrees with its vocabulary.
    pub closed spec fn wf(&self) -> bool {
        &&& model_wf(self@)
        &&& forall|w: Seq<char>| #[trigger]
            self.index@.contains_key(w) <==> self@.words.contains(w)
        &&& forall|i: int|
            0 <= i < self.words@.len() ==> self.index@[#[trigger] self.words@[i]@] == i
    }

    /// An empty model of the given degree (the Markov order plus one).
    pub fn new(degree: u8) -> (r: Markov)
        requires
            degree >= 2,
        ensures
            r.wf(),
            r@.degree == degree as nat,
            r@.words.len() == 0,
            r@.table.len() == 0,
    {
        let r = Markov { degree, words: Vec::new(), index: StringHashMap::new(), mappings: Vec::new() };
        proof {
            assert(r@.words =~= Seq::empty());
            assert(r@.table =~= Seq::empty());
        }
        r
    }

    /// Streams `corpus` through the model: each token gets its id (a new one
    /// on first sight) and, after the first, is recorded as following the
    /// last `degree - 1` ids of this corpus, with weight `weight`. Earlier
    /// training is kept and added to. Ids and weights are `u32`: the
    /// vocabulary must stay within that range, and every weight must have
    /// room for `weight` once per token of the corpus.
    pub fn train(&mut self, corpus: &[String], weight: u32)
        requires
            old(self).wf(),
            weight >= 1,
            old(self)@.words.len() + corpus@.len() <= u32::MAX,
            corpus@.len() * weight <= u32::MAX,
            weights_below(old(self)@.table, corpus@.len() * weight),
        ensures
            final(self).wf(),
            final(self)@ == trained(old(self)@, corpus@.map_values(|s: String| s@), weight),
    {
        let ghost cv = corpus@.map_values(|s: String| s@);
        let ghost w0 = self@.words;
        let ghost t0 = self@.table;
        let ghost d = self@.degree;
        let ghost mut ids: Seq<u32> = Seq::empty();
        let mut prev: Vec<u32> = Vec::new();
        let n = corpus.len();
        let mut i: usize = 0;
        proof {
            assert(cv.take(0) =~= Seq::<Seq<char>>::empty());
            assert(prev@ =~= window(ids, 0, d));
        }
        while i < n
            invariant
                n == corpus@.len(),
                cv == corpus@.map_values(|s: String| s@),
                i <= n,
                self.wf(),
                self@.degree == d,
                d == old(self)@.degree,
                w0 == old(self)@.words,
                t0 == old(self)@.table,
                weight >= 1,
                n * weight <= u32::MAX,
                w0.len() + n <= u32::MAX,
                self@.words.len() <= w0.len() + i,
                self@.words == vocab_after(w0, cv.take(i as int)),
                ids == ids_of(w0, cv.take(i as int)),
                ids.len() == i,
                forall|j: int| 0 <= j < i ==> ids[j] < self@.words.len(),
                self@.table == table_after(t0, ids, d, weight),
                prev@ == window(ids, i as int, d),
                prev@.len() <= d - 1,
                weights_below(self@.table, (n - i) * weight),
            decreases n - i,
        {
            proof {
                assert(cv.take(i + 1).drop_last() =~= cv.take(i as int));
                assert(cv[i as int] == corpus@[i as int]@);
            }
            let id = self.intern_word(&corpus[i]);
            let ghost ids1 = ids.push(id);
            proof {
                assert(ids1.drop_last() =~= ids);
                assert(window(ids1, i as int, d) =~= window(ids, i as int, d));
                assert(0 <= (n - i - 1) * weight) by (nonlinear_arith)
                    requires
                        i < n,
                ;
                assert((n - i) * weight == (n - i - 1) * weight + weight) by (nonlinear_arith);
                assert((n - i) * weight <= n * weight) by (nonlinear_arith)
                    requires
                        i < n,
                ;
            }
            if prev.len() > 0 {
                proof {
                    assert forall|j: int| 0 <= j < prev@.len() implies prev@[j] < self@.words.len() by {
                        let lo = if i >= d - 1 { i - (d - 1) } else { 0 };
                        assert(prev@[j] == ids[lo + j]);
                    }
                    assert(weights_below(self@.table, weight as int));
                    lemma_observe_weights(
                        self@.table,
                        prev@,
                        id,
                        weight,
                        (n - i - 1) * weight,
                    );
                }
                self.record(&prev, id, weight);
            } else {
                proof {
                    assert(ids1.len() == 1);
                }
            }
            advance(&mut prev, id, self.degree);
            proof {
                ids = ids1;
                assert(prev@ =~= window(ids, i + 1, d));
                assert forall|j: int| 0 <= j < i + 1 implies ids[j] < self@.words.len() by {
                    if j < i {
                        assert(ids[j] == ids1.drop_last()[j]);
                    }
                }
            }
            i = i + 1;
        }
        proof {
            assert(cv.take(n as int) =~= cv);
        }
    }

    /// The back-off search: trial contexts from the whole of `ctx` down to the
    /// empty one, dropping the oldest id each time; at each length the first
    /// stored entry that agrees with the trial on their overlap wins.
    /// Only an empty table yields `None`.
    pub fn find_entry(&self, ctx: &Vec<u32>) -> (r: Option<usize>)
        requires
            self.wf(),
        ensures
            r.is_some() ==> settles_on(self@.table, ctx@, r.unwrap() as int),
            r.is_none() ==> self@.table.len() == 0,
    {
        let ghost t = self@.table;
        let mut m: usize = 0;
        while m <= ctx.len()
            invariant
                t == self.mappings@.map_values(|e: Transition| entry_view(e)),
                t == self@.table,
                m <= ctx@.len(),
                forall|m2: int, j: int|
                    0 <= m2 < m && 0 <= j < t.len() ==> !suffix_match(
                        t[j].0,
                        ctx@.subrange(m2, ctx@.len() as int),
                    ),
            decreases ctx.len() + 1 - m,
        {
            let mut k: usize = 0;
            while k < self.mappings.len()
                invariant
                    t == self.mappings@.map_values(|e: Transition| entry_view(e)),
                    t == self@.table,
                    m <= ctx@.len(),
                    k <= t.len(),
                    forall|m2: int, j: int|
                        0 <= m2 < m && 0 <= j < t.len() ==> !suffix_match(
                            t[j].0,
                            ctx@.subrange(m2, ctx@.len() as int),
                        ),
                    forall|j: int|
                        0 <= j < k ==> !suffix_match(t[j].0, ctx@.subrange(m as int, ctx@.len() as int)),
                decreases self.mappings.len() - k,
            {
                proof {
                    assert(t[k as int] == entry_view(self.mappings@[k as int]));
                }
                if key_matches(&self.mappings[k].context, ctx, m) {
                    proof {
                        assert(hit(self@.table, ctx@, m as int, k as int));
                        assert(settles_on(self@.table, ctx@, k as int));
                    }
                    return Some(k);
                }
                k = k + 1;
            }
            if m == ctx.len() {
                proof {
                    if t.len() > 0 {
                        assert(suffix_match(t[0].0, ctx@.subrange(m as int, ctx@.len() as int)));
                    }
                }
                return None;
            }
            m = m + 1;
        }
        None
    }

    /// Generates `limit` tokens (one when `limit` is zero): a start token drawn
    /// uniformly from the vocabulary, then each next token drawn by weight
    /// from the entry that the back-off search finds for the current window.
    /// Where there is no entry, or its weights cannot be drawn from, the next
    /// token is drawn uniformly from the vocabulary.
    pub fn infer(&self, limit: usize) -> (out: Vec<String>)
        requires
            self.wf(),
            self@.words.len() > 0,
        ensures
            out@.len() == if limit == 0 {
                1
            } else {
                limit
            },
            forall|i: int| 0 <= i < out@.len() ==> self@.words.contains(#[trigger] out@[i]@),
            exists|ids: Seq<u32>|
                {
                    &&& generated(self@, ids)
                    &&& ids.len() == out@.len()
                    &&& forall|i: int| 0 <= i < ids.len() ==> out@[i]@ == self@.words[ids[i] as int]
                },
    {
        let ghost mv = self@;
        let count: usize = if limit == 0 {
            1
        } else {
            limit
        };
        let mut rng = fresh_rng();
        let start = random_below(&mut rng, self.words.len());
        let mut out: Vec<String> = Vec::new();
        out.push(self.words[start].clone());
        let mut prev: Vec<u32> = Vec::new();
        prev.push(start as u32);
        let ghost mut ids: Seq<u32> = seq![start as u32];
        proof {
            assert(prev@ =~= window(ids, 1, mv.degree));
            assert(self@.words[start as int] == self.words@[start as int]@);
        }
        while out.len() < count
            invariant
                mv == self@,
                self.wf(),
                1 <= out@.len() <= count,
                ids.len() == out@.len(),
                generated(mv, ids),
                forall|i: int| 0 <= i < ids.len() ==> out@[i]@ == mv.words[ids[i] as int],
                prev@ == window(ids, ids.len() as int, mv.degree),
                prev@.len() <= mv.degree - 1,
            decreases count - out.len(),
        {
            let ghost t = mv.table;
            let found = self.find_entry(&prev);
            let id: u32 = match found {
                Some(k) => {
                    proof {
                        assert(t[k as int] == entry_view(self.mappings@[k as int]));
                    }
                    match weighted_choice(&mut rng, &self.mappings[k].candidates) {
                        Some(j) => {
                            proof {
                                assert(t[k as int].1[j as int].0 == self.mappings@[k as int].candidates@[j as int].0);
                                assert(t[k as int].1[j as int].0 < mv.words.len());
                            }
                            self.mappings[k].candidates[j].0
                        },
                        None => random_below(&mut rng, self.words.len()) as u32,
                    }
                },
                None => random_below(&mut rng, self.words.len()) as u32,
            };
            proof {
                assert(id < mv.words.len());
                assert forall|k2: int, b2: int|
                    #![trigger hit(t, prev@, b2, k2)]
                    hit(t, prev@, b2, k2) && entry_total(t[k2].1) <= u32::MAX implies exists|j: int|
                        0 <= j < t[k2].1.len() && #[trigger] t[k2].1[j].0 == id by {
                    match found {
                        Some(k) => {
                            assert(settles_on(t, prev@, k as int));
                            let b = choose|b: int| hit(t, prev@, b, k as int);
                            lemma_hit_unique(t, prev@, b, k as int, b2, k2);
                            lemma_total_pos(t[k2].1);
                        },
                        None => {},
                    }
                }
            }
            advance(&mut prev, id, self.degree);
            let ghost ids1 = ids.push(id);
            out.push(self.words[id as usize].clone());
            proof {
                assert(window(ids1, ids.len() as int, mv.degree) =~= window(ids, ids.len() as int, mv.degree));
                assert(prev@ =~= window(ids1, ids1.len() as int, mv.degree));
                assert forall|i: int| 1 <= i < ids1.len() implies #[trigger] step_ok(
                    mv,
                    window(ids1, i, mv.degree),
                    ids1[i],
                ) by {
                    if i < ids.len() {
                        assert(window(ids1, i, mv.degree) =~= window(ids, i, mv.degree));
                        assert(ids1[i] == ids[i]);
                    }
                }
                ids = ids1;
            }
        }
        proof {
            assert forall|i: int| 0 <= i < out@.len() implies mv.words.contains(#[trigger] out@[i]@) by {
                if i > 0 {
                    assert(step_ok(mv, window(ids, i, mv.degree), ids[i]));
                }
                assert(mv.words[ids[i] as int] == out@[i]@);
            }
            assert(generated(self@, ids) && ids.len() == out@.len());
        }
        out
    }

    /// The degree the model was built with.
    pub fn degree(&self) -> (r: u8)
        ensures
            r as nat == self@.degree,
    {
        self.degree
    }

    /// The vocabulary, in id order.
    pub fn vocabulary(&self) -> (r: &Vec<String>)
        ensures
            r@.map_values(|s: String| s@) == self@.words,
    {
        &self.words
    }

    /// The id of `word`, if it is in the vocabulary.
    pub fn id_of(&self, word: &str) -> (r: Option<u32>)
        requires
            self.wf(),
        ensures
            r.is_some() <==> self@.words.contains(word@),
            r.is_some() ==> r.unwrap() < self@.words.len() && self@.words[r.unwrap() as int] == word@,
    {
        match self.index.get(word) {
            Some(v) => {
                proof {
                    let i = choose|i: int| 0 <= i < self@.words.len() && self@.words[i] == word@;
                    assert(self.words@[i]@ == word@);
                }
                Some(*v)
            },
            None => None,
        }
    }

    /// The cumulative weight of `id` after exactly the context `context`
    /// (zero when that pair was never observed).
    pub fn weight(&self, context: &Vec<u32>, id: u32) -> (r: u32)
        requires
            self.wf(),
        ensures
            r == weight_of(self@.table, context@, id),
    {
        let ghost t = self@.table;
        let mut k: usize = 0;
        while k < self.mappings.len()
            invariant
                t == self.mappings@.map_values(|e: Transition| entry_view(e)),
                t == self@.table,
                self.wf(),
                k <= t.len(),
                forall|x: int| 0 <= x < k ==> t[x].0 != context@,
            decreases self.mappings.len() - k,
        {
            proof {
                assert(t[k as int] == entry_view(self.mappings@[k as int]));
            }
            if same_ids(&self.mappings[k].context, context) {
                proof {
                    lemma_key_pos(t, context@, k as int);
                    assert(table_wf(t, self@.words.len()));
                    assert(unique_cands(t[k as int].1));
                }
                let c = &self.mappings[k].candidates;
                let mut j: usize = 0;
                while j < c.len()
                    invariant
                        c@ == t[k as int].1,
                        t == self@.table,
                        k < t.len(),
                        key_pos(t, context@) == k,
                        unique_cands(c@),
                        j <= c@.len(),
                        forall|x: int| 0 <= x < j ==> c@[x].0 != id,
                    decreases c.len() - j,
                {
                    if c[j].0 == id {
                        proof {
                            lemma_cand_pos(c@, id, j as int);
                        }
                        return c[j].1;
                    }
                    j = j + 1;
                }
                proof {
                    lemma_cand_pos(c@, id, c@.len() as int);
                }
                return 0;
            }
            k = k + 1;
        }
        proof {
            lemma_key_pos(t, context@, t.len() as int);
        }
        0
    }

    /// Looks up or allocates the id of `word`.
    fn intern_word(&mut self, word: &String) -> (id: u32)
        requires
            old(self).wf(),
            old(self)@.words.len() < u32::MAX,
        ensures
            final(self).wf(),
            final(self)@.degree == old(self)@.degree,
            final(self)@.table == old(self)@.table,
            final(self)@.words == intern(old(self)@.words, word@),
            id == final(self)@.words.index_of(word@),
            id < final(self)@.words.len(),
    {
        let found = match self.index.get(word.as_str()) {
            Some(v) => Some(*v),
            None => None,
        };
        match found {
            Some(id) => {
                proof {
                    assert(self@.words.contains(word@));
                    let i = choose|i: int| 0 <= i < self@.words.len() && self@.words[i] == word@;
                    assert(self.words@[i]@ == word@);
                    assert(self.index@[self.words@[i]@] == i);
                    lemma_index_of_unique(self@.words, i);
                }
                id
            },
            None => {
                let ghost w0 = self@.words;
                let id = self.words.len() as u32;
                self.words.push(word.clone());
                self.index.insert(word.clone(), id);
                proof {
                    assert(!w0.contains(word@));
                    assert(self@.words =~= w0.push(word@));
                    assert(self@.table == old(self)@.table);
                    assert(unique_words(self@.words)) by {
                        assert forall|a: int, b: int|
                            0 <= a < b < self@.words.len() implies self@.words[a]
                            != self@.words[b] by {
                            if b == w0.len() {
                                assert(w0[a] == self@.words[a]);
                            }
                        }
                    }
                    assert forall|x: Seq<char>| #[trigger]
                        self.index@.contains_key(x) <==> self@.words.contains(x) by {
                        if x == word@ {
                            assert(self@.words[w0.len() as int] == x);
                        } else if self@.words.contains(x) {
                            let i = choose|i: int| 0 <= i < self@.words.len() && self@.words[i] == x;
                            assert(w0[i] == x);
                        } else if old(self).index@.contains_key(x) {
                            let i = choose|i: int| 0 <= i < w0.len() && w0[i] == x;
                            assert(self@.words[i] == x);
                        }
                    }
                    assert forall|i: int| 0 <= i < self.words@.len() implies self.index@[
                        #[trigger] self.words@[i]@] == i by {
                        if i < w0.len() {
                            assert(self.words@[i]@ == w0[i]);
                            assert(w0[i] != word@);
                            assert(old(self).words@[i] == self.words@[i]);
                        }
                    }
                    lemma_index_of_unique(self@.words, w0.len() as int);
                }
                id
            },
        }
    }

    /// Adds one observation of `id` after the context `ctx`.
    fn record(&mut self, ctx: &Vec<u32>, id: u32, w: u32)
        requires
            old(self).wf(),
            ctx@.len() > 0,
            forall|j: int| 0 <= j < ctx@.len() ==> ctx@[j] < old(self)@.words.len(),
            id < old(self)@.words.len(),
            w >= 1,
            weights_below(old(self)@.table, w as int),
        ensures
            final(self).wf(),
            final(self)@ == (MarkovModel { table: observe(old(self)@.table, ctx@, id, w), ..old(self)@ }),
    {
        let ghost t = self@.table;
        let mut k: usize = 0;
        while k < self.mappings.len()
            invariant
                self@ == old(self)@,
                self.wf(),
                t == self.mappings@.map_values(|e: Transition| entry_view(e)),
                t == old(self)@.table,
                weights_below(t, w as int),
                w >= 1,
                ctx@.len() > 0,
                forall|j: int| 0 <= j < ctx@.len() ==> ctx@[j] < old(self)@.words.len(),
                id < old(self)@.words.len(),
                k <= self.mappings@.len(),
                forall|x: int| 0 <= x < k ==> t[x].0 != ctx@,
            decreases self.mappings.len() - k,
        {
            proof {
                assert(t[k as int] == entry_view(self.mappings@[k as int]));
            }
            if same_ids(&self.mappings[k].context, ctx) {
                proof {
                    assert(t[k as int].0 == ctx@);
                    lemma_key_pos(t, ctx@, k as int);
                }
                let mut e = Transition { context: Vec::new(), candidates: Vec::new() };
                self.mappings.set_and_swap(k, &mut e);
                proof {
                    assert(entry_view(e) == t[k as int]);
                    assert forall|j: int| 0 <= j < e.candidates@.len() implies #[trigger]
                        e.candidates@[j].1 + w <= u32::MAX by {
                        assert(t[k as int].1[j].1 + w <= u32::MAX);
                    }
                }
                bump_candidates(&mut e.candidates, id, w);
                self.mappings.set_and_swap(k, &mut e);
                proof {
                    assert(self@.table =~= observe(t, ctx@, id, w));
                    assert(self@.words == old(self)@.words);
                    self.lemma_table_wf_after_observe(t, ctx@, id, w);
                }
                return;
            }
            k = k + 1;
        }
        proof {
            lemma_key_pos(t, ctx@, t.len() as int);
        }
        let mut cands: Vec<(u32, u32)> = Vec::new();
        cands.push((id, w));
        let e = Transition { context: copy_ids(ctx), candidates: cands };
        self.mappings.push(e);
        proof {
            assert(e.candidates@ =~= seq![(id, w)]);
            assert(self@.table =~= observe(t, ctx@, id, w));
            assert(self@.words == old(self)@.words);
            self.lemma_table_wf_after_observe(t, ctx@, id, w);
        }
    }

    proof fn lemma_table_wf_after_observe(&self, t: TableView, ctx: Seq<u32>, id: u32, w: u32)
        requires
            table_wf(t, self@.words.len()),
            self@.table == observe(t, ctx, id, w),
            ctx.len() > 0,
            forall|j: int| 0 <= j < ctx.len() ==> ctx[j] < self@.words.len(),
            id < self@.words.len(),
            w >= 1,
            weights_below(t, w as int),
        ensures
            table_wf(self@.table, self@.words.len()),
    {
        lemma_observe_wf(t, self@.words.len(), ctx, id, w);
    }
}

} // verus!
