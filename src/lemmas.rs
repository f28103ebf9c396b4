//! Laws of training: how weights accumulate, and what retraining does.
use vstd::prelude::*;
use crate::model::{
    bump, cand_pos, entry_total, ids_of, intern, key_pos, lemma_index_of_unique, lemma_observe_weights, observe,
    table_after, trained, unique_cands, unique_words, vocab_after, weights_below, window, MarkovModel,
    TableView,
};

verus! {

/// The cumulative weight of `id` after `ctx` (zero when never observed).
pub open spec fn weight_of(t: TableView, ctx: Seq<u32>, id: u32) -> int {
    let k = key_pos(t, ctx);
    if k < t.len() {
        let j = cand_pos(t[k].1, id);
        if j < t[k].1.len() {
            t[k].1[j].1 as int
        } else {
            0
        }
    } else {
        0
    }
}

/// Contexts are distinct, and candidates within each entry are distinct.
pub open spec fn distinct(t: TableView) -> bool {
    &&& forall|i: int, j: int| 0 <= i < j < t.len() ==> t[i].0 != t[j].0
    &&& forall|k: int| 0 <= k < t.len() ==> unique_cands(#[trigger] t[k].1)
}

/// How many positions after the first of `ids` see `id` after the window `ctx`.
pub open spec fn count_obs(ids: Seq<u32>, degree: nat, ctx: Seq<u32>, id: u32) -> nat
    decreases ids.len(),
{
    if ids.len() == 0 {
        0
    } else {
        let prev = count_obs(ids.drop_last(), degree, ctx, id);
        if ids.len() > 1 && window(ids, ids.len() - 1, degree) == ctx && ids.last() == id {
            prev + 1
        } else {
            prev
        }
    }
}


/// Interning a corpus from a vocabulary without repeats: the vocabulary
/// keeps its ids, has no repeats, holds every token of the corpus, and the
/// id of each token is its position in the final vocabulary.
proof fn lemma_vocab(w0: Seq<Seq<char>>, c: Seq<Seq<char>>)
    requires
        unique_words(w0),
        w0.len() + c.len() <= u32::MAX,
    ensures
        unique_words(vocab_after(w0, c)),
        w0.len() <= vocab_after(w0, c).len() <= w0.len() + c.len(),
        forall|i: int| 0 <= i < w0.len() ==> vocab_after(w0, c)[i] == w0[i],
        forall|i: int| 0 <= i < c.len() ==> vocab_after(w0, c).contains(#[trigger] c[i]),
        ids_of(w0, c).len() == c.len(),
        forall|i: int|
            0 <= i < c.len() ==> #[trigger] ids_of(w0, c)[i] as int == vocab_after(w0, c).index_of(
                c[i],
            ),
    decreases c.len(),
{
    if c.len() > 0 {
        let c1 = c.drop_last();
        lemma_vocab(w0, c1);
        let v1 = vocab_after(w0, c1);
        let v = vocab_after(w0, c);
        let x = c.last();
        assert(v == intern(v1, x));
        if !v1.contains(x) {
            assert(unique_words(v)) by {
                assert forall|a: int, b: int| 0 <= a < b < v.len() implies v[a] != v[b] by {
                    if b == v1.len() {
                        assert(v1[a] == v[a]);
                    }
                }
            }
        }
        assert(forall|i: int| 0 <= i < v1.len() ==> v[i] == v1[i]);
        assert(v.contains(x)) by {
            if v1.contains(x) {
                let p = choose|p: int| 0 <= p < v1.len() && v1[p] == x;
                assert(v[p] == x);
            } else {
                assert(v[v1.len() as int] == x);
            }
        }
        let ids = ids_of(w0, c);
        assert forall|i: int| 0 <= i < c.len() implies v.contains(#[trigger] c[i]) by {
            if i < c1.len() {
                assert(c1[i] == c[i]);
                assert(v1.contains(c1[i]));
                let p = choose|p: int| 0 <= p < v1.len() && v1[p] == c1[i];
                assert(v[p] == c[i]);
            }
        }
        assert forall|i: int| 0 <= i < c.len() implies #[trigger] ids[i] as int == v.index_of(c[i]) by {
            if i < c1.len() {
                assert(c1[i] == c[i]);
                assert(ids[i] == ids_of(w0, c1)[i]);
                assert(v1.contains(c1[i]));
                let p = v1.index_of(c1[i]);
                assert(v1[p] == c[i]);
                assert(v[p] == c[i]);
                lemma_index_of_unique(v, p);
            } else {
                let p = v.index_of(x);
                assert(0 <= p < v.len());
            }
        }
    }
}

/// A vocabulary that already holds every token of a corpus does not change
/// when the corpus is interned.
proof fn lemma_vocab_stable(w0: Seq<Seq<char>>, c: Seq<Seq<char>>)
    requires
        forall|i: int| 0 <= i < c.len() ==> w0.contains(#[trigger] c[i]),
    ensures
        vocab_after(w0, c) == w0,
    decreases c.len(),
{
    if c.len() > 0 {
        let c1 = c.drop_last();
        assert forall|i: int| 0 <= i < c1.len() implies w0.contains(#[trigger] c1[i]) by {
            assert(c1[i] == c[i]);
        }
        lemma_vocab_stable(w0, c1);
        assert(w0.contains(c[c.len() - 1]));
    }
}

/// Training a fresh model twice on the same corpus with the same weight
/// adds no word on the second pass and exactly doubles every transition
/// weight.
pub proof fn law_retrain_doubles(degree: nat, corpus: Seq<Seq<char>>, w: u32)
    requires
        degree >= 2,
        w >= 1,
        2 * corpus.len() * w <= u32::MAX,
    ensures
        ({
            let m0 = MarkovModel { degree, words: Seq::empty(), table: Seq::empty() };
            let m1 = trained(m0, corpus, w);
            let m2 = trained(m1, corpus, w);
            &&& m2.words == m1.words
            &&& forall|ctx: Seq<u32>, id: u32| #[trigger]
                weight_of(m2.table, ctx, id) == 2 * weight_of(m1.table, ctx, id)
        }),
{
    let n = corpus.len();
    assert(2 * n <= 2 * n * w) by (nonlinear_arith)
        requires
            w >= 1,
    ;
    assert(n * w >= 0) by (nonlinear_arith);
    assert(2 * n * w == n * w + n * w) by (nonlinear_arith);
    let m0 = MarkovModel { degree, words: Seq::empty(), table: Seq::empty() };
    let m1 = trained(m0, corpus, w);
    let m2 = trained(m1, corpus, w);
    let e: Seq<Seq<char>> = Seq::empty();
    lemma_vocab(e, corpus);
    let big = m1.words;
    lemma_vocab_stable(big, corpus);
    lemma_vocab(big, corpus);
    let ids1 = ids_of(e, corpus);
    let ids2 = ids_of(big, corpus);
    assert(ids2 =~= ids1) by {
        assert forall|i: int| 0 <= i < n implies ids2[i] == ids1[i] by {
            assert(ids2[i] as int == big.index_of(corpus[i]));
            assert(ids1[i] as int == big.index_of(corpus[i]));
        }
    }
    let t0: TableView = Seq::empty();
    lemma_table_after_below(t0, ids1, degree, w, n * w);
    assert forall|ctx: Seq<u32>, id: u32| #[trigger]
        weight_of(m2.table, ctx, id) == 2 * weight_of(m1.table, ctx, id) by {
        lemma_table_after_weight(t0, ids1, degree, w, ctx, id);
        lemma_table_after_weight(m1.table, ids1, degree, w, ctx, id);
        assert(weight_of(t0, ctx, id) == 0);
    }
}


/// Training with weight `w` adds `w` to a (context, candidate) pair's
/// cumulative weight for every time the pair is observed in the corpus,
/// and changes nothing else.
pub proof fn law_train_adds(m: MarkovModel, corpus: Seq<Seq<char>>, w: u32, ctx: Seq<u32>, id: u32)
    requires
        unique_words(m.words),
        distinct(m.table),
        m.words.len() + corpus.len() <= u32::MAX,
        corpus.len() * w <= u32::MAX,
        weights_below(m.table, corpus.len() * w),
    ensures
        weight_of(trained(m, corpus, w).table, ctx, id) == weight_of(m.table, ctx, id) + w
            * count_obs(ids_of(m.words, corpus), m.degree, ctx, id),
{
    lemma_vocab(m.words, corpus);
    lemma_table_after_weight(m.table, ids_of(m.words, corpus), m.degree, w, ctx, id);
}

proof fn lemma_key_at(t: TableView, ctx: Seq<u32>, k: int)
    requires
        forall|i: int, j: int| 0 <= i < j < t.len() ==> t[i].0 != t[j].0,
        0 <= k < t.len(),
        t[k].0 == ctx,
    ensures
        key_pos(t, ctx) == k,
{
    let c = choose|c: int| 0 <= c < t.len() && #[trigger] t[c].0 == ctx;
    if c != k {
        if c < k {
            assert(t[c].0 != t[k].0);
        } else {
            assert(t[k].0 != t[c].0);
        }
    }
}

proof fn lemma_key_absent(t: TableView, ctx: Seq<u32>)
    requires
        forall|j: int| 0 <= j < t.len() ==> t[j].0 != ctx,
    ensures
        key_pos(t, ctx) == t.len(),
{
}

proof fn lemma_key_found(t: TableView, ctx: Seq<u32>)
    ensures
        0 <= key_pos(t, ctx) <= t.len(),
        key_pos(t, ctx) < t.len() ==> t[key_pos(t, ctx)].0 == ctx,
        key_pos(t, ctx) == t.len() ==> forall|j: int| 0 <= j < t.len() ==> t[j].0 != ctx,
{
}

proof fn lemma_cand_at(c: Seq<(u32, u32)>, id: u32, k: int)
    requires
        unique_cands(c),
        0 <= k < c.len(),
        c[k].0 == id,
    ensures
        cand_pos(c, id) == k,
{
    let x = choose|x: int| 0 <= x < c.len() && #[trigger] c[x].0 == id;
    if x != k {
        if x < k {
            assert(c[x].0 != c[k].0);
        } else {
            assert(c[k].0 != c[x].0);
        }
    }
}

proof fn lemma_cand_found(c: Seq<(u32, u32)>, id: u32)
    ensures
        0 <= cand_pos(c, id) <= c.len(),
        cand_pos(c, id) < c.len() ==> c[cand_pos(c, id)].0 == id,
        cand_pos(c, id) == c.len() ==> forall|j: int| 0 <= j < c.len() ==> c[j].0 != id,
{
}

/// The weight of candidate `id2` in `c` (zero when absent).
pub open spec fn cand_weight(c: Seq<(u32, u32)>, id2: u32) -> int {
    let j = cand_pos(c, id2);
    if j < c.len() {
        c[j].1 as int
    } else {
        0
    }
}

proof fn lemma_bump_weight(c: Seq<(u32, u32)>, id: u32, w: u32, id2: u32)
    requires
        unique_cands(c),
        cand_weight(c, id) + w <= u32::MAX,
    ensures
        unique_cands(bump(c, id, w)),
        cand_weight(bump(c, id, w), id2) == cand_weight(c, id2) + if id2 == id {
            w as int
        } else {
            0
        },
{
    let b = bump(c, id, w);
    lemma_cand_found(c, id);
    lemma_cand_found(c, id2);
    let j = cand_pos(c, id);
    if j < c.len() {
        assert(unique_cands(b)) by {
            assert forall|x: int, y: int| 0 <= x < y < b.len() implies b[x].0 != b[y].0 by {
                assert(c[x].0 != c[y].0);
            }
        }
        if id2 == id {
            lemma_cand_at(b, id2, j);
        } else {
            let j2 = cand_pos(c, id2);
            if j2 < c.len() {
                lemma_cand_at(b, id2, j2);
            } else {
                assert forall|x: int| 0 <= x < b.len() implies b[x].0 != id2 by {
                    if x != j {
                        assert(b[x] == c[x]);
                    }
                }
            }
        }
    } else {
        assert(unique_cands(b)) by {
            assert forall|x: int, y: int| 0 <= x < y < b.len() implies b[x].0 != b[y].0 by {
                if y < c.len() {
                    assert(c[x].0 != c[y].0);
                } else {
                    assert(c[x].0 != id);
                }
            }
        }
        if id2 == id {
            lemma_cand_at(b, id2, c.len() as int);
        } else {
            let j2 = cand_pos(c, id2);
            if j2 < c.len() {
                lemma_cand_at(b, id2, j2);
            } else {
                assert forall|x: int| 0 <= x < b.len() implies b[x].0 != id2 by {
                    if x < c.len() {
                        assert(b[x] == c[x]);
                    }
                }
            }
        }
    }
}


proof fn lemma_total_update(c: Seq<(u32, u32)>, j: int, v: (u32, u32))
    requires
        0 <= j < c.len(),
    ensures
        entry_total(c.update(j, v)) == entry_total(c) - c[j].1 + v.1,
    decreases c.len(),
{
    let u = c.update(j, v);
    if j == c.len() - 1 {
        assert(u.drop_last() =~= c.drop_last());
    } else {
        lemma_total_update(c.drop_last(), j, v);
        assert(u.drop_last() =~= c.drop_last().update(j, v));
    }
}

/// Recording `id` in a candidate list raises the entry's total, the sum of
/// its candidates' weights, by exactly `w`.
pub proof fn lemma_bump_total(c: Seq<(u32, u32)>, id: u32, w: u32)
    requires
        cand_weight(c, id) + w <= u32::MAX,
    ensures
        entry_total(bump(c, id, w)) == entry_total(c) + w,
{
    lemma_cand_found(c, id);
    let j = cand_pos(c, id);
    if j < c.len() {
        lemma_total_update(c, j, (id, (c[j].1 + w) as u32));
    } else {
        assert(c.push((id, w)).drop_last() =~= c);
    }
}

/// One observation of `id` after `ctx` adds `w` to that pair's cumulative
/// weight and leaves every other pair's weight as it was.
pub proof fn lemma_observe_adds(
    t: TableView,
    ctx: Seq<u32>,
    id: u32,
    w: u32,
    ctx2: Seq<u32>,
    id2: u32,
)
    requires
        distinct(t),
        weight_of(t, ctx, id) + w <= u32::MAX,
    ensures
        distinct(observe(t, ctx, id, w)),
        weight_of(observe(t, ctx, id, w), ctx2, id2) == weight_of(t, ctx2, id2) + if ctx2 == ctx
            && id2 == id {
            w as int
        } else {
            0
        },
{
    let r = observe(t, ctx, id, w);
    lemma_key_found(t, ctx);
    lemma_key_found(t, ctx2);
    let k = key_pos(t, ctx);
    let k2 = key_pos(t, ctx2);
    if k < t.len() {
        let c = t[k].1;
        assert(unique_cands(c));
        lemma_bump_weight(c, id, w, id2);
        assert(distinct(r)) by {
            assert forall|x: int, y: int| 0 <= x < y < r.len() implies r[x].0 != r[y].0 by {
                assert(t[x].0 != t[y].0);
            }
            assert forall|x: int| 0 <= x < r.len() implies unique_cands(#[trigger] r[x].1) by {
                if x != k {
                    assert(r[x] == t[x]);
                }
            }
        }
        if ctx2 == ctx {
            lemma_key_at(r, ctx, k);
        } else if k2 < t.len() {
            lemma_key_at(r, ctx2, k2);
            assert(r[k2] == t[k2]);
        } else {
            assert forall|x: int| 0 <= x < r.len() implies r[x].0 != ctx2 by {
                assert(r[x].0 == t[x].0);
            }
            lemma_key_absent(r, ctx2);
        }
    } else {
        assert(distinct(r)) by {
            assert forall|x: int, y: int| 0 <= x < y < r.len() implies r[x].0 != r[y].0 by {
                if y < t.len() {
                    assert(t[x].0 != t[y].0);
                } else {
                    assert(t[x].0 != ctx);
                }
            }
            assert forall|x: int| 0 <= x < r.len() implies unique_cands(#[trigger] r[x].1) by {
                if x < t.len() {
                    assert(r[x] == t[x]);
                }
            }
        }
        if ctx2 == ctx {
            lemma_key_at(r, ctx, t.len() as int);
            let c1: Seq<(u32, u32)> = seq![(id, w)];
            assert(r[t.len() as int].1 == c1);
            if id2 == id {
                lemma_cand_at(c1, id2, 0);
            } else {
                lemma_cand_found(c1, id2);
            }
        } else if k2 < t.len() {
            lemma_key_at(r, ctx2, k2);
            assert(r[k2] == t[k2]);
        } else {
            assert forall|x: int| 0 <= x < r.len() implies r[x].0 != ctx2 by {
                if x < t.len() {
                    assert(r[x].0 == t[x].0);
                }
            }
            lemma_key_absent(r, ctx2);
        }
    }
}

proof fn lemma_weight_below(t: TableView, ctx: Seq<u32>, id: u32, extra: int)
    requires
        weights_below(t, extra),
        extra <= u32::MAX,
    ensures
        weight_of(t, ctx, id) + extra <= u32::MAX,
{
    lemma_key_found(t, ctx);
    let k = key_pos(t, ctx);
    if k < t.len() {
        lemma_cand_found(t[k].1, id);
        let j = cand_pos(t[k].1, id);
        if j < t[k].1.len() {
            assert(t[k].1[j].1 + extra <= u32::MAX);
        }
    }
}

/// Streaming ids through a table keeps every weight within `extra` of the
/// limit when all were within `extra` plus the most that can be added.
pub proof fn lemma_table_after_below(t: TableView, ids: Seq<u32>, degree: nat, w: u32, extra: int)
    requires
        extra >= 0,
        extra + ids.len() * w <= u32::MAX,
        weights_below(t, extra + ids.len() * w),
    ensures
        weights_below(table_after(t, ids, degree, w), extra),
    decreases ids.len(),
{
    if ids.len() > 0 {
        let n = ids.len() - 1;
        assert(ids.len() * w == n * w + w) by (nonlinear_arith)
            requires
                n == ids.len() - 1,
        ;
        assert(n * w >= 0) by (nonlinear_arith)
            requires
                n >= 0,
        ;
        lemma_table_after_below(t, ids.drop_last(), degree, w, extra + w);
        if ids.len() > 1 {
            lemma_observe_weights(
                table_after(t, ids.drop_last(), degree, w),
                window(ids, ids.len() - 1, degree),
                ids.last(),
                w,
                extra,
            );
        } else {
            assert forall|k: int, j: int|
                0 <= k < t.len() && 0 <= j < t[k].1.len() implies #[trigger] t[k].1[j].1 + extra
                <= u32::MAX by {
                assert(t[k].1[j].1 + extra + w <= u32::MAX);
            }
        }
    }
}

/// Training adds `w` for each observation: the weight of a pair after
/// streaming `ids` is its weight before plus `w` times the number of times
/// the pair is seen in `ids`.
pub proof fn lemma_table_after_weight(
    t: TableView,
    ids: Seq<u32>,
    degree: nat,
    w: u32,
    ctx: Seq<u32>,
    id: u32,
)
    requires
        distinct(t),
        ids.len() * w <= u32::MAX,
        weights_below(t, ids.len() * w),
    ensures
        distinct(table_after(t, ids, degree, w)),
        weight_of(table_after(t, ids, degree, w), ctx, id) == weight_of(t, ctx, id) + w * count_obs(
            ids,
            degree,
            ctx,
            id,
        ),
    decreases ids.len(),
{
    if ids.len() > 0 {
        let n = ids.len() - 1;
        assert(ids.len() * w == n * w + w) by (nonlinear_arith)
            requires
                n == ids.len() - 1,
        ;
        assert(n * w >= 0) by (nonlinear_arith)
            requires
                n >= 0,
        ;
        assert forall|k: int, j: int|
            0 <= k < t.len() && 0 <= j < t[k].1.len() implies #[trigger] t[k].1[j].1 + n * w
            <= u32::MAX by {
            assert(t[k].1[j].1 + ids.len() * w <= u32::MAX);
        }
        lemma_table_after_weight(t, ids.drop_last(), degree, w, ctx, id);
        let c = count_obs(ids.drop_last(), degree, ctx, id);
        if ids.len() > 1 {
            let t1 = table_after(t, ids.drop_last(), degree, w);
            let wctx = window(ids, ids.len() - 1, degree);
            lemma_table_after_below(t, ids.drop_last(), degree, w, w as int);
            lemma_weight_below(t1, wctx, ids.last(), w as int);
            lemma_table_after_weight(t, ids.drop_last(), degree, w, wctx, ids.last());
            lemma_observe_adds(t1, wctx, ids.last(), w, ctx, id);
            assert(w * (c + 1) == w * c + w) by (nonlinear_arith);
            if wctx == ctx && ids.last() == id {
                assert(count_obs(ids, degree, ctx, id) == c + 1);
            } else {
                assert(count_obs(ids, degree, ctx, id) == c);
            }
        }
    } else {
        assert(count_obs(ids, degree, ctx, id) == 0);
        assert(w * 0 == 0);
    }
}

} // verus!
