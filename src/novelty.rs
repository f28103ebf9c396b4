//! The novelty filter: generated text must not repeat a chunk of the corpus.
use vstd::prelude::*;

verus! {

/// The views of a sequence of strings.
pub open spec fn texts(v: Seq<String>) -> Seq<Seq<char>> {
    v.map_values(|s: String| s@)
}

/// Some chunk of `corpus`, cut into consecutive pieces of `cand.len()`
/// tokens from its start, equals `cand`.
pub open spec fn chunk_hit(cand: Seq<Seq<char>>, corpus: Seq<Seq<char>>) -> bool
    decreases corpus.len(),
{
    if cand.len() == 0 || corpus.len() < cand.len() {
        false
    } else {
        corpus.take(cand.len() as int) == cand || chunk_hit(cand, corpus.skip(cand.len() as int))
    }
}

/// Whether `corpus[s .. s + candidate.len()]` equals `candidate`.
fn same_span(candidate: &Vec<String>, corpus: &Vec<String>, s: usize) -> (r: bool)
    requires
        s + candidate@.len() <= corpus@.len(),
    ensures
        r == (texts(corpus@).subrange(s as int, s + candidate@.len()) == texts(candidate@)),
{
    let ghost span = texts(corpus@).subrange(s as int, s + candidate@.len());
    let n = corpus.len();
    let mut i: usize = 0;
    while i < candidate.len()
        invariant
            n == corpus@.len(),
            s + candidate@.len() <= corpus@.len(),
            span == texts(corpus@).subrange(s as int, s + candidate@.len()),
            i <= candidate@.len(),
            forall|j: int| 0 <= j < i ==> span[j] == texts(candidate@)[j],
        decreases candidate.len() - i,
    {
        if corpus[s + i] != candidate[i] {
            assert(span[i as int] != texts(candidate@)[i as int]);
            return false;
        }
        i = i + 1;
    }
    assert(span =~= texts(candidate@));
    true
}

/// True when no chunk of `corpus`, cut into consecutive pieces of
/// `candidate.len()` tokens from index 0, equals `candidate`. Only these
/// aligned chunks are compared, not every offset.
pub fn is_novel(candidate: &Vec<String>, corpus: &Vec<String>) -> (r: bool)
    requires
        candidate@.len() > 0,
    ensures
        r == !chunk_hit(texts(candidate@), texts(corpus@)),
{
    let ghost cv = texts(candidate@);
    let ghost pv = texts(corpus@);
    let l = candidate.len();
    let mut s: usize = 0;
    proof {
        assert(pv.skip(0) =~= pv);
    }
    while corpus.len() - s >= l
        invariant
            l == candidate@.len(),
            l > 0,
            cv == texts(candidate@),
            pv == texts(corpus@),
            s <= corpus@.len(),
            chunk_hit(cv, pv) == chunk_hit(cv, pv.skip(s as int)),
        decreases corpus.len() - s,
    {
        let hit = same_span(candidate, corpus, s);
        proof {
            assert(pv.skip(s as int).take(l as int) =~= pv.subrange(s as int, s + l));
            assert(pv.skip(s as int).skip(l as int) =~= pv.skip(s + l));
        }
        if hit {
            return false;
        }
        s = s + l;
    }
    true
}

} // verus!
