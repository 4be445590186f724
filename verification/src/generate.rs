use vstd::prelude::*;
use crate::errors::PhraseError;

verus! {

/// `p` reads the entries of `ws` at the positions `ix`, which are
/// pairwise distinct and in range: a without-replacement draw.
pub open spec fn is_sample_of(p: Seq<Seq<char>>, ws: Seq<Seq<char>>, ix: Seq<int>) -> bool {
    &&& ix.len() == p.len()
    &&& (forall|k: int| 0 <= k < ix.len() ==> 0 <= #[trigger] ix[k] < ws.len())
    &&& (forall|k: int, l: int|
        0 <= k < l < ix.len() ==> #[trigger] ix[k] != #[trigger] ix[l])
    &&& (forall|k: int| 0 <= k < ix.len() ==> p[k] == ws[#[trigger] ix[k]])
}

/// `p` is a without-replacement sample of `ws`, in draw order.
pub open spec fn sampled_from(p: Seq<Seq<char>>, ws: Seq<Seq<char>>) -> bool {
    exists|ix: Seq<int>| #[trigger] is_sample_of(p, ws, ix)
}

/// Relies on rand::seq::index::sample: exactly `amount` distinct
/// indices drawn from `0..length`, in random order. Nothing is assumed
/// about which indices come out.
#[verifier::external_body]
fn sample_indices(length: usize, amount: usize) -> (r: Vec<usize>)
    requires
        amount <= length,
    ensures
        r@.len() == amount,
        forall|k: int| 0 <= k < r@.len() ==> #[trigger] r@[k] < length,
        forall|k: int, l: int| 0 <= k < l < r@.len() ==> r@[k] != r@[l],
{
    let mut rng = rand::rng();
    rand::seq::index::sample(&mut rng, length, amount).into_vec()
}

/// Draws a phrase of `count` words from the word source, without
/// replacement and in draw order; fails exactly when fewer words are
/// available than asked for, changing nothing.
pub fn generate(words: &Vec<String>, count: usize) -> (r: Result<Vec<String>, PhraseError>)
    ensures
        match r {
            Ok(p) => {
                &&& count <= words@.len()
                &&& p.deep_view().len() == count
                &&& sampled_from(p.deep_view(), words.deep_view())
            },
            Err(e) => e == PhraseError::InsufficientWords && count > words@.len(),
        },
{
    if count > words.len() {
        return Err(PhraseError::InsufficientWords);
    }
    let idx = sample_indices(words.len(), count);
    let mut out: Vec<String> = Vec::new();
    let mut k: usize = 0;
    while k < count
        invariant
            0 <= k <= count,
            count <= words@.len(),
            idx@.len() == count,
            forall|t: int| 0 <= t < idx@.len() ==> #[trigger] idx@[t] < words@.len(),
            forall|t: int, l: int| 0 <= t < l < idx@.len() ==> idx@[t] != idx@[l],
            out.deep_view().len() == k,
            forall|t: int|
                0 <= t < k ==> out.deep_view()[t] == words.deep_view()[#[trigger] idx@[t] as int],
        decreases count - k,
    {
        let i = idx[k];
        let ghost prev = out.deep_view();
        out.push(words[i].clone());
        proof {
            assert(out.deep_view() =~= prev.push(words@[i as int]@));
            assert(words.deep_view()[i as int] == words@[i as int]@);
        }
        k += 1;
    }
    proof {
        let ixm = idx@.map_values(|v: usize| v as int);
        assert(is_sample_of(out.deep_view(), words.deep_view(), ixm)) by {
            assert(forall|t: int| 0 <= t < ixm.len() ==> #[trigger] ixm[t] == idx@[t] as int);
        }
    }
    Ok(out)
}

/// A draw from a duplicate-free word source yields pairwise distinct
/// words, each of which the source holds.
pub proof fn lemma_sample_distinct(p: Seq<Seq<char>>, ws: Seq<Seq<char>>)
    requires
        sampled_from(p, ws),
        forall|i: int, j: int| 0 <= i < j < ws.len() ==> ws[i] != ws[j],
    ensures
        forall|i: int, j: int| 0 <= i < j < p.len() ==> p[i] != p[j],
        forall|i: int| 0 <= i < p.len() ==> ws.contains(#[trigger] p[i]),
{
    let ix = choose|ix: Seq<int>| #[trigger] is_sample_of(p, ws, ix);
    assert forall|i: int, j: int| 0 <= i < j < p.len() implies p[i] != p[j] by {
        assert(ix[i] != ix[j]);
        assert(p[i] == ws[ix[i]]);
        assert(p[j] == ws[ix[j]]);
        if ix[i] < ix[j] {
            assert(ws[ix[i]] != ws[ix[j]]);
        } else {
            assert(ws[ix[j]] != ws[ix[i]]);
        }
    }
    assert forall|i: int| 0 <= i < p.len() implies ws.contains(#[trigger] p[i]) by {
        assert(p[i] == ws[ix[i]]);
    }
}

} // verus!
