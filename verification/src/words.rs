//! Room-local word-list generation: the allowed vocabulary and the
//! randomized per-country banned words drawn at room creation.

use vstd::pervasive::VecAdditionalExecFns;
use vstd::prelude::*;

use crate::data::{copy_words, entries_view, words_view, CountryCode, Words};

verus! {

/// The word material at the spec level.
pub ghost struct WordsView {
    pub normal: Seq<Seq<char>>,
    pub censored: Seq<Seq<Seq<char>>>,
}

impl View for Words {
    type V = WordsView;

    open spec fn view(&self) -> WordsView {
        WordsView {
            normal: words_view(self.normal@),
            censored: self.censored@.map_values(|g: Vec<String>| words_view(g@)),
        }
    }
}

/// Relies on `rand::random_range`: a uniformly drawn value inside the given
/// range, which must not be empty.
#[verifier::external_body]
fn random_below(n: usize) -> (r: usize)
    requires
        n > 0,
    ensures
        r < n,
{
    rand::random_range(0..n)
}

/// How many of the given countries receive a banned word: at most four.
pub open spec fn banned_country_count(countries: Seq<Seq<char>>) -> int {
    if countries.len() < 4 {
        countries.len() as int
    } else {
        4
    }
}

/// The drawn word lists: the vocabulary is the everyday words followed by
/// one word from each puzzle group; each of the first (up to four) countries
/// gets exactly one banned word, drawn from those puzzle picks.
pub open spec fn generated_words(
    w: WordsView,
    countries: Seq<Seq<char>>,
    aw: Seq<Seq<char>>,
    bm: Seq<(Seq<char>, Seq<Seq<char>>)>,
) -> bool {
    &&& aw.len() == w.normal.len() + w.censored.len()
    &&& aw.take(w.normal.len() as int) == w.normal
    &&& forall|g: int|
        0 <= g < w.censored.len() ==> w.censored[g].contains(#[trigger] aw[w.normal.len() + g])
    &&& bm.len() == banned_country_count(countries)
    &&& forall|i: int|
        0 <= i < bm.len() ==> (#[trigger] bm[i].0 == countries[i] && bm[i].1.len() == 1
            && aw.skip(w.normal.len() as int).contains(bm[i].1[0]))
}

/// Draw the allowed vocabulary and the per-country banned words for a new
/// room. Each puzzle group must offer at least one word, and there must be a
/// group for every country that receives a ban.
pub fn generate_allowed_and_banned_words(words: &Words, country_codes: &Vec<CountryCode>) -> (r: (
    Vec<String>,
    Vec<(CountryCode, Vec<String>)>,
))
    requires
        forall|g: int| 0 <= g < words@.censored.len() ==> words@.censored[g].len() > 0,
        banned_country_count(words_view(country_codes@)) <= words@.censored.len(),
    ensures
        generated_words(words@, words_view(country_codes@), words_view(r.0@), entries_view(r.1@)),
{
    let ghost wv = words@;
    let mut complex: Vec<String> = Vec::new();
    let mut g: usize = 0;
    while g < words.censored.len()
        invariant
            0 <= g <= words.censored@.len(),
            wv == words@,
            wv.censored.len() == words.censored@.len(),
            forall|k: int| 0 <= k < wv.censored.len() ==> wv.censored[k].len() > 0,
            complex@.len() == g,
            forall|k: int| 0 <= k < g ==> wv.censored[k].contains(#[trigger] complex@[k]@),
        decreases words.censored@.len() - g,
    {
        let group = &words.censored[g];
        proof {
            assert(words_view(group@) == wv.censored[g as int]);
            assert(wv.censored[g as int].len() > 0);
        }
        let k = random_below(group.len());
        let w = &group[k];
        complex.push(w.clone());
        proof {
            assert(words_view(group@)[k as int] == complex@[g as int]@);
        }
        g += 1;
    }
    let mut allowed = copy_words(&words.normal);
    let ghost nlen = allowed@.len() as int;
    let mut c: usize = 0;
    while c < complex.len()
        invariant
            0 <= c <= complex@.len(),
            nlen == words.normal@.len() as int,
            allowed@.len() == nlen + c,
            allowed@.take(nlen) =~= words.normal@,
            forall|k: int| 0 <= k < c ==> #[trigger] allowed@[nlen + k]@ == complex@[k]@,
        decreases complex@.len() - c,
    {
        let w = &complex[c];
        allowed.push(w.clone());
        proof {
            assert(allowed@.take(nlen) =~= allowed@.drop_last().take(nlen));
        }
        c += 1;
    }
    let mut shuffled = copy_words(&complex);
    let mut i: usize = 0;
    proof {
        assert forall|k: int| 0 <= k < shuffled@.len() implies words_view(complex@).contains(
            #[trigger] shuffled@[k]@,
        ) by {
            assert(words_view(complex@)[k] == shuffled@[k]@);
        }
    }
    while i < shuffled.len()
        invariant
            shuffled@.len() == complex@.len(),
            forall|k: int|
                0 <= k < shuffled@.len() ==> words_view(complex@).contains(
                    #[trigger] shuffled@[k]@,
                ),
        decreases shuffled@.len() - i,
    {
        let j = i + random_below(shuffled.len() - i);
        let tmp_i = shuffled[i].clone();
        let tmp_j = shuffled[j].clone();
        let ghost s0 = shuffled@;
        shuffled.set(i, tmp_j);
        shuffled.set(j, tmp_i);
        proof {
            assert forall|k: int| 0 <= k < shuffled@.len() implies words_view(complex@).contains(
                #[trigger] shuffled@[k]@,
            ) by {
                if k == i as int {
                    assert(shuffled@[k]@ == s0[j as int]@);
                } else if k == j as int {
                    assert(shuffled@[k]@ == s0[i as int]@);
                } else {
                    assert(shuffled@[k] == s0[k]);
                }
            }
        }
        i += 1;
    }
    let take_n = if country_codes.len() < 4 {
        country_codes.len()
    } else {
        4
    };
    let mut bm: Vec<(CountryCode, Vec<String>)> = Vec::new();
    let mut t: usize = 0;
    while t < take_n
        invariant
            0 <= t <= take_n,
            take_n == banned_country_count(words_view(country_codes@)),
            take_n <= shuffled@.len(),
            take_n <= country_codes@.len(),
            forall|k: int|
                0 <= k < shuffled@.len() ==> words_view(complex@).contains(
                    #[trigger] shuffled@[k]@,
                ),
            bm@.len() == t,
            forall|k: int|
                0 <= k < t ==> (#[trigger] bm@[k].0@ == country_codes@[k]@ && bm@[k].1@.len() == 1
                    && words_view(complex@).contains(bm@[k].1@[0]@)),
        decreases take_n - t,
    {
        let cc = &country_codes[t];
        let w = &shuffled[t];
        let mut single: Vec<String> = Vec::new();
        single.push(w.clone());
        bm.push((cc.clone(), single));
        t += 1;
    }
    proof {
        let aw = words_view(allowed@);
        let bmv = entries_view(bm@);
        let cv = words_view(country_codes@);
        assert(aw.len() == wv.normal.len() + wv.censored.len());
        assert forall|k: int| 0 <= k < wv.normal.len() implies aw.take(nlen)[k] == wv.normal[k] by {
            assert(allowed@.take(nlen)[k] == words.normal@[k]);
        }
        assert(aw.take(nlen) =~= wv.normal);
        assert forall|k: int| 0 <= k < wv.censored.len() implies wv.censored[k].contains(
            #[trigger] aw[nlen + k],
        ) by {
            assert(allowed@[nlen + k]@ == complex@[k]@);
            assert(wv.censored[k].contains(complex@[k]@));
        }
        assert forall|k: int| 0 <= k < words_view(complex@).len() implies aw.skip(nlen).contains(
            #[trigger] words_view(complex@)[k],
        ) by {
            assert(aw.skip(nlen)[k] == allowed@[nlen + k]@);
            assert(allowed@[nlen + k]@ == complex@[k]@);
        }
        assert forall|k: int| 0 <= k < bmv.len() implies (#[trigger] bmv[k].0 == cv[k]
            && bmv[k].1.len() == 1 && aw.skip(nlen).contains(bmv[k].1[0])) by {
            assert(bm@[k].0@ == country_codes@[k]@);
            assert(bmv[k].1 == words_view(bm@[k].1@));
            assert(bmv[k].1[0] == bm@[k].1@[0]@);
            let ghost wdx = choose|wdx: int|
                0 <= wdx < words_view(complex@).len() && words_view(complex@)[wdx] == bm@[k].1@[0]@;
            assert(aw.skip(nlen).contains(words_view(complex@)[wdx]));
        }
        assert(generated_words(wv, cv, aw, bmv));
    }
    (allowed, bm)
}

} // verus!
