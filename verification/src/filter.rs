//! The censorship engine: case-insensitive, non-overlapping replacement of
//! banned words by a fixed token.
//!
//! `replace_ci` is the specification of one word's replacement pass: scan the
//! content left to right; at a match of the word (case-insensitively), emit
//! the token and skip the word's length; otherwise keep the character. A
//! whole censoring step folds such passes over the sender's and the viewer's
//! banned words in that order.
//!
//! Case folding is ASCII-only: `A`-`Z` fold to `a`-`z`, and every other
//! character, non-ASCII letters included, is matched exactly as written.

use vstd::prelude::*;

use crate::data::{entries_view, has_key, lookup_words, words_view, CountryCode, FilterConfig};
use crate::strutil::{charvecs_view, chars_to_string, str_to_chars};

verus! {

/// The fixed replacement token for a censored word.
pub open spec fn censor_token() -> Seq<char> {
    seq!['*', '*', '*']
}

/// ASCII case folding of one character.
pub open spec fn lower_char(c: char) -> char {
    if 65 <= c as u32 && c as u32 <= 90 {
        (c as u32 + 32) as char
    } else {
        c
    }
}

/// ASCII case folding of a character sequence.
pub open spec fn lower_seq(s: Seq<char>) -> Seq<char> {
    s.map_values(|c: char| lower_char(c))
}

/// The word occurs at position `i` of the content, case-insensitively.
pub open spec fn matches_at(content: Seq<char>, word: Seq<char>, i: int) -> bool {
    &&& 0 <= i
    &&& i + word.len() <= content.len()
    &&& forall|j: int|
        0 <= j < word.len() ==> lower_char(content[i + j]) == lower_char(word[j])
}

/// The word occurs somewhere in the content.
pub open spec fn has_match(content: Seq<char>, word: Seq<char>) -> bool {
    exists|i: int| matches_at(content, word, i)
}

/// One replacement pass leaves a mark iff the word is nonempty and occurs.
/// An empty word never censors anything.
pub open spec fn step_censored(content: Seq<char>, word: Seq<char>) -> bool {
    word.len() > 0 && has_match(content, word)
}

/// Greedy left-to-right replacement of every non-overlapping occurrence of
/// `word` in `content` by the token. An empty word leaves the content as it
/// is.
pub open spec fn replace_ci(content: Seq<char>, word: Seq<char>) -> Seq<char>
    decreases content.len(),
{
    if word.len() == 0 || content.len() == 0 {
        content
    } else if matches_at(content, word, 0) {
        censor_token() + replace_ci(content.skip(word.len() as int), word)
    } else {
        seq![content[0]] + replace_ci(content.skip(1), word)
    }
}

/// Replacement passes folded over a list of words, first word first.
pub open spec fn censor_all(content: Seq<char>, words: Seq<Seq<char>>) -> Seq<char>
    decreases words.len(),
{
    if words.len() == 0 {
        content
    } else {
        censor_all(replace_ci(content, words[0]), words.drop_first())
    }
}

/// Whether any pass of the fold replaced something.
pub open spec fn censor_any(content: Seq<char>, words: Seq<Seq<char>>) -> bool
    decreases words.len(),
{
    if words.len() == 0 {
        false
    } else {
        step_censored(content, words[0]) || censor_any(replace_ci(content, words[0]), words.drop_first())
    }
}

/// View of an optional country reference.
pub open spec fn opt_country_view(c: Option<&CountryCode>) -> Option<Seq<char>> {
    match c {
        Some(s) => Some(s@),
        None => None,
    }
}

/// Words applicable to a message: the sender country's banned words followed
/// by the viewer country's.
pub open spec fn active_words(
    m: Seq<(Seq<char>, Seq<Seq<char>>)>,
    sender: Option<Seq<char>>,
    receiver: Option<Seq<char>>,
) -> Seq<Seq<char>> {
    (match sender {
        Some(c) => lookup_words(m, c),
        None => Seq::empty(),
    }) + (match receiver {
        Some(c) => lookup_words(m, c),
        None => Seq::empty(),
    })
}

/// What a viewer sees of one message under the given flags and exemptions,
/// and whether it was censored. Precedence: system messages pass unchanged;
/// with shadow mode, so does a message read from its sender's own country;
/// otherwise the sender country's banned words apply if sender-side
/// censorship is on and the country is not exempt, and likewise the viewer
/// country's.
pub open spec fn censor_view(
    config: Seq<(Seq<char>, Seq<Seq<char>>)>,
    sender_censor: bool,
    receiver_censor: bool,
    shadow_ban: bool,
    allowed: Seq<Seq<char>>,
    msg: crate::data::MessageView,
    viewer: Seq<char>,
) -> (Seq<char>, bool) {
    if msg.sender_id == "SYSTEM"@ {
        (msg.content, false)
    } else if shadow_ban && msg.sender_country == viewer {
        (msg.content, false)
    } else {
        let s = if sender_censor && !allowed.contains(msg.sender_country) {
            Some(msg.sender_country)
        } else {
            None
        };
        let r = if receiver_censor && !allowed.contains(viewer) {
            Some(viewer)
        } else {
            None
        };
        let aw = active_words(config, s, r);
        (censor_all(msg.content, aw), censor_any(msg.content, aw))
    }
}

/// Executable ASCII case folding, matching `lower_char`.
pub fn lower_char_exec(c: char) -> (r: char)
    ensures
        r == lower_char(c),
{
    let v = c as u32;
    if 65 <= v && v <= 90 {
        ((v + 32) as u8) as char
    } else {
        c
    }
}

/// Whether `word` occurs at position `i` of `content`, case-insensitively.
fn check_match(content: &Vec<char>, word: &Vec<char>, i: usize) -> (r: bool)
    requires
        i + word@.len() <= content@.len(),
    ensures
        r == matches_at(content@, word@, i as int),
{
    let clen = content.len();
    let mut j: usize = 0;
    while j < word.len()
        invariant
            0 <= j <= word@.len(),
            i + word@.len() <= content@.len(),
            clen == content@.len(),
            forall|k: int| 0 <= k < j ==> lower_char(content@[i + k]) == lower_char(word@[k]),
        decreases word@.len() - j,
    {
        assert(i + j < clen);
        if lower_char_exec(content[i + j]) != lower_char_exec(word[j]) {
            return false;
        }
        j += 1;
    }
    true
}

/// `matches_at` at `i + q` in the whole content is `matches_at` at `q` in the
/// content with its first `i` characters dropped.
pub proof fn lemma_matches_at_skip(content: Seq<char>, word: Seq<char>, i: int, q: int)
    requires
        0 <= i <= content.len(),
        0 <= q,
    ensures
        matches_at(content, word, i + q) == matches_at(content.skip(i), word, q),
{
    if matches_at(content, word, i + q) {
        assert forall|j: int| 0 <= j < word.len() implies lower_char(content.skip(i)[q + j])
            == lower_char(word[j]) by {
            assert(content.skip(i)[q + j] == content[i + q + j]);
        }
    }
    if matches_at(content.skip(i), word, q) {
        assert forall|j: int| 0 <= j < word.len() implies lower_char(content[i + q + j])
            == lower_char(word[j]) by {
            assert(content.skip(i)[q + j] == content[i + q + j]);
        }
    }
}

/// One replacement pass over the content. Returns the rewritten text and
/// whether anything was replaced.
pub fn replace_word_case_insensitive(content: &Vec<char>, word: &Vec<char>) -> (r: (Vec<char>, bool))
    ensures
        r.0@ == replace_ci(content@, word@),
        r.1 == step_censored(content@, word@),
{
    let clen = content.len();
    let wlen = word.len();
    if wlen == 0 {
        let mut copy: Vec<char> = Vec::new();
        let mut i: usize = 0;
        while i < clen
            invariant
                0 <= i <= content@.len(),
                clen == content@.len(),
                copy@ == content@.take(i as int),
            decreases clen - i,
        {
            copy.push(content[i]);
            proof {
                assert(copy@ =~= content@.take(i + 1));
            }
            i += 1;
        }
        proof {
            assert(copy@ =~= content@);
        }
        return (copy, false);
    }
    let mut out: Vec<char> = Vec::new();
    let mut found = false;
    let mut i: usize = 0;
    proof {
        assert(content@.skip(0) =~= content@);
        assert(out@ + replace_ci(content@, word@) =~= replace_ci(content@, word@));
    }
    while i < clen
        invariant
            0 <= i <= content@.len(),
            clen == content@.len(),
            wlen == word@.len(),
            wlen >= 1,
            replace_ci(content@, word@) == out@ + replace_ci(content@.skip(i as int), word@),
            found ==> step_censored(content@, word@),
            !found ==> forall|q: int| 0 <= q < i ==> !matches_at(content@, word@, q),
        decreases clen - i,
    {
        let ghost rest = content@.skip(i as int);
        let ghost out0 = out@;
        if wlen <= clen - i && check_match(content, word, i) {
            proof {
                lemma_matches_at_skip(content@, word@, i as int, 0);
                assert(matches_at(rest, word@, 0));
                assert(rest.skip(wlen as int) =~= content@.skip(i + wlen));
                assert(replace_ci(rest, word@) == censor_token() + replace_ci(
                    content@.skip(i + wlen),
                    word@,
                ));
            }
            out.push('*');
            out.push('*');
            out.push('*');
            proof {
                assert(out@ =~= out0 + censor_token());
                assert((out0 + censor_token()) + replace_ci(content@.skip(i + wlen), word@)
                    =~= out0 + (censor_token() + replace_ci(content@.skip(i + wlen), word@)));
            }
            found = true;
            i += wlen;
        } else {
            proof {
                if i + wlen <= clen {
                    lemma_matches_at_skip(content@, word@, i as int, 0);
                } else {
                    assert(!matches_at(rest, word@, 0));
                }
                assert(!matches_at(content@, word@, i as int));
                assert(rest.len() > 0);
                assert(rest.skip(1) =~= content@.skip(i + 1));
                assert(replace_ci(rest, word@) == seq![rest[0]] + replace_ci(
                    content@.skip(i + 1),
                    word@,
                ));
                assert(rest[0] == content@[i as int]);
            }
            out.push(content[i]);
            proof {
                assert(out@ =~= out0 + seq![content@[i as int]]);
                assert((out0 + seq![content@[i as int]]) + replace_ci(content@.skip(i + 1), word@)
                    =~= out0 + (seq![content@[i as int]] + replace_ci(content@.skip(i + 1), word@)));
            }
            i += 1;
        }
    }
    proof {
        assert(content@.skip(i as int) =~= Seq::<char>::empty());
        assert(replace_ci(content@.skip(i as int), word@) =~= Seq::<char>::empty());
        assert(out@ + Seq::<char>::empty() =~= out@);
        if !found {
            assert forall|q: int| !matches_at(content@, word@, q) by {
                if 0 <= q && q + word@.len() <= content@.len() {
                    assert(q < content@.len());
                }
            }
        }
    }
    (out, found)
}

/// Skipping entries whose key is not the one sought leaves the lookup and
/// key-membership unchanged.
proof fn lemma_lookup_prefix(m: Seq<(Seq<char>, Seq<Seq<char>>)>, key: Seq<char>, i: int)
    requires
        0 <= i <= m.len(),
        forall|q: int| 0 <= q < i ==> m[q].0 != key,
    ensures
        lookup_words(m, key) == lookup_words(m.skip(i), key),
        has_key(m, key) == has_key(m.skip(i), key),
    decreases i,
{
    if i == 0 {
        assert(m.skip(0) =~= m);
    } else {
        assert(m.drop_first() =~= m.skip(1));
        lemma_lookup_prefix(m.skip(1), key, i - 1);
        assert(m.skip(1).skip(i - 1) =~= m.skip(i));
        if has_key(m, key) {
            let w = choose|j: int| 0 <= j < m.len() && m[j].0 == key;
            assert(m.skip(1)[w - 1] == m[w]);
            assert(has_key(m.skip(1), key));
        }
        if has_key(m.skip(1), key) {
            let w = choose|j: int| 0 <= j < m.skip(1).len() && m.skip(1)[j].0 == key;
            assert(m[w + 1] == m.skip(1)[w]);
            assert(has_key(m, key));
        }
    }
}

/// A key that no entry has looks up to the empty word list.
proof fn lemma_lookup_absent(m: Seq<(Seq<char>, Seq<Seq<char>>)>, key: Seq<char>)
    requires
        !has_key(m, key),
    ensures
        lookup_words(m, key) == Seq::<Seq<char>>::empty(),
    decreases m.len(),
{
    if m.len() > 0 {
        assert(m[0].0 != key);
        assert(m.drop_first() =~= m.skip(1));
        assert(forall|j: int|
            0 <= j < m.skip(1).len() ==> m.skip(1)[j] == m[j + 1]);
        lemma_lookup_absent(m.skip(1), key);
    }
}

/// Index of the first entry with the given country key, if any.
pub(crate) fn find_country(m: &Vec<(CountryCode, Vec<String>)>, key: &CountryCode) -> (r: Option<usize>)
    ensures
        match r {
            Some(i) => {
                &&& i < m@.len()
                &&& entries_view(m@)[i as int].0 == key@
                &&& entries_view(m@)[i as int].1 == lookup_words(entries_view(m@), key@)
                &&& has_key(entries_view(m@), key@)
            },
            None => !has_key(entries_view(m@), key@),
        },
{
    let ghost mv = entries_view(m@);
    let mut i: usize = 0;
    while i < m.len()
        invariant
            0 <= i <= m@.len(),
            mv == entries_view(m@),
            mv.len() == m@.len(),
            forall|q: int| 0 <= q < i ==> mv[q].0 != key@,
        decreases m@.len() - i,
    {
        let entry = &m[i];
        if entry.0 == *key {
            proof {
                lemma_lookup_prefix(mv, key@, i as int);
                assert(mv.skip(i as int)[0] == mv[i as int]);
                assert(lookup_words(mv.skip(i as int), key@) == mv[i as int].1);
            }
            return Some(i);
        }
        i += 1;
    }
    proof {
        lemma_lookup_prefix(mv, key@, mv.len() as int);
        assert(mv.skip(mv.len() as int) =~= Seq::<(Seq<char>, Seq<Seq<char>>)>::empty());
        assert(!has_key(mv.skip(mv.len() as int), key@));
    }
    None
}

/// Append the character vectors of a word list.
fn push_word_chars(active: &mut Vec<Vec<char>>, ws: &Vec<String>)
    ensures
        charvecs_view(final(active)@) == charvecs_view(old(active)@) + words_view(ws@),
{
    let ghost base = active@.len() as int;
    let mut j: usize = 0;
    while j < ws.len()
        invariant
            0 <= j <= ws@.len(),
            base == old(active)@.len() as int,
            active@.len() == base + j,
            forall|k: int| 0 <= k < base ==> active@[k] == #[trigger] old(active)@[k],
            forall|k: int| 0 <= k < j ==> #[trigger] active@[base + k]@ == ws@[k]@,
        decreases ws@.len() - j,
    {
        let w = &ws[j];
        active.push(str_to_chars(w.as_str()));
        j += 1;
    }
    proof {
        let lhs = charvecs_view(active@);
        let rhs = charvecs_view(old(active)@) + words_view(ws@);
        assert forall|k: int| 0 <= k < lhs.len() implies lhs[k] == rhs[k] by {
            assert(lhs[k] == active@[k]@);
            if k < base {
                assert(active@[k] == old(active)@[k]);
                assert(rhs[k] == charvecs_view(old(active)@)[k]);
                assert(charvecs_view(old(active)@)[k] == old(active)@[k]@);
            } else {
                let k2 = k - base;
                assert(active@[base + k2]@ == ws@[k2]@);
                assert(rhs[k] == words_view(ws@)[k2]);
                assert(words_view(ws@)[k2] == ws@[k2]@);
            }
        }
        assert(lhs =~= rhs);
    }
}

/// Censor `content` with the banned words of the sender's and the viewer's
/// countries. Returns the rewritten text and whether anything was replaced.
pub fn apply_censorship(
    content: &str,
    banned_words_map: &Vec<(CountryCode, Vec<String>)>,
    sender_country: Option<&CountryCode>,
    receiver_country: Option<&CountryCode>,
) -> (r: (String, bool))
    ensures
        ({
            let aw = active_words(
                entries_view(banned_words_map@),
                opt_country_view(sender_country),
                opt_country_view(receiver_country),
            );
            &&& r.0@ == censor_all(content@, aw)
            &&& r.1 == censor_any(content@, aw)
        }),
{
    let ghost mv = entries_view(banned_words_map@);
    let ghost aw = active_words(
        mv,
        opt_country_view(sender_country),
        opt_country_view(receiver_country),
    );
    let mut active: Vec<Vec<char>> = Vec::new();
    match sender_country {
        Some(c) => {
            match find_country(banned_words_map, c) {
                Some(idx) => {
                    let entry = &banned_words_map[idx];
                    push_word_chars(&mut active, &entry.1);
                },
                None => {
                    proof {
                        lemma_lookup_absent(mv, c@);
                    }
                },
            }
        },
        None => {},
    }
    proof {
        assert(charvecs_view(active@) =~= (match opt_country_view(sender_country) {
            Some(c) => lookup_words(mv, c),
            None => Seq::<Seq<char>>::empty(),
        }));
    }
    let ghost sender_part = charvecs_view(active@);
    match receiver_country {
        Some(c) => {
            match find_country(banned_words_map, c) {
                Some(idx) => {
                    let entry = &banned_words_map[idx];
                    push_word_chars(&mut active, &entry.1);
                },
                None => {
                    proof {
                        lemma_lookup_absent(mv, c@);
                    }
                },
            }
        },
        None => {},
    }
    proof {
        assert(charvecs_view(active@) =~= aw);
    }
    let mut cur = str_to_chars(content);
    let mut flag = false;
    let mut k: usize = 0;
    proof {
        assert(aw.skip(0) =~= aw);
    }
    while k < active.len()
        invariant
            0 <= k <= active@.len(),
            charvecs_view(active@) == aw,
            censor_all(content@, aw) == censor_all(cur@, aw.skip(k as int)),
            censor_any(content@, aw) == (flag || censor_any(cur@, aw.skip(k as int))),
        decreases active@.len() - k,
    {
        let ghost rest = aw.skip(k as int);
        proof {
            assert(rest[0] == aw[k as int]);
            assert(aw[k as int] == active@[k as int]@);
            assert(rest.drop_first() =~= aw.skip(k + 1));
        }
        let w = &active[k];
        let res = replace_word_case_insensitive(&cur, w);
        cur = res.0;
        flag = flag || res.1;
        k += 1;
    }
    proof {
        assert(aw.skip(active@.len() as int) =~= Seq::<Seq<char>>::empty());
        assert(censor_all(cur@, Seq::<Seq<char>>::empty()) == cur@);
        assert(censor_any(cur@, Seq::<Seq<char>>::empty()) == false);
    }
    (chars_to_string(&cur), flag)
}

/// Applies a fixed configuration's banned-word table to messages.
pub struct CensorshipFilter {
    pub config: FilterConfig,
}

impl CensorshipFilter {
    pub fn new(config: &FilterConfig) -> (r: Self)
        ensures
            r.config@ == config@,
    {
        CensorshipFilter { config: config.duplicate() }
    }

    /// Dual-filter censorship: the sender country's and the viewer country's
    /// banned words, where given.
    pub fn censor_message(
        &self,
        content: &str,
        sender_country: Option<&CountryCode>,
        receiver_country: Option<&CountryCode>,
    ) -> (r: (String, bool))
        ensures
            ({
                let aw = active_words(
                    self.config@,
                    opt_country_view(sender_country),
                    opt_country_view(receiver_country),
                );
                &&& r.0@ == censor_all(content@, aw)
                &&& r.1 == censor_any(content@, aw)
            }),
    {
        apply_censorship(content, &self.config.banned_words, sender_country, receiver_country)
    }
}

} // verus!
