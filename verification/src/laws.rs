//! The library's headline laws, stated and proved over the same spec
//! functions that the executable contracts use.

use vstd::prelude::*;

use crate::data::MessageView;
use crate::filter::{
    censor_all, censor_any, censor_token, censor_view, has_match, lower_char, lower_seq,
    matches_at, replace_ci, step_censored,
};
use crate::game::{banned_universe, lemma_universe_finite};
use crate::room::{batch_rel, batch_step_rel, RoomModel};

verus! {

/// The word never mentions the replacement token's character.
pub open spec fn no_star(w: Seq<char>) -> bool {
    forall|j: int| 0 <= j < w.len() ==> w[j] != '*'
}

/// Every word of the list is free of the token's character.
pub open spec fn all_no_star(ws: Seq<Seq<char>>) -> bool {
    forall|i: int| 0 <= i < ws.len() ==> no_star(#[trigger] ws[i])
}

/// Case folding touches letters only: it maps a character to the token's
/// character exactly when it already was that character.
proof fn lemma_lower_star(c: char)
    ensures
        (lower_char(c) == '*') == (c == '*'),
{
}

/// A token-free prefix of a replacement pass is the content unchanged, and
/// no match of the word starts inside it.
proof fn lemma_prefix_unreplaced(s: Seq<char>, w: Seq<char>, m: int)
    requires
        w.len() >= 1,
        1 <= m <= replace_ci(s, w).len(),
        forall|j: int| 0 <= j < m ==> replace_ci(s, w)[j] != '*',
    ensures
        m <= s.len(),
        forall|j: int| 0 <= j < m ==> replace_ci(s, w)[j] == s[j],
        forall|q: int| 0 <= q < m ==> !matches_at(s, w, q),
    decreases s.len(),
{
    let out = replace_ci(s, w);
    assert(s.len() > 0);
    if matches_at(s, w, 0) {
        assert(out[0] == '*');
        assert(false);
    } else {
        let rest = replace_ci(s.skip(1), w);
        assert(out == seq![s[0]] + rest);
        assert(out[0] == s[0]);
        if m > 1 {
            assert forall|j: int| 0 <= j < m - 1 implies rest[j] != '*' by {
                assert(out[j + 1] == rest[j]);
            }
            lemma_prefix_unreplaced(s.skip(1), w, m - 1);
            assert forall|j: int| 0 <= j < m implies out[j] == s[j] by {
                if j >= 1 {
                    assert(out[j] == rest[j - 1]);
                    assert(rest[j - 1] == s.skip(1)[j - 1]);
                    assert(s.skip(1)[j - 1] == s[j]);
                }
            }
            assert forall|q: int| 0 <= q < m implies !matches_at(s, w, q) by {
                if q >= 1 {
                    crate::filter::lemma_matches_at_skip(s, w, 1, q - 1);
                }
            }
        }
    }
}

/// Every match of a token-free word in a pass's output stands, in the
/// original content, at a position the pass did not replace.
proof fn lemma_match_in_output(s: Seq<char>, w: Seq<char>, wi: Seq<char>, p: int)
    requires
        w.len() >= 1,
        wi.len() >= 1,
        no_star(wi),
        matches_at(replace_ci(s, w), wi, p),
    ensures
        exists|q: int| #[trigger] matches_at(s, wi, q) && !matches_at(s, w, q),
    decreases s.len(),
{
    let out = replace_ci(s, w);
    assert forall|j: int| 0 <= j < wi.len() implies (#[trigger] out[p + j]) != '*' by {
        assert(lower_char(out[p + j]) == lower_char(wi[j]));
        lemma_lower_star(out[p + j]);
        lemma_lower_star(wi[j]);
    }
    if s.len() == 0 {
        assert(out.len() == 0);
        assert(false);
    } else if matches_at(s, w, 0) {
        let rest = replace_ci(s.skip(w.len() as int), w);
        assert(out == censor_token() + rest);
        if p < 3 {
            assert(censor_token()[0] == '*');
            assert(censor_token()[1] == '*');
            assert(censor_token()[2] == '*');
            assert(out[p] == censor_token()[p]);
            assert((#[trigger] out[p + 0]) != '*');
            assert(false);
        }
        assert forall|j: int| 0 <= j < wi.len() implies lower_char(rest[p - 3 + j]) == lower_char(
            wi[j],
        ) by {
            assert(out[p + j] == rest[p - 3 + j]);
        }
        assert(matches_at(rest, wi, p - 3));
        lemma_match_in_output(s.skip(w.len() as int), w, wi, p - 3);
        let q1 = choose|q1: int|
            #[trigger] matches_at(s.skip(w.len() as int), wi, q1) && !matches_at(
                s.skip(w.len() as int),
                w,
                q1,
            );
        crate::filter::lemma_matches_at_skip(s, wi, w.len() as int, q1);
        crate::filter::lemma_matches_at_skip(s, w, w.len() as int, q1);
        assert(matches_at(s, wi, w.len() + q1) && !matches_at(s, w, w.len() + q1));
    } else {
        let rest = replace_ci(s.skip(1), w);
        assert(out == seq![s[0]] + rest);
        if p >= 1 {
            assert forall|j: int| 0 <= j < wi.len() implies lower_char(rest[p - 1 + j])
                == lower_char(wi[j]) by {
                assert(out[p + j] == rest[p - 1 + j]);
            }
            assert(matches_at(rest, wi, p - 1));
            lemma_match_in_output(s.skip(1), w, wi, p - 1);
            let q1 = choose|q1: int|
                #[trigger] matches_at(s.skip(1), wi, q1) && !matches_at(s.skip(1), w, q1);
            crate::filter::lemma_matches_at_skip(s, wi, 1, q1);
            crate::filter::lemma_matches_at_skip(s, w, 1, q1);
            assert(matches_at(s, wi, 1 + q1) && !matches_at(s, w, 1 + q1));
        } else {
            assert forall|j: int| 0 <= j < wi.len() implies replace_ci(s, w)[j] != '*' by {
                assert((#[trigger] out[p + j]) != '*');
                assert(out[p + j] == out[j]);
            }
            lemma_prefix_unreplaced(s, w, wi.len() as int);
            assert forall|j: int| 0 <= j < wi.len() implies lower_char(s[j]) == lower_char(
                wi[j],
            ) by {
                assert(out[j] == s[j]);
            }
            assert(matches_at(s, wi, 0) && !matches_at(s, w, 0));
        }
    }
}

/// A pass over content with no occurrence of the word leaves it unchanged.
proof fn lemma_replace_clean(s: Seq<char>, w: Seq<char>)
    requires
        !has_match(s, w),
    ensures
        replace_ci(s, w) == s,
    decreases s.len(),
{
    if w.len() == 0 || s.len() == 0 {
    } else {
        assert(!matches_at(s, w, 0));
        assert forall|q: int| !matches_at(s.skip(1), w, q) by {
            if 0 <= q {
                crate::filter::lemma_matches_at_skip(s, w, 1, q);
            }
        }
        lemma_replace_clean(s.skip(1), w);
        assert(seq![s[0]] + s.skip(1) =~= s);
    }
}

/// After a pass for `w`, a token-free word occurs in the output only if it
/// occurred in the input; and `w` itself no longer occurs at all.
proof fn lemma_clean_after_replace(s: Seq<char>, w: Seq<char>, wi: Seq<char>)
    requires
        w.len() >= 1,
        wi.len() >= 1,
        no_star(wi),
        wi == w || !has_match(s, wi),
    ensures
        !has_match(replace_ci(s, w), wi),
{
    let out = replace_ci(s, w);
    assert forall|p: int| !matches_at(out, wi, p) by {
        if matches_at(out, wi, p) {
            lemma_match_in_output(s, w, wi, p);
            let q = choose|q: int| #[trigger] matches_at(s, wi, q) && !matches_at(s, w, q);
            if wi == w {
                assert(false);
            } else {
                assert(has_match(s, wi));
                assert(false);
            }
        }
    }
}

/// Cleanliness for a token-free word survives any further passes.
proof fn lemma_stay_clean(s: Seq<char>, ws: Seq<Seq<char>>, wi: Seq<char>)
    requires
        no_star(wi),
        wi.len() >= 1,
        !has_match(s, wi),
    ensures
        !has_match(censor_all(s, ws), wi),
    decreases ws.len(),
{
    if ws.len() > 0 {
        let s1 = replace_ci(s, ws[0]);
        if ws[0].len() == 0 {
            assert(s1 == s);
        } else {
            lemma_clean_after_replace(s, ws[0], wi);
        }
        lemma_stay_clean(s1, ws.drop_first(), wi);
    }
}

/// After a whole censoring step, none of its nonempty words occurs in the
/// output.
proof fn lemma_post_clean(s: Seq<char>, ws: Seq<Seq<char>>, i: int)
    requires
        all_no_star(ws),
        0 <= i < ws.len(),
        ws[i].len() >= 1,
    ensures
        !has_match(censor_all(s, ws), ws[i]),
    decreases ws.len(),
{
    let s1 = replace_ci(s, ws[0]);
    assert(all_no_star(ws.drop_first())) by {
        assert forall|k: int| 0 <= k < ws.drop_first().len() implies no_star(
            #[trigger] ws.drop_first()[k],
        ) by {
            assert(ws.drop_first()[k] == ws[k + 1]);
        }
    }
    if i == 0 {
        lemma_clean_after_replace(s, ws[0], ws[0]);
        lemma_stay_clean(s1, ws.drop_first(), ws[0]);
    } else {
        lemma_post_clean(s1, ws.drop_first(), i - 1);
        assert(ws.drop_first()[i - 1] == ws[i]);
    }
}

/// A censoring step over content in which none of the nonempty words occurs
/// changes nothing and reports nothing censored.
proof fn lemma_censor_fixed(t: Seq<char>, ws: Seq<Seq<char>>)
    requires
        forall|i: int| 0 <= i < ws.len() && (#[trigger] ws[i]).len() >= 1 ==> !has_match(t, ws[i]),
    ensures
        censor_all(t, ws) == t,
        !censor_any(t, ws),
    decreases ws.len(),
{
    if ws.len() > 0 {
        if ws[0].len() >= 1 {
            lemma_replace_clean(t, ws[0]);
        }
        assert(replace_ci(t, ws[0]) == t);
        assert(!step_censored(t, ws[0]));
        assert forall|i: int|
            0 <= i < ws.drop_first().len() && (#[trigger] ws.drop_first()[i]).len() >= 1 implies
            !has_match(t, ws.drop_first()[i]) by {
            assert(ws.drop_first()[i] == ws[i + 1]);
        }
        lemma_censor_fixed(t, ws.drop_first());
    }
}

/// Censoring is idempotent: as long as no banned word mentions the token's
/// character, re-censoring already-censored output with the same word list
/// changes nothing further, and the second pass censors nothing.
pub proof fn lemma_censor_idempotent(content: Seq<char>, words: Seq<Seq<char>>)
    requires
        all_no_star(words),
    ensures
        censor_all(censor_all(content, words), words) == censor_all(content, words),
        !censor_any(censor_all(content, words), words),
{
    let t = censor_all(content, words);
    assert forall|i: int| 0 <= i < words.len() && (#[trigger] words[i]).len() >= 1 implies
        !has_match(t, words[i]) by {
        lemma_post_clean(content, words, i);
    }
    lemma_censor_fixed(t, words);
}

/// No banned word of the table mentions the token's character.
pub open spec fn config_no_star(config: Seq<(Seq<char>, Seq<Seq<char>>)>) -> bool {
    forall|i: int, j: int|
        0 <= i < config.len() && 0 <= j < config[i].1.len() ==> no_star(
            #[trigger] config[i].1[j],
        )
}

/// A lookup's words are some entry's words.
proof fn lemma_lookup_words_no_star(config: Seq<(Seq<char>, Seq<Seq<char>>)>, key: Seq<char>)
    requires
        config_no_star(config),
    ensures
        forall|j: int|
            0 <= j < crate::data::lookup_words(config, key).len() ==> no_star(
                #[trigger] crate::data::lookup_words(config, key)[j],
            ),
    decreases config.len(),
{
    let lw = crate::data::lookup_words(config, key);
    if config.len() == 0 {
    } else if config[0].0 == key {
        assert(lw == config[0].1);
        assert forall|j: int| 0 <= j < lw.len() implies no_star(#[trigger] lw[j]) by {
            assert(no_star(config[0].1[j]));
        }
    } else {
        let t = config.drop_first();
        assert forall|i: int, j: int|
            0 <= i < t.len() && 0 <= j < t[i].1.len() implies no_star(#[trigger] t[i].1[j]) by {
            assert(t[i] == config[i + 1]);
        }
        lemma_lookup_words_no_star(t, key);
        assert(lw == crate::data::lookup_words(t, key));
        assert forall|j: int| 0 <= j < lw.len() implies no_star(#[trigger] lw[j]) by {
            assert(no_star(crate::data::lookup_words(t, key)[j]));
        }
    }
}

/// Re-censoring a message's already-censored text for the same viewer
/// changes nothing further and censors nothing, whatever the flags, as long
/// as no banned word mentions the token's character.
pub proof fn lemma_censor_view_idempotent(
    config: Seq<(Seq<char>, Seq<Seq<char>>)>,
    sender_censor: bool,
    receiver_censor: bool,
    shadow_ban: bool,
    allowed: Seq<Seq<char>>,
    msg: MessageView,
    viewer: Seq<char>,
)
    requires
        config_no_star(config),
    ensures
        ({
            let first = censor_view(
                config,
                sender_censor,
                receiver_censor,
                shadow_ban,
                allowed,
                msg,
                viewer,
            );
            let again = censor_view(
                config,
                sender_censor,
                receiver_censor,
                shadow_ban,
                allowed,
                MessageView { content: first.0, ..msg },
                viewer,
            );
            again.0 == first.0 && !again.1
        }),
{
    let first = censor_view(config, sender_censor, receiver_censor, shadow_ban, allowed, msg, viewer);
    let msg2 = MessageView { content: first.0, ..msg };
    let again = censor_view(
        config,
        sender_censor,
        receiver_censor,
        shadow_ban,
        allowed,
        msg2,
        viewer,
    );
    if msg.sender_id == "SYSTEM"@ {
        assert(first == (msg.content, false));
        assert(again == (msg2.content, false));
    } else if shadow_ban && msg.sender_country == viewer {
        assert(first == (msg.content, false));
        assert(again == (msg2.content, false));
    } else {
        let s = if sender_censor && !allowed.contains(msg.sender_country) {
            Some(msg.sender_country)
        } else {
            None
        };
        let r = if receiver_censor && !allowed.contains(viewer) {
            Some(viewer)
        } else {
            None
        };
        let aw = crate::filter::active_words(config, s, r);
        assert(first == (censor_all(msg.content, aw), censor_any(msg.content, aw)));
        assert(again == (censor_all(msg2.content, aw), censor_any(msg2.content, aw)));
        assert(all_no_star(aw)) by {
            match s {
                Some(c) => {
                    lemma_lookup_words_no_star(config, c);
                },
                None => {},
            }
            match r {
                Some(c) => {
                    lemma_lookup_words_no_star(config, c);
                },
                None => {},
            }
            assert forall|i: int| 0 <= i < aw.len() implies no_star(#[trigger] aw[i]) by {
                let sl = (match s {
                    Some(c) => crate::data::lookup_words(config, c),
                    None => Seq::<Seq<char>>::empty(),
                });
                if i < sl.len() {
                    assert(aw[i] == sl[i]);
                } else {
                    let rl = (match r {
                        Some(c) => crate::data::lookup_words(config, c),
                        None => Seq::<Seq<char>>::empty(),
                    });
                    assert(aw[i] == rl[i - sl.len()]);
                }
            }
        }
        lemma_censor_idempotent(msg.content, aw);
    }
}

/// Matching is case-insensitive: contents and words that agree after case
/// folding match at exactly the same positions, and a pass censors one iff
/// it censors the other.
pub proof fn lemma_match_case_insensitive(
    c1: Seq<char>,
    c2: Seq<char>,
    w1: Seq<char>,
    w2: Seq<char>,
)
    requires
        lower_seq(c1) == lower_seq(c2),
        lower_seq(w1) == lower_seq(w2),
    ensures
        forall|i: int| matches_at(c1, w1, i) == matches_at(c2, w2, i),
        step_censored(c1, w1) == step_censored(c2, w2),
{
    assert(c1.len() == c2.len()) by {
        assert(lower_seq(c1).len() == c1.len());
        assert(lower_seq(c2).len() == c2.len());
    }
    assert(w1.len() == w2.len()) by {
        assert(lower_seq(w1).len() == w1.len());
        assert(lower_seq(w2).len() == w2.len());
    }
    assert forall|i: int| matches_at(c1, w1, i) == matches_at(c2, w2, i) by {
        assert forall|k: int| 0 <= k < c1.len() implies lower_char(c1[k]) == lower_char(c2[k]) by {
            assert(lower_seq(c1)[k] == lower_char(c1[k]));
            assert(lower_seq(c2)[k] == lower_char(c2[k]));
        }
        assert forall|k: int| 0 <= k < w1.len() implies lower_char(w1[k]) == lower_char(w2[k]) by {
            assert(lower_seq(w1)[k] == lower_char(w1[k]));
            assert(lower_seq(w2)[k] == lower_char(w2[k]));
        }
        if matches_at(c1, w1, i) {
            assert forall|j: int| 0 <= j < w2.len() implies lower_char(c2[i + j]) == lower_char(
                w2[j],
            ) by {
                assert(lower_char(c1[i + j]) == lower_char(w1[j]));
            }
        }
        if matches_at(c2, w2, i) {
            assert forall|j: int| 0 <= j < w1.len() implies lower_char(c1[i + j]) == lower_char(
                w1[j],
            ) by {
                assert(lower_char(c2[i + j]) == lower_char(w2[j]));
            }
        }
    }
}

/// System-authored messages are never censored, whatever the configuration,
/// flags and viewer.
pub proof fn lemma_system_never_censored(
    config: Seq<(Seq<char>, Seq<Seq<char>>)>,
    sender_censor: bool,
    receiver_censor: bool,
    shadow_ban: bool,
    allowed: Seq<Seq<char>>,
    msg: MessageView,
    viewer: Seq<char>,
)
    requires
        msg.sender_id == "SYSTEM"@,
    ensures
        censor_view(config, sender_censor, receiver_censor, shadow_ban, allowed, msg, viewer) == (
        msg.content,
        false,
        ),
{
}

/// With shadow mode on, a message read from its sender's own country passes
/// unchanged, whatever words are banned.
pub proof fn lemma_shadow_mode_uncensored(
    config: Seq<(Seq<char>, Seq<Seq<char>>)>,
    sender_censor: bool,
    receiver_censor: bool,
    allowed: Seq<Seq<char>>,
    msg: MessageView,
    viewer: Seq<char>,
)
    requires
        msg.sender_country == viewer,
    ensures
        censor_view(config, sender_censor, receiver_censor, true, allowed, msg, viewer) == (
        msg.content,
        false,
        ),
{
}

/// The banned-word universe shrinks with the population: fewer represented
/// countries can only give a subset of the universe, so `total_required`
/// can only drop.
pub proof fn lemma_universe_shrinks(
    config: Seq<(Seq<char>, Seq<Seq<char>>)>,
    smaller: Set<Seq<char>>,
    larger: Set<Seq<char>>,
)
    requires
        smaller.subset_of(larger),
    ensures
        banned_universe(config, smaller).subset_of(banned_universe(config, larger)),
        banned_universe(config, smaller).len() <= banned_universe(config, larger).len(),
    decreases config.len(),
{
    if config.len() == 0 {
    } else {
        lemma_universe_shrinks(config.drop_last(), smaller, larger);
    }
    lemma_universe_finite(config, larger);
    vstd::set_lib::lemma_len_subset(banned_universe(config, smaller), banned_universe(config, larger));
}

/// Ordering: over one processed batch, the produced messages carry strictly
/// increasing ids in the order their actions stood in the batch, all above
/// the counter the batch started from.
pub proof fn lemma_batch_message_order(
    pre: RoomModel,
    ums: Seq<crate::room::UserMessageView>,
    post: RoomModel,
    msgs: Seq<MessageView>,
    notifs: Seq<Seq<char>>,
)
    requires
        batch_rel(pre, ums, post, msgs, notifs),
    ensures
        post.message_counter >= pre.message_counter,
        forall|k: int| 0 <= k < msgs.len() ==> pre.message_counter < (#[trigger] msgs[k]).id,
        forall|k: int| 0 <= k < msgs.len() ==> (#[trigger] msgs[k]).id <= post.message_counter,
        forall|a: int, b: int| 0 <= a < b < msgs.len() ==> msgs[a].id < msgs[b].id,
    decreases ums.len(),
{
    if ums.len() == 0 {
    } else {
        let (mid, m0, n0) = choose|mid: RoomModel, m0: Option<MessageView>, n0: Seq<Seq<char>>|
            {
                &&& #[trigger] batch_step_rel(pre, ums[0], mid, m0, n0)
                &&& n0.len() <= notifs.len()
                &&& crate::room::opt_seq(m0).len() <= msgs.len()
                &&& msgs.take(crate::room::opt_seq(m0).len() as int) == crate::room::opt_seq(m0)
                &&& notifs.take(n0.len() as int) == n0
                &&& batch_rel(
                    mid,
                    ums.drop_first(),
                    post,
                    msgs.skip(crate::room::opt_seq(m0).len() as int),
                    notifs.skip(n0.len() as int),
                )
            };
        let mlen = crate::room::opt_seq(m0).len() as int;
        lemma_step_counter(pre, ums[0], mid, m0, n0);
        lemma_batch_message_order(
            mid,
            ums.drop_first(),
            post,
            msgs.skip(mlen),
            notifs.skip(n0.len() as int),
        );
        assert forall|k: int| 0 <= k < msgs.len() implies pre.message_counter < (
        #[trigger] msgs[k]).id && msgs[k].id <= post.message_counter by {
            if k < mlen {
                assert(msgs[k] == crate::room::opt_seq(m0)[k]);
            } else {
                assert(msgs[k] == msgs.skip(mlen)[k - mlen]);
            }
        }
        assert forall|a: int, b: int| 0 <= a < b < msgs.len() implies msgs[a].id < msgs[b].id by {
            if a < mlen {
                assert(msgs[a] == crate::room::opt_seq(m0)[a]);
                assert(msgs[b] == msgs.skip(mlen)[b - mlen]);
            } else {
                assert(msgs[a] == msgs.skip(mlen)[a - mlen]);
                assert(msgs[b] == msgs.skip(mlen)[b - mlen]);
            }
        }
    }
}

/// One processed action raises the counter by at most one, and a produced
/// message takes exactly the new counter value.
proof fn lemma_step_counter(
    pre: RoomModel,
    um: crate::room::UserMessageView,
    post: RoomModel,
    m0: Option<MessageView>,
    n0: Seq<Seq<char>>,
)
    requires
        batch_step_rel(pre, um, post, m0, n0),
    ensures
        post.message_counter >= pre.message_counter,
        m0 matches Some(mv) ==> mv.id == post.message_counter && pre.message_counter
            < post.message_counter,
        m0 is None ==> post.message_counter == pre.message_counter,
{
    if !crate::room::has_user(pre.participants, um.user_id) {
        let mid = choose|mid: RoomModel|
            {
                &&& #[trigger] crate::room::joined_model(pre, mid, um.user_id, um.country)
                &&& n0.len() >= 1
                &&& n0[0] == crate::room::join_notification(um.user_id)
                &&& crate::room::action_rel(
                    mid,
                    post,
                    um.user_id,
                    um.country,
                    um.action,
                    m0,
                    n0.drop_first(),
                )
            };
        assert(mid.message_counter == pre.message_counter);
    }
}

} // verus!
