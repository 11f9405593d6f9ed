//! A chat room: participants, message log, player notes, and the per-country
//! censorship view. One owning task mutates a room; everything here is a
//! plain state transition.

use vstd::pervasive::VecAdditionalExecFns;
use vstd::prelude::*;
use vstd::string::StringExecFns;

use crate::data::{
    entries_view, keys_unique, words_view, CensoredMessage, CountryCode, FilterConfig, Message,
    MessageView, Notification, Participant, ParticipantView, RoomId, RoomState, UserAction, UserId,
};
use crate::data::{copy_words, store_entry, RoomUpdate, Timestamp, UserMessage, VictoryState, Words};
use crate::filter::{censor_view, CensorshipFilter};
use crate::words::{banned_country_count, generate_allowed_and_banned_words, generated_words};
use crate::strutil::{charvecs_view, chars_to_string, dec_digits, extend_chars, extend_str,
    format_usize, str_to_chars};

verus! {

/// An action at the spec level.
pub ghost enum ActionView {
    SendMessage(Seq<char>),
    SendMessageArray(Seq<Seq<char>>),
    SubmitNotes(Seq<(Seq<char>, Seq<Seq<char>>)>),
    LeaveRoom,
}

impl View for UserAction {
    type V = ActionView;

    open spec fn view(&self) -> ActionView {
        match self {
            UserAction::SendMessage(s) => ActionView::SendMessage(s@),
            UserAction::SendMessageArray(ws) => ActionView::SendMessageArray(words_view(ws@)),
            UserAction::SubmitNotes(m) => ActionView::SubmitNotes(entries_view(m@)),
            UserAction::LeaveRoom => ActionView::LeaveRoom,
        }
    }
}

/// View of an optional produced message.
pub open spec fn opt_msg_view(o: Option<Message>) -> Option<MessageView> {
    match o {
        Some(m) => Some(m@),
        None => None,
    }
}

/// View of a notification list.
pub open spec fn notifs_view(ns: Seq<Notification>) -> Seq<Seq<char>> {
    ns.map_values(|n: Notification| n@)
}

/// Whitespace for message tokenization: the ASCII space, tab and line-break
/// characters. Other characters, non-ASCII spaces included, are ordinary
/// word characters.
pub open spec fn is_space(c: char) -> bool {
    c == ' ' || c == '\t' || c == '\n' || c == '\r'
}

/// Left-to-right splitting on whitespace with the token built so far.
pub open spec fn split_acc(s: Seq<char>, cur: Seq<char>) -> Seq<Seq<char>>
    decreases s.len(),
{
    if s.len() == 0 {
        if cur.len() == 0 {
            Seq::empty()
        } else {
            seq![cur]
        }
    } else if is_space(s[0]) {
        if cur.len() == 0 {
            split_acc(s.drop_first(), Seq::empty())
        } else {
            seq![cur] + split_acc(s.drop_first(), Seq::empty())
        }
    } else {
        split_acc(s.drop_first(), cur.push(s[0]))
    }
}

/// The whitespace-separated tokens of a string.
pub open spec fn tokens_of(s: Seq<char>) -> Seq<Seq<char>> {
    split_acc(s, Seq::empty())
}

/// Tokens that stand in the allowed vocabulary, in order.
pub open spec fn filter_allowed(tokens: Seq<Seq<char>>, allowed: Seq<Seq<char>>) -> Seq<Seq<char>> {
    tokens.filter(|t: Seq<char>| allowed.contains(t))
}

/// What follows the first token in a joined string: a space before each
/// further token.
pub open spec fn join_rest(ts: Seq<Seq<char>>) -> Seq<char>
    decreases ts.len(),
{
    if ts.len() == 0 {
        Seq::empty()
    } else {
        seq![' '] + ts[0] + join_rest(ts.drop_first())
    }
}

/// Tokens joined with single spaces.
pub open spec fn join_spaces(ts: Seq<Seq<char>>) -> Seq<char> {
    if ts.len() == 0 {
        Seq::empty()
    } else {
        ts[0] + join_rest(ts.drop_first())
    }
}

/// The stored content of a message request: tokens restricted to the allowed
/// vocabulary, rejoined with single spaces.
pub open spec fn filtered_content(tokens: Seq<Seq<char>>, allowed: Seq<Seq<char>>) -> Seq<char> {
    join_spaces(filter_allowed(tokens, allowed))
}

/// The note store after a submission: the caller's entry replaced in place,
/// or appended if absent.
pub open spec fn store_note(
    notes: Seq<(Seq<char>, Seq<(Seq<char>, Seq<Seq<char>>)>)>,
    uid: Seq<char>,
    val: Seq<(Seq<char>, Seq<Seq<char>>)>,
) -> Seq<(Seq<char>, Seq<(Seq<char>, Seq<Seq<char>>)>)>
    decreases notes.len(),
{
    if notes.len() == 0 {
        seq![(uid, val)]
    } else if notes[0].0 == uid {
        seq![(uid, val)] + notes.drop_first()
    } else {
        seq![notes[0]] + store_note(notes.drop_first(), uid, val)
    }
}

/// Total number of words over all countries of one submission.
pub open spec fn notes_word_count(m: Seq<(Seq<char>, Seq<Seq<char>>)>) -> nat
    decreases m.len(),
{
    if m.len() == 0 {
        0
    } else {
        notes_word_count(m.drop_last()) + m.last().1.len()
    }
}

/// Text of the note-submission notification, with singular and plural forms.
pub open spec fn notes_notification(uid: Seq<char>, countries: nat, words: nat) -> Seq<char> {
    uid + " shared exploration notes ("@ + dec_digits(countries) + " "@ + (if countries == 1 {
        "country"@
    } else {
        "countries"@
    }) + ", "@ + dec_digits(words) + " "@ + (if words == 1 {
        "word"@
    } else {
        "words"@
    }) + ")"@
}

/// Text of the departure notification.
pub open spec fn leave_notification(uid: Seq<char>) -> Seq<char> {
    uid + " left the room"@
}

/// Text of the join notification.
pub open spec fn join_notification(uid: Seq<char>) -> Seq<char> {
    uid + " joined the room"@
}

/// Sending: if every token falls outside the vocabulary (empty content), the
/// room is unchanged and nothing is produced; otherwise the next id is
/// assigned and exactly one message is appended and returned.
pub open spec fn send_rel(
    pre: RoomModel,
    post: RoomModel,
    uid: Seq<char>,
    ctry: Seq<char>,
    tokens: Seq<Seq<char>>,
    msg: Option<MessageView>,
    notifs: Seq<Seq<char>>,
) -> bool {
    let c = filtered_content(tokens, pre.allowed_words);
    if c.len() == 0 {
        &&& post == pre
        &&& msg is None
        &&& notifs.len() == 0
    } else {
        &&& msg matches Some(mv)
        &&& mv.id == pre.message_counter + 1
        &&& mv.sender_id == uid
        &&& mv.sender_country == ctry
        &&& mv.content == c
        &&& post == (RoomModel {
            messages: pre.messages.push(mv),
            message_counter: (pre.message_counter + 1) as u64,
            ..pre
        })
        &&& notifs.len() == 0
    }
}

/// Submitting notes: the caller's stored notes are replaced whole, and one
/// summary notification is produced.
pub open spec fn notes_rel(
    pre: RoomModel,
    post: RoomModel,
    uid: Seq<char>,
    submitted: Seq<(Seq<char>, Seq<Seq<char>>)>,
    msg: Option<MessageView>,
    notifs: Seq<Seq<char>>,
) -> bool {
    &&& post == (RoomModel { player_notes: store_note(pre.player_notes, uid, submitted), ..pre })
    &&& msg is None
    &&& notifs.len() == 1
    &&& notifs[0] == notes_notification(uid, submitted.len(), notes_word_count(submitted))
}

/// Leaving: the caller's participant entry goes away, with a departure
/// notification exactly when a removal happened.
pub open spec fn leave_rel(
    pre: RoomModel,
    post: RoomModel,
    uid: Seq<char>,
    msg: Option<MessageView>,
    notifs: Seq<Seq<char>>,
) -> bool {
    &&& post == (RoomModel {
        participants: pre.participants.filter(|p: ParticipantView| p.user_id != uid),
        ..pre
    })
    &&& msg is None
    &&& if has_user(pre.participants, uid) {
        notifs.len() == 1 && notifs[0] == leave_notification(uid)
    } else {
        notifs.len() == 0
    }
}

/// A queued action with its sender, at the spec level.
pub ghost struct UserMessageView {
    pub user_id: Seq<char>,
    pub country: Seq<char>,
    pub action: ActionView,
}

impl View for UserMessage {
    type V = UserMessageView;

    open spec fn view(&self) -> UserMessageView {
        UserMessageView { user_id: self.user_id@, country: self.country@, action: self.action@ }
    }
}

/// View of a drained batch.
pub open spec fn ums_view(s: Seq<UserMessage>) -> Seq<UserMessageView> {
    s.map_values(|um: UserMessage| um@)
}

/// An optional message as a sequence of none or one.
pub open spec fn opt_seq(m: Option<MessageView>) -> Seq<MessageView> {
    match m {
        Some(mv) => seq![mv],
        None => Seq::empty(),
    }
}

/// The action's submission fits the machine's counters.
pub open spec fn action_fits(a: UserAction) -> bool {
    a matches UserAction::SubmitNotes(nm) ==> notes_word_count(entries_view(nm@)) <= usize::MAX
}

/// One queued action processed: an unseen sender first joins, with a join
/// notification ahead of the action's own; then the action transition runs.
pub open spec fn batch_step_rel(
    pre: RoomModel,
    um: UserMessageView,
    post: RoomModel,
    msg: Option<MessageView>,
    notifs: Seq<Seq<char>>,
) -> bool {
    if has_user(pre.participants, um.user_id) {
        action_rel(pre, post, um.user_id, um.country, um.action, msg, notifs)
    } else {
        exists|mid: RoomModel|
            {
                &&& #[trigger] joined_model(pre, mid, um.user_id, um.country)
                &&& notifs.len() >= 1
                &&& notifs[0] == join_notification(um.user_id)
                &&& action_rel(mid, post, um.user_id, um.country, um.action, msg, notifs.drop_first())
            }
    }
}

/// A whole drained batch processed in order: each step starts from the
/// previous step's state, and the produced messages and notifications are
/// concatenated in batch order.
pub open spec fn batch_rel(
    pre: RoomModel,
    ums: Seq<UserMessageView>,
    post: RoomModel,
    msgs: Seq<MessageView>,
    notifs: Seq<Seq<char>>,
) -> bool
    decreases ums.len(),
{
    if ums.len() == 0 {
        post == pre && msgs.len() == 0 && notifs.len() == 0
    } else {
        exists|mid: RoomModel, m0: Option<MessageView>, n0: Seq<Seq<char>>|
            {
                &&& #[trigger] batch_step_rel(pre, ums[0], mid, m0, n0)
                &&& n0.len() <= notifs.len()
                &&& opt_seq(m0).len() <= msgs.len()
                &&& msgs.take(opt_seq(m0).len() as int) == opt_seq(m0)
                &&& notifs.take(n0.len() as int) == n0
                &&& batch_rel(
                    mid,
                    ums.drop_first(),
                    post,
                    msgs.skip(opt_seq(m0).len() as int),
                    notifs.skip(n0.len() as int),
                )
            }
    }
}

/// Extending a batch by one processed action extends the relation.
proof fn lemma_batch_rel_snoc(
    pre: RoomModel,
    done: Seq<UserMessageView>,
    mid: RoomModel,
    msgs: Seq<MessageView>,
    notifs: Seq<Seq<char>>,
    um: UserMessageView,
    post: RoomModel,
    m0: Option<MessageView>,
    n0: Seq<Seq<char>>,
)
    requires
        batch_rel(pre, done, mid, msgs, notifs),
        batch_step_rel(mid, um, post, m0, n0),
    ensures
        batch_rel(pre, done.push(um), post, msgs + opt_seq(m0), notifs + n0),
    decreases done.len(),
{
    let msgs2 = msgs + opt_seq(m0);
    let notifs2 = notifs + n0;
    if done.len() == 0 {
        assert(mid == pre);
        assert(done.push(um)[0] == um);
        assert(done.push(um).drop_first() =~= Seq::<UserMessageView>::empty());
        assert(msgs2 =~= opt_seq(m0));
        assert(notifs2 =~= n0);
        assert(msgs2.take(opt_seq(m0).len() as int) =~= opt_seq(m0));
        assert(notifs2.take(n0.len() as int) =~= n0);
        assert(msgs2.skip(opt_seq(m0).len() as int) =~= Seq::<MessageView>::empty());
        assert(notifs2.skip(n0.len() as int) =~= Seq::<Seq<char>>::empty());
        assert(batch_rel(
            post,
            done.push(um).drop_first(),
            post,
            msgs2.skip(opt_seq(m0).len() as int),
            notifs2.skip(n0.len() as int),
        ));
        assert(batch_step_rel(pre, done.push(um)[0], post, m0, n0));
        assert(batch_rel(pre, done.push(um), post, msgs2, notifs2));
    } else {
        let (mid1, m01, n01) = choose|mid1: RoomModel, m01: Option<MessageView>, n01: Seq<Seq<char>>|
            {
                &&& #[trigger] batch_step_rel(pre, done[0], mid1, m01, n01)
                &&& n01.len() <= notifs.len()
                &&& opt_seq(m01).len() <= msgs.len()
                &&& msgs.take(opt_seq(m01).len() as int) == opt_seq(m01)
                &&& notifs.take(n01.len() as int) == n01
                &&& batch_rel(
                    mid1,
                    done.drop_first(),
                    mid,
                    msgs.skip(opt_seq(m01).len() as int),
                    notifs.skip(n01.len() as int),
                )
            };
        let mlen = opt_seq(m01).len() as int;
        let nlen = n01.len() as int;
        lemma_batch_rel_snoc(
            mid1,
            done.drop_first(),
            mid,
            msgs.skip(mlen),
            notifs.skip(nlen),
            um,
            post,
            m0,
            n0,
        );
        assert(done.push(um)[0] == done[0]);
        assert(done.push(um).drop_first() =~= done.drop_first().push(um));
        assert(msgs2.take(mlen) =~= msgs.take(mlen));
        assert(notifs2.take(nlen) =~= notifs.take(nlen));
        assert(msgs2.skip(mlen) =~= msgs.skip(mlen) + opt_seq(m0));
        assert(notifs2.skip(nlen) =~= notifs.skip(nlen) + n0);
        assert(batch_step_rel(pre, done.push(um)[0], mid1, m01, n01));
        assert(batch_rel(pre, done.push(um), post, msgs2, notifs2));
    }
}

/// The whole action-transition relation of one processed action.
pub open spec fn action_rel(
    pre: RoomModel,
    post: RoomModel,
    uid: Seq<char>,
    ctry: Seq<char>,
    action: ActionView,
    msg: Option<MessageView>,
    notifs: Seq<Seq<char>>,
) -> bool {
    match action {
        ActionView::SendMessage(c) => send_rel(pre, post, uid, ctry, tokens_of(c), msg, notifs),
        ActionView::SendMessageArray(ws) => send_rel(pre, post, uid, ctry, ws, msg, notifs),
        ActionView::SubmitNotes(m) => notes_rel(pre, post, uid, m, msg, notifs),
        ActionView::LeaveRoom => leave_rel(pre, post, uid, msg, notifs),
    }
}

/// A copy of a note submission, equal under the view.
pub fn copy_note_map(m: &Vec<(CountryCode, Vec<String>)>) -> (r: Vec<(CountryCode, Vec<String>)>)
    ensures
        entries_view(r@) == entries_view(m@),
{
    let mut r: Vec<(CountryCode, Vec<String>)> = Vec::new();
    let mut i: usize = 0;
    while i < m.len()
        invariant
            0 <= i <= m@.len(),
            r@.len() == i,
            forall|k: int|
                0 <= k < i ==> #[trigger] r@[k].0@ == m@[k].0@ && r@[k].1@ == m@[k].1@,
        decreases m@.len() - i,
    {
        let entry = &m[i];
        let key = entry.0.clone();
        let ws = copy_words(&entry.1);
        r.push((key, ws));
        i += 1;
    }
    proof {
        assert forall|k: int| 0 <= k < m@.len() implies entries_view(r@)[k] == entries_view(
            m@,
        )[k] by {
            assert(r@[k].0@ == m@[k].0@);
            assert(r@[k].1@ == m@[k].1@);
        }
        assert(entries_view(r@) =~= entries_view(m@));
    }
    r
}

/// A copy of an action, equal under the view.
pub fn copy_action(a: &UserAction) -> (r: UserAction)
    ensures
        r@ == a@,
{
    match a {
        UserAction::SendMessage(s) => UserAction::SendMessage(s.clone()),
        UserAction::SendMessageArray(ws) => UserAction::SendMessageArray(copy_words(ws)),
        UserAction::SubmitNotes(m) => UserAction::SubmitNotes(copy_note_map(m)),
        UserAction::LeaveRoom => UserAction::LeaveRoom,
    }
}

/// Append copies of the notifications in `src`.
fn push_all_notifs(dst: &mut Vec<Notification>, src: &Vec<Notification>)
    ensures
        notifs_view(final(dst)@) == notifs_view(old(dst)@) + notifs_view(src@),
{
    let ghost base = dst@.len() as int;
    let mut i: usize = 0;
    while i < src.len()
        invariant
            0 <= i <= src@.len(),
            base == old(dst)@.len() as int,
            dst@.len() == base + i,
            forall|k: int| 0 <= k < base ==> dst@[k] == #[trigger] old(dst)@[k],
            forall|k: int| 0 <= k < i ==> #[trigger] dst@[base + k]@ == src@[k]@,
        decreases src@.len() - i,
    {
        let n = &src[i];
        dst.push(Notification { message: n.message.clone() });
        i += 1;
    }
    proof {
        let lhs = notifs_view(dst@);
        let rhs = notifs_view(old(dst)@) + notifs_view(src@);
        assert forall|k: int| 0 <= k < lhs.len() implies lhs[k] == rhs[k] by {
            assert(lhs[k] == dst@[k]@);
            if k < base {
                assert(dst@[k] == old(dst)@[k]);
                assert(rhs[k] == notifs_view(old(dst)@)[k]);
            } else {
                let k2 = k - base;
                assert(dst@[base + k2]@ == src@[k2]@);
                assert(rhs[k] == notifs_view(src@)[k2]);
            }
        }
        assert(lhs =~= rhs);
    }
}

/// Whitespace test matching `is_space`.
pub fn is_space_exec(c: char) -> (r: bool)
    ensures
        r == is_space(c),
{
    c == ' ' || c == '\t' || c == '\n' || c == '\r'
}

/// Split into whitespace-separated tokens.
pub fn tokenize(content: &Vec<char>) -> (r: Vec<Vec<char>>)
    ensures
        charvecs_view(r@) == tokens_of(content@),
{
    let ghost full = content@;
    let mut done: Vec<Vec<char>> = Vec::new();
    let mut cur: Vec<char> = Vec::new();
    let mut i: usize = 0;
    proof {
        assert(full.skip(0) =~= full);
        assert(charvecs_view(done@) + tokens_of(full) =~= tokens_of(full));
    }
    while i < content.len()
        invariant
            0 <= i <= full.len(),
            full == content@,
            tokens_of(full) == charvecs_view(done@) + split_acc(full.skip(i as int), cur@),
        decreases full.len() - i,
    {
        let ghost rest = full.skip(i as int);
        let ghost d0 = charvecs_view(done@);
        proof {
            assert(rest[0] == full[i as int]);
            assert(rest.drop_first() =~= full.skip(i + 1));
        }
        let c = content[i];
        if is_space_exec(c) {
            if cur.len() > 0 {
                let ghost cv = cur@;
                done.push(cur);
                cur = Vec::new();
                proof {
                    assert(charvecs_view(done@) =~= d0.push(cv));
                    assert(split_acc(rest, cv) == seq![cv] + split_acc(full.skip(i + 1), Seq::empty()));
                    assert(d0 + (seq![cv] + split_acc(full.skip(i + 1), Seq::empty())) =~= d0.push(
                        cv,
                    ) + split_acc(full.skip(i + 1), Seq::empty()));
                    assert(cur@ =~= Seq::<char>::empty());
                }
            } else {
                proof {
                    assert(cur@ =~= Seq::<char>::empty());
                }
            }
        } else {
            cur.push(c);
        }
        i += 1;
    }
    proof {
        assert(full.skip(full.len() as int) =~= Seq::<char>::empty());
    }
    if cur.len() > 0 {
        let ghost d0 = charvecs_view(done@);
        let ghost cv = cur@;
        done.push(cur);
        proof {
            assert(charvecs_view(done@) =~= d0.push(cv));
            assert(d0 + seq![cv] =~= d0.push(cv));
        }
        done
    } else {
        proof {
            assert(charvecs_view(done@) + Seq::<Seq<char>>::empty() =~= charvecs_view(done@));
        }
        done
    }
}

/// Element-for-element equality of two character vectors.
pub fn chars_eq(a: &Vec<char>, b: &Vec<char>) -> (r: bool)
    ensures
        r == (a@ == b@),
{
    if a.len() != b.len() {
        proof {
            assert(a@ != b@);
        }
        return false;
    }
    let mut i: usize = 0;
    while i < a.len()
        invariant
            0 <= i <= a@.len(),
            a@.len() == b@.len(),
            forall|k: int| 0 <= k < i ==> a@[k] == b@[k],
        decreases a@.len() - i,
    {
        if a[i] != b[i] {
            return false;
        }
        i += 1;
    }
    proof {
        assert(a@ =~= b@);
    }
    true
}

/// Whether the vocabulary holds this token.
pub fn contains_word(allowed: &Vec<String>, w: &Vec<char>) -> (r: bool)
    ensures
        r == words_view(allowed@).contains(w@),
{
    let ghost av = words_view(allowed@);
    let mut j: usize = 0;
    while j < allowed.len()
        invariant
            0 <= j <= allowed@.len(),
            av == words_view(allowed@),
            av.len() == allowed@.len(),
            forall|k: int| 0 <= k < j ==> av[k] != w@,
        decreases allowed@.len() - j,
    {
        let word = &allowed[j];
        let wc = str_to_chars(word.as_str());
        if chars_eq(&wc, w) {
            proof {
                assert(av[j as int] == w@);
            }
            return true;
        }
        j += 1;
    }
    proof {
        assert(!av.contains(w@));
    }
    false
}

/// Keep the tokens that stand in the vocabulary.
pub fn filter_tokens(tokens: &Vec<Vec<char>>, allowed: &Vec<String>) -> (r: Vec<Vec<char>>)
    ensures
        charvecs_view(r@) == filter_allowed(charvecs_view(tokens@), words_view(allowed@)),
{
    let ghost tv = charvecs_view(tokens@);
    let mut kept: Vec<Vec<char>> = Vec::new();
    let mut i: usize = 0;
    proof {
        reveal_with_fuel(Seq::filter, 2);
        assert(tv.take(0) =~= Seq::<Seq<char>>::empty());
        assert(charvecs_view(kept@) =~= tv.take(0).filter(
            |t: Seq<char>| words_view(allowed@).contains(t),
        ));
    }
    while i < tokens.len()
        invariant
            0 <= i <= tokens@.len(),
            tv == charvecs_view(tokens@),
            tv.len() == tokens@.len(),
            charvecs_view(kept@) == tv.take(i as int).filter(
                |t: Seq<char>| words_view(allowed@).contains(t),
            ),
        decreases tokens@.len() - i,
    {
        let ghost pred = |t: Seq<char>| words_view(allowed@).contains(t);
        let ghost prefix = tv.take(i as int);
        proof {
            reveal_with_fuel(Seq::filter, 2);
            assert(tv.take(i + 1).drop_last() =~= prefix);
            assert(tv.take(i + 1).last() == tv[i as int]);
        }
        let t = &tokens[i];
        if contains_word(allowed, t) {
            let ghost k0 = charvecs_view(kept@);
            let t2 = copy_chars(t);
            kept.push(t2);
            proof {
                reveal_with_fuel(Seq::filter, 2);
                assert(charvecs_view(kept@) =~= k0.push(tv[i as int]));
                assert(tv.take(i + 1).filter(pred) =~= prefix.filter(pred).push(tv[i as int]));
            }
        } else {
            proof {
                reveal_with_fuel(Seq::filter, 2);
                assert(tv.take(i + 1).filter(pred) =~= prefix.filter(pred));
            }
        }
        i += 1;
    }
    proof {
        assert(tv.take(tv.len() as int) =~= tv);
    }
    kept
}

/// A copy of a character vector.
pub fn copy_chars(v: &Vec<char>) -> (r: Vec<char>)
    ensures
        r@ == v@,
{
    let mut r: Vec<char> = Vec::new();
    extend_chars(&mut r, v);
    proof {
        assert(Seq::<char>::empty() + v@ =~= v@);
    }
    r
}

/// Join tokens with single spaces.
pub fn join_tokens(tokens: &Vec<Vec<char>>) -> (r: Vec<char>)
    ensures
        r@ == join_spaces(charvecs_view(tokens@)),
{
    let ghost tv = charvecs_view(tokens@);
    let mut out: Vec<char> = Vec::new();
    if tokens.len() == 0 {
        return out;
    }
    extend_chars(&mut out, &tokens[0]);
    proof {
        assert(Seq::<char>::empty() + tv[0] =~= tv[0]);
        assert(tv.drop_first() =~= tv.skip(1));
        assert(tv.skip(1).len() == tv.len() - 1);
    }
    let mut k: usize = 1;
    while k < tokens.len()
        invariant
            1 <= k <= tokens@.len(),
            tv == charvecs_view(tokens@),
            tv.len() == tokens@.len(),
            join_spaces(tv) == out@ + join_rest(tv.skip(k as int)),
        decreases tokens@.len() - k,
    {
        let ghost rest = tv.skip(k as int);
        let ghost o0 = out@;
        proof {
            assert(rest[0] == tv[k as int]);
            assert(rest.drop_first() =~= tv.skip(k + 1));
        }
        out.push(' ');
        extend_chars(&mut out, &tokens[k]);
        proof {
            assert(out@ =~= o0 + (seq![' '] + tv[k as int]));
            assert((o0 + (seq![' '] + tv[k as int])) + join_rest(tv.skip(k + 1)) =~= o0 + (seq![
                ' ',
            ] + tv[k as int] + join_rest(tv.skip(k + 1))));
        }
        k += 1;
    }
    proof {
        assert(tv.skip(tv.len() as int) =~= Seq::<Seq<char>>::empty());
        assert(out@ + Seq::<char>::empty() =~= out@);
    }
    out
}

/// Convert a word list into character vectors.
pub fn convert_words(words: &Vec<String>) -> (r: Vec<Vec<char>>)
    ensures
        charvecs_view(r@) == words_view(words@),
{
    let mut r: Vec<Vec<char>> = Vec::new();
    let mut i: usize = 0;
    while i < words.len()
        invariant
            0 <= i <= words@.len(),
            r@.len() == i,
            forall|k: int| 0 <= k < i ==> #[trigger] r@[k]@ == words@[k]@,
        decreases words@.len() - i,
    {
        let w = &words[i];
        r.push(str_to_chars(w.as_str()));
        i += 1;
    }
    proof {
        let lhs = charvecs_view(r@);
        let rhs = words_view(words@);
        assert forall|k: int| 0 <= k < lhs.len() implies lhs[k] == rhs[k] by {
            assert(r@[k]@ == words@[k]@);
        }
        assert(lhs =~= rhs);
    }
    r
}

/// Storing under an absent key appends; skipping unmatched entries keeps
/// them in place.
proof fn lemma_store_prefix(
    ns: Seq<(Seq<char>, Seq<(Seq<char>, Seq<Seq<char>>)>)>,
    uid: Seq<char>,
    val: Seq<(Seq<char>, Seq<Seq<char>>)>,
    i: int,
)
    requires
        0 <= i <= ns.len(),
        forall|q: int| 0 <= q < i ==> ns[q].0 != uid,
    ensures
        store_note(ns, uid, val) == ns.take(i) + store_note(ns.skip(i), uid, val),
    decreases i,
{
    if i == 0 {
        assert(ns.skip(0) =~= ns);
        assert(ns.take(0) + store_note(ns, uid, val) =~= store_note(ns, uid, val));
    } else {
        assert(ns.drop_first() =~= ns.skip(1));
        lemma_store_prefix(ns.skip(1), uid, val, i - 1);
        assert(ns.skip(1).skip(i - 1) =~= ns.skip(i));
        assert(ns.skip(1).take(i - 1) =~= ns.take(i).drop_first());
        assert(store_note(ns, uid, val) == seq![ns[0]] + store_note(ns.skip(1), uid, val));
        assert(seq![ns[0]] + (ns.take(i).drop_first() + store_note(ns.skip(i), uid, val)) =~= ns.take(
            i,
        ) + store_note(ns.skip(i), uid, val));
    }
}

/// Storing a note keeps the store's keys unique; every stored key is the
/// caller's or was already there.
pub(crate) proof fn lemma_store_note_unique(
    ns: Seq<(Seq<char>, Seq<(Seq<char>, Seq<Seq<char>>)>)>,
    uid: Seq<char>,
    val: Seq<(Seq<char>, Seq<Seq<char>>)>,
)
    requires
        note_keys_unique(ns),
    ensures
        ({
            let st = store_note(ns, uid, val);
            &&& note_keys_unique(st)
            &&& forall|k: int|
                0 <= k < st.len() ==> (#[trigger] st[k].0 == uid || exists|w: int|
                    0 <= w < ns.len() && ns[w].0 == st[k].0)
        }),
    decreases ns.len(),
{
    let st = store_note(ns, uid, val);
    if ns.len() == 0 {
    } else if ns[0].0 == uid {
        assert(st =~= seq![(uid, val)] + ns.drop_first());
        assert forall|k: int| 0 <= k < st.len() implies (#[trigger] st[k].0 == uid || exists|w: int|
            0 <= w < ns.len() && ns[w].0 == st[k].0) by {
            if k >= 1 {
                assert(st[k] == ns[k]);
            }
        }
        assert forall|i: int, j: int| 0 <= i < j < st.len() implies st[i].0 != st[j].0 by {
            if i >= 1 {
                assert(st[i] == ns[i]);
                assert(st[j] == ns[j]);
            } else {
                assert(st[j] == ns[j]);
                assert(ns[0].0 != ns[j].0);
            }
        }
    } else {
        let tail = ns.drop_first();
        assert forall|i: int, j: int| 0 <= i < j < tail.len() implies tail[i].0 != tail[j].0 by {
            assert(tail[i] == ns[i + 1]);
            assert(tail[j] == ns[j + 1]);
        }
        lemma_store_note_unique(tail, uid, val);
        let stt = store_note(tail, uid, val);
        assert(st =~= seq![ns[0]] + stt);
        assert forall|k: int| 0 <= k < st.len() implies (#[trigger] st[k].0 == uid || exists|w: int|
            0 <= w < ns.len() && ns[w].0 == st[k].0) by {
            if k == 0 {
                assert(st[0] == ns[0]);
                assert(ns[0].0 == st[0].0);
            } else {
                assert(st[k] == stt[k - 1]);
                if stt[k - 1].0 != uid {
                    let w = choose|w: int| 0 <= w < tail.len() && tail[w].0 == stt[k - 1].0;
                    assert(ns[w + 1].0 == st[k].0);
                }
            }
        }
        assert forall|i: int, j: int| 0 <= i < j < st.len() implies st[i].0 != st[j].0 by {
            if i == 0 {
                assert(st[j] == stt[j - 1]);
                if stt[j - 1].0 == uid {
                    assert(ns[0].0 != uid);
                } else {
                    let w = choose|w: int| 0 <= w < tail.len() && tail[w].0 == stt[j - 1].0;
                    assert(ns[0].0 != ns[w + 1].0);
                }
            } else {
                assert(st[i] == stt[i - 1]);
                assert(st[j] == stt[j - 1]);
            }
        }
    }
}

/// Replace the caller's stored notes, or append them if absent.
pub(crate) fn store_note_exec(
    notes: &mut Vec<(UserId, Vec<(CountryCode, Vec<String>)>)>,
    user_id: &UserId,
    val: Vec<(CountryCode, Vec<String>)>,
)
    ensures
        notes_view(final(notes)@) == store_note(notes_view(old(notes)@), user_id@, entries_view(val@)),
{
    let ghost nv = notes_view(notes@);
    let ghost vv = entries_view(val@);
    let mut i: usize = 0;
    while i < notes.len()
        invariant
            0 <= i <= notes@.len(),
            notes@ == old(notes)@,
            nv == notes_view(notes@),
            nv.len() == notes@.len(),
            vv == entries_view(val@),
            forall|q: int| 0 <= q < i ==> nv[q].0 != user_id@,
        decreases notes@.len() - i,
    {
        let entry = &notes[i];
        let hit = entry.0 == *user_id;
        if hit {
            proof {
                lemma_store_prefix(nv, user_id@, vv, i as int);
                assert(nv.skip(i as int)[0] == nv[i as int]);
                assert(store_note(nv.skip(i as int), user_id@, vv) == seq![(user_id@, vv)]
                    + nv.skip(i as int).drop_first());
                assert(nv.skip(i as int).drop_first() =~= nv.skip(i + 1));
            }
            let new_entry = (user_id.clone(), val);
            let ghost nev = (new_entry.0@, entries_view(new_entry.1@));
            proof {
                assert(nev == (user_id@, vv));
            }
            notes.set(i, new_entry);
            proof {
                let newv = notes_view(notes@);
                let target = store_note(nv, user_id@, vv);
                assert(target == nv.take(i as int) + (seq![(user_id@, vv)] + nv.skip(i + 1)));
                assert forall|k: int| 0 <= k < newv.len() implies newv[k] == target[k] by {
                    if k < i {
                        assert(notes@[k] == old(notes)@[k]);
                        assert(target[k] == nv.take(i as int)[k]);
                    } else if k == i {
                        assert(newv[k] == nev);
                        assert(target[k] == (seq![(user_id@, vv)] + nv.skip(i + 1))[0]);
                    } else {
                        assert(notes@[k] == old(notes)@[k]);
                        assert(target[k] == (seq![(user_id@, vv)] + nv.skip(i + 1))[k - i]);
                        assert(nv.skip(i + 1)[k - i - 1] == nv[k]);
                    }
                }
                assert(newv =~= target);
            }
            return ;
        }
        i += 1;
    }
    proof {
        lemma_store_prefix(nv, user_id@, vv, nv.len() as int);
        assert(nv.skip(nv.len() as int) =~= Seq::<(Seq<char>, Seq<(Seq<char>, Seq<Seq<char>>)>)>::empty());
        assert(nv.take(nv.len() as int) =~= nv);
    }
    notes.push((user_id.clone(), val));
    proof {
        let newv = notes_view(notes@);
        let target = store_note(nv, user_id@, vv);
        assert(target == nv + seq![(user_id@, vv)]);
        assert forall|k: int| 0 <= k < newv.len() implies newv[k] == target[k] by {
            if k < nv.len() {
                assert(notes@[k] == old(notes)@[k]);
            } else {
                assert(newv[k] == (user_id@, vv));
            }
        }
        assert(newv =~= target);
    }
}

/// A word count over a prefix never exceeds the whole.
proof fn lemma_count_take_le(m: Seq<(Seq<char>, Seq<Seq<char>>)>, k: int)
    requires
        0 <= k <= m.len(),
    ensures
        notes_word_count(m.take(k)) <= notes_word_count(m),
    decreases m.len() - k,
{
    if k == m.len() {
        assert(m.take(k) =~= m);
    } else {
        assert(m.take(k + 1).drop_last() =~= m.take(k));
        assert(m.take(k + 1).last() == m[k]);
        lemma_count_take_le(m, k + 1);
    }
}

/// Total word count of a submission.
fn count_note_words(m: &Vec<(CountryCode, Vec<String>)>) -> (r: usize)
    requires
        notes_word_count(entries_view(m@)) <= usize::MAX,
    ensures
        r == notes_word_count(entries_view(m@)),
{
    let ghost ev = entries_view(m@);
    let mut total: usize = 0;
    let mut i: usize = 0;
    proof {
        assert(ev.take(0) =~= Seq::<(Seq<char>, Seq<Seq<char>>)>::empty());
    }
    while i < m.len()
        invariant
            0 <= i <= m@.len(),
            ev == entries_view(m@),
            ev.len() == m@.len(),
            notes_word_count(ev) <= usize::MAX,
            total == notes_word_count(ev.take(i as int)),
        decreases m@.len() - i,
    {
        proof {
            assert(ev.take(i + 1).drop_last() =~= ev.take(i as int));
            assert(ev.take(i + 1).last() == ev[i as int]);
            assert(notes_word_count(ev.take(i + 1)) == notes_word_count(ev.take(i as int))
                + ev[i as int].1.len());
            assert(ev[i as int].1.len() == m@[i as int].1@.len());
            lemma_count_take_le(ev, i + 1);
            assert(total + m@[i as int].1@.len() <= usize::MAX);
        }
        let entry = &m[i];
        total += entry.1.len();
        i += 1;
    }
    proof {
        assert(ev.take(ev.len() as int) =~= ev);
    }
    total
}

/// Build the note-submission notification text.
fn notes_notification_exec(user_id: &UserId, countries: usize, words: usize) -> (n: Notification)
    ensures
        n@ == notes_notification(user_id@, countries as nat, words as nat),
{
    let mut out = str_to_chars(user_id.as_str());
    extend_str(&mut out, " shared exploration notes (");
    let cd = format_usize(countries);
    extend_chars(&mut out, &cd);
    extend_str(&mut out, " ");
    if countries == 1 {
        extend_str(&mut out, "country");
    } else {
        extend_str(&mut out, "countries");
    }
    extend_str(&mut out, ", ");
    let wd = format_usize(words);
    extend_chars(&mut out, &wd);
    extend_str(&mut out, " ");
    if words == 1 {
        extend_str(&mut out, "word");
    } else {
        extend_str(&mut out, "words");
    }
    extend_str(&mut out, ")");
    Notification { message: chars_to_string(&out) }
}

/// Build the departure notification text.
fn leave_notification_exec(user_id: &UserId) -> (n: Notification)
    ensures
        n@ == leave_notification(user_id@),
{
    let mut out = str_to_chars(user_id.as_str());
    extend_str(&mut out, " left the room");
    Notification { message: chars_to_string(&out) }
}

/// Build the join notification text.
pub(crate) fn join_notification_exec(user_id: &UserId) -> (n: Notification)
    ensures
        n@ == join_notification(user_id@),
{
    let mut out = str_to_chars(user_id.as_str());
    extend_str(&mut out, " joined the room");
    Notification { message: chars_to_string(&out) }
}

/// View of a participant list.
pub open spec fn parts_view(ps: Seq<Participant>) -> Seq<ParticipantView> {
    ps.map_values(|p: Participant| p@)
}

/// View of a message log.
pub open spec fn msgs_view(ms: Seq<Message>) -> Seq<MessageView> {
    ms.map_values(|m: Message| m@)
}

/// View of the per-player note store.
pub open spec fn notes_view(ns: Seq<(UserId, Vec<(CountryCode, Vec<String>)>)>) -> Seq<
    (Seq<char>, Seq<(Seq<char>, Seq<Seq<char>>)>),
> {
    ns.map_values(|p: (UserId, Vec<(CountryCode, Vec<String>)>)| (p.0@, entries_view(p.1@)))
}

/// Some participant has this user id.
pub open spec fn has_user(ps: Seq<ParticipantView>, uid: Seq<char>) -> bool {
    exists|i: int| 0 <= i < ps.len() && ps[i].user_id == uid
}

/// Participant user ids are pairwise distinct.
pub open spec fn users_unique(ps: Seq<ParticipantView>) -> bool {
    forall|i: int, j: int| 0 <= i < j < ps.len() ==> ps[i].user_id != ps[j].user_id
}

/// Note-store keys are pairwise distinct.
pub open spec fn note_keys_unique(ns: Seq<(Seq<char>, Seq<(Seq<char>, Seq<Seq<char>>)>)>) -> bool {
    forall|i: int, j: int| 0 <= i < j < ns.len() ==> ns[i].0 != ns[j].0
}

/// The instructions message that seeds every new room.
pub open spec fn game_instructions() -> Seq<char> {
    "Welcome to Project Babel! You are trying to communicate across a censorship firewall. Each country has different words that are banned. Work together to discover which words are censored for each country using the allowed symbols. Good luck!"@
}

/// The default country codes a room draws banned words for.
pub open spec fn default_countries() -> Seq<Seq<char>> {
    seq!["A"@, "B"@, "C"@, "D"@]
}

/// A base table with each drawn banned-word entry inserted in turn.
pub open spec fn merge_entries(
    base: Seq<(Seq<char>, Seq<Seq<char>>)>,
    bm: Seq<(Seq<char>, Seq<Seq<char>>)>,
) -> Seq<(Seq<char>, Seq<Seq<char>>)>
    decreases bm.len(),
{
    if bm.len() == 0 {
        base
    } else {
        store_entry(merge_entries(base, bm.drop_last()), bm.last().0, bm.last().1)
    }
}

/// View of a censored message list.
pub open spec fn cmsgs_view(ms: Seq<CensoredMessage>) -> Seq<crate::data::CensoredMessageView> {
    ms.map_values(|m: CensoredMessage| m@)
}

/// What a viewer from `viewer` sees of one message, and whether it was
/// censored. Precedence: system messages pass unchanged; with shadow mode,
/// so does a message read from its sender's own country; otherwise the
/// sender country's banned words apply if sender-side censorship is on and
/// the country is not exempt, and likewise the viewer country's.
pub open spec fn censor_decision(m: RoomModel, msg: MessageView, viewer: Seq<char>) -> (
    Seq<char>,
    bool,
) {
    censor_view(m.config, m.sender_censor, m.receiver_censor, m.shadow_ban, m.allowed, msg, viewer)
}

/// The whole log as one viewer sees it.
pub open spec fn censored_log(m: RoomModel, viewer: Seq<char>) -> Seq<
    crate::data::CensoredMessageView,
> {
    Seq::new(
        m.messages.len(),
        |i: int|
            crate::data::CensoredMessageView {
                id: m.messages[i].id,
                sender_id: m.messages[i].sender_id,
                content: censor_decision(m, m.messages[i], viewer).0,
                was_censored: censor_decision(m, m.messages[i], viewer).1,
            },
    )
}

/// Whether the list holds this string.
pub fn contains_string(v: &Vec<String>, s: &String) -> (r: bool)
    ensures
        r == words_view(v@).contains(s@),
{
    let ghost wv = words_view(v@);
    let mut i: usize = 0;
    while i < v.len()
        invariant
            0 <= i <= v@.len(),
            wv == words_view(v@),
            wv.len() == v@.len(),
            forall|k: int| 0 <= k < i ==> wv[k] != s@,
        decreases v@.len() - i,
    {
        let w = &v[i];
        if *w == *s {
            proof {
                assert(wv[i as int] == s@);
            }
            return true;
        }
        i += 1;
    }
    proof {
        assert(!wv.contains(s@));
    }
    false
}

/// `post` is `pre` with one participant of the given identity appended (at
/// some join time) and nothing else changed.
pub open spec fn joined_model(pre: RoomModel, post: RoomModel, uid: Seq<char>, ctry: Seq<char>) -> bool {
    &&& post.participants.len() == pre.participants.len() + 1
    &&& post.participants.drop_last() == pre.participants
    &&& post.participants.last().user_id == uid
    &&& post.participants.last().country == ctry
    &&& post == (RoomModel { participants: post.participants, ..pre })
}

/// The whole room at the spec level.
pub ghost struct RoomModel {
    pub room_id: Seq<char>,
    pub config: Seq<(Seq<char>, Seq<Seq<char>>)>,
    pub participants: Seq<ParticipantView>,
    pub messages: Seq<MessageView>,
    pub message_counter: u64,
    pub allowed_words: Seq<Seq<char>>,
    pub sender_censor: bool,
    pub receiver_censor: bool,
    pub shadow_ban: bool,
    pub allowed: Seq<Seq<char>>,
    pub player_notes: Seq<(Seq<char>, Seq<(Seq<char>, Seq<Seq<char>>)>)>,
    pub victory_achieved: bool,
    pub victory_timestamp: Option<Timestamp>,
}

/// A chat room with country-based censorship.
///
/// Censorship is controlled by three flags: `sender_censor` applies the
/// sender country's banned words, `receiver_censor` the viewer country's,
/// and `shadow_ban` shows senders their own country's view uncensored.
pub struct ChatRoom {
    pub room_id: RoomId,
    pub config: FilterConfig,
    pub participants: Vec<Participant>,
    pub messages: Vec<Message>,
    pub message_counter: u64,
    pub filter: CensorshipFilter,
    pub allowed_words: Vec<String>,
    pub sender_censor: bool,
    pub receiver_censor: bool,
    pub shadow_ban: bool,
    /// Countries exempt from censorship.
    pub allowed: Vec<CountryCode>,
    pub player_notes: Vec<(UserId, Vec<(CountryCode, Vec<String>)>)>,
    /// Whether victory has been achieved; never reverts.
    pub victory_achieved: bool,
    /// When victory was first achieved.
    pub victory_timestamp: Option<Timestamp>,
}

impl View for ChatRoom {
    type V = RoomModel;

    open spec fn view(&self) -> RoomModel {
        RoomModel {
            room_id: self.room_id@,
            config: self.config@,
            participants: parts_view(self.participants@),
            messages: msgs_view(self.messages@),
            message_counter: self.message_counter,
            allowed_words: words_view(self.allowed_words@),
            sender_censor: self.sender_censor,
            receiver_censor: self.receiver_censor,
            shadow_ban: self.shadow_ban,
            allowed: words_view(self.allowed@),
            player_notes: notes_view(self.player_notes@),
            victory_achieved: self.victory_achieved,
            victory_timestamp: self.victory_timestamp,
        }
    }
}

impl ChatRoom {
    /// Room invariant: message ids strictly increase and never exceed the
    /// counter, participants and note keys are unique, and the filter works
    /// on this room's own configuration.
    pub open spec fn wf(&self) -> bool {
        &&& forall|i: int, j: int|
            0 <= i < j < self@.messages.len() ==> self@.messages[i].id < self@.messages[j].id
        &&& forall|i: int|
            0 <= i < self@.messages.len() ==> #[trigger] self@.messages[i].id
                <= self@.message_counter
        &&& users_unique(self@.participants)
        &&& note_keys_unique(self@.player_notes)
        &&& keys_unique(self@.config)
        &&& self.filter.config@ == self@.config
        &&& self@.victory_achieved ==> self@.victory_timestamp is Some
    }

    /// Build a new room over a base configuration: draw the vocabulary and
    /// the room-local banned words from the given material, merge the draws
    /// into the configuration, and seed the log with the instructions
    /// message. Censorship starts in receiver-side mode with shadow mode on.
    pub fn new(room_id: RoomId, config: &FilterConfig, words: &Words) -> (r: ChatRoom)
        requires
            config.wf(),
            forall|g: int| 0 <= g < words@.censored.len() ==> words@.censored[g].len() > 0,
            4 <= words@.censored.len(),
        ensures
            r.wf(),
            r@.room_id == room_id@,
            r@.participants.len() == 0,
            r@.player_notes.len() == 0,
            r@.message_counter == 1,
            r@.messages.len() == 1,
            r@.messages[0].id == 1,
            r@.messages[0].sender_id == "SYSTEM"@,
            r@.messages[0].sender_country.len() == 0,
            r@.messages[0].content == game_instructions(),
            !r@.sender_censor,
            r@.receiver_censor,
            r@.shadow_ban,
            r@.allowed.len() == 0,
            !r@.victory_achieved,
            r@.victory_timestamp is None,
            exists|bm: Seq<(Seq<char>, Seq<Seq<char>>)>|
                #[trigger] generated_words(words@, default_countries(), r@.allowed_words, bm)
                    && r@.config == merge_entries(config@, bm),
    {
        let mut country_codes: Vec<CountryCode> = Vec::new();
        country_codes.push(String::from_str("A"));
        country_codes.push(String::from_str("B"));
        country_codes.push(String::from_str("C"));
        country_codes.push(String::from_str("D"));
        proof {
            assert(words_view(country_codes@) =~= default_countries());
            assert(banned_country_count(words_view(country_codes@)) == 4);
        }
        let generated = generate_allowed_and_banned_words(words, &country_codes);
        let allowed_words = generated.0;
        let banned_map = generated.1;
        let ghost bmv = entries_view(banned_map@);
        let mut cfg = config.duplicate();
        let mut i: usize = 0;
        proof {
            assert(bmv.take(0) =~= Seq::<(Seq<char>, Seq<Seq<char>>)>::empty());
        }
        while i < banned_map.len()
            invariant
                0 <= i <= banned_map@.len(),
                bmv == entries_view(banned_map@),
                bmv.len() == banned_map@.len(),
                cfg.wf(),
                cfg@ == merge_entries(config@, bmv.take(i as int)),
            decreases banned_map@.len() - i,
        {
            let entry = &banned_map[i];
            proof {
                assert(bmv.take(i + 1).drop_last() =~= bmv.take(i as int));
                assert(bmv.take(i + 1).last() == bmv[i as int]);
            }
            let key = entry.0.clone();
            let ws = copy_words(&entry.1);
            proof {
                assert(key@ == bmv[i as int].0);
                assert(words_view(ws@) == bmv[i as int].1);
            }
            cfg.insert(key, ws);
            i += 1;
        }
        proof {
            assert(bmv.take(bmv.len() as int) =~= bmv);
        }
        let ts = Self::current_timestamp();
        let system_msg = Message {
            id: 1,
            sender_id: String::from_str("SYSTEM"),
            sender_country: String::new(),
            content: String::from_str(
                "Welcome to Project Babel! You are trying to communicate across a censorship firewall. Each country has different words that are banned. Work together to discover which words are censored for each country using the allowed symbols. Good luck!",
            ),
            timestamp: ts,
        };
        let mut messages: Vec<Message> = Vec::new();
        messages.push(system_msg);
        let filter = CensorshipFilter::new(&cfg);
        let r = ChatRoom {
            room_id,
            config: cfg,
            participants: Vec::new(),
            messages,
            message_counter: 1,
            filter,
            allowed_words,
            sender_censor: false,
            receiver_censor: true,
            shadow_ban: true,
            allowed: Vec::new(),
            player_notes: Vec::new(),
            victory_achieved: false,
            victory_timestamp: None,
        };
        proof {
            assert(r@.participants.len() == 0);
            assert(r@.player_notes.len() == 0);
            assert(r@.messages.len() == 1);
            assert(r@.messages[0].sender_id == "SYSTEM"@);
            assert(generated_words(words@, default_countries(), r@.allowed_words, bmv));
            assert(r@.config == merge_entries(config@, bmv));
        }
        r
    }

    /// A bare room for exercising the engine: no seeded message, counter at
    /// zero, and the given vocabulary. Flags start as in `new`.
    pub fn new_for_test(room_id: RoomId, config: &FilterConfig, allowed_words: Vec<String>) -> (r:
        ChatRoom)
        requires
            config.wf(),
        ensures
            r.wf(),
            r@.room_id == room_id@,
            r@.config == config@,
            r@.participants.len() == 0,
            r@.messages.len() == 0,
            r@.message_counter == 0,
            r@.allowed_words == words_view(allowed_words@),
            !r@.sender_censor,
            r@.receiver_censor,
            r@.shadow_ban,
            r@.allowed.len() == 0,
            r@.player_notes.len() == 0,
            !r@.victory_achieved,
            r@.victory_timestamp is None,
    {
        let filter = CensorshipFilter::new(config);
        ChatRoom {
            room_id,
            config: config.duplicate(),
            participants: Vec::new(),
            messages: Vec::new(),
            message_counter: 0,
            filter,
            allowed_words,
            sender_censor: false,
            receiver_censor: true,
            shadow_ban: true,
            allowed: Vec::new(),
            player_notes: Vec::new(),
            victory_achieved: false,
            victory_timestamp: None,
        }
    }

    /// Relies on `std::time::SystemTime::now`: seconds since the Unix epoch,
    /// zero if the clock reads before it.
    #[verifier::external_body]
    pub fn current_timestamp() -> u64 {
        std::time::SystemTime::now()
            .duration_since(std::time::UNIX_EPOCH)
            .unwrap_or_default()
            .as_secs()
    }

    pub fn is_empty(&self) -> (r: bool)
        ensures
            r == (self@.participants.len() == 0),
    {
        self.participants.len() == 0
    }

    pub fn room_id(&self) -> (r: &RoomId)
        ensures
            r@ == self@.room_id,
    {
        &self.room_id
    }

    pub fn participants(&self) -> (r: &Vec<Participant>)
        ensures
            parts_view(r@) == self@.participants,
    {
        &self.participants
    }

    pub fn get_player_notes(&self) -> (r: &Vec<(UserId, Vec<(CountryCode, Vec<String>)>)>)
        ensures
            notes_view(r@) == self@.player_notes,
    {
        &self.player_notes
    }

    /// Whether some participant has this user id.
    pub fn has_participant(&self, user_id: &UserId) -> (r: bool)
        ensures
            r == has_user(self@.participants, user_id@),
    {
        let mut i: usize = 0;
        while i < self.participants.len()
            invariant
                0 <= i <= self.participants@.len(),
                forall|q: int| 0 <= q < i ==> parts_view(self.participants@)[q].user_id != user_id@,
            decreases self.participants@.len() - i,
        {
            let p = &self.participants[i];
            if p.user_id == *user_id {
                proof {
                    assert(parts_view(self.participants@)[i as int].user_id == user_id@);
                }
                return true;
            }
            i += 1;
        }
        false
    }

    /// Add a participant on first contact. Re-adding an existing user id is
    /// a no-op that reports `false`.
    pub fn add_participant(&mut self, user_id: UserId, country: CountryCode) -> (r: bool)
        requires
            old(self).wf(),
        ensures
            final(self).wf(),
            r == !has_user(old(self)@.participants, user_id@),
            r ==> joined_model(old(self)@, final(self)@, user_id@, country@),
            !r ==> final(self)@ == old(self)@,
    {
        if self.has_participant(&user_id) {
            return false;
        }
        let ts = Self::current_timestamp();
        let p = Participant { user_id, country, joined_at: ts };
        let ghost pv = p@;
        self.participants.push(p);
        proof {
            let newps = parts_view(self.participants@);
            let oldps = parts_view(old(self).participants@);
            assert forall|k: int| 0 <= k < newps.len() implies newps[k] == oldps.push(pv)[k] by {
                if k < oldps.len() {
                    assert(self.participants@[k] == old(self).participants@[k]);
                }
            }
            assert(newps =~= oldps.push(pv));
            assert(final(self)@ == (RoomModel {
                participants: old(self)@.participants.push(pv),
                ..old(self)@
            }));
            assert(newps.drop_last() =~= oldps);
            assert forall|i: int, j: int| 0 <= i < j < newps.len() implies newps[i].user_id
                != newps[j].user_id by {
                if j == newps.len() - 1 {
                    assert(!has_user(oldps, user_id@));
                    assert(oldps[i].user_id != user_id@);
                }
            }
        }
        true
    }

    /// Remove the participant with this user id, if present. Reports whether
    /// a removal happened.
    pub fn remove_participant(&mut self, user_id: &UserId) -> (r: bool)
        requires
            old(self).wf(),
        ensures
            final(self).wf(),
            r == has_user(old(self)@.participants, user_id@),
            final(self)@ == (RoomModel {
                participants: old(self)@.participants.filter(
                    |p: ParticipantView| p.user_id != user_id@,
                ),
                ..old(self)@
            }),
    {
        let ghost pv0 = parts_view(self.participants@);
        let mut kept: Vec<Participant> = Vec::new();
        let mut removed = false;
        let mut i: usize = 0;
        while i < self.participants.len()
            invariant
                0 <= i <= self.participants@.len(),
                pv0 == parts_view(self.participants@),
                parts_view(kept@) == pv0.take(i as int).filter(
                    |p: ParticipantView| p.user_id != user_id@,
                ),
                removed == has_user(pv0.take(i as int), user_id@),
                self.participants@.len() == pv0.len(),
            decreases self.participants@.len() - i,
        {
            let ghost prefix = pv0.take(i as int);
            let p = &self.participants[i];
            let ghost pvi = pv0[i as int];
            proof {
                assert(pv0.take(i + 1).drop_last() =~= prefix);
                assert(pv0.take(i + 1).last() == pvi);
                reveal_with_fuel(Seq::filter, 2);
            }
            if p.user_id == *user_id {
                removed = true;
                proof {
                    assert(pvi.user_id == user_id@);
                    assert(has_user(pv0.take(i + 1), user_id@));
                    assert(pv0.take(i + 1).filter(|q: ParticipantView| q.user_id != user_id@)
                        =~= prefix.filter(|q: ParticipantView| q.user_id != user_id@));
                }
            } else {
                let p2 = Participant {
                    user_id: p.user_id.clone(),
                    country: p.country.clone(),
                    joined_at: p.joined_at,
                };
                let ghost k0 = parts_view(kept@);
                kept.push(p2);
                proof {
                    assert(parts_view(kept@) =~= k0.push(pvi));
                    assert(pv0.take(i + 1).filter(|q: ParticipantView| q.user_id != user_id@)
                        =~= prefix.filter(|q: ParticipantView| q.user_id != user_id@).push(pvi));
                    if has_user(pv0.take(i + 1), user_id@) {
                        let w = choose|w: int|
                            0 <= w < pv0.take(i + 1).len() && #[trigger] pv0.take(
                                i + 1,
                            )[w].user_id == user_id@;
                        assert(pv0.take(i as int)[w] == pv0.take(i + 1)[w]);
                    }
                }
            }
            i += 1;
        }
        proof {
            assert(pv0.take(pv0.len() as int) =~= pv0);
        }
        self.participants = kept;
        proof {
            assert(final(self)@ == (RoomModel {
                participants: old(self)@.participants.filter(
                    |p: ParticipantView| p.user_id != user_id@,
                ),
                ..old(self)@
            }));
            lemma_filter_users_unique(pv0, user_id@);
        }
        removed
    }

    /// Append a message holding the given tokens restricted to the allowed
    /// vocabulary, if any text survives.
    fn send_filtered(&mut self, user_id: &UserId, country: &CountryCode, tokens: Vec<Vec<char>>) -> (r: (
        Option<Message>,
        Vec<Notification>,
    ))
        requires
            old(self).wf(),
            old(self).message_counter < u64::MAX,
        ensures
            final(self).wf(),
            send_rel(
                old(self)@,
                final(self)@,
                user_id@,
                country@,
                charvecs_view(tokens@),
                opt_msg_view(r.0),
                notifs_view(r.1@),
            ),
    {
        let filtered = filter_tokens(&tokens, &self.allowed_words);
        let joined = join_tokens(&filtered);
        let notifs: Vec<Notification> = Vec::new();
        proof {
            assert(notifs_view(notifs@) =~= Seq::<Seq<char>>::empty());
        }
        if joined.len() == 0 {
            return (None, notifs);
        }
        self.message_counter = self.message_counter + 1;
        let ts = Self::current_timestamp();
        let content = chars_to_string(&joined);
        let msg = Message {
            id: self.message_counter,
            sender_id: user_id.clone(),
            sender_country: country.clone(),
            content,
            timestamp: ts,
        };
        let stored = Message {
            id: msg.id,
            sender_id: msg.sender_id.clone(),
            sender_country: msg.sender_country.clone(),
            content: msg.content.clone(),
            timestamp: msg.timestamp,
        };
        let ghost mv = msg@;
        proof {
            assert(stored@ == mv);
        }
        self.messages.push(stored);
        proof {
            let oldm = msgs_view(old(self).messages@);
            let newm = msgs_view(self.messages@);
            assert forall|k: int| 0 <= k < newm.len() implies newm[k] == oldm.push(mv)[k] by {
                if k < oldm.len() {
                    assert(self.messages@[k] == old(self).messages@[k]);
                }
            }
            assert(newm =~= oldm.push(mv));
            assert(self@ == (RoomModel {
                messages: old(self)@.messages.push(mv),
                message_counter: (old(self)@.message_counter + 1) as u64,
                ..old(self)@
            }));
            assert forall|i: int, j: int| 0 <= i < j < newm.len() implies newm[i].id
                < newm[j].id by {
                if j == newm.len() - 1 {
                    assert(oldm[i].id <= old(self)@.message_counter);
                }
            }
            assert forall|i: int| 0 <= i < newm.len() implies #[trigger] newm[i].id
                <= self@.message_counter by {
                if i < oldm.len() {
                    assert(oldm[i].id <= old(self)@.message_counter);
                }
            }
        }
        (Some(msg), notifs)
    }

    /// Process one action from a participant: the transition function of the
    /// room. Produces the appended message, if any, and the notifications to
    /// broadcast.
    pub fn process_action(
        &mut self,
        user_id: &UserId,
        country: &CountryCode,
        action: UserAction,
    ) -> (r: (Option<Message>, Vec<Notification>))
        requires
            old(self).wf(),
            old(self).message_counter < u64::MAX,
            (action matches UserAction::SubmitNotes(nm) ==> notes_word_count(entries_view(nm@))
                <= usize::MAX),
        ensures
            final(self).wf(),
            action_rel(
                old(self)@,
                final(self)@,
                user_id@,
                country@,
                action@,
                opt_msg_view(r.0),
                notifs_view(r.1@),
            ),
    {
        match action {
            UserAction::SendMessage(content) => {
                let cs = str_to_chars(content.as_str());
                let tokens = tokenize(&cs);
                self.send_filtered(user_id, country, tokens)
            },
            UserAction::SendMessageArray(words) => {
                let tokens = convert_words(&words);
                self.send_filtered(user_id, country, tokens)
            },
            UserAction::SubmitNotes(note_map) => {
                let ghost submitted = entries_view(note_map@);
                let countries = note_map.len();
                let total = count_note_words(&note_map);
                let n = notes_notification_exec(user_id, countries, total);
                proof {
                    lemma_store_note_unique(old(self)@.player_notes, user_id@, submitted);
                }
                store_note_exec(&mut self.player_notes, user_id, note_map);
                let mut notifs: Vec<Notification> = Vec::new();
                notifs.push(n);
                proof {
                    assert(self@ == (RoomModel {
                        player_notes: store_note(old(self)@.player_notes, user_id@, submitted),
                        ..old(self)@
                    }));
                    assert(notifs_view(notifs@) =~= seq![n@]);
                }
                (None, notifs)
            },
            UserAction::LeaveRoom => {
                let removed = self.remove_participant(user_id);
                let mut notifs: Vec<Notification> = Vec::new();
                if removed {
                    let n = leave_notification_exec(user_id);
                    notifs.push(n);
                    proof {
                        assert(notifs_view(notifs@) =~= seq![leave_notification(user_id@)]);
                    }
                } else {
                    proof {
                        assert(notifs_view(notifs@) =~= Seq::<Seq<char>>::empty());
                    }
                }
                (None, notifs)
            },
        }
    }

    /// One cycle of the room's owning task: process a drained batch of
    /// queued actions in receipt order, joining unseen senders first;
    /// recompute every participant's progress and the monotonic victory
    /// state against the post-batch population; and assemble the broadcast
    /// snapshot, victory state included. The room is marked closed exactly
    /// when nobody is left and the batch produced at least one message.
    pub fn process_actions(&mut self, batch: &Vec<UserMessage>) -> (r: RoomUpdate)
        requires
            old(self).wf(),
            old(self).message_counter + batch@.len() <= u64::MAX,
            forall|k: int| 0 <= k < batch@.len() ==> action_fits(#[trigger] batch@[k].action),
        ensures
            final(self).wf(),
            batch_rel(
                old(self)@,
                ums_view(batch@),
                (RoomModel {
                    victory_achieved: old(self)@.victory_achieved,
                    victory_timestamp: old(self)@.victory_timestamp,
                    ..final(self)@
                }),
                msgs_view(r.new_messages@),
                notifs_view(r.notifications@),
            ),
            r.room_closed == (final(self)@.participants.len() == 0 && r.new_messages@.len() > 0),
            r.room_state.room_id@ == final(self)@.room_id,
            parts_view(r.room_state.participants@) == final(self)@.participants,
            cmsgs_view(r.room_state.recent_messages@) == censored_log(final(self)@, ""@),
            ({
                let m = final(self)@;
                m.victory_achieved == (old(self)@.victory_achieved || (m.participants.len() > 0
                    && crate::game::all_completed_at(m.config, m.player_notes, m.participants)))
            }),
            old(self)@.victory_achieved ==> final(self)@.victory_timestamp == old(self)@.victory_timestamp,
            r.victory matches Some(v) && v.achieved == final(self)@.victory_achieved
                && v.unlocked_at == final(self)@.victory_timestamp && v.player_progress@.len()
                == final(self)@.participants.len() && (forall|k: int|
                0 <= k < v.player_progress@.len()
                    ==> #[trigger] crate::game::progress_view(v.player_progress@)[k]
                    == crate::game::progress_entry_at(
                    final(self)@.config,
                    final(self)@.player_notes,
                    final(self)@.participants,
                    k,
                )),
    {
        let ghost umv = ums_view(batch@);
        let ghost pre = old(self)@;
        let mut new_messages: Vec<Message> = Vec::new();
        let mut notifications: Vec<Notification> = Vec::new();
        let mut i: usize = 0;
        proof {
            assert(umv.take(0) =~= Seq::<UserMessageView>::empty());
            assert(msgs_view(new_messages@) =~= Seq::<MessageView>::empty());
            assert(notifs_view(notifications@) =~= Seq::<Seq<char>>::empty());
        }
        while i < batch.len()
            invariant
                0 <= i <= batch@.len(),
                self.wf(),
                pre == old(self)@,
                umv == ums_view(batch@),
                umv.len() == batch@.len(),
                pre.message_counter + batch@.len() <= u64::MAX,
                self@.message_counter <= pre.message_counter + i,
                self@.victory_achieved == pre.victory_achieved,
                self@.victory_timestamp == pre.victory_timestamp,
                forall|k: int| 0 <= k < batch@.len() ==> action_fits(#[trigger] batch@[k].action),
                batch_rel(
                    pre,
                    umv.take(i as int),
                    self@,
                    msgs_view(new_messages@),
                    notifs_view(notifications@),
                ),
            decreases batch@.len() - i,
        {
            let ghost s_pre = self@;
            let ghost msgs0 = msgs_view(new_messages@);
            let ghost notifs0 = notifs_view(notifications@);
            let um = &batch[i];
            proof {
                assert(umv[i as int] == um@);
            }
            let action = copy_action(&um.action);
            let joined = !self.has_participant(&um.user_id);
            let ghost n_join: Seq<Seq<char>> = if joined {
                seq![join_notification(um.user_id@)]
            } else {
                Seq::empty()
            };
            if joined {
                let added = self.add_participant(um.user_id.clone(), um.country.clone());
                let jn = join_notification_exec(&um.user_id);
                let ghost nf0 = notifs_view(notifications@);
                notifications.push(jn);
                proof {
                    assert(notifs_view(notifications@) =~= nf0.push(join_notification(
                        um.user_id@,
                    )));
                }
            }
            let ghost s_mid = self@;
            let res = self.process_action(&um.user_id, &um.country, action);
            let produced = res.0;
            let action_notifs = res.1;
            push_all_notifs(&mut notifications, &action_notifs);
            let ghost m0 = opt_msg_view(produced);
            let ghost n_act = notifs_view(action_notifs@);
            match produced {
                Some(m) => {
                    let ghost nm0 = msgs_view(new_messages@);
                    let ghost mv = m@;
                    new_messages.push(m);
                    proof {
                        assert(msgs_view(new_messages@) =~= nm0.push(mv));
                        assert(msgs_view(new_messages@) =~= msgs0 + opt_seq(Some(mv)));
                    }
                },
                None => {
                    proof {
                        assert(msgs_view(new_messages@) =~= msgs0 + opt_seq(m0));
                    }
                },
            }
            proof {
                let step_notifs = n_join + n_act;
                assert(notifs_view(notifications@) =~= notifs0 + step_notifs);
                if !has_user(s_pre.participants, um.user_id@) {
                    assert(step_notifs[0] == join_notification(um.user_id@));
                    assert(step_notifs.drop_first() =~= n_act);
                    assert(joined_model(s_pre, s_mid, umv[i as int].user_id, umv[i as int].country));
                    assert(action_rel(
                        s_mid,
                        self@,
                        umv[i as int].user_id,
                        umv[i as int].country,
                        umv[i as int].action,
                        m0,
                        step_notifs.drop_first(),
                    ));
                    assert(batch_step_rel(s_pre, umv[i as int], self@, m0, step_notifs));
                } else {
                    assert(s_mid == s_pre);
                    assert(step_notifs =~= n_act);
                    assert(batch_step_rel(s_pre, umv[i as int], self@, m0, step_notifs));
                }
                lemma_batch_rel_snoc(
                    pre,
                    umv.take(i as int),
                    s_pre,
                    msgs0,
                    notifs0,
                    umv[i as int],
                    self@,
                    m0,
                    step_notifs,
                );
                assert(umv.take(i as int).push(umv[i as int]) =~= umv.take(i + 1));
            }
            i += 1;
        }
        proof {
            assert(umv.take(umv.len() as int) =~= umv);
        }
        let ghost mid = self@;
        let progress = crate::game::compute_player_progress(
            &self.config,
            &self.player_notes,
            &self.participants,
        );
        let mut all = true;
        let mut k: usize = 0;
        while k < progress.len()
            invariant
                0 <= k <= progress@.len(),
                mid == self@,
                self.wf(),
                self@.victory_achieved == pre.victory_achieved,
                self@.victory_timestamp == pre.victory_timestamp,
                progress@.len() == self.participants@.len(),
                forall|q: int|
                    0 <= q < progress@.len()
                        ==> #[trigger] crate::game::progress_view(progress@)[q]
                        == crate::game::progress_entry_at(
                        self@.config,
                        self@.player_notes,
                        self@.participants,
                        q,
                    ),
                all == (forall|q: int|
                    0 <= q < k ==> (#[trigger] crate::game::progress_entry_at(
                        self@.config,
                        self@.player_notes,
                        self@.participants,
                        q,
                    )).completed),
            decreases progress@.len() - k,
        {
            let e = &progress[k];
            proof {
                assert(crate::game::progress_view(progress@)[k as int]
                    == crate::game::progress_entry_at(
                    self@.config,
                    self@.player_notes,
                    self@.participants,
                    k as int,
                ));
            }
            if !e.completed {
                all = false;
            }
            k += 1;
        }
        let won_now = !self.victory_achieved && self.participants.len() > 0 && all;
        if won_now {
            self.victory_achieved = true;
            self.victory_timestamp = Some(Self::current_timestamp());
        }
        proof {
            assert(mid == (RoomModel {
                victory_achieved: pre.victory_achieved,
                victory_timestamp: pre.victory_timestamp,
                ..self@
            }));
            assert(self@.messages == mid.messages);
            assert forall|a: int, b: int|
                0 <= a < b < self@.messages.len() implies self@.messages[a].id
                < self@.messages[b].id by {
                assert(mid.messages[a].id < mid.messages[b].id);
            }
            assert forall|a: int|
                0 <= a < self@.messages.len() implies #[trigger] self@.messages[a].id
                <= self@.message_counter by {
                assert(mid.messages[a].id <= mid.message_counter);
            }
            assert(users_unique(self@.participants)) by {
                assert(self@.participants == mid.participants);
                assert(users_unique(mid.participants));
            }
            assert(note_keys_unique(self@.player_notes)) by {
                assert(self@.player_notes == mid.player_notes);
                assert(note_keys_unique(mid.player_notes));
            }
            assert(keys_unique(self@.config)) by {
                assert(self@.config == mid.config);
                assert(keys_unique(mid.config));
            }
            assert(self.wf());
        }
        let victory = VictoryState {
            achieved: self.victory_achieved,
            player_progress: progress,
            unlocked_at: self.victory_timestamp,
        };
        let room_closed = self.is_empty() && new_messages.len() > 0;
        let neutral = String::new();
        let room_state = self.get_censored_state_for(&neutral);
        proof {
            reveal_strlit("");
            assert(neutral@ =~= ""@);
        }
        RoomUpdate {
            room_state,
            new_messages,
            notifications,
            room_closed,
            victory: Some(victory),
        }
    }

    /// A player's stored notes, if any.
    pub fn get_player_note(&self, user_id: &UserId) -> (r: Option<
        &Vec<(CountryCode, Vec<String>)>,
    >)
        ensures
            match r {
                Some(v) => entries_view(v@) == crate::game::lookup_note(
                    self@.player_notes,
                    user_id@,
                ),
                None => crate::game::lookup_note(self@.player_notes, user_id@) == Seq::<(
                    Seq<char>,
                    Seq<Seq<char>>,
                )>::empty(),
            },
    {
        crate::game::find_note(&self.player_notes, user_id)
    }

    /// Censor one message for a viewer country, per `censor_decision`.
    pub fn censor_message_for(&self, message: &Message, country: &CountryCode) -> (r:
        CensoredMessage)
        requires
            self.wf(),
        ensures
            r@.id == message@.id,
            r@.sender_id == message@.sender_id,
            (r@.content, r@.was_censored) == censor_decision(self@, message@, country@),
    {
        let sys = String::from_str("SYSTEM");
        if message.sender_id == sys {
            return CensoredMessage {
                id: message.id,
                sender_id: message.sender_id.clone(),
                content: message.content.clone(),
                was_censored: false,
            };
        }
        if self.shadow_ban && message.sender_country == *country {
            return CensoredMessage {
                id: message.id,
                sender_id: message.sender_id.clone(),
                content: message.content.clone(),
                was_censored: false,
            };
        }
        let censor_sender = self.sender_censor && !contains_string(
            &self.allowed,
            &message.sender_country,
        );
        let censor_receiver = self.receiver_censor && !contains_string(&self.allowed, country);
        let sender_opt: Option<&CountryCode> = if censor_sender {
            Some(&message.sender_country)
        } else {
            None
        };
        let receiver_opt: Option<&CountryCode> = if censor_receiver {
            Some(country)
        } else {
            None
        };
        let res = self.filter.censor_message(message.content.as_str(), sender_opt, receiver_opt);
        CensoredMessage {
            id: message.id,
            sender_id: message.sender_id.clone(),
            content: res.0,
            was_censored: res.1,
        }
    }

    /// The room as one viewer country sees it: participants and the whole
    /// log censored for that viewer.
    pub fn get_censored_state_for(&self, country: &CountryCode) -> (r: RoomState)
        requires
            self.wf(),
        ensures
            r.room_id@ == self@.room_id,
            parts_view(r.participants@) == self@.participants,
            cmsgs_view(r.recent_messages@) == censored_log(self@, country@),
    {
        let mut censored: Vec<CensoredMessage> = Vec::new();
        let mut i: usize = 0;
        while i < self.messages.len()
            invariant
                0 <= i <= self.messages@.len(),
                self.wf(),
                censored@.len() == i,
                forall|k: int|
                    0 <= k < i ==> #[trigger] cmsgs_view(censored@)[k] == censored_log(
                        self@,
                        country@,
                    )[k],
            decreases self.messages@.len() - i,
        {
            let m = &self.messages[i];
            let cm = self.censor_message_for(m, country);
            let ghost c0 = censored@;
            let ghost cmv = cm@;
            censored.push(cm);
            proof {
                assert(m@ == self@.messages[i as int]);
                assert forall|k: int| 0 <= k < i + 1 implies #[trigger] cmsgs_view(censored@)[k]
                    == censored_log(self@, country@)[k] by {
                    if k < i {
                        assert(censored@[k] == c0[k]);
                        assert(cmsgs_view(c0)[k] == censored_log(self@, country@)[k]);
                    } else {
                        assert(censored@[k]@ == cmv);
                    }
                }
            }
            i += 1;
        }
        proof {
            assert(cmsgs_view(censored@) =~= censored_log(self@, country@));
        }
        let mut ps: Vec<Participant> = Vec::new();
        let mut j: usize = 0;
        while j < self.participants.len()
            invariant
                0 <= j <= self.participants@.len(),
                ps@.len() == j,
                forall|k: int|
                    0 <= k < j ==> #[trigger] parts_view(ps@)[k] == parts_view(
                        self.participants@,
                    )[k],
            decreases self.participants@.len() - j,
        {
            let p = &self.participants[j];
            let p2 = Participant {
                user_id: p.user_id.clone(),
                country: p.country.clone(),
                joined_at: p.joined_at,
            };
            let ghost s0 = ps@;
            let ghost p2v = p2@;
            ps.push(p2);
            proof {
                assert(p2v == parts_view(self.participants@)[j as int]);
                assert forall|k: int| 0 <= k < j + 1 implies #[trigger] parts_view(ps@)[k]
                    == parts_view(self.participants@)[k] by {
                    if k < j {
                        assert(ps@[k] == s0[k]);
                        assert(parts_view(s0)[k] == parts_view(self.participants@)[k]);
                    } else {
                        assert(ps@[k]@ == p2v);
                    }
                }
            }
            j += 1;
        }
        proof {
            assert(parts_view(ps@) =~= parts_view(self.participants@));
        }
        RoomState { room_id: self.room_id.clone(), participants: ps, recent_messages: censored }
    }
}

/// Filtering a participant list with unique user ids keeps them unique, and
/// every kept participant stood in the original list.
proof fn lemma_filter_users_unique(s: Seq<ParticipantView>, uid: Seq<char>)
    requires
        users_unique(s),
    ensures
        ({
            let f = s.filter(|p: ParticipantView| p.user_id != uid);
            &&& users_unique(f)
            &&& forall|k: int|
                0 <= k < f.len() ==> exists|w: int| 0 <= w < s.len() && s[w] == #[trigger] f[k]
        }),
    decreases s.len(),
{
    reveal_with_fuel(Seq::filter, 2);
    let pred = |p: ParticipantView| p.user_id != uid;
    let f = s.filter(pred);
    if s.len() == 0 {
    } else {
        let t = s.drop_last();
        assert forall|i: int, j: int| 0 <= i < j < t.len() implies t[i].user_id != t[j].user_id by {
            assert(t[i] == s[i]);
            assert(t[j] == s[j]);
        }
        lemma_filter_users_unique(t, uid);
        let ft = t.filter(pred);
        assert forall|k: int| 0 <= k < ft.len() implies exists|w: int|
            0 <= w < s.len() && s[w] == #[trigger] ft[k] by {
            let w = choose|w: int| 0 <= w < t.len() && t[w] == ft[k];
            assert(s[w] == ft[k]);
        }
        if pred(s.last()) {
            assert(f == ft.push(s.last()));
            assert forall|i: int, j: int| 0 <= i < j < f.len() implies f[i].user_id
                != f[j].user_id by {
                if j == f.len() - 1 {
                    assert(f[j] == s.last());
                    assert(f[i] == ft[i]);
                    let w = choose|w: int| 0 <= w < t.len() && t[w] == ft[i];
                    assert(s[w] == ft[i]);
                    assert(s[w].user_id != s[s.len() - 1].user_id);
                } else {
                    assert(f[i] == ft[i]);
                    assert(f[j] == ft[j]);
                }
            }
        } else {
            assert(f == ft);
        }
    }
}

} // verus!
