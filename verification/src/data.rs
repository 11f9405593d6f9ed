//! Shared value types of the room engine, with their spec-level views.
//!
//! Country-keyed tables (banned words, player notes) are association lists:
//! vectors of pairs whose keys are unique. Their views are sequences of pairs
//! of character sequences, and `lookup_words` gives the first-match semantics
//! that the executable lookups implement.

use vstd::prelude::*;

verus! {

pub type RoomId = String;

pub type UserId = String;

pub type MessageId = u64;

pub type CountryCode = String;

pub type Timestamp = u64;

/// Upper bound on the number of inbound actions a room drains in one batch.
pub const MAX_USER_ACTIONS: usize = 100;

/// View of a vector of strings as a sequence of character sequences.
pub open spec fn words_view(ws: Seq<String>) -> Seq<Seq<char>> {
    ws.map_values(|w: String| w@)
}

/// View of a country-keyed word table as a sequence of (key, words) pairs.
pub open spec fn entries_view(m: Seq<(String, Vec<String>)>) -> Seq<(Seq<char>, Seq<Seq<char>>)> {
    m.map_values(|p: (String, Vec<String>)| (p.0@, words_view(p.1@)))
}

/// Words stored under `key`, taking the first matching entry; empty if absent.
pub open spec fn lookup_words(m: Seq<(Seq<char>, Seq<Seq<char>>)>, key: Seq<char>) -> Seq<Seq<char>>
    decreases m.len(),
{
    if m.len() == 0 {
        Seq::empty()
    } else if m[0].0 == key {
        m[0].1
    } else {
        lookup_words(m.drop_first(), key)
    }
}

/// Whether some entry of the table has the given key.
pub open spec fn has_key(m: Seq<(Seq<char>, Seq<Seq<char>>)>, key: Seq<char>) -> bool {
    exists|i: int| 0 <= i < m.len() && m[i].0 == key
}

/// Keys of a table are pairwise distinct.
pub open spec fn keys_unique(m: Seq<(Seq<char>, Seq<Seq<char>>)>) -> bool {
    forall|i: int, j: int| 0 <= i < j < m.len() ==> m[i].0 != m[j].0
}

#[derive(Clone, Debug)]
pub struct Message {
    pub id: MessageId,
    pub sender_id: UserId,
    pub sender_country: CountryCode,
    pub content: String,
    pub timestamp: Timestamp,
}

pub ghost struct MessageView {
    pub id: MessageId,
    pub sender_id: Seq<char>,
    pub sender_country: Seq<char>,
    pub content: Seq<char>,
    pub timestamp: Timestamp,
}

impl View for Message {
    type V = MessageView;

    open spec fn view(&self) -> MessageView {
        MessageView {
            id: self.id,
            sender_id: self.sender_id@,
            sender_country: self.sender_country@,
            content: self.content@,
            timestamp: self.timestamp,
        }
    }
}

#[derive(Clone, Debug)]
pub struct CensoredMessage {
    pub id: MessageId,
    pub sender_id: UserId,
    pub content: String,
    pub was_censored: bool,
}

pub ghost struct CensoredMessageView {
    pub id: MessageId,
    pub sender_id: Seq<char>,
    pub content: Seq<char>,
    pub was_censored: bool,
}

impl View for CensoredMessage {
    type V = CensoredMessageView;

    open spec fn view(&self) -> CensoredMessageView {
        CensoredMessageView {
            id: self.id,
            sender_id: self.sender_id@,
            content: self.content@,
            was_censored: self.was_censored,
        }
    }
}

#[derive(Clone, Debug)]
pub enum UserAction {
    SendMessage(String),
    SendMessageArray(Vec<String>),
    SubmitNotes(Vec<(CountryCode, Vec<String>)>),
    LeaveRoom,
}

#[derive(Clone, Debug)]
pub struct Participant {
    pub user_id: UserId,
    pub country: CountryCode,
    pub joined_at: Timestamp,
}

pub ghost struct ParticipantView {
    pub user_id: Seq<char>,
    pub country: Seq<char>,
    pub joined_at: Timestamp,
}

impl View for Participant {
    type V = ParticipantView;

    open spec fn view(&self) -> ParticipantView {
        ParticipantView { user_id: self.user_id@, country: self.country@, joined_at: self.joined_at }
    }
}

#[derive(Clone, Debug)]
pub struct RoomState {
    pub room_id: RoomId,
    pub participants: Vec<Participant>,
    pub recent_messages: Vec<CensoredMessage>,
}

#[derive(Clone, Debug)]
pub struct Notification {
    pub message: String,
}

impl View for Notification {
    type V = Seq<char>;

    open spec fn view(&self) -> Seq<char> {
        self.message@
    }
}

#[derive(Clone, Debug)]
pub struct PlayerProgress {
    pub user_id: UserId,
    pub country: CountryCode,
    pub discovered_count: usize,
    pub total_required: usize,
    pub completed: bool,
}

pub ghost struct PlayerProgressView {
    pub user_id: Seq<char>,
    pub country: Seq<char>,
    pub discovered_count: nat,
    pub total_required: nat,
    pub completed: bool,
}

impl View for PlayerProgress {
    type V = PlayerProgressView;

    open spec fn view(&self) -> PlayerProgressView {
        PlayerProgressView {
            user_id: self.user_id@,
            country: self.country@,
            discovered_count: self.discovered_count as nat,
            total_required: self.total_required as nat,
            completed: self.completed,
        }
    }
}

#[derive(Clone, Debug)]
pub struct VictoryState {
    pub achieved: bool,
    pub player_progress: Vec<PlayerProgress>,
    pub unlocked_at: Option<Timestamp>,
}

#[derive(Clone, Debug)]
pub struct RoomUpdate {
    pub room_state: RoomState,
    /// Raw messages produced by the batch; a session layer re-censors them
    /// per viewer before delivery.
    pub new_messages: Vec<Message>,
    pub notifications: Vec<Notification>,
    pub room_closed: bool,
    pub victory: Option<VictoryState>,
}

/// Country code -> banned words for that country.
#[derive(Clone, Debug)]
pub struct FilterConfig {
    pub banned_words: Vec<(CountryCode, Vec<String>)>,
}

impl View for FilterConfig {
    type V = Seq<(Seq<char>, Seq<Seq<char>>)>;

    open spec fn view(&self) -> Seq<(Seq<char>, Seq<Seq<char>>)> {
        entries_view(self.banned_words@)
    }
}

impl FilterConfig {
    /// A well-formed config has at most one entry per country.
    pub open spec fn wf(&self) -> bool {
        keys_unique(self@)
    }

}

/// A copy of a word list, equal element for element.
pub fn copy_words(ws: &Vec<String>) -> (r: Vec<String>)
    ensures
        r@ == ws@,
{
    let mut r: Vec<String> = Vec::new();
    let mut i: usize = 0;
    while i < ws.len()
        invariant
            0 <= i <= ws@.len(),
            r@ == ws@.take(i as int),
        decreases ws@.len() - i,
    {
        let w = &ws[i];
        r.push(w.clone());
        proof {
            assert(r@ =~= ws@.take(i + 1));
        }
        i += 1;
    }
    proof {
        assert(ws@.take(ws@.len() as int) =~= ws@);
    }
    r
}

impl FilterConfig {
    /// A copy of the whole table, equal under the view.
    pub fn duplicate(&self) -> (r: FilterConfig)
        ensures
            r@ == self@,
    {
        let orig = &self.banned_words;
        let mut banned: Vec<(CountryCode, Vec<String>)> = Vec::new();
        let mut i: usize = 0;
        while i < orig.len()
            invariant
                0 <= i <= orig@.len(),
                banned@.len() == i,
                forall|k: int|
                    0 <= k < i ==> #[trigger] banned@[k].0@ == orig@[k].0@ && banned@[k].1@
                        == orig@[k].1@,
                orig@ == self.banned_words@,
            decreases orig@.len() - i,
        {
            let entry = &orig[i];
            let key = entry.0.clone();
            let ws = copy_words(&entry.1);
            banned.push((key, ws));
            i += 1;
        }
        let r = FilterConfig { banned_words: banned };
        proof {
            assert forall|k: int| 0 <= k < orig@.len() implies r@[k] == self@[k] by {
                assert(r@[k] == (banned@[k].0@, words_view(banned@[k].1@)));
                assert(self@[k] == (orig@[k].0@, words_view(orig@[k].1@)));
            }
            assert(r@ =~= self@);
        }
        r
    }
}

/// The table after an insertion: the entry for `key` replaced in place, or
/// appended if absent.
pub open spec fn store_entry(
    m: Seq<(Seq<char>, Seq<Seq<char>>)>,
    key: Seq<char>,
    val: Seq<Seq<char>>,
) -> Seq<(Seq<char>, Seq<Seq<char>>)>
    decreases m.len(),
{
    if m.len() == 0 {
        seq![(key, val)]
    } else if m[0].0 == key {
        seq![(key, val)] + m.drop_first()
    } else {
        seq![m[0]] + store_entry(m.drop_first(), key, val)
    }
}

/// Inserting under an absent key appends; skipping unmatched entries keeps
/// them in place.
proof fn lemma_store_entry_prefix(
    m: Seq<(Seq<char>, Seq<Seq<char>>)>,
    key: Seq<char>,
    val: Seq<Seq<char>>,
    i: int,
)
    requires
        0 <= i <= m.len(),
        forall|q: int| 0 <= q < i ==> m[q].0 != key,
    ensures
        store_entry(m, key, val) == m.take(i) + store_entry(m.skip(i), key, val),
    decreases i,
{
    if i == 0 {
        assert(m.skip(0) =~= m);
        assert(m.take(0) + store_entry(m, key, val) =~= store_entry(m, key, val));
    } else {
        assert(m.drop_first() =~= m.skip(1));
        lemma_store_entry_prefix(m.skip(1), key, val, i - 1);
        assert(m.skip(1).skip(i - 1) =~= m.skip(i));
        assert(m.skip(1).take(i - 1) =~= m.take(i).drop_first());
        assert(store_entry(m, key, val) == seq![m[0]] + store_entry(m.skip(1), key, val));
        assert(seq![m[0]] + (m.take(i).drop_first() + store_entry(m.skip(i), key, val)) =~= m.take(
            i,
        ) + store_entry(m.skip(i), key, val));
    }
}

/// Insertion keeps the table's keys unique.
proof fn lemma_store_entry_unique(
    m: Seq<(Seq<char>, Seq<Seq<char>>)>,
    key: Seq<char>,
    val: Seq<Seq<char>>,
)
    requires
        keys_unique(m),
    ensures
        ({
            let st = store_entry(m, key, val);
            &&& keys_unique(st)
            &&& forall|k: int|
                0 <= k < st.len() ==> (#[trigger] st[k].0 == key || exists|w: int|
                    0 <= w < m.len() && m[w].0 == st[k].0)
        }),
    decreases m.len(),
{
    let st = store_entry(m, key, val);
    if m.len() == 0 {
    } else if m[0].0 == key {
        assert(st =~= seq![(key, val)] + m.drop_first());
        assert forall|k: int| 0 <= k < st.len() implies (#[trigger] st[k].0 == key || exists|w: int|
            0 <= w < m.len() && m[w].0 == st[k].0) by {
            if k >= 1 {
                assert(st[k] == m[k]);
            }
        }
        assert forall|i: int, j: int| 0 <= i < j < st.len() implies st[i].0 != st[j].0 by {
            if i >= 1 {
                assert(st[i] == m[i]);
                assert(st[j] == m[j]);
            } else {
                assert(st[j] == m[j]);
                assert(m[0].0 != m[j].0);
            }
        }
    } else {
        let tail = m.drop_first();
        assert forall|i: int, j: int| 0 <= i < j < tail.len() implies tail[i].0 != tail[j].0 by {
            assert(tail[i] == m[i + 1]);
            assert(tail[j] == m[j + 1]);
        }
        lemma_store_entry_unique(tail, key, val);
        let stt = store_entry(tail, key, val);
        assert(st =~= seq![m[0]] + stt);
        assert forall|k: int| 0 <= k < st.len() implies (#[trigger] st[k].0 == key || exists|w: int|
            0 <= w < m.len() && m[w].0 == st[k].0) by {
            if k == 0 {
                assert(st[0] == m[0]);
                assert(m[0].0 == st[0].0);
            } else {
                assert(st[k] == stt[k - 1]);
                if stt[k - 1].0 != key {
                    let w = choose|w: int| 0 <= w < tail.len() && tail[w].0 == stt[k - 1].0;
                    assert(m[w + 1].0 == st[k].0);
                }
            }
        }
        assert forall|i: int, j: int| 0 <= i < j < st.len() implies st[i].0 != st[j].0 by {
            if i == 0 {
                assert(st[j] == stt[j - 1]);
                if stt[j - 1].0 == key {
                    assert(m[0].0 != key);
                } else {
                    let w = choose|w: int| 0 <= w < tail.len() && tail[w].0 == stt[j - 1].0;
                    assert(m[0].0 != m[w + 1].0);
                }
            } else {
                assert(st[i] == stt[i - 1]);
                assert(st[j] == stt[j - 1]);
            }
        }
    }
}

impl FilterConfig {
    /// Set a country's banned words, replacing any earlier entry.
    pub fn insert(&mut self, country: CountryCode, ws: Vec<String>)
        requires
            old(self).wf(),
        ensures
            final(self).wf(),
            final(self)@ == store_entry(old(self)@, country@, words_view(ws@)),
    {
        let ghost mv = self@;
        let ghost vv = words_view(ws@);
        let ghost cv = country@;
        proof {
            lemma_store_entry_unique(mv, cv, vv);
        }
        let mut i: usize = 0;
        while i < self.banned_words.len()
            invariant
                0 <= i <= self.banned_words@.len(),
                self == old(self),
                mv == self@,
                vv == words_view(ws@),
                mv.len() == self.banned_words@.len(),
                cv == country@,
                vv == words_view(ws@),
                keys_unique(mv),
                forall|q: int| 0 <= q < i ==> mv[q].0 != cv,
            decreases self.banned_words@.len() - i,
        {
            let entry = &self.banned_words[i];
            let hit = entry.0 == country;
            if hit {
                proof {
                    lemma_store_entry_unique(mv, cv, vv);
                    lemma_store_entry_prefix(mv, cv, vv, i as int);
                    assert(mv.skip(i as int)[0] == mv[i as int]);
                    assert(store_entry(mv.skip(i as int), cv, vv) == seq![(cv, vv)]
                        + mv.skip(i as int).drop_first());
                    assert(mv.skip(i as int).drop_first() =~= mv.skip(i + 1));
                }
                let new_entry = (country, ws);
                let ghost nev = (new_entry.0@, words_view(new_entry.1@));
                proof {
                    assert(nev == (cv, vv));
                }
                self.banned_words.set(i, new_entry);
                proof {
                    let newv = self@;
                    let target = store_entry(mv, cv, vv);
                    assert(target == mv.take(i as int) + (seq![(cv, vv)] + mv.skip(i + 1)));
                    assert forall|k: int| 0 <= k < newv.len() implies newv[k] == target[k] by {
                        if k < i {
                            assert(self.banned_words@[k] == old(self).banned_words@[k]);
                            assert(target[k] == mv.take(i as int)[k]);
                        } else if k == i {
                            assert(newv[k] == nev);
                            assert(target[k] == (seq![(cv, vv)] + mv.skip(i + 1))[0]);
                        } else {
                            assert(self.banned_words@[k] == old(self).banned_words@[k]);
                            assert(target[k] == (seq![(cv, vv)] + mv.skip(i + 1))[k - i]);
                            assert(mv.skip(i + 1)[k - i - 1] == mv[k]);
                        }
                    }
                    assert(newv =~= target);
                }
                return ;
            }
            i += 1;
        }
        proof {
            lemma_store_entry_unique(mv, cv, vv);
            lemma_store_entry_prefix(mv, cv, vv, mv.len() as int);
            assert(mv.skip(mv.len() as int) =~= Seq::<(Seq<char>, Seq<Seq<char>>)>::empty());
            assert(mv.take(mv.len() as int) =~= mv);
        }
        let new_entry = (country, ws);
        let ghost nev = (new_entry.0@, words_view(new_entry.1@));
        proof {
            assert(nev == (cv, vv));
        }
        self.banned_words.push(new_entry);
        proof {
            let newv = self@;
            let target = store_entry(mv, cv, vv);
            assert(target == mv + seq![(cv, vv)]);
            assert forall|k: int| 0 <= k < newv.len() implies newv[k] == target[k] by {
                if k < mv.len() {
                    assert(self.banned_words@[k] == old(self).banned_words@[k]);
                } else {
                    assert(newv[k] == nev);
                }
            }
            assert(newv =~= target);
        }
    }
}

/// Static description of a room's filtering rules, handed to clients.
#[derive(Clone, Debug)]
pub struct RoomInfo {
    pub filter_config: FilterConfig,
}

/// One inbound action together with its sender's identity.
#[derive(Clone, Debug)]
pub struct UserMessage {
    pub user_id: UserId,
    pub country: CountryCode,
    pub action: UserAction,
}

/// Word-list material a room initializer draws from: everyday vocabulary and
/// groups of candidate puzzle words.
#[derive(Clone, Debug)]
pub struct Words {
    pub normal: Vec<String>,
    pub censored: Vec<Vec<String>>,
}

/// Token query string of a connection request.
#[derive(Clone, Debug)]
pub struct ConnectQuery {
    pub token: String,
}

/// Identity resolved from a session token.
#[derive(Clone, Debug)]
pub struct AuthenticatedUser {
    pub user_id: UserId,
    pub country: CountryCode,
}

} // verus!
