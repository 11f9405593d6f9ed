//! The puzzle rules over a room's configuration: which words players may
//! use, how messages are censored per viewer, and how player notes turn into
//! discovery progress and victory.
//!
//! The banned-word universe of a moment is always computed from the
//! countries represented among the *current* participants, never cached.

use vstd::prelude::*;
use vstd::string::StringExecFns;

use crate::data::{
    copy_words, entries_view, keys_unique, lookup_words, words_view, CountryCode, FilterConfig,
    Message, Participant, ParticipantView, PlayerProgress, PlayerProgressView, Timestamp, UserId,
    VictoryState, Words,
};
use crate::filter::{censor_view, lower_char, lower_seq, CensorshipFilter};
use crate::room::{
    contains_string, lemma_store_note_unique, note_keys_unique, notes_view, parts_view,
    store_note, store_note_exec, ChatRoom,
};
use crate::strutil::{charvecs_view, str_to_chars};
use crate::words::{banned_country_count, generate_allowed_and_banned_words, generated_words};

verus! {

/// The countries represented among the given participants.
pub open spec fn active_countries(ps: Seq<ParticipantView>) -> Set<Seq<char>> {
    ps.map_values(|p: ParticipantView| p.country).to_set()
}

/// A word list as a set of case-folded words.
pub open spec fn lower_word_set(ws: Seq<Seq<char>>) -> Set<Seq<char>> {
    ws.map_values(|w: Seq<char>| lower_seq(w)).to_set()
}

/// The banned words that currently matter: those of countries represented
/// among the participants, case-folded and deduplicated.
pub open spec fn banned_universe(
    config: Seq<(Seq<char>, Seq<Seq<char>>)>,
    active: Set<Seq<char>>,
) -> Set<Seq<char>>
    decreases config.len(),
{
    if config.len() == 0 {
        Set::empty()
    } else {
        let rest = banned_universe(config.drop_last(), active);
        if active.contains(config.last().0) {
            rest.union(lower_word_set(config.last().1))
        } else {
            rest
        }
    }
}

/// All words one submission mentions, case-folded, across all countries.
pub open spec fn noted_set(m: Seq<(Seq<char>, Seq<Seq<char>>)>) -> Set<Seq<char>>
    decreases m.len(),
{
    if m.len() == 0 {
        Set::empty()
    } else {
        noted_set(m.drop_last()).union(lower_word_set(m.last().1))
    }
}

/// The stored submission of one player; empty if none.
pub open spec fn lookup_note(
    ns: Seq<(Seq<char>, Seq<(Seq<char>, Seq<Seq<char>>)>)>,
    uid: Seq<char>,
) -> Seq<(Seq<char>, Seq<Seq<char>>)>
    decreases ns.len(),
{
    if ns.len() == 0 {
        Seq::empty()
    } else if ns[0].0 == uid {
        ns[0].1
    } else {
        lookup_note(ns.drop_first(), uid)
    }
}

/// The whole game at the spec level.
pub ghost struct GameModel {
    pub config: Seq<(Seq<char>, Seq<Seq<char>>)>,
    pub allowed_words: Seq<Seq<char>>,
    pub sender_censor: bool,
    pub receiver_censor: bool,
    pub shadow_ban: bool,
    pub allowed_countries: Seq<Seq<char>>,
    pub player_notes: Seq<(Seq<char>, Seq<(Seq<char>, Seq<Seq<char>>)>)>,
    pub victory_achieved: bool,
    pub victory_timestamp: Option<Timestamp>,
}

/// One participant's progress against the universe drawn from a banned-word
/// table and the stored notes.
pub open spec fn progress_entry_at(
    config: Seq<(Seq<char>, Seq<Seq<char>>)>,
    notes: Seq<(Seq<char>, Seq<(Seq<char>, Seq<Seq<char>>)>)>,
    ps: Seq<ParticipantView>,
    k: int,
) -> PlayerProgressView {
    let u = banned_universe(config, active_countries(ps));
    let d = noted_set(lookup_note(notes, ps[k].user_id)).intersect(u).len();
    PlayerProgressView {
        user_id: ps[k].user_id,
        country: ps[k].country,
        discovered_count: d,
        total_required: u.len(),
        completed: d >= u.len(),
    }
}

/// One participant's progress against a game's current universe.
pub open spec fn progress_entry(m: GameModel, ps: Seq<ParticipantView>, k: int) -> PlayerProgressView {
    progress_entry_at(m.config, m.player_notes, ps, k)
}

/// Every current participant's notes cover the whole universe of the given
/// table.
pub open spec fn all_completed_at(
    config: Seq<(Seq<char>, Seq<Seq<char>>)>,
    notes: Seq<(Seq<char>, Seq<(Seq<char>, Seq<Seq<char>>)>)>,
    ps: Seq<ParticipantView>,
) -> bool {
    forall|k: int| 0 <= k < ps.len() ==> (#[trigger] progress_entry_at(config, notes, ps, k)).completed
}

/// Every current participant's notes cover the whole universe.
pub open spec fn all_completed(m: GameModel, ps: Seq<ParticipantView>) -> bool {
    all_completed_at(m.config, m.player_notes, ps)
}

/// View of a progress list.
pub open spec fn progress_view(s: Seq<PlayerProgress>) -> Seq<PlayerProgressView> {
    s.map_values(|p: PlayerProgress| p@)
}

/// Game mechanics over a room's configuration, separate from room
/// management: word vocabulary, per-viewer censorship, note storage, and
/// progress and victory tracking. Different rule sets can implement this
/// over the same room infrastructure; each exposes its state as a
/// `GameModel` through `rules`, which the contracts speak of.
pub trait GameRules {
    /// The rules' state at the spec level.
    spec fn rules(&self) -> GameModel;

    /// The rules' own well-formedness.
    spec fn rules_wf(&self) -> bool;

    /// The vocabulary players may draw from.
    fn allowed_words(&self) -> (r: &Vec<String>)
        ensures
            words_view(r@) == self.rules().allowed_words,
    ;

    /// Whether a word stands in the allowed vocabulary.
    fn is_word_allowed(&self, word: &str) -> (r: bool)
        ensures
            r == self.rules().allowed_words.contains(word@),
    ;

    /// Censor one message for a viewer country.
    fn censor_message_for(&self, message: &Message, viewer_country: &CountryCode) -> (r: (
        String,
        bool,
    ))
        requires
            self.rules_wf(),
        ensures
            (r.0@, r.1) == censor_view(
                self.rules().config,
                self.rules().sender_censor,
                self.rules().receiver_censor,
                self.rules().shadow_ban,
                self.rules().allowed_countries,
                message@,
                viewer_country@,
            ),
    ;

    /// Store a player's latest submission, replacing any earlier one.
    fn submit_player_notes(&mut self, user_id: &UserId, notes: Vec<(CountryCode, Vec<String>)>)
        requires
            old(self).rules_wf(),
        ensures
            final(self).rules_wf(),
            final(self).rules() == (GameModel {
                player_notes: store_note(
                    old(self).rules().player_notes,
                    user_id@,
                    entries_view(notes@),
                ),
                ..old(self).rules()
            }),
    ;

    /// A player's stored submission, if any.
    fn get_player_notes(&self, user_id: &UserId) -> (r: Option<&Vec<(CountryCode, Vec<String>)>>)
        ensures
            match r {
                Some(v) => entries_view(v@) == lookup_note(self.rules().player_notes, user_id@),
                None => lookup_note(self.rules().player_notes, user_id@) == Seq::<(
                    Seq<char>,
                    Seq<Seq<char>>,
                )>::empty(),
            },
    ;

    /// Every player's stored submission.
    fn get_all_player_notes(&self) -> (r: &Vec<(UserId, Vec<(CountryCode, Vec<String>)>)>)
        ensures
            notes_view(r@) == self.rules().player_notes,
    ;

    /// Discovery progress for every current participant.
    fn calculate_player_progress(&self, participants: &Vec<Participant>) -> (r: Vec<
        PlayerProgress,
    >)
        requires
            self.rules_wf(),
        ensures
            r@.len() == participants@.len(),
            forall|k: int|
                0 <= k < r@.len() ==> #[trigger] progress_view(r@)[k] == progress_entry(
                    self.rules(),
                    parts_view(participants@),
                    k,
                ),
    ;

    /// Check victory against the current participants; once achieved it
    /// never reverts.
    fn check_victory(&mut self, participants: &Vec<Participant>) -> (r: bool)
        requires
            old(self).rules_wf(),
        ensures
            final(self).rules_wf(),
            r == (old(self).rules().victory_achieved || (parts_view(participants@).len() > 0
                && all_completed(old(self).rules(), parts_view(participants@)))),
            final(self).rules().victory_achieved == r,
            old(self).rules().victory_achieved ==> final(self).rules() == old(self).rules(),
    ;

    /// The victory state: flag, everyone's progress, and when victory was
    /// first achieved.
    fn get_victory_state(&self, participants: &Vec<Participant>) -> (r: VictoryState)
        requires
            self.rules_wf(),
        ensures
            r.achieved == self.rules().victory_achieved,
            r.unlocked_at == self.rules().victory_timestamp,
            r.player_progress@.len() == participants@.len(),
    ;

    /// Exempt every configured country from censorship.
    fn unlock_all_countries(&mut self)
        requires
            old(self).rules_wf(),
        ensures
            final(self).rules_wf(),
            forall|k: int|
                0 <= k < final(self).rules().config.len() ==> final(self).rules(
                ).allowed_countries.contains(#[trigger] final(self).rules().config[k].0),
    ;

    /// The rules' configuration.
    fn filter_config(&self) -> (r: &FilterConfig)
        ensures
            r@ == self.rules().config,
    ;
}

/// The censorship-puzzle rules: players must discover which words are banned
/// for each country by watching what gets censored.
pub struct CensorshipGame {
    /// The censorship filter that rewrites messages.
    pub filter: CensorshipFilter,
    /// This game's configuration, room-local draws included.
    pub config: FilterConfig,
    /// Words participants may use in messages.
    pub allowed_words: Vec<String>,
    /// Apply the sender country's banned words.
    pub sender_censor: bool,
    /// Apply the viewer country's banned words.
    pub receiver_censor: bool,
    /// Senders see their own country's view uncensored.
    pub shadow_ban: bool,
    /// Countries exempt from censorship.
    pub allowed_countries: Vec<CountryCode>,
    /// Latest note submission per player.
    pub player_notes: Vec<(UserId, Vec<(CountryCode, Vec<String>)>)>,
    /// Whether victory has been achieved; never reverts.
    pub victory_achieved: bool,
    /// When victory was first achieved.
    pub victory_timestamp: Option<Timestamp>,
}

impl View for CensorshipGame {
    type V = GameModel;

    open spec fn view(&self) -> GameModel {
        GameModel {
            config: self.config@,
            allowed_words: words_view(self.allowed_words@),
            sender_censor: self.sender_censor,
            receiver_censor: self.receiver_censor,
            shadow_ban: self.shadow_ban,
            allowed_countries: words_view(self.allowed_countries@),
            player_notes: notes_view(self.player_notes@),
            victory_achieved: self.victory_achieved,
            victory_timestamp: self.victory_timestamp,
        }
    }
}

impl CensorshipGame {
    /// Game invariant: unique table keys, and the filter works on this
    /// game's own configuration.
    pub open spec fn wf(&self) -> bool {
        &&& keys_unique(self@.config)
        &&& note_keys_unique(self@.player_notes)
        &&& self.filter.config@ == self@.config
    }

    /// Build a game over a base configuration, drawing the vocabulary and
    /// room-local banned words from the given material. Both censorship
    /// sides start on; shadow mode starts off.
    pub fn new(config: &FilterConfig, words: &Words) -> (r: CensorshipGame)
        requires
            config.wf(),
            forall|g: int| 0 <= g < words@.censored.len() ==> words@.censored[g].len() > 0,
            4 <= words@.censored.len(),
        ensures
            r.wf(),
            r@.sender_censor,
            r@.receiver_censor,
            !r@.shadow_ban,
            r@.allowed_countries.len() == 0,
            r@.player_notes.len() == 0,
            !r@.victory_achieved,
            r@.victory_timestamp is None,
            exists|bm: Seq<(Seq<char>, Seq<Seq<char>>)>|
                #[trigger] generated_words(
                    words@,
                    crate::room::default_countries(),
                    r@.allowed_words,
                    bm,
                ) && r@.config == crate::room::merge_entries(config@, bm),
    {
        let mut country_codes: Vec<CountryCode> = Vec::new();
        country_codes.push(String::from_str("A"));
        country_codes.push(String::from_str("B"));
        country_codes.push(String::from_str("C"));
        country_codes.push(String::from_str("D"));
        proof {
            assert(words_view(country_codes@) =~= crate::room::default_countries());
            assert(banned_country_count(words_view(country_codes@)) == 4);
        }
        let generated = generate_allowed_and_banned_words(words, &country_codes);
        let allowed_words = generated.0;
        let banned_map = generated.1;
        let ghost bmv = entries_view(banned_map@);
        let mut cfg = config.duplicate();
        let mut i: usize = 0;
        proof {
            assert(bmv.take(0) =~= Seq::<(Seq<char>, Seq<Seq<char>>)>::empty());
        }
        while i < banned_map.len()
            invariant
                0 <= i <= banned_map@.len(),
                bmv == entries_view(banned_map@),
                bmv.len() == banned_map@.len(),
                cfg.wf(),
                cfg@ == crate::room::merge_entries(config@, bmv.take(i as int)),
            decreases banned_map@.len() - i,
        {
            let entry = &banned_map[i];
            proof {
                assert(bmv.take(i + 1).drop_last() =~= bmv.take(i as int));
                assert(bmv.take(i + 1).last() == bmv[i as int]);
            }
            let key = entry.0.clone();
            let ws = copy_words(&entry.1);
            proof {
                assert(key@ == bmv[i as int].0);
                assert(words_view(ws@) == bmv[i as int].1);
            }
            cfg.insert(key, ws);
            i += 1;
        }
        proof {
            assert(bmv.take(bmv.len() as int) =~= bmv);
        }
        let filter = CensorshipFilter::new(&cfg);
        let r = CensorshipGame {
            filter,
            config: cfg,
            allowed_words,
            sender_censor: true,
            receiver_censor: true,
            shadow_ban: false,
            allowed_countries: Vec::new(),
            player_notes: Vec::new(),
            victory_achieved: false,
            victory_timestamp: None,
        };
        proof {
            assert(r@.player_notes.len() == 0);
            assert(r@.allowed_countries.len() == 0);
            assert(generated_words(
                words@,
                crate::room::default_countries(),
                r@.allowed_words,
                bmv,
            ));
            assert(r@.config == crate::room::merge_entries(config@, bmv));
        }
        r
    }

    /// A game with everything given explicitly, for exercising the rules.
    pub fn new_for_test(
        config: &FilterConfig,
        allowed_words: Vec<String>,
        sender_censor: bool,
        receiver_censor: bool,
        shadow_ban: bool,
    ) -> (r: CensorshipGame)
        requires
            config.wf(),
        ensures
            r.wf(),
            r@ == (GameModel {
                config: config@,
                allowed_words: words_view(allowed_words@),
                sender_censor,
                receiver_censor,
                shadow_ban,
                allowed_countries: Seq::empty(),
                player_notes: Seq::empty(),
                victory_achieved: false,
                victory_timestamp: None,
            }),
    {
        let filter = CensorshipFilter::new(config);
        let r = CensorshipGame {
            filter,
            config: config.duplicate(),
            allowed_words,
            sender_censor,
            receiver_censor,
            shadow_ban,
            allowed_countries: Vec::new(),
            player_notes: Vec::new(),
            victory_achieved: false,
            victory_timestamp: None,
        };
        proof {
            assert(words_view(r.allowed_countries@) =~= Seq::<Seq<char>>::empty());
            assert(notes_view(r.player_notes@) =~= Seq::<(
                Seq<char>,
                Seq<(Seq<char>, Seq<Seq<char>>)>,
            )>::empty());
        }
        r
    }

    /// The vocabulary players may draw from.
    pub fn allowed_words(&self) -> (r: &Vec<String>)
        ensures
            words_view(r@) == self@.allowed_words,
    {
        &self.allowed_words
    }

    /// Whether a word stands in the allowed vocabulary.
    pub fn is_word_allowed(&self, word: &str) -> (r: bool)
        ensures
            r == self@.allowed_words.contains(word@),
    {
        let wc = str_to_chars(word);
        crate::room::contains_word(&self.allowed_words, &wc)
    }

    /// The game's configuration.
    pub fn filter_config(&self) -> (r: &FilterConfig)
        ensures
            r@ == self@.config,
    {
        &self.config
    }

    /// Store a player's latest submission, replacing any earlier one.
    pub fn submit_player_notes(
        &mut self,
        user_id: &UserId,
        notes: Vec<(CountryCode, Vec<String>)>,
    )
        requires
            old(self).wf(),
        ensures
            final(self).wf(),
            final(self)@ == (GameModel {
                player_notes: store_note(old(self)@.player_notes, user_id@, entries_view(notes@)),
                ..old(self)@
            }),
    {
        proof {
            lemma_store_note_unique(self@.player_notes, user_id@, entries_view(notes@));
        }
        store_note_exec(&mut self.player_notes, user_id, notes);
    }

    /// A player's stored submission, if any.
    pub fn get_player_notes(&self, user_id: &UserId) -> (r: Option<
        &Vec<(CountryCode, Vec<String>)>,
    >)
        ensures
            match r {
                Some(v) => entries_view(v@) == lookup_note(self@.player_notes, user_id@),
                None => lookup_note(self@.player_notes, user_id@) == Seq::<(
                    Seq<char>,
                    Seq<Seq<char>>,
                )>::empty(),
            },
    {
        find_note(&self.player_notes, user_id)
    }

    /// Every player's stored submission.
    pub fn get_all_player_notes(&self) -> (r: &Vec<(UserId, Vec<(CountryCode, Vec<String>)>)>)
        ensures
            notes_view(r@) == self@.player_notes,
    {
        &self.player_notes
    }

    /// Exempt every configured country from censorship.
    pub fn unlock_all_countries(&mut self)
        requires
            old(self).wf(),
        ensures
            final(self).wf(),
            final(self)@ == (GameModel {
                allowed_countries: final(self)@.allowed_countries,
                ..old(self)@
            }),
            forall|k: int|
                0 <= k < final(self)@.config.len() ==> final(self)@.allowed_countries.contains(
                    #[trigger] final(self)@.config[k].0,
                ),
            forall|c: Seq<char>|
                final(self)@.allowed_countries.contains(c) ==> old(
                    self,
                )@.allowed_countries.contains(c) || exists|k: int|
                    0 <= k < old(self)@.config.len() && (#[trigger] old(self)@.config[k].0) == c,
    {
        let ghost m0 = self@;
        let mut i: usize = 0;
        while i < self.config.banned_words.len()
            invariant
                0 <= i <= self.config.banned_words@.len(),
                self.config == old(self).config,
                self.filter == old(self).filter,
                self.allowed_words == old(self).allowed_words,
                self.player_notes == old(self).player_notes,
                self.sender_censor == old(self).sender_censor,
                self.receiver_censor == old(self).receiver_censor,
                self.shadow_ban == old(self).shadow_ban,
                self.victory_achieved == old(self).victory_achieved,
                self.victory_timestamp == old(self).victory_timestamp,
                m0 == old(self)@,
                old(self).wf(),
                self@.config.len() == self.config.banned_words@.len(),
                forall|k: int|
                    0 <= k < i ==> self@.allowed_countries.contains(#[trigger] self@.config[k].0),
                forall|c: Seq<char>|
                    self@.allowed_countries.contains(c) ==> m0.allowed_countries.contains(c)
                        || exists|k: int|
                        0 <= k < m0.config.len() && (#[trigger] m0.config[k].0) == c,
            decreases self.config.banned_words@.len() - i,
        {
            let entry_key = self.config.banned_words[i].0.clone();
            let present = contains_string(&self.allowed_countries, &entry_key);
            let ghost a0 = words_view(self.allowed_countries@);
            if !present {
                self.allowed_countries.push(entry_key);
                proof {
                    assert(words_view(self.allowed_countries@) =~= a0.push(m0.config[i as int].0));
                    assert forall|c: Seq<char>| self@.allowed_countries.contains(c) implies
                        m0.allowed_countries.contains(c) || exists|k: int|
                            0 <= k < m0.config.len() && (#[trigger] m0.config[k].0) == c by {
                        if c != m0.config[i as int].0 {
                            let w = choose|w: int|
                                0 <= w < self@.allowed_countries.len()
                                    && self@.allowed_countries[w] == c;
                            assert(a0[w] == c);
                        }
                    }
                }
            } else {
                proof {
                    assert(self@.allowed_countries.contains(self@.config[i as int].0));
                }
            }
            proof {
                assert forall|k: int| 0 <= k < i + 1 implies self@.allowed_countries.contains(
                    #[trigger] self@.config[k].0,
                ) by {
                    if k < i {
                        if !present {
                            let w = choose|w: int|
                                0 <= w < a0.len() && a0[w] == self@.config[k].0;
                            assert(self@.allowed_countries[w] == self@.config[k].0);
                        }
                    } else {
                        if !present {
                            assert(self@.allowed_countries[a0.len() as int] == self@.config[
                                i as int
                            ].0);
                        }
                    }
                }
            }
            i += 1;
        }
    }
}

/// Case folding of a whole word.
pub fn lower_chars(v: &Vec<char>) -> (r: Vec<char>)
    ensures
        r@ == lower_seq(v@),
{
    let mut r: Vec<char> = Vec::new();
    let mut i: usize = 0;
    while i < v.len()
        invariant
            0 <= i <= v@.len(),
            r@.len() == i,
            forall|k: int| 0 <= k < i ==> r@[k] == lower_char(#[trigger] v@[k]),
        decreases v@.len() - i,
    {
        r.push(crate::filter::lower_char_exec(v[i]));
        i += 1;
    }
    proof {
        assert(r@ =~= lower_seq(v@));
    }
    r
}

/// Whether the list holds this exact character vector.
fn contains_chars(v: &Vec<Vec<char>>, w: &Vec<char>) -> (r: bool)
    ensures
        r == charvecs_view(v@).contains(w@),
{
    let mut i: usize = 0;
    while i < v.len()
        invariant
            0 <= i <= v@.len(),
            forall|k: int| 0 <= k < i ==> charvecs_view(v@)[k] != w@,
        decreases v@.len() - i,
    {
        let e = &v[i];
        if crate::room::chars_eq(e, w) {
            proof {
                assert(charvecs_view(v@)[i as int] == w@);
            }
            return true;
        }
        i += 1;
    }
    proof {
        assert(!charvecs_view(v@).contains(w@));
    }
    false
}

/// Whether some participant is from this country.
fn country_active(ps: &Vec<Participant>, c: &CountryCode) -> (r: bool)
    ensures
        r == active_countries(parts_view(ps@)).contains(c@),
{
    let ghost cs = parts_view(ps@).map_values(|p: ParticipantView| p.country);
    let mut i: usize = 0;
    while i < ps.len()
        invariant
            0 <= i <= ps@.len(),
            cs == parts_view(ps@).map_values(|p: ParticipantView| p.country),
            cs.len() == ps@.len(),
            forall|k: int| 0 <= k < i ==> cs[k] != c@,
        decreases ps@.len() - i,
    {
        let p = &ps[i];
        if p.country == *c {
            proof {
                assert(cs[i as int] == c@);
                assert(cs.contains(c@));
            }
            return true;
        }
        i += 1;
    }
    proof {
        assert(!cs.contains(c@));
    }
    false
}

/// The case-folded word sets of a submission are finite.
proof fn lemma_noted_finite(m: Seq<(Seq<char>, Seq<Seq<char>>)>)
    ensures
        noted_set(m).finite(),
    decreases m.len(),
{
    broadcast use vstd::seq_lib::seq_to_set_is_finite;

    if m.len() > 0 {
        lemma_noted_finite(m.drop_last());
    }
}

/// The banned-word universe is finite.
pub proof fn lemma_universe_finite(config: Seq<(Seq<char>, Seq<Seq<char>>)>, active: Set<Seq<char>>)
    ensures
        banned_universe(config, active).finite(),
    decreases config.len(),
{
    broadcast use vstd::seq_lib::seq_to_set_is_finite;

    if config.len() > 0 {
        lemma_universe_finite(config.drop_last(), active);
    }
}

/// Membership in a submission's case-folded word set, element by element.
proof fn lemma_noted_set_contains(m: Seq<(Seq<char>, Seq<Seq<char>>)>, x: Seq<char>)
    ensures
        noted_set(m).contains(x) <==> exists|e: int, j: int|
            0 <= e < m.len() && 0 <= j < m[e].1.len() && #[trigger] lower_seq(m[e].1[j]) == x,
    decreases m.len(),
{
    if m.len() > 0 {
        let t = m.drop_last();
        lemma_noted_set_contains(t, x);
        let lws = m.last().1.map_values(|w: Seq<char>| lower_seq(w));
        if lower_word_set(m.last().1).contains(x) {
            let j = choose|j: int| 0 <= j < lws.len() && lws[j] == x;
            assert(lower_seq(m.last().1[j]) == x);
            assert(0 <= m.len() - 1 < m.len() && 0 <= j < (m[m.len() - 1].1).len() && lower_seq(
                m[m.len() - 1].1[j],
            ) == x);
        }
        if noted_set(t).contains(x) {
            let (e, j) = choose|e: int, j: int|
                0 <= e < t.len() && 0 <= j < t[e].1.len() && #[trigger] lower_seq(t[e].1[j]) == x;
            assert(m[e] == t[e]);
        }
        if exists|e: int, j: int|
            0 <= e < m.len() && 0 <= j < m[e].1.len() && #[trigger] lower_seq(m[e].1[j]) == x {
            let (e, j) = choose|e: int, j: int|
                0 <= e < m.len() && 0 <= j < m[e].1.len() && #[trigger] lower_seq(m[e].1[j]) == x;
            if e < m.len() - 1 {
                assert(t[e] == m[e]);
            } else {
                assert(lws[j] == x);
                assert(lws.contains(x));
            }
        }
    }
}

/// Whether a submission mentions this case-folded word.
fn note_has_word(m: &Vec<(CountryCode, Vec<String>)>, w: &Vec<char>) -> (r: bool)
    ensures
        r == noted_set(entries_view(m@)).contains(w@),
{
    let ghost mv = entries_view(m@);
    let mut e: usize = 0;
    while e < m.len()
        invariant
            0 <= e <= m@.len(),
            mv == entries_view(m@),
            mv.len() == m@.len(),
            forall|q: int, j: int|
                0 <= q < e && 0 <= j < mv[q].1.len() ==> #[trigger] lower_seq(mv[q].1[j]) != w@,
        decreases m@.len() - e,
    {
        let entry = &m[e];
        let mut j: usize = 0;
        while j < entry.1.len()
            invariant
                0 <= j <= entry.1@.len(),
                mv == entries_view(m@),
                mv.len() == m@.len(),
                0 <= (e as int) < mv.len(),
                words_view(entry.1@) == mv[e as int].1,
                forall|k: int| 0 <= k < j ==> lower_seq(mv[e as int].1[k]) != w@,
            decreases entry.1@.len() - j,
        {
            let word = &entry.1[j];
            let wc = str_to_chars(word.as_str());
            let lw = lower_chars(&wc);
            if crate::room::chars_eq(&lw, w) {
                proof {
                    assert(lower_seq(mv[e as int].1[j as int]) == w@);
                    lemma_noted_set_contains(mv, w@);
                }
                return true;
            }
            j += 1;
        }
        e += 1;
    }
    proof {
        lemma_noted_set_contains(mv, w@);
    }
    false
}

/// Append the case-folded words of one list, keeping the collection free of
/// duplicates.
fn add_lower_words(uni: &mut Vec<Vec<char>>, ws: &Vec<String>)
    requires
        charvecs_view(old(uni)@).no_duplicates(),
    ensures
        charvecs_view(final(uni)@).no_duplicates(),
        charvecs_view(final(uni)@).to_set() == charvecs_view(old(uni)@).to_set().union(
            lower_word_set(words_view(ws@)),
        ),
{
    broadcast use Seq::lemma_push_to_set_commute;

    let ghost wsv = words_view(ws@);
    let mut j: usize = 0;
    proof {
        assert(wsv.take(0).map_values(|w: Seq<char>| lower_seq(w)) =~= Seq::<Seq<char>>::empty());
        assert(lower_word_set(wsv.take(0)) =~= Set::<Seq<char>>::empty());
        assert(charvecs_view(uni@).to_set() =~= charvecs_view(old(uni)@).to_set().union(
            lower_word_set(wsv.take(0)),
        ));
    }
    while j < ws.len()
        invariant
            0 <= j <= ws@.len(),
            wsv == words_view(ws@),
            wsv.len() == ws@.len(),
            charvecs_view(uni@).no_duplicates(),
            charvecs_view(uni@).to_set() == charvecs_view(old(uni)@).to_set().union(
                lower_word_set(wsv.take(j as int)),
            ),
        decreases ws@.len() - j,
    {
        proof {
            assert(wsv.take(j + 1).map_values(|w: Seq<char>| lower_seq(w)) =~= wsv.take(
                j as int,
            ).map_values(|w: Seq<char>| lower_seq(w)).push(lower_seq(wsv[j as int])));
            wsv.take(j as int).map_values(|w: Seq<char>| lower_seq(w)).lemma_push_to_set_commute(
                lower_seq(wsv[j as int]),
            );
            assert(lower_word_set(wsv.take(j + 1)) =~= lower_word_set(wsv.take(j as int)).insert(
                lower_seq(wsv[j as int]),
            ));
        }
        let word = &ws[j];
        let wc = str_to_chars(word.as_str());
        let lw = lower_chars(&wc);
        let ghost u0 = charvecs_view(uni@);
        if !contains_chars(uni, &lw) {
            uni.push(lw);
            proof {
                assert(charvecs_view(uni@) =~= u0.push(lower_seq(wsv[j as int])));
                u0.lemma_push_to_set_commute(lower_seq(wsv[j as int]));
                assert(charvecs_view(uni@).to_set() =~= u0.to_set().insert(
                    lower_seq(wsv[j as int]),
                ));
                assert(charvecs_view(uni@).to_set() =~= charvecs_view(old(uni)@).to_set().union(
                    lower_word_set(wsv.take(j + 1)),
                ));
                assert forall|a: int, b: int|
                    0 <= a < b < charvecs_view(uni@).len() implies charvecs_view(uni@)[a]
                    != charvecs_view(uni@)[b] by {
                    if b == charvecs_view(uni@).len() - 1 {
                        assert(!u0.contains(charvecs_view(uni@)[b]));
                        assert(u0[a] == charvecs_view(uni@)[a]);
                    }
                }
            }
        } else {
            proof {
                assert(u0.to_set().contains(lower_seq(wsv[j as int])));
                assert(charvecs_view(uni@).to_set() =~= charvecs_view(old(uni)@).to_set().union(
                    lower_word_set(wsv.take(j + 1)),
                ));
            }
        }
        j += 1;
    }
    proof {
        assert(wsv.take(wsv.len() as int) =~= wsv);
    }
}

/// One participant's discovered count: how many universe words the
/// submission mentions.
fn count_discovered(
    notes: Option<&Vec<(CountryCode, Vec<String>)>>,
    uni: &Vec<Vec<char>>,
    Ghost(noted): Ghost<Set<Seq<char>>>,
) -> (r: usize)
    requires
        charvecs_view(uni@).no_duplicates(),
        noted.finite(),
        match notes {
            Some(nv) => noted == noted_set(entries_view(nv@)),
            None => noted == Set::<Seq<char>>::empty(),
        },
    ensures
        r == noted.intersect(charvecs_view(uni@).to_set()).len(),
{
    broadcast use Seq::lemma_push_to_set_commute;
    broadcast use vstd::seq_lib::seq_to_set_is_finite;

    let ghost uv = charvecs_view(uni@);
    let nv = match notes {
        Some(nv) => nv,
        None => {
            proof {
                assert(noted.intersect(uv.to_set()) =~= Set::<Seq<char>>::empty());
            }
            return 0;
        },
    };
    let mut count: usize = 0;
    let mut u: usize = 0;
    proof {
        assert(uv.take(0) =~= Seq::<Seq<char>>::empty());
        assert(uv.take(0).to_set() =~= Set::<Seq<char>>::empty());
        assert(noted.intersect(uv.take(0).to_set()) =~= Set::<Seq<char>>::empty());
    }
    while u < uni.len()
        invariant
            0 <= u <= uni@.len(),
            uv == charvecs_view(uni@),
            uv.len() == uni@.len(),
            uv.no_duplicates(),
            noted.finite(),
            noted == noted_set(entries_view(nv@)),
            count == noted.intersect(uv.take(u as int).to_set()).len(),
            count <= u,
        decreases uni@.len() - u,
    {
        let ghost prevset = noted.intersect(uv.take(u as int).to_set());
        proof {
            assert(uv.take(u + 1) =~= uv.take(u as int).push(uv[u as int]));
            uv.take(u as int).lemma_push_to_set_commute(uv[u as int]);
            assert(uv.take(u + 1).to_set() =~= uv.take(u as int).to_set().insert(
                uv[u as int],
            ));
            assert(prevset.finite()) by {
                vstd::set_lib::lemma_len_intersect::<Seq<char>>(
                    noted,
                    uv.take(u as int).to_set(),
                );
            }
            assert(!uv.take(u as int).to_set().contains(uv[u as int])) by {
                if uv.take(u as int).to_set().contains(uv[u as int]) {
                    let w = choose|w: int|
                        0 <= w < u && uv.take(u as int)[w] == uv[u as int];
                    assert(uv[w] == uv[u as int]);
                }
            }
        }
        let word = &uni[u];
        if note_has_word(nv, word) {
            proof {
                assert(noted.intersect(uv.take(u + 1).to_set()) =~= prevset.insert(
                    uv[u as int],
                ));
                assert(!prevset.contains(uv[u as int]));
            }
            count += 1;
        } else {
            proof {
                assert(noted.intersect(uv.take(u + 1).to_set()) =~= prevset);
            }
        }
        u += 1;
    }
    proof {
        assert(uv.take(uv.len() as int) =~= uv);
    }
    count
}


/// Discovery progress for every current participant, against the given
/// banned-word table and note store. The universe of banned words is
/// restricted to the countries represented among these participants, so it
/// shrinks and grows with the population.
pub fn compute_player_progress(
    config: &FilterConfig,
    player_notes: &Vec<(UserId, Vec<(CountryCode, Vec<String>)>)>,
    participants: &Vec<Participant>,
) -> (r: Vec<PlayerProgress>)
    ensures
        r@.len() == participants@.len(),
        forall|k: int|
            0 <= k < r@.len() ==> #[trigger] progress_view(r@)[k] == progress_entry_at(
                config@,
                notes_view(player_notes@),
                parts_view(participants@),
                k,
            ),
{
    let ghost nsv = notes_view(player_notes@);
    broadcast use vstd::seq_lib::seq_to_set_is_finite;

    let ghost psv = parts_view(participants@);
    let ghost active = active_countries(psv);
    let ghost cfgv = config@;
    let mut uni: Vec<Vec<char>> = Vec::new();
    let mut i: usize = 0;
    proof {
        assert(cfgv.take(0) =~= Seq::<(Seq<char>, Seq<Seq<char>>)>::empty());
        assert(charvecs_view(uni@).to_set() =~= banned_universe(cfgv.take(0), active));
    }
    while i < config.banned_words.len()
        invariant
            0 <= i <= config.banned_words@.len(),
            cfgv == config@,
            psv == parts_view(participants@),
            active == active_countries(psv),
            cfgv.len() == config.banned_words@.len(),
            charvecs_view(uni@).no_duplicates(),
            charvecs_view(uni@).to_set() == banned_universe(cfgv.take(i as int), active),
        decreases config.banned_words@.len() - i,
    {
        proof {
            assert(cfgv.take(i + 1).drop_last() =~= cfgv.take(i as int));
            assert(cfgv.take(i + 1).last() == cfgv[i as int]);
        }
        let entry = &config.banned_words[i];
        proof {
            assert(cfgv[i as int].0 == entry.0@);
            assert(cfgv[i as int].1 == words_view(entry.1@));
        }
        if country_active(participants, &entry.0) {
            add_lower_words(&mut uni, &entry.1);
            proof {
                assert(active.contains(cfgv[i as int].0));
                assert(banned_universe(cfgv.take(i + 1), active) == banned_universe(
                    cfgv.take(i as int),
                    active,
                ).union(lower_word_set(cfgv[i as int].1)));
            }
        } else {
            proof {
                assert(!active.contains(cfgv[i as int].0));
                assert(banned_universe(cfgv.take(i + 1), active) == banned_universe(
                    cfgv.take(i as int),
                    active,
                ));
            }
        }
        i += 1;
    }
    proof {
        assert(cfgv.take(cfgv.len() as int) =~= cfgv);
    }
    let ghost universe = banned_universe(cfgv, active);
    let total = uni.len();
    proof {
        charvecs_view(uni@).unique_seq_to_set();
        assert(universe.len() == uni@.len());
    }
    let mut result: Vec<PlayerProgress> = Vec::new();
    let mut p: usize = 0;
    while p < participants.len()
        invariant
            0 <= p <= participants@.len(),
            psv == parts_view(participants@),
            psv.len() == participants@.len(),
            active == active_countries(psv),
            cfgv == config@,
            nsv == notes_view(player_notes@),
            universe == banned_universe(cfgv, active),
            charvecs_view(uni@).no_duplicates(),
            charvecs_view(uni@).to_set() == universe,
            total == uni@.len(),
            total == universe.len(),
            result@.len() == p,
            forall|k: int|
                0 <= k < p ==> #[trigger] progress_view(result@)[k] == progress_entry_at(
                    cfgv,
                    nsv,
                    psv,
                    k,
                ),
        decreases participants@.len() - p,
    {
        let part = &participants[p];
        let notes_opt = find_note(player_notes, &part.user_id);
        let ghost noted = noted_set(lookup_note(nsv, part.user_id@));
        proof {
            match notes_opt {
                Some(nv) => {
                    assert(noted == noted_set(entries_view(nv@)));
                },
                None => {
                    assert(noted =~= Set::<Seq<char>>::empty());
                },
            }
            lemma_noted_finite(lookup_note(nsv, part.user_id@));
        }
        let count = count_discovered(notes_opt, &uni, Ghost(noted));
        let ghost r0 = progress_view(result@);
        let entry = PlayerProgress {
            user_id: part.user_id.clone(),
            country: part.country.clone(),
            discovered_count: count,
            total_required: total,
            completed: count >= total,
        };
        let ghost ev = entry@;
        result.push(entry);
        proof {
            assert(psv[p as int] == part@);
            assert(ev == progress_entry_at(cfgv, nsv, psv, p as int));
            assert forall|k: int| 0 <= k < p + 1 implies #[trigger] progress_view(result@)[k]
                == progress_entry_at(cfgv, nsv, psv, k) by {
                if k < p {
                    assert(result@[k] == result@.drop_last()[k]);
                    assert(r0[k] == progress_entry_at(cfgv, nsv, psv, k));
                } else {
                    assert(result@[k]@ == ev);
                }
            }
        }
        p += 1;
    }
    result
}


impl CensorshipGame {
    /// Discovery progress for every current participant.
    pub fn calculate_player_progress(&self, participants: &Vec<Participant>) -> (r: Vec<
        PlayerProgress,
    >)
        requires
            self.wf(),
        ensures
            r@.len() == participants@.len(),
            forall|k: int|
                0 <= k < r@.len() ==> #[trigger] progress_view(r@)[k] == progress_entry(
                    self@,
                    parts_view(participants@),
                    k,
                ),
    {
        compute_player_progress(&self.config, &self.player_notes, participants)
    }

    /// Victory short-circuits once achieved; with nobody in the room it
    /// cannot be achieved; otherwise it is achieved exactly when every
    /// current participant has completed, and the first success records the
    /// time.
    pub fn check_victory(&mut self, participants: &Vec<Participant>) -> (r: bool)
        requires
            old(self).wf(),
        ensures
            final(self).wf(),
            r == (old(self)@.victory_achieved || (parts_view(participants@).len() > 0
                && all_completed(old(self)@, parts_view(participants@)))),
            final(self)@.victory_achieved == r,
            final(self)@ == (GameModel {
                victory_achieved: r,
                victory_timestamp: final(self)@.victory_timestamp,
                ..old(self)@
            }),
            old(self)@.victory_achieved ==> final(self)@ == old(self)@,
            (!old(self)@.victory_achieved && !r) ==> final(self)@ == old(self)@,
            (!old(self)@.victory_achieved && r) ==> final(self)@.victory_timestamp is Some,
    {
        if self.victory_achieved {
            return true;
        }
        if participants.len() == 0 {
            return false;
        }
        let progress = self.calculate_player_progress(participants);
        let mut all = true;
        let mut k: usize = 0;
        while k < progress.len()
            invariant
                0 <= k <= progress@.len(),
                progress@.len() == participants@.len(),
                forall|q: int|
                    0 <= q < progress@.len() ==> #[trigger] progress_view(progress@)[q]
                        == progress_entry(self@, parts_view(participants@), q),
                all == (forall|q: int|
                    0 <= q < k ==> (#[trigger] progress_entry_at(
                        self@.config,
                        self@.player_notes,
                        parts_view(participants@),
                        q,
                    )).completed),
            decreases progress@.len() - k,
        {
            let e = &progress[k];
            proof {
                assert(progress_view(progress@)[k as int] == progress_entry_at(
                    self@.config,
                    self@.player_notes,
                    parts_view(participants@),
                    k as int,
                ));
            }
            if !e.completed {
                all = false;
            }
            k += 1;
        }
        if all {
            self.victory_achieved = true;
            self.victory_timestamp = Some(ChatRoom::current_timestamp());
        }
        all
    }

    /// The victory state: the monotonic flag, everyone's progress, and when
    /// victory was first achieved.
    pub fn get_victory_state(&self, participants: &Vec<Participant>) -> (r: VictoryState)
        requires
            self.wf(),
        ensures
            r.achieved == self@.victory_achieved,
            r.unlocked_at == self@.victory_timestamp,
            r.player_progress@.len() == participants@.len(),
            forall|k: int|
                0 <= k < r.player_progress@.len() ==> #[trigger] progress_view(
                    r.player_progress@,
                )[k] == progress_entry(self@, parts_view(participants@), k),
    {
        VictoryState {
            achieved: self.victory_achieved,
            player_progress: self.calculate_player_progress(participants),
            unlocked_at: self.victory_timestamp,
        }
    }

    /// Censor one message for a viewer country under this game's flags and
    /// exemptions.
    pub fn censor_message_for(&self, message: &Message, viewer_country: &CountryCode) -> (r: (
        String,
        bool,
    ))
        requires
            self.wf(),
        ensures
            (r.0@, r.1) == censor_view(
                self@.config,
                self@.sender_censor,
                self@.receiver_censor,
                self@.shadow_ban,
                self@.allowed_countries,
                message@,
                viewer_country@,
            ),
    {
        let sys = String::from_str("SYSTEM");
        if message.sender_id == sys {
            return (message.content.clone(), false);
        }
        let censor_sender = self.sender_censor && !contains_string(
            &self.allowed_countries,
            &message.sender_country,
        );
        let censor_receiver = self.receiver_censor && !contains_string(
            &self.allowed_countries,
            viewer_country,
        );
        if self.shadow_ban && message.sender_country == *viewer_country {
            return (message.content.clone(), false);
        }
        let sender_opt: Option<&CountryCode> = if censor_sender {
            Some(&message.sender_country)
        } else {
            None
        };
        let receiver_opt: Option<&CountryCode> = if censor_receiver {
            Some(viewer_country)
        } else {
            None
        };
        self.filter.censor_message(message.content.as_str(), sender_opt, receiver_opt)
    }
}

impl GameRules for CensorshipGame {
    open spec fn rules(&self) -> GameModel {
        self@
    }

    open spec fn rules_wf(&self) -> bool {
        self.wf()
    }

    fn allowed_words(&self) -> (r: &Vec<String>) {
        CensorshipGame::allowed_words(self)
    }

    fn is_word_allowed(&self, word: &str) -> (r: bool) {
        CensorshipGame::is_word_allowed(self, word)
    }

    fn censor_message_for(&self, message: &Message, viewer_country: &CountryCode) -> (r: (
        String,
        bool,
    )) {
        CensorshipGame::censor_message_for(self, message, viewer_country)
    }

    fn submit_player_notes(&mut self, user_id: &UserId, notes: Vec<(CountryCode, Vec<String>)>) {
        CensorshipGame::submit_player_notes(self, user_id, notes)
    }

    fn get_player_notes(&self, user_id: &UserId) -> (r: Option<
        &Vec<(CountryCode, Vec<String>)>,
    >) {
        CensorshipGame::get_player_notes(self, user_id)
    }

    fn get_all_player_notes(&self) -> (r: &Vec<(UserId, Vec<(CountryCode, Vec<String>)>)>) {
        CensorshipGame::get_all_player_notes(self)
    }

    fn calculate_player_progress(&self, participants: &Vec<Participant>) -> (r: Vec<
        PlayerProgress,
    >) {
        CensorshipGame::calculate_player_progress(self, participants)
    }

    fn check_victory(&mut self, participants: &Vec<Participant>) -> (r: bool) {
        CensorshipGame::check_victory(self, participants)
    }

    fn get_victory_state(&self, participants: &Vec<Participant>) -> (r: VictoryState) {
        CensorshipGame::get_victory_state(self, participants)
    }

    fn unlock_all_countries(&mut self) {
        CensorshipGame::unlock_all_countries(self)
    }

    fn filter_config(&self) -> (r: &FilterConfig) {
        CensorshipGame::filter_config(self)
    }
}

/// Two word lists carry the same set of words.
fn word_sets_equal(a: &Vec<String>, b: &Vec<String>) -> (r: bool)
    ensures
        r == (words_view(a@).to_set() == words_view(b@).to_set()),
{
    let ghost av = words_view(a@);
    let ghost bv = words_view(b@);
    let mut i: usize = 0;
    while i < a.len()
        invariant
            0 <= i <= a@.len(),
            av == words_view(a@),
            bv == words_view(b@),
            av.len() == a@.len(),
            forall|k: int| 0 <= k < i ==> bv.contains(#[trigger] av[k]),
        decreases a@.len() - i,
    {
        let w = &a[i];
        if !contains_string(b, w) {
            proof {
                assert(av.contains(av[i as int])) by {
                    assert(av[i as int] == av[i as int]);
                }
                assert(av.to_set().contains(av[i as int]));
                assert(!bv.to_set().contains(av[i as int]));
            }
            return false;
        }
        i += 1;
    }
    let mut j: usize = 0;
    while j < b.len()
        invariant
            0 <= j <= b@.len(),
            av == words_view(a@),
            bv == words_view(b@),
            bv.len() == b@.len(),
            forall|k: int| 0 <= k < av.len() ==> bv.contains(#[trigger] av[k]),
            forall|k: int| 0 <= k < j ==> av.contains(#[trigger] bv[k]),
        decreases b@.len() - j,
    {
        let w = &b[j];
        if !contains_string(a, w) {
            proof {
                assert(bv.to_set().contains(bv[j as int]));
                assert(!av.to_set().contains(bv[j as int]));
            }
            return false;
        }
        j += 1;
    }
    proof {
        assert forall|x: Seq<char>| av.to_set().contains(x) == bv.to_set().contains(x) by {
            if av.to_set().contains(x) {
                let k = choose|k: int| 0 <= k < av.len() && av[k] == x;
                assert(bv.contains(av[k]));
            }
            if bv.to_set().contains(x) {
                let k = choose|k: int| 0 <= k < bv.len() && bv[k] == x;
                assert(av.contains(bv[k]));
            }
        }
        assert(av.to_set() =~= bv.to_set());
    }
    true
}

/// A submitted answer solves the puzzle: it names every configured country,
/// no others, and for each gives exactly that country's banned words as a
/// set.
pub open spec fn solve_correct(
    banned: Seq<(Seq<char>, Seq<Seq<char>>)>,
    answer: Seq<(Seq<char>, Seq<Seq<char>>)>,
) -> bool {
    &&& answer.len() == banned.len()
    &&& keys_unique(answer)
    &&& forall|i: int|
        0 <= i < answer.len() ==> crate::data::has_key(banned, (#[trigger] answer[i]).0)
            && lookup_words(banned, answer[i].0).to_set() == answer[i].1.to_set()
}

/// Whether an answer matches the banned-word table exactly.
pub fn solve_answer(
    banned_words: &Vec<(CountryCode, Vec<String>)>,
    answer: &Vec<(CountryCode, Vec<String>)>,
) -> (r: bool)
    ensures
        r == solve_correct(entries_view(banned_words@), entries_view(answer@)),
{
    let ghost bw = entries_view(banned_words@);
    let ghost aw = entries_view(answer@);
    if answer.len() != banned_words.len() {
        return false;
    }
    let mut i: usize = 0;
    while i < answer.len()
        invariant
            0 <= i <= answer@.len(),
            bw == entries_view(banned_words@),
            aw == entries_view(answer@),
            aw.len() == answer@.len(),
            aw.len() == bw.len(),
            forall|a: int, b: int| 0 <= a < b < i ==> aw[a].0 != aw[b].0,
            forall|k: int|
                0 <= k < i ==> crate::data::has_key(bw, (#[trigger] aw[k]).0) && lookup_words(
                    bw,
                    aw[k].0,
                ).to_set() == aw[k].1.to_set(),
        decreases answer@.len() - i,
    {
        let entry = &answer[i];
        let mut j: usize = 0;
        while j < i
            invariant
                0 <= j <= i < answer@.len(),
                aw == entries_view(answer@),
                aw.len() == answer@.len(),
                forall|q: int| 0 <= q < j ==> (#[trigger] aw[q]).0 != aw[i as int].0,
            decreases i - j,
        {
            let earlier = &answer[j];
            let cur = &answer[i];
            proof {
                assert(aw[j as int].0 == answer@[j as int].0@);
                assert(aw[i as int].0 == answer@[i as int].0@);
            }
            if earlier.0 == cur.0 {
                proof {
                    assert(aw[j as int].0 == aw[i as int].0);
                    assert(!keys_unique(aw));
                }
                return false;
            }
            j += 1;
        }
        match crate::filter::find_country(banned_words, &entry.0) {
            Some(idx) => {
                let expected = &banned_words[idx];
                if !word_sets_equal(&entry.1, &expected.1) {
                    proof {
                        assert(words_view(expected.1@) == lookup_words(bw, aw[i as int].0));
                        assert(words_view(entry.1@) == aw[i as int].1);
                    }
                    return false;
                }
                proof {
                    assert(words_view(expected.1@) == lookup_words(bw, aw[i as int].0));
                    assert(lookup_words(bw, aw[i as int].0).to_set() == aw[i as int].1.to_set());
                }
            },
            None => {
                proof {
                    assert(!crate::data::has_key(bw, aw[i as int].0));
                }
                return false;
            },
        }
        i += 1;
    }
    true
}

/// Whether every player's stored notes solve the puzzle.
pub fn all_notes_solve(
    banned_words: &Vec<(CountryCode, Vec<String>)>,
    notes: &Vec<(UserId, Vec<(CountryCode, Vec<String>)>)>,
) -> (r: bool)
    ensures
        r == forall|i: int|
            0 <= i < notes@.len() ==> solve_correct(
                entries_view(banned_words@),
                (#[trigger] notes_view(notes@)[i]).1,
            ),
{
    let ghost bw = entries_view(banned_words@);
    let ghost nv = notes_view(notes@);
    let mut i: usize = 0;
    while i < notes.len()
        invariant
            0 <= i <= notes@.len(),
            bw == entries_view(banned_words@),
            nv == notes_view(notes@),
            nv.len() == notes@.len(),
            forall|k: int| 0 <= k < i ==> solve_correct(bw, (#[trigger] nv[k]).1),
        decreases notes@.len() - i,
    {
        let entry = &notes[i];
        if !solve_answer(banned_words, &entry.1) {
            proof {
                assert(nv[i as int].1 == entries_view(entry.1@));
            }
            return false;
        }
        proof {
            assert(nv[i as int].1 == entries_view(entry.1@));
        }
        i += 1;
    }
    true
}

/// A player's stored submission entry, if any.
pub(crate) fn find_note<'a>(
    ns: &'a Vec<(UserId, Vec<(CountryCode, Vec<String>)>)>,
    user_id: &UserId,
) -> (r: Option<&'a Vec<(CountryCode, Vec<String>)>>)
    ensures
        match r {
            Some(v) => entries_view(v@) == lookup_note(notes_view(ns@), user_id@),
            None => lookup_note(notes_view(ns@), user_id@) == Seq::<(
                Seq<char>,
                Seq<Seq<char>>,
            )>::empty(),
        },
{
    let ghost nv = notes_view(ns@);
    let mut i: usize = 0;
    while i < ns.len()
        invariant
            0 <= i <= ns@.len(),
            nv == notes_view(ns@),
            nv.len() == ns@.len(),
            forall|q: int| 0 <= q < i ==> nv[q].0 != user_id@,
        decreases ns@.len() - i,
    {
        let entry = &ns[i];
        if entry.0 == *user_id {
            proof {
                lemma_lookup_note_prefix(nv, user_id@, i as int);
                assert(nv.skip(i as int)[0] == nv[i as int]);
            }
            return Some(&entry.1);
        }
        i += 1;
    }
    proof {
        lemma_lookup_note_prefix(nv, user_id@, nv.len() as int);
        assert(nv.skip(nv.len() as int) =~= Seq::<(
            Seq<char>,
            Seq<(Seq<char>, Seq<Seq<char>>)>,
        )>::empty());
    }
    None
}

/// Skipping entries whose key is not the one sought leaves the note lookup
/// unchanged.
proof fn lemma_lookup_note_prefix(
    ns: Seq<(Seq<char>, Seq<(Seq<char>, Seq<Seq<char>>)>)>,
    uid: Seq<char>,
    i: int,
)
    requires
        0 <= i <= ns.len(),
        forall|q: int| 0 <= q < i ==> ns[q].0 != uid,
    ensures
        lookup_note(ns, uid) == lookup_note(ns.skip(i), uid),
    decreases i,
{
    if i > 0 {
        assert(ns.drop_first() =~= ns.skip(1));
        lemma_lookup_note_prefix(ns.skip(1), uid, i - 1);
        assert(ns.skip(1).skip(i - 1) =~= ns.skip(i));
    } else {
        assert(ns.skip(0) =~= ns);
    }
}

} // verus!
