use futures::channel::mpsc::UnboundedSender;
use vstd::multiset::Multiset;
use vstd::prelude::*;

use crate::message::{copy_strings, strings_view, FromPlayerMessage, MessageView, ToPlayerMessage};
use crate::outside::{send_to, shuffle_in_place};
use crate::question::Question;
use crate::round_data::{pair_view, RoundData, RoundView};

verus! {

/// One connected player: the channel to its connection and its pending
/// answer and guess for the current round.
pub struct PlayerState {
    pub name: String,
    pub sender: UnboundedSender<ToPlayerMessage>,
    pub answer: Option<bool>,
    pub guess: Option<String>,
}

/// A player is ready when both its answer and its guess are set.
pub open spec fn is_ready(p: PlayerState) -> bool {
    p.answer.is_some() && p.guess.is_some()
}

pub open spec fn all_ready(ps: Seq<PlayerState>) -> bool {
    forall|i: int| 0 <= i < ps.len() ==> is_ready(#[trigger] ps[i])
}

pub open spec fn names_unique(ps: Seq<PlayerState>) -> bool {
    forall|i: int, j: int|
        0 <= i < ps.len() && 0 <= j < ps.len() && i != j ==> (#[trigger] ps[i]).name@ != (#[trigger] ps[j]).name@
}

pub open spec fn player_names(ps: Seq<PlayerState>) -> Seq<Seq<char>> {
    ps.map_values(|p: PlayerState| p.name@)
}

/// The names of the ready players, in player order.
pub open spec fn ready_names(ps: Seq<PlayerState>) -> Seq<Seq<char>>
    decreases ps.len(),
{
    if ps.len() == 0 {
        seq![]
    } else if is_ready(ps.last()) {
        ready_names(ps.drop_last()).push(ps.last().name@)
    } else {
        ready_names(ps.drop_last())
    }
}

/// The snapshot of the players that a `PlayerList` message carries.
pub open spec fn list_view(ps: Seq<PlayerState>) -> MessageView {
    MessageView::PlayerList { players: player_names(ps), has_answered: ready_names(ps) }
}

pub open spec fn yes_count(ps: Seq<PlayerState>) -> nat
    decreases ps.len(),
{
    if ps.len() == 0 {
        0
    } else {
        yes_count(ps.drop_last()) + if ps.last().answer == Some(true) { 1nat } else { 0nat }
    }
}

pub open spec fn no_count(ps: Seq<PlayerState>) -> nat
    decreases ps.len(),
{
    if ps.len() == 0 {
        0
    } else {
        no_count(ps.drop_last()) + if ps.last().answer == Some(false) { 1nat } else { 0nat }
    }
}

pub open spec fn guess_text(p: PlayerState) -> Seq<char> {
    match p.guess {
        Some(g) => g@,
        None => seq![],
    }
}

pub open spec fn guesses_of(ps: Seq<PlayerState>) -> Seq<(Seq<char>, Seq<char>)> {
    ps.map_values(|p: PlayerState| (p.name@, guess_text(p)))
}

/// The record of a round that the players `ps` complete on `question`.
pub open spec fn round_of(ps: Seq<PlayerState>, question: Seq<char>) -> RoundView {
    RoundView { question, yes: yes_count(ps), no: no_count(ps), guesses: guesses_of(ps) }
}

pub open spec fn cleared_player(p: PlayerState) -> PlayerState {
    PlayerState { name: p.name, sender: p.sender, answer: None, guess: None }
}

/// The players with their answers and guesses unset.
pub open spec fn cleared(ps: Seq<PlayerState>) -> Seq<PlayerState> {
    ps.map_values(|p: PlayerState| cleared_player(p))
}

/// Every player of `post` is one of `pre`.
pub open spec fn kept_from(post: Seq<PlayerState>, pre: Seq<PlayerState>) -> bool {
    forall|i: int| 0 <= i < post.len() ==> pre.contains(#[trigger] post[i])
}

/// The players of `ps` whose entry in `delivered` is true, in order.
pub open spec fn kept_by(ps: Seq<PlayerState>, delivered: Seq<bool>) -> Seq<PlayerState>
    decreases ps.len(),
{
    if ps.len() == 0 || delivered.len() == 0 {
        seq![]
    } else if delivered.last() {
        kept_by(ps.drop_last(), delivered.drop_last()).push(ps.last())
    } else {
        kept_by(ps.drop_last(), delivered.drop_last())
    }
}

/// A broadcast of `m` to the players `pre`, in passes whose send outcomes
/// are `passes`: each pass sends its message to every player and keeps
/// exactly those whose channel took it; a pass that removed players is
/// followed by a pass sending the `PlayerList` of those that remain.
pub open spec fn broadcast_by(
    pre: Seq<PlayerState>,
    log0: Seq<MessageView>,
    m: MessageView,
    passes: Seq<Seq<bool>>,
    post: Seq<PlayerState>,
    log1: Seq<MessageView>,
) -> bool
    decreases passes.len(),
{
    if passes.len() == 0 {
        false
    } else if kept_by(pre, passes[0]).len() >= pre.len() {
        passes[0].len() == pre.len() && post == kept_by(pre, passes[0]) && log1 == log0.push(m)
    } else {
        passes[0].len() == pre.len() && broadcast_by(
            kept_by(pre, passes[0]),
            log0.push(m),
            list_view(kept_by(pre, passes[0])),
            passes.drop_first(),
            post,
            log1,
        )
    }
}

/// What a broadcast of `m` to the players `pre` leaves, for some outcome of
/// the sends: the players `post` and the log `log1`.
pub open spec fn broadcast_outcome(
    pre: Seq<PlayerState>,
    log0: Seq<MessageView>,
    m: MessageView,
    post: Seq<PlayerState>,
    log1: Seq<MessageView>,
) -> bool {
    exists|passes: Seq<Seq<bool>>| broadcast_by(pre, log0, m, passes, post, log1)
}

/// Facts of every broadcast outcome: the remaining players come from `pre`
/// with unique names, `m` is logged first, every message after it is a
/// `PlayerList`, the last of them lists `post`, and nothing follows `m` when
/// nobody was removed.
pub open spec fn broadcast_facts(
    pre: Seq<PlayerState>,
    log0: Seq<MessageView>,
    m: MessageView,
    post: Seq<PlayerState>,
    log1: Seq<MessageView>,
) -> bool {
    &&& kept_from(post, pre)
    &&& names_unique(post)
    &&& post.len() <= pre.len()
    &&& log1.len() > log0.len()
    &&& log1.subrange(0, log0.len() as int + 1) == log0.push(m)
    &&& (post.len() == pre.len() <==> log1.len() == log0.len() + 1)
    &&& (post.len() == pre.len() ==> post == pre)
    &&& (post.len() < pre.len() ==> log1.last() == list_view(post))
    &&& forall|k: int| log0.len() + 1 <= k < log1.len() ==> (#[trigger] log1[k]) is PlayerList
}

/// What `kept_by` keeps: players of `ps`, in order, all of them when every
/// send succeeded.
pub proof fn lemma_kept_by(ps: Seq<PlayerState>, delivered: Seq<bool>)
    requires
        delivered.len() == ps.len(),
        names_unique(ps),
    ensures
        kept_from(kept_by(ps, delivered), ps),
        names_unique(kept_by(ps, delivered)),
        kept_by(ps, delivered).len() <= ps.len(),
        kept_by(ps, delivered).len() == ps.len() ==> kept_by(ps, delivered) == ps,
    decreases ps.len(),
{
    if ps.len() > 0 {
        let init = ps.drop_last();
        assert(names_unique(init)) by {
            assert forall|i: int, j: int|
                0 <= i < init.len() && 0 <= j < init.len() && i != j implies (#[trigger] init[i]).name@ != (#[trigger] init[j]).name@ by {
                assert(init[i] == ps[i] && init[j] == ps[j]);
            }
        }
        lemma_kept_by(init, delivered.drop_last());
        let r = kept_by(init, delivered.drop_last());
        assert forall|i: int| 0 <= i < r.len() implies ps.contains(#[trigger] r[i]) by {
            let j = choose|j: int| 0 <= j < init.len() && init[j] == r[i];
            assert(ps[j] == r[i]);
        }
        if delivered.last() {
            let k = r.push(ps.last());
            assert(ps[ps.len() - 1] == ps.last());
            assert forall|i: int| 0 <= i < k.len() implies ps.contains(#[trigger] k[i]) by {
                if i < r.len() {
                    assert(k[i] == r[i]);
                } else {
                    assert(k[i] == ps[ps.len() - 1]);
                }
            }
            assert forall|i: int, j: int|
                0 <= i < k.len() && 0 <= j < k.len() && i != j implies (#[trigger] k[i]).name@ != (#[trigger] k[j]).name@ by {
                if i == r.len() {
                    let jj = choose|jj: int| 0 <= jj < init.len() && init[jj] == r[j];
                    assert(ps[jj] == k[j]);
                } else if j == r.len() {
                    let ii = choose|ii: int| 0 <= ii < init.len() && init[ii] == r[i];
                    assert(ps[ii] == k[i]);
                } else {
                    assert(k[i] == r[i] && k[j] == r[j]);
                }
            }
            if k.len() == ps.len() {
                assert(r == init);
                assert(k =~= ps);
            }
        }
    }
}

/// The state of one game room: the players, the question sequence with its
/// cursor, and the completed rounds.
pub struct GameRoom {
    pub previous_rounds: Vec<RoundData>,
    pub players: Vec<PlayerState>,
    pub questions: Vec<Question>,
    pub current_question: usize,
    /// Every message broadcast so far, in order.
    pub sent: Ghost<Seq<MessageView>>,
    /// The questions the room was made with.
    pub loaded: Ghost<Multiset<Question>>,
    /// Every first message pushed to a joining player, with its name, in order.
    pub welcomed: Ghost<Seq<(Seq<char>, MessageView)>>,
}

impl GameRoom {
    pub open spec fn question_seq(&self) -> Seq<Question> {
        self.questions@
    }

    pub open spec fn cursor(&self) -> nat {
        self.current_question as nat
    }

    pub open spec fn active(&self) -> Question {
        self.question_seq()[self.cursor() as int]
    }

    pub open spec fn wf(&self) -> bool {
        &&& 0 < self.question_seq().len()
        &&& self.cursor() < self.question_seq().len()
        &&& self.question_seq().to_multiset() == self.loaded@
        &&& names_unique(self.players@)
    }

    /// The question state of `self` is that of `pre` moved on by one: the next
    /// question of the sequence, or, at its end, a reshuffled sequence from
    /// its start that does not begin with the text just asked, unless every
    /// question has that text.
    pub open spec fn advanced_from(&self, pre: &GameRoom) -> bool {
        &&& self.loaded == pre.loaded
        &&& if pre.cursor() + 1 < pre.question_seq().len() {
            self.question_seq() == pre.question_seq() && self.cursor() == pre.cursor() + 1
        } else {
            &&& self.question_seq().to_multiset() == pre.question_seq().to_multiset()
            &&& self.cursor() == 0
            &&& (exists|i: int|
                0 <= i < pre.question_seq().len() && (#[trigger] pre.question_seq()[i]).text@ != pre.active().text@)
                ==> self.active().text@ != pre.active().text@
        }
    }

    /// A room over the given questions, shuffled, with no players.
    pub fn new(questions: Vec<Question>) -> (room: GameRoom)
        requires
            questions.len() > 0,
        ensures
            room.wf(),
            room.loaded@ == questions@.to_multiset(),
            room.cursor() == 0,
            room.players@.len() == 0,
            room.previous_rounds@.len() == 0,
            room.sent@.len() == 0,
    {
        let ghost loaded = questions@.to_multiset();
        let mut room = GameRoom {
            previous_rounds: Vec::new(),
            players: Vec::new(),
            questions,
            current_question: 0,
            sent: Ghost(Seq::empty()),
            loaded: Ghost(loaded),
            welcomed: Ghost(Seq::empty()),
        };
        room.shuffle();
        proof {
            broadcast use vstd::seq_lib::group_to_multiset_ensures;
            assert(room.questions@.len() == room.questions@.to_multiset().len());
        }
        room
    }

    fn shuffle(&mut self)
        ensures
            final(self).question_seq().to_multiset() == old(self).question_seq().to_multiset(),
            final(self).cursor() == 0,
            final(self).players == old(self).players,
            final(self).previous_rounds == old(self).previous_rounds,
            final(self).sent == old(self).sent,
            final(self).loaded == old(self).loaded,
    {
        shuffle_in_place(&mut self.questions);
        self.current_question = 0;
        proof {
            broadcast use vstd::seq_lib::group_to_multiset_ensures;
        }
    }

    /// The active question.
    pub fn get_question(&self) -> (q: &Question)
        requires
            self.wf(),
        ensures
            *q == self.active(),
    {
        &self.questions[self.current_question]
    }

    /// Moves on to the next question, reshuffling at the end of the sequence.
    pub fn next_question(&mut self)
        requires
            old(self).wf(),
        ensures
            final(self).wf(),
            final(self).advanced_from(old(self)),
            final(self).players == old(self).players,
            final(self).previous_rounds == old(self).previous_rounds,
            final(self).sent == old(self).sent,
    {
        if self.current_question >= self.questions.len() - 1 {
            let previous = self.get_question().text.clone();
            let ghost pre = self.questions@;
            self.shuffle();
            proof {
                broadcast use vstd::seq_lib::group_to_multiset_ensures;
                assert(self.questions@.len() == self.questions@.to_multiset().len());
            }
            if self.questions[0].text == previous {
                let mut j: usize = 1;
                while j < self.questions.len() && self.questions[j].text == previous
                    invariant
                        1 <= j <= self.questions.len(),
                        forall|k: int| 0 <= k < j ==> (#[trigger] self.questions@[k]).text@ == previous@,
                    decreases self.questions.len() - j,
                {
                    j = j + 1;
                }
                if j < self.questions.len() {
                    let ghost shuffled = self.questions@;
                    let q = self.questions.remove(j);
                    self.questions.insert(0, q);
                    proof {
                        broadcast use vstd::seq_lib::group_to_multiset_ensures;
                        assert(self.questions@.to_multiset() == shuffled.to_multiset());
                    }
                } else {
                    proof {
                        broadcast use vstd::seq_lib::group_to_multiset_ensures;
                        if exists|i: int| 0 <= i < pre.len() && (#[trigger] pre[i]).text@ != previous@ {
                            let i = choose|i: int| 0 <= i < pre.len() && (#[trigger] pre[i]).text@ != previous@;
                            assert(pre.to_multiset().count(pre[i]) > 0);
                            assert(self.questions@.contains(pre[i]));
                        }
                    }
                }
            }
        } else {
            self.current_question = self.current_question + 1;
        }
    }
    /// The `PlayerList` message for the current players.
    pub fn player_list(&self) -> (m: ToPlayerMessage)
        ensures
            m@ == list_view(self.players@),
    {
        let mut players: Vec<String> = Vec::new();
        let mut has_answered: Vec<String> = Vec::new();
        let mut i: usize = 0;
        while i < self.players.len()
            invariant
                i <= self.players.len(),
                strings_view(players@) == player_names(self.players@.subrange(0, i as int)),
                strings_view(has_answered@) == ready_names(self.players@.subrange(0, i as int)),
            decreases self.players.len() - i,
        {
            let p = &self.players[i];
            let ghost before = self.players@.subrange(0, i as int);
            let ghost after = self.players@.subrange(0, i + 1);
            assert(after.drop_last() == before);
            let ghost prev = players@;
            let ghost prev_ready = has_answered@;
            players.push(p.name.clone());
            assert(players@ == prev.push(p.name));
            assert(strings_view(players@) =~= strings_view(prev).push(p.name@));
            assert(player_names(after) =~= player_names(before).push(p.name@));
            if p.answer.is_some() && p.guess.is_some() {
                has_answered.push(p.name.clone());
                assert(has_answered@ == prev_ready.push(p.name));
                assert(strings_view(has_answered@) =~= strings_view(prev_ready).push(p.name@));
            }
            i = i + 1;
        }
        assert(self.players@.subrange(0, self.players.len() as int) == self.players@);
        ToPlayerMessage::PlayerList { players, has_answered }
    }
}

/// The players whose entry in `delivered` is true, in order.
pub fn keep_delivered(players: Vec<PlayerState>, delivered: &Vec<bool>) -> (kept: Vec<PlayerState>)
    requires
        delivered.len() == players.len(),
    ensures
        kept@ == kept_by(players@, delivered@),
{
    let mut rest = players;
    let ghost ps = rest@;
    let mut kept: Vec<PlayerState> = Vec::new();
    let mut k: usize = 0;
    assert(ps.len() == rest.len());
    while rest.len() > 0
        invariant
            k + rest.len() == ps.len(),
            ps.len() <= usize::MAX,
            delivered.len() == ps.len(),
            rest@ == ps.subrange(k as int, ps.len() as int),
            kept@ == kept_by(ps.subrange(0, k as int), delivered@.subrange(0, k as int)),
        decreases rest.len(),
    {
        let p = rest.remove(0);
        assert(p == ps[k as int]);
        assert(ps.subrange(0, k + 1).drop_last() == ps.subrange(0, k as int));
        assert(delivered@.subrange(0, k + 1).drop_last() == delivered@.subrange(0, k as int));
        assert(ps.subrange(0, k + 1).last() == p);
        assert(delivered@.subrange(0, k + 1).last() == delivered@[k as int]);
        if delivered[k] {
            kept.push(p);
        }
        assert(rest@ =~= ps.subrange(k + 1, ps.len() as int));
        k = k + 1;
    }
    assert(ps.subrange(0, k as int) == ps);
    assert(delivered@.subrange(0, k as int) == delivered@);
    kept
}

/// Sends `message` to each of `players`, then keeps, in order, exactly those
/// whose channel took it. Returns whether any was removed, and the outcome of
/// each send.
fn send_round(players: &mut Vec<PlayerState>, message: &ToPlayerMessage) -> (r: (bool, Ghost<Seq<bool>>))
    ensures
        r.1@.len() == old(players)@.len(),
        final(players)@ == kept_by(old(players)@, r.1@),
        r.0 <==> final(players).len() < old(players).len(),
{
    let mut delivered: Vec<bool> = Vec::new();
    let mut i: usize = 0;
    while i < players.len()
        invariant
            i <= players.len(),
            delivered.len() == i,
        decreases players.len() - i,
    {
        let ok = send_to(&players[i].sender, message.duplicate());
        delivered.push(ok);
        i = i + 1;
    }
    let before = players.len();
    let mut rest: Vec<PlayerState> = Vec::new();
    std::mem::swap(&mut rest, players);
    let kept = keep_delivered(rest, &delivered);
    *players = kept;
    (players.len() < before, Ghost(delivered@))
}

impl GameRoom {
    /// Sends `message` to every player. The players whose channel fails are
    /// removed together after the pass, and the remaining players are then
    /// sent one `PlayerList` (repeated only while such a pass removes more).
    pub fn broadcast(&mut self, message: ToPlayerMessage)
        requires
            names_unique(old(self).players@),
        ensures
            broadcast_outcome(old(self).players@, old(self).sent@, message@, final(self).players@, final(self).sent@),
            broadcast_facts(old(self).players@, old(self).sent@, message@, final(self).players@, final(self).sent@),
            final(self).questions == old(self).questions,
            final(self).current_question == old(self).current_question,
            final(self).previous_rounds == old(self).previous_rounds,
            final(self).loaded == old(self).loaded,
            final(self).welcomed == old(self).welcomed,
        decreases old(self).players.len(),
    {
        let ghost pre = self.players@;
        let ghost log0 = self.sent@;
        let (dropped, outcome) = send_round(&mut self.players, &message);
        self.sent = Ghost(self.sent@.push(message@));
        proof {
            lemma_kept_by(pre, outcome@);
        }
        if dropped {
            let ghost mid = self.players@;
            let ghost log_mid = self.sent@;
            let list = self.player_list();
            self.broadcast(list);
            proof {
                let rest = choose|passes: Seq<Seq<bool>>|
                    broadcast_by(mid, log_mid, list_view(mid), passes, self.players@, self.sent@);
                let all = seq![outcome@] + rest;
                assert(all.drop_first() =~= rest);
                assert(all[0] == outcome@);
                assert(broadcast_by(pre, log0, message@, all, self.players@, self.sent@));
                assert forall|i: int| 0 <= i < self.players@.len() implies pre.contains(#[trigger] self.players@[i]) by {
                    let j = choose|j: int| 0 <= j < mid.len() && mid[j] == self.players@[i];
                    assert(pre.contains(mid[j]));
                }
                let n = log0.len() as int;
                assert(self.sent@.subrange(0, n + 1) =~= self.sent@.subrange(0, n + 2).subrange(0, n + 1));
                assert(log_mid.push(list_view(mid)).subrange(0, n + 1) =~= log0.push(message@));
                assert forall|k: int| n + 1 <= k < self.sent@.len() implies (#[trigger] self.sent@[k]) is PlayerList by {
                    if k == n + 1 {
                        assert(self.sent@[k] == self.sent@.subrange(0, n + 2)[k]);
                    }
                }
                assert(self.players@.len() < pre.len());
                assert(self.sent@.len() > n + 1);
                if self.players@.len() == mid.len() {
                    assert(self.sent@.len() == log_mid.len() + 1);
                    assert(self.sent@.last() == self.sent@.subrange(0, log_mid.len() as int + 1)[log_mid.len() as int]);
                }
                assert(self.sent@.last() == list_view(self.players@));
                assert(kept_from(self.players@, pre));
            }
        } else {
            proof {
                let all = seq![outcome@];
                assert(all[0] == outcome@);
                assert(broadcast_by(pre, log0, message@, all, self.players@, self.sent@));
                assert(self.sent@.subrange(0, log0.len() as int + 1) =~= log0.push(message@));
            }
        }
    }

    /// Sends every player the current `PlayerList`.
    pub fn broadcast_players(&mut self)
        requires
            names_unique(old(self).players@),
        ensures
            broadcast_outcome(old(self).players@, old(self).sent@, list_view(old(self).players@), final(self).players@, final(self).sent@),
            broadcast_facts(old(self).players@, old(self).sent@, list_view(old(self).players@), final(self).players@, final(self).sent@),
            final(self).welcomed == old(self).welcomed,
            final(self).questions == old(self).questions,
            final(self).current_question == old(self).current_question,
            final(self).previous_rounds == old(self).previous_rounds,
            final(self).loaded == old(self).loaded,
    {
        let list = self.player_list();
        self.broadcast(list);
    }
}

/// The index of the player called `name`, if one is present.
pub open spec fn index_of(ps: Seq<PlayerState>, name: Seq<char>) -> Option<int> {
    if exists|i: int| 0 <= i < ps.len() && (#[trigger] ps[i]).name@ == name {
        Some(choose|i: int| 0 <= i < ps.len() && (#[trigger] ps[i]).name@ == name)
    } else {
        None
    }
}

/// The players after admitting `p`: it takes the place of a player of the
/// same name, or joins at the end.
pub open spec fn admitted(ps: Seq<PlayerState>, p: PlayerState) -> Seq<PlayerState> {
    match index_of(ps, p.name@) {
        Some(i) => ps.update(i, p),
        None => ps.push(p),
    }
}

/// The players after the one at `i` sets its answer.
pub open spec fn with_answer(ps: Seq<PlayerState>, i: int, yes: bool) -> Seq<PlayerState> {
    ps.update(i, PlayerState { answer: Some(yes), ..ps[i] })
}

/// The players after the one at `i` sets its guess.
pub open spec fn with_guess(ps: Seq<PlayerState>, i: int, number: String) -> Seq<PlayerState> {
    ps.update(i, PlayerState { guess: Some(number), ..ps[i] })
}

proof fn lemma_index_of_unique(ps: Seq<PlayerState>, i: int)
    requires
        names_unique(ps),
        0 <= i < ps.len(),
    ensures
        index_of(ps, ps[i].name@) == Some(i),
{
    let name = ps[i].name@;
    assert(exists|j: int| 0 <= j < ps.len() && (#[trigger] ps[j]).name@ == name) by {
        assert(ps[i].name@ == name);
    }
}

impl GameRoom {
    /// The position of the player called `name`.
    pub fn find_player(&self, name: &String) -> (r: Option<usize>)
        requires
            names_unique(self.players@),
        ensures
            match r {
                Some(i) => index_of(self.players@, name@) == Some(i as int),
                None => index_of(self.players@, name@) is None,
            },
    {
        let mut i: usize = 0;
        while i < self.players.len()
            invariant
                i <= self.players.len(),
                names_unique(self.players@),
                forall|j: int| 0 <= j < i ==> (#[trigger] self.players@[j]).name@ != name@,
            decreases self.players.len() - i,
        {
            if self.players[i].name == *name {
                proof {
                    lemma_index_of_unique(self.players@, i as int);
                }
                return Some(i);
            }
            i = i + 1;
        }
        None
    }

    /// The message that poses the active question.
    pub fn pose_question(&self) -> (m: ToPlayerMessage)
        requires
            self.wf(),
        ensures
            m@ == (MessageView::PoseQuestion { question: self.active().text@ }),
    {
        ToPlayerMessage::PoseQuestion { question: self.get_question().text.clone() }
    }

    /// Admits a player to whom the active question was pushed, with
    /// `first_sent` the outcome of that push. If it failed, nothing changes;
    /// otherwise the player is added with no answer and no guess (replacing a
    /// player of the same name) and everyone is sent the new `PlayerList`.
    /// Returns whether the player was admitted.
    pub fn accept_player(&mut self, name: String, sender: UnboundedSender<ToPlayerMessage>, first_sent: bool) -> (joined: bool)
        requires
            old(self).wf(),
        ensures
            final(self).wf(),
            joined == first_sent,
            !first_sent ==> *final(self) == *old(self),
            first_sent ==> broadcast_outcome(
                admitted(old(self).players@, PlayerState { name, sender, answer: None, guess: None }),
                old(self).sent@,
                list_view(admitted(old(self).players@, PlayerState { name, sender, answer: None, guess: None })),
                final(self).players@,
                final(self).sent@,
            ),
            final(self).questions == old(self).questions,
            final(self).current_question == old(self).current_question,
            final(self).previous_rounds == old(self).previous_rounds,
            final(self).loaded == old(self).loaded,
            final(self).welcomed == old(self).welcomed,
    {
        if !first_sent {
            return false;
        }
        let state = PlayerState { name, sender, answer: None, guess: None };
        let ghost pre = self.players@;
        match self.find_player(&state.name) {
            Some(i) => {
                self.replace_player(i, state);
            },
            None => {
                self.players.push(state);
                assert forall|a: int, b: int|
                    0 <= a < self.players@.len() && 0 <= b < self.players@.len() && a != b
                        implies (#[trigger] self.players@[a]).name@ != (#[trigger] self.players@[b]).name@ by {
                    if a == pre.len() {
                        assert(pre[b].name@ != state.name@);
                    } else if b == pre.len() {
                        assert(pre[a].name@ != state.name@);
                    }
                }
            },
        }
        self.broadcast_players();
        true
    }

    /// Admits a player: pushes it the active question and, if that push
    /// succeeds, adds it as `accept_player` says. The push is logged in `welcomed`.
    /// Returns whether the player was admitted; if not, nothing else changes.
    pub fn join_player(&mut self, name: String, sender: UnboundedSender<ToPlayerMessage>) -> (joined: bool)
        requires
            old(self).wf(),
        ensures
            final(self).wf(),
            final(self).welcomed@ == old(self).welcomed@.push(
                (name@, MessageView::PoseQuestion { question: old(self).active().text@ }),
            ),
            !joined ==> final(self).players == old(self).players && final(self).sent == old(self).sent,
            joined ==> broadcast_outcome(
                admitted(old(self).players@, PlayerState { name, sender, answer: None, guess: None }),
                old(self).sent@,
                list_view(admitted(old(self).players@, PlayerState { name, sender, answer: None, guess: None })),
                final(self).players@,
                final(self).sent@,
            ),
            final(self).questions == old(self).questions,
            final(self).current_question == old(self).current_question,
            final(self).previous_rounds == old(self).previous_rounds,
            final(self).loaded == old(self).loaded,
    {
        let first = self.pose_question();
        self.welcomed = Ghost(self.welcomed@.push((name@, first@)));
        let first_sent = send_to(&sender, first);
        self.accept_player(name, sender, first_sent)
    }

    /// Removes the player called `name` and sends the others the new
    /// `PlayerList`; nothing happens if no such player is present.
    pub fn disconnect(&mut self, name: &String)
        requires
            old(self).wf(),
        ensures
            final(self).wf(),
            index_of(old(self).players@, name@) is None ==> *final(self) == *old(self),
            match index_of(old(self).players@, name@) {
                Some(i) => broadcast_outcome(
                    old(self).players@.remove(i),
                    old(self).sent@,
                    list_view(old(self).players@.remove(i)),
                    final(self).players@,
                    final(self).sent@,
                ),
                None => true,
            },
            final(self).questions == old(self).questions,
            final(self).current_question == old(self).current_question,
            final(self).previous_rounds == old(self).previous_rounds,
            final(self).loaded == old(self).loaded,
    {
        match self.find_player(name) {
            Some(i) => {
                let ghost pre = self.players@;
                self.players.remove(i);
                assert forall|a: int, b: int|
                    0 <= a < self.players@.len() && 0 <= b < self.players@.len() && a != b
                        implies (#[trigger] self.players@[a]).name@ != (#[trigger] self.players@[b]).name@ by {
                    let a2 = if a < i { a } else { a + 1 };
                    let b2 = if b < i { b } else { b + 1 };
                    assert(self.players@[a] == pre[a2]);
                    assert(self.players@[b] == pre[b2]);
                }
                self.broadcast_players();
            },
            None => {},
        }
    }
}

/// What follows an update of the player at `i` that left the players `mid`:
/// if that player has just become ready (it was not before the update),
/// everyone is sent the new `PlayerList`; otherwise nothing is sent.
pub open spec fn after_update(
    mid: Seq<PlayerState>,
    i: int,
    was_ready: bool,
    log0: Seq<MessageView>,
    post: Seq<PlayerState>,
    log1: Seq<MessageView>,
) -> bool {
    if is_ready(mid[i]) && !was_ready {
        broadcast_outcome(mid, log0, list_view(mid), post, log1)
    } else {
        post == mid && log1 == log0
    }
}

impl GameRoom {
    /// Puts `state` in place of the player at `i`, which has the same name.
    fn replace_player(&mut self, i: usize, state: PlayerState)
        requires
            names_unique(old(self).players@),
            i < old(self).players.len(),
            state.name@ == old(self).players@[i as int].name@,
        ensures
            final(self).players@ == old(self).players@.update(i as int, state),
            names_unique(final(self).players@),
            final(self).questions == old(self).questions,
            final(self).current_question == old(self).current_question,
            final(self).previous_rounds == old(self).previous_rounds,
            final(self).loaded == old(self).loaded,
            final(self).sent == old(self).sent,
            final(self).welcomed == old(self).welcomed,
    {
        let ghost pre = self.players@;
        self.players.remove(i);
        self.players.insert(i, state);
        assert(self.players@ =~= pre.update(i as int, state));
        assert forall|a: int, b: int|
            0 <= a < self.players@.len() && 0 <= b < self.players@.len() && a != b
                implies (#[trigger] self.players@[a]).name@ != (#[trigger] self.players@[b]).name@ by {
            assert(pre[a].name@ == self.players@[a].name@);
            assert(pre[b].name@ == self.players@[b].name@);
        }
    }

    /// Applies one message from the player called `player`: a disconnect
    /// removes it, an answer or a guess is recorded (and announced when it
    /// makes the player ready), a late handshake is ignored, as is any message from
    /// a player that is not present.
    pub fn handle_player_message(&mut self, player: String, message: FromPlayerMessage)
        requires
            old(self).wf(),
        ensures
            final(self).wf(),
            final(self).questions == old(self).questions,
            final(self).current_question == old(self).current_question,
            final(self).previous_rounds == old(self).previous_rounds,
            final(self).loaded == old(self).loaded,
            index_of(old(self).players@, player@) is None ==> *final(self) == *old(self),
            match message {
                FromPlayerMessage::Disconnect => match index_of(old(self).players@, player@) {
                    Some(i) => broadcast_outcome(
                        old(self).players@.remove(i),
                        old(self).sent@,
                        list_view(old(self).players@.remove(i)),
                        final(self).players@,
                        final(self).sent@,
                    ),
                    None => true,
                },
                FromPlayerMessage::Initialize { .. } => *final(self) == *old(self),
                FromPlayerMessage::Answer { yes } => match index_of(old(self).players@, player@) {
                    Some(i) => after_update(
                        with_answer(old(self).players@, i, yes),
                        i,
                        is_ready(old(self).players@[i]),
                        old(self).sent@,
                        final(self).players@,
                        final(self).sent@,
                    ),
                    None => true,
                },
                FromPlayerMessage::Guess { number } => match index_of(old(self).players@, player@) {
                    Some(i) => after_update(
                        with_guess(old(self).players@, i, number),
                        i,
                        is_ready(old(self).players@[i]),
                        old(self).sent@,
                        final(self).players@,
                        final(self).sent@,
                    ),
                    None => true,
                },
            },
    {
        match message {
            FromPlayerMessage::Disconnect => {
                self.disconnect(&player);
            },
            FromPlayerMessage::Initialize { .. } => {},
            FromPlayerMessage::Answer { yes } => {
                if let Some(i) = self.find_player(&player) {
                    let mut state = self.players.remove(i);
                    let was_ready = state.answer.is_some() && state.guess.is_some();
                    state.answer = Some(yes);
                    let ready = !was_ready && state.guess.is_some();
                    self.players.insert(i, state);
                    proof {
                        assert(self.players@ =~= with_answer(old(self).players@, i as int, yes));
                        assert forall|a: int, b: int|
                            0 <= a < self.players@.len() && 0 <= b < self.players@.len() && a != b
                                implies (#[trigger] self.players@[a]).name@ != (#[trigger] self.players@[b]).name@ by {
                            assert(old(self).players@[a].name@ == self.players@[a].name@);
                            assert(old(self).players@[b].name@ == self.players@[b].name@);
                        }
                    }
                    if ready {
                        self.broadcast_players();
                    }
                }
            },
            FromPlayerMessage::Guess { number } => {
                if let Some(i) = self.find_player(&player) {
                    let mut state = self.players.remove(i);
                    let was_ready = state.answer.is_some() && state.guess.is_some();
                    state.guess = Some(number);
                    let ready = !was_ready && state.answer.is_some();
                    self.players.insert(i, state);
                    proof {
                        assert(self.players@ =~= with_guess(old(self).players@, i as int, number));
                        assert forall|a: int, b: int|
                            0 <= a < self.players@.len() && 0 <= b < self.players@.len() && a != b
                                implies (#[trigger] self.players@[a]).name@ != (#[trigger] self.players@[b]).name@ by {
                            assert(old(self).players@[a].name@ == self.players@[a].name@);
                            assert(old(self).players@[b].name@ == self.players@[b].name@);
                        }
                    }
                    if ready {
                        self.broadcast_players();
                    }
                }
            },
        }
    }
}

impl GameRoom {
    /// Whether every player has both an answer and a guess.
    pub fn all_players_ready(&self) -> (r: bool)
        ensures
            r == all_ready(self.players@),
    {
        let mut i: usize = 0;
        while i < self.players.len()
            invariant
                i <= self.players.len(),
                forall|j: int| 0 <= j < i ==> is_ready(#[trigger] self.players@[j]),
            decreases self.players.len() - i,
        {
            if self.players[i].answer.is_none() || self.players[i].guess.is_none() {
                return false;
            }
            i = i + 1;
        }
        true
    }

    /// Tallies the players' answers and guesses into the record of a round on
    /// `question`, and leaves every player with both unset.
    fn tally_and_clear(&mut self, question: String) -> (round: RoundData)
        requires
            names_unique(old(self).players@),
        ensures
            round@ == round_of(old(self).players@, question@),
            final(self).players@ == cleared(old(self).players@),
            names_unique(final(self).players@),
            final(self).questions == old(self).questions,
            final(self).current_question == old(self).current_question,
            final(self).previous_rounds == old(self).previous_rounds,
            final(self).loaded == old(self).loaded,
            final(self).sent == old(self).sent,
    {
        let ghost ps = self.players@;
        let mut rest: Vec<PlayerState> = Vec::new();
        std::mem::swap(&mut rest, &mut self.players);
        let mut yes: usize = 0;
        let mut no: usize = 0;
        let mut guesses: Vec<(String, String)> = Vec::new();
        let mut k: usize = 0;
        assert(ps.len() == rest.len());
        while rest.len() > 0
            invariant
                k + rest.len() == ps.len(),
                ps.len() <= usize::MAX,
                rest@ == ps.subrange(k as int, ps.len() as int),
                yes + no <= k,
                yes as nat == yes_count(ps.subrange(0, k as int)),
                no as nat == no_count(ps.subrange(0, k as int)),
                guesses@.map_values(|p: (String, String)| pair_view(p)) == guesses_of(ps.subrange(0, k as int)),
                self.players@ == cleared(ps.subrange(0, k as int)),
                self.questions == old(self).questions,
                self.current_question == old(self).current_question,
                self.previous_rounds == old(self).previous_rounds,
                self.loaded == old(self).loaded,
                self.sent == old(self).sent,
            decreases rest.len(),
        {
            let p = rest.remove(0);
            let ghost pk = p;
            let ghost before = ps.subrange(0, k as int);
            let ghost after = ps.subrange(0, k + 1);
            assert(p == ps[k as int]);
            assert(after.drop_last() == before);
            assert(after.last() == p);
            let ghost prev_guesses = guesses@;
            let ghost prev_players = self.players@;
            let PlayerState { name, sender, answer, guess } = p;
            match answer {
                Some(true) => {
                    yes = yes + 1;
                },
                Some(false) => {
                    no = no + 1;
                },
                None => {},
            }
            let g = match guess {
                Some(g) => g,
                None => String::new(),
            };
            assert(g@ == guess_text(pk));
            guesses.push((name.clone(), g));
            assert(guesses@.map_values(|p: (String, String)| pair_view(p)) =~= prev_guesses.map_values(
                |p: (String, String)| pair_view(p),
            ).push((pk.name@, guess_text(pk))));
            assert(guesses_of(after) =~= guesses_of(before).push((pk.name@, guess_text(pk))));
            self.players.push(PlayerState { name, sender, answer: None, guess: None });
            assert(self.players@ =~= prev_players.push(cleared_player(pk)));
            assert(cleared(after) =~= cleared(before).push(cleared_player(pk)));
            assert(rest@ =~= ps.subrange(k + 1, ps.len() as int));
            k = k + 1;
        }
        assert(ps.subrange(0, k as int) == ps);
        assert forall|a: int, b: int|
            0 <= a < self.players@.len() && 0 <= b < self.players@.len() && a != b
                implies (#[trigger] self.players@[a]).name@ != (#[trigger] self.players@[b]).name@ by {
            assert(self.players@[a].name == ps[a].name);
            assert(self.players@[b].name == ps[b].name);
        }
        RoundData { question, yes, no, guesses }
    }

    /// Completes the round if at least one player is present and every player
    /// is ready: records the round, clears every answer and guess, moves on
    /// to the next question, and sends everyone, in this order, the round's
    /// results, the new question and the new `PlayerList`. Returns whether
    /// the round was completed; if not, nothing changes.
    pub fn update_state(&mut self) -> (completed: bool)
        requires
            old(self).wf(),
        ensures
            final(self).wf(),
            completed == (old(self).players.len() > 0 && all_ready(old(self).players@)),
            !completed ==> *final(self) == *old(self),
            completed ==> final(self).advanced_from(old(self)),
            completed ==> final(self).previous_rounds@.drop_last() == old(self).previous_rounds@,
            completed ==> final(self).previous_rounds@.len() == old(self).previous_rounds@.len() + 1,
            completed ==> final(self).previous_rounds@.last()@ == round_of(old(self).players@, old(self).active().text@),
            completed ==> exists|p1: Seq<PlayerState>, l1: Seq<MessageView>, p2: Seq<PlayerState>, l2: Seq<MessageView>|
                {
                    &&& broadcast_outcome(
                        cleared(old(self).players@),
                        old(self).sent@,
                        MessageView::RoundData { data: round_of(old(self).players@, old(self).active().text@) },
                        p1,
                        l1,
                    )
                    &&& broadcast_outcome(p1, l1, MessageView::PoseQuestion { question: final(self).active().text@ }, p2, l2)
                    &&& broadcast_outcome(p2, l2, list_view(p2), final(self).players@, final(self).sent@)
                },
            completed ==> final(self).previous_rounds@.last().yes + final(self).previous_rounds@.last().no
                == old(self).players.len(),
            completed ==> forall|i: int|
                0 <= i < final(self).players.len() ==> (#[trigger] final(self).players@[i]).answer is None
                    && final(self).players@[i].guess is None,
            completed ==> final(self).sent@.len() > old(self).sent@.len(),
            completed ==> forall|k: int|
                old(self).sent@.len() < k < final(self).sent@.len() && (#[trigger] final(self).sent@[k]) is PlayerList
                    ==> lists_nobody_ready(final(self).sent@[k]),
            completed && old(self).question_seq().len() > 1 && texts_distinct(old(self).question_seq())
                ==> final(self).active().text@ != old(self).active().text@,
            completed ==> final(self).sent@[old(self).sent@.len() as int] == (MessageView::RoundData {
                data: round_of(old(self).players@, old(self).active().text@),
            }),
            completed ==> exists|k: int|
                old(self).sent@.len() < k < final(self).sent@.len() && #[trigger] final(self).sent@[k] == (
                MessageView::PoseQuestion { question: final(self).active().text@ }),
    {
        if self.players.len() == 0 || !self.all_players_ready() {
            return false;
        }
        let question = self.get_question().text.clone();
        let round = self.tally_and_clear(question);
        self.next_question();
        self.previous_rounds.push(round.duplicate());
        let ghost p0 = self.players@;
        let ghost l0 = self.sent@;
        self.broadcast(ToPlayerMessage::RoundData { data: round });
        let ghost p1 = self.players@;
        let ghost l1 = self.sent@;
        let next = self.get_question().text.clone();
        self.broadcast(ToPlayerMessage::PoseQuestion { question: next });
        let ghost p2 = self.players@;
        let ghost l2 = self.sent@;
        self.broadcast_players();
        assert(self.previous_rounds@.drop_last() =~= old(self).previous_rounds@);
        assert(broadcast_outcome(
            cleared(old(self).players@),
            old(self).sent@,
            MessageView::RoundData { data: round_of(old(self).players@, old(self).active().text@) },
            p1,
            l1,
        ));
        assert(broadcast_outcome(p1, l1, MessageView::PoseQuestion { question: self.active().text@ }, p2, l2));
        assert(broadcast_outcome(p2, l2, list_view(p2), self.players@, self.sent@));
        proof {
            lemma_round_counts_players(old(self).players@);
            assert forall|i: int| 0 <= i < self.players.len() implies (#[trigger] self.players@[i]).answer is None
                && self.players@[i].guess is None by {
                let a = choose|a: int| 0 <= a < p2.len() && p2[a] == self.players@[i];
                let b = choose|b: int| 0 <= b < p1.len() && p1[b] == p2[a];
                let c = choose|c: int| 0 <= c < p0.len() && p0[c] == p1[b];
                assert(p0[c] == cleared_player(old(self).players@[c]));
            }
            assert(l1[l0.len() as int] == l1.subrange(0, l0.len() as int + 1)[l0.len() as int]);
            assert(l2[l0.len() as int] == l2.subrange(0, l1.len() as int + 1)[l0.len() as int]);
            assert(self.sent@[l0.len() as int] == self.sent@.subrange(0, l2.len() as int + 1)[l0.len() as int]);
            assert(l2[l1.len() as int] == l2.subrange(0, l1.len() as int + 1)[l1.len() as int]);
            assert(self.sent@[l1.len() as int] == self.sent@.subrange(0, l2.len() as int + 1)[l1.len() as int]);
            if old(self).question_seq().len() > 1 && texts_distinct(old(self).question_seq()) {
                lemma_next_question_differs(*old(self), *self);
            }
            assert(none_ready(p0));
            let q1 = choose|q: Seq<Seq<bool>>| broadcast_by(p0, l0, MessageView::RoundData { data: round_of(old(self).players@, old(self).active().text@) }, q, p1, l1);
            lemma_broadcast_lists_unready(p0, l0, MessageView::RoundData { data: round_of(old(self).players@, old(self).active().text@) }, q1, p1, l1);
            let q2 = choose|q: Seq<Seq<bool>>| broadcast_by(p1, l1, MessageView::PoseQuestion { question: self.active().text@ }, q, p2, l2);
            lemma_broadcast_lists_unready(p1, l1, MessageView::PoseQuestion { question: self.active().text@ }, q2, p2, l2);
            let q3 = choose|q: Seq<Seq<bool>>| broadcast_by(p2, l2, list_view(p2), q, self.players@, self.sent@);
            lemma_broadcast_lists_unready(p2, l2, list_view(p2), q3, self.players@, self.sent@);
            lemma_ready_names_none(p2);
            assert forall|k: int|
                old(self).sent@.len() < k < self.sent@.len() && (#[trigger] self.sent@[k]) is PlayerList
                    implies lists_nobody_ready(self.sent@[k]) by {
                if k < l1.len() {
                    assert(self.sent@[k] == l2.push(list_view(p2))[k]);
                    assert(l2[k] == l1.push(MessageView::PoseQuestion { question: self.active().text@ })[k]);
                } else if k == l1.len() {
                    assert(self.sent@[k] == l2.push(list_view(p2))[k]);
                    assert(l2[k] == l1.push(MessageView::PoseQuestion { question: self.active().text@ })[k]);
                } else if k < l2.len() {
                    assert(self.sent@[k] == l2.push(list_view(p2))[k]);
                } else if k == l2.len() {
                    assert(self.sent@[k] == l2.push(list_view(p2))[k]);
                }
            }
        }
        true
    }
}

/// Nobody in `ps` is ready.
pub open spec fn none_ready(ps: Seq<PlayerState>) -> bool {
    forall|i: int| 0 <= i < ps.len() ==> !is_ready(#[trigger] ps[i])
}

/// `m` is a `PlayerList` that shows nobody ready.
pub open spec fn lists_nobody_ready(m: MessageView) -> bool {
    match m {
        MessageView::PlayerList { has_answered, .. } => has_answered.len() == 0,
        _ => false,
    }
}

proof fn lemma_ready_names_none(ps: Seq<PlayerState>)
    requires
        none_ready(ps),
    ensures
        ready_names(ps).len() == 0,
    decreases ps.len(),
{
    if ps.len() > 0 {
        assert(!is_ready(ps[ps.len() - 1]));
        assert(none_ready(ps.drop_last())) by {
            assert forall|i: int| 0 <= i < ps.drop_last().len() implies !is_ready(#[trigger] ps.drop_last()[i]) by {
                assert(ps.drop_last()[i] == ps[i]);
            }
        }
        lemma_ready_names_none(ps.drop_last());
    }
}

proof fn lemma_kept_by_none_ready(ps: Seq<PlayerState>, delivered: Seq<bool>)
    requires
        none_ready(ps),
    ensures
        none_ready(kept_by(ps, delivered)),
    decreases ps.len(),
{
    if ps.len() > 0 && delivered.len() > 0 {
        assert(!is_ready(ps[ps.len() - 1]));
        assert(none_ready(ps.drop_last())) by {
            assert forall|i: int| 0 <= i < ps.drop_last().len() implies !is_ready(#[trigger] ps.drop_last()[i]) by {
                assert(ps.drop_last()[i] == ps[i]);
            }
        }
        lemma_kept_by_none_ready(ps.drop_last(), delivered.drop_last());
        let r = kept_by(ps.drop_last(), delivered.drop_last());
        if delivered.last() {
            assert forall|i: int| 0 <= i < r.push(ps.last()).len() implies !is_ready(#[trigger] r.push(ps.last())[i]) by {
                if i < r.len() {
                    assert(r.push(ps.last())[i] == r[i]);
                }
            }
        }
    }
}

/// A broadcast to players of whom nobody is ready keeps its first message
/// in place and sends only `PlayerList`s that show nobody ready after it.
pub proof fn lemma_broadcast_lists_unready(
    pre: Seq<PlayerState>,
    log0: Seq<MessageView>,
    m: MessageView,
    passes: Seq<Seq<bool>>,
    post: Seq<PlayerState>,
    log1: Seq<MessageView>,
)
    requires
        broadcast_by(pre, log0, m, passes, post, log1),
        none_ready(pre),
    ensures
        none_ready(post),
        log1.len() > log0.len(),
        forall|k: int| 0 <= k < log0.len() + 1 ==> #[trigger] log1[k] == log0.push(m)[k],
        forall|k: int| log0.len() + 1 <= k < log1.len() ==> lists_nobody_ready(#[trigger] log1[k]),
    decreases passes.len(),
{
    let kept = kept_by(pre, passes[0]);
    lemma_kept_by_none_ready(pre, passes[0]);
    if kept.len() < pre.len() {
        lemma_ready_names_none(kept);
        let log_mid = log0.push(m);
        lemma_broadcast_lists_unready(kept, log_mid, list_view(kept), passes.drop_first(), post, log1);
        assert forall|k: int| 0 <= k < log0.len() + 1 implies #[trigger] log1[k] == log0.push(m)[k] by {
            assert(log1[k] == log_mid.push(list_view(kept))[k]);
        }
        assert forall|k: int| log0.len() + 1 <= k < log1.len() implies lists_nobody_ready(#[trigger] log1[k]) by {
            if k == log0.len() + 1 {
                assert(log1[k] == log_mid.push(list_view(kept))[k]);
            }
        }
    }
}

/// In a round where every player is ready, each player counts once as a yes
/// or as a no: the two counts add up to the number of players.
pub proof fn lemma_round_counts_players(ps: Seq<PlayerState>)
    requires
        all_ready(ps),
    ensures
        yes_count(ps) + no_count(ps) == ps.len(),
    decreases ps.len(),
{
    if ps.len() > 0 {
        assert(is_ready(ps[ps.len() - 1]));
        assert forall|i: int| 0 <= i < ps.drop_last().len() implies is_ready(#[trigger] ps.drop_last()[i]) by {
            assert(ps.drop_last()[i] == ps[i]);
        }
        lemma_round_counts_players(ps.drop_last());
        assert(ps.last().answer is Some);
        assert(yes_count(ps) == yes_count(ps.drop_last()) + if ps.last().answer == Some(true) { 1nat } else { 0nat });
        assert(no_count(ps) == no_count(ps.drop_last()) + if ps.last().answer == Some(false) { 1nat } else { 0nat });
        if ps.last().answer == Some(true) {
            assert(ps.last().answer != Some(false));
        } else {
            assert(ps.last().answer == Some(false));
        }
        assert(ps.drop_last().len() + 1 == ps.len());
    } else {
        assert(yes_count(ps) == 0);
        assert(no_count(ps) == 0);
    }
}

/// No two questions of the sequence have the same text.
pub open spec fn texts_distinct(qs: Seq<Question>) -> bool {
    forall|i: int, j: int|
        0 <= i < qs.len() && 0 <= j < qs.len() && i != j ==> (#[trigger] qs[i]).text@ != (#[trigger] qs[j]).text@
}

/// Moving on to the next question poses a question with another text,
/// whenever there are at least two questions and no two share a text.
pub proof fn lemma_next_question_differs(pre: GameRoom, post: GameRoom)
    requires
        pre.wf(),
        post.advanced_from(&pre),
        pre.question_seq().len() > 1,
        texts_distinct(pre.question_seq()),
    ensures
        post.active().text@ != pre.active().text@,
{
    let c = pre.cursor() as int;
    let other = if c == 0 { 1int } else { 0int };
    assert(pre.question_seq()[other].text@ != pre.active().text@);
}

/// One cycle of the question sequence, from its first position to its last,
/// poses each loaded question as often as it was loaded: every question
/// once, with no repeat, when the loaded questions hold no duplicates.
pub proof fn lemma_cycle_poses_every_question(room: GameRoom)
    requires
        room.wf(),
    ensures
        room.question_seq().to_multiset() == room.loaded@,
        forall|q: Question| room.loaded@.contains(q) ==> room.question_seq().contains(q),
        (forall|q: Question| room.loaded@.count(q) <= 1) ==> room.question_seq().no_duplicates(),
{
    broadcast use vstd::seq_lib::group_to_multiset_ensures;
    let s = room.question_seq();
    if forall|q: Question| room.loaded@.count(q) <= 1 {
        assert forall|i: int, j: int| 0 <= i < s.len() && 0 <= j < s.len() && i != j implies s[i] != s[j] by {
            if s[i] == s[j] {
                let a = s.remove(i);
                assert(a.to_multiset() == s.to_multiset().remove(s[i]));
                let j2 = if j < i { j } else { j - 1 };
                assert(a[j2] == s[j]);
                assert(a.contains(s[i]));
                assert(a.to_multiset().count(s[i]) > 0);
                assert(s.to_multiset().count(s[i]) >= 2);
            }
        }
    }
}

/// Across the rounds of one cycle, starting where the sequence starts, the
/// questions posed are the loaded questions, each as often as it was loaded:
/// with no duplicates loaded, every question once and none repeated.
/// `rooms[k]` is the room after `k` moves to the next question.
pub proof fn lemma_rounds_of_a_cycle(rooms: Seq<GameRoom>)
    requires
        rooms.len() > 0,
        rooms[0].wf(),
        rooms[0].cursor() == 0,
        rooms.len() == rooms[0].question_seq().len(),
        forall|k: int| 0 <= k < rooms.len() - 1 ==> (#[trigger] rooms[k + 1]).advanced_from(&rooms[k]),
    ensures
        Seq::new(rooms.len(), |k: int| rooms[k].active()).to_multiset() == rooms[0].loaded@,
        (forall|q: Question| rooms[0].loaded@.count(q) <= 1) ==> Seq::new(
            rooms.len(),
            |k: int| rooms[k].active(),
        ).no_duplicates(),
{
    let first = rooms[0];
    assert forall|k: int| 0 <= k < rooms.len() implies (#[trigger] rooms[k]).question_seq() == first.question_seq()
        && rooms[k].cursor() == k by {
        lemma_cycle_prefix(rooms, k);
    }
    let posed = Seq::new(rooms.len(), |k: int| rooms[k].active());
    assert(posed =~= first.question_seq());
    lemma_cycle_poses_every_question(first);
}

proof fn lemma_cycle_prefix(rooms: Seq<GameRoom>, k: int)
    requires
        rooms.len() > 0,
        rooms.len() == rooms[0].question_seq().len(),
        rooms[0].cursor() == 0,
        forall|j: int| 0 <= j < rooms.len() - 1 ==> (#[trigger] rooms[j + 1]).advanced_from(&rooms[j]),
        0 <= k < rooms.len(),
    ensures
        rooms[k].question_seq() == rooms[0].question_seq(),
        rooms[k].cursor() == k,
    decreases k,
{
    if k > 0 {
        lemma_cycle_prefix(rooms, k - 1);
        assert(rooms[(k - 1) + 1].advanced_from(&rooms[k - 1]));
    }
}

} // verus!
