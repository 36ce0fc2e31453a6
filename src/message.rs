use vstd::prelude::*;

use crate::round_data::{RoundData, RoundView};

verus! {

/// What a client sends to the room.
#[derive(Clone, Debug, PartialEq, Eq)]
pub enum FromPlayerMessage {
    /// The handshake: the player's display name. Ignored after the handshake.
    Initialize { name: String },
    Answer { yes: bool },
    Guess { number: String },
    /// The connection is gone (made by the connection adapter).
    Disconnect,
}

/// What the room sends to a client.
#[derive(Clone, Debug, PartialEq, Eq)]
pub enum ToPlayerMessage {
    /// A full snapshot of the players and of those who are ready.
    PlayerList { players: Vec<String>, has_answered: Vec<String> },
    /// The results of one completed round.
    RoundData { data: RoundData },
    /// The text of the new active question.
    PoseQuestion { question: String },
}

/// The mathematical content of a `ToPlayerMessage`.
pub enum MessageView {
    PlayerList { players: Seq<Seq<char>>, has_answered: Seq<Seq<char>> },
    RoundData { data: RoundView },
    PoseQuestion { question: Seq<char> },
}

pub open spec fn strings_view(v: Seq<String>) -> Seq<Seq<char>> {
    v.map_values(|s: String| s@)
}

impl View for ToPlayerMessage {
    type V = MessageView;

    open spec fn view(&self) -> MessageView {
        match self {
            ToPlayerMessage::PlayerList { players, has_answered } => MessageView::PlayerList {
                players: strings_view(players@),
                has_answered: strings_view(has_answered@),
            },
            ToPlayerMessage::RoundData { data } => MessageView::RoundData { data: data@ },
            ToPlayerMessage::PoseQuestion { question } => MessageView::PoseQuestion {
                question: question@,
            },
        }
    }
}

/// A copy of a list of strings.
pub fn copy_strings(v: &Vec<String>) -> (r: Vec<String>)
    ensures
        r@ == v@,
{
    let mut r: Vec<String> = Vec::new();
    let mut i: usize = 0;
    while i < v.len()
        invariant
            i <= v.len(),
            r@ == v@.subrange(0, i as int),
        decreases v.len() - i,
    {
        r.push(v[i].clone());
        proof {
            assert(v@.subrange(0, i + 1) == v@.subrange(0, i as int).push(v@[i as int]));
        }
        i = i + 1;
    }
    proof {
        assert(v@.subrange(0, v.len() as int) == v@);
    }
    r
}

impl ToPlayerMessage {
    /// A copy with the same content.
    pub fn duplicate(&self) -> (r: ToPlayerMessage)
        ensures
            r@ == self@,
    {
        match self {
            ToPlayerMessage::PlayerList { players, has_answered } => ToPlayerMessage::PlayerList {
                players: copy_strings(players),
                has_answered: copy_strings(has_answered),
            },
            ToPlayerMessage::RoundData { data } => ToPlayerMessage::RoundData {
                data: data.duplicate(),
            },
            ToPlayerMessage::PoseQuestion { question } => ToPlayerMessage::PoseQuestion {
                question: question.clone(),
            },
        }
    }
}

} // verus!
