use futures::channel::mpsc::{unbounded, UnboundedReceiver};
use guess_room::game::{keep_delivered, GameRoom, PlayerState};
use guess_room::message::{FromPlayerMessage, ToPlayerMessage};
use guess_room::question::Question;
use guess_room::round_data::RoundData;

fn questions(texts: &[&str]) -> Vec<Question> {
    texts.iter().map(|t| Question::untagged(t.to_string())).collect()
}

fn drain(rx: &mut UnboundedReceiver<ToPlayerMessage>) -> Vec<ToPlayerMessage> {
    let mut out = Vec::new();
    while let Ok(m) = rx.try_recv() {
        out.push(m);
    }
    out
}

fn list(players: &[&str], has_answered: &[&str]) -> ToPlayerMessage {
    ToPlayerMessage::PlayerList {
        players: players.iter().map(|s| s.to_string()).collect(),
        has_answered: has_answered.iter().map(|s| s.to_string()).collect(),
    }
}

fn pose(q: &str) -> ToPlayerMessage {
    ToPlayerMessage::PoseQuestion { question: q.to_string() }
}

fn answer(room: &mut GameRoom, name: &str, yes: bool) {
    room.handle_player_message(name.to_string(), FromPlayerMessage::Answer { yes });
    room.update_state();
}

fn guess(room: &mut GameRoom, name: &str, number: &str) {
    room.handle_player_message(name.to_string(), FromPlayerMessage::Guess { number: number.to_string() });
    room.update_state();
}

#[test]
fn single_player_single_question_round() {
    let mut room = GameRoom::new(questions(&["Q1"]));
    let (tx, mut rx) = unbounded();
    assert!(room.join_player("P".to_string(), tx));
    assert!(!room.update_state());
    assert_eq!(drain(&mut rx), vec![pose("Q1"), list(&["P"], &[])]);

    answer(&mut room, "P", true);
    assert_eq!(drain(&mut rx), vec![]);

    guess(&mut room, "P", "7");
    let round = RoundData {
        question: "Q1".to_string(),
        yes: 1,
        no: 0,
        guesses: vec![("P".to_string(), "7".to_string())],
    };
    assert_eq!(
        drain(&mut rx),
        vec![
            list(&["P"], &["P"]),
            ToPlayerMessage::RoundData { data: round.clone() },
            pose("Q1"),
            list(&["P"], &[]),
        ]
    );
    assert_eq!(room.previous_rounds, vec![round]);
    assert_eq!(room.players[0].answer, None);
    assert_eq!(room.players[0].guess, None);
}

#[test]
fn dropping_the_unready_player_completes_the_round() {
    let mut room = GameRoom::new(questions(&["Q1", "Q2"]));
    let (tx1, mut rx1) = unbounded();
    let (tx2, mut rx2) = unbounded();
    assert!(room.join_player("P1".to_string(), tx1));
    assert!(room.join_player("P2".to_string(), tx2));
    let first = match drain(&mut rx1).remove(0) {
        ToPlayerMessage::PoseQuestion { question } => question,
        other => panic!("unexpected {:?}", other),
    };
    drain(&mut rx2);

    answer(&mut room, "P1", false);
    guess(&mut room, "P1", "3");
    assert!(room.previous_rounds.is_empty());
    assert_eq!(drain(&mut rx1), vec![list(&["P1", "P2"], &["P1"])]);

    drop(rx2);
    room.handle_player_message("P2".to_string(), FromPlayerMessage::Disconnect);
    assert!(room.update_state());
    assert_eq!(room.previous_rounds.len(), 1);
    let round = &room.previous_rounds[0];
    assert_eq!(round.question, first);
    assert_eq!((round.yes, round.no), (0, 1));
    assert_eq!(round.guesses, vec![("P1".to_string(), "3".to_string())]);
    let got = drain(&mut rx1);
    assert_eq!(got.len(), 4);
    assert_eq!(got[0], list(&["P1"], &["P1"]));
    assert!(matches!(got[1], ToPlayerMessage::RoundData { .. }));
    let second = if first == "Q1" { "Q2" } else { "Q1" };
    assert_eq!(got[2], pose(second));
    assert_eq!(got[3], list(&["P1"], &[]));
}

#[test]
fn second_guess_replaces_the_first() {
    let mut room = GameRoom::new(questions(&["Q1"]));
    let (tx, mut rx) = unbounded();
    let (tx_other, mut rx_other) = unbounded();
    assert!(room.join_player("P".to_string(), tx));
    assert!(room.join_player("O".to_string(), tx_other));
    drain(&mut rx);
    drain(&mut rx_other);

    guess(&mut room, "P", "1");
    guess(&mut room, "P", "2");
    assert_eq!(drain(&mut rx_other), vec![]);
    assert_eq!(room.players[0].guess, Some("2".to_string()));

    answer(&mut room, "P", true);
    assert_eq!(drain(&mut rx_other), vec![list(&["P", "O"], &["P"])]);

    answer(&mut room, "O", false);
    guess(&mut room, "O", "9");
    let round = &room.previous_rounds[0];
    assert_eq!(
        round.guesses,
        vec![("P".to_string(), "2".to_string()), ("O".to_string(), "9".to_string())]
    );
    assert_eq!((round.yes, round.no), (1, 1));
}

#[test]
fn disconnecting_an_absent_player_changes_nothing() {
    let mut room = GameRoom::new(questions(&["Q1"]));
    let (tx, mut rx) = unbounded();
    assert!(room.join_player("P".to_string(), tx));
    drain(&mut rx);
    room.handle_player_message("Nobody".to_string(), FromPlayerMessage::Disconnect);
    assert!(!room.update_state());
    assert_eq!(drain(&mut rx), vec![]);
    assert_eq!(room.players.len(), 1);
}

#[test]
fn empty_room_never_completes() {
    let mut room = GameRoom::new(questions(&["Q1"]));
    room.handle_player_message("P".to_string(), FromPlayerMessage::Answer { yes: true });
    assert!(!room.update_state());
    assert!(room.previous_rounds.is_empty());
}

#[test]
fn late_initialize_is_ignored() {
    let mut room = GameRoom::new(questions(&["Q1"]));
    let (tx, mut rx) = unbounded();
    assert!(room.join_player("P".to_string(), tx));
    drain(&mut rx);
    room.handle_player_message("P".to_string(), FromPlayerMessage::Initialize { name: "X".to_string() });
    assert_eq!(drain(&mut rx), vec![]);
    assert_eq!(room.players[0].name, "P");
}

#[test]
fn admission_fails_when_the_channel_is_closed() {
    let mut room = GameRoom::new(questions(&["Q1"]));
    let (tx, rx) = unbounded();
    drop(rx);
    assert!(!room.join_player("P".to_string(), tx));
    assert!(room.players.is_empty());
}

#[test]
fn broadcast_drops_closed_players_with_one_corrective_list() {
    let mut room = GameRoom::new(questions(&["Q1"]));
    let (tx1, mut rx1) = unbounded();
    let (tx2, rx2) = unbounded();
    let (tx3, rx3) = unbounded();
    assert!(room.join_player("A".to_string(), tx1));
    assert!(room.join_player("B".to_string(), tx2));
    assert!(room.join_player("C".to_string(), tx3));
    drain(&mut rx1);
    drop(rx2);
    drop(rx3);
    room.broadcast_players();
    assert_eq!(
        drain(&mut rx1),
        vec![list(&["A", "B", "C"], &[]), list(&["A"], &[])]
    );
    assert_eq!(room.players.len(), 1);
}

#[test]
fn same_name_replaces_the_player() {
    let mut room = GameRoom::new(questions(&["Q1"]));
    let (tx1, _rx1) = unbounded();
    let (tx2, mut rx2) = unbounded();
    assert!(room.join_player("P".to_string(), tx1));
    answer(&mut room, "P", true);
    assert!(room.join_player("P".to_string(), tx2));
    assert_eq!(room.players.len(), 1);
    assert_eq!(room.players[0].answer, None);
    assert_eq!(drain(&mut rx2), vec![pose("Q1"), list(&["P"], &[])]);
}

#[test]
fn questions_cycle_without_repeats() {
    let mut room = GameRoom::new(questions(&["A", "B", "C"]));
    let (tx, mut rx) = unbounded();
    assert!(room.join_player("P".to_string(), tx));
    drain(&mut rx);
    for _ in 0..3 {
        answer(&mut room, "P", true);
        guess(&mut room, "P", "1");
    }
    let mut seen: Vec<String> = room.previous_rounds.iter().map(|r| r.question.clone()).collect();
    seen.sort();
    assert_eq!(seen, vec!["A".to_string(), "B".to_string(), "C".to_string()]);
}

#[test]
fn results_come_before_the_next_question() {
    let mut room = GameRoom::new(questions(&["A", "B"]));
    let (tx, mut rx) = unbounded();
    assert!(room.join_player("P".to_string(), tx));
    answer(&mut room, "P", false);
    guess(&mut room, "P", "5");
    let got = drain(&mut rx);
    let round_at = got.iter().position(|m| matches!(m, ToPlayerMessage::RoundData { .. })).unwrap();
    let pose_after = got.iter().rposition(|m| matches!(m, ToPlayerMessage::PoseQuestion { .. })).unwrap();
    assert!(round_at < pose_after);
    assert_eq!(room.previous_rounds[0].yes + room.previous_rounds[0].no, 1);
}

#[test]
fn resubmitting_when_ready_sends_no_list() {
    let mut room = GameRoom::new(questions(&["Q1"]));
    let (tx, mut rx) = unbounded();
    let (tx_other, mut rx_other) = unbounded();
    assert!(room.join_player("P".to_string(), tx));
    assert!(room.join_player("O".to_string(), tx_other));
    answer(&mut room, "P", true);
    guess(&mut room, "P", "1");
    drain(&mut rx);
    drain(&mut rx_other);
    guess(&mut room, "P", "2");
    answer(&mut room, "P", false);
    assert_eq!(drain(&mut rx_other), vec![]);
    assert_eq!(room.players[0].guess, Some("2".to_string()));
    assert_eq!(room.players[0].answer, Some(false));
}

#[test]
fn consecutive_rounds_ask_different_questions() {
    let mut room = GameRoom::new(questions(&["A", "B"]));
    let (tx, _rx) = unbounded();
    assert!(room.join_player("P".to_string(), tx));
    for _ in 0..20 {
        answer(&mut room, "P", true);
        guess(&mut room, "P", "1");
    }
    assert_eq!(room.previous_rounds.len(), 20);
    for w in room.previous_rounds.windows(2) {
        assert_ne!(w[0].question, w[1].question);
    }
}

#[test]
fn accept_player_follows_the_first_push() {
    let mut room = GameRoom::new(questions(&["Q1"]));
    let (tx, mut rx) = unbounded();
    assert!(!room.accept_player("P".to_string(), tx.clone(), false));
    assert!(room.players.is_empty());
    assert_eq!(drain(&mut rx), vec![]);
    assert!(room.accept_player("P".to_string(), tx, true));
    assert_eq!(drain(&mut rx), vec![list(&["P"], &[])]);
    assert_eq!(room.pose_question(), pose("Q1"));
}

#[test]
fn keep_delivered_keeps_exactly_the_delivered() {
    let make = |n: &str| {
        let (tx, _rx) = unbounded();
        PlayerState { name: n.to_string(), sender: tx, answer: None, guess: None }
    };
    let players = vec![make("A"), make("B"), make("C")];
    let kept = keep_delivered(players, &vec![true, false, true]);
    let names: Vec<String> = kept.iter().map(|p| p.name.clone()).collect();
    assert_eq!(names, vec!["A".to_string(), "C".to_string()]);
}
