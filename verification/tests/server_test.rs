use chesstactoe::Color;
use chesstactoe::GameService;
use chesstactoe::JoinOutcome;
use chesstactoe::ServerError;
use chesstactoe::server::DenyReason;

const START_FEN: &str = "rnbqkbnr/pppppppp/8/8/8/8/PPPPPPPP/RNBQKBNR w KQkq - 0 1";

fn pair_two(svc: &mut GameService) -> (u128, u128) {
    let first = svc.join_random(1, &Vec::new());
    let white = match first {
        JoinOutcome::Queued { id } => id,
        JoinOutcome::Paired { .. } => panic!("the first joiner must wait"),
    };
    let second = svc.join_random(2, &vec![true]);
    match second {
        JoinOutcome::Paired { white: w, white_chan, black, game_id: _ } => {
            assert_eq!(w, white);
            assert_eq!(white_chan, 1);
            assert_ne!(black, white);
            (white, black)
        },
        JoinOutcome::Queued { .. } => panic!("the second joiner must be paired"),
    }
}

#[test]
fn two_joins_pair_and_a_third_waits() {
    let mut svc = GameService::default();
    let (white, black) = pair_two(&mut svc);
    assert_ne!(white, black);

    let third = svc.join_random(3, &Vec::new());
    assert!(matches!(third, JoinOutcome::Queued { .. }));

    let fourth = svc.join_random(4, &vec![true]);
    match fourth {
        JoinOutcome::Paired { white: w, white_chan, .. } => {
            assert!(matches!(third, JoinOutcome::Queued { id } if id == w));
            assert_eq!(white_chan, 3);
        },
        JoinOutcome::Queued { .. } => panic!("the fourth joiner must be paired"),
    }
}

#[test]
fn closed_waiters_are_discarded() {
    let mut svc = GameService::default();
    let first = svc.join_random(1, &Vec::new());
    assert!(matches!(first, JoinOutcome::Queued { .. }));

    // the only waiter's channel has closed: the joiner queues instead
    let second = svc.join_random(2, &vec![false]);
    assert!(matches!(second, JoinOutcome::Queued { .. }));

    let third = svc.join_random(3, &vec![true]);
    assert!(matches!(third, JoinOutcome::Paired { white_chan: 2, .. }));
}

#[test]
fn subscribe_requires_a_game_and_reports_it() {
    let mut svc = GameService::default();
    assert_eq!(
        svc.subscribe(42, 9).err().unwrap(),
        ServerError::PermissionDenied(DenyReason::NotJoined)
    );

    let (white, black) = pair_two(&mut svc);
    let snap = svc.subscribe(white, 10).unwrap();
    assert_eq!(snap.color, Color::White);
    assert_eq!(snap.next, Color::White);
    assert_eq!(snap.last_move, "");
    assert_eq!(snap.boards.len(), 9);
    for b in &snap.boards {
        assert_eq!(b.fen, START_FEN);
    }

    let snap2 = svc.subscribe(black, 11).unwrap();
    assert_eq!(snap2.color, Color::Black);
}

#[test]
fn move_game_checks_identity_turn_and_text() {
    let mut svc = GameService::default();
    let (white, black) = pair_two(&mut svc);
    svc.subscribe(white, 10).unwrap();
    svc.subscribe(black, 11).unwrap();

    assert_eq!(
        svc.move_game(31337, 0, "e2e4").err().unwrap(),
        ServerError::PermissionDenied(DenyReason::NotJoined)
    );
    assert_eq!(
        svc.move_game(black, 0, "e2e4").err().unwrap(),
        ServerError::PermissionDenied(DenyReason::NotYourTurn)
    );
    assert!(matches!(svc.move_game(white, 0, "garbage!"), Err(ServerError::Engine(_))));
    assert!(matches!(svc.move_game(white, 9, "e2e4"), Err(ServerError::Engine(_))));

    // the failures above changed nothing: the first board is still initial
    let snap = svc.subscribe(white, 10).unwrap();
    assert_eq!(snap.boards[0].fen, START_FEN);

    let bc = svc.move_game(white, 0, "e2e4").unwrap();
    assert_eq!(bc.white, white);
    assert_eq!(bc.black, black);
    assert_eq!(bc.white_chan, Some(10));
    assert_eq!(bc.black_chan, Some(11));
    assert_eq!(bc.white_view.color, Color::White);
    assert_eq!(bc.black_view.color, Color::Black);
    assert_eq!(bc.white_view.last_move, "0 e2e4");
    assert_eq!(bc.white_view.next, Color::Black);
    assert_eq!(
        bc.white_view.boards[0].fen,
        "rnbqkbnr/pppppppp/8/8/4P3/8/PPPP1PPP/RNBQKBNR b KQkq e3 0 1"
    );
    assert_eq!(bc.white_view.boards[1].fen, START_FEN.replace(" w ", " b "));

    assert_eq!(
        svc.move_game(white, 0, "d2d4").err().unwrap(),
        ServerError::PermissionDenied(DenyReason::NotYourTurn)
    );
}

#[test]
fn lobbies_are_consumed_by_their_code() {
    let mut svc = GameService::default();
    let lobby = svc.make_lobby(5);
    assert_eq!(lobby.code.len(), 22);

    assert_eq!(svc.join_lobby("no-such-code", 6, true).err().unwrap(), ServerError::NotFound);

    let joined = svc.join_lobby(&lobby.code, 6, true).unwrap();
    match joined {
        JoinOutcome::Paired { white, white_chan, black, .. } => {
            assert_eq!(white, lobby.host);
            assert_eq!(white_chan, 5);
            assert_ne!(black, lobby.host);
        },
        JoinOutcome::Queued { .. } => panic!("a lobby join must pair"),
    }

    // the entry was consumed by the successful join
    assert_eq!(svc.join_lobby(&lobby.code, 7, true).err().unwrap(), ServerError::NotFound);

    // a lobby whose host's channel has closed is gone as well
    let stale = svc.make_lobby(8);
    assert_eq!(svc.join_lobby(&stale.code, 9, false).err().unwrap(), ServerError::NotFound);
    assert_eq!(svc.join_lobby(&stale.code, 9, true).err().unwrap(), ServerError::NotFound);
}

#[test]
fn take_back_is_always_refused() {
    let mut svc = GameService::default();
    let (white, _black) = pair_two(&mut svc);
    assert_eq!(
        svc.take_back(white).err().unwrap(),
        ServerError::PermissionDenied(DenyReason::NotJoined)
    );
    assert_eq!(
        svc.take_back(0).err().unwrap(),
        ServerError::PermissionDenied(DenyReason::NotJoined)
    );
}

#[test]
fn a_player_of_another_game_is_denied_not_in_game() {
    // a directory whose index points an identity at a game it does not play
    // in: the call is denied, not treated as a server fault
    let mut svc = GameService::default();
    let (white, black) = pair_two(&mut svc);
    let game_id = svc.games[0].0;
    let stranger = 7777;
    svc.game_ids.push((stranger, game_id));
    assert_eq!(
        svc.move_game(stranger, 0, "e2e4").err().unwrap(),
        ServerError::PermissionDenied(DenyReason::NotInGame)
    );
    let _ = (white, black);
}
