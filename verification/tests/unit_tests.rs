use among_us_server::game::Meeting;
use uuid::Uuid;

#[test]
fn meeting_finds_user() {
    let user_1 = Uuid::from_u128(1).as_u128();
    let user_2 = Uuid::from_u128(2).as_u128();
    let user_3 = Uuid::from_u128(3).as_u128();
    let mut meeting = Meeting::new(3);

    meeting.add_vote(user_1, Some(user_3));
    meeting.add_vote(user_2, Some(user_3));
    meeting.add_vote(user_3, Some(user_1));
    let voted_out_user = meeting.person_voted_out();

    assert_eq!(voted_out_user, Some(user_3));
}

#[test]
fn meeting_is_inconclusive() {
    let user_1 = Uuid::from_u128(1).as_u128();
    let user_2 = Uuid::from_u128(2).as_u128();
    let user_3 = Uuid::from_u128(3).as_u128();
    let mut meeting = Meeting::new(3);

    meeting.add_vote(user_1, Some(user_3));
    meeting.add_vote(user_2, Some(user_1));
    meeting.add_vote(user_3, Some(user_2));
    let voted_out_user = meeting.person_voted_out();

    assert_eq!(voted_out_user, None);
}

#[test]
fn meeting_needs_a_strict_majority_of_the_living() {
    // Four living players: two votes are not enough, three are.
    let mut meeting = Meeting::new(4);
    meeting.add_vote(1, Some(9));
    meeting.add_vote(2, Some(9));
    assert_eq!(meeting.person_voted_out(), None);
    meeting.add_vote(3, Some(9));
    assert_eq!(meeting.person_voted_out(), Some(9));
}

#[test]
fn meeting_counts_only_the_latest_vote_of_each_voter() {
    let mut meeting = Meeting::new(3);
    meeting.add_vote(1, Some(7));
    meeting.add_vote(2, Some(7));
    assert_eq!(meeting.person_voted_out(), Some(7));
    meeting.add_vote(1, Some(8));
    meeting.add_vote(2, None);
    assert_eq!(meeting.person_voted_out(), None);
    assert!(!meeting.all_players_voted());
    assert_eq!(meeting.ballot_count(), 2);
}

#[test]
fn meeting_abstentions_eject_nobody() {
    let mut meeting = Meeting::new(2);
    meeting.add_vote(1, None);
    meeting.add_vote(2, None);
    assert!(meeting.all_players_voted());
    assert_eq!(meeting.person_voted_out(), None);
}

#[test]
fn meeting_tie_for_the_lead_picks_the_smaller_identifier() {
    // With one living player counted, a single vote is a majority; of two
    // candidates with one vote each, the smaller identifier leads.
    let mut meeting = Meeting::new(1);
    meeting.add_vote(10, Some(30));
    meeting.add_vote(11, Some(20));
    assert_eq!(meeting.person_voted_out(), Some(20));
}

#[test]
fn meeting_with_no_votes_ejects_nobody() {
    let meeting = Meeting::new(0);
    assert!(meeting.all_players_voted());
    assert_eq!(meeting.person_voted_out(), None);
}
