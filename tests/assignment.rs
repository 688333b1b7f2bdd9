use rating_exchange::assignment_network::{
    compute_assignments, submission_vertex, submitter_vertex, AssignmentNetwork, IndexAllocator,
};
use rating_exchange::dinic::solve;
use rating_exchange::flow_network::edge;
use rating_exchange::jam_types::JamType;
use rating_exchange::models::{
    ChannelId, Exchange, ExchangeId, ExchangeState, GuildId, PlayedGame, PlayedGameId, Submission,
    SubmissionId, UserId, UtcDateTime,
};

const NOON_2024: i128 = 1_704_110_400;

fn at(seconds: i128) -> UtcDateTime {
    UtcDateTime::from_unix_nanos(seconds * 1_000_000_000)
}

fn exchange(games: u8) -> Exchange {
    Exchange {
        id: ExchangeId(1),
        guild: GuildId(2),
        channel: ChannelId(3),
        jam_type: JamType::Itch,
        jam_link: "https://itch.io/jam/example-jam".to_string(),
        slug: "Test".to_string(),
        display_name: "Test".to_string(),
        state: ExchangeState::AcceptingSubmissions,
        submissions_start: at(NOON_2024),
        submissions_end: at(NOON_2024 + 3600),
        games_per_member: games,
    }
}

fn submission(id: u64, user: u64, link: &str) -> Submission {
    Submission {
        id: SubmissionId(id),
        exchange_id: ExchangeId(1),
        link: link.to_string(),
        submitter: UserId(user),
        submitted_at: at(NOON_2024 + 1800),
    }
}

fn played(id: u64, user: u64, link: &str) -> PlayedGame {
    PlayedGame { id: PlayedGameId(id), link: link.to_string(), member: UserId(user), is_manual: false }
}

#[test]
fn assignment_network_empty() {
    let network = AssignmentNetwork::build(&exchange(5), vec![], &[]);
    network.network.validate(Some(0)).unwrap();
    assert!(network.network.edges().is_empty());
    assert!(network.submissions.is_empty());
}

#[test]
fn one_submitter() {
    let subs = vec![submission(1, 1, "https://itch.io/jam/example-jam/rate/123456")];
    let network = AssignmentNetwork::build(&exchange(5), subs, &[]);
    network.network.validate(Some(0)).unwrap();
    assert_eq!(network.submissions.len(), 1);
    let edges = network.network.edges();
    assert_eq!(edges.len(), 2);
    assert!(edges.contains(&edge(network.network.source(), submitter_vertex(0))));
    assert!(edges.contains(&edge(submission_vertex(0), network.network.sink())));
    assert_eq!(network.network.capacity(edge(0, submitter_vertex(0))), 5);
}

#[test]
fn multiple_submitters() {
    let subs = vec![
        submission(1, 1, "https://itch.io/jam/example-jam/rate/000001"),
        submission(2, 2, "https://itch.io/jam/example-jam/rate/000002"),
        submission(3, 3, "https://itch.io/jam/example-jam/rate/000003"),
        submission(4, 4, "https://itch.io/jam/example-jam/rate/000004"),
    ];
    let played_games = vec![
        played(24, 2, "https://itch.io/jam/example-jam/rate/000004"),
        played(31, 3, "https://itch.io/jam/example-jam/rate/000001"),
        played(34, 3, "https://itch.io/jam/example-jam/rate/000004"),
        played(41, 4, "https://itch.io/jam/example-jam/rate/000001"),
        played(42, 4, "https://itch.io/jam/example-jam/rate/000002"),
        played(43, 4, "https://itch.io/jam/example-jam/rate/000003"),
    ];
    let network = AssignmentNetwork::build(&exchange(3), subs, &played_games);
    network.network.validate(Some(0)).unwrap();
    assert_eq!(network.submissions.len(), 4);
    let edges = network.network.edges();
    assert_eq!(edges.len(), 14);
    let source = network.network.source();
    let sink = network.network.sink();
    for i in 0..4 {
        assert!(edges.contains(&edge(source, submitter_vertex(i))));
        assert!(edges.contains(&edge(submission_vertex(i), sink)));
    }
    let rating = |i: usize, j: usize| edge(submitter_vertex(i), submission_vertex(j));
    assert!(edges.contains(&rating(0, 1)));
    assert!(edges.contains(&rating(0, 2)));
    assert!(edges.contains(&rating(0, 3)));
    assert!(edges.contains(&rating(1, 0)));
    assert!(edges.contains(&rating(1, 2)));
    assert!(edges.contains(&rating(2, 1)));
    assert!(!edges.contains(&rating(1, 3)));
    assert!(!edges.contains(&rating(2, 0)));
    assert!(!edges.contains(&rating(2, 3)));
    assert!(!edges.contains(&rating(3, 0)));
    assert!(!edges.contains(&rating(3, 1)));
    assert!(!edges.contains(&rating(3, 2)));
    assert!(!edges.contains(&rating(0, 0)));
}

#[test]
fn getting_assignments() {
    let subs = vec![
        submission(1, 1, "https://itch.io/example-jam/rate/000001"),
        submission(2, 2, "https://itch.io/example-jam/rate/000002"),
        submission(3, 3, "https://itch.io/example-jam/rate/000003"),
        submission(4, 4, "https://itch.io/example-jam/rate/000004"),
    ];
    let mut network = AssignmentNetwork::build(&exchange(5), subs.clone(), &[]);
    let rating = |i: usize, j: usize| edge(submitter_vertex(i), submission_vertex(j));
    network.network.set_flow(edge(0, submitter_vertex(0)), 2);
    network.network.set_flow(edge(0, submitter_vertex(1)), 2);
    network.network.set_flow(edge(0, submitter_vertex(2)), 1);
    network.network.set_flow(rating(0, 1), 1);
    network.network.set_flow(rating(0, 3), 1);
    network.network.set_flow(rating(1, 0), 1);
    network.network.set_flow(rating(1, 2), 1);
    network.network.set_flow(rating(2, 1), 1);
    network.network.set_flow(edge(submission_vertex(0), 1), 1);
    network.network.set_flow(edge(submission_vertex(1), 1), 2);
    network.network.set_flow(edge(submission_vertex(2), 1), 1);
    network.network.set_flow(edge(submission_vertex(3), 1), 1);
    network.network.validate(Some(5)).unwrap();

    let assignments = network.get_assignments();
    assert_eq!(assignments.len(), 4);
    assert_eq!(assignments[0].0, UserId(1));
    assert_eq!(assignments[0].1, vec![subs[1].clone(), subs[3].clone()]);
    assert_eq!(assignments[1].0, UserId(2));
    assert_eq!(assignments[1].1, vec![subs[0].clone(), subs[2].clone()]);
    assert_eq!(assignments[2].0, UserId(3));
    assert_eq!(assignments[2].1, vec![subs[1].clone()]);
    assert_eq!(assignments[3].0, UserId(4));
    assert!(assignments[3].1.is_empty());
}

fn links(list: &[Submission]) -> Vec<String> {
    let mut r: Vec<String> = list.iter().map(|s| s.link.clone()).collect();
    r.sort();
    r
}

#[test]
fn happy_path_assigns_the_other_two() {
    let subs = vec![
        submission(1, 7, "/rate/1"),
        submission(2, 8, "/rate/2"),
        submission(3, 9, "/rate/3"),
    ];
    let result = compute_assignments(&exchange(2), subs, &[]);
    assert_eq!(result.len(), 3);
    assert_eq!(result[0].0, UserId(7));
    assert_eq!(links(&result[0].1), vec!["/rate/2", "/rate/3"]);
    assert_eq!(result[1].0, UserId(8));
    assert_eq!(links(&result[1].1), vec!["/rate/1", "/rate/3"]);
    assert_eq!(result[2].0, UserId(9));
    assert_eq!(links(&result[2].1), vec!["/rate/1", "/rate/2"]);
}

#[test]
fn played_games_are_excluded() {
    let subs = vec![
        submission(1, 7, "/rate/1"),
        submission(2, 8, "/rate/2"),
        submission(3, 9, "/rate/3"),
    ];
    let result = compute_assignments(&exchange(2), subs, &[played(1, 7, "/rate/2")]);
    assert_eq!(links(&result[0].1), vec!["/rate/3"]);
    assert_eq!(links(&result[1].1), vec!["/rate/1", "/rate/3"]);
    assert_eq!(links(&result[2].1), vec!["/rate/1", "/rate/2"]);
}

#[test]
fn lone_submitter_gets_nothing() {
    let result = compute_assignments(&exchange(3), vec![submission(1, 7, "/rate/1")], &[]);
    assert_eq!(result.len(), 1);
    assert!(result[0].1.is_empty());
}

#[test]
fn caps_hold_in_larger_exchange() {
    let subs: Vec<Submission> =
        (0..12u64).map(|i| submission(i, 100 + i, &format!("/rate/{i}"))).collect();
    let result = compute_assignments(&exchange(3), subs.clone(), &[]);
    let mut rated = vec![0usize; 12];
    for (user, list) in &result {
        assert_eq!(list.len(), 3);
        for s in list {
            assert_ne!(s.submitter, *user);
            rated[s.id.0 as usize] += 1;
        }
    }
    assert!(rated.iter().all(|&n| n <= 3));
}

#[test]
fn solved_network_validates() {
    let subs: Vec<Submission> =
        (0..6u64).map(|i| submission(i, 10 + i, &format!("/rate/{i}"))).collect();
    let mut network = AssignmentNetwork::build(&exchange(2), subs, &[]);
    solve(&mut network.network);
    network.network.validate(Some(12)).unwrap();
}

#[test]
fn index_allocator_counts_up() {
    let mut allocator = IndexAllocator::new();
    assert_eq!(allocator.next(), 0);
    assert_eq!(allocator.next(), 1);
    assert_eq!(allocator.next(), 2);
}
