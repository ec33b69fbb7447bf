use algo_caster::algorithm::bfs;
use algo_caster::graph::Graph;
use algo_caster::ui::playback::{Advance, ChallengeOutcome, Playback};
use algo_caster::ui::AppState;

fn path_graph() -> Graph {
    let mut g = Graph::new();
    for l in ["A", "B", "C"] {
        g.add_node(0, 0, l.into());
    }
    g.add_edge(0, 1, 1.0f64.to_bits());
    g.add_edge(1, 2, 1.0f64.to_bits());
    g
}

#[test]
fn advancing_shows_each_snapshot_then_finishes() {
    let mut p = Playback::new();
    p.app_state = AppState::Running;
    assert_eq!(p.advance(2), Advance { shown: Some(0), finished: false });
    assert_eq!(p.app_state, AppState::Running);
    assert_eq!(p.advance(2), Advance { shown: Some(1), finished: true });
    assert_eq!(p.app_state, AppState::Finished);
    assert_eq!(p.advance(2), Advance { shown: None, finished: true });
    assert_eq!(p.snapshot_index, 2);
}

#[test]
fn advancing_an_empty_run_finishes_at_once() {
    let mut p = Playback::new();
    assert_eq!(p.advance(0), Advance { shown: None, finished: true });
    assert_eq!(p.app_state, AppState::Finished);
}

#[test]
fn challenge_scores_right_and_wrong_clicks() {
    let g = path_graph();
    let r = bfs::run(&g, 0);
    let mut p = Playback::new();
    p.challenge_mode = true;
    p.start_run(Some(&r));
    assert_eq!(p.app_state, AppState::Paused);
    assert_eq!(p.challenge_expected, Some(0));
    assert_eq!(p.challenge_click(2, Some(&r)), ChallengeOutcome::Wrong);
    assert_eq!(p.challenge_wrong, 1);
    assert_eq!(p.snapshot_index, 0);
    let o = p.challenge_click(0, Some(&r));
    assert_eq!(o, ChallengeOutcome::Correct { step: Advance { shown: Some(0), finished: false } });
    assert_eq!(p.challenge_score, 1);
    assert_eq!(p.challenge_expected, Some(r.snapshots[1].current_node));
    let wrong = (0..g.nodes.len()).find(|&v| Some(v) != p.challenge_expected).unwrap();
    assert_eq!(p.challenge_click(wrong, Some(&r)), ChallengeOutcome::Wrong);
    assert_eq!((p.challenge_score, p.challenge_wrong), (0, 2));
    p.reset();
    assert_eq!(p.app_state, AppState::Editing);
    assert_eq!(p.challenge_click(0, Some(&r)), ChallengeOutcome::NoTarget);
}

#[test]
fn challenge_ends_with_the_last_snapshot() {
    let g = path_graph();
    let r = bfs::run(&g, 0);
    let mut p = Playback::new();
    p.challenge_mode = true;
    p.start_run(Some(&r));
    let total = r.snapshots.len();
    for i in 0..total {
        let expected = r.snapshots[i].current_node;
        match p.challenge_click(expected, Some(&r)) {
            ChallengeOutcome::Correct { step } => assert_eq!(step.finished, i + 1 == total),
            other => panic!("unexpected {:?}", other),
        }
    }
    assert_eq!(p.app_state, AppState::Finished);
    assert_eq!(p.challenge_expected, None);
    assert_eq!(p.challenge_score as usize, total);
}

#[test]
fn starting_without_challenge_runs() {
    let g = path_graph();
    let r = bfs::run(&g, 0);
    let mut p = Playback::new();
    p.start_run(Some(&r));
    assert_eq!(p.app_state, AppState::Running);
    assert_eq!(p.snapshot_index, 0);
}

#[test]
fn run_button_starts_pauses_and_resumes() {
    let mut p = Playback::new();
    assert!(p.toggle_run());
    assert_eq!(p.app_state, AppState::Editing);
    p.app_state = AppState::Running;
    assert!(!p.toggle_run());
    assert_eq!(p.app_state, AppState::Paused);
    assert!(!p.toggle_run());
    assert_eq!(p.app_state, AppState::Running);
    p.app_state = AppState::Finished;
    assert!(p.toggle_run());
}

#[test]
fn single_step_stays_paused_until_the_end() {
    let mut p = Playback::new();
    p.app_state = AppState::Paused;
    assert_eq!(p.step_once(2), Advance { shown: Some(0), finished: false });
    assert_eq!(p.app_state, AppState::Paused);
    assert_eq!(p.step_once(2), Advance { shown: Some(1), finished: true });
    assert_eq!(p.app_state, AppState::Finished);
}
