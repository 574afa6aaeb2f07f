use fmc::models::{model_file_order, Animation, AnimationPlayer};

fn summary(queue: &[Animation<f32>]) -> Vec<(u32, bool, Option<(u32, f32)>)> {
    queue.iter().map(|a| (a.animation_index, a.repeat, a.transition)).collect()
}

#[test]
fn play_and_adjust_an_animation() {
    let mut player = AnimationPlayer::new(0.5f32);
    player.play(3).repeat().transition(1, 0.25);
    player.play(4).restart();
    player.stop(3);
    let queue = player.take_queue();
    assert_eq!(summary(&queue), vec![(3, true, Some((1, 0.25))), (4, false, None), (3, false, None)]);
    assert!(queue[1].restart);
    assert!(player.take_queue().is_empty());
}

#[test]
fn moving_switches_between_move_and_idle() {
    let mut player = AnimationPlayer::new(0.5f32);
    player.set_move_animation(Some(7));
    player.set_idle_animation(Some(2));
    assert!(player.take_queue().is_empty());
    player.update_movement(true, true);
    assert_eq!(summary(&player.take_queue()), vec![(7, true, Some((2, 0.5)))]);
    player.update_movement(true, true);
    assert!(player.take_queue().is_empty());
    player.update_movement(false, true);
    assert_eq!(summary(&player.take_queue()), vec![(2, true, Some((7, 0.5)))]);
    player.update_movement(true, false);
    assert_eq!(summary(&player.take_queue()), vec![(7, true, None)]);
    player.update_movement(false, false);
    assert_eq!(summary(&player.take_queue()), vec![(7, false, None)]);
}

#[test]
fn changing_the_playing_move_animation_blends() {
    let mut player = AnimationPlayer::new(0.5f32);
    player.set_move_animation(Some(7));
    player.update_movement(true, false);
    player.take_queue();
    player.set_move_animation(Some(8));
    assert_eq!(summary(&player.take_queue()), vec![(8, true, Some((7, 0.5)))]);
    player.set_move_animation(None);
    assert_eq!(summary(&player.take_queue()), vec![(8, false, None)]);
    player.set_idle_animation(Some(1));
    assert!(player.take_queue().is_empty());
}

#[test]
fn without_a_move_animation_nothing_plays() {
    let mut player = AnimationPlayer::new(0.0f32);
    player.update_movement(true, false);
    assert!(player.take_queue().is_empty());
    assert_eq!(player.target_or(5), 5);
    player.set_target(9);
    assert_eq!(player.target_or(5), 9);
    player.set_transition_time(1.5);
    player.set_idle_animation(Some(2));
    player.set_idle_animation(Some(3));
    assert_eq!(summary(&player.take_queue()), vec![(3, true, Some((2, 1.5)))]);
}

#[test]
fn stored_models_are_matched_to_their_files() {
    let stored = vec!["tree".to_owned(), "player".to_owned()];
    let files = vec!["player".to_owned(), "stone".to_owned(), "tree".to_owned()];
    assert_eq!(model_file_order(&stored, &files), Ok(vec![2, 0]));
    let missing = vec!["tree".to_owned(), "cow".to_owned(), "pig".to_owned()];
    assert_eq!(model_file_order(&missing, &files), Err("cow".to_owned()));
    assert_eq!(model_file_order(&vec![], &files), Ok(vec![]));
}
