use snake_dqn::agent::argmax;
use snake_dqn::agent::masked_targets;
use snake_dqn::agent::DQNAgent;
use snake_dqn::agent::Experience;
use snake_dqn::agent::ACTION_COUNT;
use snake_dqn::engine::Reward;
use snake_dqn::features::Ratio;

fn memory_of(tag: i32) -> Experience {
    Experience {
        state: vec![Ratio { num: tag, den: 1 }],
        action: (tag as usize) % 4,
        reward: Reward { halves: tag },
        next_state: vec![Ratio { num: tag + 1, den: 1 }],
        done: tag % 2 == 0,
    }
}

fn tags(agent: &DQNAgent) -> Vec<i32> {
    let mut out = Vec::new();
    for i in 0..agent.buffer_len() {
        out.push(agent.experience(i).reward.halves);
    }
    out
}

#[test]
fn new_agent_has_an_empty_memory() {
    let agent = DQNAgent::new();
    assert_eq!(agent.buffer_len(), 0);
    assert!(agent.sample_batch().is_none());
}

#[test]
fn remember_keeps_the_order_of_insertion() {
    let mut agent = DQNAgent::with_limits(5, 2, 1);
    for tag in 0..3 {
        agent.remember(memory_of(tag));
    }
    assert_eq!(agent.buffer_len(), 3);
    assert_eq!(tags(&agent), vec![0, 1, 2]);
    let first = agent.experience(0);
    assert_eq!(first.state, vec![Ratio { num: 0, den: 1 }]);
    assert_eq!(first.next_state, vec![Ratio { num: 1, den: 1 }]);
    assert_eq!(first.action, 0);
    assert!(first.done);
}

#[test]
fn one_more_than_the_capacity_drops_the_oldest() {
    let capacity = 6;
    let mut agent = DQNAgent::with_limits(capacity, 2, 1);
    for tag in 0..(capacity as i32 + 1) {
        agent.remember(memory_of(tag));
    }
    assert_eq!(agent.buffer_len(), capacity);
    assert_eq!(tags(&agent), vec![1, 2, 3, 4, 5, 6]);
    assert!(!tags(&agent).contains(&0));
}

#[test]
fn a_full_memory_keeps_the_latest() {
    let mut agent = DQNAgent::with_limits(3, 2, 1);
    for tag in 0..10 {
        agent.remember(memory_of(tag));
        assert!(agent.buffer_len() <= 3);
    }
    assert_eq!(tags(&agent), vec![7, 8, 9]);
    let mut agent = DQNAgent::with_limits(1, 1, 1);
    agent.remember(memory_of(4));
    agent.remember(memory_of(5));
    assert_eq!(tags(&agent), vec![5]);
}

#[test]
fn default_agent_keeps_fifty_thousand_memories() {
    let mut agent = DQNAgent::new();
    for tag in 0..50_001 {
        agent.remember(memory_of(tag));
    }
    assert_eq!(agent.buffer_len(), 50_000);
    assert_eq!(agent.experience(0).reward.halves, 1);
    assert_eq!(agent.experience(49_999).reward.halves, 50_000);
}

#[test]
fn no_batch_while_the_memory_is_short_of_one() {
    let mut agent = DQNAgent::with_limits(10, 4, 1);
    for tag in 0..3 {
        agent.remember(memory_of(tag));
        assert!(agent.sample_batch().is_none());
        assert!(agent.step_and_train().is_none());
    }
    agent.remember(memory_of(3));
    assert!(agent.sample_batch().is_some());
    assert!(agent.step_and_train().is_some());
}

#[test]
fn a_batch_has_the_batch_size_and_points_into_the_memory() {
    let mut agent = DQNAgent::with_limits(10, 4, 1);
    for tag in 0..7 {
        agent.remember(memory_of(tag));
    }
    let mut seen = vec![false; 7];
    for _ in 0..200 {
        let picks = agent.sample_batch().unwrap();
        assert_eq!(picks.len(), 4);
        for pick in picks {
            assert!(pick < 7);
            seen[pick] = true;
        }
    }
    assert!(seen.iter().filter(|s| **s).count() > 1);
}

#[test]
fn default_agent_trains_on_every_fourth_step_with_sixty_four_memories() {
    let mut agent = DQNAgent::new();
    for tag in 0..63 {
        agent.remember(memory_of(tag));
    }
    for _ in 0..8 {
        assert!(agent.step_and_train().is_none());
    }
    agent.remember(memory_of(63));
    let mut trained = Vec::new();
    for step in 9..=20 {
        if let Some(batch) = agent.step_and_train() {
            assert_eq!(batch.picks.len(), 64);
            for pick in batch.picks {
                assert!(pick < 64);
            }
            trained.push(step);
        }
    }
    assert_eq!(trained, vec![12, 16, 20]);
}

#[test]
fn training_follows_the_cadence() {
    let mut agent = DQNAgent::with_limits(10, 1, 3);
    agent.remember(memory_of(0));
    let mut trained = Vec::new();
    for step in 1..=10 {
        if agent.step_and_train().is_some() {
            trained.push(step);
        }
    }
    assert_eq!(trained, vec![3, 6, 9]);
    assert_eq!(agent.buffer_len(), 1);
}

#[test]
fn random_action_is_one_of_the_four() {
    let mut seen = [false; 4];
    for _ in 0..400 {
        let action = DQNAgent::random_action();
        assert!(action < ACTION_COUNT);
        assert!(action < 4);
        seen[action] = true;
    }
    assert!(seen.iter().filter(|s| **s).count() > 1);
}

#[test]
fn argmax_finds_the_greatest() {
    assert_eq!(argmax(&vec![3, 9, -2, 4]), 1);
    assert_eq!(argmax(&vec![-5, -9, -2, -4]), 2);
    assert_eq!(argmax(&vec![1, 2, 3, 4]), 3);
    assert_eq!(argmax(&vec![7]), 0);
    assert_eq!(argmax(&vec![i64::MIN, i64::MAX, 0]), 1);
}

#[test]
fn argmax_takes_the_first_of_equals() {
    assert_eq!(argmax(&vec![5, 5, 5, 5]), 0);
    assert_eq!(argmax(&vec![1, 8, 8, 3]), 1);
    assert_eq!(argmax(&vec![0, 2, 1, 2]), 1);
}

#[test]
fn steps_are_counted_whether_or_not_training_is_due() {
    let mut agent = DQNAgent::with_limits(4, 2, 3);
    assert_eq!(agent.step_count(), 0);
    for expected in 1..=7 {
        let _ = agent.step_and_train();
        assert_eq!(agent.step_count(), expected);
    }
    agent.remember(memory_of(1));
    assert_eq!(agent.step_count(), 7);
}

#[test]
fn gather_lays_the_picked_memories_out_in_columns() {
    let mut agent = DQNAgent::with_limits(10, 3, 1);
    for tag in 10..15 {
        agent.remember(memory_of(tag));
    }
    let batch = agent.gather(vec![4, 0, 0, 2]);
    assert_eq!(batch.picks, vec![4, 0, 0, 2]);
    assert_eq!(batch.actions, vec![2, 2, 2, 0]);
    assert_eq!(
        batch.rewards,
        vec![
            Reward { halves: 14 },
            Reward { halves: 10 },
            Reward { halves: 10 },
            Reward { halves: 12 }
        ]
    );
    assert_eq!(batch.dones, vec![true, true, true, true]);
    assert_eq!(
        batch.states,
        vec![
            vec![Ratio { num: 14, den: 1 }],
            vec![Ratio { num: 10, den: 1 }],
            vec![Ratio { num: 10, den: 1 }],
            vec![Ratio { num: 12, den: 1 }],
        ]
    );
    assert_eq!(
        batch.next_states,
        vec![
            vec![Ratio { num: 15, den: 1 }],
            vec![Ratio { num: 11, den: 1 }],
            vec![Ratio { num: 11, den: 1 }],
            vec![Ratio { num: 13, den: 1 }],
        ]
    );
    let none = agent.gather(vec![]);
    assert!(none.picks.is_empty() && none.states.is_empty() && none.dones.is_empty());
    assert_eq!(agent.buffer_len(), 5);
}

#[test]
fn gather_tells_the_memories_that_are_not_final() {
    let mut agent = DQNAgent::with_limits(10, 3, 1);
    for tag in 0..4 {
        agent.remember(memory_of(tag));
    }
    let batch = agent.gather(vec![0, 1, 2, 3]);
    assert_eq!(batch.dones, vec![true, false, true, false]);
    assert_eq!(batch.actions, vec![0, 1, 2, 3]);
}

#[test]
fn the_batch_of_a_training_step_is_gathered_from_its_picks() {
    let mut agent = DQNAgent::with_limits(10, 5, 2);
    for tag in 0..8 {
        agent.remember(memory_of(tag));
    }
    assert!(agent.step_and_train().is_none());
    let batch = agent.step_and_train().unwrap();
    assert_eq!(batch.picks.len(), 5);
    assert_eq!(batch.states.len(), 5);
    assert_eq!(batch.actions.len(), 5);
    assert_eq!(batch.rewards.len(), 5);
    assert_eq!(batch.next_states.len(), 5);
    assert_eq!(batch.dones.len(), 5);
    for row in 0..5 {
        let from = agent.experience(batch.picks[row]);
        assert_eq!(batch.states[row], from.state);
        assert_eq!(batch.actions[row], from.action);
        assert_eq!(batch.rewards[row], from.reward);
        assert_eq!(batch.next_states[row], from.next_state);
        assert_eq!(batch.dones[row], from.done);
        assert!(batch.actions[row] < ACTION_COUNT);
    }
}

#[test]
fn masked_targets_replace_the_value_of_the_action_taken_only() {
    let predictions = vec![
        vec![0.5f32, -1.0, 2.0, 0.25],
        vec![1.5, 1.5, 1.5, 1.5],
        vec![-3.0, 0.0, 3.0, 6.0],
    ];
    let targets = masked_targets(&predictions, &vec![2, 0, 3], &vec![10.0, -10.0, 0.125]);
    assert_eq!(
        targets,
        vec![
            vec![0.5, -1.0, 10.0, 0.25],
            vec![-10.0, 1.5, 1.5, 1.5],
            vec![-3.0, 0.0, 3.0, 0.125],
        ]
    );
    // the predictions are left as they were
    assert_eq!(predictions[0], vec![0.5, -1.0, 2.0, 0.25]);
    // the difference between targets and predictions is zero off the action taken
    for row in 0..3 {
        let mut changed = 0;
        for column in 0..4 {
            if targets[row][column] != predictions[row][column] {
                changed += 1;
            }
        }
        assert_eq!(changed, 1);
    }
}

#[test]
fn masked_targets_of_an_empty_batch_and_of_other_values() {
    let none: Vec<Vec<i32>> = masked_targets(&vec![], &vec![], &vec![]);
    assert!(none.is_empty());
    assert_eq!(masked_targets(&vec![vec![7]], &vec![0], &vec![9]), vec![vec![9]]);
    assert_eq!(
        masked_targets(&vec![vec![1, 2], vec![3, 4, 5]], &vec![1, 1], &vec![0, 0]),
        vec![vec![1, 0], vec![3, 0, 5]]
    );
}

#[test]
fn act_greedy_takes_the_best_action_and_the_first_of_equals() {
    let agent = DQNAgent::new();
    assert_eq!(agent.act_greedy(&vec![-7, 12, 3, 11]), 1);
    assert_eq!(agent.act_greedy(&vec![4, 4, 9, 9]), 2);
    assert_eq!(agent.act_greedy(&vec![0, 0, 0, 0]), 0);
    assert_eq!(agent.act_greedy(&vec![-4, -3, -2, -1]), 3);
}

#[test]
fn act_exploits_unless_told_to_explore() {
    let agent = DQNAgent::new();
    for _ in 0..50 {
        assert_eq!(agent.act(false, &vec![5, 1, 9, 2]), 2);
    }
    assert_eq!(agent.buffer_len(), 0);
    assert_eq!(agent.step_count(), 0);
}

#[test]
fn act_explores_among_all_actions() {
    let agent = DQNAgent::new();
    let mut seen = [false; 4];
    for _ in 0..400 {
        let action = agent.act(true, &vec![5, 1, 9, 2]);
        assert!(action < 4);
        seen[action] = true;
        // the values play no part: none need be given
        assert!(agent.act(true, &Vec::new()) < 4);
    }
    assert!(seen.iter().filter(|s| **s).count() > 1);
}
