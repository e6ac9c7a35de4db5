use thecrewsolver::card::Card::{
    B1, B5, B6, B7, B8, B9, G1, G2, G5, G6, G7, G9, M1, M2, M3, M5, M7, M9, R2, R3, R4, Y1, Y2,
    Y3, Y4, Y5, Y8, Y9,
};
use thecrewsolver::card::CardSet;
use thecrewsolver::tasks::{Task, TaskListBuilder, TasksObjective};

#[test]
fn test_task_list_builder() {
    let mut tlb = TaskListBuilder::new();
    tlb.push(Task::new(2, Y5));
    tlb.push(Task::new(4, M2));
    tlb.push(Task::new(0, B1));

    let expected = [Task::new(2, Y5), Task::new(4, M2), Task::new(0, B1)];
    let actual = tlb.done();
    assert_eq!(actual.tasks[0..3], expected);
    assert_eq!(actual.mask, CardSet::from_cards(&[Y5, M2, B1]));
}

#[test]
fn test_task_list_builder_from_list() {
    let tasks = [Task::new(2, G6), Task::new(4, M1)];
    let mut tlb = TaskListBuilder::from_list(&tasks);
    tlb.push(Task::new(0, B9));

    let expected = [Task::new(2, G6), Task::new(4, M1), Task::new(0, B9)];
    let actual = tlb.done();
    assert_eq!(actual.tasks[0..3], expected);
    assert_eq!(actual.mask, CardSet::from_cards(&[G6, M1, B9]));
}

#[test]
fn test_task_list_init() {
    assert!(TaskListBuilder::new().done().is_complete());
}

#[test]
fn test_empty_objective() {
    assert!(TasksObjective::new(&[], &[], &[], None).is_complete());
}

#[test]
fn test_different_players_win() {
    assert!(TasksObjective::new(&[Task::new(0, B8)], &[], &[], None)
        .check(CardSet::from_cards(&[B1, B5, B8, M3]), 0)
        .unwrap()
        .is_complete());
    assert!(TasksObjective::new(&[Task::new(1, B8)], &[], &[], None)
        .check(CardSet::from_cards(&[B1, B5, B8, M3]), 1)
        .unwrap()
        .is_complete());
    assert!(TasksObjective::new(&[Task::new(2, B8)], &[], &[], None)
        .check(CardSet::from_cards(&[B1, B5, B8, M3]), 2)
        .unwrap()
        .is_complete());
    assert!(TasksObjective::new(&[Task::new(3, B8)], &[], &[], None)
        .check(CardSet::from_cards(&[B1, B5, B8, M3]), 3)
        .unwrap()
        .is_complete());
}

#[test]
fn test_wrong_player_doesnt_win() {
    assert!(TasksObjective::new(&[Task::new(0, B8)], &[], &[], None)
        .check(CardSet::from_cards(&[B1, B5, B8, M3]), 1)
        .is_none());
    assert!(TasksObjective::new(&[Task::new(1, B8)], &[], &[], None)
        .check(CardSet::from_cards(&[B1, B5, B8, M3]), 0)
        .is_none());
}

#[test]
fn test_absolute_doesnt_have_to_be_immediate() {
    let obj = TasksObjective::new(&[Task::new(0, B8)], &[], &[], None);
    assert!(!obj.is_complete());

    let obj = obj
        .check(CardSet::from_cards(&[B1, B5, B7, M3]), 0)
        .unwrap();
    assert!(!obj.is_complete());

    let obj = obj
        .check(CardSet::from_cards(&[R3, Y8, G2, B8]), 0)
        .unwrap();
    assert!(obj.is_complete());
}

#[test]
fn test_single_absolute_task() {
    assert!(TasksObjective::new(&[Task::new(0, B8)], &[], &[], None)
        .check(CardSet::from_cards(&[B1, B5, B8, M3]), 0)
        .unwrap()
        .is_complete());
    assert!(TasksObjective::new(&[Task::new(0, B8)], &[], &[], None)
        .check(CardSet::from_cards(&[B1, B5, B8, M3]), 1)
        .is_none());
}

#[test]
fn test_single_relative_task() {
    assert!(TasksObjective::new(&[], &[Task::new(0, B8)], &[], None)
        .check(CardSet::from_cards(&[B1, B5, B8, M3]), 0)
        .unwrap()
        .is_complete());
    assert!(TasksObjective::new(&[], &[Task::new(0, B8)], &[], None)
        .check(CardSet::from_cards(&[B1, B5, B8, M3]), 1)
        .is_none());
}

#[test]
fn test_single_anytime_task() {
    assert!(TasksObjective::new(&[], &[], &[Task::new(0, B8)], None)
        .check(CardSet::from_cards(&[B1, B5, B8, M3]), 0)
        .unwrap()
        .is_complete());
    assert!(TasksObjective::new(&[], &[], &[Task::new(0, B8)], None)
        .check(CardSet::from_cards(&[B1, B5, B8, M3]), 1)
        .is_none());
}

#[test]
fn test_single_last_task() {
    assert!(TasksObjective::new(&[], &[], &[], Some(Task::new(0, B8)))
        .check(CardSet::from_cards(&[B1, B5, B8, M3]), 0)
        .unwrap()
        .is_complete());
    assert!(TasksObjective::new(&[], &[], &[], Some(Task::new(0, B8)))
        .check(CardSet::from_cards(&[B1, B5, B8, M3]), 1)
        .is_none());
}

#[test]
fn test_two_absolute_tasks() {
    assert!(
        TasksObjective::new(&[Task::new(0, B8), Task::new(1, G1)], &[], &[], None)
            .check(CardSet::from_cards(&[B1, B5, B8, M3]), 0)
            .unwrap()
            .check(CardSet::from_cards(&[M5, G9, Y2, G1]), 1)
            .unwrap()
            .is_complete()
    );
    assert!(
        TasksObjective::new(&[Task::new(0, B8), Task::new(1, G1)], &[], &[], None)
            .check(CardSet::from_cards(&[M5, G9, Y2, G1]), 1)
            .is_none()
    );
}

#[test]
fn test_two_relative_tasks() {
    assert!(
        TasksObjective::new(&[], &[Task::new(0, B8), Task::new(1, G1)], &[], None)
            .check(CardSet::from_cards(&[B1, B5, B8, M3]), 0)
            .unwrap()
            .check(CardSet::from_cards(&[M5, G9, Y2, G1]), 1)
            .unwrap()
            .is_complete()
    );
    assert!(
        TasksObjective::new(&[], &[Task::new(0, B8), Task::new(1, G1)], &[], None)
            .check(CardSet::from_cards(&[M5, G9, Y2, G1]), 1)
            .is_none()
    );
}

#[test]
fn test_two_anytime_tasks() {
    assert!(
        TasksObjective::new(&[], &[], &[Task::new(0, B8), Task::new(1, G1)], None)
            .check(CardSet::from_cards(&[B1, B5, B8, M3]), 0)
            .unwrap()
            .check(CardSet::from_cards(&[M5, G9, Y2, G1]), 1)
            .unwrap()
            .is_complete()
    );
    assert!(
        TasksObjective::new(&[], &[], &[Task::new(0, B8), Task::new(1, G1)], None)
            .check(CardSet::from_cards(&[M5, G9, Y2, G1]), 1)
            .unwrap()
            .check(CardSet::from_cards(&[B1, B5, B8, M3]), 0)
            .unwrap()
            .is_complete()
    );
}

#[test]
fn test_absolute_before_relative() {
    assert!(
        TasksObjective::new(&[Task::new(0, B8)], &[Task::new(1, G1)], &[], None)
            .check(CardSet::from_cards(&[B1, B5, B8, M3]), 0)
            .unwrap()
            .check(CardSet::from_cards(&[M5, G9, Y2, G1]), 1)
            .unwrap()
            .is_complete()
    );
    assert!(
        TasksObjective::new(&[Task::new(0, B8)], &[Task::new(1, G1)], &[], None)
            .check(CardSet::from_cards(&[M5, G9, Y2, G1]), 1)
            .is_none()
    );
}

#[test]
fn test_absolute_before_anytime() {
    assert!(
        TasksObjective::new(&[Task::new(0, B8)], &[], &[Task::new(1, G1)], None)
            .check(CardSet::from_cards(&[B1, B5, B8, M3]), 0)
            .unwrap()
            .check(CardSet::from_cards(&[M5, G9, Y2, G1]), 1)
            .unwrap()
            .is_complete()
    );
    assert!(
        TasksObjective::new(&[Task::new(0, B8)], &[], &[Task::new(1, G1)], None)
            .check(CardSet::from_cards(&[M5, G9, Y2, G1]), 1)
            .is_none()
    );
}

#[test]
fn test_absolute_before_last() {
    assert!(
        TasksObjective::new(&[Task::new(0, B8)], &[], &[], Some(Task::new(1, G1)))
            .check(CardSet::from_cards(&[B1, B5, B8, M3]), 0)
            .unwrap()
            .check(CardSet::from_cards(&[M5, G9, Y2, G1]), 1)
            .unwrap()
            .is_complete()
    );
    assert!(
        TasksObjective::new(&[Task::new(0, B8)], &[], &[], Some(Task::new(1, G1)))
            .check(CardSet::from_cards(&[M5, G9, Y2, G1]), 1)
            .is_none()
    );
}

#[test]
fn test_relative_can_mix_with_anytime() {
    assert!(
        TasksObjective::new(&[], &[Task::new(0, B8)], &[Task::new(1, G1)], None)
            .check(CardSet::from_cards(&[B1, B5, B8, M3]), 0)
            .unwrap()
            .check(CardSet::from_cards(&[M5, G9, Y2, G1]), 1)
            .unwrap()
            .is_complete()
    );
    assert!(
        TasksObjective::new(&[], &[Task::new(0, B8)], &[Task::new(1, G1)], None)
            .check(CardSet::from_cards(&[M5, G9, Y2, G1]), 1)
            .unwrap()
            .check(CardSet::from_cards(&[B1, B5, B8, M3]), 0)
            .unwrap()
            .is_complete()
    );
}

#[test]
fn test_relative_before_last() {
    assert!(
        TasksObjective::new(&[], &[Task::new(0, B8)], &[], Some(Task::new(1, G1)))
            .check(CardSet::from_cards(&[B1, B5, B8, M3]), 0)
            .unwrap()
            .check(CardSet::from_cards(&[M5, G9, Y2, G1]), 1)
            .unwrap()
            .is_complete()
    );
    assert!(
        TasksObjective::new(&[], &[Task::new(0, B8)], &[], Some(Task::new(1, G1)))
            .check(CardSet::from_cards(&[M5, G9, Y2, G1]), 1)
            .is_none()
    );
}

#[test]
fn test_anytime_before_last() {
    assert!(
        TasksObjective::new(&[], &[], &[Task::new(0, B8)], Some(Task::new(1, G1)))
            .check(CardSet::from_cards(&[B1, B5, B8, M3]), 0)
            .unwrap()
            .check(CardSet::from_cards(&[M5, G9, Y2, G1]), 1)
            .unwrap()
            .is_complete()
    );
    assert!(
        TasksObjective::new(&[], &[], &[Task::new(0, B8)], Some(Task::new(1, G1)))
            .check(CardSet::from_cards(&[M5, G9, Y2, G1]), 1)
            .is_none()
    );
}

#[test]
fn test_two_absolute_one_turn() {
    assert!(
        TasksObjective::new(&[Task::new(0, G1), Task::new(0, B8)], &[], &[], None)
            .check(CardSet::from_cards(&[B1, G1, B8, M3]), 0)
            .unwrap()
            .is_complete()
    );
}

#[test]
fn test_two_relative_one_turn() {
    assert!(
        TasksObjective::new(&[], &[Task::new(0, G1), Task::new(0, B8)], &[], None)
            .check(CardSet::from_cards(&[B1, G1, B8, M3]), 0)
            .unwrap()
            .is_complete()
    );
}

#[test]
fn test_two_anytime_one_turn() {
    assert!(
        TasksObjective::new(&[], &[], &[Task::new(0, G1), Task::new(0, B8)], None)
            .check(CardSet::from_cards(&[B1, G1, B8, M3]), 0)
            .unwrap()
            .is_complete()
    );
}

#[test]
fn test_absolute_and_relative_one_turn() {
    assert!(
        TasksObjective::new(&[Task::new(0, G1)], &[Task::new(0, B8)], &[], None)
            .check(CardSet::from_cards(&[B1, G1, B8, M3]), 0)
            .unwrap()
            .is_complete()
    );
}

#[test]
fn test_absolute_and_anytime_one_turn() {
    assert!(
        TasksObjective::new(&[Task::new(0, G1)], &[], &[Task::new(0, B8)], None)
            .check(CardSet::from_cards(&[B1, G1, B8, M3]), 0)
            .unwrap()
            .is_complete()
    );
}

#[test]
fn test_absolute_and_last_one_turn() {
    assert!(
        TasksObjective::new(&[Task::new(0, G1)], &[], &[], Some(Task::new(0, B8)))
            .check(CardSet::from_cards(&[B1, G1, B8, M3]), 0)
            .unwrap()
            .is_complete()
    );
}

#[test]
fn test_relative_and_anytime_one_turn() {
    assert!(
        TasksObjective::new(&[], &[Task::new(0, G1)], &[Task::new(0, B8)], None)
            .check(CardSet::from_cards(&[B1, G1, B8, M3]), 0)
            .unwrap()
            .is_complete()
    );
}

#[test]
fn test_relative_and_last_one_turn() {
    assert!(
        TasksObjective::new(&[], &[Task::new(0, G1)], &[], Some(Task::new(0, B8)))
            .check(CardSet::from_cards(&[B1, G1, B8, M3]), 0)
            .unwrap()
            .is_complete()
    );
}

#[test]
fn test_anytime_and_last_one_turn() {
    assert!(
        TasksObjective::new(&[], &[], &[Task::new(0, G1)], Some(Task::new(0, B8)))
            .check(CardSet::from_cards(&[B1, G1, B8, M3]), 0)
            .unwrap()
            .is_complete()
    );
}

#[test]
fn test_all_types_one_turn() {
    assert!(TasksObjective::new(
        &[Task::new(0, G1)],
        &[Task::new(0, M7)],
        &[Task::new(0, Y3)],
        Some(Task::new(0, B8))
    )
    .check(CardSet::from_cards(&[B8, M7, Y3, G1]), 0)
    .unwrap()
    .is_complete());
}

#[test]
fn test_all_types_in_order() {
    assert!(TasksObjective::new(
        &[Task::new(0, G1)],
        &[Task::new(1, M7)],
        &[Task::new(2, Y3)],
        Some(Task::new(3, B8))
    )
    .check(CardSet::from_cards(&[B6, Y8, G2, M1]), 0)
    .unwrap()
    .check(CardSet::from_cards(&[G1, M2, Y1, G7]), 0)
    .unwrap()
    .check(CardSet::from_cards(&[M7, R2, G5, M9]), 1)
    .unwrap()
    .check(CardSet::from_cards(&[B7, Y4, R4, Y3]), 2)
    .unwrap()
    .check(CardSet::from_cards(&[B1, Y2, B8, Y9]), 3)
    .unwrap()
    .is_complete());
}
