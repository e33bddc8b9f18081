use alda::activity_selector::Activity;

fn shown(set: &[&Activity]) -> Vec<String> {
    set.iter().map(|a| format!("{:?}", a)).collect()
}

#[test]
fn activities_from_lists() {
    let activities = Activity::from_list(vec![1, 3, 0], vec![4, 5]);
    assert_eq!(activities.len(), 2);
    assert_eq!(format!("{:?}", activities[0]), format!("{:?}", Activity::new(1, 4)));
    assert_eq!(format!("{:?}", activities[1]), format!("{:?}", Activity::new(3, 5)));
}

#[test]
fn maximum_set_of_the_textbook_activities() {
    let starts = vec![0, 1, 3, 0, 5, 3, 5, 6, 8, 8, 2, 12];
    let ends = vec![0, 4, 5, 6, 7, 9, 9, 10, 11, 12, 14, 16];
    let activities = Activity::from_list(starts, ends);
    let set = Activity::maximum_set(&activities, 0);
    let expected = [
        Activity::new(1, 4),
        Activity::new(5, 7),
        Activity::new(8, 11),
        Activity::new(12, 16),
    ];
    assert_eq!(shown(&set), shown(&expected.iter().collect::<Vec<_>>()));
    let later = Activity::maximum_set(&activities, 4);
    assert_eq!(shown(&later), shown(&[&expected[2], &expected[3]]));
    assert!(Activity::maximum_set(&activities, 11).is_empty());
    assert!(Activity::maximum_set(&activities, 40).is_empty());
    assert!(Activity::maximum_set(&[], 0).is_empty());
}
