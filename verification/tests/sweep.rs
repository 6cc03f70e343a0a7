use the_universe::sweep::count_laws;

#[test]
fn no_settings_means_no_laws() {
    assert_eq!(count_laws(&Vec::new()), (0, 0));
}

#[test]
fn settings_denoting_one_law_count_once() {
    let settings = vec![(7u32, false), (7, false), (7, false)];
    assert_eq!(count_laws(&settings), (1, 0));
}

#[test]
fn a_law_is_productive_if_any_setting_denoting_it_was() {
    let settings = vec![(7u32, false), (9, false), (7, true), (9, false), (3, true)];
    assert_eq!(count_laws(&settings), (3, 2));
}

#[test]
fn many_settings_collapse_onto_few_laws() {
    // A grid of 81 settings that only ever denotes four laws.
    let settings: Vec<(u32, bool)> = (0..81u32).map(|i| (i % 4, i == 40)).collect();
    let (laws, productive) = count_laws(&settings);
    assert_eq!(laws, 4);
    assert_eq!(productive, 1);
    assert!(laws < settings.len());
}
