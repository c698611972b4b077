use spriterize::names::{default_layer_name, file_name_from, unique_file_name};

#[test]
fn keeps_usable_layer_names_as_they_are() {
    assert_eq!(file_name_from("Head", 0), "Head");
    assert_eq!(file_name_from("left arm", 0), "left arm");
    assert_eq!(file_name_from("arm-02", 0), "arm-02");
}

#[test]
fn replaces_characters_a_file_name_cannot_hold() {
    assert_eq!(file_name_from("torso/legs", 0), "torso_legs");
    assert_eq!(file_name_from("a:b*c?d", 0), "a_b_c_d");
    assert_eq!(file_name_from("q\"w<e>r|t\\y", 0), "q_w_e_r_t_y");
}

#[test]
fn falls_back_to_the_layer_position_when_nothing_usable_is_left() {
    assert_eq!(file_name_from("", 0), "layer_1");
    assert_eq!(file_name_from("   ", 4), "layer_5");
    assert_eq!(file_name_from("...", 1), "layer_2");
}

#[test]
fn trims_trailing_dots_and_spaces_windows_rejects() {
    assert_eq!(file_name_from("  head  ", 0), "head");
    assert_eq!(file_name_from("head.", 0), "head");
}

#[test]
fn control_characters_become_underscores() {
    assert_eq!(file_name_from("a\tb\u{7f}c", 0), "a_b_c");
    assert_eq!(file_name_from("a. .", 3), "a.");
}

#[test]
fn distinguishes_layers_that_share_a_name() {
    let mut taken = Vec::new();

    assert_eq!(unique_file_name(&mut taken, "arm", 0).as_deref(), Some("arm"));
    assert_eq!(unique_file_name(&mut taken, "arm", 1).as_deref(), Some("arm_2"));
    assert_eq!(unique_file_name(&mut taken, "arm", 2).as_deref(), Some("arm_3"));
    assert_eq!(unique_file_name(&mut taken, "leg", 3).as_deref(), Some("leg"));
}

#[test]
fn treats_names_differing_only_in_case_as_the_same_file() {
    let mut taken = Vec::new();

    assert_eq!(unique_file_name(&mut taken, "Arm", 0).as_deref(), Some("Arm"));
    assert_eq!(unique_file_name(&mut taken, "arm", 1).as_deref(), Some("arm_2"));
}

#[test]
fn taken_names_are_remembered_in_lowercase() {
    let mut taken = Vec::new();
    unique_file_name(&mut taken, "Arm", 0);
    unique_file_name(&mut taken, "ARM", 1);
    assert_eq!(taken, vec!["arm".to_string(), "arm_2".to_string()]);
}

#[test]
fn default_layer_names_count_from_the_given_number() {
    assert_eq!(default_layer_name(1), "Layer 1");
    assert_eq!(default_layer_name(42), "Layer 42");
}

#[test]
fn a_suffixed_name_is_checked_by_its_own_lowercase_form() {
    let mut taken = vec!["arm".to_string(), "arm_2".to_string()];
    assert_eq!(unique_file_name(&mut taken, "ARM", 0).as_deref(), Some("ARM_3"));
    assert_eq!(taken, vec!["arm".to_string(), "arm_2".to_string(), "arm_3".to_string()]);
}
