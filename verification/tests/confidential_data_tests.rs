use among_us_server::confidential_data::ConfidentialData;

#[test]
fn confidential_data_starts_public() {
    let data: ConfidentialData<u32, u64> = ConfidentialData::new(5);
    assert_eq!(data.get(1), 5);
    assert_eq!(data.get_true_state(), 5);
}

#[test]
fn confidential_data_private_value_is_seen_by_listed_users_only() {
    let mut data: ConfidentialData<u32, u64> = ConfidentialData::new(5);
    data.set_private_data(7, &[1, 2]);
    assert_eq!(data.get(1), 7);
    assert_eq!(data.get(2), 7);
    assert_eq!(data.get(3), 5);
    assert_eq!(data.get_true_state(), 7);
    data.give_user_private_access(&3);
    assert_eq!(data.get(3), 7);
    assert_eq!(data.get(4), 5);
}

#[test]
fn confidential_data_make_public_shows_the_truth_to_all() {
    let mut data: ConfidentialData<u32, u64> = ConfidentialData::new(5);
    data.set_private_data(7, &[1]);
    data.make_public();
    assert_eq!(data.get(1), 7);
    assert_eq!(data.get(9), 7);
    assert_eq!(data.get_true_state(), 7);
}

#[test]
fn confidential_data_make_public_without_secret_keeps_the_value() {
    let mut data: ConfidentialData<u32, u64> = ConfidentialData::new(5);
    data.make_public();
    assert_eq!(data.get(1), 5);
}

#[test]
fn confidential_data_reveal_replaces_everything() {
    let mut data: ConfidentialData<u32, u64> = ConfidentialData::new(5);
    data.set_private_data(7, &[1]);
    data.set_public_data_and_reveal(9);
    assert_eq!(data.get(1), 9);
    assert_eq!(data.get(2), 9);
    assert_eq!(data.get_true_state(), 9);
}

#[test]
fn confidential_data_new_private_list_replaces_the_old_one() {
    let mut data: ConfidentialData<u32, u64> = ConfidentialData::new(5);
    data.set_private_data(7, &[1]);
    data.set_private_data(8, &[2]);
    assert_eq!(data.get(1), 5);
    assert_eq!(data.get(2), 8);
}

#[test]
fn private_value_never_reaches_unlisted_users() {
    let mut a: ConfidentialData<u32, u64> = ConfidentialData::new(5);
    let mut b: ConfidentialData<u32, u64> = ConfidentialData::new(5);
    a.set_private_data(7, &[1]);
    b.set_private_data(9, &[1]);
    assert_eq!(a.get(2), b.get(2));
    assert_eq!(a.get(2), 5);
    assert_ne!(a.get(1), b.get(1));
}
