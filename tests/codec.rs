use procure2pay::activities::{num_to_str, str_to_num, ACTIVITY_COUNT};

#[test]
fn codes_and_names_round_trip() {
    for code in 0..ACTIVITY_COUNT {
        assert_eq!(str_to_num(num_to_str(code)), Some(code));
    }
}

#[test]
fn known_names_have_their_codes() {
    assert_eq!(str_to_num("Create purchase order item"), Some(0));
    assert_eq!(str_to_num("Create MM invoice by vendor"), Some(1));
    assert_eq!(str_to_num("Clear open item"), Some(4));
    assert_eq!(str_to_num("Change baseline date for payment"), Some(29));
    assert_eq!(num_to_str(10), "Reduce purchase order item quantity");
}

#[test]
fn unknown_names_have_no_code() {
    assert_eq!(str_to_num("Activity A"), None);
    assert_eq!(str_to_num(""), None);
    assert_eq!(str_to_num("clear open item"), None);
    assert_eq!(str_to_num("Clear open item "), None);
}
