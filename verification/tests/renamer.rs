use sapio::renamer::Renamer;

#[test]
fn repeated_names_are_renamed_with_a_counter() {
    let mut r = Renamer::new();
    let a = "pay".to_string();
    assert_eq!(r.get_name(&a), "pay");
    assert_eq!(r.get_name(&a), "pay_renamed_0");
    assert_eq!(r.get_name(&a), "pay_renamed_1");
    assert_eq!(r.get_name(&"other".to_string()), "other");
}

#[test]
fn a_taken_renamed_form_is_skipped() {
    let mut r = Renamer::new();
    assert_eq!(r.get_name(&"x_renamed_0".to_string()), "x_renamed_0");
    assert_eq!(r.get_name(&"x".to_string()), "x");
    assert_eq!(r.get_name(&"x".to_string()), "x_renamed_1");
    let mut many = Renamer::new();
    for _ in 0..12 {
        many.get_name(&"n".to_string());
    }
    assert_eq!(many.get_name(&"n".to_string()), "n_renamed_11");
}
