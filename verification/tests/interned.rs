use sapio::interned::get_interned;

#[test]
fn compiler_names_and_small_numerals_are_interned() {
    assert_eq!(get_interned("then_fn").as_deref(), Some("then_fn"));
    assert_eq!(get_interned("suggested_txs").as_deref(), Some("suggested_txs"));
    assert_eq!(get_interned("0").as_deref(), Some("0"));
    assert_eq!(get_interned("99").as_deref(), Some("99"));
}

#[test]
fn other_strings_are_not_interned() {
    assert_eq!(get_interned("100"), None);
    assert_eq!(get_interned("07"), None);
    assert_eq!(get_interned(""), None);
    assert_eq!(get_interned("then"), None);
}
