use sina_quotes::symbols::{all, all_codes, categories, ALL_SYMBOLS};

#[test]
fn test_all_symbols_count() {
    assert_eq!(ALL_SYMBOLS.len(), 29);
}

#[test]
fn test_all_codes() {
    let codes = all_codes();
    assert!(codes.contains(&"hf_CL"));
    assert!(codes.contains(&"hf_GC"));
    assert!(codes.contains(&"hf_OIL"));
}

#[test]
fn test_categories_complete() {
    let total = categories::ENERGY.len()
        + categories::PRECIOUS_METALS.len()
        + categories::BASE_METALS.len()
        + categories::AGRICULTURE.len()
        + categories::LIVESTOCK.len()
        + categories::OTHER.len()
        + categories::ASIA.len();
    assert_eq!(total, ALL_SYMBOLS.len());
}

#[test]
fn categories_in_order_make_the_full_table() {
    let mut joined = Vec::new();
    for group in [
        &categories::ENERGY[..],
        &categories::PRECIOUS_METALS[..],
        &categories::BASE_METALS[..],
        &categories::AGRICULTURE[..],
        &categories::LIVESTOCK[..],
        &categories::OTHER[..],
        &categories::ASIA[..],
    ] {
        joined.extend_from_slice(group);
    }
    assert_eq!(joined, ALL_SYMBOLS.to_vec());
    assert_eq!(all(), &ALL_SYMBOLS[..]);
    assert_eq!(all_codes()[28], "hf_RSS3");
    assert_eq!(all()[0], ("hf_CL", "纽约原油"));
}
