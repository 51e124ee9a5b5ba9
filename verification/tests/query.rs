use stask::query::Filter;

// Tests the default filter.
// Given: no explicit filter choice
// When: the default is taken
// Then: it is All — the views start out showing every task
#[test]
fn default_filter_shows_everything() {
    assert_eq!(Filter::default(), Filter::All);
}
