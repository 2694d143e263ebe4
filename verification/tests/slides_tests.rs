use leo_viz::slides::{deck, slide_uri, spacecomp_primer, total_slide_count, DeckId, SlideDeck, SPACECOMP_PRIMER_SLIDE_COUNT};

#[test]
fn slide_uri_pads_to_two_digits() {
    assert_eq!(slide_uri("base", 0), "base/01.svg");
    assert_eq!(slide_uri("base", 8), "base/09.svg");
    assert_eq!(slide_uri("base", 9), "base/10.svg");
    assert_eq!(slide_uri("file:///x/assets", 75), "file:///x/assets/76.svg");
}

#[test]
fn slide_uri_three_digits() {
    assert_eq!(slide_uri("base", 99), "base/100.svg");
    assert_eq!(slide_uri("", 1233), "/1234.svg");
}

#[test]
fn primer_deck_name_and_size() {
    assert_eq!(spacecomp_primer(), DeckId("spacecomp-primer"));
    assert_eq!(SPACECOMP_PRIMER_SLIDE_COUNT, 76);
    assert_eq!(total_slide_count(), 76);
}

#[test]
fn new_deck_covers_all_slides() {
    let d = SlideDeck::new(spacecomp_primer());
    assert_eq!(d.range, 0..76);
    assert_eq!(d.current, 0);
    assert_eq!(d.len(), 76);
    assert_eq!(d.id, DeckId("spacecomp-primer"));
}

#[test]
fn range_is_clamped_to_deck() {
    let d = SlideDeck::range(spacecomp_primer(), 70..100);
    assert_eq!(d.range, 70..76);
    assert_eq!(d.len(), 6);
    let e = SlideDeck::range(spacecomp_primer(), 80..90);
    assert_eq!(e.range, 76..76);
    assert_eq!(e.len(), 0);
}

#[test]
fn reversed_range_is_empty() {
    let d = SlideDeck::range(spacecomp_primer(), 10..5);
    assert_eq!(d.range, 10..10);
    assert_eq!(d.len(), 0);
}

#[test]
fn deck_uri_is_relative_to_range() {
    let d = SlideDeck::range(spacecomp_primer(), 70..76);
    assert_eq!(d.uri("b", 2), "b/73.svg");
    let whole = SlideDeck::new(spacecomp_primer());
    assert_eq!(whole.uri("b", 0), "b/01.svg");
}

#[test]
fn deck_clone_is_equal() {
    let d = SlideDeck::range(spacecomp_primer(), 3..9);
    let c = d.clone();
    assert_eq!(c.range, d.range);
    assert_eq!(c.id, d.id);
    assert_eq!(c.current, d.current);
}

#[test]
fn deck_lookup_by_name() {
    let info = deck(DeckId("spacecomp-primer")).expect("known deck");
    assert_eq!(info.id, spacecomp_primer());
    assert_eq!(info.count, 76);
    assert!(deck(DeckId("no-such-deck")).is_none());
    assert!(deck(DeckId("")).is_none());
}

#[test]
fn deck_base_uri_under_working_directory() {
    use_deck_base_uri();
}

fn use_deck_base_uri() {
    let id = spacecomp_primer();
    assert_eq!(
        leo_viz::slides::deck_base_uri(Some("/work"), id),
        "file:///work/assets/presentations/spacecomp-primer"
    );
    assert_eq!(
        leo_viz::slides::deck_base_uri(Some("/work/"), id),
        "file:///work/assets/presentations/spacecomp-primer"
    );
    assert_eq!(leo_viz::slides::deck_base_uri(None, id), "file://./assets/presentations/spacecomp-primer");
    assert_eq!(
        slide_uri(&leo_viz::slides::deck_base_uri(Some("/w"), id), 0),
        "file:///w/assets/presentations/spacecomp-primer/01.svg"
    );
}

#[test]
fn deck_base_uri_under_drive_letter_directory() {
    assert_eq!(
        leo_viz::slides::deck_base_uri(Some("C:\\work"), spacecomp_primer()),
        "file://C:\\work/assets/presentations/spacecomp-primer"
    );
}
