use presentation::{parse, FrameInput, Presentation, SavedState, Slide, SlideMarker};

fn delimiter() -> String {
    format!("\n{}\n", "-".repeat(79))
}

fn two_slides() -> String {
    format!("# A{}# B", delimiter())
}

fn three_slides() -> String {
    format!("# A{d}# B{d}# C", d = delimiter())
}

fn no_input() -> FrameInput {
    FrameInput { next_pressed: false, prev_pressed: false, clicked: None, hovered: None }
}

#[test]
fn intro_slide_with_counter() {
    let slides = parse("# Intro\nhello\n!!!counter_example\n");
    assert_eq!(slides.len(), 1);
    assert_eq!(slides[0].title(), "Intro");
    assert_eq!(slides[0].markdown(), "# Intro\nhello");
    assert_eq!(slides[0].markers(), &vec![SlideMarker::CounterExample]);
}

#[test]
fn two_segments_and_advance() {
    let doc = two_slides();
    let slides = parse(&doc);
    assert_eq!(slides.len(), 2);
    assert_eq!(slides[0].title(), "A");
    assert_eq!(slides[1].title(), "B");
    let mut p = Presentation::from_document(&doc);
    assert_eq!(p.slide_nr(), 0);
    p.advance();
    assert_eq!(p.slide_nr(), 1);
    assert_eq!(p.slide(p.slide_nr()).title(), "B");
}

#[test]
fn unknown_token_is_kept() {
    let slide = Slide::new("# T\n!!!unknown_token");
    assert_eq!(slide.markers(), &vec![SlideMarker::UnknownMarker("unknown_token".to_string())]);
    assert_eq!(slide.markdown(), "# T");
    assert_eq!(slide.title(), "T");
}

#[test]
fn no_heading_gives_placeholder() {
    let slide = Slide::new("just some text\n## not level one");
    assert_eq!(slide.title(), "???");
    assert_eq!(slide.markdown(), "just some text\n## not level one");
}

#[test]
fn empty_document_has_one_slide() {
    let slides = parse("");
    assert_eq!(slides.len(), 1);
    assert_eq!(slides[0].title(), "???");
    assert_eq!(slides[0].markdown(), "");
    assert!(slides[0].markers().is_empty());
}

#[test]
fn hash_without_space_is_no_heading() {
    assert_eq!(Slide::new("#Title").title(), "???");
    assert_eq!(Slide::new("# ").title(), "???");
    assert_eq!(Slide::new("# \nbody").title(), "");
}

#[test]
fn title_is_trimmed_heading_line() {
    let slide = Slide::new("  \n#   Spaced title  \r\nbody\n");
    assert_eq!(slide.title(), "Spaced title");
    assert_eq!(slide.markdown(), "#   Spaced title  \nbody");
}

#[test]
fn body_is_trimmed() {
    let slide = Slide::new("\n\n  # X\nline\n\n\t ");
    assert_eq!(slide.markdown(), "# X\nline");
    assert_eq!(slide.title(), "X");
}

#[test]
fn markers_keep_source_order() {
    let slide = Slide::new("# M\n!!!toggle_widget\ntext\n!!!ui_example\n!!!counter_example\nmore");
    assert_eq!(
        slide.markers(),
        &vec![SlideMarker::ToggleWidget, SlideMarker::UiExample, SlideMarker::CounterExample]
    );
    assert_eq!(slide.markdown(), "# M\ntext\nmore");
}

#[test]
fn directive_token_is_trimmed() {
    let slide = Slide::new("# D\n!!!   toggle_widget  \n!!! odd one \r\nend");
    assert_eq!(
        slide.markers(),
        &vec![SlideMarker::ToggleWidget, SlideMarker::UnknownMarker("odd one".to_string())]
    );
    assert_eq!(slide.markdown(), "# D\nend");
}

#[test]
fn tokens_are_case_sensitive() {
    let slide = Slide::new("!!!Counter_Example\n!!!");
    assert_eq!(
        slide.markers(),
        &vec![
            SlideMarker::UnknownMarker("Counter_Example".to_string()),
            SlideMarker::UnknownMarker(String::new()),
        ]
    );
    assert_eq!(slide.markdown(), "");
    assert_eq!(slide.title(), "???");
}

#[test]
fn indented_directive_is_body_text() {
    let slide = Slide::new("# I\n  !!!counter_example");
    assert!(slide.markers().is_empty());
    assert_eq!(slide.markdown(), "# I\n  !!!counter_example");
}

#[test]
fn no_body_line_is_a_directive() {
    let doc = format!("# A\n!!!ui_example\nx\n!!!bad{}!!!toggle_widget\n# B\n!!!x", delimiter());
    for slide in parse(&doc) {
        for line in slide.markdown().split('\n') {
            assert!(!line.starts_with("!!!"));
        }
    }
}

#[test]
fn shorter_dash_line_does_not_split() {
    let doc = format!("# A\n{}\n# B", "-".repeat(78));
    let slides = parse(&doc);
    assert_eq!(slides.len(), 1);
    assert_eq!(slides[0].markdown(), format!("# A\n{}\n# B", "-".repeat(78)));
}

#[test]
fn delimiter_at_edges_gives_empty_slides() {
    let doc = format!("{d}# Mid{d}", d = delimiter());
    let slides = parse(&doc);
    assert_eq!(slides.len(), 3);
    assert_eq!(slides[0].title(), "???");
    assert_eq!(slides[1].title(), "Mid");
    assert_eq!(slides[2].markdown(), "");
}

#[test]
fn advance_wraps_and_retreat_wraps() {
    let mut p = Presentation::from_document(&three_slides());
    p.retreat();
    assert_eq!(p.slide_nr(), 2);
    p.advance();
    assert_eq!(p.slide_nr(), 0);
}

#[test]
fn advance_then_retreat_returns() {
    for start in 0..3usize {
        let mut p = Presentation::from_document(&three_slides());
        p.select(start);
        p.advance();
        p.retreat();
        assert_eq!(p.slide_nr(), start);
    }
    let mut single = Presentation::from_document("# Only");
    single.advance();
    assert_eq!(single.slide_nr(), 0);
    single.retreat();
    assert_eq!(single.slide_nr(), 0);
}

#[test]
fn save_then_restore_round_trip() {
    let doc = three_slides();
    let mut p = Presentation::from_document(&doc);
    p.advance();
    p.advance();
    p.increment_counter();
    p.flip_toggle();
    let saved = p.saved();
    assert_eq!(saved, SavedState { slide_nr: 2, counter: 1, some_bool: true });
    let q = Presentation::restore(&doc, saved);
    assert_eq!(q.saved(), saved);
    assert_eq!(q.len(), 3);
    assert_eq!(q.slide(2).title(), "C");
}

#[test]
fn restore_wraps_out_of_range_index() {
    let saved = SavedState { slide_nr: 5, counter: -4, some_bool: false };
    let p = Presentation::restore(&two_slides(), saved);
    assert_eq!(p.slide_nr(), 1);
    assert_eq!(p.counter(), -4);
}

#[test]
fn new_without_saved_state_is_fresh() {
    let p = Presentation::new(&two_slides(), None);
    assert_eq!(p.saved(), SavedState { slide_nr: 0, counter: 0, some_bool: false });
    let q = Presentation::new(&two_slides(), Some(SavedState { slide_nr: 1, counter: 3, some_bool: true }));
    assert_eq!(q.slide_nr(), 1);
    assert_eq!(q.counter(), 3);
    assert!(q.some_bool());
}

#[test]
fn frame_keys_move_then_click_selects() {
    let mut p = Presentation::from_document(&three_slides());
    let shown = p.ui(FrameInput { next_pressed: true, ..no_input() });
    assert_eq!((p.slide_nr(), shown), (1, 1));
    let shown = p.ui(FrameInput { next_pressed: true, prev_pressed: true, ..no_input() });
    assert_eq!((p.slide_nr(), shown), (1, 1));
    let shown = p.ui(FrameInput { clicked: Some(0), hovered: Some(0), ..no_input() });
    assert_eq!((p.slide_nr(), shown), (0, 0));
    let shown = p.ui(FrameInput { clicked: Some(9), ..no_input() });
    assert_eq!((p.slide_nr(), shown), (0, 0));
}

#[test]
fn hover_previews_without_committing() {
    let mut p = Presentation::from_document(&three_slides());
    let shown = p.ui(FrameInput { hovered: Some(2), ..no_input() });
    assert_eq!(shown, 2);
    assert_eq!(p.slide_nr(), 0);
    assert_eq!(p.preview_index(Some(7)), 0);
    assert_eq!(p.preview_index(None), 0);
    assert_eq!(p.preview_index(Some(1)), 1);
}

#[test]
fn counter_steps_and_saturates() {
    let mut p = Presentation::restore("# C", SavedState { slide_nr: 0, counter: i32::MAX, some_bool: false });
    p.increment_counter();
    assert_eq!(p.counter(), i32::MAX);
    p.decrement_counter();
    assert_eq!(p.counter(), i32::MAX - 1);
    let mut q = Presentation::restore("# C", SavedState { slide_nr: 0, counter: i32::MIN, some_bool: true });
    q.decrement_counter();
    assert_eq!(q.counter(), i32::MIN);
    q.flip_toggle();
    assert!(!q.some_bool());
}

#[test]
fn marker_tags_from_tokens() {
    assert_eq!(SlideMarker::from_token("counter_example".to_string()), SlideMarker::CounterExample);
    assert_eq!(SlideMarker::from_token("ui_example".to_string()), SlideMarker::UiExample);
    assert_eq!(SlideMarker::from_token("toggle_widget".to_string()), SlideMarker::ToggleWidget);
    assert_eq!(
        SlideMarker::from_token("toggle".to_string()),
        SlideMarker::UnknownMarker("toggle".to_string())
    );
}

#[test]
fn unicode_text_survives() {
    let slide = Slide::new("# Größe ✓\nnaïve\n!!!ui_example\u{00A0}");
    assert_eq!(slide.title(), "Größe ✓");
    assert_eq!(slide.markdown(), "# Größe ✓\nnaïve");
    assert_eq!(slide.markers(), &vec![SlideMarker::UiExample]);
}
