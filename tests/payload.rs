use sse_bench::payload::{elements_payload, fragment_event_data, ELEMENTS_PREFIX, MERGE_FRAGMENTS_EVENT};

#[test]
fn single_line_fragment_gets_one_tagged_line() {
    assert_eq!(fragment_event_data("<div>hi</div>"), "elements <div>hi</div>\n");
}

#[test]
fn each_line_is_tagged_in_order() {
    let html = "<div id=\"a\">\n  <p>one</p>\n  <p>two</p>\n</div>";
    assert_eq!(
        fragment_event_data(html),
        "elements <div id=\"a\">\nelements   <p>one</p>\nelements   <p>two</p>\nelements </div>\n"
    );
}

#[test]
fn trailing_line_feed_adds_no_line() {
    assert_eq!(elements_payload("<p>x</p>\n"), "elements <p>x</p>\n");
    assert_eq!(elements_payload("a\nb\n"), "elements a\nelements b\n");
}

#[test]
fn empty_fragment_gives_empty_payload() {
    assert_eq!(elements_payload(""), "");
    assert_eq!(fragment_event_data(""), "");
}

#[test]
fn empty_lines_are_kept() {
    assert_eq!(elements_payload("a\n\nb"), "elements a\nelements \nelements b\n");
    assert_eq!(elements_payload("\n"), "elements \n");
}

#[test]
fn carriage_return_before_line_feed_is_dropped() {
    assert_eq!(elements_payload("a\r\nb\r\n"), "elements a\nelements b\n");
    assert_eq!(elements_payload("a\r\n\r\nb"), "elements a\nelements \nelements b\n");
}

#[test]
fn lone_carriage_return_stays_in_the_line() {
    assert_eq!(elements_payload("a\rb"), "elements a\rb\n");
    assert_eq!(elements_payload("a\r"), "elements a\r\n");
}

#[test]
fn non_ascii_text_is_kept() {
    assert_eq!(elements_payload("<p>héllo ✓</p>\n<p>日本</p>"), "elements <p>héllo ✓</p>\nelements <p>日本</p>\n");
}

#[test]
fn payload_has_one_prefixed_line_per_fragment_line() {
    let html = "<ul>\r\n<li>1</li>\n\n<li>2</li>\n</ul>\n";
    let payload = fragment_event_data(html);
    let original: Vec<&str> = html.lines().collect();
    let tagged: Vec<&str> = payload.lines().collect();
    assert_eq!(tagged.len(), original.len());
    for (t, o) in tagged.iter().zip(original.iter()) {
        assert_eq!(*t, format!("{}{}", ELEMENTS_PREFIX, o));
    }
}

#[test]
fn event_data_differs_from_fragment() {
    let html = "<span>x</span>";
    let payload = fragment_event_data(html);
    assert_ne!(payload, html);
    assert!(payload.ends_with("<span>x</span>\n"));
}

#[test]
fn event_name_and_prefix() {
    assert_eq!(MERGE_FRAGMENTS_EVENT, "datastar-merge-fragments");
    assert_eq!(ELEMENTS_PREFIX, "elements ");
}
