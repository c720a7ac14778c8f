use manifold::ui::index_html;

const PAGE: &str = "<html><head><title>x</title></head><body></body></html>";

#[test]
fn base_href_goes_right_after_head() {
    assert_eq!(
        index_html(PAGE, "/groundwork"),
        "<html><head>\n  <base href=\"/groundwork/\"><title>x</title></head><body></body></html>"
    );
}

#[test]
fn prefix_is_trimmed_of_spaces_and_trailing_slashes() {
    assert_eq!(
        index_html(PAGE, "  /lobby// "),
        "<html><head>\n  <base href=\"/lobby/\"><title>x</title></head><body></body></html>"
    );
}

#[test]
fn empty_prefix_or_missing_head_leaves_the_page_alone() {
    assert_eq!(index_html(PAGE, ""), PAGE);
    assert_eq!(index_html(PAGE, "/"), PAGE);
    assert_eq!(index_html("<html><body></body></html>", "/g"), "<html><body></body></html>");
}

#[test]
fn only_the_first_head_gets_the_base() {
    assert_eq!(index_html("<head><head>", "/a"), "<head>\n  <base href=\"/a/\"><head>");
}
