use sex_cli::issue_viewer::{u32_to_string, Issue, IssueViewer};
use sex_cli::tui::Tui;

fn create_test_issue() -> Issue {
    Issue {
        id: "test-id".to_string(),
        title: "Test Issue".to_string(),
        status: "unresolved".to_string(),
        level: "error".to_string(),
        culprit: "test.js:42".to_string(),
        last_seen: "2024-01-01".to_string(),
        events: 1,
        users: 1,
    }
}

#[test]
fn test_scroll_up_down() {
    let issue = create_test_issue();
    let tui = Tui::new_with_size(80, 24);
    let mut viewer = IssueViewer::new_with_tui(issue, tui);

    assert_eq!(viewer.scroll_offset(), 0);

    viewer.scroll_down();
    assert_eq!(viewer.scroll_offset(), 1);

    viewer.scroll_down();
    assert_eq!(viewer.scroll_offset(), 2);

    viewer.scroll_up();
    assert_eq!(viewer.scroll_offset(), 1);

    viewer.scroll_up();
    assert_eq!(viewer.scroll_offset(), 0);

    viewer.scroll_up();
    assert_eq!(viewer.scroll_offset(), 0);
}

#[test]
fn test_render() {
    let issue = create_test_issue();
    let tui = Tui::new_with_size(80, 24);
    let viewer = IssueViewer::new_with_tui(issue, tui);

    viewer.render().unwrap();
}

#[test]
fn test_u32_to_string_exact() {
    assert_eq!(u32_to_string(0), "0");
    assert_eq!(u32_to_string(7), "7");
    assert_eq!(u32_to_string(42), "42");
    assert_eq!(u32_to_string(1000), "1000");
    assert_eq!(u32_to_string(4294967295), "4294967295");
}
