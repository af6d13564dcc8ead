use sex_cli::tui::Tui;

#[test]
fn test_tui_dimensions() {
    let tui = Tui::new_with_size(80, 24);
    assert_eq!(tui.width(), 80);
    assert_eq!(tui.height(), 24);
}

#[test]
fn test_box_dimensions() {
    let tui = Tui::new_with_size(80, 24);
    tui.draw_box(0, 0, 10, 5).unwrap();
}

#[test]
fn test_box_smallest() {
    let tui = Tui::new_with_size(80, 24);
    tui.draw_box(3, 3, 1, 1).unwrap();
}
