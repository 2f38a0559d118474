use azdice::panel::{initial_panel, panel_step, PanelAction, PanelEvent};

#[test]
fn help_hides_the_other_widgets() {
    let p = initial_panel();
    assert!(!p.help);
    assert_eq!(p.reps, 20000);
    let (p, _) = panel_step(p, PanelEvent::HelpPressed);
    assert!(p.help);
    let (p, _) = panel_step(p, PanelEvent::RollEntered);
    assert!(!p.submitted);
    let (p, _) = panel_step(p, PanelEvent::HelpClicked);
    assert!(!p.help);
    let (p, _) = panel_step(p, PanelEvent::RollEntered);
    assert!(p.submitted);
}

#[test]
fn repeats_box_reads_the_rolls() {
    let (p, _) = panel_step(initial_panel(), PanelEvent::RepsEntered("500".to_string()));
    assert_eq!(p.reps, 500);
    let (p, _) = panel_step(p, PanelEvent::RepsEntered("many".to_string()));
    assert_eq!(p.reps, 20000);
}

#[test]
fn deleting_removes_the_shown_table() {
    let mut p = initial_panel();
    for _ in 0..3 {
        p = panel_step(p, PanelEvent::TableAdded).0;
    }
    assert_eq!(p.tables, 3);
    let (p, _) = panel_step(p, PanelEvent::Select(5, true));
    assert_eq!(p.active, None);
    let (p, _) = panel_step(p, PanelEvent::Select(1, true));
    assert_eq!(p.active, Some(1));
    let (p, a) = panel_step(p, PanelEvent::DeleteActive);
    assert!(matches!(a, PanelAction::Remove(1)));
    assert_eq!(p.tables, 2);
    assert_eq!(p.active, None);
    let (p, a) = panel_step(p, PanelEvent::DeleteActive);
    assert!(matches!(a, PanelAction::Nothing));
    assert_eq!(p.tables, 2);
    let (p, _) = panel_step(p, PanelEvent::Select(0, false));
    assert_eq!(p.active, None);
}

#[test]
fn notice_is_dismissed_by_a_click() {
    let mut p = initial_panel();
    p.miscalculation = true;
    let (p, _) = panel_step(p, PanelEvent::NoticeClicked);
    assert!(!p.miscalculation);
}
