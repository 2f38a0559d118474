use azdice::flow::{initial_controls, reps_from_text, step, wants_reply, Action, Controls, REPS_DEFAULT};

#[test]
fn reps_box() {
    assert_eq!(reps_from_text("500"), 500);
    assert_eq!(reps_from_text("Input repeats"), REPS_DEFAULT);
    assert_eq!(reps_from_text("-3"), REPS_DEFAULT);
}

#[test]
fn a_roll_is_sent_once_and_answered() {
    let mut c = initial_controls();
    assert_eq!(step(c, None), (c, Action::Nothing));
    c.submitted = true;
    let (c1, a1) = step(c, None);
    assert_eq!(a1, Action::SendRoll);
    assert!(c1.calculating);
    assert!(wants_reply(c1));
    let (c2, a2) = step(c1, None);
    assert_eq!((c2, a2), (c1, Action::Nothing));
    let (c3, a3) = step(c2, Some(true));
    assert_eq!(a3, Action::AddTable);
    assert_eq!(c3, Controls { submitted: false, calculating: false, miscalculation: false });
}

#[test]
fn a_failed_roll_raises_the_notice() {
    let c = Controls { submitted: true, calculating: false, miscalculation: false };
    let (c1, _) = step(c, None);
    let (c2, a2) = step(c1, Some(false));
    assert_eq!(a2, Action::Nothing);
    assert!(c2.miscalculation);
    assert!(!c2.calculating);
}
