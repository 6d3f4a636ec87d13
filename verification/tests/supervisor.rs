use multip::child::ChildEntry;
use multip::line_reader::Line;
use multip::signal::Sig;
use multip::supervisor::Supervisor;

fn two_children() -> Supervisor {
    Supervisor::new(vec![
        ChildEntry::new("foo".to_string(), 101),
        ChildEntry::new("bar".to_string(), 102),
    ])
}

#[test]
fn interrupt_escalation_tiers() {
    let mut sup = two_children();
    assert_eq!(sup.handle_signal(Sig::Int), Some(Sig::Int));
    assert_eq!(sup.handle_signal(Sig::Int), Some(Sig::Term));
    assert_eq!(sup.handle_signal(Sig::Int), Some(Sig::Kill));
    assert_eq!(sup.handle_signal(Sig::Int), Some(Sig::Kill));
}

#[test]
fn non_interrupt_signals_relay_unchanged() {
    let mut sup = two_children();
    assert_eq!(sup.handle_signal(Sig::Term), Some(Sig::Term));
    assert_eq!(sup.handle_signal(Sig::Quit), Some(Sig::Quit));
    assert_eq!(sup.handle_signal(Sig::Kill), Some(Sig::Kill));
}

#[test]
fn child_status_signal_forwards_nothing() {
    let mut sup = two_children();
    assert_eq!(sup.handle_signal(Sig::Chld), None);
}

#[test]
fn first_dead_child_exit_code_wins() {
    let mut sup = two_children();
    assert!(sup.note_reap(101, 11));
    assert!(sup.note_reap(102, 22));
    assert_eq!(sup.exit_code(), 11);
}

#[test]
fn first_dead_child_zero_exit_code_wins() {
    let mut sup = two_children();
    assert!(sup.note_reap(101, 0));
    assert!(sup.note_reap(102, 22));
    assert_eq!(sup.exit_code(), 0);
}

#[test]
fn exit_code_is_zero_without_deaths() {
    let sup = two_children();
    assert_eq!(sup.exit_code(), 0);
}

#[test]
fn orphan_reap_leaves_children_alone() {
    let mut sup = two_children();
    assert!(!sup.note_reap(4242, 12));
    assert!(!sup.all_reaped());
    assert_eq!(sup.exit_code(), 0);
    assert_eq!(sup.killall, None);
    assert!(sup.children[0].is_alive());
    assert!(sup.children[1].is_alive());
}

#[test]
fn first_death_arms_group_kill() {
    let mut sup = two_children();
    assert_eq!(sup.killall, None);
    sup.note_reap(102, 3);
    assert_eq!(sup.killall, Some(Sig::Term));
    sup.note_reap(101, 4);
    assert_eq!(sup.killall, Some(Sig::Term));
}

#[test]
fn all_reaped_after_both_children() {
    let mut sup = two_children();
    assert!(!sup.all_reaped());
    sup.note_reap(101, 0);
    assert!(!sup.all_reaped());
    assert!(!sup.children[0].is_alive());
    assert!(sup.children[1].is_alive());
    sup.note_reap(102, 0);
    assert!(sup.all_reaped());
}

#[test]
fn eof_record_closes_one_stream() {
    let mut sup = two_children();
    let eof = Line::EOF(String::new());
    assert_eq!(sup.children[0].streams_open, 2);
    sup.note_line(&"foo".to_string(), &eof);
    assert_eq!(sup.children[0].streams_open, 1);
    sup.note_line(&"foo".to_string(), &eof);
    assert_eq!(sup.children[0].streams_open, 0);
    sup.note_line(&"foo".to_string(), &eof);
    assert_eq!(sup.children[0].streams_open, 0);
    assert_eq!(sup.children[1].streams_open, 2);
}

#[test]
fn ordinary_records_close_no_stream() {
    let mut sup = two_children();
    let full = Line::FullLine("x\n".to_string());
    let partial = Line::PartialLine("y".to_string());
    sup.note_line(&"bar".to_string(), &full);
    sup.note_line(&"bar".to_string(), &partial);
    assert_eq!(sup.children[1].streams_open, 2);
}

#[test]
fn colliding_names_close_the_first_match() {
    let mut sup = Supervisor::new(vec![
        ChildEntry::new("dup".to_string(), 201),
        ChildEntry::new("dup".to_string(), 202),
    ]);
    let eof = Line::EOF(String::new());
    sup.note_line(&"dup".to_string(), &eof);
    assert_eq!(sup.children[0].streams_open, 1);
    assert_eq!(sup.children[1].streams_open, 2);
}

#[test]
fn kill_records_the_strongest_signal_sent() {
    // Deliveries go to this test process itself; a child-status signal is
    // ignored by default, so a delivery that does happen is harmless.
    let me = nix::unistd::getpid().as_raw();
    let mut child = ChildEntry::new("own".to_string(), me);
    assert_eq!(child.kill_sent, None);
    child.kill(Sig::Chld);
    assert_eq!(child.kill_sent, Some(Sig::Chld));
    child.kill(Sig::Chld);
    assert_eq!(child.kill_sent, Some(Sig::Chld));
    child.reaped = true;
    child.kill(Sig::Term);
    assert_eq!(child.kill_sent, Some(Sig::Chld));
}

#[test]
fn deliver_applies_gating_to_every_child() {
    let me = nix::unistd::getpid().as_raw();
    let mut sup = Supervisor::new(vec![
        ChildEntry::new("a".to_string(), me),
        ChildEntry::new("b".to_string(), me),
    ]);
    sup.deliver_signals(Some(Sig::Chld));
    assert_eq!(sup.children[0].kill_sent, Some(Sig::Chld));
    assert_eq!(sup.children[1].kill_sent, Some(Sig::Chld));
    sup.deliver_signals(None);
    assert_eq!(sup.children[0].kill_sent, Some(Sig::Chld));
    assert_eq!(sup.children[1].kill_sent, Some(Sig::Chld));
}
