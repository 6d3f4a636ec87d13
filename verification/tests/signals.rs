use multip::signal::decode_signal;
use multip::signal::sig_number;
use multip::signal::Sig;
use multip::waitpid::iter_dead_children;
use multip::waitpid::normalize_wait;
use multip::waitpid::WaitOutcome;

#[test]
fn decode_known_signals() {
    assert_eq!(decode_signal(2), Some(Sig::Int));
    assert_eq!(decode_signal(3), Some(Sig::Quit));
    assert_eq!(decode_signal(9), Some(Sig::Kill));
    assert_eq!(decode_signal(15), Some(Sig::Term));
    assert_eq!(decode_signal(17), Some(Sig::Chld));
}

#[test]
fn decode_drops_unknown_values() {
    assert_eq!(decode_signal(0), None);
    assert_eq!(decode_signal(1), None);
    assert_eq!(decode_signal(-7), None);
    assert_eq!(decode_signal(64), None);
}

#[test]
fn signal_numbers_round_trip() {
    for sig in [Sig::Int, Sig::Term, Sig::Quit, Sig::Chld, Sig::Kill] {
        assert_eq!(decode_signal(sig_number(sig)), Some(sig));
    }
}

#[test]
fn normalize_keeps_exit_codes() {
    assert_eq!(normalize_wait(WaitOutcome::Exited(7, 3)), Some((7, 3)));
    assert_eq!(normalize_wait(WaitOutcome::Exited(8, 0)), Some((8, 0)));
}

#[test]
fn normalize_maps_signal_deaths_to_zero() {
    assert_eq!(normalize_wait(WaitOutcome::Signaled(7, 9)), Some((7, 0)));
}

#[test]
fn normalize_drops_non_exits() {
    assert_eq!(normalize_wait(WaitOutcome::StillAlive), None);
    assert_eq!(normalize_wait(WaitOutcome::NoChildren), None);
    assert_eq!(normalize_wait(WaitOutcome::Other), None);
    assert_eq!(normalize_wait(WaitOutcome::Failed), None);
}

#[test]
fn no_children_means_nothing_to_reap() {
    let mut waiter = iter_dead_children();
    assert_eq!(waiter.next(), None);
}
