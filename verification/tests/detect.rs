use shades::channel::DistributionChannel;
use shades::detect::{pump_frame, ChangeDetector, PumpOutcome};
use shades::record::Screenshot;

fn frame_of(bytes: &[u8]) -> Screenshot {
    Screenshot { width: 1, height: 1, data: bytes.to_vec() }
}

#[test]
fn detector_signals_first_frame() {
    let mut det = ChangeDetector::new();
    assert!(det.offer(&vec![1, 2, 3, 4]));
}

#[test]
fn detector_suppresses_identical_consecutive_frames() {
    let mut det = ChangeDetector::new();
    assert!(det.offer(&vec![1, 2, 3, 4]));
    // Same bytes again: no second redraw signal.
    assert!(!det.offer(&vec![1, 2, 3, 4]));
    assert!(!det.offer(&vec![1, 2, 3, 4]));
}

#[test]
fn detector_signals_any_single_byte_change() {
    let mut det = ChangeDetector::new();
    assert!(det.offer(&vec![1, 2, 3, 4]));
    assert!(det.offer(&vec![1, 2, 3, 5]));
    assert!(det.offer(&vec![1, 2, 3, 4]));
    assert!(det.offer(&vec![1, 2, 3]));
}

#[test]
fn pump_publishes_only_changes() {
    let mut det = ChangeDetector::new();
    let mut chan = DistributionChannel::new();
    assert!(matches!(
        pump_frame(&mut det, &mut chan, frame_of(&[1, 2, 3, 4])),
        PumpOutcome::Published
    ));
    let got = chan.try_recv().expect("published frame is pending");
    assert_eq!(got.data, vec![1, 2, 3, 4]);
    // Static screen: nothing is sent and no redraw is requested.
    assert!(matches!(
        pump_frame(&mut det, &mut chan, frame_of(&[1, 2, 3, 4])),
        PumpOutcome::Unchanged
    ));
    assert!(chan.try_recv().is_none());
}

#[test]
fn pump_latest_change_wins() {
    let mut det = ChangeDetector::new();
    let mut chan = DistributionChannel::new();
    pump_frame(&mut det, &mut chan, frame_of(&[1, 1, 1, 1]));
    pump_frame(&mut det, &mut chan, frame_of(&[2, 2, 2, 2]));
    let got = chan.try_recv().expect("a frame is pending");
    assert_eq!(got.data, vec![2, 2, 2, 2]);
}

#[test]
fn pump_observes_closed_channel_and_stops() {
    let mut det = ChangeDetector::new();
    let mut chan = DistributionChannel::new();
    chan.close();
    // A changed frame against a closed channel: the producer task's
    // termination signal, not an error.
    assert!(matches!(
        pump_frame(&mut det, &mut chan, frame_of(&[1, 2, 3, 4])),
        PumpOutcome::ChannelClosed
    ));
    assert!(chan.try_recv().is_none());
}
