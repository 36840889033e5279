use shades::channel::{DistributionChannel, SendOutcome};
use shades::record::Screenshot;

fn frame_of(byte: u8) -> Screenshot {
    Screenshot { width: 1, height: 1, data: vec![byte; 4] }
}

#[test]
fn channel_starts_empty_and_open() {
    let mut chan = DistributionChannel::new();
    assert!(chan.try_recv().is_none());
}

#[test]
fn channel_delivers_one_frame() {
    let mut chan = DistributionChannel::new();
    assert!(matches!(chan.send(frame_of(7)), SendOutcome::Delivered));
    let got = chan.try_recv().expect("a frame is pending");
    assert_eq!(got.data, vec![7u8; 4]);
    assert!(chan.try_recv().is_none());
}

#[test]
fn channel_send_while_full_replaces() {
    let mut chan = DistributionChannel::new();
    assert!(matches!(chan.send(frame_of(1)), SendOutcome::Delivered));
    // The slot already holds a pending frame: the new one wins, the
    // old one is dropped, nothing queues.
    assert!(matches!(chan.send(frame_of(2)), SendOutcome::Replaced));
    assert!(matches!(chan.send(frame_of(3)), SendOutcome::Replaced));
    let got = chan.try_recv().expect("latest frame is pending");
    assert_eq!(got.data, vec![3u8; 4]);
    // At most one frame was held: nothing else comes out.
    assert!(chan.try_recv().is_none());
}

#[test]
fn channel_send_after_close_is_refused() {
    let mut chan = DistributionChannel::new();
    assert!(matches!(chan.send(frame_of(1)), SendOutcome::Delivered));
    chan.close();
    // Closing drops the pending frame and refuses later sends; the
    // producer sees the closure as a normal termination signal.
    assert!(matches!(chan.send(frame_of(2)), SendOutcome::Closed));
    assert!(chan.try_recv().is_none());
}
