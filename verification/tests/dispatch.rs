use core::ops::Range;

use fixbolt_engine::backpressure::{Backpressure, SLOW_APPLICATION, SLOW_CONSUMER};
use fixbolt_engine::dispatch::{Dispatch, Handler, InlineDispatch};

struct Echo {
    seen: Vec<(u32, Vec<u8>)>,
}

impl Handler for Echo {
    fn on_message(
        &mut self,
        msg: &[u8],
        seq: u32,
        _stamp: &[u8],
        out: &mut [u8],
    ) -> Option<Range<usize>> {
        self.seen.push((seq, msg.to_vec()));
        out[..msg.len()].copy_from_slice(msg);
        Some(0..msg.len())
    }
}

#[test]
fn an_inline_dispatch_answers_within_the_call() {
    let mut d = InlineDispatch::new(Echo { seen: Vec::new() });
    assert!(!d.out_of_band());
    let mut out = [0u8; 16];
    let r = d.deliver(7, b"ping", 3, b"stamp", &mut out);
    assert_eq!(r, Some(0..4));
    assert_eq!(&out[..4], b"ping");
    let mut called = false;
    d.collect(|_, _| called = true);
    assert!(!called, "nothing comes back out of band");
    assert!(!d.take_refusal());
    assert_eq!(d.handler_mut().seen, vec![(3, b"ping".to_vec())]);
}

#[test]
fn a_queue_policy_bounds_below_the_buffer_and_only_block_blocks() {
    assert_eq!(Backpressure::Disconnect.bound(8192), 8192);
    assert_eq!(Backpressure::Block.bound(8192), 8192);
    assert_eq!(Backpressure::Queue { max_bytes: 100 }.bound(8192), 100);
    assert_eq!(Backpressure::Queue { max_bytes: 10_000 }.bound(8192), 8192);
    assert!(Backpressure::Block.blocks());
    assert!(!Backpressure::Disconnect.blocks());
    assert_eq!(Backpressure::default(), Backpressure::Disconnect);
    assert_eq!(SLOW_CONSUMER, "slow consumer");
    assert_eq!(SLOW_APPLICATION, "slow application");
}
