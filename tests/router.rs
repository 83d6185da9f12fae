use infer_server::multipart::{as_jpeg_stream_item, parse_stream_item};
use infer_server::router::{Delivery, PublishOutcome, Router, DEFAULT_IDLE_MS};

fn payloads(router: &mut Router, sub: &infer_server::router::Subscription) -> Vec<Vec<u8>> {
    let mut out = Vec::new();
    while let Some(item) = router.recv(sub) {
        out.push(parse_stream_item(&item).expect("framed part"));
    }
    out
}

#[test]
fn fanout_to_three_subscribers() {
    let mut router = Router::with_defaults();
    router.register_publisher("a", 0).unwrap();
    let s1 = router.subscribe_raw("a", 1);
    let s2 = router.subscribe_raw("a", 2);
    let s3 = router.subscribe_raw("a", 3);
    for b in 1u8..=5 {
        let out = router.publish("a", &[b], 10 + b as u64);
        assert_eq!(out.raw.delivered, 3);
        assert!(!out.inference_offered);
    }
    let expected: Vec<Vec<u8>> = (1u8..=5).map(|b| vec![b]).collect();
    assert_eq!(payloads(&mut router, &s1), expected);
    assert_eq!(payloads(&mut router, &s2), expected);
    assert_eq!(payloads(&mut router, &s3), expected);

    router.unsubscribe(&s2);
    let out = router.publish("a", &[6], 20);
    assert_eq!(out.raw, Delivery { delivered: 2, dropped_full: 0, evicted: 1 });
    assert_eq!(payloads(&mut router, &s1), vec![vec![6]]);
    assert_eq!(payloads(&mut router, &s3), vec![vec![6]]);
    assert_eq!(payloads(&mut router, &s2), Vec::<Vec<u8>>::new());
    assert_eq!(router.subscriber_counts("a"), (2, 0));
}

#[test]
fn items_are_wrapped_as_parts() {
    let mut router = Router::with_defaults();
    let s = router.subscribe_raw("cam", 0);
    router.publish("cam", &[0xff, 0xd8], 1);
    assert_eq!(router.recv(&s), Some(as_jpeg_stream_item(&[0xff, 0xd8])));
    assert_eq!(router.recv(&s), None);
}

#[test]
fn slow_subscriber_is_evicted() {
    let mut router = Router::new(4, 10);
    router.register_publisher("a", 0).unwrap();
    let slow = router.subscribe_raw("a", 0);
    for b in 1u8..=4 {
        let out = router.publish("a", &[b], b as u64);
        assert_eq!(out.raw, Delivery { delivered: 1, dropped_full: 0, evicted: 0 });
    }
    let out = router.publish("a", &[5], 5);
    assert_eq!(out.raw, Delivery { delivered: 0, dropped_full: 1, evicted: 1 });
    assert_eq!(router.subscriber_counts("a"), (0, 0));
    for b in 6u8..=9 {
        let out = router.publish("a", &[b], b as u64);
        assert_eq!(out.raw, Delivery { delivered: 0, dropped_full: 0, evicted: 0 });
    }
    let fresh = router.subscribe_raw("a", 9);
    router.publish("a", &[10], 10);
    assert_eq!(payloads(&mut router, &fresh), vec![vec![10]]);
    assert_eq!(router.recv(&slow), None);
}

#[test]
fn no_annotated_subscriber_means_no_inference() {
    let mut router = Router::with_defaults();
    router.register_publisher("a", 0).unwrap();
    let s = router.subscribe_raw("a", 0);
    for i in 0..1000u32 {
        let out = router.publish("a", &i.to_le_bytes(), i as u64);
        assert!(!out.inference_offered);
        assert!(!out.inference_enqueued);
        let item = router.recv(&s).unwrap();
        assert_eq!(parse_stream_item(&item), Some(i.to_le_bytes().to_vec()));
    }
    assert_eq!(router.pending_jobs(), 0);
    assert!(router.take_job().is_none());
}

#[test]
fn inference_queue_is_bounded_and_single_job() {
    let mut router = Router::new(20, 2);
    router.register_publisher("a", 0).unwrap();
    let annotated = router.subscribe_annotated("a", 0);
    let outs: Vec<PublishOutcome> = (0u8..4).map(|b| router.publish("a", &[b], b as u64)).collect();
    assert!(outs.iter().all(|o| o.inference_offered));
    assert_eq!(
        outs.iter().map(|o| o.inference_enqueued).collect::<Vec<_>>(),
        vec![true, true, false, false]
    );
    assert_eq!(router.pending_jobs(), 2);

    let job = router.take_job().unwrap();
    assert_eq!(job.jpeg, vec![0]);
    assert!(router.take_job().is_none());
    let d = router.complete_job(job.channel, Some(&[0xaa]));
    assert_eq!(d, Delivery { delivered: 1, dropped_full: 0, evicted: 0 });
    assert_eq!(payloads(&mut router, &annotated), vec![vec![0xaa]]);

    let job = router.take_job().unwrap();
    assert_eq!(job.jpeg, vec![1]);
    let d = router.complete_job(job.channel, None);
    assert_eq!(d, Delivery { delivered: 0, dropped_full: 0, evicted: 0 });
    assert!(router.take_job().is_none());
    assert_eq!(router.pending_jobs(), 0);
}

#[test]
fn closed_annotated_subscriber_stops_inference() {
    let mut router = Router::with_defaults();
    let annotated = router.subscribe_annotated("a", 0);
    assert!(router.publish("a", &[1], 1).inference_enqueued);
    router.unsubscribe(&annotated);
    let out = router.publish("a", &[2], 2);
    assert!(!out.inference_offered);
    assert_eq!(router.subscriber_counts("a"), (0, 0));
    assert_eq!(router.pending_jobs(), 1);
}

#[test]
fn publisher_conflict() {
    let mut router = Router::with_defaults();
    let id = router.register_publisher("cam", 0).unwrap();
    let s = router.subscribe_raw("cam", 0);
    let err = router.register_publisher("cam", 1).unwrap_err();
    assert_eq!(err.channel, id);
    assert!(router.has_publisher("cam"));
    router.publish("cam", &[7], 2);
    assert_eq!(payloads(&mut router, &s), vec![vec![7]]);
    router.release_publisher(id, 3);
    assert!(!router.has_publisher("cam"));
    assert!(router.register_publisher("cam", 4).is_ok());
}

#[test]
fn idle_channel_is_swept() {
    let mut router = Router::with_defaults();
    let s = router.subscribe_raw("old", 1000);
    router.unsubscribe(&s);
    assert_eq!(router.sweep(3000, DEFAULT_IDLE_MS), 0);
    assert!(router.has_channel("old"));
    assert_eq!(router.subscriber_counts("old"), (0, 0));
    assert_eq!(router.sweep(6001, DEFAULT_IDLE_MS), 1);
    assert!(!router.has_channel("old"));
    let fresh = router.subscribe_raw("old", 7000);
    assert!(router.has_channel("old"));
    assert_eq!(router.subscriber_counts("old"), (1, 0));
    assert_eq!(router.recv(&fresh), None);
}

#[test]
fn sweep_keeps_channels_in_use() {
    let mut router = Router::with_defaults();
    router.register_publisher("p", 0).unwrap();
    router.subscribe_raw("s", 0);
    router.subscribe_raw("gone", 0);
    let g = router.subscribe_raw("gone", 0);
    router.unsubscribe(&g);
    assert_eq!(router.sweep(100_000, DEFAULT_IDLE_MS), 0);
    assert_eq!(router.subscriber_counts("gone"), (1, 0));
    assert!(router.has_channel("p"));
    assert!(router.has_channel("s"));
}

#[test]
fn publish_to_unknown_channel_is_dropped() {
    let mut router = Router::with_defaults();
    let out = router.publish("nobody", &[1], 0);
    assert_eq!(out.raw, Delivery { delivered: 0, dropped_full: 0, evicted: 0 });
    assert!(!router.has_channel("nobody"));
}

#[test]
fn late_subscriber_gets_no_replay() {
    let mut router = Router::with_defaults();
    router.register_publisher("a", 0).unwrap();
    router.publish("a", &[1], 1);
    let s = router.subscribe_raw("a", 2);
    router.publish("a", &[2], 3);
    assert_eq!(payloads(&mut router, &s), vec![vec![2]]);
}

#[test]
fn sink_capacity_zero_refuses_everything() {
    let mut router = Router::new(0, 0);
    router.subscribe_raw("a", 0);
    router.subscribe_annotated("a", 0);
    let out = router.publish("a", &[1], 1);
    assert_eq!(out.raw, Delivery { delivered: 0, dropped_full: 1, evicted: 1 });
    assert!(out.inference_offered);
    assert!(!out.inference_enqueued);
}

#[test]
fn sink_presence_follows_eviction() {
    let mut router = Router::new(1, 1);
    let s = router.subscribe_raw("a", 0);
    assert!(router.sink_present(&s));
    router.publish("a", &[1], 1);
    assert!(router.sink_present(&s));
    router.publish("a", &[2], 2);
    assert!(!router.sink_present(&s));
    assert_eq!(payloads(&mut router, &s), Vec::<Vec<u8>>::new());
    let t = router.subscribe_annotated("a", 3);
    router.unsubscribe(&t);
    assert!(!router.sink_present(&t));
}

#[test]
fn publish_drops_an_abandoned_idle_channel() {
    let mut router = Router::with_defaults();
    let s = router.subscribe_raw("g", 0);
    router.unsubscribe(&s);
    let out = router.publish("g", &[1], 100);
    assert_eq!(out.raw, Delivery { delivered: 0, dropped_full: 0, evicted: 1 });
    assert!(router.has_channel("g"));
    let t = router.subscribe_raw("g", 200);
    router.unsubscribe(&t);
    router.publish("g", &[2], 1000);
    assert!(!router.has_channel("g"));
}
