use veridex_core::cdm::{ClockKind, Episode, Frame, Label, Modality, Stream, ValueRef};
use veridex_core::checks::signature::signature;

fn stream(name: &str) -> Stream {
    let mut s = Stream {
        name: name.to_string(),
        modality: Modality::ScalarState,
        declared_rate_hz: None,
        clock_id: "c".to_string(),
        clock_kind: ClockKind::Measured,
        dtype: None,
        shape: None,
        dim_names: None,
        frames: Vec::new(),
        stats: None,
        dim_stats: None,
        observed_stats: None,
        observed_dim_stats: None,
        observed_saturation: None,
        observed_non_finite: None,
        declared_range: None,
        latched: None,
        media: None,
        frame_id: None,
    };
    for i in 0..2u8 {
        let mut h = [0u8; 32];
        h[0] = i;
        s.frames.push(Frame {
            ts: i as i64,
            value_ref: ValueRef {
                uri: String::new(),
                byte_offset: None,
                byte_len: None,
                content_hash: Some(h),
            },
        });
    }
    s
}

fn ep(streams: Vec<Stream>) -> Episode {
    Episode {
        index: 0,
        start_ts: None,
        end_ts: None,
        streams,
        task: None,
        labels: Vec::new(),
        ego_poses: None,
        declared_frame_count: None,
        duration_ns: None,
    }
}

#[test]
fn no_two_different_episodes_share_a_signature() {
    let mut variants: Vec<(&str, Episode)> = Vec::new();

    variants.push(("name=ab clock=c", ep(vec![stream("ab")])));
    let mut shifted = stream("a");
    shifted.clock_id = "bc".to_string();
    variants.push(("name=a clock=bc", ep(vec![shifted])));

    for (key, value, label) in [("k", "xy", "label k=xy"), ("kx", "y", "label kx=y")] {
        let mut e = ep(vec![stream("ab")]);
        e.labels = vec![Label { key: key.to_string(), value: value.to_string(), ts: None }];
        variants.push((label, e));
    }

    for (shape, label) in [(vec![1u64, 2], "shape [1,2]"), (vec![12], "shape [12]")] {
        let mut s = stream("ab");
        s.shape = Some(shape);
        variants.push((label, ep(vec![s])));
    }

    let mut empty_dtype = stream("ab");
    empty_dtype.dtype = Some(String::new());
    variants.push(("dtype empty", ep(vec![empty_dtype])));

    variants.push(("two streams", ep(vec![stream("a"), stream("b")])));

    let mut seen: Vec<([u8; 32], &str)> = Vec::new();
    for (label, e) in &variants {
        let sig = match signature(e) {
            Some(s) => s,
            None => panic!("{label} must be fingerprintable"),
        };
        if let Some((_, other)) = seen.iter().find(|(s, _)| *s == sig) {
            panic!("`{label}` and `{other}` hash alike — a field boundary is ambiguous");
        }
        seen.push((sig, *label));
    }
}

#[test]
fn identical_content_shares_a_signature_whatever_the_episode_index() {
    let mut other = ep(vec![stream("ab")]);
    other.index = 7;
    assert_eq!(signature(&ep(vec![stream("ab")])), signature(&other));
    assert!(signature(&other).is_some());
}

#[test]
fn an_episode_with_an_unhashed_frame_has_no_signature() {
    let mut s = stream("ab");
    s.frames[1].value_ref.content_hash = None;
    assert_eq!(signature(&ep(vec![s])), None);
}

#[test]
fn the_order_of_labels_and_streams_does_not_show() {
    let label = |key: &str, value: &str| Label { key: key.to_string(), value: value.to_string(), ts: None };
    let mut a = ep(vec![stream("a"), stream("b")]);
    a.labels = vec![label("k", "1"), label("l", "2")];
    let mut b = ep(vec![stream("b"), stream("a")]);
    b.labels = vec![label("l", "2"), label("k", "1")];
    assert_eq!(signature(&a), signature(&b));
    assert!(signature(&a).is_some());
    b.labels.pop();
    assert_ne!(signature(&a), signature(&b));
}
