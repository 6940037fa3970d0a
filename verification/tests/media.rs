use veridex_core::media::matroska;
use veridex_core::media::{probe_moov, probe_mp4, FrameRate, Mp4Probe, Scan, Step};

fn refused(bytes: &[u8]) -> String {
    match probe_mp4(bytes) {
        Ok(_) => panic!("the file must be refused"),
        Err(e) => e,
    }
}

#[test]
fn a_non_container_is_rejected_by_name() {
    let err = refused(b"\xff\xff\xff\xffftyp");
    assert!(err.contains("only"), "{err}");
    assert_eq!(err, "box 'ftyp' at offset 0 declares 4294967295 bytes but only 8 remain");
}

#[test]
fn an_empty_file_is_rejected_as_not_a_container() {
    let err = refused(b"");
    assert!(err.contains("no ISO base media boxes"), "{err}");
}

#[test]
fn a_box_smaller_than_its_header_does_not_loop() {
    let err = refused(b"\x00\x00\x00\x04ftyp____");
    assert!(err.contains("smaller than its own header"), "{err}");
}

#[test]
fn an_oversized_moov_is_refused_rather_than_allocated() {
    let mut bytes = vec![0u8; 16];
    bytes[0..4].copy_from_slice(&1u32.to_be_bytes());
    bytes[4..8].copy_from_slice(b"moov");
    bytes[8..16].copy_from_slice(&(4u64 * 1024 * 1024 * 1024).to_be_bytes());
    let err = refused(&bytes);
    assert!(err.contains("ceiling") || err.contains("remain"), "{err}");
}

#[test]
fn a_moov_over_the_ceiling_is_named_before_it_is_read() {
    let mut head = vec![0u8; 16];
    head[0..4].copy_from_slice(&1u32.to_be_bytes());
    head[4..8].copy_from_slice(b"moov");
    head[8..16].copy_from_slice(&(67_108_864u64 + 17).to_be_bytes());
    let mut scan = Scan::new();
    match scan.step(&head, 1 << 40) {
        Step::Refuse(m) => assert_eq!(m, "moov box declares 67108865 bytes, over the 67108864-byte ceiling"),
        other => panic!("unexpected step {other:?}"),
    }
    head[8..16].copy_from_slice(&(67_108_864u64 + 16).to_be_bytes());
    match scan.step(&head, 1 << 40) {
        Step::Moov(offset, len) => assert_eq!((offset, len), (16, 67_108_864)),
        other => panic!("unexpected step {other:?}"),
    }
}

fn boxed(kind: &[u8; 4], payload: &[u8]) -> Vec<u8> {
    let mut out = ((payload.len() + 8) as u32).to_be_bytes().to_vec();
    out.extend_from_slice(kind);
    out.extend_from_slice(payload);
    out
}

fn joined(parts: &[Vec<u8>]) -> Vec<u8> {
    parts.concat()
}

fn handler(kind: &[u8; 4]) -> Vec<u8> {
    let mut p = vec![0u8; 8];
    p.extend_from_slice(kind);
    boxed(b"hdlr", &p)
}

fn header(timescale: u32, duration: u32) -> Vec<u8> {
    let mut p = vec![0u8; 12];
    p.extend_from_slice(&timescale.to_be_bytes());
    p.extend_from_slice(&duration.to_be_bytes());
    boxed(b"mdhd", &p)
}

fn table(kind: &[u8; 4], count: u32) -> Vec<u8> {
    let mut p = vec![0u8; 8];
    p.extend_from_slice(&count.to_be_bytes());
    boxed(kind, &p)
}

fn description(codec: &[u8; 4], width: u16, height: u16) -> Vec<u8> {
    let mut e = vec![0u8; 24];
    e.extend_from_slice(&width.to_be_bytes());
    e.extend_from_slice(&height.to_be_bytes());
    let mut p = vec![0u8; 8];
    p.extend_from_slice(&boxed(codec, &e));
    boxed(b"stsd", &p)
}

fn track(kind: &[u8; 4], time: Vec<u8>, sizes: Vec<u8>) -> Vec<u8> {
    let stbl = boxed(b"stbl", &joined(&[description(b"avc1", 640, 480), sizes]));
    let minf = boxed(b"minf", &stbl);
    let mdia = boxed(b"mdia", &joined(&[time, handler(kind), minf]));
    boxed(b"trak", &mdia)
}

fn summary(p: &Mp4Probe) -> (Option<String>, Option<u64>, Option<u64>, Option<FrameRate>, Option<u64>) {
    (p.params.codec.clone(), p.params.width, p.params.height, p.params.rate, p.frame_count)
}

#[test]
fn a_movie_states_what_its_video_track_holds() {
    let sound = track(b"soun", header(1, 1), table(b"stsz", 9));
    let video = track(b"vide", header(600, 1200), table(b"stsz", 60));
    let moov = joined(&[sound, boxed(b"trak", b""), video]);
    let file = joined(&[boxed(b"ftyp", b"isom"), boxed(b"moov", &moov)]);
    let p = probe_mp4(&file).unwrap();
    let rate = FrameRate { frames: 60, scale: 600, duration: 1200 };
    assert_eq!(summary(&p), (Some("avc1".to_string()), Some(640), Some(480), Some(rate), Some(60)));
    assert_eq!(summary(&probe_moov(&moov).unwrap()), summary(&p));
}

#[test]
fn a_compact_table_counts_and_a_fragmented_file_does_not() {
    let moov = track(b"vide", header(600, 1200), table(b"stz2", 30));
    assert_eq!(probe_moov(&moov).unwrap().frame_count, Some(30));
    let p = probe_moov(&joined(&[boxed(b"mvex", b""), moov])).unwrap();
    assert_eq!(p.frame_count, None);
    assert_eq!(p.params.rate, None);
    assert_eq!(p.params.width, Some(640));
}

#[test]
fn an_unknown_duration_yields_no_rate() {
    let p = probe_moov(&track(b"vide", header(600, u32::MAX), table(b"stsz", 30))).unwrap();
    assert_eq!((p.params.rate, p.frame_count), (None, Some(30)));
    let p = probe_moov(&track(b"vide", header(0, 5), table(b"stsz", 30))).unwrap();
    assert_eq!(p.params.rate, None);
}

#[test]
fn a_64_bit_header_states_its_time_base() {
    let mut p = vec![1u8];
    p.extend_from_slice(&[0u8; 19]);
    p.extend_from_slice(&90_000u32.to_be_bytes());
    p.extend_from_slice(&180_000u64.to_be_bytes());
    let probe = probe_moov(&track(b"vide", boxed(b"mdhd", &p), table(b"stsz", 50))).unwrap();
    assert_eq!(probe.params.rate, Some(FrameRate { frames: 50, scale: 90_000, duration: 180_000 }));
}

#[test]
fn a_movie_without_video_is_told_apart_from_one_without_metadata() {
    assert_eq!(
        refused(&boxed(b"moov", &track(b"soun", header(1, 1), table(b"stsz", 1)))),
        "no video track: the container's moov box declares no track with a 'vide' handler"
    );
    assert_eq!(
        refused(&boxed(b"ftyp", b"isom")),
        "no moov box: the file's top-level boxes carry no movie metadata"
    );
    assert_eq!(
        refused(b"\x00\x00\x00\x00m\x01at12345678"),
        "no moov box: the 'm\\x01at' box declares that it runs to the end of the file, so any movie \
         metadata written after it is unreachable"
    );
    assert_eq!(refused(b"\x00\x00\x00"), "truncated box header at offset 0: 3 bytes left, 8 needed");
    assert_eq!(
        refused(b"\x00\x00\x00\x01moov1234"),
        "truncated 64-bit box header at offset 0: 12 bytes left, 16 needed"
    );
}

#[test]
fn every_box_advances_the_walk() {
    let file = joined(&[boxed(b"ftyp", b"isom"), boxed(b"free", b""), boxed(b"moov", b"")]);
    let mut scan = Scan::new();
    let mut offsets = Vec::new();
    loop {
        let at = scan.offset as usize;
        let end = (at + 16).min(file.len());
        match scan.step(&file[at..end], file.len() as u64) {
            Step::Next => offsets.push(scan.offset),
            Step::Moov(offset, len) => {
                assert_eq!((offset, len), (28, 0));
                break;
            }
            Step::Refuse(m) => panic!("{m}"),
        }
    }
    assert_eq!(offsets, vec![12, 20]);
}

// ---- Matroska ---------------------------------------------------------------------------------

fn element(id: &[u8], payload: &[u8]) -> Vec<u8> {
    let mut out = id.to_vec();
    out.push(0x40 | (payload.len() >> 8) as u8);
    out.push(payload.len() as u8);
    out.extend_from_slice(payload);
    out
}

fn opened(doc_type: &[u8]) -> Vec<u8> {
    element(&[0x1A, 0x45, 0xDF, 0xA3], &element(&[0x42, 0x82], doc_type))
}

fn video_entry(number: u8) -> Vec<u8> {
    let dimensions = joined(&[element(&[0xB0], &[0x02, 0x80]), element(&[0xBA], &[0x01, 0xE0])]);
    element(
        &[0xAE],
        &joined(&[
            element(&[0xD7], &[number]),
            element(&[0x83], &[1]),
            element(&[0x86], b"V_VP9\0\0"),
            element(&[0x23, 0xE3, 0x83], &33_333_333u32.to_be_bytes()),
            element(&[0xE0], &dimensions),
        ]),
    )
}

fn tracks(entries: &[Vec<u8>]) -> Vec<u8> {
    element(&[0x16, 0x54, 0xAE, 0x6B], &joined(entries))
}

fn block(track: u8, flags: u8, rest: &[u8]) -> Vec<u8> {
    let mut p = vec![0x80 | track, 0, 0, flags];
    p.extend_from_slice(rest);
    element(&[0xA3], &p)
}

fn cluster(parts: &[Vec<u8>]) -> Vec<u8> {
    element(&[0x1F, 0x43, 0xB6, 0x75], &joined(parts))
}

fn segment(parts: &[Vec<u8>]) -> Vec<u8> {
    element(&[0x18, 0x53, 0x80, 0x67], &joined(parts))
}

fn reason(bytes: &[u8]) -> String {
    match matroska::probe(bytes) {
        Ok(_) => panic!("the file must be refused"),
        Err(e) => e,
    }
}

#[test]
fn the_ebml_magic_tells_the_containers_apart() {
    assert!(matroska::is_ebml(&opened(b"webm")));
    assert!(!matroska::is_ebml(b"\x1A\x45\xDF"));
    assert!(!matroska::is_ebml(b"\x00\x00\x00\x18ftyp"));
}

#[test]
fn a_recording_states_its_track_and_its_blocks_are_counted() {
    let group = element(&[0xA0], &element(&[0xA1], &[0x81, 0, 0, 0, 7]));
    let file = joined(&[
        opened(b"matroska"),
        segment(&[
            cluster(&[block(1, 0, b"xyz"), block(2, 0, b"audio"), group]),
            tracks(&[element(&[0xAE], &element(&[0x83], &[2])), video_entry(1)]),
            cluster(&[block(1, 0x06, &[2, 1, 1])]),
        ]),
    ]);
    let p = matroska::probe(&file).unwrap();
    let rate = FrameRate { frames: 1, scale: 1_000_000_000, duration: 33_333_333 };
    assert_eq!(summary(&p), (Some("V_VP9".to_string()), Some(640), Some(480), Some(rate), Some(5)));
}

#[test]
fn a_cluster_of_unknown_size_gives_up_the_count_alone() {
    let mut open = vec![0x1F, 0x43, 0xB6, 0x75, 0xFF];
    open.extend_from_slice(&block(1, 0, b"x"));
    let file = joined(&[opened(b"webm"), segment(&[tracks(&[video_entry(1)]), open])]);
    let p = matroska::probe(&file).unwrap();
    assert_eq!((p.frame_count, p.params.width), (None, Some(640)));
}

#[test]
fn a_malformed_block_gives_up_the_count_alone() {
    let file = joined(&[opened(b"webm"), segment(&[tracks(&[video_entry(1)]), cluster(&[element(&[0xA3], &[0x81])])])]);
    assert_eq!(matroska::probe(&file).unwrap().frame_count, None);
    let none = joined(&[opened(b"webm"), segment(&[tracks(&[video_entry(1)])])]);
    assert_eq!(matroska::probe(&none).unwrap().frame_count, Some(0));
}

#[test]
fn what_is_wrong_with_a_matroska_file_is_named() {
    assert_eq!(reason(b""), "malformed element id at offset 0");
    assert_eq!(reason(&[0x1A, 0x45, 0xDF, 0xA3]), "malformed element size at offset 0");
    assert_eq!(
        reason(&[0x42, 0x82, 0x80]),
        "not a Matroska container: the file does not open with an EBML header"
    );
    assert_eq!(
        reason(&opened(b"av\x01")),
        "not a Matroska container: its EBML header declares doc type `av\\x01`"
    );
    assert_eq!(reason(&opened(b"webm")), "no segment: the file's EBML tree carries no Segment element");
    assert_eq!(
        reason(&joined(&[opened(b"webm"), segment(&[])])),
        "no video track: the container's Tracks element declares no track of type video"
    );
    assert_eq!(
        reason(&[0x1A, 0x45, 0xDF, 0xA3, 0x85]),
        "element 0x1a45dfa3 at offset 0 declares 5 bytes but only 0 remain"
    );
}

#[test]
fn an_oversized_element_is_refused_before_it_is_read() {
    let mut reader = matroska::Reader::new(1 << 30);
    assert_eq!(reader.wants(), Some((0, 16)));
    let mut head = vec![0x1A, 0x45, 0xDF, 0xA3, 0x11, 0x00, 0x00, 0x01];
    head.resize(16, 0);
    assert_eq!(
        reader.step(&head),
        Err("EBML header declares 16777217 bytes, over the 16777216-byte ceiling".to_string())
    );
}

#[test]
fn a_walk_asks_for_headers_and_never_for_payloads() {
    let payload = [9u8; 200];
    let mut first = vec![0x81, 0, 0, 0];
    first.extend_from_slice(&payload);
    let file = joined(&[
        opened(b"webm"),
        segment(&[tracks(&[video_entry(1)]), cluster(&[element(&[0xA3], &first)])]),
    ]);
    let mut reader = matroska::Reader::new(file.len() as u64);
    let mut longest = 0;
    while let Some((offset, n)) = reader.wants() {
        assert!(offset + n <= file.len() as u64);
        longest = longest.max(n);
        reader.step(&file[offset as usize..(offset + n) as usize]).unwrap();
    }
    assert!(longest < 100);
    assert_eq!(reader.walk.finish().unwrap().frame_count, Some(1));
}

#[test]
fn frames_per_second_round_as_doubles_do() {
    for (frames, scale, duration) in [(300u64, 15360u64, 153600u64), (1, 1_000_000_000, 33_366_666), (7, 3, 11), (u64::MAX, u64::MAX, 1)] {
        let rate = FrameRate { frames, scale, duration };
        assert_eq!(f64::from_bits(rate.per_second()), frames as f64 * scale as f64 / duration as f64);
    }
}
