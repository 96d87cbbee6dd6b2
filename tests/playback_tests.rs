use asciic::container::{assemble_container, read_container};
use asciic::frames::FrameEntry;
use asciic::playback::{effective_frametime, max_sub, parse_frame_rate, remaining_sub, Metadata, Pacer};
use asciic::stream::{next_frame, open_stream, BiChannel, FrameStream};

#[test]
fn metadata_prefers_frametime() {
    assert_eq!(effective_frametime(0, 30), Some(33333));
    assert_eq!(effective_frametime(40000, 30), Some(40000));
    assert_eq!(effective_frametime(40000, 0), Some(40000));
    assert_eq!(effective_frametime(0, 0), None);
    assert_eq!(effective_frametime(0, 3), Some(333333));
    assert_eq!(effective_frametime(0, 24), Some(41667));
}

#[test]
fn metadata_new() {
    let m = Metadata::new(30, 33333);
    assert_eq!(m.fps, 30);
    assert_eq!(m.frametime, 33333);
}

#[test]
fn remaining_and_max_sub() {
    assert_eq!(remaining_sub(33, 10), (23, 0));
    assert_eq!(remaining_sub(33, 50), (0, 17));
    assert_eq!(remaining_sub(5, 5), (0, 0));
    assert_eq!(max_sub(2, 9), 7);
}

#[test]
fn pacer_sleeps_rest_of_interval() {
    let mut p = Pacer::new(30);
    assert_eq!(p.delay, 33333);
    assert!(p.begin_frame());
    assert_eq!(p.end_frame(10_000), 23333);
    assert_eq!(p.behind, 0);
}

#[test]
fn pacer_skips_under_sustained_overrun() {
    let mut p = Pacer::new(30);
    let mut rendered = Vec::new();
    for _ in 0..4 {
        let r = p.begin_frame();
        rendered.push(r);
        if r {
            assert_eq!(p.end_frame(50_000), 0);
        }
    }
    // backlog 16667, then 33334 > 33333: the third frame is skipped, leaving 1
    assert_eq!(rendered, vec![true, true, false, true]);
    assert_eq!(p.behind, 16668);
}

#[test]
fn pacer_high_rates_keep_an_interval() {
    let p = Pacer::new(2000);
    assert_eq!(p.delay, 500);
    let q = Pacer::new(1_000_000);
    assert_eq!(q.delay, 1);
}

#[test]
fn pacer_backlog_saturates() {
    let mut p = Pacer { delay: 10, behind: u64::MAX - 1 };
    assert!(!p.begin_frame());
    assert_eq!(p.behind, u64::MAX - 11);
    let mut q = Pacer { delay: 10, behind: u64::MAX - 1 };
    assert_eq!(q.end_frame(100), 0);
    assert_eq!(q.behind, u64::MAX);
}

fn container_bytes(audio: Option<Vec<u8>>) -> Vec<u8> {
    let frames = vec![
        FrameEntry { number: 2, data: zstd::encode_all(&b"second"[..], 1).unwrap() },
        FrameEntry { number: 1, data: zstd::encode_all(&b"first"[..], 1).unwrap() },
    ];
    assemble_container(frames, audio, b"()").unwrap()
}

#[test]
fn stream_answers_audio_then_frames() {
    let c = read_container(&container_bytes(Some(b"ID3".to_vec()))).unwrap();
    let mut s = FrameStream::new(c);
    assert!(!s.finished());
    assert_eq!(s.respond(true), Some(b"ID3".to_vec()));
    assert_eq!(s.respond(true), Some(b"first".to_vec()));
    assert!(!s.finished());
    assert_eq!(s.respond(true), Some(b"second".to_vec()));
    assert!(s.finished());
    assert_eq!(s.respond(true), None);
}

#[test]
fn stream_without_audio_and_skips() {
    let mut s = open_stream(&container_bytes(None)).unwrap();
    assert_eq!(s.respond(true), Some(Vec::new()));
    assert_eq!(s.respond(false), None);
    assert_eq!(s.respond(true), Some(b"second".to_vec()));
    assert!(s.finished());
}

#[test]
fn bichannel_round_trip() {
    let (a, b) = BiChannel::<bool, Vec<u8>>::new();
    a.send(true).unwrap();
    assert_eq!(b.recv().unwrap(), true);
    b.send(vec![7]).unwrap();
    assert_eq!(a.recv().unwrap(), vec![7]);
    b.send(vec![9]).unwrap();
    assert_eq!(next_frame(&a), Some(vec![9]));
    assert_eq!(b.recv().unwrap(), true);
    drop(b);
    assert_eq!(a.send_recv(true), None);
}

#[test]
fn playback_rendezvous() {
    let bytes = container_bytes(Some(b"A".to_vec()));
    let (player, worker) = BiChannel::<bool, Vec<u8>>::new();
    let mut s = open_stream(&bytes).unwrap();
    let mut served = Vec::new();
    while !s.finished() {
        player.send(true).unwrap();
        let more = worker.recv().unwrap();
        if let Some(v) = s.respond(more) {
            worker.send(v).unwrap();
        }
        served.push(player.recv().unwrap());
    }
    drop(worker);
    assert_eq!(served, vec![b"A".to_vec(), b"first".to_vec(), b"second".to_vec()]);
    assert_eq!(next_frame(&player), None);
}
#[test]
fn frame_rate_from_probe_output() {
    assert_eq!(parse_frame_rate("30/1\n"), Some((30, 33333)));
    assert_eq!(parse_frame_rate("  30000/1001 "), Some((30, 33367)));
    assert_eq!(parse_frame_rate("24000/1001"), Some((24, 41708)));
    assert_eq!(parse_frame_rate("60/1"), Some((60, 16667)));
    assert_eq!(parse_frame_rate("0/0"), None);
    assert_eq!(parse_frame_rate("30"), None);
    assert_eq!(parse_frame_rate("a/b"), None);
    assert_eq!(parse_frame_rate(""), None);
}
