use bevy_nds::clock::{HardwareClock, BUS_CLOCK};
use bevy_nds::diagnostics::{frame_us, PerfBlob, PERF_MAGIC, PERF_RING_LEN, PERF_VERSION};
use bevy_nds::perfread::args::{parse_args, parse_number, BAD_DIGIT, NO_DIGITS, TOO_LARGE};
use bevy_nds::perfread::blob::{is_head_in_ring, Blob, PERF_BLOB_SIZE};
use bevy_nds::perfread::memory::{MemRead, Sweep, MAIN_RAM_BASE, SWEEP_STEP};
use bevy_nds::perfread::packet::{checksum, frame, hex_val, take_packet};
use bevy_nds::perfread::stats::{percentile_idx, Stats};

fn encode_blob(head: u32, written: u64, ring: &[u32; PERF_RING_LEN]) -> Vec<u8> {
    let mut v = Vec::with_capacity(PERF_BLOB_SIZE);
    v.extend_from_slice(&PERF_MAGIC);
    v.extend_from_slice(&PERF_VERSION.to_le_bytes());
    v.extend_from_slice(&head.to_le_bytes());
    v.extend_from_slice(&(PERF_RING_LEN as u32).to_le_bytes());
    v.extend_from_slice(&written.to_le_bytes());
    for &x in ring {
        v.extend_from_slice(&x.to_le_bytes());
    }
    v
}

#[test]
fn decodes_partially_filled_ring_in_order() {
    let mut ring = [0u32; PERF_RING_LEN];
    ring[0] = 16_667;
    ring[1] = 16_700;
    ring[2] = 33_000;
    let bytes = encode_blob(3, 3, &ring);
    let b = Blob::decode(&bytes).unwrap();
    assert_eq!(b.samples, vec![16_667, 16_700, 33_000]);
}

#[test]
fn decodes_wrapped_ring_in_oldest_first_order() {
    let mut ring = [0u32; PERF_RING_LEN];
    for (i, slot) in ring.iter_mut().enumerate() {
        *slot = (i + 1) as u32;
    }
    ring[0] = 9001;
    ring[1] = 9002;
    ring[2] = 9003;
    ring[3] = 9004;
    ring[4] = 9005;
    let head = 5u32;
    let written = PERF_RING_LEN as u64 + 5;
    let bytes = encode_blob(head, written, &ring);
    let b = Blob::decode(&bytes).unwrap();
    assert_eq!(b.samples.first(), Some(&6));
    assert_eq!(b.samples.last(), Some(&9005));
    assert_eq!(b.samples.len(), PERF_RING_LEN);
}

#[test]
fn stats_handle_steady_60fps() {
    let mut ring = [0u32; PERF_RING_LEN];
    for slot in &mut ring[..100] {
        *slot = 16_667;
    }
    let bytes = encode_blob(100, 100, &ring);
    let blob = Blob::decode(&bytes).unwrap();
    let s = Stats::from_blob(&blob);
    assert_eq!(s.n, 100);
    assert_eq!(s.min_us, 16_667);
    let avg_us = s.sum_us as f64 / s.n as f64;
    assert!((avg_us - 16_667.0).abs() < 0.001);
    assert_eq!(s.p50_us, 16_667);
    assert_eq!(s.p95_us, 16_667);
}

#[test]
fn stats_p95_picks_a_tail_sample() {
    let mut ring = [0u32; PERF_RING_LEN];
    for slot in &mut ring[..100] {
        *slot = 16_667;
    }
    for slot in &mut ring[95..100] {
        *slot = 50_000;
    }
    let bytes = encode_blob(100, 100, &ring);
    let blob = Blob::decode(&bytes).unwrap();
    let s = Stats::from_blob(&blob);
    assert_eq!(s.min_us, 16_667);
    assert_eq!(s.p95_us, 50_000);
}

#[test]
fn stats_of_unsorted_samples() {
    let s = Stats::from_blob(&Blob { samples: vec![30, 10, 20] });
    assert_eq!((s.n, s.min_us, s.sum_us, s.p50_us, s.p95_us), (3, 10, 60, 20, 30));
    let none = Stats::from_blob(&Blob { samples: vec![] });
    assert_eq!((none.n, none.min_us, none.sum_us, none.p50_us, none.p95_us), (0, 0, 0, 0, 0));
}

#[test]
fn main_rejects_bad_magic() {
    let mut bytes = encode_blob(0, 0, &[0; PERF_RING_LEN]);
    bytes[0] = b'X';
    let err = Blob::decode(&bytes).unwrap_err();
    assert!(err.contains("bad magic"), "got {err}");
    assert_eq!(err, "bad magic: [58, 56, 44, 53]");
}

#[test]
fn main_rejects_unknown_version() {
    let mut bytes = encode_blob(0, 0, &[0; PERF_RING_LEN]);
    bytes[4] = 99;
    let err = Blob::decode(&bytes).unwrap_err();
    assert!(err.contains("version"), "got {err}");
    assert_eq!(err, "unsupported PerfBlob version 99 (this tool knows 1)");
}

#[test]
fn decode_names_the_other_faults() {
    let bytes = encode_blob(0, 0, &[0; PERF_RING_LEN]);
    assert_eq!(
        Blob::decode(&bytes[..10]).unwrap_err(),
        "short blob: got 10 bytes, expected 1048"
    );
    let mut other_ring = bytes.clone();
    other_ring[12] = 7;
    assert_eq!(
        Blob::decode(&other_ring).unwrap_err(),
        "ring_len mismatch: blob says 263, this tool was built for 256"
    );
    // A full ring whose next slot lies outside cannot be put in order.
    let wild = encode_blob(257, 300, &[1; PERF_RING_LEN]);
    assert!(!is_head_in_ring(&wild));
    assert!(is_head_in_ring(&encode_blob(256, 300, &[1; PERF_RING_LEN])));
    assert!(is_head_in_ring(&encode_blob(257, 3, &[1; PERF_RING_LEN])));
}

#[test]
fn decoder_reads_what_the_ring_recorded() {
    let mut blob = PerfBlob::new();
    for us in 1..=300u32 {
        blob.push_us(us);
    }
    let bytes = encode_blob(blob.head, blob.written, &blob.ring_us);
    let want: Vec<u32> = (45..=300).collect();
    assert_eq!(Blob::decode(&bytes).unwrap().samples, want);
}

#[test]
fn take_packet_handles_acks_and_split_reads() {
    let mut buf = b"++$qSupported#37x".to_vec();
    let body = take_packet(&mut buf).unwrap();
    assert_eq!(body, b"qSupported");
    assert_eq!(buf, b"x");
}

#[test]
fn take_packet_returns_none_on_partial() {
    let mut buf = b"$qSup".to_vec();
    assert!(take_packet(&mut buf).is_none());
    assert_eq!(buf, b"$qSup");
}

#[test]
fn packets_round_trip() {
    assert_eq!(frame(b"c"), b"$c#63");
    assert_eq!(checksum(&[0xff, 0x02]), 1);
    let mut buf = b"+-".to_vec();
    buf.extend_from_slice(&frame(b"m2000000,100"));
    buf.extend_from_slice(b"$OK#9a");
    assert_eq!(take_packet(&mut buf).unwrap(), b"m2000000,100");
    assert_eq!(take_packet(&mut buf).unwrap(), b"OK");
    assert!(buf.is_empty());
    // A packet without its whole checksum waits; only the acknowledgements go.
    let mut buf = b"+$OK#9".to_vec();
    assert!(take_packet(&mut buf).is_none());
    assert_eq!(buf, b"$OK#9");
}

#[test]
fn hex_digits_in_either_case() {
    assert_eq!(hex_val(b'0'), Some(0));
    assert_eq!(hex_val(b'9'), Some(9));
    assert_eq!(hex_val(b'a'), Some(10));
    assert_eq!(hex_val(b'F'), Some(15));
    assert_eq!(hex_val(b'g'), None);
}

#[test]
fn percentile_idx_basic() {
    assert_eq!(percentile_idx(100, 50), 50);
    assert_eq!(percentile_idx(100, 95), 95);
    assert_eq!(percentile_idx(100, 100), 99);
    assert_eq!(percentile_idx(1, 50), 0);
    assert_eq!(percentile_idx(2, 50), 1);
    assert_eq!(percentile_idx(2, 95), 1);
}

fn hex(bytes: &[u8]) -> Vec<u8> {
    let mut out = Vec::new();
    for b in bytes {
        out.extend_from_slice(format!("{b:02x}").as_bytes());
    }
    out
}

#[test]
fn memory_is_read_in_pieces() {
    let mem: Vec<u8> = (0..600u32).map(|i| (i * 7 % 251) as u8).collect();
    let mut read = MemRead::new(0x0232_1bd8, 600);
    let mut requests = Vec::new();
    while let Some(request) = read.request() {
        requests.push(String::from_utf8(request).unwrap());
        let from = read.out.len();
        let to = (from + 256).min(600);
        assert!(read.accept(&hex(&mem[from..to])).is_ok());
    }
    assert_eq!(requests, ["m2321bd8,100", "m2321cd8,100", "m2321dd8,58"]);
    assert_eq!(read.out, mem);
}

#[test]
fn bad_memory_replies_are_named() {
    let mut read = MemRead::new(0x1000, 260);
    assert_eq!(read.accept(b"E01").unwrap_err(), "stub returned error E01 at +0");
    assert_eq!(read.accept(b"E\xff").unwrap_err(), "stub returned error E? at +0");
    assert_eq!(
        read.accept(b"00ff").unwrap_err(),
        "short read: asked 256 bytes, got 4 hex chars at +0"
    );
    let mut bad = vec![b'0'; 512];
    bad[511] = b'x';
    assert_eq!(read.accept(&bad).unwrap_err(), "bad hex");
    assert!(read.accept(&vec![b'0'; 512]).is_ok());
    assert_eq!(
        read.accept(b"00").unwrap_err(),
        "short read: asked 4 bytes, got 2 hex chars at +100"
    );
}

#[test]
fn sweep_finds_the_record() {
    let mut sweep = Sweep::new();
    assert_eq!(sweep.stretch(), Some((MAIN_RAM_BASE, SWEEP_STEP as usize)));
    let mut bytes = vec![0u8; SWEEP_STEP as usize];
    assert_eq!(sweep.look(&bytes), None);
    bytes[20..24].copy_from_slice(b"BVDS");
    bytes[64..68].copy_from_slice(b"BVDS");
    assert_eq!(sweep.look(&bytes), Some(MAIN_RAM_BASE + SWEEP_STEP + 20));
    let mut sweep = Sweep::new();
    let blank = vec![0u8; SWEEP_STEP as usize];
    let mut stretches = 0;
    while sweep.stretch().is_some() {
        assert_eq!(sweep.look(&blank), None);
        stretches += 1;
    }
    assert_eq!(stretches, 64);
    assert_eq!(
        Sweep::not_found(),
        "magic \"BVDS\" not found in 0x02000000..0x02400000"
    );
}

fn words(args: &[&str]) -> Vec<String> {
    args.iter().map(|a| a.to_string()).collect()
}

#[test]
fn command_line_is_read() {
    let o = parse_args(&words(&["--port", "9999"])).unwrap();
    assert_eq!((o.port, o.addr, o.connect_timeout_ms, o.run_ms), (9999, None, 2000, 0));
    let o = parse_args(&words(&[
        "--run-ms", "3000", "--port", "+1", "--addr", "0x02321bd8", "--connect-timeout", "5", "--port", "2",
    ]))
    .unwrap();
    assert_eq!(
        (o.port, o.addr, o.connect_timeout_ms, o.run_ms),
        (2, Some(0x02321bd8), 5, 3000)
    );
    assert_eq!(parse_args(&words(&["--port", "1", "--addr", "FF"])).unwrap().addr, Some(255));
}

#[test]
fn command_line_faults_are_named() {
    let err = |args: &[&str]| parse_args(&words(args)).unwrap_err();
    assert_eq!(err(&[]), "--port is required");
    assert_eq!(err(&["--port"]), "--port needs a value");
    assert_eq!(err(&["--addr"]), "--addr needs a value");
    assert_eq!(err(&["--connect-timeout"]), "--connect-timeout needs a value (ms)");
    assert_eq!(err(&["--run-ms"]), "--run-ms needs a value (ms)");
    assert_eq!(err(&["--bogus"]), "unknown argument --bogus");
    assert_eq!(err(&["--port", "65536"]), format!("--port: {}", "65536".parse::<u16>().unwrap_err()));
    assert_eq!(err(&["--addr", "0x"]), format!("--addr: {NO_DIGITS}"));
    assert_eq!(err(&["--run-ms", "-1"]), format!("--run-ms: {BAD_DIGIT}"));
    assert_eq!(
        err(&["--connect-timeout", "99999999999999999999"]),
        format!("--connect-timeout: {TOO_LARGE}")
    );
}

#[test]
fn numbers_are_read_as_the_standard_library_does() {
    for text in ["", "+", "-", "0", "+7", "-0", "65535", "65536", "99999x", "x99999", "12a", "007"] {
        let chars: Vec<char> = text.chars().collect();
        let want = text.parse::<u16>().map(u64::from).map_err(|e| e.to_string());
        assert_eq!(parse_number(&chars, 10, 0xffff), want, "{text:?}");
    }
    for text in ["", "ff", "FF", "fg", "100000000", "ffffffff", "+1"] {
        let chars: Vec<char> = text.chars().collect();
        let want = u32::from_str_radix(text, 16).map(u64::from).map_err(|e| e.to_string());
        assert_eq!(parse_number(&chars, 16, 0xffff_ffff), want, "{text:?}");
    }
}

#[test]
fn perf_blob_seeds_with_magic_and_version() {
    let b = PerfBlob::new();
    assert_eq!(b.magic, PERF_MAGIC);
    assert_eq!(b.version, PERF_VERSION);
    assert_eq!(b.head, 0);
    assert_eq!(b.written, 0);
    assert_eq!(b.ring_len as usize, PERF_RING_LEN);
    assert!(b.ring_us.iter().all(|&x| x == 0));
    assert_eq!(&PERF_MAGIC, b"BVDS");
}

#[test]
fn perf_blob_push_advances_head_and_written() {
    let mut b = PerfBlob::new();
    b.push_us(16_667);
    b.push_us(16_700);
    b.push_us(33_000);
    assert_eq!(b.ring_us[0], 16_667);
    assert_eq!(b.ring_us[1], 16_700);
    assert_eq!(b.ring_us[2], 33_000);
    assert_eq!(b.head, 3);
    assert_eq!(b.written, 3);
}

#[test]
fn perf_blob_drops_zero_samples() {
    let mut b = PerfBlob::default();
    b.push_us(16_667);
    b.push_us(0);
    b.push_us(16_700);
    assert_eq!(b.ring_us[0], 16_667);
    assert_eq!(b.ring_us[1], 16_700);
    assert_eq!(b.head, 2);
    assert_eq!(b.written, 2);
}

#[test]
fn perf_blob_wraps_after_ring_len_samples() {
    let mut b = PerfBlob::new();
    for i in 0..PERF_RING_LEN as u32 {
        b.push_us(i + 1);
    }
    assert_eq!(b.head, 0);
    assert_eq!(b.written, PERF_RING_LEN as u64);
    assert_eq!(b.ring_us[0], 1);
    assert_eq!(b.ring_us[PERF_RING_LEN - 1], PERF_RING_LEN as u32);

    b.push_us(9999);
    assert_eq!(b.head, 1);
    assert_eq!(b.written, PERF_RING_LEN as u64 + 1);
    assert_eq!(b.ring_us[0], 9999);
    assert_eq!(b.ring_us[1], 2);
}

#[test]
fn frame_times_in_microseconds() {
    assert_eq!(frame_us(16_666_667), 16_666);
    assert_eq!(frame_us(999), 0);
    assert_eq!(frame_us((1u128 << 32) * 1000 + 5000), 5);
}

#[test]
fn clock_counts_wrapping_ticks() {
    let mut clock = HardwareClock { last_ticks: u32::MAX };
    // One second's worth of ticks across the wrap.
    let now = (BUS_CLOCK - 1) as u32;
    assert_eq!(clock.advance(now), 1_000_000_000);
    assert_eq!(clock.last_ticks, now);
    assert_eq!(clock.advance(now), 0);
    assert_eq!(clock.advance(now + 1), 29);
}
