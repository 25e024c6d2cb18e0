use relay_server::{ascii_bytes, line_matches, LineAssembler, TrafficConfig};

#[test]
fn lines_split_across_many_chunks() {
    let mut inbox = LineAssembler::new();
    let mut lines = Vec::new();
    for chunk in [&b"one\ntw"[..], b"o", b"\nthree\nfo", b"ur"] {
        lines.extend(inbox.push(chunk));
    }
    assert_eq!(lines, vec![b"one\n".to_vec(), b"two\n".to_vec(), b"three\n".to_vec()]);
    assert_eq!(inbox.pending(), b"four");
}

#[test]
fn empty_chunk_completes_nothing() {
    let mut inbox = LineAssembler::new();
    assert!(inbox.push(b"").is_empty());
    assert!(inbox.push(b"\n\n").len() == 2);
    assert!(inbox.pending().is_empty());
}

#[test]
fn line_comparison_is_exact() {
    assert!(line_matches(b"abc\n", b"abc\n"));
    assert!(!line_matches(b"abc\n", b"abd\n"));
    assert!(!line_matches(b"abc", b"abc\n"));
    assert!(line_matches(b"", b""));
}

#[test]
fn default_traffic_parameters() {
    let config = TrafficConfig::new();
    assert_eq!(config.chunk_count, 100);
    assert_eq!(config.max_delay_microseconds, 1_000_000);
    assert_eq!(config.message, b"Hello World, UIC CS463 was here!\n".to_vec());
}

#[test]
fn random_chunks_rebuild_the_message() {
    let config = TrafficConfig::new();
    for _ in 0..50 {
        let chunks = config.random_chunks();
        assert!(chunks.iter().all(|c| !c.is_empty()));
        assert_eq!(chunks.concat(), config.message);
    }
}

#[test]
fn random_chunks_vary() {
    let config = TrafficConfig::new();
    let counts: Vec<usize> = (0..50).map(|_| config.random_chunks().len()).collect();
    assert!(counts.iter().any(|&n| n > 1));
}

#[test]
fn random_delay_stays_below_maximum() {
    let mut config = TrafficConfig::new();
    for _ in 0..100 {
        assert!(config.random_delay() < 1_000_000);
    }
    config.max_delay_microseconds = 1;
    assert_eq!(config.random_delay(), 0);
}

#[test]
fn ascii_text_to_bytes() {
    assert_eq!(ascii_bytes("hi\n"), b"hi\n".to_vec());
    assert!(ascii_bytes("").is_empty());
}
