use gtnh_updater::httpzip::{
    content_length, fetch, range_accepted, range_header, Fetched, HttpRangeReader, Need, Target, CHUNK,
};

fn file() -> Vec<u8> {
    (0..(2 * CHUNK + 100)).map(|i| (i % 251) as u8).collect()
}

/// Read once, fetching from `file` what is needed.
fn read(reader: HttpRangeReader, file: &[u8], n: usize) -> (HttpRangeReader, Vec<u8>, usize) {
    match reader.need(n) {
        Need::Nothing => (reader, Vec::new(), 0),
        Need::Ready => {
            let (reader, bytes) = reader.take(n);
            (reader, bytes, 0)
        }
        Need::Window { start, end } => {
            let got = file[start as usize..=end as usize].to_vec();
            let fetched = got.len();
            let (reader, bytes) = reader.fill(start, got).take(n);
            (reader, bytes, fetched)
        }
        Need::Direct { start, end } => {
            let got = file[start as usize..=end as usize].to_vec();
            let fetched = got.len();
            let (reader, bytes) = reader.hand_over(got, n);
            (reader, bytes, fetched)
        }
    }
}

#[test]
fn small_reads_share_a_window() {
    let file = file();
    let mut reader = HttpRangeReader::new(file.len() as u64);
    assert_eq!(reader.seek(Target::Start(CHUNK - 2)), Some(CHUNK - 2));
    let (reader, bytes, fetched) = read(reader, &file, 10);
    assert_eq!(bytes, file[CHUNK as usize - 2..CHUNK as usize].to_vec());
    assert_eq!(fetched, CHUNK as usize);
    let (reader, bytes, fetched) = read(reader, &file, 10);
    assert_eq!(bytes, file[CHUNK as usize..CHUNK as usize + 10].to_vec());
    assert_eq!(fetched, CHUNK as usize);
    let (reader, bytes, fetched) = read(reader, &file, 5);
    assert_eq!(bytes.len(), 5);
    assert_eq!(fetched, 0);
    assert_eq!(reader.position(), CHUNK + 15);
}

#[test]
fn big_reads_bypass_the_window() {
    let file = file();
    let mut reader = HttpRangeReader::new(file.len() as u64);
    reader.seek(Target::End(-50));
    assert_eq!(
        reader.need(CHUNK as usize),
        Need::Direct { start: 2 * CHUNK + 50, end: 2 * CHUNK + 99 }
    );
    let (reader, bytes, _) = read(reader, &file, CHUNK as usize);
    assert_eq!(bytes, file[file.len() - 50..].to_vec());
    assert_eq!(reader.need(1), Need::Nothing);
}

#[test]
fn reads_give_the_whole_file() {
    let file = file();
    for step in [1usize, 777, CHUNK as usize - 1, CHUNK as usize, 3 * CHUNK as usize] {
        let mut reader = HttpRangeReader::new(file.len() as u64);
        if step == 1 {
            reader.seek(Target::End(-300));
        }
        let start = reader.position() as usize;
        let mut out = Vec::new();
        loop {
            let (next, bytes, _) = read(reader, &file, step);
            reader = next;
            if bytes.is_empty() {
                break;
            }
            out.extend(bytes);
        }
        assert_eq!(out, file[start..].to_vec());
    }
}

#[test]
fn nothing_is_read_at_the_end() {
    let mut reader = HttpRangeReader::new(10);
    assert_eq!(reader.need(0), Need::Nothing);
    reader.seek(Target::Start(10));
    assert_eq!(reader.need(4), Need::Nothing);
    reader.seek(Target::Start(99));
    assert_eq!(reader.need(4), Need::Nothing);
}

#[test]
fn seeking_before_the_start_fails() {
    let mut reader = HttpRangeReader::new(10);
    assert_eq!(reader.seek(Target::End(-3)), Some(7));
    assert_eq!(reader.seek(Target::Current(-2)), Some(5));
    assert_eq!(reader.seek(Target::Current(-6)), None);
    assert_eq!(reader.position(), 5);
    assert_eq!(reader.seek(Target::Start(u64::MAX)), None);
    assert_eq!(reader.seek(Target::Current(i64::MAX)), None);
}

#[test]
fn ranges_are_explicit() {
    assert_eq!(range_header(0, 1048575), "bytes=0-1048575");
    assert!(range_accepted(206));
    assert!(range_accepted(200));
    assert!(!range_accepted(404));
    assert_eq!(content_length(Some("12")), Some(12));
    assert_eq!(content_length(Some("0")), None);
    assert_eq!(content_length(Some("many")), None);
    assert_eq!(content_length(None), None);
}

#[test]
fn an_expired_address_is_refreshed_once() {
    let request = |url: &str| -> Result<Vec<u8>, String> {
        if url == "good" {
            Ok(vec![1, 2])
        } else {
            Err(format!("{url} failed"))
        }
    };
    let none: Option<fn() -> Result<String, String>> = None;
    assert!(matches!(fetch("good", request, none), Fetched::Bytes(b) if b == vec![1, 2]));
    assert!(matches!(fetch("bad", request, none), Fetched::Failed(e) if e == "bad failed"));
    let fresh = Some(|| -> Result<String, String> { Ok("good".to_string()) });
    assert!(matches!(
        fetch("bad", request, fresh),
        Fetched::Fresh { url, bytes } if url == "good" && bytes == vec![1, 2]
    ));
    let stale = Some(|| -> Result<String, String> { Ok("worse".to_string()) });
    assert!(matches!(
        fetch("bad", request, stale),
        Fetched::FailedAgain { url, error } if url == "worse" && error == "worse failed"
    ));
    let gone = Some(|| -> Result<String, String> { Err("no".to_string()) });
    assert!(matches!(fetch("bad", request, gone), Fetched::NoAddress(e) if e == "no"));
}
