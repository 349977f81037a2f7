use xstream_util::{Splitter, Step};

/// Feeds the chunks in order and returns what each process receives.
fn deliver(chunks: &[&[u8]], delim: &[u8], write_delim: Option<&[u8]>) -> Vec<Vec<u8>> {
    let mut splitter = Splitter::new(delim.to_vec(), write_delim.map(|w| w.to_vec()));
    let mut steps = Vec::new();
    for chunk in chunks {
        steps.extend(splitter.feed(chunk));
    }
    steps.extend(splitter.finish());
    let mut received: Vec<Vec<u8>> = Vec::new();
    for step in steps {
        match step {
            Step::Acquire => received.push(Vec::new()),
            Step::Write(bytes) => received
                .last_mut()
                .expect("a write comes after an acquisition")
                .extend_from_slice(&bytes),
        }
    }
    received
}

/// Every way of cutting `input` into two chunks, and into single bytes.
fn cuts(input: &[u8]) -> Vec<Vec<&[u8]>> {
    let mut all = Vec::new();
    for i in 0..=input.len() {
        all.push(vec![&input[..i], &input[i..]]);
    }
    all.push(input.chunks(1).collect());
    all
}

#[test]
fn comma_separated_with_empty_segment() {
    let got = deliver(&[b"a,b,,c"], b",", None);
    assert_eq!(got, vec![b"a,".to_vec(), b"b,".to_vec(), b",".to_vec(), b"c".to_vec()]);
}

#[test]
fn comma_separated_segments_without_delimiter() {
    let got = deliver(&[b"a,b,,c"], b",", Some(b""));
    assert_eq!(got, vec![b"a".to_vec(), b"b".to_vec(), b"".to_vec(), b"c".to_vec()]);
}

#[test]
fn trailing_partial_segment_is_flushed() {
    let got = deliver(&[b"a\nb"], b"\n", None);
    assert_eq!(got, vec![b"a\n".to_vec(), b"b".to_vec()]);
}

#[test]
fn delimiter_across_chunks_is_one_match() {
    let got = deliver(&[b"ab<", b"-->cd"], b"<-->", None);
    assert_eq!(got, vec![b"ab<-->".to_vec(), b"cd".to_vec()]);
    let got = deliver(&[b"x<-", b"-", b">y"], b"<-->", Some(b"|"));
    assert_eq!(got, vec![b"x|".to_vec(), b"y".to_vec()]);
}

#[test]
fn any_chunking_gives_the_same_deliveries() {
    let input: &[u8] = b"one::two:three::::four:";
    let whole = deliver(&[input], b"::", Some(b"\n"));
    assert_eq!(
        whole,
        vec![
            b"one\n".to_vec(),
            b"two:three\n".to_vec(),
            b"\n".to_vec(),
            b"four:".to_vec()
        ]
    );
    for chunks in cuts(input) {
        assert_eq!(deliver(&chunks, b"::", Some(b"\n")), whole);
    }
}

#[test]
fn round_trip_with_original_delimiter() {
    let inputs: [&[u8]; 5] = [b"", b"abc", b"a\n\nb\n", b"\n", b"aaaa"];
    for input in inputs {
        for chunks in cuts(input) {
            let joined: Vec<u8> = deliver(&chunks, b"\n", None).concat();
            assert_eq!(joined, input.to_vec());
            let joined: Vec<u8> = deliver(&chunks, b"aa", None).concat();
            assert_eq!(joined, input.to_vec());
        }
    }
}

#[test]
fn one_process_per_segment() {
    // three occurrences, and the input does not end in one: four segments
    assert_eq!(deliver(&[b"x;y;;z"], b";", None).len(), 4);
    // the input ends in the delimiter: no process for the empty last segment
    assert_eq!(deliver(&[b"x;y;"], b";", None).len(), 2);
    // leftmost, non-overlapping matches
    assert_eq!(
        deliver(&[b"aaa"], b"aa", Some(b"-")),
        vec![b"-".to_vec(), b"a".to_vec()]
    );
}

#[test]
fn empty_input_starts_no_process() {
    assert!(deliver(&[], b",", None).is_empty());
    assert!(deliver(&[b"", b""], b",", None).is_empty());
}

#[test]
fn write_delimiter_replaces_every_boundary() {
    let got = deliver(&[b"1\t2\t\t3\t"], b"\t", Some(b"\r\n"));
    assert_eq!(
        got,
        vec![b"1\r\n".to_vec(), b"2\r\n".to_vec(), b"\r\n".to_vec(), b"3\r\n".to_vec()]
    );
}

#[test]
fn short_input_is_held_back_until_the_end() {
    let mut splitter = Splitter::new(b"abc".to_vec(), None);
    let steps = splitter.feed(b"ab");
    assert!(steps.is_empty());
    let steps = splitter.finish();
    assert_eq!(steps.len(), 2);
    assert!(matches!(steps[0], Step::Acquire));
    assert!(matches!(&steps[1], Step::Write(b) if b == b"ab"));
}

#[test]
fn bytes_that_cannot_start_a_match_go_out_at_once() {
    let mut splitter = Splitter::new(b"abc".to_vec(), None);
    let steps = splitter.feed(b"xyzab");
    assert_eq!(steps.len(), 2);
    assert!(matches!(steps[0], Step::Acquire));
    assert!(matches!(&steps[1], Step::Write(b) if b == b"xyz"));
}
