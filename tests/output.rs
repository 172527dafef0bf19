use rtail::output::{Line, OutputCollector};

fn from(file: &str, content: &str) -> Line {
    Line { from_file: Some(file.to_string()), content: content.as_bytes().to_vec() }
}

#[test]
fn header_only_when_origin_changes() {
    let mut c = OutputCollector::new();
    assert_eq!(c.render(from("fileA", "x")), b"\n==>  fileA  <==\nx".to_vec());
    assert_eq!(c.render(from("fileA", "y")), b"y".to_vec());
    assert_eq!(c.render(from("fileB", "z")), b"\n==>  fileB  <==\nz".to_vec());
}

#[test]
fn notices_get_no_header_and_keep_origin() {
    let mut c = OutputCollector::new();
    let _ = c.render(from("a", "1"));
    let notice = Line { from_file: None, content: b"warn\n".to_vec() };
    assert_eq!(c.render(notice), b"warn\n".to_vec());
    assert_eq!(c.render(from("a", "2")), b"2".to_vec());
}

#[test]
fn render_lines_in_order() {
    let mut c = OutputCollector::new();
    let out = c.render_lines(vec![from("fileA", "x"), from("fileA", "y"), from("fileB", "z")]);
    assert_eq!(out, b"\n==>  fileA  <==\nxy\n==>  fileB  <==\nz".to_vec());
}

#[test]
fn bounded_channel_blocks_instead_of_dropping() {
    let (tx, rx) = crossbeam::channel::bounded::<Line>(1);
    tx.send(from("a", "0")).unwrap();
    assert!(tx.try_send(from("a", "1")).is_err());
    let first = rx.recv().unwrap();
    assert_eq!(first.content, b"0".to_vec());
    let received = crossbeam::scope(|s| {
        s.spawn(|_| {
            for i in 0..1000 {
                tx.send(from("a", &i.to_string())).unwrap();
            }
        });
        let mut c = OutputCollector::new();
        let mut got: Vec<Vec<u8>> = Vec::new();
        for _ in 0..1000 {
            let line = rx.recv().unwrap();
            got.push(line.content.clone());
            let _ = c.render(line);
        }
        got
    })
    .unwrap();
    assert_eq!(received.len(), 1000);
    for (i, content) in received.iter().enumerate() {
        assert_eq!(content, &i.to_string().into_bytes());
    }
}
