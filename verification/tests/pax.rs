use tokio_tar::pax::{any_with_key, append_pax_record, find_last, pax_extensions};

#[test]
fn records_have_their_exact_text() {
    let mut out = Vec::new();
    append_pax_record(&mut out, "path", b"x");
    assert_eq!(out, b"9 path=x\n");
    let mut out = Vec::new();
    append_pax_record(&mut out, "path", b"xy");
    assert_eq!(out, b"11 path=xy\n");
    for len in [85usize, 89, 90, 91, 92, 93, 980, 989, 990, 991, 995] {
        let value = vec![b'v'; len];
        let mut out = Vec::new();
        append_pax_record(&mut out, "path", &value);
        let text = String::from_utf8(out.clone()).unwrap();
        let (length, _) = text.split_once(' ').unwrap();
        assert_eq!(length.parse::<usize>().unwrap(), out.len());
    }
}

#[test]
fn records_are_read_back() {
    let mut out = Vec::new();
    append_pax_record(&mut out, "path", b"some/where");
    append_pax_record(&mut out, "linkpath", b"with=equals\nand newline");
    append_pax_record(&mut out, "path", b"last");
    let pax = pax_extensions(&out);
    assert!(!pax.malformed);
    assert_eq!(pax.records.len(), 3);
    assert_eq!(pax.records[0].key(), Some("path"));
    assert_eq!(pax.records[0].value(), Some("some/where"));
    assert_eq!(pax.records[1].value_bytes(), b"with=equals\nand newline");
    assert_eq!(find_last(&pax, "path"), Some(&b"last"[..]));
    assert!(any_with_key(&pax, "linkpath"));
    assert!(!any_with_key(&pax, "uid"));
}

#[test]
fn records_that_are_malformed() {
    for data in [
        &b"99 path=test.txt\n"[..],
        b"x path=a\n",
        b"9 pathxa\n",
        b"9 path=ab",
        b"path",
    ] {
        assert!(pax_extensions(data).malformed, "{data:?}");
    }
    assert!(!pax_extensions(b"").malformed);
}

#[test]
fn records_that_are_no_text() {
    let mut out = Vec::new();
    append_pax_record(&mut out, "path", b"\xff");
    let pax = pax_extensions(&out);
    assert_eq!(pax.records[0].value(), None);
    assert_eq!(pax.records[0].value_bytes(), b"\xff");
}
