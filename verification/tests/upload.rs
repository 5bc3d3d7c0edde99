use webserv::upload::{
    boundary_marker, extract_boundary, extract_filename, find_subslice, max_media_index,
    media_file_path, multipart_files, next_part, stored_file_extension, PartStep,
};

#[test]
fn boundary_from_content_type() {
    assert_eq!(
        extract_boundary("multipart/form-data; boundary=----abc").as_deref(),
        Some("----abc")
    );
    assert_eq!(extract_boundary("multipart/form-data;boundary=boundary=x").as_deref(), Some("x"));
    assert_eq!(extract_boundary("multipart/form-data; charset=utf8"), None);
    assert_eq!(extract_boundary("boundary=first; boundary=second").as_deref(), Some("first"));
}

#[test]
fn subslice_search() {
    assert_eq!(find_subslice(b"abcabc", b"ca"), Some(2));
    assert_eq!(find_subslice(b"abc", b"abcd"), None);
    assert_eq!(find_subslice(b"aaab", b"ab"), Some(2));
}

#[test]
fn filename_from_part_headers() {
    assert_eq!(
        extract_filename(b"Content-Disposition: form-data; name=\"f\"; filename=\"cat.png\"").as_deref(),
        Some("cat.png")
    );
    assert_eq!(extract_filename(b"filename=\"unterminated"), None);
    assert_eq!(extract_filename(b"name=\"x\""), None);
    assert_eq!(extract_filename(b"filename=\"a\xffb\"").as_deref(), Some("a\u{fffd}b"));
}

fn body() -> Vec<u8> {
    let mut b = Vec::new();
    b.extend_from_slice(b"--XYZ\r\nContent-Disposition: form-data; name=\"t\"\r\n\r\nvalue\r\n");
    b.extend_from_slice(b"--XYZ\r\nContent-Disposition: form-data; name=\"f\"; filename=\"a.txt\"\r\nContent-Type: text/plain\r\n\r\nfile data\r\n");
    b.extend_from_slice(b"--XYZ--\r\n");
    b
}

#[test]
fn multipart_parts_in_order() {
    let b = body();
    let marker = boundary_marker("XYZ");
    assert_eq!(marker, b"--XYZ".to_vec());
    let first = next_part(&b, &marker, 0);
    let next = match first {
        PartStep::Skip { next } => next,
        _ => panic!("expected a part without a file"),
    };
    match next_part(&b, &marker, next) {
        PartStep::File { name, data, next } => {
            assert_eq!(name, "a.txt");
            assert_eq!(data, b"file data".to_vec());
            assert!(matches!(next_part(&b, &marker, next), PartStep::Done));
        }
        _ => panic!("expected a file part"),
    }
}

#[test]
fn multipart_without_boundary_is_done() {
    assert!(matches!(next_part(b"no parts here", b"--XYZ", 0), PartStep::Done));
}

#[test]
fn multipart_short_file_part_is_malformed() {
    let b = b"--B\r\nfilename=\"x\"\r\n\r\n--B".to_vec();
    assert!(matches!(next_part(&b, b"--B", 0), PartStep::Malformed));
}

#[test]
fn stored_extensions() {
    assert_eq!(stored_file_extension("cat.png"), "png");
    assert_eq!(stored_file_extension("archive.tar.gz"), "gz");
    assert_eq!(stored_file_extension("noext"), "bin");
    assert_eq!(stored_file_extension(".bashrc"), "bin");
    assert_eq!(stored_file_extension("dir/file.txt"), "txt");
    assert_eq!(stored_file_extension("dir.d/file"), "bin");
    assert_eq!(stored_file_extension("trailing."), "");
    assert_eq!(stored_file_extension("a/b.c/."), "c");
    assert_eq!(stored_file_extension(".."), "bin");
    assert_eq!(stored_file_extension(""), "bin");
}

#[test]
fn media_indices() {
    let names: Vec<String> = ["1.png", "12.txt", "x.png", "7", ".9", "3.tar.gz", "100.a.b"]
        .iter()
        .map(|s| s.to_string())
        .collect();
    assert_eq!(max_media_index(&names), 12);
    assert_eq!(max_media_index(&Vec::new()), 0);
    assert_eq!(max_media_index(&vec!["4294967295.x".to_string()]), u32::MAX);
    assert_eq!(max_media_index(&vec!["4294967296.x".to_string()]), 0);
}

#[test]
fn media_paths() {
    assert_eq!(media_file_path(13, "png"), "server/medias//13.png");
    assert_eq!(media_file_path(0, ""), "server/medias//0.");
}

#[test]
fn multipart_written_file_part_reads_back() {
    let marker = boundary_marker("b0undary");
    let headers = b"Content-Disposition: form-data; name=\"up\"; filename=\"notes.md\"\r\nContent-Type: text/markdown";
    let data = b"# title\r\nline two\r\n";
    let mut b = Vec::new();
    b.extend_from_slice(&marker);
    b.extend_from_slice(b"\r\n");
    b.extend_from_slice(headers);
    b.extend_from_slice(b"\r\n\r\n");
    b.extend_from_slice(data);
    b.extend_from_slice(b"\r\n");
    b.extend_from_slice(&marker);
    b.extend_from_slice(b"--\r\n");
    match next_part(&b, &marker, 0) {
        PartStep::File { name, data: got, next } => {
            assert_eq!(name, "notes.md");
            assert_eq!(got, data.to_vec());
            assert_eq!(next, marker.len() + 2 + headers.len() + 4 + data.len() + 2);
        }
        _ => panic!("expected the file part"),
    }
}

#[test]
fn multipart_files_lists_every_file_in_order() {
    let mut b = Vec::new();
    b.extend_from_slice(b"--XYZ\r\nContent-Disposition: form-data; name=\"t\"\r\n\r\nvalue\r\n");
    b.extend_from_slice(b"--XYZ\r\nContent-Disposition: form-data; name=\"f\"; filename=\"a.txt\"\r\n\r\nfile data\r\n");
    b.extend_from_slice(b"--XYZ\r\nContent-Disposition: form-data; name=\"g\"; filename=\"b.bin\"\r\n\r\n\x00\x01\r\n--XYZ--\r\n");
    let (files, malformed) = multipart_files(&b, b"--XYZ");
    assert!(!malformed);
    assert_eq!(files.len(), 2);
    assert_eq!(files[0].0, "a.txt");
    assert_eq!(files[0].1, b"file data".to_vec());
    assert_eq!(files[1].0, "b.bin");
    assert_eq!(files[1].1, vec![0u8, 1]);
}

#[test]
fn multipart_files_stop_at_a_malformed_part() {
    let mut b = b"--B\r\nfilename=\"ok.txt\"\r\n\r\nhi\r\n".to_vec();
    b.extend_from_slice(b"--B\r\nfilename=\"x\"\r\n\r\n--B");
    let (files, malformed) = multipart_files(&b, b"--B");
    assert!(malformed);
    assert_eq!(files.len(), 1);
    assert_eq!(files[0].0, "ok.txt");
    assert_eq!(files[0].1, b"hi".to_vec());
}
