use jsonpatch::PatchError;
use jsonpatch::encode_pointer;
use jsonpatch::parse_pointer;

#[test]
fn root_pointer_is_empty_path() {
    let p = parse_pointer("").unwrap();
    assert!(p.segments.is_empty());
}

#[test]
fn plain_segments_split_on_slash() {
    let p = parse_pointer("/a/b/c").unwrap();
    assert_eq!(p.segments, vec!["a".to_string(), "b".to_string(), "c".to_string()]);
}

#[test]
fn empty_segments_are_kept() {
    let p = parse_pointer("/").unwrap();
    assert_eq!(p.segments, vec!["".to_string()]);
    let q = parse_pointer("//x").unwrap();
    assert_eq!(q.segments, vec!["".to_string(), "x".to_string()]);
}

#[test]
fn escapes_decode_to_slash_and_tilde() {
    let p = parse_pointer("/a~1b/c~0d").unwrap();
    assert_eq!(p.segments, vec!["a/b".to_string(), "c~d".to_string()]);
}

#[test]
fn missing_leading_slash_is_invalid() {
    assert_eq!(parse_pointer("abc").unwrap_err(), PatchError::InvalidPathSyntax);
}

#[test]
fn bad_escape_is_invalid() {
    assert_eq!(parse_pointer("/a~2b").unwrap_err(), PatchError::InvalidPathSyntax);
    assert_eq!(parse_pointer("/a~").unwrap_err(), PatchError::InvalidPathSyntax);
}

#[test]
fn encode_escapes_slash_and_tilde() {
    let p = parse_pointer("/a~1b/c~0d").unwrap();
    assert_eq!(encode_pointer(&p), "/a~1b/c~0d");
}

#[test]
fn encode_then_parse_round_trips() {
    for s in ["", "/a/b", "/x~0y", "/~1", "/0/12/345"] {
        let p = parse_pointer(s).unwrap();
        assert_eq!(encode_pointer(&p), s);
    }
}
