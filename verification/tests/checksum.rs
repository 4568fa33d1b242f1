use laplace::resolve::checksum::{checksum_files, hex_of, PackageFile};
use sha2::Digest;

fn file(path: &[&str], contents: &[u8]) -> PackageFile {
    PackageFile {
        path: path.iter().map(|c| c.to_string()).collect(),
        contents: contents.to_vec(),
    }
}

#[test]
fn no_files_have_the_digest_of_nothing() {
    assert_eq!(
        checksum_files(vec![]),
        "sha256:e3b0c44298fc1c149afbf4c8996fb92427ae41e4649b934ca495991b7852b855"
    );
}

#[test]
fn path_and_contents_are_hashed_with_zero_bytes_behind_them() {
    let expected = sha2::Sha256::digest(b"dir/a.stan\0abc\0");
    assert_eq!(
        checksum_files(vec![file(&["dir", "a.stan"], b"abc")]),
        format!("sha256:{expected:x}")
    );
}

#[test]
fn files_are_hashed_in_the_order_of_their_paths() {
    // By components: `a/b` comes before `a.txt`, whose name is longer than `a`.
    let expected = sha2::Sha256::digest(b"a/b\x001\0a.txt\x002\0");
    let one = file(&["a", "b"], b"1");
    let two = file(&["a.txt"], b"2");
    assert_eq!(checksum_files(vec![one, two]), format!("sha256:{expected:x}"));
    let one = file(&["a", "b"], b"1");
    let two = file(&["a.txt"], b"2");
    assert_eq!(checksum_files(vec![two, one]), format!("sha256:{expected:x}"));
}

#[test]
fn backslashes_count_as_slashes() {
    assert_eq!(
        checksum_files(vec![file(&["a\\b"], b"x")]),
        checksum_files(vec![file(&["a", "b"], b"x")])
    );
}

#[test]
fn a_changed_byte_changes_the_checksum() {
    assert_ne!(
        checksum_files(vec![file(&["a"], b"x")]),
        checksum_files(vec![file(&["a"], b"y")])
    );
}

#[test]
fn bytes_are_written_with_two_digits() {
    assert_eq!(hex_of(&[0, 9, 10, 15, 16, 255]), "00090a0f10ff");
}
