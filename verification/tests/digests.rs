use nymx::digest::FileHasher;
use nymx::protocol::hash_to_hex;

#[test]
fn digests_are_those_of_the_published_vectors() {
    let empty = FileHasher::new();
    assert_eq!(empty.hex_digest(), "9c1185a5c5e9fc54612808977ee8f548b2258d31");
    let mut abc = FileHasher::new();
    abc.update(b"abc");
    assert_eq!(abc.hex_digest(), "8eb208f7e05d987a9b044a8e98c6b087f15a0bfc");
    assert_eq!(hash_to_hex(&abc.digest()), abc.hex_digest());
}

#[test]
fn digests_do_not_depend_on_the_pieces() {
    let data: Vec<u8> = (0..1000u32).map(|i| (i % 251) as u8).collect();
    let mut whole = FileHasher::new();
    whole.update(&data);
    let mut pieces = FileHasher::new();
    for piece in data.chunks(37) {
        pieces.update(piece);
    }
    assert_eq!(whole.digest(), pieces.digest());
}

#[test]
fn a_digest_leaves_the_hasher_as_it_is() {
    let mut hasher = FileHasher::new();
    hasher.update(b"ab");
    let _ = hasher.digest();
    hasher.update(b"c");
    assert_eq!(hasher.hex_digest(), "8eb208f7e05d987a9b044a8e98c6b087f15a0bfc");
    assert!(hasher.has_room(1_000_000));
}
