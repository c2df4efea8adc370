//! SHA-1 against its fixed vectors, and the deterministic
//! pseudo-random outputs.
use torain::sha1::Sha1;
use torain::tinymt::TinyMT;

#[test]
fn normal() {
    let mut sha = Sha1::new();
    sha.append_hash(b"abc");
    assert_eq!(
        sha.get_hash(),
        [
            169, 153, 62, 54, 71, 6, 129, 106, 186, 62, 37, 113, 120, 80, 194, 108, 156, 208,
            216, 157
        ]
    );
}

#[test]
fn ascii_hash() {
    let mut sha = Sha1::new();
    sha.append_hash(b"abc");
    assert_eq!(sha.get_ascii_hash().unwrap(), "a9993e364706816aba3e25717850c26c9cd0d89d");
}

#[test]
fn ascii_hash_d() {
    let mut sha = Sha1::new();
    sha.append_hash(b"abcd");
    assert_eq!(sha.get_ascii_hash().unwrap(), "81fe8bfe87576c3ecb22426f8e57847382917acf");
}

#[test]
fn long_residue_needs_extra_block() {
    // 56 bytes leaves no room for the length suffix in the same block
    let mut sha = Sha1::new();
    let msg = [b'a'; 56];
    sha.append_hash(&msg);
    assert_eq!(sha.get_ascii_hash().unwrap(), "c2db330f6083854c99d4b5bfb6e8f29f201be699");

    let mut sha = Sha1::new();
    let msg = [b'a'; 64];
    sha.append_hash(&msg);
    assert_eq!(sha.get_ascii_hash().unwrap(), "0098ba824b5c16427bd7a1122a5a442a25ec644d");
}

#[test]
fn rand() {
    let rand = TinyMT::rand(1);
    assert_eq!(rand, 1255019984);
}

#[test]
fn rand_prime() {
    // 7823 is prime
    let rand = TinyMT::rand(7823);
    assert_eq!(rand, 4180267476);
}
