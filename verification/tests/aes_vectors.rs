use aes::cipher::generic_array::GenericArray;
use aes::cipher::{BlockDecrypt, BlockEncrypt, KeyInit};
use block_cipher::InvalidKeyLength;
use block_padding::{Padding, Pkcs7};
use xts_mode::{BlockCipher, BlockModeError, NewBlockCipher, Xts};

struct Aes128(aes::Aes128);

impl BlockCipher for Aes128 {
    fn encrypt_block(&self, block: [u8; 16]) -> [u8; 16] {
        let mut b = GenericArray::from(block);
        self.0.encrypt_block(&mut b);
        b.into()
    }

    fn decrypt_block(&self, block: [u8; 16]) -> [u8; 16] {
        let mut b = GenericArray::from(block);
        self.0.decrypt_block(&mut b);
        b.into()
    }
}

impl NewBlockCipher for Aes128 {
    const KEY_SIZE: usize = 16;

    fn new_varkey(key: &[u8]) -> Result<Self, InvalidKeyLength> {
        match aes::Aes128::new_from_slice(key) {
            Ok(c) => Ok(Aes128(c)),
            Err(_) => Err(InvalidKeyLength),
        }
    }
}

struct Aes256(aes::Aes256);

impl BlockCipher for Aes256 {
    fn encrypt_block(&self, block: [u8; 16]) -> [u8; 16] {
        let mut b = GenericArray::from(block);
        self.0.encrypt_block(&mut b);
        b.into()
    }

    fn decrypt_block(&self, block: [u8; 16]) -> [u8; 16] {
        let mut b = GenericArray::from(block);
        self.0.decrypt_block(&mut b);
        b.into()
    }
}

impl NewBlockCipher for Aes256 {
    const KEY_SIZE: usize = 32;

    fn new_varkey(key: &[u8]) -> Result<Self, InvalidKeyLength> {
        match aes::Aes256::new_from_slice(key) {
            Ok(c) => Ok(Aes256(c)),
            Err(_) => Err(InvalidKeyLength),
        }
    }
}

fn hex(s: &str) -> Vec<u8> {
    let digits: Vec<u8> = s
        .bytes()
        .filter(|c| !c.is_ascii_whitespace())
        .map(|c| match c {
            b'0'..=b'9' => c - b'0',
            b'a'..=b'f' => c - b'a' + 10,
            _ => panic!("not a hex digit"),
        })
        .collect();
    assert_eq!(digits.len() % 2, 0);
    digits.chunks(2).map(|p| p[0] * 16 + p[1]).collect()
}

/// The initial value for a data unit sequence number: its bytes, least
/// significant first, filled up with zeros.
fn sector_iv(number: &str) -> [u8; 16] {
    let bytes = hex(number);
    let mut iv = [0u8; 16];
    iv[..bytes.len()].copy_from_slice(&bytes);
    iv
}

fn mode128(key1: &str, key2: &str, sector: &str) -> Xts<Aes128> {
    let mut key = hex(key1);
    key.extend(hex(key2));
    Xts::<Aes128>::new_var(&key, &sector_iv(sector)).ok().unwrap()
}

fn check_vector(key1: &str, key2: &str, sector: &str, plain: &str, crypt: &str) {
    let plain = hex(plain);
    let crypt = hex(crypt);

    let mut buf = plain.clone();
    let out = mode128(key1, key2, sector).encrypt(&mut buf, 0).ok().unwrap().to_vec();
    assert_eq!(out, crypt);
    assert_eq!(buf, crypt);

    let out = mode128(key1, key2, sector).decrypt(&mut buf).ok().unwrap().to_vec();
    assert_eq!(out, plain);
    assert_eq!(buf, plain);

    assert_eq!(mode128(key1, key2, sector).encrypt_vec(&plain), crypt);
    assert_eq!(mode128(key1, key2, sector).decrypt_vec(&crypt), Ok(plain));
}

const ZEROS: &str = "00000000000000000000000000000000";
const ONES: &str = "11111111111111111111111111111111";
const TWOS: &str = "22222222222222222222222222222222";
const FOURS: &str = "4444444444444444444444444444444444444444444444444444444444444444";
const DESCENDING_F: &str = "fffefdfcfbfaf9f8f7f6f5f4f3f2f1f0";
const DESCENDING_B: &str = "bfbebdbcbbbab9b8b7b6b5b4b3b2b1b0";

#[test]
fn ieee_1619_vector_1() {
    check_vector(
        ZEROS,
        ZEROS,
        "00",
        "0000000000000000000000000000000000000000000000000000000000000000",
        "917cf69ebd68b2ec9b9fe9a3eadda692cd43d2f59598ed858c02c2652fbf922e",
    );
}

#[test]
fn ieee_1619_vector_2() {
    check_vector(
        ONES,
        TWOS,
        "3333333333",
        FOURS,
        "c454185e6a16936e39334038acef838bfb186fff7480adc4289382ecd6d394f0",
    );
}

#[test]
fn ieee_1619_vector_3() {
    check_vector(
        DESCENDING_F,
        TWOS,
        "3333333333",
        FOURS,
        "af85336b597afc1a900b2eb21ec949d292df4c047e0b21532186a5971a227a89",
    );
}

#[test]
fn ieee_1619_vector_15_steals_one_byte() {
    check_vector(
        DESCENDING_F,
        DESCENDING_B,
        "9a78563412",
        "000102030405060708090a0b0c0d0e0f10",
        "6c1625db4671522d3d7599601de7ca09ed",
    );
}

#[test]
fn ieee_1619_vector_16_steals_two_bytes() {
    check_vector(
        DESCENDING_F,
        DESCENDING_B,
        "9a78563412",
        "000102030405060708090a0b0c0d0e0f1011",
        "d069444b7a7e0cab09e24447d24deb1fedbf",
    );
}

#[test]
fn ieee_1619_vector_17_steals_three_bytes() {
    check_vector(
        DESCENDING_F,
        DESCENDING_B,
        "9a78563412",
        "000102030405060708090a0b0c0d0e0f101112",
        "e5df1351c0544ba1350b3363cd8ef4beedbf9d",
    );
}

#[test]
fn ieee_1619_vector_18_steals_four_bytes() {
    check_vector(
        DESCENDING_F,
        DESCENDING_B,
        "9a78563412",
        "000102030405060708090a0b0c0d0e0f10111213",
        "9d84c813f719aa2c7be3f66171c7c5c2edbf9dac",
    );
}

fn sample(len: usize) -> Vec<u8> {
    (0..len).map(|i| (i * 7 + 3) as u8).collect()
}

#[test]
fn round_trip_for_every_length_from_one_block_to_five() {
    for len in 16..=80 {
        let plain = sample(len);
        let crypt = mode128(ONES, TWOS, "0102").encrypt_vec(&plain);
        assert_eq!(crypt.len(), len);
        assert_ne!(crypt, plain);
        let back = mode128(ONES, TWOS, "0102").decrypt_vec(&crypt);
        assert_eq!(back, Ok(plain));
    }
}

#[test]
fn round_trip_under_aes_256() {
    let key = sample(64);
    let iv = [9u8; 16];
    for len in [16usize, 17, 31, 32, 33, 100] {
        let plain = sample(len);
        let crypt = Xts::<Aes256>::new_var(&key, &iv).ok().unwrap().encrypt_vec(&plain);
        assert_eq!(crypt.len(), len);
        let back = Xts::<Aes256>::new_var(&key, &iv).ok().unwrap().decrypt_vec(&crypt);
        assert_eq!(back, Ok(plain));
    }
}

#[test]
fn ciphertext_is_as_long_as_the_plaintext() {
    for len in [16usize, 17, 30, 31, 32, 47, 48, 49, 511, 512, 513] {
        let mut buf = sample(len);
        let out = mode128(ZEROS, ONES, "07").encrypt(&mut buf, 0).ok().unwrap();
        assert_eq!(out.len(), len);
        assert_eq!(buf.len(), len);
    }
}

#[test]
fn seventeen_bytes_round_trip_and_differ_from_the_padded_blocks() {
    let plain = sample(17);
    let crypt = mode128(ONES, TWOS, "05").encrypt_vec(&plain);
    assert_eq!(crypt.len(), 17);
    assert_eq!(mode128(ONES, TWOS, "05").decrypt_vec(&crypt), Ok(plain.clone()));

    // The same bytes, padded to two whole blocks and encrypted block by block.
    let mut padded = [0u8; 32];
    padded[..17].copy_from_slice(&plain);
    assert_eq!(Pkcs7::pad(&mut padded, 17, 16).ok().unwrap().len(), 32);
    let mut blocks = mode128(ONES, TWOS, "05");
    blocks.encrypt_blocks(&mut padded);
    assert_ne!(&padded[..17], &crypt[..]);
    assert_ne!(&padded[..16], &crypt[..16]);
    // What ends the stolen ciphertext is the head of the first padded block.
    assert_eq!(padded[0], crypt[16]);
}

#[test]
fn same_key_and_iv_give_the_same_ciphertext() {
    for len in [16usize, 29, 64] {
        let plain = sample(len);
        let first = mode128(DESCENDING_F, DESCENDING_B, "2a").encrypt_vec(&plain);
        let second = mode128(DESCENDING_F, DESCENDING_B, "2a").encrypt_vec(&plain);
        assert_eq!(first, second);
    }
}

#[test]
fn another_iv_gives_another_ciphertext() {
    let plain = sample(48);
    let first = mode128(ONES, TWOS, "01").encrypt_vec(&plain);
    let second = mode128(ONES, TWOS, "02").encrypt_vec(&plain);
    assert_ne!(first[..16], second[..16]);
    assert_ne!(first[16..32], second[16..32]);
    assert_ne!(first[32..], second[32..]);
}

#[test]
fn equal_blocks_at_different_places_encrypt_differently() {
    let plain = [0x5au8; 48];
    let crypt = mode128(ONES, TWOS, "01").encrypt_vec(&plain);
    assert_ne!(crypt[..16], crypt[16..32]);
    assert_ne!(crypt[16..32], crypt[32..]);
}

#[test]
fn a_flipped_bit_spoils_its_own_block_only() {
    let plain = sample(80);
    let crypt = mode128(ONES, TWOS, "0b").encrypt_vec(&plain);
    for block in 0..5 {
        let mut damaged = crypt.clone();
        damaged[16 * block + 5] ^= 0x10;
        let back = mode128(ONES, TWOS, "0b").decrypt_vec(&damaged).ok().unwrap();
        for other in 0..5 {
            let range = 16 * other..16 * other + 16;
            if other == block {
                assert_ne!(back[range.clone()], plain[range]);
            } else {
                assert_eq!(back[range.clone()], plain[range]);
            }
        }
    }
}

#[test]
fn a_flipped_bit_before_the_stolen_blocks_spoils_its_own_block_only() {
    // 4 whole blocks and 7 bytes: blocks 0..3 stand clear of the stealing.
    let plain = sample(71);
    let crypt = mode128(ONES, TWOS, "0c").encrypt_vec(&plain);
    for block in 0..3 {
        let mut damaged = crypt.clone();
        damaged[16 * block] ^= 0x01;
        let back = mode128(ONES, TWOS, "0c").decrypt_vec(&damaged).ok().unwrap();
        assert_ne!(back[16 * block..16 * block + 16], plain[16 * block..16 * block + 16]);
        assert_eq!(back[..16 * block], plain[..16 * block]);
        assert_eq!(back[16 * block + 16..], plain[16 * block + 16..]);
    }
}

#[test]
fn new_takes_the_tweak_as_it_is() {
    let key1 = hex(ONES);
    let key2 = hex(TWOS);
    let iv = sector_iv("3333333333");
    let tweak = Aes128::new_varkey(&key2).ok().unwrap().encrypt_block(iv);
    let plain = hex(FOURS);

    let mode = Xts::new(Aes128::new_varkey(&key1).ok().unwrap(), &tweak);
    assert_eq!(
        mode.encrypt_vec(&plain),
        hex("c454185e6a16936e39334038acef838bfb186fff7480adc4289382ecd6d394f0")
    );

    // With the initial value itself for a tweak the result is another.
    let mode = Xts::new(Aes128::new_varkey(&key1).ok().unwrap(), &iv);
    assert_ne!(
        mode.encrypt_vec(&plain),
        hex("c454185e6a16936e39334038acef838bfb186fff7480adc4289382ecd6d394f0")
    );
}

#[test]
fn encrypt_blocks_leaves_the_bytes_behind_the_last_whole_block() {
    let plain = sample(37);
    let mut buf = plain.clone();
    let mut mode = mode128(ONES, TWOS, "01");
    mode.encrypt_blocks(&mut buf);
    assert_eq!(buf[32..], plain[32..]);
    assert_eq!(buf[..32], mode128(ONES, TWOS, "01").encrypt_vec(&plain[..32])[..]);

    let mut mode = mode128(ONES, TWOS, "01");
    mode.decrypt_blocks(&mut buf);
    assert_eq!(buf, plain);
}

#[test]
fn encrypt_blocks_goes_on_where_the_last_call_ended() {
    let plain = sample(64);
    let whole = mode128(ONES, TWOS, "01").encrypt_vec(&plain);
    let mut buf = plain.clone();
    let mut mode = mode128(ONES, TWOS, "01");
    let (front, back) = buf.split_at_mut(32);
    mode.encrypt_blocks(front);
    mode.encrypt_blocks(back);
    assert_eq!(buf, whole);
}

#[test]
fn blocks_of_a_short_buffer_are_none() {
    let mut buf = sample(15);
    let mut mode = mode128(ONES, TWOS, "01");
    mode.encrypt_blocks(&mut buf);
    assert_eq!(buf, sample(15));
    mode.decrypt_blocks(&mut buf);
    assert_eq!(buf, sample(15));
    // The tweak has not moved: the next block is encrypted as the first.
    let mut block = sample(16);
    mode.encrypt_blocks(&mut block);
    assert_eq!(block, mode128(ONES, TWOS, "01").encrypt_vec(&sample(16)));
}

#[test]
fn the_position_argument_is_not_read() {
    let plain = sample(40);
    let mut a = plain.clone();
    let mut b = plain.clone();
    let mut c = plain.clone();
    mode128(ONES, TWOS, "01").encrypt(&mut a, 0).ok().unwrap();
    mode128(ONES, TWOS, "01").encrypt(&mut b, 40).ok().unwrap();
    mode128(ONES, TWOS, "01").encrypt(&mut c, usize::MAX).ok().unwrap();
    assert_eq!(a, b);
    assert_eq!(a, c);
}

#[test]
fn encrypt_refuses_less_than_a_block() {
    for len in 0..16 {
        let mut buf = sample(len);
        let r = mode128(ONES, TWOS, "01").encrypt(&mut buf, 0);
        assert_eq!(r, Err(BlockModeError));
        assert_eq!(buf, sample(len));
    }
}

#[test]
fn decrypt_refuses_less_than_a_block() {
    for len in 0..16 {
        let mut buf = sample(len);
        let r = mode128(ONES, TWOS, "01").decrypt(&mut buf);
        assert_eq!(r, Err(BlockModeError));
        assert_eq!(buf, sample(len));
        assert_eq!(mode128(ONES, TWOS, "01").decrypt_vec(&sample(len)), Err(BlockModeError));
    }
}

#[test]
fn one_block_is_the_shortest_message() {
    let plain = sample(16);
    let crypt = mode128(ONES, TWOS, "01").encrypt_vec(&plain);
    let tweak = Aes128::new_varkey(&hex(TWOS)).ok().unwrap().encrypt_block(sector_iv("01"));
    let data = Aes128::new_varkey(&hex(ONES)).ok().unwrap();
    let mut block = [0u8; 16];
    for i in 0..16 {
        block[i] = plain[i] ^ tweak[i];
    }
    let mut expected = data.encrypt_block(block);
    for i in 0..16 {
        expected[i] ^= tweak[i];
    }
    assert_eq!(crypt, expected.to_vec());
}

#[test]
fn the_vectors_copy_and_leave_the_input() {
    let plain = sample(33);
    let crypt = mode128(ONES, TWOS, "01").encrypt_vec(&plain);
    assert_eq!(plain, sample(33));
    let kept = crypt.clone();
    let back = mode128(ONES, TWOS, "01").decrypt_vec(&crypt).ok().unwrap();
    assert_eq!(crypt, kept);
    assert_eq!(back, plain);
}
