use block_cipher::InvalidKeyLength;
use xts_mode::tweak::get_next_tweak;
use xts_mode::{BlockCipher, InvalidKeyIvLength, NewBlockCipher, Xts};

/// A cipher with 3-byte keys that moves every byte one place down and adds
/// a key byte to it. It refuses keys that start with `0xff`.
struct Shift {
    key: [u8; 3],
}

impl BlockCipher for Shift {
    fn encrypt_block(&self, block: [u8; 16]) -> [u8; 16] {
        let mut out = [0u8; 16];
        for i in 0..16 {
            out[i] = block[(i + 1) % 16].wrapping_add(self.key[i % 3]);
        }
        out
    }

    fn decrypt_block(&self, block: [u8; 16]) -> [u8; 16] {
        let mut out = [0u8; 16];
        for i in 0..16 {
            out[(i + 1) % 16] = block[i].wrapping_sub(self.key[i % 3]);
        }
        out
    }
}

impl NewBlockCipher for Shift {
    const KEY_SIZE: usize = 3;

    fn new_varkey(key: &[u8]) -> Result<Self, InvalidKeyLength> {
        if key.len() != 3 || key[0] == 0xff {
            return Err(InvalidKeyLength);
        }
        Ok(Shift { key: [key[0], key[1], key[2]] })
    }
}

/// A cipher that must never be asked for anything.
struct Untouchable;

impl BlockCipher for Untouchable {
    fn encrypt_block(&self, _block: [u8; 16]) -> [u8; 16] {
        panic!("a block was handed to the cipher")
    }

    fn decrypt_block(&self, _block: [u8; 16]) -> [u8; 16] {
        panic!("a block was handed to the cipher")
    }
}

impl NewBlockCipher for Untouchable {
    const KEY_SIZE: usize = 16;

    fn new_varkey(_key: &[u8]) -> Result<Self, InvalidKeyLength> {
        panic!("a key was handed to the cipher")
    }
}

/// A cipher whose key size cannot be doubled.
struct Huge;

impl BlockCipher for Huge {
    fn encrypt_block(&self, block: [u8; 16]) -> [u8; 16] {
        block
    }

    fn decrypt_block(&self, block: [u8; 16]) -> [u8; 16] {
        block
    }
}

impl NewBlockCipher for Huge {
    const KEY_SIZE: usize = usize::MAX;

    fn new_varkey(_key: &[u8]) -> Result<Self, InvalidKeyLength> {
        Ok(Huge)
    }
}

fn is_refused<C: BlockCipher + NewBlockCipher>(key: &[u8], iv: &[u8]) -> bool {
    match Xts::<C>::new_var(key, iv) {
        Ok(_) => false,
        Err(e) => e == InvalidKeyIvLength,
    }
}

const IV: [u8; 16] = [10, 11, 12, 13, 14, 15, 16, 17, 18, 19, 20, 21, 22, 23, 24, 25];

#[test]
fn a_key_of_the_wrong_length_is_refused() {
    for len in [0usize, 1, 3, 5, 7, 12, 16, 32] {
        let key = vec![1u8; len];
        assert!(is_refused::<Shift>(&key, &IV));
    }
}

#[test]
fn an_iv_of_the_wrong_length_is_refused() {
    for len in [0usize, 1, 15, 17, 32] {
        let iv = vec![1u8; len];
        assert!(is_refused::<Shift>(&[1, 2, 3, 4, 5, 6], &iv));
    }
}

#[test]
fn wrong_lengths_are_refused_before_the_cipher_is_asked() {
    assert!(is_refused::<Untouchable>(&[0u8; 31], &[0u8; 16]));
    assert!(is_refused::<Untouchable>(&[0u8; 33], &[0u8; 16]));
    assert!(is_refused::<Untouchable>(&[0u8; 16], &[0u8; 16]));
    assert!(is_refused::<Untouchable>(&[0u8; 0], &[0u8; 16]));
    assert!(is_refused::<Untouchable>(&[0u8; 32], &[0u8; 15]));
    assert!(is_refused::<Untouchable>(&[0u8; 32], &[0u8; 17]));
    assert!(is_refused::<Untouchable>(&[0u8; 32], &[0u8; 0]));
    assert!(is_refused::<Untouchable>(&[0u8; 31], &[0u8; 15]));
}

#[test]
fn a_key_size_that_cannot_be_doubled_refuses_every_key() {
    assert!(is_refused::<Huge>(&[0u8; 32], &[0u8; 16]));
    assert!(is_refused::<Huge>(&[], &[0u8; 16]));
}

#[test]
fn a_half_that_the_cipher_refuses_is_refused() {
    assert!(is_refused::<Shift>(&[0xff, 2, 3, 4, 5, 6], &IV));
    assert!(is_refused::<Shift>(&[1, 2, 3, 0xff, 5, 6], &IV));
    assert!(is_refused::<Shift>(&[0xff, 2, 3, 0xff, 5, 6], &IV));
    assert!(!is_refused::<Shift>(&[1, 0xff, 3, 4, 5, 0xff], &IV));
}

#[test]
fn the_first_half_keys_the_data_and_the_second_the_tweak() {
    let key = [1u8, 2, 3, 4, 5, 6];
    let plain: Vec<u8> = (100u8..132).collect();

    // The first tweak: the initial value under the second half of the key.
    let mut tweak = [0u8; 16];
    for i in 0..16 {
        tweak[i] = IV[(i + 1) % 16].wrapping_add(key[3 + i % 3]);
    }
    assert_eq!(tweak[0], 15);
    assert_eq!(tweak[15], 14);

    // Each block: masked, shifted and keyed by the first half, masked again.
    let mut expected = Vec::new();
    for block in 0..2 {
        let p = &plain[16 * block..16 * block + 16];
        for i in 0..16 {
            let next = (i + 1) % 16;
            let e = (p[next] ^ tweak[next]).wrapping_add(key[i % 3]);
            expected.push(e ^ tweak[i]);
        }
        get_next_tweak(&mut tweak);
    }

    let crypt = Xts::<Shift>::new_var(&key, &IV).ok().unwrap().encrypt_vec(&plain);
    assert_eq!(crypt, expected);
    // ((101 ^ 17) + 1) ^ 15
    assert_eq!(crypt[0], 122);

    let back = Xts::<Shift>::new_var(&key, &IV).ok().unwrap().decrypt_vec(&crypt);
    assert_eq!(back, Ok(plain));
}

#[test]
fn new_var_is_new_with_the_encrypted_iv() {
    let key = [9u8, 8, 7, 6, 5, 4];
    let plain: Vec<u8> = (0u8..45).collect();
    let tweak = Shift::new_varkey(&key[3..]).ok().unwrap().encrypt_block(IV);
    let by_hand = Xts::new(Shift::new_varkey(&key[..3]).ok().unwrap(), &tweak);
    let derived = Xts::<Shift>::new_var(&key, &IV).ok().unwrap();
    assert_eq!(by_hand.encrypt_vec(&plain), derived.encrypt_vec(&plain));
}

#[test]
fn stealing_under_the_shift_cipher_by_hand() {
    // One whole block and three bytes, under a tweak taken as it is.
    let cipher = Shift { key: [1, 2, 3] };
    let tweak0 = IV;
    let mut tweak1 = IV;
    get_next_tweak(&mut tweak1);
    let plain: Vec<u8> = (50u8..69).collect();

    let xex = |block: [u8; 16], tweak: [u8; 16]| {
        let mut masked = [0u8; 16];
        for i in 0..16 {
            masked[i] = block[i] ^ tweak[i];
        }
        let mut out = Shift { key: [1, 2, 3] }.encrypt_block(masked);
        for i in 0..16 {
            out[i] ^= tweak[i];
        }
        out
    };

    let mut first = [0u8; 16];
    first.copy_from_slice(&plain[..16]);
    let full = xex(first, tweak0);
    let mut filled = full;
    filled[..3].copy_from_slice(&plain[16..]);
    let stolen = xex(filled, tweak1);
    let mut expected = stolen.to_vec();
    expected.extend_from_slice(&full[..3]);

    let crypt = Xts::new(cipher, &IV).encrypt_vec(&plain);
    assert_eq!(crypt, expected);
    let back = Xts::new(Shift { key: [1, 2, 3] }, &IV).decrypt_vec(&crypt);
    assert_eq!(back, Ok(plain));
}
