use core::hash::{BuildHasher, Hash, Hasher};
use foldhash::quality::{FixedState, FoldHasher};
use haph::hasher::{displace, slot};
use haph::{hash, MapHasher};

struct Fold(FoldHasher);

impl MapHasher<u8> for Fold {
    fn seeded(seed: u64) -> Self {
        Self::new_with_seed(&seed)
    }

    fn absorbing(mut self, key: u8) -> Self {
        self.absorb(&key);
        self
    }

    fn triple(self) -> (u16, u16, u16) {
        self.finish_triple()
    }

    fn new_with_seed(seed: &u64) -> Self {
        Fold(FixedState::with_seed(*seed).build_hasher())
    }

    fn absorb(&mut self, key: &u8) {
        key.hash(&mut self.0);
    }

    fn finish_triple(&self) -> (u16, u16, u16) {
        let output = self.0.finish();
        ((output >> 32) as u16, (output >> 16) as u16, output as u16)
    }
}

#[test]
fn hash_is_repeatable() {
    let a = hash::<u8, Fold>(&7, &42);
    let b = hash::<u8, Fold>(&7, &42);
    assert_eq!(a, b);
}

#[test]
fn hash_follows_the_three_steps() {
    let mut hasher = Fold::new_with_seed(&9);
    hasher.absorb(&200);
    assert_eq!(hash::<u8, Fold>(&200, &9), hasher.finish_triple());
}

#[test]
fn displace_adds_the_product_and_both_offsets() {
    assert_eq!(displace(3, 4, 5, 6), 25);
    assert_eq!(displace(0, 0, 0, 0), 0);
    assert_eq!(displace(7, 0, 1, 0), 7);
}

#[test]
fn displace_wraps_at_the_word_width() {
    assert_eq!(displace(0xffff, 0xffff, 0xffff, 0xffff), 0xffff);
    assert_eq!(displace(0x8000, 1, 2, 0), 1);
    assert_eq!(displace(1, 0xffff, 1, 1), 1);
}

#[test]
fn slot_reduces_the_displaced_word() {
    assert_eq!(slot((0, 3, 4), (5, 6), 7), 25 % 7);
    assert_eq!(slot((9, 0xffff, 0xffff), (0xffff, 0xffff), 10), 0xffff % 10);
    assert_eq!(slot((9, 1, 2), (3, 4), 1), 0);
}
