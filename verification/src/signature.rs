//! Fixed-width component bit signatures.
//!
//! A signature is a packed array of 64-bit words with one bit per known
//! component.  Chunks are keyed by signature, and a group of components
//! matches a chunk when the group's signature is a subset of the chunk's.

use vstd::prelude::*;

verus! {

/// The number of signature bits each word holds.
pub const FIELD_SIZE_BITS: usize = 64;

/// A packed bitset with one bit per known component.
#[derive(Debug)]
pub struct GeneratedComponentBitField {
    fields: Vec<u64>,
}

/// Whether bit `index` of word `w` is set.
pub open spec fn word_bit(w: u64, index: int) -> bool {
    (w >> (index as u64)) & 1 == 1
}

impl GeneratedComponentBitField {
    /// The packed words.
    pub closed spec fn words(self) -> Seq<u64> {
        self.fields@
    }

    /// The number of bits the signature can hold.
    pub open spec fn capacity(self) -> int {
        self.words().len() as int * 64
    }

    /// Whether bit `index` is set.
    pub open spec fn has_bit(self, index: int) -> bool {
        0 <= index < self.capacity() && word_bit(self.words()[index / 64], index % 64)
    }

    /// Whether every bit of `sub` is also set in `self`.
    pub open spec fn spec_superset_of(self, sub: GeneratedComponentBitField) -> bool {
        forall|i: int| #[trigger] sub.has_bit(i) ==> self.has_bit(i)
    }

    /// An empty signature of `num_fields` words.
    pub fn new(num_fields: usize) -> (r: GeneratedComponentBitField)
        ensures
            r.words().len() == num_fields,
            forall|i: int| !r.has_bit(i),
    {
        let mut fields: Vec<u64> = Vec::new();
        let mut i: usize = 0;
        while i < num_fields
            invariant
                i <= num_fields,
                fields@.len() == i,
                forall|j: int| 0 <= j < i ==> fields@[j] == 0u64,
            decreases num_fields - i,
        {
            fields.push(0);
            i = i + 1;
        }
        let r = GeneratedComponentBitField { fields };
        proof {
            assert forall|k: int| !r.has_bit(k) by {
                if 0 <= k < r.capacity() {
                    let w = r.words()[k / 64];
                    assert(w == 0u64);
                    let offu: u64 = (k % 64) as u64;
                    assert((0u64 >> offu) & 1 == 0) by (bit_vector);
                }
            }
        }
        r
    }

    /// A signature setting exactly the same bits.
    pub fn duplicate(&self) -> (r: GeneratedComponentBitField)
        ensures
            r.words() == self.words(),
    {
        let mut fields: Vec<u64> = Vec::new();
        let n = self.fields.len();
        let mut i: usize = 0;
        while i < n
            invariant
                i <= n,
                n == self.words().len(),
                fields@ =~= self.words().subrange(0, i as int),
            decreases n - i,
        {
            fields.push(self.fields[i]);
            i = i + 1;
        }
        proof {
            assert(fields@ =~= self.words());
        }
        GeneratedComponentBitField { fields }
    }

    /// The number of words.
    pub fn num_words(&self) -> (r: usize)
        ensures
            r == self.words().len(),
    {
        self.fields.len()
    }

    /// Sets bit `index`, leaving every other bit as it was.
    pub fn set_bit(&mut self, index: usize)
        requires
            index < old(self).capacity(),
        ensures
            final(self).words().len() == old(self).words().len(),
            final(self).has_bit(index as int),
            forall|i: int| i != index ==> final(self).has_bit(i) == old(self).has_bit(i),
    {
        let word_index = index / FIELD_SIZE_BITS;
        let offset = (index % FIELD_SIZE_BITS) as u64;
        let w = self.fields[word_index];
        self.fields[word_index] = w | (1u64 << offset);
        proof {
            let nw = w | (1u64 << offset);
            assert forall|k: u64| k < 64 implies (nw >> k) & 1 == if k == offset {
                1u64
            } else {
                (w >> k) & 1
            } by {
                let wl = w;
                assert(k < 64 && offset < 64 ==> ((wl | (1u64 << offset)) >> k) & 1 == (if k
                    == offset {
                    1u64
                } else {
                    (wl >> k) & 1
                })) by (bit_vector);
            }
            assert(self.has_bit(index as int));
            assert forall|i: int| i != index implies self.has_bit(i) == old(self).has_bit(i) by {
                if 0 <= i < self.capacity() {
                    if i / 64 == index as int / 64 {
                        assert(i % 64 != index as int % 64) by {
                            vstd::arithmetic::div_mod::lemma_fundamental_div_mod(i, 64);
                            vstd::arithmetic::div_mod::lemma_fundamental_div_mod(index as int, 64);
                        }
                        assert(0 <= i % 64 < 64);
                    }
                }
            }
        }
    }

    /// Clears bit `index`, leaving every other bit as it was.
    pub fn clear_bit(&mut self, index: usize)
        requires
            index < old(self).capacity(),
        ensures
            final(self).words().len() == old(self).words().len(),
            !final(self).has_bit(index as int),
            forall|i: int| i != index ==> final(self).has_bit(i) == old(self).has_bit(i),
    {
        let word_index = index / FIELD_SIZE_BITS;
        let offset = (index % FIELD_SIZE_BITS) as u64;
        let w = self.fields[word_index];
        self.fields[word_index] = w & (!(1u64 << offset));
        proof {
            let nw = w & (!(1u64 << offset));
            assert forall|k: u64| k < 64 implies (nw >> k) & 1 == if k == offset {
                0u64
            } else {
                (w >> k) & 1
            } by {
                let wl = w;
                assert(k < 64 && offset < 64 ==> ((wl & (!(1u64 << offset))) >> k) & 1 == (if k
                    == offset {
                    0u64
                } else {
                    (wl >> k) & 1
                })) by (bit_vector);
            }
            assert(!self.has_bit(index as int));
            assert forall|i: int| i != index implies self.has_bit(i) == old(self).has_bit(i) by {
                if 0 <= i < self.capacity() {
                    if i / 64 == index as int / 64 {
                        assert(i % 64 != index as int % 64) by {
                            vstd::arithmetic::div_mod::lemma_fundamental_div_mod(i, 64);
                            vstd::arithmetic::div_mod::lemma_fundamental_div_mod(index as int, 64);
                        }
                        assert(0 <= i % 64 < 64);
                    }
                }
            }
        }
    }

    /// Whether bit `index` is set.
    pub fn get_bit(&self, index: usize) -> (r: bool)
        requires
            index < self.capacity(),
        ensures
            r == self.has_bit(index as int),
    {
        let word_index = index / FIELD_SIZE_BITS;
        let offset = (index % FIELD_SIZE_BITS) as u64;
        let w = self.fields[word_index];
        ((w >> offset) & 1) == 1
    }

    /// Whether the two signatures set exactly the same words.
    pub fn equals(&self, other: &GeneratedComponentBitField) -> (r: bool)
        ensures
            r == (self.words() == other.words()),
    {
        if self.fields.len() != other.fields.len() {
            return false;
        }
        let n = self.fields.len();
        let mut i: usize = 0;
        while i < n
            invariant
                i <= n,
                n == self.words().len() == other.words().len(),
                forall|j: int| 0 <= j < i ==> self.words()[j] == other.words()[j],
            decreases n - i,
        {
            if self.fields[i] != other.fields[i] {
                return false;
            }
            i = i + 1;
        }
        proof {
            assert(self.words() =~= other.words());
        }
        true
    }

    /// Whether every bit of `sub` is also set in `self`: the chunk-matching
    /// test, with `self` the chunk's signature and `sub` the group's.
    pub fn is_subset(&self, sub: &GeneratedComponentBitField) -> (r: bool)
        requires
            sub.words().len() == self.words().len(),
        ensures
            r == self.spec_superset_of(*sub),
    {
        let n = self.fields.len();
        let mut i: usize = 0;
        while i < n
            invariant
                i <= n,
                n == self.words().len() == sub.words().len(),
                forall|k: int|
                    0 <= k < i * 64 ==> (#[trigger] sub.has_bit(k) ==> self.has_bit(k)),
            decreases n - i,
        {
            let a = self.fields[i];
            let b = sub.fields[i];
            if (!a) & b != 0 {
                let w = (!a) & b;
                let tz = w.trailing_zeros() as usize;
                proof {
                    vstd::std_specs::bits::axiom_u64_trailing_zeros(w);
                    let al = a;
                    let bl = b;
                    let offu = tz as u64;
                    assert(offu < 64 && (w >> offu) & 1 == 1);
                    assert((w == ((!al) & bl) && offu < 64 && (w >> offu) & 1 == 1) ==> ((bl
                        >> offu) & 1 == 1 && (al >> offu) & 1 != 1)) by (bit_vector);
                    let k: int = i as int * 64 + tz as int;
                    assert(0 <= k < n as int * 64 && k / 64 == i as int && k % 64 == tz as int)
                        by (nonlinear_arith)
                        requires
                            0 <= (i as int) < (n as int),
                            0 <= (tz as int) < 64,
                            k == i as int * 64 + tz as int,
                    ;
                    assert(sub.has_bit(k));
                    assert(!self.has_bit(k));
                }
                return false;
            }
            proof {
                let al = a;
                let bl = b;
                assert forall|k: int| i * 64 <= k < (i + 1) * 64 implies (#[trigger] sub.has_bit(k)
                    ==> self.has_bit(k)) by {
                    assert(k / 64 == i && 0 <= k % 64 < 64) by (nonlinear_arith)
                        requires
                            0 <= i,
                            i * 64 <= k < (i + 1) * 64,
                    ;
                    let off = (k % 64) as u64;
                    assert(((!al) & bl == 0 && off < 64) ==> (((bl >> off) & 1 == 1) ==> ((al
                        >> off) & 1 == 1))) by (bit_vector);
                }
            }
            i = i + 1;
        }
        proof {
            assert forall|k: int| #[trigger] sub.has_bit(k) implies self.has_bit(k) by {
                assert(0 <= k < n * 64);
            }
        }
        true
    }
}

} // verus!
