use smallvec::SmallVec;
use vstd::prelude::*;
use vstd::std_specs::bits::{axiom_u64_trailing_zeros, u64_trailing_zeros};

verus! {

/// The words of a bitmap, held in a `SmallVec<[u64; 1]>` of the smallvec
/// crate (one word inline, more on the heap).
#[verifier::external_body]
pub struct Buckets {
    inner: SmallVec<[u64; 1]>,
}

/// The words that a `Buckets` holds, in order.
pub uninterp spec fn bucket_words(b: Buckets) -> Seq<u64>;

/// `SmallVec::from_elem` of smallvec: its source builds a vector of `n` clones
/// of `elem` (on the heap through `vec!` when `n` exceeds the inline capacity).
#[verifier::external_body]
fn words_from_elem(elem: u64, n: usize) -> (b: Buckets)
    ensures
        bucket_words(b) == Seq::new(n as nat, |_i: int| elem),
{
    Buckets { inner: SmallVec::from_elem(elem, n) }
}

/// `SmallVec::len` of smallvec: the number of elements stored.
#[verifier::external_body]
fn words_len(b: &Buckets) -> (r: usize)
    ensures
        r == bucket_words(*b).len(),
{
    b.inner.len()
}

/// `Index<usize>` of smallvec's `SmallVec`, which indexes the slice of its
/// elements; it panics out of bounds, which `requires` leaves out.
#[verifier::external_body]
fn word_at(b: &Buckets, i: usize) -> (r: u64)
    requires
        i < bucket_words(*b).len(),
    ensures
        r == bucket_words(*b)[i as int],
{
    b.inner[i]
}

/// `IndexMut<usize>` of smallvec's `SmallVec`: writes one element of its
/// slice and leaves the others and the length as they were.
#[verifier::external_body]
fn set_word(b: &mut Buckets, i: usize, w: u64)
    requires
        i < bucket_words(*old(b)).len(),
    ensures
        bucket_words(*final(b)) == bucket_words(*old(b)).update(i as int, w),
{
    b.inner[i] = w;
}

/// `Clone` of smallvec's `SmallVec`: its source collects clones of the
/// elements in order, and a `u64` clone is the same value.
#[verifier::external_body]
fn words_clone(b: &Buckets) -> (r: Buckets)
    ensures
        bucket_words(r) == bucket_words(*b),
{
    Buckets { inner: b.inner.clone() }
}

/// Bit `b` of a word.
pub open spec fn bit_of(w: u64, b: int) -> bool {
    (w >> (b as u64)) & 1u64 == 1u64
}

/// Whether the number `v` is in the set that a word sequence encodes: bit
/// `v % 64` of word `v / 64`.
pub open spec fn words_have(words: Seq<u64>, v: int) -> bool {
    0 <= v < 64 * words.len() && bit_of(words[v / 64], v % 64)
}

/// The set that a word sequence encodes.
pub open spec fn words_set(words: Seq<u64>) -> Set<int> {
    Set::new(|v: int| words_have(words, v))
}

proof fn lemma_set_bit(w: u64, b: u64, j: u64)
    requires
        b < 64,
        j < 64,
    ensures
        ((w | (1u64 << b)) >> j) & 1u64 == (if j == b {
            1u64
        } else {
            (w >> j) & 1u64
        }),
{
    assert(((w | (1u64 << b)) >> j) & 1u64 == (if j == b {
        1u64
    } else {
        (w >> j) & 1u64
    })) by (bit_vector)
        requires
            b < 64,
            j < 64,
    ;
}

proof fn lemma_clear_bit(w: u64, b: u64, j: u64)
    requires
        b < 64,
        j < 64,
    ensures
        ((w & !(1u64 << b)) >> j) & 1u64 == (if j == b {
            0u64
        } else {
            (w >> j) & 1u64
        }),
{
    assert(((w & !(1u64 << b)) >> j) & 1u64 == (if j == b {
        0u64
    } else {
        (w >> j) & 1u64
    })) by (bit_vector)
        requires
            b < 64,
            j < 64,
    ;
}

proof fn lemma_test_bit(w: u64, b: u64)
    requires
        b < 64,
    ensures
        (w & (1u64 << b) != 0) == ((w >> b) & 1u64 == 1u64),
        (w >> b) & 1u64 != 1u64 ==> (w >> b) & 1u64 == 0u64,
{
    assert((w & (1u64 << b) != 0) == ((w >> b) & 1u64 == 1u64)) by (bit_vector)
        requires
            b < 64,
    ;
    assert((w >> b) & 1u64 != 1u64 ==> (w >> b) & 1u64 == 0u64) by (bit_vector);
}

proof fn lemma_zero_word(b: u64)
    requires
        b < 64,
    ensures
        (0u64 >> b) & 1u64 == 0u64,
{
    assert((0u64 >> b) & 1u64 == 0u64) by (bit_vector);
}

/// An optimized set of u16 using a bitmap.
///
/// `lowest` is a hint: no element lies below it.
pub struct BitSet {
    buckets: Buckets,
    lowest: u16,
}

impl View for BitSet {
    type V = Set<int>;

    closed spec fn view(&self) -> Set<int> {
        words_set(bucket_words(self.buckets))
    }
}

impl BitSet {
    /// The number of values the set has room for: 64 per word.
    pub closed spec fn room(&self) -> nat {
        64 * bucket_words(self.buckets).len()
    }

    /// The bitmap stays small enough for 16-bit positions, and no element
    /// lies below the `lowest` hint.
    pub closed spec fn wf(&self) -> bool {
        &&& bucket_words(self.buckets).len() <= 1023
        &&& forall|v: int| words_have(bucket_words(self.buckets), v) ==> v >= self.lowest
    }

    /// An empty set with room for at least `size` values.
    pub fn new_with_size(size: u16) -> (r: Self)
        requires
            size as int + 63 <= u16::MAX,
        ensures
            r.wf(),
            r@ == Set::<int>::empty(),
            r.room() == 64 * ((size as int + 63) / 64),
    {
        let n = (size as usize + 63) / 64;
        let buckets = words_from_elem(0, n);
        proof {
            assert forall|v: int| !words_have(bucket_words(buckets), v) by {
                if 0 <= v < 64 * n {
                    lemma_zero_word((v % 64) as u64);
                }
            }
        }
        let r = BitSet { buckets, lowest: size + 63 };
        proof {
            assert(r@ =~= Set::<int>::empty());
        }
        r
    }

    /// Removes every element.
    pub fn drain(&mut self)
        requires
            old(self).wf(),
        ensures
            final(self).wf(),
            final(self)@ == Set::<int>::empty(),
            final(self).room() == old(self).room(),
    {
        let n = words_len(&self.buckets);
        let mut i: usize = 0;
        while i < n
            invariant
                n == bucket_words(self.buckets).len(),
                n == bucket_words(old(self).buckets).len(),
                i <= n,
                forall|j: int| 0 <= j < i ==> #[trigger] bucket_words(self.buckets)[j] == 0u64,
            decreases n - i,
        {
            set_word(&mut self.buckets, i, 0);
            i = i + 1;
        }
        proof {
            assert forall|v: int| !words_have(bucket_words(self.buckets), v) by {
                if 0 <= v < 64 * n {
                    lemma_zero_word((v % 64) as u64);
                }
            }
            assert(self@ =~= Set::<int>::empty());
        }
    }

    /// Adds a value.
    pub fn insert(&mut self, value: u16)
        requires
            old(self).wf(),
            (value as int) < old(self).room(),
        ensures
            final(self).wf(),
            final(self)@ == old(self)@.insert(value as int),
            final(self).room() == old(self).room(),
    {
        if value < self.lowest {
            self.lowest = value;
        }
        let index = value / 64;
        let bit = value % 64;
        let ghost before = bucket_words(self.buckets);
        let w = word_at(&self.buckets, index as usize);
        set_word(&mut self.buckets, index as usize, w | (1u64 << (bit as u64)));
        proof {
            let after = bucket_words(self.buckets);
            assert forall|v: int| words_have(after, v) == (words_have(before, v) || v == value as int) by {
                if 0 <= v < 64 * before.len() {
                    if v / 64 == index as int {
                        lemma_set_bit(w, bit as u64, (v % 64) as u64);
                    }
                }
            }
            assert(self@ =~= old(self)@.insert(value as int));
        }
    }

    /// Whether a value is in the set.
    pub fn contains(&mut self, value: u16) -> (r: bool)
        requires
            (value as int) < old(self).room(),
        ensures
            r == old(self)@.contains(value as int),
            *final(self) == *old(self),
    {
        let index = value / 64;
        let bit = value % 64;
        let w = word_at(&self.buckets, index as usize);
        proof {
            lemma_test_bit(w, bit as u64);
        }
        w & (1u64 << (bit as u64)) != 0
    }

    /// Removes and returns the smallest element, if any.
    pub fn iter_next_remove(&mut self) -> (r: Option<u16>)
        requires
            old(self).wf(),
        ensures
            final(self).wf(),
            final(self).room() == old(self).room(),
            match r {
                None => old(self)@ == Set::<int>::empty() && final(self)@ == old(self)@,
                Some(v) => old(self)@.contains(v as int) && (forall|x: int|
                    #[trigger] old(self)@.contains(x) ==> v <= x) && final(self)@ == old(
                    self,
                )@.remove(v as int),
            },
    {
        let ghost words = bucket_words(self.buckets);
        let len = words_len(&self.buckets);
        let index = self.lowest / 64;
        if index as usize >= len {
            proof {
                assert(self@ =~= Set::<int>::empty());
            }
            return None;
        }
        let bit = self.lowest % 64;
        let w = word_at(&self.buckets, index as usize);
        proof {
            lemma_test_bit(w, bit as u64);
        }
        if w & (1u64 << (bit as u64)) != 0 {
            let v = self.lowest;
            set_word(&mut self.buckets, index as usize, w & !(1u64 << (bit as u64)));
            proof {
                let after = bucket_words(self.buckets);
                assert(words_have(words, v as int));
                assert forall|x: int| words_have(after, x) == (words_have(words, x) && x != v as int) by {
                    if 0 <= x < 64 * words.len() {
                        if x / 64 == index as int {
                            lemma_clear_bit(w, bit as u64, (x % 64) as u64);
                        }
                    }
                }
                assert(self@ =~= old(self)@.remove(v as int));
            }
            return Some(v);
        }
        let mut i: u16 = index;
        while (i as usize) < len
            invariant
                self.wf(),
                bucket_words(self.buckets) == words,
                *self == *old(self),
                len == words.len(),
                words.len() <= 1023,
                index <= i <= len,
                forall|x: int| words_have(words, x) ==> x >= 64 * i,
            decreases len - i as usize,
        {
            let w = word_at(&self.buckets, i as usize);
            if w != 0 {
                let tz = w.trailing_zeros();
                proof {
                    axiom_u64_trailing_zeros(w);
                }
                let r = i * 64 + tz as u16;
                self.lowest = r;
                set_word(&mut self.buckets, i as usize, w & !(1u64 << (tz as u64)));
                proof {
                    let after = bucket_words(self.buckets);
                    assert(words_have(words, r as int));
                    assert forall|x: int| words_have(words, x) implies r <= x by {
                        if x / 64 == i as int && x < r {
                            let j = (x % 64) as u64;
                            assert(j < u64_trailing_zeros(w));
                            assert((w >> j) & 1u64 == 0u64);
                        }
                    }
                    assert forall|x: int| words_have(after, x) == (words_have(words, x) && x != r as int) by {
                        if 0 <= x < 64 * words.len() {
                            if x / 64 == i as int {
                                lemma_clear_bit(w, tz as u64, (x % 64) as u64);
                            }
                        }
                    }
                    assert(self@ =~= old(self)@.remove(r as int));
                }
                return Some(r);
            }
            proof {
                assert forall|x: int| words_have(words, x) implies x >= 64 * (i + 1) by {
                    if x / 64 == i as int {
                        lemma_zero_word((x % 64) as u64);
                    }
                }
            }
            i = i + 1;
        }
        self.lowest = (len as u16) * 64;
        proof {
            assert(self@ =~= Set::<int>::empty());
        }
        None
    }

    /// Whether the set has no element.
    pub fn is_empty(&mut self) -> (r: bool)
        requires
            old(self).wf(),
        ensures
            final(self).wf(),
            final(self)@ == old(self)@,
            final(self).room() == old(self).room(),
            r == (old(self)@ == Set::<int>::empty()),
    {
        let ghost words = bucket_words(self.buckets);
        let len = words_len(&self.buckets);
        let index = self.lowest / 64;
        if index as usize >= len {
            proof {
                assert(self@ =~= Set::<int>::empty());
            }
            return true;
        }
        let bit = self.lowest % 64;
        let w = word_at(&self.buckets, index as usize);
        proof {
            lemma_test_bit(w, bit as u64);
        }
        if w & (1u64 << (bit as u64)) != 0 {
            proof {
                assert(self@.contains(self.lowest as int));
            }
            return false;
        }
        let mut i: u16 = index;
        while (i as usize) < len
            invariant
                self.wf(),
                bucket_words(self.buckets) == words,
                *self == *old(self),
                len == words.len(),
                words.len() <= 1023,
                index <= i <= len,
                forall|x: int| words_have(words, x) ==> x >= 64 * i,
            decreases len - i as usize,
        {
            if word_at(&self.buckets, i as usize) != 0 {
                let ghost w = words[i as int];
                proof {
                    axiom_u64_trailing_zeros(w);
                    let x = 64 * i + u64_trailing_zeros(w);
                    assert(words_have(words, x));
                    assert(self@.contains(x));
                }
                self.lowest = i * 64;
                return false;
            }
            proof {
                assert forall|x: int| words_have(words, x) implies x >= 64 * (i + 1) by {
                    if x / 64 == i as int {
                        lemma_zero_word((x % 64) as u64);
                    }
                }
            }
            i = i + 1;
        }
        self.lowest = (len as u16) * 64;
        proof {
            assert(self@ =~= Set::<int>::empty());
        }
        true
    }

    /// A copy of the set.
    pub fn copy(&self) -> (r: Self)
        requires
            self.wf(),
        ensures
            r.wf(),
            r@ == self@,
            r.room() == self.room(),
    {
        BitSet { buckets: words_clone(&self.buckets), lowest: self.lowest }
    }

    /// Whether two sets of the same room hold the same elements.
    pub fn same_elements(&self, other: &Self) -> (r: bool)
        requires
            self.room() == other.room(),
        ensures
            r == (self@ == other@),
    {
        let n = words_len(&self.buckets);
        let mut i: usize = 0;
        while i < n
            invariant
                n == bucket_words(self.buckets).len(),
                n == bucket_words(other.buckets).len(),
                i <= n,
                forall|j: int| 0 <= j < i ==> #[trigger] bucket_words(self.buckets)[j] == bucket_words(other.buckets)[j],
            decreases n - i,
        {
            let a = word_at(&self.buckets, i);
            let b = word_at(&other.buckets, i);
            if a != b {
                proof {
                    let j = lemma_words_differ(a, b);
                    assert(words_have(bucket_words(self.buckets), 64 * i + j) != words_have(bucket_words(other.buckets), 64 * i + j));
                    assert(self@.contains(64 * i + j) != other@.contains(64 * i + j));
                }
                return false;
            }
            i = i + 1;
        }
        proof {
            assert(bucket_words(self.buckets) =~= bucket_words(other.buckets));
        }
        true
    }
}

/// Two different words differ in some bit.
proof fn lemma_words_differ(a: u64, b: u64) -> (j: int)
    requires
        a != b,
    ensures
        0 <= j < 64,
        bit_of(a, j) != bit_of(b, j),
{
    let x = a ^ b;
    assert(x != 0) by (bit_vector)
        requires
            a != b,
            x == a ^ b,
    ;
    axiom_u64_trailing_zeros(x);
    let t = u64_trailing_zeros(x) as u64;
    assert((x >> t) & 1u64 == 1u64);
    assert(((a >> t) & 1u64 == 1u64) != ((b >> t) & 1u64 == 1u64)) by (bit_vector)
        requires
            x == a ^ b,
            (x >> t) & 1u64 == 1u64,
    ;
    t as int
}

} // verus!
