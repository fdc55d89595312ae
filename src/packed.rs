use vstd::prelude::*;
use crate::consts::CHUNK_SIZE;

verus! {

/// The widths, in bits, at which values can be packed.
pub open spec fn is_width(bits: u64) -> bool {
    bits == 1 || bits == 2 || bits == 4 || bits == 8 || bits == 16 || bits == 32 || bits == 64
}

/// The largest value that fits in `bits` bits.
pub open spec fn width_max(bits: u64) -> u64 {
    if bits >= 64 {
        u64::MAX
    } else {
        ((1u64 << bits) - 1) as u64
    }
}

/// The value held in the slot that starts at bit `shift` of `word`.
pub open spec fn slot_of(word: u64, shift: u64, bits: u64) -> u64 {
    (word >> shift) & width_max(bits)
}

/// Number of words that hold `CHUNK_SIZE` values of `bits` bits.
pub open spec fn word_count(bits: u64) -> int {
    CHUNK_SIZE * bits / 64
}

/// The value at index `i` of the packed words.
pub open spec fn packed_at(words: Seq<u64>, bits: u64, i: int) -> u64 {
    let per = 64int / bits as int;
    slot_of(words[i / per], ((i % per) * bits) as u64, bits)
}

proof fn lemma_slot_set_same(w: u64, v: u64, s: u64, b: u64)
    requires
        0 < b < 64,
        s + b <= 64,
        v <= (1u64 << b) - 1,
    ensures
        (((w & !((((1u64 << b) - 1) as u64) << s)) | (v << s)) >> s) & (((1u64 << b) - 1) as u64) == v,
{
    assert((((w & !((((1u64 << b) - 1) as u64) << s)) | (v << s)) >> s) & (((1u64 << b) - 1) as u64) == v)
        by (bit_vector)
        requires
            0 < b < 64,
            s + b <= 64,
            v <= (1u64 << b) - 1,
    ;
}

proof fn lemma_slot_set_other(w: u64, v: u64, s: u64, t: u64, b: u64)
    requires
        0 < b < 64,
        s + b <= 64,
        t + b <= 64,
        s + b <= t || t + b <= s,
        v <= (1u64 << b) - 1,
    ensures
        (((w & !((((1u64 << b) - 1) as u64) << s)) | (v << s)) >> t) & (((1u64 << b) - 1) as u64)
            == (w >> t) & (((1u64 << b) - 1) as u64),
{
    assert((((w & !((((1u64 << b) - 1) as u64) << s)) | (v << s)) >> t) & (((1u64 << b) - 1) as u64)
        == (w >> t) & (((1u64 << b) - 1) as u64))
        by (bit_vector)
        requires
            0 < b < 64,
            s + b <= 64,
            t + b <= 64,
            s + b <= t || t + b <= s,
            v <= (1u64 << b) - 1,
    ;
}

proof fn lemma_slot_bounded(w: u64, s: u64, b: u64)
    requires
        is_width(b),
    ensures
        slot_of(w, s, b) <= width_max(b),
{
    let m = width_max(b);
    assert((w >> s) & m <= m) by (bit_vector);
}

proof fn lemma_width_max_grows(b1: u64, b2: u64)
    requires
        is_width(b1),
        is_width(b2),
        b1 <= b2,
    ensures
        width_max(b1) <= width_max(b2),
{
    if b2 < 64 {
        assert(((1u64 << b1) - 1) as u64 <= ((1u64 << b2) - 1) as u64) by (bit_vector)
            requires 0 < b1 <= b2 < 64;
    }
}

/// Where index `i` lives: the word `i / per` and the bit offset
/// `(i % per) * bits` inside it, with `per` values in a word.
proof fn lemma_index(bits: u64, i: int)
    requires
        is_width(bits),
        0 <= i < CHUNK_SIZE,
    ensures
        ({
            let per = 64int / bits as int;
            &&& per > 0
            &&& per * bits == 64
            &&& 0 <= i / per < word_count(bits)
            &&& 0 <= i % per < per
            &&& (i % per) * bits + bits <= 64
        }),
{
    let per = 64int / bits as int;
    assert(per * bits == 64) by {
        let b = bits as int;
        if b == 1 {
            assert(64int / 1 == 64);
        } else if b == 2 {
            assert(64int / 2 == 32);
        } else if b == 4 {
            assert(64int / 4 == 16);
        } else if b == 8 {
            assert(64int / 8 == 8);
        } else if b == 16 {
            assert(64int / 16 == 4);
        } else if b == 32 {
            assert(64int / 32 == 2);
        } else {
            assert(64int / 64 == 1);
        }
    }
    assert(0 <= i % per < per);
    assert((i % per) * bits + bits <= 64) by (nonlinear_arith)
        requires 0 <= i % per < per, per * bits == 64, bits > 0;
    assert(0 <= i / per < word_count(bits)) by (nonlinear_arith)
        requires 0 <= i < 512, per * bits == 64, per > 0, bits > 0, word_count(bits) == 512 * bits / 64;
}

/// Two different slots of one word do not overlap.
proof fn lemma_slots_apart(bits: u64, a: int, c: int)
    requires
        bits > 0,
        0 <= a,
        0 <= c,
        a != c,
    ensures
        a * bits + bits <= c * bits || c * bits + bits <= a * bits,
{
    if a < c {
        assert(a * bits + bits <= c * bits) by (nonlinear_arith) requires a < c, bits > 0;
    } else {
        assert(c * bits + bits <= a * bits) by (nonlinear_arith) requires c < a, bits > 0;
    }
}

proof fn lemma_width_max_narrow(b: u64)
    requires
        0 < b < 64,
    ensures
        (1u64 << b) >= 1,
        width_max(b) == (1u64 << b) - 1,
{
    assert((1u64 << b) >= 1) by (bit_vector) requires 0 < b < 64;
}

fn width_max_of(bits: u64) -> (r: u64)
    requires
        is_width(bits),
    ensures
        r == width_max(bits),
{
    if bits >= 64 {
        u64::MAX
    } else {
        proof {
            lemma_width_max_narrow(bits);
        }
        (1u64 << bits) - 1
    }
}

/// `CHUNK_SIZE` unsigned values packed at a common bit width, which widens as
/// larger values are written.
#[derive(Clone, Debug)]
pub struct PackedIds {
    bits: u64,
    words: Vec<u64>,
}

impl View for PackedIds {
    type V = Seq<u64>;

    open spec fn view(&self) -> Seq<u64> {
        Seq::new(CHUNK_SIZE as nat, |i: int| packed_at(self.spec_words(), self.spec_bits(), i))
    }
}

impl PackedIds {
    pub open spec fn wf(&self) -> bool {
        is_width(self.spec_bits()) && self.spec_words().len() == word_count(self.spec_bits())
    }

    /// The width, in bits, of each packed value.
    pub closed spec fn spec_bits(&self) -> u64 {
        self.bits
    }

    /// The packed words.
    pub closed spec fn spec_words(&self) -> Seq<u64> {
        self.words@
    }

    /// Every value lies within the current width.
    pub proof fn lemma_values_fit(&self)
        requires
            self.wf(),
        ensures
            forall|i: int| 0 <= i < CHUNK_SIZE ==> #[trigger] self@[i] <= width_max(self.spec_bits()),
    {
        assert forall|i: int| 0 <= i < CHUNK_SIZE implies #[trigger] self@[i] <= width_max(self.bits) by {
            lemma_index(self.bits, i);
            let per = 64int / self.bits as int;
            lemma_slot_bounded(self.words@[i / per], ((i % per) * self.bits) as u64, self.bits);
        }
    }

    /// All values zero, packed at width `bits`.
    pub fn zeroed(bits: u64) -> (r: Self)
        requires
            is_width(bits),
        ensures
            r.wf(),
            r.spec_bits() == bits,
            r@ == Seq::new(CHUNK_SIZE as nat, |i: int| 0u64),
    {
        let n: usize = (CHUNK_SIZE * bits / 64) as usize;
        let mut words: Vec<u64> = Vec::new();
        while words.len() < n
            invariant
                n == word_count(bits),
                words@.len() <= n,
                forall|k: int| 0 <= k < words@.len() ==> words@[k] == 0,
            decreases n - words@.len(),
        {
            words.push(0);
        }
        let r = PackedIds { bits, words };
        assert forall|i: int| 0 <= i < CHUNK_SIZE implies #[trigger] r@[i] == 0u64 by {
            lemma_index(bits, i);
            let m = width_max(bits);
            let sh = ((i % (64int / bits as int)) * bits) as u64;
            assert((0u64 >> sh) & m == 0) by (bit_vector);
        }
        assert(r@ =~= Seq::new(CHUNK_SIZE as nat, |i: int| 0u64));
        r
    }

    /// Rebuilds a store from its width and words.
    pub fn from_parts(bits: u64, words: Vec<u64>) -> (r: Option<Self>)
        ensures
            r is Some <==> (is_width(bits) && words@.len() == word_count(bits)),
            r is Some ==> r->0.wf() && r->0.spec_bits() == bits && r->0.spec_words() == words@,
    {
        if (bits == 1 || bits == 2 || bits == 4 || bits == 8 || bits == 16 || bits == 32 || bits == 64)
            && words.len() as u64 == CHUNK_SIZE * bits / 64 {
            Some(PackedIds { bits, words })
        } else {
            None
        }
    }

    /// The width, in bits, of each packed value.
    pub fn bits(&self) -> (r: u64)
        ensures
            r == self.spec_bits(),
    {
        self.bits
    }

    /// The packed words.
    pub fn words(&self) -> (r: &Vec<u64>)
        ensures
            r@ == self.spec_words(),
    {
        &self.words
    }

    /// The value at index `i`.
    pub fn get(&self, i: usize) -> (r: u64)
        requires
            self.wf(),
            i < CHUNK_SIZE,
        ensures
            r == self@[i as int],
    {
        proof {
            lemma_index(self.bits, i as int);
        }
        let per = (64 / self.bits) as usize;
        let shift = ((i % per) as u64) * self.bits;
        (self.words[i / per] >> shift) & width_max_of(self.bits)
    }

    /// Writes `v` at index `i`, where `v` fits the current width.
    fn write_slot(&mut self, i: usize, v: u64)
        requires
            old(self).wf(),
            i < CHUNK_SIZE,
            v <= width_max(old(self).bits),
        ensures
            final(self).wf(),
            final(self).bits == old(self).bits,
            final(self)@ == old(self)@.update(i as int, v),
    {
        let ghost before = self@;
        let bits = self.bits;
        proof {
            lemma_index(bits, i as int);
        }
        let per = (64 / bits) as usize;
        let wi = i / per;
        let shift = ((i % per) as u64) * bits;
        let m = width_max_of(bits);
        let w = self.words[wi];
        let nw = (w & !(m << shift)) | (v << shift);
        self.words.set(wi, nw);
        proof {
            let per_i = 64int / bits as int;
            assert forall|j: int| 0 <= j < CHUNK_SIZE implies #[trigger] self@[j] == before.update(i as int, v)[j] by {
                lemma_index(bits, j);
                let sj = ((j % per_i) * bits) as u64;
                if j / per_i != wi as int {
                } else if bits == 64 {
                    assert(per_i == 1);
                    assert(j == i) by (nonlinear_arith)
                        requires per_i == 1, j / per_i == i as int / per_i;
                    assert(((w & !(m << shift)) | (v << shift)) >> 0u64 & m == v) by (bit_vector)
                        requires m == 0xffff_ffff_ffff_ffffu64, shift == 0u64;
                } else if j == i {
                    lemma_width_max_narrow(bits);
                    lemma_slot_set_same(w, v, shift, bits);
                } else {
                    assert(j % per_i != i as int % per_i) by (nonlinear_arith)
                        requires j / per_i == i as int / per_i, j != i, per_i > 0;
                    lemma_slots_apart(bits, j % per_i, i as int % per_i);
                    lemma_width_max_narrow(bits);
                    lemma_slot_set_other(w, v, shift, sj, bits);
                }
            }
            assert(self@ =~= before.update(i as int, v));
        }
    }

    /// The smallest width that holds `v` and is no narrower than `bits`.
    fn width_for(bits: u64, v: u64) -> (r: u64)
        requires
            is_width(bits),
        ensures
            is_width(r),
            r >= bits,
            v <= width_max(r),
            v > width_max(bits) ==> r > bits,
            v <= width_max(bits) ==> r == bits,
    {
        let mut b = bits;
        while v > width_max_of(b)
            invariant
                is_width(b),
                b >= bits,
                b > bits ==> v > width_max(bits),
            decreases 64 - b,
        {
            b = b * 2;
        }
        b
    }

    /// Repacks every value at the wider width `bits`.
    fn widen(&mut self, bits: u64)
        requires
            old(self).wf(),
            is_width(bits),
            bits >= old(self).bits,
        ensures
            final(self).wf(),
            final(self).bits == bits,
            final(self)@ == old(self)@,
    {
        let mut next = PackedIds::zeroed(bits);
        let mut j: usize = 0;
        proof {
            self.lemma_values_fit();
            lemma_width_max_grows(self.bits, bits);
        }
        while j < CHUNK_SIZE as usize
            invariant
                self.wf(),
                next.wf(),
                next.bits == bits,
                width_max(self.bits) <= width_max(bits),
                j <= CHUNK_SIZE,
                forall|i: int| 0 <= i < CHUNK_SIZE ==> #[trigger] self@[i] <= width_max(self.bits),
                forall|k: int| 0 <= k < j ==> #[trigger] next@[k] == self@[k],
            decreases CHUNK_SIZE - j,
        {
            let v = self.get(j);
            next.write_slot(j, v);
            j += 1;
        }
        assert(next@ =~= self@);
        *self = next;
    }

    /// Writes `v` at index `i`, widening the packing first when `v` does not
    /// fit the current width.
    pub fn set(&mut self, i: usize, v: u64)
        requires
            old(self).wf(),
            i < CHUNK_SIZE,
        ensures
            final(self).wf(),
            final(self)@ == old(self)@.update(i as int, v),
            final(self).spec_bits() >= old(self).spec_bits(),
            v <= width_max(old(self).spec_bits()) ==> final(self).spec_bits() == old(self).spec_bits(),
    {
        let b = Self::width_for(self.bits, v);
        if b != self.bits {
            self.widen(b);
        }
        self.write_slot(i, v);
    }
}

impl PackedIds {
    /// A copy with the same width and words.
    pub fn duplicate(&self) -> (r: Self)
        requires
            self.wf(),
        ensures
            r.wf(),
            r.spec_bits() == self.spec_bits(),
            r.spec_words() == self.spec_words(),
            r@ == self@,
    {
        let mut words: Vec<u64> = Vec::new();
        let mut i: usize = 0;
        while i < self.words.len()
            invariant
                i <= self.words@.len(),
                words@ == self.words@.take(i as int),
            decreases self.words@.len() - i,
        {
            words.push(self.words[i]);
            proof {
                assert(self.words@.take(i + 1) =~= self.words@.take(i as int).push(self.words@[i as int]));
            }
            i += 1;
        }
        assert(self.words@.take(self.words@.len() as int) =~= self.words@);
        let r = PackedIds { bits: self.bits, words };
        assert(r@ =~= self@);
        r
    }
}

} // verus!
