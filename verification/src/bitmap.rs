//! Fixed-length bit-packed presence vectors.
//!
//! A `WordBitMapRow` holds one bit per dictionary word, packed into bytes.
//! Bit `i` lives in byte `i / 8` at offset `i % 8`, LSB-addressed.

use vstd::prelude::*;

verus! {

/// Number of bytes needed to store `bits` bits: ceiling division by 8.
pub open spec fn spec_number_of_bytes(bits: nat) -> nat {
    (bits + 7) / 8
}

/// Calculates the number of bytes needed to store a certain number of bits.
pub fn number_of_bytes(bits: usize) -> (r: usize)
    requires
        bits + 7 <= usize::MAX,
    ensures
        r == spec_number_of_bytes(bits as nat),
{
    (bits + 7) / 8
}

/// The byte index and the offset within that byte at which bit `index` lives.
pub fn bit_address(index: usize) -> (r: (usize, u8))
    ensures
        r.0 == index / 8,
        r.1 == index % 8,
{
    (index / 8, (index % 8) as u8)
}

/// Bitmap recording which dictionary words are present in one word set.
pub struct WordBitMapRow {
    pub bytes: Vec<u8>,
}

impl View for WordBitMapRow {
    type V = Seq<u8>;

    open spec fn view(&self) -> Seq<u8> {
        self.bytes@
    }
}

/// Whether bit `i` of the packed byte sequence is set (byte `i / 8`,
/// offset `i % 8`, LSB-addressed).
pub open spec fn spec_get_bit(bytes: Seq<u8>, i: int) -> bool
    recommends
        0 <= i < bytes.len() * 8,
{
    (bytes[i / 8] >> ((i % 8) as u8)) & 1u8 == 1u8
}

/// Byte-wise AND of two byte sequences of equal length.
pub open spec fn and_bytes(a: Seq<u8>, b: Seq<u8>) -> Seq<u8>
    recommends
        a.len() == b.len(),
{
    Seq::new(a.len(), |i: int| a[i] & b[i])
}

impl WordBitMapRow {
    /// An equal copy of the bitmap.
    pub fn duplicate(&self) -> (r: WordBitMapRow)
        ensures
            r@ == self@,
    {
        let bytes2 = self.bytes.clone();
        proof {
            vstd::std_specs::vec::vec_clone_deep_view_proof(self.bytes, bytes2);
            assert(bytes2@ =~= self.bytes@);
        }
        WordBitMapRow { bytes: bytes2 }
    }

    /// Returns the byte at the given index, if it exists, otherwise `None`.
    pub fn get_byte(&self, index: usize) -> (r: Option<&u8>)
        ensures
            index < self@.len() ==> (r matches Some(b) && *b == self@[index as int]),
            index >= self@.len() ==> r is None,
    {
        if index < self.bytes.len() {
            Some(&self.bytes[index])
        } else {
            None
        }
    }

    /// Replaces the byte at the given index.
    ///
    /// Returns true if the index was in range, false otherwise.
    pub fn set_byte(&mut self, index: usize, val: u8) -> (r: bool)
        ensures
            r == (index < old(self)@.len()),
            r ==> final(self)@ == old(self)@.update(index as int, val),
            !r ==> final(self)@ == old(self)@,
    {
        if index >= self.bytes.len() {
            false
        } else {
            self.bytes[index] = val;
            true
        }
    }

    /// Gets the value of a bit in the bitmap, or `None` when the index is
    /// out of range, so that a clear bit and an invalid index are never
    /// confused.
    pub fn get_bit(&self, index: usize) -> (r: Option<bool>)
        ensures
            index < self@.len() * 8 ==> r == Some(spec_get_bit(self@, index as int)),
            index >= self@.len() * 8 ==> r is None,
    {
        let byte_index = index / 8;
        if byte_index >= self.bytes.len() {
            None
        } else {
            let bit = (index % 8) as u8;
            let b = self.bytes[byte_index];
            Some((b >> bit) & 1u8 == 1u8)
        }
    }

    /// Sets the value of a bit in the bitmap, leaving every other bit as
    /// it was.
    ///
    /// Returns true if the index was in range, false otherwise.
    pub fn set_bit(&mut self, index: usize, val: bool) -> (r: bool)
        ensures
            r == (index < old(self)@.len() * 8),
            final(self)@.len() == old(self)@.len(),
            r ==> forall|j: int|
                0 <= j < old(self)@.len() * 8 ==> spec_get_bit(final(self)@, j) == (if j
                    == index {
                    val
                } else {
                    spec_get_bit(old(self)@, j)
                }),
            !r ==> final(self)@ == old(self)@,
    {
        let byte_index = index / 8;
        if byte_index >= self.bytes.len() {
            return false;
        }
        let bit = (index % 8) as u8;
        let b = self.bytes[byte_index];
        let nb = if val {
            b | (1u8 << bit)
        } else {
            b & !(1u8 << bit)
        };
        self.bytes[byte_index] = nb;
        proof {
            assert forall|j: int| 0 <= j < old(self)@.len() * 8 implies spec_get_bit(
                self@,
                j,
            ) == (if j == index {
                val
            } else {
                spec_get_bit(old(self)@, j)
            }) by {
                let jb = j / 8;
                let jo = (j % 8) as u8;
                if jb == byte_index {
                    lemma_byte_bit_update(b, bit, jo, val);
                    if j != index {
                        assert(jo != bit);
                    } else {
                        assert(jo == bit);
                    }
                }
            }
        }
        true
    }
}

/// Whether position `i` is the first at which its entry occurs in `dict`.
pub open spec fn is_first_pos(dict: Seq<Seq<char>>, i: int) -> bool {
    forall|j: int| 0 <= j < i ==> dict[j] != dict[i]
}

/// Whether building a bitmap from `words` against `dict` sets bit `i`:
/// some word's normalized form reads entry `i`, and `i` is the first
/// position of that entry.
pub open spec fn spec_build_bit(words: Seq<Seq<char>>, dict: Seq<Seq<char>>, i: int) -> bool {
    built_upto(words, dict, words.len() as int, i)
}

/// Whether bit `i` is set after the first `w` of the words were indexed.
pub open spec fn built_upto(words: Seq<Seq<char>>, dict: Seq<Seq<char>>, w: int, i: int) -> bool {
    is_first_pos(dict, i) && exists|k: int|
        0 <= k < w && #[trigger] crate::words::norm_word(words[k]) == dict[i]
}

/// Indexing a word whose normalized form has first position `p` in the
/// dictionary sets bit `p` and leaves every other bit as it was.
proof fn lemma_built_step_hit(words: Seq<Seq<char>>, dict: Seq<Seq<char>>, w: int, p: int)
    requires
        0 <= w < words.len(),
        0 <= p < dict.len(),
        crate::words::norm_word(words[w]) == dict[p],
        is_first_pos(dict, p),
    ensures
        built_upto(words, dict, w + 1, p),
        forall|i: int|
            0 <= i < dict.len() && i != p ==> built_upto(words, dict, w + 1, i) == built_upto(
                words,
                dict,
                w,
                i,
            ),
{
    assert(0 <= w < w + 1 && crate::words::norm_word(words[w]) == dict[p]);
    assert forall|i: int| 0 <= i < dict.len() && i != p implies built_upto(words, dict, w + 1, i)
        == built_upto(words, dict, w, i) by {
        if built_upto(words, dict, w + 1, i) {
            let k = choose|k: int|
                0 <= k < w + 1 && #[trigger] crate::words::norm_word(words[k]) == dict[i];
            if k == w {
                // entry i then reads the same word as entry p, and both are
                // first positions: impossible for distinct i and p
                if i < p {
                    assert(dict[i] != dict[p]);
                } else {
                    assert(dict[p] != dict[i]);
                }
                assert(false);
            }
            assert(0 <= k < w && crate::words::norm_word(words[k]) == dict[i]);
        }
        if built_upto(words, dict, w, i) {
            let k = choose|k: int|
                0 <= k < w && #[trigger] crate::words::norm_word(words[k]) == dict[i];
            assert(0 <= k < w + 1 && crate::words::norm_word(words[k]) == dict[i]);
        }
    }
}

/// Indexing a word whose normalized form is absent from the dictionary
/// leaves every bit as it was.
proof fn lemma_built_step_miss(words: Seq<Seq<char>>, dict: Seq<Seq<char>>, w: int)
    requires
        0 <= w < words.len(),
        forall|j: int| 0 <= j < dict.len() ==> dict[j] != crate::words::norm_word(words[w]),
    ensures
        forall|i: int|
            0 <= i < dict.len() ==> built_upto(words, dict, w + 1, i) == built_upto(
                words,
                dict,
                w,
                i,
            ),
{
    assert forall|i: int| 0 <= i < dict.len() implies built_upto(words, dict, w + 1, i)
        == built_upto(words, dict, w, i) by {
        if built_upto(words, dict, w + 1, i) {
            let k = choose|k: int|
                0 <= k < w + 1 && #[trigger] crate::words::norm_word(words[k]) == dict[i];
            assert(k != w);
            assert(0 <= k < w && crate::words::norm_word(words[k]) == dict[i]);
        }
        if built_upto(words, dict, w, i) {
            let k = choose|k: int|
                0 <= k < w && #[trigger] crate::words::norm_word(words[k]) == dict[i];
            assert(0 <= k < w + 1 && crate::words::norm_word(words[k]) == dict[i]);
        }
    }
}

/// For a dictionary without repeated entries, building a bitmap from a
/// word set sets bit `i` exactly when dictionary entry `i` is among the
/// normalized forms of the words, for every position `i`.
pub proof fn lemma_build_bit_exact(words: Seq<Seq<char>>, dict: Seq<Seq<char>>, i: int)
    requires
        0 <= i < dict.len(),
        forall|p: int, q: int| 0 <= p < q < dict.len() ==> dict[p] != dict[q],
    ensures
        spec_build_bit(words, dict, i) == exists|k: int|
            0 <= k < words.len() && #[trigger] crate::words::norm_word(words[k]) == dict[i],
{
    assert forall|j: int| 0 <= j < i implies dict[j] != dict[i] by {
        assert(0 <= j < i < dict.len());
    }
    assert(is_first_pos(dict, i));
}

/// Position of the first dictionary entry that reads `w`, if any.
fn first_position(dict: &Vec<String>, w: &String) -> (r: Option<usize>)
    ensures
        r matches Some(p) ==> p < dict@.len() && dict@[p as int]@ == w@ && is_first_pos(
            crate::words::views_of(dict@),
            p as int,
        ),
        r is None ==> forall|j: int| 0 <= j < dict@.len() ==> dict@[j]@ != w@,
{
    let n = dict.len();
    for p in 0..n
        invariant
            n == dict@.len(),
            forall|j: int| 0 <= j < p ==> dict@[j]@ != w@,
    {
        if dict[p] == *w {
            proof {
                let dv = crate::words::views_of(dict@);
                assert forall|j: int| 0 <= j < p implies dv[j] != dv[p as int] by {
                    assert(dv[j] == dict@[j]@);
                }
            }
            return Some(p);
        }
    }
    None
}

impl WordBitMapRow {
    /// Creates a bit map row from a vector of input words and a vector of
    /// dictionary words.  Each word is normalized; the bit of the first
    /// dictionary position holding that form is set; words absent from the
    /// dictionary set no bit.  Bits past the dictionary length stay clear.
    pub fn from_words_and_dict(words: &Vec<String>, dict: &Vec<String>) -> (r: WordBitMapRow)
        requires
            dict@.len() + 7 <= usize::MAX,
        ensures
            r@.len() == spec_number_of_bytes(dict@.len() as nat),
            forall|i: int|
                0 <= i < dict@.len() ==> spec_get_bit(r@, i) == spec_build_bit(
                    crate::words::views_of(words@),
                    crate::words::views_of(dict@),
                    i,
                ),
            forall|i: int| dict@.len() <= i < r@.len() * 8 ==> !spec_get_bit(r@, i),
    {
        let bytes_num = number_of_bytes(dict.len());
        let bytes: Vec<u8> = vec![0u8; bytes_num];
        let mut bm = WordBitMapRow { bytes };
        proof {
            assert forall|i: int| 0 <= i < bm@.len() * 8 implies !spec_get_bit(bm@, i) by {
                let k = (i % 8) as u8;
                assert((0u8 >> k) & 1u8 != 1u8) by (bit_vector);
            }
            assert(dict@.len() <= bm@.len() * 8);
        }
        let ghost dv = crate::words::views_of(dict@);
        let ghost wv = crate::words::views_of(words@);
        let n = words.len();
        for wi in 0..n
            invariant
                n == words@.len(),
                dv == crate::words::views_of(dict@),
                wv == crate::words::views_of(words@),
                dict@.len() + 7 <= usize::MAX,
                bm@.len() == spec_number_of_bytes(dict@.len() as nat),
                dict@.len() <= bm@.len() * 8,
                forall|i: int|
                    0 <= i < dict@.len() ==> spec_get_bit(bm@, i) == built_upto(
                        wv,
                        dv,
                        wi as int,
                        i,
                    ),
                forall|i: int| dict@.len() <= i < bm@.len() * 8 ==> !spec_get_bit(bm@, i),
        {
            let ghost prebm = bm@;
            let w = crate::words::filter(&words[wi]);
            proof {
                assert(w@ == crate::words::norm_word(wv[wi as int]));
            }
            let pos = first_position(dict, &w);
            match pos {
                Some(p) => {
                    let ok = bm.set_bit(p, true);
                    proof {
                        assert(ok);
                        lemma_built_step_hit(wv, dv, wi as int, p as int);
                        assert forall|i: int| 0 <= i < dict@.len() implies spec_get_bit(bm@, i)
                            == built_upto(wv, dv, wi + 1, i) by {
                            if i == p {
                                assert(spec_get_bit(bm@, i));
                            } else {
                                assert(spec_get_bit(bm@, i) == spec_get_bit(prebm, i));
                            }
                        }
                    }
                },
                None => {
                    proof {
                        assert forall|j: int| 0 <= j < dv.len() implies dv[j] != crate::words::norm_word(
                            wv[wi as int],
                        ) by {
                            assert(dv[j] == dict@[j]@);
                        }
                        lemma_built_step_miss(wv, dv, wi as int);
                    }
                },
            }
        }
        bm
    }

    /// Byte-wise AND of two bitmaps of equal length.
    ///
    /// Bitmaps of different lengths cannot be combined; the mismatch is
    /// reported as `None` rather than truncating to the shorter length.
    pub fn and(bm1: &WordBitMapRow, bm2: &WordBitMapRow) -> (r: Option<WordBitMapRow>)
        ensures
            r is Some <==> bm1@.len() == bm2@.len(),
            r matches Some(bm) ==> bm@ == and_bytes(bm1@, bm2@),
    {
        if bm1.bytes.len() != bm2.bytes.len() {
            return None;
        }
        let n = bm1.bytes.len();
        let mut bytes: Vec<u8> = Vec::new();
        for i in 0..n
            invariant
                n == bm1@.len(),
                n == bm2@.len(),
                bytes@.len() == i,
                forall|k: int| 0 <= k < i ==> bytes@[k] == (bm1@[k] & bm2@[k]),
        {
            bytes.push(bm1.bytes[i] & bm2.bytes[i]);
        }
        proof {
            assert(bytes@ =~= and_bytes(bm1@, bm2@));
        }
        Some(WordBitMapRow { bytes })
    }
}

/// A bit of the AND of two byte sequences is set exactly when that bit is
/// set in both.
pub proof fn lemma_and_bytes_bit(a: Seq<u8>, b: Seq<u8>, i: int)
    requires
        a.len() == b.len(),
        0 <= i < a.len() * 8,
    ensures
        spec_get_bit(and_bytes(a, b), i) == (spec_get_bit(a, i) && spec_get_bit(b, i)),
{
    let x = a[i / 8];
    let y = b[i / 8];
    let k = (i % 8) as u8;
    assert((((x & y) >> k) & 1u8 == 1u8) == ((x >> k) & 1u8 == 1u8 && (y >> k) & 1u8 == 1u8))
        by (bit_vector);
}

/// AND is idempotent: combining a bitmap with itself gives it back.
pub proof fn lemma_and_idempotent(a: Seq<u8>)
    ensures
        and_bytes(a, a) == a,
{
    assert forall|i: int| 0 <= i < a.len() implies and_bytes(a, a)[i] == a[i] by {
        let x = a[i];
        assert(x & x == x) by (bit_vector);
    }
    assert(and_bytes(a, a) =~= a);
}

/// AND is commutative on byte sequences of equal length.
pub proof fn lemma_and_commutative(a: Seq<u8>, b: Seq<u8>)
    requires
        a.len() == b.len(),
    ensures
        and_bytes(a, b) == and_bytes(b, a),
{
    assert forall|i: int| 0 <= i < a.len() implies and_bytes(a, b)[i] == and_bytes(b, a)[i] by {
        let x = a[i];
        let y = b[i];
        assert(x & y == y & x) by (bit_vector);
    }
    assert(and_bytes(a, b) =~= and_bytes(b, a));
}

/// AND is associative on byte sequences of equal length.
pub proof fn lemma_and_associative(a: Seq<u8>, b: Seq<u8>, c: Seq<u8>)
    requires
        a.len() == b.len(),
        b.len() == c.len(),
    ensures
        and_bytes(and_bytes(a, b), c) == and_bytes(a, and_bytes(b, c)),
{
    assert forall|i: int| 0 <= i < a.len() implies and_bytes(and_bytes(a, b), c)[i] == and_bytes(
        a,
        and_bytes(b, c),
    )[i] by {
        let x = a[i];
        let y = b[i];
        let z = c[i];
        assert((x & y) & z == x & (y & z)) by (bit_vector);
    }
    assert(and_bytes(and_bytes(a, b), c) =~= and_bytes(a, and_bytes(b, c)));
}

/// Setting one bit of a byte changes exactly that bit and no other.
proof fn lemma_byte_bit_update(b: u8, k: u8, j: u8, val: bool)
    by (bit_vector)
    requires
        k < 8,
        j < 8,
    ensures
        (((if val {
            b | (1u8 << k)
        } else {
            b & !(1u8 << k)
        }) >> j) & 1u8 == 1u8) == (if j == k {
            val
        } else {
            (b >> j) & 1u8 == 1u8
        }),
{
}

} // verus!
