use crate::hash_oracle::HashOracle;
use vstd::prelude::*;
use vstd::utf8::{encode_utf8, valid_utf8};

verus! {

/// Every byte is one of the digits `0` to `9`.
pub open spec fn all_digits(bytes: Seq<u8>) -> bool {
    forall|i: int| 0 <= i < bytes.len() ==> 48 <= #[trigger] bytes[i] <= 57
}

/// The number that a sequence of digits writes in decimal.
pub open spec fn digits_value(digits: Seq<u8>) -> int
    decreases digits.len(),
{
    if digits.len() == 0 {
        0
    } else {
        digits_value(digits.drop_last()) * 10 + (digits.last() - 48)
    }
}

/// The digits of a numeral: all of it but a plus sign in front.
pub open spec fn numeral_digits(bytes: Seq<u8>) -> Seq<u8> {
    if bytes.len() > 0 && bytes[0] == 43 {
        bytes.subrange(1, bytes.len() as int)
    } else {
        bytes
    }
}

/// The number that `bytes` write as a decimal numeral: digits, at least one,
/// with or without a plus sign in front, whose value fits in 64 bits.
/// Anything else writes no number.
pub open spec fn numeral_value(bytes: Seq<u8>) -> Option<u64> {
    let digits = numeral_digits(bytes);
    if digits.len() > 0 && all_digits(digits) && digits_value(digits) <= u64::MAX {
        Some(digits_value(digits) as u64)
    } else {
        None
    }
}

/// The value of digits is not below the value of the first `k` of them.
pub proof fn lemma_value_grows(digits: Seq<u8>, k: int)
    requires
        all_digits(digits),
        0 <= k <= digits.len(),
    ensures
        0 <= digits_value(digits.subrange(0, k)) <= digits_value(digits),
    decreases digits.len() - k,
{
    if k == digits.len() {
        assert(digits.subrange(0, k) =~= digits);
        lemma_value_not_negative(digits);
    } else {
        lemma_value_grows(digits, k + 1);
        let longer = digits.subrange(0, k + 1);
        assert(longer.drop_last() =~= digits.subrange(0, k));
        assert(48 <= longer.last()) by {
            assert(longer.last() == digits[k]);
        }
        assert(all_digits(digits.subrange(0, k))) by {
            assert forall|i: int| 0 <= i < k implies 48 <= #[trigger] digits.subrange(0, k)[i]
                <= 57 by {
                assert(digits.subrange(0, k)[i] == digits[i]);
            }
        }
        lemma_value_not_negative(digits.subrange(0, k));
    }
}

/// The value of digits is not negative.
pub proof fn lemma_value_not_negative(digits: Seq<u8>)
    requires
        all_digits(digits),
    ensures
        0 <= digits_value(digits),
    decreases digits.len(),
{
    if digits.len() > 0 {
        assert(all_digits(digits.drop_last())) by {
            assert forall|i: int| 0 <= i < digits.len() - 1 implies 48
                <= #[trigger] digits.drop_last()[i] <= 57 by {
                assert(digits.drop_last()[i] == digits[i]);
            }
        }
        lemma_value_not_negative(digits.drop_last());
        assert(48 <= digits[digits.len() - 1]);
    }
}

/// Reads a decimal numeral.
pub fn parse_decimal(bytes: &[u8]) -> (value: Option<u64>)
    ensures
        value == numeral_value(bytes@),
{
    let n = bytes.len();
    let start: usize = if n > 0 && bytes[0] == 43 {
        1
    } else {
        0
    };
    let ghost digits = numeral_digits(bytes@);
    assert(digits =~= bytes@.subrange(start as int, n as int));
    if start == n {
        return None;
    }
    let mut acc: u64 = 0;
    let mut i: usize = start;
    assert(digits.subrange(0, 0) =~= Seq::<u8>::empty());
    while i < n
        invariant
            start <= i <= n,
            n == bytes@.len(),
            digits == numeral_digits(bytes@),
            digits == bytes@.subrange(start as int, n as int),
            all_digits(digits.subrange(0, i - start)),
            acc == digits_value(digits.subrange(0, i - start)),
        decreases n - i,
    {
        let b = bytes[i];
        let ghost read = digits.subrange(0, i - start);
        let ghost longer = digits.subrange(0, i - start + 1);
        proof {
            assert(digits[i - start] == b);
            assert(longer.drop_last() =~= read);
            assert(longer.last() == b);
        }
        if b < 48 || b > 57 {
            assert(!all_digits(digits));
            return None;
        }
        let d: u64 = (b - 48) as u64;
        assert(all_digits(longer)) by {
            assert forall|k: int| 0 <= k < longer.len() implies 48 <= #[trigger] longer[k]
                <= 57 by {
                if k < read.len() {
                    assert(longer[k] == read[k]);
                }
            }
        }
        if acc > (u64::MAX - d) / 10 {
            proof {
                assert(digits_value(longer) > u64::MAX);
                if all_digits(digits) {
                    lemma_value_grows(digits, i - start + 1);
                }
            }
            return None;
        }
        acc = acc * 10 + d;
        i += 1;
    }
    assert(digits.subrange(0, n - start) =~= digits);
    Some(acc)
}

/// A hasher for tests: its digest is the number that the bytes last written
/// spell in decimal.
#[derive(Debug, Clone)]
pub struct IdentityHasher {
    hash: u64,
}

impl View for IdentityHasher {
    type V = u64;

    closed spec fn view(&self) -> u64 {
        self.hash
    }
}

impl IdentityHasher {
    /// A hasher whose digest is zero until a numeral is written.
    pub fn new() -> (hasher: Self)
        ensures
            hasher@ == 0,
    {
        IdentityHasher { hash: 0 }
    }

    /// Takes the number that `bytes` spell as the digest. Bytes that are no
    /// text leave the digest as it is; text has to be a decimal numeral.
    pub fn write(&mut self, bytes: &[u8])
        requires
            valid_utf8(bytes@) ==> numeral_value(bytes@) is Some,
        ensures
            final(self)@ == match numeral_value(bytes@) {
                Some(value) => value,
                None => old(self)@,
            },
    {
        match parse_decimal(bytes) {
            Some(value) => {
                self.hash = value;
            },
            None => {},
        }
    }

    /// The number last written.
    pub fn finish(&self) -> (digest: u64)
        ensures
            digest == self@,
    {
        self.hash
    }
}

impl Default for IdentityHasher {
    fn default() -> (hasher: Self)
        ensures
            hasher@ == 0,
    {
        IdentityHasher::new()
    }
}

/// A single byte `0xff` is no text.
pub proof fn lemma_end_mark_is_no_text()
    ensures
        !valid_utf8(seq![0xffu8]),
        numeral_value(seq![0xffu8]) is None,
{
    let mark = seq![0xffu8];
    assert(mark[0] == 0xffu8);
    assert(numeral_digits(mark) =~= mark);
    assert(!all_digits(mark));
}

impl HashOracle for IdentityHasher {
    /// The keys that are decimal numerals below 2^64.
    open spec fn accepts(key: Seq<char>) -> bool {
        numeral_value(encode_utf8(key)) is Some
    }

    /// The number that the key spells.
    open spec fn digest(key: Seq<char>) -> u64 {
        match numeral_value(encode_utf8(key)) {
            Some(value) => value,
            None => 0,
        }
    }

    /// Feeds the key to a new hasher as text is fed: its bytes, then the byte
    /// `0xff`.
    fn hash(key: &str) -> (h: u64) {
        let mut state = IdentityHasher::new();
        state.write(key.as_bytes());
        let end: [u8; 1] = [0xffu8];
        let tail = end.as_slice();
        proof {
            assert(tail@ =~= seq![0xffu8]);
            lemma_end_mark_is_no_text();
        }
        state.write(tail);
        state.finish()
    }
}

} // verus!
