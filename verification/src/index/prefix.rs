//! Prefixes of identifiers in hexadecimal digits, and what resolving a
//! prefix among identifiers comes to.

use crate::object_id::digit_value;
use crate::object_id::spec_digit_value;
use vstd::string::StringSliceAdditionalSpecFns;
use vstd::prelude::*;

verus! {

/// The hexadecimal digit at place `i` of the bytes, as a value below
/// sixteen.
pub open spec fn spec_nibble(bytes: Seq<u8>, i: int) -> u8 {
    if i % 2 == 0 {
        bytes[i / 2] / 16
    } else {
        bytes[i / 2] % 16
    }
}

/// The digits are the first digits of the bytes in hexadecimal.
pub open spec fn digits_match(digits: Seq<u8>, bytes: Seq<u8>) -> bool {
    &&& digits.len() <= 2 * bytes.len()
    &&& forall|i: int| 0 <= i < digits.len() ==> #[trigger] digits[i] == spec_nibble(bytes, i)
}

/// The first sequence is the beginning of the second.
pub open spec fn extends(shorter: Seq<u8>, longer: Seq<u8>) -> bool {
    shorter.len() <= longer.len() && longer.take(shorter.len() as int) == shorter
}

/// What a longer prefix matches, a prefix that it extends matches too.
pub proof fn lemma_match_extends(shorter: Seq<u8>, longer: Seq<u8>, bytes: Seq<u8>)
    requires
        extends(shorter, longer),
        digits_match(longer, bytes),
    ensures
        digits_match(shorter, bytes),
{
    assert forall|i: int| 0 <= i < shorter.len() implies #[trigger] shorter[i] == spec_nibble(
        bytes,
        i,
    ) by {
        assert(longer.take(shorter.len() as int)[i] == longer[i]);
    }
}

/// A prefix of an identifier, as hexadecimal digits; the number of digits
/// may be odd.
#[derive(Debug)]
pub struct HexPrefix {
    /// The digits, each as a value below sixteen.
    pub digits: Vec<u8>,
}

impl View for HexPrefix {
    type V = Seq<u8>;

    open spec fn view(&self) -> Seq<u8> {
        self.digits@
    }
}

/// The values of hexadecimal digits given as text.
pub open spec fn spec_digit_values(text: Seq<u8>) -> Seq<u8> {
    Seq::new(text.len(), |i: int| spec_digit_value(text[i]).unwrap())
}

/// The text holds hexadecimal digits only.
pub open spec fn all_hex_digits(text: Seq<u8>) -> bool {
    forall|i: int| 0 <= i < text.len() ==> spec_digit_value(#[trigger] text[i]).is_some()
}

impl HexPrefix {
    /// The prefix that the text spells; `None` unless the text holds
    /// hexadecimal digits only.
    pub fn new(prefix: &str) -> (r: Option<HexPrefix>)
        ensures
            r.is_some() == all_hex_digits(prefix.spec_bytes()),
            r.is_some() ==> r.unwrap()@ == spec_digit_values(prefix.spec_bytes()),
    {
        let text: &[u8] = prefix.as_bytes();
        let mut digits: Vec<u8> = Vec::new();
        let mut i: usize = 0;
        while i < text.len()
            invariant
                text@ == prefix.spec_bytes(),
                i <= text.len(),
                digits.len() == i,
                forall|j: int| 0 <= j < i ==> spec_digit_value(#[trigger] text[j]).is_some(),
                forall|j: int| 0 <= j < i ==> digits[j] == spec_digit_value(text[j]).unwrap(),
            decreases text.len() - i,
        {
            match digit_value(text[i]) {
                Some(value) => {
                    digits.push(value);
                },
                None => {
                    proof {
                        assert(spec_digit_value(text@[i as int]).is_none());
                    }
                    return None;
                },
            }
            i += 1;
        }
        proof {
            assert(digits@ =~= spec_digit_values(text@));
        }
        Some(HexPrefix { digits })
    }

    /// The prefix made of all digits of the bytes.
    pub fn from_bytes(bytes: &[u8]) -> (r: HexPrefix)
        requires
            2 * bytes.len() <= usize::MAX,
        ensures
            digits_match(r@, bytes@),
            r@.len() == 2 * bytes.len(),
    {
        let mut digits: Vec<u8> = Vec::new();
        let mut i: usize = 0;
        while i < bytes.len()
            invariant
                i <= bytes.len(),
                digits.len() == 2 * i,
                forall|j: int| 0 <= j < 2 * i ==> #[trigger] digits[j] == spec_nibble(bytes@, j),
            decreases bytes.len() - i,
        {
            digits.push(bytes[i] / 16);
            digits.push(bytes[i] % 16);
            i += 1;
        }
        HexPrefix { digits }
    }

    /// The number of digits.
    pub fn len(&self) -> (n: usize)
        ensures
            n == self@.len(),
    {
        self.digits.len()
    }

    /// Whether the identifier begins with the digits of the prefix.
    pub fn matches(&self, id: &[u8]) -> (r: bool)
        ensures
            r == digits_match(self@, id@),
    {
        if self.digits.len() / 2 > id.len() || (self.digits.len() / 2 == id.len()
            && self.digits.len() % 2 == 1) {
            return false;
        }
        let mut i: usize = 0;
        while i < self.digits.len()
            invariant
                self.digits.len() <= 2 * id.len(),
                i <= self.digits.len(),
                forall|j: int| 0 <= j < i ==> #[trigger] self.digits[j] == spec_nibble(id@, j),
            decreases self.digits.len() - i,
        {
            let byte: u8 = id[i / 2];
            let nibble: u8 = if i % 2 == 0 {
                byte / 16
            } else {
                byte % 16
            };
            if self.digits[i] != nibble {
                return false;
            }
            i += 1;
        }
        true
    }
}

/// The number of hexadecimal digits that two identifiers have in common
/// from the start on.
pub open spec fn spec_common_hex_len(a: Seq<u8>, b: Seq<u8>, from: int) -> int
    decreases 2 * a.len() - from,
{
    if 0 <= from < 2 * a.len() && from < 2 * b.len() && spec_nibble(a, from) == spec_nibble(b, from) {
        1 + spec_common_hex_len(a, b, from + 1)
    } else {
        0
    }
}

/// Calculates common prefix length of two byte sequences. The length to be
/// returned is a number of hexadecimal digits.
pub fn common_hex_len(bytes_a: &[u8], bytes_b: &[u8]) -> (n: usize)
    requires
        2 * bytes_a.len() <= usize::MAX,
    ensures
        n == spec_common_hex_len(bytes_a@, bytes_b@, 0),
        n <= 2 * bytes_a.len(),
        n <= 2 * bytes_b.len(),
{
    let mut i: usize = 0;
    while i < bytes_a.len() && i < bytes_b.len()
        invariant
            2 * bytes_a.len() <= usize::MAX,
            i <= bytes_a.len(),
            i <= bytes_b.len(),
            spec_common_hex_len(bytes_a@, bytes_b@, 0) == 2 * i + spec_common_hex_len(
                bytes_a@,
                bytes_b@,
                2 * i,
            ),
        decreases bytes_a.len() - i,
    {
        let a: u8 = bytes_a[i];
        let b: u8 = bytes_b[i];
        proof {
            assert(spec_nibble(bytes_a@, 2 * i) == a / 16);
            assert(spec_nibble(bytes_b@, 2 * i) == b / 16);
            assert(spec_nibble(bytes_a@, 2 * i + 1) == a % 16);
            assert(spec_nibble(bytes_b@, 2 * i + 1) == b % 16);
        }
        if a / 16 != b / 16 {
            return 2 * i;
        }
        if a % 16 != b % 16 {
            proof {
                assert(spec_common_hex_len(bytes_a@, bytes_b@, 2 * i) == 1
                    + spec_common_hex_len(bytes_a@, bytes_b@, 2 * i + 1));
            }
            return 2 * i + 1;
        }
        proof {
            assert(spec_common_hex_len(bytes_a@, bytes_b@, 2 * i) == 1 + spec_common_hex_len(
                bytes_a@,
                bytes_b@,
                2 * i + 1,
            ));
            assert(spec_common_hex_len(bytes_a@, bytes_b@, 2 * i + 1) == 1
                + spec_common_hex_len(bytes_a@, bytes_b@, 2 * i + 2));
        }
        i += 1;
    }
    2 * i
}

/// Whether the first byte sequence comes before the second, byte by byte;
/// a sequence comes before those that it begins.
pub open spec fn spec_bytes_less(a: Seq<u8>, b: Seq<u8>) -> bool {
    exists|k: int|
        0 <= k <= a.len() && k <= b.len() && #[trigger] a.take(k) == b.take(k) && (if k == a.len() {
            k < b.len()
        } else {
            k < b.len() && a[k] < b[k]
        })
}

/// Whether the first byte sequence comes before the second.
pub fn bytes_less(a: &[u8], b: &[u8]) -> (r: bool)
    ensures
        r == spec_bytes_less(a@, b@),
{
    let mut k: usize = 0;
    while k < a.len() && k < b.len()
        invariant
            k <= a.len(),
            k <= b.len(),
            a@.take(k as int) == b@.take(k as int),
        decreases a.len() - k,
    {
        if a[k] != b[k] {
            proof {
                lemma_bytes_less_at(a@, b@, k as int);
            }
            return a[k] < b[k];
        }
        proof {
            assert(a@.take(k + 1) =~= a@.take(k as int).push(a[k as int]));
            assert(b@.take(k + 1) =~= b@.take(k as int).push(b[k as int]));
        }
        k += 1;
    }
    proof {
        lemma_bytes_less_at(a@, b@, k as int);
    }
    k < b.len()
}

/// Where two byte sequences differ first, or one of them ends, decides
/// which comes first.
pub proof fn lemma_bytes_less_at(a: Seq<u8>, b: Seq<u8>, k: int)
    requires
        0 <= k <= a.len(),
        k <= b.len(),
        a.take(k) == b.take(k),
        k == a.len() || k == b.len() || a[k] != b[k],
    ensures
        spec_bytes_less(a, b) == (if k == a.len() {
            k < b.len()
        } else {
            k < b.len() && a[k] < b[k]
        }),
{
    if spec_bytes_less(a, b) {
        let j = choose|j: int|
            0 <= j <= a.len() && j <= b.len() && #[trigger] a.take(j) == b.take(j) && (if j
                == a.len() {
                j < b.len()
            } else {
                j < b.len() && a[j] < b[j]
            });
        if j < k {
            assert(a.take(k)[j] == a[j] && b.take(k)[j] == b[j]);
        } else if j > k {
            assert(a.take(j)[k] == a[k] && b.take(j)[k] == b[k]);
        }
    }
}

/// What resolving a prefix comes to.
#[derive(Debug, PartialEq, Eq)]
pub enum PrefixResolution<T> {
    NoMatch,
    SingleMatch(T),
    AmbiguousMatch,
}

impl<T> PrefixResolution<T> {
    /// The two results taken together: a match on either side is a match;
    /// a match on both sides is ambiguous.
    pub open spec fn spec_plus(self, other: PrefixResolution<T>) -> PrefixResolution<T> {
        match (self, other) {
            (PrefixResolution::NoMatch, other) => other,
            (local, PrefixResolution::NoMatch) => local,
            _ => PrefixResolution::AmbiguousMatch,
        }
    }

    /// The two results taken together.
    pub fn plus(self, other: PrefixResolution<T>) -> (r: PrefixResolution<T>)
        ensures
            r == self.spec_plus(other),
    {
        match (self, other) {
            (PrefixResolution::NoMatch, other) => other,
            (local, PrefixResolution::NoMatch) => local,
            _ => PrefixResolution::AmbiguousMatch,
        }
    }

    pub fn is_ambiguous(&self) -> (r: bool)
        ensures
            r == (*self == PrefixResolution::<T>::AmbiguousMatch),
    {
        match self {
            PrefixResolution::AmbiguousMatch => true,
            _ => false,
        }
    }
}

} // verus!
