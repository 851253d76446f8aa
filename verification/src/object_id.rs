//! Identifiers of stored objects as bytes, and their hexadecimal form.

use vstd::prelude::*;
use vstd::string::*;

verus! {

/// The hexadecimal digit of a value below sixteen, as an ASCII byte.
pub open spec fn spec_hex_digit(n: u8) -> u8 {
    if n < 10 {
        (0x30 + n) as u8
    } else {
        (0x61 + (n - 10)) as u8
    }
}

/// The bytes in hexadecimal, two lower-case digits for each.
pub open spec fn spec_hex(bytes: Seq<u8>) -> Seq<u8> {
    Seq::new(
        2 * bytes.len(),
        |i: int|
            if i % 2 == 0 {
                spec_hex_digit(bytes[i / 2] / 16)
            } else {
                spec_hex_digit(bytes[i / 2] % 16)
            },
    )
}

/// The value of a hexadecimal digit, of either case.
pub open spec fn spec_digit_value(c: u8) -> Option<u8> {
    if 0x30 <= c <= 0x39 {
        Some((c - 0x30) as u8)
    } else if 0x61 <= c <= 0x66 {
        Some((c - 0x61 + 10) as u8)
    } else if 0x41 <= c <= 0x46 {
        Some((c - 0x41 + 10) as u8)
    } else {
        None
    }
}

/// The text is an even number of hexadecimal digits.
pub open spec fn is_hex(text: Seq<u8>) -> bool {
    &&& text.len() % 2 == 0
    &&& forall|i: int| 0 <= i < text.len() ==> spec_digit_value(#[trigger] text[i]).is_some()
}

/// The bytes that hexadecimal digits stand for.
pub open spec fn spec_unhex(text: Seq<u8>) -> Seq<u8> {
    Seq::new(
        text.len() / 2,
        |i: int|
            (spec_digit_value(text[2 * i]).unwrap() * 16 + spec_digit_value(
                text[2 * i + 1],
            ).unwrap()) as u8,
    )
}

/// Decoding what was encoded gives the bytes again.
pub proof fn lemma_unhex_hex(bytes: Seq<u8>)
    ensures
        is_hex(spec_hex(bytes)),
        spec_unhex(spec_hex(bytes)) == bytes,
{
    let text = spec_hex(bytes);
    assert forall|i: int| 0 <= i < text.len() implies spec_digit_value(#[trigger] text[i]).is_some() by {
        let b = bytes[i / 2];
        assert(b / 16 < 16 && b % 16 < 16);
    }
    assert forall|i: int| 0 <= i < bytes.len() implies spec_unhex(text)[i] == bytes[i] by {
        let b = bytes[i];
        assert(text[2 * i] == spec_hex_digit(b / 16));
        assert(text[2 * i + 1] == spec_hex_digit(b % 16));
        assert(b / 16 < 16 && b % 16 < 16);
        assert((b / 16) * 16 + b % 16 == b);
    }
    assert(spec_unhex(text) =~= bytes);
}

/// The hexadecimal digit of a value below sixteen.
pub fn hex_digit(n: u8) -> (c: u8)
    requires
        n < 16,
    ensures
        c == spec_hex_digit(n),
{
    if n < 10 {
        0x30 + n
    } else {
        0x61 + (n - 10)
    }
}

/// The value of a hexadecimal digit.
pub fn digit_value(c: u8) -> (v: Option<u8>)
    ensures
        v == spec_digit_value(c),
{
    if 0x30 <= c && c <= 0x39 {
        Some(c - 0x30)
    } else if 0x61 <= c && c <= 0x66 {
        Some(c - 0x61 + 10)
    } else if 0x41 <= c && c <= 0x46 {
        Some(c - 0x41 + 10)
    } else {
        None
    }
}

/// Encodes bytes as lower-case hexadecimal digits.
pub fn encode_hex(bytes: &[u8]) -> (text: Vec<u8>)
    requires
        2 * bytes.len() <= usize::MAX,
    ensures
        text@ == spec_hex(bytes@),
{
    let mut text: Vec<u8> = Vec::new();
    let mut i: usize = 0;
    while i < bytes.len()
        invariant
            i <= bytes.len(),
            text.len() == 2 * i,
            forall|j: int| 0 <= j < 2 * i ==> text[j] == spec_hex(bytes@)[j],
        decreases bytes.len() - i,
    {
        let b: u8 = bytes[i];
        text.push(hex_digit(b / 16));
        text.push(hex_digit(b % 16));
        i += 1;
    }
    proof {
        assert(text@ =~= spec_hex(bytes@));
    }
    text
}

/// Decodes hexadecimal digits; `None` unless the text is an even number of
/// such digits.
pub fn decode_hex(text: &[u8]) -> (bytes: Option<Vec<u8>>)
    ensures
        bytes.is_some() == is_hex(text@),
        bytes.is_some() ==> bytes.unwrap()@ == spec_unhex(text@),
{
    if text.len() % 2 != 0 {
        return None;
    }
    let mut bytes: Vec<u8> = Vec::new();
    let mut i: usize = 0;
    while i < text.len() / 2
        invariant
            text.len() % 2 == 0,
            i <= text.len() / 2,
            bytes.len() == i,
            forall|j: int| 0 <= j < 2 * i ==> spec_digit_value(#[trigger] text[j]).is_some(),
            forall|j: int| 0 <= j < i ==> bytes[j] == spec_unhex(text@)[j],
        decreases text.len() / 2 - i,
    {
        let high: Option<u8> = digit_value(text[2 * i]);
        let low: Option<u8> = digit_value(text[2 * i + 1]);
        match (high, low) {
            (Some(h), Some(l)) => {
                bytes.push(h * 16 + l);
            },
            _ => {
                return None;
            },
        }
        i += 1;
    }
    proof {
        assert(bytes@ =~= spec_unhex(text@));
    }
    Some(bytes)
}

/// Whether two byte vectors hold the same bytes.
pub fn same_bytes(left: &Vec<u8>, right: &Vec<u8>) -> (r: bool)
    ensures
        r == (left@ == right@),
{
    if left.len() != right.len() {
        return false;
    }
    let mut i: usize = 0;
    while i < left.len()
        invariant
            i <= left.len(),
            left.len() == right.len(),
            forall|k: int| 0 <= k < i ==> left[k] == right[k],
        decreases left.len() - i,
    {
        if left[i] != right[i] {
            return false;
        }
        i += 1;
    }
    proof {
        assert(left@ =~= right@);
    }
    true
}

/// A copy of a byte vector.
pub fn copy_bytes(bytes: &Vec<u8>) -> (copy: Vec<u8>)
    ensures
        copy@ == bytes@,
{
    let mut copy: Vec<u8> = Vec::new();
    let mut i: usize = 0;
    while i < bytes.len()
        invariant
            i <= bytes.len(),
            copy.len() == i,
            forall|k: int| 0 <= k < i ==> copy[k] == bytes[k],
        decreases bytes.len() - i,
    {
        copy.push(bytes[i]);
        i += 1;
    }
    proof {
        assert(copy@ =~= bytes@);
    }
    copy
}

/// Identifier of a commit: opaque bytes, ordered by byte value.
#[derive(Debug, Hash, PartialOrd, Ord)]
pub struct CommitId {
    pub id: Vec<u8>,
}

impl View for CommitId {
    type V = Seq<u8>;

    open spec fn view(&self) -> Seq<u8> {
        self.id@
    }
}

impl PartialEq for CommitId {
    fn eq(&self, other: &Self) -> (r: bool) {
        same_bytes(&self.id, &other.id)
    }
}

impl Eq for CommitId {

}

impl vstd::std_specs::cmp::PartialEqSpecImpl for CommitId {
    open spec fn obeys_eq_spec() -> bool {
        true
    }

    open spec fn eq_spec(&self, other: &Self) -> bool {
        self.id@ == other.id@
    }
}

impl Clone for CommitId {
    fn clone(&self) -> (copy: Self)
        ensures
            copy@ == self@,
    {
        CommitId { id: copy_bytes(&self.id) }
    }
}

impl CommitId {
    pub fn new(id: Vec<u8>) -> (r: Self)
        ensures
            r@ == id@,
    {
        CommitId { id }
    }

    pub fn from_bytes(bytes: &[u8]) -> (r: Self)
        ensures
            r@ == bytes@,
    {
        CommitId { id: vstd::slice::slice_to_vec(bytes) }
    }

    /// The identifier that the hexadecimal digits stand for, if they are an
    /// even number of such digits.
    pub fn try_from_hex(hex: &str) -> (r: Option<Self>)
        ensures
            r.is_some() == is_hex(hex.spec_bytes()),
            r.is_some() ==> r.unwrap()@ == spec_unhex(hex.spec_bytes()),
    {
        match decode_hex(hex.as_bytes()) {
            Some(id) => Some(CommitId { id }),
            None => None,
        }
    }

    /// The identifier that the hexadecimal digits stand for.
    pub fn from_hex(hex: &str) -> (r: Self)
        requires
            is_hex(hex.spec_bytes()),
        ensures
            r@ == spec_unhex(hex.spec_bytes()),
    {
        match decode_hex(hex.as_bytes()) {
            Some(id) => CommitId { id },
            None => CommitId { id: Vec::new() },
        }
    }

    pub fn as_bytes(&self) -> (bytes: &[u8])
        ensures
            bytes@ == self@,
    {
        self.id.as_slice()
    }

    pub fn to_bytes(&self) -> (bytes: Vec<u8>)
        ensures
            bytes@ == self@,
    {
        copy_bytes(&self.id)
    }

    /// The identifier in hexadecimal digits, as ASCII bytes.
    pub fn hex_bytes(&self) -> (text: Vec<u8>)
        requires
            2 * self@.len() <= usize::MAX,
        ensures
            text@ == spec_hex(self@),
    {
        encode_hex(self.id.as_slice())
    }
}

/// Identifier of a change: stays the same when the change is rewritten.
#[derive(Debug, Hash, PartialOrd, Ord)]
pub struct ChangeId {
    pub id: Vec<u8>,
}

impl View for ChangeId {
    type V = Seq<u8>;

    open spec fn view(&self) -> Seq<u8> {
        self.id@
    }
}

impl PartialEq for ChangeId {
    fn eq(&self, other: &Self) -> (r: bool) {
        same_bytes(&self.id, &other.id)
    }
}

impl Eq for ChangeId {

}

impl vstd::std_specs::cmp::PartialEqSpecImpl for ChangeId {
    open spec fn obeys_eq_spec() -> bool {
        true
    }

    open spec fn eq_spec(&self, other: &Self) -> bool {
        self.id@ == other.id@
    }
}

impl Clone for ChangeId {
    fn clone(&self) -> (copy: Self)
        ensures
            copy@ == self@,
    {
        ChangeId { id: copy_bytes(&self.id) }
    }
}

impl ChangeId {
    pub fn new(id: Vec<u8>) -> (r: Self)
        ensures
            r@ == id@,
    {
        ChangeId { id }
    }

    pub fn from_bytes(bytes: &[u8]) -> (r: Self)
        ensures
            r@ == bytes@,
    {
        ChangeId { id: vstd::slice::slice_to_vec(bytes) }
    }

    pub fn as_bytes(&self) -> (bytes: &[u8])
        ensures
            bytes@ == self@,
    {
        self.id.as_slice()
    }

    pub fn to_bytes(&self) -> (bytes: Vec<u8>)
        ensures
            bytes@ == self@,
    {
        copy_bytes(&self.id)
    }
}

/// The hexadecimal digit of a value below sixteen, as a character.
pub open spec fn spec_hex_char(n: u8) -> char {
    if n == 0 {
        '0'
    } else if n == 1 {
        '1'
    } else if n == 2 {
        '2'
    } else if n == 3 {
        '3'
    } else if n == 4 {
        '4'
    } else if n == 5 {
        '5'
    } else if n == 6 {
        '6'
    } else if n == 7 {
        '7'
    } else if n == 8 {
        '8'
    } else if n == 9 {
        '9'
    } else if n == 10 {
        'a'
    } else if n == 11 {
        'b'
    } else if n == 12 {
        'c'
    } else if n == 13 {
        'd'
    } else if n == 14 {
        'e'
    } else {
        'f'
    }
}

/// The bytes in hexadecimal, as characters.
pub open spec fn spec_hex_chars(bytes: Seq<u8>) -> Seq<char> {
    Seq::new(
        2 * bytes.len(),
        |i: int|
            if i % 2 == 0 {
                spec_hex_char(bytes[i / 2] / 16)
            } else {
                spec_hex_char(bytes[i / 2] % 16)
            },
    )
}

/// The hexadecimal digit of a value below sixteen, as a string.
pub fn hex_digit_str(n: u8) -> (s: &'static str)
    requires
        n < 16,
    ensures
        s@ == seq![spec_hex_char(n)],
{
    proof {
        reveal_strlit("0");
        reveal_strlit("1");
        reveal_strlit("2");
        reveal_strlit("3");
        reveal_strlit("4");
        reveal_strlit("5");
        reveal_strlit("6");
        reveal_strlit("7");
        reveal_strlit("8");
        reveal_strlit("9");
        reveal_strlit("a");
        reveal_strlit("b");
        reveal_strlit("c");
        reveal_strlit("d");
        reveal_strlit("e");
        reveal_strlit("f");
    }
    let s: &'static str = if n == 0 {
        "0"
    } else if n == 1 {
        "1"
    } else if n == 2 {
        "2"
    } else if n == 3 {
        "3"
    } else if n == 4 {
        "4"
    } else if n == 5 {
        "5"
    } else if n == 6 {
        "6"
    } else if n == 7 {
        "7"
    } else if n == 8 {
        "8"
    } else if n == 9 {
        "9"
    } else if n == 10 {
        "a"
    } else if n == 11 {
        "b"
    } else if n == 12 {
        "c"
    } else if n == 13 {
        "d"
    } else if n == 14 {
        "e"
    } else {
        "f"
    };
    proof {
        assert(s@ =~= seq![spec_hex_char(n)]);
    }
    s
}

/// The bytes in hexadecimal, as a string.
pub fn hex_string(bytes: &[u8]) -> (text: String)
    ensures
        text@ == spec_hex_chars(bytes@),
{
    let mut text: String = String::new();
    let mut i: usize = 0;
    while i < bytes.len()
        invariant
            i <= bytes.len(),
            text@.len() == 2 * i,
            forall|j: int| 0 <= j < 2 * i ==> text@[j] == spec_hex_chars(bytes@)[j],
        decreases bytes.len() - i,
    {
        let b: u8 = bytes[i];
        text.append(hex_digit_str(b / 16));
        text.append(hex_digit_str(b % 16));
        i += 1;
    }
    proof {
        assert(text@ =~= spec_hex_chars(bytes@));
    }
    text
}

impl CommitId {
    /// The identifier in hexadecimal digits.
    pub fn hex(&self) -> (text: String)
        ensures
            text@ == spec_hex_chars(self@),
    {
        hex_string(self.id.as_slice())
    }
}

impl ChangeId {
    /// The identifier in hexadecimal digits.
    pub fn hex(&self) -> (text: String)
        ensures
            text@ == spec_hex_chars(self@),
    {
        hex_string(self.id.as_slice())
    }
}

} // verus!
