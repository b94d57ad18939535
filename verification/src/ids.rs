//! Commit identifiers: raw object hashes and their hexadecimal text form.

use vstd::prelude::*;

use vstd::string::StringSliceAdditionalSpecFns;

use crate::CoreError;

verus! {

/// A commit identifier: the raw bytes of the object hash.  Equality of the
/// bytes is the only operation the graph analysis needs.
#[derive(Debug)]
pub struct CommitId {
    pub bytes: Vec<u8>,
}

impl View for CommitId {
    type V = Seq<u8>;

    open spec fn view(&self) -> Seq<u8> {
        self.bytes@
    }
}

impl DeepView for CommitId {
    type V = Seq<u8>;

    open spec fn deep_view(&self) -> Seq<u8> {
        self.bytes@
    }
}

/// True when two byte vectors hold the same bytes.
pub fn bytes_equal(a: &Vec<u8>, b: &Vec<u8>) -> (r: bool)
    ensures
        r == (a@ == b@),
{
    if a.len() != b.len() {
        return false;
    }
    let n = a.len();
    let mut i: usize = 0;
    while i < n
        invariant
            n == a@.len() == b@.len(),
            0 <= i <= n,
            forall|j: int| 0 <= j < i ==> a@[j] == b@[j],
        decreases n - i,
    {
        if a[i] != b[i] {
            return false;
        }
        i = i + 1;
    }
    proof {
        assert(a@ =~= b@);
    }
    true
}

impl PartialEq for CommitId {
    fn eq(&self, other: &CommitId) -> (r: bool) {
        bytes_equal(&self.bytes, &other.bytes)
    }
}

impl vstd::std_specs::cmp::PartialEqSpecImpl for CommitId {
    open spec fn obeys_eq_spec() -> bool {
        true
    }

    open spec fn eq_spec(&self, other: &CommitId) -> bool {
        self.bytes@ == other.bytes@
    }
}

impl Eq for CommitId {

}

impl CommitId {
    /// A fresh identifier holding the same bytes.
    pub fn duplicate(&self) -> (r: CommitId)
        ensures
            r@ == self@,
    {
        CommitId { bytes: crate::text::copy_bytes(&self.bytes) }
    }
}

/// True for the ASCII digits and the upper- and lower-case hex letters.
pub open spec fn is_hex_digit(b: u8) -> bool {
    (48 <= b <= 57) || (65 <= b <= 70) || (97 <= b <= 102)
}

/// The numeric value of a hex digit.
pub open spec fn hex_val(b: u8) -> int {
    if 48 <= b <= 57 {
        b - 48
    } else if 65 <= b <= 70 {
        b - 55
    } else {
        b - 87
    }
}

/// A syntactically valid commit identifier: one to forty hex digits.
/// Shorter text names a hash prefix, filled with zeroes at the end.
pub open spec fn valid_hex_id(s: Seq<u8>) -> bool {
    1 <= s.len() <= 40 && forall|i: int| 0 <= i < s.len() ==> is_hex_digit(#[trigger] s[i])
}

/// The hex digit at position `i`, or zero past the end of the text.
pub open spec fn hex_nibble(s: Seq<u8>, i: int) -> int {
    if i < s.len() {
        hex_val(s[i])
    } else {
        0
    }
}

/// The twenty hash bytes that hex identifier text denotes, zero-filled
/// past the written digits.
pub open spec fn hex_decoded(s: Seq<u8>) -> Seq<u8> {
    Seq::new(20, |i: int| (hex_nibble(s, 2 * i) * 16 + hex_nibble(s, 2 * i + 1)) as u8)
}

/// The lower-case hex digit for a value below sixteen.
pub open spec fn hex_digit_char(v: int) -> u8 {
    if v < 10 {
        (48 + v) as u8
    } else {
        (87 + v) as u8
    }
}

/// The lower-case hex text for a byte string.
pub open spec fn hex_encoded(id: Seq<u8>) -> Seq<u8> {
    Seq::new(
        2 * id.len(),
        |i: int|
            if i % 2 == 0 {
                hex_digit_char(id[i / 2] as int / 16)
            } else {
                hex_digit_char(id[i / 2] as int % 16)
            },
    )
}

/// The value of one hex digit byte, or `None` when the byte is no hex digit.
fn hex_digit_value(b: u8) -> (r: Option<u8>)
    ensures
        r matches Some(v) ==> is_hex_digit(b) && v == hex_val(b),
        r is None ==> !is_hex_digit(b),
{
    if 48 <= b && b <= 57 {
        Some(b - 48)
    } else if 65 <= b && b <= 70 {
        Some(b - 55)
    } else if 97 <= b && b <= 102 {
        Some(b - 87)
    } else {
        None
    }
}

impl CommitId {
    /// Parses a commit identifier from hex text of one to forty digits;
    /// shorter text names a hash prefix and is zero-filled at the end.
    /// Empty text, text past forty digits, or a non-hex character is
    /// malformed and rejected before any repository work starts.
    pub fn from_hex(text: &str) -> (r: Result<CommitId, CoreError>)
        ensures
            valid_hex_id(text.spec_bytes()) ==> (r matches Ok(id) && id@ == hex_decoded(
                text.spec_bytes(),
            )),
            !valid_hex_id(text.spec_bytes()) ==> (r matches Err(e) && e == CoreError::Malformed),
    {
        let s = text.as_bytes();
        if s.len() == 0 || s.len() > 40 {
            return Err(CoreError::Malformed);
        }
        let mut bytes: Vec<u8> = Vec::new();
        let mut i: usize = 0;
        while i < 20
            invariant
                s@ == text.spec_bytes(),
                1 <= s@.len() <= 40,
                0 <= i <= 20,
                bytes@.len() == i,
                forall|j: int| 0 <= j < 2 * i && j < s@.len() ==> is_hex_digit(#[trigger] s@[j]),
                forall|j: int|
                    0 <= j < i ==> #[trigger] bytes@[j] == (hex_nibble(s@, 2 * j) * 16 + hex_nibble(
                        s@,
                        2 * j + 1,
                    )) as u8,
            decreases 20 - i,
        {
            let hi = if 2 * i < s.len() {
                match hex_digit_value(s[2 * i]) {
                    Some(v) => v,
                    None => {
                        return Err(CoreError::Malformed);
                    },
                }
            } else {
                0
            };
            let lo = if 2 * i + 1 < s.len() {
                match hex_digit_value(s[2 * i + 1]) {
                    Some(v) => v,
                    None => {
                        return Err(CoreError::Malformed);
                    },
                }
            } else {
                0
            };
            proof {
                assert(hi == hex_nibble(s@, 2 * i));
                assert(lo == hex_nibble(s@, 2 * i + 1));
            }
            bytes.push(hi * 16 + lo);
            i = i + 1;
        }
        proof {
            assert(valid_hex_id(text.spec_bytes()));
            assert(bytes@ =~= hex_decoded(text.spec_bytes()));
        }
        Ok(CommitId { bytes })
    }

    /// The lower-case hex text of this identifier, as bytes.
    pub fn to_hex_bytes(&self) -> (r: Vec<u8>)
        ensures
            r@ == hex_encoded(self@),
    {
        let n = self.bytes.len();
        let mut out: Vec<u8> = Vec::new();
        let mut i: usize = 0;
        while i < n
            invariant
                n == self.bytes@.len(),
                0 <= i <= n,
                out@.len() == 2 * i,
                forall|j: int| 0 <= j < 2 * i ==> out@[j] == hex_encoded(self.bytes@)[j],
            decreases n - i,
        {
            let b = self.bytes[i];
            let hi = b / 16;
            let lo = b % 16;
            out.push(if hi < 10 {
                48 + hi
            } else {
                87 + hi
            });
            out.push(if lo < 10 {
                48 + lo
            } else {
                87 + lo
            });
            i = i + 1;
        }
        proof {
            assert(out@ =~= hex_encoded(self@));
        }
        out
    }
}

} // verus!
