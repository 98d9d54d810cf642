use vstd::prelude::*;

verus! {

/// A UTF-8 continuation byte, `0x80..=0xbf`.
pub open spec fn is_cont(b: u8) -> bool {
    0x80 <= b && b <= 0xbf
}

/// Length of the well-formed UTF-8 sequence starting at position `i` of `s`,
/// or `None` when the bytes at `i` do not begin one: a malformed leading
/// byte, an out-of-range continuation byte, or too few bytes left.
pub open spec fn utf8_seq_len(s: Seq<u8>, i: int) -> Option<int>
    recommends
        0 <= i < s.len(),
{
    let b0 = s[i];
    if b0 < 0x80 {
        Some(1)
    } else if 0xc2 <= b0 && b0 <= 0xdf {
        if i + 2 <= s.len() && is_cont(s[i + 1]) {
            Some(2)
        } else {
            None
        }
    } else if b0 == 0xe0 {
        if i + 3 <= s.len() && 0xa0 <= s[i + 1] && s[i + 1] <= 0xbf && is_cont(s[i + 2]) {
            Some(3)
        } else {
            None
        }
    } else if 0xe1 <= b0 && b0 <= 0xec || 0xee <= b0 && b0 <= 0xef {
        if i + 3 <= s.len() && is_cont(s[i + 1]) && is_cont(s[i + 2]) {
            Some(3)
        } else {
            None
        }
    } else if b0 == 0xed {
        if i + 3 <= s.len() && 0x80 <= s[i + 1] && s[i + 1] <= 0x9f && is_cont(s[i + 2]) {
            Some(3)
        } else {
            None
        }
    } else if b0 == 0xf0 {
        if i + 4 <= s.len() && 0x90 <= s[i + 1] && s[i + 1] <= 0xbf && is_cont(s[i + 2])
            && is_cont(s[i + 3]) {
            Some(4)
        } else {
            None
        }
    } else if 0xf1 <= b0 && b0 <= 0xf3 {
        if i + 4 <= s.len() && is_cont(s[i + 1]) && is_cont(s[i + 2]) && is_cont(s[i + 3]) {
            Some(4)
        } else {
            None
        }
    } else if b0 == 0xf4 {
        if i + 4 <= s.len() && 0x80 <= s[i + 1] && s[i + 1] <= 0x8f && is_cont(s[i + 2])
            && is_cont(s[i + 3]) {
            Some(4)
        } else {
            None
        }
    } else {
        None
    }
}

/// Position of the first invalid byte sequence at or after `i`, scanning
/// whole sequences from `i` on; `None` when everything from `i` is valid.
pub open spec fn utf8_invalid_from(s: Seq<u8>, i: int) -> Option<int>
    decreases s.len() - i,
{
    if i < 0 || i >= s.len() {
        None
    } else {
        match utf8_seq_len(s, i) {
            Some(k) => utf8_invalid_from(s, i + k),
            None => Some(i),
        }
    }
}

/// Byte offset of the first invalid UTF-8 sequence of `s`, or `None` when
/// `s` is valid UTF-8 throughout. The empty sequence is valid.
pub open spec fn utf8_first_invalid(s: Seq<u8>) -> Option<int> {
    utf8_invalid_from(s, 0)
}

/// An offset option lifted into the model.
pub open spec fn offset_model(o: Option<usize>) -> Option<int> {
    match o {
        Some(i) => Some(i as int),
        None => None,
    }
}

/// One continuation-byte test, shared by the validation branches.
fn cont(b: u8) -> (r: bool)
    ensures
        r == is_cont(b),
{
    0x80 <= b && b <= 0xbf
}

/// Scans `bytes` and returns the offset of the first byte sequence that is
/// not valid UTF-8, or `None` when the whole buffer is valid.
pub fn utf8_validate(bytes: &[u8]) -> (r: Option<usize>)
    ensures
        offset_model(r) == utf8_first_invalid(bytes@),
{
    let n = bytes.len();
    let mut i: usize = 0;
    while i < n
        invariant
            n == bytes@.len(),
            i <= n,
            utf8_first_invalid(bytes@) == utf8_invalid_from(bytes@, i as int),
        decreases n - i,
    {
        let b0 = bytes[i];
        if b0 < 0x80 {
            i = i + 1;
        } else if 0xc2 <= b0 && b0 <= 0xdf {
            if n - i >= 2 && cont(bytes[i + 1]) {
                i = i + 2;
            } else {
                return Some(i);
            }
        } else if b0 == 0xe0 {
            if n - i >= 3 && 0xa0 <= bytes[i + 1] && bytes[i + 1] <= 0xbf && cont(bytes[i + 2]) {
                i = i + 3;
            } else {
                return Some(i);
            }
        } else if 0xe1 <= b0 && b0 <= 0xec || 0xee <= b0 && b0 <= 0xef {
            if n - i >= 3 && cont(bytes[i + 1]) && cont(bytes[i + 2]) {
                i = i + 3;
            } else {
                return Some(i);
            }
        } else if b0 == 0xed {
            if n - i >= 3 && 0x80 <= bytes[i + 1] && bytes[i + 1] <= 0x9f && cont(bytes[i + 2]) {
                i = i + 3;
            } else {
                return Some(i);
            }
        } else if b0 == 0xf0 {
            if n - i >= 4 && 0x90 <= bytes[i + 1] && bytes[i + 1] <= 0xbf && cont(bytes[i + 2])
                && cont(bytes[i + 3]) {
                i = i + 4;
            } else {
                return Some(i);
            }
        } else if 0xf1 <= b0 && b0 <= 0xf3 {
            if n - i >= 4 && cont(bytes[i + 1]) && cont(bytes[i + 2]) && cont(bytes[i + 3]) {
                i = i + 4;
            } else {
                return Some(i);
            }
        } else if b0 == 0xf4 {
            if n - i >= 4 && 0x80 <= bytes[i + 1] && bytes[i + 1] <= 0x8f && cont(bytes[i + 2])
                && cont(bytes[i + 3]) {
                i = i + 4;
            } else {
                return Some(i);
            }
        } else {
            return Some(i);
        }
    }
    None
}

} // verus!
