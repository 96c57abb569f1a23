//! Text utilities: decoding the character that starts at a byte offset of a
//! string, and substring search over character sequences.

use vstd::prelude::*;
use vstd::string::StrSliceExecFns;
use vstd::string::StringSliceAdditionalSpecFns;
use vstd::utf8::decode_utf8;
use vstd::utf8::encode_utf8_decode_utf8;
use vstd::utf8::encode_utf8_valid_utf8;
use vstd::utf8::is_char_boundary;

verus! {

/// The character whose UTF-8 encoding starts at byte offset `off` of
/// `bytes`, when `off` is a character boundary inside the sequence.
pub open spec fn char_at_offset(bytes: Seq<u8>, off: int) -> Option<char> {
    if 0 <= off < bytes.len() && is_char_boundary(bytes, off) {
        Some(decode_utf8(bytes.subrange(off, bytes.len() as int))[0])
    } else {
        None
    }
}

/// Decodes the character starting at byte offset `off` of `line`;
/// `None` when the offset is out of range or not a character boundary.
pub fn char_at(line: &str, off: usize) -> (r: Option<char>)
    ensures
        r == char_at_offset(line.spec_bytes(), off as int),
{
    proof {
        encode_utf8_valid_utf8(line@);
    }
    if line.is_char_boundary(off) {
        proof {
            assert(off <= line.spec_bytes().len());
        }
        let (_, tail) = line.split_at(off);
        if !tail.is_empty() {
            proof {
                let bytes = line.spec_bytes();
                let sub = bytes.subrange(off as int, bytes.len() as int);
                assert(tail.spec_bytes() =~= sub);
                encode_utf8_decode_utf8(tail@);
                assert(decode_utf8(sub) =~= tail@);
            }
            let c = tail.get_char(0);
            proof {
                let bytes = line.spec_bytes();
                let sub = bytes.subrange(off as int, bytes.len() as int);
                assert(c == decode_utf8(sub)[0]);
                assert(sub.len() > 0) by {
                    assert(sub == vstd::utf8::encode_utf8(tail@));
                    assert(vstd::utf8::encode_scalar(tail@[0] as u32).len() >= 1);
                }
                assert(0 <= off < bytes.len());
                assert(char_at_offset(bytes, off as int) == Some(decode_utf8(sub)[0]));
            }
            Some(c)
        } else {
            proof {
                let bytes = line.spec_bytes();
                let sub = bytes.subrange(off as int, bytes.len() as int);
                assert(tail.spec_bytes() =~= sub);
                assert(vstd::utf8::encode_utf8(tail@) =~= Seq::<u8>::empty());
                assert(sub.len() == 0);
                assert(off >= bytes.len());
            }
            None
        }
    } else {
        None
    }
}

/// `needle` occurs as a contiguous subsequence of `hay`.
pub open spec fn contains_seq(hay: Seq<char>, needle: Seq<char>) -> bool {
    exists|i: int|
        0 <= i && i + needle.len() <= hay.len() && #[trigger] hay.subrange(i, i + needle.len())
            == needle
}

/// Substring search: whether `needle` occurs in `hay`.
pub fn contains_substr(hay: &str, needle: &str) -> (r: bool)
    ensures
        r == contains_seq(hay@, needle@),
{
    let n = hay.unicode_len();
    let m = needle.unicode_len();
    if m > n {
        return false;
    }
    if m == 0 {
        proof {
            assert(hay@.subrange(0, 0 + needle@.len() as int) =~= needle@);
        }
        return true;
    }
    let mut i: usize = 0;
    while i <= n - m
        invariant
            1 <= m <= n,
            n == hay@.len(),
            m == needle@.len(),
            i <= n - m + 1,
            forall|k: int|
                0 <= k < i ==> #[trigger] hay@.subrange(k, k + needle@.len()) != needle@,
        decreases n - i,
    {
        let mut j: usize = 0;
        let mut matched = true;
        while j < m
            invariant
                m <= n,
                n == hay@.len(),
                m == needle@.len(),
                i + m <= n,
                j <= m,
                matched ==> forall|k: int| 0 <= k < j ==> hay@[i + k] == needle@[k],
                !matched ==> hay@.subrange(i as int, i + needle@.len()) != needle@,
            decreases m - j,
        {
            if matched {
                let hc = hay.get_char(i + j);
                let nc = needle.get_char(j);
                if hc != nc {
                    proof {
                        let sub = hay@.subrange(i as int, i + needle@.len());
                        assert(sub[j as int] != needle@[j as int]);
                    }
                    matched = false;
                }
            }
            j = j + 1;
        }
        if matched {
            proof {
                assert(hay@.subrange(i as int, i + needle@.len()) =~= needle@);
            }
            return true;
        }
        i = i + 1;
    }
    proof {
        assert forall|k: int|
            0 <= k && k + needle@.len() <= hay@.len() implies #[trigger] hay@.subrange(
            k,
            k + needle@.len(),
        ) != needle@ by {
            assert(k < i);
        }
    }
    false
}

} // verus!
