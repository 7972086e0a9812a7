//! UTF-16 names: decoding, their UTF-8 byte length, and the shortening that
//! keeps them within file system limits.
use vstd::prelude::*;

verus! {

pub open spec fn is_high_surrogate(u: u16) -> bool {
    0xD800 <= u <= 0xDBFF
}

pub open spec fn is_low_surrogate(u: u16) -> bool {
    0xDC00 <= u <= 0xDFFF
}

/// The scalar value that a surrogate pair stands for.
pub open spec fn pair_scalar(hi: u16, lo: u16) -> u32 {
    (0x10000 + (hi - 0xD800) * 0x400 + (lo - 0xDC00)) as u32
}

/// The characters that the UTF-16 code units `u` encode, or `None` where a
/// surrogate stands unpaired.
pub open spec fn decode_utf16(u: Seq<u16>) -> Option<Seq<char>>
    decreases u.len(),
{
    if u.len() == 0 {
        Some(Seq::empty())
    } else if is_high_surrogate(u[0]) {
        if u.len() >= 2 && is_low_surrogate(u[1]) {
            match decode_utf16(u.skip(2)) {
                Some(rest) => Some(seq![pair_scalar(u[0], u[1]) as char] + rest),
                None => None,
            }
        } else {
            None
        }
    } else if is_low_surrogate(u[0]) {
        None
    } else {
        match decode_utf16(u.skip(1)) {
            Some(rest) => Some(seq![u[0] as u32 as char] + rest),
            None => None,
        }
    }
}

/// Code units read little-endian from pairs of bytes.
pub open spec fn utf16_units(b: Seq<u8>) -> Seq<u16> {
    Seq::new(b.len() / 2, |i: int| (b[2 * i] as nat + 256 * (b[2 * i + 1] as nat)) as u16)
}

/// Relies on `String::from_utf16`: it decodes well-formed UTF-16 and returns
/// an error where a surrogate stands unpaired.
#[verifier::external_body]
pub(crate) fn string_from_utf16(units: &[u16]) -> (r: Option<String>)
    ensures
        match decode_utf16(units@) {
            Some(c) => r is Some && r.unwrap()@ == c,
            None => r is None,
        },
{
    String::from_utf16(units).ok()
}

/// The number of bytes that `c` takes in UTF-8.
pub open spec fn char_width(c: char) -> nat {
    let v = c as u32;
    if v < 0x80 {
        1
    } else if v < 0x800 {
        2
    } else if v < 0x10000 {
        3
    } else {
        4
    }
}

/// The number of bytes that `s` takes in UTF-8.
pub open spec fn utf8_len(s: Seq<char>) -> nat
    decreases s.len(),
{
    if s.len() == 0 {
        0
    } else {
        utf8_len(s.drop_last()) + char_width(s.last())
    }
}

/// The most UTF-8 bytes that each of the kept head and tail of a shortened
/// name may take.
pub const KEPT_BYTES: usize = 126;

/// Names longer than this many UTF-8 bytes are shortened.
pub const MAX_NAME_BYTES: usize = 255;

/// Counting from `i`: the largest number of leading characters of `s` whose
/// UTF-8 form fits in `KEPT_BYTES` bytes.
pub open spec fn head_end(s: Seq<char>, i: nat) -> nat
    decreases s.len() - i,
{
    if i < s.len() && utf8_len(s.take(i + 1 as int)) <= KEPT_BYTES {
        head_end(s, i + 1)
    } else {
        i
    }
}

/// Counting from `i`: the first character boundary of `s` at or after byte
/// `bound`.
pub open spec fn tail_start(s: Seq<char>, i: nat, bound: nat) -> nat
    decreases s.len() - i,
{
    if i < s.len() && utf8_len(s.take(i as int)) < bound {
        tail_start(s, i + 1, bound)
    } else {
        i
    }
}

/// A name of at most `MAX_NAME_BYTES` bytes stays as it is. A longer one keeps
/// its longest prefix and its longest suffix of at most `KEPT_BYTES` bytes each,
/// cut at character boundaries, with "..." between them.
pub open spec fn shortened_name(s: Seq<char>) -> Seq<char> {
    let n = utf8_len(s);
    if n <= MAX_NAME_BYTES {
        s
    } else {
        s.take(head_end(s, 0) as int) + seq!['.', '.', '.'] + s.skip(
            tail_start(s, 0, (n - KEPT_BYTES) as nat) as int,
        )
    }
}

proof fn lemma_utf8_len_step(s: Seq<char>, i: int)
    requires
        0 <= i < s.len(),
    ensures
        utf8_len(s.take(i + 1)) == utf8_len(s.take(i)) + char_width(s[i]),
{
    assert(s.take(i + 1).drop_last() =~= s.take(i));
}

fn width_of(c: char) -> (w: usize)
    ensures
        w == char_width(c),
{
    let v = c as u32;
    if v < 0x80 {
        1
    } else if v < 0x800 {
        2
    } else if v < 0x10000 {
        3
    } else {
        4
    }
}

/// Shortens a name that is too long for a file system; see `shortened_name`.
pub fn shorten_name(name: String) -> (r: String)
    ensures
        r@ == shortened_name(name@),
{
    let s = name.as_str();
    let n = s.unicode_len();
    let mut total: u128 = 0;
    let mut i: usize = 0;
    while i < n
        invariant
            n == s@.len(),
            i <= n,
            total == utf8_len(s@.take(i as int)),
            total <= 4 * i,
        decreases n - i,
    {
        proof {
            lemma_utf8_len_step(s@, i as int);
        }
        total = total + width_of(s.get_char(i)) as u128;
        i = i + 1;
    }
    assert(s@.take(n as int) =~= s@);
    if total <= MAX_NAME_BYTES as u128 {
        return name;
    }
    let mut head: usize = 0;
    let mut acc: usize = 0;
    while head < n && acc + width_of(s.get_char(head)) <= KEPT_BYTES
        invariant
            n == s@.len(),
            head <= n,
            acc == utf8_len(s@.take(head as int)),
            acc <= KEPT_BYTES,
            head_end(s@, 0) == head_end(s@, head as nat),
        decreases n - head,
    {
        proof {
            lemma_utf8_len_step(s@, head as int);
        }
        acc = acc + width_of(s.get_char(head));
        head = head + 1;
    }
    if head < n {
        proof {
            lemma_utf8_len_step(s@, head as int);
        }
    }
    assert(head_end(s@, head as nat) == head);
    let bound: u128 = total - KEPT_BYTES as u128;
    let mut tail: usize = 0;
    let mut acc: u128 = 0;
    while tail < n && acc < bound
        invariant
            n == s@.len(),
            tail <= n,
            acc == utf8_len(s@.take(tail as int)),
            acc <= 4 * tail,
            tail_start(s@, 0, bound as nat) == tail_start(s@, tail as nat, bound as nat),
        decreases n - tail,
    {
        proof {
            lemma_utf8_len_step(s@, tail as int);
        }
        acc = acc + width_of(s.get_char(tail)) as u128;
        tail = tail + 1;
    }
    assert(tail_start(s@, tail as nat, bound as nat) == tail);
    let mut out = String::from_str(s.substring_char(0, head));
    out.append("...");
    out.append(s.substring_char(tail, n));
    proof {
        reveal_strlit("...");
        assert(s@.take(head as int) =~= s@.subrange(0, head as int));
        assert(s@.skip(tail as int) =~= s@.subrange(tail as int, n as int));
        assert("..."@ =~= seq!['.', '.', '.']);
    }
    out
}

} // verus!
