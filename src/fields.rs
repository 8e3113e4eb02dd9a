//! Decoders for the fields of one record.
use vstd::prelude::*;
use vstd::string::*;
use crate::digits::{number_of, parse_number};
use crate::entry::{Error, Permissions};

verus! {

/// The largest value of a 64-bit field.
pub const U64_MAX: u64 = 0xffff_ffff_ffff_ffff;

/// The largest value of a 32-bit field.
pub const U32_MAX: u64 = 0xffff_ffff;

/// Whether `s` holds `sep` at index `k` and nowhere else.
pub open spec fn sole_separator_at(s: Seq<char>, sep: char, k: int) -> bool {
    &&& 0 <= k < s.len()
    &&& s[k] == sep
    &&& forall|j: int| 0 <= j < s.len() && s[j] == sep ==> j == k
}

/// The two pieces of `s` around `sep`, if `s` holds `sep` exactly once.
pub open spec fn pieces_of(s: Seq<char>, sep: char) -> Option<(Seq<char>, Seq<char>)> {
    if exists|k: int| sole_separator_at(s, sep, k) {
        let k = choose|k: int| sole_separator_at(s, sep, k);
        Some((s.take(k), s.skip(k + 1)))
    } else {
        None
    }
}

/// The start and end of an address range `start-end`, both hexadecimal.
pub open spec fn addresses_of(s: Seq<char>) -> Result<(u64, u64), Error> {
    match pieces_of(s, '-') {
        Some((a, b)) => match (number_of(a, 16, U64_MAX as nat), number_of(b, 16, U64_MAX as nat)) {
            (Some(x), Some(y)) => Ok((x as u64, y as u64)),
            _ => Err(Error::FormatError),
        },
        None => Err(Error::FormatError),
    }
}

/// The flags that the first three letters of `s` give.
pub open spec fn permissions_of(s: Seq<char>) -> Result<Permissions, Error> {
    if s.len() < 3 {
        Err(Error::FormatError)
    } else {
        Ok(Permissions { read: s[0] == 'r', write: s[1] == 'w', execute: s[2] == 'x' })
    }
}

/// A hexadecimal file offset.
pub open spec fn offset_of(s: Seq<char>) -> Result<u64, Error> {
    match number_of(s, 16, U64_MAX as nat) {
        Some(v) => Ok(v as u64),
        None => Err(Error::IntParseError),
    }
}

/// A device pair `major:minor`, both hexadecimal.
pub open spec fn device_of(s: Seq<char>) -> Result<(u32, u32), Error> {
    match pieces_of(s, ':') {
        Some((a, b)) => match (number_of(a, 16, U32_MAX as nat), number_of(b, 16, U32_MAX as nat)) {
            (Some(x), Some(y)) => Ok((x as u32, y as u32)),
            _ => Err(Error::IntParseError),
        },
        None => Err(Error::FormatError),
    }
}

/// A decimal inode number.
pub open spec fn inode_of(s: Seq<char>) -> Result<u32, Error> {
    match number_of(s, 10, U32_MAX as nat) {
        Some(v) => Ok(v as u32),
        None => Err(Error::IntParseError),
    }
}

/// Splits `s` around its one `sep`; `None` where `s` holds `sep` zero times or more than once.
fn split_pair<'a>(s: &'a str, sep: char) -> (r: Option<(&'a str, &'a str)>)
    ensures
        match pieces_of(s@, sep) {
            Some((a, b)) => r matches Some((x, y)) && x@ == a && y@ == b,
            None => r is None,
        },
{
    let n = s.unicode_len();
    let mut found: Option<usize> = None;
    let mut i: usize = 0;
    while i < n
        invariant
            i <= n,
            n == s@.len(),
            found is None ==> forall|j: int| 0 <= j < i ==> s@[j] != sep,
            found matches Some(k) ==> k < i && s@[k as int] == sep && forall|j: int|
                0 <= j < i && s@[j] == sep ==> j == k,
        decreases n - i,
    {
        if s.get_char(i) == sep {
            if let Some(k) = found {
                assert(!sole_separator_at(s@, sep, k as int));
                assert forall|m: int| !sole_separator_at(s@, sep, m) by {
                    if sole_separator_at(s@, sep, m) {
                        assert(k == m && i == m);
                    }
                }
                return None;
            }
            found = Some(i);
        }
        i = i + 1;
    }
    match found {
        Some(k) => {
            assert(sole_separator_at(s@, sep, k as int));
            let a = s.substring_char(0, k);
            let b = s.substring_char(k + 1, n);
            assert(a@ =~= s@.take(k as int));
            assert(b@ =~= s@.skip(k + 1));
            Some((a, b))
        },
        None => {
            assert forall|m: int| !sole_separator_at(s@, sep, m) by {
                if sole_separator_at(s@, sep, m) {
                    assert(s@[m] == sep);
                }
            }
            None
        },
    }
}

/// Decodes an address range `start-end`: exactly one `-` between two hexadecimal numbers.
pub fn parse_addresses(addresses: &str) -> (r: Result<(u64, u64), Error>)
    ensures
        r == addresses_of(addresses@),
{
    match split_pair(addresses, '-') {
        Some((a, b)) => match (parse_number(a, 16, U64_MAX), parse_number(b, 16, U64_MAX)) {
            (Some(x), Some(y)) => Ok((x, y)),
            _ => Err(Error::FormatError),
        },
        None => Err(Error::FormatError),
    }
}

/// Decodes permission letters such as `r-xp`: `r`, `w` and `x` in the first three places set
/// the flags; any other letter there clears them, and what follows is not read.
pub fn parse_params(params: &str) -> (r: Result<Permissions, Error>)
    ensures
        r == permissions_of(params@),
{
    if params.unicode_len() < 3 {
        return Err(Error::FormatError);
    }
    Ok(
        Permissions {
            read: params.get_char(0) == 'r',
            write: params.get_char(1) == 'w',
            execute: params.get_char(2) == 'x',
        },
    )
}

/// Decodes a hexadecimal file offset.
pub fn parse_offset(offset: &str) -> (r: Result<u64, Error>)
    ensures
        r == offset_of(offset@),
{
    match parse_number(offset, 16, U64_MAX) {
        Some(v) => Ok(v),
        None => Err(Error::IntParseError),
    }
}

/// Decodes a device pair `major:minor`: exactly one `:` between two hexadecimal numbers that
/// fit in 32 bits.
pub fn parse_device(device: &str) -> (r: Result<(u32, u32), Error>)
    ensures
        r == device_of(device@),
{
    match split_pair(device, ':') {
        Some((a, b)) => match (parse_number(a, 16, U32_MAX), parse_number(b, 16, U32_MAX)) {
            (Some(x), Some(y)) => Ok((x as u32, y as u32)),
            _ => Err(Error::IntParseError),
        },
        None => Err(Error::FormatError),
    }
}

/// Decodes a decimal inode number that fits in 32 bits.
pub fn parse_inode(inode: &str) -> (r: Result<u32, Error>)
    ensures
        r == inode_of(inode@),
{
    match parse_number(inode, 10, U32_MAX) {
        Some(v) => Ok(v as u32),
        None => Err(Error::IntParseError),
    }
}

} // verus!
