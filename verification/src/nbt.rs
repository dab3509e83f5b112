//! A small NBT walker for the offline save-inspection tool: enumerate
//! the named entries of a compound and skip a tagged value, with
//! explicit depth and truncation errors. Only the byte-level walking
//! lives here; files and decompression stay with the caller.

use vstd::prelude::*;
use crate::wire::spec_be16;

verus! {

/// Why a walk over an NBT buffer stopped.
#[derive(Debug, Clone, Copy, PartialEq, Eq, Structural)]
pub enum Error {
    /// The buffer ended inside a value.
    NeedMore,
    /// A tag byte that names no NBT type.
    UnknownTag,
    /// Nesting beyond the supported depth.
    TooDeep,
    /// A structure closed that was never opened.
    UnexpectedEnd,
    /// A list longer than the walker accepts.
    OverlongList,
}

/// The remainder is a suffix of what was handed in: a skip only ever
/// consumes a prefix.
pub open spec fn is_suffix(rest: Seq<u8>, full: Seq<u8>) -> bool {
    &&& rest.len() <= full.len()
    &&& rest == full.skip(full.len() - rest.len())
}

fn skip_bytes(nbt: &[u8], n: u64) -> (r: Result<&[u8], Error>)
    ensures
        match r {
            Ok(rest) => is_suffix(rest@, nbt@) && nbt@.len() - rest@.len() == n,
            Err(e) => e is NeedMore && nbt@.len() < n,
        },
{
    if n <= nbt.len() as u64 {
        let rest = vstd::slice::slice_subrange(nbt, n as usize, nbt.len());
        proof {
            assert(rest@ =~= nbt@.skip(nbt@.len() - rest@.len()));
        }
        Ok(rest)
    } else {
        Err(Error::NeedMore)
    }
}

fn read_u16_at(nbt: &[u8], at: usize) -> (r: Option<u16>)
    ensures
        match r {
            Some(v) => nbt@.len() >= at + 2 && v == spec_be16(nbt@[at as int], nbt@[at as int + 1]),
            None => nbt@.len() < at + 2,
        },
{
    if at < nbt.len() && at + 1 < nbt.len() {
        Some((nbt[at] as u16) * 0x100 + (nbt[at + 1] as u16))
    } else {
        None
    }
}

/// The big-endian value of four bytes.
pub open spec fn spec_be32(b0: u8, b1: u8, b2: u8, b3: u8) -> u32 {
    (b0 * 0x100_0000 + b1 * 0x1_0000 + b2 * 0x100 + b3) as u32
}

fn read_u32_at(nbt: &[u8], at: usize) -> (r: Option<u32>)
    ensures
        match r {
            Some(v) => nbt@.len() >= at + 4 && v == spec_be32(
                nbt@[at as int],
                nbt@[at as int + 1],
                nbt@[at as int + 2],
                nbt@[at as int + 3],
            ),
            None => nbt@.len() < at + 4,
        },
{
    if at < nbt.len() && nbt.len() - at >= 4 {
        Some(
            (nbt[at] as u32) * 0x100_0000 + (nbt[at + 1] as u32) * 0x1_0000 + (nbt[at + 2] as u32)
                * 0x100 + (nbt[at + 3] as u32),
        )
    } else {
        None
    }
}


/// How far one value of the given tag reaches into the buffer, or why
/// the walk stops: the exact mirror of the walker, including the
/// depth budget and the list-length cap.
pub open spec fn spec_skip(tag: u8, s: Seq<u8>, depth: u8) -> Result<int, Error>
    decreases depth, s.len(), 1int,
{
    if tag == 1 {
        spec_skip_fixed(s, 1)
    } else if tag == 2 {
        spec_skip_fixed(s, 2)
    } else if tag == 3 || tag == 5 {
        spec_skip_fixed(s, 4)
    } else if tag == 4 || tag == 6 {
        spec_skip_fixed(s, 8)
    } else if tag == 7 {
        spec_skip_counted(s, 1)
    } else if tag == 8 {
        if s.len() >= 2 {
            spec_skip_fixed(s, 2 + spec_be16(s[0], s[1]))
        } else {
            Err(Error::NeedMore)
        }
    } else if tag == 9 {
        if s.len() < 5 {
            Err(Error::NeedMore)
        } else {
            let cnt = spec_be32(s[1], s[2], s[3], s[4]);
            if cnt > 255 {
                Err(Error::OverlongList)
            } else if depth == 0 {
                Err(Error::TooDeep)
            } else {
                match spec_skip_list(s[0], cnt as int, s.skip(5), (depth - 1) as u8) {
                    Ok(k) => Ok(5 + k),
                    Err(e) => Err(e),
                }
            }
        }
    } else if tag == 10 {
        spec_skip_compound(s, depth)
    } else if tag == 11 {
        spec_skip_counted(s, 4)
    } else if tag == 12 {
        spec_skip_counted(s, 8)
    } else {
        Err(Error::UnknownTag)
    }
}

/// A fixed-width value: it reaches `n` bytes in, or the buffer is too
/// short.
pub open spec fn spec_skip_fixed(s: Seq<u8>, n: int) -> Result<int, Error> {
    if s.len() >= n {
        Ok(n)
    } else {
        Err(Error::NeedMore)
    }
}

/// A counted array: a four-byte count, then that many `per`-byte items.
pub open spec fn spec_skip_counted(s: Seq<u8>, per: int) -> Result<int, Error> {
    if s.len() < 4 {
        Err(Error::NeedMore)
    } else {
        spec_skip_fixed(s, 4 + per * spec_be32(s[0], s[1], s[2], s[3]))
    }
}

/// The reach of `cnt` list elements of one tag, end to end. (The
/// element reach is clamped into the buffer so the definition is
/// well-founded; the walker never produces an out-of-range reach, so
/// the clamp never bites.)
pub open spec fn spec_skip_list(elem: u8, cnt: int, s: Seq<u8>, depth: u8) -> Result<int, Error>
    decreases depth, s.len(), cnt + 2,
{
    if cnt <= 0 {
        Ok(0)
    } else {
        match spec_skip(elem, s, depth) {
            Ok(k) => {
                let kc = if 0 <= k <= s.len() {
                    k
                } else {
                    0
                };
                match spec_skip_list(elem, cnt - 1, s.skip(kc), depth) {
                    Ok(k2) => Ok(kc + k2),
                    Err(e) => Err(e),
                }
            },
            Err(e) => Err(e),
        }
    }
}

/// The reach of a compound's entries up to and including its end marker
/// (a buffer that simply ends also closes the compound; the entry reach
/// is clamped into the buffer exactly as in the list case). The depth
/// budget is spent per named entry, so an empty compound costs none.
pub open spec fn spec_skip_compound(s: Seq<u8>, depth: u8) -> Result<int, Error>
    decreases depth, s.len(), 0int,
{
    if s.len() == 0 {
        Ok(0)
    } else if s[0] == 0 {
        Ok(1)
    } else if s.len() < 3 {
        Err(Error::NeedMore)
    } else {
        let nl = spec_be16(s[1], s[2]) as int;
        if s.len() < 3 + nl {
            Err(Error::NeedMore)
        } else if depth == 0 {
            Err(Error::TooDeep)
        } else {
            match spec_skip(s[0], s.skip(3 + nl), (depth - 1) as u8) {
                Ok(k) => {
                    let kc = if 0 <= k <= s.len() - 3 - nl {
                        k
                    } else {
                        0
                    };
                    match spec_skip_compound(s.skip(3 + nl).skip(kc), depth) {
                        Ok(k2) => Ok(3 + nl + kc + k2),
                        Err(e) => Err(e),
                    }
                },
                Err(e) => Err(e),
            }
        }
    }
}

fn skip_rec(tag: u8, nbt: &[u8], depth: u8) -> (r: Result<&[u8], Error>)
    ensures
        match r {
            Ok(rest) => is_suffix(rest@, nbt@) && spec_skip(tag, nbt@, depth) == Ok::<
                int,
                Error,
            >(nbt@.len() - rest@.len()),
            Err(e) => spec_skip(tag, nbt@, depth) == Err::<int, Error>(e),
        },
    decreases depth, nbt@.len(),
{
    if tag == 1 {
        skip_bytes(nbt, 1)
    } else if tag == 2 {
        skip_bytes(nbt, 2)
    } else if tag == 3 || tag == 5 {
        skip_bytes(nbt, 4)
    } else if tag == 4 || tag == 6 {
        skip_bytes(nbt, 8)
    } else if tag == 7 {
        match read_u32_at(nbt, 0) {
            Some(n) => skip_bytes(nbt, 4 + n as u64),
            None => Err(Error::NeedMore),
        }
    } else if tag == 8 {
        match read_u16_at(nbt, 0) {
            Some(n) => skip_bytes(nbt, 2 + n as u64),
            None => Err(Error::NeedMore),
        }
    } else if tag == 9 {
        if nbt.len() < 5 {
            return Err(Error::NeedMore);
        }
        let elem: u8 = nbt[0];
        let count = match read_u32_at(nbt, 1) {
            Some(n) => n,
            None => {
                return Err(Error::NeedMore);
            },
        };
        if count > 255 {
            return Err(Error::OverlongList);
        }
        if depth == 0 {
            return Err(Error::TooDeep);
        }
        let inner_depth: u8 = depth - 1;
        let mut cur = match skip_bytes(nbt, 5) {
            Ok(v) => v,
            Err(e) => {
                return Err(e);
            },
        };
        proof {
            assert(cur@ =~= nbt@.skip(5));
        }
        let mut i: u32 = 0;
        while i < count
            invariant
                i <= count,
                is_suffix(cur@, nbt@),
                inner_depth < depth,
                match spec_skip_list(elem, (count - i) as int, cur@, inner_depth) {
                    Ok(k) => spec_skip(tag, nbt@, depth) == Ok::<int, Error>(
                        nbt@.len() - cur@.len() + k,
                    ),
                    Err(e) => spec_skip(tag, nbt@, depth) == Err::<int, Error>(e),
                },
            decreases count - i,
        {
            let ghost pre = cur@;
            let stepped = skip_rec(elem, cur, inner_depth);
            cur = match stepped {
                Ok(v) => v,
                Err(e) => {
                    return Err(e);
                },
            };
            proof {
                assert(cur@ =~= nbt@.skip(nbt@.len() - cur@.len()));
                assert(cur@ =~= pre.skip(pre.len() - cur@.len()));
            }
            i = i + 1;
        }
        Ok(cur)
    } else if tag == 10 {
        let mut cur = nbt;
        proof {
            assert(cur@ =~= nbt@.skip(0));
        }
        loop
            invariant
                is_suffix(cur@, nbt@),
                match spec_skip_compound(cur@, depth) {
                    Ok(k) => spec_skip(tag, nbt@, depth) == Ok::<int, Error>(
                        nbt@.len() - cur@.len() + k,
                    ),
                    Err(e) => spec_skip(tag, nbt@, depth) == Err::<int, Error>(e),
                },
            decreases cur@.len(),
        {
            if cur.len() == 0 {
                return Ok(cur);
            }
            let entry_tag: u8 = cur[0];
            if entry_tag == 0 {
                let rest = match skip_bytes(cur, 1) {
                    Ok(v) => v,
                    Err(e) => {
                        return Err(e);
                    },
                };
                proof {
                    assert(rest@ =~= nbt@.skip(nbt@.len() - rest@.len()));
                }
                return Ok(rest);
            }
            let name_len = match read_u16_at(cur, 1) {
                Some(v) => v,
                None => {
                    return Err(Error::NeedMore);
                },
            };
            let after_header = match skip_bytes(cur, 3 + name_len as u64) {
                Ok(v) => v,
                Err(e) => {
                    return Err(e);
                },
            };
            if depth == 0 {
                return Err(Error::TooDeep);
            }
            let after_value = match skip_rec(entry_tag, after_header, depth - 1) {
                Ok(v) => v,
                Err(e) => {
                    return Err(e);
                },
            };
            proof {
                assert(after_header@ =~= cur@.skip(3 + spec_be16(cur@[1], cur@[2]) as int));
                assert(after_value@ =~= nbt@.skip(nbt@.len() - after_value@.len()));
                assert(after_value@ =~= after_header@.skip(
                    after_header@.len() - after_value@.len(),
                ));
                assert(after_value@.len() < cur@.len());
            }
            cur = after_value;
        }
    } else if tag == 11 {
        match read_u32_at(nbt, 0) {
            Some(n) => skip_bytes(nbt, 4 + 4 * (n as u64)),
            None => Err(Error::NeedMore),
        }
    } else if tag == 12 {
        match read_u32_at(nbt, 0) {
            Some(n) => skip_bytes(nbt, 4 + 8 * (n as u64)),
            None => Err(Error::NeedMore),
        }
    } else {
        Err(Error::UnknownTag)
    }
}

/// Skip one value of the given tag: the bytes after it, or why it could
/// not be walked. Nesting is limited to eight levels of lists and
/// compounds, and lists are capped at 255 elements, both reported
/// explicitly rather than walked unboundedly.
pub fn skip_tag(tag: u8, nbt: &[u8]) -> (r: Result<&[u8], Error>)
    ensures
        match r {
            Ok(rest) => is_suffix(rest@, nbt@) && spec_skip(tag, nbt@, 7) == Ok::<int, Error>(
                nbt@.len() - rest@.len(),
            ),
            Err(e) => spec_skip(tag, nbt@, 7) == Err::<int, Error>(e),
        },
{
    skip_rec(tag, nbt, 7)
}

/// The next named entry of a compound: its tag, its name, and the bytes
/// after the name (the entry's value). `Some(None)` is a cleanly
/// exhausted buffer; `None` is a truncated header — and nothing else is.
pub fn entry(nbt: &[u8]) -> (r: Option<Option<(u8, &[u8], &[u8])>>)
    ensures
        match r {
            Some(Some((tag, name, rest))) => {
                &&& nbt@.len() >= 3
                &&& 3 + spec_be16(nbt@[1], nbt@[2]) <= nbt@.len()
                &&& tag == nbt@[0]
                &&& name@ == nbt@.subrange(3, 3 + spec_be16(nbt@[1], nbt@[2]))
                &&& rest@ == nbt@.skip(3 + spec_be16(nbt@[1], nbt@[2]))
            },
            Some(None) => nbt@.len() == 0,
            None => nbt@.len() > 0 && (nbt@.len() < 3 || 3 + spec_be16(nbt@[1], nbt@[2])
                > nbt@.len()),
        },
{
    if nbt.len() == 0 {
        return Some(None);
    }
    let name_len = match read_u16_at(nbt, 1) {
        Some(v) => v,
        None => {
            return None;
        },
    };
    if 3 + name_len as usize > nbt.len() {
        return None;
    }
    let name = vstd::slice::slice_subrange(nbt, 3, 3 + name_len as usize);
    let rest = vstd::slice::slice_subrange(nbt, 3 + name_len as usize, nbt.len());
    proof {
        assert(rest@ =~= nbt@.skip(3 + spec_be16(nbt@[1], nbt@[2])));
    }
    Some(Some((nbt[0], name, rest)))
}

/// Whether the buffer opens a compound carrying exactly this name.
pub open spec fn spec_compound_head(name: Seq<u8>, nbt: Seq<u8>) -> bool {
    &&& nbt.len() >= 3 + name.len()
    &&& nbt[0] == 10
    &&& spec_be16(nbt[1], nbt[2]) == name.len()
    &&& nbt.subrange(3, 3 + name.len() as int) == name
}

/// Enter the compound with the given name: the bytes of its first
/// entry, exactly when the buffer starts with a compound tag carrying
/// exactly that name.
pub fn enter_compound<'a>(name: &[u8], nbt: &'a [u8]) -> (r: Option<&'a [u8]>)
    ensures
        match r {
            Some(rest) => spec_compound_head(name@, nbt@) && rest@ == nbt@.skip(
                3 + name@.len() as int,
            ),
            None => !spec_compound_head(name@, nbt@),
        },
{
    if nbt.len() < 3 || nbt[0] != 10 {
        return None;
    }
    let nl = match read_u16_at(nbt, 1) {
        Some(v) => v,
        None => {
            return None;
        },
    };
    if nl as usize != name.len() {
        return None;
    }
    if 3 + name.len() > nbt.len() {
        return None;
    }
    let total: usize = nbt.len();
    let mut i: usize = 0;
    while i < name.len()
        invariant
            i <= name@.len(),
            total == nbt@.len(),
            3 + name@.len() <= total,
            forall|k: int| 0 <= k < i ==> nbt@[3 + k] == name@[k],
        decreases name@.len() - i,
    {
        if nbt[3 + i] != name[i] {
            proof {
                assert(nbt@.subrange(3, 3 + name@.len() as int)[i as int] != name@[i as int]);
            }
            return None;
        }
        i = i + 1;
    }
    let rest = vstd::slice::slice_subrange(nbt, 3 + name.len(), nbt.len());
    proof {
        assert(nbt@.subrange(3, 3 + name@.len() as int) =~= name@);
        assert(rest@ =~= nbt@.skip(3 + name@.len() as int));
    }
    Some(rest)
}

} // verus!
