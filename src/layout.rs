//! The layout of a two-bit file, as far as it must be checked before the file
//! is read: every record and block table lies within the buffer, the blocks of
//! unknown bases are sorted and do not overlap, no block runs past the largest
//! 32-bit position, and each sequence's packed bases lie within the buffer.
use vstd::prelude::*;

verus! {

/// The largest value of a 32-bit field.
pub const FIELD_MAX: u64 = 0xFFFF_FFFF;

/// The 32-bit field at `i`, most significant byte first unless `swap`.
pub open spec fn field_at(b: Seq<u8>, i: int, swap: bool) -> int {
    if swap {
        b[i + 3] * 16777216 + b[i + 2] * 65536 + b[i + 1] * 256 + b[i]
    } else {
        b[i] * 16777216 + b[i + 1] * 65536 + b[i + 2] * 256 + b[i + 3]
    }
}

/// Whether `n` bytes from `i` lie within `b`.
pub open spec fn fits(b: Seq<u8>, i: int, n: int) -> bool {
    0 <= i && i + n <= b.len()
}

/// Whether the blocks `i..n` of unknown bases (starts at `starts`, lengths at
/// `sizes`) each begin at or after `floor`, where the one before ended, and
/// end at or before the largest 32-bit position.
pub open spec fn hard_blocks_ok(
    b: Seq<u8>,
    starts: int,
    sizes: int,
    i: int,
    n: int,
    floor: int,
    swap: bool,
) -> bool
    decreases n - i,
{
    if i >= n {
        true
    } else {
        let st = field_at(b, starts + 4 * i, swap);
        let sz = field_at(b, sizes + 4 * i, swap);
        st >= floor && st + sz <= FIELD_MAX && hard_blocks_ok(
            b,
            starts,
            sizes,
            i + 1,
            n,
            st + sz,
            swap,
        )
    }
}

/// Whether the lower-case blocks `i..n` each end at or before the largest
/// 32-bit position.
pub open spec fn soft_blocks_ok(b: Seq<u8>, starts: int, sizes: int, i: int, n: int, swap: bool) -> bool
    decreases n - i,
{
    if i >= n {
        true
    } else {
        field_at(b, starts + 4 * i, swap) + field_at(b, sizes + 4 * i, swap) <= FIELD_MAX
            && soft_blocks_ok(b, starts, sizes, i + 1, n, swap)
    }
}

/// Whether the sequence record at `off` is whole: its length, both block
/// tables and the reserved field lie within the buffer, its blocks are in
/// order, and its packed bases (four to a byte) follow within the buffer.
pub open spec fn record_ok(b: Seq<u8>, off: int, swap: bool) -> bool {
    fits(b, off, 8) && {
        let length = field_at(b, off, swap);
        let nb = field_at(b, off + 4, swap);
        let counts = off + 8 + 8 * nb;
        fits(b, counts, 4) && {
            let nm = field_at(b, counts, swap);
            let data = counts + 4 + 8 * nm + 4;
            &&& data + (length + 3) / 4 <= b.len()
            &&& hard_blocks_ok(b, off + 8, off + 8 + 4 * nb, 0, nb, 0, swap)
            &&& soft_blocks_ok(b, counts + 4, counts + 4 + 4 * nm, 0, nm, swap)
        }
    }
}

/// Whether the index entries `k..n`, the first at `pos`, are whole and each
/// points at a whole record.
pub open spec fn index_ok(b: Seq<u8>, pos: int, k: int, n: int, swap: bool) -> bool
    decreases n - k,
{
    if k >= n {
        true
    } else {
        fits(b, pos, 1) && {
            let name_end = pos + 1 + b[pos];
            fits(b, name_end, 4) && record_ok(b, field_at(b, name_end, swap), swap) && index_ok(
                b,
                name_end + 4,
                k + 1,
                n,
                swap,
            )
        }
    }
}

/// Whether the fields are stored least significant byte first.
pub open spec fn swapped(b: Seq<u8>) -> bool {
    field_at(b, 0, false) == 0x4327411A
}

/// Whether a two-bit file can be read safely: it has a header with either
/// byte order of the signature, and every index entry and record is whole.
pub open spec fn tables_ok(b: Seq<u8>) -> bool {
    &&& fits(b, 0, 16)
    &&& (field_at(b, 0, false) == 0x1A412743 || swapped(b))
    &&& index_ok(b, 16, 0, field_at(b, 8, swapped(b)), swapped(b))
}

/// Reads the 32-bit field at `i`.
fn field(b: &[u8], i: usize, swap: bool) -> (r: u64)
    requires
        i + 4 <= b@.len(),
    ensures
        r == field_at(b@, i as int, swap),
        r <= FIELD_MAX,
{
    let b0 = b[i] as u64;
    let b1 = b[i + 1] as u64;
    let b2 = b[i + 2] as u64;
    let b3 = b[i + 3] as u64;
    if swap {
        b3 * 16777216 + b2 * 65536 + b1 * 256 + b0
    } else {
        b0 * 16777216 + b1 * 65536 + b2 * 256 + b3
    }
}

/// Whether `n` bytes from `i` lie within `b`.
fn fits_exec(b: &[u8], i: u64, n: u64) -> (r: bool)
    requires
        n <= 16,
    ensures
        r == fits(b@, i as int, n as int),
{
    (b.len() as u64) >= n && i <= (b.len() as u64) - n
}

fn hard_blocks_check(b: &[u8], starts: u64, sizes: u64, n: u64, swap: bool) -> (r: bool)
    requires
        starts + 4 * n <= b@.len(),
        sizes + 4 * n <= b@.len(),
    ensures
        r == hard_blocks_ok(b@, starts as int, sizes as int, 0, n as int, 0, swap),
{
    let blen = b.len();
    let mut i: u64 = 0;
    let mut floor: u64 = 0;
    while i < n
        invariant
            i <= n,
            starts + 4 * n <= b@.len(),
            sizes + 4 * n <= b@.len(),
            blen == b@.len(),
            floor <= FIELD_MAX,
            hard_blocks_ok(b@, starts as int, sizes as int, 0, n as int, 0, swap) == hard_blocks_ok(
                b@,
                starts as int,
                sizes as int,
                i as int,
                n as int,
                floor as int,
                swap,
            ),
        decreases n - i,
    {
        assert(starts + 4 * i + 4 <= starts + 4 * n);
        let sp: u64 = starts + 4 * i;
        let zp: u64 = sizes + 4 * i;
        let st = field(b, sp as usize, swap);
        let sz = field(b, zp as usize, swap);
        if st < floor || st + sz > FIELD_MAX {
            return false;
        }
        floor = st + sz;
        i += 1;
    }
    true
}

fn soft_blocks_check(b: &[u8], starts: u64, sizes: u64, n: u64, swap: bool) -> (r: bool)
    requires
        starts + 4 * n <= b@.len(),
        sizes + 4 * n <= b@.len(),
    ensures
        r == soft_blocks_ok(b@, starts as int, sizes as int, 0, n as int, swap),
{
    let blen = b.len();
    let mut i: u64 = 0;
    while i < n
        invariant
            i <= n,
            starts + 4 * n <= b@.len(),
            sizes + 4 * n <= b@.len(),
            blen == b@.len(),
            soft_blocks_ok(b@, starts as int, sizes as int, 0, n as int, swap) == soft_blocks_ok(
                b@,
                starts as int,
                sizes as int,
                i as int,
                n as int,
                swap,
            ),
        decreases n - i,
    {
        assert(starts + 4 * i + 4 <= starts + 4 * n);
        let sp: u64 = starts + 4 * i;
        let zp: u64 = sizes + 4 * i;
        let st = field(b, sp as usize, swap);
        let sz = field(b, zp as usize, swap);
        if st + sz > FIELD_MAX {
            return false;
        }
        i += 1;
    }
    true
}

fn record_check(b: &[u8], off: u64, swap: bool) -> (r: bool)
    requires
        off <= FIELD_MAX,
    ensures
        r == record_ok(b@, off as int, swap),
{
    let blen = b.len();
    if !fits_exec(b, off, 8) {
        return false;
    }
    let length = field(b, off as usize, swap);
    let nb = field(b, (off + 4) as usize, swap);
    let counts = off + 8 + 8 * nb;
    if !fits_exec(b, counts, 4) {
        return false;
    }
    let nm = field(b, counts as usize, swap);
    let data = counts + 4 + 8 * nm + 4;
    if data + (length + 3) / 4 > b.len() as u64 {
        return false;
    }
    hard_blocks_check(b, off + 8, off + 8 + 4 * nb, nb, swap) && soft_blocks_check(
        b,
        counts + 4,
        counts + 4 + 4 * nm,
        nm,
        swap,
    )
}

/// Whether a two-bit file held in `b` can be read safely (see `tables_ok`).
pub fn two_bit_tables_ok(b: &[u8]) -> (r: bool)
    ensures
        r == tables_ok(b@),
{
    let blen = b.len();
    if !fits_exec(b, 0, 16) {
        return false;
    }
    let sig = field(b, 0, false);
    if sig != 0x1A412743 && sig != 0x4327411A {
        return false;
    }
    let swap = sig == 0x4327411A;
    let n = field(b, 8, swap);
    let mut k: u64 = 0;
    let mut pos: u64 = 16;
    while k < n
        invariant
            k <= n,
            blen == b@.len(),
            n == field_at(b@, 8, swap),
            swap == swapped(b@),
            fits(b@, 0, 16),
            pos <= b@.len(),
            index_ok(b@, 16, 0, n as int, swap) == index_ok(b@, pos as int, k as int, n as int, swap),
        decreases n - k,
    {
        if !fits_exec(b, pos, 1) {
            return false;
        }
        let name_len = b[pos as usize] as u64;
        if name_len + 4 > (blen as u64) - (pos + 1) {
            return false;
        }
        let name_end = pos + 1 + name_len;
        let off = field(b, name_end as usize, swap);
        if !record_check(b, off, swap) {
            return false;
        }
        pos = name_end + 4;
        k += 1;
    }
    true
}

} // verus!
