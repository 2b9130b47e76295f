//! The `.npy` files of sorted suffix records: the preamble (magic, version,
//! header length), the header's dtype and order, the size of the data, and
//! the packed 17-byte records (key: u64, pos: u64, label: u8, little-endian).
use vstd::prelude::*;

verus! {

/// Bytes per record: key (8), position (8), label (1).
pub const REC: u64 = 17;

/// Why a file is not a usable record file.
#[derive(Clone, Copy, Debug, PartialEq, Eq)]
pub enum NpyError {
    /// The magic string `\x93NUMPY` is missing.
    NotNpy,
    /// The preamble is cut short.
    Truncated,
    /// The dtype lacks one of the fields `key`, `pos`, `label`.
    UnexpectedDtype,
    /// The array is stored in Fortran order.
    FortranOrder,
    /// The data is not a whole number of records.
    RaggedData,
}

/// The magic string that opens every `.npy` file.
pub open spec fn magic() -> Seq<u8> {
    seq![0x93u8, 0x4Eu8, 0x55u8, 0x4Du8, 0x50u8, 0x59u8]
}

/// Little-endian value of a byte string.
pub open spec fn le(s: Seq<u8>) -> nat
    decreases s.len(),
{
    if s.len() == 0 {
        0
    } else {
        s[0] as nat + 256 * le(s.drop_first())
    }
}

/// `needle` occurs in `hay` at position i.
pub open spec fn occurs_at(hay: Seq<u8>, needle: Seq<u8>, i: int) -> bool {
    0 <= i && i + needle.len() <= hay.len() && hay.subrange(i, i + needle.len()) == needle
}

/// `needle` occurs somewhere in `hay`.
pub open spec fn occurs(hay: Seq<u8>, needle: Seq<u8>) -> bool {
    exists|i: int| #[trigger] occurs_at(hay, needle, i)
}

/// Whether `needle` occurs in `hay`.
pub fn find(hay: &[u8], needle: &[u8]) -> (r: bool)
    ensures
        r == occurs(hay@, needle@),
{
    if needle.len() == 0 {
        proof {
            assert(hay@.subrange(0, 0) =~= needle@);
            assert(occurs_at(hay@, needle@, 0));
        }
        return true;
    }
    if needle.len() > hay.len() {
        proof {
            assert forall|i: int| !#[trigger] occurs_at(hay@, needle@, i) by {}
        }
        return false;
    }
    let hl = hay.len();
    let last = hl - needle.len();
    let mut i: usize = 0;
    while i <= last
        invariant
            1 <= needle@.len() <= hay@.len(),
            hl == hay@.len(),
            last == hay@.len() - needle@.len(),
            i <= last + 1,
            forall|j: int| 0 <= j < i ==> !#[trigger] occurs_at(hay@, needle@, j),
        decreases last + 1 - i,
    {
        let mut k: usize = 0;
        let mut ok = true;
        while k < needle.len() && ok
            invariant
                1 <= needle@.len() <= hay@.len(),
                hl == hay@.len(),
                i <= last,
                last == hay@.len() - needle@.len(),
                k <= needle@.len(),
                forall|m: int| 0 <= m < k ==> hay@[i + m] == needle@[m],
                !ok ==> k < needle@.len() && hay@[i + k] != needle@[k as int],
            decreases needle@.len() - k, if ok { 1int } else { 0int },
        {
            if hay[i + k] != needle[k] {
                ok = false;
            } else {
                k += 1;
            }
        }
        if ok {
            proof {
                assert(hay@.subrange(i as int, i + needle@.len()) =~= needle@);
                assert(occurs_at(hay@, needle@, i as int));
            }
            return true;
        }
        proof {
            assert(!occurs_at(hay@, needle@, i as int)) by {
                if occurs_at(hay@, needle@, i as int) {
                    assert(hay@.subrange(i as int, i + needle@.len())[k as int] == needle@[k as int]);
                }
            }
        }
        i += 1;
    }
    proof {
        assert forall|j: int| !#[trigger] occurs_at(hay@, needle@, j) by {
            if 0 <= j && j + needle@.len() <= hay@.len() {
                assert(j < i);
            }
        }
    }
    false
}

/// The little-endian value of bytes lo .. hi of `b` (at most eight).
fn le_bytes(b: &[u8], lo: usize, hi: usize) -> (r: u64)
    requires
        lo <= hi <= b@.len(),
        hi - lo <= 8,
    ensures
        r == le(b@.subrange(lo as int, hi as int)),
{
    let mut v: u64 = 0;
    let mut i: usize = hi;
    proof {
        assert(b@.subrange(hi as int, hi as int) =~= Seq::<u8>::empty());
        vstd::arithmetic::power::lemma_pow0(256);
    }
    while i > lo
        invariant
            lo <= i <= hi,
            hi <= b@.len(),
            hi - lo <= 8,
            v == le(b@.subrange(i as int, hi as int)),
            le(b@.subrange(i as int, hi as int)) < vstd::arithmetic::power::pow(256, (hi - i) as nat),
        decreases i - lo,
    {
        i -= 1;
        let ghost s = b@.subrange(i as int, hi as int);
        proof {
            assert(s.drop_first() =~= b@.subrange(i + 1, hi as int));
            vstd::arithmetic::power::lemma_pow_adds(256, 1, (hi - i - 1) as nat);
            vstd::arithmetic::power::lemma_pow1(256);
            let p = vstd::arithmetic::power::pow(256, (hi - i - 1) as nat);
            assert(p <= 0x100_0000_0000_0000) by {
                vstd::arithmetic::power::lemma_pow_increases(256, (hi - i - 1) as nat, 7);
                assert(vstd::arithmetic::power::pow(256, 7) == 0x100_0000_0000_0000) by {
                    reveal_with_fuel(vstd::arithmetic::power::pow, 8);
                }
            }
            let w = le(b@.subrange(i + 1, hi as int));
            assert(s[0] as int + 256 * w < 256 * p) by (nonlinear_arith)
                requires
                    w < p,
                    s[0] < 256,
            ;
            assert(256 * w <= 0xFFFF_FFFF_FFFF_FF00) by (nonlinear_arith)
                requires
                    w < p,
                    p <= 0x100_0000_0000_0000,
            ;
        }
        v = v * 256 + b[i] as u64;
    }
    v
}

/// The preamble of a `.npy` file: the first ten bytes, and for a version
/// other than 1 the two after them. Gives where the header starts and how
/// long it is: version 1 stores the length in two bytes, later versions in
/// four.
pub fn npy_preamble(head: &[u8]) -> (r: Result<(u64, u64), NpyError>)
    ensures
        head@.len() < 10 || head@.subrange(0, 6) != magic() ==> r == Err::<(u64, u64), NpyError>(NpyError::NotNpy),
        head@.len() >= 10 && head@.subrange(0, 6) == magic() ==> r == if head@[6] == 1 {
            Ok::<(u64, u64), NpyError>((10u64, le(head@.subrange(8, 10)) as u64))
        } else if head@.len() < 12 {
            Err(NpyError::Truncated)
        } else {
            Ok((12u64, le(head@.subrange(8, 12)) as u64))
        },
{
    if head.len() < 10 {
        return Err(NpyError::NotNpy);
    }
    let m: [u8; 6] = [0x93, 0x4E, 0x55, 0x4D, 0x50, 0x59];
    let mut i: usize = 0;
    while i < 6
        invariant
            i <= 6,
            head@.len() >= 10,
            m@ == magic(),
            forall|j: int| 0 <= j < i ==> head@[j] == magic()[j],
        decreases 6 - i,
    {
        if head[i] != m[i] {
            proof {
                assert(head@.subrange(0, 6)[i as int] != magic()[i as int]);
            }
            return Err(NpyError::NotNpy);
        }
        i += 1;
    }
    proof {
        assert(head@.subrange(0, 6) =~= magic());
    }
    if head[6] == 1 {
        Ok((10, le_bytes(head, 8, 10)))
    } else if head.len() < 12 {
        Err(NpyError::Truncated)
    } else {
        Ok((12, le_bytes(head, 8, 12)))
    }
}

/// The needles of the header: the three fields and the Fortran flag.
pub open spec fn key_field() -> Seq<u8> {
    seq![39u8, 107u8, 101u8, 121u8, 39u8]
}

pub open spec fn pos_field() -> Seq<u8> {
    seq![39u8, 112u8, 111u8, 115u8, 39u8]
}

pub open spec fn label_field() -> Seq<u8> {
    seq![39u8, 108u8, 97u8, 98u8, 101u8, 108u8, 39u8]
}

/// `'fortran_order': True`
pub open spec fn fortran_flag() -> Seq<u8> {
    seq![
        39u8, 102u8, 111u8, 114u8, 116u8, 114u8, 97u8, 110u8, 95u8, 111u8, 114u8, 100u8, 101u8, 114u8, 39u8,
        58u8, 32u8, 84u8, 114u8, 117u8, 101u8,
    ]
}

/// Checks the header and the size of the data: where the records start and
/// how many there are. The header must name the fields `key`, `pos` and
/// `label` and must not be in Fortran order; the data after the header must
/// be a whole number of records.
pub fn npy_records(header: &[u8], hstart: u64, hlen: u64, file_len: u64) -> (r: Result<(u64, u64), NpyError>)
    requires
        hstart + hlen <= u64::MAX,
    ensures
        r == if !(occurs(header@, key_field()) && occurs(header@, pos_field()) && occurs(header@, label_field())) {
            Err::<(u64, u64), NpyError>(NpyError::UnexpectedDtype)
        } else if occurs(header@, fortran_flag()) {
            Err(NpyError::FortranOrder)
        } else if file_len < hstart + hlen {
            Err(NpyError::Truncated)
        } else if (file_len - hstart - hlen) % (REC as int) != 0 {
            Err(NpyError::RaggedData)
        } else {
            Ok(((hstart + hlen) as u64, ((file_len - hstart - hlen) / (REC as int)) as u64))
        },
{
    let k: [u8; 5] = [39, 107, 101, 121, 39];
    let p: [u8; 5] = [39, 112, 111, 115, 39];
    let l: [u8; 7] = [39, 108, 97, 98, 101, 108, 39];
    let f: [u8; 21] = [39, 102, 111, 114, 116, 114, 97, 110, 95, 111, 114, 100, 101, 114, 39, 58, 32, 84, 114, 117, 101];
    proof {
        assert(k@ =~= key_field());
        assert(p@ =~= pos_field());
        assert(l@ =~= label_field());
        assert(f@ =~= fortran_flag());
    }
    if !(find(header, &k) && find(header, &p) && find(header, &l)) {
        return Err(NpyError::UnexpectedDtype);
    }
    if find(header, &f) {
        return Err(NpyError::FortranOrder);
    }
    let offset = hstart + hlen;
    if file_len < offset {
        return Err(NpyError::Truncated);
    }
    let data = file_len - offset;
    if data % REC != 0 {
        return Err(NpyError::RaggedData);
    }
    Ok((offset, data / REC))
}

/// A packed record: key, position, label.
pub fn decode_record(b: &[u8; 17]) -> (r: (u64, u64, u8))
    ensures
        r.0 == le(b@.subrange(0, 8)),
        r.1 == le(b@.subrange(8, 16)),
        r.2 == b@[16],
{
    let s: &[u8] = b;
    (le_bytes(s, 0, 8), le_bytes(s, 8, 16), b[16])
}

} // verus!
