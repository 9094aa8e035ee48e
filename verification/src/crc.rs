//! CRC-16/CCITT-FALSE: polynomial 0x1021, initial value 0xFFFF, no
//! reflection, no final XOR.  The hunk map and every reconstructed hunk are
//! checked against checksums of this form.

use vstd::prelude::*;

verus! {

broadcast use vstd::group_vstd_default;

/// One shift step: shift left, folding in the polynomial when the top bit
/// was set.
pub open spec fn crc16_shift(crc: u16) -> u16 {
    if crc & 0x8000 == 0x8000 {
        (crc << 1) ^ 0x1021
    } else {
        (crc << 1)
    }
}

/// `k` shift steps.
pub open spec fn crc16_shifts(crc: u16, k: nat) -> u16
    decreases k,
{
    if k == 0 {
        crc
    } else {
        crc16_shifts(crc16_shift(crc), (k - 1) as nat)
    }
}

/// Folds one byte into the running checksum.
pub open spec fn crc16_byte(crc: u16, byte: u8) -> u16 {
    crc16_shifts(crc ^ ((byte as u16) << 8), 8)
}

/// The running checksum after the first `n` bytes of `s`, starting from
/// `crc`.
pub open spec fn crc16_fold(crc: u16, s: Seq<u8>, n: int) -> u16
    decreases n,
{
    if n <= 0 {
        crc
    } else {
        crc16_byte(crc16_fold(crc, s, n - 1), s[n - 1])
    }
}

/// The CRC-16/CCITT-FALSE checksum of a byte string.
pub open spec fn crc16_spec(s: Seq<u8>) -> u16 {
    crc16_fold(0xFFFF, s, s.len() as int)
}

/// Computes the CRC-16/CCITT-FALSE checksum of `data`.
pub fn crc16(data: &[u8]) -> (r: u16)
    ensures
        r == crc16_spec(data@),
{
    let mut crc: u16 = 0xFFFF;
    let mut n: usize = 0;
    while n < data.len()
        invariant
            n <= data@.len(),
            crc == crc16_fold(0xFFFF, data@, n as int),
        decreases data@.len() - n,
    {
        let byte = data[n];
        crc = crc ^ ((byte as u16) << 8u16);
        let mut k: usize = 0;
        while k < 8
            invariant
                k <= 8,
                crc == crc16_shifts(crc16_fold(0xFFFF, data@, n as int) ^ ((byte as u16) << 8u16), k as nat),
            decreases 8 - k,
        {
            if crc & 0x8000 == 0x8000 {
                crc = (crc << 1u16) ^ 0x1021;
            } else {
                crc = crc << 1u16;
            }
            proof {
                assert(crc16_shifts(
                    crc16_fold(0xFFFF, data@, n as int) ^ ((byte as u16) << 8u16),
                    (k + 1) as nat,
                ) == crc16_shift(
                    crc16_shifts(
                        crc16_fold(0xFFFF, data@, n as int) ^ ((byte as u16) << 8u16),
                        k as nat,
                    ),
                )) by {
                    lemma_crc16_shifts_unfold_right(
                        crc16_fold(0xFFFF, data@, n as int) ^ ((byte as u16) << 8u16),
                        (k + 1) as nat,
                    );
                }
            }
            k = k + 1;
        }
        n = n + 1;
    }
    crc
}

/// Peeling a shift step off the end of a run of `k` steps is the same as
/// taking it after the first `k - 1`.
proof fn lemma_crc16_shifts_unfold_right(crc: u16, k: nat)
    requires
        k > 0,
    ensures
        crc16_shifts(crc, k) == crc16_shift(crc16_shifts(crc, (k - 1) as nat)),
    decreases k,
{
    assert(crc16_shifts(crc, k) == crc16_shifts(crc16_shift(crc), (k - 1) as nat));
    if k == 1 {
        assert(crc16_shifts(crc16_shift(crc), 0) == crc16_shift(crc));
        assert(crc16_shifts(crc, 0) == crc);
    } else {
        lemma_crc16_shifts_unfold_right(crc16_shift(crc), (k - 1) as nat);
    }
}

} // verus!
