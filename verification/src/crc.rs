//! The CRC-32 engine used by every chunk: the PNG/zlib variant with the
//! reflected polynomial `0xedb88320`, initial value `0xffffffff` and final
//! XOR `0xffffffff`.

use vstd::prelude::*;

verus! {

/// One step of the reflected shift register: shift right once and fold the
/// polynomial in when a one bit falls out.
pub open spec fn crc_shift(c: u32) -> u32 {
    if c & 1 == 1 {
        0xedb88320u32 ^ (c >> 1)
    } else {
        c >> 1
    }
}

/// `k` steps of the shift register applied to `c`.
pub open spec fn crc_shifts(c: u32, k: nat) -> u32
    decreases k,
{
    if k == 0 {
        c
    } else {
        crc_shifts(crc_shift(c), (k - 1) as nat)
    }
}

/// The table entry for one byte value: eight shift steps.
pub open spec fn crc_table_entry(n: u32) -> u32 {
    crc_shifts(n, 8)
}

/// One byte folded into the running checksum state.
pub open spec fn crc_update_byte(crc: u32, b: u8) -> u32 {
    crc_table_entry((crc ^ b as u32) & 0xff) ^ (crc >> 8)
}

/// The state after folding a whole byte sequence, front to back.
pub open spec fn crc_update_seq(crc: u32, data: Seq<u8>) -> u32
    decreases data.len(),
{
    if data.len() == 0 {
        crc
    } else {
        crc_update_byte(crc_update_seq(crc, data.drop_last()), data.last())
    }
}

/// The checksum of a byte sequence.
pub open spec fn crc32_spec(data: Seq<u8>) -> u32 {
    crc_update_seq(0xffffffffu32, data) ^ 0xffffffffu32
}

/// The 256-entry table mapping a byte value to its partial contribution.
/// It is rebuilt on use and immutable thereafter.
pub fn build_crc_table() -> (t: Vec<u32>)
    ensures
        t@.len() == 256,
        forall|i: int| 0 <= i < 256 ==> t@[i] == crc_table_entry(i as u32),
{
    let mut t: Vec<u32> = Vec::new();
    let mut n: u32 = 0;
    while n < 256
        invariant
            n <= 256,
            t@.len() == n,
            forall|i: int| 0 <= i < n ==> t@[i] == crc_table_entry(i as u32),
        decreases 256 - n,
    {
        let mut c = n;
        let mut k: u32 = 0;
        while k < 8
            invariant
                k <= 8,
                c == crc_shifts(n, k as nat),
            decreases 8 - k,
        {
            proof {
                assert(crc_shift(crc_shifts(n, k as nat)) == crc_shifts(n, (k + 1) as nat)) by {
                    lemma_crc_shifts_unfold_back(n, k as nat);
                }
            }
            if c & 1 == 1 {
                c = 0xedb88320u32 ^ (c >> 1);
            } else {
                c = c >> 1;
            }
            k = k + 1;
        }
        t.push(c);
        n = n + 1;
    }
    t
}

/// Applying one more shift step after `k` steps is the same as `k + 1` steps.
proof fn lemma_crc_shifts_unfold_back(c: u32, k: nat)
    ensures
        crc_shift(crc_shifts(c, k)) == crc_shifts(c, k + 1),
    decreases k,
{
    assert(crc_shifts(c, k + 1) == crc_shifts(crc_shift(c), k));
    if k == 0 {
        assert(crc_shifts(c, 0) == c);
        assert(crc_shifts(crc_shift(c), 0) == crc_shift(c));
    } else {
        assert(crc_shifts(c, k) == crc_shifts(crc_shift(c), (k - 1) as nat));
        lemma_crc_shifts_unfold_back(crc_shift(c), (k - 1) as nat);
    }
}

/// Fold the bytes of `data` into a running checksum state.
pub fn update_crc(crc: u32, data: &Vec<u8>) -> (r: u32)
    ensures
        r == crc_update_seq(crc, data@),
{
    let table = build_crc_table();
    let mut new_crc = crc;
    let mut i: usize = 0;
    while i < data.len()
        invariant
            i <= data@.len(),
            table@.len() == 256,
            forall|j: int| 0 <= j < 256 ==> table@[j] == crc_table_entry(j as u32),
            new_crc == crc_update_seq(crc, data@.take(i as int)),
        decreases data@.len() - i,
    {
        let b = data[i];
        let index = (new_crc ^ b as u32) & 0xff;
        proof {
            assert((new_crc ^ b as u32) & 0xff < 256) by (bit_vector);
            assert(data@.take(i + 1).drop_last() =~= data@.take(i as int));
            assert(data@.take(i + 1).last() == data@[i as int]);
        }
        new_crc = table[index as usize] ^ (new_crc >> 8);
        i = i + 1;
    }
    proof {
        assert(data@.take(data@.len() as int) =~= data@);
    }
    new_crc
}

/// The checksum of `data`: fold from the all-ones state and invert at the end.
pub fn calculate_crc(data: &Vec<u8>) -> (r: u32)
    ensures
        r == crc32_spec(data@),
{
    update_crc(0xffffffff, data) ^ 0xffffffff
}

/// One shift step distributes over XOR.
proof fn lemma_shift_linear(x: u32, y: u32)
    ensures
        crc_shift(x) ^ crc_shift(y) == crc_shift(x ^ y),
{
    assert((if x & 1 == 1 {
        0xedb88320u32 ^ (x >> 1)
    } else {
        x >> 1
    }) ^ (if y & 1 == 1 {
        0xedb88320u32 ^ (y >> 1)
    } else {
        y >> 1
    }) == (if (x ^ y) & 1 == 1 {
        0xedb88320u32 ^ ((x ^ y) >> 1)
    } else {
        (x ^ y) >> 1
    })) by (bit_vector);
}

/// The whole table map distributes over XOR.
proof fn lemma_shifts_linear(x: u32, y: u32, k: nat)
    ensures
        crc_shifts(x, k) ^ crc_shifts(y, k) == crc_shifts(x ^ y, k),
    decreases k,
{
    if k > 0 {
        lemma_shift_linear(x, y);
        lemma_shifts_linear(crc_shift(x), crc_shift(y), (k - 1) as nat);
    }
}

/// The table entry of a non-zero byte value keeps a non-zero top byte;
/// the entry of zero is zero.
proof fn lemma_entry_top(lo: u32)
    requires
        lo < 256,
    ensures
        lo != 0 ==> crc_table_entry(lo) >> 24 != 0,
        lo == 0 ==> crc_table_entry(lo) == 0,
{
    let p = 0xedb88320u32;
    let c1 = if lo & 1 == 1 {
        p ^ (lo >> 1)
    } else {
        lo >> 1
    };
    let c2 = if c1 & 1 == 1 {
        p ^ (c1 >> 1)
    } else {
        c1 >> 1
    };
    let c3 = if c2 & 1 == 1 {
        p ^ (c2 >> 1)
    } else {
        c2 >> 1
    };
    let c4 = if c3 & 1 == 1 {
        p ^ (c3 >> 1)
    } else {
        c3 >> 1
    };
    let c5 = if c4 & 1 == 1 {
        p ^ (c4 >> 1)
    } else {
        c4 >> 1
    };
    let c6 = if c5 & 1 == 1 {
        p ^ (c5 >> 1)
    } else {
        c5 >> 1
    };
    let c7 = if c6 & 1 == 1 {
        p ^ (c6 >> 1)
    } else {
        c6 >> 1
    };
    let c8 = if c7 & 1 == 1 {
        p ^ (c7 >> 1)
    } else {
        c7 >> 1
    };
    assert(crc_table_entry(lo) == c8) by {
        assert(crc_shifts(lo, 8) == crc_shifts(c1, 7));
        assert(crc_shifts(c1, 7) == crc_shifts(c2, 6));
        assert(crc_shifts(c2, 6) == crc_shifts(c3, 5));
        assert(crc_shifts(c3, 5) == crc_shifts(c4, 4));
        assert(crc_shifts(c4, 4) == crc_shifts(c5, 3));
        assert(crc_shifts(c5, 3) == crc_shifts(c6, 2));
        assert(crc_shifts(c6, 2) == crc_shifts(c7, 1));
        assert(crc_shifts(c7, 1) == crc_shifts(c8, 0));
    }
    let pp = 0xedb88320u32;
    assert(lo != 0 ==> ({
        let d1 = if lo & 1 == 1 {
            pp ^ (lo >> 1)
        } else {
            lo >> 1
        };
        let d2 = if d1 & 1 == 1 {
            pp ^ (d1 >> 1)
        } else {
            d1 >> 1
        };
        let d3 = if d2 & 1 == 1 {
            pp ^ (d2 >> 1)
        } else {
            d2 >> 1
        };
        let d4 = if d3 & 1 == 1 {
            pp ^ (d3 >> 1)
        } else {
            d3 >> 1
        };
        let d5 = if d4 & 1 == 1 {
            pp ^ (d4 >> 1)
        } else {
            d4 >> 1
        };
        let d6 = if d5 & 1 == 1 {
            pp ^ (d5 >> 1)
        } else {
            d5 >> 1
        };
        let d7 = if d6 & 1 == 1 {
            pp ^ (d6 >> 1)
        } else {
            d6 >> 1
        };
        let d8 = if d7 & 1 == 1 {
            pp ^ (d7 >> 1)
        } else {
            d7 >> 1
        };
        d8 >> 24 != 0
    })) by (bit_vector)
        requires
            pp == 0xedb88320u32,
            lo < 256,
    ;
    assert(lo == 0 ==> ({
        let d1 = if lo & 1 == 1 {
            pp ^ (lo >> 1)
        } else {
            lo >> 1
        };
        let d2 = if d1 & 1 == 1 {
            pp ^ (d1 >> 1)
        } else {
            d1 >> 1
        };
        let d3 = if d2 & 1 == 1 {
            pp ^ (d2 >> 1)
        } else {
            d2 >> 1
        };
        let d4 = if d3 & 1 == 1 {
            pp ^ (d3 >> 1)
        } else {
            d3 >> 1
        };
        let d5 = if d4 & 1 == 1 {
            pp ^ (d4 >> 1)
        } else {
            d4 >> 1
        };
        let d6 = if d5 & 1 == 1 {
            pp ^ (d5 >> 1)
        } else {
            d5 >> 1
        };
        let d7 = if d6 & 1 == 1 {
            pp ^ (d6 >> 1)
        } else {
            d6 >> 1
        };
        let d8 = if d7 & 1 == 1 {
            pp ^ (d7 >> 1)
        } else {
            d7 >> 1
        };
        d8 == 0
    })) by (bit_vector)
        requires
            pp == 0xedb88320u32,
    ;
}

/// Folding two different bytes into the same state yields different
/// states.
proof fn lemma_update_byte_inj(c: u32, b1: u8, b2: u8)
    requires
        b1 != b2,
    ensures
        crc_update_byte(c, b1) != crc_update_byte(c, b2),
{
    let x1 = (c ^ b1 as u32) & 0xff;
    let x2 = (c ^ b2 as u32) & 0xff;
    assert(x1 < 256 && x2 < 256 && x1 != x2 && (x1 ^ x2) < 256 && (x1 ^ x2) != 0) by (bit_vector)
        requires
            b1 != b2,
            x1 == (c ^ b1 as u32) & 0xff,
            x2 == (c ^ b2 as u32) & 0xff,
    ;
    lemma_shifts_linear(x1, x2, 8);
    lemma_entry_top(x1 ^ x2);
    let e1 = crc_table_entry(x1);
    let e2 = crc_table_entry(x2);
    let t = crc_table_entry(x1 ^ x2);
    assert(e1 != e2) by (bit_vector)
        requires
            e1 ^ e2 == t,
            t >> 24 != 0,
    ;
    assert(e1 ^ (c >> 8) != e2 ^ (c >> 8)) by (bit_vector)
        requires
            e1 != e2,
    ;
}

/// Folding the same byte into two different states yields different
/// states.
proof fn lemma_update_state_inj(c1: u32, c2: u32, b: u8)
    requires
        c1 != c2,
    ensures
        crc_update_byte(c1, b) != crc_update_byte(c2, b),
{
    let x1 = (c1 ^ b as u32) & 0xff;
    let x2 = (c2 ^ b as u32) & 0xff;
    let e1 = crc_table_entry(x1);
    let e2 = crc_table_entry(x2);
    if x1 == x2 {
        assert(c1 >> 8 != c2 >> 8) by (bit_vector)
            requires
                c1 != c2,
                (c1 ^ b as u32) & 0xff == (c2 ^ b as u32) & 0xff,
        ;
        assert(e1 ^ (c1 >> 8) != e2 ^ (c2 >> 8)) by (bit_vector)
            requires
                e1 == e2,
                c1 >> 8 != c2 >> 8,
        ;
    } else {
        assert(x1 < 256 && x2 < 256 && (x1 ^ x2) < 256 && (x1 ^ x2) != 0) by (bit_vector)
            requires
                x1 == (c1 ^ b as u32) & 0xff,
                x2 == (c2 ^ b as u32) & 0xff,
                x1 != x2,
        ;
        lemma_shifts_linear(x1, x2, 8);
        lemma_entry_top(x1 ^ x2);
        let t = crc_table_entry(x1 ^ x2);
        assert(e1 ^ (c1 >> 8) != e2 ^ (c2 >> 8)) by (bit_vector)
            requires
                e1 ^ e2 == t,
                t >> 24 != 0,
        ;
    }
}

/// Folding two sequences that differ in exactly one byte from the same
/// state yields different states.
proof fn lemma_seq_sensitivity(init: u32, s1: Seq<u8>, s2: Seq<u8>, i: int)
    requires
        s1.len() == s2.len(),
        0 <= i < s1.len(),
        s1[i] != s2[i],
        forall|j: int| 0 <= j < s1.len() && j != i ==> s1[j] == s2[j],
    ensures
        crc_update_seq(init, s1) != crc_update_seq(init, s2),
    decreases s1.len(),
{
    if i == s1.len() - 1 {
        assert(s1.drop_last() =~= s2.drop_last());
        lemma_update_byte_inj(crc_update_seq(init, s1.drop_last()), s1.last(), s2.last());
    } else {
        assert(s1.last() == s2.last());
        lemma_seq_sensitivity(init, s1.drop_last(), s2.drop_last(), i);
        lemma_update_state_inj(
            crc_update_seq(init, s1.drop_last()),
            crc_update_seq(init, s2.drop_last()),
            s1.last(),
        );
    }
}

/// CRC sensitivity: changing any single byte of a sequence, in any one or
/// more of its bits, changes the checksum.  Flipping a single bit is the
/// special case where the two sequences differ in one bit of one byte.
pub proof fn lemma_crc_single_change(s1: Seq<u8>, s2: Seq<u8>, i: int)
    requires
        s1.len() == s2.len(),
        0 <= i < s1.len(),
        s1[i] != s2[i],
        forall|j: int| 0 <= j < s1.len() && j != i ==> s1[j] == s2[j],
    ensures
        crc32_spec(s1) != crc32_spec(s2),
{
    lemma_seq_sensitivity(0xffffffffu32, s1, s2, i);
    let a = crc_update_seq(0xffffffffu32, s1);
    let b = crc_update_seq(0xffffffffu32, s2);
    assert(a ^ 0xffffffffu32 != b ^ 0xffffffffu32) by (bit_vector)
        requires
            a != b,
    ;
}

} // verus!
