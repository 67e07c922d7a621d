//! Small verified helpers around the engine's configuration and output.

use vstd::prelude::*;

verus! {

/// Whether every byte is an ASCII decimal digit.
pub open spec fn all_digits(bs: Seq<u8>) -> bool {
    forall|i: int| 0 <= i < bs.len() ==> 48 <= #[trigger] bs[i] <= 57
}

/// The number the decimal digits spell.
pub open spec fn digits_val(bs: Seq<u8>) -> int
    decreases bs.len(),
{
    if bs.len() == 0 {
        0
    } else {
        digits_val(bs.drop_last()) * 10 + (bs.last() - 48)
    }
}

/// The retry budget named by an environment value: its decimal value when
/// it is a number that fits, else the default of four.
pub open spec fn retries_spec(v: Option<Seq<u8>>) -> int {
    match v {
        Some(bs) => if bs.len() > 0 && all_digits(bs) && digits_val(bs) <= 0xffff_ffff_ffff_ffff {
            digits_val(bs)
        } else {
            4
        },
        None => 4,
    }
}

/// Parse the retry budget from an environment value.
pub fn parse_retries(v: Option<Vec<u8>>) -> (r: u64)
    ensures
        r as int == retries_spec(
            match v {
                Some(bs) => Some(bs@),
                None => None,
            },
        ),
{
    let bs = match v {
        Some(bs) => bs,
        None => {
            return 4;
        },
    };
    if bs.len() == 0 {
        return 4;
    }
    let mut acc: u64 = 0;
    let mut i: usize = 0;
    while i < bs.len()
        invariant
            0 <= i <= bs@.len(),
            all_digits(bs@.take(i as int)),
            acc as int == digits_val(bs@.take(i as int)),
        decreases bs@.len() - i,
    {
        let b = bs[i];
        if !(48 <= b && b <= 57) {
            assert(!all_digits(bs@)) by {
                assert(bs@[i as int] == b);
            }
            return 4;
        }
        let d = (b - 48) as u64;
        let wide: u128 = acc as u128 * 10 + d as u128;
        proof {
            assert(bs@.take(i as int + 1).drop_last() =~= bs@.take(i as int));
            assert(bs@.take(i as int + 1).last() == bs@[i as int]);
            assert(digits_val(bs@.take(i as int + 1)) == acc * 10 + d);
        }
        if wide > u64::MAX as u128 {
            proof {
                if all_digits(bs@) {
                    lemma_digits_grow(bs@, i as int + 1);
                    assert(digits_val(bs@) > 0xffff_ffff_ffff_ffff);
                }
            }
            return 4;
        }
        acc = wide as u64;
        i += 1;
    }
    proof {
        assert(bs@.take(bs@.len() as int) =~= bs@);
    }
    acc
}

/// A longer digit string never spells a smaller number.
proof fn lemma_digits_grow(bs: Seq<u8>, k: int)
    requires
        0 <= k <= bs.len(),
        all_digits(bs),
    ensures
        digits_val(bs) >= digits_val(bs.take(k)),
    decreases bs.len() - k,
{
    if k == bs.len() {
        assert(bs.take(k) =~= bs);
    } else {
        lemma_digits_grow(bs, k + 1);
        assert(bs.take(k + 1).drop_last() =~= bs.take(k));
        assert(bs.take(k + 1).last() == bs[k]);
        assert(digits_val(bs.take(k + 1)) == digits_val(bs.take(k)) * 10 + (bs[k] - 48));
        assert(digits_val(bs.take(k)) >= 0) by {
            lemma_digits_nonneg(bs.take(k));
        }
    }
}

/// A digit string spells a non-negative number.
proof fn lemma_digits_nonneg(bs: Seq<u8>)
    requires
        all_digits(bs),
    ensures
        digits_val(bs) >= 0,
    decreases bs.len(),
{
    if bs.len() > 0 {
        assert(all_digits(bs.drop_last()));
        lemma_digits_nonneg(bs.drop_last());
    }
}

/// Whether the byte is ASCII whitespace, as the output trimming counts it.
pub open spec fn is_ws(b: u8) -> bool {
    b == 32 || b == 9 || b == 10 || b == 13
}

/// The length of `bs` once trailing ASCII whitespace is dropped.
pub open spec fn trimmed_len(bs: Seq<u8>) -> int
    decreases bs.len(),
{
    if bs.len() == 0 {
        0
    } else if is_ws(bs.last()) {
        trimmed_len(bs.drop_last())
    } else {
        bs.len() as int
    }
}

/// `bs` without its trailing ASCII whitespace.
pub fn trim_end_bytes(bs: &Vec<u8>) -> (r: Vec<u8>)
    ensures
        r@ == bs@.take(trimmed_len(bs@)),
{
    let mut n: usize = bs.len();
    proof {
        assert(bs@.take(bs@.len() as int) =~= bs@);
    }
    while n > 0 && (bs[n - 1] == 32 || bs[n - 1] == 9 || bs[n - 1] == 10 || bs[n - 1] == 13)
        invariant
            0 <= n <= bs@.len(),
            trimmed_len(bs@) == trimmed_len(bs@.take(n as int)),
        decreases n,
    {
        proof {
            assert(bs@.take(n as int).last() == bs@[n - 1]);
            assert(bs@.take(n as int).drop_last() =~= bs@.take(n as int - 1));
        }
        n -= 1;
    }
    proof {
        if n > 0 {
            assert(bs@.take(n as int).last() == bs@[n - 1]);
            assert(trimmed_len(bs@.take(n as int)) == n as int);
        } else {
            assert(bs@.take(0) =~= Seq::<u8>::empty());
        }
        assert(trimmed_len(bs@) == n as int);
    }
    let mut r: Vec<u8> = Vec::new();
    let mut i: usize = 0;
    while i < n
        invariant
            0 <= i <= n <= bs@.len(),
            r@ == bs@.take(i as int),
        decreases n - i,
    {
        r.push(bs[i]);
        proof {
            assert(r@ =~= bs@.take(i as int + 1));
        }
        i += 1;
    }
    r
}

} // verus!
