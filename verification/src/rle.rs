use vstd::prelude::*;

verus! {

/// Run-length form of `c` when `run` zeros came just before it: each
/// nonzero value is paired with the number of zeros before it (since the
/// previous nonzero value); zeros at the end become one pair `(run, 0)`.
pub open spec fn rle_from(c: Seq<i16>, run: nat) -> Seq<(u8, i16)>
    decreases c.len(),
{
    if c.len() == 0 {
        if run > 0 {
            seq![(run as u8, 0i16)]
        } else {
            Seq::empty()
        }
    } else if c[0] == 0 {
        rle_from(c.drop_first(), run + 1)
    } else {
        seq![(run as u8, c[0])] + rle_from(c.drop_first(), 0)
    }
}

/// Run-length form of a block of coefficients.
pub open spec fn rle_encode(c: Seq<i16>) -> Seq<(u8, i16)> {
    rle_from(c, 0)
}

/// Places the pairs of `rle` into `coeffs` from position `pos` on: each
/// pair skips its run and then writes its value, unless that position is
/// past the block of 64. Gives the coefficients and the final position.
pub open spec fn rle_place(coeffs: Seq<i16>, pos: int, rle: Seq<(usize, i16)>) -> (Seq<i16>, int)
    decreases rle.len(),
{
    if rle.len() == 0 {
        (coeffs, pos)
    } else {
        let p = pos + rle[0].0;
        if p < 64 {
            rle_place(coeffs.update(p, rle[0].1), p + 1, rle.drop_first())
        } else {
            rle_place(coeffs, p, rle.drop_first())
        }
    }
}

pub open spec fn zero_block() -> Seq<i16> {
    Seq::new(64, |i: int| 0i16)
}

/// The block that the pairs of `rle` decode to.
pub open spec fn rle_decode(rle: Seq<(usize, i16)>) -> Seq<i16> {
    rle_place(zero_block(), 0, rle).0
}

/// The position after the last pair of `rle`.
pub open spec fn rle_end(rle: Seq<(usize, i16)>) -> int {
    rle_place(zero_block(), 0, rle).1
}

/// Runs stored as `usize`, as the decoder takes them.
pub open spec fn widen_runs(rle: Seq<(u8, i16)>) -> Seq<(usize, i16)> {
    rle.map_values(|e: (u8, i16)| (e.0 as usize, e.1))
}

/// Run-length codes the 64 coefficients of a block, in order.
pub fn quantized_encoding(coefficients: &[i16; 64]) -> (rle: Vec<(u8, i16)>)
    ensures
        rle@ == rle_encode(coefficients@),
        rle@.len() <= 64,
{
    let mut rle: Vec<(u8, i16)> = Vec::new();
    let mut run: u8 = 0;
    let mut i: usize = 0;
    let ghost c = coefficients@;
    proof {
        assert(c.skip(0) =~= c);
    }
    while i < 64
        invariant
            i <= 64,
            c.len() == 64,
            c == coefficients@,
            run <= i,
            rle@.len() + run <= i,
            rle@ + rle_from(c.skip(i as int), run as nat) == rle_encode(c),
        decreases 64 - i,
    {
        let coeff = coefficients[i];
        proof {
            assert(c.skip(i as int)[0] == coeff);
            assert(c.skip(i as int).drop_first() =~= c.skip(i + 1));
        }
        if coeff == 0 {
            run = run + 1;
        } else {
            let ghost before = rle@;
            rle.push((run, coeff));
            proof {
                assert(before + rle_from(c.skip(i as int), run as nat) =~= rle@ + rle_from(
                    c.skip(i + 1),
                    0,
                ));
            }
            run = 0;
        }
        i = i + 1;
    }
    proof {
        assert(c.skip(64) =~= Seq::<i16>::empty());
    }
    if run > 0 {
        let ghost before = rle@;
        rle.push((run, 0));
        proof {
            assert(rle@ =~= before + rle_from(c.skip(64), run as nat));
        }
    } else {
        proof {
            assert(rle@ =~= rle@ + rle_from(c.skip(64), run as nat));
        }
    }
    rle
}

proof fn lemma_place_pos(coeffs: Seq<i16>, pos: int, rle: Seq<(usize, i16)>)
    ensures
        rle_place(coeffs, pos, rle).1 >= pos,
        rle.len() > 0 ==> rle_place(coeffs, pos, rle).1 >= pos + rle[0].0,
    decreases rle.len(),
{
    if rle.len() > 0 {
        let p = pos + rle[0].0;
        if p < 64 {
            lemma_place_pos(coeffs.update(p, rle[0].1), p + 1, rle.drop_first());
        } else {
            lemma_place_pos(coeffs, p, rle.drop_first());
        }
    }
}

/// Rebuilds a block of 64 coefficients from its run-length pairs.
pub fn quantized_decoding(rle: &[(usize, i16)]) -> (coefficients: [i16; 64])
    requires
        rle_end(rle@) <= usize::MAX,
    ensures
        coefficients@ == rle_decode(rle@),
{
    let mut coefficients = [0i16; 64];
    let mut pos: usize = 0;
    let mut i: usize = 0;
    proof {
        assert(coefficients@ =~= zero_block());
        assert(rle@.skip(0) =~= rle@);
    }
    while i < rle.len()
        invariant
            i <= rle.len(),
            coefficients@.len() == 64,
            rle_place(coefficients@, pos as int, rle@.skip(i as int)) == rle_place(
                zero_block(),
                0,
                rle@,
            ),
            rle_end(rle@) <= usize::MAX,
        decreases rle.len() - i,
    {
        let (run, value) = rle[i];
        proof {
            assert(rle@.skip(i as int)[0] == (run, value));
            assert(rle@.skip(i as int).drop_first() =~= rle@.skip(i + 1));
            lemma_place_pos(coefficients@, pos as int, rle@.skip(i as int));
        }
        pos = pos + run;
        if pos < 64 {
            coefficients[pos] = value;
            pos = pos + 1;
        }
        i = i + 1;
    }
    proof {
        assert(rle@.skip(i as int) =~= Seq::<(usize, i16)>::empty());
    }
    coefficients
}

proof fn lemma_place_rle_from(c: Seq<i16>, k: int, r: nat, acc: Seq<i16>)
    requires
        c.len() == 64,
        0 <= r <= k <= 64,
        acc.len() == 64,
        forall|j: int| 0 <= j < k - r ==> acc[j] == c[j],
        forall|j: int| k - r <= j < 64 ==> acc[j] == 0,
        forall|j: int| k - r <= j < k ==> c[j] == 0,
    ensures
        rle_place(acc, k - r, widen_runs(rle_from(c.skip(k), r))).0 == c,
    decreases 64 - k,
{
    let f = |e: (u8, i16)| (e.0 as usize, e.1);
    if k == 64 {
        assert(c.skip(k) =~= Seq::<i16>::empty());
        if r > 0 {
            let w = widen_runs(rle_from(c.skip(k), r));
            assert(w =~= seq![(r as u8 as usize, 0i16)]);
            assert(w.drop_first() =~= Seq::<(usize, i16)>::empty());
            assert(w[0].0 == r);
            assert(rle_place(acc, k - r, w) == rle_place(acc, 64, w.drop_first()));
            assert(rle_place(acc, k - r, w).0 == acc);
        } else {
            assert(rle_from(c.skip(k), r) =~= Seq::<(u8, i16)>::empty());
            assert(widen_runs(rle_from(c.skip(k), r)) =~= Seq::<(usize, i16)>::empty());
        }
        assert(acc =~= c);
    } else {
        let s = c.skip(k);
        assert(s[0] == c[k]);
        assert(s.drop_first() =~= c.skip(k + 1));
        if c[k] == 0 {
            lemma_place_rle_from(c, k + 1, r + 1, acc);
        } else {
            let rest = rle_from(c.skip(k + 1), 0);
            assert(rle_from(s, r) == seq![(r as u8, c[k])] + rest);
            let w = widen_runs(seq![(r as u8, c[k])] + rest);
            assert(w =~= seq![(r as usize, c[k])] + widen_runs(rest));
            assert(w.drop_first() =~= widen_runs(rest));
            let acc2 = acc.update(k, c[k]);
            assert(w[0] == (r as usize, c[k]));
            assert(rle_place(acc, k - r, w) == rle_place(acc2, k + 1, w.drop_first()));
            lemma_place_rle_from(c, k + 1, 0, acc2);
        }
    }
}

/// Decoding the run-length form of a block gives the block back.
pub proof fn lemma_rle_roundtrip(c: Seq<i16>)
    requires
        c.len() == 64,
    ensures
        rle_decode(widen_runs(rle_encode(c))) == c,
{
    assert(c.skip(0) =~= c);
    lemma_place_rle_from(c, 0, 0, zero_block());
}

/// How many coefficients the pairs account for: each pair its run of zeros,
/// and one more for a nonzero value.
pub open spec fn rle_cover(rle: Seq<(u8, i16)>) -> int
    decreases rle.len(),
{
    if rle.len() == 0 {
        0
    } else {
        rle[0].0 + (if rle[0].1 != 0 {
            1int
        } else {
            0int
        }) + rle_cover(rle.drop_first())
    }
}

/// Number of zeros at the end of `c`.
pub open spec fn trailing_zeros(c: Seq<i16>) -> nat
    decreases c.len(),
{
    if c.len() == 0 {
        0
    } else if c.last() == 0 {
        1 + trailing_zeros(c.drop_last())
    } else {
        0
    }
}

proof fn lemma_trailing_zeros_drop_first(s: Seq<i16>)
    requires
        s.len() > 0,
    ensures
        trailing_zeros(s) <= s.len(),
        trailing_zeros(s.drop_first()) == if trailing_zeros(s) < s.len() {
            trailing_zeros(s)
        } else {
            (s.len() - 1) as nat
        },
        trailing_zeros(s) == s.len() ==> s[0] == 0,
        trailing_zeros(s) < s.len() && s[0] == 0 ==> trailing_zeros(s.drop_first())
            < s.drop_first().len(),
    decreases s.len(),
{
    if s.len() == 1 {
        assert(s.drop_first() =~= Seq::<i16>::empty());
        assert(s.drop_last() =~= Seq::<i16>::empty());
    } else {
        lemma_trailing_zeros_drop_first(s.drop_last());
        assert(s.drop_first().drop_last() =~= s.drop_last().drop_first());
        assert(s.drop_first().last() == s.last());
        assert(s.drop_last()[0] == s[0]);
    }
}

proof fn lemma_rle_from_shape(s: Seq<i16>, r: nat)
    requires
        r + s.len() <= 255,
    ensures
        rle_cover(rle_from(s, r)) == r + s.len(),
        forall|k: int|
            0 <= k < rle_from(s, r).len() - 1 ==> #[trigger] rle_from(s, r)[k].1 != 0,
        trailing_zeros(s) == s.len() ==> rle_from(s, r) == if r + s.len() > 0 {
            seq![((r + s.len()) as u8, 0i16)]
        } else {
            Seq::<(u8, i16)>::empty()
        },
        trailing_zeros(s) < s.len() ==> {
            &&& rle_from(s, r).len() > 0
            &&& trailing_zeros(s) > 0 ==> rle_from(s, r).last() == (trailing_zeros(s) as u8, 0i16)
            &&& trailing_zeros(s) == 0 ==> rle_from(s, r).last().1 != 0
        },
    decreases s.len(),
{
    let out = rle_from(s, r);
    if s.len() == 0 {
        if r > 0 {
            let one = seq![(r as u8, 0i16)];
            assert(one.drop_first() =~= Seq::<(u8, i16)>::empty());
            assert(rle_cover(one.drop_first()) == 0);
            assert(rle_cover(one) == r);
        }
    } else {
        lemma_trailing_zeros_drop_first(s);
        let rest = s.drop_first();
        if s[0] == 0 {
            lemma_rle_from_shape(rest, r + 1);
        } else {
            lemma_rle_from_shape(rest, 0);
            let tail = rle_from(rest, 0);
            let head = seq![(r as u8, s[0])];
            assert(out == head + tail);
            assert((head + tail).drop_first() =~= tail);
            assert((head + tail)[0] == (r as u8, s[0]));
            assert(rle_cover(out) == r + 1 + rle_cover(tail));
            assert forall|k: int| 0 <= k < out.len() - 1 implies #[trigger] out[k].1 != 0 by {
                if k > 0 {
                    assert(out[k] == tail[k - 1]);
                }
            }
            if tail.len() > 0 {
                assert(out.last() == tail.last());
            }
        }
    }
}

/// The run-length form of a block accounts for all 64 coefficients (runs,
/// plus one per nonzero value); only the last pair can hold the value 0,
/// and it does exactly when the block ends in zeros, then as the pair
/// (number of trailing zeros, 0).
pub proof fn lemma_rle_shape(c: Seq<i16>)
    requires
        c.len() == 64,
    ensures
        rle_cover(rle_encode(c)) == 64,
        forall|k: int|
            0 <= k < rle_encode(c).len() - 1 ==> #[trigger] rle_encode(c)[k].1 != 0,
        rle_encode(c).len() > 0,
        trailing_zeros(c) > 0 <==> rle_encode(c).last().1 == 0,
        trailing_zeros(c) > 0 ==> rle_encode(c).last() == (trailing_zeros(c) as u8, 0i16),
{
    lemma_rle_from_shape(c, 0);
    lemma_trailing_zeros_drop_first(c);
}

} // verus!
