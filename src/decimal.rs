use vstd::prelude::*;

verus! {

/// The ASCII byte of a decimal digit.
pub open spec fn is_digit(c: u8) -> bool {
    48 <= c <= 57
}

/// The shortest decimal text of `n`: no sign, no leading zero.
pub open spec fn dec(n: nat) -> Seq<u8>
    decreases n,
{
    if n < 10 {
        seq![(48 + n) as u8]
    } else {
        dec(n / 10).push((48 + n % 10) as u8)
    }
}

/// The number that a run of decimal digits denotes.
pub open spec fn digits_value(s: Seq<u8>) -> nat
    decreases s.len(),
{
    if s.len() == 0 {
        0
    } else {
        digits_value(s.drop_last()) * 10 + (s.last() - 48) as nat
    }
}

/// `s` holds, from `pos` on, the decimal text of `v`, followed by a byte that is
/// no digit or by the end of `s`.
pub open spec fn decimal_at(s: Seq<u8>, pos: int, v: nat) -> bool {
    let end = pos + dec(v).len();
    &&& 0 <= pos
    &&& end <= s.len()
    &&& s.subrange(pos, end) == dec(v)
    &&& (end == s.len() || !is_digit(s[end]))
}

/// Decimal text is made of digits, is never empty, and starts with `0` only
/// when it is `0` itself.
pub proof fn lemma_dec_shape(n: nat)
    ensures
        dec(n).len() >= 1,
        forall|i: int| 0 <= i < dec(n).len() ==> #[trigger] is_digit(dec(n)[i]),
        dec(n).len() > 1 ==> dec(n)[0] != 48,
    decreases n,
{
    if n >= 10 {
        lemma_dec_shape(n / 10);
        assert forall|i: int| 0 <= i < dec(n).len() implies #[trigger] is_digit(dec(n)[i]) by {
            if i < dec(n / 10).len() {
                assert(dec(n)[i] == dec(n / 10)[i]);
            }
        }
        if dec(n / 10).len() == 1 {
            assert(n / 10 < 10) by {
                if n / 10 >= 10 {
                    lemma_dec_shape(n / 100);
                }
            }
            assert(dec(n / 10) == seq![(48 + n / 10) as u8]);
            assert(n / 10 != 0);
        }
        assert(dec(n)[0] == dec(n / 10)[0]);
    }
}

/// Reading the decimal text of `n` gives back `n`.
pub proof fn lemma_dec_value(n: nat)
    ensures
        digits_value(dec(n)) == n,
    decreases n,
{
    if n < 10 {
        assert(dec(n).drop_last() =~= Seq::<u8>::empty());
        assert(digits_value(Seq::<u8>::empty()) == 0);
    } else {
        lemma_dec_value(n / 10);
        assert(dec(n).drop_last() =~= dec(n / 10));
        assert(dec(n).last() == (48 + n % 10) as u8);
        assert(n == (n / 10) * 10 + n % 10);
    }
}

/// A prefix of a run of digits denotes no more than the whole run.
pub proof fn lemma_prefix_value(s: Seq<u8>, k: int)
    requires
        0 <= k <= s.len(),
    ensures
        digits_value(s.take(k)) <= digits_value(s),
    decreases s.len() - k,
{
    if k < s.len() {
        lemma_prefix_value(s, k + 1);
        assert(s.take(k + 1).drop_last() =~= s.take(k));
    } else {
        assert(s.take(k) =~= s);
    }
}

/// A non-empty run of digits without a leading zero is the decimal text of
/// the number it denotes.
pub proof fn lemma_canonical_run(run: Seq<u8>)
    requires
        run.len() >= 1,
        forall|j: int| 0 <= j < run.len() ==> #[trigger] is_digit(run[j]),
        run.len() > 1 ==> run[0] != 48,
    ensures
        dec(digits_value(run)) == run,
    decreases run.len(),
{
    let prefix = run.drop_last();
    let d: nat = (run.last() - 48) as nat;
    assert(is_digit(run[run.len() - 1]));
    assert(d < 10);
    if run.len() == 1 {
        assert(prefix =~= Seq::<u8>::empty());
        assert(digits_value(Seq::<u8>::empty()) == 0);
        assert(digits_value(run) == d);
        assert(dec(digits_value(run)) =~= run);
    } else {
        assert(prefix[0] == run[0]);
        lemma_canonical_run(prefix);
        let p = digits_value(prefix);
        assert(p != 0) by {
            if p == 0 {
                assert(dec(0) == seq![48u8]);
            }
        }
        let v = p * 10 + d;
        assert(v / 10 == p && v % 10 == d && v >= 10) by (nonlinear_arith)
            requires
                v == p * 10 + d,
                d < 10,
                p >= 1,
        ;
        assert(dec(v) =~= run);
    }
}

/// Appends the decimal text of `n` to `out`.
pub fn push_decimal(out: &mut Vec<u8>, n: usize)
    ensures
        final(out)@ == old(out)@ + dec(n as nat),
    decreases n,
{
    if n >= 10 {
        push_decimal(out, n / 10);
    }
    let d: u8 = (n % 10) as u8;
    out.push(48u8 + d);
    proof {
        assert(final(out)@ =~= old(out)@ + dec(n as nat));
    }
}

/// Reads the run of digits that starts at `pos`, as a canonical decimal number
/// (no leading zero) that fits in `usize`, and returns it with the position
/// after the run.
pub fn parse_decimal(s: &Vec<u8>, pos: usize) -> (r: Option<(usize, usize)>)
    ensures
        match r {
            Some((v, end)) => decimal_at(s@, pos as int, v as nat) && end == pos + dec(
                v as nat,
            ).len(),
            None => forall|v: nat| v <= usize::MAX ==> !#[trigger] decimal_at(s@, pos as int, v),
        },
        forall|v: nat|
            v <= usize::MAX && #[trigger] decimal_at(s@, pos as int, v) ==> r == Some(
                (v as usize, (pos + dec(v).len()) as usize),
            ),
{
    let n = s.len();
    if pos > n {
        return None;
    }
    let mut i: usize = pos;
    let mut acc: usize = 0;
    while i < n && 48 <= s[i] && s[i] <= 57
        invariant
            pos <= i <= n,
            n == s@.len(),
            forall|j: int| pos <= j < i ==> is_digit(#[trigger] s@[j]),
            acc as nat == digits_value(s@.subrange(pos as int, i as int)),
            forall|v: nat| #[trigger]
                decimal_at(s@, pos as int, v) ==> i <= pos + dec(v).len(),
        decreases n - i,
    {
        let d: usize = (s[i] - 48) as usize;
        assert(s@.subrange(pos as int, i + 1).drop_last() =~= s@.subrange(pos as int, i as int));
        if acc > (usize::MAX - d) / 10 {
            proof {
                assert forall|v: nat| v <= usize::MAX implies !#[trigger] decimal_at(
                    s@,
                    pos as int,
                    v,
                ) by {
                    if decimal_at(s@, pos as int, v) {
                        let e = pos + dec(v).len();
                        if i + 1 > e {
                            assert(i == e);
                            assert(!is_digit(s@[i as int]));
                        }
                        assert(s@.subrange(pos as int, i + 1) =~= dec(v).take(i + 1 - pos));
                        lemma_prefix_value(dec(v), i + 1 - pos);
                        lemma_dec_value(v);
                        assert(acc * 10 + d > usize::MAX) by (nonlinear_arith)
                            requires
                                acc > (usize::MAX - d) / 10,
                                d <= 9,
                        ;
                    }
                }
            }
            return None;
        }
        acc = acc * 10 + d;
        proof {
            assert forall|v: nat| #[trigger] decimal_at(s@, pos as int, v) implies i + 1 <= pos
                + dec(v).len() by {
                if i == pos + dec(v).len() {
                    assert(!is_digit(s@[i as int]));
                }
            }
        }
        i = i + 1;
    }
    proof {
        assert forall|v: nat| #[trigger] decimal_at(s@, pos as int, v) implies i == pos + dec(
            v,
        ).len() && s@.subrange(pos as int, i as int) == dec(v) by {
            lemma_dec_shape(v);
            let e = pos + dec(v).len();
            if i < e {
                assert(s@.subrange(pos as int, e)[i - pos] == s@[i as int]);
                assert(is_digit(dec(v)[i - pos]));
            }
        }
    }
    if i == pos {
        proof {
            assert forall|v: nat| v <= usize::MAX implies !#[trigger] decimal_at(
                s@,
                pos as int,
                v,
            ) by {
                lemma_dec_shape(v);
            }
        }
        return None;
    }
    if s[pos] == 48 && i > pos + 1 {
        proof {
            assert forall|v: nat| v <= usize::MAX implies !#[trigger] decimal_at(
                s@,
                pos as int,
                v,
            ) by {
                lemma_dec_shape(v);
                if decimal_at(s@, pos as int, v) {
                    assert(dec(v)[0] == s@[pos as int]);
                }
            }
        }
        return None;
    }
    proof {
        let run = s@.subrange(pos as int, i as int);
        assert forall|j: int| 0 <= j < run.len() implies #[trigger] is_digit(run[j]) by {
            assert(run[j] == s@[pos + j]);
        }
        lemma_canonical_run(run);
        assert(s@.subrange(pos as int, pos + dec(acc as nat).len()) == dec(acc as nat));
        assert forall|v: nat| #[trigger] decimal_at(s@, pos as int, v) implies v == acc by {
            lemma_dec_value(v);
        }
    }
    Some((acc, i))
}

} // verus!
