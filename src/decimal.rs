use vstd::prelude::*;

verus! {

/// An ASCII decimal digit.
pub open spec fn is_digit(b: u8) -> bool {
    48 <= b <= 57
}

/// The canonical decimal text of `n`: no sign, no leading zero.
pub open spec fn dec(n: nat) -> Seq<u8>
    decreases n,
{
    if n < 10 {
        seq![(48 + n) as u8]
    } else {
        dec(n / 10).push((48 + n % 10) as u8)
    }
}

/// The number that a run of digits denotes.
pub open spec fn value(d: Seq<u8>) -> nat
    decreases d.len(),
{
    if d.len() == 0 {
        0
    } else {
        value(d.drop_last()) * 10 + (d.last() as int - 48) as nat
    }
}

pub open spec fn all_digits(d: Seq<u8>) -> bool {
    forall|k: int| 0 <= k < d.len() ==> is_digit(#[trigger] d[k])
}

/// A non-empty run of digits without a leading zero, or a single zero.
pub open spec fn canonical(d: Seq<u8>) -> bool {
    d.len() >= 1 && all_digits(d) && (d.len() == 1 || d[0] != 48)
}

/// The decimal text of `n` stands in `b` at `i`, and no further digit follows it.
pub open spec fn dec_at(b: Seq<u8>, i: int, n: nat) -> bool {
    &&& 0 <= i
    &&& i + dec(n).len() <= b.len()
    &&& b.subrange(i, i + dec(n).len()) == dec(n)
    &&& (i + dec(n).len() == b.len() || !is_digit(b[i + dec(n).len()]))
}

proof fn lemma_value_positive(d: Seq<u8>)
    requires
        d.len() >= 1,
        all_digits(d),
        d[0] != 48,
    ensures
        value(d) >= 1,
    decreases d.len(),
{
    if d.len() > 1 {
        let p = d.drop_last();
        assert(p[0] == d[0]);
        assert(all_digits(p)) by {
            assert forall|k: int| 0 <= k < p.len() implies is_digit(#[trigger] p[k]) by {
                assert(p[k] == d[k]);
            }
        }
        lemma_value_positive(p);
    } else {
        assert(d.drop_last().len() == 0);
    }
}

/// Canonical digits are the decimal text of the number they denote.
pub proof fn lemma_canonical_dec(d: Seq<u8>)
    requires
        canonical(d),
    ensures
        dec(value(d)) == d,
    decreases d.len(),
{
    let v = value(d);
    let k = (d.last() as int - 48) as nat;
    assert(is_digit(d[d.len() - 1]));
    if d.len() == 1 {
        assert(d.drop_last().len() == 0);
        assert(dec(v) =~= d);
    } else {
        let p = d.drop_last();
        assert(p[0] == d[0]);
        assert(all_digits(p)) by {
            assert forall|j: int| 0 <= j < p.len() implies is_digit(#[trigger] p[j]) by {
                assert(p[j] == d[j]);
            }
        }
        lemma_value_positive(p);
        lemma_canonical_dec(p);
        let w = value(p);
        assert(v == w * 10 + k);
        assert(v / 10 == w && v % 10 == k) by (nonlinear_arith)
            requires
                v == w * 10 + k,
                k < 10,
        ;
        assert(d == p.push(d.last()));
    }
}

/// The decimal text of `n` is canonical and denotes `n`.
pub proof fn lemma_dec_canonical(n: nat)
    ensures
        canonical(dec(n)),
        value(dec(n)) == n,
        n >= 1 ==> dec(n)[0] != 48,
    decreases n,
{
    if n >= 10 {
        let q = n / 10;
        let r = n % 10;
        lemma_dec_canonical(q);
        let d = dec(n);
        assert(d.drop_last() == dec(q));
        assert(d[0] == dec(q)[0]);
        assert(all_digits(d)) by {
            assert forall|k: int| 0 <= k < d.len() implies is_digit(#[trigger] d[k]) by {
                if k < d.len() - 1 {
                    assert(d[k] == dec(q)[k]);
                }
            }
        }
        assert(d.last() == (48 + r) as u8);
        assert(value(d) == value(d.drop_last()) * 10 + r);
        assert(value(d) == value(dec(q)) * 10 + r);
        assert(n == q * 10 + r);
    } else {
        let d = dec(n);
        assert(d.drop_last().len() == 0);
        assert(value(d.drop_last()) == 0);
        assert(d.last() == (48 + n) as u8);
        assert(value(d) == value(d.drop_last()) * 10 + n);
    }
}

proof fn lemma_value_prefix(d: Seq<u8>, k: int)
    requires
        all_digits(d),
        0 <= k <= d.len(),
    ensures
        value(d.take(k)) <= value(d),
    decreases d.len(),
{
    if k < d.len() {
        let p = d.drop_last();
        assert(all_digits(p)) by {
            assert forall|j: int| 0 <= j < p.len() implies is_digit(#[trigger] p[j]) by {
                assert(p[j] == d[j]);
            }
        }
        lemma_value_prefix(p, k);
        assert(p.take(k) == d.take(k));
        assert(is_digit(d[d.len() - 1]));
    } else {
        assert(d.take(k) == d);
    }
}

/// Appends the decimal text of `n`.
pub fn push_dec(out: &mut Vec<u8>, n: u64)
    ensures
        final(out)@ == old(out)@ + dec(n as nat),
    decreases n,
{
    if n >= 10 {
        push_dec(out, n / 10);
    }
    let digit: u8 = (n % 10) as u8;
    out.push(48u8 + digit);
    assert(out@ =~= old(out)@ + dec(n as nat));
}

/// Reads a canonical decimal number at `i`: the longest run of digits there
/// must be canonical and fit in a `u64`. Returns the number and the position
/// after it.
pub fn parse_dec(b: &[u8], i: usize) -> (r: Option<(u64, usize)>)
    requires
        i <= b@.len(),
    ensures
        r matches Some((v, j)) ==> i < j <= b@.len() && dec_at(b@, i as int, v as nat) && j == i
            + dec(v as nat).len(),
        forall|n: u64| #[trigger] dec_at(b@, i as int, n as nat) ==> r == Some((n, (i + dec(n as nat).len()) as usize)),
{
    let mut j: usize = i;
    while j < b.len() && 48 <= b[j] && b[j] <= 57
        invariant
            i <= j <= b@.len(),
            all_digits(b@.subrange(i as int, j as int)),
        decreases b@.len() - j,
    {
        assert(b@.subrange(i as int, j + 1) == b@.subrange(i as int, j as int).push(b@[j as int]));
        j = j + 1;
    }
    let ghost d = b@.subrange(i as int, j as int);
    assert forall|n: u64| #[trigger] dec_at(b@, i as int, n as nat) implies d == dec(n as nat) by {
        lemma_dec_canonical(n as nat);
        let e = i + dec(n as nat).len();
        if e < j {
            assert(b@[e] == d[e - i]);
        }
        if e > j {
            assert(b@[j as int] == dec(n as nat)[j - i]);
        }
        assert(d =~= dec(n as nat));
    }
    if j == i {
        assert forall|n: u64| !dec_at(b@, i as int, n as nat) by {
            lemma_dec_canonical(n as nat);
        }
        return None;
    }
    if j - i > 1 && b[i] == 48 {
        assert(d[0] == b@[i as int]);
        assert forall|n: u64| !dec_at(b@, i as int, n as nat) by {
            lemma_dec_canonical(n as nat);
        }
        return None;
    }
    let mut v: u64 = 0;
    let mut k: usize = i;
    while k < j
        invariant
            i <= k <= j <= b@.len(),
            d == b@.subrange(i as int, j as int),
            all_digits(d),
            v as nat == value(d.take(k - i)),
            forall|n: u64| #[trigger] dec_at(b@, i as int, n as nat) ==> d == dec(n as nat),
        decreases j - k,
    {
        assert(d[k - i] == b@[k as int]);
        assert(is_digit(d[k - i]));
        let digit: u8 = b[k] - 48;
        let nv: u128 = v as u128 * 10 + digit as u128;
        assert(d.take(k + 1 - i).drop_last() == d.take(k - i));
        assert(nv == value(d.take(k + 1 - i)));
        if nv > u64::MAX as u128 {
            assert forall|n: u64| !dec_at(b@, i as int, n as nat) by {
                if dec_at(b@, i as int, n as nat) {
                    lemma_dec_canonical(n as nat);
                    lemma_value_prefix(d, k + 1 - i);
                    assert(d == dec(n as nat));
                    assert(value(d) == n);
                    assert(value(d.take(k + 1 - i)) <= n);
                    assert(nv <= u64::MAX);
                }
            }
            return None;
        }
        v = nv as u64;
        k = k + 1;
    }
    assert(d.take(j - i) == d);
    assert(canonical(d));
    proof {
        lemma_canonical_dec(d);
    }
    assert(dec_at(b@, i as int, v as nat));
    assert forall|n: u64| #[trigger] dec_at(b@, i as int, n as nat) implies v == n && j == i + dec(
        n as nat,
    ).len() by {
        lemma_dec_canonical(n as nat);
    }
    Some((v, j))
}

} // verus!
