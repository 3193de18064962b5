//! Byte-string utilities shared by the parsers and builders.
//!
//! All text handled by the library is kept as bytes; the surrounding
//! program converts to and from `String` at its edges.

use vstd::prelude::*;

verus! {

/// ASCII whitespace, as the probe outputs and the queue file use it.
pub open spec fn is_space(b: u8) -> bool {
    b == 32 || b == 9 || b == 13 || b == 10
}

/// `s` with its leading whitespace removed.
pub open spec fn trim_front(s: Seq<u8>) -> Seq<u8>
    decreases s.len(),
{
    if s.len() == 0 {
        s
    } else if is_space(s[0]) {
        trim_front(s.drop_first())
    } else {
        s
    }
}

/// `s` with its trailing whitespace removed.
pub open spec fn trim_back(s: Seq<u8>) -> Seq<u8>
    decreases s.len(),
{
    if s.len() == 0 {
        s
    } else if is_space(s.last()) {
        trim_back(s.drop_last())
    } else {
        s
    }
}

/// `s` with whitespace removed from both ends.
pub open spec fn trim(s: Seq<u8>) -> Seq<u8> {
    trim_back(trim_front(s))
}

/// Removes ASCII whitespace from both ends of `s`.
pub fn trim_bytes(s: &[u8]) -> (r: Vec<u8>)
    ensures
        r@ == trim(s@),
{
    let mut lo: usize = 0;
    proof {
        assert(s@.skip(0) =~= s@);
    }
    while lo < s.len() && (s[lo] == 32 || s[lo] == 9 || s[lo] == 13 || s[lo] == 10)
        invariant
            lo <= s@.len(),
            trim_front(s@) == trim_front(s@.skip(lo as int)),
        decreases s@.len() - lo,
    {
        proof {
            assert(s@.skip(lo as int).drop_first() =~= s@.skip(lo + 1));
        }
        lo = lo + 1;
    }
    proof {
        if lo < s@.len() {
            assert(trim_front(s@) =~= s@.skip(lo as int));
        } else {
            assert(s@.skip(lo as int) =~= Seq::<u8>::empty());
            assert(trim_front(s@) =~= s@.skip(lo as int));
        }
    }
    let mut hi: usize = s.len();
    while hi > lo && (s[hi - 1] == 32 || s[hi - 1] == 9 || s[hi - 1] == 13 || s[hi - 1] == 10)
        invariant
            lo <= hi <= s@.len(),
            trim_front(s@) == s@.skip(lo as int),
            trim(s@) == trim_back(s@.subrange(lo as int, hi as int)),
        decreases hi,
    {
        proof {
            assert(s@.subrange(lo as int, hi as int).drop_last() =~= s@.subrange(
                lo as int,
                hi - 1,
            ));
        }
        hi = hi - 1;
    }
    let mut r: Vec<u8> = Vec::new();
    let mut i: usize = lo;
    while i < hi
        invariant
            lo <= i <= hi <= s@.len(),
            r@ == s@.subrange(lo as int, i as int),
        decreases hi - i,
    {
        r.push(s[i]);
        proof {
            assert(s@.subrange(lo as int, i + 1) =~= s@.subrange(lo as int, i as int).push(
                s@[i as int],
            ));
        }
        i = i + 1;
    }
    proof {
        let t = s@.subrange(lo as int, hi as int);
        if hi > lo {
            assert(!is_space(t.last()));
            assert(trim_back(t) =~= t);
        } else {
            assert(t =~= Seq::<u8>::empty());
        }
    }
    r
}

/// One step of `Seq::filter`, which vstd keeps opaque.
pub proof fn lemma_filter_push<A>(s: Seq<A>, x: A, pred: spec_fn(A) -> bool)
    ensures
        s.push(x).filter(pred) == if pred(x) {
            s.filter(pred).push(x)
        } else {
            s.filter(pred)
        },
{
    reveal(Seq::filter);
    assert(s.push(x).drop_last() =~= s);
}

/// `Seq::filter` on the empty sequence.
pub proof fn lemma_filter_empty<A>(pred: spec_fn(A) -> bool)
    ensures
        Seq::<A>::empty().filter(pred) == Seq::<A>::empty(),
{
    reveal(Seq::filter);
}

/// `Seq::filter` on a one-element sequence.
pub proof fn lemma_filter_one<A>(x: A, pred: spec_fn(A) -> bool)
    ensures
        seq![x].filter(pred) == if pred(x) {
            seq![x]
        } else {
            Seq::<A>::empty()
        },
{
    reveal(Seq::filter);
    assert(seq![x].drop_last() =~= Seq::<A>::empty());
    lemma_filter_empty(pred);
    if pred(x) {
        assert(seq![x].filter(pred) =~= seq![x]);
    }
}

/// The views of a sequence of byte vectors.
pub open spec fn views(vs: Seq<Vec<u8>>) -> Seq<Seq<u8>> {
    vs.map_values(|v: Vec<u8>| v@)
}

/// Index of the first occurrence of `b` in `s`, or `s.len()` if `b` is absent.
pub open spec fn find(s: Seq<u8>, b: u8) -> nat
    decreases s.len(),
{
    if s.len() == 0 {
        0
    } else if s[0] == b {
        0
    } else {
        1 + find(s.drop_first(), b)
    }
}

/// `find` agrees with a scan that saw no `b` before `k`.
pub proof fn lemma_find_at(s: Seq<u8>, b: u8, k: int)
    requires
        0 <= k <= s.len(),
        forall|i: int| 0 <= i < k ==> s[i] != b,
        k < s.len() ==> s[k] == b,
    ensures
        find(s, b) == k,
    decreases s.len(),
{
    if s.len() > 0 && s[0] != b {
        assert(forall|i: int| 0 <= i < k - 1 ==> s.drop_first()[i] == s[i + 1]);
        lemma_find_at(s.drop_first(), b, k - 1);
    }
}

/// `s` with one trailing carriage return removed, as a line read from text.
pub open spec fn strip_cr(s: Seq<u8>) -> Seq<u8> {
    if s.len() > 0 && s.last() == 13 {
        s.drop_last()
    } else {
        s
    }
}

/// The lines of `s`: split on newline, each line with a trailing carriage
/// return removed; a final newline closes the last line instead of opening
/// an empty one.
pub open spec fn lines(s: Seq<u8>) -> Seq<Seq<u8>>
    decreases s.len(),
{
    if s.len() == 0 {
        Seq::empty()
    } else {
        let i = find(s, 10) as int;
        if i >= s.len() {
            seq![strip_cr(s)]
        } else {
            seq![strip_cr(s.take(i))] + lines(s.skip(i + 1))
        }
    }
}

/// The fields of `s` split on `sep`: separators delimit fields, so empty
/// fields are kept and the empty input is one empty field.
pub open spec fn split_on(s: Seq<u8>, sep: u8) -> Seq<Seq<u8>>
    decreases s.len(),
{
    let i = find(s, sep) as int;
    if i >= s.len() {
        seq![s]
    } else {
        seq![s.take(i)] + split_on(s.skip(i + 1), sep)
    }
}

/// Splits `s` on `sep`, keeping empty fields.
pub fn split_bytes(s: &[u8], sep: u8) -> (parts: Vec<Vec<u8>>)
    ensures
        views(parts@) == split_on(s@, sep),
{
    let mut out: Vec<Vec<u8>> = Vec::new();
    let mut pos: usize = 0;
    let mut done = false;
    proof {
        assert(s@.skip(0) =~= s@);
        assert(views(out@) + split_on(s@, sep) =~= split_on(s@, sep));
    }
    while !done
        invariant
            pos <= s@.len(),
            !done ==> split_on(s@, sep) == views(out@) + split_on(s@.skip(pos as int), sep),
            done ==> views(out@) == split_on(s@, sep),
        decreases s@.len() - pos + (if done {
            0int
        } else {
            1int
        }),
    {
        let mut j: usize = pos;
        while j < s.len() && s[j] != sep
            invariant
                pos <= j <= s@.len(),
                forall|t: int| pos <= t < j ==> s@[t] != sep,
            decreases s@.len() - j,
        {
            j = j + 1;
        }
        let mut field: Vec<u8> = Vec::new();
        let mut t = pos;
        while t < j
            invariant
                pos <= t <= j <= s@.len(),
                field@ == s@.subrange(pos as int, t as int),
            decreases j - t,
        {
            field.push(s[t]);
            proof {
                assert(s@.subrange(pos as int, t + 1) =~= s@.subrange(pos as int, t as int).push(
                    s@[t as int],
                ));
            }
            t = t + 1;
        }
        proof {
            let suf = s@.skip(pos as int);
            assert forall|u: int| 0 <= u < j - pos implies suf[u] != sep by {
                assert(suf[u] == s@[pos + u]);
            }
            if j < s@.len() {
                assert(suf[j - pos] == s@[j as int]);
            }
            lemma_find_at(suf, sep, j - pos);
            assert(suf.take(j - pos) =~= s@.subrange(pos as int, j as int));
            if j < s@.len() {
                assert(split_on(suf, sep) == seq![field@] + split_on(suf.skip(j - pos + 1), sep));
                assert(suf.skip(j - pos + 1) =~= s@.skip(j + 1));
                assert(views(out@.push(field)) =~= views(out@).push(field@));
                assert(views(out@.push(field)) + split_on(s@.skip(j + 1), sep) =~= views(out@)
                    + split_on(suf, sep));
            } else {
                assert(suf =~= s@.subrange(pos as int, j as int));
                assert(split_on(suf, sep) == seq![field@]);
                assert(views(out@.push(field)) =~= views(out@) + seq![field@]);
            }
        }
        out.push(field);
        if j < s.len() {
            pos = j + 1;
        } else {
            done = true;
        }
    }
    out
}

/// Does `s` begin with `p`?
pub open spec fn starts_with(s: Seq<u8>, p: Seq<u8>) -> bool {
    p.len() <= s.len() && s.take(p.len() as int) == p
}

/// Does `s` begin with `p`?
pub fn starts_with_bytes(s: &[u8], p: &[u8]) -> (r: bool)
    ensures
        r == starts_with(s@, p@),
{
    if p.len() > s.len() {
        return false;
    }
    let mut i: usize = 0;
    while i < p.len()
        invariant
            i <= p@.len() <= s@.len(),
            forall|j: int| 0 <= j < i ==> s@[j] == p@[j],
        decreases p@.len() - i,
    {
        if s[i] != p[i] {
            assert(s@.take(p@.len() as int)[i as int] != p@[i as int]);
            return false;
        }
        i = i + 1;
    }
    proof {
        assert(s@.take(p@.len() as int) =~= p@);
    }
    true
}

/// Are two byte strings equal?
pub fn bytes_eq(a: &[u8], b: &[u8]) -> (r: bool)
    ensures
        r == (a@ == b@),
{
    if a.len() != b.len() {
        return false;
    }
    let mut i: usize = 0;
    while i < a.len()
        invariant
            a@.len() == b@.len(),
            i <= a@.len(),
            forall|j: int| 0 <= j < i ==> a@[j] == b@[j],
        decreases a@.len() - i,
    {
        if a[i] != b[i] {
            return false;
        }
        i = i + 1;
    }
    proof {
        assert(a@ =~= b@);
    }
    true
}

/// Does `s` hold `n` as a contiguous run?
pub open spec fn contains_seq(s: Seq<u8>, n: Seq<u8>) -> bool {
    exists|i: int| 0 <= i && i + n.len() <= s.len() && #[trigger] s.subrange(i, i + n.len()) == n
}

/// Does `s` hold `n` as a contiguous run?
pub fn contains_bytes(s: &[u8], n: &[u8]) -> (r: bool)
    ensures
        r == contains_seq(s@, n@),
{
    if n.len() > s.len() {
        assert(!contains_seq(s@, n@));
        return false;
    }
    if n.len() == 0 {
        proof {
            assert(s@.subrange(0, 0 + n@.len() as int) =~= n@);
        }
        return true;
    }
    let bound = s.len() - n.len();
    let mut i: usize = 0;
    while i <= bound
        invariant
            1 <= n@.len() <= s@.len(),
            s@.len() <= usize::MAX,
            bound == s@.len() - n@.len(),
            i <= bound + 1,
            forall|j: int| 0 <= j < i ==> #[trigger] s@.subrange(j, j + n@.len()) != n@,
        decreases bound + 1 - i,
    {
        let ghost w = s@.subrange(i as int, i + n@.len());
        let mut k: usize = 0;
        let mut hit = true;
        while k < n.len()
            invariant
                i + n@.len() <= s@.len(),
                s@.len() <= usize::MAX,
                k <= n@.len(),
                w == s@.subrange(i as int, i + n@.len()),
                hit ==> forall|j: int| 0 <= j < k ==> #[trigger] w[j] == n@[j],
                !hit ==> w != n@,
            decreases n@.len() - k,
        {
            if s[i + k] != n[k] {
                proof {
                    assert(w[k as int] == s@[i + k]);
                }
                hit = false;
                k = n.len();
            } else {
                proof {
                    assert(w[k as int] == s@[i + k]);
                }
                k = k + 1;
            }
        }
        if hit {
            proof {
                assert(w =~= n@);
            }
            return true;
        }
        i = i + 1;
    }
    proof {
        assert forall|j: int| 0 <= j && j + n@.len() <= s@.len() implies #[trigger] s@.subrange(
            j,
            j + n@.len(),
        ) != n@ by {
            assert(j < i);
        }
    }
    false
}

/// Where the whitespace-free run starting at `from` ends.
pub open spec fn token_end(s: Seq<u8>, from: nat) -> nat
    decreases s.len() - from when from <= s.len()
{
    if from >= s.len() {
        from
    } else if is_space(s[from as int]) {
        from
    } else {
        token_end(s, from + 1)
    }
}

pub proof fn lemma_token_end(s: Seq<u8>, from: nat)
    requires
        from <= s.len(),
    ensures
        from <= token_end(s, from) <= s.len(),
        forall|i: int| from <= i < token_end(s, from) ==> !is_space(s[i]),
        token_end(s, from) < s.len() ==> is_space(s[token_end(s, from) as int]),
        from < s.len() && !is_space(s[from as int]) ==> token_end(s, from) > from,
    decreases s.len() - from,
{
    if from < s.len() && !is_space(s[from as int]) {
        lemma_token_end(s, from + 1);
    }
}

/// `token_end` agrees with a scan that saw no whitespace before `k`.
pub proof fn lemma_token_end_at(s: Seq<u8>, from: nat, k: nat)
    requires
        from <= k <= s.len(),
        forall|i: int| from <= i < k ==> !is_space(s[i]),
        k < s.len() ==> is_space(s[k as int]),
    ensures
        token_end(s, from) == k,
    decreases k - from,
{
    if from < k {
        lemma_token_end_at(s, from + 1, k);
    }
}

/// The whitespace-separated tokens of `s` at or after `from`.
pub open spec fn tokens_from(s: Seq<u8>, from: nat) -> Seq<Seq<u8>>
    decreases s.len() - from
    via tokens_from_dec
{
    if from >= s.len() {
        Seq::empty()
    } else if is_space(s[from as int]) {
        tokens_from(s, from + 1)
    } else {
        seq![s.subrange(from as int, token_end(s, from) as int)] + tokens_from(
            s,
            token_end(s, from),
        )
    }
}

#[via_fn]
proof fn tokens_from_dec(s: Seq<u8>, from: nat) {
    if from < s.len() && !is_space(s[from as int]) {
        lemma_token_end(s, from);
    }
}

/// The whitespace-separated tokens of `s`.
pub open spec fn tokens(s: Seq<u8>) -> Seq<Seq<u8>> {
    tokens_from(s, 0)
}

/// Copies the bytes of `v` from `from` on.
pub fn bytes_suffix(v: &[u8], from: usize) -> (r: Vec<u8>)
    requires
        from <= v@.len(),
    ensures
        r@ == v@.skip(from as int),
{
    let mut r: Vec<u8> = Vec::new();
    let mut i = from;
    while i < v.len()
        invariant
            from <= i <= v@.len(),
            r@ == v@.subrange(from as int, i as int),
        decreases v@.len() - i,
    {
        r.push(v[i]);
        proof {
            assert(v@.subrange(from as int, i + 1) =~= v@.subrange(from as int, i as int).push(
                v@[i as int],
            ));
        }
        i = i + 1;
    }
    proof {
        assert(v@.subrange(from as int, v@.len() as int) =~= v@.skip(from as int));
    }
    r
}

/// A decimal digit.
pub open spec fn is_digit(b: u8) -> bool {
    48 <= b <= 57
}

/// Every byte of `s` is a decimal digit.
pub open spec fn all_digits(s: Seq<u8>) -> bool {
    forall|i: int| 0 <= i < s.len() ==> is_digit(#[trigger] s[i])
}

/// The value of `s` read as a decimal numeral.
pub open spec fn dec_val(s: Seq<u8>) -> int
    decreases s.len(),
{
    if s.len() == 0 {
        0
    } else {
        dec_val(s.drop_last()) * 10 + (s.last() - 48)
    }
}

/// Extending a digit string to the right never shrinks its value.
pub proof fn lemma_dec_val_prefix(s: Seq<u8>, i: int)
    requires
        all_digits(s),
        0 <= i <= s.len(),
    ensures
        0 <= dec_val(s.take(i)) <= dec_val(s),
    decreases s.len() - i,
{
    if i == s.len() {
        assert(s.take(i) =~= s);
        lemma_dec_val_nonneg(s);
    } else {
        lemma_dec_val_prefix(s, i + 1);
        assert(s.take(i + 1).drop_last() =~= s.take(i));
        assert(dec_val(s.take(i + 1)) == dec_val(s.take(i)) * 10 + (s[i] - 48));
        lemma_dec_val_nonneg(s.take(i));
    }
}

pub proof fn lemma_dec_val_nonneg(s: Seq<u8>)
    requires
        all_digits(s),
    ensures
        dec_val(s) >= 0,
    decreases s.len(),
{
    if s.len() > 0 {
        assert(all_digits(s.drop_last()));
        lemma_dec_val_nonneg(s.drop_last());
    }
}

/// Reads `s` as a decimal numeral.  Returns the value exactly when `s` is a
/// nonempty digit string whose value fits in a `u64`.
pub fn parse_u64(s: &[u8]) -> (r: Option<u64>)
    ensures
        r is Some <==> s@.len() > 0 && all_digits(s@) && dec_val(s@) <= u64::MAX,
        r is Some ==> r->0 == dec_val(s@),
{
    if s.len() == 0 {
        return None;
    }
    let mut val: u64 = 0;
    let mut i: usize = 0;
    while i < s.len()
        invariant
            0 < s@.len(),
            i <= s@.len(),
            all_digits(s@.take(i as int)),
            val == dec_val(s@.take(i as int)),
        decreases s@.len() - i,
    {
        let b = s[i];
        if b < 48 || b > 57 {
            assert(!all_digits(s@));
            return None;
        }
        let d = b - 48;
        if val > (u64::MAX - d as u64) / 10 {
            proof {
                assert(s@.take(i + 1).drop_last() =~= s@.take(i as int));
                assert(s@.take(i + 1).last() == b);
                assert(all_digits(s@.take(i + 1)));
                assert(dec_val(s@.take(i + 1)) == val * 10 + d) by {
                    assert(dec_val(s@.take(i + 1)) == dec_val(s@.take(i as int)) * 10 + (b - 48));
                }
                assert(val * 10 + d > u64::MAX) by {
                    assert(val >= (u64::MAX - d as u64) / 10 + 1);
                    assert(((u64::MAX - d as u64) / 10 + 1) * 10 + d > u64::MAX) by (nonlinear_arith)
                        requires
                            0 <= d <= 9,
                    ;
                    assert(val * 10 >= ((u64::MAX - d as u64) / 10 + 1) * 10) by (nonlinear_arith)
                        requires
                            val >= (u64::MAX - d as u64) / 10 + 1,
                    ;
                }
                if all_digits(s@) {
                    lemma_dec_val_prefix(s@, i + 1);
                }
            }
            return None;
        }
        proof {
            assert(val * 10 + d <= u64::MAX) by {
                assert(val <= (u64::MAX - d as u64) / 10);
                assert(val * 10 <= ((u64::MAX - d as u64) / 10) * 10) by (nonlinear_arith)
                    requires
                        val <= (u64::MAX - d as u64) / 10,
                ;
                assert(((u64::MAX - d as u64) / 10) * 10 + d <= u64::MAX) by (nonlinear_arith)
                    requires
                        0 <= d <= 9,
                ;
            }
            assert(s@.take(i + 1).drop_last() =~= s@.take(i as int));
        }
        val = val * 10 + d as u64;
        i = i + 1;
    }
    proof {
        assert(s@.take(i as int) =~= s@);
    }
    Some(val)
}

/// The decimal numeral of `n`, most significant digit first.
pub open spec fn dec_repr(n: nat) -> Seq<u8>
    decreases n,
{
    if n < 10 {
        seq![(48 + n) as u8]
    } else {
        dec_repr(n / 10).push((48 + n % 10) as u8)
    }
}

/// Writes `n` as a decimal numeral.
pub fn u64_to_dec(n: u64) -> (r: Vec<u8>)
    ensures
        r@ == dec_repr(n as nat),
    decreases n,
{
    if n < 10 {
        let mut r: Vec<u8> = Vec::new();
        r.push(48 + n as u8);
        proof {
            assert(r@ =~= dec_repr(n as nat));
        }
        r
    } else {
        let mut r = u64_to_dec(n / 10);
        r.push(48 + (n % 10) as u8);
        r
    }
}

} // verus!
