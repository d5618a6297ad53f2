//! Searching, splitting and number conversion on byte sequences.

use vstd::prelude::*;

verus! {

/// Whether `pat` stands in `s` at position `i`.
pub open spec fn occurs_at(s: Seq<u8>, pat: Seq<u8>, i: int) -> bool {
    0 <= i && i + pat.len() <= s.len() && s.subrange(i, i + pat.len()) == pat
}

/// The first position at which `pat` stands in `s`, or `s.len()` if it stands
/// nowhere.
pub open spec fn find(s: Seq<u8>, pat: Seq<u8>) -> int
    decreases s.len(),
{
    if s.len() < pat.len() || s.len() == 0 {
        s.len() as int
    } else if occurs_at(s, pat, 0) {
        0
    } else {
        1 + find(s.skip(1), pat)
    }
}

/// `find` is the least position of an occurrence, and the length when there
/// is none.
pub proof fn lemma_find(s: Seq<u8>, pat: Seq<u8>, k: int)
    requires
        pat.len() > 0,
        0 <= k <= s.len(),
        forall|j: int| 0 <= j < k ==> !occurs_at(s, pat, j),
        occurs_at(s, pat, k) || k == s.len(),
    ensures
        find(s, pat) == k,
    decreases k,
{
    if s.len() < pat.len() || s.len() == 0 {
        if k < s.len() {
            assert(occurs_at(s, pat, k));
        }
    } else if k > 0 {
        let t = s.skip(1);
        assert(!occurs_at(s, pat, 0));
        assert forall|j: int| 0 <= j < k - 1 implies !occurs_at(t, pat, j) by {
            if occurs_at(t, pat, j) {
                assert(s.subrange(j + 1, j + 1 + pat.len()) =~= t.subrange(j, j + pat.len()));
                assert(occurs_at(s, pat, j + 1));
            }
        }
        if k < s.len() {
            assert(t.subrange(k - 1, k - 1 + pat.len()) =~= s.subrange(k, k + pat.len()));
        }
        lemma_find(t, pat, k - 1);
    }
}

/// `find` stays within the sequence; where it is short of the length there
/// is an occurrence, and there is none before it.
pub proof fn lemma_find_bounds(s: Seq<u8>, pat: Seq<u8>)
    requires
        pat.len() > 0,
    ensures
        0 <= find(s, pat) <= s.len(),
        find(s, pat) < s.len() ==> occurs_at(s, pat, find(s, pat)),
        forall|j: int| 0 <= j < find(s, pat) ==> !occurs_at(s, pat, j),
    decreases s.len(),
{
    if s.len() < pat.len() || s.len() == 0 {
    } else if occurs_at(s, pat, 0) {
    } else {
        let t = s.skip(1);
        lemma_find_bounds(t, pat);
        let k = find(t, pat);
        if k < t.len() {
            assert(s.subrange(k + 1, k + 1 + pat.len()) =~= t.subrange(k, k + pat.len()));
        }
        assert forall|j: int| 0 <= j < k + 1 implies !occurs_at(s, pat, j) by {
            if j > 0 && occurs_at(s, pat, j) {
                assert(t.subrange(j - 1, j - 1 + pat.len()) =~= s.subrange(j, j + pat.len()));
                assert(occurs_at(t, pat, j - 1));
            }
        }
    }
}

/// The pieces of `s` between the occurrences of `pat`, taken from the left.
/// There is always at least one piece.
pub open spec fn split(s: Seq<u8>, pat: Seq<u8>) -> Seq<Seq<u8>>
    decreases s.len(),
{
    let k = find(s, pat);
    if pat.len() == 0 || k < 0 || k + pat.len() > s.len() {
        seq![s]
    } else {
        seq![s.take(k)] + split(s.skip(k + pat.len()), pat)
    }
}

/// The byte sequences held by a vector of byte vectors.
pub open spec fn byte_views(v: Seq<Vec<u8>>) -> Seq<Seq<u8>> {
    Seq::new(v.len(), |i: int| v[i]@)
}

/// Whether `pat` stands in `s` at position `i`.
pub fn matches_at(s: &[u8], pat: &[u8], i: usize) -> (r: bool)
    requires
        i <= s.len(),
    ensures
        r == occurs_at(s@, pat@, i as int),
{
    if pat.len() > s.len() - i {
        return false;
    }
    let mut j: usize = 0;
    while j < pat.len()
        invariant
            j <= pat.len(),
            i + pat.len() <= s.len(),
            forall|a: int| 0 <= a < j ==> s@[i + a] == pat@[a],
        decreases pat.len() - j,
    {
        if s[i + j] != pat[j] {
            proof {
                if s@.subrange(i as int, i + pat.len()) == pat@ {
                    assert(s@.subrange(i as int, i + pat.len())[j as int] == pat@[j as int]);
                }
            }
            return false;
        }
        j = j + 1;
    }
    assert(s@.subrange(i as int, i + pat.len()) =~= pat@);
    true
}

/// The first position at or after `from` at which `pat` stands in `s`, or
/// `s.len()` if there is none.
pub fn find_from(s: &[u8], from: usize, pat: &[u8]) -> (k: usize)
    requires
        from <= s.len(),
        pat.len() > 0,
    ensures
        from <= k <= s.len(),
        k == from + find(s@.skip(from as int), pat@),
{
    let ghost t = s@.skip(from as int);
    let mut k: usize = from;
    while k < s.len() && !matches_at(s, pat, k)
        invariant
            from <= k <= s.len(),
            t == s@.skip(from as int),
            forall|j: int| 0 <= j < k - from ==> !occurs_at(t, pat@, j),
        decreases s.len() - k,
    {
        proof {
            if occurs_at(t, pat@, k - from) {
                assert(t.subrange(k - from, k - from + pat.len()) =~= s@.subrange(
                    k as int,
                    k + pat.len(),
                ));
            }
        }
        k = k + 1;
    }
    proof {
        if k < s.len() {
            assert(t.subrange(k - from, k - from + pat.len()) =~= s@.subrange(
                k as int,
                k + pat.len(),
            ));
        }
        lemma_find(t, pat@, k - from);
    }
    k
}

/// A copy of `s[from..to]`.
pub fn copy_range(s: &[u8], from: usize, to: usize) -> (r: Vec<u8>)
    requires
        from <= to <= s.len(),
    ensures
        r@ == s@.subrange(from as int, to as int),
{
    let mut r: Vec<u8> = Vec::new();
    let mut i: usize = from;
    while i < to
        invariant
            from <= i <= to <= s.len(),
            r@ == s@.subrange(from as int, i as int),
        decreases to - i,
    {
        r.push(s[i]);
        i = i + 1;
    }
    r
}

/// Splits `s` at the occurrences of `pat`.
pub fn split_on(s: &[u8], pat: &[u8]) -> (r: Vec<Vec<u8>>)
    requires
        pat.len() > 0,
    ensures
        byte_views(r@) == split(s@, pat@),
        r@.len() > 0,
{
    let mut r: Vec<Vec<u8>> = Vec::new();
    let n: usize = s.len();
    let mut start: usize = 0;
    let mut done = false;
    proof {
        assert(s@.skip(0) =~= s@);
        assert(byte_views(r@) + split(s@, pat@) =~= split(s@, pat@));
    }
    while !done
        invariant
            start <= n,
            n == s.len(),
            pat.len() > 0,
            !done ==> split(s@, pat@) == byte_views(r@) + split(s@.skip(start as int), pat@),
            done ==> split(s@, pat@) == byte_views(r@) && r@.len() > 0,
        decreases n - start + (if done { 0int } else { 1int }),
    {
        let ghost rest = s@.skip(start as int);
        let ghost before = byte_views(r@);
        let k: usize = find_from(s, start, pat);
        proof {
            lemma_find_bounds(rest, pat@);
        }
        if k == n {
            let piece = copy_range(s, start, n);
            proof {
                assert(piece@ =~= rest);
                assert(split(rest, pat@) =~= seq![rest]);
            }
            r.push(piece);
            proof {
                assert(byte_views(r@) =~= before + seq![rest]);
            }
            done = true;
        } else {
            let piece = copy_range(s, start, k);
            proof {
                assert(piece@ =~= rest.take(k - start));
                assert(rest.skip(k - start + pat.len()) =~= s@.skip(k + pat.len()));
            }
            r.push(piece);
            proof {
                assert(byte_views(r@) =~= before + seq![rest.take(k - start)]);
                assert(before + (seq![rest.take(k - start)] + split(s@.skip(k + pat.len()), pat@))
                    =~= (before + seq![rest.take(k - start)]) + split(
                    s@.skip(k + pat.len()),
                    pat@,
                ));
            }
            start = k + pat.len();
        }
    }
    r
}

/// A space or a horizontal tab.
pub open spec fn is_blank(b: u8) -> bool {
    b == 32 || b == 9
}

/// `s` without the blanks at its start.
pub open spec fn trim_start(s: Seq<u8>) -> Seq<u8>
    decreases s.len(),
{
    if s.len() > 0 && is_blank(s[0]) {
        trim_start(s.skip(1))
    } else {
        s
    }
}

/// `s` without the blanks at its end.
pub open spec fn trim_end(s: Seq<u8>) -> Seq<u8>
    decreases s.len(),
{
    if s.len() > 0 && is_blank(s.last()) {
        trim_end(s.drop_last())
    } else {
        s
    }
}

/// `s` without the blanks at its start and at its end.
pub open spec fn trim(s: Seq<u8>) -> Seq<u8> {
    trim_end(trim_start(s))
}

proof fn lemma_trim_start(s: Seq<u8>, a: int)
    requires
        0 <= a <= s.len(),
        forall|j: int| 0 <= j < a ==> is_blank(s[j]),
        a == s.len() || !is_blank(s[a]),
    ensures
        trim_start(s) == s.skip(a),
    decreases a,
{
    if a == 0 {
        assert(s.skip(0) =~= s);
    } else {
        let t = s.skip(1);
        assert forall|j: int| 0 <= j < a - 1 implies is_blank(t[j]) by {
            assert(t[j] == s[j + 1]);
        }
        lemma_trim_start(t, a - 1);
        assert(t.skip(a - 1) =~= s.skip(a));
    }
}

proof fn lemma_trim_end(s: Seq<u8>, b: int)
    requires
        0 <= b <= s.len(),
        forall|j: int| b <= j < s.len() ==> is_blank(s[j]),
        b == 0 || !is_blank(s[b - 1]),
    ensures
        trim_end(s) == s.take(b),
    decreases s.len() - b,
{
    if b == s.len() {
        assert(s.take(b) =~= s);
    } else {
        let t = s.drop_last();
        lemma_trim_end(t, b);
        assert(t.take(b) =~= s.take(b));
    }
}

fn blank(b: u8) -> (r: bool)
    ensures
        r == is_blank(b),
{
    b == 32 || b == 9
}

/// A copy of `s` without the blanks at its start and at its end.
pub fn trimmed(s: &[u8]) -> (r: Vec<u8>)
    ensures
        r@ == trim(s@),
{
    let n: usize = s.len();
    let mut a: usize = 0;
    while a < n && blank(s[a])
        invariant
            a <= n,
            n == s.len(),
            forall|j: int| 0 <= j < a ==> is_blank(s@[j]),
        decreases n - a,
    {
        a = a + 1;
    }
    let mut b: usize = n;
    while b > a && blank(s[b - 1])
        invariant
            a <= b <= n,
            n == s.len(),
            forall|j: int| b <= j < n ==> is_blank(s@[j]),
        decreases b,
    {
        b = b - 1;
    }
    proof {
        lemma_trim_start(s@, a as int);
        let t = s@.skip(a as int);
        assert forall|j: int| b - a <= j < t.len() implies is_blank(t[j]) by {
            assert(t[j] == s@[j + a]);
        }
        if b > a {
            assert(t[b - a - 1] == s@[b - 1]);
        }
        lemma_trim_end(t, b - a);
        assert(t.take(b - a) =~= s@.subrange(a as int, b as int));
    }
    copy_range(s, a, b)
}

/// The lower-case form of an ASCII letter; any other byte as it is.
pub open spec fn lower(b: u8) -> u8 {
    if 65 <= b && b <= 90 {
        (b + 32) as u8
    } else {
        b
    }
}

/// `s` with its ASCII letters in lower case.
pub open spec fn lowered(s: Seq<u8>) -> Seq<u8> {
    Seq::new(s.len(), |i: int| lower(s[i]))
}

/// A copy of `s` with its ASCII letters in lower case.
pub fn to_lower(s: &[u8]) -> (r: Vec<u8>)
    ensures
        r@ == lowered(s@),
{
    let mut r: Vec<u8> = Vec::new();
    let mut i: usize = 0;
    while i < s.len()
        invariant
            i <= s.len(),
            r@ == lowered(s@).take(i as int),
        decreases s.len() - i,
    {
        let b: u8 = s[i];
        let c: u8 = if 65 <= b && b <= 90 {
            b + 32
        } else {
            b
        };
        r.push(c);
        assert(r@ =~= lowered(s@).take(i + 1));
        i = i + 1;
    }
    assert(lowered(s@).take(s.len() as int) =~= lowered(s@));
    r
}

/// The byte of a decimal digit.
pub open spec fn is_digit_byte(b: u8) -> bool {
    48 <= b && b <= 57
}

/// A non-empty run of decimal digits.
pub open spec fn is_digits(s: Seq<u8>) -> bool {
    s.len() > 0 && forall|i: int| 0 <= i < s.len() ==> is_digit_byte(#[trigger] s[i])
}

/// The number that a run of decimal digits writes.
pub open spec fn decimal_value(s: Seq<u8>) -> nat
    decreases s.len(),
{
    if s.len() == 0 {
        0
    } else {
        decimal_value(s.drop_last()) * 10 + (s.last() - 48) as nat
    }
}

/// The decimal digits of a number, without leading zeros.
pub open spec fn decimal(n: nat) -> Seq<u8>
    decreases n,
{
    if n < 10 {
        seq![(48 + n) as u8]
    } else {
        decimal(n / 10).push((48 + n % 10) as u8)
    }
}

/// Whether `s` is a non-empty run of decimal digits.
pub fn all_digits(s: &[u8]) -> (r: bool)
    ensures
        r == is_digits(s@),
{
    let mut i: usize = 0;
    while i < s.len()
        invariant
            i <= s.len(),
            forall|j: int| 0 <= j < i ==> is_digit_byte(#[trigger] s@[j]),
        decreases s.len() - i,
    {
        if !(48 <= s[i] && s[i] <= 57) {
            assert(!is_digit_byte(s@[i as int]));
            return false;
        }
        i = i + 1;
    }
    s.len() > 0
}

proof fn lemma_decimal_value_grows(s: Seq<u8>, i: int)
    requires
        is_digits(s),
        0 <= i <= s.len(),
    ensures
        decimal_value(s.take(i)) <= decimal_value(s),
    decreases s.len() - i,
{
    if i == s.len() {
        assert(s.take(i) =~= s);
    } else {
        let t = s.take(i + 1);
        assert(t.drop_last() =~= s.take(i));
        assert(is_digit_byte(s[i]));
        assert(t.last() == s[i]);
        lemma_decimal_value_grows(s, i + 1);
    }
}

/// The number that a run of decimal digits writes; `None` where the bytes
/// are no such run or the number is too large for the machine.
pub fn decimal_of(s: &[u8]) -> (r: Option<usize>)
    ensures
        match r {
            Some(n) => is_digits(s@) && n == decimal_value(s@),
            None => !is_digits(s@) || decimal_value(s@) > usize::MAX,
        },
{
    if !all_digits(s) {
        return None;
    }
    let mut n: usize = 0;
    let mut i: usize = 0;
    proof {
        assert(s@.take(0) =~= Seq::<u8>::empty());
    }
    while i < s.len()
        invariant
            i <= s.len(),
            is_digits(s@),
            n == decimal_value(s@.take(i as int)),
        decreases s.len() - i,
    {
        proof {
            let t = s@.take(i + 1);
            assert(t.drop_last() =~= s@.take(i as int));
            assert(t.last() == s@[i as int]);
            assert(is_digit_byte(s@[i as int]));
            lemma_decimal_value_grows(s@, i + 1);
        }
        let d: usize = (s[i] - 48) as usize;
        if n > (usize::MAX - d) / 10 {
            return None;
        }
        n = n * 10 + d;
        i = i + 1;
    }
    proof {
        assert(s@.take(s.len() as int) =~= s@);
    }
    Some(n)
}

/// Appends the decimal digits of `n` to `out`.
pub fn push_decimal(out: &mut Vec<u8>, n: usize)
    ensures
        final(out)@ == old(out)@ + decimal(n as nat),
    decreases n,
{
    if n < 10 {
        out.push(48 + n as u8);
        assert(out@ =~= old(out)@ + decimal(n as nat));
    } else {
        push_decimal(out, n / 10);
        out.push(48 + (n % 10) as u8);
        assert(out@ =~= old(out)@ + decimal(n as nat));
    }
}

} // verus!
