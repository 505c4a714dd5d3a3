//! Character-level lexical helpers shared by the field loader and the script
//! parser: whitespace trimming, line and token splitting, and decimal-digit
//! reading, each with an exact sequence-level specification.

use vstd::prelude::*;

verus! {

/// Whitespace that may surround tokens on a source line.
pub open spec fn is_space(c: char) -> bool {
    c == ' ' || c == '\t' || c == '\r'
}

/// `s` with its leading whitespace removed.
pub open spec fn trim_front(s: Seq<char>) -> Seq<char>
    decreases s.len(),
{
    if s.len() > 0 && is_space(s[0]) {
        trim_front(s.drop_first())
    } else {
        s
    }
}

/// `s` with its trailing whitespace removed.
pub open spec fn trim_back(s: Seq<char>) -> Seq<char>
    decreases s.len(),
{
    if s.len() > 0 && is_space(s[s.len() - 1]) {
        trim_back(s.drop_last())
    } else {
        s
    }
}

/// `s` with leading and trailing whitespace removed.
pub open spec fn trimmed(s: Seq<char>) -> Seq<char> {
    trim_back(trim_front(s))
}

/// Copy `v[from..to]` into a fresh vector.
pub fn subvec(v: &Vec<char>, from: usize, to: usize) -> (r: Vec<char>)
    requires
        from <= to <= v@.len(),
    ensures
        r@ == v@.subrange(from as int, to as int),
{
    let mut r: Vec<char> = Vec::new();
    let mut i: usize = from;
    while i < to
        invariant
            from <= i <= to <= v@.len(),
            r@ == v@.subrange(from as int, i as int),
        decreases to - i,
    {
        r.push(v[i]);
        i = i + 1;
        proof {
            assert(r@ =~= v@.subrange(from as int, i as int));
        }
    }
    r
}

/// Executable test for [`is_space`].
pub fn is_space_exec(c: char) -> (r: bool)
    ensures
        r == is_space(c),
{
    c == ' ' || c == '\t' || c == '\r'
}

/// Remove leading and trailing whitespace from `v`.
pub fn trim(v: &Vec<char>) -> (r: Vec<char>)
    ensures
        r@ == trimmed(v@),
{
    let mut lo: usize = 0;
    let hi0: usize = v.len();
    while lo < hi0 && is_space_exec(v[lo])
        invariant
            0 <= lo <= hi0 == v@.len(),
            forall|j: int| 0 <= j < lo ==> is_space(v@[j]),
        decreases hi0 - lo,
    {
        lo = lo + 1;
    }
    let mut hi: usize = hi0;
    while hi > lo && is_space_exec(v[hi - 1])
        invariant
            0 <= lo <= hi <= v@.len(),
            forall|j: int| 0 <= j < lo ==> is_space(v@[j]),
            forall|j: int| hi <= j < v@.len() ==> is_space(v@[j]),
            lo < v@.len() ==> !is_space(v@[lo as int]),
        decreases hi,
    {
        hi = hi - 1;
    }
    proof {
        lemma_trim_range(v@, lo as int, hi as int);
    }
    subvec(v, lo, hi)
}

proof fn lemma_trim_front_skip(s: Seq<char>, lo: int)
    requires
        0 <= lo <= s.len(),
        forall|j: int| 0 <= j < lo ==> is_space(s[j]),
        lo < s.len() ==> !is_space(s[lo]),
    ensures
        trim_front(s) == s.subrange(lo, s.len() as int),
    decreases s.len(),
{
    if s.len() == 0 {
        assert(trim_front(s) =~= s.subrange(lo, s.len() as int));
    } else if lo == 0 {
        assert(trim_front(s) =~= s.subrange(0, s.len() as int));
    } else {
        lemma_trim_front_skip(s.drop_first(), lo - 1);
        assert(s.drop_first().subrange(lo - 1, s.drop_first().len() as int) =~= s.subrange(
            lo,
            s.len() as int,
        ));
    }
}

proof fn lemma_trim_back_skip(s: Seq<char>, hi: int)
    requires
        0 <= hi <= s.len(),
        forall|j: int| hi <= j < s.len() ==> is_space(s[j]),
        hi > 0 ==> !is_space(s[hi - 1]),
    ensures
        trim_back(s) == s.subrange(0, hi),
    decreases s.len(),
{
    if s.len() == 0 {
        assert(trim_back(s) =~= s.subrange(0, hi));
    } else if hi == s.len() {
        assert(trim_back(s) =~= s.subrange(0, hi));
    } else {
        lemma_trim_back_skip(s.drop_last(), hi);
        assert(s.drop_last().subrange(0, hi) =~= s.subrange(0, hi));
    }
}

proof fn lemma_trim_range(s: Seq<char>, lo: int, hi: int)
    requires
        0 <= lo <= hi <= s.len(),
        forall|j: int| 0 <= j < lo ==> is_space(s[j]),
        forall|j: int| hi <= j < s.len() ==> is_space(s[j]),
        lo < s.len() ==> !is_space(s[lo]),
        hi > lo ==> !is_space(s[hi - 1]),
    ensures
        trimmed(s) == s.subrange(lo, hi),
{
    lemma_trim_front_skip(s, lo);
    let t = s.subrange(lo, s.len() as int);
    if hi == lo {
        // the suffix from `lo` is all whitespace, so `lo` must sit at the end
        assert(lo == s.len()) by {
            if lo < s.len() {
                assert(is_space(s[lo]));
            }
        }
        lemma_trim_back_skip(t, 0);
    } else {
        lemma_trim_back_skip(t, hi - lo);
    }
    assert(t.subrange(0, hi - lo) =~= s.subrange(lo, hi));
}


/// Build the character sequence of a string slice.
pub fn to_chars(s: &str) -> (r: Vec<char>)
    ensures
        r@ == s@,
{
    let n = s.unicode_len();
    let mut r: Vec<char> = Vec::new();
    let mut i: usize = 0;
    while i < n
        invariant
            i <= n == s@.len(),
            r@ == s@.subrange(0, i as int),
        decreases n - i,
    {
        r.push(s.get_char(i));
        i = i + 1;
        proof {
            assert(r@ =~= s@.subrange(0, i as int));
        }
    }
    proof {
        assert(s@.subrange(0, n as int) =~= s@);
    }
    r
}

/// Whether `v` spells exactly the characters of `s`.
pub fn eq_str(v: &Vec<char>, s: &str) -> (r: bool)
    ensures
        r == (v@ == s@),
{
    let n = s.unicode_len();
    if v.len() != n {
        proof {
            assert(v@ != s@);
        }
        return false;
    }
    let mut i: usize = 0;
    while i < n
        invariant
            i <= n == s@.len() == v@.len(),
            forall|j: int| 0 <= j < i ==> v@[j] == s@[j],
        decreases n - i,
    {
        if v[i] != s.get_char(i) {
            proof {
                assert(v@[i as int] != s@[i as int]);
            }
            return false;
        }
        i = i + 1;
    }
    proof {
        assert(v@ =~= s@);
    }
    true
}

/// Whether `s` contains the character `c`.
pub open spec fn contains_c(s: Seq<char>, c: char) -> bool {
    exists|i: int| 0 <= i < s.len() && s[i] == c
}

/// Executable test for [`contains_c`].
pub fn contains_char(v: &Vec<char>, c: char) -> (r: bool)
    ensures
        r == contains_c(v@, c),
{
    let mut i: usize = 0;
    while i < v.len()
        invariant
            i <= v@.len(),
            forall|j: int| 0 <= j < i ==> v@[j] != c,
        decreases v@.len() - i,
    {
        if v[i] == c {
            return true;
        }
        i = i + 1;
    }
    false
}

/// Decimal digits.
pub open spec fn is_digit(c: char) -> bool {
    '0' as u32 <= c as u32 <= '9' as u32
}

/// Whether every character of `s` is a decimal digit.
pub open spec fn all_digits(s: Seq<char>) -> bool {
    forall|i: int| 0 <= i < s.len() ==> is_digit(#[trigger] s[i])
}

/// Executable test for [`all_digits`].
pub fn all_digits_exec(v: &Vec<char>) -> (r: bool)
    ensures
        r == all_digits(v@),
{
    let mut i: usize = 0;
    while i < v.len()
        invariant
            i <= v@.len(),
            forall|j: int| 0 <= j < i ==> is_digit(#[trigger] v@[j]),
        decreases v@.len() - i,
    {
        let c = v[i];
        if !((c as u32) >= ('0' as u32) && (c as u32) <= ('9' as u32)) {
            return false;
        }
        i = i + 1;
    }
    true
}

/// The number spelt by the decimal digits of `s`.
pub open spec fn digits_val(s: Seq<char>) -> nat
    decreases s.len(),
{
    if s.len() == 0 {
        0
    } else {
        digits_val(s.drop_last()) * 10 + (s.last() as u32 - '0' as u32) as nat
    }
}

/// A longer run of digits never spells a smaller number.
pub proof fn lemma_digits_val_prefix_le(s: Seq<char>, i: int)
    requires
        0 <= i <= s.len(),
    ensures
        digits_val(s.subrange(0, i)) <= digits_val(s),
    decreases s.len() - i,
{
    if i == s.len() {
        assert(s.subrange(0, i) =~= s);
    } else {
        lemma_digits_val_prefix_le(s, i + 1);
        let p1 = s.subrange(0, i + 1);
        assert(p1.drop_last() =~= s.subrange(0, i));
        assert(digits_val(s.subrange(0, i)) <= digits_val(p1));
    }
}

/// Read a run of decimal digits as a machine word: the number when `v` is a
/// nonempty all-digit run whose value fits, nothing otherwise.
pub fn parse_u64(v: &Vec<char>) -> (r: Option<u64>)
    ensures
        match r {
            Some(n) => v@.len() > 0 && all_digits(v@) && digits_val(v@) == n,
            None => v@.len() == 0 || !all_digits(v@) || digits_val(v@) > u64::MAX,
        },
{
    if v.len() == 0 {
        return None;
    }
    let mut acc: u128 = 0;
    let mut i: usize = 0;
    while i < v.len()
        invariant
            i <= v@.len(),
            forall|j: int| 0 <= j < i ==> is_digit(#[trigger] v@[j]),
            acc == digits_val(v@.subrange(0, i as int)),
            acc <= u64::MAX,
        decreases v@.len() - i,
    {
        let c = v[i];
        if !((c as u32) >= ('0' as u32) && (c as u32) <= ('9' as u32)) {
            return None;
        }
        let d: u128 = ((c as u32) - ('0' as u32)) as u128;
        let next: u128 = acc * 10 + d;
        proof {
            assert(v@.subrange(0, i + 1).drop_last() =~= v@.subrange(0, i as int));
            assert(digits_val(v@.subrange(0, i + 1)) == acc * 10 + d);
        }
        if next > u64::MAX as u128 {
            proof {
                lemma_digits_val_prefix_le(v@, i + 1);
            }
            return None;
        }
        acc = next;
        i = i + 1;
    }
    proof {
        assert(v@.subrange(0, v@.len() as int) =~= v@);
    }
    Some(acc as u64)
}

/// Read a run of decimal digits as a 32-bit word.
pub fn parse_u32(v: &Vec<char>) -> (r: Option<u32>)
    ensures
        match r {
            Some(n) => v@.len() > 0 && all_digits(v@) && digits_val(v@) == n,
            None => v@.len() == 0 || !all_digits(v@) || digits_val(v@) > u32::MAX,
        },
{
    match parse_u64(v) {
        Some(n) => if n <= u32::MAX as u64 {
            Some(n as u32)
        } else {
            proof {
                assert(digits_val(v@) > u32::MAX);
            }
            None
        },
        None => None,
    }
}


/// `s` split at every occurrence of `sep`: a separator at the front or back
/// yields an empty piece there, and an empty `s` yields one empty piece.
pub open spec fn split_on(s: Seq<char>, sep: char) -> Seq<Seq<char>>
    decreases s.len(),
{
    if s.len() == 0 {
        seq![Seq::<char>::empty()]
    } else if s[0] == sep {
        seq![Seq::<char>::empty()] + split_on(s.drop_first(), sep)
    } else {
        let r = split_on(s.drop_first(), sep);
        r.update(0, seq![s[0]] + r[0])
    }
}

/// A split always yields at least one piece.
pub proof fn lemma_split_on_len(s: Seq<char>, sep: char)
    ensures
        split_on(s, sep).len() >= 1,
    decreases s.len(),
{
    if s.len() > 0 {
        lemma_split_on_len(s.drop_first(), sep);
    }
}

/// Split `v` at every occurrence of `sep`.
pub fn split_char(v: &Vec<char>, sep: char) -> (r: Vec<Vec<char>>)
    ensures
        r.deep_view() == split_on(v@, sep),
        r@.len() >= 1,
    decreases v@.len(),
{
    proof {
        lemma_split_on_len(v@, sep);
    }
    if v.len() == 0 {
        let mut r: Vec<Vec<char>> = Vec::new();
        r.push(Vec::new());
        proof {
            assert(r.deep_view() =~~= split_on(v@, sep));
        }
        return r;
    }
    let rest = subvec(v, 1, v.len());
    proof {
        assert(rest@ == v@.drop_first());
    }
    let mut r = split_char(&rest, sep);
    if v[0] == sep {
        r.insert(0, Vec::new());
        proof {
            assert(r.deep_view() =~~= split_on(v@, sep));
        }
    } else {
        let first = r.remove(0);
        let mut nf: Vec<char> = Vec::new();
        nf.push(v[0]);
        let mut fi: usize = 0;
        while fi < first.len()
            invariant
                fi <= first@.len(),
                nf@ == seq![v@[0]] + first@.subrange(0, fi as int),
            decreases first@.len() - fi,
        {
            nf.push(first[fi]);
            fi = fi + 1;
            proof {
                assert(nf@ =~= seq![v@[0]] + first@.subrange(0, fi as int));
            }
        }
        proof {
            assert(nf@ =~= seq![v@[0]] + first@);
        }
        r.insert(0, nf);
        proof {
            assert(r.deep_view() =~~= split_on(v@, sep));
        }
    }
    r
}

} // verus!
