//! Character-sequence utilities shared by the tokenizer, the extraction
//! functions and their specifications: substring search, ASCII trimming and
//! decimal `i32` parsing, each verified against a direct specification.

use vstd::prelude::*;

verus! {

/// True when `p` occurs in `t` starting at index `i`.
pub open spec fn match_at(t: Seq<char>, p: Seq<char>, i: int) -> bool {
    &&& 0 <= i
    &&& i + p.len() <= t.len()
    &&& forall|k: int| 0 <= k < p.len() ==> t[i + k] == p[k]
}

/// True when `p` occurs somewhere in `t`.
pub open spec fn contains_seq(t: Seq<char>, p: Seq<char>) -> bool {
    exists|i: int| match_at(t, p, i)
}

/// Substring test, the executable side of [`contains_seq`].
pub fn contains_chars(t: &Vec<char>, p: &Vec<char>) -> (b: bool)
    ensures
        b == contains_seq(t@, p@),
{
    if p.len() > t.len() {
        assert(forall|i: int| !match_at(t@, p@, i));
        return false;
    }
    let mut i: usize = 0;
    while i <= t.len() - p.len()
        invariant
            p@.len() <= t@.len(),
            i <= t@.len() - p@.len() + 1,
            forall|m: int| 0 <= m < i ==> !match_at(t@, p@, m),
        decreases t@.len() - p@.len() - i + 1,
    {
        let mut j: usize = 0;
        let mut ok: bool = true;
        while j < p.len()
            invariant
                ok ==> forall|k: int| 0 <= k < j ==> t@[i + k] == p@[k],
                !ok ==> !match_at(t@, p@, i as int),
                i + p@.len() <= t@.len(),
                t@.len() <= usize::MAX,
                j <= p@.len(),
            decreases p@.len() - j,
        {
            if t[i + j] != p[j] {
                assert(t@[i + j] != p@[j as int]);
                ok = false;
            }
            j = j + 1;
        }
        if ok {
            assert(match_at(t@, p@, i as int));
            return true;
        }
        i = i + 1;
    }
    assert(forall|m: int| 0 <= m < i ==> !match_at(t@, p@, m));
    assert(forall|m: int| m >= i ==> !match_at(t@, p@, m));
    return false;
}

/// Copy of the characters of `t` in `[a, b)`.
pub fn sub_chars(t: &Vec<char>, a: usize, b: usize) -> (r: Vec<char>)
    requires
        a <= b <= t@.len(),
    ensures
        r@ == t@.subrange(a as int, b as int),
{
    let mut r: Vec<char> = Vec::new();
    let mut k: usize = a;
    while k < b
        invariant
            a <= k <= b <= t@.len(),
            r@ == t@.subrange(a as int, k as int),
        decreases b - k,
    {
        r.push(t[k]);
        assert(r@ =~= t@.subrange(a as int, k + 1));
        k = k + 1;
    }
    r
}

/// The white space recognized by [`trim_spec`]: the four ASCII blanks.
pub open spec fn is_space(c: char) -> bool {
    c == ' ' || c == '\t' || c == '\n' || c == '\r'
}

/// `s` with its leading white space removed.
pub open spec fn ltrim(s: Seq<char>) -> Seq<char>
    decreases s.len(),
{
    if s.len() > 0 && is_space(s[0]) {
        ltrim(s.drop_first())
    } else {
        s
    }
}

/// `s` with its trailing white space removed.
pub open spec fn rtrim(s: Seq<char>) -> Seq<char>
    decreases s.len(),
{
    if s.len() > 0 && is_space(s.last()) {
        rtrim(s.drop_last())
    } else {
        s
    }
}

/// `s` with white space removed from both ends.
pub open spec fn trim_spec(s: Seq<char>) -> Seq<char> {
    rtrim(ltrim(s))
}

proof fn lemma_ltrim_step(s: Seq<char>, i: int)
    requires
        0 <= i <= s.len(),
        forall|m: int| 0 <= m < i ==> is_space(s[m]),
    ensures
        ltrim(s) == ltrim(s.subrange(i, s.len() as int)),
    decreases i,
{
    if i > 0 {
        assert(s.subrange(0, s.len() as int) =~= s);
        lemma_ltrim_step(s, i - 1);
        let t = s.subrange(i - 1, s.len() as int);
        assert(is_space(t[0]));
        assert(t.drop_first() =~= s.subrange(i, s.len() as int));
    } else {
        assert(s.subrange(0, s.len() as int) =~= s);
    }
}

proof fn lemma_rtrim_step(s: Seq<char>, j: int)
    requires
        0 <= j <= s.len(),
        forall|m: int| j <= m < s.len() ==> is_space(s[m]),
    ensures
        rtrim(s) == rtrim(s.subrange(0, j)),
    decreases s.len() - j,
{
    if j < s.len() {
        let t = s.subrange(0, j + 1);
        lemma_rtrim_step(s, j + 1);
        assert(is_space(t.last()));
        assert(t.drop_last() =~= s.subrange(0, j));
        if j + 1 == s.len() {
            assert(s.subrange(0, s.len() as int) =~= s);
        }
    } else {
        assert(s.subrange(0, s.len() as int) =~= s);
    }
}

/// Trims ASCII white space from both ends; the executable side of
/// [`trim_spec`].
pub fn trim_chars(s: &Vec<char>) -> (r: Vec<char>)
    ensures
        r@ == trim_spec(s@),
{
    let n = s.len();
    let mut a: usize = 0;
    while a < n && is_space_exec(s[a])
        invariant
            a <= n == s@.len(),
            forall|m: int| 0 <= m < a ==> is_space(s@[m]),
        decreases n - a,
    {
        a = a + 1;
    }
    proof {
        lemma_ltrim_step(s@, a as int);
    }
    let tail = Ghost(s@.subrange(a as int, n as int));
    if a == n {
        assert(tail@ =~= Seq::<char>::empty());
        assert(ltrim(s@) == tail@);
        let r: Vec<char> = Vec::new();
        assert(r@ =~= trim_spec(s@));
        return r;
    }
    assert(!is_space(s@[a as int]));
    assert(ltrim(s@) == tail@);
    let mut b: usize = n;
    while b > a + 1 && is_space_exec(s[b - 1])
        invariant
            a < b <= n == s@.len(),
            forall|m: int| b <= m < n ==> is_space(s@[m]),
        decreases b,
    {
        b = b - 1;
    }
    proof {
        lemma_rtrim_step(tail@, b - a);
        assert(tail@.subrange(0, b - a) =~= s@.subrange(a as int, b as int));
    }
    if !is_space_exec(s[b - 1]) {
        assert(!is_space(tail@.subrange(0, b - a).last()));
        assert(rtrim(tail@) == s@.subrange(a as int, b as int));
        sub_chars(s, a, b)
    } else {
        // Only possible when b == a + 1 and that single character is blank,
        // which contradicts s[a] being the first non-blank: unreachable, but
        // handled totally.
        assert(b == a + 1);
        assert(false);
        Vec::new()
    }
}

/// Executable twin of [`is_space`].
pub fn is_space_exec(c: char) -> (b: bool)
    ensures
        b == is_space(c),
{
    c == ' ' || c == '\t' || c == '\n' || c == '\r'
}

/// True for the ten ASCII decimal digits.
pub open spec fn is_digit(c: char) -> bool {
    48 <= c as u32 <= 57
}

/// Numeric value of a digit character.
pub open spec fn digit_val(c: char) -> int {
    c as u32 - 48
}

/// True when every character of `s` is a decimal digit.
pub open spec fn all_digits(s: Seq<char>) -> bool {
    forall|i: int| 0 <= i < s.len() ==> is_digit(s[i])
}

/// The non-negative integer denoted by a digit sequence, most significant
/// digit first.
pub open spec fn digits_val(s: Seq<char>) -> int
    decreases s.len(),
{
    if s.len() == 0 {
        0
    } else {
        digits_val(s.drop_last()) * 10 + digit_val(s.last())
    }
}

/// What [`parse_i32_chars`] returns: an optional sign followed by at least
/// one digit, denoting a value representable in `i32`; anything else is
/// `None`.
pub open spec fn parse_i32_spec(s: Seq<char>) -> Option<i32> {
    let signed = s.len() > 0 && (s[0] == '-' || s[0] == '+');
    let neg = s.len() > 0 && s[0] == '-';
    let ds = if signed {
        s.drop_first()
    } else {
        s
    };
    if ds.len() == 0 || !all_digits(ds) {
        None
    } else {
        let v = if neg {
            -digits_val(ds)
        } else {
            digits_val(ds)
        };
        if i32::MIN <= v <= i32::MAX {
            Some(v as i32)
        } else {
            None
        }
    }
}

proof fn lemma_digits_val_extend(s: Seq<char>, i: int)
    requires
        0 <= i < s.len(),
    ensures
        digits_val(s.subrange(0, i + 1)) == digits_val(s.subrange(0, i)) * 10 + digit_val(s[i]),
{
    let t = s.subrange(0, i + 1);
    assert(t.drop_last() =~= s.subrange(0, i));
    assert(t.last() == s[i]);
}

proof fn lemma_digits_val_nonneg(s: Seq<char>)
    requires
        all_digits(s),
    ensures
        digits_val(s) >= 0,
    decreases s.len(),
{
    if s.len() > 0 {
        assert(all_digits(s.drop_last()));
        lemma_digits_val_nonneg(s.drop_last());
    }
}

/// Decimal `i32` parser over characters; the executable side of
/// [`parse_i32_spec`].
pub fn parse_i32_chars(s: &Vec<char>) -> (r: Option<i32>)
    ensures
        r == parse_i32_spec(s@),
{
    let n = s.len();
    let mut start: usize = 0;
    let mut neg: bool = false;
    if n > 0 {
        let c0 = s[0];
        if c0 == '-' || c0 == '+' {
            neg = c0 == '-';
            start = 1;
        }
    }
    let ghost ds = if start == 1 {
        s@.drop_first()
    } else {
        s@
    };
    assert(ds =~= s@.subrange(start as int, n as int));
    if start == n {
        return None;
    }
    // Accumulate saturating just above 2^31, the magnitude bound of i32.
    let mut acc: u64 = 0;
    let mut i: usize = start;
    while i < n
        invariant
            start <= i <= n == s@.len(),
            start == 0 || start == 1,
            (start == 1) <==> (s@.len() > 0 && (s@[0] == '-' || s@[0] == '+')),
            neg <==> (s@.len() > 0 && s@[0] == '-'),
            ds == (if s@.len() > 0 && (s@[0] == '-' || s@[0] == '+') {
                s@.drop_first()
            } else {
                s@
            }),
            ds =~= s@.subrange(start as int, n as int),
            all_digits(s@.subrange(start as int, i as int)),
            acc <= 0x8000_0001,
            digits_val(s@.subrange(start as int, i as int)) <= 0x8000_0000 ==> acc == digits_val(
                s@.subrange(start as int, i as int),
            ),
            digits_val(s@.subrange(start as int, i as int)) > 0x8000_0000 ==> acc == 0x8000_0001,
            digits_val(s@.subrange(start as int, i as int)) >= 0,
        decreases n - i,
    {
        let c = s[i];
        let cv = c as u32;
        if !(48 <= cv && cv <= 57) {
            assert(!is_digit(s@[i as int]));
            assert(ds[i - start] == s@[i as int]);
            assert(!all_digits(ds));
            return None;
        }
        proof {
            lemma_digits_val_extend(s@.subrange(start as int, n as int), i - start);
            assert(s@.subrange(start as int, n as int).subrange(0, i - start + 1) =~= s@.subrange(
                start as int,
                i + 1,
            ));
            assert(s@.subrange(start as int, n as int).subrange(0, i - start) =~= s@.subrange(
                start as int,
                i as int,
            ));
        }
        let d: u64 = (cv - 48) as u64;
        let acc2: u64 = acc * 10 + d;
        if acc2 > 0x8000_0000 {
            acc = 0x8000_0001;
        } else {
            acc = acc2;
        }
        assert(all_digits(s@.subrange(start as int, i + 1)));
        i = i + 1;
    }
    assert(s@.subrange(start as int, i as int) =~= ds);
    assert(all_digits(ds));
    let v = Ghost(digits_val(ds));
    proof {
        lemma_digits_val_nonneg(ds);
    }
    if acc > 0x8000_0000 {
        return None;
    }
    if neg {
        if acc == 0x8000_0000 {
            assert(v@ == 0x8000_0000);
            return Some(i32::MIN);
        }
        let m = acc as i64;
        let out = (-m) as i32;
        assert(out == parse_i32_spec(s@)->0);
        Some(out)
    } else {
        if acc == 0x8000_0000 {
            return None;
        }
        let out = acc as i32;
        assert(out == parse_i32_spec(s@)->0);
        Some(out)
    }
}

} // verus!
