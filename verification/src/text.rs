//! Character-level helpers shared by the parsers of this crate.
//!
//! Strings are modelled as sequences of characters. The executable helpers
//! work on a `Vec<char>` and a half-open range of indices into it, so that a
//! caller can narrow a line step by step without copying it.

use vstd::prelude::*;
use vstd::string::*;

verus! {

/// Whether `c` carries the Unicode `White_Space` property.
pub open spec fn is_space(c: char) -> bool {
    let u = c as u32;
    ||| 0x09 <= u <= 0x0D
    ||| u == 0x20
    ||| u == 0x85
    ||| u == 0xA0
    ||| u == 0x1680
    ||| 0x2000 <= u <= 0x200A
    ||| u == 0x2028
    ||| u == 0x2029
    ||| u == 0x202F
    ||| u == 0x205F
    ||| u == 0x3000
}

/// `s` without its leading white space.
pub open spec fn trim_start(s: Seq<char>) -> Seq<char>
    decreases s.len(),
{
    if s.len() > 0 && is_space(s[0]) {
        trim_start(s.skip(1))
    } else {
        s
    }
}

/// `s` without its trailing white space.
pub open spec fn trim_end(s: Seq<char>) -> Seq<char>
    decreases s.len(),
{
    if s.len() > 0 && is_space(s.last()) {
        trim_end(s.drop_last())
    } else {
        s
    }
}

/// `s` without leading and trailing white space.
pub open spec fn trim(s: Seq<char>) -> Seq<char> {
    trim_end(trim_start(s))
}

/// The index of the first `c` in `s`, or `s.len()` where `s` holds none.
pub open spec fn first_index(s: Seq<char>, c: char) -> int
    decreases s.len(),
{
    if s.len() == 0 {
        0
    } else if s[0] == c {
        0
    } else {
        1 + first_index(s.skip(1), c)
    }
}

/// Whether `needle` occurs in `hay` as a contiguous run.
pub open spec fn contains_run(hay: Seq<char>, needle: Seq<char>) -> bool {
    exists|i: int| occurs_at(hay, needle, i)
}

/// Whether `needle` occurs in `hay` starting at index `i`.
pub open spec fn occurs_at(hay: Seq<char>, needle: Seq<char>, i: int) -> bool {
    0 <= i && i + needle.len() <= hay.len() && hay.subrange(i, i + needle.len()) == needle
}

/// The ASCII lower-case form of `c`.
pub open spec fn ascii_lower(c: char) -> char {
    if 'A' <= c && c <= 'Z' {
        ((c as u8) + 32) as char
    } else {
        c
    }
}

/// Whether `a` and `b` are equal up to the case of ASCII letters.
pub open spec fn eq_ignore_ascii_case(a: Seq<char>, b: Seq<char>) -> bool {
    a.len() == b.len() && forall|i: int|
        0 <= i < a.len() ==> ascii_lower(#[trigger] a[i]) == ascii_lower(b[i])
}

/// An index that passes no `c` and stops on one, or at the end, is the first.
pub proof fn lemma_first_index_is(s: Seq<char>, c: char, i: int)
    requires
        0 <= i <= s.len(),
        forall|j: int| 0 <= j < i ==> s[j] != c,
        i < s.len() ==> s[i] == c,
    ensures
        first_index(s, c) == i,
    decreases i,
{
    if i > 0 {
        let t = s.skip(1);
        assert(s[0] != c);
        assert forall|j: int| 0 <= j < i - 1 implies t[j] != c by {
            assert(t[j] == s[j + 1]);
        }
        lemma_first_index_is(t, c, i - 1);
    }
}

/// Trimming the start removes exactly the leading run of white space.
pub proof fn lemma_trim_start_is(s: Seq<char>, k: int)
    requires
        0 <= k <= s.len(),
        forall|j: int| 0 <= j < k ==> is_space(#[trigger] s[j]),
        k < s.len() ==> !is_space(s[k]),
    ensures
        trim_start(s) == s.skip(k),
    decreases k,
{
    if k == 0 {
        assert(s.skip(0) =~= s);
    } else {
        let t = s.skip(1);
        assert(is_space(s[0]));
        assert forall|j: int| 0 <= j < k - 1 implies is_space(#[trigger] t[j]) by {
            assert(t[j] == s[j + 1]);
        }
        lemma_trim_start_is(t, k - 1);
        assert(t.skip(k - 1) =~= s.skip(k));
    }
}

/// Trimming the end removes exactly the trailing run of white space.
pub proof fn lemma_trim_end_is(s: Seq<char>, k: int)
    requires
        0 <= k <= s.len(),
        forall|j: int| k <= j < s.len() ==> is_space(#[trigger] s[j]),
        k > 0 ==> !is_space(s[k - 1]),
    ensures
        trim_end(s) == s.take(k),
    decreases s.len() - k,
{
    if k == s.len() {
        assert(s.take(k) =~= s);
    } else {
        let t = s.drop_last();
        assert(is_space(s[s.len() - 1]));
        lemma_trim_end_is(t, k);
        assert(t.take(k) =~= s.take(k));
    }
}

/// The characters of `s`, in order.
pub fn chars_of(s: &str) -> (out: Vec<char>)
    ensures
        out@ == s@,
{
    let mut out: Vec<char> = Vec::new();
    for c in it: s.chars()
        invariant
            out@ == it.seq().take(it.index() as int),
            it.seq() == s@,
    {
        out.push(c);
    }
    out
}

/// Whether `c` is a white-space character.
pub fn is_whitespace(c: char) -> (b: bool)
    ensures
        b == is_space(c),
{
    let u: u32 = c as u32;
    (0x09 <= u && u <= 0x0D) || u == 0x20 || u == 0x85 || u == 0xA0 || u == 0x1680 || (0x2000 <= u
        && u <= 0x200A) || u == 0x2028 || u == 0x2029 || u == 0x202F || u == 0x205F || u == 0x3000
}

/// The start of `v[start..end]` once its leading white space is skipped.
pub fn skip_spaces(v: &Vec<char>, start: usize, end: usize) -> (k: usize)
    requires
        start <= end <= v.len(),
    ensures
        start <= k <= end,
        v@.subrange(k as int, end as int) == trim_start(v@.subrange(start as int, end as int)),
{
    let mut k: usize = start;
    while k < end && is_whitespace(v[k])
        invariant
            start <= k <= end <= v.len(),
            forall|j: int| start <= j < k ==> is_space(#[trigger] v@[j]),
        decreases end - k,
    {
        k = k + 1;
    }
    proof {
        let w = v@.subrange(start as int, end as int);
        assert forall|j: int| 0 <= j < k - start implies is_space(#[trigger] w[j]) by {
            assert(w[j] == v@[start + j]);
        }
        lemma_trim_start_is(w, k - start);
        assert(w.skip(k - start) =~= v@.subrange(k as int, end as int));
    }
    k
}

/// The end of `v[start..end]` once its trailing white space is dropped.
pub fn drop_trailing_spaces(v: &Vec<char>, start: usize, end: usize) -> (k: usize)
    requires
        start <= end <= v.len(),
    ensures
        start <= k <= end,
        v@.subrange(start as int, k as int) == trim_end(v@.subrange(start as int, end as int)),
{
    let mut k: usize = end;
    while k > start && is_whitespace(v[k - 1])
        invariant
            start <= k <= end <= v.len(),
            forall|j: int| k <= j < end ==> is_space(#[trigger] v@[j]),
        decreases k - start,
    {
        k = k - 1;
    }
    proof {
        let w = v@.subrange(start as int, end as int);
        assert forall|j: int| k - start <= j < w.len() implies is_space(#[trigger] w[j]) by {
            assert(w[j] == v@[start + j]);
        }
        lemma_trim_end_is(w, k - start);
        assert(w.take(k - start) =~= v@.subrange(start as int, k as int));
    }
    k
}

/// The bounds of `v[start..end]` once white space is trimmed from both ends.
pub fn trim_range(v: &Vec<char>, start: usize, end: usize) -> (r: (usize, usize))
    requires
        start <= end <= v.len(),
    ensures
        start <= r.0 <= r.1 <= end,
        v@.subrange(r.0 as int, r.1 as int) == trim(v@.subrange(start as int, end as int)),
{
    let from = skip_spaces(v, start, end);
    let to = drop_trailing_spaces(v, from, end);
    (from, to)
}

/// The position of the first `c` in `v[start..end]`, or `end` without one.
pub fn find_char(v: &Vec<char>, start: usize, end: usize, c: char) -> (k: usize)
    requires
        start <= end <= v.len(),
    ensures
        start <= k <= end,
        k - start == first_index(v@.subrange(start as int, end as int), c),
        k < end ==> v@[k as int] == c,
{
    let mut k: usize = start;
    while k < end && v[k] != c
        invariant
            start <= k <= end <= v.len(),
            forall|j: int| start <= j < k ==> v@[j] != c,
        decreases end - k,
    {
        k = k + 1;
    }
    proof {
        let w = v@.subrange(start as int, end as int);
        assert forall|j: int| 0 <= j < k - start implies w[j] != c by {
            assert(w[j] == v@[start + j]);
        }
        if k < end {
            assert(w[k - start] == v@[k as int]);
        }
        lemma_first_index_is(w, c, k - start);
    }
    k
}

/// Whether `v[start..end]` begins with `prefix`.
pub fn has_prefix(v: &Vec<char>, start: usize, end: usize, prefix: &Vec<char>) -> (b: bool)
    requires
        start <= end <= v.len(),
    ensures
        b == prefix@.is_prefix_of(v@.subrange(start as int, end as int)),
{
    let n = prefix.len();
    if n > end - start {
        return false;
    }
    let ghost w = v@.subrange(start as int, end as int);
    let mut i: usize = 0;
    while i < n
        invariant
            start <= end <= v.len(),
            n == prefix.len(),
            n <= end - start,
            i <= n,
            w == v@.subrange(start as int, end as int),
            forall|j: int| 0 <= j < i ==> prefix@[j] == w[j],
        decreases n - i,
    {
        if v[start + i] != prefix[i] {
            proof {
                assert(w[i as int] == v@[start + i]);
                if prefix@.is_prefix_of(w) {
                    assert(w.subrange(0, n as int)[i as int] == prefix@[i as int]);
                }
            }
            return false;
        }
        proof {
            assert(w[i as int] == v@[start + i]);
        }
        i = i + 1;
    }
    proof {
        assert(w.subrange(0, n as int) =~= prefix@);
    }
    true
}

/// Whether `needle` occurs somewhere in `hay`.
pub fn contains_chars(hay: &Vec<char>, needle: &Vec<char>) -> (b: bool)
    ensures
        b == contains_run(hay@, needle@),
{
    let n = needle.len();
    let h = hay.len();
    if n > h {
        proof {
            assert forall|i: int| !occurs_at(hay@, needle@, i) by {}
        }
        return false;
    }
    let mut i: usize = 0;
    while i <= h - n
        invariant
            n == needle.len(),
            h == hay.len(),
            n <= h,
            i <= h - n + 1,
            forall|j: int| 0 <= j < i ==> !occurs_at(hay@, needle@, j),
        decreases h - n + 1 - i,
    {
        if has_prefix(hay, i, h, needle) {
            proof {
                let w = hay@.subrange(i as int, h as int);
                assert(w.subrange(0, n as int) =~= hay@.subrange(i as int, i + n));
                assert(occurs_at(hay@, needle@, i as int));
            }
            return true;
        }
        proof {
            let w = hay@.subrange(i as int, h as int);
            if occurs_at(hay@, needle@, i as int) {
                assert(w.subrange(0, n as int) =~= hay@.subrange(i as int, i + n));
                assert(needle@.is_prefix_of(w));
            }
        }
        i = i + 1;
    }
    proof {
        assert forall|j: int| !occurs_at(hay@, needle@, j) by {}
    }
    false
}

/// Whether `needle` occurs somewhere in `hay`.
pub fn str_contains(hay: &str, needle: &str) -> (b: bool)
    ensures
        b == contains_run(hay@, needle@),
{
    let h = chars_of(hay);
    let n = chars_of(needle);
    contains_chars(&h, &n)
}

/// The ASCII lower-case form of `c`.
pub fn to_ascii_lower(c: char) -> (r: char)
    ensures
        r == ascii_lower(c),
{
    if 'A' <= c && c <= 'Z' {
        let b: u8 = c as u8;
        (b + 32) as char
    } else {
        c
    }
}

/// Whether `v[start..end]` equals `word` up to the case of ASCII letters.
pub fn range_eq_ignore_case(v: &Vec<char>, start: usize, end: usize, word: &Vec<char>) -> (b:
    bool)
    requires
        start <= end <= v.len(),
    ensures
        b == eq_ignore_ascii_case(v@.subrange(start as int, end as int), word@),
{
    let n = word.len();
    if n != end - start {
        return false;
    }
    let ghost w = v@.subrange(start as int, end as int);
    let mut i: usize = 0;
    while i < n
        invariant
            start <= end <= v.len(),
            n == word.len(),
            n == end - start,
            i <= n,
            w == v@.subrange(start as int, end as int),
            forall|j: int| 0 <= j < i ==> ascii_lower(#[trigger] w[j]) == ascii_lower(word@[j]),
        decreases n - i,
    {
        proof {
            assert(w[i as int] == v@[start + i]);
        }
        if to_ascii_lower(v[start + i]) != to_ascii_lower(word[i]) {
            return false;
        }
        i = i + 1;
    }
    true
}

/// The character of the decimal digit `d`.
pub open spec fn digit_char(d: int) -> char {
    (('0' as u8) + d) as char
}

/// `n` in decimal digits, without leading zeros.
pub open spec fn nat_text(n: nat) -> Seq<char>
    decreases n,
{
    if n < 10 {
        seq![digit_char(n as int)]
    } else {
        nat_text(n / 10).push(digit_char((n % 10) as int))
    }
}

/// `n` in decimal digits, after a `-` where it is negative.
pub open spec fn int_text(n: int) -> Seq<char> {
    if n < 0 {
        seq!['-'] + nat_text((-n) as nat)
    } else {
        nat_text(n as nat)
    }
}

/// `parts`, with `sep` between each two neighbours.
pub open spec fn join_with(parts: Seq<Seq<char>>, sep: Seq<char>) -> Seq<char>
    decreases parts.len(),
{
    if parts.len() == 0 {
        Seq::empty()
    } else if parts.len() == 1 {
        parts[0]
    } else {
        join_with(parts.drop_last(), sep) + sep + parts.last()
    }
}

fn digit_str(d: u64) -> (s: &'static str)
    requires
        d < 10,
    ensures
        s@ == seq![digit_char(d as int)],
{
    proof {
        reveal_strlit("0");
        reveal_strlit("1");
        reveal_strlit("2");
        reveal_strlit("3");
        reveal_strlit("4");
        reveal_strlit("5");
        reveal_strlit("6");
        reveal_strlit("7");
        reveal_strlit("8");
        reveal_strlit("9");
    }
    let s = if d == 0 {
        "0"
    } else if d == 1 {
        "1"
    } else if d == 2 {
        "2"
    } else if d == 3 {
        "3"
    } else if d == 4 {
        "4"
    } else if d == 5 {
        "5"
    } else if d == 6 {
        "6"
    } else if d == 7 {
        "7"
    } else if d == 8 {
        "8"
    } else {
        "9"
    };
    assert(s@ =~= seq![digit_char(d as int)]);
    s
}

/// Appends `n` in decimal digits to `out`.
pub fn push_decimal(out: &mut String, n: u64)
    ensures
        final(out)@ == old(out)@ + nat_text(n as nat),
    decreases n,
{
    if n >= 10 {
        push_decimal(out, n / 10);
    }
    out.append(digit_str(n % 10));
    assert(out@ =~= old(out)@ + nat_text(n as nat));
}

/// Appends `n` in decimal digits to `out`, after a `-` where it is negative.
pub fn push_signed_decimal(out: &mut String, n: i32)
    ensures
        final(out)@ == old(out)@ + int_text(n as int),
{
    if n < 0 {
        proof {
            reveal_strlit("-");
            assert("-"@ =~= seq!['-']);
        }
        out.append("-");
        let magnitude: u64 = (-(n as i64)) as u64;
        push_decimal(out, magnitude);
        assert(out@ =~= old(out)@ + int_text(n as int));
    } else {
        push_decimal(out, n as u64);
    }
}

/// Appends `parts` to `out`, with `sep` between each two neighbours.
pub fn push_joined(out: &mut String, parts: &Vec<String>, sep: &str)
    ensures
        final(out)@ == old(out)@ + join_with(parts.deep_view(), sep@),
{
    let ghost all = parts.deep_view();
    let mut i: usize = 0;
    assert(all.take(0) =~= Seq::<Seq<char>>::empty());
    assert(out@ =~= old(out)@ + join_with(all.take(0), sep@));
    while i < parts.len()
        invariant
            i <= parts.len(),
            all == parts.deep_view(),
            out@ == old(out)@ + join_with(all.take(i as int), sep@),
        decreases parts.len() - i,
    {
        let ghost read = all.take(i as int);
        let ghost next = all.take(i + 1);
        assert(next.drop_last() =~= read);
        assert(next.last() == parts@[i as int]@);
        if i > 0 {
            out.append(sep);
        }
        out.append(parts[i].as_str());
        proof {
            if i == 0 {
                assert(read.len() == 0);
            }
            assert(out@ =~= old(out)@ + join_with(next, sep@));
        }
        i = i + 1;
    }
    assert(all.take(i as int) =~= all);
}

/// Whether `names` holds `name`.
pub fn contains_name(names: &Vec<String>, name: &str) -> (b: bool)
    ensures
        b == names.deep_view().contains(name@),
{
    let probe = chars_of(name);
    let mut i: usize = 0;
    while i < names.len()
        invariant
            i <= names.len(),
            probe@ == name@,
            forall|j: int| 0 <= j < i ==> names.deep_view()[j] != name@,
        decreases names.len() - i,
    {
        let candidate = chars_of(names[i].as_str());
        if same_chars(&candidate, &probe) {
            assert(names.deep_view()[i as int] == name@);
            return true;
        }
        assert(names.deep_view()[i as int] == names@[i as int]@);
        i = i + 1;
    }
    false
}

/// Whether `a` and `b` hold the same characters.
pub fn same_chars(a: &Vec<char>, b: &Vec<char>) -> (eq: bool)
    ensures
        eq == (a@ == b@),
{
    if a.len() != b.len() {
        return false;
    }
    let mut i: usize = 0;
    while i < a.len()
        invariant
            i <= a.len(),
            a.len() == b.len(),
            forall|j: int| 0 <= j < i ==> a@[j] == b@[j],
        decreases a.len() - i,
    {
        if a[i] != b[i] {
            return false;
        }
        i = i + 1;
    }
    assert(a@ =~= b@);
    true
}

} // verus!
