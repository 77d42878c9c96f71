//! Character-level text handling: whitespace as `char::is_whitespace`
//! sees it, trimming, words, substring search and unsigned numbers.
use vstd::prelude::*;

verus! {

/// `char::is_whitespace`: the Unicode `White_Space` characters.
pub open spec fn is_ws(c: char) -> bool {
    let u = c as u32;
    ||| 0x09 <= u <= 0x0D
    ||| u == 0x20
    ||| u == 0x85
    ||| u == 0xA0
    ||| u == 0x1680
    ||| 0x2000 <= u <= 0x200A
    ||| u == 0x2028
    ||| u == 0x2029
    ||| u == 0x202F
    ||| u == 0x205F
    ||| u == 0x3000
}

pub fn is_ws_exec(c: char) -> (b: bool)
    ensures
        b == is_ws(c),
{
    let u = c as u32;
    (0x09 <= u && u <= 0x0D) || u == 0x20 || u == 0x85 || u == 0xA0 || u == 0x1680 || (0x2000 <= u
        && u <= 0x200A) || u == 0x2028 || u == 0x2029 || u == 0x202F || u == 0x205F || u == 0x3000
}

/// The characters of `s`.
pub fn chars_of(s: &str) -> (v: Vec<char>)
    ensures
        v@ == s@,
{
    let mut it = s.chars();
    let mut v: Vec<char> = Vec::new();
    loop
        invariant
            v@ + vstd::std_specs::iter::IteratorSpec::remaining(&it) == s@,
            vstd::std_specs::iter::IteratorSpec::decrease(&it) is Some,
        ensures
            v@ == s@,
        decreases vstd::std_specs::iter::IteratorSpec::decrease(&it)->0,
    {
        match it.next() {
            Some(c) => {
                v.push(c);
            },
            None => {
                proof {
                    assert(v@ =~= s@);
                }
                break ;
            },
        }
    }
    v
}

/// `s` without its trailing whitespace (`str::trim_end`).
pub open spec fn trim_end(s: Seq<char>) -> Seq<char>
    decreases s.len(),
{
    if s.len() > 0 && is_ws(s.last()) {
        trim_end(s.drop_last())
    } else {
        s
    }
}

/// `s` begins with `p`.
pub open spec fn starts_with(s: Seq<char>, p: Seq<char>) -> bool {
    p.len() <= s.len() && s.subrange(0, p.len() as int) == p
}

/// `p` occurs in `s` at position `i`.
pub open spec fn occurs_at(s: Seq<char>, p: Seq<char>, i: int) -> bool {
    0 <= i && i + p.len() <= s.len() && s.subrange(i, i + p.len()) == p
}

/// `p` occurs somewhere in `s`.
pub open spec fn contains(s: Seq<char>, p: Seq<char>) -> bool {
    exists|i: int| occurs_at(s, p, i)
}

/// The whitespace-separated words of `s` (`str::split_whitespace`).
pub open spec fn tokens(s: Seq<char>) -> Seq<Seq<char>>
    decreases s.len(),
{
    if s.len() == 0 {
        seq![]
    } else {
        let prev = tokens(s.drop_last());
        let c = s.last();
        if is_ws(c) {
            prev
        } else if s.len() >= 2 && !is_ws(s[s.len() - 2]) {
            prev.update(prev.len() - 1, prev.last().push(c))
        } else {
            prev.push(seq![c])
        }
    }
}

/// An ASCII decimal digit.
pub open spec fn is_digit_char(c: char) -> bool {
    '0' <= c <= '9'
}

/// Value of a string of decimal digits.
pub open spec fn decimal_value(s: Seq<char>) -> nat
    decreases s.len(),
{
    if s.len() == 0 {
        0
    } else {
        decimal_value(s.drop_last()) * 10 + ((s.last() as u32) - 48) as nat
    }
}

/// Every character of `d` is a decimal digit.
pub open spec fn all_digit_chars(d: Seq<char>) -> bool {
    forall|i: int| 0 <= i < d.len() ==> is_digit_char(#[trigger] d[i])
}

/// The digits of an unsigned number: `t` without a leading `+`.
pub open spec fn unsigned_digits(t: Seq<char>) -> Seq<char> {
    if t.len() > 0 && t[0] == '+' {
        t.subrange(1, t.len() as int)
    } else {
        t
    }
}

/// `from_str` for an unsigned type whose largest value is `max`: an
/// optional `+`, then at least one digit, of a value that fits.
pub open spec fn parse_unsigned(t: Seq<char>, max: int) -> Option<int> {
    let d = unsigned_digits(t);
    if d.len() > 0 && all_digit_chars(d) && decimal_value(d) <= max {
        Some(decimal_value(d) as int)
    } else {
        None
    }
}

/// `usize::from_str`.
pub open spec fn parse_usize(t: Seq<char>) -> Option<usize> {
    match parse_unsigned(t, usize::MAX as int) {
        Some(v) => Some(v as usize),
        None => None,
    }
}

pub proof fn lemma_tokens_nonempty(s: Seq<char>)
    requires
        s.len() > 0,
        !is_ws(s.last()),
    ensures
        tokens(s).len() > 0,
    decreases s.len(),
{
    if s.len() >= 2 && !is_ws(s[s.len() - 2]) {
        lemma_tokens_nonempty(s.drop_last());
    }
}

/// Length of `s` without its trailing whitespace.
pub fn trimmed_len(s: &[char]) -> (n: usize)
    ensures
        n <= s@.len(),
        s@.subrange(0, n as int) == trim_end(s@),
{
    let mut n = s.len();
    proof {
        assert(s@.subrange(0, n as int) =~= s@);
    }
    while n > 0 && is_ws_exec(s[n - 1])
        invariant
            n <= s@.len(),
            trim_end(s@.subrange(0, n as int)) == trim_end(s@),
        decreases n,
    {
        proof {
            assert(s@.subrange(0, n as int).drop_last() =~= s@.subrange(0, n - 1));
        }
        n -= 1;
    }
    n
}

pub fn starts_with_exec(s: &[char], p: &[char]) -> (b: bool)
    ensures
        b == starts_with(s@, p@),
{
    if p.len() > s.len() {
        return false;
    }
    let mut i: usize = 0;
    while i < p.len()
        invariant
            p@.len() <= s@.len(),
            i <= p@.len(),
            forall|j: int| 0 <= j < i ==> s@[j] == p@[j],
        decreases p@.len() - i,
    {
        if s[i] != p[i] {
            proof {
                assert(s@.subrange(0, p@.len() as int)[i as int] != p@[i as int]);
            }
            return false;
        }
        i += 1;
    }
    proof {
        assert(s@.subrange(0, p@.len() as int) =~= p@);
    }
    true
}

pub fn occurs_at_exec(s: &[char], p: &[char], i: usize) -> (b: bool)
    requires
        i + p@.len() <= s@.len(),
    ensures
        b == occurs_at(s@, p@, i as int),
{
    let mut j: usize = 0;
    let sl = s.len();
    while j < p.len()
        invariant
            sl == s@.len(),
            i + p@.len() <= s@.len(),
            j <= p@.len(),
            forall|k: int| 0 <= k < j ==> s@[i + k] == p@[k],
        decreases p@.len() - j,
    {
        assert(i + j < s@.len());
        if s[i + j] != p[j] {
            proof {
                assert(s@.subrange(i as int, i + p@.len())[j as int] != p@[j as int]);
            }
            return false;
        }
        j += 1;
    }
    proof {
        assert(s@.subrange(i as int, i + p@.len()) =~= p@);
    }
    true
}

pub fn contains_exec(s: &[char], p: &[char]) -> (b: bool)
    ensures
        b == contains(s@, p@),
{
    if p.len() > s.len() {
        return false;
    }
    if p.len() == 0 {
        proof {
            assert(s@.subrange(0, 0) =~= p@);
            assert(occurs_at(s@, p@, 0));
        }
        return true;
    }
    let last = s.len() - p.len();
    let mut i: usize = 0;
    while i <= last
        invariant
            last == s@.len() - p@.len(),
            1 <= p@.len() <= s@.len(),
            s@.len() <= usize::MAX,
            i <= last + 1,
            forall|k: int| 0 <= k < i ==> !occurs_at(s@, p@, k),
        decreases last + 1 - i,
    {
        if occurs_at_exec(s, p, i) {
            return true;
        }
        i += 1;
    }
    false
}

/// The views of a list of character vectors.
pub open spec fn char_views(v: Seq<Vec<char>>) -> Seq<Seq<char>> {
    Seq::new(v.len(), |i: int| v[i]@)
}

pub fn tokens_of(s: &[char]) -> (toks: Vec<Vec<char>>)
    ensures
        char_views(toks@) == tokens(s@),
{
    let mut toks: Vec<Vec<char>> = Vec::new();
    let mut i: usize = 0;
    proof {
        assert(s@.subrange(0, 0) =~= Seq::<char>::empty());
        assert(char_views(toks@) =~= tokens(s@.subrange(0, 0)));
    }
    while i < s.len()
        invariant
            i <= s@.len(),
            char_views(toks@) == tokens(s@.subrange(0, i as int)),
        decreases s@.len() - i,
    {
        let c = s[i];
        let ghost pre = s@.subrange(0, i as int);
        let ghost cur = s@.subrange(0, i + 1);
        proof {
            assert(cur.drop_last() =~= pre);
            assert(cur.last() == c);
        }
        if is_ws_exec(c) {
        } else if i >= 1 && !is_ws_exec(s[i - 1]) {
            proof {
                assert(pre.last() == s@[i - 1]);
                lemma_tokens_nonempty(pre);
                assert(cur[cur.len() - 2] == s@[i - 1]);
            }
            let mut word = toks.pop().unwrap();
            word.push(c);
            toks.push(word);
        } else {
            let mut word: Vec<char> = Vec::new();
            word.push(c);
            toks.push(word);
            proof {
                assert(word@ =~= seq![c]);
            }
        }
        proof {
            assert(char_views(toks@) =~= tokens(cur));
        }
        i += 1;
    }
    proof {
        assert(s@.subrange(0, s@.len() as int) =~= s@);
    }
    toks
}

/// Parses `t` as an unsigned number of at most `max` (see
/// [`parse_unsigned`]).
pub fn parse_unsigned_exec(t: &[char], max: u64) -> (r: Option<u64>)
    ensures
        match parse_unsigned(t@, max as int) {
            Some(v) => r == Some(v as u64),
            None => r is None,
        },
{
    let start: usize = if t.len() > 0 && t[0] == '+' {
        1
    } else {
        0
    };
    let ghost d = unsigned_digits(t@);
    proof {
        assert(d =~= t@.subrange(start as int, t@.len() as int));
    }
    if start >= t.len() {
        return None;
    }
    let mut value: u64 = 0;
    let mut i: usize = start;
    while i < t.len()
        invariant
            start <= i <= t@.len(),
            d == t@.subrange(start as int, t@.len() as int),
            d == unsigned_digits(t@),
            forall|k: int| start <= k < i ==> is_digit_char(#[trigger] t@[k]),
            value == decimal_value(t@.subrange(start as int, i as int)),
            value <= max,
        decreases t@.len() - i,
    {
        let c = t[i];
        let ghost pre = t@.subrange(start as int, i as int);
        let ghost cur = t@.subrange(start as int, i + 1);
        proof {
            assert(cur.drop_last() =~= pre);
            assert(cur.last() == c);
        }
        if !('0' <= c && c <= '9') {
            proof {
                assert(d[i - start] == c);
                assert(!is_digit_char(d[(i - start) as int]));
            }
            return None;
        }
        let digit = (c as u32 - 48) as u128;
        let next: u128 = value as u128 * 10 + digit;
        if next > max as u128 {
            proof {
                assert(decimal_value(cur) == value * 10 + digit);
                assert(cur =~= d.subrange(0, i + 1 - start));
                if all_digit_chars(d) {
                    lemma_decimal_value_prefix_bound(d, i + 1 - start);
                    assert(decimal_value(d) > max);
                }
            }
            return None;
        }
        value = next as u64;
        i += 1;
    }
    proof {
        assert(t@.subrange(start as int, t@.len() as int) =~= d);
        assert forall|k: int| 0 <= k < d.len() implies is_digit_char(#[trigger] d[k]) by {
            assert(d[k] == t@[start + k]);
        }
        assert(all_digit_chars(d));
    }
    Some(value)
}

pub fn parse_usize_exec(t: &[char]) -> (r: Option<usize>)
    ensures
        r == parse_usize(t@),
{
    match parse_unsigned_exec(t, usize::MAX as u64) {
        Some(v) => Some(v as usize),
        None => None,
    }
}

/// A prefix of a digit string has no larger value than the whole.
pub proof fn lemma_decimal_value_prefix_bound(d: Seq<char>, n: int)
    requires
        0 <= n <= d.len(),
        forall|i: int| 0 <= i < d.len() ==> is_digit_char(#[trigger] d[i]),
    ensures
        decimal_value(d.subrange(0, n)) <= decimal_value(d),
    decreases d.len() - n,
{
    if n < d.len() {
        lemma_decimal_value_prefix_bound(d, n + 1);
        let a = d.subrange(0, n + 1);
        assert(a.drop_last() =~= d.subrange(0, n));
        assert(decimal_value(a) == decimal_value(d.subrange(0, n)) * 10 + ((a.last() as u32)
            - 48) as nat);
    } else {
        assert(d.subrange(0, n) =~= d);
    }
}

pub proof fn lemma_trim_end_shape(s: Seq<char>)
    ensures
        trim_end(s).len() <= s.len(),
        trim_end(s) == s.subrange(0, trim_end(s).len() as int),
        trim_end(s).len() > 0 ==> !is_ws(trim_end(s).last()),
    decreases s.len(),
{
    if s.len() > 0 && is_ws(s.last()) {
        lemma_trim_end_shape(s.drop_last());
        assert(s.drop_last().subrange(0, trim_end(s).len() as int) =~= s.subrange(
            0,
            trim_end(s).len() as int,
        ));
    } else {
        assert(s.subrange(0, s.len() as int) =~= s);
    }
}

pub fn copy_chars(s: &[char]) -> (v: Vec<char>)
    ensures
        v@ == s@,
{
    let mut v: Vec<char> = Vec::new();
    let mut i: usize = 0;
    while i < s.len()
        invariant
            i <= s@.len(),
            v@ == s@.subrange(0, i as int),
        decreases s@.len() - i,
    {
        v.push(s[i]);
        proof {
            assert(s@.subrange(0, i + 1) =~= s@.subrange(0, i as int).push(s@[i as int]));
        }
        i += 1;
    }
    proof {
        assert(s@.subrange(0, s@.len() as int) =~= s@);
    }
    v
}

pub fn chars_eq(a: &[char], b: &[char]) -> (e: bool)
    ensures
        e == (a@ == b@),
{
    if a.len() != b.len() {
        return false;
    }
    let r = starts_with_exec(a, b);
    proof {
        assert(a@.subrange(0, b@.len() as int) =~= a@);
    }
    r
}

/// `s` without its leading whitespace (`str::trim_start`).
pub open spec fn trim_start(s: Seq<char>) -> Seq<char>
    decreases s.len(),
{
    if s.len() > 0 && is_ws(s[0]) {
        trim_start(s.subrange(1, s.len() as int))
    } else {
        s
    }
}

/// `s` without whitespace at either end (`str::trim`).
pub open spec fn trim(s: Seq<char>) -> Seq<char> {
    trim_start(trim_end(s))
}

/// Bounds of `s` without whitespace at either end.
pub fn trim_bounds(s: &[char]) -> (r: (usize, usize))
    ensures
        r.0 <= r.1 <= s@.len(),
        s@.subrange(r.0 as int, r.1 as int) == trim(s@),
{
    let end = trimmed_len(s);
    let ghost t = s@.subrange(0, end as int);
    let mut start: usize = 0;
    proof {
        assert(t.subrange(0, t.len() as int) =~= t);
    }
    while start < end && is_ws_exec(s[start])
        invariant
            end <= s@.len(),
            t == s@.subrange(0, end as int),
            start <= end,
            trim_start(t.subrange(start as int, end as int)) == trim_start(t),
        decreases end - start,
    {
        proof {
            let a = t.subrange(start as int, end as int);
            assert(a[0] == s@[start as int]);
            assert(a.subrange(1, a.len() as int) =~= t.subrange(start + 1, end as int));
        }
        start += 1;
    }
    proof {
        let a = t.subrange(start as int, end as int);
        if start < end {
            assert(a[0] == s@[start as int]);
        }
        assert(a =~= s@.subrange(start as int, end as int));
    }
    (start, end)
}

/// The pieces of `s` between commas (`str::split(',')`): one more than
/// there are commas, empty pieces included.
pub open spec fn split_commas(s: Seq<char>) -> Seq<Seq<char>>
    decreases s.len(),
{
    if s.len() == 0 {
        seq![seq![]]
    } else {
        let prev = split_commas(s.drop_last());
        if s.last() == ',' {
            prev.push(seq![])
        } else {
            prev.update(prev.len() - 1, prev.last().push(s.last()))
        }
    }
}

proof fn lemma_split_commas_nonempty(s: Seq<char>)
    ensures
        split_commas(s).len() >= 1,
    decreases s.len(),
{
    if s.len() > 0 {
        lemma_split_commas_nonempty(s.drop_last());
    }
}

/// The pieces of `s` between commas.
pub fn split_commas_exec(s: &[char]) -> (pieces: Vec<Vec<char>>)
    ensures
        char_views(pieces@) == split_commas(s@),
{
    let mut pieces: Vec<Vec<char>> = Vec::new();
    pieces.push(Vec::new());
    let mut i: usize = 0;
    proof {
        assert(s@.subrange(0, 0) =~= Seq::<char>::empty());
        assert(char_views(pieces@) =~= split_commas(s@.subrange(0, 0)));
    }
    while i < s.len()
        invariant
            i <= s@.len(),
            char_views(pieces@) == split_commas(s@.subrange(0, i as int)),
        decreases s@.len() - i,
    {
        let c = s[i];
        let ghost pre = s@.subrange(0, i as int);
        let ghost cur = s@.subrange(0, i + 1);
        proof {
            assert(cur.drop_last() =~= pre);
            assert(cur.last() == c);
            lemma_split_commas_nonempty(pre);
        }
        if c == ',' {
            pieces.push(Vec::new());
            proof {
                assert(pieces@.last()@ =~= Seq::<char>::empty());
            }
        } else {
            let mut last = pieces.pop().unwrap();
            last.push(c);
            pieces.push(last);
        }
        proof {
            assert(char_views(pieces@) =~= split_commas(cur));
        }
        i += 1;
    }
    proof {
        assert(s@.subrange(0, s@.len() as int) =~= s@);
    }
    pieces
}

} // verus!
