use vstd::prelude::*;

verus! {

/// `a` is the start of `w`.
pub open spec fn is_prefix(a: Seq<char>, w: Seq<char>) -> bool {
    a.len() <= w.len() && w.subrange(0, a.len() as int) == a
}

/// `a` is the end of `w`.
pub open spec fn is_suffix(a: Seq<char>, w: Seq<char>) -> bool {
    a.len() <= w.len() && w.subrange(w.len() - a.len(), w.len() as int) == a
}

/// Character-wise equality of two strings.
pub fn same_text(a: &str, b: &str) -> (r: bool)
    ensures
        r == (a@ == b@),
{
    let n = a.unicode_len();
    let m = b.unicode_len();
    if n != m {
        return false;
    }
    let mut i: usize = 0;
    while i < n
        invariant
            n == a@.len(),
            m == b@.len(),
            n == m,
            i <= n,
            forall|k: int| 0 <= k < i ==> a@[k] == b@[k],
        decreases n - i,
    {
        if a.get_char(i) != b.get_char(i) {
            return false;
        }
        i = i + 1;
    }
    proof {
        assert(a@ =~= b@);
    }
    true
}

/// Whether `w` begins with `a`.
pub fn starts_with_text(w: &str, a: &str) -> (r: bool)
    ensures
        r == is_prefix(a@, w@),
{
    let n = w.unicode_len();
    let m = a.unicode_len();
    if m > n {
        return false;
    }
    let mut i: usize = 0;
    while i < m
        invariant
            n == w@.len(),
            m == a@.len(),
            m <= n,
            i <= m,
            forall|k: int| 0 <= k < i ==> w@[k] == a@[k],
        decreases m - i,
    {
        if w.get_char(i) != a.get_char(i) {
            proof {
                assert(w@.subrange(0, m as int)[i as int] != a@[i as int]);
            }
            return false;
        }
        i = i + 1;
    }
    proof {
        assert(w@.subrange(0, m as int) =~= a@);
    }
    true
}

/// Whether `w` ends with `a`.
pub fn ends_with_text(w: &str, a: &str) -> (r: bool)
    ensures
        r == is_suffix(a@, w@),
{
    let n = w.unicode_len();
    let m = a.unicode_len();
    if m > n {
        return false;
    }
    let off = n - m;
    let mut i: usize = 0;
    while i < m
        invariant
            n == w@.len(),
            m == a@.len(),
            m <= n,
            off == n - m,
            i <= m,
            forall|k: int| 0 <= k < i ==> w@[off + k] == a@[k],
        decreases m - i,
    {
        if w.get_char(off + i) != a.get_char(i) {
            proof {
                assert(w@.subrange(off as int, n as int)[i as int] != a@[i as int]);
            }
            return false;
        }
        i = i + 1;
    }
    proof {
        assert(w@.subrange(off as int, n as int) =~= a@);
    }
    true
}

/// The characters of `w` from index `from` up to `to`, as a new string.
pub fn slice_text(w: &str, from: usize, to: usize) -> (r: String)
    requires
        from <= to <= w@.len(),
    ensures
        r@ == w@.subrange(from as int, to as int),
{
    let part = w.substring_char(from, to);
    String::from_str(part)
}

/// Rust's notion of white space (`char::is_whitespace`).
pub open spec fn is_ws(c: char) -> bool {
    c == '\t' || c == '\n' || c == '\u{0B}' || c == '\u{0C}' || c == '\r' || c == ' '
        || c == '\u{85}' || c == '\u{A0}' || c == '\u{1680}' || ('\u{2000}' <= c && c <= '\u{200A}')
        || c == '\u{2028}' || c == '\u{2029}' || c == '\u{202F}' || c == '\u{205F}' || c
        == '\u{3000}'
}

pub fn is_ws_char(c: char) -> (r: bool)
    ensures
        r == is_ws(c),
{
    c == '\t' || c == '\n' || c == '\u{0B}' || c == '\u{0C}' || c == '\r' || c == ' ' || c
        == '\u{85}' || c == '\u{A0}' || c == '\u{1680}' || ('\u{2000}' <= c && c <= '\u{200A}')
        || c == '\u{2028}' || c == '\u{2029}' || c == '\u{202F}' || c == '\u{205F}' || c
        == '\u{3000}'
}

/// The white-space separated tokens of `l` from position `i` on, where `acc`
/// holds those already complete and, when `inside`, a token began at `start`.
pub open spec fn token_scan(
    l: Seq<char>,
    i: int,
    inside: bool,
    start: int,
    acc: Seq<Seq<char>>,
) -> Seq<Seq<char>>
    decreases l.len() - i,
{
    if i >= l.len() {
        if inside {
            acc.push(l.subrange(start, l.len() as int))
        } else {
            acc
        }
    } else if is_ws(l[i]) {
        token_scan(
            l,
            i + 1,
            false,
            0,
            if inside {
                acc.push(l.subrange(start, i))
            } else {
                acc
            },
        )
    } else if inside {
        token_scan(l, i + 1, true, start, acc)
    } else {
        token_scan(l, i + 1, true, i, acc)
    }
}

/// The maximal runs of non-white-space characters of `l`, in order.
pub open spec fn tokens(l: Seq<char>) -> Seq<Seq<char>> {
    token_scan(l, 0, false, 0, Seq::empty())
}

/// Splits `line` at white space, as `str::split_whitespace` does.
pub fn split_tokens(line: &str) -> (r: Vec<String>)
    ensures
        texts_of(r@) == tokens(line@),
{
    let n = line.unicode_len();
    let mut out: Vec<String> = Vec::new();
    let mut inside = false;
    let mut start: usize = 0;
    let mut i: usize = 0;
    proof {
        assert(texts_of(out@) =~= Seq::<Seq<char>>::empty());
    }
    while i < n
        invariant
            n == line@.len(),
            i <= n,
            start <= i,
            token_scan(line@, i as int, inside, start as int, texts_of(out@)) == tokens(line@),
        decreases n - i,
    {
        let c = line.get_char(i);
        if is_ws_char(c) {
            if inside {
                let t = slice_text(line, start, i);
                proof {
                    assert(texts_of(out@.push(t)) =~= texts_of(out@).push(t@));
                }
                out.push(t);
            }
            inside = false;
            start = 0;
        } else if !inside {
            inside = true;
            start = i;
        }
        i = i + 1;
    }
    if inside {
        let t = slice_text(line, start, n);
        proof {
            assert(texts_of(out@.push(t)) =~= texts_of(out@).push(t@));
        }
        out.push(t);
    }
    out
}

/// The texts held by a sequence of strings.
pub open spec fn texts_of(v: Seq<String>) -> Seq<Seq<char>> {
    v.map_values(|s: String| s@)
}

pub open spec fn is_digit(c: char) -> bool {
    '0' <= c && c <= '9'
}

/// The number that a run of decimal digits writes.
pub open spec fn digits_value(s: Seq<char>) -> int
    decreases s.len(),
{
    if s.len() == 0 {
        0
    } else {
        10 * digits_value(s.drop_last()) + (s.last() as int - '0' as int)
    }
}

pub open spec fn all_digits(s: Seq<char>) -> bool {
    forall|k: int| 0 <= k < s.len() ==> is_digit(#[trigger] s[k])
}

/// The value of `s` when it is a non-empty run of digits whose value is at most
/// `limit`.
pub open spec fn bounded_digits(s: Seq<char>, limit: int) -> Option<int> {
    if s.len() > 0 && all_digits(s) && digits_value(s) <= limit {
        Some(digits_value(s))
    } else {
        None
    }
}

proof fn lemma_digits_nonneg(s: Seq<char>)
    requires
        all_digits(s),
    ensures
        digits_value(s) >= 0,
    decreases s.len(),
{
    if s.len() > 0 {
        assert(all_digits(s.drop_last())) by {
            assert forall|k: int| 0 <= k < s.drop_last().len() implies is_digit(
                #[trigger] s.drop_last()[k],
            ) by {
                assert(s.drop_last()[k] == s[k]);
            }
        }
        lemma_digits_nonneg(s.drop_last());
        assert(is_digit(s[s.len() - 1]));
    }
}

proof fn lemma_digits_grow(s: Seq<char>, k: int, j: int)
    requires
        0 <= k <= j <= s.len(),
        all_digits(s),
    ensures
        digits_value(s.subrange(0, k)) <= digits_value(s.subrange(0, j)),
    decreases j - k,
{
    if k < j {
        lemma_digits_grow(s, k, j - 1);
        assert(s.subrange(0, j).drop_last() =~= s.subrange(0, j - 1));
        assert(is_digit(s[j - 1]));
        assert(all_digits(s.subrange(0, j - 1))) by {
            assert forall|m: int| 0 <= m < j - 1 implies is_digit(
                #[trigger] s.subrange(0, j - 1)[m],
            ) by {
                assert(s.subrange(0, j - 1)[m] == s[m]);
            }
        }
        lemma_digits_nonneg(s.subrange(0, j - 1));
    }
}

/// Reads a run of decimal digits whose value is at most `limit`.
pub fn parse_digits(s: &str, from: usize, limit: u64) -> (r: Option<u64>)
    requires
        from <= s@.len(),
    ensures
        match r {
            Some(v) => bounded_digits(s@.subrange(from as int, s@.len() as int), limit as int)
                == Some(v as int),
            None => bounded_digits(s@.subrange(from as int, s@.len() as int), limit as int).is_none(),
        },
{
    let ghost d = s@.subrange(from as int, s@.len() as int);
    let n = s.unicode_len();
    if from == n {
        return None;
    }
    let mut v: u64 = 0;
    let mut i: usize = from;
    while i < n
        invariant
            n == s@.len(),
            from <= i <= n,
            d == s@.subrange(from as int, s@.len() as int),
            forall|k: int| 0 <= k < i - from ==> is_digit(#[trigger] d[k]),
            v as int == digits_value(d.subrange(0, i - from)),
            v <= limit,
        decreases n - i,
    {
        let c = s.get_char(i);
        if !('0' <= c && c <= '9') {
            proof {
                assert(d[i - from] == c);
            }
            return None;
        }
        let digit = (c as u32 - '0' as u32) as u64;
        proof {
            assert(d.subrange(0, i + 1 - from).drop_last() =~= d.subrange(0, i - from));
            assert(d.subrange(0, i + 1 - from).last() == c);
        }
        if digit > limit || v > (limit - digit) / 10 {
            proof {
                assert(digits_value(d.subrange(0, i + 1 - from)) > limit) by (nonlinear_arith)
                    requires
                        digits_value(d.subrange(0, i + 1 - from)) == 10 * v + digit,
                        digit > limit || v > (limit - digit) / 10,
                {
                }
                if all_digits(d) {
                    lemma_digits_grow(d, i + 1 - from, d.len() as int);
                    assert(d.subrange(0, d.len() as int) =~= d);
                }
            }
            return None;
        }
        v = v * 10 + digit;
        i = i + 1;
    }
    proof {
        assert(d.subrange(0, d.len() as int) =~= d);
    }
    Some(v)
}

} // verus!
