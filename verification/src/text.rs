//! Character-level text utilities: whitespace handling, trimming, line and
//! token splitting, decimal numbers, and code-point ordering.
//!
//! Every word operation in this crate is defined over characters (code
//! points), never bytes; the spec functions here are the shared vocabulary
//! for those definitions.

use vstd::prelude::*;

verus! {

/// A whitespace character, following the Unicode `White_Space` property
/// (the set honoured by `str::trim` and `str::split_whitespace`).
pub open spec fn is_ws_char(c: char) -> bool {
    let u = c as u32;
    (9 <= u && u <= 13) || u == 32 || u == 0x85 || u == 0xA0 || u == 0x1680 || (0x2000 <= u
        && u <= 0x200A) || u == 0x2028 || u == 0x2029 || u == 0x202F || u == 0x205F || u == 0x3000
}

#[verifier::when_used_as_spec(is_ws_char)]
pub fn is_ws(c: char) -> (r: bool)
    ensures
        r == is_ws_char(c),
{
    let u = c as u32;
    (9 <= u && u <= 13) || u == 32 || u == 0x85 || u == 0xA0 || u == 0x1680 || (0x2000 <= u
        && u <= 0x200A) || u == 0x2028 || u == 0x2029 || u == 0x202F || u == 0x205F || u == 0x3000
}

/// An ASCII decimal digit.
pub open spec fn is_digit_char(c: char) -> bool {
    48 <= c as u32 && c as u32 <= 57
}

#[verifier::when_used_as_spec(is_digit_char)]
pub fn is_digit(c: char) -> (r: bool)
    ensures
        r == is_digit_char(c),
{
    let u = c as u32;
    48 <= u && u <= 57
}

/// An ASCII letter.
pub open spec fn is_ascii_alpha_char(c: char) -> bool {
    (65 <= c as u32 && c as u32 <= 90) || (97 <= c as u32 && c as u32 <= 122)
}

#[verifier::when_used_as_spec(is_ascii_alpha_char)]
pub fn is_ascii_alpha(c: char) -> (r: bool)
    ensures
        r == is_ascii_alpha_char(c),
{
    let u = c as u32;
    (65 <= u && u <= 90) || (97 <= u && u <= 122)
}

/// An ASCII upper-case letter.
pub open spec fn is_ascii_upper_char(c: char) -> bool {
    65 <= c as u32 && c as u32 <= 90
}

#[verifier::when_used_as_spec(is_ascii_upper_char)]
pub fn is_ascii_upper(c: char) -> (r: bool)
    ensures
        r == is_ascii_upper_char(c),
{
    let u = c as u32;
    65 <= u && u <= 90
}

/// Character-by-character string equality.
pub fn str_eq(a: &str, b: &str) -> (r: bool)
    ensures
        r == (a@ == b@),
{
    let alen = a.unicode_len();
    let blen = b.unicode_len();
    if alen != blen {
        return false;
    }
    let mut i: usize = 0;
    while i < alen
        invariant
            i <= alen,
            alen == a@.len(),
            alen == b@.len(),
            forall|j: int| 0 <= j < i ==> a@[j] == b@[j],
        decreases alen - i,
    {
        if a.get_char(i) != b.get_char(i) {
            return false;
        }
        i += 1;
    }
    proof {
        assert(a@ =~= b@);
    }
    true
}

/// Whether `p` is a character-level prefix of `s`.
pub fn str_starts_with(s: &str, p: &str) -> (r: bool)
    ensures
        r == p@.is_prefix_of(s@),
{
    let slen = s.unicode_len();
    let plen = p.unicode_len();
    if plen > slen {
        return false;
    }
    let mut i: usize = 0;
    while i < plen
        invariant
            i <= plen,
            plen <= slen,
            plen == p@.len(),
            slen == s@.len(),
            forall|j: int| 0 <= j < i ==> s@[j] == p@[j],
        decreases plen - i,
    {
        if s.get_char(i) != p.get_char(i) {
            return false;
        }
        i += 1;
    }
    proof {
        assert(p@ =~= s@.subrange(0, p@.len() as int));
    }
    true
}

/// Whether `p` is a character-level suffix of `s`.
pub fn str_ends_with(s: &str, p: &str) -> (r: bool)
    ensures
        r == p@.is_suffix_of(s@),
{
    let slen = s.unicode_len();
    let plen = p.unicode_len();
    if plen > slen {
        return false;
    }
    let off = slen - plen;
    let mut i: usize = 0;
    while i < plen
        invariant
            i <= plen,
            plen <= slen,
            off == slen - plen,
            plen == p@.len(),
            slen == s@.len(),
            forall|j: int| 0 <= j < i ==> s@[off + j] == p@[j],
        decreases plen - i,
    {
        if s.get_char(off + i) != p.get_char(i) {
            return false;
        }
        i += 1;
    }
    proof {
        assert(p@ =~= s@.subrange(s@.len() - p@.len(), s@.len() as int));
    }
    true
}

/// The leading whitespace of `s` removed.
pub open spec fn trim_start_spec(s: Seq<char>) -> Seq<char>
    decreases s.len(),
{
    if s.len() > 0 && is_ws_char(s[0]) {
        trim_start_spec(s.skip(1))
    } else {
        s
    }
}

/// The trailing whitespace of `s` removed.
pub open spec fn trim_end_spec(s: Seq<char>) -> Seq<char>
    decreases s.len(),
{
    if s.len() > 0 && is_ws_char(s[s.len() - 1]) {
        trim_end_spec(s.drop_last())
    } else {
        s
    }
}

/// Leading and trailing whitespace removed.
pub open spec fn trim_spec(s: Seq<char>) -> Seq<char> {
    trim_end_spec(trim_start_spec(s))
}

proof fn lemma_trim_start_at(s: Seq<char>, i: int)
    requires
        0 <= i <= s.len(),
        forall|j: int| 0 <= j < i ==> is_ws_char(s[j]),
        i < s.len() ==> !is_ws_char(s[i]),
    ensures
        trim_start_spec(s) == s.skip(i),
    decreases i,
{
    if i == 0 {
        if s.len() > 0 && is_ws_char(s[0]) {
            assert(false);
        }
        assert(s.skip(0) =~= s);
    } else {
        assert(is_ws_char(s[0]));
        let t = s.skip(1);
        assert forall|j: int| 0 <= j < i - 1 implies is_ws_char(t[j]) by {
            assert(t[j] == s[j + 1]);
        }
        lemma_trim_start_at(t, i - 1);
        assert(t.skip(i - 1) =~= s.skip(i));
    }
}

proof fn lemma_trim_end_at(s: Seq<char>, j: int)
    requires
        0 <= j <= s.len(),
        forall|k: int| j <= k < s.len() ==> is_ws_char(s[k]),
        j > 0 ==> !is_ws_char(s[j - 1]),
    ensures
        trim_end_spec(s) == s.take(j),
    decreases s.len() - j,
{
    if j == s.len() {
        if s.len() > 0 && is_ws_char(s[s.len() - 1]) {
            assert(false);
        }
        assert(s.take(j) =~= s);
    } else {
        assert(is_ws_char(s[s.len() - 1]));
        let t = s.drop_last();
        lemma_trim_end_at(t, j);
        assert(t.take(j) =~= s.take(j));
    }
}

/// `str::trim` with a character-level contract.
pub fn trim(s: &str) -> (r: &str)
    ensures
        r@ == trim_spec(s@),
{
    let n = s.unicode_len();
    let mut i: usize = 0;
    while i < n && is_ws(s.get_char(i))
        invariant
            i <= n,
            n == s@.len(),
            forall|j: int| 0 <= j < i ==> is_ws_char(s@[j]),
        decreases n - i,
    {
        i += 1;
    }
    let mut j: usize = n;
    while j > i && is_ws(s.get_char(j - 1))
        invariant
            i <= j <= n,
            n == s@.len(),
            forall|k: int| j <= k < n ==> is_ws_char(s@[k]),
        decreases j,
    {
        j -= 1;
    }
    proof {
        lemma_trim_start_at(s@, i as int);
        let t = s@.skip(i as int);
        if j == i {
            lemma_trim_end_at(t, 0);
        } else {
            assert(!is_ws_char(s@[j - 1]));
            assert forall|k: int| j - i <= k < t.len() implies is_ws_char(t[k]) by {
                assert(t[k] == s@[k + i]);
            }
            assert(t[j - i - 1] == s@[j - 1]);
            lemma_trim_end_at(t, j - i);
        }
        assert(trim_spec(s@) =~= s@.subrange(i as int, j as int));
    }
    s.substring_char(i, j)
}

/// A line accumulator: `cur` is the text gathered since the last newline.
/// Lines are separated by `'\n'`; a `'\r'` immediately before the separator
/// is dropped; a final line without a separator is kept, an empty tail is not.
pub open spec fn lines_go(s: Seq<char>, cur: Seq<char>) -> Seq<Seq<char>>
    decreases s.len(),
{
    if s.len() == 0 {
        if cur.len() == 0 {
            Seq::empty()
        } else {
            seq![cur]
        }
    } else if s[0] == '\n' {
        seq![strip_tail_cr(cur)] + lines_go(s.skip(1), Seq::empty())
    } else {
        lines_go(s.skip(1), cur.push(s[0]))
    }
}

/// `cur` without a trailing carriage return, if it has one.
pub open spec fn strip_tail_cr(cur: Seq<char>) -> Seq<char> {
    if cur.len() > 0 && cur[cur.len() - 1] == '\r' {
        cur.drop_last()
    } else {
        cur
    }
}

/// The lines of `s`, as `str::lines` yields them.
pub open spec fn lines_spec(s: Seq<char>) -> Seq<Seq<char>> {
    lines_go(s, Seq::empty())
}

/// Splits `s` into lines at `'\n'`, dropping a `'\r'` before each separator.
pub fn split_lines(s: &str) -> (r: Vec<String>)
    ensures
        r.deep_view() == lines_spec(s@),
{
    let n = s.unicode_len();
    let mut out: Vec<String> = Vec::new();
    let mut start: usize = 0;
    let mut i: usize = 0;
    proof {
        assert(s@.skip(0) =~= s@);
        assert(s@.subrange(0, 0) =~= Seq::<char>::empty());
    }
    while i < n
        invariant
            start <= i <= n,
            n == s@.len(),
            out.deep_view() + lines_go(s@.skip(i as int), s@.subrange(start as int, i as int))
                =~= lines_spec(s@),
        decreases n - i,
    {
        let ghost cur = s@.subrange(start as int, i as int);
        let ghost rest = s@.skip(i as int);
        proof {
            assert(rest[0] == s@[i as int]);
            assert(rest.skip(1) =~= s@.skip(i as int + 1));
        }
        let c = s.get_char(i);
        if c == '\n' {
            let line = if i > start && s.get_char(i - 1) == '\r' {
                s.substring_char(start, i - 1)
            } else {
                s.substring_char(start, i)
            };
            proof {
                if i > start && s@[i as int - 1] == '\r' {
                    assert(cur.len() > 0 && cur[cur.len() - 1] == '\r');
                    assert(line@ =~= cur.drop_last());
                } else {
                    if cur.len() > 0 {
                        assert(cur[cur.len() - 1] == s@[i as int - 1]);
                    }
                    assert(line@ =~= cur);
                }
                assert(line@ == strip_tail_cr(cur));
            }
            let lstr = line.to_owned();
            out.push(lstr);
            proof {
                assert(out.deep_view() =~= out.deep_view().subrange(
                    0,
                    out.deep_view().len() - 1,
                ).push(line@));
                assert(s@.subrange(i as int + 1, i as int + 1) =~= Seq::<char>::empty());
                assert(out.deep_view() + lines_go(
                    s@.skip(i as int + 1),
                    s@.subrange(i as int + 1, i as int + 1),
                ) =~= lines_spec(s@));
            }
            start = i + 1;
        } else {
            proof {
                assert(cur.push(s@[i as int]) =~= s@.subrange(start as int, i as int + 1));
            }
        }
        i += 1;
    }
    proof {
        assert(s@.skip(n as int) =~= Seq::<char>::empty());
    }
    if start < n {
        let line = s.substring_char(start, n);
        out.push(line.to_owned());
        proof {
            assert(out.deep_view() =~= out.deep_view().subrange(0, out.deep_view().len() - 1).push(
                s@.subrange(start as int, n as int),
            ));
        }
    }
    out
}

/// A token accumulator: `cur` is the token gathered so far; whitespace ends
/// it, and empty tokens are dropped.
pub open spec fn tokens_go(s: Seq<char>, cur: Seq<char>) -> Seq<Seq<char>>
    decreases s.len(),
{
    if s.len() == 0 {
        if cur.len() == 0 {
            Seq::empty()
        } else {
            seq![cur]
        }
    } else if is_ws_char(s[0]) {
        if cur.len() == 0 {
            tokens_go(s.skip(1), Seq::empty())
        } else {
            seq![cur] + tokens_go(s.skip(1), Seq::empty())
        }
    } else {
        tokens_go(s.skip(1), cur.push(s[0]))
    }
}

/// The whitespace-separated tokens of `s`, as `str::split_whitespace`
/// yields them.
pub open spec fn tokens_spec(s: Seq<char>) -> Seq<Seq<char>> {
    tokens_go(s, Seq::empty())
}

/// Splits `s` at whitespace into its non-empty tokens.
pub fn split_tokens(s: &str) -> (r: Vec<String>)
    ensures
        r.deep_view() == tokens_spec(s@),
{
    let n = s.unicode_len();
    let mut out: Vec<String> = Vec::new();
    let mut start: usize = 0;
    let mut i: usize = 0;
    proof {
        assert(s@.skip(0) =~= s@);
        assert(s@.subrange(0, 0) =~= Seq::<char>::empty());
    }
    while i < n
        invariant
            start <= i <= n,
            n == s@.len(),
            out.deep_view() + tokens_go(s@.skip(i as int), s@.subrange(start as int, i as int))
                =~= tokens_spec(s@),
        decreases n - i,
    {
        let ghost cur = s@.subrange(start as int, i as int);
        let ghost rest = s@.skip(i as int);
        proof {
            assert(rest[0] == s@[i as int]);
            assert(rest.skip(1) =~= s@.skip(i as int + 1));
        }
        let c = s.get_char(i);
        if is_ws(c) {
            if i > start {
                let tok = s.substring_char(start, i);
                out.push(tok.to_owned());
                proof {
                    assert(out.deep_view() =~= out.deep_view().subrange(
                        0,
                        out.deep_view().len() - 1,
                    ).push(cur));
                }
            }
            proof {
                assert(s@.subrange(i as int + 1, i as int + 1) =~= Seq::<char>::empty());
                assert(out.deep_view() + tokens_go(
                    s@.skip(i as int + 1),
                    s@.subrange(i as int + 1, i as int + 1),
                ) =~= tokens_spec(s@));
            }
            start = i + 1;
        } else {
            proof {
                assert(cur.push(s@[i as int]) =~= s@.subrange(start as int, i as int + 1));
            }
        }
        i += 1;
    }
    proof {
        assert(s@.skip(n as int) =~= Seq::<char>::empty());
    }
    if start < n {
        let tok = s.substring_char(start, n);
        out.push(tok.to_owned());
        proof {
            assert(out.deep_view() =~= out.deep_view().subrange(0, out.deep_view().len() - 1).push(
                s@.subrange(start as int, n as int),
            ));
        }
    }
    out
}

/// The index of the first occurrence of `c` in `s`, or `-1`.
pub open spec fn find_spec(s: Seq<char>, c: char) -> int
    decreases s.len(),
{
    if s.len() == 0 {
        -1
    } else if s[0] == c {
        0
    } else {
        let r = find_spec(s.skip(1), c);
        if r < 0 {
            -1
        } else {
            r + 1
        }
    }
}

pub proof fn lemma_find_spec(s: Seq<char>, c: char)
    ensures
        find_spec(s, c) == -1 ==> forall|j: int| 0 <= j < s.len() ==> s[j] != c,
        find_spec(s, c) >= 0 ==> {
            &&& find_spec(s, c) < s.len()
            &&& s[find_spec(s, c)] == c
            &&& forall|j: int| 0 <= j < find_spec(s, c) ==> s[j] != c
        },
    decreases s.len(),
{
    if s.len() > 0 && s[0] != c {
        let t = s.skip(1);
        lemma_find_spec(t, c);
        let r = find_spec(t, c);
        if r == -1 {
            assert forall|j: int| 0 <= j < s.len() implies s[j] != c by {
                if j > 0 {
                    assert(t[j - 1] == s[j]);
                }
            }
        } else {
            assert(s[r + 1] == t[r]);
            assert forall|j: int| 0 <= j < r + 1 implies s[j] != c by {
                if j > 0 {
                    assert(t[j - 1] == s[j]);
                }
            }
        }
    }
}

/// The first character index of `c` in `s`, if any.
pub fn find_char(s: &str, c: char) -> (r: Option<usize>)
    ensures
        r matches Some(i) ==> find_spec(s@, c) == i,
        r is None ==> find_spec(s@, c) == -1,
{
    let n = s.unicode_len();
    let mut i: usize = 0;
    while i < n
        invariant
            i <= n,
            n == s@.len(),
            forall|j: int| 0 <= j < i ==> s@[j] != c,
        decreases n - i,
    {
        if s.get_char(i) == c {
            proof {
                lemma_find_spec(s@, c);
                if find_spec(s@, c) == -1 {
                    assert(s@[i as int] != c);
                } else if find_spec(s@, c) < i {
                    assert(s@[find_spec(s@, c)] != c);
                }
            }
            return Some(i);
        }
        i += 1;
    }
    proof {
        lemma_find_spec(s@, c);
        if find_spec(s@, c) >= 0 {
            assert(s@[find_spec(s@, c)] != c);
        }
    }
    None
}

/// The value of a run of decimal digits, most significant first.
pub open spec fn digits_val(s: Seq<char>) -> int
    decreases s.len(),
{
    if s.len() == 0 {
        0
    } else {
        digits_val(s.drop_last()) * 10 + (s.last() as u32 - 48)
    }
}

/// A non-empty, all-digit sequence.
pub open spec fn all_digits(s: Seq<char>) -> bool {
    forall|i: int| 0 <= i < s.len() ==> is_digit_char(s[i])
}

/// The result of parsing `s` as an unsigned decimal number no larger than
/// `max`: an optional leading `'+'`, then at least one digit, no overflow.
pub open spec fn parse_uint_spec(s: Seq<char>, max: int) -> Option<int> {
    let body = if s.len() > 0 && s[0] == '+' {
        s.skip(1)
    } else {
        s
    };
    if body.len() > 0 && all_digits(body) && digits_val(body) <= max {
        Some(digits_val(body))
    } else {
        None
    }
}

proof fn lemma_digits_val_nonneg(s: Seq<char>)
    requires
        all_digits(s),
    ensures
        digits_val(s) >= 0,
    decreases s.len(),
{
    if s.len() > 0 {
        let t = s.drop_last();
        assert forall|i: int| 0 <= i < t.len() implies is_digit_char(t[i]) by {
            assert(t[i] == s[i]);
        }
        lemma_digits_val_nonneg(t);
        assert(is_digit_char(s[s.len() - 1]));
        assert(s.last() as u32 >= 48);
    }
}

/// Splits `max` as `10 * (max / 10) + max % 10` to compare against the next
/// accumulated digit without overflow.
proof fn lemma_next_digit_bound(a: int, max: int, d: int)
    by (nonlinear_arith)
    requires
        a >= 0,
        max >= 0,
        0 <= d <= 9,
    ensures
        (a * 10 + d > max) <==> (a > max / 10 || (a == max / 10 && d > max % 10)),
{
}

/// Parses `s` as an unsigned decimal number of at most `max`, as
/// `str::parse` does for unsigned integers: an optional leading `'+'`,
/// then one or more digits, rejecting overflow.
pub fn parse_dec_bounded(s: &str, max: u64) -> (r: Option<u64>)
    ensures
        r matches Some(v) ==> parse_uint_spec(s@, max as int) == Some(v as int),
        r is None ==> parse_uint_spec(s@, max as int) is None,
{
    let n = s.unicode_len();
    let has_plus = n > 0 && s.get_char(0) == '+';
    let start: usize = if has_plus {
        1
    } else {
        0
    };
    let ghost body = s@.skip(start as int);
    if n == start {
        return None;
    }
    let mut val: u64 = 0;
    let mut i: usize = start;
    proof {
        assert(body.take(0) =~= Seq::<char>::empty());
        if start == 0 {
            assert(body =~= s@);
        }
    }
    while i < n
        invariant
            start <= i <= n,
            n == s@.len(),
            start == 1 ==> s@[0] == '+',
            start == 0 ==> (n == 0 || s@[0] != '+'),
            start <= 1,
            body == s@.skip(start as int),
            body =~= (if s@.len() > 0 && s@[0] == '+' {
                s@.skip(1)
            } else {
                s@
            }),
            all_digits(body.take(i - start)),
            val == digits_val(body.take(i - start)),
            val <= max,
        decreases n - i,
    {
        let c = s.get_char(i);
        proof {
            assert(body[i - start] == s@[i as int]);
        }
        if !is_digit(c) {
            proof {
                assert(!all_digits(body));
            }
            return None;
        }
        let d = ((c as u32) - 48) as u64;
        let ghost t = body.take(i + 1 - start);
        proof {
            assert(t.drop_last() =~= body.take(i - start));
            assert(t.last() == body[i - start]);
            assert forall|j: int| 0 <= j < t.len() implies is_digit_char(t[j]) by {
                if j < i - start {
                    assert(t[j] == body.take(i - start)[j]);
                }
            }
            assert(digits_val(t) == val * 10 + d);
            lemma_next_digit_bound(val as int, max as int, d as int);
        }
        if val > max / 10 || (val == max / 10 && d > max % 10) {
            proof {
                if all_digits(body) {
                    lemma_digits_val_grows(body, i + 1 - start);
                    assert(digits_val(body) >= digits_val(t));
                }
            }
            return None;
        }
        val = val * 10 + d;
        i += 1;
    }
    proof {
        assert(body.take(n - start) =~= body);
    }
    Some(val)
}

/// `str::parse::<usize>`, restricted to the decimal forms above.
pub fn parse_usize_str(s: &str) -> (r: Option<usize>)
    ensures
        r matches Some(v) ==> parse_uint_spec(s@, usize::MAX as int) == Some(v as int),
        r is None ==> parse_uint_spec(s@, usize::MAX as int) is None,
{
    let r = parse_dec_bounded(s, usize::MAX as u64);
    match r {
        Some(v) => Some(v as usize),
        None => None,
    }
}

/// `str::parse::<u32>`, restricted to the decimal forms above.
pub fn parse_u32_str(s: &str) -> (r: Option<u32>)
    ensures
        r matches Some(v) ==> parse_uint_spec(s@, u32::MAX as int) == Some(v as int),
        r is None ==> parse_uint_spec(s@, u32::MAX as int) is None,
{
    let r = parse_dec_bounded(s, u32::MAX as u64);
    match r {
        Some(v) => Some(v as u32),
        None => None,
    }
}

/// The canonical decimal rendering of `n`: no sign, no leading zeros.
pub open spec fn dec_str_spec(n: int) -> Seq<char>
    decreases n,
{
    if n < 10 {
        seq![((48 + if n >= 0 { n } else { 0 }) as u8) as char]
    } else {
        dec_str_spec(n / 10).push(((48 + n % 10) as u8) as char)
    }
}

/// Renders `n` in decimal, as `u32::to_string` does.
pub fn u32_to_string(n: u32) -> (r: String)
    ensures
        r@ == dec_str_spec(n as int),
    decreases n,
{
    let digits: &str = "0123456789";
    proof {
        reveal_strlit("0123456789");
    }
    let d = (n % 10) as usize;
    let ds = digits.substring_char(d, d + 1);
    proof {
        assert(ds@ =~= seq![digits@[d as int]]);
        assert(digits@[d as int] == ((48 + d) as u8) as char);
    }
    if n < 10 {
        ds.to_owned()
    } else {
        let mut front = u32_to_string(n / 10);
        front.append(ds);
        proof {
            assert(front@ =~= dec_str_spec(n as int));
        }
        front
    }
}

/// Once a digit prefix exceeds `max`, any all-digit extension does too.
proof fn lemma_digits_val_grows(s: Seq<char>, i: int)
    requires
        all_digits(s),
        0 <= i <= s.len(),
    ensures
        digits_val(s) >= digits_val(s.take(i)),
    decreases s.len() - i,
{
    if i < s.len() {
        lemma_digits_val_grows(s, i + 1);
        let t = s.take(i + 1);
        let u = s.take(i);
        assert(t.drop_last() =~= u);
        assert forall|j: int| 0 <= j < u.len() implies is_digit_char(u[j]) by {
            assert(u[j] == s[j]);
        }
        lemma_digits_val_nonneg(u);
        assert(t.last() == s[i]);
        assert(is_digit_char(s[i]));
        assert(digits_val(t) == digits_val(u) * 10 + (s[i] as u32 - 48));
        assert(digits_val(t) >= digits_val(u));
    } else {
        assert(s.take(i) =~= s);
    }
}

/// Code-point lexicographic order on character sequences; agrees with the
/// byte order of the UTF-8 encodings.
pub open spec fn lex_le(a: Seq<char>, b: Seq<char>) -> bool
    decreases a.len(),
{
    if a.len() == 0 {
        true
    } else if b.len() == 0 {
        false
    } else if (a[0] as u32) < (b[0] as u32) {
        true
    } else if (a[0] as u32) > (b[0] as u32) {
        false
    } else {
        lex_le(a.skip(1), b.skip(1))
    }
}

/// Characters with equal code points are equal.
proof fn lemma_char_eq_from_u32(c1: char, c2: char)
    requires
        c1 as u32 == c2 as u32,
    ensures
        c1 == c2,
{
}

pub proof fn lemma_lex_total(a: Seq<char>, b: Seq<char>)
    ensures
        lex_le(a, b) || lex_le(b, a),
    decreases a.len(),
{
    if a.len() > 0 && b.len() > 0 && (a[0] as u32) == (b[0] as u32) {
        lemma_char_eq_from_u32(a[0], b[0]);
        lemma_lex_total(a.skip(1), b.skip(1));
    }
}

pub proof fn lemma_lex_antisym(a: Seq<char>, b: Seq<char>)
    requires
        lex_le(a, b),
        lex_le(b, a),
    ensures
        a == b,
    decreases a.len(),
{
    if a.len() == 0 {
        assert(b.len() == 0);
        assert(a =~= b);
    } else {
        assert(b.len() > 0);
        assert((a[0] as u32) <= (b[0] as u32));
        assert((b[0] as u32) <= (a[0] as u32));
        lemma_char_eq_from_u32(a[0], b[0]);
        assert(a[0] == b[0]);
        let a1 = a.skip(1);
        let b1 = b.skip(1);
        assert(lex_le(a1, b1));
        assert(lex_le(b1, a1));
        lemma_lex_antisym(a1, b1);
        assert(a.len() == b.len());
        assert forall|i: int| 0 <= i < a.len() implies a[i] == b[i] by {
            if i > 0 {
                assert(a1[i - 1] == a[i]);
                assert(b1[i - 1] == b[i]);
            }
        }
        assert(a =~= b);
    }
}

pub proof fn lemma_lex_trans(a: Seq<char>, b: Seq<char>, c: Seq<char>)
    requires
        lex_le(a, b),
        lex_le(b, c),
    ensures
        lex_le(a, c),
    decreases a.len(),
{
    if a.len() > 0 {
        assert(b.len() > 0);
        assert(c.len() > 0);
        assert((a[0] as u32) <= (b[0] as u32));
        assert((b[0] as u32) <= (c[0] as u32));
        if (a[0] as u32) == (c[0] as u32) {
            assert((a[0] as u32) == (b[0] as u32));
            assert(lex_le(a.skip(1), b.skip(1)));
            assert(lex_le(b.skip(1), c.skip(1)));
            lemma_lex_trans(a.skip(1), b.skip(1), c.skip(1));
        } else {
            assert((a[0] as u32) < (c[0] as u32));
        }
    }
}

/// Sharing a prefix of length `i`, order is decided past it.
proof fn lemma_lex_common(a: Seq<char>, b: Seq<char>, i: int)
    requires
        0 <= i <= a.len(),
        i <= b.len(),
        forall|j: int| 0 <= j < i ==> a[j] == b[j],
    ensures
        lex_le(a, b) == lex_le(a.skip(i), b.skip(i)),
    decreases i,
{
    if i == 0 {
        assert(a.skip(0) =~= a);
        assert(b.skip(0) =~= b);
    } else {
        assert(a[0] == b[0]);
        let a1 = a.skip(1);
        let b1 = b.skip(1);
        assert forall|j: int| 0 <= j < i - 1 implies a1[j] == b1[j] by {
            assert(a1[j] == a[j + 1]);
            assert(b1[j] == b[j + 1]);
        }
        lemma_lex_common(a1, b1, i - 1);
        assert(a1.skip(i - 1) =~= a.skip(i));
        assert(b1.skip(i - 1) =~= b.skip(i));
    }
}

/// Code-point order comparison of two strings.
pub fn str_lex_le(a: &str, b: &str) -> (r: bool)
    ensures
        r == lex_le(a@, b@),
{
    let alen = a.unicode_len();
    let blen = b.unicode_len();
    let min = if alen < blen {
        alen
    } else {
        blen
    };
    let mut i: usize = 0;
    while i < min
        invariant
            i <= min,
            alen == a@.len(),
            blen == b@.len(),
            min == if alen < blen {
                alen
            } else {
                blen
            },
            forall|j: int| 0 <= j < i ==> a@[j] == b@[j],
        decreases min - i,
    {
        let ca = a.get_char(i);
        let cb = b.get_char(i);
        if (ca as u32) < (cb as u32) {
            proof {
                lemma_lex_common(a@, b@, i as int);
                assert(a@.skip(i as int)[0] == a@[i as int]);
                assert(b@.skip(i as int)[0] == b@[i as int]);
            }
            return true;
        }
        if (ca as u32) > (cb as u32) {
            proof {
                lemma_lex_common(a@, b@, i as int);
                assert(a@.skip(i as int)[0] == a@[i as int]);
                assert(b@.skip(i as int)[0] == b@[i as int]);
            }
            return false;
        }
        i += 1;
    }
    proof {
        lemma_lex_common(a@, b@, min as int);
        if alen <= blen {
            assert(a@.skip(min as int) =~= Seq::<char>::empty());
        } else {
            assert(b@.skip(min as int) =~= Seq::<char>::empty());
            assert(a@.skip(min as int).len() > 0);
        }
    }
    alen <= blen
}

/// A sequence of words in non-strict code-point order.
pub open spec fn sorted_le(s: Seq<Seq<char>>) -> bool {
    forall|i: int, j: int| 0 <= i < j < s.len() ==> lex_le(s[i], s[j])
}

/// A sequence of pairwise distinct words.
pub open spec fn distinct_seq(s: Seq<Seq<char>>) -> bool {
    forall|i: int, j: int| 0 <= i < j < s.len() ==> s[i] != s[j]
}

/// Whether word sequence `v` holds `s`.
pub fn vec_contains_str(v: &Vec<String>, s: &str) -> (r: bool)
    ensures
        r == v.deep_view().contains(s@),
{
    let mut i: usize = 0;
    while i < v.len()
        invariant
            i <= v@.len(),
            forall|j: int| 0 <= j < i ==> v.deep_view()[j] != s@,
        decreases v@.len() - i,
    {
        if str_eq(v[i].as_str(), s) {
            assert(v.deep_view()[i as int] == s@);
            return true;
        }
        i += 1;
    }
    proof {
        if v.deep_view().contains(s@) {
            let j = choose|j: int| 0 <= j < v.deep_view().len() && v.deep_view()[j] == s@;
            assert(v.deep_view()[j] != s@);
        }
    }
    false
}

/// Appends `s` to `v` unless an equal word is already there; reports
/// whether it was added.
pub fn insert_unique(v: &mut Vec<String>, s: String) -> (added: bool)
    ensures
        added == !old(v).deep_view().contains(s@),
        added ==> final(v).deep_view() == old(v).deep_view().push(s@),
        !added ==> final(v).deep_view() == old(v).deep_view(),
{
    if vec_contains_str(v, s.as_str()) {
        false
    } else {
        v.push(s);
        proof {
            assert(v.deep_view() =~= v.deep_view().subrange(0, v.deep_view().len() - 1).push(
                v.deep_view().last(),
            ));
        }
        true
    }
}

/// The element set of an inserted sequence.
pub proof fn lemma_insert_to_set(s: Seq<Seq<char>>, p: int, x: Seq<char>)
    requires
        0 <= p <= s.len(),
    ensures
        (s.take(p) + seq![x] + s.skip(p)).to_set() == s.to_set().insert(x),
{
    let t = s.take(p) + seq![x] + s.skip(p);
    assert forall|e: Seq<char>| t.to_set().contains(e) implies s.to_set().insert(x).contains(
        e,
    ) by {
        let i = choose|i: int| 0 <= i < t.len() && t[i] == e;
        if i < p {
            assert(s[i] == e);
            assert(s.to_set().contains(e));
        } else if i == p {
            assert(e == x);
        } else {
            assert(s[i - 1] == e);
            assert(s.to_set().contains(e));
        }
    }
    assert forall|e: Seq<char>| s.to_set().insert(x).contains(e) implies t.to_set().contains(
        e,
    ) by {
        if e == x {
            assert(t[p] == e);
        } else {
            assert(s.to_set().contains(e));
            let i = choose|i: int| 0 <= i < s.len() && s[i] == e;
            if i < p {
                assert(t[i] == e);
            } else {
                assert(t[i + 1] == e);
            }
        }
    }
    assert(t.to_set() =~= s.to_set().insert(x));
}

/// The element set of an appended sequence.
pub proof fn lemma_push_to_set(s: Seq<Seq<char>>, x: Seq<char>)
    ensures
        s.push(x).to_set() == s.to_set().insert(x),
{
    lemma_insert_to_set(s, s.len() as int, x);
    assert(s.take(s.len() as int) + seq![x] + s.skip(s.len() as int) =~= s.push(x));
}

/// Sorts pairwise distinct words into strict code-point order; the element
/// set and the length are unchanged.
pub fn sort_strings(v: &Vec<String>) -> (r: Vec<String>)
    requires
        distinct_seq(v.deep_view()),
    ensures
        sorted_le(r.deep_view()),
        distinct_seq(r.deep_view()),
        r.deep_view().to_set() == v.deep_view().to_set(),
        r.deep_view().len() == v.deep_view().len(),
{
    let ghost dv = v.deep_view();
    let mut out: Vec<String> = Vec::new();
    let mut idx: usize = 0;
    proof {
        assert(dv.take(0) =~= Seq::<Seq<char>>::empty());
        assert(out.deep_view() =~= Seq::<Seq<char>>::empty());
        assert(Seq::<Seq<char>>::empty().to_set() =~= Set::<Seq<char>>::empty());
    }
    while idx < v.len()
        invariant
            idx <= v@.len(),
            dv == v.deep_view(),
            dv.len() == v@.len(),
            distinct_seq(dv),
            sorted_le(out.deep_view()),
            distinct_seq(out.deep_view()),
            out.deep_view().to_set() == dv.take(idx as int).to_set(),
            out.deep_view().len() == idx,
        decreases v@.len() - idx,
    {
        let x = v[idx].clone();
        let ghost xv = dv[idx as int];
        proof {
            assert(x@ == xv);
            // x is new: a duplicate would contradict distinctness of dv
            if out.deep_view().to_set().contains(xv) {
                let k = choose|k: int|
                    0 <= k < dv.take(idx as int).len() && dv.take(idx as int)[k] == xv;
                assert(dv[k] == dv[idx as int]);
            }
        }
        let ghost odv = out.deep_view();
        let mut p: usize = 0;
        while p < out.len() && str_lex_le(out[p].as_str(), x.as_str())
            invariant
                p <= out@.len(),
                odv == out.deep_view(),
                odv.len() == out@.len(),
                x@ == xv,
                forall|k: int| 0 <= k < p ==> lex_le(odv[k], xv),
            decreases out@.len() - p,
        {
            p += 1;
        }
        proof {
            if p < odv.len() {
                lemma_lex_total(odv[p as int], xv);
            }
        }
        let ghost pos = p as int;
        out.insert(p, x);
        proof {
            let ndv = out.deep_view();
            assert(ndv =~= odv.take(pos) + seq![xv] + odv.skip(pos));
            lemma_insert_to_set(odv, pos, xv);
            assert(dv.take(idx as int + 1) =~= dv.take(idx as int).push(xv));
            lemma_insert_to_set(dv.take(idx as int), idx as int, xv);
            assert(dv.take(idx as int).take(idx as int) + seq![xv] + dv.take(idx as int).skip(
                idx as int,
            ) =~= dv.take(idx as int + 1));
            // strict order and distinctness around the insertion point
            assert forall|i: int, j: int| 0 <= i < j < ndv.len() implies lex_le(ndv[i], ndv[j])
                && ndv[i] != ndv[j] by {
                if i < pos && j < pos {
                    assert(ndv[i] == odv[i] && ndv[j] == odv[j]);
                } else if i < pos && j == pos {
                    assert(ndv[i] == odv[i] && ndv[j] == xv);
                    assert(!odv.to_set().contains(xv));
                    assert(odv.to_set().contains(odv[i]));
                } else if i < pos && j > pos {
                    assert(ndv[i] == odv[i] && ndv[j] == odv[j - 1]);
                } else if i == pos {
                    assert(ndv[i] == xv && ndv[j] == odv[j - 1]);
                    assert(!odv.to_set().contains(xv));
                    assert(odv.to_set().contains(odv[j - 1]));
                    assert(pos <= j - 1 < odv.len());
                    assert(lex_le(xv, odv[pos]));
                    if j - 1 > pos {
                        assert(lex_le(odv[pos], odv[j - 1]));
                        lemma_lex_trans(xv, odv[pos], odv[j - 1]);
                    }
                } else {
                    assert(ndv[i] == odv[i - 1] && ndv[j] == odv[j - 1]);
                }
            }
        }
        idx += 1;
    }
    proof {
        assert(dv.take(idx as int) =~= dv);
    }
    out
}

/// The characters of `s` grouped into two-character chunks, a trailing odd
/// character standing alone.
pub open spec fn pairs_spec(s: Seq<char>) -> Seq<Seq<char>>
    decreases s.len(),
{
    if s.len() == 0 {
        Seq::empty()
    } else if s.len() == 1 {
        seq![s]
    } else {
        seq![s.take(2)] + pairs_spec(s.skip(2))
    }
}

/// Splits `s` into two-character groups.
pub fn split_pairs(s: &str) -> (r: Vec<String>)
    ensures
        r.deep_view() == pairs_spec(s@),
{
    let n = s.unicode_len();
    let mut out: Vec<String> = Vec::new();
    let mut i: usize = 0;
    proof {
        assert(s@.skip(0) =~= s@);
    }
    while i < n
        invariant
            i <= n,
            n == s@.len(),
            out.deep_view() + pairs_spec(s@.skip(i as int)) =~= pairs_spec(s@),
        decreases n - i,
    {
        let ghost rest = s@.skip(i as int);
        if n - i >= 2 {
            let g = s.substring_char(i, i + 2);
            out.push(g.to_owned());
            proof {
                assert(g@ =~= rest.take(2));
                assert(rest.skip(2) =~= s@.skip(i as int + 2));
                assert(out.deep_view() =~= out.deep_view().subrange(
                    0,
                    out.deep_view().len() - 1,
                ).push(g@));
            }
            i += 2;
        } else {
            let g = s.substring_char(i, n);
            out.push(g.to_owned());
            proof {
                assert(g@ =~= rest);
                assert(rest.len() == 1);
                assert(s@.skip(n as int) =~= Seq::<char>::empty());
                assert(out.deep_view() =~= out.deep_view().subrange(
                    0,
                    out.deep_view().len() - 1,
                ).push(g@));
            }
            i = n;
        }
    }
    proof {
        assert(s@.skip(n as int) =~= Seq::<char>::empty());
    }
    out
}

/// Each character of `s` as a one-character word.
pub open spec fn singles_spec(s: Seq<char>) -> Seq<Seq<char>> {
    Seq::new(s.len(), |i: int| seq![s[i]])
}

/// Splits `s` into one-character strings.
pub fn split_singles(s: &str) -> (r: Vec<String>)
    ensures
        r.deep_view() == singles_spec(s@),
{
    let n = s.unicode_len();
    let mut out: Vec<String> = Vec::new();
    let mut i: usize = 0;
    while i < n
        invariant
            i <= n,
            n == s@.len(),
            out.deep_view() =~= singles_spec(s@).take(i as int),
        decreases n - i,
    {
        let g = s.substring_char(i, i + 1);
        out.push(g.to_owned());
        proof {
            assert(g@ =~= seq![s@[i as int]]);
            assert(out.deep_view() =~= out.deep_view().subrange(0, out.deep_view().len() - 1).push(
                g@,
            ));
            assert(singles_spec(s@).take(i as int + 1) =~= singles_spec(s@).take(i as int).push(
                seq![s@[i as int]],
            ));
        }
        i += 1;
    }
    proof {
        assert(singles_spec(s@).take(n as int) =~= singles_spec(s@));
    }
    out
}

} // verus!


verus! {

/// Renders `n` in decimal, as `usize::to_string` does.
pub fn usize_to_string(n: usize) -> (r: String)
    ensures
        r@ == dec_str_spec(n as int),
    decreases n,
{
    let digits: &str = "0123456789";
    proof {
        reveal_strlit("0123456789");
    }
    let d = n % 10;
    let ds = digits.substring_char(d, d + 1);
    proof {
        assert(ds@ =~= seq![digits@[d as int]]);
        assert(digits@[d as int] == ((48 + d) as u8) as char);
    }
    if n < 10 {
        ds.to_owned()
    } else {
        let mut front = usize_to_string(n / 10);
        front.append(ds);
        proof {
            assert(front@ =~= dec_str_spec(n as int));
        }
        front
    }
}

} // verus!
