//! Character-level building blocks shared by the shell: whitespace as Rust
//! defines it, trimming, word splitting, decimal numbers and string assembly.

use vstd::prelude::*;
use vstd::string::*;

verus! {

/// The Unicode `White_Space` property, which `char::is_whitespace` tests.
pub open spec fn is_ws(c: char) -> bool {
    ||| ('\u{9}' <= c && c <= '\u{d}')
    ||| c == ' '
    ||| c == '\u{85}'
    ||| c == '\u{a0}'
    ||| c == '\u{1680}'
    ||| ('\u{2000}' <= c && c <= '\u{200a}')
    ||| c == '\u{2028}'
    ||| c == '\u{2029}'
    ||| c == '\u{202f}'
    ||| c == '\u{205f}'
    ||| c == '\u{3000}'
}

pub fn is_whitespace(c: char) -> (b: bool)
    ensures
        b == is_ws(c),
{
    ('\u{9}' <= c && c <= '\u{d}') || c == ' ' || c == '\u{85}' || c == '\u{a0}' || c == '\u{1680}'
        || ('\u{2000}' <= c && c <= '\u{200a}') || c == '\u{2028}' || c == '\u{2029}' || c
        == '\u{202f}' || c == '\u{205f}' || c == '\u{3000}'
}

/// `str::trim_start`: the text without its leading whitespace.
pub open spec fn trim_start_seq(s: Seq<char>) -> Seq<char>
    decreases s.len(),
{
    if s.len() > 0 && is_ws(s[0]) {
        trim_start_seq(s.drop_first())
    } else {
        s
    }
}

/// `str::trim_end`: the text without its trailing whitespace.
pub open spec fn trim_end_seq(s: Seq<char>) -> Seq<char>
    decreases s.len(),
{
    if s.len() > 0 && is_ws(s.last()) {
        trim_end_seq(s.drop_last())
    } else {
        s
    }
}

/// `str::trim`: the text without leading and trailing whitespace.
pub open spec fn trim_seq(s: Seq<char>) -> Seq<char> {
    trim_end_seq(trim_start_seq(s))
}

/// The characters of a string slice, in order.
pub fn chars_of(s: &str) -> (v: Vec<char>)
    ensures
        v@ == s@,
{
    let n = s.unicode_len();
    let mut v: Vec<char> = Vec::new();
    let mut i: usize = 0;
    while i < n
        invariant
            n == s@.len(),
            i <= n,
            v@ == s@.take(i as int),
        decreases n - i,
    {
        v.push(s.get_char(i));
        i = i + 1;
        assert(v@ =~= s@.take(i as int));
    }
    assert(v@ =~= s@);
    v
}

/// Calls `String::push`; trusted to leave the text it had with `c` added
/// at its end.
#[verifier::external_body]
pub(crate) fn push_char(s: &mut String, c: char)
    ensures
        final(s)@ == old(s)@.push(c),
{
    s.push(c);
}

/// The string made of `v[lo..hi]`.
pub fn string_of(v: &Vec<char>, lo: usize, hi: usize) -> (s: String)
    requires
        lo <= hi <= v@.len(),
    ensures
        s@ == v@.subrange(lo as int, hi as int),
{
    let mut s = String::new();
    let mut i = lo;
    while i < hi
        invariant
            lo <= i <= hi <= v@.len(),
            s@ == v@.subrange(lo as int, i as int),
        decreases hi - i,
    {
        push_char(&mut s, v[i]);
        i = i + 1;
        assert(s@ =~= v@.subrange(lo as int, i as int));
    }
    s
}

/// The string holding exactly the characters of `v`.
pub fn string_of_all(v: &Vec<char>) -> (s: String)
    ensures
        s@ == v@,
{
    let s = string_of(v, 0, v.len());
    assert(v@.subrange(0, v@.len() as int) =~= v@);
    s
}

/// Index of the first character of `v[lo..hi]` that is not whitespace (or `hi`).
pub fn skip_ws(v: &Vec<char>, lo: usize, hi: usize) -> (i: usize)
    requires
        lo <= hi <= v@.len(),
    ensures
        lo <= i <= hi,
        v@.subrange(i as int, hi as int) == trim_start_seq(v@.subrange(lo as int, hi as int)),
{
    let mut i = lo;
    while i < hi && is_whitespace(v[i])
        invariant
            lo <= i <= hi <= v@.len(),
            trim_start_seq(v@.subrange(i as int, hi as int)) == trim_start_seq(
                v@.subrange(lo as int, hi as int),
            ),
        decreases hi - i,
    {
        assert(v@.subrange(i as int, hi as int).drop_first() =~= v@.subrange(i + 1, hi as int));
        i = i + 1;
    }
    i
}

/// End of `v[lo..hi]` once its trailing whitespace is dropped.
pub fn drop_trailing_ws(v: &Vec<char>, lo: usize, hi: usize) -> (j: usize)
    requires
        lo <= hi <= v@.len(),
    ensures
        lo <= j <= hi,
        v@.subrange(lo as int, j as int) == trim_end_seq(v@.subrange(lo as int, hi as int)),
{
    let mut j = hi;
    while j > lo && is_whitespace(v[j - 1])
        invariant
            lo <= j <= hi <= v@.len(),
            trim_end_seq(v@.subrange(lo as int, j as int)) == trim_end_seq(
                v@.subrange(lo as int, hi as int),
            ),
        decreases j,
    {
        assert(v@.subrange(lo as int, j as int).drop_last() =~= v@.subrange(lo as int, j - 1));
        j = j - 1;
    }
    j
}

/// Bounds of `v` with whitespace trimmed at both ends.
pub fn trim_bounds(v: &Vec<char>) -> (r: (usize, usize))
    ensures
        r.0 <= r.1 <= v@.len(),
        v@.subrange(r.0 as int, r.1 as int) == trim_seq(v@),
{
    let lo = skip_ws(v, 0, v.len());
    assert(v@.subrange(0, v@.len() as int) =~= v@);
    let hi = drop_trailing_ws(v, lo, v.len());
    (lo, hi)
}

/// `str::trim` followed by `to_string`.
pub fn trim(s: &str) -> (t: String)
    ensures
        t@ == trim_seq(s@),
{
    let v = chars_of(s);
    let (lo, hi) = trim_bounds(&v);
    string_of(&v, lo, hi)
}


/// The character of a decimal digit `d < 10`.
pub open spec fn digit_char(d: nat) -> char {
    ((48 + d) as u8) as char
}

/// The decimal representation of `n`, as `format!("{}", n)` writes it.
pub open spec fn decimal(n: nat) -> Seq<char>
    decreases n,
{
    if n < 10 {
        seq![digit_char(n)]
    } else {
        decimal(n / 10).push(digit_char(n % 10))
    }
}

fn digit_of(d: usize) -> (c: char)
    requires
        d < 10,
    ensures
        c == digit_char(d as nat),
{
    let b: u8 = 48 + d as u8;
    b as char
}

/// Appends the decimal representation of `n`.
pub fn push_decimal(s: &mut String, n: usize)
    ensures
        final(s)@ == old(s)@ + decimal(n as nat),
    decreases n,
{
    if n >= 10 {
        push_decimal(s, n / 10);
    }
    push_char(s, digit_of(n % 10));
    assert(final(s)@ =~= old(s)@ + decimal(n as nat));
}

/// `n.to_string()`.
pub fn usize_to_string(n: usize) -> (s: String)
    ensures
        s@ == decimal(n as nat),
{
    let mut s = String::new();
    push_decimal(&mut s, n);
    assert(s@ =~= decimal(n as nat));
    s
}

pub open spec fn is_digit(c: char) -> bool {
    '0' <= c && c <= '9'
}

pub open spec fn digit_value(c: char) -> nat {
    ((c as u32) - 48) as nat
}

/// The number that a sequence of decimal digits denotes.
pub open spec fn digits_value(s: Seq<char>) -> nat
    decreases s.len(),
{
    if s.len() == 0 {
        0
    } else {
        digits_value(s.drop_last()) * 10 + digit_value(s.last())
    }
}

pub open spec fn all_digits(s: Seq<char>) -> bool {
    forall|i: int| 0 <= i < s.len() ==> is_digit(#[trigger] s[i])
}

/// `s.parse::<usize>()` as `Option`: one optional leading `+`, then at least
/// one decimal digit and nothing else, with a value that fits.
pub open spec fn parse_usize_spec(s: Seq<char>) -> Option<usize> {
    let d = if s.len() > 0 && s[0] == '+' {
        s.drop_first()
    } else {
        s
    };
    if d.len() == 0 || !all_digits(d) || digits_value(d) > usize::MAX {
        None
    } else {
        Some(digits_value(d) as usize)
    }
}

/// `s.parse::<i32>()` as `Option`: one optional sign, then at least one
/// decimal digit and nothing else, with a value in range.
pub open spec fn parse_i32_spec(s: Seq<char>) -> Option<i32> {
    let neg = s.len() > 0 && s[0] == '-';
    let d = if s.len() > 0 && (s[0] == '+' || s[0] == '-') {
        s.drop_first()
    } else {
        s
    };
    if d.len() == 0 || !all_digits(d) {
        None
    } else if neg {
        if digits_value(d) > 0x8000_0000 {
            None
        } else {
            Some((-digits_value(d)) as i32)
        }
    } else if digits_value(d) > 0x7fff_ffff {
        None
    } else {
        Some(digits_value(d) as i32)
    }
}

proof fn lemma_digits_value_grows(s: Seq<char>, i: int, j: int)
    requires
        0 <= i <= j <= s.len(),
    ensures
        digits_value(s.take(i)) <= digits_value(s.take(j)),
    decreases j - i,
{
    if i < j {
        lemma_digits_value_grows(s, i, j - 1);
        assert(s.take(j).drop_last() =~= s.take(j - 1));
    }
}

/// The value of the decimal digits `v[lo..hi]`, or `None` when a character is
/// not a digit or the value exceeds `bound`.
fn digits_upto(v: &Vec<char>, lo: usize, hi: usize, bound: u64) -> (r: Option<u64>)
    requires
        lo <= hi <= v@.len(),
    ensures
        match r {
            Some(x) => all_digits(v@.subrange(lo as int, hi as int)) && x == digits_value(
                v@.subrange(lo as int, hi as int),
            ) && x <= bound,
            None => !all_digits(v@.subrange(lo as int, hi as int)) || digits_value(
                v@.subrange(lo as int, hi as int),
            ) > bound,
        },
{
    let ghost d = v@.subrange(lo as int, hi as int);
    let mut acc: u64 = 0;
    let mut i = lo;
    while i < hi
        invariant
            lo <= i <= hi <= v@.len(),
            d == v@.subrange(lo as int, hi as int),
            all_digits(d.take(i - lo)),
            acc == digits_value(d.take(i - lo)),
            acc <= bound,
        decreases hi - i,
    {
        let c = v[i];
        if !('0' <= c && c <= '9') {
            assert(d[i - lo] == c);
            return None;
        }
        let dv: u64 = (c as u32 - 48) as u64;
        assert(d.take(i - lo + 1).drop_last() =~= d.take(i - lo));
        assert(d.take(i - lo + 1).last() == c);
        if dv > bound || acc > (bound - dv) / 10 {
            proof {
                if dv <= bound {
                    assert(acc * 10 + dv > bound) by (nonlinear_arith)
                        requires
                            acc > (bound - dv) / 10,
                            dv <= bound,
                    ;
                }
                lemma_digits_value_grows(d, i - lo + 1, d.len() as int);
                assert(d.take(d.len() as int) =~= d);
            }
            return None;
        }
        proof {
            assert(acc * 10 + dv <= bound) by (nonlinear_arith)
                requires
                    acc <= (bound - dv) / 10,
                    dv <= bound,
            ;
        }
        acc = acc * 10 + dv;
        i = i + 1;
        assert forall|k: int| 0 <= k < (i - lo) implies is_digit(#[trigger] d.take(i - lo)[k]) by {
            if k < i - lo - 1 {
                assert(d.take(i - lo - 1)[k] == d.take(i - lo)[k]);
            }
        }
    }
    assert(d.take(hi - lo) =~= d);
    Some(acc)
}

/// `s.parse::<usize>().ok()` for the characters `v[lo..hi]`.
pub fn parse_usize(v: &Vec<char>, lo: usize, hi: usize) -> (r: Option<usize>)
    requires
        lo <= hi <= v@.len(),
    ensures
        r == parse_usize_spec(v@.subrange(lo as int, hi as int)),
{
    let ghost s = v@.subrange(lo as int, hi as int);
    let start = if lo < hi && v[lo] == '+' {
        lo + 1
    } else {
        lo
    };
    assert(start > lo ==> s.drop_first() =~= v@.subrange(start as int, hi as int));
    assert(start == lo ==> s =~= v@.subrange(start as int, hi as int));
    if start == hi {
        return None;
    }
    match digits_upto(v, start, hi, usize::MAX as u64) {
        Some(x) => Some(x as usize),
        None => None,
    }
}

/// `s.parse::<i32>().ok()` for the characters `v[lo..hi]`.
pub fn parse_i32(v: &Vec<char>, lo: usize, hi: usize) -> (r: Option<i32>)
    requires
        lo <= hi <= v@.len(),
    ensures
        r == parse_i32_spec(v@.subrange(lo as int, hi as int)),
{
    let ghost s = v@.subrange(lo as int, hi as int);
    let neg = lo < hi && v[lo] == '-';
    let start = if lo < hi && (v[lo] == '+' || v[lo] == '-') {
        lo + 1
    } else {
        lo
    };
    assert(start > lo ==> s.drop_first() =~= v@.subrange(start as int, hi as int));
    assert(start == lo ==> s =~= v@.subrange(start as int, hi as int));
    if start == hi {
        return None;
    }
    if neg {
        match digits_upto(v, start, hi, 0x8000_0000) {
            Some(x) => {
                let r: i64 = -(x as i64);
                Some(r as i32)
            },
            None => None,
        }
    } else {
        match digits_upto(v, start, hi, 0x7fff_ffff) {
            Some(x) => Some(x as i32),
            None => None,
        }
    }
}

/// Progress of `str::split_whitespace`: the words finished so far and the
/// word being read.
pub struct WordSplit {
    pub done: Seq<Seq<char>>,
    pub cur: Seq<char>,
}

pub open spec fn word_step(st: WordSplit, c: char) -> WordSplit {
    if is_ws(c) {
        WordSplit {
            done: if st.cur.len() > 0 {
                st.done.push(st.cur)
            } else {
                st.done
            },
            cur: seq![],
        }
    } else {
        WordSplit { done: st.done, cur: st.cur.push(c) }
    }
}

pub open spec fn word_run(s: Seq<char>) -> WordSplit
    decreases s.len(),
{
    if s.len() == 0 {
        WordSplit { done: seq![], cur: seq![] }
    } else {
        word_step(word_run(s.drop_last()), s.last())
    }
}

/// The words of `s`: its maximal runs of non-whitespace characters, in order
/// (`str::split_whitespace`).
pub open spec fn words(s: Seq<char>) -> Seq<Seq<char>> {
    let st = word_run(s);
    if st.cur.len() > 0 {
        st.done.push(st.cur)
    } else {
        st.done
    }
}

/// The deep view of a list of strings.
pub open spec fn strings_view(v: Seq<String>) -> Seq<Seq<char>> {
    v.map_values(|x: String| x@)
}

/// `s.split_whitespace()`, collected.
pub fn split_whitespace(s: &str) -> (r: Vec<String>)
    ensures
        strings_view(r@) == words(s@),
{
    let v = chars_of(s);
    let mut done: Vec<String> = Vec::new();
    let mut cur = String::new();
    let mut i: usize = 0;
    while i < v.len()
        invariant
            i <= v@.len(),
            v@ == s@,
            strings_view(done@) == word_run(v@.take(i as int)).done,
            cur@ == word_run(v@.take(i as int)).cur,
        decreases v.len() - i,
    {
        let c = v[i];
        assert(v@.take(i + 1).drop_last() =~= v@.take(i as int));
        if is_whitespace(c) {
            if !cur.as_str().is_empty() {
                let w = cur;
                done.push(w);
                cur = String::new();
                assert(strings_view(done@) =~= word_run(v@.take(i + 1)).done);
            }
        } else {
            push_char(&mut cur, c);
        }
        i = i + 1;
    }
    assert(v@.take(v@.len() as int) =~= v@);
    if !cur.as_str().is_empty() {
        done.push(cur);
        assert(strings_view(done@) =~= words(s@));
    }
    done
}

/// The text with every non-overlapping occurrence of a non-empty `pat`,
/// found from the left, replaced by `rep` (`str::replace`).
pub open spec fn replace_seq(s: Seq<char>, pat: Seq<char>, rep: Seq<char>) -> Seq<char>
    decreases s.len(),
{
    if s.len() == 0 {
        seq![]
    } else if pat.len() > 0 && pat.is_prefix_of(s) {
        rep + replace_seq(s.skip(pat.len() as int), pat, rep)
    } else {
        seq![s[0]] + replace_seq(s.drop_first(), pat, rep)
    }
}

/// Whether `pat` occurs in `v` at position `at`.
pub fn occurs_at(v: &Vec<char>, at: usize, pat: &Vec<char>) -> (b: bool)
    requires
        at <= v@.len(),
    ensures
        b == pat@.is_prefix_of(v@.skip(at as int)),
{
    if pat.len() > v.len() - at {
        return false;
    }
    let mut k: usize = 0;
    while k < pat.len()
        invariant
            at + pat@.len() <= v.len(),
            k <= pat@.len(),
            pat@.len() == pat.len(),
            forall|j: int| 0 <= j < k ==> pat@[j] == v@[at + j],
        decreases pat.len() - k,
    {
        if pat[k] != v[at + k] {
            assert(v@.skip(at as int)[k as int] == v@[at + k]);
            return false;
        }
        k = k + 1;
    }
    true
}

/// `str::replace(pat, rep)` on the characters of `v`.
pub fn replace_all(v: &Vec<char>, pat: &Vec<char>, rep: &Vec<char>) -> (r: Vec<char>)
    requires
        pat@.len() > 0,
    ensures
        r@ == replace_seq(v@, pat@, rep@),
{
    let mut out: Vec<char> = Vec::new();
    let mut i: usize = 0;
    assert(v@.skip(0) =~= v@);
    assert(out@ + replace_seq(v@, pat@, rep@) =~= replace_seq(v@, pat@, rep@));
    while i < v.len()
        invariant
            i <= v@.len(),
            pat@.len() > 0,
            out@ + replace_seq(v@.skip(i as int), pat@, rep@) == replace_seq(v@, pat@, rep@),
        decreases v.len() - i,
    {
        let ghost rest = v@.skip(i as int);
        if occurs_at(v, i, pat) {
            let mut k: usize = 0;
            let ghost before = out@;
            while k < rep.len()
                invariant
                    k <= rep@.len(),
                    out@ == before + rep@.take(k as int),
                decreases rep.len() - k,
            {
                out.push(rep[k]);
                k = k + 1;
                assert(out@ =~= before + rep@.take(k as int));
            }
            assert(rep@.take(rep@.len() as int) =~= rep@);
            assert(rest.skip(pat@.len() as int) =~= v@.skip(i + pat@.len()));
            assert(out@ + replace_seq(v@.skip(i + pat@.len()), pat@, rep@) =~= before + (rep@
                + replace_seq(rest.skip(pat@.len() as int), pat@, rep@)));
            i = i + pat.len();
        } else {
            let ghost before = out@;
            out.push(v[i]);
            assert(rest.drop_first() =~= v@.skip(i + 1));
            assert(out@ + replace_seq(v@.skip(i + 1), pat@, rep@) =~= before + (seq![rest[0]]
                + replace_seq(rest.drop_first(), pat@, rep@)));
            i = i + 1;
        }
    }
    assert(v@.skip(v@.len() as int) =~= Seq::<char>::empty());
    assert(out@ + Seq::<char>::empty() =~= out@);
    out
}

/// Number of bytes `char::len_utf8` reports for `c`.
pub open spec fn utf8_width(c: char) -> nat {
    if (c as u32) < 0x80 {
        1
    } else if (c as u32) < 0x800 {
        2
    } else if (c as u32) < 0x10000 {
        3
    } else {
        4
    }
}

/// Length in bytes of the UTF-8 encoding of `s`.
pub open spec fn utf8_len(s: Seq<char>) -> nat
    decreases s.len(),
{
    if s.len() == 0 {
        0
    } else {
        utf8_len(s.drop_last()) + utf8_width(s.last())
    }
}

/// `c.len_utf8()`.
pub fn len_utf8(c: char) -> (n: usize)
    ensures
        n == utf8_width(c),
{
    let u = c as u32;
    if u < 0x80 {
        1
    } else if u < 0x800 {
        2
    } else if u < 0x10000 {
        3
    } else {
        4
    }
}

/// A copy of `v[lo..hi]`.
pub fn sub_vec(v: &Vec<char>, lo: usize, hi: usize) -> (r: Vec<char>)
    requires
        lo <= hi <= v@.len(),
    ensures
        r@ == v@.subrange(lo as int, hi as int),
{
    let mut r: Vec<char> = Vec::new();
    let mut i = lo;
    while i < hi
        invariant
            lo <= i <= hi <= v@.len(),
            r@ == v@.subrange(lo as int, i as int),
        decreases hi - i,
    {
        r.push(v[i]);
        i = i + 1;
        assert(r@ =~= v@.subrange(lo as int, i as int));
    }
    r
}

pub proof fn lemma_utf8_len_step(s: Seq<char>, i: int)
    requires
        0 <= i < s.len(),
    ensures
        utf8_len(s.take(i + 1)) == utf8_len(s.take(i)) + utf8_width(s[i]),
{
    assert(s.take(i + 1).drop_last() =~= s.take(i));
}

/// Byte offsets grow strictly with character positions.
pub proof fn lemma_utf8_len_strict(s: Seq<char>, i: int, j: int)
    requires
        0 <= i < j <= s.len(),
    ensures
        utf8_len(s.take(i)) < utf8_len(s.take(j)),
    decreases j - i,
{
    lemma_utf8_len_step(s, j - 1);
    if i < j - 1 {
        lemma_utf8_len_strict(s, i, j - 1);
    }
}

/// Byte offset `b` of the UTF-8 encoding of `s` falls between characters.
pub open spec fn byte_boundary(s: Seq<char>, b: nat) -> bool {
    exists|k: int| 0 <= k <= s.len() && utf8_len(s.take(k)) == b
}

/// The character position at byte offset `b` of `s`.
pub open spec fn char_at_byte(s: Seq<char>, b: nat) -> int {
    choose|k: int| 0 <= k <= s.len() && utf8_len(s.take(k)) == b
}

/// The character position at byte offset `b`, when `b` falls between
/// characters (where `&s[b..]` and `&s[..b]` do not panic).
pub fn char_index_of_byte(v: &Vec<char>, b: usize) -> (r: Option<usize>)
    ensures
        match r {
            Some(k) => byte_boundary(v@, b as nat) && k == char_at_byte(v@, b as nat) && k
                <= v@.len() && utf8_len(v@.take(k as int)) == b,
            None => !byte_boundary(v@, b as nat),
        },
{
    let n = v.len();
    let mut acc: usize = 0;
    let mut k: usize = 0;
    loop
        invariant
            n == v@.len(),
            k <= n,
            acc == utf8_len(v@.take(k as int)),
            acc <= b,
        decreases n - k,
    {
        if acc == b {
            proof {
                assert(byte_boundary(v@, b as nat));
                let c = char_at_byte(v@, b as nat);
                if c < k {
                    lemma_utf8_len_strict(v@, c, k as int);
                }
                if c > k {
                    lemma_utf8_len_strict(v@, k as int, c);
                }
            }
            return Some(k);
        }
        if k == n {
            proof {
                assert forall|j: int| 0 <= j <= v@.len() implies utf8_len(v@.take(j)) != b by {
                    if j < k {
                        lemma_utf8_len_strict(v@, j, k as int);
                    }
                }
            }
            return None;
        }
        let w = len_utf8(v[k]);
        proof {
            lemma_utf8_len_step(v@, k as int);
        }
        if w > b - acc {
            proof {
                assert forall|j: int| 0 <= j <= v@.len() implies utf8_len(v@.take(j)) != b by {
                    if j < k {
                        lemma_utf8_len_strict(v@, j, k as int);
                    }
                    if j > k + 1 {
                        lemma_utf8_len_strict(v@, k + 1, j);
                    }
                }
            }
            return None;
        }
        acc = acc + w;
        k = k + 1;
    }
}

/// Whether `a` and `b` hold the same text.
pub fn same_chars(a: &Vec<char>, b: &Vec<char>) -> (r: bool)
    ensures
        r == (a@ == b@),
{
    if a.len() != b.len() {
        return false;
    }
    let mut i: usize = 0;
    while i < a.len()
        invariant
            a@.len() == b@.len(),
            i <= a@.len(),
            forall|j: int| 0 <= j < i ==> a@[j] == b@[j],
        decreases a.len() - i,
    {
        if a[i] != b[i] {
            return false;
        }
        i = i + 1;
    }
    assert(a@ =~= b@);
    true
}

/// Whether `v` starts with `pat`.
pub fn starts_with(v: &Vec<char>, pat: &Vec<char>) -> (r: bool)
    ensures
        r == pat@.is_prefix_of(v@),
{
    assert(v@.skip(0) =~= v@);
    occurs_at(v, 0, pat)
}

/// The first position of `pat` in `s` at or after `k` (`str::find` in
/// characters).
pub open spec fn find_from(s: Seq<char>, pat: Seq<char>, k: int) -> Option<int>
    decreases s.len() + 1 - k,
{
    if k < 0 || k > s.len() {
        None
    } else if pat.is_prefix_of(s.skip(k)) {
        Some(k)
    } else {
        find_from(s, pat, k + 1)
    }
}

/// The first position of `pat` in `v` at or after `k`.
pub fn find(v: &Vec<char>, pat: &Vec<char>, k: usize) -> (r: Option<usize>)
    requires
        k <= v@.len(),
    ensures
        match r {
            Some(i) => find_from(v@, pat@, k as int) == Some(i as int) && k <= i <= v@.len()
                && pat@.is_prefix_of(v@.skip(i as int)),
            None => find_from(v@, pat@, k as int) is None,
        },
{
    let mut i = k;
    while i <= v.len()
        invariant
            k <= i,
            find_from(v@, pat@, k as int) == find_from(v@, pat@, i as int),
        decreases v.len() + 1 - i,
    {
        if occurs_at(v, i, pat) {
            return Some(i);
        }
        if i == v.len() {
            assert(find_from(v@, pat@, i + 1) is None);
            return None;
        }
        i = i + 1;
    }
    None
}

/// Progress of `str::split(sep)`: the pieces finished and the piece being read.
pub struct PieceSplit {
    pub done: Seq<Seq<char>>,
    pub cur: Seq<char>,
}

pub open spec fn split_run(s: Seq<char>, sep: char) -> PieceSplit
    decreases s.len(),
{
    if s.len() == 0 {
        PieceSplit { done: seq![], cur: seq![] }
    } else {
        let st = split_run(s.drop_last(), sep);
        if s.last() == sep {
            PieceSplit { done: st.done.push(st.cur), cur: seq![] }
        } else {
            PieceSplit { done: st.done, cur: st.cur.push(s.last()) }
        }
    }
}

/// The pieces of `s` between occurrences of `sep` (`str::split`): always
/// one more than the number of separators.
pub open spec fn split_on(s: Seq<char>, sep: char) -> Seq<Seq<char>> {
    let st = split_run(s, sep);
    st.done.push(st.cur)
}

/// `s.split(sep)`, collected.
pub fn split_on_char(v: &Vec<char>, sep: char) -> (r: Vec<String>)
    ensures
        strings_view(r@) == split_on(v@, sep),
{
    let mut done: Vec<String> = Vec::new();
    let mut cur = String::new();
    let mut i: usize = 0;
    while i < v.len()
        invariant
            i <= v@.len(),
            strings_view(done@) == split_run(v@.take(i as int), sep).done,
            cur@ == split_run(v@.take(i as int), sep).cur,
        decreases v.len() - i,
    {
        assert(v@.take(i + 1).drop_last() =~= v@.take(i as int));
        if v[i] == sep {
            let piece = cur;
            done.push(piece);
            cur = String::new();
            assert(strings_view(done@) =~= split_run(v@.take(i + 1), sep).done);
        } else {
            push_char(&mut cur, v[i]);
        }
        i = i + 1;
    }
    assert(v@.take(v@.len() as int) =~= v@);
    done.push(cur);
    assert(strings_view(done@) =~= split_on(v@, sep));
    done
}

/// The lines joined with `sep` between them (`[String]::join`).
pub open spec fn join_with(lines: Seq<Seq<char>>, sep: Seq<char>) -> Seq<char>
    decreases lines.len(),
{
    if lines.len() == 0 {
        seq![]
    } else if lines.len() == 1 {
        lines[0]
    } else {
        join_with(lines.drop_last(), sep) + sep + lines.last()
    }
}

/// `lines[lo..].join(sep)`.
pub fn join_from(lines: &Vec<String>, lo: usize, sep: &str) -> (r: String)
    requires
        lo <= lines@.len(),
    ensures
        r@ == join_with(strings_view(lines@).skip(lo as int), sep@),
{
    let mut r = String::new();
    let mut i = lo;
    while i < lines.len()
        invariant
            lo <= i <= lines@.len(),
            r@ == join_with(strings_view(lines@).subrange(lo as int, i as int), sep@),
        decreases lines.len() - i,
    {
        let ghost part = strings_view(lines@).subrange(lo as int, i + 1);
        assert(part.drop_last() =~= strings_view(lines@).subrange(lo as int, i as int));
        if i > lo {
            r.append(sep);
        }
        r.append(lines[i].as_str());
        i = i + 1;
        assert(r@ =~= join_with(part, sep@));
    }
    assert(strings_view(lines@).subrange(lo as int, lines@.len() as int) =~= strings_view(
        lines@,
    ).skip(lo as int));
    r
}

pub proof fn lemma_trim_start_len(s: Seq<char>)
    ensures
        trim_start_seq(s).len() <= s.len(),
    decreases s.len(),
{
    if s.len() > 0 && is_ws(s[0]) {
        lemma_trim_start_len(s.drop_first());
    }
}

pub proof fn lemma_trim_end_len(s: Seq<char>)
    ensures
        trim_end_seq(s).len() <= s.len(),
    decreases s.len(),
{
    if s.len() > 0 && is_ws(s.last()) {
        lemma_trim_end_len(s.drop_last());
    }
}

/// Trimming never lengthens a text.
pub proof fn lemma_trim_len(s: Seq<char>)
    ensures
        trim_seq(s).len() <= s.len(),
{
    lemma_trim_start_len(s);
    lemma_trim_end_len(trim_start_seq(s));
}

/// The pieces of `s` that are not empty, in order.
pub open spec fn non_empty(s: Seq<Seq<char>>) -> Seq<Seq<char>>
    decreases s.len(),
{
    if s.len() == 0 {
        seq![]
    } else if s.last().len() == 0 {
        non_empty(s.drop_last())
    } else {
        non_empty(s.drop_last()).push(s.last())
    }
}

pub proof fn lemma_non_empty_len(s: Seq<Seq<char>>)
    ensures
        non_empty(s).len() <= s.len(),
    decreases s.len(),
{
    if s.len() > 0 {
        lemma_non_empty_len(s.drop_last());
    }
}

/// Splitting text that holds no separator gives the text itself.
pub proof fn lemma_split_no_sep(x: Seq<char>, sep: char)
    requires
        forall|i: int| 0 <= i < x.len() ==> x[i] != sep,
    ensures
        split_run(x, sep) == (PieceSplit { done: seq![], cur: x }),
    decreases x.len(),
{
    if x.len() > 0 {
        assert(x.last() == x[x.len() - 1]);
        assert forall|i: int| 0 <= i < x.drop_last().len() implies x.drop_last()[i] != sep by {
            assert(x.drop_last()[i] == x[i]);
        }
        lemma_split_no_sep(x.drop_last(), sep);
        assert(x.drop_last().push(x.last()) =~= x);
    } else {
        assert(x =~= seq![]);
    }
}

/// Splitting `a`, a separator, then `b`: the pieces of `a`, then those of `b`.
pub proof fn lemma_split_concat(a: Seq<char>, b: Seq<char>, sep: char)
    ensures
        split_run(a + seq![sep] + b, sep) == (PieceSplit {
            done: split_on(a, sep) + split_run(b, sep).done,
            cur: split_run(b, sep).cur,
        }),
    decreases b.len(),
{
    if b.len() == 0 {
        assert(a + seq![sep] + b =~= a.push(sep));
        assert(a.push(sep).drop_last() =~= a);
        assert(split_on(a, sep) + Seq::<Seq<char>>::empty() =~= split_on(a, sep));
    } else {
        lemma_split_concat(a, b.drop_last(), sep);
        assert((a + seq![sep] + b).drop_last() =~= a + seq![sep] + b.drop_last());
        let sb = split_run(b.drop_last(), sep);
        if b.last() == sep {
            assert(split_on(a, sep) + sb.done.push(sb.cur) =~= (split_on(a, sep) + sb.done).push(
                sb.cur,
            ));
        }
    }
}

/// Splitting lines joined with a separator none of them holds gives the
/// lines back.
pub proof fn lemma_split_join(lines: Seq<Seq<char>>, sep: char)
    requires
        lines.len() >= 1,
        forall|i: int, j: int| 0 <= i < lines.len() && 0 <= j < lines[i].len() ==> lines[i][j] != sep,
    ensures
        split_on(join_with(lines, seq![sep]), sep) == lines,
    decreases lines.len(),
{
    let last = lines.last();
    assert(forall|j: int| 0 <= j < last.len() ==> last[j] != sep) by {
        assert(last == lines[lines.len() - 1]);
    }
    lemma_split_no_sep(last, sep);
    if lines.len() == 1 {
        assert(join_with(lines, seq![sep]) == lines[0]);
        assert(split_on(lines[0], sep) =~= lines);
    } else {
        let init = lines.drop_last();
        assert forall|i: int, j: int| 0 <= i < init.len() && 0 <= j < init[i].len() implies init[i][j]
            != sep by {
            assert(init[i] == lines[i]);
        }
        lemma_split_join(init, sep);
        lemma_split_concat(join_with(init, seq![sep]), last, sep);
        assert(split_on(join_with(lines, seq![sep]), sep) =~= init.push(last));
        assert(init.push(last) =~= lines);
    }
}

pub proof fn lemma_decimal_digits(n: nat)
    ensures
        decimal(n).len() > 0,
        forall|i: int| 0 <= i < decimal(n).len() ==> is_digit(#[trigger] decimal(n)[i]),
    decreases n,
{
    assert(forall|d: nat| d < 10 ==> is_digit(#[trigger] digit_char(d))) by {
        assert forall|d: nat| d < 10 implies is_digit(#[trigger] digit_char(d)) by {
            let b: u8 = (48 + d) as u8;
            assert(b == 48 + d);
            assert(48 <= b <= 57);
            assert((b as char) as u32 == b as u32);
        }
    }
    if n >= 10 {
        lemma_decimal_digits(n / 10);
        assert forall|i: int| 0 <= i < decimal(n).len() implies is_digit(#[trigger] decimal(n)[i]) by {
            if i < decimal(n / 10).len() {
                assert(decimal(n)[i] == decimal(n / 10)[i]);
            }
        }
    }
}

pub proof fn lemma_trim_start_concat(a: Seq<char>, b: Seq<char>)
    ensures
        trim_start_seq(a + b) == if trim_start_seq(a).len() > 0 {
            trim_start_seq(a) + b
        } else {
            trim_start_seq(b)
        },
    decreases a.len(),
{
    if a.len() == 0 {
        assert(a + b =~= b);
    } else {
        assert((a + b)[0] == a[0]);
        assert((a + b).drop_first() =~= a.drop_first() + b);
        if is_ws(a[0]) {
            lemma_trim_start_concat(a.drop_first(), b);
        }
    }
}

pub proof fn lemma_trim_end_concat(a: Seq<char>, b: Seq<char>)
    ensures
        trim_end_seq(a + b) == if trim_end_seq(b).len() > 0 {
            a + trim_end_seq(b)
        } else {
            trim_end_seq(a)
        },
    decreases b.len(),
{
    if b.len() == 0 {
        assert(a + b =~= a);
    } else {
        assert((a + b).last() == b.last());
        assert((a + b).drop_last() =~= a + b.drop_last());
        if is_ws(b.last()) {
            lemma_trim_end_concat(a, b.drop_last());
        }
    }
}

pub proof fn lemma_trim_end_idempotent(s: Seq<char>)
    ensures
        trim_end_seq(trim_end_seq(s)) == trim_end_seq(s),
    decreases s.len(),
{
    if s.len() > 0 && is_ws(s.last()) {
        lemma_trim_end_idempotent(s.drop_last());
    }
}

/// Trimming the start and trimming the end commute.
pub proof fn lemma_trim_commute(s: Seq<char>)
    ensures
        trim_end_seq(trim_start_seq(s)) == trim_start_seq(trim_end_seq(s)),
    decreases s.len(),
{
    if s.len() > 0 {
        let h = seq![s[0]];
        let t = s.drop_first();
        assert(s =~= h + t);
        lemma_trim_end_concat(h, t);
        if is_ws(s[0]) {
            lemma_trim_commute(t);
            if trim_end_seq(t).len() > 0 {
                lemma_trim_start_concat(h, trim_end_seq(t));
                assert(trim_start_seq(h) =~= trim_start_seq(h.drop_first()));
                assert(h.drop_first() =~= Seq::<char>::empty());
            } else {
                assert(trim_end_seq(h) == trim_end_seq(h.drop_last()));
                assert(h.drop_last() =~= Seq::<char>::empty());
            }
        } else {
            if trim_end_seq(t).len() > 0 {
                assert((h + trim_end_seq(t))[0] == s[0]);
            } else {
                assert(trim_end_seq(h) == h);
            }
        }
    }
}

/// `trim` also equals trimming the end first.
pub proof fn lemma_trim_seq_end_first(s: Seq<char>)
    ensures
        trim_seq(s) == trim_start_seq(trim_end_seq(s)),
        trim_seq(trim_end_seq(s)) == trim_seq(s),
{
    lemma_trim_commute(s);
    lemma_trim_commute(trim_end_seq(s));
    lemma_trim_end_idempotent(s);
}

} // verus!
