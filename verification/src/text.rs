//! Lines, whitespace-separated tokens and unsigned decimal numbers in text
//! given as bytes. Whitespace means the ASCII whitespace characters.
use vstd::prelude::*;

verus! {

/// The views of a sequence of byte vectors.
pub open spec fn views(v: Seq<Vec<u8>>) -> Seq<Seq<u8>> {
    v.map_values(|x: Vec<u8>| x@)
}

/// A line without the `'\r'` that ends it, if any.
pub open spec fn strip_cr(c: Seq<u8>) -> Seq<u8> {
    if c.len() > 0 && c.last() == 13u8 {
        c.drop_last()
    } else {
        c
    }
}

/// Reading `t` left to right: the finished lines and the line being read.
pub open spec fn line_fold(t: Seq<u8>) -> (Seq<Seq<u8>>, Seq<u8>)
    decreases t.len(),
{
    if t.len() == 0 {
        (seq![], seq![])
    } else {
        let prev = line_fold(t.drop_last());
        if t.last() == 10u8 {
            (prev.0.push(strip_cr(prev.1)), seq![])
        } else {
            (prev.0, prev.1.push(t.last()))
        }
    }
}

/// The lines of `t`: the pieces between line feeds, each without a `'\r'`
/// before its line feed; a last piece is a line only when it is not empty.
pub open spec fn lines_of(t: Seq<u8>) -> Seq<Seq<u8>> {
    let f = line_fold(t);
    if f.1.len() > 0 {
        f.0.push(f.1)
    } else {
        f.0
    }
}

/// A line with content: not empty and not a comment starting with `'#'`.
pub open spec fn is_content(l: Seq<u8>) -> bool {
    l.len() > 0 && l[0] != 35u8
}

/// The lines of `t` that have content, in order.
pub open spec fn content_lines(t: Seq<u8>) -> Seq<Seq<u8>> {
    lines_of(t).filter(|l: Seq<u8>| is_content(l))
}

/// An ASCII whitespace byte.
pub open spec fn is_space(b: u8) -> bool {
    b == 32u8 || (9u8 <= b && b <= 13u8)
}

/// `c` is the UTF-8 encoding of a whitespace character, as
/// `char::is_whitespace` counts them: U+0009 to U+000D, U+0020, U+0085,
/// U+00A0, U+1680, U+2000 to U+200A, U+2028, U+2029, U+202F, U+205F and
/// U+3000.
pub open spec fn is_space_code(c: Seq<u8>) -> bool {
    if c.len() == 1 {
        is_space(c[0])
    } else if c.len() == 2 {
        c[0] == 0xC2u8 && (c[1] == 0x85u8 || c[1] == 0xA0u8)
    } else if c.len() == 3 {
        ||| (c[0] == 0xE1u8 && c[1] == 0x9Au8 && c[2] == 0x80u8)
        ||| (c[0] == 0xE2u8 && c[1] == 0x80u8 && ((0x80u8 <= c[2] && c[2] <= 0x8Au8) || c[2] == 0xA8u8
            || c[2] == 0xA9u8 || c[2] == 0xAFu8))
        ||| (c[0] == 0xE2u8 && c[1] == 0x81u8 && c[2] == 0x9Fu8)
        ||| (c[0] == 0xE3u8 && c[1] == 0x80u8 && c[2] == 0x80u8)
    } else {
        false
    }
}

/// The length of the whitespace character that `t` ends with, or 0.
pub open spec fn space_suffix(t: Seq<u8>) -> int {
    if t.len() >= 3 && is_space_code(t.subrange(t.len() - 3, t.len() as int)) {
        3
    } else if t.len() >= 2 && is_space_code(t.subrange(t.len() - 2, t.len() as int)) {
        2
    } else if t.len() >= 1 && is_space(t.last()) {
        1
    } else {
        0
    }
}

/// Reading `t`: the finished tokens and the token being read. A whitespace
/// character ends the token being read; any other byte extends it.
pub open spec fn token_fold(t: Seq<u8>) -> (Seq<Seq<u8>>, Seq<u8>)
    decreases t.len(),
{
    if t.len() == 0 {
        (seq![], seq![])
    } else if space_suffix(t) > 0 {
        let prev = token_fold(t.take(t.len() - space_suffix(t)));
        if prev.1.len() > 0 {
            (prev.0.push(prev.1), seq![])
        } else {
            (prev.0, seq![])
        }
    } else {
        let prev = token_fold(t.drop_last());
        (prev.0, prev.1.push(t.last()))
    }
}

/// The maximal runs of `t` without whitespace characters, in order.
pub open spec fn tokens(t: Seq<u8>) -> Seq<Seq<u8>> {
    let f = token_fold(t);
    if f.1.len() > 0 {
        f.0.push(f.1)
    } else {
        f.0
    }
}

pub open spec fn is_digit(b: u8) -> bool {
    48u8 <= b && b <= 57u8
}

pub open spec fn digits_value(s: Seq<u8>) -> int
    decreases s.len(),
{
    if s.len() == 0 {
        0
    } else {
        10 * digits_value(s.drop_last()) + (s.last() - 48)
    }
}

/// The part of `s` after an optional leading `'+'`.
pub open spec fn digits_part(s: Seq<u8>) -> Seq<u8> {
    if s.len() > 0 && s[0] == 43u8 {
        s.drop_first()
    } else {
        s
    }
}

pub open spec fn all_digits(d: Seq<u8>) -> bool {
    forall|i: int| 0 <= i < d.len() ==> is_digit(#[trigger] d[i])
}

/// An unsigned decimal number as the standard library reads one: an
/// optional `'+'`, then at least one digit and nothing else, with a value of
/// at most `max`.
pub open spec fn parse_unsigned(s: Seq<u8>, max: int) -> Option<int> {
    let d = digits_part(s);
    if d.len() > 0 && all_digits(d) && digits_value(d) <= max {
        Some(digits_value(d))
    } else {
        None
    }
}

proof fn lemma_digits_monotone(s: Seq<u8>, i: int)
    requires
        0 <= i <= s.len(),
        forall|j: int| 0 <= j < s.len() ==> is_digit(#[trigger] s[j]),
    ensures
        digits_value(s.take(i)) <= digits_value(s),
        digits_value(s) >= 0,
    decreases s.len(),
{
    if s.len() > 0 {
        if i == s.len() {
            assert(s.take(i) =~= s);
            lemma_digits_monotone(s.drop_last(), 0);
        } else {
            assert(s.drop_last().take(i) =~= s.take(i));
            lemma_digits_monotone(s.drop_last(), i);
        }
    } else {
        assert(s.take(i) =~= s);
    }
}

/// Reads an unsigned decimal number of at most `max`.
pub fn parse_unsigned_exec(s: &[u8], max: u64) -> (r: Option<u64>)
    ensures
        match parse_unsigned(s@, max as int) {
            Some(v) => r == Some(v as u64),
            None => r is None,
        },
        r matches Some(x) ==> x <= max && parse_unsigned(s@, max as int) == Some(x as int),
{
    let ghost d = digits_part(s@);
    let start: usize = if s.len() > 0 && s[0] == 43u8 { 1 } else { 0 };
    if start >= s.len() {
        proof {
            assert(d.len() == 0);
        }
        return None;
    }
    proof {
        assert(d =~= s@.subrange(start as int, s@.len() as int));
        assert(d.take(0) =~= Seq::<u8>::empty());
    }
    let mut acc: u64 = 0;
    let mut i: usize = start;
    while i < s.len()
        invariant
            start <= i <= s@.len(),
            d == s@.subrange(start as int, s@.len() as int),
            d == digits_part(s@),
            max <= u64::MAX,
            forall|j: int| 0 <= j < i - start ==> is_digit(#[trigger] d[j]),
            acc == digits_value(d.take(i - start)),
            acc <= max,
        decreases s@.len() - i,
    {
        let b = s[i];
        assert(b == d[i - start]);
        if b < 48u8 || b > 57u8 {
            proof {
                assert(!is_digit(d[i - start]));
                assert(!(forall|j: int| 0 <= j < d.len() ==> is_digit(#[trigger] d[j])));
                assert(parse_unsigned(s@, max as int) is None);
            }
            return None;
        }
        proof {
            assert(d.take(i - start + 1).drop_last() =~= d.take(i - start));
        }
        let digit = (b - 48u8) as u64;
        let next = match acc.checked_mul(10) {
            Some(m) => m.checked_add(digit),
            None => None,
        };
        match next {
            Some(v) => {
                if v > max {
                    proof {
                        assert(digits_value(d.take(i - start + 1)) == 10 * acc + digit);
                        if all_digits(d) {
                            lemma_digits_monotone(d, i - start + 1);
                        }
                        assert(parse_unsigned(s@, max as int) is None);
                    }
                    return None;
                }
                acc = v;
            },
            None => {
                proof {
                    assert(digits_value(d.take(i - start + 1)) == 10 * acc + digit);
                    if all_digits(d) {
                        lemma_digits_monotone(d, i - start + 1);
                    }
                    assert(parse_unsigned(s@, max as int) is None);
                }
                return None;
            },
        }
        i = i + 1;
    }
    proof {
        assert(d.take(i - start) =~= d);
    }
    Some(acc)
}

/// The lines of `text`.
pub fn split_lines(text: &[u8]) -> (r: Vec<Vec<u8>>)
    ensures
        views(r@) == lines_of(text@),
{
    let mut done: Vec<Vec<u8>> = Vec::new();
    let mut cur: Vec<u8> = Vec::new();
    let mut i: usize = 0;
    while i < text.len()
        invariant
            i <= text@.len(),
            (views(done@), cur@) == line_fold(text@.take(i as int)),
        decreases text@.len() - i,
    {
        proof {
            assert(text@.take(i as int + 1).drop_last() =~= text@.take(i as int));
            assert(text@.take(i as int + 1).last() == text@[i as int]);
        }
        let b = text[i];
        if b == 10u8 {
            let mut line = cur;
            let len = line.len();
            if len > 0 && line[len - 1] == 13u8 {
                line.pop();
            }
            proof {
                assert(line@ =~= strip_cr(line_fold(text@.take(i as int)).1));
            }
            done.push(line);
            cur = Vec::new();
            proof {
                assert(views(done@) =~= line_fold(text@.take(i as int)).0.push(strip_cr(line_fold(text@.take(i as int)).1)));
            }
        } else {
            cur.push(b);
        }
        i = i + 1;
    }
    proof {
        assert(text@.take(text@.len() as int) =~= text@);
    }
    if cur.len() > 0 {
        done.push(cur);
        proof {
            assert(views(done@) =~= lines_of(text@));
        }
    }
    done
}

/// The length of the whitespace character that starts at `i` in `t`, or 0.
pub open spec fn space_at(t: Seq<u8>, i: int) -> int {
    if i + 3 <= t.len() && is_space_code(t.subrange(i, i + 3)) {
        3
    } else if i + 2 <= t.len() && is_space_code(t.subrange(i, i + 2)) {
        2
    } else if i + 1 <= t.len() && is_space(t[i]) {
        1
    } else {
        0
    }
}

/// No whitespace character of `t` starts before `i` and ends after it.
pub open spec fn no_space_across(t: Seq<u8>, i: int) -> bool {
    forall|j: int, k: int|
        0 <= j < i < j + k <= t.len() && 2 <= k <= 3 ==> !#[trigger] is_space_code(t.subrange(j, j + k))
}

fn space_len_at(line: &[u8], i: usize) -> (k: usize)
    requires
        i < line@.len(),
    ensures
        k == space_at(line@, i as int),
{
    let n = line.len();
    let b = line[i];
    if n - i >= 3 {
        let c1 = line[i + 1];
        let c2 = line[i + 2];
        let three = (b == 0xE1u8 && c1 == 0x9Au8 && c2 == 0x80u8) || (b == 0xE2u8 && c1 == 0x80u8 && ((0x80u8
            <= c2 && c2 <= 0x8Au8) || c2 == 0xA8u8 || c2 == 0xA9u8 || c2 == 0xAFu8)) || (b == 0xE2u8 && c1
            == 0x81u8 && c2 == 0x9Fu8) || (b == 0xE3u8 && c1 == 0x80u8 && c2 == 0x80u8);
        proof {
            let c = line@.subrange(i as int, i + 3);
            assert(c[0] == b && c[1] == c1 && c[2] == c2);
        }
        if three {
            return 3;
        }
    }
    if n - i >= 2 {
        let c1 = line[i + 1];
        proof {
            let c = line@.subrange(i as int, i + 2);
            assert(c[0] == b && c[1] == c1);
        }
        if b == 0xC2u8 && (c1 == 0x85u8 || c1 == 0xA0u8) {
            return 2;
        }
    }
    if b == 32u8 || (9u8 <= b && b <= 13u8) {
        1
    } else {
        0
    }
}

proof fn lemma_space_step(t: Seq<u8>, i: int)
    requires
        0 <= i < t.len(),
        no_space_across(t, i),
    ensures
        space_at(t, i) > 0 ==> {
            &&& space_suffix(t.take(i + space_at(t, i))) == space_at(t, i)
            &&& t.take(i + space_at(t, i)).take(i) == t.take(i)
            &&& no_space_across(t, i + space_at(t, i))
        },
        space_at(t, i) == 0 ==> {
            &&& space_suffix(t.take(i + 1)) == 0
            &&& no_space_across(t, i + 1)
        },
{
    let k = space_at(t, i);
    let u = if k > 0 { t.take(i + k) } else { t.take(i + 1) };
    let e = i + if k > 0 { k } else { 1 };
    assert(u.len() == e);
    // whitespace characters ending at `e` other than the one at `i` would cross `i`
    if e >= 3 {
        assert(u.subrange(e - 3, e) =~= t.subrange(e - 3, e));
        if k != 3 && e - 3 < i {
            assert(!is_space_code(t.subrange(e - 3, e - 3 + 3)));
        }
    }
    if e >= 2 {
        assert(u.subrange(e - 2, e) =~= t.subrange(e - 2, e));
        if k != 2 && e - 2 < i {
            assert(!is_space_code(t.subrange(e - 2, e - 2 + 2)));
        }
    }
    if k == 2 {
        assert(t.subrange(i, i + 2)[1] == t[i + 1]);
    }
    if k == 3 {
        assert(t.subrange(i, i + 3)[1] == t[i + 1]);
        assert(t.subrange(i, i + 3)[2] == t[i + 2]);
    }
    assert(u.last() == t[e - 1]);
    if k > 0 {
        assert(t.take(i + k).take(i) =~= t.take(i));
    }
    assert forall|j: int, m: int| 0 <= j < e < j + m <= t.len() && 2 <= m <= 3 implies !#[trigger] is_space_code(
        t.subrange(j, j + m),
    ) by {
        let c = t.subrange(j, j + m);
        assert(c[0] == t[j]);
        if j < i {
            assert(j < i < j + m);
        } else if j > i {
            // `t[j]` continues the character at `i`, and no character starts with such a byte
            assert(j < i + k);
            if k == 2 {
                assert(t.subrange(i, i + 2)[1] == t[j]);
            } else {
                assert(t.subrange(i, i + 3)[j - i] == t[j]);
            }
        }
    }
}

/// The whitespace-separated tokens of `line`.
pub fn split_tokens(line: &[u8]) -> (r: Vec<Vec<u8>>)
    ensures
        views(r@) == tokens(line@),
{
    let mut done: Vec<Vec<u8>> = Vec::new();
    let mut cur: Vec<u8> = Vec::new();
    let mut i: usize = 0;
    while i < line.len()
        invariant
            i <= line@.len(),
            (views(done@), cur@) == token_fold(line@.take(i as int)),
            no_space_across(line@, i as int),
        decreases line@.len() - i,
    {
        let k = space_len_at(line, i);
        proof {
            lemma_space_step(line@, i as int);
        }
        if k > 0 {
            proof {
                let u = line@.take(i + k);
                assert(u.len() == i + k);
                assert(u.take(u.len() - space_suffix(u)) == line@.take(i as int));
            }
            if cur.len() > 0 {
                let tok = cur;
                done.push(tok);
                cur = Vec::new();
                proof {
                    assert(views(done@) =~= token_fold(line@.take(i as int)).0.push(token_fold(line@.take(i as int)).1));
                }
            } else {
                cur = Vec::new();
                proof {
                    assert(cur@ =~= Seq::<u8>::empty());
                }
            }
            i = i + k;
        } else {
            proof {
                assert(line@.take(i as int + 1).drop_last() =~= line@.take(i as int));
                assert(line@.take(i as int + 1).last() == line@[i as int]);
            }
            cur.push(line[i]);
            i = i + 1;
        }
    }
    proof {
        assert(line@.take(line@.len() as int) =~= line@);
    }
    if cur.len() > 0 {
        done.push(cur);
        proof {
            assert(views(done@) =~= tokens(line@));
        }
    }
    done
}

/// The lines of `text` that are neither empty nor comments.
pub fn read_lines(text: &[u8]) -> (r: Vec<Vec<u8>>)
    ensures
        views(r@) == content_lines(text@),
{
    let all = split_lines(text);
    let ghost ls = views(all@);
    let mut r: Vec<Vec<u8>> = Vec::new();
    let mut i: usize = 0;
    let n = all.len();
    while i < n
        invariant
            n == all@.len(),
            ls == views(all@),
            i <= n,
            views(r@) == ls.take(i as int).filter(|l: Seq<u8>| is_content(l)),
        decreases n - i,
    {
        proof {
            reveal_with_fuel(Seq::<_>::filter, 1);
            assert(ls.take(i as int + 1).drop_last() =~= ls.take(i as int));
            assert(ls.take(i as int + 1).last() == all@[i as int]@);
        }
        let line = &all[i];
        if line.len() > 0 && line[0] != 35u8 {
            r.push(line.clone());
            proof {
                assert(views(r@) =~= ls.take(i as int).filter(|l: Seq<u8>| is_content(l)).push(all@[i as int]@));
            }
        }
        i = i + 1;
    }
    proof {
        assert(ls.take(n as int) =~= ls);
    }
    r
}


/// A continuation byte of UTF-8.
pub open spec fn is_cont(b: u8) -> bool {
    0x80u8 <= b && b <= 0xBFu8
}

/// The length of the well-formed UTF-8 encoding of a character at the start
/// of `s`, or 0 when `s` does not start with one.
pub open spec fn char_len(s: Seq<u8>) -> int {
    if s.len() == 0 {
        0
    } else if s[0] < 0x80u8 {
        1
    } else if 0xC2u8 <= s[0] && s[0] <= 0xDFu8 {
        if s.len() >= 2 && is_cont(s[1]) { 2 } else { 0 }
    } else if 0xE0u8 <= s[0] && s[0] <= 0xEFu8 {
        let lo: u8 = if s[0] == 0xE0u8 { 0xA0u8 } else { 0x80u8 };
        let hi: u8 = if s[0] == 0xEDu8 { 0x9Fu8 } else { 0xBFu8 };
        if s.len() >= 3 && lo <= s[1] && s[1] <= hi && is_cont(s[2]) { 3 } else { 0 }
    } else if 0xF0u8 <= s[0] && s[0] <= 0xF4u8 {
        let lo: u8 = if s[0] == 0xF0u8 { 0x90u8 } else { 0x80u8 };
        let hi: u8 = if s[0] == 0xF4u8 { 0x8Fu8 } else { 0xBFu8 };
        if s.len() >= 4 && lo <= s[1] && s[1] <= hi && is_cont(s[2]) && is_cont(s[3]) { 4 } else { 0 }
    } else {
        0
    }
}

/// `s` is well-formed UTF-8, as `str::from_utf8` accepts it.
pub open spec fn is_utf8(s: Seq<u8>) -> bool
    decreases s.len(),
{
    if s.len() == 0 {
        true
    } else if char_len(s) > 0 {
        is_utf8(s.skip(char_len(s)))
    } else {
        false
    }
}

fn char_len_at(s: &[u8], i: usize) -> (k: usize)
    requires
        i < s@.len(),
    ensures
        k == char_len(s@.skip(i as int)),
{
    let ghost t = s@.skip(i as int);
    let n = s.len() - i;
    let b = s[i];
    proof {
        assert(t.len() == n && t[0] == b);
    }
    if b < 0x80u8 {
        1
    } else if 0xC2u8 <= b && b <= 0xDFu8 {
        if n >= 2 && 0x80u8 <= s[i + 1] && s[i + 1] <= 0xBFu8 {
            assert(t[1] == s@[i + 1]);
            2
        } else {
            proof {
                if n >= 2 {
                    assert(t[1] == s@[i + 1]);
                }
            }
            0
        }
    } else if 0xE0u8 <= b && b <= 0xEFu8 {
        let lo: u8 = if b == 0xE0u8 { 0xA0u8 } else { 0x80u8 };
        let hi: u8 = if b == 0xEDu8 { 0x9Fu8 } else { 0xBFu8 };
        if n >= 3 {
            assert(t[1] == s@[i + 1] && t[2] == s@[i + 2]);
            if lo <= s[i + 1] && s[i + 1] <= hi && 0x80u8 <= s[i + 2] && s[i + 2] <= 0xBFu8 {
                return 3;
            }
        }
        0
    } else if 0xF0u8 <= b && b <= 0xF4u8 {
        let lo: u8 = if b == 0xF0u8 { 0x90u8 } else { 0x80u8 };
        let hi: u8 = if b == 0xF4u8 { 0x8Fu8 } else { 0xBFu8 };
        if n >= 4 {
            assert(t[1] == s@[i + 1] && t[2] == s@[i + 2] && t[3] == s@[i + 3]);
            if lo <= s[i + 1] && s[i + 1] <= hi && 0x80u8 <= s[i + 2] && s[i + 2] <= 0xBFu8 && 0x80u8 <= s[i
                + 3] && s[i + 3] <= 0xBFu8 {
                return 4;
            }
        }
        0
    } else {
        0
    }
}

/// Whether `s` is well-formed UTF-8.
pub fn check_utf8(s: &[u8]) -> (r: bool)
    ensures
        r == is_utf8(s@),
{
    let mut i: usize = 0;
    proof {
        assert(s@.skip(0) =~= s@);
    }
    while i < s.len()
        invariant
            i <= s@.len(),
            is_utf8(s@) == is_utf8(s@.skip(i as int)),
        decreases s@.len() - i,
    {
        let k = char_len_at(s, i);
        if k == 0 {
            return false;
        }
        proof {
            assert(s@.skip(i as int).skip(k as int) =~= s@.skip(i + k));
        }
        i = i + k;
    }
    proof {
        assert(s@.skip(i as int) =~= Seq::<u8>::empty());
    }
    true
}

/// `t` writes the number `v` in decimal: one digit or more and nothing else.
pub open spec fn number_text(t: Seq<u8>, v: int) -> bool {
    &&& t.len() > 0
    &&& all_digits(t)
    &&& digits_value(t) == v
}

/// A number written in decimal reads back as itself when it is no more than
/// `max`, and as nothing otherwise; whatever reads as a number is one
/// written in decimal, after an optional `'+'`.
pub proof fn lemma_number_reads(t: Seq<u8>, v: int, max: int)
    ensures
        number_text(t, v) ==> v >= 0 && parse_unsigned(t, max) == if v <= max { Some(v) } else { None::<int> },
        parse_unsigned(t, max) matches Some(x) ==> 0 <= x <= max && number_text(digits_part(t), x),
{
    if all_digits(digits_part(t)) {
        lemma_digits_monotone(digits_part(t), 0);
    }
    if number_text(t, v) {
        lemma_digits_monotone(t, 0);
        assert(is_digit(t[0]));
        assert(digits_part(t) == t);
    }
}

} // verus!
