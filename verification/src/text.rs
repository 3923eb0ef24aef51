//! The few `String` and `char` operations of std that the library's text
//! handling needs and vstd does not specify.

use vstd::prelude::*;
use vstd::string::*;

verus! {

/// The upper-case form of an ASCII letter; any other character as it is.
pub open spec fn ascii_upper(c: char) -> char {
    if 'a' <= c <= 'z' {
        ((c as u32) - 32) as char
    } else {
        c
    }
}

/// `String::push`: `c` is appended to `s`.
#[verifier::external_body]
pub(crate) fn push_char(s: &mut String, c: char)
    ensures
        final(s)@ == old(s)@.push(c),
{
    s.push(c);
}

/// The upper-case form of an ASCII letter; any other character as it is
/// (as `char::to_ascii_uppercase` gives it).
pub(crate) fn to_ascii_uppercase(c: char) -> (r: char)
    ensures
        r == ascii_upper(c),
{
    if 'a' <= c && c <= 'z' {
        ((c as u8) - 32) as char
    } else {
        c
    }
}

/// The characters of `s`.
pub fn chars_of(s: &str) -> (r: Vec<char>)
    ensures
        r@ == s@,
{
    let n = s.unicode_len();
    let mut r: Vec<char> = Vec::new();
    let mut i: usize = 0;
    while i < n
        invariant
            n == s@.len(),
            i <= n,
            r@ == s@.take(i as int),
        decreases n - i,
    {
        r.push(s.get_char(i));
        assert(s@.take(i + 1) =~= s@.take(i as int).push(s@[i as int]));
        i = i + 1;
    }
    assert(s@.take(n as int) =~= s@);
    r
}

/// The text of `chars[from..to]`.
pub fn text_of(chars: &Vec<char>, from: usize, to: usize) -> (r: String)
    requires
        from <= to <= chars@.len(),
    ensures
        r@ == chars@.subrange(from as int, to as int),
{
    let mut r = String::new();
    let mut i = from;
    while i < to
        invariant
            from <= i <= to <= chars@.len(),
            r@ == chars@.subrange(from as int, i as int),
        decreases to - i,
    {
        push_char(&mut r, chars[i]);
        assert(chars@.subrange(from as int, i + 1) =~= chars@.subrange(from as int, i as int).push(chars@[i as int]));
        i = i + 1;
    }
    r
}

/// Whether `c` has the Unicode `White_Space` property, as
/// `char::is_whitespace` decides.
pub open spec fn is_ws(c: char) -> bool {
    ||| '\u{9}' <= c <= '\u{d}'
    ||| c == ' '
    ||| c == '\u{85}'
    ||| c == '\u{a0}'
    ||| c == '\u{1680}'
    ||| '\u{2000}' <= c <= '\u{200a}'
    ||| c == '\u{2028}'
    ||| c == '\u{2029}'
    ||| c == '\u{202f}'
    ||| c == '\u{205f}'
    ||| c == '\u{3000}'
}

/// Whether `c` is white space (see [`is_ws`]).
pub fn is_whitespace(c: char) -> (r: bool)
    ensures
        r == is_ws(c),
{
    ('\u{9}' <= c && c <= '\u{d}') || c == ' ' || c == '\u{85}' || c == '\u{a0}' || c == '\u{1680}' || ('\u{2000}'
        <= c && c <= '\u{200a}') || c == '\u{2028}' || c == '\u{2029}' || c == '\u{202f}' || c == '\u{205f}' || c
        == '\u{3000}'
}

/// Index of the first `c` in `s` at or after `i`, or the length of `s`.
pub open spec fn find_from(s: Seq<char>, c: char, i: int) -> int
    decreases s.len() - i,
{
    if i >= s.len() {
        s.len() as int
    } else if s[i] == c {
        i
    } else {
        find_from(s, c, i + 1)
    }
}

proof fn lemma_find_from(s: Seq<char>, c: char, i: int)
    requires
        0 <= i <= s.len(),
    ensures
        i <= find_from(s, c, i) <= s.len(),
        find_from(s, c, i) < s.len() ==> s[find_from(s, c, i)] == c,
        forall|k: int| i <= k < find_from(s, c, i) ==> s[k] != c,
    decreases s.len() - i,
{
    if i < s.len() && s[i] != c {
        lemma_find_from(s, c, i + 1);
    }
}

/// `chars`' first `c` at or after `i`, or its length.
pub fn find_char(chars: &Vec<char>, c: char, i: usize) -> (r: usize)
    requires
        i <= chars@.len(),
    ensures
        r == find_from(chars@, c, i as int),
        i <= r <= chars@.len(),
{
    proof {
        lemma_find_from(chars@, c, i as int);
    }
    let mut k = i;
    while k < chars.len() && chars[k] != c
        invariant
            i <= k <= chars@.len(),
            find_from(chars@, c, k as int) == find_from(chars@, c, i as int),
        decreases chars@.len() - k,
    {
        k = k + 1;
    }
    k
}

/// The lines of `s` from `i` on, as `str::lines` gives them: split at
/// `\n`, a `\r` just before a `\n` dropped, and no empty line after a
/// final `\n`.
pub open spec fn lines_from(s: Seq<char>, i: int) -> Seq<Seq<char>>
    decreases s.len() - i,
{
    if i < 0 || i >= s.len() {
        seq![]
    } else {
        let e = find_from(s, '\n', i);
        if e >= s.len() || e < i {
            seq![s.subrange(i, s.len() as int)]
        } else {
            let line = if e > i && s[e - 1] == '\r' {
                s.subrange(i, e - 1)
            } else {
                s.subrange(i, e)
            };
            seq![line] + lines_from(s, e + 1)
        }
    }
}

/// The lines of `s` (see [`lines_from`]).
pub open spec fn lines_of(s: Seq<char>) -> Seq<Seq<char>> {
    lines_from(s, 0)
}

/// The lines of `text`, as `str::lines` gives them.
pub fn lines(text: &str) -> (r: Vec<String>)
    ensures
        r@.map_values(|l: String| l@) == lines_of(text@),
{
    let chars = chars_of(text);
    let n = chars.len();
    let mut out: Vec<String> = Vec::new();
    let mut i: usize = 0;
    while i < n
        invariant
            n == chars@.len(),
            chars@ == text@,
            i <= n,
            out@.map_values(|l: String| l@) + lines_from(chars@, i as int) == lines_of(text@),
        decreases n - i,
    {
        let ghost before = out@.map_values(|l: String| l@);
        let e = find_char(&chars, '\n', i);
        proof {
            lemma_find_from(chars@, '\n', i as int);
        }
        if e >= n {
            out.push(text_of(&chars, i, n));
            assert(out@.map_values(|l: String| l@) =~= before + lines_from(chars@, i as int));
            i = n;
            assert(lines_from(chars@, i as int) =~= Seq::<Seq<char>>::empty());
            assert(out@.map_values(|l: String| l@) + lines_from(chars@, i as int) =~= out@.map_values(
                |l: String| l@,
            ));
        } else {
            let end = if e > i && chars[e - 1] == '\r' {
                e - 1
            } else {
                e
            };
            out.push(text_of(&chars, i, end));
            proof {
                let line = chars@.subrange(i as int, end as int);
                assert(lines_from(chars@, i as int) == seq![line] + lines_from(chars@, e + 1));
                assert(out@.map_values(|l: String| l@) =~= before.push(line));
                assert(before.push(line) + lines_from(chars@, e + 1) =~= before + (seq![line] + lines_from(
                    chars@,
                    e + 1,
                )));
            }
            i = e + 1;
        }
    }
    proof {
        assert(lines_from(chars@, i as int) =~= Seq::<Seq<char>>::empty());
        assert(out@.map_values(|l: String| l@) + Seq::<Seq<char>>::empty() =~= out@.map_values(|l: String| l@));
    }
    out
}

/// Index of the first character of `s` at or after `i` that is not white
/// space, or the length of `s`.
pub open spec fn skip_ws(s: Seq<char>, i: int) -> int
    decreases s.len() - i,
{
    if i >= s.len() {
        s.len() as int
    } else if !is_ws(s[i]) {
        i
    } else {
        skip_ws(s, i + 1)
    }
}

/// One past the last character of `s[..j]` that is not white space, or zero.
pub open spec fn skip_ws_back(s: Seq<char>, j: int) -> int
    decreases j,
{
    if j <= 0 {
        0
    } else if !is_ws(s[j - 1]) {
        j
    } else {
        skip_ws_back(s, j - 1)
    }
}

/// `s` without leading and trailing white space, as `str::trim` gives it.
pub open spec fn trimmed(s: Seq<char>) -> Seq<char> {
    let a = skip_ws(s, 0);
    let b = skip_ws_back(s, s.len() as int);
    if a < b {
        s.subrange(a, b)
    } else {
        seq![]
    }
}

proof fn lemma_skip_ws(s: Seq<char>, i: int)
    requires
        0 <= i <= s.len(),
    ensures
        i <= skip_ws(s, i) <= s.len(),
    decreases s.len() - i,
{
    if i < s.len() && is_ws(s[i]) {
        lemma_skip_ws(s, i + 1);
    }
}

proof fn lemma_skip_ws_back(s: Seq<char>, j: int)
    requires
        0 <= j <= s.len(),
    ensures
        0 <= skip_ws_back(s, j) <= j,
    decreases j,
{
    if j > 0 && is_ws(s[j - 1]) {
        lemma_skip_ws_back(s, j - 1);
    }
}

/// `chars[from..to]` without leading and trailing white space.
pub fn trim_range(chars: &Vec<char>, from: usize, to: usize) -> (r: String)
    requires
        from <= to <= chars@.len(),
    ensures
        r@ == trimmed(chars@.subrange(from as int, to as int)),
{
    let ghost s = chars@.subrange(from as int, to as int);
    let mut a = from;
    proof {
        lemma_skip_ws(s, 0);
        lemma_skip_ws_back(s, s.len() as int);
    }
    while a < to && is_whitespace(chars[a])
        invariant
            from <= a <= to <= chars@.len(),
            s == chars@.subrange(from as int, to as int),
            skip_ws(s, (a - from) as int) == skip_ws(s, 0),
        decreases to - a,
    {
        assert(s[(a - from) as int] == chars@[a as int]);
        a = a + 1;
    }
    proof {
        if a < to {
            assert(s[(a - from) as int] == chars@[a as int]);
        }
    }
    let mut b = to;
    while b > a && is_whitespace(chars[b - 1])
        invariant
            from <= a <= b <= to <= chars@.len(),
            s == chars@.subrange(from as int, to as int),
            skip_ws_back(s, (b - from) as int) == skip_ws_back(s, s.len() as int),
            skip_ws(s, 0) == (a - from) as int,
        decreases b,
    {
        assert(s[(b - 1 - from) as int] == chars@[b - 1]);
        b = b - 1;
    }
    proof {
        let bb = (b - from) as int;
        if b > a {
            assert(s[bb - 1] == chars@[b - 1]);
            assert(skip_ws_back(s, bb) == bb);
        } else {
            // Everything from `a` to `b` is white space or empty.
            assert(skip_ws_back(s, s.len() as int) <= skip_ws(s, 0)) by {
                lemma_back_before_front(s, bb, (a - from) as int);
            }
        }
    }
    let r = text_of(chars, a, b);
    proof {
        if b > a {
            assert(chars@.subrange(a as int, b as int) =~= s.subrange((a - from) as int, (b - from) as int));
        }
    }
    r
}

proof fn lemma_back_before_front(s: Seq<char>, j: int, a: int)
    requires
        0 <= j <= a <= s.len(),
        skip_ws(s, 0) == a,
    ensures
        skip_ws_back(s, j) <= a,
    decreases j,
{
    lemma_skip_ws_back(s, j);
}

/// One past the end of the run of non-white-space characters of `s` at `i`.
pub open spec fn word_end(s: Seq<char>, i: int) -> int
    decreases s.len() - i,
{
    if i >= s.len() {
        s.len() as int
    } else if is_ws(s[i]) {
        i
    } else {
        word_end(s, i + 1)
    }
}

proof fn lemma_word_end(s: Seq<char>, i: int)
    requires
        0 <= i <= s.len(),
    ensures
        i <= word_end(s, i) <= s.len(),
    decreases s.len() - i,
{
    if i < s.len() && !is_ws(s[i]) {
        lemma_word_end(s, i + 1);
    }
}

/// The words of `s` from `i` on, as `str::split_whitespace` gives them:
/// the maximal runs of characters that are not white space.
pub open spec fn words_from(s: Seq<char>, i: int) -> Seq<Seq<char>>
    decreases s.len() - i, 1int,
{
    if i < 0 || i > s.len() {
        seq![]
    } else {
        let a = skip_ws(s, i);
        if a >= s.len() || a < i {
            seq![]
        } else {
            let b = word_end(s, a);
            if b <= a || b > s.len() {
                seq![]
            } else {
                seq![s.subrange(a, b)] + words_from(s, b)
            }
        }
    }
}

/// The words of `text`.
pub fn split_whitespace(text: &str) -> (r: Vec<String>)
    ensures
        r@.map_values(|w: String| w@) == words_from(text@, 0),
{
    let chars = chars_of(text);
    let n = chars.len();
    let mut out: Vec<String> = Vec::new();
    let mut i: usize = 0;
    loop
        invariant_except_break
            out@.map_values(|w: String| w@) + words_from(chars@, i as int) == words_from(text@, 0),
        invariant
            n == chars@.len(),
            chars@ == text@,
            i <= n,
        ensures
            out@.map_values(|w: String| w@) == words_from(text@, 0),
        decreases n - i,
    {
        let ghost before = out@.map_values(|w: String| w@);
        proof {
            lemma_skip_ws(chars@, i as int);
        }
        let mut a = i;
        while a < n && is_whitespace(chars[a])
            invariant
                i <= a <= n,
                n == chars@.len(),
                skip_ws(chars@, a as int) == skip_ws(chars@, i as int),
            decreases n - a,
        {
            a = a + 1;
        }
        if a >= n {
            assert(words_from(chars@, i as int) =~= Seq::<Seq<char>>::empty());
            assert(before + Seq::<Seq<char>>::empty() =~= before);
            break;
        }
        proof {
            lemma_word_end(chars@, a as int);
        }
        let mut b = a;
        while b < n && !is_whitespace(chars[b])
            invariant
                a <= b <= n,
                n == chars@.len(),
                word_end(chars@, b as int) == word_end(chars@, a as int),
            decreases n - b,
        {
            b = b + 1;
        }
        assert(b > a);
        out.push(text_of(&chars, a, b));
        proof {
            let w = chars@.subrange(a as int, b as int);
            assert(words_from(chars@, i as int) == seq![w] + words_from(chars@, b as int));
            assert(out@.map_values(|w: String| w@) =~= before.push(w));
            assert(before.push(w) + words_from(chars@, b as int) =~= before + (seq![w] + words_from(
                chars@,
                b as int,
            )));
        }
        i = b;
    }
    out
}

/// Whether `a` comes before `b`, or equals it, in code point order.
pub open spec fn text_le(a: Seq<char>, b: Seq<char>) -> bool
    decreases a.len(),
{
    if a.len() == 0 {
        true
    } else if b.len() == 0 {
        false
    } else if a[0] != b[0] {
        (a[0] as u32) < (b[0] as u32)
    } else {
        text_le(a.drop_first(), b.drop_first())
    }
}

/// Whether `a` comes before `b`, or equals it, in code point order (as
/// `str`'s `<=` orders them).
pub fn text_le_exec(a: &Vec<char>, b: &Vec<char>) -> (r: bool)
    ensures
        r == text_le(a@, b@),
{
    let mut i: usize = 0;
    proof {
        assert(a@.subrange(0, a@.len() as int) =~= a@);
        assert(b@.subrange(0, b@.len() as int) =~= b@);
    }
    while i < a.len() && i < b.len() && a[i] == b[i]
        invariant
            i <= a@.len(),
            i <= b@.len(),
            text_le(a@.subrange(i as int, a@.len() as int), b@.subrange(i as int, b@.len() as int)) == text_le(
                a@,
                b@,
            ),
        decreases a@.len() - i,
    {
        let ghost sa = a@.subrange(i as int, a@.len() as int);
        let ghost sb = b@.subrange(i as int, b@.len() as int);
        assert(sa.drop_first() =~= a@.subrange(i + 1, a@.len() as int));
        assert(sb.drop_first() =~= b@.subrange(i + 1, b@.len() as int));
        assert(sa[0] == a@[i as int] && sb[0] == b@[i as int]);
        i = i + 1;
    }
    proof {
        assert(a@.subrange(0, a@.len() as int) =~= a@);
        assert(b@.subrange(0, b@.len() as int) =~= b@);
    }
    let ghost sa = a@.subrange(i as int, a@.len() as int);
    let ghost sb = b@.subrange(i as int, b@.len() as int);
    if i >= a.len() {
        true
    } else if i >= b.len() {
        false
    } else {
        assert(sa[0] == a@[i as int] && sb[0] == b@[i as int]);
        (a[i] as u32) < (b[i] as u32)
    }
}

} // verus!
