//! Character-level helpers: white space, trimming, splitting, line
//! breaking, decimal numbers and substring search, each with its
//! specification over `Seq<char>`.

use vstd::prelude::*;

verus! {

/// Unicode `White_Space` code points, the set that `char::is_whitespace` tests.
pub open spec fn is_ws(c: char) -> bool {
    let u = c as u32;
    ||| (0x09 <= u && u <= 0x0d)
    ||| u == 0x20
    ||| u == 0x85
    ||| u == 0xa0
    ||| u == 0x1680
    ||| (0x2000 <= u && u <= 0x200a)
    ||| u == 0x2028
    ||| u == 0x2029
    ||| u == 0x202f
    ||| u == 0x205f
    ||| u == 0x3000
}

/// Whether `c` is Unicode white space.
pub fn is_whitespace(c: char) -> (r: bool)
    ensures
        r == is_ws(c),
{
    let u = c as u32;
    (0x09 <= u && u <= 0x0d) || u == 0x20 || u == 0x85 || u == 0xa0 || u == 0x1680 || (0x2000
        <= u && u <= 0x200a) || u == 0x2028 || u == 0x2029 || u == 0x202f || u == 0x205f || u
        == 0x3000
}

/// `s` without its leading white space.
pub open spec fn trim_start(s: Seq<char>) -> Seq<char>
    decreases s.len(),
{
    if s.len() > 0 && is_ws(s[0]) {
        trim_start(s.drop_first())
    } else {
        s
    }
}

/// `s` without its trailing white space.
pub open spec fn trim_end(s: Seq<char>) -> Seq<char>
    decreases s.len(),
{
    if s.len() > 0 && is_ws(s.last()) {
        trim_end(s.drop_last())
    } else {
        s
    }
}

/// `s` without leading and trailing white space, as `str::trim` gives it.
pub open spec fn trim(s: Seq<char>) -> Seq<char> {
    trim_end(trim_start(s))
}

/// The pieces of `s` between occurrences of `sep`, as `str::split` with a
/// `char` pattern yields them: always at least one piece.
pub open spec fn split(s: Seq<char>, sep: char) -> Seq<Seq<char>>
    decreases s.len(),
{
    if s.len() == 0 {
        seq![Seq::<char>::empty()]
    } else {
        let p = split(s.drop_last(), sep);
        if s.last() == sep {
            p.push(Seq::<char>::empty())
        } else {
            p.update(p.len() - 1, p.last().push(s.last()))
        }
    }
}

/// A line without the `'\r'` that precedes its `'\n'`.
pub open spec fn strip_cr(l: Seq<char>) -> Seq<char> {
    if l.len() > 0 && l.last() == '\r' {
        l.drop_last()
    } else {
        l
    }
}

/// The lines of `s`, as `str::lines` yields them: split at `'\n'`, a `'\r'`
/// right before a `'\n'` dropped, and no empty line after a final `'\n'`.
pub open spec fn lines(s: Seq<char>) -> Seq<Seq<char>> {
    let parts = split(s, '\n');
    if s.len() == 0 {
        Seq::empty()
    } else if s.last() == '\n' {
        parts.drop_last().map_values(|l: Seq<char>| strip_cr(l))
    } else {
        parts.drop_last().map_values(|l: Seq<char>| strip_cr(l)).push(parts.last())
    }
}

/// The views of a sequence of character vectors.
pub open spec fn views(v: Seq<Vec<char>>) -> Seq<Seq<char>> {
    v.map_values(|x: Vec<char>| x@)
}

pub open spec fn is_digit(c: char) -> bool {
    '0' <= c && c <= '9'
}

/// The number that a string of decimal digits spells.
pub open spec fn digits_value(s: Seq<char>) -> nat
    decreases s.len(),
{
    if s.len() == 0 {
        0
    } else {
        digits_value(s.drop_last()) * 10 + (s.last() as nat - '0' as nat) as nat
    }
}

pub open spec fn all_digits(s: Seq<char>) -> bool {
    forall|i: int| 0 <= i < s.len() ==> is_digit(#[trigger] s[i])
}

/// What `str::parse::<u32>` accepts: an optional `'+'`, then one or more
/// ASCII digits whose value fits in a `u32`.
pub open spec fn parse_u32(s: Seq<char>) -> Option<u32> {
    let d = if s.len() > 0 && s[0] == '+' {
        s.drop_first()
    } else {
        s
    };
    if d.len() > 0 && all_digits(d) && digits_value(d) <= u32::MAX {
        Some(digits_value(d) as u32)
    } else {
        None
    }
}

/// The ASCII digit for `d < 10`.
pub open spec fn digit_char(d: nat) -> char {
    ((d + 48) as u8) as char
}

/// The decimal notation of `n`, as `u32::to_string` writes it.
pub open spec fn decimal(n: nat) -> Seq<char>
    decreases n,
{
    if n < 10 {
        seq![digit_char(n)]
    } else {
        decimal(n / 10).push(digit_char(n % 10))
    }
}

/// `needle` occurs in `hay` starting at position `i`.
pub open spec fn occurs_at(hay: Seq<char>, needle: Seq<char>, i: int) -> bool {
    0 <= i && i + needle.len() <= hay.len() && hay.subrange(i, i + needle.len()) == needle
}

/// `needle` occurs somewhere in `hay`, as `str::contains` tests it.
pub open spec fn contains(hay: Seq<char>, needle: Seq<char>) -> bool {
    exists|i: int| occurs_at(hay, needle, i)
}

/// What `str::to_lowercase` returns for a string.
pub uninterp spec fn lowercase(s: Seq<char>) -> Seq<char>;

/// Calls `str::to_lowercase`; its result, the Unicode lowercase mapping of
/// the string, is named `lowercase` and not spelled out.
#[verifier::external_body]
pub(crate) fn to_lowercase(s: &str) -> (r: String)
    ensures
        r@ == lowercase(s@),
{
    s.to_lowercase()
}

/// Calls `String::push`: appends one character.
#[verifier::external_body]
pub(crate) fn push_char(s: &mut String, c: char)
    ensures
        final(s)@ == old(s)@.push(c),
{
    s.push(c)
}

/// The characters of a string slice, in order.
pub fn chars_of(s: &str) -> (v: Vec<char>)
    ensures
        v@ == s@,
{
    let mut v: Vec<char> = Vec::new();
    for c in it: s.chars()
        invariant
            v@ == it.seq().take(it.index() as int),
            it.seq() == s@,
    {
        v.push(c);
    }
    v
}

/// The string made of `v[lo..hi]`.
pub fn string_of(v: &Vec<char>, lo: usize, hi: usize) -> (s: String)
    requires
        lo <= hi <= v.len(),
    ensures
        s@ == v@.subrange(lo as int, hi as int),
{
    let mut s = String::new();
    let mut i = lo;
    while i < hi
        invariant
            lo <= i <= hi <= v.len(),
            s@ == v@.subrange(lo as int, i as int),
        decreases hi - i,
    {
        push_char(&mut s, v[i]);
        proof {
            assert(v@.subrange(lo as int, i + 1) =~= v@.subrange(lo as int, i as int).push(v@[i as int]));
        }
        i += 1;
    }
    s
}

/// The characters `v[lo..hi]` as a vector.
pub fn copy_range(v: &Vec<char>, lo: usize, hi: usize) -> (r: Vec<char>)
    requires
        lo <= hi <= v.len(),
    ensures
        r@ == v@.subrange(lo as int, hi as int),
{
    let mut r: Vec<char> = Vec::new();
    let mut i = lo;
    while i < hi
        invariant
            lo <= i <= hi <= v.len(),
            r@ == v@.subrange(lo as int, i as int),
        decreases hi - i,
    {
        r.push(v[i]);
        proof {
            assert(v@.subrange(lo as int, i + 1) =~= v@.subrange(lo as int, i as int).push(v@[i as int]));
        }
        i += 1;
    }
    r
}

pub(crate) proof fn lemma_trim_start_skip(s: Seq<char>, i: int)
    requires
        0 <= i <= s.len(),
        forall|k: int| 0 <= k < i ==> is_ws(#[trigger] s[k]),
    ensures
        trim_start(s) == trim_start(s.skip(i)),
    decreases i,
{
    if i > 0 {
        assert(s.drop_first().skip(i - 1) =~= s.skip(i));
        lemma_trim_start_skip(s.drop_first(), i - 1);
    } else {
        assert(s.skip(0) =~= s);
    }
}

proof fn lemma_trim_end_take(s: Seq<char>, j: int)
    requires
        0 <= j <= s.len(),
        forall|k: int| j <= k < s.len() ==> is_ws(#[trigger] s[k]),
    ensures
        trim_end(s) == trim_end(s.take(j)),
    decreases s.len() - j,
{
    if j < s.len() {
        assert(s.drop_last().take(j) =~= s.take(j));
        lemma_trim_end_take(s.drop_last(), j);
    } else {
        assert(s.take(j) =~= s);
    }
}

/// `trim(v[lo..hi])` as a vector.
pub fn trimmed(v: &Vec<char>, lo: usize, hi: usize) -> (r: Vec<char>)
    requires
        lo <= hi <= v.len(),
    ensures
        r@ == trim(v@.subrange(lo as int, hi as int)),
{
    let ghost s = v@.subrange(lo as int, hi as int);
    let mut a = lo;
    while a < hi && is_whitespace(v[a])
        invariant
            lo <= a <= hi <= v.len(),
            forall|k: int| lo <= k < a ==> is_ws(#[trigger] v@[k]),
        decreases hi - a,
    {
        a += 1;
    }
    let mut b = hi;
    while b > a && is_whitespace(v[b - 1])
        invariant
            lo <= a <= b <= hi <= v.len(),
            forall|k: int| b <= k < hi ==> is_ws(#[trigger] v@[k]),
        decreases b - a,
    {
        b -= 1;
    }
    proof {
        let t = s.skip(a - lo);
        assert forall|k: int| 0 <= k < a - lo implies is_ws(#[trigger] s[k]) by {
            assert(s[k] == v@[lo + k]);
        }
        lemma_trim_start_skip(s, a - lo);
        assert(t =~= v@.subrange(a as int, hi as int));
        if t.len() > 0 {
            assert(t[0] == v@[a as int]);
        }
        assert(trim_start(t) == t);
        assert forall|k: int| b - a <= k < t.len() implies is_ws(#[trigger] t[k]) by {
            assert(t[k] == v@[a + k]);
        }
        lemma_trim_end_take(t, b - a);
        let u = t.take(b - a);
        assert(u =~= v@.subrange(a as int, b as int));
        if u.len() > 0 {
            assert(u.last() == v@[b - 1]);
        }
        assert(trim_end(u) == u);
    }
    copy_range(v, a, b)
}

proof fn lemma_split_nonempty(s: Seq<char>, sep: char)
    ensures
        split(s, sep).len() >= 1,
    decreases s.len(),
{
    if s.len() > 0 {
        lemma_split_nonempty(s.drop_last(), sep);
    }
}

/// The pieces of `v` between occurrences of `sep`.
pub fn split_chars(v: &Vec<char>, sep: char) -> (parts: Vec<Vec<char>>)
    ensures
        views(parts@) == split(v@, sep),
{
    let mut parts: Vec<Vec<char>> = Vec::new();
    let mut cur: Vec<char> = Vec::new();
    let mut i: usize = 0;
    proof {
        assert(v@.take(0) =~= Seq::<char>::empty());
        assert(views(parts@).push(cur@) =~= seq![Seq::<char>::empty()]);
    }
    while i < v.len()
        invariant
            0 <= i <= v.len(),
            views(parts@).push(cur@) == split(v@.take(i as int), sep),
        decreases v.len() - i,
    {
        let ghost before = views(parts@).push(cur@);
        proof {
            assert(v@.take(i + 1).drop_last() =~= v@.take(i as int));
            lemma_split_nonempty(v@.take(i as int), sep);
        }
        if v[i] == sep {
            parts.push(cur);
            cur = Vec::new();
            proof {
                assert(views(parts@).push(cur@) =~= before.push(Seq::<char>::empty()));
            }
        } else {
            cur.push(v[i]);
            proof {
                assert(views(parts@).push(cur@) =~= before.update(
                    before.len() - 1,
                    before.last().push(v@[i as int]),
                ));
            }
        }
        i += 1;
    }
    proof {
        assert(v@.take(v.len() as int) =~= v@);
    }
    parts.push(cur);
    parts
}

/// The lines of `v`.
pub fn lines_of(v: &Vec<char>) -> (ls: Vec<Vec<char>>)
    ensures
        views(ls@) == lines(v@),
{
    let parts = split_chars(v, '\n');
    proof {
        lemma_split_nonempty(v@, '\n');
    }
    let mut ls: Vec<Vec<char>> = Vec::new();
    if v.len() == 0 {
        proof {
            assert(views(ls@) =~= lines(v@));
        }
        return ls;
    }
    let n = parts.len();
    let mut i: usize = 0;
    while i + 1 < n
        invariant
            n == parts.len(),
            n >= 1,
            0 <= i <= n - 1,
            views(parts@) == split(v@, '\n'),
            views(ls@) == views(parts@).take(i as int).map_values(
                |l: Seq<char>| strip_cr(l),
            ),
        decreases n - i,
    {
        let p = &parts[i];
        let plen = p.len();
        let stripped = if plen > 0 && p[plen - 1] == '\r' {
            copy_range(p, 0, plen - 1)
        } else {
            copy_range(p, 0, plen)
        };
        proof {
            assert(views(parts@)[i as int] == p@);
            assert(p@.subrange(0, plen as int) =~= p@);
            if plen > 0 {
                assert(p@.subrange(0, plen - 1) =~= p@.drop_last());
            }
        }
        let ghost old_ls = views(ls@);
        ls.push(stripped);
        proof {
            assert(stripped@ == strip_cr(views(parts@)[i as int]));
            assert(views(ls@) =~= old_ls.push(stripped@));
            assert(views(parts@).take(i + 1) =~= views(parts@).take(i as int).push(
                views(parts@)[i as int],
            ));
        }
        i += 1;
        proof {
            assert(views(ls@) =~= views(parts@).take(i as int).map_values(
                |l: Seq<char>| strip_cr(l),
            ));
        }
    }
    proof {
        assert(views(parts@).take(n - 1) =~= views(parts@).drop_last());
    }
    if v[v.len() - 1] != '\n' {
        let last = copy_range(&parts[n - 1], 0, parts[n - 1].len());
        proof {
            assert(parts[n - 1]@.subrange(0, parts[n - 1]@.len() as int) =~= parts[n - 1]@);
            assert(views(parts@).last() == parts[n - 1]@);
        }
        ls.push(last);
        proof {
            assert(views(ls@) =~= lines(v@));
        }
    } else {
        proof {
            assert(views(ls@) =~= lines(v@));
        }
    }
    ls
}

/// Parses `s` as `str::parse::<u32>` does.
pub fn parse_u32_chars(s: &Vec<char>) -> (r: Option<u32>)
    ensures
        r == parse_u32(s@),
{
    let n = s.len();
    let start: usize = if n > 0 && s[0] == '+' {
        1
    } else {
        0
    };
    let ghost d = if s@.len() > 0 && s@[0] == '+' {
        s@.drop_first()
    } else {
        s@
    };
    proof {
        assert(d =~= s@.skip(start as int));
    }
    if start == n {
        return None;
    }
    let mut acc: u64 = 0;
    let mut i = start;
    while i < n
        invariant
            start <= i <= n == s.len(),
            d == s@.skip(start as int),
            d == if s@.len() > 0 && s@[0] == '+' {
                s@.drop_first()
            } else {
                s@
            },
            all_digits(s@.subrange(start as int, i as int)),
            acc == if digits_value(s@.subrange(start as int, i as int)) <= u32::MAX {
                digits_value(s@.subrange(start as int, i as int))
            } else {
                u32::MAX as nat + 1
            },
        decreases n - i,
    {
        let c = s[i];
        if !('0' <= c && c <= '9') {
            proof {
                assert(!is_digit(c));
                assert(d[i - start] == c);
                assert(!is_digit(d[i - start]));
                assert(!all_digits(d));
            }
            return None;
        }
        let dv = (c as u32 - '0' as u32) as u64;
        let ghost pre = s@.subrange(start as int, i as int);
        let ghost post = s@.subrange(start as int, i + 1);
        proof {
            assert(post.drop_last() =~= pre);
            assert(post.last() == c);
            assert forall|k: int| 0 <= k < post.len() implies is_digit(#[trigger] post[k]) by {
                if k < pre.len() {
                    assert(post[k] == pre[k]);
                }
            }
        }
        if acc > u32::MAX as u64 {
            proof {
                assert(digits_value(post) >= digits_value(pre));
            }
        } else {
            acc = acc * 10 + dv;
            if acc > u32::MAX as u64 {
                acc = u32::MAX as u64 + 1;
            }
        }
        i += 1;
    }
    proof {
        assert(s@.subrange(start as int, n as int) =~= d);
    }
    if acc > u32::MAX as u64 {
        None
    } else {
        Some(acc as u32)
    }
}

/// Appends the decimal notation of `n` to `out`.
pub fn push_decimal(out: &mut String, n: u64)
    ensures
        final(out)@ == old(out)@ + decimal(n as nat),
    decreases n,
{
    if n >= 10 {
        push_decimal(out, n / 10);
    }
    let d = (n % 10) as u8;
    push_char(out, (d + 48u8) as char);
    proof {
        if n >= 10 {
            assert(old(out)@ + decimal(n as nat) =~= old(out)@ + decimal((n / 10) as nat) + seq![
                digit_char((n % 10) as nat),
            ]);
        } else {
            assert(old(out)@ + decimal(n as nat) =~= old(out)@ + seq![digit_char(n as nat)]);
        }
    }
}

/// The decimal notation of `n`.
pub fn decimal_string(n: u32) -> (s: String)
    ensures
        s@ == decimal(n as nat),
{
    let mut s = String::new();
    push_decimal(&mut s, n as u64);
    proof {
        assert(s@ =~= decimal(n as nat));
    }
    s
}

/// Whether `needle` occurs in `hay`.
pub fn contains_chars(hay: &Vec<char>, needle: &Vec<char>) -> (r: bool)
    ensures
        r == contains(hay@, needle@),
{
    let h = hay.len();
    let m = needle.len();
    if m > h {
        proof {
            assert forall|i: int| !occurs_at(hay@, needle@, i) by {}
        }
        return false;
    }
    let mut i: usize = 0;
    while i <= h - m
        invariant
            m <= h,
            h == hay.len(),
            m == needle.len(),
            0 <= i <= h - m + 1,
            forall|k: int| 0 <= k < i ==> !occurs_at(hay@, needle@, k),
        decreases h - m + 1 - i,
    {
        let mut j: usize = 0;
        while j < m && hay[i + j] == needle[j]
            invariant
                0 <= j <= m,
                i + m <= h,
                h == hay.len(),
                m == needle.len(),
                forall|k: int| 0 <= k < j ==> hay@[i + k] == needle@[k],
            decreases m - j,
        {
            j += 1;
        }
        if j == m {
            proof {
                assert(hay@.subrange(i as int, i + m) =~= needle@);
                assert(occurs_at(hay@, needle@, i as int));
            }
            return true;
        }
        proof {
            assert(hay@.subrange(i as int, i + m)[j as int] != needle@[j as int]);
        }
        i += 1;
    }
    proof {
        assert forall|k: int| !occurs_at(hay@, needle@, k) by {
            if 0 <= k < i {
            }
        }
    }
    false
}

/// The digit of `d < 10` is an ASCII digit that stands for `d`.
pub proof fn lemma_digit_char(d: nat)
    requires
        d < 10,
    ensures
        is_digit(digit_char(d)),
        digit_char(d) as nat - '0' as nat == d,
        !is_ws(digit_char(d)),
        digit_char(d) != '+',
        digit_char(d) != '\t',
        digit_char(d) != '\n',
        digit_char(d) != '\r',
{
    assert((d + 48) as u8 == d + 48);
    assert(((d + 48) as u8) as char as nat == d + 48);
}

/// Decimal notation is made of digits, starts with no `'+'` and spells
/// its number.
pub proof fn lemma_decimal_digits(n: nat)
    ensures
        decimal(n).len() > 0,
        all_digits(decimal(n)),
        digits_value(decimal(n)) == n,
        forall|i: int| 0 <= i < decimal(n).len() ==> {
            &&& !is_ws(#[trigger] decimal(n)[i])
            &&& decimal(n)[i] != '+'
            &&& decimal(n)[i] != '\t'
            &&& decimal(n)[i] != '\n'
            &&& decimal(n)[i] != '\r'
        },
    decreases n,
{
    if n < 10 {
        lemma_digit_char(n);
        assert(decimal(n).drop_last() =~= Seq::<char>::empty());
        assert(digits_value(decimal(n)) == digits_value(Seq::<char>::empty()) * 10 + (decimal(
            n,
        ).last() as nat - '0' as nat) as nat);
    } else {
        lemma_decimal_digits(n / 10);
        lemma_digit_char(n % 10);
        vstd::arithmetic::div_mod::lemma_fundamental_div_mod(n as int, 10);
        let s = decimal(n);
        assert(s.drop_last() =~= decimal(n / 10));
        assert(s.last() == digit_char(n % 10));
        assert(digits_value(s) == digits_value(s.drop_last()) * 10 + (s.last() as nat
            - '0' as nat) as nat);
        assert((n / 10) * 10 == 10 * (n / 10)) by (nonlinear_arith);
        assert forall|i: int| 0 <= i < s.len() implies is_digit(#[trigger] s[i]) by {
            if i < s.len() - 1 {
                assert(s[i] == decimal(n / 10)[i]);
            }
        }
        assert forall|i: int| 0 <= i < s.len() implies {
            &&& !is_ws(#[trigger] s[i])
            &&& s[i] != '+'
            &&& s[i] != '\t'
            &&& s[i] != '\n'
            &&& s[i] != '\r'
        } by {
            if i < s.len() - 1 {
                assert(s[i] == decimal(n / 10)[i]);
            }
        }
    }
}

/// The digits of a number parse back to it, however it is trimmed.
pub proof fn lemma_parse_decimal(n: u32)
    ensures
        trim(decimal(n as nat)) == decimal(n as nat),
        parse_u32(trim(decimal(n as nat))) == Some(n),
{
    let s = decimal(n as nat);
    lemma_decimal_digits(n as nat);
    assert(!is_ws(s[0]));
    assert(trim_start(s) == s);
    assert(!is_ws(s.last()));
    assert(trim_end(s) == s);
    assert(s[0] != '+');
}

/// A piece free of the separator is split into itself alone.
pub proof fn lemma_split_piece(a: Seq<char>, sep: char)
    requires
        forall|i: int| 0 <= i < a.len() ==> #[trigger] a[i] != sep,
    ensures
        split(a, sep) == seq![a],
    decreases a.len(),
{
    if a.len() > 0 {
        let d = a.drop_last();
        assert forall|i: int| 0 <= i < d.len() implies #[trigger] d[i] != sep by {
            assert(d[i] == a[i]);
        }
        lemma_split_piece(d, sep);
        assert(a[a.len() - 1] != sep);
        assert(d.push(a.last()) =~= a);
        assert(seq![d].update(0, d.push(a.last())) =~= seq![a]);
        assert(split(a, sep) == split(d, sep).update(0, split(d, sep).last().push(a.last())));
    } else {
        assert(a =~= Seq::<char>::empty());
    }
}

/// Splitting gives at least one piece.
pub proof fn lemma_split_len(s: Seq<char>, sep: char)
    ensures
        split(s, sep).len() >= 1,
    decreases s.len(),
{
    if s.len() > 0 {
        lemma_split_len(s.drop_last(), sep);
    }
}

/// Splitting at a separator splits each side apart.
pub proof fn lemma_split_join(x: Seq<char>, sep: char, b: Seq<char>)
    ensures
        split(x + seq![sep] + b, sep) == split(x, sep) + split(b, sep),
    decreases b.len(),
{
    let s = x + seq![sep] + b;
    if b.len() == 0 {
        assert(s.drop_last() =~= x);
        assert(s.last() == sep);
        assert(split(b, sep) == seq![Seq::<char>::empty()]);
    } else {
        let bd = b.drop_last();
        assert(s.drop_last() =~= x + seq![sep] + bd);
        assert(s.last() == b.last());
        lemma_split_join(x, sep, bd);
        lemma_split_len(bd, sep);
        lemma_split_len(x, sep);
        let px = split(x, sep);
        let pb = split(bd, sep);
        if b.last() == sep {
            assert((px + pb).push(Seq::<char>::empty()) =~= px + pb.push(Seq::<char>::empty()));
        } else {
            assert((px + pb).update((px + pb).len() - 1, (px + pb).last().push(b.last())) =~= px
                + pb.update(pb.len() - 1, pb.last().push(b.last())));
        }
    }
}

} // verus!
