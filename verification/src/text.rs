//! Character-level text model shared by the profiler and the report
//! generator: what the rendering and parsing code produces, stated over
//! `Seq<char>`, and the executable helpers that produce it.
use vstd::prelude::*;

verus! {

// ---------------------------------------------------------------------------
// Character classes
// ---------------------------------------------------------------------------

/// The Unicode `White_Space` property, which `char::is_whitespace` follows.
pub open spec fn is_ws(c: char) -> bool {
    ||| ('\t' <= c && c <= '\r')
    ||| c == ' '
    ||| c == '\u{85}'
    ||| c == '\u{a0}'
    ||| c == '\u{1680}'
    ||| ('\u{2000}' <= c && c <= '\u{200a}')
    ||| c == '\u{2028}'
    ||| c == '\u{2029}'
    ||| c == '\u{202f}'
    ||| c == '\u{205f}'
    ||| c == '\u{3000}'
}

pub fn is_whitespace(c: char) -> (r: bool)
    ensures
        r == is_ws(c),
{
    ('\t' <= c && c <= '\r') || c == ' ' || c == '\u{85}' || c == '\u{a0}' || c == '\u{1680}'
        || ('\u{2000}' <= c && c <= '\u{200a}') || c == '\u{2028}' || c == '\u{2029}' || c
        == '\u{202f}' || c == '\u{205f}' || c == '\u{3000}'
}

pub open spec fn is_digit(c: char) -> bool {
    '0' <= c && c <= '9'
}

pub open spec fn digit_value(c: char) -> nat {
    ((c as u32) - ('0' as u32)) as nat
}

pub open spec fn digit_char(d: nat) -> char {
    ((d + ('0' as u32)) as u32) as char
}

// ---------------------------------------------------------------------------
// Decimal numbers
// ---------------------------------------------------------------------------

/// The decimal digits of `n`, as `to_string` and `{}` print an unsigned integer.
pub open spec fn dec(n: nat) -> Seq<char>
    decreases n,
{
    if n < 10 {
        seq![digit_char(n)]
    } else {
        dec(n / 10).push(digit_char(n % 10))
    }
}

pub open spec fn all_digits(s: Seq<char>) -> bool {
    forall|i: int| 0 <= i < s.len() ==> is_digit(#[trigger] s[i])
}

/// The number written by a string of decimal digits.
pub open spec fn digits_value(s: Seq<char>) -> nat
    decreases s.len(),
{
    if s.len() == 0 {
        0
    } else {
        digits_value(s.drop_last()) * 10 + digit_value(s.last())
    }
}

/// What `str::parse` gives for an unsigned integer type whose largest value
/// is `max`: an optional leading `+`, then at least one decimal digit and
/// nothing else, with a value that fits.
pub open spec fn parse_uint(s: Seq<char>, max: nat) -> Option<nat> {
    let ds = if s.len() > 0 && s[0] == '+' {
        s.drop_first()
    } else {
        s
    };
    if ds.len() == 0 || !all_digits(ds) || digits_value(ds) > max {
        None
    } else {
        Some(digits_value(ds))
    }
}

/// `parse::<T>().unwrap_or(0)`.
pub open spec fn parse_or_zero(s: Seq<char>, max: nat) -> nat {
    match parse_uint(s, max) {
        Some(v) => v,
        None => 0,
    }
}

// ---------------------------------------------------------------------------
// Padding and repetition
// ---------------------------------------------------------------------------

pub open spec fn repeat_char(c: char, n: nat) -> Seq<char> {
    Seq::new(n, |_i: int| c)
}

/// `format!("{:<w$}", s)`: left-aligned, filled with spaces to `w` characters.
pub open spec fn pad_right(s: Seq<char>, w: nat) -> Seq<char> {
    if s.len() < w {
        s + repeat_char(' ', (w - s.len()) as nat)
    } else {
        s
    }
}

/// `format!("{:>w$}", s)`: right-aligned, filled with spaces to `w` characters.
pub open spec fn pad_left(s: Seq<char>, w: nat) -> Seq<char> {
    if s.len() < w {
        repeat_char(' ', (w - s.len()) as nat) + s
    } else {
        s
    }
}

/// The length in bytes of the UTF-8 encoding, as `str::len` gives it.
pub open spec fn byte_len(s: Seq<char>) -> usize {
    vstd::utf8::encode_utf8(s).len() as usize
}

// ---------------------------------------------------------------------------
// Searching, trimming, splitting
// ---------------------------------------------------------------------------

pub open spec fn matches_at(s: Seq<char>, pat: Seq<char>, i: int) -> bool {
    0 <= i && i + pat.len() <= s.len() && s.subrange(i, i + pat.len()) == pat
}

pub open spec fn find_from(s: Seq<char>, pat: Seq<char>, i: int) -> Option<int>
    decreases s.len() + 1 - i,
{
    if i < 0 || i + pat.len() > s.len() {
        None
    } else if matches_at(s, pat, i) {
        Some(i)
    } else {
        find_from(s, pat, i + 1)
    }
}

/// The position of the first occurrence of `pat` in `s`, as `str::find`.
pub open spec fn find(s: Seq<char>, pat: Seq<char>) -> Option<int> {
    find_from(s, pat, 0)
}

pub open spec fn contains(s: Seq<char>, pat: Seq<char>) -> bool {
    find(s, pat) is Some
}

pub open spec fn starts_with(s: Seq<char>, p: Seq<char>) -> bool {
    p.len() <= s.len() && s.subrange(0, p.len() as int) == p
}

pub open spec fn trim_start(s: Seq<char>) -> Seq<char>
    decreases s.len(),
{
    if s.len() > 0 && is_ws(s[0]) {
        trim_start(s.drop_first())
    } else {
        s
    }
}

pub open spec fn trim_end(s: Seq<char>) -> Seq<char>
    decreases s.len(),
{
    if s.len() > 0 && is_ws(s.last()) {
        trim_end(s.drop_last())
    } else {
        s
    }
}

/// `str::trim`: leading and trailing whitespace removed.
pub open spec fn trim(s: Seq<char>) -> Seq<char> {
    trim_end(trim_start(s))
}

/// The pieces of `s` between occurrences of `c`, as `str::split(c)`.
pub open spec fn split(s: Seq<char>, c: char) -> Seq<Seq<char>>
    decreases s.len(),
{
    match find(s, seq![c]) {
        Some(i) => {
            if 0 <= i < s.len() {
                seq![s.take(i)] + split(s.skip(i + 1), c)
            } else {
                seq![s]
            }
        },
        None => seq![s],
    }
}

/// The pieces joined with `sep` between them, as `[String]::join`.
pub open spec fn join(parts: Seq<Seq<char>>, sep: Seq<char>) -> Seq<char>
    decreases parts.len(),
{
    if parts.len() == 0 {
        Seq::empty()
    } else if parts.len() == 1 {
        parts[0]
    } else {
        join(parts.drop_last(), sep) + sep + parts.last()
    }
}

/// Every occurrence of `c` replaced by `by`, as `str::replace(c, by)`.
pub open spec fn replace_char(s: Seq<char>, c: char, by: Seq<char>) -> Seq<char>
    decreases s.len(),
{
    if s.len() == 0 {
        Seq::empty()
    } else {
        replace_char(s.drop_last(), c, by) + (if s.last() == c {
            by
        } else {
            seq![s.last()]
        })
    }
}


// ---------------------------------------------------------------------------
// Building strings
// ---------------------------------------------------------------------------

/// Calls `String::push`, which appends one character.
#[verifier::external_body]
pub(crate) fn push_char(s: &mut String, c: char)
    ensures
        final(s)@ == old(s)@.push(c),
{
    s.push(c);
}

/// The characters of `s`, in order.
pub fn chars_of(s: &str) -> (r: Vec<char>)
    ensures
        r@ == s@,
{
    let mut r: Vec<char> = Vec::new();
    for c in it: s.chars()
        invariant
            r@ == it.seq().take(it.index() as int),
    {
        r.push(c);
    }
    r
}

/// Appends the characters `v[from..to]` to `out`.
pub fn push_chars(out: &mut String, v: &Vec<char>, from: usize, to: usize)
    requires
        from <= to <= v@.len(),
    ensures
        final(out)@ == old(out)@ + v@.subrange(from as int, to as int),
{
    let mut i = from;
    while i < to
        invariant
            from <= i <= to <= v@.len(),
            out@ == old(out)@ + v@.subrange(from as int, i as int),
        decreases to - i,
    {
        push_char(out, v[i]);
        assert(v@.subrange(from as int, i + 1) == v@.subrange(from as int, i as int).push(v@[i as int]));
        i = i + 1;
    }
}

/// A string holding the characters `v[from..to]`.
pub fn string_of(v: &Vec<char>, from: usize, to: usize) -> (r: String)
    requires
        from <= to <= v@.len(),
    ensures
        r@ == v@.subrange(from as int, to as int),
{
    let mut r = String::new();
    push_chars(&mut r, v, from, to);
    r
}

pub fn push_digit(out: &mut String, d: u64)
    requires
        d < 10,
    ensures
        final(out)@ == old(out)@.push(digit_char(d as nat)),
{
    let c: char = if d == 0 { '0' } else if d == 1 { '1' } else if d == 2 { '2' } else if d == 3 { '3' }
        else if d == 4 { '4' } else if d == 5 { '5' } else if d == 6 { '6' } else if d == 7 { '7' }
        else if d == 8 { '8' } else { '9' };
    push_char(out, c);
}

/// Appends the decimal digits of `n`.
pub fn push_dec(out: &mut String, n: u64)
    ensures
        final(out)@ == old(out)@ + dec(n as nat),
    decreases n,
{
    if n >= 10 {
        push_dec(out, n / 10);
    }
    push_digit(out, n % 10);
}

/// Appends `n` copies of `c`.
pub fn push_repeat(out: &mut String, c: char, n: usize)
    ensures
        final(out)@ == old(out)@ + repeat_char(c, n as nat),
{
    let mut i: usize = 0;
    while i < n
        invariant
            i <= n,
            out@ == old(out)@ + repeat_char(c, i as nat),
        decreases n - i,
    {
        push_char(out, c);
        assert(repeat_char(c, (i + 1) as nat) == repeat_char(c, i as nat).push(c));
        i = i + 1;
    }
}

/// Appends `s` left-aligned in a field of `w` characters.
pub fn push_pad_right(out: &mut String, s: &str, w: usize)
    ensures
        final(out)@ == old(out)@ + pad_right(s@, w as nat),
{
    let v = chars_of(s);
    out.append(s);
    if v.len() < w {
        push_repeat(out, ' ', w - v.len());
    }
}

/// Appends `s` right-aligned in a field of `w` characters.
pub fn push_pad_left(out: &mut String, s: &str, w: usize)
    ensures
        final(out)@ == old(out)@ + pad_left(s@, w as nat),
{
    let v = chars_of(s);
    if v.len() < w {
        push_repeat(out, ' ', w - v.len());
    }
    out.append(s);
}


// ---------------------------------------------------------------------------
// Searching, trimming, splitting: executable
// ---------------------------------------------------------------------------

pub open spec fn views(v: Seq<Vec<char>>) -> Seq<Seq<char>> {
    v.map_values(|x: Vec<char>| x@)
}

pub open spec fn string_views(v: Seq<String>) -> Seq<Seq<char>> {
    v.map_values(|x: String| x@)
}

/// A new vector holding `v[from..to]`.
pub fn sub_vec(v: &Vec<char>, from: usize, to: usize) -> (r: Vec<char>)
    requires
        from <= to <= v@.len(),
    ensures
        r@ == v@.subrange(from as int, to as int),
{
    let mut r: Vec<char> = Vec::new();
    let mut i = from;
    while i < to
        invariant
            from <= i <= to <= v@.len(),
            r@ == v@.subrange(from as int, i as int),
        decreases to - i,
    {
        r.push(v[i]);
        assert(v@.subrange(from as int, i + 1) == v@.subrange(from as int, i as int).push(v@[i as int]));
        i = i + 1;
    }
    r
}

fn matches_at_exec(s: &Vec<char>, pat: &Vec<char>, i: usize) -> (r: bool)
    requires
        i + pat@.len() <= s@.len(),
    ensures
        r == matches_at(s@, pat@, i as int),
{
    let n = s.len();
    let mut j: usize = 0;
    while j < pat.len()
        invariant
            n == s@.len(),
            i + pat@.len() <= s@.len(),
            j <= pat@.len(),
            forall|k: int| 0 <= k < j ==> s@[i + k] == pat@[k],
        decreases pat@.len() - j,
    {
        if s[i + j] != pat[j] {
            assert(s@.subrange(i as int, i + pat@.len())[j as int] != pat@[j as int]);
            return false;
        }
        j = j + 1;
    }
    assert(s@.subrange(i as int, i + pat@.len()) =~= pat@);
    true
}

/// The first occurrence of `pat` in `s` at or after `from`.
pub fn find_in(s: &Vec<char>, pat: &Vec<char>, from: usize) -> (r: Option<usize>)
    ensures
        match r {
            Some(i) => find_from(s@, pat@, from as int) == Some(i as int),
            None => find_from(s@, pat@, from as int) is None,
        },
{
    let mut i = from;
    while i <= s.len() && pat.len() <= s.len() - i
        invariant
            from <= i,
            find_from(s@, pat@, from as int) == find_from(s@, pat@, i as int),
        decreases s@.len() + 1 - i,
    {
        if matches_at_exec(s, pat, i) {
            return Some(i);
        }
        if i == s.len() {
            assert(find_from(s@, pat@, i + 1) is None);
            return None;
        }
        i = i + 1;
    }
    None
}

/// The first occurrence of the character `c` in `s`.
pub fn find_char(s: &Vec<char>, c: char) -> (r: Option<usize>)
    ensures
        match r {
            Some(i) => find(s@, seq![c]) == Some(i as int),
            None => find(s@, seq![c]) is None,
        },
{
    let mut pat: Vec<char> = Vec::new();
    pat.push(c);
    assert(pat@ =~= seq![c]);
    find_in(s, &pat, 0)
}

/// `trim_start`, on characters.
pub fn trim_start_vec(v: &Vec<char>) -> (r: Vec<char>)
    ensures
        r@ == trim_start(v@),
{
    let mut i: usize = 0;
    assert(v@.skip(0) =~= v@);
    while i < v.len() && is_whitespace(v[i])
        invariant
            i <= v@.len(),
            trim_start(v@) == trim_start(v@.skip(i as int)),
        decreases v@.len() - i,
    {
        assert(v@.skip(i as int).drop_first() =~= v@.skip(i + 1));
        i = i + 1;
    }
    assert(v@.skip(i as int) =~= v@.subrange(i as int, v@.len() as int));
    sub_vec(v, i, v.len())
}

/// `trim`, on characters.
pub fn trim_vec(v: &Vec<char>) -> (r: Vec<char>)
    ensures
        r@ == trim(v@),
{
    let t = trim_start_vec(v);
    let mut j: usize = t.len();
    assert(t@.take(j as int) =~= t@);
    while j > 0 && is_whitespace(t[j - 1])
        invariant
            j <= t@.len(),
            trim_end(t@) == trim_end(t@.take(j as int)),
        decreases j,
    {
        assert(t@.take(j as int).drop_last() =~= t@.take(j - 1));
        j = j - 1;
    }
    sub_vec(&t, 0, j)
}

/// `split(c)`, on characters.
pub fn split_vec(v: &Vec<char>, c: char) -> (r: Vec<Vec<char>>)
    ensures
        views(r@) == split(v@, c),
{
    let mut r: Vec<Vec<char>> = Vec::new();
    let mut rest = sub_vec(v, 0, v.len());
    assert(rest@ =~= v@);
    loop
        invariant
            split(v@, c) == views(r@) + split(rest@, c),
        decreases rest@.len(),
    {
        match find_char(&rest, c) {
            Some(i) => {
                let ghost old_rest = rest@;
                proof {
                    lemma_find_from_matches(old_rest, seq![c], 0);
                }
                let rl = rest.len();
                let piece = sub_vec(&rest, 0, i);
                let tail = sub_vec(&rest, i + 1, rl);
                proof {
                    assert(piece@ =~= old_rest.take(i as int));
                    assert(tail@ =~= old_rest.skip(i + 1));
                }
                let ghost old_r = r@;
                r.push(piece);
                rest = tail;
                proof {
                    assert(views(r@) =~= views(old_r).push(piece@));
                    assert(split(v@, c) =~= views(r@) + split(rest@, c));
                }
            },
            None => {
                let ghost old_r = r@;
                let ghost last = rest@;
                r.push(rest);
                assert(views(r@) =~= views(old_r).push(last));
                assert(split(v@, c) =~= views(r@));
                return r;
            },
        }
    }
}

/// What `find_from` returns is a match at or after the start.
pub proof fn lemma_find_from_matches(s: Seq<char>, pat: Seq<char>, i: int)
    ensures
        find_from(s, pat, i) matches Some(k) ==> i <= k && matches_at(s, pat, k),
    decreases s.len() + 1 - i,
{
    if i < 0 || i + pat.len() > s.len() {
    } else if matches_at(s, pat, i) {
    } else {
        lemma_find_from_matches(s, pat, i + 1);
    }
}


/// The number written by the leading digits grows with more digits.
pub proof fn lemma_digits_value_prefix(s: Seq<char>, k: int)
    requires
        all_digits(s),
        0 <= k <= s.len(),
    ensures
        digits_value(s.take(k)) <= digits_value(s),
    decreases s.len(),
{
    if k < s.len() {
        assert(s.drop_last().take(k) =~= s.take(k));
        lemma_digits_value_prefix(s.drop_last(), k);
    } else {
        assert(s.take(k) =~= s);
    }
}

/// `str::parse` for an unsigned integer type whose largest value is `max`.
pub fn parse_uint_vec(v: &Vec<char>, max: u64) -> (r: Option<u64>)
    ensures
        match r {
            Some(x) => parse_uint(v@, max as nat) == Some(x as nat),
            None => parse_uint(v@, max as nat) is None,
        },
{
    let n = v.len();
    let start: usize = if n > 0 && v[0] == '+' { 1 } else { 0 };
    let ghost ds = if v@.len() > 0 && v@[0] == '+' { v@.drop_first() } else { v@ };
    assert(ds =~= v@.subrange(start as int, n as int));
    if start == n {
        return None;
    }
    let mut acc: u64 = 0;
    let mut i = start;
    assert(v@.subrange(start as int, start as int) =~= Seq::<char>::empty());
    while i < n
        invariant
            start <= i <= n == v@.len(),
            start < n,
            ds == v@.subrange(start as int, n as int),
            ds == (if v@.len() > 0 && v@[0] == '+' { v@.drop_first() } else { v@ }),
            all_digits(v@.subrange(start as int, i as int)),
            acc as nat == digits_value(v@.subrange(start as int, i as int)),
            acc <= max,
        decreases n - i,
    {
        let c = v[i];
        if !('0' <= c && c <= '9') {
            assert(ds[i - start] == c);
            assert(!is_digit(ds[i - start]));
            assert(!all_digits(ds));
            return None;
        }
        let d = ((c as u32) - ('0' as u32)) as u64;
        let next: u128 = (acc as u128) * 10 + (d as u128);
        let ghost pre = v@.subrange(start as int, i as int);
        let ghost post = v@.subrange(start as int, i + 1);
        assert(post.drop_last() =~= pre);
        assert(digits_value(post) == next);
        assert(all_digits(post)) by {
            assert forall|k: int| 0 <= k < post.len() implies is_digit(#[trigger] post[k]) by {
                if k < pre.len() {
                    assert(post[k] == pre[k]);
                }
            }
        }
        if next > max as u128 {
            proof {
                if all_digits(ds) {
                    assert(ds.take(i + 1 - start) =~= post);
                    lemma_digits_value_prefix(ds, i + 1 - start);
                }
            }
            return None;
        }
        acc = next as u64;
        i = i + 1;
    }
    Some(acc)
}

// ---------------------------------------------------------------------------
// Lines
// ---------------------------------------------------------------------------

pub open spec fn strip_cr(l: Seq<char>) -> Seq<char> {
    if l.len() > 0 && l.last() == '\r' {
        l.drop_last()
    } else {
        l
    }
}

/// The lines of `s`, as `str::lines`: split after each `\n`, with the `\n`
/// and a `\r` just before it removed; an empty last line is not one.
pub open spec fn lines(s: Seq<char>) -> Seq<Seq<char>>
    decreases s.len(),
{
    match find(s, seq!['\n']) {
        Some(i) => {
            if 0 <= i < s.len() {
                seq![strip_cr(s.take(i))] + lines(s.skip(i + 1))
            } else {
                Seq::empty()
            }
        },
        None => if s.len() == 0 {
            Seq::empty()
        } else {
            seq![s]
        },
    }
}

/// `lines`, on characters.
pub fn lines_vec(v: &Vec<char>) -> (r: Vec<Vec<char>>)
    ensures
        views(r@) == lines(v@),
{
    let mut r: Vec<Vec<char>> = Vec::new();
    let mut rest = sub_vec(v, 0, v.len());
    assert(rest@ =~= v@);
    loop
        invariant
            lines(v@) == views(r@) + lines(rest@),
        decreases rest@.len(),
    {
        match find_char(&rest, '\n') {
            Some(i) => {
                let ghost old_rest = rest@;
                proof {
                    lemma_find_from_matches(old_rest, seq!['\n'], 0);
                }
                let rl = rest.len();
                let end = if i > 0 && rest[i - 1] == '\r' { i - 1 } else { i };
                let piece = sub_vec(&rest, 0, end);
                let tail = sub_vec(&rest, i + 1, rl);
                proof {
                    assert(piece@ =~= strip_cr(old_rest.take(i as int)));
                    assert(tail@ =~= old_rest.skip(i + 1));
                }
                let ghost old_r = r@;
                r.push(piece);
                rest = tail;
                proof {
                    assert(views(r@) =~= views(old_r).push(piece@));
                    assert(lines(v@) =~= views(r@) + lines(rest@));
                }
            },
            None => {
                if rest.len() > 0 {
                    let ghost old_r = r@;
                    let ghost last = rest@;
                    r.push(rest);
                    assert(views(r@) =~= views(old_r).push(last));
                }
                assert(lines(v@) =~= views(r@));
                return r;
            },
        }
    }
}

// ---------------------------------------------------------------------------
// Joining and replacing
// ---------------------------------------------------------------------------

pub proof fn lemma_join_step(parts: Seq<Seq<char>>, sep: Seq<char>, i: int)
    requires
        0 <= i < parts.len(),
    ensures
        join(parts.take(i + 1), sep) == if i == 0 {
            parts[0]
        } else {
            join(parts.take(i), sep) + sep + parts[i]
        },
{
    assert(parts.take(i + 1).drop_last() =~= parts.take(i));
}

/// `[String]::join(sep)`.
pub fn join_strings(parts: &Vec<String>, sep: &str) -> (r: String)
    ensures
        r@ == join(string_views(parts@), sep@),
{
    let mut r = String::new();
    let ghost pv = string_views(parts@);
    let mut i: usize = 0;
    while i < parts.len()
        invariant
            i <= parts@.len(),
            pv == string_views(parts@),
            r@ == join(pv.take(i as int), sep@),
        decreases parts@.len() - i,
    {
        proof {
            lemma_join_step(pv, sep@, i as int);
        }
        if i > 0 {
            r.append(sep);
        }
        r.append(parts[i].as_str());
        i = i + 1;
    }
    assert(pv.take(i as int) =~= pv);
    r
}

pub proof fn lemma_replace_char_step(s: Seq<char>, c: char, by: Seq<char>, i: int)
    requires
        0 <= i < s.len(),
    ensures
        replace_char(s.take(i + 1), c, by) == replace_char(s.take(i), c, by) + (if s[i] == c {
            by
        } else {
            seq![s[i]]
        }),
{
    assert(s.take(i + 1).drop_last() =~= s.take(i));
}

/// `str::replace(c, by)` for a character pattern.
pub fn replace_char_str(s: &str, c: char, by: &str) -> (r: String)
    ensures
        r@ == replace_char(s@, c, by@),
{
    let v = chars_of(s);
    let mut r = String::new();
    let mut i: usize = 0;
    assert(v@.take(0) =~= Seq::<char>::empty());
    while i < v.len()
        invariant
            i <= v@.len(),
            r@ == replace_char(v@.take(i as int), c, by@),
        decreases v@.len() - i,
    {
        proof {
            lemma_replace_char_step(v@, c, by@, i as int);
        }
        if v[i] == c {
            r.append(by);
        } else {
            push_char(&mut r, v[i]);
        }
        i = i + 1;
    }
    assert(v@.take(i as int) =~= v@);
    r
}

// ---------------------------------------------------------------------------
// Case mapping
// ---------------------------------------------------------------------------

/// What `char::to_uppercase` yields for a character.
pub uninterp spec fn char_upper(c: char) -> Seq<char>;

/// What `str::to_lowercase` returns for a string.
pub uninterp spec fn str_lower(s: Seq<char>) -> Seq<char>;

pub open spec fn ascii_lower_char(c: char) -> char {
    if 'A' <= c && c <= 'Z' {
        ((c as u32) + 32) as char
    } else {
        c
    }
}

pub open spec fn ascii_lower(s: Seq<char>) -> Seq<char> {
    s.map_values(|c: char| ascii_lower_char(c))
}

/// Calls `char::to_uppercase` and collects what it yields. Its result is
/// named by `char_upper`; of ASCII input it states what the documentation
/// shows: a lower-case letter becomes its capital, any other ASCII character
/// stays as it is. Of other characters nothing more is stated.
#[verifier::external_body]
pub(crate) fn char_to_uppercase(c: char) -> (r: String)
    ensures
        r@ == char_upper(c),
        'a' <= c && c <= 'z' ==> r@ == seq![((c as u32) - 32) as char],
        (c as u32) < 128 && !('a' <= c && c <= 'z') ==> r@ == seq![c],
{
    c.to_uppercase().collect()
}

/// Calls `str::to_lowercase`. Its result is named by `str_lower`; of ASCII
/// input it states that each capital letter becomes its small letter and
/// every other character stays. Of other input nothing more is stated.
#[verifier::external_body]
pub(crate) fn to_lowercase(s: &str) -> (r: String)
    ensures
        r@ == str_lower(s@),
        vstd::utf8::is_ascii_chars(s@) ==> r@ == ascii_lower(s@),
{
    s.to_lowercase()
}


// ---------------------------------------------------------------------------
// Concatenating rendered pieces
// ---------------------------------------------------------------------------

/// The texts `f(0, s[0])`, `f(1, s[1])`, ... one after another.
pub open spec fn concat_map<A>(s: Seq<A>, f: spec_fn(int, A) -> Seq<char>) -> Seq<char>
    decreases s.len(),
{
    if s.len() == 0 {
        Seq::empty()
    } else {
        concat_map(s.drop_last(), f) + f(s.len() - 1, s.last())
    }
}

pub proof fn lemma_concat_map_step<A>(s: Seq<A>, f: spec_fn(int, A) -> Seq<char>, i: int)
    requires
        0 <= i < s.len(),
    ensures
        concat_map(s.take(i + 1), f) == concat_map(s.take(i), f) + f(i, s[i]),
{
    assert(s.take(i + 1).drop_last() =~= s.take(i));
}

pub proof fn lemma_concat_map_push<A>(s: Seq<A>, f: spec_fn(int, A) -> Seq<char>, a: A)
    ensures
        concat_map(s.push(a), f) == concat_map(s, f) + f(s.len() as int, a),
{
    assert(s.push(a).drop_last() =~= s);
}

pub proof fn lemma_take_all<A>(s: Seq<A>)
    ensures
        s.take(s.len() as int) == s,
{
    assert(s.take(s.len() as int) =~= s);
}

// ---------------------------------------------------------------------------
// Prefixes, suffixes, case
// ---------------------------------------------------------------------------

pub open spec fn ends_with(s: Seq<char>, p: Seq<char>) -> bool {
    p.len() <= s.len() && s.subrange(s.len() - p.len(), s.len() as int) == p
}

/// `str::trim_end_matches(p)`: `p` removed from the end as often as it is there.
pub open spec fn trim_end_matches(s: Seq<char>, p: Seq<char>) -> Seq<char>
    decreases s.len(),
{
    if p.len() > 0 && ends_with(s, p) {
        trim_end_matches(s.subrange(0, s.len() - p.len()), p)
    } else {
        s
    }
}

pub open spec fn ascii_upper_char(c: char) -> char {
    if 'a' <= c && c <= 'z' {
        ((c as u32) - 32) as char
    } else {
        c
    }
}

/// What `char::to_uppercase` yields for `c`: for an ASCII character its
/// capital if it is a small letter and the character itself otherwise.
pub open spec fn upper(c: char) -> Seq<char> {
    if (c as u32) < 128 {
        seq![ascii_upper_char(c)]
    } else {
        char_upper(c)
    }
}

/// What `str::to_lowercase` returns for `s`: for ASCII text each capital
/// letter becomes its small letter and every other character stays.
pub open spec fn lower(s: Seq<char>) -> Seq<char> {
    if vstd::utf8::is_ascii_chars(s) {
        ascii_lower(s)
    } else {
        str_lower(s)
    }
}

/// The word with its first character in upper case.
pub open spec fn capitalize(w: Seq<char>) -> Seq<char> {
    if w.len() == 0 {
        Seq::empty()
    } else {
        upper(w[0]) + w.drop_first()
    }
}

/// `snake_case` to `Title Case`: the words between underscores, each
/// capitalized, joined by single spaces.
pub open spec fn title_case(s: Seq<char>) -> Seq<char> {
    join(split(s, '_').map_values(|w: Seq<char>| capitalize(w)), " "@)
}

pub fn starts_with_vec(v: &Vec<char>, p: &str) -> (r: bool)
    ensures
        r == starts_with(v@, p@),
{
    let pv = chars_of(p);
    if pv.len() > v.len() {
        return false;
    }
    let mut i: usize = 0;
    while i < pv.len()
        invariant
            pv@ == p@,
            pv@.len() <= v@.len(),
            i <= pv@.len(),
            forall|k: int| 0 <= k < i ==> v@[k] == pv@[k],
        decreases pv@.len() - i,
    {
        if v[i] != pv[i] {
            assert(v@.subrange(0, pv@.len() as int)[i as int] != pv@[i as int]);
            return false;
        }
        i = i + 1;
    }
    assert(v@.subrange(0, pv@.len() as int) =~= pv@);
    true
}

pub fn ends_with_vec(v: &Vec<char>, p: &Vec<char>) -> (r: bool)
    ensures
        r == ends_with(v@, p@),
{
    if p.len() > v.len() {
        return false;
    }
    let n = v.len();
    let off = n - p.len();
    let mut i: usize = 0;
    while i < p.len()
        invariant
            n == v@.len(),
            off + p@.len() == v@.len(),
            i <= p@.len(),
            forall|k: int| 0 <= k < i ==> v@[off + k] == p@[k],
        decreases p@.len() - i,
    {
        if v[off + i] != p[i] {
            assert(v@.subrange(off as int, v@.len() as int)[i as int] != p@[i as int]);
            return false;
        }
        i = i + 1;
    }
    assert(v@.subrange(off as int, v@.len() as int) =~= p@);
    true
}

pub fn trim_end_matches_vec(v: &Vec<char>, p: &str) -> (r: Vec<char>)
    ensures
        r@ == trim_end_matches(v@, p@),
{
    let pv = chars_of(p);
    let mut cur = sub_vec(v, 0, v.len());
    assert(cur@ =~= v@);
    while pv.len() > 0 && ends_with_vec(&cur, &pv)
        invariant
            pv@ == p@,
            trim_end_matches(v@, p@) == trim_end_matches(cur@, p@),
        decreases cur@.len(),
    {
        let n = cur.len();
        cur = sub_vec(&cur, 0, n - pv.len());
    }
    cur
}

/// The first piece of `split(c)`: everything before the first `c`.
pub fn before_char(v: &Vec<char>, c: char) -> (r: Vec<char>)
    ensures
        r@ == split(v@, c)[0],
{
    match find_char(v, c) {
        Some(i) => {
            proof {
                lemma_find_from_matches(v@, seq![c], 0);
            }
            sub_vec(v, 0, i)
        },
        None => sub_vec(v, 0, v.len()),
    }
}


// ---------------------------------------------------------------------------
// Ordering of strings
// ---------------------------------------------------------------------------

/// `a < b` for strings: lexicographic by code point, which is the order of
/// their UTF-8 bytes and so the order of `String`'s `Ord`.
pub open spec fn str_lt(a: Seq<char>, b: Seq<char>) -> bool
    decreases a.len(),
{
    if a.len() == 0 {
        b.len() > 0
    } else if b.len() == 0 {
        false
    } else if a[0] != b[0] {
        (a[0] as u32) < (b[0] as u32)
    } else {
        str_lt(a.drop_first(), b.drop_first())
    }
}

pub proof fn lemma_str_lt_transitive(a: Seq<char>, b: Seq<char>, c: Seq<char>)
    requires
        str_lt(a, b),
        str_lt(b, c),
    ensures
        str_lt(a, c),
    decreases a.len(),
{
    if a.len() > 0 && b.len() > 0 && c.len() > 0 {
        if a[0] == b[0] && b[0] == c[0] {
            lemma_str_lt_transitive(a.drop_first(), b.drop_first(), c.drop_first());
        }
    }
}

pub proof fn lemma_str_lt_total(a: Seq<char>, b: Seq<char>)
    requires
        a != b,
    ensures
        str_lt(a, b) || str_lt(b, a),
    decreases a.len(),
{
    if a.len() > 0 && b.len() > 0 && a[0] == b[0] {
        if a.drop_first() == b.drop_first() {
            assert(a =~= seq![a[0]] + a.drop_first());
            assert(b =~= seq![b[0]] + b.drop_first());
        }
        lemma_str_lt_total(a.drop_first(), b.drop_first());
    } else if a.len() == 0 && b.len() == 0 {
        assert(a =~= b);
    } else if a.len() > 0 && b.len() > 0 {
        vstd::utf8::char_u32_cast(a[0], a[0] as u32);
        vstd::utf8::char_u32_cast(b[0], b[0] as u32);
    }
}

/// `a < b` for strings, as `String`'s `Ord`.
pub fn str_less(a: &str, b: &str) -> (r: bool)
    ensures
        r == str_lt(a@, b@),
{
    let va = chars_of(a);
    let vb = chars_of(b);
    let mut i: usize = 0;
    assert(va@.skip(0) =~= va@);
    assert(vb@.skip(0) =~= vb@);
    while i < va.len() && i < vb.len() && va[i] == vb[i]
        invariant
            i <= va@.len(),
            i <= vb@.len(),
            str_lt(va@, vb@) == str_lt(va@.skip(i as int), vb@.skip(i as int)),
        decreases va@.len() - i,
    {
        assert(va@.skip(i as int).drop_first() =~= va@.skip(i + 1));
        assert(vb@.skip(i as int).drop_first() =~= vb@.skip(i + 1));
        i = i + 1;
    }
    if i == va.len() {
        i < vb.len()
    } else if i == vb.len() {
        false
    } else {
        (va[i] as u32) < (vb[i] as u32)
    }
}

// ---------------------------------------------------------------------------
// Grouped thousands, words
// ---------------------------------------------------------------------------

/// The decimal digits of `n` with a comma before every group of three digits
/// counted from the right.
pub open spec fn thousands(n: nat) -> Seq<char>
    decreases n,
{
    if n < 1000 {
        dec(n)
    } else {
        thousands(n / 1000) + ","@ + seq![
            digit_char((n % 1000) / 100),
            digit_char((n % 100) / 10),
            digit_char(n % 10),
        ]
    }
}

/// Appends `n` with its digits grouped in thousands.
pub fn push_thousands(out: &mut String, n: u64)
    ensures
        final(out)@ == old(out)@ + thousands(n as nat),
    decreases n,
{
    if n < 1000 {
        push_dec(out, n);
    } else {
        push_thousands(out, n / 1000);
        out.append(",");
        let m = n % 1000;
        push_digit(out, m / 100);
        push_digit(out, (n % 100) / 10);
        push_digit(out, n % 10);
        proof {
            assert((n % 1000) / 100 == m / 100);
        }
    }
}

/// The number of leading characters of `t` that are not whitespace.
pub open spec fn word_len(t: Seq<char>) -> nat
    decreases t.len(),
{
    if t.len() == 0 || is_ws(t[0]) {
        0
    } else {
        1 + word_len(t.drop_first())
    }
}

/// The first piece of `split_whitespace`, if any.
pub open spec fn first_word(s: Seq<char>) -> Option<Seq<char>> {
    let t = trim_start(s);
    if t.len() == 0 {
        None
    } else {
        Some(t.take(word_len(t) as int))
    }
}

pub proof fn lemma_word_len_bound(t: Seq<char>)
    ensures
        word_len(t) <= t.len(),
    decreases t.len(),
{
    if t.len() > 0 && !is_ws(t[0]) {
        lemma_word_len_bound(t.drop_first());
    }
}

pub fn first_word_vec(v: &Vec<char>) -> (r: Option<Vec<char>>)
    ensures
        match r {
            Some(w) => first_word(v@) == Some(w@),
            None => first_word(v@) is None,
        },
{
    let t = trim_start_vec(v);
    if t.len() == 0 {
        return None;
    }
    let mut k: usize = 0;
    assert(t@.skip(0) =~= t@);
    while k < t.len() && !is_whitespace(t[k])
        invariant
            k <= t@.len(),
            word_len(t@) == k + word_len(t@.skip(k as int)),
        decreases t@.len() - k,
    {
        assert(t@.skip(k as int).drop_first() =~= t@.skip(k + 1));
        k = k + 1;
    }
    Some(sub_vec(&t, 0, k))
}


/// `s` without its commas.
pub open spec fn strip_commas(s: Seq<char>) -> Seq<char>
    decreases s.len(),
{
    if s.len() == 0 {
        Seq::empty()
    } else if s.last() == ',' {
        strip_commas(s.drop_last())
    } else {
        strip_commas(s.drop_last()).push(s.last())
    }
}

proof fn lemma_strip_commas_add(a: Seq<char>, b: Seq<char>)
    ensures
        strip_commas(a + b) == strip_commas(a) + strip_commas(b),
    decreases b.len(),
{
    if b.len() == 0 {
        assert(a + b =~= a);
        assert(strip_commas(a) + strip_commas(b) =~= strip_commas(a));
    } else {
        assert((a + b).drop_last() =~= a + b.drop_last());
        lemma_strip_commas_add(a, b.drop_last());
        if b.last() != ',' {
            assert(strip_commas(a) + strip_commas(b.drop_last()).push(b.last()) =~= (strip_commas(a)
                + strip_commas(b.drop_last())).push(b.last()));
        }
    }
}

proof fn lemma_digit_not_comma(d: nat)
    requires
        d < 10,
    ensures
        digit_char(d) != ',',
{
    assert(digit_char(d) as u32 == d + 48);
    assert(',' as u32 == 44);
}

proof fn lemma_dec_no_commas(n: nat)
    ensures
        strip_commas(dec(n)) == dec(n),
    decreases n,
{
    lemma_digit_not_comma(n % 10);
    if n >= 10 {
        lemma_dec_no_commas(n / 10);
        assert(dec(n).drop_last() =~= dec(n / 10));
    } else {
        assert(dec(n).drop_last() =~= Seq::<char>::empty());
        assert(strip_commas(Seq::<char>::empty()) =~= Seq::<char>::empty());
        assert(strip_commas(dec(n)) =~= Seq::<char>::empty().push(dec(n).last()));
    }
}

/// Grouping digits in thousands only adds separators: without its commas,
/// `format_thousands(n)` is `n.to_string()`.
pub proof fn lemma_thousands_digits(n: nat)
    ensures
        strip_commas(thousands(n)) == dec(n),
    decreases n,
{
    if n < 1000 {
        lemma_dec_no_commas(n);
    } else {
        lemma_thousands_digits(n / 1000);
        let t = seq![digit_char((n % 1000) / 100), digit_char((n % 100) / 10), digit_char(n % 10)];
        lemma_strip_commas_add(thousands(n / 1000) + ","@, t);
        lemma_strip_commas_add(thousands(n / 1000), ","@);
        reveal_strlit(",");
        assert(strip_commas(","@) =~= Seq::<char>::empty()) by {
            assert(","@.drop_last() =~= Seq::<char>::empty());
            assert(strip_commas(Seq::<char>::empty()) =~= Seq::<char>::empty());
        }
        assert(strip_commas(t) =~= t) by {
            lemma_digit_not_comma((n % 1000) / 100);
            lemma_digit_not_comma((n % 100) / 10);
            lemma_digit_not_comma(n % 10);
            let t1 = seq![t[0]];
            let t2 = seq![t[0], t[1]];
            assert(t1.drop_last() =~= Seq::<char>::empty());
            assert(strip_commas(Seq::<char>::empty()) =~= Seq::<char>::empty());
            assert(strip_commas(t1) =~= t1);
            assert(t2.drop_last() =~= t1);
            assert(strip_commas(t2) =~= t2);
            assert(t.drop_last() =~= t2);
        }
        assert(n / 10 >= 10 && n / 100 >= 10);
        assert((n / 10) / 10 == n / 100);
        assert((n / 100) / 10 == n / 1000);
        assert((n / 10) % 10 == (n % 100) / 10);
        assert((n / 100) % 10 == (n % 1000) / 100);
        assert(dec(n) == dec(n / 10).push(digit_char(n % 10)));
        assert(dec(n / 10) == dec(n / 100).push(digit_char((n / 10) % 10)));
        assert(dec(n / 100) == dec(n / 1000).push(digit_char((n / 100) % 10)));
        assert(dec(n) =~= dec(n / 1000) + t);
        assert(strip_commas(thousands(n)) =~= strip_commas(thousands(n / 1000)) + t);
    }
}

proof fn lemma_dec_shape(n: nat)
    ensures
        dec(n).len() >= 1,
        n < 10 ==> dec(n).len() == 1,
        n < 100 ==> dec(n).len() <= 2,
        n < 1000 ==> dec(n).len() <= 3,
        forall|i: int| 0 <= i < dec(n).len() ==> #[trigger] dec(n)[i] != ',',
    decreases n,
{
    lemma_digit_not_comma(n % 10);
    if n >= 10 {
        lemma_dec_shape(n / 10);
        assert forall|i: int| 0 <= i < dec(n).len() implies #[trigger] dec(n)[i] != ',' by {
            if i < dec(n).len() - 1 {
                assert(dec(n)[i] == dec(n / 10)[i]);
            }
        }
    }
}

proof fn lemma_dec_thousand(n: nat)
    requires
        n >= 1000,
    ensures
        dec(n).len() == dec(n / 1000).len() + 3,
{
    assert(n / 10 >= 10 && n / 100 >= 10);
    assert((n / 10) / 10 == n / 100);
    assert((n / 100) / 10 == n / 1000);
    assert(dec(n).len() == dec(n / 10).len() + 1);
    assert(dec(n / 10).len() == dec(n / 100).len() + 1);
    assert(dec(n / 100).len() == dec(n / 1000).len() + 1);
}

/// The shape of `format_thousands(n)` for a number of `d` digits: it is
/// `d + (d - 1) / 3` characters long, and a character is a comma exactly
/// when a positive multiple of three digits follows it, that is when the
/// number of characters from it to the end is a multiple of four.
pub proof fn lemma_thousands_shape(n: nat)
    ensures
        thousands(n).len() == dec(n).len() + (dec(n).len() - 1) / 3,
        forall|p: int|
            0 <= p < thousands(n).len() ==> (#[trigger] thousands(n)[p] == ',' <==> (
            thousands(n).len() - p) % 4 == 0),
    decreases n,
{
    lemma_dec_shape(n);
    if n >= 1000 {
        lemma_thousands_shape(n / 1000);
        lemma_dec_thousand(n);
        lemma_dec_shape(n / 1000);
        let prev = thousands(n / 1000);
        let t = seq![digit_char((n % 1000) / 100), digit_char((n % 100) / 10), digit_char(n % 10)];
        reveal_strlit(",");
        assert(thousands(n) =~= prev + seq![','] + t);
        lemma_digit_not_comma((n % 1000) / 100);
        lemma_digit_not_comma((n % 100) / 10);
        lemma_digit_not_comma(n % 10);
        let l = thousands(n).len();
        assert forall|p: int| 0 <= p < l implies (#[trigger] thousands(n)[p] == ',' <==> (l - p)
            % 4 == 0) by {
            if p < prev.len() {
                assert(thousands(n)[p] == prev[p]);
                assert((l - p) % 4 == (prev.len() - p) % 4);
            } else if p == prev.len() {
            } else {
                assert(thousands(n)[p] == t[p - prev.len() - 1]);
            }
        }
    }
}

/// Whether two strings hold the same characters.
pub fn str_eq(a: &str, b: &str) -> (r: bool)
    ensures
        r == (a@ == b@),
{
    let va = chars_of(a);
    let vb = chars_of(b);
    if va.len() != vb.len() {
        return false;
    }
    let mut i: usize = 0;
    while i < va.len()
        invariant
            va@ == a@,
            vb@ == b@,
            va@.len() == vb@.len(),
            i <= va@.len(),
            forall|k: int| 0 <= k < i ==> va@[k] == vb@[k],
        decreases va@.len() - i,
    {
        if va[i] != vb[i] {
            assert(va@[i as int] != vb@[i as int]);
            return false;
        }
        i = i + 1;
    }
    assert(va@ =~= vb@);
    true
}

} // verus!
