//! Character-level text helpers: white space, trimming, decimal numbers,
//! splitting and joining on a separator, and the lexicographic order of
//! strings.

use vstd::prelude::*;
use vstd::string::*;

verus! {

/// The characters with the Unicode `White_Space` property, which is what
/// `char::is_whitespace` and `str::trim` go by.
pub open spec fn is_white_space(c: char) -> bool {
    ||| c == ' '
    ||| ('\t' <= c && c <= '\r')
    ||| c == '\u{85}'
    ||| c == '\u{A0}'
    ||| c == '\u{1680}'
    ||| ('\u{2000}' <= c && c <= '\u{200A}')
    ||| c == '\u{2028}'
    ||| c == '\u{2029}'
    ||| c == '\u{202F}'
    ||| c == '\u{205F}'
    ||| c == '\u{3000}'
}

pub fn white_space(c: char) -> (r: bool)
    ensures
        r == is_white_space(c),
{
    c == ' ' || ('\t' <= c && c <= '\r') || c == '\u{85}' || c == '\u{A0}' || c == '\u{1680}'
        || ('\u{2000}' <= c && c <= '\u{200A}') || c == '\u{2028}' || c == '\u{2029}' || c
        == '\u{202F}' || c == '\u{205F}' || c == '\u{3000}'
}

/// `s` without its leading white space.
pub open spec fn trim_start(s: Seq<char>) -> Seq<char>
    decreases s.len(),
{
    if s.len() > 0 && is_white_space(s[0]) {
        trim_start(s.drop_first())
    } else {
        s
    }
}

/// `s` without its trailing white space.
pub open spec fn trim_end(s: Seq<char>) -> Seq<char>
    decreases s.len(),
{
    if s.len() > 0 && is_white_space(s.last()) {
        trim_end(s.drop_last())
    } else {
        s
    }
}

/// `s` without leading and trailing white space, as `str::trim` gives it.
pub open spec fn trimmed(s: Seq<char>) -> Seq<char> {
    trim_end(trim_start(s))
}

proof fn lemma_skip_step<A>(s: Seq<A>, i: int)
    requires
        0 <= i < s.len(),
    ensures
        s.skip(i).drop_first() == s.skip(i + 1),
        s.skip(i).len() > 0,
        s.skip(i)[0] == s[i],
{
    assert(s.skip(i).drop_first() =~= s.skip(i + 1));
}

proof fn lemma_take_step<A>(s: Seq<A>, j: int)
    requires
        0 < j <= s.len(),
    ensures
        s.take(j).drop_last() == s.take(j - 1),
        s.take(j).len() > 0,
        s.take(j).last() == s[j - 1],
{
    assert(s.take(j).drop_last() =~= s.take(j - 1));
}

/// The text an optional string holds.
pub open spec fn opt_text(o: Option<String>) -> Option<Seq<char>> {
    match o {
        Some(s) => Some(s@),
        None => None,
    }
}

/// Copies `s` into a new `String`.
pub fn owned(s: &str) -> (r: String)
    ensures
        r@ == s@,
{
    s.to_owned()
}

/// The text of `s` between the character positions `from` and `to`.
pub fn char_slice(s: &str, from: usize, to: usize) -> (r: String)
    requires
        from <= to <= s@.len(),
    ensures
        r@ == s@.subrange(from as int, to as int),
{
    owned(s.substring_char(from, to))
}

/// Removes leading and trailing white space, as `str::trim` does.
pub fn trim(s: &str) -> (r: String)
    ensures
        r@ == trimmed(s@),
{
    let n = s.unicode_len();
    let mut i: usize = 0;
    proof {
        assert(s@.skip(0) =~= s@);
    }
    while i < n && white_space(s.get_char(i))
        invariant
            n == s@.len(),
            i <= n,
            trim_start(s@) == trim_start(s@.skip(i as int)),
        decreases n - i,
    {
        proof {
            lemma_skip_step(s@, i as int);
        }
        i = i + 1;
    }
    proof {
        if i < n {
            lemma_skip_step(s@, i as int);
        } else {
            assert(s@.skip(i as int).len() == 0);
        }
    }
    let ghost front = s@.skip(i as int);
    assert(trim_start(s@) == front);
    let mut j: usize = n;
    proof {
        assert(front.take(n - i) =~= front);
    }
    while j > i && white_space(s.get_char(j - 1))
        invariant
            n == s@.len(),
            i <= j <= n,
            front == s@.skip(i as int),
            trim_end(front) == trim_end(front.take(j - i)),
        decreases j,
    {
        proof {
            lemma_take_step(front, (j - i) as int);
        }
        j = j - 1;
    }
    proof {
        if j > i {
            lemma_take_step(front, (j - i) as int);
        } else {
            assert(front.take(j - i).len() == 0);
        }
        assert(front.take(j - i) =~= s@.subrange(i as int, j as int));
    }
    char_slice(s, i, j)
}


/// The value of a run of decimal digits.
pub open spec fn decimal_value(d: Seq<char>) -> int
    decreases d.len(),
{
    if d.len() == 0 {
        0
    } else {
        decimal_value(d.drop_last()) * 10 + (d.last() as int - '0' as int)
    }
}

pub open spec fn is_decimal_digit(c: char) -> bool {
    '0' <= c && c <= '9'
}

pub open spec fn all_decimal_digits(d: Seq<char>) -> bool {
    forall|k: int| 0 <= k < d.len() ==> #[trigger] is_decimal_digit(d[k])
}

/// `s` without one leading `+`.
pub open spec fn without_plus(s: Seq<char>) -> Seq<char> {
    if s.len() > 0 && s[0] == '+' {
        s.drop_first()
    } else {
        s
    }
}

/// What `str::parse::<u16>` gives for `s`: an optional `+`, then at least one
/// ASCII digit and nothing else, of a value that fits in 16 bits.
pub open spec fn parsed_u16(s: Seq<char>) -> Option<u16> {
    let d = without_plus(s);
    if d.len() > 0 && all_decimal_digits(d) && decimal_value(d) <= u16::MAX {
        Some(decimal_value(d) as u16)
    } else {
        None
    }
}

proof fn lemma_decimal_value_nonneg(d: Seq<char>)
    requires
        all_decimal_digits(d),
    ensures
        decimal_value(d) >= 0,
    decreases d.len(),
{
    if d.len() > 0 {
        assert(is_decimal_digit(d[d.len() - 1]));
        assert(all_decimal_digits(d.drop_last())) by {
            assert forall|k: int| 0 <= k < d.drop_last().len() implies #[trigger] is_decimal_digit(
                d.drop_last()[k],
            ) by {
                assert(is_decimal_digit(d[k]));
            }
        }
        lemma_decimal_value_nonneg(d.drop_last());
    }
}

proof fn lemma_decimal_value_grows(d: Seq<char>, j: int)
    requires
        all_decimal_digits(d),
        0 <= j <= d.len(),
    ensures
        decimal_value(d.take(j)) <= decimal_value(d),
    decreases d.len() - j,
{
    if j < d.len() {
        let t = d.take(j + 1);
        assert(t.drop_last() =~= d.take(j));
        assert(is_decimal_digit(d[j]));
        assert(all_decimal_digits(d.take(j))) by {
            assert forall|k: int| 0 <= k < d.take(j).len() implies #[trigger] is_decimal_digit(
                d.take(j)[k],
            ) by {
                assert(is_decimal_digit(d[k]));
            }
        }
        lemma_decimal_value_nonneg(d.take(j));
        lemma_decimal_value_grows(d, j + 1);
    } else {
        assert(d.take(j) =~= d);
    }
}

/// Parses `s` as `str::parse::<u16>` does.
pub fn parse_u16(s: &str) -> (r: Option<u16>)
    ensures
        r == parsed_u16(s@),
{
    let n = s.unicode_len();
    let start: usize = if n > 0 && s.get_char(0) == '+' {
        1
    } else {
        0
    };
    let ghost d = without_plus(s@);
    assert(d =~= s@.skip(start as int));
    if start == n {
        return None;
    }
    let mut value: u32 = 0;
    let mut i: usize = start;
    while i < n
        invariant
            n == s@.len(),
            start <= i <= n,
            start < n,
            d == s@.skip(start as int),
            d == without_plus(s@),
            all_decimal_digits(d.take(i - start)),
            value as int == decimal_value(d.take(i - start)),
            value <= u16::MAX,
        decreases n - i,
    {
        let c = s.get_char(i);
        let ghost k = i - start;
        assert(d[k] == c);
        assert(d.take(k + 1).drop_last() =~= d.take(k));
        if !('0' <= c && c <= '9') {
            proof {
                assert(!is_decimal_digit(d[k]));
                assert(!all_decimal_digits(d));
            }
            return None;
        }
        let digit: u32 = (c as u32) - ('0' as u32);
        let next: u32 = value * 10 + digit;
        proof {
            assert(all_decimal_digits(d.take(k + 1))) by {
                assert forall|m: int| 0 <= m < d.take(k + 1).len() implies #[trigger] is_decimal_digit(
                    d.take(k + 1)[m],
                ) by {
                    if m < k {
                        assert(d.take(k + 1)[m] == d.take(k)[m]);
                    }
                }
            }
        }
        if next > 65535 {
            // Too large for 16 bits: the whole run is too, if it is digits at all.
            proof {
                if all_decimal_digits(d) {
                    lemma_decimal_value_grows(d, k + 1);
                }
            }
            return None;
        }
        value = next;
        i = i + 1;
    }
    proof {
        assert(d.take(n - start) =~= d);
    }
    Some(value as u16)
}


/// The position of the last `c` in `s`, if any.
pub open spec fn last_index_of(s: Seq<char>, c: char) -> Option<int>
    decreases s.len(),
{
    if s.len() == 0 {
        None
    } else if s.last() == c {
        Some(s.len() - 1)
    } else {
        last_index_of(s.drop_last(), c)
    }
}

/// Finds the last `c` in `s`, as `str::rfind` with a `char` does, counting
/// in characters.
pub fn rfind_char(s: &str, c: char) -> (r: Option<usize>)
    ensures
        r matches Some(k) ==> last_index_of(s@, c) == Some(k as int),
        r is None ==> last_index_of(s@, c) is None,
        r matches Some(k) ==> k < s@.len() && s@[k as int] == c,
{
    let n = s.unicode_len();
    let mut j: usize = n;
    proof {
        assert(s@.take(n as int) =~= s@);
    }
    while j > 0
        invariant
            n == s@.len(),
            j <= n,
            last_index_of(s@, c) == last_index_of(s@.take(j as int), c),
        decreases j,
    {
        proof {
            lemma_take_step(s@, j as int);
        }
        if s.get_char(j - 1) == c {
            return Some(j - 1);
        }
        j = j - 1;
    }
    None
}


/// The lexicographic order of texts by their characters' code points, which
/// is the order of `str` and `String` (by UTF-8 bytes): `a` comes before `b`.
pub open spec fn text_less(a: Seq<char>, b: Seq<char>) -> bool
    decreases a.len(),
{
    if a.len() == 0 {
        b.len() > 0
    } else if b.len() == 0 {
        false
    } else if a[0] != b[0] {
        (a[0] as int) < (b[0] as int)
    } else {
        text_less(a.drop_first(), b.drop_first())
    }
}

/// No text comes before itself.
pub proof fn lemma_text_less_irreflexive(a: Seq<char>)
    ensures
        !text_less(a, a),
    decreases a.len(),
{
    if a.len() > 0 {
        lemma_text_less_irreflexive(a.drop_first());
    }
}

/// Of two different texts, one comes before the other, and never both.
pub proof fn lemma_text_less_total(a: Seq<char>, b: Seq<char>)
    ensures
        a != b ==> text_less(a, b) || text_less(b, a),
        !(text_less(a, b) && text_less(b, a)),
    decreases a.len(),
{
    if a.len() > 0 && b.len() > 0 {
        if a[0] != b[0] {
            assert(a[0] as int != b[0] as int);
        } else {
            lemma_text_less_total(a.drop_first(), b.drop_first());
            if a != b {
                assert(a.drop_first() != b.drop_first()) by {
                    if a.drop_first() == b.drop_first() {
                        assert(a =~= seq![a[0]] + a.drop_first());
                        assert(b =~= seq![b[0]] + b.drop_first());
                    }
                }
            }
        }
    } else if a.len() == 0 && b.len() == 0 {
        assert(a =~= b);
    }
}

/// The order is transitive.
pub proof fn lemma_text_less_transitive(a: Seq<char>, b: Seq<char>, c: Seq<char>)
    requires
        text_less(a, b),
        text_less(b, c),
    ensures
        text_less(a, c),
    decreases a.len(),
{
    if a.len() > 0 && b.len() > 0 && c.len() > 0 {
        if a[0] == b[0] && b[0] == c[0] {
            lemma_text_less_transitive(a.drop_first(), b.drop_first(), c.drop_first());
        }
    }
}

proof fn lemma_text_less_step(a: Seq<char>, b: Seq<char>, i: int)
    requires
        0 <= i < a.len(),
        i < b.len(),
        a[i] == b[i],
    ensures
        text_less(a.skip(i), b.skip(i)) == text_less(a.skip(i + 1), b.skip(i + 1)),
{
    lemma_skip_step(a, i);
    lemma_skip_step(b, i);
}

/// Whether `a` comes before `b`, as `a < b` on strings decides it.
pub fn text_lt(a: &str, b: &str) -> (r: bool)
    ensures
        r == text_less(a@, b@),
{
    let n = a.unicode_len();
    let m = b.unicode_len();
    let mut i: usize = 0;
    proof {
        assert(a@.skip(0) =~= a@);
        assert(b@.skip(0) =~= b@);
    }
    while i < n && i < m
        invariant
            n == a@.len(),
            m == b@.len(),
            i <= n,
            i <= m,
            text_less(a@, b@) == text_less(a@.skip(i as int), b@.skip(i as int)),
        decreases n - i,
    {
        let x = a.get_char(i);
        let y = b.get_char(i);
        if x != y {
            proof {
                lemma_skip_step(a@, i as int);
                lemma_skip_step(b@, i as int);
            }
            return (x as u32) < (y as u32);
        }
        proof {
            lemma_text_less_step(a@, b@, i as int);
        }
        i = i + 1;
    }
    proof {
        assert(a@.skip(i as int).len() == n - i);
        assert(b@.skip(i as int).len() == m - i);
    }
    i == n && i < m
}

/// The pieces of `s` between the occurrences of `c`, as `str::split` with a
/// `char` yields them (always at least one piece).
pub open spec fn split_on(s: Seq<char>, c: char) -> Seq<Seq<char>>
    decreases s.len(),
{
    if s.len() == 0 {
        seq![Seq::<char>::empty()]
    } else {
        let p = split_on(s.drop_last(), c);
        if s.last() == c {
            p.push(Seq::<char>::empty())
        } else {
            p.update(p.len() - 1, p.last().push(s.last()))
        }
    }
}

pub proof fn lemma_split_on_nonempty(s: Seq<char>, c: char)
    ensures
        split_on(s, c).len() >= 1,
    decreases s.len(),
{
    if s.len() > 0 {
        lemma_split_on_nonempty(s.drop_last(), c);
    }
}

/// The texts held by a sequence of strings.
pub open spec fn texts(v: Seq<String>) -> Seq<Seq<char>> {
    v.map_values(|x: String| x@)
}

/// Splits `s` at each `c`, as `s.split(c).collect::<Vec<_>>()` does.
pub fn split_char(s: &str, c: char) -> (r: Vec<String>)
    ensures
        texts(r@) == split_on(s@, c),
{
    let n = s.unicode_len();
    let mut parts: Vec<String> = Vec::new();
    let mut start: usize = 0;
    let mut i: usize = 0;
    proof {
        assert(s@.take(0) =~= Seq::<char>::empty());
        assert(texts(parts@) + seq![s@.subrange(0, 0)] =~= split_on(s@.take(0), c));
    }
    while i < n
        invariant
            n == s@.len(),
            start <= i <= n,
            texts(parts@) + seq![s@.subrange(start as int, i as int)] == split_on(
                s@.take(i as int),
                c,
            ),
        decreases n - i,
    {
        let ghost before = texts(parts@);
        let ghost piece = s@.subrange(start as int, i as int);
        proof {
            lemma_take_step(s@, (i + 1) as int);
        }
        if s.get_char(i) == c {
            let p = char_slice(s, start, i);
            parts.push(p);
            start = i + 1;
            proof {
                assert(s@.subrange(start as int, (i + 1) as int) =~= Seq::<char>::empty());
                assert(texts(parts@) =~= before.push(piece));
                assert(texts(parts@) + seq![s@.subrange(start as int, (i + 1) as int)] =~= (before
                    + seq![piece]).push(Seq::<char>::empty()));
            }
        } else {
            proof {
                assert(s@.subrange(start as int, (i + 1) as int) =~= piece.push(s@[i as int]));
                let q = before + seq![piece];
                assert(q.update(q.len() - 1, q.last().push(s@[i as int])) =~= before + seq![
                    s@.subrange(start as int, (i + 1) as int),
                ]);
            }
        }
        i = i + 1;
    }
    let last = char_slice(s, start, n);
    let ghost before = texts(parts@);
    parts.push(last);
    proof {
        assert(s@.take(n as int) =~= s@);
        assert(texts(parts@) =~= before + seq![s@.subrange(start as int, n as int)]);
    }
    parts
}

/// The pieces put together with `sep` between each two, as `[T]::join` does.
pub open spec fn joined(parts: Seq<Seq<char>>, sep: Seq<char>) -> Seq<char>
    decreases parts.len(),
{
    if parts.len() == 0 {
        Seq::empty()
    } else if parts.len() == 1 {
        parts[0]
    } else {
        joined(parts.drop_last(), sep) + sep + parts.last()
    }
}

/// A text without `c` is one piece.
pub proof fn lemma_split_without_separator(s: Seq<char>, c: char)
    requires
        forall|k: int| 0 <= k < s.len() ==> s[k] != c,
    ensures
        split_on(s, c) == seq![s],
    decreases s.len(),
{
    if s.len() > 0 {
        assert forall|k: int| 0 <= k < s.drop_last().len() implies s.drop_last()[k] != c by {
            assert(s.drop_last()[k] == s[k]);
        }
        lemma_split_without_separator(s.drop_last(), c);
        assert(s[s.len() - 1] != c);
        assert(s.drop_last().push(s.last()) =~= s);
        assert(seq![s.drop_last()].update(0, s.drop_last().push(s.last())) =~= seq![s]);
    } else {
        assert(s =~= Seq::<char>::empty());
    }
}

/// Splitting a first piece without `c`, then `c`, then `rest`, gives that
/// piece followed by the pieces of `rest`.
pub proof fn lemma_split_after_piece(first: Seq<char>, rest: Seq<char>, c: char)
    requires
        forall|k: int| 0 <= k < first.len() ==> first[k] != c,
    ensures
        split_on(first.push(c) + rest, c) == seq![first] + split_on(rest, c),
    decreases rest.len(),
{
    let f = first.push(c);
    if rest.len() == 0 {
        lemma_split_without_separator(first, c);
        assert(f + rest =~= f);
        assert(f.drop_last() =~= first);
        assert(seq![first].push(Seq::<char>::empty()) =~= seq![first] + seq![Seq::<char>::empty()]);
    } else {
        lemma_split_after_piece(first, rest.drop_last(), c);
        lemma_split_on_nonempty(rest.drop_last(), c);
        let s = f + rest;
        assert(s.drop_last() =~= f + rest.drop_last());
        assert(s.last() == rest.last());
        let q = split_on(rest.drop_last(), c);
        let a = seq![first] + q;
        if rest.last() == c {
            assert(a.push(Seq::<char>::empty()) =~= seq![first] + q.push(Seq::<char>::empty()));
        } else {
            assert(a.update(a.len() - 1, a.last().push(rest.last())) =~= seq![first] + q.update(
                q.len() - 1,
                q.last().push(rest.last()),
            ));
        }
    }
}

/// Joining the pieces of `s` split at `c` back together with `c` gives `s`.
pub proof fn lemma_split_join(s: Seq<char>, c: char)
    ensures
        joined(split_on(s, c), seq![c]) == s,
    decreases s.len(),
{
    if s.len() > 0 {
        lemma_split_join(s.drop_last(), c);
        lemma_split_on_nonempty(s.drop_last(), c);
        let p = split_on(s.drop_last(), c);
        let sep = seq![c];
        if s.last() == c {
            let q = p.push(Seq::<char>::empty());
            assert(q.drop_last() =~= p);
            assert(joined(q, sep) == joined(p, sep) + sep + Seq::<char>::empty());
            assert(s.drop_last() + sep + Seq::<char>::empty() =~= s);
        } else {
            let q = p.update(p.len() - 1, p.last().push(s.last()));
            if p.len() == 1 {
                assert(joined(q, sep) == q[0]);
                assert(joined(p, sep) == p[0]);
                assert(s.drop_last().push(s.last()) =~= s);
            } else {
                assert(q.drop_last() =~= p.drop_last());
                assert(joined(q, sep) == joined(p.drop_last(), sep) + sep + p.last().push(
                    s.last(),
                ));
                assert(joined(p, sep) == joined(p.drop_last(), sep) + sep + p.last());
                assert(joined(p.drop_last(), sep) + sep + p.last().push(s.last()) =~= (joined(
                    p.drop_last(),
                    sep,
                ) + sep + p.last()).push(s.last()));
                assert(s.drop_last().push(s.last()) =~= s);
            }
        }
    }
}

/// Puts the pieces together with `sep` between each two.
pub fn join_with(parts: &Vec<String>, sep: &str) -> (r: String)
    ensures
        r@ == joined(texts(parts@), sep@),
{
    let mut out = String::new();
    let mut i: usize = 0;
    proof {
        assert(texts(parts@).take(0) =~= Seq::<Seq<char>>::empty());
    }
    while i < parts.len()
        invariant
            i <= parts.len(),
            out@ == joined(texts(parts@).take(i as int), sep@),
        decreases parts.len() - i,
    {
        let ghost t = texts(parts@);
        proof {
            assert(t.take((i + 1) as int).drop_last() =~= t.take(i as int));
        }
        if i > 0 {
            out.append(sep);
        } else {
            assert(out@ =~= Seq::<char>::empty());
        }
        out.append(parts[i].as_str());
        proof {
            assert(t[i as int] == parts@[i as int]@);
            if i == 0 {
                assert(out@ =~= t.take(1)[0]);
            }
        }
        i = i + 1;
    }
    proof {
        assert(texts(parts@).take(parts.len() as int) =~= texts(parts@));
    }
    out
}


/// `s` ends with `suffix`.
pub open spec fn ends_with(s: Seq<char>, suffix: Seq<char>) -> bool {
    suffix.len() <= s.len() && s.subrange(s.len() - suffix.len(), s.len() as int) == suffix
}

/// Whether `s` ends with `suffix`, as `str::ends_with` decides.
pub fn text_ends_with(s: &str, suffix: &str) -> (r: bool)
    ensures
        r == ends_with(s@, suffix@),
{
    let n = s.unicode_len();
    let m = suffix.unicode_len();
    if m > n {
        return false;
    }
    let mut i: usize = 0;
    while i < m
        invariant
            n == s@.len(),
            m == suffix@.len(),
            m <= n,
            i <= m,
            forall|k: int| 0 <= k < i ==> s@[n - m + k] == suffix@[k],
        decreases m - i,
    {
        if s.get_char(n - m + i) != suffix.get_char(i) {
            proof {
                assert(s@.subrange(n - m, n as int)[i as int] != suffix@[i as int]);
            }
            return false;
        }
        i = i + 1;
    }
    proof {
        assert(s@.subrange(n - m, n as int) =~= suffix@);
    }
    true
}

/// Whether two texts are the same.
pub fn text_eq(a: &str, b: &str) -> (r: bool)
    ensures
        r == (a@ == b@),
{
    let n = a.unicode_len();
    if n != b.unicode_len() {
        return false;
    }
    let mut i: usize = 0;
    while i < n
        invariant
            n == a@.len(),
            n == b@.len(),
            i <= n,
            forall|k: int| 0 <= k < i ==> a@[k] == b@[k],
        decreases n - i,
    {
        if a.get_char(i) != b.get_char(i) {
            return false;
        }
        i = i + 1;
    }
    proof {
        assert(a@ =~= b@);
    }
    true
}


/// The decimal digit for `d` (below ten).
pub open spec fn digit_char(d: int) -> char {
    ((d + '0' as int) as u32) as char
}

/// The decimal text of `n`, without sign or leading zeros (`0` for zero), as
/// `Display` writes an unsigned integer.
pub open spec fn decimal_text(n: nat) -> Seq<char>
    decreases n,
{
    if n < 10 {
        seq![digit_char(n as int)]
    } else {
        decimal_text(n / 10).push(digit_char(n as int % 10))
    }
}

/// The decimal text of `n` is a non-empty run of digits whose value is `n`.
pub proof fn lemma_decimal_text(n: nat)
    ensures
        decimal_text(n).len() >= 1,
        all_decimal_digits(decimal_text(n)),
        decimal_value(decimal_text(n)) == n,
    decreases n,
{
    if n >= 10 {
        lemma_decimal_text(n / 10);
        let t = decimal_text(n / 10);
        let u = t.push(digit_char(n as int % 10));
        assert(u.drop_last() =~= t);
        let d = n as int % 10;
        assert(digit_char(d) as int == d + '0' as int);
        assert(n as int == (n as int / 10) * 10 + d) by (nonlinear_arith)
            requires
                d == n as int % 10,
        ;
        assert forall|k: int| 0 <= k < u.len() implies #[trigger] is_decimal_digit(u[k]) by {
            if k < t.len() {
                assert(u[k] == t[k]);
            }
        }
        assert(u.last() == digit_char(d));
        assert(decimal_value(u) == decimal_value(t) * 10 + d);
        assert(decimal_value(t) == n / 10);
        assert(decimal_text(n) == u);
        assert(decimal_value(u) == n);
    } else {
        let u = seq![digit_char(n as int)];
        assert(u.drop_last() =~= Seq::<char>::empty());
        assert(digit_char(n as int) as int == n + '0' as int);
        assert(decimal_value(u.drop_last()) == 0);
        assert(decimal_value(u) == n);
        assert(decimal_text(n) == u);
    }
}

fn digit_text(d: u16) -> (r: String)
    requires
        d < 10,
    ensures
        r@ == seq![digit_char(d as int)],
{
    let digits = "0123456789";
    proof {
        reveal_strlit("0123456789");
    }
    let r = char_slice(digits, d as usize, (d + 1) as usize);
    assert(r@ =~= seq![digit_char(d as int)]);
    r
}

/// Writes `n` in decimal, as `n.to_string()` does.
pub fn decimal(n: u16) -> (r: String)
    ensures
        r@ == decimal_text(n as nat),
    decreases n,
{
    if n < 10 {
        digit_text(n)
    } else {
        let mut r = decimal(n / 10);
        let d = digit_text(n % 10);
        r.append(d.as_str());
        r
    }
}

} // verus!
