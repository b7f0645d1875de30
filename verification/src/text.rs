//! Text helpers: character access, lexicographic order, sorting, joining,
//! decimal numbers and the splitting of a document into lines and words.

use vstd::prelude::*;
use vstd::relations::{sorted_by, total_ordering};
use vstd::seq_lib::lemma_sorted_unique;

verus! {

/// Appends one character to a string.
///
/// Trusted: stands for `String::push`, which appends the given `char` to the
/// end of the string and leaves what was there in place.
#[verifier::external_body]
pub(crate) fn push_char(s: &mut String, c: char)
    ensures
        final(s)@ == old(s)@.push(c),
{
    s.push(c)
}

/// The characters of a string, in order.
pub fn chars_of(s: &str) -> (v: Vec<char>)
    ensures
        v@ == s@,
{
    broadcast use vstd::string::group_string_axioms;

    let mut v: Vec<char> = Vec::new();
    for c in iter: s.chars()
        invariant
            iter.seq() == s@,
            v@ == iter.seq().take(iter.index()),
    {
        v.push(c);
        assert(iter.seq().take(iter.index() + 1) =~= iter.seq().take(iter.index()).push(c));
    }
    v
}

/// The string made of the characters `v[from..to]`.
pub fn string_of(v: &Vec<char>, from: usize, to: usize) -> (s: String)
    requires
        from <= to <= v.len(),
    ensures
        s@ == v@.subrange(from as int, to as int),
{
    let mut s = String::new();
    let mut i: usize = from;
    while i < to
        invariant
            from <= i <= to <= v.len(),
            s@ == v@.subrange(from as int, i as int),
        decreases to - i,
    {
        push_char(&mut s, v[i]);
        assert(v@.subrange(from as int, i + 1) =~= v@.subrange(from as int, i as int).push(
            v@[i as int],
        ));
        i += 1;
    }
    s
}

/// The views of a sequence of strings.
pub open spec fn views(v: Seq<String>) -> Seq<Seq<char>> {
    v.map_values(|s: String| s@)
}

/// Lexicographic order on texts, character by character by code point; a
/// proper prefix comes first.
pub open spec fn str_le(a: Seq<char>, b: Seq<char>) -> bool
    decreases a.len(),
{
    if a.len() == 0 {
        true
    } else if b.len() == 0 {
        false
    } else if a[0] == b[0] {
        str_le(a.drop_first(), b.drop_first())
    } else {
        (a[0] as int) < (b[0] as int)
    }
}

/// `str_le` as a relation, for the sorting lemmas.
pub open spec fn le_fn() -> spec_fn(Seq<char>, Seq<char>) -> bool {
    |a: Seq<char>, b: Seq<char>| str_le(a, b)
}

/// A text comes before or equals itself.
pub proof fn lemma_str_le_refl(a: Seq<char>)
    ensures
        str_le(a, a),
    decreases a.len(),
{
    if a.len() > 0 {
        lemma_str_le_refl(a.drop_first());
    }
}

/// Two texts that come before or equal each other are the same.
pub proof fn lemma_str_le_antisym(a: Seq<char>, b: Seq<char>)
    requires
        str_le(a, b),
        str_le(b, a),
    ensures
        a == b,
    decreases a.len(),
{
    if a.len() == 0 || b.len() == 0 {
        assert(a =~= b);
    } else {
        lemma_str_le_antisym(a.drop_first(), b.drop_first());
        assert(a =~= seq![a[0]] + a.drop_first());
        assert(b =~= seq![b[0]] + b.drop_first());
    }
}

/// The order carries over from one pair of texts to the next.
pub proof fn lemma_str_le_trans(a: Seq<char>, b: Seq<char>, c: Seq<char>)
    requires
        str_le(a, b),
        str_le(b, c),
    ensures
        str_le(a, c),
    decreases a.len(),
{
    if a.len() > 0 && b.len() > 0 && c.len() > 0 {
        if a[0] == b[0] && b[0] == c[0] {
            lemma_str_le_trans(a.drop_first(), b.drop_first(), c.drop_first());
        }
    }
}

/// Of two texts one comes before or equals the other.
pub proof fn lemma_str_le_total(a: Seq<char>, b: Seq<char>)
    ensures
        str_le(a, b) || str_le(b, a),
    decreases a.len(),
{
    if a.len() > 0 && b.len() > 0 {
        let x = a[0];
        let y = b[0];
        if x == y {
            lemma_str_le_total(a.drop_first(), b.drop_first());
        } else {
            assert((x as int) != (y as int));
        }
    }
}

/// The lexicographic order is a total order.
pub proof fn lemma_str_le_total_ordering()
    ensures
        total_ordering(le_fn()),
{
    let r = le_fn();
    assert forall|x: Seq<char>| #[trigger] r(x, x) by {
        lemma_str_le_refl(x);
    }
    assert forall|x: Seq<char>, y: Seq<char>| #[trigger] r(x, y) && #[trigger] r(y, x) implies x
        == y by {
        lemma_str_le_antisym(x, y);
    }
    assert forall|x: Seq<char>, y: Seq<char>, z: Seq<char>| #[trigger]
        r(x, y) && #[trigger] r(y, z) implies r(x, z) by {
        lemma_str_le_trans(x, y, z);
    }
    assert forall|x: Seq<char>, y: Seq<char>| #[trigger] r(x, y) || #[trigger] r(y, x) by {
        lemma_str_le_total(x, y);
    }
}

/// Whether `a` comes before or equals `b` in lexicographic order.
pub fn chars_le(a: &Vec<char>, b: &Vec<char>) -> (r: bool)
    ensures
        r == str_le(a@, b@),
{
    let mut i: usize = 0;
    assert(a@.skip(0) =~= a@ && b@.skip(0) =~= b@);
    loop
        invariant
            i <= a.len(),
            i <= b.len(),
            str_le(a@, b@) == str_le(a@.skip(i as int), b@.skip(i as int)),
        decreases a.len() - i,
    {
        if i >= a.len() {
            return true;
        }
        if i >= b.len() {
            return false;
        }
        let ca = a[i];
        let cb = b[i];
        if ca != cb {
            return ca < cb;
        }
        proof {
            assert(a@.skip(i as int).drop_first() =~= a@.skip(i + 1));
            assert(b@.skip(i as int).drop_first() =~= b@.skip(i + 1));
        }
        i += 1;
    }
}

/// Whether two character vectors hold the same text.
pub fn chars_eq(a: &Vec<char>, b: &Vec<char>) -> (r: bool)
    ensures
        r == (a@ == b@),
{
    if a.len() != b.len() {
        return false;
    }
    let mut i: usize = 0;
    while i < a.len()
        invariant
            i <= a.len(),
            a.len() == b.len(),
            a@.take(i as int) == b@.take(i as int),
        decreases a.len() - i,
    {
        if a[i] != b[i] {
            return false;
        }
        assert(a@.take(i + 1) =~= a@.take(i as int).push(a@[i as int]));
        assert(b@.take(i + 1) =~= b@.take(i as int).push(b@[i as int]));
        i += 1;
    }
    assert(a@ =~= a@.take(a.len() as int));
    assert(b@ =~= b@.take(b.len() as int));
    true
}

/// Whether `a` comes before or equals `b` in lexicographic order.
pub fn string_le(a: &str, b: &str) -> (r: bool)
    ensures
        r == str_le(a@, b@),
{
    let va = chars_of(a);
    let vb = chars_of(b);
    chars_le(&va, &vb)
}

/// The strings of `v` in lexicographic order.
pub fn sort_strings(v: &Vec<String>) -> (r: Vec<String>)
    ensures
        views(r@) == views(v@).sort_by(le_fn()),
{
    let mut res: Vec<String> = Vec::new();
    let mut i: usize = 0;
    proof {
        lemma_str_le_total_ordering();
        assert(views(v@).take(0) =~= views(res@));
    }
    while i < v.len()
        invariant
            i <= v.len(),
            total_ordering(le_fn()),
            sorted_by(views(res@), le_fn()),
            views(res@).to_multiset() == views(v@).take(i as int).to_multiset(),
        decreases v.len() - i,
    {
        let x = v[i].clone();
        let mut j: usize = 0;
        while j < res.len() && string_le(res[j].as_str(), x.as_str())
            invariant
                j <= res.len(),
                forall|k: int| 0 <= k < j ==> str_le(#[trigger] views(res@)[k], x@),
            decreases res.len() - j,
        {
            j += 1;
        }
        let ghost before = views(res@);
        res.insert(j, x);
        proof {
            let after = views(res@);
            assert(after =~= before.insert(j as int, x@));
            vstd::seq_lib::to_multiset_insert(before, j as int, x@);
            assert(views(v@).take(i + 1) =~= views(v@).take(i as int).push(x@));
            vstd::seq_lib::to_multiset_build(views(v@).take(i as int), x@);
            assert forall|p: int, q: int| 0 <= p < q < after.len() implies #[trigger] le_fn()(
                after[p],
                after[q],
            ) by {
                if q < j {
                    assert(le_fn()(before[p], before[q]));
                } else if q == j {
                    assert(str_le(before[p], x@));
                } else if p < j {
                    assert(le_fn()(before[p], before[q - 1]));
                } else if p == j {
                    lemma_str_le_total(before[j as int], x@);
                    if q - 1 > j {
                        assert(le_fn()(before[j as int], before[q - 1]));
                        lemma_str_le_trans(x@, before[j as int], before[q - 1]);
                    }
                } else {
                    assert(le_fn()(before[p - 1], before[q - 1]));
                }
            }
        }
        i += 1;
    }
    proof {
        assert(views(v@).take(v.len() as int) =~= views(v@));
        views(v@).lemma_sort_by_ensures(le_fn());
        lemma_sorted_unique(views(res@), views(v@).sort_by(le_fn()), le_fn());
    }
    res
}

/// The pieces joined with the separator between each two neighbours.
pub open spec fn join(parts: Seq<Seq<char>>, sep: Seq<char>) -> Seq<char>
    decreases parts.len(),
{
    if parts.len() == 0 {
        Seq::empty()
    } else if parts.len() == 1 {
        parts[0]
    } else {
        join(parts.drop_last(), sep) + sep + parts.last()
    }
}

/// The strings joined with the separator between each two neighbours.
pub fn join_strings(parts: &Vec<String>, sep: &str) -> (r: String)
    ensures
        r@ == join(views(parts@), sep@),
{
    let mut out = String::new();
    let mut i: usize = 0;
    while i < parts.len()
        invariant
            i <= parts.len(),
            out@ == join(views(parts@).take(i as int), sep@),
        decreases parts.len() - i,
    {
        if i > 0 {
            out.append(sep);
        }
        out.append(parts[i].as_str());
        proof {
            let next = views(parts@).take(i + 1);
            assert(next.drop_last() =~= views(parts@).take(i as int));
            assert(next.last() == parts@[i as int]@);
            if i == 0 {
                assert(out@ =~= join(next, sep@));
            }
        }
        i += 1;
    }
    assert(views(parts@).take(parts.len() as int) =~= views(parts@));
    out
}

/// The character of a decimal digit.
pub open spec fn digit_char(d: int) -> char {
    if d == 0 {
        '0'
    } else if d == 1 {
        '1'
    } else if d == 2 {
        '2'
    } else if d == 3 {
        '3'
    } else if d == 4 {
        '4'
    } else if d == 5 {
        '5'
    } else if d == 6 {
        '6'
    } else if d == 7 {
        '7'
    } else if d == 8 {
        '8'
    } else {
        '9'
    }
}

/// The decimal numeral of a natural number, without leading zeros.
pub open spec fn decimal(n: nat) -> Seq<char>
    decreases n,
{
    if n < 10 {
        seq![digit_char(n as int)]
    } else {
        decimal(n / 10).push(digit_char((n % 10) as int))
    }
}

/// Whether a character is a decimal digit.
pub open spec fn is_digit(c: char) -> bool {
    '0' as int <= c as int <= '9' as int
}

/// The digits stand for different values.
pub proof fn lemma_digit_char(a: int, b: int)
    requires
        0 <= a < 10,
        0 <= b < 10,
    ensures
        is_digit(digit_char(a)),
        digit_char(a) == digit_char(b) ==> a == b,
{
}

/// A decimal numeral has a digit, and digits only.
pub proof fn lemma_decimal_digits(n: nat)
    ensures
        decimal(n).len() >= 1,
        forall|k: int| 0 <= k < decimal(n).len() ==> is_digit(#[trigger] decimal(n)[k]),
    decreases n,
{
    if n < 10 {
        lemma_digit_char(n as int, 0);
    } else {
        lemma_decimal_digits(n / 10);
        lemma_digit_char((n % 10) as int, 0);
    }
}

/// Different numbers have different decimal numerals.
pub proof fn lemma_decimal_injective(a: nat, b: nat)
    requires
        decimal(a) == decimal(b),
    ensures
        a == b,
    decreases a,
{
    lemma_decimal_digits(a / 10);
    lemma_decimal_digits(b / 10);
    if a < 10 && b < 10 {
        assert(decimal(a)[0] == digit_char(a as int));
        assert(decimal(b)[0] == digit_char(b as int));
        lemma_digit_char(a as int, b as int);
    } else if a >= 10 && b >= 10 {
        let x = decimal(a / 10);
        let y = decimal(b / 10);
        let da = digit_char((a % 10) as int);
        let db = digit_char((b % 10) as int);
        assert(x.push(da).last() == da);
        assert(y.push(db).last() == db);
        assert(x.push(da).drop_last() =~= x);
        assert(y.push(db).drop_last() =~= y);
        lemma_digit_char((a % 10) as int, (b % 10) as int);
        lemma_decimal_injective(a / 10, b / 10);
    } else {
        assert(decimal(a).len() != decimal(b).len());
    }
}

/// A text is cut in one way only at the last occurrence of a character.
pub proof fn lemma_split_at_last(
    a: Seq<char>,
    b: Seq<char>,
    x: Seq<char>,
    y: Seq<char>,
    c: char,
)
    requires
        a + seq![c] + b == x + seq![c] + y,
        !b.contains(c),
        !y.contains(c),
    ensures
        a == x,
        b == y,
{
    let left = a + seq![c] + b;
    let right = x + seq![c] + y;
    assert(left.len() == right.len());
    if a.len() < x.len() {
        assert(right[x.len() as int] == c);
        assert(left[x.len() as int] == b[x.len() - a.len() - 1]);
        assert(b.contains(b[x.len() - a.len() - 1]));
    } else if x.len() < a.len() {
        assert(left[a.len() as int] == c);
        assert(right[a.len() as int] == y[a.len() - x.len() - 1]);
        assert(y.contains(y[a.len() - x.len() - 1]));
    }
    assert(a =~= x) by {
        assert forall|k: int| 0 <= k < a.len() implies a[k] == x[k] by {
            assert(left[k] == a[k]);
            assert(right[k] == x[k]);
        }
    }
    assert(b =~= y) by {
        assert forall|k: int| 0 <= k < b.len() implies b[k] == y[k] by {
            assert(left[a.len() + 1 + k] == b[k]);
            assert(right[x.len() + 1 + k] == y[k]);
        }
    }
}

/// The character of a decimal digit.
fn digit_of(d: u64) -> (c: char)
    requires
        d < 10,
    ensures
        c == digit_char(d as int),
{
    if d == 0 {
        '0'
    } else if d == 1 {
        '1'
    } else if d == 2 {
        '2'
    } else if d == 3 {
        '3'
    } else if d == 4 {
        '4'
    } else if d == 5 {
        '5'
    } else if d == 6 {
        '6'
    } else if d == 7 {
        '7'
    } else if d == 8 {
        '8'
    } else {
        '9'
    }
}

/// Appends the decimal numeral of `n` to `out`.
pub fn push_decimal(out: &mut String, n: u64)
    ensures
        final(out)@ == old(out)@ + decimal(n as nat),
    decreases n,
{
    if n >= 10 {
        push_decimal(out, n / 10);
    }
    push_char(out, digit_of(n % 10));
    proof {
        if n >= 10 {
            assert(final(out)@ =~= old(out)@ + decimal(n as nat));
        } else {
            assert(final(out)@ =~= old(out)@ + decimal(n as nat));
        }
    }
}

/// Whether `pat` stands in `s` at position `i`.
pub open spec fn occurs_at(s: Seq<char>, pat: Seq<char>, i: int) -> bool {
    0 <= i && i + pat.len() <= s.len() && s.subrange(i, i + pat.len()) == pat
}

/// Whether `pat` stands somewhere in `s`.
pub open spec fn contains_text(s: Seq<char>, pat: Seq<char>) -> bool {
    exists|i: int| occurs_at(s, pat, i)
}

/// Whether `pat` stands in `s[from..to]` at the position `i` of `s`.
fn matches_at(s: &Vec<char>, from: usize, to: usize, pat: &Vec<char>, i: usize) -> (r: bool)
    requires
        from <= i,
        i + pat.len() <= to <= s.len(),
    ensures
        r == occurs_at(s@.subrange(from as int, to as int), pat@, i - from),
{
    let ghost line = s@.subrange(from as int, to as int);
    let mut k: usize = 0;
    while k < pat.len()
        invariant
            from <= i,
            i + pat.len() <= to <= s.len(),
            k <= pat.len(),
            line == s@.subrange(from as int, to as int),
            line.subrange(i - from, i - from + k) == pat@.take(k as int),
        decreases pat.len() - k,
    {
        if s[i + k] != pat[k] {
            proof {
                if occurs_at(line, pat@, i - from) {
                    assert(line.subrange(i - from, i - from + pat.len())[k as int] == pat@[k as int]);
                }
            }
            return false;
        }
        proof {
            assert(line.subrange(i - from, i - from + k + 1) =~= line.subrange(
                i - from,
                i - from + k,
            ).push(s@[i + k]));
            assert(pat@.take(k + 1) =~= pat@.take(k as int).push(pat@[k as int]));
        }
        k += 1;
    }
    assert(pat@.take(pat.len() as int) =~= pat@);
    true
}

/// Whether `pat` stands somewhere in `s[from..to]`.
pub fn contains_chars(s: &Vec<char>, from: usize, to: usize, pat: &Vec<char>) -> (r: bool)
    requires
        from <= to <= s.len(),
    ensures
        r == contains_text(s@.subrange(from as int, to as int), pat@),
{
    let ghost line = s@.subrange(from as int, to as int);
    if pat.len() > to - from {
        return false;
    }
    let last: usize = to - pat.len();
    let mut i: usize = from;
    loop
        invariant
            from <= i <= last,
            last == to - pat.len(),
            from <= to <= s.len(),
            line == s@.subrange(from as int, to as int),
            forall|j: int| 0 <= j < i - from ==> !occurs_at(line, pat@, j),
        decreases last - i,
    {
        if matches_at(s, from, to, pat, i) {
            assert(occurs_at(line, pat@, i - from));
            return true;
        }
        if i == last {
            return false;
        }
        i += 1;
    }
}

/// The texts of a sequence of character vectors.
pub open spec fn char_views(v: Seq<Vec<char>>) -> Seq<Seq<char>> {
    v.map_values(|l: Vec<char>| l@)
}

/// Whether a character separates words: a space, a tab, a line feed, a
/// carriage return, a vertical tab or a form feed.
pub open spec fn is_space(c: char) -> bool {
    c == ' ' || c == '\t' || c == '\n' || c == '\r' || c == '\u{b}' || c == '\u{c}'
}

/// The lines of `s` from position `i` on, where `cur` is what was read of the
/// line at hand: the pieces between line feeds, empty ones too.
pub open spec fn lines_from(s: Seq<char>, i: int, cur: Seq<char>) -> Seq<Seq<char>>
    decreases s.len() - i,
{
    if i < 0 || i >= s.len() {
        seq![cur]
    } else if s[i] == '\n' {
        seq![cur] + lines_from(s, i + 1, Seq::empty())
    } else {
        lines_from(s, i + 1, cur.push(s[i]))
    }
}

/// The lines of a text: the pieces between its line feeds. A text without a
/// line feed is one line; a text that ends in a line feed has an empty last
/// line.
pub open spec fn lines(s: Seq<char>) -> Seq<Seq<char>> {
    lines_from(s, 0, Seq::empty())
}

/// The word at hand, if anything was read of it.
pub open spec fn word_if_any(cur: Seq<char>) -> Seq<Seq<char>> {
    if cur.len() > 0 {
        seq![cur]
    } else {
        Seq::empty()
    }
}

/// The words of `s` from position `i` on, where `cur` is what was read of the
/// word at hand.
pub open spec fn words_from(s: Seq<char>, i: int, cur: Seq<char>) -> Seq<Seq<char>>
    decreases s.len() - i,
{
    if i < 0 || i >= s.len() {
        word_if_any(cur)
    } else if is_space(s[i]) {
        word_if_any(cur) + words_from(s, i + 1, Seq::empty())
    } else {
        words_from(s, i + 1, cur.push(s[i]))
    }
}

/// The words of a text: its longest stretches without a separator.
pub open spec fn words(s: Seq<char>) -> Seq<Seq<char>> {
    words_from(s, 0, Seq::empty())
}

/// Joining a piece and then more pieces: the piece, the separator, the rest.
pub proof fn lemma_join_first(first: Seq<char>, rest: Seq<Seq<char>>, sep: Seq<char>)
    requires
        rest.len() > 0,
    ensures
        join(seq![first] + rest, sep) == first + sep + join(rest, sep),
    decreases rest.len(),
{
    let all = seq![first] + rest;
    assert(all.last() == rest.last());
    if rest.len() == 1 {
        assert(all.drop_last() =~= seq![first]);
        assert(join(seq![first], sep) == first);
        assert(join(rest, sep) == rest[0]);
        assert(join(all, sep) == join(all.drop_last(), sep) + sep + all.last());
        assert(join(all, sep) =~= first + sep + join(rest, sep));
    } else {
        assert(all.drop_last() =~= seq![first] + rest.drop_last());
        lemma_join_first(first, rest.drop_last(), sep);
        assert(join(all, sep) =~= first + sep + join(rest, sep));
    }
}

/// The lines of a text hold no line feed, and joined by line feeds they give
/// the text back.
pub proof fn lemma_lines_from(s: Seq<char>, i: int, cur: Seq<char>)
    requires
        0 <= i <= s.len(),
        !cur.contains('\n'),
    ensures
        lines_from(s, i, cur).len() >= 1,
        join(lines_from(s, i, cur), seq!['\n']) == cur + s.skip(i),
        forall|k: int|
            0 <= k < lines_from(s, i, cur).len() ==> !(#[trigger] lines_from(s, i, cur)[k]).contains(
                '\n',
            ),
    decreases s.len() - i,
{
    let sep = seq!['\n'];
    if i >= s.len() {
        assert(cur + s.skip(i) =~= cur);
    } else if s[i] == '\n' {
        let none = Seq::<char>::empty();
        lemma_lines_from(s, i + 1, none);
        let rest = lines_from(s, i + 1, none);
        lemma_join_first(cur, rest, sep);
        assert(cur + sep + (none + s.skip(i + 1)) =~= cur + s.skip(i));
    } else {
        let next = cur.push(s[i]);
        assert forall|k: int| 0 <= k < next.len() implies next[k] != '\n' by {
            if k < cur.len() {
                assert(cur.contains(cur[k]) ==> cur[k] != '\n');
                assert(cur[k] == next[k]);
                if cur[k] == '\n' {
                    assert(cur.contains('\n'));
                }
            }
        }
        assert(!next.contains('\n'));
        lemma_lines_from(s, i + 1, next);
        assert(next + s.skip(i + 1) =~= cur + s.skip(i));
    }
}

/// The lines of a text hold no line feed, and joined by line feeds they give
/// the text back.
pub proof fn law_lines_give_the_text_back(s: Seq<char>)
    ensures
        join(lines(s), seq!['\n']) == s,
        forall|k: int| 0 <= k < lines(s).len() ==> !(#[trigger] lines(s)[k]).contains('\n'),
{
    let none = Seq::<char>::empty();
    lemma_lines_from(s, 0, none);
    assert(none + s.skip(0) =~= s);
}

/// Whether a text has a character and none that separates words.
pub open spec fn is_word(w: Seq<char>) -> bool {
    w.len() > 0 && forall|k: int| 0 <= k < w.len() ==> !is_space(#[trigger] w[k])
}

/// Each of the words of a text has a character and none that separates
/// words.
pub proof fn lemma_words_from(s: Seq<char>, i: int, cur: Seq<char>)
    requires
        0 <= i <= s.len(),
        forall|k: int| 0 <= k < cur.len() ==> !is_space(#[trigger] cur[k]),
    ensures
        forall|k: int|
            0 <= k < words_from(s, i, cur).len() ==> is_word(#[trigger] words_from(s, i, cur)[k]),
    decreases s.len() - i,
{
    let all = words_from(s, i, cur);
    if i >= s.len() {
        assert forall|k: int| 0 <= k < all.len() implies is_word(#[trigger] all[k]) by {
            assert(all[k] == cur);
        }
    } else if is_space(s[i]) {
        let rest = words_from(s, i + 1, Seq::empty());
        lemma_words_from(s, i + 1, Seq::empty());
        assert forall|k: int| 0 <= k < all.len() implies is_word(#[trigger] all[k]) by {
            if cur.len() > 0 {
                if k == 0 {
                    assert(all[k] == cur);
                } else {
                    assert(all[k] == rest[k - 1]);
                }
            } else {
                assert(all[k] == rest[k]);
            }
        }
    } else {
        let next = cur.push(s[i]);
        assert forall|k: int| 0 <= k < next.len() implies !is_space(#[trigger] next[k]) by {
            if k < cur.len() {
                assert(next[k] == cur[k]);
            }
        }
        lemma_words_from(s, i + 1, next);
        assert(all == words_from(s, i + 1, next));
    }
}

/// Each of the words of a text has a character and none that separates
/// words.
pub proof fn law_words_hold_no_space(s: Seq<char>)
    ensures
        forall|k: int| 0 <= k < words(s).len() ==> is_word(#[trigger] words(s)[k]),
{
    lemma_words_from(s, 0, Seq::empty());
}

/// The lines of a text.
pub fn split_lines(s: &Vec<char>) -> (r: Vec<Vec<char>>)
    ensures
        char_views(r@) == lines(s@),
        r.len() >= 1,
{
    let mut out: Vec<Vec<char>> = Vec::new();
    let mut cur: Vec<char> = Vec::new();
    let mut i: usize = 0;
    assert(char_views(out@) + lines_from(s@, 0, cur@) =~= lines(s@));
    while i < s.len()
        invariant
            i <= s.len(),
            char_views(out@) + lines_from(s@, i as int, cur@) == lines(s@),
        decreases s.len() - i,
    {
        let ghost before = char_views(out@);
        let ghost line = cur@;
        if s[i] == '\n' {
            out.push(cur);
            cur = Vec::new();
            proof {
                assert(char_views(out@) =~= before.push(line));
                assert(char_views(out@) + lines_from(s@, i + 1, cur@) =~= before + lines_from(
                    s@,
                    i as int,
                    line,
                ));
            }
        } else {
            cur.push(s[i]);
        }
        i += 1;
    }
    let ghost before = char_views(out@);
    let ghost line = cur@;
    out.push(cur);
    proof {
        assert(char_views(out@) =~= before.push(line));
        assert(char_views(out@) =~= before + lines_from(s@, s.len() as int, line));
    }
    out
}

/// The words of a text.
pub fn split_words(s: &Vec<char>) -> (r: Vec<Vec<char>>)
    ensures
        char_views(r@) == words(s@),
{
    let mut out: Vec<Vec<char>> = Vec::new();
    let mut cur: Vec<char> = Vec::new();
    let mut i: usize = 0;
    assert(char_views(out@) + words_from(s@, 0, cur@) =~= words(s@));
    while i < s.len()
        invariant
            i <= s.len(),
            char_views(out@) + words_from(s@, i as int, cur@) == words(s@),
        decreases s.len() - i,
    {
        let ghost before = char_views(out@);
        let ghost word = cur@;
        let c = s[i];
        if c == ' ' || c == '\t' || c == '\n' || c == '\r' || c == '\u{b}' || c == '\u{c}' {
            if cur.len() > 0 {
                out.push(cur);
                cur = Vec::new();
                assert(char_views(out@) =~= before.push(word));
            }
            proof {
                assert(is_space(s@[i as int]));
                assert(cur@ =~= Seq::<char>::empty());
                assert(words_from(s@, i as int, word) == word_if_any(word) + words_from(
                    s@,
                    i + 1,
                    Seq::empty(),
                ));
                assert(char_views(out@) =~= before + word_if_any(word));
                assert(char_views(out@) + words_from(s@, i + 1, cur@) =~= before + words_from(
                    s@,
                    i as int,
                    word,
                ));
            }
        } else {
            cur.push(c);
        }
        i += 1;
    }
    let ghost before = char_views(out@);
    let ghost word = cur@;
    if cur.len() > 0 {
        out.push(cur);
        assert(char_views(out@) =~= before.push(word));
    }
    proof {
        assert(char_views(out@) =~= before + words_from(s@, s.len() as int, word));
    }
    out
}

} // verus!
