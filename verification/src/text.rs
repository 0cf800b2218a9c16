//! Texts as sequences of characters: trimming, splitting, decimal numbers and order.
use vstd::prelude::*;
use vstd::utf8::{encode_utf8, encode_utf8_decode_utf8};

verus! {

/// `c` has the Unicode property `White_Space`.
pub open spec fn is_white(c: char) -> bool {
    ||| '\u{9}' <= c <= '\u{d}'
    ||| c == ' '
    ||| c == '\u{85}'
    ||| c == '\u{a0}'
    ||| c == '\u{1680}'
    ||| '\u{2000}' <= c <= '\u{200a}'
    ||| c == '\u{2028}'
    ||| c == '\u{2029}'
    ||| c == '\u{202f}'
    ||| c == '\u{205f}'
    ||| c == '\u{3000}'
}

/// Some character of `s` is white space.
pub open spec fn has_white(s: Seq<char>) -> bool {
    exists|i: int| 0 <= i < s.len() && is_white(#[trigger] s[i])
}

/// `s` is what a word of a line can be: not empty, and free of white space.
pub open spec fn is_word(s: Seq<char>) -> bool {
    s.len() > 0 && !has_white(s)
}

/// `s` without the white space that it starts with.
pub open spec fn trimmed_start(s: Seq<char>) -> Seq<char>
    decreases s.len(),
{
    if s.len() > 0 && is_white(s[0]) {
        trimmed_start(s.drop_first())
    } else {
        s
    }
}

/// `s` without the white space that it ends with.
pub open spec fn trimmed_end(s: Seq<char>) -> Seq<char>
    decreases s.len(),
{
    if s.len() > 0 && is_white(s.last()) {
        trimmed_end(s.drop_last())
    } else {
        s
    }
}

/// `s` without the white space at either end.
pub open spec fn trimmed(s: Seq<char>) -> Seq<char> {
    trimmed_end(trimmed_start(s))
}

/// The pieces of `s` between the occurrences of `sep`; one piece more than there are
/// occurrences.
pub open spec fn pieces(s: Seq<char>, sep: char) -> Seq<Seq<char>>
    decreases s.len(),
{
    if s.len() == 0 {
        seq![Seq::<char>::empty()]
    } else {
        let before = pieces(s.drop_last(), sep);
        if s.last() == sep {
            before.push(Seq::<char>::empty())
        } else {
            before.drop_last().push(before.last().push(s.last()))
        }
    }
}

/// The longest runs of `s` without white space, from left to right.
pub open spec fn words(s: Seq<char>) -> Seq<Seq<char>>
    decreases s.len(),
{
    if s.len() == 0 {
        Seq::<Seq<char>>::empty()
    } else {
        let before = words(s.drop_last());
        let c = s.last();
        if is_white(c) {
            before
        } else if s.len() == 1 || is_white(s[s.len() - 2]) {
            before.push(seq![c])
        } else {
            before.drop_last().push(before.last().push(c))
        }
    }
}

/// The index of the first white space of `s`, or the length of `s` if there is none.
pub open spec fn first_white(s: Seq<char>) -> nat
    decreases s.len(),
{
    if s.len() == 0 || is_white(s[0]) {
        0
    } else {
        1 + first_white(s.drop_first())
    }
}

/// `parts` with one `sep` between each two neighbours.
pub open spec fn joined(parts: Seq<Seq<char>>, sep: char) -> Seq<char>
    decreases parts.len(),
{
    if parts.len() == 0 {
        Seq::<char>::empty()
    } else if parts.len() == 1 {
        parts[0]
    } else {
        joined(parts.drop_last(), sep).push(sep) + parts.last()
    }
}

/// The texts of a sequence of string slices.
pub open spec fn texts(parts: Seq<&str>) -> Seq<Seq<char>> {
    Seq::new(parts.len(), |i: int| parts[i]@)
}

/// The texts of strings, whatever their order.
pub open spec fn text_set(parts: Seq<String>) -> Set<Seq<char>> {
    Set::new(|x: Seq<char>| exists|i: int| 0 <= i < parts.len() && (#[trigger] parts[i])@ == x)
}

/// The text of an optional string.
pub open spec fn optional_text(s: Option<String>) -> Option<Seq<char>> {
    match s {
        Some(s) => Some(s@),
        None => None,
    }
}

/// A copy of an optional string.
pub fn copy_optional(s: &Option<String>) -> (res: Option<String>)
    ensures
        optional_text(res) == optional_text(*s),
{
    match s {
        Some(text) => Some(text.clone()),
        None => None,
    }
}

/// A copy of bytes.
pub fn copy_bytes(bytes: &Vec<u8>) -> (res: Vec<u8>)
    ensures
        res@ == bytes@,
{
    let res = bytes.clone();
    proof {
        assert(res@ =~= bytes@);
    }
    res
}

pub open spec fn is_digit(c: char) -> bool {
    '0' <= c <= '9'
}

pub open spec fn digit_value(c: char) -> nat {
    (c as int - '0' as int) as nat
}

/// `s` is not empty and holds decimal digits only.
pub open spec fn is_digits(s: Seq<char>) -> bool {
    s.len() > 0 && forall|i: int| 0 <= i < s.len() ==> is_digit(#[trigger] s[i])
}

/// The number that the decimal digits `s` write.
pub open spec fn digits_value(s: Seq<char>) -> nat
    decreases s.len(),
{
    if s.len() == 0 {
        0
    } else {
        10 * digits_value(s.drop_last()) + digit_value(s.last())
    }
}

/// `s` without the plus sign that it may start with.
pub open spec fn unsigned_digits(s: Seq<char>) -> Seq<char> {
    if s.len() > 0 && s[0] == '+' {
        s.drop_first()
    } else {
        s
    }
}

/// The number that `s` writes: an optional plus sign, then decimal digits, for a number of at
/// most `max`.
pub open spec fn number_of(s: Seq<char>, max: nat) -> Option<nat> {
    let d = unsigned_digits(s);
    if is_digits(d) && digits_value(d) <= max {
        Some(digits_value(d))
    } else {
        None
    }
}

pub open spec fn digit_char(n: nat) -> char
    recommends
        n < 10,
{
    ('0' as int + n) as char
}

/// The decimal digits of `n`, without leading zeros.
pub open spec fn decimal(n: nat) -> Seq<char>
    decreases n,
{
    if n < 10 {
        seq![digit_char(n)]
    } else {
        decimal(n / 10).push(digit_char(n % 10))
    }
}

/// `a` comes strictly before `b` when texts are ordered character by character.
pub open spec fn text_before(a: Seq<char>, b: Seq<char>) -> bool
    decreases a.len(),
{
    if b.len() == 0 {
        false
    } else if a.len() == 0 {
        true
    } else if a[0] == b[0] {
        text_before(a.drop_first(), b.drop_first())
    } else {
        a[0] < b[0]
    }
}

/// The characters of `s`, one by one.
pub fn chars_of(s: &str) -> (res: Vec<char>)
    ensures
        res@ == s@,
{
    let mut res: Vec<char> = Vec::new();
    for c in it: s.chars()
        invariant
            res@ == it.seq().take(it.index() as int),
            it.seq() == s@,
    {
        res.push(c);
    }
    res
}

/// Whether two texts are equal.
pub fn same_text(a: &str, b: &str) -> (res: bool)
    ensures
        res == (a@ == b@),
{
    let x = a.as_bytes();
    let y = b.as_bytes();
    if x.len() != y.len() {
        return false;
    }
    let mut i: usize = 0;
    while i < x.len()
        invariant
            x@ == encode_utf8(a@),
            y@ == encode_utf8(b@),
            x.len() == y.len(),
            i <= x.len(),
            forall|j: int| 0 <= j < i ==> x@[j] == y@[j],
        decreases x.len() - i,
    {
        if x[i] != y[i] {
            return false;
        }
        i += 1;
    }
    proof {
        assert(x@ =~= y@);
        encode_utf8_decode_utf8(a@);
        encode_utf8_decode_utf8(b@);
    }
    true
}

proof fn lemma_trimmed_start_skip(s: Seq<char>, n: int)
    requires
        0 <= n <= s.len(),
        forall|j: int| 0 <= j < n ==> is_white(#[trigger] s[j]),
    ensures
        trimmed_start(s) == trimmed_start(s.skip(n)),
    decreases n,
{
    if n == 0 {
        assert(s.skip(0) =~= s);
    } else {
        assert(is_white(s[0]));
        assert(s.drop_first().skip(n - 1) =~= s.skip(n));
        lemma_trimmed_start_skip(s.drop_first(), n - 1);
    }
}

proof fn lemma_trimmed_end_take(s: Seq<char>, n: int)
    requires
        0 <= n <= s.len(),
        forall|j: int| n <= j < s.len() ==> is_white(#[trigger] s[j]),
    ensures
        trimmed_end(s) == trimmed_end(s.take(n)),
    decreases s.len() - n,
{
    if n == s.len() {
        assert(s.take(n) =~= s);
    } else {
        assert(is_white(s[s.len() - 1]));
        assert(s.drop_last().take(n) =~= s.take(n));
        lemma_trimmed_end_take(s.drop_last(), n);
    }
}

/// `str::trim_start`: `s` without leading white space.
pub fn trim_start(s: &str) -> (res: &str)
    ensures
        res@ == trimmed_start(s@),
{
    let cs = chars_of(s);
    let mut i: usize = 0;
    while i < cs.len() && cs[i].is_whitespace()
        invariant
            cs@ == s@,
            i <= cs.len(),
            forall|j: int| 0 <= j < i ==> is_white(#[trigger] cs@[j]),
        decreases cs.len() - i,
    {
        i += 1;
    }
    let res = s.substring_char(i, cs.len());
    proof {
        lemma_trimmed_start_skip(s@, i as int);
        assert(res@ =~= s@.skip(i as int));
    }
    res
}

/// `s` without the white space at either end.
pub fn trim(s: &str) -> (res: &str)
    ensures
        res@ == trimmed(s@),
{
    let t = trim_start(s);
    let cs = chars_of(t);
    let mut n: usize = cs.len();
    while n > 0 && cs[n - 1].is_whitespace()
        invariant
            cs@ == t@,
            n <= cs.len(),
            forall|j: int| n <= j < cs.len() ==> is_white(#[trigger] cs@[j]),
        decreases n,
    {
        n -= 1;
    }
    let res = t.substring_char(0, n);
    proof {
        lemma_trimmed_end_take(t@, n as int);
        assert(res@ =~= t@.take(n as int));
    }
    res
}

pub(crate) proof fn lemma_pieces_nonempty(s: Seq<char>, sep: char)
    ensures
        pieces(s, sep).len() > 0,
    decreases s.len(),
{
    if s.len() > 0 {
        lemma_pieces_nonempty(s.drop_last(), sep);
    }
}

/// The pieces of `s` between the occurrences of `sep`.
pub fn split_on<'a>(s: &'a str, sep: char) -> (res: Vec<&'a str>)
    ensures
        texts(res@) == pieces(s@, sep),
{
    let cs = chars_of(s);
    let mut res: Vec<&'a str> = Vec::new();
    let mut start: usize = 0;
    let mut i: usize = 0;
    proof {
        assert(s@.take(0) =~= Seq::<char>::empty());
        assert(s@.subrange(0, 0) =~= Seq::<char>::empty());
        assert(texts(res@).push(s@.subrange(0, 0)) =~= pieces(s@.take(0), sep));
    }
    while i < cs.len()
        invariant
            cs@ == s@,
            start <= i <= cs.len(),
            texts(res@).push(s@.subrange(start as int, i as int)) == pieces(s@.take(i as int), sep),
        decreases cs.len() - i,
    {
        let ghost before = texts(res@).push(s@.subrange(start as int, i as int));
        proof {
            assert(s@.take(i + 1).drop_last() =~= s@.take(i as int));
        }
        if cs[i] == sep {
            let ghost done = texts(res@);
            let part = s.substring_char(start, i);
            res.push(part);
            start = i + 1;
            proof {
                assert(texts(res@) =~= done.push(part@));
                assert(s@.subrange(start as int, i + 1) =~= Seq::<char>::empty());
            }
        } else {
            proof {
                assert(s@.subrange(start as int, i + 1) =~= s@.subrange(
                    start as int,
                    i as int,
                ).push(s@[i as int]));
                assert(before.drop_last() =~= texts(res@));
            }
        }
        i += 1;
    }
    let ghost done = texts(res@);
    let part = s.substring_char(start, cs.len());
    res.push(part);
    proof {
        assert(s@.take(i as int) =~= s@);
        assert(texts(res@) =~= done.push(part@));
    }
    res
}

/// The longest runs of `s` without white space.
pub fn split_words<'a>(s: &'a str) -> (res: Vec<&'a str>)
    ensures
        texts(res@) == words(s@),
{
    let cs = chars_of(s);
    let mut res: Vec<&'a str> = Vec::new();
    let mut start: usize = 0;
    let mut i: usize = 0;
    proof {
        assert(s@.take(0) =~= Seq::<char>::empty());
        assert(texts(res@) =~= words(s@.take(0)));
    }
    while i < cs.len()
        invariant
            cs@ == s@,
            start <= i <= cs.len(),
            start < i ==> !is_white(s@[i - 1]),
            start == i ==> (i == 0 || is_white(s@[i - 1])),
            words(s@.take(i as int)) == if start < i {
                texts(res@).push(s@.subrange(start as int, i as int))
            } else {
                texts(res@)
            },
        decreases cs.len() - i,
    {
        let ghost before = words(s@.take(i as int));
        proof {
            assert(s@.take(i + 1).drop_last() =~= s@.take(i as int));
        }
        if cs[i].is_whitespace() {
            if start < i {
                let ghost done = texts(res@);
                let part = s.substring_char(start, i);
                res.push(part);
                proof {
                    assert(texts(res@) =~= done.push(part@));
                }
            }
            start = i + 1;
        } else {
            proof {
                assert(s@.subrange(start as int, i + 1) =~= s@.subrange(
                    start as int,
                    i as int,
                ).push(s@[i as int]));
                if start < i {
                    assert(before.drop_last() =~= texts(res@));
                } else {
                    assert(s@.subrange(start as int, i + 1) =~= seq![s@[i as int]]);
                }
            }
        }
        i += 1;
    }
    proof {
        assert(s@.take(i as int) =~= s@);
    }
    if start < i {
        let ghost done = texts(res@);
        let part = s.substring_char(start, i);
        res.push(part);
        proof {
            assert(texts(res@) =~= done.push(part@));
        }
    }
    res
}

/// Whether some character of `s` is white space.
pub fn contains_white(s: &str) -> (res: bool)
    ensures
        res == has_white(s@),
{
    let cs = chars_of(s);
    let mut i: usize = 0;
    while i < cs.len()
        invariant
            cs@ == s@,
            i <= cs.len(),
            forall|j: int| 0 <= j < i ==> !is_white(#[trigger] cs@[j]),
        decreases cs.len() - i,
    {
        if cs[i].is_whitespace() {
            return true;
        }
        i += 1;
    }
    false
}

proof fn lemma_digits_value_grows(s: Seq<char>, n: int)
    requires
        0 <= n <= s.len(),
    ensures
        digits_value(s.take(n)) <= digits_value(s),
    decreases s.len() - n,
{
    if n < s.len() {
        lemma_digits_value_grows(s.drop_last(), n);
        assert(s.drop_last().take(n) =~= s.take(n));
    } else {
        assert(s.take(n) =~= s);
    }
}

/// The number that `s` writes, if it writes one of at most `max`.
pub fn parse_number(s: &str, max: u64) -> (res: Option<u64>)
    ensures
        match res {
            Some(n) => number_of(s@, max as nat) == Some(n as nat),
            None => number_of(s@, max as nat) is None,
        },
{
    let cs = chars_of(s);
    let start: usize = if cs.len() > 0 && cs[0] == '+' {
        1
    } else {
        0
    };
    let ghost d = unsigned_digits(s@);
    proof {
        assert(d =~= cs@.skip(start as int));
    }
    if start == cs.len() {
        return None;
    }
    let mut value: u64 = 0;
    let mut i: usize = start;
    proof {
        assert(d.take(0) =~= Seq::<char>::empty());
    }
    while i < cs.len()
        invariant
            d == unsigned_digits(s@),
            d == cs@.skip(start as int),
            start <= i <= cs.len(),
            start < cs.len(),
            value == digits_value(d.take(i - start)),
            value <= max,
            forall|j: int| 0 <= j < i - start ==> is_digit(#[trigger] d[j]),
        decreases cs.len() - i,
    {
        let c = cs[i];
        proof {
            assert(d[i - start] == c);
            assert(d.take(i - start + 1).drop_last() =~= d.take(i - start));
            lemma_digits_value_grows(d, i - start + 1);
        }
        if c < '0' || c > '9' {
            proof {
                assert(!is_digit(d[i - start]));
            }
            return None;
        }
        let digit: u64 = (c as u32 - '0' as u32) as u64;
        let tens: u64 = match value.checked_mul(10) {
            Some(n) => n,
            None => {
                return None;
            },
        };
        value = match tens.checked_add(digit) {
            Some(n) => n,
            None => {
                return None;
            },
        };
        if value > max {
            return None;
        }
        i += 1;
    }
    proof {
        assert(d.take(i - start) =~= d);
    }
    Some(value)
}

/// The decimal digits of `n`.
pub fn decimal_text(n: u64) -> (res: String)
    ensures
        res@ == decimal(n as nat),
    decreases n,
{
    if n < 10 {
        digit_text(n).to_owned()
    } else {
        let mut res = decimal_text(n / 10);
        let last = digit_text(n % 10);
        let ghost before = res@;
        res.append(last);
        proof {
            assert(before + last@ =~= before.push(digit_char((n % 10) as nat)));
        }
        res
    }
}

fn digit_text(n: u64) -> (res: &'static str)
    requires
        n < 10,
    ensures
        res@ == seq![digit_char(n as nat)],
{
    let res = if n == 0 {
        "0"
    } else if n == 1 {
        "1"
    } else if n == 2 {
        "2"
    } else if n == 3 {
        "3"
    } else if n == 4 {
        "4"
    } else if n == 5 {
        "5"
    } else if n == 6 {
        "6"
    } else if n == 7 {
        "7"
    } else if n == 8 {
        "8"
    } else {
        "9"
    };
    proof {
        reveal_strlit("0");
        reveal_strlit("1");
        reveal_strlit("2");
        reveal_strlit("3");
        reveal_strlit("4");
        reveal_strlit("5");
        reveal_strlit("6");
        reveal_strlit("7");
        reveal_strlit("8");
        reveal_strlit("9");
        assert(res@ =~= seq![digit_char(n as nat)]);
    }
    res
}

proof fn lemma_text_before_common(a: Seq<char>, b: Seq<char>, n: int)
    requires
        0 <= n <= a.len(),
        n <= b.len(),
        a.take(n) == b.take(n),
    ensures
        text_before(a, b) == text_before(a.skip(n), b.skip(n)),
    decreases n,
{
    if n == 0 {
        assert(a.skip(0) =~= a);
        assert(b.skip(0) =~= b);
    } else {
        assert(a[0] == a.take(n)[0]);
        assert(b[0] == b.take(n)[0]);
        assert(a.drop_first().take(n - 1) =~= a.take(n).drop_first());
        assert(b.drop_first().take(n - 1) =~= b.take(n).drop_first());
        lemma_text_before_common(a.drop_first(), b.drop_first(), n - 1);
        assert(a.drop_first().skip(n - 1) =~= a.skip(n));
        assert(b.drop_first().skip(n - 1) =~= b.skip(n));
    }
}

/// Whether `a` comes strictly before `b`.
pub fn text_less(a: &str, b: &str) -> (res: bool)
    ensures
        res == text_before(a@, b@),
{
    let x = chars_of(a);
    let y = chars_of(b);
    let mut i: usize = 0;
    while i < x.len() && i < y.len() && x[i] == y[i]
        invariant
            x@ == a@,
            y@ == b@,
            i <= x.len(),
            i <= y.len(),
            forall|j: int| 0 <= j < i ==> x@[j] == y@[j],
        decreases x.len() - i,
    {
        i += 1;
    }
    proof {
        assert(a@.take(i as int) =~= b@.take(i as int));
        lemma_text_before_common(a@, b@, i as int);
    }
    if i == y.len() {
        false
    } else if i == x.len() {
        true
    } else {
        x[i] < y[i]
    }
}

/// The order of texts is strict.
pub proof fn law_text_order_irreflexive(a: Seq<char>)
    ensures
        !text_before(a, a),
    decreases a.len(),
{
    if a.len() > 0 {
        law_text_order_irreflexive(a.drop_first());
    }
}

/// The order of texts is transitive.
pub proof fn law_text_order_transitive(a: Seq<char>, b: Seq<char>, c: Seq<char>)
    requires
        text_before(a, b),
        text_before(b, c),
    ensures
        text_before(a, c),
    decreases a.len(),
{
    if a.len() > 0 && a[0] == b[0] && b[0] == c[0] {
        law_text_order_transitive(a.drop_first(), b.drop_first(), c.drop_first());
    }
}

/// Of two different texts one comes before the other.
pub proof fn law_text_order_total(a: Seq<char>, b: Seq<char>)
    ensures
        a == b || text_before(a, b) || text_before(b, a),
    decreases a.len(),
{
    if a.len() == 0 || b.len() == 0 {
        if a.len() == b.len() {
            assert(a =~= b);
        }
    } else if a[0] == b[0] {
        law_text_order_total(a.drop_first(), b.drop_first());
        if a.drop_first() == b.drop_first() {
            assert(a =~= seq![a[0]] + a.drop_first());
            assert(b =~= seq![b[0]] + b.drop_first());
        }
    }
}

/// Joining the pieces of a text gives the text back.
pub proof fn law_split_joins_back(s: Seq<char>, sep: char)
    ensures
        joined(pieces(s, sep), sep) == s,
    decreases s.len(),
{
    if s.len() > 0 {
        let front = s.drop_last();
        let before = pieces(front, sep);
        lemma_pieces_nonempty(front, sep);
        law_split_joins_back(front, sep);
        let after = pieces(s, sep);
        if s.last() == sep {
            assert(after.drop_last() =~= before);
            assert(joined(after, sep) =~= s);
        } else {
            assert(after.drop_last() =~= before.drop_last());
            if before.len() > 1 {
                assert(joined(after, sep) =~= joined(before, sep).push(s.last()));
            }
            assert(joined(after, sep) =~= s);
        }
    } else {
        assert(joined(pieces(s, sep), sep) =~= s);
    }
}

/// No piece holds the separator.
pub proof fn law_pieces_free_of_separator(s: Seq<char>, sep: char)
    ensures
        forall|i: int|
            0 <= i < pieces(s, sep).len() ==> !(#[trigger] pieces(s, sep)[i]).contains(sep),
    decreases s.len(),
{
    if s.len() > 0 {
        let before = pieces(s.drop_last(), sep);
        lemma_pieces_nonempty(s.drop_last(), sep);
        law_pieces_free_of_separator(s.drop_last(), sep);
        let after = pieces(s, sep);
        assert forall|i: int| 0 <= i < after.len() implies !(#[trigger] after[i]).contains(sep) by {
            if i < before.len() - 1 {
                assert(after[i] == before[i]);
            } else if s.last() == sep {
                if i < before.len() {
                    assert(after[i] == before[i]);
                }
            } else {
                let last = before[before.len() - 1];
                assert(after[i] == last.push(s.last()));
                if after[i].contains(sep) {
                    let j = choose|j: int| 0 <= j < after[i].len() && after[i][j] == sep;
                    assert(last[j] == sep);
                }
            }
        }
    }
}

/// Splitting a text whose pieces are given gives those pieces: parts that are free of the
/// separator come back from the text that joins them.
pub proof fn law_join_splits_back(parts: Seq<Seq<char>>, sep: char)
    requires
        parts.len() > 0,
        forall|i: int| 0 <= i < parts.len() ==> !(#[trigger] parts[i]).contains(sep),
    ensures
        pieces(joined(parts, sep), sep) == parts,
    decreases parts.len(),
{
    let last = parts.last();
    if parts.len() == 1 {
        lemma_pieces_extend(Seq::<char>::empty(), last, sep);
        assert(Seq::<char>::empty() + last =~= last);
        assert(pieces(joined(parts, sep), sep) =~= parts);
    } else {
        let front = parts.drop_last();
        law_join_splits_back(front, sep);
        let head = joined(front, sep).push(sep);
        assert(head.drop_last() =~= joined(front, sep));
        assert(pieces(head, sep) == front.push(Seq::<char>::empty()));
        lemma_pieces_extend(head, last, sep);
        assert(front.push(Seq::<char>::empty()).drop_last() =~= front);
        assert(Seq::<char>::empty() + last =~= last);
        assert(pieces(joined(parts, sep), sep) =~= parts);
    }
}

/// What is free of the separator and follows a text extends its last piece.
proof fn lemma_pieces_extend(s: Seq<char>, tail: Seq<char>, sep: char)
    requires
        !tail.contains(sep),
    ensures
        pieces(s + tail, sep) == pieces(s, sep).drop_last().push(pieces(s, sep).last() + tail),
    decreases tail.len(),
{
    let p = pieces(s, sep);
    lemma_pieces_nonempty(s, sep);
    if tail.len() == 0 {
        assert(s + tail =~= s);
        assert(p.last() + tail =~= p.last());
        assert(p =~= p.drop_last().push(p.last()));
    } else {
        let front = tail.drop_last();
        assert forall|i: int| 0 <= i < front.len() implies front[i] != sep by {
            assert(tail[i] == front[i]);
        }
        lemma_pieces_extend(s, front, sep);
        assert((s + tail).drop_last() =~= s + front);
        assert(tail[tail.len() - 1] != sep);
        assert((p.last() + front).push(tail.last()) =~= p.last() + tail);
        assert(pieces(s + tail, sep) =~= p.drop_last().push(p.last() + tail));
    }
}

/// The pieces of two texts with a separator between them are those of the first and then those of
/// the second.
pub proof fn law_pieces_of_two_texts(a: Seq<char>, b: Seq<char>, sep: char)
    ensures
        pieces(a.push(sep) + b, sep) == pieces(a, sep) + pieces(b, sep),
    decreases b.len(),
{
    let whole = a.push(sep) + b;
    if b.len() == 0 {
        assert(whole =~= a.push(sep));
        assert(whole.drop_last() =~= a);
        assert(pieces(whole, sep) =~= pieces(a, sep) + pieces(b, sep));
    } else {
        let front = b.drop_last();
        law_pieces_of_two_texts(a, front, sep);
        lemma_pieces_nonempty(front, sep);
        assert(whole.drop_last() =~= a.push(sep) + front);
        assert(whole.last() == b.last());
        assert(pieces(whole, sep) =~= pieces(a, sep) + pieces(b, sep));
    }
}

proof fn lemma_decimal_digits(n: nat)
    ensures
        is_digits(decimal(n)),
        digits_value(decimal(n)) == n,
    decreases n,
{
    if n < 10 {
        assert(decimal(n).drop_last() =~= Seq::<char>::empty());
        assert(digits_value(decimal(n).drop_last()) == 0);
    } else {
        lemma_decimal_digits(n / 10);
        assert(decimal(n).drop_last() =~= decimal(n / 10));
    }
}

/// The decimal digits of a number are read back as that number.
pub proof fn law_decimal_reads_back(n: nat, max: nat)
    requires
        n <= max,
    ensures
        number_of(decimal(n), max) == Some(n),
        is_word(decimal(n)),
{
    lemma_decimal_digits(n);
    assert(is_digit(decimal(n)[0]));
    assert forall|i: int| 0 <= i < decimal(n).len() implies !is_white(#[trigger] decimal(n)[i]) by {
        assert(is_digit(decimal(n)[i]));
    }
}

/// Trimming leaves nothing exactly where there is nothing but white space.
pub proof fn law_trimmed_empty(s: Seq<char>)
    ensures
        trimmed(s).len() == 0 <==> forall|i: int| 0 <= i < s.len() ==> is_white(#[trigger] s[i]),
{
    lemma_trimmed_start_empty(s);
    let t = trimmed_start(s);
    lemma_trimmed_start_head(s);
    if t.len() > 0 {
        lemma_trimmed_end_head(t);
    }
}

proof fn lemma_trimmed_start_empty(s: Seq<char>)
    ensures
        trimmed_start(s).len() == 0 <==> forall|i: int|
            0 <= i < s.len() ==> is_white(#[trigger] s[i]),
    decreases s.len(),
{
    if s.len() > 0 && is_white(s[0]) {
        let r = s.drop_first();
        lemma_trimmed_start_empty(r);
        if forall|i: int| 0 <= i < r.len() ==> is_white(#[trigger] r[i]) {
            assert forall|i: int| 0 <= i < s.len() implies is_white(#[trigger] s[i]) by {
                if i > 0 {
                    assert(is_white(r[i - 1]));
                }
            }
        } else {
            let i = choose|i: int| 0 <= i < r.len() && !is_white(#[trigger] r[i]);
            assert(!is_white(s[i + 1]));
        }
    }
}

/// What trimming the start leaves does not start with white space.
proof fn lemma_trimmed_start_head(s: Seq<char>)
    ensures
        trimmed_start(s).len() > 0 ==> !is_white(trimmed_start(s)[0]),
    decreases s.len(),
{
    if s.len() > 0 && is_white(s[0]) {
        lemma_trimmed_start_head(s.drop_first());
    }
}

/// Trimming the end keeps a first character that is not white space.
proof fn lemma_trimmed_end_head(s: Seq<char>)
    requires
        s.len() > 0,
        !is_white(s[0]),
    ensures
        trimmed_end(s).len() > 0,
        trimmed_end(s)[0] == s[0],
    decreases s.len(),
{
    if is_white(s.last()) {
        lemma_trimmed_end_head(s.drop_last());
    }
}

/// Trimming the start takes off white space, all that there is, and nothing else: `n` characters.
pub proof fn law_trimming_the_start_takes_white_space(s: Seq<char>) -> (n: int)
    ensures
        0 <= n <= s.len(),
        trimmed_start(s) == s.skip(n),
        forall|i: int| 0 <= i < n ==> is_white(#[trigger] s[i]),
        n < s.len() ==> !is_white(s[n]),
    decreases s.len(),
{
    if s.len() > 0 && is_white(s[0]) {
        let r = s.drop_first();
        let m = law_trimming_the_start_takes_white_space(r);
        assert(r.skip(m) =~= s.skip(m + 1));
        assert forall|i: int| 0 <= i < m + 1 implies is_white(#[trigger] s[i]) by {
            if i > 0 {
                assert(is_white(r[i - 1]));
            }
        }
        m + 1
    } else {
        assert(s.skip(0) =~= s);
        0
    }
}

proof fn lemma_trimming_the_end(s: Seq<char>) -> (n: int)
    ensures
        0 <= n <= s.len(),
        trimmed_end(s) == s.take(n),
        forall|i: int| n <= i < s.len() ==> is_white(#[trigger] s[i]),
        n > 0 ==> !is_white(s[n - 1]),
    decreases s.len(),
{
    if s.len() > 0 && is_white(s.last()) {
        let r = s.drop_last();
        let n = lemma_trimming_the_end(r);
        assert(r.take(n) =~= s.take(n));
        assert forall|i: int| n <= i < s.len() implies is_white(#[trigger] s[i]) by {
            if i < r.len() {
                assert(is_white(r[i]));
            }
        }
        n
    } else {
        assert(s.take(s.len() as int) =~= s);
        s.len() as int
    }
}

/// Trimming leaves what stands between the white space at the ends, as it is: from `a` to `b`.
pub proof fn law_trimming_takes_white_space_off_the_ends(s: Seq<char>) -> (ends: (int, int))
    ensures
        0 <= ends.0 <= ends.1 <= s.len(),
        trimmed(s) == s.subrange(ends.0, ends.1),
        forall|i: int|
            0 <= i < s.len() && !(ends.0 <= i < ends.1) ==> is_white(#[trigger] s[i]),
        ends.0 < ends.1 ==> !is_white(s[ends.0]) && !is_white(s[ends.1 - 1]),
{
    let a = law_trimming_the_start_takes_white_space(s);
    let t = s.skip(a);
    let n = lemma_trimming_the_end(t);
    assert(t.take(n) =~= s.subrange(a, a + n));
    assert forall|i: int| 0 <= i < s.len() && !(a <= i < a + n) implies is_white(
        #[trigger] s[i],
    ) by {
        if i >= a + n {
            assert(is_white(t[i - a]));
        }
    }
    if n > 0 {
        assert(t[n - 1] == s[a + n - 1]);
    }
    (a, a + n)
}

proof fn lemma_words_end(s: Seq<char>)
    requires
        s.len() > 0,
        !is_white(s.last()),
    ensures
        words(s).len() > 0,
    decreases s.len(),
{
    if s.len() > 1 && !is_white(s[s.len() - 2]) {
        lemma_words_end(s.drop_last());
    }
}

/// White space parts words, and that is all it does: the words of a text are those before it and
/// then those after it.
pub proof fn law_white_space_parts_words(a: Seq<char>, c: char, b: Seq<char>)
    requires
        is_white(c),
    ensures
        words(a.push(c) + b) == words(a) + words(b),
    decreases b.len(),
{
    let whole = a.push(c) + b;
    if b.len() == 0 {
        assert(whole =~= a.push(c));
        assert(whole.drop_last() =~= a);
        assert(words(whole) =~= words(a) + words(b));
    } else {
        let front = b.drop_last();
        law_white_space_parts_words(a, c, front);
        assert(whole.drop_last() =~= a.push(c) + front);
        assert(whole.last() == b.last());
        if !is_white(b.last()) && b.len() > 1 {
            assert(whole[whole.len() - 2] == b[b.len() - 2]);
            if !is_white(b[b.len() - 2]) {
                lemma_words_end(front);
            }
        }
        assert(words(whole) =~= words(a) + words(b));
    }
}

/// A text without white space that is not empty is one word.
pub proof fn law_a_word_is_one_word(w: Seq<char>)
    requires
        is_word(w),
    ensures
        words(w) == seq![w],
    decreases w.len(),
{
    let c = w.last();
    assert(!is_white(w[w.len() - 1]));
    if w.len() == 1 {
        assert(words(w.drop_last()) =~= Seq::<Seq<char>>::empty());
        assert(w =~= seq![c]);
        assert(words(w) =~= seq![w]);
    } else {
        let front = w.drop_last();
        assert forall|i: int| 0 <= i < front.len() implies !is_white(#[trigger] front[i]) by {
            assert(!is_white(w[i]));
        }
        law_a_word_is_one_word(front);
        assert(!is_white(w[w.len() - 2]));
        assert(front.push(c) =~= w);
        assert(words(w) =~= seq![w]);
    }
}

/// What is found in a text are words.
pub proof fn law_words_hold_no_white_space(s: Seq<char>)
    ensures
        (forall|i: int| 0 <= i < s.len() ==> is_white(#[trigger] s[i])) ==> words(s).len() == 0,
        forall|i: int| 0 <= i < words(s).len() ==> is_word(#[trigger] words(s)[i]),
    decreases s.len(),
{
    if s.len() > 0 {
        let front = s.drop_last();
        let before = words(front);
        let c = s.last();
        law_words_hold_no_white_space(front);
        if !is_white(c) && s.len() > 1 && !is_white(s[s.len() - 2]) {
            lemma_words_end(front);
            let last = before[before.len() - 1];
            assert(is_word(last));
            assert forall|i: int| 0 <= i < last.push(c).len() implies !is_white(
                #[trigger] last.push(c)[i],
            ) by {
                if i < last.len() {
                    assert(!is_white(last[i]));
                }
            }
        } else if !is_white(c) {
            assert(!has_white(seq![c]));
        }
        assert forall|i: int| 0 <= i < words(s).len() implies is_word(#[trigger] words(s)[i]) by {
            if i < before.len() && words(s)[i] == before[i] {
                assert(is_word(before[i]));
            }
        }
    }
}

/// The first white space of a text is white space, and none stands before it.
pub proof fn law_first_white_is_the_first(s: Seq<char>)
    ensures
        first_white(s) <= s.len(),
        first_white(s) < s.len() ==> is_white(s[first_white(s) as int]),
        forall|i: int| 0 <= i < first_white(s) ==> !is_white(#[trigger] s[i]),
    decreases s.len(),
{
    if s.len() > 0 && !is_white(s[0]) {
        let r = s.drop_first();
        law_first_white_is_the_first(r);
        assert forall|i: int| 0 <= i < first_white(s) implies !is_white(#[trigger] s[i]) by {
            if i > 0 {
                assert(!is_white(r[i - 1]));
            }
        }
    }
}

/// A number is written in decimal digits, at least one, after at most one plus sign, and is at
/// most `max`.
pub proof fn law_numbers_are_written_in_digits(s: Seq<char>, max: nat)
    requires
        number_of(s, max) is Some,
    ensures
        number_of(s, max)->0 <= max,
        s.len() > 0,
        s[0] == '+' ==> s.len() > 1,
        forall|i: int|
            0 <= i < s.len() && !(i == 0 && s[0] == '+') ==> '0' <= #[trigger] s[i] <= '9',
{
    let d = unsigned_digits(s);
    assert forall|i: int| 0 <= i < s.len() && !(i == 0 && s[0] == '+') implies '0'
        <= #[trigger] s[i] <= '9' by {
        if s[0] == '+' {
            assert(is_digit(d[i - 1]));
        } else {
            assert(is_digit(d[i]));
        }
    }
}

/// One more digit makes a number ten times as large and adds the digit; what is then larger than
/// `max` is no number, nor is what a character that is no digit is added to.
pub proof fn law_numbers_grow_digit_by_digit(s: Seq<char>, c: char, max: nat)
    requires
        s.len() > 0,
        s != seq!['+'],
    ensures
        number_of(s.push(c), max) == match number_of(s, max) {
            Some(n) => if '0' <= c <= '9' && 10 * n + (c as int - '0' as int) <= max {
                Some((10 * n + (c as int - '0' as int)) as nat)
            } else {
                None
            },
            None => None,
        },
{
    let d = unsigned_digits(s);
    let e = unsigned_digits(s.push(c));
    if s[0] == '+' {
        assert(s.push(c).drop_first() =~= s.drop_first().push(c));
        if s.len() == 1 {
            assert(s =~= seq!['+']);
        }
    }
    assert(e =~= d.push(c));
    assert(e.drop_last() =~= d);
    if is_digits(e) {
        assert forall|i: int| 0 <= i < d.len() implies is_digit(#[trigger] d[i]) by {
            assert(is_digit(e[i]));
        }
        assert(is_digit(e[d.len() as int]));
    }
    if is_digits(d) && is_digit(c) {
        assert forall|i: int| 0 <= i < e.len() implies is_digit(#[trigger] e[i]) by {
            if i < d.len() {
                assert(is_digit(d[i]));
            }
        }
    }
}

/// A single digit writes its number, with or without a plus sign; no other character does.
pub proof fn law_single_digits_are_numbers(c: char, max: nat)
    ensures
        number_of(seq![c], max) == if '0' <= c <= '9' && c as int - '0' as int <= max {
            Some((c as int - '0' as int) as nat)
        } else {
            None
        },
        number_of(seq!['+', c], max) == if '0' <= c <= '9' && c as int - '0' as int <= max {
            Some((c as int - '0' as int) as nat)
        } else {
            None
        },
        number_of(Seq::<char>::empty(), max) is None,
{
    let one = seq![c];
    let two = seq!['+', c];
    assert(two.drop_first() =~= one);
    assert(one.drop_last() =~= Seq::<char>::empty());
    assert(digits_value(one.drop_last()) == 0);
    if c == '+' {
        assert(one.drop_first() =~= Seq::<char>::empty());
        assert(!is_digit(one[0]));
    } else {
        assert(digits_value(one) == digit_value(c));
        assert(is_digits(one) == is_digit(c)) by {
            if is_digits(one) {
                assert(is_digit(one[0]));
            }
        }
    }
    if is_digits(one) {
        assert(is_digit(one[0]));
    }
}

/// The decimal digits of a number are those of a tenth of it, and then its last one; none is a
/// leading zero.
pub proof fn law_decimal_digit_by_digit(n: nat)
    ensures
        n < 10 ==> decimal(n).len() == 1,
        n >= 10 ==> decimal(n).drop_last() == decimal(n / 10),
        decimal(n).len() > 0,
        decimal(n).last() as int == '0' as int + n % 10,
        n > 0 ==> decimal(n)[0] != '0',
    decreases n,
{
    if n >= 10 {
        law_decimal_digit_by_digit(n / 10);
        assert(decimal(n).drop_last() =~= decimal(n / 10));
    }
}

/// Where two texts first differ decides which comes first: by the characters there, or by which
/// has ended.
pub proof fn law_text_order_by_the_first_difference(a: Seq<char>, b: Seq<char>, n: int)
    requires
        0 <= n <= a.len(),
        n <= b.len(),
        a.take(n) == b.take(n),
        n < a.len() && n < b.len() ==> a[n] != b[n],
    ensures
        text_before(a, b) <==> n < b.len() && (n == a.len() || a[n] < b[n]),
{
    lemma_text_before_common(a, b, n);
}

/// The texts of strings are those that they hold.
pub proof fn law_texts_are_what_strings_hold(
    parts: Seq<&str>,
    strings: Seq<String>,
    optional: Option<String>,
)
    ensures
        texts(parts).len() == parts.len(),
        forall|i: int| 0 <= i < parts.len() ==> #[trigger] texts(parts)[i] == parts[i]@,
        forall|i: int| 0 <= i < strings.len() ==> text_set(strings).contains(
            (#[trigger] strings[i])@,
        ),
        forall|x: Seq<char>| #[trigger]
            text_set(strings).contains(x) ==> exists|i: int|
                0 <= i < strings.len() && (#[trigger] strings[i])@ == x,
        optional matches Some(s) ==> optional_text(optional) == Some(s@),
        optional is None ==> optional_text(optional) is None,
{
}

/// To join parts puts the separator between each two neighbours and nothing else.
pub proof fn law_joining_part_by_part(parts: Seq<Seq<char>>, part: Seq<char>, sep: char)
    ensures
        joined(seq![part], sep) == part,
        parts.len() > 0 ==> joined(parts.push(part), sep) == joined(parts, sep) + seq![sep] + part,
{
    assert(parts.push(part).drop_last() =~= parts);
    assert(joined(parts, sep).push(sep) =~= joined(parts, sep) + seq![sep]);
}

} // verus!
