//! Texts and byte strings: their order, their pieces, and numbers written in them.
use vstd::prelude::*;

verus! {

/// `String::push` appends one character.
pub assume_specification[ String::push ](text: &mut String, c: char)
    ensures
        final(text)@ == old(text)@.push(c),
;

/// `==` on `str` holds of two texts with the same characters.
pub assume_specification[ <str as PartialEq>::eq ](a: &str, b: &str) -> (same: bool)
    ensures
        same == (a@ == b@),
;

/// Whether two texts have the same characters.
pub fn same_text(a: &str, b: &str) -> (same: bool)
    ensures
        same == (a@ == b@),
{
    *a == *b
}

/// The characters of `text`.
pub fn chars_of(text: &str) -> (chars: Vec<char>)
    ensures
        chars@ == text@,
{
    let mut chars: Vec<char> = Vec::new();
    for c in it: text.chars()
        invariant
            it.seq() == text@,
            chars@ == text@.take(it.index() as int),
    {
        assert(text@.take(it.index() as int).push(c) == text@.take(it.index() + 1));
        chars.push(c);
    }
    assert(text@.take(text@.len() as int) == text@);
    chars
}

/// The characters from `from` up to `to`, as a text.
pub fn text_of(chars: &Vec<char>, from: usize, to: usize) -> (text: String)
    requires
        from <= to <= chars@.len(),
    ensures
        text@ == chars@.subrange(from as int, to as int),
{
    let mut text = String::new();
    let mut i: usize = from;
    while i < to
        invariant
            from <= i <= to <= chars@.len(),
            text@ == chars@.subrange(from as int, i as int),
        decreases to - i,
    {
        assert(chars@.subrange(from as int, i as int).push(chars@[i as int]) == chars@.subrange(
            from as int,
            i + 1,
        ));
        text.push(chars[i]);
        i += 1;
    }
    text
}

/// Where `c` first stands in `text`, counting from `from`.
pub open spec fn first_from(text: Seq<char>, c: char, from: int) -> Option<int>
    decreases text.len() - from,
{
    if from < 0 || from >= text.len() {
        None
    } else if text[from] == c {
        Some(from)
    } else {
        first_from(text, c, from + 1)
    }
}

/// The two sides of the first `sep` in `text`, or `None` where it holds none.
pub open spec fn halves(text: Seq<char>, sep: char) -> Option<(Seq<char>, Seq<char>)> {
    match first_from(text, sep, 0) {
        Some(i) => Some((text.take(i), text.skip(i + 1))),
        None => None,
    }
}

/// What [`first_from`] finds is the first of its kind.
pub proof fn lemma_first_from(text: Seq<char>, c: char, from: int)
    requires
        0 <= from <= text.len(),
    ensures
        match first_from(text, c, from) {
            Some(i) => from <= i < text.len() && text[i] == c && forall|k: int|
                from <= k < i ==> text[k] != c,
            None => forall|k: int| from <= k < text.len() ==> text[k] != c,
        },
    decreases text.len() - from,
{
    if from < text.len() && text[from] != c {
        lemma_first_from(text, c, from + 1);
    }
}

/// Splits `text` at its first `sep`.
pub fn split_at_first(text: &str, sep: char) -> (parts: Option<(String, String)>)
    ensures
        match parts {
            Some((a, b)) => halves(text@, sep) == Some((a@, b@)),
            None => halves(text@, sep) is None,
        },
{
    let chars = chars_of(text);
    let mut i: usize = 0;
    while i < chars.len() && chars[i] != sep
        invariant
            i <= chars@.len(),
            chars@ == text@,
            first_from(text@, sep, 0) == first_from(text@, sep, i as int),
        decreases chars@.len() - i,
    {
        i += 1;
    }
    if i < chars.len() {
        assert(text@.take(i as int) == chars@.subrange(0, i as int));
        assert(text@.skip(i + 1) == chars@.subrange(i + 1, chars@.len() as int));
        Some((text_of(&chars, 0, i), text_of(&chars, i + 1, chars.len())))
    } else {
        None
    }
}

/// Where a text parts in two at `sep`, the parts and `sep` make up the text again.
pub proof fn lemma_halves_join(text: Seq<char>, sep: char)
    ensures
        match halves(text, sep) {
            Some((a, b)) => text == a.push(sep) + b && !a.contains(sep),
            None => !text.contains(sep),
        },
{
    lemma_first_from(text, sep, 0);
    if let Some((a, b)) = halves(text, sep) {
        assert(text =~= a.push(sep) + b);
    }
}

/// A text put together from `a`, `sep` and `b` parts into `a` and `b`, where `a` is free of `sep`.
pub proof fn lemma_join_halves(a: Seq<char>, sep: char, b: Seq<char>)
    requires
        !a.contains(sep),
    ensures
        halves(a.push(sep) + b, sep) == Some((a, b)),
{
    let text = a.push(sep) + b;
    lemma_first_from(text, sep, 0);
    assert(text[a.len() as int] == sep);
    let i = first_from(text, sep, 0)->0;
    if i < a.len() {
        assert(a[i] == sep);
    }
    assert(i == a.len());
    assert(text.take(i) =~= a);
    assert(text.skip(i + 1) =~= b);
}

/// The digit that stands for `d`.
pub open spec fn digit(d: nat) -> char {
    (48 + d) as char
}

/// `n` in decimal, without leading zeros.
pub open spec fn decimal(n: nat) -> Seq<char>
    decreases n,
{
    if n < 10 {
        seq![digit(n)]
    } else {
        decimal(n / 10).push(digit(n % 10))
    }
}

/// `i` in decimal, with a minus sign where it is negative.
pub open spec fn signed_decimal(i: int) -> Seq<char> {
    if i < 0 {
        seq!['-'] + decimal((-i) as nat)
    } else {
        decimal(i as nat)
    }
}

fn digit_char(d: u64) -> (c: char)
    requires
        d < 10,
    ensures
        c == digit(d as nat),
{
    ((48 + d) as u8) as char
}

/// Writes `n` in decimal.
pub fn decimal_text(n: u64) -> (text: String)
    ensures
        text@ == decimal(n as nat),
    decreases n,
{
    if n < 10 {
        let mut text = String::new();
        text.push(digit_char(n));
        assert(text@ =~= seq![digit(n as nat)]);
        text
    } else {
        let mut text = decimal_text(n / 10);
        text.push(digit_char(n % 10));
        text
    }
}

/// Writes `i` in decimal.
pub fn signed_decimal_text(i: i64) -> (text: String)
    ensures
        text@ == signed_decimal(i as int),
{
    if i < 0 {
        let magnitude: u64 = (-(i + 1)) as u64 + 1;
        let mut text = String::new();
        text.push('-');
        assert(text@ =~= seq!['-']);
        text.append(decimal_text(magnitude).as_str());
        text
    } else {
        decimal_text(i as u64)
    }
}

/// How one value stands to another.
#[derive(Clone, Copy, Debug, PartialEq, Eq, Structural)]
pub enum Ranking {
    Less,
    Equal,
    Greater,
}

/// `a` comes before `b`, letter by letter, a text before those that extend it.
pub open spec fn before(a: Seq<int>, b: Seq<int>) -> bool
    decreases a.len(),
{
    if b.len() == 0 {
        false
    } else if a.len() == 0 {
        true
    } else if a[0] != b[0] {
        a[0] < b[0]
    } else {
        before(a.drop_first(), b.drop_first())
    }
}

/// The code points of a text.
pub open spec fn codes(text: Seq<char>) -> Seq<int> {
    Seq::new(text.len(), |i: int| text[i] as int)
}

/// The numbers that bytes stand for.
pub open spec fn octets(bytes: Seq<u8>) -> Seq<int> {
    Seq::new(bytes.len(), |i: int| bytes[i] as int)
}

/// The text `a` comes before the text `b`.
pub open spec fn text_before(a: Seq<char>, b: Seq<char>) -> bool {
    before(codes(a), codes(b))
}

/// The bytes `a` come before the bytes `b`.
pub open spec fn bytes_before(a: Seq<u8>, b: Seq<u8>) -> bool {
    before(octets(a), octets(b))
}

/// Of two sequences that differ, exactly one comes before the other.
pub proof fn lemma_before_total(a: Seq<int>, b: Seq<int>)
    ensures
        a == b ==> !before(a, b) && !before(b, a),
        a != b ==> before(a, b) != before(b, a),
    decreases a.len(),
{
    if a.len() == 0 || b.len() == 0 {
        if a.len() == 0 && b.len() == 0 {
            assert(a =~= b);
        }
    } else if a[0] == b[0] {
        lemma_before_total(a.drop_first(), b.drop_first());
        if a.drop_first() == b.drop_first() {
            assert(a =~= seq![a[0]] + a.drop_first());
            assert(b =~= seq![b[0]] + b.drop_first());
        }
    }
}

/// What comes before a sequence comes before all that this one comes before.
pub proof fn lemma_before_transitive(a: Seq<int>, b: Seq<int>, c: Seq<int>)
    requires
        before(a, b),
        before(b, c),
    ensures
        before(a, c),
    decreases a.len(),
{
    if a.len() > 0 && a[0] == b[0] && b[0] == c[0] {
        lemma_before_transitive(a.drop_first(), b.drop_first(), c.drop_first());
    }
}

pub proof fn lemma_codes_injective(a: Seq<char>, b: Seq<char>)
    ensures
        codes(a) == codes(b) <==> a == b,
{
    if codes(a) == codes(b) {
        assert(a.len() == codes(a).len() && b.len() == codes(b).len());
        assert forall|i: int| 0 <= i < a.len() implies a[i] == b[i] by {
            assert(codes(a)[i] == codes(b)[i]);
        }
        assert(a =~= b);
    }
}

pub proof fn lemma_octets_injective(a: Seq<u8>, b: Seq<u8>)
    ensures
        octets(a) == octets(b) <==> a == b,
{
    if octets(a) == octets(b) {
        assert(a.len() == octets(a).len() && b.len() == octets(b).len());
        assert forall|i: int| 0 <= i < a.len() implies a[i] == b[i] by {
            assert(octets(a)[i] == octets(b)[i]);
        }
        assert(a =~= b);
    }
}

/// A shared beginning does not bear on the order.
proof fn lemma_before_skip(a: Seq<int>, b: Seq<int>, n: int)
    requires
        0 <= n <= a.len(),
        n <= b.len(),
        forall|i: int| 0 <= i < n ==> a[i] == b[i],
    ensures
        before(a, b) == before(a.skip(n), b.skip(n)),
    decreases n,
{
    if n > 0 {
        lemma_before_skip(a.drop_first(), b.drop_first(), n - 1);
        assert(a.drop_first().skip(n - 1) =~= a.skip(n));
        assert(b.drop_first().skip(n - 1) =~= b.skip(n));
    } else {
        assert(a.skip(0) =~= a);
        assert(b.skip(0) =~= b);
    }
}

/// How the sequence `a` stands to the sequence `b`.
pub open spec fn ranking(a: Seq<int>, b: Seq<int>) -> Ranking {
    if a == b {
        Ranking::Equal
    } else if before(a, b) {
        Ranking::Less
    } else {
        Ranking::Greater
    }
}

/// What is known of two sequences once they agree up to `n` and one of them ends there or they
/// differ there.
pub proof fn lemma_ranking_at(a: Seq<int>, b: Seq<int>, n: int)
    requires
        0 <= n <= a.len(),
        n <= b.len(),
        forall|i: int| 0 <= i < n ==> a[i] == b[i],
    ensures
        n == a.len() && n == b.len() ==> ranking(a, b) == Ranking::Equal,
        n == a.len() && n < b.len() ==> ranking(a, b) == Ranking::Less,
        n < a.len() && n == b.len() ==> ranking(a, b) == Ranking::Greater,
        n < a.len() && n < b.len() && a[n] < b[n] ==> ranking(a, b) == Ranking::Less,
        n < a.len() && n < b.len() && a[n] > b[n] ==> ranking(a, b) == Ranking::Greater,
{
    lemma_before_skip(a, b, n);
    if n == a.len() && n == b.len() {
        assert(a =~= b);
    }
}

/// Whether the code point of `c` is below that of `d`.
fn char_before(c: char, d: char) -> (lower: bool)
    ensures
        lower == ((c as int) < (d as int)),
{
    (c as u32) < (d as u32)
}

/// How the text `a` stands to the text `b`: by code points, from the first on.
pub fn compare_texts(a: &str, b: &str) -> (rank: Ranking)
    ensures
        rank == ranking(codes(a@), codes(b@)),
{
    let x = chars_of(a);
    let y = chars_of(b);
    let mut i: usize = 0;
    while i < x.len() && i < y.len() && x[i] == y[i]
        invariant
            i <= x@.len(),
            i <= y@.len(),
            forall|k: int| 0 <= k < i ==> x@[k] == y@[k],
        decreases x@.len() - i,
    {
        i += 1;
    }
    proof {
        lemma_ranking_at(codes(a@), codes(b@), i as int);
    }
    if i < x.len() {
        if i < y.len() {
            if char_before(x[i], y[i]) {
                Ranking::Less
            } else {
                Ranking::Greater
            }
        } else {
            Ranking::Greater
        }
    } else if i < y.len() {
        Ranking::Less
    } else {
        Ranking::Equal
    }
}

/// How the bytes `a` stand to the bytes `b`: by their values, from the first on.
pub fn compare_bytes(a: &Vec<u8>, b: &Vec<u8>) -> (rank: Ranking)
    ensures
        rank == ranking(octets(a@), octets(b@)),
{
    let mut i: usize = 0;
    while i < a.len() && i < b.len() && a[i] == b[i]
        invariant
            i <= a@.len(),
            i <= b@.len(),
            forall|k: int| 0 <= k < i ==> a@[k] == b@[k],
        decreases a@.len() - i,
    {
        i += 1;
    }
    proof {
        lemma_ranking_at(octets(a@), octets(b@), i as int);
    }
    if i < a.len() {
        if i < b.len() {
            if a[i] < b[i] {
                Ranking::Less
            } else {
                Ranking::Greater
            }
        } else {
            Ranking::Greater
        }
    } else if i < b.len() {
        Ranking::Less
    } else {
        Ranking::Equal
    }
}

/// `parts`, with `sep` between each and the next.
pub open spec fn joined(parts: Seq<Seq<char>>, sep: Seq<char>) -> Seq<char>
    decreases parts.len(),
{
    if parts.len() == 0 {
        Seq::empty()
    } else if parts.len() == 1 {
        parts[0]
    } else {
        joined(parts.drop_last(), sep) + sep + parts.last()
    }
}

/// Joins `parts`, with `sep` between each and the next.
pub fn join(parts: &Vec<String>, sep: &str) -> (text: String)
    ensures
        text@ == joined(crate::value::texts_view(parts@), sep@),
{
    let mut text = String::new();
    let ghost views = crate::value::texts_view(parts@);
    for i in 0..parts.len()
        invariant
            views == crate::value::texts_view(parts@),
            text@ == joined(views.take(i as int), sep@),
    {
        assert(views.take(i + 1).drop_last() == views.take(i as int));
        if i > 0 {
            text.append(sep);
            text.append(parts[i].as_str());
        } else {
            text = parts[0].clone();
        }
    }
    assert(views.take(parts@.len() as int) == views);
    text
}

/// How `format!` writes a text for debugging: in quotation marks, with escapes.
pub uninterp spec fn debug_text(text: Seq<char>) -> Seq<char>;

/// How `format!` writes a character for debugging: in single quotation marks, with escapes.
pub uninterp spec fn debug_char(c: char) -> Seq<char>;

/// `format!` with `{:?}` on a text.
#[verifier::external_body]
pub(crate) fn debug_str(text: &str) -> (quoted: String)
    ensures
        quoted@ == debug_text(text@),
{
    format!("{:?}", text)
}

/// `format!` with `{:?}` on a character.
#[verifier::external_body]
pub(crate) fn debug_sep(c: char) -> (quoted: String)
    ensures
        quoted@ == debug_char(c),
{
    format!("{:?}", c)
}

} // verus!
