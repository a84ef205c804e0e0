//! Text as sequences of characters.

use vstd::prelude::*;
use vstd::arithmetic::power::pow;

verus! {

/// Claims of `String::push` that it appends one character.
pub assume_specification[ String::push ](text: &mut String, c: char)
    ensures
        final(text)@ == old(text)@.push(c),
;

/// The characters of a text.
pub fn chars_of(text: &str) -> (r: Vec<char>)
    ensures
        r@ == text@,
{
    let mut out: Vec<char> = Vec::new();
    for c in it: text.chars()
        invariant
            it.seq() == text@,
            out@ == it.seq().take(it.index() as int),
    {
        assert(it.seq().take(it.index() as int).push(it.seq()[it.index() as int]) =~= it.seq().take(
            it.index() + 1,
        ));
        out.push(c);
    }
    assert(out@ =~= text@);
    out
}

/// The text of some characters.
pub fn string_of(chars: &Vec<char>) -> (r: String)
    ensures
        r@ == chars@,
{
    let mut out: String = String::new();
    for i in 0..chars.len()
        invariant
            out@ == chars@.take(i as int),
    {
        assert(chars@.take(i as int).push(chars@[i as int]) =~= chars@.take(i + 1));
        out.push(chars[i]);
    }
    assert(chars@.take(chars@.len() as int) =~= chars@);
    out
}

/// Whether two sequences of characters are the same.
pub fn chars_equal(a: &Vec<char>, b: &Vec<char>) -> (r: bool)
    ensures
        r == (a@ == b@),
{
    if a.len() != b.len() {
        return false;
    }
    for i in 0..a.len()
        invariant
            a@.len() == b@.len(),
            forall|j: int| 0 <= j < i ==> a@[j] == b@[j],
    {
        if a[i] != b[i] {
            return false;
        }
    }
    assert(a@ =~= b@);
    true
}

/// Whether two texts are the same.
pub fn text_equal(a: &str, b: &str) -> (r: bool)
    ensures
        r == (a@ == b@),
{
    let x: Vec<char> = chars_of(a);
    let y: Vec<char> = chars_of(b);
    chars_equal(&x, &y)
}

/// White space, as Unicode has it.
pub open spec fn is_whitespace(c: char) -> bool {
    ||| '\u{9}' <= c <= '\u{d}'
    ||| c == ' '
    ||| c == '\u{85}'
    ||| c == '\u{a0}'
    ||| c == '\u{1680}'
    ||| '\u{2000}' <= c <= '\u{200a}'
    ||| c == '\u{2028}'
    ||| c == '\u{2029}'
    ||| c == '\u{202f}'
    ||| c == '\u{205f}'
    ||| c == '\u{3000}'
}

/// Whether a character is white space.
pub fn whitespace(c: char) -> (r: bool)
    ensures
        r == is_whitespace(c),
{
    ('\u{9}' <= c && c <= '\u{d}') || c == ' ' || c == '\u{85}' || c == '\u{a0}' || c == '\u{1680}' || ('\u{2000}'
        <= c && c <= '\u{200a}') || c == '\u{2028}' || c == '\u{2029}' || c == '\u{202f}' || c == '\u{205f}'
        || c == '\u{3000}'
}

/// A text without white space in front.
pub open spec fn trimmed_start(text: Seq<char>) -> Seq<char>
    decreases text.len(),
{
    if text.len() > 0 && is_whitespace(text[0]) {
        trimmed_start(text.drop_first())
    } else {
        text
    }
}

/// A text without white space behind.
pub open spec fn trimmed_end(text: Seq<char>) -> Seq<char>
    decreases text.len(),
{
    if text.len() > 0 && is_whitespace(text.last()) {
        trimmed_end(text.drop_last())
    } else {
        text
    }
}

/// A text without white space round it.
pub open spec fn trimmed(text: Seq<char>) -> Seq<char> {
    trimmed_end(trimmed_start(text))
}

/// A trimmed text is a part of the text.
pub proof fn lemma_trimmed_part(text: Seq<char>)
    ensures
        exists|start: int, end: int|
            0 <= start <= end <= text.len() && trimmed(text) == #[trigger] text.subrange(start, end),
{
    let head = trimmed_start(text);
    let start = lemma_trimmed_start(text);
    let length = lemma_trimmed_end(head);
    assert(head.take(length) =~= text.subrange(start, start + length));
}

proof fn lemma_trimmed_start(text: Seq<char>) -> (start: int)
    ensures
        0 <= start <= text.len(),
        trimmed_start(text) == text.subrange(start, text.len() as int),
    decreases text.len(),
{
    if text.len() > 0 && is_whitespace(text[0]) {
        let start = lemma_trimmed_start(text.drop_first());
        assert(text.drop_first().subrange(start, text.len() - 1) =~= text.subrange(start + 1, text.len() as int));
        start + 1
    } else {
        assert(text.subrange(0, text.len() as int) =~= text);
        0
    }
}

proof fn lemma_trimmed_end(text: Seq<char>) -> (length: int)
    ensures
        0 <= length <= text.len(),
        trimmed_end(text) == text.take(length),
    decreases text.len(),
{
    if text.len() > 0 && is_whitespace(text.last()) {
        let length = lemma_trimmed_end(text.drop_last());
        assert(text.drop_last().take(length) =~= text.take(length));
        length
    } else {
        assert(text.take(text.len() as int) =~= text);
        text.len() as int
    }
}

/// The part of a sequence from `start` up to but not with `end`.
pub fn slice_of(chars: &Vec<char>, start: usize, end: usize) -> (r: Vec<char>)
    requires
        start <= end <= chars@.len(),
    ensures
        r@ == chars@.subrange(start as int, end as int),
{
    let mut out: Vec<char> = Vec::with_capacity(end - start);
    for i in start..end
        invariant
            start <= end <= chars@.len(),
            out@ == chars@.subrange(start as int, i as int),
    {
        assert(chars@.subrange(start as int, i as int).push(chars@[i as int]) =~= chars@.subrange(
            start as int,
            i + 1,
        ));
        out.push(chars[i]);
    }
    out
}

/// Some characters without white space round them.
pub fn trim_chars(chars: &Vec<char>) -> (r: Vec<char>)
    ensures
        r@ == trimmed(chars@),
{
    let mut start: usize = 0;
    let mut end: usize = chars.len();
    assert(chars@.subrange(0, chars@.len() as int) =~= chars@);
    while start < end && whitespace(chars[start])
        invariant
            start <= end,
            end == chars@.len(),
            trimmed_start(chars@) == trimmed_start(chars@.subrange(start as int, end as int)),
        decreases end - start,
    {
        assert(chars@.subrange(start as int, end as int).drop_first() =~= chars@.subrange(start + 1, end as int));
        start = start + 1;
    }
    assert(trimmed_start(chars@) == chars@.subrange(start as int, end as int));
    while start < end && whitespace(chars[end - 1])
        invariant
            start <= end <= chars@.len(),
            trimmed(chars@) == trimmed_end(chars@.subrange(start as int, end as int)),
        decreases end - start,
    {
        assert(chars@.subrange(start as int, end as int).drop_last() =~= chars@.subrange(start as int, end - 1));
        end = end - 1;
    }
    slice_of(chars, start, end)
}

/// The text without white space round it.
pub fn trim_text(text: &str) -> (r: String)
    ensures
        r@ == trimmed(text@),
{
    let chars: Vec<char> = chars_of(text);
    let inner: Vec<char> = trim_chars(&chars);
    string_of(&inner)
}

/// The parts of a text between its commas.
pub open spec fn comma_parts(text: Seq<char>) -> Seq<Seq<char>>
    decreases text.len(),
{
    if text.len() == 0 {
        seq![Seq::<char>::empty()]
    } else {
        let parts = comma_parts(text.drop_last());
        if text.last() == ',' {
            parts.push(Seq::<char>::empty())
        } else {
            parts.drop_last().push(parts.last().push(text.last()))
        }
    }
}

/// Texts with commas between them.
pub open spec fn comma_joined(parts: Seq<Seq<char>>) -> Seq<char>
    decreases parts.len(),
{
    if parts.len() == 0 {
        Seq::empty()
    } else if parts.len() == 1 {
        parts[0]
    } else {
        comma_joined(parts.drop_last()).push(',') + parts.last()
    }
}

proof fn lemma_comma_parts_concat(head: Seq<char>, tail: Seq<char>)
    requires
        !tail.contains(','),
    ensures
        comma_parts(head.push(',') + tail) == comma_parts(head).push(tail),
        comma_parts(tail) == seq![tail],
    decreases tail.len(),
{
    let all = head.push(',') + tail;
    lemma_comma_parts(head);
    if tail.len() == 0 {
        assert(all =~= head.push(','));
        assert(all.drop_last() =~= head);
        assert(tail =~= Seq::<char>::empty());
    } else {
        let shorter = tail.drop_last();
        let last = tail.last();
        assert(tail[tail.len() - 1] == last);
        assert(!shorter.contains(',')) by {
            if shorter.contains(',') {
                let i = choose|i: int| 0 <= i < shorter.len() && shorter[i] == ',';
                assert(tail[i] == ',');
            }
        }
        lemma_comma_parts_concat(head, shorter);
        assert(all.drop_last() =~= head.push(',') + shorter);
        let parts = comma_parts(head).push(shorter);
        assert(parts.drop_last() =~= comma_parts(head));
        assert(shorter.push(last) =~= tail);
        assert(comma_parts(all) =~= comma_parts(head).push(tail));
        assert(comma_parts(tail) =~= seq![tail]);
    }
}

/// Splitting texts that were joined with commas gives them back, where none of them has a
/// comma in it.
pub proof fn law_comma_parts(parts: Seq<Seq<char>>)
    requires
        parts.len() > 0,
        forall|i: int| 0 <= i < parts.len() ==> !(#[trigger] parts[i]).contains(','),
    ensures
        comma_parts(comma_joined(parts)) == parts,
    decreases parts.len(),
{
    let last = parts.last();
    assert(last == parts[parts.len() - 1]);
    lemma_comma_parts_concat(Seq::empty(), last);
    if parts.len() == 1 {
        assert(parts =~= seq![last]);
    } else {
        let head = parts.drop_last();
        assert forall|i: int| 0 <= i < head.len() implies !(#[trigger] head[i]).contains(',') by {
            assert(head[i] == parts[i]);
        }
        law_comma_parts(head);
        lemma_comma_parts_concat(comma_joined(head), last);
        assert(head.push(last) =~= parts);
    }
}

/// The sequences of characters that some vectors hold.
pub open spec fn char_lists(lists: Seq<Vec<char>>) -> Seq<Seq<char>> {
    lists.map_values(|list: Vec<char>| list@)
}

/// The texts that some strings hold.
pub open spec fn texts_of(strings: Seq<String>) -> Seq<Seq<char>> {
    strings.map_values(|string: String| string@)
}

/// There is at least one part.
pub proof fn lemma_comma_parts(text: Seq<char>)
    ensures
        comma_parts(text).len() > 0,
    decreases text.len(),
{
    if text.len() > 0 {
        lemma_comma_parts(text.drop_last());
    }
}

/// Splits a text at its commas.
pub fn split_commas(chars: &Vec<char>) -> (r: Vec<Vec<char>>)
    ensures
        char_lists(r@) == comma_parts(chars@),
{
    let mut parts: Vec<Vec<char>> = Vec::new();
    let mut part: Vec<char> = Vec::new();
    assert(comma_parts(chars@.take(0)) =~= char_lists(parts@).push(part@));
    for i in 0..chars.len()
        invariant
            comma_parts(chars@.take(i as int)) == char_lists(parts@).push(part@),
    {
        let ghost before = char_lists(parts@);
        let ghost head = part@;
        assert(chars@.take(i + 1).drop_last() =~= chars@.take(i as int));
        if chars[i] == ',' {
            parts.push(part);
            part = Vec::new();
            assert(char_lists(parts@) =~= before.push(head));
        } else {
            part.push(chars[i]);
            assert(before.push(head).drop_last() =~= before);
        }
    }
    let ghost before = char_lists(parts@);
    let ghost head = part@;
    parts.push(part);
    assert(char_lists(parts@) =~= before.push(head));
    assert(chars@.take(chars@.len() as int) =~= chars@);
    parts
}

/// Letters and digits of ASCII.
pub open spec fn is_alphanumeric(c: char) -> bool {
    ('0' <= c <= '9') || ('A' <= c <= 'Z') || ('a' <= c <= 'z')
}

/// Whether a character is a letter or digit of ASCII.
pub fn alphanumeric(c: char) -> (r: bool)
    ensures
        r == is_alphanumeric(c),
{
    ('0' <= c && c <= '9') || ('A' <= c && c <= 'Z') || ('a' <= c && c <= 'z')
}

/// Whether `pattern` stands in `text` at place `i`.
pub open spec fn occurs_at(text: Seq<char>, pattern: Seq<char>, i: int) -> bool {
    &&& 0 <= i
    &&& i + pattern.len() <= text.len()
    &&& text.subrange(i, i + pattern.len()) == pattern
}

/// Whether `pattern` stands somewhere in `text`.
pub open spec fn occurs(text: Seq<char>, pattern: Seq<char>) -> bool {
    exists|i: int| occurs_at(text, pattern, i)
}

/// Whether `pattern` stands in `text` at place `i`.
pub fn found_at(text: &Vec<char>, pattern: &Vec<char>, i: usize) -> (r: bool)
    ensures
        r == occurs_at(text@, pattern@, i as int),
{
    let length: usize = text.len();
    if i > length || pattern.len() > length - i {
        return false;
    }
    for j in 0..pattern.len()
        invariant
            length == text@.len(),
            i + pattern@.len() <= length,
            forall|k: int| 0 <= k < j ==> text@[i + k] == pattern@[k],
    {
        if text[i + j] != pattern[j] {
            assert(text@.subrange(i as int, i + pattern@.len())[j as int] != pattern@[j as int]);
            return false;
        }
    }
    assert(text@.subrange(i as int, i + pattern@.len()) =~= pattern@);
    true
}

/// Whether `pattern` stands somewhere in `text`.
pub fn found(text: &Vec<char>, pattern: &Vec<char>) -> (r: bool)
    ensures
        r == occurs(text@, pattern@),
{
    for i in 0..text.len()
        invariant
            forall|k: int| 0 <= k < i ==> !occurs_at(text@, pattern@, k),
    {
        if found_at(text, pattern, i) {
            return true;
        }
    }
    let last: bool = found_at(text, pattern, text.len());
    proof {
        if occurs(text@, pattern@) {
            let i = choose|i: int| occurs_at(text@, pattern@, i);
            assert(i == text@.len());
        }
    }
    last
}

/// How many commas stand in a text.
pub open spec fn comma_count(text: Seq<char>) -> nat
    decreases text.len(),
{
    if text.len() == 0 {
        0
    } else {
        comma_count(text.drop_last()) + if text.last() == ',' { 1nat } else { 0nat }
    }
}

/// Counts the commas of a text.
pub fn count_commas(chars: &Vec<char>) -> (r: usize)
    ensures
        r == comma_count(chars@),
{
    let mut n: usize = 0;
    for i in 0..chars.len()
        invariant
            n == comma_count(chars@.take(i as int)),
            n <= i,
    {
        assert(chars@.take(i + 1).drop_last() =~= chars@.take(i as int));
        if chars[i] == ',' {
            n = n + 1;
        }
    }
    assert(chars@.take(chars@.len() as int) =~= chars@);
    n
}

/// A character in lower case, where it is a capital of ASCII.
pub open spec fn lower(c: char) -> char {
    if 'A' <= c <= 'Z' {
        (c as u32 + 32) as char
    } else {
        c
    }
}

/// A text with the capitals of ASCII in lower case.
pub open spec fn lowercase(text: Seq<char>) -> Seq<char> {
    text.map_values(|c: char| lower(c))
}

fn lower_char(c: char) -> (r: char)
    ensures
        r == lower(c),
{
    if 'A' <= c && c <= 'Z' {
        (c as u8 + 32) as char
    } else {
        c
    }
}

/// The characters with the capitals of ASCII in lower case.
pub fn lowercase_chars(chars: &Vec<char>) -> (r: Vec<char>)
    ensures
        r@ == lowercase(chars@),
{
    let mut out: Vec<char> = Vec::with_capacity(chars.len());
    for i in 0..chars.len()
        invariant
            out@.len() == i,
            forall|j: int| 0 <= j < i ==> #[trigger] out@[j] == lower(chars@[j]),
    {
        out.push(lower_char(chars[i]));
    }
    assert(out@ =~= lowercase(chars@));
    out
}

/// The digit for a number below ten.
pub open spec fn digit(n: nat) -> char {
    (n + 48) as char
}

/// A number in decimal.
pub open spec fn decimal(n: nat) -> Seq<char>
    decreases n,
{
    if n < 10 {
        seq![digit(n)]
    } else {
        decimal(n / 10).push(digit(n % 10))
    }
}

/// A number in decimal.
pub fn decimal_text(n: u64) -> (r: String)
    ensures
        r@ == decimal(n as nat),
    decreases n,
{
    let c: char = (48 + (n % 10) as u8) as char;
    let mut out: String = if n < 10 { String::new() } else { decimal_text(n / 10) };
    out.push(c);
    assert(out@ =~= decimal(n as nat));
    out
}

/// The number that some decimal digits stand for, where they all are digits.
pub open spec fn digits_value(text: Seq<char>) -> Option<nat>
    decreases text.len(),
{
    if text.len() == 0 {
        Some(0)
    } else {
        match digits_value(text.drop_last()) {
            Some(n) if '0' <= text.last() <= '9' => Some((10 * n + (text.last() as int - 48)) as nat),
            _ => None,
        }
    }
}

/// The number that a text stands for: decimal digits, with a plus sign in front or without,
/// no more than `max`.
pub open spec fn number_of(text: Seq<char>, max: nat) -> Option<nat> {
    let digits = if text.len() > 0 && text[0] == '+' { text.drop_first() } else { text };
    match digits_value(digits) {
        Some(n) if digits.len() > 0 && n <= max => Some(n),
        _ => None,
    }
}

proof fn lemma_digits_prefix(text: Seq<char>, i: int)
    requires
        0 <= i <= text.len(),
    ensures
        digits_value(text) is Some ==> digits_value(text.take(i)) is Some && digits_value(text.take(i))->0
            <= digits_value(text)->0,
    decreases text.len(),
{
    if i < text.len() {
        lemma_digits_prefix(text.drop_last(), i);
        assert(text.drop_last().take(i) =~= text.take(i));
    } else {
        assert(text.take(i) =~= text);
    }
}

/// The number that a text stands for.
pub fn parse_number(chars: &Vec<char>, max: u64) -> (r: Option<u64>)
    ensures
        r matches Some(n) ==> number_of(chars@, max as nat) == Some(n as nat),
        r is None ==> number_of(chars@, max as nat) is None,
{
    let start: usize = if chars.len() > 0 && chars[0] == '+' { 1 } else { 0 };
    let ghost digits = chars@.subrange(start as int, chars@.len() as int);
    assert(start == 1 ==> digits =~= chars@.drop_first());
    assert(start == 0 ==> digits =~= chars@);
    if start == chars.len() {
        return None;
    }
    let mut n: u64 = 0;
    for i in start..chars.len()
        invariant
            start <= chars@.len(),
            digits == chars@.subrange(start as int, chars@.len() as int),
            digits_value(digits.take(i - start)) == Some(n as nat),
            n <= max,
            number_of(chars@, max as nat) == (match digits_value(digits) {
                Some(v) if digits.len() > 0 && v <= max => Some(v),
                _ => None,
            }),
    {
        let c: char = chars[i];
        proof {
            assert(digits.take(i - start + 1).drop_last() =~= digits.take(i - start));
            assert(digits.take(i - start + 1).last() == c);
            lemma_digits_prefix(digits, i - start + 1);
        }
        if !('0' <= c && c <= '9') {
            return None;
        }
        let d: u64 = (c as u8 - 48) as u64;
        if n > max / 10 || d > max - 10 * n {
            return None;
        }
        n = 10 * n + d;
    }
    assert(digits.take(chars@.len() - start) =~= digits);
    Some(n)
}

/// Whether text `a` comes before text `b`: at the first place where they differ, it has the
/// lesser character or has ended.
pub open spec fn text_less(a: Seq<char>, b: Seq<char>) -> bool
    decreases a.len(),
{
    if b.len() == 0 {
        false
    } else if a.len() == 0 {
        true
    } else if a[0] == b[0] {
        text_less(a.drop_first(), b.drop_first())
    } else {
        a[0] < b[0]
    }
}

/// Of two texts, one comes before the other or they are the same; and the order is
/// transitive.
pub proof fn lemma_text_order(a: Seq<char>, b: Seq<char>, c: Seq<char>)
    ensures
        a == b || text_less(a, b) || text_less(b, a),
        !(text_less(a, b) && text_less(b, a)),
        !text_less(a, a),
        text_less(a, b) && text_less(b, c) ==> text_less(a, c),
    decreases a.len() + b.len() + c.len(),
{
    if a.len() > 0 && b.len() > 0 {
        let rest = if c.len() > 0 { c.drop_first() } else { c };
        lemma_text_order(a.drop_first(), b.drop_first(), rest);
        if a[0] == b[0] && a.drop_first() == b.drop_first() {
            assert(a =~= b) by {
                assert forall|i: int| 0 <= i < a.len() implies a[i] == b[i] by {
                    if i > 0 {
                        assert(a.drop_first()[i - 1] == b.drop_first()[i - 1]);
                    }
                }
            }
        }
    } else if a.len() == 0 && b.len() == 0 {
        assert(a =~= b);
    }
    if a.len() > 0 {
        lemma_text_irreflexive(a);
    }
}

proof fn lemma_text_irreflexive(a: Seq<char>)
    ensures
        !text_less(a, a),
    decreases a.len(),
{
    if a.len() > 0 {
        lemma_text_irreflexive(a.drop_first());
    }
}

/// Whether text `a` comes before text `b`.
pub fn text_before(a: &str, b: &str) -> (r: bool)
    ensures
        r == text_less(a@, b@),
{
    let x: Vec<char> = chars_of(a);
    let y: Vec<char> = chars_of(b);
    let mut i: usize = 0;
    assert(x@.subrange(0, x@.len() as int) =~= x@);
    assert(y@.subrange(0, y@.len() as int) =~= y@);
    while i < x.len() && i < y.len() && x[i] == y[i]
        invariant
            i <= x@.len(),
            i <= y@.len(),
            text_less(x@, y@) == text_less(
                x@.subrange(i as int, x@.len() as int),
                y@.subrange(i as int, y@.len() as int),
            ),
        decreases x@.len() - i,
    {
        assert(x@.subrange(i as int, x@.len() as int).drop_first() =~= x@.subrange(i + 1, x@.len() as int));
        assert(y@.subrange(i as int, y@.len() as int).drop_first() =~= y@.subrange(i + 1, y@.len() as int));
        i = i + 1;
    }
    if i == y.len() {
        false
    } else if i == x.len() {
        true
    } else {
        x[i] < y[i]
    }
}

/// Texts in order, none of them twice.
pub open spec fn is_text_set(texts: Seq<Seq<char>>) -> bool {
    forall|i: int, j: int| 0 <= i < j < texts.len() ==> text_less(#[trigger] texts[i], #[trigger] texts[j])
}

/// A set of texts, in order, with one more in it.
pub open spec fn with_text(texts: Seq<Seq<char>>, text: Seq<char>) -> Seq<Seq<char>>
    decreases texts.len(),
{
    if texts.len() == 0 {
        seq![text]
    } else if texts.last() == text {
        texts
    } else if text_less(texts.last(), text) {
        texts.push(text)
    } else {
        with_text(texts.drop_last(), text).push(texts.last())
    }
}

/// A set of texts, in order, with more of them in it.
pub open spec fn with_texts(texts: Seq<Seq<char>>, more: Seq<Seq<char>>) -> Seq<Seq<char>>
    decreases more.len(),
{
    if more.len() == 0 {
        texts
    } else {
        with_text(with_texts(texts, more.drop_last()), more.last())
    }
}

/// The set of some texts, in order.
pub open spec fn text_set(texts: Seq<Seq<char>>) -> Seq<Seq<char>> {
    with_texts(Seq::empty(), texts)
}

proof fn lemma_with_text(texts: Seq<Seq<char>>, text: Seq<char>)
    requires
        is_text_set(texts),
    ensures
        is_text_set(with_text(texts, text)),
        forall|t: Seq<char>| #[trigger] with_text(texts, text).contains(t) <==> texts.contains(t) || t == text,
        with_text(texts, text).len() > 0,
    decreases texts.len(),
{
    let r = with_text(texts, text);
    if texts.len() == 0 {
        assert(r =~= seq![text]);
        assert(r[0] == text);
    } else if texts.last() == text {
        assert(texts[texts.len() - 1] == text);
    } else if text_less(texts.last(), text) {
        assert forall|i: int, j: int| 0 <= i < j < r.len() implies text_less(#[trigger] r[i], #[trigger] r[j]) by {
            if j == texts.len() && i < texts.len() - 1 {
                lemma_text_order(texts[i], texts.last(), text);
            }
        }
        assert forall|t: Seq<char>| #[trigger] r.contains(t) <==> texts.contains(t) || t == text by {
            if r.contains(t) {
                let i = choose|i: int| 0 <= i < r.len() && r[i] == t;
                assert(i < texts.len() ==> texts[i] == t);
            }
            if texts.contains(t) {
                let i = choose|i: int| 0 <= i < texts.len() && texts[i] == t;
                assert(r[i] == t);
            }
            assert(r[texts.len() as int] == text);
        }
    } else {
        let head = texts.drop_last();
        let inner = with_text(head, text);
        lemma_with_text(head, text);
        lemma_text_order(texts.last(), text, text);
        assert forall|i: int, j: int| 0 <= i < j < r.len() implies text_less(#[trigger] r[i], #[trigger] r[j]) by {
            if j == inner.len() {
                assert(inner.contains(inner[i]));
                if head.contains(inner[i]) {
                    let k = choose|k: int| 0 <= k < head.len() && head[k] == inner[i];
                    assert(texts[k] == inner[i]);
                }
            }
        }
        assert forall|t: Seq<char>| #[trigger] r.contains(t) <==> texts.contains(t) || t == text by {
            if r.contains(t) {
                let i = choose|i: int| 0 <= i < r.len() && r[i] == t;
                if i < inner.len() {
                    assert(inner.contains(t)) by {
                        assert(inner[i] == t);
                    }
                    if head.contains(t) {
                        let k = choose|k: int| 0 <= k < head.len() && head[k] == t;
                        assert(texts[k] == t);
                    }
                } else {
                    assert(texts[texts.len() - 1] == t);
                }
            }
            if texts.contains(t) || t == text {
                if t == texts.last() {
                    assert(r[inner.len() as int] == t);
                } else {
                    if texts.contains(t) {
                        let k = choose|k: int| 0 <= k < texts.len() && texts[k] == t;
                        assert(head[k] == t);
                    }
                    assert(inner.contains(t));
                    let i = choose|i: int| 0 <= i < inner.len() && inner[i] == t;
                    assert(r[i] == t);
                }
            }
        }
    }
}

/// Adding texts to a set of texts keeps it a set in order, with just the texts it had and
/// those added.
pub proof fn law_with_texts(texts: Seq<Seq<char>>, more: Seq<Seq<char>>)
    requires
        is_text_set(texts),
    ensures
        is_text_set(with_texts(texts, more)),
        forall|t: Seq<char>|
            #[trigger] with_texts(texts, more).contains(t) <==> texts.contains(t) || more.contains(t),
    decreases more.len(),
{
    if more.len() > 0 {
        law_with_texts(texts, more.drop_last());
        let inner = with_texts(texts, more.drop_last());
        lemma_with_text(inner, more.last());
        assert forall|t: Seq<char>|
            #[trigger] with_texts(texts, more).contains(t) <==> texts.contains(t) || more.contains(t) by {
            assert(inner.contains(t) <==> texts.contains(t) || more.drop_last().contains(t));
            if more.drop_last().contains(t) {
                let i = choose|i: int| 0 <= i < more.drop_last().len() && more.drop_last()[i] == t;
                assert(more[i] == t);
            }
            if more.contains(t) && t != more.last() {
                let i = choose|i: int| 0 <= i < more.len() && more[i] == t;
                assert(more.drop_last()[i] == t);
            }
            assert(more[more.len() - 1] == more.last());
        }
    }
}

/// The set of some texts is in order, has none of them twice, and has just them.
pub proof fn law_text_set(texts: Seq<Seq<char>>)
    ensures
        is_text_set(text_set(texts)),
        forall|t: Seq<char>| #[trigger] text_set(texts).contains(t) <==> texts.contains(t),
        text_set(texts).len() == 0 <==> texts.len() == 0,
{
    law_with_texts(Seq::empty(), texts);
    if texts.len() > 0 {
        assert(texts.contains(texts[0]));
        assert(text_set(texts).contains(texts[0]));
    }
}

/// Adds a text to a set of texts in order.
pub fn insert_text(set: &mut Vec<String>, text: String)
    ensures
        texts_of(final(set)@) == with_text(texts_of(old(set)@), text@),
{
    let mut at: usize = set.len();
    let ghost before = texts_of(set@);
    assert(before.take(at as int) =~= before);
    assert(before.subrange(at as int, before.len() as int) =~= Seq::<Seq<char>>::empty());
    assert(with_text(before, text@) =~= with_text(before.take(at as int), text@) + before.subrange(
        at as int,
        before.len() as int,
    ));
    while at > 0 && text_before(text.as_str(), set[at - 1].as_str())
        invariant
            at <= set@.len(),
            before == texts_of(set@),
            set@ == old(set)@,
            with_text(before, text@) == with_text(before.take(at as int), text@) + before.subrange(
                at as int,
                before.len() as int,
            ),
        decreases at,
    {
        proof {
            let head = before.take(at as int);
            assert(head.last() == before[at - 1]);
            lemma_text_order(head.last(), text@, text@);
            assert(head.drop_last() =~= before.take(at - 1));
            assert(with_text(before.take(at - 1), text@).push(before[at - 1]) + before.subrange(
                at as int,
                before.len() as int,
            ) =~= with_text(before.take(at - 1), text@) + before.subrange(at - 1, before.len() as int));
        }
        at = at - 1;
    }
    if at > 0 && text_equal(text.as_str(), set[at - 1].as_str()) {
        assert(before.take(at as int).last() == before[at - 1]);
        assert(before.take(at as int) + before.subrange(at as int, before.len() as int) =~= before);
        return;
    }
    proof {
        if at > 0 {
            lemma_text_order(before[at - 1], text@, text@);
            assert(before.take(at as int).last() == before[at - 1]);
        }
    }
    let ghost added = text@;
    set.insert(at, text);
    assert(texts_of(set@) =~= before.take(at as int).push(added) + before.subrange(
        at as int,
        before.len() as int,
    ));
}

/// Adds texts to a set of texts in order.
pub fn insert_texts(set: &mut Vec<String>, more: &Vec<String>)
    ensures
        texts_of(final(set)@) == with_texts(texts_of(old(set)@), texts_of(more@)),
{
    assert(texts_of(more@).take(0) =~= Seq::<Seq<char>>::empty());
    for i in 0..more.len()
        invariant
            texts_of(set@) == with_texts(texts_of(old(set)@), texts_of(more@).take(i as int)),
    {
        assert(texts_of(more@).take(i + 1).drop_last() =~= texts_of(more@).take(i as int));
        assert(texts_of(more@).take(i + 1).last() == more@[i as int]@);
        let text: String = more[i].clone();
        insert_text(set, text);
    }
    assert(texts_of(more@).take(more@.len() as int) =~= texts_of(more@));
}

/// Just these characters are white space: the controls from tab to carriage return, the next
/// line, and the separators of Unicode.
pub proof fn law_whitespace(c: char)
    ensures
        ({
            let n = c as u32;
            is_whitespace(c) <==> (9 <= n <= 13) || n == 0x20 || n == 0x85 || n == 0xa0 || n == 0x1680 || (0x2000 <= n
                <= 0x200a) || n == 0x2028 || n == 0x2029 || n == 0x202f || n == 0x205f || n == 0x3000
        }),
{
}

/// Trimming takes white space off both ends of a text and nothing else: the text is white
/// space, what is left, and white space, and what is left neither begins nor ends with any. A
/// text without white space at its ends is left as it is.
pub proof fn law_trimmed(text: Seq<char>)
    ensures
        exists|start: int, end: int|
            {
                &&& 0 <= start <= end <= text.len()
                &&& trimmed(text) == #[trigger] text.subrange(start, end)
                &&& forall|i: int| 0 <= i < start ==> is_whitespace(#[trigger] text[i])
                &&& forall|i: int| end <= i < text.len() ==> is_whitespace(#[trigger] text[i])
            },
        trimmed(text).len() > 0 ==> !is_whitespace(trimmed(text)[0]) && !is_whitespace(trimmed(text).last()),
        text.len() > 0 && !is_whitespace(text[0]) && !is_whitespace(text.last()) ==> trimmed(text) == text,
        trimmed(trimmed(text)) == trimmed(text),
{
    let (start, end) = lemma_trimmed_ends(text);
    let inner = trimmed(text);
    assert(text.subrange(start, end) == inner);
    if text.len() > 0 && !is_whitespace(text[0]) && !is_whitespace(text.last()) {
        assert(text[text.len() - 1] == text.last());
        assert(text.subrange(0, text.len() as int) =~= text);
    }
}

proof fn lemma_trimmed_ends(text: Seq<char>) -> (r: (int, int))
    ensures
        0 <= r.0 <= r.1 <= text.len(),
        trimmed(text) == text.subrange(r.0, r.1),
        forall|i: int| 0 <= i < r.0 ==> is_whitespace(#[trigger] text[i]),
        forall|i: int| r.1 <= i < text.len() ==> is_whitespace(#[trigger] text[i]),
        trimmed(text).len() > 0 ==> !is_whitespace(trimmed(text)[0]) && !is_whitespace(trimmed(text).last()),
    decreases text.len(),
{
    if text.len() > 0 && is_whitespace(text[0]) {
        let rest = text.drop_first();
        let (start, end) = lemma_trimmed_ends(rest);
        assert(rest.subrange(start, end) =~= text.subrange(start + 1, end + 1));
        assert forall|i: int| 0 <= i < start + 1 implies is_whitespace(#[trigger] text[i]) by {
            if i > 0 {
                assert(rest[i - 1] == text[i]);
            }
        }
        assert forall|i: int| end + 1 <= i < text.len() implies is_whitespace(#[trigger] text[i]) by {
            assert(rest[i - 1] == text[i]);
        }
        (start + 1, end + 1)
    } else {
        let end = lemma_trimmed_tail(text);
        assert(text.take(end) =~= text.subrange(0, end));
        (0, end)
    }
}

proof fn lemma_trimmed_tail(text: Seq<char>) -> (end: int)
    ensures
        0 <= end <= text.len(),
        trimmed_end(text) == text.take(end),
        forall|i: int| end <= i < text.len() ==> is_whitespace(#[trigger] text[i]),
        end > 0 ==> !is_whitespace(text[end - 1]),
    decreases text.len(),
{
    if text.len() > 0 && is_whitespace(text.last()) {
        let shorter = text.drop_last();
        let end = lemma_trimmed_tail(shorter);
        assert(shorter.take(end) =~= text.take(end));
        assert forall|i: int| end <= i < text.len() implies is_whitespace(#[trigger] text[i]) by {
            if i < shorter.len() {
                assert(shorter[i] == text[i]);
            }
        }
        end
    } else {
        assert(text.take(text.len() as int) =~= text);
        text.len() as int
    }
}

/// White space round a text does not matter to its trim.
pub proof fn law_trimmed_padding(front: Seq<char>, text: Seq<char>, back: Seq<char>)
    requires
        forall|i: int| 0 <= i < front.len() ==> is_whitespace(#[trigger] front[i]),
        forall|i: int| 0 <= i < back.len() ==> is_whitespace(#[trigger] back[i]),
    ensures
        trimmed(front + text + back) == trimmed(text),
    decreases front.len() + back.len(),
{
    let all = front + text + back;
    if front.len() > 0 {
        assert(all[0] == front[0]);
        assert(all.drop_first() =~= front.drop_first() + text + back);
        law_trimmed_padding(front.drop_first(), text, back);
    } else {
        assert(all =~= text + back);
        if back.len() > 0 {
            assert(back[back.len() - 1] == back.last());
            lemma_trimmed_push(text + back.drop_last(), back.last());
            assert((text + back.drop_last()).push(back.last()) =~= text + back);
            law_trimmed_padding(front, text, back.drop_last());
            assert(front + text + back.drop_last() =~= text + back.drop_last());
        } else {
            assert(all =~= text);
        }
    }
}

proof fn lemma_trimmed_push(text: Seq<char>, c: char)
    requires
        is_whitespace(c),
    ensures
        trimmed(text.push(c)) == trimmed(text),
    decreases text.len(),
{
    let all = text.push(c);
    if text.len() == 0 {
        assert(all.drop_first() =~= text);
    } else if is_whitespace(text[0]) {
        assert(all.drop_first() =~= text.drop_first().push(c));
        lemma_trimmed_push(text.drop_first(), c);
    } else {
        assert(all.drop_last() =~= text);
    }
}

/// The parts of a text between its commas, joined with commas, are the text; no part has a
/// comma in it; and there is one part more than there are commas.
pub proof fn law_parts_of_text(text: Seq<char>)
    ensures
        comma_joined(comma_parts(text)) == text,
        forall|i: int| 0 <= i < comma_parts(text).len() ==> !(#[trigger] comma_parts(text)[i]).contains(','),
        comma_parts(text).len() == text.filter(|c: char| c == ',').len() + 1,
        comma_count(text) == text.filter(|c: char| c == ',').len(),
    decreases text.len(),
{
    reveal(Seq::filter);
    let parts = comma_parts(text);
    if text.len() == 0 {
        assert(parts[0] =~= text);
    } else {
        let head = text.drop_last();
        let before = comma_parts(head);
        law_parts_of_text(head);
        lemma_comma_parts(head);
        assert(text =~= head.push(text.last()));
        if text.last() == ',' {
            assert(parts.drop_last() =~= before);
            assert(comma_joined(parts) =~= text);
            assert forall|i: int| 0 <= i < parts.len() implies !(#[trigger] parts[i]).contains(',') by {
                if i < before.len() {
                    assert(parts[i] == before[i]);
                }
            }
        } else {
            let last = before.last();
            assert(last == before[before.len() - 1]);
            assert(parts.drop_last() =~= before.drop_last());
            assert(comma_joined(parts) =~= comma_joined(before).push(text.last()));
            assert forall|i: int| 0 <= i < parts.len() implies !(#[trigger] parts[i]).contains(',') by {
                if i < before.len() - 1 {
                    assert(parts[i] == before[i]);
                } else if parts[i].contains(',') {
                    let k = choose|k: int| 0 <= k < parts[i].len() && parts[i][k] == ',';
                    assert(k < last.len());
                    assert(last[k] == ',');
                }
            }
        }
    }
}

/// Joining texts with commas puts all of them, one comma between two, into the text.
pub proof fn law_joined(parts: Seq<Seq<char>>, more: Seq<char>)
    requires
        parts.len() > 0,
    ensures
        comma_joined(seq![more]) == more,
        comma_joined(parts.push(more)) == comma_joined(parts) + seq![','] + more,
{
    assert(parts.push(more).drop_last() =~= parts);
    assert(comma_joined(parts.push(more)) =~= comma_joined(parts) + seq![','] + more);
}

/// Letters and digits are those of ASCII.
pub proof fn law_alphanumeric(c: char)
    ensures
        ({
            let n = c as u32;
            is_alphanumeric(c) <==> (48 <= n <= 57) || (65 <= n <= 90) || (97 <= n <= 122)
        }),
{
}

/// A text in lower case has the length of the text. Its capitals of ASCII are 32 places
/// further, and all else is as it was; so no capital is left.
pub proof fn law_lowercase(text: Seq<char>)
    ensures
        lowercase(text).len() == text.len(),
        forall|i: int|
            0 <= i < text.len() && 65 <= #[trigger] text[i] as u32 <= 90 ==> lowercase(text)[i] as u32 == text[i] as u32
                + 32,
        forall|i: int|
            0 <= i < text.len() && !(65 <= #[trigger] text[i] as u32 <= 90) ==> lowercase(text)[i] == text[i],
        lowercase(lowercase(text)) == lowercase(text),
{
    assert(lowercase(lowercase(text)) =~= lowercase(text));
}

/// The value of digits, each ten times that of the one behind it.
pub open spec fn place_value(digits: Seq<char>) -> int
    decreases digits.len(),
{
    if digits.len() == 0 {
        0
    } else {
        (digits[0] as int - 48) * pow(10, (digits.len() - 1) as nat) + place_value(digits.drop_first())
    }
}

proof fn lemma_place_value_push(digits: Seq<char>, c: char)
    ensures
        place_value(digits.push(c)) == 10 * place_value(digits) + (c as int - 48),
    decreases digits.len(),
{
    let all = digits.push(c);
    reveal(pow);
    if digits.len() == 0 {
        assert(all.drop_first() =~= digits);
        assert(pow(10, 0) == 1);
        assert((c as int - 48) * pow(10, 0) == c as int - 48);
    } else {
        lemma_place_value_push(digits.drop_first(), c);
        assert(all.drop_first() =~= digits.drop_first().push(c));
        let p = pow(10, (digits.len() - 1) as nat);
        assert(pow(10, digits.len()) == 10 * p);
        let d = digits[0] as int - 48;
        assert(d * (10 * p) == 10 * (d * p)) by (nonlinear_arith);
        assert(all[0] == digits[0]);
        assert((all.len() - 1) as nat == digits.len());
        assert(place_value(all) == d * pow(10, digits.len()) + place_value(all.drop_first()));
        assert(place_value(digits) == d * p + place_value(digits.drop_first()));
    }
}

/// A number in decimal is its digits, the first of them no zero unless the number is zero.
/// Reading it gives the number back, unless it is too large, also with a plus sign in front.
pub proof fn law_decimal(n: nat, max: nat)
    ensures
        decimal(n).len() > 0,
        forall|i: int| 0 <= i < decimal(n).len() ==> '0' <= #[trigger] decimal(n)[i] <= '9',
        place_value(decimal(n)) == n,
        n > 0 ==> decimal(n)[0] != '0',
        n == 0 ==> decimal(n) == seq!['0'],
        number_of(decimal(n), max) == if n <= max { Some(n) } else { None },
        number_of(seq!['+'] + decimal(n), max) == if n <= max { Some(n) } else { None },
    decreases n,
{
    let text = decimal(n);
    lemma_decimal(n);
    lemma_digits_value(text);
    assert((seq!['+'] + text).drop_first() =~= text);
}

proof fn lemma_decimal(n: nat)
    ensures
        decimal(n).len() > 0,
        forall|i: int| 0 <= i < decimal(n).len() ==> '0' <= #[trigger] decimal(n)[i] <= '9',
        place_value(decimal(n)) == n,
        n > 0 ==> decimal(n)[0] != '0',
    decreases n,
{
    if n < 10 {
        let d = digit(n);
        assert(d as int == n + 48);
        lemma_place_value_push(Seq::empty(), d);
        assert(Seq::<char>::empty().push(d) =~= decimal(n));
    } else {
        lemma_decimal(n / 10);
        let d = digit(n % 10);
        assert(d as int == n % 10 + 48);
        lemma_place_value_push(decimal(n / 10), d);
    }
}

proof fn lemma_digits_value(text: Seq<char>)
    ensures
        digits_value(text) is Some <==> forall|i: int| 0 <= i < text.len() ==> '0' <= #[trigger] text[i] <= '9',
        digits_value(text) matches Some(n) ==> n == place_value(text),
    decreases text.len(),
{
    if text.len() > 0 {
        let head = text.drop_last();
        lemma_digits_value(head);
        lemma_place_value_push(head, text.last());
        assert(head.push(text.last()) =~= text);
        assert(text[text.len() - 1] == text.last());
        if digits_value(text) is Some {
            assert forall|i: int| 0 <= i < text.len() implies '0' <= #[trigger] text[i] <= '9' by {
                if i < head.len() {
                    assert(head[i] == text[i]);
                }
            }
        }
        if forall|i: int| 0 <= i < text.len() ==> '0' <= #[trigger] text[i] <= '9' {
            assert forall|i: int| 0 <= i < head.len() implies '0' <= #[trigger] head[i] <= '9' by {
                assert(head[i] == text[i]);
            }
        }
    }
}

/// Whether a text is digits.
pub open spec fn all_digits(text: Seq<char>) -> bool {
    forall|i: int| 0 <= i < text.len() ==> '0' <= #[trigger] text[i] <= '9'
}

/// A text is a number just where it is digits, at least one, behind a plus sign or not, and
/// their value is no more than the largest one allowed; and that value is the number.
pub proof fn law_number(text: Seq<char>, max: nat)
    ensures
        text.len() == 0 ==> number_of(text, max) is None,
        text.len() > 0 && text[0] != '+' ==> (number_of(text, max) is Some <==> all_digits(text) && place_value(text)
            <= max),
        text.len() > 0 && text[0] != '+' ==> (number_of(text, max) matches Some(n) ==> n == place_value(text)),
        number_of(seq!['+'] + text, max) is Some <==> text.len() > 0 && all_digits(text) && place_value(text) <= max,
        number_of(seq!['+'] + text, max) matches Some(n) ==> n == place_value(text),
{
    assert((seq!['+'] + text).drop_first() =~= text);
    lemma_digits_value(text);
}

/// Texts are ordered as in a dictionary: by the first place where they differ, or by the end.
pub proof fn law_text_less(a: Seq<char>, b: Seq<char>)
    ensures
        text_less(a, b) <==> exists|n: int|
            0 <= n <= a.len() && n < b.len() && #[trigger] a.take(n) == b.take(n) && (n == a.len() || a[n] < b[n]),
    decreases a.len(),
{
    if b.len() == 0 {
    } else if a.len() == 0 {
        assert(a.take(0) =~= b.take(0));
    } else if a[0] == b[0] {
        let x = a.drop_first();
        let y = b.drop_first();
        law_text_less(x, y);
        if text_less(x, y) {
            let n = choose|n: int|
                0 <= n <= x.len() && n < y.len() && #[trigger] x.take(n) == y.take(n) && (n == x.len() || x[n] < y[n]);
            assert(a.take(n + 1) =~= seq![a[0]] + x.take(n));
            assert(b.take(n + 1) =~= seq![b[0]] + y.take(n));
        }
        if exists|n: int|
            0 <= n <= a.len() && n < b.len() && #[trigger] a.take(n) == b.take(n) && (n == a.len() || a[n] < b[n]) {
            let n = choose|n: int|
                0 <= n <= a.len() && n < b.len() && #[trigger] a.take(n) == b.take(n) && (n == a.len() || a[n] < b[n]);
            assert(n > 0);
            assert(x.take(n - 1) =~= a.take(n).drop_first());
            assert(y.take(n - 1) =~= b.take(n).drop_first());
        }
    } else {
        assert(a.take(0) =~= b.take(0));
        assert forall|n: int|
            0 <= n <= a.len() && n < b.len() && #[trigger] a.take(n) == b.take(n) && (n == a.len() || a[n]
                < b[n]) implies a[0] < b[0] by {
            if n > 0 {
                assert(a.take(n)[0] == b.take(n)[0]);
            }
        }
    }
}

/// A pattern stands in a text just where the text is something, the pattern, and something.
pub proof fn law_occurs(text: Seq<char>, pattern: Seq<char>)
    ensures
        occurs(text, pattern) <==> exists|front: Seq<char>, back: Seq<char>| text == #[trigger] (front + pattern + back),
{
    if occurs(text, pattern) {
        let i = choose|i: int| occurs_at(text, pattern, i);
        let front = text.take(i);
        let back = text.subrange(i + pattern.len(), text.len() as int);
        assert(text =~= front + pattern + back);
    }
    if exists|front: Seq<char>, back: Seq<char>| text == #[trigger] (front + pattern + back) {
        let (front, back): (Seq<char>, Seq<char>) = choose|front: Seq<char>, back: Seq<char>|
            text == #[trigger] (front + pattern + back);
        assert(text.subrange(front.len() as int, (front.len() + pattern.len()) as int) =~= pattern);
        assert(occurs_at(text, pattern, front.len() as int));
    }
}

/// The texts of some strings are those of each of them, in order.
pub proof fn law_texts_of(strings: Seq<String>)
    ensures
        texts_of(strings).len() == strings.len(),
        forall|i: int| 0 <= i < strings.len() ==> texts_of(strings)[i] == (#[trigger] strings[i])@,
{
}

} // verus!
