//! Text as sequences of characters: lines, words, and the two number grammars
//! that configuration and command lines use.

use vstd::prelude::*;
use vstd::slice::slice_subrange;

verus! {

/// `String::push` of std appends one character.
pub assume_specification[ String::push ](s: &mut String, ch: char)
    ensures
        final(s)@ == old(s)@.push(ch),
;

/// The characters of a string.
pub fn chars_of(s: &str) -> (chars: Vec<char>)
    ensures
        chars@ == s@,
{
    let mut chars: Vec<char> = Vec::new();
    for c in it: s.chars()
        invariant
            chars@ == it.seq().take(it.index() as int),
            it.seq() == s@,
    {
        chars.push(c);
        assert(chars@ =~= it.seq().take(it.index() + 1));
    }
    assert(chars@ =~= s@);
    chars
}

/// The string of some characters.
pub fn string_of(chars: &[char]) -> (s: String)
    ensures
        s@ == chars@,
{
    let mut s: String = String::new();
    let mut i: usize = 0;
    assert(s@ =~= chars@.take(0));
    while i < chars.len()
        invariant
            i <= chars@.len(),
            s@ == chars@.take(i as int),
        decreases chars@.len() - i,
    {
        s.push(chars[i]);
        i = i + 1;
        assert(s@ =~= chars@.take(i as int));
    }
    assert(chars@.take(i as int) =~= chars@);
    s
}

/// Whether some characters spell a given text.
pub fn spells(chars: &[char], text: &str) -> (same: bool)
    ensures
        same == (chars@ == text@),
{
    let wanted: Vec<char> = chars_of(text);
    if wanted.len() != chars.len() {
        return false;
    }
    let mut i: usize = 0;
    while i < chars.len()
        invariant
            i <= chars@.len(),
            wanted@.len() == chars@.len(),
            wanted@ == text@,
            forall|j: int| 0 <= j < i ==> chars@[j] == wanted@[j],
        decreases chars@.len() - i,
    {
        if chars[i] != wanted[i] {
            assert(chars@[i as int] != text@[i as int]);
            return false;
        }
        i = i + 1;
    }
    assert(chars@ =~= text@);
    true
}

/// Whether a character is white space (the Unicode property of that name).
pub open spec fn is_space(c: char) -> bool {
    ||| '\u{9}' <= c <= '\u{d}'
    ||| c == '\u{20}'
    ||| c == '\u{85}'
    ||| c == '\u{a0}'
    ||| c == '\u{1680}'
    ||| '\u{2000}' <= c <= '\u{200a}'
    ||| c == '\u{2028}'
    ||| c == '\u{2029}'
    ||| c == '\u{202f}'
    ||| c == '\u{205f}'
    ||| c == '\u{3000}'
}

fn space(c: char) -> (yes: bool)
    ensures
        yes == is_space(c),
{
    ('\u{9}' <= c && c <= '\u{d}') || c == '\u{20}' || c == '\u{85}' || c == '\u{a0}' || c
        == '\u{1680}' || ('\u{2000}' <= c && c <= '\u{200a}') || c == '\u{2028}' || c == '\u{2029}'
        || c == '\u{202f}' || c == '\u{205f}' || c == '\u{3000}'
}

/// How many characters stand before the first white space.
pub open spec fn word_len(s: Seq<char>) -> nat
    decreases s.len(),
{
    if s.len() == 0 || is_space(s[0]) {
        0
    } else {
        1 + word_len(s.drop_first())
    }
}

/// The words of a text: its maximal runs without white space, in order.
pub open spec fn words(s: Seq<char>) -> Seq<Seq<char>>
    decreases s.len(),
{
    if s.len() == 0 {
        Seq::empty()
    } else if is_space(s[0]) {
        words(s.drop_first())
    } else {
        let n = word_len(s) as int;
        if 0 < n <= s.len() {
            seq![s.take(n)] + words(s.skip(n))
        } else {
            Seq::empty()
        }
    }
}

/// How many characters stand before the first line feed.
pub open spec fn line_len(s: Seq<char>) -> nat
    decreases s.len(),
{
    if s.len() == 0 || s[0] == '\n' {
        0
    } else {
        1 + line_len(s.drop_first())
    }
}

/// The lines of a text; a line feed at the very end starts no further line.
pub open spec fn lines(s: Seq<char>) -> Seq<Seq<char>>
    decreases s.len(),
{
    if s.len() == 0 {
        Seq::empty()
    } else {
        let n = line_len(s) as int;
        if 0 <= n < s.len() {
            seq![s.take(n)] + lines(s.skip(n + 1))
        } else {
            seq![s]
        }
    }
}

proof fn lemma_word_len(s: Seq<char>, n: int)
    requires
        0 <= n <= s.len(),
        forall|i: int| 0 <= i < n ==> !is_space(#[trigger] s[i]),
        n == s.len() || is_space(s[n]),
    ensures
        word_len(s) == n,
    decreases s.len(),
{
    if n > 0 {
        assert(!is_space(s[0]));
        let t = s.drop_first();
        assert forall|i: int| 0 <= i < n - 1 implies !is_space(#[trigger] t[i]) by {
            assert(t[i] == s[i + 1]);
        }
        lemma_word_len(t, n - 1);
    }
}

proof fn lemma_line_len(s: Seq<char>, n: int)
    requires
        0 <= n <= s.len(),
        forall|i: int| 0 <= i < n ==> (#[trigger] s[i]) != '\n',
        n == s.len() || s[n] == '\n',
    ensures
        line_len(s) == n,
    decreases s.len(),
{
    if n > 0 {
        assert(s[0] != '\n');
        let t = s.drop_first();
        assert forall|i: int| 0 <= i < n - 1 implies (#[trigger] t[i]) != '\n' by {
            assert(t[i] == s[i + 1]);
        }
        lemma_line_len(t, n - 1);
    }
}

proof fn lemma_first_line(a: Seq<char>, b: Seq<char>)
    requires
        a.len() > 0,
        a.last() == '\n',
    ensures
        line_len(a) < a.len(),
        line_len(a + b) == line_len(a),
    decreases a.len(),
{
    if a[0] != '\n' {
        lemma_first_line(a.drop_first(), b);
        assert((a + b).drop_first() =~= a.drop_first() + b);
    }
}

/// The lines of a text behind one that ends where a line ends are the lines of
/// the one, and then of the other.
pub proof fn lines_join(a: Seq<char>, b: Seq<char>)
    requires
        a.len() == 0 || a.last() == '\n',
    ensures
        lines(a + b) == lines(a) + lines(b),
    decreases a.len(),
{
    let whole = a + b;
    if a.len() == 0 {
        assert(whole =~= b);
        assert(lines(a) + lines(b) =~= lines(b));
    } else {
        lemma_first_line(a, b);
        let n = line_len(a) as int;
        let rest = a.skip(n + 1);
        lines_join(rest, b);
        assert(whole.take(n) =~= a.take(n));
        assert(whole.skip(n + 1) =~= rest + b);
        assert(lines(whole) =~= lines(a) + lines(b));
    }
}

/// The views of several runs of characters.
pub open spec fn views(v: Seq<Vec<char>>) -> Seq<Seq<char>> {
    v.map_values(|w: Vec<char>| w@)
}

/// A copy of a run of characters.
pub fn copied(chars: &[char]) -> (copy: Vec<char>)
    ensures
        copy@ == chars@,
{
    let mut copy: Vec<char> = Vec::new();
    let mut i: usize = 0;
    assert(copy@ =~= chars@.take(0));
    while i < chars.len()
        invariant
            i <= chars@.len(),
            copy@ == chars@.take(i as int),
        decreases chars@.len() - i,
    {
        copy.push(chars[i]);
        i = i + 1;
        assert(copy@ =~= chars@.take(i as int));
    }
    assert(chars@.take(i as int) =~= chars@);
    copy
}

/// Split a text into words.
pub fn split_words(chars: &[char]) -> (found: Vec<Vec<char>>)
    ensures
        views(found@) == words(chars@),
{
    let mut found: Vec<Vec<char>> = Vec::new();
    let end: usize = chars.len();
    let mut at: usize = 0;
    assert(chars@.skip(0) =~= chars@);
    assert(views(found@) =~= Seq::empty());
    assert(words(chars@) =~= views(found@) + words(chars@.skip(0)));
    while at < end
        invariant
            at <= end == chars@.len(),
            words(chars@) == views(found@) + words(chars@.skip(at as int)),
        decreases end - at,
    {
        let ghost rest = chars@.skip(at as int);
        assert(rest[0] == chars@[at as int]);
        if space(chars[at]) {
            at = at + 1;
            assert(rest.drop_first() =~= chars@.skip(at as int));
        } else {
            let mut stop: usize = at;
            while stop < end && !space(chars[stop])
                invariant
                    at <= stop <= end == chars@.len(),
                    forall|i: int| at <= i < stop ==> !is_space(#[trigger] chars@[i]),
                decreases end - stop,
            {
                stop = stop + 1;
            }
            let word: Vec<char> = copied(slice_subrange(chars, at, stop));
            proof {
                let n = stop - at;
                assert forall|i: int| 0 <= i < n implies !is_space(#[trigger] rest[i]) by {
                    assert(rest[i] == chars@[at + i]);
                }
                if n < rest.len() {
                    assert(rest[n] == chars@[stop as int]);
                }
                lemma_word_len(rest, n);
                assert(n > 0);
                assert(word@ =~= rest.take(n));
                assert(rest.skip(n) =~= chars@.skip(stop as int));
            }
            let ghost before = found@;
            found.push(word);
            proof {
                assert(views(found@) =~= views(before).push(word@));
                assert(words(chars@) =~= views(found@) + words(chars@.skip(stop as int)));
            }
            at = stop;
        }
    }
    assert(words(chars@.skip(at as int)) =~= Seq::empty());
    assert(views(found@) =~= words(chars@));
    found
}

/// Split a text into lines.
pub fn split_lines(chars: &[char]) -> (found: Vec<Vec<char>>)
    ensures
        views(found@) == lines(chars@),
{
    let mut found: Vec<Vec<char>> = Vec::new();
    let end: usize = chars.len();
    let mut at: usize = 0;
    assert(chars@.skip(0) =~= chars@);
    assert(views(found@) =~= Seq::empty());
    assert(lines(chars@) =~= views(found@) + lines(chars@.skip(0)));
    while at < end
        invariant
            at <= end == chars@.len(),
            lines(chars@) == views(found@) + lines(chars@.skip(at as int)),
        decreases end - at,
    {
        let ghost rest = chars@.skip(at as int);
        let mut stop: usize = at;
        while stop < end && chars[stop] != '\n'
            invariant
                at <= stop <= end == chars@.len(),
                forall|i: int| at <= i < stop ==> (#[trigger] chars@[i]) != '\n',
            decreases end - stop,
        {
            stop = stop + 1;
        }
        let line: Vec<char> = copied(slice_subrange(chars, at, stop));
        proof {
            let n = stop - at;
            assert forall|i: int| 0 <= i < n implies (#[trigger] rest[i]) != '\n' by {
                assert(rest[i] == chars@[at + i]);
            }
            if n < rest.len() {
                assert(rest[n] == chars@[stop as int]);
            }
            lemma_line_len(rest, n);
            assert(line@ =~= rest.take(n));
            if stop < end {
                assert(rest.skip(n + 1) =~= chars@.skip(stop + 1));
            } else {
                assert(rest.take(n) =~= rest);
                assert(chars@.skip(end as int) =~= Seq::empty());
                assert(lines(chars@.skip(end as int)) =~= Seq::empty());
            }
        }
        let ghost before = found@;
        found.push(line);
        at = if stop < end { stop + 1 } else { end };
        proof {
            assert(views(found@) =~= views(before).push(line@));
            assert(lines(chars@) =~= views(found@) + lines(chars@.skip(at as int)));
        }
    }
    assert(lines(chars@.skip(at as int)) =~= Seq::empty());
    assert(views(found@) =~= lines(chars@));
    found
}

/// A text without the white space at its end.
pub open spec fn trimmed_end(s: Seq<char>) -> Seq<char>
    decreases s.len(),
{
    if s.len() > 0 && is_space(s.last()) {
        trimmed_end(s.drop_last())
    } else {
        s
    }
}

/// A text without the white space around it.
pub open spec fn trimmed(s: Seq<char>) -> Seq<char>
    decreases s.len(),
{
    if s.len() > 0 && is_space(s[0]) {
        trimmed(s.drop_first())
    } else {
        trimmed_end(s)
    }
}

/// A text without the white space at its end.
pub fn trim_end(chars: &[char]) -> (rest: &[char])
    ensures
        rest@ == trimmed_end(chars@),
{
    let mut end: usize = chars.len();
    assert(chars@.take(end as int) =~= chars@);
    while end > 0 && space(chars[end - 1])
        invariant
            end <= chars@.len(),
            trimmed_end(chars@) == trimmed_end(chars@.take(end as int)),
        decreases end,
    {
        assert(chars@.take(end as int).drop_last() =~= chars@.take(end - 1));
        end = end - 1;
    }
    let rest: &[char] = slice_subrange(chars, 0, end);
    assert(rest@ =~= chars@.take(end as int));
    rest
}

/// A text without the white space around it.
pub fn trim(chars: &[char]) -> (rest: &[char])
    ensures
        rest@ == trimmed(chars@),
{
    let mut start: usize = 0;
    assert(chars@.skip(0) =~= chars@);
    while start < chars.len() && space(chars[start])
        invariant
            start <= chars@.len(),
            trimmed(chars@) == trimmed(chars@.skip(start as int)),
        decreases chars@.len() - start,
    {
        assert(chars@.skip(start as int).drop_first() =~= chars@.skip(start + 1));
        start = start + 1;
    }
    let rest: &[char] = slice_subrange(chars, start, chars.len());
    assert(rest@ =~= chars@.skip(start as int));
    trim_end(rest)
}

/// How many characters stand before the first `stop`.
pub open spec fn run_before(s: Seq<char>, stop: char) -> nat
    decreases s.len(),
{
    if s.len() == 0 || s[0] == stop {
        0
    } else {
        1 + run_before(s.drop_first(), stop)
    }
}

/// How many characters stand before the first `stop`.
pub fn find(chars: &[char], stop: char) -> (n: usize)
    ensures
        n == run_before(chars@, stop),
        n <= chars@.len(),
        n < chars@.len() ==> chars@[n as int] == stop,
{
    let mut n: usize = 0;
    assert(chars@.skip(0) =~= chars@);
    while n < chars.len() && chars[n] != stop
        invariant
            n <= chars@.len(),
            run_before(chars@, stop) == n + run_before(chars@.skip(n as int), stop),
        decreases chars@.len() - n,
    {
        assert(chars@.skip(n as int).drop_first() =~= chars@.skip(n + 1));
        n = n + 1;
    }
    n
}

/// A character with ASCII capitals made small.
pub open spec fn small(c: char) -> char {
    if 'A' <= c <= 'Z' {
        ((c as u8) + 32) as u8 as char
    } else {
        c
    }
}

/// A text with ASCII capitals made small.
pub open spec fn lowered(s: Seq<char>) -> Seq<char> {
    s.map_values(|c: char| small(c))
}

/// A copy of a text with ASCII capitals made small.
pub fn to_lower(chars: &[char]) -> (low: Vec<char>)
    ensures
        low@ == lowered(chars@),
{
    let mut low: Vec<char> = Vec::new();
    let mut i: usize = 0;
    while i < chars.len()
        invariant
            i <= chars@.len(),
            low@ == lowered(chars@.take(i as int)),
        decreases chars@.len() - i,
    {
        let c: char = chars[i];
        if 'A' <= c && c <= 'Z' {
            low.push((c as u8 + 32) as char);
        } else {
            low.push(c);
        }
        i = i + 1;
        assert(low@ =~= lowered(chars@.take(i as int)));
    }
    assert(chars@.take(i as int) =~= chars@);
    low
}


/// Whether one text comes strictly before another: character by character, and
/// the shorter first where one continues the other.
pub open spec fn text_before(a: Seq<char>, b: Seq<char>) -> bool
    decreases a.len(),
{
    if b.len() == 0 {
        false
    } else if a.len() == 0 {
        true
    } else {
        a[0] < b[0] || (a[0] == b[0] && text_before(a.drop_first(), b.drop_first()))
    }
}

/// Whether one text comes strictly before another.
pub fn comes_before(a: &[char], b: &[char]) -> (yes: bool)
    ensures
        yes == text_before(a@, b@),
{
    let mut i: usize = 0;
    assert(a@.skip(0) =~= a@);
    assert(b@.skip(0) =~= b@);
    loop
        invariant
            i <= a@.len(),
            i <= b@.len(),
            text_before(a@, b@) == text_before(a@.skip(i as int), b@.skip(i as int)),
        decreases a@.len() - i,
    {
        if i == b.len() {
            return false;
        }
        if i == a.len() {
            return true;
        }
        assert(a@.skip(i as int)[0] == a@[i as int]);
        assert(b@.skip(i as int)[0] == b@[i as int]);
        assert(a@.skip(i as int).drop_first() =~= a@.skip(i + 1));
        assert(b@.skip(i as int).drop_first() =~= b@.skip(i + 1));
        if a[i] < b[i] {
            return true;
        }
        if a[i] != b[i] {
            return false;
        }
        i = i + 1;
    }
}

/// Of two different texts one comes before the other, never both, and no text
/// comes before itself.
pub proof fn text_order_is_total(a: Seq<char>, b: Seq<char>)
    ensures
        a != b ==> text_before(a, b) || text_before(b, a),
        !(text_before(a, b) && text_before(b, a)),
        !text_before(a, a),
    decreases a.len(),
{
    if a.len() > 0 {
        text_order_is_total(a.drop_first(), a.drop_first());
        if b.len() > 0 {
            text_order_is_total(a.drop_first(), b.drop_first());
            if a[0] == b[0] && a.drop_first() == b.drop_first() {
                assert(a =~= seq![a[0]] + a.drop_first());
                assert(b =~= seq![b[0]] + b.drop_first());
            }
        }
    } else if b.len() == 0 {
        assert(a =~= b);
    }
}

/// The order of texts is transitive.
pub proof fn text_order_is_transitive(a: Seq<char>, b: Seq<char>, c: Seq<char>)
    requires
        text_before(a, b),
        text_before(b, c),
    ensures
        text_before(a, c),
    decreases a.len(),
{
    if a.len() > 0 && a[0] == b[0] && b[0] == c[0] {
        text_order_is_transitive(a.drop_first(), b.drop_first(), c.drop_first());
    }
}


/// Whether a text is one word.
pub open spec fn is_word(s: Seq<char>) -> bool {
    s.len() > 0 && forall|i: int| 0 <= i < s.len() ==> !is_space(#[trigger] s[i])
}

/// A word is the one word of its text.
pub proof fn a_word_is_one_word(a: Seq<char>)
    requires
        is_word(a),
    ensures
        words(a) == seq![a],
{
    lemma_word_len(a, a.len() as int);
    assert(!is_space(a[0]));
    assert(a.take(a.len() as int) =~= a);
    assert(a.skip(a.len() as int) =~= Seq::empty());
    assert(words(a.skip(a.len() as int)) =~= Seq::empty());
    assert(seq![a] + Seq::<Seq<char>>::empty() =~= seq![a]);
}

/// A word, a space and a text are the word and then the words of the text.
pub proof fn words_split_at_a_space(a: Seq<char>, rest: Seq<char>)
    requires
        is_word(a),
    ensures
        words(a + " "@ + rest) == seq![a] + words(rest),
{
    reveal_strlit(" ");
    let n = a.len() as int;
    let whole = a + " "@ + rest;
    assert(" "@.len() == 1 && " "@[0] == ' ');
    assert(whole[n] == ' ');
    assert forall|i: int| 0 <= i < n implies !is_space(#[trigger] whole[i]) by {
        assert(whole[i] == a[i]);
    }
    lemma_word_len(whole, n);
    assert(!is_space(whole[0]));
    assert(whole.take(n) =~= a);
    let tail = whole.skip(n);
    assert(tail[0] == ' ');
    assert(tail.drop_first() =~= rest);
    assert(words(tail) == words(rest));
}

} // verus!
