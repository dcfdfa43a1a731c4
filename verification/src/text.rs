//! Text as sequences of characters.

use vstd::prelude::*;
use vstd::string::*;
use vstd::utf8::*;

use crate::bytes::bytes_equal;
use crate::seqs::{lemma_insert_to_set, lemma_push_to_set};

verus! {

/// `std::string::String::push`: appends one character.
pub assume_specification[ std::string::String::push ](s: &mut String, ch: char)
    ensures
        final(s)@ == old(s)@.push(ch),
;

/// Whether two texts hold the same characters.
pub fn text_equal(a: &str, b: &str) -> (r: bool)
    ensures
        r == (a@ == b@),
{
    proof {
        encode_utf8_decode_utf8(a@);
        encode_utf8_decode_utf8(b@);
    }
    bytes_equal(a.as_bytes(), b.as_bytes())
}

/// The characters of a text, one by one.
pub fn chars_of(s: &str) -> (r: Vec<char>)
    ensures
        r@ == s@,
{
    let mut out: Vec<char> = Vec::new();
    for c in it: s.chars()
        invariant
            it.seq() == s@,
            out@ == s@.take(it.index()),
    {
        out.push(c);
        assert(s@.take(it.index() + 1) =~= s@.take(it.index()).push(c));
    }
    assert(s@.take(s@.len() as int) =~= s@);
    out
}

/// A text of the given characters.
pub fn text_of(chars: &[char]) -> (r: String)
    ensures
        r@ == chars@,
{
    let mut out: String = String::new();
    let mut i: usize = 0;
    assert(chars@.take(0) =~= Seq::<char>::empty());
    while i < chars.len()
        invariant
            i <= chars.len(),
            out@ == chars@.take(i as int),
        decreases chars.len() - i,
    {
        out.push(chars[i]);
        i += 1;
        assert(chars@.take(i as int) =~= chars@.take(i - 1).push(chars@[i - 1]));
    }
    assert(chars@.take(i as int) =~= chars@);
    out
}

/// The texts that a sequence of strings holds.
pub open spec fn text_views(v: Seq<String>) -> Seq<Seq<char>> {
    Seq::new(v.len(), |i: int| v[i]@)
}

/// Whether `texts` holds the text `wanted`.
pub fn contains_text(texts: &Vec<String>, wanted: &str) -> (r: bool)
    ensures
        r == text_views(texts@).contains(wanted@),
{
    let mut i: usize = 0;
    while i < texts.len()
        invariant
            i <= texts.len(),
            forall|k: int| 0 <= k < i ==> (#[trigger] texts@[k])@ != wanted@,
        decreases texts.len() - i,
    {
        if text_equal(texts[i].as_str(), wanted) {
            assert(text_views(texts@)[i as int] == wanted@);
            return true;
        }
        i += 1;
    }
    assert forall|k: int| 0 <= k < text_views(texts@).len() implies text_views(texts@)[k]
        != wanted@ by {
        assert(texts@[k]@ != wanted@);
    }
    false
}

/// Lexicographic order by code point.
pub open spec fn text_le(a: Seq<char>, b: Seq<char>) -> bool
    decreases a.len(),
{
    if a.len() == 0 {
        true
    } else if b.len() == 0 {
        false
    } else if a[0] == b[0] {
        text_le(a.skip(1), b.skip(1))
    } else {
        a[0] < b[0]
    }
}

/// Decides the lexicographic order of two character slices.
pub fn chars_le(a: &[char], b: &[char]) -> (r: bool)
    ensures
        r == text_le(a@, b@),
{
    let mut i: usize = 0;
    assert(a@.skip(0) =~= a@);
    assert(b@.skip(0) =~= b@);
    while i < a.len() && i < b.len()
        invariant
            i <= a.len(),
            i <= b.len(),
            text_le(a@, b@) == text_le(a@.skip(i as int), b@.skip(i as int)),
        decreases a.len() - i,
    {
        proof {
            assert(a@.skip(i as int)[0] == a@[i as int]);
            assert(b@.skip(i as int)[0] == b@[i as int]);
            assert(a@.skip(i as int).skip(1) =~= a@.skip(i + 1));
            assert(b@.skip(i as int).skip(1) =~= b@.skip(i + 1));
        }
        if a[i] != b[i] {
            return a[i] < b[i];
        }
        i += 1;
    }
    i >= a.len()
}

pub proof fn text_le_is_total(a: Seq<char>, b: Seq<char>)
    ensures
        text_le(a, b) || text_le(b, a),
        text_le(a, b) && text_le(b, a) ==> a == b,
    decreases a.len(),
{
    if a.len() > 0 && b.len() > 0 && a[0] == b[0] {
        text_le_is_total(a.skip(1), b.skip(1));
        if a.skip(1) == b.skip(1) {
            assert(a =~= b) by {
                assert forall|i: int| 0 <= i < a.len() implies a[i] == b[i] by {
                    if i > 0 {
                        assert(a.skip(1)[i - 1] == b.skip(1)[i - 1]);
                    }
                }
                assert(a.skip(1).len() == b.skip(1).len());
            }
        }
    }
    if a.len() == 0 && b.len() == 0 {
        assert(a =~= b);
    }
}

pub proof fn text_le_is_transitive(a: Seq<char>, b: Seq<char>, c: Seq<char>)
    requires
        text_le(a, b),
        text_le(b, c),
    ensures
        text_le(a, c),
    decreases a.len(),
{
    if a.len() > 0 && b.len() > 0 && c.len() > 0 && a[0] == b[0] && b[0] == c[0] {
        text_le_is_transitive(a.skip(1), b.skip(1), c.skip(1));
    }
}

/// The characters that Unicode counts as white space.
pub open spec fn is_white(c: char) -> bool {
    ||| 0x09 <= c as int <= 0x0d
    ||| c as int == 0x20
    ||| c as int == 0x85
    ||| c as int == 0xa0
    ||| c as int == 0x1680
    ||| 0x2000 <= c as int <= 0x200a
    ||| c as int == 0x2028
    ||| c as int == 0x2029
    ||| c as int == 0x202f
    ||| c as int == 0x205f
    ||| c as int == 0x3000
}

/// Whether a character is white space.
pub fn white(c: char) -> (r: bool)
    ensures
        r == is_white(c),
{
    let n: u32 = c as u32;
    (0x09 <= n && n <= 0x0d) || n == 0x20 || n == 0x85 || n == 0xa0 || n == 0x1680 || (0x2000 <= n && n
        <= 0x200a) || n == 0x2028 || n == 0x2029 || n == 0x202f || n == 0x205f || n == 0x3000
}

/// A text without white space at its start.
pub open spec fn start_trimmed(s: Seq<char>) -> Seq<char>
    decreases s.len(),
{
    if s.len() > 0 && is_white(s[0]) {
        start_trimmed(s.skip(1))
    } else {
        s
    }
}

/// A text without white space at its end.
pub open spec fn end_trimmed(s: Seq<char>) -> Seq<char>
    decreases s.len(),
{
    if s.len() > 0 && is_white(s.last()) {
        end_trimmed(s.drop_last())
    } else {
        s
    }
}

/// A text without white space at either end.
pub open spec fn trimmed(s: Seq<char>) -> Seq<char> {
    end_trimmed(start_trimmed(s))
}

/// Trims white space off both ends.
pub fn trim(chars: &[char]) -> (r: Vec<char>)
    ensures
        r@ == trimmed(chars@),
{
    let mut start: usize = 0;
    assert(chars@.skip(0) =~= chars@);
    while start < chars.len() && white(chars[start])
        invariant
            start <= chars.len(),
            start_trimmed(chars@) == start_trimmed(chars@.skip(start as int)),
        decreases chars.len() - start,
    {
        assert(chars@.skip(start as int).skip(1) =~= chars@.skip(start + 1));
        start += 1;
    }
    let mut end: usize = chars.len();
    let ghost rest = chars@.skip(start as int);
    assert(chars@.subrange(start as int, end as int) =~= rest);
    while end > start && white(chars[end - 1])
        invariant
            start <= end <= chars.len(),
            rest == chars@.skip(start as int),
            end_trimmed(rest) == end_trimmed(chars@.subrange(start as int, end as int)),
        decreases end - start,
    {
        let ghost now = chars@.subrange(start as int, end as int);
        assert(now.last() == chars@[end - 1]);
        assert(now.drop_last() =~= chars@.subrange(start as int, end - 1));
        end -= 1;
    }
    let mut out: Vec<char> = Vec::new();
    let mut i: usize = start;
    while i < end
        invariant
            start <= i <= end <= chars.len(),
            out@ == chars@.subrange(start as int, i as int),
        decreases end - i,
    {
        out.push(chars[i]);
        assert(chars@.subrange(start as int, i + 1) =~= chars@.subrange(start as int, i as int).push(
            chars@[i as int],
        ));
        i += 1;
    }
    out
}

/// Trimming leaves nothing to trim.
pub proof fn trimming_is_final(s: Seq<char>)
    ensures
        trimmed(trimmed(s)) == trimmed(s),
        trimmed(s).len() > 0 ==> !is_white(trimmed(s)[0]) && !is_white(trimmed(s).last()),
{
    let t = start_trimmed(s);
    lemma_start_trimmed(s);
    lemma_end_trimmed(t);
    let u = end_trimmed(t);
    if u.len() > 0 {
        assert(u[0] == t[0]);
    }
    assert(start_trimmed(u) == u);
}

proof fn lemma_start_trimmed(s: Seq<char>)
    ensures
        start_trimmed(s).len() > 0 ==> !is_white(start_trimmed(s)[0]),
    decreases s.len(),
{
    if s.len() > 0 && is_white(s[0]) {
        lemma_start_trimmed(s.skip(1));
    }
}

proof fn lemma_end_trimmed(s: Seq<char>)
    ensures
        end_trimmed(s).len() <= s.len(),
        end_trimmed(s) == s.take(end_trimmed(s).len() as int),
        end_trimmed(s).len() > 0 ==> !is_white(end_trimmed(s).last()),
        end_trimmed(end_trimmed(s)) == end_trimmed(s),
    decreases s.len(),
{
    if s.len() > 0 && is_white(s.last()) {
        lemma_end_trimmed(s.drop_last());
        let t = end_trimmed(s.drop_last());
        assert(t =~= s.take(t.len() as int));
    } else {
        assert(s =~= s.take(s.len() as int));
    }
}

/// The texts that a sequence of character vectors holds.
pub open spec fn char_views(v: Seq<Vec<char>>) -> Seq<Seq<char>> {
    Seq::new(v.len(), |i: int| v[i]@)
}

/// The pieces between separators. There is always one more than separators.
pub open spec fn pieces(s: Seq<char>, separates: spec_fn(char) -> bool) -> Seq<Seq<char>>
    decreases s.len(),
{
    if s.len() == 0 {
        seq![Seq::empty()]
    } else {
        let before = pieces(s.drop_last(), separates);
        if separates(s.last()) {
            before.push(Seq::empty())
        } else {
            before.drop_last().push(before.last().push(s.last()))
        }
    }
}

/// The separators given one by one.
pub open spec fn one_of(separators: Seq<char>) -> spec_fn(char) -> bool {
    |c: char| separators.contains(c)
}

/// White space as separator.
pub open spec fn white_space() -> spec_fn(char) -> bool {
    |c: char| is_white(c)
}

/// Whether a character is one of the given ones.
fn is_one_of(c: char, separators: &[char]) -> (r: bool)
    ensures
        r == separators@.contains(c),
{
    let mut i: usize = 0;
    while i < separators.len()
        invariant
            i <= separators.len(),
            forall|k: int| 0 <= k < i ==> separators@[k] != c,
        decreases separators.len() - i,
    {
        if separators[i] == c {
            return true;
        }
        i += 1;
    }
    false
}

/// Splits a text at each of the separators.
pub fn split_at(chars: &[char], separators: &[char]) -> (r: Vec<Vec<char>>)
    ensures
        char_views(r@) == pieces(chars@, one_of(separators@)),
        r@.len() > 0,
{
    let ghost separates = one_of(separators@);
    let mut done: Vec<Vec<char>> = Vec::new();
    let mut current: Vec<char> = Vec::new();
    let mut i: usize = 0;
    assert(chars@.take(0) =~= Seq::<char>::empty());
    assert(char_views(done@).push(current@) =~= pieces(chars@.take(0), separates));
    while i < chars.len()
        invariant
            i <= chars.len(),
            separates == one_of(separators@),
            char_views(done@).push(current@) == pieces(chars@.take(i as int), separates),
        decreases chars.len() - i,
    {
        let ghost before = char_views(done@);
        let ghost open = current@;
        let ghost longer = chars@.take(i + 1);
        proof {
            assert(longer.drop_last() =~= chars@.take(i as int));
            assert(longer.last() == chars@[i as int]);
            assert(before.push(open).drop_last() =~= before);
            assert(before.push(open).last() == open);
        }
        if is_one_of(chars[i], separators) {
            done.push(current);
            current = Vec::new();
            assert(char_views(done@) =~= before.push(open));
        } else {
            current.push(chars[i]);
        }
        i += 1;
    }
    let ghost before = char_views(done@);
    let ghost open = current@;
    done.push(current);
    assert(char_views(done@) =~= before.push(open));
    assert(chars@.take(i as int) =~= chars@);
    done
}

/// The words of a text: the pieces between white space that are not empty.
pub open spec fn words(s: Seq<char>) -> Seq<Seq<char>> {
    pieces(s, white_space()).filter(|piece: Seq<char>| piece.len() > 0)
}

/// Splits a text into its words.
pub fn split_words(chars: &[char]) -> (r: Vec<Vec<char>>)
    ensures
        char_views(r@) == words(chars@),
{
    let ghost separates = white_space();
    let ghost filled = |piece: Seq<char>| piece.len() > 0;
    let mut done: Vec<Vec<char>> = Vec::new();
    let mut current: Vec<char> = Vec::new();
    let mut i: usize = 0;
    let ghost mut closed: Seq<Seq<char>> = Seq::empty();
    proof {
        assert(chars@.take(0) =~= Seq::<char>::empty());
        assert(closed.push(current@) =~= pieces(chars@.take(0), separates));
        reveal(Seq::filter);
        assert(char_views(done@) =~= closed.filter(filled));
    }
    while i < chars.len()
        invariant
            i <= chars.len(),
            separates == white_space(),
            filled == (|piece: Seq<char>| piece.len() > 0),
            closed.push(current@) == pieces(chars@.take(i as int), separates),
            char_views(done@) == closed.filter(filled),
        decreases chars.len() - i,
    {
        let ghost before = char_views(done@);
        let ghost earlier = closed;
        let ghost open = current@;
        let ghost longer = chars@.take(i + 1);
        proof {
            assert(longer.drop_last() =~= chars@.take(i as int));
            assert(longer.last() == chars@[i as int]);
            assert(earlier.push(open).drop_last() =~= earlier);
            assert(earlier.push(open).last() == open);
            lemma_filter_push(earlier, open, filled);
        }
        if white(chars[i]) {
            proof {
                closed = earlier.push(open);
            }
            if current.len() > 0 {
                done.push(current);
                assert(char_views(done@) =~= before.push(open));
            }
            current = Vec::new();
        } else {
            current.push(chars[i]);
        }
        i += 1;
    }
    proof {
        lemma_filter_push(closed, current@, filled);
        assert(chars@.take(i as int) =~= chars@);
    }
    let ghost before = char_views(done@);
    let ghost open = current@;
    if current.len() > 0 {
        done.push(current);
        assert(char_views(done@) =~= before.push(open));
    }
    done
}

proof fn lemma_filter_push<T>(s: Seq<T>, x: T, pred: spec_fn(T) -> bool)
    ensures
        s.push(x).filter(pred) == if pred(x) {
            s.filter(pred).push(x)
        } else {
            s.filter(pred)
        },
{
    reveal(Seq::filter);
    assert(s.push(x).drop_last() =~= s);
}

/// The text starts with the given one.
pub open spec fn begins_with(s: Seq<char>, prefix: Seq<char>) -> bool {
    s.len() >= prefix.len() && s.take(prefix.len() as int) == prefix
}

/// The text ends with the given one.
pub open spec fn finishes_with(s: Seq<char>, suffix: Seq<char>) -> bool {
    s.len() >= suffix.len() && s.skip(s.len() - suffix.len()) == suffix
}

/// Whether a text starts with the given one.
pub fn has_prefix(chars: &[char], prefix: &str) -> (r: bool)
    ensures
        r == begins_with(chars@, prefix@),
{
    let wanted = chars_of(prefix);
    if chars.len() < wanted.len() {
        return false;
    }
    let mut i: usize = 0;
    while i < wanted.len()
        invariant
            i <= wanted.len() <= chars.len(),
            wanted@ == prefix@,
            forall|k: int| 0 <= k < i ==> chars@[k] == wanted@[k],
        decreases wanted.len() - i,
    {
        if chars[i] != wanted[i] {
            assert(chars@.take(wanted@.len() as int)[i as int] == chars@[i as int]);
            return false;
        }
        i += 1;
    }
    assert(chars@.take(wanted@.len() as int) =~= wanted@);
    true
}

/// Whether a text ends with the given one.
pub fn has_suffix(chars: &[char], suffix: &str) -> (r: bool)
    ensures
        r == finishes_with(chars@, suffix@),
{
    let wanted = chars_of(suffix);
    if chars.len() < wanted.len() {
        return false;
    }
    let start: usize = chars.len() - wanted.len();
    let mut i: usize = 0;
    while i < wanted.len()
        invariant
            i <= wanted.len() <= chars.len(),
            start == chars.len() - wanted.len(),
            wanted@ == suffix@,
            forall|k: int| 0 <= k < i ==> chars@[start + k] == wanted@[k],
        decreases wanted.len() - i,
    {
        if chars[start + i] != wanted[i] {
            assert(chars@.skip(start as int)[i as int] == chars@[start + i]);
            return false;
        }
        i += 1;
    }
    assert(chars@.skip(start as int) =~= wanted@);
    true
}

/// The characters from `start` up to `end`.
pub fn part(chars: &[char], start: usize, end: usize) -> (r: Vec<char>)
    requires
        start <= end <= chars@.len(),
    ensures
        r@ == chars@.subrange(start as int, end as int),
{
    let mut out: Vec<char> = Vec::new();
    let mut i: usize = start;
    while i < end
        invariant
            start <= i <= end <= chars@.len(),
            out@ == chars@.subrange(start as int, i as int),
        decreases end - i,
    {
        out.push(chars[i]);
        assert(chars@.subrange(start as int, i + 1) =~= chars@.subrange(start as int, i as int).push(
            chars@[i as int],
        ));
        i += 1;
    }
    out
}

/// Whether the characters are those of the text.
pub fn chars_are(chars: &[char], text: &str) -> (r: bool)
    ensures
        r == (chars@ == text@),
{
    let wanted = chars_of(text);
    if chars.len() != wanted.len() {
        return false;
    }
    let mut i: usize = 0;
    while i < chars.len()
        invariant
            i <= chars.len(),
            chars@.len() == wanted@.len(),
            wanted@ == text@,
            forall|k: int| 0 <= k < i ==> chars@[k] == wanted@[k],
        decreases chars.len() - i,
    {
        if chars[i] != wanted[i] {
            return false;
        }
        i += 1;
    }
    assert(chars@ =~= text@);
    true
}

/// Each text is in its place, and none occurs twice.
pub open spec fn texts_ascend(texts: Seq<Seq<char>>) -> bool {
    forall|i: int, j: int|
        0 <= i < j < texts.len() ==> text_le(#[trigger] texts[i], #[trigger] texts[j]) && texts[i]
            != texts[j]
}

/// Whether one text stands before another or equals it.
pub fn is_text_le(a: &str, b: &str) -> (r: bool)
    ensures
        r == text_le(a@, b@),
{
    let left = chars_of(a);
    let right = chars_of(b);
    chars_le(left.as_slice(), right.as_slice())
}

/// The text that an optional one holds.
pub open spec fn optional_text(text: Option<String>) -> Option<Seq<char>> {
    match text {
        Some(text) => Some(text@),
        None => None,
    }
}

/// A copy of an optional text.
pub fn copy_text(text: &Option<String>) -> (r: Option<String>)
    ensures
        optional_text(r) == optional_text(*text),
{
    match text {
        Some(text) => Some(text.as_str().to_owned()),
        None => None,
    }
}

/// The text that an optional borrowed one holds.
pub open spec fn lent_text(text: Option<&str>) -> Option<Seq<char>> {
    match text {
        Some(text) => Some(text@),
        None => None,
    }
}

/// The given texts in ascending order, each of them once.
pub fn sorted_texts(texts: &Vec<String>) -> (r: Vec<String>)
    ensures
        texts_ascend(text_views(r@)),
        text_views(r@).to_set() == text_views(texts@).to_set(),
{
    let ghost given = text_views(texts@);
    let mut sorted: Vec<String> = Vec::new();
    let mut i: usize = 0;
    assert(text_views(sorted@).to_set() =~= given.take(0).to_set());
    while i < texts.len()
        invariant
            i <= texts.len(),
            given == text_views(texts@),
            texts_ascend(text_views(sorted@)),
            text_views(sorted@).to_set() == given.take(i as int).to_set(),
        decreases texts.len() - i,
    {
        let ghost before = text_views(sorted@);
        let ghost next = given[i as int];
        let mut at: usize = 0;
        while at < sorted.len() && !is_text_le(texts[i].as_str(), sorted[at].as_str())
            invariant
                at <= sorted.len(),
                i < texts.len(),
                before == text_views(sorted@),
                next == texts@[i as int]@,
                forall|k: int| 0 <= k < at ==> !text_le(next, #[trigger] before[k]),
            decreases sorted.len() - at,
        {
            at += 1;
        }
        let known = at < sorted.len() && text_equal(texts[i].as_str(), sorted[at].as_str());
        if !known {
            sorted.insert(at, texts[i].clone());
        }
        proof {
            let after = text_views(sorted@);
            assert(given.take(i + 1) =~= given.take(i as int).push(next));
            if known {
                assert(before[at as int] == next);
                assert(given.take(i + 1).to_set() =~= given.take(i as int).to_set()) by {
                    lemma_push_to_set(given.take(i as int), next);
                    assert(before.contains(next));
                    assert(given.take(i as int).to_set().contains(next));
                }
            } else {
                assert(after =~= before.insert(at as int, next));
                lemma_insert_ascends(before, at as int, next);
                lemma_push_to_set(given.take(i as int), next);
                lemma_insert_to_set(before, at as int, next);
                assert(after.to_set() =~= given.take(i + 1).to_set());
            }
        }
        i += 1;
    }
    assert(given.take(i as int) =~= given);
    sorted
}

pub proof fn lemma_insert_ascends(s: Seq<Seq<char>>, at: int, x: Seq<char>)
    requires
        texts_ascend(s),
        0 <= at <= s.len(),
        forall|k: int| 0 <= k < at ==> !text_le(x, #[trigger] s[k]),
        at < s.len() ==> text_le(x, s[at]) && s[at] != x,
    ensures
        texts_ascend(s.insert(at, x)),
{
    let longer = s.insert(at, x);
    assert forall|i: int, j: int| 0 <= i < j < longer.len() implies text_le(
        #[trigger] longer[i],
        #[trigger] longer[j],
    ) && longer[i] != longer[j] by {
        if j < at {
            assert(longer[i] == s[i] && longer[j] == s[j]);
        } else if j == at {
            assert(longer[i] == s[i]);
            text_le_is_total(x, s[i]);
        } else if i > at {
            assert(longer[i] == s[i - 1] && longer[j] == s[j - 1]);
        } else if i == at {
            assert(longer[j] == s[j - 1]);
            if j - 1 > at {
                text_le_is_transitive(x, s[at], s[j - 1]);
                text_le_is_total(x, s[j - 1]);
                text_le_is_total(s[at], s[j - 1]);
                if x == s[j - 1] {
                    assert(text_le(s[j - 1], s[at]));
                }
            }
        } else {
            assert(longer[i] == s[i] && longer[j] == s[j - 1]);
            assert(i < j - 1 || i == j - 1);
            if i < j - 1 {
                assert(text_le(s[i], s[j - 1]));
            }
        }
    }
}

/// Whether two optional texts are the same.
pub fn same_optional_text(a: &Option<String>, b: &Option<String>) -> (r: bool)
    ensures
        r == (optional_text(*a) == optional_text(*b)),
{
    match (a, b) {
        (Some(a), Some(b)) => text_equal(a.as_str(), b.as_str()),
        (None, None) => true,
        _ => false,
    }
}

/// A pair of texts.
pub type TextPair = (Seq<char>, Seq<char>);

/// The texts of a sequence of pairs.
pub open spec fn pair_views(pairs: Seq<(String, String)>) -> Seq<TextPair> {
    Seq::new(pairs.len(), |k: int| (pairs[k].0@, pairs[k].1@))
}

/// Order by the first text, then by the second.
pub open spec fn pair_le(a: TextPair, b: TextPair) -> bool {
    if a.0 == b.0 {
        text_le(a.1, b.1)
    } else {
        text_le(a.0, b.0)
    }
}

pub open spec fn pairs_in_order(pairs: Seq<TextPair>) -> bool {
    forall|i: int, j: int|
        0 <= i < j < pairs.len() ==> pair_le(#[trigger] pairs[i], #[trigger] pairs[j])
}

fn is_pair_le(a: &(String, String), b: &(String, String)) -> (r: bool)
    ensures
        r == pair_le((a.0@, a.1@), (b.0@, b.1@)),
{
    if text_equal(a.0.as_str(), b.0.as_str()) {
        is_text_le(a.1.as_str(), b.1.as_str())
    } else {
        is_text_le(a.0.as_str(), b.0.as_str())
    }
}

proof fn lemma_pair_order(a: TextPair, b: TextPair, c: TextPair)
    ensures
        pair_le(a, b) || pair_le(b, a),
        pair_le(a, b) && pair_le(b, c) ==> pair_le(a, c),
{
    text_le_is_total(a.0, b.0);
    text_le_is_total(a.1, b.1);
    text_le_is_total(b.0, c.0);
    text_le_is_total(a.0, c.0);
    if pair_le(a, b) && pair_le(b, c) {
        if a.0 == b.0 && b.0 == c.0 {
            text_le_is_transitive(a.1, b.1, c.1);
        } else if a.0 != b.0 && b.0 != c.0 {
            text_le_is_transitive(a.0, b.0, c.0);
            if a.0 == c.0 {
                assert(text_le(b.0, a.0));
            }
        }
    }
}

/// The given pairs in order.
pub fn sorted_pairs(pairs: Vec<(String, String)>) -> (r: Vec<(String, String)>)
    ensures
        pairs_in_order(pair_views(r@)),
        pair_views(r@).to_multiset() == pair_views(pairs@).to_multiset(),
{
    let ghost given = pair_views(pairs@);
    let mut sorted: Vec<(String, String)> = Vec::new();
    let mut i: usize = 0;
    assert(given.take(0) =~= pair_views(sorted@));
    while i < pairs.len()
        invariant
            i <= pairs.len(),
            given == pair_views(pairs@),
            pairs_in_order(pair_views(sorted@)),
            pair_views(sorted@).to_multiset() == given.take(i as int).to_multiset(),
        decreases pairs.len() - i,
    {
        let ghost before = pair_views(sorted@);
        let ghost next = given[i as int];
        let mut at: usize = 0;
        while at < sorted.len() && !is_pair_le(&pairs[i], &sorted[at])
            invariant
                at <= sorted.len(),
                i < pairs.len(),
                before == pair_views(sorted@),
                next == (pairs@[i as int].0@, pairs@[i as int].1@),
                forall|k: int| 0 <= k < at ==> !pair_le(next, #[trigger] before[k]),
            decreases sorted.len() - at,
        {
            at += 1;
        }
        sorted.insert(at, (pairs[i].0.clone(), pairs[i].1.clone()));
        proof {
            let after = pair_views(sorted@);
            assert(after =~= before.insert(at as int, next));
            assert forall|x: int, y: int| 0 <= x < y < after.len() implies pair_le(
                #[trigger] after[x],
                #[trigger] after[y],
            ) by {
                if y < at {
                    assert(after[x] == before[x] && after[y] == before[y]);
                } else if y == at {
                    assert(after[x] == before[x]);
                    lemma_pair_order(next, before[x], next);
                } else if x > at {
                    assert(after[x] == before[x - 1] && after[y] == before[y - 1]);
                } else if x == at {
                    assert(after[y] == before[y - 1]);
                    if y - 1 > at {
                        lemma_pair_order(next, before[at as int], before[y - 1]);
                    }
                } else {
                    assert(after[x] == before[x] && after[y] == before[y - 1]);
                    lemma_pair_order(next, before[x], before[x]);
                    if x < y - 1 {
                        assert(pair_le(before[x], before[y - 1]));
                    }
                }
            }
            lemma_insert_to_multiset(before, at as int, next);
            assert(given.take(i + 1) =~= given.take(i as int).push(next));
            given.take(i as int).to_multiset_ensures();
        }
        i += 1;
    }
    assert(given.take(i as int) =~= given);
    sorted
}

proof fn lemma_insert_to_multiset<T>(s: Seq<T>, at: int, x: T)
    requires
        0 <= at <= s.len(),
    ensures
        s.insert(at, x).to_multiset() == s.to_multiset().insert(x),
{
    let longer = s.insert(at, x);
    longer.to_multiset_ensures();
    assert(longer.remove(at) =~= s);
    assert(longer[at] == x);
    assert(longer.contains(x));
    assert(longer.to_multiset().remove(x).insert(x) =~= longer.to_multiset());
}

/// A text without the given character at its end.
pub open spec fn end_stripped(s: Seq<char>, c: char) -> Seq<char>
    decreases s.len(),
{
    if s.len() > 0 && s.last() == c {
        end_stripped(s.drop_last(), c)
    } else {
        s
    }
}

/// A text without the given character at its end, however often it stands there.
pub fn strip_end(chars: &[char], c: char) -> (r: Vec<char>)
    ensures
        r@ == end_stripped(chars@, c),
{
    let mut end: usize = chars.len();
    assert(chars@.take(end as int) =~= chars@);
    while end > 0 && chars[end - 1] == c
        invariant
            end <= chars.len(),
            end_stripped(chars@.take(end as int), c) == end_stripped(chars@, c),
        decreases end,
    {
        assert(chars@.take(end as int).drop_last() =~= chars@.take(end - 1));
        end -= 1;
    }
    assert(chars@.take(end as int) =~= chars@.subrange(0, end as int));
    part(chars, 0, end)
}

/// One text behind another.
pub fn concat(a: &str, b: &str) -> (r: String)
    ensures
        r@ == a@ + b@,
{
    let mut chars = chars_of(a);
    push_text(&mut chars, b);
    text_of(chars.as_slice())
}

/// Appends a text to characters.
pub fn push_text(out: &mut Vec<char>, text: &str)
    ensures
        final(out)@ == old(out)@ + text@,
{
    let ghost before = out@;
    let more = chars_of(text);
    let mut i: usize = 0;
    assert(out@ =~= before + text@.take(0));
    while i < more.len()
        invariant
            i <= more.len(),
            more@ == text@,
            out@ == before + text@.take(i as int),
        decreases more.len() - i,
    {
        out.push(more[i]);
        i += 1;
        assert(out@ =~= before + text@.take(i as int));
    }
    assert(text@.take(i as int) =~= text@);
}

/// Every character is an ASCII one.
pub open spec fn ascii(s: Seq<char>) -> bool {
    forall|i: int| 0 <= i < s.len() ==> #[trigger] s[i] <= '\u{7f}'
}

/// Whether every character is an ASCII one.
pub fn all_ascii(text: &str) -> (r: bool)
    ensures
        r == ascii(text@),
{
    let chars = chars_of(text);
    let mut i: usize = 0;
    while i < chars.len()
        invariant
            i <= chars.len(),
            chars@ == text@,
            forall|k: int| 0 <= k < i ==> #[trigger] chars@[k] <= '\u{7f}',
        decreases chars.len() - i,
    {
        if chars[i] > '\u{7f}' {
            return false;
        }
        i += 1;
    }
    true
}

/// An ASCII capital as its small letter, and any other character as itself.
pub open spec fn lower(c: char) -> char {
    if 'A' <= c <= 'Z' {
        (c as int + 32) as char
    } else {
        c
    }
}

/// A text with ASCII capitals as small letters.
pub open spec fn lowered(s: Seq<char>) -> Seq<char> {
    Seq::new(s.len(), |i: int| lower(s[i]))
}

/// An ASCII capital as its small letter, and any other character as itself.
pub fn to_lower(c: char) -> (r: char)
    ensures
        r == lower(c),
{
    if 'A' <= c && c <= 'Z' {
        (c as u8 + 32) as char
    } else {
        c
    }
}

/// Characters with ASCII capitals as small letters.
pub fn lowercase(chars: &[char]) -> (r: Vec<char>)
    ensures
        r@ == lowered(chars@),
{
    let mut out: Vec<char> = Vec::new();
    let mut i: usize = 0;
    while i < chars.len()
        invariant
            i <= chars.len(),
            out@.len() == i,
            forall|k: int| 0 <= k < i ==> #[trigger] out@[k] == lower(chars@[k]),
        decreases chars.len() - i,
    {
        out.push(to_lower(chars[i]));
        i += 1;
    }
    assert(out@ =~= lowered(chars@));
    out
}

/// Every character is white space.
pub open spec fn all_white(s: Seq<char>) -> bool {
    forall|i: int| 0 <= i < s.len() ==> is_white(#[trigger] s[i])
}

proof fn lemma_start_cut(s: Seq<char>) -> (n: int)
    ensures
        0 <= n <= s.len(),
        start_trimmed(s) == s.skip(n),
        all_white(s.take(n)),
    decreases s.len(),
{
    if s.len() > 0 && is_white(s[0]) {
        let m = lemma_start_cut(s.skip(1));
        assert(s.skip(1).skip(m) =~= s.skip(m + 1));
        assert forall|i: int| 0 <= i < m + 1 implies is_white(#[trigger] s.take(m + 1)[i]) by {
            if i > 0 {
                assert(s.skip(1).take(m)[i - 1] == s[i]);
            }
        }
        m + 1
    } else {
        assert(s.skip(0) =~= s);
        0
    }
}

proof fn lemma_end_cut(s: Seq<char>) -> (n: int)
    ensures
        0 <= n <= s.len(),
        end_trimmed(s) == s.take(n),
        all_white(s.skip(n)),
    decreases s.len(),
{
    if s.len() > 0 && is_white(s.last()) {
        let short = s.drop_last();
        let m = lemma_end_cut(short);
        assert(short.take(m) =~= s.take(m));
        assert forall|i: int| 0 <= i < s.len() - m implies is_white(#[trigger] s.skip(m)[i]) by {
            if i < short.len() - m {
                assert(short.skip(m)[i] == s[m + i]);
            }
        }
        m
    } else {
        assert(s.take(s.len() as int) =~= s);
        s.len() as int
    }
}

/// All that trimming takes is white space at the two ends.
pub proof fn trimming_takes_white_ends(s: Seq<char>) -> (cut: (int, int))
    ensures
        0 <= cut.0 <= cut.1 <= s.len(),
        trimmed(s) == s.subrange(cut.0, cut.1),
        all_white(s.take(cut.0)),
        all_white(s.skip(cut.1)),
{
    let a = lemma_start_cut(s);
    let rest = s.skip(a);
    let b = lemma_end_cut(rest);
    assert(rest.take(b) =~= s.subrange(a, a + b));
    assert(rest.skip(b) =~= s.skip(a + b));
    (a, a + b)
}

/// A text without separators is one piece.
pub proof fn whole_text_is_one_piece(s: Seq<char>, separates: spec_fn(char) -> bool)
    requires
        forall|i: int| 0 <= i < s.len() ==> !separates(#[trigger] s[i]),
    ensures
        pieces(s, separates) == seq![s],
    decreases s.len(),
{
    if s.len() > 0 {
        let short = s.drop_last();
        assert forall|i: int| 0 <= i < short.len() implies !separates(#[trigger] short[i]) by {
            assert(short[i] == s[i]);
        }
        whole_text_is_one_piece(short, separates);
        assert(!separates(s[s.len() - 1]));
        assert(short.push(s.last()) =~= s);
        assert(pieces(s, separates) =~= seq![s]);
    } else {
        assert(s =~= Seq::<char>::empty());
    }
}

/// A separator ends one piece and starts the next.
pub proof fn separator_parts_the_pieces(
    a: Seq<char>,
    c: char,
    b: Seq<char>,
    separates: spec_fn(char) -> bool,
)
    requires
        separates(c),
    ensures
        pieces(a.push(c) + b, separates) == pieces(a, separates) + pieces(b, separates),
    decreases b.len(),
{
    lemma_some_piece(b, separates);
    if b.len() > 0 {
        let all = a.push(c) + b;
        let short = b.drop_last();
        assert(all.drop_last() =~= a.push(c) + short);
        assert(all.last() == b.last());
        separator_parts_the_pieces(a, c, short, separates);
        lemma_some_piece(short, separates);
        let left = pieces(a, separates);
        let right = pieces(short, separates);
        if separates(b.last()) {
            assert((left + right).push(Seq::empty()) =~= left + right.push(Seq::empty()));
        } else {
            assert((left + right).last() == right.last());
            assert((left + right).drop_last() =~= left + right.drop_last());
            let grown = right.last().push(b.last());
            assert((left + right.drop_last()).push(grown) =~= left + right.drop_last().push(grown));
        }
    } else {
        let all = a.push(c) + b;
        assert(all =~= a.push(c));
        assert(all.drop_last() =~= a);
        assert(pieces(b, separates) =~= seq![Seq::<char>::empty()]);
        assert(pieces(a, separates).push(Seq::empty()) =~= pieces(a, separates) + pieces(
            b,
            separates,
        ));
    }
}

proof fn lemma_some_piece(s: Seq<char>, separates: spec_fn(char) -> bool)
    ensures
        pieces(s, separates).len() > 0,
    decreases s.len(),
{
    if s.len() > 0 {
        lemma_some_piece(s.drop_last(), separates);
    }
}

/// Texts with one character between them.
pub open spec fn joined(parts: Seq<Seq<char>>, c: char) -> Seq<char>
    decreases parts.len(),
{
    if parts.len() == 0 {
        Seq::empty()
    } else if parts.len() == 1 {
        parts[0]
    } else {
        joined(parts.drop_last(), c).push(c) + parts.last()
    }
}

/// Pieces put together again give the text, and no piece holds the separator.
pub proof fn pieces_give_the_text_back(s: Seq<char>, c: char)
    ensures
        pieces(s, one_of(seq![c])).len() > 0,
        joined(pieces(s, one_of(seq![c])), c) == s,
        forall|k: int|
            0 <= k < pieces(s, one_of(seq![c])).len() ==> !(#[trigger] pieces(
                s,
                one_of(seq![c]),
            )[k]).contains(c),
    decreases s.len(),
{
    let separates = one_of(seq![c]);
    assert forall|d: char| #[trigger] separates(d) <==> d == c by {
        if d == c {
            assert(seq![c][0] == d);
        }
    }
    let parts = pieces(s, separates);
    if s.len() > 0 {
        let short = s.drop_last();
        let before = pieces(short, separates);
        pieces_give_the_text_back(short, c);
        if separates(s.last()) {
            assert(parts.drop_last() =~= before);
            assert(joined(parts, c) =~= short.push(c));
            assert(short.push(c) =~= s);
        } else {
            let grown = before.last().push(s.last());
            assert(parts == before.drop_last().push(grown));
            if before.len() == 1 {
                assert(joined(before, c) == before[0]);
                assert(parts[0] =~= s);
            } else {
                assert(parts.drop_last() =~= before.drop_last());
                assert(joined(parts, c) =~= joined(before, c).push(s.last()));
            }
            assert(joined(parts, c) =~= s);
            assert forall|k: int| 0 <= k < parts.len() implies !(#[trigger] parts[k]).contains(
                c,
            ) by {
                if k < before.len() - 1 {
                    assert(parts[k] == before[k]);
                } else {
                    assert(!before[before.len() - 1].contains(c));
                    if parts[k].contains(c) {
                        let j = choose|j: int| 0 <= j < parts[k].len() && parts[k][j] == c;
                        if j < before.last().len() {
                            assert(before.last()[j] == c);
                        }
                    }
                }
            }
        }
    } else {
        assert(parts =~= seq![Seq::<char>::empty()]);
        assert(joined(parts, c) =~= s);
    }
}

/// Texts without the separator are the pieces of what they are put together to.
pub proof fn joined_texts_are_the_pieces(parts: Seq<Seq<char>>, c: char)
    requires
        parts.len() > 0,
        forall|k: int| 0 <= k < parts.len() ==> !(#[trigger] parts[k]).contains(c),
    ensures
        pieces(joined(parts, c), one_of(seq![c])) == parts,
    decreases parts.len(),
{
    let separates = one_of(seq![c]);
    assert forall|d: char| #[trigger] separates(d) <==> d == c by {
        if d == c {
            assert(seq![c][0] == d);
        }
    }
    let last = parts.last();
    assert(!parts[parts.len() - 1].contains(c));
    assert forall|i: int| 0 <= i < last.len() implies !separates(#[trigger] last[i]) by {
        if last[i] == c {
            assert(last.contains(c));
        }
    }
    whole_text_is_one_piece(last, separates);
    if parts.len() > 1 {
        let front = parts.drop_last();
        assert forall|k: int| 0 <= k < front.len() implies !(#[trigger] front[k]).contains(c) by {
            assert(front[k] == parts[k]);
        }
        joined_texts_are_the_pieces(front, c);
        separator_parts_the_pieces(joined(front, c), c, last, separates);
        assert(front + seq![last] =~= parts);
    } else {
        assert(parts =~= seq![last]);
    }
}

/// The first difference decides the order of two texts, and a text stands before all that
/// go on from it.
pub proof fn first_difference_decides(
    front: Seq<char>,
    a: char,
    b: char,
    a_rest: Seq<char>,
    b_rest: Seq<char>,
)
    ensures
        a != b ==> (text_le(front.push(a) + a_rest, front.push(b) + b_rest) <==> a < b),
        text_le(front, front + b_rest),
    decreases front.len(),
{
    let x = front.push(a) + a_rest;
    let y = front.push(b) + b_rest;
    let z = front + b_rest;
    if front.len() > 0 {
        first_difference_decides(front.skip(1), a, b, a_rest, b_rest);
        assert(x.skip(1) =~= front.skip(1).push(a) + a_rest);
        assert(y.skip(1) =~= front.skip(1).push(b) + b_rest);
        assert(z.skip(1) =~= front.skip(1) + b_rest);
        assert(x[0] == y[0] && z[0] == front[0]);
    } else {
        assert(x[0] == a && y[0] == b);
    }
}

/// Small letters take the place of the ASCII capitals, and nothing else changes.
pub proof fn capitals_are_made_small(s: Seq<char>, i: int)
    requires
        0 <= i < s.len(),
    ensures
        lowered(s).len() == s.len(),
        s[i] < 'A' || s[i] > 'Z' ==> lowered(s)[i] == s[i],
        'A' <= s[i] <= 'Z' ==> lowered(s)[i] as int - 'a' as int == s[i] as int - 'A' as int,
        lowered(lowered(s)) == lowered(s),
{
    assert(lowered(lowered(s)) =~= lowered(s));
}

} // verus!
