//! Text as sequences of characters: splitting, trimming and comparing.
//!
//! Strings are handled as slices of `char`; `chars_of` and `string_of` go
//! between the two.
use vstd::prelude::*;
use vstd::slice::slice_subrange;

verus! {

/// `String::push` appends one character at the end of the string.
pub assume_specification[ String::push ](s: &mut String, c: char)
    ensures
        final(s)@ == old(s)@.push(c),
;

/// The characters of a string, in order.
pub fn chars_of(s: &str) -> (r: Vec<char>)
    ensures
        r@ == s@,
{
    let mut r: Vec<char> = Vec::new();
    for c in it: s.chars()
        invariant
            r@ == s@.take(it.index() as int),
            it.seq() == s@,
    {
        r.push(c);
        assert(r@ =~= s@.take(it.index() + 1));
    }
    assert(r@ =~= s@);
    r
}

/// The string made of the given characters.
pub fn string_of(s: &[char]) -> (r: String)
    ensures
        r@ == s@,
{
    let mut r: String = String::new();
    let mut i: usize = 0;
    while i < s.len()
        invariant
            i <= s@.len(),
            r@ == s@.take(i as int),
        decreases s@.len() - i,
    {
        r.push(s[i]);
        i += 1;
        assert(r@ =~= s@.take(i as int));
    }
    assert(r@ =~= s@);
    r
}

/// Puts bytes at the end of a buffer.
pub fn push_bytes(out: &mut Vec<u8>, more: &[u8])
    ensures
        final(out)@ == old(out)@ + more@,
{
    let ghost start = out@;
    let mut i: usize = 0;
    while i < more.len()
        invariant
            i <= more@.len(),
            out@ == start + more@.take(i as int),
        decreases more@.len() - i,
    {
        out.push(more[i]);
        i += 1;
        assert(out@ =~= start + more@.take(i as int));
    }
    assert(more@.take(i as int) =~= more@);
}

/// Whether two slices hold the same bytes.
pub fn same_bytes(a: &[u8], b: &[u8]) -> (r: bool)
    ensures
        r == (a@ == b@),
{
    if a.len() != b.len() {
        return false;
    }
    let mut i: usize = 0;
    while i < a.len()
        invariant
            i <= a@.len(),
            a@.len() == b@.len(),
            forall|j: int| 0 <= j < i ==> a@[j] == b@[j],
        decreases a@.len() - i,
    {
        if a[i] != b[i] {
            return false;
        }
        i += 1;
    }
    assert(a@ =~= b@);
    true
}

/// A text between two others.
pub fn enclosed(before: &str, s: &str, after: &str) -> (r: String)
    ensures
        r@ == before@ + s@ + after@,
{
    let mut r = before.to_string();
    r.append(s);
    r.append(after);
    r
}

/// The strings of a list, as sequences of characters.
pub open spec fn views(list: Seq<String>) -> Seq<Seq<char>> {
    list.map_values(|s: String| s@)
}

/// The slices of a list, as sequences of characters.
pub open spec fn slice_views(list: Seq<&[char]>) -> Seq<Seq<char>> {
    list.map_values(|s: &[char]| s@)
}

/// Whether a character has the Unicode property `White_Space`.
pub open spec fn is_space(c: char) -> bool {
    let u = c as u32;
    ||| 0x9 <= u <= 0xd
    ||| u == 0x20
    ||| u == 0x85
    ||| u == 0xa0
    ||| u == 0x1680
    ||| 0x2000 <= u <= 0x200a
    ||| u == 0x2028
    ||| u == 0x2029
    ||| u == 0x202f
    ||| u == 0x205f
    ||| u == 0x3000
}

/// Whether `c` is white space in the sense of Unicode.
pub fn is_whitespace(c: char) -> (r: bool)
    ensures
        r == is_space(c),
{
    let u: u32 = c as u32;
    (0x9 <= u && u <= 0xd) || u == 0x20 || u == 0x85 || u == 0xa0 || u == 0x1680 || (0x2000 <= u
        && u <= 0x200a) || u == 0x2028 || u == 0x2029 || u == 0x202f || u == 0x205f || u == 0x3000
}

/// `s` without the white space at its front.
pub open spec fn trimmed_start(s: Seq<char>) -> Seq<char>
    decreases s.len(),
{
    if s.len() > 0 && is_space(s[0]) {
        trimmed_start(s.skip(1))
    } else {
        s
    }
}

/// `s` without the white space at its back.
pub open spec fn trimmed_end(s: Seq<char>) -> Seq<char>
    decreases s.len(),
{
    if s.len() > 0 && is_space(s.last()) {
        trimmed_end(s.drop_last())
    } else {
        s
    }
}

/// `s` without the white space at its two ends.
pub open spec fn trimmed(s: Seq<char>) -> Seq<char> {
    trimmed_end(trimmed_start(s))
}

/// Removes the white space at the front.
pub fn trim_start(s: &[char]) -> (r: &[char])
    ensures
        r@ == trimmed_start(s@),
{
    let mut i: usize = 0;
    assert(s@.skip(0) =~= s@);
    while i < s.len() && is_whitespace(s[i])
        invariant
            i <= s@.len(),
            trimmed_start(s@.skip(i as int)) == trimmed_start(s@),
        decreases s@.len() - i,
    {
        assert(s@.skip(i as int).skip(1) =~= s@.skip(i + 1));
        i += 1;
    }
    let r = slice_subrange(s, i, s.len());
    assert(r@ =~= s@.skip(i as int));
    r
}

/// Removes the white space at the back.
pub fn trim_end(s: &[char]) -> (r: &[char])
    ensures
        r@ == trimmed_end(s@),
{
    let mut n: usize = s.len();
    assert(s@.take(n as int) =~= s@);
    while n > 0 && is_whitespace(s[n - 1])
        invariant
            n <= s@.len(),
            trimmed_end(s@.take(n as int)) == trimmed_end(s@),
        decreases n,
    {
        assert(s@.take(n as int).drop_last() =~= s@.take(n - 1));
        n -= 1;
    }
    let r = slice_subrange(s, 0, n);
    assert(r@ =~= s@.take(n as int));
    r
}

/// Removes the white space at both ends.
pub fn trim(s: &[char]) -> (r: &[char])
    ensures
        r@ == trimmed(s@),
{
    trim_end(trim_start(s))
}

/// The number of characters in front of the first white space.
pub open spec fn word_len(s: Seq<char>) -> int
    decreases s.len(),
{
    if s.len() == 0 || is_space(s[0]) {
        0
    } else {
        1 + word_len(s.skip(1))
    }
}

/// The first word of a text and what follows it; words are what white space
/// separates.
pub open spec fn first_word(s: Seq<char>) -> Option<(Seq<char>, Seq<char>)> {
    let t = trimmed_start(s);
    if t.len() == 0 {
        None
    } else {
        Some((t.take(word_len(t)), t.skip(word_len(t))))
    }
}

proof fn lemma_word_len(s: Seq<char>, i: int)
    requires
        0 <= i <= s.len(),
        forall|j: int| 0 <= j < i ==> !is_space(#[trigger] s[j]),
        i < s.len() ==> is_space(s[i]),
    ensures
        word_len(s) == i,
    decreases s.len(),
{
    if i > 0 {
        let t = s.skip(1);
        assert forall|j: int| 0 <= j < i - 1 implies !is_space(#[trigger] t[j]) by {
            assert(t[j] == s[j + 1]);
        }
        assert(!is_space(s[0]));
        lemma_word_len(t, i - 1);
    }
}

/// Takes the first word off a text.
pub fn next_word(s: &[char]) -> (r: Option<(&[char], &[char])>)
    ensures
        match r {
            Some((a, b)) => first_word(s@) == Some((a@, b@)),
            None => first_word(s@) is None,
        },
{
    let t = trim_start(s);
    if t.len() == 0 {
        return None;
    }
    let mut i: usize = 0;
    while i < t.len() && !is_whitespace(t[i])
        invariant
            i <= t@.len(),
            forall|j: int| 0 <= j < i ==> !is_space(#[trigger] t@[j]),
        decreases t@.len() - i,
    {
        i += 1;
    }
    proof {
        lemma_word_len(t@, i as int);
    }
    let a = slice_subrange(t, 0, i);
    let b = slice_subrange(t, i, t.len());
    assert(a@ =~= t@.take(i as int));
    assert(b@ =~= t@.skip(i as int));
    Some((a, b))
}

/// The index of the first `c` in `s`, or the length of `s` if there is none.
pub open spec fn index_of(s: Seq<char>, c: char) -> int
    decreases s.len(),
{
    if s.len() == 0 || s[0] == c {
        0
    } else {
        1 + index_of(s.skip(1), c)
    }
}

/// `index_of` is the least index that holds `c`.
pub proof fn lemma_index_of(s: Seq<char>, c: char)
    ensures
        0 <= index_of(s, c) <= s.len(),
        index_of(s, c) < s.len() ==> s[index_of(s, c)] == c,
        forall|j: int| 0 <= j < index_of(s, c) ==> s[j] != c,
    decreases s.len(),
{
    if s.len() > 0 && s[0] != c {
        lemma_index_of(s.skip(1), c);
        let r = index_of(s.skip(1), c);
        assert forall|j: int| 0 <= j < r + 1 implies s[j] != c by {
            if j > 0 {
                assert(s[j] == s.skip(1)[j - 1]);
            }
        }
    }
}

/// An index that holds `c` and has no `c` before it is `index_of`.
pub proof fn lemma_index_of_is(s: Seq<char>, c: char, i: int)
    requires
        0 <= i <= s.len(),
        i < s.len() ==> s[i] == c,
        forall|j: int| 0 <= j < i ==> s[j] != c,
    ensures
        index_of(s, c) == i,
{
    lemma_index_of(s, c);
    let r = index_of(s, c);
    if r < i {
        assert(s[r] != c);
    } else if i < r {
        assert(s[i] != c);
    }
}

/// Finds the first `c`; gives the length where there is none.
pub fn find(s: &[char], c: char) -> (r: usize)
    ensures
        r == index_of(s@, c),
        r <= s@.len(),
{
    let mut i: usize = 0;
    while i < s.len() && s[i] != c
        invariant
            i <= s@.len(),
            forall|j: int| 0 <= j < i ==> s@[j] != c,
        decreases s@.len() - i,
    {
        i += 1;
    }
    proof {
        lemma_index_of_is(s@, c, i as int);
    }
    i
}

/// The two parts of `s` around its first `c`.
pub open spec fn split_at_first(s: Seq<char>, c: char) -> Option<(Seq<char>, Seq<char>)> {
    let i = index_of(s, c);
    if i < s.len() {
        Some((s.take(i), s.skip(i + 1)))
    } else {
        None
    }
}

/// Splits at the first `c`, which stands in neither part.
pub fn split_once(s: &[char], c: char) -> (r: Option<(&[char], &[char])>)
    ensures
        match r {
            Some((a, b)) => split_at_first(s@, c) == Some((a@, b@)),
            None => split_at_first(s@, c) is None,
        },
{
    let i: usize = find(s, c);
    if i < s.len() {
        let a = slice_subrange(s, 0, i);
        let b = slice_subrange(s, i + 1, s.len());
        assert(a@ =~= s@.take(i as int));
        assert(b@ =~= s@.skip(i + 1));
        Some((a, b))
    } else {
        None
    }
}

/// The parts of `s` between the occurrences of `c`: one more part than there
/// are occurrences.
pub open spec fn split_parts(s: Seq<char>, c: char) -> Seq<Seq<char>>
    decreases s.len(),
{
    let i = index_of(s, c);
    if 0 <= i < s.len() {
        seq![s.take(i)] + split_parts(s.skip(i + 1), c)
    } else {
        seq![s]
    }
}

/// Splits at every `c`.
pub fn split(s: &[char], c: char) -> (r: Vec<&[char]>)
    ensures
        slice_views(r@) == split_parts(s@, c),
{
    let mut r: Vec<&[char]> = Vec::new();
    let mut rest = s;
    let mut go = true;
    while go
        invariant
            go ==> slice_views(r@) + split_parts(rest@, c) == split_parts(s@, c),
            !go ==> slice_views(r@) == split_parts(s@, c),
        decreases rest@.len(), (if go { 1int } else { 0int }),
    {
        let ghost before = slice_views(r@);
        proof {
            lemma_index_of(rest@, c);
        }
        match split_once(rest, c) {
            Some((a, b)) => {
                r.push(a);
                assert(slice_views(r@) =~= before + seq![a@]);
                assert((before + seq![a@]) + split_parts(b@, c) =~= before + (seq![a@]
                    + split_parts(b@, c)));
                rest = b;
            },
            None => {
                r.push(rest);
                assert(slice_views(r@) =~= before + seq![rest@]);
                go = false;
            },
        }
    }
    r
}

/// `s` without one carriage return at its end.
pub open spec fn without_cr(s: Seq<char>) -> Seq<char> {
    if s.len() > 0 && s.last() == '\r' {
        s.drop_last()
    } else {
        s
    }
}

/// The lines of a text. A line ends at a line feed, and a carriage return
/// just before that line feed is no part of the line; a last line without a
/// line feed counts as well.
pub open spec fn lines_of(s: Seq<char>) -> Seq<Seq<char>>
    decreases s.len(),
{
    let i = index_of(s, '\n');
    if s.len() == 0 {
        Seq::empty()
    } else if 0 <= i < s.len() {
        seq![without_cr(s.take(i))] + lines_of(s.skip(i + 1))
    } else {
        seq![s]
    }
}

/// The lines of a text, without their ends.
pub fn lines(s: &[char]) -> (r: Vec<&[char]>)
    ensures
        slice_views(r@) == lines_of(s@),
{
    let mut r: Vec<&[char]> = Vec::new();
    let mut rest = s;
    assert(slice_views(r@) + lines_of(rest@) =~= lines_of(s@));
    while rest.len() > 0
        invariant
            slice_views(r@) + lines_of(rest@) == lines_of(s@),
        decreases rest@.len(),
    {
        let ghost before = slice_views(r@);
        proof {
            lemma_index_of(rest@, '\n');
        }
        match split_once(rest, '\n') {
            Some((a, b)) => {
                let mut n: usize = a.len();
                if n > 0 && a[n - 1] == '\r' {
                    n -= 1;
                }
                let line = slice_subrange(a, 0, n);
                assert(line@ =~= without_cr(a@));
                r.push(line);
                assert(slice_views(r@) =~= before + seq![line@]);
                assert((before + seq![line@]) + lines_of(b@) =~= before + (seq![line@] + lines_of(
                    b@,
                )));
                rest = b;
            },
            None => {
                r.push(rest);
                assert(slice_views(r@) =~= before + seq![rest@]);
                rest = slice_subrange(rest, 0, 0);
                assert(slice_views(r@) + lines_of(rest@) =~= slice_views(r@));
            },
        }
    }
    assert(slice_views(r@) + lines_of(rest@) =~= slice_views(r@));
    r
}

/// Whether two pieces of text are the same.
pub fn same(a: &[char], b: &[char]) -> (r: bool)
    ensures
        r == (a@ == b@),
{
    if a.len() != b.len() {
        return false;
    }
    let mut i: usize = 0;
    while i < a.len()
        invariant
            i <= a@.len(),
            a@.len() == b@.len(),
            forall|j: int| 0 <= j < i ==> a@[j] == b@[j],
        decreases a@.len() - i,
    {
        if a[i] != b[i] {
            assert(a@[i as int] != b@[i as int]);
            return false;
        }
        i += 1;
    }
    assert(a@ =~= b@);
    true
}

/// Whether a piece of text is the given string.
pub fn is(a: &[char], b: &str) -> (r: bool)
    ensures
        r == (a@ == b@),
{
    let b = chars_of(b);
    same(a, b.as_slice())
}

/// Whether two strings are the same.
pub fn str_eq(a: &str, b: &str) -> (r: bool)
    ensures
        r == (a@ == b@),
{
    let a = chars_of(a);
    is(a.as_slice(), b)
}

/// Whether `s` begins with `p`.
pub open spec fn has_prefix(s: Seq<char>, p: Seq<char>) -> bool {
    p.len() <= s.len() && s.take(p.len() as int) == p
}

/// Whether `s` ends with `p`.
pub open spec fn has_suffix(s: Seq<char>, p: Seq<char>) -> bool {
    p.len() <= s.len() && s.skip(s.len() - p.len()) == p
}

/// What follows the prefix `p`, where `s` begins with it.
pub fn strip_prefix<'a>(s: &'a [char], p: &str) -> (r: Option<&'a [char]>)
    ensures
        match r {
            Some(rest) => has_prefix(s@, p@) && rest@ == s@.skip(p@.len() as int),
            None => !has_prefix(s@, p@),
        },
{
    let p = chars_of(p);
    if p.len() > s.len() {
        return None;
    }
    let head = slice_subrange(s, 0, p.len());
    assert(head@ =~= s@.take(p@.len() as int));
    if same(head, p.as_slice()) {
        let rest = slice_subrange(s, p.len(), s.len());
        assert(rest@ =~= s@.skip(p@.len() as int));
        Some(rest)
    } else {
        None
    }
}

/// Whether `s` ends with `p`.
pub fn ends_with(s: &[char], p: &str) -> (r: bool)
    ensures
        r == has_suffix(s@, p@),
{
    let p = chars_of(p);
    if p.len() > s.len() {
        return false;
    }
    let tail = slice_subrange(s, s.len() - p.len(), s.len());
    assert(tail@ =~= s@.skip(s@.len() - p@.len()));
    same(tail, p.as_slice())
}

/// Whether the list holds the string.
pub fn list_contains(list: &Vec<String>, s: &str) -> (r: bool)
    ensures
        r == views(list@).contains(s@),
{
    let mut i: usize = 0;
    while i < list.len()
        invariant
            i <= list@.len(),
            forall|j: int| 0 <= j < i ==> list@[j]@ != s@,
        decreases list@.len() - i,
    {
        if str_eq(list[i].as_str(), s) {
            assert(views(list@)[i as int] == s@);
            return true;
        }
        i += 1;
    }
    assert(!views(list@).contains(s@));
    false
}

/// The strings of a list, one after the other with `sep` between them.
pub open spec fn joined(list: Seq<Seq<char>>, sep: Seq<char>) -> Seq<char>
    decreases list.len(),
{
    if list.len() == 0 {
        Seq::empty()
    } else if list.len() == 1 {
        list[0]
    } else {
        joined(list.drop_last(), sep) + sep + list.last()
    }
}

/// Joins the strings of a list with `sep` between them.
pub fn join(list: &Vec<String>, sep: &str) -> (r: String)
    ensures
        r@ == joined(views(list@), sep@),
{
    let mut r: String = String::new();
    let mut i: usize = 0;
    while i < list.len()
        invariant
            i <= list@.len(),
            r@ == joined(views(list@).take(i as int), sep@),
        decreases list@.len() - i,
    {
        let ghost upto = views(list@).take(i + 1);
        assert(upto.drop_last() =~= views(list@).take(i as int));
        assert(upto.last() == list@[i as int]@);
        if i > 0 {
            r.append(sep);
        }
        r.append(list[i].as_str());
        if i == 0 {
            assert(r@ =~= list@[0]@);
        }
        i += 1;
    }
    assert(views(list@).take(i as int) =~= views(list@));
    r
}

/// What stands behind the last separator is the last part.
pub proof fn lemma_split_last(a: Seq<char>, c: char, b: Seq<char>)
    requires
        !b.contains(c),
    ensures
        split_parts(a + seq![c] + b, c) == split_parts(a, c).push(b),
    decreases a.len(),
{
    let s = a + seq![c] + b;
    let i = index_of(a, c);
    lemma_index_of(a, c);
    lemma_split_none(b, c);
    if i < a.len() {
        assert forall|j: int| 0 <= j < i implies s[j] != c by {
            assert(s[j] == a[j]);
        }
        assert(s[i] == a[i]);
        lemma_index_of_is(s, c, i);
        lemma_split_last(a.skip(i + 1), c, b);
        assert(s.skip(i + 1) =~= a.skip(i + 1) + seq![c] + b);
        assert(s.take(i) =~= a.take(i));
        assert(seq![a.take(i)] + split_parts(a.skip(i + 1), c).push(b) =~= (seq![a.take(i)]
            + split_parts(a.skip(i + 1), c)).push(b));
    } else {
        assert forall|j: int| 0 <= j < a.len() implies s[j] != c by {
            assert(s[j] == a[j]);
        }
        assert(s[a.len() as int] == c);
        lemma_index_of_is(s, c, a.len() as int);
        assert(s.take(a.len() as int) =~= a);
        assert(s.skip(a.len() as int + 1) =~= b);
        assert(seq![a] + seq![b] =~= seq![a].push(b));
    }
}

/// A text without a separator is one part.
pub proof fn lemma_split_none(b: Seq<char>, c: char)
    requires
        !b.contains(c),
    ensures
        split_parts(b, c) == seq![b],
{
    lemma_index_of(b, c);
    let i = index_of(b, c);
    if i < b.len() {
        assert(b.contains(b[i]));
    }
}

/// No part holds the separator.
pub proof fn lemma_parts_hold_none(s: Seq<char>, c: char)
    ensures
        forall|i: int| 0 <= i < split_parts(s, c).len() ==> !(#[trigger] split_parts(s, c)[i]).contains(c),
    decreases s.len(),
{
    lemma_index_of(s, c);
    let k = index_of(s, c);
    if k < s.len() {
        let rest = split_parts(s.skip(k + 1), c);
        lemma_parts_hold_none(s.skip(k + 1), c);
        assert forall|i: int| 0 <= i < split_parts(s, c).len() implies !(#[trigger] split_parts(
            s,
            c,
        )[i]).contains(c) by {
            if i > 0 {
                assert(split_parts(s, c)[i] == rest[i - 1]);
            } else {
                assert(split_parts(s, c)[0] == s.take(k));
            }
        }
    }
}

/// Parts that hold no separator and are joined with it are split again.
pub proof fn lemma_split_joined(list: Seq<Seq<char>>, c: char)
    requires
        list.len() > 0,
        forall|i: int| 0 <= i < list.len() ==> !(#[trigger] list[i]).contains(c),
    ensures
        split_parts(joined(list, seq![c]), c) == list,
    decreases list.len(),
{
    if list.len() == 1 {
        lemma_split_none(list[0], c);
        assert(seq![list[0]] =~= list);
    } else {
        let head = list.drop_last();
        assert forall|i: int| 0 <= i < head.len() implies !(#[trigger] head[i]).contains(c) by {
            assert(head[i] == list[i]);
        }
        lemma_split_joined(head, c);
        lemma_split_last(joined(head, seq![c]), c, list.last());
        assert(head.push(list.last()) =~= list);
    }
}

proof fn lemma_trimmed_start(pre: Seq<char>, t: Seq<char>)
    requires
        forall|i: int| 0 <= i < pre.len() ==> is_space(#[trigger] pre[i]),
        t.len() == 0 || !is_space(t[0]),
    ensures
        trimmed_start(pre + t) == t,
    decreases pre.len(),
{
    let s = pre + t;
    if pre.len() == 0 {
        assert(s =~= t);
    } else {
        assert(is_space(pre[0]));
        let rest = pre.skip(1);
        assert forall|i: int| 0 <= i < rest.len() implies is_space(#[trigger] rest[i]) by {
            assert(rest[i] == pre[i + 1]);
        }
        assert(s.skip(1) =~= rest + t);
        lemma_trimmed_start(rest, t);
    }
}

proof fn lemma_trimmed_end(t: Seq<char>, post: Seq<char>)
    requires
        forall|i: int| 0 <= i < post.len() ==> is_space(#[trigger] post[i]),
        t.len() == 0 || !is_space(t.last()),
    ensures
        trimmed_end(t + post) == t,
    decreases post.len(),
{
    let s = t + post;
    if post.len() == 0 {
        assert(s =~= t);
    } else {
        assert(is_space(post[post.len() - 1]));
        let rest = post.drop_last();
        assert forall|i: int| 0 <= i < rest.len() implies is_space(#[trigger] rest[i]) by {
            assert(rest[i] == post[i]);
        }
        assert(s.drop_last() =~= t + rest);
        lemma_trimmed_end(t, rest);
    }
}

/// Trimming takes away the white space around a text, all of it, and nothing
/// else.
pub proof fn law_trimmed(pre: Seq<char>, t: Seq<char>, post: Seq<char>)
    requires
        forall|i: int| 0 <= i < pre.len() ==> is_space(#[trigger] pre[i]),
        forall|i: int| 0 <= i < post.len() ==> is_space(#[trigger] post[i]),
        t.len() == 0 || (!is_space(t[0]) && !is_space(t.last())),
    ensures
        trimmed(pre + t + post) == t,
        t.len() > 0 ==> trimmed_start(pre + t + post) == t + post,
        trimmed_end(t + post) == t,
{
    lemma_trimmed_end(t, post);
    if t.len() > 0 {
        assert(pre + t + post =~= pre + (t + post));
        lemma_trimmed_start(pre, t + post);
    } else {
        let all = pre + post;
        assert(pre + t + post =~= all + Seq::<char>::empty());
        assert forall|i: int| 0 <= i < all.len() implies is_space(#[trigger] all[i]) by {
            if i < pre.len() {
                assert(all[i] == pre[i]);
            } else {
                assert(all[i] == post[i - pre.len()]);
            }
        }
        lemma_trimmed_start(all, Seq::empty());
        assert(trimmed_end(Seq::<char>::empty()) =~= Seq::<char>::empty());
        assert(t =~= Seq::<char>::empty());
    }
}

/// Blanks, tabs and line ends are white space, and no other character of ASCII
/// that can be seen or that separates records is.
pub proof fn law_space_of_ascii(c: char)
    requires
        (c as u32) < 0x80,
    ensures
        is_space(c) <==> c == ' ' || c == '\t' || c == '\n' || c == '\r' || c == '\u{b}' || c
            == '\u{c}',
{
}

/// Beyond ASCII the white space is that of Unicode: the next line, the spaces
/// that do not break, those of typography, the two separators, and the wide one
/// of ideographs.
pub proof fn law_space_beyond_ascii(c: char)
    requires
        (c as u32) >= 0x80,
    ensures
        is_space(c) <==> c == '\u{85}' || c == '\u{a0}' || c == '\u{1680}' || ('\u{2000}' <= c
            <= '\u{200a}') || c == '\u{2028}' || c == '\u{2029}' || c == '\u{202f}' || c
            == '\u{205f}' || c == '\u{3000}',
{
}

/// A text is split at its first separator into what stands in front of it and
/// all that stands behind it; one without a separator is not split.
pub proof fn law_split_once(a: Seq<char>, c: char, b: Seq<char>)
    requires
        !a.contains(c),
    ensures
        split_at_first(a + seq![c] + b, c) == Some((a, b)),
        split_at_first(a, c) is None,
{
    let s = a + seq![c] + b;
    assert forall|j: int| 0 <= j < a.len() implies s[j] != c by {
        assert(s[j] == a[j]);
        assert(a.contains(a[j]));
    }
    assert forall|j: int| 0 <= j < a.len() implies a[j] != c by {
        assert(a.contains(a[j]));
    }
    assert(s[a.len() as int] == c);
    lemma_index_of_is(s, c, a.len() as int);
    lemma_index_of_is(a, c, a.len() as int);
    assert(s.take(a.len() as int) =~= a);
    assert(s.skip(a.len() as int + 1) =~= b);
}

/// Splitting at every separator loses nothing: a part in front of a separator
/// is the first of the parts, and the others are those of the rest.
pub proof fn law_split_parts(a: Seq<char>, c: char, b: Seq<char>)
    requires
        !a.contains(c),
    ensures
        split_parts(a + seq![c] + b, c) == seq![a] + split_parts(b, c),
        split_parts(a, c) == seq![a],
{
    law_split_once(a, c, b);
    lemma_index_of(a + seq![c] + b, c);
    lemma_split_none(a, c);
}

/// The lines of a text: what stands in front of a line end, of either kind, is
/// a line, and what stands behind the last one is a line where it is not empty.
/// Of several carriage returns only the last belongs to the line end.
pub proof fn law_lines(a: Seq<char>, b: Seq<char>)
    requires
        !a.contains('\n'),
    ensures
        a.len() == 0 || a.last() != '\r' ==> lines_of(a + seq!['\n'] + b) == seq![a] + lines_of(b),
        lines_of(a + seq!['\r', '\n'] + b) == seq![a] + lines_of(b),
        lines_of(a) == (if a.len() == 0 {
            Seq::empty()
        } else {
            seq![a]
        }),
{
    law_split_once(a, '\n', b);
    lemma_index_of(a, '\n');
    let s = a + seq!['\n'] + b;
    lemma_index_of(s, '\n');
    let r = a.push('\r');
    assert(!r.contains('\n')) by {
        if r.contains('\n') {
            let i = choose|i: int| 0 <= i < r.len() && r[i] == '\n';
            assert(a[i] == '\n');
        }
    }
    law_split_once(r, '\n', b);
    let t = r + seq!['\n'] + b;
    lemma_index_of(t, '\n');
    assert(a + seq!['\r', '\n'] + b =~= t);
    assert(r.drop_last() =~= a);
    assert(without_cr(r) == a);
    if a.len() > 0 && index_of(a, '\n') < a.len() {
        assert(a.contains('\n'));
    }
}

/// Texts are joined in their order, with the separator between any two of them
/// and nowhere else.
pub proof fn law_joined(a: Seq<char>, rest: Seq<Seq<char>>, sep: Seq<char>)
    ensures
        joined(seq![a] + rest, sep) == (if rest.len() == 0 {
            a
        } else {
            a + sep + joined(rest, sep)
        }),
        joined(Seq::empty(), sep).len() == 0,
    decreases rest.len(),
{
    let list = seq![a] + rest;
    if rest.len() == 0 {
        assert(list[0] == a);
    } else if rest.len() == 1 {
        assert(list.drop_last() =~= seq![a]);
        assert(list.last() == rest[0]);
        assert(joined(seq![a], sep) == a);
    } else {
        law_joined(a, rest.drop_last(), sep);
        assert(list.drop_last() =~= seq![a] + rest.drop_last());
        assert(list.last() == rest.last());
        assert(a + sep + joined(rest.drop_last(), sep) + sep + rest.last() =~= a + sep + (joined(
            rest.drop_last(),
            sep,
        ) + sep + rest.last()));
    }
}

/// A word ends at the first white space behind it, and white space in front of
/// it is passed over.
pub proof fn law_first_word(pre: Seq<char>, w: Seq<char>, rest: Seq<char>)
    requires
        forall|i: int| 0 <= i < pre.len() ==> is_space(#[trigger] pre[i]),
        forall|i: int| 0 <= i < w.len() ==> !is_space(#[trigger] w[i]),
        rest.len() == 0 || is_space(rest[0]),
    ensures
        w.len() > 0 ==> first_word(pre + w + rest) == Some((w, rest)),
        first_word(pre) is None,
{
    assert(pre + Seq::<char>::empty() =~= pre);
    lemma_trimmed_start(pre, Seq::empty());
    if w.len() > 0 {
        let t = w + rest;
        assert(!is_space(w[0]));
        assert(pre + w + rest =~= pre + t);
        lemma_trimmed_start(pre, t);
        assert forall|j: int| 0 <= j < w.len() implies !is_space(#[trigger] t[j]) by {
            assert(t[j] == w[j]);
        }
        lemma_word_len(t, w.len() as int);
        assert(t.take(w.len() as int) =~= w);
        assert(t.skip(w.len() as int) =~= rest);
    }
}

/// A text begins with another exactly where it is that one with something
/// behind it, and ends with it where something stands in front.
pub proof fn law_prefix_and_suffix(s: Seq<char>, p: Seq<char>)
    ensures
        has_prefix(p + s, p),
        has_suffix(s + p, p),
        has_prefix(s, p) ==> exists|rest: Seq<char>| s == #[trigger] (p + rest),
        has_suffix(s, p) ==> exists|front: Seq<char>| s == #[trigger] (front + p),
{
    assert((p + s).take(p.len() as int) =~= p);
    assert((s + p).skip(s.len() as int) =~= p);
    if has_prefix(s, p) {
        assert(s =~= p + s.skip(p.len() as int));
    }
    if has_suffix(s, p) {
        assert(s =~= s.take(s.len() - p.len()) + p);
    }
}

} // verus!
