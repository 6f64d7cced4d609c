//! Text as a sequence of characters: the searching, splitting, trimming and
//! number formatting the rest of the crate is built from.

use vstd::prelude::*;

verus! {

/// `String::push` appends the character to the end of the string.
pub assume_specification[ String::push ](s: &mut String, c: char)
    ensures
        final(s)@ == old(s)@.push(c),
;

// ── characters in and out ───────────────────────────────────────────────────

/// The characters of `s`, in order.
pub fn chars(s: &str) -> (v: Vec<char>)
    ensures
        v@ == s@,
{
    let mut v: Vec<char> = Vec::new();
    for c in it: s.chars()
        invariant
            v@ == s@.take(it.index() as int),
            it.seq() == s@,
    {
        v.push(c);
        assert(v@ =~= s@.take(it.index() as int + 1));
    }
    v
}

/// The string made of the characters `v`.
pub fn string(v: &[char]) -> (s: String)
    ensures
        s@ == v@,
{
    let mut s: String = String::new();
    push_chars(&mut s, v);
    assert(s@ =~= v@);
    s
}

/// Appends the characters `v` to `s`.
pub fn push_chars(s: &mut String, v: &[char])
    ensures
        final(s)@ == old(s)@ + v@,
{
    let mut i: usize = 0;
    while i < v.len()
        invariant
            i <= v.len(),
            s@ == old(s)@ + v@.take(i as int),
        decreases v.len() - i,
    {
        s.push(v[i]);
        i += 1;
        assert(v@.take(i as int) =~= v@.take(i - 1).push(v@[i - 1]));
    }
    assert(v@.take(i as int) =~= v@);
}

/// Appends `t` to `s`.
pub fn push_str(s: &mut String, t: &str)
    ensures
        final(s)@ == old(s)@ + t@,
{
    let v: Vec<char> = chars(t);
    push_chars(s, v.as_slice());
}

/// Appends a copy of `t` to the characters `v`.
pub fn extend(v: &mut Vec<char>, t: &[char])
    ensures
        final(v)@ == old(v)@ + t@,
{
    let mut i: usize = 0;
    while i < t.len()
        invariant
            i <= t.len(),
            v@ == old(v)@ + t@.take(i as int),
        decreases t.len() - i,
    {
        v.push(t[i]);
        i += 1;
        assert(t@.take(i as int) =~= t@.take(i - 1).push(t@[i - 1]));
    }
    assert(t@.take(i as int) =~= t@);
}

/// The characters `s[i..j]`.
pub fn range(s: &[char], i: usize, j: usize) -> (v: &[char])
    requires
        i <= j <= s@.len(),
    ensures
        v@ == s@.subrange(i as int, j as int),
{
    vstd::slice::slice_subrange(s, i, j)
}

/// Whether two pieces of text are the same.
pub fn same(a: &[char], b: &[char]) -> (r: bool)
    ensures
        r == (a@ == b@),
{
    if a.len() != b.len() {
        return false;
    }
    let mut i: usize = 0;
    while i < a.len()
        invariant
            a@.len() == b@.len(),
            i <= a@.len(),
            forall|k: int| 0 <= k < i ==> a@[k] == b@[k],
        decreases a.len() - i,
    {
        if a[i] != b[i] {
            return false;
        }
        i += 1;
    }
    assert(a@ =~= b@);
    true
}

/// Whether `a` is the text `b`.
pub fn is(a: &[char], b: &str) -> (r: bool)
    ensures
        r == (a@ == b@),
{
    let b: Vec<char> = chars(b);
    same(a, b.as_slice())
}

/// Whether two strings are the same text.
pub fn same_str(a: &str, b: &str) -> (r: bool)
    ensures
        r == (a@ == b@),
{
    let a: Vec<char> = chars(a);
    is(a.as_slice(), b)
}

/// A string holding the same text as `s`.
pub fn copy(s: &str) -> (t: String)
    ensures
        t@ == s@,
{
    let v: Vec<char> = chars(s);
    string(v.as_slice())
}

/// The text of an optional string.
pub open spec fn opt(s: Option<String>) -> Option<Seq<char>> {
    match s {
        Some(s) => Some(s@),
        None => None,
    }
}

/// A copy of an optional string.
pub fn copy_opt(s: &Option<String>) -> (t: Option<String>)
    ensures
        opt(t) == opt(*s),
{
    match s {
        Some(s) => Some(copy(s.as_str())),
        None => None,
    }
}

/// Whether two optional strings hold the same text.
pub fn same_opt(a: &Option<String>, b: &Option<String>) -> (r: bool)
    ensures
        r == (opt(*a) == opt(*b)),
{
    match (a, b) {
        (Some(a), Some(b)) => same_str(a.as_str(), b.as_str()),
        (None, None) => true,
        _ => false,
    }
}

/// The texts of a list of strings.
pub open spec fn texts(v: Seq<String>) -> Seq<Seq<char>> {
    v.map_values(|s: String| s@)
}

// ── blanks ──────────────────────────────────────────────────────────────────

/// The characters with Unicode's `White_Space` property.
pub open spec fn white(c: char) -> bool {
    ||| '\u{9}' <= c <= '\u{d}'
    ||| c == '\u{20}'
    ||| c == '\u{85}'
    ||| c == '\u{a0}'
    ||| c == '\u{1680}'
    ||| '\u{2000}' <= c <= '\u{200a}'
    ||| c == '\u{2028}'
    ||| c == '\u{2029}'
    ||| c == '\u{202f}'
    ||| c == '\u{205f}'
    ||| c == '\u{3000}'
}

/// Is `c` white space?
pub fn is_white(c: char) -> (r: bool)
    ensures
        r == white(c),
{
    ('\u{9}' <= c && c <= '\u{d}') || c == '\u{20}' || c == '\u{85}' || c == '\u{a0}' || c
        == '\u{1680}' || ('\u{2000}' <= c && c <= '\u{200a}') || c == '\u{2028}' || c == '\u{2029}'
        || c == '\u{202f}' || c == '\u{205f}' || c == '\u{3000}'
}

/// `s` without its leading white space.
pub open spec fn trim_start(s: Seq<char>) -> Seq<char>
    decreases s.len(),
{
    if s.len() > 0 && white(s[0]) {
        trim_start(s.skip(1))
    } else {
        s
    }
}

/// `s` without its trailing white space.
pub open spec fn trim_end(s: Seq<char>) -> Seq<char>
    decreases s.len(),
{
    if s.len() > 0 && white(s.last()) {
        trim_end(s.drop_last())
    } else {
        s
    }
}

/// `s` without the white space around it.
pub open spec fn trim(s: Seq<char>) -> Seq<char> {
    trim_end(trim_start(s))
}

/// Whether `s` holds nothing but white space.
pub open spec fn blank(s: Seq<char>) -> bool {
    forall|i: int| 0 <= i < s.len() ==> white(#[trigger] s[i])
}

/// The index of the first character of `s` that is not white space.
pub fn skip_white(s: &[char], from: usize) -> (i: usize)
    requires
        from <= s@.len(),
    ensures
        from <= i <= s@.len(),
        s@.skip(i as int) == trim_start(s@.skip(from as int)),
{
    let mut i: usize = from;
    while i < s.len() && is_white(s[i])
        invariant
            from <= i <= s@.len(),
            trim_start(s@.skip(i as int)) == trim_start(s@.skip(from as int)),
        decreases s.len() - i,
    {
        assert(s@.skip(i as int).skip(1) =~= s@.skip(i + 1));
        i += 1;
    }
    i
}

/// The length of `s` without its trailing white space.
pub fn trimmed_len(s: &[char]) -> (n: usize)
    ensures
        n <= s@.len(),
        s@.take(n as int) == trim_end(s@),
{
    let mut n: usize = s.len();
    assert(s@.take(n as int) =~= s@);
    while n > 0 && is_white(s[n - 1])
        invariant
            n <= s@.len(),
            trim_end(s@.take(n as int)) == trim_end(s@),
        decreases n,
    {
        assert(s@.take(n as int).drop_last() =~= s@.take(n - 1));
        n -= 1;
    }
    n
}

/// `s` without the white space around it.
pub fn trimmed(s: &[char]) -> (t: &[char])
    ensures
        t@ == trim(s@),
{
    let from: usize = skip_white(s, 0);
    assert(s@.skip(0) =~= s@);
    let rest: &[char] = range(s, from, s.len());
    assert(rest@ =~= s@.skip(from as int));
    let n: usize = trimmed_len(rest);
    let t: &[char] = range(rest, 0, n);
    assert(t@ =~= rest@.take(n as int));
    t
}

/// Is `s` nothing but white space?
pub fn is_blank(s: &[char]) -> (r: bool)
    ensures
        r == blank(s@),
{
    let mut i: usize = 0;
    while i < s.len()
        invariant
            i <= s@.len(),
            forall|k: int| 0 <= k < i ==> white(#[trigger] s@[k]),
        decreases s.len() - i,
    {
        if !is_white(s[i]) {
            return false;
        }
        i += 1;
    }
    true
}

/// A piece of text is blank exactly when trimming it leaves nothing.
pub proof fn blank_trims_to_nothing(s: Seq<char>)
    ensures
        blank(s) <==> trim(s).len() == 0,
{
    lemma_trim_start(s);
    lemma_trim_end(trim_start(s));
    let t = trim_start(s);
    if blank(s) {
        if t.len() > 0 {
            let k = s.len() - t.len();
            assert(t[0] == s[k]);
        }
    } else {
        let i = choose|i: int| 0 <= i < s.len() && !white(#[trigger] s[i]);
        let k = s.len() - t.len();
        assert(t.len() > 0) by {
            if t.len() == 0 {
                assert(white(s[i]));
            }
        }
        if trim_end(t).len() == 0 {
            assert(white(t[0]));
        }
    }
}

/// Trimming a text again changes nothing.
pub proof fn trimming_twice_is_trimming_once(s: Seq<char>)
    ensures
        trim_start(trim_start(s)) == trim_start(s),
        trim_end(trim_end(s)) == trim_end(s),
        trim(trim(s)) == trim(s),
{
    lemma_trim_start(s);
    lemma_trim_end(s);
    let t = trim_start(s);
    lemma_trim_end(t);
    if trim_end(t).len() > 0 {
        assert(trim_end(t)[0] == t[0]);
    }
}

proof fn lemma_trim_start(s: Seq<char>)
    ensures
        trim_start(s).len() <= s.len(),
        trim_start(s) == s.skip(s.len() - trim_start(s).len()),
        forall|i: int| 0 <= i < s.len() - trim_start(s).len() ==> white(#[trigger] s[i]),
        trim_start(s).len() > 0 ==> !white(trim_start(s)[0]),
    decreases s.len(),
{
    if s.len() > 0 && white(s[0]) {
        let r = s.skip(1);
        lemma_trim_start(r);
        let t = trim_start(r);
        assert(t =~= s.skip(s.len() - t.len()));
        assert forall|i: int| 0 <= i < s.len() - t.len() implies white(#[trigger] s[i]) by {
            if i > 0 {
                assert(white(r[i - 1]));
            }
        }
    } else {
        assert(s =~= s.skip(0));
    }
}

proof fn lemma_trim_end(s: Seq<char>)
    ensures
        trim_end(s).len() <= s.len(),
        trim_end(s) == s.take(trim_end(s).len() as int),
        forall|i: int| trim_end(s).len() <= i < s.len() ==> white(#[trigger] s[i]),
        trim_end(s).len() > 0 ==> !white(trim_end(s).last()),
    decreases s.len(),
{
    if s.len() > 0 && white(s.last()) {
        let r = s.drop_last();
        lemma_trim_end(r);
        let t = trim_end(r);
        assert(t =~= s.take(t.len() as int));
        assert forall|i: int| t.len() <= i < s.len() implies white(#[trigger] s[i]) by {
            if i < s.len() - 1 {
                assert(white(r[i]));
            }
        }
    } else {
        assert(s =~= s.take(s.len() as int));
    }
}

// ── searching ───────────────────────────────────────────────────────────────

/// Whether `needle` stands at index `i` of `s`.
pub open spec fn stands_at(s: Seq<char>, needle: Seq<char>, i: int) -> bool {
    0 <= i && i + needle.len() <= s.len() && s.subrange(i, i + needle.len()) == needle
}

/// The first index, from `from` on, at which `needle` stands in `s`.
pub open spec fn find_from(s: Seq<char>, needle: Seq<char>, from: int) -> Option<int>
    decreases s.len() - from + 1,
{
    if from < 0 || from + needle.len() > s.len() {
        None
    } else if stands_at(s, needle, from) {
        Some(from)
    } else {
        find_from(s, needle, from + 1)
    }
}

/// The first index at which `needle` stands in `s`.
pub open spec fn find(s: Seq<char>, needle: Seq<char>) -> Option<int> {
    find_from(s, needle, 0)
}

/// The last index, below `to`, at which `needle` stands in `s`.
pub open spec fn rfind_before(s: Seq<char>, needle: Seq<char>, to: int) -> Option<int>
    decreases to,
{
    if to <= 0 {
        None
    } else if stands_at(s, needle, to - 1) {
        Some(to - 1)
    } else {
        rfind_before(s, needle, to - 1)
    }
}

/// The last index at which `needle` stands in `s`.
pub open spec fn rfind(s: Seq<char>, needle: Seq<char>) -> Option<int> {
    rfind_before(s, needle, s.len() as int + 1)
}

/// Whether `needle` occurs in `s`.
pub open spec fn has(s: Seq<char>, needle: Seq<char>) -> bool {
    find(s, needle) is Some
}

/// Whether `s` starts with `p`.
pub open spec fn starts(s: Seq<char>, p: Seq<char>) -> bool {
    stands_at(s, p, 0)
}

/// Does `needle` stand at index `i` of `s`?
pub fn at(s: &[char], needle: &[char], i: usize) -> (r: bool)
    requires
        i <= s@.len(),
    ensures
        r == stands_at(s@, needle@, i as int),
{
    let len: usize = s.len();
    if len - i < needle.len() {
        return false;
    }
    let mut k: usize = 0;
    while k < needle.len()
        invariant
            len == s@.len(),
            i + needle@.len() <= len,
            k <= needle@.len(),
            forall|j: int| 0 <= j < k ==> s@[i + j] == needle@[j],
        decreases needle.len() - k,
    {
        if s[i + k] != needle[k] {
            assert(s@.subrange(i as int, i + needle@.len())[k as int] != needle@[k as int]);
            return false;
        }
        k += 1;
    }
    assert(s@.subrange(i as int, i + needle@.len()) =~= needle@);
    true
}

/// The first index, from `from` on, at which `needle` stands in `s`.
pub fn find_at(s: &[char], needle: &[char], from: usize) -> (r: Option<usize>)
    requires
        from <= s@.len(),
    ensures
        match r {
            Some(i) => find_from(s@, needle@, from as int) == Some(i as int) && from <= i && i
                + needle@.len() <= s@.len(),
            None => find_from(s@, needle@, from as int) is None,
        },
{
    let mut i: usize = from;
    while s.len() - i >= needle.len()
        invariant
            from <= i <= s@.len(),
            find_from(s@, needle@, i as int) == find_from(s@, needle@, from as int),
        decreases s.len() - i,
    {
        if at(s, needle, i) {
            return Some(i);
        }
        if i == s.len() {
            assert(find_from(s@, needle@, i + 1) is None);
            return None;
        }
        i += 1;
    }
    None
}

/// The last index at which `needle` stands in `s`.
pub fn rfind_at(s: &[char], needle: &[char]) -> (r: Option<usize>)
    ensures
        match r {
            Some(i) => rfind(s@, needle@) == Some(i as int) && i + needle@.len() <= s@.len(),
            None => rfind(s@, needle@) is None,
        },
{
    let mut i: usize = s.len();
    while !at(s, needle, i)
        invariant
            i <= s@.len(),
            rfind_before(s@, needle@, i + 1) == rfind(s@, needle@),
        decreases i,
    {
        if i == 0 {
            assert(rfind_before(s@, needle@, 0) is None);
            return None;
        }
        i -= 1;
    }
    Some(i)
}

/// Does `needle` occur in `s`?
pub fn contains(s: &[char], needle: &[char]) -> (r: bool)
    ensures
        r == has(s@, needle@),
{
    find_at(s, needle, 0).is_some()
}

/// What a first occurrence is: it is one, and nothing before it is.
pub proof fn lemma_find_from(s: Seq<char>, needle: Seq<char>, from: int)
    requires
        0 <= from,
    ensures
        match find_from(s, needle, from) {
            Some(i) => from <= i && stands_at(s, needle, i) && (forall|j: int|
                from <= j < i ==> !#[trigger] stands_at(s, needle, j)),
            None => forall|j: int| from <= j ==> !#[trigger] stands_at(s, needle, j),
        },
    decreases s.len() - from + 1,
{
    if from + needle.len() <= s.len() && !stands_at(s, needle, from) {
        lemma_find_from(s, needle, from + 1);
    }
}

/// A character that does not end `needle` makes no difference at the end of the text it
/// is looked for in.
pub proof fn lemma_find_push(s: Seq<char>, c: char, needle: Seq<char>, from: int)
    requires
        0 <= from,
        needle.len() > 0,
        needle.last() != c,
    ensures
        find_from(s.push(c), needle, from) == find_from(s, needle, from),
    decreases s.len() - from + 1,
{
    let t = s.push(c);
    if from + needle.len() <= s.len() {
        assert(t.subrange(from, from + needle.len()) =~= s.subrange(from, from + needle.len()));
        if !stands_at(s, needle, from) {
            lemma_find_push(s, c, needle, from + 1);
        }
    } else if from + needle.len() == t.len() {
        assert(t.subrange(from, from + needle.len()).last() == c);
        assert(find_from(t, needle, from + 1) is None);
    }
}

/// White space at the end of a text is left there by trimming its front, unless there
/// is nothing else.
pub proof fn lemma_trim_start_push(s: Seq<char>, c: char)
    requires
        white(c),
    ensures
        trim_start(s.push(c)) == if trim_start(s).len() == 0 {
            Seq::empty()
        } else {
            trim_start(s).push(c)
        },
    decreases s.len(),
{
    if s.len() == 0 {
        assert(s.push(c).skip(1) =~= Seq::empty());
        assert(trim_start(Seq::<char>::empty()) =~= Seq::empty());
    } else if white(s[0]) {
        assert(s.push(c).skip(1) =~= s.skip(1).push(c));
        lemma_trim_start_push(s.skip(1), c);
    }
}

// ── lines and fields ────────────────────────────────────────────────────────

/// The index of the first `c` in `s`, or its length.
pub open spec fn index_of(s: Seq<char>, c: char) -> int
    decreases s.len(),
{
    if s.len() == 0 || s[0] == c {
        0
    } else {
        1 + index_of(s.skip(1), c)
    }
}

/// The pieces of `s` between its `c`s.
pub open spec fn split(s: Seq<char>, c: char) -> Seq<Seq<char>>
    decreases s.len(),
{
    let i = index_of(s, c);
    if 0 <= i < s.len() {
        seq![s.take(i)] + split(s.skip(i + 1), c)
    } else {
        seq![s]
    }
}

/// The lines of `s`: a line ends with a line feed, or a carriage return and a
/// line feed, and the last one may end with the text.
pub open spec fn lines(s: Seq<char>) -> Seq<Seq<char>>
    decreases s.len(),
{
    let i = index_of(s, '\n');
    if s.len() == 0 {
        Seq::empty()
    } else if 0 <= i < s.len() {
        seq![without_cr(s.take(i))] + lines(s.skip(i + 1))
    } else {
        seq![s]
    }
}

/// `s` without one trailing carriage return.
pub open spec fn without_cr(s: Seq<char>) -> Seq<char> {
    if s.len() > 0 && s.last() == '\r' {
        s.drop_last()
    } else {
        s
    }
}

/// `v` with `sep` between its pieces.
pub open spec fn join(v: Seq<Seq<char>>, sep: Seq<char>) -> Seq<char>
    decreases v.len(),
{
    if v.len() == 0 {
        Seq::empty()
    } else if v.len() == 1 {
        v[0]
    } else {
        join(v.drop_last(), sep) + sep + v.last()
    }
}

/// What the index of a character means.
pub proof fn lemma_index_of(s: Seq<char>, c: char)
    ensures
        0 <= index_of(s, c) <= s.len(),
        index_of(s, c) < s.len() ==> s[index_of(s, c)] == c,
        forall|j: int| 0 <= j < index_of(s, c) ==> s[j] != c,
    decreases s.len(),
{
    if s.len() > 0 && s[0] != c {
        let r = s.skip(1);
        lemma_index_of(r, c);
        assert forall|j: int| 0 <= j < index_of(s, c) implies s[j] != c by {
            if j > 0 {
                assert(r[j - 1] != c);
            }
        }
    }
}

/// An index is the one of `c` when `c` stands there and nowhere before.
pub proof fn lemma_index_is(s: Seq<char>, c: char, i: int)
    requires
        0 <= i <= s.len(),
        i < s.len() ==> s[i] == c,
        forall|j: int| 0 <= j < i ==> s[j] != c,
    ensures
        index_of(s, c) == i,
{
    lemma_index_of(s, c);
    let k = index_of(s, c);
    if k < i {
        assert(s[k] != c);
    } else if i < k {
        assert(s[i] != c);
    }
}

/// The index of the first `c` in `s` from `from` on, or the length of `s`.
pub fn index_from(s: &[char], c: char, from: usize) -> (i: usize)
    requires
        from <= s@.len(),
    ensures
        from <= i <= s@.len(),
        i == from + index_of(s@.skip(from as int), c),
        i < s@.len() ==> s@[i as int] == c,
        forall|j: int| from <= j < i ==> s@[j] != c,
{
    let mut i: usize = from;
    while i < s.len() && s[i] != c
        invariant
            from <= i <= s@.len(),
            forall|j: int| from <= j < i ==> s@[j] != c,
        decreases s.len() - i,
    {
        i += 1;
    }
    proof {
        lemma_index_is(s@.skip(from as int), c, i - from);
    }
    i
}

/// The lines of `s`.
pub fn split_lines<'a>(s: &'a [char]) -> (v: Vec<&'a [char]>)
    ensures
        v@.map_values(|l: &'a [char]| l@) == lines(s@),
{
    let mut v: Vec<&'a [char]> = Vec::new();
    let mut from: usize = 0;
    assert(s@.skip(0) =~= s@);
    assert(v@.map_values(|l: &'a [char]| l@) + lines(s@) =~= lines(s@));
    while from < s.len()
        invariant
            from <= s@.len(),
            v@.map_values(|l: &'a [char]| l@) + lines(s@.skip(from as int)) == lines(s@),
        decreases s.len() - from,
    {
        let ghost before = v@.map_values(|l: &'a [char]| l@);
        let ghost rest = s@.skip(from as int);
        let i: usize = index_from(s, '\n', from);
        if i == s.len() {
            let line: &[char] = range(s, from, i);
            assert(line@ =~= rest);
            v.push(line);
            assert(v@.map_values(|l: &'a [char]| l@) =~= before.push(rest));
            assert(lines(rest) =~= seq![rest]);
            assert(before.push(rest) =~= before + seq![rest]);
            return v;
        }
        let end: usize = if i > from && s[i - 1] == '\r' {
            i - 1
        } else {
            i
        };
        let line: &[char] = range(s, from, end);
        assert(line@ =~= without_cr(rest.take(i - from)));
        v.push(line);
        assert(v@.map_values(|l: &'a [char]| l@) =~= before.push(line@));
        assert(rest.skip(i - from + 1) =~= s@.skip(i + 1));
        assert(before.push(line@) + lines(s@.skip(i + 1)) =~= before + lines(rest));
        from = i + 1;
    }
    assert(lines(s@.skip(from as int)) =~= Seq::empty());
    assert(v@.map_values(|l: &'a [char]| l@) =~= lines(s@));
    v
}

/// `text` appended to `out`, after `sep` when `out` already holds something.
pub fn push_joined(out: &mut String, first: bool, sep: char, piece: &[char])
    ensures
        final(out)@ == if first {
            old(out)@ + piece@
        } else {
            old(out)@ + seq![sep] + piece@
        },
{
    if !first {
        out.push(sep);
        assert(out@ =~= old(out)@ + seq![sep]);
    }
    push_chars(out, piece);
}

// ── numbers ─────────────────────────────────────────────────────────────────

/// The character of a decimal digit.
pub open spec fn digit(d: int) -> char {
    (('0' as u32) + d) as char
}

/// `n` in decimal.
pub open spec fn decimal(n: nat) -> Seq<char>
    decreases n,
{
    if n < 10 {
        seq![digit(n as int)]
    } else {
        decimal(n / 10).push(digit((n % 10) as int))
    }
}

/// `s` with zeros in front until it is `width` long.
pub open spec fn zero_padded(s: Seq<char>, width: nat) -> Seq<char>
    decreases width - s.len(),
{
    if s.len() >= width {
        s
    } else {
        zero_padded(seq!['0'] + s, width)
    }
}

/// `n` copies of `c`.
pub open spec fn repeat(c: char, n: nat) -> Seq<char> {
    Seq::new(n, |i: int| c)
}

/// The character of a decimal digit.
pub fn digit_char(d: u64) -> (c: char)
    requires
        d < 10,
    ensures
        c == digit(d as int),
{
    let b: u8 = 48 + d as u8;
    b as char
}

/// The characters of `n` in decimal.
pub fn decimal_chars(n: u64) -> (v: Vec<char>)
    ensures
        v@ == decimal(n as nat),
        v@.len() <= 20,
{
    let v: Vec<char> = decimal_rec(n);
    proof {
        lemma_decimal_len(n as nat, 20);
    }
    v
}

fn decimal_rec(n: u64) -> (v: Vec<char>)
    ensures
        v@ == decimal(n as nat),
    decreases n,
{
    if n < 10 {
        let mut v: Vec<char> = Vec::new();
        v.push(digit_char(n));
        assert(v@ =~= decimal(n as nat));
        v
    } else {
        let mut v: Vec<char> = decimal_rec(n / 10);
        v.push(digit_char(n % 10));
        v
    }
}

/// Ten to the `k`.
pub open spec fn pow10(k: nat) -> nat
    decreases k,
{
    if k == 0 {
        1
    } else {
        10 * pow10((k - 1) as nat)
    }
}

/// A number below ten to the `k` has at most `k` digits.
pub proof fn lemma_decimal_short(n: nat, k: nat)
    requires
        k > 0,
        n < pow10(k),
    ensures
        1 <= decimal(n).len() <= k,
    decreases k,
{
    if n >= 10 {
        assert(k > 1) by {
            if k == 1 {
                assert(pow10(1) == 10 * pow10(0));
                assert(pow10(0) == 1);
            }
        }
        lemma_decimal_short(n / 10, (k - 1) as nat);
    }
}

proof fn lemma_decimal_len(n: nat, k: nat)
    requires
        k == 20,
        n <= u64::MAX,
    ensures
        1 <= decimal(n).len() <= k,
{
    assert(pow10(20) == 100_000_000_000_000_000_000) by {
        reveal_with_fuel(pow10, 21);
    }
    lemma_decimal_short(n, k);
}

/// Appends `n` in decimal to `s`.
pub fn push_decimal(s: &mut String, n: u64)
    ensures
        final(s)@ == old(s)@ + decimal(n as nat),
{
    let v: Vec<char> = decimal_chars(n);
    push_chars(s, v.as_slice());
}

/// Appends `n` in decimal to `s`, with zeros in front up to two digits.
pub fn push_two(s: &mut String, n: u64)
    ensures
        final(s)@ == old(s)@ + zero_padded(decimal(n as nat), 2),
{
    reveal_with_fuel(zero_padded, 2);
    if n < 10 {
        s.push('0');
        push_decimal(s, n);
        assert(zero_padded(decimal(n as nat), 2) =~= seq!['0'] + decimal(n as nat));
        assert(s@ =~= old(s)@ + zero_padded(decimal(n as nat), 2));
    } else {
        proof {
            lemma_decimal_two(n as nat);
        }
        push_decimal(s, n);
    }
}

proof fn lemma_decimal_two(n: nat)
    requires
        n >= 10,
    ensures
        decimal(n).len() >= 2,
    decreases n,
{
    let d = decimal(n / 10);
    if n / 10 >= 10 {
        lemma_decimal_two(n / 10);
    }
    assert(d.len() >= 1);
}

/// Appends `n` copies of `c` to `s`.
pub fn push_repeat(s: &mut String, c: char, n: usize)
    ensures
        final(s)@ == old(s)@ + repeat(c, n as nat),
{
    let mut i: usize = 0;
    assert(s@ =~= old(s)@ + repeat(c, 0));
    while i < n
        invariant
            i <= n,
            s@ == old(s)@ + repeat(c, i as nat),
        decreases n - i,
    {
        s.push(c);
        i += 1;
        assert(repeat(c, i as nat) =~= repeat(c, (i - 1) as nat).push(c));
        assert(s@ =~= old(s)@ + repeat(c, i as nat));
    }
}

/// Whether `s` is one or more decimal digits.
pub open spec fn numeral(s: Seq<char>) -> bool {
    s.len() > 0 && forall|i: int| 0 <= i < s.len() ==> '0' <= #[trigger] s[i] <= '9'
}

/// The number a run of decimal digits stands for.
pub open spec fn value(s: Seq<char>) -> nat
    decreases s.len(),
{
    if s.len() == 0 {
        0
    } else {
        10 * value(s.drop_last()) + (s.last() as nat - '0' as nat) as nat
    }
}

/// The number a run of decimal digits stands for, when it is one that fits.
pub fn parse_digits(s: &[char]) -> (r: Option<u64>)
    ensures
        r == (if numeral(s@) && value(s@) <= u64::MAX {
            Some(value(s@) as u64)
        } else {
            None
        }),
{
    if s.len() == 0 {
        return None;
    }
    let mut n: u64 = 0;
    let mut i: usize = 0;
    assert(s@.take(0) =~= Seq::empty());
    while i < s.len()
        invariant
            s@.len() > 0,
            i <= s@.len(),
            n == value(s@.take(i as int)),
            forall|k: int| 0 <= k < i ==> '0' <= #[trigger] s@[k] <= '9',
        decreases s.len() - i,
    {
        let c: char = s[i];
        if c < '0' || '9' < c {
            assert(!numeral(s@));
            return None;
        }
        let d: u64 = (c as u32 - 48) as u64;
        assert(s@.take(i + 1).drop_last() =~= s@.take(i as int));
        if n > (u64::MAX - d) / 10 {
            proof {
                assert(10 * n + d > u64::MAX) by {
                    let m: u64 = u64::MAX;
                    assert(n as int > (m - d) / 10);
                }
                lemma_value_grows(s@, i + 1);
            }
            return None;
        }
        n = 10 * n + d;
        i += 1;
    }
    assert(s@.take(i as int) =~= s@);
    Some(n)
}

proof fn lemma_value_grows(s: Seq<char>, i: int)
    requires
        0 <= i <= s.len(),
    ensures
        value(s) >= value(s.take(i)),
    decreases s.len() - i,
{
    if i < s.len() {
        lemma_value_grows(s, i + 1);
        assert(s.take(i + 1).drop_last() =~= s.take(i));
    } else {
        assert(s.take(i) =~= s);
    }
}

/// Writing a number in decimal and reading it back gives the number.
pub proof fn decimal_reads_back(n: nat)
    ensures
        numeral(decimal(n)),
        value(decimal(n)) == n,
    decreases n,
{
    if n >= 10 {
        decimal_reads_back(n / 10);
        assert(decimal(n).drop_last() =~= decimal(n / 10));
    } else {
        assert(decimal(n).drop_last() =~= Seq::empty());
        assert(value(Seq::empty()) == 0);
    }
}

// ── what the pieces of a text are ───────────────────────────────────────────

/// Trimming takes the white space off the ends of a text, all of it and nothing else:
/// a text that neither begins nor ends in white space is what is left of it with any
/// white space around it.
pub proof fn trimming_takes_the_white_ends(before: Seq<char>, s: Seq<char>, after: Seq<char>)
    requires
        blank(before),
        blank(after),
        s.len() > 0 ==> !white(s[0]) && !white(s.last()),
    ensures
        trim(before + s + after) == s,
        trim_end(s + after) == s,
        trim_start(before + s) == s,
{
    lemma_trim_start_blank(before, s + after);
    lemma_trim_start_blank(before, s);
    assert(before + s + after =~= before + (s + after));
    lemma_trim_end_blank(s, after);
    if s.len() == 0 {
        assert(s + after =~= after);
        assert(after + Seq::<char>::empty() =~= after);
        lemma_trim_start_blank(after, Seq::empty());
        assert(trim_end(Seq::<char>::empty()) =~= Seq::<char>::empty());
        assert(s =~= Seq::<char>::empty());
    } else {
        assert((s + after)[0] == s[0]);
    }
}

/// White space in front of a text is trimmed away.
pub proof fn lemma_trim_start_blank(before: Seq<char>, s: Seq<char>)
    requires
        blank(before),
    ensures
        trim_start(before + s) == trim_start(s),
    decreases before.len(),
{
    if before.len() == 0 {
        assert(before + s =~= s);
    } else {
        let rest = before.skip(1);
        assert((before + s)[0] == before[0]);
        assert((before + s).skip(1) =~= rest + s);
        assert forall|i: int| 0 <= i < rest.len() implies white(#[trigger] rest[i]) by {
            assert(rest[i] == before[i + 1]);
        }
        lemma_trim_start_blank(rest, s);
    }
}

/// White space behind a text is trimmed away.
pub proof fn lemma_trim_end_blank(s: Seq<char>, after: Seq<char>)
    requires
        blank(after),
    ensures
        trim_end(s + after) == trim_end(s),
    decreases after.len(),
{
    if after.len() == 0 {
        assert(s + after =~= s);
    } else {
        let rest = after.drop_last();
        assert((s + after).last() == after[after.len() - 1]);
        assert((s + after).drop_last() =~= s + rest);
        assert forall|i: int| 0 <= i < rest.len() implies white(#[trigger] rest[i]) by {
            assert(rest[i] == after[i]);
        }
        lemma_trim_end_blank(s, rest);
    }
}

/// Spaces, tabs and line ends are white space; what is seen on a keyboard is not.
pub proof fn what_is_seen_is_not_white(c: char)
    ensures
        white(' ') && white('\t') && white('\n') && white('\r'),
        '!' <= c <= '~' ==> !white(c),
{
}

/// Whether `needle` stands nowhere in front of a place.
pub open spec fn none_before(s: Seq<char>, needle: Seq<char>, at: int) -> bool {
    forall|i: int| 0 <= i < at ==> !#[trigger] stands_at(s, needle, i)
}

/// Whether `needle` stands nowhere behind a place.
pub open spec fn none_behind(s: Seq<char>, needle: Seq<char>, at: int) -> bool {
    forall|i: int| at < i ==> !#[trigger] stands_at(s, needle, i)
}

/// The place of the first occurrence: the text stands there, and nowhere before.
pub proof fn the_first_occurrence_is_found(before: Seq<char>, needle: Seq<char>, after: Seq<char>)
    requires
        none_before(before + needle + after, needle, before.len() as int),
    ensures
        find(before + needle + after, needle) == Some(before.len() as int),
        has(before + needle + after, needle),
{
    let s = before + needle + after;
    assert(s.subrange(before.len() as int, (before.len() + needle.len()) as int) =~= needle);
    assert(stands_at(s, needle, before.len() as int));
    lemma_find_from(s, needle, 0);
}

/// A text in front of another moves what is found in it by its length.
pub proof fn lemma_find_moved(p: Seq<char>, b: Seq<char>, needle: Seq<char>, i: int)
    requires
        0 <= i,
    ensures
        find_from(p + b, needle, p.len() + i) == match find_from(b, needle, i) {
            Some(k) => Some(k + p.len()),
            None => None,
        },
    decreases b.len() - i + 1,
{
    if i + needle.len() <= b.len() {
        assert((p + b).subrange(p.len() + i, p.len() + i + needle.len()) =~= b.subrange(
            i,
            i + needle.len(),
        ));
        if !stands_at(b, needle, i) {
            lemma_find_moved(p, b, needle, i + 1);
        }
    }
}

/// The place of the last occurrence: the text stands there, and nowhere behind.
pub proof fn the_last_occurrence_is_found(before: Seq<char>, needle: Seq<char>, after: Seq<char>)
    requires
        none_behind(before + needle + after, needle, before.len() as int),
    ensures
        rfind(before + needle + after, needle) == Some(before.len() as int),
{
    let s = before + needle + after;
    assert(s.subrange(before.len() as int, (before.len() + needle.len()) as int) =~= needle);
    assert(stands_at(s, needle, before.len() as int));
    lemma_rfind_is(s, needle, before.len() as int, s.len() as int + 1);
}

proof fn lemma_rfind_is(s: Seq<char>, needle: Seq<char>, at: int, to: int)
    requires
        0 <= at < to,
        stands_at(s, needle, at),
        forall|i: int| at < i ==> !#[trigger] stands_at(s, needle, i),
    ensures
        rfind_before(s, needle, to) == Some(at),
    decreases to,
{
    if at < to - 1 {
        assert(!stands_at(s, needle, to - 1));
        lemma_rfind_is(s, needle, at, to - 1);
    }
}

/// A text that a character does not occur in is one piece; where it occurs, the piece in
/// front of the first one is cut off, and the rest is split alike.
pub proof fn splitting_cuts_at_every_mark(piece: Seq<char>, rest: Seq<char>, c: char)
    requires
        !piece.contains(c),
    ensures
        split(piece, c) == seq![piece],
        split(piece + seq![c] + rest, c) == seq![piece] + split(rest, c),
{
    assert forall|j: int| 0 <= j < piece.len() implies piece[j] != c by {
        assert(piece.contains(piece[j]));
    }
    lemma_index_is(piece, c, piece.len() as int);
    let s = piece + seq![c] + rest;
    lemma_index_is(s, c, piece.len() as int);
    assert(s.take(piece.len() as int) =~= piece);
    assert(s.skip((piece.len() + 1) as int) =~= rest);
}

/// The lines of a text are what stands between its line feeds, without the carriage
/// return in front of one; nothing stands behind a line feed that ends the text.
pub proof fn lines_end_at_line_feeds(line: Seq<char>, rest: Seq<char>)
    requires
        !line.contains('\n'),
    ensures
        lines(Seq::empty()) == Seq::<Seq<char>>::empty(),
        line.len() > 0 ==> lines(line) == seq![line],
        line.len() == 0 || line.last() != '\r' ==> lines(line + seq!['\n'] + rest) == seq![line]
            + lines(rest),
        lines(line + seq!['\r', '\n'] + rest) == seq![line] + lines(rest),
{
    assert forall|j: int| 0 <= j < line.len() implies line[j] != '\n' by {
        assert(line.contains(line[j]));
    }
    lemma_index_is(line, '\n', line.len() as int);
    let s = line + seq!['\n'] + rest;
    lemma_index_is(s, '\n', line.len() as int);
    assert(s.take(line.len() as int) =~= line);
    assert(s.skip((line.len() + 1) as int) =~= rest);
    let t = line + seq!['\r', '\n'] + rest;
    lemma_index_is(t, '\n', (line.len() + 1) as int);
    assert(t.take((line.len() + 1) as int) =~= line.push('\r'));
    assert(t.skip((line.len() + 2) as int) =~= rest);
    assert(without_cr(line.push('\r')) =~= line);
}

/// Padding a number with zeros makes it as wide as asked for, and leaves it the number.
pub proof fn zeros_in_front_change_no_number(s: Seq<char>, width: nat)
    requires
        numeral(s),
    ensures
        zero_padded(s, width).len() == if s.len() < width {
            width
        } else {
            s.len()
        },
        numeral(zero_padded(s, width)),
        value(zero_padded(s, width)) == value(s),
    decreases width - s.len(),
{
    if s.len() < width {
        let t = seq!['0'] + s;
        assert forall|i: int| 0 <= i < t.len() implies '0' <= #[trigger] t[i] <= '9' by {
            if i > 0 {
                assert(t[i] == s[i - 1]);
            }
        }
        lemma_value_zero(s);
        zeros_in_front_change_no_number(t, width);
    }
}

proof fn lemma_value_zero(s: Seq<char>)
    ensures
        value(seq!['0'] + s) == value(s),
    decreases s.len(),
{
    let t = seq!['0'] + s;
    if s.len() == 0 {
        assert(t.drop_last() =~= Seq::<char>::empty());
        assert(value(t.drop_last()) == 0);
    } else {
        assert(t.drop_last() =~= seq!['0'] + s.drop_last());
        lemma_value_zero(s.drop_last());
    }
}

/// A digit at the end of a number makes it ten times what it was, and the digit more;
/// nothing is worth nothing.
pub proof fn a_digit_more_is_ten_times_the_number(s: Seq<char>, d: char)
    requires
        '0' <= d <= '9',
    ensures
        value(Seq::empty()) == 0,
        value(s.push(d)) == 10 * value(s) + (d as nat - 48),
{
    assert(s.push(d).drop_last() =~= s);
}

/// Joining pieces puts the mark between each two of them: a single one is itself, and one
/// more comes behind another mark.
pub proof fn joining_puts_the_mark_between(v: Seq<Seq<char>>, piece: Seq<char>, sep: Seq<char>)
    ensures
        join(Seq::empty(), sep) == Seq::<char>::empty(),
        join(seq![piece], sep) == piece,
        v.len() > 0 ==> join(v.push(piece), sep) == join(v, sep) + sep + piece,
{
    assert(v.push(piece).drop_last() =~= v);
}

/// A text begins with what it begins with.
pub proof fn a_text_begins_with_its_beginning(p: Seq<char>, rest: Seq<char>)
    ensures
        starts(p + rest, p),
        p.len() > 0 ==> !starts(Seq::empty(), p),
{
    assert((p + rest).subrange(0, p.len() as int) =~= p);
}

} // verus!
