//! Character-sequence primitives: dividing at a separator, joining,
//! trimming and clearing of blanks.
//!
//! Every text here is modelled as a `Seq<char>`; the executable functions
//! work on `Vec<char>` and state their result over that model.
use vstd::prelude::*;

verus! {

/// `String::push` appends one character to the end of the string and leaves
/// the characters already there untouched.
pub assume_specification[ String::push ](s: &mut String, c: char)
    ensures
        final(s)@ == old(s)@.push(c),
;

/// The views of a sequence of character vectors.
pub open spec fn texts(v: Seq<Vec<char>>) -> Seq<Seq<char>> {
    v.map_values(|p: Vec<char>| p@)
}

/// The views of a sequence of strings.
pub open spec fn string_views(v: Seq<String>) -> Seq<Seq<char>> {
    v.map_values(|p: String| p@)
}

/// The characters of `s`, in order.
pub fn chars_of(s: &str) -> (v: Vec<char>)
    ensures
        v@ == s@,
{
    let mut v: Vec<char> = Vec::new();
    for c in it: s.chars()
        invariant
            v@ == it.seq().take(it.index() as int),
            it.seq() == s@,
    {
        v.push(c);
    }
    v
}

/// The string made of the characters of `v`.
pub fn string_of(v: &Vec<char>) -> (s: String)
    ensures
        s@ == v@,
{
    let mut s = String::new();
    let mut i: usize = 0;
    while i < v.len()
        invariant
            i <= v.len(),
            s@ == v@.take(i as int),
        decreases v.len() - i,
    {
        s.push(v[i]);
        i += 1;
        assert(v@.take(i as int) == v@.take(i - 1).push(v@[i - 1]));
    }
    s
}

/// A copy of `v[from..to]`.
pub fn slice_of(v: &Vec<char>, from: usize, to: usize) -> (r: Vec<char>)
    requires
        from <= to <= v.len(),
    ensures
        r@ == v@.subrange(from as int, to as int),
{
    let mut r: Vec<char> = Vec::new();
    let mut i: usize = from;
    while i < to
        invariant
            from <= i <= to <= v.len(),
            r@ == v@.subrange(from as int, i as int),
        decreases to - i,
    {
        r.push(v[i]);
        i += 1;
        assert(v@.subrange(from as int, i as int) == v@.subrange(from as int, i - 1).push(
            v@[i - 1],
        ));
    }
    r
}

/// Appends the characters of `tail` to `v`.
pub fn extend(v: &mut Vec<char>, tail: &Vec<char>)
    ensures
        final(v)@ == old(v)@ + tail@,
{
    let mut i: usize = 0;
    while i < tail.len()
        invariant
            i <= tail.len(),
            v@ == old(v)@ + tail@.take(i as int),
        decreases tail.len() - i,
    {
        v.push(tail[i]);
        i += 1;
        assert(tail@.take(i as int) == tail@.take(i - 1).push(tail@[i - 1]));
    }
    assert(tail@.take(tail.len() as int) == tail@);
}

/// Whether `a` and `b` hold the same characters.
pub fn same_text(a: &Vec<char>, b: &Vec<char>) -> (r: bool)
    ensures
        r == (a@ == b@),
{
    if a.len() != b.len() {
        return false;
    }
    let mut i: usize = 0;
    while i < a.len()
        invariant
            a.len() == b.len(),
            i <= a.len(),
            forall|j: int| 0 <= j < i ==> a@[j] == b@[j],
        decreases a.len() - i,
    {
        if a[i] != b[i] {
            return false;
        }
        i += 1;
    }
    assert(a@ =~= b@);
    true
}

// ---------------------------------------------------------------------
// Splitting
// ---------------------------------------------------------------------

/// Whether `sep` stands in `s` at index `at`.
pub open spec fn occurs_at(s: Seq<char>, sep: Seq<char>, at: int) -> bool {
    0 <= at && at + sep.len() <= s.len() && s.subrange(at, at + sep.len()) == sep
}

/// The index of the first occurrence of `sep` in `s` at or after `from`, and
/// `s.len()` where there is none.
pub open spec fn next_occurrence(s: Seq<char>, sep: Seq<char>, from: int) -> int
    decreases s.len() - from,
{
    if from < 0 || from >= s.len() || from + sep.len() > s.len() {
        s.len() as int
    } else if occurs_at(s, sep, from) {
        from
    } else {
        next_occurrence(s, sep, from + 1)
    }
}

/// The pieces of `s[from..]` between the occurrences of `sep`, found from
/// left to right without overlap. There is always at least one piece; an
/// empty `sep` divides nothing.
pub open spec fn split_from(s: Seq<char>, sep: Seq<char>, from: int) -> Seq<Seq<char>>
    decreases s.len() - from,
{
    let at = next_occurrence(s, sep, from);
    if sep.len() == 0 || from < 0 || from > s.len() {
        seq![s]
    } else if at < from || at + sep.len() > s.len() {
        seq![s.subrange(from, s.len() as int)]
    } else {
        seq![s.subrange(from, at)] + split_from(s, sep, at + sep.len())
    }
}

/// The pieces of `s` between the occurrences of `sep`.
pub open spec fn split(s: Seq<char>, sep: Seq<char>) -> Seq<Seq<char>> {
    split_from(s, sep, 0)
}

/// `next_occurrence` returns an index in `from..=s.len()`; below `s.len()` it
/// is an occurrence, and there is none before it.
pub proof fn lemma_next_occurrence(s: Seq<char>, sep: Seq<char>, from: int)
    requires
        0 <= from <= s.len(),
    ensures
        from <= next_occurrence(s, sep, from) <= s.len(),
        next_occurrence(s, sep, from) < s.len() ==> occurs_at(
            s,
            sep,
            next_occurrence(s, sep, from),
        ),
        forall|j: int| from <= j < next_occurrence(s, sep, from) ==> !occurs_at(s, sep, j),
        sep.len() > 0 && next_occurrence(s, sep, from) == s.len() ==> forall|j: int|
            from <= j ==> !occurs_at(s, sep, j),
    decreases s.len() - from,
{
    if from >= s.len() || from + sep.len() > s.len() {
    } else if occurs_at(s, sep, from) {
    } else {
        lemma_next_occurrence(s, sep, from + 1);
    }
}

/// Whether `sep` stands in `text` at index `at`.
pub fn matches_at(text: &Vec<char>, sep: &Vec<char>, at: usize) -> (b: bool)
    ensures
        b == occurs_at(text@, sep@, at as int),
{
    if sep.len() > text.len() || at > text.len() - sep.len() {
        return false;
    }
    let mut k: usize = 0;
    while k < sep.len()
        invariant
            k <= sep.len(),
            at + sep.len() <= text.len(),
            forall|j: int| 0 <= j < k ==> text@[at + j] == sep@[j],
        decreases sep.len() - k,
    {
        if text[at + k] != sep[k] {
            assert(text@.subrange(at as int, at + sep.len())[k as int] != sep@[k as int]);
            return false;
        }
        k += 1;
    }
    assert(text@.subrange(at as int, at + sep.len()) =~= sep@);
    true
}

/// Splits `text` at every occurrence of `sep`, from left to right.
pub fn split_text(text: &Vec<char>, sep: &Vec<char>) -> (pieces: Vec<Vec<char>>)
    ensures
        texts(pieces@) == split(text@, sep@),
{
    let mut pieces: Vec<Vec<char>> = Vec::new();
    if sep.len() == 0 {
        pieces.push(slice_of(text, 0, text.len()));
        assert(text@.subrange(0, text.len() as int) == text@);
        assert(texts(pieces@) =~= seq![text@]);
        return pieces;
    }
    let mut start: usize = 0;
    let mut i: usize = 0;
    while sep.len() <= text.len() && i <= text.len() - sep.len()
        invariant
            sep.len() > 0,
            start <= i <= text.len(),
            texts(pieces@) + split_from(text@, sep@, start as int) == split(text@, sep@),
            forall|j: int| start <= j < i ==> !occurs_at(text@, sep@, j),
        decreases text.len() - i,
    {
        if matches_at(text, sep, i) {
            proof {
                lemma_next_occurrence(text@, sep@, start as int);
                assert(next_occurrence(text@, sep@, start as int) == i);
            }
            let piece = slice_of(text, start, i);
            let ghost before = texts(pieces@);
            pieces.push(piece);
            assert(texts(pieces@) =~= before.push(piece@));
            i += sep.len();
            start = i;
            assert(texts(pieces@) + split_from(text@, sep@, start as int) =~= before + (seq![
                piece@,
            ] + split_from(text@, sep@, start as int)));
        } else {
            i += 1;
        }
    }
    proof {
        lemma_next_occurrence(text@, sep@, start as int);
        let at = next_occurrence(text@, sep@, start as int);
        if at < text.len() {
            assert(occurs_at(text@, sep@, at));
            assert(at < i);
        }
    }
    let piece = slice_of(text, start, text.len());
    let ghost before = texts(pieces@);
    pieces.push(piece);
    assert(texts(pieces@) =~= before.push(piece@));
    assert(before.push(piece@) =~= before + seq![piece@]);
    pieces
}

// ---------------------------------------------------------------------
// Trimming
// ---------------------------------------------------------------------

/// `s` without its leading run of characters equal to `a` or `b`.
pub open spec fn trim_start(s: Seq<char>, a: char, b: char) -> Seq<char>
    decreases s.len(),
{
    if s.len() > 0 && (s[0] == a || s[0] == b) {
        trim_start(s.drop_first(), a, b)
    } else {
        s
    }
}

/// `s` without its trailing run of characters equal to `a` or `b`.
pub open spec fn trim_end(s: Seq<char>, a: char, b: char) -> Seq<char>
    decreases s.len(),
{
    if s.len() > 0 && (s.last() == a || s.last() == b) {
        trim_end(s.drop_last(), a, b)
    } else {
        s
    }
}

/// `s` without the characters equal to `a` or `b` at either end.
pub open spec fn trim(s: Seq<char>, a: char, b: char) -> Seq<char> {
    trim_end(trim_start(s, a, b), a, b)
}

/// Removes from both ends of `text` every character equal to `a` or `b`.
pub fn trim_text(text: &Vec<char>, a: char, b: char) -> (r: Vec<char>)
    ensures
        r@ == trim(text@, a, b),
{
    let n = text.len();
    let mut lo: usize = 0;
    assert(text@.subrange(0, n as int) == text@);
    while lo < n && (text[lo] == a || text[lo] == b)
        invariant
            n == text.len(),
            lo <= n,
            trim_start(text@, a, b) == trim_start(text@.subrange(lo as int, n as int), a, b),
        decreases n - lo,
    {
        assert(text@.subrange(lo as int, n as int).drop_first() == text@.subrange(
            lo + 1,
            n as int,
        ));
        lo += 1;
    }
    let mut hi: usize = n;
    while hi > lo && (text[hi - 1] == a || text[hi - 1] == b)
        invariant
            n == text.len(),
            lo <= hi <= n,
            trim(text@, a, b) == trim_end(text@.subrange(lo as int, hi as int), a, b),
        decreases hi - lo,
    {
        assert(text@.subrange(lo as int, hi as int).drop_last() == text@.subrange(
            lo as int,
            hi - 1,
        ));
        hi -= 1;
    }
    slice_of(text, lo, hi)
}

// ---------------------------------------------------------------------
// Blanks
// ---------------------------------------------------------------------

/// The characters that a fragment is cleared of: space, tab and newline.
pub open spec fn is_blank(c: char) -> bool {
    c == ' ' || c == '\t' || c == '\n'
}

/// `s` without its blanks, the other characters in their order.
pub open spec fn without_blanks(s: Seq<char>) -> Seq<char>
    decreases s.len(),
{
    if s.len() == 0 {
        s
    } else if is_blank(s.last()) {
        without_blanks(s.drop_last())
    } else {
        without_blanks(s.drop_last()).push(s.last())
    }
}

/// Removes every space, tab and newline from `text`.
pub fn strip_blanks(text: &Vec<char>) -> (r: Vec<char>)
    ensures
        r@ == without_blanks(text@),
{
    let mut r: Vec<char> = Vec::new();
    let mut i: usize = 0;
    while i < text.len()
        invariant
            i <= text.len(),
            r@ == without_blanks(text@.take(i as int)),
        decreases text.len() - i,
    {
        let c = text[i];
        assert(text@.take(i + 1).drop_last() == text@.take(i as int));
        if !(c == ' ' || c == '\t' || c == '\n') {
            r.push(c);
        }
        i += 1;
    }
    assert(text@.take(text.len() as int) == text@);
    r
}

// ---------------------------------------------------------------------
// Joining, and dividing what was joined
// ---------------------------------------------------------------------

/// `parts` with `sep` between each two neighbours.
pub open spec fn join(parts: Seq<Seq<char>>, sep: Seq<char>) -> Seq<char>
    decreases parts.len(),
{
    if parts.len() == 0 {
        Seq::empty()
    } else if parts.len() == 1 {
        parts[0]
    } else {
        join(parts.drop_last(), sep) + sep + parts.last()
    }
}

/// Whether `p`, followed by `sep`, holds no occurrence of `sep` before that
/// one: a part that dividing at `sep` gives back whole.
pub open spec fn free_of(p: Seq<char>, sep: Seq<char>) -> bool {
    forall|j: int| 0 <= j < p.len() ==> !occurs_at(p + sep, sep, j)
}

/// A separator of one character occurs where that character stands.
pub proof fn lemma_occurs_at_char(s: Seq<char>, c: char, at: int)
    ensures
        occurs_at(s, seq![c], at) <==> (0 <= at < s.len() && s[at] == c),
{
    if 0 <= at < s.len() {
        if s[at] == c {
            assert(s.subrange(at, at + 1) =~= seq![c]);
        } else {
            assert(s.subrange(at, at + 1)[0] == s[at]);
        }
    }
}

/// A text without the character `c` is free of the separator `c`.
pub proof fn lemma_free_of_char(p: Seq<char>, c: char)
    requires
        !p.contains(c),
    ensures
        free_of(p, seq![c]),
{
    assert forall|j: int| 0 <= j < p.len() implies !occurs_at(p + seq![c], seq![c], j) by {
        lemma_occurs_at_char(p + seq![c], c, j);
        assert(p.contains(p[j]));
    }
}

/// An occurrence of `sep` in `s` at or after `k` is one in `s.skip(k)`,
/// `k` places earlier.
pub proof fn lemma_occurs_at_skip(s: Seq<char>, sep: Seq<char>, k: int, at: int)
    requires
        0 <= k <= at,
        k <= s.len(),
    ensures
        occurs_at(s, sep, at) == occurs_at(s.skip(k), sep, at - k),
{
    if at + sep.len() <= s.len() {
        assert(s.subrange(at, at + sep.len()) =~= s.skip(k).subrange(
            at - k,
            at - k + sep.len(),
        ));
    }
}

/// The next occurrence in `s.skip(k)` is that in `s`, `k` places earlier.
pub proof fn lemma_next_occurrence_skip(s: Seq<char>, sep: Seq<char>, k: int, from: int)
    requires
        0 <= k <= from <= s.len(),
    ensures
        next_occurrence(s, sep, from) == k + next_occurrence(s.skip(k), sep, from - k),
    decreases s.len() - from,
{
    if from >= s.len() || from + sep.len() > s.len() {
    } else {
        lemma_occurs_at_skip(s, sep, k, from);
        if !occurs_at(s, sep, from) {
            lemma_next_occurrence_skip(s, sep, k, from + 1);
        }
    }
}

/// Dividing `s` from `from` on gives the pieces of `s.skip(k)` from
/// `from - k` on.
pub proof fn lemma_split_from_skip(s: Seq<char>, sep: Seq<char>, k: int, from: int)
    requires
        sep.len() > 0,
        0 <= k <= from <= s.len(),
    ensures
        split_from(s, sep, from) == split_from(s.skip(k), sep, from - k),
    decreases s.len() - from,
{
    let t = s.skip(k);
    let at = next_occurrence(s, sep, from);
    lemma_next_occurrence_skip(s, sep, k, from);
    lemma_next_occurrence(s, sep, from);
    if at + sep.len() > s.len() {
        assert(s.subrange(from, s.len() as int) =~= t.subrange(from - k, t.len() as int));
    } else {
        assert(s.subrange(from, at) =~= t.subrange(from - k, at - k));
        lemma_split_from_skip(s, sep, k, at + sep.len());
    }
}

/// Dividing gives one piece at least.
pub proof fn lemma_split_nonempty(s: Seq<char>, sep: Seq<char>)
    ensures
        split(s, sep).len() >= 1,
{
}

/// A text that holds no occurrence of `sep` is a single piece.
pub proof fn lemma_split_one(p: Seq<char>, sep: Seq<char>)
    requires
        sep.len() > 0,
        forall|j: int| 0 <= j < p.len() ==> !occurs_at(p, sep, j),
    ensures
        split(p, sep) == seq![p],
{
    lemma_next_occurrence(p, sep, 0);
    assert(p.subrange(0, p.len() as int) =~= p);
}

/// Dividing `p + sep + rest`, where `p` is free of `sep`, gives `p` and
/// then the pieces of `rest`.
pub proof fn lemma_split_first(p: Seq<char>, sep: Seq<char>, rest: Seq<char>)
    requires
        sep.len() > 0,
        free_of(p, sep),
    ensures
        split(p + sep + rest, sep) == seq![p] + split(rest, sep),
{
    let s = p + sep + rest;
    let n = p.len() as int;
    assert(s.subrange(n, n + sep.len()) =~= sep);
    assert forall|j: int| 0 <= j < n implies !occurs_at(s, sep, j) by {
        assert(!occurs_at(p + sep, sep, j));
        assert(s.subrange(j, j + sep.len()) =~= (p + sep).subrange(j, j + sep.len()));
    }
    assert(occurs_at(s, sep, n));
    lemma_next_occurrence(s, sep, 0);
    assert(next_occurrence(s, sep, 0) == n);
    assert(s.subrange(0, n) =~= p);
    lemma_split_from_skip(s, sep, n + sep.len(), n + sep.len());
    assert(s.skip(n + sep.len()) =~= rest);
}

/// The first part of a join can be taken off its front.
pub proof fn lemma_join_first(parts: Seq<Seq<char>>, sep: Seq<char>)
    requires
        parts.len() >= 2,
    ensures
        join(parts, sep) == parts[0] + sep + join(parts.drop_first(), sep),
    decreases parts.len(),
{
    if parts.len() == 2 {
        assert(parts.drop_last() =~= seq![parts[0]]);
        assert(parts.drop_first() =~= seq![parts[1]]);
        assert(join(parts.drop_last(), sep) == parts[0]);
        assert(join(parts.drop_first(), sep) == parts[1]);
    } else {
        lemma_join_first(parts.drop_last(), sep);
        assert(parts.drop_last().drop_first() =~= parts.drop_first().drop_last());
        assert(join(parts, sep) =~= parts[0] + sep + (join(parts.drop_first().drop_last(), sep)
            + sep + parts.last()));
    }
}

/// Dividing a join of parts that are free of the separator gives the parts
/// back.
pub proof fn lemma_split_join(parts: Seq<Seq<char>>, sep: Seq<char>)
    requires
        sep.len() > 0,
        parts.len() > 0,
        forall|i: int| 0 <= i < parts.len() ==> free_of(#[trigger] parts[i], sep),
    ensures
        split(join(parts, sep), sep) == parts,
    decreases parts.len(),
{
    let p = parts[0];
    if parts.len() == 1 {
        assert forall|j: int| 0 <= j < p.len() implies !occurs_at(p, sep, j) by {
            assert(!occurs_at(p + sep, sep, j));
            if j + sep.len() <= p.len() {
                assert(p.subrange(j, j + sep.len()) =~= (p + sep).subrange(j, j + sep.len()));
            }
        }
        lemma_split_one(p, sep);
        assert(parts =~= seq![p]);
    } else {
        let tail = parts.drop_first();
        lemma_join_first(parts, sep);
        lemma_split_first(p, sep, join(tail, sep));
        assert forall|i: int| 0 <= i < tail.len() implies free_of(#[trigger] tail[i], sep) by {
            assert(tail[i] == parts[i + 1]);
        }
        lemma_split_join(tail, sep);
        assert(parts =~= seq![p] + tail);
    }
}

/// Trimming takes nothing from a text whose ends are neither `a` nor `b`.
pub proof fn lemma_trim_nothing(s: Seq<char>, a: char, b: char)
    requires
        s.len() > 0 ==> s[0] != a && s[0] != b && s.last() != a && s.last() != b,
    ensures
        trim(s, a, b) == s,
{
}

/// Trimming takes off one character at each end, and no more, where what
/// stands between them has ends that are neither `a` nor `b`.
pub proof fn lemma_trim_wrapped(s: Seq<char>, a: char, b: char, open: char, close: char)
    requires
        open == a || open == b,
        close == a || close == b,
        s.len() > 0 ==> s[0] != a && s[0] != b && s.last() != a && s.last() != b,
    ensures
        trim(seq![open] + s + seq![close], a, b) == s,
{
    let w = seq![open] + s + seq![close];
    assert(w.drop_first() =~= s + seq![close]);
    if s.len() == 0 {
        assert((s + seq![close]).drop_first() =~= Seq::<char>::empty());
        assert(trim_start(Seq::<char>::empty(), a, b) == Seq::<char>::empty());
        assert(trim_start(s + seq![close], a, b) == Seq::<char>::empty());
        assert(trim_start(w, a, b) == Seq::<char>::empty());
    } else {
        assert(trim_start(s + seq![close], a, b) == s + seq![close]);
        assert(trim_start(w, a, b) == s + seq![close]);
        assert((s + seq![close]).drop_last() =~= s);
        assert(trim_end(s, a, b) == s);
    }
}

// ---------------------------------------------------------------------
// What trimming, clearing and dividing keep
// ---------------------------------------------------------------------

/// Whether `s` holds no blank.
pub open spec fn blank_free(s: Seq<char>) -> bool {
    forall|i: int| 0 <= i < s.len() ==> !is_blank(#[trigger] s[i])
}

/// Whether every character of `part` is one of `whole`.
pub open spec fn drawn_from(part: Seq<char>, whole: Seq<char>) -> bool {
    forall|i: int| 0 <= i < part.len() ==> whole.contains(#[trigger] part[i])
}

/// Clearing a text of blanks clears its two halves.
pub proof fn lemma_without_blanks_concat(a: Seq<char>, b: Seq<char>)
    ensures
        without_blanks(a + b) == without_blanks(a) + without_blanks(b),
    decreases b.len(),
{
    if b.len() == 0 {
        assert(a + b =~= a);
        assert(without_blanks(a) + without_blanks(b) =~= without_blanks(a));
    } else {
        assert((a + b).drop_last() =~= a + b.drop_last());
        lemma_without_blanks_concat(a, b.drop_last());
        if !is_blank(b.last()) {
            assert((without_blanks(a) + without_blanks(b.drop_last())).push(b.last())
                =~= without_blanks(a) + without_blanks(b.drop_last()).push(b.last()));
        }
    }
}

/// Clearing a text without blanks changes nothing.
pub proof fn lemma_without_blanks_same(s: Seq<char>)
    requires
        blank_free(s),
    ensures
        without_blanks(s) == s,
    decreases s.len(),
{
    if s.len() > 0 {
        assert(!is_blank(s[s.len() - 1]));
        assert forall|i: int| 0 <= i < s.drop_last().len() implies !is_blank(
            #[trigger] s.drop_last()[i],
        ) by {
            assert(s.drop_last()[i] == s[i]);
        }
        lemma_without_blanks_same(s.drop_last());
        assert(s.drop_last().push(s.last()) =~= s);
    }
}

/// A text cleared of blanks holds none, and no character that it did not
/// hold before.
pub proof fn lemma_without_blanks_clears(s: Seq<char>)
    ensures
        blank_free(without_blanks(s)),
        drawn_from(without_blanks(s), s),
    decreases s.len(),
{
    if s.len() > 0 {
        let head = s.drop_last();
        lemma_without_blanks_clears(head);
        let r = without_blanks(s);
        assert forall|i: int| 0 <= i < r.len() implies !is_blank(#[trigger] r[i]) && s.contains(
            r[i],
        ) by {
            if i < without_blanks(head).len() {
                assert(r[i] == without_blanks(head)[i]);
                let k = choose|k: int| 0 <= k < head.len() && head[k] == r[i];
                assert(s[k] == r[i]);
            } else {
                assert(r[i] == s[s.len() - 1]);
            }
        }
    }
}

/// What `trim_start` leaves is the end of the text and starts with neither
/// `a` nor `b`.
pub proof fn lemma_trim_start(s: Seq<char>, a: char, b: char)
    ensures
        trim_start(s, a, b).len() <= s.len(),
        trim_start(s, a, b) == s.skip(s.len() - trim_start(s, a, b).len()),
        trim_start(s, a, b).len() > 0 ==> trim_start(s, a, b)[0] != a && trim_start(s, a, b)[0]
            != b,
    decreases s.len(),
{
    if s.len() > 0 && (s[0] == a || s[0] == b) {
        lemma_trim_start(s.drop_first(), a, b);
        let r = trim_start(s, a, b);
        assert(s.drop_first().skip(s.drop_first().len() - r.len()) =~= s.skip(s.len() - r.len()));
    } else {
        assert(s.skip(0) =~= s);
    }
}

/// What `trim_end` leaves is the start of the text and ends with neither
/// `a` nor `b`.
pub proof fn lemma_trim_end(s: Seq<char>, a: char, b: char)
    ensures
        trim_end(s, a, b).len() <= s.len(),
        trim_end(s, a, b) == s.take(trim_end(s, a, b).len() as int),
        trim_end(s, a, b).len() > 0 ==> trim_end(s, a, b).last() != a && trim_end(s, a, b).last()
            != b,
    decreases s.len(),
{
    if s.len() > 0 && (s.last() == a || s.last() == b) {
        lemma_trim_end(s.drop_last(), a, b);
        let r = trim_end(s, a, b);
        assert(s.drop_last().take(r.len() as int) =~= s.take(r.len() as int));
    } else {
        assert(s.take(s.len() as int) =~= s);
    }
}

/// What trimming leaves has neither `a` nor `b` at its ends, and no
/// character that the text did not hold.
pub proof fn lemma_trim(s: Seq<char>, a: char, b: char)
    ensures
        trim(s, a, b).len() > 0 ==> {
            &&& trim(s, a, b)[0] != a
            &&& trim(s, a, b)[0] != b
            &&& trim(s, a, b).last() != a
            &&& trim(s, a, b).last() != b
        },
        drawn_from(trim(s, a, b), s),
{
    let front = trim_start(s, a, b);
    let r = trim(s, a, b);
    lemma_trim_start(s, a, b);
    lemma_trim_end(front, a, b);
    if r.len() > 0 {
        assert(r[0] == front[0]);
    }
    assert forall|i: int| 0 <= i < r.len() implies s.contains(#[trigger] r[i]) by {
        assert(r[i] == front[i]);
        assert(front[i] == s[s.len() - front.len() + i]);
    }
}

/// One more `a` or `b` at the end of a text is trimmed with the rest.
pub proof fn lemma_trim_one_more_at_end(s: Seq<char>, a: char, b: char, close: char)
    requires
        close == a || close == b,
    ensures
        trim(s + seq![close], a, b) == trim(s, a, b),
    decreases s.len(),
{
    let w = s + seq![close];
    if s.len() == 0 {
        assert(w.drop_first() =~= Seq::<char>::empty());
        assert(trim_start(w.drop_first(), a, b) =~= Seq::<char>::empty());
        assert(trim_start(w, a, b) =~= Seq::<char>::empty());
        assert(trim_start(s, a, b) =~= Seq::<char>::empty());
    } else if s[0] == a || s[0] == b {
        assert(w.drop_first() =~= s.drop_first() + seq![close]);
        lemma_trim_one_more_at_end(s.drop_first(), a, b, close);
    } else {
        assert(w.drop_last() =~= s);
    }
}

/// Trimming a text that stands between one `a` or `b` at each end trims
/// the text itself.
pub proof fn lemma_trim_between(s: Seq<char>, a: char, b: char, open: char, close: char)
    requires
        open == a || open == b,
        close == a || close == b,
    ensures
        trim(seq![open] + s + seq![close], a, b) == trim(s, a, b),
{
    let w = seq![open] + s + seq![close];
    assert(w.drop_first() =~= s + seq![close]);
    lemma_trim_one_more_at_end(s, a, b, close);
}

/// Whether `piece` is a stretch of `s` in which `sep` does not start.
pub open spec fn is_stretch(s: Seq<char>, sep: Seq<char>, piece: Seq<char>) -> bool {
    exists|from: int, to: int|
        0 <= from <= to <= s.len() && piece == #[trigger] s.subrange(from, to) && forall|j: int|
            from <= j < to ==> !occurs_at(s, sep, j)
}

/// Every piece that dividing gives is a stretch of the text in which the
/// separator does not start.
pub proof fn lemma_split_from_stretches(s: Seq<char>, sep: Seq<char>, from: int)
    requires
        sep.len() > 0,
        0 <= from <= s.len(),
    ensures
        forall|i: int|
            0 <= i < split_from(s, sep, from).len() ==> is_stretch(
                s,
                sep,
                #[trigger] split_from(s, sep, from)[i],
            ),
    decreases s.len() - from,
{
    let at = next_occurrence(s, sep, from);
    lemma_next_occurrence(s, sep, from);
    let pieces = split_from(s, sep, from);
    if at + sep.len() > s.len() {
        assert(is_stretch(s, sep, s.subrange(from, s.len() as int)));
    } else {
        lemma_split_from_stretches(s, sep, at + sep.len());
        assert(is_stretch(s, sep, s.subrange(from, at)));
        let rest = split_from(s, sep, at + sep.len());
        assert forall|i: int| 0 <= i < pieces.len() implies is_stretch(
            s,
            sep,
            #[trigger] pieces[i],
        ) by {
            if i > 0 {
                assert(pieces[i] == rest[i - 1]);
            }
        }
    }
}

/// A piece that dividing at the character `c` gives holds no `c`, and no
/// character that the text did not hold.
pub proof fn lemma_split_char_pieces(s: Seq<char>, c: char, i: int)
    requires
        0 <= i < split(s, seq![c]).len(),
    ensures
        !split(s, seq![c])[i].contains(c),
        drawn_from(split(s, seq![c])[i], s),
{
    let sep = seq![c];
    let piece = split(s, sep)[i];
    lemma_split_from_stretches(s, sep, 0);
    assert(is_stretch(s, sep, piece));
    let (from, to) = choose|from: int, to: int|
        0 <= from <= to <= s.len() && piece == #[trigger] s.subrange(from, to) && forall|j: int|
            from <= j < to ==> !occurs_at(s, sep, j);
    assert forall|k: int| 0 <= k < piece.len() implies piece[k] != c && s.contains(
        #[trigger] piece[k],
    ) by {
        assert(piece[k] == s[from + k]);
        lemma_occurs_at_char(s, c, from + k);
    }
}

} // verus!
