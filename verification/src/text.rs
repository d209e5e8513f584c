//! Text as a sequence of characters: whitespace, words, lines, columns and joins.

use vstd::prelude::*;
use vstd::slice::{slice_subrange, slice_to_vec};

verus! {

/// `String::push`: the character is appended to the end of the string.
pub assume_specification[ String::push ](s: &mut String, c: char)
    ensures
        final(s)@ == old(s)@.push(c),
;

/// The characters of a string.
pub fn to_chars(s: &str) -> (res: Vec<char>)
    ensures
        res@ == s@,
{
    let mut res: Vec<char> = Vec::new();
    for c in it: s.chars()
        invariant
            it.seq() == s@,
            res@ == s@.take(it.index()),
    {
        res.push(c);
    }
    res
}

/// The string made of some characters.
pub fn to_text(s: &[char]) -> (res: String)
    ensures
        res@ == s@,
{
    let mut res = String::new();
    let mut i: usize = 0;
    while i < s.len()
        invariant
            i <= s.len(),
            res@ == s@.take(i as int),
        decreases s.len() - i,
    {
        res.push(s[i]);
        i = i + 1;
        assert(s@.take(i as int) =~= s@.take(i - 1).push(s@[i - 1]));
    }
    assert(s@.take(i as int) =~= s@);
    res
}

/// The texts of a list of strings.
pub open spec fn strings(list: Seq<String>) -> Seq<Seq<char>> {
    Seq::new(list.len(), |i: int| list[i]@)
}

/// The texts of a list of character vectors.
pub open spec fn texts(list: Seq<Vec<char>>) -> Seq<Seq<char>> {
    Seq::new(list.len(), |i: int| list[i]@)
}

/// Whether a slice of characters spells a given text.
pub fn is_text(s: &[char], t: &str) -> (res: bool)
    ensures
        res == (s@ == t@),
{
    let chars = to_chars(t);
    if s.len() != chars.len() {
        return false;
    }
    let mut i: usize = 0;
    while i < s.len()
        invariant
            i <= s.len() == chars.len(),
            chars@ == t@,
            forall|j: int| 0 <= j < i ==> s@[j] == chars@[j],
        decreases s.len() - i,
    {
        if s[i] != chars[i] {
            return false;
        }
        i = i + 1;
    }
    assert(s@ =~= t@);
    true
}

/// Unicode's White_Space property.
pub open spec fn is_space(c: char) -> bool {
    ||| '\u{9}' <= c <= '\u{d}'
    ||| c == '\u{20}'
    ||| c == '\u{85}'
    ||| c == '\u{a0}'
    ||| c == '\u{1680}'
    ||| '\u{2000}' <= c <= '\u{200a}'
    ||| c == '\u{2028}'
    ||| c == '\u{2029}'
    ||| c == '\u{202f}'
    ||| c == '\u{205f}'
    ||| c == '\u{3000}'
}

/// Whether a character is white space.
pub fn is_whitespace(c: char) -> (res: bool)
    ensures
        res == is_space(c),
{
    ('\u{9}' <= c && c <= '\u{d}') || c == '\u{20}' || c == '\u{85}' || c == '\u{a0}' || c
        == '\u{1680}' || ('\u{2000}' <= c && c <= '\u{200a}') || c == '\u{2028}' || c == '\u{2029}'
        || c == '\u{202f}' || c == '\u{205f}' || c == '\u{3000}'
}

/// What is left without the white space at the start.
pub open spec fn trim_start(s: Seq<char>) -> Seq<char>
    decreases s.len(),
{
    if s.len() > 0 && is_space(s[0]) {
        trim_start(s.drop_first())
    } else {
        s
    }
}

/// What is left without the white space at the end.
pub open spec fn trim_end(s: Seq<char>) -> Seq<char>
    decreases s.len(),
{
    if s.len() > 0 && is_space(s.last()) {
        trim_end(s.drop_last())
    } else {
        s
    }
}

/// What is left without the white space at either end.
pub open spec fn trimmed(s: Seq<char>) -> Seq<char> {
    trim_end(trim_start(s))
}

/// How far the white space at the start reaches, counted from `from`.
fn skip_space(s: &[char], from: usize) -> (res: usize)
    requires
        from <= s.len(),
    ensures
        from <= res <= s.len(),
        trim_start(s@.skip(from as int)) == s@.skip(res as int),
        res < s.len() ==> !is_space(s@[res as int]),
{
    let mut i: usize = from;
    while i < s.len() && is_whitespace(s[i])
        invariant
            from <= i <= s.len(),
            trim_start(s@.skip(from as int)) == trim_start(s@.skip(i as int)),
        decreases s.len() - i,
    {
        assert(s@.skip(i as int).drop_first() =~= s@.skip(i + 1));
        i = i + 1;
    }
    i
}

/// The text without the white space at either end.
pub fn trim<'a>(s: &'a [char]) -> (res: &'a [char])
    ensures
        res@ == trimmed(s@),
{
    let start = skip_space(s, 0);
    assert(s@.skip(0) =~= s@);
    let ghost body = s@.skip(start as int);
    let mut end: usize = s.len();
    assert(body.take(end - start) =~= body);
    while end > start && is_whitespace(s[end - 1])
        invariant
            start <= end <= s.len(),
            body == s@.skip(start as int),
            trim_end(body) == trim_end(body.take(end - start)),
        decreases end,
    {
        assert(body.take(end - start).drop_last() =~= body.take(end - start - 1));
        end = end - 1;
    }
    assert(body.take(end - start) =~= s@.subrange(start as int, end as int));
    slice_subrange(s, start, end)
}

/// The length of the word at the start: up to the first white space.
pub open spec fn word_len(s: Seq<char>) -> nat
    decreases s.len(),
{
    if s.len() == 0 || is_space(s[0]) {
        0
    } else {
        1 + word_len(s.drop_first())
    }
}

pub proof fn lemma_word_len(s: Seq<char>)
    ensures
        word_len(s) <= s.len(),
    decreases s.len(),
{
    if s.len() > 0 && !is_space(s[0]) {
        lemma_word_len(s.drop_first());
    }
}

pub proof fn lemma_trim_start_len(s: Seq<char>)
    ensures
        trim_start(s).len() <= s.len(),
        trim_start(s).len() > 0 ==> !is_space(trim_start(s)[0]),
    decreases s.len(),
{
    if s.len() > 0 && is_space(s[0]) {
        lemma_trim_start_len(s.drop_first());
    }
}

/// The words of a text: the longest stretches without white space, in order.
pub open spec fn words(s: Seq<char>) -> Seq<Seq<char>>
    decreases s.len(),
{
    let t = trim_start(s);
    if t.len() == 0 {
        Seq::empty()
    } else {
        let k = word_len(t) as int;
        proof {
            lemma_trim_start_len(s);
            lemma_word_len(t);
        }
        seq![t.take(k)] + words(t.skip(k))
    }
}

/// Splits a text at white space.
pub fn split_words(s: &[char]) -> (res: Vec<Vec<char>>)
    ensures
        texts(res@) == words(s@),
{
    let mut res: Vec<Vec<char>> = Vec::new();
    let mut i: usize = 0;
    assert(s@.skip(0) =~= s@);
    assert(texts(res@) + words(s@) =~= words(s@));
    loop
        invariant
            i <= s.len(),
            texts(res@) + words(s@.skip(i as int)) == words(s@),
        decreases s.len() - i,
    {
        let start = skip_space(s, i);
        if start == s.len() {
            assert(words(s@.skip(i as int)) =~= Seq::empty());
            assert(texts(res@) =~= words(s@));
            return res;
        }
        let ghost t = s@.skip(start as int);
        let mut end: usize = start;
        while end < s.len() && !is_whitespace(s[end])
            invariant
                start <= end <= s.len(),
                t == s@.skip(start as int),
                word_len(t) == end - start + word_len(s@.skip(end as int)),
                end == start ==> start < s.len() && !is_space(s@[start as int]),
            decreases s.len() - end,
        {
            assert(s@.skip(end as int).drop_first() =~= s@.skip(end + 1));
            end = end + 1;
        }
        let ghost old_res = res@;
        res.push(slice_to_vec(slice_subrange(s, start, end)));
        assert(t.take(end - start) =~= s@.subrange(start as int, end as int));
        assert(t.skip(end - start) =~= s@.skip(end as int));
        assert(texts(res@) =~= texts(old_res).push(t.take(end - start)));
        assert(texts(old_res) + (seq![t.take(end - start)] + words(s@.skip(end as int))) =~= texts(
            old_res,
        ).push(t.take(end - start)) + words(s@.skip(end as int)));
        i = end;
    }
}

/// The place of the first `c`, or the length of the text if there is none.
pub open spec fn position(s: Seq<char>, c: char) -> nat
    decreases s.len(),
{
    if s.len() == 0 || s[0] == c {
        0
    } else {
        1 + position(s.drop_first(), c)
    }
}

pub proof fn lemma_position(s: Seq<char>, c: char)
    ensures
        position(s, c) <= s.len(),
        position(s, c) < s.len() ==> s[position(s, c) as int] == c,
        forall|i: int| 0 <= i < position(s, c) ==> s[i] != c,
    decreases s.len(),
{
    if s.len() > 0 && s[0] != c {
        let rest = s.drop_first();
        lemma_position(rest, c);
        assert forall|i: int| 0 <= i < position(s, c) implies s[i] != c by {
            if i > 0 {
                assert(s[i] == rest[i - 1]);
            }
        }
    }
}

/// Finds the first `c` at or after `from`.
pub fn find(s: &[char], c: char, from: usize) -> (res: usize)
    requires
        from <= s.len(),
    ensures
        from <= res <= s.len(),
        res - from == position(s@.skip(from as int), c),
        res < s.len() ==> s@[res as int] == c,
{
    let mut i: usize = from;
    while i < s.len() && s[i] != c
        invariant
            from <= i <= s.len(),
            position(s@.skip(from as int), c) == i - from + position(s@.skip(i as int), c),
        decreases s.len() - i,
    {
        assert(s@.skip(i as int).drop_first() =~= s@.skip(i + 1));
        i = i + 1;
    }
    i
}

/// The place of the last `c`, or -1 if there is none.
pub open spec fn last_position(s: Seq<char>, c: char) -> int
    decreases s.len(),
{
    if s.len() == 0 {
        -1
    } else if s.last() == c {
        s.len() - 1
    } else {
        last_position(s.drop_last(), c)
    }
}

/// Finds the last `c`.
pub fn find_last(s: &[char], c: char) -> (res: Option<usize>)
    ensures
        match res {
            Some(i) => i < s.len() && i == last_position(s@, c) && s@[i as int] == c,
            None => last_position(s@, c) == -1,
        },
{
    let mut i: usize = s.len();
    assert(s@.take(i as int) =~= s@);
    while i > 0
        invariant
            i <= s.len(),
            last_position(s@, c) == last_position(s@.take(i as int), c),
        decreases i,
    {
        if s[i - 1] == c {
            return Some(i - 1);
        }
        assert(s@.take(i as int).drop_last() =~= s@.take(i - 1));
        i = i - 1;
    }
    None
}

/// A line without the carriage return before its line feed.
pub open spec fn chomp(s: Seq<char>) -> Seq<char> {
    if s.len() > 0 && s.last() == '\r' {
        s.drop_last()
    } else {
        s
    }
}

/// The lines of a text. A line ends at a line feed, or a carriage return and a line feed;
/// the last one may lack its ending.
pub open spec fn lines(s: Seq<char>) -> Seq<Seq<char>>
    decreases s.len(),
{
    let k = position(s, '\n') as int;
    if s.len() == 0 {
        Seq::empty()
    } else if k >= s.len() {
        seq![s]
    } else {
        seq![chomp(s.take(k))] + lines(s.skip(k + 1))
    }
}

/// Splits a text into its lines.
pub fn split_lines(s: &[char]) -> (res: Vec<Vec<char>>)
    ensures
        texts(res@) == lines(s@),
{
    let mut res: Vec<Vec<char>> = Vec::new();
    let mut i: usize = 0;
    assert(s@.skip(0) =~= s@);
    assert(texts(res@) + lines(s@) =~= lines(s@));
    while i < s.len()
        invariant
            i <= s.len(),
            texts(res@) + lines(s@.skip(i as int)) == lines(s@),
        decreases s.len() - i,
    {
        let k = find(s, '\n', i);
        let ghost rest = s@.skip(i as int);
        let ghost old_res = res@;
        if k == s.len() {
            res.push(slice_to_vec(slice_subrange(s, i, k)));
            assert(rest =~= s@.subrange(i as int, k as int));
            assert(texts(res@) =~= texts(old_res).push(rest));
            assert(texts(old_res) + seq![rest] =~= texts(old_res).push(rest));
            return res;
        }
        let end: usize = if k > i && s[k - 1] == '\r' {
            k - 1
        } else {
            k
        };
        res.push(slice_to_vec(slice_subrange(s, i, end)));
        proof {
            let line = chomp(rest.take(k - i));
            assert(rest.take(k - i) =~= s@.subrange(i as int, k as int));
            assert(line =~= s@.subrange(i as int, end as int));
            assert(rest.skip(k - i + 1) =~= s@.skip(k + 1));
            assert(texts(res@) =~= texts(old_res).push(line));
            assert(texts(old_res) + (seq![line] + lines(s@.skip(k + 1))) =~= texts(old_res).push(
                line,
            ) + lines(s@.skip(k + 1)));
        }
        i = k + 1;
    }
    assert(lines(s@.skip(i as int)) =~= Seq::empty());
    assert(texts(res@) =~= lines(s@));
    res
}

/// The columns of a text that `c` separates.
pub open spec fn columns(s: Seq<char>, c: char) -> Seq<Seq<char>>
    decreases s.len(),
{
    let k = position(s, c) as int;
    if k >= s.len() {
        seq![s]
    } else {
        seq![s.take(k)] + columns(s.skip(k + 1), c)
    }
}

/// Splits a text at each `c`.
pub fn split_columns(s: &[char], c: char) -> (res: Vec<Vec<char>>)
    ensures
        texts(res@) == columns(s@, c),
{
    let mut res: Vec<Vec<char>> = Vec::new();
    let mut i: usize = 0;
    assert(s@.skip(0) =~= s@);
    assert(texts(res@) + columns(s@, c) =~= columns(s@, c));
    loop
        invariant
            i <= s.len(),
            texts(res@) + columns(s@.skip(i as int), c) == columns(s@, c),
        decreases s.len() - i,
    {
        let k = find(s, c, i);
        let ghost rest = s@.skip(i as int);
        let ghost old_res = res@;
        res.push(slice_to_vec(slice_subrange(s, i, k)));
        assert(rest.take(k - i) =~= s@.subrange(i as int, k as int));
        assert(texts(res@) =~= texts(old_res).push(rest.take(k - i)));
        if k == s.len() {
            assert(rest.take(k - i) =~= rest);
            assert(texts(old_res) + seq![rest] =~= texts(old_res).push(rest));
            return res;
        }
        assert(rest.skip(k - i + 1) =~= s@.skip(k + 1));
        assert(texts(old_res) + (seq![rest.take(k - i)] + columns(s@.skip(k + 1), c)) =~= texts(
            old_res,
        ).push(rest.take(k - i)) + columns(s@.skip(k + 1), c));
        i = k + 1;
    }
}

/// Whether a text starts with another.
pub open spec fn starts_with(s: Seq<char>, prefix: Seq<char>) -> bool {
    prefix.len() <= s.len() && s.take(prefix.len() as int) == prefix
}

/// The text behind a prefix, if the text has that prefix.
pub fn strip_prefix<'a>(s: &'a [char], prefix: &str) -> (res: Option<&'a [char]>)
    ensures
        match res {
            Some(rest) => starts_with(s@, prefix@) && rest@ == s@.skip(prefix@.len() as int),
            None => !starts_with(s@, prefix@),
        },
{
    let n = to_chars(prefix).len();
    if n > s.len() {
        return None;
    }
    let head = slice_subrange(s, 0, n);
    assert(head@ =~= s@.take(n as int));
    if is_text(head, prefix) {
        let rest = slice_subrange(s, n, s.len());
        assert(rest@ =~= s@.skip(n as int));
        Some(rest)
    } else {
        None
    }
}

/// The texts one after another, with `sep` between each two.
pub open spec fn joined(parts: Seq<Seq<char>>, sep: Seq<char>) -> Seq<char>
    decreases parts.len(),
{
    if parts.len() == 0 {
        Seq::empty()
    } else if parts.len() == 1 {
        parts[0]
    } else {
        joined(parts.drop_last(), sep) + sep + parts.last()
    }
}

/// Joins strings with a separator between each two.
pub fn join(parts: &Vec<String>, sep: &str) -> (res: String)
    ensures
        res@ == joined(strings(parts@), sep@),
{
    let mut res = String::new();
    let ghost all = strings(parts@);
    let mut i: usize = 0;
    assert(res@ =~= joined(all.take(0), sep@));
    while i < parts.len()
        invariant
            i <= parts.len(),
            all == strings(parts@),
            res@ == joined(all.take(i as int), sep@),
        decreases parts.len() - i,
    {
        let ghost before = res@;
        if i > 0 {
            res.append(sep);
        }
        res.append(parts[i].as_str());
        i = i + 1;
        proof {
            assert(all.take(i as int).drop_last() =~= all.take(i - 1));
            assert(all.take(i as int).last() == parts@[i - 1]@);
            if i == 1 {
                assert(before =~= Seq::empty());
                assert(res@ =~= all[0]);
            } else {
                assert(res@ =~= joined(all.take(i - 1), sep@) + sep@ + all[i - 1]);
            }
        }
    }
    assert(all.take(i as int) =~= all);
    res
}

/// The place of a character that the text before it lacks.
pub proof fn lemma_position_after(head: Seq<char>, c: char, rest: Seq<char>)
    requires
        !head.contains(c),
    ensures
        position(head + seq![c] + rest, c) == head.len(),
    decreases head.len(),
{
    let s = head + seq![c] + rest;
    if head.len() > 0 {
        assert(head[0] != c) by {
            assert(head.contains(head[0]));
        }
        let tail = head.drop_first();
        assert forall|i: int| 0 <= i < tail.len() implies tail[i] != c by {
            assert(head.contains(head[i + 1]));
        }
        lemma_position_after(tail, c, rest);
        assert(s.drop_first() =~= tail + seq![c] + rest);
    }
}

/// Whether every character is white space.
pub open spec fn all_space(s: Seq<char>) -> bool {
    forall|i: int| 0 <= i < s.len() ==> is_space(#[trigger] s[i])
}

/// Whether a text is not empty and holds no white space.
pub open spec fn is_word(s: Seq<char>) -> bool {
    &&& s.len() > 0
    &&& forall|i: int| 0 <= i < s.len() ==> !is_space(#[trigger] s[i])
}

/// White space at the start is left out.
proof fn lemma_trim_start(gap: Seq<char>, rest: Seq<char>)
    requires
        all_space(gap),
    ensures
        trim_start(gap + rest) == trim_start(rest),
    decreases gap.len(),
{
    let s = gap + rest;
    if gap.len() == 0 {
        assert(s =~= rest);
    } else {
        assert(is_space(gap[0]) && s[0] == gap[0]);
        let tail = gap.drop_first();
        assert forall|i: int| 0 <= i < tail.len() implies is_space(#[trigger] tail[i]) by {
            assert(tail[i] == gap[i + 1]);
        }
        lemma_trim_start(tail, rest);
        assert(s.drop_first() =~= tail + rest);
    }
}

/// White space at the end is left out.
proof fn lemma_trim_end(rest: Seq<char>, gap: Seq<char>)
    requires
        all_space(gap),
    ensures
        trim_end(rest + gap) == trim_end(rest),
    decreases gap.len(),
{
    let s = rest + gap;
    if gap.len() == 0 {
        assert(s =~= rest);
    } else {
        assert(is_space(gap[gap.len() - 1]) && s.last() == gap[gap.len() - 1]);
        let init = gap.drop_last();
        assert forall|i: int| 0 <= i < init.len() implies is_space(#[trigger] init[i]) by {
            assert(init[i] == gap[i]);
        }
        lemma_trim_end(rest, init);
        assert(s.drop_last() =~= rest + init);
    }
}

/// Trimming takes the white space away from either end and leaves all that stands between.
pub proof fn lemma_trimmed(before: Seq<char>, core: Seq<char>, after: Seq<char>)
    requires
        all_space(before),
        all_space(after),
        core.len() > 0 ==> !is_space(core[0]) && !is_space(core.last()),
    ensures
        trimmed(before + core + after) == core,
{
    let s = before + (core + after);
    assert(before + core + after =~= s);
    lemma_trim_start(before, core + after);
    if core.len() > 0 {
        assert((core + after)[0] == core[0]);
        lemma_trim_end(core, after);
    } else {
        assert(core + after =~= after + core);
        lemma_trim_start(after, core);
        assert(trim_start(core) == core);
    }
}

/// How far a word reaches before white space.
proof fn lemma_word_reach(word: Seq<char>, rest: Seq<char>)
    requires
        forall|i: int| 0 <= i < word.len() ==> !is_space(#[trigger] word[i]),
        rest.len() > 0 ==> is_space(rest[0]),
    ensures
        word_len(word + rest) == word.len(),
    decreases word.len(),
{
    let s = word + rest;
    if word.len() == 0 {
        assert(s =~= rest);
    } else {
        assert(!is_space(word[0]) && s[0] == word[0]);
        let tail = word.drop_first();
        assert forall|i: int| 0 <= i < tail.len() implies !is_space(#[trigger] tail[i]) by {
            assert(tail[i] == word[i + 1]);
        }
        lemma_word_reach(tail, rest);
        assert(s.drop_first() =~= tail + rest);
    }
}

/// The first word of a text is what stands between white space, and the others are the words
/// of what follows.
pub proof fn lemma_words(gap: Seq<char>, word: Seq<char>, rest: Seq<char>)
    requires
        all_space(gap),
        is_word(word),
        rest.len() > 0 ==> is_space(rest[0]),
    ensures
        words(gap + word + rest) == seq![word] + words(rest),
{
    let s = gap + (word + rest);
    assert(gap + word + rest =~= s);
    let t = word + rest;
    lemma_trim_start(gap, t);
    assert(!is_space(word[0]) && t[0] == word[0]);
    lemma_word_reach(word, rest);
    assert(t.take(word.len() as int) =~= word);
    assert(t.skip(word.len() as int) =~= rest);
}

/// A text of white space alone has no words.
pub proof fn lemma_no_words(gap: Seq<char>)
    requires
        all_space(gap),
    ensures
        words(gap) == Seq::<Seq<char>>::empty(),
{
    lemma_trim_start(gap, Seq::empty());
    assert(gap + Seq::<char>::empty() =~= gap);
}

/// Joining from the front.
proof fn lemma_joined_front(first: Seq<char>, rest: Seq<Seq<char>>, sep: Seq<char>)
    requires
        rest.len() > 0,
    ensures
        joined(seq![first] + rest, sep) == first + sep + joined(rest, sep),
    decreases rest.len(),
{
    let all = seq![first] + rest;
    assert(all.drop_last() =~= seq![first] + rest.drop_last());
    assert(all.last() == rest.last());
    if rest.len() == 1 {
        assert(all.drop_last() =~= seq![first]);
        assert(joined(all.drop_last(), sep) == first);
        assert(rest.last() == rest[0]);
        assert(joined(all, sep) =~= first + sep + joined(rest, sep));
    } else {
        lemma_joined_front(first, rest.drop_last(), sep);
        assert(joined(all, sep) =~= first + sep + joined(rest, sep));
    }
}

/// Words are read back as they were joined, whatever white space stands between them.
pub proof fn lemma_words_read_back(list: Seq<Seq<char>>, gap: Seq<char>)
    requires
        forall|i: int| 0 <= i < list.len() ==> is_word(#[trigger] list[i]),
        gap.len() > 0,
        all_space(gap),
    ensures
        words(joined(list, gap)) == list,
        words(gap + joined(list, gap)) == list,
    decreases list.len(),
{
    let none = Seq::<char>::empty();
    if list.len() == 0 {
        lemma_no_words(joined(list, gap));
        lemma_no_words(gap);
        assert(gap + joined(list, gap) =~= gap);
        assert(list =~= Seq::empty());
    } else {
        let first = list[0];
        let rest = list.drop_first();
        assert forall|i: int| 0 <= i < rest.len() implies is_word(#[trigger] rest[i]) by {
            assert(rest[i] == list[i + 1]);
        }
        lemma_words_read_back(rest, gap);
        assert(list =~= seq![first] + rest);
        let tail = if rest.len() == 0 {
            none
        } else {
            gap + joined(rest, gap)
        };
        if rest.len() > 0 {
            lemma_joined_front(first, rest, gap);
            assert(is_space(gap[0]));
        } else {
            lemma_no_words(none);
            assert(rest =~= Seq::empty());
        }
        assert(words(tail) == rest);
        assert(joined(list, gap) =~= none + first + tail);
        lemma_words(none, first, tail);
        assert(gap + joined(list, gap) =~= gap + first + tail);
        lemma_words(gap, first, tail);
    }
}

/// The place of a character that a text lacks.
proof fn lemma_position_none(s: Seq<char>, c: char)
    requires
        !s.contains(c),
    ensures
        position(s, c) == s.len(),
{
    lemma_position(s, c);
    if position(s, c) < s.len() {
        assert(s.contains(s[position(s, c) as int]));
    }
}

/// Columns are read back as they were joined.
pub proof fn lemma_columns_read_back(list: Seq<Seq<char>>, c: char)
    requires
        list.len() > 0,
        forall|i: int| 0 <= i < list.len() ==> !(#[trigger] list[i]).contains(c),
    ensures
        columns(joined(list, seq![c]), c) == list,
    decreases list.len(),
{
    let first = list[0];
    let rest = list.drop_first();
    assert(!first.contains(c));
    if rest.len() == 0 {
        lemma_position_none(first, c);
        assert(list =~= seq![first]);
    } else {
        assert forall|i: int| 0 <= i < rest.len() implies !(#[trigger] rest[i]).contains(c) by {
            assert(rest[i] == list[i + 1]);
        }
        lemma_columns_read_back(rest, c);
        assert(list =~= seq![first] + rest);
        lemma_joined_front(first, rest, seq![c]);
        let tail = joined(rest, seq![c]);
        let s = first + seq![c] + tail;
        lemma_position_after(first, c, tail);
        assert(s.take(first.len() as int) =~= first);
        assert(s.skip(first.len() as int + 1) =~= tail);
    }
}

/// The columns of a text are joined back to it, and none of them holds the separator.
pub proof fn lemma_columns_join_back(s: Seq<char>, c: char)
    ensures
        columns(s, c).len() > 0,
        joined(columns(s, c), seq![c]) == s,
        forall|i: int| 0 <= i < columns(s, c).len() ==> !(#[trigger] columns(s, c)[i]).contains(c),
    decreases s.len(),
{
    let k = position(s, c) as int;
    lemma_position(s, c);
    let first = s.take(k);
    assert(!first.contains(c)) by {
        assert forall|i: int| 0 <= i < first.len() implies first[i] != c by {
            assert(first[i] == s[i]);
        }
    }
    if k < s.len() {
        let rest = s.skip(k + 1);
        lemma_columns_join_back(rest, c);
        lemma_joined_front(first, columns(rest, c), seq![c]);
        assert(first + seq![c] + rest =~= s);
        assert forall|i: int| 0 <= i < columns(s, c).len() implies !(#[trigger] columns(s, c)[i])
            .contains(c) by {
            if i > 0 {
                assert(columns(s, c)[i] == columns(rest, c)[i - 1]);
            }
        }
    } else {
        assert(first =~= s);
    }
}

/// Lines with an ending behind each.
pub open spec fn ended(list: Seq<Seq<char>>, ending: Seq<char>) -> Seq<char>
    decreases list.len(),
{
    if list.len() == 0 {
        Seq::empty()
    } else {
        list[0] + ending + ended(list.drop_first(), ending)
    }
}

/// Whether a text can stand on one line.
pub open spec fn is_line(s: Seq<char>) -> bool {
    !s.contains('\n') && (s.len() > 0 ==> s.last() != '\r')
}

/// Lines are read back as they were written, with a line feed or a carriage return and a
/// line feed behind each; and so is a last one without an ending.
pub proof fn lemma_lines_read_back(list: Seq<Seq<char>>, ending: Seq<char>, rest: Seq<char>)
    requires
        forall|i: int| 0 <= i < list.len() ==> is_line(#[trigger] list[i]),
        ending == seq!['\n'] || ending == seq!['\r', '\n'],
        !rest.contains('\n'),
    ensures
        lines(ended(list, ending) + rest) == (if rest.len() == 0 {
            list
        } else {
            list.push(rest)
        }),
    decreases list.len(),
{
    let s = ended(list, ending) + rest;
    if list.len() == 0 {
        assert(s =~= rest);
        lemma_position_none(rest, '\n');
        assert(list =~= Seq::empty());
        assert(list.push(rest) =~= seq![rest]);
    } else {
        let first = list[0];
        let others = list.drop_first();
        assert(is_line(first));
        assert forall|i: int| 0 <= i < others.len() implies is_line(#[trigger] others[i]) by {
            assert(others[i] == list[i + 1]);
        }
        lemma_lines_read_back(others, ending, rest);
        let tail = ended(others, ending) + rest;
        let head = first + ending.drop_last();
        assert forall|i: int| 0 <= i < head.len() implies head[i] != '\n' by {
            if i < first.len() {
                assert(first.contains(first[i]));
            }
        }
        assert(s =~= head + seq!['\n'] + tail);
        lemma_position_after(head, '\n', tail);
        assert(s.take(head.len() as int) =~= head);
        assert(s.skip(head.len() as int + 1) =~= tail);
        assert(chomp(head) =~= first);
        assert(list =~= seq![first] + others);
        assert(list.push(rest) =~= seq![first] + others.push(rest));
    }
}

/// A text starts with another if that and something behind it make up the text, and with no
/// other.
pub proof fn lemma_starts_with(s: Seq<char>, prefix: Seq<char>, rest: Seq<char>)
    ensures
        starts_with(prefix + rest, prefix),
        starts_with(s, prefix) ==> s == prefix + s.skip(prefix.len() as int),
{
    assert((prefix + rest).take(prefix.len() as int) =~= prefix);
    if starts_with(s, prefix) {
        assert(s =~= s.take(prefix.len() as int) + s.skip(prefix.len() as int));
    }
}

/// The last place of a character is the one behind which it does not occur.
pub proof fn lemma_last_position(head: Seq<char>, c: char, rest: Seq<char>)
    requires
        !rest.contains(c),
    ensures
        last_position(head + seq![c] + rest, c) == head.len(),
    decreases rest.len(),
{
    let s = head + seq![c] + rest;
    if rest.len() > 0 {
        assert(rest.contains(rest[rest.len() - 1]));
        let init = rest.drop_last();
        assert forall|i: int| 0 <= i < init.len() implies init[i] != c by {
            assert(rest.contains(rest[i]));
        }
        lemma_last_position(head, c, init);
        assert(s.drop_last() =~= head + seq![c] + init);
    }
}

} // verus!
