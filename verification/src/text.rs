//! Characters, words and lines: the lexical layer of the format.

use vstd::prelude::*;

verus! {

/// `String::push` appends exactly one character to the end of the string and
/// leaves the characters before it unchanged.
pub assume_specification[ String::push ](s: &mut String, c: char)
    ensures
        final(s)@ == old(s)@.push(c),
;

/// The length of the longest prefix of `s` whose characters all satisfy `p`.
pub open spec fn prefix_len(s: Seq<char>, p: spec_fn(char) -> bool) -> nat
    decreases s.len(),
{
    if s.len() > 0 && p(s[0]) {
        1 + prefix_len(s.drop_first(), p)
    } else {
        0
    }
}

/// The prefix counted by `prefix_len` lies inside `s`, consists of characters
/// that satisfy `p`, and cannot be extended.
pub proof fn lemma_prefix_len_bounds(s: Seq<char>, p: spec_fn(char) -> bool)
    ensures
        prefix_len(s, p) <= s.len(),
        forall|k: int| 0 <= k < prefix_len(s, p) ==> p(#[trigger] s[k]),
        prefix_len(s, p) < s.len() ==> !p(s[prefix_len(s, p) as int]),
    decreases s.len(),
{
    if s.len() > 0 && p(s[0]) {
        let t = s.drop_first();
        lemma_prefix_len_bounds(t, p);
        assert forall|k: int| 0 <= k < prefix_len(s, p) implies p(#[trigger] s[k]) by {
            if k > 0 {
                assert(s[k] == t[k - 1]);
            }
        }
        if prefix_len(s, p) < s.len() {
            assert(t[prefix_len(t, p) as int] == s[prefix_len(s, p) as int]);
        }
    }
}

/// A prefix of length `n` that satisfies `p` throughout and stops at the end of
/// `s` or before a character that fails `p` is the one `prefix_len` counts.
pub proof fn lemma_prefix_len_is(s: Seq<char>, p: spec_fn(char) -> bool, n: int)
    requires
        0 <= n <= s.len(),
        forall|k: int| 0 <= k < n ==> p(#[trigger] s[k]),
        n < s.len() ==> !p(s[n]),
    ensures
        prefix_len(s, p) == n,
    decreases n,
{
    if n > 0 {
        let t = s.drop_first();
        assert forall|k: int| 0 <= k < n - 1 implies p(#[trigger] t[k]) by {
            assert(t[k] == s[k + 1]);
        }
        if n < s.len() {
            assert(t[n - 1] == s[n]);
        }
        lemma_prefix_len_is(t, p, n - 1);
    }
}

/// The characters that separate words: those that Unicode classes as
/// `White_Space`.
pub open spec fn is_whitespace(c: char) -> bool {
    let n = c as u32;
    ||| 0x09 <= n <= 0x0D
    ||| n == 0x20
    ||| n == 0x85
    ||| n == 0xA0
    ||| n == 0x1680
    ||| 0x2000 <= n <= 0x200A
    ||| n == 0x2028
    ||| n == 0x2029
    ||| n == 0x202F
    ||| n == 0x205F
    ||| n == 0x3000
}

/// The words of `s`: its maximal runs of characters that are not whitespace,
/// in order.  Leading, trailing and repeated whitespace yields no empty word.
pub open spec fn split_whitespace(s: Seq<char>) -> Seq<Seq<char>>
    decreases s.len(),
{
    if s.len() == 0 {
        Seq::empty()
    } else if is_whitespace(s[0]) {
        split_whitespace(s.drop_first())
    } else {
        let n = prefix_len(s, |c: char| !is_whitespace(c));
        proof {
            lemma_prefix_len_bounds(s, |c: char| !is_whitespace(c));
        }
        seq![s.take(n as int)] + split_whitespace(s.skip(n as int))
    }
}

/// `s` without one trailing carriage return, if it ends in one.
pub open spec fn strip_carriage_return(s: Seq<char>) -> Seq<char> {
    if s.len() > 0 && s.last() == '\r' {
        s.drop_last()
    } else {
        s
    }
}

/// The logical lines of `s`.  A line ends at a line feed, which is dropped
/// together with a carriage return directly before it; the last line needs no
/// terminator, and a text that ends in a line feed has no empty line after it.
pub open spec fn lines(s: Seq<char>) -> Seq<Seq<char>>
    decreases s.len(),
{
    if s.len() == 0 {
        Seq::empty()
    } else {
        let n = prefix_len(s, |c: char| c != '\n');
        proof {
            lemma_prefix_len_bounds(s, |c: char| c != '\n');
        }
        if n < s.len() {
            seq![strip_carriage_return(s.take(n as int))] + lines(s.skip(n as int + 1))
        } else {
            seq![s]
        }
    }
}

/// The text made of `words`, one space between each two.
pub open spec fn spaced(words: Seq<Seq<char>>) -> Seq<char>
    decreases words.len(),
{
    if words.len() == 0 {
        Seq::empty()
    } else if words.len() == 1 {
        words[0]
    } else {
        words[0] + seq![' '] + spaced(words.drop_first())
    }
}

/// A word: at least one character and no whitespace.
pub open spec fn is_word(s: Seq<char>) -> bool {
    s.len() > 0 && forall|k: int| 0 <= k < s.len() ==> !is_whitespace(#[trigger] s[k])
}

/// A line as `lines` hands it out: no line feed in it and no carriage return
/// at its end.
pub open spec fn is_line(s: Seq<char>) -> bool {
    &&& forall|k: int| 0 <= k < s.len() ==> #[trigger] s[k] != '\n'
    &&& s.len() > 0 ==> s.last() != '\r'
}

/// The text made of the lines `ls`, each ended by a line feed.
pub open spec fn join_lines(ls: Seq<Seq<char>>) -> Seq<char>
    decreases ls.len(),
{
    if ls.len() == 0 {
        Seq::empty()
    } else {
        join_lines(ls.drop_last()) + ls.last() + seq!['\n']
    }
}

/// A word followed by nothing or by whitespace is the first word of the text.
pub proof fn lemma_split_word(word: Seq<char>, rest: Seq<char>)
    requires
        is_word(word),
        rest.len() > 0 ==> is_whitespace(rest[0]),
    ensures
        split_whitespace(word + rest) == seq![word] + split_whitespace(rest),
{
    let s = word + rest;
    let n = word.len() as int;
    assert(s[0] == word[0]);
    assert forall|k: int| 0 <= k < n implies !is_whitespace(#[trigger] s[k]) by {
        assert(s[k] == word[k]);
    }
    if n < s.len() {
        assert(s[n] == rest[0]);
    }
    lemma_prefix_len_is(s, |c: char| !is_whitespace(c), n);
    assert(s.take(n) == word);
    assert(s.skip(n) == rest);
}

/// Whitespace before a text adds no word to it.
pub proof fn lemma_split_space(space: char, rest: Seq<char>)
    requires
        is_whitespace(space),
    ensures
        split_whitespace(seq![space] + rest) == split_whitespace(rest),
{
    let s = seq![space] + rest;
    assert(s[0] == space);
    assert(s.drop_first() == rest);
}

/// Words written one space apart are read back as they were written.
pub proof fn lemma_split_spaced(words: Seq<Seq<char>>)
    requires
        forall|k: int| 0 <= k < words.len() ==> is_word(#[trigger] words[k]),
    ensures
        split_whitespace(spaced(words)) == words,
    decreases words.len(),
{
    if words.len() == 0 {
    } else if words.len() == 1 {
        assert(words[0] + Seq::<char>::empty() == words[0]);
        lemma_split_word(words[0], Seq::empty());
        assert(words == seq![words[0]]);
    } else {
        let rest = words.drop_first();
        assert forall|k: int| 0 <= k < rest.len() implies is_word(#[trigger] rest[k]) by {
            assert(rest[k] == words[k + 1]);
        }
        lemma_split_spaced(rest);
        lemma_split_space(' ', spaced(rest));
        let tail = seq![' '] + spaced(rest);
        assert(tail[0] == ' ');
        lemma_split_word(words[0], tail);
        assert(spaced(words) == words[0] + tail);
        assert(seq![words[0]] + rest == words);
    }
}

/// A line and its line feed before a text are the first line of the whole.
pub proof fn lemma_lines_first(line: Seq<char>, rest: Seq<char>)
    requires
        is_line(line),
    ensures
        lines(line + seq!['\n'] + rest) == seq![line] + lines(rest),
{
    let s = line + seq!['\n'] + rest;
    let n = line.len() as int;
    assert forall|k: int| 0 <= k < n implies #[trigger] s[k] != '\n' by {
        assert(s[k] == line[k]);
    }
    assert(s[n] == '\n');
    lemma_prefix_len_is(s, |c: char| c != '\n', n);
    assert(s.take(n) == line);
    assert(s.skip(n + 1) == rest);
}

/// Lines that were joined, with any text after them, are read back as they
/// were, followed by the lines of that text.
pub proof fn lemma_lines_join(ls: Seq<Seq<char>>, rest: Seq<char>)
    requires
        forall|k: int| 0 <= k < ls.len() ==> is_line(#[trigger] ls[k]),
    ensures
        lines(join_lines(ls) + rest) == ls + lines(rest),
    decreases ls.len(),
{
    if ls.len() == 0 {
        assert(join_lines(ls) + rest == rest);
        assert(ls + lines(rest) == lines(rest));
    } else {
        let init = ls.drop_last();
        let tail = ls.last() + seq!['\n'] + rest;
        assert(join_lines(ls) + rest == join_lines(init) + tail);
        lemma_lines_join(init, tail);
        lemma_lines_first(ls.last(), rest);
        assert(init + (seq![ls.last()] + lines(rest)) == ls + lines(rest));
    }
}

/// Words written one space apart make a line that starts with the first
/// word's first character.
pub proof fn lemma_spaced_is_line(words: Seq<Seq<char>>)
    requires
        words.len() > 0,
        forall|k: int| 0 <= k < words.len() ==> is_word(#[trigger] words[k]),
    ensures
        is_line(spaced(words)),
        spaced(words).len() > 0,
        spaced(words)[0] == words[0][0],
    decreases words.len(),
{
    if words.len() > 1 {
        let rest = words.drop_first();
        assert forall|k: int| 0 <= k < rest.len() implies is_word(#[trigger] rest[k]) by {
            assert(rest[k] == words[k + 1]);
        }
        lemma_spaced_is_line(rest);
        let s = spaced(words);
        let n = words[0].len() as int;
        assert(s == words[0] + seq![' '] + spaced(rest));
        assert forall|k: int| 0 <= k < s.len() implies #[trigger] s[k] != '\n' by {
            if k < n {
                assert(s[k] == words[0][k]);
            } else if k > n {
                assert(s[k] == spaced(rest)[k - n - 1]);
            }
        }
        assert(s.last() == spaced(rest).last());
    }
}

/// The contents of each buffer of `v`, in order.
pub open spec fn views(v: Seq<Vec<char>>) -> Seq<Seq<char>> {
    v.map_values(|w: Vec<char>| w@)
}

/// The characters of a string slice.
pub fn chars_of(s: &str) -> (out: Vec<char>)
    ensures
        out@ == s@,
{
    broadcast use vstd::string::group_string_axioms;

    let mut out: Vec<char> = Vec::new();
    for c in it: s.chars()
        invariant
            it.seq() == s@,
            out@ == it.seq().take(it.index()),
    {
        out.push(c);
    }
    out
}

/// The string made of the characters `chars[from..to]`.
pub fn text_of_range(chars: &[char], from: usize, to: usize) -> (out: String)
    requires
        from <= to <= chars@.len(),
    ensures
        out@ == chars@.subrange(from as int, to as int),
{
    let mut out = String::new();
    let mut i: usize = from;
    while i < to
        invariant
            from <= i <= to <= chars@.len(),
            out@ == chars@.subrange(from as int, i as int),
        decreases to - i,
    {
        out.push(chars[i]);
        i += 1;
    }
    out
}

/// The string made of the characters of `chars`.
pub fn text_of(chars: &[char]) -> (out: String)
    ensures
        out@ == chars@,
{
    let out = text_of_range(chars, 0, chars.len());
    assert(chars@.subrange(0, chars@.len() as int) == chars@);
    out
}

/// A copy of the characters `chars[from..to]`.
pub fn copy_range(chars: &[char], from: usize, to: usize) -> (out: Vec<char>)
    requires
        from <= to <= chars@.len(),
    ensures
        out@ == chars@.subrange(from as int, to as int),
{
    let mut out: Vec<char> = Vec::new();
    let mut i: usize = from;
    while i < to
        invariant
            from <= i <= to <= chars@.len(),
            out@ == chars@.subrange(from as int, i as int),
        decreases to - i,
    {
        out.push(chars[i]);
        i += 1;
    }
    out
}

/// Whether `c` separates words.
pub fn is_space(c: char) -> (r: bool)
    ensures
        r == is_whitespace(c),
{
    let n: u32 = c as u32;
    (0x09 <= n && n <= 0x0D) || n == 0x20 || n == 0x85 || n == 0xA0 || n == 0x1680 || (0x2000 <= n
        && n <= 0x200A) || n == 0x2028 || n == 0x2029 || n == 0x202F || n == 0x205F || n == 0x3000
}

/// Splits a line into its words.
pub fn split_words(line: &[char]) -> (out: Vec<Vec<char>>)
    ensures
        views(out@) == split_whitespace(line@),
{
    let mut out: Vec<Vec<char>> = Vec::new();
    let mut i: usize = 0;
    assert(line@.skip(0) == line@);
    while i < line.len()
        invariant
            i <= line@.len(),
            views(out@) + split_whitespace(line@.skip(i as int)) == split_whitespace(line@),
        decreases line@.len() - i,
    {
        let ghost rest = line@.skip(i as int);
        if is_space(line[i]) {
            assert(rest.drop_first() == line@.skip(i + 1));
            i += 1;
        } else {
            let start: usize = i;
            while i < line.len() && !is_space(line[i])
                invariant
                    start <= i <= line@.len(),
                    forall|k: int| start <= k < i ==> !is_whitespace(#[trigger] line@[k]),
                decreases line@.len() - i,
            {
                i += 1;
            }
            let word = copy_range(line, start, i);
            proof {
                let n = i - start;
                assert forall|k: int| 0 <= k < n implies !is_whitespace(#[trigger] rest[k]) by {
                    assert(rest[k] == line@[start + k]);
                }
                lemma_prefix_len_is(rest, |c: char| !is_whitespace(c), n);
                assert(rest.take(n) == word@);
                assert(rest.skip(n) == line@.skip(i as int));
                assert(views(out@.push(word)) == views(out@).push(word@));
                assert(views(out@).push(word@) + split_whitespace(line@.skip(i as int)) == views(
                    out@,
                ) + split_whitespace(rest));
            }
            out.push(word);
        }
    }
    assert(line@.skip(i as int) == Seq::<char>::empty());
    assert(views(out@) + Seq::<Seq<char>>::empty() == views(out@));
    out
}

/// Splits a text into its logical lines.
pub fn split_lines(text: &[char]) -> (out: Vec<Vec<char>>)
    ensures
        views(out@) == lines(text@),
{
    let mut out: Vec<Vec<char>> = Vec::new();
    let mut i: usize = 0;
    assert(text@.skip(0) == text@);
    while i < text.len()
        invariant
            i <= text@.len(),
            views(out@) + lines(text@.skip(i as int)) == lines(text@),
        decreases text@.len() - i,
    {
        let ghost rest = text@.skip(i as int);
        let start: usize = i;
        while i < text.len() && text[i] != '\n'
            invariant
                start <= i <= text@.len(),
                forall|k: int| start <= k < i ==> #[trigger] text@[k] != '\n',
            decreases text@.len() - i,
        {
            i += 1;
        }
        proof {
            let n = i - start;
            assert forall|k: int| 0 <= k < n implies #[trigger] rest[k] != '\n' by {
                assert(rest[k] == text@[start + k]);
            }
            lemma_prefix_len_is(rest, |c: char| c != '\n', n);
            assert(rest.take(n) == text@.subrange(start as int, i as int));
        }
        if i < text.len() {
            let end: usize = if start < i && text[i - 1] == '\r' {
                (i - 1) as usize
            } else {
                i
            };
            let line = copy_range(text, start, end);
            proof {
                assert(line@ == strip_carriage_return(rest.take(i - start)));
                assert(rest.skip(i - start + 1) == text@.skip(i + 1));
                assert(views(out@.push(line)) == views(out@).push(line@));
                assert(views(out@).push(line@) + lines(text@.skip(i + 1)) == views(out@) + lines(
                    rest,
                ));
            }
            out.push(line);
            i += 1;
        } else {
            let line = copy_range(text, start, i);
            proof {
                assert(line@ == rest);
                assert(views(out@.push(line)) == views(out@).push(line@));
                assert(text@.skip(i as int) == Seq::<char>::empty());
                assert(views(out@).push(line@) + lines(text@.skip(i as int)) == views(out@)
                    + lines(rest));
            }
            out.push(line);
        }
    }
    assert(text@.skip(i as int) == Seq::<char>::empty());
    assert(views(out@) + Seq::<Seq<char>>::empty() == views(out@));
    out
}

} // verus!
