//! Text primitives: splitting, joining, white space, letter case and UTF-8.
//!
//! Every function here is stated over the sequence of characters of a text. Where bytes
//! matter, they are the UTF-8 encoding of that sequence.

use vstd::prelude::*;
use vstd::utf8::*;

verus! {

/// `String::push` appends the given character to the end of the string.
pub assume_specification[ String::push ](s: &mut String, c: char)
    ensures
        final(s)@ == old(s)@.push(c),
;

/// Calls `String::from_utf8`, which gives back a string exactly when the bytes are valid
/// UTF-8; the string then holds the characters that the bytes encode.
#[verifier::external_body]
pub(crate) fn decode_text(bytes: Vec<u8>) -> (text: Option<String>)
    ensures
        text is Some <==> valid_utf8(bytes@),
        text is Some ==> text->0@ == decode_utf8(bytes@),
{
    String::from_utf8(bytes).ok()
}

/// The character sequences of a list of strings.
pub open spec fn views(texts: Seq<String>) -> Seq<Seq<char>> {
    Seq::new(texts.len(), |i: int| texts[i]@)
}

/// The text of a non-negative number of copies of one character.
pub open spec fn repeated(c: char, count: nat) -> Seq<char> {
    Seq::new(count, |i: int| c)
}

// ---------------------------------------------------------------------------------------
// Building blocks
// ---------------------------------------------------------------------------------------

/// The characters of a text, in order.
pub fn chars_of(text: &str) -> (chars: Vec<char>)
    ensures
        chars@ == text@,
{
    let mut out: Vec<char> = Vec::new();
    for c in it: text.chars()
        invariant
            out@ == text@.take(it.index()),
            it.seq() == text@,
    {
        out.push(c);
        assert(text@.take(it.index() + 1) =~= text@.take(it.index()).push(c));
    }
    assert(text@.take(text@.len() as int) =~= text@);
    out
}

/// Whether two texts hold the same characters.
pub fn same_text(a: &str, b: &str) -> (same: bool)
    ensures
        same == (a@ == b@),
{
    a.to_owned() == b.to_owned()
}

/// The text made of the characters `from..to` of a list of characters.
pub fn text_of(chars: &Vec<char>, from: usize, to: usize) -> (text: String)
    requires
        from <= to <= chars.len(),
    ensures
        text@ == chars@.subrange(from as int, to as int),
{
    let mut text = String::new();
    let mut i: usize = from;
    assert(chars@.subrange(from as int, from as int) =~= Seq::<char>::empty());
    while i < to
        invariant
            from <= i <= to <= chars.len(),
            text@ == chars@.subrange(from as int, i as int),
        decreases to - i,
    {
        assert(chars@.subrange(from as int, i + 1) =~= chars@.subrange(from as int, i as int).push(
            chars@[i as int],
        ));
        text.push(chars[i]);
        i = i + 1;
    }
    text
}

// ---------------------------------------------------------------------------------------
// Splitting on a separator, and joining
// ---------------------------------------------------------------------------------------

/// The fields of `s` between the occurrences of `sep`: one more than `sep` occurs in `s`.
pub open spec fn split(s: Seq<char>, sep: char) -> Seq<Seq<char>>
    decreases s.len(),
{
    if s.len() == 0 {
        seq![Seq::<char>::empty()]
    } else {
        let before = split(s.drop_last(), sep);
        if s.last() == sep {
            before.push(Seq::<char>::empty())
        } else {
            before.drop_last().push(before.last().push(s.last()))
        }
    }
}

/// The parts one after the other, with `sep` between each two of them.
pub open spec fn join(parts: Seq<Seq<char>>, sep: Seq<char>) -> Seq<char>
    decreases parts.len(),
{
    if parts.len() == 0 {
        Seq::empty()
    } else if parts.len() == 1 {
        parts[0]
    } else {
        join(parts.drop_last(), sep) + sep + parts.last()
    }
}

/// The fields of a text between the occurrences of a separator.
pub fn split_text(text: &str, sep: char) -> (fields: Vec<String>)
    ensures
        views(fields@) == split(text@, sep),
{
    let chars = chars_of(text);
    let mut done: Vec<String> = Vec::new();
    let mut current = String::new();
    let mut i: usize = 0;
    assert(views(done@).push(current@) =~= split(chars@.take(0), sep));
    while i < chars.len()
        invariant
            i <= chars.len(),
            views(done@).push(current@) == split(chars@.take(i as int), sep),
        decreases chars.len() - i,
    {
        let c: char = chars[i];
        proof {
            assert(chars@.take(i + 1).drop_last() =~= chars@.take(i as int));
            assert(chars@.take(i + 1).last() == c);
            assert(views(done@).push(current@).drop_last() =~= views(done@));
        }
        if c == sep {
            let ghost before = done@;
            done.push(current);
            current = String::new();
            assert(views(done@) =~= views(before).push(before.push(done@.last()).last()@));
        } else {
            current.push(c);
        }
        i = i + 1;
    }
    assert(chars@.take(chars@.len() as int) =~= text@);
    let ghost before = done@;
    let ghost last = current;
    done.push(current);
    assert(views(done@) =~= views(before).push(last@));
    done
}

/// Puts the parts one after the other, with a separator between each two of them.
pub fn join_texts(parts: &Vec<String>, sep: &str) -> (text: String)
    ensures
        text@ == join(views(parts@), sep@),
{
    let mut text = String::new();
    let mut i: usize = 0;
    while i < parts.len()
        invariant
            i <= parts.len(),
            text@ == join(views(parts@).take(i as int), sep@),
        decreases parts.len() - i,
    {
        proof {
            let next = views(parts@).take(i + 1);
            assert(next.drop_last() =~= views(parts@).take(i as int));
            assert(next.last() == parts@[i as int]@);
            if i == 0 {
                assert(Seq::<char>::empty() + next[0] =~= next[0]);
            }
        }
        if i > 0 {
            text.append(sep);
        }
        text.append(parts[i].as_str());
        i = i + 1;
    }
    assert(views(parts@).take(parts@.len() as int) =~= views(parts@));
    text
}

/// Splitting gives at least one field.
pub proof fn lemma_split_not_empty(s: Seq<char>, sep: char)
    ensures
        split(s, sep).len() >= 1,
    decreases s.len(),
{
    if s.len() > 0 {
        lemma_split_not_empty(s.drop_last(), sep);
    }
}

/// A text in which the separator does not occur is its own only field.
pub proof fn lemma_split_none(s: Seq<char>, sep: char)
    requires
        !s.contains(sep),
    ensures
        split(s, sep) == seq![s],
    decreases s.len(),
{
    if s.len() > 0 {
        assert forall|i: int| 0 <= i < s.drop_last().len() implies s.drop_last()[i] != sep by {
            assert(s[i] != sep);
        }
        lemma_split_none(s.drop_last(), sep);
        assert(s.last() == s[s.len() - 1]);
        assert(s.drop_last().push(s.last()) =~= s);
        assert(split(s, sep) =~= seq![s]);
    } else {
        assert(s =~= Seq::empty());
    }
}

/// A separator and a field behind a text add that field to those of the text.
pub proof fn lemma_split_append(s: Seq<char>, sep: char, field: Seq<char>)
    requires
        !field.contains(sep),
    ensures
        split(s.push(sep) + field, sep) == split(s, sep).push(field),
    decreases field.len(),
{
    let whole = s.push(sep) + field;
    if field.len() == 0 {
        assert(whole =~= s.push(sep));
        assert(whole.drop_last() =~= s);
        assert(field =~= Seq::empty());
    } else {
        let shorter = field.drop_last();
        assert forall|i: int| 0 <= i < shorter.len() implies shorter[i] != sep by {
            assert(field[i] != sep);
        }
        lemma_split_append(s, sep, shorter);
        assert(whole.drop_last() =~= s.push(sep) + shorter);
        assert(whole.last() == field.last());
        assert(field.last() == field[field.len() - 1]);
        assert(shorter.push(field.last()) =~= field);
        let before = split(s, sep).push(shorter);
        assert(before.drop_last() =~= split(s, sep));
        assert(before.last() == shorter);
    }
}

/// Splitting what was joined gives the parts back, where no part holds the separator.
pub proof fn law_split_of_join(parts: Seq<Seq<char>>, sep: char)
    requires
        parts.len() > 0,
        forall|i: int| 0 <= i < parts.len() ==> !(#[trigger] parts[i]).contains(sep),
    ensures
        split(join(parts, seq![sep]), sep) == parts,
    decreases parts.len(),
{
    if parts.len() == 1 {
        lemma_split_none(parts[0], sep);
        assert(parts =~= seq![parts[0]]);
    } else {
        let before = parts.drop_last();
        assert forall|i: int| 0 <= i < before.len() implies !(#[trigger] before[i]).contains(sep) by {
            assert(before[i] == parts[i]);
        }
        law_split_of_join(before, sep);
        let joined = join(before, seq![sep]);
        assert(parts.last() == parts[parts.len() - 1]);
        lemma_split_append(joined, sep, parts.last());
        assert(joined + seq![sep] + parts.last() =~= joined.push(sep) + parts.last());
        assert(before.push(parts.last()) =~= parts);
    }
}

/// Joining the fields of a text with the separator gives the text back.
pub proof fn law_join_of_split(s: Seq<char>, sep: char)
    ensures
        join(split(s, sep), seq![sep]) == s,
    decreases s.len(),
{
    if s.len() > 0 {
        let t = s.drop_last();
        law_join_of_split(t, sep);
        lemma_split_not_empty(t, sep);
        let before = split(t, sep);
        let now = split(s, sep);
        if s.last() == sep {
            assert(now.drop_last() =~= before);
            assert(join(now, seq![sep]) == t + seq![sep] + Seq::<char>::empty());
            assert(t + seq![sep] + Seq::<char>::empty() =~= s);
        } else {
            assert(now.drop_last() =~= before.drop_last());
            if before.len() == 1 {
                assert(now[0] == before.last().push(s.last()));
                assert(before[0] == t);
                assert(t.push(s.last()) =~= s);
            } else {
                let front = join(before.drop_last(), seq![sep]);
                assert(front + seq![sep] + before.last().push(s.last()) =~= (front + seq![sep]
                    + before.last()).push(s.last()));
                assert(t.push(s.last()) =~= s);
            }
        }
    } else {
        assert(split(s, sep).len() == 1);
        assert(s =~= Seq::empty());
    }
}

// ---------------------------------------------------------------------------------------
// White space
// ---------------------------------------------------------------------------------------

/// Whether a character has the Unicode property `White_Space`.
pub open spec fn is_white_space(c: char) -> bool {
    ||| '\u{9}' <= c <= '\u{d}'
    ||| c == '\u{20}'
    ||| c == '\u{85}'
    ||| c == '\u{a0}'
    ||| c == '\u{1680}'
    ||| '\u{2000}' <= c <= '\u{200a}'
    ||| c == '\u{2028}'
    ||| c == '\u{2029}'
    ||| c == '\u{202f}'
    ||| c == '\u{205f}'
    ||| c == '\u{3000}'
}

/// The maximal runs of characters of `s` that are not white space, in order.
pub open spec fn words(s: Seq<char>) -> Seq<Seq<char>>
    decreases s.len(),
{
    if s.len() == 0 {
        Seq::empty()
    } else {
        let before = words(s.drop_last());
        if is_white_space(s.last()) {
            before
        } else if s.len() == 1 || is_white_space(s[s.len() - 2]) {
            before.push(seq![s.last()])
        } else {
            before.drop_last().push(before.last().push(s.last()))
        }
    }
}

/// `s` without the white space at its two ends.
pub open spec fn trimmed(s: Seq<char>) -> Seq<char>
    decreases s.len(),
{
    if s.len() == 0 {
        s
    } else if is_white_space(s[0]) {
        trimmed(s.drop_first())
    } else if is_white_space(s.last()) {
        trimmed(s.drop_last())
    } else {
        s
    }
}

/// A text without the white space at its end.
pub open spec fn trimmed_end(s: Seq<char>) -> Seq<char>
    decreases s.len(),
{
    if s.len() > 0 && is_white_space(s.last()) {
        trimmed_end(s.drop_last())
    } else {
        s
    }
}

/// Whether a character has the Unicode property `White_Space`.
pub fn white_space(c: char) -> (yes: bool)
    ensures
        yes == is_white_space(c),
{
    ('\u{9}' <= c && c <= '\u{d}') || c == '\u{20}' || c == '\u{85}' || c == '\u{a0}' || c
        == '\u{1680}' || ('\u{2000}' <= c && c <= '\u{200a}') || c == '\u{2028}' || c == '\u{2029}'
        || c == '\u{202f}' || c == '\u{205f}' || c == '\u{3000}'
}

/// The words of a text: what stands between white space.
pub fn split_words(text: &str) -> (out: Vec<String>)
    ensures
        views(out@) == words(text@),
{
    let chars = chars_of(text);
    let mut done: Vec<String> = Vec::new();
    let mut current = String::new();
    let mut in_word: bool = false;
    let mut i: usize = 0;
    assert(views(done@) =~= words(chars@.take(0)));
    while i < chars.len()
        invariant
            i <= chars.len(),
            in_word ==> i > 0 && !is_white_space(chars@[i - 1]) && views(done@).push(current@)
                == words(chars@.take(i as int)),
            !in_word ==> (i > 0 ==> is_white_space(chars@[i - 1])) && current@.len() == 0
                && views(done@) == words(chars@.take(i as int)),
        decreases chars.len() - i,
    {
        let c: char = chars[i];
        proof {
            let next = chars@.take(i + 1);
            assert(next.drop_last() =~= chars@.take(i as int));
            assert(next.last() == c);
            if i > 0 {
                assert(next[next.len() - 2] == chars@[i - 1]);
            }
            assert(views(done@).push(current@).drop_last() =~= views(done@));
        }
        if white_space(c) {
            if in_word {
                let ghost before = done@;
                let ghost last = current;
                done.push(current);
                current = String::new();
                in_word = false;
                assert(views(done@) =~= views(before).push(last@));
            }
        } else {
            assert(!in_word ==> current@.push(c) =~= seq![c]);
            current.push(c);
            in_word = true;
        }
        i = i + 1;
    }
    assert(chars@.take(chars@.len() as int) =~= text@);
    if in_word {
        let ghost before = done@;
        let ghost last = current;
        done.push(current);
        assert(views(done@) =~= views(before).push(last@));
    }
    done
}

/// A text without the white space at its two ends.
pub fn trim_text(text: &str) -> (out: String)
    ensures
        out@ == trimmed(text@),
{
    let chars = chars_of(text);
    let mut from: usize = 0;
    let mut to: usize = chars.len();
    assert(chars@.subrange(0, to as int) =~= text@);
    while from < to && white_space(chars[from])
        invariant
            from <= to == chars.len(),
            trimmed(chars@.subrange(from as int, to as int)) == trimmed(text@),
        decreases to - from,
    {
        assert(chars@.subrange(from as int, to as int).drop_first() =~= chars@.subrange(
            from + 1,
            to as int,
        ));
        from = from + 1;
    }
    while from < to && white_space(chars[to - 1])
        invariant
            from <= to <= chars.len(),
            from < to ==> !is_white_space(chars@[from as int]),
            trimmed(chars@.subrange(from as int, to as int)) == trimmed(text@),
        decreases to - from,
    {
        assert(chars@.subrange(from as int, to as int).drop_last() =~= chars@.subrange(
            from as int,
            to - 1,
        ));
        to = to - 1;
    }
    text_of(&chars, from, to)
}

/// A text without the white space at its end.
pub fn trim_text_end(text: &str) -> (out: String)
    ensures
        out@ == trimmed_end(text@),
{
    let chars = chars_of(text);
    let mut to: usize = chars.len();
    assert(chars@.take(to as int) =~= text@);
    while to > 0 && white_space(chars[to - 1])
        invariant
            to <= chars.len(),
            trimmed_end(chars@.take(to as int)) == trimmed_end(text@),
        decreases to,
    {
        assert(chars@.take(to as int).drop_last() =~= chars@.take(to - 1));
        to -= 1;
    }
    let out = text_of(&chars, 0, to);
    assert(out@ =~= chars@.take(to as int));
    out
}

/// Words are not empty and hold no white space.
pub proof fn lemma_words_shape(s: Seq<char>)
    ensures
        forall|i: int| 0 <= i < words(s).len() ==> (#[trigger] words(s)[i]).len() > 0,
        forall|i: int, j: int|
            0 <= i < words(s).len() && 0 <= j < words(s)[i].len() ==> !is_white_space(
                #[trigger] words(s)[i][j],
            ),
        s.len() > 0 && !is_white_space(s.last()) ==> words(s).len() > 0,
    decreases s.len(),
{
    if s.len() > 0 {
        let t = s.drop_last();
        lemma_words_shape(t);
        if s.len() > 1 {
            assert(t.last() == s[s.len() - 2]);
        }
        let before = words(t);
        assert forall|i: int| 0 <= i < words(s).len() implies (#[trigger] words(s)[i]).len() > 0 && (
        forall|j: int| 0 <= j < words(s)[i].len() ==> !is_white_space(#[trigger] words(s)[i][j])) by {
            if i < before.len() {
                assert(before[i].len() > 0);
                assert forall|j: int| 0 <= j < words(s)[i].len() implies !is_white_space(
                    #[trigger] words(s)[i][j],
                ) by {
                    if j < before[i].len() {
                        assert(!is_white_space(before[i][j]));
                    }
                }
            }
        }
    }
}

/// A text without white space is its own only word.
pub proof fn lemma_single_word(s: Seq<char>)
    requires
        s.len() > 0,
        forall|i: int| 0 <= i < s.len() ==> !is_white_space(#[trigger] s[i]),
    ensures
        words(s) == seq![s],
    decreases s.len(),
{
    if s.len() == 1 {
        assert(!is_white_space(s[0]));
        assert(seq![s.last()] =~= s);
        assert(words(s.drop_last()) =~= Seq::empty());
        assert(words(s) =~= seq![s]);
    } else {
        let t = s.drop_last();
        assert forall|i: int| 0 <= i < t.len() implies !is_white_space(#[trigger] t[i]) by {
            assert(t[i] == s[i]);
        }
        lemma_single_word(t);
        assert(!is_white_space(s[s.len() - 2]));
        assert(!is_white_space(s[s.len() - 1]));
        assert(t.push(s.last()) =~= s);
        assert(words(s) =~= seq![s]);
    }
}

/// A white-space character and a word behind a text add that word to those of the text.
pub proof fn lemma_words_append(s: Seq<char>, gap: char, word: Seq<char>)
    requires
        is_white_space(gap),
        word.len() > 0,
        forall|i: int| 0 <= i < word.len() ==> !is_white_space(#[trigger] word[i]),
    ensures
        words(s.push(gap) + word) == words(s).push(word),
    decreases word.len(),
{
    let whole = s.push(gap) + word;
    let shorter = word.drop_last();
    assert(whole.drop_last() =~= s.push(gap) + shorter);
    assert(whole.last() == word[word.len() - 1]);
    assert(!is_white_space(whole.last()));
    if word.len() == 1 {
        assert(s.push(gap) + shorter =~= s.push(gap));
        assert(s.push(gap).last() == gap);
        assert(s.push(gap).drop_last() =~= s);
        assert(words(s.push(gap)) == words(s));
        assert(whole[whole.len() - 2] == gap);
        assert(word =~= seq![whole.last()]);
    } else {
        assert forall|i: int| 0 <= i < shorter.len() implies !is_white_space(#[trigger] shorter[i]) by {
            assert(shorter[i] == word[i]);
        }
        lemma_words_append(s, gap, shorter);
        assert(whole[whole.len() - 2] == word[word.len() - 2]);
        assert(!is_white_space(whole[whole.len() - 2]));
        let before = words(s).push(shorter);
        assert(before.drop_last() =~= words(s));
        assert(shorter.push(word.last()) =~= word);
    }
}

/// A joined text is at least as long as two parts of it that are joined on their own.
pub proof fn lemma_join_parts_len(parts: Seq<Seq<char>>, sep: Seq<char>, at: int)
    requires
        0 <= at <= parts.len(),
    ensures
        join(parts, sep).len() >= join(parts.take(at), sep).len() + join(
            parts.skip(at),
            sep,
        ).len(),
    decreases parts.len() - at,
{
    if at == parts.len() {
        assert(parts.take(at) =~= parts);
    } else if at == 0 {
        assert(parts.skip(0) =~= parts);
    } else {
        let front = parts.drop_last();
        lemma_join_parts_len(front, sep, at);
        assert(front.take(at) =~= parts.take(at));
        assert(parts.skip(at).drop_last() =~= front.skip(at));
    }
}

/// The words of a text, joined by single spaces, are not longer than the text.
pub proof fn lemma_words_len(s: Seq<char>)
    ensures
        join(words(s), seq![' ']).len() <= s.len(),
    decreases s.len(),
{
    if s.len() > 0 {
        let t = s.drop_last();
        let before = words(t);
        lemma_words_len(t);
        if is_white_space(s.last()) {
        } else if s.len() == 1 || is_white_space(s[s.len() - 2]) {
            if s.len() > 1 {
                lemma_words_len(t.drop_last());
                assert(t.last() == s[s.len() - 2]);
            }
            assert(words(s).drop_last() =~= before);
        } else {
            lemma_words_shape(t);
            assert(t.last() == s[s.len() - 2]);
            assert(words(s).drop_last() =~= before.drop_last());
        }
    }
}

/// Words joined with single spaces are read back as the same words.
pub proof fn law_words_of_join(parts: Seq<Seq<char>>)
    requires
        forall|i: int| 0 <= i < parts.len() ==> (#[trigger] parts[i]).len() > 0,
        forall|i: int, j: int|
            0 <= i < parts.len() && 0 <= j < parts[i].len() ==> !is_white_space(
                #[trigger] parts[i][j],
            ),
    ensures
        words(join(parts, seq![' '])) == parts,
    decreases parts.len(),
{
    if parts.len() == 0 {
        assert(words(join(parts, seq![' '])) =~= parts);
    } else if parts.len() == 1 {
        assert(parts[0].len() > 0);
        assert forall|j: int| 0 <= j < parts[0].len() implies !is_white_space(#[trigger] parts[0][j]) by {}
        lemma_single_word(parts[0]);
        assert(parts =~= seq![parts[0]]);
    } else {
        let before = parts.drop_last();
        let last = parts[parts.len() - 1];
        assert forall|i: int, j: int|
            0 <= i < before.len() && 0 <= j < before[i].len() implies !is_white_space(
            #[trigger] before[i][j],
        ) by {
            assert(!is_white_space(parts[i][j]));
        }
        law_words_of_join(before);
        let joined = join(before, seq![' ']);
        assert forall|j: int| 0 <= j < last.len() implies !is_white_space(#[trigger] last[j]) by {
            assert(!is_white_space(parts[parts.len() - 1][j]));
        }
        lemma_words_append(joined, ' ', last);
        assert(joined + seq![' '] + last =~= joined.push(' ') + last);
        assert(before.push(last) =~= parts);
    }
}

/// Of the ASCII characters, the blank and the codes from tab to carriage return are white
/// space, and no other.
pub proof fn law_ascii_white_space(c: char)
    requires
        (c as u32) < 0x80,
    ensures
        is_white_space(c) <==> c == ' ' || c == '\t' || c == '\n' || c == '\r' || c as u32 == 0x0b
            || c as u32 == 0x0c,
{
}

/// Trimming takes the white space at the two ends away, all of it and nothing else. Hands back
/// where the rest begins.
pub proof fn law_trimming_takes_white_space(s: Seq<char>) -> (from: int)
    ensures
        ({
            let rest = trimmed(s);
            let to = from + rest.len();
            &&& 0 <= from <= to <= s.len()
            &&& rest == s.subrange(from, to)
            &&& rest.len() > 0 ==> !is_white_space(rest[0]) && !is_white_space(rest.last())
            &&& forall|i: int| 0 <= i < from ==> is_white_space(#[trigger] s[i])
            &&& forall|i: int| to <= i < s.len() ==> is_white_space(#[trigger] s[i])
        }),
    decreases s.len(),
{
    if s.len() == 0 {
        assert(s.subrange(0, 0) =~= s);
        0
    } else if is_white_space(s[0]) {
        let shorter = s.drop_first();
        let from = law_trimming_takes_white_space(shorter);
        let to = from + trimmed(s).len();
        assert(shorter.subrange(from, to) =~= s.subrange(from + 1, to + 1));
        assert forall|i: int| 0 <= i < from + 1 implies is_white_space(#[trigger] s[i]) by {
            if i > 0 {
                assert(shorter[i - 1] == s[i]);
            }
        }
        assert forall|i: int| to + 1 <= i < s.len() implies is_white_space(#[trigger] s[i]) by {
            assert(shorter[i - 1] == s[i]);
        }
        from + 1
    } else if is_white_space(s.last()) {
        let shorter = s.drop_last();
        let from = law_trimming_takes_white_space(shorter);
        let to = from + trimmed(s).len();
        assert(shorter.subrange(from, to) =~= s.subrange(from, to));
        assert forall|i: int| 0 <= i < from implies is_white_space(#[trigger] s[i]) by {
            assert(shorter[i] == s[i]);
        }
        assert forall|i: int| to <= i < s.len() implies is_white_space(#[trigger] s[i]) by {
            if i < shorter.len() {
                assert(shorter[i] == s[i]);
            }
        }
        from
    } else {
        assert(s.subrange(0, s.len() as int) =~= s);
        0
    }
}

/// Trimming the end takes the white space there away, all of it and nothing else.
pub proof fn law_trimming_the_end(s: Seq<char>)
    ensures
        ({
            let rest = trimmed_end(s);
            &&& rest.len() <= s.len()
            &&& rest == s.take(rest.len() as int)
            &&& rest.len() > 0 ==> !is_white_space(rest.last())
            &&& forall|i: int| rest.len() <= i < s.len() ==> is_white_space(#[trigger] s[i])
        }),
    decreases s.len(),
{
    if s.len() > 0 && is_white_space(s.last()) {
        let shorter = s.drop_last();
        law_trimming_the_end(shorter);
        let rest = trimmed_end(s);
        assert(shorter.take(rest.len() as int) =~= s.take(rest.len() as int));
        assert forall|i: int| rest.len() <= i < s.len() implies is_white_space(
            #[trigger] s[i],
        ) by {
            if i < shorter.len() {
                assert(shorter[i] == s[i]);
            }
        }
    } else {
        assert(s.take(s.len() as int) =~= s);
    }
}

proof fn lemma_words_after_white_space(s: Seq<char>)
    requires
        s.len() > 0,
        is_white_space(s[0]),
    ensures
        words(s) == words(s.drop_first()),
    decreases s.len(),
{
    let rest = s.drop_first();
    if s.len() == 1 {
        assert(words(s.drop_last()) =~= Seq::empty());
        assert(words(rest) =~= Seq::empty());
    } else {
        let shorter = s.drop_last();
        lemma_words_after_white_space(shorter);
        assert(shorter.drop_first() =~= rest.drop_last());
        assert(rest.last() == s.last());
        if rest.len() == 1 {
            assert(rest.drop_last() =~= Seq::empty());
        } else {
            assert(rest[rest.len() - 2] == s[s.len() - 2]);
        }
    }
}

/// White space at the two ends does not matter for the words of a text.
pub proof fn law_trimming_keeps_the_words(s: Seq<char>)
    ensures
        words(trimmed(s)) == words(s),
    decreases s.len(),
{
    if s.len() > 0 {
        if is_white_space(s[0]) {
            lemma_words_after_white_space(s);
            law_trimming_keeps_the_words(s.drop_first());
        } else if is_white_space(s.last()) {
            law_trimming_keeps_the_words(s.drop_last());
        }
    }
}

proof fn lemma_some_word(s: Seq<char>)
    requires
        s.len() > 0,
        !is_white_space(s[0]),
    ensures
        words(s).len() > 0,
    decreases s.len(),
{
    if s.len() > 1 {
        let shorter = s.drop_last();
        lemma_some_word(shorter);
    }
}

proof fn lemma_two_words(s: Seq<char>, at: int)
    requires
        0 < at < s.len() - 1,
        is_white_space(s[at]),
        !is_white_space(s[0]),
        !is_white_space(s.last()),
    ensures
        words(s).len() >= 2,
    decreases s.len(),
{
    let shorter = s.drop_last();
    if is_white_space(s[s.len() - 2]) {
        lemma_some_word(shorter);
    } else {
        lemma_two_words(shorter, at);
    }
}

/// A text without white space at its ends that has one word is that word.
pub proof fn lemma_only_word(s: Seq<char>)
    requires
        words(s).len() == 1,
        s.len() > 0,
        !is_white_space(s[0]),
        !is_white_space(s.last()),
    ensures
        words(s) == seq![s],
{
    assert forall|i: int| 0 <= i < s.len() implies !is_white_space(#[trigger] s[i]) by {
        if is_white_space(s[i]) {
            lemma_two_words(s, i);
        }
    }
    lemma_single_word(s);
}

/// A text of white space alone has no word, and any other text has one.
pub proof fn law_words_are_found(s: Seq<char>)
    ensures
        words(s).len() == 0 <==> forall|i: int| 0 <= i < s.len() ==> is_white_space(#[trigger] s[i]),
        words(s).len() == 0 <==> trimmed(s).len() == 0,
{
    let from = law_trimming_takes_white_space(s);
    law_trimming_keeps_the_words(s);
    let rest = trimmed(s);
    if rest.len() > 0 {
        lemma_some_word(rest);
        assert(s[from] == rest[0]);
    }
}

/// Beyond ASCII, white space are the next line, the blanks of other widths and the separators of
/// lines and paragraphs, and no other character.
pub proof fn law_other_white_space(c: char)
    requires
        c as u32 >= 0x80,
    ensures
        is_white_space(c) <==> {
            let code = c as u32;
            ||| code == 0x85
            ||| code == 0xa0
            ||| code == 0x1680
            ||| 0x2000 <= code <= 0x200a
            ||| code == 0x2028
            ||| code == 0x2029
            ||| code == 0x202f
            ||| code == 0x205f
            ||| code == 0x3000
        },
{
}

/// White space separates words: the words of two texts with white space between them are those
/// of the one and then those of the other.
pub proof fn law_white_space_separates_words(a: Seq<char>, gap: char, b: Seq<char>)
    requires
        is_white_space(gap),
    ensures
        words(a + seq![gap] + b) == words(a) + words(b),
    decreases b.len(),
{
    let whole = a + seq![gap] + b;
    if b.len() == 0 {
        assert(whole =~= a.push(gap));
        assert(whole.drop_last() =~= a);
        assert(words(a) + words(b) =~= words(a));
    } else {
        let shorter = b.drop_last();
        law_white_space_separates_words(a, gap, shorter);
        assert(whole.drop_last() =~= a + seq![gap] + shorter);
        assert(whole.last() == b.last());
        lemma_words_shape(shorter);
        if b.len() == 1 {
            assert(whole[whole.len() - 2] == gap);
        } else {
            assert(whole[whole.len() - 2] == b[b.len() - 2]);
            assert(shorter.last() == b[b.len() - 2]);
        }
        assert(words(whole) =~= words(a) + words(b));
    }
}

// ---------------------------------------------------------------------------------------
// Letter case
// ---------------------------------------------------------------------------------------

/// The upper-case form of an ASCII letter; any other character is left as it is.
pub open spec fn upper_char(c: char) -> char {
    if 'a' <= c <= 'z' {
        (c as u8 - 32) as char
    } else {
        c
    }
}

/// A text with its ASCII letters in upper case.
pub open spec fn upper(s: Seq<char>) -> Seq<char> {
    s.map_values(|c: char| upper_char(c))
}

/// A text with its ASCII letters in upper case.
pub fn to_upper(text: &str) -> (out: String)
    ensures
        out@ == upper(text@),
{
    let mut out = String::new();
    for c in it: text.chars()
        invariant
            out@ == upper(text@.take(it.index())),
            it.seq() == text@,
    {
        proof {
            assert(text@.take(it.index() + 1) =~= text@.take(it.index()).push(c));
            assert(upper(text@.take(it.index()).push(c)) =~= upper(text@.take(it.index())).push(
                upper_char(c),
            ));
        }
        if 'a' <= c && c <= 'z' {
            out.push((c as u8 - 32) as char);
        } else {
            out.push(c);
        }
    }
    assert(text@.take(text@.len() as int) =~= text@);
    out
}

/// Whether two texts are equal but for the case of ASCII letters.
pub fn same_ignoring_case(a: &str, b: &str) -> (same: bool)
    ensures
        same == (upper(a@) == upper(b@)),
{
    to_upper(a) == to_upper(b)
}

/// Upper case changes the ASCII letters from a to z, each to another letter, and nothing else;
/// doing it twice does no more.
pub proof fn law_upper_case(s: Seq<char>, i: int, j: int)
    requires
        0 <= i < s.len(),
        0 <= j < s.len(),
    ensures
        upper(s).len() == s.len(),
        upper(upper(s)) == upper(s),
        !('a' <= s[i] <= 'z') ==> upper(s)[i] == s[i],
        'a' <= s[i] <= 'z' ==> upper(s)[i] as u32 + 32 == s[i] as u32,
        'a' <= s[i] <= 'z' && 'a' <= s[j] <= 'z' ==> (upper(s)[i] == upper(s)[j] <==> s[i] == s[j]),
        'a' <= s[i] <= 'z' ==> 'A' <= upper(s)[i] <= 'Z',
{
    assert(upper(upper(s)) =~= upper(s));
}

/// A text that is a word of letters, lower or upper case aside, holds no white space.
pub proof fn lemma_word_of_letters(s: Seq<char>, name: Seq<char>)
    requires
        upper(s) == name,
        name.len() > 0,
        forall|i: int| 0 <= i < name.len() ==> 'A' <= #[trigger] name[i] <= 'Z',
    ensures
        words(s) == seq![s],
{
    assert forall|i: int| 0 <= i < s.len() implies !is_white_space(#[trigger] s[i]) by {
        assert(upper(s)[i] == upper_char(s[i]));
        assert('A' <= name[i] <= 'Z');
    }
    lemma_single_word(s);
}

// ---------------------------------------------------------------------------------------
// UTF-8
// ---------------------------------------------------------------------------------------

/// The bytes of two texts one after the other are those of the first, then of the second.
pub proof fn lemma_encode_concat(a: Seq<char>, b: Seq<char>)
    ensures
        encode_utf8(a + b) == encode_utf8(a) + encode_utf8(b),
    decreases a.len(),
{
    if a.len() == 0 {
        assert(a + b =~= b);
        assert(encode_utf8(a) + encode_utf8(b) =~= encode_utf8(b));
    } else {
        lemma_encode_concat(a.drop_first(), b);
        assert((a + b).drop_first() =~= a.drop_first() + b);
        assert(encode_utf8(a + b) =~= encode_utf8(a) + encode_utf8(b));
    }
}

/// Texts with the same bytes are the same text.
pub proof fn lemma_encode_injective(a: Seq<char>, b: Seq<char>)
    requires
        encode_utf8(a) == encode_utf8(b),
    ensures
        a == b,
{
    encode_utf8_decode_utf8(a);
    encode_utf8_decode_utf8(b);
}

/// The bytes of a text are valid UTF-8 and decode to the text.
pub proof fn lemma_decode_of_encode(a: Seq<char>)
    ensures
        valid_utf8(encode_utf8(a)),
        decode_utf8(encode_utf8(a)) == a,
{
    encode_utf8_valid_utf8(a);
    encode_utf8_decode_utf8(a);
}

/// An ASCII character is encoded as the one byte of its code; a byte below `0x80` occurs in
/// the encoding of no other character.
pub proof fn lemma_encode_scalar_low_byte(c: char, k: int)
    requires
        0 <= k < encode_scalar(c as u32).len(),
        encode_scalar(c as u32)[k] < 0x80,
    ensures
        c as u32 == encode_scalar(c as u32)[k],
        encode_scalar(c as u32).len() == 1,
{
    let v = c as u32;
    assert(v <= 0x7f ==> (v & 0x7F) as u8 == v) by (bit_vector);
    assert((0xC0u8 | ((v >> 6) & 0x1F) as u8) >= 0x80) by (bit_vector);
    assert((0xE0u8 | ((v >> 12) & 0x0F) as u8) >= 0x80) by (bit_vector);
    assert((0xF0u8 | ((v >> 18) & 0x7) as u8) >= 0x80) by (bit_vector);
    assert((0x80u8 | (v & 0x3F) as u8) >= 0x80) by (bit_vector);
    assert((0x80u8 | ((v >> 6) & 0x3F) as u8) >= 0x80) by (bit_vector);
    assert((0x80u8 | ((v >> 12) & 0x3F) as u8) >= 0x80) by (bit_vector);
}

/// The encoding of an ASCII character.
pub proof fn lemma_encode_ascii(c: char)
    requires
        (c as u32) < 0x80,
    ensures
        encode_utf8(seq![c]) == seq![c as u8],
{
    let v = c as u32;
    assert(v <= 0x7f ==> (v & 0x7F) as u8 == v) by (bit_vector);
    assert(seq![c].drop_first() =~= Seq::empty());
    assert(encode_utf8(Seq::<char>::empty()) =~= Seq::<u8>::empty());
    assert(encode_utf8(seq![c]) == encode_scalar(seq![c][0] as u32) + encode_utf8(
        seq![c].drop_first(),
    ));
    assert(encode_scalar(c as u32) =~= seq![c as u8]);
    assert(encode_utf8(seq![c]) =~= seq![c as u8]);
}

/// A byte below `0x80` occurs in the bytes of a text only where the character of that code
/// occurs in the text.
pub proof fn lemma_low_byte_occurs(s: Seq<char>, b: u8)
    requires
        b < 0x80,
        !s.contains(b as char),
    ensures
        !encode_utf8(s).contains(b),
    decreases s.len(),
{
    if s.len() > 0 {
        let rest = s.drop_first();
        assert forall|i: int| 0 <= i < rest.len() implies rest[i] != b as char by {
            assert(s[i + 1] != b as char);
        }
        lemma_low_byte_occurs(rest, b);
        let first: char = s[0];
        char_is_scalar(first);
        let head = encode_scalar(first as u32);
        assert(first != b as char);
        assert forall|i: int| 0 <= i < encode_utf8(s).len() implies encode_utf8(s)[i] != b by {
            if i < head.len() {
                if head[i] == b {
                    lemma_encode_scalar_low_byte(first, i);
                    char_u32_cast(first, first as u32);
                }
            } else {
                assert(encode_utf8(s)[i] == encode_utf8(rest)[i - head.len()]);
                assert(encode_utf8(rest).contains(encode_utf8(rest)[i - head.len()]));
            }
        }
    }
}

/// Each character takes one to four bytes.
pub proof fn lemma_encode_len(s: Seq<char>)
    ensures
        s.len() <= encode_utf8(s).len() <= 4 * s.len(),
    decreases s.len(),
{
    if s.len() > 0 {
        lemma_encode_len(s.drop_first());
        char_is_scalar(s[0]);
    }
}

/// A text of ASCII characters is encoded as the codes of its characters.
pub proof fn lemma_encode_ascii_text(s: Seq<char>)
    requires
        forall|i: int| 0 <= i < s.len() ==> (#[trigger] s[i] as u32) < 0x80,
    ensures
        encode_utf8(s).len() == s.len(),
        forall|i: int| 0 <= i < s.len() ==> #[trigger] encode_utf8(s)[i] == s[i] as u8,
    decreases s.len(),
{
    if s.len() > 0 {
        let front = s.drop_last();
        assert forall|i: int| 0 <= i < front.len() implies (#[trigger] front[i] as u32) < 0x80 by {
            assert(front[i] == s[i]);
        }
        lemma_encode_ascii_text(front);
        assert((s[s.len() - 1] as u32) < 0x80);
        lemma_encode_ascii(s.last());
        lemma_encode_concat(front, seq![s.last()]);
        assert(front + seq![s.last()] =~= s);
        assert forall|i: int| 0 <= i < s.len() implies #[trigger] encode_utf8(s)[i]
            == s[i] as u8 by {
            if i < front.len() {
                assert(encode_utf8(front)[i] == front[i] as u8);
            }
        }
    } else {
        assert(encode_utf8(s) =~= Seq::<u8>::empty());
    }
}

} // verus!
