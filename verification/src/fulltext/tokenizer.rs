//! Cutting text into terms.
use vstd::prelude::*;
use vstd::string::*;
use vstd::utf8::encode_utf8;

verus! {

/// The characters that have the Unicode property `White_Space`.
pub open spec fn whitespace(c: char) -> bool {
    ||| 0x9 <= c as u32 <= 0xd
    ||| c as u32 == 0x20
    ||| c as u32 == 0x85
    ||| c as u32 == 0xa0
    ||| c as u32 == 0x1680
    ||| 0x2000 <= c as u32 <= 0x200a
    ||| c as u32 == 0x2028
    ||| c as u32 == 0x2029
    ||| c as u32 == 0x202f
    ||| c as u32 == 0x205f
    ||| c as u32 == 0x3000
}

/// Whether `char::is_alphanumeric` takes a character for a letter or a digit.
pub uninterp spec fn alphanumeric(c: char) -> bool;

/// What `str::to_lowercase` makes of a string.
pub uninterp spec fn lowercase(s: Seq<char>) -> Seq<char>;

/// Asks `char::is_whitespace`, which takes a character for white space if it has the Unicode
/// property `White_Space`.
#[verifier::external_body]
fn is_whitespace(c: char) -> (r: bool)
    ensures
        r == whitespace(c),
{
    c.is_whitespace()
}

/// Asks `char::is_alphanumeric`. The answer depends on the character alone.
#[verifier::external_body]
fn is_alphanumeric(c: char) -> (r: bool)
    ensures
        r == alphanumeric(c),
{
    c.is_alphanumeric()
}

/// Calls `str::to_lowercase`. The result depends on the string alone.
#[verifier::external_body]
fn to_lowercase(s: &str) -> (r: String)
    ensures
        r@ == lowercase(s@),
{
    s.to_lowercase()
}

/// Calls `String::push`, which puts a character at the end.
#[verifier::external_body]
fn push_char(s: &mut String, c: char)
    ensures
        final(s)@ == old(s)@.push(c),
{
    s.push(c)
}

/// How text is cut into terms.
#[derive(Clone, Copy, Debug, PartialEq, Eq, Structural)]
pub enum TokenizerKind {
    /// At white space.
    Whitespace,
    /// At white space, with lower case letters and without punctuation.
    Simple,
    /// As `Simple`, and reduced to word stems.
    Stemming,
}

impl Default for TokenizerKind {
    fn default() -> (r: Self)
        ensures
            r == TokenizerKind::Simple,
    {
        TokenizerKind::Simple
    }
}

/// The settings of a tokenizer.
#[derive(Clone, Debug)]
pub struct TokenizerConfig {
    pub kind: TokenizerKind,
    /// The length in bytes below which words are passed over.
    pub min_word_length: usize,
    /// Words that are passed over.
    pub stop_words: Vec<String>,
}

/// The English words that are passed over by default.
pub open spec fn default_stop_words() -> Seq<Seq<char>> {
    seq![
        "a"@,
        "an"@,
        "and"@,
        "are"@,
        "as"@,
        "at"@,
        "be"@,
        "but"@,
        "by"@,
        "for"@,
        "if"@,
        "in"@,
        "into"@,
        "is"@,
        "it"@,
        "no"@,
        "not"@,
        "of"@,
        "on"@,
        "or"@,
        "such"@,
        "that"@,
        "the"@,
        "their"@,
        "then"@,
        "there"@,
        "these"@,
        "they"@,
        "this"@,
        "to"@,
        "was"@,
        "will"@,
        "with"@,
    ]
}

fn english_stop_words() -> (words: Vec<String>)
    ensures
        words_of(words@) == default_stop_words(),
{
    let mut words: Vec<String> = Vec::new();
    words.push("a".to_string());
    words.push("an".to_string());
    words.push("and".to_string());
    words.push("are".to_string());
    words.push("as".to_string());
    words.push("at".to_string());
    words.push("be".to_string());
    words.push("but".to_string());
    words.push("by".to_string());
    words.push("for".to_string());
    words.push("if".to_string());
    words.push("in".to_string());
    words.push("into".to_string());
    words.push("is".to_string());
    words.push("it".to_string());
    words.push("no".to_string());
    words.push("not".to_string());
    words.push("of".to_string());
    words.push("on".to_string());
    words.push("or".to_string());
    words.push("such".to_string());
    words.push("that".to_string());
    words.push("the".to_string());
    words.push("their".to_string());
    words.push("then".to_string());
    words.push("there".to_string());
    words.push("these".to_string());
    words.push("they".to_string());
    words.push("this".to_string());
    words.push("to".to_string());
    words.push("was".to_string());
    words.push("will".to_string());
    words.push("with".to_string());
    assert(words_of(words@) =~= default_stop_words());
    words
}

/// The words as character strings.
pub open spec fn words_of(words: Seq<String>) -> Seq<Seq<char>> {
    Seq::new(words.len(), |i: int| words[i]@)
}

impl Default for TokenizerConfig {
    fn default() -> (r: Self)
        ensures
            r.kind == TokenizerKind::Simple,
            r.min_word_length == 2,
            words_of(r.stop_words@) == default_stop_words(),
    {
        TokenizerConfig {
            kind: TokenizerKind::Simple,
            min_word_length: 2,
            stop_words: english_stop_words(),
        }
    }
}

/// The words that are complete, and the one that the text ends in.
pub open spec fn cut(text: Seq<char>) -> (Seq<Seq<char>>, Seq<char>)
    decreases text.len(),
{
    if text.len() == 0 {
        (Seq::empty(), Seq::empty())
    } else {
        let (done, current) = cut(text.drop_last());
        let c = text.last();
        if !whitespace(c) {
            (done, current.push(c))
        } else if current.len() > 0 {
            (done.push(current), Seq::empty())
        } else {
            (done, current)
        }
    }
}

/// The words of a text: what stands between white space.
pub open spec fn split_words(text: Seq<char>) -> Seq<Seq<char>> {
    let (done, current) = cut(text);
    if current.len() > 0 {
        done.push(current)
    } else {
        done
    }
}

/// Every word of a text has at least one character, and none of them is white space.
pub proof fn law_words_hold_no_whitespace(text: Seq<char>, i: int)
    requires
        0 <= i < split_words(text).len(),
    ensures
        split_words(text)[i].len() > 0,
        forall|j: int|
            0 <= j < split_words(text)[i].len() ==> !whitespace(#[trigger] split_words(text)[i][j]),
{
    lemma_cut(text);
    let (done, current) = cut(text);
    let w = split_words(text)[i];
    if i < done.len() {
        assert(w == done[i]);
        assert forall|j: int| 0 <= j < w.len() implies !whitespace(#[trigger] w[j]) by {
            assert(!whitespace(done[i][j]));
        }
    } else {
        assert(w == current);
    }
}

proof fn lemma_cut(text: Seq<char>)
    ensures
        ({
            let (done, current) = cut(text);
            &&& forall|i: int| 0 <= i < done.len() ==> (#[trigger] done[i]).len() > 0
            &&& forall|i: int, j: int|
                0 <= i < done.len() && 0 <= j < done[i].len() ==> !whitespace(
                    #[trigger] done[i][j],
                )
            &&& forall|j: int| 0 <= j < current.len() ==> !whitespace(#[trigger] current[j])
        }),
    decreases text.len(),
{
    if text.len() > 0 {
        lemma_cut(text.drop_last());
        let (done0, current0) = cut(text.drop_last());
        let (done, current) = cut(text);
        assert forall|i: int| 0 <= i < done.len() implies (#[trigger] done[i]).len() > 0 by {
            if i < done0.len() {
                assert(done[i] == done0[i]);
            }
        }
        assert forall|i: int, j: int| 0 <= i < done.len() && 0 <= j < done[i].len() implies !whitespace(
            #[trigger] done[i][j],
        ) by {
            if i < done0.len() {
                assert(!whitespace(done0[i][j]));
            } else {
                assert(!whitespace(current0[j]));
            }
        }
        assert forall|j: int| 0 <= j < current.len() implies !whitespace(#[trigger] current[j]) by {
            if j < current0.len() {
                assert(!whitespace(current0[j]));
            }
        }
    }
}

/// What stands on one side of white space and on the other is cut apart.
proof fn lemma_cut_joined(a: Seq<char>, space: char, b: Seq<char>)
    requires
        whitespace(space),
    ensures
        cut(a.push(space) + b) == (split_words(a) + cut(b).0, cut(b).1),
    decreases b.len(),
{
    let text = a.push(space) + b;
    if b.len() == 0 {
        assert(text =~= a.push(space));
        assert(text.drop_last() =~= a);
        assert(split_words(a) + cut(b).0 =~= split_words(a));
        assert(cut(text).1 =~= Seq::empty());
    } else {
        lemma_cut_joined(a, space, b.drop_last());
        assert(text.drop_last() =~= a.push(space) + b.drop_last());
        assert(text.last() == b.last());
        let (done, current) = cut(b.drop_last());
        assert((split_words(a) + done).push(current) =~= split_words(a) + done.push(current));
    }
}

/// A text without white space is one word, and one without characters has none.
pub proof fn law_text_of_one_word(text: Seq<char>)
    requires
        forall|i: int| 0 <= i < text.len() ==> !whitespace(#[trigger] text[i]),
    ensures
        text.len() > 0 ==> split_words(text) == seq![text],
        text.len() == 0 ==> split_words(text) == Seq::<Seq<char>>::empty(),
{
    lemma_cut_word(text);
    assert(Seq::empty().push(text) =~= seq![text]);
}

proof fn lemma_cut_word(text: Seq<char>)
    requires
        forall|i: int| 0 <= i < text.len() ==> !whitespace(#[trigger] text[i]),
    ensures
        cut(text) == (Seq::<Seq<char>>::empty(), text),
    decreases text.len(),
{
    if text.len() > 0 {
        let rest = text.drop_last();
        assert forall|i: int| 0 <= i < rest.len() implies !whitespace(#[trigger] rest[i]) by {
            assert(rest[i] == text[i]);
        }
        lemma_cut_word(rest);
        assert(!whitespace(text[text.len() - 1]));
        assert(rest.push(text.last()) =~= text);
    } else {
        assert(text =~= Seq::empty());
    }
}

/// The words of a text hold all of its characters but the white space, in order.
pub proof fn law_words_hold_the_text(text: Seq<char>)
    ensures
        split_words(text).flatten() == text.filter(|c: char| !whitespace(c)),
{
    lemma_cut_holds(text);
    let (done, current) = cut(text);
    if current.len() > 0 {
        done.lemma_flatten_push(current);
    } else {
        assert(done.flatten() + current =~= done.flatten());
    }
}

proof fn lemma_cut_holds(text: Seq<char>)
    ensures
        cut(text).0.flatten() + cut(text).1 == text.filter(|c: char| !whitespace(c)),
    decreases text.len(),
{
    reveal(Seq::filter);
    if text.len() > 0 {
        lemma_cut_holds(text.drop_last());
        let (done, current) = cut(text.drop_last());
        let c = text.last();
        if !whitespace(c) {
            assert(done.flatten() + current.push(c) =~= (done.flatten() + current).push(c));
        } else if current.len() > 0 {
            done.lemma_flatten_push(current);
            assert(done.push(current).flatten() + Seq::empty() =~= done.flatten() + current);
        }
    } else {
        assert(cut(text).0.flatten() + cut(text).1 =~= Seq::empty());
    }
}

/// A blank is white space.
pub proof fn law_blank_is_whitespace()
    ensures
        whitespace(' '),
{
}

/// The words of two texts with white space between them are the words of the one and those of
/// the other.
pub proof fn law_words_of_joined_texts(a: Seq<char>, space: char, b: Seq<char>)
    requires
        whitespace(space),
    ensures
        split_words(a.push(space) + b) == split_words(a) + split_words(b),
{
    lemma_cut_joined(a, space, b);
    let (done, current) = cut(b);
    assert((split_words(a) + done).push(current) =~= split_words(a) + done.push(current));
}

/// The letters and digits of a word.
pub open spec fn alphanumeric_part(w: Seq<char>) -> Seq<char>
    decreases w.len(),
{
    if w.len() == 0 {
        Seq::empty()
    } else {
        let before = alphanumeric_part(w.drop_last());
        if alphanumeric(w.last()) {
            before.push(w.last())
        } else {
            before
        }
    }
}

/// A word in lower case and without punctuation.
pub open spec fn normalized(w: Seq<char>) -> Seq<char> {
    lowercase(alphanumeric_part(w))
}

/// Of a word, the letters and digits are kept, all of them, in order and nothing else.
pub proof fn law_kept_characters(w: Seq<char>)
    ensures
        alphanumeric_part(w) == w.filter(|c: char| alphanumeric(c)),
        (forall|i: int| 0 <= i < w.len() ==> alphanumeric(#[trigger] w[i])) ==> alphanumeric_part(w)
            == w,
    decreases w.len(),
{
    reveal(Seq::filter);
    if w.len() > 0 {
        let rest = w.drop_last();
        law_kept_characters(rest);
        if forall|i: int| 0 <= i < w.len() ==> alphanumeric(#[trigger] w[i]) {
            assert forall|i: int| 0 <= i < rest.len() implies alphanumeric(#[trigger] rest[i]) by {
                assert(rest[i] == w[i]);
            }
            assert(alphanumeric(w[w.len() - 1]));
            assert(alphanumeric_part(w) =~= w);
        }
    } else {
        assert(w =~= Seq::empty());
    }
}

/// The length of a word in bytes.
pub open spec fn byte_len(w: Seq<char>) -> usize {
    encode_utf8(w).len() as usize
}

/// The word ends in the given characters.
pub open spec fn ends(w: Seq<char>, suffix: Seq<char>) -> bool {
    w.len() >= suffix.len() && w.skip(w.len() - suffix.len()) == suffix
}

/// The word without its last `n` characters.
pub open spec fn without_last(w: Seq<char>, n: int) -> Seq<char> {
    w.take(w.len() - n)
}

/// Whether the character is a vowel.
pub open spec fn is_vowel(c: char) -> bool {
    c == 'a' || c == 'e' || c == 'i' || c == 'o' || c == 'u'
}

/// Whether the word holds a vowel.
pub open spec fn has_vowel(w: Seq<char>) -> bool {
    exists|i: int| 0 <= i < w.len() && is_vowel(#[trigger] w[i])
}

/// The word without the mark of a plural.
pub open spec fn singular(w: Seq<char>) -> Seq<char> {
    if ends(w, "sses"@) {
        without_last(w, 2)
    } else if ends(w, "ies"@) {
        if byte_len(w) > 4 {
            without_last(w, 3)
        } else {
            w
        }
    } else if ends(w, "s"@) && !ends(w, "ss"@) {
        without_last(w, 1)
    } else {
        w
    }
}

/// The word without the mark of a past or a present form.
pub open spec fn tenseless(w: Seq<char>) -> Seq<char> {
    if ends(w, "eed"@) {
        if byte_len(w) > 4 {
            without_last(w, 1)
        } else {
            w
        }
    } else if ends(w, "ed"@) && byte_len(w) > 4 {
        if has_vowel(without_last(w, 2)) {
            without_last(w, 2)
        } else {
            w
        }
    } else if ends(w, "ing"@) && byte_len(w) > 5 {
        if has_vowel(without_last(w, 3)) {
            without_last(w, 3)
        } else {
            w
        }
    } else {
        w
    }
}

/// The word with a final y turned into an i.
pub open spec fn softened(w: Seq<char>) -> Seq<char> {
    if ends(w, "y"@) && byte_len(w) > 2 && has_vowel(without_last(w, 1)) {
        without_last(w, 1).push('i')
    } else {
        w
    }
}

/// The word without the first of the common suffixes that it ends in.
pub open spec fn bare(w: Seq<char>) -> Seq<char> {
    if ends(w, "tion"@) && byte_len(w) > 6 {
        without_last(w, 4)
    } else if ends(w, "ness"@) && byte_len(w) > 6 {
        without_last(w, 4)
    } else if ends(w, "ment"@) && byte_len(w) > 6 {
        without_last(w, 4)
    } else if ends(w, "able"@) && byte_len(w) > 6 {
        without_last(w, 4)
    } else if ends(w, "ible"@) && byte_len(w) > 6 {
        without_last(w, 4)
    } else if ends(w, "less"@) && byte_len(w) > 6 {
        without_last(w, 4)
    } else if ends(w, "ful"@) && byte_len(w) > 5 {
        without_last(w, 3)
    } else {
        w
    }
}

/// The stem of a word in lower case.
pub open spec fn stem_of(w: Seq<char>) -> Seq<char> {
    bare(softened(tenseless(singular(w))))
}

/// A word ends in some characters if those are its last ones.
proof fn lemma_ends(w: Seq<char>, suffix: Seq<char>)
    requires
        0 < suffix.len() <= 4,
    ensures
        ({
            let n = w.len();
            let k = suffix.len();
            ends(w, suffix) <==> n >= k && w[n - 1] == suffix[k - 1] && (k > 1 ==> w[n - 2]
                == suffix[k - 2]) && (k > 2 ==> w[n - 3] == suffix[k - 3]) && (k > 3 ==> w[n - 4]
                == suffix[k - 4])
        }),
{
    let n = w.len();
    let k = suffix.len();
    if n >= k {
        let tail = w.skip(n - k);
        assert(tail[k - 1] == w[n - 1]);
        assert(k > 1 ==> tail[k - 2] == w[n - 2]);
        assert(k > 2 ==> tail[k - 3] == w[n - 3]);
        assert(k > 3 ==> tail[k - 4] == w[n - 4]);
        if w[n - 1] == suffix[k - 1] && (k > 1 ==> w[n - 2] == suffix[k - 2]) && (k > 2 ==> w[n - 3]
            == suffix[k - 3]) && (k > 3 ==> w[n - 4] == suffix[k - 4]) {
            assert forall|i: int| 0 <= i < k implies tail[i] == suffix[i] by {
                assert(i == k - 1 || i == k - 2 || i == k - 3 || i == k - 4);
            }
            assert(tail =~= suffix);
        }
    }
}

/// Which endings a word has goes by its last characters.
proof fn lemma_endings(w: Seq<char>)
    ensures
        ({
            let n = w.len();
            &&& ends(w, "sses"@) <==> n >= 4 && w[n - 4] == 's' && w[n - 3] == 's' && w[n - 2]
                == 'e' && w[n - 1] == 's'
            &&& ends(w, "ies"@) <==> n >= 3 && w[n - 3] == 'i' && w[n - 2] == 'e' && w[n - 1] == 's'
            &&& ends(w, "ss"@) <==> n >= 2 && w[n - 2] == 's' && w[n - 1] == 's'
            &&& ends(w, "s"@) <==> n >= 1 && w[n - 1] == 's'
            &&& ends(w, "eed"@) <==> n >= 3 && w[n - 3] == 'e' && w[n - 2] == 'e' && w[n - 1] == 'd'
            &&& ends(w, "ed"@) <==> n >= 2 && w[n - 2] == 'e' && w[n - 1] == 'd'
            &&& ends(w, "ing"@) <==> n >= 3 && w[n - 3] == 'i' && w[n - 2] == 'n' && w[n - 1] == 'g'
            &&& ends(w, "y"@) <==> n >= 1 && w[n - 1] == 'y'
        }),
{
    reveal_strlit("sses");
    reveal_strlit("ies");
    reveal_strlit("ss");
    reveal_strlit("s");
    reveal_strlit("eed");
    reveal_strlit("ed");
    reveal_strlit("ing");
    reveal_strlit("y");
    lemma_ends(w, "sses"@);
    lemma_ends(w, "ies"@);
    lemma_ends(w, "ss"@);
    lemma_ends(w, "s"@);
    lemma_ends(w, "eed"@);
    lemma_ends(w, "ed"@);
    lemma_ends(w, "ing"@);
    lemma_ends(w, "y"@);
}

/// Which of the common suffixes a word has goes by its last characters.
proof fn lemma_suffixes(w: Seq<char>)
    ensures
        ({
            let n = w.len();
            &&& ends(w, "tion"@) <==> n >= 4 && w[n - 4] == 't' && w[n - 3] == 'i' && w[n - 2]
                == 'o' && w[n - 1] == 'n'
            &&& ends(w, "ness"@) <==> n >= 4 && w[n - 4] == 'n' && w[n - 3] == 'e' && w[n - 2]
                == 's' && w[n - 1] == 's'
            &&& ends(w, "ment"@) <==> n >= 4 && w[n - 4] == 'm' && w[n - 3] == 'e' && w[n - 2]
                == 'n' && w[n - 1] == 't'
            &&& ends(w, "able"@) <==> n >= 4 && w[n - 4] == 'a' && w[n - 3] == 'b' && w[n - 2]
                == 'l' && w[n - 1] == 'e'
            &&& ends(w, "ible"@) <==> n >= 4 && w[n - 4] == 'i' && w[n - 3] == 'b' && w[n - 2]
                == 'l' && w[n - 1] == 'e'
            &&& ends(w, "less"@) <==> n >= 4 && w[n - 4] == 'l' && w[n - 3] == 'e' && w[n - 2]
                == 's' && w[n - 1] == 's'
            &&& ends(w, "ful"@) <==> n >= 3 && w[n - 3] == 'f' && w[n - 2] == 'u' && w[n - 1] == 'l'
        }),
{
    reveal_strlit("tion");
    reveal_strlit("ness");
    reveal_strlit("ment");
    reveal_strlit("able");
    reveal_strlit("ible");
    reveal_strlit("less");
    reveal_strlit("ful");
    lemma_ends(w, "tion"@);
    lemma_ends(w, "ness"@);
    lemma_ends(w, "ment"@);
    lemma_ends(w, "able"@);
    lemma_ends(w, "ible"@);
    lemma_ends(w, "less"@);
    lemma_ends(w, "ful"@);
}

/// A word whose last letter ends none of the endings is its own stem.
pub proof fn law_stem_of_a_plain_word(w: Seq<char>)
    requires
        w.len() == 0 || !seq!['s', 'd', 'g', 'y', 'n', 't', 'e', 'l'].contains(w.last()),
    ensures
        stem_of(w) == w,
{
    let marks = seq!['s', 'd', 'g', 'y', 'n', 't', 'e', 'l'];
    assert(marks[0] == 's' && marks[1] == 'd' && marks[2] == 'g' && marks[3] == 'y' && marks[4]
        == 'n' && marks[5] == 't' && marks[6] == 'e' && marks[7] == 'l');
    lemma_endings(w);
    lemma_suffixes(w);
}

/// A plural has the stem of its singular: `sses` is that of `ss`, a long enough `ies` is taken
/// off, and so is a single `s`.
pub proof fn law_stem_of_a_plural(b: Seq<char>)
    ensures
        stem_of(b + seq!['s', 's', 'e', 's']) == stem_of(b + seq!['s', 's']),
        byte_len(b + seq!['i', 'e', 's']) > 4 && (b.len() > 0 ==> b.last() != 's') ==> stem_of(
            b + seq!['i', 'e', 's'],
        ) == stem_of(b),
        b.len() > 0 && b.last() != 's' && !(b.len() > 1 && b[b.len() - 2] == 'i' && b.last() == 'e')
            && !(b.len() > 2 && b[b.len() - 3] == 's' && b[b.len() - 2] == 's' && b.last() == 'e')
            ==> stem_of(b.push('s')) == stem_of(b),
{
    let (w1, w2, w3) = (
        b + seq!['s', 's', 'e', 's'],
        b + seq!['i', 'e', 's'],
        b.push('s'),
    );
    lemma_endings(w1);
    lemma_endings(w2);
    lemma_endings(w3);
    lemma_endings(b);
    lemma_endings(b + seq!['s', 's']);
    assert(without_last(w1, 2) =~= b + seq!['s', 's']);
    assert(without_last(w2, 3) =~= b);
    assert(without_last(w3, 1) =~= b);
}

/// A final `eed` of a long enough word loses its `d`.
pub proof fn law_stem_keeps_ee(b: Seq<char>)
    requires
        byte_len(b + seq!['e', 'e', 'd']) > 4,
    ensures
        stem_of(b + seq!['e', 'e', 'd']) == b + seq!['e', 'e'],
{
    let w = b + seq!['e', 'e', 'd'];
    lemma_endings(w);
    assert(without_last(w, 1) =~= b + seq!['e', 'e']);
    lemma_endings(without_last(w, 1));
    lemma_suffixes(without_last(w, 1));
}

/// A past or a present form that is long enough has the stem of the word that its ending leaves,
/// if that holds a vowel; else it keeps its ending.
pub proof fn law_stem_of_a_form(b: Seq<char>)
    requires
        b.len() == 0 || !seq!['s', 'd', 'g', 'e'].contains(b.last()),
    ensures
        byte_len(b + seq!['e', 'd']) > 4 ==> stem_of(b + seq!['e', 'd']) == (if has_vowel(b) {
            stem_of(b)
        } else {
            b + seq!['e', 'd']
        }),
        byte_len(b + seq!['i', 'n', 'g']) > 5 ==> stem_of(b + seq!['i', 'n', 'g']) == (if has_vowel(
            b,
        ) {
            stem_of(b)
        } else {
            b + seq!['i', 'n', 'g']
        }),
        byte_len(b + seq!['e', 'd']) <= 4 ==> stem_of(b + seq!['e', 'd']) == b + seq!['e', 'd'],
        byte_len(b + seq!['i', 'n', 'g']) <= 5 ==> stem_of(b + seq!['i', 'n', 'g']) == b + seq![
            'i',
            'n',
            'g',
        ],
{
    let marks = seq!['s', 'd', 'g', 'e'];
    assert(marks[0] == 's' && marks[1] == 'd' && marks[2] == 'g' && marks[3] == 'e');
    let (w1, w2) = (b + seq!['e', 'd'], b + seq!['i', 'n', 'g']);
    lemma_endings(w1);
    lemma_endings(w2);
    lemma_endings(b);
    lemma_suffixes(w1);
    lemma_suffixes(w2);
    assert(without_last(w1, 2) =~= b);
    assert(without_last(w2, 3) =~= b);
}

/// A final y behind a vowel, somewhere before it, turns into an i.
pub proof fn law_stem_of_a_final_y(b: Seq<char>)
    ensures
        stem_of(b.push('y')) == (if byte_len(b.push('y')) > 2 && has_vowel(b) {
            b.push('i')
        } else {
            b.push('y')
        }),
{
    let w = b.push('y');
    lemma_endings(w);
    lemma_suffixes(w);
    assert(without_last(w, 1) =~= b);
    lemma_suffixes(b.push('i'));
}

/// A common suffix of a long enough word is taken off.
pub proof fn law_stem_drops_a_suffix(b: Seq<char>, suffix: Seq<char>)
    requires
        suffix == seq!['t', 'i', 'o', 'n'] || suffix == seq!['n', 'e', 's', 's'] || suffix == seq![
            'm',
            'e',
            'n',
            't',
        ] || suffix == seq!['a', 'b', 'l', 'e'] || suffix == seq!['i', 'b', 'l', 'e'] || suffix
            == seq!['l', 'e', 's', 's'] || suffix == seq!['f', 'u', 'l'],
    ensures
        stem_of(b + suffix) == (if byte_len(b + suffix) > suffix.len() + 2 {
            b
        } else {
            b + suffix
        }),
{
    let w = b + suffix;
    assert forall|i: int| 0 < i <= suffix.len() implies #[trigger] w[w.len() - i]
        == suffix[suffix.len() - i] by {}
    lemma_endings(w);
    lemma_suffixes(w);
    assert(without_last(w, suffix.len() as int) =~= b);
    assert(w[w.len() - 1] == suffix[suffix.len() - 1]);
    assert(w[w.len() - 2] == suffix[suffix.len() - 2]);
    assert(w[w.len() - 3] == suffix[suffix.len() - 3]);
}

/// The term that a word gives, if it is not passed over.
pub open spec fn term_of(
    kind: TokenizerKind,
    min: usize,
    stop_words: Seq<Seq<char>>,
    w: Seq<char>,
) -> Option<Seq<char>> {
    match kind {
        TokenizerKind::Whitespace => if byte_len(w) >= min {
            Some(w)
        } else {
            None
        },
        TokenizerKind::Simple => if byte_len(normalized(w)) >= min && !stop_words.contains(
            normalized(w),
        ) {
            Some(normalized(w))
        } else {
            None
        },
        TokenizerKind::Stemming => if byte_len(normalized(w)) >= min && !stop_words.contains(
            normalized(w),
        ) {
            Some(stem_of(lowercase(normalized(w))))
        } else {
            None
        },
    }
}

/// The terms that words give.
pub open spec fn terms_of(
    kind: TokenizerKind,
    min: usize,
    stop_words: Seq<Seq<char>>,
    words: Seq<Seq<char>>,
) -> Seq<Seq<char>>
    decreases words.len(),
{
    if words.len() == 0 {
        Seq::empty()
    } else {
        let before = terms_of(kind, min, stop_words, words.drop_last());
        match term_of(kind, min, stop_words, words.last()) {
            Some(t) => before.push(t),
            None => before,
        }
    }
}

proof fn lemma_terms_of_more(
    kind: TokenizerKind,
    min: usize,
    stop_words: Seq<Seq<char>>,
    a: Seq<Seq<char>>,
    b: Seq<Seq<char>>,
)
    ensures
        terms_of(kind, min, stop_words, a + b) == terms_of(kind, min, stop_words, a) + terms_of(
            kind,
            min,
            stop_words,
            b,
        ),
    decreases b.len(),
{
    if b.len() == 0 {
        assert(a + b =~= a);
        assert(terms_of(kind, min, stop_words, a) + terms_of(kind, min, stop_words, b) =~= terms_of(
            kind,
            min,
            stop_words,
            a,
        ));
    } else {
        lemma_terms_of_more(kind, min, stop_words, a, b.drop_last());
        assert((a + b).drop_last() =~= a + b.drop_last());
        assert((a + b).last() == b.last());
        let x = terms_of(kind, min, stop_words, a);
        let y = terms_of(kind, min, stop_words, b.drop_last());
        match term_of(kind, min, stop_words, b.last()) {
            Some(t) => {
                assert((x + y).push(t) =~= x + y.push(t));
            },
            None => {},
        }
    }
}

/// Whether a word ends in the given characters.
fn ends_with(w: &str, suffix: &str) -> (r: bool)
    ensures
        r == ends(w@, suffix@),
{
    let n: usize = w.unicode_len();
    let m: usize = suffix.unicode_len();
    if n < m {
        return false;
    }
    let mut i: usize = 0;
    let ghost tail = w@.skip(n - m);
    while i < m
        invariant
            i <= m <= n,
            n == w@.len(),
            m == suffix@.len(),
            tail == w@.skip(n - m),
            forall|j: int| 0 <= j < i ==> #[trigger] tail[j] == suffix@[j],
        decreases m - i,
    {
        if w.get_char(n - m + i) != suffix.get_char(i) {
            assert(tail[i as int] != suffix@[i as int]);
            return false;
        }
        i += 1;
    }
    assert(tail =~= suffix@);
    true
}

/// A word without its last characters.
fn drop_last_chars(w: &str, n: usize) -> (r: String)
    requires
        n <= w@.len(),
    ensures
        r@ == without_last(w@, n as int),
{
    let len: usize = w.unicode_len();
    let part = w.substring_char(0, len - n);
    assert(part@ =~= without_last(w@, n as int));
    part.to_owned()
}

fn holds_vowel(w: &str) -> (r: bool)
    ensures
        r == has_vowel(w@),
{
    let n: usize = w.unicode_len();
    let mut i: usize = 0;
    while i < n
        invariant
            i <= n == w@.len(),
            forall|j: int| 0 <= j < i ==> !is_vowel(#[trigger] w@[j]),
        decreases n - i,
    {
        let c: char = w.get_char(i);
        if c == 'a' || c == 'e' || c == 'i' || c == 'o' || c == 'u' {
            assert(is_vowel(w@[i as int]));
            return true;
        }
        i += 1;
    }
    false
}

fn drop_plural(w: String) -> (r: String)
    ensures
        r@ == singular(w@),
{
    proof {
        reveal_strlit("sses");
        reveal_strlit("ies");
        reveal_strlit("s");
    }
    if ends_with(w.as_str(), "sses") {
        drop_last_chars(w.as_str(), 2)
    } else if ends_with(w.as_str(), "ies") {
        if w.as_str().len() > 4 {
            drop_last_chars(w.as_str(), 3)
        } else {
            w
        }
    } else if ends_with(w.as_str(), "s") && !ends_with(w.as_str(), "ss") {
        drop_last_chars(w.as_str(), 1)
    } else {
        w
    }
}

fn drop_tense(w: String) -> (r: String)
    ensures
        r@ == tenseless(w@),
{
    proof {
        reveal_strlit("eed");
        reveal_strlit("ed");
        reveal_strlit("ing");
    }
    if ends_with(w.as_str(), "eed") {
        if w.as_str().len() > 4 {
            drop_last_chars(w.as_str(), 1)
        } else {
            w
        }
    } else if ends_with(w.as_str(), "ed") && w.as_str().len() > 4 {
        let base = drop_last_chars(w.as_str(), 2);
        if holds_vowel(base.as_str()) {
            base
        } else {
            w
        }
    } else if ends_with(w.as_str(), "ing") && w.as_str().len() > 5 {
        let base = drop_last_chars(w.as_str(), 3);
        if holds_vowel(base.as_str()) {
            base
        } else {
            w
        }
    } else {
        w
    }
}

fn soften(w: String) -> (r: String)
    ensures
        r@ == softened(w@),
{
    proof {
        reveal_strlit("y");
    }
    if ends_with(w.as_str(), "y") && w.as_str().len() > 2 {
        let mut base = drop_last_chars(w.as_str(), 1);
        if holds_vowel(base.as_str()) {
            push_char(&mut base, 'i');
            base
        } else {
            w
        }
    } else {
        w
    }
}

fn drop_suffix(w: String) -> (r: String)
    ensures
        r@ == bare(w@),
{
    proof {
        reveal_strlit("tion");
        reveal_strlit("ness");
        reveal_strlit("ment");
        reveal_strlit("able");
        reveal_strlit("ible");
        reveal_strlit("less");
        reveal_strlit("ful");
    }
    let len: usize = w.as_str().len();
    if ends_with(w.as_str(), "tion") && len > 6 {
        drop_last_chars(w.as_str(), 4)
    } else if ends_with(w.as_str(), "ness") && len > 6 {
        drop_last_chars(w.as_str(), 4)
    } else if ends_with(w.as_str(), "ment") && len > 6 {
        drop_last_chars(w.as_str(), 4)
    } else if ends_with(w.as_str(), "able") && len > 6 {
        drop_last_chars(w.as_str(), 4)
    } else if ends_with(w.as_str(), "ible") && len > 6 {
        drop_last_chars(w.as_str(), 4)
    } else if ends_with(w.as_str(), "less") && len > 6 {
        drop_last_chars(w.as_str(), 4)
    } else if ends_with(w.as_str(), "ful") && len > 5 {
        drop_last_chars(w.as_str(), 3)
    } else {
        w
    }
}

/// The stem of a word in lower case, after a simplified Porter stemmer.
pub fn stem_lowercase(w: String) -> (r: String)
    ensures
        r@ == stem_of(w@),
{
    drop_suffix(soften(drop_tense(drop_plural(w))))
}

/// The term that a word in normal form gives, if it is not passed over.
pub fn keep_word(w: String, min: usize, stop_words: &Vec<String>) -> (r: Option<String>)
    ensures
        r is Some <==> byte_len(w@) >= min && !words_of(stop_words@).contains(w@),
        r matches Some(t) ==> t@ == w@,
{
    if w.as_str().len() < min {
        return None;
    }
    let mut i: usize = 0;
    while i < stop_words.len()
        invariant
            i <= stop_words@.len(),
            forall|j: int| 0 <= j < i ==> #[trigger] words_of(stop_words@)[j] != w@,
        decreases stop_words@.len() - i,
    {
        if stop_words[i] == w {
            assert(words_of(stop_words@)[i as int] == w@);
            return None;
        }
        i += 1;
    }
    Some(w)
}

/// Cuts text into terms.
#[derive(Debug)]
pub struct Tokenizer {
    pub config: TokenizerConfig,
}

impl Tokenizer {
    /// The terms of a text.
    pub open spec fn terms(&self, text: Seq<char>) -> Seq<Seq<char>> {
        terms_of(
            self.config.kind,
            self.config.min_word_length,
            words_of(self.config.stop_words@),
            split_words(text),
        )
    }

    /// The terms of two texts with white space between them are the terms of the one and those
    /// of the other.
    pub proof fn law_terms_of_joined_texts(&self, a: Seq<char>, space: char, b: Seq<char>)
        requires
            whitespace(space),
        ensures
            self.terms(a.push(space) + b) == self.terms(a) + self.terms(b),
    {
        law_words_of_joined_texts(a, space, b);
        lemma_terms_of_more(
            self.config.kind,
            self.config.min_word_length,
            words_of(self.config.stop_words@),
            split_words(a),
            split_words(b),
        );
    }

    /// The terms of two texts joined by a blank are the terms of the one, each with its number,
    /// and those of the other, numbered on from there.
    pub proof fn law_terms_of_texts_joined_by_a_blank(&self, a: Seq<char>, b: Seq<char>, i: int)
        ensures
            self.terms(a.push(' ') + b).len() == self.terms(a).len() + self.terms(b).len(),
            0 <= i < self.terms(a).len() ==> self.terms(a.push(' ') + b)[i] == self.terms(a)[i],
            0 <= i < self.terms(b).len() ==> self.terms(a.push(' ') + b)[self.terms(a).len() + i]
                == self.terms(b)[i],
    {
        law_blank_is_whitespace();
        self.law_terms_of_joined_texts(a, ' ', b);
    }

    /// What a word gives: at white space alone the word itself, else its letters and digits in
    /// lower case, reduced to their stem where that is asked for. A word that is too short gives
    /// nothing, and neither does a stop word, where letters and digits are looked at.
    pub proof fn law_terms_of_a_word(&self, w: Seq<char>)
        requires
            w.len() > 0,
            forall|i: int| 0 <= i < w.len() ==> !whitespace(#[trigger] w[i]),
        ensures
            ({
                let kept = lowercase(w.filter(|c: char| alphanumeric(c)));
                let counts = |s: Seq<char>| encode_utf8(s).len() as usize
                    >= self.config.min_word_length;
                let stops = exists|i: int|
                    0 <= i < self.config.stop_words@.len() && (
                    #[trigger] self.config.stop_words@[i])@ == kept;
                self.terms(w) == match self.config.kind {
                    TokenizerKind::Whitespace => if counts(w) {
                        seq![w]
                    } else {
                        Seq::empty()
                    },
                    TokenizerKind::Simple => if counts(kept) && !stops {
                        seq![kept]
                    } else {
                        Seq::empty()
                    },
                    TokenizerKind::Stemming => if counts(kept) && !stops {
                        seq![stem_of(lowercase(kept))]
                    } else {
                        Seq::empty()
                    },
                }
            }),
    {
        law_text_of_one_word(w);
        law_kept_characters(w);
        let stop_words = words_of(self.config.stop_words@);
        let kept = lowercase(w.filter(|c: char| alphanumeric(c)));
        if exists|i: int|
            0 <= i < self.config.stop_words@.len() && (#[trigger] self.config.stop_words@[i])@
                == kept {
            let i = choose|i: int|
                0 <= i < self.config.stop_words@.len() && (#[trigger] self.config.stop_words@[i])@
                    == kept;
            assert(stop_words[i] == kept);
        }
        if stop_words.contains(kept) {
            let i = stop_words.index_of(kept);
            assert(self.config.stop_words@[i]@ == kept);
        }
        assert(seq![w].drop_last() =~= Seq::empty());
        reveal_with_fuel(terms_of, 2);
        assert(self.terms(w) =~= match self.config.kind {
            TokenizerKind::Whitespace => if byte_len(w) >= self.config.min_word_length {
                seq![w]
            } else {
                Seq::empty()
            },
            TokenizerKind::Simple => if byte_len(kept) >= self.config.min_word_length
                && !stop_words.contains(kept) {
                seq![kept]
            } else {
                Seq::empty()
            },
            TokenizerKind::Stemming => if byte_len(kept) >= self.config.min_word_length
                && !stop_words.contains(kept) {
                seq![stem_of(lowercase(kept))]
            } else {
                Seq::empty()
            },
        });
    }

    /// A tokenizer with the given settings.
    pub fn new(config: TokenizerConfig) -> (r: Self)
        ensures
            r.config == config,
    {
        Tokenizer { config }
    }

    /// A tokenizer with the default settings.
    pub fn default() -> (r: Self)
        ensures
            r.config.kind == TokenizerKind::Simple,
            r.config.min_word_length == 2,
            words_of(r.config.stop_words@) == default_stop_words(),
    {
        Tokenizer { config: TokenizerConfig::default() }
    }

    fn normalize_word(&self, word: &str) -> (r: String)
        ensures
            r@ == normalized(word@),
    {
        let mut part = String::new();
        let mut i: usize = 0;
        let n: usize = word.unicode_len();
        assert(word@.take(0) =~= Seq::empty());
        while i < n
            invariant
                i <= n == word@.len(),
                part@ == alphanumeric_part(word@.take(i as int)),
            decreases n - i,
        {
            let c: char = word.get_char(i);
            proof {
                assert(word@.take(i + 1).drop_last() =~= word@.take(i as int));
                assert(word@.take(i + 1).last() == c);
            }
            if is_alphanumeric(c) {
                push_char(&mut part, c);
            }
            i += 1;
        }
        assert(word@.take(n as int) =~= word@);
        to_lowercase(part.as_str())
    }

    fn stem(&self, word: &str) -> (r: String)
        ensures
            r@ == stem_of(lowercase(word@)),
    {
        stem_lowercase(to_lowercase(word))
    }

    fn split_words(text: &str) -> (r: Vec<String>)
        ensures
            words_of(r@) == split_words(text@),
    {
        let mut words: Vec<String> = Vec::new();
        let mut current = String::new();
        let ghost t = text@;
        assert(t.take(0) =~= Seq::empty());
        assert(words_of(words@) =~= Seq::empty());
        for c in iter: text.chars()
            invariant
                t == text@,
                iter.seq() == t,
                words_of(words@) == cut(t.take(iter.index() as int)).0,
                current@ == cut(t.take(iter.index() as int)).1,
        {
            let ghost i = iter.index() as int;
            proof {
                assert(t.take(i + 1).drop_last() =~= t.take(i));
                assert(t.take(i + 1).last() == c);
            }
            if !is_whitespace(c) {
                push_char(&mut current, c);
            } else if current.as_str().unicode_len() > 0 {
                let ghost before = words@;
                let ghost w = current@;
                words.push(current);
                current = String::new();
                assert(words_of(words@) =~= words_of(before).push(w));
            }
        }
        assert(t.take(t.len() as int) =~= t);
        if current.as_str().unicode_len() > 0 {
            let ghost before = words@;
            let ghost w = current@;
            words.push(current);
            assert(words_of(words@) =~= words_of(before).push(w));
        }
        words
    }

    fn term(&self, word: &str) -> (r: Option<String>)
        ensures
            match r {
                Some(t) => term_of(
                    self.config.kind,
                    self.config.min_word_length,
                    words_of(self.config.stop_words@),
                    word@,
                ) == Some(t@),
                None => term_of(
                    self.config.kind,
                    self.config.min_word_length,
                    words_of(self.config.stop_words@),
                    word@,
                ) is None,
            },
    {
        match self.config.kind {
            TokenizerKind::Whitespace => {
                if word.len() >= self.config.min_word_length {
                    Some(word.to_owned())
                } else {
                    None
                }
            },
            TokenizerKind::Simple => keep_word(
                self.normalize_word(word),
                self.config.min_word_length,
                &self.config.stop_words,
            ),
            TokenizerKind::Stemming => match keep_word(
                self.normalize_word(word),
                self.config.min_word_length,
                &self.config.stop_words,
            ) {
                Some(w) => Some(self.stem(w.as_str())),
                None => None,
            },
        }
    }

    /// The terms of a text, each with its number in the row.
    pub fn tokenize(&self, text: &str) -> (r: Vec<(String, usize)>)
        ensures
            r@.len() == self.terms(text@).len(),
            forall|i: int|
                0 <= i < r@.len() ==> (#[trigger] r@[i]).0@ == self.terms(text@)[i] && r@[i].1 == i,
    {
        let words = Self::split_words(text);
        let ghost ws = split_words(text@);
        let ghost kind = self.config.kind;
        let ghost min = self.config.min_word_length;
        let ghost stop = words_of(self.config.stop_words@);
        let mut terms: Vec<(String, usize)> = Vec::new();
        let mut i: usize = 0;
        assert(ws.take(0) =~= Seq::empty());
        while i < words.len()
            invariant
                i <= words@.len() == ws.len(),
                ws == words_of(words@),
                kind == self.config.kind,
                min == self.config.min_word_length,
                stop == words_of(self.config.stop_words@),
                terms@.len() == terms_of(kind, min, stop, ws.take(i as int)).len(),
                forall|j: int|
                    0 <= j < terms@.len() ==> (#[trigger] terms@[j]).0@ == terms_of(
                        kind,
                        min,
                        stop,
                        ws.take(i as int),
                    )[j] && terms@[j].1 == j,
            decreases words@.len() - i,
        {
            proof {
                assert(ws.take(i + 1).drop_last() =~= ws.take(i as int));
                assert(ws.take(i + 1).last() == words@[i as int]@);
            }
            match self.term(words[i].as_str()) {
                Some(t) => {
                    let position: usize = terms.len();
                    terms.push((t, position));
                },
                None => {},
            }
            i += 1;
        }
        assert(ws.take(i as int) =~= ws);
        terms
    }
}

} // verus!
