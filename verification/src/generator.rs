use vstd::prelude::*;

use rand::RngExt;

use crate::engine::{lemma_split_on_bounds, split_on};

verus! {

broadcast use vstd::seq_lib::group_seq_properties;

/// The words that texts are made of, one per line; blank lines are skipped. The list is
/// kept in two parts.
pub const WORDS_FIRST: &'static str = "the\nbe\nof\nand\nto\nin\nhe\nhave\nit\nthat\nfor\nthey\nwith\nas\nnot\non\nshe\nat\nby\nthis\nwe\nyou\ndo\nbut\nfrom\nor\nwhich\none\nwould\nall\nwill\nthere\nsay\nwho\nmake\nwhen\ncan\nmore\nif\nno\nman\nout\nother\nso\nwhat\ntime\nup\ngo\nabout\nthan\ninto\ncould\nstate\nonly\nnew\nyear\nsome\ntake\ncome\nthese\nknow\nsee\nuse\nget\nlike\nthen";

/// The second part of the word list.
pub const WORDS_SECOND: &'static str = "first\nany\nwork\nnow\nmay\nsuch\ngive\nover\nthink\nmost\neven\nfind\nday\nalso\nafter\nway\nmany\nmust\nlook\nbefore\ngreat\nback\nthrough\nlong\nwhere\nmuch\nshould\nwell\npeople\ndown\nown\njust\nbecause\ngood\neach\nthose\nfeel\nseem\nhow\nhigh\ntoo\nplace\nlittle\nworld\nvery\nstill\nnation\nhand\nold\nlife\ntell\nwrite\nbecome";

/// The longest that a word of the list can be.
pub const MAX_WORD_LEN: usize = 290;

/// Whether `c` is whitespace as `char::is_whitespace` decides: the characters with the
/// Unicode `White_Space` property.
pub open spec fn is_white(c: char) -> bool {
    let x = c as int;
    ||| 0x09 <= x <= 0x0d
    ||| x == 0x20
    ||| x == 0x85
    ||| x == 0xa0
    ||| x == 0x1680
    ||| 0x2000 <= x <= 0x200a
    ||| x == 0x2028
    ||| x == 0x2029
    ||| x == 0x202f
    ||| x == 0x205f
    ||| x == 0x3000
}

/// A line of nothing but whitespace, or empty.
pub open spec fn is_blank(line: Seq<char>) -> bool {
    forall|k: int| 0 <= k < line.len() ==> is_white(#[trigger] line[k])
}

pub open spec fn not_blank() -> spec_fn(Seq<char>) -> bool {
    |line: Seq<char>| !is_blank(line)
}

/// A line without the carriage return of a "\r\n" line ending.
pub open spec fn without_cr(line: Seq<char>) -> Seq<char> {
    if line.len() > 0 && line.last() == '\r' {
        line.drop_last()
    } else {
        line
    }
}

/// The pieces that a newline ended, each without a carriage return before that newline.
pub open spec fn ended_lines(pieces: Seq<Seq<char>>) -> Seq<Seq<char>> {
    if pieces.len() == 0 {
        Seq::empty()
    } else {
        Seq::new((pieces.len() - 1) as nat, |i: int| without_cr(pieces[i]))
    }
}

/// The lines of `text`: split at each newline, a carriage return before a newline left out,
/// the text after the last newline kept as it is (empty where the text ends with a newline).
pub open spec fn line_pieces(text: Seq<char>) -> Seq<Seq<char>> {
    let pieces = split_on(text, '\n');
    ended_lines(pieces).push(pieces.last())
}

/// The word list: the lines of both parts in order, blank lines left out.
pub open spec fn word_list_spec() -> Seq<Seq<char>> {
    (line_pieces(WORDS_FIRST@) + line_pieces(WORDS_SECOND@)).filter(not_blank())
}

/// The words joined by single spaces.
pub open spec fn join_words(words: Seq<Seq<char>>) -> Seq<char>
    decreases words.len(),
{
    if words.len() == 0 {
        Seq::empty()
    } else if words.len() == 1 {
        words[0]
    } else {
        join_words(words.drop_last()) + seq![' '] + words.last()
    }
}

/// The words of the list at the given positions, in order.
pub open spec fn picked_words(picks: Seq<int>) -> Seq<Seq<char>> {
    Seq::new(picks.len(), |i: int| word_list_spec()[picks[i]])
}

/// The text is `count` words of the list, joined by single spaces.
pub open spec fn is_generated_text(text: Seq<char>, count: nat) -> bool {
    exists|picks: Seq<int>|
        picks.len() == count && (forall|i: int|
            0 <= i < count ==> 0 <= #[trigger] picks[i] < word_list_spec().len()) && text
            == join_words(picked_words(picks))
}

/// The views of a sequence of string slices.
pub open spec fn str_views(v: Seq<&'static str>) -> Seq<Seq<char>> {
    Seq::new(v.len(), |i: int| v[i]@)
}

/// A number drawn at random from `0..bound`.
///
/// Calls `rand::rng().random_range(0..bound)`, which panics on an empty range (hence the
/// `requires`) and otherwise returns a value of the range; which value is not stated.
#[verifier::external_body]
fn random_index(bound: usize) -> (r: usize)
    requires
        bound > 0,
    ensures
        r < bound,
{
    rand::rng().random_range(0..bound)
}

/// Whether `c` is whitespace, as `char::is_whitespace` decides.
pub fn is_white_char(c: char) -> (b: bool)
    ensures
        b == is_white(c),
{
    let x = c as u32;
    (0x09 <= x && x <= 0x0d) || x == 0x20 || x == 0x85 || x == 0xa0 || x == 0x1680 || (0x2000 <= x
        && x <= 0x200a) || x == 0x2028 || x == 0x2029 || x == 0x202f || x == 0x205f || x == 0x3000
}

/// Whether the characters `start..end` of `text` are all whitespace.
fn is_blank_range(text: &str, start: usize, end: usize) -> (b: bool)
    requires
        start <= end <= text@.len(),
    ensures
        b == is_blank(text@.subrange(start as int, end as int)),
{
    let mut k = start;
    while k < end
        invariant
            start <= k <= end <= text@.len(),
            forall|m: int| start <= m < k ==> is_white(#[trigger] text@[m]),
        decreases end - k,
    {
        if !is_white_char(text.get_char(k)) {
            assert(text@.subrange(start as int, end as int)[k - start] == text@[k as int]);
            return false;
        }
        k += 1;
    }
    assert forall|m: int| 0 <= m < end - start implies is_white(
        #[trigger] text@.subrange(start as int, end as int)[m],
    ) by {
        assert(text@.subrange(start as int, end as int)[m] == text@[start + m]);
    }
    true
}

/// Appends the lines of `text` that are not blank to `words`.
fn push_lines(words: &mut Vec<&'static str>, text: &'static str)
    ensures
        str_views(final(words)@) == str_views(old(words)@) + line_pieces(text@).filter(not_blank()),
{
    let ghost base = str_views(words@);
    let n = text.unicode_len();
    let mut start: usize = 0;
    let mut i: usize = 0;
    assert(text@.take(0) =~= Seq::<char>::empty());
    assert(ended_lines(split_on(text@.take(0), '\n')) =~= Seq::<Seq<char>>::empty());
    assert(Seq::<Seq<char>>::empty().filter(not_blank()) =~= Seq::<Seq<char>>::empty()) by {
        reveal(Seq::filter);
    }
    assert(str_views(words@) =~= base + Seq::<Seq<char>>::empty());
    while i < n
        invariant
            n == text@.len(),
            start <= i <= n,
            str_views(words@) == base + ended_lines(split_on(text@.take(i as int), '\n')).filter(not_blank()),
            split_on(text@.take(i as int), '\n').len() >= 1,
            split_on(text@.take(i as int), '\n').last() == text@.subrange(start as int, i as int),
        decreases n - i,
    {
        let c = text.get_char(i);
        let ghost sp = split_on(text@.take(i as int), '\n');
        assert(text@.take(i + 1).drop_last() =~= text@.take(i as int));
        assert(text@.take(i + 1).last() == c);
        let ghost sp2 = split_on(text@.take(i + 1), '\n');
        if c == '\n' {
            assert(sp2 == sp.push(Seq::<char>::empty()));
            let end = if i > start && text.get_char(i - 1) == '\r' {
                i - 1
            } else {
                i
            };
            let ghost line = without_cr(sp.last());
            assert(line =~= text@.subrange(start as int, end as int));
            assert(ended_lines(sp2) =~= ended_lines(sp).push(line));
            proof {
                ended_lines(sp).lemma_filter_push(line, not_blank());
            }
            let ghost before = str_views(words@);
            if !is_blank_range(text, start, end) {
                let w = text.substring_char(start, end);
                words.push(w);
                assert(str_views(words@) =~= before.push(w@));
            }
            start = i + 1;
            assert(sp2.last() =~= text@.subrange(start as int, i + 1));
        } else {
            assert(ended_lines(sp2) =~= ended_lines(sp));
            assert(sp2.last() =~= text@.subrange(start as int, i + 1));
        }
        i += 1;
    }
    assert(text@.take(n as int) =~= text@);
    let ghost sp = split_on(text@, '\n');
    proof {
        ended_lines(sp).lemma_filter_push(sp.last(), not_blank());
    }
    let ghost before = str_views(words@);
    if !is_blank_range(text, start, n) {
        let w = text.substring_char(start, n);
        words.push(w);
        assert(str_views(words@) =~= before.push(w@));
    }
}

/// The lines of `text` that are not blank, as `str::lines` splits them.
pub fn non_blank_lines(text: &'static str) -> (lines: Vec<&'static str>)
    ensures
        str_views(lines@) == line_pieces(text@).filter(not_blank()),
{
    let mut lines: Vec<&'static str> = Vec::new();
    assert(str_views(lines@) =~= Seq::<Seq<char>>::empty());
    push_lines(&mut lines, text);
    assert(str_views(lines@) =~= line_pieces(text@).filter(not_blank()));
    lines
}

/// Every element of `s.filter(p)` is an element of `s`.
proof fn lemma_filter_within<A>(s: Seq<A>, p: spec_fn(A) -> bool, i: int)
    requires
        0 <= i < s.filter(p).len(),
    ensures
        s.contains(s.filter(p)[i]),
{
    assert(s.filter(p).contains(s.filter(p)[i]));
    s.lemma_filter_contains_rev(p, s.filter(p)[i]);
}

/// The word list is not empty and none of its words is longer than `MAX_WORD_LEN`.
pub proof fn lemma_word_list_facts()
    ensures
        word_list_spec().len() > 0,
        forall|i: int| 0 <= i < word_list_spec().len() ==> #[trigger] word_list_spec()[i].len() <= MAX_WORD_LEN,
{
    reveal_strlit("the\nbe\nof\nand\nto\nin\nhe\nhave\nit\nthat\nfor\nthey\nwith\nas\nnot\non\nshe\nat\nby\nthis\nwe\nyou\ndo\nbut\nfrom\nor\nwhich\none\nwould\nall\nwill\nthere\nsay\nwho\nmake\nwhen\ncan\nmore\nif\nno\nman\nout\nother\nso\nwhat\ntime\nup\ngo\nabout\nthan\ninto\ncould\nstate\nonly\nnew\nyear\nsome\ntake\ncome\nthese\nknow\nsee\nuse\nget\nlike\nthen");
    reveal_strlit("first\nany\nwork\nnow\nmay\nsuch\ngive\nover\nthink\nmost\neven\nfind\nday\nalso\nafter\nway\nmany\nmust\nlook\nbefore\ngreat\nback\nthrough\nlong\nwhere\nmuch\nshould\nwell\npeople\ndown\nown\njust\nbecause\ngood\neach\nthose\nfeel\nseem\nhow\nhigh\ntoo\nplace\nlittle\nworld\nvery\nstill\nnation\nhand\nold\nlife\ntell\nwrite\nbecome");
    let a = line_pieces(WORDS_FIRST@);
    let b = line_pieces(WORDS_SECOND@);
    lemma_line_pieces_bounds(WORDS_FIRST@);
    lemma_line_pieces_bounds(WORDS_SECOND@);
    // The first part does not end with a newline, so its last line ends with its last
    // character, which is not whitespace.
    lemma_split_on_bounds(WORDS_FIRST@.drop_last(), '\n');
    let last = split_on(WORDS_FIRST@, '\n').last();
    assert(last.last() == WORDS_FIRST@.last());
    assert(!is_white(last.last()));
    assert(!is_blank(a.last()));
    (a + b).lemma_filter_contains(not_blank(), a.len() - 1);
    assert forall|i: int| 0 <= i < word_list_spec().len() implies #[trigger] word_list_spec()[i].len() <= MAX_WORD_LEN by {
        lemma_filter_within(a + b, not_blank(), i);
        let k = choose|k: int| 0 <= k < (a + b).len() && (a + b)[k] == word_list_spec()[i];
        if k < a.len() {
            assert((a + b)[k] == a[k]);
        } else {
            assert((a + b)[k] == b[k - a.len()]);
        }
    }
}

/// There is at least one line, and none is longer than the text.
pub proof fn lemma_line_pieces_bounds(text: Seq<char>)
    ensures
        line_pieces(text).len() >= 1,
        forall|i: int| 0 <= i < line_pieces(text).len() ==> #[trigger] line_pieces(text)[i].len() <= text.len(),
{
    lemma_split_on_bounds(text, '\n');
}

/// Words of at most `MAX_WORD_LEN` characters joined by spaces take at most
/// `MAX_WORD_LEN + 1` characters each.
pub proof fn lemma_join_words_len(words: Seq<Seq<char>>)
    requires
        forall|i: int| 0 <= i < words.len() ==> #[trigger] words[i].len() <= MAX_WORD_LEN,
    ensures
        join_words(words).len() <= words.len() * (MAX_WORD_LEN + 1),
    decreases words.len(),
{
    if words.len() > 1 {
        assert forall|i: int| 0 <= i < words.drop_last().len() implies #[trigger] words.drop_last()[i].len() <= MAX_WORD_LEN by {
            assert(words.drop_last()[i] == words[i]);
        }
        lemma_join_words_len(words.drop_last());
    }
}

/// A generated text of `count` words is at most `count * (MAX_WORD_LEN + 1)` characters long.
pub proof fn lemma_generated_len(text: Seq<char>, count: nat)
    requires
        is_generated_text(text, count),
    ensures
        text.len() <= count * (MAX_WORD_LEN + 1),
{
    let picks = choose|picks: Seq<int>|
        picks.len() == count && (forall|i: int|
            0 <= i < count ==> 0 <= #[trigger] picks[i] < word_list_spec().len()) && text
            == join_words(picked_words(picks));
    lemma_word_list_facts();
    let ws = picked_words(picks);
    assert forall|i: int| 0 <= i < ws.len() implies #[trigger] ws[i].len() <= MAX_WORD_LEN by {
        assert(0 <= picks[i] < word_list_spec().len());
    }
    lemma_join_words_len(ws);
}

/// The word list, read from its two parts.
fn word_list() -> (words: Vec<&'static str>)
    ensures
        str_views(words@) == word_list_spec(),
        words@.len() > 0,
{
    let mut words: Vec<&'static str> = Vec::new();
    assert(str_views(words@) =~= Seq::<Seq<char>>::empty());
    push_lines(&mut words, WORDS_FIRST);
    push_lines(&mut words, WORDS_SECOND);
    proof {
        let a = line_pieces(WORDS_FIRST@);
        let b = line_pieces(WORDS_SECOND@);
        Seq::filter_distributes_over_add(a, b, not_blank());
        assert(str_views(words@) =~= word_list_spec());
        lemma_word_list_facts();
    }
    words
}

/// A text of `num_words` words drawn at random from the word list, joined by single spaces.
pub fn generate(num_words: usize) -> (text: String)
    ensures
        is_generated_text(text@, num_words as nat),
{
    let words = word_list();
    let mut text = String::new();
    let ghost mut picks: Seq<int> = Seq::empty();
    proof {
        reveal_strlit(" ");
    }
    let mut i: usize = 0;
    assert(text@ =~= join_words(picked_words(picks)));
    while i < num_words
        invariant
            str_views(words@) == word_list_spec(),
            words@.len() > 0,
            " "@ == seq![' '],
            i <= num_words,
            picks.len() == i,
            forall|k: int| 0 <= k < i ==> 0 <= #[trigger] picks[k] < word_list_spec().len(),
            text@ == join_words(picked_words(picks)),
        decreases num_words - i,
    {
        let k = random_index(words.len());
        let ghost before = picked_words(picks);
        proof {
            picks = picks.push(k as int);
            assert(picked_words(picks).drop_last() =~= before);
            assert(picked_words(picks).last() == words@[k as int]@);
        }
        if i > 0 {
            text.append(" ");
        }
        text.append(words[k]);
        i += 1;
    }
    text
}

} // verus!
