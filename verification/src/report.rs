use vstd::prelude::*;

use crate::freq::FrequencyTable;
use crate::freq::lemma_matches_empty;
use crate::freq::lemma_matches_push;
use crate::freq::table_matches;
use crate::normalize::char_to_string;
use crate::normalize::chars_to_string;
use crate::normalize::sanitize_spec;
use crate::normalize::sanitize_text;
use crate::normalize::string_to_chars;
use crate::tokens::lemma_flatten_take_le;
use crate::tokens::lemma_split_letter_count;
use crate::tokens::letters_of;
use crate::tokens::split_on_space;
use crate::tokens::split_text;
use crate::tokens::words_of;

verus! {

/// Every letter of the text as a one-character key, in order.
pub open spec fn letter_keys_of(s: Seq<char>) -> Seq<Seq<char>> {
    letters_of(s).map_values(|c: char| seq![c])
}

proof fn lemma_one_char_key_count(l: Seq<char>, c: char)
    ensures
        l.map_values(|cc: char| seq![cc]).to_multiset().count(seq![c]) == l.to_multiset().count(c),
    decreases l.len(),
{
    broadcast use vstd::multiset::group_multiset_axioms;

    let keys = l.map_values(|cc: char| seq![cc]);
    if l.len() == 0 {
        vstd::seq_lib::to_multiset_contains(l, c);
        vstd::seq_lib::to_multiset_contains(keys, seq![c]);
    } else {
        let front = l.drop_last();
        lemma_one_char_key_count(front, c);
        assert(l =~= front.push(l.last()));
        assert(keys =~= front.map_values(|cc: char| seq![cc]).push(seq![l.last()]));
        vstd::seq_lib::to_multiset_build(front, l.last());
        vstd::seq_lib::to_multiset_build(front.map_values(|cc: char| seq![cc]), seq![l.last()]);
        if l.last() == c {
        } else {
            assert(seq![l.last()] != seq![c]) by {
                assert(seq![l.last()][0] == l.last());
            }
        }
    }
}

/// The letter table's key for a character stands for exactly that
/// character: the count it records equals the character's occurrence
/// count among the text's letters.
pub proof fn lemma_letter_count_is_char_count(s: Seq<char>, c: char)
    ensures
        letter_keys_of(s).to_multiset().count(seq![c]) == letters_of(s).to_multiset().count(c),
{
    lemma_one_char_key_count(letters_of(s), c);
}

/// The letter table records nothing under a key that is not a single
/// character.
pub proof fn lemma_letter_key_shape(s: Seq<char>, k: Seq<char>)
    requires
        k.len() != 1,
    ensures
        letter_keys_of(s).to_multiset().count(k) == 0,
{
    let keys = letter_keys_of(s);
    vstd::seq_lib::to_multiset_contains(keys, k);
    if keys.contains(k) {
        let i = choose|i: int| 0 <= i < keys.len() && keys[i] == k;
        assert(keys[i] == seq![letters_of(s)[i]]);
    }
}

/// The frequency statistics of one text: its canonical form, the
/// summary totals, and one count table for words and one for letters.
pub struct Report {
    pub file: String,
    pub text: String,
    pub top: usize,
    pub total_row_characters: usize,
    pub total_words: usize,
    pub total_letters: usize,
    pub word_counts: FrequencyTable,
    pub letter_counts: FrequencyTable,
}

impl Report {
    /// Build a report over `file_contents`: normalize the text, record
    /// the raw character count, the space-split segment count, and the
    /// letter total (one more than the canonical character count), with
    /// both count tables still empty.
    pub fn new(file: String, top: usize, file_contents: String) -> (r: Report)
        ensures
            r.file@ == file@,
            r.top == top,
            r.total_row_characters == file_contents@.len(),
            r.text@ == sanitize_spec(file_contents@),
            r.total_words == split_on_space(r.text@).len(),
            r.text@.len() < usize::MAX ==> r.total_letters == r.text@.len() + 1,
            r.text@.len() >= usize::MAX ==> r.total_letters == usize::MAX,
            r.word_counts.wf() && r.word_counts.num_keys() == 0 && r.word_counts.total() == 0,
            r.letter_counts.wf() && r.letter_counts.num_keys() == 0 && r.letter_counts.total()
                == 0,
    {
        let raw_chars = string_to_chars(file_contents.as_str());
        let total_row_characters = raw_chars.len();
        let text = sanitize_text(file_contents);
        let text_chars = string_to_chars(text.as_str());
        let tokens = split_text(&text_chars);
        let total_words = tokens.len();
        let total_letters = if text_chars.len() < usize::MAX {
            text_chars.len() + 1
        } else {
            usize::MAX
        };
        Report {
            file,
            text,
            top,
            total_row_characters,
            total_words,
            total_letters,
            word_counts: FrequencyTable::new(),
            letter_counts: FrequencyTable::new(),
        }
    }

    /// Fill both count tables from the canonical text: each non-empty
    /// space-split segment raises its own count by one and the count of
    /// each of its characters by one; empty segments are discarded.
    #[verifier::loop_isolation(false)]
    pub fn generate(&mut self)
        requires
            old(self).word_counts.num_keys() == 0,
            old(self).letter_counts.num_keys() == 0,
        ensures
            final(self).file == old(self).file,
            final(self).text == old(self).text,
            final(self).top == old(self).top,
            final(self).total_row_characters == old(self).total_row_characters,
            final(self).total_words == old(self).total_words,
            final(self).total_letters == old(self).total_letters,
            table_matches(final(self).word_counts, words_of(old(self).text@)),
            table_matches(final(self).letter_counts, letter_keys_of(old(self).text@)),
            final(self).word_counts.num_keys() == words_of(old(self).text@).to_set().len(),
            final(self).letter_counts.num_keys() == letter_keys_of(old(self).text@).to_set().len(),
    {
        let text_chars = string_to_chars(self.text.as_str());
        let total_chars = text_chars.len();
        let tokens = split_text(&text_chars);
        let ghost toks = split_on_space(old(self).text@);
        let ghost nonempty = |t: Seq<char>| t.len() > 0;
        let ghost one_char = |c: char| seq![c];
        proof {
            reveal(Seq::filter);
            assert(toks.take(0) =~= Seq::<Seq<char>>::empty());
            lemma_matches_empty(self.word_counts, toks.take(0).filter(nonempty));
            lemma_matches_empty(self.letter_counts, toks.take(0).flatten().map_values(one_char));
            crate::tokens::lemma_split_nonempty(old(self).text@);
            lemma_split_letter_count(old(self).text@);
        }
        let mut i: usize = 0;
        while i < tokens.len()
            invariant
                i <= tokens@.len(),
                self.file == old(self).file,
                self.text == old(self).text,
                self.top == old(self).top,
                self.total_row_characters == old(self).total_row_characters,
                self.total_words == old(self).total_words,
                self.total_letters == old(self).total_letters,
                table_matches(self.word_counts, toks.take(i as int).filter(nonempty)),
                table_matches(
                    self.letter_counts,
                    toks.take(i as int).flatten().map_values(one_char),
                ),
            decreases tokens@.len() - i,
        {
            let ghost wpre = toks.take(i as int).filter(nonempty);
            let ghost lpre = toks.take(i as int).flatten();
            proof {
                assert(toks.take(i as int + 1) =~= toks.take(i as int).push(toks[i as int]));
                toks.take(i as int).lemma_filter_push(toks[i as int], nonempty);
                toks.take(i as int).lemma_flatten_push(toks[i as int]);
            }
            let tok_len = tokens[i].len();
            if tok_len > 0 {
                let mut j: usize = 0;
                while j < tok_len
                    invariant
                        j <= tok_len,
                        self.file == old(self).file,
                        self.text == old(self).text,
                        self.top == old(self).top,
                        self.total_row_characters == old(self).total_row_characters,
                        self.total_words == old(self).total_words,
                        self.total_letters == old(self).total_letters,
                        table_matches(self.word_counts, wpre),
                        table_matches(
                            self.letter_counts,
                            (lpre + toks[i as int].take(j as int)).map_values(one_char),
                        ),
                    decreases tok_len - j,
                {
                    let c = tokens[i][j];
                    let key = char_to_string(c);
                    let ghost cur = lpre + toks[i as int].take(j as int);
                    proof {
                        lemma_flatten_take_le(toks, i as int + 1);
                        assert(cur.len() < letters_of(old(self).text@).len());
                        assert(self.letter_counts.total() < usize::MAX);
                    }
                    let ghost t0 = self.letter_counts;
                    self.letter_counts.bump(key);
                    proof {
                        lemma_matches_push(t0, self.letter_counts, cur.map_values(one_char), seq![c]);
                        assert(toks[i as int].take(j as int + 1) =~= toks[i as int].take(
                            j as int,
                        ).push(toks[i as int][j as int]));
                        assert((lpre + toks[i as int].take(j as int + 1)).map_values(one_char)
                            =~= cur.map_values(one_char).push(seq![c]));
                    }
                    j = j + 1;
                }
                proof {
                    assert(toks[i as int].take(tok_len as int) =~= toks[i as int]);
                    toks.take(i as int).lemma_filter_len(nonempty);
                    assert(self.word_counts.total() < usize::MAX);
                }
                let wkey = chars_to_string(&tokens[i]);
                let ghost w0 = self.word_counts;
                self.word_counts.bump(wkey);
                proof {
                    lemma_matches_push(w0, self.word_counts, wpre, toks[i as int]);
                }
            } else {
                proof {
                    assert(toks[i as int] =~= Seq::<char>::empty());
                    assert(toks.take(i as int + 1).flatten() =~= lpre);
                }
            }
            i = i + 1;
        }
        proof {
            assert(toks.take(toks.len() as int) =~= toks);
            self.word_counts.keys().unique_seq_to_set();
            self.letter_counts.keys().unique_seq_to_set();
        }
    }
}

} // verus!
