use vstd::prelude::*;

verus! {

/// The segments of `s` split on the single space character, in order.
/// Splitting never yields an empty segment list: empty text gives one
/// empty segment, and every space adds a segment.
pub open spec fn split_on_space(s: Seq<char>) -> Seq<Seq<char>>
    decreases s.len(),
{
    if s.len() == 0 {
        seq![Seq::<char>::empty()]
    } else if s.last() == ' ' {
        split_on_space(s.drop_last()).push(Seq::<char>::empty())
    } else {
        let t = split_on_space(s.drop_last());
        t.update(t.len() - 1, t.last().push(s.last()))
    }
}

/// The non-empty segments: the words of the text.
pub open spec fn words_of(s: Seq<char>) -> Seq<Seq<char>> {
    split_on_space(s).filter(|t: Seq<char>| t.len() > 0)
}

/// All characters of all segments, in order: the letters of the text.
pub open spec fn letters_of(s: Seq<char>) -> Seq<char> {
    split_on_space(s).flatten()
}

pub proof fn lemma_split_nonempty(s: Seq<char>)
    ensures
        split_on_space(s).len() >= 1,
    decreases s.len(),
{
    if s.len() > 0 {
        lemma_split_nonempty(s.drop_last());
    }
}

/// The split segments hold every character of the text except the
/// spaces between them: their total length plus the count of separating
/// spaces gives back the text's length.
pub proof fn lemma_split_letter_count(s: Seq<char>)
    ensures
        letters_of(s).len() + split_on_space(s).len() - 1 == s.len(),
    decreases s.len(),
{
    broadcast use Seq::lemma_flatten_push;

    lemma_split_nonempty(s);
    if s.len() == 0 {
        assert(split_on_space(s) =~= Seq::<Seq<char>>::empty().push(Seq::<char>::empty()));
        assert(Seq::<Seq<char>>::empty().flatten() =~= Seq::<char>::empty());
    } else {
        lemma_split_letter_count(s.drop_last());
        lemma_split_nonempty(s.drop_last());
        let t = split_on_space(s.drop_last());
        if s.last() == ' ' {
        } else {
            assert(t.update(t.len() - 1, t.last().push(s.last())) =~= t.drop_last().push(
                t.last().push(s.last()),
            ));
            assert(t =~= t.drop_last().push(t.last()));
        }
    }
}

/// A prefix of the segments never holds more characters than all of
/// them together.
pub proof fn lemma_flatten_take_le(ts: Seq<Seq<char>>, k: int)
    requires
        0 <= k <= ts.len(),
    ensures
        ts.take(k).flatten().len() <= ts.flatten().len(),
    decreases ts.len() - k,
{
    broadcast use Seq::lemma_flatten_push;

    if k == ts.len() {
        assert(ts.take(k) =~= ts);
    } else {
        assert(ts.take(k + 1) =~= ts.take(k).push(ts[k]));
        lemma_flatten_take_le(ts, k + 1);
    }
}

/// The words of the text, one vector of characters each, in the order
/// splitting yields them, empty segments included.
pub fn split_text(v: &Vec<char>) -> (tokens: Vec<Vec<char>>)
    ensures
        tokens@.len() == split_on_space(v@).len(),
        forall|j: int| 0 <= j < tokens@.len() ==> #[trigger] tokens@[j]@ == split_on_space(v@)[j],
{
    let mut tokens: Vec<Vec<char>> = Vec::new();
    let mut cur: Vec<char> = Vec::new();
    let mut i: usize = 0;
    proof {
        assert(v@.take(0) =~= Seq::<char>::empty());
    }
    while i < v.len()
        invariant
            i <= v@.len(),
            split_on_space(v@.take(i as int)).len() == tokens@.len() + 1,
            forall|j: int|
                0 <= j < tokens@.len() ==> #[trigger] tokens@[j]@ == split_on_space(
                    v@.take(i as int),
                )[j],
            cur@ == split_on_space(v@.take(i as int)).last(),
        decreases v@.len() - i,
    {
        let ghost prefix = v@.take(i as int);
        let ghost prefix1 = v@.take(i as int + 1);
        proof {
            assert(prefix1.drop_last() =~= prefix);
            assert(prefix1.last() == v@[i as int]);
            lemma_split_nonempty(prefix);
        }
        let c = v[i];
        if c == ' ' {
            tokens.push(cur);
            cur = Vec::new();
        } else {
            cur.push(c);
            proof {
                let t = split_on_space(prefix);
                let t1 = split_on_space(prefix1);
                assert(t1 == t.update(t.len() - 1, t.last().push(v@[i as int])));
                assert(forall|j: int| 0 <= j < tokens@.len() ==> t1[j] == t[j]);
            }
        }
        i = i + 1;
    }
    proof {
        assert(v@.take(v@.len() as int) =~= v@);
    }
    tokens.push(cur);
    tokens
}

} // verus!
