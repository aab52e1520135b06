use crate::text::{
    first_index, is_space, lemma_first_index, lines, split, strip_cr, trim, trim_end, trim_start,
    word_len, words,
};
use vstd::prelude::*;

verus! {

/// The pieces of `pieces` in a row, with one `c` between each two.
pub open spec fn join(pieces: Seq<Seq<char>>, c: char) -> Seq<char>
    decreases pieces.len(),
{
    if pieces.len() == 0 {
        Seq::empty()
    } else if pieces.len() == 1 {
        pieces[0]
    } else {
        pieces[0] + seq![c] + join(pieces.drop_first(), c)
    }
}

/// Splitting at `c` gives at least one piece, no piece holds a `c`, and the
/// pieces with a `c` between each two are the text again.
pub proof fn lemma_split(s: Seq<char>, c: char)
    ensures
        split(s, c).len() >= 1,
        forall|i: int, k: int|
            0 <= i < split(s, c).len() && 0 <= k < split(s, c)[i].len() ==> #[trigger] split(
                s,
                c,
            )[i][k] != c,
        join(split(s, c), c) == s,
    decreases s.len(),
{
    let all = split(s, c);
    let at = first_index(s, c);
    lemma_first_index(s, c);
    if at < s.len() {
        let first = s.take(at);
        let rest = split(s.skip(at + 1), c);
        lemma_split(s.skip(at + 1), c);
        assert(all == seq![first] + rest);
        assert(all.drop_first() =~= rest);
        assert(all[0] == first);
        assert(join(all, c) =~= s);
        assert forall|i: int, k: int| 0 <= i < all.len() && 0 <= k < all[i].len() implies #[trigger] all[i][k]
            != c by {
            if i == 0 {
                assert(all[i][k] == s[k]);
            } else {
                assert(all[i] == rest[i - 1]);
            }
        }
    } else {
        assert(all == seq![s]);
        assert(all[0] == s);
    }
}

/// What `trim_start` leaves is the text from some index on; before that
/// index stands white space only, and at it, if anything, none.
pub proof fn lemma_trim_start(s: Seq<char>)
    ensures
        trim_start(s).len() <= s.len(),
        trim_start(s) == s.skip(s.len() - trim_start(s).len()),
        forall|i: int| 0 <= i < s.len() - trim_start(s).len() ==> is_space(#[trigger] s[i]),
        trim_start(s).len() > 0 ==> !is_space(trim_start(s)[0]),
    decreases s.len(),
{
    if s.len() > 0 && is_space(s[0]) {
        let t = s.drop_first();
        lemma_trim_start(t);
        let a = t.len() - trim_start(t).len();
        assert(t.skip(a) =~= s.skip(a + 1));
        assert forall|i: int| 0 <= i < s.len() - trim_start(s).len() implies is_space(
            #[trigger] s[i],
        ) by {
            if i > 0 {
                assert(s[i] == t[i - 1]);
            }
        }
    } else {
        assert(s.skip(0) =~= s);
    }
}

/// What `trim_end` leaves is the text up to some index; from that index on
/// stands white space only, and before it, if anything, none.
pub proof fn lemma_trim_end(s: Seq<char>)
    ensures
        trim_end(s).len() <= s.len(),
        trim_end(s) == s.take(trim_end(s).len() as int),
        forall|i: int| trim_end(s).len() <= i < s.len() ==> is_space(#[trigger] s[i]),
        trim_end(s).len() > 0 ==> !is_space(trim_end(s).last()),
    decreases s.len(),
{
    if s.len() > 0 && is_space(s.last()) {
        let t = s.drop_last();
        lemma_trim_end(t);
        assert(t.take(trim_end(t).len() as int) =~= s.take(trim_end(t).len() as int));
        assert forall|i: int| trim_end(s).len() <= i < s.len() implies is_space(#[trigger] s[i]) by {
            if i < t.len() {
                assert(s[i] == t[i]);
            }
        }
    } else {
        assert(s.take(s.len() as int) =~= s);
    }
}

/// Whether `t` stands in `s` from index `a` on, with white space only
/// before and after it.
pub open spec fn between_spaces(s: Seq<char>, t: Seq<char>, a: int) -> bool {
    &&& 0 <= a <= s.len() - t.len()
    &&& t == s.subrange(a, a + t.len())
    &&& forall|i: int| 0 <= i < a ==> is_space(#[trigger] s[i])
    &&& forall|i: int| a + t.len() <= i < s.len() ==> is_space(#[trigger] s[i])
}

/// What `trim` leaves is a stretch of the text with white space only on
/// either side of it, and none at either of its ends.
pub proof fn lemma_trim(s: Seq<char>)
    ensures
        exists|a: int| #[trigger] between_spaces(s, trim(s), a),
        trim(s).len() > 0 ==> !is_space(trim(s)[0]) && !is_space(trim(s).last()),
{
    let t = trim_start(s);
    let u = trim(s);
    lemma_trim_start(s);
    lemma_trim_end(t);
    let a = s.len() - t.len();
    assert(u =~= s.subrange(a, a + u.len()));
    assert forall|i: int| a + u.len() <= i < s.len() implies is_space(#[trigger] s[i]) by {
        assert(s[i] == t[i - a]);
    }
    if u.len() > 0 {
        assert(u[0] == t[0]);
    }
    assert(between_spaces(s, u, a));
}

/// The characters before the first white space hold no white space, and
/// there are no more of them than the text has.
pub proof fn lemma_word_len(s: Seq<char>)
    ensures
        0 <= word_len(s) <= s.len(),
        forall|k: int| 0 <= k < word_len(s) ==> !is_space(#[trigger] s[k]),
        word_len(s) < s.len() ==> is_space(s[word_len(s)]),
    decreases s.len(),
{
    if s.len() > 0 && !is_space(s[0]) {
        let t = s.drop_first();
        lemma_word_len(t);
        assert forall|k: int| 0 <= k < word_len(s) implies !is_space(#[trigger] s[k]) by {
            if k > 0 {
                assert(s[k] == t[k - 1]);
            }
        }
        if word_len(s) < s.len() {
            assert(s[word_len(s)] == t[word_len(t)]);
        }
    }
}

/// No word is empty, and no word holds white space.
pub proof fn lemma_words(s: Seq<char>)
    ensures
        forall|i: int| 0 <= i < words(s).len() ==> (#[trigger] words(s)[i]).len() > 0,
        forall|i: int, k: int|
            0 <= i < words(s).len() && 0 <= k < words(s)[i].len() ==> !is_space(
                #[trigger] words(s)[i][k],
            ),
    decreases s.len(),
{
    let all = words(s);
    if s.len() == 0 {
        assert(all.len() == 0);
    } else if is_space(s[0]) {
        lemma_words(s.drop_first());
        assert(all == words(s.drop_first()));
    } else {
        let n = word_len(s);
        lemma_word_len(s);
        let first = s.take(n);
        let rest = words(s.skip(n));
        lemma_words(s.skip(n));
        assert(all == seq![first] + rest);
        assert forall|i: int| 0 <= i < all.len() implies (#[trigger] all[i]).len() > 0 by {
            if i == 0 {
                assert(all[i] == first);
            } else {
                assert(all[i] == rest[i - 1]);
            }
        }
        assert forall|i: int, k: int| 0 <= i < all.len() && 0 <= k < all[i].len() implies !is_space(
            #[trigger] all[i][k],
        ) by {
            if i == 0 {
                assert(all[i] == first);
                assert(first[k] == s[k]);
            } else {
                assert(all[i] == rest[i - 1]);
            }
        }
    }
}

/// No line holds a line feed.
pub proof fn lemma_lines(s: Seq<char>)
    ensures
        forall|i: int, k: int|
            0 <= i < lines(s).len() && 0 <= k < lines(s)[i].len() ==> #[trigger] lines(s)[i][k]
                != '\n',
    decreases s.len(),
{
    let all = lines(s);
    if s.len() > 0 {
        let at = first_index(s, '\n');
        lemma_first_index(s, '\n');
        if at < s.len() {
            let first = strip_cr(s.take(at));
            let rest = lines(s.skip(at + 1));
            lemma_lines(s.skip(at + 1));
            assert(all == seq![first] + rest);
            assert forall|i: int, k: int| 0 <= i < all.len() && 0 <= k < all[i].len() implies #[trigger] all[i][k]
                != '\n' by {
                if i == 0 {
                    assert(all[i] == first);
                    assert(first[k] == s[k]);
                } else {
                    assert(all[i] == rest[i - 1]);
                }
            }
        } else {
            assert(all == seq![s]);
            assert(all[0] == s);
        }
    }
}

} // verus!
