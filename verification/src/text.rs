use vstd::prelude::*;
use vstd::string::StrSliceExecFns;

verus! {

/// Whether `c` is one of the ten decimal digits.
pub open spec fn is_digit(c: char) -> bool {
    '0' <= c && c <= '9'
}

/// The value of a decimal digit.
pub open spec fn digit_value(c: char) -> nat
    recommends
        is_digit(c),
{
    (c as u32 - '0' as u32) as nat
}

/// Whether `c` is white space, as Unicode's `White_Space` defines it.
pub open spec fn is_space(c: char) -> bool {
    let n = c as u32;
    (0x09 <= n && n <= 0x0d) || n == 0x20 || n == 0x85 || n == 0xa0 || n == 0x1680 || (0x2000 <= n
        && n <= 0x200a) || n == 0x2028 || n == 0x2029 || n == 0x202f || n == 0x205f || n == 0x3000
}

/// Whether every character of `s` is a decimal digit.
pub open spec fn all_digits(s: Seq<char>) -> bool {
    forall|i: int| 0 <= i < s.len() ==> is_digit(#[trigger] s[i])
}

/// The number that the digits of `s` write in base ten (0 for no digits).
pub open spec fn decimal(s: Seq<char>) -> nat
    decreases s.len(),
{
    if s.len() == 0 {
        0
    } else {
        decimal(s.drop_last()) * 10 + digit_value(s.last())
    }
}

/// What `s` denotes as a `u32`: an optional `+`, then one or more decimal
/// digits whose value fits. Anything else denotes nothing.
pub open spec fn unsigned(s: Seq<char>) -> Option<u32> {
    let d = if s.len() > 0 && s[0] == '+' {
        s.skip(1)
    } else {
        s
    };
    if d.len() > 0 && all_digits(d) && decimal(d) <= u32::MAX {
        Some(decimal(d) as u32)
    } else {
        None
    }
}

/// The views of the vectors of `v`, in order.
pub open spec fn views(v: Seq<Vec<char>>) -> Seq<Seq<char>> {
    v.map_values(|x: Vec<char>| x@)
}

/// The texts of the strings of `v`, in order.
pub open spec fn texts(v: Seq<String>) -> Seq<Seq<char>> {
    v.map_values(|x: String| x@)
}

/// The index of the first `c` in `s`, or the length of `s` where there is
/// none.
pub open spec fn first_index(s: Seq<char>, c: char) -> int
    decreases s.len(),
{
    if s.len() == 0 || s[0] == c {
        0
    } else {
        1 + first_index(s.drop_first(), c)
    }
}

/// The two sides of the first `c` in `s`, which itself belongs to neither;
/// nothing where `s` holds no `c`.
pub open spec fn split_once(s: Seq<char>, c: char) -> Option<(Seq<char>, Seq<char>)> {
    let i = first_index(s, c);
    if 0 <= i < s.len() {
        Some((s.take(i), s.skip(i + 1)))
    } else {
        None
    }
}

/// The pieces of `s` between the occurrences of `c`: one more than there are
/// occurrences, empty pieces included.
pub open spec fn split(s: Seq<char>, c: char) -> Seq<Seq<char>>
    decreases s.len(),
{
    let i = first_index(s, c);
    if 0 <= i < s.len() {
        seq![s.take(i)] + split(s.skip(i + 1), c)
    } else {
        seq![s]
    }
}

/// `s` without the white space it begins with.
pub open spec fn trim_start(s: Seq<char>) -> Seq<char>
    decreases s.len(),
{
    if s.len() > 0 && is_space(s[0]) {
        trim_start(s.drop_first())
    } else {
        s
    }
}

/// `s` without the white space it ends with.
pub open spec fn trim_end(s: Seq<char>) -> Seq<char>
    decreases s.len(),
{
    if s.len() > 0 && is_space(s.last()) {
        trim_end(s.drop_last())
    } else {
        s
    }
}

/// `s` without the white space at either end.
pub open spec fn trim(s: Seq<char>) -> Seq<char> {
    trim_end(trim_start(s))
}

/// The number of characters before the first white space of `s`.
pub open spec fn word_len(s: Seq<char>) -> int
    decreases s.len(),
{
    if s.len() == 0 || is_space(s[0]) {
        0
    } else {
        1 + word_len(s.drop_first())
    }
}

/// The maximal runs of characters of `s` that hold no white space, in order.
pub open spec fn words(s: Seq<char>) -> Seq<Seq<char>>
    decreases s.len(),
{
    if s.len() == 0 {
        Seq::empty()
    } else if is_space(s[0]) {
        words(s.drop_first())
    } else {
        let k = word_len(s);
        if 0 < k <= s.len() {
            seq![s.take(k)] + words(s.skip(k))
        } else {
            Seq::empty()
        }
    }
}

/// `s` without a carriage return at its end.
pub open spec fn strip_cr(s: Seq<char>) -> Seq<char> {
    if s.len() > 0 && s.last() == '\r' {
        s.drop_last()
    } else {
        s
    }
}

/// The lines of `s`. A line ends at a line feed, which does not belong to
/// it, nor does a carriage return directly before that line feed. What
/// follows the last line feed is a line unless it is empty.
pub open spec fn lines(s: Seq<char>) -> Seq<Seq<char>>
    decreases s.len(),
{
    if s.len() == 0 {
        Seq::empty()
    } else {
        let i = first_index(s, '\n');
        if 0 <= i < s.len() {
            seq![strip_cr(s.take(i))] + lines(s.skip(i + 1))
        } else {
            seq![s]
        }
    }
}

/// The pieces of `s` that the index pairs of `spans` bound.
pub open spec fn pieces(s: Seq<char>, spans: Seq<(usize, usize)>) -> Seq<Seq<char>> {
    spans.map_values(|p: (usize, usize)| s.subrange(p.0 as int, p.1 as int))
}

/// The numbers that the words of `s` denote, where each of them denotes one.
pub open spec fn numbers(s: Seq<char>) -> Option<Seq<u32>> {
    let w = words(s);
    if forall|i: int| 0 <= i < w.len() ==> (#[trigger] unsigned(w[i])) is Some {
        Some(w.map_values(|x: Seq<char>| unsigned(x).unwrap()))
    } else {
        None
    }
}

/// `first_index` is the least index that holds `c`, or the length.
pub proof fn lemma_first_index(s: Seq<char>, c: char)
    ensures
        0 <= first_index(s, c) <= s.len(),
        first_index(s, c) < s.len() ==> s[first_index(s, c)] == c,
        forall|j: int| 0 <= j < first_index(s, c) ==> s[j] != c,
    decreases s.len(),
{
    if s.len() == 0 || s[0] == c {
    } else {
        let t = s.drop_first();
        lemma_first_index(t, c);
        assert forall|j: int| 0 <= j < first_index(s, c) implies s[j] != c by {
            if j > 0 {
                assert(s[j] == t[j - 1]);
            }
        }
        if first_index(s, c) < s.len() {
            assert(s[first_index(s, c)] == t[first_index(t, c)]);
        }
    }
}

/// An index that holds `c`, or the length, with no `c` before it, is
/// `first_index`.
pub proof fn lemma_first_index_is(s: Seq<char>, c: char, k: int)
    requires
        0 <= k <= s.len(),
        k < s.len() ==> s[k] == c,
        forall|j: int| 0 <= j < k ==> s[j] != c,
    ensures
        first_index(s, c) == k,
{
    lemma_first_index(s, c);
    let f = first_index(s, c);
    if f < k {
        assert(s[f] != c);
    } else if k < f {
        assert(s[k] != c);
    }
}

/// The value of a prefix of `s` is at most the value of `s`.
pub proof fn lemma_decimal_prefix(s: Seq<char>, k: int)
    requires
        0 <= k <= s.len(),
    ensures
        decimal(s.take(k)) <= decimal(s),
    decreases s.len(),
{
    if k == s.len() {
        assert(s.take(k) =~= s);
    } else {
        let t = s.drop_last();
        lemma_decimal_prefix(t, k);
        assert(t.take(k) =~= s.take(k));
    }
}

/// Whether `c` is one of the ten decimal digits.
pub fn digit(c: char) -> (b: bool)
    ensures
        b == is_digit(c),
{
    '0' <= c && c <= '9'
}

/// Whether `c` is white space.
pub fn space(c: char) -> (b: bool)
    ensures
        b == is_space(c),
{
    let n: u32 = c as u32;
    (0x09 <= n && n <= 0x0d) || n == 0x20 || n == 0x85 || n == 0xa0 || n == 0x1680 || (0x2000 <= n
        && n <= 0x200a) || n == 0x2028 || n == 0x2029 || n == 0x202f || n == 0x205f || n == 0x3000
}

/// The characters of `s`, in order, as a vector.
pub fn chars_of(s: &str) -> (v: Vec<char>)
    ensures
        v@ == s@,
{
    let mut v: Vec<char> = Vec::new();
    for c in it: s.chars()
        invariant
            it.seq() == s@,
            v@ == s@.take(it.index() as int),
    {
        v.push(c);
    }
    v
}

/// The characters of `s` from index `lo` up to, not including, `hi`.
pub fn slice_of(s: &Vec<char>, lo: usize, hi: usize) -> (r: Vec<char>)
    requires
        lo <= hi <= s.len(),
    ensures
        r@ == s@.subrange(lo as int, hi as int),
{
    let mut r: Vec<char> = Vec::new();
    let mut i: usize = lo;
    while i < hi
        invariant
            lo <= i <= hi <= s.len(),
            r@ == s@.subrange(lo as int, i as int),
        decreases hi - i,
    {
        r.push(s[i]);
        i += 1;
        assert(r@ =~= s@.subrange(lo as int, i as int));
    }
    r
}

/// The index of the first `c` at or after `from`, or the length of `s`.
pub fn find_from(s: &Vec<char>, from: usize, c: char) -> (r: usize)
    requires
        from <= s.len(),
    ensures
        from <= r <= s.len(),
        r - from == first_index(s@.skip(from as int), c),
{
    let mut i: usize = from;
    while i < s.len() && s[i] != c
        invariant
            from <= i <= s.len(),
            forall|j: int| from <= j < i ==> s@[j] != c,
        decreases s.len() - i,
    {
        i += 1;
    }
    proof {
        lemma_first_index_is(s@.skip(from as int), c, i - from);
    }
    i
}

/// Splits `s` at its first `c`.
pub fn split_once_on(s: &Vec<char>, c: char) -> (r: Option<(Vec<char>, Vec<char>)>)
    ensures
        match r {
            Some((left, right)) => split_once(s@, c) == Some((left@, right@)),
            None => split_once(s@, c) is None,
        },
{
    let i = find_from(s, 0, c);
    assert(s@.skip(0) =~= s@);
    if i < s.len() {
        let left = slice_of(s, 0, i);
        let right = slice_of(s, i + 1, s.len());
        Some((left, right))
    } else {
        None
    }
}

/// Splits `s` at every `c`.
pub fn split_on(s: &Vec<char>, c: char) -> (r: Vec<Vec<char>>)
    ensures
        views(r@) == split(s@, c),
{
    let mut r: Vec<Vec<char>> = Vec::new();
    let mut pos: usize = 0;
    proof {
        assert(s@.skip(0) =~= s@);
        assert(views(r@) + split(s@, c) =~= split(s@, c));
    }
    loop
        invariant_except_break
            views(r@) + split(s@.skip(pos as int), c) == split(s@, c),
        invariant
            pos <= s.len(),
        ensures
            views(r@) == split(s@, c),
        decreases s.len() - pos,
    {
        let i = find_from(s, pos, c);
        let piece = slice_of(s, pos, i);
        let ghost rest = s@.skip(pos as int);
        let ghost before = views(r@);
        r.push(piece);
        proof {
            assert(rest.take(i - pos) =~= s@.subrange(pos as int, i as int));
            assert(views(r@) =~= before.push(piece@));
        }
        if i < s.len() {
            proof {
                assert(rest.skip(i - pos + 1) =~= s@.skip(i + 1));
                assert(views(r@) + split(s@.skip(i + 1), c) =~= before + split(rest, c));
            }
            pos = i + 1;
        } else {
            proof {
                assert(rest.take(i - pos) =~= rest);
                assert(views(r@) =~= before + split(rest, c));
            }
            break ;
        }
    }
    r
}

/// `s` without the white space at either end.
pub fn trimmed(s: &Vec<char>) -> (r: Vec<char>)
    ensures
        r@ == trim(s@),
{
    let mut lo: usize = 0;
    assert(s@.skip(0) =~= s@);
    while lo < s.len() && space(s[lo])
        invariant
            lo <= s.len(),
            trim_start(s@) == trim_start(s@.skip(lo as int)),
        decreases s.len() - lo,
    {
        proof {
            assert(s@.skip(lo as int).drop_first() =~= s@.skip(lo + 1));
        }
        lo += 1;
    }
    assert(s@.skip(lo as int) =~= s@.subrange(lo as int, s.len() as int));
    let mut hi: usize = s.len();
    while hi > lo && space(s[hi - 1])
        invariant
            lo <= hi <= s.len(),
            trim(s@) == trim_end(s@.subrange(lo as int, hi as int)),
        decreases hi - lo,
    {
        proof {
            assert(s@.subrange(lo as int, hi as int).drop_last() =~= s@.subrange(
                lo as int,
                hi - 1,
            ));
        }
        hi -= 1;
    }
    slice_of(s, lo, hi)
}

/// The index of the first white space at or after `from`, or the length.
fn word_end(s: &Vec<char>, from: usize) -> (r: usize)
    requires
        from <= s.len(),
    ensures
        from <= r <= s.len(),
        r - from == word_len(s@.skip(from as int)),
        from < s.len() && !is_space(s@[from as int]) ==> from < r,
    decreases s.len() - from,
{
    if from < s.len() && !space(s[from]) {
        proof {
            assert(s@.skip(from as int).drop_first() =~= s@.skip(from + 1));
        }
        word_end(s, from + 1)
    } else {
        from
    }
}

/// The maximal runs of characters of `s` that hold no white space.
pub fn split_words(s: &Vec<char>) -> (r: Vec<Vec<char>>)
    ensures
        views(r@) == words(s@),
{
    let mut r: Vec<Vec<char>> = Vec::new();
    let mut pos: usize = 0;
    proof {
        assert(s@.skip(0) =~= s@);
        assert(views(r@) + words(s@) =~= words(s@));
    }
    while pos < s.len()
        invariant
            pos <= s.len(),
            views(r@) + words(s@.skip(pos as int)) == words(s@),
        decreases s.len() - pos,
    {
        let ghost rest = s@.skip(pos as int);
        if space(s[pos]) {
            proof {
                assert(rest.drop_first() =~= s@.skip(pos + 1));
            }
            pos += 1;
        } else {
            let end = word_end(s, pos);
            let piece = slice_of(s, pos, end);
            let ghost before = views(r@);
            r.push(piece);
            proof {
                assert(rest.take(end - pos) =~= s@.subrange(pos as int, end as int));
                assert(rest.skip(end - pos) =~= s@.skip(end as int));
                assert(views(r@) =~= before.push(piece@));
                assert(views(r@) + words(s@.skip(end as int)) =~= before + words(rest));
            }
            pos = end;
        }
    }
    proof {
        assert(views(r@) + words(s@.skip(pos as int)) =~= views(r@));
    }
    r
}

/// Where the lines of `s` stand in it: for each line the index of its first
/// character and the index after its last.
pub fn line_spans(s: &Vec<char>) -> (r: Vec<(usize, usize)>)
    ensures
        pieces(s@, r@) == lines(s@),
        forall|i: int| 0 <= i < r.len() ==> (#[trigger] r@[i]).0 <= r@[i].1 <= s.len(),
{
    let mut r: Vec<(usize, usize)> = Vec::new();
    let mut pos: usize = 0;
    proof {
        assert(s@.skip(0) =~= s@);
        assert(pieces(s@, r@) + lines(s@) =~= lines(s@));
    }
    while pos < s.len()
        invariant
            pos <= s.len(),
            pieces(s@, r@) + lines(s@.skip(pos as int)) == lines(s@),
            forall|i: int| 0 <= i < r.len() ==> (#[trigger] r@[i]).0 <= r@[i].1 <= s.len(),
        decreases s.len() - pos,
    {
        let ghost rest = s@.skip(pos as int);
        let ghost before = pieces(s@, r@);
        let i = find_from(s, pos, '\n');
        let end: usize = if i < s.len() && i > pos && s[i - 1] == '\r' {
            (i - 1) as usize
        } else {
            i
        };
        r.push((pos, end));
        let ghost piece = s@.subrange(pos as int, end as int);
        proof {
            assert(pieces(s@, r@) =~= before.push(piece));
            assert(rest.take(i - pos) =~= s@.subrange(pos as int, i as int));
        }
        if i < s.len() {
            proof {
                assert(piece =~= strip_cr(rest.take(i - pos)));
                assert(rest.skip(i - pos + 1) =~= s@.skip(i + 1));
                assert(pieces(s@, r@) + lines(s@.skip(i + 1)) =~= before + lines(rest));
            }
            pos = i + 1;
        } else {
            proof {
                assert(piece =~= rest);
                assert(s@.skip(i as int).len() == 0);
                assert(pieces(s@, r@) + lines(s@.skip(i as int)) =~= before + lines(rest));
            }
            pos = i;
        }
    }
    proof {
        assert(pieces(s@, r@) + lines(s@.skip(pos as int)) =~= pieces(s@, r@));
    }
    r
}

/// The lines of `s`, without their line endings.
pub fn split_lines(s: &Vec<char>) -> (r: Vec<Vec<char>>)
    ensures
        views(r@) == lines(s@),
{
    let spans = line_spans(s);
    let mut r: Vec<Vec<char>> = Vec::new();
    let mut i: usize = 0;
    while i < spans.len()
        invariant
            i <= spans.len(),
            r.len() == i,
            forall|j: int| 0 <= j < spans.len() ==> (#[trigger] spans@[j]).0 <= spans@[j].1 <= s.len(),
            forall|j: int| 0 <= j < i ==> (#[trigger] r@[j])@ == pieces(s@, spans@)[j],
        decreases spans.len() - i,
    {
        let span = spans[i];
        r.push(slice_of(s, span.0, span.1));
        i += 1;
    }
    proof {
        assert(views(r@) =~= pieces(s@, spans@));
    }
    r
}

/// The lines of `text`, each as a string of its own.
pub fn lines_of(text: &str) -> (r: Vec<String>)
    ensures
        texts(r@) == lines(text@),
{
    let chars = chars_of(text);
    let spans = line_spans(&chars);
    let mut r: Vec<String> = Vec::new();
    let mut i: usize = 0;
    while i < spans.len()
        invariant
            i <= spans.len(),
            r.len() == i,
            chars@ == text@,
            forall|j: int|
                0 <= j < spans.len() ==> (#[trigger] spans@[j]).0 <= spans@[j].1 <= chars.len(),
            forall|j: int| 0 <= j < i ==> (#[trigger] r@[j])@ == pieces(chars@, spans@)[j],
        decreases spans.len() - i,
    {
        let span = spans[i];
        r.push(text.substring_char(span.0, span.1).to_owned());
        i += 1;
    }
    proof {
        assert(texts(r@) =~= pieces(chars@, spans@));
    }
    r
}

/// Reads `s` as a `u32` in base ten.
pub fn parse_unsigned(s: &Vec<char>) -> (r: Option<u32>)
    ensures
        r == unsigned(s@),
{
    let start: usize = if s.len() > 0 && s[0] == '+' {
        1
    } else {
        0
    };
    let ghost d = s@.skip(start as int);
    assert(s@.skip(0) =~= s@);
    if start == s.len() {
        return None;
    }
    let mut acc: u32 = 0;
    let mut i: usize = start;
    while i < s.len()
        invariant
            start <= i <= s.len(),
            d == s@.skip(start as int),
            d == if s@.len() > 0 && s@[0] == '+' {
                s@.skip(1)
            } else {
                s@
            },
            all_digits(d.take(i - start)),
            acc == decimal(d.take(i - start)),
        decreases s.len() - i,
    {
        let c = s[i];
        let ghost k = i - start;
        proof {
            assert(d[k] == c);
            assert(d.take(k + 1).drop_last() =~= d.take(k));
            assert(d.take(k + 1).last() == c);
            lemma_decimal_prefix(d, k + 1);
        }
        if !digit(c) {
            return None;
        }
        let v: u32 = c as u32 - '0' as u32;
        let wide: u64 = acc as u64 * 10 + v as u64;
        if wide > u32::MAX as u64 {
            return None;
        }
        acc = wide as u32;
        i += 1;
        proof {
            assert forall|j: int| 0 <= j < d.take(i - start).len() implies is_digit(
                #[trigger] d.take(i - start)[j],
            ) by {
                if j < k {
                    assert(d.take(k)[j] == d.take(i - start)[j]);
                }
            }
        }
    }
    proof {
        assert(d.take(i - start) =~= d);
    }
    Some(acc)
}

/// Reads the words of `s` as numbers.
pub fn parse_numbers(s: &Vec<char>) -> (r: Option<Vec<u32>>)
    ensures
        match r {
            Some(v) => numbers(s@) == Some(v@),
            None => numbers(s@) is None,
        },
{
    let w = split_words(s);
    let mut out: Vec<u32> = Vec::new();
    let mut i: usize = 0;
    while i < w.len()
        invariant
            i <= w.len(),
            views(w@) == words(s@),
            out.len() == i,
            forall|j: int| 0 <= j < i ==> unsigned(#[trigger] words(s@)[j]) == Some(out@[j]),
        decreases w.len() - i,
    {
        assert(views(w@)[i as int] == w@[i as int]@);
        match parse_unsigned(&w[i]) {
            Some(n) => {
                out.push(n);
            },
            None => {
                return None;
            },
        }
        i += 1;
    }
    proof {
        assert(views(w@).len() == w.len());
        assert(out@ =~= words(s@).map_values(|x: Seq<char>| unsigned(x).unwrap()));
    }
    Some(out)
}

} // verus!
