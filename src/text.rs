//! Character-level text operations: splitting on a separator and trimming.
use vstd::prelude::*;

verus! {

/// The fields of `s` separated by `sep`, in order. There is always at least
/// one field; an empty text has exactly one, empty, field.
pub open spec fn split_on(s: Seq<char>, sep: char) -> Seq<Seq<char>>
    decreases s.len(),
{
    if s.len() == 0 {
        seq![Seq::empty()]
    } else {
        let prev = split_on(s.drop_last(), sep);
        if s.last() == sep {
            prev.push(Seq::empty())
        } else {
            prev.update(prev.len() - 1, prev.last().push(s.last()))
        }
    }
}

/// The character sequences that a sequence of string slices holds.
pub open spec fn str_views(v: Seq<&str>) -> Seq<Seq<char>> {
    v.map_values(|x: &str| x@)
}

/// Splitting always yields at least one field.
pub proof fn lemma_split_nonempty(s: Seq<char>, sep: char)
    ensures
        split_on(s, sep).len() >= 1,
    decreases s.len(),
{
    if s.len() > 0 {
        lemma_split_nonempty(s.drop_last(), sep);
    }
}

/// Splitting yields at most one field more than there are characters, and no
/// field longer than the text.
pub proof fn lemma_split_bounds(s: Seq<char>, sep: char)
    ensures
        split_on(s, sep).len() <= s.len() + 1,
        forall|i: int| 0 <= i < split_on(s, sep).len() ==> #[trigger] split_on(s, sep)[i].len() <= s.len(),
    decreases s.len(),
{
    if s.len() > 0 {
        lemma_split_bounds(s.drop_last(), sep);
        lemma_split_nonempty(s.drop_last(), sep);
    }
}

/// The characters that `fields` take up when joined, counting one separator
/// after each field.
pub open spec fn joined_len(fields: Seq<Seq<char>>) -> int
    decreases fields.len(),
{
    if fields.len() == 0 {
        0
    } else {
        joined_len(fields.drop_last()) + fields.last().len() + 1
    }
}

/// The fields of a split, joined back with their separators, are as long as
/// the text plus one.
pub proof fn lemma_split_joined_len(s: Seq<char>, sep: char)
    ensures
        joined_len(split_on(s, sep)) == s.len() + 1,
    decreases s.len(),
{
    if s.len() == 0 {
        reveal_with_fuel(joined_len, 2);
        assert(split_on(s, sep).drop_last() =~= Seq::<Seq<char>>::empty());
    } else {
        let prev = split_on(s.drop_last(), sep);
        lemma_split_joined_len(s.drop_last(), sep);
        lemma_split_nonempty(s.drop_last(), sep);
        if s.last() == sep {
            assert(prev.push(Seq::empty()).drop_last() =~= prev);
        } else {
            let next = prev.update(prev.len() - 1, prev.last().push(s.last()));
            assert(next.drop_last() =~= prev.drop_last());
            assert(next.last() == prev.last().push(s.last()));
            assert(joined_len(next) == joined_len(next.drop_last()) + next.last().len() + 1);
            assert(joined_len(prev) == joined_len(prev.drop_last()) + prev.last().len() + 1);
        }
    }
}

/// A prefix of the fields takes up no more than all of them.
pub proof fn lemma_joined_len_take(fields: Seq<Seq<char>>, m: int)
    requires
        0 <= m <= fields.len(),
    ensures
        0 <= joined_len(fields.take(m)) <= joined_len(fields),
    decreases fields.len(),
{
    if m == fields.len() {
        assert(fields.take(m) =~= fields);
        if fields.len() > 0 {
            lemma_joined_len_take(fields.drop_last(), 0);
        }
    } else {
        assert(fields.drop_last().take(m) =~= fields.take(m));
        lemma_joined_len_take(fields.drop_last(), m);
    }
}

/// Splits `s` at every occurrence of `sep`.
pub fn split_char<'a>(s: &'a str, sep: char) -> (r: Vec<&'a str>)
    ensures
        str_views(r@) == split_on(s@, sep),
{
    let n = s.unicode_len();
    let mut fields: Vec<&'a str> = Vec::new();
    let mut start: usize = 0;
    let mut i: usize = 0;
    assert(s@.take(0) =~= Seq::<char>::empty());
    assert(str_views(fields@).push(s@.subrange(0, 0)) =~= split_on(s@.take(0), sep));
    while i < n
        invariant
            n == s@.len(),
            start <= i <= n,
            str_views(fields@).push(s@.subrange(start as int, i as int)) == split_on(
                s@.take(i as int),
                sep,
            ),
        decreases n - i,
    {
        let c = s.get_char(i);
        let ghost prev = split_on(s@.take(i as int), sep);
        let ghost old_views = str_views(fields@);
        proof {
            lemma_split_nonempty(s@.take(i as int), sep);
            assert(s@.take(i + 1).drop_last() =~= s@.take(i as int));
            assert(s@.take(i + 1).last() == c);
        }
        if c == sep {
            let field = s.substring_char(start, i);
            fields.push(field);
            start = i + 1;
            assert(str_views(fields@) =~= old_views.push(field@));
            assert(s@.subrange(start as int, i + 1) =~= Seq::<char>::empty());
            assert(split_on(s@.take(i + 1), sep) == prev.push(Seq::empty()));
        } else {
            assert(split_on(s@.take(i + 1), sep) == prev.update(
                prev.len() - 1,
                prev.last().push(c),
            ));
            assert(s@.subrange(start as int, i + 1) =~= s@.subrange(start as int, i as int).push(
                c,
            ));
        }
        assert(str_views(fields@).push(s@.subrange(start as int, i + 1)) =~= split_on(
            s@.take(i + 1),
            sep,
        ));
        i = i + 1;
    }
    let last = s.substring_char(start, n);
    fields.push(last);
    assert(s@.take(n as int) =~= s@);
    assert(str_views(fields@) =~= split_on(s@, sep));
    fields
}

/// Unicode's White_Space property: the characters that `char::is_whitespace`
/// accepts.
pub open spec fn is_white_space(c: char) -> bool {
    let u = c as u32;
    ||| 0x09 <= u <= 0x0d
    ||| u == 0x20
    ||| u == 0x85
    ||| u == 0xa0
    ||| u == 0x1680
    ||| 0x2000 <= u <= 0x200a
    ||| u == 0x2028
    ||| u == 0x2029
    ||| u == 0x202f
    ||| u == 0x205f
    ||| u == 0x3000
}

/// Decides the White_Space property of `c`.
pub fn white_space(c: char) -> (r: bool)
    ensures
        r == is_white_space(c),
{
    let u = c as u32;
    (0x09 <= u && u <= 0x0d) || u == 0x20 || u == 0x85 || u == 0xa0 || u == 0x1680 || (0x2000
        <= u && u <= 0x200a) || u == 0x2028 || u == 0x2029 || u == 0x202f || u == 0x205f || u
        == 0x3000
}

/// Which characters a trim removes from both ends of a text.
#[derive(Clone, Copy, Debug, PartialEq, Eq)]
pub enum TrimPattern {
    /// Every White_Space character.
    WhiteSpace,
    /// Exactly the given character.
    Char(char),
}

impl TrimPattern {
    pub open spec fn accepts(self, c: char) -> bool {
        match self {
            TrimPattern::WhiteSpace => is_white_space(c),
            TrimPattern::Char(d) => c == d,
        }
    }

    /// Whether a trim with this pattern removes `c`.
    pub fn matches(self, c: char) -> (r: bool)
        ensures
            r == self.accepts(c),
    {
        match self {
            TrimPattern::WhiteSpace => white_space(c),
            TrimPattern::Char(d) => c == d,
        }
    }
}

/// `s` without the longest prefix of characters that `p` accepts.
pub open spec fn strip_start(s: Seq<char>, p: TrimPattern) -> Seq<char>
    decreases s.len(),
{
    if s.len() > 0 && p.accepts(s[0]) {
        strip_start(s.drop_first(), p)
    } else {
        s
    }
}

/// `s` without the longest suffix of characters that `p` accepts.
pub open spec fn strip_end(s: Seq<char>, p: TrimPattern) -> Seq<char>
    decreases s.len(),
{
    if s.len() > 0 && p.accepts(s.last()) {
        strip_end(s.drop_last(), p)
    } else {
        s
    }
}

/// `s` with every leading and trailing character that `p` accepts removed.
pub open spec fn trim_by(s: Seq<char>, p: TrimPattern) -> Seq<char> {
    strip_end(strip_start(s, p), p)
}

/// Removes from both ends of `s` every character that `p` accepts.
pub fn trim<'a>(s: &'a str, p: TrimPattern) -> (r: &'a str)
    ensures
        r@ == trim_by(s@, p),
{
    let n = s.unicode_len();
    let mut i: usize = 0;
    assert(s@.subrange(0, n as int) =~= s@);
    while i < n && p.matches(s.get_char(i))
        invariant
            n == s@.len(),
            i <= n,
            strip_start(s@, p) == strip_start(s@.subrange(i as int, n as int), p),
        decreases n - i,
    {
        assert(s@.subrange(i as int, n as int).drop_first() =~= s@.subrange(i + 1, n as int));
        i = i + 1;
    }
    let ghost rest = s@.subrange(i as int, n as int);
    assert(strip_start(rest, p) == rest);
    let mut j: usize = n;
    while j > i && p.matches(s.get_char(j - 1))
        invariant
            n == s@.len(),
            i <= j <= n,
            strip_end(rest, p) == strip_end(s@.subrange(i as int, j as int), p),
        decreases j,
    {
        assert(s@.subrange(i as int, j as int).drop_last() =~= s@.subrange(i as int, j - 1));
        j = j - 1;
    }
    s.substring_char(i, j)
}

/// Whether `a` and `b` hold the same characters.
pub fn same_text(a: &str, b: &str) -> (r: bool)
    ensures
        r == (a@ == b@),
{
    let n = a.unicode_len();
    if n != b.unicode_len() {
        return false;
    }
    let mut i: usize = 0;
    while i < n
        invariant
            n == a@.len() == b@.len(),
            i <= n,
            forall|j: int| 0 <= j < i ==> a@[j] == b@[j],
        decreases n - i,
    {
        if a.get_char(i) != b.get_char(i) {
            return false;
        }
        i = i + 1;
    }
    assert(a@ =~= b@);
    true
}

} // verus!
