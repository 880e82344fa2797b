//! The line decoders and the dispatcher between them.
use vstd::prelude::*;

use crate::record::{outcome_view, records_view, DecodeError, Kind, Root, RootView};
use crate::text::{
    joined_len, lemma_joined_len_take, lemma_split_bounds, lemma_split_joined_len,
    lemma_split_nonempty, same_text, split_char, split_on, str_views, trim, trim_by,
    TrimPattern,
};

verus! {

/// The tag that marks a morpheme as a root.
pub open spec fn root_tag() -> Seq<char> {
    seq!['R', 'O', 'O', 'T']
}

/// A morpheme descriptor `text:tag` whose colon is missing.
pub open spec fn lacks_colon(d: Seq<char>) -> bool {
    split_on(d, ':').len() < 2
}

/// A morpheme descriptor whose tag is exactly `ROOT`.
pub open spec fn is_root_descriptor(d: Seq<char>) -> bool {
    !lacks_colon(d) && split_on(d, ':')[1] == root_tag()
}

/// The descriptors tagged `ROOT`, in order.
pub open spec fn root_descriptors(descs: Seq<Seq<char>>) -> Seq<Seq<char>> {
    descs.filter(|d: Seq<char>| is_root_descriptor(d))
}

/// One record per `ROOT` descriptor: its text as the root, numbered from zero
/// among the `ROOT` descriptors.
pub open spec fn morpheme_records(word: Seq<char>, descs: Seq<Seq<char>>) -> Seq<RootView> {
    let roots = root_descriptors(descs);
    Seq::new(
        roots.len(),
        |k: int| RootView { word: word, root: split_on(roots[k], ':')[0], index: k },
    )
}

/// Appending a descriptor appends it to the `ROOT` descriptors if it is one.
proof fn lemma_root_descriptors_push(descs: Seq<Seq<char>>, d: Seq<char>)
    ensures
        root_descriptors(descs.push(d)) == if is_root_descriptor(d) {
            root_descriptors(descs).push(d)
        } else {
            root_descriptors(descs)
        },
{
    reveal(Seq::filter);
    assert(descs.push(d).drop_last() =~= descs);
}

/// A `ROOT` descriptor holds at least its colon and its tag.
proof fn lemma_root_descriptor_len(d: Seq<char>)
    requires
        is_root_descriptor(d),
    ensures
        d.len() >= 5,
{
    reveal_with_fuel(joined_len, 3);
    let pieces = split_on(d, ':');
    assert(pieces[1].len() == 4);
    lemma_split_joined_len(d, ':');
    lemma_joined_len_take(pieces, 2);
    assert(pieces.take(2).drop_last() =~= pieces.take(1));
    assert(pieces.take(1).drop_last() =~= Seq::<Seq<char>>::empty());
}

/// `i` is the position of the first descriptor without a colon.
pub open spec fn is_first_without_colon(descs: Seq<Seq<char>>, i: int) -> bool {
    &&& 0 <= i < descs.len()
    &&& lacks_colon(descs[i])
    &&& forall|j: int| 0 <= j < i ==> !lacks_colon(#[trigger] descs[j])
}

/// The descriptors of a morpheme line: its second tab-separated field split on `/`.
pub open spec fn morpheme_descriptors(line: Seq<char>) -> Seq<Seq<char>> {
    split_on(split_on(line, '\t')[1], '/')
}

/// What decoding `line` in the morpheme format yields.
pub open spec fn morphemes_outcome(line: Seq<char>) -> Result<Seq<RootView>, DecodeError> {
    let fields = split_on(line, '\t');
    if fields.len() < 2 {
        Err(DecodeError::MissingTab)
    } else {
        let descs = morpheme_descriptors(line);
        if exists|i: int| 0 <= i < descs.len() && lacks_colon(#[trigger] descs[i]) {
            let i = choose|i: int| is_first_without_colon(descs, i);
            Err(DecodeError::MissingColon { descriptor: i as usize })
        } else {
            Ok(morpheme_records(fields[0], descs))
        }
    }
}

/// Whether `tag` is exactly `ROOT`.
fn is_root_tag(tag: &str) -> (r: bool)
    ensures
        r == (tag@ == root_tag()),
{
    proof {
        reveal_strlit("ROOT");
        assert("ROOT"@ =~= root_tag());
    }
    same_text(tag, "ROOT")
}

/// Decodes a morpheme line `word<TAB>text:TAG/text:TAG/...` into one record
/// per descriptor tagged `ROOT`, numbered from zero in descriptor order.
pub fn get_roots_from_morpheme_string(string: &str) -> (r: Result<Vec<Root>, DecodeError>)
    ensures
        outcome_view(r) == morphemes_outcome(string@),
{
    // The length of the line bounds the number of records, and so their indexes.
    let len = string.unicode_len();
    let parts = split_char(string, '\t');
    if parts.len() < 2 {
        return Err(DecodeError::MissingTab);
    }
    let word = parts[0];
    let descs = split_char(parts[1], '/');
    let ghost fields = split_on(string@, '\t');
    let ghost dv = split_on(fields[1], '/');
    proof {
        assert(parts@[0]@ == fields[0] && parts@[1]@ == fields[1]);
        lemma_split_bounds(string@, '\t');
        lemma_split_joined_len(fields[1], '/');
        assert(joined_len(dv.take(0)) == 0);
        assert(dv.take(0) =~= Seq::<Seq<char>>::empty());
        assert(records_view(Seq::<Root>::empty()) =~= morpheme_records(word@, dv.take(0)));
    }
    let mut out: Vec<Root> = Vec::new();
    let mut k: usize = 0;
    while k < descs.len()
        invariant
            str_views(descs@) == dv,
            dv == morpheme_descriptors(string@),
            word@ == fields[0],
            fields == split_on(string@, '\t'),
            fields.len() >= 2,
            joined_len(dv) <= string@.len() + 1,
            string@.len() == len,
            k <= descs.len(),
            6 * out.len() <= joined_len(dv.take(k as int)),
            forall|j: int| 0 <= j < k ==> !lacks_colon(#[trigger] dv[j]),
            records_view(out@) == morpheme_records(word@, dv.take(k as int)),
        decreases descs.len() - k,
    {
        let pieces = split_char(descs[k], ':');
        assert(descs@[k as int]@ == dv[k as int]);
        if pieces.len() < 2 {
            proof {
                assert(is_first_without_colon(dv, k as int));
                let i = choose|i: int| is_first_without_colon(dv, i);
                assert(i == k);
            }
            return Err(DecodeError::MissingColon { descriptor: k });
        }
        let ghost before = out@;
        proof {
            let pc = split_on(dv[k as int], ':');
            assert(pieces@[0]@ == pc[0] && pieces@[1]@ == pc[1]);
            assert(dv.take(k + 1).drop_last() =~= dv.take(k as int));
            assert(dv.take(k + 1).last() == dv[k as int]);
            assert(is_root_descriptor(dv[k as int]) == (pieces@[1]@ == root_tag()));
            let prev = root_descriptors(dv.take(k as int));
            assert(dv.take(k + 1) =~= dv.take(k as int).push(dv[k as int]));
            lemma_root_descriptors_push(dv.take(k as int), dv[k as int]);
            assert(root_descriptors(dv.take(k + 1)) == if is_root_descriptor(dv[k as int]) {
                prev.push(dv[k as int])
            } else {
                prev
            });
            assert(records_view(before).len() == before.len());
            lemma_joined_len_take(dv, k as int);
            assert(joined_len(dv.take(k + 1)) == joined_len(dv.take(k as int)) + dv[k as int].len()
                + 1);
        }
        if is_root_tag(pieces[1]) {
            proof {
                lemma_root_descriptor_len(dv[k as int]);
                assert(usize::MAX as int + 1 == 2 * (isize::MAX as int + 1));
            }
            let index = out.len() as isize;
            let rec = Root { word: word.to_owned(), root: pieces[0].to_owned(), index: index };
            assert(rec@ == RootView {
                word: word@,
                root: split_on(dv[k as int], ':')[0],
                index: before.len() as int,
            });
            out.push(rec);
            assert(records_view(out@) =~= records_view(before).push(rec@));
            assert(records_view(out@) =~= morpheme_records(word@, dv.take(k + 1)));
        } else {
            assert(records_view(out@) =~= morpheme_records(word@, dv.take(k + 1)));
        }
        k = k + 1;
    }
    assert(dv.take(dv.len() as int) =~= dv);
    Ok(out)
}

/// The root of an array line: its first `|`-separated field without
/// surrounding white space.
pub open spec fn psql_root(line: Seq<char>) -> Seq<char> {
    trim_by(split_on(line, '|')[0], TrimPattern::WhiteSpace)
}

/// The word list of an array line: its second `|`-separated field without
/// surrounding white space, then without every leading and trailing `{`, then
/// without every leading and trailing `}`.
pub open spec fn psql_word_list(line: Seq<char>) -> Seq<char> {
    let field = trim_by(split_on(line, '|')[1], TrimPattern::WhiteSpace);
    trim_by(trim_by(field, TrimPattern::Char('{')), TrimPattern::Char('}'))
}

/// The words of an array line: its word list split on `,`.
pub open spec fn psql_words(line: Seq<char>) -> Seq<Seq<char>> {
    split_on(psql_word_list(line), ',')
}

/// One record per word, all with the line's root and index -1.
pub open spec fn psql_records(root: Seq<char>, words: Seq<Seq<char>>) -> Seq<RootView> {
    Seq::new(words.len(), |k: int| RootView { word: words[k], root: root, index: -1 })
}

/// What decoding `line` in the array format yields.
pub open spec fn psql_outcome(line: Seq<char>) -> Result<Seq<RootView>, DecodeError> {
    if split_on(line, '|').len() < 2 {
        Err(DecodeError::MissingPipe)
    } else {
        Ok(psql_records(psql_root(line), psql_words(line)))
    }
}

/// Decodes an array line `root | {word,word,...}` into one record per word,
/// each with the line's root and index -1.
pub fn get_roots_from_psql_string(string: &str) -> (r: Result<Vec<Root>, DecodeError>)
    ensures
        outcome_view(r) == psql_outcome(string@),
{
    let parts = split_char(string, '|');
    if parts.len() < 2 {
        return Err(DecodeError::MissingPipe);
    }
    let roots = trim(parts[0], TrimPattern::WhiteSpace);
    let field = trim(parts[1], TrimPattern::WhiteSpace);
    let list = trim(trim(field, TrimPattern::Char('{')), TrimPattern::Char('}'));
    let words = split_char(list, ',');
    let ghost wv = psql_words(string@);
    proof {
        let fields = split_on(string@, '|');
        assert(parts@[0]@ == fields[0] && parts@[1]@ == fields[1]);
        assert(records_view(Seq::<Root>::empty()) =~= psql_records(roots@, wv.take(0)));
    }
    let mut out: Vec<Root> = Vec::new();
    let mut k: usize = 0;
    while k < words.len()
        invariant
            str_views(words@) == wv,
            roots@ == psql_root(string@),
            k <= words.len(),
            records_view(out@) == psql_records(roots@, wv.take(k as int)),
        decreases words.len() - k,
    {
        let ghost before = out@;
        let rec = Root { word: words[k].to_owned(), root: roots.to_owned(), index: -1 };
        assert(rec@ == RootView { word: wv[k as int], root: roots@, index: -1 });
        out.push(rec);
        assert(records_view(out@) =~= records_view(before).push(rec@));
        assert(records_view(out@) =~= psql_records(roots@, wv.take(k + 1)));
        k = k + 1;
    }
    assert(wv.take(wv.len() as int) =~= wv);
    Ok(out)
}

/// The name of the morpheme format.
pub open spec fn morphemes_name() -> Seq<char> {
    seq!['m', 'o', 'r', 'p', 'h', 'e', 'm', 'e', 's']
}

/// The name of the array format.
pub open spec fn psql_name() -> Seq<char> {
    seq!['p', 's', 'q', 'l']
}

/// The kind that `name` names, if any.
pub open spec fn kind_named(name: Seq<char>) -> Option<Kind> {
    if name == morphemes_name() {
        Some(Kind::Morphemes)
    } else if name == psql_name() {
        Some(Kind::Psql)
    } else {
        None
    }
}

impl Kind {
    /// The kind named `morphemes` or `psql`; `None` for any other name.
    pub fn from_name(name: &str) -> (r: Option<Kind>)
        ensures
            r == kind_named(name@),
    {
        proof {
            reveal_strlit("morphemes");
            reveal_strlit("psql");
            assert("morphemes"@ =~= morphemes_name());
            assert("psql"@ =~= psql_name());
        }
        if same_text(name, "morphemes") {
            Some(Kind::Morphemes)
        } else if same_text(name, "psql") {
            Some(Kind::Psql)
        } else {
            None
        }
    }
}

/// What decoding `line` as a line of kind `kind` yields.
pub open spec fn decode_outcome(line: Seq<char>, kind: Kind) -> Result<Seq<RootView>, DecodeError> {
    match kind {
        Kind::Morphemes => morphemes_outcome(line),
        Kind::Psql => psql_outcome(line),
    }
}

/// What decoding `line` as a line of the kind named `kind` yields: an
/// unsupported kind fails before the line is read.
pub open spec fn named_outcome(line: Seq<char>, kind: Seq<char>) -> Result<
    Seq<RootView>,
    DecodeError,
> {
    match kind_named(kind) {
        Some(k) => decode_outcome(line, k),
        None => Err(DecodeError::UnsupportedKind),
    }
}

/// Decodes `line` with the decoder of `kind`.
pub fn decode(line: &str, kind: Kind) -> (r: Result<Vec<Root>, DecodeError>)
    ensures
        outcome_view(r) == decode_outcome(line@, kind),
{
    match kind {
        Kind::Morphemes => get_roots_from_morpheme_string(line),
        Kind::Psql => get_roots_from_psql_string(line),
    }
}

/// Decodes `string` with the decoder that `kind` names (`morphemes` or
/// `psql`); any other name is `UnsupportedKind`, whatever the line holds.
pub fn get_roots_from_string(string: &str, kind: &str) -> (r: Result<Vec<Root>, DecodeError>)
    ensures
        outcome_view(r) == named_outcome(string@, kind@),
        kind_named(kind@) is None ==> r == Err::<Vec<Root>, DecodeError>(
            DecodeError::UnsupportedKind,
        ),
{
    match Kind::from_name(kind) {
        Some(k) => decode(string, k),
        None => Err(DecodeError::UnsupportedKind),
    }
}

/// A decoded morpheme line has exactly one record per descriptor whose tag is
/// `ROOT`. Record `i` carries the text of the `i`-th such descriptor and the
/// index `i`, so the indexes are distinct, lie in `[0, n)` for `n` records,
/// and rise in descriptor order.
pub proof fn lemma_morpheme_records_follow_root_tags(line: Seq<char>)
    requires
        morphemes_outcome(line) is Ok,
    ensures
        ({
            let recs = morphemes_outcome(line)->Ok_0;
            let roots = root_descriptors(morpheme_descriptors(line));
            &&& recs.len() == roots.len()
            &&& forall|i: int| 0 <= i < recs.len() ==> 0 <= #[trigger] recs[i].index < recs.len()
            &&& forall|i: int, j: int|
                0 <= i < j < recs.len() ==> #[trigger] recs[i].index < #[trigger] recs[j].index
            &&& forall|i: int|
                0 <= i < recs.len() ==> #[trigger] recs[i].root == split_on(roots[i], ':')[0]
            &&& forall|i: int|
                0 <= i < recs.len() ==> #[trigger] recs[i].word == split_on(line, '\t')[0]
        }),
{
}

/// A decoded array line has exactly one record per `,`-separated word of its
/// word list (one, with an empty word, where the list is empty); every record
/// has the line's root and index -1.
pub proof fn lemma_psql_records_share_root(line: Seq<char>)
    requires
        psql_outcome(line) is Ok,
    ensures
        ({
            let recs = psql_outcome(line)->Ok_0;
            &&& recs.len() == split_on(psql_word_list(line), ',').len()
            &&& recs.len() >= 1
            &&& psql_word_list(line).len() == 0 ==> recs.len() == 1
            &&& forall|i: int|
                0 <= i < recs.len() ==> #[trigger] recs[i].root == psql_root(line) && recs[i].index
                    == -1
        }),
{
    lemma_split_nonempty(psql_word_list(line), ',');
}

/// Decoding depends on the line and the kind alone: two decodings of the same
/// line with the same kind yield the same records, or the same error.
pub proof fn lemma_decoding_is_deterministic(
    line: Seq<char>,
    kind: Seq<char>,
    first: Result<Vec<Root>, DecodeError>,
    second: Result<Vec<Root>, DecodeError>,
)
    requires
        outcome_view(first) == named_outcome(line, kind),
        outcome_view(second) == named_outcome(line, kind),
    ensures
        outcome_view(first) == outcome_view(second),
{
}

} // verus!
