//! The values that decoding produces: root records, errors and line kinds.
use vstd::prelude::*;

verus! {

/// One word attributed to one morphological root.
#[derive(Clone, Debug, PartialEq, Eq)]
pub struct Root {
    /// The surface word form.
    pub word: String,
    /// The root attributed to the word.
    pub root: String,
    /// The ordinal of the root among the roots of the word, or -1 where the
    /// format does not track it.
    pub index: isize,
}

/// The mathematical value of a [`Root`].
pub struct RootView {
    pub word: Seq<char>,
    pub root: Seq<char>,
    pub index: int,
}

impl View for Root {
    type V = RootView;

    open spec fn view(&self) -> RootView {
        RootView { word: self.word@, root: self.root@, index: self.index as int }
    }
}

/// Why a line could not be decoded.
#[derive(Clone, Copy, Debug, PartialEq, Eq)]
pub enum DecodeError {
    /// A morpheme line has no tab between the word and its descriptors.
    MissingTab,
    /// The morpheme descriptor at this position (counted from zero) has no
    /// colon between its text and its tag.
    MissingColon { descriptor: usize },
    /// An array line has no pipe between the root and the word list.
    MissingPipe,
    /// The kind of line is neither `morphemes` nor `psql`.
    UnsupportedKind,
}

/// The format of the lines of a corpus.
#[derive(Clone, Copy, Debug, PartialEq, Eq)]
pub enum Kind {
    /// `word<TAB>text:TAG/text:TAG/...`
    Morphemes,
    /// `root | {word,word,...}`
    Psql,
}

/// The records of a vector, as values.
pub open spec fn records_view(v: Seq<Root>) -> Seq<RootView> {
    v.map_values(|r: Root| r@)
}

/// The outcome of a decoding, as a value.
pub open spec fn outcome_view(r: Result<Vec<Root>, DecodeError>) -> Result<
    Seq<RootView>,
    DecodeError,
> {
    match r {
        Ok(v) => Ok(records_view(v@)),
        Err(e) => Err(e),
    }
}

} // verus!
