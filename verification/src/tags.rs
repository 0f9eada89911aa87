//! Raw tag entries: one record per symbol definition site, as produced by an
//! external source-indexing tool.

use vstd::prelude::*;

verus! {

/// Source language a definition site was found in.
#[derive(Clone, Copy, PartialEq, Eq, Structural, Debug)]
pub enum Language {
    Elixir,
    Elm,
    Haskell,
    JavaScript,
    Json,
    Markdown,
    Python,
    Ruby,
    Rust,
    TypeScript,
}

/// Kind of symbol a tag entry describes.
#[derive(Clone, Copy, PartialEq, Eq, Structural, Debug)]
pub enum TokenKind {
    Class,
    Constant,
    Function,
    Method,
    Module,
    Property,
    Variable,
}

/// One raw definition entry: a symbol name, the file it was defined in, an
/// optional language, the kind of symbol, and auxiliary key/value fields.
#[derive(Debug)]
pub struct CtagItem {
    pub name: String,
    pub file_path: String,
    pub language: Option<Language>,
    pub kind: TokenKind,
    pub tags: Vec<(String, String)>,
}

/// Mathematical model of a tag entry: every string is seen as its character
/// sequence.
#[verifier::ext_equal]
pub ghost struct CtagItemView {
    pub name: Seq<char>,
    pub file_path: Seq<char>,
    pub language: Option<Language>,
    pub kind: TokenKind,
    pub tags: Seq<(Seq<char>, Seq<char>)>,
}

impl View for CtagItem {
    type V = CtagItemView;

    open spec fn view(&self) -> CtagItemView {
        CtagItemView {
            name: self.name@,
            file_path: self.file_path@,
            language: self.language,
            kind: self.kind,
            tags: self.tags@.map_values(|p: (String, String)| (p.0@, p.1@)),
        }
    }
}

impl Clone for CtagItem {
    fn clone(&self) -> (res: Self)
        ensures
            res@ == self@,
    {
        let mut tags: Vec<(String, String)> = Vec::new();
        let mut i: usize = 0;
        while i < self.tags.len()
            invariant
                i <= self.tags@.len(),
                tags@.len() == i,
                forall|k: int|
                    0 <= k < i ==> tags@[k].0@ == self.tags@[k].0@ && tags@[k].1@
                        == self.tags@[k].1@,
            decreases self.tags@.len() - i,
        {
            let pair = (self.tags[i].0.clone(), self.tags[i].1.clone());
            tags.push(pair);
            i = i + 1;
        }
        let res = CtagItem {
            name: self.name.clone(),
            file_path: self.file_path.clone(),
            language: self.language,
            kind: self.kind,
            tags,
        };
        proof {
            assert(res@.tags =~= self@.tags);
            assert(res@ =~= self@);
        }
        res
    }
}

/// The models of a sequence of tag entries.
pub open spec fn models(entries: Seq<CtagItem>) -> Seq<CtagItemView> {
    entries.map_values(|e: CtagItem| e@)
}

} // verus!
