//! Tokens: the flat units read from the text before the tree is built.
use vstd::prelude::*;
use crate::dom::{AttrMap, AttrsModel};

verus! {

/// A tag's name and attributes.
#[derive(Debug, PartialEq)]
pub struct TagMeta {
    pub name: String,
    pub attributes: AttrMap,
}

/// A token of the text.
#[derive(Debug, PartialEq)]
pub enum HTMLToken {
    Text(String),
    OpenTag(TagMeta),
    SelfClose(TagMeta),
    CloseTag(String),
}

/// Model of a token.
pub enum SToken {
    Text(Seq<char>),
    Open(Seq<char>, AttrsModel),
    SelfClose(Seq<char>, AttrsModel),
    Close(Seq<char>),
}

impl View for HTMLToken {
    type V = SToken;

    open spec fn view(&self) -> SToken {
        match self {
            HTMLToken::Text(t) => SToken::Text(t@),
            HTMLToken::OpenTag(m) => SToken::Open(m.name@, m.attributes@),
            HTMLToken::SelfClose(m) => SToken::SelfClose(m.name@, m.attributes@),
            HTMLToken::CloseTag(n) => SToken::Close(n@),
        }
    }
}

/// The models of a sequence of tokens.
pub open spec fn view_tokens(ts: Seq<HTMLToken>) -> Seq<SToken> {
    ts.map_values(|t: HTMLToken| t@)
}

impl TagMeta {
    /// A copy with the same name and attributes.
    pub fn duplicate(&self) -> (r: TagMeta)
        ensures
            r.name@ == self.name@,
            r.attributes@ == self.attributes@,
    {
        TagMeta { name: self.name.clone(), attributes: self.attributes.duplicate() }
    }
}

impl HTMLToken {
    /// A copy with the same model.
    pub fn duplicate(&self) -> (r: HTMLToken)
        ensures
            r@ == self@,
    {
        match self {
            HTMLToken::Text(t) => HTMLToken::Text(t.clone()),
            HTMLToken::OpenTag(m) => HTMLToken::OpenTag(m.duplicate()),
            HTMLToken::SelfClose(m) => HTMLToken::SelfClose(m.duplicate()),
            HTMLToken::CloseTag(n) => HTMLToken::CloseTag(n.clone()),
        }
    }
}

} // verus!
