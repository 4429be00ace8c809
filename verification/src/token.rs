//! Classified display tokens: one token stands for one grapheme cluster (or
//! one escape sequence, placeholder marker or tab skip) together with the
//! number of character cells it occupies.

use vstd::prelude::*;

verus! {

/// Spec-level image of a `TokenKind`: the payload as a character sequence.
pub ghost enum KindModel {
    Text(Seq<char>),
    Escape(Seq<char>),
    Ascii(Seq<char>),
    Misc(Seq<char>),
    Hole(Seq<char>),
    Skip,
    Nop,
}

/// Spec-level image of a `Token`.
pub ghost struct TokenModel {
    pub kind: KindModel,
    pub width: int,
}

/// The classification of one unit of display content.
///
/// `_Text` and `_Nop` are reserved variants that the classifier never
/// produces.
#[derive(Debug, Clone)]
pub enum TokenKind {
    _Text(String),
    Escape(String),
    Ascii(String),
    Misc(String),
    Hole(String),
    Skip,
    _Nop,
}

/// One classified unit of display content with its width in cells.
#[derive(Debug, Clone)]
pub struct Token {
    pub kind: TokenKind,
    pub width: isize,
}

impl View for TokenKind {
    type V = KindModel;

    open spec fn view(&self) -> KindModel {
        match self {
            TokenKind::_Text(s) => KindModel::Text(s@),
            TokenKind::Escape(s) => KindModel::Escape(s@),
            TokenKind::Ascii(s) => KindModel::Ascii(s@),
            TokenKind::Misc(s) => KindModel::Misc(s@),
            TokenKind::Hole(s) => KindModel::Hole(s@),
            TokenKind::Skip => KindModel::Skip,
            TokenKind::_Nop => KindModel::Nop,
        }
    }
}

impl DeepView for TokenKind {
    type V = KindModel;

    open spec fn deep_view(&self) -> KindModel {
        self.view()
    }
}

impl View for Token {
    type V = TokenModel;

    open spec fn view(&self) -> TokenModel {
        TokenModel { kind: self.kind@, width: self.width as int }
    }
}

impl DeepView for Token {
    type V = TokenModel;

    open spec fn deep_view(&self) -> TokenModel {
        self.view()
    }
}

/// Sum of the widths of a token sequence.
pub open spec fn sum_widths(ts: Seq<TokenModel>) -> int
    decreases ts.len(),
{
    if ts.len() == 0 {
        0
    } else {
        sum_widths(ts.drop_last()) + ts.last().width
    }
}

/// A sequence of non-negative widths has a non-negative sum.
pub proof fn lemma_sum_widths_nonneg(ts: Seq<TokenModel>)
    requires
        forall|i: int| 0 <= i < ts.len() ==> 0 <= ts[i].width,
    ensures
        0 <= sum_widths(ts),
    decreases ts.len(),
{
    if ts.len() > 0 {
        lemma_sum_widths_nonneg(ts.drop_last());
    }
}

/// Adding one token adds its width to the sum.
pub proof fn lemma_sum_widths_push(ts: Seq<TokenModel>, t: TokenModel)
    ensures
        sum_widths(ts.push(t)) == sum_widths(ts) + t.width,
{
    assert(ts.push(t).drop_last() =~= ts);
}

} // verus!
