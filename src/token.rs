//! The token that a scan hands out.

use vstd::prelude::*;

verus! {

/// One token: its text, where it lies in the source, and its ordinal position.
#[derive(Clone, Debug)]
pub struct Token {
    /// Byte index of the token's first byte in the source.
    pub offset_from: usize,
    /// Byte index one past the token's last byte in the source.
    pub offset_to: usize,
    /// Ordinal of the token among those handed out, counted from 0.
    pub position: usize,
    /// The text of the token.
    pub text: String,
    /// The number of source tokens this token stands for.
    pub position_length: usize,
}

impl Default for Token {
    /// The token that a scan starts from: empty, at offset 0, with a position
    /// one step before 0, so that the first token comes out at position 0.
    fn default() -> (r: Token)
        ensures
            r.offset_from == 0,
            r.offset_to == 0,
            r.position == usize::MAX,
            r.text@ == Seq::<char>::empty(),
            r.position_length == 1,
    {
        tantivy_default_token()
    }
}

/// Relies on `tantivy::tokenizer::Token::default`, which builds the token with
/// both offsets 0, position `usize::MAX`, an empty text and a position length of 1.
#[verifier::external_body]
fn tantivy_default_token() -> (r: Token)
    ensures
        r.offset_from == 0,
        r.offset_to == 0,
        r.position == usize::MAX,
        r.text@ == Seq::<char>::empty(),
        r.position_length == 1,
{
    let t = tantivy::tokenizer::Token::default();
    Token {
        offset_from: t.offset_from,
        offset_to: t.offset_to,
        position: t.position,
        text: t.text,
        position_length: t.position_length,
    }
}

} // verus!
