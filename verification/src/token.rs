//! The values that flow between the skills and their host: tokens of the
//! user's request, the argument lists of commands, and command output.
use vstd::prelude::*;
use crate::text::copy_string;

verus! {

broadcast use vstd::string::group_string_axioms;

/// One token of a request: its text, its media type and its tag.
#[derive(Debug)]
pub struct Token {
    pub data: String,
    pub media_type: String,
    pub tag: String,
}

/// The plain contents of a token.
pub struct TokenView {
    pub data: Seq<char>,
    pub media_type: Seq<char>,
    pub tag: Seq<char>,
}

impl View for Token {
    type V = TokenView;

    open spec fn view(&self) -> TokenView {
        TokenView { data: self.data@, media_type: self.media_type@, tag: self.tag@ }
    }
}

/// The views of a list of tokens.
pub open spec fn tokens_view(ts: Seq<Token>) -> Seq<TokenView> {
    ts.map_values(|t: Token| t@)
}

/// The views of a list of strings.
pub open spec fn strings_view(ss: Seq<String>) -> Seq<Seq<char>> {
    ss.map_values(|s: String| s@)
}

/// The media type of plain text, which tokens carry unless told otherwise.
pub open spec fn text_plain() -> Seq<char> {
    "text/plain"@
}

/// A plain-text token with the given tag (`""` for none).
pub open spec fn plain_token(data: Seq<char>, tag: Seq<char>) -> TokenView {
    TokenView { data, media_type: text_plain(), tag }
}

impl Token {
    /// A token with the given text, media type and tag.
    pub fn new(data: &str, media_type: &str, tag: &str) -> (r: Token)
        ensures
            r@ == (TokenView { data: data@, media_type: media_type@, tag: tag@ }),
    {
        Token { data: data.to_string(), media_type: media_type.to_string(), tag: tag.to_string() }
    }

    /// A plain-text token without a tag.
    pub fn plain(data: &str) -> (r: Token)
        ensures
            r@ == plain_token(data@, ""@),
    {
        Token::new(data, "text/plain", "")
    }

    /// A plain-text token with a tag.
    pub fn tagged(data: &str, tag: &str) -> (r: Token)
        ensures
            r@ == plain_token(data@, tag@),
    {
        Token::new(data, "text/plain", tag)
    }

    /// A copy of the token.
    pub fn copy(&self) -> (r: Token)
        ensures
            r@ == self@,
    {
        Token {
            data: copy_string(&self.data),
            media_type: copy_string(&self.media_type),
            tag: copy_string(&self.tag),
        }
    }
}

/// The arguments that a translator hands to its command.
#[derive(Debug)]
pub struct CommandArgs {
    pub args: Vec<String>,
}

/// One block of command output.
#[derive(Debug)]
pub enum Block {
    /// A remark about the result.
    Comment(String),
    /// A result shown as text of the given media type.
    Text(String, String),
    /// A result that is text data.
    TextData(String),
    /// A result that is binary data.
    Data(Vec<u8>),
}

/// The plain contents of a block.
pub enum BlockView {
    Comment(Seq<char>),
    Text(Seq<char>, Seq<char>),
    TextData(Seq<char>),
    Data(Seq<u8>),
}

impl View for Block {
    type V = BlockView;

    open spec fn view(&self) -> BlockView {
        match self {
            Block::Comment(t) => BlockView::Comment(t@),
            Block::Text(t, m) => BlockView::Text(t@, m@),
            Block::TextData(t) => BlockView::TextData(t@),
            Block::Data(d) => BlockView::Data(d@),
        }
    }
}

/// The views of a list of blocks.
pub open spec fn blocks_view(bs: Seq<Block>) -> Seq<BlockView> {
    bs.map_values(|b: Block| b@)
}

/// What a command shows: a title, blocks of content, and links to its documentation.
#[derive(Debug)]
pub struct Output {
    pub title: String,
    pub blocks: Vec<Block>,
    pub docs: Vec<String>,
}

/// The plain contents of an output.
pub struct OutputView {
    pub title: Seq<char>,
    pub blocks: Seq<BlockView>,
    pub docs: Seq<Seq<char>>,
}

impl View for Output {
    type V = OutputView;

    open spec fn view(&self) -> OutputView {
        OutputView {
            title: self.title@,
            blocks: blocks_view(self.blocks@),
            docs: strings_view(self.docs@),
        }
    }
}

} // verus!
