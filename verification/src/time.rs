//! The clock skill: training corpus, translator and output.
use vstd::prelude::*;
use crate::text::copy_string;
use crate::token::{Token, TokenView, CommandArgs, Block, BlockView, Output, OutputView, tokens_view, plain_token, text_plain};
use crate::compression::sentences_view;

verus! {

broadcast use vstd::string::group_string_axioms;

/// The training corpus: `time`, `current time`, `What time is it now`, with
/// `time` tagged as the keyword.
pub open spec fn spec_time_corpus() -> Seq<Seq<TokenView>> {
    seq![
        seq![plain_token("time"@, "time:keyword"@)],
        seq![plain_token("current"@, ""@), plain_token("time"@, "time:keyword"@)],
        seq![
            plain_token("What"@, ""@),
            plain_token("time"@, "time:keyword"@),
            plain_token("is"@, ""@),
            plain_token("it"@, ""@),
            plain_token("now"@, ""@),
        ],
    ]
}

/// The training corpus of the clock.
pub struct TimeCorpus;

impl TimeCorpus {
    pub fn training_data(&self) -> (r: Vec<Vec<Token>>)
        ensures
            sentences_view(r@) == spec_time_corpus(),
    {
        let mut a: Vec<Token> = Vec::new();
        a.push(Token::tagged("time", "time:keyword"));
        let mut b: Vec<Token> = Vec::new();
        b.push(Token::plain("current"));
        b.push(Token::tagged("time", "time:keyword"));
        let mut c: Vec<Token> = Vec::new();
        c.push(Token::plain("What"));
        c.push(Token::tagged("time", "time:keyword"));
        c.push(Token::plain("is"));
        c.push(Token::plain("it"));
        c.push(Token::plain("now"));
        let ghost (av, bv, cv) = (tokens_view(a@), tokens_view(b@), tokens_view(c@));
        proof {
            assert(av =~= spec_time_corpus()[0]);
            assert(bv =~= spec_time_corpus()[1]);
            assert(cv =~= spec_time_corpus()[2]);
        }
        let mut r: Vec<Vec<Token>> = Vec::new();
        r.push(a);
        r.push(b);
        r.push(c);
        proof {
            assert(sentences_view(r@) =~= spec_time_corpus());
        }
        r
    }
}

/// The translator: a request with a token tagged `time:keyword` whose text
/// is the word "time" becomes the clock's command (without arguments).
/// `is_time[i]` says whether the text of token `i` is that word.
pub open spec fn spec_time_request(ts: Seq<TokenView>, is_time: Seq<bool>) -> bool {
    exists|i: int| 0 <= i < ts.len() && #[trigger] ts[i].tag == "time:keyword"@ && is_time[i]
}

/// Recognizes a request for the time.
pub struct TimeTranslator;

impl TimeTranslator {
    /// `is_time[i]` says whether the text of `args[i]` is the word "time".
    pub fn parse(&self, args: &Vec<Token>, is_time: &Vec<bool>) -> (r: Option<CommandArgs>)
        requires
            is_time@.len() == args@.len(),
        ensures
            r is Some <==> spec_time_request(tokens_view(args@), is_time@),
            r matches Some(c) ==> c.args@.len() == 0,
    {
        let ghost v = tokens_view(args@);
        let mut i: usize = 0;
        while i < args.len()
            invariant
                v == tokens_view(args@),
                is_time@.len() == args@.len(),
                i <= args@.len(),
                forall|k: int| 0 <= k < i ==> !(#[trigger] v[k].tag == "time:keyword"@ && is_time@[k]),
            decreases args.len() - i,
        {
            proof {
                assert(v[i as int] == args@[i as int]@);
            }
            if crate::text::same_text(args[i].tag.as_str(), "time:keyword") && is_time[i] {
                assert(v[i as int].tag == "time:keyword"@);
                return Some(CommandArgs { args: Vec::new() });
            }
            i += 1;
        }
        None
    }
}

/// The clock's output for the current time, written in RFC 3339.
pub open spec fn time_output(now: Seq<char>) -> OutputView {
    OutputView { title: "Time"@, blocks: seq![BlockView::Text(now, text_plain())], docs: Seq::empty() }
}

/// The command's arguments (it takes none).
#[derive(Debug)]
pub struct Args {}

/// Shows the current time.
pub struct TimeCommand;

impl TimeCommand {
    /// `now` is the current local time in RFC 3339.
    pub fn run(&self, _args: &Args, now: &String) -> (r: Output)
        ensures
            r@ == time_output(now@),
    {
        let mut blocks: Vec<Block> = Vec::new();
        blocks.push(Block::Text(copy_string(now), "text/plain".to_string()));
        let o = Output { title: "Time".to_string(), blocks, docs: Vec::new() };
        proof {
            assert(o@.blocks =~= seq![BlockView::Text(now@, text_plain())]);
            assert(o@.docs =~= Seq::<Seq<char>>::empty());
        }
        o
    }
}

/// Every sentence of the training corpus is a request for the time, once
/// the host marks the tokens whose text is the word "time".
pub proof fn law_corpus_sentences_are_requests(j: int, is_time: Seq<bool>)
    requires
        0 <= j < spec_time_corpus().len(),
        is_time.len() == spec_time_corpus()[j].len(),
        forall|i: int| 0 <= i < is_time.len() && #[trigger] spec_time_corpus()[j][i].data == "time"@ ==> is_time[i],
    ensures
        spec_time_request(spec_time_corpus()[j], is_time),
{
    let ts = spec_time_corpus()[j];
    let w: int = if j == 0 { 0 } else { 1 };
    assert(ts[w].data == "time"@);
    assert(ts[w].tag == "time:keyword"@ && is_time[w]);
}

} // verus!
