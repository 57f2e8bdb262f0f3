//! The calculator's preprocessor, translator and command.
use vstd::prelude::*;
use crate::text::{chars_of, push_str, copy_string};
use crate::token::{Token, TokenView, CommandArgs, Block, BlockView, Output, tokens_view, strings_view, text_plain};
use crate::media::{media_type_eq, same_media_type};
use crate::decimal::decimal_text;
use super::grammar::{Tree, derives_calculation, law_calculation_derives, law_derivation_is_parsed, spec_calculation, spec_single_num, parse_calculation, is_single_num, lemma_calculation_wf};
use super::eval::{CalcError, spec_eval, eval, calc_error_message, tree_readable, numbers_readable};

verus! {

broadcast use vstd::string::group_string_axioms;

/// The media type of a token that holds a calculation.
pub open spec fn calc_media_type() -> Seq<char> {
    "text/vnd.yozuk.calc"@
}

/// Whether the calculation media type compares equal to itself under
/// `mediatype`'s parsing and `==`.
pub fn calc_media_type_is_itself() -> (r: bool)
    ensures
        r == media_type_eq(calc_media_type(), calc_media_type()),
{
    same_media_type("text/vnd.yozuk.calc", "text/vnd.yozuk.calc")
}

/// The texts of the tokens, run together.
pub open spec fn join_texts(ts: Seq<TokenView>) -> Seq<char>
    decreases ts.len(),
{
    if ts.len() == 0 {
        Seq::empty()
    } else {
        join_texts(ts.drop_last()) + ts.last().data
    }
}

/// Whether the tokens together form a calculation that the preprocessor
/// merges: a calculation of two or more tokens, or a single token that is
/// a calculation but not just a number.
pub open spec fn is_expression(ts: Seq<TokenView>) -> bool {
    let e = join_texts(ts);
    spec_calculation(e) is Some && (ts.len() >= 2 || !spec_single_num(e))
}

/// The largest `l` in `1..=n` for which the first `l` tokens form an
/// expression, or 0 when there is none.
pub open spec fn longest_expression(ts: Seq<TokenView>, n: int) -> int
    decreases n,
{
    if n <= 0 {
        0
    } else if is_expression(ts.take(n)) {
        n
    } else {
        longest_expression(ts, n - 1)
    }
}

/// The token that carries a merged calculation.
pub open spec fn calc_token(text: Seq<char>) -> TokenView {
    TokenView { data: text, media_type: calc_media_type(), tag: Seq::empty() }
}

/// The preprocessor: from the front, the longest run of tokens that forms an
/// expression is merged into one calculation token, and the token after it
/// is passed on unchanged; where no run starts, the front token is passed on.
pub open spec fn spec_preprocess(ts: Seq<TokenView>) -> Seq<TokenView>
    decreases ts.len(),
{
    if ts.len() == 0 {
        Seq::empty()
    } else {
        let l = longest_expression(ts, ts.len() as int);
        if l <= 0 {
            seq![ts[0]] + spec_preprocess(ts.skip(1))
        } else if l >= ts.len() {
            seq![calc_token(join_texts(ts))]
        } else {
            seq![calc_token(join_texts(ts.take(l))), ts[l]] + spec_preprocess(ts.skip(l + 1))
        }
    }
}

/// The translator: a request of exactly one token, a calculation token,
/// becomes a command whose one argument is the calculation.
pub open spec fn spec_translate(ts: Seq<TokenView>) -> Option<Seq<Seq<char>>> {
    if exists|i: int| 0 <= i < ts.len() && !media_type_eq(#[trigger] ts[i].media_type, calc_media_type()) {
        None
    } else if ts.len() == 1 {
        Some(seq![ts[0].data])
    } else {
        None
    }
}

proof fn lemma_longest_expression(ts: Seq<TokenView>, n: int)
    ensures
        0 <= longest_expression(ts, n) <= (if n < 0 { 0 } else { n }),
        longest_expression(ts, n) > 0 ==> is_expression(ts.take(longest_expression(ts, n))),
    decreases n,
{
    if n > 0 && !is_expression(ts.take(n)) {
        lemma_longest_expression(ts, n - 1);
    }
}

/// The text of `ts[a..b]` run together.
fn join_range(ts: &Vec<Token>, a: usize, b: usize) -> (r: String)
    requires
        a <= b <= ts@.len(),
    ensures
        r@ == join_texts(tokens_view(ts@).subrange(a as int, b as int)),
{
    let mut r = String::new();
    let mut i = a;
    while i < b
        invariant
            a <= i <= b <= ts@.len(),
            r@ == join_texts(tokens_view(ts@).subrange(a as int, i as int)),
        decreases b - i,
    {
        proof {
            let v = tokens_view(ts@);
            assert(v.subrange(a as int, i + 1).drop_last() =~= v.subrange(a as int, i as int));
        }
        push_str(&mut r, ts[i].data.as_str());
        i += 1;
    }
    r
}

/// Whether a text forms a merged expression for a run of `len` tokens.
fn expression_check(e: &String, len: usize) -> (r: bool)
    ensures
        r == (spec_calculation(e@) is Some && (len >= 2 || !spec_single_num(e@))),
{
    let cs = chars_of(e.as_str());
    match parse_calculation(&cs) {
        Some(_) => len >= 2 || !is_single_num(&cs),
        None => false,
    }
}

/// The calculation grammar, as a parser.
pub struct CalcParser;

impl CalcParser {
    /// The tree of `text` when the whole text is a calculation; the tree is
    /// a derivation of the whole text in the grammar.
    pub fn parse(text: &str) -> (r: Option<Tree>)
        ensures
            r == spec_calculation(text@),
            r matches Some(t) ==> derives_calculation(text@, t),
            forall|t: Tree| #[trigger] derives_calculation(text@, t) ==> r == Some(t),
    {
        let cs = chars_of(text);
        proof {
            law_calculation_derives(cs@);
            assert forall|t: Tree| #[trigger] derives_calculation(cs@, t) implies spec_calculation(cs@) == Some(t) by {
                law_derivation_is_parsed(cs@, t);
            }
        }
        parse_calculation(&cs)
    }

    /// Whether the whole text is one number.
    pub fn single_num(text: &str) -> (r: bool)
        ensures
            r == spec_single_num(text@),
    {
        let cs = chars_of(text);
        is_single_num(&cs)
    }
}

/// Merges runs of tokens that together form a calculation.
pub struct CalcPreprocessor;

impl CalcPreprocessor {
    pub fn preprocess(&self, input: Vec<Token>) -> (r: Vec<Token>)
        ensures
            tokens_view(r@) == spec_preprocess(tokens_view(input@)),
    {
        let ghost v = tokens_view(input@);
        let n = input.len();
        let mut out: Vec<Token> = Vec::new();
        let mut start: usize = 0;
        proof {
            assert(v.skip(0) =~= v);
        }
        while start < n
            invariant
                n == input@.len(),
                v == tokens_view(input@),
                start <= n,
                tokens_view(out@) + spec_preprocess(v.skip(start as int)) == spec_preprocess(v),
            decreases n - start,
        {
            let ghost rest = v.skip(start as int);
            let mut l: usize = n - start;
            let mut found = false;
            let mut merged = String::new();
            while l > 0
                invariant_except_break
                    start < n == input@.len(),
                    v == tokens_view(input@),
                    rest == v.skip(start as int),
                    l <= n - start,
                    !found,
                    longest_expression(rest, (n - start) as int) == longest_expression(rest, l as int),
                ensures
                    start < n == input@.len(),
                    v == tokens_view(input@),
                    rest == v.skip(start as int),
                    l <= n - start,
                    found ==> l > 0 && longest_expression(rest, (n - start) as int) == l
                        && merged@ == join_texts(rest.take(l as int)),
                    !found ==> longest_expression(rest, (n - start) as int) == 0,
                decreases l,
            {
                let e = join_range(&input, start, start + l);
                proof {
                    assert(v.subrange(start as int, start + l) =~= rest.take(l as int));
                    assert(rest.take(l as int).len() == l);
                }
                let ok = expression_check(&e, l);
                assert(ok == is_expression(rest.take(l as int)));
                if ok {
                    assert(longest_expression(rest, l as int) == l);
                    assert(e@ == join_texts(rest.take(l as int)));
                    found = true;
                    merged = e;
                    break;
                }
                l -= 1;
            }
            proof {
                lemma_longest_expression(rest, rest.len() as int);
                assert(rest.len() == n - start);
            }
            if found {
                out.push(Token { data: merged, media_type: "text/vnd.yozuk.calc".to_string(), tag: String::new() });
                let ghost before = start;
                start = start + l;
                if start < n {
                    out.push(input[start].copy());
                    start = start + 1;
                    proof {
                        assert(rest.skip(l + 1) =~= v.skip(start as int));
                        assert(rest[l as int] == v[before + l]);
                    }
                } else {
                    proof {
                        assert(rest.take(l as int) =~= rest);
                        assert(v.skip(start as int) =~= Seq::<TokenView>::empty());
                    }
                }
            } else {
                out.push(input[start].copy());
                start = start + 1;
                proof {
                    assert(rest.skip(1) =~= v.skip(start as int));
                }
            }
        }
        proof {
            assert(v.skip(n as int) =~= Seq::<TokenView>::empty());
            assert(tokens_view(out@) + Seq::<TokenView>::empty() =~= tokens_view(out@));
        }
        out
    }
}

/// Turns a single calculation token into the calculator's command.
pub struct CalcTranslator;

impl CalcTranslator {
    pub fn parse(&self, args: &Vec<Token>) -> (r: Option<CommandArgs>)
        ensures
            r is None ==> spec_translate(tokens_view(args@)) is None,
            r matches Some(c) ==> spec_translate(tokens_view(args@)) == Some(strings_view(c.args@)),
    {
        let ghost v = tokens_view(args@);
        let mut i: usize = 0;
        while i < args.len()
            invariant
                v == tokens_view(args@),
                i <= args@.len(),
                forall|k: int| 0 <= k < i ==> media_type_eq(#[trigger] v[k].media_type, calc_media_type()),
            decreases args.len() - i,
        {
            if !same_media_type(args[i].media_type.as_str(), "text/vnd.yozuk.calc") {
                assert(!media_type_eq(v[i as int].media_type, calc_media_type()));
                return None;
            }
            i += 1;
        }
        if args.len() == 1 {
            let mut out: Vec<String> = Vec::new();
            out.push(copy_string(&args[0].data));
            proof {
                assert(strings_view(out@) =~= seq![v[0].data]);
            }
            Some(CommandArgs { args: out })
        } else {
            None
        }
    }
}

/// The output of a calculation that gave a value.
pub open spec fn calc_output(v: (int, int)) -> crate::token::OutputView {
    crate::token::OutputView {
        title: "Calculator"@,
        blocks: seq![BlockView::Text(decimal_text(v), text_plain())],
        docs: Seq::empty(),
    }
}

/// The output of a calculation that ended in an error.
pub open spec fn calc_error_output(e: CalcError) -> crate::token::OutputView {
    crate::token::OutputView {
        title: "Calculator"@,
        blocks: seq![BlockView::Comment(calc_error_message(e))],
        docs: Seq::empty(),
    }
}

/// What the command shows for the calculation `e`: `None` where an
/// operation overflows the scale arithmetic of `BigDecimal`.
pub open spec fn spec_run(e: Seq<char>) -> Option<Result<crate::token::OutputView, crate::token::OutputView>> {
    match spec_eval(e, spec_calculation(e)->0) {
        Some(Ok(v)) => Some(Ok(calc_output(v))),
        Some(Err(err)) => Some(Err(calc_error_output(err))),
        None => None,
    }
}

/// The view of a command result.
pub open spec fn run_view(r: Option<Result<Output, Output>>) -> Option<Result<crate::token::OutputView, crate::token::OutputView>> {
    match r {
        Some(Ok(o)) => Some(Ok(o@)),
        Some(Err(o)) => Some(Err(o@)),
        None => None,
    }
}

/// Evaluates the calculation handed over by the translator.
pub struct CalcCommand;

impl CalcCommand {
    /// Runs the command; `args.args[1]` is the calculation (the first
    /// argument names the command).
    pub fn run(&self, args: &CommandArgs) -> (r: Option<Result<Output, Output>>)
        requires
            args.args@.len() >= 2,
            spec_calculation(args.args@[1]@) is Some,
            tree_readable(args.args@[1]@, spec_calculation(args.args@[1]@)->0),
        ensures
            run_view(r) == spec_run(args.args@[1]@),
    {
        let cs = chars_of(args.args[1].as_str());
        proof {
            lemma_calculation_wf(cs@);
        }
        let tree = match parse_calculation(&cs) {
            Some(t) => t,
            None => return None,
        };
        match eval(&cs, &tree) {
            Some(Ok(v)) => {
                let mut blocks: Vec<Block> = Vec::new();
                blocks.push(Block::Text(v.to_text(), "text/plain".to_string()));
                let o = Output { title: "Calculator".to_string(), blocks, docs: Vec::new() };
                proof {
                    assert(o@.blocks =~= seq![BlockView::Text(decimal_text(v@), text_plain())]);
                    assert(o@.docs =~= Seq::<Seq<char>>::empty());
                }
                Some(Ok(o))
            },
            Some(Err(err)) => {
                let mut blocks: Vec<Block> = Vec::new();
                blocks.push(Block::Comment(err.message()));
                let o = Output { title: "Calculator".to_string(), blocks, docs: Vec::new() };
                proof {
                    assert(o@.blocks =~= seq![BlockView::Comment(calc_error_message(err))]);
                    assert(o@.docs =~= Seq::<Seq<char>>::empty());
                }
                Some(Err(o))
            },
            None => None,
        }
    }
}

impl CalcCommand {
    /// Whether `BigDecimal::from_str` reads every number of the calculation
    /// in `args.args[1]`, which `run` asks of its input.
    pub fn numbers_readable(&self, args: &CommandArgs) -> (r: bool)
        requires
            args.args@.len() >= 2,
            spec_calculation(args.args@[1]@) is Some,
        ensures
            r == tree_readable(args.args@[1]@, spec_calculation(args.args@[1]@)->0),
    {
        let cs = chars_of(args.args[1].as_str());
        proof {
            lemma_calculation_wf(cs@);
        }
        match parse_calculation(&cs) {
            Some(t) => numbers_readable(&cs, &t),
            None => false,
        }
    }
}

// ---------------------------------------------------------------------------
// Laws

proof fn lemma_join_concat(a: Seq<TokenView>, b: Seq<TokenView>)
    ensures
        join_texts(a + b) == join_texts(a) + join_texts(b),
    decreases b.len(),
{
    if b.len() == 0 {
        assert(a + b =~= a);
        assert(join_texts(b) =~= Seq::<char>::empty());
        assert(join_texts(a) + Seq::<char>::empty() =~= join_texts(a));
    } else {
        lemma_join_concat(a, b.drop_last());
        assert((a + b).drop_last() =~= a + b.drop_last());
        assert((a + b).last() == b.last());
        assert(join_texts(a) + join_texts(b.drop_last()) + b.last().data =~= join_texts(a) + (join_texts(b.drop_last()) + b.last().data));
    }
}

proof fn lemma_join_single(t: TokenView)
    ensures
        join_texts(seq![t]) == t.data,
{
    assert(seq![t].drop_last() =~= Seq::<TokenView>::empty());
    assert(join_texts(Seq::<TokenView>::empty()) =~= Seq::<char>::empty());
    assert(Seq::<char>::empty() + t.data =~= t.data);
}

proof fn lemma_keeps_text_pass(ts: Seq<TokenView>)
    requires
        ts.len() > 0,
        join_texts(spec_preprocess(ts.skip(1))) == join_texts(ts.skip(1)),
        spec_preprocess(ts) == seq![ts[0]] + spec_preprocess(ts.skip(1)),
    ensures
        join_texts(spec_preprocess(ts)) == join_texts(ts),
{
    lemma_join_concat(seq![ts[0]], spec_preprocess(ts.skip(1)));
    lemma_join_concat(seq![ts[0]], ts.skip(1));
    assert(seq![ts[0]] + ts.skip(1) =~= ts);
}

proof fn lemma_keeps_text_merge(ts: Seq<TokenView>, l: int)
    requires
        0 < l < ts.len(),
        join_texts(spec_preprocess(ts.skip(l + 1))) == join_texts(ts.skip(l + 1)),
        spec_preprocess(ts) == seq![calc_token(join_texts(ts.take(l))), ts[l]] + spec_preprocess(ts.skip(l + 1)),
    ensures
        join_texts(spec_preprocess(ts)) == join_texts(ts),
{
    let c = calc_token(join_texts(ts.take(l)));
    let head = seq![c, ts[l]];
    lemma_join_concat(head, spec_preprocess(ts.skip(l + 1)));
    lemma_join_concat(seq![c], seq![ts[l]]);
    assert(seq![c] + seq![ts[l]] =~= head);
    lemma_join_single(c);
    lemma_join_single(ts[l]);
    lemma_join_concat(ts.take(l), seq![ts[l]]);
    lemma_join_concat(ts.take(l) + seq![ts[l]], ts.skip(l + 1));
    assert(ts.take(l) + seq![ts[l]] + ts.skip(l + 1) =~= ts);
}

/// The preprocessor keeps the text of a request: the texts of the tokens it
/// gives back, run together, are those of the tokens it was given.
pub proof fn law_preprocess_keeps_text(ts: Seq<TokenView>)
    ensures
        join_texts(spec_preprocess(ts)) == join_texts(ts),
    decreases ts.len(),
{
    if ts.len() > 0 {
        let l = longest_expression(ts, ts.len() as int);
        lemma_longest_expression(ts, ts.len() as int);
        if l <= 0 {
            law_preprocess_keeps_text(ts.skip(1));
            lemma_keeps_text_pass(ts);
        } else if l >= ts.len() {
            lemma_join_single(calc_token(join_texts(ts)));
        } else {
            law_preprocess_keeps_text(ts.skip(l + 1));
            lemma_keeps_text_merge(ts, l);
        }
    }
}

/// When all the tokens of a request together form a calculation, the
/// preprocessor merges them into one calculation token.
pub proof fn law_whole_expression_merges(ts: Seq<TokenView>)
    requires
        ts.len() > 0,
        is_expression(ts),
    ensures
        spec_preprocess(ts) == seq![calc_token(join_texts(ts))],
{
    assert(ts.take(ts.len() as int) =~= ts);
}

/// Every token the preprocessor gives back is either a token it was given,
/// or a calculation token whose text is a calculation.
pub proof fn law_preprocess_tokens(ts: Seq<TokenView>)
    ensures
        forall|i: int| 0 <= i < spec_preprocess(ts).len() ==>
            ts.contains(#[trigger] spec_preprocess(ts)[i])
            || (spec_preprocess(ts)[i] == calc_token(spec_preprocess(ts)[i].data)
                && spec_calculation(spec_preprocess(ts)[i].data) is Some),
    decreases ts.len(),
{
    if ts.len() > 0 {
        let out = spec_preprocess(ts);
        let l = longest_expression(ts, ts.len() as int);
        lemma_longest_expression(ts, ts.len() as int);
        if l <= 0 {
            let rest = ts.skip(1);
            law_preprocess_tokens(rest);
            assert forall|i: int| 0 <= i < out.len() implies
                ts.contains(#[trigger] out[i])
                || (out[i] == calc_token(out[i].data) && spec_calculation(out[i].data) is Some)
            by {
                if i == 0 {
                    assert(ts[0] == out[0]);
                } else {
                    assert(out[i] == spec_preprocess(rest)[i - 1]);
                    if rest.contains(out[i]) {
                        let k = choose|k: int| 0 <= k < rest.len() && rest[k] == out[i];
                        assert(ts[k + 1] == out[i]);
                    }
                }
            }
        } else if l >= ts.len() {
            assert(ts.take(l) =~= ts);
        } else {
            let rest = ts.skip(l + 1);
            law_preprocess_tokens(rest);
            assert forall|i: int| 0 <= i < out.len() implies
                ts.contains(#[trigger] out[i])
                || (out[i] == calc_token(out[i].data) && spec_calculation(out[i].data) is Some)
            by {
                if i == 0 {
                } else if i == 1 {
                    assert(ts[l] == out[1]);
                } else {
                    assert(out[i] == spec_preprocess(rest)[i - 2]);
                    if rest.contains(out[i]) {
                        let k = choose|k: int| 0 <= k < rest.len() && rest[k] == out[i];
                        assert(ts[k + l + 1] == out[i]);
                    }
                }
            }
        }
    }
}

/// A request whose tokens together form a calculation is, after the
/// preprocessor, translated into the command for exactly that calculation
/// (given that the calculation media type compares equal to itself).
pub proof fn law_expression_translates(ts: Seq<TokenView>)
    requires
        ts.len() > 0,
        is_expression(ts),
        media_type_eq(calc_media_type(), calc_media_type()),
    ensures
        spec_translate(spec_preprocess(ts)) == Some(seq![join_texts(ts)]),
{
    law_whole_expression_merges(ts);
    let out = spec_preprocess(ts);
    assert(out[0].media_type == calc_media_type());
}

} // verus!
