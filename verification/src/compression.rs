//! The compression skill: suggestions, training corpus, translator and the
//! decisions of its command. The table of algorithms (their keywords) and
//! the compressors themselves are handed in by the host.
use vstd::prelude::*;
use crate::text::{copy_string, push_str};
use crate::token::{Token, TokenView, CommandArgs, Block, BlockView, Output, OutputView, tokens_view, strings_view, plain_token};
use crate::shell::{shell_join, shell_join_words};

verus! {

broadcast use vstd::string::group_string_axioms;

/// The texts of the tokens tagged `input:data`, in order.
pub open spec fn data_inputs(ts: Seq<TokenView>) -> Seq<Seq<char>>
    decreases ts.len(),
{
    if ts.len() == 0 {
        Seq::empty()
    } else {
        data_inputs(ts.drop_last()) + if ts.last().tag == "input:data"@ {
            seq![ts.last().data]
        } else {
            Seq::empty()
        }
    }
}

/// The words a suggestion is built on: the data inputs, or `Hello World!`
/// when there are none.
pub open spec fn suggestion_words(ts: Seq<TokenView>) -> Seq<Seq<char>> {
    if data_inputs(ts).len() == 0 {
        seq!["Hello World!"@]
    } else {
        data_inputs(ts)
    }
}

/// One suggestion per algorithm that has a keyword: the quoted words, `to`,
/// and the algorithm's first keyword.
pub open spec fn spec_suggestions(joined: Seq<char>, algs: Seq<Seq<Seq<char>>>) -> Seq<Seq<char>>
    decreases algs.len(),
{
    if algs.len() == 0 {
        Seq::empty()
    } else {
        spec_suggestions(joined, algs.drop_last()) + if algs.last().len() > 0 {
            seq![joined + " to "@ + algs.last()[0]]
        } else {
            Seq::empty()
        }
    }
}

/// The keyword lists of the algorithms.
pub open spec fn algorithms_view(algs: Seq<Vec<String>>) -> Seq<Seq<Seq<char>>> {
    algs.map_values(|a: Vec<String>| strings_view(a@))
}

/// The texts of the tokens that carry the given tag.
fn tagged_texts(args: &Vec<Token>, tag: &str) -> (r: Vec<String>)
    requires
        tag@ == "input:data"@,
    ensures
        strings_view(r@) == data_inputs(tokens_view(args@)),
{
    let ghost v = tokens_view(args@);
    let mut r: Vec<String> = Vec::new();
    let mut i: usize = 0;
    while i < args.len()
        invariant
            v == tokens_view(args@),
            tag@ == "input:data"@,
            i <= args@.len(),
            strings_view(r@) == data_inputs(v.take(i as int)),
        decreases args.len() - i,
    {
        proof {
            assert(v.take(i + 1).drop_last() =~= v.take(i as int));
            assert(v[i as int] == args@[i as int]@);
        }
        if crate::text::same_text(args[i].tag.as_str(), tag) {
            r.push(copy_string(&args[i].data));
            proof {
                assert(strings_view(r@) =~= data_inputs(v.take(i as int)) + seq![v[i as int].data]);
            }
        } else {
            proof {
                assert(data_inputs(v.take(i as int)) + Seq::<Seq<char>>::empty() =~= data_inputs(v.take(i as int)));
            }
        }
        i += 1;
    }
    proof {
        assert(v.take(args@.len() as int) =~= v);
    }
    r
}

/// Suggests requests for the compression skill.
pub struct CompressionSuggestions;

impl CompressionSuggestions {
    /// `algorithms[k]` holds the keywords of the `k`-th algorithm.
    pub fn suggestions(&self, args: &Vec<Token>, algorithms: &Vec<Vec<String>>) -> (r: Vec<String>)
        ensures
            strings_view(r@) == spec_suggestions(
                shell_join_words(suggestion_words(tokens_view(args@))),
                algorithms_view(algorithms@),
            ),
    {
        let mut words = tagged_texts(args, "input:data");
        if words.len() == 0 {
            words.push("Hello World!".to_string());
            proof {
                assert(strings_view(words@) =~= seq!["Hello World!"@]);
            }
        }
        let joined = shell_join(&words);
        let ghost av = algorithms_view(algorithms@);
        let mut r: Vec<String> = Vec::new();
        let mut k: usize = 0;
        while k < algorithms.len()
            invariant
                av == algorithms_view(algorithms@),
                k <= algorithms@.len(),
                strings_view(r@) == spec_suggestions(joined@, av.take(k as int)),
            decreases algorithms.len() - k,
        {
            proof {
                assert(av.take(k + 1).drop_last() =~= av.take(k as int));
                assert(av[k as int] == strings_view(algorithms@[k as int]@));
            }
            if algorithms[k].len() > 0 {
                let mut s = copy_string(&joined);
                push_str(&mut s, " to ");
                push_str(&mut s, algorithms[k][0].as_str());
                r.push(s);
                proof {
                    assert(strings_view(r@) =~= spec_suggestions(joined@, av.take(k as int)) + seq![joined@ + " to "@ + av[k as int][0]]);
                }
            } else {
                proof {
                    assert(spec_suggestions(joined@, av.take(k as int)) + Seq::<Seq<char>>::empty()
                        =~= spec_suggestions(joined@, av.take(k as int)));
                }
            }
            k += 1;
        }
        proof {
            assert(av.take(algorithms@.len() as int) =~= av);
        }
        r
    }
}

/// The keywords of all algorithms, in order.
pub open spec fn all_keywords(algs: Seq<Seq<Seq<char>>>) -> Seq<Seq<char>>
    decreases algs.len(),
{
    if algs.len() == 0 {
        Seq::empty()
    } else {
        all_keywords(algs.drop_last()) + algs.last()
    }
}

/// The sample data of the training corpus.
pub open spec fn corpus_inputs() -> Seq<Seq<char>> {
    seq!["Hello World"@, "\u{1f60d}\u{1f617}\u{1f60b}"@, "quick brown fox jumps over the lazy dog"@, "Veterinarian"@]
}

/// The words that join data and algorithm in the corpus.
pub open spec fn corpus_prefixes() -> Seq<Seq<char>> {
    seq!["as"@, "to"@, "in"@, "into"@]
}

/// One training sentence: data, a joining word, an algorithm keyword.
pub open spec fn sentence(d: Seq<char>, p: Seq<char>, a: Seq<char>) -> Seq<TokenView> {
    seq![plain_token(d, "input:data"@), plain_token(p, ""@), plain_token(a, "input:alg"@)]
}

/// The sentences for data `d`, word `p` and each keyword.
pub open spec fn keyword_sentences(d: Seq<char>, p: Seq<char>, ks: Seq<Seq<char>>) -> Seq<Seq<TokenView>>
    decreases ks.len(),
{
    if ks.len() == 0 {
        Seq::empty()
    } else {
        keyword_sentences(d, p, ks.drop_last()) + seq![sentence(d, p, ks.last())]
    }
}

/// The sentences for data `d`, each joining word and each keyword.
pub open spec fn prefix_sentences(d: Seq<char>, ps: Seq<Seq<char>>, ks: Seq<Seq<char>>) -> Seq<Seq<TokenView>>
    decreases ps.len(),
{
    if ps.len() == 0 {
        Seq::empty()
    } else {
        prefix_sentences(d, ps.drop_last(), ks) + keyword_sentences(d, ps.last(), ks)
    }
}

/// The sentences for every combination of data, joining word and keyword,
/// data varying slowest and keyword fastest.
pub open spec fn data_sentences(ds: Seq<Seq<char>>, ps: Seq<Seq<char>>, ks: Seq<Seq<char>>) -> Seq<Seq<TokenView>>
    decreases ds.len(),
{
    if ds.len() == 0 {
        Seq::empty()
    } else {
        data_sentences(ds.drop_last(), ps, ks) + prefix_sentences(ds.last(), ps, ks)
    }
}

/// One sentence per keyword, holding just that keyword.
pub open spec fn keyword_alone(ks: Seq<Seq<char>>) -> Seq<Seq<TokenView>>
    decreases ks.len(),
{
    if ks.len() == 0 {
        Seq::empty()
    } else {
        keyword_alone(ks.drop_last()) + seq![seq![plain_token(ks.last(), "input:alg"@)]]
    }
}

/// The training corpus of the compression skill.
pub open spec fn spec_compression_corpus(algs: Seq<Seq<Seq<char>>>) -> Seq<Seq<TokenView>> {
    let ks = all_keywords(algs);
    data_sentences(corpus_inputs(), corpus_prefixes(), ks) + keyword_alone(ks)
}

/// The views of a list of sentences.
pub open spec fn sentences_view(v: Seq<Vec<Token>>) -> Seq<Seq<TokenView>> {
    v.map_values(|s: Vec<Token>| tokens_view(s@))
}

fn keywords_of(algorithms: &Vec<Vec<String>>) -> (r: Vec<String>)
    ensures
        strings_view(r@) == all_keywords(algorithms_view(algorithms@)),
{
    let ghost av = algorithms_view(algorithms@);
    let mut r: Vec<String> = Vec::new();
    let mut k: usize = 0;
    while k < algorithms.len()
        invariant
            av == algorithms_view(algorithms@),
            k <= algorithms@.len(),
            strings_view(r@) == all_keywords(av.take(k as int)),
        decreases algorithms.len() - k,
    {
        proof {
            assert(av.take(k + 1).drop_last() =~= av.take(k as int));
            assert(av[k as int] == strings_view(algorithms@[k as int]@));
        }
        let ghost before = strings_view(r@);
        let mut j: usize = 0;
        while j < algorithms[k].len()
            invariant
                k < algorithms@.len(),
                j <= algorithms@[k as int]@.len(),
                strings_view(r@) == before + strings_view(algorithms@[k as int]@).take(j as int),
            decreases algorithms@[k as int]@.len() - j,
        {
            let c = copy_string(&algorithms[k][j]);
            let ghost r_old = r@;
            r.push(c);
            proof {
                assert(strings_view(r@) =~= strings_view(r_old).push(algorithms@[k as int]@[j as int]@));
                assert(strings_view(algorithms@[k as int]@).take(j + 1) =~= strings_view(algorithms@[k as int]@).take(j as int).push(algorithms@[k as int]@[j as int]@));
                assert(strings_view(r@) =~= before + strings_view(algorithms@[k as int]@).take(j + 1));
            }
            j += 1;
        }
        proof {
            assert(strings_view(algorithms@[k as int]@).take(j as int) =~= strings_view(algorithms@[k as int]@));
        }
        k += 1;
    }
    proof {
        assert(av.take(algorithms@.len() as int) =~= av);
    }
    r
}

fn make_sentence(d: &String, p: &String, a: &String) -> (r: Vec<Token>)
    ensures
        tokens_view(r@) == sentence(d@, p@, a@),
{
    let mut r: Vec<Token> = Vec::new();
    r.push(Token::tagged(d.as_str(), "input:data"));
    r.push(Token::tagged(p.as_str(), ""));
    r.push(Token::tagged(a.as_str(), "input:alg"));
    proof {
        assert(tokens_view(r@) =~= sentence(d@, p@, a@));
    }
    r
}

/// The training corpus of the compression skill.
pub struct CompressionCorpus;

impl CompressionCorpus {
    /// `algorithms[k]` holds the keywords of the `k`-th algorithm.
    pub fn training_data(&self, algorithms: &Vec<Vec<String>>) -> (r: Vec<Vec<Token>>)
        ensures
            sentences_view(r@) == spec_compression_corpus(algorithms_view(algorithms@)),
    {
        let ks = keywords_of(algorithms);
        let ghost kv = strings_view(ks@);
        let mut ds: Vec<String> = Vec::new();
        ds.push("Hello World".to_string());
        ds.push("\u{1f60d}\u{1f617}\u{1f60b}".to_string());
        ds.push("quick brown fox jumps over the lazy dog".to_string());
        ds.push("Veterinarian".to_string());
        let mut ps: Vec<String> = Vec::new();
        ps.push("as".to_string());
        ps.push("to".to_string());
        ps.push("in".to_string());
        ps.push("into".to_string());
        let ghost dv = strings_view(ds@);
        let ghost pv = strings_view(ps@);
        proof {
            assert(dv =~= corpus_inputs());
            assert(pv =~= corpus_prefixes());
        }
        let mut r: Vec<Vec<Token>> = Vec::new();
        let mut d: usize = 0;
        while d < ds.len()
            invariant
                kv == strings_view(ks@),
                dv == strings_view(ds@),
                pv == strings_view(ps@),
                d <= ds@.len(),
                sentences_view(r@) == data_sentences(dv.take(d as int), pv, kv),
            decreases ds.len() - d,
        {
            proof {
                assert(dv.take(d + 1).drop_last() =~= dv.take(d as int));
            }
            let ghost r0 = sentences_view(r@);
            let mut p: usize = 0;
            while p < ps.len()
                invariant
                    kv == strings_view(ks@),
                    dv == strings_view(ds@),
                    pv == strings_view(ps@),
                    d < ds@.len(),
                    p <= ps@.len(),
                    sentences_view(r@) == r0 + prefix_sentences(dv[d as int], pv.take(p as int), kv),
                decreases ps.len() - p,
            {
                proof {
                    assert(pv.take(p + 1).drop_last() =~= pv.take(p as int));
                }
                let ghost r1 = sentences_view(r@);
                let mut a: usize = 0;
                while a < ks.len()
                    invariant
                        kv == strings_view(ks@),
                        dv == strings_view(ds@),
                        pv == strings_view(ps@),
                        d < ds@.len(),
                        p < ps@.len(),
                        a <= ks@.len(),
                        sentences_view(r@) == r1 + keyword_sentences(dv[d as int], pv[p as int], kv.take(a as int)),
                    decreases ks.len() - a,
                {
                    proof {
                        assert(kv.take(a + 1).drop_last() =~= kv.take(a as int));
                    }
                    let s = make_sentence(&ds[d], &ps[p], &ks[a]);
                    proof {
                        assert(dv[d as int] == ds@[d as int]@);
                        assert(pv[p as int] == ps@[p as int]@);
                        assert(kv[a as int] == ks@[a as int]@);
                        assert(kv.take(a + 1).last() == kv[a as int]);
                    }
                    let ghost sv = tokens_view(s@);
                    r.push(s);
                    proof {
                        assert(sentences_view(r@) =~= r1 + keyword_sentences(dv[d as int], pv[p as int], kv.take(a as int)) + seq![sv]);
                        assert(sentences_view(r@) =~= r1 + keyword_sentences(dv[d as int], pv[p as int], kv.take(a + 1)));
                    }
                    a += 1;
                }
                proof {
                    assert(kv.take(ks@.len() as int) =~= kv);
                    assert(sentences_view(r@) =~= r0 + prefix_sentences(dv[d as int], pv.take(p + 1), kv));
                }
                p += 1;
            }
            proof {
                assert(pv.take(ps@.len() as int) =~= pv);
                assert(sentences_view(r@) =~= data_sentences(dv.take(d + 1), pv, kv));
            }
            d += 1;
        }
        proof {
            assert(dv.take(ds@.len() as int) =~= dv);
        }
        let ghost r2 = sentences_view(r@);
        let mut a: usize = 0;
        while a < ks.len()
            invariant
                kv == strings_view(ks@),
                a <= ks@.len(),
                sentences_view(r@) == r2 + keyword_alone(kv.take(a as int)),
            decreases ks.len() - a,
        {
            proof {
                assert(kv.take(a + 1).drop_last() =~= kv.take(a as int));
            }
            let mut s: Vec<Token> = Vec::new();
            s.push(Token::tagged(ks[a].as_str(), "input:alg"));
            proof {
                assert(kv[a as int] == ks@[a as int]@);
                assert(kv.take(a + 1).last() == kv[a as int]);
                assert(tokens_view(s@) =~= seq![plain_token(kv[a as int], "input:alg"@)]);
            }
            let ghost sv = tokens_view(s@);
            r.push(s);
            proof {
                assert(sentences_view(r@) =~= r2 + keyword_alone(kv.take(a as int)) + seq![sv]);
                assert(sentences_view(r@) =~= r2 + keyword_alone(kv.take(a + 1)));
            }
            a += 1;
        }
        proof {
            assert(kv.take(ks@.len() as int) =~= kv);
        }
        r
    }
}

/// `--input` and the text, for each token tagged `input:data`.
pub open spec fn input_args(ts: Seq<TokenView>) -> Seq<Seq<char>>
    decreases ts.len(),
{
    if ts.len() == 0 {
        Seq::empty()
    } else {
        input_args(ts.drop_last()) + if ts.last().tag == "input:data"@ {
            seq!["--input"@, ts.last().data]
        } else {
            Seq::empty()
        }
    }
}

/// `--algorithm` and the text, for each token tagged `input:alg`.
pub open spec fn algorithm_args(ts: Seq<TokenView>) -> Seq<Seq<char>>
    decreases ts.len(),
{
    if ts.len() == 0 {
        Seq::empty()
    } else {
        algorithm_args(ts.drop_last()) + if ts.last().tag == "input:alg"@ {
            seq!["--algorithm"@, ts.last().data]
        } else {
            Seq::empty()
        }
    }
}

/// The translator: when the request names at least one algorithm and every
/// algorithm it names is known, the command gets the data inputs and the
/// algorithms as options. `known[i]` says whether the text of token `i`
/// names a known algorithm.
pub open spec fn spec_compression_command(ts: Seq<TokenView>, known: Seq<bool>) -> Option<Seq<Seq<char>>> {
    if (exists|i: int| 0 <= i < ts.len() && #[trigger] ts[i].tag == "input:alg"@)
        && (forall|i: int| 0 <= i < ts.len() && #[trigger] ts[i].tag == "input:alg"@ ==> known[i]) {
        Some(input_args(ts) + algorithm_args(ts))
    } else {
        None
    }
}

/// Appends an option and its value for each token that carries `tag`.
fn option_args(args: &Vec<Token>, tag: &str, name: &str, out: &mut Vec<String>)
    requires
        (tag@ == "input:data"@ && name@ == "--input"@) || (tag@ == "input:alg"@ && name@ == "--algorithm"@),
    ensures
        tag@ == "input:data"@ ==> strings_view(final(out)@) == strings_view(old(out)@) + input_args(tokens_view(args@)),
        tag@ == "input:alg"@ ==> strings_view(final(out)@) == strings_view(old(out)@) + algorithm_args(tokens_view(args@)),
{
    let ghost v = tokens_view(args@);
    let ghost start = strings_view(out@);
    proof {
        reveal_strlit("input:data");
        reveal_strlit("input:alg");
        assert("input:data"@.len() != "input:alg"@.len());
    }
    let mut i: usize = 0;
    while i < args.len()
        invariant
            "input:data"@ != "input:alg"@,
            v == tokens_view(args@),
            (tag@ == "input:data"@ && name@ == "--input"@) || (tag@ == "input:alg"@ && name@ == "--algorithm"@),
            i <= args@.len(),
            tag@ == "input:data"@ ==> strings_view(out@) == start + input_args(v.take(i as int)),
            tag@ == "input:alg"@ ==> strings_view(out@) == start + algorithm_args(v.take(i as int)),
        decreases args.len() - i,
    {
        proof {
            assert(v.take(i + 1).drop_last() =~= v.take(i as int));
            assert(v[i as int] == args@[i as int]@);
        }
        let ghost before = strings_view(out@);
        proof {
            assert(v.take(i + 1).last() == v[i as int]);
        }
        if crate::text::same_text(args[i].tag.as_str(), tag) {
            let n = name.to_string();
            let d = copy_string(&args[i].data);
            let ghost o1 = out@;
            out.push(n);
            out.push(d);
            proof {
                assert(out@ == o1.push(n).push(d));
                assert(strings_view(out@) =~= before + seq![name@, v[i as int].data]);
                if tag@ == "input:data"@ {
                    assert(strings_view(out@) =~= start + input_args(v.take(i + 1)));
                } else {
                    assert(strings_view(out@) =~= start + algorithm_args(v.take(i + 1)));
                }
            }
        } else {
            proof {
                if tag@ == "input:data"@ {
                    assert(v[i as int].tag != "input:data"@);
                    assert(strings_view(out@) =~= start + input_args(v.take(i + 1)));
                } else {
                    assert(v[i as int].tag != "input:alg"@);
                    assert(strings_view(out@) =~= start + algorithm_args(v.take(i + 1)));
                }
            }
        }
        i += 1;
    }
    proof {
        assert(v.take(args@.len() as int) =~= v);
    }
}

/// Turns a request that names compression algorithms into the command.
pub struct CompressionTranslator;

impl CompressionTranslator {
    /// `known[i]` says whether the text of `args[i]` names a known algorithm.
    pub fn generate_command(&self, args: &Vec<Token>, known: &Vec<bool>) -> (r: Option<CommandArgs>)
        requires
            known@.len() == args@.len(),
        ensures
            r is None ==> spec_compression_command(tokens_view(args@), known@) is None,
            r matches Some(c) ==> spec_compression_command(tokens_view(args@), known@) == Some(strings_view(c.args@)),
    {
        let ghost v = tokens_view(args@);
        let mut any = false;
        let mut i: usize = 0;
        while i < args.len()
            invariant
                v == tokens_view(args@),
                known@.len() == args@.len(),
                i <= args@.len(),
                any == (exists|k: int| 0 <= k < i && #[trigger] v[k].tag == "input:alg"@),
                forall|k: int| 0 <= k < i && #[trigger] v[k].tag == "input:alg"@ ==> known@[k],
            decreases args.len() - i,
        {
            proof {
                assert(v[i as int] == args@[i as int]@);
            }
            if crate::text::same_text(args[i].tag.as_str(), "input:alg") {
                assert(v[i as int].tag == "input:alg"@);
                if !known[i] {
                    return None;
                }
                any = true;
            }
            i += 1;
        }
        if !any {
            return None;
        }
        let mut out: Vec<String> = Vec::new();
        option_args(args, "input:data", "--input", &mut out);
        option_args(args, "input:alg", "--algorithm", &mut out);
        proof {
            assert(strings_view(Seq::<String>::empty()) =~= Seq::<Seq<char>>::empty());
            assert(Seq::<Seq<char>>::empty() + input_args(v) =~= input_args(v));
        }
        Some(CommandArgs { args: out })
    }
}

/// The command's arguments: the algorithm's name and the `--input` texts.
#[derive(Debug)]
pub struct Args {
    pub algorithm: String,
    pub input: Vec<String>,
}

/// Where the command takes the data to compress from.
#[derive(Debug)]
pub enum CompressionSource {
    /// The first `--input` text, as UTF-8 bytes.
    Input(String),
    /// The first input stream, read to its end.
    Stream,
    /// Nothing: the data is empty.
    Nothing,
}

/// The link to the skill's documentation.
pub open spec fn compression_docs() -> Seq<char> {
    "https://docs.yozuk.com/docs/skills/compression/"@
}

/// The output for a compressed result.
pub open spec fn compression_output(data: Seq<u8>) -> OutputView {
    OutputView { title: "Compression"@, blocks: seq![BlockView::Data(data)], docs: seq![compression_docs()] }
}

/// The output when the requested algorithm is not known.
pub open spec fn unsupported_output(algorithm: Seq<char>) -> OutputView {
    OutputView {
        title: "Compression"@,
        blocks: seq![BlockView::Comment("Unsupprted algorithm: "@ + algorithm)],
        docs: seq![compression_docs()],
    }
}

/// Compresses data with the requested algorithm.
pub struct CompressionCommand;

impl CompressionCommand {
    /// The data source: the first `--input` text if there is one, else the
    /// first input stream if there is one, else nothing.
    pub fn source(&self, args: &Args, streams: usize) -> (r: CompressionSource)
        ensures
            args.input@.len() > 0 ==> (r matches CompressionSource::Input(s) && s@ == args.input@[0]@),
            args.input@.len() == 0 && streams > 0 ==> r matches CompressionSource::Stream,
            args.input@.len() == 0 && streams == 0 ==> r matches CompressionSource::Nothing,
    {
        if args.input.len() > 0 {
            CompressionSource::Input(copy_string(&args.input[0]))
        } else if streams > 0 {
            CompressionSource::Stream
        } else {
            CompressionSource::Nothing
        }
    }

    /// The command's result: the compressed data of a known algorithm
    /// (`compressed` is `None` when the algorithm is not known).
    pub fn output(&self, args: &Args, compressed: Option<Vec<u8>>) -> (r: Result<Output, Output>)
        ensures
            compressed matches Some(d) ==> (r matches Ok(o) && o@ == compression_output(d@)),
            compressed is None ==> (r matches Err(o) && o@ == unsupported_output(args.algorithm@)),
    {
        let mut docs: Vec<String> = Vec::new();
        docs.push("https://docs.yozuk.com/docs/skills/compression/".to_string());
        let mut blocks: Vec<Block> = Vec::new();
        match compressed {
            Some(data) => {
                let ghost dv = data@;
                blocks.push(Block::Data(data));
                let o = Output { title: "Compression".to_string(), blocks, docs };
                proof {
                    assert(o@.blocks =~= seq![BlockView::Data(dv)]);
                    assert(o@.docs =~= seq![compression_docs()]);
                }
                Ok(o)
            },
            None => {
                let mut text = "Unsupprted algorithm: ".to_string();
                push_str(&mut text, args.algorithm.as_str());
                blocks.push(Block::Comment(text));
                let o = Output { title: "Compression".to_string(), blocks, docs };
                proof {
                    assert(o@.blocks =~= seq![BlockView::Comment("Unsupprted algorithm: "@ + args.algorithm@)]);
                    assert(o@.docs =~= seq![compression_docs()]);
                }
                Err(o)
            },
        }
    }

    /// The command's priority among skills.
    pub fn priority(&self) -> (r: i32)
        ensures
            r == -120,
    {
        -120
    }
}

/// A request is turned into a command exactly when it names at least one
/// algorithm and every algorithm it names is known, whatever data it holds
/// (none at all included: the command then reads the input stream); the
/// command then carries every algorithm named.
pub proof fn law_command_needs_only_known_algorithms(ts: Seq<TokenView>, known: Seq<bool>)
    requires
        known.len() == ts.len(),
    ensures
        spec_compression_command(ts, known) is Some <==> (
            (exists|i: int| 0 <= i < ts.len() && #[trigger] ts[i].tag == "input:alg"@)
            && (forall|i: int| 0 <= i < ts.len() && #[trigger] ts[i].tag == "input:alg"@ ==> known[i])),
        spec_compression_command(ts, known) matches Some(a) ==> a.len() >= 2 && a.subrange(a.len() - algorithm_args(ts).len(), a.len() as int) == algorithm_args(ts),
{
    if let Some(a) = spec_compression_command(ts, known) {
        lemma_algorithm_args_nonempty(ts);
        assert(a.subrange(a.len() - algorithm_args(ts).len(), a.len() as int) =~= algorithm_args(ts));
    }
}

proof fn lemma_algorithm_args_nonempty(ts: Seq<TokenView>)
    requires
        exists|i: int| 0 <= i < ts.len() && #[trigger] ts[i].tag == "input:alg"@,
    ensures
        algorithm_args(ts).len() >= 2,
    decreases ts.len(),
{
    if ts.last().tag != "input:alg"@ {
        let i = choose|i: int| 0 <= i < ts.len() && #[trigger] ts[i].tag == "input:alg"@;
        let prev = ts.drop_last();
        assert(prev[i].tag == "input:alg"@);
        lemma_algorithm_args_nonempty(prev);
    }
}

} // verus!
