//! The unit-conversion skill: training corpus, translator and the parts of
//! its command that read the value and lay out the report. The table of
//! units and the conversions are handed in by the host.
use vstd::prelude::*;
use crate::text::{chars_of, copy_string, push_str};
use crate::token::{Token, TokenView, CommandArgs, Block, BlockView, Output, OutputView, tokens_view, strings_view, plain_token, text_plain};
use crate::decimal::{Decimal, decimal_parse, decimal_text, fits_i64, at_scale, quotient_result, from_str_overflows, option_view, big_from_str, is_num_literal, literal_readable, literal_value, ten_pow, law_text_reads_back};
use crate::compression::sentences_view;

verus! {

broadcast use vstd::string::group_string_axioms;

/// One unit: its symbols and the prefixes its symbols may take.
pub struct UnitEntry {
    pub symbols: Vec<String>,
    pub prefixes: Vec<String>,
}

/// The symbols and prefixes of a unit.
pub open spec fn entry_view(e: UnitEntry) -> (Seq<Seq<char>>, Seq<Seq<char>>) {
    (strings_view(e.symbols@), strings_view(e.prefixes@))
}

pub open spec fn entries_view(es: Seq<UnitEntry>) -> Seq<(Seq<Seq<char>>, Seq<Seq<char>>)> {
    es.map_values(|e: UnitEntry| entry_view(e))
}

/// A training sentence: the value `1.0` and a unit keyword.
pub open spec fn unit_sentence(keyword: Seq<char>) -> Seq<TokenView> {
    seq![plain_token("1.0"@, "input:value"@), plain_token(keyword, "unit:keyword"@)]
}

/// The sentences for a symbol with each prefix, then the bare symbol.
pub open spec fn prefixed_sentences(sym: Seq<char>, prefixes: Seq<Seq<char>>) -> Seq<Seq<TokenView>>
    decreases prefixes.len(),
{
    if prefixes.len() == 0 {
        seq![unit_sentence(sym)]
    } else {
        prefixed_sentences(sym, prefixes.drop_last()).drop_last() + seq![
            unit_sentence(prefixes.last() + sym),
            unit_sentence(sym),
        ]
    }
}

/// The sentences for each symbol of a unit.
pub open spec fn symbol_sentences(syms: Seq<Seq<char>>, prefixes: Seq<Seq<char>>) -> Seq<Seq<TokenView>>
    decreases syms.len(),
{
    if syms.len() == 0 {
        Seq::empty()
    } else {
        symbol_sentences(syms.drop_last(), prefixes) + prefixed_sentences(syms.last(), prefixes)
    }
}

/// The training corpus: for each unit and each of its symbols, the symbol
/// with each prefix and then the bare symbol, each after the value `1.0`.
pub open spec fn spec_unit_corpus(es: Seq<(Seq<Seq<char>>, Seq<Seq<char>>)>) -> Seq<Seq<TokenView>>
    decreases es.len(),
{
    if es.len() == 0 {
        Seq::empty()
    } else {
        spec_unit_corpus(es.drop_last()) + symbol_sentences(es.last().0, es.last().1)
    }
}

fn make_unit_sentence(keyword: &String) -> (r: Vec<Token>)
    ensures
        tokens_view(r@) == unit_sentence(keyword@),
{
    let mut r: Vec<Token> = Vec::new();
    r.push(Token::tagged("1.0", "input:value"));
    r.push(Token::tagged(keyword.as_str(), "unit:keyword"));
    proof {
        assert(tokens_view(r@) =~= unit_sentence(keyword@));
    }
    r
}

proof fn lemma_prefixed_len(sym: Seq<char>, prefixes: Seq<Seq<char>>)
    ensures
        prefixed_sentences(sym, prefixes).len() == prefixes.len() + 1,
        prefixed_sentences(sym, prefixes).last() == unit_sentence(sym),
    decreases prefixes.len(),
{
    if prefixes.len() > 0 {
        lemma_prefixed_len(sym, prefixes.drop_last());
    }
}

/// The training corpus of the unit converter.
pub struct UnitCorpus;

impl UnitCorpus {
    pub fn training_data(&self, entries: &Vec<UnitEntry>) -> (r: Vec<Vec<Token>>)
        ensures
            sentences_view(r@) == spec_unit_corpus(entries_view(entries@)),
    {
        let ghost ev = entries_view(entries@);
        let mut r: Vec<Vec<Token>> = Vec::new();
        let mut e: usize = 0;
        while e < entries.len()
            invariant
                ev == entries_view(entries@),
                e <= entries@.len(),
                sentences_view(r@) == spec_unit_corpus(ev.take(e as int)),
            decreases entries.len() - e,
        {
            proof {
                assert(ev.take(e + 1).drop_last() =~= ev.take(e as int));
                assert(ev[e as int] == entry_view(entries@[e as int]));
            }
            let ghost r0 = sentences_view(r@);
            let syms = &entries[e].symbols;
            let prefixes = &entries[e].prefixes;
            let ghost sv = strings_view(syms@);
            let ghost pv = strings_view(prefixes@);
            let mut s: usize = 0;
            while s < syms.len()
                invariant
                    sv == strings_view(syms@),
                    pv == strings_view(prefixes@),
                    s <= syms@.len(),
                    sentences_view(r@) == r0 + symbol_sentences(sv.take(s as int), pv),
                decreases syms.len() - s,
            {
                proof {
                    assert(sv.take(s + 1).drop_last() =~= sv.take(s as int));
                    assert(sv[s as int] == syms@[s as int]@);
                }
                let ghost r1 = sentences_view(r@);
                let mut p: usize = 0;
                while p < prefixes.len()
                    invariant
                        sv == strings_view(syms@),
                        pv == strings_view(prefixes@),
                        s < syms@.len(),
                        p <= prefixes@.len(),
                        sentences_view(r@) == r1 + prefixed_sentences(sv[s as int], pv.take(p as int)).drop_last(),
                    decreases prefixes.len() - p,
                {
                    proof {
                        assert(pv.take(p + 1).drop_last() =~= pv.take(p as int));
                        assert(pv[p as int] == prefixes@[p as int]@);
                        lemma_prefixed_len(sv[s as int], pv.take(p as int));
                    }
                    let mut k = copy_string(&prefixes[p]);
                    push_str(&mut k, syms[s].as_str());
                    let sent = make_unit_sentence(&k);
                    let ghost snt = tokens_view(sent@);
                    r.push(sent);
                    proof {
                        assert(sentences_view(r@) =~= r1 + prefixed_sentences(sv[s as int], pv.take(p as int)).drop_last() + seq![snt]);
                        let full = prefixed_sentences(sv[s as int], pv.take(p + 1));
                        assert(full.drop_last() =~= prefixed_sentences(sv[s as int], pv.take(p as int)).drop_last() + seq![unit_sentence(pv[p as int] + sv[s as int])]);
                    }
                    p += 1;
                }
                let sent = make_unit_sentence(&syms[s]);
                let ghost snt = tokens_view(sent@);
                let ghost r_old = r@;
                proof {
                    assert(pv.take(prefixes@.len() as int) =~= pv);
                    assert(sentences_view(r_old) == r1 + prefixed_sentences(sv[s as int], pv).drop_last());
                }
                r.push(sent);
                proof {
                    assert(sentences_view(r@) =~= sentences_view(r_old) + seq![snt]);
                    lemma_prefixed_len(sv[s as int], pv);
                    let full = prefixed_sentences(sv[s as int], pv);
                    assert(full =~= full.drop_last() + seq![unit_sentence(sv[s as int])]);
                    assert(sentences_view(r@) =~= r0 + symbol_sentences(sv.take(s as int), pv) + full);
                    assert(sentences_view(r@) =~= r0 + symbol_sentences(sv.take(s + 1), pv));
                }
                s += 1;
            }
            proof {
                assert(sv.take(syms@.len() as int) =~= sv);
                assert(sentences_view(r@) =~= spec_unit_corpus(ev.take(e + 1)));
            }
            e += 1;
        }
        proof {
            assert(ev.take(entries@.len() as int) =~= ev);
        }
        r
    }
}

/// Reads a decimal from a text (`None` where the text is not a decimal
/// number); the text must not make `BigDecimal::from_str` overflow.
pub fn parse_value(text: &str) -> (r: Option<Decimal>)
    requires
        !from_str_overflows(text@),
    ensures
        option_view(r) == decimal_parse(text@),
        is_num_literal(text@) && literal_readable(text@) ==> option_view(r) == Some(literal_value(text@)),
{
    big_from_str(text)
}

/// The values among the first `n` tokens: those tagged `input:value` whose
/// text reads as a decimal.
pub open spec fn values_among(ts: Seq<TokenView>, n: int) -> Seq<(int, int)>
    decreases n,
{
    if n <= 0 {
        Seq::empty()
    } else {
        values_among(ts, n - 1) + if ts[n - 1].tag == "input:value"@ && decimal_parse(ts[n - 1].data) is Some {
            seq![decimal_parse(ts[n - 1].data)->0]
        } else {
            Seq::empty()
        }
    }
}

/// The unit keywords among the first `n` tokens: those tagged
/// `unit:keyword` whose text the host recognizes as a unit (`known`).
pub open spec fn units_among(ts: Seq<TokenView>, known: Seq<bool>, n: int) -> Seq<Seq<char>>
    decreases n,
{
    if n <= 0 {
        Seq::empty()
    } else {
        units_among(ts, known, n - 1) + if ts[n - 1].tag == "unit:keyword"@ && known[n - 1] {
            seq![ts[n - 1].data]
        } else {
            Seq::empty()
        }
    }
}

/// The translator: exactly one value and exactly one unit make the command
/// `--value <value> --unit <unit>`, the value written as `BigDecimal` writes it.
pub open spec fn spec_unit_command(ts: Seq<TokenView>, known: Seq<bool>) -> Option<Seq<Seq<char>>> {
    let vs = values_among(ts, ts.len() as int);
    let us = units_among(ts, known, ts.len() as int);
    if vs.len() == 1 && us.len() == 1 {
        Some(seq!["--value"@, decimal_text(vs[0]), "--unit"@, us[0]])
    } else {
        None
    }
}

/// Whether `BigDecimal::from_str` reads every token tagged `input:value`
/// without overflowing.
pub open spec fn values_parse_safely(ts: Seq<TokenView>) -> bool {
    forall|i: int| 0 <= i < ts.len() && ts[i].tag == "input:value"@ ==> !from_str_overflows(#[trigger] ts[i].data)
}

/// Whether `BigDecimal::from_str` reads every token tagged `input:value`
/// without overflowing.
pub fn values_parse_safely_exec(args: &Vec<Token>) -> (r: bool)
    ensures
        r == values_parse_safely(tokens_view(args@)),
{
    let ghost v = tokens_view(args@);
    let mut i: usize = 0;
    while i < args.len()
        invariant
            v == tokens_view(args@),
            i <= args@.len(),
            forall|k: int| 0 <= k < i && v[k].tag == "input:value"@ ==> !from_str_overflows(#[trigger] v[k].data),
        decreases args.len() - i,
    {
        proof {
            assert(v[i as int] == args@[i as int]@);
        }
        if crate::text::same_text(args[i].tag.as_str(), "input:value") && crate::decimal::from_str_would_overflow(args[i].data.as_str()) {
            proof {
                assert(v[i as int].tag == "input:value"@ && from_str_overflows(v[i as int].data));
            }
            return false;
        }
        i += 1;
    }
    true
}

/// Turns a request with one value and one unit into the command.
pub struct UnitTranslator;

impl UnitTranslator {
    /// `known[i]` says whether the text of `args[i]` is a unit symbol.
    pub fn parse(&self, args: &Vec<Token>, known: &Vec<bool>) -> (r: Option<CommandArgs>)
        requires
            known@.len() == args@.len(),
            values_parse_safely(tokens_view(args@)),
        ensures
            r is None ==> spec_unit_command(tokens_view(args@), known@) is None,
            r matches Some(c) ==> spec_unit_command(tokens_view(args@), known@) == Some(strings_view(c.args@)),
    {
        let ghost v = tokens_view(args@);
        let mut values: Vec<Decimal> = Vec::new();
        let mut units: Vec<String> = Vec::new();
        let ghost mut vseq: Seq<(int, int)> = Seq::empty();
        let mut i: usize = 0;
        while i < args.len()
            invariant
                v == tokens_view(args@),
                values_parse_safely(v),
                known@.len() == args@.len(),
                i <= args@.len(),
                values@.len() == vseq.len(),
                forall|k: int| 0 <= k < vseq.len() ==> #[trigger] values@[k]@ == vseq[k],
                vseq == values_among(v, i as int),
                strings_view(units@) == units_among(v, known@, i as int),
            decreases args.len() - i,
        {
            proof {
                assert(v[i as int] == args@[i as int]@);
            }
            if crate::text::same_text(args[i].tag.as_str(), "input:value") {
                proof {
                    assert(!from_str_overflows(v[i as int].data));
                }
                match parse_value(args[i].data.as_str()) {
                    Some(d) => {
                        proof {
                            vseq = vseq.push(d@);
                        }
                        values.push(d);
                    },
                    None => {
                        proof {
                            assert(vseq + Seq::<(int, int)>::empty() =~= vseq);
                        }
                    },
                }
            } else {
                proof {
                    assert(vseq + Seq::<(int, int)>::empty() =~= vseq);
                }
            }
            if crate::text::same_text(args[i].tag.as_str(), "unit:keyword") && known[i] {
                let u = copy_string(&args[i].data);
                let ghost u_old = units@;
                units.push(u);
                proof {
                    assert(strings_view(units@) =~= strings_view(u_old).push(v[i as int].data));
                }
            } else {
                proof {
                    assert(units_among(v, known@, i as int) + Seq::<Seq<char>>::empty() =~= units_among(v, known@, i as int));
                }
            }
            i += 1;
        }
        if values.len() == 1 && units.len() == 1 {
            let mut out: Vec<String> = Vec::new();
            out.push("--value".to_string());
            out.push(values[0].to_text());
            out.push("--unit".to_string());
            out.push(copy_string(&units[0]));
            proof {
                assert(strings_view(out@) =~= seq!["--value"@, decimal_text(vseq[0]), "--unit"@, strings_view(units@)[0]]);
            }
            Some(CommandArgs { args: out })
        } else {
            None
        }
    }
}

/// The value in the unit's base: the value divided by `10^(-prefix_scale)`
/// (by one when the unit has no prefix), which only moves the decimal
/// point: the mantissa stays and the scale drops by `prefix_scale`. `None`
/// where `BigDecimal`'s scale arithmetic overflows (a scale of `i64::MIN`,
/// or a new scale beyond `i64`); zero stays as it is.
pub open spec fn spec_base_value(value: (int, int), prefix_scale: int) -> Option<(int, int)> {
    if value.0 == 0 {
        Some(value)
    } else if prefix_scale == i64::MIN || !fits_i64(value.1 - prefix_scale) {
        None
    } else {
        Some((value.0, value.1 - prefix_scale))
    }
}

/// The report: the value in the requested unit, `=`, and one converted
/// value per line.
pub open spec fn spec_report(base: Seq<char>, others: Seq<Seq<char>>) -> Seq<char> {
    base + " =\n"@ + join_lines(others)
}

/// Lines joined with line breaks.
pub open spec fn join_lines(ls: Seq<Seq<char>>) -> Seq<char>
    decreases ls.len(),
{
    if ls.len() == 0 {
        Seq::empty()
    } else if ls.len() == 1 {
        ls[0]
    } else {
        join_lines(ls.drop_last()) + "\n"@ + ls.last()
    }
}

/// The command's output: the report as one plain-text block.
pub open spec fn unit_output(report: Seq<char>) -> OutputView {
    OutputView { title: "Unit Converter"@, blocks: seq![BlockView::Text(report, text_plain())], docs: Seq::empty() }
}

/// The command's arguments: the value and the unit it is given in.
#[derive(Debug)]
pub struct Args {
    pub value: String,
    pub unit: String,
}

/// The unit converter's command.
pub struct UnitCommand;

impl UnitCommand {
    /// Reads the `--value` argument.
    pub fn value(&self, args: &Args) -> (r: Option<Decimal>)
        requires
            !from_str_overflows(args.value@),
        ensures
            option_view(r) == decimal_parse(args.value@),
            is_num_literal(args.value@) && literal_readable(args.value@) ==> option_view(r) == Some(literal_value(args.value@)),
    {
        parse_value(args.value.as_str())
    }

    /// The value expressed in the unit's base, given the scale of the unit's
    /// prefix (`None` for no prefix).
    pub fn base_value(&self, value: &Decimal, prefix_scale: Option<i64>) -> (r: Option<Decimal>)
        ensures
            option_view(r) == spec_base_value(value@, match prefix_scale {
                Some(k) => k as int,
                None => 0int,
            }),
            option_view(r) == quotient_result(value@, (1int, match prefix_scale {
                Some(k) => k as int,
                None => 0int,
            })),
    {
        let k = match prefix_scale {
            Some(k) => k,
            None => 0,
        };
        let scale = Decimal::power_of_ten(k);
        value.checked_div(&scale)
    }

    /// The report text for the value in the requested unit and the values
    /// it converts to.
    pub fn report(&self, base: &String, others: &Vec<String>) -> (r: String)
        ensures
            r@ == spec_report(base@, strings_view(others@)),
    {
        let mut r = copy_string(base);
        push_str(&mut r, " =\n");
        let ghost ov = strings_view(others@);
        let ghost head = r@;
        let mut i: usize = 0;
        while i < others.len()
            invariant
                ov == strings_view(others@),
                i <= others@.len(),
                r@ == head + join_lines(ov.take(i as int)),
            decreases others.len() - i,
        {
            proof {
                assert(ov.take(i + 1).drop_last() =~= ov.take(i as int));
                assert(ov[i as int] == others@[i as int]@);
            }
            if i > 0 {
                push_str(&mut r, "\n");
            }
            push_str(&mut r, others[i].as_str());
            proof {
                if i == 0 {
                    assert(join_lines(ov.take(1)) == ov[0]);
                    assert(join_lines(ov.take(0)) =~= Seq::<char>::empty());
                }
                assert(r@ =~= head + join_lines(ov.take(i + 1)));
            }
            i += 1;
        }
        proof {
            assert(ov.take(others@.len() as int) =~= ov);
        }
        r
    }

    /// The command's output for a report.
    pub fn output(&self, report: &String) -> (r: Output)
        ensures
            r@ == unit_output(report@),
    {
        let mut blocks: Vec<Block> = Vec::new();
        blocks.push(Block::Text(copy_string(report), "text/plain".to_string()));
        let o = Output { title: "Unit Converter".to_string(), blocks, docs: Vec::new() };
        proof {
            assert(o@.blocks =~= seq![BlockView::Text(report@, text_plain())]);
            assert(o@.docs =~= Seq::<Seq<char>>::empty());
        }
        o
    }

    /// The command's priority among skills.
    pub fn priority(&self) -> (r: i32)
        ensures
            r == -10,
    {
        -10
    }
}

proof fn lemma_values_insert(ts: Seq<TokenView>, p: int, t: TokenView, n: int)
    requires
        0 <= p <= ts.len(),
        0 <= n <= ts.len(),
        !(t.tag == "input:value"@ && decimal_parse(t.data) is Some),
    ensures
        n <= p ==> values_among(ts.insert(p, t), n) == values_among(ts, n),
        p <= n ==> values_among(ts.insert(p, t), n + 1) == values_among(ts, n),
    decreases n,
{
    let ins = ts.insert(p, t);
    if n > 0 {
        lemma_values_insert(ts, p, t, n - 1);
    }
    if n <= p && n > 0 {
        assert(ins[n - 1] == ts[n - 1]);
    }
    if p <= n {
        if n == p {
            assert(ins[n] == t);
            if n == 0 {
                assert(values_among(ins, 0) =~= values_among(ts, 0));
            }
            assert(values_among(ins, n + 1) =~= values_among(ins, n));
        } else {
            assert(ins[n] == ts[n - 1]);
        }
    }
}

proof fn lemma_units_insert(ts: Seq<TokenView>, known: Seq<bool>, p: int, t: TokenView, k: bool, n: int)
    requires
        known.len() == ts.len(),
        0 <= p <= ts.len(),
        0 <= n <= ts.len(),
        !(t.tag == "unit:keyword"@ && k),
    ensures
        n <= p ==> units_among(ts.insert(p, t), known.insert(p, k), n) == units_among(ts, known, n),
        p <= n ==> units_among(ts.insert(p, t), known.insert(p, k), n + 1) == units_among(ts, known, n),
    decreases n,
{
    let ins = ts.insert(p, t);
    let kins = known.insert(p, k);
    if n > 0 {
        lemma_units_insert(ts, known, p, t, k, n - 1);
    }
    if n <= p && n > 0 {
        assert(ins[n - 1] == ts[n - 1]);
        assert(kins[n - 1] == known[n - 1]);
    }
    if p <= n {
        if n == p {
            assert(ins[n] == t);
            assert(kins[n] == k);
            if n == 0 {
                assert(units_among(ins, kins, 0) =~= units_among(ts, known, 0));
            }
            assert(units_among(ins, kins, n + 1) =~= units_among(ins, kins, n));
        } else {
            assert(ins[n] == ts[n - 1]);
            assert(kins[n] == known[n - 1]);
        }
    }
}

/// A token that is neither a value `BigDecimal::from_str` reads nor a unit
/// the host knows, inserted anywhere in a request, leaves its translation
/// unchanged.
pub proof fn law_other_tokens_ignored(ts: Seq<TokenView>, known: Seq<bool>, p: int, t: TokenView, k: bool)
    requires
        known.len() == ts.len(),
        0 <= p <= ts.len(),
        !(t.tag == "input:value"@ && decimal_parse(t.data) is Some),
        !(t.tag == "unit:keyword"@ && k),
    ensures
        spec_unit_command(ts.insert(p, t), known.insert(p, k)) == spec_unit_command(ts, known),
{
    lemma_values_insert(ts, p, t, ts.len() as int);
    lemma_units_insert(ts, known, p, t, k, ts.len() as int);
    assert(ts.insert(p, t).len() == ts.len() + 1);
}

/// The value the translator writes is read back by the command: it is a
/// decimal literal that `BigDecimal::from_str` reads without overflow, and
/// it denotes the value found in the request (at scale 0, the trailing zeros
/// written out, where that value's scale is negative).
pub proof fn law_translated_value_reads_back(ts: Seq<TokenView>, known: Seq<bool>)
    requires
        spec_unit_command(ts, known) is Some,
    ensures
        ({
            let text = spec_unit_command(ts, known)->0[1];
            let v = values_among(ts, ts.len() as int)[0];
            &&& !from_str_overflows(text)
            &&& is_num_literal(text)
            &&& literal_readable(text)
            &&& literal_value(text) == (if v.1 >= 0 { v } else { (v.0 * ten_pow((-v.1) as nat), 0int) })
        }),
{
    let v = values_among(ts, ts.len() as int)[0];
    law_text_reads_back(v);
}

/// Expressing a value in the unit's base is exact for every prefix: it is
/// the value times `10^prefix_scale`, so the base value written at any
/// scale `t` (at least the scales of both) has the mantissa the value has
/// at scale `t + prefix_scale`.
pub proof fn law_base_value_is_exact(value: (int, int), prefix_scale: int, t: int)
    requires
        spec_base_value(value, prefix_scale) is Some,
        t >= value.1,
        t + prefix_scale >= value.1,
    ensures
        (spec_base_value(value, prefix_scale)->0).1 <= t,
        at_scale(spec_base_value(value, prefix_scale)->0, t) == at_scale(value, t + prefix_scale),
{
    if value.0 == 0 {
        assert(at_scale(value, t) == 0);
        assert(at_scale(value, t + prefix_scale) == 0);
    } else {
        assert((t - (value.1 - prefix_scale)) as nat == (t + prefix_scale - value.1) as nat);
    }
}

} // verus!
