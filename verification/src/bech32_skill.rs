//! The Bech32 decoder skill.
use vstd::prelude::*;
use crate::text::copy_string;
use vstd::arithmetic::power2::pow2;
use crate::token::{Token, TokenView, CommandArgs, Block, BlockView, Output, OutputView, tokens_view, strings_view, blocks_view};

verus! {

broadcast use vstd::string::group_string_axioms;

/// What `bech32::decode` reads from a text, if anything: the human-readable
/// part (lower case), the 5-bit data values without the checksum, and
/// whether the checksum is that of Bech32m (rather than Bech32).
pub uninterp spec fn bech32_decoded(s: Seq<char>) -> Option<(Seq<char>, Seq<u8>, bool)>;

/// The number whose base-`2^from` digits are `data`, most significant first.
pub open spec fn bits_value(data: Seq<u8>, from: nat) -> nat
    decreases data.len(),
{
    if data.len() == 0 {
        0
    } else {
        bits_value(data.drop_last(), from) * pow2(from) + data.last() as nat
    }
}

/// What `bech32::convert_bits` makes of a list of values. It fails where a
/// value does not fit in `from` bits or, without padding, where `from` or
/// more bits are left over or a left-over bit is set. Otherwise the values,
/// `from` bits each, read as one string of bits, are cut into `to`-bit
/// groups; with padding, a last partial group is filled up with zero bits,
/// and without, left-over bits are dropped.
pub open spec fn converted_bits(data: Seq<u8>, from: u32, to: u32, pad: bool) -> Option<Seq<u8>> {
    let total = data.len() * from;
    let full = total / (to as int);
    let left = total - full * to;
    let n = if pad && left > 0 { full + 1 } else { full };
    let v = bits_value(data, from as nat);
    if exists|i: int| 0 <= i < data.len() && data[i] as nat >= pow2(from as nat) {
        None
    } else if !pad && (left >= from || v % pow2(left as nat) != 0) {
        None
    } else {
        let w = if pad && left > 0 { v * pow2((to - left) as nat) } else { v / pow2(left as nat) };
        Some(Seq::new(n as nat, |k: int| (w / pow2((to * (n - 1 - k)) as nat) % pow2(to as nat)) as u8))
    }
}

/// A decoded Bech32 string.
pub struct Decoded {
    pub hrp: String,
    pub data: Vec<u8>,
    pub is_bech32m: bool,
}

pub open spec fn decoded_view(r: Option<Decoded>) -> Option<(Seq<char>, Seq<u8>, bool)> {
    match r {
        Some(d) => Some((d.hrp@, d.data@, d.is_bech32m)),
        None => None,
    }
}

/// `bech32::decode`. The data values it returns are 5-bit values.
#[verifier::external_body]
pub(crate) fn bech32_decode(s: &str) -> (r: Option<Decoded>)
    ensures
        decoded_view(r) == bech32_decoded(s@),
        r matches Some(d) ==> forall|i: int| 0 <= i < d.data@.len() ==> d.data@[i] < 32,
{
    match bech32::decode(s) {
        Ok((hrp, data, variant)) => Some(Decoded {
            hrp,
            data: data.into_iter().map(|v| v.to_u8()).collect(),
            is_bech32m: variant == bech32::Variant::Bech32m,
        }),
        Err(_) => None,
    }
}

pub open spec fn bytes_option_view(r: Option<Vec<u8>>) -> Option<Seq<u8>> {
    match r {
        Some(v) => Some(v@),
        None => None,
    }
}

/// `bech32::convert_bits`: the regrouping that `converted_bits` states. It
/// panics on a group size of 0 or above 8, which `requires` leaves out.
#[verifier::external_body]
pub(crate) fn convert_bits(data: &Vec<u8>, from: u32, to: u32, pad: bool) -> (r: Option<Vec<u8>>)
    requires
        1 <= from <= 8,
        1 <= to <= 8,
    ensures
        bytes_option_view(r) == converted_bits(data@, from, to, pad),
{
    bech32::convert_bits(data, from, to, pad).ok()
}

/// Whether every token's text is a valid Bech32 string.
pub open spec fn all_bech32(ts: Seq<TokenView>) -> bool {
    forall|i: int| 0 <= i < ts.len() ==> (#[trigger] bech32_decoded(ts[i].data)) is Some
}

/// The texts of a list of tokens.
pub open spec fn texts_of(ts: Seq<TokenView>) -> Seq<Seq<char>> {
    ts.map_values(|t: TokenView| t.data)
}

/// The translator: a request all of whose tokens are Bech32 strings becomes
/// a command with those strings as arguments.
pub open spec fn spec_bech32_translate(ts: Seq<TokenView>) -> Option<Seq<Seq<char>>> {
    if all_bech32(ts) {
        Some(texts_of(ts))
    } else {
        None
    }
}

/// The blocks shown for one input: a remark naming the variant, the
/// human-readable part, and the data regrouped into bytes; nothing for an
/// input that does not decode.
pub open spec fn input_blocks(s: Seq<char>) -> Seq<BlockView> {
    match bech32_decoded(s) {
        Some((hrp, data, m)) => seq![
            BlockView::Comment(if m { "Decoding Bech32m"@ } else { "Decoding Bech32"@ }),
            BlockView::TextData(hrp),
            BlockView::Data(converted_bits(data, 5, 8, true)->0),
        ],
        None => Seq::empty(),
    }
}

/// The blocks for a list of inputs, in order.
pub open spec fn inputs_blocks(inputs: Seq<Seq<char>>) -> Seq<BlockView>
    decreases inputs.len(),
{
    if inputs.len() == 0 {
        Seq::empty()
    } else {
        inputs_blocks(inputs.drop_last()) + input_blocks(inputs.last())
    }
}

/// Recognizes requests made of Bech32 strings.
pub struct Bech32Translator;

impl Bech32Translator {
    pub fn parse(&self, args: &Vec<Token>) -> (r: Option<CommandArgs>)
        ensures
            r is None ==> spec_bech32_translate(tokens_view(args@)) is None,
            r matches Some(c) ==> spec_bech32_translate(tokens_view(args@)) == Some(strings_view(c.args@)),
    {
        let ghost v = tokens_view(args@);
        let mut out: Vec<String> = Vec::new();
        let mut i: usize = 0;
        while i < args.len()
            invariant
                v == tokens_view(args@),
                i <= args@.len(),
                forall|k: int| 0 <= k < i ==> (#[trigger] bech32_decoded(v[k].data)) is Some,
                strings_view(out@) =~= texts_of(v.take(i as int)),
            decreases args.len() - i,
        {
            proof {
                assert(v[i as int] == args@[i as int]@);
            }
            match bech32_decode(args[i].data.as_str()) {
                Some(_) => {},
                None => {
                    assert(bech32_decoded(v[i as int].data) is None);
                    return None;
                },
            }
            out.push(copy_string(&args[i].data));
            proof {
                assert(texts_of(v.take(i + 1)) =~= texts_of(v.take(i as int)).push(v[i as int].data));
            }
            i += 1;
        }
        proof {
            assert(v.take(args@.len() as int) =~= v);
        }
        Some(CommandArgs { args: out })
    }
}

/// Decodes Bech32 strings.
pub struct Bech32Command;

impl Bech32Command {
    /// Decodes each input; inputs that do not decode are passed over.
    pub fn run(&self, inputs: &Vec<String>) -> (r: Output)
        ensures
            r@ == (OutputView {
                title: "Bech32 Decoder"@,
                blocks: inputs_blocks(strings_view(inputs@)),
                docs: Seq::empty(),
            }),
    {
        let ghost iv = strings_view(inputs@);
        let mut blocks: Vec<Block> = Vec::new();
        let mut i: usize = 0;
        while i < inputs.len()
            invariant
                iv == strings_view(inputs@),
                i <= inputs@.len(),
                blocks_view(blocks@) =~= inputs_blocks(iv.take(i as int)),
            decreases inputs.len() - i,
        {
            proof {
                assert(iv.take(i + 1).drop_last() =~= iv.take(i as int));
            }
            match bech32_decode(inputs[i].as_str()) {
                Some(d) => {
                    let label = if d.is_bech32m {
                        "Decoding Bech32m".to_string()
                    } else {
                        "Decoding Bech32".to_string()
                    };
                    let bytes = match convert_bits(&d.data, 5, 8, true) {
                        Some(b) => b,
                        None => {
                            proof {
                                assert(vstd::arithmetic::power2::pow2(5) == 32) by {
                                    vstd::arithmetic::power2::lemma2_to64();
                                }
                            }
                            Vec::new()
                        },
                    };
                    blocks.push(Block::Comment(label));
                    blocks.push(Block::TextData(d.hrp));
                    blocks.push(Block::Data(bytes));
                },
                None => {},
            }
            i += 1;
        }
        proof {
            assert(iv.take(inputs@.len() as int) =~= iv);
        }
        let o = Output { title: "Bech32 Decoder".to_string(), blocks, docs: Vec::new() };
        proof {
            assert(o@.docs =~= Seq::<Seq<char>>::empty());
        }
        o
    }

    /// The command's priority among skills.
    pub fn priority(&self) -> (r: i32)
        ensures
            r == -100,
    {
        -100
    }
}

/// Every string the translator accepts is decoded by the command: for a
/// request of Bech32 strings, the command shows three blocks per string.
pub proof fn law_accepted_strings_decode(ts: Seq<TokenView>)
    requires
        spec_bech32_translate(ts) is Some,
    ensures
        inputs_blocks(spec_bech32_translate(ts)->0).len() == 3 * ts.len(),
    decreases ts.len(),
{
    if ts.len() > 0 {
        let prev = ts.drop_last();
        assert(texts_of(ts).drop_last() =~= texts_of(prev));
        assert forall|i: int| 0 <= i < prev.len() implies (#[trigger] bech32_decoded(prev[i].data)) is Some by {
            assert(prev[i] == ts[i]);
            assert(bech32_decoded(ts[i].data) is Some);
        }
        law_accepted_strings_decode(prev);
        assert(bech32_decoded(ts[ts.len() - 1].data) is Some);
        assert(texts_of(ts).last() == ts.last().data);
    }
}

proof fn lemma_bits_value_bound(d: Seq<u8>, from: nat)
    requires
        forall|i: int| 0 <= i < d.len() ==> (#[trigger] d[i] as nat) < pow2(from),
    ensures
        bits_value(d, from) < pow2(from * d.len()),
    decreases d.len(),
{
    vstd::arithmetic::power2::lemma_pow2_pos(from);
    if d.len() == 0 {
        vstd::arithmetic::power2::lemma2_to64();
        assert(from * 0 == 0) by (nonlinear_arith);
    } else {
        let prev = d.drop_last();
        assert forall|i: int| 0 <= i < prev.len() implies (#[trigger] prev[i] as nat) < pow2(from) by {
            assert(prev[i] == d[i]);
        }
        lemma_bits_value_bound(prev, from);
        let b = bits_value(prev, from) as int;
        let p = pow2(from * prev.len()) as int;
        let f = pow2(from) as int;
        let last = d.last() as int;
        assert((d[d.len() - 1] as nat) < pow2(from));
        assert(b * f + last < p * f) by (nonlinear_arith)
            requires b + 1 <= p, 0 <= last < f, f > 0;
        vstd::arithmetic::power2::lemma_pow2_adds(from * prev.len(), from);
        assert(from * prev.len() + from == from * d.len()) by (nonlinear_arith)
            requires prev.len() + 1 == d.len();
    }
}

/// The `n` base-256 digits of `w`, most significant first.
pub open spec fn byte_digits(w: nat, n: nat) -> Seq<u8> {
    Seq::new(n, |k: int| (w / pow2((8 * (n - 1 - k)) as nat) % pow2(8)) as u8)
}

proof fn lemma_byte_digits(w: nat, n: nat)
    requires
        w < pow2(8 * n),
    ensures
        bits_value(byte_digits(w, n), 8) == w,
    decreases n,
{
    vstd::arithmetic::power2::lemma2_to64();
    let ds = byte_digits(w, n);
    if n == 0 {
        assert(8 * n == 0);
    } else {
        let w2 = w / 256;
        let n2 = (n - 1) as nat;
        vstd::arithmetic::power2::lemma_pow2_adds(8, 8 * n2);
        assert(8 + 8 * n2 == 8 * n);
        vstd::arithmetic::div_mod::lemma_fundamental_div_mod(w as int, 256);
        vstd::arithmetic::div_mod::lemma_mod_bound(w as int, 256);
        assert(w2 < pow2(8 * n2)) by (nonlinear_arith)
            requires w < 256 * pow2(8 * n2), w == 256 * w2 + w % 256, w % 256 >= 0;
        lemma_byte_digits(w2, n2);
        assert forall|k: int| 0 <= k < n2 implies #[trigger] ds.drop_last()[k] == byte_digits(w2, n2)[k] by {
            let e = (8 * (n2 - 1 - k)) as nat;
            vstd::arithmetic::power2::lemma_pow2_pos(e);
            vstd::arithmetic::div_mod::lemma_div_denominator(w as int, 256, pow2(e) as int);
            vstd::arithmetic::power2::lemma_pow2_adds(8, e);
            assert((8 * (n - 1 - k)) as nat == 8 + e);
        }
        assert(ds.drop_last() =~= byte_digits(w2, n2));
        let lastk: int = n - 1;
        assert((8 * (n - 1 - lastk)) as nat == 0);
        assert(pow2(0) == 1);
        assert(w / 1 == w);
        assert(ds[lastk] == ((w / pow2(0)) % pow2(8)) as u8);
        assert(ds.last() == ds[lastk]);
        assert(ds.last() as int == w % 256);
    }
}

/// The bytes shown for a decoded input are its 5-bit values regrouped into
/// bytes: as many bytes as it takes to hold all the bits (the last one
/// filled up with zero bits), and read as one base-256 number they give the
/// base-32 number the values form, shifted left by those padding bits.
pub proof fn law_decoded_data_is_regrouped(s: Seq<char>)
    requires
        bech32_decoded(s) is Some,
        forall|i: int| 0 <= i < (bech32_decoded(s)->0).1.len() ==> (#[trigger] (bech32_decoded(s)->0).1[i]) < 32,
    ensures
        input_blocks(s).len() == 3,
        input_blocks(s)[2] matches BlockView::Data(b)
            && b.len() == (5 * (bech32_decoded(s)->0).1.len() + 7) / 8
            && bits_value(b, 8) == bits_value((bech32_decoded(s)->0).1, 5)
                * pow2((8 * b.len() - 5 * (bech32_decoded(s)->0).1.len()) as nat),
{
    let d = (bech32_decoded(s)->0).1;
    vstd::arithmetic::power2::lemma2_to64();
    assert forall|i: int| 0 <= i < d.len() implies (#[trigger] d[i] as nat) < pow2(5) by {}
    lemma_bits_value_bound(d, 5);
    let total = d.len() * 5;
    let full = total / 8;
    let left = total - full * 8;
    let n: nat = (if left > 0 { full + 1 } else { full }) as nat;
    let v = bits_value(d, 5);
    let w: nat = if left > 0 { v * pow2((8 - left) as nat) } else { v / pow2(0) };
    assert(!(exists|i: int| 0 <= i < d.len() && d[i] as nat >= pow2(5u32 as nat)));
    let b = converted_bits(d, 5, 8, true)->0;
    assert(b =~= byte_digits(w, n));
    assert(5 * d.len() == total);
    if left > 0 {
        vstd::arithmetic::power2::lemma_pow2_adds(total as nat, (8 - left) as nat);
        assert(total + (8 - left) == 8 * n);
        vstd::arithmetic::power2::lemma_pow2_pos((8 - left) as nat);
        assert(w < pow2(8 * n)) by (nonlinear_arith)
            requires v < pow2(total as nat), w == v * pow2((8 - left) as nat), pow2((8 - left) as nat) > 0,
                pow2((8 * n) as nat) == pow2(total as nat) * pow2((8 - left) as nat);
        assert((8 * n - 5 * d.len()) as nat == (8 - left) as nat);
    } else {
        assert(w == v);
        assert(total == 8 * n);
        assert((8 * n - 5 * d.len()) as nat == 0);
        assert(v * pow2(0) == v);
    }
    lemma_byte_digits(w, n);
}

} // verus!
