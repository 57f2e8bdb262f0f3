//! Preparing training data for the skill models, and laying out the
//! trained models of all skills in one blob.
use vstd::prelude::*;
use crate::text::copy_string;
use crate::token::{Token, TokenView, tokens_view, strings_view, plain_token};
use crate::compression::sentences_view;

verus! {

broadcast use vstd::string::group_string_axioms;

/// The sentence with greetings in front: `Yozuk,` and `Hi Yozuk,`.
pub open spec fn spec_greetings(ts: Seq<TokenView>) -> Seq<Seq<TokenView>> {
    seq![
        seq![plain_token("Yozuk,"@, ""@)] + ts,
        seq![plain_token("Hi"@, ""@), plain_token("Yozuk,"@, ""@)] + ts,
    ]
}

/// The greeting variants of a sentence, then the sentence itself.
pub open spec fn spec_wordiness(ts: Seq<TokenView>) -> Seq<Seq<TokenView>> {
    spec_greetings(ts) + seq![ts]
}

fn copy_tokens(ts: &Vec<Token>, out: &mut Vec<Token>)
    ensures
        tokens_view(final(out)@) == tokens_view(old(out)@) + tokens_view(ts@),
{
    let ghost start = tokens_view(out@);
    let mut i: usize = 0;
    while i < ts.len()
        invariant
            i <= ts@.len(),
            tokens_view(out@) == start + tokens_view(ts@).take(i as int),
        decreases ts.len() - i,
    {
        let t = ts[i].copy();
        let ghost o = out@;
        out.push(t);
        proof {
            assert(tokens_view(out@) =~= tokens_view(o).push(ts@[i as int]@));
            assert(tokens_view(ts@).take(i + 1) =~= tokens_view(ts@).take(i as int).push(ts@[i as int]@));
        }
        i += 1;
    }
    proof {
        assert(tokens_view(ts@).take(ts@.len() as int) =~= tokens_view(ts@));
    }
}

/// The sentence with greetings in front.
pub fn generate_wordiness_greetings(tokens: &Vec<Token>) -> (r: Vec<Vec<Token>>)
    ensures
        sentences_view(r@) == spec_greetings(tokens_view(tokens@)),
{
    let ghost tv = tokens_view(tokens@);
    let mut a: Vec<Token> = Vec::new();
    a.push(Token::plain("Yozuk,"));
    copy_tokens(tokens, &mut a);
    let mut b: Vec<Token> = Vec::new();
    b.push(Token::plain("Hi"));
    b.push(Token::plain("Yozuk,"));
    copy_tokens(tokens, &mut b);
    let ghost (av, bv) = (tokens_view(a@), tokens_view(b@));
    let mut r: Vec<Vec<Token>> = Vec::new();
    r.push(a);
    r.push(b);
    proof {
        assert(av =~= seq![plain_token("Yozuk,"@, ""@)] + tv);
        assert(bv =~= seq![plain_token("Hi"@, ""@), plain_token("Yozuk,"@, ""@)] + tv);
        assert(sentences_view(r@) =~= spec_greetings(tv));
    }
    r
}

/// The greeting variants of a sentence, then the sentence itself.
pub fn generate_wordiness(data: Vec<Token>) -> (r: Vec<Vec<Token>>)
    ensures
        sentences_view(r@) == spec_wordiness(tokens_view(data@)),
{
    let mut r = generate_wordiness_greetings(&data);
    let ghost dv = tokens_view(data@);
    let ghost r0 = sentences_view(r@);
    r.push(data);
    proof {
        assert(sentences_view(r@) =~= r0 + seq![dv]);
    }
    r
}

/// The labels of a sentence of the skill itself: the tokens' tags.
pub open spec fn spec_positive_labels(ts: Seq<TokenView>) -> Seq<Seq<char>> {
    ts.map_values(|t: TokenView| t.tag)
}

/// The label of a token in another skill's sentence: `-` stays `-`, any
/// other tag becomes `*`.
pub open spec fn negative_label(tag: Seq<char>) -> Seq<char> {
    if tag == "-"@ {
        "-"@
    } else {
        "*"@
    }
}

/// The labels of a sentence of another skill.
pub open spec fn spec_negative_labels(ts: Seq<TokenView>) -> Seq<Seq<char>> {
    ts.map_values(|t: TokenView| negative_label(t.tag))
}

/// The labels that train a skill's model on one of its own sentences.
pub fn positive_labels(tokens: &Vec<Token>) -> (r: Vec<String>)
    ensures
        strings_view(r@) == spec_positive_labels(tokens_view(tokens@)),
{
    let ghost tv = tokens_view(tokens@);
    let mut r: Vec<String> = Vec::new();
    let mut i: usize = 0;
    while i < tokens.len()
        invariant
            tv == tokens_view(tokens@),
            i <= tokens@.len(),
            strings_view(r@) =~= spec_positive_labels(tv.take(i as int)),
        decreases tokens.len() - i,
    {
        let l = copy_string(&tokens[i].tag);
        let ghost o = r@;
        r.push(l);
        proof {
            assert(strings_view(r@) =~= strings_view(o).push(tv[i as int].tag));
            assert(spec_positive_labels(tv.take(i + 1)) =~= spec_positive_labels(tv.take(i as int)).push(tv[i as int].tag));
        }
        i += 1;
    }
    proof {
        assert(tv.take(tokens@.len() as int) =~= tv);
    }
    r
}

/// The labels that train a skill's model against another skill's sentence.
pub fn negative_labels(tokens: &Vec<Token>) -> (r: Vec<String>)
    ensures
        strings_view(r@) == spec_negative_labels(tokens_view(tokens@)),
{
    let ghost tv = tokens_view(tokens@);
    let mut r: Vec<String> = Vec::new();
    let mut i: usize = 0;
    while i < tokens.len()
        invariant
            tv == tokens_view(tokens@),
            i <= tokens@.len(),
            strings_view(r@) =~= spec_negative_labels(tv.take(i as int)),
        decreases tokens.len() - i,
    {
        let l = if crate::text::same_text(tokens[i].tag.as_str(), "-") {
            "-".to_string()
        } else {
            "*".to_string()
        };
        let ghost o = r@;
        r.push(l);
        proof {
            assert(strings_view(r@) =~= strings_view(o).push(negative_label(tv[i as int].tag)));
            assert(spec_negative_labels(tv.take(i + 1)) =~= spec_negative_labels(tv.take(i as int)).push(negative_label(tv[i as int].tag)));
        }
        i += 1;
    }
    proof {
        assert(tv.take(tokens@.len() as int) =~= tv);
    }
    r
}

/// Whether `a` orders before `b`: code point by code point, a proper
/// prefix first (the order of `str`).
pub open spec fn text_lt(a: Seq<char>, b: Seq<char>) -> bool
    decreases a.len(),
{
    if a.len() == 0 {
        b.len() > 0
    } else if b.len() == 0 {
        false
    } else if a[0] != b[0] {
        (a[0] as u32) < (b[0] as u32)
    } else {
        text_lt(a.drop_first(), b.drop_first())
    }
}

/// Whether the texts are in ascending order.
pub open spec fn texts_sorted(s: Seq<Seq<char>>) -> bool {
    forall|i: int, j: int| 0 <= i < j < s.len() ==> !text_lt(#[trigger] s[j], #[trigger] s[i])
}

/// `sort` on a list of strings: the same strings, in ascending order.
#[verifier::external_body]
fn sort_texts(v: &mut Vec<String>)
    ensures
        strings_view(final(v)@).to_multiset() == strings_view(old(v)@).to_multiset(),
        texts_sorted(strings_view(final(v)@)),
{
    v.sort();
}

/// The index that `binary_search` finds for a key in a list of strings.
pub uninterp spec fn search_position(keys: Seq<Seq<char>>, key: Seq<char>) -> Option<int>;

/// An optional index as an integer.
pub open spec fn index_view(r: Option<usize>) -> Option<int> {
    match r {
        Some(i) => Some(i as int),
        None => None,
    }
}

/// Whether `binary_search` finds `key` in `keys`, at an index holding it.
pub open spec fn found_at(keys: Seq<Seq<char>>, key: Seq<char>) -> bool {
    match search_position(keys, key) {
        Some(i) => 0 <= i < keys.len() && keys[i] == key,
        None => false,
    }
}

/// `binary_search` on a list of strings: an index holding the key, if it
/// finds one; on a sorted list it finds one whenever the key is there.
#[verifier::external_body]
fn search_text(keys: &Vec<String>, key: &String) -> (r: Option<usize>)
    ensures
        index_view(r) == search_position(strings_view(keys@), key@),
        r matches Some(i) ==> i < keys@.len() && keys@[i as int]@ == key@,
        texts_sorted(strings_view(keys@)) && strings_view(keys@).contains(key@) ==> r is Some,
{
    keys.binary_search(key).ok()
}

/// The trained models of all skills in one blob: the skill keys in
/// ascending order and, for each key, the range of its model in `data`.
#[derive(Debug)]
pub struct ModelSet {
    pub data: Vec<u8>,
    pub keys: Vec<String>,
    pub ranges: Vec<(usize, usize)>,
}

/// The keys and models of a list of trained skills.
pub open spec fn models_view(d: Seq<(String, Vec<u8>)>) -> Seq<(Seq<char>, Seq<u8>)> {
    d.map_values(|m: (String, Vec<u8>)| (m.0@, m.1@))
}

/// The ranges as integer pairs.
pub open spec fn ranges_view(r: Seq<(usize, usize)>) -> Seq<(int, int)> {
    r.map_values(|p: (usize, usize)| (p.0 as int, p.1 as int))
}

/// The blob and the ranges after laying out the models one after another:
/// each model's range is recorded at the index that `binary_search` finds
/// for its key; keys without a model keep the empty range `0..0`.
pub open spec fn layout(keys: Seq<Seq<char>>, models: Seq<(Seq<char>, Seq<u8>)>) -> (Seq<u8>, Seq<(int, int)>)
    decreases models.len(),
{
    if models.len() == 0 {
        (Seq::empty(), Seq::new(keys.len(), |i: int| (0int, 0int)))
    } else {
        let (d, r) = layout(keys, models.drop_last());
        let (k, bytes) = models.last();
        let i = search_position(keys, k)->0;
        (d + bytes, r.update(i, (d.len() as int, (d.len() + bytes.len()) as int)))
    }
}

/// The total size of the models.
pub open spec fn total_size(models: Seq<(Seq<char>, Seq<u8>)>) -> int
    decreases models.len(),
{
    if models.len() == 0 {
        0
    } else {
        total_size(models.drop_last()) + models.last().1.len()
    }
}

proof fn lemma_layout_len(keys: Seq<Seq<char>>, models: Seq<(Seq<char>, Seq<u8>)>)
    requires
        forall|j: int| 0 <= j < models.len() ==> found_at(keys, #[trigger] models[j].0),
    ensures
        layout(keys, models).0.len() == total_size(models),
        layout(keys, models).1.len() == keys.len(),
    decreases models.len(),
{
    if models.len() > 0 {
        let prev = models.drop_last();
        assert forall|j: int| 0 <= j < prev.len() implies found_at(keys, #[trigger] prev[j].0) by {
            assert(prev[j] == models[j]);
        }
        lemma_layout_len(keys, prev);
        assert(found_at(keys, models[models.len() - 1].0));
    }
}

proof fn lemma_total_size_prefix(models: Seq<(Seq<char>, Seq<u8>)>, j: int)
    requires
        0 <= j <= models.len(),
    ensures
        0 <= total_size(models.take(j)) <= total_size(models),
    decreases models.len() - j,
{
    if j < models.len() {
        lemma_total_size_prefix(models, j + 1);
        assert(models.take(j + 1).drop_last() =~= models.take(j));
    } else {
        assert(models.take(j) =~= models);
    }
    lemma_total_size_nonneg(models.take(j));
}

proof fn lemma_total_size_nonneg(models: Seq<(Seq<char>, Seq<u8>)>)
    ensures
        total_size(models) >= 0,
    decreases models.len(),
{
    if models.len() > 0 {
        lemma_total_size_nonneg(models.drop_last());
    }
}

/// Lays out the trained models of all skills: the keys are sorted and each
/// model is appended to the blob, its range recorded under its key.
/// Every model's key must be among `keys`.
pub fn modelgen(keys: Vec<String>, dataset: Vec<(String, Vec<u8>)>) -> (r: ModelSet)
    requires
        forall|j: int| 0 <= j < dataset@.len() ==> strings_view(keys@).contains(#[trigger] dataset@[j].0@),
        total_size(models_view(dataset@)) <= usize::MAX,
    ensures
        strings_view(r.keys@).to_multiset() == strings_view(keys@).to_multiset(),
        texts_sorted(strings_view(r.keys@)),
        forall|j: int| 0 <= j < dataset@.len() ==> found_at(strings_view(r.keys@), #[trigger] models_view(dataset@)[j].0),
        (r.data@, ranges_view(r.ranges@)) == layout(strings_view(r.keys@), models_view(dataset@)),
{
    let mut keys = keys;
    let ghost original = strings_view(keys@);
    sort_texts(&mut keys);
    let ghost kv = strings_view(keys@);
    let ghost mv = models_view(dataset@);
    proof {
        broadcast use vstd::seq_lib::group_to_multiset_ensures;
        assert forall|j: int| 0 <= j < dataset@.len() implies kv.contains(#[trigger] dataset@[j].0@) by {
            assert(original.contains(dataset@[j].0@));
            assert(original.to_multiset().count(dataset@[j].0@) > 0);
        }
    }
    let mut ranges: Vec<(usize, usize)> = Vec::new();
    let mut z: usize = 0;
    while z < keys.len()
        invariant
            z <= keys@.len(),
            ranges@.len() == z,
            forall|i: int| 0 <= i < z ==> #[trigger] ranges@[i] == (0usize, 0usize),
        decreases keys.len() - z,
    {
        ranges.push((0, 0));
        z += 1;
    }
    let mut data: Vec<u8> = Vec::new();
    proof {
        assert(ranges_view(ranges@) =~= Seq::new(kv.len(), |i: int| (0int, 0int)));
        assert(mv.take(0) =~= Seq::<(Seq<char>, Seq<u8>)>::empty());
    }
    let mut j: usize = 0;
    while j < dataset.len()
        invariant
            kv == strings_view(keys@),
            mv == models_view(dataset@),
            texts_sorted(kv),
            forall|k: int| 0 <= k < dataset@.len() ==> kv.contains(#[trigger] dataset@[k].0@),
            total_size(mv) <= usize::MAX,
            j <= dataset@.len(),
            forall|k: int| 0 <= k < j ==> found_at(kv, #[trigger] mv[k].0),
            (data@, ranges_view(ranges@)) == layout(kv, mv.take(j as int)),
        decreases dataset.len() - j,
    {
        proof {
            assert(mv.take(j + 1).drop_last() =~= mv.take(j as int));
            assert(mv[j as int] == (dataset@[j as int].0@, dataset@[j as int].1@));
        }
        let idx = match search_text(&keys, &dataset[j].0) {
            Some(i) => i,
            None => {
                proof {
                    assert(kv.contains(dataset@[j as int].0@));
                }
                return ModelSet { data, keys, ranges };
            },
        };
        proof {
            assert(found_at(kv, mv[j as int].0));
            assert forall|k: int| 0 <= k < j + 1 implies found_at(kv, #[trigger] mv.take(j + 1)[k].0) by {
                assert(mv.take(j + 1)[k] == mv[k]);
            }
            assert forall|k: int| 0 <= k < j implies found_at(kv, #[trigger] mv.take(j as int)[k].0) by {
                assert(mv.take(j as int)[k] == mv[k]);
            }
            lemma_layout_len(kv, mv.take(j as int));
            lemma_layout_len(kv, mv.take(j + 1));
            lemma_total_size_prefix(mv, j + 1);
        }
        let start = data.len();
        let bytes = &dataset[j].1;
        let ghost d0 = data@;
        let mut b: usize = 0;
        while b < bytes.len()
            invariant
                b <= bytes@.len(),
                data@ == d0 + bytes@.take(b as int),
            decreases bytes.len() - b,
        {
            data.push(bytes[b]);
            proof {
                assert(bytes@.take(b + 1) =~= bytes@.take(b as int).push(bytes@[b as int]));
            }
            b += 1;
        }
        proof {
            assert(bytes@.take(bytes@.len() as int) =~= bytes@);
        }
        let end = data.len();
        let ghost r0 = ranges@;
        ranges.set(idx, (start, end));
        proof {
            assert(ranges_view(ranges@) =~= ranges_view(r0).update(idx as int, (start as int, end as int)));
        }
        j += 1;
    }
    proof {
        assert(mv.take(dataset@.len() as int) =~= mv);
    }
    ModelSet { data, keys, ranges }
}

/// The models one after another.
pub open spec fn joined_models(models: Seq<(Seq<char>, Seq<u8>)>) -> Seq<u8>
    decreases models.len(),
{
    if models.len() == 0 {
        Seq::empty()
    } else {
        joined_models(models.drop_last()) + models.last().1
    }
}

/// The blob is exactly the models one after another; there is one range
/// per key; every range lies within the blob; no two ranges overlap; and a
/// key that no model has keeps the empty range `0..0`.
pub proof fn law_ranges_partition_data(keys: Seq<Seq<char>>, models: Seq<(Seq<char>, Seq<u8>)>)
    requires
        forall|j: int| 0 <= j < models.len() ==> found_at(keys, #[trigger] models[j].0),
    ensures
        layout(keys, models).0 == joined_models(models),
        layout(keys, models).1.len() == keys.len(),
        forall|i: int| 0 <= i < keys.len() ==> {
            let r = #[trigger] layout(keys, models).1[i];
            0 <= r.0 <= r.1 <= layout(keys, models).0.len()
        },
        forall|i1: int, i2: int| 0 <= i1 < keys.len() && 0 <= i2 < keys.len() && i1 != i2 ==> {
            let r1 = #[trigger] layout(keys, models).1[i1];
            let r2 = #[trigger] layout(keys, models).1[i2];
            r1.1 <= r2.0 || r2.1 <= r1.0
        },
        forall|i: int| 0 <= i < keys.len() && (forall|j: int| 0 <= j < models.len() ==> #[trigger] models[j].0 != keys[i])
            ==> #[trigger] layout(keys, models).1[i] == (0int, 0int),
    decreases models.len(),
{
    lemma_layout_len(keys, models);
    if models.len() > 0 {
        let prev = models.drop_last();
        assert forall|j: int| 0 <= j < prev.len() implies found_at(keys, #[trigger] prev[j].0) by {
            assert(prev[j] == models[j]);
        }
        law_ranges_partition_data(keys, prev);
        lemma_layout_len(keys, prev);
        let (d0, r0) = layout(keys, prev);
        let (k, bytes) = models.last();
        let last = models.len() - 1;
        assert(found_at(keys, models[last].0));
        let il = search_position(keys, k)->0;
        let (d, r) = layout(keys, models);
        assert(d == d0 + bytes);
        assert(r == r0.update(il, (d0.len() as int, (d0.len() + bytes.len()) as int)));
        assert forall|i: int| 0 <= i < keys.len() implies {
            let x = #[trigger] layout(keys, models).1[i];
            0 <= x.0 <= x.1 <= layout(keys, models).0.len()
        } by {
            if i != il {
                assert(r[i] == r0[i]);
            }
        }
        assert forall|i1: int, i2: int| 0 <= i1 < keys.len() && 0 <= i2 < keys.len() && i1 != i2 implies {
            let r1 = #[trigger] layout(keys, models).1[i1];
            let r2 = #[trigger] layout(keys, models).1[i2];
            r1.1 <= r2.0 || r2.1 <= r1.0
        } by {
            if i1 == il {
                assert(r[i2] == r0[i2]);
                assert(r0[i2].1 <= d0.len());
            } else if i2 == il {
                assert(r[i1] == r0[i1]);
                assert(r0[i1].1 <= d0.len());
            } else {
                assert(r[i1] == r0[i1]);
                assert(r[i2] == r0[i2]);
                assert(r0[i1] == layout(keys, prev).1[i1]);
                assert(r0[i2] == layout(keys, prev).1[i2]);
            }
        }
        assert forall|i: int| 0 <= i < keys.len() && (forall|j: int| 0 <= j < models.len() ==> #[trigger] models[j].0 != keys[i])
            implies #[trigger] layout(keys, models).1[i] == (0int, 0int) by {
            assert(models[last].0 != keys[i]);
            assert(i != il);
            assert forall|j: int| 0 <= j < prev.len() implies #[trigger] prev[j].0 != keys[i] by {
                assert(prev[j] == models[j]);
            }
            assert(r[i] == r0[i]);
        }
    } else {
        assert(layout(keys, models).0 =~= joined_models(models));
    }
}

/// When the models' keys are distinct and each is found among the sorted
/// keys, every model can be read back from the blob through the range
/// recorded at its key's position.
pub proof fn law_models_found_by_key(keys: Seq<Seq<char>>, models: Seq<(Seq<char>, Seq<u8>)>)
    requires
        forall|j: int| 0 <= j < models.len() ==> found_at(keys, #[trigger] models[j].0),
        forall|j1: int, j2: int| 0 <= j1 < j2 < models.len() ==> #[trigger] models[j1].0 != #[trigger] models[j2].0,
    ensures
        forall|j: int| 0 <= j < models.len() ==> {
            let i = search_position(keys, (#[trigger] models[j]).0)->0;
            let (d, r) = layout(keys, models);
            &&& 0 <= r[i].0 <= r[i].1 <= d.len()
            &&& d.subrange(r[i].0, r[i].1) == models[j].1
        },
    decreases models.len(),
{
    if models.len() > 0 {
        let prev = models.drop_last();
        assert forall|j: int| 0 <= j < prev.len() implies found_at(keys, #[trigger] prev[j].0) by {
            assert(prev[j] == models[j]);
        }
        assert forall|j1: int, j2: int| 0 <= j1 < j2 < prev.len() implies #[trigger] prev[j1].0 != #[trigger] prev[j2].0 by {
            assert(prev[j1] == models[j1]);
            assert(prev[j2] == models[j2]);
        }
        law_models_found_by_key(keys, prev);
        lemma_layout_len(keys, prev);
        let (d0, r0) = layout(keys, prev);
        let (k, bytes) = models.last();
        let last = models.len() - 1;
        assert(found_at(keys, models[last].0));
        let il = search_position(keys, k)->0;
        let (d, r) = layout(keys, models);
        assert forall|j: int| 0 <= j < models.len() implies {
            let i = search_position(keys, (#[trigger] models[j]).0)->0;
            &&& 0 <= r[i].0 <= r[i].1 <= d.len()
            &&& d.subrange(r[i].0, r[i].1) == models[j].1
        } by {
            let i = search_position(keys, models[j].0)->0;
            if j == last {
                assert(d.subrange(d0.len() as int, d.len() as int) =~= bytes);
            } else {
                assert(prev[j] == models[j]);
                assert(models[j].0 != models[last].0);
                assert(i != il);
                assert(r[i] == r0[i]);
                assert(d.subrange(r[i].0, r[i].1) =~= d0.subrange(r0[i].0, r0[i].1));
            }
        }
    }
}

} // verus!
