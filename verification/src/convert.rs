use vstd::prelude::*;
use vstd::string::StringExecFns;

use crate::data::SpecValue;
use crate::data::Value;
use crate::data::emodel;
use crate::data::lemma_sv_unfold;
use crate::data::sv;
use crate::data::vmodel;
use crate::decode::RawDoc;
use crate::decode::SpecRaw;
use crate::decode::lemma_rv_entries_index;
use crate::decode::lemma_rv_items_index;
use crate::decode::rv;
use crate::query::find_entry;
use crate::query::find_key;
use crate::query::lemma_find_key;
use crate::text::ascii_lower;
use crate::text::spec_lower;
use crate::text::str_eq;

verus! {

/// Number texts that do not name a finite number.
pub open spec fn is_nonfinite_text(t: Seq<char>) -> bool {
    t == seq!['.', 'n', 'a', 'n'] || t == seq!['.', 'i', 'n', 'f'] || t == seq![
        '-',
        '.',
        'i',
        'n',
        'f',
    ]
}

/// A number as a value: one that is not finite becomes the sentinel
/// not-a-number value.
pub open spec fn number_value(t: Seq<char>) -> SpecValue {
    if is_nonfinite_text(t) {
        SpecValue::Num(seq!['.', 'n', 'a', 'n'])
    } else {
        SpecValue::Num(t)
    }
}

/// What a raw key is stringified to: null becomes the empty name, a
/// boolean its text, a number its text; a list or dictionary key cannot
/// be a path name and is dropped.
pub open spec fn key_text(k: SpecRaw) -> Option<Seq<char>> {
    match k {
        SpecRaw::Null => Some(Seq::empty()),
        SpecRaw::Text(t) => Some(t),
        SpecRaw::Flag(b) => Some(
            if b {
                seq!['t', 'r', 'u', 'e']
            } else {
                seq!['f', 'a', 'l', 's', 'e']
            },
        ),
        SpecRaw::Num(t) => Some(t),
        _ => None,
    }
}

/// Inserts a key into mapping entries: a repeated key replaces the value
/// at its first occurrence, a new key goes to the end.
pub open spec fn dict_put(
    acc: Seq<(Seq<char>, SpecValue)>,
    k: Seq<char>,
    v: SpecValue,
) -> Seq<(Seq<char>, SpecValue)> {
    let j = find_key(acc, k, 0);
    if j < acc.len() {
        acc.update(j, (k, v))
    } else {
        acc.push((k, v))
    }
}

/// The conversion rules from a decoded document to a value: scalars carry
/// over, a non-finite number becomes the sentinel, list items convert in
/// order, and dictionary entries become a mapping whose keys are
/// stringified and lower-cased, complex keys dropped, repeated keys
/// overwritten.
pub open spec fn conv(d: SpecRaw) -> SpecValue
    decreases d, 1int, 0int,
{
    match d {
        SpecRaw::Null => SpecValue::Null,
        SpecRaw::Text(t) => SpecValue::Str(t),
        SpecRaw::Flag(b) => SpecValue::Bool(b),
        SpecRaw::Num(t) => number_value(t),
        SpecRaw::List(_) => SpecValue::List(conv_items(d, 0)),
        SpecRaw::Dict(_) => SpecValue::Dict(conv_dict(d, 0, Seq::empty())),
    }
}

/// How many immediate children a raw model node has.
pub open spec fn sraw_count(d: SpecRaw) -> nat {
    match d {
        SpecRaw::List(items) => items.len(),
        SpecRaw::Dict(entries) => entries.len(),
        _ => 0,
    }
}

/// The converted items of a raw list model, from index `i` on.
pub open spec fn conv_items(d: SpecRaw, i: int) -> Seq<SpecValue>
    decreases d, 0int, sraw_count(d) - i,
    via conv_items_decreases
{
    if d is List && 0 <= i < sraw_count(d) {
        seq![conv(d->List_0[i])] + conv_items(d, i + 1)
    } else {
        Seq::empty()
    }
}

#[via_fn]
proof fn conv_items_decreases(d: SpecRaw, i: int) {
    if d is List && 0 <= i < sraw_count(d) {
        assert(decreases_to!(d => d->List_0[i]));
    }
}

/// The converted entries of a raw dictionary model from index `i` on,
/// folded over the mapping built so far.
pub open spec fn conv_dict(d: SpecRaw, i: int, acc: Seq<(Seq<char>, SpecValue)>) -> Seq<
    (Seq<char>, SpecValue),
>
    decreases d, 0int, sraw_count(d) - i,
    via conv_dict_decreases
{
    if d is Dict && 0 <= i < sraw_count(d) {
        let e = d->Dict_0[i];
        match key_text(e.0) {
            Some(kt) => conv_dict(d, i + 1, dict_put(acc, spec_lower(kt), conv(e.1))),
            None => conv_dict(d, i + 1, acc),
        }
    } else {
        acc
    }
}

#[via_fn]
proof fn conv_dict_decreases(d: SpecRaw, i: int, acc: Seq<(Seq<char>, SpecValue)>) {
    if d is Dict && 0 <= i < sraw_count(d) {
        assert(decreases_to!(d => d->Dict_0[i].1));
    }
}

/// Stringifies a raw key, mirroring `key_text`.
fn key_text_exec(k: RawDoc) -> (r: Option<String>)
    ensures
        match key_text(rv(k)) {
            Some(t) => r is Some && r->0@ == t,
            None => r is None,
        },
{
    match k {
        RawDoc::Null => Some(String::new()),
        RawDoc::Text(t) => Some(t),
        RawDoc::Flag(b) => {
            proof {
                reveal_strlit("true");
                reveal_strlit("false");
                assert("true"@ =~= seq!['t', 'r', 'u', 'e']);
                assert("false"@ =~= seq!['f', 'a', 'l', 's', 'e']);
            }
            if b {
                Some(String::from_str("true"))
            } else {
                Some(String::from_str("false"))
            }
        },
        RawDoc::Num(t) => Some(t),
        _ => None,
    }
}

impl Value {
    /// Applies the conversion rules to a decoded document, yielding
    /// exactly the value `conv` describes.
    #[verifier::loop_isolation(false)]
    #[verifier::rlimit(60)]
    pub fn from_raw(d: RawDoc) -> (r: Value)
        ensures
            r@ == conv(d@),
        decreases d,
    {
        let ghost gd = rv(d);
        match d {
            RawDoc::Null => Value::Null,
            RawDoc::Text(t) => Value::String(t),
            RawDoc::Flag(b) => Value::Boolean(b),
            RawDoc::Num(t) => {
                proof {
                    reveal_strlit(".nan");
                    reveal_strlit(".inf");
                    reveal_strlit("-.inf");
                    assert(".nan"@ =~= seq!['.', 'n', 'a', 'n']);
                    assert(".inf"@ =~= seq!['.', 'i', 'n', 'f']);
                    assert("-.inf"@ =~= seq!['-', '.', 'i', 'n', 'f']);
                }
                let nf = str_eq(t.as_str(), ".nan") || str_eq(t.as_str(), ".inf") || str_eq(
                    t.as_str(),
                    "-.inf",
                );
                if nf {
                    Value::Number(String::from_str(".nan"))
                } else {
                    Value::Number(t)
                }
            },
            RawDoc::List(mut items) => {
                let ghost gits = items@;
                proof {
                    lemma_rv_items_index(RawDoc::List(items), 0);
                }
                let mut out: Vec<Value> = Vec::new();
                let mut k: usize = 0;
                let n = items.len();
                proof {
                    assert(gd->List_0 =~= rv_items_seq_helper(gits));
                }
                while k < n
                    invariant
                        k <= n,
                        n == gits.len(),
                        items@ == gits.skip(k as int),
                        out@.len() == k,
                        forall|j: int|
                            0 <= j < k ==> sv(#[trigger] out@[j]) == conv(gd->List_0[j]),
                    decreases n - k,
                {
                    let x = items.remove(0);
                    proof {
                        assert(gits.skip(k as int)[0] == gits[k as int]);
                        assert(x == gits[k as int]);
                        assert(gd->List_0[k as int] == rv(gits[k as int]));
                        assert(decreases_to!(d => x));
                        assert(gits.skip(k as int).drop_first() =~= gits.skip(k + 1));
                    }
                    let c = Value::from_raw(x);
                    out.push(c);
                    k = k + 1;
                }
                let result = Value::Sequence(out);
                proof {
                    lemma_sv_unfold(result);
                    lemma_conv_items_index(gd, 0);
                    assert(vmodel(result->Sequence_0@) =~= conv_items(gd, 0));
                }
                result
            },
            RawDoc::Dict(mut entries) => {
                let ghost ges = entries@;
                proof {
                    lemma_rv_entries_index(RawDoc::Dict(entries), 0);
                }
                let mut out: Vec<(String, Value)> = Vec::new();
                let mut k: usize = 0;
                let n = entries.len();
                proof {
                    assert(emodel(out@) =~= Seq::<(Seq<char>, SpecValue)>::empty());
                }
                while k < n
                    invariant
                        k <= n,
                        n == ges.len(),
                        entries@ == ges.skip(k as int),
                        conv_dict(gd, 0, Seq::empty()) == conv_dict(gd, k as int, emodel(out@)),
                    decreases n - k,
                {
                    let e = entries.remove(0);
                    proof {
                        assert(ges.skip(k as int)[0] == ges[k as int]);
                        assert(e == ges[k as int]);
                        assert(gd->Dict_0[k as int] == (rv(ges[k as int].0), rv(
                            ges[k as int].1,
                        )));
                        assert(ges.skip(k as int).drop_first() =~= ges.skip(k + 1));
                        assert(decreases_to!(d => e.1));
                    }
                    let ghost acc0 = emodel(out@);
                    let key_opt = key_text_exec(e.0);
                    match key_opt {
                        Some(kt) => {
                            let lk = ascii_lower(kt.as_str());
                            let c = Value::from_raw(e.1);
                            let ghost kk = spec_lower(key_text(gd->Dict_0[k as int].0)->0);
                            let ghost vv = conv(gd->Dict_0[k as int].1);
                            proof {
                                assert(lk@ == kk);
                                assert(sv(c) == vv);
                                lemma_find_key(acc0, kk, 0);
                            }
                            let j = find_entry(&out, &lk);
                            if j < out.len() {
                                out.remove(j);
                                out.insert(j, (lk, c));
                                proof {
                                    assert(emodel(out@) =~= acc0.update(j as int, (kk, sv(c))));
                                    assert(emodel(out@) == dict_put(acc0, kk, vv));
                                }
                            } else {
                                out.push((lk, c));
                                proof {
                                    assert(emodel(out@) =~= acc0.push((kk, sv(c))));
                                    assert(emodel(out@) == dict_put(acc0, kk, vv));
                                }
                            }
                        },
                        None => {
                            proof {
                                assert(key_text(gd->Dict_0[k as int].0) is None);
                            }
                        },
                    }
                    k = k + 1;
                }
                let result = Value::Mapping(out);
                proof {
                    lemma_sv_unfold(result);
                    assert(conv_dict(gd, n as int, emodel(result->Mapping_0@)) == emodel(
                        result->Mapping_0@,
                    ));
                }
                result
            },
        }
    }
}

/// The raw models of a list's items, used to connect the deep view of a
/// raw list with its item views.
pub open spec fn rv_items_seq_helper(items: Seq<RawDoc>) -> Seq<SpecRaw> {
    items.map_values(|x: RawDoc| rv(x))
}

/// Pointwise characterization of `conv_items`.
pub proof fn lemma_conv_items_index(d: SpecRaw, i: int)
    requires
        d is List,
        0 <= i <= sraw_count(d),
    ensures
        conv_items(d, i).len() == sraw_count(d) - i,
        forall|j: int|
            0 <= j < sraw_count(d) - i ==> #[trigger] conv_items(d, i)[j] == conv(
                d->List_0[i + j],
            ),
    decreases sraw_count(d) - i,
{
    if i < sraw_count(d) {
        lemma_conv_items_index(d, i + 1);
    }
}

} // verus!
