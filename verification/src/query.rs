use vstd::prelude::*;

use crate::data::SpecValue;
use crate::data::Value;
use crate::data::emodel;
use crate::data::lemma_sv_unfold;
use crate::data::sv;
use crate::data::vmodel;
use crate::path::PathComponent;
use crate::path::PathIter;
use crate::path::SpecComponent;
use crate::path::cmodel;
use crate::text::ascii_lower;
use crate::text::spec_lower;
use crate::text::str_eq;

verus! {

/// How many immediate children a model node has.
pub open spec fn kid_count(m: SpecValue) -> nat {
    match m {
        SpecValue::List(items) => items.len(),
        SpecValue::Dict(entries) => entries.len(),
        _ => 0,
    }
}

/// The i-th immediate child of a model node.
pub open spec fn kid_at(m: SpecValue, i: int) -> SpecValue {
    match m {
        SpecValue::List(items) => items[i],
        SpecValue::Dict(entries) => entries[i].1,
        _ => arbitrary(),
    }
}

/// Whether a model node is a container.
pub open spec fn is_container(m: SpecValue) -> bool {
    m is List || m is Dict
}

/// Index of the first entry of a mapping model whose key equals `key`,
/// from position `i` on; the entry count if there is none.
pub open spec fn find_key(entries: Seq<(Seq<char>, SpecValue)>, key: Seq<char>, i: int) -> int
    decreases entries.len() - i,
{
    if 0 <= i < entries.len() {
        if entries[i].0 == key {
            i
        } else {
            find_key(entries, key, i + 1)
        }
    } else {
        entries.len() as int
    }
}

/// `find_key` stays within bounds, finds a real match, and finds the first
/// one.
pub proof fn lemma_find_key(entries: Seq<(Seq<char>, SpecValue)>, key: Seq<char>, i: int)
    requires
        0 <= i <= entries.len(),
    ensures
        i <= find_key(entries, key, i) <= entries.len(),
        find_key(entries, key, i) < entries.len() ==> entries[find_key(entries, key, i)].0
            == key,
        forall|j: int|
            i <= j < find_key(entries, key, i) ==> (#[trigger] entries[j]).0 != key,
    decreases entries.len() - i,
{
    if i < entries.len() && entries[i].0 != key {
        lemma_find_key(entries, key, i + 1);
    }
}

/// Whether a character is an ASCII decimal digit.
pub open spec fn is_digit_char(c: char) -> bool {
    48 <= c as u32 <= 57
}

/// The non-negative integer written by a string of decimal digits.
pub open spec fn digits_value(s: Seq<char>) -> int
    decreases s.len(),
{
    if s.len() == 0 {
        0
    } else {
        digits_value(s.drop_last()) * 10 + (s.last() as u32 - 48)
    }
}

/// The digit part of a would-be index: everything after an optional
/// leading `+`.
pub open spec fn index_digits(s: Seq<char>) -> Seq<char> {
    if s.len() > 0 && s[0] == '+' {
        s.drop_first()
    } else {
        s
    }
}

/// A name parsed as a sequence index: an optional leading `+`, then one or
/// more decimal digits; anything else is no index.
pub open spec fn parse_index(s: Seq<char>) -> Option<int> {
    let d = index_digits(s);
    if d.len() > 0 && (forall|i: int| 0 <= i < d.len() ==> is_digit_char(#[trigger] d[i])) {
        Some(digits_value(d))
    } else {
        None
    }
}

/// Everything reachable from a model node by matching the path, one
/// component at a time:
///
/// - a spent path matches the node itself;
/// - `Name` descends into a mapping by case-insensitive key, or into a
///   sequence by parsed index, and yields nothing when that fails;
/// - `Any` branches into every immediate child of a container; on a leaf
///   it matches the leaf itself when it is the final component;
/// - `AnyRecursive` applies the remaining path at this node and,
///   independently, at every descendant.
///
/// Results appear container-first, children in order.
pub open spec fn svquery(m: SpecValue, path: Seq<SpecComponent>) -> Seq<SpecValue>
    decreases m, path.len(), 1int, 0int,
    via svquery_decreases
{
    if path.len() == 0 {
        seq![m]
    } else {
        match path[0] {
            SpecComponent::Name(nm) => match m {
                SpecValue::Dict(entries) => {
                    let k = find_key(entries, spec_lower(nm), 0);
                    if k < entries.len() {
                        svquery(entries[k].1, path.drop_first())
                    } else {
                        Seq::empty()
                    }
                },
                SpecValue::List(items) => match parse_index(nm) {
                    Some(ix) => if 0 <= ix < items.len() {
                        svquery(items[ix], path.drop_first())
                    } else {
                        Seq::empty()
                    },
                    None => Seq::empty(),
                },
                _ => Seq::empty(),
            },
            SpecComponent::Any => {
                if is_container(m) {
                    svquery_kids(m, 0, path.drop_first())
                } else if path.len() == 1 {
                    seq![m]
                } else {
                    Seq::empty()
                }
            },
            SpecComponent::AnyRecursive => {
                svquery(m, path.drop_first()) + if is_container(m) {
                    svquery_kids(m, 0, path)
                } else {
                    Seq::empty()
                }
            },
        }
    }
}

#[via_fn]
proof fn svquery_decreases(m: SpecValue, path: Seq<SpecComponent>) {
    if path.len() > 0 {
        match path[0] {
            SpecComponent::Name(nm) => {
                match m {
                    SpecValue::Dict(entries) => {
                        lemma_find_key(entries, spec_lower(nm), 0);
                        let k = find_key(entries, spec_lower(nm), 0);
                        if k < entries.len() {
                            assert(entries[k].1 == m->Dict_0[k].1);
                            assert(decreases_to!(m => m->Dict_0[k].1));
                        }
                    },
                    SpecValue::List(items) => {
                        match parse_index(nm) {
                            Some(ix) => {
                                if 0 <= ix < items.len() {
                                    assert(items[ix] == m->List_0[ix]);
                                    assert(decreases_to!(m => m->List_0[ix]));
                                }
                            },
                            None => {},
                        }
                    },
                    _ => {},
                }
            },
            _ => {},
        }
    }
}

/// The concatenated results of matching `sub` against the children of `m`
/// from index `i` on, in child order.
pub open spec fn svquery_kids(m: SpecValue, i: int, sub: Seq<SpecComponent>) -> Seq<SpecValue>
    decreases m, sub.len(), 0int, kid_count(m) - i,
    via svquery_kids_decreases
{
    if is_container(m) && 0 <= i < kid_count(m) {
        svquery(kid_at(m, i), sub) + svquery_kids(m, i + 1, sub)
    } else {
        Seq::empty()
    }
}

#[via_fn]
proof fn svquery_kids_decreases(m: SpecValue, i: int, sub: Seq<SpecComponent>) {
    if is_container(m) && 0 <= i < kid_count(m) {
        if m is List {
            assert(kid_at(m, i) == m->List_0[i]);
            assert(decreases_to!(m => m->List_0[i]));
        } else {
            assert(kid_at(m, i) == m->Dict_0[i].1);
            assert(decreases_to!(m => m->Dict_0[i].1));
        }
    }
}

/// Parses a name as a sequence index, mirroring `parse_index`; a
/// well-formed index too large for `usize` comes back as `None`.
#[verifier::loop_isolation(false)]
fn parse_index_str(s: &str) -> (r: Option<usize>)
    ensures
        match parse_index(s@) {
            Some(v) => (r is Some ==> r->0 == v) && (r is None ==> v > usize::MAX),
            None => r is None,
        },
{
    let n = s.unicode_len();
    let start: usize = if n > 0 && s.get_char(0) == '+' {
        1
    } else {
        0
    };
    let ghost d: Seq<char> = index_digits(s@);
    proof {
        assert(d =~= s@.skip(start as int));
    }
    if n == start {
        return None;
    }
    let mut val: usize = 0;
    let mut over: bool = false;
    let mut i: usize = start;
    while i < n
        invariant
            start <= i <= n,
            n == s@.len(),
            start <= 1,
            d == s@.skip(start as int),
            forall|j: int| start <= j < i ==> is_digit_char(#[trigger] s@[j]),
            !over ==> val == digits_value(s@.subrange(start as int, i as int)),
            over ==> digits_value(s@.subrange(start as int, i as int)) > usize::MAX,
        decreases n - i,
    {
        let u = s.get_char(i) as u32;
        if u < 48 || u > 57 {
            proof {
                assert(d[i - start] == s@[i as int]);
                assert(!is_digit_char(d[i - start]));
                assert(exists|j: int|
                    0 <= j < d.len() && !is_digit_char(#[trigger] d[j])) by {
                    assert(0 <= i - start < d.len() && !is_digit_char(d[i - start]));
                }
                assert(parse_index(s@) is None);
            }
            return None;
        }
        let dig = (u - 48) as usize;
        let ghost prev = s@.subrange(start as int, i as int);
        let ghost cur = s@.subrange(start as int, i + 1);
        proof {
            assert(cur.drop_last() =~= prev);
            assert(cur.last() == s@[i as int]);
            assert(digits_value(cur) == digits_value(prev) * 10 + dig);
        }
        if over {
            proof {
                assert(digits_value(cur) > usize::MAX) by {
                    assert(digits_value(prev) > usize::MAX);
                    assert(dig >= 0);
                    assert(digits_value(prev) * 10 > usize::MAX * 10) by (nonlinear_arith)
                        requires
                            digits_value(prev) > usize::MAX,
                    ;
                }
            }
        } else if val > (usize::MAX - dig) / 10 {
            over = true;
            proof {
                let md = (usize::MAX - dig) as int;
                assert(val * 10 >= (md / 10 + 1) * 10) by (nonlinear_arith)
                    requires
                        val >= md / 10 + 1,
                ;
                assert((md / 10 + 1) * 10 == (md / 10) * 10 + 10);
                assert((md / 10) * 10 + 10 > md) by (nonlinear_arith)
                    requires
                        md >= 0,
                ;
                assert(digits_value(cur) > usize::MAX);
            }
        } else {
            proof {
                let md = (usize::MAX - dig) as int;
                assert(val * 10 <= (md / 10) * 10) by (nonlinear_arith)
                    requires
                        0 <= val <= md / 10,
                ;
                assert((md / 10) * 10 <= md) by (nonlinear_arith)
                    requires
                        md >= 0,
                ;
            }
            val = val * 10 + dig;
        }
        i = i + 1;
    }
    proof {
        assert(s@.subrange(start as int, n as int) =~= d);
        assert(parse_index(s@) == Some(digits_value(d)));
    }
    if over {
        None
    } else {
        Some(val)
    }
}

/// Termination fuel for one work frame: a node with `r` path components
/// left to match is worth one step more than the same node with one
/// component fewer plus all of its children at full fuel.  This is exactly
/// the shape of the work the engine can spawn from one frame.
pub open spec fn fweight(m: SpecValue, r: nat) -> nat
    decreases m, r, 1int, 0int,
{
    if r == 0 {
        1
    } else {
        1 + fweight(m, (r - 1) as nat) + fweight_kids(m, 0, r)
    }
}

/// The summed fuel of the children of `m` from index `i` on.
pub open spec fn fweight_kids(m: SpecValue, i: int, r: nat) -> nat
    decreases m, r, 0int, kid_count(m) - i,
    via fweight_kids_decreases
{
    if 0 <= i < kid_count(m) {
        fweight(kid_at(m, i), r) + fweight_kids(m, i + 1, r)
    } else {
        0
    }
}

#[via_fn]
proof fn fweight_kids_decreases(m: SpecValue, i: int, r: nat) {
    if 0 <= i < kid_count(m) {
        if m is List {
            assert(kid_at(m, i) == m->List_0[i]);
            assert(decreases_to!(m => m->List_0[i]));
        } else if m is Dict {
            assert(kid_at(m, i) == m->Dict_0[i].1);
            assert(decreases_to!(m => m->Dict_0[i].1));
        }
    }
}

/// Fuel never runs out entirely.
pub proof fn lemma_fweight_pos(m: SpecValue, r: nat)
    ensures
        fweight(m, r) >= 1,
{
    if r == 0 {
    } else {
    }
}

/// Fuel grows with the number of components left.
pub proof fn lemma_fweight_mono(m: SpecValue, r1: nat, r2: nat)
    requires
        r1 <= r2,
    ensures
        fweight(m, r1) <= fweight(m, r2),
    decreases r2,
{
    if r1 < r2 {
        lemma_fweight_mono(m, r1, (r2 - 1) as nat);
    }
}

/// Children's summed fuel grows with the number of components left.
pub proof fn lemma_fweight_kids_mono(m: SpecValue, i: int, r1: nat, r2: nat)
    requires
        r1 <= r2,
        0 <= i <= kid_count(m),
    ensures
        fweight_kids(m, i, r1) <= fweight_kids(m, i, r2),
    decreases kid_count(m) - i,
{
    if i < kid_count(m) {
        lemma_fweight_mono(kid_at(m, i), r1, r2);
        lemma_fweight_kids_mono(m, i + 1, r1, r2);
    }
}

/// One child's fuel is at most the summed fuel from an earlier index.
pub proof fn lemma_fweight_kids_bound(m: SpecValue, i: int, j: int, r: nat)
    requires
        0 <= i <= j < kid_count(m),
    ensures
        fweight(kid_at(m, j), r) <= fweight_kids(m, i, r),
    decreases j - i,
{
    if i < j {
        lemma_fweight_kids_bound(m, i + 1, j, r);
    }
}

/// The fuel of one frame: components left to match, clamped at the path's
/// end.
pub open spec fn frame_fuel(plen: int, s: int) -> nat {
    if 0 <= s <= plen {
        (plen - s) as nat
    } else {
        0
    }
}

/// The summed fuel of a whole work stack: the engine's loop spends at
/// least one unit of it per step.
pub open spec fn stack_measure(plen: int, frames: Seq<(Value, usize)>) -> nat
    decreases frames.len(),
{
    if frames.len() == 0 {
        0
    } else {
        fweight(sv(frames.last().0), frame_fuel(plen, frames.last().1 as int)) + stack_measure(
            plen,
            frames.drop_last(),
        )
    }
}

/// The path components from position `s` on; an exhausted position has no
/// components left.
pub open spec fn suffix(path: Seq<SpecComponent>, s: int) -> Seq<SpecComponent> {
    if 0 <= s <= path.len() {
        path.skip(s)
    } else {
        Seq::empty()
    }
}

/// The results still owed by a stack of work frames, top of the stack
/// first.  A frame pairs a (sub)tree with the position in the path that
/// remains to be matched against it.
pub open spec fn stack_pending(path: Seq<SpecComponent>, frames: Seq<(Value, usize)>) -> Seq<
    SpecValue,
>
    decreases frames.len(),
{
    if frames.len() == 0 {
        Seq::empty()
    } else {
        svquery(sv(frames.last().0), suffix(path, frames.last().1 as int)) + stack_pending(
            path,
            frames.drop_last(),
        )
    }
}

/// Index of the first entry whose key equals `target`, or the entry count
/// when no key matches.
pub(crate) fn find_entry(entries: &Vec<(String, Value)>, target: &String) -> (j: usize)
    ensures
        j as int == find_key(emodel(entries@), target@, 0),
        j <= entries@.len(),
{
    let n = entries.len();
    let mut j: usize = 0;
    while j < n
        invariant
            j <= n,
            n == entries@.len(),
            find_key(emodel(entries@), target@, 0) == find_key(
                emodel(entries@),
                target@,
                j as int,
            ),
        decreases n - j,
    {
        if str_eq(entries[j].0.as_str(), target.as_str()) {
            proof {
                assert(emodel(entries@)[j as int].0 == entries@[j as int].0@);
            }
            return j;
        }
        proof {
            assert(emodel(entries@)[j as int].0 == entries@[j as int].0@);
        }
        j = j + 1;
    }
    j
}

/// A lazy query over one value: an explicit work list replaces recursion,
/// and each call to `next` runs the work list only until one more match
/// falls out.
pub struct ValueIter {
    path: Vec<PathComponent>,
    frames: Vec<(Value, usize)>,
}

impl ValueIter {
    /// The results this iterator has still to produce, in order.
    pub closed spec fn pending(&self) -> Seq<SpecValue> {
        stack_pending(cmodel(self.path@), self.frames@)
    }

    /// Starts a query of `path` against `v`.
    pub fn new(v: &Value, path: &PathIter) -> (r: ValueIter)
        ensures
            r.pending() == svquery(v@, path.remaining()),
    {
        let comps = path.remaining_components();
        let root = v.clone();
        let mut frames: Vec<(Value, usize)> = Vec::new();
        frames.push((root, 0));
        let it = ValueIter { path: comps, frames };
        proof {
            let pm = cmodel(it.path@);
            let fs = it.frames@;
            assert(fs.len() == 1);
            assert(fs.drop_last() =~= Seq::<(Value, usize)>::empty());
            assert(stack_pending(pm, fs.drop_last()) == Seq::<SpecValue>::empty());
            assert(fs.last().1 == 0usize);
            assert(stack_pending(pm, fs) == svquery(sv(fs.last().0), suffix(pm, 0))
                + Seq::<SpecValue>::empty());
            assert(suffix(pm, 0) =~= pm);
            assert(svquery(sv(fs.last().0), pm) + Seq::<SpecValue>::empty() =~= svquery(
                sv(fs.last().0),
                pm,
            ));
            assert(sv(fs.last().0) == sv(*v));
        }
        it
    }

    /// Produces the next match, or `None` when the query is spent.  The
    /// work list is run until one more result falls out; every step either
    /// descends by one component or expands one container a level.
    #[verifier::loop_isolation(false)]
    pub fn next(&mut self) -> (r: Option<Value>)
        ensures
            old(self).pending().len() == 0 ==> r is None,
            r is None ==> old(self).pending().len() == 0 && final(self).pending().len() == 0,
            old(self).pending().len() > 0 ==> r is Some && r->0@ == old(self).pending()[0]
                && final(self).pending() == old(self).pending().drop_first(),
    {
        let ghost pm = cmodel(self.path@);
        let plen = self.path.len();
        let ghost pl = pm.len() as int;
        loop
            invariant
                self.path@ == old(self).path@,
                stack_pending(pm, self.frames@) == old(self).pending(),
            decreases stack_measure(pl, self.frames@),
        {
            if self.frames.len() == 0 {
                return None;
            }
            let ghost entrym = stack_measure(pl, self.frames@);
            let frame = self.frames.pop().unwrap();
            let v = frame.0;
            let s = frame.1;
            let ghost m = sv(v);
            let ghost subp = suffix(pm, s as int);
            let ghost rest = stack_pending(pm, self.frames@);
            let ghost restm = stack_measure(pl, self.frames@);
            let ghost fw = fweight(m, frame_fuel(pl, s as int));
            proof {
                lemma_fweight_pos(m, frame_fuel(pl, s as int));
                assert(old(self).pending() == svquery(m, subp) + rest);
                assert(entrym == fw + restm);
            }
            if s >= plen {
                proof {
                    assert(subp =~= Seq::<SpecComponent>::empty());
                    assert(svquery(m, subp) == seq![m]);
                    assert((seq![m] + rest).drop_first() =~= rest);
                }
                return Some(v);
            }
            match &self.path[s] {
                PathComponent::Name(nm) => {
                    proof {
                        assert(pm[s as int] == SpecComponent::Name(nm@));
                        lemma_sv_unfold(v);
                    }
                    match v {
                        Value::Mapping(entries) => {
                            step_name_mapping(&self.path, &mut self.frames, entries, s, nm);
                        },
                        Value::Sequence(items) => {
                            step_name_sequence(&self.path, &mut self.frames, items, s, nm);
                        },
                        _ => {
                            proof {
                                assert(!(m is Dict) && !(m is List));
                                assert(svquery(m, subp) =~= Seq::<SpecValue>::empty());
                                assert(svquery(m, subp) + rest =~= rest);
                            }
                        },
                    }
                },
                PathComponent::Any => {
                    proof {
                        assert(pm[s as int] == SpecComponent::Any);
                    }
                    let yielded = step_any(&self.path, &mut self.frames, v, s);
                    if yielded.is_some() {
                        proof {
                            let x = yielded->0;
                            assert(svquery(m, subp) == seq![sv(x)]);
                            assert((seq![sv(x)] + rest).drop_first() =~= rest);
                        }
                        return yielded;
                    }
                },
                PathComponent::AnyRecursive => {
                    proof {
                        assert(pm[s as int] == SpecComponent::AnyRecursive);
                    }
                    step_recursive(&self.path, &mut self.frames, v, s);
                },
            }
        }
    }
}

/// One work step for a literal-name component against a mapping: descend
/// into the entry whose key matches case-insensitively, or drop the
/// branch.
#[verifier::loop_isolation(false)]
#[verifier::rlimit(100)]
pub(crate) fn step_name_mapping(
    path: &Vec<PathComponent>,
    frames: &mut Vec<(Value, usize)>,
    entries: Vec<(String, Value)>,
    s: usize,
    nm: &String,
)
    requires
        (s as int) < path@.len(),
        cmodel(path@)[s as int] == SpecComponent::Name(nm@),
    ensures
        stack_pending(cmodel(path@), final(frames)@) == svquery(
            SpecValue::Dict(emodel(entries@)),
            suffix(cmodel(path@), s as int),
        ) + stack_pending(cmodel(path@), old(frames)@),
        stack_measure(path@.len() as int, final(frames)@) < fweight(
            SpecValue::Dict(emodel(entries@)),
            frame_fuel(path@.len() as int, s as int),
        ) + stack_measure(path@.len() as int, old(frames)@),
{
    let mut entries = entries;
    let ghost pm = cmodel(path@);
    let ghost pl = pm.len() as int;
    let ghost m = SpecValue::Dict(emodel(entries@));
    let ghost subp = suffix(pm, s as int);
    let ghost nsubp = suffix(pm, s + 1);
    let ghost rest = stack_pending(pm, frames@);
    let ghost restm = stack_measure(pl, frames@);
    let ghost r = frame_fuel(pl, s as int);
    let ghost fw = fweight(m, r);
    let plen = path.len();
    let ghost es = m->Dict_0;
    let ghost key = spec_lower(nm@);
    proof {
        assert(pm.len() == path@.len());
        lemma_fweight_pos(m, r);
        assert(s < plen);
        assert(subp[0] == pm[s as int]);
        assert(subp.drop_first() =~= nsubp);
    }
    let target = ascii_lower(nm.as_str());
    let en = entries.len();
    let j = find_entry(&entries, &target);
    proof {
        lemma_find_key(es, key, 0);
    }
    if j < en {
        let pair = entries.remove(j);
        let child = pair.1;
        proof {
            assert(sv(child) == es[j as int].1);
            assert(svquery(m, subp) == svquery(es[j as int].1, nsubp));
        }
        let ghost fprev = frames@;
        frames.push((child, s + 1));
        proof {
            assert(frames@.drop_last() =~= fprev);
            assert(kid_at(m, j as int) == es[j as int].1);
            lemma_fweight_mono(es[j as int].1, (r - 1) as nat, r);
            lemma_fweight_kids_bound(m, 0, j as int, r);
            assert(frame_fuel(pl, s + 1) == (r - 1) as nat);
            assert(fweight(sv(child), (r - 1) as nat) < fw);
            assert(stack_measure(pl, frames@) < fw + restm);
            assert(stack_pending(pm, frames@) == svquery(sv(child), nsubp) + rest);
        }
    } else {
        proof {
            assert(svquery(m, subp) =~= Seq::<SpecValue>::empty());
            assert(svquery(m, subp) + rest =~= rest);
        }
    }
}

/// One work step for a literal-name component against a sequence: descend
/// by parsed index, or drop the branch.
#[verifier::loop_isolation(false)]
#[verifier::rlimit(100)]
pub(crate) fn step_name_sequence(
    path: &Vec<PathComponent>,
    frames: &mut Vec<(Value, usize)>,
    items: Vec<Value>,
    s: usize,
    nm: &String,
)
    requires
        (s as int) < path@.len(),
        cmodel(path@)[s as int] == SpecComponent::Name(nm@),
    ensures
        stack_pending(cmodel(path@), final(frames)@) == svquery(
            SpecValue::List(vmodel(items@)),
            suffix(cmodel(path@), s as int),
        ) + stack_pending(cmodel(path@), old(frames)@),
        stack_measure(path@.len() as int, final(frames)@) < fweight(
            SpecValue::List(vmodel(items@)),
            frame_fuel(path@.len() as int, s as int),
        ) + stack_measure(path@.len() as int, old(frames)@),
{
    let mut items = items;
    let ghost pm = cmodel(path@);
    let ghost pl = pm.len() as int;
    let ghost m = SpecValue::List(vmodel(items@));
    let ghost subp = suffix(pm, s as int);
    let ghost nsubp = suffix(pm, s + 1);
    let ghost rest = stack_pending(pm, frames@);
    let ghost restm = stack_measure(pl, frames@);
    let ghost r = frame_fuel(pl, s as int);
    let ghost fw = fweight(m, r);
    let plen = path.len();
    let ghost lm = m->List_0;
    proof {
        assert(pm.len() == path@.len());
        lemma_fweight_pos(m, r);
        assert(s < plen);
        assert(subp[0] == pm[s as int]);
        assert(subp.drop_first() =~= nsubp);
        assert(lm.len() == vmodel(items@).len());
    }
    let ix_opt = parse_index_str(nm.as_str());
    let il = items.len();
    match ix_opt {
        Some(ix) => {
            if ix < il {
                let child = items.remove(ix);
                proof {
                    assert(sv(child) == lm[ix as int]);
                    assert(svquery(m, subp) == svquery(lm[ix as int], nsubp));
                }
                let ghost fprev = frames@;
                frames.push((child, s + 1));
                proof {
                    assert(frames@.drop_last() =~= fprev);
                    assert(kid_at(m, ix as int) == lm[ix as int]);
                    lemma_fweight_mono(lm[ix as int], (r - 1) as nat, r);
                    lemma_fweight_kids_bound(m, 0, ix as int, r);
                    assert(frame_fuel(pl, s + 1) == (r - 1) as nat);
                    assert(fweight(sv(child), (r - 1) as nat) < fw);
                    assert(stack_measure(pl, frames@) < fw + restm);
                    assert(stack_pending(pm, frames@) == svquery(sv(child), nsubp) + rest);
                }
            } else {
                proof {
                    let ixv = parse_index(nm@)->0;
                    assert(ixv == ix >= il);
                    assert(!(0 <= ixv < lm.len()));
                    assert(svquery(m, subp) =~= Seq::<SpecValue>::empty());
                    assert(svquery(m, subp) + rest =~= rest);
                }
            }
        },
        None => {
            proof {
                if parse_index(nm@) is Some {
                    let ixv = parse_index(nm@)->0;
                    assert(ixv > usize::MAX);
                    assert(!(0 <= ixv < lm.len()));
                }
                assert(svquery(m, subp) =~= Seq::<SpecValue>::empty());
                assert(svquery(m, subp) + rest =~= rest);
            }
        },
    }
}

/// One work step for a single-level wildcard: expand every immediate child
/// of a container; a leaf is itself the match when the wildcard ends the
/// path, and is dropped otherwise.
#[verifier::loop_isolation(false)]
#[verifier::rlimit(100)]
pub(crate) fn step_any(
    path: &Vec<PathComponent>,
    frames: &mut Vec<(Value, usize)>,
    v: Value,
    s: usize,
) -> (r: Option<Value>)
    requires
        (s as int) < path@.len(),
        cmodel(path@)[s as int] is Any,
    ensures
        r is None ==> stack_pending(cmodel(path@), final(frames)@) == svquery(
            sv(v),
            suffix(cmodel(path@), s as int),
        ) + stack_pending(cmodel(path@), old(frames)@),
        r is None ==> stack_measure(path@.len() as int, final(frames)@) < fweight(
            sv(v),
            frame_fuel(path@.len() as int, s as int),
        ) + stack_measure(path@.len() as int, old(frames)@),
        r is Some ==> final(frames)@ == old(frames)@ && svquery(
            sv(v),
            suffix(cmodel(path@), s as int),
        ) == seq![sv(r->0)],
{
    let ghost pm = cmodel(path@);
    let ghost pl = pm.len() as int;
    let ghost m = sv(v);
    let ghost subp = suffix(pm, s as int);
    let ghost nsubp = suffix(pm, s + 1);
    let ghost rest = stack_pending(pm, frames@);
    let ghost restm = stack_measure(pl, frames@);
    let ghost r = frame_fuel(pl, s as int);
    let ghost fw = fweight(m, r);
    let plen = path.len();
    proof {
        assert(pm.len() == path@.len());
        lemma_sv_unfold(v);
        lemma_fweight_pos(m, r);
        assert(subp[0] == pm[s as int]);
        assert(subp.drop_first() =~= nsubp);
    }
    match v {
        Value::Sequence(mut items) => {
            let ghost lm = m->List_0;
            proof {
                assert(vmodel(items@) == lm);
                assert(lm.take(items@.len() as int) =~= lm);
                assert(svquery(m, subp) == svquery_kids(m, 0, nsubp));
                assert(fweight_kids(m, items@.len() as int, (r - 1) as nat) == 0);
            }
            while items.len() > 0
                invariant
                    items@.len() <= lm.len(),
                    vmodel(items@) == lm.take(items@.len() as int),
                    stack_pending(pm, frames@) == svquery_kids(
                        m,
                        items@.len() as int,
                        nsubp,
                    ) + rest,
                    stack_measure(pl, frames@) == fweight_kids(
                        m,
                        items@.len() as int,
                        (r - 1) as nat,
                    ) + restm,
                decreases items@.len(),
            {
                let ghost oldits = items@;
                let c = items.pop().unwrap();
                let ghost jj = items@.len() as int;
                proof {
                    assert(oldits =~= items@.push(c));
                    assert(vmodel(oldits)[jj] == sv(c));
                    assert(vmodel(oldits) == lm.take(jj + 1));
                    assert(lm.take(jj + 1)[jj] == lm[jj]);
                    assert(sv(c) == lm[jj]);
                    assert(vmodel(items@) =~= lm.take(jj));
                    assert(kid_at(m, jj) == lm[jj]);
                }
                let ghost fprev = frames@;
                frames.push((c, s + 1));
                proof {
                    assert(frames@.drop_last() =~= fprev);
                    assert(frame_fuel(pl, s + 1) == (r - 1) as nat);
                    assert(stack_measure(pl, frames@) == fweight(sv(c), (r - 1) as nat) + (
                    fweight_kids(m, jj + 1, (r - 1) as nat) + restm));
                    assert(stack_measure(pl, frames@) == fweight_kids(m, jj, (r - 1) as nat)
                        + restm);
                    assert(stack_pending(pm, frames@) == svquery(sv(c), nsubp) + (svquery_kids(
                        m,
                        jj + 1,
                        nsubp,
                    ) + rest));
                    assert(svquery(sv(c), nsubp) + (svquery_kids(m, jj + 1, nsubp) + rest) =~= (
                    svquery(sv(c), nsubp) + svquery_kids(m, jj + 1, nsubp)) + rest);
                }
            }
            proof {
                lemma_fweight_kids_mono(m, 0, (r - 1) as nat, r);
                assert(stack_measure(pl, frames@) < fw + restm);
            }
            None
        },
        Value::Mapping(mut entries) => {
            let ghost dm = m->Dict_0;
            proof {
                assert(emodel(entries@) == dm);
                assert(dm.take(entries@.len() as int) =~= dm);
                assert(svquery(m, subp) == svquery_kids(m, 0, nsubp));
                assert(fweight_kids(m, entries@.len() as int, (r - 1) as nat) == 0);
            }
            while entries.len() > 0
                invariant
                    entries@.len() <= dm.len(),
                    emodel(entries@) == dm.take(entries@.len() as int),
                    stack_pending(pm, frames@) == svquery_kids(
                        m,
                        entries@.len() as int,
                        nsubp,
                    ) + rest,
                    stack_measure(pl, frames@) == fweight_kids(
                        m,
                        entries@.len() as int,
                        (r - 1) as nat,
                    ) + restm,
                decreases entries@.len(),
            {
                let ghost oldes = entries@;
                let e = entries.pop().unwrap();
                let c = e.1;
                let ghost jj = entries@.len() as int;
                proof {
                    assert(oldes =~= entries@.push(e));
                    assert(emodel(oldes)[jj] == (oldes[jj].0@, sv(oldes[jj].1)));
                    assert(emodel(oldes) == dm.take(jj + 1));
                    assert(dm.take(jj + 1)[jj] == dm[jj]);
                    assert(sv(c) == dm[jj].1);
                    assert(emodel(entries@) =~= dm.take(jj));
                    assert(kid_at(m, jj) == dm[jj].1);
                }
                let ghost fprev = frames@;
                frames.push((c, s + 1));
                proof {
                    assert(frames@.drop_last() =~= fprev);
                    assert(frame_fuel(pl, s + 1) == (r - 1) as nat);
                    assert(stack_measure(pl, frames@) == fweight(sv(c), (r - 1) as nat) + (
                    fweight_kids(m, jj + 1, (r - 1) as nat) + restm));
                    assert(stack_measure(pl, frames@) == fweight_kids(m, jj, (r - 1) as nat)
                        + restm);
                    assert(stack_pending(pm, frames@) == svquery(sv(c), nsubp) + (svquery_kids(
                        m,
                        jj + 1,
                        nsubp,
                    ) + rest));
                    assert(svquery(sv(c), nsubp) + (svquery_kids(m, jj + 1, nsubp) + rest) =~= (
                    svquery(sv(c), nsubp) + svquery_kids(m, jj + 1, nsubp)) + rest);
                }
            }
            proof {
                lemma_fweight_kids_mono(m, 0, (r - 1) as nat, r);
                assert(stack_measure(pl, frames@) < fw + restm);
            }
            None
        },
        other => {
            if s + 1 == plen {
                proof {
                    assert(subp.len() == 1);
                    assert(svquery(m, subp) == seq![m]);
                }
                Some(other)
            } else {
                proof {
                    assert(subp.len() > 1);
                    assert(svquery(m, subp) + rest =~= rest);
                }
                None
            }
        },
    }
}

/// One work step for a recursive wildcard: the node itself continues with
/// the remaining path, and every immediate child restarts at the wildcard.
#[verifier::loop_isolation(false)]
#[verifier::rlimit(100)]
pub(crate) fn step_recursive(
    path: &Vec<PathComponent>,
    frames: &mut Vec<(Value, usize)>,
    v: Value,
    s: usize,
)
    requires
        (s as int) < path@.len(),
        cmodel(path@)[s as int] is AnyRecursive,
    ensures
        stack_pending(cmodel(path@), final(frames)@) == svquery(
            sv(v),
            suffix(cmodel(path@), s as int),
        ) + stack_pending(cmodel(path@), old(frames)@),
        stack_measure(path@.len() as int, final(frames)@) < fweight(
            sv(v),
            frame_fuel(path@.len() as int, s as int),
        ) + stack_measure(path@.len() as int, old(frames)@),
{
    let ghost pm = cmodel(path@);
    let ghost pl = pm.len() as int;
    let ghost m = sv(v);
    let ghost subp = suffix(pm, s as int);
    let ghost nsubp = suffix(pm, s + 1);
    let ghost rest = stack_pending(pm, frames@);
    let ghost restm = stack_measure(pl, frames@);
    let ghost r = frame_fuel(pl, s as int);
    let ghost fw = fweight(m, r);
    let plen = path.len();
    proof {
        assert(pm.len() == path@.len());
        lemma_sv_unfold(v);
        lemma_fweight_pos(m, r);
        assert(s < plen);
        assert(subp[0] == pm[s as int]);
        assert(subp.drop_first() =~= nsubp);
    }
    match &v {
        Value::Sequence(items) => {
            let ghost lm = m->List_0;
            proof {
                assert(vmodel(items@) == lm);
            }
            let mut i = items.len();
            proof {
                assert(fweight_kids(m, i as int, r) == 0);
            }
            while i > 0
                invariant
                    i <= items@.len(),
                    stack_pending(pm, frames@) == svquery_kids(m, i as int, subp) + rest,
                    stack_measure(pl, frames@) == fweight_kids(m, i as int, r) + restm,
                decreases i,
            {
                i = i - 1;
                let c = items[i].clone();
                proof {
                    assert(sv(c) == lm[i as int]);
                    assert(kid_at(m, i as int) == lm[i as int]);
                }
                let ghost fprev = frames@;
                frames.push((c, s));
                proof {
                    assert(frames@.drop_last() =~= fprev);
                    assert(frame_fuel(pl, s as int) == r);
                    assert(stack_measure(pl, frames@) == fweight(sv(c), r) + (fweight_kids(
                        m,
                        i + 1,
                        r,
                    ) + restm));
                    assert(stack_measure(pl, frames@) == fweight_kids(m, i as int, r) + restm);
                    assert(stack_pending(pm, frames@) == svquery(sv(c), subp) + (svquery_kids(
                        m,
                        i + 1,
                        subp,
                    ) + rest));
                    assert(svquery(sv(c), subp) + (svquery_kids(m, i + 1, subp) + rest) =~= (
                    svquery(sv(c), subp) + svquery_kids(m, i + 1, subp)) + rest);
                }
            }
        },
        Value::Mapping(entries) => {
            let ghost dm = m->Dict_0;
            proof {
                assert(emodel(entries@) == dm);
            }
            let mut i = entries.len();
            proof {
                assert(fweight_kids(m, i as int, r) == 0);
            }
            while i > 0
                invariant
                    i <= entries@.len(),
                    stack_pending(pm, frames@) == svquery_kids(m, i as int, subp) + rest,
                    stack_measure(pl, frames@) == fweight_kids(m, i as int, r) + restm,
                decreases i,
            {
                i = i - 1;
                let c = entries[i].1.clone();
                proof {
                    assert(sv(c) == dm[i as int].1);
                    assert(kid_at(m, i as int) == dm[i as int].1);
                }
                let ghost fprev = frames@;
                frames.push((c, s));
                proof {
                    assert(frames@.drop_last() =~= fprev);
                    assert(frame_fuel(pl, s as int) == r);
                    assert(stack_measure(pl, frames@) == fweight(sv(c), r) + (fweight_kids(
                        m,
                        i + 1,
                        r,
                    ) + restm));
                    assert(stack_measure(pl, frames@) == fweight_kids(m, i as int, r) + restm);
                    assert(stack_pending(pm, frames@) == svquery(sv(c), subp) + (svquery_kids(
                        m,
                        i + 1,
                        subp,
                    ) + rest));
                    assert(svquery(sv(c), subp) + (svquery_kids(m, i + 1, subp) + rest) =~= (
                    svquery(sv(c), subp) + svquery_kids(m, i + 1, subp)) + rest);
                }
            }
        },
        _ => {},
    }
    let ghost fprev = frames@;
    frames.push((v, s + 1));
    proof {
        assert(frames@.drop_last() =~= fprev);
        assert(frame_fuel(pl, s + 1) == (r - 1) as nat);
        if is_container(m) {
            assert(stack_measure(pl, frames@) == fweight(m, (r - 1) as nat) + (fweight_kids(
                m,
                0,
                r,
            ) + restm));
        } else {
            assert(fweight_kids(m, 0, r) == 0);
            assert(stack_measure(pl, frames@) == fweight(m, (r - 1) as nat) + restm);
        }
        assert(fweight(m, r) == 1 + fweight(m, (r - 1) as nat) + fweight_kids(m, 0, r));
        assert(stack_measure(pl, frames@) < fw + restm);
        if is_container(m) {
            assert(stack_pending(pm, frames@) == svquery(m, nsubp) + (svquery_kids(m, 0, subp)
                + rest));
            assert(svquery(m, subp) == svquery(m, nsubp) + svquery_kids(m, 0, subp));
            assert(svquery(m, nsubp) + (svquery_kids(m, 0, subp) + rest) =~= (svquery(m, nsubp)
                + svquery_kids(m, 0, subp)) + rest);
        } else {
            assert(svquery(m, subp) =~= svquery(m, nsubp) + Seq::<SpecValue>::empty());
            assert(svquery(m, subp) == svquery(m, nsubp));
        }
    }
}


impl Value {
    /// All values the path reaches in this value, as a lazy iterator.
    pub fn value_iter(&self, path: &PathIter) -> (r: ValueIter)
        ensures
            r.pending() == svquery(self@, path.remaining()),
    {
        ValueIter::new(self, path)
    }

    /// The first value the path reaches, or `None` when it reaches none.
    pub fn value(&self, path: &PathIter) -> (r: Option<Value>)
        ensures
            svquery(self@, path.remaining()).len() == 0 <==> r is None,
            svquery(self@, path.remaining()).len() > 0 ==> r is Some && r->0@ == svquery(
                self@,
                path.remaining(),
            )[0],
    {
        let mut it = ValueIter::new(self, path);
        it.next()
    }
}

/// The first match of a path over a list of values: the result of the
/// first value in the list whose query yields anything.
pub open spec fn first_result(ms: Seq<SpecValue>, path: Seq<SpecComponent>) -> Option<SpecValue>
    decreases ms.len(),
{
    if ms.len() == 0 {
        None
    } else if svquery(ms[0], path).len() > 0 {
        Some(svquery(ms[0], path)[0])
    } else {
        first_result(ms.drop_first(), path)
    }
}

/// Scans a list of values in order and returns the first match of the
/// path in any of them.
pub fn first_value(path: &PathIter, values: &Vec<Value>) -> (r: Option<Value>)
    ensures
        r is Some <==> first_result(vmodel(values@), path.remaining()) is Some,
        r is Some ==> r->0@ == first_result(vmodel(values@), path.remaining())->0,
{
    let ghost pr = path.remaining();
    let ghost ms = vmodel(values@);
    let n = values.len();
    let mut i: usize = 0;
    proof {
        assert(ms.skip(0) =~= ms);
    }
    while i < n
        invariant
            i <= n,
            n == values@.len(),
            ms == vmodel(values@),
            pr == path.remaining(),
            first_result(ms, pr) == first_result(ms.skip(i as int), pr),
        decreases n - i,
    {
        let mut it = ValueIter::new(&values[i], path);
        let got = it.next();
        proof {
            assert(ms.skip(i as int)[0] == ms[i as int]);
            assert(ms[i as int] == sv(values@[i as int]));
        }
        if got.is_some() {
            proof {
                assert(svquery(sv(values@[i as int]), pr).len() > 0);
                assert(first_result(ms.skip(i as int), pr) == Some(
                    svquery(ms[i as int], pr)[0],
                ));
            }
            return got;
        }
        proof {
            assert(svquery(ms[i as int], pr).len() == 0);
            assert(ms.skip(i as int).drop_first() =~= ms.skip(i + 1));
        }
        i = i + 1;
    }
    proof {
        assert(ms.skip(n as int) =~= Seq::<SpecValue>::empty());
    }
    None
}

/// Pointwise characterization of matching an exhausted path against each
/// child: every child is its own single match.
pub proof fn lemma_kids_empty_path(m: SpecValue, i: int)
    requires
        0 <= i <= kid_count(m),
    ensures
        svquery_kids(m, i, Seq::empty()).len() == kid_count(m) - i,
        forall|j: int|
            0 <= j < kid_count(m) - i ==> #[trigger] svquery_kids(m, i, Seq::empty())[j]
                == kid_at(m, i + j),
    decreases kid_count(m) - i,
{
    if i < kid_count(m) {
        lemma_kids_empty_path(m, i + 1);
        assert(svquery(kid_at(m, i), Seq::empty()) == seq![kid_at(m, i)]);
        assert(svquery_kids(m, i, Seq::empty()) == seq![kid_at(m, i)] + svquery_kids(
            m,
            i + 1,
            Seq::empty(),
        ));
        assert forall|j: int| 0 <= j < kid_count(m) - i implies #[trigger] svquery_kids(
            m,
            i,
            Seq::empty(),
        )[j] == kid_at(m, i + j) by {
            if j > 0 {
                assert(svquery_kids(m, i, Seq::empty())[j] == svquery_kids(
                    m,
                    i + 1,
                    Seq::empty(),
                )[j - 1]);
            }
        }
    }
}

/// Law (wildcard keeps sequence order): a single-level wildcard against a
/// sequence yields exactly its items, in index order.
pub proof fn lemma_any_on_list(items: Seq<SpecValue>)
    ensures
        svquery(SpecValue::List(items), seq![SpecComponent::Any]) == items,
{
    let m = SpecValue::List(items);
    let p = seq![SpecComponent::Any];
    assert(p.drop_first() =~= Seq::<SpecComponent>::empty());
    lemma_kids_empty_path(m, 0);
    assert(svquery(m, p) == svquery_kids(m, 0, Seq::empty()));
    assert(svquery(m, p) =~= items);
}

/// Every node of a tree in preorder: the node itself, then each child's
/// subtree, children in order.
pub open spec fn preorder(m: SpecValue) -> Seq<SpecValue>
    decreases m, 1int, 0int,
{
    seq![m] + preorder_kids(m, 0)
}

/// The concatenated preorders of the children of `m` from index `i` on.
pub open spec fn preorder_kids(m: SpecValue, i: int) -> Seq<SpecValue>
    decreases m, 0int, kid_count(m) - i,
    via preorder_kids_decreases
{
    if 0 <= i < kid_count(m) {
        preorder(kid_at(m, i)) + preorder_kids(m, i + 1)
    } else {
        Seq::empty()
    }
}

#[via_fn]
proof fn preorder_kids_decreases(m: SpecValue, i: int) {
    if 0 <= i < kid_count(m) {
        if m is List {
            assert(kid_at(m, i) == m->List_0[i]);
            assert(decreases_to!(m => m->List_0[i]));
        } else if m is Dict {
            assert(kid_at(m, i) == m->Dict_0[i].1);
            assert(decreases_to!(m => m->Dict_0[i].1));
        }
    }
}

/// Law (recursive wildcard completeness): a single recursive wildcard
/// yields every node of the tree exactly once, root first, each child's
/// subtree in order, with no position visited twice.
pub proof fn lemma_recursive_all_nodes(m: SpecValue)
    ensures
        svquery(m, seq![SpecComponent::AnyRecursive]) == preorder(m),
    decreases m, 1int, 0int,
{
    let p = seq![SpecComponent::AnyRecursive];
    assert(p.len() == 1);
    assert(p[0] == SpecComponent::AnyRecursive);
    assert(p.drop_first() =~= Seq::<SpecComponent>::empty());
    assert(svquery(m, p.drop_first()) == seq![m]);
    lemma_recursive_kids(m, 0);
    if is_container(m) {
        assert(svquery(m, p) == seq![m] + svquery_kids(m, 0, p));
        assert(svquery(m, p) =~= preorder(m));
    } else {
        assert(kid_count(m) == 0);
        assert(preorder_kids(m, 0) =~= Seq::<SpecValue>::empty());
        assert(svquery(m, p) =~= seq![m] + Seq::<SpecValue>::empty());
        assert(svquery(m, p) =~= preorder(m));
    }
}

/// The children's part of the recursive-wildcard law.
proof fn lemma_recursive_kids(m: SpecValue, i: int)
    requires
        0 <= i <= kid_count(m),
    ensures
        svquery_kids(m, i, seq![SpecComponent::AnyRecursive]) == preorder_kids(m, i),
    decreases m, 0int, kid_count(m) - i,
{
    if i < kid_count(m) {
        if m is List {
            assert(kid_at(m, i) == m->List_0[i]);
            assert(decreases_to!(m => m->List_0[i]));
        } else if m is Dict {
            assert(kid_at(m, i) == m->Dict_0[i].1);
            assert(decreases_to!(m => m->Dict_0[i].1));
        }
        lemma_recursive_all_nodes(kid_at(m, i));
        lemma_recursive_kids(m, i + 1);
    }
}

} // verus!

