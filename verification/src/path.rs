use vstd::prelude::*;

verus! {

/// One component of a dotted query path.
///
/// `Name` is a literal segment, matched case-insensitively against mapping
/// keys or parsed as an index against sequences.  `Any` matches every
/// immediate child of a container, and `AnyRecursive` matches the current
/// node and every descendant of it.
#[derive(Debug)]
pub enum PathComponent {
    Name(String),
    Any,
    AnyRecursive,
}

impl Clone for PathComponent {
    fn clone(&self) -> (r: Self)
        ensures
            r@ == self@,
    {
        match self {
            PathComponent::Name(s) => PathComponent::Name(s.clone()),
            PathComponent::Any => PathComponent::Any,
            PathComponent::AnyRecursive => PathComponent::AnyRecursive,
        }
    }
}

/// Mathematical model of a path component.
pub enum SpecComponent {
    Name(Seq<char>),
    Any,
    AnyRecursive,
}

impl View for PathComponent {
    type V = SpecComponent;

    open spec fn view(&self) -> SpecComponent {
        match self {
            PathComponent::Name(s) => SpecComponent::Name(s@),
            PathComponent::Any => SpecComponent::Any,
            PathComponent::AnyRecursive => SpecComponent::AnyRecursive,
        }
    }
}

/// A white-space character, dropped from the ends of a path segment:
/// the ASCII spaces and control spaces, and the Unicode space
/// separators, line and paragraph separators.
pub open spec fn is_space_char(c: char) -> bool {
    (9 <= c as u32 <= 13) || c as u32 == 32 || c as u32 == 0x85 || c as u32 == 0xA0 || c as u32
        == 0x1680 || (0x2000 <= c as u32 <= 0x200A) || c as u32 == 0x2028 || c as u32 == 0x2029
        || c as u32 == 0x202F || c as u32 == 0x205F || c as u32 == 0x3000
}

/// First index at or after `i` that is not a space, stopping at `s.len()`.
pub open spec fn trim_lo(s: Seq<char>, i: int) -> int
    decreases s.len() - i,
{
    if i < 0 || i >= s.len() {
        i
    } else if is_space_char(s[i]) {
        trim_lo(s, i + 1)
    } else {
        i
    }
}

/// Last index at or before `i` such that everything from it on is spaces.
pub open spec fn trim_hi(s: Seq<char>, i: int) -> int
    decreases i,
{
    if i <= 0 || i > s.len() {
        i
    } else if is_space_char(s[i - 1]) {
        trim_hi(s, i - 1)
    } else {
        i
    }
}

/// A segment with surrounding space characters removed.
pub open spec fn trim_spaces(s: Seq<char>) -> Seq<char> {
    if trim_lo(s, 0) >= trim_hi(s, s.len() as int) {
        Seq::empty()
    } else {
        s.subrange(trim_lo(s, 0), trim_hi(s, s.len() as int))
    }
}

/// A trimmed, non-empty segment as a path component: `*` is `Any`,
/// `**` is `AnyRecursive`, anything else is a literal name.
pub open spec fn classify_segment(s: Seq<char>) -> SpecComponent {
    if s == seq!['*'] {
        SpecComponent::Any
    } else if s == seq!['*', '*'] {
        SpecComponent::AnyRecursive
    } else {
        SpecComponent::Name(s)
    }
}

/// Index of the first `.` at or after `i`, or `s.len()` if there is none.
pub open spec fn next_dot(s: Seq<char>, i: int) -> int
    decreases s.len() - i,
{
    if i < 0 || i >= s.len() {
        s.len() as int
    } else if s[i] == '.' {
        i
    } else {
        next_dot(s, i + 1)
    }
}

/// `next_dot` never moves backwards and never runs past the end.
pub proof fn lemma_next_dot_bounds(s: Seq<char>, i: int)
    requires
        0 <= i <= s.len(),
    ensures
        i <= next_dot(s, i) <= s.len(),
        next_dot(s, i) < s.len() ==> s[next_dot(s, i)] == '.',
    decreases s.len() - i,
{
    if i < s.len() && s[i] != '.' {
        lemma_next_dot_bounds(s, i + 1);
    }
}

/// The raw (unnormalized) components of the path string from position `p`
/// on: split on dots, trim each segment, drop empty segments, classify.
pub open spec fn raw_components_from(s: Seq<char>, p: int) -> Seq<SpecComponent>
    decreases s.len() - p,
    via raw_components_from_decreases
{
    if p < 0 || p > s.len() {
        Seq::empty()
    } else {
        let e = next_dot(s, p);
        let t = trim_spaces(s.subrange(p, e));
        let here: Seq<SpecComponent> = if t.len() == 0 {
            Seq::empty()
        } else {
            seq![classify_segment(t)]
        };
        if e >= s.len() {
            here
        } else {
            here + raw_components_from(s, e + 1)
        }
    }
}

#[via_fn]
proof fn raw_components_from_decreases(s: Seq<char>, p: int) {
    if 0 <= p <= s.len() {
        lemma_next_dot_bounds(s, p);
    }
}

/// The raw components of a whole path string.
pub open spec fn raw_components(s: Seq<char>) -> Seq<SpecComponent> {
    raw_components_from(s, 0)
}

/// Emits one more component onto an already-normalized prefix: consecutive
/// `Any`s collapse to one, `Any` next to `AnyRecursive` collapses to
/// `AnyRecursive` (in either order), and repeated `AnyRecursive`s collapse.
pub open spec fn norm_push(acc: Seq<SpecComponent>, c: SpecComponent) -> Seq<SpecComponent> {
    match c {
        SpecComponent::Name(_) => acc.push(c),
        SpecComponent::Any => {
            if acc.len() > 0 && !(acc.last() is Name) {
                acc
            } else {
                acc.push(SpecComponent::Any)
            }
        },
        SpecComponent::AnyRecursive => {
            if acc.len() > 0 && acc.last() is AnyRecursive {
                acc
            } else if acc.len() > 0 && acc.last() is Any {
                acc.update(acc.len() - 1, SpecComponent::AnyRecursive)
            } else {
                acc.push(SpecComponent::AnyRecursive)
            }
        },
    }
}

/// Folds `norm_push` over `cs`, starting from the prefix `acc`.
pub open spec fn norm_seq(acc: Seq<SpecComponent>, cs: Seq<SpecComponent>) -> Seq<SpecComponent>
    decreases cs.len(),
{
    if cs.len() == 0 {
        acc
    } else {
        norm_seq(norm_push(acc, cs[0]), cs.drop_first())
    }
}

/// The normalized form of a component sequence.
pub open spec fn normalize(cs: Seq<SpecComponent>) -> Seq<SpecComponent> {
    norm_seq(Seq::empty(), cs)
}

/// A sequence is normalized when every wildcard is followed by a literal
/// name or ends the path.
pub open spec fn is_normalized(cs: Seq<SpecComponent>) -> bool {
    forall|i: int| 0 <= i < cs.len() - 1 && !((#[trigger] cs[i]) is Name) ==> cs[i + 1] is Name
}

/// What a parsed path means: the normalized components of the string.
pub open spec fn parsed_path(s: Seq<char>) -> Seq<SpecComponent> {
    normalize(raw_components(s))
}

/// The models of a sequence of path components.
pub open spec fn cmodel(cs: Seq<PathComponent>) -> Seq<SpecComponent> {
    cs.map_values(|c: PathComponent| c@)
}

/// `trim_hi` never moves forwards.
pub proof fn lemma_trim_hi_le(s: Seq<char>, i: int)
    ensures
        trim_hi(s, i) <= i,
    decreases i,
{
    if 0 < i <= s.len() && is_space_char(s[i - 1]) {
        lemma_trim_hi_le(s, i - 1);
    }
}

/// Emitting one component onto a normalized prefix keeps it normalized.
pub proof fn lemma_norm_push_normalized(acc: Seq<SpecComponent>, c: SpecComponent)
    requires
        is_normalized(acc),
    ensures
        is_normalized(norm_push(acc, c)),
{
    let r = norm_push(acc, c);
    assert forall|i: int| 0 <= i < r.len() - 1 && !((#[trigger] r[i]) is Name) implies r[i
        + 1] is Name by {
        if i < acc.len() - 1 {
            assert(acc[i] == r[i] || (i == acc.len() - 1));
        }
    }
}

/// Folding `norm_push` over any components keeps the prefix normalized.
pub proof fn lemma_norm_seq_normalized(acc: Seq<SpecComponent>, cs: Seq<SpecComponent>)
    requires
        is_normalized(acc),
    ensures
        is_normalized(norm_seq(acc, cs)),
    decreases cs.len(),
{
    if cs.len() > 0 {
        lemma_norm_push_normalized(acc, cs[0]);
        lemma_norm_seq_normalized(norm_push(acc, cs[0]), cs.drop_first());
    }
}

/// The result of normalizing is always normalized.
pub proof fn lemma_normalize_normalized(cs: Seq<SpecComponent>)
    ensures
        is_normalized(normalize(cs)),
{
    lemma_norm_seq_normalized(Seq::empty(), cs);
}

/// Folding over components whose concatenation with the prefix is already
/// normalized just appends them.
pub proof fn lemma_norm_seq_noop(acc: Seq<SpecComponent>, cs: Seq<SpecComponent>)
    requires
        is_normalized(acc + cs),
    ensures
        norm_seq(acc, cs) == acc + cs,
    decreases cs.len(),
{
    if cs.len() == 0 {
        assert(acc + cs =~= acc);
    } else {
        let c = cs[0];
        let whole = acc + cs;
        if acc.len() > 0 {
            assert(whole[acc.len() - 1] == acc.last());
            assert(whole[acc.len() as int] == c);
        }
        assert(norm_push(acc, c) == acc.push(c));
        assert(acc.push(c) + cs.drop_first() =~= acc + cs);
        lemma_norm_seq_noop(acc.push(c), cs.drop_first());
    }
}

/// Law (normalization idempotence): re-normalizing an already-normalized
/// component sequence is a no-op, so normalizing twice equals normalizing
/// once.
pub proof fn lemma_normalize_idempotent(cs: Seq<SpecComponent>)
    ensures
        is_normalized(cs) ==> normalize(cs) == cs,
        normalize(normalize(cs)) == normalize(cs),
{
    if is_normalized(cs) {
        assert(Seq::<SpecComponent>::empty() + cs =~= cs);
        lemma_norm_seq_noop(Seq::empty(), cs);
    }
    lemma_normalize_normalized(cs);
    let n = normalize(cs);
    assert(Seq::<SpecComponent>::empty() + n =~= n);
    lemma_norm_seq_noop(Seq::empty(), n);
}

/// An iterator over the normalized components of a dotted path.  The whole
/// path is normalized up front; `next` then hands the components out in
/// order.
pub struct PathIter {
    components: Vec<PathComponent>,
    index: usize,
}

/// Tests whether a character is dropped from segment ends.
fn is_space_exec(c: char) -> (r: bool)
    ensures
        r == is_space_char(c),
{
    let u = c as u32;
    (9 <= u && u <= 13) || u == 32 || u == 0x85 || u == 0xA0 || u == 0x1680 || (0x2000 <= u && u
        <= 0x200A) || u == 0x2028 || u == 0x2029 || u == 0x202F || u == 0x205F || u == 0x3000
}

/// Appends one component, collapsing redundant wildcards against the last
/// emitted component, exactly as `norm_push` describes.
fn push_normalized(comps: &mut Vec<PathComponent>, c: PathComponent)
    ensures
        cmodel(final(comps)@) == norm_push(cmodel(old(comps)@), c@),
{
    let ghost m0 = cmodel(old(comps)@);
    let n = comps.len();
    match c {
        PathComponent::Name(_) => {
            comps.push(c);
            assert(cmodel(comps@) =~= m0.push(c@));
        },
        PathComponent::Any => {
            if n > 0 && !(matches!(comps[n - 1], PathComponent::Name(_))) {
                assert(m0.last() == cmodel(old(comps)@)[n - 1]);
            } else {
                comps.push(PathComponent::Any);
                assert(cmodel(comps@) =~= m0.push(SpecComponent::Any));
            }
        },
        PathComponent::AnyRecursive => {
            if n > 0 && matches!(comps[n - 1], PathComponent::AnyRecursive) {
                assert(m0.last() == cmodel(old(comps)@)[n - 1]);
            } else if n > 0 && matches!(comps[n - 1], PathComponent::Any) {
                assert(m0.last() == cmodel(old(comps)@)[n - 1]);
                comps.pop();
                comps.push(PathComponent::AnyRecursive);
                assert(cmodel(comps@) =~= m0.update(
                    m0.len() - 1,
                    SpecComponent::AnyRecursive,
                ));
            } else {
                comps.push(PathComponent::AnyRecursive);
                assert(cmodel(comps@) =~= m0.push(SpecComponent::AnyRecursive));
            }
        },
    }
}

impl PathIter {
    /// The components not yet handed out.
    pub closed spec fn remaining(&self) -> Seq<SpecComponent> {
        if self.index <= self.components@.len() {
            cmodel(self.components@).skip(self.index as int)
        } else {
            Seq::empty()
        }
    }

    /// Parses a dotted path string into its normalized components.
    pub fn new(s: &str) -> (r: PathIter)
        ensures
            r.remaining() == parsed_path(s@),
    {
        let n = s.unicode_len();
        let mut comps: Vec<PathComponent> = Vec::new();
        let mut p: usize = 0;
        proof {
            assert(cmodel(comps@) =~= Seq::<SpecComponent>::empty());
        }
        loop
            invariant_except_break
                p <= n,
                n == s@.len(),
                norm_seq(cmodel(comps@), raw_components_from(s@, p as int)) == parsed_path(s@),
            ensures
                cmodel(comps@) == parsed_path(s@),
            decreases n - p,
        {
            let mut e: usize = p;
            while e < n && s.get_char(e) != '.'
                invariant
                    p <= e <= n,
                    n == s@.len(),
                    next_dot(s@, p as int) == next_dot(s@, e as int),
                decreases n - e,
            {
                e = e + 1;
            }
            assert(next_dot(s@, p as int) == e as int);
            let raw = s.substring_char(p, e);
            let rl = raw.unicode_len();
            assert(raw@ == s@.subrange(p as int, e as int));
            let mut a: usize = 0;
            while a < rl && is_space_exec(raw.get_char(a))
                invariant
                    a <= rl,
                    rl == raw@.len(),
                    trim_lo(raw@, 0) == trim_lo(raw@, a as int),
                decreases rl - a,
            {
                a = a + 1;
            }
            assert(trim_lo(raw@, 0) == a as int);
            let mut b: usize = rl;
            while b > a && is_space_exec(raw.get_char(b - 1))
                invariant
                    a <= b <= rl,
                    rl == raw@.len(),
                    trim_hi(raw@, rl as int) == trim_hi(raw@, b as int),
                decreases b,
            {
                b = b - 1;
            }
            let ghost t = trim_spaces(raw@);
            proof {
                lemma_trim_hi_le(raw@, b as int);
                if a < b {
                    assert(trim_hi(raw@, b as int) == b as int);
                    assert(t == raw@.subrange(a as int, b as int));
                } else {
                    assert(trim_hi(raw@, rl as int) <= a as int);
                    assert(t.len() == 0);
                }
            }
            let ghost here = raw_components_from(s@, p as int);
            let ghost rest: Seq<SpecComponent> = if e >= n {
                Seq::<SpecComponent>::empty()
            } else {
                raw_components_from(s@, e + 1 as int)
            };
            let ghost m0 = cmodel(comps@);
            if a < b {
                let seg = raw.substring_char(a, b);
                assert(seg@ == t);
                let comp: PathComponent = if b - a == 1 && seg.get_char(0) == '*' {
                    proof {
                        assert(t =~= seq!['*']);
                    }
                    PathComponent::Any
                } else if b - a == 2 && seg.get_char(0) == '*' && seg.get_char(1) == '*' {
                    proof {
                        assert(t =~= seq!['*', '*']);
                    }
                    PathComponent::AnyRecursive
                } else {
                    proof {
                        if t.len() == 1 {
                            assert(t != seq!['*', '*']);
                            if t[0] != '*' {
                                assert(t != seq!['*']);
                            }
                        } else if t.len() == 2 {
                            assert(t != seq!['*']);
                            if !(t[0] == '*' && t[1] == '*') {
                                assert(t != seq!['*', '*']);
                            }
                        } else {
                            assert(t != seq!['*']);
                            assert(t != seq!['*', '*']);
                        }
                    }
                    PathComponent::Name(seg.to_owned())
                };
                assert(comp@ == classify_segment(t));
                proof {
                    if e >= n {
                        assert(here =~= seq![classify_segment(t)] + rest);
                    } else {
                        assert(here == seq![classify_segment(t)] + rest);
                    }
                    assert(here[0] == classify_segment(t));
                    assert(here.drop_first() =~= rest);
                }
                push_normalized(&mut comps, comp);
                proof {
                    assert(norm_seq(m0, here) == norm_seq(cmodel(comps@), rest));
                }
            } else {
                proof {
                    if e >= n {
                        assert(here =~= rest);
                    } else {
                        assert(here =~= rest);
                    }
                }
            }
            assert(norm_seq(cmodel(comps@), rest) == parsed_path(s@));
            if e >= n {
                proof {
                    assert(norm_seq(cmodel(comps@), rest) == cmodel(comps@));
                }
                break ;
            }
            p = e + 1;
        }
        PathIter { components: comps, index: 0 }
    }

    /// Wraps an already-built component sequence, applying the same
    /// normalization a parsed string gets.
    pub fn wrap(cs: Vec<PathComponent>) -> (r: PathIter)
        ensures
            r.remaining() == normalize(cmodel(cs@)),
    {
        let mut comps: Vec<PathComponent> = Vec::new();
        let n = cs.len();
        let mut i: usize = 0;
        let ghost whole = cmodel(cs@);
        proof {
            assert(cmodel(comps@) =~= Seq::<SpecComponent>::empty());
            assert(whole.skip(0) =~= whole);
        }
        while i < n
            invariant
                i <= n,
                n == cs@.len(),
                whole == cmodel(cs@),
                norm_seq(cmodel(comps@), whole.skip(i as int)) == normalize(whole),
            decreases n - i,
        {
            let c = cs[i].clone();
            proof {
                assert(c@ == whole[i as int]);
                assert(whole.skip(i as int)[0] == whole[i as int]);
                assert(whole.skip(i as int).drop_first() =~= whole.skip(i + 1));
            }
            push_normalized(&mut comps, c);
            i = i + 1;
        }
        assert(whole.skip(n as int) =~= Seq::<SpecComponent>::empty());
        PathIter { components: comps, index: 0 }
    }

    /// Hands out the next normalized component, or `None` at the end.
    pub fn next(&mut self) -> (r: Option<PathComponent>)
        ensures
            old(self).remaining().len() == 0 ==> r is None && final(self).remaining()
                == old(self).remaining(),
            old(self).remaining().len() > 0 ==> r is Some && r->0@ == old(self).remaining()[0]
                && final(self).remaining() == old(self).remaining().drop_first(),
    {
        if self.index < self.components.len() {
            let c = self.components[self.index].clone();
            proof {
                assert(old(self).remaining()[0] == cmodel(old(self).components@)[old(
                    self,
                ).index as int]);
            }
            self.index = self.index + 1;
            assert(self.remaining() =~= old(self).remaining().drop_first());
            Some(c)
        } else {
            assert(self.remaining() =~= old(self).remaining());
            None
        }
    }

    /// The components not yet handed out, as a fresh vector.
    pub fn remaining_components(&self) -> (r: Vec<PathComponent>)
        ensures
            cmodel(r@) == self.remaining(),
    {
        let mut out: Vec<PathComponent> = Vec::new();
        let start = if self.index <= self.components.len() {
            self.index
        } else {
            self.components.len()
        };
        let mut i = start;
        proof {
            assert(cmodel(out@) =~= cmodel(self.components@).subrange(
                start as int,
                start as int,
            ));
        }
        while i < self.components.len()
            invariant
                start <= i <= self.components@.len(),
                start == if self.index <= self.components@.len() {
                    self.index as int
                } else {
                    self.components@.len() as int
                },
                cmodel(out@) == cmodel(self.components@).subrange(start as int, i as int),
            decreases self.components@.len() - i,
        {
            let c = self.components[i].clone();
            let ghost mprev = cmodel(out@);
            out.push(c);
            proof {
                assert(cmodel(out@) =~= mprev.push(cmodel(self.components@)[i as int]));
                assert(cmodel(out@) =~= cmodel(self.components@).subrange(
                    start as int,
                    i + 1 as int,
                ));
            }
            i = i + 1;
        }
        assert(cmodel(out@) =~= self.remaining());
        out
    }

    /// Gives up the iterator, returning all components not yet handed out.
    pub fn into_components(self) -> (r: Vec<PathComponent>)
        ensures
            cmodel(r@) == self.remaining(),
    {
        if self.index == 0 {
            return self.components;
        }
        let mut out: Vec<PathComponent> = Vec::new();
        let start = if self.index <= self.components.len() {
            self.index
        } else {
            self.components.len()
        };
        let mut i = start;
        proof {
            assert(cmodel(out@) =~= cmodel(self.components@).subrange(
                start as int,
                start as int,
            ));
        }
        while i < self.components.len()
            invariant
                start <= i <= self.components@.len(),
                cmodel(out@) == cmodel(self.components@).subrange(start as int, i as int),
            decreases self.components@.len() - i,
        {
            let c = self.components[i].clone();
            let ghost mprev = cmodel(out@);
            out.push(c);
            proof {
                assert(cmodel(out@) =~= mprev.push(cmodel(self.components@)[i as int]));
                assert(cmodel(out@) =~= cmodel(self.components@).subrange(
                    start as int,
                    i + 1 as int,
                ));
            }
            i = i + 1;
        }
        assert(cmodel(out@) =~= self.remaining());
        out
    }
}

} // verus!
