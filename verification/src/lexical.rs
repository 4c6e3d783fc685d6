//! Lexicographic order of texts, and sorting by it.

use crate::identity::ArtifactQuality;
use crate::limbs::Order;
use crate::payload::strings;
use crate::text::chars_of;
use vstd::multiset::Multiset;
use vstd::prelude::*;
use vstd::relations::*;
use vstd::seq_lib::*;

verus! {

/// Order of two characters by code point.
pub open spec fn char_order(a: char, b: char) -> Order {
    if (a as u32) < (b as u32) {
        Order::Less
    } else if (a as u32) > (b as u32) {
        Order::Greater
    } else {
        Order::Equal
    }
}

/// Order of two texts from a position on.
pub open spec fn order_from(a: Seq<char>, b: Seq<char>, i: int) -> Order
    decreases a.len() - i,
{
    if i < 0 || i >= a.len() {
        if i < b.len() {
            Order::Less
        } else {
            Order::Equal
        }
    } else if i >= b.len() {
        Order::Greater
    } else if !(char_order(a[i], b[i]) is Equal) {
        char_order(a[i], b[i])
    } else {
        order_from(a, b, i + 1)
    }
}

/// Lexicographic order of two texts.
pub open spec fn text_order(a: Seq<char>, b: Seq<char>) -> Order {
    order_from(a, b, 0)
}

/// Whether one text comes before another.
pub open spec fn comes_before(a: Seq<char>, b: Seq<char>) -> bool {
    text_order(a, b) is Less
}

/// Lexicographic order of two texts.
pub fn order_texts(a: &str, b: &str) -> (r: Order)
    ensures
        r == text_order(a@, b@),
{
    let x: Vec<char> = chars_of(a);
    let y: Vec<char> = chars_of(b);
    let mut i: usize = 0;
    while i < x.len() && i < y.len()
        invariant
            i <= x.len(),
            i <= y.len(),
            x@ == a@,
            y@ == b@,
            order_from(a@, b@, 0) == order_from(a@, b@, i as int),
        decreases x.len() - i,
    {
        let c: u32 = x[i] as u32;
        let d: u32 = y[i] as u32;
        if c < d {
            return Order::Less;
        }
        if c > d {
            return Order::Greater;
        }
        i = i + 1;
    }
    if i < y.len() {
        Order::Less
    } else if i < x.len() {
        Order::Greater
    } else {
        Order::Equal
    }
}

proof fn lemma_same_text(a: Seq<char>, i: int)
    requires
        0 <= i <= a.len(),
    ensures
        order_from(a, a, i) is Equal,
    decreases a.len() - i,
{
    if i < a.len() {
        lemma_same_text(a, i + 1);
    }
}

proof fn lemma_two_texts(a: Seq<char>, b: Seq<char>, i: int)
    requires
        0 <= i <= a.len(),
        i <= b.len(),
    ensures
        order_from(a, b, i) is Less == order_from(b, a, i) is Greater,
        order_from(a, b, i) is Greater == order_from(b, a, i) is Less,
        order_from(a, b, i) is Equal ==> a.len() == b.len() && forall|k: int|
            i <= k < a.len() ==> a[k] == b[k],
    decreases a.len() - i,
{
    if i < a.len() && i < b.len() {
        lemma_two_texts(a, b, i + 1);
        if char_order(a[i], b[i]) is Equal {
            lemma_same_char(a[i], b[i]);
        }
    }
}

proof fn lemma_same_char(a: char, b: char)
    requires
        a as u32 == b as u32,
    ensures
        a == b,
{
    assert(a as u32 as int == a as int);
    assert(b as u32 as int == b as int);
    assert(a as int == b as int);
}

proof fn lemma_three_texts(a: Seq<char>, b: Seq<char>, c: Seq<char>, i: int)
    requires
        0 <= i <= a.len(),
        i <= b.len(),
        i <= c.len(),
    ensures
        order_from(a, b, i) is Less && order_from(b, c, i) is Less ==> order_from(a, c, i) is Less,
    decreases a.len() - i,
{
    if i < a.len() && i < b.len() && i < c.len() {
        lemma_three_texts(a, b, c, i + 1);
    }
}

/// Texts are totally ordered: exactly one of before, equal and after holds, equal texts are
/// the same, and the order is transitive.
pub proof fn law_texts_are_ordered(a: Seq<char>, b: Seq<char>, c: Seq<char>)
    ensures
        !comes_before(a, a),
        text_order(a, b) is Less == text_order(b, a) is Greater,
        text_order(a, b) is Greater == text_order(b, a) is Less,
        text_order(a, b) is Equal == (a == b),
        comes_before(a, b) && comes_before(b, c) ==> comes_before(a, c),
{
    lemma_same_text(a, 0);
    lemma_two_texts(a, b, 0);
    lemma_three_texts(a, b, c, 0);
    if text_order(a, b) is Equal {
        assert(a =~= b);
    }
}

/// Whether no text comes before an earlier one.
pub open spec fn texts_sorted(s: Seq<Seq<char>>) -> bool {
    forall|i: int, j: int| 0 <= i < j < s.len() ==> !comes_before(#[trigger] s[j], #[trigger] s[i])
}

proof fn lemma_text_not_before(a: Seq<char>, b: Seq<char>, c: Seq<char>)
    requires
        !comes_before(b, a),
        !comes_before(c, b),
    ensures
        !comes_before(c, a),
{
    law_texts_are_ordered(a, b, c);
    law_texts_are_ordered(b, c, a);
    law_texts_are_ordered(c, a, b);
    law_texts_are_ordered(b, a, c);
    law_texts_are_ordered(c, b, a);
}

/// Sorts texts; the result holds the same texts.
pub fn sort_texts(texts: Vec<String>) -> (r: Vec<String>)
    ensures
        texts_sorted(strings(r@)),
        strings(r@).to_multiset() == strings(texts@).to_multiset(),
{
    let ghost given = strings(texts@);
    let mut out: Vec<String> = Vec::new();
    let mut rest: Vec<String> = texts;
    proof {
        assert(strings(out@) =~= Seq::<Seq<char>>::empty());
        strings(out@).to_multiset_ensures();
    }
    while rest.len() > 0
        invariant
            texts_sorted(strings(out@)),
            strings(out@).to_multiset().add(strings(rest@).to_multiset()) =~= given.to_multiset(),
        decreases rest.len(),
    {
        let ghost rest_before = strings(rest@);
        let ghost out_before = strings(out@);
        let x: String = match rest.pop() {
            Some(v) => v,
            None => {
                return out;
            },
        };
        let mut at: usize = 0;
        while at < out.len()
            invariant
                at <= out.len(),
                strings(out@) == out_before,
                forall|k: int| 0 <= k < at ==> !comes_before(x@, #[trigger] out_before[k]),
            ensures
                at <= out.len(),
                strings(out@) == out_before,
                forall|k: int| 0 <= k < at ==> !comes_before(x@, #[trigger] out_before[k]),
                at < out.len() ==> comes_before(x@, out_before[at as int]),
            decreases out.len() - at,
        {
            match order_texts(x.as_str(), out[at].as_str()) {
                Order::Less => {
                    break;
                },
                _ => {},
            }
            at = at + 1;
        }
        out.insert(at, x);
        proof {
            let after = strings(out@);
            assert(after =~= out_before.insert(at as int, x@));
            assert(rest_before =~= strings(rest@).push(x@));
            strings(rest@).to_multiset_ensures();
            assert(rest_before.to_multiset() =~= strings(rest@).to_multiset().insert(x@));
            lemma_insert_multiset(out_before, at as int, x@);
            assert forall|i: int, j: int| 0 <= i < j < after.len() implies !comes_before(
                #[trigger] after[j],
                #[trigger] after[i],
            ) by {
                if j == at {
                    assert(after[i] == out_before[i]);
                } else if i == at {
                    assert(after[j] == out_before[j - 1]);
                    law_texts_are_ordered(x@, out_before[at as int], x@);
                    if j - 1 > at {
                        assert(!comes_before(out_before[j - 1], out_before[at as int]));
                        law_texts_are_ordered(out_before[at as int], x@, x@);
                        lemma_text_not_before(x@, out_before[at as int], out_before[j - 1]);
                    }
                } else {
                    let a = if i < at {
                        i
                    } else {
                        i - 1
                    };
                    let b = if j < at {
                        j
                    } else {
                        j - 1
                    };
                    assert(after[i] == out_before[a]);
                    assert(after[j] == out_before[b]);
                }
            }
        }
    }
    proof {
        assert(strings(rest@) =~= Seq::<Seq<char>>::empty());
        strings(rest@).to_multiset_ensures();
        assert(strings(rest@).to_multiset() =~= Multiset::empty());
    }
    out
}

/// Sorting does not depend on the order in which texts are given: two sorted lists of the same
/// texts are the same list.
pub proof fn law_sorted_texts_are_unique(a: Seq<Seq<char>>, b: Seq<Seq<char>>)
    requires
        texts_sorted(a),
        texts_sorted(b),
        a.to_multiset() == b.to_multiset(),
    ensures
        a == b,
{
    let leq = |x: Seq<char>, y: Seq<char>| !comes_before(y, x);
    assert(total_ordering(leq)) by {
        assert forall|x: Seq<char>| #[trigger] leq(x, x) by {
            law_texts_are_ordered(x, x, x);
        }
        assert forall|x: Seq<char>, y: Seq<char>| #[trigger] leq(x, y) && #[trigger]
            leq(y, x) implies x == y by {
            law_texts_are_ordered(x, y, x);
            law_texts_are_ordered(y, x, y);
        }
        assert forall|x: Seq<char>, y: Seq<char>, z: Seq<char>| #[trigger]
            leq(x, y) && #[trigger] leq(y, z) implies leq(x, z) by {
            lemma_text_not_before(x, y, z);
        }
        assert forall|x: Seq<char>, y: Seq<char>| #[trigger] leq(x, y) || #[trigger] leq(y, x) by {
            law_texts_are_ordered(x, y, x);
            law_texts_are_ordered(y, x, y);
        }
    }
    assert(sorted_by(a, leq)) by {
        assert forall|i: int, j: int| 0 <= i < j < a.len() implies #[trigger] leq(a[i], a[j]) by {}
    }
    assert(sorted_by(b, leq)) by {
        assert forall|i: int, j: int| 0 <= i < j < b.len() implies #[trigger] leq(b[i], b[j]) by {}
    }
    lemma_sorted_unique(a, b, leq);
}

/// Identity of something stored: its kind, its logical key, and the digests of its parameters
/// and its content.
#[derive(Debug)]
pub struct ArtifactRef {
    pub kind: String,
    pub logical_key: String,
    pub parameters_digest: String,
    pub content_digest: String,
}

/// A reference, as mathematics.
pub struct RefView {
    pub kind: Seq<char>,
    pub logical_key: Seq<char>,
    pub parameters_digest: Seq<char>,
    pub content_digest: Seq<char>,
}

impl View for ArtifactRef {
    type V = RefView;

    open spec fn view(&self) -> RefView {
        RefView {
            kind: self.kind@,
            logical_key: self.logical_key@,
            parameters_digest: self.parameters_digest@,
            content_digest: self.content_digest@,
        }
    }
}

/// The references of a list.
pub open spec fn refs(s: Seq<ArtifactRef>) -> Seq<RefView> {
    Seq::new(s.len(), |i: int| s[i]@)
}

/// Order of references: by kind, then logical key, then parameters, then content.
pub open spec fn ref_order(a: RefView, b: RefView) -> Order {
    if !(text_order(a.kind, b.kind) is Equal) {
        text_order(a.kind, b.kind)
    } else if !(text_order(a.logical_key, b.logical_key) is Equal) {
        text_order(a.logical_key, b.logical_key)
    } else if !(text_order(a.parameters_digest, b.parameters_digest) is Equal) {
        text_order(a.parameters_digest, b.parameters_digest)
    } else {
        text_order(a.content_digest, b.content_digest)
    }
}

fn order_refs(a: &ArtifactRef, b: &ArtifactRef) -> (r: Order)
    ensures
        r == ref_order(a@, b@),
{
    match order_texts(a.kind.as_str(), b.kind.as_str()) {
        Order::Equal => match order_texts(a.logical_key.as_str(), b.logical_key.as_str()) {
            Order::Equal => match order_texts(
                a.parameters_digest.as_str(),
                b.parameters_digest.as_str(),
            ) {
                Order::Equal => order_texts(
                    a.content_digest.as_str(),
                    b.content_digest.as_str(),
                ),
                o => o,
            },
            o => o,
        },
        o => o,
    }
}

/// Whether no reference comes before an earlier one.
pub open spec fn refs_sorted(s: Seq<RefView>) -> bool {
    forall|i: int, j: int|
        0 <= i < j < s.len() ==> !(ref_order(#[trigger] s[j], #[trigger] s[i]) is Less)
}

/// The order of references is total, and references that are equal in it are the same.
pub proof fn law_refs_are_ordered(a: RefView, b: RefView, c: RefView)
    ensures
        ref_order(a, b) is Less == ref_order(b, a) is Greater,
        ref_order(a, b) is Equal == (a == b),
        ref_order(a, b) is Less && ref_order(b, c) is Less ==> ref_order(a, c) is Less,
{
    law_texts_are_ordered(a.kind, b.kind, c.kind);
    law_texts_are_ordered(a.logical_key, b.logical_key, c.logical_key);
    law_texts_are_ordered(a.parameters_digest, b.parameters_digest, c.parameters_digest);
    law_texts_are_ordered(a.content_digest, b.content_digest, c.content_digest);
    law_texts_are_ordered(b.kind, c.kind, a.kind);
    law_texts_are_ordered(b.logical_key, c.logical_key, a.logical_key);
    law_texts_are_ordered(b.parameters_digest, c.parameters_digest, a.parameters_digest);
}

proof fn lemma_not_less(a: RefView, b: RefView, c: RefView)
    requires
        !(ref_order(b, a) is Less),
        !(ref_order(c, b) is Less),
    ensures
        !(ref_order(c, a) is Less),
{
    law_refs_are_ordered(a, b, c);
    law_refs_are_ordered(b, c, a);
    law_refs_are_ordered(c, a, b);
    law_refs_are_ordered(b, a, c);
    law_refs_are_ordered(c, b, a);
}

/// Sorts references; the result holds the same references.
fn sort_refs(artifacts: Vec<ArtifactRef>) -> (r: Vec<ArtifactRef>)
    ensures
        refs_sorted(refs(r@)),
        refs(r@).to_multiset() == refs(artifacts@).to_multiset(),
{
    let ghost given = refs(artifacts@);
    let mut out: Vec<ArtifactRef> = Vec::new();
    let mut rest: Vec<ArtifactRef> = artifacts;
    proof {
        assert(refs(out@) =~= Seq::<RefView>::empty());
        refs(out@).to_multiset_ensures();
    }
    while rest.len() > 0
        invariant
            refs_sorted(refs(out@)),
            refs(out@).to_multiset().add(refs(rest@).to_multiset()) =~= given.to_multiset(),
        decreases rest.len(),
    {
        let ghost rest_before = refs(rest@);
        let ghost out_before = refs(out@);
        let x: ArtifactRef = match rest.pop() {
            Some(v) => v,
            None => {
                return out;
            },
        };
        let mut at: usize = 0;
        while at < out.len()
            invariant
                at <= out.len(),
                refs(out@) == out_before,
                refs_sorted(out_before),
                forall|k: int|
                    0 <= k < at ==> !(ref_order(x@, #[trigger] out_before[k]) is Less),
            ensures
                at <= out.len(),
                refs(out@) == out_before,
                forall|k: int|
                    0 <= k < at ==> !(ref_order(x@, #[trigger] out_before[k]) is Less),
                at < out.len() ==> ref_order(x@, out_before[at as int]) is Less,
            decreases out.len() - at,
        {
            match order_refs(&x, &out[at]) {
                Order::Less => {
                    break;
                },
                _ => {},
            }
            at = at + 1;
        }
        out.insert(at, x);
        proof {
            let after = refs(out@);
            assert(after =~= out_before.insert(at as int, x@));
            assert(rest_before =~= refs(rest@).push(x@));
            refs(rest@).to_multiset_ensures();
            out_before.to_multiset_ensures();
            assert(rest_before.to_multiset() =~= refs(rest@).to_multiset().insert(x@));
            assert(after.to_multiset() =~= out_before.to_multiset().insert(x@)) by {
                lemma_insert_multiset(out_before, at as int, x@);
            }
            assert forall|i: int, j: int| 0 <= i < j < after.len() implies !(ref_order(
                #[trigger] after[j],
                #[trigger] after[i],
            ) is Less) by {
                if j == at {
                    assert(after[i] == out_before[i]);
                } else if i == at {
                    assert(after[j] == out_before[j - 1]);
                    law_refs_are_ordered(x@, out_before[at as int], x@);
                    if j - 1 > at {
                        assert(!(ref_order(out_before[j - 1], out_before[at as int]) is Less));
                        law_refs_are_ordered(out_before[at as int], x@, x@);
                        lemma_not_less(x@, out_before[at as int], out_before[j - 1]);
                    }
                } else {
                    let a = if i < at {
                        i
                    } else {
                        i - 1
                    };
                    let b = if j < at {
                        j
                    } else {
                        j - 1
                    };
                    assert(after[i] == out_before[a]);
                    assert(after[j] == out_before[b]);
                }
            }
        }
    }
    proof {
        assert(refs(rest@) =~= Seq::<RefView>::empty());
        refs(rest@).to_multiset_ensures();
        assert(refs(rest@).to_multiset() =~= Multiset::empty());
    }
    out
}

proof fn lemma_insert_multiset<A>(s: Seq<A>, at: int, x: A)
    requires
        0 <= at <= s.len(),
    ensures
        s.insert(at, x).to_multiset() =~= s.to_multiset().insert(x),
{
    let left = s.take(at);
    let right = s.skip(at);
    assert(s =~= left + right);
    assert(s.insert(at, x) =~= (left + seq![x]) + right);
    lemma_multiset_commutative(left, right);
    lemma_multiset_commutative(left + seq![x], right);
    assert(left + seq![x] =~= left.push(x));
    left.to_multiset_ensures();
}

/// A reference to an artifact that another one rests on, with the quality that it has to have.
#[derive(Debug)]
pub struct DependencyRef {
    pub artifact: ArtifactRef,
    pub required_quality: ArtifactQuality,
}

/// The artifacts that dependencies refer to.
pub open spec fn referred(s: Seq<DependencyRef>) -> Seq<RefView> {
    Seq::new(s.len(), |i: int| s[i].artifact@)
}

/// The dependencies on artifacts, in canonical order: each artifact once for each time that it is
/// given, and every one of them required to be validated.
pub fn canonical_dependency_refs(artifacts: Vec<ArtifactRef>) -> (r: Vec<DependencyRef>)
    ensures
        refs_sorted(referred(r@)),
        referred(r@).to_multiset() == refs(artifacts@).to_multiset(),
        forall|i: int|
            0 <= i < r@.len() ==> (#[trigger] r@[i]).required_quality == ArtifactQuality::Validated,
{
    let mut rest: Vec<ArtifactRef> = sort_refs(artifacts);
    let ghost sorted = refs(rest@);
    let mut out: Vec<DependencyRef> = Vec::with_capacity(rest.len());
    assert(sorted =~= referred(out@) + refs(rest@));
    while rest.len() > 0
        invariant
            sorted == referred(out@) + refs(rest@),
            forall|i: int|
                0 <= i < out@.len() ==> (#[trigger] out@[i]).required_quality
                    == ArtifactQuality::Validated,
        decreases rest.len(),
    {
        let ghost before = refs(rest@);
        let ghost taken = referred(out@);
        let artifact: ArtifactRef = rest.remove(0);
        out.push(DependencyRef { artifact, required_quality: ArtifactQuality::Validated });
        proof {
            assert(before =~= seq![artifact@] + refs(rest@));
            assert(referred(out@) =~= taken.push(artifact@));
            assert(sorted =~= referred(out@) + refs(rest@));
        }
    }
    assert(sorted =~= referred(out@));
    out
}

/// The canonical order does not depend on the order in which references are given: two sorted
/// lists of the same references are the same list.
pub proof fn law_canonical_order_is_unique(a: Seq<RefView>, b: Seq<RefView>)
    requires
        refs_sorted(a),
        refs_sorted(b),
        a.to_multiset() == b.to_multiset(),
    ensures
        a == b,
{
    let leq = |x: RefView, y: RefView| !(ref_order(y, x) is Less);
    assert(total_ordering(leq)) by {
        assert forall|x: RefView| #[trigger] leq(x, x) by {
            law_refs_are_ordered(x, x, x);
        }
        assert forall|x: RefView, y: RefView| #[trigger] leq(x, y) && #[trigger] leq(y, x) implies x
            == y by {
            law_refs_are_ordered(x, y, x);
            law_refs_are_ordered(y, x, y);
        }
        assert forall|x: RefView, y: RefView, z: RefView| #[trigger]
            leq(x, y) && #[trigger] leq(y, z) implies leq(x, z) by {
            lemma_not_less(x, y, z);
        }
        assert forall|x: RefView, y: RefView| #[trigger] leq(x, y) || #[trigger] leq(y, x) by {
            law_refs_are_ordered(x, y, x);
            law_refs_are_ordered(y, x, y);
        }
    }
    assert(sorted_by(a, leq)) by {
        assert forall|i: int, j: int| 0 <= i < j < a.len() implies #[trigger] leq(a[i], a[j]) by {}
    }
    assert(sorted_by(b, leq)) by {
        assert forall|i: int, j: int| 0 <= i < j < b.len() implies #[trigger] leq(b[i], b[j]) by {}
    }
    lemma_sorted_unique(a, b, leq);
}

} // verus!
