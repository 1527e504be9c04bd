//! The arithmetic that the store computes with, and what is built from it: sums, dot products,
//! norms, cosines and means.
//!
//! A caller brings the operations as a [`Numerics`]; nothing is assumed of them. The predicates
//! below say which operation is applied to what, and in which order.

use vstd::prelude::*;

use crate::scalar::{
    exceeds, greater, rank, Double, Single, ONE, TEN_THOUSAND, TEN_THOUSAND_WIDE, TINY, ZERO,
};

verus! {

/// Operations on numbers that are given by their bits.
pub trait Numerics: Sync {
    /// `a + b`
    fn add(&self, a: Single, b: Single) -> Single;

    /// `a * b`
    fn mul(&self, a: Single, b: Single) -> Single;

    /// `a / b`
    fn div(&self, a: Single, b: Single) -> Single;

    /// The square root of `a`.
    fn sqrt(&self, a: Single) -> Single;

    /// The integer nearest to `a`.
    fn round(&self, a: Single) -> Single;

    /// `n` as a number.
    fn count(&self, n: usize) -> Single;

    /// `a` in the wider format.
    fn widen(&self, a: Single) -> Double;

    /// `a * b` in the wider format.
    fn mul_wide(&self, a: Double, b: Double) -> Double;

    /// `a / b` in the wider format.
    fn div_wide(&self, a: Double, b: Double) -> Double;

    /// The integer nearest to `a`, in the wider format.
    fn round_wide(&self, a: Double) -> Double;

    /// The number that a text spells out, if it does.
    fn parse(&self, text: &str) -> Option<Single>;
}

/// `r` is what `k` gives for `a + b`.
pub open spec fn added<K: Numerics>(k: &K, a: Single, b: Single, r: Single) -> bool {
    call_ensures(K::add, (k, a, b), r)
}

/// `r` is what `k` gives for `a * b`.
pub open spec fn multiplied<K: Numerics>(k: &K, a: Single, b: Single, r: Single) -> bool {
    call_ensures(K::mul, (k, a, b), r)
}

/// `r` is what `k` gives for `a / b`.
pub open spec fn divided<K: Numerics>(k: &K, a: Single, b: Single, r: Single) -> bool {
    call_ensures(K::div, (k, a, b), r)
}

/// `r` is what `k` gives for the square root of `a`.
pub open spec fn rooted<K: Numerics>(k: &K, a: Single, r: Single) -> bool {
    call_ensures(K::sqrt, (k, a), r)
}

/// `r` is what `k` gives for the integer nearest to `a`.
pub open spec fn rounded<K: Numerics>(k: &K, a: Single, r: Single) -> bool {
    call_ensures(K::round, (k, a), r)
}

/// `r` is what `k` gives for `n` as a number.
pub open spec fn counted<K: Numerics>(k: &K, n: usize, r: Single) -> bool {
    call_ensures(K::count, (k, n), r)
}

/// `r` is what `k` gives for `a` in the wider format.
pub open spec fn widened<K: Numerics>(k: &K, a: Single, r: Double) -> bool {
    call_ensures(K::widen, (k, a), r)
}

/// `r` is what `k` gives for `a * b` in the wider format.
pub open spec fn multiplied_wide<K: Numerics>(k: &K, a: Double, b: Double, r: Double) -> bool {
    call_ensures(K::mul_wide, (k, a, b), r)
}

/// `r` is what `k` gives for `a / b` in the wider format.
pub open spec fn divided_wide<K: Numerics>(k: &K, a: Double, b: Double, r: Double) -> bool {
    call_ensures(K::div_wide, (k, a, b), r)
}

/// `r` is what `k` gives for the integer nearest to `a`, in the wider format.
pub open spec fn rounded_wide<K: Numerics>(k: &K, a: Double, r: Double) -> bool {
    call_ensures(K::round_wide, (k, a), r)
}

/// `r` is what `k` reads out of `text`.
pub open spec fn spelled<K: Numerics>(k: &K, text: Seq<char>, r: Option<Single>) -> bool {
    exists|t: &str| t@ == text && #[trigger] call_ensures(K::parse, (k, t), r)
}

/// `sums` are the running sums of `terms`, from 0 on and from the first term to the last.
pub open spec fn running_sums<K: Numerics>(k: &K, terms: Seq<Single>, sums: Seq<Single>) -> bool {
    &&& sums.len() == terms.len() + 1
    &&& sums[0] == ZERO
    &&& forall|i: int|
        0 <= i < terms.len() ==> added(k, #[trigger] sums[i], terms[i], sums[i + 1])
}

/// `r` is the sum of `terms`, added up from 0 on and from the first term to the last.
pub open spec fn is_sum<K: Numerics>(k: &K, terms: Seq<Single>, r: Single) -> bool {
    exists|sums: Seq<Single>| #[trigger] running_sums(k, terms, sums) && sums.last() == r
}

/// `products` are the products of the components of `a` and `b`.
pub open spec fn products_of<K: Numerics>(
    k: &K,
    a: Seq<Single>,
    b: Seq<Single>,
    products: Seq<Single>,
) -> bool {
    &&& products.len() == a.len()
    &&& forall|i: int| 0 <= i < a.len() ==> multiplied(k, a[i], b[i], #[trigger] products[i])
}

/// `r` is the dot product of `a` and `b`.
pub open spec fn is_dot<K: Numerics>(k: &K, a: Seq<Single>, b: Seq<Single>, r: Single) -> bool {
    exists|products: Seq<Single>| #[trigger]
        products_of(k, a, b, products) && is_sum(k, products, r)
}

/// `r` is the length of `v`: the square root of its dot product with itself.
pub open spec fn is_norm<K: Numerics>(k: &K, v: Seq<Single>, r: Single) -> bool {
    exists|square: Single| #[trigger] is_dot(k, v, v, square) && rooted(k, square, r)
}

/// `r` is the cosine of the angle between `a`, of length `na`, and `b`, of length `nb`: their dot
/// product divided by the product of the lengths, and 0 where that product is not above `1e-12`.
pub open spec fn is_cosine<K: Numerics>(
    k: &K,
    a: Seq<Single>,
    na: Single,
    b: Seq<Single>,
    nb: Single,
    r: Single,
) -> bool {
    exists|raw: Single, lengths: Single| #[trigger]
        is_dot(k, a, b, raw) && #[trigger] multiplied(k, na, nb, lengths) && if exceeds(
            lengths,
            TINY,
        ) {
            divided(k, raw, lengths, r)
        } else {
            r == ZERO
        }
}

/// `r` is `1 / n`.
pub open spec fn is_share<K: Numerics>(k: &K, n: usize, r: Single) -> bool {
    exists|c: Single| #[trigger] counted(k, n, c) && divided(k, ONE, c, r)
}

/// `r` is `terms` added up and multiplied by `share`.
pub open spec fn is_mean<K: Numerics>(
    k: &K,
    terms: Seq<Single>,
    share: Single,
    r: Single,
) -> bool {
    exists|sum: Single| #[trigger] is_sum(k, terms, sum) && multiplied(k, sum, share, r)
}

/// `r` is `a` to four decimal places: multiplied by 10000, rounded, divided by 10000.
pub open spec fn is_to_four_places<K: Numerics>(k: &K, a: Single, r: Single) -> bool {
    exists|scaled: Single, whole: Single| #[trigger]
        multiplied(k, a, TEN_THOUSAND, scaled) && #[trigger] rounded(k, scaled, whole) && divided(
            k,
            whole,
            TEN_THOUSAND,
            r,
        )
}

/// `r` is `a` to four decimal places, computed in the wider format.
pub open spec fn is_to_four_places_wide<K: Numerics>(k: &K, a: Single, r: Double) -> bool {
    exists|wide: Double, scaled: Double, whole: Double| #[trigger]
        widened(k, a, wide) && #[trigger] multiplied_wide(k, wide, TEN_THOUSAND_WIDE, scaled)
            && #[trigger] rounded_wide(k, scaled, whole) && divided_wide(
            k,
            whole,
            TEN_THOUSAND_WIDE,
            r,
        )
}

proof fn lemma_one_more_term<K: Numerics>(
    k: &K,
    terms: Seq<Single>,
    sums: Seq<Single>,
    term: Single,
    next: Single,
)
    requires
        running_sums(k, terms, sums),
        added(k, sums.last(), term, next),
    ensures
        running_sums(k, terms.push(term), sums.push(next)),
{
    let longer = terms.push(term);
    let further = sums.push(next);
    assert forall|j: int| 0 <= j < longer.len() implies added(
        k,
        #[trigger] further[j],
        longer[j],
        further[j + 1],
    ) by {
        if j < terms.len() {
            assert(further[j] == sums[j]);
            assert(further[j + 1] == sums[j + 1]);
            assert(longer[j] == terms[j]);
        }
    }
}

/// The dot product of `a` and `b`.
pub fn dot<K: Numerics>(k: &K, a: &[Single], b: &[Single]) -> (r: Single)
    requires
        a@.len() == b@.len(),
    ensures
        is_dot(k, a@, b@, r),
{
    let mut sum: Single = ZERO;
    let ghost mut products: Seq<Single> = Seq::empty();
    let ghost mut sums: Seq<Single> = seq![ZERO];
    let mut i: usize = 0;
    while i < a.len()
        invariant
            i <= a@.len(),
            a@.len() == b@.len(),
            products_of(k, a@.take(i as int), b@.take(i as int), products),
            running_sums(k, products, sums),
            sums.last() == sum,
        decreases a@.len() - i,
    {
        let product = k.mul(a[i], b[i]);
        let next = k.add(sum, product);
        proof {
            assert(multiplied(k, a@[i as int], b@[i as int], product));
            assert(added(k, sum, product, next));
            lemma_one_more_term(k, products, sums, product, next);
            products = products.push(product);
            sums = sums.push(next);
        }
        sum = next;
        i = i + 1;
    }
    proof {
        assert(a@.take(i as int) == a@);
        assert(b@.take(i as int) == b@);
        assert(is_sum(k, products, sum));
    }
    sum
}

/// The length of `v`.
pub fn norm<K: Numerics>(k: &K, v: &[Single]) -> (r: Single)
    ensures
        is_norm(k, v@, r),
{
    let square = dot(k, v, v);
    let r = k.sqrt(square);
    proof {
        assert(rooted(k, square, r));
    }
    r
}

/// The cosine of the angle between `a`, of length `na`, and `b`, of length `nb`.
pub fn cosine<K: Numerics>(
    k: &K,
    a: &[Single],
    na: Single,
    b: &[Single],
    nb: Single,
) -> (r: Single)
    requires
        a@.len() == b@.len(),
    ensures
        is_cosine(k, a@, na, b@, nb, r),
{
    let raw = dot(k, a, b);
    let lengths = k.mul(na, nb);
    proof {
        assert(multiplied(k, na, nb, lengths));
    }
    if greater(lengths, TINY) {
        let r = k.div(raw, lengths);
        proof {
            assert(divided(k, raw, lengths, r));
        }
        r
    } else {
        ZERO
    }
}

/// `1 / n`.
pub fn share<K: Numerics>(k: &K, n: usize) -> (r: Single)
    ensures
        is_share(k, n, r),
{
    let c = k.count(n);
    let r = k.div(ONE, c);
    proof {
        assert(counted(k, n, c));
        assert(divided(k, ONE, c, r));
    }
    r
}

/// `terms` added up and multiplied by `share`.
pub fn mean<K: Numerics>(k: &K, terms: &[Single], share: Single) -> (r: Single)
    ensures
        is_mean(k, terms@, share, r),
{
    let mut sum: Single = ZERO;
    let ghost mut sums: Seq<Single> = seq![ZERO];
    let mut i: usize = 0;
    while i < terms.len()
        invariant
            i <= terms@.len(),
            running_sums(k, terms@.take(i as int), sums),
            sums.last() == sum,
        decreases terms@.len() - i,
    {
        let next = k.add(sum, terms[i]);
        proof {
            assert(added(k, sum, terms@[i as int], next));
            lemma_one_more_term(k, terms@.take(i as int), sums, terms@[i as int], next);
            assert(terms@.take(i + 1) == terms@.take(i as int).push(terms@[i as int]));
            sums = sums.push(next);
        }
        sum = next;
        i = i + 1;
    }
    let r = k.mul(sum, share);
    proof {
        assert(terms@.take(i as int) == terms@);
        assert(is_sum(k, terms@, sum));
        assert(multiplied(k, sum, share, r));
    }
    r
}

/// `a` to four decimal places.
pub fn to_four_places<K: Numerics>(k: &K, a: Single) -> (r: Single)
    ensures
        is_to_four_places(k, a, r),
{
    let scaled = k.mul(a, TEN_THOUSAND);
    let whole = k.round(scaled);
    let r = k.div(whole, TEN_THOUSAND);
    proof {
        assert(multiplied(k, a, TEN_THOUSAND, scaled));
        assert(rounded(k, scaled, whole));
        assert(divided(k, whole, TEN_THOUSAND, r));
    }
    r
}

/// `a` to four decimal places, in the wider format.
pub fn to_four_places_wide<K: Numerics>(k: &K, a: Single) -> (r: Double)
    ensures
        is_to_four_places_wide(k, a, r),
{
    let wide = k.widen(a);
    let scaled = k.mul_wide(wide, TEN_THOUSAND_WIDE);
    let whole = k.round_wide(scaled);
    let r = k.div_wide(whole, TEN_THOUSAND_WIDE);
    proof {
        assert(widened(k, a, wide));
        assert(multiplied_wide(k, wide, TEN_THOUSAND_WIDE, scaled));
        assert(rounded_wide(k, scaled, whole));
        assert(divided_wide(k, whole, TEN_THOUSAND_WIDE, r));
    }
    r
}

/// Each operation of `k` has one outcome.
pub open spec fn functional<K: Numerics>(k: &K) -> bool {
    &&& forall|a: Single, b: Single, r: Single, s: Single| #[trigger]
        added(k, a, b, r) && #[trigger] added(k, a, b, s) ==> r == s
    &&& forall|a: Single, b: Single, r: Single, s: Single| #[trigger]
        multiplied(k, a, b, r) && #[trigger] multiplied(k, a, b, s) ==> r == s
    &&& forall|a: Single, b: Single, r: Single, s: Single| #[trigger]
        divided(k, a, b, r) && #[trigger] divided(k, a, b, s) ==> r == s
    &&& forall|a: Single, r: Single, s: Single| #[trigger]
        rooted(k, a, r) && #[trigger] rooted(k, a, s) ==> r == s
    &&& forall|a: Single, r: Single, s: Single| #[trigger]
        rounded(k, a, r) && #[trigger] rounded(k, a, s) ==> r == s
    &&& forall|n: usize, r: Single, s: Single| #[trigger]
        counted(k, n, r) && #[trigger] counted(k, n, s) ==> r == s
    &&& forall|a: Single, r: Double, s: Double| #[trigger]
        widened(k, a, r) && #[trigger] widened(k, a, s) ==> r == s
    &&& forall|a: Double, b: Double, r: Double, s: Double| #[trigger]
        multiplied_wide(k, a, b, r) && #[trigger] multiplied_wide(k, a, b, s) ==> r == s
    &&& forall|a: Double, b: Double, r: Double, s: Double| #[trigger]
        divided_wide(k, a, b, r) && #[trigger] divided_wide(k, a, b, s) ==> r == s
    &&& forall|a: Double, r: Double, s: Double| #[trigger]
        rounded_wide(k, a, r) && #[trigger] rounded_wide(k, a, s) ==> r == s
    &&& forall|t: Seq<char>, r: Option<Single>, s: Option<Single>| #[trigger]
        spelled(k, t, r) && #[trigger] spelled(k, t, s) ==> r == s
}

/// Where each operation has one outcome, so has a sum.
pub proof fn law_sum_is_determined<K: Numerics>(k: &K, terms: Seq<Single>, r: Single, s: Single)
    requires
        functional(k),
        is_sum(k, terms, r),
        is_sum(k, terms, s),
    ensures
        r == s,
{
    let a = choose|sums: Seq<Single>| #[trigger]
        running_sums(k, terms, sums) && sums.last() == r;
    let b = choose|sums: Seq<Single>| #[trigger]
        running_sums(k, terms, sums) && sums.last() == s;
    lemma_running_sums_agree(k, terms, a, b, terms.len());
}

proof fn lemma_running_sums_agree<K: Numerics>(
    k: &K,
    terms: Seq<Single>,
    a: Seq<Single>,
    b: Seq<Single>,
    n: nat,
)
    requires
        functional(k),
        running_sums(k, terms, a),
        running_sums(k, terms, b),
        n <= terms.len(),
    ensures
        a[n as int] == b[n as int],
    decreases n,
{
    if n > 0 {
        lemma_running_sums_agree(k, terms, a, b, (n - 1) as nat);
        assert(added(k, a[n - 1], terms[n - 1], a[n - 1 + 1]));
        assert(added(k, b[n - 1], terms[n - 1], b[n - 1 + 1]));
    }
}

/// Where each operation has one outcome, so has a dot product.
pub proof fn law_dot_is_determined<K: Numerics>(
    k: &K,
    a: Seq<Single>,
    b: Seq<Single>,
    r: Single,
    s: Single,
)
    requires
        functional(k),
        is_dot(k, a, b, r),
        is_dot(k, a, b, s),
    ensures
        r == s,
{
    let p = choose|products: Seq<Single>| #[trigger]
        products_of(k, a, b, products) && is_sum(k, products, r);
    let q = choose|products: Seq<Single>| #[trigger]
        products_of(k, a, b, products) && is_sum(k, products, s);
    assert forall|i: int| 0 <= i < p.len() implies p[i] == q[i] by {
        assert(multiplied(k, a[i], b[i], p[i]));
        assert(multiplied(k, a[i], b[i], q[i]));
    }
    assert(p == q);
    law_sum_is_determined(k, p, r, s);
}

/// Where each operation has one outcome, so has the length of a vector.
pub proof fn law_norm_is_determined<K: Numerics>(k: &K, v: Seq<Single>, r: Single, s: Single)
    requires
        functional(k),
        is_norm(k, v, r),
        is_norm(k, v, s),
    ensures
        r == s,
{
    let a = choose|square: Single| #[trigger] is_dot(k, v, v, square) && rooted(k, square, r);
    let b = choose|square: Single| #[trigger] is_dot(k, v, v, square) && rooted(k, square, s);
    law_dot_is_determined(k, v, v, a, b);
}

/// Where each operation has one outcome, so has a cosine.
pub proof fn law_cosine_is_determined<K: Numerics>(
    k: &K,
    a: Seq<Single>,
    na: Single,
    b: Seq<Single>,
    nb: Single,
    r: Single,
    s: Single,
)
    requires
        functional(k),
        is_cosine(k, a, na, b, nb, r),
        is_cosine(k, a, na, b, nb, s),
    ensures
        r == s,
{
    let (raw1, lengths1) = choose|raw: Single, lengths: Single| #[trigger]
        is_dot(k, a, b, raw) && #[trigger] multiplied(k, na, nb, lengths) && if exceeds(
            lengths,
            TINY,
        ) {
            divided(k, raw, lengths, r)
        } else {
            r == ZERO
        };
    let (raw2, lengths2) = choose|raw: Single, lengths: Single| #[trigger]
        is_dot(k, a, b, raw) && #[trigger] multiplied(k, na, nb, lengths) && if exceeds(
            lengths,
            TINY,
        ) {
            divided(k, raw, lengths, s)
        } else {
            s == ZERO
        };
    law_dot_is_determined(k, a, b, raw1, raw2);
}

/// Where each operation has one outcome, so has a mean.
pub proof fn law_mean_is_determined<K: Numerics>(
    k: &K,
    terms: Seq<Single>,
    share: Single,
    r: Single,
    s: Single,
)
    requires
        functional(k),
        is_mean(k, terms, share, r),
        is_mean(k, terms, share, s),
    ensures
        r == s,
{
    let a = choose|sum: Single| #[trigger] is_sum(k, terms, sum) && multiplied(k, sum, share, r);
    let b = choose|sum: Single| #[trigger] is_sum(k, terms, sum) && multiplied(k, sum, share, s);
    law_sum_is_determined(k, terms, a, b);
}

/// Where each operation has one outcome, so has a number to four decimal places.
pub proof fn law_four_places_are_determined<K: Numerics>(k: &K, a: Single, r: Single, s: Single)
    requires
        functional(k),
        is_to_four_places(k, a, r),
        is_to_four_places(k, a, s),
    ensures
        r == s,
{
}

/// Where each operation has one outcome, so has a number to four decimal places in the wider
/// format.
pub proof fn law_wide_four_places_are_determined<K: Numerics>(
    k: &K,
    a: Single,
    r: Double,
    s: Double,
)
    requires
        functional(k),
        is_to_four_places_wide(k, a, r),
        is_to_four_places_wide(k, a, s),
    ensures
        r == s,
{
}

/// The operations by which `k` rounds to four places keep the order of what they are given, as
/// those of IEEE 754 do.
pub open spec fn keeps_order<K: Numerics>(k: &K) -> bool {
    &&& forall|a: Single, b: Single, r: Single, s: Single| #[trigger]
        multiplied(k, a, TEN_THOUSAND, r) && #[trigger] multiplied(k, b, TEN_THOUSAND, s)
            && rank(a) <= rank(b) ==> rank(r) <= rank(s)
    &&& forall|a: Single, b: Single, r: Single, s: Single| #[trigger]
        rounded(k, a, r) && #[trigger] rounded(k, b, s) && rank(a) <= rank(b) ==> rank(r) <= rank(
            s,
        )
    &&& forall|a: Single, b: Single, r: Single, s: Single| #[trigger]
        divided(k, a, TEN_THOUSAND, r) && #[trigger] divided(k, b, TEN_THOUSAND, s) && rank(a)
            <= rank(b) ==> rank(r) <= rank(s)
}

/// Where the operations keep the order, so does rounding to four decimal places.
pub proof fn law_four_places_keep_the_order<K: Numerics>(
    k: &K,
    a: Single,
    b: Single,
    r: Single,
    s: Single,
)
    requires
        keeps_order(k),
        is_to_four_places(k, a, r),
        is_to_four_places(k, b, s),
        rank(a) <= rank(b),
    ensures
        rank(r) <= rank(s),
{
}

/// The relations are the operations that the caller brings, each applied to what it names.
pub proof fn law_relations_are_the_operations<K: Numerics>(
    k: &K,
    a: Single,
    b: Single,
    r: Single,
    n: usize,
    x: Double,
    y: Double,
    w: Double,
)
    ensures
        added(k, a, b, r) <==> call_ensures(K::add, (k, a, b), r),
        multiplied(k, a, b, r) <==> call_ensures(K::mul, (k, a, b), r),
        divided(k, a, b, r) <==> call_ensures(K::div, (k, a, b), r),
        rooted(k, a, r) <==> call_ensures(K::sqrt, (k, a), r),
        rounded(k, a, r) <==> call_ensures(K::round, (k, a), r),
        counted(k, n, r) <==> call_ensures(K::count, (k, n), r),
        widened(k, a, w) <==> call_ensures(K::widen, (k, a), w),
        multiplied_wide(k, x, y, w) <==> call_ensures(K::mul_wide, (k, x, y), w),
        divided_wide(k, x, y, w) <==> call_ensures(K::div_wide, (k, x, y), w),
        rounded_wide(k, x, w) <==> call_ensures(K::round_wide, (k, x), w),
{
}

/// What is read out of a text is what the caller's operation gives for that very text.
pub proof fn law_spelling_is_the_operation<K: Numerics>(k: &K, text: &str, r: Option<Single>)
    ensures
        call_ensures(K::parse, (k, text), r) ==> spelled(k, text@, r),
        spelled(k, text@, r) ==> exists|t: &str|
            t@ == text@ && #[trigger] call_ensures(K::parse, (k, t), r),
{
}

/// A sum comes of adding each term in turn, none left out, to what the terms before it came to, from
/// 0 on: the results of these additions are `sums`.
pub proof fn law_sum_adds_each_term<K: Numerics>(k: &K, terms: Seq<Single>, r: Single) -> (sums:
    Seq<Single>)
    requires
        is_sum(k, terms, r),
    ensures
        sums.len() == terms.len() + 1,
        sums[0] == ZERO,
        forall|i: int|
            0 <= i < terms.len() ==> added(k, #[trigger] sums[i], terms[i], sums[i + 1]),
        sums[terms.len() as int] == r,
{
    choose|sums: Seq<Single>| #[trigger] running_sums(k, terms, sums) && sums.last() == r
}

/// Whatever adding each term in turn comes to, from 0 on, is the sum.
pub proof fn law_adding_each_term_is_the_sum<K: Numerics>(
    k: &K,
    terms: Seq<Single>,
    sums: Seq<Single>,
)
    requires
        sums.len() == terms.len() + 1,
        sums[0] == ZERO,
        forall|i: int|
            0 <= i < terms.len() ==> added(k, #[trigger] sums[i], terms[i], sums[i + 1]),
    ensures
        is_sum(k, terms, sums[terms.len() as int]),
{
    assert(running_sums(k, terms, sums));
}

/// In a dot product every component counts, once and with its own counterpart: at each place the
/// components are multiplied, and all these products are added up in turn from 0 on. The products
/// are `w.0`, and the results of the additions `w.1`.
pub proof fn law_dot_adds_up_all_products<K: Numerics>(
    k: &K,
    a: Seq<Single>,
    b: Seq<Single>,
    r: Single,
) -> (w: (Seq<Single>, Seq<Single>))
    requires
        is_dot(k, a, b, r),
    ensures
        w.0.len() == a.len(),
        forall|i: int| 0 <= i < a.len() ==> multiplied(k, a[i], b[i], #[trigger] w.0[i]),
        w.1.len() == a.len() + 1,
        w.1[0] == ZERO,
        forall|i: int| 0 <= i < a.len() ==> added(k, #[trigger] w.1[i], w.0[i], w.1[i + 1]),
        w.1[a.len() as int] == r,
{
    let products = choose|products: Seq<Single>| #[trigger]
        products_of(k, a, b, products) && is_sum(k, products, r);
    (products, law_sum_adds_each_term(k, products, r))
}

/// Whatever the products of all components, added up in turn from 0 on, come to is the dot product.
pub proof fn law_added_up_products_are_the_dot<K: Numerics>(
    k: &K,
    a: Seq<Single>,
    b: Seq<Single>,
    products: Seq<Single>,
    sums: Seq<Single>,
)
    requires
        products.len() == a.len(),
        forall|i: int| 0 <= i < a.len() ==> multiplied(k, a[i], b[i], #[trigger] products[i]),
        sums.len() == a.len() + 1,
        sums[0] == ZERO,
        forall|i: int| 0 <= i < a.len() ==> added(k, #[trigger] sums[i], products[i], sums[i + 1]),
    ensures
        is_dot(k, a, b, sums[a.len() as int]),
{
    law_adding_each_term_is_the_sum(k, products, sums);
    assert(products_of(k, a, b, products));
}

/// The length of a vector is the root of the sum of the squares of all its components. The squares
/// are `w.0`, and the results of the additions `w.1`.
pub proof fn law_norm_is_the_root_of_all_squares<K: Numerics>(k: &K, v: Seq<Single>, r: Single) -> (
    w: (Seq<Single>, Seq<Single>))
    requires
        is_norm(k, v, r),
    ensures
        w.0.len() == v.len(),
        forall|i: int| 0 <= i < v.len() ==> multiplied(k, v[i], v[i], #[trigger] w.0[i]),
        w.1.len() == v.len() + 1,
        w.1[0] == ZERO,
        forall|i: int| 0 <= i < v.len() ==> added(k, #[trigger] w.1[i], w.0[i], w.1[i + 1]),
        rooted(k, w.1[v.len() as int], r),
{
    let square = choose|square: Single| #[trigger] is_dot(k, v, v, square) && rooted(k, square, r);
    law_dot_adds_up_all_products(k, v, v, square)
}

/// The cosine is the dot product over all components, divided by the product of the two lengths;
/// it is 0 just where that product is not above `1e-12`. The products of the components are `w.0`,
/// the results of the additions `w.1`, and the product of the lengths `w.2`.
pub proof fn law_cosine_is_the_quotient<K: Numerics>(
    k: &K,
    a: Seq<Single>,
    na: Single,
    b: Seq<Single>,
    nb: Single,
    r: Single,
) -> (w: (Seq<Single>, Seq<Single>, Single))
    requires
        is_cosine(k, a, na, b, nb, r),
    ensures
        w.0.len() == a.len(),
        forall|i: int| 0 <= i < a.len() ==> multiplied(k, a[i], b[i], #[trigger] w.0[i]),
        w.1.len() == a.len() + 1,
        w.1[0] == ZERO,
        forall|i: int| 0 <= i < a.len() ==> added(k, #[trigger] w.1[i], w.0[i], w.1[i + 1]),
        multiplied(k, na, nb, w.2),
        exceeds(w.2, TINY) ==> divided(k, w.1[a.len() as int], w.2, r),
        !exceeds(w.2, TINY) ==> r == ZERO,
{
    let (raw, lengths) = choose|raw: Single, lengths: Single| #[trigger]
        is_dot(k, a, b, raw) && #[trigger] multiplied(k, na, nb, lengths) && if exceeds(
            lengths,
            TINY,
        ) {
            divided(k, raw, lengths, r)
        } else {
            r == ZERO
        };
    let (products, sums) = law_dot_adds_up_all_products(k, a, b, raw);
    (products, sums, lengths)
}

/// A mean is the sum of all terms, each added in turn from 0 on, multiplied by the share. The
/// results of the additions are `sums`.
pub proof fn law_mean_is_a_share_of_the_sum<K: Numerics>(
    k: &K,
    terms: Seq<Single>,
    share: Single,
    r: Single,
) -> (sums: Seq<Single>)
    requires
        is_mean(k, terms, share, r),
    ensures
        sums.len() == terms.len() + 1,
        sums[0] == ZERO,
        forall|i: int|
            0 <= i < terms.len() ==> added(k, #[trigger] sums[i], terms[i], sums[i + 1]),
        multiplied(k, sums[terms.len() as int], share, r),
{
    let sum = choose|sum: Single| #[trigger] is_sum(k, terms, sum) && multiplied(k, sum, share, r);
    law_sum_adds_each_term(k, terms, sum)
}

/// The share of one in `n` is 1 divided by `n`; `c` is `n` as a number.
pub proof fn law_share_is_one_divided<K: Numerics>(k: &K, n: usize, r: Single) -> (c: Single)
    requires
        is_share(k, n, r),
    ensures
        counted(k, n, c),
        divided(k, ONE, c, r),
{
    choose|c: Single| #[trigger] counted(k, n, c) && divided(k, ONE, c, r)
}

/// Rounding to four places multiplies by 10000, gives the nearest integer and divides by 10000: the
/// product is `w.0`, and the integer `w.1`.
pub proof fn law_four_places_are_rounded<K: Numerics>(k: &K, a: Single, r: Single) -> (w: (
    Single,
    Single,
))
    requires
        is_to_four_places(k, a, r),
    ensures
        multiplied(k, a, TEN_THOUSAND, w.0),
        rounded(k, w.0, w.1),
        divided(k, w.1, TEN_THOUSAND, r),
{
    choose|scaled: Single, whole: Single| #[trigger]
        multiplied(k, a, TEN_THOUSAND, scaled) && #[trigger] rounded(k, scaled, whole) && divided(
            k,
            whole,
            TEN_THOUSAND,
            r,
        )
}

/// The same in the wider format, to which the number is brought first: it is `w.0` there, the
/// product is `w.1`, and the integer `w.2`.
pub proof fn law_wide_four_places_are_rounded<K: Numerics>(k: &K, a: Single, r: Double) -> (w: (
    Double,
    Double,
    Double,
))
    requires
        is_to_four_places_wide(k, a, r),
    ensures
        widened(k, a, w.0),
        multiplied_wide(k, w.0, TEN_THOUSAND_WIDE, w.1),
        rounded_wide(k, w.1, w.2),
        divided_wide(k, w.2, TEN_THOUSAND_WIDE, r),
{
    choose|wide: Double, scaled: Double, whole: Double| #[trigger]
        widened(k, a, wide) && #[trigger] multiplied_wide(k, wide, TEN_THOUSAND_WIDE, scaled)
            && #[trigger] rounded_wide(k, scaled, whole) && divided_wide(
            k,
            whole,
            TEN_THOUSAND_WIDE,
            r,
        )
}

/// What the functions of this module compute is what the relations say of their own arguments.
pub proof fn law_functions_compute_the_relations<K: Numerics>(
    k: &K,
    a: &[Single],
    b: &[Single],
    x: Single,
    y: Single,
    n: usize,
    r: Single,
    w: Double,
)
    ensures
        a@.len() == b@.len() && call_ensures(dot::<K>, (k, a, b), r) ==> is_dot(k, a@, b@, r),
        call_ensures(norm::<K>, (k, a), r) ==> is_norm(k, a@, r),
        a@.len() == b@.len() && call_ensures(cosine::<K>, (k, a, x, b, y), r) ==> is_cosine(
            k,
            a@,
            x,
            b@,
            y,
            r,
        ),
        call_ensures(share::<K>, (k, n), r) ==> is_share(k, n, r),
        call_ensures(mean::<K>, (k, a, x), r) ==> is_mean(k, a@, x, r),
        call_ensures(to_four_places::<K>, (k, x), r) ==> is_to_four_places(k, x, r),
        call_ensures(to_four_places_wide::<K>, (k, x), w) ==> is_to_four_places_wide(k, x, w),
{
}

} // verus!
