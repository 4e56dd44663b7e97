use vstd::prelude::*;

verus! {

/// `f` applied to every element of `s`, the results joined in order.
pub open spec fn concat_map<A, B>(s: Seq<A>, f: spec_fn(A) -> Seq<B>) -> Seq<B>
    decreases s.len(),
{
    if s.len() == 0 {
        seq![]
    } else {
        f(s[0]) + concat_map(s.drop_first(), f)
    }
}

/// Mapping a concatenation is concatenating the mapped parts.
pub proof fn lemma_concat_map_append<A, B>(a: Seq<A>, b: Seq<A>, f: spec_fn(A) -> Seq<B>)
    ensures
        concat_map(a + b, f) == concat_map(a, f) + concat_map(b, f),
    decreases a.len(),
{
    if a.len() == 0 {
        assert(a + b =~= b);
    } else {
        assert((a + b).drop_first() =~= a.drop_first() + b);
        lemma_concat_map_append(a.drop_first(), b, f);
        assert(f(a[0]) + (concat_map(a.drop_first(), f) + concat_map(b, f)) =~= (f(a[0])
            + concat_map(a.drop_first(), f)) + concat_map(b, f));
    }
}

/// Extending the mapped prefix by one element appends that element's image.
pub proof fn lemma_concat_map_take_step<A, B>(s: Seq<A>, i: int, f: spec_fn(A) -> Seq<B>)
    requires
        0 <= i < s.len(),
    ensures
        concat_map(s.take(i + 1), f) == concat_map(s.take(i), f) + f(s[i]),
{
    assert(s.take(i + 1) =~= s.take(i) + seq![s[i]]);
    lemma_concat_map_append(s.take(i), seq![s[i]], f);
    assert(seq![s[i]].drop_first() =~= Seq::<A>::empty());
    assert(concat_map(Seq::<A>::empty(), f) =~= Seq::<B>::empty());
    assert(concat_map(seq![s[i]], f) =~= f(s[i]));
}

/// When every element of every image satisfies `p`, so does every element of
/// the concatenation.
pub proof fn lemma_concat_map_all<A, B>(s: Seq<A>, f: spec_fn(A) -> Seq<B>, p: spec_fn(B) -> bool)
    requires
        forall|a: A, j: int| 0 <= j < f(a).len() ==> #[trigger] p(f(a)[j]),
    ensures
        forall|i: int| 0 <= i < concat_map(s, f).len() ==> #[trigger] p(concat_map(s, f)[i]),
    decreases s.len(),
{
    if s.len() > 0 {
        lemma_concat_map_all(s.drop_first(), f, p);
        let t = concat_map(s, f);
        let h = f(s[0]);
        let r = concat_map(s.drop_first(), f);
        assert forall|i: int| 0 <= i < t.len() implies #[trigger] p(t[i]) by {
            if i < h.len() {
                assert(t[i] == h[i]);
            } else {
                assert(t[i] == r[i - h.len()]);
            }
        }
    }
}

/// When no image is longer than `c`, the concatenation is at most `c` times as
/// long as `s`.
pub proof fn lemma_concat_map_len<A, B>(s: Seq<A>, f: spec_fn(A) -> Seq<B>, c: nat)
    requires
        forall|a: A| #[trigger] f(a).len() <= c,
    ensures
        concat_map(s, f).len() <= c * s.len(),
    decreases s.len(),
{
    if s.len() > 0 {
        lemma_concat_map_len(s.drop_first(), f, c);
        assert(c * s.len() == c * s.drop_first().len() + c) by (nonlinear_arith)
            requires
                s.drop_first().len() + 1 == s.len(),
        ;
    }
}

/// `part` occurs somewhere in `s`.
pub open spec fn contains_text(s: Seq<char>, part: Seq<char>) -> bool {
    exists|k: int|
        0 <= k && k + part.len() <= s.len() && #[trigger] s.subrange(k, k + part.len()) == part
}

/// `part` occurs in `s` at position `k`.
pub proof fn lemma_contains_at(s: Seq<char>, k: int, part: Seq<char>)
    requires
        0 <= k,
        k + part.len() <= s.len(),
        s.subrange(k, k + part.len()) == part,
    ensures
        contains_text(s, part),
{
}


/// Appends one character to a string.
/// Wraps `String::push`, which appends the given `char` to the end of the string.
#[verifier::external_body]
pub(crate) fn push_char(s: &mut String, c: char)
    ensures
        final(s)@ == old(s)@.push(c),
{
    s.push(c);
}

/// The characters of a string slice, in order.
pub(crate) fn str_chars(s: &str) -> (res: Vec<char>)
    ensures
        res@ == s@,
{
    broadcast use vstd::string::group_string_axioms;

    let mut it = s.chars();
    let mut res: Vec<char> = Vec::new();
    proof {
        vstd::string::axiom_spec_iter(s);
    }
    loop
        invariant
            res@ + vstd::std_specs::iter::IteratorSpec::remaining(&it) == s@,
            vstd::std_specs::iter::IteratorSpec::decrease(&it) is Some,
        ensures
            res@ == s@,
        decreases vstd::std_specs::iter::IteratorSpec::decrease(&it)->0,
    {
        match it.next() {
            Some(c) => {
                res.push(c);
                assert(res@ + vstd::std_specs::iter::IteratorSpec::remaining(&it) =~= s@);
            },
            None => {
                assert(res@ =~= s@);
                break ;
            },
        }
    }
    res
}

/// A string holding the characters `cs[lo..hi]`.
pub(crate) fn string_from_chars(cs: &Vec<char>, lo: usize, hi: usize) -> (res: String)
    requires
        lo <= hi <= cs.len(),
    ensures
        res@ == cs@.subrange(lo as int, hi as int),
{
    let mut res = String::new();
    let mut i = lo;
    while i < hi
        invariant
            lo <= i <= hi <= cs.len(),
            res@ == cs@.subrange(lo as int, i as int),
        decreases hi - i,
    {
        push_char(&mut res, cs[i]);
        i = i + 1;
        assert(res@ =~= cs@.subrange(lo as int, i as int));
    }
    res
}

/// Appends all characters of `t` to `s`.
pub(crate) fn push_str(s: &mut String, t: &str)
    ensures
        final(s)@ == old(s)@ + t@,
{
    s.append(t);
}

} // verus!
