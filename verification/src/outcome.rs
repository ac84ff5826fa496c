//! Spec helpers for results that fail at the first bad element of a sequence.
use vstd::prelude::*;

use crate::error::{Failure, SchematicError};

verus! {

/// A result with its error reduced to what contracts state of it.
pub open spec fn outcome<T>(r: Result<T, SchematicError>) -> Result<T, Failure> {
    match r {
        Ok(v) => Ok(v),
        Err(e) => Err(e.failure()),
    }
}

/// `k` is the first element of `s` on which `f` fails.
pub open spec fn first_failure_at<A, B>(s: Seq<A>, f: spec_fn(A) -> Result<B, Failure>, k: int) -> bool {
    &&& 0 <= k < s.len()
    &&& f(s[k]) is Err
    &&& forall|j: int| 0 <= j < k ==> f(#[trigger] s[j]) is Ok
}

/// `f` applied to every element of `s`, or the error of the first element on
/// which it fails.
pub open spec fn map_all<A, B>(s: Seq<A>, f: spec_fn(A) -> Result<B, Failure>) -> Result<
    Seq<B>,
    Failure,
> {
    if exists|k: int| first_failure_at(s, f, k) {
        Err(f(s[choose|k: int| first_failure_at(s, f, k)])->Err_0)
    } else {
        Ok(Seq::new(s.len(), |i: int| f(s[i])->Ok_0))
    }
}

/// When `f` succeeds on every element, `map_all` maps them all.
pub proof fn lemma_map_all_ok<A, B>(s: Seq<A>, f: spec_fn(A) -> Result<B, Failure>)
    requires
        forall|j: int| 0 <= j < s.len() ==> f(#[trigger] s[j]) is Ok,
    ensures
        map_all(s, f) == Ok::<Seq<B>, Failure>(Seq::new(s.len(), |i: int| f(s[i])->Ok_0)),
{
}

/// When `f` fails on element `k` and succeeds before it, `map_all` fails as
/// `f` does on element `k`.
pub proof fn lemma_map_all_err<A, B>(s: Seq<A>, f: spec_fn(A) -> Result<B, Failure>, k: int)
    requires
        first_failure_at(s, f, k),
    ensures
        map_all(s, f) == Err::<Seq<B>, Failure>(f(s[k])->Err_0),
{
    let c = choose|c: int| first_failure_at(s, f, c);
    if c < k {
        assert(f(s[c]) is Ok);
    } else if k < c {
        assert(f(s[k]) is Ok);
    }
}

proof fn lemma_first_failure_exists<A, B>(s: Seq<A>, f: spec_fn(A) -> Result<B, Failure>, j: int)
    requires
        0 <= j < s.len(),
        f(s[j]) is Err,
    ensures
        exists|k: int| first_failure_at(s, f, k),
    decreases j,
{
    if exists|i: int| 0 <= i < j && f(#[trigger] s[i]) is Err {
        let i = choose|i: int| 0 <= i < j && f(#[trigger] s[i]) is Err;
        lemma_first_failure_exists(s, f, i);
    } else {
        assert(first_failure_at(s, f, j));
    }
}

/// `map_all` succeeds exactly when `f` succeeds on every element, and then
/// maps each of them.
pub proof fn lemma_map_all<A, B>(s: Seq<A>, f: spec_fn(A) -> Result<B, Failure>)
    ensures
        map_all(s, f) is Ok <==> forall|j: int| 0 <= j < s.len() ==> f(#[trigger] s[j]) is Ok,
        map_all(s, f) is Ok ==> map_all(s, f)->Ok_0.len() == s.len() && forall|j: int|
            0 <= j < s.len() ==> #[trigger] map_all(s, f)->Ok_0[j] == f(s[j])->Ok_0,
{
    if exists|j: int| 0 <= j < s.len() && f(#[trigger] s[j]) is Err {
        let j = choose|j: int| 0 <= j < s.len() && f(#[trigger] s[j]) is Err;
        lemma_first_failure_exists(s, f, j);
    }
}

} // verus!
