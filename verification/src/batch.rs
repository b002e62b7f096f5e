//! The bookkeeping of a batch run: which files to take, and the summary.

use vstd::prelude::*;
use crate::color_space::str_equal;

verus! {

/// A name for what `str::to_lowercase` gives for the characters `s`.
pub uninterp spec fn lowercase(s: Seq<char>) -> Seq<char>;

/// `str::to_lowercase`; the result is [`lowercase`] of the input.
#[verifier::external_body]
fn to_lowercase(s: &str) -> (r: String)
    ensures
        r@ == lowercase(s@),
{
    s.to_lowercase()
}

/// The lower-case forms of the wanted extensions, in order.
pub fn lowercase_all(extensions: &[String]) -> (r: Vec<String>)
    ensures
        r@.len() == extensions@.len(),
        forall|i: int| 0 <= i < r@.len() ==> #[trigger] r@[i]@ == lowercase(extensions@[i]@),
{
    let mut r: Vec<String> = Vec::new();
    let mut i: usize = 0;
    while i < extensions.len()
        invariant
            i <= extensions@.len(),
            r@.len() == i,
            forall|j: int| 0 <= j < i ==> #[trigger] r@[j]@ == lowercase(extensions@[j]@),
        decreases extensions@.len() - i,
    {
        r.push(to_lowercase(extensions[i].as_str()));
        i += 1;
    }
    r
}

/// Whether `s` is one of the items.
pub fn contains_text(items: &[String], s: &str) -> (r: bool)
    ensures
        r == exists|i: int| 0 <= i < items@.len() && #[trigger] items@[i]@ == s@,
{
    let mut i: usize = 0;
    while i < items.len()
        invariant
            i <= items@.len(),
            forall|j: int| 0 <= j < i ==> #[trigger] items@[j]@ != s@,
        decreases items@.len() - i,
    {
        if str_equal(items[i].as_str(), s) {
            return true;
        }
        i += 1;
    }
    false
}

/// Whether a file extension, in lower case, is one of the wanted
/// extensions, already in lower case (see [`lowercase_all`]).
pub fn extension_matches(extension: &str, lowercase_extensions: &[String]) -> (r: bool)
    ensures
        r == exists|i: int|
            0 <= i < lowercase_extensions@.len() && #[trigger] lowercase_extensions@[i]@
                == lowercase(extension@),
{
    let e = to_lowercase(extension);
    contains_text(lowercase_extensions, e.as_str())
}

/// The number of files that were processed successfully: those with a
/// count of changed pixels.
pub open spec fn succeeded_count(outcomes: Seq<Option<u64>>) -> nat
    decreases outcomes.len(),
{
    if outcomes.len() == 0 {
        0
    } else {
        succeeded_count(outcomes.drop_last()) + if outcomes.last() is Some {
            1nat
        } else {
            0nat
        }
    }
}

/// The total number of changed pixels over the files processed
/// successfully.
pub open spec fn pixels_total(outcomes: Seq<Option<u64>>) -> nat
    decreases outcomes.len(),
{
    if outcomes.len() == 0 {
        0
    } else {
        pixels_total(outcomes.drop_last()) + match outcomes.last() {
            Some(n) => n as nat,
            None => 0nat,
        }
    }
}

/// The summary of a batch run.
pub struct BatchSummary {
    /// The number of files.
    pub files: usize,
    /// The number of files processed successfully.
    pub succeeded: usize,
    /// The number of files that failed.
    pub failed: usize,
    /// The number of pixels changed over all successful files.
    pub pixels_changed: u64,
}

proof fn lemma_succeeded_bound(outcomes: Seq<Option<u64>>)
    ensures
        succeeded_count(outcomes) <= outcomes.len(),
    decreases outcomes.len(),
{
    if outcomes.len() > 0 {
        lemma_succeeded_bound(outcomes.drop_last());
    }
}

proof fn lemma_pixels_total_prefix(outcomes: Seq<Option<u64>>, i: int)
    requires
        0 <= i <= outcomes.len(),
    ensures
        pixels_total(outcomes.subrange(0, i)) <= pixels_total(outcomes),
    decreases outcomes.len(),
{
    if i < outcomes.len() {
        assert(outcomes.drop_last().subrange(0, i) =~= outcomes.subrange(0, i));
        lemma_pixels_total_prefix(outcomes.drop_last(), i);
    } else {
        assert(outcomes.subrange(0, i) =~= outcomes);
    }
}

/// Summarizes a batch: one entry per file, the number of changed pixels of
/// a file processed successfully, `None` for a file that failed. `None`
/// where the total number of changed pixels exceeds `u64::MAX`.
pub fn summarize(outcomes: &[Option<u64>]) -> (r: Option<BatchSummary>)
    ensures
        match r {
            Some(s) => {
                &&& pixels_total(outcomes@) <= u64::MAX
                &&& s.files == outcomes@.len()
                &&& s.succeeded == succeeded_count(outcomes@)
                &&& s.failed == outcomes@.len() - succeeded_count(outcomes@)
                &&& s.pixels_changed == pixels_total(outcomes@)
            },
            None => pixels_total(outcomes@) > u64::MAX,
        },
{
    let n = outcomes.len();
    let mut succeeded: usize = 0;
    let mut total: u64 = 0;
    let mut i: usize = 0;
    while i < n
        invariant
            i <= n,
            n == outcomes@.len(),
            succeeded == succeeded_count(outcomes@.subrange(0, i as int)),
            total == pixels_total(outcomes@.subrange(0, i as int)),
        decreases n - i,
    {
        proof {
            assert(outcomes@.subrange(0, i + 1).drop_last() =~= outcomes@.subrange(0, i as int));
            lemma_succeeded_bound(outcomes@.subrange(0, i as int));
        }
        match outcomes[i] {
            Some(p) => {
                match total.checked_add(p) {
                    Some(t) => {
                        total = t;
                    },
                    None => {
                        proof {
                            lemma_pixels_total_prefix(outcomes@, i + 1);
                        }
                        return None;
                    },
                }
                succeeded += 1;
            },
            None => {},
        }
        i += 1;
    }
    proof {
        assert(outcomes@.subrange(0, n as int) =~= outcomes@);
        lemma_succeeded_bound(outcomes@);
    }
    Some(BatchSummary { files: n, succeeded, failed: n - succeeded, pixels_changed: total })
}

/// Counting is additive: an empty batch counts nothing; appending one file
/// adds one success exactly when it succeeded, and adds its changed pixels.
pub proof fn lemma_summary_counts_push(outcomes: Seq<Option<u64>>, x: Option<u64>)
    ensures
        succeeded_count(Seq::<Option<u64>>::empty()) == 0,
        pixels_total(Seq::<Option<u64>>::empty()) == 0,
        succeeded_count(outcomes.push(x)) == succeeded_count(outcomes) + if x is Some {
            1int
        } else {
            0int
        },
        pixels_total(outcomes.push(x)) == pixels_total(outcomes) + match x {
            Some(n) => n as int,
            None => 0int,
        },
{
    assert(outcomes.push(x).drop_last() =~= outcomes);
}

/// Every file succeeded exactly when the number of successes is the number
/// of files (so no file counts as failed).
pub proof fn lemma_all_succeeded(outcomes: Seq<Option<u64>>)
    ensures
        succeeded_count(outcomes) == outcomes.len() <==> forall|i: int|
            0 <= i < outcomes.len() ==> #[trigger] outcomes[i] is Some,
    decreases outcomes.len(),
{
    lemma_succeeded_bound(outcomes);
    if outcomes.len() > 0 {
        let p = outcomes.drop_last();
        lemma_all_succeeded(p);
        lemma_succeeded_bound(p);
        assert forall|i: int| 0 <= i < p.len() implies #[trigger] p[i] == outcomes[i] by {}
        if succeeded_count(outcomes) == outcomes.len() {
            assert(outcomes.last() is Some);
            assert(succeeded_count(p) == p.len());
            assert forall|i: int| 0 <= i < outcomes.len() implies #[trigger] outcomes[i] is Some by {
                if i < p.len() {
                    assert(p[i] is Some);
                }
            }
        }
        if forall|i: int| 0 <= i < outcomes.len() ==> #[trigger] outcomes[i] is Some {
            assert(outcomes[outcomes.len() - 1] is Some);
            assert forall|i: int| 0 <= i < p.len() implies #[trigger] p[i] is Some by {
                assert(outcomes[i] is Some);
            }
        }
    }
}

} // verus!
