//! The result verifier: a diagnostic that holds what came back from the
//! device against a sort of the input done on the host by other means.

use vstd::prelude::*;
use crate::sorting::{is_ascending, same_elements, lemma_ascending_is_unique};

verus! {

/// `<[u32]>::sort` of the standard library, on the vector's elements: the
/// vector afterwards is in ascending order and holds the elements it held
/// before, each as often.
#[verifier::external_body]
fn sort_by_std(data: &mut Vec<u32>)
    ensures
        is_ascending(final(data)@),
        same_elements(old(data)@, final(data)@),
{
    data.sort();
}

/// A copy of the elements in the order they have.
fn copy_of(data: &Vec<u32>) -> (copy: Vec<u32>)
    ensures
        copy@ == data@,
{
    let mut copy: Vec<u32> = Vec::new();
    let mut i: usize = 0;
    while i < data.len()
        invariant
            i <= data@.len(),
            copy@ == data@.take(i as int),
        decreases data@.len() - i,
    {
        copy.push(data[i]);
        i = i + 1;
    }
    copy
}

/// Whether no element is greater than the one after it.
pub fn is_sorted(data: &Vec<u32>) -> (sorted: bool)
    ensures
        sorted == is_ascending(data@),
{
    if data.len() < 2 {
        return true;
    }
    let mut i: usize = 1;
    while i < data.len()
        invariant
            1 <= i <= data@.len(),
            forall|a: int, b: int| 0 <= a <= b < i ==> data@[a] <= data@[b],
        decreases data@.len() - i,
    {
        if data[i - 1] > data[i] {
            return false;
        }
        i = i + 1;
    }
    true
}

/// Whether two arrays agree, element by element.
pub fn same_contents(left: &Vec<u32>, right: &Vec<u32>) -> (same: bool)
    ensures
        same == (left@ == right@),
{
    if left.len() != right.len() {
        return false;
    }
    let mut i: usize = 0;
    while i < left.len()
        invariant
            left@.len() == right@.len(),
            i <= left@.len(),
            forall|at: int| 0 <= at < i ==> left@[at] == right@[at],
        decreases left@.len() - i,
    {
        if left[i] != right[i] {
            return false;
        }
        i = i + 1;
    }
    assert(left@ =~= right@);
    true
}

/// The input in ascending order, sorted on the host by the standard library.
pub fn reference_sort(input: &Vec<u32>) -> (reference: Vec<u32>)
    ensures
        is_ascending(reference@),
        same_elements(input@, reference@),
{
    let mut reference = copy_of(input);
    sort_by_std(&mut reference);
    reference
}

/// Whether `output` is what sorting `input` must give: it is compared,
/// element by element, with the reference sort of the input. That is so
/// exactly when the output is in ascending order and holds the input's
/// elements, each as often.
pub fn verify_result(input: &Vec<u32>, output: &Vec<u32>) -> (good: bool)
    ensures
        good <==> is_ascending(output@) && same_elements(input@, output@),
{
    let reference = reference_sort(input);
    proof {
        if is_ascending(output@) && same_elements(input@, output@) {
            lemma_ascending_is_unique(output@, reference@);
        }
    }
    same_contents(output, &reference)
}

} // verus!
