//! From the classifier's five raw scores to a verdict.
//!
//! Scores are IEEE 754 binary32 numbers, carried as their bit patterns,
//! in the order drawing, hentai, neutral, porn, sexy. They are raw model
//! outputs: nothing is assumed of their sum.

use vstd::prelude::*;
use crate::addition::{sum, sum_of};
use crate::binary32::{greater, is_greater, is_nan, nan, order_key};
use crate::error::Error;
use crate::preprocess::MODEL_INPUT_LEN;

verus! {

/// Number of classes.
pub const CLASS_COUNT: usize = 5;

/// Index of the class "drawing".
pub const DRAWING: usize = 0;

/// Index of the class "hentai".
pub const HENTAI: usize = 1;

/// Index of the class "neutral".
pub const NEUTRAL: usize = 2;

/// Index of the class "porn".
pub const PORN: usize = 3;

/// Index of the class "sexy".
pub const SEXY: usize = 4;

/// Names of the classes, in the order of their scores.
pub const CLASSES: [&'static str; 5] = ["drawing", "hentai", "neutral", "porn", "sexy"];

/// What a classification found.
#[derive(Debug, Clone)]
pub struct ClassificationResult {
    /// Raw score of each class.
    pub scores: [u32; 5],
    /// Index of the class with the highest score.
    pub top_class_index: usize,
    /// Name of that class.
    pub top_class: String,
    /// Whether the safe classes outweigh the unsafe ones.
    pub is_safe: bool,
    /// Total of the side that won.
    pub confidence: u32,
}

/// Name of the class with the given index.
pub open spec fn class_name_of(index: int) -> Seq<char> {
    if index == 0 {
        "drawing"@
    } else if index == 1 {
        "hentai"@
    } else if index == 2 {
        "neutral"@
    } else if index == 3 {
        "porn"@
    } else {
        "sexy"@
    }
}

/// None of the scores is a NaN.
pub open spec fn are_numbers(scores: Seq<u32>) -> bool {
    forall|i: int| 0 <= i < scores.len() ==> !is_nan(#[trigger] scores[i])
}

/// Class `top` has the highest score, and no later class has the same.
pub open spec fn is_top_class(scores: Seq<u32>, top: int) -> bool {
    &&& 0 <= top < scores.len()
    &&& forall|j: int|
        0 <= j < top ==> order_key(#[trigger] scores[j]) <= order_key(scores[top])
    &&& forall|j: int|
        top < j < scores.len() ==> order_key(#[trigger] scores[j]) < order_key(scores[top])
}

/// Total of the safe classes: drawing and neutral.
pub open spec fn safe_total_of(scores: Seq<u32>) -> u32 {
    sum_of(scores[0], scores[2])
}

/// Total of the unsafe classes: hentai, porn and sexy, added in that order.
pub open spec fn unsafe_total_of(scores: Seq<u32>) -> u32 {
    sum_of(sum_of(scores[1], scores[3]), scores[4])
}

/// `result` is the verdict on `scores`, given the totals of the two sides.
pub open spec fn is_verdict(
    result: ClassificationResult,
    scores: Seq<u32>,
    safe_total: u32,
    unsafe_total: u32,
) -> bool {
    &&& result.scores@ == scores
    &&& is_top_class(scores, result.top_class_index as int)
    &&& result.top_class@ == class_name_of(result.top_class_index as int)
    &&& result.is_safe == is_greater(safe_total, unsafe_total)
    &&& result.confidence == if result.is_safe {
        safe_total
    } else {
        unsafe_total
    }
}

/// Only one class is the top class.
pub proof fn lemma_top_class_is_unique(scores: Seq<u32>, a: int, b: int)
    requires
        is_top_class(scores, a),
        is_top_class(scores, b),
    ensures
        a == b,
{
    if a < b {
        assert(order_key(scores[a]) <= order_key(scores[b]));
        assert(order_key(scores[b]) < order_key(scores[a]));
    } else if b < a {
        assert(order_key(scores[b]) <= order_key(scores[a]));
        assert(order_key(scores[a]) < order_key(scores[b]));
    }
}

/// A verdict is safe only if the safe total is strictly greater: a tie
/// is unsafe, and so is a total that is no number.
pub proof fn lemma_tie_is_unsafe(
    result: ClassificationResult,
    scores: Seq<u32>,
    safe_total: u32,
    unsafe_total: u32,
)
    requires
        is_verdict(result, scores, safe_total, unsafe_total),
        order_key(safe_total) == order_key(unsafe_total) || is_nan(safe_total) || is_nan(
            unsafe_total,
        ),
    ensures
        !result.is_safe,
        result.confidence == unsafe_total,
{
}

/// Name of the class with the given index.
pub fn class_name(index: usize) -> (name: &'static str)
    requires
        index < CLASS_COUNT,
    ensures
        name@ == class_name_of(index as int),
{
    CLASSES[index]
}

/// Whether none of the scores is a NaN.
pub fn all_numbers(scores: &[u32; 5]) -> (ok: bool)
    ensures
        ok == are_numbers(scores@),
{
    let mut i: usize = 0;
    while i < 5
        invariant
            i <= 5,
            forall|j: int| 0 <= j < i ==> !is_nan(#[trigger] scores@[j]),
        decreases 5 - i,
    {
        if nan(scores[i]) {
            return false;
        }
        i = i + 1;
    }
    true
}

/// Index of the highest score; of several that are equal, the last.
pub fn top_class_index(scores: &[u32; 5]) -> (top: usize)
    requires
        are_numbers(scores@),
    ensures
        is_top_class(scores@, top as int),
{
    let mut top: usize = 0;
    let mut j: usize = 1;
    while j < 5
        invariant
            are_numbers(scores@),
            1 <= j <= 5,
            top < j,
            forall|i: int|
                0 <= i < top ==> order_key(#[trigger] scores@[i]) <= order_key(scores@[top as int]),
            forall|i: int|
                top < i < j ==> order_key(#[trigger] scores@[i]) < order_key(scores@[top as int]),
        decreases 5 - j,
    {
        if !greater(scores[top], scores[j]) {
            top = j;
        }
        j = j + 1;
    }
    top
}

/// The first five values of what the inference backend returned: the
/// scores of the five classes.
pub fn scores_from_output(output: &[u32]) -> (scores: [u32; 5])
    requires
        output@.len() >= CLASS_COUNT,
    ensures
        scores@ == output@.subrange(0, CLASS_COUNT as int),
{
    let scores: [u32; 5] = [output[0], output[1], output[2], output[3], output[4]];
    assert(scores@ =~= output@.subrange(0, 5));
    scores
}

/// The verdict on `scores`, given the totals of the two sides.
///
/// The top class is the one with the highest score, the last of them
/// where several are equal. The verdict is safe only if the safe total is
/// strictly greater than the unsafe total. The confidence is the total of
/// the side that won, as it is.
pub fn verdict(scores: [u32; 5], safe_total: u32, unsafe_total: u32) -> (result:
    ClassificationResult)
    requires
        are_numbers(scores@),
    ensures
        is_verdict(result, scores@, safe_total, unsafe_total),
{
    let top: usize = top_class_index(&scores);
    let is_safe: bool = greater(safe_total, unsafe_total);
    ClassificationResult {
        scores,
        top_class_index: top,
        top_class: class_name(top).to_owned(),
        is_safe,
        confidence: if is_safe {
            safe_total
        } else {
            unsafe_total
        },
    }
}

/// The verdict on `scores`: the safe total is drawing plus neutral, the
/// unsafe total is hentai plus porn plus sexy.
pub fn classify_scores(scores: [u32; 5]) -> (result: ClassificationResult)
    requires
        are_numbers(scores@),
    ensures
        is_verdict(result, scores@, safe_total_of(scores@), unsafe_total_of(scores@)),
{
    let safe_total: u32 = sum(scores[DRAWING], scores[NEUTRAL]);
    let unsafe_total: u32 = sum(sum(scores[HENTAI], scores[PORN]), scores[SEXY]);
    verdict(scores, safe_total, unsafe_total)
}

/// Whether a tensor of `len` elements has the length that the classifier
/// reads.
pub fn check_tensor_len(len: usize) -> (result: Result<(), Error>)
    ensures
        result is Ok <==> len == MODEL_INPUT_LEN,
        result is Err ==> result == Err::<(), Error>(Error::SizeMismatch),
{
    if len == MODEL_INPUT_LEN {
        Ok(())
    } else {
        Err(Error::SizeMismatch)
    }
}

/// What a classification returns, given what the inference backend
/// returned for the tensor: `None` if it failed, its output otherwise.
pub fn conclude(output: Option<&[u32]>) -> (result: Result<ClassificationResult, Error>)
    requires
        output matches Some(values) ==> values@.len() >= CLASS_COUNT && are_numbers(
            values@.subrange(0, CLASS_COUNT as int),
        ),
    ensures
        match output {
            Some(values) => result matches Ok(found) && is_verdict(
                found,
                values@.subrange(0, CLASS_COUNT as int),
                safe_total_of(values@),
                unsafe_total_of(values@),
            ),
            None => result matches Err(e) && e == Error::InferenceFailure,
        },
{
    match output {
        Some(values) => Ok(classify_scores(scores_from_output(values))),
        None => Err(Error::InferenceFailure),
    }
}

} // verus!
