//! What the arguments and the answers of the user decide.
use vstd::prelude::*;
use vstd::string::*;

use crate::engine::{result_views, CopyResult, ResultView};
use crate::verify::VerifyMode;

verus! {

/// The mode of this name.
pub open spec fn mode_named(name: Seq<char>) -> Option<VerifyMode> {
    if name == "source"@ {
        Some(VerifyMode::Source)
    } else if name == "target"@ {
        Some(VerifyMode::Target)
    } else if name == "transfer"@ {
        Some(VerifyMode::Transfer)
    } else {
        None
    }
}

/// Whether `text` is `word`.
fn is_word(text: &String, word: &str) -> (same: bool)
    ensures
        same == (text@ == word@),
{
    *text == String::from_str(word)
}

/// The mode that the argument `s` names, or a complaint.
pub fn parse_verify_mode(s: &str) -> (parsed: Result<VerifyMode, String>)
    ensures
        match mode_named(s@) {
            Some(mode) => parsed == Ok::<VerifyMode, String>(mode),
            None => parsed is Err && parsed->Err_0@ == "unknown mode: "@ + s@
                + " (expected: source, target, transfer)"@,
        },
        s@ == "source"@ ==> parsed == Ok::<VerifyMode, String>(VerifyMode::Source),
        s@ == "target"@ ==> parsed == Ok::<VerifyMode, String>(VerifyMode::Target),
        s@ == "transfer"@ ==> parsed == Ok::<VerifyMode, String>(VerifyMode::Transfer),
        s@ != "source"@ && s@ != "target"@ && s@ != "transfer"@ ==> parsed is Err
            && parsed->Err_0@ == "unknown mode: "@ + s@
            + " (expected: source, target, transfer)"@,
{
    proof {
        lemma_mode_names_differ();
    }
    let name = String::from_str(s);
    if is_word(&name, "source") {
        Ok(VerifyMode::Source)
    } else if is_word(&name, "target") {
        Ok(VerifyMode::Target)
    } else if is_word(&name, "transfer") {
        Ok(VerifyMode::Transfer)
    } else {
        let mut text = String::from_str("unknown mode: ");
        text.append(s);
        text.append(" (expected: source, target, transfer)");
        Err(text)
    }
}

/// The characters with the Unicode property `White_Space`.
pub open spec fn is_white(c: char) -> bool {
    let n = c as u32;
    ||| 0x09 <= n <= 0x0d
    ||| n == 0x20
    ||| n == 0x85
    ||| n == 0xa0
    ||| n == 0x1680
    ||| 0x2000 <= n <= 0x200a
    ||| 0x2028 <= n <= 0x2029
    ||| n == 0x202f
    ||| n == 0x205f
    ||| n == 0x3000
}

/// `text` without the white space that it begins with.
pub open spec fn without_leading(text: Seq<char>) -> Seq<char>
    decreases text.len(),
{
    if text.len() > 0 && is_white(text[0]) {
        without_leading(text.skip(1))
    } else {
        text
    }
}

/// `text` without the white space that it ends with.
pub open spec fn without_trailing(text: Seq<char>) -> Seq<char>
    decreases text.len(),
{
    if text.len() > 0 && is_white(text.last()) {
        without_trailing(text.drop_last())
    } else {
        text
    }
}

/// `str::trim` returns the text without the white space, as Unicode defines it, that it
/// begins and ends with.
#[verifier::external_body]
fn trimmed(text: &str) -> (rest: &str)
    ensures
        rest@ == without_trailing(without_leading(text@)),
{
    text.trim()
}

/// What `str::to_lowercase` returns for `text`.
pub uninterp spec fn lowercase_of(text: Seq<char>) -> Seq<char>;

/// `str::to_lowercase` returns the text in lower case, as Unicode defines it. Nothing is said
/// here of what that is for a given text.
#[verifier::external_body]
fn lowercased(text: &str) -> (lower: String)
    ensures
        lower@ == lowercase_of(text@),
{
    text.to_lowercase()
}

/// The word that an answer comes to: without white space around it, in lower case.
pub open spec fn word_of(answer: Seq<char>) -> Seq<char> {
    lowercase_of(without_trailing(without_leading(answer)))
}

/// Whether a word refuses a verification.
pub open spec fn refuses(word: Seq<char>) -> bool {
    word == "n"@ || word == "no"@
}

/// Whether a word refuses a verification.
pub fn is_refusal(word: &String) -> (refused: bool)
    ensures
        refused == refuses(word@),
        refused == (word@ == "n"@ || word@ == "no"@),
{
    is_word(word, "n") || is_word(word, "no")
}

/// Whether the answer to the question whether to verify refuses it.
pub fn verification_refused(answer: &str) -> (refused: bool)
    ensures
        refused == refuses(word_of(answer@)),
        ({
            let word = lowercase_of(without_trailing(without_leading(answer@)));
            refused == (word == "n"@ || word == "no"@)
        }),
{
    is_refusal(&lowercased(trimmed(answer)))
}

/// The mode that a word stands for. Every word but `source` stands for the target mode.
pub open spec fn mode_meant(word: Seq<char>) -> VerifyMode {
    if word == "source"@ {
        VerifyMode::Source
    } else {
        VerifyMode::Target
    }
}

/// What is to be said of a word that is not a mode to choose from.
pub open spec fn notice_of(word: Seq<char>) -> Option<Seq<char>> {
    if word == "source"@ || word == "target"@ || word.len() == 0 {
        None
    } else {
        Some("Unknown mode: "@ + word + ", using target"@)
    }
}

/// The mode that a word stands for, and a notice if it is not one to choose from.
pub fn mode_of_word(word: &String) -> (chosen: (VerifyMode, Option<String>))
    ensures
        chosen.0 == mode_meant(word@),
        match notice_of(word@) {
            Some(text) => chosen.1 is Some && chosen.1->0@ == text,
            None => chosen.1 is None,
        },
        chosen.0 == VerifyMode::Source <==> word@ == "source"@,
        chosen.0 == VerifyMode::Target <==> word@ != "source"@,
        chosen.1 is None <==> word@ == "source"@ || word@ == "target"@ || word@.len() == 0,
        chosen.1 is Some ==> chosen.1->0@ == "Unknown mode: "@ + word@ + ", using target"@,
{
    if is_word(word, "source") {
        (VerifyMode::Source, None)
    } else if word.as_str().is_empty() || is_word(word, "target") {
        (VerifyMode::Target, None)
    } else {
        let mut notice = String::from_str("Unknown mode: ");
        notice.append(word.as_str());
        notice.append(", using target");
        (VerifyMode::Target, Some(notice))
    }
}

/// The mode that the answer to the question for it stands for, and a notice if it is not one
/// to choose from.
pub fn mode_answered(answer: &str) -> (chosen: (VerifyMode, Option<String>))
    ensures
        chosen.0 == mode_meant(word_of(answer@)),
        match notice_of(word_of(answer@)) {
            Some(text) => chosen.1 is Some && chosen.1->0@ == text,
            None => chosen.1 is None,
        },
        ({
            let word = lowercase_of(without_trailing(without_leading(answer@)));
            &&& chosen.0 == VerifyMode::Source <==> word == "source"@
            &&& chosen.0 == VerifyMode::Target <==> word != "source"@
            &&& chosen.1 is None <==> word == "source"@ || word == "target"@ || word.len() == 0
            &&& chosen.1 is Some ==> chosen.1->0@ == "Unknown mode: "@ + word + ", using target"@
        }),
{
    mode_of_word(&lowercased(trimmed(answer)))
}

/// What follows the copying.
#[derive(Debug, Clone, Copy, PartialEq, Eq, Structural)]
pub enum AfterCopy {
    Interrupted,
    SomeFailed,
    Complete,
}

/// What follows the copying: it went well if it was not stopped and no file failed.
pub fn after_copy(aborted: bool, results: &Vec<CopyResult>) -> (after: AfterCopy)
    ensures
        after == if aborted {
            AfterCopy::Interrupted
        } else if exists|i: int|
            0 <= i < results@.len() && !(#[trigger] result_views(results@)[i]).success {
            AfterCopy::SomeFailed
        } else {
            AfterCopy::Complete
        },
        after == AfterCopy::Interrupted <==> aborted,
        after == AfterCopy::Complete <==> !aborted && forall|i: int|
            0 <= i < results@.len() ==> (#[trigger] results@[i]).success,
{
    if aborted {
        return AfterCopy::Interrupted;
    }
    let mut i: usize = 0;
    while i < results.len()
        invariant
            i <= results@.len(),
            !aborted,
            forall|k: int| 0 <= k < i ==> (#[trigger] result_views(results@)[k]).success,
            forall|k: int| 0 <= k < i ==> (#[trigger] results@[k]).success,
        decreases results@.len() - i,
    {
        assert(result_views(results@)[i as int] == results@[i as int]@);
        if !results[i].success {
            return AfterCopy::SomeFailed;
        }
        i += 1;
    }
    AfterCopy::Complete
}

/// What is to be done about a verification.
#[derive(Debug, Clone, Copy, PartialEq, Eq, Structural)]
pub enum VerifyPlan {
    /// Nothing, and whether to say so.
    Skip(bool),
    Verify(VerifyMode),
}

/// What is to be done about a verification: nothing if only sizes were to be compared or if
/// the user refused, who is then told so. `asked` says whether the mode was asked for, and not
/// given as an argument.
pub fn plan_verification(mode: Option<VerifyMode>, asked: bool) -> (plan: VerifyPlan)
    ensures
        plan == match mode {
            None => VerifyPlan::Skip(asked),
            Some(VerifyMode::Transfer) => VerifyPlan::Skip(false),
            Some(other) => VerifyPlan::Verify(other),
        },
{
    match mode {
        None => VerifyPlan::Skip(asked),
        Some(VerifyMode::Transfer) => VerifyPlan::Skip(false),
        Some(other) => VerifyPlan::Verify(other),
    }
}

/// What follows a verification.
#[derive(Debug, Clone, Copy, PartialEq, Eq, Structural)]
pub enum AfterVerify {
    Interrupted,
    Failed,
    Passed,
}

/// What follows a verification: a stop that was requested counts before its success.
pub fn after_verification(aborted: bool, passed: bool) -> (after: AfterVerify)
    ensures
        after == if aborted {
            AfterVerify::Interrupted
        } else if passed {
            AfterVerify::Passed
        } else {
            AfterVerify::Failed
        },
{
    if aborted {
        AfterVerify::Interrupted
    } else if passed {
        AfterVerify::Passed
    } else {
        AfterVerify::Failed
    }
}

/// How many results are not failed.
pub open spec fn success_count(results: Seq<ResultView>) -> nat
    decreases results.len(),
{
    if results.len() == 0 {
        0
    } else {
        success_count(results.drop_last()) + if results.last().success {
            1nat
        } else {
            0nat
        }
    }
}

/// How many results are not failed.
pub fn completed_count(results: &Vec<CopyResult>) -> (count: usize)
    ensures
        count == success_count(result_views(results@)),
        count == result_views(results@).filter(|result: ResultView| result.success).len(),
{
    let ghost views = result_views(results@);
    let mut count: usize = 0;
    let mut i: usize = 0;
    assert(views.take(0) =~= Seq::empty());
    while i < results.len()
        invariant
            i <= results@.len(),
            views == result_views(results@),
            count <= i,
            count == success_count(views.take(i as int)),
        decreases results@.len() - i,
    {
        proof {
            assert(views.take(i + 1).drop_last() =~= views.take(i as int));
            assert(views.take(i + 1).last() == views[i as int]);
        }
        if results[i].success {
            count += 1;
        }
        i += 1;
    }
    assert(views.take(i as int) =~= views);
    proof {
        lemma_success_count(views);
    }
    count
}

proof fn lemma_mode_names_differ()
    ensures
        "source"@ != "target"@,
        "source"@ != "transfer"@,
        "target"@ != "transfer"@,
{
    reveal_strlit("source");
    reveal_strlit("target");
    reveal_strlit("transfer");
    assert("source"@[0] == 's');
    assert("target"@[0] == 't');
    assert("transfer"@[0] == 't');
    assert("target"@.len() == 6);
    assert("transfer"@.len() == 8);
}

/// The letter n and the word no refuse a verification, and no other word does: neither the
/// empty one, nor any that begins with another letter.
pub proof fn lemma_only_no_refuses(word: Seq<char>)
    ensures
        refuses(word) <==> word == seq!['n'] || word == seq!['n', 'o'],
        word.len() == 0 ==> !refuses(word),
        word.len() > 2 ==> !refuses(word),
        word.len() > 0 && word[0] != 'n' ==> !refuses(word),
{
    reveal_strlit("n");
    reveal_strlit("no");
    assert("n"@ =~= seq!['n']);
    assert("no"@ =~= seq!['n', 'o']);
}

/// A mode is named by one word and no other, and an answer that names a mode to choose from
/// means that mode.
pub proof fn lemma_names_mean_their_modes(word: Seq<char>)
    ensures
        mode_named(word) == Some(VerifyMode::Source) <==> word == "source"@,
        mode_named(word) == Some(VerifyMode::Target) <==> word == "target"@,
        mode_named(word) == Some(VerifyMode::Transfer) <==> word == "transfer"@,
        mode_meant(word) != VerifyMode::Transfer,
        mode_meant(word) == VerifyMode::Source <==> mode_named(word) == Some(VerifyMode::Source),
        mode_named(word) == Some(VerifyMode::Source) || mode_named(word) == Some(
            VerifyMode::Target,
        ) || word.len() == 0 <==> notice_of(word) is None,
{
    lemma_mode_names_differ();
    reveal_strlit("source");
    reveal_strlit("target");
}

/// Trimming takes white space off both ends and nothing else: what is left is a stretch of the
/// text with nothing but white space around it, and neither begins nor ends with any.
pub proof fn lemma_trimming_takes_white_space_off(text: Seq<char>)
    ensures
        ({
            let rest = without_trailing(without_leading(text));
            &&& exists|i: int, j: int|
                0 <= i <= j <= text.len() && rest == #[trigger] text.subrange(i, j) && (forall|k: int|
                    0 <= k < i || j <= k < text.len() ==> is_white(#[trigger] text[k]))
            &&& rest.len() > 0 ==> !is_white(rest[0]) && !is_white(rest.last())
        }),
{
    let front = without_leading(text);
    let rest = without_trailing(front);
    let i = lemma_leading(text);
    let n = lemma_trailing(front);
    let j = i + n;
    assert(rest =~= text.subrange(i, j));
    assert forall|k: int| 0 <= k < i || j <= k < text.len() implies is_white(
        #[trigger] text[k],
    ) by {
        if k >= j {
            assert(front[k - i] == text[k]);
        }
    }
}

proof fn lemma_leading(text: Seq<char>) -> (i: int)
    ensures
        0 <= i <= text.len(),
        without_leading(text) == text.skip(i),
        forall|k: int| 0 <= k < i ==> is_white(#[trigger] text[k]),
        i < text.len() ==> !is_white(text[i]),
    decreases text.len(),
{
    if text.len() > 0 && is_white(text[0]) {
        let i = lemma_leading(text.skip(1));
        assert(text.skip(1).skip(i) =~= text.skip(i + 1));
        assert forall|k: int| 0 <= k < i + 1 implies is_white(#[trigger] text[k]) by {
            if k > 0 {
                assert(text.skip(1)[k - 1] == text[k]);
            }
        }
        i + 1
    } else {
        assert(text.skip(0) =~= text);
        0
    }
}

proof fn lemma_trailing(text: Seq<char>) -> (n: int)
    ensures
        0 <= n <= text.len(),
        without_trailing(text) == text.take(n),
        forall|k: int| n <= k < text.len() ==> is_white(#[trigger] text[k]),
        n > 0 ==> !is_white(text[n - 1]),
    decreases text.len(),
{
    if text.len() > 0 && is_white(text.last()) {
        let n = lemma_trailing(text.drop_last());
        assert(text.drop_last().take(n) =~= text.take(n));
        assert forall|k: int| n <= k < text.len() implies is_white(#[trigger] text[k]) by {
            if k < text.len() - 1 {
                assert(text.drop_last()[k] == text[k]);
            }
        }
        n
    } else {
        assert(text.take(text.len() as int) =~= text);
        text.len() as int
    }
}

proof fn lemma_success_count(results: Seq<ResultView>)
    ensures
        success_count(results) == results.filter(|result: ResultView| result.success).len(),
    decreases results.len(),
{
    reveal(Seq::filter);
    if results.len() > 0 {
        lemma_success_count(results.drop_last());
    }
}

} // verus!
