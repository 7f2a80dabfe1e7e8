//! The resilient invocation engine's decisions: classify a failed invocation
//! against the known transient-failure signatures and decide whether to try
//! again. The caller runs the external process and hands the outcome back.
use vstd::prelude::*;
use vstd::string::StrSliceExecFns;
use vstd::string::StringExecFns;

verus! {

/// One transient-failure signature: literal text, matched anywhere in the
/// captured stream, or only at the end of a line.
pub struct Pattern {
    pub text: String,
    pub at_line_end: bool,
}

/// How often to try, and which failures warrant another attempt.
pub struct RetryPolicy {
    pub attempts: u16,
    pub patterns: Vec<Pattern>,
}

/// Whether a failed invocation may be run again at all.
pub enum Retry {
    No,
    Yes(RetryPolicy),
}

/// What the engine does after one attempt.
#[derive(Clone, Copy, PartialEq, Eq, Structural, Debug)]
pub enum RetryDecision {
    /// The attempt succeeded: hand its output back.
    Accept,
    /// A known transient failure, and attempts remain: run it again.
    TryAgain,
    /// A real failure, or no attempts remain: report it.
    GiveUp,
}

/// The pattern text occurs at position `i` of the stream.
pub open spec fn match_at(text: Seq<char>, pat: Seq<char>, i: int) -> bool {
    0 <= i && i + pat.len() <= text.len() && text.subrange(i, i + pat.len()) == pat
}

/// The pattern matches somewhere in the stream; an end-of-line pattern only
/// right before a line break or at the very end.
pub open spec fn pattern_present(text: Seq<char>, pat: Seq<char>, at_line_end: bool) -> bool {
    exists|i: int|
        #[trigger] match_at(text, pat, i) && (at_line_end ==> i + pat.len() == text.len() || text[i
            + pat.len()] == '\n')
}

/// Some pattern of the list matches the stream.
pub open spec fn any_pattern_present(text: Seq<char>, pats: Seq<Pattern>) -> bool {
    exists|k: int| 0 <= k < pats.len() && pattern_present(text, (#[trigger] pats[k]).text@, pats[k].at_line_end)
}

fn matches_at(text: &str, tlen: usize, pat: &str, plen: usize, i: usize) -> (r: bool)
    requires
        tlen == text@.len(),
        plen == pat@.len(),
        i + plen <= tlen,
    ensures
        r == (text@.subrange(i as int, i + plen) == pat@),
{
    let mut j: usize = 0;
    while j < plen
        invariant
            j <= plen,
            tlen == text@.len(),
            plen == pat@.len(),
            i + plen <= tlen,
            forall|k: int| 0 <= k < j ==> text@[i + k] == pat@[k],
        decreases plen - j,
    {
        if text.get_char(i + j) != pat.get_char(j) {
            proof {
                assert(text@.subrange(i as int, i + plen)[j as int] != pat@[j as int]);
            }
            return false;
        }
        j += 1;
    }
    proof {
        assert(text@.subrange(i as int, i + plen) =~= pat@);
    }
    true
}

/// Does the pattern match the captured stream?
pub fn pattern_found(text: &str, pat: &Pattern) -> (r: bool)
    ensures
        r == pattern_present(text@, pat.text@, pat.at_line_end),
{
    let tlen = text.unicode_len();
    let p = pat.text.as_str();
    let plen = p.unicode_len();
    if plen > tlen {
        proof {
            assert forall|i: int| !match_at(text@, pat.text@, i) by {}
        }
        return false;
    }
    if plen == 0 {
        proof {
            assert(text@.subrange(tlen as int, tlen as int) =~= pat.text@);
            assert(match_at(text@, pat.text@, tlen as int));
        }
        return true;
    }
    let mut i: usize = 0;
    while i <= tlen - plen
        invariant
            tlen == text@.len(),
            plen == p@.len(),
            p@ == pat.text@,
            plen <= tlen,
            1 <= plen,
            i <= tlen - plen + 1,
            forall|k: int|
                0 <= k < i ==> !(match_at(text@, pat.text@, k) && (pat.at_line_end ==> k
                    + pat.text@.len() == text@.len() || text@[k + pat.text@.len()] == '\n')),
        decreases tlen - plen + 1 - i,
    {
        if matches_at(text, tlen, p, plen, i) {
            if !pat.at_line_end {
                proof {
                    assert(match_at(text@, pat.text@, i as int));
                }
                return true;
            }
            if i + plen == tlen {
                proof {
                    assert(match_at(text@, pat.text@, i as int));
                }
                return true;
            }
            if text.get_char(i + plen) == '\n' {
                proof {
                    assert(match_at(text@, pat.text@, i as int));
                }
                return true;
            }
        }
        i += 1;
    }
    proof {
        assert forall|k: int|
            !(match_at(text@, pat.text@, k) && (pat.at_line_end ==> k + pat.text@.len()
                == text@.len() || text@[k + pat.text@.len()] == '\n')) by {
            if match_at(text@, pat.text@, k) {
                assert(0 <= k <= tlen - plen);
            }
        }
    }
    false
}

/// Does any pattern of the list match the captured stream?
pub fn any_pattern_found(text: &str, pats: &Vec<Pattern>) -> (r: bool)
    ensures
        r == any_pattern_present(text@, pats@),
{
    let mut k: usize = 0;
    while k < pats.len()
        invariant
            k <= pats@.len(),
            forall|j: int|
                0 <= j < k ==> !pattern_present(text@, (#[trigger] pats@[j]).text@, pats@[j].at_line_end),
        decreases pats@.len() - k,
    {
        if pattern_found(text, &pats[k]) {
            return true;
        }
        k += 1;
    }
    false
}

/// What one attempt's outcome means under a retry choice: success is
/// accepted; a failure is retried exactly when retrying is allowed, the
/// stream shows a known transient signature, and attempts remain.
pub open spec fn spec_decision(
    success: bool,
    text: Seq<char>,
    attempt: u16,
    retry: Retry,
) -> RetryDecision {
    if success {
        RetryDecision::Accept
    } else {
        match retry {
            Retry::No => RetryDecision::GiveUp,
            Retry::Yes(policy) => {
                if any_pattern_present(text, policy.patterns@) && attempt < policy.attempts {
                    RetryDecision::TryAgain
                } else {
                    RetryDecision::GiveUp
                }
            },
        }
    }
}

/// Decide what to do after one attempt: `attempt` counts from one.
pub fn docker_retry_decision(success: bool, output: &str, attempt: u16, retry: &Retry) -> (d:
    RetryDecision)
    ensures
        d == spec_decision(success, output@, attempt, *retry),
{
    if success {
        return RetryDecision::Accept;
    }
    match retry {
        Retry::No => RetryDecision::GiveUp,
        Retry::Yes(policy) => {
            if attempt < policy.attempts && any_pattern_found(output, &policy.patterns) {
                RetryDecision::TryAgain
            } else {
                RetryDecision::GiveUp
            }
        },
    }
}

/// The four transient-failure signatures of the external build engine, and
/// the fixed bound of ten attempts for the main build invocation.
pub fn default_build_retry() -> (r: Retry)
    ensures
        match r {
            Retry::Yes(policy) => policy.attempts == 10 && policy.patterns@.len() == 4
                && policy.patterns@[0].text@ == "frontend grpc server closed unexpectedly"@
                && !policy.patterns@[0].at_line_end && policy.patterns@[1].text@
                == "failed to get dead record"@ && !policy.patterns@[1].at_line_end
                && policy.patterns@[2].text@ == "unexpected EOF"@ && policy.patterns@[2].at_line_end
                && policy.patterns@[3].text@
                == "C_CREATEREPOLIB: Warning: read_header: rpmReadPackageFile() error"@
                && !policy.patterns@[3].at_line_end,
            Retry::No => false,
        },
{
    let mut patterns: Vec<Pattern> = Vec::new();
    patterns.push(
        Pattern { text: "frontend grpc server closed unexpectedly".to_owned(), at_line_end: false },
    );
    patterns.push(Pattern { text: "failed to get dead record".to_owned(), at_line_end: false });
    patterns.push(Pattern { text: "unexpected EOF".to_owned(), at_line_end: true });
    patterns.push(
        Pattern {
            text: "C_CREATEREPOLIB: Warning: read_header: rpmReadPackageFile() error".to_owned(),
            at_line_end: false,
        },
    );
    Retry::Yes(RetryPolicy { attempts: 10, patterns })
}

} // verus!
