use vstd::prelude::*;

verus! {

/// The text of capture group `group` in the first match of the regular expression `pattern`
/// within `text`, letter case ignored where `fold_case` is set. `None` where `pattern` is no
/// regular expression, where `text` holds no match, and where the match has no such group.
pub uninterp spec fn regex_capture(
    pattern: Seq<char>,
    fold_case: bool,
    text: Seq<char>,
    group: nat,
) -> Option<Seq<char>>;

/// Compiles `pattern` with `regex::RegexBuilder` (`new`, `case_insensitive`, `build`), searches
/// `text` with `regex::Regex::captures`, and hands out the text of one capture group
/// (`Captures::get`, `Match::as_str`). All of this is a function of the four arguments; a pattern
/// that does not compile, a text without a match and a group that took no part each give `None`.
#[verifier::external_body]
pub(crate) fn capture(pattern: &str, fold_case: bool, text: &str, group: usize) -> (found: Option<
    String,
>)
    ensures
        found is Some <==> regex_capture(pattern@, fold_case, text@, group as nat) is Some,
        found matches Some(part) ==> Some(part@) == regex_capture(
            pattern@,
            fold_case,
            text@,
            group as nat,
        ),
{
    let re = regex::RegexBuilder::new(pattern).case_insensitive(fold_case).build().ok()?;
    let caps = re.captures(text)?;
    match caps.get(group) {
        Some(part) => Some(part.as_str().to_string()),
        None => None,
    }
}

} // verus!
