use vstd::prelude::*;

verus! {

/// How `shell_words::split` splits `s` into words; `None` for an unmatched quote.
pub uninterp spec fn shell_split(s: Seq<char>) -> Option<Seq<Seq<char>>>;

/// The texts of the strings in `v`.
pub open spec fn words_view(v: Seq<String>) -> Seq<Seq<char>> {
    v.map_values(|w: String| w@)
}

/// `shell_words::split`: the words of `s` after POSIX quote removal, or `None` when a
/// quote is left open.
#[verifier::external_body]
pub(crate) fn split_words(s: &str) -> (res: Option<Vec<String>>)
    ensures
        match res {
            Some(words) => shell_split(s@) == Some(words_view(words@)),
            None => shell_split(s@) is None,
        },
{
    shell_words::split(s).ok()
}

} // verus!
