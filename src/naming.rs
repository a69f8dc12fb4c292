use vstd::prelude::*;

verus! {

/// What `str::to_lowercase` makes of a text.
pub uninterp spec fn lower_of(s: Seq<char>) -> Seq<char>;

/// Whether a text is a valid command name: one to 32 letters, digits, `-`
/// or `_`, in any of the scripts that command names allow.
pub uninterp spec fn valid_command_name(s: Seq<char>) -> bool;

/// Relies on std's `str::to_lowercase`: the result depends on the characters
/// alone.
#[verifier::external_body]
pub(crate) fn lowercase(s: &str) -> (r: String)
    ensures
        r@ == lower_of(s@),
{
    s.to_lowercase()
}

/// Relies on `regex::Regex::new` and `regex::Regex::is_match`, on a fixed
/// pattern of the command names that chat commands allow: whether a text
/// matches depends on its characters alone. The pattern is anchored at both
/// ends and repeats, 1 to 32 times, a class that matches one character and
/// holds no space.
#[verifier::external_body]
pub(crate) fn is_valid_command_name(s: &str) -> (r: bool)
    ensures
        r == valid_command_name(s@),
        r ==> 1 <= s@.len() <= 32,
        r ==> forall|i: int| 0 <= i < s@.len() ==> s@[i] != ' ',
{
    match regex::Regex::new(r"^[-_\p{L}\p{N}\p{sc=Deva}\p{sc=Thai}]{1,32}$") {
        Ok(re) => re.is_match(s),
        Err(_) => false,
    }
}

} // verus!
