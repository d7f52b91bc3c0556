use vstd::prelude::*;

use crate::error::Error;

verus! {

/// How many entries a path selects, as removal sees it.
#[derive(Debug, Clone, Copy, PartialEq, Eq)]
pub enum Matches {
    NoMatch,
    SingleMatch,
    MultipleMatches(usize),
}

/// Sorts a match count into none, one or several.
pub fn classify(count: usize) -> (r: Matches)
    ensures
        count == 0 ==> r == Matches::NoMatch,
        count == 1 ==> r == Matches::SingleMatch,
        count > 1 ==> r == Matches::MultipleMatches(count),
{
    if count == 0 {
        Matches::NoMatch
    } else if count == 1 {
        Matches::SingleMatch
    } else {
        Matches::MultipleMatches(count)
    }
}

/// Whether a removal of `name`, which selects `count` entries, may go ahead:
/// nothing selected is `NotInStore`; several selected without `recursive`
/// is `IsADirectory`; otherwise it may.
pub fn check_removal(name: &str, count: usize, recursive: bool) -> (r: Result<(), Error>)
    ensures
        count == 0 ==> (r matches Err(e) && e matches Error::NotInStore(t) && t@ == name@),
        count > 1 && !recursive ==> (r matches Err(e) && e matches Error::IsADirectory(t) && t@
            == name@),
        count == 1 || (count > 1 && recursive) ==> r is Ok,
{
    match classify(count) {
        Matches::NoMatch => Err(Error::NotInStore(name.to_owned())),
        Matches::SingleMatch => Ok(()),
        Matches::MultipleMatches(_) => {
            if recursive {
                Ok(())
            } else {
                Err(Error::IsADirectory(name.to_owned()))
            }
        },
    }
}

} // verus!
