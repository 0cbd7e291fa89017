//! Aliases in a settings file.
use vstd::prelude::*;
use crate::string_map::StringMap;
use crate::text::{joined, owned};

verus! {

/// The aliases in a settings file.
pub struct AliasesFile {
    pub aliases: StringMap<String>,
}

/// What is said of an alias that is not in a settings file.
pub open spec fn unknown_alias(alias: Seq<char>, location: Seq<char>) -> Seq<char> {
    "Alias '"@ + alias + "' not found in "@ + location
}

/// The address of an alias in the settings file at `location`.
pub fn resolve_alias(alias: &str, file: &AliasesFile, location: &str) -> (result: Result<
    String,
    String,
>)
    requires
        file.aliases.wf(),
    ensures
        match result {
            Ok(address) => file.aliases@.contains_key(alias@) && address@
                == file.aliases@[alias@]@,
            Err(e) => !file.aliases@.contains_key(alias@) && e@ == unknown_alias(
                alias@,
                location@,
            ),
        },
        result matches Err(e) ==> e@ == "Alias '"@ + alias@ + "' not found in "@ + location@,
{
    match file.aliases.get(alias) {
        Some(address) => Ok(owned(address.as_str())),
        None => {
            let mut e = joined("Alias '", alias);
            e.push_str("' not found in ");
            e.push_str(location);
            Err(e)
        },
    }
}

} // verus!
