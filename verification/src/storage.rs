use vstd::prelude::*;
use crate::accounts::AccountsDb;

verus! {

/// The refusal when neither stored copy can be read.
pub open spec fn damaged_message() -> Seq<char> {
    "Local account data is damaged"@
}

/// Chooses the profiles to start with from the stored file and its backup:
/// no profiles when neither file exists; otherwise the file when it was read
/// and parsed (`primary`), else the backup when it was, else a refusal.
pub fn recover_accounts(
    primary_exists: bool,
    backup_exists: bool,
    primary: Option<AccountsDb>,
    backup: Option<AccountsDb>,
) -> (r: Result<AccountsDb, String>)
    ensures
        !primary_exists && !backup_exists ==> (r matches Ok(db) && db.accounts@.dom().is_empty()),
        primary_exists || backup_exists ==> match (primary, backup) {
            (Some(p), _) => r == Ok::<AccountsDb, String>(p),
            (None, Some(b)) => r == Ok::<AccountsDb, String>(b),
            (None, None) => (r matches Err(e) && e@ == damaged_message()),
        },
{
    if !primary_exists && !backup_exists {
        return Ok(AccountsDb::default());
    }
    match primary {
        Some(db) => Ok(db),
        None => match backup {
            Some(db) => Ok(db),
            None => Err(String::from_str("Local account data is damaged")),
        },
    }
}

} // verus!
