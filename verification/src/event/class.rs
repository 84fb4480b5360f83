//! OCSF class UIDs used by LogHound.

use vstd::prelude::*;

verus! {

/// Authentication (logon/kerberos/ntlm).
pub const AUTHENTICATION: u32 = 3002;

/// Process Activity (creation/termination, incl. NEW_PROCESS logs).
pub const PROCESS_ACTIVITY: u32 = 1007;

/// Account Change (create/enable/disable/group membership).
pub const ACCOUNT_CHANGE: u32 = 3006;

/// Network Activity (share access, connections, NETWORK logs).
pub const NETWORK_ACTIVITY: u32 = 4001;

/// File System Activity (File Integrity logs).
pub const FILE_ACTIVITY: u32 = 1001;

/// The display name of a class.
pub open spec fn class_name_of(class: u32) -> Seq<char> {
    if class == AUTHENTICATION {
        "Authentication"@
    } else if class == PROCESS_ACTIVITY {
        "Process Activity"@
    } else if class == ACCOUNT_CHANGE {
        "Account Change"@
    } else if class == NETWORK_ACTIVITY {
        "Network Activity"@
    } else if class == FILE_ACTIVITY {
        "File Activity"@
    } else if class == 0 {
        "(generic/unmapped)"@
    } else {
        "(other)"@
    }
}

/// The display name of a class, for summaries.
pub fn ocsf_class_name(class: u32) -> (s: &'static str)
    ensures
        s@ == class_name_of(class),
{
    if class == AUTHENTICATION {
        "Authentication"
    } else if class == PROCESS_ACTIVITY {
        "Process Activity"
    } else if class == ACCOUNT_CHANGE {
        "Account Change"
    } else if class == NETWORK_ACTIVITY {
        "Network Activity"
    } else if class == FILE_ACTIVITY {
        "File Activity"
    } else if class == 0 {
        "(generic/unmapped)"
    } else {
        "(other)"
    }
}

} // verus!
