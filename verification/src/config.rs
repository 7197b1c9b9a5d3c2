//! Where the table of players is backed up.

use vstd::prelude::*;
use vstd::string::*;
use crate::players::decimal_text;

verus! {

/// The GitHub file the table is backed up to.
#[derive(Debug, Clone, PartialEq, Eq, Hash, PartialOrd, Ord)]
pub struct GithubConfig {
    pub token: Option<String>,
    pub owner: String,
    pub repo: String,
    pub branch: String,
    pub path: String,
}

impl GithubConfig {
    /// The address the backup can be downloaded from.
    pub fn raw_url(&self) -> (r: String)
        ensures
            r@ == "https://raw.githubusercontent.com/"@ + self.owner@ + "/"@ + self.repo@ + "/"@
                + self.branch@ + "/"@ + self.path@,
    {
        let mut r = String::from_str("https://raw.githubusercontent.com/");
        r.append(self.owner.as_str());
        r.append("/");
        r.append(self.repo.as_str());
        r.append("/");
        r.append(self.branch.as_str());
        r.append("/");
        r.append(self.path.as_str());
        r
    }
}

/// The line posted to the bot-logs channel after a command changed the
/// table: "`<invocation>` run by <@<user>>", followed by " (<detail>)"
/// where there is one.
pub fn mutation_log_line(invocation: &str, user_id: u64, detail: Option<&str>) -> (r: String)
    ensures
        r@ == "`"@ + invocation@ + "` run by <@"@ + crate::players::decimal(user_id as nat) + ">"@
            + match detail {
            Some(d) => " ("@ + d@ + ")"@,
            None => Seq::<char>::empty(),
        },
{
    let mut r = String::from_str("`");
    r.append(invocation);
    r.append("` run by <@");
    let id = decimal_text(user_id);
    r.append(id.as_str());
    r.append(">");
    match detail {
        Some(d) => {
            r.append(" (");
            r.append(d);
            r.append(")");
        },
        None => {},
    }
    proof {
        assert(r@ =~= "`"@ + invocation@ + "` run by <@"@ + crate::players::decimal(user_id as nat) + ">"@
            + match detail {
            Some(d) => " ("@ + d@ + ")"@,
            None => Seq::<char>::empty(),
        });
    }
    r
}

} // verus!
