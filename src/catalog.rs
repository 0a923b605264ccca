//! The symbol catalog: which trading pairs this host runs.

use vstd::prelude::*;

verus! {

/// A row of the symbol catalog. Times are millisecond epochs.
pub struct ConfigSymbolMatching {
    pub id: i32,
    pub base: String,
    pub quote: String,
    pub is_open: i32,
    pub server: String,
    pub ctime: i64,
    pub mtime: i64,
}

/// Why the engine cannot start.
#[derive(Debug, Clone, Copy, PartialEq, Eq, Structural)]
pub enum StartupError {
    /// The host has no network address.
    NoAddresses,
    /// No open pair is assigned to any of the host's addresses.
    NoAssignments,
}

/// The row is open and assigned to one of `servers`.
pub open spec fn runs_here(row: ConfigSymbolMatching, servers: Seq<String>) -> bool {
    row.is_open != 0 && exists|k: int| 0 <= k < servers.len() && #[trigger] servers[k]@ == row.server@
}

/// The rows that run here, in catalog order.
pub open spec fn selected(rows: Seq<ConfigSymbolMatching>, servers: Seq<String>) -> Seq<ConfigSymbolMatching>
    decreases rows.len(),
{
    if rows.len() == 0 {
        seq![]
    } else {
        let prev = selected(rows.drop_last(), servers);
        if runs_here(rows.last(), servers) {
            prev.push(rows.last())
        } else {
            prev
        }
    }
}

impl ConfigSymbolMatching {
    /// A copy of the row.
    pub fn copy(&self) -> (r: ConfigSymbolMatching)
        ensures
            r == *self,
    {
        ConfigSymbolMatching {
            id: self.id,
            base: self.base.clone(),
            quote: self.quote.clone(),
            is_open: self.is_open,
            server: self.server.clone(),
            ctime: self.ctime,
            mtime: self.mtime,
        }
    }
}

/// Whether `server` is one of `servers`.
fn listed(servers: &Vec<String>, server: &String) -> (r: bool)
    ensures
        r == exists|k: int| 0 <= k < servers@.len() && #[trigger] servers@[k]@ == server@,
{
    let mut k: usize = 0;
    while k < servers.len()
        invariant
            k <= servers@.len(),
            forall|m: int| 0 <= m < k ==> #[trigger] servers@[m]@ != server@,
        decreases servers@.len() - k,
    {
        if servers[k] == *server {
            return true;
        }
        k = k + 1;
    }
    false
}

/// The catalog rows that this host runs: those that are open and whose
/// server is one of the host's addresses. A host without addresses, or
/// with nothing to run, cannot start.
pub fn assignments(rows: &Vec<ConfigSymbolMatching>, servers: &Vec<String>) -> (r: Result<
    Vec<ConfigSymbolMatching>,
    StartupError,
>)
    ensures
        servers@.len() == 0 ==> r == Err::<Vec<ConfigSymbolMatching>, StartupError>(StartupError::NoAddresses),
        servers@.len() > 0 && selected(rows@, servers@).len() == 0 ==> r == Err::<Vec<ConfigSymbolMatching>, StartupError>(
            StartupError::NoAssignments,
        ),
        servers@.len() > 0 && selected(rows@, servers@).len() > 0 ==> r is Ok && r->Ok_0@ == selected(rows@, servers@),
{
    if servers.len() == 0 {
        return Err(StartupError::NoAddresses);
    }
    let mut out: Vec<ConfigSymbolMatching> = Vec::new();
    let mut i: usize = 0;
    while i < rows.len()
        invariant
            i <= rows@.len(),
            out@ == selected(rows@.subrange(0, i as int), servers@),
        decreases rows@.len() - i,
    {
        let row = &rows[i];
        proof {
            let pre = rows@.subrange(0, i + 1);
            assert(pre.drop_last() =~= rows@.subrange(0, i as int));
            assert(pre.last() == rows@[i as int]);
        }
        if row.is_open != 0 && listed(servers, &row.server) {
            out.push(row.copy());
        }
        i = i + 1;
    }
    assert(rows@.subrange(0, i as int) =~= rows@);
    if out.len() == 0 {
        return Err(StartupError::NoAssignments);
    }
    Ok(out)
}

} // verus!
