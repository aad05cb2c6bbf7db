//! The decisions behind the HTTP frontend's handlers: paging for the
//! list endpoint, appending for the add endpoint, index-addressed
//! removal for the remove endpoint, and the status and message of each
//! error response. The surrounding routing, locking and I/O live with
//! the binary; each handler here is one atomic step on the whole list,
//! so a coordinator that serializes calls serializes complete
//! operations.

use vstd::prelude::*;
use vstd::string::StringExecFns;

use crate::model::EntryView;
use crate::model::TodoEntry;
use crate::model::TodoList;

verus! {

/// The query parameters of the list endpoint, with their defaults
/// applied: offset `from` (default 0) and maximum count `size`
/// (default 10).
#[derive(Debug, PartialEq, Eq, Structural, Clone, Copy)]
pub struct ListParams {
    pub from: usize,
    pub size: usize,
}

impl ListParams {
    /// The offset used when the query names none.
    pub fn default_from() -> (r: usize)
        ensures
            r == 0,
    {
        0
    }

    /// The count used when the query names none.
    pub fn default_size() -> (r: usize)
        ensures
            r == 10,
    {
        10
    }

    /// Parameters from an optional query, with defaults applied.
    pub fn new(from: Option<usize>, size: Option<usize>) -> (r: ListParams)
        ensures
            r.from == (match from {
                Some(f) => f,
                None => 0,
            }),
            r.size == (match size {
                Some(z) => z,
                None => 10,
            }),
    {
        let f = match from {
            Some(f) => f,
            None => Self::default_from(),
        };
        let z = match size {
            Some(z) => z,
            None => Self::default_size(),
        };
        ListParams { from: f, size: z }
    }
}

/// The error classes of the HTTP frontend: an internal failure (for
/// one, a poisoned coordinator lock) and a removal index past the end.
#[derive(Debug)]
pub enum ServerError {
    InternalError { message: String },
    NoSuchEntry,
}

impl ServerError {
    /// The HTTP status of the response: 500 for an internal failure,
    /// 404 when no entry exists at the index.
    pub fn status_code(&self) -> (r: u16)
        ensures
            self is InternalError ==> r == 500,
            self is NoSuchEntry ==> r == 404,
    {
        match self {
            ServerError::InternalError { .. } => 500,
            ServerError::NoSuchEntry => 404,
        }
    }

    /// The message carried by the error response body.
    pub fn into_message(self) -> (r: String)
        ensures
            self matches ServerError::InternalError { message } ==> r == message,
            self is NoSuchEntry ==> r@ == "No such entry found"@,
    {
        match self {
            ServerError::InternalError { message } => message,
            ServerError::NoSuchEntry => String::from_str("No such entry found"),
        }
    }
}

/// The page of `es` that the list endpoint returns: entries from offset
/// `from`, at most `size` of them, in order; empty when `from` lies at
/// or past the end.
pub open spec fn page_of(es: Seq<EntryView>, from: int, size: int) -> Seq<EntryView>
    recommends
        0 <= from,
        0 <= size,
{
    if from >= es.len() {
        Seq::empty()
    } else if from + size >= es.len() {
        es.subrange(from, es.len() as int)
    } else {
        es.subrange(from, from + size)
    }
}

/// The list endpoint: a copy of the requested page, in insertion order.
pub fn list(data: &TodoList, params: &ListParams) -> (r: Vec<TodoEntry>)
    ensures
        r.deep_view() == page_of(data@, params.from as int, params.size as int),
{
    let entries = data.entries();
    let n = entries.len();
    let start = if params.from > n {
        n
    } else {
        params.from
    };
    let rest = n - start;
    let count = if params.size < rest {
        params.size
    } else {
        rest
    };
    let mut out: Vec<TodoEntry> = Vec::new();
    proof {
        assert(out.deep_view() =~= data@.subrange(start as int, start as int));
    }
    let mut k: usize = 0;
    while k < count
        invariant
            entries.deep_view() == data@,
            n == entries@.len(),
            start + count <= n,
            k <= count,
            out.deep_view() == data@.subrange(start as int, start as int + k),
        decreases count - k,
    {
        let e = &entries[start + k];
        let ghost dv0 = out.deep_view();
        out.push(TodoEntry { title: e.title.clone(), body: e.body.clone() });
        proof {
            assert(entries@[start as int + k]@ == data@[start as int + k]);
            assert(out.deep_view() =~= dv0.push(data@[start as int + k]));
            assert(out.deep_view() =~= data@.subrange(start as int, start as int + k + 1));
        }
        k += 1;
    }
    proof {
        assert(out.deep_view() =~= page_of(data@, params.from as int, params.size as int));
    }
    out
}

/// The add endpoint: appends an entry built from the query's title and
/// body, and answers with the fixed success indicator.
pub fn add_entry(data: &mut TodoList, title: String, body: String) -> (r: &'static str)
    ensures
        final(data)@ == old(data)@.push(EntryView { title: title@, body: body@ }),
        r@ == "ok"@,
{
    let entry = TodoEntry { title, body };
    data.add_entry(entry);
    "ok"
}

/// The remove endpoint: removes the entry at `index`, answering with
/// the fixed success indicator, or with the not-found error when the
/// index lies at or past the end.
pub fn remove_entry(data: &mut TodoList, index: usize) -> (r: Result<&'static str, ServerError>)
    ensures
        index < old(data)@.len() ==> final(data)@ == old(data)@.remove(index as int) && (
        r matches Ok(m) && m@ == "ok"@),
        index >= old(data)@.len() ==> final(data)@ == old(data)@ && (r matches Err(e)
            && e is NoSuchEntry),
{
    match data.remove_entry(index) {
        Ok(_) => Ok("ok"),
        Err(_) => Err(ServerError::NoSuchEntry),
    }
}

} // verus!
