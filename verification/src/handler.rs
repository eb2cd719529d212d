//! The decisions of the request handler: who is served, what a request
//! path leads to, and how the response is sent back.

use vstd::prelude::*;

use crate::hexcodec::{hex_text, identity_hex};
use crate::msgpack::{file_name_metadata, msgpack_single_map};
use crate::pages::{Content, ContentView, Entry};
use crate::text::owned;

verus! {

/// Below this size a response is sent as a single reply packet; at or above
/// it, it is handed to the resource transfer so that it gets chunked. It
/// leaves a small margin under the encrypted packet payload (431 bytes)
/// for the request/response envelope itself.
pub const INLINE_REPLY_LIMIT: usize = 380;

/// What the handler answers a request with.
pub enum RequestOutcome {
    /// No answer.
    Drop,
    /// One reply packet holding the response.
    Reply(Vec<u8>),
    /// A resource transfer of the response.
    ReplyWithResource { ack: Vec<u8>, data: Vec<u8>, metadata: Option<Vec<u8>>, auto_compress: bool },
}

/// What a request leads to, once it is allowed and its path is known.
pub enum RequestPlan {
    /// No answer: the requester is not on the allow-list.
    Denied,
    /// No answer: no entry is served under the requested path hash.
    UnknownPath,
    /// Run the script at `script`; the requester's identity, when it has
    /// identified, is handed to it as lower-case hexadecimal.
    RunScript { script: String, remote_identity_hex: Option<String> },
    /// Send the entry's content.
    ReadContent,
}

/// Whether a requester is served: anyone when the allow-list is empty,
/// else only an identified requester whose identity is listed.
pub open spec fn is_allowed_spec(allowed: Seq<[u8; 16]>, remote: Option<[u8; 16]>) -> bool {
    allowed.len() == 0 || match remote {
        Some(id) => exists|i: int| 0 <= i < allowed.len() && allowed[i]@ == id@,
        None => false,
    }
}

/// Who is served: with an empty allow-list everyone, identified or not;
/// with a non-empty one exactly the identified requesters whose identity is
/// one of its entries, at whatever position, and never an unidentified one.
pub proof fn lemma_allow_list(allowed: Seq<[u8; 16]>, id: [u8; 16])
    ensures
        allowed.len() == 0 ==> is_allowed_spec(allowed, Some(id)) && is_allowed_spec(allowed, None),
        allowed.len() > 0 ==> !is_allowed_spec(allowed, None),
        allowed.len() > 0 ==> (is_allowed_spec(allowed, Some(id)) <==> exists|i: int|
            0 <= i < allowed.len() && (#[trigger] allowed[i])@ == id@),
        forall|i: int| 0 <= i < allowed.len() ==> is_allowed_spec(allowed, Some(#[trigger] allowed[i])),
{
}

/// Adding an entry to the allow-list never turns away someone it served
/// before, unless the list was empty; the order of its entries does not
/// matter.
pub proof fn lemma_allow_list_extend(allowed: Seq<[u8; 16]>, extra: [u8; 16], remote: Option<[u8; 16]>)
    ensures
        allowed.len() > 0 && is_allowed_spec(allowed, remote) ==> is_allowed_spec(allowed.push(extra), remote),
        is_allowed_spec(allowed.push(extra), remote) == is_allowed_spec(seq![extra] + allowed, remote),
{
    let a = allowed.push(extra);
    let b = seq![extra] + allowed;
    if let Some(id) = remote {
        if allowed.len() > 0 && is_allowed_spec(allowed, remote) {
            let i = choose|i: int| 0 <= i < allowed.len() && allowed[i]@ == id@;
            assert(a[i] == allowed[i]);
        }
        if exists|i: int| 0 <= i < a.len() && a[i]@ == id@ {
            let i = choose|i: int| 0 <= i < a.len() && a[i]@ == id@;
            if i == allowed.len() {
                assert(b[0] == extra);
            } else {
                assert(b[i + 1] == a[i]);
            }
        }
        if exists|i: int| 0 <= i < b.len() && b[i]@ == id@ {
            let i = choose|i: int| 0 <= i < b.len() && b[i]@ == id@;
            if i == 0 {
                assert(a[allowed.len() as int] == extra);
            } else {
                assert(a[i - 1] == b[i]);
            }
        }
    }
}

/// Whether two hashes are equal.
fn same_hash(a: &[u8; 16], b: &[u8; 16]) -> (r: bool)
    ensures
        r == (a@ == b@),
{
    proof {
        vstd::array::array_len_matches_n(a);
        vstd::array::array_len_matches_n(b);
    }
    let mut i: usize = 0;
    while i < 16
        invariant
            i <= 16,
            a@.len() == 16,
            b@.len() == 16,
            forall|k: int| 0 <= k < i ==> a@[k] == b@[k],
        decreases 16 - i,
    {
        if a[i] != b[i] {
            return false;
        }
        i = i + 1;
    }
    assert(a@ =~= b@);
    true
}

/// Whether the requester with identity `remote` (`None` when it has not
/// identified on the link) is served under the allow-list `allowed`.
pub fn is_allowed(allowed: &Vec<[u8; 16]>, remote: Option<[u8; 16]>) -> (r: bool)
    ensures
        r == is_allowed_spec(allowed@, remote),
{
    if allowed.len() == 0 {
        return true;
    }
    match remote {
        None => false,
        Some(id) => {
            let n = allowed.len();
            let mut i: usize = 0;
            while i < n
                invariant
                    n == allowed@.len(),
                    remote == Some(id),
                    i <= n,
                    forall|k: int| 0 <= k < i ==> allowed@[k]@ != id@,
                decreases n - i,
            {
                if same_hash(&allowed[i], &id) {
                    assert(allowed@[i as int]@ == id@);
                    return true;
                }
                i = i + 1;
            }
            false
        },
    }
}

/// The hexadecimal text of an optional identity.
pub open spec fn identity_text(remote: Option<[u8; 16]>) -> Option<Seq<char>> {
    match remote {
        Some(id) => Some(hex_text(id@)),
        None => None,
    }
}

/// Decides what a request leads to: `entry` is what the index holds under
/// the requested path hash, `remote` the requester's identity.
pub fn plan_request(allowed: &Vec<[u8; 16]>, remote: Option<[u8; 16]>, entry: Option<&Entry>) -> (r:
    RequestPlan)
    ensures
        !is_allowed_spec(allowed@, remote) ==> r is Denied,
        is_allowed_spec(allowed@, remote) && entry is None ==> r is UnknownPath,
        is_allowed_spec(allowed@, remote) && entry is Some ==> match entry.unwrap().content@ {
            ContentView::Script(path) => match r {
                RequestPlan::RunScript { script, remote_identity_hex } => script@ == path && match (
                    remote_identity_hex,
                    identity_text(remote),
                ) {
                    (Some(h), Some(t)) => h@ == t,
                    (None, None) => true,
                    _ => false,
                },
                _ => false,
            },
            _ => r is ReadContent,
        },
{
    if !is_allowed(allowed, remote) {
        return RequestPlan::Denied;
    }
    match entry {
        None => RequestPlan::UnknownPath,
        Some(e) => match &e.content {
            Content::Script(path) => {
                let remote_identity_hex = match &remote {
                    Some(id) => Some(identity_hex(id)),
                    None => None,
                };
                RequestPlan::RunScript { script: path.clone(), remote_identity_hex }
            },
            _ => RequestPlan::ReadContent,
        },
    }
}

/// The last `/`-separated segment of `path`: what follows its last `/`, or
/// all of it when it has none.
pub open spec fn last_segment(path: Seq<char>) -> Seq<char>
    decreases path.len(),
{
    if path.len() == 0 {
        path
    } else if path.last() == '/' {
        Seq::empty()
    } else {
        last_segment(path.drop_last()).push(path.last())
    }
}

proof fn lemma_last_segment_at(path: Seq<char>, j: int)
    requires
        0 <= j <= path.len(),
        j == 0 || path[j - 1] == '/',
        forall|k: int| j <= k < path.len() ==> path[k] != '/',
    ensures
        last_segment(path) == path.subrange(j, path.len() as int),
    decreases path.len(),
{
    if path.len() == 0 {
        assert(path.subrange(j, 0) =~= path);
    } else if j == path.len() {
        assert(path.subrange(j, path.len() as int) =~= Seq::<char>::empty());
    } else {
        lemma_last_segment_at(path.drop_last(), j);
        assert(path.subrange(j, path.len() as int) =~= path.drop_last().subrange(
            j,
            path.len() - 1,
        ).push(path.last()));
    }
}

/// The last `/`-separated segment of `path`.
pub fn file_name_of(path: &str) -> (r: String)
    ensures
        r@ == last_segment(path@),
{
    let n = path.unicode_len();
    let mut j: usize = n;
    while j > 0 && path.get_char(j - 1) != '/'
        invariant
            n == path@.len(),
            j <= n,
            forall|k: int| j <= k < n ==> path@[k] != '/',
        decreases j,
    {
        j = j - 1;
    }
    proof {
        lemma_last_segment_at(path@, j as int);
    }
    owned(path.substring_char(j, n))
}

/// Sends `body` as the response for `entry`: inline below
/// [`INLINE_REPLY_LIMIT`] bytes, else as a compressed resource transfer
/// with an empty acknowledgement; a file's transfer carries its name (the
/// last segment of its request path) as metadata.
pub fn respond(entry: &Entry, body: Vec<u8>) -> (r: RequestOutcome)
    ensures
        body@.len() < INLINE_REPLY_LIMIT ==> (r matches RequestOutcome::Reply(b) && b@ == body@),
        body@.len() >= INLINE_REPLY_LIMIT ==> (r matches RequestOutcome::ReplyWithResource {
            ack,
            data,
            metadata,
            auto_compress,
        } && ack@.len() == 0 && data@ == body@ && auto_compress && match metadata {
            Some(m) => entry.is_file && m@ == msgpack_single_map(
                "name"@,
                last_segment(entry.request_path@),
            ),
            None => !entry.is_file,
        }),
{
    if body.len() < INLINE_REPLY_LIMIT {
        RequestOutcome::Reply(body)
    } else {
        let metadata = if entry.is_file {
            let name = file_name_of(entry.request_path.as_str());
            Some(file_name_metadata(name.as_str()))
        } else {
            None
        };
        RequestOutcome::ReplyWithResource { ack: Vec::new(), data: body, metadata, auto_compress: true }
    }
}

} // verus!
