//! The parts of running a page script that decide: the names its form
//! fields are given, the limits its engine runs under, and the page sent
//! back when it fails.

use vstd::prelude::*;
use vstd::utf8::encode_utf8;

use crate::msgpack::{key_views, msgpack_map_keys, msgpack_map_keys_of};
use crate::text::{has_prefix, lemma_ascii_len, lemma_encode_utf8_concat, owned, strip_prefix, utf8_bytes};

verus! {

/// The Micron page reporting that the script for `request_path` failed
/// with `message`.
pub open spec fn error_page_text(request_path: Seq<char>, message: Seq<char>) -> Seq<char> {
    ">Script error\n\n`["@ + request_path + "`]\n\n"@ + message + "\n"@
}

/// Renders a script error as a minimal Micron page, as UTF-8 bytes.
pub fn error_page(request_path: &str, message: &str) -> (r: Vec<u8>)
    ensures
        r@ == encode_utf8(error_page_text(request_path@, message@)),
{
    let mut out = String::new();
    out.append(">Script error\n\n`[");
    out.append(request_path);
    out.append("`]\n\n");
    out.append(message);
    out.append("\n");
    proof {
        assert(out@ =~= error_page_text(request_path@, message@));
    }
    utf8_bytes(out.as_str())
}

/// The error page is valid UTF-8, 22 bytes longer than the request path and
/// the message together: neither is cut short or escaped.
pub proof fn lemma_error_page_length(request_path: Seq<char>, message: Seq<char>)
    ensures
        encode_utf8(error_page_text(request_path, message)).len() == encode_utf8(request_path).len()
            + encode_utf8(message).len() + 22,
        vstd::utf8::valid_utf8(encode_utf8(error_page_text(request_path, message))),
{
    vstd::utf8::encode_utf8_valid_utf8(error_page_text(request_path, message));
    let a = ">Script error\n\n`["@;
    let b = "`]\n\n"@;
    let c = "\n"@;
    reveal_strlit(">Script error\n\n`[");
    reveal_strlit("`]\n\n");
    reveal_strlit("\n");
    lemma_ascii_len(a);
    lemma_ascii_len(b);
    lemma_ascii_len(c);
    lemma_encode_utf8_concat(a, request_path);
    lemma_encode_utf8_concat(a + request_path, b);
    lemma_encode_utf8_concat(a + request_path + b, message);
    lemma_encode_utf8_concat(a + request_path + b + message, c);
}

/// The error page is the header `>Script error`, a blank line, the request
/// path alone in a Micron link, a blank line, the message, and a final line
/// break: the path always stands in the link and the message after it, so
/// each can be read back from the page.
pub proof fn lemma_error_page_layout(request_path: Seq<char>, message: Seq<char>)
    ensures
        ({
            let t = error_page_text(request_path, message);
            let p = request_path.len() as int;
            &&& t.len() == p + message.len() + 22
            &&& t.subrange(0, 17) == seq!['>', 'S', 'c', 'r', 'i', 'p', 't', ' ', 'e', 'r', 'r', 'o', 'r', '\n', '\n', '`', '[']
            &&& t.subrange(17, 17 + p) == request_path
            &&& t.subrange(17 + p, 21 + p) == seq!['`', ']', '\n', '\n']
            &&& t.subrange(21 + p, 21 + p + message.len()) == message
            &&& t.last() == '\n'
        }),
        forall|m2: Seq<char>|
            #![trigger error_page_text(request_path, m2)]
            error_page_text(request_path, message).subrange(0, 21 + request_path.len() as int)
                == error_page_text(request_path, m2).subrange(0, 21 + request_path.len() as int),
{
    reveal_strlit(">Script error\n\n`[");
    reveal_strlit("`]\n\n");
    reveal_strlit("\n");
    let t = error_page_text(request_path, message);
    let p = request_path.len() as int;
    assert(t.subrange(0, 17) =~= seq!['>', 'S', 'c', 'r', 'i', 'p', 't', ' ', 'e', 'r', 'r', 'o', 'r', '\n', '\n', '`', '[']);
    assert(t.subrange(17, 17 + p) =~= request_path);
    assert(t.subrange(17 + p, 21 + p) =~= seq!['`', ']', '\n', '\n']);
    assert(t.subrange(21 + p, 21 + p + message.len()) =~= message);
    assert forall|m2: Seq<char>|
        #![trigger error_page_text(request_path, m2)]
        error_page_text(request_path, message).subrange(0, 21 + request_path.len() as int)
            == error_page_text(request_path, m2).subrange(0, 21 + request_path.len() as int) by {
        let u = error_page_text(request_path, m2);
        assert(t.subrange(0, 21 + p) =~= ">Script error\n\n`["@ + request_path + "`]\n\n"@);
        assert(u.subrange(0, 21 + p) =~= ">Script error\n\n`["@ + request_path + "`]\n\n"@);
    }
}

/// The page bytes to send for a script run: its output when it ran, else
/// the error page for its message.
pub fn script_response(request_path: &str, outcome: Result<Vec<u8>, String>) -> (r: Vec<u8>)
    ensures
        match outcome {
            Ok(bytes) => r@ == bytes@,
            Err(message) => r@ == encode_utf8(error_page_text(request_path@, message@)),
        },
{
    match outcome {
        Ok(bytes) => bytes,
        Err(message) => error_page(request_path, message.as_str()),
    }
}

/// The name a submitted form field is exposed under: its key without a
/// leading `field_`.
pub open spec fn field_name_of(key: Seq<char>) -> Seq<char> {
    if has_prefix(key, "field_"@) {
        key.subrange(6, key.len() as int)
    } else {
        key
    }
}

/// A key `field_k` is exposed as `k`.
pub proof fn lemma_field_prefix_removed(k: Seq<char>)
    ensures
        field_name_of("field_"@ + k) == k,
{
    reveal_strlit("field_");
    let key = "field_"@ + k;
    assert(key.subrange(0, 6) =~= "field_"@);
    assert(key.subrange(6, key.len() as int) =~= k);
}

/// The name a submitted form field is exposed under.
pub fn field_name(key: &str) -> (r: String)
    ensures
        r@ == field_name_of(key@),
{
    proof {
        reveal_strlit("field_");
    }
    match strip_prefix(key, "field_") {
        Some(rest) => rest,
        None => owned(key),
    }
}

/// The position in `slots` of the last slot named `name`, or `-1`.
pub open spec fn slot_of(slots: Seq<(Seq<char>, int)>, name: Seq<char>) -> int
    decreases slots.len(),
{
    if slots.len() == 0 {
        -1
    } else if slots.last().0 == name {
        slots.len() - 1
    } else {
        slot_of(slots.drop_last(), name)
    }
}

/// The form fields that the map keys `keys` give, in the order each name
/// first appears: a field per string key, named by [`field_name_of`], with
/// the index of the last pair that gives that name (a later pair replaces
/// an earlier one); keys that are no strings give none.
pub open spec fn field_slots(keys: Seq<Option<Seq<char>>>) -> Seq<(Seq<char>, int)>
    decreases keys.len(),
{
    if keys.len() == 0 {
        Seq::empty()
    } else {
        let r = field_slots(keys.drop_last());
        match keys.last() {
            None => r,
            Some(k) => {
                let n = field_name_of(k);
                let p = slot_of(r, n);
                if p >= 0 {
                    r.update(p, (n, keys.len() - 1))
                } else {
                    r.push((n, keys.len() - 1))
                }
            },
        }
    }
}

/// The form fields of a request's data: none for empty data or data that
/// does not start with a MessagePack map, else those of its keys.
pub open spec fn field_names_of(data: Seq<u8>) -> Seq<(Seq<char>, int)> {
    if data.len() == 0 {
        Seq::empty()
    } else {
        match msgpack_map_keys_of(data) {
            Some(keys) => field_slots(keys),
            None => Seq::empty(),
        }
    }
}

/// The views of a sequence of field slots.
pub open spec fn slot_views(slots: Seq<(String, usize)>) -> Seq<(Seq<char>, int)> {
    slots.map_values(|p: (String, usize)| (p.0@, p.1 as int))
}

proof fn lemma_slot_of_at(slots: Seq<(Seq<char>, int)>, name: Seq<char>, j: int)
    requires
        0 <= j <= slots.len(),
        j == 0 || slots[j - 1].0 == name,
        forall|k: int| j <= k < slots.len() ==> (#[trigger] slots[k]).0 != name,
    ensures
        slot_of(slots, name) == j - 1,
    decreases slots.len(),
{
    if j < slots.len() {
        lemma_slot_of_at(slots.drop_last(), name, j);
    }
}

proof fn lemma_slot_of_props(slots: Seq<(Seq<char>, int)>, name: Seq<char>)
    ensures
        -1 <= slot_of(slots, name) < slots.len(),
        slot_of(slots, name) >= 0 ==> slots[slot_of(slots, name)].0 == name,
        slot_of(slots, name) == -1 ==> forall|a: int| 0 <= a < slots.len() ==> (#[trigger] slots[a]).0 != name,
    decreases slots.len(),
{
    if slots.len() > 0 {
        lemma_slot_of_props(slots.drop_last(), name);
        if slots.last().0 != name {
            assert forall|a: int| 0 <= a < slots.len() - 1 implies (#[trigger] slots[a]) == slots.drop_last()[a] by {}
        }
    }
}

/// The fields of a form: every name once; each field takes the value of a
/// pair whose string key gives its name, and no later pair gives that name
/// (the last duplicate wins); and every string key's name is a field.
#[verifier::spinoff_prover]
#[verifier::rlimit(40)]
pub proof fn lemma_field_slots(keys: Seq<Option<Seq<char>>>)
    ensures
        forall|a: int, b: int|
            0 <= a < b < field_slots(keys).len() ==> (#[trigger] field_slots(keys)[a]).0 != (
            #[trigger] field_slots(keys)[b]).0,
        forall|a: int|
            0 <= a < field_slots(keys).len() ==> {
                let (n, i) = #[trigger] field_slots(keys)[a];
                &&& 0 <= i < keys.len()
                &&& keys[i] is Some
                &&& field_name_of(keys[i]->0) == n
                &&& forall|i2: int|
                    i < i2 < keys.len() && (#[trigger] keys[i2]) is Some ==> field_name_of(keys[i2]->0)
                        != n
            },
        forall|i: int|
            0 <= i < keys.len() && (#[trigger] keys[i]) is Some ==> exists|a: int|
                0 <= a < field_slots(keys).len() && (#[trigger] field_slots(keys)[a]).0 == field_name_of(
                    keys[i]->0,
                ),
    decreases keys.len(),
{
    if keys.len() > 0 {
        let t = keys.drop_last();
        let r = field_slots(t);
        lemma_field_slots(t);
        let last = keys.len() - 1;
        assert forall|i: int| 0 <= i < last implies #[trigger] keys[i] == t[i] by {}
        match keys.last() {
            None => {
                let s = field_slots(keys);
                assert(s == r);
                assert forall|i: int| 0 <= i < keys.len() && (#[trigger] keys[i]) is Some implies exists|a: int|
                    0 <= a < s.len() && (#[trigger] s[a]).0 == field_name_of(keys[i]->0) by {
                    assert(t[i] == keys[i]);
                }
            },
            Some(k) => {
                let n = field_name_of(k);
                lemma_slot_of_props(r, n);
                let p = slot_of(r, n);
                let s = field_slots(keys);
                assert forall|a: int|
                    0 <= a < s.len() implies {
                        let (m, i) = #[trigger] s[a];
                        &&& 0 <= i < keys.len()
                        &&& keys[i] is Some
                        &&& field_name_of(keys[i]->0) == m
                        &&& forall|i2: int|
                            i < i2 < keys.len() && (#[trigger] keys[i2]) is Some ==> field_name_of(
                                keys[i2]->0,
                            ) != m
                    } by {
                    if (p >= 0 && a == p) || (p < 0 && a == r.len()) {
                        assert(s[a] == (n, last));
                    } else {
                        assert(s[a] == r[a]);
                        let (m, i) = r[a];
                        assert(m != n);
                        assert forall|i2: int|
                            i < i2 < keys.len() && (#[trigger] keys[i2]) is Some implies field_name_of(keys[i2]->0) != m by {
                            if i2 < last {
                                assert(keys[i2] == t[i2]);
                            }
                        }
                    }
                }
                assert forall|a: int, b: int|
                    0 <= a < b < s.len() implies (#[trigger] s[a]).0 != (#[trigger] s[b]).0 by {
                    if p < 0 && b == r.len() {
                        assert(s[a] == r[a]);
                    } else if p >= 0 && (a == p || b == p) {
                        assert(s[a].0 == r[a].0);
                        assert(s[b].0 == r[b].0);
                    } else {
                        assert(s[a] == r[a] && s[b] == r[b]);
                    }
                }
                assert forall|i: int| 0 <= i < keys.len() && (#[trigger] keys[i]) is Some implies exists|a: int|
                    0 <= a < s.len() && (#[trigger] s[a]).0 == field_name_of(keys[i]->0) by {
                    if i == last {
                        if p >= 0 {
                            assert(s[p].0 == n);
                        } else {
                            assert(s[r.len() as int].0 == n);
                        }
                    } else {
                        assert(t[i] == keys[i]);
                        let a = choose|a: int| 0 <= a < r.len() && (#[trigger] r[a]).0 == field_name_of(t[i]->0);
                        assert(s[a].0 == r[a].0);
                    }
                }
            },
        }
    }
}

/// The fields of a request's data, in terms of its map keys: none for
/// empty data or data that is no map; otherwise each field stands for one
/// pair whose key is a string `k`, and is named `k` with a leading `field_`
/// removed (any other key keeps its whole text); no later pair gives the
/// same name, no two fields share a name, and every string key gives a
/// field.
pub proof fn lemma_field_names_of_data(data: Seq<u8>)
    ensures
        data.len() == 0 ==> field_names_of(data).len() == 0,
        msgpack_map_keys_of(data) is None ==> field_names_of(data).len() == 0,
        data.len() > 0 && msgpack_map_keys_of(data) is Some ==> ({
            let keys = msgpack_map_keys_of(data)->0;
            let r = field_names_of(data);
            &&& forall|a: int, b: int| 0 <= a < b < r.len() ==> (#[trigger] r[a]).0 != (#[trigger] r[b]).0
            &&& forall|a: int|
                0 <= a < r.len() ==> {
                    let (n, i) = #[trigger] r[a];
                    &&& 0 <= i < keys.len()
                    &&& keys[i] is Some
                    &&& n == (if keys[i]->0.len() >= 6 && keys[i]->0.subrange(0, 6) == seq!['f', 'i', 'e', 'l', 'd', '_'] {
                        keys[i]->0.subrange(6, keys[i]->0.len() as int)
                    } else {
                        keys[i]->0
                    })
                    &&& forall|i2: int|
                        i < i2 < keys.len() && (#[trigger] keys[i2]) is Some ==> field_name_of(keys[i2]->0) != n
                }
            &&& forall|i: int|
                0 <= i < keys.len() && (#[trigger] keys[i]) is Some ==> exists|a: int|
                    0 <= a < r.len() && (#[trigger] r[a]).0 == field_name_of(keys[i]->0)
        }),
{
    reveal_strlit("field_");
    assert("field_"@ =~= seq!['f', 'i', 'e', 'l', 'd', '_']);
    if data.len() > 0 && msgpack_map_keys_of(data) is Some {
        lemma_field_slots(msgpack_map_keys_of(data)->0);
    }
}

/// The form fields that the map keys `keys` give (see [`field_slots`]):
/// each name with the index of the pair whose value it takes.
pub fn fields_of_keys(keys: &Vec<Option<String>>) -> (r: Vec<(String, usize)>)
    ensures
        slot_views(r@) == field_slots(key_views(keys@)),
{
    let mut r: Vec<(String, usize)> = Vec::new();
    let n = keys.len();
    let mut i: usize = 0;
    while i < n
        invariant
            n == keys@.len(),
            i <= n,
            slot_views(r@) == field_slots(key_views(keys@).take(i as int)),
        decreases n - i,
    {
        let ghost kv = key_views(keys@).take(i + 1);
        proof {
            assert(kv.drop_last() =~= key_views(keys@).take(i as int));
        }
        match &keys[i] {
            None => {
                assert(kv.last() is None);
            },
            Some(k) => {
                assert(kv.last() == Some(k@));
                let name = field_name(k.as_str());
                let ghost before = slot_views(r@);
                let mut j: usize = r.len();
                while j > 0 && !(r[j - 1].0 == name)
                    invariant
                        j <= r@.len(),
                        before == slot_views(r@),
                        forall|m: int| j <= m < r@.len() ==> (#[trigger] before[m]).0 != name@,
                    decreases j,
                {
                    j = j - 1;
                }
                proof {
                    if j > 0 {
                        assert(before[j - 1].0 == name@);
                    }
                    lemma_slot_of_at(before, name@, j as int);
                }
                if j > 0 {
                    r.set(j - 1, (name, i));
                    assert(slot_views(r@) =~= before.update(j - 1, (name@, i as int)));
                } else {
                    r.push((name, i));
                    assert(slot_views(r@) =~= before.push((name@, i as int)));
                }
            },
        }
        i = i + 1;
    }
    assert(key_views(keys@).take(n as int) =~= key_views(keys@));
    r
}

/// The form fields of a request's data (see [`field_names_of`]): each
/// name, without a leading `field_`, with the index of the map pair whose
/// value it takes. Empty for empty data, data that is not a MessagePack
/// map, or a map without string keys: missing fields are no error.
pub fn decode_field_names(data: &[u8]) -> (r: Vec<(String, usize)>)
    ensures
        slot_views(r@) == field_names_of(data@),
{
    if data.len() == 0 {
        return Vec::new();
    }
    match msgpack_map_keys(data) {
        Some(keys) => fields_of_keys(&keys),
        None => Vec::new(),
    }
}

/// The limits a page script runs under. A script runs on every incoming
/// request, so these bound its work: no loop or recursion can hang the
/// node.
pub struct EngineLimits {
    pub max_operations: u64,
    pub max_expr_depth: usize,
    pub max_function_expr_depth: usize,
    pub max_string_size: usize,
    pub max_array_size: usize,
    pub max_map_size: usize,
}

/// The limits every page script runs under.
pub fn engine_limits() -> (r: EngineLimits)
    ensures
        r.max_operations == 500_000,
        r.max_expr_depth == 64,
        r.max_function_expr_depth == 32,
        r.max_string_size == 1_000,
        r.max_array_size == 1_000,
        r.max_map_size == 1_000,
{
    EngineLimits {
        max_operations: 500_000,
        max_expr_depth: 64,
        max_function_expr_depth: 32,
        max_string_size: 1_000,
        max_array_size: 1_000,
        max_map_size: 1_000,
    }
}

} // verus!
