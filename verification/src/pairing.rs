use vstd::prelude::*;
use pem::{Pem, PemError};

use crate::keyed_table::KeyedTable;

verus! {

#[verifier::external_type_specification]
#[verifier::external_body]
pub struct ExPem(Pem);

#[verifier::external_type_specification]
#[verifier::external_body]
pub struct ExPemError(PemError);

/// What `pem::parse` gives for `text`: the block of the first
/// `-----BEGIN ..-----` / `-----END ..-----` frame in it, when that frame
/// carries the same non-empty tag at both ends and its headers and base64
/// contents decode, and nothing otherwise. The parse is a function of the
/// text alone; its rule is the pem crate's.
pub uninterp spec fn parsed_pem(text: Seq<char>) -> Option<Pem>;

/// What `pem::encode` writes for `block`: a function of the block alone.
pub uninterp spec fn pem_text(block: Pem) -> Seq<char>;

/// `pem::parse` accepts `text`.
pub open spec fn pem_parses(text: Seq<char>) -> bool {
    parsed_pem(text) is Some
}

/// `pem::parse` on `text`: the block that `parsed_pem` names, or an error
/// exactly when it names none.
#[verifier::external_body]
fn parse_pem(text: &str) -> (r: Result<Pem, PemError>)
    ensures
        match r {
            Ok(p) => parsed_pem(text@) == Some(p),
            Err(_) => parsed_pem(text@) is None,
        },
{
    pem::parse(text)
}

/// `pem::encode`: the block as PEM text, the text that `pem_text` names.
#[verifier::external_body]
fn encode_pem(block: &Pem) -> (text: String)
    ensures
        text@ == pem_text(*block),
{
    pem::encode(block)
}

/// The credentials with which this server pairs with a host, as stored on
/// disk.
#[derive(Clone, Debug)]
pub struct PairedHost {
    pub client_private_key: String,
    pub client_certificate: String,
    pub server_certificate: String,
}

/// A client key and certificate, as stored on disk.
#[derive(Clone, Debug)]
pub struct SerializableClientAuth {
    pub private_key: String,
    pub certificate: String,
}

/// A client key and certificate, parsed.
pub struct ClientAuth {
    pub private_key: Pem,
    pub certificate: Pem,
}

/// The stored pairing of a host, when it has all three credentials.
pub fn extract_paired(
    client_private_key: Option<&str>,
    client_certificate: Option<&str>,
    server_certificate: Option<&str>,
) -> (p: Option<PairedHost>)
    ensures
        p is Some <==> client_private_key is Some && client_certificate is Some
            && server_certificate is Some,
        p matches Some(h) ==> h.client_private_key@ == client_private_key->0@
            && h.client_certificate@ == client_certificate->0@ && h.server_certificate@
            == server_certificate->0@,
{
    match (client_private_key, client_certificate, server_certificate) {
        (Some(k), Some(c), Some(s)) => Some(
            PairedHost {
                client_private_key: k.to_owned(),
                client_certificate: c.to_owned(),
                server_certificate: s.to_owned(),
            },
        ),
        _ => None,
    }
}

/// Which stored credential of a host failed to parse, the first one in
/// the order key, client certificate, server certificate.
#[derive(Clone, Copy, Debug, PartialEq, Eq)]
pub enum PairingParseError {
    ClientPrivateKey,
    ClientCertificate,
    ServerCertificate,
}

/// Parses the stored pairing of a host into the client credentials and the
/// server certificate to pair with.
pub fn parse_paired(paired: &PairedHost) -> (r: Result<(ClientAuth, Pem), PairingParseError>)
    ensures
        r is Ok <==> pem_parses(paired.client_private_key@) && pem_parses(
            paired.client_certificate@,
        ) && pem_parses(paired.server_certificate@),
        r == Err::<(ClientAuth, Pem), _>(PairingParseError::ClientPrivateKey) <==> !pem_parses(
            paired.client_private_key@,
        ),
        r == Err::<(ClientAuth, Pem), _>(PairingParseError::ClientCertificate) <==> pem_parses(
            paired.client_private_key@,
        ) && !pem_parses(paired.client_certificate@),
        r == Err::<(ClientAuth, Pem), _>(PairingParseError::ServerCertificate) <==> pem_parses(
            paired.client_private_key@,
        ) && pem_parses(paired.client_certificate@) && !pem_parses(paired.server_certificate@),
        r matches Ok((auth, server)) ==> {
            &&& parsed_pem(paired.client_private_key@) == Some(auth.private_key)
            &&& parsed_pem(paired.client_certificate@) == Some(auth.certificate)
            &&& parsed_pem(paired.server_certificate@) == Some(server)
        },
{
    let private_key = match parse_pem(paired.client_private_key.as_str()) {
        Ok(p) => p,
        Err(_) => return Err(PairingParseError::ClientPrivateKey),
    };
    let certificate = match parse_pem(paired.client_certificate.as_str()) {
        Ok(p) => p,
        Err(_) => return Err(PairingParseError::ClientCertificate),
    };
    let server_certificate = match parse_pem(paired.server_certificate.as_str()) {
        Ok(p) => p,
        Err(_) => return Err(PairingParseError::ServerCertificate),
    };
    Ok((ClientAuth { private_key, certificate }, server_certificate))
}

/// Both texts of a stored client credential parse.
pub open spec fn auth_parses(auth: SerializableClientAuth) -> bool {
    pem_parses(auth.private_key@) && pem_parses(auth.certificate@)
}

/// Some of the first `n` stored entries is for `id`, and its texts parse
/// (`ok`) or do not (`!ok`).
pub open spec fn has_entry(
    entries: Seq<(String, SerializableClientAuth)>,
    n: int,
    id: Seq<char>,
    ok: bool,
) -> bool {
    exists|i: int| 0 <= i < n && entries[i].0@ == id && auth_parses(entries[i].1) == ok
}

/// The texts of a list of strings.
pub open spec fn texts(v: Seq<String>) -> Seq<Seq<char>> {
    Seq::new(v.len(), |j: int| v[j]@)
}

/// The ids of the first `n` stored entries whose texts do not parse, in
/// the order of the entries.
pub open spec fn failed_ids(entries: Seq<(String, SerializableClientAuth)>, n: int) -> Seq<
    Seq<char>,
>
    decreases n,
{
    if n <= 0 {
        Seq::empty()
    } else if auth_parses(entries[n - 1].1) {
        failed_ids(entries, n - 1)
    } else {
        failed_ids(entries, n - 1).push(entries[n - 1].0@)
    }
}

/// An id is among the failed ones exactly when some entry for it fails,
/// and there are no more failed ids than entries.
pub proof fn lemma_failed_ids(entries: Seq<(String, SerializableClientAuth)>, n: int)
    requires
        0 <= n <= entries.len(),
    ensures
        failed_ids(entries, n).len() <= n,
        forall|id: Seq<char>| #[trigger]
            failed_ids(entries, n).contains(id) <==> has_entry(entries, n, id, false),
    decreases n,
{
    if n > 0 {
        lemma_failed_ids(entries, n - 1);
        let prev = failed_ids(entries, n - 1);
        let cur = failed_ids(entries, n);
        assert forall|id: Seq<char>| #[trigger] cur.contains(id) <==> has_entry(entries, n, id, false) by {
            if cur.contains(id) {
                let j = choose|j: int| 0 <= j < cur.len() && cur[j] == id;
                if j < prev.len() {
                    assert(prev[j] == id);
                    assert(prev.contains(id));
                    let i = choose|i: int| 0 <= i < n - 1 && entries[i].0@ == id && auth_parses(entries[i].1) == false;
                    assert(0 <= i < n && entries[i].0@ == id && auth_parses(entries[i].1) == false);
                } else {
                    assert(0 <= n - 1 < n && entries[n - 1].0@ == id && auth_parses(entries[n - 1].1) == false);
                }
            }
            if has_entry(entries, n, id, false) {
                let i = choose|i: int| 0 <= i < n && entries[i].0@ == id && auth_parses(entries[i].1) == false;
                if i < n - 1 {
                    assert(has_entry(entries, n - 1, id, false));
                    assert(prev.contains(id));
                    let j = choose|j: int| 0 <= j < prev.len() && prev[j] == id;
                    assert(cur[j] == prev[j]);
                    assert(cur.contains(id));
                } else {
                    assert(cur[cur.len() - 1] == id);
                }
            }
        }
    }
}

/// The credential that a stored entry parses to, when both its texts
/// parse.
pub open spec fn parsed_auth(auth: SerializableClientAuth) -> ClientAuth {
    ClientAuth {
        private_key: parsed_pem(auth.private_key@)->0,
        certificate: parsed_pem(auth.certificate@)->0,
    }
}

/// Entry `i` is the last of the first `n` entries for `id` whose texts
/// parse.
pub open spec fn last_parsing(
    entries: Seq<(String, SerializableClientAuth)>,
    n: int,
    id: Seq<char>,
    i: int,
) -> bool {
    &&& 0 <= i < n
    &&& entries[i].0@ == id
    &&& auth_parses(entries[i].1)
    &&& forall|j: int| i < j < n && #[trigger] entries[j].0@ == id ==> !auth_parses(entries[j].1)
}

/// `m` is what loading the first `n` entries gives: the ids with an entry
/// whose texts parse, each mapped to the parse of the last such entry.
pub open spec fn loaded_from(
    entries: Seq<(String, SerializableClientAuth)>,
    n: int,
    m: Map<Seq<char>, ClientAuth>,
) -> bool {
    &&& forall|id: Seq<char>| #[trigger] m.dom().contains(id) <==> has_entry(entries, n, id, true)
    &&& forall|id: Seq<char>| #[trigger]
        m.dom().contains(id) ==> exists|i: int|
            last_parsing(entries, n, id, i) && m[id] == parsed_auth(#[trigger] entries[i].1)
}

/// Loads the stored client credentials, by client id: each id maps to the
/// parsed key and certificate of its entry (of its last entry that parses,
/// should an id come twice). An entry whose key or certificate does not
/// parse is left out, and its id is listed in the second result, in the
/// order of the entries.
pub fn load_client_certificates(entries: Vec<(String, SerializableClientAuth)>) -> (r: (
    KeyedTable<ClientAuth>,
    Vec<String>,
))
    ensures
        r.0.wf(),
        forall|id: Seq<char>| #[trigger]
            r.0@.dom().contains(id) <==> has_entry(entries@, entries@.len() as int, id, true),
        loaded_from(entries@, entries@.len() as int, r.0@),
        texts(r.1@) == failed_ids(entries@, entries@.len() as int),
        r.1@.len() <= entries@.len(),
        forall|id: Seq<char>| #[trigger]
            texts(r.1@).contains(id) <==> has_entry(entries@, entries@.len() as int, id, false),
{
    let ghost all = entries@;
    let mut rest = entries;
    let mut loaded: KeyedTable<ClientAuth> = KeyedTable::new();
    let mut failed: Vec<String> = Vec::new();
    let mut k: usize = 0;
    let total = rest.len();
    assert(texts(failed@) =~= failed_ids(all, 0));
    while rest.len() > 0
        invariant
            k + rest@.len() == all.len(),
            all.len() == total,
            rest@ == all.subrange(k as int, all.len() as int),
            loaded.wf(),
            loaded_from(all, k as int, loaded@),
            texts(failed@) == failed_ids(all, k as int),
        decreases rest@.len(),
    {
        let (id, auth) = rest.remove(0);
        assert((id, auth) == all[k as int]);
        let ghost key = id@;
        let ghost ok = auth_parses(auth);
        let ghost before = failed@;
        let ghost loaded_before = loaded@;
        let private_key = parse_pem(auth.private_key.as_str());
        let certificate = parse_pem(auth.certificate.as_str());
        match (private_key, certificate) {
            (Ok(private_key), Ok(certificate)) => {
                loaded.insert(id, ClientAuth { private_key, certificate });
            },
            _ => {
                failed.push(id);
            },
        }
        proof {
            if ok {
                assert(failed@ == before);
            } else {
                assert(texts(failed@) =~= texts(before).push(key));
            }
            assert forall|q: Seq<char>| #[trigger] loaded@.dom().contains(q) <==> has_entry(all, k + 1, q, true) by {
                if has_entry(all, k + 1, q, true) {
                    let i = choose|i: int| 0 <= i < k + 1 && all[i].0@ == q && auth_parses(all[i].1) == true;
                    if i < k {
                        assert(has_entry(all, k as int, q, true));
                    }
                }
                if has_entry(all, k as int, q, true) {
                    let i = choose|i: int| 0 <= i < k && all[i].0@ == q && auth_parses(all[i].1) == true;
                    assert(0 <= i < k + 1 && all[i].0@ == q && auth_parses(all[i].1) == true);
                }
                if q == key && ok {
                    assert(0 <= k < k + 1 && all[k as int].0@ == q && auth_parses(all[k as int].1) == true);
                }
            }
            assert forall|q: Seq<char>| #[trigger] loaded@.dom().contains(q) implies exists|i: int|
                last_parsing(all, k + 1, q, i) && loaded@[q] == parsed_auth(#[trigger] all[i].1) by {
                if q == key && ok {
                    assert(last_parsing(all, k + 1, q, k as int));
                    assert(loaded@[q] == parsed_auth(all[k as int].1));
                } else {
                    assert(loaded_before.dom().contains(q));
                    let i = choose|i: int|
                        last_parsing(all, k as int, q, i) && loaded_before[q] == parsed_auth(#[trigger] all[i].1);
                    assert(loaded@[q] == loaded_before[q]);
                    assert(last_parsing(all, k + 1, q, i));
                }
            }
            assert(rest@ =~= all.subrange(k + 1, all.len() as int));
        }
        k = k + 1;
    }
    proof {
        lemma_failed_ids(all, all.len() as int);
    }
    (loaded, failed)
}

/// `out` is the table written out: its ids in the table's order, each with
/// the PEM text of its key and certificate.
pub open spec fn saved_from(table: KeyedTable<ClientAuth>, out: Seq<(String, SerializableClientAuth)>) -> bool {
    &&& out.len() == table.key_order().len()
    &&& forall|i: int| 0 <= i < out.len() ==> #[trigger] out[i].0@ == table.key_order()[i]
    &&& forall|i: int|
        0 <= i < out.len() ==> {
            &&& (#[trigger] out[i]).1.private_key@ == pem_text(table@[table.key_order()[i]].private_key)
            &&& out[i].1.certificate@ == pem_text(table@[table.key_order()[i]].certificate)
        }
}

/// Writes the client credentials out as PEM text, by client id, in the
/// table's order.
pub fn save_client_certificates(table: &KeyedTable<ClientAuth>) -> (out: Vec<(String, SerializableClientAuth)>)
    requires
        table.wf(),
    ensures
        saved_from(*table, out@),
{
    let n = table.len();
    let mut out: Vec<(String, SerializableClientAuth)> = Vec::new();
    let mut i: usize = 0;
    while i < n
        invariant
            n == table.key_order().len(),
            table.wf(),
            i <= n,
            out@.len() == i,
            forall|j: int| 0 <= j < i ==> #[trigger] out@[j].0@ == table.key_order()[j],
            forall|j: int|
                0 <= j < i ==> {
                    &&& (#[trigger] out@[j]).1.private_key@ == pem_text(table@[table.key_order()[j]].private_key)
                    &&& out@[j].1.certificate@ == pem_text(table@[table.key_order()[j]].certificate)
                },
        decreases n - i,
    {
        let (id, auth) = table.entry_at(i);
        let private_key = encode_pem(&auth.private_key);
        let certificate = encode_pem(&auth.certificate);
        out.push((id.clone(), SerializableClientAuth { private_key, certificate }));
        i = i + 1;
    }
    out
}

/// Saving the client credentials and loading the saved list back, as on a
/// restart, gives back the same credentials under the same ids, as long as
/// pem reads back each block it wrote (`pem::parse` of `pem::encode` of the
/// block gives the block).
pub proof fn lemma_save_then_load(
    table: KeyedTable<ClientAuth>,
    saved: Seq<(String, SerializableClientAuth)>,
    loaded: Map<Seq<char>, ClientAuth>,
)
    requires
        table.wf(),
        saved_from(table, saved),
        forall|id: Seq<char>| #[trigger]
            table@.dom().contains(id) ==> parsed_pem(pem_text(table@[id].private_key)) == Some(
                table@[id].private_key,
            ) && parsed_pem(pem_text(table@[id].certificate)) == Some(table@[id].certificate),
        loaded_from(saved, saved.len() as int, loaded),
    ensures
        loaded == table@,
{
    table.lemma_key_order();
    assert forall|i: int| 0 <= i < saved.len() implies auth_parses(#[trigger] saved[i].1)
        && parsed_auth(saved[i].1) == table@[table.key_order()[i]] by {
        let id = table.key_order()[i];
        assert(table.key_order().contains(id));
        assert(table@.dom().contains(id));
    }
    assert forall|id: Seq<char>| loaded.dom().contains(id) <==> #[trigger] table@.dom().contains(id) by {
        if loaded.dom().contains(id) {
            let i = choose|i: int| 0 <= i < saved.len() && saved[i].0@ == id && auth_parses(saved[i].1) == true;
            assert(table.key_order().contains(table.key_order()[i]));
        }
        if table@.dom().contains(id) {
            assert(table.key_order().to_set().contains(id));
            let i = choose|i: int| 0 <= i < table.key_order().len() && table.key_order()[i] == id;
            assert(saved[i].0@ == id && auth_parses(saved[i].1));
            assert(has_entry(saved, saved.len() as int, id, true));
        }
    }
    assert forall|id: Seq<char>| #[trigger] loaded.dom().contains(id) implies loaded[id] == table@[id] by {
        let i = choose|i: int|
            last_parsing(saved, saved.len() as int, id, i) && loaded[id] == parsed_auth(#[trigger] saved[i].1);
        assert(saved[i].0@ == table.key_order()[i]);
        assert(parsed_auth(saved[i].1) == table@[table.key_order()[i]]);
    }
    assert(loaded =~= table@);
}

/// The `i`-th saved entry parses to the same blocks as the entry for its
/// id that loading kept.
pub open spec fn saved_as_loaded(
    entries: Seq<(String, SerializableClientAuth)>,
    saved: Seq<(String, SerializableClientAuth)>,
    i: int,
) -> bool {
    exists|j: int|
        last_parsing(entries, entries.len() as int, saved[i].0@, j) && parsed_pem(
            saved[i].1.private_key@,
        ) == parsed_pem(#[trigger] entries[j].1.private_key@) && parsed_pem(saved[i].1.certificate@)
            == parsed_pem(entries[j].1.certificate@)
}

/// Loading stored client credentials and saving them again, as on a
/// restart followed by a save, writes one entry for each id that loaded,
/// and each text written parses to the same block as the text it was
/// loaded from, as long as pem reads back each block it writes.
pub proof fn lemma_load_then_save(
    entries: Seq<(String, SerializableClientAuth)>,
    loaded: KeyedTable<ClientAuth>,
    saved: Seq<(String, SerializableClientAuth)>,
)
    requires
        loaded.wf(),
        loaded_from(entries, entries.len() as int, loaded@),
        saved_from(loaded, saved),
        forall|id: Seq<char>| #[trigger]
            loaded@.dom().contains(id) ==> parsed_pem(pem_text(loaded@[id].private_key)) == Some(
                loaded@[id].private_key,
            ) && parsed_pem(pem_text(loaded@[id].certificate)) == Some(loaded@[id].certificate),
    ensures
        forall|id: Seq<char>|
            (exists|i: int| 0 <= i < saved.len() && #[trigger] saved[i].0@ == id) <==> has_entry(
                entries,
                entries.len() as int,
                id,
                true,
            ),
        forall|i: int| 0 <= i < saved.len() ==> #[trigger] saved_as_loaded(entries, saved, i),
{
    loaded.lemma_key_order();
    let n = entries.len() as int;
    assert forall|id: Seq<char>|
        (exists|i: int| 0 <= i < saved.len() && #[trigger] saved[i].0@ == id) <==> has_entry(
            entries,
            n,
            id,
            true,
        ) by {
        if exists|i: int| 0 <= i < saved.len() && #[trigger] saved[i].0@ == id {
            let i = choose|i: int| 0 <= i < saved.len() && #[trigger] saved[i].0@ == id;
            assert(loaded.key_order().contains(loaded.key_order()[i]));
            assert(loaded@.dom().contains(id));
        }
        if has_entry(entries, n, id, true) {
            assert(loaded@.dom().contains(id));
            assert(loaded.key_order().to_set().contains(id));
            let i = choose|i: int| 0 <= i < loaded.key_order().len() && loaded.key_order()[i] == id;
            assert(saved[i].0@ == id);
        }
    }
    assert forall|i: int| 0 <= i < saved.len() implies #[trigger] saved_as_loaded(entries, saved, i) by {
        let id = saved[i].0@;
        assert(loaded.key_order().contains(loaded.key_order()[i]));
        assert(loaded@.dom().contains(id));
        let j = choose|j: int| last_parsing(entries, n, id, j) && loaded@[id] == parsed_auth(#[trigger] entries[j].1);
        assert(parsed_pem(saved[i].1.private_key@) == Some(loaded@[id].private_key));
        assert(parsed_pem(saved[i].1.certificate@) == Some(loaded@[id].certificate));
        assert(parsed_pem(saved[i].1.private_key@) == parsed_pem(entries[j].1.private_key@));
    }
}

/// What a host is known as between connections.
#[derive(Clone, Debug, Default)]
pub struct HostCache<M> {
    pub name: Option<String>,
    pub mac: Option<M>,
}

impl<M> HostCache<M> {
    /// Takes in what a host answered: its name, if it answered, and its MAC
    /// address, if it answered and has one. True when the cache changed,
    /// so that it is to be saved.
    pub fn refresh(&mut self, name: Option<String>, mac: Option<Option<M>>) -> (changed: bool)
        ensures
            changed == (name is Some || mac matches Some(Some(_))),
            final(self).name == (if name is Some {
                name
            } else {
                old(self).name
            }),
            final(self).mac == (match mac {
                Some(Some(m)) => Some(m),
                _ => old(self).mac,
            }),
    {
        let mut changed = false;
        if let Some(name) = name {
            self.name = Some(name);
            changed = true;
        }
        if let Some(Some(mac)) = mac {
            self.mac = Some(mac);
            changed = true;
        }
        changed
    }
}

} // verus!
