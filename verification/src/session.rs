//! Per-session observation state of the proxy: a key-to-comment table
//! filled from every identities answer seen on the agent-to-client
//! direction, and the notification data raised when the client asks the
//! agent to sign with a key. The table is keyed by the key's semantic
//! value, so a key re-sent with different `mpint` padding still finds its
//! comment.

use vstd::prelude::*;
use vstd::string::StringExecFns;

use crate::fingerprint::{
    base64_nopad_of, sha256_of, spec_algo_name_of, spec_bits_of,
};
use crate::unpack::Unpack;
use crate::message::{
    lemma_key_eq_is_view_eq, spec_key_encoding, IdentityView, KeyBlob, KeyBlobView, Message,
    MessageView,
};

verus! {

/// What the proxy hands the notifier for one sign request.
pub struct SignInfo {
    /// The comment recorded for the key, or empty when none was seen.
    pub comment: String,
    /// The algorithm's display name.
    pub algo: String,
    /// The key's size in bits.
    pub bits: u64,
    /// The SHA-256 digest of the canonical key encoding.
    pub digest: Vec<u8>,
    /// The digest, base64 without padding.
    pub fingerprint: String,
}

/// The decimal digits of `n`, most significant first.
pub open spec fn dec_digits(n: nat) -> Seq<char>
    decreases n,
{
    if n < 10 {
        seq![((48 + n) as u8) as char]
    } else {
        dec_digits(n / 10).push(((48 + n % 10) as u8) as char)
    }
}

/// Relies on `String::push`: appends exactly one character.
#[verifier::external_body]
fn push_char(s: &mut String, c: char)
    ensures
        final(s)@ == old(s)@ + seq![c],
{
    s.push(c);
}

/// Write a number in decimal.
pub fn u64_to_decimal(n: u64) -> (r: String)
    ensures
        r@ == dec_digits(n as nat),
    decreases n,
{
    if n < 10 {
        let mut s = String::new();
        push_char(&mut s, (48 + (n as u8)) as char);
        proof {
            assert(s@ =~= dec_digits(n as nat));
        }
        s
    } else {
        let mut s = u64_to_decimal(n / 10);
        push_char(&mut s, (48 + ((n % 10) as u8)) as char);
        proof {
            assert(s@ =~= dec_digits(n as nat));
        }
        s
    }
}

impl SignInfo {
    /// The notification title: `ssh-agent <comment>`.
    pub fn title(&self) -> (r: String)
        ensures
            r@ == "ssh-agent "@ + self.comment@,
    {
        let mut s = "ssh-agent ".to_owned();
        s.append(self.comment.as_str());
        s
    }

    /// The notification body: the algorithm and bit size on one line, the
    /// fingerprint on the next.
    pub fn body(&self) -> (r: String)
        ensures
            r@ == self.algo@ + " "@ + dec_digits(self.bits as nat) + " bits\nSHA256:"@
                + self.fingerprint@,
    {
        let mut s = self.algo.clone();
        s.append(" ");
        let d = u64_to_decimal(self.bits);
        s.append(d.as_str());
        s.append(" bits\nSHA256:");
        s.append(self.fingerprint.as_str());
        s
    }
}

/// The states of one proxied session. The proxy is half-duplex: a strict
/// request/response alternation, closed for good on the first transport
/// failure from either side.
#[derive(Clone, Copy, Debug, PartialEq, Eq, Structural)]
pub enum SessionState {
    Idle,
    AwaitingAgentResponse,
    Closed,
}

/// What moves a session between its states.
#[derive(Clone, Copy, Debug, PartialEq, Eq, Structural)]
pub enum SessionEvent {
    /// A client record was forwarded to the agent.
    ClientForwarded,
    /// An agent record was forwarded to the client.
    AgentForwarded,
    /// Either side reached end of stream or failed.
    Disconnected,
}

impl SessionState {
    /// The transition relation: forwarding swings between the two live
    /// states, any failure closes, and a closed session stays closed.
    pub open spec fn spec_step(self, event: SessionEvent) -> SessionState {
        match event {
            SessionEvent::Disconnected => SessionState::Closed,
            SessionEvent::ClientForwarded => match self {
                SessionState::Idle => SessionState::AwaitingAgentResponse,
                other => other,
            },
            SessionEvent::AgentForwarded => match self {
                SessionState::AwaitingAgentResponse => SessionState::Idle,
                other => other,
            },
        }
    }

    pub fn step(self, event: SessionEvent) -> (r: SessionState)
        ensures
            r == self.spec_step(event),
    {
        match event {
            SessionEvent::Disconnected => SessionState::Closed,
            SessionEvent::ClientForwarded => match self {
                SessionState::Idle => SessionState::AwaitingAgentResponse,
                other => other,
            },
            SessionEvent::AgentForwarded => match self {
                SessionState::AwaitingAgentResponse => SessionState::Idle,
                other => other,
            },
        }
    }
}

/// One session's key-to-comment table.
pub struct Session {
    comments: Vec<(KeyBlob, String)>,
}

/// The map an association list denotes; a later entry overwrites an
/// earlier one with the same key.
pub open spec fn assoc_map(s: Seq<(KeyBlob, String)>) -> Map<KeyBlobView, Seq<char>>
    decreases s.len(),
{
    if s.len() == 0 {
        Map::empty()
    } else {
        assoc_map(s.drop_last()).insert(s.last().0@, s.last().1@)
    }
}

impl View for Session {
    type V = Map<KeyBlobView, Seq<char>>;

    closed spec fn view(&self) -> Map<KeyBlobView, Seq<char>> {
        assoc_map(self.comments@)
    }
}

impl Session {
    /// Every stored key is well-formed and no two entries share a key.
    pub closed spec fn wf(&self) -> bool {
        &&& forall|i: int|
            0 <= i < self.comments@.len() ==> (#[trigger] self.comments@[i]).0.wf()
        &&& forall|i: int, j: int|
            0 <= i < j < self.comments@.len() ==> self.comments@[i].0@ != self.comments@[j].0@
    }

    pub fn new() -> (s: Session)
        ensures
            s.wf(),
            s@ == Map::<KeyBlobView, Seq<char>>::empty(),
    {
        Session { comments: Vec::new() }
    }

    /// The comment recorded for a key, if one was seen.
    pub fn lookup(&self, key: &KeyBlob) -> (r: Option<String>)
        requires
            self.wf(),
            key.wf(),
        ensures
            match r {
                Some(c) => self@.contains_key(key@) && c@ == self@[key@],
                None => !self@.contains_key(key@),
            },
    {
        let n = self.comments.len();
        let mut i: usize = 0;
        while i < n
            invariant
                self.wf(),
                key.wf(),
                i <= n,
                n == self.comments@.len(),
                forall|k: int| 0 <= k < i ==> (#[trigger] self.comments@[k]).0@ != key@,
            decreases n - i,
        {
            let hit = self.comments[i].0 == *key;
            proof {
                lemma_key_eq_is_view_eq(&self.comments@[i as int].0, key);
            }
            if hit {
                proof {
                    lemma_assoc_value(self.comments@, key@, i as int);
                }
                return Some(self.comments[i].1.clone());
            }
            i = i + 1;
        }
        proof {
            lemma_assoc_contains(self.comments@, key@);
        }
        None
    }

    /// Record a comment for a key, overwriting any earlier one.
    pub fn insert(&mut self, key: KeyBlob, comment: String)
        requires
            old(self).wf(),
            key.wf(),
        ensures
            final(self).wf(),
            final(self)@ == old(self)@.insert(key@, comment@),
    {
        let n = self.comments.len();
        let mut i: usize = 0;
        while i < n
            invariant
                self.wf(),
                key.wf(),
                i <= n,
                n == self.comments@.len(),
                *self == *old(self),
                forall|k: int| 0 <= k < i ==> (#[trigger] self.comments@[k]).0@ != key@,
            decreases n - i,
        {
            let hit = self.comments[i].0 == key;
            proof {
                lemma_key_eq_is_view_eq(&self.comments@[i as int].0, &key);
            }
            if hit {
                proof {
                    lemma_assoc_update(self.comments@, key@, comment@, i as int);
                }
                self.comments.set(i, (key, comment));
                return ;
            }
            i = i + 1;
        }
        self.comments.push((key, comment));
        proof {
            assert(self.comments@.drop_last() =~= old(self).comments@);
        }
    }
}

/// The table after recording a run of identities, first to last.
pub open spec fn insert_all(
    m: Map<KeyBlobView, Seq<char>>,
    ids: Seq<IdentityView>,
) -> Map<KeyBlobView, Seq<char>>
    decreases ids.len(),
{
    if ids.len() == 0 {
        m
    } else {
        insert_all(m.insert(ids[0].key, ids[0].comment), ids.skip(1))
    }
}

impl Session {
    /// Observe one record on the agent-to-client direction, after it was
    /// forwarded: an identities answer records the comment of every listed
    /// key, overwriting; every other record, and any record that does not
    /// decode, leaves the table unchanged.
    pub fn observe_agent(&mut self, record: &[u8])
        requires
            old(self).wf(),
        ensures
            final(self).wf(),
            final(self)@ == match Message::spec_unpack(record@) {
                Ok(p) => match p.0 {
                    MessageView::IdentitiesAnswer(ids) => insert_all(old(self)@, ids),
                    _ => old(self)@,
                },
                Err(e) => old(self)@,
            },
    {
        match Message::decode(record) {
            Ok(m) => match m {
                Message::IdentitiesAnswer(mut ids) => {
                    let ghost full = crate::message::idents_view(ids@);
                    while ids.len() > 0
                        invariant
                            self.wf(),
                            forall|j: int| 0 <= j < ids@.len() ==> (#[trigger] ids@[j]).wf(),
                            insert_all(old(self)@, full) == insert_all(
                                self@,
                                crate::message::idents_view(ids@),
                            ),
                        decreases ids@.len(),
                    {
                        let ghost before = ids@;
                        let id = ids.remove(0);
                        proof {
                            assert(ids@ =~= before.skip(1));
                            assert(crate::message::idents_view(before).skip(1)
                                =~= crate::message::idents_view(ids@));
                            assert(crate::message::idents_view(before)[0] == id@);
                        }
                        self.insert(id.key, id.comment);
                    }
                    proof {
                        assert(crate::message::idents_view(ids@) =~= Seq::<IdentityView>::empty());
                    }
                },
                _ => (),
            },
            Err(_) => (),
        }
    }

    /// Observe one record on the client-to-agent direction, after it was
    /// forwarded: a sign request yields what the notification shows — the
    /// recorded comment (or empty), the algorithm name, the key size in
    /// bits, and the canonical-encoding digest with its base64 rendering;
    /// every other record, and any record that does not decode, yields
    /// nothing.
    pub fn observe_client(&self, record: &[u8]) -> (r: Option<SignInfo>)
        requires
            self.wf(),
        ensures
            match Message::spec_unpack(record@) {
                Ok(p) => match p.0 {
                    MessageView::SignRequest { key, data, flags } => {
                        &&& r matches Some(info) && info.comment@ == (if self@.contains_key(key) {
                            self@[key]
                        } else {
                            Seq::<char>::empty()
                        })
                        &&& r matches Some(info) && info.algo@ == spec_algo_name_of(key)
                        &&& r matches Some(info) && info.bits == spec_bits_of(key)
                        &&& r matches Some(info) && info.digest@ == sha256_of(
                            spec_key_encoding(key),
                        )
                        &&& r matches Some(info) && info.fingerprint@ == base64_nopad_of(
                            sha256_of(spec_key_encoding(key)),
                        )
                    },
                    _ => r is None,
                },
                Err(e) => r is None,
            },
    {
        match Message::decode(record) {
            Ok(m) => match m {
                Message::SignRequest { key, data, flags } => {
                    let comment = match self.lookup(&key) {
                        Some(c) => c,
                        None => String::new(),
                    };
                    let algo = key.algo_name();
                    let bits = key.bits();
                    let digest = key.digest();
                    let fingerprint = crate::fingerprint::base64_nopad(digest.as_slice());
                    Some(SignInfo { comment, algo, bits, digest, fingerprint })
                },
                _ => None,
            },
            Err(_) => None,
        }
    }
}

/// An association list holds a key exactly when some entry carries it.
proof fn lemma_assoc_contains(s: Seq<(KeyBlob, String)>, k: KeyBlobView)
    ensures
        assoc_map(s).contains_key(k) <==> exists|i: int| 0 <= i < s.len() && s[i].0@ == k,
    decreases s.len(),
{
    if s.len() > 0 {
        lemma_assoc_contains(s.drop_last(), k);
        if assoc_map(s).contains_key(k) {
            if s.last().0@ != k {
                let i = choose|i: int| 0 <= i < s.len() - 1 && s.drop_last()[i].0@ == k;
                assert(s[i].0@ == k);
            } else {
                assert(s[s.len() - 1].0@ == k);
            }
        } else {
            assert(!(exists|i: int| 0 <= i < s.len() && s[i].0@ == k)) by {
                if exists|i: int| 0 <= i < s.len() && s[i].0@ == k {
                    let i = choose|i: int| 0 <= i < s.len() && s[i].0@ == k;
                    if i < s.len() - 1 {
                        assert(s.drop_last()[i] == s[i]);
                        assert(assoc_map(s.drop_last()).contains_key(k));
                    }
                    assert(assoc_map(s).contains_key(k));
                    assert(false);
                }
            }
        }
    }
}

/// With distinct keys, the entry that carries a key gives its value.
proof fn lemma_assoc_value(s: Seq<(KeyBlob, String)>, k: KeyBlobView, i: int)
    requires
        forall|a: int, b: int| 0 <= a < b < s.len() ==> s[a].0@ != s[b].0@,
        0 <= i < s.len(),
        s[i].0@ == k,
    ensures
        assoc_map(s).contains_key(k),
        assoc_map(s)[k] == s[i].1@,
    decreases s.len(),
{
    if i == s.len() - 1 {
    } else {
        assert(s.last().0@ != k);
        assert(s.drop_last()[i] == s[i]);
        lemma_assoc_value(s.drop_last(), k, i);
    }
}

/// Overwriting the entry that carries a key is the map's `insert`.
proof fn lemma_assoc_update(s: Seq<(KeyBlob, String)>, k: KeyBlobView, c: Seq<char>, i: int)
    ensures
        forall|key: KeyBlob, comment: String|
            (0 <= i < s.len() && s[i].0@ == k && key@ == k && comment@ == c && (forall|
                a: int,
                b: int,
            | 0 <= a < b < s.len() ==> s[a].0@ != s[b].0@)) ==> assoc_map(
                #[trigger] s.update(i, (key, comment)),
            ) == assoc_map(s).insert(k, c),
    decreases s.len(),
{
    assert forall|key: KeyBlob, comment: String|
        (0 <= i < s.len() && s[i].0@ == k && key@ == k && comment@ == c && (forall|a: int, b: int|
            0 <= a < b < s.len() ==> s[a].0@ != s[b].0@)) implies assoc_map(
        #[trigger] s.update(i, (key, comment)),
    ) == assoc_map(s).insert(k, c) by {
        lemma_assoc_update_one(s, k, c, i, key, comment);
    }
}

proof fn lemma_assoc_update_one(
    s: Seq<(KeyBlob, String)>,
    k: KeyBlobView,
    c: Seq<char>,
    i: int,
    key: KeyBlob,
    comment: String,
)
    requires
        0 <= i < s.len(),
        s[i].0@ == k,
        key@ == k,
        comment@ == c,
        forall|a: int, b: int| 0 <= a < b < s.len() ==> s[a].0@ != s[b].0@,
    ensures
        assoc_map(s.update(i, (key, comment))) == assoc_map(s).insert(k, c),
    decreases s.len(),
{
    let s2 = s.update(i, (key, comment));
    if i == s.len() - 1 {
        assert(s2.drop_last() =~= s.drop_last());
        assert(assoc_map(s2) == assoc_map(s.drop_last()).insert(k, c));
        assert(assoc_map(s.drop_last()).insert(s.last().0@, s.last().1@).insert(k, c) =~= assoc_map(
            s.drop_last(),
        ).insert(k, c));
    } else {
        assert(s2.drop_last() =~= s.drop_last().update(i, (key, comment)));
        assert(s2.last() == s.last());
        assert(s.drop_last()[i] == s[i]);
        lemma_assoc_update_one(s.drop_last(), k, c, i, key, comment);
        assert(s.last().0@ != k);
        assert(assoc_map(s.drop_last()).insert(k, c).insert(s.last().0@, s.last().1@) =~= assoc_map(
            s.drop_last(),
        ).insert(s.last().0@, s.last().1@).insert(k, c));
    }
}

} // verus!
