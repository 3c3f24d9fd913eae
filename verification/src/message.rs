//! The agent message model: a tagged union whose discriminant is one byte
//! and whose payload layout depends on the tag, with nested length-prefixed
//! blobs for keys. Unknown tags and unknown key algorithms are kept as
//! opaque bytes so that a proxy can stay transparent.

use vstd::prelude::*;

use crate::bytes::be_bytes;
use crate::error::Error;
use crate::mpint::{bytes_eq, lemma_value_determines_content, Mpint};
use crate::pack::{Pack, Packer};
use crate::unpack::{Unpack, Unpacker};

verus! {

/// Ask the agent for its identities.
pub const SSH_AGENTC_REQUEST_IDENTITIES: u8 = 11;

/// The agent's list of identities.
pub const SSH_AGENT_IDENTITIES_ANSWER: u8 = 12;

/// Ask the agent to sign data with one key.
pub const SSH_AGENTC_SIGN_REQUEST: u8 = 13;

/// The agent's signature.
pub const SSH_AGENT_SIGN_RESPONSE: u8 = 14;

/// A public key carried in a key blob: tagged by its leading algorithm
/// name, open-world via `Unknown`.
#[derive(Debug)]
pub enum KeyBlob {
    Rsa { e: Mpint, n: Mpint },
    Ed25519 { key: Vec<u8> },
    Unknown { algo: Vec<u8>, data: Vec<u8> },
}

/// One entry of an identities answer.
#[derive(Debug)]
pub struct Identity {
    pub key: KeyBlob,
    pub comment: String,
}

/// One agent message, decoded leniently: an unknown tag yields `Unknown`
/// with the payload kept verbatim.
#[derive(Debug)]
pub enum Message {
    RequestIdentities,
    IdentitiesAnswer(Vec<Identity>),
    SignRequest { key: KeyBlob, data: Vec<u8>, flags: u32 },
    SignResponse(Vec<u8>),
    Unknown { tag: u8, payload: Vec<u8> },
}

/// The mathematical shape of a key: its algorithm's fields as plain values.
pub enum KeyBlobView {
    Rsa { e: int, n: int },
    Ed25519 { key: Seq<u8> },
    Unknown { algo: Seq<u8>, data: Seq<u8> },
}

/// The mathematical shape of one identity.
pub struct IdentityView {
    pub key: KeyBlobView,
    pub comment: Seq<char>,
}

/// The mathematical shape of one message.
pub enum MessageView {
    RequestIdentities,
    IdentitiesAnswer(Seq<IdentityView>),
    SignRequest { key: KeyBlobView, data: Seq<u8>, flags: u32 },
    SignResponse(Seq<u8>),
    Unknown { tag: u8, payload: Seq<u8> },
}

impl View for KeyBlob {
    type V = KeyBlobView;

    open spec fn view(&self) -> KeyBlobView {
        match self {
            KeyBlob::Rsa { e, n } => KeyBlobView::Rsa { e: e@, n: n@ },
            KeyBlob::Ed25519 { key } => KeyBlobView::Ed25519 { key: key@ },
            KeyBlob::Unknown { algo, data } => KeyBlobView::Unknown { algo: algo@, data: data@ },
        }
    }
}

impl View for Identity {
    type V = IdentityView;

    open spec fn view(&self) -> IdentityView {
        IdentityView { key: self.key@, comment: self.comment@ }
    }
}

/// The views of a run of identities.
pub open spec fn idents_view(s: Seq<Identity>) -> Seq<IdentityView> {
    s.map_values(|x: Identity| x@)
}

impl View for Message {
    type V = MessageView;

    open spec fn view(&self) -> MessageView {
        match self {
            Message::RequestIdentities => MessageView::RequestIdentities,
            Message::IdentitiesAnswer(v) => MessageView::IdentitiesAnswer(idents_view(v@)),
            Message::SignRequest { key, data, flags } => MessageView::SignRequest {
                key: key@,
                data: data@,
                flags: *flags,
            },
            Message::SignResponse(sig) => MessageView::SignResponse(sig@),
            Message::Unknown { tag, payload } => MessageView::Unknown {
                tag: *tag,
                payload: payload@,
            },
        }
    }
}

/// The bytes of the algorithm name `"ssh-rsa"`.
pub open spec fn ssh_rsa_name() -> Seq<u8> {
    seq![115u8, 115u8, 104u8, 45u8, 114u8, 115u8, 97u8]
}

/// The bytes of the algorithm name `"ssh-ed25519"`.
pub open spec fn ssh_ed25519_name() -> Seq<u8> {
    seq![115u8, 115u8, 104u8, 45u8, 101u8, 100u8, 50u8, 53u8, 53u8, 49u8, 57u8]
}

/// The algorithm name `"ssh-rsa"`, as bytes.
pub fn ssh_rsa_bytes() -> (v: Vec<u8>)
    ensures
        v@ == ssh_rsa_name(),
{
    let mut v: Vec<u8> = Vec::new();
    v.push(115);
    v.push(115);
    v.push(104);
    v.push(45);
    v.push(114);
    v.push(115);
    v.push(97);
    proof {
        assert(v@ =~= ssh_rsa_name());
    }
    v
}

/// The algorithm name `"ssh-ed25519"`, as bytes.
pub fn ssh_ed25519_bytes() -> (v: Vec<u8>)
    ensures
        v@ == ssh_ed25519_name(),
{
    let mut v: Vec<u8> = Vec::new();
    v.push(115);
    v.push(115);
    v.push(104);
    v.push(45);
    v.push(101);
    v.push(100);
    v.push(50);
    v.push(53);
    v.push(53);
    v.push(49);
    v.push(57);
    proof {
        assert(v@ =~= ssh_ed25519_name());
    }
    v
}

impl KeyBlob {
    /// What decoding guarantees of a key: an ed25519 key is exactly 32
    /// bytes, and every field fits back onto the wire.
    pub open spec fn wf(&self) -> bool {
        match self {
            KeyBlob::Rsa { e, n } => {
                &&& e.wf() && e.spec_content().len() <= u32::MAX
                &&& n.wf() && n.spec_content().len() <= u32::MAX
                &&& e.spec_mag_len() <= u32::MAX && n.spec_mag_len() <= u32::MAX
            },
            KeyBlob::Ed25519 { key } => key@.len() == 32,
            KeyBlob::Unknown { algo, data } => algo@.len() <= u32::MAX,
        }
    }

    /// Decode one key blob from the cursor, with the facts a later
    /// canonical re-encoding needs.
    pub fn decode(u: &mut Unpacker) -> (r: Result<KeyBlob, Error>)
        requires
            old(u).wf(),
        ensures
            final(u).wf(),
            match KeyBlob::spec_unpack(old(u).remaining()) {
                Ok(p) => {
                    &&& r matches Ok(k) && k@ == p.0
                    &&& r matches Ok(k) && k.wf()
                    &&& 0 <= p.1 <= old(u).remaining().len()
                    &&& final(u).remaining() == old(u).remaining().skip(p.1)
                },
                Err(e) => r matches Err(e2) && e2 == e,
            },
    {
        let ghost pre = u.remaining();
        let algo = match u.unpack::<Vec<u8>>() {
            Ok(a) => a,
            Err(e) => {
                return Err(e);
            },
        };
        if bytes_eq(&algo, &ssh_rsa_bytes()) {
            let e = match Mpint::decode(u) {
                Ok(m) => m,
                Err(err) => {
                    return Err(err);
                },
            };
            let n = match Mpint::decode(u) {
                Ok(m) => m,
                Err(err) => {
                    return Err(err);
                },
            };
            proof {
                lemma_skip_skip_skip(pre);
            }
            Ok(KeyBlob::Rsa { e, n })
        } else if bytes_eq(&algo, &ssh_ed25519_bytes()) {
            let key = match u.unpack::<Vec<u8>>() {
                Ok(k) => k,
                Err(err) => {
                    return Err(err);
                },
            };
            if key.len() == 32 {
                proof {
                    lemma_skip_skip(pre);
                }
                Ok(KeyBlob::Ed25519 { key })
            } else {
                Err(Error::InvalidKeyLength)
            }
        } else {
            let data = u.take_rest();
            proof {
                assert(u.remaining() =~= pre.skip(pre.len() as int));
            }
            Ok(KeyBlob::Unknown { algo, data })
        }
    }
}

/// Composing two cursor advances is one advance by the sum.
proof fn lemma_skip_skip(pre: Seq<u8>)
    ensures
        forall|a: int, b: int|
            0 <= a && 0 <= b && a + b <= pre.len() ==> #[trigger] pre.skip(a).skip(b) == pre.skip(
                a + b,
            ),
{
    assert forall|a: int, b: int| 0 <= a && 0 <= b && a + b <= pre.len() implies #[trigger] pre
        .skip(a).skip(b) == pre.skip(a + b) by {
        assert(pre.skip(a).skip(b) =~= pre.skip(a + b));
    }
}

/// Composing three cursor advances is one advance by the sum.
proof fn lemma_skip_skip_skip(pre: Seq<u8>)
    ensures
        forall|a: int, b: int, c: int|
            0 <= a && 0 <= b && 0 <= c && a + b + c <= pre.len()
                ==> #[trigger] pre.skip(a).skip(b).skip(c) == pre.skip(a + b + c),
{
    lemma_skip_skip(pre);
    assert forall|a: int, b: int, c: int|
        0 <= a && 0 <= b && 0 <= c && a + b + c <= pre.len() implies #[trigger] pre.skip(a).skip(
        b,
    ).skip(c) == pre.skip(a + b + c) by {
        assert(pre.skip(a).skip(b) =~= pre.skip(a + b));
        assert(pre.skip(a + b).skip(c) =~= pre.skip(a + b + c));
    }
}

impl Unpack for KeyBlob {
    /// An algorithm name `string`, then that algorithm's fields; an unknown
    /// algorithm keeps the remaining bytes verbatim and consumes them all.
    open spec fn spec_unpack(data: Seq<u8>) -> Result<(KeyBlobView, int), Error> {
        match <Vec<u8>>::spec_unpack(data) {
            Ok(pa) => {
                if pa.0 == ssh_rsa_name() {
                    match Mpint::spec_unpack(data.skip(pa.1)) {
                        Ok(pe) => match Mpint::spec_unpack(data.skip(pa.1).skip(pe.1)) {
                            Ok(pn) => Ok(
                                (KeyBlobView::Rsa { e: pe.0, n: pn.0 }, pa.1 + pe.1 + pn.1),
                            ),
                            Err(e) => Err(e),
                        },
                        Err(e) => Err(e),
                    }
                } else if pa.0 == ssh_ed25519_name() {
                    match <Vec<u8>>::spec_unpack(data.skip(pa.1)) {
                        Ok(pk) => {
                            if pk.0.len() == 32 {
                                Ok((KeyBlobView::Ed25519 { key: pk.0 }, pa.1 + pk.1))
                            } else {
                                Err(Error::InvalidKeyLength)
                            }
                        },
                        Err(e) => Err(e),
                    }
                } else {
                    Ok(
                        (
                            KeyBlobView::Unknown { algo: pa.0, data: data.skip(pa.1) },
                            data.len() as int,
                        ),
                    )
                }
            },
            Err(e) => Err(e),
        }
    }

    fn unpack(u: &mut Unpacker) -> (r: Result<Self, Error>) {
        KeyBlob::decode(u)
    }
}

impl Identity {
    pub open spec fn wf(&self) -> bool {
        self.key.wf()
    }

    /// Decode one identity: a key blob `string` whose content is read as a
    /// `KeyBlob` in a nested cursor (which need not be fully consumed),
    /// then a text comment.
    pub fn decode(u: &mut Unpacker) -> (r: Result<Identity, Error>)
        requires
            old(u).wf(),
        ensures
            final(u).wf(),
            match Identity::spec_unpack(old(u).remaining()) {
                Ok(p) => {
                    &&& r matches Ok(id) && id@ == p.0
                    &&& r matches Ok(id) && id.wf()
                    &&& 0 <= p.1 <= old(u).remaining().len()
                    &&& final(u).remaining() == old(u).remaining().skip(p.1)
                },
                Err(e) => r matches Err(e2) && e2 == e,
            },
    {
        let ghost pre = u.remaining();
        let blob = match u.unpack::<Vec<u8>>() {
            Ok(b) => b,
            Err(e) => {
                return Err(e);
            },
        };
        let mut kb = Unpacker::new(blob.as_slice());
        let key = match KeyBlob::decode(&mut kb) {
            Ok(k) => k,
            Err(e) => {
                return Err(e);
            },
        };
        let comment = match u.unpack::<String>() {
            Ok(c) => c,
            Err(e) => {
                return Err(e);
            },
        };
        proof {
            lemma_skip_skip(pre);
        }
        Ok(Identity { key, comment })
    }
}

impl Unpack for Identity {
    /// A key blob `string` (its content a `KeyBlob`), then a text comment.
    open spec fn spec_unpack(data: Seq<u8>) -> Result<(IdentityView, int), Error> {
        match <Vec<u8>>::spec_unpack(data) {
            Ok(pb) => match KeyBlob::spec_unpack(pb.0) {
                Ok(pk) => match String::spec_unpack(data.skip(pb.1)) {
                    Ok(pc) => Ok(
                        (IdentityView { key: pk.0, comment: pc.0 }, pb.1 + pc.1),
                    ),
                    Err(e) => Err(e),
                },
                Err(e) => Err(e),
            },
            Err(e) => Err(e),
        }
    }

    fn unpack(u: &mut Unpacker) -> (r: Result<Self, Error>) {
        Identity::decode(u)
    }
}

/// What a run of `count` identities decodes to, and how many bytes it takes.
pub open spec fn spec_identities(data: Seq<u8>, count: int) -> Result<
    (Seq<IdentityView>, int),
    Error,
>
    decreases count,
{
    if count <= 0 {
        Ok((Seq::empty(), 0))
    } else {
        match Identity::spec_unpack(data) {
            Ok(pi) => match spec_identities(data.skip(pi.1), count - 1) {
                Ok(pr) => Ok((seq![pi.0] + pr.0, pi.1 + pr.1)),
                Err(e) => Err(e),
            },
            Err(e) => Err(e),
        }
    }
}

/// Decode `count` identities in sequence.
fn unpack_identities(u: &mut Unpacker, count: u32) -> (r: Result<Vec<Identity>, Error>)
    requires
        old(u).wf(),
    ensures
        final(u).wf(),
        match spec_identities(old(u).remaining(), count as int) {
            Ok(p) => {
                &&& r matches Ok(v) && idents_view(v@) == p.0
                &&& r matches Ok(v) && (forall|i: int| 0 <= i < v@.len() ==> (#[trigger] v@[i]).wf())
                &&& 0 <= p.1 <= old(u).remaining().len()
                &&& final(u).remaining() == old(u).remaining().skip(p.1)
            },
            Err(e) => r matches Err(e2) && e2 == e,
        },
    decreases count,
{
    if count == 0 {
        proof {
            assert(u.remaining() =~= u.remaining().skip(0));
            assert(idents_view(Seq::<Identity>::empty()) =~= Seq::<IdentityView>::empty());
        }
        Ok(Vec::new())
    } else {
        let ghost pre = u.remaining();
        match Identity::decode(u) {
            Ok(first) => {
                match unpack_identities(u, count - 1) {
                    Ok(mut rest) => {
                        rest.insert(0, first);
                        proof {
                            lemma_skip_skip(pre);
                            let pi = Identity::spec_unpack(pre)->Ok_0;
                            let pr = spec_identities(pre.skip(pi.1), count - 1)->Ok_0;
                            assert(idents_view(rest@) =~= seq![pi.0] + pr.0);
                        }
                        Ok(rest)
                    },
                    Err(e) => Err(e),
                }
            },
            Err(e) => Err(e),
        }
    }
}

/// What the payload of one record (a tag byte, then the tag's layout)
/// decodes to. A known tag must account for every payload byte; an unknown
/// tag never fails and keeps the rest verbatim.
pub open spec fn spec_message_payload(payload: Seq<u8>) -> Result<(MessageView, int), Error> {
    match u8::spec_unpack(payload) {
        Ok(pt) => {
            let tag = pt.0;
            let rest = payload.skip(1);
            if tag == SSH_AGENTC_REQUEST_IDENTITIES {
                if rest.len() == 0 {
                    Ok((MessageView::RequestIdentities, 1))
                } else {
                    Err(Error::TrailingData)
                }
            } else if tag == SSH_AGENT_IDENTITIES_ANSWER {
                match u32::spec_unpack(rest) {
                    Ok(pn) => match spec_identities(rest.skip(4), pn.0 as int) {
                        Ok(pi) => {
                            if pi.1 == rest.skip(4).len() {
                                Ok((MessageView::IdentitiesAnswer(pi.0), payload.len() as int))
                            } else {
                                Err(Error::TrailingData)
                            }
                        },
                        Err(e) => Err(e),
                    },
                    Err(e) => Err(e),
                }
            } else if tag == SSH_AGENTC_SIGN_REQUEST {
                match <Vec<u8>>::spec_unpack(rest) {
                    Ok(pb) => match KeyBlob::spec_unpack(pb.0) {
                        Ok(pk) => match <Vec<u8>>::spec_unpack(rest.skip(pb.1)) {
                            Ok(pd) => match u32::spec_unpack(rest.skip(pb.1).skip(pd.1)) {
                                Ok(pf) => {
                                    if rest.skip(pb.1).skip(pd.1).skip(4).len() == 0 {
                                        Ok(
                                            (
                                                MessageView::SignRequest {
                                                    key: pk.0,
                                                    data: pd.0,
                                                    flags: pf.0,
                                                },
                                                payload.len() as int,
                                            ),
                                        )
                                    } else {
                                        Err(Error::TrailingData)
                                    }
                                },
                                Err(e) => Err(e),
                            },
                            Err(e) => Err(e),
                        },
                        Err(e) => Err(e),
                    },
                    Err(e) => Err(e),
                }
            } else if tag == SSH_AGENT_SIGN_RESPONSE {
                match <Vec<u8>>::spec_unpack(rest) {
                    Ok(ps) => {
                        if rest.skip(ps.1).len() == 0 {
                            Ok((MessageView::SignResponse(ps.0), payload.len() as int))
                        } else {
                            Err(Error::TrailingData)
                        }
                    },
                    Err(e) => Err(e),
                }
            } else {
                Ok((MessageView::Unknown { tag, payload: rest }, payload.len() as int))
            }
        },
        Err(e) => Err(e),
    }
}

impl Message {
    pub open spec fn wf(&self) -> bool {
        match self {
            Message::IdentitiesAnswer(v) => forall|i: int|
                0 <= i < v@.len() ==> (#[trigger] v@[i]).wf(),
            Message::SignRequest { key, data, flags } => key.wf(),
            _ => true,
        }
    }

    /// Decode the payload of one record.
    #[verifier::rlimit(60)]
    fn decode_payload(u: &mut Unpacker) -> (r: Result<Message, Error>)
        requires
            old(u).wf(),
        ensures
            final(u).wf(),
            match spec_message_payload(old(u).remaining()) {
                Ok(p) => r matches Ok(m) && m@ == p.0 && m.wf(),
                Err(e) => r matches Err(e2) && e2 == e,
            },
    {
        let ghost payload = u.remaining();
        let tag = match u.unpack::<u8>() {
            Ok(t) => t,
            Err(e) => {
                return Err(e);
            },
        };
        let ghost rest = payload.skip(1);
        if tag == SSH_AGENTC_REQUEST_IDENTITIES {
            if u.empty() {
                Ok(Message::RequestIdentities)
            } else {
                Err(Error::TrailingData)
            }
        } else if tag == SSH_AGENT_IDENTITIES_ANSWER {
            let count = match u.unpack::<u32>() {
                Ok(c) => c,
                Err(e) => {
                    return Err(e);
                },
            };
            let ids = match unpack_identities(u, count) {
                Ok(v) => v,
                Err(e) => {
                    return Err(e);
                },
            };
            if u.empty() {
                proof {
                    let pi = spec_identities(rest.skip(4), count as int)->Ok_0;
                    assert(rest.skip(4).skip(pi.1).len() == 0);
                    assert(pi.1 == rest.skip(4).len());
                }
                Ok(Message::IdentitiesAnswer(ids))
            } else {
                Err(Error::TrailingData)
            }
        } else if tag == SSH_AGENTC_SIGN_REQUEST {
            let blob = match u.unpack::<Vec<u8>>() {
                Ok(b) => b,
                Err(e) => {
                    return Err(e);
                },
            };
            let mut kb = Unpacker::new(blob.as_slice());
            let key = match KeyBlob::decode(&mut kb) {
                Ok(k) => k,
                Err(e) => {
                    return Err(e);
                },
            };
            let data = match u.unpack::<Vec<u8>>() {
                Ok(d) => d,
                Err(e) => {
                    return Err(e);
                },
            };
            let flags = match u.unpack::<u32>() {
                Ok(f) => f,
                Err(e) => {
                    return Err(e);
                },
            };
            if u.empty() {
                Ok(Message::SignRequest { key, data, flags })
            } else {
                Err(Error::TrailingData)
            }
        } else if tag == SSH_AGENT_SIGN_RESPONSE {
            let sig = match u.unpack::<Vec<u8>>() {
                Ok(s) => s,
                Err(e) => {
                    return Err(e);
                },
            };
            if u.empty() {
                Ok(Message::SignResponse(sig))
            } else {
                Err(Error::TrailingData)
            }
        } else {
            let payload_rest = u.take_rest();
            Ok(Message::Unknown { tag, payload: payload_rest })
        }
    }

    /// Decode one framed record: a `uint32` length, then that many payload
    /// bytes holding the tag and the tag's layout. Lenient: an unknown tag
    /// decodes to `Unknown` rather than failing.
    pub fn decode(data: &[u8]) -> (r: Result<Message, Error>)
        ensures
            match Message::spec_unpack(data@) {
                Ok(p) => r matches Ok(m) && m@ == p.0 && m.wf(),
                Err(e) => r matches Err(e2) && e2 == e,
            },
    {
        let mut u = Unpacker::new(data);
        Message::decode_from(&mut u)
    }

    /// Decode one framed record from a cursor.
    pub fn decode_from(u: &mut Unpacker) -> (r: Result<Message, Error>)
        requires
            old(u).wf(),
        ensures
            final(u).wf(),
            match Message::spec_unpack(old(u).remaining()) {
                Ok(p) => {
                    &&& r matches Ok(m) && m@ == p.0
                    &&& r matches Ok(m) && m.wf()
                    &&& 0 <= p.1 <= old(u).remaining().len()
                    &&& final(u).remaining() == old(u).remaining().skip(p.1)
                },
                Err(e) => r matches Err(e2) && e2 == e,
            },
    {
        let record = match u.unpack::<Vec<u8>>() {
            Ok(b) => b,
            Err(e) => {
                return Err(e);
            },
        };
        let mut sub = Unpacker::new(record.as_slice());
        Message::decode_payload(&mut sub)
    }
}

impl Message {
    /// Strict mode: refuse a record whose tag lies outside the known set.
    /// The lenient decoders never fail on such a record; a caller that
    /// wants the failure opts in here.
    pub fn strict(self) -> (r: Result<Message, Error>)
        ensures
            match self@ {
                MessageView::Unknown { tag, payload } => r matches Err(e) && e
                    == Error::UnknownVariant,
                _ => r matches Ok(m) && m@ == self@,
            },
    {
        match self {
            Message::Unknown { tag, payload } => Err(Error::UnknownVariant),
            other => Ok(other),
        }
    }
}

impl Unpack for Message {
    /// A `uint32`-framed record whose payload is a tag byte and the tag's
    /// layout.
    open spec fn spec_unpack(data: Seq<u8>) -> Result<(MessageView, int), Error> {
        match <Vec<u8>>::spec_unpack(data) {
            Ok(pr) => match spec_message_payload(pr.0) {
                Ok(pm) => Ok((pm.0, pr.1)),
                Err(e) => Err(e),
            },
            Err(e) => Err(e),
        }
    }

    fn unpack(u: &mut Unpacker) -> (r: Result<Self, Error>) {
        Message::decode_from(u)
    }
}

impl Pack for &KeyBlob {
    /// The canonical re-encoding asks only that the key be well-formed.
    open spec fn packable(self) -> bool {
        self.wf()
    }

    /// The canonical encoding that fingerprints hash: the algorithm name as
    /// a `string`, then the algorithm's fields, each in canonical form.
    open spec fn spec_pack(self) -> Seq<u8> {
        match self {
            KeyBlob::Rsa { e, n } => be_bytes(7, 4) + ssh_rsa_name() + e.spec_pack()
                + n.spec_pack(),
            KeyBlob::Ed25519 { key } => be_bytes(11, 4) + ssh_ed25519_name() + be_bytes(32, 4)
                + key@,
            KeyBlob::Unknown { algo, data } => be_bytes(algo@.len(), 4) + algo@ + data@,
        }
    }

    fn pack(self, packer: &mut Packer) {
        match self {
            KeyBlob::Rsa { e, n } => {
                let name = ssh_rsa_bytes();
                packer.pack(name.as_slice());
                packer.pack(e);
                packer.pack(n);
                proof {
                    assert(packer@ =~= old(packer)@ + self.spec_pack());
                }
            },
            KeyBlob::Ed25519 { key } => {
                let name = ssh_ed25519_bytes();
                packer.pack(name.as_slice());
                packer.pack(key.as_slice());
                proof {
                    assert(packer@ =~= old(packer)@ + self.spec_pack());
                }
            },
            KeyBlob::Unknown { algo, data } => {
                packer.pack(algo.as_slice());
                packer.write_bytes(data.as_slice());
                proof {
                    assert(packer@ =~= old(packer)@ + self.spec_pack());
                }
            },
        }
    }
}

/// The canonical key encoding, written over the key's semantic fields
/// alone.
pub open spec fn spec_key_encoding(kv: KeyBlobView) -> Seq<u8> {
    match kv {
        KeyBlobView::Rsa { e, n } => be_bytes(7, 4) + ssh_rsa_name() + be_bytes(
            crate::mpint::spec_mpint_content(e).len(),
            4,
        ) + crate::mpint::spec_mpint_content(e) + be_bytes(
            crate::mpint::spec_mpint_content(n).len(),
            4,
        ) + crate::mpint::spec_mpint_content(n),
        KeyBlobView::Ed25519 { key } => be_bytes(11, 4) + ssh_ed25519_name() + be_bytes(
            key.len(),
            4,
        ) + key,
        KeyBlobView::Unknown { algo, data } => be_bytes(algo.len(), 4) + algo + data,
    }
}

/// A well-formed key's canonical re-encoding is exactly the encoding of
/// its semantic view.
pub proof fn lemma_pack_is_view_encoding(k: &KeyBlob)
    requires
        k.wf(),
    ensures
        k.spec_pack() == spec_key_encoding(k@),
{
    match k {
        KeyBlob::Rsa { e, n } => {
            crate::mpint::lemma_content_of_value(e);
            crate::mpint::lemma_content_of_value(n);
            assert(k.spec_pack() =~= spec_key_encoding(k@));
        },
        KeyBlob::Ed25519 { key } => {
            assert(k.spec_pack() =~= spec_key_encoding(k@));
        },
        KeyBlob::Unknown { algo, data } => {
            assert(k.spec_pack() =~= spec_key_encoding(k@));
        },
    }
}

/// The canonical re-encoding depends only on the semantic fields of the
/// key, never on the bytes it was parsed from.
pub proof fn lemma_pack_depends_on_view(a: &KeyBlob, b: &KeyBlob)
    requires
        a.wf(),
        b.wf(),
        a@ == b@,
    ensures
        a.spec_pack() == b.spec_pack(),
{
    match (a, b) {
        (KeyBlob::Rsa { e, n }, KeyBlob::Rsa { e: e2, n: n2 }) => {
            lemma_value_determines_content(e, e2);
            lemma_value_determines_content(n, n2);
        },
        _ => {},
    }
}

impl PartialEq for KeyBlob {
    /// Value equality over the decoded fields, not over raw wire bytes:
    /// an RSA key compares by the integers `e` and `n`.
    fn eq(&self, other: &Self) -> (r: bool) {
        match (self, other) {
            (KeyBlob::Rsa { e, n }, KeyBlob::Rsa { e: e2, n: n2 }) => e == e2 && n == n2,
            (KeyBlob::Ed25519 { key }, KeyBlob::Ed25519 { key: key2 }) => bytes_eq(key, key2),
            (KeyBlob::Unknown { algo, data }, KeyBlob::Unknown { algo: a2, data: d2 }) => {
                let ra = bytes_eq(algo, a2);
                let rd = bytes_eq(data, d2);
                ra && rd
            },
            _ => false,
        }
    }
}

impl KeyBlob {
    /// What `==` compares: the decoded fields, variant by variant.
    pub open spec fn spec_eq(&self, other: &KeyBlob) -> bool {
        match (self, other) {
            (KeyBlob::Rsa { e, n }, KeyBlob::Rsa { e: e2, n: n2 }) => e.spec_fields_eq(e2)
                && n.spec_fields_eq(n2),
            (KeyBlob::Ed25519 { key }, KeyBlob::Ed25519 { key: key2 }) => key@ == key2@,
            (KeyBlob::Unknown { algo, data }, KeyBlob::Unknown { algo: a2, data: d2 }) => algo@
                == a2@ && data@ == d2@,
            _ => false,
        }
    }
}

impl vstd::std_specs::cmp::PartialEqSpecImpl for KeyBlob {
    open spec fn obeys_eq_spec() -> bool {
        true
    }

    open spec fn eq_spec(&self, other: &KeyBlob) -> bool {
        self.spec_eq(other)
    }
}

/// On well-formed keys, `==` means equality of the semantic views; two
/// keys read from different `mpint` paddings of one RSA key compare equal.
pub proof fn lemma_key_eq_is_view_eq(a: &KeyBlob, b: &KeyBlob)
    requires
        a.wf(),
        b.wf(),
    ensures
        a.spec_eq(b) <==> a@ == b@,
{
    match (a, b) {
        (KeyBlob::Rsa { e, n }, KeyBlob::Rsa { e: e2, n: n2 }) => {
            crate::mpint::lemma_eq_is_value_eq(e, e2);
            crate::mpint::lemma_eq_is_value_eq(n, n2);
        },
        _ => {},
    }
}

/// A successful payload decode accounts for every payload byte: for known
/// tags by the trailing-data rule, for unknown tags by capturing the rest.
pub proof fn lemma_decode_consumes_all(payload: Seq<u8>)
    ensures
        spec_message_payload(payload) matches Ok(p) ==> p.1 == payload.len(),
{
}

/// A record with an unknown tag never fails to decode, and its payload
/// bytes are kept verbatim.
pub proof fn lemma_unknown_tag_lenient(payload: Seq<u8>)
    requires
        payload.len() >= 1,
        payload[0] != SSH_AGENTC_REQUEST_IDENTITIES,
        payload[0] != SSH_AGENT_IDENTITIES_ANSWER,
        payload[0] != SSH_AGENTC_SIGN_REQUEST,
        payload[0] != SSH_AGENT_SIGN_RESPONSE,
    ensures
        spec_message_payload(payload) == Ok::<(MessageView, int), Error>(
            (
                MessageView::Unknown { tag: payload[0], payload: payload.skip(1) },
                payload.len() as int,
            ),
        ),
{
}

} // verus!
