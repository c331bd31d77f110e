//! The generic node runtime: the one-time identity handshake, reply
//! construction with its correlation invariants, and the per-message
//! dispatch step that binds an abstract handler to the stream.
//!
//! The surrounding process owns the streams: it decodes one envelope at
//! a time, hands it to [`Node::step`], and writes the reply out before
//! reading the next envelope, so processing is strictly sequential.

use vstd::prelude::*;

use crate::codec::PayloadCodec;
use crate::codec::parse_string;
use crate::codec::parse_strlist;
use crate::codec::push_lit;
use crate::codec::push_quoted;
use crate::codec::push_strlist;
use crate::codec::quoted;
use crate::codec::strlist;
use crate::envelope::Body;
use crate::envelope::Message;

verus! {

/// The contract a concrete handler must satisfy: private state built by
/// `init`, and a pure transformation from incoming payload to outgoing
/// payload described by the `handles` relation.
pub trait Workload: Sized {
    /// The closed set of request/response variants this handler speaks.
    type Payload;

    /// Which states `init` may produce.
    spec fn init_ok(state: Self) -> bool;

    /// How a handler step relates the state before, the incoming
    /// payload, the state after, and the outgoing payload.
    spec fn handles(pre: Self, input: Self::Payload, post: Self, out: Self::Payload) -> bool;

    /// Constructs the handler's private state; called exactly once,
    /// after the handshake has completed.
    fn init() -> (r: Self)
        ensures
            Self::init_ok(r),
    ;

    /// Answers one incoming message with exactly one outgoing payload,
    /// reading and mutating only the handler's own state.
    fn handle_message(&mut self, input: &Message<Self::Payload>) -> (r: Self::Payload)
        ensures
            Self::handles(*old(self), input.body.payload, *final(self), r),
    ;
}

/// The handshake payload: the first message on the stream must carry
/// `Init`, and the runtime answers it with `InitOk`.
pub enum InitPayload {
    Init { node_id: String, node_ids: Vec<String> },
    InitOk,
}

/// The mathematical shape of a handshake payload.
#[verifier::ext_equal]
pub enum InitPayloadView {
    Init { node_id: Seq<char>, node_ids: Seq<Seq<char>> },
    InitOk,
}

impl View for InitPayload {
    type V = InitPayloadView;

    open spec fn view(&self) -> InitPayloadView {
        match self {
            InitPayload::Init { node_id, node_ids } => InitPayloadView::Init {
                node_id: node_id@,
                node_ids: node_ids.deep_view(),
            },
            InitPayload::InitOk => InitPayloadView::InitOk,
        }
    }
}

impl PayloadCodec for InitPayload {
    open spec fn encoded(v: InitPayloadView) -> Seq<char> {
        match v {
            InitPayloadView::Init { node_id, node_ids } => "\"type\":\"init\",\"node_id\":"@
                + quoted(node_id) + ",\"node_ids\":["@ + strlist(node_ids) + "]"@,
            InitPayloadView::InitOk => "\"type\":\"init_ok\""@,
        }
    }

    proof fn lemma_encoded_opens_with_type(v: InitPayloadView) {
        reveal_strlit("\"type\":\"");
        reveal_strlit("\"type\":\"init\",\"node_id\":");
        reveal_strlit("\"type\":\"init_ok\"");
        match v {
            InitPayloadView::Init { node_id, node_ids } => {
                assert(Self::encoded(v).take(8) =~= "\"type\":\""@);
            },
            InitPayloadView::InitOk => {
                assert(Self::encoded(v).take(8) =~= "\"type\":\""@);
            },
        }
    }

    fn encode_into(&self, out: &mut Vec<char>) {
        match self {
            InitPayload::Init { node_id, node_ids } => {
                push_lit(out, "\"type\":\"init\",\"node_id\":");
                push_quoted(out, node_id.as_str());
                push_lit(out, ",\"node_ids\":[");
                push_strlist(out, node_ids, 0);
                push_lit(out, "]");
                proof {
                    assert(node_ids.deep_view().skip(0) =~= node_ids.deep_view());
                    assert(out@ =~= old(out)@ + Self::encoded(self@));
                }
            },
            InitPayload::InitOk => {
                push_lit(out, "\"type\":\"init_ok\"");
                proof {
                    assert(out@ =~= old(out)@ + Self::encoded(self@));
                }
            },
        }
    }

    #[verifier::rlimit(100)]
    fn decode_from(
        cs: &Vec<char>,
        pos: usize,
        Ghost(v): Ghost<InitPayloadView>,
        Ghost(rest): Ghost<Seq<char>>,
    ) -> (r: (Self, usize)) {
        let ghost t = Self::encoded(v) + rest;
        let _cs_len: usize = cs.len();
        proof {
            reveal_strlit("\"type\":\"init\",\"node_id\":");
            reveal_strlit("\"type\":\"init_ok\"");
            reveal_strlit(",\"node_ids\":[");
            reveal_strlit("]");
            assert(cs@.len() - pos == t.len());
            assert(Self::encoded(v).len() >= 16);
            assert forall|i: int| pos <= i < cs@.len() implies cs@[i] == t[i - pos] by {
                assert(cs@.subrange(pos as int, cs@.len() as int)[i - pos] == cs@[i]);
            }
            assert(cs@[pos as int + 12] == t[12]);
        }
        let c12 = cs[pos + 12];
        if c12 == '_' {
            proof {
                assert(v is InitOk);
                assert(Self::encoded(v).len() == 16);
            }
            (InitPayload::InitOk, pos + 16)
        } else {
            proof {
                assert(v is Init);
                assert(quoted(v->Init_node_id).len() >= 2);
                assert(Self::encoded(v).len() == 24 + quoted(v->Init_node_id).len() + 13 + strlist(
                    v->Init_node_ids,
                ).len() + 1);
                assert(t =~= "\"type\":\"init\",\"node_id\":"@ + (quoted(v->Init_node_id) + (
                ",\"node_ids\":["@ + (strlist(v->Init_node_ids) + ("]"@ + rest)))));
                assert(cs@.subrange(pos as int + 24, cs@.len() as int) =~= quoted(v->Init_node_id)
                    + (",\"node_ids\":["@ + (strlist(v->Init_node_ids) + ("]"@ + rest))));
            }
            let (node_id, p1) = parse_string(
                cs,
                pos + 24,
                Ghost(v->Init_node_id),
                Ghost(",\"node_ids\":["@ + (strlist(v->Init_node_ids) + ("]"@ + rest))),
            );
            proof {
                assert(cs@.subrange(p1 as int + 13, cs@.len() as int) =~= strlist(v->Init_node_ids)
                    + ("]"@ + rest));
                assert(("]"@ + rest)[0] == ']');
            }
            let mut node_ids: Vec<String> = Vec::new();
            let p2 = parse_strlist(
                cs,
                p1 + 13,
                &mut node_ids,
                Ghost(v->Init_node_ids),
                Ghost("]"@ + rest),
            );
            proof {
                assert(node_ids.deep_view() =~= v->Init_node_ids);
            }
            (InitPayload::Init { node_id, node_ids }, p2 + 1)
        }
    }
}

/// The first message's payload was not the `Init` variant; a node with
/// no identity cannot address replies, so this is fatal by design.
#[derive(Clone, Copy, Debug)]
pub struct HandshakeError;

/// One running node: its identity, its peers, the outgoing message-id
/// counter, and the handler's private state.
pub struct Node<T: Workload> {
    /// This node's own identifier, fixed at handshake.
    pub id: String,
    /// All node identifiers in the cluster, in the order received.
    pub nodes: Vec<String>,
    msg_id: usize,
    specific: T,
    sent: Ghost<Seq<usize>>,
}

impl<T: Workload> Node<T> {
    /// The next message id the node will assign; equals the number of
    /// messages emitted so far.
    pub closed spec fn counter(self) -> usize {
        self.msg_id
    }

    /// The ids assigned to emitted messages, in emission order.
    pub closed spec fn sent_ids(self) -> Seq<usize> {
        self.sent@
    }

    /// The handler's private state.
    pub closed spec fn handler(self) -> T {
        self.specific
    }

    /// This node's identifier, as a character sequence.
    pub closed spec fn spec_id(self) -> Seq<char> {
        self.id@
    }

    /// The peer list, as received at handshake.
    pub closed spec fn peers(self) -> Seq<String> {
        self.nodes@
    }

    /// Well-formedness: the emission history is exactly `0, 1, …,
    /// counter - 1`, so the counter never skips and never repeats.
    pub closed spec fn wf(self) -> bool {
        &&& self.sent@.len() == self.msg_id
        &&& forall|i: int| 0 <= i < self.sent@.len() ==> self.sent@[i] as int == i
    }

    /// The next message id, readable by the surrounding process so it
    /// can refuse to run the counter past its machine limit.
    pub fn next_msg_id(&self) -> (r: usize)
        ensures
            r == self.counter(),
    {
        self.msg_id
    }

    /// Builds the reply to `input` carrying `payload`: addressed back to
    /// the sender, correlated through `in_reply_to`, stamped with the
    /// next counter value, which is consumed exactly once.
    pub fn reply<P, Q>(&mut self, input: &Message<P>, payload: Q) -> (r: Message<Q>)
        requires
            old(self).wf(),
            old(self).counter() < usize::MAX,
        ensures
            final(self).wf(),
            r.src@ == input.dst@,
            r.dst@ == input.src@,
            r.body.in_reply_to == input.body.msg_id,
            r.body.msg_id == Some(old(self).counter()),
            r.body.payload == payload,
            final(self).counter() == old(self).counter() + 1,
            final(self).sent_ids() == old(self).sent_ids().push(old(self).counter()),
            final(self).spec_id() == old(self).spec_id(),
            final(self).peers() == old(self).peers(),
            final(self).handler() == old(self).handler(),
    {
        let message = Message {
            src: input.dst.clone(),
            dst: input.src.clone(),
            body: Body { msg_id: Some(self.msg_id), in_reply_to: input.body.msg_id, payload },
        };
        proof {
            self.sent@ = self.sent@.push(self.msg_id);
        }
        self.msg_id = self.msg_id + 1;
        message
    }

    /// Performs the handshake on the first decoded message: on `Init`,
    /// yields the node with its identity and the correlated `InitOk`
    /// reply stamped with id 0; on any other payload, fails fatally.
    pub fn handshake(init: &Message<InitPayload>) -> (r: Result<
        (Node<T>, Message<InitPayload>),
        HandshakeError,
    >)
        ensures
            r is Ok <==> init.body.payload is Init,
            match r {
                Ok((node, rep)) => {
                    &&& node.wf()
                    &&& node.counter() == 1
                    &&& node.sent_ids() == seq![0usize]
                    &&& T::init_ok(node.handler())
                    &&& node.spec_id() == init.body.payload->Init_node_id@
                    &&& node.peers() == init.body.payload->Init_node_ids@
                    &&& rep.src@ == init.dst@
                    &&& rep.dst@ == init.src@
                    &&& rep.body.in_reply_to == init.body.msg_id
                    &&& rep.body.msg_id == Some(0usize)
                    &&& rep.body.payload is InitOk
                },
                Err(_) => true,
            },
    {
        match &init.body.payload {
            InitPayload::Init { node_id, node_ids } => {
                let mut node = Node {
                    id: node_id.clone(),
                    nodes: node_ids.clone(),
                    msg_id: 0,
                    specific: T::init(),
                    sent: Ghost(Seq::empty()),
                };
                proof {
                    assert(node.nodes@ =~= node_ids@);
                }
                let rep = node.reply(init, InitPayload::InitOk);
                proof {
                    assert(node.sent_ids() =~= seq![0usize]);
                }
                Ok((node, rep))
            },
            InitPayload::InitOk => Err(HandshakeError),
        }
    }

    /// One `Running`-state step: invokes the handler on `input` and
    /// emits the correlated reply with the next counter value.
    pub fn step(&mut self, input: &Message<T::Payload>) -> (r: Message<T::Payload>)
        requires
            old(self).wf(),
            old(self).counter() < usize::MAX,
        ensures
            final(self).wf(),
            r.src@ == input.dst@,
            r.dst@ == input.src@,
            r.body.in_reply_to == input.body.msg_id,
            r.body.msg_id == Some(old(self).counter()),
            final(self).counter() == old(self).counter() + 1,
            final(self).sent_ids() == old(self).sent_ids().push(old(self).counter()),
            final(self).spec_id() == old(self).spec_id(),
            final(self).peers() == old(self).peers(),
            T::handles(old(self).handler(), input.body.payload, final(self).handler(), r.body.payload),
    {
        let payload = self.specific.handle_message(input);
        self.reply(input, payload)
    }

}

/// Law: across one process lifetime, the ids assigned to emitted
/// messages (the handshake reply included) are `0, 1, 2, …` — strictly
/// increasing, pairwise distinct, and without gaps.
pub proof fn lemma_sent_ids_sequential<T: Workload>(node: Node<T>)
    requires
        node.wf(),
    ensures
        node.sent_ids().len() == node.counter(),
        forall|i: int| 0 <= i < node.sent_ids().len() ==> node.sent_ids()[i] as int == i,
        forall|i: int, j: int|
            0 <= i < j < node.sent_ids().len() ==> node.sent_ids()[i] < node.sent_ids()[j],
{
}


} // verus!
