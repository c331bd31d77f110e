//! The broadcast-store workload: `Broadcast` appends a value to the
//! node's log, `Read` returns the whole log in insertion order,
//! `Topology` records the cluster layout, and anything else earns an
//! `Error` reply.

use vstd::prelude::*;

use crate::NOT_SUPPORTED;
use crate::codec::PayloadCodec;
use crate::codec::digits;
use crate::codec::is_digit;
use crate::codec::lemma_digits_are_digits;
use crate::codec::parse_number;
use crate::codec::parse_string;
use crate::codec::parse_strlist;
use crate::codec::push_digits;
use crate::codec::push_lit;
use crate::codec::push_quoted;
use crate::codec::push_strlist;
use crate::codec::quoted;
use crate::codec::strlist;
use crate::envelope::Message;
use crate::node::Workload;

verus! {

/// One entry of a cluster layout: a node and its neighbours, kept as an
/// ordered sequence of pairs.
pub struct TopologyEntry {
    pub node: String,
    pub neighbors: Vec<String>,
}

/// The mathematical shape of a layout entry.
#[verifier::ext_equal]
pub struct TopologyEntryView {
    pub node: Seq<char>,
    pub neighbors: Seq<Seq<char>>,
}

impl View for TopologyEntry {
    type V = TopologyEntryView;

    open spec fn view(&self) -> TopologyEntryView {
        TopologyEntryView { node: self.node@, neighbors: self.neighbors.deep_view() }
    }
}

impl DeepView for TopologyEntry {
    type V = TopologyEntryView;

    open spec fn deep_view(&self) -> TopologyEntryView {
        self.view()
    }
}

/// The closed set of payload variants the broadcast handler speaks.
pub enum BroadcastPayload {
    Broadcast { message: usize },
    BroadcastOk,
    Read,
    ReadOk { messages: Vec<usize> },
    Topology { topology: Vec<TopologyEntry> },
    TopologyOk,
    Error { code: usize, text: String },
}

/// The mathematical shape of a broadcast payload.
#[verifier::ext_equal]
pub enum BroadcastPayloadView {
    Broadcast { message: usize },
    BroadcastOk,
    Read,
    ReadOk { messages: Seq<usize> },
    Topology { topology: Seq<TopologyEntryView> },
    TopologyOk,
    Error { code: usize, text: Seq<char> },
}

impl View for BroadcastPayload {
    type V = BroadcastPayloadView;

    open spec fn view(&self) -> BroadcastPayloadView {
        match self {
            BroadcastPayload::Broadcast { message } => BroadcastPayloadView::Broadcast {
                message: *message,
            },
            BroadcastPayload::BroadcastOk => BroadcastPayloadView::BroadcastOk,
            BroadcastPayload::Read => BroadcastPayloadView::Read,
            BroadcastPayload::ReadOk { messages } => BroadcastPayloadView::ReadOk {
                messages: messages@,
            },
            BroadcastPayload::Topology { topology } => BroadcastPayloadView::Topology {
                topology: topology.deep_view(),
            },
            BroadcastPayload::TopologyOk => BroadcastPayloadView::TopologyOk,
            BroadcastPayload::Error { code, text } => BroadcastPayloadView::Error {
                code: *code,
                text: text@,
            },
        }
    }
}

/// The broadcast handler's private state: the log of received values in
/// insertion order, and the last recorded cluster layout.
pub struct BroadcastNode {
    pub messages: Vec<usize>,
    pub topology: Vec<TopologyEntry>,
}

impl Workload for BroadcastNode {
    type Payload = BroadcastPayload;

    open spec fn init_ok(state: Self) -> bool {
        state.messages@ == Seq::<usize>::empty() && state.topology@
            == Seq::<TopologyEntry>::empty()
    }

    open spec fn handles(
        pre: Self,
        input: BroadcastPayload,
        post: Self,
        out: BroadcastPayload,
    ) -> bool {
        match input@ {
            BroadcastPayloadView::Broadcast { message } => {
                &&& post.messages@ == pre.messages@.push(message)
                &&& post.topology@ == pre.topology@
                &&& out@ is BroadcastOk
            },
            BroadcastPayloadView::Read => {
                &&& post == pre
                &&& out@ matches BroadcastPayloadView::ReadOk { messages } && messages
                    == pre.messages@
            },
            BroadcastPayloadView::Topology { topology } => {
                &&& post.messages@ == pre.messages@
                &&& post.topology.deep_view() == topology
                &&& out@ is TopologyOk
            },
            _ => {
                &&& post == pre
                &&& out@ matches BroadcastPayloadView::Error { code, text } && code
                    == NOT_SUPPORTED && text == "Not supported message."@
            },
        }
    }

    fn init() -> (r: Self) {
        BroadcastNode { messages: Vec::new(), topology: Vec::new() }
    }

    fn handle_message(&mut self, input: &Message<BroadcastPayload>) -> (r: BroadcastPayload) {
        match &input.body.payload {
            BroadcastPayload::Broadcast { message } => {
                self.messages.push(*message);
                BroadcastPayload::BroadcastOk
            },
            BroadcastPayload::Read => {
                let log = self.messages.clone();
                proof {
                    assert(log@ =~= self.messages@);
                }
                BroadcastPayload::ReadOk { messages: log }
            },
            BroadcastPayload::Topology { topology } => {
                self.topology = clone_topology(topology);
                BroadcastPayload::TopologyOk
            },
            _ => BroadcastPayload::Error {
                code: NOT_SUPPORTED,
                text: "Not supported message.".to_owned(),
            },
        }
    }
}

/// Copies a layout entry by entry; the copy carries the same data.
fn clone_topology(t: &Vec<TopologyEntry>) -> (r: Vec<TopologyEntry>)
    ensures
        r.deep_view() == t.deep_view(),
{
    let mut r: Vec<TopologyEntry> = Vec::new();
    let mut i: usize = 0;
    while i < t.len()
        invariant
            i <= t.len(),
            r@.len() == i,
            forall|j: int|
                0 <= j < i ==> (#[trigger] r@[j]).node@ == t@[j].node@
                    && r@[j].neighbors.deep_view() == t@[j].neighbors.deep_view(),
        decreases t.len() - i,
    {
        let entry = TopologyEntry {
            node: t[i].node.clone(),
            neighbors: clone_names(&t[i].neighbors),
        };
        r.push(entry);
        proof {
            assert(r@[i as int].neighbors.deep_view() =~= t@[i as int].neighbors.deep_view());
        }
        i = i + 1;
    }
    proof {
        assert forall|j: int| 0 <= j < r@.len() implies r.deep_view()[j] == t.deep_view()[j] by {
            assert(r.deep_view()[j] == r@[j].deep_view());
            assert(t.deep_view()[j] == t@[j].deep_view());
            assert(r@[j].deep_view() =~= t@[j].deep_view());
        }
        assert(r.deep_view() =~= t.deep_view());
    }
    r
}

/// Copies a list of node names; the copy carries the same names in the
/// same order.
fn clone_names(v: &Vec<String>) -> (r: Vec<String>)
    ensures
        r@ == v@,
{
    let r = v.clone();
    proof {
        assert(r@ =~= v@);
    }
    r
}

/// The wire text of a list of numbers: decimal entries joined by
/// commas, without the surrounding brackets.
pub open spec fn numlist(l: Seq<usize>) -> Seq<char>
    decreases l.len(),
{
    if l.len() == 0 {
        Seq::empty()
    } else if l.len() == 1 {
        digits(l[0] as int)
    } else {
        digits(l[0] as int) + ","@ + numlist(l.drop_first())
    }
}

/// The wire text of one layout entry: the node name against the
/// bracketed list of its neighbours.
pub open spec fn topo_entry(e: TopologyEntryView) -> Seq<char> {
    quoted(e.node) + ":["@ + strlist(e.neighbors) + "]"@
}

/// The wire text of a layout: entries joined by commas, without the
/// surrounding braces.
pub open spec fn topolist(l: Seq<TopologyEntryView>) -> Seq<char>
    decreases l.len(),
{
    if l.len() == 0 {
        Seq::empty()
    } else if l.len() == 1 {
        topo_entry(l[0])
    } else {
        topo_entry(l[0]) + ","@ + topolist(l.drop_first())
    }
}

/// Appends the entries of `v` from index `i` on, in decimal, joined by
/// commas.
fn push_numlist(out: &mut Vec<char>, v: &Vec<usize>, i: usize)
    requires
        i <= v@.len(),
    ensures
        final(out)@ == old(out)@ + numlist(v@.skip(i as int)),
    decreases v@.len() - i,
{
    proof {
        reveal_strlit(",");
    }
    if i < v.len() {
        push_digits(out, v[i]);
        proof {
            assert(v@.skip(i as int)[0] == v@[i as int]);
        }
        if i + 1 < v.len() {
            push_lit(out, ",");
            push_numlist(out, v, i + 1);
            proof {
                assert(v@.skip(i as int).drop_first() =~= v@.skip(i as int + 1));
                assert(final(out)@ =~= old(out)@ + numlist(v@.skip(i as int)));
            }
        } else {
            proof {
                assert(v@.skip(i as int).len() == 1);
                assert(final(out)@ =~= old(out)@ + numlist(v@.skip(i as int)));
            }
        }
    } else {
        proof {
            assert(v@.skip(i as int) =~= Seq::<usize>::empty());
            assert(final(out)@ =~= old(out)@ + numlist(v@.skip(i as int)));
        }
    }
}

/// Appends the layout entries of `v` from index `i` on, joined by
/// commas.
fn push_topolist(out: &mut Vec<char>, v: &Vec<TopologyEntry>, i: usize)
    requires
        i <= v@.len(),
    ensures
        final(out)@ == old(out)@ + topolist(v.deep_view().skip(i as int)),
    decreases v@.len() - i,
{
    proof {
        reveal_strlit(",");
        reveal_strlit(":[");
        reveal_strlit("]");
    }
    if i < v.len() {
        push_quoted(out, v[i].node.as_str());
        push_lit(out, ":[");
        push_strlist(out, &v[i].neighbors, 0);
        push_lit(out, "]");
        proof {
            assert(v.deep_view().skip(i as int)[0] == v@[i as int].deep_view());
            assert(v@[i as int].neighbors.deep_view().skip(0) =~= v@[
                i as int
            ].neighbors.deep_view());
        }
        if i + 1 < v.len() {
            push_lit(out, ",");
            push_topolist(out, v, i + 1);
            proof {
                assert(v.deep_view().skip(i as int).drop_first() =~= v.deep_view().skip(
                    i as int + 1,
                ));
                assert(final(out)@ =~= old(out)@ + topolist(v.deep_view().skip(i as int)));
            }
        } else {
            proof {
                assert(v.deep_view().skip(i as int).len() == 1);
                assert(final(out)@ =~= old(out)@ + topolist(v.deep_view().skip(i as int)));
            }
        }
    } else {
        proof {
            assert(v.deep_view().skip(i as int) =~= Seq::<TopologyEntryView>::empty());
            assert(final(out)@ =~= old(out)@ + topolist(v.deep_view().skip(i as int)));
        }
    }
}

/// Reads back a comma-joined list of decimal numbers written by
/// `push_numlist`, appending the values to `acc`. The ghost arguments
/// name the list and what follows it, which begins with the closing
/// bracket.
#[verifier::rlimit(100)]
fn parse_numlist(
    cs: &Vec<char>,
    pos: usize,
    acc: &mut Vec<usize>,
    Ghost(l): Ghost<Seq<usize>>,
    Ghost(rest): Ghost<Seq<char>>,
) -> (r: usize)
    requires
        pos <= cs@.len(),
        cs@.subrange(pos as int, cs@.len() as int) == numlist(l) + rest,
        rest.len() > 0,
        rest[0] == ']',
    ensures
        final(acc)@ == old(acc)@ + l,
        r == pos + numlist(l).len(),
    decreases l.len(),
{
    let ghost t = numlist(l) + rest;
    let _cs_len: usize = cs.len();
    proof {
        reveal_strlit(",");
        assert(cs@.len() - pos == t.len());
        assert forall|i: int| pos <= i < cs@.len() implies cs@[i] == t[i - pos] by {
            assert(cs@.subrange(pos as int, cs@.len() as int)[i - pos] == cs@[i]);
        }
        if l.len() > 0 {
            lemma_digits_are_digits(l[0] as int);
            assert(numlist(l)[0] == digits(l[0] as int)[0]);
            assert(is_digit(t[0]));
        } else {
            assert(t[0] == ']');
        }
        assert(cs@[pos as int] == t[0]);
        assert(!is_digit(']'));
    }
    let c0 = cs[pos];
    if c0 == ']' {
        proof {
            assert(l.len() == 0);
            assert(final(acc)@ =~= old(acc)@ + l);
        }
        pos
    } else {
        proof {
            assert(l.len() > 0);
            if l.len() == 1 {
                assert(cs@.subrange(pos as int, cs@.len() as int) =~= digits(l[0] as int) + rest);
            } else {
                assert(t =~= digits(l[0] as int) + (","@ + (numlist(l.drop_first()) + rest)));
                assert(cs@.subrange(pos as int, cs@.len() as int) =~= digits(l[0] as int) + (","@
                    + (numlist(l.drop_first()) + rest)));
                assert(!is_digit(','));
            }
        }
        let (n0, p1) = parse_number(
            cs,
            pos,
            Ghost(l[0] as int),
            Ghost(
                if l.len() == 1 {
                    rest
                } else {
                    ","@ + (numlist(l.drop_first()) + rest)
                },
            ),
        );
        proof {
            assert(cs@[p1 as int] == t[p1 - pos]);
            if l.len() == 1 {
                assert(t[p1 - pos] == rest[0]);
            } else {
                assert(t =~= digits(l[0] as int) + (","@ + (numlist(l.drop_first()) + rest)));
                assert(t[p1 - pos] == ',');
            }
        }
        let c1 = cs[p1];
        acc.push(n0);
        if c1 == ',' {
            proof {
                assert(l.len() > 1);
                assert(cs@.subrange(p1 as int + 1, cs@.len() as int) =~= numlist(l.drop_first())
                    + rest);
            }
            let r = parse_numlist(cs, p1 + 1, acc, Ghost(l.drop_first()), Ghost(rest));
            proof {
                assert(final(acc)@ =~= old(acc)@ + l);
            }
            r
        } else {
            proof {
                assert(l.len() == 1);
                assert(final(acc)@ =~= old(acc)@ + l);
            }
            p1
        }
    }
}

/// Reads back a comma-joined layout written by `push_topolist`,
/// appending the entries to `acc`. The ghost arguments name the layout
/// and what follows it, which begins with the closing brace.
#[verifier::rlimit(100)]
fn parse_topolist(
    cs: &Vec<char>,
    pos: usize,
    acc: &mut Vec<TopologyEntry>,
    Ghost(l): Ghost<Seq<TopologyEntryView>>,
    Ghost(rest): Ghost<Seq<char>>,
) -> (r: usize)
    requires
        pos <= cs@.len(),
        cs@.subrange(pos as int, cs@.len() as int) == topolist(l) + rest,
        rest.len() > 0,
        rest[0] == '}',
    ensures
        final(acc).deep_view() == old(acc).deep_view() + l,
        r == pos + topolist(l).len(),
    decreases l.len(),
{
    let ghost t = topolist(l) + rest;
    let _cs_len: usize = cs.len();
    proof {
        reveal_strlit(",");
        reveal_strlit(":[");
        reveal_strlit("]");
        assert(cs@.len() - pos == t.len());
        assert forall|i: int| pos <= i < cs@.len() implies cs@[i] == t[i - pos] by {
            assert(cs@.subrange(pos as int, cs@.len() as int)[i - pos] == cs@[i]);
        }
        if l.len() > 0 {
            assert(topolist(l)[0] == quoted(l[0].node)[0]);
            assert(t[0] == '"');
        } else {
            assert(t[0] == '}');
        }
        assert(cs@[pos as int] == t[0]);
    }
    let c0 = cs[pos];
    if c0 == '}' {
        proof {
            assert(l.len() == 0);
            assert(final(acc).deep_view() =~= old(acc).deep_view() + l);
        }
        pos
    } else {
        let ghost after_entry: Seq<char> = if l.len() == 1 {
            rest
        } else {
            ","@ + (topolist(l.drop_first()) + rest)
        };
        proof {
            assert(l.len() > 0);
            if l.len() == 1 {
                assert(t =~= topo_entry(l[0]) + after_entry);
            } else {
                assert(t =~= topo_entry(l[0]) + after_entry);
            }
            assert(t =~= quoted(l[0].node) + (":["@ + (strlist(l[0].neighbors) + ("]"@
                + after_entry))));
            assert(cs@.subrange(pos as int, cs@.len() as int) =~= quoted(l[0].node) + (":["@ + (
            strlist(l[0].neighbors) + ("]"@ + after_entry))));
        }
        let (name, p1) = parse_string(
            cs,
            pos,
            Ghost(l[0].node),
            Ghost(":["@ + (strlist(l[0].neighbors) + ("]"@ + after_entry))),
        );
        proof {
            assert(cs@.subrange(p1 as int + 2, cs@.len() as int) =~= strlist(l[0].neighbors) + (
            "]"@ + after_entry));
            assert(("]"@ + after_entry)[0] == ']');
        }
        let mut names: Vec<String> = Vec::new();
        let p2 = parse_strlist(cs, p1 + 2, &mut names, Ghost(l[0].neighbors), Ghost("]"@
            + after_entry));
        proof {
            assert(names.deep_view() =~= l[0].neighbors);
            assert(cs@[p2 as int + 1] == t[p2 + 1 - pos]);
            if l.len() == 1 {
                assert(t[p2 + 1 - pos] == rest[0]);
            } else {
                assert(t[p2 + 1 - pos] == ',');
            }
        }
        let entry = TopologyEntry { node: name, neighbors: names };
        proof {
            assert(entry.deep_view() =~= l[0]);
        }
        acc.push(entry);
        let c1 = cs[p2 + 1];
        if c1 == ',' {
            proof {
                assert(l.len() > 1);
                assert(cs@.subrange(p2 as int + 2, cs@.len() as int) =~= topolist(l.drop_first())
                    + rest);
            }
            let r = parse_topolist(cs, p2 + 2, acc, Ghost(l.drop_first()), Ghost(rest));
            proof {
                assert(final(acc).deep_view() =~= old(acc).deep_view() + l);
            }
            r
        } else {
            proof {
                assert(l.len() == 1);
                assert(final(acc).deep_view() =~= old(acc).deep_view() + l);
            }
            p2 + 1
        }
    }
}


impl PayloadCodec for BroadcastPayload {
    open spec fn encoded(v: BroadcastPayloadView) -> Seq<char> {
        match v {
            BroadcastPayloadView::Broadcast { message } => "\"type\":\"broadcast\",\"message\":"@
                + digits(message as int),
            BroadcastPayloadView::BroadcastOk => "\"type\":\"broadcast_ok\""@,
            BroadcastPayloadView::Read => "\"type\":\"read\""@,
            BroadcastPayloadView::ReadOk { messages } => "\"type\":\"read_ok\",\"messages\":["@
                + numlist(messages) + "]"@,
            BroadcastPayloadView::Topology { topology } => "\"type\":\"topology\",\"topology\":{"@
                + topolist(topology) + "}"@,
            BroadcastPayloadView::TopologyOk => "\"type\":\"topology_ok\""@,
            BroadcastPayloadView::Error { code, text } => "\"type\":\"error\",\"code\":"@ + digits(
                code as int,
            ) + ",\"text\":"@ + quoted(text),
        }
    }

    proof fn lemma_encoded_opens_with_type(v: BroadcastPayloadView) {
        reveal_strlit("\"type\":\"");
        reveal_strlit("\"type\":\"broadcast\",\"message\":");
        reveal_strlit("\"type\":\"broadcast_ok\"");
        reveal_strlit("\"type\":\"read\"");
        reveal_strlit("\"type\":\"read_ok\",\"messages\":[");
        reveal_strlit("\"type\":\"topology\",\"topology\":{");
        reveal_strlit("\"type\":\"topology_ok\"");
        reveal_strlit("\"type\":\"error\",\"code\":");
        match v {
            BroadcastPayloadView::Broadcast { message } => {
                assert(Self::encoded(v).take(8) =~= "\"type\":\""@);
            },
            BroadcastPayloadView::BroadcastOk => {
                assert(Self::encoded(v).take(8) =~= "\"type\":\""@);
            },
            BroadcastPayloadView::Read => {
                assert(Self::encoded(v).take(8) =~= "\"type\":\""@);
            },
            BroadcastPayloadView::ReadOk { messages } => {
                assert(Self::encoded(v).take(8) =~= "\"type\":\""@);
            },
            BroadcastPayloadView::Topology { topology } => {
                assert(Self::encoded(v).take(8) =~= "\"type\":\""@);
            },
            BroadcastPayloadView::TopologyOk => {
                assert(Self::encoded(v).take(8) =~= "\"type\":\""@);
            },
            BroadcastPayloadView::Error { code, text } => {
                assert(Self::encoded(v).take(8) =~= "\"type\":\""@);
            },
        }
    }

    fn encode_into(&self, out: &mut Vec<char>) {
        match self {
            BroadcastPayload::Broadcast { message } => {
                push_lit(out, "\"type\":\"broadcast\",\"message\":");
                push_digits(out, *message);
                proof {
                    assert(out@ =~= old(out)@ + Self::encoded(self@));
                }
            },
            BroadcastPayload::BroadcastOk => {
                push_lit(out, "\"type\":\"broadcast_ok\"");
                proof {
                    assert(out@ =~= old(out)@ + Self::encoded(self@));
                }
            },
            BroadcastPayload::Read => {
                push_lit(out, "\"type\":\"read\"");
                proof {
                    assert(out@ =~= old(out)@ + Self::encoded(self@));
                }
            },
            BroadcastPayload::ReadOk { messages } => {
                push_lit(out, "\"type\":\"read_ok\",\"messages\":[");
                push_numlist(out, messages, 0);
                push_lit(out, "]");
                proof {
                    assert(messages@.skip(0) =~= messages@);
                    assert(out@ =~= old(out)@ + Self::encoded(self@));
                }
            },
            BroadcastPayload::Topology { topology } => {
                push_lit(out, "\"type\":\"topology\",\"topology\":{");
                push_topolist(out, topology, 0);
                push_lit(out, "}");
                proof {
                    assert(topology.deep_view().skip(0) =~= topology.deep_view());
                    assert(out@ =~= old(out)@ + Self::encoded(self@));
                }
            },
            BroadcastPayload::TopologyOk => {
                push_lit(out, "\"type\":\"topology_ok\"");
                proof {
                    assert(out@ =~= old(out)@ + Self::encoded(self@));
                }
            },
            BroadcastPayload::Error { code, text } => {
                push_lit(out, "\"type\":\"error\",\"code\":");
                push_digits(out, *code);
                push_lit(out, ",\"text\":");
                push_quoted(out, text.as_str());
                proof {
                    assert(out@ =~= old(out)@ + Self::encoded(self@));
                }
            },
        }
    }

    #[verifier::rlimit(100)]
    fn decode_from(
        cs: &Vec<char>,
        pos: usize,
        Ghost(v): Ghost<BroadcastPayloadView>,
        Ghost(rest): Ghost<Seq<char>>,
    ) -> (r: (Self, usize)) {
        let ghost t = Self::encoded(v) + rest;
        let _cs_len: usize = cs.len();
        proof {
            reveal_strlit("\"type\":\"broadcast\",\"message\":");
            reveal_strlit("\"type\":\"broadcast_ok\"");
            reveal_strlit("\"type\":\"read\"");
            reveal_strlit("\"type\":\"read_ok\",\"messages\":[");
            reveal_strlit("\"type\":\"topology\",\"topology\":{");
            reveal_strlit("\"type\":\"topology_ok\"");
            reveal_strlit("\"type\":\"error\",\"code\":");
            reveal_strlit(",\"text\":");
            reveal_strlit("]");
            reveal_strlit("}");
            assert(cs@.len() - pos == t.len());
            assert(Self::encoded(v).len() >= 13);
            assert forall|i: int| pos <= i < cs@.len() implies cs@[i] == t[i - pos] by {
                assert(cs@.subrange(pos as int, cs@.len() as int)[i - pos] == cs@[i]);
            }
            assert(cs@[pos as int + 8] == t[8]);
        }
        let c8 = cs[pos + 8];
        if c8 == 'e' {
            proof {
                assert(v is Error);
                lemma_digits_are_digits(v->Error_code as int);
                assert(quoted(v->Error_text).len() >= 2);
                assert(Self::encoded(v).len() == 22 + digits(v->Error_code as int).len() + 8
                    + quoted(v->Error_text).len());
                assert(t =~= "\"type\":\"error\",\"code\":"@ + (digits(v->Error_code as int) + (
                ",\"text\":"@ + (quoted(v->Error_text) + rest))));
                assert(cs@.subrange(pos as int + 22, cs@.len() as int) =~= digits(
                    v->Error_code as int,
                ) + (",\"text\":"@ + (quoted(v->Error_text) + rest)));
                assert(!is_digit(','));
            }
            let (code, p1) = parse_number(
                cs,
                pos + 22,
                Ghost(v->Error_code as int),
                Ghost(",\"text\":"@ + (quoted(v->Error_text) + rest)),
            );
            proof {
                assert(cs@.subrange(p1 as int + 8, cs@.len() as int) =~= quoted(v->Error_text)
                    + rest);
            }
            let (text, p2) = parse_string(cs, p1 + 8, Ghost(v->Error_text), Ghost(rest));
            (BroadcastPayload::Error { code, text }, p2)
        } else if c8 == 'b' {
            proof {
                assert(v is Broadcast || v is BroadcastOk);
                assert(cs@[pos as int + 17] == t[17]);
            }
            let c17 = cs[pos + 17];
            if c17 == '_' {
                proof {
                    assert(v is BroadcastOk);
                    assert(Self::encoded(v).len() == 21);
                }
                (BroadcastPayload::BroadcastOk, pos + 21)
            } else {
                proof {
                    assert(v is Broadcast);
                    assert(t =~= "\"type\":\"broadcast\",\"message\":"@ + (digits(
                        v->Broadcast_message as int,
                    ) + rest));
                    assert(cs@.subrange(pos as int + 29, cs@.len() as int) =~= digits(
                        v->Broadcast_message as int,
                    ) + rest);
                    assert(!is_digit('}'));
                }
                let (message, p1) = parse_number(
                    cs,
                    pos + 29,
                    Ghost(v->Broadcast_message as int),
                    Ghost(rest),
                );
                (BroadcastPayload::Broadcast { message }, p1)
            }
        } else if c8 == 'r' {
            proof {
                assert(v is Read || v is ReadOk);
                assert(cs@[pos as int + 12] == t[12]);
            }
            let c12 = cs[pos + 12];
            if c12 == '_' {
                proof {
                    assert(v is ReadOk);
                    assert(t =~= "\"type\":\"read_ok\",\"messages\":["@ + (numlist(
                        v->ReadOk_messages,
                    ) + ("]"@ + rest)));
                    assert(cs@.subrange(pos as int + 29, cs@.len() as int) =~= numlist(
                        v->ReadOk_messages,
                    ) + ("]"@ + rest));
                    assert(("]"@ + rest)[0] == ']');
                }
                let mut messages: Vec<usize> = Vec::new();
                let p1 = parse_numlist(
                    cs,
                    pos + 29,
                    &mut messages,
                    Ghost(v->ReadOk_messages),
                    Ghost("]"@ + rest),
                );
                proof {
                    assert(messages@ =~= v->ReadOk_messages);
                    assert(Self::encoded(v).len() == 29 + numlist(v->ReadOk_messages).len() + 1);
                }
                (BroadcastPayload::ReadOk { messages }, p1 + 1)
            } else {
                proof {
                    assert(v is Read);
                    assert(Self::encoded(v).len() == 13);
                }
                (BroadcastPayload::Read, pos + 13)
            }
        } else {
            proof {
                assert(v is Topology || v is TopologyOk);
                assert(cs@[pos as int + 16] == t[16]);
            }
            let c16 = cs[pos + 16];
            if c16 == '_' {
                proof {
                    assert(v is TopologyOk);
                    assert(Self::encoded(v).len() == 20);
                }
                (BroadcastPayload::TopologyOk, pos + 20)
            } else {
                proof {
                    assert(v is Topology);
                    assert(t =~= "\"type\":\"topology\",\"topology\":{"@ + (topolist(
                        v->Topology_topology,
                    ) + ("}"@ + rest)));
                    assert(cs@.subrange(pos as int + 30, cs@.len() as int) =~= topolist(
                        v->Topology_topology,
                    ) + ("}"@ + rest));
                    assert(("}"@ + rest)[0] == '}');
                }
                let mut topology: Vec<TopologyEntry> = Vec::new();
                let p1 = parse_topolist(
                    cs,
                    pos + 30,
                    &mut topology,
                    Ghost(v->Topology_topology),
                    Ghost("}"@ + rest),
                );
                proof {
                    assert(topology.deep_view() =~= v->Topology_topology);
                    assert(Self::encoded(v).len() == 30 + topolist(v->Topology_topology).len()
                        + 1);
                }
                (BroadcastPayload::Topology { topology }, p1 + 1)
            }
        }
    }
}

} // verus!
