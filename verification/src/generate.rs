//! The id-generation workload: answers every `Generate` request with a
//! `GenerateOk` carrying a freshly drawn identifier, and anything else
//! with an `Error` reply.

use vstd::prelude::*;

use crate::NOT_SUPPORTED;
use crate::codec::PayloadCodec;
use crate::codec::digits;
use crate::codec::is_digit;
use crate::codec::parse_number;
use crate::codec::parse_string;
use crate::codec::push_digits;
use crate::codec::push_lit;
use crate::codec::push_quoted;
use crate::codec::quoted;
use crate::envelope::Message;
use crate::node::Workload;

verus! {

/// The closed set of payload variants the id-generation handler speaks.
pub enum GeneratePayload {
    Generate,
    GenerateOk { id: String },
    Error { code: usize, text: String },
}

/// The mathematical shape of an id-generation payload.
#[verifier::ext_equal]
pub enum GeneratePayloadView {
    Generate,
    GenerateOk { id: Seq<char> },
    Error { code: usize, text: Seq<char> },
}

impl View for GeneratePayload {
    type V = GeneratePayloadView;

    open spec fn view(&self) -> GeneratePayloadView {
        match self {
            GeneratePayload::Generate => GeneratePayloadView::Generate,
            GeneratePayload::GenerateOk { id } => GeneratePayloadView::GenerateOk { id: id@ },
            GeneratePayload::Error { code, text } => GeneratePayloadView::Error {
                code: *code,
                text: text@,
            },
        }
    }
}

/// Relies on `uuid::Uuid::new_v4` and the hyphenated form its `Display`
/// uses: a freshly drawn random identifier rendered as exactly 36
/// characters. The draw is random, so nothing relates two calls.
#[verifier::external_body]
fn fresh_uuid() -> (r: String)
    ensures
        r@.len() == 36,
{
    uuid::Uuid::new_v4().to_string()
}

/// The id-generation handler; it keeps no state of its own.
pub struct GenerateNode {}

impl Workload for GenerateNode {
    type Payload = GeneratePayload;

    open spec fn init_ok(state: Self) -> bool {
        true
    }

    open spec fn handles(
        pre: Self,
        input: GeneratePayload,
        post: Self,
        out: GeneratePayload,
    ) -> bool {
        match input {
            GeneratePayload::Generate => out@ matches GeneratePayloadView::GenerateOk {
                id,
            } && id.len() == 36,
            _ => out@ matches GeneratePayloadView::Error { code, text } && code == NOT_SUPPORTED
                && text == "Not supported message."@,
        }
    }

    fn init() -> (r: Self) {
        GenerateNode {  }
    }

    fn handle_message(&mut self, input: &Message<GeneratePayload>) -> (r: GeneratePayload) {
        match &input.body.payload {
            GeneratePayload::Generate => GeneratePayload::GenerateOk { id: fresh_uuid() },
            _ => GeneratePayload::Error {
                code: NOT_SUPPORTED,
                text: "Not supported message.".to_owned(),
            },
        }
    }
}

impl PayloadCodec for GeneratePayload {
    open spec fn encoded(v: GeneratePayloadView) -> Seq<char> {
        match v {
            GeneratePayloadView::Generate => "\"type\":\"generate\""@,
            GeneratePayloadView::GenerateOk { id } => "\"type\":\"generate_ok\",\"id\":"@
                + quoted(id),
            GeneratePayloadView::Error { code, text } => "\"type\":\"error\",\"code\":"@ + digits(
                code as int,
            ) + ",\"text\":"@ + quoted(text),
        }
    }

    proof fn lemma_encoded_opens_with_type(v: GeneratePayloadView) {
        reveal_strlit("\"type\":\"");
        reveal_strlit("\"type\":\"generate\"");
        reveal_strlit("\"type\":\"generate_ok\",\"id\":");
        reveal_strlit("\"type\":\"error\",\"code\":");
        match v {
            GeneratePayloadView::Generate => {
                assert(Self::encoded(v).take(8) =~= "\"type\":\""@);
            },
            GeneratePayloadView::GenerateOk { id } => {
                assert(Self::encoded(v).take(8) =~= "\"type\":\""@);
            },
            GeneratePayloadView::Error { code, text } => {
                assert(Self::encoded(v).take(8) =~= "\"type\":\""@);
            },
        }
    }

    fn encode_into(&self, out: &mut Vec<char>) {
        match self {
            GeneratePayload::Generate => {
                push_lit(out, "\"type\":\"generate\"");
                proof {
                    assert(out@ =~= old(out)@ + Self::encoded(self@));
                }
            },
            GeneratePayload::GenerateOk { id } => {
                push_lit(out, "\"type\":\"generate_ok\",\"id\":");
                push_quoted(out, id.as_str());
                proof {
                    assert(out@ =~= old(out)@ + Self::encoded(self@));
                }
            },
            GeneratePayload::Error { code, text } => {
                push_lit(out, "\"type\":\"error\",\"code\":");
                push_digits(out, *code);
                push_lit(out, ",\"text\":");
                push_quoted(out, text.as_str());
                proof {
                    assert(out@ =~= old(out)@ + Self::encoded(self@));
                }
            },
        }
    }

    #[verifier::rlimit(100)]
    fn decode_from(
        cs: &Vec<char>,
        pos: usize,
        Ghost(v): Ghost<GeneratePayloadView>,
        Ghost(rest): Ghost<Seq<char>>,
    ) -> (r: (Self, usize)) {
        let ghost t = Self::encoded(v) + rest;
        let _cs_len: usize = cs.len();
        proof {
            reveal_strlit("\"type\":\"generate\"");
            reveal_strlit("\"type\":\"generate_ok\",\"id\":");
            reveal_strlit("\"type\":\"error\",\"code\":");
            reveal_strlit(",\"text\":");
            assert(cs@.len() - pos == t.len());
            assert(Self::encoded(v).len() >= 17);
            assert forall|i: int| pos <= i < cs@.len() implies cs@[i] == t[i - pos] by {
                assert(cs@.subrange(pos as int, cs@.len() as int)[i - pos] == cs@[i]);
            }
            assert(cs@[pos as int + 8] == t[8]);
        }
        let c8 = cs[pos + 8];
        if c8 == 'e' {
            proof {
                assert(v is Error);
                crate::codec::lemma_digits_are_digits(v->Error_code as int);
                assert(quoted(v->Error_text).len() >= 2);
                assert(Self::encoded(v).len() == 22 + digits(v->Error_code as int).len() + 8
                    + quoted(v->Error_text).len());
                assert(pos + 22 <= cs@.len());
                assert(t =~= "\"type\":\"error\",\"code\":"@ + (digits(v->Error_code as int) + (
                ",\"text\":"@ + (quoted(v->Error_text) + rest))));
                assert(cs@.subrange(pos as int + 22, cs@.len() as int) =~= digits(
                    v->Error_code as int,
                ) + (",\"text\":"@ + (quoted(v->Error_text) + rest)));
                assert(!is_digit(','));
            }
            let (code, p1) = parse_number(
                cs,
                pos + 22,
                Ghost(v->Error_code as int),
                Ghost(",\"text\":"@ + (quoted(v->Error_text) + rest)),
            );
            proof {
                assert(p1 - pos == 22 + digits(v->Error_code as int).len());
                assert(cs@.subrange(p1 as int + 8, cs@.len() as int) =~= quoted(v->Error_text)
                    + rest);
            }
            let (text, p2) = parse_string(cs, p1 + 8, Ghost(v->Error_text), Ghost(rest));
            (GeneratePayload::Error { code, text }, p2)
        } else {
            proof {
                assert(!(v is Error));
                assert(cs@[pos as int + 16] == t[16]);
            }
            let c16 = cs[pos + 16];
            if c16 == '_' {
                proof {
                    assert(v is GenerateOk);
                    assert(cs@.subrange(pos as int + 26, cs@.len() as int) =~= quoted(
                        v->GenerateOk_id,
                    ) + rest);
                }
                let (id, p1) = parse_string(cs, pos + 26, Ghost(v->GenerateOk_id), Ghost(rest));
                (GeneratePayload::GenerateOk { id }, p1)
            } else {
                proof {
                    assert(v is Generate);
                    assert(Self::encoded(v).len() == 17);
                }
                (GeneratePayload::Generate, pos + 17)
            }
        }
    }
}

} // verus!
