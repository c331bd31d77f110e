//! The echo workload: answers every `Echo` request with an `EchoOk`
//! carrying the same text, and anything else with an `Error` reply.

use vstd::prelude::*;

use crate::NOT_SUPPORTED;
use crate::codec::PayloadCodec;
use crate::codec::digits;
use crate::codec::is_digit;
use crate::codec::parse_number;
use crate::codec::parse_string;
use crate::codec::push_digits;
use crate::codec::push_lit;
use crate::codec::push_quoted;
use crate::codec::quoted;
use crate::envelope::Message;
use crate::node::Workload;

verus! {

/// The closed set of payload variants the echo handler speaks.
pub enum EchoPayload {
    Echo { echo: String },
    EchoOk { echo: String },
    Error { code: usize, text: String },
}

/// The mathematical shape of an echo payload.
#[verifier::ext_equal]
pub enum EchoPayloadView {
    Echo { echo: Seq<char> },
    EchoOk { echo: Seq<char> },
    Error { code: usize, text: Seq<char> },
}

impl View for EchoPayload {
    type V = EchoPayloadView;

    open spec fn view(&self) -> EchoPayloadView {
        match self {
            EchoPayload::Echo { echo } => EchoPayloadView::Echo { echo: echo@ },
            EchoPayload::EchoOk { echo } => EchoPayloadView::EchoOk { echo: echo@ },
            EchoPayload::Error { code, text } => EchoPayloadView::Error {
                code: *code,
                text: text@,
            },
        }
    }
}

/// The echo handler; it keeps no state of its own.
pub struct EchoNode {}

impl Workload for EchoNode {
    type Payload = EchoPayload;

    open spec fn init_ok(state: Self) -> bool {
        true
    }

    open spec fn handles(pre: Self, input: EchoPayload, post: Self, out: EchoPayload) -> bool {
        match input {
            EchoPayload::Echo { echo } => out@ matches EchoPayloadView::EchoOk {
                echo: e,
            } && e == echo@,
            _ => out@ matches EchoPayloadView::Error { code, text } && code == NOT_SUPPORTED
                && text == "Not supported message."@,
        }
    }

    fn init() -> (r: Self) {
        EchoNode {  }
    }

    fn handle_message(&mut self, input: &Message<EchoPayload>) -> (r: EchoPayload) {
        match &input.body.payload {
            EchoPayload::Echo { echo } => EchoPayload::EchoOk { echo: echo.clone() },
            _ => EchoPayload::Error {
                code: NOT_SUPPORTED,
                text: "Not supported message.".to_owned(),
            },
        }
    }
}

impl PayloadCodec for EchoPayload {
    open spec fn encoded(v: EchoPayloadView) -> Seq<char> {
        match v {
            EchoPayloadView::Echo { echo } => "\"type\":\"echo\",\"echo\":"@ + quoted(echo),
            EchoPayloadView::EchoOk { echo } => "\"type\":\"echo_ok\",\"echo\":"@ + quoted(echo),
            EchoPayloadView::Error { code, text } => "\"type\":\"error\",\"code\":"@ + digits(
                code as int,
            ) + ",\"text\":"@ + quoted(text),
        }
    }

    proof fn lemma_encoded_opens_with_type(v: EchoPayloadView) {
        reveal_strlit("\"type\":\"");
        reveal_strlit("\"type\":\"echo\",\"echo\":");
        reveal_strlit("\"type\":\"echo_ok\",\"echo\":");
        reveal_strlit("\"type\":\"error\",\"code\":");
        match v {
            EchoPayloadView::Echo { echo } => {
                assert(Self::encoded(v).take(8) =~= "\"type\":\""@);
            },
            EchoPayloadView::EchoOk { echo } => {
                assert(Self::encoded(v).take(8) =~= "\"type\":\""@);
            },
            EchoPayloadView::Error { code, text } => {
                assert(Self::encoded(v).take(8) =~= "\"type\":\""@);
            },
        }
    }

    fn encode_into(&self, out: &mut Vec<char>) {
        match self {
            EchoPayload::Echo { echo } => {
                push_lit(out, "\"type\":\"echo\",\"echo\":");
                push_quoted(out, echo.as_str());
                proof {
                    assert(out@ =~= old(out)@ + Self::encoded(self@));
                }
            },
            EchoPayload::EchoOk { echo } => {
                push_lit(out, "\"type\":\"echo_ok\",\"echo\":");
                push_quoted(out, echo.as_str());
                proof {
                    assert(out@ =~= old(out)@ + Self::encoded(self@));
                }
            },
            EchoPayload::Error { code, text } => {
                push_lit(out, "\"type\":\"error\",\"code\":");
                push_digits(out, *code);
                push_lit(out, ",\"text\":");
                push_quoted(out, text.as_str());
                proof {
                    assert(out@ =~= old(out)@ + Self::encoded(self@));
                }
            },
        }
    }

    #[verifier::rlimit(100)]
    fn decode_from(
        cs: &Vec<char>,
        pos: usize,
        Ghost(v): Ghost<EchoPayloadView>,
        Ghost(rest): Ghost<Seq<char>>,
    ) -> (r: (Self, usize)) {
        let ghost t = Self::encoded(v) + rest;
        let _cs_len: usize = cs.len();
        proof {
            reveal_strlit("\"type\":\"echo\",\"echo\":");
            reveal_strlit("\"type\":\"echo_ok\",\"echo\":");
            reveal_strlit("\"type\":\"error\",\"code\":");
            reveal_strlit(",\"text\":");
            assert(cs@.len() - pos == t.len());
            assert(Self::encoded(v).len() >= 17);
            assert forall|i: int| pos <= i < cs@.len() implies cs@[i] == t[i - pos] by {
                assert(cs@.subrange(pos as int, cs@.len() as int)[i - pos] == cs@[i]);
            }
            assert(cs@[pos as int + 9] == t[9]);
        }
        let c9 = cs[pos + 9];
        if c9 == 'r' {
            proof {
                assert(v is Error);
                crate::codec::lemma_digits_are_digits(v->Error_code as int);
                assert(quoted(v->Error_text).len() >= 2);
                assert(Self::encoded(v).len() == 22 + digits(v->Error_code as int).len() + 8
                    + quoted(v->Error_text).len());
                assert(pos + 22 <= cs@.len());
                assert(t =~= "\"type\":\"error\",\"code\":"@ + (digits(v->Error_code as int) + (
                ",\"text\":"@ + (quoted(v->Error_text) + rest))));
                assert(cs@.subrange(pos as int + 22, cs@.len() as int) =~= digits(
                    v->Error_code as int,
                ) + (",\"text\":"@ + (quoted(v->Error_text) + rest)));
                assert(!is_digit(','));
            }
            let (code, p1) = parse_number(
                cs,
                pos + 22,
                Ghost(v->Error_code as int),
                Ghost(",\"text\":"@ + (quoted(v->Error_text) + rest)),
            );
            proof {
                assert(p1 - pos == 22 + digits(v->Error_code as int).len());
                assert(cs@.subrange(p1 as int + 8, cs@.len() as int) =~= quoted(v->Error_text)
                    + rest);
            }
            let (text, p2) = parse_string(cs, p1 + 8, Ghost(v->Error_text), Ghost(rest));
            proof {
                assert(Self::encoded(v).len() == 22 + digits(v->Error_code as int).len() + 8
                    + quoted(v->Error_text).len());
            }
            (EchoPayload::Error { code, text }, p2)
        } else {
            proof {
                assert(!(v is Error));
                assert(cs@[pos as int + 12] == t[12]);
            }
            let c12 = cs[pos + 12];
            if c12 == '_' {
                proof {
                    assert(v is EchoOk);
                    assert(cs@.subrange(pos as int + 24, cs@.len() as int) =~= quoted(
                        v->EchoOk_echo,
                    ) + rest);
                }
                let (echo, p1) = parse_string(cs, pos + 24, Ghost(v->EchoOk_echo), Ghost(rest));
                (EchoPayload::EchoOk { echo }, p1)
            } else {
                proof {
                    assert(v is Echo);
                    assert(cs@.subrange(pos as int + 21, cs@.len() as int) =~= quoted(v->Echo_echo)
                        + rest);
                }
                let (echo, p1) = parse_string(cs, pos + 21, Ghost(v->Echo_echo), Ghost(rest));
                (EchoPayload::Echo { echo }, p1)
            }
        }
    }
}

} // verus!
