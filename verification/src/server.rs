//! What the server does with the bytes a client has sent: it answers every
//! whole command at the front of the client's buffer, in order, and keeps the
//! beginning of a command that has not fully arrived yet.
use vstd::prelude::*;
use crate::command::{command_of, execute_model, lemma_command_fits, Command};
use crate::resp::{
    decode_value, encode_model, error_text, lemma_decode_array_len, lemma_decode_end,
    lemma_decode_extend, lemma_parse_frame_encoded, well_formed, Decoded, ParseFrame, Resp, RespError, RespModel,
};
use crate::store::{Store, StoreModel};
use crate::text::concat;

verus! {

/// The reply to a buffer that does not hold a RESP value.
pub open spec fn protocol_error_reply(e: RespError) -> RespModel {
    RespModel::Error("ERR "@ + error_text(e))
}

/// What serving the buffer `buf` at time `now` leaves: the bytes kept for the
/// next read, the store, and the bytes to send back.
pub open spec fn serve_model(buf: Seq<u8>, m: StoreModel, now: u64) -> (Seq<u8>, StoreModel, Seq<
    u8,
>)
    decreases buf.len(),
{
    match decode_value(buf, 0) {
        Decoded::Invalid(e) => (seq![], m, encode_model(protocol_error_reply(e))),
        Decoded::Incomplete => (buf, m, seq![]),
        Decoded::Complete(v, k) => {
            proof {
                lemma_decode_end(buf, 0);
            }
            let (reply, m1) = execute_model(command_of(v), m, now);
            let (rest, m2, out) = serve_model(buf.subrange(k, buf.len() as int), m1, now);
            (rest, m2, encode_model(reply) + out)
        },
    }
}

/// Answers every whole command at the front of `buffer`, in order, against
/// `store` at time `now`, and returns the replies one after the other. The
/// commands answered leave the buffer; the beginning of a command that has
/// not fully arrived stays in it. Where the buffer holds no RESP value, the
/// reply is a protocol error and the buffer is emptied.
pub fn process_buffer(buffer: &mut Vec<u8>, store: &mut Store, now: u64) -> (output: Vec<u8>)
    ensures
        serve_model(old(buffer)@, old(store)@, now) == (final(buffer)@, final(store)@, output@),
{
    let mut output: Vec<u8> = Vec::new();
    loop
        invariant
            serve_model(old(buffer)@, old(store)@, now) == ({
                let (r, m, o) = serve_model(buffer@, store@, now);
                (r, m, output@ + o)
            }),
        decreases buffer@.len(),
    {
        let ghost buf = buffer@;
        let frame = Resp::parse_frame(buffer.as_slice());
        match frame {
            Err(err) => {
                let message = err.message();
                let reply = Resp::Error(concat("ERR ", message.as_str()));
                let bytes = reply.encode();
                let ghost before = output@;
                output.extend_from_slice(bytes.as_slice());
                buffer.clear();
                assert(output@ =~= before + encode_model(protocol_error_reply(err)));
                return output;
            },
            Ok(ParseFrame::Incomplete) => {
                assert(output@ + seq![] =~= output@);
                return output;
            },
            Ok(ParseFrame::Complete { resp, consumed }) => {
                proof {
                    lemma_decode_end(buf, 0);
                    lemma_decode_array_len(buf, 0);
                    lemma_command_fits(resp@);
                }
                let rest = buffer.split_off(consumed);
                *buffer = rest;
                let command = Command::from_resp(resp);
                let response = command.execute(store, now);
                let bytes = response.encode();
                let ghost before = output@;
                output.extend_from_slice(bytes.as_slice());
                proof {
                    let (r2, m2, o2) = serve_model(buffer@, store@, now);
                    assert(before + (bytes@ + o2) =~= output@ + o2);
                }
            },
        }
    }
}

/// Law (pipelining): a buffer that begins with a whole command is answered
/// with that command's reply first, followed by the answers to the rest of
/// the buffer against the store as the command left it.
pub proof fn law_pipelined_command(f: RespModel, rest: Seq<u8>, m: StoreModel, now: u64)
    requires
        well_formed(f),
    ensures
        serve_model(encode_model(f) + rest, m, now) == ({
            let (reply, m1) = execute_model(command_of(f), m, now);
            let (r, m2, out) = serve_model(rest, m1, now);
            (r, m2, encode_model(reply) + out)
        }),
{
    lemma_parse_frame_encoded(f, rest);
    let s = encode_model(f) + rest;
    assert(s.subrange(encode_model(f).len() as int, s.len() as int) =~= rest);
}

/// Law: a buffer that holds only the beginning of a value is kept whole, the
/// store is left as it was, and nothing is sent.
pub proof fn law_partial_input_waits(buf: Seq<u8>, m: StoreModel, now: u64)
    requires
        decode_value(buf, 0) is Incomplete,
    ensures
        serve_model(buf, m, now) == (buf, m, Seq::<u8>::empty()),
{
}

/// Whether every value at the front of `buf`, one after the other, is whole
/// or merely unfinished: no protocol error comes before the bytes run out.
pub open spec fn frames_ok(buf: Seq<u8>) -> bool
    decreases buf.len(),
{
    match decode_value(buf, 0) {
        Decoded::Invalid(_) => false,
        Decoded::Incomplete => true,
        Decoded::Complete(v, k) => {
            proof {
                lemma_decode_end(buf, 0);
            }
            frames_ok(buf.subrange(k, buf.len() as int))
        },
    }
}

/// Law: the answers do not depend on how the input is split across reads.
/// Serving `a`, then serving what it kept followed by `b`, sends the same
/// bytes, keeps the same bytes and leaves the same store as serving `a + b`
/// at once, as long as `a` holds no protocol error.
pub proof fn law_split_reads(a: Seq<u8>, b: Seq<u8>, m: StoreModel, now: u64)
    requires
        frames_ok(a),
    ensures
        serve_model(a + b, m, now) == ({
            let (r1, m1, o1) = serve_model(a, m, now);
            let (r2, m2, o2) = serve_model(r1 + b, m1, now);
            (r2, m2, o1 + o2)
        }),
    decreases a.len(),
{
    lemma_decode_extend(a, b);
    match decode_value(a, 0) {
        Decoded::Incomplete => {
            let (r2, m2, o2) = serve_model(a + b, m, now);
            assert(Seq::<u8>::empty() + o2 =~= o2);
        },
        Decoded::Complete(v, k) => {
            lemma_decode_end(a, 0);
            let tail = a.subrange(k, a.len() as int);
            assert((a + b).subrange(k, (a + b).len() as int) =~= tail + b);
            let (reply, m1) = execute_model(command_of(v), m, now);
            law_split_reads(tail, b, m1, now);
            let (r1, m1b, o1) = serve_model(tail, m1, now);
            let (r2, m2, o2) = serve_model(r1 + b, m1b, now);
            assert(encode_model(reply) + (o1 + o2) =~= (encode_model(reply) + o1) + o2);
        },
        Decoded::Invalid(_) => {},
    }
}

/// Serving a buffer without a protocol error keeps a tail from which the
/// remaining values run on as they would have from the whole buffer: adding
/// bytes `c` behind either leads to a protocol error in one exactly when it
/// does in the other.
pub proof fn lemma_frames_ok_kept(a: Seq<u8>, c: Seq<u8>, m: StoreModel, now: u64)
    requires
        frames_ok(a),
    ensures
        frames_ok(a + c) == frames_ok(serve_model(a, m, now).0 + c),
    decreases a.len(),
{
    lemma_decode_extend(a, c);
    if let Decoded::Complete(v, k) = decode_value(a, 0) {
        lemma_decode_end(a, 0);
        let tail = a.subrange(k, a.len() as int);
        assert((a + c).subrange(k, (a + c).len() as int) =~= tail + c);
        let (reply, m1) = execute_model(command_of(v), m, now);
        lemma_frames_ok_kept(tail, c, m1, now);
    }
}

/// What serving the reads `reads` one after the other leaves, starting from
/// the kept bytes `kept` and the store `m`: each read is served behind what
/// the read before it kept, and the replies are sent in turn.
pub open spec fn serve_reads(reads: Seq<Seq<u8>>, kept: Seq<u8>, m: StoreModel, now: u64) -> (
    Seq<u8>,
    StoreModel,
    Seq<u8>,
)
    decreases reads.len(),
{
    if reads.len() == 0 {
        (kept, m, seq![])
    } else {
        let (r1, m1, o1) = serve_model(kept + reads[0], m, now);
        let (r2, m2, o2) = serve_reads(reads.drop_first(), r1, m1, now);
        (r2, m2, o1 + o2)
    }
}

/// Law: the answers do not depend on how the input is split into any number
/// of reads. Serving the reads one after the other sends the same bytes,
/// keeps the same bytes and leaves the same store as serving all of them at
/// once, as long as the input up to the end of each read but the last holds
/// no protocol error.
pub proof fn law_many_reads(reads: Seq<Seq<u8>>, kept: Seq<u8>, m: StoreModel, now: u64)
    requires
        reads.len() >= 1,
        forall|i: int| 0 < i < reads.len() ==> frames_ok(kept + #[trigger] reads.take(i).flatten()),
    ensures
        serve_reads(reads, kept, m, now) == serve_model(kept + reads.flatten(), m, now),
    decreases reads.len(),
{
    let rest = reads.drop_first();
    assert(reads.flatten() == reads[0] + rest.flatten());
    let (r1, m1, o1) = serve_model(kept + reads[0], m, now);
    if reads.len() == 1 {
        assert(rest.flatten() =~= Seq::<u8>::empty());
        assert(kept + reads.flatten() =~= kept + reads[0]);
        assert(serve_reads(rest, r1, m1, now) == (r1, m1, Seq::<u8>::empty()));
        assert(o1 + Seq::<u8>::empty() =~= o1);
    } else {
        let a = kept + reads[0];
        let first = reads.take(1);
        assert(first.drop_first() =~= Seq::<Seq<u8>>::empty());
        assert(first.drop_first().flatten() == Seq::<u8>::empty());
        assert(first.flatten() =~= reads[0]);
        assert(frames_ok(kept + reads.take(1).flatten()));
        law_split_reads(a, rest.flatten(), m, now);
        assert(kept + reads.flatten() =~= a + rest.flatten());
        assert forall|j: int| 0 < j < rest.len() implies frames_ok(
            r1 + #[trigger] rest.take(j).flatten(),
        ) by {
            assert(reads.take(j + 1).drop_first() =~= rest.take(j));
            assert(reads.take(j + 1).flatten() == reads[0] + rest.take(j).flatten());
            assert(kept + reads.take(j + 1).flatten() =~= a + rest.take(j).flatten());
            lemma_frames_ok_kept(a, rest.take(j).flatten(), m, now);
        }
        law_many_reads(rest, r1, m1, now);
        let (r2, m2, o2) = serve_model(r1 + rest.flatten(), m1, now);
        assert(serve_reads(rest, r1, m1, now) == (r2, m2, o2));
        assert(serve_model(a + rest.flatten(), m, now) == (r2, m2, o1 + o2));
    }
}

} // verus!
