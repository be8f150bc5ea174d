//! Decoding a whole frame: lookup, length check, then every signal in turn.

use vstd::prelude::*;
use vstd::string::StringExecFns;
use crate::error::DecodeError;
use crate::extract::{get_signal_val, signal_outcome};
use crate::label::{display_value, get_named_signal};
use crate::schema::{CanCommunicationMatrix, CanFrame, CanSignal};

verus! {

/// One decoded signal: its name and the text shown for its value.
#[derive(Debug, Clone, PartialEq, Eq)]
pub struct DecodedSignal {
    pub name: String,
    pub value: String,
}

/// The names and texts of a list of decoded signals.
pub open spec fn texts(decoded: Seq<DecodedSignal>) -> Seq<(Seq<char>, Seq<char>)> {
    Seq::new(decoded.len(), |i: int| (decoded[i].name@, decoded[i].value@))
}

/// What decoding `signals` from `payload` in order gives: the error of the
/// first signal that cannot be extracted, or else one pair of name and text
/// per signal.
pub open spec fn signals_outcome(payload: Seq<u8>, signals: Seq<CanSignal>) -> Result<
    Seq<(Seq<char>, Seq<char>)>,
    DecodeError,
>
    decreases signals.len(),
{
    if signals.len() == 0 {
        Ok(Seq::empty())
    } else {
        match signals_outcome(payload, signals.drop_last()) {
            Err(e) => Err(e),
            Ok(done) => match signal_outcome(payload, signals.last()) {
                Err(e) => Err(e),
                Ok(raw) => Ok(
                    done.push(
                        (signals.last().name@, display_value(raw, signals.last().signal_value_names@)),
                    ),
                ),
            },
        }
    }
}

/// Decodes every signal of `frame` from `payload`, in declaration order.
/// Nothing is returned of a frame one of whose signals fails.
pub fn decode_signals(frame: &CanFrame, payload: &Vec<u8>) -> (r: Result<
    Vec<DecodedSignal>,
    DecodeError,
>)
    requires
        frame.well_formed(),
    ensures
        match signals_outcome(payload@, frame.signals@) {
            Err(e) => r == Err::<Vec<DecodedSignal>, DecodeError>(e),
            Ok(pairs) => r is Ok && texts(r->Ok_0@) == pairs,
        },
{
    let mut decoded: Vec<DecodedSignal> = Vec::new();
    let mut i: usize = 0;
    assert(frame.signals@.take(0) =~= Seq::<CanSignal>::empty());
    assert(texts(decoded@) =~= Seq::<(Seq<char>, Seq<char>)>::empty());
    while i < frame.signals.len()
        invariant
            i <= frame.signals@.len(),
            frame.well_formed(),
            signals_outcome(payload@, frame.signals@.take(i as int)) == Ok::<
                Seq<(Seq<char>, Seq<char>)>,
                DecodeError,
            >(texts(decoded@)),
        decreases frame.signals@.len() - i,
    {
        let s: &CanSignal = &frame.signals[i];
        proof {
            let upto = frame.signals@.take(i + 1);
            assert(upto.drop_last() =~= frame.signals@.take(i as int));
            assert(upto.last() == frame.signals@[i as int]);
            if i + 1 == frame.signals@.len() {
                assert(upto =~= frame.signals@);
            }
        }
        match get_signal_val(payload, s) {
            Err(e) => {
                proof {
                    lemma_failure_stays(payload@, frame.signals@, i + 1);
                }
                return Err(e);
            },
            Ok(raw) => {
                let value: String = get_named_signal(raw, &s.signal_value_names);
                let ghost before = texts(decoded@);
                decoded.push(DecodedSignal { name: s.name.clone(), value });
                assert(texts(decoded@) =~= before.push(
                    (s.name@, display_value(raw, s.signal_value_names@)),
                ));
            },
        }
        i += 1;
    }
    assert(frame.signals@.take(i as int) =~= frame.signals@);
    Ok(decoded)
}

/// Once the first `n` signals give an error, the whole list gives that error.
pub proof fn lemma_failure_stays(payload: Seq<u8>, signals: Seq<CanSignal>, n: int)
    requires
        0 <= n <= signals.len(),
        signals_outcome(payload, signals.take(n)) is Err,
    ensures
        signals_outcome(payload, signals) == signals_outcome(payload, signals.take(n)),
    decreases signals.len(),
{
    if n < signals.len() {
        assert(signals.drop_last().take(n) =~= signals.take(n));
        lemma_failure_stays(payload, signals.drop_last(), n);
    } else {
        assert(signals.take(n) =~= signals);
    }
}

/// Decodes the payload of the frame named `id`.
///
/// The frame is looked up first, then the payload's length is held against
/// the frame's declared length, and only then are the signals decoded, in
/// declaration order. A failure anywhere gives the error alone.
pub fn decode_frame(matrix: &CanCommunicationMatrix, id: &str, payload: &Vec<u8>) -> (r: Result<
    Vec<DecodedSignal>,
    DecodeError,
>)
    requires
        matrix.well_formed(),
    ensures
        matrix.position_of(id@) >= matrix.can_frames@.len() ==> (r matches Err(
            DecodeError::FrameNotFound { id: missing },
        ) && missing@ == id@),
        matrix.position_of(id@) < matrix.can_frames@.len() ==> ({
            let frame = matrix.can_frames@[matrix.position_of(id@)];
            if frame.length != payload@.len() {
                r == Err::<Vec<DecodedSignal>, DecodeError>(
                    DecodeError::LengthMismatch {
                        id: frame.id,
                        expected: frame.length,
                        actual: payload@.len() as usize,
                    },
                )
            } else {
                match signals_outcome(payload@, frame.signals@) {
                    Err(e) => r == Err::<Vec<DecodedSignal>, DecodeError>(e),
                    Ok(pairs) => r is Ok && texts(r->Ok_0@) == pairs,
                }
            }
        }),
{
    match matrix.find_frame(id) {
        None => Err(DecodeError::FrameNotFound { id: String::from_str(id) }),
        Some(frame) => {
            proof {
                crate::schema::lemma_first_named(matrix.can_frames@, id@);
            }
            if frame.length < 0 || frame.length as usize != payload.len() {
                Err(
                    DecodeError::LengthMismatch {
                        id: frame.id.clone(),
                        expected: frame.length,
                        actual: payload.len(),
                    },
                )
            } else {
                decode_signals(frame, payload)
            }
        },
    }
}

/// Where every signal can be extracted, decoding gives one pair per signal,
/// in declaration order: the signal's name and the text of its value.
pub proof fn lemma_all_signals_decoded(payload: Seq<u8>, signals: Seq<CanSignal>)
    requires
        forall|i: int| 0 <= i < signals.len() ==> signal_outcome(payload, #[trigger] signals[i]) is Ok,
    ensures
        signals_outcome(payload, signals) is Ok,
        signals_outcome(payload, signals)->Ok_0.len() == signals.len(),
        forall|i: int|
            0 <= i < signals.len() ==> #[trigger] signals_outcome(payload, signals)->Ok_0[i] == (
                signals[i].name@,
                display_value(
                    signal_outcome(payload, signals[i])->Ok_0,
                    signals[i].signal_value_names@,
                ),
            ),
    decreases signals.len(),
{
    if signals.len() > 0 {
        let front = signals.drop_last();
        assert forall|i: int| 0 <= i < front.len() implies signal_outcome(
            payload,
            #[trigger] front[i],
        ) is Ok by {
            assert(front[i] == signals[i]);
        }
        lemma_all_signals_decoded(payload, front);
        assert(signal_outcome(payload, signals[signals.len() - 1]) is Ok);
        assert forall|i: int| 0 <= i < signals.len() implies #[trigger] signals_outcome(
            payload,
            signals,
        )->Ok_0[i] == (
            signals[i].name@,
            display_value(signal_outcome(payload, signals[i])->Ok_0, signals[i].signal_value_names@),
        ) by {
            if i < front.len() {
                assert(front[i] == signals[i]);
                assert(signals_outcome(payload, signals)->Ok_0[i] == signals_outcome(
                    payload,
                    front,
                )->Ok_0[i]);
            }
        }
    }
}

/// The first signal that cannot be extracted decides the outcome: its error
/// is the error of the whole frame.
pub proof fn lemma_first_failure_decides(payload: Seq<u8>, signals: Seq<CanSignal>, at: int)
    requires
        0 <= at < signals.len(),
        signal_outcome(payload, signals[at]) is Err,
        forall|j: int| 0 <= j < at ==> signal_outcome(payload, #[trigger] signals[j]) is Ok,
    ensures
        signals_outcome(payload, signals) == Err::<Seq<(Seq<char>, Seq<char>)>, DecodeError>(
            signal_outcome(payload, signals[at])->Err_0,
        ),
{
    let upto = signals.take(at + 1);
    let front = signals.take(at);
    assert(upto.drop_last() =~= front);
    assert(upto.last() == signals[at]);
    assert forall|i: int| 0 <= i < front.len() implies signal_outcome(
        payload,
        #[trigger] front[i],
    ) is Ok by {
        assert(front[i] == signals[i]);
    }
    lemma_all_signals_decoded(payload, front);
    lemma_failure_stays(payload, signals, at + 1);
}

/// A frame whose signals all fit it decodes whenever the payload has the
/// declared length.
pub proof fn lemma_fitting_frame_decodes(frame: CanFrame, payload: Seq<u8>)
    requires
        frame.well_formed(),
        frame.signals_fit(),
        payload.len() == frame.length,
    ensures
        signals_outcome(payload, frame.signals@) is Ok,
        signals_outcome(payload, frame.signals@)->Ok_0.len() == frame.signals@.len(),
{
    assert forall|i: int| 0 <= i < frame.signals@.len() implies signal_outcome(
        payload,
        #[trigger] frame.signals@[i],
    ) is Ok by {
        assert(frame.signals@[i].last_byte() <= frame.length);
    }
    lemma_all_signals_decoded(payload, frame.signals@);
}

} // verus!
