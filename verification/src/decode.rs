//! The signal decoder/encoder: binds a DBC document to the bit codec.
//! Given a raw CAN frame it produces decoded physical values; given a
//! physical value and a signal definition it writes the field back into a
//! frame's bytes. Scaling is exact decimal arithmetic.

use vstd::prelude::*;
use vstd::slice::slice_to_vec;
use crate::bits::extract_bits;
use crate::bits::insert_bits;
use crate::bits::sign_extend;
use crate::bits::sign_extend_spec;
use crate::bits::field_value;
use crate::bits::field_in_range;
use crate::bits::flat_start_bit;
use crate::bits::insert_field;
use crate::dbc::DbcFile;
use crate::dbc::DbcSignal;
use crate::dbc::SignalView;
use crate::dbc::ValueType;
use crate::dbc::spec_lookup;
use crate::dbc::msg_wf;
use crate::frame::CanMessage;
use crate::num::Dec;
use crate::num::Physical;
use crate::num::pow10;
use crate::num::scale_max;
use crate::num::scale_raw;
use crate::num::unscale;
use crate::num::trunc_div;

verus! {

/// A decoded signal value: the physical value, the raw field bits, and
/// the metadata a display layer needs.
#[derive(Debug, Clone)]
pub struct DecodedSignal {
    /// Signal name, from the definition.
    pub name: Vec<u8>,
    /// Physical value after factor and offset, exact.
    pub physical_value: Physical,
    /// Raw field value before scaling; sign-extended to 64 bits for
    /// signed signals.
    pub raw_value: u64,
    /// Unit of the signal, if declared.
    pub unit: Option<Vec<u8>>,
    /// Timestamp of the frame the value came from.
    pub timestamp: i64,
    /// CAN id of the frame the value came from.
    pub message_id: u32,
}

/// Mathematical view of a [`DecodedSignal`].
pub struct DecView {
    pub name: Seq<u8>,
    pub physical_value: Physical,
    pub raw_value: u64,
    pub unit: Option<Seq<u8>>,
    pub timestamp: i64,
    pub message_id: u32,
}

impl View for DecodedSignal {
    type V = DecView;

    open spec fn view(&self) -> DecView {
        DecView {
            name: self.name@,
            physical_value: self.physical_value,
            raw_value: self.raw_value,
            unit: match self.unit {
                Some(u) => Some(u@),
                None => None,
            },
            timestamp: self.timestamp,
            message_id: self.message_id,
        }
    }
}

impl DeepView for DecodedSignal {
    type V = DecView;

    open spec fn deep_view(&self) -> DecView {
        self@
    }
}

/// A 64-bit word read as a two's-complement signed number.
pub open spec fn as_signed64(v: u64) -> int {
    if v >= 0x8000_0000_0000_0000 {
        v - 0x1_0000_0000_0000_0000
    } else {
        v as int
    }
}

/// The raw field of a signal in a payload: the extracted bits, sign
/// extended when the signal is signed.
pub open spec fn raw_of(data: Seq<u8>, s: SignalView) -> u64 {
    let rv = field_value(data, flat_start_bit(s.start_bit, s.byte_order), s.bit_length as nat)
        as u64;
    if s.value_type == ValueType::Signed {
        sign_extend_spec(rv, s.bit_length)
    } else {
        rv
    }
}

/// The numeric value a raw field denotes: two's complement for signed
/// signals, plain for unsigned ones.
pub open spec fn raw_denotes(raw: u64, vt: ValueType) -> int {
    if vt == ValueType::Signed {
        as_signed64(raw)
    } else {
        raw as int
    }
}

/// The mantissa of `raw * factor + offset` on the common scale of factor
/// and offset.
pub open spec fn phys_mantissa(rawx: int, f: Dec, o: Dec) -> int {
    rawx * f.mantissa * pow10((scale_max(f.scale, o.scale) - f.scale) as nat) + o.mantissa
        * pow10((scale_max(f.scale, o.scale) - o.scale) as nat)
}

/// What decoding one signal from a payload yields: nothing exactly when
/// the bit extraction is out of range, else the raw field and the exact
/// physical value `raw * factor + offset`, with the signal's unit and the
/// frame's timestamp and id.
pub open spec fn decode_signal_spec(data: Seq<u8>, ts: i64, id: u32, s: SignalView) -> Option<
    DecView,
> {
    if !field_in_range(data, s.start_bit, s.bit_length) {
        None
    } else {
        let raw = raw_of(data, s);
        Some(
            DecView {
                name: s.name,
                physical_value: Physical {
                    mantissa: phys_mantissa(raw_denotes(raw, s.value_type), s.factor, s.offset)
                        as i128,
                    scale: scale_max(s.factor.scale, s.offset.scale),
                },
                raw_value: raw,
                unit: s.unit,
                timestamp: ts,
                message_id: id,
            },
        )
    }
}

/// What decoding every signal of a list yields, in order; signals whose
/// extraction fails are silently omitted.
pub open spec fn decode_list(data: Seq<u8>, ts: i64, id: u32, sigs: Seq<SignalView>, i: nat) -> Seq<
    DecView,
>
    decreases sigs.len() - i,
{
    if i >= sigs.len() {
        Seq::empty()
    } else {
        match decode_signal_spec(data, ts, id, sigs[i as int]) {
            Some(d) => seq![d] + decode_list(data, ts, id, sigs, i + 1),
            None => decode_list(data, ts, id, sigs, i + 1),
        }
    }
}

/// The raw integer written when a physical value is encoded:
/// `(value - offset) / factor` truncated toward zero, saturated to the
/// 64-bit signed range, and reduced to the field's width when negative.
pub open spec fn encode_raw_spec(p: Dec, s: SignalView) -> u64 {
    let raw = trunc_div(
        p.mantissa * pow10((s.offset.scale + s.factor.scale) as nat) - s.offset.mantissa * pow10(
            (p.scale + s.factor.scale) as nat,
        ),
        s.factor.mantissa * pow10((p.scale + s.offset.scale) as nat),
    );
    let c: int = if raw > 0x7fff_ffff_ffff_ffff {
        0x7fff_ffff_ffff_ffff
    } else if raw < -0x8000_0000_0000_0000 {
        -0x8000_0000_0000_0000
    } else {
        raw
    };
    if c >= 0 {
        c as u64
    } else if s.bit_length >= 64 {
        (c + 0x1_0000_0000_0000_0000) as u64
    } else {
        (((c + 0x1_0000_0000_0000_0000) as nat) % vstd::arithmetic::power2::pow2(
            s.bit_length as nat,
        )) as u64
    }
}

/// A lookup hit is one of the list's messages, so its signals inherit the
/// document's well-formedness.
proof fn lemma_spec_lookup_wf(msgs: Seq<crate::dbc::DbcMessage>, id: u32)
    requires
        forall|i: int| 0 <= i < msgs.len() ==> msg_wf(#[trigger] msgs[i]),
    ensures
        spec_lookup(msgs, id) matches Some(m) ==> msg_wf(m),
    decreases msgs.len(),
{
    if msgs.len() > 0 {
        if msgs.last().id == id {
            assert(msgs[msgs.len() - 1] == msgs.last());
        } else {
            assert(forall|i: int|
                0 <= i < msgs.drop_last().len() ==> msg_wf(#[trigger] msgs.drop_last()[i]));
            lemma_spec_lookup_wf(msgs.drop_last(), id);
        }
    }
}

/// The signal decoder: holds zero or one active DBC document, fully
/// replaceable at runtime, and decodes frames against it.
pub struct SignalDecoder {
    /// The loaded document, if any.
    pub dbc: Option<DbcFile>,
}

impl SignalDecoder {
    /// The document currently loaded, if any.
    pub open spec fn doc(self) -> Option<DbcFile> {
        self.dbc
    }

    /// The loaded document, if any, has well-formed decimals throughout.
    pub open spec fn wf(self) -> bool {
        self.dbc matches Some(d) ==> d.wf()
    }

    /// A decoder with no document loaded.
    pub fn new() -> (r: Self)
        ensures
            r.doc() is None,
            r.wf(),
    {
        SignalDecoder { dbc: None }
    }

    /// Load a document, wholly replacing any prior one.
    pub fn set_dbc(&mut self, dbc: DbcFile)
        requires
            dbc.wf(),
        ensures
            final(self).doc() == Some(dbc),
            final(self).wf(),
    {
        self.dbc = Some(dbc);
    }

    /// Unload the document, if any.
    pub fn clear_dbc(&mut self)
        ensures
            final(self).doc() is None,
            final(self).wf(),
    {
        self.dbc = None;
    }

    /// Decode one signal from a frame: extract the raw bits, sign-extend
    /// signed signals, and scale exactly. Returns nothing exactly when
    /// the bit extraction is out of range.
    pub fn decode_signal(&self, msg: &CanMessage, signal: &DbcSignal) -> (r: Option<
        DecodedSignal,
    >)
        requires
            signal.wf(),
        ensures
            match r {
                Some(d) => decode_signal_spec(msg.data@, msg.timestamp, msg.id, signal@) == Some(
                    d@,
                ),
                None => decode_signal_spec(msg.data@, msg.timestamp, msg.id, signal@) is None,
            },
    {
        let raw0: u64 = match extract_bits(
            msg.data.as_slice(),
            signal.start_bit,
            signal.bit_length,
            signal.byte_order,
        ) {
            Some(v) => v,
            None => {
                return None;
            },
        };
        let raw: u64 = if signal.value_type == ValueType::Signed {
            sign_extend(raw0, signal.bit_length)
        } else {
            raw0
        };
        let rawx: i128 = if signal.value_type == ValueType::Signed {
            let ri: i64 = #[verifier::truncate] (raw as i64);
            proof {
                assert((raw >= 0x8000_0000_0000_0000 ==> ri == raw - 0x1_0000_0000_0000_0000) && (
                raw < 0x8000_0000_0000_0000 ==> ri == raw)) by (bit_vector)
                    requires
                        ri == raw as i64,
                ;
            }
            ri as i128
        } else {
            raw as i128
        };
        proof {
            assert(rawx == raw_denotes(raw, signal.value_type));
        }
        let phys = scale_raw(rawx, &signal.factor, &signal.offset);
        let unit: Option<Vec<u8>> = match &signal.unit {
            Some(u) => Some(slice_to_vec(u.as_slice())),
            None => None,
        };
        Some(
            DecodedSignal {
                name: slice_to_vec(signal.name.as_slice()),
                physical_value: phys,
                raw_value: raw,
                unit,
                timestamp: msg.timestamp,
                message_id: msg.id,
            },
        )
    }

    /// Decode every signal of the message matching the frame's id,
    /// independently and in definition order. The result is empty when no
    /// document is loaded or no message matches the id; a signal whose
    /// extraction fails is omitted, not an error.
    pub fn decode_message(&self, msg: &CanMessage) -> (r: Vec<DecodedSignal>)
        requires
            self.wf(),
        ensures
            self.doc() is None ==> r@.len() == 0,
            self.doc() matches Some(d) ==> match spec_lookup(d.messages@, msg.id) {
                None => r@.len() == 0,
                Some(m) => r.deep_view() == decode_list(
                    msg.data@,
                    msg.timestamp,
                    msg.id,
                    m.signals.deep_view(),
                    0,
                ),
            },
    {
        let dbc = match &self.dbc {
            Some(d) => d,
            None => {
                return Vec::new();
            },
        };
        let m = match dbc.get_message(msg.id) {
            Some(m) => m,
            None => {
                return Vec::new();
            },
        };
        proof {
            lemma_spec_lookup_wf(dbc.messages@, msg.id);
        }
        let ghost sv = m.signals.deep_view();
        let mut out: Vec<DecodedSignal> = Vec::new();
        let mut i: usize = 0;
        proof {
            assert(out.deep_view() + decode_list(msg.data@, msg.timestamp, msg.id, sv, 0)
                =~= decode_list(msg.data@, msg.timestamp, msg.id, sv, 0));
        }
        while i < m.signals.len()
            invariant
                i <= m.signals@.len(),
                sv == m.signals.deep_view(),
                sv.len() == m.signals@.len(),
                msg_wf(*m),
                out.deep_view() + decode_list(msg.data@, msg.timestamp, msg.id, sv, i as nat)
                    =~= decode_list(msg.data@, msg.timestamp, msg.id, sv, 0),
            decreases m.signals@.len() - i,
        {
            proof {
                assert(sv[i as int] == m.signals@[i as int]@);
            }
            match self.decode_signal(msg, &m.signals[i]) {
                Some(d) => {
                    let ghost dv = out.deep_view();
                    let ghost dvw = d@;
                    out.push(d);
                    proof {
                        assert(out.deep_view() =~~= dv.push(dvw));
                        assert(dv.push(dvw) =~= dv + seq![dvw]);
                    }
                },
                None => {},
            }
            i = i + 1;
        }
        proof {
            assert(decode_list(msg.data@, msg.timestamp, msg.id, sv, sv.len() as nat) =~= Seq::<
                DecView,
            >::empty());
            assert(out.deep_view() =~= decode_list(msg.data@, msg.timestamp, msg.id, sv, 0));
        }
        out
    }

    /// Encode a physical value into a frame's bytes: the inverse scaling
    /// `(value - offset) / factor` truncated toward zero, negative values
    /// reduced to the field's width in two's complement, written with the
    /// bit codec. The factor must not be zero; the caller guarantees it.
    pub fn encode_signal(&self, data: &mut [u8], signal: &DbcSignal, physical_value: Dec) -> (r:
        bool)
        requires
            signal.wf(),
            physical_value.wf(),
            signal.factor.mantissa != 0,
        ensures
            r == field_in_range(old(data)@, signal.start_bit, signal.bit_length),
            !r ==> final(data)@ == old(data)@,
            r ==> final(data)@ =~= insert_field(
                old(data)@,
                encode_raw_spec(physical_value, signal@),
                flat_start_bit(signal.start_bit, signal.byte_order),
                signal.bit_length as nat,
            ),
    {
        let raw128: i128 = unscale(&physical_value, &signal.factor, &signal.offset);
        let c: i64 = if raw128 > 0x7fff_ffff_ffff_ffff {
            0x7fff_ffff_ffff_ffff
        } else if raw128 < -0x8000_0000_0000_0000 {
            -0x8000_0000_0000_0000
        } else {
            raw128 as i64
        };
        let raw_unsigned: u64 = if c < 0 {
            let cu: u64 = #[verifier::truncate] (c as u64);
            proof {
                assert(cu == c + 0x1_0000_0000_0000_0000) by (bit_vector)
                    requires
                        cu == c as u64,
                        c < 0,
                ;
            }
            if signal.bit_length >= 64 {
                cu
            } else {
                proof {
                    let bl = signal.bit_length;
                    assert(1u64 << (bl as u64) >= 1) by (bit_vector)
                        requires
                            bl < 64,
                    ;
                    crate::bits::lemma_pow2_shl(bl as u64);
                    vstd::bits::lemma_u64_low_bits_mask_is_mod(cu, bl as nat);
                    assert(((1u64 << (bl as u64)) - 1) as u64 == vstd::bits::low_bits_mask(
                        bl as nat,
                    ) as u64);
                }
                cu & ((1u64 << (signal.bit_length as u64)) - 1)
            }
        } else {
            c as u64
        };
        proof {
            assert(raw_unsigned == encode_raw_spec(physical_value, signal@));
        }
        insert_bits(data, raw_unsigned, signal.start_bit, signal.bit_length, signal.byte_order)
    }
}

impl Default for SignalDecoder {
    /// A decoder with no document loaded.
    fn default() -> (r: Self)
        ensures
            r.doc() is None,
            r.wf(),
    {
        SignalDecoder::new()
    }
}

} // verus!
