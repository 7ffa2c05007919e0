//! The DBC definition model: messages, signals and value tables, with the
//! line-oriented parser for the textual DBC format, the serializer back to
//! text, the mutation API, and the semantic validation pass.
//!
//! Text is handled as bytes throughout; names, units and descriptions are
//! byte strings. Factors, offsets and ranges are exact decimals ([`Dec`]),
//! since the file writes them as decimal literals.

use vstd::prelude::*;
use vstd::slice::slice_to_vec;
use crate::bits::ByteOrder;
use crate::num::Dec;
use crate::num::parse_dec_spec;
use crate::num::parse_dec;
use crate::text::spec_tokens;
use crate::text::spec_split;
use crate::text::spec_trim;
use crate::text::parse_uint_spec;
use crate::text::tokenize;
use crate::text::split_bytes;
use crate::text::trim;
use crate::text::parse_uint;
use crate::text::bytes_eq;
use crate::text::starts_with;
use crate::text::find_from;
use crate::text::find_byte;
use crate::text::find_token_starting;

verus! {

/// Two's-complement interpretation of a signal's raw bits.
#[derive(Debug, Clone, Copy, PartialEq, Eq, Structural)]
pub enum ValueType {
    /// Signed integer (two's complement).
    Signed,
    /// Unsigned integer.
    Unsigned,
}

impl Default for ValueType {
    /// DBC signals default to an unsigned interpretation.
    fn default() -> (r: Self)
        ensures
            r == ValueType::Unsigned,
    {
        ValueType::Unsigned
    }
}

/// Multiplexor marker of a signal. Carried by the model; the decode path
/// does not consult it, so every signal of a message is decoded flatly.
#[derive(Debug, Clone, Copy, PartialEq, Eq, Structural)]
pub enum Multiplexor {
    /// This signal is the multiplexor selector.
    Signal,
    /// This signal appears when the selector holds this value.
    Value(u8),
}

/// One entry of an enumerated value mapping.
#[derive(Debug, Clone)]
pub struct ValueDescription {
    /// Numeric value.
    pub value: i64,
    /// Human-readable description.
    pub description: Vec<u8>,
}

/// A named value table: the enumerated mapping for one signal name.
#[derive(Debug, Clone)]
pub struct ValueTable {
    /// The signal name the table applies to, the key of the mapping.
    pub signal_name: Vec<u8>,
    /// The value descriptions, in file order.
    pub entries: Vec<ValueDescription>,
}

/// A signal defined in a DBC message: a named, scaled, bit-positioned
/// field of the payload.
#[derive(Debug, Clone)]
pub struct DbcSignal {
    /// Signal name, unique within its message.
    pub name: Vec<u8>,
    /// Starting bit position in DBC notation (its meaning depends on the
    /// byte order).
    pub start_bit: u8,
    /// Width of the field in bits.
    pub bit_length: u8,
    /// Byte order of the field.
    pub byte_order: ByteOrder,
    /// Signed or unsigned interpretation of the raw bits.
    pub value_type: ValueType,
    /// Scaling factor: physical = raw * factor + offset.
    pub factor: Dec,
    /// Scaling offset.
    pub offset: Dec,
    /// Declared minimum physical value, informational.
    pub minimum: Option<Dec>,
    /// Declared maximum physical value, informational.
    pub maximum: Option<Dec>,
    /// Unit string, if declared.
    pub unit: Option<Vec<u8>>,
    /// Multiplexor marker, if any; not consulted by decoding.
    pub multiplexor: Option<Multiplexor>,
}

impl DbcSignal {
    /// The decimals of the signal are well formed.
    pub open spec fn wf(self) -> bool {
        &&& self.factor.wf()
        &&& self.offset.wf()
        &&& (self.minimum matches Some(d) ==> d.wf())
        &&& (self.maximum matches Some(d) ==> d.wf())
    }

    /// A new unsigned little-endian signal with unit scaling.
    pub fn new(name: &[u8], start_bit: u8, bit_length: u8) -> (r: Self)
        ensures
            r.name@ == name@,
            r.start_bit == start_bit,
            r.bit_length == bit_length,
            r.byte_order == ByteOrder::Intel,
            r.value_type == ValueType::Unsigned,
            r.factor == (Dec { mantissa: 1, scale: 0 }),
            r.offset == (Dec { mantissa: 0, scale: 0 }),
            r.minimum is None && r.maximum is None && r.unit is None && r.multiplexor is None,
            r.wf(),
    {
        DbcSignal {
            name: slice_to_vec(name),
            start_bit,
            bit_length,
            byte_order: ByteOrder::Intel,
            value_type: ValueType::Unsigned,
            factor: Dec { mantissa: 1, scale: 0 },
            offset: Dec { mantissa: 0, scale: 0 },
            minimum: None,
            maximum: None,
            unit: None,
            multiplexor: None,
        }
    }

    /// A new signal with position, order, interpretation and scaling given.
    pub fn with_options(
        name: &[u8],
        start_bit: u8,
        bit_length: u8,
        byte_order: ByteOrder,
        value_type: ValueType,
        factor: Dec,
        offset: Dec,
    ) -> (r: Self)
        ensures
            r.name@ == name@,
            r.start_bit == start_bit,
            r.bit_length == bit_length,
            r.byte_order == byte_order,
            r.value_type == value_type,
            r.factor == factor,
            r.offset == offset,
            r.minimum is None && r.maximum is None && r.unit is None && r.multiplexor is None,
    {
        DbcSignal {
            name: slice_to_vec(name),
            start_bit,
            bit_length,
            byte_order,
            value_type,
            factor,
            offset,
            minimum: None,
            maximum: None,
            unit: None,
            multiplexor: None,
        }
    }

    /// The signal with its unit set.
    pub fn with_unit(self, unit: &[u8]) -> (r: Self)
        ensures
            r == (DbcSignal { unit: Some(r.unit->Some_0), ..self }),
            r.unit matches Some(u) && u@ == unit@,
    {
        DbcSignal { unit: Some(slice_to_vec(unit)), ..self }
    }

    /// The signal with its declared physical range set.
    pub fn with_range(self, min: Dec, max: Dec) -> (r: Self)
        ensures
            r == (DbcSignal { minimum: Some(min), maximum: Some(max), ..self }),
    {
        DbcSignal { minimum: Some(min), maximum: Some(max), ..self }
    }

    /// The raw value range of the field: zero to the all-ones pattern of
    /// its width (the full 64-bit range for a 64-bit field).
    pub fn raw_range(&self) -> (r: (u64, u64))
        ensures
            r.0 == 0,
            self.bit_length < 64 ==> r.1 as nat == vstd::arithmetic::power2::pow2(
                self.bit_length as nat,
            ) - 1,
            self.bit_length >= 64 ==> r.1 == u64::MAX,
    {
        if self.bit_length >= 64 {
            (0, u64::MAX)
        } else {
            proof {
                crate::bits::lemma_pow2_shl(self.bit_length as u64);
                vstd::arithmetic::power2::lemma_pow2_pos(self.bit_length as nat);
            }
            (0, (1u64 << (self.bit_length as u64)) - 1)
        }
    }
}

/// Do the DBC-notation bit ranges of two signals intersect? The comparison
/// uses the raw `[start, start+length)` intervals and ignores byte order,
/// an approximation for mixed-order pairs that is kept as documented
/// behaviour.
pub open spec fn signals_overlap_spec(a: DbcSignal, b: DbcSignal) -> bool {
    a.start_bit < b.start_bit + b.bit_length && b.start_bit < a.start_bit + a.bit_length
}

/// Exec test matching [`signals_overlap_spec`].
pub fn signals_overlap(a: &DbcSignal, b: &DbcSignal) -> (r: bool)
    ensures
        r == signals_overlap_spec(*a, *b),
{
    let a_start = a.start_bit as usize;
    let a_end = a_start + a.bit_length as usize;
    let b_start = b.start_bit as usize;
    let b_end = b_start + b.bit_length as usize;
    a_start < b_end && b_start < a_end
}

/// A CAN message defined in the DBC.
#[derive(Debug, Clone)]
pub struct DbcMessage {
    /// CAN message id (11-bit standard or 29-bit extended).
    pub id: u32,
    /// Message name.
    pub name: Vec<u8>,
    /// Data Length Code: the declared payload size in bytes, 0 to 8.
    pub size: u8,
    /// The signals of the message, in definition order.
    pub signals: Vec<DbcSignal>,
}

/// The first signal of the sequence carrying `name`, if any.
pub open spec fn find_signal(sigs: Seq<DbcSignal>, name: Seq<u8>) -> Option<DbcSignal>
    decreases sigs.len(),
{
    if sigs.len() == 0 {
        None
    } else if sigs[0].name@ == name {
        Some(sigs[0])
    } else {
        find_signal(sigs.drop_first(), name)
    }
}

impl DbcMessage {
    /// A new message definition without signals.
    pub fn new(id: u32, name: &[u8], size: u8) -> (r: Self)
        ensures
            r.id == id,
            r.name@ == name@,
            r.size == size,
            r.signals@ == Seq::<DbcSignal>::empty(),
    {
        DbcMessage { id, name: slice_to_vec(name), size, signals: Vec::new() }
    }

    /// Append a signal to the message.
    pub fn add_signal(&mut self, signal: DbcSignal)
        ensures
            final(self).signals@ == old(self).signals@.push(signal),
            final(self).id == old(self).id,
            final(self).name == old(self).name,
            final(self).size == old(self).size,
    {
        self.signals.push(signal);
    }

    /// The first signal with the given name, if any.
    pub fn get_signal(&self, name: &[u8]) -> (r: Option<&DbcSignal>)
        ensures
            match r {
                Some(s) => find_signal(self.signals@, name@) == Some(*s),
                None => find_signal(self.signals@, name@) is None,
            },
    {
        let mut i: usize = 0;
        proof {
            assert(self.signals@.skip(0) =~= self.signals@);
        }
        while i < self.signals.len()
            invariant
                i <= self.signals@.len(),
                find_signal(self.signals@, name@) == find_signal(
                    self.signals@.skip(i as int),
                    name@,
                ),
            decreases self.signals@.len() - i,
        {
            proof {
                assert(self.signals@.skip(i as int)[0] == self.signals@[i as int]);
                assert(self.signals@.skip(i as int).drop_first() =~= self.signals@.skip(
                    i as int + 1,
                ));
            }
            if bytes_eq(self.signals[i].name.as_slice(), name) {
                return Some(&self.signals[i]);
            }
            i = i + 1;
        }
        None
    }
}

/// Mathematical view of a [`ValueDescription`].
pub struct EntryView {
    pub value: i64,
    pub description: Seq<u8>,
}

/// Mathematical view of a [`ValueTable`].
pub struct TableView {
    pub signal_name: Seq<u8>,
    pub entries: Seq<EntryView>,
}

/// Mathematical view of a [`DbcSignal`].
pub struct SignalView {
    pub name: Seq<u8>,
    pub start_bit: u8,
    pub bit_length: u8,
    pub byte_order: ByteOrder,
    pub value_type: ValueType,
    pub factor: Dec,
    pub offset: Dec,
    pub minimum: Option<Dec>,
    pub maximum: Option<Dec>,
    pub unit: Option<Seq<u8>>,
    pub multiplexor: Option<Multiplexor>,
}

/// Mathematical view of a [`DbcMessage`].
pub struct MessageView {
    pub id: u32,
    pub name: Seq<u8>,
    pub size: u8,
    pub signals: Seq<SignalView>,
}

/// Mathematical view of a [`DbcFile`].
pub struct DocView {
    pub version: Seq<u8>,
    pub messages: Seq<MessageView>,
    pub value_tables: Seq<TableView>,
}

impl View for ValueDescription {
    type V = EntryView;

    open spec fn view(&self) -> EntryView {
        EntryView { value: self.value, description: self.description@ }
    }
}

impl DeepView for ValueDescription {
    type V = EntryView;

    open spec fn deep_view(&self) -> EntryView {
        self@
    }
}

impl View for ValueTable {
    type V = TableView;

    open spec fn view(&self) -> TableView {
        TableView { signal_name: self.signal_name@, entries: self.entries.deep_view() }
    }
}

impl DeepView for ValueTable {
    type V = TableView;

    open spec fn deep_view(&self) -> TableView {
        self@
    }
}

impl View for DbcSignal {
    type V = SignalView;

    open spec fn view(&self) -> SignalView {
        SignalView {
            name: self.name@,
            start_bit: self.start_bit,
            bit_length: self.bit_length,
            byte_order: self.byte_order,
            value_type: self.value_type,
            factor: self.factor,
            offset: self.offset,
            minimum: self.minimum,
            maximum: self.maximum,
            unit: match self.unit {
                Some(u) => Some(u@),
                None => None,
            },
            multiplexor: self.multiplexor,
        }
    }
}

impl DeepView for DbcSignal {
    type V = SignalView;

    open spec fn deep_view(&self) -> SignalView {
        self@
    }
}

impl View for DbcMessage {
    type V = MessageView;

    open spec fn view(&self) -> MessageView {
        MessageView {
            id: self.id,
            name: self.name@,
            size: self.size,
            signals: self.signals.deep_view(),
        }
    }
}

impl DeepView for DbcMessage {
    type V = MessageView;

    open spec fn deep_view(&self) -> MessageView {
        self@
    }
}

impl View for DbcFile {
    type V = DocView;

    open spec fn view(&self) -> DocView {
        DocView {
            version: self.version@,
            messages: self.messages.deep_view(),
            value_tables: self.value_tables.deep_view(),
        }
    }
}

/// The error text reported for an oversized DLC.
pub open spec fn dlc_error(m: DbcMessage) -> Seq<u8> {
    crate::text::lit_bytes("Message ") + m.name@ + crate::text::lit_bytes(" has invalid DLC: ")
        + crate::text::spec_digits(m.size as nat)
}

/// The error text reported for an overlapping pair of signals.
pub open spec fn overlap_error(m: DbcMessage, i: int, j: int) -> Seq<u8> {
    crate::text::lit_bytes("Signals '") + m.signals@[i].name@ + crate::text::lit_bytes("' and '")
        + m.signals@[j].name@ + crate::text::lit_bytes("' overlap in message ") + m.name@
}

/// The error text reported for a signal that runs past the payload.
pub open spec fn bound_error(m: DbcMessage, i: int) -> Seq<u8> {
    crate::text::lit_bytes("Signal '") + m.signals@[i].name@ + crate::text::lit_bytes(
        "' extends beyond message boundary (",
    ) + crate::text::spec_digits(
        (m.signals@[i].start_bit + m.signals@[i].bit_length) as nat,
    ) + crate::text::lit_bytes(" > ") + crate::text::spec_digits(8 * m.size as nat)
        + crate::text::lit_bytes(")")
}

/// The overlap errors of all signal pairs from `(i, j)` on, in pair order.
pub open spec fn overlap_errors_from(m: DbcMessage, i: nat, j: nat) -> Seq<Seq<u8>>
    decreases m.signals@.len() - i, m.signals@.len() - j,
{
    let n = m.signals@.len();
    if i >= n {
        Seq::empty()
    } else if j >= n {
        overlap_errors_from(m, i + 1, i + 2)
    } else {
        (if signals_overlap_spec(m.signals@[i as int], m.signals@[j as int]) {
            seq![overlap_error(m, i as int, j as int)]
        } else {
            Seq::empty()
        }) + overlap_errors_from(m, i, j + 1)
    }
}

/// The boundary errors of all signals from `i` on, in signal order.
pub open spec fn bound_errors_from(m: DbcMessage, i: nat) -> Seq<Seq<u8>>
    decreases m.signals@.len() - i,
{
    let n = m.signals@.len();
    if i >= n {
        Seq::empty()
    } else {
        (if m.signals@[i as int].start_bit + m.signals@[i as int].bit_length > 8 * m.size {
            seq![bound_error(m, i as int)]
        } else {
            Seq::empty()
        }) + bound_errors_from(m, i + 1)
    }
}

/// Everything [`DbcMessage::validate`] reports, in report order: the DLC
/// check, then every overlapping pair, then every out-of-bounds signal.
pub open spec fn validate_spec(m: DbcMessage) -> Seq<Seq<u8>> {
    (if m.size > 8 {
        seq![dlc_error(m)]
    } else {
        Seq::empty()
    }) + overlap_errors_from(m, 0, 1) + bound_errors_from(m, 0)
}

/// A message is semantically clean: DLC at most eight, no two signals
/// overlapping, every signal inside the declared payload.
pub open spec fn message_clean(m: DbcMessage) -> bool {
    &&& m.size <= 8
    &&& forall|a: int, b: int|
        0 <= a < b < m.signals@.len() ==> !signals_overlap_spec(m.signals@[a], m.signals@[b])
    &&& forall|a: int|
        0 <= a < m.signals@.len() ==> m.signals@[a].start_bit + m.signals@[a].bit_length <= 8
            * m.size
}

impl DbcMessage {
    /// Report every semantic problem of the message as a human-readable
    /// error line: an oversized DLC, each pair of signals whose
    /// DBC-notation bit ranges overlap, and each signal that extends past
    /// the declared payload. The report never blocks parsing, decoding or
    /// saving; it is empty exactly when the message is clean.
    pub fn validate(&self) -> (r: Vec<Vec<u8>>)
        ensures
            r.deep_view() == validate_spec(*self),
            r.len() == 0 <==> message_clean(*self),
    {
        let mut errors: Vec<Vec<u8>> = Vec::new();
        let n = self.signals.len();

        if self.size > 8 {
            let mut e: Vec<u8> = Vec::new();
            proof {
                reveal_strlit("Message ");
                reveal_strlit(" has invalid DLC: ");
            }
            crate::text::push_str_bytes(&mut e, "Message ");
            crate::text::push_bytes(&mut e, self.name.as_slice());
            crate::text::push_str_bytes(&mut e, " has invalid DLC: ");
            crate::text::push_digits(self.size as u64, &mut e);
            proof {
                assert(e@ =~= dlc_error(*self));
            }
            errors.push(e);
        }
        let ghost head: Seq<Seq<u8>> = errors.deep_view();
        proof {
            assert(head =~~= (if self.size > 8 {
                seq![dlc_error(*self)]
            } else {
                Seq::<Seq<u8>>::empty()
            }));
        }

        let mut i: usize = 0;
        while i < n
            invariant
                i <= n,
                n == self.signals@.len(),
                head == (if self.size > 8 {
                    seq![dlc_error(*self)]
                } else {
                    Seq::<Seq<u8>>::empty()
                }),
                errors.deep_view() + overlap_errors_from(*self, i as nat, i as nat + 1) =~= head
                    + overlap_errors_from(*self, 0, 1),
                errors.len() == 0 <==> self.size <= 8 && (forall|a: int, b: int|
                    0 <= a < b < n && a < i ==> !signals_overlap_spec(
                        self.signals@[a],
                        self.signals@[b],
                    )),
            decreases n - i,
        {
            let mut j: usize = i + 1;
            while j < n
                invariant
                    i < j <= n || (i + 1 > n && j == i + 1),
                    i < n,
                    j >= i + 1,
                    j <= n || j == i + 1,
                    n == self.signals@.len(),
                    head == (if self.size > 8 {
                        seq![dlc_error(*self)]
                    } else {
                        Seq::<Seq<u8>>::empty()
                    }),
                    errors.deep_view() + overlap_errors_from(*self, i as nat, j as nat) =~= head
                        + overlap_errors_from(*self, 0, 1),
                    errors.len() == 0 <==> self.size <= 8 && (forall|a: int, b: int|
                        0 <= a < b < n && (a < i || (a == i && b < j))
                            ==> !signals_overlap_spec(self.signals@[a], self.signals@[b])),
                decreases n - j,
            {
                if signals_overlap(&self.signals[i], &self.signals[j]) {
                    let mut e: Vec<u8> = Vec::new();
                    proof {
                        reveal_strlit("Signals '");
                        reveal_strlit("' and '");
                        reveal_strlit("' overlap in message ");
                    }
                    crate::text::push_str_bytes(&mut e, "Signals '");
                    crate::text::push_bytes(&mut e, self.signals[i].name.as_slice());
                    crate::text::push_str_bytes(&mut e, "' and '");
                    crate::text::push_bytes(&mut e, self.signals[j].name.as_slice());
                    crate::text::push_str_bytes(&mut e, "' overlap in message ");
                    crate::text::push_bytes(&mut e, self.name.as_slice());
                    proof {
                        assert(e@ =~= overlap_error(*self, i as int, j as int));
                    }
                    let ghost dv = errors.deep_view();
                    errors.push(e);
                    proof {
                        assert(errors.deep_view() =~~= dv.push(e@));
                        assert(dv.push(e@) =~= dv + seq![e@]);
                    }
                }
                j = j + 1;
            }
            i = i + 1;
        }
        proof {
            assert(overlap_errors_from(*self, n as nat, n as nat + 1) =~= Seq::<Seq<u8>>::empty());
            assert(errors.deep_view() =~= head + overlap_errors_from(*self, 0, 1));
        }
        let ghost head2: Seq<Seq<u8>> = errors.deep_view();

        let mut k: usize = 0;
        while k < n
            invariant
                k <= n,
                n == self.signals@.len(),
                head2 == head + overlap_errors_from(*self, 0, 1),
                errors.deep_view() + bound_errors_from(*self, k as nat) =~= head2
                    + bound_errors_from(*self, 0),
                errors.len() == head2.len() <==> (forall|a: int|
                    0 <= a < k ==> self.signals@[a].start_bit + self.signals@[a].bit_length <= 8
                        * self.size),
                errors.len() >= head2.len(),
                head2.len() == 0 <==> self.size <= 8 && (forall|a: int, b: int|
                    0 <= a < b < n ==> !signals_overlap_spec(self.signals@[a], self.signals@[b])),
            decreases n - k,
        {
            let s = &self.signals[k];
            let end_bit: usize = s.start_bit as usize + s.bit_length as usize;
            let max_bits: usize = 8 * self.size as usize;
            if end_bit > max_bits {
                let mut e: Vec<u8> = Vec::new();
                proof {
                    reveal_strlit("Signal '");
                    reveal_strlit("' extends beyond message boundary (");
                    reveal_strlit(" > ");
                    reveal_strlit(")");
                }
                crate::text::push_str_bytes(&mut e, "Signal '");
                crate::text::push_bytes(&mut e, self.signals[k].name.as_slice());
                crate::text::push_str_bytes(&mut e, "' extends beyond message boundary (");
                crate::text::push_digits(end_bit as u64, &mut e);
                crate::text::push_str_bytes(&mut e, " > ");
                crate::text::push_digits(max_bits as u64, &mut e);
                crate::text::push_str_bytes(&mut e, ")");
                proof {
                    assert(e@ =~= bound_error(*self, k as int));
                }
                let ghost dv = errors.deep_view();
                errors.push(e);
                proof {
                    assert(errors.deep_view() =~~= dv.push(e@));
                    assert(dv.push(e@) =~= dv + seq![e@]);
                }
            }
            k = k + 1;
        }
        proof {
            assert(errors.deep_view() =~= head2 + bound_errors_from(*self, 0));
            assert(errors.deep_view() =~~= validate_spec(*self));
        }
        errors
    }
}

/// The message that an id-keyed lookup finds: the last message of the list
/// with that id, reflecting that a later definition wins.
pub open spec fn spec_lookup(msgs: Seq<DbcMessage>, id: u32) -> Option<DbcMessage>
    decreases msgs.len(),
{
    if msgs.len() == 0 {
        None
    } else if msgs.last().id == id {
        Some(msgs.last())
    } else {
        spec_lookup(msgs.drop_last(), id)
    }
}

/// The message list with every entry of the given id removed, order kept.
pub open spec fn remove_id(msgs: Seq<DbcMessage>, id: u32) -> Seq<DbcMessage>
    decreases msgs.len(),
{
    if msgs.len() == 0 {
        Seq::empty()
    } else if msgs.last().id == id {
        remove_id(msgs.drop_last(), id)
    } else {
        remove_id(msgs.drop_last(), id).push(msgs.last())
    }
}

/// An in-memory DBC document: the version string, the messages in file
/// order, and the named value tables.
///
/// Lookup by id and the ordered list are kept consistent by construction:
/// a lookup always answers with the last message of the list carrying the
/// id, so a duplicated id serializes as both entries while lookups see the
/// later one, and removal drops every entry with the id.
#[derive(Debug, Clone)]
pub struct DbcFile {
    /// Version string of the file.
    pub version: Vec<u8>,
    /// All messages, in file order.
    pub messages: Vec<DbcMessage>,
    /// The value tables, keyed by signal name; keys are unique.
    pub value_tables: Vec<ValueTable>,
}

impl DbcFile {
    /// An empty document.
    pub fn new() -> (r: Self)
        ensures
            r.version@ == Seq::<u8>::empty(),
            r.messages@ == Seq::<DbcMessage>::empty(),
            r.value_tables@ == Seq::<ValueTable>::empty(),
    {
        DbcFile { version: Vec::new(), messages: Vec::new(), value_tables: Vec::new() }
    }

    /// Append a message; an id-keyed lookup then answers with it, any
    /// earlier message of the same id staying in the ordered list.
    pub fn add_message(&mut self, message: DbcMessage)
        ensures
            final(self).messages@ == old(self).messages@.push(message),
            final(self).version == old(self).version,
            final(self).value_tables == old(self).value_tables,
            spec_lookup(final(self).messages@, message.id) == Some(message),
    {
        self.messages.push(message);
        proof {
            assert(self.messages@.drop_last() =~= old(self).messages@);
        }
    }

    /// The message an id-keyed lookup finds: the last of the list with the
    /// given id.
    pub fn get_message(&self, id: u32) -> (r: Option<&DbcMessage>)
        ensures
            match r {
                Some(m) => spec_lookup(self.messages@, id) == Some(*m),
                None => spec_lookup(self.messages@, id) is None,
            },
    {
        let mut i: usize = self.messages.len();
        proof {
            assert(self.messages@.take(i as int) =~= self.messages@);
        }
        while i > 0
            invariant
                i <= self.messages@.len(),
                spec_lookup(self.messages@, id) == spec_lookup(
                    self.messages@.take(i as int),
                    id,
                ),
            decreases i,
        {
            proof {
                assert(self.messages@.take(i as int).last() == self.messages@[i as int - 1]);
                assert(self.messages@.take(i as int).drop_last() =~= self.messages@.take(
                    i as int - 1,
                ));
            }
            if self.messages[i - 1].id == id {
                return Some(&self.messages[i - 1]);
            }
            i = i - 1;
        }
        None
    }

    /// Remove every message with the given id from the document, returning
    /// what an id-keyed lookup would have found.
    pub fn remove_message(&mut self, id: u32) -> (r: Option<DbcMessage>)
        ensures
            final(self).messages@ == remove_id(old(self).messages@, id),
            final(self).version == old(self).version,
            final(self).value_tables == old(self).value_tables,
            r == spec_lookup(old(self).messages@, id),
    {
        let ghost orig = self.messages@;
        let mut removed: Option<DbcMessage> = None;
        let mut i: usize = 0;
        proof {
            assert(orig.take(0) =~= Seq::<DbcMessage>::empty());
            assert(orig.skip(0) =~= orig);
            assert(self.messages@ =~= remove_id(orig.take(0), id) + orig.skip(0));
        }
        let n0: usize = self.messages.len();
        let mut processed: usize = 0;
        while i < self.messages.len()
            invariant
                orig.len() == n0,
                processed <= orig.len(),
                self.version == old(self).version,
                self.value_tables == old(self).value_tables,
                self.messages@ =~= remove_id(orig.take(processed as int), id) + orig.skip(
                    processed as int,
                ),
                i == remove_id(orig.take(processed as int), id).len(),
                removed == spec_lookup(orig.take(processed as int), id),
            decreases orig.len() - processed,
        {
            proof {
                assert(processed < orig.len());
            }
            proof {
                assert(orig.take(processed as int + 1).drop_last() =~= orig.take(
                    processed as int,
                ));
                assert(orig.take(processed as int + 1).last() == orig[processed as int]);
            }
            if self.messages[i].id == id {
                let m = self.messages.remove(i);
                removed = Some(m);
                proof {
                    assert(self.messages@ =~= remove_id(orig.take(processed as int + 1), id)
                        + orig.skip(processed as int + 1));
                }
            } else {
                i = i + 1;
                proof {
                    assert(self.messages@ =~= remove_id(orig.take(processed as int + 1), id)
                        + orig.skip(processed as int + 1));
                }
            }
            processed = processed + 1;
        }
        proof {
            assert(orig.take(orig.len() as int) =~= orig);
            assert(orig.skip(orig.len() as int) =~= Seq::<DbcMessage>::empty());
            assert(self.messages@ =~= remove_id(orig, id));
        }
        removed
    }

    /// The ids of all messages, in file order, duplicates included.
    pub fn message_ids(&self) -> (r: Vec<u32>)
        ensures
            r@ == self.messages@.map_values(|m: DbcMessage| m.id),
    {
        let mut r: Vec<u32> = Vec::new();
        let mut i: usize = 0;
        while i < self.messages.len()
            invariant
                i <= self.messages@.len(),
                r@ =~= self.messages@.take(i as int).map_values(|m: DbcMessage| m.id),
            decreases self.messages@.len() - i,
        {
            r.push(self.messages[i].id);
            proof {
                assert(r@ =~= self.messages@.take(i as int + 1).map_values(
                    |m: DbcMessage| m.id,
                ));
            }
            i = i + 1;
        }
        proof {
            assert(self.messages@.take(self.messages@.len() as int) =~= self.messages@);
        }
        r
    }

    /// Whether the document defines no message.
    pub fn is_empty(&self) -> (r: bool)
        ensures
            r == (self.messages@.len() == 0),
    {
        self.messages.len() == 0
    }
}

/// What parsing the order-and-sign suffix of a signal line yields, for a
/// token such as `@1+`: after the `@`, the digit `0` means big-endian and
/// `1` little-endian, then `+` means unsigned and `-` signed; anything
/// else fails.
pub open spec fn parse_order_and_type_spec(s: Seq<u8>) -> Option<(ByteOrder, ValueType)> {
    if s.len() < 3 || s[0] != 64 {
        None
    } else {
        let bo = if s[1] == 48 {
            Some(ByteOrder::Motorola)
        } else if s[1] == 49 {
            Some(ByteOrder::Intel)
        } else {
            None
        };
        let vt = if s[2] == 43 {
            Some(ValueType::Unsigned)
        } else if s[2] == 45 {
            Some(ValueType::Signed)
        } else {
            None
        };
        match (bo, vt) {
            (Some(b), Some(v)) => Some((b, v)),
            _ => None,
        }
    }
}

/// Parse the byte order and value type from a suffix such as `@1+`.
pub fn parse_order_and_type(s: &[u8]) -> (r: Option<(ByteOrder, ValueType)>)
    ensures
        r == parse_order_and_type_spec(s@),
{
    if s.len() < 3 || s[0] != 64 {
        return None;
    }
    let bo = if s[1] == 48 {
        ByteOrder::Motorola
    } else if s[1] == 49 {
        ByteOrder::Intel
    } else {
        return None;
    };
    let vt = if s[2] == 43 {
        ValueType::Unsigned
    } else if s[2] == 45 {
        ValueType::Signed
    } else {
        return None;
    };
    Some((bo, vt))
}

/// What parsing a bracketed range such as `[0|255]` yields: the brackets
/// are stripped, the remainder split at `|`, and each side read as a
/// decimal; a side that fails to parse is left unset.
pub open spec fn parse_min_max_spec(s: Seq<u8>) -> (Option<Dec>, Option<Dec>) {
    let t = crate::text::spec_strip_ends(s, 91, 93);
    let parts = spec_split(t, 124);
    if parts.len() != 2 {
        (None, None)
    } else {
        (parse_dec_spec(parts[0]), parse_dec_spec(parts[1]))
    }
}

/// Parse the declared physical range from a token such as `[0|255]`.
pub fn parse_min_max(s: &[u8]) -> (r: (Option<Dec>, Option<Dec>))
    ensures
        r == parse_min_max_spec(s@),
        r.0 matches Some(d) ==> d.wf(),
        r.1 matches Some(d) ==> d.wf(),
{
    let t = crate::text::strip_ends(s, 91, 93);
    let parts = split_bytes(t.as_slice(), 124);
    if parts.len() != 2 {
        (None, None)
    } else {
        proof {
            assert(parts.deep_view()[0] == parts@[0]@);
            assert(parts.deep_view()[1] == parts@[1]@);
        }
        (parse_dec(parts[0].as_slice()), parse_dec(parts[1].as_slice()))
    }
}

/// What parsing a message line yields, for a line such as
/// `BO_ 256 StatusMessage: 8 Vector__XXX`: the keyword, a 32-bit id, the
/// name (trailing colon dropped), and the size in bytes; with fewer than
/// four tokens, a wrong keyword or an unreadable number the line fails.
pub open spec fn parse_message_line_spec(line: Seq<u8>) -> Option<MessageView> {
    let parts = spec_tokens(line);
    if parts.len() < 4 || parts[0] != crate::text::lit_bytes("BO_") {
        None
    } else {
        match parse_uint_spec(parts[1], 0xffff_ffff) {
            None => None,
            Some(id) => match parse_uint_spec(parts[3], 0xff) {
                None => None,
                Some(size) => Some(
                    MessageView {
                        id: id as u32,
                        name: crate::text::spec_strip_ends(parts[2], 58, 58),
                        size: size as u8,
                        signals: Seq::empty(),
                    },
                ),
            },
        }
    }
}

/// Parse a `BO_` message definition line.
pub fn parse_message_line(line: &[u8]) -> (r: Option<DbcMessage>)
    ensures
        match r {
            Some(m) => parse_message_line_spec(line@) == Some(m@),
            None => parse_message_line_spec(line@) is None,
        },
{
    let parts = tokenize(line);
    proof {
        reveal_strlit("BO_");
    }
    if parts.len() < 4 {
        return None;
    }
    proof {
        assert(parts.deep_view()[0] == parts@[0]@);
        assert(parts.deep_view()[1] == parts@[1]@);
        assert(parts.deep_view()[2] == parts@[2]@);
        assert(parts.deep_view()[3] == parts@[3]@);
    }
    let kw: [u8; 3] = [66, 79, 95];
    if !bytes_eq(parts[0].as_slice(), kw.as_slice()) {
        proof {
            assert(kw@ =~= crate::text::lit_bytes("BO_"));
        }
        return None;
    }
    proof {
        assert(kw@ =~= crate::text::lit_bytes("BO_"));
    }
    let id: u32 = match parse_uint(parts[1].as_slice(), 0xffff_ffff) {
        Some(v) => v as u32,
        None => {
            return None;
        },
    };
    let size: u8 = match parse_uint(parts[3].as_slice(), 0xff) {
        Some(v) => v as u8,
        None => {
            return None;
        },
    };
    let name = crate::text::strip_ends(parts[2].as_slice(), 58, 58);
    let m = DbcMessage { id, name, size, signals: Vec::new() };
    proof {
        assert(m@.signals =~= Seq::<SignalView>::empty());
    }
    Some(m)
}

/// The factor and offset of a signal line: the first parenthesised token,
/// split at the comma. Without such a token, or with a comma count other
/// than one, the factor defaults to one and the offset to zero; a
/// malformed decimal fails the signal.
pub open spec fn factor_offset_of(parts: Seq<Seq<u8>>) -> Option<(Dec, Dec)> {
    match crate::text::find_tok_start(parts, 0, 40) {
        None => Some((Dec { mantissa: 1, scale: 0 }, Dec { mantissa: 0, scale: 0 })),
        Some(k) => {
            let fo = crate::text::spec_strip_ends(parts[k as int], 40, 41);
            let fops = spec_split(fo, 44);
            if fops.len() != 2 {
                Some((Dec { mantissa: 1, scale: 0 }, Dec { mantissa: 0, scale: 0 }))
            } else {
                match (parse_dec_spec(fops[0]), parse_dec_spec(fops[1])) {
                    (Some(f), Some(o)) => Some((f, o)),
                    _ => None,
                }
            }
        },
    }
}

/// The declared range of a signal line: the first bracketed token, if any.
pub open spec fn min_max_of(parts: Seq<Seq<u8>>) -> (Option<Dec>, Option<Dec>) {
    match crate::text::find_tok_start(parts, 0, 91) {
        None => (None, None),
        Some(k) => parse_min_max_spec(parts[k as int]),
    }
}

/// The unit of a signal line: the first quoted token, quotes stripped.
pub open spec fn unit_of(parts: Seq<Seq<u8>>) -> Option<Seq<u8>> {
    match crate::text::find_tok_start(parts, 0, 34) {
        None => None,
        Some(k) => Some(crate::text::spec_strip_ends(parts[k as int], 34, 34)),
    }
}

/// What parsing a signal line yields, for a line such as
/// `SG_ Speed : 0|16@1+ (0.1,0) [0|6553.5] "km/h" Vector__XXX`: the name
/// before the colon, then position `start|length` and the order-and-sign
/// suffix, then factor and offset, range and unit where present.
pub open spec fn parse_signal_line_spec(line: Seq<u8>) -> Option<SignalView> {
    if !(line.len() >= 4 && line.subrange(0, 4) == crate::text::lit_bytes("SG_ ")) {
        None
    } else {
        let rest = line.skip(4);
        match find_from(rest, 0, 58) {
            None => None,
            Some(colon) => {
                let name_toks = spec_tokens(rest.take(colon as int));
                let parts = spec_tokens(rest.skip(colon as int + 1));
                if name_toks.len() == 0 || parts.len() == 0 {
                    None
                } else {
                    let bit_info = parts[0];
                    match find_from(bit_info, 0, 64) {
                        None => None,
                        Some(at) => {
                            let bps = spec_split(bit_info.take(at as int), 124);
                            if bps.len() != 2 {
                                None
                            } else {
                                match (
                                    parse_uint_spec(bps[0], 0xff),
                                    parse_uint_spec(bps[1], 0xff),
                                    parse_order_and_type_spec(bit_info.skip(at as int)),
                                    factor_offset_of(parts),
                                ) {
                                    (Some(sb), Some(bl), Some((bo, vt)), Some((f, o))) => {
                                        let mm = min_max_of(parts);
                                        Some(
                                            SignalView {
                                                name: name_toks[0],
                                                start_bit: sb as u8,
                                                bit_length: bl as u8,
                                                byte_order: bo,
                                                value_type: vt,
                                                factor: f,
                                                offset: o,
                                                minimum: mm.0,
                                                maximum: mm.1,
                                                unit: unit_of(parts),
                                                multiplexor: None,
                                            },
                                        )
                                    },
                                    _ => None,
                                }
                            }
                        },
                    }
                }
            },
        }
    }
}

/// Parse an `SG_` signal definition line.
pub fn parse_signal_line(line: &[u8]) -> (r: Option<DbcSignal>)
    ensures
        match r {
            Some(s) => parse_signal_line_spec(line@) == Some(s@) && s.wf(),
            None => parse_signal_line_spec(line@) is None,
        },
{
    proof {
        reveal_strlit("SG_ ");
    }
    let kw: [u8; 4] = [83, 71, 95, 32];
    proof {
        assert(kw@ =~= crate::text::lit_bytes("SG_ "));
    }
    if !starts_with(line, kw.as_slice()) {
        return None;
    }
    let rest = vstd::slice::slice_subrange(line, 4, line.len());
    proof {
        assert(rest@ =~= line@.skip(4));
    }
    let colon = match find_byte(rest, 58) {
        Some(c) => c,
        None => {
            return None;
        },
    };
    let name_part = vstd::slice::slice_subrange(rest, 0, colon);
    let after = vstd::slice::slice_subrange(rest, colon + 1, rest.len());
    proof {
        assert(name_part@ =~= rest@.take(colon as int));
        assert(after@ =~= rest@.skip(colon as int + 1));
    }
    let name_toks = tokenize(name_part);
    let parts = tokenize(after);
    if name_toks.len() == 0 || parts.len() == 0 {
        proof {
            assert(name_toks.deep_view().len() == name_toks@.len());
            assert(parts.deep_view().len() == parts@.len());
        }
        return None;
    }
    proof {
        assert(parts.deep_view()[0] == parts@[0]@);
        assert(name_toks.deep_view()[0] == name_toks@[0]@);
    }
    let bit_info = &parts[0];
    let at = match find_byte(bit_info.as_slice(), 64) {
        Some(a) => a,
        None => {
            return None;
        },
    };
    let bit_part = vstd::slice::slice_subrange(bit_info.as_slice(), 0, at);
    let order_type = vstd::slice::slice_subrange(bit_info.as_slice(), at, bit_info.len());
    proof {
        assert(bit_part@ =~= bit_info@.take(at as int));
        assert(order_type@ =~= bit_info@.skip(at as int));
    }
    let bps = split_bytes(bit_part, 124);
    if bps.len() != 2 {
        return None;
    }
    proof {
        assert(bps.deep_view()[0] == bps@[0]@);
        assert(bps.deep_view()[1] == bps@[1]@);
    }
    let start_bit: u8 = match parse_uint(bps[0].as_slice(), 0xff) {
        Some(v) => v as u8,
        None => {
            return None;
        },
    };
    let bit_length: u8 = match parse_uint(bps[1].as_slice(), 0xff) {
        Some(v) => v as u8,
        None => {
            return None;
        },
    };
    let (byte_order, value_type) = match parse_order_and_type(order_type) {
        Some(ov) => ov,
        None => {
            return None;
        },
    };
    let (factor, offset): (Dec, Dec) = match find_token_starting(&parts, 40) {
        None => (Dec { mantissa: 1, scale: 0 }, Dec { mantissa: 0, scale: 0 }),
        Some(k) => {
            proof {
                assert(parts.deep_view()[k as int] == parts@[k as int]@);
            }
            let fo = crate::text::strip_ends(parts[k].as_slice(), 40, 41);
            let fops = split_bytes(fo.as_slice(), 44);
            if fops.len() != 2 {
                (Dec { mantissa: 1, scale: 0 }, Dec { mantissa: 0, scale: 0 })
            } else {
                proof {
                    assert(fops.deep_view()[0] == fops@[0]@);
                    assert(fops.deep_view()[1] == fops@[1]@);
                }
                let f = match parse_dec(fops[0].as_slice()) {
                    Some(f) => f,
                    None => {
                        return None;
                    },
                };
                let o = match parse_dec(fops[1].as_slice()) {
                    Some(o) => o,
                    None => {
                        return None;
                    },
                };
                (f, o)
            }
        },
    };
    let (minimum, maximum): (Option<Dec>, Option<Dec>) = match find_token_starting(&parts, 91) {
        None => (None, None),
        Some(k) => {
            proof {
                assert(parts.deep_view()[k as int] == parts@[k as int]@);
            }
            parse_min_max(parts[k].as_slice())
        },
    };
    let unit: Option<Vec<u8>> = match find_token_starting(&parts, 34) {
        None => None,
        Some(k) => {
            proof {
                assert(parts.deep_view()[k as int] == parts@[k as int]@);
            }
            Some(crate::text::strip_ends(parts[k].as_slice(), 34, 34))
        },
    };
    let name: Vec<u8> = slice_to_vec(name_toks[0].as_slice());
    Some(
        DbcSignal {
            name,
            start_bit,
            bit_length,
            byte_order,
            value_type,
            factor,
            offset,
            minimum,
            maximum,
            unit,
            multiplexor: None,
        },
    )
}

/// The value/description pairs of a `VAL_` line, read from the pieces the
/// line splits into at each quote: piece `i` ends with the value, piece
/// `i+1` is the quoted description; a pair whose value does not read as an
/// integer is dropped.
pub open spec fn val_entries(parts: Seq<Seq<u8>>, i: nat) -> Seq<EntryView>
    decreases parts.len() - i,
{
    if i + 1 >= parts.len() {
        Seq::empty()
    } else {
        let toks = spec_tokens(parts[i as int]);
        let v = if toks.len() == 0 {
            None
        } else {
            crate::text::parse_i64_spec(toks.last())
        };
        let rest = val_entries(parts, i + 2);
        match v {
            Some(x) => seq![EntryView { value: x, description: parts[i as int + 1] }] + rest,
            None => rest,
        }
    }
}

/// What parsing a `VAL_` line yields, for a line such as
/// `VAL_ 256 Status 0 "Off" 1 "On" ;`: the signal name is the second
/// whitespace token before the first quote, and each following pair of an
/// integer and a quoted string becomes one value description. A line with
/// fewer than two quotes, fewer than three leading tokens, or no readable
/// pair fails.
pub open spec fn parse_val_line_spec(line: Seq<u8>) -> Option<(Seq<u8>, Seq<EntryView>)> {
    if !(line.len() >= 5 && line.subrange(0, 5) == crate::text::lit_bytes("VAL_ ")) {
        None
    } else {
        let rest = line.skip(5);
        let parts = spec_split(rest, 34);
        if parts.len() < 3 {
            None
        } else {
            let first = spec_tokens(parts[0]);
            if first.len() < 3 {
                None
            } else {
                let vals = val_entries(parts, 0);
                if vals.len() == 0 {
                    None
                } else {
                    Some((first[1], vals))
                }
            }
        }
    }
}

/// Parse a `VAL_` value-table line into the signal name and its entries.
pub fn parse_val_line(line: &[u8]) -> (r: Option<(Vec<u8>, Vec<ValueDescription>)>)
    ensures
        match r {
            Some((n, v)) => parse_val_line_spec(line@) == Some((n@, v.deep_view())),
            None => parse_val_line_spec(line@) is None,
        },
{
    proof {
        reveal_strlit("VAL_ ");
    }
    let kw: [u8; 5] = [86, 65, 76, 95, 32];
    proof {
        assert(kw@ =~= crate::text::lit_bytes("VAL_ "));
    }
    if !starts_with(line, kw.as_slice()) {
        return None;
    }
    let rest = vstd::slice::slice_subrange(line, 5, line.len());
    proof {
        assert(rest@ =~= line@.skip(5));
    }
    let parts = split_bytes(rest, 34);
    let ghost pv = parts.deep_view();
    if parts.len() < 3 {
        proof {
            assert(pv.len() == parts@.len());
        }
        return None;
    }
    proof {
        assert(pv[0] == parts@[0]@);
    }
    let first = tokenize(parts[0].as_slice());
    if first.len() < 3 {
        proof {
            assert(first.deep_view().len() == first@.len());
        }
        return None;
    }
    proof {
        assert(first.deep_view()[1] == first@[1]@);
    }
    let signal_name: Vec<u8> = slice_to_vec(first[1].as_slice());

    let mut values: Vec<ValueDescription> = Vec::new();
    let mut i: usize = 0;
    proof {
        assert(values.deep_view() + val_entries(pv, 0) =~= val_entries(pv, 0));
    }
    while i < parts.len() - 1
        invariant
            pv == parts.deep_view(),
            pv.len() == parts@.len(),
            parts@.len() >= 3,
            values.deep_view() + val_entries(pv, i as nat) =~= val_entries(pv, 0),
        decreases parts@.len() + 1 - i,
    {
        proof {
            assert(pv[i as int] == parts@[i as int]@);
            assert(pv[i as int + 1] == parts@[i as int + 1]@);
        }
        let toks = tokenize(parts[i].as_slice());
        if toks.len() > 0 {
            proof {
                assert(toks.deep_view().len() == toks@.len());
                assert(toks.deep_view()[toks@.len() - 1] == toks@[toks@.len() - 1]@);
                assert(toks.deep_view().last() == toks@[toks@.len() - 1]@);
            }
            match crate::text::parse_i64(toks[toks.len() - 1].as_slice()) {
                Some(v) => {
                    let d = ValueDescription {
                        value: v,
                        description: slice_to_vec(parts[i + 1].as_slice()),
                    };
                    let ghost dv = values.deep_view();
                    values.push(d);
                    proof {
                        assert(values.deep_view() =~~= dv.push(d@));
                        assert(dv.push(d@) =~= dv + seq![d@]);
                    }
                },
                None => {},
            }
        }
        i = i + 2;
    }
    proof {
        assert(val_entries(pv, i as nat) =~= Seq::<EntryView>::empty());
        assert(values.deep_view() =~= val_entries(pv, 0));
    }
    if values.len() == 0 {
        proof {
            assert(values.deep_view().len() == values@.len());
        }
        return None;
    }
    Some((signal_name, values))
}

/// Every signal of the message has well-formed decimals.
pub open spec fn msg_wf(m: DbcMessage) -> bool {
    forall|j: int| 0 <= j < m.signals@.len() ==> (#[trigger] m.signals@[j]).wf()
}

/// The value tables with the table for `name` replaced, or appended if no
/// table carries the name yet: the insertion of a keyed mapping, keeping
/// keys unique and first-insertion order.
pub open spec fn vt_insert(tables: Seq<TableView>, name: Seq<u8>, entries: Seq<EntryView>) -> Seq<
    TableView,
>
    decreases tables.len(),
{
    if tables.len() == 0 {
        seq![TableView { signal_name: name, entries }]
    } else if tables[0].signal_name == name {
        seq![TableView { signal_name: name, entries }] + tables.drop_first()
    } else {
        seq![tables[0]] + vt_insert(tables.drop_first(), name, entries)
    }
}

/// The effect of one line on the document being parsed: a `VERSION` line
/// sets the version, a `BO_` line opens a new message, an `SG_` line adds
/// a signal to the most recently opened message, a `VAL_` line inserts a
/// value table; every other line, and every line that fails its own
/// grammar, changes nothing.
pub open spec fn parse_line_step(doc: DocView, line: Seq<u8>) -> DocView {
    let l = spec_trim(line);
    if l.len() >= 7 && l.subrange(0, 7) == crate::text::lit_bytes("VERSION") {
        let v = if l.len() >= 8 && l.subrange(0, 8) == crate::text::lit_bytes("VERSION ") {
            crate::text::spec_strip_ends(l.skip(8), 34, 34)
        } else {
            Seq::empty()
        };
        DocView { version: v, ..doc }
    } else if l.len() >= 4 && l.subrange(0, 4) == crate::text::lit_bytes("BO_ ") {
        match parse_message_line_spec(l) {
            Some(m) => DocView { messages: doc.messages.push(m), ..doc },
            None => doc,
        }
    } else if l.len() >= 4 && l.subrange(0, 4) == crate::text::lit_bytes("SG_ ") {
        if doc.messages.len() == 0 {
            doc
        } else {
            match parse_signal_line_spec(l) {
                Some(s) => {
                    let m = doc.messages.last();
                    DocView {
                        messages: doc.messages.drop_last().push(
                            MessageView { signals: m.signals.push(s), ..m },
                        ),
                        ..doc
                    }
                },
                None => doc,
            }
        }
    } else if l.len() >= 5 && l.subrange(0, 5) == crate::text::lit_bytes("VAL_ ") {
        match parse_val_line_spec(l) {
            Some((n, vs)) => DocView { value_tables: vt_insert(doc.value_tables, n, vs), ..doc },
            None => doc,
        }
    } else {
        doc
    }
}

/// The document after folding the lines from `i` on into `doc`.
pub open spec fn parse_lines(lines: Seq<Seq<u8>>, i: nat, doc: DocView) -> DocView
    decreases lines.len() - i,
{
    if i >= lines.len() {
        doc
    } else {
        parse_lines(lines, i + 1, parse_line_step(doc, lines[i as int]))
    }
}

/// What parsing a whole DBC text yields: the empty document folded over
/// the text's lines. Parsing never fails; lines that fit no record are
/// skipped.
pub open spec fn parse_doc_spec(content: Seq<u8>) -> DocView {
    parse_lines(
        spec_split(content, 10),
        0,
        DocView { version: Seq::empty(), messages: Seq::empty(), value_tables: Seq::empty() },
    )
}

impl DbcFile {
    /// Every signal of every message has well-formed decimals.
    pub open spec fn wf(self) -> bool {
        forall|i: int| 0 <= i < self.messages@.len() ==> msg_wf(#[trigger] self.messages@[i])
    }

    /// Insert or replace the value table for a signal name.
    pub fn set_value_table(&mut self, name: Vec<u8>, entries: Vec<ValueDescription>)
        ensures
            final(self).value_tables.deep_view() == vt_insert(
                old(self).value_tables.deep_view(),
                name@,
                entries.deep_view(),
            ),
            final(self).version == old(self).version,
            final(self).messages == old(self).messages,
    {
        let ghost tv = self.value_tables.deep_view();
        let mut i: usize = 0;
        proof {
            assert(tv.skip(0) =~= tv);
            assert(tv.take(0) =~= Seq::<TableView>::empty());
        }
        while i < self.value_tables.len()
            invariant
                i <= self.value_tables@.len(),
                tv == self.value_tables.deep_view(),
                tv.len() == self.value_tables@.len(),
                self.version == old(self).version,
                self.messages == old(self).messages,
                self.value_tables == old(self).value_tables,
                vt_insert(tv, name@, entries.deep_view()) =~= tv.take(i as int) + vt_insert(
                    tv.skip(i as int),
                    name@,
                    entries.deep_view(),
                ),
                forall|j: int| 0 <= j < i ==> tv[j].signal_name != name@,
            decreases self.value_tables@.len() - i,
        {
            proof {
                assert(tv[i as int] == self.value_tables@[i as int]@);
                assert(tv.skip(i as int)[0] == tv[i as int]);
                assert(tv.skip(i as int).drop_first() =~= tv.skip(i as int + 1));
            }
            if bytes_eq(self.value_tables[i].signal_name.as_slice(), name.as_slice()) {
                let t = ValueTable { signal_name: name, entries };
                let ghost t_view = t@;
                self.value_tables.set(i, t);
                proof {
                    assert(vt_insert(tv.skip(i as int), name@, entries.deep_view()) =~= seq![
                        t_view,
                    ] + tv.skip(i as int + 1));
                    assert(self.value_tables.deep_view() =~~= tv.update(i as int, t_view));
                    assert(tv.update(i as int, t_view) =~= tv.take(i as int) + (seq![t_view]
                        + tv.skip(i as int + 1)));
                }
                return ;
            }
            proof {
                assert(tv.take(i as int + 1) =~= tv.take(i as int) + seq![tv[i as int]]);
                assert(tv.take(i as int) + (seq![tv[i as int]] + vt_insert(
                    tv.skip(i as int + 1),
                    name@,
                    entries.deep_view(),
                )) =~= tv.take(i as int + 1) + vt_insert(
                    tv.skip(i as int + 1),
                    name@,
                    entries.deep_view(),
                ));
            }
            i = i + 1;
        }
        let t = ValueTable { signal_name: name, entries };
        let ghost t_view = t@;
        self.value_tables.push(t);
        proof {
            assert(tv.skip(tv.len() as int) =~= Seq::<TableView>::empty());
            assert(vt_insert(tv.skip(tv.len() as int), name@, entries.deep_view()) =~= seq![
                t_view,
            ]);
            assert(tv.take(tv.len() as int) =~= tv);
            assert(self.value_tables.deep_view() =~~= tv.push(t_view));
            assert(tv.push(t_view) =~= tv + seq![t_view]);
        }
    }

    /// Parse a DBC text into a document. Parsing is permissive and total:
    /// a line that fits no record of the grammar is skipped, and the
    /// resulting document holds exactly what the well-formed lines said,
    /// in their order.
    pub fn parse(content: &[u8]) -> (r: DbcFile)
        ensures
            r@ == parse_doc_spec(content@),
            r.wf(),
    {
        proof {
            reveal_strlit("VERSION");
            reveal_strlit("VERSION ");
            reveal_strlit("BO_ ");
            reveal_strlit("SG_ ");
            reveal_strlit("VAL_ ");
        }
        let kw_version: [u8; 7] = [86, 69, 82, 83, 73, 79, 78];
        let kw_version_sp: [u8; 8] = [86, 69, 82, 83, 73, 79, 78, 32];
        let kw_bo: [u8; 4] = [66, 79, 95, 32];
        let kw_sg: [u8; 4] = [83, 71, 95, 32];
        let kw_val: [u8; 5] = [86, 65, 76, 95, 32];
        proof {
            assert(kw_version@ =~= crate::text::lit_bytes("VERSION"));
            assert(kw_version_sp@ =~= crate::text::lit_bytes("VERSION "));
            assert(kw_bo@ =~= crate::text::lit_bytes("BO_ "));
            assert(kw_sg@ =~= crate::text::lit_bytes("SG_ "));
            assert(kw_val@ =~= crate::text::lit_bytes("VAL_ "));
        }
        broadcast use vstd::array::group_array_axioms;

        let lines = split_bytes(content, 10);
        let ghost lv = lines.deep_view();
        let mut doc = DbcFile::new();
        let mut i: usize = 0;
        proof {
            assert(doc@ == (DocView {
                version: Seq::<u8>::empty(),
                messages: Seq::<MessageView>::empty(),
                value_tables: Seq::<TableView>::empty(),
            })) by {
                assert(doc@.version =~= Seq::<u8>::empty());
                assert(doc@.messages =~~= Seq::<MessageView>::empty());
                assert(doc@.value_tables =~~= Seq::<TableView>::empty());
            }
        }
        while i < lines.len()
            invariant
                i <= lines@.len(),
                lv == lines.deep_view(),
                lv.len() == lines@.len(),
                parse_lines(lv, i as nat, doc@) == parse_doc_spec(content@),
                doc.wf(),
                kw_version@ == crate::text::lit_bytes("VERSION"),
                kw_version_sp@ == crate::text::lit_bytes("VERSION "),
                kw_bo@ == crate::text::lit_bytes("BO_ "),
                kw_sg@ == crate::text::lit_bytes("SG_ "),
                kw_val@ == crate::text::lit_bytes("VAL_ "),
            decreases lines@.len() - i,
        {
            proof {
                reveal_strlit("VERSION");
                reveal_strlit("VERSION ");
                reveal_strlit("BO_ ");
                reveal_strlit("SG_ ");
                reveal_strlit("VAL_ ");
                assert(lv[i as int] == lines@[i as int]@);
            }
            let ghost pre = doc@;
            let line = trim(lines[i].as_slice());
            let l = line.as_slice();
            if starts_with(l, kw_version.as_slice()) {
                if starts_with(l, kw_version_sp.as_slice()) {
                    let v = vstd::slice::slice_subrange(l, 8, line.len());
                    proof {
                        assert(v@ =~= l@.skip(8));
                    }
                    doc.version = crate::text::strip_ends(v, 34, 34);
                } else {
                    doc.version = Vec::new();
                    proof {
                        assert(doc.version@ =~= Seq::<u8>::empty());
                    }
                }
                proof {
                    assert(line@ == spec_trim(lv[i as int]));
                    assert(l@.len() >= 7 && l@.subrange(0, 7) == crate::text::lit_bytes(
                        "VERSION",
                    ));
                    assert(doc@.messages == pre.messages);
                    assert(doc@.value_tables == pre.value_tables);
                    assert(doc@.version == parse_line_step(pre, lv[i as int]).version);
                    assert(doc@ == parse_line_step(pre, lv[i as int]));
                }
            } else if starts_with(l, kw_bo.as_slice()) {
                match parse_message_line(l) {
                    Some(m) => {
                        let ghost mv = m@;
                        let ghost dvm = doc.messages.deep_view();
                        proof {
                            assert(mv.signals.len() == 0);
                            assert(m.signals.deep_view() == mv.signals);
                            assert(m.signals@.len() == 0);
                            assert(msg_wf(m));
                        }
                        doc.messages.push(m);
                        proof {
                            assert(doc.messages.deep_view() =~~= dvm.push(mv));
                        }
                    },
                    None => {},
                }
                proof {
                    assert(doc@ == parse_line_step(pre, lv[i as int]));
                }
            } else if starts_with(l, kw_sg.as_slice()) {
                if doc.messages.len() > 0 {
                    match parse_signal_line(l) {
                        Some(s) => {
                            let ghost sv = s@;
                            let ghost dvm = doc.messages.deep_view();
                            let mut m = match doc.messages.pop() {
                                Some(m) => m,
                                None => {
                                    proof {
                                        assert(false);
                                    }
                                    DbcMessage { id: 0, name: Vec::new(), size: 0, signals: Vec::new() }
                                },
                            };
                            let ghost sigs = m.signals.deep_view();
                            m.signals.push(s);
                            proof {
                                assert(m.signals.deep_view() =~~= sigs.push(sv));
                            }
                            doc.messages.push(m);
                            proof {
                                assert(doc.messages.deep_view() =~~= dvm.drop_last().push(
                                    MessageView { signals: dvm.last().signals.push(sv), ..dvm.last() },
                                ));
                            }
                        },
                        None => {},
                    }
                }
                proof {
                    assert(doc@ == parse_line_step(pre, lv[i as int]));
                }
            } else if starts_with(l, kw_val.as_slice()) {
                match parse_val_line(l) {
                    Some((n, vs)) => {
                        doc.set_value_table(n, vs);
                    },
                    None => {},
                }
                proof {
                    assert(doc@ == parse_line_step(pre, lv[i as int]));
                }
            } else {
                proof {
                    assert(doc@ == parse_line_step(pre, lv[i as int]));
                }
            }
            i = i + 1;
        }
        doc
    }
}

/// The byte-order digit of a serialized signal: `0` big-endian, `1`
/// little-endian.
pub open spec fn order_byte(o: ByteOrder) -> Seq<u8> {
    match o {
        ByteOrder::Motorola => seq![48u8],
        ByteOrder::Intel => seq![49u8],
    }
}

/// The sign character of a serialized signal: `+` unsigned, `-` signed.
pub open spec fn sign_byte(v: ValueType) -> Seq<u8> {
    match v {
        ValueType::Signed => seq![45u8],
        ValueType::Unsigned => seq![43u8],
    }
}

/// A signed integer in decimal text.
pub open spec fn render_i64(v: i64) -> Seq<u8> {
    if v < 0 {
        seq![45u8] + crate::text::spec_digits((-(v as int)) as nat)
    } else {
        crate::text::spec_digits(v as nat)
    }
}

/// An unset range bound serializes as zero.
pub open spec fn bound_or_zero(d: Option<Dec>) -> Dec {
    match d {
        Some(x) => x,
        None => Dec { mantissa: 0, scale: 0 },
    }
}

/// An unset unit serializes as the empty string.
pub open spec fn unit_or_empty(u: Option<Seq<u8>>) -> Seq<u8> {
    match u {
        Some(x) => x,
        None => Seq::empty(),
    }
}

/// The name and bit-position part of a serialized signal line.
pub open spec fn sig_pos(s: SignalView) -> Seq<u8> {
    crate::text::lit_bytes(" SG_ ") + s.name + crate::text::lit_bytes(" : ")
        + crate::text::spec_digits(s.start_bit as nat) + seq![124u8] + crate::text::spec_digits(
        s.bit_length as nat,
    ) + seq![64u8] + order_byte(s.byte_order) + sign_byte(s.value_type)
}

/// The scaling and range part of a serialized signal line.
pub open spec fn sig_scale(s: SignalView) -> Seq<u8> {
    crate::text::lit_bytes(" (") + crate::num::render_dec_spec(s.factor) + seq![44u8]
        + crate::num::render_dec_spec(s.offset) + crate::text::lit_bytes(") [")
        + crate::num::render_dec_spec(bound_or_zero(s.minimum)) + seq![124u8]
        + crate::num::render_dec_spec(bound_or_zero(s.maximum))
}

/// The unit and receiver part of a serialized signal line.
pub open spec fn sig_tail(s: SignalView) -> Seq<u8> {
    crate::text::lit_bytes("] \"") + unit_or_empty(s.unit) + crate::text::lit_bytes(
        "\" Vector__XXX\n",
    )
}

/// How one signal serializes, exactly the line the parser reads back.
pub open spec fn render_signal(s: SignalView) -> Seq<u8> {
    sig_pos(s) + sig_scale(s) + sig_tail(s)
}

/// The serialization of the signals from `i` on, in order.
pub open spec fn render_signals(sigs: Seq<SignalView>, i: nat) -> Seq<u8>
    decreases sigs.len() - i,
{
    if i >= sigs.len() {
        Seq::empty()
    } else {
        render_signal(sigs[i as int]) + render_signals(sigs, i + 1)
    }
}

/// How one message serializes: its `BO_` line, its signal lines, and a
/// blank line.
pub open spec fn render_message(m: MessageView) -> Seq<u8> {
    crate::text::lit_bytes("BO_ ") + crate::text::spec_digits(m.id as nat) + seq![32u8] + m.name
        + crate::text::lit_bytes(": ") + crate::text::spec_digits(m.size as nat)
        + crate::text::lit_bytes(" Vector__XXX\n") + render_signals(m.signals, 0) + seq![10u8]
}

/// The serialization of the messages from `i` on, in document order.
pub open spec fn render_messages(ms: Seq<MessageView>, i: nat) -> Seq<u8>
    decreases ms.len() - i,
{
    if i >= ms.len() {
        Seq::empty()
    } else {
        render_message(ms[i as int]) + render_messages(ms, i + 1)
    }
}

/// The serialization of a value table's entries from `i` on.
pub open spec fn render_entries(es: Seq<EntryView>, i: nat) -> Seq<u8>
    decreases es.len() - i,
{
    if i >= es.len() {
        Seq::empty()
    } else {
        render_i64(es[i as int].value) + crate::text::lit_bytes(" \"") + es[i as int].description
            + crate::text::lit_bytes("\" ") + render_entries(es, i + 1)
    }
}

/// How one value table serializes. The message id is not part of the
/// table's key, so a placeholder id of zero is written, which the parser
/// reads and ignores; the table then survives a round trip.
pub open spec fn render_table(t: TableView) -> Seq<u8> {
    crate::text::lit_bytes("VAL_ 0 ") + t.signal_name + seq![32u8] + render_entries(t.entries, 0)
        + crate::text::lit_bytes(";\n")
}

/// The serialization of the value tables from `i` on, in insertion order.
pub open spec fn render_tables(ts: Seq<TableView>, i: nat) -> Seq<u8>
    decreases ts.len() - i,
{
    if i >= ts.len() {
        Seq::empty()
    } else {
        render_table(ts[i as int]) + render_tables(ts, i + 1)
    }
}

/// The fixed boilerplate between the version line and the messages: the
/// symbol table expected by consuming tools, an empty bit-timing section,
/// and a single placeholder node.
pub open spec fn header_bytes() -> Seq<u8> {
    crate::text::lit_bytes(
        "NS_ :\n\tNS_DESC_\n\tCM_\n\tBA_DEF_\n\tBA_\n\tVAL_\n\tCAT_DEF_\n\tCAT_\n\tFILTER\n\tBA_DEF_DEF_\n\tEV_DATA_\n\tENVVAR_DATA_\n\tSGTYPE_\n\tSGTYPE_VAL_\n\tBA_DEF_SGTYPE_\n\tBA_SGTYPE_\n\tSIG_TYPE_REF_\n\tVAL_TABLE_\n\tSIG_GROUP_\n\tSIG_VALTYPE_\n\tSIGTYPE_VALTYPE_\n\tBO_TX_BU_\n\tBA_DEF_REL_\n\tBA_REL_\n\tBA_DEF_DEF_REL_\n\tBU_SG_REL_\n\tBU_EV_REL_\n\tBU_BO_REL_\n\tSG_MUL_VAL_\n\n",
    ) + crate::text::lit_bytes("BS_:\n\n") + crate::text::lit_bytes("BU_: Vector__XXX\n\n")
}

/// The full serialization of a document: version line, boilerplate,
/// messages in document order, value tables in insertion order.
pub open spec fn render_doc_spec(d: DocView) -> Seq<u8> {
    crate::text::lit_bytes("VERSION \"") + d.version + crate::text::lit_bytes("\"\n\n")
        + header_bytes() + render_messages(d.messages, 0) + render_tables(d.value_tables, 0)
}

/// Append the position part of a signal line.
fn push_signal_pos(s: &DbcSignal, out: &mut Vec<u8>)
    ensures
        final(out)@ == old(out)@ + sig_pos(s@),
{
    proof {
        reveal_strlit(" SG_ ");
        reveal_strlit(" : ");
    }
    crate::text::push_str_bytes(out, " SG_ ");
    crate::text::push_bytes(out, s.name.as_slice());
    crate::text::push_str_bytes(out, " : ");
    crate::text::push_digits(s.start_bit as u64, out);
    out.push(124);
    crate::text::push_digits(s.bit_length as u64, out);
    out.push(64);
    match s.byte_order {
        ByteOrder::Motorola => out.push(48),
        ByteOrder::Intel => out.push(49),
    }
    match s.value_type {
        ValueType::Signed => out.push(45),
        ValueType::Unsigned => out.push(43),
    }
    proof {
        assert(final(out)@ =~= old(out)@ + sig_pos(s@));
    }
}

/// Append the scaling and range part of a signal line.
#[verifier::rlimit(80)]
fn push_signal_scale(s: &DbcSignal, out: &mut Vec<u8>)
    requires
        s.wf(),
    ensures
        final(out)@ == old(out)@ + sig_scale(s@),
{
    proof {
        reveal_strlit(" (");
        reveal_strlit(") [");
    }
    crate::text::push_str_bytes(out, " (");
    crate::num::render_dec(&s.factor, out);
    out.push(44);
    crate::num::render_dec(&s.offset, out);
    crate::text::push_str_bytes(out, ") [");
    proof {
        assert(out@ =~= old(out)@ + (crate::text::lit_bytes(" (") + crate::num::render_dec_spec(
            s@.factor,
        ) + seq![44u8] + crate::num::render_dec_spec(s@.offset) + crate::text::lit_bytes(") [")));
    }
    let mn: Dec = match s.minimum {
        Some(d) => d,
        None => Dec { mantissa: 0, scale: 0 },
    };
    crate::num::render_dec(&mn, out);
    out.push(124);
    let mx: Dec = match s.maximum {
        Some(d) => d,
        None => Dec { mantissa: 0, scale: 0 },
    };
    crate::num::render_dec(&mx, out);
    proof {
        assert(final(out)@ =~= old(out)@ + sig_scale(s@));
    }
}

/// Append the unit and receiver part of a signal line.
fn push_signal_tail(s: &DbcSignal, out: &mut Vec<u8>)
    ensures
        final(out)@ == old(out)@ + sig_tail(s@),
{
    proof {
        reveal_strlit("] \"");
        reveal_strlit("\" Vector__XXX\n");
    }
    crate::text::push_str_bytes(out, "] \"");
    match &s.unit {
        Some(u) => crate::text::push_bytes(out, u.as_slice()),
        None => (),
    }
    crate::text::push_str_bytes(out, "\" Vector__XXX\n");
    proof {
        assert(final(out)@ =~= old(out)@ + sig_tail(s@));
    }
}

/// Append one serialized signal line.
fn push_signal(s: &DbcSignal, out: &mut Vec<u8>)
    requires
        s.wf(),
    ensures
        final(out)@ == old(out)@ + render_signal(s@),
{
    push_signal_pos(s, out);
    push_signal_scale(s, out);
    push_signal_tail(s, out);
    proof {
        assert(final(out)@ =~= old(out)@ + render_signal(s@));
    }
}

/// Append one serialized message block.
fn push_message(m: &DbcMessage, out: &mut Vec<u8>)
    requires
        msg_wf(*m),
    ensures
        final(out)@ == old(out)@ + render_message(m@),
{
    proof {
        reveal_strlit("BO_ ");
        reveal_strlit(": ");
        reveal_strlit(" Vector__XXX\n");
    }
    crate::text::push_str_bytes(out, "BO_ ");
    crate::text::push_digits(m.id as u64, out);
    out.push(32);
    crate::text::push_bytes(out, m.name.as_slice());
    proof {
        assert(out@ =~= old(out)@ + (crate::text::lit_bytes("BO_ ") + crate::text::spec_digits(
            m.id as nat,
        ) + seq![32u8] + m@.name));
    }
    crate::text::push_str_bytes(out, ": ");
    crate::text::push_digits(m.size as u64, out);
    crate::text::push_str_bytes(out, " Vector__XXX\n");
    proof {
        assert(out@ =~= old(out)@ + (crate::text::lit_bytes("BO_ ") + crate::text::spec_digits(
            m.id as nat,
        ) + seq![32u8] + m@.name + crate::text::lit_bytes(": ") + crate::text::spec_digits(
            m.size as nat,
        ) + crate::text::lit_bytes(" Vector__XXX\n")));
    }
    let ghost mid = out@;
    let ghost sv = m.signals.deep_view();
    let mut i: usize = 0;
    while i < m.signals.len()
        invariant
            i <= m.signals@.len(),
            sv == m.signals.deep_view(),
            sv.len() == m.signals@.len(),
            msg_wf(*m),
            out@ + render_signals(sv, i as nat) =~= mid + render_signals(sv, 0),
        decreases m.signals@.len() - i,
    {
        proof {
            assert(sv[i as int] == m.signals@[i as int]@);
        }
        push_signal(&m.signals[i], out);
        i = i + 1;
    }
    out.push(10);
    proof {
        assert(render_signals(sv, sv.len() as nat) =~= Seq::<u8>::empty());
        assert(final(out)@ =~= old(out)@ + render_message(m@));
    }
}

/// Append one serialized value table line.
fn push_table(t: &ValueTable, out: &mut Vec<u8>)
    ensures
        final(out)@ == old(out)@ + render_table(t@),
{
    proof {
        reveal_strlit("VAL_ 0 ");
        reveal_strlit(" \"");
        reveal_strlit("\" ");
        reveal_strlit(";\n");
    }
    crate::text::push_str_bytes(out, "VAL_ 0 ");
    crate::text::push_bytes(out, t.signal_name.as_slice());
    out.push(32);
    let ghost ev = t.entries.deep_view();
    let mut i: usize = 0;
    while i < t.entries.len()
        invariant
            i <= t.entries@.len(),
            ev == t.entries.deep_view(),
            ev.len() == t.entries@.len(),
            out@ + render_entries(ev, i as nat) =~= old(out)@ + crate::text::lit_bytes("VAL_ 0 ")
                + t.signal_name@ + seq![32u8] + render_entries(ev, 0),
        decreases t.entries@.len() - i,
    {
        proof {
            reveal_strlit(" \"");
            reveal_strlit("\" ");
            assert(ev[i as int] == t.entries@[i as int]@);
        }
        let e = &t.entries[i];
        if e.value < 0 {
            out.push(45);
            let mag: u64 = (-(e.value as i128)) as u64;
            crate::text::push_digits(mag, out);
        } else {
            crate::text::push_digits(e.value as u64, out);
        }
        crate::text::push_str_bytes(out, " \"");
        crate::text::push_bytes(out, e.description.as_slice());
        crate::text::push_str_bytes(out, "\" ");
        i = i + 1;
    }
    crate::text::push_str_bytes(out, ";\n");
    proof {
        assert(render_entries(ev, ev.len() as nat) =~= Seq::<u8>::empty());
        assert(final(out)@ =~= old(out)@ + render_table(t@));
    }
}

impl DbcFile {
    /// Serialize the document to DBC text: the version line, the fixed
    /// symbol-table boilerplate, every message with its signals in stored
    /// order, and every value table. The output parses back under
    /// [`DbcFile::parse`].
    pub fn to_dbc_string(&self) -> (r: Vec<u8>)
        requires
            self.wf(),
        ensures
            r@ == render_doc_spec(self@),
    {
        proof {
            reveal_strlit("VERSION \"");
            reveal_strlit("\"\n\n");
            reveal_strlit(
                "NS_ :\n\tNS_DESC_\n\tCM_\n\tBA_DEF_\n\tBA_\n\tVAL_\n\tCAT_DEF_\n\tCAT_\n\tFILTER\n\tBA_DEF_DEF_\n\tEV_DATA_\n\tENVVAR_DATA_\n\tSGTYPE_\n\tSGTYPE_VAL_\n\tBA_DEF_SGTYPE_\n\tBA_SGTYPE_\n\tSIG_TYPE_REF_\n\tVAL_TABLE_\n\tSIG_GROUP_\n\tSIG_VALTYPE_\n\tSIGTYPE_VALTYPE_\n\tBO_TX_BU_\n\tBA_DEF_REL_\n\tBA_REL_\n\tBA_DEF_DEF_REL_\n\tBU_SG_REL_\n\tBU_EV_REL_\n\tBU_BO_REL_\n\tSG_MUL_VAL_\n\n",
            );
            reveal_strlit("BS_:\n\n");
            reveal_strlit("BU_: Vector__XXX\n\n");
        }
        let mut out: Vec<u8> = Vec::new();
        crate::text::push_str_bytes(&mut out, "VERSION \"");
        crate::text::push_bytes(&mut out, self.version.as_slice());
        crate::text::push_str_bytes(&mut out, "\"\n\n");
        crate::text::push_str_bytes(
            &mut out,
            "NS_ :\n\tNS_DESC_\n\tCM_\n\tBA_DEF_\n\tBA_\n\tVAL_\n\tCAT_DEF_\n\tCAT_\n\tFILTER\n\tBA_DEF_DEF_\n\tEV_DATA_\n\tENVVAR_DATA_\n\tSGTYPE_\n\tSGTYPE_VAL_\n\tBA_DEF_SGTYPE_\n\tBA_SGTYPE_\n\tSIG_TYPE_REF_\n\tVAL_TABLE_\n\tSIG_GROUP_\n\tSIG_VALTYPE_\n\tSIGTYPE_VALTYPE_\n\tBO_TX_BU_\n\tBA_DEF_REL_\n\tBA_REL_\n\tBA_DEF_DEF_REL_\n\tBU_SG_REL_\n\tBU_EV_REL_\n\tBU_BO_REL_\n\tSG_MUL_VAL_\n\n",
        );
        crate::text::push_str_bytes(&mut out, "BS_:\n\n");
        crate::text::push_str_bytes(&mut out, "BU_: Vector__XXX\n\n");
        let ghost mid = out@;
        let ghost mv = self.messages.deep_view();
        let mut i: usize = 0;
        while i < self.messages.len()
            invariant
                i <= self.messages@.len(),
                mv == self.messages.deep_view(),
                mv.len() == self.messages@.len(),
                self.wf(),
                out@ + render_messages(mv, i as nat) =~= mid + render_messages(mv, 0),
            decreases self.messages@.len() - i,
        {
            proof {
                assert(mv[i as int] == self.messages@[i as int]@);
            }
            push_message(&self.messages[i], &mut out);
            i = i + 1;
        }
        proof {
            assert(render_messages(mv, mv.len() as nat) =~= Seq::<u8>::empty());
        }
        let ghost mid2 = out@;
        let ghost tv = self.value_tables.deep_view();
        let mut k: usize = 0;
        while k < self.value_tables.len()
            invariant
                k <= self.value_tables@.len(),
                tv == self.value_tables.deep_view(),
                tv.len() == self.value_tables@.len(),
                out@ + render_tables(tv, k as nat) =~= mid2 + render_tables(tv, 0),
            decreases self.value_tables@.len() - k,
        {
            proof {
                assert(tv[k as int] == self.value_tables@[k as int]@);
            }
            push_table(&self.value_tables[k], &mut out);
            k = k + 1;
        }
        proof {
            assert(render_tables(tv, tv.len() as nat) =~= Seq::<u8>::empty());
            assert(out@ =~= render_doc_spec(self@));
        }
        out
    }
}

impl Default for DbcFile {
    /// The empty document.
    fn default() -> (r: Self)
        ensures
            r.version@ == Seq::<u8>::empty(),
            r.messages@ == Seq::<DbcMessage>::empty(),
            r.value_tables@ == Seq::<ValueTable>::empty(),
    {
        DbcFile::new()
    }
}

} // verus!
