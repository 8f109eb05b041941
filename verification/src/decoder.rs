//! The field-by-field aggregating decoder.
//!
//! One generic, schema-driven procedure replaces per-type generated code:
//! a decoder owns an ordered list of field descriptors and decodes one
//! record from a key/value input, collecting every per-field failure in a
//! [`StructValidator`] instead of stopping at the first, then either
//! yields the assembled record or fails once with the full collector.

use vstd::prelude::*;
use crate::pattern::truncate_at_pat;
use crate::validator::StructValidator;
use crate::validator::pairs_view;
use crate::validator::str_eq;

verus! {

/// The decode capability a field declares: how its raw value is read.
#[derive(Clone, Copy, Debug, PartialEq, Eq, Structural)]
pub enum FieldKind {
    /// A decimal integer fitting `i64`.
    Integer,
    /// Any text, taken as is.
    Text,
}

/// One declared field: its identifier and decode capability. Every
/// declared field is required.
#[derive(Clone, Debug, PartialEq, Eq)]
pub struct FieldDesc {
    pub name: String,
    pub kind: FieldKind,
}

/// The mathematical image of a field descriptor.
pub struct FieldDescV {
    pub name: Seq<char>,
    pub kind: FieldKind,
}

impl View for FieldDesc {
    type V = FieldDescV;

    open spec fn view(&self) -> FieldDescV {
        FieldDescV { name: self.name@, kind: self.kind }
    }
}

/// A decoded field value.
#[derive(Clone, Debug, PartialEq, Eq)]
pub enum FieldValue {
    Integer(i64),
    Text(String),
}

/// The mathematical image of a field value.
pub enum FieldValueV {
    Integer(int),
    Text(Seq<char>),
}

impl View for FieldValue {
    type V = FieldValueV;

    open spec fn view(&self) -> FieldValueV {
        match self {
            FieldValue::Integer(n) => FieldValueV::Integer(*n as int),
            FieldValue::Text(s) => FieldValueV::Text(s@),
        }
    }
}

/// The decoder's input: either a key/value collection (the well-formed
/// shape) or a bare scalar (a structural failure).
#[derive(Clone, Debug, PartialEq, Eq)]
pub enum Input {
    Object(Vec<(String, String)>),
    Scalar(String),
}

/// How one decode attempt fails: either the input is not shaped as a
/// key/value collection at all (one plain diagnostic message), or any
/// number of per-field faults aggregated into one collector.
#[derive(Clone, Debug, PartialEq, Eq)]
pub enum DecodeFailure {
    Malformed(String),
    Fields(StructValidator),
}

/// Whether `c` is a decimal digit.
pub open spec fn is_digit(c: char) -> bool {
    let u = c as u32;
    0x30 <= u && u <= 0x39
}

/// All characters of `s` are decimal digits.
pub open spec fn all_digits(s: Seq<char>) -> bool {
    forall|i: int| 0 <= i < s.len() ==> is_digit(#[trigger] s[i])
}

/// The value of a digit string, most significant digit first.
pub open spec fn digits_val(s: Seq<char>) -> int
    decreases s.len()
{
    if s.len() == 0 {
        0
    } else {
        10 * digits_val(s.drop_last()) + (s.last() as u32 - 0x30)
    }
}

/// `s` is an optional minus sign followed by one or more digits.
pub open spec fn int_syntax(s: Seq<char>) -> bool {
    if s.len() > 0 && s[0] == '-' {
        s.len() > 1 && all_digits(s.skip(1))
    } else {
        s.len() > 0 && all_digits(s)
    }
}

/// The signed value denoted by `s`.
pub open spec fn int_of(s: Seq<char>) -> int {
    if s.len() > 0 && s[0] == '-' {
        -digits_val(s.skip(1))
    } else {
        digits_val(s)
    }
}

/// The message recorded when a value is not integer-shaped.
pub open spec fn invalid_digit_msg() -> Seq<char> {
    "invalid digit found in string"@
}

/// The message recorded when an integer does not fit the target type.
pub open spec fn out_of_range_msg() -> Seq<char> {
    "number too large to fit in target type"@
}

/// The message recorded for a declared field absent from the input.
pub open spec fn missing_msg() -> Seq<char> {
    "field is missing"@
}

/// What decoding one raw value under a capability yields.
pub open spec fn spec_decode_value(kind: FieldKind, raw: Seq<char>) -> Result<
    FieldValueV,
    Seq<char>,
> {
    match kind {
        FieldKind::Text => Ok(FieldValueV::Text(raw)),
        FieldKind::Integer => if !int_syntax(raw) {
            Err(invalid_digit_msg())
        } else if int_of(raw) < i64::MIN as int || int_of(raw) > i64::MAX as int {
            Err(out_of_range_msg())
        } else {
            Ok(FieldValueV::Integer(int_of(raw)))
        },
    }
}

/// The mathematical image of a value-decode result.
pub open spec fn res_view(r: Result<FieldValue, String>) -> Result<FieldValueV, Seq<char>> {
    match r {
        Ok(v) => Ok(v@),
        Err(m) => Err(m@),
    }
}

/// Why an integer parse failed.
#[derive(Clone, Copy, Debug, PartialEq, Eq, Structural)]
enum IntErr {
    Syntax,
    Range,
}

/// Parses a decimal `i64`, reporting bad syntax and overflow apart.
fn parse_int(s: &str) -> (r: Result<i64, IntErr>)
    ensures
        match r {
            Ok(v) => int_syntax(s@) && i64::MIN as int <= int_of(s@) <= i64::MAX as int && v as int
                == int_of(s@),
            Err(e) => match e {
                IntErr::Syntax => !int_syntax(s@),
                IntErr::Range => int_syntax(s@) && (int_of(s@) < i64::MIN as int || int_of(s@)
                    > i64::MAX as int),
            },
        },
{
    let n = s.unicode_len();
    if n == 0 {
        return Err(IntErr::Syntax);
    }
    let neg = s.get_char(0) == '-';
    let start: usize = if neg { 1 } else { 0 };
    if n == start {
        return Err(IntErr::Syntax);
    }
    let ghost digs: Seq<char> = if neg { s@.skip(1) } else { s@ };
    proof {
        assert(digs.len() == n - start);
        assert(forall|j: int| 0 <= j < digs.len() ==> digs[j] == s@[j + start]);
        assert(digs.take(0) =~= Seq::<char>::empty());
    }
    let mut acc: u128 = 0;
    let mut big = false;
    let mut i: usize = start;
    while i < n
        invariant
            n == s@.len(),
            start <= i <= n,
            start <= 1,
            start < n,
            neg == (s@[0] == '-'),
            start == (if neg { 1int } else { 0int }),
            digs == (if neg { s@.skip(1) } else { s@ }),
            digs.len() == n - start,
            forall|j: int| 0 <= j < digs.len() ==> digs[j] == s@[j + start],
            forall|j: int| start <= j < i ==> is_digit(#[trigger] s@[j]),
            !big ==> acc as int == digits_val(digs.take(i - start)) && acc
                <= 0x8000_0000_0000_0000u128,
            big ==> digits_val(digs.take(i - start)) > 0x8000_0000_0000_0000,
        decreases n - i
    {
        let c = s.get_char(i);
        let u = c as u32;
        if u < 0x30 || u > 0x39 {
            proof {
                assert(digs[i - start] == s@[i as int]);
                assert(!is_digit(digs[i - start]));
                assert(0 <= i - start < digs.len());
                assert(!all_digits(digs));
                if neg {
                    assert(s@[0] == '-');
                    assert(!all_digits(s@.skip(1)));
                } else {
                    assert(!all_digits(s@));
                    if s@.len() > 0 && s@[0] == '-' {
                        assert(false);
                    }
                }
                assert(!int_syntax(s@));
            }
            return Err(IntErr::Syntax);
        }
        let d: u128 = (u - 0x30) as u128;
        proof {
            let t = digs.take(i - start);
            let t1 = digs.take(i - start + 1);
            assert(t1.drop_last() =~= t);
            assert(t1.last() == digs[i - start]);
            assert(digs[i - start] == s@[i as int]);
            assert(digits_val(t1) == 10 * digits_val(t) + d);
        }
        if big {
            proof {
                assert(digits_val(digs.take(i - start + 1)) > 0x8000_0000_0000_0000);
            }
        } else {
            let next: u128 = 10 * acc + d;
            if next > 0x8000_0000_0000_0000u128 {
                big = true;
            }
            acc = next;
        }
        i = i + 1;
    }
    proof {
        assert(digs.take(n - start) =~= digs);
        assert(forall|j: int| 0 <= j < digs.len() ==> is_digit(#[trigger] digs[j]));
        assert(int_syntax(s@));
        if neg {
            assert(s@[0] == '-');
            assert(int_of(s@) == -digits_val(digs));
        } else {
            assert(int_of(s@) == digits_val(digs));
        }
    }
    if big {
        return Err(IntErr::Range);
    }
    if neg {
        if acc == 0x8000_0000_0000_0000u128 {
            Ok(i64::MIN)
        } else {
            Ok(-(acc as i64))
        }
    } else {
        if acc > 0x7FFF_FFFF_FFFF_FFFFu128 {
            Err(IntErr::Range)
        } else {
            Ok(acc as i64)
        }
    }
}

/// Decodes one raw value under a capability: text is taken as is, an
/// integer field parses a decimal `i64`.
pub fn decode_value(kind: FieldKind, raw: &str) -> (r: Result<FieldValue, String>)
    ensures
        res_view(r) == spec_decode_value(kind, raw@),
{
    match kind {
        FieldKind::Text => Ok(FieldValue::Text(raw.to_owned())),
        FieldKind::Integer => match parse_int(raw) {
            Ok(v) => Ok(FieldValue::Integer(v)),
            Err(IntErr::Syntax) => Err(String::from_str("invalid digit found in string")),
            Err(IntErr::Range) => Err(String::from_str("number too large to fit in target type")),
        },
    }
}

/// The position of the first declared field named `key` at or after `i`.
pub open spec fn field_index_from(fields: Seq<FieldDescV>, key: Seq<char>, i: int) -> Option<int>
    decreases fields.len() - i when 0 <= i
{
    if i < 0 || i >= fields.len() {
        None
    } else if fields[i].name == key {
        Some(i)
    } else {
        field_index_from(fields, key, i + 1)
    }
}

/// One empty slot per declared field.
pub open spec fn init_slots(n: int) -> Seq<Option<FieldValueV>> {
    Seq::new(n as nat, |i: int| None)
}

/// The mathematical image of a slot vector.
pub open spec fn slots_view(s: Seq<Option<FieldValue>>) -> Seq<Option<FieldValueV>> {
    s.map_values(
        |o: Option<FieldValue>|
            match o {
                Some(v) => Some(v@),
                None => None,
            },
    )
}

/// The reading phase: each pair in order is classified against the
/// declared fields; a matched field's value is decoded into its slot on
/// success (last success wins) or recorded in the error map on failure
/// (cut at `" at line"`, last failure wins); unknown keys are discarded.
pub open spec fn process_pairs(
    fields: Seq<FieldDescV>,
    pairs: Seq<(Seq<char>, Seq<char>)>,
) -> (Seq<Option<FieldValueV>>, Map<Seq<char>, Seq<char>>)
    decreases pairs.len()
{
    if pairs.len() == 0 {
        (init_slots(fields.len() as int), Map::empty())
    } else {
        let prev = process_pairs(fields, pairs.drop_last());
        let kv = pairs.last();
        match field_index_from(fields, kv.0, 0) {
            Some(j) => match spec_decode_value(fields[j].kind, kv.1) {
                Ok(v) => (prev.0.update(j, Some(v)), prev.1),
                Err(m) => (prev.0, prev.1.insert(fields[j].name, truncate_at_pat(m))),
            },
            None => prev,
        }
    }
}

/// The finalizing sweep: every declared field from `i` on whose slot is
/// empty and for which no more specific message is recorded is marked
/// missing.
pub open spec fn sweep(
    fields: Seq<FieldDescV>,
    slots: Seq<Option<FieldValueV>>,
    errs: Map<Seq<char>, Seq<char>>,
    i: int,
) -> Map<Seq<char>, Seq<char>>
    decreases fields.len() - i when 0 <= i
{
    if i < 0 || i >= fields.len() {
        errs
    } else {
        let e2 = if slots[i] is None && !errs.dom().contains(fields[i].name) {
            errs.insert(fields[i].name, missing_msg())
        } else {
            errs
        };
        sweep(fields, slots, e2, i + 1)
    }
}

/// The slots after reading the whole input.
pub open spec fn decode_slots(
    fields: Seq<FieldDescV>,
    pairs: Seq<(Seq<char>, Seq<char>)>,
) -> Seq<Option<FieldValueV>> {
    process_pairs(fields, pairs).0
}

/// The complete failure map of one decode attempt: the reading phase's
/// failures plus the missing-field sweep.
pub open spec fn decode_errors(
    fields: Seq<FieldDescV>,
    pairs: Seq<(Seq<char>, Seq<char>)>,
) -> Map<Seq<char>, Seq<char>> {
    let p = process_pairs(fields, pairs);
    sweep(fields, p.0, p.1, 0)
}

/// The structural-failure diagnostic for an input that is not a key/value
/// collection.
pub open spec fn expecting_msg(name: Seq<char>, expl: Seq<char>) -> Seq<char> {
    "expecting object "@ + name + " ("@ + expl + ")"@
}

/// `field_index_from` finds exactly the first declared field named `key`.
pub proof fn lemma_field_index_from_correct(fields: Seq<FieldDescV>, key: Seq<char>, i: int)
    requires
        0 <= i,
    ensures
        match field_index_from(fields, key, i) {
            Some(j) => i <= j < fields.len() && fields[j].name == key && forall|l: int|
                i <= l < j ==> (#[trigger] fields[l].name) != key,
            None => forall|l: int| i <= l < fields.len() ==> (#[trigger] fields[l].name) != key,
        },
    decreases fields.len() - i
{
    if i < fields.len() && fields[i].name != key {
        lemma_field_index_from_correct(fields, key, i + 1);
    }
}

/// Reading a pair never changes the number of slots.
pub proof fn lemma_process_len(fields: Seq<FieldDescV>, pairs: Seq<(Seq<char>, Seq<char>)>)
    ensures
        process_pairs(fields, pairs).0.len() == fields.len(),
    decreases pairs.len()
{
    if pairs.len() > 0 {
        lemma_process_len(fields, pairs.drop_last());
        let kv = pairs.last();
        lemma_field_index_from_correct(fields, kv.0, 0);
    }
}

/// What the sweep adds and what it preserves: afterwards a key is present
/// exactly when the reading phase recorded it or some declared field from
/// `i` on is unfilled and so named; reading-phase messages are kept
/// unchanged, and every key the sweep itself added carries the missing
/// marker.
pub proof fn lemma_sweep(
    fields: Seq<FieldDescV>,
    slots: Seq<Option<FieldValueV>>,
    errs: Map<Seq<char>, Seq<char>>,
    i: int,
)
    requires
        0 <= i,
    ensures
        ({
            let r = sweep(fields, slots, errs, i);
            &&& forall|k: Seq<char>| #[trigger]
                r.dom().contains(k) <==> errs.dom().contains(k) || exists|j: int|
                    i <= j < fields.len() && (#[trigger] fields[j].name) == k && slots[j] is None
            &&& forall|k: Seq<char>| #[trigger] errs.dom().contains(k) ==> r[k] == errs[k]
            &&& forall|k: Seq<char>|
                r.dom().contains(k) && !errs.dom().contains(k) ==> r[k] == missing_msg()
        }),
    decreases fields.len() - i
{
    if i >= fields.len() {
    } else {
        let e2 = if slots[i] is None && !errs.dom().contains(fields[i].name) {
            errs.insert(fields[i].name, missing_msg())
        } else {
            errs
        };
        lemma_sweep(fields, slots, e2, i + 1);
        let r = sweep(fields, slots, errs, i);
        assert(r == sweep(fields, slots, e2, i + 1));
        assert forall|k: Seq<char>| #[trigger]
            r.dom().contains(k) implies errs.dom().contains(k) || exists|j: int|
            i <= j < fields.len() && (#[trigger] fields[j].name) == k && slots[j] is None by {
            if e2.dom().contains(k) {
                if !errs.dom().contains(k) {
                    assert(k == fields[i].name && slots[i] is None);
                }
            } else {
                let j = choose|j: int|
                    i + 1 <= j < fields.len() && (#[trigger] fields[j].name) == k && slots[j]
                        is None;
                assert(fields[j].name == k && slots[j] is None);
            }
        }
        assert forall|k: Seq<char>|
            errs.dom().contains(k) || exists|j: int|
                i <= j < fields.len() && (#[trigger] fields[j].name) == k && slots[j]
                    is None implies #[trigger] r.dom().contains(k) by {
            if errs.dom().contains(k) {
                assert(e2.dom().contains(k));
            } else {
                let j = choose|j: int|
                    i <= j < fields.len() && (#[trigger] fields[j].name) == k && slots[j] is None;
                if j == i {
                    assert(e2.dom().contains(k));
                } else {
                    assert(i + 1 <= j < fields.len() && fields[j].name == k && slots[j] is None);
                }
            }
        }
    }
}

/// Aggregation completeness: after one decode attempt the failure map
/// holds exactly the fields whose present value failed to decode (each
/// with its decode-failure message) and the declared fields left
/// unfilled (each with the missing marker), and no other key.
pub proof fn lemma_aggregation_completeness(
    fields: Seq<FieldDescV>,
    pairs: Seq<(Seq<char>, Seq<char>)>,
)
    ensures
        ({
            let slots = decode_slots(fields, pairs);
            let pre = process_pairs(fields, pairs).1;
            let errs = decode_errors(fields, pairs);
            &&& forall|k: Seq<char>| #[trigger]
                errs.dom().contains(k) <==> pre.dom().contains(k) || exists|j: int|
                    0 <= j < fields.len() && (#[trigger] fields[j].name) == k && slots[j] is None
            &&& forall|k: Seq<char>| #[trigger] pre.dom().contains(k) ==> errs[k] == pre[k]
            &&& forall|k: Seq<char>|
                errs.dom().contains(k) && !pre.dom().contains(k) ==> errs[k] == missing_msg()
        }),
{
    lemma_sweep(fields, decode_slots(fields, pairs), process_pairs(fields, pairs).1, 0);
}

/// Decode-failure beats missing: a field whose value was present but
/// failed to decode keeps its decode-failure message; the missing-field
/// sweep never replaces it with the generic missing marker.
pub proof fn lemma_failure_beats_missing(
    fields: Seq<FieldDescV>,
    pairs: Seq<(Seq<char>, Seq<char>)>,
    k: Seq<char>,
)
    requires
        process_pairs(fields, pairs).1.dom().contains(k),
    ensures
        decode_errors(fields, pairs).dom().contains(k),
        decode_errors(fields, pairs)[k] == process_pairs(fields, pairs).1[k],
{
    lemma_sweep(fields, decode_slots(fields, pairs), process_pairs(fields, pairs).1, 0);
}

/// The input with its unknown-key pairs removed: exactly the pairs whose
/// key names a declared field, in order.
pub open spec fn known_pairs(
    fields: Seq<FieldDescV>,
    pairs: Seq<(Seq<char>, Seq<char>)>,
) -> Seq<(Seq<char>, Seq<char>)>
    decreases pairs.len()
{
    if pairs.len() == 0 {
        Seq::empty()
    } else {
        let rest = known_pairs(fields, pairs.drop_last());
        if field_index_from(fields, pairs.last().0, 0) is Some {
            rest.push(pairs.last())
        } else {
            rest
        }
    }
}

/// Unknown-field tolerance: removing the unrecognized pairs from an input
/// changes nothing — the same slots are filled and the same failures are
/// collected, so the decode result is the same.
pub proof fn lemma_unknown_field_tolerance(
    fields: Seq<FieldDescV>,
    pairs: Seq<(Seq<char>, Seq<char>)>,
)
    ensures
        process_pairs(fields, known_pairs(fields, pairs)) == process_pairs(fields, pairs),
        decode_slots(fields, known_pairs(fields, pairs)) == decode_slots(fields, pairs),
        decode_errors(fields, known_pairs(fields, pairs)) == decode_errors(fields, pairs),
    decreases pairs.len()
{
    if pairs.len() == 0 {
    } else {
        lemma_unknown_field_tolerance(fields, pairs.drop_last());
        let kv = pairs.last();
        let kp = known_pairs(fields, pairs);
        if field_index_from(fields, kv.0, 0) is Some {
            let rest = known_pairs(fields, pairs.drop_last());
            assert(kp == rest.push(kv));
            assert(kp.drop_last() =~= rest);
            assert(kp.last() == kv);
            assert(kp.len() > 0);
        }
    }
}

impl AggregatingDecoder {
    /// The declared schema, mathematically.
    pub open spec fn fields_v(&self) -> Seq<FieldDescV> {
        self.fields@.map_values(|f: FieldDesc| f@)
    }

    /// Schema validity: declared field identifiers are pairwise distinct.
    pub open spec fn wf(&self) -> bool {
        forall|a: int, b: int|
            0 <= a < b < self.fields_v().len() ==> (#[trigger] self.fields_v()[a].name)
                != (#[trigger] self.fields_v()[b].name)
    }
}

/// A decoder for one record type: a diagnostic type name, an explanation
/// used in the structural-failure message, and the ordered list of
/// declared (required) fields.
pub struct AggregatingDecoder {
    pub record_name: String,
    pub expecting: String,
    pub fields: Vec<FieldDesc>,
}

impl AggregatingDecoder {
    /// Builds a decoder from its parts.
    pub fn new(record_name: String, expecting: String, fields: Vec<FieldDesc>) -> (r: Self)
        ensures
            r.record_name@ == record_name@,
            r.expecting@ == expecting@,
            r.fields@ == fields@,
    {
        AggregatingDecoder { record_name, expecting, fields }
    }

    /// The structural-failure diagnostic for this record type.
    fn expecting_message(&self) -> (r: String)
        ensures
            r@ == expecting_msg(self.record_name@, self.expecting@),
    {
        let mut m = String::from_str("expecting object ");
        m.append(self.record_name.as_str());
        m.append(" (");
        m.append(self.expecting.as_str());
        m.append(")");
        proof {
            assert(((("expecting object "@ + self.record_name@) + " ("@) + self.expecting@)
                + ")"@ =~= expecting_msg(self.record_name@, self.expecting@));
        }
        m
    }

    /// The position of the declared field named `key`, if any.
    fn find_field(&self, key: &str) -> (r: Option<usize>)
        ensures
            match r {
                Some(j) => field_index_from(self.fields_v(), key@, 0) == Some(j as int) && j
                    < self.fields@.len(),
                None => field_index_from(self.fields_v(), key@, 0) is None,
            },
    {
        let n = self.fields.len();
        let mut j: usize = 0;
        while j < n
            invariant
                n == self.fields@.len(),
                n == self.fields_v().len(),
                0 <= j <= n,
                field_index_from(self.fields_v(), key@, 0) == field_index_from(
                    self.fields_v(),
                    key@,
                    j as int,
                ),
            decreases n - j
        {
            assert(self.fields_v()[j as int] == self.fields@[j as int]@);
            if str_eq(self.fields[j].name.as_str(), key) {
                return Some(j);
            }
            j = j + 1;
        }
        None
    }

    /// Decodes one record: classifies each input pair against the declared
    /// fields, decodes matched values without stopping at failures,
    /// discards unknown keys, marks unfilled fields missing (never
    /// overwriting a more specific failure), and yields either the values
    /// in declared order or the aggregated failure collector. A bare
    /// scalar input fails structurally with one plain diagnostic.
    pub fn decode(&self, input: &Input) -> (r: Result<Vec<FieldValue>, DecodeFailure>)
        requires
            self.wf(),
        ensures
            match input {
                Input::Scalar(_) => match r {
                    Err(DecodeFailure::Malformed(m)) => m@ == expecting_msg(
                        self.record_name@,
                        self.expecting@,
                    ),
                    _ => false,
                },
                Input::Object(pairs) => ({
                    let errs = decode_errors(self.fields_v(), pairs_view(pairs@));
                    if errs == Map::<Seq<char>, Seq<char>>::empty() {
                        match r {
                            Ok(vals) => vals@.map_values(|v: FieldValue| Some(v@)) == decode_slots(
                                self.fields_v(),
                                pairs_view(pairs@),
                            ),
                            _ => false,
                        }
                    } else {
                        match r {
                            Err(DecodeFailure::Fields(c)) => c.wf() && c@ == errs,
                            _ => false,
                        }
                    }
                }),
            },
    {
        let pairs = match input {
            Input::Object(p) => p,
            Input::Scalar(_) => {
                return Err(DecodeFailure::Malformed(self.expecting_message()));
            },
        };
        let ghost fv = self.fields_v();
        let ghost pv = pairs_view(pairs@);
        let nf = self.fields.len();
        let mut slots: Vec<Option<FieldValue>> = Vec::new();
        let mut t: usize = 0;
        while t < nf
            invariant
                0 <= t <= nf,
                slots@.len() == t,
                forall|l: int| 0 <= l < t ==> (#[trigger] slots@[l]) is None,
            decreases nf - t
        {
            slots.push(None);
            t = t + 1;
        }
        let mut errors = StructValidator::new();
        let np = pairs.len();
        let mut i: usize = 0;
        proof {
            assert(pv.take(0) =~= Seq::<(Seq<char>, Seq<char>)>::empty());
            assert(fv.len() == nf);
            assert(slots_view(slots@) =~= init_slots(nf as int));
            assert(errors@ =~= process_pairs(fv, pv.take(0)).1);
        }
        while i < np
            invariant
                np == pairs@.len(),
                np == pv.len(),
                0 <= i <= np,
                nf == self.fields@.len(),
                nf == fv.len(),
                fv == self.fields_v(),
                pv == pairs_view(pairs@),
                errors.wf(),
                slots@.len() == nf,
                slots_view(slots@) == process_pairs(fv, pv.take(i as int)).0,
                errors@ == process_pairs(fv, pv.take(i as int)).1,
            decreases np - i
        {
            proof {
                assert(pv[i as int] == (pairs@[i as int].0@, pairs@[i as int].1@));
            }
            let ghost pre_slots = slots_view(slots@);
            let ghost pre_errs = errors@;
            match self.find_field(pairs[i].0.as_str()) {
                Some(j) => {
                    let kind = self.fields[j].kind;
                    proof {
                        assert(fv[j as int] == self.fields@[j as int]@);
                    }
                    match decode_value(kind, pairs[i].1.as_str()) {
                        Ok(v) => {
                            slots.set(j, Some(v));
                            proof {
                                assert(slots_view(slots@) =~= pre_slots.update(
                                    j as int,
                                    Some(v@),
                                ));
                            }
                        },
                        Err(m) => {
                            errors.insert(self.fields[j].name.as_str(), m.as_str());
                        },
                    }
                },
                None => {},
            }
            proof {
                let t1 = pv.take(i + 1);
                assert(t1.drop_last() =~= pv.take(i as int));
                assert(t1.last() == pv[i as int]);
                assert(slots_view(slots@) == process_pairs(fv, t1).0);
                assert(errors@ == process_pairs(fv, t1).1);
            }
            i = i + 1;
        }
        proof {
            assert(pv.take(np as int) =~= pv);
        }
        let ghost errs0 = errors@;
        let ghost slots_final = slots_view(slots@);
        let mut j: usize = 0;
        while j < nf
            invariant
                0 <= j <= nf,
                nf == self.fields@.len(),
                nf == fv.len(),
                fv == self.fields_v(),
                errors.wf(),
                slots@.len() == nf,
                slots_view(slots@) == slots_final,
                sweep(fv, slots_final, errs0, 0) == sweep(fv, slots_final, errors@, j as int),
            decreases nf - j
        {
            proof {
                assert(fv[j as int] == self.fields@[j as int]@);
                assert(slots_final[j as int] == (match slots@[j as int] {
                    Some(v) => Some(v@),
                    None => None,
                }));
            }
            if slots[j].is_none() && !errors.contains(self.fields[j].name.as_str()) {
                let key = self.fields[j].name.clone();
                errors.insert_raw(key, String::from_str("field is missing"));
            }
            j = j + 1;
        }
        proof {
            assert(sweep(fv, slots_final, errors@, nf as int) == errors@);
            assert(decode_errors(fv, pv) == errors@);
        }
        if !errors.is_empty() {
            return Err(DecodeFailure::Fields(errors));
        }
        proof {
            lemma_sweep(fv, slots_final, errs0, 0);
            assert forall|l: int| 0 <= l < nf implies (#[trigger] slots_final[l]) is Some by {
                if slots_final[l] is None {
                    assert(fv[l].name == fv[l].name && slots_final[l] is None);
                    assert(decode_errors(fv, pv).dom().contains(fv[l].name));
                    assert(false);
                }
            }
        }
        let mut vals: Vec<FieldValue> = Vec::new();
        let mut rest = slots;
        while rest.len() > 0
            invariant
                nf == fv.len(),
                vals@.len() + rest@.len() == nf,
                forall|l: int| 0 <= l < nf ==> (#[trigger] slots_final[l]) is Some,
                forall|l: int|
                    0 <= l < vals@.len() ==> Some((#[trigger] vals@[l])@) == slots_final[l],
                forall|l: int|
                    0 <= l < rest@.len() ==> (match #[trigger] rest@[l] {
                        Some(v) => Some(v@),
                        None => None,
                    }) == slots_final[vals@.len() + l],
            decreases rest@.len()
    {
            let ghost old_vals = vals@;
            let ghost old_rest = rest@;
            let v0 = rest.remove(0);
            match v0 {
                Some(v) => {
                    vals.push(v);
                    proof {
                        assert(old_rest[0] == v0);
                        assert(forall|l: int|
                            0 <= l < rest@.len() ==> rest@[l] == old_rest[l + 1]);
                    }
                },
                None => {
                    proof {
                        assert(old_rest[0] == v0);
                        assert(slots_final[old_vals.len() as int] is None);
                        assert(false);
                    }
                    vstd::pervasive::unreached::<()>()
                },
            }
        }
        proof {
            assert(vals@.map_values(|v: FieldValue| Some(v@)) =~= slots_final);
        }
        Ok(vals)
    }
}

} // verus!
