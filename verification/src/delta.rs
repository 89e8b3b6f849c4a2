//! The rich-text delta engine: validation and application of
//! insert / retain / delete operations against a block's text.
//!
//! All lengths are counted in UTF-16 code units, the replicated text
//! type's native addressing unit; counting code points or bytes instead
//! would silently corrupt offsets for non-ASCII text. Validation scans
//! the operations left to right with a running cursor and length and is
//! exhaustive before anything is applied: either the whole operation
//! list applies or none of it does.

use vstd::prelude::*;

use crate::types::CustomRustError;
use crate::types::DocError;

verus! {

/// A loosely typed delta operation, as decoded from a host payload.
/// For each of the three keys it records whether the key was present
/// and, separately, whether its value had the required type.
pub struct RawOp {
    pub has_insert: bool,
    pub insert: Option<String>,
    pub has_retain: bool,
    pub retain: Option<u64>,
    pub has_delete: bool,
    pub delete: Option<u64>,
    /// Formatting attributes, carried through opaquely: they never
    /// change the text's code units, only its formatting runs.
    pub attrs: Option<serde_json::Value>,
}

/// A validated delta operation, formatting attributes attached.
pub enum DeltaOp {
    Inserted(String, Option<serde_json::Value>),
    Retain(u32, Option<serde_json::Value>),
    Deleted(u32),
}

/// A positioned edit of the text, ready for the replicated text type.
/// A formatting edit leaves the code units untouched.
pub enum TextPrim {
    InsertAt { pos: usize, chunk: String, attrs: Option<serde_json::Value> },
    RemoveRange { pos: usize, len: usize },
    FormatRange { pos: usize, len: usize, attrs: serde_json::Value },
}

/// Mathematical content of a raw operation: the string payload by its
/// character view.
pub struct RawOpView {
    pub has_insert: bool,
    pub insert: Option<Seq<char>>,
    pub has_retain: bool,
    pub retain: Option<u64>,
    pub has_delete: bool,
    pub delete: Option<u64>,
}

impl View for RawOp {
    type V = RawOpView;

    open spec fn view(&self) -> RawOpView {
        RawOpView {
            has_insert: self.has_insert,
            insert: match self.insert {
                Some(s) => Some(s@),
                None => None,
            },
            has_retain: self.has_retain,
            retain: self.retain,
            has_delete: self.has_delete,
            delete: self.delete,
        }
    }
}

/// Views of a sequence of raw operations.
pub open spec fn raw_views(ops: Seq<RawOp>) -> Seq<RawOpView> {
    ops.map_values(|o: RawOp| o@)
}

/// Mathematical content of a validated operation.
pub enum DeltaOpView {
    Inserted(Seq<char>),
    Retain(u32),
    Deleted(u32),
}

impl View for DeltaOp {
    type V = DeltaOpView;

    open spec fn view(&self) -> DeltaOpView {
        match self {
            DeltaOp::Inserted(s, _) => DeltaOpView::Inserted(s@),
            DeltaOp::Retain(n, _) => DeltaOpView::Retain(*n),
            DeltaOp::Deleted(n) => DeltaOpView::Deleted(*n),
        }
    }
}

/// UTF-16 encoding of a character sequence: one unit below the
/// supplementary planes, a surrogate pair above them.
pub open spec fn utf16_of(s: Seq<char>) -> Seq<u16>
    decreases s.len(),
{
    if s.len() == 0 {
        Seq::empty()
    } else {
        utf16_units_of_char(s.first()) + utf16_of(s.drop_first())
    }
}

/// UTF-16 units of one character.
pub open spec fn utf16_units_of_char(c: char) -> Seq<u16> {
    if (c as u32) < 0x10000 {
        seq![(c as u32) as u16]
    } else {
        seq![
            (0xD800u32 + (((c as u32 - 0x10000u32) as u32) >> 10u32)) as u16,
            (0xDC00u32 + (((c as u32 - 0x10000u32) as u32) & 0x3FFu32)) as u16,
        ]
    }
}

/// Number of UTF-16 code units of a character sequence.
pub open spec fn utf16_len_of(s: Seq<char>) -> nat {
    utf16_of(s).len()
}

proof fn lemma_utf16_take(s: Seq<char>, i: int)
    requires
        0 <= i < s.len(),
    ensures
        utf16_of(s.subrange(0, i + 1)) == utf16_of(s.subrange(0, i)) + utf16_units_of_char(
            s[i],
        ),
    decreases i,
{
    let a = s.subrange(0, i + 1);
    let b = s.subrange(0, i);
    if i == 0 {
        assert(a.len() == 1);
        assert(b.len() == 0);
        assert(utf16_of(b) =~= Seq::empty());
        assert(a.first() == s[0]);
        assert(a.drop_first() =~= b);
        assert(utf16_of(a) == utf16_units_of_char(s[0]) + utf16_of(b));
        assert(utf16_units_of_char(s[0]) + utf16_of(b) =~= utf16_of(b) + utf16_units_of_char(
            s[0],
        ));
    } else {
        let s1 = s.drop_first();
        assert(a.first() == s[0]);
        assert(b.first() == s[0]);
        assert(a.drop_first() =~= s1.subrange(0, i));
        assert(b.drop_first() =~= s1.subrange(0, i - 1));
        assert(s1[i - 1] == s[i]);
        lemma_utf16_take(s1, i - 1);
        assert(utf16_of(a) == utf16_units_of_char(s[0]) + utf16_of(s1.subrange(0, i)));
        assert(utf16_of(b) == utf16_units_of_char(s[0]) + utf16_of(s1.subrange(0, i - 1)));
        assert(utf16_units_of_char(s[0]) + (utf16_of(s1.subrange(0, i - 1))
            + utf16_units_of_char(s[i])) =~= (utf16_units_of_char(s[0]) + utf16_of(
            s1.subrange(0, i - 1),
        )) + utf16_units_of_char(s[i]));
    }
}

/// Encodes a string into its UTF-16 code units.
pub fn utf16_units(s: &str) -> (r: Vec<u16>)
    ensures
        r@ == utf16_of(s@),
{
    let n = s.unicode_len();
    let mut out: Vec<u16> = Vec::new();
    let mut i: usize = 0;
    while i < n
        invariant
            i <= n,
            n == s@.len(),
            out@ == utf16_of(s@.subrange(0, i as int)),
        decreases n - i,
    {
        let c = s.get_char(i);
        let cu = c as u32;
        if cu < 0x10000 {
            out.push(cu as u16);
        } else {
            let rest = cu - 0x10000;
            proof {
                assert(rest >> 10u32 < 0x400000u32) by (bit_vector);
                assert(rest & 0x3FFu32 < 0x400u32) by (bit_vector);
            }
            out.push(#[verifier::truncate] ((0xD800 + (rest >> 10)) as u16));
            out.push(#[verifier::truncate] ((0xDC00 + (rest & 0x3FF)) as u16));
        }
        proof {
            lemma_utf16_take(s@, i as int);
            assert(utf16_of(s@.subrange(0, i + 1)) =~= utf16_of(s@.subrange(0, i as int))
                + utf16_units_of_char(s@[i as int]));
        }
        i = i + 1;
    }
    proof {
        assert(s@.subrange(0, n as int) =~= s@);
    }
    out
}

/// UTF-16 length of a string, when it fits the validation counters.
pub fn utf16_len_u32(s: &str) -> (r: Option<u32>)
    ensures
        match r {
            Some(v) => v == utf16_len_of(s@),
            None => utf16_len_of(s@) > u32::MAX,
        },
{
    let units = utf16_units(s);
    let n = units.len();
    if n <= 0xFFFF_FFFF {
        Some(n as u32)
    } else {
        None
    }
}

/// The validation outcome of one raw operation: the typed operation and
/// the advanced cursor and length, or the message of the rejection.
pub open spec fn parse_spec(d: RawOpView, cursor: u32, len: u32) -> Result<
    (DeltaOpView, u32, u32),
    Seq<char>,
> {
    if d.has_insert {
        match d.insert {
            None => Err("Insert value must be a string"@),
            Some(s) => {
                let n = utf16_len_of(s);
                if n == 0 {
                    Ok((DeltaOpView::Retain(0u32), cursor, len))
                } else if cursor + n > u32::MAX || len + n > u32::MAX {
                    Err("Text length overflow"@)
                } else {
                    Ok((DeltaOpView::Inserted(s), (cursor + n) as u32, (len + n) as u32))
                }
            },
        }
    } else if d.has_retain {
        match d.retain {
            None => Err("Retain value must be a number"@),
            Some(n) => if n > (len - cursor) as u64 {
                Err("Retain exceeds text length"@)
            } else if n == 0 {
                Ok((DeltaOpView::Retain(0u32), cursor, len))
            } else {
                Ok((DeltaOpView::Retain(n as u32), (cursor + n) as u32, len))
            },
        }
    } else if d.has_delete {
        match d.delete {
            None => Err("Delete value must be a number"@),
            Some(n) => if n > len as u64 {
                Err("Delete exceeds text length"@)
            } else if n == 0 {
                Ok((DeltaOpView::Deleted(0u32), cursor, len))
            } else {
                let c2 = if cursor as u64 <= n {
                    0u32
                } else {
                    (cursor - n) as u32
                };
                Ok((DeltaOpView::Deleted(n as u32), c2, (len - n) as u32))
            },
        }
    } else {
        Err("Invalid delta operation"@)
    }
}

/// Effect of one validated operation on the text and the application
/// position. An insert lands at the position and advances it; a retain
/// only advances it; a delete removes forward from the position, clipped
/// to the end of the text.
pub open spec fn apply_op_spec(text: Seq<u16>, pos: int, op: DeltaOpView) -> (Seq<u16>, int) {
    let p0 = if pos <= text.len() {
        pos
    } else {
        text.len() as int
    };
    match op {
        DeltaOpView::Inserted(s) => {
            let units = utf16_of(s);
            (
                text.subrange(0, p0) + units + text.subrange(p0, text.len() as int),
                p0 + units.len(),
            )
        },
        DeltaOpView::Retain(n) => {
            let p2 = if pos + n <= text.len() {
                pos + n
            } else {
                text.len() as int
            };
            (text, p2)
        },
        DeltaOpView::Deleted(n) => {
            let m = if p0 + n <= text.len() {
                n as int
            } else {
                text.len() - p0
            };
            (text.subrange(0, p0) + text.subrange(p0 + m, text.len() as int), p0)
        },
    }
}

/// The delta engine.
pub struct DeltaOperations;

impl DeltaOperations {
    /// Validates one raw operation against the running cursor and
    /// length, advancing them exactly as `parse_spec` prescribes.
    pub fn parse_delta_operation(
        d: &RawOp,
        cursor_pos: &mut u32,
        current_len: &mut u32,
    ) -> (r: Result<DeltaOp, CustomRustError>)
        requires
            *old(cursor_pos) <= *old(current_len),
        ensures
            match r {
                Ok(op) => parse_spec(d@, *old(cursor_pos), *old(current_len)) == Ok::<
                    _,
                    Seq<char>,
                >((op@, *final(cursor_pos), *final(current_len))),
                Err(e) => parse_spec(d@, *old(cursor_pos), *old(current_len))
                    == Err::<(DeltaOpView, u32, u32), _>(e.message@) && *final(cursor_pos)
                    == *old(cursor_pos) && *final(current_len) == *old(current_len),
            },
            *final(cursor_pos) <= *final(current_len),
    {
        if d.has_insert {
            match &d.insert {
                None => Err(CustomRustError::new("Insert value must be a string")),
                Some(s) => {
                    match utf16_len_u32(s.as_str()) {
                        None => Err(CustomRustError::new("Text length overflow")),
                        Some(n) => {
                            if n == 0 {
                                Ok(DeltaOp::Retain(0, None))
                            } else if n > u32::MAX - *cursor_pos || n > u32::MAX
                                - *current_len {
                                Err(CustomRustError::new("Text length overflow"))
                            } else {
                                *cursor_pos = *cursor_pos + n;
                                *current_len = *current_len + n;
                                Ok(DeltaOp::Inserted(s.clone(), d.attrs.clone()))
                            }
                        },
                    }
                },
            }
        } else if d.has_retain {
            match d.retain {
                None => Err(CustomRustError::new("Retain value must be a number")),
                Some(n) => {
                    if n > (*current_len - *cursor_pos) as u64 {
                        Err(CustomRustError::new("Retain exceeds text length"))
                    } else if n == 0 {
                        Ok(DeltaOp::Retain(0, None))
                    } else {
                        *cursor_pos = *cursor_pos + (n as u32);
                        Ok(DeltaOp::Retain(n as u32, d.attrs.clone()))
                    }
                },
            }
        } else if d.has_delete {
            match d.delete {
                None => Err(CustomRustError::new("Delete value must be a number")),
                Some(n) => {
                    if n > *current_len as u64 {
                        Err(CustomRustError::new("Delete exceeds text length"))
                    } else if n == 0 {
                        Ok(DeltaOp::Deleted(0))
                    } else {
                        if *cursor_pos as u64 <= n {
                            *cursor_pos = 0;
                        } else {
                            *cursor_pos = *cursor_pos - (n as u32);
                        }
                        *current_len = *current_len - (n as u32);
                        Ok(DeltaOp::Deleted(n as u32))
                    }
                },
            }
        } else {
            Err(CustomRustError::new("Invalid delta operation"))
        }
    }
}

/// One step of the engine: validate the head operation and, when it is
/// accepted, apply it. The validation counters and the text evolve
/// independently: a delete reduces the validated length by its full
/// count even where it is clipped at the end of the text.
pub open spec fn delta_run(
    text: Seq<u16>,
    pos: int,
    cursor: u32,
    len: u32,
    ops: Seq<RawOpView>,
) -> Result<Seq<u16>, Seq<char>>
    decreases ops.len(),
{
    if ops.len() == 0 {
        Ok(text)
    } else {
        match parse_spec(ops.first(), cursor, len) {
            Err(m) => Err(m),
            Ok((op, c2, l2)) => {
                if op is Inserted && text.len() + utf16_of(op->Inserted_0).len() > u32::MAX {
                    Err("Text length overflow"@)
                } else {
                    let (t2, p2) = apply_op_spec(text, pos, op);
                    delta_run(t2, p2, c2, l2, ops.drop_first())
                }
            },
        }
    }
}

/// The outcome of the whole operation list against a text: the edited
/// text, or the message of the first rejection.
pub open spec fn delta_outcome(text: Seq<u16>, ops: Seq<RawOpView>) -> Result<
    Seq<u16>,
    Seq<char>,
> {
    delta_run(text, 0, 0u32, text.len() as u32, ops)
}

/// Whether a decoded operation list is accepted against a text.
pub open spec fn delta_accepted(text: Seq<u16>, ops: Seq<RawOpView>) -> bool {
    delta_outcome(text, ops) is Ok
}

/// Whether a whole JSON delta payload is accepted against a text: it
/// decodes, and every decoded operation validates.
pub open spec fn payload_accepted(text: Seq<u16>, dj: Seq<char>) -> bool {
    match crate::hostjson::parsed_delta_of(dj) {
        Some(ops) => delta_accepted(text, ops),
        None => false,
    }
}

/// The exact error a rejected JSON delta payload yields against a
/// text: a payload that does not decode is a decoding error with the
/// fixed message, and a decoded payload that fails validation is an
/// invalid operation carrying the first rejection's message.
pub open spec fn payload_rejection_matches(text: Seq<u16>, dj: Seq<char>, e: DocError) -> bool {
    match crate::hostjson::parsed_delta_of(dj) {
        None => e is DecodingError && e.text_view() == "Failed to parse delta diff"@,
        Some(ops) => e is InvalidOperation && delta_outcome(text, ops) == Err::<Seq<u16>, _>(
            e.text_view(),
        ),
    }
}

/// The edited text a accepted JSON delta payload yields.
pub open spec fn payload_result(text: Seq<u16>, dj: Seq<char>) -> Seq<u16> {
    delta_outcome(text, crate::hostjson::parsed_delta_of(dj).unwrap())->Ok_0
}

/// Replay of one positioned edit; `None` when it is out of bounds.
pub open spec fn prim_apply(text: Seq<u16>, p: TextPrim) -> Option<Seq<u16>> {
    match p {
        TextPrim::InsertAt { pos, chunk, attrs } => if pos <= text.len() {
            Some(
                text.subrange(0, pos as int) + utf16_of(chunk@) + text.subrange(
                    pos as int,
                    text.len() as int,
                ),
            )
        } else {
            None
        },
        TextPrim::RemoveRange { pos, len } => if pos + len <= text.len() {
            Some(text.subrange(0, pos as int) + text.subrange(pos + len, text.len() as int))
        } else {
            None
        },
        TextPrim::FormatRange { pos, len, attrs } => if pos + len <= text.len() {
            Some(text)
        } else {
            None
        },
    }
}

/// Replay of a list of positioned edits, left to right.
pub open spec fn prims_apply(text: Seq<u16>, prims: Seq<TextPrim>) -> Option<Seq<u16>>
    decreases prims.len(),
{
    if prims.len() == 0 {
        Some(text)
    } else {
        match prim_apply(text, prims.first()) {
            None => None,
            Some(t2) => prims_apply(t2, prims.drop_first()),
        }
    }
}

proof fn lemma_prims_apply_snoc(text: Seq<u16>, prims: Seq<TextPrim>, p: TextPrim, mid: Seq<u16>)
    requires
        prims_apply(text, prims) == Some(mid),
    ensures
        prims_apply(text, prims.push(p)) == prim_apply(mid, p),
    decreases prims.len(),
{
    if prims.len() == 0 {
        assert(mid == text);
        assert(prims.push(p).drop_first() =~= Seq::<TextPrim>::empty());
        assert(prims.push(p).first() == p);
        match prim_apply(text, p) {
            None => {
                assert(prims_apply(text, prims.push(p)) is None);
            },
            Some(t2) => {
                assert(prims_apply(t2, prims.push(p).drop_first()) == Some(t2));
            },
        }
    } else {
        assert(prims.push(p).first() == prims.first());
        assert(prims.push(p).drop_first() =~= prims.drop_first().push(p));
        let t2 = prim_apply(text, prims.first()).unwrap();
        lemma_prims_apply_snoc(t2, prims.drop_first(), p, mid);
    }
}

/// Inserts the units of `chunk` at position `p0`.
fn splice_in(t: &mut Vec<u16>, p0: usize, units: &Vec<u16>)
    requires
        p0 <= old(t)@.len(),
        old(t)@.len() + units@.len() <= usize::MAX,
    ensures
        final(t)@ == old(t)@.subrange(0, p0 as int) + units@ + old(t)@.subrange(
            p0 as int,
            old(t)@.len() as int,
        ),
{
    let n = units.len();
    let ghost pre = t@;
    let mut w: usize = 0;
    while w < n
        invariant
            w <= n,
            n == units@.len(),
            pre.len() + n <= usize::MAX,
            p0 <= pre.len(),
            t@ =~= pre.subrange(0, p0 as int) + units@.subrange(0, w as int) + pre.subrange(
                p0 as int,
                pre.len() as int,
            ),
        decreases n - w,
    {
        t.insert(p0 + w, units[w]);
        proof {
            assert(units@.subrange(0, w + 1) =~= units@.subrange(0, w as int).push(
                units@[w as int],
            ));
            assert(t@ =~= pre.subrange(0, p0 as int) + units@.subrange(0, w + 1)
                + pre.subrange(p0 as int, pre.len() as int));
        }
        w = w + 1;
    }
    proof {
        assert(units@.subrange(0, n as int) =~= units@);
    }
}

/// Removes `m` units starting at position `p0`.
fn cut_out(t: &mut Vec<u16>, p0: usize, m: usize)
    requires
        p0 + m <= old(t)@.len(),
    ensures
        final(t)@ == old(t)@.subrange(0, p0 as int) + old(t)@.subrange(
            p0 + m,
            old(t)@.len() as int,
        ),
{
    let ghost pre = t@;
    let mut w: usize = 0;
    while w < m
        invariant
            w <= m,
            p0 + m <= pre.len(),
            t@ =~= pre.subrange(0, p0 as int) + pre.subrange(p0 + w, pre.len() as int),
        decreases m - w,
    {
        t.remove(p0);
        proof {
            assert(t@ =~= pre.subrange(0, p0 as int) + pre.subrange(p0 + w + 1, pre.len() as int));
        }
        w = w + 1;
    }
}

impl DeltaOperations {
    /// Decodes a JSON-encoded operation list and runs it against a
    /// text. Succeeds exactly when the payload decodes and every
    /// decoded operation validates; then the result is the payload's
    /// outcome and the returned positioned edits replay it on the
    /// input text. Otherwise the text is untouched and the error names
    /// the reason: a decoding error for an unparseable payload, the
    /// first validation rejection otherwise.
    pub fn apply_delta_to_text(text: &Vec<u16>, delta_json: &str) -> (r: Result<
        (Vec<u16>, Vec<TextPrim>),
        DocError,
    >)
        requires
            text@.len() <= u32::MAX,
        ensures
            r is Ok <==> payload_accepted(text@, delta_json@),
            match r {
                Ok((t2, prims)) => t2@ == payload_result(text@, delta_json@) && prims_apply(
                    text@,
                    prims@,
                ) == Some(t2@) && t2@.len() <= u32::MAX,
                Err(e) => payload_rejection_matches(text@, delta_json@, e),
            },
    {
        let raw = match crate::hostjson::parse_delta_ops(delta_json) {
            Some(raw) => raw,
            None => {
                return Err(DocError::DecodingError("Failed to parse delta diff".to_owned()));
            },
        };
        Self::apply_delta_diff_to_text(text, &raw)
    }

    /// Validates and applies a whole operation list against a text.
    ///
    /// Validation is exhaustive before anything observable is touched:
    /// the edited text and the positioned edits that reproduce it are
    /// returned only when every operation was accepted, and the first
    /// rejection is returned otherwise, the text untouched. The result
    /// is exactly `delta_outcome` of the inputs, and replaying the
    /// returned edits on the input text yields the returned text.
    pub fn apply_delta_diff_to_text(text: &Vec<u16>, ops: &Vec<RawOp>) -> (r: Result<
        (Vec<u16>, Vec<TextPrim>),
        DocError,
    >)
        requires
            text@.len() <= u32::MAX,
        ensures
            match r {
                Ok((t2, prims)) => delta_outcome(text@, raw_views(ops@)) == Ok::<_, Seq<char>>(
                    t2@,
                ) && prims_apply(text@, prims@) == Some(t2@) && t2@.len() <= u32::MAX,
                Err(e) => e is InvalidOperation && delta_outcome(text@, raw_views(ops@))
                    == Err::<Seq<u16>, _>(e.text_view()),
            },
    {
        let n = ops.len();
        let mut cur: Vec<u16> = Vec::new();
        cur.extend_from_slice(text.as_slice());
        proof {
            assert(cur@ =~= text@);
            assert(raw_views(ops@).subrange(0, n as int) =~= raw_views(ops@));
        }
        let mut prims: Vec<TextPrim> = Vec::new();
        let mut pos: usize = 0;
        let mut cursor: u32 = 0;
        let mut len: u32 = text.len() as u32;
        let mut i: usize = 0;
        loop
            invariant
                i <= n,
                n == ops@.len(),
                text@.len() <= u32::MAX,
                cursor <= len,
                cur@.len() <= u32::MAX,
                pos <= cur@.len(),
                delta_outcome(text@, raw_views(ops@)) == delta_run(
                    cur@,
                    pos as int,
                    cursor,
                    len,
                    raw_views(ops@).subrange(i as int, n as int),
                ),
                prims_apply(text@, prims@) == Some(cur@),
            decreases n - i,
        {
            if i >= n {
                proof {
                    assert(raw_views(ops@).subrange(i as int, n as int).len() == 0);
                }
                return Ok((cur, prims));
            }
            let ghost rest = raw_views(ops@).subrange(i as int, n as int);
            let ghost cursor_b = cursor;
            let ghost len_b = len;
            let ghost pos_b = pos as int;
            proof {
                assert(raw_views(ops@)[i as int] == ops@[i as int]@);
                assert(rest.first() == ops@[i as int]@);
                assert(rest.drop_first() =~= raw_views(ops@).subrange(i + 1, n as int));
            }
            let op = match Self::parse_delta_operation(&ops[i], &mut cursor, &mut len) {
                Ok(op) => op,
                Err(e) => {
                    return Err(DocError::InvalidOperation(e.message));
                },
            };
            let ghost opv = op@;
            let tl = cur.len();
            let p0 = if pos <= tl {
                pos
            } else {
                tl
            };
            let ghost cur_before = cur@;
            let ghost prims_before = prims@;
            match op {
                DeltaOp::Inserted(s, at) => {
                    let units = utf16_units(s.as_str());
                    if tl > u32::MAX as usize - units.len() {
                        return Err(DocError::InvalidOperation("Text length overflow".to_owned()));
                    }
                    splice_in(&mut cur, p0, &units);
                    let upos = p0;
                    pos = p0 + units.len();
                    let prim = TextPrim::InsertAt { pos: upos, chunk: s, attrs: at };
                    let ghost pv = prim;
                    prims.push(prim);
                    proof {
                        assert(prims@ =~= prims_before.push(pv));
                        lemma_prims_apply_snoc(text@, prims_before, pv, cur_before);
                        assert(cur@ =~= apply_op_spec(cur_before, pos_b, opv).0);
                        assert(prim_apply(cur_before, pv) == Some(cur@));
                    }
                },
                DeltaOp::Retain(k, at) => {
                    let kk = k as usize;
                    let m = if kk <= tl - p0 {
                        kk
                    } else {
                        tl - p0
                    };
                    if kk <= tl - p0 && pos <= tl {
                        pos = pos + kk;
                    } else {
                        pos = tl;
                    }
                    // a formatting retain re-styles the clipped range;
                    // the code units stay as they are
                    if m > 0 {
                        match at {
                            Some(av) => {
                                let prim = TextPrim::FormatRange { pos: p0, len: m, attrs: av };
                                let ghost pv = prim;
                                prims.push(prim);
                                proof {
                                    assert(prims@ =~= prims_before.push(pv));
                                    lemma_prims_apply_snoc(text@, prims_before, pv, cur_before);
                                    assert(prim_apply(cur_before, pv) == Some(cur_before));
                                    assert(cur@ =~= cur_before);
                                }
                            },
                            None => {},
                        }
                    }
                },
                DeltaOp::Deleted(k) => {
                    let kk = k as usize;
                    let m = if kk <= tl - p0 {
                        kk
                    } else {
                        tl - p0
                    };
                    cut_out(&mut cur, p0, m);
                    pos = p0;
                    if m > 0 {
                        prims.push(TextPrim::RemoveRange { pos: p0, len: m });
                        proof {
                            let p = TextPrim::RemoveRange { pos: p0, len: m };
                            assert(prims@ =~= prims_before.push(p));
                            lemma_prims_apply_snoc(text@, prims_before, p, cur_before);
                            assert(cur@ =~= apply_op_spec(cur_before, pos_b, opv).0);
                            assert(prim_apply(cur_before, p) == Some(cur@));
                        }
                    } else {
                        proof {
                            assert(cur@ =~= cur_before);
                            assert(cur@ =~= apply_op_spec(cur_before, pos_b, opv).0);
                        }
                    }
                },
            }
            proof {
                assert(parse_spec(rest.first(), cursor_b, len_b) == Ok::<_, Seq<char>>((
                    opv,
                    cursor,
                    len,
                )));
                let step = apply_op_spec(cur_before, pos_b, opv);
                assert(cur@ == step.0);
                assert(pos as int == step.1);
                assert(delta_run(cur_before, pos_b, cursor_b, len_b, rest) == delta_run(
                    cur@,
                    pos as int,
                    cursor,
                    len,
                    rest.drop_first(),
                ));
            }
            i = i + 1;
        }
    }
}

} // verus!
