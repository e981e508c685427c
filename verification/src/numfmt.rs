//! The number format table.
//!
//! A format code is either one of the codes every reader knows, each with a
//! fixed id below 50, or a custom code that the style sheet declares with
//! an id of its own. Asking for a built-in code gives its fixed id and
//! declares nothing; a new custom code gets the first id that is at least
//! 164 and above every id declared so far.

use vstd::prelude::*;
use crate::attrs::{escaped, push_escaped};
use crate::bytes::{bytes_eq, copy_of, lit, text_of};
use crate::error::PatchError;

verus! {

/// The first id a custom format can get.
pub const FIRST_CUSTOM: u32 = 164;

/// One past the last id that can belong to a built-in format.
pub const BUILTIN_END: u32 = 50;

/// A declared number format.
#[derive(Clone, Debug)]
pub struct NumberFormat {
    pub id: u32,
    /// The code as it is written in the style sheet.
    pub code: Vec<u8>,
}

/// What each format of a vector is: its id and its code.
pub open spec fn format_views(formats: Seq<NumberFormat>) -> Seq<(u32, Seq<u8>)> {
    Seq::new(formats.len(), |i: int| (formats[i].id, formats[i].code@))
}

/// The code of the built-in format with id `id`.
pub open spec fn builtin_format(id: u32) -> Option<Seq<u8>> {
    if id == 0 {
        Some(lit("General"))
    } else if id == 1 {
        Some(lit("0"))
    } else if id == 2 {
        Some(lit("0.00"))
    } else if id == 3 {
        Some(lit("#,##0"))
    } else if id == 4 {
        Some(lit("#,##0.00"))
    } else if id == 9 {
        Some(lit("0%"))
    } else if id == 10 {
        Some(lit("0.00%"))
    } else if id == 11 {
        Some(lit("0.00E+00"))
    } else if id == 12 {
        Some(lit("# ?/?"))
    } else if id == 13 {
        Some(lit("# ??/??"))
    } else if id == 14 {
        Some(lit("mm-dd-yy"))
    } else if id == 15 {
        Some(lit("d-mmm-yy"))
    } else if id == 16 {
        Some(lit("d-mmm"))
    } else if id == 17 {
        Some(lit("mmm-yy"))
    } else if id == 18 {
        Some(lit("h:mm AM/PM"))
    } else if id == 19 {
        Some(lit("h:mm:ss AM/PM"))
    } else if id == 20 {
        Some(lit("h:mm"))
    } else if id == 21 {
        Some(lit("h:mm:ss"))
    } else if id == 22 {
        Some(lit("m/d/yy h:mm"))
    } else if id == 37 {
        Some(lit("#,##0 ;(#,##0)"))
    } else if id == 38 {
        Some(lit("#,##0 ;[Red](#,##0)"))
    } else if id == 39 {
        Some(lit("#,##0.00;(#,##0.00)"))
    } else if id == 40 {
        Some(lit("#,##0.00;[Red](#,##0.00)"))
    } else if id == 45 {
        Some(lit("mm:ss"))
    } else if id == 46 {
        Some(lit("[h]:mm:ss"))
    } else if id == 47 {
        Some(lit("mmss.0"))
    } else if id == 48 {
        Some(lit("##0.0E+0"))
    } else if id == 49 {
        Some(lit("@"))
    } else {
        None
    }
}

/// The first id at or after `id` whose built-in code is `code`, or
/// `BUILTIN_END`.
pub open spec fn builtin_from(code: Seq<u8>, id: int) -> int
    decreases BUILTIN_END - id,
{
    if 0 <= id < BUILTIN_END && builtin_format(id as u32) != Some(code) {
        builtin_from(code, id + 1)
    } else {
        id
    }
}

/// The first position at or after `i` whose format has the code `code`,
/// or the length.
pub open spec fn code_position(t: Seq<(u32, Seq<u8>)>, code: Seq<u8>, i: int) -> int
    decreases t.len() - i,
{
    if 0 <= i < t.len() && t[i].1 != code {
        code_position(t, code, i + 1)
    } else {
        i
    }
}

/// The first position at or after `i` whose format has the id `id`, or the
/// length.
pub open spec fn id_position(t: Seq<(u32, Seq<u8>)>, id: u32, i: int) -> int
    decreases t.len() - i,
{
    if 0 <= i < t.len() && t[i].0 != id {
        id_position(t, id, i + 1)
    } else {
        i
    }
}

/// The id the next custom format gets: the first that is at least
/// `FIRST_CUSTOM` and above every declared id.
pub open spec fn next_id(t: Seq<(u32, Seq<u8>)>) -> int
    decreases t.len(),
{
    if t.len() == 0 {
        FIRST_CUSTOM as int
    } else {
        let rest = next_id(t.drop_last());
        if t.last().0 + 1 > rest {
            t.last().0 + 1
        } else {
            rest
        }
    }
}

/// The id of format code `code`: 0 for no code, the fixed id of a built-in
/// code, the id of the first declaration of a declared code, and the next
/// free id for a new one. `UnsupportedFeature` if no id is left.
pub open spec fn format_id(t: Seq<(u32, Seq<u8>)>, code: Seq<u8>) -> Result<u32, PatchError> {
    let builtin = builtin_from(code, 0);
    let at = code_position(t, escaped(code), 0);
    if code.len() == 0 {
        Ok(0)
    } else if builtin < BUILTIN_END {
        Ok(builtin as u32)
    } else if at < t.len() {
        Ok(t[at].0)
    } else if next_id(t) <= u32::MAX {
        Ok(next_id(t) as u32)
    } else {
        Err(PatchError::UnsupportedFeature)
    }
}

/// Whether asking for `code` declares a new format.
pub open spec fn declares(t: Seq<(u32, Seq<u8>)>, code: Seq<u8>) -> bool {
    &&& code.len() != 0
    &&& builtin_from(code, 0) >= BUILTIN_END
    &&& code_position(t, escaped(code), 0) >= t.len()
    &&& next_id(t) <= u32::MAX
}

/// The table after `code` was asked for.
pub open spec fn with_format(t: Seq<(u32, Seq<u8>)>, code: Seq<u8>) -> Seq<(u32, Seq<u8>)> {
    if declares(t, code) {
        t.push((next_id(t) as u32, escaped(code)))
    } else {
        t
    }
}

/// The code of the format with id `id`: that of its first declaration, or
/// else that of the built-in format with this id.
pub open spec fn format_code(t: Seq<(u32, Seq<u8>)>, id: u32) -> Result<Seq<u8>, PatchError> {
    let at = id_position(t, id, 0);
    if at < t.len() {
        Ok(t[at].1)
    } else {
        match builtin_format(id) {
            Some(code) => Ok(code),
            None => Err(PatchError::InvalidIndex),
        }
    }
}

/// The code of the built-in format with id `id`.
pub fn builtin_code(id: u32) -> (code: Option<&'static str>)
    ensures
        match code {
            Some(s) => builtin_format(id) == Some(lit(s)),
            None => builtin_format(id) is None,
        },
{
    match id {
        0 => Some("General"),
        1 => Some("0"),
        2 => Some("0.00"),
        3 => Some("#,##0"),
        4 => Some("#,##0.00"),
        9 => Some("0%"),
        10 => Some("0.00%"),
        11 => Some("0.00E+00"),
        12 => Some("# ?/?"),
        13 => Some("# ??/??"),
        14 => Some("mm-dd-yy"),
        15 => Some("d-mmm-yy"),
        16 => Some("d-mmm"),
        17 => Some("mmm-yy"),
        18 => Some("h:mm AM/PM"),
        19 => Some("h:mm:ss AM/PM"),
        20 => Some("h:mm"),
        21 => Some("h:mm:ss"),
        22 => Some("m/d/yy h:mm"),
        37 => Some("#,##0 ;(#,##0)"),
        38 => Some("#,##0 ;[Red](#,##0)"),
        39 => Some("#,##0.00;(#,##0.00)"),
        40 => Some("#,##0.00;[Red](#,##0.00)"),
        45 => Some("mm:ss"),
        46 => Some("[h]:mm:ss"),
        47 => Some("mmss.0"),
        48 => Some("##0.0E+0"),
        49 => Some("@"),
        _ => None,
    }
}

/// The id of the built-in format with code `code`, if there is one.
pub fn builtin_id(code: &[u8]) -> (id: Option<u32>)
    ensures
        match id {
            Some(i) => builtin_from(code@, 0) == i && i < BUILTIN_END,
            None => builtin_from(code@, 0) >= BUILTIN_END,
        },
{
    let mut id: u32 = 0;
    while id < BUILTIN_END
        invariant
            id <= BUILTIN_END,
            builtin_from(code@, 0) == builtin_from(code@, id as int),
        decreases BUILTIN_END - id,
    {
        match builtin_code(id) {
            Some(s) => {
                if bytes_eq(s.as_bytes(), code) {
                    return Some(id);
                }
            },
            None => {},
        }
        id += 1;
    }
    None
}

/// The declared number formats of a style sheet.
pub struct NumberFormatTable {
    formats: Vec<NumberFormat>,
}

impl View for NumberFormatTable {
    type V = Seq<(u32, Seq<u8>)>;

    closed spec fn view(&self) -> Seq<(u32, Seq<u8>)> {
        format_views(self.formats@)
    }
}

impl NumberFormatTable {
    /// A table without declarations.
    pub fn new() -> (table: Self)
        ensures
            table@ == Seq::<(u32, Seq<u8>)>::empty(),
    {
        let table = NumberFormatTable { formats: Vec::new() };
        assert(table@ =~= Seq::<(u32, Seq<u8>)>::empty());
        table
    }

    /// A table that holds the declarations of a style sheet, in order.
    pub fn from_formats(formats: Vec<NumberFormat>) -> (table: Self)
        ensures
            table@ == format_views(formats@),
    {
        NumberFormatTable { formats }
    }

    /// The number of declarations.
    pub fn len(&self) -> (n: usize)
        ensures
            n == self@.len(),
    {
        self.formats.len()
    }

    /// The declaration at position `i`.
    pub fn get(&self, i: usize) -> (format: &NumberFormat)
        requires
            i < self@.len(),
        ensures
            (format.id, format.code@) == self@[i as int],
    {
        &self.formats[i]
    }

    /// A copy of the table.
    pub fn duplicate(&self) -> (copy: Self)
        ensures
            copy@ == self@,
    {
        let mut formats: Vec<NumberFormat> = Vec::new();
        let mut i: usize = 0;
        while i < self.formats.len()
            invariant
                i <= self.formats.len(),
                format_views(formats@) == self@.subrange(0, i as int),
            decreases self.formats.len() - i,
        {
            let f = &self.formats[i];
            let ghost before = format_views(formats@);
            formats.push(NumberFormat { id: f.id, code: copy_of(f.code.as_slice()) });
            assert(format_views(formats@) =~= before.push((f.id, f.code@)));
            i += 1;
            assert(format_views(formats@) =~= self@.subrange(0, i as int));
        }
        assert(self@.subrange(0, self@.len() as int) =~= self@);
        NumberFormatTable { formats }
    }

    /// The position of the first declaration with the code `code`.
    fn find_code(&self, code: &[u8]) -> (at: usize)
        ensures
            at == code_position(self@, code@, 0),
            at <= self@.len(),
    {
        let mut i: usize = 0;
        while i < self.formats.len()
            invariant
                i <= self.formats.len(),
                code_position(self@, code@, 0) == code_position(self@, code@, i as int),
            decreases self.formats.len() - i,
        {
            if bytes_eq(self.formats[i].code.as_slice(), code) {
                return i;
            }
            i += 1;
        }
        i
    }

    /// The position of the first declaration with the id `id`.
    fn find_id(&self, id: u32) -> (at: usize)
        ensures
            at == id_position(self@, id, 0),
            at <= self@.len(),
    {
        let mut i: usize = 0;
        while i < self.formats.len()
            invariant
                i <= self.formats.len(),
                id_position(self@, id, 0) == id_position(self@, id, i as int),
            decreases self.formats.len() - i,
        {
            if self.formats[i].id == id {
                return i;
            }
            i += 1;
        }
        i
    }

    /// The id the next custom format gets.
    fn free_id(&self) -> (id: u64)
        ensures
            id == next_id(self@),
    {
        let mut id: u64 = FIRST_CUSTOM as u64;
        let mut i: usize = 0;
        assert(self@.subrange(0, 0) =~= Seq::<(u32, Seq<u8>)>::empty());
        while i < self.formats.len()
            invariant
                i <= self.formats.len(),
                id == next_id(self@.subrange(0, i as int)),
                id <= u32::MAX + 1,
            decreases self.formats.len() - i,
        {
            let declared: u64 = self.formats[i].id as u64 + 1;
            proof {
                let next = self@.subrange(0, i + 1);
                assert(next.drop_last() =~= self@.subrange(0, i as int));
                assert(next.last() == self@[i as int]);
            }
            if declared > id {
                id = declared;
            }
            i += 1;
        }
        assert(self@.subrange(0, self@.len() as int) =~= self@);
        id
    }

    /// The id of format code `code`. A code that is neither built in nor
    /// declared is declared with the next free id.
    pub fn get_or_insert(&mut self, code: &[u8]) -> (outcome: Result<u32, PatchError>)
        ensures
            outcome == format_id(old(self)@, code@),
            final(self)@ == with_format(old(self)@, code@),
    {
        if code.len() == 0 {
            return Ok(0);
        }
        match builtin_id(code) {
            Some(id) => {
                return Ok(id);
            },
            None => {},
        }
        let mut key: Vec<u8> = Vec::new();
        push_escaped(&mut key, code);
        assert(key@ =~= escaped(code@));
        let at = self.find_code(key.as_slice());
        if at < self.formats.len() {
            return Ok(self.formats[at].id);
        }
        let id = self.free_id();
        if id > 0xffff_ffffu64 {
            return Err(PatchError::UnsupportedFeature);
        }
        let ghost before = self@;
        self.formats.push(NumberFormat { id: id as u32, code: key });
        assert(self@ =~= before.push((id as u32, escaped(code@))));
        Ok(id as u32)
    }

    /// The code of the format with id `id`, as the style sheet writes it;
    /// `InvalidIndex` if the id is neither declared nor built in.
    pub fn resolve(&self, id: u32) -> (outcome: Result<Vec<u8>, PatchError>)
        ensures
            match outcome {
                Ok(code) => format_code(self@, id) == Ok::<Seq<u8>, PatchError>(code@),
                Err(e) => format_code(self@, id) == Err::<Seq<u8>, PatchError>(e),
            },
    {
        let at = self.find_id(id);
        if at < self.formats.len() {
            Ok(copy_of(self.formats[at].code.as_slice()))
        } else {
            match builtin_code(id) {
                Some(s) => Ok(text_of(s)),
                None => Err(PatchError::InvalidIndex),
            }
        }
    }
}

/// Where a code stands in a table is where it stands in any longer one.
pub proof fn lemma_code_position(t: Seq<(u32, Seq<u8>)>, code: Seq<u8>, i: int)
    requires
        0 <= i <= t.len(),
    ensures
        i <= code_position(t, code, i) <= t.len(),
        code_position(t, code, i) < t.len() ==> t[code_position(t, code, i)].1 == code,
        forall|j: int| i <= j < code_position(t, code, i) ==> t[j].1 != code,
    decreases t.len() - i,
{
    if i < t.len() && t[i].1 != code {
        lemma_code_position(t, code, i + 1);
    }
}

/// A code is found at the first position that holds it.
pub proof fn lemma_code_position_is(t: Seq<(u32, Seq<u8>)>, code: Seq<u8>, p: int)
    requires
        0 <= p <= t.len(),
        p < t.len() ==> t[p].1 == code,
        forall|j: int| 0 <= j < p ==> t[j].1 != code,
    ensures
        code_position(t, code, 0) == p,
{
    lemma_code_position(t, code, 0);
}

/// Asking twice for the same code gives the same id both times, and the
/// second call declares nothing.
pub proof fn lemma_format_twice(t: Seq<(u32, Seq<u8>)>, code: Seq<u8>)
    ensures
        format_id(with_format(t, code), code) == format_id(t, code),
        with_format(with_format(t, code), code) == with_format(t, code),
        with_format(t, code).len() <= t.len() + 1,
{
    lemma_code_position(t, escaped(code), 0);
    if declares(t, code) {
        let more = t.push((next_id(t) as u32, escaped(code)));
        lemma_code_position_is(more, escaped(code), t.len() as int);
    }
}

/// A declaration changes no id that was given before it, and a new id is
/// never one of the reserved ids below `FIRST_CUSTOM`.
pub proof fn lemma_format_keeps_ids(t: Seq<(u32, Seq<u8>)>, code: Seq<u8>, other: Seq<u8>)
    requires
        format_id(t, other) is Ok,
        !declares(t, other),
    ensures
        format_id(with_format(t, code), other) == format_id(t, other),
        declares(t, code) ==> (format_id(t, code) matches Ok(id) && id >= FIRST_CUSTOM),
{
    lemma_code_position(t, escaped(other), 0);
    lemma_next_id_floor(t);
    if declares(t, code) {
        let more = t.push((next_id(t) as u32, escaped(code)));
        if other.len() != 0 && builtin_from(other, 0) >= BUILTIN_END {
            lemma_code_position_is(more, escaped(other), code_position(t, escaped(other), 0));
        }
    }
}

/// The next free id is at least `FIRST_CUSTOM`.
pub proof fn lemma_next_id_floor(t: Seq<(u32, Seq<u8>)>)
    ensures
        next_id(t) >= FIRST_CUSTOM,
    decreases t.len(),
{
    if t.len() > 0 {
        lemma_next_id_floor(t.drop_last());
    }
}

} // verus!
