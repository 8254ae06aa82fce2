use vstd::prelude::*;
use vstd::utf8::{valid_utf8, decode_utf8};
use crate::error::EbmlError;
use crate::source::{ByteSource, MAX_RELATIVE_SEEK};
use crate::vint::{Vint, vint_at, vint_value, lemma_found_vint_nonzero};

verus! {

pub const EBMLELEMENT_ID: u64 = 0x1A45DFA3;
pub const EBMLVERSION_ID: u64 = 0x4286;
pub const EBMLREADVERSION_ID: u64 = 0x42F7;
pub const EBMLMAXIDLENGTH_ID: u64 = 0x42F2;
pub const EBMLMAXSIZELENGTH_ID: u64 = 0x42F3;
pub const DOCTYPE_ID: u64 = 0x4282;
pub const DOCTYPEVERSION_ID: u64 = 0x4287;
pub const DOCTYPEREADVERSION_ID: u64 = 0x4285;
pub const DOCTYPEEXTENSION_ID: u64 = 0x4281;
pub const DOCTYPEEXTENSIONNAME_ID: u64 = 0x4283;
pub const DOCTYPEEXTENSIONVERSION_ID: u64 = 0x4284;
pub const CRC32_ID: u64 = 0xBF;
pub const VOID_ID: u64 = 0xEC;

/// A decoded element header: identifier (marker bits kept), payload length,
/// and the absolute offset where the payload starts. The identifier 0 marks
/// "no element here".
#[derive(Debug, Clone, Copy, PartialEq, Eq, Structural)]
pub struct Element {
    pub id: u64,
    pub length: u64,
    pub data_offset: u64,
}

impl Element {
    pub fn id(&self) -> (r: u64)
        ensures
            r == self.id,
    {
        self.id
    }

    pub fn length(&self) -> (r: u64)
        ensures
            r == self.length,
    {
        self.length
    }
}

/// An element header's fixed part, kept for format layers built on top.
pub struct Header {}

/// The element that stands for "no element at this position".
pub open spec fn sentinel() -> Element {
    Element { id: 0, length: 0, data_offset: 0 }
}

/// The element whose header starts at `p` of `b`, with the position of what
/// follows it: `Ok(None)` where nothing is left to read.
pub open spec fn element_at(b: Seq<u8>, p: nat) -> Result<Option<(Element, nat)>, EbmlError> {
    match vint_at(b, p) {
        Err(e) => Err(e),
        Ok((wid, raw_id)) => if wid == 0 {
            Ok(None)
        } else {
            match vint_at(b, p + wid) {
                Err(e) => Err(e),
                Ok((wlen, raw_len)) => {
                    let len = vint_value(wlen, raw_len);
                    let off = p + wid + wlen;
                    if len > MAX_RELATIVE_SEEK || off + len > u64::MAX {
                        Err(EbmlError::Seek)
                    } else {
                        Ok(Some((Element { id: raw_id as u64, length: len as u64, data_offset: off as u64 }, off + len)))
                    }
                }
            }
        },
    }
}

/// Puts `s` before the elements of a successful walk.
pub open spec fn prepend(s: Seq<Element>, r: Result<(Seq<Element>, nat), EbmlError>) -> Result<(Seq<Element>, nat), EbmlError> {
    match r {
        Ok((rest, fin)) => Ok((s + rest, fin)),
        Err(e) => Err(e),
    }
}

/// Order on positions that strictly drops from one element to the next.
pub open spec fn distance_to_end(b: Seq<u8>, p: nat) -> nat {
    if p <= b.len() {
        (b.len() + 1 - p) as nat
    } else {
        0
    }
}

/// The elements read one after another from `p` up to the first position
/// where none is left, and that position.
pub open spec fn elements_from(b: Seq<u8>, p: nat) -> Result<(Seq<Element>, nat), EbmlError>
    decreases distance_to_end(b, p),
    via elements_from_decreases
{
    match element_at(b, p) {
        Err(e) => Err(e),
        Ok(None) => Ok((Seq::empty(), p)),
        Ok(Some((e, q))) => prepend(seq![e], elements_from(b, q)),
    }
}

#[via_fn]
proof fn elements_from_decreases(b: Seq<u8>, p: nat) {
    lemma_element_advances(b, p);
}

/// The elements read one after another from `p` while the position is below
/// `end`, and the position reached. Where nothing is left to read before
/// `end`, the walk closes with the no-element marker.
pub open spec fn children_from(b: Seq<u8>, p: nat, end: nat) -> Result<(Seq<Element>, nat), EbmlError>
    decreases (if p < end { end - p } else { 0 }),
    via children_from_decreases
{
    if p >= end {
        Ok((Seq::empty(), p))
    } else {
        match element_at(b, p) {
            Err(e) => Err(e),
            Ok(None) => Ok((seq![sentinel()], p)),
            Ok(Some((e, q))) => prepend(seq![e], children_from(b, q, end)),
        }
    }
}

#[via_fn]
proof fn children_from_decreases(b: Seq<u8>, p: nat, end: nat) {
    lemma_element_advances(b, p);
}

/// The payload of `e` in `b`, or `Truncated` where `b` ends before it does.
pub open spec fn payload(b: Seq<u8>, e: Element) -> Result<Seq<u8>, EbmlError> {
    if e.data_offset + e.length <= b.len() {
        Ok(b.subrange(e.data_offset as int, e.data_offset + e.length))
    } else {
        Err(EbmlError::Truncated)
    }
}

/// The payload bytes folded as `v << 1 | byte`, each byte shifted by one bit
/// per byte that follows it.
pub open spec fn bit_shift_fold(s: Seq<u8>) -> u64
    decreases s.len(),
{
    if s.len() == 0 {
        0
    } else {
        (bit_shift_fold(s.drop_last()) << 1u64) | (s.last() as u64)
    }
}

/// The payload of `e` read as UTF-8 text.
pub open spec fn text_of(b: Seq<u8>, e: Element) -> Result<Seq<char>, EbmlError> {
    if e.length == 0 {
        Ok(Seq::empty())
    } else {
        match payload(b, e) {
            Err(x) => Err(x),
            Ok(bytes) => if valid_utf8(bytes) {
                Ok(decode_utf8(bytes))
            } else {
                Err(EbmlError::InvalidUtf8)
            },
        }
    }
}

proof fn lemma_element_advances(b: Seq<u8>, p: nat)
    ensures
        element_at(b, p) matches Ok(Some((e, q))) ==> p < b.len() && q > p && e.id != 0,
{
    lemma_found_vint_nonzero(b, p);
}

/// A source that holds exactly one well-formed element, and nothing after
/// it, has exactly that one root element.
pub proof fn lemma_single_root_element(b: Seq<u8>, e: Element)
    requires
        element_at(b, 0) == Ok::<Option<(Element, nat)>, EbmlError>(Some((e, b.len()))),
    ensures
        elements_from(b, 0) == Ok::<(Seq<Element>, nat), EbmlError>((seq![e], b.len())),
        elements_from(b, 0)->Ok_0.0.len() == 1,
{
    lemma_element_advances(b, 0);
    assert(element_at(b, b.len()) == Ok::<Option<(Element, nat)>, EbmlError>(None));
    assert(elements_from(b, b.len()) == Ok::<(Seq<Element>, nat), EbmlError>((Seq::<Element>::empty(), b.len())));
    assert(seq![e] + Seq::<Element>::empty() =~= seq![e]);
}

/// Where a payload from `start` to `end` is exactly spanned by the headers of
/// `es`, the i-th starting at `ps[i]` and ending where the next one starts,
/// the children walk yields exactly `es` and stops at `end`.
pub proof fn lemma_children_spanning(b: Seq<u8>, start: nat, end: nat, es: Seq<Element>, ps: Seq<nat>)
    requires
        ps.len() == es.len() + 1,
        ps[0] == start,
        ps[es.len() as int] == end,
        forall|i: int| 0 <= i < es.len() ==> #[trigger] ps[i] < end
            && element_at(b, ps[i]) == Ok::<Option<(Element, nat)>, EbmlError>(Some((es[i], ps[i + 1]))),
    ensures
        children_from(b, start, end) == Ok::<(Seq<Element>, nat), EbmlError>((es, end)),
    decreases es.len(),
{
    if es.len() == 0 {
        assert(es =~= Seq::<Element>::empty());
    } else {
        assert(ps[0] < end && element_at(b, ps[0]) == Ok::<Option<(Element, nat)>, EbmlError>(Some((es[0], ps[1]))));
        lemma_element_advances(b, start);
        let es2 = es.drop_first();
        let ps2 = ps.drop_first();
        assert forall|i: int| 0 <= i < es2.len() implies #[trigger] ps2[i] < end
            && element_at(b, ps2[i]) == Ok::<Option<(Element, nat)>, EbmlError>(Some((es2[i], ps2[i + 1]))) by {
            assert(ps[i + 1] < end);
        }
        lemma_children_spanning(b, ps[1], end, es2, ps2);
        assert(seq![es[0]] + es2 =~= es);
    }
}

/// Relies on String::from_utf8: it succeeds exactly on valid UTF-8, and the
/// string then holds the characters that the bytes encode.
#[verifier::external_body]
fn utf8_string(bytes: Vec<u8>) -> (r: Option<String>)
    ensures
        r is Some <==> valid_utf8(bytes@),
        r matches Some(s) ==> s@ == decode_utf8(bytes@),
{
    String::from_utf8(bytes).ok()
}

/// An element-tree reader over one owned byte source. Every operation moves
/// the single cursor of the source, so one reader serves one caller at a time.
pub struct Stream {
    source: ByteSource,
}

impl Stream {
    /// The bytes of the source.
    pub closed spec fn content(&self) -> Seq<u8> {
        self.source.content()
    }

    /// The cursor of the source.
    pub closed spec fn cursor(&self) -> nat {
        self.source.cursor()
    }

    pub fn new(source: ByteSource) -> (r: Stream)
        ensures
            r.content() == source.content(),
            r.cursor() == source.cursor(),
    {
        Stream { source }
    }

    pub fn position(&self) -> (r: u64)
        ensures
            r == self.cursor(),
    {
        self.source.position()
    }

    pub fn seek(&mut self, pos: u64)
        ensures
            final(self).content() == old(self).content(),
            final(self).cursor() == pos,
    {
        self.source.seek_to(pos);
    }

    /// Reads the element header at the cursor and moves the cursor past the
    /// element's payload; gives the no-element marker, cursor unmoved, where
    /// nothing is left to read.
    pub fn next_element(&mut self) -> (r: Result<Element, EbmlError>)
        ensures
            final(self).content() == old(self).content(),
            match element_at(old(self).content(), old(self).cursor()) {
                Err(e) => r == Err::<Element, EbmlError>(e),
                Ok(None) => r == Ok::<Element, EbmlError>(sentinel()) && final(self).cursor() == old(self).cursor(),
                Ok(Some((e, q))) => r == Ok::<Element, EbmlError>(e) && final(self).cursor() == q,
            },
    {
        let id = match Vint::read(&mut self.source) {
            Err(e) => return Err(e),
            Ok(v) => v,
        };
        if id.size() == 0 {
            return Ok(Element { id: 0, length: 0, data_offset: 0 });
        }
        let length = match Vint::read(&mut self.source) {
            Err(e) => return Err(e),
            Ok(v) => v,
        };
        let offset = self.source.position();
        let len = length.data();
        match self.source.seek_forward(len) {
            Err(e) => return Err(e),
            Ok(()) => {},
        }
        Ok(Element { id: id.raw(), length: len, data_offset: offset })
    }

    /// All elements from the start of the source, up to the first position
    /// where nothing is left to read.
    pub fn root_elements(&mut self) -> (r: Result<Vec<Element>, EbmlError>)
        ensures
            final(self).content() == old(self).content(),
            match elements_from(old(self).content(), 0) {
                Ok((es, fin)) => r matches Ok(v) && v@ == es && final(self).cursor() == fin,
                Err(e) => r == Err::<Vec<Element>, EbmlError>(e),
            },
    {
        let ghost b = self.content();
        self.source.seek_to(0);
        let mut v: Vec<Element> = Vec::new();
        loop
            invariant
                self.content() == b,
                b == old(self).content(),
                elements_from(b, 0) == prepend(v@, elements_from(b, self.cursor())),
            decreases distance_to_end(b, self.cursor()),
        {
            let ghost p = self.cursor();
            proof {
                lemma_element_advances(b, p);
            }
            let e = match self.next_element() {
                Err(x) => return Err(x),
                Ok(e) => e,
            };
            if e.id() != 0 {
                assert(v@.push(e) + elements_from(b, self.cursor())->Ok_0.0 =~= v@ + (seq![e] + elements_from(b, self.cursor())->Ok_0.0));
                v.push(e);
            } else {
                assert(elements_from(b, p) == Ok::<(Seq<Element>, nat), EbmlError>((Seq::<Element>::empty(), p)));
                assert(v@ + Seq::<Element>::empty() =~= v@);
                return Ok(v);
            }
        }
    }

    /// The elements inside `elem`: read one after another from its payload
    /// while the cursor stays below the payload's end. A source that ends
    /// before that closes the list with the no-element marker.
    pub fn children(&mut self, elem: &Element) -> (r: Result<Vec<Element>, EbmlError>)
        requires
            elem.data_offset + elem.length <= u64::MAX,
        ensures
            final(self).content() == old(self).content(),
            match children_from(old(self).content(), elem.data_offset as nat, (elem.data_offset + elem.length) as nat) {
                Ok((es, fin)) => r matches Ok(v) && v@ == es && final(self).cursor() == fin,
                Err(e) => r == Err::<Vec<Element>, EbmlError>(e),
            },
    {
        let ghost b = self.content();
        let end = elem.data_offset + elem.length;
        self.source.seek_to(elem.data_offset);
        let mut list: Vec<Element> = Vec::new();
        while self.source.position() < end
            invariant
                self.content() == b,
                b == old(self).content(),
                end == elem.data_offset + elem.length,
                children_from(b, elem.data_offset as nat, end as nat) == prepend(list@, children_from(b, self.cursor(), end as nat)),
            decreases (if self.cursor() < end { end - self.cursor() } else { 0 }),
        {
            let ghost p = self.cursor();
            proof {
                lemma_element_advances(b, p);
            }
            let e = match self.next_element() {
                Err(x) => return Err(x),
                Ok(e) => e,
            };
            if e.id() == 0 {
                list.push(e);
                return Ok(list);
            }
            assert(list@.push(e) + children_from(b, self.cursor(), end as nat)->Ok_0.0 =~= list@ + (seq![e] + children_from(b, self.cursor(), end as nat)->Ok_0.0));
            list.push(e);
        }
        assert(list@ + Seq::<Element>::empty() =~= list@);
        Ok(list)
    }

    /// The payload of `elem`; `Truncated` where the source ends before the
    /// payload does.
    pub fn read_element_data(&mut self, elem: &Element) -> (r: Result<Vec<u8>, EbmlError>)
        ensures
            final(self).content() == old(self).content(),
            match payload(old(self).content(), *elem) {
                Ok(bytes) => r matches Ok(v) && v@ == bytes && final(self).cursor() == elem.data_offset + elem.length,
                Err(e) => r == Err::<Vec<u8>, EbmlError>(e) && final(self).cursor() == elem.data_offset,
            },
    {
        self.source.seek_to(elem.data_offset);
        self.source.read_exact(elem.length)
    }

    /// The payload of `elem`, of at most eight bytes, folded into an integer
    /// with each byte shifted left by one bit per byte that follows it.
    pub fn read_unsigned_integer(&mut self, elem: &Element) -> (r: Result<u64, EbmlError>)
        ensures
            final(self).content() == old(self).content(),
            elem.length > 8 ==> r == Err::<u64, EbmlError>(EbmlError::ElementTooBigForInteger)
                && final(self).cursor() == old(self).cursor(),
            elem.length <= 8 ==> match payload(old(self).content(), *elem) {
                Ok(bytes) => r == Ok::<u64, EbmlError>(bit_shift_fold(bytes)),
                Err(e) => r == Err::<u64, EbmlError>(e),
            },
    {
        let length = elem.length;
        if length > 8 {
            return Err(EbmlError::ElementTooBigForInteger);
        }
        self.source.seek_to(elem.data_offset);
        let data = match self.source.read_exact(length) {
            Err(e) => return Err(e),
            Ok(d) => d,
        };
        let mut val: u64 = 0;
        let mut i: usize = 0;
        while i < data.len()
            invariant
                i <= data@.len(),
                val == bit_shift_fold(data@.subrange(0, i as int)),
            decreases data@.len() - i,
        {
            assert(data@.subrange(0, i + 1).drop_last() =~= data@.subrange(0, i as int));
            val = (val << 1u64) | data[i] as u64;
            i = i + 1;
        }
        assert(data@.subrange(0, data@.len() as int) =~= data@);
        Ok(val)
    }

    /// The payload of `elem` as UTF-8 text; an empty string, cursor unmoved,
    /// for an empty payload.
    pub fn read_string(&mut self, elem: &Element) -> (r: Result<String, EbmlError>)
        ensures
            final(self).content() == old(self).content(),
            elem.length == 0 ==> (r matches Ok(s) && s@ == Seq::<char>::empty()) && final(self).cursor() == old(self).cursor(),
            match text_of(old(self).content(), *elem) {
                Ok(t) => r matches Ok(s) && s@ == t,
                Err(e) => r == Err::<String, EbmlError>(e),
            },
    {
        if elem.length == 0 {
            return Ok(String::new());
        }
        self.source.seek_to(elem.data_offset);
        let bytes = match self.source.read_exact(elem.length) {
            Err(e) => return Err(e),
            Ok(v) => v,
        };
        match utf8_string(bytes) {
            None => Err(EbmlError::InvalidUtf8),
            Some(s) => Ok(s),
        }
    }
}

} // verus!
