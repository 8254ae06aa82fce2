use vstd::prelude::*;
use crate::error::EbmlError;
use crate::stream::{Element, Stream, children_from, text_of, DOCTYPE_ID, EBMLELEMENT_ID};

verus! {

/// Scans `kids` in order: `Ok(true)` at the first DocType element whose text
/// is "matroska", the error of the first DocType element whose text cannot be
/// read before that, and `Ok(false)` where neither comes.
pub open spec fn doctype_scan(b: Seq<u8>, kids: Seq<Element>) -> Result<bool, EbmlError>
    decreases kids.len(),
{
    if kids.len() == 0 {
        Ok(false)
    } else if kids[0].id == DOCTYPE_ID {
        match text_of(b, kids[0]) {
            Err(e) => Err(e),
            Ok(t) => if t == "matroska"@ {
                Ok(true)
            } else {
                doctype_scan(b, kids.drop_first())
            },
        }
    } else {
        doctype_scan(b, kids.drop_first())
    }
}

/// Whether `elem` is an EBML header whose DocType child names Matroska.
pub fn is_doctype_matroska(elem: &Element, stream: &mut Stream) -> (r: Result<bool, EbmlError>)
    requires
        elem.data_offset + elem.length <= u64::MAX,
    ensures
        final(stream).content() == old(stream).content(),
        elem.id != EBMLELEMENT_ID ==> r == Ok::<bool, EbmlError>(false),
        elem.id == EBMLELEMENT_ID ==> match children_from(
            old(stream).content(),
            elem.data_offset as nat,
            (elem.data_offset + elem.length) as nat,
        ) {
            Ok((kids, _)) => r == doctype_scan(old(stream).content(), kids),
            Err(e) => r == Err::<bool, EbmlError>(e),
        },
{
    if elem.id() != EBMLELEMENT_ID {
        return Ok(false);
    }
    let ghost b = stream.content();
    let list = match stream.children(elem) {
        Err(e) => return Err(e),
        Ok(l) => l,
    };
    let expected: String = "matroska".to_owned();
    proof {
        reveal_strlit("matroska");
    }
    let ghost kids = list@;
    assert(list@.subrange(0, list@.len() as int) =~= list@);
    let mut i: usize = 0;
    while i < list.len()
        invariant
            i <= list@.len(),
            elem.id == EBMLELEMENT_ID,
            list@ == kids,
            children_from(b, elem.data_offset as nat, (elem.data_offset + elem.length) as nat)
                == Ok::<(Seq<Element>, nat), EbmlError>((kids, children_from(b, elem.data_offset as nat, (elem.data_offset + elem.length) as nat)->Ok_0.1)),
            stream.content() == b,
            b == old(stream).content(),
            expected@ == "matroska"@,
            doctype_scan(b, list@) == doctype_scan(b, list@.subrange(i as int, list@.len() as int)),
        decreases list@.len() - i,
    {
        let e = list[i];
        let ghost rest = list@.subrange(i as int, list@.len() as int);
        assert(rest.drop_first() =~= list@.subrange(i + 1, list@.len() as int));
        assert(rest[0] == e);
        if e.id() == DOCTYPE_ID {
            let doctype = match stream.read_string(&e) {
                Err(x) => return Err(x),
                Ok(s) => s,
            };
            if doctype == expected {
                return Ok(true);
            }
        }
        i = i + 1;
    }
    Ok(false)
}

} // verus!
