//! Tagged variants in CBOR: a map with `$tag` and perhaps `$value`, or a map with one entry.
use vstd::prelude::*;

use crate::cbor::{entry_trees, lemma_map_tree, text_entry, CborTree, CborValue};
use crate::text::{join3, str_eq};

verus! {

/// The entries without the first one whose key is the text `key`.
pub open spec fn without_text(entries: Seq<(CborTree, CborTree)>, key: Seq<char>) -> Seq<
    (CborTree, CborTree),
>
    decreases entries.len(),
{
    if entries.len() == 0 {
        entries
    } else if entries[0].0 == CborTree::Text(key) {
        entries.drop_first()
    } else {
        seq![entries[0]] + without_text(entries.drop_first(), key)
    }
}

/// Takes the first entry with a text key out.
pub fn take_text_entry(entries: &mut Vec<(CborValue, CborValue)>, key: &str) -> (r: Option<
    CborValue,
>)
    ensures
        match (r, text_entry(entry_trees(old(entries)@), key@)) {
            (Some(v), Some(t)) => v@ == t,
            (None, None) => true,
            _ => false,
        },
        entry_trees(final(entries)@) == without_text(entry_trees(old(entries)@), key@),
{
    let ghost s = entry_trees(entries@);
    let mut i: usize = 0;
    proof {
        assert(s.skip(0) =~= s);
        assert(s.take(0) + without_text(s, key@) =~= without_text(s, key@));
    }
    while i < entries.len()
        invariant
            i <= entries@.len(),
            s == entry_trees(entries@),
            *entries == *old(entries),
            text_entry(s, key@) == text_entry(s.skip(i as int), key@),
            without_text(s, key@) == s.take(i as int) + without_text(s.skip(i as int), key@),
        decreases entries@.len() - i,
    {
        assert(s.skip(i as int)[0] == s[i as int]);
        assert(s[i as int] == (entries@[i as int].0@, entries@[i as int].1@));
        let hit = match &entries[i].0 {
            CborValue::Text(t) => str_eq(t.as_str(), key),
            _ => false,
        };
        if hit {
            let pair = entries.remove(i);
            proof {
                assert(s.skip(i as int).drop_first() =~= s.skip(i + 1));
                assert(entry_trees(entries@) =~= s.take(i as int) + s.skip(i + 1));
            }
            return Some(pair.1);
        }
        proof {
            assert(s.skip(i as int).drop_first() =~= s.skip(i + 1));
            assert(s.take(i as int) + (seq![s[i as int]] + without_text(s.skip(i + 1), key@))
                =~= s.take(i + 1) + without_text(s.skip(i + 1), key@));
        }
        i += 1;
    }
    proof {
        assert(s.skip(i as int) =~= Seq::empty());
        assert(s.take(i as int) + Seq::empty() =~= s);
    }
    None
}

/// The tag of a variant and its value, or why a CBOR value is no variant.
pub open spec fn variant_of(t: CborTree) -> Result<(Seq<char>, Option<CborTree>), Seq<char>> {
    match t {
        CborTree::Mapping(all) => {
            let rest = without_text(all, "$tag"@);
            match text_entry(all, "$tag"@) {
                Some(CborTree::Text(tag)) => {
                    let extra = without_text(rest, "$value"@);
                    if extra.len() > 0 && extra[0].0 is Text {
                        Err("unknown variant field '"@ + extra[0].0->Text_0 + "'"@)
                    } else {
                        Ok((tag, text_entry(rest, "$value"@)))
                    }
                },
                _ => if rest.len() == 1 && rest[0].0 is Text {
                    Ok((rest[0].0->Text_0, Some(rest[0].1)))
                } else {
                    Err("variant missing $tag"@)
                },
            }
        },
        _ => Err("expected variant map"@),
    }
}

pub open spec fn option_tree(v: Option<CborValue>) -> Option<CborTree> {
    match v {
        Some(x) => Some(x@),
        None => None,
    }
}

/// Takes a variant apart.
pub fn decode_variant_value(value: CborValue) -> (r: Result<(String, Option<CborValue>), String>)
    ensures
        match (r, variant_of(value@)) {
            (Ok((tag, inner)), Ok((t, i))) => tag@ == t && option_tree(inner) == i,
            (Err(e), Err(t)) => e@ == t,
            _ => false,
        },
{
    proof {
        if value is Mapping {
            lemma_map_tree(value);
        }
    }
    match value {
        CborValue::Mapping(entries) => {
            let mut map = entries;
            let tag = take_text_entry(&mut map, "$tag");
            if let Some(CborValue::Text(tag)) = tag {
                let inner = take_text_entry(&mut map, "$value");
                if map.len() > 0 {
                    assert(entry_trees(map@)[0] == (map@[0].0@, map@[0].1@));
                    if let CborValue::Text(extra) = &map[0].0 {
                        return Err(join3("unknown variant field '", extra.as_str(), "'"));
                    }
                }
                return Ok((tag, inner));
            }
            if map.len() == 1 {
                assert(entry_trees(map@)[0] == (map@[0].0@, map@[0].1@));
                let pair = map.pop();
                if let Some((CborValue::Text(tag), inner)) = pair {
                    return Ok((tag, Some(inner)));
                }
            }
            Err("variant missing $tag".to_owned())
        },
        _ => Err("expected variant map".to_owned()),
    }
}

/// Why a variant must not carry its value.
pub open spec fn unit_fault(tag: Seq<char>, inner: Option<CborTree>) -> Option<Seq<char>> {
    match inner {
        None => None,
        Some(CborTree::Null) => None,
        Some(_) => Some("variant '"@ + tag + "' must not carry a value"@),
    }
}

/// Whether a variant carries no value.
pub fn decode_unit_variant(tag: &str, inner: &Option<CborValue>) -> (r: Result<(), String>)
    ensures
        match (r, unit_fault(tag@, option_tree(*inner))) {
            (Ok(_), None) => true,
            (Err(e), Some(t)) => e@ == t,
            _ => false,
        },
{
    match inner {
        None => Ok(()),
        Some(CborValue::Null) => Ok(()),
        Some(_) => Err(join3("variant '", tag, "' must not carry a value")),
    }
}

/// The bytes that a variant carries.
pub open spec fn variant_bytes(tag: Seq<char>, inner: Option<CborTree>) -> Result<
    Seq<u8>,
    Seq<char>,
> {
    match inner {
        None => Err("variant '"@ + tag + "' missing value"@),
        Some(CborTree::Bytes(b)) => Ok(b),
        Some(_) => Err("variant '"@ + tag + "' must be bytes"@),
    }
}

pub fn decode_bytes_variant(tag: &str, inner: Option<CborValue>) -> (r: Result<Vec<u8>, String>)
    ensures
        match (r, variant_bytes(tag@, option_tree(inner))) {
            (Ok(b), Ok(t)) => b@ == t,
            (Err(e), Err(t)) => e@ == t,
            _ => false,
        },
{
    match inner {
        None => Err(join3("variant '", tag, "' missing value")),
        Some(CborValue::Bytes(b)) => Ok(b),
        Some(_) => Err(join3("variant '", tag, "' must be bytes")),
    }
}

/// The text that a variant carries.
pub open spec fn variant_text(tag: Seq<char>, inner: Option<CborTree>) -> Result<
    Seq<char>,
    Seq<char>,
> {
    match inner {
        None => Err("variant '"@ + tag + "' missing value"@),
        Some(CborTree::Text(b)) => Ok(b),
        Some(_) => Err("variant '"@ + tag + "' must be text"@),
    }
}

pub fn decode_text_variant(tag: &str, inner: Option<CborValue>) -> (r: Result<String, String>)
    ensures
        match (r, variant_text(tag@, option_tree(inner))) {
            (Ok(b), Ok(t)) => b@ == t,
            (Err(e), Err(t)) => e@ == t,
            _ => false,
        },
{
    match inner {
        None => Err(join3("variant '", tag, "' missing value")),
        Some(CborValue::Text(b)) => Ok(b),
        Some(_) => Err(join3("variant '", tag, "' must be text")),
    }
}

/// The tag of a variant without a value.
pub open spec fn unit_tag(t: CborTree) -> Result<Seq<char>, Seq<char>> {
    match variant_of(t) {
        Err(e) => Err(e),
        Ok((tag, inner)) => match unit_fault(tag, inner) {
            Some(e) => Err(e),
            None => Ok(tag),
        },
    }
}

pub fn decode_unit_tag(value: CborValue) -> (r: Result<String, String>)
    ensures
        match (r, unit_tag(value@)) {
            (Ok(s), Ok(t)) => s@ == t,
            (Err(e), Err(t)) => e@ == t,
            _ => false,
        },
{
    match decode_variant_value(value) {
        Err(e) => Err(e),
        Ok((tag, inner)) => match decode_unit_variant(tag.as_str(), &inner) {
            Ok(_) => Ok(tag),
            Err(e) => Err(e),
        },
    }
}

} // verus!
