//! Renders an extension table as Rust source: one `match` arm per extension.
use vstd::prelude::*;
use crate::registry::{Record, bad_line_message, parse_mimes, parse_registry, record_view, record_views};
use crate::chars::chars_of;
use vstd::string::{StrSliceExecFns, StringExecFns};

verus! {

/// What the rendered module starts with.
pub const MODULE_HEAD: &'static str = "// Extension-to-media-type table.\n\nuse content_type::MediaType;\n\npub fn lookup(ext: &str) -> Option<MediaType> {\n    match ext {";

/// What the rendered module ends with.
pub const MODULE_TAIL: &'static str = "\n        _ => None\n    }\n}\n";

pub const ARM_EXT: &'static str = "\n        \"";

pub const ARM_TYPE: &'static str = "\" => Some(MediaType {\n            type_: \"";

pub const ARM_SUBTYPE: &'static str = "\".to_string(),\n            subtype: \"";

pub const ARM_END: &'static str = "\".to_string(),\n            parameters: vec![]\n        }),";

/// `s` as the body of a Rust string literal: `"` and `\` get a backslash before them.
pub open spec fn escaped(s: Seq<char>) -> Seq<char>
    decreases s.len(),
{
    if s.len() == 0 {
        Seq::empty()
    } else if s.last() == '"' || s.last() == '\\' {
        escaped(s.drop_last()) + seq!['\\', s.last()]
    } else {
        escaped(s.drop_last()).push(s.last())
    }
}

/// The `match` arm of one record.
pub open spec fn arm(r: Record) -> Seq<char> {
    ARM_EXT@ + escaped(r.0) + ARM_TYPE@ + escaped(r.1) + ARM_SUBTYPE@ + escaped(r.2) + ARM_END@
}

/// Appends `s` to `out` as the body of a string literal.
fn append_escaped(out: &mut String, s: &str)
    ensures
        final(out)@ == old(out)@ + escaped(s@),
{
    let cs = chars_of(s);
    let mut k: usize = 0;
    while k < cs.len()
        invariant
            k <= cs.len(),
            cs@ == s@,
            out@ == old(out)@ + escaped(s@.take(k as int)),
        decreases cs.len() - k,
    {
        assert(s@.take(k as int + 1).drop_last() == s@.take(k as int));
        assert(s@.take(k as int + 1).last() == cs@[k as int]);
        if cs[k] == '"' || cs[k] == '\\' {
            out.append("\\");
            proof {
                reveal_strlit("\\");
            }
        }
        let one = s.substring_char(k, k + 1);
        out.append(one);
        k = k + 1;
    }
    assert(s@.take(cs.len() as int) == s@);
}

/// The arms of the records with a non-empty extension, in order.
pub open spec fn arms(rs: Seq<Record>) -> Seq<char>
    decreases rs.len(),
{
    if rs.len() == 0 {
        Seq::empty()
    } else if rs.last().0.len() == 0 {
        arms(rs.drop_last())
    } else {
        arms(rs.drop_last()) + arm(rs.last())
    }
}

/// The whole rendered module for a sequence of records.
pub open spec fn module_text(rs: Seq<Record>) -> Seq<char> {
    MODULE_HEAD@ + arms(rs) + MODULE_TAIL@
}

/// Parses a registry text and renders its table as Rust source whose `lookup`
/// answers by exact match; fails as `parse_mimes` does.
pub fn generate(mimes: &str) -> (r: Result<String, String>)
    ensures
        match r {
            Ok(s) => parse_registry(mimes@) is Ok && s@ == module_text(parse_registry(mimes@)->Ok_0),
            Err(m) => parse_registry(mimes@) is Err && m@ == bad_line_message(
                parse_registry(mimes@)->Err_0,
            ),
        },
{
    let records = match parse_mimes(mimes) {
        Ok(v) => v,
        Err(m) => return Err(m),
    };
    let ghost rs = record_views(records@);
    let mut out = String::from_str(MODULE_HEAD);
    let mut i: usize = 0;
    while i < records.len()
        invariant
            i <= records.len(),
            rs == record_views(records@),
            out@ == MODULE_HEAD@ + arms(rs.take(i as int)),
        decreases records.len() - i,
    {
        let rec = &records[i];
        assert(rs.take(i as int + 1).drop_last() == rs.take(i as int));
        assert(rs.take(i as int + 1).last() == record_view(*rec));
        if !rec.0.as_str().is_empty() {
            out.append(ARM_EXT);
            append_escaped(&mut out, rec.0.as_str());
            out.append(ARM_TYPE);
            append_escaped(&mut out, rec.1.as_str());
            out.append(ARM_SUBTYPE);
            append_escaped(&mut out, rec.2.as_str());
            out.append(ARM_END);
        }
        i = i + 1;
    }
    assert(rs.take(records.len() as int) == rs);
    out.append(MODULE_TAIL);
    Ok(out)
}

} // verus!
