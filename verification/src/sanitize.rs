//! Turning raw on-disk names into namespace identifiers.
//!
//! The pipeline is order-sensitive: dashes are replaced first, then a
//! leading ASCII digit is guarded with an underscore, and only then is the
//! source suffix stripped (for file names only), so that the digit check
//! always sees the name as it appears on disk.

use vstd::prelude::*;

verus! {

/// The recognized source-file suffix, as a sequence of characters.
pub open spec fn source_suffix() -> Seq<char> {
    seq!['.', 'r', 's']
}

/// True when `c` is an ASCII decimal digit.
pub open spec fn is_ascii_digit_char(c: char) -> bool {
    48 <= c as u32 && c as u32 <= 57
}

/// Every `-` replaced by `_`; all other characters kept as they are.
pub open spec fn spec_replace_dash(s: Seq<char>) -> Seq<char> {
    s.map_values(|c: char| if c == '-' { '_' } else { c })
}

/// An underscore prepended when the first character is an ASCII digit;
/// the empty name and all others are returned unchanged.
pub open spec fn spec_digit_prefix(s: Seq<char>) -> Seq<char> {
    if s.len() > 0 && is_ascii_digit_char(s[0]) {
        seq!['_'] + s
    } else {
        s
    }
}

/// The source suffix removed when the name ends with it; otherwise the
/// name is returned unchanged.
pub open spec fn spec_strip_suffix(s: Seq<char>) -> Seq<char> {
    if s.len() >= 3 && s.subrange(s.len() - 3, s.len() as int) == source_suffix() {
        s.take(s.len() - 3)
    } else {
        s
    }
}

/// The whole sanitization pipeline: dash replacement, then digit guard,
/// then (for file names only) suffix stripping.
pub open spec fn spec_sanitize(s: Seq<char>, is_file: bool) -> Seq<char> {
    let guarded = spec_digit_prefix(spec_replace_dash(s));
    if is_file {
        spec_strip_suffix(guarded)
    } else {
        guarded
    }
}

/// Replaces every dash in a name by an underscore.
pub fn handle_mod_name_with_dash(s: String) -> (r: String)
    ensures
        r@ == spec_replace_dash(s@),
{
    let len = s.as_str().unicode_len();
    let mut out = String::new();
    let mut i: usize = 0;
    while i < len
        invariant
            i <= len,
            len == s@.len(),
            out@ == spec_replace_dash(s@.take(i as int)),
        decreases len - i,
    {
        let c = s.as_str().get_char(i);
        if c == '-' {
            out.append("_");
        } else {
            let piece = s.as_str().substring_char(i, i + 1);
            out.append(piece);
        }
        proof {
            reveal_strlit("_");
            assert(spec_replace_dash(s@.take(i + 1)) =~= spec_replace_dash(
                s@.take(i as int),
            ).push(if s@[i as int] == '-' {
                '_'
            } else {
                s@[i as int]
            }));
            assert(out@ =~= spec_replace_dash(s@.take(i + 1)));
        }
        i = i + 1;
    }
    proof {
        assert(s@.take(len as int) =~= s@);
    }
    out
}

/// Prepends an underscore when the name starts with an ASCII digit, so
/// that the sanitized name is a valid identifier. An empty name is
/// returned unchanged.
pub fn handle_mod_name_with_digit_prefix(file_name: String) -> (r: String)
    ensures
        r@ == spec_digit_prefix(file_name@),
{
    let len = file_name.as_str().unicode_len();
    if len == 0 {
        file_name
    } else {
        let c = file_name.as_str().get_char(0);
        let code = c as u32;
        if 48 <= code && code <= 57 {
            let mut out = String::new();
            out.append("_");
            out.append(file_name.as_str());
            proof {
                reveal_strlit("_");
                assert(out@ =~= seq!['_'] + file_name@);
            }
            out
        } else {
            file_name
        }
    }
}

/// Strips the recognized source suffix from the end of a file name, and
/// returns any other name unchanged.
pub fn strip_rs_suffix(file_name: String) -> (r: String)
    ensures
        r@ == spec_strip_suffix(file_name@),
{
    let len = file_name.as_str().unicode_len();
    if len >= 3 {
        let c0 = file_name.as_str().get_char(len - 3);
        let c1 = file_name.as_str().get_char(len - 2);
        let c2 = file_name.as_str().get_char(len - 1);
        if c0 == '.' && c1 == 'r' && c2 == 's' {
            proof {
                assert(file_name@.subrange(len - 3, len as int) =~= source_suffix());
            }
            let stem = file_name.as_str().substring_char(0, len - 3);
            stem.to_owned()
        } else {
            proof {
                assert(file_name@.subrange(len - 3, len as int) != source_suffix());
            }
            file_name
        }
    } else {
        file_name
    }
}

/// The full sanitizer: raw on-disk name to declared identifier. Directory
/// names keep their suffix; file names have the source suffix removed.
pub fn sanitize(name: String, is_file: bool) -> (r: String)
    ensures
        r@ == spec_sanitize(name@, is_file),
{
    let guarded = handle_mod_name_with_digit_prefix(handle_mod_name_with_dash(name));
    if is_file {
        strip_rs_suffix(guarded)
    } else {
        guarded
    }
}

} // verus!
